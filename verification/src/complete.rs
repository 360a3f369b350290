//! Completeness: each technique does all that it can. Every pattern that a
//! technique looks for, wherever it stands in a unit, has its eliminations
//! or its value in the grid that the technique leaves.
use vstd::prelude::*;
use crate::model::{
    CellModel, grid_wf, in_grid, same_house, shrinks, lemma_minus_facts, lemma_shrinks_keeps_wf,
    lemma_shrinks_refl, lemma_shrinks_trans, keeps_set_cells, lemma_keeps_set_cells_trans,
    lemma_set_cell_keeps_set_cells, lemma_set_cell_wf, set_cell_model, cell_index, sets_some_cell,
    lemma_sets_some_cell_trans, narrows, lemma_narrows_refl, lemma_narrows_trans, lemma_set_cell_narrows,
    lemma_set_cell_others, consistent,
};
use crate::rules::{
    ref_index, is_unit, unit_poss, unit_technique, unit_technique_rem, unit_technique_upto, all_units,
    naked_pairs_all, naked_triples_all, same_pair, naked_pair_rem, naked_triple, triple_hit,
    naked_triple_rem, union3, lemma_unit_rem_at, lemma_grid_minus_shrinks, lemma_all_units_are_units,
    naked_single_step, naked_singles_upto, naked_singles, block_refs, col_refs, row_refs,
    pointing_rem, pointing_block, pointing_upto, pointing_all, third_confined, column_confined,
    at_least_two, box_line_row_rem, box_line_col_rem, box_line_step, box_line_upto, box_line_all,
    grid_minus, hidden_pairs_all, hidden_pair_rem, only_in, unique_in, unique_candidates,
    hidden_single_step, hidden_singles_unit_upto, hidden_singles_unit, hidden_singles_upto, hidden_unit,
    hidden_singles_rows, hidden_singles_cols, hidden_singles_blocks, lemma_row_is_unit, lemma_col_is_unit,
    lemma_block_is_unit,
};
use crate::sound::lemma_index_parts;
use crate::solver::CellRef;

verus! {

/// Board cell `n` of `g` is open and lists `v`.
pub open spec fn open_with(g: Seq<CellModel>, n: int, v: i32) -> bool {
    g[n].value == 0 && g[n].poss.contains(v)
}

/// The cell at position `k` of `unit` in `g`.
pub open spec fn at(g: Seq<CellModel>, unit: Seq<CellRef>, k: int) -> CellModel {
    g[ref_index(unit[k])]
}

/// Positions `i` and `j` of `unit` are two open cells of `g` whose
/// candidates are exactly the two values `a` and `b`.
pub open spec fn naked_pair_at(g: Seq<CellModel>, unit: Seq<CellRef>, i: int, j: int, a: i32, b: i32) -> bool {
    &&& 0 <= i < 9 && 0 <= j < 9 && i != j && a != b
    &&& at(g, unit, i).value == 0
    &&& at(g, unit, j).value == 0
    &&& forall|v: i32| #[trigger] at(g, unit, i).poss.contains(v) <==> (v == a || v == b)
    &&& forall|v: i32| #[trigger] at(g, unit, j).poss.contains(v) <==> (v == a || v == b)
}

/// Positions `i`, `j` and `l` of `unit` are three open cells of `g`, each
/// with two or three candidates, whose candidates together are exactly the
/// three values `a`, `b` and `c`.
pub open spec fn naked_triple_at(g: Seq<CellModel>, unit: Seq<CellRef>, i: int, j: int, l: int, a: i32, b: i32, c: i32) -> bool {
    &&& 0 <= i < 9 && 0 <= j < 9 && 0 <= l < 9 && i != j && i != l && j != l
    &&& a != b && a != c && b != c
    &&& at(g, unit, i).value == 0 && (at(g, unit, i).poss.len() == 2 || at(g, unit, i).poss.len() == 3)
    &&& at(g, unit, j).value == 0 && (at(g, unit, j).poss.len() == 2 || at(g, unit, j).poss.len() == 3)
    &&& at(g, unit, l).value == 0 && (at(g, unit, l).poss.len() == 2 || at(g, unit, l).poss.len() == 3)
    &&& forall|v: i32| (#[trigger] at(g, unit, i).poss.contains(v) || #[trigger] at(g, unit, j).poss.contains(v)
        || #[trigger] at(g, unit, l).poss.contains(v)) <==> (v == a || v == b || v == c)
}

/// A list without repetitions whose members are exactly the distinct `a`
/// and `b` is `[a, b]` or `[b, a]`.
proof fn lemma_two_members(s: Seq<i32>, a: i32, b: i32)
    requires
        s.no_duplicates(),
        a != b,
        forall|v: i32| #[trigger] s.contains(v) <==> (v == a || v == b),
    ensures
        s.len() == 2,
        (s[0] == a && s[1] == b) || (s[0] == b && s[1] == a),
{
    assert(s.to_set() =~= set![a, b]);
    s.unique_seq_to_set();
    assert(set![a, b].len() == 2);
    assert(s.contains(s[0]) && s.contains(s[1]));
}

/// What a unit technique leaves at a position of the unit.
proof fn lemma_unit_technique_at(g: Seq<CellModel>, unit: Seq<CellRef>, t: u8, k: int)
    requires
        g.len() >= 81,
        is_unit(unit),
        0 <= k < 9,
    ensures
        0 <= ref_index(unit[k]) < 81,
        unit_technique(g, unit, t)[ref_index(unit[k])]
            == at(g, unit, k).minus(unit_technique_rem(unit_poss(g, unit), k, t)),
{
    let p = unit_poss(g, unit);
    assert(in_grid(unit[k].x as int, unit[k].y as int));
    lemma_unit_rem_at(unit, |k2: int| unit_technique_rem(p, k2, t), k);
}

/// A set cell in a unit holds none of the values that an open cell of the
/// unit lists.
proof fn lemma_set_peer(g: Seq<CellModel>, unit: Seq<CellRef>, i: int, k: int, v: i32)
    requires
        grid_wf(g),
        is_unit(unit),
        0 <= i < 9,
        0 <= k < 9,
        at(g, unit, i).value == 0,
        at(g, unit, i).poss.contains(v),
        at(g, unit, k).value > 0,
    ensures
        !at(g, unit, k).poss.contains(v),
{
    let ni = ref_index(unit[i]);
    let nk = ref_index(unit[k]);
    assert(in_grid(unit[i].x as int, unit[i].y as int));
    assert(in_grid(unit[k].x as int, unit[k].y as int));
    assert(i != k);
    assert(ni != nk && same_house(ni, nk));
    assert(g[nk].wf());
    assert(g[nk].poss == seq![g[nk].value]);
}

/// Every step of a unit technique keeps the grid well formed; later steps
/// only drop candidates.
pub proof fn lemma_unit_upto_shrinks(g: Seq<CellModel>, t: u8, u1: nat, u2: nat)
    requires
        grid_wf(g),
        u1 <= u2,
    ensures
        grid_wf(unit_technique_upto(g, u2, t)),
        shrinks(unit_technique_upto(g, u1, t), unit_technique_upto(g, u2, t)),
    decreases u2,
{
    if u2 == 0 {
        lemma_shrinks_refl(g);
    } else if u1 == u2 {
        lemma_unit_upto_shrinks(g, t, 0, (u2 - 1) as nat);
        let prev = unit_technique_upto(g, (u2 - 1) as nat, t);
        lemma_grid_minus_shrinks(prev, crate::rules::unit_rem(all_units()[u2 - 1],
            |k: int| unit_technique_rem(unit_poss(prev, all_units()[u2 - 1]), k, t)));
        lemma_shrinks_keeps_wf(prev, unit_technique_upto(g, u2, t));
        lemma_shrinks_refl(unit_technique_upto(g, u2, t));
    } else {
        lemma_unit_upto_shrinks(g, t, u1, (u2 - 1) as nat);
        let prev = unit_technique_upto(g, (u2 - 1) as nat, t);
        lemma_grid_minus_shrinks(prev, crate::rules::unit_rem(all_units()[u2 - 1],
            |k: int| unit_technique_rem(unit_poss(prev, all_units()[u2 - 1]), k, t)));
        lemma_shrinks_keeps_wf(prev, unit_technique_upto(g, u2, t));
        lemma_shrinks_trans(unit_technique_upto(g, u1, t), prev, unit_technique_upto(g, u2, t));
    }
}

/// Naked pairs in one unit: when two open cells of the unit, at any two
/// positions, have the same two candidates, no other cell of the unit
/// lists either of them afterwards.
pub proof fn lemma_naked_pair_clears_unit(g: Seq<CellModel>, unit: Seq<CellRef>, i: int, j: int, a: i32, b: i32, k: int)
    requires
        grid_wf(g),
        is_unit(unit),
        naked_pair_at(g, unit, i, j, a, b),
        0 <= k < 9,
        k != i,
        k != j,
    ensures
        !unit_technique(g, unit, 0)[ref_index(unit[k])].poss.contains(a),
        !unit_technique(g, unit, 0)[ref_index(unit[k])].poss.contains(b),
{
    let p = unit_poss(g, unit);
    assert(in_grid(unit[i].x as int, unit[i].y as int));
    assert(in_grid(unit[j].x as int, unit[j].y as int));
    assert(at(g, unit, i).wf() && at(g, unit, j).wf());
    lemma_two_members(at(g, unit, i).poss, a, b);
    lemma_two_members(at(g, unit, j).poss, a, b);
    assert(p[i] == at(g, unit, i).poss && p[j] == at(g, unit, j).poss);
    assert(same_pair(p[i], p[j]));
    assert(at(g, unit, i).poss.contains(a) && at(g, unit, i).poss.contains(b));
    assert(naked_pair_rem(p, k).contains(a));
    assert(naked_pair_rem(p, k).contains(b));
    lemma_unit_technique_at(g, unit, 0, k);
    lemma_minus_facts(at(g, unit, k), unit_technique_rem(p, k, 0));
    if at(g, unit, k).value > 0 {
        lemma_set_peer(g, unit, i, k, a);
        lemma_set_peer(g, unit, i, k, b);
    }
}

/// Naked triples in one unit: when three open cells of the unit, at any
/// three positions, each with two or three candidates, have exactly three
/// values between them, no other cell of the unit lists any of the three
/// afterwards.
pub proof fn lemma_naked_triple_clears_unit(g: Seq<CellModel>, unit: Seq<CellRef>, i: int, j: int, l: int,
    a: i32, b: i32, c: i32, k: int)
    requires
        grid_wf(g),
        is_unit(unit),
        naked_triple_at(g, unit, i, j, l, a, b, c),
        0 <= k < 9,
        k != i,
        k != j,
        k != l,
    ensures
        !unit_technique(g, unit, 1)[ref_index(unit[k])].poss.contains(a),
        !unit_technique(g, unit, 1)[ref_index(unit[k])].poss.contains(b),
        !unit_technique(g, unit, 1)[ref_index(unit[k])].poss.contains(c),
{
    let p = unit_poss(g, unit);
    assert(p[i] == at(g, unit, i).poss && p[j] == at(g, unit, j).poss && p[l] == at(g, unit, l).poss);
    let s = union3(p[i], p[j], p[l]);
    assert(s =~= set![a, b, c]) by {
        assert forall|v: i32| s.contains(v) <==> set![a, b, c].contains(v) by {
            assert(p[i].to_set().contains(v) == p[i].contains(v));
            assert(p[j].to_set().contains(v) == p[j].contains(v));
            assert(p[l].to_set().contains(v) == p[l].contains(v));
            assert((at(g, unit, i).poss.contains(v) || at(g, unit, j).poss.contains(v) || at(g, unit, l).poss.contains(v))
                <==> (v == a || v == b || v == c));
        }
    }
    assert(naked_triple(p, i, j, l));
    assert(triple_hit(p, k, a, i, j, l));
    assert(triple_hit(p, k, b, i, j, l));
    assert(triple_hit(p, k, c, i, j, l));
    assert(naked_triple_rem(p, k).contains(a));
    assert(naked_triple_rem(p, k).contains(b));
    assert(naked_triple_rem(p, k).contains(c));
    lemma_unit_technique_at(g, unit, 1, k);
    lemma_minus_facts(at(g, unit, k), unit_technique_rem(p, k, 1));
    if at(g, unit, k).value > 0 {
        assert forall|v: i32| v == a || v == b || v == c implies !at(g, unit, k).poss.contains(v) by {
            if at(g, unit, i).poss.contains(v) {
                lemma_set_peer(g, unit, i, k, v);
            } else if at(g, unit, j).poss.contains(v) {
                lemma_set_peer(g, unit, j, k, v);
            } else {
                assert(at(g, unit, l).poss.contains(v));
                lemma_set_peer(g, unit, l, k, v);
            }
        }
    }
}


/// Naked pairs over every unit: a naked pair that a unit holds when its
/// turn comes, at any two positions, leaves neither of its values anywhere
/// else in that unit once every unit has had its turn.
pub proof fn lemma_naked_pairs_all_complete(g: Seq<CellModel>, u: nat, i: int, j: int, a: i32, b: i32, k: int)
    requires
        grid_wf(g),
        u < 27,
        naked_pair_at(unit_technique_upto(g, u, 0), all_units()[u as int], i, j, a, b),
        0 <= k < 9,
        k != i,
        k != j,
    ensures
        !naked_pairs_all(g)[ref_index(all_units()[u as int][k])].poss.contains(a),
        !naked_pairs_all(g)[ref_index(all_units()[u as int][k])].poss.contains(b),
{
    let unit = all_units()[u as int];
    let gu = unit_technique_upto(g, u, 0);
    lemma_unit_upto_shrinks(g, 0, u, u);
    lemma_all_units_are_units();
    lemma_naked_pair_clears_unit(gu, unit, i, j, a, b, k);
    assert(unit_technique_upto(g, u + 1, 0) == unit_technique(gu, unit, 0));
    lemma_unit_upto_shrinks(g, 0, u + 1, 27);
    assert(in_grid(unit[k].x as int, unit[k].y as int));
}

/// Naked triples over every unit: a naked triple that a unit holds when its
/// turn comes, at any three positions, leaves none of its values anywhere
/// else in that unit once every unit has had its turn.
pub proof fn lemma_naked_triples_all_complete(g: Seq<CellModel>, u: nat, i: int, j: int, l: int,
    a: i32, b: i32, c: i32, k: int)
    requires
        grid_wf(g),
        u < 27,
        naked_triple_at(unit_technique_upto(g, u, 1), all_units()[u as int], i, j, l, a, b, c),
        0 <= k < 9,
        k != i,
        k != j,
        k != l,
    ensures
        !naked_triples_all(g)[ref_index(all_units()[u as int][k])].poss.contains(a),
        !naked_triples_all(g)[ref_index(all_units()[u as int][k])].poss.contains(b),
        !naked_triples_all(g)[ref_index(all_units()[u as int][k])].poss.contains(c),
{
    let unit = all_units()[u as int];
    let gu = unit_technique_upto(g, u, 1);
    lemma_unit_upto_shrinks(g, 1, u, u);
    lemma_all_units_are_units();
    lemma_naked_triple_clears_unit(gu, unit, i, j, l, a, b, c, k);
    assert(unit_technique_upto(g, u + 1, 1) == unit_technique(gu, unit, 1));
    lemma_unit_upto_shrinks(g, 1, u + 1, 27);
    assert(in_grid(unit[k].x as int, unit[k].y as int));
}


/// Naked singles keep the grid well formed, and no step undoes a set cell.
pub proof fn lemma_naked_singles_upto_facts(g: Seq<CellModel>, k1: nat, k2: nat)
    requires
        grid_wf(g),
        k1 <= k2 <= 81,
    ensures
        grid_wf(naked_singles_upto(g, k2)),
        keeps_set_cells(naked_singles_upto(g, k1), naked_singles_upto(g, k2)),
    decreases k2,
{
    if k2 > 0 {
        let n = k2 - 1;
        let k3: nat = if k1 == k2 { n as nat } else { k1 };
        lemma_naked_singles_upto_facts(g, k3, n as nat);
        let prev = naked_singles_upto(g, n as nat);
        if !(prev[n].value > 0) && prev[n].poss.len() == 1 {
            assert(cell_index(n % 9, n / 9) == n);
            lemma_set_cell_wf(prev, n % 9, n / 9, prev[n].poss[0]);
            lemma_set_cell_keeps_set_cells(prev, n % 9, n / 9, prev[n].poss[0]);
        }
        if k1 < k2 {
            lemma_keeps_set_cells_trans(naked_singles_upto(g, k1), prev, naked_singles_upto(g, k2));
        }
    }
}

/// The step at an open cell with a single candidate gives it that value.
proof fn lemma_naked_single_sets(g: Seq<CellModel>, n: int)
    requires
        grid_wf(g),
        0 <= n < 81,
        g[n].value == 0,
        g[n].poss.len() == 1,
    ensures
        naked_single_step(g, n)[n].value == g[n].poss[0],
        g[n].poss[0] > 0,
{
    assert(g[n].wf());
    assert(g[n].poss.contains(g[n].poss[0]));
    assert(cell_index(n % 9, n / 9) == n);
    let v = g[n].poss[0];
    assert(0 <= v <= 9);
    assert(v != 0);
}

/// Naked singles visit every board cell: an open cell that has exactly one
/// candidate when its turn comes holds that candidate afterwards, whatever
/// its row and column.
pub proof fn lemma_naked_singles_complete(g: Seq<CellModel>, n: int)
    requires
        grid_wf(g),
        0 <= n < 81,
        naked_singles_upto(g, n as nat)[n].value == 0,
        naked_singles_upto(g, n as nat)[n].poss.len() == 1,
    ensures
        naked_singles(g)[n].value == naked_singles_upto(g, n as nat)[n].poss[0],
        naked_singles(g)[n].value > 0,
{
    let gn = naked_singles_upto(g, n as nat);
    lemma_naked_singles_upto_facts(g, n as nat, n as nat);
    lemma_naked_single_sets(gn, n);
    assert(naked_singles_upto(g, (n + 1) as nat) == naked_single_step(gn, n));
    lemma_naked_singles_upto_facts(g, (n + 1) as nat, 81);
}

/// Up to any cell, naked singles have either left the grid as it was or
/// given some open cell a value.
proof fn lemma_naked_singles_upto_changes(g: Seq<CellModel>, k: nat)
    requires
        grid_wf(g),
        k <= 81,
    ensures
        naked_singles_upto(g, k) == g || sets_some_cell(g, naked_singles_upto(g, k)),
    decreases k,
{
    if k > 0 {
        let n = k - 1;
        lemma_naked_singles_upto_changes(g, n as nat);
        let prev = naked_singles_upto(g, n as nat);
        lemma_naked_singles_upto_facts(g, 0, n as nat);
        lemma_naked_singles_upto_facts(g, n as nat, k);
        if prev == g {
            if !(g[n].value > 0) && g[n].poss.len() == 1 {
                lemma_naked_single_sets(g, n);
                assert(sets_some_cell(g, naked_singles_upto(g, k)));
            }
        } else {
            lemma_sets_some_cell_trans(g, prev, naked_singles_upto(g, k));
        }
    }
}

/// A grid with an open cell that has a single candidate, wherever it
/// stands, is changed by naked singles: some open cell gets a value.
pub proof fn lemma_naked_singles_change(g: Seq<CellModel>, n: int)
    requires
        grid_wf(g),
        0 <= n < 81,
        g[n].value == 0,
        g[n].poss.len() == 1,
    ensures
        sets_some_cell(g, naked_singles(g)),
        naked_singles(g) != g,
{
    lemma_naked_singles_upto_changes(g, n as nat);
    lemma_naked_singles_upto_changes(g, (n + 1) as nat);
    let gn = naked_singles_upto(g, n as nat);
    lemma_naked_singles_upto_facts(g, 0, n as nat);
    lemma_naked_singles_upto_facts(g, n as nat, (n + 1) as nat);
    if gn == g {
        lemma_naked_single_sets(g, n);
        assert(sets_some_cell(g, naked_singles_upto(g, (n + 1) as nat)));
    } else {
        lemma_sets_some_cell_trans(g, gn, naked_singles_upto(g, (n + 1) as nat));
    }
    lemma_naked_singles_upto_facts(g, 0, (n + 1) as nat);
    lemma_naked_singles_upto_facts(g, (n + 1) as nat, 81);
    lemma_sets_some_cell_trans(g, naked_singles_upto(g, (n + 1) as nat), naked_singles(g));
    crate::model::lemma_sets_some_cell_changes(g, naked_singles(g));
}


/// Position `k` of a block read row by row: its row and column offsets.
proof fn lemma_block_pos(dy: int, dx: int)
    requires
        0 <= dy < 3,
        0 <= dx < 3,
    ensures
        (dy * 3 + dx) / 3 == dy,
        (dy * 3 + dx) % 3 == dx,
        0 <= dy * 3 + dx < 9,
{
    assert((dy * 3 + dx) / 3 == dy) by (nonlinear_arith)
        requires 0 <= dy < 3 && 0 <= dx < 3;
    assert((dy * 3 + dx) % 3 == dx) by (nonlinear_arith)
        requires 0 <= dy < 3 && 0 <= dx < 3;
}

/// The cell at position `k` of block (`bx`, `by`) read row by row.
proof fn lemma_block_ref(bx: int, by: int, k: int)
    requires
        0 <= bx < 3,
        0 <= by < 3,
        0 <= k < 9,
    ensures
        ref_index(block_refs(bx, by)[k]) == (by * 3 + k / 3) * 9 + bx * 3 + k % 3,
        (by * 3 + k / 3) / 3 == by,
        (bx * 3 + k % 3) / 3 == bx,
        0 <= by * 3 + k / 3 < 9,
        0 <= bx * 3 + k % 3 < 9,
{
    lemma_block_pos(k / 3, k % 3);
    lemma_block_pos(by, k / 3);
    lemma_block_pos(bx, k % 3);
}

/// In block (`bx`, `by`) of `g`, `v` is listed by two or more open cells,
/// all of them in board column `x0`.
pub open spec fn pointing_column_at(g: Seq<CellModel>, bx: int, by: int, x0: int, v: i32) -> bool {
    &&& 0 <= bx < 3 && 0 <= by < 3 && 0 <= x0 < 9 && x0 / 3 == bx && 1 <= v <= 9
    &&& exists|y1: int, y2: int| 0 <= y1 < 9 && 0 <= y2 < 9 && y1 != y2 && y1 / 3 == by && y2 / 3 == by
        && #[trigger] open_with(g, y1 * 9 + x0, v) && #[trigger] open_with(g, y2 * 9 + x0, v)
    &&& forall|x: int, y: int| 0 <= x < 9 && 0 <= y < 9 && x / 3 == bx && y / 3 == by
        && #[trigger] open_with(g, y * 9 + x, v) ==> x == x0
}

/// In block (`bx`, `by`) of `g`, `v` is listed by two or more open cells,
/// all of them in board row `y0`.
pub open spec fn pointing_row_at(g: Seq<CellModel>, bx: int, by: int, y0: int, v: i32) -> bool {
    &&& 0 <= bx < 3 && 0 <= by < 3 && 0 <= y0 < 9 && y0 / 3 == by && 1 <= v <= 9
    &&& exists|x1: int, x2: int| 0 <= x1 < 9 && 0 <= x2 < 9 && x1 != x2 && x1 / 3 == bx && x2 / 3 == bx
        && #[trigger] open_with(g, y0 * 9 + x1, v) && #[trigger] open_with(g, y0 * 9 + x2, v)
    &&& forall|x: int, y: int| 0 <= x < 9 && 0 <= y < 9 && x / 3 == bx && y / 3 == by
        && #[trigger] open_with(g, y * 9 + x, v) ==> y == y0
}

/// A set cell that shares a house with an open cell listing `v` does not
/// hold `v`, so it does not list it either.
proof fn lemma_set_cell_not(g: Seq<CellModel>, m: int, n: int, v: i32)
    requires
        grid_wf(g),
        0 <= m < 81,
        0 <= n < 81,
        m != n,
        same_house(n, m),
        open_with(g, m, v),
        g[n].value > 0,
    ensures
        !g[n].poss.contains(v),
{
    assert(g[n].wf());
    assert(g[n].poss == seq![g[n].value]);
}

/// What a `grid_minus` leaves at an open cell: its candidates without the
/// removed ones; and at a set cell, the cell itself.
proof fn lemma_grid_minus_at(g: Seq<CellModel>, r: spec_fn(int) -> Set<i32>, n: int, v: i32)
    requires
        0 <= n < 81,
        n < g.len(),
        r(n).contains(v),
    ensures
        grid_minus(g, r)[n].poss.contains(v) ==> g[n].value > 0 && g[n].poss.contains(v),
{
    lemma_minus_facts(g[n], r(n));
}

/// The unit candidates of the block hold the candidates of its open cells.
proof fn lemma_block_poss(g: Seq<CellModel>, bx: int, by: int, k: int, v: i32)
    requires
        grid_wf(g),
        0 <= bx < 3,
        0 <= by < 3,
        0 <= k < 9,
    ensures
        unit_poss(g, block_refs(bx, by))[k].contains(v)
            <==> open_with(g, (by * 3 + k / 3) * 9 + bx * 3 + k % 3, v),
{
    lemma_block_ref(bx, by, k);
    let n = (by * 3 + k / 3) * 9 + bx * 3 + k % 3;
    assert(0 <= n < 81);
    assert(g[n].wf());
}

/// Pointing pairs in one block, by columns: when the open cells of the
/// block that list `v` are two or more and all lie in one column, no cell
/// of that column outside the block lists `v` afterwards.
pub proof fn lemma_pointing_column_clears(g: Seq<CellModel>, bx: int, by: int, x0: int, v: i32, y: int)
    requires
        grid_wf(g),
        pointing_column_at(g, bx, by, x0, v),
        0 <= y < 9,
        y / 3 != by,
    ensures
        !pointing_block(g, bx, by)[y * 9 + x0].poss.contains(v),
{
    let b = unit_poss(g, block_refs(bx, by));
    let c = x0 - bx * 3;
    let (y1, y2) = choose|y1: int, y2: int| 0 <= y1 < 9 && 0 <= y2 < 9 && y1 != y2 && y1 / 3 == by && y2 / 3 == by
        && #[trigger] open_with(g, y1 * 9 + x0, v) && #[trigger] open_with(g, y2 * 9 + x0, v);
    let i1 = (y1 - by * 3) * 3 + c;
    let i2 = (y2 - by * 3) * 3 + c;
    lemma_block_pos(y1 - by * 3, c);
    lemma_block_pos(y2 - by * 3, c);
    lemma_block_poss(g, bx, by, i1, v);
    lemma_block_poss(g, bx, by, i2, v);
    assert(at_least_two(b, v));
    assert forall|k: int| 0 <= k < b.len() && #[trigger] b[k].contains(v) implies k % 3 == c by {
        lemma_block_poss(g, bx, by, k, v);
        lemma_block_ref(bx, by, k);
    }
    assert(column_confined(b, v, c));
    let n = y * 9 + x0;
    lemma_index_parts(y, x0);
    assert(pointing_rem(b, bx, by, n).contains(v));
    lemma_grid_minus_at(g, |m: int| pointing_rem(b, bx, by, m), n, v);
    if g[n].value > 0 {
        lemma_index_parts(y1, x0);
        lemma_set_cell_not(g, y1 * 9 + x0, n, v);
    }
}

/// Pointing pairs in one block, by rows: when the open cells of the block
/// that list `v` are two or more and all lie in one row, no cell of that
/// row outside the block lists `v` afterwards.
pub proof fn lemma_pointing_row_clears(g: Seq<CellModel>, bx: int, by: int, y0: int, v: i32, x: int)
    requires
        grid_wf(g),
        pointing_row_at(g, bx, by, y0, v),
        0 <= x < 9,
        x / 3 != bx,
    ensures
        !pointing_block(g, bx, by)[y0 * 9 + x].poss.contains(v),
{
    let b = unit_poss(g, block_refs(bx, by));
    let t = y0 - by * 3;
    let (x1, x2) = choose|x1: int, x2: int| 0 <= x1 < 9 && 0 <= x2 < 9 && x1 != x2 && x1 / 3 == bx && x2 / 3 == bx
        && #[trigger] open_with(g, y0 * 9 + x1, v) && #[trigger] open_with(g, y0 * 9 + x2, v);
    let i1 = t * 3 + (x1 - bx * 3);
    let i2 = t * 3 + (x2 - bx * 3);
    lemma_block_pos(t, x1 - bx * 3);
    lemma_block_pos(t, x2 - bx * 3);
    lemma_block_poss(g, bx, by, i1, v);
    lemma_block_poss(g, bx, by, i2, v);
    assert(at_least_two(b, v));
    assert forall|k: int| 0 <= k < b.len() && #[trigger] b[k].contains(v) implies k / 3 == t by {
        lemma_block_poss(g, bx, by, k, v);
        lemma_block_ref(bx, by, k);
    }
    assert(third_confined(b, v, t));
    let n = y0 * 9 + x;
    lemma_index_parts(y0, x);
    assert(pointing_rem(b, bx, by, n).contains(v));
    lemma_grid_minus_at(g, |m: int| pointing_rem(b, bx, by, m), n, v);
    if g[n].value > 0 {
        lemma_index_parts(y0, x1);
        lemma_set_cell_not(g, y0 * 9 + x1, n, v);
    }
}


/// Pointing pairs keep the grid well formed; later blocks only drop candidates.
pub proof fn lemma_pointing_upto_shrinks(g: Seq<CellModel>, t1: nat, t2: nat)
    requires
        grid_wf(g),
        t1 <= t2,
    ensures
        grid_wf(pointing_upto(g, t2)),
        shrinks(pointing_upto(g, t1), pointing_upto(g, t2)),
    decreases t2,
{
    if t2 == 0 {
        lemma_shrinks_refl(g);
    } else {
        let t3: nat = if t1 == t2 { 0 } else { t1 };
        lemma_pointing_upto_shrinks(g, t3, (t2 - 1) as nat);
        let prev = pointing_upto(g, (t2 - 1) as nat);
        let bx = (t2 - 1) / 3;
        let by = (t2 - 1) % 3;
        lemma_grid_minus_shrinks(prev, |n: int| pointing_rem(unit_poss(prev, block_refs(bx, by)), bx, by, n));
        lemma_shrinks_keeps_wf(prev, pointing_upto(g, t2));
        if t1 == t2 {
            lemma_shrinks_refl(pointing_upto(g, t2));
        } else {
            lemma_shrinks_trans(pointing_upto(g, t1), prev, pointing_upto(g, t2));
        }
    }
}

/// Pointing pairs over every block, by columns: when, at the turn of block
/// (`bx`, `by`), the open cells of the block that list `v` are two or more
/// and all lie in one column, no cell of that column outside the block
/// lists `v` once every block has had its turn.
pub proof fn lemma_pointing_all_column(g: Seq<CellModel>, bx: int, by: int, x0: int, v: i32, y: int)
    requires
        grid_wf(g),
        0 <= bx < 3,
        0 <= by < 3,
        pointing_column_at(pointing_upto(g, (bx * 3 + by) as nat), bx, by, x0, v),
        0 <= y < 9,
        y / 3 != by,
    ensures
        !pointing_all(g)[y * 9 + x0].poss.contains(v),
{
    let t = (bx * 3 + by) as nat;
    lemma_block_pos(bx, by);
    lemma_pointing_upto_shrinks(g, t, t);
    lemma_pointing_column_clears(pointing_upto(g, t), bx, by, x0, v, y);
    assert(pointing_upto(g, t + 1) == pointing_block(pointing_upto(g, t), bx, by));
    lemma_pointing_upto_shrinks(g, t + 1, 9);
    lemma_index_parts(y, x0);
}

/// Pointing pairs over every block, by rows: when, at the turn of block
/// (`bx`, `by`), the open cells of the block that list `v` are two or more
/// and all lie in one row, no cell of that row outside the block lists `v`
/// once every block has had its turn.
pub proof fn lemma_pointing_all_row(g: Seq<CellModel>, bx: int, by: int, y0: int, v: i32, x: int)
    requires
        grid_wf(g),
        0 <= bx < 3,
        0 <= by < 3,
        pointing_row_at(pointing_upto(g, (bx * 3 + by) as nat), bx, by, y0, v),
        0 <= x < 9,
        x / 3 != bx,
    ensures
        !pointing_all(g)[y0 * 9 + x].poss.contains(v),
{
    let t = (bx * 3 + by) as nat;
    lemma_block_pos(bx, by);
    lemma_pointing_upto_shrinks(g, t, t);
    lemma_pointing_row_clears(pointing_upto(g, t), bx, by, y0, v, x);
    assert(pointing_upto(g, t + 1) == pointing_block(pointing_upto(g, t), bx, by));
    lemma_pointing_upto_shrinks(g, t + 1, 9);
    lemma_index_parts(y0, x);
}

/// In board column `x0` of `g`, `v` is listed by two or more open cells,
/// all of them in the band of rows `by` (rows `3 by` to `3 by + 2`).
pub open spec fn box_line_column_at(g: Seq<CellModel>, x0: int, by: int, v: i32) -> bool {
    &&& 0 <= x0 < 9 && 0 <= by < 3 && 1 <= v <= 9
    &&& exists|y1: int, y2: int| 0 <= y1 < 9 && 0 <= y2 < 9 && y1 != y2 && y1 / 3 == by && y2 / 3 == by
        && #[trigger] open_with(g, y1 * 9 + x0, v) && #[trigger] open_with(g, y2 * 9 + x0, v)
    &&& forall|y: int| 0 <= y < 9 && #[trigger] open_with(g, y * 9 + x0, v) ==> y / 3 == by
}

/// In board row `y0` of `g`, `v` is listed by two or more open cells, all
/// of them in the band of columns `bx` (columns `3 bx` to `3 bx + 2`).
pub open spec fn box_line_row_at(g: Seq<CellModel>, y0: int, bx: int, v: i32) -> bool {
    &&& 0 <= y0 < 9 && 0 <= bx < 3 && 1 <= v <= 9
    &&& exists|x1: int, x2: int| 0 <= x1 < 9 && 0 <= x2 < 9 && x1 != x2 && x1 / 3 == bx && x2 / 3 == bx
        && #[trigger] open_with(g, y0 * 9 + x1, v) && #[trigger] open_with(g, y0 * 9 + x2, v)
    &&& forall|x: int| 0 <= x < 9 && #[trigger] open_with(g, y0 * 9 + x, v) ==> x / 3 == bx
}

/// Two board cells in the same block share a house.
proof fn lemma_same_block_house(y1: int, x1: int, y2: int, x2: int)
    requires
        0 <= y1 < 9 && 0 <= x1 < 9 && 0 <= y2 < 9 && 0 <= x2 < 9,
        y1 / 3 == y2 / 3,
        x1 / 3 == x2 / 3,
    ensures
        same_house(y1 * 9 + x1, y2 * 9 + x2),
{
    lemma_index_parts(y1, x1);
    lemma_index_parts(y2, x2);
}

/// Box/line reduction on one column: when the open cells of the column
/// that list `v` are two or more and all lie in one block, no cell of that
/// block outside the column lists `v` afterwards.
pub proof fn lemma_box_line_column_clears(g: Seq<CellModel>, x0: int, by: int, v: i32, x: int, y: int)
    requires
        grid_wf(g),
        box_line_column_at(g, x0, by, v),
        0 <= x < 9,
        0 <= y < 9,
        x / 3 == x0 / 3,
        x != x0,
        y / 3 == by,
    ensures
        !box_line_step(g, 9 + x0)[y * 9 + x].poss.contains(v),
{
    let p = unit_poss(g, col_refs(x0));
    let (y1, y2) = choose|y1: int, y2: int| 0 <= y1 < 9 && 0 <= y2 < 9 && y1 != y2 && y1 / 3 == by && y2 / 3 == by
        && #[trigger] open_with(g, y1 * 9 + x0, v) && #[trigger] open_with(g, y2 * 9 + x0, v);
    assert forall|k: int| 0 <= k < 9 implies (#[trigger] p[k]).contains(v) <==> open_with(g, k * 9 + x0, v) by {
        assert(ref_index(col_refs(x0)[k]) == k * 9 + x0);
        lemma_index_parts(k, x0);
        assert(g[k * 9 + x0].wf());
    }
    assert(p[y1].contains(v) && p[y2].contains(v));
    assert(at_least_two(p, v));
    assert forall|k: int| 0 <= k < p.len() && #[trigger] p[k].contains(v) implies k / 3 == by by {
        assert(open_with(g, k * 9 + x0, v));
    }
    assert(third_confined(p, v, by));
    let n = y * 9 + x;
    lemma_index_parts(y, x);
    assert(box_line_col_rem(p, x0, n).contains(v));
    assert(box_line_step(g, 9 + x0) == grid_minus(g, |m: int| box_line_col_rem(p, x0, m)));
    lemma_grid_minus_at(g, |m: int| box_line_col_rem(p, x0, m), n, v);
    if g[n].value > 0 {
        lemma_index_parts(y1, x0);
        lemma_same_block_house(y, x, y1, x0);
        lemma_set_cell_not(g, y1 * 9 + x0, n, v);
    }
}

/// Box/line reduction on one row: when the open cells of the row that
/// list `v` are two or more and all lie in one block, no cell of that
/// block outside the row lists `v` afterwards.
pub proof fn lemma_box_line_row_clears(g: Seq<CellModel>, y0: int, bx: int, v: i32, x: int, y: int)
    requires
        grid_wf(g),
        box_line_row_at(g, y0, bx, v),
        0 <= x < 9,
        0 <= y < 9,
        y / 3 == y0 / 3,
        y != y0,
        x / 3 == bx,
    ensures
        !box_line_step(g, y0)[y * 9 + x].poss.contains(v),
{
    let p = unit_poss(g, row_refs(y0));
    let (x1, x2) = choose|x1: int, x2: int| 0 <= x1 < 9 && 0 <= x2 < 9 && x1 != x2 && x1 / 3 == bx && x2 / 3 == bx
        && #[trigger] open_with(g, y0 * 9 + x1, v) && #[trigger] open_with(g, y0 * 9 + x2, v);
    assert forall|k: int| 0 <= k < 9 implies (#[trigger] p[k]).contains(v) <==> open_with(g, y0 * 9 + k, v) by {
        assert(ref_index(row_refs(y0)[k]) == y0 * 9 + k);
        lemma_index_parts(y0, k);
        assert(g[y0 * 9 + k].wf());
    }
    assert(p[x1].contains(v) && p[x2].contains(v));
    assert(at_least_two(p, v));
    assert forall|k: int| 0 <= k < p.len() && #[trigger] p[k].contains(v) implies k / 3 == bx by {
        assert(open_with(g, y0 * 9 + k, v));
    }
    assert(third_confined(p, v, bx));
    let n = y * 9 + x;
    lemma_index_parts(y, x);
    assert(box_line_row_rem(p, y0, n).contains(v));
    assert(box_line_step(g, y0) == grid_minus(g, |m: int| box_line_row_rem(p, y0, m)));
    lemma_grid_minus_at(g, |m: int| box_line_row_rem(p, y0, m), n, v);
    if g[n].value > 0 {
        lemma_index_parts(y0, x1);
        lemma_same_block_house(y, x, y0, x1);
        lemma_set_cell_not(g, y0 * 9 + x1, n, v);
    }
}

/// Box/line reduction keeps the grid well formed; later lines only drop
/// candidates.
pub proof fn lemma_box_line_upto_shrinks(g: Seq<CellModel>, t1: nat, t2: nat)
    requires
        grid_wf(g),
        t1 <= t2,
    ensures
        grid_wf(box_line_upto(g, t2)),
        shrinks(box_line_upto(g, t1), box_line_upto(g, t2)),
    decreases t2,
{
    if t2 == 0 {
        lemma_shrinks_refl(g);
    } else {
        let t3: nat = if t1 == t2 { 0 } else { t1 };
        lemma_box_line_upto_shrinks(g, t3, (t2 - 1) as nat);
        let prev = box_line_upto(g, (t2 - 1) as nat);
        let t = t2 - 1;
        if t < 9 {
            lemma_grid_minus_shrinks(prev, |n: int| box_line_row_rem(unit_poss(prev, row_refs(t)), t, n));
        } else {
            lemma_grid_minus_shrinks(prev, |n: int| box_line_col_rem(unit_poss(prev, col_refs(t - 9)), t - 9, n));
        }
        lemma_shrinks_keeps_wf(prev, box_line_upto(g, t2));
        if t1 == t2 {
            lemma_shrinks_refl(box_line_upto(g, t2));
        } else {
            lemma_shrinks_trans(box_line_upto(g, t1), prev, box_line_upto(g, t2));
        }
    }
}

/// Box/line reduction over every line, by columns: when, at the turn of
/// column `x0`, the open cells of the column that list `v` are two or more
/// and all lie in one block, no cell of that block outside the column
/// lists `v` once every line has had its turn.
pub proof fn lemma_box_line_all_column(g: Seq<CellModel>, x0: int, by: int, v: i32, x: int, y: int)
    requires
        grid_wf(g),
        0 <= x0 < 9,
        box_line_column_at(box_line_upto(g, (9 + x0) as nat), x0, by, v),
        0 <= x < 9,
        0 <= y < 9,
        x / 3 == x0 / 3,
        x != x0,
        y / 3 == by,
    ensures
        !box_line_all(g)[y * 9 + x].poss.contains(v),
{
    let t = (9 + x0) as nat;
    lemma_box_line_upto_shrinks(g, t, t);
    lemma_box_line_column_clears(box_line_upto(g, t), x0, by, v, x, y);
    assert(box_line_upto(g, t + 1) == box_line_step(box_line_upto(g, t), 9 + x0));
    lemma_box_line_upto_shrinks(g, t + 1, 18);
    lemma_index_parts(y, x);
}

/// Box/line reduction over every line, by rows: when, at the turn of row
/// `y0`, the open cells of the row that list `v` are two or more and all
/// lie in one block, no cell of that block outside the row lists `v` once
/// every line has had its turn.
pub proof fn lemma_box_line_all_row(g: Seq<CellModel>, y0: int, bx: int, v: i32, x: int, y: int)
    requires
        grid_wf(g),
        0 <= y0 < 9,
        box_line_row_at(box_line_upto(g, y0 as nat), y0, bx, v),
        0 <= x < 9,
        0 <= y < 9,
        y / 3 == y0 / 3,
        y != y0,
        x / 3 == bx,
    ensures
        !box_line_all(g)[y * 9 + x].poss.contains(v),
{
    let t = y0 as nat;
    lemma_box_line_upto_shrinks(g, t, t);
    lemma_box_line_row_clears(box_line_upto(g, t), y0, bx, v, x, y);
    assert(box_line_upto(g, t + 1) == box_line_step(box_line_upto(g, t), y0));
    lemma_box_line_upto_shrinks(g, t + 1, 18);
    lemma_index_parts(y, x);
}


/// Values `v1` and `v2` are each listed, among the open cells of `unit` in
/// `g`, by the cells at positions `a` and `b` and by no other.
pub open spec fn hidden_pair_at(g: Seq<CellModel>, unit: Seq<CellRef>, a: int, b: int, v1: i32, v2: i32) -> bool {
    &&& 0 <= a < 9 && 0 <= b < 9 && a != b && v1 != v2
    &&& forall|k: int| 0 <= k < 9 ==> (open_with(g, #[trigger] ref_index(unit[k]), v1) <==> (k == a || k == b))
    &&& forall|k: int| 0 <= k < 9 ==> (open_with(g, #[trigger] ref_index(unit[k]), v2) <==> (k == a || k == b))
}

/// Hidden pairs in one unit: when two values are listed by the same two
/// open cells of the unit and by no other, at any two positions, those two
/// cells list nothing else afterwards.
pub proof fn lemma_hidden_pair_strips(g: Seq<CellModel>, unit: Seq<CellRef>, a: int, b: int, v1: i32, v2: i32, w: i32)
    requires
        grid_wf(g),
        is_unit(unit),
        hidden_pair_at(g, unit, a, b, v1, v2),
        w != v1,
        w != v2,
    ensures
        !unit_technique(g, unit, 2)[ref_index(unit[a])].poss.contains(w),
        !unit_technique(g, unit, 2)[ref_index(unit[b])].poss.contains(w),
{
    let p = unit_poss(g, unit);
    assert forall|k: int, v: i32| 0 <= k < 9 implies (#[trigger] p[k].contains(v) <==> open_with(g, ref_index(unit[k]), v)) by {
        assert(in_grid(unit[k].x as int, unit[k].y as int));
        assert(g[ref_index(unit[k])].wf());
    }
    let lo = if a < b { a } else { b };
    let hi = if a < b { b } else { a };
    assert forall|k: int| 0 <= k < p.len() implies (#[trigger] p[k].contains(v1) <==> (k == lo || k == hi)) by {
        assert(open_with(g, ref_index(unit[k]), v1) <==> (k == a || k == b));
    }
    assert forall|k: int| 0 <= k < p.len() implies (#[trigger] p[k].contains(v2) <==> (k == lo || k == hi)) by {
        assert(open_with(g, ref_index(unit[k]), v2) <==> (k == a || k == b));
    }
    assert(only_in(p, v1, lo, hi) && only_in(p, v2, lo, hi));
    assert(open_with(g, ref_index(unit[a]), v1) && open_with(g, ref_index(unit[b]), v1));
    lemma_unit_technique_at(g, unit, 2, a);
    lemma_unit_technique_at(g, unit, 2, b);
    lemma_minus_facts(at(g, unit, a), unit_technique_rem(p, a, 2));
    lemma_minus_facts(at(g, unit, b), unit_technique_rem(p, b, 2));
    if at(g, unit, a).poss.contains(w) {
        assert(p[a].contains(w));
        assert(hidden_pair_rem(p, a).contains(w));
    }
    if at(g, unit, b).poss.contains(w) {
        assert(p[b].contains(w));
        assert(hidden_pair_rem(p, b).contains(w));
    }
}

/// Hidden pairs over every unit: a hidden pair that a unit holds when its
/// turn comes, at any two positions, leaves its two cells with nothing but
/// the pair once every unit has had its turn.
pub proof fn lemma_hidden_pairs_all_complete(g: Seq<CellModel>, u: nat, a: int, b: int, v1: i32, v2: i32, w: i32)
    requires
        grid_wf(g),
        u < 27,
        hidden_pair_at(unit_technique_upto(g, u, 2), all_units()[u as int], a, b, v1, v2),
        w != v1,
        w != v2,
    ensures
        !hidden_pairs_all(g)[ref_index(all_units()[u as int][a])].poss.contains(w),
        !hidden_pairs_all(g)[ref_index(all_units()[u as int][b])].poss.contains(w),
{
    let unit = all_units()[u as int];
    let gu = unit_technique_upto(g, u, 2);
    lemma_unit_upto_shrinks(g, 2, u, u);
    lemma_all_units_are_units();
    lemma_hidden_pair_strips(gu, unit, a, b, v1, v2, w);
    assert(unit_technique_upto(g, u + 1, 2) == unit_technique(gu, unit, 2));
    lemma_unit_upto_shrinks(g, 2, u + 1, 27);
    assert(in_grid(unit[a].x as int, unit[a].y as int));
    assert(in_grid(unit[b].x as int, unit[b].y as int));
}

/// The units that the solver visits cover every house: any two board cells
/// that share a row, a column or a block are both named by some unit.
pub proof fn lemma_all_units_cover(n: int, m: int)
    requires
        0 <= n < 81,
        0 <= m < 81,
        same_house(n, m),
    ensures
        exists|u: int, i: int, j: int| 0 <= u < 27 && 0 <= i < 9 && 0 <= j < 9
            && ref_index(#[trigger] all_units()[u][i]) == n && ref_index(#[trigger] all_units()[u][j]) == m,
{
    let (yn, xn, ym, xm) = (n / 9, n % 9, m / 9, m % 9);
    lemma_index_parts(yn, xn);
    lemma_index_parts(ym, xm);
    assert(n == yn * 9 + xn && m == ym * 9 + xm);
    if yn == ym {
        let u = 2 * yn;
        assert(all_units()[u] == row_refs(yn));
        assert(ref_index(all_units()[u][xn]) == n);
        assert(ref_index(all_units()[u][xm]) == m);
    } else if xn == xm {
        let u = 2 * xn + 1;
        assert(all_units()[u] == col_refs(xn));
        assert(ref_index(all_units()[u][yn]) == n);
        assert(ref_index(all_units()[u][ym]) == m);
    } else {
        let bx = xn / 3;
        let by = yn / 3;
        assert(n / 27 == m / 27 && xn / 3 == xm / 3);
        assert(by == ym / 3);
        let u = 18 + bx * 3 + by;
        lemma_block_pos(bx, by);
        assert((u - 18) / 3 == bx && (u - 18) % 3 == by);
        assert(all_units()[u] == block_refs(bx, by));
        let i = (yn - by * 3) * 3 + (xn - bx * 3);
        let j = (ym - by * 3) * 3 + (xm - bx * 3);
        lemma_block_pos(yn - by * 3, xn - bx * 3);
        lemma_block_pos(ym - by * 3, xm - bx * 3);
        lemma_block_ref(bx, by, i);
        lemma_block_ref(bx, by, j);
        assert(ref_index(all_units()[u][i]) == n);
        assert(ref_index(all_units()[u][j]) == m);
    }
}


/// Hidden singles in `unit` after its first `j` positions, from one reading
/// of the unit's candidates in `g`.
pub open spec fn hidden_upto(g: Seq<CellModel>, unit: Seq<CellRef>, j: nat) -> Seq<CellModel> {
    hidden_singles_unit_upto(g, unit, unit_poss(g, unit), j)
}

/// One hidden-single step at position `j`: when it sets the cell, the cell
/// was open and the value is one of its candidates in `g`, from 1 to 9; the
/// step keeps the grid well formed, narrows it, and changes no other value.
proof fn lemma_hidden_step(g: Seq<CellModel>, unit: Seq<CellRef>, h: Seq<CellModel>, j: int)
    requires
        grid_wf(g),
        is_unit(unit),
        grid_wf(h),
        narrows(g, h),
        0 <= j < 9,
        h[ref_index(unit[j])].value == g[ref_index(unit[j])].value,
    ensures
        unique_candidates(h[ref_index(unit[j])], unit_poss(g, unit)).len() == 1 ==> {
            let w = unique_candidates(h[ref_index(unit[j])], unit_poss(g, unit))[0];
            &&& h[ref_index(unit[j])].value == 0
            &&& h[ref_index(unit[j])].poss.contains(w)
            &&& open_with(g, ref_index(unit[j]), w)
            &&& 1 <= w <= 9
            &&& hidden_single_step(h, unit, unit_poss(g, unit), j)
                == set_cell_model(h, unit[j].x as int, unit[j].y as int, w)
        },
        grid_wf(hidden_single_step(h, unit, unit_poss(g, unit), j)),
        narrows(h, hidden_single_step(h, unit, unit_poss(g, unit), j)),
        forall|n: int| 0 <= n < h.len() && n != ref_index(unit[j])
            ==> (#[trigger] hidden_single_step(h, unit, unit_poss(g, unit), j)[n]).value == h[n].value,
{
    let p = unit_poss(g, unit);
    let r = unit[j];
    let nj = ref_index(r);
    assert(in_grid(r.x as int, r.y as int));
    let ov = unique_candidates(h[nj], p);
    let step = hidden_single_step(h, unit, p, j);
    if ov.len() == 1 {
        let w = ov[0];
        crate::seqs::lemma_filter_members(h[nj].poss, |x: i32| unique_in(p, x));
        assert(ov.contains(w));
        assert(h[nj].poss.contains(w) && unique_in(p, w));
        if g[nj].value > 0 {
            assert(h[nj] == g[nj]);
            assert(g[nj].wf());
            assert(h[nj].poss == seq![g[nj].value]);
            assert(w == g[nj].value);
            let k3 = choose|k3: int| 0 <= k3 < p.len() && #[trigger] p[k3].contains(w)
                && (forall|k2: int| 0 <= k2 < p.len() && k2 != k3 ==> !#[trigger] p[k2].contains(w));
            let n3 = ref_index(unit[k3]);
            assert(in_grid(unit[k3].x as int, unit[k3].y as int));
            assert(g[n3].value == 0);
            assert(k3 != j);
            assert(n3 != nj && same_house(n3, nj));
            assert(consistent(g));
            assert(false);
        }
        assert(g[nj].poss.contains(w));
        assert(g[nj].wf());
        let i = choose|i: int| 0 <= i < g[nj].poss.len() && g[nj].poss[i] == w;
        assert(0 <= g[nj].poss[i] <= 9);
        assert(w != 0);
        lemma_set_cell_wf(h, r.x as int, r.y as int, w);
        lemma_set_cell_narrows(h, r.x as int, r.y as int, w);
        assert forall|n: int| 0 <= n < h.len() && n != nj implies (#[trigger] step[n]).value == h[n].value by {
            lemma_set_cell_others(h, r.x as int, r.y as int, w, n);
        }
    } else {
        lemma_narrows_refl(h);
    }
}

/// Hidden singles in a unit keep the grid well formed, narrow it, and
/// leave the values of the positions not yet visited alone.
proof fn lemma_hidden_upto_facts(g: Seq<CellModel>, unit: Seq<CellRef>, j: nat)
    requires
        grid_wf(g),
        is_unit(unit),
        j <= 9,
    ensures
        grid_wf(hidden_upto(g, unit, j)),
        narrows(g, hidden_upto(g, unit, j)),
        forall|j2: int| j <= j2 < 9 ==> (#[trigger] hidden_upto(g, unit, j)[ref_index(unit[j2])]).value
            == g[ref_index(unit[j2])].value,
    decreases j,
{
    if j == 0 {
        lemma_narrows_refl(g);
    } else {
        lemma_hidden_upto_facts(g, unit, (j - 1) as nat);
        let h = hidden_upto(g, unit, (j - 1) as nat);
        lemma_hidden_step(g, unit, h, j - 1);
        assert(hidden_upto(g, unit, j) == hidden_single_step(h, unit, unit_poss(g, unit), j - 1));
        lemma_narrows_trans(g, h, hidden_upto(g, unit, j));
        assert forall|j2: int| j <= j2 < 9 implies (#[trigger] hidden_upto(g, unit, j)[ref_index(unit[j2])]).value
            == g[ref_index(unit[j2])].value by {
            assert(ref_index(unit[j2]) != ref_index(unit[j - 1]));
            assert(in_grid(unit[j2].x as int, unit[j2].y as int));
        }
    }
}

/// At position `k` of `unit` in `g` stands an open cell that lists `v`, a
/// value that no other open cell of the unit lists, while each of its other
/// candidates is listed by some other open cell of the unit.
pub open spec fn hidden_single_at(g: Seq<CellModel>, unit: Seq<CellRef>, k: int, v: i32) -> bool {
    &&& 0 <= k < 9
    &&& open_with(g, ref_index(unit[k]), v)
    &&& forall|k2: int| 0 <= k2 < 9 && k2 != k ==> !open_with(g, #[trigger] ref_index(unit[k2]), v)
    &&& forall|w: i32| #[trigger] at(g, unit, k).poss.contains(w) && w != v
        ==> exists|k2: int| 0 <= k2 < 9 && k2 != k && open_with(g, #[trigger] ref_index(unit[k2]), w)
}

/// Hidden singles in a unit, position by position, around a hidden single
/// at position `k`: the cell keeps `v` as a candidate until its turn, and
/// holds `v` from then on.
proof fn lemma_hidden_single_inv(g: Seq<CellModel>, unit: Seq<CellRef>, k: int, v: i32, j: nat)
    requires
        grid_wf(g),
        is_unit(unit),
        hidden_single_at(g, unit, k, v),
        j <= 9,
    ensures
        j <= k ==> hidden_upto(g, unit, j)[ref_index(unit[k])].poss.contains(v),
        j > k ==> hidden_upto(g, unit, j)[ref_index(unit[k])].value == v,
    decreases j,
{
    let p = unit_poss(g, unit);
    let nk = ref_index(unit[k]);
    assert(in_grid(unit[k].x as int, unit[k].y as int));
    if j > 0 {
        let jj = j - 1;
        lemma_hidden_single_inv(g, unit, k, v, jj as nat);
        lemma_hidden_upto_facts(g, unit, jj as nat);
        lemma_hidden_upto_facts(g, unit, j);
        let h = hidden_upto(g, unit, jj as nat);
        let r = unit[jj];
        let nj = ref_index(r);
        assert(in_grid(r.x as int, r.y as int));
        assert(h[nj].value == g[nj].value);
        lemma_hidden_step(g, unit, h, jj);
        let step = hidden_upto(g, unit, j);
        assert(step == hidden_single_step(h, unit, p, jj));
        let ov = unique_candidates(h[nj], p);
        if jj == k {
            let pred = |x: i32| unique_in(p, x);
            crate::seqs::lemma_filter_members(h[nk].poss, pred);
            assert(h[nk].wf());
            assert forall|k2: int| 0 <= k2 < p.len() && k2 != k implies !#[trigger] p[k2].contains(v) by {
                assert(in_grid(unit[k2].x as int, unit[k2].y as int));
                assert(!open_with(g, ref_index(unit[k2]), v));
                assert(g[ref_index(unit[k2])].wf());
            }
            assert(p[k].contains(v));
            assert(unique_in(p, v));
            assert(ov.contains(v));
            assert forall|i: int| 0 <= i < ov.len() implies ov[i] == v by {
                let x = ov[i];
                assert(ov.contains(x));
                assert(h[nk].poss.contains(x) && unique_in(p, x));
                assert(g[nk].poss.contains(x));
                if x != v {
                    assert(at(g, unit, k).poss.contains(x));
                    let k2 = choose|k2: int| 0 <= k2 < 9 && k2 != k && open_with(g, #[trigger] ref_index(unit[k2]), x);
                    assert(in_grid(unit[k2].x as int, unit[k2].y as int));
                    assert(p[k2].contains(x));
                    assert(p[k].contains(x));
                    let k3 = choose|k3: int| 0 <= k3 < p.len() && #[trigger] p[k3].contains(x)
                        && (forall|k4: int| 0 <= k4 < p.len() && k4 != k3 ==> !#[trigger] p[k4].contains(x));
                    assert(false);
                }
            }
            if ov.len() >= 2 {
                assert(ov[0] == v && ov[1] == v);
            }
            assert(ov.len() == 1);
            assert(ov[0] == v);
        } else if jj < k {
            if ov.len() == 1 {
                let w = ov[0];
                assert(open_with(g, nj, w));
                assert(!open_with(g, nj, v));
                assert(w != v);
                assert(nk != nj);
                lemma_minus_facts(h[nk], set![w]);
            }
        } else {
            if ov.len() == 1 {
                let w = ov[0];
                lemma_set_cell_keeps_set_cells(h, r.x as int, r.y as int, w);
            }
        }
    }
}

/// Hidden singles in one unit: an open cell that alone in the unit lists
/// `v`, and whose other candidates all have another place in the unit,
/// holds `v` afterwards, whatever its position.
pub proof fn lemma_hidden_single_sets(g: Seq<CellModel>, unit: Seq<CellRef>, k: int, v: i32)
    requires
        grid_wf(g),
        is_unit(unit),
        hidden_single_at(g, unit, k, v),
    ensures
        hidden_singles_unit(g, unit)[ref_index(unit[k])].value == v,
{
    lemma_hidden_single_inv(g, unit, k, v, 9);
}


/// The unit of each shape is a unit.
proof fn lemma_hidden_unit_is_unit(shape: u8, t: int)
    requires
        0 <= t < 9,
    ensures
        is_unit(hidden_unit(shape, t)),
{
    if shape == 0 {
        lemma_row_is_unit(t);
    } else if shape == 1 {
        lemma_col_is_unit(t);
    } else {
        lemma_block_is_unit(t / 3, t % 3);
    }
}

/// Hidden singles over the units of one shape keep the grid well formed
/// and narrow it.
proof fn lemma_hidden_shape_facts(g: Seq<CellModel>, shape: u8, t1: nat, t2: nat)
    requires
        grid_wf(g),
        t1 <= t2 <= 9,
    ensures
        grid_wf(hidden_singles_upto(g, shape, t2)),
        narrows(hidden_singles_upto(g, shape, t1), hidden_singles_upto(g, shape, t2)),
    decreases t2,
{
    if t2 == 0 {
        lemma_narrows_refl(g);
    } else {
        let t3: nat = if t1 == t2 { 0 } else { t1 };
        lemma_hidden_shape_facts(g, shape, t3, (t2 - 1) as nat);
        let prev = hidden_singles_upto(g, shape, (t2 - 1) as nat);
        lemma_hidden_unit_is_unit(shape, t2 - 1);
        lemma_hidden_upto_facts(prev, hidden_unit(shape, t2 - 1), 9);
        if t1 == t2 {
            lemma_narrows_refl(hidden_singles_upto(g, shape, t2));
        } else {
            lemma_narrows_trans(hidden_singles_upto(g, shape, t1), prev, hidden_singles_upto(g, shape, t2));
        }
    }
}

/// Hidden singles over every unit of one shape (rows 0, columns 1, blocks
/// 2): a hidden single that unit `t` holds when its turn comes, at any
/// position, gives its cell the value once every unit has had its turn.
pub proof fn lemma_hidden_singles_complete(g: Seq<CellModel>, shape: u8, t: nat, k: int, v: i32)
    requires
        grid_wf(g),
        t < 9,
        hidden_single_at(hidden_singles_upto(g, shape, t), hidden_unit(shape, t as int), k, v),
    ensures
        hidden_singles_upto(g, shape, 9)[ref_index(hidden_unit(shape, t as int)[k])].value == v,
        shape == 0 ==> hidden_singles_rows(g)[ref_index(hidden_unit(shape, t as int)[k])].value == v,
        shape == 1 ==> hidden_singles_cols(g)[ref_index(hidden_unit(shape, t as int)[k])].value == v,
        shape == 2 ==> hidden_singles_blocks(g)[ref_index(hidden_unit(shape, t as int)[k])].value == v,
{
    let unit = hidden_unit(shape, t as int);
    let gt = hidden_singles_upto(g, shape, t);
    lemma_hidden_shape_facts(g, shape, t, t);
    lemma_hidden_unit_is_unit(shape, t as int);
    lemma_hidden_single_sets(gt, unit, k, v);
    assert(hidden_singles_upto(g, shape, t + 1) == hidden_singles_unit(gt, unit));
    lemma_hidden_shape_facts(g, shape, t + 1, 9);
    assert(in_grid(unit[k].x as int, unit[k].y as int));
    let n = ref_index(unit[k]);
    lemma_open_value_positive(gt, n, v);
}

/// An open board cell lists no 0, so a value it lists is positive.
proof fn lemma_open_value_positive(g: Seq<CellModel>, n: int, v: i32)
    requires
        grid_wf(g),
        0 <= n < 81,
        open_with(g, n, v),
    ensures
        1 <= v <= 9,
{
    assert(g[n].wf());
    let i = choose|i: int| 0 <= i < g[n].poss.len() && g[n].poss[i] == v;
    assert(0 <= g[n].poss[i] <= 9);
}

/// The units of each shape are the rows, the columns and the blocks:
/// unit `t` of rows holds every cell of row `t`, of columns every cell of
/// column `t`, and of blocks every cell of block (`t / 3`, `t % 3`).
pub proof fn lemma_hidden_units_cover(t: int, x: int, y: int)
    requires
        0 <= t < 9,
        0 <= x < 9,
        0 <= y < 9,
    ensures
        y == t ==> exists|k: int| 0 <= k < 9 && ref_index(#[trigger] hidden_unit(0, t)[k]) == y * 9 + x,
        x == t ==> exists|k: int| 0 <= k < 9 && ref_index(#[trigger] hidden_unit(1, t)[k]) == y * 9 + x,
        (x / 3 == t / 3 && y / 3 == t % 3)
            ==> exists|k: int| 0 <= k < 9 && ref_index(#[trigger] hidden_unit(2, t)[k]) == y * 9 + x,
{
    if y == t {
        assert(ref_index(hidden_unit(0, t)[x]) == y * 9 + x);
    }
    if x == t {
        assert(ref_index(hidden_unit(1, t)[y]) == y * 9 + x);
    }
    if x / 3 == t / 3 && y / 3 == t % 3 {
        let bx = t / 3;
        let by = t % 3;
        let k = (x - bx * 3) * 3 + (y - by * 3);
        lemma_block_pos(x - bx * 3, y - by * 3);
        assert(ref_index(hidden_unit(2, t)[k]) == y * 9 + x);
    }
}

} // verus!
