//! Soundness: no step of the solver rules out a solution that the grid
//! allowed before it, nor lets in one that it did not allow.
use vstd::prelude::*;
use crate::model::{
    CellModel, cell_index, in_grid, same_house, grid_wf, consistent, set_cell_model,
    lemma_minus_facts, shrinks, narrows, refines, lemma_narrows_refines, lemma_shrinks_narrows,
};
use crate::rules::{
    ref_index, is_unit, unit_poss, grid_minus, in_unit, unit_rem, unit_technique,
    unit_technique_rem, same_pair, naked_pair_rem, triple_hit, naked_triple_rem,
    union3, only_in, hidden_pair_rem, block_refs, row_refs, col_refs,
    pointing_rem, pointing_block, third_confined, box_line_step,
    box_line_row_rem, box_line_col_rem, lemma_block_is_unit, lemma_row_is_unit, lemma_col_is_unit,
};
use crate::solver::CellRef;

verus! {

/// A completed board that follows the rules: 81 values from 1 to 9, no two
/// equal in a row, a column or a block.
pub open spec fn is_solution(s: Seq<i32>) -> bool {
    &&& s.len() == 81
    &&& forall|n: int| 0 <= n < 81 ==> 1 <= #[trigger] s[n] <= 9
    &&& forall|n: int, m: int| 0 <= n < 81 && 0 <= m < 81 && n != m && same_house(n, m) ==> #[trigger] s[n] != #[trigger] s[m]
}

/// The grid allows the board `s`: every set board cell holds the value of
/// `s`, and every open board cell lists it as a candidate.
pub open spec fn admits(g: Seq<CellModel>, s: Seq<i32>) -> bool {
    forall|n: int| 0 <= n < 81 ==> if (#[trigger] g[n]).value > 0 {
        g[n].value == s[n]
    } else {
        g[n].poss.contains(s[n])
    }
}

/// Every solution that `g` allows, `g2` allows too.
pub open spec fn keeps_solutions(g: Seq<CellModel>, g2: Seq<CellModel>) -> bool {
    forall|s: Seq<i32>| is_solution(s) && admits(g, s) ==> #[trigger] admits(g2, s)
}

pub proof fn lemma_keeps_solutions_refl(g: Seq<CellModel>)
    ensures
        keeps_solutions(g, g),
{
}

pub proof fn lemma_keeps_solutions_trans(g1: Seq<CellModel>, g2: Seq<CellModel>, g3: Seq<CellModel>)
    requires
        keeps_solutions(g1, g2),
        keeps_solutions(g2, g3),
    ensures
        keeps_solutions(g1, g3),
{
    assert forall|s: Seq<i32>| is_solution(s) && admits(g1, s) implies #[trigger] admits(g3, s) by {
        assert(admits(g2, s));
    }
}

/// Every value from 1 to 9 appears in every unit of a solution.
pub proof fn lemma_unit_has_all(s: Seq<i32>, unit: Seq<CellRef>, d: i32)
    requires
        is_solution(s),
        is_unit(unit),
        1 <= d <= 9,
    ensures
        exists|k: int| 0 <= k < 9 && s[ref_index(#[trigger] unit[k])] == d,
{
    let vals = Seq::new(9, |k: int| s[ref_index(unit[k])]);
    assert forall|k: int| 0 <= k < 9 implies 0 <= ref_index(#[trigger] unit[k]) < 81 by {
        assert(in_grid(unit[k].x as int, unit[k].y as int));
    }
    assert(vals.no_duplicates()) by {
        assert forall|a: int, b: int| 0 <= a < 9 && 0 <= b < 9 && a != b implies vals[a] != vals[b] by {
            assert(ref_index(unit[a]) != ref_index(unit[b]) && same_house(ref_index(unit[a]), ref_index(unit[b])));
            assert(s[ref_index(unit[a])] != s[ref_index(unit[b])]);
        }
    }
    vals.unique_seq_to_set();
    if !(exists|k: int| 0 <= k < 9 && s[ref_index(#[trigger] unit[k])] == d) {
        let others = set![1i32, 2, 3, 4, 5, 6, 7, 8, 9].remove(d);
        assert(set![1i32, 2, 3, 4, 5, 6, 7, 8, 9].len() == 9);
        assert(others.len() == 8);
        assert forall|w: i32| vals.to_set().contains(w) implies others.contains(w) by {
            let k = choose|k: int| 0 <= k < 9 && vals[k] == w;
            assert(s[ref_index(unit[k])] == w);
            assert(1 <= s[ref_index(unit[k])] <= 9);
        }
        vstd::set_lib::lemma_len_subset(vals.to_set(), others);
    }
}

/// Dropping candidates that no solution uses keeps every solution.
pub proof fn lemma_grid_minus_sound(g: Seq<CellModel>, r: spec_fn(int) -> Set<i32>, s: Seq<i32>)
    requires
        is_solution(s),
        admits(g, s),
        g.len() >= 81,
        forall|n: int| 0 <= n < 81 && !(g[n].value > 0) ==> !(#[trigger] r(n)).contains(s[n]),
    ensures
        admits(grid_minus(g, r), s),
{
    let g2 = grid_minus(g, r);
    assert forall|n: int| 0 <= n < 81 implies if (#[trigger] g2[n]).value > 0 {
        g2[n].value == s[n]
    } else {
        g2[n].poss.contains(s[n])
    } by {
        assert(g[n].value > 0 || !r(n).contains(s[n]));
        lemma_minus_facts(g[n], r(n));
    }
}

/// Giving a board cell the value that a solution has there keeps that solution.
pub proof fn lemma_set_cell_sound(g: Seq<CellModel>, x: int, y: int, s: Seq<i32>)
    requires
        is_solution(s),
        admits(g, s),
        g.len() >= 81,
        in_grid(x, y),
    ensures
        admits(set_cell_model(g, x, y, s[cell_index(x, y)]), s),
{
    let t = cell_index(x, y);
    let v = s[t];
    let g1 = g.update(t, g[t].with_value(v));
    let g2 = set_cell_model(g, x, y, v);
    assert forall|n: int| 0 <= n < 81 implies if (#[trigger] g2[n]).value > 0 {
        g2[n].value == s[n]
    } else {
        g2[n].poss.contains(s[n])
    } by {
        lemma_minus_facts(g1[n], set![v]);
        if n != t && same_house(n, t) {
            assert(s[n] != s[t]);
        }
    }
}

/// In a unit, a position whose candidates (as read) include `v` is an open
/// cell that lists `v`.
proof fn lemma_unit_poss_open(g: Seq<CellModel>, unit: Seq<CellRef>, k: int, v: i32)
    requires
        is_unit(unit),
        0 <= k < 9,
        g.len() >= 81,
        unit_poss(g, unit)[k].contains(v),
    ensures
        !(g[ref_index(unit[k])].value > 0),
        g[ref_index(unit[k])].poss.contains(v),
{
    if g[ref_index(unit[k])].value > 0 {
        assert(unit_poss(g, unit)[k] == Seq::<i32>::empty());
    }
}

/// In a consistent grid, where a solution puts `d` in a unit in which some
/// open cell lists `d`, the cell there is open too, and lists `d`.
pub(crate) proof fn lemma_solution_cell_open(g: Seq<CellModel>, unit: Seq<CellRef>, s: Seq<i32>, d: i32, k1: int, i: int)
    requires
        grid_wf(g),
        is_solution(s),
        admits(g, s),
        is_unit(unit),
        0 <= k1 < 9,
        0 <= i < 9,
        s[ref_index(unit[k1])] == d,
        unit_poss(g, unit)[i].contains(d),
    ensures
        unit_poss(g, unit)[k1].contains(d),
{
    let n1 = ref_index(unit[k1]);
    let ni = ref_index(unit[i]);
    assert(in_grid(unit[k1].x as int, unit[k1].y as int));
    assert(in_grid(unit[i].x as int, unit[i].y as int));
    lemma_unit_poss_open(g, unit, i, d);
    assert(g[ni].wf());
    if g[n1].value > 0 {
        assert(g[n1].value == d);
        assert(n1 != ni);
        assert(same_house(ni, n1));
        assert(consistent(g));
        assert(false);
    }
    assert(g[n1].wf());
}

/// The three unit techniques never rule out a solution.
pub proof fn lemma_unit_technique_sound(g: Seq<CellModel>, unit: Seq<CellRef>, technique: u8, s: Seq<i32>)
    requires
        grid_wf(g),
        is_unit(unit),
        is_solution(s),
        admits(g, s),
    ensures
        admits(unit_technique(g, unit, technique), s),
{
    let p = unit_poss(g, unit);
    let r = unit_rem(unit, |k: int| unit_technique_rem(p, k, technique));
    assert forall|n: int| 0 <= n < 81 && !(g[n].value > 0) implies !(#[trigger] r(n)).contains(s[n]) by {
        if in_unit(unit, n) {
            let k = choose|k: int| 0 <= k < unit.len() && ref_index(#[trigger] unit[k]) == n;
            let v = s[n];
            assert(r(n) == unit_technique_rem(p, k, technique));
            assert(p[k] == g[n].poss);
            if unit_technique_rem(p, k, technique).contains(v) {
                lemma_technique_removal_sound(g, unit, technique, s, k);
            }
        }
    }
    lemma_grid_minus_sound(g, r, s);
}

/// What a unit technique removes at an open position is never the
/// solution's value there.
proof fn lemma_technique_removal_sound(g: Seq<CellModel>, unit: Seq<CellRef>, technique: u8, s: Seq<i32>, k: int)
    requires
        grid_wf(g),
        is_unit(unit),
        is_solution(s),
        admits(g, s),
        0 <= k < 9,
        !(g[ref_index(unit[k])].value > 0),
    ensures
        !unit_technique_rem(unit_poss(g, unit), k, technique).contains(s[ref_index(unit[k])]),
{
    let p = unit_poss(g, unit);
    let n = ref_index(unit[k]);
    let v = s[n];
    assert forall|j: int| 0 <= j < 9 implies 0 <= ref_index(#[trigger] unit[j]) < 81 by {
        assert(in_grid(unit[j].x as int, unit[j].y as int));
    }
    // the solution's value at an open position is among its candidates
    assert forall|j: int| 0 <= j < 9 && p[j].len() > 0 implies #[trigger] p[j].contains(s[ref_index(unit[j])]) by {
        let nj = ref_index(unit[j]);
        if g[nj].value > 0 {
            assert(p[j] == Seq::<i32>::empty());
        }
        assert(admits(g, s));
        assert(g[nj] == g[nj]);
    }
    // solution values differ at distinct positions
    assert forall|a: int, b: int| 0 <= a < 9 && 0 <= b < 9 && a != b
        implies s[ref_index(#[trigger] unit[a])] != s[ref_index(#[trigger] unit[b])] by {
        assert(ref_index(unit[a]) != ref_index(unit[b]) && same_house(ref_index(unit[a]), ref_index(unit[b])));
    }
    if technique == 0 {
        if naked_pair_rem(p, k).contains(v) {
            let (i, j) = choose|i: int, j: int| 0 <= i < p.len() && 0 <= j < p.len() && i != j && i != k && j != k
                && #[trigger] same_pair(p[i], p[j]) && p[i].contains(v);
            let si = s[ref_index(unit[i])];
            let sj = s[ref_index(unit[j])];
            assert(p[i].contains(si) && p[j].contains(sj));
            assert(p[i].contains(sj)) by {
                let t = choose|t: int| 0 <= t < 2 && p[j][t] == sj;
                if t == 0 {
                    assert(p[i][0] == sj || p[i][1] == sj);
                } else {
                    assert(p[i][0] == sj || p[i][1] == sj);
                }
            }
            assert(si != sj && v != si && v != sj);
            let ti = choose|t: int| 0 <= t < 2 && p[i][t] == si;
            let tj = choose|t: int| 0 <= t < 2 && p[i][t] == sj;
            let tv = choose|t: int| 0 <= t < 2 && p[i][t] == v;
            assert(false);
        }
    } else if technique == 1 {
        if naked_triple_rem(p, k).contains(v) {
            let (i, j, l) = choose|i: int, j: int, l: int| #[trigger] triple_hit(p, k, v, i, j, l);
            let u = union3(p[i], p[j], p[l]);
            let (x, y, z) = choose|x: i32, y: i32, z: i32| x != y && y != z && x != z && u == set![x, y, z];
            let si = s[ref_index(unit[i])];
            let sj = s[ref_index(unit[j])];
            let sl = s[ref_index(unit[l])];
            assert(p[i].contains(si) && p[j].contains(sj) && p[l].contains(sl));
            assert(p[i].to_set().contains(si) && p[j].to_set().contains(sj) && p[l].to_set().contains(sl));
            assert(u.contains(si) && u.contains(sj) && u.contains(sl) && u.contains(v));
            assert(si != sj && si != sl && sj != sl);
            assert(v != si && v != sj && v != sl);
            assert(set![x, y, z].contains(v));
            assert(false);
        }
    } else {
        if hidden_pair_rem(p, k).contains(v) {
            let (v1, v2, a, b) = choose|v1: i32, v2: i32, a: int, b: int|
                v1 != v2 && #[trigger] only_in(p, v1, a, b) && #[trigger] only_in(p, v2, a, b)
                    && (k == a || k == b) && v != v1 && v != v2;
            assert(p[a].contains(v1) && p[a].contains(v2));
            crate::rules::lemma_only_in_facts(p, v1, a, b, a, b);
            crate::rules::lemma_unit_poss_small(g, unit);
            crate::rules::lemma_only_in_facts(p, v1, a, b, a, b);
            crate::rules::lemma_only_in_facts(p, v2, a, b, a, b);
            lemma_unit_has_all(s, unit, v1);
            lemma_unit_has_all(s, unit, v2);
            let k1 = choose|k1: int| 0 <= k1 < 9 && s[ref_index(#[trigger] unit[k1])] == v1;
            let k2 = choose|k2: int| 0 <= k2 < 9 && s[ref_index(#[trigger] unit[k2])] == v2;
            lemma_solution_cell_open(g, unit, s, v1, k1, a);
            lemma_solution_cell_open(g, unit, s, v2, k2, a);
            assert(k1 == a || k1 == b);
            assert(k2 == a || k2 == b);
            assert(k1 != k2);
            assert(false);
        }
    }
}

/// What pointing pairs remove at an open board cell is never the solution's
/// value there.
proof fn lemma_pointing_cell_sound(g: Seq<CellModel>, bx: int, by: int, s: Seq<i32>, n: int)
    requires
        grid_wf(g),
        is_solution(s),
        admits(g, s),
        0 <= bx < 3,
        0 <= by < 3,
        0 <= n < 81,
        !(g[n].value > 0),
    ensures
        !pointing_rem(unit_poss(g, block_refs(bx, by)), bx, by, n).contains(s[n]),
{
    let unit = block_refs(bx, by);
    let b = unit_poss(g, unit);
    lemma_block_is_unit(bx, by);
    let x = n % 9;
    let y = n / 9;
    let val = s[n];
    if pointing_rem(b, bx, by, n).contains(val) {
        lemma_unit_has_all(s, unit, val);
        let k1 = choose|k1: int| 0 <= k1 < 9 && s[ref_index(#[trigger] unit[k1])] == val;
        let n1 = ref_index(unit[k1]);
        let (i, j) = choose|i: int, j: int| 0 <= i < b.len() && 0 <= j < b.len() && i != j
            && #[trigger] b[i].contains(val) && #[trigger] b[j].contains(val);
        lemma_solution_cell_open(g, unit, s, val, k1, i);
        lemma_in_block(bx, by, k1);
        if y / 3 == by && x / 3 != bx && third_confined(b, val, y - by * 3) {
            assert(k1 / 3 == y - by * 3);
            assert(same_house(n, n1));
        } else {
            assert(k1 % 3 == x - bx * 3);
            assert(same_house(n, n1));
        }
    }
}

/// Where position `k` of block (`bx`, `by`) lies on the board.
proof fn lemma_in_block(bx: int, by: int, k: int)
    requires
        0 <= bx < 3,
        0 <= by < 3,
        0 <= k < 9,
    ensures
        ref_index(block_refs(bx, by)[k]) == (by * 3 + k / 3) * 9 + bx * 3 + k % 3,
        ref_index(block_refs(bx, by)[k]) / 9 == by * 3 + k / 3,
        ref_index(block_refs(bx, by)[k]) % 9 == bx * 3 + k % 3,
{
}

/// Pointing pairs never rule out a solution.
pub proof fn lemma_pointing_sound(g: Seq<CellModel>, bx: int, by: int, s: Seq<i32>)
    requires
        grid_wf(g),
        is_solution(s),
        admits(g, s),
        0 <= bx < 3,
        0 <= by < 3,
    ensures
        admits(pointing_block(g, bx, by), s),
{
    let b = unit_poss(g, block_refs(bx, by));
    let r = |n: int| pointing_rem(b, bx, by, n);
    assert forall|n: int| 0 <= n < 81 && !(g[n].value > 0) implies !(#[trigger] r(n)).contains(s[n]) by {
        lemma_pointing_cell_sound(g, bx, by, s, n);
    }
    lemma_grid_minus_sound(g, r, s);
}

/// Box/line reduction on a row never rules out a solution.
proof fn lemma_box_line_row_sound(g: Seq<CellModel>, t: int, s: Seq<i32>)
    requires
        grid_wf(g),
        is_solution(s),
        admits(g, s),
        0 <= t < 9,
    ensures
        admits(box_line_step(g, t), s),
{
    let unit = row_refs(t);
    let p = unit_poss(g, unit);
    lemma_row_is_unit(t);
    let r = |n: int| box_line_row_rem(p, t, n);
    assert forall|n: int| 0 <= n < 81 && !(g[n].value > 0) implies !(#[trigger] r(n)).contains(s[n]) by {
        let val = s[n];
        if r(n).contains(val) {
            lemma_unit_has_all(s, unit, val);
            let k1 = choose|k1: int| 0 <= k1 < 9 && s[ref_index(#[trigger] unit[k1])] == val;
            let (i, j) = choose|i: int, j: int| 0 <= i < p.len() && 0 <= j < p.len() && i != j
                && #[trigger] p[i].contains(val) && #[trigger] p[j].contains(val);
            lemma_solution_cell_open(g, unit, s, val, k1, i);
            lemma_same_block(t, k1, n / 9, n % 9);
        }
    }
    lemma_grid_minus_sound(g, r, s);
}

/// Box/line reduction on a column never rules out a solution.
proof fn lemma_box_line_col_sound(g: Seq<CellModel>, c: int, s: Seq<i32>)
    requires
        grid_wf(g),
        is_solution(s),
        admits(g, s),
        0 <= c < 9,
    ensures
        admits(box_line_step(g, c + 9), s),
{
    let unit = col_refs(c);
    let p = unit_poss(g, unit);
    lemma_col_is_unit(c);
    let r = |n: int| box_line_col_rem(p, c, n);
    assert forall|n: int| 0 <= n < 81 && !(g[n].value > 0) implies !(#[trigger] r(n)).contains(s[n]) by {
        let val = s[n];
        if r(n).contains(val) {
            lemma_unit_has_all(s, unit, val);
            let k1 = choose|k1: int| 0 <= k1 < 9 && s[ref_index(#[trigger] unit[k1])] == val;
            let (i, j) = choose|i: int, j: int| 0 <= i < p.len() && 0 <= j < p.len() && i != j
                && #[trigger] p[i].contains(val) && #[trigger] p[j].contains(val);
            lemma_solution_cell_open(g, unit, s, val, k1, i);
            lemma_same_block(k1, c, n / 9, n % 9);
        }
    }
    assert(box_line_step(g, c + 9) == grid_minus(g, r));
    lemma_grid_minus_sound(g, r, s);
}

/// Two distinct board cells in the same block share a house.
proof fn lemma_same_block(y1: int, x1: int, y2: int, x2: int)
    requires
        0 <= y1 < 9 && 0 <= x1 < 9 && 0 <= y2 < 9 && 0 <= x2 < 9,
        y1 / 3 == y2 / 3,
        x1 / 3 == x2 / 3,
    ensures
        same_house(y1 * 9 + x1, y2 * 9 + x2),
        (y1 * 9 + x1) / 9 == y1 && (y1 * 9 + x1) % 9 == x1,
        (y2 * 9 + x2) / 9 == y2 && (y2 * 9 + x2) % 9 == x2,
{
    lemma_index_parts(y1, x1);
    lemma_index_parts(y2, x2);
}

/// Row, column and band of the cell in row `y` and column `x`.
pub proof fn lemma_index_parts(y: int, x: int)
    requires
        0 <= y < 9 && 0 <= x < 9,
    ensures
        (y * 9 + x) / 9 == y,
        (y * 9 + x) % 9 == x,
        (y * 9 + x) / 27 == y / 3,
{
    assert((y * 9 + x) / 9 == y) by (nonlinear_arith)
        requires 0 <= y < 9 && 0 <= x < 9;
    assert((y * 9 + x) % 9 == x) by (nonlinear_arith)
        requires 0 <= y < 9 && 0 <= x < 9;
    assert((y * 9 + x) / 27 == y / 3) by (nonlinear_arith)
        requires 0 <= y < 9 && 0 <= x < 9;
}

/// Box/line reduction never rules out a solution.
pub proof fn lemma_box_line_sound(g: Seq<CellModel>, t: int, s: Seq<i32>)
    requires
        grid_wf(g),
        is_solution(s),
        admits(g, s),
        0 <= t < 18,
    ensures
        admits(box_line_step(g, t), s),
{
    if t < 9 {
        lemma_box_line_row_sound(g, t, s);
    } else {
        lemma_box_line_col_sound(g, t - 9, s);
    }
}


/// `g` and `g2` allow exactly the same solutions.
pub open spec fn same_solutions(g: Seq<CellModel>, g2: Seq<CellModel>) -> bool {
    forall|s: Seq<i32>| is_solution(s) ==> (admits(g, s) <==> #[trigger] admits(g2, s))
}

/// A narrowed grid allows no board that the grid before it did not allow.
pub proof fn lemma_narrows_converse(g: Seq<CellModel>, g2: Seq<CellModel>, s: Seq<i32>)
    requires
        g.len() >= 81,
        narrows(g, g2),
        forall|n: int| 0 <= n < 81 ==> (#[trigger] g2[n]).wf(),
        admits(g2, s),
    ensures
        admits(g, s),
{
    assert forall|n: int| 0 <= n < 81 implies if (#[trigger] g[n]).value > 0 {
        g[n].value == s[n]
    } else {
        g[n].poss.contains(s[n])
    } by {
        assert(g2[n].wf());
        if g[n].value <= 0 && g2[n].value > 0 {
            assert(g2[n].poss == seq![g2[n].value]);
            assert(g2[n].poss[0] == s[n]);
            assert(g2[n].poss.contains(s[n]));
        }
        if g[n].value <= 0 && g2[n].value <= 0 {
            assert(g2[n].poss.contains(s[n]));
        }
    }
}

/// A step that keeps every solution and narrows the grid allows exactly
/// the solutions that the grid allowed before it, and keeps each cell's
/// candidates in order.
pub proof fn lemma_narrows_same_solutions(g: Seq<CellModel>, g2: Seq<CellModel>)
    requires
        grid_wf(g),
        grid_wf(g2),
        narrows(g, g2),
        keeps_solutions(g, g2),
    ensures
        refines(g, g2),
        same_solutions(g, g2),
{
    lemma_narrows_refines(g, g2);
    assert forall|s: Seq<i32>| is_solution(s) implies (admits(g, s) <==> #[trigger] admits(g2, s)) by {
        if admits(g2, s) {
            lemma_narrows_converse(g, g2, s);
        }
    }
}

/// The same for a step that only drops candidates.
pub proof fn lemma_shrinks_same_solutions(g: Seq<CellModel>, g2: Seq<CellModel>)
    requires
        grid_wf(g),
        shrinks(g, g2),
        keeps_solutions(g, g2),
    ensures
        refines(g, g2),
        same_solutions(g, g2),
{
    crate::model::lemma_shrinks_keeps_wf(g, g2);
    lemma_shrinks_narrows(g, g2);
    lemma_narrows_same_solutions(g, g2);
}

} // verus!
