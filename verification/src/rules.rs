//! What each solving technique does to the abstract grid, and the facts
//! about removals and progress that the solver's proofs use.
use vstd::prelude::*;
use crate::model::{
    CellModel, cell_index, in_grid, same_house, grid_wf, grid_measure, shrinks, set_cell_model,
    lemma_minus_facts, lemma_shrinks_keeps_wf, lemma_measure_mono, lemma_minus_congruent,
};
use crate::solver::CellRef;

verus! {

/// The index of the cell that `r` names.
pub open spec fn ref_index(r: CellRef) -> int {
    cell_index(r.x as int, r.y as int)
}

/// Row `row`, left to right.
pub open spec fn row_refs(row: int) -> Seq<CellRef> {
    Seq::new(9, |i: int| CellRef { x: i as i32, y: row as i32 })
}

/// Column `col`, top to bottom.
pub open spec fn col_refs(col: int) -> Seq<CellRef> {
    Seq::new(9, |i: int| CellRef { x: col as i32, y: i as i32 })
}

/// Block (`bx`, `by`), row by row.
pub open spec fn block_refs(bx: int, by: int) -> Seq<CellRef> {
    Seq::new(9, |i: int| CellRef { x: (bx * 3 + i % 3) as i32, y: (by * 3 + i / 3) as i32 })
}

/// Block (`bx`, `by`), column by column.
pub open spec fn block_refs_by_column(bx: int, by: int) -> Seq<CellRef> {
    Seq::new(9, |i: int| CellRef { x: (bx * 3 + i / 3) as i32, y: (by * 3 + i % 3) as i32 })
}

/// The 27 units in the order the solver visits them: row 0, column 0,
/// row 1, column 1, ..., row 8, column 8, then the blocks, `bx` outer.
pub open spec fn all_units() -> Seq<Seq<CellRef>> {
    Seq::new(27, |u: int| if u < 18 {
        if u % 2 == 0 { row_refs(u / 2) } else { col_refs(u / 2) }
    } else {
        block_refs((u - 18) / 3, (u - 18) % 3)
    })
}

/// Nine board cells at distinct indices that pairwise share a house.
pub open spec fn is_unit(u: Seq<CellRef>) -> bool {
    &&& u.len() == 9
    &&& forall|k: int| 0 <= k < 9 ==> in_grid((#[trigger] u[k]).x as int, u[k].y as int)
    &&& forall|a: int, b: int| 0 <= a < 9 && 0 <= b < 9 && a != b
        ==> ref_index(#[trigger] u[a]) != ref_index(#[trigger] u[b]) && same_house(ref_index(u[a]), ref_index(u[b]))
}

/// The candidates of the cells of `unit`, as the solver reads them: empty
/// for a cell that has a value.
pub open spec fn unit_poss(g: Seq<CellModel>, unit: Seq<CellRef>) -> Seq<Seq<i32>> {
    Seq::new(unit.len(), |k: int| {
        let c = g[ref_index(unit[k])];
        if c.value > 0 { Seq::<i32>::empty() } else { c.poss }
    })
}

/// `g` with the candidates in `rem(n)` dropped at every board cell `n`.
pub open spec fn grid_minus(g: Seq<CellModel>, rem: spec_fn(int) -> Set<i32>) -> Seq<CellModel> {
    Seq::new(g.len(), |n: int| if 0 <= n < 81 { g[n].minus(rem(n)) } else { g[n] })
}

/// Whether some position of `unit` names cell `n`.
pub open spec fn in_unit(unit: Seq<CellRef>, n: int) -> bool {
    exists|k: int| 0 <= k < unit.len() && ref_index(#[trigger] unit[k]) == n
}

/// Removal sets given per position of `unit`, as removal sets per cell.
pub open spec fn unit_rem(unit: Seq<CellRef>, r: spec_fn(int) -> Set<i32>) -> spec_fn(int) -> Set<i32> {
    |n: int| if in_unit(unit, n) {
        r(choose|k: int| 0 <= k < unit.len() && ref_index(#[trigger] unit[k]) == n)
    } else {
        Set::<i32>::empty()
    }
}

/// The values 0..10 that row `k` of a flag table marks.
pub open spec fn flag_set(t: Seq<Seq<bool>>, k: int) -> Set<i32> {
    Set::new(|v: i32| 0 <= v < 10 && t[k][v as int])
}

/// The views of a list of vectors.
pub open spec fn views<T>(p: Seq<Vec<T>>) -> Seq<Seq<T>> {
    p.map_values(|v: Vec<T>| v@)
}

/// The measure did not grow; it fell when `changed`, and the grid stayed
/// the same when not.
pub open spec fn progress(g: Seq<CellModel>, g2: Seq<CellModel>, changed: bool) -> bool {
    &&& grid_measure(g2) <= grid_measure(g)
    &&& changed ==> grid_measure(g2) < grid_measure(g)
    &&& !changed ==> g2 == g
}

pub proof fn lemma_progress_refl(g: Seq<CellModel>)
    ensures
        progress(g, g, false),
{
}

pub proof fn lemma_progress_trans(g1: Seq<CellModel>, g2: Seq<CellModel>, g3: Seq<CellModel>, c1: bool, c2: bool)
    requires
        progress(g1, g2, c1),
        progress(g2, g3, c2),
    ensures
        progress(g1, g3, c1 || c2),
{
}

/// `progress` says exactly whether the grid changed.
pub proof fn lemma_progress_changed(g: Seq<CellModel>, g2: Seq<CellModel>, changed: bool)
    requires
        progress(g, g2, changed),
    ensures
        changed <==> g2 != g,
{
}

/// Dropping one candidate from one board cell: the measure does not grow,
/// falls when a candidate goes, and the grid stays well formed.
pub proof fn lemma_remove_one(g: Seq<CellModel>, n: int, v: i32)
    requires
        grid_wf(g),
        0 <= n < 81,
    ensures
        progress(g, g.update(n, g[n].minus(set![v])), g[n].value <= 0 && g[n].poss.contains(v)),
        grid_wf(g.update(n, g[n].minus(set![v]))),
{
    let g2 = g.update(n, g[n].minus(set![v]));
    lemma_minus_facts(g[n], set![v]);
    assert(g[n].wf());
    if g[n].value <= 0 && g[n].poss.contains(v) {
        let i = choose|i: int| 0 <= i < g[n].poss.len() && g[n].poss[i] == v;
        assert(set![v].contains(g[n].poss[i]));
        assert(g2[n].measure() < g[n].measure());
    } else {
        assert forall|i: int| 0 <= i < g[n].poss.len() && set![v].contains(#[trigger] g[n].poss[i]) implies g[n].value > 0 by {
            assert(g[n].poss.contains(g[n].poss[i]));
        }
        assert(g2 =~= g);
    }
    assert forall|m: int| 0 <= m < 81 implies (#[trigger] g2[m]).measure() <= g[m].measure() by {}
    lemma_measure_mono(g, g2, 81);
    assert forall|m: int, w: i32| 0 <= m < g.len() && #[trigger] g2[m].poss.contains(w) implies g[m].poss.contains(w) by {}
    lemma_shrinks_keeps_wf(g, g2);
}

/// Dropping candidates keeps values, only removes candidates, and keeps
/// cells well formed.
pub proof fn lemma_grid_minus_shrinks(g: Seq<CellModel>, r: spec_fn(int) -> Set<i32>)
    requires
        forall|n: int| 0 <= n < g.len() ==> (#[trigger] g[n]).wf(),
    ensures
        shrinks(g, grid_minus(g, r)),
{
    let g2 = grid_minus(g, r);
    assert forall|n: int| 0 <= n < g.len() implies (#[trigger] g2[n]).value == g[n].value && g2[n].wf()
        && (forall|v: i32| g2[n].poss.contains(v) ==> g[n].poss.contains(v)) by {
        if n < 81 {
            lemma_minus_facts(g[n], r(n));
        }
    }
}

/// Only the candidates a board cell has matter to `grid_minus`.
pub proof fn lemma_grid_minus_congruent(g: Seq<CellModel>, r1: spec_fn(int) -> Set<i32>, r2: spec_fn(int) -> Set<i32>)
    requires
        forall|n: int, i: int| 0 <= n < 81 && n < g.len() && 0 <= i < g[n].poss.len()
            ==> (r1(n).contains(#[trigger] g[n].poss[i]) <==> r2(n).contains(g[n].poss[i])),
    ensures
        grid_minus(g, r1) == grid_minus(g, r2),
{
    assert forall|n: int| 0 <= n < g.len() implies #[trigger] grid_minus(g, r1)[n] == grid_minus(g, r2)[n] by {
        if n < 81 {
            lemma_minus_congruent(g[n], r1(n), r2(n));
        }
    }
    assert(grid_minus(g, r1) =~= grid_minus(g, r2));
}

/// On a unit, `unit_rem` gives each named cell the set of its position and
/// every other cell nothing.
pub proof fn lemma_unit_rem_at(unit: Seq<CellRef>, r: spec_fn(int) -> Set<i32>, k: int)
    requires
        is_unit(unit),
        0 <= k < 9,
    ensures
        in_unit(unit, ref_index(unit[k])),
        unit_rem(unit, r)(ref_index(unit[k])) == r(k),
{
    let n = ref_index(unit[k]);
    assert(in_unit(unit, n));
    let k2 = choose|k2: int| 0 <= k2 < unit.len() && ref_index(#[trigger] unit[k2]) == n;
    if k2 != k {
        assert(ref_index(unit[k2]) != ref_index(unit[k]));
    }
}

pub proof fn lemma_row_is_unit(row: int)
    requires
        0 <= row < 9,
    ensures
        is_unit(row_refs(row)),
{
    let u = row_refs(row);
    assert forall|a: int, b: int| 0 <= a < 9 && 0 <= b < 9 && a != b
        implies ref_index(#[trigger] u[a]) != ref_index(#[trigger] u[b]) && same_house(ref_index(u[a]), ref_index(u[b])) by {
        assert(ref_index(u[a]) == row * 9 + a);
        assert(ref_index(u[b]) == row * 9 + b);
        assert((row * 9 + a) / 9 == row);
        assert((row * 9 + b) / 9 == row);
    }
}

pub proof fn lemma_col_is_unit(col: int)
    requires
        0 <= col < 9,
    ensures
        is_unit(col_refs(col)),
{
    let u = col_refs(col);
    assert forall|a: int, b: int| 0 <= a < 9 && 0 <= b < 9 && a != b
        implies ref_index(#[trigger] u[a]) != ref_index(#[trigger] u[b]) && same_house(ref_index(u[a]), ref_index(u[b])) by {
        assert(ref_index(u[a]) == a * 9 + col);
        assert(ref_index(u[b]) == b * 9 + col);
        assert((a * 9 + col) % 9 == col);
        assert((b * 9 + col) % 9 == col);
    }
}

/// The cell with column `x` and row `y` in the block (`bx`, `by`) is in the
/// block's house.
proof fn lemma_block_index(bx: int, by: int, dx: int, dy: int)
    requires
        0 <= bx < 3,
        0 <= by < 3,
        0 <= dx < 3,
        0 <= dy < 3,
    ensures
        ((by * 3 + dy) * 9 + bx * 3 + dx) / 27 == by,
        ((by * 3 + dy) * 9 + bx * 3 + dx) % 9 == bx * 3 + dx,
        (((by * 3 + dy) * 9 + bx * 3 + dx) % 9) / 3 == bx,
{
    assert((by * 3 + dy) * 9 + bx * 3 + dx == by * 27 + (dy * 9 + bx * 3 + dx));
    assert((by * 3 + dy) * 9 + bx * 3 + dx == (by * 3 + dy) * 9 + (bx * 3 + dx));
}

pub proof fn lemma_block_is_unit(bx: int, by: int)
    requires
        0 <= bx < 3,
        0 <= by < 3,
    ensures
        is_unit(block_refs(bx, by)),
        is_unit(block_refs_by_column(bx, by)),
{
    let u = block_refs(bx, by);
    assert forall|a: int, b: int| 0 <= a < 9 && 0 <= b < 9 && a != b
        implies ref_index(#[trigger] u[a]) != ref_index(#[trigger] u[b]) && same_house(ref_index(u[a]), ref_index(u[b])) by {
        lemma_block_index(bx, by, a % 3, a / 3);
        lemma_block_index(bx, by, b % 3, b / 3);
    }
    let w = block_refs_by_column(bx, by);
    assert forall|a: int, b: int| 0 <= a < 9 && 0 <= b < 9 && a != b
        implies ref_index(#[trigger] w[a]) != ref_index(#[trigger] w[b]) && same_house(ref_index(w[a]), ref_index(w[b])) by {
        lemma_block_index(bx, by, a / 3, a % 3);
        lemma_block_index(bx, by, b / 3, b % 3);
    }
}

pub proof fn lemma_all_units_are_units()
    ensures
        forall|u: int| 0 <= u < 27 ==> is_unit(#[trigger] all_units()[u]),
{
    assert forall|u: int| 0 <= u < 27 implies is_unit(#[trigger] all_units()[u]) by {
        if u < 18 {
            if u % 2 == 0 {
                lemma_row_is_unit(u / 2);
            } else {
                lemma_col_is_unit(u / 2);
            }
        } else {
            lemma_block_is_unit((u - 18) / 3, (u - 18) % 3);
        }
    }
}

/// `g2` came from `g` with a measure that did not grow, and fell if `g2` differs.
pub open spec fn decreasing(g: Seq<CellModel>, g2: Seq<CellModel>) -> bool {
    progress(g, g2, g2 != g)
}

/// Flags over 0..10 per unit position that match removal sets give the
/// same grid as those sets.
pub proof fn lemma_unit_flags_match(g: Seq<CellModel>, unit: Seq<CellRef>, t: Seq<Seq<bool>>, r: spec_fn(int) -> Set<i32>)
    requires
        grid_wf(g),
        is_unit(unit),
        forall|k: int, v: i32| 0 <= k < 9 && 0 <= v < 10 ==> (t[k][v as int] <==> #[trigger] r(k).contains(v)),
    ensures
        grid_minus(g, unit_rem(unit, |k: int| flag_set(t, k))) == grid_minus(g, unit_rem(unit, r)),
{
    let r1 = unit_rem(unit, |k: int| flag_set(t, k));
    let r2 = unit_rem(unit, r);
    assert forall|n: int, i: int| 0 <= n < 81 && n < g.len() && 0 <= i < g[n].poss.len()
        implies (r1(n).contains(#[trigger] g[n].poss[i]) <==> r2(n).contains(g[n].poss[i])) by {
        assert(g[n].wf());
        let w = g[n].poss[i];
        assert(0 <= w <= 9);
        if in_unit(unit, n) {
            let k = choose|k: int| 0 <= k < unit.len() && ref_index(#[trigger] unit[k]) == n;
            assert(r1(n) == flag_set(t, k));
            assert(r2(n) == r(k));
            assert(flag_set(t, k).contains(w) <==> t[k][w as int]);
        }
    }
    lemma_grid_minus_congruent(g, r1, r2);
}

// ---------------------------------------------------------------------
// Naked pairs
// ---------------------------------------------------------------------

/// Two lists of two values that hold the same two values (equal once sorted).
pub open spec fn same_pair(a: Seq<i32>, b: Seq<i32>) -> bool {
    &&& a.len() == 2
    &&& b.len() == 2
    &&& ((a[0] == b[0] && a[1] == b[1]) || (a[0] == b[1] && a[1] == b[0]))
}

/// What naked pairs remove from position `k` of a unit with candidates `p`:
/// the two values of any two other positions whose candidates are the
/// same two values.
pub open spec fn naked_pair_rem(p: Seq<Seq<i32>>, k: int) -> Set<i32> {
    Set::new(|v: i32| exists|i: int, j: int|
        0 <= i < p.len() && 0 <= j < p.len() && i != j && i != k && j != k
            && #[trigger] same_pair(p[i], p[j]) && p[i].contains(v))
}

/// Naked pairs applied to the first `u` units of `all_units()` in turn.
/// Naked pairs applied to every unit in turn.
pub open spec fn naked_pairs_all(g: Seq<CellModel>) -> Seq<CellModel> {
    unit_technique_upto(g, 27, 0)
}

/// Every candidate listed is in 0..=9.
pub open spec fn small_values(p: Seq<Seq<i32>>) -> bool {
    forall|k: int, i: int| 0 <= k < p.len() && 0 <= i < p[k].len() ==> 0 <= #[trigger] p[k][i] <= 9
}

pub proof fn lemma_unit_poss_small(g: Seq<CellModel>, unit: Seq<CellRef>)
    requires
        grid_wf(g),
        is_unit(unit),
    ensures
        small_values(unit_poss(g, unit)),
        unit_poss(g, unit).len() == 9,
{
    let p = unit_poss(g, unit);
    assert forall|k: int, i: int| 0 <= k < p.len() && 0 <= i < p[k].len() implies 0 <= #[trigger] p[k][i] <= 9 by {
        let n = ref_index(unit[k]);
        assert(in_grid(unit[k].x as int, unit[k].y as int));
        assert(g[n].wf());
    }
}

// ---------------------------------------------------------------------
// Naked triples
// ---------------------------------------------------------------------

/// A list of two or three candidates.
pub open spec fn triple_candidate(a: Seq<i32>) -> bool {
    a.len() == 2 || a.len() == 3
}

/// The values of three lists together.
pub open spec fn union3(a: Seq<i32>, b: Seq<i32>, c: Seq<i32>) -> Set<i32> {
    a.to_set() + b.to_set() + c.to_set()
}

/// A set of exactly three values.
pub open spec fn has_three(s: Set<i32>) -> bool {
    exists|x: i32, y: i32, z: i32| x != y && y != z && x != z && s == set![x, y, z]
}

/// Positions `i`, `j`, `l` form a naked triple: distinct, each with two or
/// three candidates, three values between them.
pub open spec fn naked_triple(p: Seq<Seq<i32>>, i: int, j: int, l: int) -> bool {
    &&& 0 <= i < p.len() && 0 <= j < p.len() && 0 <= l < p.len()
    &&& i != j && i != l && j != l
    &&& triple_candidate(p[i]) && triple_candidate(p[j]) && triple_candidate(p[l])
    &&& has_three(union3(p[i], p[j], p[l]))
}

/// A naked triple elsewhere in the unit removes `v` from position `k`.
pub open spec fn triple_hit(p: Seq<Seq<i32>>, k: int, v: i32, i: int, j: int, l: int) -> bool {
    naked_triple(p, i, j, l) && k != i && k != j && k != l && union3(p[i], p[j], p[l]).contains(v)
}

/// What naked triples remove from position `k`: the three values of any
/// naked triple formed by other positions.
pub open spec fn naked_triple_rem(p: Seq<Seq<i32>>, k: int) -> Set<i32> {
    Set::new(|v: i32| exists|i: int, j: int, l: int| #[trigger] triple_hit(p, k, v, i, j, l))
}

/// A list without repetitions that holds exactly the members of `s` has
/// three elements exactly when `s` has three members.
pub proof fn lemma_has_three(u: Seq<i32>, s: Set<i32>)
    requires
        u.no_duplicates(),
        forall|w: i32| u.contains(w) <==> s.contains(w),
    ensures
        has_three(s) <==> u.len() == 3,
{
    assert(u.to_set() =~= s);
    u.unique_seq_to_set();
    if u.len() == 3 {
        assert(u.contains(u[0]) && u.contains(u[1]) && u.contains(u[2]));
        assert forall|w: i32| s.contains(w) <==> set![u[0], u[1], u[2]].contains(w) by {
            if s.contains(w) {
                let i = choose|i: int| 0 <= i < u.len() && u[i] == w;
            }
        }
        assert(s =~= set![u[0], u[1], u[2]]);
    }
    if has_three(s) {
        let (x, y, z) = choose|x: i32, y: i32, z: i32| x != y && y != z && x != z && s == set![x, y, z];
        assert(set![x, y, z].len() == 3);
    }
}

/// Naked triples applied to every unit in turn.
pub open spec fn naked_triples_all(g: Seq<CellModel>) -> Seq<CellModel> {
    unit_technique_upto(g, 27, 1)
}

// ---------------------------------------------------------------------
// Hidden pairs
// ---------------------------------------------------------------------

/// Value `v` is a candidate at positions `a` and `b` (a < b) and nowhere else.
pub open spec fn only_in(p: Seq<Seq<i32>>, v: i32, a: int, b: int) -> bool {
    &&& 0 <= a < b < p.len()
    &&& forall|k: int| 0 <= k < p.len() ==> (#[trigger] p[k].contains(v) <==> (k == a || k == b))
}

/// The two positions of `only_in` are determined by the value, and the
/// value is a listed candidate.
pub proof fn lemma_only_in_facts(p: Seq<Seq<i32>>, w: i32, a: int, b: int, a2: int, b2: int)
    requires
        only_in(p, w, a, b),
    ensures
        only_in(p, w, a2, b2) ==> a == a2 && b == b2,
        small_values(p) ==> 0 <= w <= 9,
{
    assert(p[a].contains(w) && p[b].contains(w));
    if only_in(p, w, a2, b2) {
        assert(p[a2].contains(w) && p[b2].contains(w));
    }
    if small_values(p) {
        let t = choose|t: int| 0 <= t < p[a].len() && p[a][t] == w;
        assert(0 <= p[a][t] <= 9);
    }
}

/// What hidden pairs remove from position `k`: when two values are
/// candidates only at the same two positions and `k` is one of them, every
/// other candidate of `k`.
pub open spec fn hidden_pair_rem(p: Seq<Seq<i32>>, k: int) -> Set<i32> {
    Set::new(|v: i32| p[k].contains(v) && exists|v1: i32, v2: i32, a: int, b: int|
        v1 != v2 && #[trigger] only_in(p, v1, a, b) && #[trigger] only_in(p, v2, a, b)
            && (k == a || k == b) && v != v1 && v != v2)
}

/// Hidden pairs applied to every unit in turn.
pub open spec fn hidden_pairs_all(g: Seq<CellModel>) -> Seq<CellModel> {
    unit_technique_upto(g, 27, 2)
}

// ---------------------------------------------------------------------
// The three unit techniques together
// ---------------------------------------------------------------------

/// The removal set at position `k` of unit technique `technique`: 0 naked pairs,
/// 1 naked triples, 2 hidden pairs.
pub open spec fn unit_technique_rem(p: Seq<Seq<i32>>, k: int, technique: u8) -> Set<i32> {
    if technique == 0 {
        naked_pair_rem(p, k)
    } else if technique == 1 {
        naked_triple_rem(p, k)
    } else {
        hidden_pair_rem(p, k)
    }
}

/// Unit technique `technique` applied to one unit, from one reading of its candidates.
pub open spec fn unit_technique(g: Seq<CellModel>, unit: Seq<CellRef>, technique: u8) -> Seq<CellModel> {
    let p = unit_poss(g, unit);
    grid_minus(g, unit_rem(unit, |k: int| unit_technique_rem(p, k, technique)))
}

/// Unit technique `technique` applied to the first `u` units of `all_units()` in turn.
pub open spec fn unit_technique_upto(g: Seq<CellModel>, u: nat, technique: u8) -> Seq<CellModel>
    decreases u,
{
    if u == 0 {
        g
    } else {
        unit_technique(unit_technique_upto(g, (u - 1) as nat, technique), all_units()[u - 1], technique)
    }
}

/// Flags over 0..10 per board cell that match removal sets give the same
/// grid as those sets.
pub proof fn lemma_grid_flags_match(g: Seq<CellModel>, t: Seq<Seq<bool>>, r: spec_fn(int) -> Set<i32>)
    requires
        grid_wf(g),
        forall|n: int, v: i32| 0 <= n < 81 && 0 <= v < 10 ==> (t[n][v as int] <==> #[trigger] r(n).contains(v)),
    ensures
        grid_minus(g, |n: int| flag_set(t, n)) == grid_minus(g, r),
{
    let r1 = |n: int| flag_set(t, n);
    assert forall|n: int, i: int| 0 <= n < 81 && n < g.len() && 0 <= i < g[n].poss.len()
        implies (r1(n).contains(#[trigger] g[n].poss[i]) <==> r(n).contains(g[n].poss[i])) by {
        assert(g[n].wf());
        let w = g[n].poss[i];
        assert(0 <= w <= 9);
        assert(flag_set(t, n).contains(w) <==> t[n][w as int]);
    }
    lemma_grid_minus_congruent(g, r1, r);
}

// ---------------------------------------------------------------------
// Pointing pairs and box/line reduction
// ---------------------------------------------------------------------

/// `val` is a candidate at two or more positions of `p`.
pub open spec fn at_least_two(p: Seq<Seq<i32>>, val: i32) -> bool {
    exists|i: int, j: int| 0 <= i < p.len() && 0 <= j < p.len() && i != j && #[trigger] p[i].contains(val) && #[trigger] p[j].contains(val)
}

/// `val` is a candidate at two or more of the nine positions of `p`, all in
/// the same third `t` (positions `3t`, `3t + 1`, `3t + 2`).
pub open spec fn third_confined(p: Seq<Seq<i32>>, val: i32, t: int) -> bool {
    &&& at_least_two(p, val)
    &&& forall|k: int| 0 <= k < p.len() && #[trigger] p[k].contains(val) ==> k / 3 == t
}

/// `val` is a candidate at two or more of the nine positions of `p`, all
/// with the same position modulo 3, `c`.
pub open spec fn column_confined(p: Seq<Seq<i32>>, val: i32, c: int) -> bool {
    &&& at_least_two(p, val)
    &&& forall|k: int| 0 <= k < p.len() && #[trigger] p[k].contains(val) ==> k % 3 == c
}

/// What pointing pairs in block (`bx`, `by`), read row by row into `b`,
/// remove from board cell `n`: a value confined to one row of the block
/// goes from the rest of that row, one confined to one column of the block
/// from the rest of that column.
pub open spec fn pointing_rem(b: Seq<Seq<i32>>, bx: int, by: int, n: int) -> Set<i32> {
    let x = n % 9;
    let y = n / 9;
    Set::new(|val: i32| 1 <= val <= 9 && (
        (y / 3 == by && x / 3 != bx && third_confined(b, val, y - by * 3))
        || (x / 3 == bx && y / 3 != by && column_confined(b, val, x - bx * 3))))
}

/// Pointing pairs from block (`bx`, `by`), from one reading of the block.
pub open spec fn pointing_block(g: Seq<CellModel>, bx: int, by: int) -> Seq<CellModel> {
    let b = unit_poss(g, block_refs(bx, by));
    grid_minus(g, |n: int| pointing_rem(b, bx, by, n))
}

/// Pointing pairs from the first `t` blocks, `bx` outer, `by` inner.
pub open spec fn pointing_upto(g: Seq<CellModel>, t: nat) -> Seq<CellModel>
    decreases t,
{
    if t == 0 {
        g
    } else {
        pointing_block(pointing_upto(g, (t - 1) as nat), (t - 1) / 3, (t - 1) % 3)
    }
}

/// Pointing pairs from every block in turn.
pub open spec fn pointing_all(g: Seq<CellModel>) -> Seq<CellModel> {
    pointing_upto(g, 9)
}

/// What box/line reduction on row `r`, read into `p`, removes from board
/// cell `n`: a value confined to one block within the row goes from the
/// other rows of that block.
pub open spec fn box_line_row_rem(p: Seq<Seq<i32>>, r: int, n: int) -> Set<i32> {
    let x = n % 9;
    let y = n / 9;
    Set::new(|val: i32| 1 <= val <= 9 && y / 3 == r / 3 && y != r && third_confined(p, val, x / 3))
}

/// What box/line reduction on column `c`, read into `p`, removes from board
/// cell `n`: a value confined to one block within the column goes from the
/// other columns of that block.
pub open spec fn box_line_col_rem(p: Seq<Seq<i32>>, c: int, n: int) -> Set<i32> {
    let x = n % 9;
    let y = n / 9;
    Set::new(|val: i32| 1 <= val <= 9 && x / 3 == c / 3 && x != c && third_confined(p, val, y / 3))
}

/// Box/line reduction on line `t`: rows 0 to 8, then columns 0 to 8 as 9 to 17.
pub open spec fn box_line_step(g: Seq<CellModel>, t: int) -> Seq<CellModel> {
    if t < 9 {
        let p = unit_poss(g, row_refs(t));
        grid_minus(g, |n: int| box_line_row_rem(p, t, n))
    } else {
        let p = unit_poss(g, col_refs(t - 9));
        grid_minus(g, |n: int| box_line_col_rem(p, t - 9, n))
    }
}

/// Box/line reduction on the first `t` lines in turn.
pub open spec fn box_line_upto(g: Seq<CellModel>, t: nat) -> Seq<CellModel>
    decreases t,
{
    if t == 0 {
        g
    } else {
        box_line_step(box_line_upto(g, (t - 1) as nat), t - 1)
    }
}

/// Box/line reduction on every row, then every column.
pub open spec fn box_line_all(g: Seq<CellModel>) -> Seq<CellModel> {
    box_line_upto(g, 18)
}

// ---------------------------------------------------------------------
// Naked singles and hidden singles
// ---------------------------------------------------------------------

/// Naked single at board cell `n`: an open cell with a single candidate
/// takes it as its value.
pub open spec fn naked_single_step(g: Seq<CellModel>, n: int) -> Seq<CellModel> {
    if !(g[n].value > 0) && g[n].poss.len() == 1 {
        set_cell_model(g, n % 9, n / 9, g[n].poss[0])
    } else {
        g
    }
}

/// Naked singles on the first `n` board cells in reading order.
pub open spec fn naked_singles_upto(g: Seq<CellModel>, n: nat) -> Seq<CellModel>
    decreases n,
{
    if n == 0 {
        g
    } else {
        naked_single_step(naked_singles_upto(g, (n - 1) as nat), n - 1)
    }
}

/// Naked singles on every board cell in reading order.
pub open spec fn naked_singles(g: Seq<CellModel>) -> Seq<CellModel> {
    naked_singles_upto(g, 81)
}

/// `v` is a candidate at exactly one position of `p`.
pub open spec fn unique_in(p: Seq<Seq<i32>>, v: i32) -> bool {
    exists|k: int| 0 <= k < p.len() && #[trigger] p[k].contains(v)
        && (forall|k2: int| 0 <= k2 < p.len() && k2 != k ==> !#[trigger] p[k2].contains(v))
}

/// The candidates of `c` that are candidates at exactly one position of `p`.
pub open spec fn unique_candidates(c: CellModel, p: Seq<Seq<i32>>) -> Seq<i32> {
    c.poss.filter(|v: i32| unique_in(p, v))
}

/// Hidden single at position `k` of `unit`, with `p` the candidates read
/// from the unit beforehand: when exactly one of the cell's current
/// candidates is unique in `p`, the cell takes it.
pub open spec fn hidden_single_step(g: Seq<CellModel>, unit: Seq<CellRef>, p: Seq<Seq<i32>>, k: int) -> Seq<CellModel> {
    let r = unit[k];
    let ov = unique_candidates(g[ref_index(r)], p);
    if ov.len() == 1 {
        set_cell_model(g, r.x as int, r.y as int, ov[0])
    } else {
        g
    }
}

/// Hidden singles at the first `k` positions of `unit`.
pub open spec fn hidden_singles_unit_upto(g: Seq<CellModel>, unit: Seq<CellRef>, p: Seq<Seq<i32>>, k: nat) -> Seq<CellModel>
    decreases k,
{
    if k == 0 {
        g
    } else {
        hidden_single_step(hidden_singles_unit_upto(g, unit, p, (k - 1) as nat), unit, p, k - 1)
    }
}

/// Hidden singles in one unit, from one reading of its candidates.
pub open spec fn hidden_singles_unit(g: Seq<CellModel>, unit: Seq<CellRef>) -> Seq<CellModel> {
    hidden_singles_unit_upto(g, unit, unit_poss(g, unit), 9)
}

/// Unit `t` of shape `shape`: rows (0), columns (1), or blocks read column by
/// column (2), the blocks ordered `bx` outer.
pub open spec fn hidden_unit(shape: u8, t: int) -> Seq<CellRef> {
    if shape == 0 {
        row_refs(t)
    } else if shape == 1 {
        col_refs(t)
    } else {
        block_refs_by_column(t / 3, t % 3)
    }
}

/// Hidden singles in the first `t` units of shape `shape`, in turn.
pub open spec fn hidden_singles_upto(g: Seq<CellModel>, shape: u8, t: nat) -> Seq<CellModel>
    decreases t,
{
    if t == 0 {
        g
    } else {
        hidden_singles_unit(hidden_singles_upto(g, shape, (t - 1) as nat), hidden_unit(shape, t - 1))
    }
}

/// Hidden singles in every row, in turn.
pub open spec fn hidden_singles_rows(g: Seq<CellModel>) -> Seq<CellModel> {
    hidden_singles_upto(g, 0, 9)
}

/// Hidden singles in every column, in turn.
pub open spec fn hidden_singles_cols(g: Seq<CellModel>) -> Seq<CellModel> {
    hidden_singles_upto(g, 1, 9)
}

/// Hidden singles in every block, in turn.
pub open spec fn hidden_singles_blocks(g: Seq<CellModel>) -> Seq<CellModel> {
    hidden_singles_upto(g, 2, 9)
}

// ---------------------------------------------------------------------
// Rounds of the solver
// ---------------------------------------------------------------------

/// One round of the solver: the five elimination techniques, then the four
/// value-setting ones, each on the result of the one before.
pub open spec fn solve_round(g: Seq<CellModel>) -> Seq<CellModel> {
    let g1 = naked_pairs_all(g);
    let g2 = naked_triples_all(g1);
    let g3 = hidden_pairs_all(g2);
    let g4 = pointing_all(g3);
    let g5 = box_line_all(g4);
    let g6 = naked_singles(g5);
    let g7 = hidden_singles_rows(g6);
    let g8 = hidden_singles_cols(g7);
    hidden_singles_blocks(g8)
}

/// `n` rounds of the solver.
pub open spec fn solve_rounds(g: Seq<CellModel>, n: nat) -> Seq<CellModel>
    decreases n,
{
    if n == 0 {
        g
    } else {
        solve_round(solve_rounds(g, (n - 1) as nat))
    }
}

/// A board that one round leaves alone stays the same however many rounds
/// run; so solving a board that the solver has finished runs one round and
/// changes nothing.
pub proof fn lemma_rounds_fixpoint(g: Seq<CellModel>, n: nat)
    requires
        solve_round(g) == g,
    ensures
        solve_rounds(g, n) == g,
    decreases n,
{
    if n > 0 {
        lemma_rounds_fixpoint(g, (n - 1) as nat);
    }
}

} // verus!
