//! The logical solver: candidate eliminations and value settings applied
//! in rounds until a round changes nothing.
use vstd::prelude::*;
use crate::grid::Grid;
use crate::complete::{
    naked_pair_at, naked_triple_at, hidden_pair_at, lemma_naked_pair_clears_unit,
    lemma_naked_triple_clears_unit, lemma_hidden_pair_strips, hidden_single_at, lemma_hidden_single_sets,
    lemma_naked_singles_change,
};
use crate::model::{grid_wf, in_grid, cell_index};
use crate::rules::{
    ref_index, row_refs, col_refs, block_refs, block_refs_by_column, all_units, is_unit,
    unit_poss, grid_minus, flag_set, views, progress, lemma_progress_refl, lemma_progress_trans,
    lemma_remove_one, in_unit, unit_rem, lemma_unit_rem_at, lemma_unit_flags_match,
    lemma_all_units_are_units, decreasing, same_pair, naked_pair_rem, naked_pairs_all,
    small_values, lemma_unit_poss_small, union3, triple_hit, naked_triple_rem, naked_triples_all,
    only_in, hidden_pair_rem, hidden_pairs_all, unit_technique_rem, unit_technique,
    unit_technique_upto, lemma_grid_flags_match, at_least_two, third_confined, column_confined,
    pointing_rem, pointing_block, pointing_upto, pointing_all, box_line_row_rem, box_line_col_rem,
    box_line_step, box_line_upto, box_line_all, lemma_block_is_unit, lemma_row_is_unit,
    lemma_col_is_unit, naked_singles_upto, naked_singles, unique_in,
    unique_candidates, hidden_singles_unit_upto, hidden_singles_unit,
    hidden_unit, hidden_singles_upto, hidden_singles_rows, hidden_singles_cols,
    hidden_singles_blocks, solve_round, solve_rounds,
};
use crate::sound::{
    is_solution, admits, keeps_solutions, lemma_keeps_solutions_refl, lemma_keeps_solutions_trans,
    lemma_unit_technique_sound, lemma_pointing_sound, lemma_box_line_sound, lemma_set_cell_sound,
    lemma_unit_has_all, lemma_solution_cell_open, same_solutions, lemma_shrinks_same_solutions,
    lemma_narrows_same_solutions,
};
use crate::model::{
    shrinks, lemma_shrinks_trans, keeps_set_cells, lemma_keeps_set_cells_trans,
    lemma_shrinks_keeps_set_cells, lemma_set_cell_keeps_set_cells,
    lemma_set_cell_progress, lemma_set_cell_others, grid_measure, consistent,
    same_house, refines, narrows, sets_some_cell, lemma_sets_some_cell_trans, lemma_sets_some_cell_changes, lemma_narrows_refl, lemma_narrows_trans, lemma_set_cell_narrows,
};

verus! {

/// The solver; its methods act on a grid.
pub struct Solver {}

/// A cell named by its column `x` and row `y`.
#[derive(Default, Clone)]
pub struct CellRef {
    pub x: i32,
    pub y: i32,
}

/// A copy of a list of numbers.
fn copy_vec(v: &Vec<i32>) -> (r: Vec<i32>)
    ensures
        r@ == v@,
{
    let mut r: Vec<i32> = Vec::new();
    let mut i: usize = 0;
    while i < v.len()
        invariant
            i <= v@.len(),
            r@ == v@.take(i as int),
        decreases v@.len() - i,
    {
        r.push(v[i]);
        i = i + 1;
        assert(r@ =~= v@.take(i as int));
    }
    assert(v@.take(i as int) =~= v@);
    r
}

impl Solver {
    /// Row `row`, left to right.
    fn row_cells(row: i32) -> (r: Vec<CellRef>)
        ensures
            r@ == row_refs(row as int),
    {
        let mut cells: Vec<CellRef> = Vec::new();
        let mut col: i32 = 0;
        while col < 9
            invariant
                0 <= col <= 9,
                cells@ == row_refs(row as int).take(col as int),
            decreases 9 - col,
        {
            cells.push(CellRef { x: col, y: row });
            col = col + 1;
            assert(cells@ =~= row_refs(row as int).take(col as int));
        }
        assert(cells@ =~= row_refs(row as int));
        cells
    }

    /// Column `col`, top to bottom.
    fn col_cells(col: i32) -> (r: Vec<CellRef>)
        ensures
            r@ == col_refs(col as int),
    {
        let mut cells: Vec<CellRef> = Vec::new();
        let mut row: i32 = 0;
        while row < 9
            invariant
                0 <= row <= 9,
                cells@ == col_refs(col as int).take(row as int),
            decreases 9 - row,
        {
            cells.push(CellRef { x: col, y: row });
            row = row + 1;
            assert(cells@ =~= col_refs(col as int).take(row as int));
        }
        assert(cells@ =~= col_refs(col as int));
        cells
    }

    /// Block (`bx`, `by`) (each 0..3), row by row.
    fn block_cells(bx: i32, by: i32) -> (r: Vec<CellRef>)
        requires
            0 <= bx < 3,
            0 <= by < 3,
        ensures
            r@ == block_refs(bx as int, by as int),
    {
        let mut cells: Vec<CellRef> = Vec::new();
        let mut dy: i32 = 0;
        while dy < 3
            invariant
                0 <= bx < 3,
                0 <= by < 3,
                0 <= dy <= 3,
                cells@ == block_refs(bx as int, by as int).take(dy * 3),
            decreases 3 - dy,
        {
            let mut dx: i32 = 0;
            while dx < 3
                invariant
                    0 <= bx < 3,
                    0 <= by < 3,
                    0 <= dy < 3,
                    0 <= dx <= 3,
                    cells@ == block_refs(bx as int, by as int).take(dy * 3 + dx),
                decreases 3 - dx,
            {
                cells.push(CellRef { x: bx * 3 + dx, y: by * 3 + dy });
                dx = dx + 1;
                assert(cells@ =~= block_refs(bx as int, by as int).take(dy * 3 + dx));
            }
            dy = dy + 1;
        }
        assert(cells@ =~= block_refs(bx as int, by as int));
        cells
    }

    /// Block (`bx`, `by`) (each 0..3), column by column.
    fn block_cells_by_column(bx: i32, by: i32) -> (r: Vec<CellRef>)
        requires
            0 <= bx < 3,
            0 <= by < 3,
        ensures
            r@ == block_refs_by_column(bx as int, by as int),
    {
        let mut cells: Vec<CellRef> = Vec::new();
        let mut dx: i32 = 0;
        while dx < 3
            invariant
                0 <= bx < 3,
                0 <= by < 3,
                0 <= dx <= 3,
                cells@ == block_refs_by_column(bx as int, by as int).take(dx * 3),
            decreases 3 - dx,
        {
            let mut dy: i32 = 0;
            while dy < 3
                invariant
                    0 <= bx < 3,
                    0 <= by < 3,
                    0 <= dx < 3,
                    0 <= dy <= 3,
                    cells@ == block_refs_by_column(bx as int, by as int).take(dx * 3 + dy),
                decreases 3 - dy,
            {
                cells.push(CellRef { x: bx * 3 + dx, y: by * 3 + dy });
                dy = dy + 1;
                assert(cells@ =~= block_refs_by_column(bx as int, by as int).take(dx * 3 + dy));
            }
            dx = dx + 1;
        }
        assert(cells@ =~= block_refs_by_column(bx as int, by as int));
        cells
    }

    /// Every row, column and block (see `all_units`).
    fn all_units() -> (r: Vec<Vec<CellRef>>)
        ensures
            r@.len() == 27,
            views(r@) == all_units(),
    {
        let mut units: Vec<Vec<CellRef>> = Vec::new();
        let mut i: i32 = 0;
        while i < 9
            invariant
                0 <= i <= 9,
                units@.len() == i * 2,
                views(units@) == all_units().take(i * 2),
            decreases 9 - i,
        {
            let ghost before = units@;
            units.push(Self::row_cells(i));
            units.push(Self::col_cells(i));
            assert(all_units()[i * 2] == row_refs(i as int));
            assert(all_units()[i * 2 + 1] == col_refs(i as int));
            assert(units@ == before.push(units@[i * 2]).push(units@[i * 2 + 1]));
            i = i + 1;
            assert(views(units@) =~= all_units().take(i * 2));
        }
        let mut bx: i32 = 0;
        while bx < 3
            invariant
                0 <= bx <= 3,
                units@.len() == 18 + bx * 3,
                views(units@) == all_units().take(18 + bx * 3),
            decreases 3 - bx,
        {
            let mut by: i32 = 0;
            while by < 3
                invariant
                    0 <= bx < 3,
                    0 <= by <= 3,
                    units@.len() == 18 + bx * 3 + by,
                    views(units@) == all_units().take(18 + bx * 3 + by),
                decreases 3 - by,
            {
                units.push(Self::block_cells(bx, by));
                assert(all_units()[18 + bx * 3 + by] == block_refs(bx as int, by as int));
                by = by + 1;
                assert(views(units@) =~= all_units().take(18 + bx * 3 + by));
            }
            bx = bx + 1;
        }
        assert(views(units@) =~= all_units());
        units
    }

    /// The candidates of every cell of a unit, empty for a cell that has a value.
    fn read_unit_possibilities(grid: &Grid, cells: &Vec<CellRef>) -> (r: Vec<Vec<i32>>)
        requires
            grid.wf(),
            forall|k: int| 0 <= k < cells@.len() ==> in_grid((#[trigger] cells@[k]).x as int, cells@[k].y as int),
        ensures
            r@.len() == cells@.len(),
            views(r@) == unit_poss(grid@, cells@),
    {
        let mut out: Vec<Vec<i32>> = Vec::new();
        let mut k: usize = 0;
        while k < cells.len()
            invariant
                grid.wf(),
                forall|k: int| 0 <= k < cells@.len() ==> in_grid((#[trigger] cells@[k]).x as int, cells@[k].y as int),
                k <= cells@.len(),
                out@.len() == k,
                views(out@) == unit_poss(grid@, cells@).take(k as int),
            decreases cells@.len() - k,
        {
            let cr = &cells[k];
            let r = grid.get_cell(cr.x, cr.y);
            match r {
                Ok(cell) => {
                    if cell.get_value() > 0 {
                        out.push(Vec::new());
                    } else {
                        out.push(copy_vec(cell.possibilities()));
                    }
                },
                Err(_) => {
                    assert(false);
                },
            }
            assert(views(out@)[k as int] == unit_poss(grid@, cells@)[k as int]);
            k = k + 1;
            assert(views(out@) =~= unit_poss(grid@, cells@).take(k as int));
        }
        assert(unit_poss(grid@, cells@).take(k as int) =~= unit_poss(grid@, cells@));
        out
    }

    /// Ten flags, all false.
    fn no_flags() -> (r: Vec<bool>)
        ensures
            r@ == Seq::new(10, |v: int| false),
    {
        let mut r: Vec<bool> = Vec::new();
        let mut v: usize = 0;
        while v < 10
            invariant
                v <= 10,
                r@ == Seq::new(v as nat, |v: int| false),
            decreases 10 - v,
        {
            r.push(false);
            v = v + 1;
            assert(r@ =~= Seq::new(v as nat, |v: int| false));
        }
        r
    }

    /// A copy of a list of flags.
    fn copy_flags(f: &Vec<bool>) -> (r: Vec<bool>)
        ensures
            r@ == f@,
    {
        let mut r: Vec<bool> = Vec::new();
        let mut i: usize = 0;
        while i < f.len()
            invariant
                i <= f@.len(),
                r@ == f@.take(i as int),
            decreases f@.len() - i,
        {
            r.push(f[i]);
            i = i + 1;
            assert(r@ =~= f@.take(i as int));
        }
        assert(f@.take(i as int) =~= f@);
        r
    }

    /// Drop, at the cell named by each position `k` of the unit, each
    /// candidate `v` below 10 that `rem[k][v]` marks. Returns whether a
    /// candidate was dropped.
    fn apply_unit_removals(grid: &mut Grid, cells: &Vec<CellRef>, rem: &Vec<Vec<bool>>) -> (changed: bool)
        requires
            old(grid).wf(),
            is_unit(cells@),
            rem@.len() == 9,
            forall|k: int| 0 <= k < 9 ==> (#[trigger] rem@[k])@.len() == 10,
        ensures
            final(grid)@ == grid_minus(old(grid)@, unit_rem(cells@, |k: int| flag_set(views(rem@), k))),
            progress(old(grid)@, final(grid)@, changed),
            final(grid).wf(),
            shrinks(old(grid)@, final(grid)@),
    {
        let ghost r = |k: int| flag_set(views(rem@), k);
        let ghost ur = unit_rem(cells@, r);
        let mut table: Vec<Vec<bool>> = Vec::new();
        let mut n: usize = 0;
        while n < 81
            invariant
                n <= 81,
                is_unit(cells@),
                rem@.len() == 9,
                forall|k: int| 0 <= k < 9 ==> (#[trigger] rem@[k])@.len() == 10,
                r == (|k: int| flag_set(views(rem@), k)),
                ur == unit_rem(cells@, r),
                table@.len() == n,
                forall|m: int| 0 <= m < n ==> (#[trigger] table@[m])@.len() == 10,
                forall|m: int| 0 <= m < n ==> flag_set(views(table@), m) == ur(m),
            decreases 81 - n,
        {
            let mut found: usize = 9;
            let mut k: usize = 0;
            while k < 9
                invariant
                    k <= 9,
                    n < 81,
                    is_unit(cells@),
                    found <= 9,
                    found == 9 ==> forall|j: int| 0 <= j < k ==> ref_index(#[trigger] cells@[j]) != n,
                    found < 9 ==> ref_index(cells@[found as int]) == n,
                decreases 9 - k,
            {
                let cr = &cells[k];
                if cr.y * 9 + cr.x == n as i32 {
                    found = k;
                }
                k = k + 1;
            }
            let ghost before = table@;
            if found < 9 {
                table.push(Self::copy_flags(&rem[found]));
                proof {
                    lemma_unit_rem_at(cells@, r, found as int);
                    assert(flag_set(views(table@), n as int) =~= ur(n as int));
                }
            } else {
                table.push(Self::no_flags());
                proof {
                    if in_unit(cells@, n as int) {
                        let j = choose|j: int| 0 <= j < cells@.len() && ref_index(#[trigger] cells@[j]) == n;
                        assert(ref_index(cells@[j]) != n);
                    }
                    assert(flag_set(views(table@), n as int) =~= ur(n as int));
                }
            }
            assert forall|m: int| 0 <= m < n implies flag_set(views(table@), m) == ur(m) by {
                assert(table@[m] == before[m]);
                assert(views(table@)[m] == views(before)[m]);
                assert(flag_set(views(table@), m) =~= flag_set(views(before), m));
            }
            n = n + 1;
        }
        let changed = Self::apply_removals(grid, &table);
        proof {
            assert(grid_minus(old(grid)@, |n: int| flag_set(views(table@), n)) =~= grid_minus(old(grid)@, ur));
        }
        changed
    }

    /// Drop, at every board cell `n`, each candidate `v` below 10 that
    /// `table[n][v]` marks. Returns whether a candidate was dropped.
    fn apply_removals(grid: &mut Grid, table: &Vec<Vec<bool>>) -> (changed: bool)
        requires
            old(grid).wf(),
            table@.len() == 81,
            forall|n: int| 0 <= n < 81 ==> (#[trigger] table@[n])@.len() == 10,
        ensures
            final(grid)@ == grid_minus(old(grid)@, |n: int| flag_set(views(table@), n)),
            progress(old(grid)@, final(grid)@, changed),
            final(grid).wf(),
            shrinks(old(grid)@, final(grid)@),
    {
        let ghost g0 = grid@;
        let ghost t = views(table@);
        let mut changed = false;
        let mut n: usize = 0;
        proof {
            lemma_progress_refl(g0);
            lemma_keeps_solutions_refl(g0);
            crate::model::lemma_shrinks_refl(g0);
            lemma_narrows_refl(g0);
        }
        while n < 81
            invariant
                n <= 81,
                t == views(table@),
                table@.len() == 81,
                forall|n: int| 0 <= n < 81 ==> (#[trigger] table@[n])@.len() == 10,
                grid.wf(),
                grid@.len() == g0.len(),
                progress(g0, grid@, changed),
                forall|m: int| 0 <= m < g0.len() ==> #[trigger] grid@[m] == if m < n { g0[m].minus(flag_set(t, m)) } else { g0[m] },
            decreases 81 - n,
        {
            let mut v: i32 = 0;
            let ghost gn = grid@;
            proof {
                crate::model::lemma_minus_noop(g0[n as int], Set::new(|w: i32| 0 <= w < v && t[n as int][w as int]));
            }
            while v < 10
                invariant
                    n < 81,
                    0 <= v <= 10,
                    t == views(table@),
                    table@.len() == 81,
                    forall|n: int| 0 <= n < 81 ==> (#[trigger] table@[n])@.len() == 10,
                    grid.wf(),
                    grid@.len() == g0.len(),
                    progress(g0, grid@, changed),
                    forall|m: int| 0 <= m < g0.len() && m != n ==> #[trigger] grid@[m] == gn[m],
                    grid@[n as int] == g0[n as int].minus(Set::new(|w: i32| 0 <= w < v && t[n as int][w as int])),
                decreases 10 - v,
            {
                let ghost before = grid@;
                let x = (n % 9) as i32;
                let y = (n / 9) as i32;
                if table[n][v as usize] {
                    let removed = grid.remove_possibility(x, y, v);
                    proof {
                        lemma_remove_one(before, n as int, v);
                        lemma_progress_trans(g0, before, grid@, changed, removed);
                        crate::model::lemma_minus_minus(g0[n as int], Set::new(|w: i32| 0 <= w < v && t[n as int][w as int]), set![v]);
                        assert(Set::new(|w: i32| 0 <= w < v && t[n as int][w as int]) + set![v]
                            =~= Set::new(|w: i32| 0 <= w < v + 1 && t[n as int][w as int]));
                    }
                    changed = changed || removed;
                } else {
                    assert(Set::new(|w: i32| 0 <= w < v && t[n as int][w as int])
                        =~= Set::new(|w: i32| 0 <= w < v + 1 && t[n as int][w as int]));
                }
                v = v + 1;
            }
            assert(Set::new(|w: i32| 0 <= w < 10 && t[n as int][w as int]) =~= flag_set(t, n as int));
            n = n + 1;
        }
        assert(grid@ =~= grid_minus(g0, |n: int| flag_set(t, n)));
        proof {
            crate::rules::lemma_grid_minus_shrinks(g0, |n: int| flag_set(t, n));
        }
        changed
    }
}

impl Solver {
    /// For every position `k` and value `v` below 10, whether unit technique
    /// `technique` removes `v` at `k` (see `unit_technique_rem`).
    fn flags_for(p: &Vec<Vec<i32>>, technique: u8) -> (r: Vec<Vec<bool>>)
        requires
            p@.len() == 9,
            small_values(views(p@)),
            technique < 3,
        ensures
            r@.len() == 9,
            forall|k: int| 0 <= k < 9 ==> (#[trigger] r@[k])@.len() == 10,
            forall|k: int, v: i32| 0 <= k < 9 && 0 <= v < 10
                ==> (r@[k]@[v as int] <==> #[trigger] unit_technique_rem(views(p@), k, technique).contains(v)),
    {
        let mut r: Vec<Vec<bool>> = Vec::new();
        let mut k: usize = 0;
        while k < 9
            invariant
                k <= 9,
                p@.len() == 9,
                small_values(views(p@)),
                technique < 3,
                r@.len() == k,
                forall|k2: int| 0 <= k2 < k ==> (#[trigger] r@[k2])@.len() == 10,
                forall|k2: int, v: i32| 0 <= k2 < k && 0 <= v < 10
                    ==> (r@[k2]@[v as int] <==> #[trigger] unit_technique_rem(views(p@), k2, technique).contains(v)),
            decreases 9 - k,
        {
            let mut row: Vec<bool> = Vec::new();
            let mut v: i32 = 0;
            while v < 10
                invariant
                    k < 9,
                    0 <= v <= 10,
                    p@.len() == 9,
                    small_values(views(p@)),
                    technique < 3,
                    row@.len() == v,
                    forall|w: int| 0 <= w < v ==> (row@[w] <==> unit_technique_rem(views(p@), k as int, technique).contains(w as i32)),
                decreases 10 - v,
            {
                let b = if technique == 0 {
                    Self::pair_removes(p, k, v)
                } else if technique == 1 {
                    Self::triple_removes(p, k, v)
                } else {
                    Self::hidden_pair_removes(p, k, v)
                };
                row.push(b);
                v = v + 1;
            }
            let ghost before = r@;
            r.push(row);
            assert forall|k2: int, v: i32| 0 <= k2 < k + 1 && 0 <= v < 10
                implies (r@[k2]@[v as int] <==> #[trigger] unit_technique_rem(views(p@), k2, technique).contains(v)) by {
                if k2 < k {
                    assert(r@[k2] == before[k2]);
                }
            }
            k = k + 1;
        }
        r
    }

    /// Whether `v` is in `naked_pair_rem(p, k)`.
    fn pair_removes(p: &Vec<Vec<i32>>, k: usize, v: i32) -> (b: bool)
        requires
            p@.len() == 9,
        ensures
            b == naked_pair_rem(views(p@), k as int).contains(v),
    {
        let ghost q = views(p@);
        let mut i: usize = 0;
        while i < 9
            invariant
                i <= 9,
                p@.len() == 9,
                q == views(p@),
                forall|i2: int, j2: int| 0 <= i2 < i && 0 <= j2 < 9 && i2 != j2 && i2 != k && j2 != k
                    ==> !(#[trigger] same_pair(q[i2], q[j2]) && q[i2].contains(v)),
            decreases 9 - i,
        {
            let mut j: usize = 0;
            while j < 9
                invariant
                    i < 9,
                    j <= 9,
                    p@.len() == 9,
                    q == views(p@),
                    forall|i2: int, j2: int| 0 <= i2 < i && 0 <= j2 < 9 && i2 != j2 && i2 != k && j2 != k
                        ==> !(#[trigger] same_pair(q[i2], q[j2]) && q[i2].contains(v)),
                    forall|j2: int| 0 <= j2 < j && i != j2 && i != k && j2 != k
                        ==> !(#[trigger] same_pair(q[i as int], q[j2]) && q[i as int].contains(v)),
                decreases 9 - j,
            {
                let a = &p[i];
                let bb = &p[j];
                assert(a@ == q[i as int] && bb@ == q[j as int]);
                if i != j && i != k && j != k && a.len() == 2 && bb.len() == 2
                    && ((a[0] == bb[0] && a[1] == bb[1]) || (a[0] == bb[1] && a[1] == bb[0])) {
                    if a[0] == v || a[1] == v {
                        assert(q[i as int].contains(v)) by {
                            if a[0] == v {
                                assert(q[i as int][0] == v);
                            } else {
                                assert(q[i as int][1] == v);
                            }
                        }
                        assert(same_pair(q[i as int], q[j as int]));
                        return true;
                    } else {
                        assert(!q[i as int].contains(v)) by {
                            if q[i as int].contains(v) {
                                let t = choose|t: int| 0 <= t < 2 && q[i as int][t] == v;
                            }
                        }
                    }
                }
                j = j + 1;
            }
            i = i + 1;
        }
        false
    }

    /// Whether `x` is in `v`.
    fn vec_contains(v: &Vec<i32>, x: i32) -> (b: bool)
        ensures
            b == v@.contains(x),
    {
        let mut i: usize = 0;
        while i < v.len()
            invariant
                i <= v@.len(),
                forall|j: int| 0 <= j < i ==> v@[j] != x,
            decreases v@.len() - i,
        {
            if v[i] == x {
                assert(v@[i as int] == x);
                return true;
            }
            i = i + 1;
        }
        false
    }

    /// Append to `u` the values of `a` that it does not hold yet.
    fn add_new_values(u: &mut Vec<i32>, a: &Vec<i32>)
        requires
            old(u)@.no_duplicates(),
        ensures
            final(u)@.no_duplicates(),
            forall|w: i32| #[trigger] final(u)@.contains(w) <==> (old(u)@.contains(w) || a@.contains(w)),
    {
        let mut i: usize = 0;
        while i < a.len()
            invariant
                i <= a@.len(),
                u@.no_duplicates(),
                forall|w: i32| u@.contains(w) <==> (old(u)@.contains(w) || a@.take(i as int).contains(w)),
            decreases a@.len() - i,
        {
            let x = a[i];
            proof {
                assert(a@.take(i + 1) =~= a@.take(i as int).push(x));
                assert forall|w: i32| a@.take(i + 1).contains(w) <==> (a@.take(i as int).contains(w) || w == x) by {
                    vstd::seq_lib::lemma_seq_contains_after_push(a@.take(i as int), x, w);
                }
            }
            let ghost before = u@;
            if !Self::vec_contains(u, x) {
                u.push(x);
                proof {
                    assert forall|w: i32| u@.contains(w) <==> (before.contains(w) || w == x) by {
                        vstd::seq_lib::lemma_seq_contains_after_push(before, x, w);
                    }
                    assert forall|j: int, l: int| 0 <= j < u@.len() && 0 <= l < u@.len() && j != l implies u@[j] != u@[l] by {
                        if j < before.len() && l < before.len() {
                        } else if j < before.len() {
                            assert(before.contains(u@[j]));
                        } else {
                            assert(before.contains(u@[l]));
                        }
                    }
                }
            }
            assert forall|w: i32| u@.contains(w) <==> (old(u)@.contains(w) || a@.take(i + 1).contains(w)) by {
                assert(a@.take(i + 1) =~= a@.take(i as int).push(x));
                vstd::seq_lib::lemma_seq_contains_after_push(a@.take(i as int), x, w);
                assert(before.contains(w) <==> (old(u)@.contains(w) || a@.take(i as int).contains(w)));
            }
            i = i + 1;
        }
        assert(a@.take(i as int) =~= a@);
    }

    /// Whether `v` is in `naked_triple_rem(p, k)`.
    fn triple_removes(p: &Vec<Vec<i32>>, k: usize, v: i32) -> (b: bool)
        requires
            p@.len() == 9,
        ensures
            b == naked_triple_rem(views(p@), k as int).contains(v),
    {
        let ghost q = views(p@);
        let mut i: usize = 0;
        while i < 9
            invariant
                i <= 9,
                p@.len() == 9,
                q == views(p@),
                forall|i2: int, j2: int, l2: int| 0 <= i2 < i ==> !#[trigger] triple_hit(q, k as int, v, i2, j2, l2),
            decreases 9 - i,
        {
            let mut j: usize = 0;
            while j < 9
                invariant
                    i < 9,
                    j <= 9,
                    p@.len() == 9,
                    q == views(p@),
                    forall|i2: int, j2: int, l2: int| 0 <= i2 < i ==> !#[trigger] triple_hit(q, k as int, v, i2, j2, l2),
                    forall|j2: int, l2: int| 0 <= j2 < j ==> !#[trigger] triple_hit(q, k as int, v, i as int, j2, l2),
                decreases 9 - j,
            {
                let mut l: usize = 0;
                while l < 9
                    invariant
                        i < 9,
                        j < 9,
                        l <= 9,
                        p@.len() == 9,
                        q == views(p@),
                        forall|i2: int, j2: int, l2: int| 0 <= i2 < i ==> !#[trigger] triple_hit(q, k as int, v, i2, j2, l2),
                        forall|j2: int, l2: int| 0 <= j2 < j ==> !#[trigger] triple_hit(q, k as int, v, i as int, j2, l2),
                        forall|l2: int| 0 <= l2 < l ==> !#[trigger] triple_hit(q, k as int, v, i as int, j as int, l2),
                    decreases 9 - l,
                {
                    let a = &p[i];
                    let bb = &p[j];
                    let c = &p[l];
                    assert(a@ == q[i as int] && bb@ == q[j as int] && c@ == q[l as int]);
                    if i != j && i != l && j != l && i != k && j != k && l != k
                        && (a.len() == 2 || a.len() == 3) && (bb.len() == 2 || bb.len() == 3)
                        && (c.len() == 2 || c.len() == 3) {
                        let mut u: Vec<i32> = Vec::new();
                        Self::add_new_values(&mut u, a);
                        let ghost u1 = u@;
                        Self::add_new_values(&mut u, bb);
                        let ghost u2 = u@;
                        Self::add_new_values(&mut u, c);
                        let ghost s = union3(q[i as int], q[j as int], q[l as int]);
                        proof {
                            assert forall|w: i32| u@.contains(w) <==> s.contains(w) by {
                                assert(!Seq::<i32>::empty().contains(w));
                                assert(u1.contains(w) <==> a@.contains(w));
                                assert(u2.contains(w) <==> (u1.contains(w) || bb@.contains(w)));
                                assert(q[i as int].to_set().contains(w) <==> q[i as int].contains(w));
                                assert(q[j as int].to_set().contains(w) <==> q[j as int].contains(w));
                                assert(q[l as int].to_set().contains(w) <==> q[l as int].contains(w));
                            }
                            crate::rules::lemma_has_three(u@, s);
                        }
                        if u.len() == 3 && Self::vec_contains(&u, v) {
                            assert(triple_hit(q, k as int, v, i as int, j as int, l as int));
                            return true;
                        }
                    }
                    l = l + 1;
                }
                j = j + 1;
            }
            i = i + 1;
        }
        false
    }

    /// Whether `w` is a candidate at exactly two positions of `p`, and which.
    fn pair_positions(p: &Vec<Vec<i32>>, w: i32) -> (r: (bool, usize, usize))
        requires
            p@.len() == 9,
        ensures
            r.0 ==> only_in(views(p@), w, r.1 as int, r.2 as int),
            !r.0 ==> forall|a: int, b: int| !#[trigger] only_in(views(p@), w, a, b),
    {
        let ghost q = views(p@);
        let mut count: usize = 0;
        let mut a: usize = 0;
        let mut b: usize = 0;
        let mut k: usize = 0;
        while k < 9
            invariant
                k <= 9,
                p@.len() == 9,
                q == views(p@),
                count <= 3,
                count == 0 ==> forall|j: int| 0 <= j < k ==> !q[j].contains(w),
                count >= 1 ==> a < k && q[a as int].contains(w) && forall|j: int| 0 <= j < a ==> !q[j].contains(w),
                count == 1 ==> forall|j: int| 0 <= j < k && j != a ==> !q[j].contains(w),
                count >= 2 ==> a < b < k && q[b as int].contains(w) && forall|j: int| a < j < b ==> !q[j].contains(w),
                count == 2 ==> forall|j: int| 0 <= j < k && j != a && j != b ==> !q[j].contains(w),
                count == 3 ==> exists|j: int| 0 <= j < k && j != a && j != b && q[j].contains(w),
            decreases 9 - k,
        {
            assert(p@[k as int]@ == q[k as int]);
            if Self::vec_contains(&p[k], w) {
                if count == 0 {
                    a = k;
                    count = 1;
                } else if count == 1 {
                    b = k;
                    count = 2;
                } else if count == 2 {
                    count = 3;
                }
            }
            k = k + 1;
        }
        if count == 2 {
            (true, a, b)
        } else {
            assert forall|a2: int, b2: int| !#[trigger] only_in(q, w, a2, b2) by {
                if only_in(q, w, a2, b2) {
                    assert(q[a2].contains(w) && q[b2].contains(w));
                    if count == 3 {
                        let j = choose|j: int| 0 <= j < 9 && j != a && j != b && q[j].contains(w);
                        assert(q[a as int].contains(w) && q[b as int].contains(w));
                    }
                }
            }
            (false, 0, 0)
        }
    }

    /// Whether `v` is in `hidden_pair_rem(p, k)`.
    fn hidden_pair_removes(p: &Vec<Vec<i32>>, k: usize, v: i32) -> (b: bool)
        requires
            p@.len() == 9,
            k < 9,
            small_values(views(p@)),
        ensures
            b == hidden_pair_rem(views(p@), k as int).contains(v),
    {
        let ghost q = views(p@);
        assert(p@[k as int]@ == q[k as int]);
        if !Self::vec_contains(&p[k], v) {
            return false;
        }
        let mut v1: i32 = 0;
        while v1 < 10
            invariant
                0 <= v1 <= 10,
                p@.len() == 9,
                k < 9,
                q == views(p@),
                small_values(q),
                q[k as int].contains(v),
                forall|x: i32, y: i32, a: int, b: int| 0 <= x < v1 && x != y && (k == a || k == b) && v != x && v != y
                    ==> !(#[trigger] only_in(q, x, a, b) && #[trigger] only_in(q, y, a, b)),
            decreases 10 - v1,
        {
            let mut v2: i32 = 0;
            assert forall|y: i32, a: int, b: int| (y < 0 || y > 9) && v1 != y && (k == a || k == b) && v != v1 && v != y
                implies !(#[trigger] only_in(q, v1, a, b) && #[trigger] only_in(q, y, a, b)) by {
                if only_in(q, y, a, b) {
                    crate::rules::lemma_only_in_facts(q, y, a, b, a, b);
                }
            }
            while v2 < 10
                invariant
                    0 <= v1 < 10,
                    0 <= v2 <= 10,
                    p@.len() == 9,
                    k < 9,
                    q == views(p@),
                    small_values(q),
                    q[k as int].contains(v),
                    forall|x: i32, y: i32, a: int, b: int| 0 <= x < v1 && x != y && (k == a || k == b) && v != x && v != y
                        ==> !(#[trigger] only_in(q, x, a, b) && #[trigger] only_in(q, y, a, b)),
                    forall|y: i32, a: int, b: int| (0 <= y < v2 || y < 0 || y > 9) && v1 != y && (k == a || k == b) && v != v1 && v != y
                        ==> !(#[trigger] only_in(q, v1, a, b) && #[trigger] only_in(q, y, a, b)),
                decreases 10 - v2,
            {
                if v1 != v2 && v != v1 && v != v2 {
                    let (f1, a1, b1) = Self::pair_positions(p, v1);
                    let (f2, a2, b2) = Self::pair_positions(p, v2);
                    if f1 && f2 && a1 == a2 && b1 == b2 && (k == a1 || k == b1) {
                        assert(only_in(q, v1, a1 as int, b1 as int) && only_in(q, v2, a1 as int, b1 as int));
                        return true;
                    }
                    assert forall|a: int, b: int| (k == a || k == b)
                        implies !(#[trigger] only_in(q, v1, a, b) && #[trigger] only_in(q, v2, a, b)) by {
                        if only_in(q, v1, a, b) && only_in(q, v2, a, b) {
                            assert(f1 && f2);
                            crate::rules::lemma_only_in_facts(q, v1, a, b, a1 as int, b1 as int);
                            crate::rules::lemma_only_in_facts(q, v2, a, b, a2 as int, b2 as int);
                        }
                    }
                }
                v2 = v2 + 1;
            }
            v1 = v1 + 1;
        }
        assert forall|x: i32, y: i32, a: int, b: int| x != y && (k == a || k == b) && v != x && v != y
            implies !(#[trigger] only_in(q, x, a, b) && #[trigger] only_in(q, y, a, b)) by {
            if only_in(q, x, a, b) {
                crate::rules::lemma_only_in_facts(q, x, a, b, a, b);
            }
        }
        false
    }

    /// Unit technique `technique` in one unit (0 naked pairs, 1 naked triples,
    /// 2 hidden pairs), from one reading of the unit's candidates.
    fn reduce_in_unit(grid: &mut Grid, cells: &Vec<CellRef>, technique: u8) -> (changed: bool)
        requires
            old(grid).wf(),
            is_unit(cells@),
            technique < 3,
        ensures
            final(grid)@ == unit_technique(old(grid)@, cells@, technique),
            progress(old(grid)@, final(grid)@, changed),
            changed == (final(grid)@ != old(grid)@),
            final(grid).wf(),
            keeps_solutions(old(grid)@, final(grid)@),
            shrinks(old(grid)@, final(grid)@),
            refines(old(grid)@, final(grid)@),
            same_solutions(old(grid)@, final(grid)@),
            forall|n: int| 0 <= n < old(grid)@.len() && !in_unit(cells@, n) ==> #[trigger] final(grid)@[n] == old(grid)@[n],
    {
        let cell_poss = Self::read_unit_possibilities(grid, cells);
        proof {
            lemma_unit_poss_small(grid@, cells@);
        }
        let rem = Self::flags_for(&cell_poss, technique);
        let changed = Self::apply_unit_removals(grid, cells, &rem);
        proof {
            let p = unit_poss(old(grid)@, cells@);
            let r = |k: int| unit_technique_rem(p, k, technique);
            assert forall|k: int, v: i32| 0 <= k < 9 && 0 <= v < 10 implies (views(rem@)[k][v as int] <==> #[trigger] r(k).contains(v)) by {
                assert(unit_technique_rem(p, k, technique).contains(v) <==> rem@[k]@[v as int]);
            }
            lemma_unit_flags_match(old(grid)@, cells@, views(rem@), r);
            assert forall|s: Seq<i32>| is_solution(s) && admits(old(grid)@, s) implies #[trigger] admits(grid@, s) by {
                lemma_unit_technique_sound(old(grid)@, cells@, technique, s);
            }
            lemma_shrinks_same_solutions(old(grid)@, grid@);
            crate::rules::lemma_progress_changed(old(grid)@, grid@, changed);
            assert forall|n: int| 0 <= n < old(grid)@.len() && !in_unit(cells@, n) implies #[trigger] grid@[n] == old(grid)@[n] by {
                if n < 81 {
                    crate::model::lemma_minus_noop(old(grid)@[n], Set::<i32>::empty());
                }
            }
        }
        changed
    }

    /// Unit technique `technique` in every unit in turn.
    fn reduce_in_all_units(grid: &mut Grid, technique: u8) -> (changed: bool)
        requires
            old(grid).wf(),
            technique < 3,
        ensures
            final(grid)@ == unit_technique_upto(old(grid)@, 27, technique),
            progress(old(grid)@, final(grid)@, changed),
            final(grid).wf(),
            keeps_solutions(old(grid)@, final(grid)@),
            shrinks(old(grid)@, final(grid)@),
    {
        let ghost g0 = grid@;
        let units = Self::all_units();
        let mut any = false;
        let mut u: usize = 0;
        proof {
            lemma_all_units_are_units();
            lemma_progress_refl(g0);
            lemma_keeps_solutions_refl(g0);
            crate::model::lemma_shrinks_refl(g0);
            lemma_narrows_refl(g0);
        }
        while u < 27
            invariant
                u <= 27,
                technique < 3,
                units@.len() == 27,
                views(units@) == all_units(),
                forall|u: int| 0 <= u < 27 ==> is_unit(#[trigger] all_units()[u]),
                grid.wf(),
                grid@ == unit_technique_upto(g0, u as nat, technique),
                progress(g0, grid@, any),
                keeps_solutions(g0, grid@),
                shrinks(g0, grid@),
            decreases 27 - u,
        {
            let ghost before = grid@;
            assert(units@[u as int]@ == all_units()[u as int]);
            let c = if technique == 0 {
                Self::reduce_naked_pairs_in_unit(grid, &units[u])
            } else if technique == 1 {
                Self::reduce_naked_triples_in_unit(grid, &units[u])
            } else {
                Self::reduce_hidden_pairs_in_unit(grid, &units[u])
            };
            proof {
                lemma_progress_trans(g0, before, grid@, any, c);
                lemma_keeps_solutions_trans(g0, before, grid@);
                lemma_shrinks_trans(g0, before, grid@);
            }
            any = any || c;
            u = u + 1;
        }
        any
    }

    /// Naked pairs in one unit: when two cells of the unit have the same two
    /// candidates, those two values are dropped from the other cells.
    /// Returns whether a candidate was dropped.
    fn reduce_naked_pairs_in_unit(grid: &mut Grid, cells: &Vec<CellRef>) -> (changed: bool)
        requires
            old(grid).wf(),
            is_unit(cells@),
        ensures
            final(grid)@ == unit_technique(old(grid)@, cells@, 0),
            forall|i: int, j: int, a: i32, b: i32, k: int|
                #[trigger] naked_pair_at(old(grid)@, cells@, i, j, a, b) && 0 <= k < 9 && k != i && k != j
                ==> !(#[trigger] final(grid)@[ref_index(cells@[k])]).poss.contains(a)
                    && !final(grid)@[ref_index(cells@[k])].poss.contains(b),
            progress(old(grid)@, final(grid)@, changed),
            changed == (final(grid)@ != old(grid)@),
            final(grid).wf(),
            keeps_solutions(old(grid)@, final(grid)@),
            shrinks(old(grid)@, final(grid)@),
            refines(old(grid)@, final(grid)@),
            same_solutions(old(grid)@, final(grid)@),
            forall|n: int| 0 <= n < old(grid)@.len() && !in_unit(cells@, n) ==> #[trigger] final(grid)@[n] == old(grid)@[n],
    {
        let changed = Self::reduce_in_unit(grid, cells, 0);
        proof {
            assert forall|i: int, j: int, a: i32, b: i32, k: int|
                #[trigger] naked_pair_at(old(grid)@, cells@, i, j, a, b) && 0 <= k < 9 && k != i && k != j
                implies !(#[trigger] grid@[ref_index(cells@[k])]).poss.contains(a)
                    && !grid@[ref_index(cells@[k])].poss.contains(b) by {
                lemma_naked_pair_clears_unit(old(grid)@, cells@, i, j, a, b, k);
            }
        }
        changed
    }

    /// Naked triples in one unit: when three cells of the unit, each with two
    /// or three candidates, have three values between them, those values
    /// are dropped from the other cells. Returns whether a candidate was dropped.
    fn reduce_naked_triples_in_unit(grid: &mut Grid, cells: &Vec<CellRef>) -> (changed: bool)
        requires
            old(grid).wf(),
            is_unit(cells@),
        ensures
            final(grid)@ == unit_technique(old(grid)@, cells@, 1),
            forall|i: int, j: int, l: int, a: i32, b: i32, c: i32, k: int|
                #[trigger] naked_triple_at(old(grid)@, cells@, i, j, l, a, b, c) && 0 <= k < 9 && k != i && k != j && k != l
                ==> !(#[trigger] final(grid)@[ref_index(cells@[k])]).poss.contains(a)
                    && !final(grid)@[ref_index(cells@[k])].poss.contains(b)
                    && !final(grid)@[ref_index(cells@[k])].poss.contains(c),
            progress(old(grid)@, final(grid)@, changed),
            changed == (final(grid)@ != old(grid)@),
            final(grid).wf(),
            keeps_solutions(old(grid)@, final(grid)@),
            shrinks(old(grid)@, final(grid)@),
            refines(old(grid)@, final(grid)@),
            same_solutions(old(grid)@, final(grid)@),
            forall|n: int| 0 <= n < old(grid)@.len() && !in_unit(cells@, n) ==> #[trigger] final(grid)@[n] == old(grid)@[n],
    {
        let changed = Self::reduce_in_unit(grid, cells, 1);
        proof {
            assert forall|i: int, j: int, l: int, a: i32, b: i32, c: i32, k: int|
                #[trigger] naked_triple_at(old(grid)@, cells@, i, j, l, a, b, c) && 0 <= k < 9 && k != i && k != j && k != l
                implies !(#[trigger] grid@[ref_index(cells@[k])]).poss.contains(a)
                    && !grid@[ref_index(cells@[k])].poss.contains(b)
                    && !grid@[ref_index(cells@[k])].poss.contains(c) by {
                lemma_naked_triple_clears_unit(old(grid)@, cells@, i, j, l, a, b, c, k);
            }
        }
        changed
    }

    /// Hidden pairs in one unit: when two values are candidates in the same
    /// two cells of the unit and nowhere else in it, every other candidate
    /// of those two cells is dropped. Returns whether a candidate was dropped.
    fn reduce_hidden_pairs_in_unit(grid: &mut Grid, cells: &Vec<CellRef>) -> (changed: bool)
        requires
            old(grid).wf(),
            is_unit(cells@),
        ensures
            final(grid)@ == unit_technique(old(grid)@, cells@, 2),
            forall|a: int, b: int, v1: i32, v2: i32, w: i32|
                #[trigger] hidden_pair_at(old(grid)@, cells@, a, b, v1, v2) && w != v1 && w != v2
                ==> !#[trigger] final(grid)@[ref_index(cells@[a])].poss.contains(w),
            forall|a: int, b: int, v1: i32, v2: i32, w: i32|
                #[trigger] hidden_pair_at(old(grid)@, cells@, a, b, v1, v2) && w != v1 && w != v2
                ==> !#[trigger] final(grid)@[ref_index(cells@[b])].poss.contains(w),
            progress(old(grid)@, final(grid)@, changed),
            changed == (final(grid)@ != old(grid)@),
            final(grid).wf(),
            keeps_solutions(old(grid)@, final(grid)@),
            shrinks(old(grid)@, final(grid)@),
            refines(old(grid)@, final(grid)@),
            same_solutions(old(grid)@, final(grid)@),
            forall|n: int| 0 <= n < old(grid)@.len() && !in_unit(cells@, n) ==> #[trigger] final(grid)@[n] == old(grid)@[n],
    {
        let changed = Self::reduce_in_unit(grid, cells, 2);
        proof {
            assert forall|a: int, b: int, v1: i32, v2: i32, w: i32|
                #[trigger] hidden_pair_at(old(grid)@, cells@, a, b, v1, v2) && w != v1 && w != v2
                implies !#[trigger] grid@[ref_index(cells@[a])].poss.contains(w) by {
                lemma_hidden_pair_strips(old(grid)@, cells@, a, b, v1, v2, w);
            }
            assert forall|a: int, b: int, v1: i32, v2: i32, w: i32|
                #[trigger] hidden_pair_at(old(grid)@, cells@, a, b, v1, v2) && w != v1 && w != v2
                implies !#[trigger] grid@[ref_index(cells@[b])].poss.contains(w) by {
                lemma_hidden_pair_strips(old(grid)@, cells@, a, b, v1, v2, w);
            }
        }
        changed
    }

    /// Naked pairs in every unit in turn; `changed` is set when a candidate
    /// was dropped.
    pub fn reduce_naked_pairs_in_all_units(grid: &mut Grid, changed: &mut bool)
        requires
            old(grid).wf(),
        ensures
            final(grid)@ == naked_pairs_all(old(grid)@),
            final(grid).wf(),
            decreasing(old(grid)@, final(grid)@),
            keeps_set_cells(old(grid)@, final(grid)@),
            keeps_solutions(old(grid)@, final(grid)@),
            shrinks(old(grid)@, final(grid)@),
            refines(old(grid)@, final(grid)@),
            same_solutions(old(grid)@, final(grid)@),
            *final(changed) == (*old(changed) || final(grid)@ != old(grid)@),
    {
        let c = Self::reduce_in_all_units(grid, 0);
        proof {
            lemma_shrinks_keeps_set_cells(old(grid)@, grid@);
            lemma_shrinks_same_solutions(old(grid)@, grid@);
            crate::rules::lemma_progress_changed(old(grid)@, grid@, c);
        }
        *changed = *changed || c;
    }

    /// Naked triples in every unit in turn; `changed` is set when a
    /// candidate was dropped.
    pub fn reduce_naked_triples_in_all_units(grid: &mut Grid, changed: &mut bool)
        requires
            old(grid).wf(),
        ensures
            final(grid)@ == naked_triples_all(old(grid)@),
            final(grid).wf(),
            decreasing(old(grid)@, final(grid)@),
            keeps_set_cells(old(grid)@, final(grid)@),
            keeps_solutions(old(grid)@, final(grid)@),
            shrinks(old(grid)@, final(grid)@),
            refines(old(grid)@, final(grid)@),
            same_solutions(old(grid)@, final(grid)@),
            *final(changed) == (*old(changed) || final(grid)@ != old(grid)@),
    {
        let c = Self::reduce_in_all_units(grid, 1);
        proof {
            lemma_shrinks_keeps_set_cells(old(grid)@, grid@);
            lemma_shrinks_same_solutions(old(grid)@, grid@);
            crate::rules::lemma_progress_changed(old(grid)@, grid@, c);
        }
        *changed = *changed || c;
    }

    /// Hidden pairs in every unit in turn; `changed` is set when a candidate
    /// was dropped.
    pub fn reduce_hidden_pairs_in_all_units(grid: &mut Grid, changed: &mut bool)
        requires
            old(grid).wf(),
        ensures
            final(grid)@ == hidden_pairs_all(old(grid)@),
            final(grid).wf(),
            decreasing(old(grid)@, final(grid)@),
            keeps_set_cells(old(grid)@, final(grid)@),
            keeps_solutions(old(grid)@, final(grid)@),
            shrinks(old(grid)@, final(grid)@),
            refines(old(grid)@, final(grid)@),
            same_solutions(old(grid)@, final(grid)@),
            *final(changed) == (*old(changed) || final(grid)@ != old(grid)@),
    {
        let c = Self::reduce_in_all_units(grid, 2);
        proof {
            lemma_shrinks_keeps_set_cells(old(grid)@, grid@);
            lemma_shrinks_same_solutions(old(grid)@, grid@);
            crate::rules::lemma_progress_changed(old(grid)@, grid@, c);
        }
        *changed = *changed || c;
    }
}

/// The confinement predicate by thirds (`by_column` false) or by position
/// modulo 3 (`by_column` true).
pub open spec fn confined_as(p: Seq<Seq<i32>>, val: i32, t: int, by_column: bool) -> bool {
    if by_column { column_confined(p, val, t) } else { third_confined(p, val, t) }
}

impl Solver {
    /// The part (0..3) to which `val` is confined among the nine positions
    /// of `p` (see `confined_as`), or -1 when there is none.
    fn confinement(p: &Vec<Vec<i32>>, val: i32, by_column: bool) -> (t: i32)
        requires
            p@.len() == 9,
        ensures
            -1 <= t < 3,
            t >= 0 ==> confined_as(views(p@), val, t as int, by_column),
            forall|t2: int| t2 != t ==> !#[trigger] confined_as(views(p@), val, t2, by_column),
    {
        let ghost q = views(p@);
        let ghost part = |k: int| if by_column { k % 3 } else { k / 3 };
        let mut count: usize = 0;
        let mut first: usize = 0;
        let mut t0: i32 = -1;
        let mut same = true;
        let mut k: usize = 0;
        while k < 9
            invariant
                k <= 9,
                p@.len() == 9,
                q == views(p@),
                part == (|k: int| if by_column { k % 3 } else { k / 3 }),
                count <= k,
                count == 0 ==> forall|j: int| 0 <= j < k ==> !q[j].contains(val),
                count >= 1 ==> first < k && q[first as int].contains(val) && t0 == part(first as int),
                count == 1 ==> forall|j: int| 0 <= j < k && j != first ==> !q[j].contains(val),
                count >= 2 ==> exists|j: int| 0 <= j < k && j != first && #[trigger] q[j].contains(val),
                same ==> forall|j: int| 0 <= j < k && #[trigger] q[j].contains(val) ==> part(j) == t0,
                !same ==> count >= 1 && exists|j: int| 0 <= j < k && #[trigger] q[j].contains(val) && part(j) != t0,
            decreases 9 - k,
        {
            assert(p@[k as int]@ == q[k as int]);
            if Self::vec_contains(&p[k], val) {
                let tk: i32 = if by_column { (k % 3) as i32 } else { (k / 3) as i32 };
                if count == 0 {
                    first = k;
                    t0 = tk;
                } else if tk != t0 {
                    same = false;
                }
                count = count + 1;
            }
            k = k + 1;
        }
        if count >= 2 && same {
            proof {
                let j = choose|j: int| 0 <= j < 9 && j != first && #[trigger] q[j].contains(val);
                assert(q[first as int].contains(val));
                assert(at_least_two(q, val));
                assert forall|t2: int| t2 != t0 implies !#[trigger] confined_as(q, val, t2, by_column) by {
                    if confined_as(q, val, t2, by_column) {
                        assert(q[first as int].contains(val));
                    }
                }
            }
            t0
        } else {
            proof {
                assert forall|t2: int| t2 != -1 implies !#[trigger] confined_as(q, val, t2, by_column) by {
                    if confined_as(q, val, t2, by_column) {
                        let (i, j) = choose|i: int, j: int| 0 <= i < q.len() && 0 <= j < q.len() && i != j && #[trigger] q[i].contains(val) && #[trigger] q[j].contains(val);
                        if !same {
                            let j2 = choose|j2: int| 0 <= j2 < 9 && #[trigger] q[j2].contains(val) && part(j2) != t0;
                            assert(q[first as int].contains(val));
                        } else {
                            assert(count >= 1);
                        }
                    }
                }
            }
            -1
        }
    }

    /// For each value 0..10, its confinement part in `p` (see `confinement`).
    fn confinements(p: &Vec<Vec<i32>>, by_column: bool) -> (r: Vec<i32>)
        requires
            p@.len() == 9,
        ensures
            r@.len() == 10,
            forall|v: int| 0 <= v < 10 ==> -1 <= #[trigger] r@[v] < 3,
            forall|v: i32| 0 <= v < 10 && r@[v as int] >= 0 ==> confined_as(views(p@), v, r@[v as int] as int, by_column),
            forall|v: i32, t2: int| 0 <= v < 10 && t2 != r@[v as int] ==> !#[trigger] confined_as(views(p@), v, t2, by_column),
    {
        let mut r: Vec<i32> = Vec::new();
        let mut v: i32 = 0;
        while v < 10
            invariant
                0 <= v <= 10,
                p@.len() == 9,
                r@.len() == v,
                forall|w: int| 0 <= w < v ==> -1 <= #[trigger] r@[w] < 3,
                forall|w: i32| 0 <= w < v && r@[w as int] >= 0 ==> confined_as(views(p@), w, r@[w as int] as int, by_column),
                forall|w: i32, t2: int| 0 <= w < v && t2 != r@[w as int] ==> !#[trigger] confined_as(views(p@), w, t2, by_column),
            decreases 10 - v,
        {
            let t = Self::confinement(p, v, by_column);
            r.push(t);
            v = v + 1;
        }
        r
    }

    /// Pointing pairs: when the candidates of a block for a value lie in a
    /// single row (or column) of the block, at two cells or more, the value
    /// is dropped from the rest of that row (or column). Blocks are read one
    /// at a time; `changed` is set when a candidate was dropped.
    pub fn reduce_pointing_pairs(grid: &mut Grid, changed: &mut bool)
        requires
            old(grid).wf(),
        ensures
            final(grid)@ == pointing_all(old(grid)@),
            final(grid).wf(),
            decreasing(old(grid)@, final(grid)@),
            keeps_set_cells(old(grid)@, final(grid)@),
            keeps_solutions(old(grid)@, final(grid)@),
            shrinks(old(grid)@, final(grid)@),
            refines(old(grid)@, final(grid)@),
            same_solutions(old(grid)@, final(grid)@),
            *final(changed) == (*old(changed) || final(grid)@ != old(grid)@),
    {
        let ghost g0 = grid@;
        let mut any = false;
        proof {
            lemma_progress_refl(g0);
            lemma_keeps_solutions_refl(g0);
            crate::model::lemma_shrinks_refl(g0);
            lemma_narrows_refl(g0);
        }
        let mut bx: i32 = 0;
        while bx < 3
            invariant
                0 <= bx <= 3,
                grid.wf(),
                grid@ == pointing_upto(g0, (bx * 3) as nat),
                progress(g0, grid@, any),
                keeps_solutions(g0, grid@),
                shrinks(g0, grid@),
            decreases 3 - bx,
        {
            let mut by: i32 = 0;
            while by < 3
                invariant
                    0 <= bx < 3,
                    0 <= by <= 3,
                    grid.wf(),
                    grid@ == pointing_upto(g0, (bx * 3 + by) as nat),
                    progress(g0, grid@, any),
                    keeps_solutions(g0, grid@),
                    shrinks(g0, grid@),
                decreases 3 - by,
            {
                let ghost before = grid@;
                let block = Self::block_cells(bx, by);
                proof {
                    lemma_block_is_unit(bx as int, by as int);
                }
                let block_poss = Self::read_unit_possibilities(grid, &block);
                let rows = Self::confinements(&block_poss, false);
                let cols = Self::confinements(&block_poss, true);
                let ghost b = views(block_poss@);
                let mut table: Vec<Vec<bool>> = Vec::new();
                let mut n: i32 = 0;
                while n < 81
                    invariant
                        0 <= n <= 81,
                        0 <= bx < 3,
                        0 <= by < 3,
                        b == views(block_poss@),
                        block_poss@.len() == 9,
                        rows@.len() == 10,
                        cols@.len() == 10,
                        forall|v: int| 0 <= v < 10 ==> -1 <= #[trigger] rows@[v] < 3,
                        forall|v: int| 0 <= v < 10 ==> -1 <= #[trigger] cols@[v] < 3,
                        forall|v: i32| 0 <= v < 10 && rows@[v as int] >= 0 ==> confined_as(b, v, rows@[v as int] as int, false),
                        forall|v: i32, t2: int| 0 <= v < 10 && t2 != rows@[v as int] ==> !#[trigger] confined_as(b, v, t2, false),
                        forall|v: i32| 0 <= v < 10 && cols@[v as int] >= 0 ==> confined_as(b, v, cols@[v as int] as int, true),
                        forall|v: i32, t2: int| 0 <= v < 10 && t2 != cols@[v as int] ==> !#[trigger] confined_as(b, v, t2, true),
                        table@.len() == n,
                        forall|m: int| 0 <= m < n ==> (#[trigger] table@[m])@.len() == 10,
                        forall|m: int, v: i32| 0 <= m < n && 0 <= v < 10
                            ==> (table@[m]@[v as int] <==> #[trigger] pointing_rem(b, bx as int, by as int, m).contains(v)),
                    decreases 81 - n,
                {
                    let x = n % 9;
                    let y = n / 9;
                    let mut row: Vec<bool> = Vec::new();
                    let mut v: i32 = 0;
                    while v < 10
                        invariant
                            0 <= n < 81,
                            x == n % 9,
                            y == n / 9,
                            0 <= v <= 10,
                            0 <= bx < 3,
                            0 <= by < 3,
                            rows@.len() == 10,
                            cols@.len() == 10,
                            forall|v: int| 0 <= v < 10 ==> -1 <= #[trigger] rows@[v] < 3,
                            forall|v: int| 0 <= v < 10 ==> -1 <= #[trigger] cols@[v] < 3,
                            forall|v: i32| 0 <= v < 10 && rows@[v as int] >= 0 ==> confined_as(b, v, rows@[v as int] as int, false),
                            forall|v: i32, t2: int| 0 <= v < 10 && t2 != rows@[v as int] ==> !#[trigger] confined_as(b, v, t2, false),
                            forall|v: i32| 0 <= v < 10 && cols@[v as int] >= 0 ==> confined_as(b, v, cols@[v as int] as int, true),
                            forall|v: i32, t2: int| 0 <= v < 10 && t2 != cols@[v as int] ==> !#[trigger] confined_as(b, v, t2, true),
                            row@.len() == v,
                            forall|w: int| 0 <= w < v ==> (row@[w] <==> pointing_rem(b, bx as int, by as int, n as int).contains(w as i32)),
                        decreases 10 - v,
                    {
                        let vi = v as usize;
                        let f = 1 <= v && v <= 9 && (
                            (y / 3 == by && x / 3 != bx && rows[vi] == y - by * 3)
                            || (x / 3 == bx && y / 3 != by && cols[vi] == x - bx * 3));
                        proof {
                            let pr = pointing_rem(b, bx as int, by as int, n as int);
                            if y / 3 == by {
                                assert(third_confined(b, v, (y - by * 3) as int) <==> confined_as(b, v, (y - by * 3) as int, false));
                            }
                            if x / 3 == bx {
                                assert(column_confined(b, v, (x - bx * 3) as int) <==> confined_as(b, v, (x - bx * 3) as int, true));
                            }
                            assert(f <==> pr.contains(v));
                        }
                        row.push(f);
                        v = v + 1;
                    }
                    let ghost tb = table@;
                    table.push(row);
                    assert forall|m: int, v: i32| 0 <= m < n + 1 && 0 <= v < 10
                        implies (table@[m]@[v as int] <==> #[trigger] pointing_rem(b, bx as int, by as int, m).contains(v)) by {
                        if m < n {
                            assert(table@[m] == tb[m]);
                        }
                    }
                    n = n + 1;
                }
                let c = Self::apply_removals(grid, &table);
                proof {
                    lemma_grid_flags_match(before, views(table@), |m: int| pointing_rem(b, bx as int, by as int, m));
                    lemma_progress_trans(g0, before, grid@, any, c);
                    assert(grid@ == pointing_block(before, bx as int, by as int));
                    assert forall|s: Seq<i32>| is_solution(s) && admits(before, s) implies #[trigger] admits(grid@, s) by {
                        lemma_pointing_sound(before, bx as int, by as int, s);
                    }
                    lemma_keeps_solutions_trans(g0, before, grid@);
                    assert((bx * 3 + by + 1 - 1) / 3 == bx && (bx * 3 + by + 1 - 1) % 3 == by);
                }
                any = any || c;
                by = by + 1;
            }
            bx = bx + 1;
        }
        proof {
            crate::rules::lemma_progress_changed(g0, grid@, any);
            lemma_shrinks_keeps_set_cells(g0, grid@);
            lemma_shrinks_same_solutions(g0, grid@);
        }
        *changed = *changed || any;
    }

    /// Box/line reduction on line `t` (rows 0 to 8, then columns as 9 to 17).
    fn reduce_box_line_on(grid: &mut Grid, t: i32) -> (changed: bool)
        requires
            old(grid).wf(),
            0 <= t < 18,
        ensures
            final(grid)@ == box_line_step(old(grid)@, t as int),
            progress(old(grid)@, final(grid)@, changed),
            final(grid).wf(),
            keeps_solutions(old(grid)@, final(grid)@),
            shrinks(old(grid)@, final(grid)@),
    {
        let ghost before = grid@;
        let is_row = t < 9;
        let line = if is_row { t } else { t - 9 };
        let cells = if is_row { Self::row_cells(line) } else { Self::col_cells(line) };
        proof {
            if is_row {
                lemma_row_is_unit(line as int);
            } else {
                lemma_col_is_unit(line as int);
            }
        }
        let line_poss = Self::read_unit_possibilities(grid, &cells);
        let boxes = Self::confinements(&line_poss, false);
        let ghost p = views(line_poss@);
        let ghost rem = |m: int| if is_row { box_line_row_rem(p, line as int, m) } else { box_line_col_rem(p, line as int, m) };
        let mut table: Vec<Vec<bool>> = Vec::new();
        let mut n: i32 = 0;
        while n < 81
            invariant
                0 <= n <= 81,
                0 <= line < 9,
                is_row == (t < 9),
                p == views(line_poss@),
                rem == (|m: int| if is_row { box_line_row_rem(p, line as int, m) } else { box_line_col_rem(p, line as int, m) }),
                line_poss@.len() == 9,
                boxes@.len() == 10,
                forall|v: int| 0 <= v < 10 ==> -1 <= #[trigger] boxes@[v] < 3,
                forall|v: i32| 0 <= v < 10 && boxes@[v as int] >= 0 ==> confined_as(p, v, boxes@[v as int] as int, false),
                forall|v: i32, t2: int| 0 <= v < 10 && t2 != boxes@[v as int] ==> !#[trigger] confined_as(p, v, t2, false),
                table@.len() == n,
                forall|m: int| 0 <= m < n ==> (#[trigger] table@[m])@.len() == 10,
                forall|m: int, v: i32| 0 <= m < n && 0 <= v < 10 ==> (table@[m]@[v as int] <==> #[trigger] rem(m).contains(v)),
            decreases 81 - n,
        {
            let x = n % 9;
            let y = n / 9;
            let mut row: Vec<bool> = Vec::new();
            let mut v: i32 = 0;
            while v < 10
                invariant
                    0 <= n < 81,
                    x == n % 9,
                    y == n / 9,
                    0 <= v <= 10,
                    0 <= line < 9,
                    is_row == (t < 9),
                    rem == (|m: int| if is_row { box_line_row_rem(p, line as int, m) } else { box_line_col_rem(p, line as int, m) }),
                    boxes@.len() == 10,
                    forall|v: int| 0 <= v < 10 ==> -1 <= #[trigger] boxes@[v] < 3,
                    forall|v: i32| 0 <= v < 10 && boxes@[v as int] >= 0 ==> confined_as(p, v, boxes@[v as int] as int, false),
                    forall|v: i32, t2: int| 0 <= v < 10 && t2 != boxes@[v as int] ==> !#[trigger] confined_as(p, v, t2, false),
                    row@.len() == v,
                    forall|w: int| 0 <= w < v ==> (row@[w] <==> rem(n as int).contains(w as i32)),
                decreases 10 - v,
            {
                let vi = v as usize;
                let f = if is_row {
                    1 <= v && v <= 9 && y / 3 == line / 3 && y != line && boxes[vi] == x / 3
                } else {
                    1 <= v && v <= 9 && x / 3 == line / 3 && x != line && boxes[vi] == y / 3
                };
                proof {
                    assert(third_confined(p, v, (x / 3) as int) <==> confined_as(p, v, (x / 3) as int, false));
                    assert(third_confined(p, v, (y / 3) as int) <==> confined_as(p, v, (y / 3) as int, false));
                    assert(f <==> rem(n as int).contains(v));
                }
                row.push(f);
                v = v + 1;
            }
            let ghost tb = table@;
            table.push(row);
            assert forall|m: int, v: i32| 0 <= m < n + 1 && 0 <= v < 10
                implies (table@[m]@[v as int] <==> #[trigger] rem(m).contains(v)) by {
                if m < n {
                    assert(table@[m] == tb[m]);
                }
            }
            n = n + 1;
        }
        let c = Self::apply_removals(grid, &table);
        proof {
            lemma_grid_flags_match(before, views(table@), rem);
            if is_row {
                assert(grid_minus(before, rem) =~= box_line_step(before, t as int));
            } else {
                assert(grid_minus(before, rem) =~= box_line_step(before, t as int));
            }
            assert forall|s: Seq<i32>| is_solution(s) && admits(before, s) implies #[trigger] admits(grid@, s) by {
                lemma_box_line_sound(before, t as int, s);
            }
        }
        c
    }

    /// Box/line reduction: when the candidates of a row (or column) for a
    /// value lie within a single block, at two cells or more, the value is
    /// dropped from the other cells of that block. Rows are read one at a
    /// time, then columns; `changed` is set when a candidate was dropped.
    pub fn reduce_box_line(grid: &mut Grid, changed: &mut bool)
        requires
            old(grid).wf(),
        ensures
            final(grid)@ == box_line_all(old(grid)@),
            final(grid).wf(),
            decreasing(old(grid)@, final(grid)@),
            keeps_set_cells(old(grid)@, final(grid)@),
            keeps_solutions(old(grid)@, final(grid)@),
            shrinks(old(grid)@, final(grid)@),
            refines(old(grid)@, final(grid)@),
            same_solutions(old(grid)@, final(grid)@),
            *final(changed) == (*old(changed) || final(grid)@ != old(grid)@),
    {
        let ghost g0 = grid@;
        let mut any = false;
        proof {
            lemma_progress_refl(g0);
            lemma_keeps_solutions_refl(g0);
            crate::model::lemma_shrinks_refl(g0);
            lemma_narrows_refl(g0);
        }
        let mut t: i32 = 0;
        while t < 18
            invariant
                0 <= t <= 18,
                grid.wf(),
                grid@ == box_line_upto(g0, t as nat),
                progress(g0, grid@, any),
                keeps_solutions(g0, grid@),
                shrinks(g0, grid@),
            decreases 18 - t,
        {
            let ghost before = grid@;
            let c = Self::reduce_box_line_on(grid, t);
            proof {
                lemma_progress_trans(g0, before, grid@, any, c);
                lemma_keeps_solutions_trans(g0, before, grid@);
                lemma_shrinks_trans(g0, before, grid@);
            }
            any = any || c;
            t = t + 1;
        }
        proof {
            crate::rules::lemma_progress_changed(g0, grid@, any);
            lemma_shrinks_keeps_set_cells(g0, grid@);
            lemma_shrinks_same_solutions(g0, grid@);
        }
        *changed = *changed || any;
    }

    /// Naked singles: every empty cell with a single candidate, in reading
    /// order, takes that candidate as its value; `value_changed` is set when
    /// a cell was set.
    pub fn set_only_one_possibility_values(grid: &mut Grid, value_changed: &mut bool)
        requires
            old(grid).wf(),
        ensures
            final(grid)@ == naked_singles(old(grid)@),
            final(grid).wf(),
            forall|n: int| 0 <= n < 81 && (#[trigger] old(grid)@[n]).value == 0 && old(grid)@[n].poss.len() == 1
                ==> sets_some_cell(old(grid)@, final(grid)@),
            final(grid)@ != old(grid)@ <==> sets_some_cell(old(grid)@, final(grid)@),
            decreasing(old(grid)@, final(grid)@),
            keeps_set_cells(old(grid)@, final(grid)@),
            keeps_solutions(old(grid)@, final(grid)@),
            refines(old(grid)@, final(grid)@),
            same_solutions(old(grid)@, final(grid)@),
            *final(value_changed) == (*old(value_changed) || final(grid)@ != old(grid)@),
    {
        let ghost g0 = grid@;
        let mut any = false;
        proof {
            lemma_progress_refl(g0);
            lemma_keeps_solutions_refl(g0);
            crate::model::lemma_shrinks_refl(g0);
            lemma_narrows_refl(g0);
        }
        let mut y: i32 = 0;
        while y < 9
            invariant
                0 <= y <= 9,
                grid.wf(),
                grid@ == naked_singles_upto(g0, (y * 9) as nat),
                progress(g0, grid@, any),
                keeps_solutions(g0, grid@),
                keeps_set_cells(g0, grid@),
                narrows(g0, grid@),
                any ==> sets_some_cell(g0, grid@),
            decreases 9 - y,
        {
            let mut x: i32 = 0;
            while x < 9
                invariant
                    0 <= y < 9,
                    0 <= x <= 9,
                    grid.wf(),
                    grid@ == naked_singles_upto(g0, (y * 9 + x) as nat),
                    progress(g0, grid@, any),
                    keeps_solutions(g0, grid@),
                    keeps_set_cells(g0, grid@),
                    narrows(g0, grid@),
                    any ==> sets_some_cell(g0, grid@),
                decreases 9 - x,
            {
                let ghost before = grid@;
                let ghost n = y * 9 + x;
                let mut not_set = true;
                let possibilities = match grid.get_cell(x, y) {
                    Ok(cell) => {
                        if cell.get_value() > 0 {
                            not_set = false;
                        }
                        copy_vec(cell.possibilities())
                    },
                    Err(_) => {
                        assert(false);
                        Vec::new()
                    },
                };
                assert(n % 9 == x && n / 9 == y);
                if possibilities.len() == 1 && not_set {
                    let v = possibilities[0];
                    proof {
                        assert(before[n].wf());
                        assert(before[n].poss.contains(v));
                        assert(before[n].value == 0);
                        assert(v != 0);
                        lemma_set_cell_progress(before, x as int, y as int, v);
                    }
                    let _ = grid.set_cell(x, y, v);
                    proof {
                        lemma_progress_trans(g0, before, grid@, any, true);
                        assert forall|s: Seq<i32>| is_solution(s) && admits(before, s) implies #[trigger] admits(grid@, s) by {
                            assert(before[n].poss.contains(s[n]));
                            let i = choose|i: int| 0 <= i < 1 && before[n].poss[i] == s[n];
                            assert(s[cell_index(x as int, y as int)] == v);
                            lemma_set_cell_sound(before, x as int, y as int, s);
                        }
                        lemma_keeps_solutions_trans(g0, before, grid@);
                        lemma_set_cell_keeps_set_cells(before, x as int, y as int, v);
                        lemma_keeps_set_cells_trans(g0, before, grid@);
                        lemma_set_cell_narrows(before, x as int, y as int, v);
                        lemma_narrows_trans(g0, before, grid@);
                        assert(grid@[n].value == v);
                        assert(sets_some_cell(before, grid@));
                        lemma_sets_some_cell_trans(g0, before, grid@);
                    }
                    any = true;
                }
                x = x + 1;
            }
            y = y + 1;
        }
        proof {
            crate::rules::lemma_progress_changed(g0, grid@, any);
            lemma_narrows_same_solutions(g0, grid@);
            assert forall|n: int| 0 <= n < 81 && (#[trigger] g0[n]).value == 0 && g0[n].poss.len() == 1
                implies sets_some_cell(g0, grid@) by {
                lemma_naked_singles_change(g0, n);
            }
            if sets_some_cell(g0, grid@) {
                lemma_sets_some_cell_changes(g0, grid@);
            }
        }
        *value_changed = *value_changed || any;
    }

    /// Whether `v` is a candidate at exactly one position of `p`.
    fn is_unique(p: &Vec<Vec<i32>>, v: i32) -> (b: bool)
        ensures
            b == unique_in(views(p@), v),
    {
        let ghost q = views(p@);
        let mut count: usize = 0;
        let mut first: usize = 0;
        let mut k: usize = 0;
        while k < p.len()
            invariant
                k <= p@.len(),
                q == views(p@),
                count <= 2,
                count == 0 ==> forall|j: int| 0 <= j < k ==> !q[j].contains(v),
                count >= 1 ==> first < k && q[first as int].contains(v),
                count == 1 ==> forall|j: int| 0 <= j < k && j != first ==> !q[j].contains(v),
                count == 2 ==> exists|j: int| 0 <= j < k && j != first && #[trigger] q[j].contains(v),
            decreases p@.len() - k,
        {
            assert(p@[k as int]@ == q[k as int]);
            if Self::vec_contains(&p[k], v) {
                if count == 0 {
                    first = k;
                    count = 1;
                } else {
                    count = 2;
                }
            }
            k = k + 1;
        }
        if count == 1 {
            assert(forall|k2: int| 0 <= k2 < q.len() && k2 != first ==> !#[trigger] q[k2].contains(v));
            true
        } else {
            assert(!unique_in(q, v)) by {
                if unique_in(q, v) {
                    let u = choose|u: int| 0 <= u < q.len() && #[trigger] q[u].contains(v)
                        && (forall|k2: int| 0 <= k2 < q.len() && k2 != u ==> !#[trigger] q[k2].contains(v));
                    if count == 2 {
                        let j = choose|j: int| 0 <= j < q.len() && j != first && #[trigger] q[j].contains(v);
                        assert(q[first as int].contains(v));
                    }
                }
            }
            false
        }
    }

    /// Hidden singles in one unit: reading the unit's candidates once, every
    /// cell with exactly one current candidate that no other empty cell of
    /// the unit had takes it as its value. Returns whether a cell was set.
    fn set_hidden_singles_in_unit(grid: &mut Grid, cells: &Vec<CellRef>) -> (changed: bool)
        requires
            old(grid).wf(),
            is_unit(cells@),
        ensures
            final(grid)@ == hidden_singles_unit(old(grid)@, cells@),
            forall|k: int, v: i32| #[trigger] hidden_single_at(old(grid)@, cells@, k, v)
                ==> final(grid)@[ref_index(cells@[k])].value == v,
            progress(old(grid)@, final(grid)@, changed),
            changed ==> sets_some_cell(old(grid)@, final(grid)@),
            final(grid).wf(),
            keeps_solutions(old(grid)@, final(grid)@),
            keeps_set_cells(old(grid)@, final(grid)@),
            narrows(old(grid)@, final(grid)@),
    {
        let ghost g0 = grid@;
        let cell_poss = Self::read_unit_possibilities(grid, cells);
        let ghost pp = views(cell_poss@);
        let mut uniq: Vec<bool> = Vec::new();
        let mut v: i32 = 0;
        while v < 10
            invariant
                0 <= v <= 10,
                pp == views(cell_poss@),
                uniq@.len() == v,
                forall|w: int| 0 <= w < v ==> uniq@[w] == unique_in(pp, w as i32),
            decreases 10 - v,
        {
            uniq.push(Self::is_unique(&cell_poss, v));
            v = v + 1;
        }
        let mut any = false;
        proof {
            lemma_progress_refl(g0);
            lemma_keeps_solutions_refl(g0);
            crate::model::lemma_shrinks_refl(g0);
            lemma_narrows_refl(g0);
        }
        let mut k: usize = 0;
        while k < 9
            invariant
                k <= 9,
                is_unit(cells@),
                crate::model::grid_wf(g0),
                pp == unit_poss(g0, cells@),
                uniq@.len() == 10,
                forall|w: int| 0 <= w < 10 ==> uniq@[w] == unique_in(pp, w as i32),
                grid.wf(),
                grid@ == hidden_singles_unit_upto(g0, cells@, pp, k as nat),
                progress(g0, grid@, any),
                keeps_solutions(g0, grid@),
                keeps_set_cells(g0, grid@),
                narrows(g0, grid@),
                any ==> sets_some_cell(g0, grid@),
                forall|k2: int| k <= k2 < 9 ==> (#[trigger] grid@[ref_index(cells@[k2])]).value == g0[ref_index(cells@[k2])].value,
                forall|k2: int, w: i32| k <= k2 < 9 && #[trigger] grid@[ref_index(cells@[k2])].poss.contains(w)
                    ==> g0[ref_index(cells@[k2])].poss.contains(w),
            decreases 9 - k,
        {
            let ghost before = grid@;
            let ghost t = ref_index(cells@[k as int]);
            let cr = &cells[k];
            assert(in_grid(cr.x as int, cr.y as int));
            let live = match grid.get_cell(cr.x, cr.y) {
                Ok(cell) => copy_vec(cell.possibilities()),
                Err(_) => {
                    assert(false);
                    Vec::new()
                },
            };
            let ghost c = before[t];
            let ghost pred = |w: i32| unique_in(pp, w);
            assert(c.wf());
            let mut ov: Vec<i32> = Vec::new();
            let mut i: usize = 0;
            while i < live.len()
                invariant
                    i <= live@.len(),
                    live@ == c.poss,
                    c.wf(),
                    pred == (|w: i32| unique_in(pp, w)),
                    uniq@.len() == 10,
                    forall|w: int| 0 <= w < 10 ==> uniq@[w] == unique_in(pp, w as i32),
                    ov@ == live@.take(i as int).filter(pred),
                decreases live@.len() - i,
            {
                let w = live[i];
                proof {
                    assert(0 <= c.poss[i as int] <= 9);
                    assert(live@.take(i + 1) =~= live@.take(i as int).push(w));
                    live@.take(i as int).lemma_filter_push(w, pred);
                }
                if uniq[w as usize] {
                    ov.push(w);
                }
                i = i + 1;
            }
            proof {
                assert(live@.take(i as int) =~= live@);
                crate::seqs::lemma_filter_members(c.poss, pred);
                assert(ov@ == unique_candidates(c, pp));
            }
            if ov.len() == 1 {
                let val = ov[0];
                proof {
                    assert(ov@.contains(val));
                    assert(c.poss.contains(val) && unique_in(pp, val));
                    if c.value > 0 {
                        let m = ref_index(cells@[k as int]);
                        assert(g0[m].value == c.value);
                        assert(g0[m].wf());
                        assert(c.poss == seq![c.value]);
                        assert(val == c.value);
                        let k3 = choose|k3: int| 0 <= k3 < pp.len() && #[trigger] pp[k3].contains(val)
                            && (forall|k2: int| 0 <= k2 < pp.len() && k2 != k3 ==> !#[trigger] pp[k2].contains(val));
                        let n3 = ref_index(cells@[k3]);
                        assert(pp[k as int] == Seq::<i32>::empty());
                        assert(k3 != k);
                        assert(n3 != m && same_house(n3, m));
                        assert(g0[n3].wf());
                        assert(g0[n3].value == 0);
                        assert(consistent(g0));
                        assert(false);
                    }
                    assert(c.value == 0);
                    assert(0 <= val <= 9);
                    assert(val != 0);
                    lemma_set_cell_progress(before, cr.x as int, cr.y as int, val);
                }
                let _ = grid.set_cell(cr.x, cr.y, val);
                proof {
                    lemma_progress_trans(g0, before, grid@, any, true);
                    assert forall|s: Seq<i32>| is_solution(s) && admits(g0, s) implies #[trigger] admits(grid@, s) by {
                        assert(admits(before, s));
                        let m = ref_index(cells@[k as int]);
                        assert(g0[m].value == 0);
                        assert(g0[m].poss.contains(val));
                        assert(pp[k as int].contains(val));
                        let k3 = choose|k3: int| 0 <= k3 < pp.len() && #[trigger] pp[k3].contains(val)
                            && (forall|k2: int| 0 <= k2 < pp.len() && k2 != k3 ==> !#[trigger] pp[k2].contains(val));
                        assert(k3 == k);
                        lemma_unit_has_all(s, cells@, val);
                        let k1 = choose|k1: int| 0 <= k1 < 9 && s[ref_index(#[trigger] cells@[k1])] == val;
                        lemma_solution_cell_open(g0, cells@, s, val, k1, k as int);
                        assert(k1 == k);
                        assert(s[cell_index(cr.x as int, cr.y as int)] == val);
                        lemma_set_cell_sound(before, cr.x as int, cr.y as int, s);
                    }
                    lemma_set_cell_keeps_set_cells(before, cr.x as int, cr.y as int, val);
                    lemma_keeps_set_cells_trans(g0, before, grid@);
                    assert(before[t] == c);
                    lemma_set_cell_narrows(before, cr.x as int, cr.y as int, val);
                    lemma_narrows_trans(g0, before, grid@);
                    assert(cell_index(cr.x as int, cr.y as int) == t);
                    assert(grid@[t].value == val);
                    assert(sets_some_cell(before, grid@));
                    lemma_sets_some_cell_trans(g0, before, grid@);
                    assert forall|k2: int| k + 1 <= k2 < 9 implies (#[trigger] grid@[ref_index(cells@[k2])]).value == g0[ref_index(cells@[k2])].value
                        && (forall|w: i32| grid@[ref_index(cells@[k2])].poss.contains(w) ==> g0[ref_index(cells@[k2])].poss.contains(w)) by {
                        assert(ref_index(cells@[k2]) != t);
                        lemma_set_cell_others(before, cr.x as int, cr.y as int, val, ref_index(cells@[k2]));
                        assert(before[ref_index(cells@[k2])].value == g0[ref_index(cells@[k2])].value);
                    }
                }
                any = true;
            }
            k = k + 1;
        }
        proof {
            assert forall|k2: int, v: i32| #[trigger] hidden_single_at(g0, cells@, k2, v)
                implies grid@[ref_index(cells@[k2])].value == v by {
                lemma_hidden_single_sets(g0, cells@, k2, v);
            }
        }
        any
    }

    /// Hidden singles in every unit of shape `shape` in turn: rows (0),
    /// columns (1) or blocks (2).
    fn set_hidden_singles(grid: &mut Grid, shape: u8) -> (changed: bool)
        requires
            old(grid).wf(),
            shape < 3,
        ensures
            final(grid)@ == hidden_singles_upto(old(grid)@, shape, 9),
            progress(old(grid)@, final(grid)@, changed),
            changed ==> sets_some_cell(old(grid)@, final(grid)@),
            final(grid).wf(),
            keeps_solutions(old(grid)@, final(grid)@),
            keeps_set_cells(old(grid)@, final(grid)@),
            narrows(old(grid)@, final(grid)@),
    {
        let ghost g0 = grid@;
        let mut any = false;
        proof {
            lemma_progress_refl(g0);
            lemma_keeps_solutions_refl(g0);
            crate::model::lemma_shrinks_refl(g0);
            lemma_narrows_refl(g0);
        }
        let mut t: i32 = 0;
        while t < 9
            invariant
                0 <= t <= 9,
                shape < 3,
                grid.wf(),
                grid@ == hidden_singles_upto(g0, shape, t as nat),
                progress(g0, grid@, any),
                keeps_solutions(g0, grid@),
                keeps_set_cells(g0, grid@),
                narrows(g0, grid@),
                any ==> sets_some_cell(g0, grid@),
            decreases 9 - t,
        {
            let ghost before = grid@;
            let cells = if shape == 0 {
                Self::row_cells(t)
            } else if shape == 1 {
                Self::col_cells(t)
            } else {
                Self::block_cells_by_column(t / 3, t % 3)
            };
            proof {
                if shape == 0 {
                    lemma_row_is_unit(t as int);
                } else if shape == 1 {
                    lemma_col_is_unit(t as int);
                } else {
                    lemma_block_is_unit((t / 3) as int, (t % 3) as int);
                }
                assert(cells@ == hidden_unit(shape, t as int));
            }
            let c = Self::set_hidden_singles_in_unit(grid, &cells);
            proof {
                lemma_progress_trans(g0, before, grid@, any, c);
                lemma_keeps_solutions_trans(g0, before, grid@);
                lemma_keeps_set_cells_trans(g0, before, grid@);
                lemma_narrows_trans(g0, before, grid@);
                if any || c {
                    lemma_sets_some_cell_trans(g0, before, grid@);
                }
            }
            any = any || c;
            t = t + 1;
        }
        any
    }

    /// Hidden singles in rows: in each row in turn, a cell that is the only
    /// empty cell of the row able to hold some value takes it. `value_changed`
    /// is set when a cell was set.
    pub fn set_when_only_one_cell_in_row_supports_value(grid: &mut Grid, value_changed: &mut bool)
        requires
            old(grid).wf(),
        ensures
            final(grid)@ == hidden_singles_rows(old(grid)@),
            final(grid).wf(),
            final(grid)@ != old(grid)@ <==> sets_some_cell(old(grid)@, final(grid)@),
            decreasing(old(grid)@, final(grid)@),
            keeps_set_cells(old(grid)@, final(grid)@),
            keeps_solutions(old(grid)@, final(grid)@),
            refines(old(grid)@, final(grid)@),
            same_solutions(old(grid)@, final(grid)@),
            *final(value_changed) == (*old(value_changed) || final(grid)@ != old(grid)@),
    {
        let c = Self::set_hidden_singles(grid, 0);
        proof {
            crate::rules::lemma_progress_changed(old(grid)@, grid@, c);
            lemma_narrows_same_solutions(old(grid)@, grid@);
            if sets_some_cell(old(grid)@, grid@) {
                lemma_sets_some_cell_changes(old(grid)@, grid@);
            }
        }
        *value_changed = *value_changed || c;
    }

    /// Hidden singles in columns: in each column in turn, a cell that is the
    /// only empty cell of the column able to hold some value takes it.
    /// `value_changed` is set when a cell was set.
    pub fn set_when_only_one_cell_in_column_supports_value(grid: &mut Grid, value_changed: &mut bool)
        requires
            old(grid).wf(),
        ensures
            final(grid)@ == hidden_singles_cols(old(grid)@),
            final(grid).wf(),
            final(grid)@ != old(grid)@ <==> sets_some_cell(old(grid)@, final(grid)@),
            decreasing(old(grid)@, final(grid)@),
            keeps_set_cells(old(grid)@, final(grid)@),
            keeps_solutions(old(grid)@, final(grid)@),
            refines(old(grid)@, final(grid)@),
            same_solutions(old(grid)@, final(grid)@),
            *final(value_changed) == (*old(value_changed) || final(grid)@ != old(grid)@),
    {
        let c = Self::set_hidden_singles(grid, 1);
        proof {
            crate::rules::lemma_progress_changed(old(grid)@, grid@, c);
            lemma_narrows_same_solutions(old(grid)@, grid@);
            if sets_some_cell(old(grid)@, grid@) {
                lemma_sets_some_cell_changes(old(grid)@, grid@);
            }
        }
        *value_changed = *value_changed || c;
    }

    /// Hidden singles in blocks: in each block in turn, a cell that is the
    /// only empty cell of the block able to hold some value takes it.
    /// `value_changed` is set when a cell was set.
    pub fn set_when_only_one_cell_in_block_supports_value(grid: &mut Grid, value_changed: &mut bool)
        requires
            old(grid).wf(),
        ensures
            final(grid)@ == hidden_singles_blocks(old(grid)@),
            final(grid).wf(),
            final(grid)@ != old(grid)@ <==> sets_some_cell(old(grid)@, final(grid)@),
            decreasing(old(grid)@, final(grid)@),
            keeps_set_cells(old(grid)@, final(grid)@),
            keeps_solutions(old(grid)@, final(grid)@),
            refines(old(grid)@, final(grid)@),
            same_solutions(old(grid)@, final(grid)@),
            *final(value_changed) == (*old(value_changed) || final(grid)@ != old(grid)@),
    {
        let c = Self::set_hidden_singles(grid, 2);
        proof {
            crate::rules::lemma_progress_changed(old(grid)@, grid@, c);
            lemma_narrows_same_solutions(old(grid)@, grid@);
            if sets_some_cell(old(grid)@, grid@) {
                lemma_sets_some_cell_changes(old(grid)@, grid@);
            }
        }
        *value_changed = *value_changed || c;
    }

    /// One round of the solver: the five elimination techniques, then the
    /// four value-setting ones, each on the grid that the one before left.
    /// Returns whether the round changed the grid.
    pub fn run_round(grid: &mut Grid) -> (progress: bool)
        requires
            old(grid).wf(),
        ensures
            final(grid).wf(),
            final(grid)@ == solve_round(old(grid)@),
            progress == (final(grid)@ != old(grid)@),
            progress ==> grid_measure(final(grid)@) < grid_measure(old(grid)@),
            !progress ==> {
                &&& naked_pairs_all(final(grid)@) == final(grid)@
                &&& naked_triples_all(final(grid)@) == final(grid)@
                &&& hidden_pairs_all(final(grid)@) == final(grid)@
                &&& pointing_all(final(grid)@) == final(grid)@
                &&& box_line_all(final(grid)@) == final(grid)@
                &&& naked_singles(final(grid)@) == final(grid)@
                &&& hidden_singles_rows(final(grid)@) == final(grid)@
                &&& hidden_singles_cols(final(grid)@) == final(grid)@
                &&& hidden_singles_blocks(final(grid)@) == final(grid)@
            },
            keeps_solutions(old(grid)@, final(grid)@),
            keeps_set_cells(old(grid)@, final(grid)@),
            refines(old(grid)@, final(grid)@),
            same_solutions(old(grid)@, final(grid)@),
    {
        let ghost start = grid@;
        let mut progress = false;

        // Candidate elimination techniques
        Self::reduce_naked_pairs_in_all_units(grid, &mut progress);
        let ghost g1 = grid@;
        Self::reduce_naked_triples_in_all_units(grid, &mut progress);
        let ghost g2 = grid@;
        Self::reduce_hidden_pairs_in_all_units(grid, &mut progress);
        let ghost g3 = grid@;
        Self::reduce_pointing_pairs(grid, &mut progress);
        let ghost g4 = grid@;
        Self::reduce_box_line(grid, &mut progress);
        let ghost g5 = grid@;

        // Value-setting techniques
        Self::set_only_one_possibility_values(grid, &mut progress);
        let ghost g6 = grid@;
        Self::set_when_only_one_cell_in_row_supports_value(grid, &mut progress);
        let ghost g7 = grid@;
        Self::set_when_only_one_cell_in_column_supports_value(grid, &mut progress);
        let ghost g8 = grid@;
        Self::set_when_only_one_cell_in_block_supports_value(grid, &mut progress);

        proof {
            lemma_keeps_solutions_trans(start, g1, g2);
            lemma_keeps_solutions_trans(start, g2, g3);
            lemma_keeps_solutions_trans(start, g3, g4);
            lemma_keeps_solutions_trans(start, g4, g5);
            lemma_keeps_solutions_trans(start, g5, g6);
            lemma_keeps_solutions_trans(start, g6, g7);
            lemma_keeps_solutions_trans(start, g7, g8);
            lemma_keeps_solutions_trans(start, g8, grid@);
            lemma_keeps_set_cells_trans(start, g1, g2);
            lemma_keeps_set_cells_trans(start, g2, g3);
            lemma_keeps_set_cells_trans(start, g3, g4);
            lemma_keeps_set_cells_trans(start, g4, g5);
            lemma_keeps_set_cells_trans(start, g5, g6);
            lemma_keeps_set_cells_trans(start, g6, g7);
            lemma_keeps_set_cells_trans(start, g7, g8);
            lemma_keeps_set_cells_trans(start, g8, grid@);
            lemma_narrows_trans(start, g1, g2);
            lemma_narrows_trans(start, g2, g3);
            lemma_narrows_trans(start, g3, g4);
            lemma_narrows_trans(start, g4, g5);
            lemma_narrows_trans(start, g5, g6);
            lemma_narrows_trans(start, g6, g7);
            lemma_narrows_trans(start, g7, g8);
            lemma_narrows_trans(start, g8, grid@);
            assert(grid@ == solve_round(start));
            assert(progress <==> grid@ != start) by {
                if progress {
                    assert(grid_measure(grid@) < grid_measure(start));
                } else {
                    assert(g1 == start && g2 == g1 && g3 == g2 && g4 == g3 && g5 == g4);
                    assert(g6 == g5 && g7 == g6 && g8 == g7);
                }
            }
        }
        proof {
            lemma_narrows_same_solutions(start, grid@);
        }
        progress
    }

    /// Run rounds of every technique until a round changes nothing.
    /// Returns the number of rounds run, the last one included: at most 811,
    /// since every round that changes the board lowers its measure, which
    /// starts at no more than 810. The board that is left allows exactly the
    /// solutions that the board given allowed, and no technique changes it.
    pub fn solve(grid: &mut Grid) -> (iterations: usize)
        requires
            old(grid).wf(),
        ensures
            final(grid).wf(),
            1 <= iterations,
            final(grid)@ == solve_rounds(old(grid)@, iterations as nat),
            solve_round(final(grid)@) == final(grid)@,
            solve_rounds(old(grid)@, (iterations - 1) as nat) == final(grid)@,
            forall|i: nat| i + 1 < iterations ==> #[trigger] solve_rounds(old(grid)@, i + 1) != solve_rounds(old(grid)@, i),
            iterations <= 811,
            forall|n: int| 0 <= n < 81 && (#[trigger] final(grid)@[n]).value == 0 ==> final(grid)@[n].poss.len() != 1,
            naked_pairs_all(final(grid)@) == final(grid)@,
            naked_triples_all(final(grid)@) == final(grid)@,
            hidden_pairs_all(final(grid)@) == final(grid)@,
            pointing_all(final(grid)@) == final(grid)@,
            box_line_all(final(grid)@) == final(grid)@,
            naked_singles(final(grid)@) == final(grid)@,
            hidden_singles_rows(final(grid)@) == final(grid)@,
            hidden_singles_cols(final(grid)@) == final(grid)@,
            hidden_singles_blocks(final(grid)@) == final(grid)@,
            keeps_solutions(old(grid)@, final(grid)@),
            keeps_set_cells(old(grid)@, final(grid)@),
            refines(old(grid)@, final(grid)@),
            same_solutions(old(grid)@, final(grid)@),
    {
        let ghost g0 = grid@;
        let mut iterations: usize = 0;
        let mut progress = true;
        proof {
            crate::model::lemma_grid_measure_bound(g0, 81);
            lemma_keeps_solutions_refl(g0);
            crate::model::lemma_shrinks_refl(g0);
            lemma_narrows_refl(g0);
        }
        while progress
            invariant
                grid.wf(),
                grid@ == solve_rounds(g0, iterations as nat),
                keeps_solutions(g0, grid@),
                keeps_set_cells(g0, grid@),
                iterations + grid_measure(grid@) <= grid_measure(g0) + (if progress { 0int } else { 1int }),
                grid_measure(g0) <= 810,
                narrows(g0, grid@),
                !progress ==> {
                    &&& naked_pairs_all(grid@) == grid@
                    &&& naked_triples_all(grid@) == grid@
                    &&& hidden_pairs_all(grid@) == grid@
                    &&& pointing_all(grid@) == grid@
                    &&& box_line_all(grid@) == grid@
                    &&& naked_singles(grid@) == grid@
                    &&& hidden_singles_rows(grid@) == grid@
                    &&& hidden_singles_cols(grid@) == grid@
                    &&& hidden_singles_blocks(grid@) == grid@
                },
                progress ==> forall|i: nat| i + 1 <= iterations ==> #[trigger] solve_rounds(g0, i + 1) != solve_rounds(g0, i),
                !progress ==> iterations >= 1 && solve_rounds(g0, iterations as nat) == solve_rounds(g0, (iterations - 1) as nat),
                !progress ==> forall|i: nat| i + 1 < iterations ==> #[trigger] solve_rounds(g0, i + 1) != solve_rounds(g0, i),
            decreases grid_measure(grid@) + (if progress { 1int } else { 0int }),
        {
            let ghost start = grid@;
            progress = Self::run_round(grid);
            proof {
                lemma_keeps_solutions_trans(g0, start, grid@);
                lemma_keeps_set_cells_trans(g0, start, grid@);
                lemma_narrows_trans(g0, start, grid@);
                assert(solve_rounds(g0, (iterations + 1) as nat) == solve_round(solve_rounds(g0, iterations as nat)));
            }
            iterations = iterations + 1;
        }
        proof {
            assert(solve_round(grid@) == solve_rounds(g0, (iterations + 1) as nat));
            lemma_narrows_same_solutions(g0, grid@);
            assert forall|n: int| 0 <= n < 81 && (#[trigger] grid@[n]).value == 0 implies grid@[n].poss.len() != 1 by {
                if grid@[n].poss.len() == 1 {
                    lemma_naked_singles_change(grid@, n);
                }
            }
        }
        iterations
    }
}

} // verus!
