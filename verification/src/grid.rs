//! The 9x9 board: 81 cells, with values and candidates kept consistent.
use vstd::prelude::*;
use crate::cell::Cell;
use crate::model::{
    CellModel, cleared_cell, cell_index, in_grid, same_house, grid_wf, new_grid_model,
    houses_minus, set_cell_model, reset_open, recalc_model, clear_cell_model, peer_values,
    lemma_minus_minus, lemma_minus_facts, lemma_minus_noop, lemma_set_cell_wf, lemma_recalc_wf,
    digits, digit_value, place_digits, from_string_model, lemma_place_digits_wf,
    lemma_place_digits_prefix, lemma_digits_push,
};

verus! {

/// The sudoku board. Cell (`x`, `y`) (column, row) is kept at index `y * 9 + x`.
pub struct Grid {
    cells: Vec<Cell>,
}

impl View for Grid {
    type V = Seq<CellModel>;

    closed spec fn view(&self) -> Seq<CellModel> {
        self.cells@.map_values(|c: Cell| c@)
    }
}

/// `n` written as the index `y * 9 + x` with `y * 9` an `i32`.
pub open spec fn index_of(x: i32, y: i32) -> int {
    y * 9 + x
}

/// Whether `y * 9 + x` can be computed as an `i32` and names a cell of `g`.
pub open spec fn valid_index(g: Seq<CellModel>, x: i32, y: i32) -> bool {
    &&& i32::MIN <= y * 9 <= i32::MAX
    &&& 0 <= y * 9 + x < g.len()
    &&& y * 9 + x <= i32::MAX
}

/// The values of the set cells among the first `p` board cells that share
/// a house with cell `n`.
spec fn peer_values_upto(r: Seq<CellModel>, n: int, p: int) -> Set<i32> {
    Set::new(|v: i32| exists|m: int| 0 <= m < p && same_house(n, m) && (#[trigger] r[m]).value > 0 && r[m].value == v)
}

/// `r` after the set cells among the first `p` board cells have dropped
/// their values from their houses.
spec fn propagated_upto(r: Seq<CellModel>, p: int) -> Seq<CellModel> {
    Seq::new(r.len(), |n: int| if 0 <= n < 81 { r[n].minus(peer_values_upto(r, n, p)) } else { r[n] })
}

proof fn lemma_propagated_start(r: Seq<CellModel>)
    ensures
        propagated_upto(r, 0) == r,
{
    assert forall|n: int| 0 <= n < r.len() implies #[trigger] propagated_upto(r, 0)[n] == r[n] by {
        if n < 81 {
            lemma_minus_noop(r[n], peer_values_upto(r, n, 0));
        }
    }
    assert(propagated_upto(r, 0) =~= r);
}

proof fn lemma_propagated_step(r: Seq<CellModel>, p: int)
    requires
        0 <= p < 81,
        r.len() >= 81,
    ensures
        propagated_upto(r, p)[p].value == r[p].value,
        r[p].value > 0 ==> houses_minus(propagated_upto(r, p), p, r[p].value) == propagated_upto(r, p + 1),
        r[p].value <= 0 ==> propagated_upto(r, p) == propagated_upto(r, p + 1),
{
    let q = propagated_upto(r, p);
    let val = r[p].value;
    lemma_minus_facts(r[p], peer_values_upto(r, p, p));
    assert forall|n: int| 0 <= n < 81 implies peer_values_upto(r, n, p + 1) == (if val > 0 && same_house(n, p) {
        peer_values_upto(r, n, p) + set![val]
    } else {
        peer_values_upto(r, n, p)
    }) by {
        let a = peer_values_upto(r, n, p + 1);
        let b = if val > 0 && same_house(n, p) { peer_values_upto(r, n, p) + set![val] } else { peer_values_upto(r, n, p) };
        assert forall|v: i32| a.contains(v) <==> b.contains(v) by {
            if a.contains(v) {
                let m = choose|m: int| 0 <= m < p + 1 && same_house(n, m) && (#[trigger] r[m]).value > 0 && r[m].value == v;
                if m < p {
                    assert(peer_values_upto(r, n, p).contains(v));
                }
            }
            if peer_values_upto(r, n, p).contains(v) {
                let m = choose|m: int| 0 <= m < p && same_house(n, m) && (#[trigger] r[m]).value > 0 && r[m].value == v;
                assert(0 <= m < p + 1 && same_house(n, m) && r[m].value > 0 && r[m].value == v);
            }
            if val > 0 && same_house(n, p) && v == val {
                assert(0 <= p < p + 1 && same_house(n, p) && r[p].value > 0 && r[p].value == v);
            }
        }
        assert(a =~= b);
    }
    if val > 0 {
        assert forall|n: int| 0 <= n < r.len() implies #[trigger] houses_minus(q, p, val)[n] == propagated_upto(r, p + 1)[n] by {
            if n < 81 && same_house(n, p) {
                lemma_minus_minus(r[n], peer_values_upto(r, n, p), set![val]);
            }
        }
        assert(houses_minus(q, p, val) =~= propagated_upto(r, p + 1));
    } else {
        assert forall|n: int| 0 <= n < r.len() implies #[trigger] q[n] == propagated_upto(r, p + 1)[n] by {
            if n < 81 {
                assert(peer_values_upto(r, n, p + 1) == peer_values_upto(r, n, p));
            }
        }
        assert(q =~= propagated_upto(r, p + 1));
    }
}

impl Grid {
    /// The grid invariant (see `grid_wf`).
    pub open spec fn wf(&self) -> bool {
        grid_wf(self@)
    }

    proof fn lemma_view_update(&self, old_cells: Seq<Cell>, i: int, c: Cell)
        requires
            0 <= i < old_cells.len(),
            self.cells@ == old_cells.update(i, c),
        ensures
            self@ == old_cells.map_values(|c: Cell| c@).update(i, c@),
    {
        assert(self@ =~= old_cells.map_values(|c: Cell| c@).update(i, c@));
    }

    /// A board of 81 empty cells, each with every candidate.
    pub fn new() -> (g: Grid)
        ensures
            g@ == new_grid_model(),
            g.wf(),
    {
        let mut cells: Vec<Cell> = Vec::new();
        let mut i: usize = 0;
        while i < 81
            invariant
                i <= 81,
                cells@.len() == i,
                forall|n: int| 0 <= n < i ==> (#[trigger] cells@[n])@ == cleared_cell(),
            decreases 81 - i,
        {
            cells.push(Cell::new());
            i = i + 1;
        }
        let g = Grid { cells };
        assert(g@ =~= new_grid_model());
        proof {
            crate::model::lemma_cleared_cell_wf();
        }
        g
    }

    /// Parse a puzzle from a string of digits, read row by row.
    /// Use 0 for blank cells; every character that is not an ASCII digit
    /// (spaces, newlines, ...) is ignored, and so is every digit after the 81st.
    pub fn from_string(input: &str) -> (g: Grid)
        ensures
            g@ == from_string_model(input@),
            g.wf(),
            g@.len() == 81,
            crate::model::recalc_model(g@) == g@,
    {
        proof {
            crate::model::lemma_from_string_canonical(input@);
        }
        let mut grid = Grid::new();
        let mut i: usize = 0;
        let ghost g0 = grid@;
        proof {
            assert(input@.take(0) =~= Seq::<char>::empty());
            assert(digits(Seq::<char>::empty()) =~= Seq::<i32>::empty()) by {
                reveal(Seq::filter);
            }
        }
        for c in it: input.chars()
            invariant
                g0 == crate::model::new_grid_model(),
                grid.wf(),
                it.seq() == input@,
                i <= 81,
                i == (if digits(input@.take(it.index() as int)).len() < 81 {
                    digits(input@.take(it.index() as int)).len()
                } else {
                    81
                }),
                grid@ == place_digits(g0, digits(input@.take(it.index() as int)), i as nat),
        {
            let ghost j = it.index() as int;
            let ghost ds = digits(input@.take(j));
            proof {
                assert(input@.take(j + 1) =~= input@.take(j).push(c));
                lemma_digits_push(input@.take(j), c);
            }
            if c >= '0' && c <= '9' {
                let val = (c as u32 - '0' as u32) as i32;
                assert(val == digit_value(c));
                if i < 81 {
                    let ghost ds2 = ds.push(val);
                    proof {
                        lemma_place_digits_prefix(g0, ds, ds2, i as nat);
                        lemma_place_digits_wf(g0, ds2, (i + 1) as nat);
                    }
                    if val > 0 {
                        let x = (i % 9) as i32;
                        let y = (i / 9) as i32;
                        let _ = grid.set_cell(x, y, val);
                    }
                    i = i + 1;
                } else {
                    proof {
                        lemma_place_digits_prefix(g0, ds, ds.push(val), 81);
                    }
                }
            }
        }
        proof {
            assert(input@.take(input@.len() as int) =~= input@);
        }
        grid
    }

    /// Append a cell after the board cells. Cells past the first 81 are
    /// never reached through coordinates on the board.
    pub fn add_cell(&mut self, cell: Cell)
        ensures
            final(self)@ == old(self)@.push(cell@),
            old(self).wf() && cell@.wf() ==> final(self).wf(),
    {
        let ghost c = cell;
        self.cells.push(cell);
        assert(self@ =~= old(self)@.push(c@));
    }

    /// The cell at column `x`, row `y`, or an error off the board.
    pub fn get_cell(&self, x: i32, y: i32) -> (r: Result<&Cell, String>)
        ensures
            r is Ok <==> (in_grid(x as int, y as int) && cell_index(x as int, y as int) < self@.len()),
            r matches Ok(c) ==> c@ == self@[cell_index(x as int, y as int)],
            r matches Err(e) ==> e@ == (if !in_grid(x as int, y as int) {
                "Outside bounds of the grid."@
            } else {
                "No value found"@
            }),
    {
        if x < 0 || x > 8 || y < 0 || y > 8 {
            return Err("Outside bounds of the grid.".to_string());
        }
        let index = (y * 9 + x) as usize;
        if index < self.cells.len() {
            Ok(&self.cells[index])
        } else {
            Err("No value found".to_string())
        }
    }

    /// Drop `value` from the candidates of the cell at index `y * 9 + x`
    /// (left alone if it has a value). Returns whether a candidate was dropped.
    pub fn remove_possibility(&mut self, x: i32, y: i32, value: i32) -> (removed: bool)
        requires
            valid_index(old(self)@, x, y),
        ensures
            final(self)@ == old(self)@.update(index_of(x, y), old(self)@[index_of(x, y)].minus(set![value])),
            removed == (old(self)@[index_of(x, y)].value <= 0 && old(self)@[index_of(x, y)].poss.contains(value)),
            old(self).wf() ==> final(self).wf(),
    {
        let index = (y * 9 + x) as usize;
        let ghost old_cells = self.cells@;
        let removed = self.cells[index].remove_possibility(value);
        proof {
            self.lemma_view_update(old_cells, index as int, self.cells@[index as int]);
            let g = old(self)@;
            let n = index_of(x, y);
            crate::model::lemma_minus_facts(g[n], set![value]);
            if old(self).wf() {
                assert(g[n].wf());
                assert(crate::model::shrinks(g, self@));
                crate::model::lemma_shrinks_keeps_wf(g, self@);
            }
        }
        removed
    }

    /// Give the cell at column `x`, row `y` the value `cell_value_int` and drop
    /// that value from the candidates of every other cell in its row, column
    /// and block. Off the board it is an error and nothing changes.
    pub fn set_cell(&mut self, x: i32, y: i32, cell_value_int: i32) -> (r: Result<(), String>)
        requires
            old(self).wf(),
        ensures
            r is Ok <==> in_grid(x as int, y as int),
            r is Err ==> r->Err_0@ == "The cell references are outside of the standard 9x9 grid.  Dimensions must be within 0..9"@,
            final(self)@ == set_cell_model(old(self)@, x as int, y as int, cell_value_int),
            final(self).wf(),
    {
        if x < 0 || x > 8 || y < 0 || y > 8 {
            return Err("The cell references are outside of the standard 9x9 grid.  Dimensions must be within 0..9".to_string());
        }
        let index = (y * 9 + x) as usize;
        let ghost old_cells = self.cells@;
        let _ = self.cells[index].set_value(cell_value_int);
        proof {
            self.lemma_view_update(old_cells, index as int, self.cells@[index as int]);
        }
        self.remove_from_houses(x, y, cell_value_int);
        proof {
            lemma_set_cell_wf(old(self)@, x as int, y as int, cell_value_int);
        }
        Ok(())
    }

    /// Empty the cell at index `y * 9 + x` and rebuild every candidate
    /// from the values that remain.
    pub fn clear_cell(&mut self, x: i32, y: i32)
        requires
            old(self).wf(),
            valid_index(old(self)@, x, y),
        ensures
            final(self)@ == clear_cell_model(old(self)@, index_of(x, y)),
            final(self).wf(),
    {
        let index = (y * 9 + x) as usize;
        let ghost old_cells = self.cells@;
        self.cells[index].clear();
        proof {
            self.lemma_view_update(old_cells, index as int, self.cells@[index as int]);
        }
        self.recalculate_possibilities();
        proof {
            lemma_recalc_wf(old(self)@.update(index as int, cleared_cell()));
        }
    }

    /// Reset every open cell to all candidates, then drop the value of every
    /// set board cell from the candidates of its row, column and block.
    fn recalculate_possibilities(&mut self)
        requires
            old(self)@.len() >= 81,
        ensures
            final(self)@ == recalc_model(old(self)@),
    {
        let ghost g0 = self@;
        let mut i: usize = 0;
        while i < self.cells.len()
            invariant
                i <= self@.len(),
                self@.len() == g0.len(),
                forall|n: int| 0 <= n < g0.len() ==> #[trigger] self@[n] == if n < i && g0[n].value == 0 {
                    cleared_cell()
                } else {
                    g0[n]
                },
            decreases g0.len() - i,
        {
            let ghost before = self@;
            assert(before[i as int] == g0[i as int]);
            assert(self.cells@[i as int]@ == before[i as int]);
            if self.cells[i].get_value() == 0 {
                let ghost old_cells = self.cells@;
                self.cells[i].clear();
                proof {
                    self.lemma_view_update(old_cells, i as int, self.cells@[i as int]);
                }
            }
            assert forall|n: int| 0 <= n < g0.len() implies #[trigger] self@[n] == if n < i + 1 && g0[n].value == 0 {
                cleared_cell()
            } else {
                g0[n]
            } by {
                if n != i {
                    assert(self@[n] == before[n]);
                }
            }
            i = i + 1;
        }
        let ghost r = self@;
        assert(r =~= reset_open(g0));
        proof {
            lemma_propagated_start(r);
        }
        let mut y: i32 = 0;
        while y < 9
            invariant
                0 <= y <= 9,
                r.len() >= 81,
                self@ == propagated_upto(r, y * 9),
            decreases 9 - y,
        {
            let mut x: i32 = 0;
            while x < 9
                invariant
                    0 <= x <= 9,
                    0 <= y < 9,
                    r.len() >= 81,
                    self@ == propagated_upto(r, y * 9 + x),
                decreases 9 - x,
            {
                let index = (y * 9 + x) as usize;
                proof {
                    lemma_propagated_step(r, y * 9 + x);
                }
                let val = self.cells[index].get_value();
                if val > 0 {
                    self.remove_from_houses(x, y, val);
                }
                x = x + 1;
            }
            y = y + 1;
        }
        proof {
            assert forall|n: int| 0 <= n < 81 implies peer_values_upto(r, n, 81) == peer_values(r, n) by {
                assert(peer_values_upto(r, n, 81) =~= peer_values(r, n));
            }
            assert(self@ =~= recalc_model(g0));
        }
    }

    /// Drop `v` from every board cell in the row, the column and the block
    /// of cell (`x`, `y`), the cell itself included.
    fn remove_from_houses(&mut self, x: i32, y: i32, v: i32)
        requires
            in_grid(x as int, y as int),
            old(self)@.len() >= 81,
        ensures
            final(self)@ == houses_minus(old(self)@, cell_index(x as int, y as int), v),
    {
        let ghost g0 = self@;
        let ghost t = cell_index(x as int, y as int);
        let mut c: i32 = 0;
        while c < 9
            invariant
                0 <= c <= 9,
                in_grid(x as int, y as int),
                g0.len() >= 81,
                self@.len() == g0.len(),
                forall|n: int| 0 <= n < g0.len() ==> #[trigger] self@[n] == if n < 81 && ((n / 9 == y && n % 9 < c) || (n % 9 == x && n / 9 < c)) {
                    g0[n].minus(set![v])
                } else {
                    g0[n]
                },
            decreases 9 - c,
        {
            let ghost before = self@;
            self.remove_possibility(c, y, v);
            let ghost mid = self@;
            self.remove_possibility(x, c, v);
            proof {
                lemma_minus_minus(g0[y * 9 + c], set![v], set![v]);
                lemma_minus_minus(g0[c * 9 + x], set![v], set![v]);
                assert(set![v] + set![v] =~= set![v]);
                assert forall|n: int| 0 <= n < g0.len() implies #[trigger] self@[n] == if n < 81 && ((n / 9 == y && n % 9 < c + 1) || (n % 9 == x && n / 9 < c + 1)) {
                    g0[n].minus(set![v])
                } else {
                    g0[n]
                } by {
                    if n == c * 9 + x {
                        assert(n / 9 == c && n % 9 == x);
                    } else if n == y * 9 + c {
                        assert(n / 9 == y && n % 9 == c);
                    } else {
                        assert(self@[n] == before[n]);
                    }
                }
            }
            c = c + 1;
        }
        let col = x / 3 * 3;
        let row = y / 3 * 3;
        let mut i: i32 = 0;
        while i < 3
            invariant
                0 <= i <= 3,
                in_grid(x as int, y as int),
                col == x / 3 * 3,
                row == y / 3 * 3,
                t == cell_index(x as int, y as int),
                g0.len() >= 81,
                self@.len() == g0.len(),
                forall|n: int| 0 <= n < g0.len() ==> #[trigger] self@[n] == if n < 81 && (n / 9 == y || n % 9 == x
                    || (row <= n / 9 < row + 3 && col <= n % 9 < col + i)) {
                    g0[n].minus(set![v])
                } else {
                    g0[n]
                },
            decreases 3 - i,
        {
            let ghost before = self@;
            self.remove_possibility(col + i, row, v);
            self.remove_possibility(col + i, row + 1, v);
            self.remove_possibility(col + i, row + 2, v);
            proof {
                assert(set![v] + set![v] =~= set![v]);
                assert forall|n: int| 0 <= n < g0.len() implies #[trigger] self@[n] == if n < 81 && (n / 9 == y || n % 9 == x
                    || (row <= n / 9 < row + 3 && col <= n % 9 < col + i + 1)) {
                    g0[n].minus(set![v])
                } else {
                    g0[n]
                } by {
                    if n == row * 9 + col + i || n == (row + 1) * 9 + col + i || n == (row + 2) * 9 + col + i {
                        lemma_minus_minus(g0[n], set![v], set![v]);
                        assert(n % 9 == col + i);
                        assert(row <= n / 9 < row + 3);
                    } else {
                        assert(self@[n] == before[n]);
                        if n < 81 && row <= n / 9 < row + 3 && col <= n % 9 < col + i + 1 {
                            assert(n % 9 < col + i);
                        }
                    }
                }
            }
            i = i + 1;
        }
        proof {
            assert forall|n: int| 0 <= n < 81 implies (same_house(n, t) <==> (n / 9 == y || n % 9 == x
                || (row <= n / 9 < row + 3 && col <= n % 9 < col + 3))) by {
                assert(t / 9 == y && t % 9 == x);
                assert(t / 27 == y / 3);
                assert(n / 27 == (n / 9) / 3);
            }
            assert(self@ =~= houses_minus(g0, t, v));
        }
    }
}

impl Default for Grid {
    /// The same as `Grid::new()`.
    fn default() -> (g: Self)
        ensures
            g@ == new_grid_model(),
            g.wf(),
    {
        Self::new()
    }
}

} // verus!
