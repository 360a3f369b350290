//! The abstract state of a cell and of a grid, in which every contract of
//! the library is stated.
use vstd::prelude::*;
use crate::seqs::{
    lemma_filter_and, lemma_filter_ext, lemma_filter_keep_all, lemma_filter_members, lemma_filter_drops,
    increasing, thinned, lemma_filter_increasing, lemma_increasing_subset_thinned,
};

verus! {

/// What a cell holds: its value (0 when the cell is open) and the list of
/// values still possible for it.
pub ghost struct CellModel {
    pub value: i32,
    pub poss: Seq<i32>,
}

/// The candidates of a fresh cell: 1 to 9 in order.
pub open spec fn full_poss() -> Seq<i32> {
    seq![1i32, 2, 3, 4, 5, 6, 7, 8, 9]
}

/// An open cell with every candidate.
pub open spec fn cleared_cell() -> CellModel {
    CellModel { value: 0, poss: full_poss() }
}

/// A cleared cell is well formed and does not list 0.
pub proof fn lemma_cleared_cell_wf()
    ensures
        cleared_cell().wf(),
        !full_poss().contains(0),
{
    let f = full_poss();
    assert(forall|i: int| 0 <= i < 9 ==> #[trigger] f[i] == i + 1);
    assert(f.no_duplicates());
    if f.contains(0) {
        let j = choose|j: int| 0 <= j < 9 && f[j] == 0;
    }
}

impl CellModel {
    /// The shape every cell keeps: a value in 0..=9, candidates in 0..=9
    /// in increasing order (so without repetition), and a set cell's only
    /// candidate is its value.
    pub open spec fn wf(self) -> bool {
        &&& 0 <= self.value <= 9
        &&& increasing(self.poss)
        &&& self.poss.no_duplicates()
        &&& forall|i: int| 0 <= i < self.poss.len() ==> 0 <= #[trigger] self.poss[i] <= 9
        &&& self.value > 0 ==> self.poss == seq![self.value]
    }

    /// A well formed cell that does not list 0 as a candidate: what every
    /// cell is that was built fresh, then given values from 1 to 9 and
    /// stripped of candidates.
    pub open spec fn is_board_cell(self) -> bool {
        &&& self.wf()
        &&& !self.poss.contains(0)
    }

    /// The cell after dropping the candidates in `r`; a set cell is left alone.
    pub open spec fn minus(self, r: Set<i32>) -> CellModel {
        if self.value > 0 {
            self
        } else {
            CellModel { value: self.value, poss: self.poss.filter(|v: i32| !r.contains(v)) }
        }
    }

    /// The cell after `set_value(v)`: a value in 0..=9 is taken with itself as
    /// the only candidate; any other value leaves the cell unchanged.
    pub open spec fn with_value(self, v: i32) -> CellModel {
        if 0 <= v <= 9 {
            CellModel { value: v, poss: seq![v] }
        } else {
            self
        }
    }

    /// How much is still undecided in the cell: its candidates, and one more
    /// while it is open.
    pub open spec fn measure(self) -> nat {
        self.poss.len() + if self.value == 0 { 1nat } else { 0nat }
    }
}

/// The candidates of a board cell: its value alone once it is set, and
/// otherwise some of the values 1 to 9, in increasing order.
pub proof fn lemma_board_cell_candidates(c: CellModel)
    requires
        c.is_board_cell(),
    ensures
        increasing(c.poss),
        c.value > 0 ==> c.poss == seq![c.value],
        c.value == 0 ==> thinned(c.poss, full_poss()),
{
    let f = full_poss();
    lemma_cleared_cell_wf();
    assert(forall|i: int| 0 <= i < 9 ==> #[trigger] f[i] == i + 1);
    assert forall|v: i32| #[trigger] c.poss.contains(v) implies f.contains(v) by {
        let i = choose|i: int| 0 <= i < c.poss.len() && c.poss[i] == v;
        assert(0 <= c.poss[i] <= 9);
        assert(v != 0);
        assert(f[v - 1] == v);
    }
    lemma_increasing_subset_thinned(c.poss, f);
}

/// Dropping candidates twice is dropping their union once.
pub proof fn lemma_minus_minus(c: CellModel, r1: Set<i32>, r2: Set<i32>)
    ensures
        c.minus(r1).minus(r2) == c.minus(r1 + r2),
{
    if c.value <= 0 {
        let p = |v: i32| !r1.contains(v);
        let q = |v: i32| !r2.contains(v);
        lemma_filter_and(c.poss, p, q);
        lemma_filter_ext(c.poss, |x: i32| p(x) && q(x), |v: i32| !(r1 + r2).contains(v));
    }
}

/// Only the candidates that the cell has matter to `minus`.
pub proof fn lemma_minus_congruent(c: CellModel, r1: Set<i32>, r2: Set<i32>)
    requires
        forall|i: int| 0 <= i < c.poss.len() ==> (r1.contains(c.poss[i]) <==> r2.contains(c.poss[i])),
    ensures
        c.minus(r1) == c.minus(r2),
{
    if c.value <= 0 {
        lemma_filter_ext(c.poss, |v: i32| !r1.contains(v), |v: i32| !r2.contains(v));
    }
}

/// Dropping candidates that the cell does not have changes nothing.
pub proof fn lemma_minus_noop(c: CellModel, r: Set<i32>)
    requires
        forall|i: int| 0 <= i < c.poss.len() ==> !r.contains(c.poss[i]),
    ensures
        c.minus(r) == c,
{
    if c.value <= 0 {
        lemma_filter_keep_all(c.poss, |v: i32| !r.contains(v));
    }
}

/// What `minus` keeps, and that it keeps a cell well formed and never
/// raises its measure; it lowers the measure exactly when a candidate goes.
pub proof fn lemma_minus_facts(c: CellModel, r: Set<i32>)
    ensures
        c.minus(r).value == c.value,
        forall|v: i32| #[trigger] c.minus(r).poss.contains(v) <==> (c.poss.contains(v) && (c.value > 0 || !r.contains(v))),
        c.wf() ==> c.minus(r).wf(),
        c.minus(r).measure() <= c.measure(),
        (c.value <= 0 && exists|i: int| 0 <= i < c.poss.len() && r.contains(#[trigger] c.poss[i]))
            ==> c.minus(r).measure() < c.measure(),
        !(c.value <= 0 && exists|i: int| 0 <= i < c.poss.len() && r.contains(#[trigger] c.poss[i]))
            ==> c.minus(r) == c,
{
    let p = |v: i32| !r.contains(v);
    lemma_filter_members(c.poss, p);
    if c.wf() {
        lemma_filter_increasing(c.poss, p);
    }
    if c.value <= 0 {
        if exists|i: int| 0 <= i < c.poss.len() && r.contains(#[trigger] c.poss[i]) {
            let i = choose|i: int| 0 <= i < c.poss.len() && r.contains(#[trigger] c.poss[i]);
            lemma_filter_drops(c.poss, p, i);
        } else {
            lemma_minus_noop(c, r);
        }
        if c.wf() {
            let f = c.minus(r).poss;
            assert forall|i: int| 0 <= i < f.len() implies 0 <= #[trigger] f[i] <= 9 by {
                assert(f.contains(f[i]));
                let j = choose|j: int| 0 <= j < c.poss.len() && c.poss[j] == f[i];
            }
        }
    }
}

/// The index of the cell in column `x` and row `y`.
pub open spec fn cell_index(x: int, y: int) -> int {
    y * 9 + x
}

/// Whether (`x`, `y`) lies on the 9x9 board.
pub open spec fn in_grid(x: int, y: int) -> bool {
    0 <= x < 9 && 0 <= y < 9
}

/// Whether the cells with indices `n` and `m` (both below 81) share a row,
/// a column or a 3x3 block.
pub open spec fn same_house(n: int, m: int) -> bool {
    ||| n / 9 == m / 9
    ||| n % 9 == m % 9
    ||| (n / 27 == m / 27 && (n % 9) / 3 == (m % 9) / 3)
}

/// No open cell lists as a candidate the value of a set cell that shares a
/// house with it.
pub open spec fn consistent(g: Seq<CellModel>) -> bool {
    forall|n: int, m: int|
        0 <= n < 81 && 0 <= m < 81 && n != m && same_house(n, m) && (#[trigger] g[m]).value > 0
            && (#[trigger] g[n]).value == 0 ==> !g[n].poss.contains(g[m].value)
}

/// The invariant of a grid: at least the 81 board cells, every cell well
/// formed, no board cell open with 0 as a candidate, and the board consistent.
pub open spec fn grid_wf(g: Seq<CellModel>) -> bool {
    &&& g.len() >= 81
    &&& forall|n: int| 0 <= n < g.len() ==> (#[trigger] g[n]).wf()
    &&& forall|n: int| 0 <= n < 81 && (#[trigger] g[n]).value == 0 ==> !g[n].poss.contains(0)
    &&& consistent(g)
}

/// A fresh board: 81 open cells with every candidate.
pub open spec fn new_grid_model() -> Seq<CellModel> {
    Seq::new(81, |n: int| cleared_cell())
}

/// `g` with `v` dropped from every board cell that shares a house with cell `t`
/// (including `t` itself).
pub open spec fn houses_minus(g: Seq<CellModel>, t: int, v: i32) -> Seq<CellModel> {
    Seq::new(g.len(), |n: int| if 0 <= n < 81 && same_house(n, t) { g[n].minus(set![v]) } else { g[n] })
}

/// The grid after `set_cell(x, y, v)`: off the board nothing changes; on it
/// the cell takes the value (as `set_value` does) and `v` is dropped from
/// the candidates of every cell in its row, column and block.
pub open spec fn set_cell_model(g: Seq<CellModel>, x: int, y: int, v: i32) -> Seq<CellModel> {
    if !in_grid(x, y) {
        g
    } else {
        let t = cell_index(x, y);
        houses_minus(g.update(t, g[t].with_value(v)), t, v)
    }
}

/// The values of the set board cells that share a house with cell `n`.
pub open spec fn peer_values(g: Seq<CellModel>, n: int) -> Set<i32> {
    Set::new(|v: i32| exists|m: int| 0 <= m < 81 && same_house(n, m) && (#[trigger] g[m]).value > 0 && g[m].value == v)
}

/// Every open cell back to all candidates.
pub open spec fn reset_open(g: Seq<CellModel>) -> Seq<CellModel> {
    Seq::new(g.len(), |n: int| if g[n].value == 0 { cleared_cell() } else { g[n] })
}

/// The candidates rebuilt from the values alone: every open cell starts
/// again from all candidates and loses the values of the set cells of its
/// houses.
pub open spec fn recalc_model(g: Seq<CellModel>) -> Seq<CellModel> {
    let r = reset_open(g);
    Seq::new(g.len(), |n: int| if 0 <= n < 81 { r[n].minus(peer_values(r, n)) } else { r[n] })
}

/// The grid after `clear_cell(x, y)`.
pub open spec fn clear_cell_model(g: Seq<CellModel>, n: int) -> Seq<CellModel> {
    recalc_model(g.update(n, cleared_cell()))
}

/// `g2` is `g` with some candidates of open cells dropped, and well formed cells.
pub open spec fn shrinks(g: Seq<CellModel>, g2: Seq<CellModel>) -> bool {
    &&& g2.len() == g.len()
    &&& forall|n: int| 0 <= n < g.len() ==> (#[trigger] g2[n]).value == g[n].value
    &&& forall|n: int, v: i32| 0 <= n < g.len() && #[trigger] g2[n].poss.contains(v) ==> g[n].poss.contains(v)
    &&& forall|n: int| 0 <= n < g.len() ==> #[trigger] g2[n].wf()
}

/// The sum of the cell measures over the first `n` board cells.
pub open spec fn measure_upto(g: Seq<CellModel>, n: nat) -> nat
    decreases n,
{
    if n == 0 {
        0
    } else {
        measure_upto(g, (n - 1) as nat) + g[n - 1].measure()
    }
}

/// How much of the board is still undecided: the total of its cell measures.
pub open spec fn grid_measure(g: Seq<CellModel>) -> nat {
    measure_upto(g, 81)
}

/// Dropping candidates keeps a grid well formed.
pub proof fn lemma_shrinks_keeps_wf(g: Seq<CellModel>, g2: Seq<CellModel>)
    requires
        grid_wf(g),
        shrinks(g, g2),
    ensures
        grid_wf(g2),
{
    assert forall|n: int| 0 <= n < 81 && (#[trigger] g2[n]).value == 0 implies !g2[n].poss.contains(0) by {
        if g2[n].poss.contains(0) {
            assert(g[n].poss.contains(0));
        }
    }
    assert forall|n: int, m: int|
        0 <= n < 81 && 0 <= m < 81 && n != m && same_house(n, m) && (#[trigger] g2[m]).value > 0
            && (#[trigger] g2[n]).value == 0 implies !g2[n].poss.contains(g2[m].value) by {
        assert(g[m].value == g2[m].value && g[n].value == g2[n].value);
        if g2[n].poss.contains(g2[m].value) {
            assert(g[n].poss.contains(g[m].value));
        }
    }
}

/// A well formed grid trivially `shrinks` to itself.
pub proof fn lemma_shrinks_refl(g: Seq<CellModel>)
    requires
        forall|n: int| 0 <= n < g.len() ==> (#[trigger] g[n]).wf(),
    ensures
        shrinks(g, g),
{
}

/// `shrinks` composes.
pub proof fn lemma_shrinks_trans(g1: Seq<CellModel>, g2: Seq<CellModel>, g3: Seq<CellModel>)
    requires
        shrinks(g1, g2),
        shrinks(g2, g3),
    ensures
        shrinks(g1, g3),
{
    assert forall|n: int, v: i32| 0 <= n < g1.len() && #[trigger] g3[n].poss.contains(v) implies g1[n].poss.contains(v) by {
        assert(g2[n].poss.contains(v));
    }
}

/// A cell-wise bound on measures bounds the grid measure; one strict cell
/// makes the bound strict.
pub proof fn lemma_measure_mono(g1: Seq<CellModel>, g2: Seq<CellModel>, n: nat)
    requires
        n <= 81,
        g1.len() >= 81,
        g2.len() >= 81,
        forall|i: int| 0 <= i < 81 ==> (#[trigger] g2[i]).measure() <= g1[i].measure(),
    ensures
        measure_upto(g2, n) <= measure_upto(g1, n),
        (exists|i: int| 0 <= i < n && (#[trigger] g2[i]).measure() < g1[i].measure()) ==> measure_upto(g2, n) < measure_upto(g1, n),
    decreases n,
{
    if n > 0 {
        lemma_measure_mono(g1, g2, (n - 1) as nat);
        assert(g2[n - 1].measure() <= g1[n - 1].measure());
        if exists|i: int| 0 <= i < n && (#[trigger] g2[i]).measure() < g1[i].measure() {
            let i = choose|i: int| 0 <= i < n && (#[trigger] g2[i]).measure() < g1[i].measure();
            if i < n - 1 {
                assert(exists|i: int| 0 <= i < n - 1 && (#[trigger] g2[i]).measure() < g1[i].measure());
            }
        }
    }
}

/// `set_cell` keeps a grid well formed, whatever the value.
pub proof fn lemma_set_cell_wf(g: Seq<CellModel>, x: int, y: int, v: i32)
    requires
        grid_wf(g),
        in_grid(x, y),
    ensures
        grid_wf(set_cell_model(g, x, y, v)),
        set_cell_model(g, x, y, v).len() == g.len(),
{
    let t = cell_index(x, y);
    let g1 = g.update(t, g[t].with_value(v));
    let g2 = houses_minus(g1, t, v);
    assert(g1[t].wf()) by {
        if 0 <= v <= 9 {
            assert(seq![v].no_duplicates());
        }
    }
    assert forall|n: int| 0 <= n < g2.len() implies (#[trigger] g2[n]).wf() && g2[n].value == g1[n].value
        && (forall|w: i32| g2[n].poss.contains(w) <==> (g1[n].poss.contains(w) && (g1[n].value > 0 || !(0 <= n < 81 && same_house(n, t) && w == v)))) by {
        lemma_minus_facts(g1[n], set![v]);
        assert(g1[n].wf());
    }
    assert forall|n: int| 0 <= n < 81 && (#[trigger] g2[n]).value == 0 implies !g2[n].poss.contains(0) by {
        if n == t {
            if 0 <= v <= 9 {
                assert(g1[t].poss == seq![v]);
                if g2[n].poss.contains(0) {
                    assert(g1[n].poss.contains(0));
                    assert(v == 0);
                }
            } else {
                if g2[n].poss.contains(0) {
                    assert(g[n].poss.contains(0));
                }
            }
        } else {
            if g2[n].poss.contains(0) {
                assert(g[n].poss.contains(0));
            }
        }
    }
    assert forall|n: int, m: int|
        0 <= n < 81 && 0 <= m < 81 && n != m && same_house(n, m) && (#[trigger] g2[m]).value > 0
            && (#[trigger] g2[n]).value == 0 implies !g2[n].poss.contains(g2[m].value) by {
        if m == t {
            assert(0 <= v <= 9 ==> g2[m].value == v);
            if 0 <= v <= 9 {
                assert(same_house(n, t));
            } else {
                assert(g[m].value == g2[m].value);
                if g2[n].poss.contains(g2[m].value) {
                    assert(g[n].poss.contains(g[m].value));
                }
            }
        } else if n == t {
            if 0 <= v <= 9 {
                assert(v == 0);
                assert(g1[t].poss == seq![0i32]);
                assert(same_house(t, t));
                if g2[n].poss.contains(g2[m].value) {
                    assert(g1[n].poss.contains(g2[m].value));
                    assert(g2[m].value == 0);
                }
            } else {
                if g2[n].poss.contains(g2[m].value) {
                    assert(g[n].poss.contains(g[m].value));
                }
            }
        } else {
            if g2[n].poss.contains(g2[m].value) {
                assert(g[n].poss.contains(g[m].value));
            }
        }
    }
}

/// Rebuilding the candidates yields a well formed grid.
pub proof fn lemma_recalc_wf(g: Seq<CellModel>)
    requires
        g.len() >= 81,
        forall|n: int| 0 <= n < g.len() ==> (#[trigger] g[n]).wf(),
    ensures
        grid_wf(recalc_model(g)),
        recalc_model(g).len() == g.len(),
{
    let r = reset_open(g);
    let g2 = recalc_model(g);
    lemma_cleared_cell_wf();
    assert forall|n: int| 0 <= n < g2.len() implies (#[trigger] g2[n]).wf() && g2[n].value == r[n].value
        && (0 <= n < 81 ==> forall|w: i32| g2[n].poss.contains(w) <==> (r[n].poss.contains(w) && (r[n].value > 0 || !peer_values(r, n).contains(w)))) by {
        assert(r[n].wf());
        if n < 81 {
            lemma_minus_facts(r[n], peer_values(r, n));
        }
    }
    assert forall|n: int| 0 <= n < 81 && (#[trigger] g2[n]).value == 0 implies !g2[n].poss.contains(0) by {
        if g2[n].poss.contains(0) {
            assert(r[n].poss.contains(0));
        }
    }
    assert forall|n: int, m: int|
        0 <= n < 81 && 0 <= m < 81 && n != m && same_house(n, m) && (#[trigger] g2[m]).value > 0
            && (#[trigger] g2[n]).value == 0 implies !g2[n].poss.contains(g2[m].value) by {
        assert(peer_values(r, n).contains(r[m].value));
    }
}

/// Whether `c` is an ASCII decimal digit.
pub open spec fn is_digit(c: char) -> bool {
    '0' <= c <= '9'
}

/// The number that the digit `c` stands for.
pub open spec fn digit_value(c: char) -> i32 {
    (c as int - '0' as int) as i32
}

/// The digits of `s`, in order, as numbers; every other character dropped.
pub open spec fn digits(s: Seq<char>) -> Seq<i32> {
    s.filter(|c: char| is_digit(c)).map_values(|c: char| digit_value(c))
}

/// `g` after the first `k` entries of `d` have been placed in reading order
/// (entry `i` at column `i % 9`, row `i / 9`), zeros skipped.
pub open spec fn place_digits(g: Seq<CellModel>, d: Seq<i32>, k: nat) -> Seq<CellModel>
    decreases k,
{
    if k == 0 {
        g
    } else {
        let g1 = place_digits(g, d, (k - 1) as nat);
        let i = k - 1;
        if d[i] > 0 {
            set_cell_model(g1, i % 9, i / 9, d[i])
        } else {
            g1
        }
    }
}

/// The grid that `Grid::from_string(s)` builds: a fresh board with the
/// first 81 digits of `s` placed in reading order.
pub open spec fn from_string_model(s: Seq<char>) -> Seq<CellModel> {
    let d = digits(s);
    place_digits(new_grid_model(), d, if d.len() < 81 { d.len() } else { 81 })
}

/// Placing digits keeps a grid well formed.
pub proof fn lemma_place_digits_wf(g: Seq<CellModel>, d: Seq<i32>, k: nat)
    requires
        grid_wf(g),
        k <= d.len(),
        k <= 81,
    ensures
        grid_wf(place_digits(g, d, k)),
        place_digits(g, d, k).len() == g.len(),
    decreases k,
{
    if k > 0 {
        lemma_place_digits_wf(g, d, (k - 1) as nat);
        let i = k - 1;
        if d[i] > 0 {
            lemma_set_cell_wf(place_digits(g, d, (k - 1) as nat), i % 9, i / 9, d[i]);
        }
    }
}

/// Only the first `k` entries of `d` matter to `place_digits(g, d, k)`.
pub proof fn lemma_place_digits_prefix(g: Seq<CellModel>, d1: Seq<i32>, d2: Seq<i32>, k: nat)
    requires
        k <= d1.len(),
        k <= d2.len(),
        forall|i: int| 0 <= i < k ==> d1[i] == d2[i],
    ensures
        place_digits(g, d1, k) == place_digits(g, d2, k),
    decreases k,
{
    if k > 0 {
        lemma_place_digits_prefix(g, d1, d2, (k - 1) as nat);
    }
}

/// Reading one more character extends the digit list by its value when it
/// is a digit.
pub proof fn lemma_digits_push(s: Seq<char>, c: char)
    ensures
        digits(s.push(c)) == if is_digit(c) { digits(s).push(digit_value(c)) } else { digits(s) },
{
    let p = |c: char| is_digit(c);
    s.lemma_filter_push(c, p);
    if is_digit(c) {
        assert(digits(s.push(c)) =~= digits(s).push(digit_value(c)));
    } else {
        assert(digits(s.push(c)) =~= digits(s));
    }
}

/// `set_cell` leaves the value of every other cell alone and only drops
/// candidates from it.
pub proof fn lemma_set_cell_others(g: Seq<CellModel>, x: int, y: int, v: i32, n: int)
    requires
        in_grid(x, y),
        g.len() >= 81,
        0 <= n < g.len(),
        n != cell_index(x, y),
    ensures
        set_cell_model(g, x, y, v)[n].value == g[n].value,
        forall|w: i32| #[trigger] set_cell_model(g, x, y, v)[n].poss.contains(w) ==> g[n].poss.contains(w),
{
    lemma_minus_facts(g[n], set![v]);
}

/// Giving an open board cell one of its candidates (1 to 9) lowers the
/// grid measure.
pub proof fn lemma_set_cell_progress(g: Seq<CellModel>, x: int, y: int, v: i32)
    requires
        grid_wf(g),
        in_grid(x, y),
        g[cell_index(x, y)].value == 0,
        g[cell_index(x, y)].poss.contains(v),
        1 <= v <= 9,
    ensures
        grid_measure(set_cell_model(g, x, y, v)) < grid_measure(g),
{
    let t = cell_index(x, y);
    let g2 = set_cell_model(g, x, y, v);
    assert forall|n: int| 0 <= n < 81 implies (#[trigger] g2[n]).measure() <= g[n].measure() by {
        if n == t {
            assert(g2[n].poss.len() == 1);
            assert(g[n].poss.len() >= 1);
        } else {
            lemma_minus_facts(g[n], set![v]);
        }
    }
    assert(g2[t].measure() < g[t].measure()) by {
        assert(g2[t].poss.len() == 1);
        assert(g[t].poss.len() >= 1);
    }
    lemma_measure_mono(g, g2, 81);
}

/// A set cell measures 1, and an open board cell at most 10: its
/// candidates are among 1 to 9.
pub proof fn lemma_board_cell_measure(c: CellModel)
    requires
        c.wf(),
        c.value == 0 ==> !c.poss.contains(0),
    ensures
        c.measure() <= 10,
{
    if c.value == 0 {
        let digits = set![1i32, 2, 3, 4, 5, 6, 7, 8, 9];
        assert(digits.len() == 9);
        c.poss.unique_seq_to_set();
        assert forall|w: i32| c.poss.to_set().contains(w) implies digits.contains(w) by {
            let i = choose|i: int| 0 <= i < c.poss.len() && c.poss[i] == w;
            assert(0 <= c.poss[i] <= 9);
        }
        vstd::set_lib::lemma_len_subset(c.poss.to_set(), digits);
    }
}

/// The measure of a well formed grid is small: at most 10 per board cell.
pub proof fn lemma_grid_measure_bound(g: Seq<CellModel>, n: nat)
    requires
        grid_wf(g),
        n <= 81,
    ensures
        measure_upto(g, n) <= 10 * n,
    decreases n,
{
    if n > 0 {
        lemma_grid_measure_bound(g, (n - 1) as nat);
        lemma_board_cell_measure(g[n - 1]);
    }
}

/// Rebuilding the candidates depends on the values alone: two grids of
/// well formed cells with the same values rebuild to the same grid.
pub proof fn lemma_recalc_from_values(g1: Seq<CellModel>, g2: Seq<CellModel>)
    requires
        g1.len() == g2.len(),
        forall|n: int| 0 <= n < g1.len() ==> (#[trigger] g1[n]).wf(),
        forall|n: int| 0 <= n < g2.len() ==> (#[trigger] g2[n]).wf(),
        forall|n: int| 0 <= n < g1.len() ==> (#[trigger] g1[n]).value == g2[n].value,
    ensures
        recalc_model(g1) == recalc_model(g2),
{
    assert forall|n: int| 0 <= n < g1.len() implies #[trigger] reset_open(g1)[n] == reset_open(g2)[n] by {
        assert(g1[n].wf() && g2[n].wf());
        if g1[n].value > 0 {
            assert(g1[n].poss == g2[n].poss);
        }
    }
    assert(reset_open(g1) =~= reset_open(g2));
}

/// Rebuilding the candidates twice is rebuilding them once.
pub proof fn lemma_recalc_idempotent(g: Seq<CellModel>)
    requires
        g.len() >= 81,
        forall|n: int| 0 <= n < g.len() ==> (#[trigger] g[n]).wf(),
    ensures
        recalc_model(recalc_model(g)) == recalc_model(g),
{
    let r = recalc_model(g);
    lemma_recalc_wf(g);
    assert forall|n: int| 0 <= n < r.len() implies (#[trigger] r[n]).value == g[n].value by {
        lemma_minus_facts(reset_open(g)[n], peer_values(reset_open(g), n));
    }
    lemma_recalc_from_values(r, g);
}

/// Parsing ignores every character that is not a digit: a string and its
/// digits alone give the same grid.
pub proof fn lemma_from_string_ignores_non_digits(s: Seq<char>)
    ensures
        from_string_model(s) == from_string_model(s.filter(|c: char| is_digit(c))),
{
    let p = |c: char| is_digit(c);
    lemma_filter_and(s, p, p);
    lemma_filter_ext(s, |x: char| p(x) && p(x), p);
    assert(digits(s.filter(p)) == digits(s));
}

/// Every cell of `g` that has a value is the same in `g2`.
pub open spec fn keeps_set_cells(g: Seq<CellModel>, g2: Seq<CellModel>) -> bool {
    &&& g2.len() == g.len()
    &&& forall|n: int| 0 <= n < g.len() && g[n].value > 0 ==> #[trigger] g2[n] == g[n]
}

pub proof fn lemma_keeps_set_cells_trans(g1: Seq<CellModel>, g2: Seq<CellModel>, g3: Seq<CellModel>)
    requires
        keeps_set_cells(g1, g2),
        keeps_set_cells(g2, g3),
    ensures
        keeps_set_cells(g1, g3),
{
    assert forall|n: int| 0 <= n < g1.len() && g1[n].value > 0 implies #[trigger] g3[n] == g1[n] by {
        assert(g2[n] == g1[n]);
    }
}

/// Dropping candidates from well formed cells leaves the set cells alone.
pub proof fn lemma_shrinks_keeps_set_cells(g: Seq<CellModel>, g2: Seq<CellModel>)
    requires
        shrinks(g, g2),
        forall|n: int| 0 <= n < g.len() ==> (#[trigger] g[n]).wf(),
    ensures
        keeps_set_cells(g, g2),
{
    assert forall|n: int| 0 <= n < g.len() && g[n].value > 0 implies #[trigger] g2[n] == g[n] by {
        assert(g[n].wf() && g2[n].wf());
        assert(g2[n].poss =~= g[n].poss);
    }
}

/// Setting an open board cell leaves every set cell alone.
pub proof fn lemma_set_cell_keeps_set_cells(g: Seq<CellModel>, x: int, y: int, v: i32)
    requires
        in_grid(x, y),
        g.len() >= 81,
        !(g[cell_index(x, y)].value > 0),
    ensures
        keeps_set_cells(g, set_cell_model(g, x, y, v)),
{
}


/// Set cells stay as they were, a cell that took a value took one of its
/// candidates, and every cell lists only candidates that it listed before.
pub open spec fn narrows(g: Seq<CellModel>, g2: Seq<CellModel>) -> bool {
    &&& keeps_set_cells(g, g2)
    &&& forall|n: int| 0 <= n < g.len() && !(g[n].value > 0) && (#[trigger] g2[n]).value > 0 ==> g[n].poss.contains(g2[n].value)
    &&& forall|n: int, v: i32| 0 <= n < g.len() && #[trigger] g2[n].poss.contains(v) ==> g[n].poss.contains(v)
}

/// `g2` is `g` narrowed down: set cells stay as they were, and every cell's
/// candidates are some of its old ones, in their old order; so a cell that
/// took a value took one of its old candidates.
pub open spec fn refines(g: Seq<CellModel>, g2: Seq<CellModel>) -> bool {
    &&& narrows(g, g2)
    &&& forall|n: int| 0 <= n < g.len() ==> thinned(#[trigger] g2[n].poss, g[n].poss)
}

pub proof fn lemma_narrows_refl(g: Seq<CellModel>)
    ensures
        narrows(g, g),
{
}

pub proof fn lemma_narrows_trans(g1: Seq<CellModel>, g2: Seq<CellModel>, g3: Seq<CellModel>)
    requires
        narrows(g1, g2),
        narrows(g2, g3),
    ensures
        narrows(g1, g3),
{
    lemma_keeps_set_cells_trans(g1, g2, g3);
    assert forall|n: int, v: i32| 0 <= n < g1.len() && #[trigger] g3[n].poss.contains(v) implies g1[n].poss.contains(v) by {
        assert(g2[n].poss.contains(v));
    }
    assert forall|n: int| 0 <= n < g1.len() && !(g1[n].value > 0) && (#[trigger] g3[n]).value > 0
        implies g1[n].poss.contains(g3[n].value) by {
        if g2[n].value > 0 {
            assert(g3[n] == g2[n]);
        } else {
            assert(g2[n].poss.contains(g3[n].value));
        }
    }
}

/// Between grids of well formed cells, narrowing keeps each cell's
/// candidates in their order.
pub proof fn lemma_narrows_refines(g: Seq<CellModel>, g2: Seq<CellModel>)
    requires
        narrows(g, g2),
        forall|n: int| 0 <= n < g.len() ==> (#[trigger] g[n]).wf(),
        forall|n: int| 0 <= n < g2.len() ==> (#[trigger] g2[n]).wf(),
    ensures
        refines(g, g2),
{
    assert forall|n: int| 0 <= n < g.len() implies thinned(#[trigger] g2[n].poss, g[n].poss) by {
        assert(g[n].wf() && g2[n].wf());
        assert forall|v: i32| #[trigger] g2[n].poss.contains(v) implies g[n].poss.contains(v) by {
        }
        lemma_increasing_subset_thinned(g2[n].poss, g[n].poss);
    }
}

/// Dropping candidates from well formed cells narrows the grid.
pub proof fn lemma_shrinks_narrows(g: Seq<CellModel>, g2: Seq<CellModel>)
    requires
        shrinks(g, g2),
        forall|n: int| 0 <= n < g.len() ==> (#[trigger] g[n]).wf(),
    ensures
        narrows(g, g2),
{
    lemma_shrinks_keeps_set_cells(g, g2);
    assert forall|n: int| 0 <= n < g.len() && !(g[n].value > 0) && (#[trigger] g2[n]).value > 0
        implies g[n].poss.contains(g2[n].value) by {
        assert(g2[n].value == g[n].value);
    }
}

/// Giving an open board cell one of its candidates narrows the grid.
pub proof fn lemma_set_cell_narrows(g: Seq<CellModel>, x: int, y: int, v: i32)
    requires
        in_grid(x, y),
        g.len() >= 81,
        !(g[cell_index(x, y)].value > 0),
        g[cell_index(x, y)].poss.contains(v),
    ensures
        narrows(g, set_cell_model(g, x, y, v)),
{
    let t = cell_index(x, y);
    let g1 = g.update(t, g[t].with_value(v));
    let g2 = set_cell_model(g, x, y, v);
    lemma_set_cell_keeps_set_cells(g, x, y, v);
    assert forall|n: int| 0 <= n < g.len() && !(g[n].value > 0) && (#[trigger] g2[n]).value > 0
        implies g[n].poss.contains(g2[n].value) by {
        lemma_minus_facts(g1[n], set![v]);
    }
    assert forall|n: int, w: i32| 0 <= n < g.len() && #[trigger] g2[n].poss.contains(w) implies g[n].poss.contains(w) by {
        lemma_minus_facts(g1[n], set![v]);
        if n == t {
            if 0 <= v <= 9 {
                assert(g1[t].poss == seq![v]);
                assert(g1[t].poss.contains(w));
                assert(w == v);
            }
        } else {
            assert(g1[n] == g[n]);
        }
    }
}


/// A fresh board is its own rebuilt candidates.
pub proof fn lemma_new_grid_canonical()
    ensures
        recalc_model(new_grid_model()) == new_grid_model(),
{
    let g = new_grid_model();
    let r = reset_open(g);
    assert(r =~= g);
    assert forall|n: int| 0 <= n < 81 implies #[trigger] recalc_model(g)[n] == g[n] by {
        assert(peer_values(r, n) =~= Set::<i32>::empty());
        lemma_minus_noop(g[n], Set::<i32>::empty());
    }
    assert(recalc_model(g) =~= g);
}

/// Giving an open cell of a board whose candidates are rebuilt from its
/// values a value from 1 to 9 leaves a board whose candidates are again
/// rebuilt from its values.
pub proof fn lemma_set_cell_canonical(g: Seq<CellModel>, x: int, y: int, v: i32)
    requires
        g.len() == 81,
        grid_wf(g),
        recalc_model(g) == g,
        in_grid(x, y),
        g[cell_index(x, y)].value == 0,
        1 <= v <= 9,
    ensures
        recalc_model(set_cell_model(g, x, y, v)) == set_cell_model(g, x, y, v),
{
    let t = cell_index(x, y);
    let g2 = set_cell_model(g, x, y, v);
    let r = reset_open(g);
    let r2 = reset_open(g2);
    lemma_set_cell_wf(g, x, y, v);
    assert forall|m: int| 0 <= m < 81 implies (#[trigger] r2[m]).value == if m == t { v } else { g[m].value } by {
        if m != t {
            lemma_set_cell_others(g, x, y, v, m);
        }
    }
    assert forall|n: int| 0 <= n < 81 implies #[trigger] recalc_model(g2)[n] == g2[n] by {
        if n != t {
            lemma_set_cell_others(g, x, y, v, n);
        }
        if g2[n].value == 0 {
            assert(n != t);
            assert(g[n].value == 0);
            assert(recalc_model(g)[n] == g[n]);
            assert(g[n] == cleared_cell().minus(peer_values(r, n)));
            let extra = if same_house(n, t) { set![v] } else { Set::<i32>::empty() };
            assert forall|w: i32| #[trigger] peer_values(r2, n).contains(w) <==> (peer_values(r, n) + extra).contains(w) by {
                if peer_values(r2, n).contains(w) {
                    let m = choose|m: int| 0 <= m < 81 && same_house(n, m) && (#[trigger] r2[m]).value > 0 && r2[m].value == w;
                    if m != t {
                        assert(r[m].value == g[m].value);
                        assert(peer_values(r, n).contains(w));
                    }
                }
                if peer_values(r, n).contains(w) {
                    let m = choose|m: int| 0 <= m < 81 && same_house(n, m) && (#[trigger] r[m]).value > 0 && r[m].value == w;
                    assert(m != t);
                    assert(r2[m].value == w);
                }
                if extra.contains(w) {
                    assert(r2[t].value == w);
                }
            }
            assert(peer_values(r2, n) =~= peer_values(r, n) + extra);
            lemma_minus_minus(cleared_cell(), peer_values(r, n), extra);
            if !same_house(n, t) {
                assert(peer_values(r, n) + extra =~= peer_values(r, n));
            }
        }
    }
    assert(recalc_model(g2) =~= g2);
}

/// Every entry of the digit list of a string is between 0 and 9.
pub proof fn lemma_digits_range(s: Seq<char>)
    ensures
        forall|i: int| 0 <= i < digits(s).len() ==> 0 <= #[trigger] digits(s)[i] <= 9,
{
    let p = |c: char| is_digit(c);
    let f = s.filter(p);
    lemma_filter_members(s, p);
    assert forall|i: int| 0 <= i < digits(s).len() implies 0 <= #[trigger] digits(s)[i] <= 9 by {
        assert(f.contains(f[i]));
    }
}

/// Placing digits on a fresh board gives a board of 81 cells whose
/// candidates are rebuilt from its values, and leaves the cells not yet
/// reached open.
pub proof fn lemma_place_digits_canonical(d: Seq<i32>, k: nat)
    requires
        k <= d.len(),
        k <= 81,
        forall|i: int| 0 <= i < d.len() ==> 0 <= #[trigger] d[i] <= 9,
    ensures
        place_digits(new_grid_model(), d, k).len() == 81,
        grid_wf(place_digits(new_grid_model(), d, k)),
        recalc_model(place_digits(new_grid_model(), d, k)) == place_digits(new_grid_model(), d, k),
        forall|n: int| k <= n < 81 ==> (#[trigger] place_digits(new_grid_model(), d, k)[n]).value == 0,
    decreases k,
{
    let g0 = new_grid_model();
    if k == 0 {
        lemma_new_grid_canonical();
        lemma_recalc_wf(g0);
        lemma_cleared_cell_wf();
        assert(grid_wf(g0));
    } else {
        lemma_place_digits_canonical(d, (k - 1) as nat);
        let g1 = place_digits(g0, d, (k - 1) as nat);
        let i = k - 1;
        if d[i] > 0 {
            assert(i % 9 + (i / 9) * 9 == i);
            assert(cell_index(i % 9, i / 9) == i);
            lemma_set_cell_canonical(g1, i % 9, i / 9, d[i]);
            lemma_set_cell_wf(g1, i % 9, i / 9, d[i]);
            assert forall|n: int| k <= n < 81 implies (#[trigger] place_digits(g0, d, k)[n]).value == 0 by {
                lemma_set_cell_others(g1, i % 9, i / 9, d[i], n);
            }
        }
    }
}

/// The board that parsing builds has its candidates rebuilt from its
/// values: every open cell lists exactly the values that no set cell of
/// its row, column or block holds.
pub proof fn lemma_from_string_canonical(s: Seq<char>)
    ensures
        recalc_model(from_string_model(s)) == from_string_model(s),
        from_string_model(s).len() == 81,
        grid_wf(from_string_model(s)),
{
    let d = digits(s);
    lemma_digits_range(s);
    lemma_place_digits_canonical(d, if d.len() < 81 { d.len() } else { 81 });
}

/// Giving an open cell a value from 1 to 9 and then clearing it gives
/// back a board whose candidates were rebuilt from its values.
pub proof fn lemma_set_then_clear(g: Seq<CellModel>, x: int, y: int, v: i32)
    requires
        grid_wf(g),
        recalc_model(g) == g,
        in_grid(x, y),
        g[cell_index(x, y)].value == 0,
        1 <= v <= 9,
    ensures
        clear_cell_model(set_cell_model(g, x, y, v), cell_index(x, y)) == g,
{
    let t = cell_index(x, y);
    let g2 = set_cell_model(g, x, y, v);
    lemma_set_cell_wf(g, x, y, v);
    lemma_cleared_cell_wf();
    let g3 = g2.update(t, cleared_cell());
    assert forall|n: int| 0 <= n < g3.len() implies (#[trigger] g3[n]).wf() && g3[n].value == g[n].value by {
        if n != t {
            lemma_set_cell_others(g, x, y, v, n);
        }
    }
    lemma_recalc_from_values(g3, g);
}

/// On a parsed board, giving an open cell a value from 1 to 9 and then
/// clearing it gives back the parsed board.
pub proof fn lemma_from_string_set_then_clear(s: Seq<char>, x: int, y: int, v: i32)
    requires
        in_grid(x, y),
        from_string_model(s)[cell_index(x, y)].value == 0,
        1 <= v <= 9,
    ensures
        clear_cell_model(set_cell_model(from_string_model(s), x, y, v), cell_index(x, y)) == from_string_model(s),
{
    lemma_from_string_canonical(s);
    lemma_set_then_clear(from_string_model(s), x, y, v);
}


/// Some board cell that was open in `g` has a value in `g2`.
pub open spec fn sets_some_cell(g: Seq<CellModel>, g2: Seq<CellModel>) -> bool {
    exists|n: int| 0 <= n < 81 && !(g[n].value > 0) && (#[trigger] g2[n]).value > 0
}

/// A cell set along a chain of steps that keep set cells stays set.
pub proof fn lemma_sets_some_cell_trans(g1: Seq<CellModel>, g2: Seq<CellModel>, g3: Seq<CellModel>)
    requires
        g1.len() >= 81,
        keeps_set_cells(g1, g2),
        keeps_set_cells(g2, g3),
        sets_some_cell(g1, g2) || sets_some_cell(g2, g3),
    ensures
        sets_some_cell(g1, g3),
{
    if sets_some_cell(g1, g2) {
        let n = choose|n: int| 0 <= n < 81 && !(g1[n].value > 0) && (#[trigger] g2[n]).value > 0;
        assert(g3[n] == g2[n]);
    } else {
        let n = choose|n: int| 0 <= n < 81 && !(g2[n].value > 0) && (#[trigger] g3[n]).value > 0;
        if g1[n].value > 0 {
            assert(g2[n] == g1[n]);
        }
    }
}

/// A grid in which some open cell got a value differs from the one before.
pub proof fn lemma_sets_some_cell_changes(g: Seq<CellModel>, g2: Seq<CellModel>)
    requires
        sets_some_cell(g, g2),
    ensures
        g2 != g,
{
    let n = choose|n: int| 0 <= n < 81 && !(g[n].value > 0) && (#[trigger] g2[n]).value > 0;
    assert(g2[n] != g[n]);
}


/// After the first `k` digits are placed on a fresh board, cell `n` holds
/// digit `n` when `n < k` and that digit is not 0, and is open otherwise.
pub proof fn lemma_place_digits_values(d: Seq<i32>, k: nat, n: int)
    requires
        k <= d.len(),
        k <= 81,
        forall|i: int| 0 <= i < d.len() ==> 0 <= #[trigger] d[i] <= 9,
        0 <= n < 81,
    ensures
        place_digits(new_grid_model(), d, k)[n].value == if n < k && d[n] > 0 { d[n] } else { 0 },
    decreases k,
{
    if k > 0 {
        lemma_place_digits_values(d, (k - 1) as nat, n);
        lemma_place_digits_canonical(d, (k - 1) as nat);
        let i = k - 1;
        let g1 = place_digits(new_grid_model(), d, (k - 1) as nat);
        if d[i] > 0 {
            assert(cell_index(i % 9, i / 9) == i);
            if n != i {
                lemma_set_cell_others(g1, i % 9, i / 9, d[i], n);
            }
        }
    }
}

/// Parsing puts the `n`-th digit of the string in cell `n` (row `n / 9`,
/// column `n % 9`) when it is not 0; a 0, or a missing digit, leaves the
/// cell open.
pub proof fn lemma_from_string_values(s: Seq<char>, n: int)
    requires
        0 <= n < 81,
    ensures
        from_string_model(s)[n].value == if n < digits(s).len() && digits(s)[n] > 0 { digits(s)[n] } else { 0 },
{
    let d = digits(s);
    lemma_digits_range(s);
    lemma_place_digits_values(d, if d.len() < 81 { d.len() } else { 81 }, n);
}

/// Rebuilt candidates: a set cell keeps its value and candidates, and an
/// open board cell lists exactly the values from 1 to 9 that no set board
/// cell of its row, column or block holds.
pub proof fn lemma_recalc_candidates(g: Seq<CellModel>, n: int, w: i32)
    requires
        0 <= n < 81,
        g.len() >= 81,
    ensures
        recalc_model(g)[n].value == g[n].value,
        g[n].value > 0 ==> recalc_model(g)[n] == g[n],
        g[n].value == 0 ==> (recalc_model(g)[n].poss.contains(w) <==> (1 <= w <= 9
            && !exists|m: int| 0 <= m < 81 && same_house(n, m) && #[trigger] g[m].value == w && w > 0)),
{
    let r = reset_open(g);
    lemma_minus_facts(r[n], peer_values(r, n));
    if g[n].value == 0 {
        let f = full_poss();
        assert(forall|i: int| 0 <= i < 9 ==> #[trigger] f[i] == i + 1);
        assert(f.contains(w) <==> 1 <= w <= 9) by {
            if 1 <= w <= 9 {
                assert(f[w - 1] == w);
            }
        }
        assert(peer_values(r, n).contains(w) <==> exists|m: int| 0 <= m < 81 && same_house(n, m) && #[trigger] g[m].value == w && w > 0) by {
            if peer_values(r, n).contains(w) {
                let m = choose|m: int| 0 <= m < 81 && same_house(n, m) && (#[trigger] r[m]).value > 0 && r[m].value == w;
                assert(g[m].value == w);
            }
            if exists|m: int| 0 <= m < 81 && same_house(n, m) && #[trigger] g[m].value == w && w > 0 {
                let m = choose|m: int| 0 <= m < 81 && same_house(n, m) && #[trigger] g[m].value == w && w > 0;
                assert(r[m].value == w);
            }
        }
    }
}


/// What `set_cell` does on the board: the cell takes the value as its
/// only candidate; every other board cell of its row, column and block
/// loses that value and nothing else; every other cell is left alone.
pub proof fn lemma_set_cell_effect(g: Seq<CellModel>, x: int, y: int, v: i32, n: int, w: i32)
    requires
        in_grid(x, y),
        g.len() >= 81,
        0 <= v <= 9,
        0 <= n < g.len(),
    ensures
        set_cell_model(g, x, y, v).len() == g.len(),
        n == cell_index(x, y) ==> set_cell_model(g, x, y, v)[n].value == v,
        n == cell_index(x, y) && v > 0 ==> set_cell_model(g, x, y, v)[n].poss == seq![v],
        n != cell_index(x, y) ==> set_cell_model(g, x, y, v)[n].value == g[n].value,
        n != cell_index(x, y) && n < 81 && same_house(n, cell_index(x, y)) && g[n].value == 0
            ==> (set_cell_model(g, x, y, v)[n].poss.contains(w) <==> (g[n].poss.contains(w) && w != v)),
        n != cell_index(x, y) && !(n < 81 && same_house(n, cell_index(x, y)))
            ==> set_cell_model(g, x, y, v)[n] == g[n],
{
    let t = cell_index(x, y);
    let g1 = g.update(t, g[t].with_value(v));
    lemma_minus_facts(g1[n], set![v]);
}

} // verus!
