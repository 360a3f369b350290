//! What the board does with the user's clicks and keys in one frame, and
//! how each cell is shown: the decisions of the interactive front end.
use vstd::prelude::*;
use crate::grid::{Grid, valid_index};
use crate::model::{CellModel, set_cell_model, clear_cell_model, cell_index, grid_wf, lemma_set_cell_wf};

verus! {

/// The keys pressed in one frame.
pub struct FrameInput {
    /// `digits[i]`: the key for digit `i + 1` (nine entries).
    pub digits: Vec<bool>,
    /// Delete or Backspace.
    pub clear: bool,
    pub escape: bool,
    pub right: bool,
    pub left: bool,
    pub down: bool,
    pub up: bool,
}

/// A selection, if any, lies on the board.
pub open spec fn selection_ok(sel: Option<(i32, i32)>) -> bool {
    match sel {
        Some((c, r)) => 0 <= c < 9 && 0 <= r < 9,
        None => true,
    }
}

/// A frame can be applied to `g` with selection `sel`: the arrows can move
/// the selection without overflow, and Delete names a cell of the grid.
pub open spec fn frame_ok(g: Seq<CellModel>, sel: Option<(i32, i32)>, input: FrameInput) -> bool {
    match sel {
        Some((c, r)) => {
            &&& i32::MIN < c < i32::MAX
            &&& i32::MIN < r < i32::MAX
            &&& input.clear ==> valid_index(g, c, r)
        },
        None => true,
    }
}

/// `g` after the digit keys among the first `k` that are pressed have each
/// set cell (`col`, `row`), in increasing order.
pub open spec fn digits_applied(g: Seq<CellModel>, col: i32, row: i32, d: Seq<bool>, k: nat) -> Seq<CellModel>
    decreases k,
{
    if k == 0 {
        g
    } else {
        let g1 = digits_applied(g, col, row, d, (k - 1) as nat);
        if d[k - 1] {
            set_cell_model(g1, col as int, row as int, k as i32)
        } else {
            g1
        }
    }
}

/// The selection after a click: the clicked cell when there was one.
pub open spec fn selection_after_click(selected: Option<(i32, i32)>, clicked: Option<(i32, i32)>) -> Option<(i32, i32)> {
    if clicked is Some { clicked } else { selected }
}

/// The grid after a frame: with a cell selected, every pressed digit key
/// sets it, then Delete clears it.
pub open spec fn frame_grid(g: Seq<CellModel>, sel: Option<(i32, i32)>, input: FrameInput) -> Seq<CellModel> {
    match sel {
        Some((c, r)) => {
            let g1 = digits_applied(g, c, r, input.digits@, 9);
            if input.clear { clear_cell_model(g1, r * 9 + c) } else { g1 }
        },
        None => g,
    }
}

/// The selection after a frame: Escape drops it, and each pressed arrow
/// moves it from where it was at the start of the frame, staying on the
/// board (the last pressed of right, left, down, up wins).
pub open spec fn frame_selection(sel: Option<(i32, i32)>, input: FrameInput) -> Option<(i32, i32)> {
    match sel {
        Some((c, r)) => {
            let s1 = if input.escape { None } else { sel };
            let s2 = if input.right { Some((if c + 1 < 8 { (c + 1) as i32 } else { 8i32 }, r)) } else { s1 };
            let s3 = if input.left { Some((if c - 1 > 0 { (c - 1) as i32 } else { 0i32 }, r)) } else { s2 };
            let s4 = if input.down { Some((c, if r + 1 < 8 { (r + 1) as i32 } else { 8i32 })) } else { s3 };
            if input.up { Some((c, if r - 1 > 0 { (r - 1) as i32 } else { 0i32 })) } else { s4 }
        },
        None => None,
    }
}

/// Apply one frame of input to the board: a click selects its cell; with a
/// cell selected, digit keys set it, Delete clears it, Escape deselects and
/// the arrows move the selection. Returns the new selection.
pub fn apply_frame(grid: &mut Grid, selected: Option<(i32, i32)>, clicked: Option<(i32, i32)>, input: &FrameInput) -> (sel: Option<(i32, i32)>)
    requires
        old(grid).wf(),
        input.digits@.len() == 9,
        frame_ok(old(grid)@, selection_after_click(selected, clicked), *input),
    ensures
        final(grid).wf(),
        final(grid)@ == frame_grid(old(grid)@, selection_after_click(selected, clicked), *input),
        sel == frame_selection(selection_after_click(selected, clicked), *input),
        selection_ok(selection_after_click(selected, clicked)) ==> selection_ok(sel),
{
    let mut selected = selected;
    if let Some(cell) = clicked {
        selected = Some(cell);
    }
    let start = selected;
    match start {
        Some((col, row)) => {
            let ghost g0 = grid@;
            let mut num: i32 = 1;
            while num <= 9
                invariant
                    1 <= num <= 10,
                    input.digits@.len() == 9,
                    grid.wf(),
                    grid@.len() == g0.len(),
                    grid@ == digits_applied(g0, col, row, input.digits@, (num - 1) as nat),
                decreases 10 - num,
            {
                if input.digits[(num - 1) as usize] {
                    let _ = grid.set_cell(col, row, num);
                }
                num = num + 1;
            }
            if input.clear {
                grid.clear_cell(col, row);
            }
            if input.escape {
                selected = None;
            }
            if input.right {
                selected = Some((if col + 1 < 8 { col + 1 } else { 8 }, row));
            }
            if input.left {
                selected = Some((if col - 1 > 0 { col - 1 } else { 0 }, row));
            }
            if input.down {
                selected = Some((col, if row + 1 < 8 { row + 1 } else { 8 }));
            }
            if input.up {
                selected = Some((col, if row - 1 > 0 { row - 1 } else { 0 }));
            }
        },
        None => {},
    }
    selected
}

/// How a cell is shaded on screen.
#[derive(Debug, Clone, Copy, PartialEq, Eq, Structural)]
pub enum Shade {
    /// The selected cell.
    Selected,
    /// An empty cell.
    Empty,
    /// A cell with a value.
    Filled,
}

/// The shade of a cell with value `value`: selected first, then empty or filled.
pub fn cell_shade(value: i32, is_selected: bool) -> (s: Shade)
    ensures
        s == (if is_selected { Shade::Selected } else if value == 0 { Shade::Empty } else { Shade::Filled }),
{
    if is_selected {
        Shade::Selected
    } else if value == 0 {
        Shade::Empty
    } else {
        Shade::Filled
    }
}

/// The character shown for a cell value: a blank for 0, else the digit.
pub fn cell_char(value: i32) -> (c: char)
    requires
        0 <= value <= 9,
    ensures
        value == 0 ==> c == ' ',
        value > 0 ==> c as int == '0' as int + value,
{
    match value {
        0 => ' ',
        1 => '1',
        2 => '2',
        3 => '3',
        4 => '4',
        5 => '5',
        6 => '6',
        7 => '7',
        8 => '8',
        _ => '9',
    }
}


/// After the digit keys among the first `k`, the selected board cell holds
/// the largest pressed digit among them, if any was pressed; the grid stays
/// well formed.
proof fn lemma_digits_applied_value(g: Seq<CellModel>, col: i32, row: i32, d: Seq<bool>, k: nat)
    requires
        grid_wf(g),
        0 <= col < 9,
        0 <= row < 9,
        k <= d.len(),
        k <= 9,
    ensures
        grid_wf(digits_applied(g, col, row, d, k)),
        digits_applied(g, col, row, d, k).len() == g.len(),
        forall|i: int| 0 <= i < k && #[trigger] d[i] && (forall|j: int| i < j < k ==> !#[trigger] d[j])
            ==> digits_applied(g, col, row, d, k)[row * 9 + col].value == i + 1,
    decreases k,
{
    if k > 0 {
        lemma_digits_applied_value(g, col, row, d, (k - 1) as nat);
        let g1 = digits_applied(g, col, row, d, (k - 1) as nat);
        if d[k - 1] {
            lemma_set_cell_wf(g1, col as int, row as int, k as i32);
            assert(cell_index(col as int, row as int) == row * 9 + col);
        }
        assert forall|i: int| 0 <= i < k && #[trigger] d[i] && (forall|j: int| i < j < k ==> !#[trigger] d[j])
            implies digits_applied(g, col, row, d, k)[row * 9 + col].value == i + 1 by {
            if i < k - 1 {
                assert(!d[k - 1]);
            }
        }
    }
}

/// A frame with a cell selected and digit keys pressed, without Delete,
/// leaves the selected cell holding the largest digit pressed.
pub proof fn lemma_frame_sets_digit(g: Seq<CellModel>, col: i32, row: i32, input: FrameInput, v: int)
    requires
        grid_wf(g),
        0 <= col < 9,
        0 <= row < 9,
        input.digits@.len() == 9,
        !input.clear,
        1 <= v <= 9,
        input.digits@[v - 1],
        forall|j: int| v <= j < 9 ==> !#[trigger] input.digits@[j],
    ensures
        frame_grid(g, Some((col, row)), input)[row * 9 + col].value == v,
{
    lemma_digits_applied_value(g, col, row, input.digits@, 9);
    assert(forall|j: int| v - 1 < j < 9 ==> !#[trigger] input.digits@[j]);
}

/// A frame with a cell selected and Delete pressed leaves that cell open.
pub proof fn lemma_frame_delete_clears(g: Seq<CellModel>, col: i32, row: i32, input: FrameInput)
    requires
        grid_wf(g),
        0 <= col < 9,
        0 <= row < 9,
        input.digits@.len() == 9,
        input.clear,
    ensures
        frame_grid(g, Some((col, row)), input)[row * 9 + col].value == 0,
        frame_grid(g, Some((col, row)), input).len() == g.len(),
{
    lemma_digits_applied_value(g, col, row, input.digits@, 9);
    let g1 = digits_applied(g, col, row, input.digits@, 9);
    let n = row * 9 + col;
    crate::model::lemma_recalc_candidates(g1.update(n, crate::model::cleared_cell()), n, 0);
}

} // verus!
