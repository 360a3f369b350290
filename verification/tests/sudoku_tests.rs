use sudoku::input::{apply_frame, cell_char, cell_shade, FrameInput, Shade};
use sudoku::{Cell, Grid, Solver, TestData};

fn snapshot(g: &Grid) -> Vec<(i32, Vec<i32>)> {
    let mut out = Vec::new();
    for y in 0..9 {
        for x in 0..9 {
            let c = g.get_cell(x, y).unwrap();
            out.push((c.get_value(), c.possibilities().clone()));
        }
    }
    out
}

fn value(g: &Grid, x: i32, y: i32) -> i32 {
    g.get_cell(x, y).unwrap().get_value()
}

fn poss(g: &Grid, x: i32, y: i32) -> Vec<i32> {
    g.get_cell(x, y).unwrap().possibilities().clone()
}

fn all_but(removed: &[i32]) -> Vec<i32> {
    (1..=9).filter(|v| !removed.contains(v)).collect()
}

fn same_house(a: (i32, i32), b: (i32, i32)) -> bool {
    a.0 == b.0 || a.1 == b.1 || (a.0 / 3 == b.0 / 3 && a.1 / 3 == b.1 / 3)
}

/// No two set cells sharing a house hold the same value, and no open cell
/// lists the value of a set cell of its houses.
fn assert_consistent(g: &Grid) {
    for y in 0..9 {
        for x in 0..9 {
            for y2 in 0..9 {
                for x2 in 0..9 {
                    if (x, y) != (x2, y2) && same_house((x, y), (x2, y2)) {
                        let v = value(g, x, y);
                        let w = value(g, x2, y2);
                        if v > 0 && w > 0 {
                            assert_ne!(v, w, "duplicate at ({},{}) and ({},{})", x, y, x2, y2);
                        }
                        if v == 0 && w > 0 {
                            assert!(!poss(g, x, y).contains(&w));
                        }
                    }
                }
            }
        }
    }
}

fn assert_keeps_givens(puzzle: &Grid, solved: &Grid) {
    for y in 0..9 {
        for x in 0..9 {
            let v = value(puzzle, x, y);
            if v > 0 {
                assert_eq!(value(solved, x, y), v);
            }
        }
    }
}

fn fully_solved(g: &Grid) -> bool {
    (0..9).all(|y| (0..9).all(|x| value(g, x, y) > 0))
}

// ----- Cell -----

#[test]
fn cell_new_is_empty_with_all_candidates() {
    let c = Cell::new();
    assert_eq!(c.get_value(), 0);
    assert_eq!(c.possibilities(), &vec![1, 2, 3, 4, 5, 6, 7, 8, 9]);
}

#[test]
fn cell_set_value_in_range() {
    let mut c = Cell::new();
    assert!(c.set_value(5).is_ok());
    assert_eq!(c.get_value(), 5);
    assert_eq!(c.possibilities(), &vec![5]);
}

#[test]
fn cell_set_value_zero_marks_empty() {
    let mut c = Cell::new();
    assert!(c.set_value(0).is_ok());
    assert_eq!(c.get_value(), 0);
    assert_eq!(c.possibilities(), &vec![0]);
}

#[test]
fn cell_set_value_out_of_range_is_refused() {
    let mut c = Cell::new();
    let e = c.set_value(10).unwrap_err();
    assert_eq!(e, "Cell values cannot be outside of the range 0..9. Use 0 to represent a cell that is empty.");
    assert!(c.set_value(-1).is_err());
    assert_eq!(c.get_value(), 0);
    assert_eq!(c.possibilities(), &vec![1, 2, 3, 4, 5, 6, 7, 8, 9]);
}

#[test]
fn cell_remove_possibility_from_open_cell() {
    let mut c = Cell::new();
    assert!(c.remove_possibility(3));
    assert_eq!(c.possibilities(), &vec![1, 2, 4, 5, 6, 7, 8, 9]);
    assert!(!c.remove_possibility(3));
    assert_eq!(c.possibilities(), &vec![1, 2, 4, 5, 6, 7, 8, 9]);
}

#[test]
fn cell_remove_possibility_leaves_set_cell_alone() {
    let mut c = Cell::new();
    c.set_value(4).unwrap();
    assert!(!c.remove_possibility(4));
    assert_eq!(c.possibilities(), &vec![4]);
}

#[test]
fn cell_clear_restores_all_candidates() {
    let mut c = Cell::new();
    c.set_value(7).unwrap();
    c.clear();
    assert_eq!(c.get_value(), 0);
    assert_eq!(c.possibilities(), &vec![1, 2, 3, 4, 5, 6, 7, 8, 9]);
}

// ----- Grid -----

#[test]
fn grid_new_and_default_are_empty() {
    let g = Grid::new();
    let d = Grid::default();
    for y in 0..9 {
        for x in 0..9 {
            assert_eq!(value(&g, x, y), 0);
            assert_eq!(poss(&g, x, y), all_but(&[]));
        }
    }
    assert_eq!(snapshot(&g), snapshot(&d));
}

#[test]
fn grid_get_cell_off_the_board_is_an_error() {
    let g = Grid::new();
    assert_eq!(g.get_cell(9, 0).err().unwrap(), "Outside bounds of the grid.");
    assert_eq!(g.get_cell(-1, 3).err().unwrap(), "Outside bounds of the grid.");
    assert_eq!(g.get_cell(0, 9).err().unwrap(), "Outside bounds of the grid.");
    assert!(g.get_cell(8, 8).is_ok());
}

#[test]
fn grid_set_cell_drops_value_from_houses() {
    let mut g = Grid::new();
    assert!(g.set_cell(4, 4, 5).is_ok());
    assert_eq!(value(&g, 4, 4), 5);
    assert_eq!(poss(&g, 4, 4), vec![5]);
    assert_eq!(poss(&g, 0, 4), all_but(&[5]));
    assert_eq!(poss(&g, 4, 0), all_but(&[5]));
    assert_eq!(poss(&g, 3, 3), all_but(&[5]));
    assert_eq!(poss(&g, 5, 5), all_but(&[5]));
    assert_eq!(poss(&g, 0, 0), all_but(&[]));
    assert_eq!(poss(&g, 3, 2), all_but(&[]));
}

#[test]
fn grid_set_cell_off_the_board_is_an_error() {
    let mut g = Grid::new();
    let before = snapshot(&g);
    let e = g.set_cell(9, 0, 1).unwrap_err();
    assert_eq!(e, "The cell references are outside of the standard 9x9 grid.  Dimensions must be within 0..9");
    assert!(g.set_cell(0, -1, 1).is_err());
    assert_eq!(snapshot(&g), before);
}

#[test]
fn grid_set_cell_with_out_of_range_value_changes_nothing() {
    let mut g = Grid::new();
    let before = snapshot(&g);
    assert!(g.set_cell(2, 2, 12).is_ok());
    assert_eq!(snapshot(&g), before);
}

#[test]
fn grid_remove_possibility_reports_removal() {
    let mut g = Grid::new();
    assert!(g.remove_possibility(0, 0, 9));
    assert!(!g.remove_possibility(0, 0, 9));
    assert_eq!(poss(&g, 0, 0), all_but(&[9]));
    assert_eq!(poss(&g, 1, 0), all_but(&[]));
}

#[test]
fn grid_clear_cell_rebuilds_candidates() {
    let mut g = Grid::new();
    g.set_cell(0, 0, 1).unwrap();
    g.set_cell(1, 0, 2).unwrap();
    g.set_cell(0, 5, 7).unwrap();
    g.clear_cell(0, 0);
    assert_eq!(value(&g, 0, 0), 0);
    assert_eq!(poss(&g, 0, 0), all_but(&[2, 7]));
    assert_eq!(poss(&g, 2, 0), all_but(&[2]));
    assert_eq!(poss(&g, 0, 1), all_but(&[2, 7]));
    assert_eq!(value(&g, 1, 0), 2);
    assert_consistent(&g);
}

#[test]
fn grid_clear_cell_twice_is_clear_cell_once() {
    let mut g = TestData::medium();
    g.clear_cell(2, 0);
    let once = snapshot(&g);
    g.clear_cell(2, 0);
    assert_eq!(snapshot(&g), once);
    assert_consistent(&g);
}

#[test]
fn grid_add_cell_leaves_board_alone() {
    let mut g = TestData::simple();
    let before = snapshot(&g);
    g.add_cell(Cell::new());
    assert_eq!(snapshot(&g), before);
}

#[test]
fn grid_from_string_reads_digits_in_order() {
    let g = Grid::from_string("12x3\n0 4");
    assert_eq!(value(&g, 0, 0), 1);
    assert_eq!(value(&g, 1, 0), 2);
    assert_eq!(value(&g, 2, 0), 3);
    assert_eq!(value(&g, 3, 0), 0);
    assert_eq!(value(&g, 4, 0), 4);
    assert_eq!(value(&g, 5, 0), 0);
    assert_eq!(poss(&g, 3, 0), all_but(&[1, 2, 3, 4]));
}

#[test]
fn grid_from_string_ignores_non_digits() {
    let with_noise = Grid::from_string("a5b..0 0 | 7\n\t8 é9");
    let digits_only = Grid::from_string("500789");
    assert_eq!(snapshot(&with_noise), snapshot(&digits_only));
    assert_eq!(value(&with_noise, 0, 0), 5);
    assert_eq!(value(&with_noise, 3, 0), 7);
    assert_eq!(value(&with_noise, 5, 0), 9);
}

#[test]
fn grid_from_string_ignores_digits_after_the_81st() {
    let mut s = String::new();
    for _ in 0..81 {
        s.push('0');
    }
    let base = Grid::from_string(&s);
    s.push('5');
    let longer = Grid::from_string(&s);
    assert_eq!(snapshot(&base), snapshot(&longer));
    assert_eq!(snapshot(&base), snapshot(&Grid::new()));
}

#[test]
fn testdata_puzzles_hold_their_givens() {
    let g = TestData::simple();
    assert_eq!(value(&g, 0, 0), 3);
    assert_eq!(value(&g, 5, 0), 2);
    assert_eq!(value(&g, 6, 0), 9);
    assert_eq!(value(&g, 7, 0), 6);
    assert_eq!(value(&g, 1, 0), 0);
    let m = TestData::medium();
    assert_eq!(value(&m, 2, 0), 2);
    let h = TestData::hard();
    assert_eq!(value(&h, 0, 0), 1);
    assert_eq!(value(&h, 8, 8), 1);
    let e = TestData::expert();
    assert_eq!(value(&e, 4, 0), 5);
    assert_eq!(value(&e, 2, 8), 7);
    for p in [g, m, h, e] {
        assert_consistent(&p);
    }
}

// ----- Solver -----

#[test]
fn solve_completes_the_simple_puzzle() {
    let puzzle = TestData::simple();
    let mut g = TestData::simple();
    let iterations = Solver::solve(&mut g);
    assert!(iterations >= 2);
    assert!(fully_solved(&g));
    assert_consistent(&g);
    assert_keeps_givens(&puzzle, &g);
}

#[test]
fn solve_keeps_every_puzzle_consistent() {
    for puzzle in [TestData::simple(), TestData::medium(), TestData::hard(), TestData::expert()] {
        let snap = snapshot(&puzzle);
        let mut solved = puzzle;
        Solver::solve(&mut solved);
        assert_consistent(&solved);
        for y in 0..9 {
            for x in 0..9 {
                let (v, _) = &snap[(y * 9 + x) as usize];
                if *v > 0 {
                    assert_eq!(value(&solved, x, y), *v);
                }
            }
        }
    }
}

#[test]
fn solve_twice_changes_nothing() {
    let mut g = TestData::expert();
    Solver::solve(&mut g);
    let after = snapshot(&g);
    assert_eq!(Solver::solve(&mut g), 1);
    assert_eq!(snapshot(&g), after);
}

#[test]
fn solve_on_a_full_board_runs_one_round() {
    let mut g = TestData::simple();
    Solver::solve(&mut g);
    assert!(fully_solved(&g));
    let before = snapshot(&g);
    assert_eq!(Solver::solve(&mut g), 1);
    assert_eq!(snapshot(&g), before);
}

#[test]
fn naked_single_sets_the_only_candidate() {
    let mut g = Grid::new();
    for x in 1..9 {
        g.set_cell(x, 0, x + 1).unwrap();
    }
    assert_eq!(poss(&g, 0, 0), vec![1]);
    let mut changed = false;
    Solver::set_only_one_possibility_values(&mut g, &mut changed);
    assert!(changed);
    assert_eq!(value(&g, 0, 0), 1);
    let mut again = false;
    Solver::set_only_one_possibility_values(&mut g, &mut again);
    assert!(!again);
}

#[test]
fn hidden_single_in_row_sets_the_value() {
    let mut g = Grid::new();
    g.set_cell(3, 1, 9).unwrap();
    g.set_cell(6, 2, 9).unwrap();
    g.set_cell(1, 4, 9).unwrap();
    g.set_cell(2, 7, 9).unwrap();
    for x in 1..9 {
        assert!(!poss(&g, x, 0).contains(&9));
    }
    assert!(poss(&g, 0, 0).contains(&9));
    let mut changed = false;
    Solver::set_when_only_one_cell_in_row_supports_value(&mut g, &mut changed);
    assert!(changed);
    assert_eq!(value(&g, 0, 0), 9);
    assert_consistent(&g);
}

#[test]
fn hidden_single_in_column_sets_the_value() {
    let mut g = Grid::new();
    g.set_cell(1, 3, 9).unwrap();
    g.set_cell(2, 6, 9).unwrap();
    g.set_cell(4, 1, 9).unwrap();
    g.set_cell(7, 2, 9).unwrap();
    let mut changed = false;
    Solver::set_when_only_one_cell_in_column_supports_value(&mut g, &mut changed);
    assert!(changed);
    assert_eq!(value(&g, 0, 0), 9);
    assert_consistent(&g);
}

#[test]
fn hidden_single_in_block_sets_the_value() {
    let mut g = Grid::new();
    g.set_cell(5, 1, 9).unwrap();
    g.set_cell(8, 2, 9).unwrap();
    g.set_cell(1, 5, 9).unwrap();
    g.set_cell(2, 8, 9).unwrap();
    let mut changed = false;
    Solver::set_when_only_one_cell_in_block_supports_value(&mut g, &mut changed);
    assert!(changed);
    assert_eq!(value(&g, 0, 0), 9);
    assert_consistent(&g);
}

#[test]
fn no_hidden_single_on_an_empty_board() {
    let mut g = Grid::new();
    let before = snapshot(&g);
    let mut changed = false;
    Solver::set_when_only_one_cell_in_row_supports_value(&mut g, &mut changed);
    Solver::set_when_only_one_cell_in_column_supports_value(&mut g, &mut changed);
    Solver::set_when_only_one_cell_in_block_supports_value(&mut g, &mut changed);
    Solver::set_only_one_possibility_values(&mut g, &mut changed);
    assert!(!changed);
    assert_eq!(snapshot(&g), before);
}

fn keep_only(g: &mut Grid, x: i32, y: i32, keep: &[i32]) {
    for v in 1..=9 {
        if !keep.contains(&v) {
            g.remove_possibility(x, y, v);
        }
    }
}

#[test]
fn naked_pair_removes_the_pair_from_the_unit() {
    let mut g = Grid::new();
    keep_only(&mut g, 0, 0, &[1, 2]);
    keep_only(&mut g, 1, 0, &[2, 1]);
    let mut changed = false;
    Solver::reduce_naked_pairs_in_all_units(&mut g, &mut changed);
    assert!(changed);
    assert_eq!(poss(&g, 0, 0), vec![1, 2]);
    assert_eq!(poss(&g, 1, 0), vec![1, 2]);
    for x in 2..9 {
        assert_eq!(poss(&g, x, 0), all_but(&[1, 2]));
    }
    assert_eq!(poss(&g, 2, 1), all_but(&[1, 2]));
    assert_eq!(poss(&g, 0, 5), all_but(&[]));
    assert_eq!(poss(&g, 4, 4), all_but(&[]));
    let mut again = false;
    Solver::reduce_naked_pairs_in_all_units(&mut g, &mut again);
    assert!(!again);
}

#[test]
fn naked_triple_removes_the_three_values() {
    let mut g = Grid::new();
    keep_only(&mut g, 0, 0, &[1, 2]);
    keep_only(&mut g, 1, 0, &[2, 3]);
    keep_only(&mut g, 2, 0, &[1, 3]);
    let mut changed = false;
    Solver::reduce_naked_triples_in_all_units(&mut g, &mut changed);
    assert!(changed);
    for x in 3..9 {
        assert_eq!(poss(&g, x, 0), all_but(&[1, 2, 3]));
    }
    assert_eq!(poss(&g, 1, 2), all_but(&[1, 2, 3]));
    assert_eq!(poss(&g, 0, 0), vec![1, 2]);
    assert_eq!(poss(&g, 0, 4), all_but(&[]));
}

#[test]
fn hidden_pair_strips_other_candidates() {
    let mut g = Grid::new();
    for x in 2..9 {
        g.remove_possibility(x, 0, 1);
        g.remove_possibility(x, 0, 2);
    }
    let mut changed = false;
    Solver::reduce_hidden_pairs_in_all_units(&mut g, &mut changed);
    assert!(changed);
    assert_eq!(poss(&g, 0, 0), vec![1, 2]);
    assert_eq!(poss(&g, 1, 0), vec![1, 2]);
    assert_eq!(poss(&g, 5, 0), all_but(&[1, 2]));
    assert_eq!(poss(&g, 0, 1), all_but(&[]));
}

#[test]
fn pointing_pair_clears_the_rest_of_the_row() {
    let mut g = Grid::new();
    for x in 0..3 {
        g.remove_possibility(x, 1, 5);
        g.remove_possibility(x, 2, 5);
    }
    let mut changed = false;
    Solver::reduce_pointing_pairs(&mut g, &mut changed);
    assert!(changed);
    for x in 3..9 {
        assert!(!poss(&g, x, 0).contains(&5));
    }
    assert!(poss(&g, 0, 0).contains(&5));
    assert!(poss(&g, 4, 1).contains(&5));
}

#[test]
fn box_line_clears_the_rest_of_the_block() {
    let mut g = Grid::new();
    for x in 3..9 {
        g.remove_possibility(x, 0, 5);
    }
    let mut changed = false;
    Solver::reduce_box_line(&mut g, &mut changed);
    assert!(changed);
    for x in 0..3 {
        assert!(poss(&g, x, 0).contains(&5));
        assert!(!poss(&g, x, 1).contains(&5));
        assert!(!poss(&g, x, 2).contains(&5));
    }
    assert!(poss(&g, 4, 1).contains(&5));
}

#[test]
fn eliminations_leave_an_empty_board_alone() {
    let mut g = Grid::new();
    let before = snapshot(&g);
    let mut changed = false;
    Solver::reduce_naked_pairs_in_all_units(&mut g, &mut changed);
    Solver::reduce_naked_triples_in_all_units(&mut g, &mut changed);
    Solver::reduce_hidden_pairs_in_all_units(&mut g, &mut changed);
    Solver::reduce_pointing_pairs(&mut g, &mut changed);
    Solver::reduce_box_line(&mut g, &mut changed);
    assert!(!changed);
    assert_eq!(snapshot(&g), before);
}

#[test]
fn changed_flag_is_kept_when_already_set() {
    let mut g = Grid::new();
    let mut changed = true;
    Solver::reduce_naked_pairs_in_all_units(&mut g, &mut changed);
    assert!(changed);
}

// ----- Input and display -----

fn no_keys() -> FrameInput {
    FrameInput {
        digits: vec![false; 9],
        clear: false,
        escape: false,
        right: false,
        left: false,
        down: false,
        up: false,
    }
}

#[test]
fn frame_click_then_digit_sets_the_cell() {
    let mut g = Grid::new();
    let mut input = no_keys();
    input.digits[4] = true;
    let sel = apply_frame(&mut g, None, Some((2, 3)), &input);
    assert_eq!(sel, Some((2, 3)));
    assert_eq!(value(&g, 2, 3), 5);
}

#[test]
fn frame_keys_without_selection_do_nothing() {
    let mut g = Grid::new();
    let before = snapshot(&g);
    let mut input = no_keys();
    input.digits[0] = true;
    input.right = true;
    assert_eq!(apply_frame(&mut g, None, None, &input), None);
    assert_eq!(snapshot(&g), before);
}

#[test]
fn frame_arrows_move_and_stay_on_the_board() {
    let mut g = Grid::new();
    let mut right = no_keys();
    right.right = true;
    assert_eq!(apply_frame(&mut g, Some((3, 3)), None, &right), Some((4, 3)));
    assert_eq!(apply_frame(&mut g, Some((8, 3)), None, &right), Some((8, 3)));
    let mut left = no_keys();
    left.left = true;
    assert_eq!(apply_frame(&mut g, Some((0, 3)), None, &left), Some((0, 3)));
    let mut up = no_keys();
    up.up = true;
    assert_eq!(apply_frame(&mut g, Some((2, 0)), None, &up), Some((2, 0)));
    let mut down = no_keys();
    down.down = true;
    assert_eq!(apply_frame(&mut g, Some((2, 0)), None, &down), Some((2, 1)));
    let mut both = no_keys();
    both.right = true;
    both.down = true;
    assert_eq!(apply_frame(&mut g, Some((2, 2)), None, &both), Some((2, 3)));
}

#[test]
fn frame_escape_deselects_and_delete_clears() {
    let mut g = Grid::new();
    g.set_cell(1, 1, 6).unwrap();
    let mut input = no_keys();
    input.clear = true;
    input.escape = true;
    assert_eq!(apply_frame(&mut g, Some((1, 1)), None, &input), None);
    assert_eq!(value(&g, 1, 1), 0);
    assert_eq!(snapshot(&g), snapshot(&Grid::new()));
}

#[test]
fn cell_display_helpers() {
    assert_eq!(cell_char(0), ' ');
    assert_eq!(cell_char(7), '7');
    assert_eq!(cell_char(9).to_string(), "9");
    assert_eq!(cell_shade(0, true), Shade::Selected);
    assert_eq!(cell_shade(0, false), Shade::Empty);
    assert_eq!(cell_shade(3, false), Shade::Filled);
}

/// A complete board that follows the rules.
fn pattern_solution(x: i32, y: i32) -> i32 {
    (y * 3 + y / 3 + x) % 9 + 1
}

#[test]
fn solve_never_rules_out_the_solution() {
    let mut digits = String::new();
    for y in 0..9 {
        for x in 0..9 {
            if (x * 7 + y * 5) % 3 == 0 {
                digits.push_str(&pattern_solution(x, y).to_string());
            } else {
                digits.push('0');
            }
        }
    }
    let mut g = Grid::from_string(&digits);
    Solver::solve(&mut g);
    assert_consistent(&g);
    for y in 0..9 {
        for x in 0..9 {
            let s = pattern_solution(x, y);
            if value(&g, x, y) > 0 {
                assert_eq!(value(&g, x, y), s);
            } else {
                assert!(poss(&g, x, y).contains(&s));
            }
        }
    }
}

#[test]
fn pattern_is_a_solution() {
    for y in 0..9 {
        for x in 0..9 {
            for y2 in 0..9 {
                for x2 in 0..9 {
                    if (x, y) != (x2, y2) && same_house((x, y), (x2, y2)) {
                        assert_ne!(pattern_solution(x, y), pattern_solution(x2, y2));
                    }
                }
            }
        }
    }
}

fn is_increasing(p: &[i32]) -> bool {
    p.windows(2).all(|w| w[0] < w[1])
}

/// Every entry of `b` occurs in `a`, in the same order.
fn is_subsequence(b: &[i32], a: &[i32]) -> bool {
    let mut it = a.iter();
    b.iter().all(|x| it.any(|y| y == x))
}

#[test]
fn cell_candidates_stay_increasing() {
    let mut c = Cell::new();
    for w in [5, 1, 9, 5, 3] {
        c.remove_possibility(w);
        assert!(is_increasing(c.possibilities()));
        assert!(is_subsequence(c.possibilities(), &[1, 2, 3, 4, 5, 6, 7, 8, 9]));
    }
    assert_eq!(c.possibilities(), &vec![2, 4, 6, 7, 8]);
    c.set_value(7).unwrap();
    assert_eq!(c.possibilities(), &vec![7]);
    c.remove_possibility(7);
    assert_eq!(c.possibilities(), &vec![7]);
    c.clear();
    assert!(is_increasing(c.possibilities()));
}

#[test]
fn set_then_clear_gives_back_the_parsed_board() {
    for puzzle in [TestData::simple(), TestData::medium(), TestData::hard(), TestData::expert()] {
        let before = snapshot(&puzzle);
        let mut done = 0;
        for y in 0..9 {
            for x in 0..9 {
                if value(&puzzle, x, y) == 0 && done < 5 {
                    for v in 1..=9 {
                        let mut g = Grid::from_string(&grid_digits(&puzzle));
                        g.set_cell(x, y, v).unwrap();
                        g.clear_cell(x, y);
                        assert_eq!(snapshot(&g), before);
                    }
                    done += 1;
                }
            }
        }
        assert_eq!(done, 5);
    }
}

/// The values of a grid as a string of 81 digits.
fn grid_digits(g: &Grid) -> String {
    let mut s = String::new();
    for y in 0..9 {
        for x in 0..9 {
            s.push_str(&value(g, x, y).to_string());
        }
    }
    s
}

#[test]
fn solve_narrows_in_order_and_is_a_fixpoint_of_every_technique() {
    for puzzle in [TestData::simple(), TestData::medium(), TestData::hard(), TestData::expert()] {
        let before = snapshot(&puzzle);
        let mut g = Grid::from_string(&grid_digits(&puzzle));
        let rounds = Solver::solve(&mut g);
        assert!(1 <= rounds && rounds <= 811);
        let after = snapshot(&g);
        for n in 0..81 {
            assert!(is_increasing(&after[n].1));
            assert!(is_subsequence(&after[n].1, &before[n].1));
            if before[n].0 > 0 {
                assert_eq!(after[n], before[n]);
            } else if after[n].0 > 0 {
                assert!(before[n].1.contains(&after[n].0));
            }
        }
        let techniques: [fn(&mut Grid, &mut bool); 9] = [
            Solver::reduce_naked_pairs_in_all_units,
            Solver::reduce_naked_triples_in_all_units,
            Solver::reduce_hidden_pairs_in_all_units,
            Solver::reduce_pointing_pairs,
            Solver::reduce_box_line,
            Solver::set_only_one_possibility_values,
            Solver::set_when_only_one_cell_in_row_supports_value,
            Solver::set_when_only_one_cell_in_column_supports_value,
            Solver::set_when_only_one_cell_in_block_supports_value,
        ];
        for technique in techniques {
            let mut changed = false;
            technique(&mut g, &mut changed);
            assert!(!changed);
            assert_eq!(snapshot(&g), after);
        }
    }
}

#[test]
fn solve_counts_the_last_idle_round() {
    let mut g = TestData::simple();
    let rounds = Solver::solve(&mut g);
    assert!(rounds >= 2);
    let mut again = TestData::simple();
    let mut idle_rounds = 0;
    loop {
        let mut changed = false;
        Solver::reduce_naked_pairs_in_all_units(&mut again, &mut changed);
        Solver::reduce_naked_triples_in_all_units(&mut again, &mut changed);
        Solver::reduce_hidden_pairs_in_all_units(&mut again, &mut changed);
        Solver::reduce_pointing_pairs(&mut again, &mut changed);
        Solver::reduce_box_line(&mut again, &mut changed);
        Solver::set_only_one_possibility_values(&mut again, &mut changed);
        Solver::set_when_only_one_cell_in_row_supports_value(&mut again, &mut changed);
        Solver::set_when_only_one_cell_in_column_supports_value(&mut again, &mut changed);
        Solver::set_when_only_one_cell_in_block_supports_value(&mut again, &mut changed);
        idle_rounds += 1;
        if !changed {
            break;
        }
    }
    assert_eq!(rounds, idle_rounds);
    assert_eq!(snapshot(&g), snapshot(&again));
}

#[test]
fn rounds_one_at_a_time_match_solve() {
    for puzzle in [TestData::simple(), TestData::medium(), TestData::hard(), TestData::expert()] {
        let mut g = Grid::from_string(&grid_digits(&puzzle));
        let rounds = Solver::solve(&mut g);
        let mut stepped = Grid::from_string(&grid_digits(&puzzle));
        let mut count = 0;
        loop {
            count += 1;
            let before = snapshot(&stepped);
            let progress = Solver::run_round(&mut stepped);
            assert_eq!(progress, snapshot(&stepped) != before);
            if !progress {
                break;
            }
        }
        assert_eq!(count, rounds);
        assert_eq!(snapshot(&stepped), snapshot(&g));
        assert!(!Solver::run_round(&mut stepped));
    }
}
