use sudoku_rs::{Cell, Group, Sudoku};

const PUZZLE: &str =
    ".4....179..2..8.54..6..5..8.8..7.91..5..9..3..19.6..4.3..4..7..57.1..2..928....6.";

fn one_fixed() -> Sudoku {
    Sudoku::from_line(&format!("5{}", ".".repeat(80))).unwrap()
}

fn shares_group(r: usize, c: usize) -> bool {
    r == 0 || c == 0 || (r < 3 && c < 3)
}

fn without(digits: &[u16]) -> Cell {
    let mut cell = Cell::all_digits();
    for d in digits {
        cell.remove_digit(*d);
    }
    cell
}

#[test]
fn without_conflicts_takes_a_fixed_digit_from_its_peers() {
    let grid = one_fixed();
    let (after, changed) = grid.without_conflicts().unwrap();
    assert!(changed);
    for r in 0..9 {
        for c in 0..9 {
            let expected = if r == 0 && c == 0 {
                Cell::from_digit(5).unwrap()
            } else if shares_group(r, c) {
                without(&[5])
            } else {
                Cell::all_digits()
            };
            assert_eq!(after.cell(r, c), expected, "row {} column {}", r, c);
        }
    }

    let (again, changed) = after.without_conflicts().unwrap();
    assert!(!changed);
    assert_eq!(again, after);
}

#[test]
fn without_conflicts_reads_the_fixed_cells_of_the_grid_it_is_given() {
    // the cell at (0, 1) is left with the digit 1 alone, but it was not fixed
    // when the rule began, so the digit 1 is not taken from its peers
    let mut grid = Sudoku::open_grid();
    grid.set_cell(0, 0, Cell::from_digit(2).unwrap());
    grid.set_cell(0, 1, without(&[3, 4, 5, 6, 7, 8, 9]));
    let (after, changed) = grid.without_conflicts().unwrap();
    assert!(changed);
    assert_eq!(after.cell(0, 1), Cell::from_digit(1).unwrap());
    assert_eq!(after.cell(0, 2), without(&[2]));
    assert_eq!(after.cell(1, 1), without(&[2]));
    assert_eq!(after.cell(5, 1), Cell::all_digits());
}

#[test]
fn without_conflicts_fails_on_a_digit_twice_in_a_group() {
    for (r, c) in [(0, 7), (6, 0), (2, 2)] {
        let mut grid = one_fixed();
        grid.set_cell(r, c, Cell::from_digit(5).unwrap());
        assert!(grid.without_conflicts().is_none());
    }
    let mut grid = one_fixed();
    grid.set_cell(4, 4, Cell::from_digit(5).unwrap());
    assert!(grid.without_conflicts().is_some());
}

#[test]
fn without_conflicts_fails_on_an_empty_cell() {
    let mut grid = Sudoku::open_grid();
    grid.set_cell(7, 3, without(&[1, 2, 3, 4, 5, 6, 7, 8, 9]));
    assert!(grid.without_conflicts().is_none());
}

#[test]
fn without_conflicts_fails_when_a_cell_loses_its_last_candidate() {
    let mut grid = Sudoku::open_grid();
    grid.set_cell(0, 0, Cell::from_digit(1).unwrap());
    grid.set_cell(1, 1, Cell::from_digit(2).unwrap());
    grid.set_cell(0, 5, without(&[3, 4, 5, 6, 7, 8, 9]));
    grid.set_cell(1, 5, Cell::from_digit(2).unwrap());
    assert!(grid.without_conflicts().is_none());
}

#[test]
fn find_unambiguity_fixes_the_only_place_of_a_digit() {
    let mut grid = Sudoku::open_grid();
    for c in 0..9 {
        if c != 4 {
            grid.set_cell(0, c, without(&[7]));
        }
    }
    let before = grid.clone();

    // the column and the box of (0, 4) have other places for the digit 7
    assert!(!grid.find_unambiguity(7, Group::Col, 4));
    assert!(!grid.find_unambiguity(7, Group::Quad, 1));
    assert!(!grid.find_unambiguity(6, Group::Row, 0));
    assert!(!grid.find_unambiguity(7, Group::Row, 1));
    assert_eq!(grid, before);

    assert!(grid.find_unambiguity(7, Group::Row, 0));
    assert_eq!(grid.cell(0, 4), Cell::from_digit(7).unwrap());
    for r in 0..9 {
        for c in 0..9 {
            if r != 0 || c != 4 {
                assert_eq!(grid.cell(r, c), before.cell(r, c));
            }
        }
    }

    // the cell is fixed now: nothing is left to do
    let fixed = grid.clone();
    assert!(!grid.find_unambiguity(7, Group::Row, 0));
    assert_eq!(grid, fixed);
}

#[test]
fn find_unambiguity_works_on_columns_and_boxes() {
    let mut grid = Sudoku::open_grid();
    for r in 0..9 {
        if r != 6 {
            grid.set_cell(r, 2, without(&[3]));
        }
    }
    assert!(grid.find_unambiguity(3, Group::Col, 2));
    assert_eq!(grid.cell(6, 2), Cell::from_digit(3).unwrap());

    let mut grid = Sudoku::open_grid();
    for k in 0..9 {
        if k != 5 {
            grid.set_cell(3 + k / 3, 6 + k % 3, without(&[1]));
        }
    }
    assert!(!grid.find_unambiguity(1, Group::Quad, 4));
    assert!(grid.find_unambiguity(1, Group::Quad, 5));
    assert_eq!(grid.cell(4, 8), Cell::from_digit(1).unwrap());
}

#[test]
fn find_unambiguity_leaves_a_digit_without_a_place_alone() {
    let mut grid = Sudoku::open_grid();
    for c in 0..9 {
        grid.set_cell(2, c, without(&[9]));
    }
    let before = grid.clone();
    assert!(!grid.find_unambiguity(9, Group::Row, 2));
    assert_eq!(grid, before);
}

#[test]
fn find_unambiguities_goes_through_every_group_and_digit() {
    let mut grid = Sudoku::open_grid();
    for c in 0..9 {
        if c != 4 {
            grid.set_cell(0, c, without(&[7]));
        }
    }
    for r in 1..9 {
        if r != 6 {
            grid.set_cell(r, 2, without(&[3]));
        }
    }
    grid.set_cell(0, 2, without(&[3, 7]));
    let mut expected = grid.clone();
    expected.set_cell(0, 4, Cell::from_digit(7).unwrap());
    expected.set_cell(6, 2, Cell::from_digit(3).unwrap());

    assert!(grid.find_unambiguities());
    assert_eq!(grid, expected);
    assert!(!grid.find_unambiguities());
    assert_eq!(grid, expected);
}

#[test]
fn simplified_applies_the_first_rule_then_the_second() {
    // after the first rule the digit 5 has one place left in the second row
    let mut grid = Sudoku::open_grid();
    grid.set_cell(0, 0, Cell::from_digit(5).unwrap());
    for c in 3..8 {
        grid.set_cell(1, c, without(&[5]));
    }
    let (after, changed) = grid.simplified().unwrap();
    assert!(changed);
    assert_eq!(after.cell(1, 8), Cell::from_digit(5).unwrap());
    assert_eq!(after.cell(1, 0), without(&[5]));
    assert_eq!(after.cell(0, 8), without(&[5]));
    // the second rule does not take the new digit from its peers: the next round does
    assert_eq!(after.cell(2, 8), Cell::all_digits());
    let (next, changed) = after.simplified().unwrap();
    assert!(changed);
    assert_eq!(next.cell(2, 8), without(&[5]));
    assert_eq!(next.cell(8, 8), without(&[5]));
}

#[test]
fn simplified_reports_no_change_on_a_settled_grid() {
    let (after, changed) = Sudoku::open_grid().simplified().unwrap();
    assert!(!changed);
    assert_eq!(after, Sudoku::open_grid());
}

#[test]
fn simplified_fails_where_the_first_rule_fails() {
    let grid = Sudoku::from_line(&format!("55{}", ".".repeat(79))).unwrap();
    assert!(grid.simplified().is_none());
}

#[test]
fn propagate_settles_a_puzzle() {
    let grid = Sudoku::from_line(PUZZLE).unwrap();
    let settled = grid.propagate().unwrap();
    let (after, changed) = settled.simplified().unwrap();
    assert!(!changed);
    assert_eq!(after, settled);
    assert_eq!(
        settled.to_line(),
        "845632179732918654196745328683574912457291836219863547361429785574186293928357461"
    );
}

#[test]
fn propagating_twice_is_propagating_once() {
    for line in [
        PUZZLE,
        ".......12..8.3...........4.12.5..........47...6.......5.7...3.....62.......1.....",
        "..............3.85..1.2.......5.7.....4...1...9.......5......73..2.1........4...9",
        "8..2...46..79.....1.....5.....5...324.8...7.132...7.....6.....9.....32..28...6..3",
    ] {
        let once = Sudoku::from_line(line).unwrap().propagate().unwrap();
        let twice = once.clone().propagate().unwrap();
        assert_eq!(twice, once);
    }
    let open = Sudoku::open_grid().propagate().unwrap();
    assert_eq!(open, Sudoku::open_grid());
}

#[test]
fn propagate_fails_on_a_contradiction() {
    let grid = Sudoku::from_line(&format!("7.......7{}", ".".repeat(72))).unwrap();
    assert!(grid.propagate().is_none());
    // a contradiction that shows only after some rounds
    let grid = Sudoku::from_line(
        "12345678.........9...............................................................",
    )
    .unwrap();
    assert!(grid.propagate().is_none());
}
