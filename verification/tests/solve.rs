use sudoku_rs::{Cell, Sudoku};

const PUZZLE: &str =
    ".4....179..2..8.54..6..5..8.8..7.91..5..9..3..19.6..4.3..4..7..57.1..2..928....6.";

#[test]
fn test_solve_1() {
    let sudoku = Sudoku::from_line(
        ".4....179..2..8.54..6..5..8.8..7.91..5..9..3..19.6..4.3..4..7..57.1..2..928....6.",
    )
    .unwrap();
    assert!(sudoku.first_solution().unwrap().is_solved());

    let sudoku = Sudoku::from_line(
        "8.2.5.7.1..7.8246..1.9.....6....18325.......91843....6.....4.2..9561.3..3.8.9.6.7",
    )
    .unwrap();
    assert!(sudoku.first_solution().unwrap().is_solved());

    let sudoku = Sudoku::from_line(
        "........772.3.9..1..87.5.6.5.289.....4.5.1.9.....637.5.3.9.61..2..1.7.539........",
    )
    .unwrap();
    assert!(sudoku.first_solution().unwrap().is_solved());
}

#[test]
fn test_solve_2() {
    let sudoku = Sudoku::from_line(
        "2.6....49.37..9...1..7....6...58.9..7.5...8.4..9.62...9....4..1...3..49.41....2.8",
    )
    .unwrap();
    assert!(sudoku.first_solution().unwrap().is_solved());

    let sudoku = Sudoku::from_line(
        ".25..7..4..1..5.2.7...2.5..5.9..48.............75..6.9..3.7...6.4.1..7..8..2..91.",
    )
    .unwrap();
    assert!(sudoku.first_solution().unwrap().is_solved());

    let sudoku = Sudoku::from_line(
        "..1725....8..1...625....13..7....5.....1.6.....9....8..45....297...9..6....6483..",
    )
    .unwrap();
    assert!(sudoku.first_solution().unwrap().is_solved());
}

#[test]
fn test_solve_3() {
    let sudoku = Sudoku::from_line(
        ".5.2.....3....5.8.96..782......3..2.7.8...1.3.4..8......164..32.7.5....1.....9.5.",
    )
    .unwrap();
    assert!(sudoku.first_solution().unwrap().is_solved());

    let sudoku = Sudoku::from_line(
        "8..2...46..79.....1.....5.....5...324.8...7.132...7.....6.....9.....32..28...6..3",
    )
    .unwrap();
    assert!(sudoku.first_solution().unwrap().is_solved());

    let sudoku = Sudoku::from_line(
        "..1725....8..1....25....13..7....5.....186.....9....8..45....29....9..6....6483..",
    )
    .unwrap();
    assert!(sudoku.first_solution().unwrap().is_solved());
}

#[test]
fn test_solve_4() {
    let sudoku = Sudoku::from_line(
        "346795812258431697971862543129576438835214769764389251517948326493627185682153974",
    )
    .unwrap();
    assert!(sudoku.first_solution().unwrap().is_solved());

    let sudoku = Sudoku::from_line(
        ".......12..8.3...........4.12.5..........47...6.......5.7...3.....62.......1.....",
    )
    .unwrap();
    assert!(sudoku.first_solution().unwrap().is_solved());
}

#[test]
fn first_solution_of_a_known_puzzle() {
    let solution = Sudoku::from_line(PUZZLE).unwrap().first_solution().unwrap();
    assert!(solution.is_solved());
    assert_eq!(
        solution.to_line(),
        "845632179732918654196745328683574912457291836219863547361429785574186293928357461"
    );
}

#[test]
fn a_solution_keeps_the_fixed_cells_of_the_puzzle() {
    for line in [
        PUZZLE,
        ".......12..8.3...........4.12.5..........47...6.......5.7...3.....62.......1.....",
        "..1725....8..1....25....13..7....5.....186.....9....8..45....29....9..6....6483..",
    ] {
        let puzzle = Sudoku::from_line(line).unwrap();
        let mut solutions = puzzle.solutions();
        let mut count = 0;
        while let Some(solution) = solutions.next() {
            assert!(solution.is_solved());
            for r in 0..9 {
                for c in 0..9 {
                    if puzzle.cell(r, c).len() == 1 {
                        assert_eq!(solution.cell(r, c), puzzle.cell(r, c));
                    }
                }
            }
            count += 1;
            if count == 50 {
                break;
            }
        }
        assert!(count >= 1);
    }
}

#[test]
fn the_only_solution_is_yielded_once() {
    let puzzle = Sudoku::from_line(
        ".......12..8.3...........4.12.5..........47...6.......5.7...3.....62.......1.....",
    )
    .unwrap();
    let mut solutions = puzzle.solutions();
    assert_eq!(
        solutions.next().unwrap().to_line(),
        "346795812258431697971862543129576438835214769764389251517948326493627185682153974"
    );
    assert!(solutions.next().is_none());
    assert!(solutions.next().is_none());
}

#[test]
fn a_solved_grid_is_its_own_only_solution() {
    let grid = Sudoku::from_line(
        "346795812258431697971862543129576438835214769764389251517948326493627185682153974",
    )
    .unwrap();
    let mut solutions = grid.solutions();
    assert_eq!(solutions.next().unwrap(), grid);
    assert!(solutions.next().is_none());
}

#[test]
fn the_greatest_candidate_is_tried_first() {
    let first = Sudoku::open_grid().first_solution().unwrap();
    assert_eq!(
        first.to_line(),
        "987654321654321987321987654879436215235198746416572893793845162568213479142769538"
    );
}

#[test]
fn all_solutions_come_in_the_order_of_the_search() {
    // a solved grid with the four cells of a rectangle opened that can be filled
    // in two ways: two rows of one band that hold the same two digits, exchanged,
    // in the same two columns
    let solved = "987654321654321987321987654879436215235198746416572893793845162568213479142769538";
    let mut grid = Sudoku::from_line(solved).unwrap();
    let mut found = None;
    'search: for r1 in 0..9 {
        for r2 in (r1 + 1)..9 {
            if r1 / 3 != r2 / 3 {
                continue;
            }
            for c1 in 0..9 {
                for c2 in (c1 + 1)..9 {
                    if grid.cell(r1, c1) == grid.cell(r2, c2)
                        && grid.cell(r1, c2) == grid.cell(r2, c1)
                    {
                        found = Some((r1, r2, c1, c2));
                        break 'search;
                    }
                }
            }
        }
    }
    let (r1, r2, c1, c2) = found.unwrap();
    let high = grid.cell(r1, c1).first_digit().max(grid.cell(r1, c2).first_digit());
    for (r, c) in [(r1, c1), (r1, c2), (r2, c1), (r2, c2)] {
        grid.set_cell(r, c, Cell::all_digits());
    }
    let mut solutions = grid.solutions();
    let first = solutions.next().unwrap();
    let second = solutions.next().unwrap();
    assert!(solutions.next().is_none());
    assert!(first.is_solved() && second.is_solved());
    assert_ne!(first, second);
    // the first open cell is fixed to its greatest candidate first
    assert_eq!(first.cell(r1, c1).first_digit(), high);
    assert_ne!(second.cell(r1, c1).first_digit(), high);
}

#[test]
fn the_same_digit_twice_in_a_row_has_no_solution() {
    let grid = Sudoku::from_line(&format!("1.......1{}", ".".repeat(72))).unwrap();
    assert!(grid.first_solution().is_none());
    let mut solutions = grid.solutions();
    assert!(solutions.next().is_none());
    assert!(solutions.next().is_none());

    let grid = Sudoku::from_line(&format!("{}.33......", ".".repeat(72))).unwrap();
    assert!(grid.solutions().next().is_none());
}

#[test]
fn the_same_digit_twice_in_a_column_or_box_has_no_solution() {
    let grid = Sudoku::from_line(&format!("4{}4{}", ".".repeat(26), ".".repeat(53))).unwrap();
    assert!(grid.first_solution().is_none());
    let grid = Sudoku::from_line(&format!("4{}4{}", ".".repeat(10), ".".repeat(69))).unwrap();
    assert!(grid.first_solution().is_none());
}

#[test]
fn a_puzzle_without_solution_yields_nothing() {
    // no conflict between fixed cells, but no place for the digit 9 in the first row
    let grid = Sudoku::from_line(
        "12345678.........9...............................................................",
    )
    .unwrap();
    assert!(grid.first_solution().is_none());
}

#[test]
fn pick_cell_takes_the_first_cell_with_the_fewest_candidates() {
    let mut two = Cell::all_digits();
    for d in 3..=9 {
        two.remove_digit(d);
    }
    let mut three = two;
    three.remove_digit(1);
    let mut other = Cell::all_digits();
    for d in 1..=7 {
        other.remove_digit(d);
    }

    let mut grid = Sudoku::open_grid();
    assert_eq!(grid.pick_cell(), Some((0, 0, Cell::all_digits())));
    grid.set_cell(5, 5, other);
    assert_eq!(grid.pick_cell(), Some((5, 5, other)));
    grid.set_cell(3, 7, two);
    assert_eq!(grid.pick_cell(), Some((3, 7, two)));
    grid.set_cell(3, 8, other);
    assert_eq!(grid.pick_cell(), Some((3, 7, two)));
    // fixed and empty cells are passed over
    grid.set_cell(0, 0, three);
    grid.set_cell(0, 1, Cell::from_digit(4).unwrap());
    assert_eq!(three.len(), 1);
    assert_eq!(grid.pick_cell(), Some((3, 7, two)));
    let mut empty = three;
    empty.remove_digit(2);
    grid.set_cell(0, 2, empty);
    assert_eq!(grid.pick_cell(), Some((3, 7, two)));
}

#[test]
fn pick_cell_finds_nothing_on_a_filled_grid() {
    let grid = Sudoku::from_line(
        "346795812258431697971862543129576438835214769764389251517948326493627185682153974",
    )
    .unwrap();
    assert_eq!(grid.pick_cell(), None);
}
