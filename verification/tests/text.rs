use sudoku_rs::{Cell, Sudoku};

const SOLVED: &str =
    "346795812258431697971862543129576438835214769764389251517948326493627185682153974";

const PUZZLE: &str =
    ".4....179..2..8.54..6..5..8.8..7.91..5..9..3..19.6..4.3..4..7..57.1..2..928....6.";

#[test]
fn from_line_reads_digits_and_dots() {
    let grid = Sudoku::from_line(PUZZLE).unwrap();
    assert_eq!(grid.cell(0, 0), Cell::all_digits());
    assert_eq!(grid.cell(0, 1), Cell::from_digit(4).unwrap());
    assert_eq!(grid.cell(0, 8), Cell::from_digit(9).unwrap());
    assert_eq!(grid.cell(1, 0), Cell::all_digits());
    assert_eq!(grid.cell(1, 2), Cell::from_digit(2).unwrap());
    assert_eq!(grid.cell(8, 0), Cell::from_digit(9).unwrap());
    assert_eq!(grid.cell(8, 7), Cell::from_digit(6).unwrap());
    assert_eq!(grid.cell(8, 8), Cell::all_digits());
}

#[test]
fn from_line_refuses_a_wrong_length() {
    assert!(Sudoku::from_line("").is_none());
    assert!(Sudoku::from_line(&SOLVED[..80]).is_none());
    assert!(Sudoku::from_line(&format!("{}1", SOLVED)).is_none());
    assert!(Sudoku::from_line(&format!("{}.", PUZZLE)).is_none());
    assert!(Sudoku::from_line(&".".repeat(80)).is_none());
    assert!(Sudoku::from_line(&".".repeat(82)).is_none());
    assert!(Sudoku::from_line(&".".repeat(81)).is_some());
}

#[test]
fn from_line_refuses_a_zero() {
    let line = format!("0{}", &SOLVED[1..]);
    assert!(Sudoku::from_line(&line).is_none());
    let line = format!("{}0", &PUZZLE[..80]);
    assert!(Sudoku::from_line(&line).is_none());
}

#[test]
fn from_line_refuses_other_characters() {
    for bad in ["a", "Z", " ", "-", "_", ",", "\n", "/", ":", "é", "٣"] {
        let line = format!("{}{}{}", &SOLVED[..40], bad, &SOLVED[41..]);
        assert_eq!(line.chars().count(), 81);
        assert!(Sudoku::from_line(&line).is_none(), "{:?}", bad);
    }
}

#[test]
fn to_line_writes_digits_for_fixed_cells_and_dots_for_the_rest() {
    assert_eq!(Sudoku::from_line(PUZZLE).unwrap().to_line(), PUZZLE);
    assert_eq!(Sudoku::open_grid().to_line(), ".".repeat(81));

    let mut grid = Sudoku::from_line(SOLVED).unwrap();
    let mut two = Cell::all_digits();
    for d in 3..=9 {
        two.remove_digit(d);
    }
    grid.set_cell(0, 2, two);
    let mut none = two;
    none.remove_digit(1);
    none.remove_digit(2);
    grid.set_cell(8, 8, none);
    let line = grid.to_line();
    assert_eq!(line, format!("34.{}.", &SOLVED[3..80]));
}

#[test]
fn solved_line_round_trips() {
    let grid = Sudoku::from_line(SOLVED).unwrap();
    assert!(grid.is_solved());
    assert_eq!(grid.to_line(), SOLVED);
    assert_eq!(Sudoku::from_line(&grid.to_line()).unwrap(), grid);

    let solution = Sudoku::from_line(PUZZLE).unwrap().first_solution().unwrap();
    assert_eq!(Sudoku::from_line(&solution.to_line()).unwrap(), solution);
}
