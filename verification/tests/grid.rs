use sudoku_rs::{Cell, Group, Sudoku};

const SOLVED: &str =
    "346795812258431697971862543129576438835214769764389251517948326493627185682153974";

fn digits(cells: [Cell; 9]) -> Vec<u16> {
    cells.iter().map(|cell| cell.first_digit()).collect()
}

#[test]
fn row_gives_the_cells_of_a_row_by_column() {
    let grid = Sudoku::from_line(SOLVED).unwrap();
    assert_eq!(digits(grid.row(0)), vec![3, 4, 6, 7, 9, 5, 8, 1, 2]);
    assert_eq!(digits(grid.row(4)), vec![8, 3, 5, 2, 1, 4, 7, 6, 9]);
    assert_eq!(digits(grid.row(8)), vec![6, 8, 2, 1, 5, 3, 9, 7, 4]);
}

#[test]
fn col_gives_the_cells_of_a_column_by_row() {
    let grid = Sudoku::from_line(SOLVED).unwrap();
    assert_eq!(digits(grid.col(0)), vec![3, 2, 9, 1, 8, 7, 5, 4, 6]);
    assert_eq!(digits(grid.col(8)), vec![2, 7, 3, 8, 9, 1, 6, 5, 4]);
}

#[test]
fn quad_gives_the_cells_of_a_box_row_by_row() {
    let grid = Sudoku::from_line(SOLVED).unwrap();
    assert_eq!(digits(grid.quad(0, 0)), vec![3, 4, 6, 2, 5, 8, 9, 7, 1]);
    assert_eq!(digits(grid.quad(2, 1)), vec![3, 4, 6, 2, 5, 8, 9, 7, 1]);
    assert_eq!(digits(grid.quad(4, 7)), vec![4, 3, 8, 7, 6, 9, 2, 5, 1]);
    assert_eq!(digits(grid.quad(8, 8)), vec![3, 2, 6, 1, 8, 5, 9, 7, 4]);
}

#[test]
fn quad_of_gives_the_corner_of_the_box() {
    let grid = Sudoku::open_grid();
    assert_eq!(grid.quad_of(0, 0), (0, 0));
    assert_eq!(grid.quad_of(2, 5), (0, 3));
    assert_eq!(grid.quad_of(4, 4), (3, 3));
    assert_eq!(grid.quad_of(8, 6), (6, 6));
    assert_eq!(grid.quad_of(7, 2), (6, 0));
}

#[test]
fn group_positions_walk_rows_columns_and_boxes() {
    assert_eq!(Group::Row.position(3, 7), (3, 7));
    assert_eq!(Group::Col.position(3, 7), (7, 3));
    assert_eq!(Group::Quad.position(0, 0), (0, 0));
    assert_eq!(Group::Quad.position(4, 5), (4, 5));
    assert_eq!(Group::Quad.position(5, 4), (4, 7));
    assert_eq!(Group::Quad.position(8, 8), (8, 8));
    assert_eq!(Group::Quad.position(6, 2), (6, 2));
}

#[test]
fn cell_and_set_cell_read_and_write_one_position() {
    let mut grid = Sudoku::from_line(SOLVED).unwrap();
    assert_eq!(grid.cell(2, 3), Cell::from_digit(8).unwrap());
    grid.set_cell(2, 3, Cell::all_digits());
    assert_eq!(grid.cell(2, 3), Cell::all_digits());
    assert_eq!(grid.cell(2, 2), Cell::from_digit(1).unwrap());
    assert_eq!(grid.cell(3, 2), Cell::from_digit(9).unwrap());
}

#[test]
fn open_grid_has_every_candidate_everywhere() {
    let grid = Sudoku::open_grid();
    for r in 0..9 {
        for c in 0..9 {
            assert_eq!(grid.cell(r, c), Cell::all_digits());
        }
    }
    assert!(!grid.is_solved());
}

#[test]
fn a_solved_grid_is_solved() {
    assert!(Sudoku::from_line(SOLVED).unwrap().is_solved());
}

#[test]
fn a_grid_with_an_open_cell_is_not_solved() {
    let mut grid = Sudoku::from_line(SOLVED).unwrap();
    grid.set_cell(5, 5, Cell::all_digits());
    assert!(!grid.is_solved());
    let mut two = Cell::all_digits();
    for d in 1..=7 {
        two.remove_digit(d);
    }
    grid.set_cell(5, 5, two);
    assert!(!grid.is_solved());
}

#[test]
fn a_grid_with_an_empty_cell_is_not_solved() {
    let mut grid = Sudoku::from_line(SOLVED).unwrap();
    let mut empty = Cell::from_digit(1).unwrap();
    empty.remove_digit(1);
    grid.set_cell(0, 0, empty);
    assert!(!grid.is_solved());
}

#[test]
fn a_filled_grid_with_a_digit_twice_in_a_group_is_not_solved() {
    // the same digit twice in a row, in a column and in a box
    let mut grid = Sudoku::from_line(SOLVED).unwrap();
    grid.set_cell(0, 0, Cell::from_digit(4).unwrap());
    assert!(!grid.is_solved());

    // two rows exchanged inside a band: rows and boxes are complete, columns too
    let swapped = format!("{}{}{}", &SOLVED[9..18], &SOLVED[0..9], &SOLVED[18..]);
    assert!(Sudoku::from_line(&swapped).unwrap().is_solved());

    // two cells of a row exchanged: the row stays complete, the columns do not
    let mut grid = Sudoku::from_line(SOLVED).unwrap();
    let a = grid.cell(0, 0);
    let b = grid.cell(0, 8);
    grid.set_cell(0, 0, b);
    grid.set_cell(0, 8, a);
    assert!(!grid.is_solved());

    // every row and every column complete, the boxes not
    let shifted = "123456789234567891345678912456789123567891234678912345789123456891234567912345678";
    assert!(!Sudoku::from_line(shifted).unwrap().is_solved());
}

#[test]
fn a_copy_is_equal_to_the_grid() {
    let grid = Sudoku::from_line(SOLVED).unwrap();
    let copy = grid.clone();
    assert_eq!(copy, grid);
    assert_ne!(copy, Sudoku::open_grid());
}
