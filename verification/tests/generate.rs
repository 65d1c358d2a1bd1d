use rand::SeedableRng;
use rand_xorshift::XorShiftRng;
use sudoku_rs::Sudoku;

fn free_cells(grid: &Sudoku) -> usize {
    let mut count = 0;
    for r in 0..9 {
        for c in 0..9 {
            if grid.cell(r, c).len() != 1 {
                count += 1;
            }
        }
    }
    count
}

#[test]
fn test_solvable_solution_fails_on_too_many_free_cells() {
    assert!(Sudoku::generate_solvable(&mut XorShiftRng::from_seed([0; 16]), 82).is_none());
}

#[test]
fn generate_refuses_more_than_81_free_cells() {
    let mut rng = XorShiftRng::from_seed([7; 16]);
    assert!(Sudoku::generate_solvable(&mut rng, 83).is_none());
    assert!(Sudoku::generate_solvable(&mut rng, usize::MAX).is_none());
    assert!(Sudoku::generate_solvable(&mut rng, 81).is_some());
}

#[test]
fn random_solvable_solutions_are_solvable() {
    for seed in 0..8u8 {
        let mut bytes = [seed; 16];
        bytes[3] = 200 - seed;
        let mut rng = XorShiftRng::from_seed(bytes);
        for free in 0..82usize {
            let sudoku = Sudoku::generate_solvable(&mut rng, free).unwrap();
            assert_eq!(free_cells(&sudoku), free);
            assert_eq!(sudoku.to_line().chars().filter(|c| *c == '.').count(), free);
            assert!(sudoku.first_solution().unwrap().is_solved());
        }
    }
}

#[test]
fn generated_grids_are_the_first_solution_with_cells_opened() {
    let solution = Sudoku::open_grid().first_solution().unwrap().to_line();
    let mut rng = XorShiftRng::from_seed([42; 16]);
    for free in [0, 1, 17, 40, 64, 80, 81] {
        let line = Sudoku::generate_solvable(&mut rng, free).unwrap().to_line();
        for (a, b) in line.chars().zip(solution.chars()) {
            assert!(a == '.' || a == b);
        }
    }
    let full = Sudoku::generate_solvable(&mut rng, 0).unwrap();
    assert!(full.is_solved());
    assert_eq!(full.to_line(), solution);
    let open = Sudoku::generate_solvable(&mut rng, 81).unwrap();
    assert_eq!(open, Sudoku::open_grid());
}

#[test]
fn a_seed_gives_the_same_grids_again() {
    let mut rng = XorShiftRng::from_seed([0; 16]);
    assert_eq!(
        Sudoku::generate_solvable(&mut rng, 40).unwrap().to_line(),
        ".8..543.165..219.7......6.4..9...2.5.....8..641..7..93.9.84516.56821.4...42.69.38"
    );
    assert_eq!(
        Sudoku::generate_solvable(&mut rng, 3).unwrap().to_line(),
        "9876543216543219873219876548794.62152351987464165728937938451.2568.13479142769538"
    );
    let mut rng = XorShiftRng::from_seed([1, 2, 3, 4, 5, 6, 7, 8, 9, 10, 11, 12, 13, 14, 15, 16]);
    assert_eq!(Sudoku::generate_solvable(&mut rng, 81).unwrap().to_line(), ".".repeat(81));
    assert_eq!(
        Sudoku::generate_solvable(&mut rng, 1).unwrap().to_line(),
        "98765432165432198.321987654879436215235198746416572893793845162568213479142769538"
    );
}

#[test]
fn open_cells_opens_the_picked_positions() {
    let solved = "346795812258431697971862543129576438835214769764389251517948326493627185682153974";
    let mut grid = Sudoku::from_line(solved).unwrap();
    // 0 is taken and 80 stands in its place; 80 is taken and 79 stands in its
    // place; 5 is taken and 78 stands in its place; 78 is taken
    grid.open_cells((0..81).collect(), &vec![0, 0, 5, 5]);
    let mut expected: Vec<char> = solved.chars().collect();
    for i in [0, 80, 5, 78] {
        expected[i] = '.';
    }
    assert_eq!(grid.to_line(), expected.into_iter().collect::<String>());
}

#[test]
fn open_cells_follows_the_order_of_the_positions() {
    let solved = "346795812258431697971862543129576438835214769764389251517948326493627185682153974";
    let mut grid = Sudoku::from_line(solved).unwrap();
    grid.open_cells(vec![40, 3, 77, 12], &vec![3, 1, 1]);
    // 12 is taken; of 40, 3, 77 the second is taken and 77 stands in its place;
    // of 40, 77 the second is taken
    let mut expected: Vec<char> = solved.chars().collect();
    for i in [12, 3, 77] {
        expected[i] = '.';
    }
    assert_eq!(grid.to_line(), expected.into_iter().collect::<String>());

    let mut grid = Sudoku::from_line(solved).unwrap();
    grid.open_cells(vec![40, 3, 77, 12], &vec![]);
    assert_eq!(grid.to_line(), solved);
}

#[test]
fn open_cells_may_open_a_cell_twice() {
    let solved = "346795812258431697971862543129576438835214769764389251517948326493627185682153974";
    let mut grid = Sudoku::from_line(solved).unwrap();
    grid.open_cells(vec![8, 8, 9], &vec![0, 1]);
    let mut expected: Vec<char> = solved.chars().collect();
    expected[8] = '.';
    assert_eq!(grid.to_line(), expected.into_iter().collect::<String>());
}
