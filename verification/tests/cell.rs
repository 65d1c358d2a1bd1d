use sudoku_rs::Cell;

#[test]
fn from_digit_accepts_one_to_nine_only() {
    assert!(Cell::from_digit(0).is_none());
    assert!(Cell::from_digit(10).is_none());
    assert!(Cell::from_digit(16).is_none());
    assert!(Cell::from_digit(u16::MAX).is_none());
    for d in 1..=9 {
        let cell = Cell::from_digit(d).unwrap();
        assert_eq!(cell.len(), 1);
        assert_eq!(cell.first_digit(), d);
        for e in 0..16 {
            assert_eq!(cell.has_digit(e), e == d);
        }
    }
}

#[test]
fn all_digits_holds_the_nine_digits() {
    let cell = Cell::all_digits();
    assert_eq!(cell.len(), 9);
    assert!(!cell.is_empty());
    assert!(!cell.has_digit(0));
    for d in 1..=9 {
        assert!(cell.has_digit(d));
    }
    for d in 10..16 {
        assert!(!cell.has_digit(d));
    }
}

#[test]
fn first_digit_is_the_greatest_candidate() {
    let mut cell = Cell::all_digits();
    assert_eq!(cell.first_digit(), 9);
    cell.remove_digit(9);
    assert_eq!(cell.first_digit(), 8);
    cell.remove_digit(8);
    cell.remove_digit(3);
    assert_eq!(cell.first_digit(), 7);
    assert_eq!(cell.len(), 6);
    for d in 4..=7 {
        cell.remove_digit(d);
    }
    assert_eq!(cell.first_digit(), 2);
    assert_eq!(cell.len(), 2);
}

#[test]
fn remove_digit_takes_one_candidate_away() {
    let mut cell = Cell::all_digits();
    cell.remove_digit(4);
    assert_eq!(cell.len(), 8);
    assert!(!cell.has_digit(4));
    assert!(cell.has_digit(3) && cell.has_digit(5));
}

#[test]
fn removing_an_absent_digit_changes_nothing() {
    let mut cell = Cell::from_digit(6).unwrap();
    let before = cell;
    cell.remove_digit(2);
    assert_eq!(cell, before);
    cell.remove_digit(0);
    assert_eq!(cell, before);
    cell.remove_digit(12);
    assert_eq!(cell, before);
}

#[test]
fn a_cell_without_candidates_is_empty() {
    let mut cell = Cell::from_digit(6).unwrap();
    assert!(!cell.is_empty());
    cell.remove_digit(6);
    assert!(cell.is_empty());
    assert_eq!(cell.len(), 0);
    let mut cell = Cell::all_digits();
    for d in 1..=9 {
        assert_eq!(cell.len(), 10 - u32::from(d));
        cell.remove_digit(d);
    }
    assert!(cell.is_empty());
}

#[test]
fn cells_with_the_same_candidates_are_equal() {
    let mut a = Cell::all_digits();
    for d in 1..=9 {
        if d != 3 {
            a.remove_digit(d);
        }
    }
    assert_eq!(a, Cell::from_digit(3).unwrap());
    assert_ne!(a, Cell::from_digit(4).unwrap());
}
