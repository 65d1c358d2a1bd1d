//! Grids as lines of text: 81 characters, row by row, a digit for a fixed cell
//! and a dot for any other.

use vstd::prelude::*;
use crate::board::{Board, board_wf, in_grid, solved, lemma_singleton};
use crate::cell::{Cell, all_digits, top_digit};
use crate::grid::Sudoku;

verus! {

/// The characters of a line: the dot and the digits 1 to 9.
pub open spec fn valid_char(c: char) -> bool {
    c == '.' || ('1' <= c && c <= '9')
}

/// A line that stands for a grid: 81 valid characters.
pub open spec fn valid_line(s: Seq<char>) -> bool {
    s.len() == 81 && forall|i: int| 0 <= i < 81 ==> valid_char(#[trigger] s[i])
}

/// The candidates that a character stands for: all of them for the dot, the
/// digit alone for a digit.
pub open spec fn char_cell(c: char) -> Set<int> {
    if c == '.' {
        all_digits()
    } else {
        set![c as int - '0' as int]
    }
}

/// The board that a line stands for.
pub open spec fn parse(s: Seq<char>) -> Board {
    Seq::new(9, |r: int| Seq::new(9, |c: int| char_cell(s[9 * r + c])))
}

/// The character written for a digit.
pub open spec fn digit_char(d: int) -> char {
    (d + '0' as int) as char
}

/// The character written for a cell: its digit where it is fixed, else the dot.
pub open spec fn cell_char(s: Set<int>) -> char {
    if s.len() == 1 {
        digit_char(top_digit(s))
    } else {
        '.'
    }
}

/// The line written for a board.
pub open spec fn line_of(b: Board) -> Seq<char> {
    Seq::new(81, |i: int| cell_char(b[i / 9][i % 9]))
}

/// Writing a solved grid out and reading the line back gives the grid again.
pub proof fn lemma_round_trip(b: Board)
    requires
        board_wf(b),
        solved(b),
    ensures
        valid_line(line_of(b)),
        parse(line_of(b)) == b,
{
    let line = line_of(b);
    vstd::set_lib::lemma_int_range(1, 10);
    assert forall|r: int, c: int| in_grid(r, c) implies valid_char(#[trigger] line[9 * r + c])
        && char_cell(line[9 * r + c]) == b[r][c] by {
        let i = 9 * r + c;
        assert(i / 9 == r && i % 9 == c);
        let s = b[r][c];
        assert(s.subset_of(all_digits()));
        assert(s.len() == 1);
        let d = s.choose();
        assert(s.contains(d));
        lemma_singleton(s, d);
        assert(all_digits().contains(d));
        assert(line[i] == digit_char(d));
    }
    assert forall|i: int| 0 <= i < 81 implies valid_char(#[trigger] line[i]) by {
        assert(i == 9 * (i / 9) + i % 9);
        assert(in_grid(i / 9, i % 9));
        assert(valid_char(line[9 * (i / 9) + i % 9]));
    }
    assert forall|r: int| 0 <= r < 9 implies #[trigger] parse(line)[r] == b[r] by {
        assert forall|c: int| 0 <= c < 9 implies #[trigger] parse(line)[r][c] == b[r][c] by {
            assert(in_grid(r, c));
            assert(char_cell(line[9 * r + c]) == b[r][c]);
        }
        assert(parse(line)[r] =~= b[r]);
    }
    assert(parse(line) =~= b);
}

/// The value of a decimal digit character.
fn decimal_digit(c: char) -> (r: Option<u16>)
    ensures
        r is Some <==> '0' <= c && c <= '9',
        r matches Some(d) ==> d == c as int - '0' as int,
{
    if c >= '0' && c <= '9' {
        Some((c as u32 - '0' as u32) as u16)
    } else {
        None
    }
}

/// The text written for a digit.
fn digit_str(d: u16) -> (s: &'static str)
    requires
        1 <= d <= 9,
    ensures
        s@ == seq![digit_char(d as int)],
{
    proof {
        reveal_strlit("1");
        reveal_strlit("2");
        reveal_strlit("3");
        reveal_strlit("4");
        reveal_strlit("5");
        reveal_strlit("6");
        reveal_strlit("7");
        reveal_strlit("8");
        reveal_strlit("9");
    }
    let s = match d {
        1 => "1",
        2 => "2",
        3 => "3",
        4 => "4",
        5 => "5",
        6 => "6",
        7 => "7",
        8 => "8",
        _ => "9",
    };
    assert(s@ =~= seq![digit_char(d as int)]);
    s
}

impl Sudoku {
    /// Reads a grid from a line of 81 characters: a dot leaves a cell open, a digit
    /// from 1 to 9 fixes it. Any other line is refused.
    pub fn from_line(line: &str) -> (r: Option<Self>)
        ensures
            r is Some <==> valid_line(line@),
            r matches Some(g) ==> g.wf() && g@ == parse(line@),
    {
        if line.unicode_len() != 81 {
            return None;
        }
        let mut grid = Sudoku::open_grid();
        for i in 0..81usize
            invariant
                line@.len() == 81,
                grid.wf(),
                forall|j: int| 0 <= j < i ==> valid_char(#[trigger] line@[j]),
                forall|r: int, c: int|
                    in_grid(r, c) && 9 * r + c < i ==> #[trigger] grid@[r][c] == char_cell(
                        line@[9 * r + c],
                    ),
        {
            let c = line.get_char(i);
            let cell = if c == '.' {
                Cell::all_digits()
            } else {
                let d = match decimal_digit(c) {
                    Some(d) => d,
                    None => {
                        assert(!valid_char(line@[i as int]));
                        return None;
                    },
                };
                match Cell::from_digit(d) {
                    Some(cell) => cell,
                    None => {
                        assert(!valid_char(line@[i as int]));
                        return None;
                    },
                }
            };
            let ghost before = grid@;
            grid.set_cell(i / 9, i % 9, cell);
            proof {
                assert(cell@ == char_cell(line@[i as int]));
                assert forall|r: int, c: int| in_grid(r, c) && 9 * r + c < i + 1 implies
                    #[trigger] grid@[r][c]
                    == char_cell(line@[9 * r + c]) by {
                    if r == i / 9 && c == i % 9 {
                        assert(9 * r + c == i);
                    } else {
                        assert(9 * r + c != i);
                        assert(grid@[r][c] == before[r][c]);
                    }
                }
            }
        }
        proof {
            let b = parse(line@);
            assert forall|r: int| 0 <= r < 9 implies #[trigger] grid@[r] == b[r] by {
                assert forall|c: int| 0 <= c < 9 implies #[trigger] grid@[r][c] == b[r][c] by {
                    assert(in_grid(r, c));
                }
                assert(grid@[r] =~= b[r]);
            }
            assert(grid@ =~= b);
        }
        Some(grid)
    }

    /// Writes the grid as a line of 81 characters: its digit for a fixed cell, a
    /// dot for any other.
    pub fn to_line(&self) -> (line: String)
        requires
            self.wf(),
        ensures
            line@ == line_of(self@),
    {
        let mut line = String::new();
        for i in 0..81usize
            invariant
                self.wf(),
                line@.len() == i,
                forall|j: int| 0 <= j < i ==> #[trigger] line@[j] == cell_char(self@[j / 9][j % 9]),
        {
            let cell = self.cell(i / 9, i % 9);
            if cell.len() == 1 {
                let d = cell.first_digit();
                proof {
                    cell.lemma_view_bounds();
                    lemma_singleton(cell@, d as int);
                }
                line.append(digit_str(d));
            } else {
                proof {
                    reveal_strlit(".");
                }
                line.append(".");
            }
        }
        assert(line@ =~= line_of(self@));
        line
    }
}

} // verus!
