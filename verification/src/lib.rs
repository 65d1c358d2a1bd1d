//! A solver and generator for 9x9 sudoku grids, by constraint propagation and
//! depth-first search.
//!
//! A [`Cell`] holds the digits that are still possible at one position, a
//! [`Sudoku`] the 81 cells of a grid. A grid is read from and written to a line
//! of text ([`text`]), simplified by two deduction rules until nothing changes
//! ([`propagate`]), and solved by a search that branches where the rules come to
//! a halt ([`search`]). Random grids with a solution are made in [`generate`].
//!
//! Every function is verified against a contract over the mathematical model of
//! a grid, the [`board::Board`]. The rules are stated on boards in [`rules`];
//! [`solved`] and [`guarantees`] prove what they and the search do to the
//! solutions of a board: the search yields the solutions of a grid, each of
//! them once, and nothing else.

pub mod board;
pub mod cell;
pub mod generate;
pub mod grid;
pub mod guarantees;
pub mod propagate;
pub mod rules;
pub mod search;
pub mod solved;
pub mod text;

pub use board::Group;
pub use cell::Cell;
pub use grid::Sudoku;
pub use search::SolutionsIter;
