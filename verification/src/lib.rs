//! SameGame on a 15×15 field: the rules of the game as a verified state
//! machine, and solvers that search its states.
//!
//! - [`grid`] holds the geometry of the field and the mathematical
//!   vocabulary of the contracts; [`region`] the groups of tiles that a move
//!   removes; [`board`] the game itself.
//! - [`flood`], [`scan`] and [`settle`] hold the reasoning behind the
//!   collection of one region, the scan for all moves, and the falling of
//!   tiles and closing of columns.
//! - [`game`] speaks of sequences of moves, [`laws`] states what holds of
//!   the game whatever the field.
//! - [`solvers`] holds the searches, [`solver`] the one offered by default;
//!   [`cache`] and [`chance`] are what they take from outside crates.
//! - [`text`] writes a list of moves.

pub mod grid;
pub mod region;
pub mod flood;
pub mod scan;
pub mod settle;
pub mod board;
pub mod text;
pub mod game;
pub mod laws;
pub mod cache;
pub mod chance;
pub mod solver;
pub mod solvers;
