//! Searches for a sequence of moves that earns many points.

pub mod bfs;
pub mod dfs;
pub mod mcrws;
pub mod tabucolor;
pub mod solution;
