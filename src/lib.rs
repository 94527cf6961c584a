//! A rule engine for the game of Go: a board of stones, the groups they form,
//! and the legality of moves under a configurable rule set.

mod board;
pub mod grid;
pub mod group;
pub mod laws;
mod result;
mod rule;
mod sgf;
mod stone;
pub mod util;

pub use board::Board;
pub use group::Group;
pub use stone::Stone;
pub use result::{Error, Result};
pub use rule::{IllegalMove, Rules};
pub use sgf::{SgfNode, SgfProp, SgfTree};
