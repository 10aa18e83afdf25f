//! Rules engine for the game of Go: a board that applies legal moves,
//! captures groups that lose their last liberty, rejects suicide and
//! simple-ko moves, and supports exact undo.

pub mod board;
pub mod geometry;
pub mod group;
pub mod randomplay;
