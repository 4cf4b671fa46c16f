//! The rules of Othello and the sequencing of its turns: a board of cells,
//! legal moves found by scanning the eight directions, moves that flip the
//! captured cells one write at a time, and a game that plays them out on a
//! clock.

pub mod board;
pub mod cell;
pub mod game;
pub mod movement;
