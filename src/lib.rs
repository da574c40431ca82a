//! A Minesweeper board engine: mine placement with a safe first move, the reveal cascade,
//! chording and flag cycling, with the board's counters kept exact.
pub mod board;
pub mod count;
pub mod game;
pub mod grid;
pub mod laws;
pub mod options;
mod random;
pub mod sprites;
pub mod ui;
