//! A Minesweeper game engine: a rectangular grid with a hidden set of mines,
//! driven by player actions (open, flag, chord-depress) and queried through a
//! derived cell-state grid. The engine is pure in-memory state; rendering and
//! input wiring live outside it.

pub mod minesweeper;
pub mod utils;
