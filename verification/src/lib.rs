//! Bombicat: the logic of a minesweeper with cats.
//!
//! `grid` holds the geometry of the board and the counting lemmas,
//! `model` the board model and the pieces of grid generation,
//! `solver` the no-guess solver, `symmetry` its answer under rotations and
//! mirrors of the board, `game` the rules of a game in progress,
//! `editor` the grid editor, `settings` the difficulty levels and `scores`
//! the high-score record.

pub mod grid;
pub mod model;
pub mod solver;
pub mod symmetry;
pub mod settings;
pub mod scores;
pub mod game;
pub mod text;
pub mod editor;
pub mod ui;
