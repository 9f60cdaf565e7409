//! Classic terminal games collection: the verified game logic, scoring,
//! rendering buffer and text helpers behind the Snake / Breakout / Tetris /
//! Plane / Gomoku terminal application.

pub mod canvas;
pub mod col;
pub mod text;
pub mod score;
pub mod input;
pub mod lang;
pub mod menu;
pub mod flow;
pub mod games;
mod rng;
