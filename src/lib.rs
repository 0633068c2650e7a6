//! A tic-tac-toe engine on square boards of three to nine cells per side,
//! with scripted opponents that pick their moves from a read-only view.

pub mod board;
pub mod strategy;
pub mod game;
