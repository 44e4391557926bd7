//! Move-by-move win detection for k-in-a-row games on a square board.

pub mod config;
pub mod game;
pub mod geometry;
pub mod ledger;
pub mod lines;
pub mod permutation;
pub mod rescan;
pub mod xorshift;
