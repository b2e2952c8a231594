//! A bitboard engine for 8x8 Othello/Reversi.
//!
//! A board holds two disjoint 64-bit occupancy sets, one per color, where bit
//! `y * 8 + x` stands for the cell in column `x` of row `y`. The engine
//! answers where a color may legally play and applies a move by flipping the
//! captured run of opposing stones in each of the eight compass directions.

pub mod bits;
pub mod board;

pub use board::Board;
pub use board::Color;
