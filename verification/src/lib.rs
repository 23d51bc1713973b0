//! A verified rules engine for two-player chess: the board and piece data
//! model, per-piece pseudo-legal move generation, move application with
//! capture and promotion, and detection of a king standing in check.
//!
//! The engine performs no input or output; a surrounding program owns the
//! turn loop, parses square texts through [`position::Position`], and drives
//! the [`board::Board`] it holds.

pub mod board;
pub mod piece;
pub mod position;
