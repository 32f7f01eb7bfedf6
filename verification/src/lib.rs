//! A two-player chess rules engine.
//!
//! The engine owns the authoritative board state, enumerates the
//! destination tiles a piece may move to (pseudo-legal moves), filters
//! those moves for king safety while in check, and commits moves with
//! turn alternation and check recomputation.  Rendering, input mapping
//! and asset loading are the host's business and live outside this crate.

pub mod pieces;
pub mod board;
pub mod moves;
pub mod check;
pub mod laws;
