//! Monte-Carlo tournament outcome engine: ranking with a cut, per-competitor
//! statistics, per-worker accumulation and merging, and normalization.
pub mod laws;
pub mod player;
pub mod ranking;
pub mod sim;
