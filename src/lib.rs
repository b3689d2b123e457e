//! A recommender that picks the next map to play from a catalog, steering away
//! from recently played maps and their close relatives.
//!
//! The history of plays is folded into a per-candidate penalty state in
//! fixed-point arithmetic (`scoring`). The caller shapes each state into a
//! score; the scores are clamped, ranked and normalized (`ranking`), and a
//! fixed number of distinct maps is drawn by weighted sampling without
//! replacement (`sampler`). The catalog is validated from plain field values
//! (`catalog`), and the play log is read and written line by line (`play_log`).

pub mod mode;
pub mod catalog;
pub mod scoring;
pub mod ranking;
pub mod sampler;
pub mod text;
pub mod play_log;
pub mod menu;
