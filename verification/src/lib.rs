//! A frequency histogram of reuse distances.
//!
//! `Hist` counts how often each distance, or the sentinel for an access
//! without a distance, was recorded; it hands the counts out as an ordered
//! snapshot, as an unordered listing and as a textual report. Its contracts
//! are stated over the bag of recorded values (`model`), the snapshot of a
//! bag (`snapshot`) and the text of a snapshot (`text`); `history` relates
//! the bag to the sequence of records that led to it.

pub mod hist;
pub mod history;
pub mod model;
pub mod snapshot;
mod sort;
pub mod text;

pub use hist::Hist;
