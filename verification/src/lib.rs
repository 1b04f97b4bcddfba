//! Streaming near-duplicate detection over sparse vectors.
//!
//! Every incoming vector is matched against the vectors of a sliding window:
//! an inverted index proposes candidates, each candidate gets a cosine
//! distance, and the closest one under a threshold is reported.
//!
//! Weights and distances are carried as the IEEE-754 bit patterns of doubles.
//! The arithmetic on them is the caller's; the bookkeeping lives here.

pub mod candidates;
pub mod detector;
pub mod model;
pub mod neighbor;
pub mod postings;
pub mod record;
pub mod scatter;
pub mod vector;
pub mod window;
