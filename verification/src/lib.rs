//! Estimates how similar two files are.
//!
//! Two estimators are offered, which have nothing in common but their aim.
//!
//! The first compares the spans of two byte streams. [`spans`] says what the
//! spans of a stream are: its lines, and chunks of 64 bytes where a line is
//! longer. [`spanhash`] tallies the spans of a stream in a table. [`order`]
//! puts the spans of a table in order: by hash, as two tables are compared,
//! or with the largest first. [`diffcore`] counts the bytes that one table
//! has from another and scores the pair between zero and `MAX_SCORE`.
//!
//! The second compares two texts line by line. [`trigram`] takes the
//! three-byte windows of a line, [`matching`] finds for each line of the
//! destination text the lines of the source text that share enough of their
//! windows with it, and keeps them in a [`matchmap`]. [`runs`] joins matches
//! on consecutive lines into runs and reports for each destination line how
//! well the best run covers it, as an exact [`ratio`].
//!
//! [`members`] holds what both need to know of the members of a sequence.
pub mod diffcore;
pub mod matching;
pub mod matchmap;
pub mod members;
pub mod order;
pub mod ratio;
pub mod runs;
pub mod spanhash;
pub mod spans;
pub mod trigram;

pub use diffcore::{count_changes, estimate_similarity, MAX_SCORE, MIN_SCORE};
pub use runs::{find_runs, trigram_similarity};
pub use spanhash::{Spanhash, SpanhashTop};
pub use trigram::{make_trigrams, slice_to_trigram, DiffError, DiffResult};
