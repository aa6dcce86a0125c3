//! Merges a transcript's consecutive, overlapping lines into one continuous
//! text stream, then removes duplicate words from that stream under a
//! selectable policy.
//!
//! The line merger finds, for each line, the longest suffix of the previous
//! line that is a prefix of the current one, and appends only the remainder;
//! the word deduplicator filters the resulting tokens either against the
//! immediately preceding kept token or against every token kept so far.

pub mod deduplicator;
pub mod errors;
pub mod subsequence;
pub mod text;
pub mod tokenizer;
pub mod transcript_manager;
