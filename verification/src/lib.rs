//! Splitting of candidate records.
//!
//! A candidate record is a single text string of the form
//! `<identifier>:<payload>`: the identifier is everything strictly before
//! the first delimiter, the payload everything after it, later delimiters
//! kept verbatim. This crate turns an ordered sequence of such records
//! into two aligned sequences, identifiers and payloads, rejecting a
//! missing or empty input and any element that is not text.

pub mod splitter;
