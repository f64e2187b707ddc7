//! `fingertips` builds an inverted index for a corpus of plain-text documents.
//!
//! The crate holds the logic of the build and does no input or output itself:
//! documents come in as strings, index files go in and out as bytes, and the
//! cascade of merges is a state machine over file names whose steps the caller
//! carries out.

pub mod cascade;
pub mod endian;
pub mod error;
pub mod format;
pub mod index;
pub mod kway;
pub mod lex;
pub mod merge;
pub mod read;
pub mod roundtrip;
pub mod stages;
pub mod streams;
pub mod text;
pub mod tmp;
pub mod write;
