//! Turns the output of `git status --short --branch` into what a shell prompt
//! shows: the branch, its distance from the remote it tracks, and how many files
//! are staged, in conflict, changed or untracked.
//!
//! - [`text`]: characters, runs, prefixes, trimming and decimal numbers.
//! - [`data`]: the values a parsed header is made of.
//! - [`grammar`]: the grammar of the header line, and what follows from it.
//! - [`branch_parse`]: the parsers of the header line.
//! - [`status_parse`]: the classifier of file lines and their tally.
//! - [`summary`]: header and tally joined into one record.

pub mod branch_parse;
pub mod data;
pub mod grammar;
pub mod status_parse;
pub mod summary;
pub mod text;
