//! A pattern language for renaming batches of files.
//!
//! A *matching pattern* decides which file names qualify and captures
//! substrings from them; a *replacement pattern* reassembles the captured
//! substrings, together with literal text, into a new name.  The crate is a
//! pure library: parsing, matching and name generation are deterministic
//! functions over strings, with no I/O.

pub mod matcher;
pub mod matching_pattern;
pub mod name_generator;
pub mod renamer;
pub mod replacement_pattern;
