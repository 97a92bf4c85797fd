//! A fortune-cookie corpus library: decoding fortune files, splitting them
//! into delimiter-separated quote entries, picking a quote at random with a
//! backward-scan fallback for degenerate entries, and searching the corpus
//! for plain-text or regex patterns.

pub mod cli;
pub mod colors;
pub mod decode;
pub mod fortune;
pub mod randnum;
pub mod search;
pub mod split;
