//! A small line-oriented text search library.
//!
//! Given a query string and the full contents of a text file, `search`
//! returns the lines of the contents that contain the query as a literal
//! substring, either exactly or after lowercase folding of both sides.
//! `Config` resolves a command line into the query, the filename and the
//! matching mode.

pub mod config;
pub mod lines;
pub mod matching;
pub mod search;

pub use config::Config;
pub use matching::contains_substring;
pub use search::search;
