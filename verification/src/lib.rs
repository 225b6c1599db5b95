//! Line-oriented text search: split a text into lines and keep the lines
//! that contain a query, with or without regard to letter case.

pub mod config;
pub mod encoding;
pub mod fold;
pub mod lines;
pub mod occurrence;
pub mod search;

pub use config::{run, Config};
pub use lines::{next_line, split_lines};
pub use occurrence::str_contains;
pub use search::{search, search_case_insensitive, search_case_sensitive};
