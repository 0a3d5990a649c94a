//! A minimal line-based substring search library.
//!
//! Given a query string and a block of text, `search` returns every line
//! of the text that contains the query as a literal, case-sensitive
//! substring, in order of appearance.  `Config` holds the parsed
//! command-line inputs (query and file name) that drive one search run.

mod config;
mod matcher;
mod runner;
mod text;

pub use config::Config;
pub use matcher::lemma_empty_contents_no_matches;
pub use matcher::lemma_empty_query_matches_all;
pub use matcher::lemma_matcher_sound_complete;
pub use matcher::matching_lines;
pub use matcher::matching_of;
pub use matcher::search;
pub use matcher::selection_of;
pub use runner::status_line;
pub use text::contains_substring;
pub use text::has_substring;
pub use text::lines_of;
pub use text::split_lines;
pub use text::strip_cr;
pub use text::substring_at;
pub use text::views_of;
