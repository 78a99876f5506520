//! A fuzzy search engine over a changing list of texts such as file paths.
//!
//! The index keeps the texts, the engine ranks them against a query with the
//! `nucleo_matcher` crate, and the highlight module turns the matched
//! character positions into spans and renderable segments.

pub mod highlight;
pub mod index;
pub mod matcher;
pub mod navigation;
pub mod positions;
pub mod preview;
pub mod ranking;
pub mod search;

pub use highlight::{positions_fit, ranges_fit_text, segment, HighlightRange, SearchResult};
pub use index::SearchIndex;
pub use matcher::{CasePolicy, MAX_WORDS, MAX_WORD_LEN};
pub use search::{MatchResult, Search, MAX_RESULTS};
