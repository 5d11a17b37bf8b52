//! Verified core of a small Markdown knowledge-base server: article listing,
//! configuration, request validation, rate limiting and search.

pub mod text;
pub mod order;
pub mod articles;
pub mod config;
pub mod rate_limit;
pub mod api;
pub mod watch;
pub mod search_index;
pub mod search;
