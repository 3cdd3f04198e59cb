//! Project-file injection and API call logging.

pub mod agentsee;
pub mod api_log;
pub mod clock;
pub mod conversation;
pub mod inject;
pub mod matching;
pub mod number;
pub mod order;
pub mod pattern;
pub mod plan;
pub mod text;
pub mod workspace;
