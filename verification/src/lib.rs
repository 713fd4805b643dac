//! Collection of coding-session histories and the statistics of a daily report.

pub mod clock;
pub mod decisions;
pub mod filter;
pub mod focus;
pub mod history;
pub mod json;
pub mod limits;
pub mod lists;
pub mod messages;
pub mod opencode;
pub mod order;
pub mod output;
pub mod projects;
pub mod session;
pub mod stats;
pub mod summary;
pub mod tally;
pub mod text;
