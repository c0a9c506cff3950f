//! Log analysis for web-server access logs in the NCSA Common Log Format:
//! the line grammar, per-request tallies that merge in any order, and the
//! text the server and command line build from them.
pub mod text;
pub mod parse;
pub mod counts;
pub mod stats;
pub mod analyze;

pub use analyze::{analyze, analyze_str, split_lines, try_analyze};
pub use counts::{KeyCounts, TextCounts};
pub use parse::parse_line;
pub use stats::Stats;
pub mod sanitize;
pub mod json;
pub mod digest;
pub mod report;
pub mod ai;
pub mod cache;
pub mod prompt;
pub mod server;
pub mod synth;
pub use ai::{AiError, AiSummary};
pub use digest::hex_lower;
pub use report::{format_kv_sorted, format_top_n, sorted};
pub use sanitize::{sanitize, sanitize_filename, MAX_FIELD_LEN};
