//! Resolves a 32-bit address to a geographic location: a codec between
//! dotted-decimal text and 32-bit values, a parser for bulk-insert dump text,
//! and an ordered range store queried through two equivalent plans.

pub mod text;
pub mod codec;
pub mod record;
pub mod parser;
pub mod stats;
pub mod store;

pub use codec::string_to_ip;
pub use codec::ip_to_string;
pub use codec::CodecError;
pub use record::RangeRecord;
pub use parser::DumpError;
pub use parser::parse_dump;
pub use store::RangeStore;
pub use store::QueryPlan;
pub use store::choose_plan;
pub use store::PLAN_PIVOT;
pub use store::BATCH_ROWS;
pub use parser::PREAMBLE_LINES;
pub use stats::LatencyStats;
pub use stats::summarize;
