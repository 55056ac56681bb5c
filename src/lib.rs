//! Web access-log indexing: a line grammar that turns log text into records,
//! an index of records by path and by day that merges without losing offsets,
//! and ranked reports computed from such an index.

pub mod record;
pub mod text;
pub mod order;
pub mod index;
pub mod stats;
pub mod parse;
pub mod filter;
pub mod ingest;

pub use filter::RecordFilter;
pub use index::LogIndex;
pub use record::{Config, Record, Timestamp};
