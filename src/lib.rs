//! Per-station minimum / mean / maximum over `name;temperature` records,
//! computed over line-aligned partitions of a byte buffer and merged.
pub mod aggregate;
pub mod laws;
pub mod order;
pub mod partition;
pub mod record;
pub mod render;
pub mod stats;
pub mod summary;
pub mod table;

pub use aggregate::{aggregate_range, SummaryError};
pub use order::compare_bytes;
pub use partition::{partition, PartitionRange};
pub use record::{parse_record, parse_temperature};
pub use render::{mean_tenths, render};
pub use summary::{aggregate_all, compute_and_format, merge_range_results, summarize};
pub use table::{StationEntry, StationStat, StationTable};
