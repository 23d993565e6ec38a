//! Per-key minimum / average / maximum statistics over `<key>;<value>` lines.
//!
//! Values are held in fixed point (tenths), keys as opaque byte strings.
//! A file is cut into byte ranges; each range is aggregated on its own and
//! the partial results are merged, which gives the same result whatever the
//! number of ranges and whatever the order of the merges.
//!
//! A line is `<key>;<value>`: the key is every byte before the first `;`, the
//! value `-`? digits `.` digits. A value with more than one fractional digit
//! is rounded half up to tenths. A line that does not have this shape aborts
//! the whole run with a [`ParseError`]: no partial result is ever returned.

mod hashing;

pub mod parse;
pub mod aggregate;
pub mod format;
pub mod order;
pub mod aggregator;
pub mod reader;
pub mod parallel;

pub use aggregate::Aggregate;
pub use aggregator::MeasurementAggregator;
pub use parallel::{aggregate_chunks, plan_chunks, process_file, Task, MIN_CHUNK_SIZE};
pub use parse::{parse, parsei32, ParseError};
