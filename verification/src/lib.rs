//! Analytics over decoded activity records: value coercion, field lookup,
//! distance partitioning, aggregation, time in zones and resampling.
//!
//! Every sample value is kept as the integer or the IEEE-754 bit pattern it
//! was decoded as. The library decides which values take part in a statistic,
//! in which order, and under which units. The arithmetic and the comparisons
//! on the widened values are functions that the caller passes in.

pub mod error;
pub mod value;
pub mod record;
pub mod aggregate;
pub mod partition;
pub mod zones;
pub mod resample;
pub mod groups;
pub mod engine;
