//! Minute-by-minute presence tracking: a delta-compressed hour block, the
//! codec between it and sixty per-minute snapshots, and the queries that run
//! over ranges of minutes.

pub mod average;
pub mod category;
pub mod codec;
pub mod hour;
pub mod laws;
pub mod model;
pub mod presence;
pub mod range;
pub mod sets;
pub mod store;
pub mod tracker;
pub mod utils;

pub use hour::{AbsRecord, Hour, Record};
