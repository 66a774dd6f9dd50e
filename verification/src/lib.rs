//! Per-key, per-day download counting with a bounded recent-history query.
//!
//! The store keeps at most one counter row per (key, day) pair. The write
//! path performs a race-tolerant "create or increment" that never propagates
//! a store failure to its caller; the read path serves a fixed-length,
//! optionally gap-filled daily time series and propagates failures normally.

pub mod date;
pub mod history;
pub mod model;
pub mod routes;
pub mod store;

pub use crate::date::Day;
pub use crate::history::DownloadEntry;
pub use crate::history::HistoryError;
pub use crate::store::Store;
