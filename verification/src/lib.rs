//! An embedded, append-only columnar store for time-series observations keyed
//! by `(symbol, timestamp)`, whose central operation is a batched as-of join:
//! for each `(symbol, probe_timestamp)` pair, find the nearest prior
//! (`Backward`) or nearest subsequent (`Forward`) observation of that symbol.
//!
//! The verified core works on an in-memory catalog of date partitions; the
//! on-disk byte formats are produced and consumed here as plain byte vectors,
//! so that a thin unverified shell can persist them.

pub mod dates;
pub mod db;
pub mod error;
pub mod format;
pub mod ingest;
pub mod laws;
pub mod asof;
pub mod partition;
pub mod proto;
pub mod schema;
pub mod symbol_map;

pub use asof::AsofResult;
pub use db::{Db, PartitionFiles, TableInfo};
pub use error::ZolaError;
pub use format::{ColumnHeader, PartedEntry, SidecarEntry, SidecarHeader};
pub use partition::Partition;
pub use proto::{Reader, WireHeader};
pub use schema::{ColumnDef, ColumnType, Direction, Probes, Schema, NULL_F64_BITS, NULL_I64};
pub use symbol_map::SymbolMap;
