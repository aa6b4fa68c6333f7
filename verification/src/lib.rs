//! JadeDB: the verified core of an LSM-tree storage engine.
//!
//! Write path: WAL -> memtable -> ack. Flush: table -> fsync -> manifest -> drop WAL. The values that
//! the steps of `db` pass on hold them to this order.
//! Read path: memtable -> frozen memtables -> L0 (newest first) -> leveled tables.

pub mod checksum;
pub mod codec;
pub mod compact;
pub mod db;
pub mod error;
pub mod frame;
pub mod iter;
pub mod key;
pub mod laws;
pub mod manifest;
pub mod memtable;
pub mod model;
pub mod options;
pub mod snapshot;
pub mod sstable;
pub mod text;
pub mod tree;
pub mod version;
pub mod wal;

pub use db::{Db, DbStats};
pub use error::{Error, Result};
pub use options::{FsyncMode, Options};
pub use snapshot::Snapshot;
