//! An embedded log-structured merge storage engine: the verified core.

pub mod agreement;
pub mod auth;
pub mod block_index;
pub mod bloom;
pub mod bytes;
pub mod cache;
pub mod calls;
pub mod changes;
pub mod codec;
pub mod collection;
pub mod durability;
pub mod engine;
pub mod error;
pub mod gc;
pub mod http;
pub mod jsondb;
pub mod lookup;
pub mod manifest;
pub mod memory;
pub mod memtable;
pub mod messages;
pub mod record;
pub mod scan;
pub mod server_config;
pub mod service;
pub mod sort;
pub mod sstable;
pub mod stats;
pub mod storage;
pub mod stress;
pub mod text;
pub mod udp;
pub mod versions;
pub mod wal;
pub mod write_worker;

pub use engine::Engine;
pub use error::{FlowError, Result};
pub use record::{
    Config, InternalRecord, KeyFilter, Op, Query, ReadOptions, Record, ScanRange, SyncMode,
};
pub use scan::ScanIterator;
pub use server_config::ServerConfig;
