//! A log-structured key-value store: the record codec, the index and
//! compaction bookkeeping of the storage engine, and the wire protocol and
//! decisions of its server and client. Files, sockets and threads belong to
//! the caller, which performs what these functions return.
pub mod codec;
pub mod engine;
mod error;
pub mod pool;
pub mod protocol;
pub mod server;

pub use engine::files::{construct_file, log_file_name, parse_log_id, FileEntry};
pub use engine::index::{CommandPos, CompactionPlan, LogFile, LogIndex, COMPACTION_THRESHOLD};
pub use engine::record::{encode_command, parse_command, read_value, Command};
pub use engine::KvsEngine;
pub use error::{KvStoreError, Result};
pub use pool::{PoolBook, Received, ThreadPool, WorkerAction};
pub use protocol::{GetResponse, Request, RmResponse, SetResponse};
pub use server::{EngineKind, KvsServer};
