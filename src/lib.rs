//! A persistent key-value store kept in append-only segment files, with an
//! in-memory index and online compaction, and the framed request/response
//! protocol that serves it over TCP.
//!
//! The library decides and checks; the caller moves bytes. `LogCore` says
//! which record to append where, where a key's record lies, which records
//! compaction copies and which segments it leaves behind; the caller does
//! the file operations in between and reports each one back.
pub mod codec;
pub mod engine;
pub mod error;
pub mod index;
pub mod json;
pub mod protocol;
pub mod segment;
pub mod store;

pub use codec::{decode_ops, encode_ops, Ops};
pub use engine::{handle_command, serve_request, Engine, KvsEngine};
pub use error::{KVError, KVErrorKind};
pub use index::CommandPos;
pub use protocol::{Command, Response};
pub use segment::{log_file_name, log_path, parse_log_name, sorted_gen_list};
pub use store::{value_from_record, CompactionPlan, LogCore, COMPACTION_THRESHOLD};
