//! A persistent key-value store: an append-only log of checksummed records,
//! an in-memory index of the newest record of every key, and compaction,
//! served to clients by a protocol of lines.

pub mod engines;
pub mod entry;
pub mod error;
pub mod keydir;
pub mod lines;
pub mod names;
pub mod recovery;
pub mod request;
pub mod response;
pub mod server;
pub mod store;
pub mod wire;

pub use engines::KvsEngine;
pub use entry::{from_reader, to_writer, Entry, LogReader};
pub use error::KvsError;
pub use keydir::{EntryPos, KeyDir};
pub use lines::LineReader;
pub use names::{log_path, parse_generation, sorted_gen_list};
pub use recovery::{load, LogFile};
pub use request::Request;
pub use server::KvsServer;
pub use store::{KvStore, COMPACTION_THRESHOLD};
