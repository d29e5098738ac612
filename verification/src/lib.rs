//! Shared append-segment storage for the persistent state of Raft nodes.
//!
//! Durable records of one or more local Raft nodes go to shared append segment files. The
//! crate owns the storage format, recovery, replay, snapshot checkpoints, the node registry
//! and whole-segment garbage collection. Log entries are those of the `noraft` crate, and
//! the metadata of nodes is JSON text of the `nojson` crate.
//!
//! The crate does no I/O. A [`StorageEngine`] is opened on the contents of the files of a
//! storage directory; its write operations return [`Step`]s, which the caller carries out on
//! the files and reports back; its loads take the contents of the segments.
//!
//! # Modules
//!
//! - [`bytes`], [`raft`], [`record`], [`state`]: the data, and how records change the state of
//!   a node.
//! - [`crc32c`], [`format`], [`codec`]: the byte form of records; [`round_trip`] relates what
//!   is written to what is read, and [`layout`] says what stands where.
//! - [`segment`], [`scan`], [`replay`]: segments, passes over their records, and loads;
//!   [`frames`], [`history`], [`recovery`], [`integrity`] and [`loading`] say what passes and
//!   loads give back of what was written.
//! - [`json`], [`json_text`], [`decimal`], [`registry`], [`checkpoint_index`]: the metadata
//!   files.
//! - [`stats`], [`storage`]: statistics and the engine; [`durability`], [`operations`],
//!   [`crash`], [`reopen`] and [`policy`] say what holds of all its operations; [`saving`],
//!   [`collection`], [`syncing`], [`listing`] and [`counting`] say what each of them is for.

pub mod bytes;
pub mod checkpoint_index;
pub mod codec;
pub mod collection;
pub mod counting;
pub mod crash;
pub mod crc32c;
pub mod decimal;
pub mod durability;
pub mod error;
pub mod format;
pub mod frames;
pub mod history;
pub mod integrity;
pub mod json;
pub mod json_text;
pub mod layout;
pub mod listing;
pub mod loading;
pub mod operations;
pub mod ordered;
pub mod policy;
pub mod raft;
pub mod record;
pub mod recovery;
pub mod registry;
pub mod reopen;
pub mod replay;
pub mod round_trip;
pub mod saving;
pub mod scan;
pub mod segment;
pub mod state;
pub mod stats;
pub mod storage;
pub mod syncing;

pub use bytes::Bytes;
pub use error::{ErrorKind, StorageError};
pub use raft::{ClusterConfig, Log, LogEntry, LogIndex, LogPosition, NodeId, Term};
pub use record::{CommandPayload, LogAppend, Snapshot, SnapshotCheckpoint};
pub use registry::NodeMetadata;
pub use scan::Segment;
pub use segment::{RecordPosition, SegmentName};
pub use state::NodeState;
pub use stats::{OperationKindStats, RecordKindStats, RejectedOperationStats, StorageStats};
pub use storage::{Step, StorageEngine, SyncPolicy};
