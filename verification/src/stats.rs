//! Storage statistics.

use crate::decimal::u64_to_decimal;
use crate::json_text::ObjectWriter;
use vstd::prelude::*;

verus! {

use crate::decimal::decimal;
use crate::json_text::{compact, object_text, Members};

/// The kind of a segment record.
#[derive(Debug, Clone, Copy, PartialEq, Eq, Structural)]
pub enum RecordKindMetric {
    /// A current-term record.
    CurrentTerm,
    /// A voted-for record.
    VotedFor,
    /// A log append record.
    LogAppend,
    /// A snapshot checkpoint record.
    SnapshotCheckpoint,
}

/// The operations that need an active node.
#[derive(Debug, Clone, Copy, PartialEq, Eq, Structural)]
pub enum StorageOperationKind {
    /// `StorageEngine::load`.
    Load,
    /// `StorageEngine::save_current_term`.
    SaveCurrentTerm,
    /// `StorageEngine::save_voted_for`.
    SaveVotedFor,
    /// `StorageEngine::append_entries`.
    AppendEntries,
    /// `StorageEngine::save_snapshot`.
    SaveSnapshot,
    /// `StorageEngine::remove_node`.
    RemoveNode,
}

/// Why an operation on a node was rejected.
#[derive(Debug, Clone, Copy, PartialEq, Eq, Structural)]
pub enum NodeAccessErrorKind {
    /// The node has not been created.
    UnknownNode,
    /// The node has been removed.
    RemovedNode,
}

/// Counters stay at their maximum instead of wrapping around.
pub open spec fn sat_add(counter: u64, value: u64) -> u64 {
    if counter + value > u64::MAX {
        u64::MAX
    } else {
        (counter + value) as u64
    }
}

fn increment(counter: &mut u64, value: u64)
    ensures
        *final(counter) == sat_add(*old(counter), value),
{
    *counter = counter.saturating_add(value);
}

/// Statistics keyed by segment record kind.
#[derive(Debug, Clone, Copy, PartialEq, Eq, Structural)]
pub struct RecordKindStats {
    /// Current-term records.
    pub current_term: u64,
    /// Voted-for records.
    pub voted_for: u64,
    /// Log append records.
    pub log_append: u64,
    /// Snapshot checkpoint records.
    pub snapshot_checkpoint: u64,
}

impl Default for RecordKindStats {
    fn default() -> (stats: Self)
        ensures
            stats == RecordKindStats::zero(),
    {
        Self {
            current_term: 0,
            voted_for: 0,
            log_append: 0,
            snapshot_checkpoint: 0,
        }
    }
}

impl RecordKindStats {
    /// Nothing counted yet.
    pub open spec fn zero() -> Self {
        Self {
            current_term: 0,
            voted_for: 0,
            log_append: 0,
            snapshot_checkpoint: 0,
        }
    }

    /// The members of the JSON object, in order.
    pub open spec fn json_members(self) -> Members {
        seq![
            ("current_term"@, decimal(self.current_term as nat)),
            ("voted_for"@, decimal(self.voted_for as nat)),
            ("log_append"@, decimal(self.log_append as nat)),
            ("snapshot_checkpoint"@, decimal(self.snapshot_checkpoint as nat)),
        ]
    }

    /// The JSON text.
    pub open spec fn json(self) -> Seq<char> {
        object_text(compact(), self.json_members())
    }

    /// Returns these statistics as a JSON object on one line.
    pub fn to_string(&self) -> (text: String)
        ensures
            text@ == self.json(),
    {
        let mut writer = ObjectWriter::compact();
        writer.member("current_term", u64_to_decimal(self.current_term).as_str());
        writer.member("voted_for", u64_to_decimal(self.voted_for).as_str());
        writer.member("log_append", u64_to_decimal(self.log_append).as_str());
        writer.member("snapshot_checkpoint", u64_to_decimal(self.snapshot_checkpoint).as_str());
        assert(writer.members() =~= self.json_members());
        writer.finish()
    }
}

impl RecordKindStats {
    /// The statistics after counting `value` for `kind`.
    pub open spec fn counting(self, kind: RecordKindMetric, value: u64) -> Self {
        match kind {
            RecordKindMetric::CurrentTerm => Self {
                current_term: sat_add(self.current_term, value),
                ..self
            },
            RecordKindMetric::VotedFor => Self { voted_for: sat_add(self.voted_for, value), ..self },
            RecordKindMetric::LogAppend => Self { log_append: sat_add(self.log_append, value), ..self },
            RecordKindMetric::SnapshotCheckpoint => Self {
                snapshot_checkpoint: sat_add(self.snapshot_checkpoint, value),
                ..self
            },
        }
    }

    fn increment(&mut self, kind: RecordKindMetric, value: u64)
        ensures
            *final(self) == old(self).counting(kind, value),
    {
        match kind {
            RecordKindMetric::CurrentTerm => increment(&mut self.current_term, value),
            RecordKindMetric::VotedFor => increment(&mut self.voted_for, value),
            RecordKindMetric::LogAppend => increment(&mut self.log_append, value),
            RecordKindMetric::SnapshotCheckpoint => increment(&mut self.snapshot_checkpoint, value),
        }
    }
}

/// Statistics keyed by storage operation kind.
#[derive(Debug, Clone, Copy, PartialEq, Eq, Structural)]
pub struct OperationKindStats {
    /// `StorageEngine::load` rejections.
    pub load: u64,
    /// `StorageEngine::save_current_term` rejections.
    pub save_current_term: u64,
    /// `StorageEngine::save_voted_for` rejections.
    pub save_voted_for: u64,
    /// `StorageEngine::append_entries` rejections.
    pub append_entries: u64,
    /// `StorageEngine::save_snapshot` rejections.
    pub save_snapshot: u64,
    /// `StorageEngine::remove_node` rejections.
    pub remove_node: u64,
}

impl Default for OperationKindStats {
    fn default() -> (stats: Self)
        ensures
            stats == OperationKindStats::zero(),
    {
        Self {
            load: 0,
            save_current_term: 0,
            save_voted_for: 0,
            append_entries: 0,
            save_snapshot: 0,
            remove_node: 0,
        }
    }
}

impl OperationKindStats {
    /// Nothing counted yet.
    pub open spec fn zero() -> Self {
        Self {
            load: 0,
            save_current_term: 0,
            save_voted_for: 0,
            append_entries: 0,
            save_snapshot: 0,
            remove_node: 0,
        }
    }

    /// The members of the JSON object, in order.
    pub open spec fn json_members(self) -> Members {
        seq![
            ("load"@, decimal(self.load as nat)),
            ("save_current_term"@, decimal(self.save_current_term as nat)),
            ("save_voted_for"@, decimal(self.save_voted_for as nat)),
            ("append_entries"@, decimal(self.append_entries as nat)),
            ("save_snapshot"@, decimal(self.save_snapshot as nat)),
            ("remove_node"@, decimal(self.remove_node as nat)),
        ]
    }

    /// The JSON text.
    pub open spec fn json(self) -> Seq<char> {
        object_text(compact(), self.json_members())
    }

    /// Returns these statistics as a JSON object on one line.
    pub fn to_string(&self) -> (text: String)
        ensures
            text@ == self.json(),
    {
        let mut writer = ObjectWriter::compact();
        writer.member("load", u64_to_decimal(self.load).as_str());
        writer.member("save_current_term", u64_to_decimal(self.save_current_term).as_str());
        writer.member("save_voted_for", u64_to_decimal(self.save_voted_for).as_str());
        writer.member("append_entries", u64_to_decimal(self.append_entries).as_str());
        writer.member("save_snapshot", u64_to_decimal(self.save_snapshot).as_str());
        writer.member("remove_node", u64_to_decimal(self.remove_node).as_str());
        assert(writer.members() =~= self.json_members());
        writer.finish()
    }
}

impl OperationKindStats {
    /// The statistics after counting one `operation`.
    pub open spec fn counting(self, operation: StorageOperationKind) -> Self {
        match operation {
            StorageOperationKind::Load => Self { load: sat_add(self.load, 1), ..self },
            StorageOperationKind::SaveCurrentTerm => Self { save_current_term: sat_add(self.save_current_term, 1), ..self },
            StorageOperationKind::SaveVotedFor => Self { save_voted_for: sat_add(self.save_voted_for, 1), ..self },
            StorageOperationKind::AppendEntries => Self { append_entries: sat_add(self.append_entries, 1), ..self },
            StorageOperationKind::SaveSnapshot => Self { save_snapshot: sat_add(self.save_snapshot, 1), ..self },
            StorageOperationKind::RemoveNode => Self { remove_node: sat_add(self.remove_node, 1), ..self },
        }
    }

    fn increment(&mut self, operation: StorageOperationKind)
        ensures
            *final(self) == old(self).counting(operation),
    {
        match operation {
            StorageOperationKind::Load => increment(&mut self.load, 1),
            StorageOperationKind::SaveCurrentTerm => increment(&mut self.save_current_term, 1),
            StorageOperationKind::SaveVotedFor => increment(&mut self.save_voted_for, 1),
            StorageOperationKind::AppendEntries => increment(&mut self.append_entries, 1),
            StorageOperationKind::SaveSnapshot => increment(&mut self.save_snapshot, 1),
            StorageOperationKind::RemoveNode => increment(&mut self.remove_node, 1),
        }
    }
}

/// Rejected operation statistics.
#[derive(Debug, Clone, Copy, PartialEq, Eq, Structural)]
pub struct RejectedOperationStats {
    /// Operations rejected because the node has not been created.
    pub unknown_nodes: OperationKindStats,
    /// Operations rejected because the node has been removed.
    pub removed_nodes: OperationKindStats,
}

impl Default for RejectedOperationStats {
    fn default() -> (stats: Self)
        ensures
            stats == RejectedOperationStats::zero(),
    {
        Self {
            unknown_nodes: OperationKindStats::default(),
            removed_nodes: OperationKindStats::default(),
        }
    }
}

impl RejectedOperationStats {
    /// Nothing counted yet.
    pub open spec fn zero() -> Self {
        Self {
            unknown_nodes: OperationKindStats::zero(),
            removed_nodes: OperationKindStats::zero(),
        }
    }

    /// The members of the JSON object, in order.
    pub open spec fn json_members(self) -> Members {
        seq![
            ("unknown_nodes"@, self.unknown_nodes.json()),
            ("removed_nodes"@, self.removed_nodes.json()),
        ]
    }

    /// The JSON text.
    pub open spec fn json(self) -> Seq<char> {
        object_text(compact(), self.json_members())
    }

    /// Returns these statistics as a JSON object on one line.
    pub fn to_string(&self) -> (text: String)
        ensures
            text@ == self.json(),
    {
        let mut writer = ObjectWriter::compact();
        writer.member("unknown_nodes", self.unknown_nodes.to_string().as_str());
        writer.member("removed_nodes", self.removed_nodes.to_string().as_str());
        assert(writer.members() =~= self.json_members());
        writer.finish()
    }
}

impl RejectedOperationStats {
    /// The statistics after counting one rejected `operation`.
    pub open spec fn counting(self, operation: StorageOperationKind, error: NodeAccessErrorKind) -> Self {
        match error {
            NodeAccessErrorKind::UnknownNode => Self {
                unknown_nodes: self.unknown_nodes.counting(operation),
                ..self
            },
            NodeAccessErrorKind::RemovedNode => Self {
                removed_nodes: self.removed_nodes.counting(operation),
                ..self
            },
        }
    }

    fn increment(&mut self, operation: StorageOperationKind, error: NodeAccessErrorKind)
        ensures
            *final(self) == old(self).counting(operation, error),
    {
        match error {
            NodeAccessErrorKind::UnknownNode => self.unknown_nodes.increment(operation),
            NodeAccessErrorKind::RemovedNode => self.removed_nodes.increment(operation),
        }
    }
}

/// Runtime storage counters and gauges.
#[derive(Debug, Clone, Copy, PartialEq, Eq, Structural)]
pub struct StorageStats {
    /// Segment records written by record kind.
    pub records_written: RecordKindStats,
    /// Segment frame bytes written by record kind.
    pub bytes_written: RecordKindStats,
    /// Segment records replayed by record kind.
    pub records_replayed: RecordKindStats,
    /// Segment frame bytes replayed by record kind.
    pub bytes_replayed: RecordKindStats,
    /// Number of append segment rotations.
    pub segment_rotations: u64,
    /// Number of explicit segment synchronization requests.
    pub syncs: u64,
    /// Number of successful durable data synchronizations.
    pub durable_syncs: u64,
    /// Number of partial trailing records truncated during recovery or replay.
    pub replay_truncations: u64,
    /// Number of segment record checksum failures.
    pub checksum_failures: u64,
    /// Number of nodes created successfully.
    pub nodes_created: u64,
    /// Number of nodes removed successfully.
    pub nodes_removed: u64,
    /// Rejected node operations.
    pub rejected_operations: RejectedOperationStats,
    /// Number of user snapshot checkpoints saved successfully.
    pub snapshot_checkpoints_saved: u64,
    /// Number of whole-segment garbage collection runs.
    pub gc_runs: u64,
    /// Number of append segment files deleted by garbage collection.
    pub gc_segments_deleted: u64,
    /// Number of active registered nodes.
    pub active_nodes: u64,
    /// Number of removed registered nodes.
    pub removed_nodes: u64,
    /// Number of active checkpoint index entries.
    pub checkpoint_index_nodes: u64,
    /// Active append segment ID.
    pub active_append_segment_id: u64,
    /// Active append segment length in bytes.
    pub active_append_segment_len_bytes: u64,
    /// Records written after the last durable data synchronization.
    pub unsynced_records: u64,
    /// Bytes written after the last durable data synchronization.
    pub unsynced_bytes: u64,
}

impl Default for StorageStats {
    fn default() -> (stats: Self)
        ensures
            stats == StorageStats::zero(),
    {
        Self {
            records_written: RecordKindStats::default(),
            bytes_written: RecordKindStats::default(),
            records_replayed: RecordKindStats::default(),
            bytes_replayed: RecordKindStats::default(),
            segment_rotations: 0,
            syncs: 0,
            durable_syncs: 0,
            replay_truncations: 0,
            checksum_failures: 0,
            nodes_created: 0,
            nodes_removed: 0,
            rejected_operations: RejectedOperationStats::default(),
            snapshot_checkpoints_saved: 0,
            gc_runs: 0,
            gc_segments_deleted: 0,
            active_nodes: 0,
            removed_nodes: 0,
            checkpoint_index_nodes: 0,
            active_append_segment_id: 0,
            active_append_segment_len_bytes: 0,
            unsynced_records: 0,
            unsynced_bytes: 0,
        }
    }
}

impl StorageStats {
    /// Nothing counted yet.
    pub open spec fn zero() -> Self {
        Self {
            records_written: RecordKindStats::zero(),
            bytes_written: RecordKindStats::zero(),
            records_replayed: RecordKindStats::zero(),
            bytes_replayed: RecordKindStats::zero(),
            segment_rotations: 0,
            syncs: 0,
            durable_syncs: 0,
            replay_truncations: 0,
            checksum_failures: 0,
            nodes_created: 0,
            nodes_removed: 0,
            rejected_operations: RejectedOperationStats::zero(),
            snapshot_checkpoints_saved: 0,
            gc_runs: 0,
            gc_segments_deleted: 0,
            active_nodes: 0,
            removed_nodes: 0,
            checkpoint_index_nodes: 0,
            active_append_segment_id: 0,
            active_append_segment_len_bytes: 0,
            unsynced_records: 0,
            unsynced_bytes: 0,
        }
    }

    /// The members of the JSON object, in order.
    pub open spec fn json_members(self) -> Members {
        seq![
            ("records_written"@, self.records_written.json()),
            ("bytes_written"@, self.bytes_written.json()),
            ("records_replayed"@, self.records_replayed.json()),
            ("bytes_replayed"@, self.bytes_replayed.json()),
            ("segment_rotations"@, decimal(self.segment_rotations as nat)),
            ("syncs"@, decimal(self.syncs as nat)),
            ("durable_syncs"@, decimal(self.durable_syncs as nat)),
            ("replay_truncations"@, decimal(self.replay_truncations as nat)),
            ("checksum_failures"@, decimal(self.checksum_failures as nat)),
            ("nodes_created"@, decimal(self.nodes_created as nat)),
            ("nodes_removed"@, decimal(self.nodes_removed as nat)),
            ("rejected_operations"@, self.rejected_operations.json()),
            ("snapshot_checkpoints_saved"@, decimal(self.snapshot_checkpoints_saved as nat)),
            ("gc_runs"@, decimal(self.gc_runs as nat)),
            ("gc_segments_deleted"@, decimal(self.gc_segments_deleted as nat)),
            ("active_nodes"@, decimal(self.active_nodes as nat)),
            ("removed_nodes"@, decimal(self.removed_nodes as nat)),
            ("checkpoint_index_nodes"@, decimal(self.checkpoint_index_nodes as nat)),
            ("active_append_segment_id"@, decimal(self.active_append_segment_id as nat)),
            ("active_append_segment_len_bytes"@, decimal(self.active_append_segment_len_bytes as nat)),
            ("unsynced_records"@, decimal(self.unsynced_records as nat)),
            ("unsynced_bytes"@, decimal(self.unsynced_bytes as nat)),
        ]
    }

    /// The JSON text.
    pub open spec fn json(self) -> Seq<char> {
        object_text(compact(), self.json_members())
    }

    /// Returns these statistics as a JSON object on one line.
    pub fn to_string(&self) -> (text: String)
        ensures
            text@ == self.json(),
    {
        let mut writer = ObjectWriter::compact();
        writer.member("records_written", self.records_written.to_string().as_str());
        writer.member("bytes_written", self.bytes_written.to_string().as_str());
        writer.member("records_replayed", self.records_replayed.to_string().as_str());
        writer.member("bytes_replayed", self.bytes_replayed.to_string().as_str());
        writer.member("segment_rotations", u64_to_decimal(self.segment_rotations).as_str());
        writer.member("syncs", u64_to_decimal(self.syncs).as_str());
        writer.member("durable_syncs", u64_to_decimal(self.durable_syncs).as_str());
        writer.member("replay_truncations", u64_to_decimal(self.replay_truncations).as_str());
        writer.member("checksum_failures", u64_to_decimal(self.checksum_failures).as_str());
        writer.member("nodes_created", u64_to_decimal(self.nodes_created).as_str());
        writer.member("nodes_removed", u64_to_decimal(self.nodes_removed).as_str());
        writer.member("rejected_operations", self.rejected_operations.to_string().as_str());
        writer.member("snapshot_checkpoints_saved", u64_to_decimal(self.snapshot_checkpoints_saved).as_str());
        writer.member("gc_runs", u64_to_decimal(self.gc_runs).as_str());
        writer.member("gc_segments_deleted", u64_to_decimal(self.gc_segments_deleted).as_str());
        writer.member("active_nodes", u64_to_decimal(self.active_nodes).as_str());
        writer.member("removed_nodes", u64_to_decimal(self.removed_nodes).as_str());
        writer.member("checkpoint_index_nodes", u64_to_decimal(self.checkpoint_index_nodes).as_str());
        writer.member("active_append_segment_id", u64_to_decimal(self.active_append_segment_id).as_str());
        writer.member("active_append_segment_len_bytes", u64_to_decimal(self.active_append_segment_len_bytes).as_str());
        writer.member("unsynced_records", u64_to_decimal(self.unsynced_records).as_str());
        writer.member("unsynced_bytes", u64_to_decimal(self.unsynced_bytes).as_str());
        assert(writer.members() =~= self.json_members());
        writer.finish()
    }
}

impl StorageStats {
    /// A record of `bytes` frame bytes was written.
    pub open spec fn after_record_written(self, kind: RecordKindMetric, bytes: u64) -> Self {
        Self {
            records_written: self.records_written.counting(kind, 1),
            bytes_written: self.bytes_written.counting(kind, bytes),
            unsynced_records: sat_add(self.unsynced_records, 1),
            unsynced_bytes: sat_add(self.unsynced_bytes, bytes),
            ..self
        }
    }

    /// A record of `bytes` frame bytes was replayed.
    pub open spec fn after_record_replayed(self, kind: RecordKindMetric, bytes: u64) -> Self {
        Self {
            records_replayed: self.records_replayed.counting(kind, 1),
            bytes_replayed: self.bytes_replayed.counting(kind, bytes),
            ..self
        }
    }

    /// A segment became the active one.
    pub open spec fn after_segment_opened(self, segment_id: u64, segment_len: u64) -> Self {
        Self {
            active_append_segment_id: segment_id,
            active_append_segment_len_bytes: segment_len,
            ..self
        }
    }

    /// The active segment grew.
    pub open spec fn after_segment_written(self, segment_len: u64) -> Self {
        Self {
            active_append_segment_len_bytes: segment_len,
            ..self
        }
    }

    /// A new segment replaced the active one.
    pub open spec fn after_segment_rotated(self, segment_id: u64, segment_len: u64) -> Self {
        Self {
            segment_rotations: sat_add(self.segment_rotations, 1),
            active_append_segment_id: segment_id,
            active_append_segment_len_bytes: segment_len,
            ..self
        }
    }

    /// Synchronization was requested explicitly.
    pub open spec fn after_sync_requested(self) -> Self {
        Self {
            syncs: sat_add(self.syncs, 1),
            ..self
        }
    }

    /// The active segment was synchronized.
    pub open spec fn after_segment_synced(self) -> Self {
        Self {
            durable_syncs: sat_add(self.durable_syncs, 1),
            unsynced_records: 0,
            unsynced_bytes: 0,
            ..self
        }
    }

    /// An incomplete end of a segment was cut off.
    pub open spec fn after_replay_truncated(self) -> Self {
        Self {
            replay_truncations: sat_add(self.replay_truncations, 1),
            ..self
        }
    }

    /// A record had the wrong checksum.
    pub open spec fn after_checksum_failed(self) -> Self {
        Self {
            checksum_failures: sat_add(self.checksum_failures, 1),
            ..self
        }
    }

    /// A node was created.
    pub open spec fn after_node_created(self) -> Self {
        Self {
            nodes_created: sat_add(self.nodes_created, 1),
            ..self
        }
    }

    /// A node was removed.
    pub open spec fn after_node_removed(self) -> Self {
        Self {
            nodes_removed: sat_add(self.nodes_removed, 1),
            ..self
        }
    }

    /// An operation was rejected.
    pub open spec fn after_rejected_operation(self, operation: StorageOperationKind, error: NodeAccessErrorKind) -> Self {
        Self {
            rejected_operations: self.rejected_operations.counting(operation, error),
            ..self
        }
    }

    /// A snapshot checkpoint was saved.
    pub open spec fn after_snapshot_checkpoint_saved(self) -> Self {
        Self {
            snapshot_checkpoints_saved: sat_add(self.snapshot_checkpoints_saved, 1),
            ..self
        }
    }

    /// Garbage collection ran.
    pub open spec fn after_gc_ran(self) -> Self {
        Self {
            gc_runs: sat_add(self.gc_runs, 1),
            ..self
        }
    }

    /// Garbage collection deleted segments.
    pub open spec fn after_gc_deleted_segments(self, count: u64) -> Self {
        Self {
            gc_segments_deleted: sat_add(self.gc_segments_deleted, count),
            ..self
        }
    }

    /// The registry has changed.
    pub open spec fn after_node_counts_changed(self, active_nodes: u64, removed_nodes: u64) -> Self {
        Self {
            active_nodes: active_nodes,
            removed_nodes: removed_nodes,
            ..self
        }
    }

    /// The checkpoint index has changed.
    pub open spec fn after_checkpoint_index_changed(self, nodes: u64) -> Self {
        Self {
            checkpoint_index_nodes: nodes,
            ..self
        }
    }
}

/// The statistics of a running storage engine.
#[derive(Debug)]
pub struct StorageStatsCounters {
    stats: StorageStats,
}

impl View for StorageStatsCounters {
    type V = StorageStats;

    closed spec fn view(&self) -> StorageStats {
        self.stats
    }
}

impl Default for StorageStatsCounters {
    fn default() -> (counters: Self)
        ensures
            counters@ == StorageStats::zero(),
    {
        Self { stats: StorageStats::default() }
    }
}

impl StorageStatsCounters {
    /// Returns the statistics so far.
    pub fn snapshot(&self) -> (stats: StorageStats)
        ensures
            stats == self@,
    {
        self.stats
    }

    /// A record of `bytes` frame bytes was written.
    pub fn record_written(&mut self, kind: RecordKindMetric, bytes: u64)
        ensures
            final(self)@ == old(self)@.after_record_written(kind, bytes),
    {
        self.stats.records_written.increment(kind, 1);
        self.stats.bytes_written.increment(kind, bytes);
        increment(&mut self.stats.unsynced_records, 1);
        increment(&mut self.stats.unsynced_bytes, bytes);
    }

    /// A record of `bytes` frame bytes was replayed.
    pub fn record_replayed(&mut self, kind: RecordKindMetric, bytes: u64)
        ensures
            final(self)@ == old(self)@.after_record_replayed(kind, bytes),
    {
        self.stats.records_replayed.increment(kind, 1);
        self.stats.bytes_replayed.increment(kind, bytes);
    }

    /// A segment became the active one.
    pub fn segment_opened(&mut self, segment_id: u64, segment_len: u64)
        ensures
            final(self)@ == old(self)@.after_segment_opened(segment_id, segment_len),
    {
        self.stats.active_append_segment_id = segment_id;
        self.stats.active_append_segment_len_bytes = segment_len;
    }

    /// The active segment grew.
    pub fn segment_written(&mut self, segment_len: u64)
        ensures
            final(self)@ == old(self)@.after_segment_written(segment_len),
    {
        self.stats.active_append_segment_len_bytes = segment_len;
    }

    /// A new segment replaced the active one.
    pub fn segment_rotated(&mut self, segment_id: u64, segment_len: u64)
        ensures
            final(self)@ == old(self)@.after_segment_rotated(segment_id, segment_len),
    {
        increment(&mut self.stats.segment_rotations, 1);
        self.segment_opened(segment_id, segment_len);
    }

    /// Synchronization was requested explicitly.
    pub fn sync_requested(&mut self)
        ensures
            final(self)@ == old(self)@.after_sync_requested(),
    {
        increment(&mut self.stats.syncs, 1);
    }

    /// The active segment was synchronized.
    pub fn segment_synced(&mut self)
        ensures
            final(self)@ == old(self)@.after_segment_synced(),
    {
        increment(&mut self.stats.durable_syncs, 1);
        self.stats.unsynced_records = 0;
        self.stats.unsynced_bytes = 0;
    }

    /// An incomplete end of a segment was cut off.
    pub fn replay_truncated(&mut self)
        ensures
            final(self)@ == old(self)@.after_replay_truncated(),
    {
        increment(&mut self.stats.replay_truncations, 1);
    }

    /// A record had the wrong checksum.
    pub fn checksum_failed(&mut self)
        ensures
            final(self)@ == old(self)@.after_checksum_failed(),
    {
        increment(&mut self.stats.checksum_failures, 1);
    }

    /// A node was created.
    pub fn node_created(&mut self)
        ensures
            final(self)@ == old(self)@.after_node_created(),
    {
        increment(&mut self.stats.nodes_created, 1);
    }

    /// A node was removed.
    pub fn node_removed(&mut self)
        ensures
            final(self)@ == old(self)@.after_node_removed(),
    {
        increment(&mut self.stats.nodes_removed, 1);
    }

    /// An operation was rejected.
    pub fn rejected_operation(&mut self, operation: StorageOperationKind, error: NodeAccessErrorKind)
        ensures
            final(self)@ == old(self)@.after_rejected_operation(operation, error),
    {
        self.stats.rejected_operations.increment(operation, error);
    }

    /// A snapshot checkpoint was saved.
    pub fn snapshot_checkpoint_saved(&mut self)
        ensures
            final(self)@ == old(self)@.after_snapshot_checkpoint_saved(),
    {
        increment(&mut self.stats.snapshot_checkpoints_saved, 1);
    }

    /// Garbage collection ran.
    pub fn gc_ran(&mut self)
        ensures
            final(self)@ == old(self)@.after_gc_ran(),
    {
        increment(&mut self.stats.gc_runs, 1);
    }

    /// Garbage collection deleted segments.
    pub fn gc_deleted_segments(&mut self, count: u64)
        ensures
            final(self)@ == old(self)@.after_gc_deleted_segments(count),
    {
        increment(&mut self.stats.gc_segments_deleted, count);
    }

    /// The registry has changed.
    pub fn node_counts_changed(&mut self, active_nodes: u64, removed_nodes: u64)
        ensures
            final(self)@ == old(self)@.after_node_counts_changed(active_nodes, removed_nodes),
    {
        self.stats.active_nodes = active_nodes;
        self.stats.removed_nodes = removed_nodes;
    }

    /// The checkpoint index has changed.
    pub fn checkpoint_index_changed(&mut self, nodes: u64)
        ensures
            final(self)@ == old(self)@.after_checkpoint_index_changed(nodes),
    {
        self.stats.checkpoint_index_nodes = nodes;
    }
}

} // verus!
