//! The storage engine.
//!
//! The engine decides; it does no I/O. Opening takes the contents of the storage files. A
//! write operation returns the steps that carry it out, in order: the caller performs each
//! step on the files and then reports it with [`StorageEngine::complete`]. Loading takes
//! the contents of the segments.

use crate::checkpoint_index::{format_checkpoint_index, CheckpointIndex, GcBarrier};
use crate::codec::encode_record_frame;
use crate::error::StorageError;
use crate::raft::{NodeId, Term};
use crate::record::{initial_checkpoint, LogAppend, Record, SnapshotCheckpoint};
use crate::registry::{format_node_registry, parse_node_registry, NodeMetadata, NodeRegistry};
use crate::replay::{replay_node_state, replay_storage_dir};
use crate::scan::{recover_storage_dir, Segment};
use crate::segment::{RecordPosition, SegmentName, SEGMENT_FILE_HEADER_LEN};
use crate::state::NodeState;
use crate::stats::{
    NodeAccessErrorKind, RecordKindMetric, StorageOperationKind, StorageStats, StorageStatsCounters,
};
use std::collections::BTreeMap;
use vstd::prelude::*;

verus! {

use crate::checkpoint_index::{barrier, index_text, loaded_index, IndexView};
use crate::format::written_frame;
use crate::record::{initial_checkpoint_view, RecordView};
use crate::registry::{
    active_nodes, lists_nodes, parsed_registry, registry_text, removed_nodes, startup_nodes,
    with_created, with_removed, MetadataView, RegistryView,
};
use crate::replay::{node_run, state_of, storage_run};
use crate::scan::{
    check_step, run_result, run_segments, segment_magic, segments_view, Run, SegmentView,
};

broadcast use {vstd::std_specs::btree::group_btree_axioms, vstd::laws_cmp::group_laws_cmp};

/// Length at which segments rotate by default.
pub const DEFAULT_MAX_SEGMENT_LEN: u64 = 134_217_728;

/// Storage synchronization policy for segment data and metadata files.
#[derive(Debug, Clone, Copy, PartialEq, Eq, Structural)]
pub enum SyncPolicy {
    /// Synchronize durable data after every storage record and metadata update.
    Strict,
    /// Synchronize durable data after record or byte thresholds are reached.
    ///
    /// A zero threshold is ignored. If both thresholds are zero, writes are synchronized only
    /// when [`StorageEngine::flush`] is called.
    Batch {
        /// Maximum number of unsynchronized records.
        max_records: usize,
        /// Maximum number of unsynchronized bytes.
        max_bytes: u64,
    },
    /// Never synchronize durable data or metadata explicitly.
    ///
    /// This policy leaves persistence timing to the operating system.
    UnsafeNoSync,
}

impl SyncPolicy {
    /// Whether data is ever synchronized explicitly.
    pub open spec fn syncs(self) -> bool {
        !(self is UnsafeNoSync)
    }

    /// Whether the segment is to be synchronized after a record was written.
    pub open spec fn wants_sync(self, unsynced_records: u64, unsynced_bytes: u64) -> bool {
        match self {
            SyncPolicy::Strict => true,
            SyncPolicy::Batch { max_records, max_bytes } => {
                ||| max_records != 0 && unsynced_records >= max_records
                ||| max_bytes != 0 && unsynced_bytes >= max_bytes
            },
            SyncPolicy::UnsafeNoSync => false,
        }
    }
}

/// Tells whether metadata files and directories are synchronized explicitly.
pub fn should_sync_metadata(sync: SyncPolicy) -> (yes: bool)
    ensures
        yes == sync.syncs(),
{
    match sync {
        SyncPolicy::UnsafeNoSync => false,
        _ => true,
    }
}

fn should_sync_record(sync: SyncPolicy, unsynced_records: u64, unsynced_bytes: u64) -> (yes: bool)
    ensures
        yes == sync.wants_sync(unsynced_records, unsynced_bytes),
{
    match sync {
        SyncPolicy::Strict => true,
        SyncPolicy::Batch { max_records, max_bytes } => {
            (max_records != 0 && unsynced_records >= max_records as u64) || (max_bytes != 0
                && unsynced_bytes >= max_bytes)
        },
        SyncPolicy::UnsafeNoSync => false,
    }
}

/// One step of a write operation.
#[derive(Debug, PartialEq, Eq)]
pub enum Step {
    /// Synchronize the data of the active segment file.
    SyncSegment,
    /// Create the file of the given segment with the segment header in it, which becomes the
    /// active segment file.
    CreateSegment(SegmentName),
    /// Write a record frame at the end of the active segment file.
    AppendFrame {
        /// Kind of the record.
        kind: RecordKindMetric,
        /// The frame.
        frame: Vec<u8>,
    },
    /// Replace the checkpoint index file.
    SaveCheckpointIndex(CheckpointIndex),
    /// Replace the node registry file.
    SaveNodeRegistry(NodeRegistry),
    /// Delete the segments that are not active and that the barrier allows to delete, if
    /// there is one.
    CollectGarbage(Option<GcBarrier>),
    /// The node is created.
    NodeCreated,
    /// The snapshot checkpoint is saved.
    CheckpointSaved,
    /// The node is removed.
    NodeRemoved,
    /// The requested synchronization is done.
    SyncRequested,
}

/// The contents of a [`Step`].
#[verifier::ext_equal]
pub enum StepView {
    SyncSegment,
    CreateSegment(u64),
    AppendFrame { kind: RecordKindMetric, frame: Seq<u8> },
    SaveCheckpointIndex(IndexView),
    SaveNodeRegistry(RegistryView),
    CollectGarbage(Option<GcBarrier>),
    NodeCreated,
    CheckpointSaved,
    NodeRemoved,
    SyncRequested,
}

impl View for Step {
    type V = StepView;

    open spec fn view(&self) -> StepView {
        match self {
            Step::SyncSegment => StepView::SyncSegment,
            Step::CreateSegment(name) => StepView::CreateSegment(name.id),
            Step::AppendFrame { kind, frame } => StepView::AppendFrame { kind: *kind, frame: frame@ },
            Step::SaveCheckpointIndex(index) => StepView::SaveCheckpointIndex(index@),
            Step::SaveNodeRegistry(registry) => StepView::SaveNodeRegistry(registry@),
            Step::CollectGarbage(limit) => StepView::CollectGarbage(*limit),
            Step::NodeCreated => StepView::NodeCreated,
            Step::CheckpointSaved => StepView::CheckpointSaved,
            Step::NodeRemoved => StepView::NodeRemoved,
            Step::SyncRequested => StepView::SyncRequested,
        }
    }
}

/// The contents of steps.
pub open spec fn steps_view(steps: Seq<Step>) -> Seq<StepView> {
    steps.map_values(|step: Step| step@)
}

impl Step {
    /// Returns the text of the metadata file that this step replaces.
    pub fn metadata_text(&self) -> (text: Option<String>)
        ensures
            match self@ {
                StepView::SaveCheckpointIndex(index) => text is Some && text->0@ == index_text(index),
                StepView::SaveNodeRegistry(registry) => text is Some && text->0@ == registry_text(
                    registry,
                ),
                _ => text is None,
            },
    {
        match self {
            Step::SaveCheckpointIndex(index) => Some(format_checkpoint_index(index)),
            Step::SaveNodeRegistry(registry) => Some(format_node_registry(registry)),
            _ => None,
        }
    }
}

/// The contents of a [`StorageEngine`].
#[verifier::ext_equal]
pub struct EngineView {
    /// Synchronization policy.
    pub sync: SyncPolicy,
    /// Statistics.
    pub stats: StorageStats,
    /// All nodes that were ever created.
    pub registry: RegistryView,
    /// Checkpoint positions of active nodes.
    pub index: IndexView,
    /// The segment that takes appends.
    pub active: u64,
    /// Its length.
    pub segment_len: u64,
    /// Length at which segments rotate.
    pub max_segment_len: u64,
}

impl EngineView {
    /// The gauges in the statistics show what they are meant to show.
    pub open spec fn gauges_match(self) -> bool {
        &&& self.stats.active_nodes == active_nodes(self.registry).len()
        &&& self.stats.removed_nodes == removed_nodes(self.registry).len()
        &&& self.stats.checkpoint_index_nodes == self.index.dom().len()
        &&& self.stats.active_append_segment_id == self.active
        &&& self.stats.active_append_segment_len_bytes == self.segment_len
    }

    /// Whether there are writes that were not synchronized.
    pub open spec fn has_unsynced(self) -> bool {
        self.stats.unsynced_records != 0 || self.stats.unsynced_bytes != 0
    }

    /// The engine after a step was carried out; `deleted` is how many segments a garbage
    /// collection deleted.
    pub open spec fn after(self, step: StepView, deleted: u64) -> EngineView {
        match step {
            StepView::SyncSegment => EngineView { stats: self.stats.after_segment_synced(), ..self },
            StepView::CreateSegment(id) => EngineView {
                active: id,
                segment_len: 4,
                stats: self.stats.after_segment_rotated(id, 4),
                ..self
            },
            StepView::AppendFrame { kind, frame } => if self.segment_len + frame.len() > u64::MAX {
                self
            } else {
                let segment_len = (self.segment_len + frame.len()) as u64;
                EngineView {
                    segment_len,
                    stats: self.stats.after_record_written(
                        kind,
                        frame.len() as u64,
                    ).after_segment_written(segment_len),
                    ..self
                }
            },
            StepView::SaveCheckpointIndex(index) => EngineView {
                index,
                stats: self.stats.after_checkpoint_index_changed(index.dom().len() as u64),
                ..self
            },
            StepView::SaveNodeRegistry(registry) => EngineView {
                registry,
                stats: self.stats.after_node_counts_changed(
                    active_nodes(registry).len() as u64,
                    removed_nodes(registry).len() as u64,
                ),
                ..self
            },
            StepView::CollectGarbage(_) => EngineView {
                stats: if deleted == 0 {
                    self.stats.after_gc_ran()
                } else {
                    self.stats.after_gc_ran().after_gc_deleted_segments(deleted)
                },
                ..self
            },
            StepView::NodeCreated => EngineView { stats: self.stats.after_node_created(), ..self },
            StepView::CheckpointSaved => EngineView {
                stats: self.stats.after_snapshot_checkpoint_saved(),
                ..self
            },
            StepView::NodeRemoved => EngineView { stats: self.stats.after_node_removed(), ..self },
            StepView::SyncRequested => EngineView { stats: self.stats.after_sync_requested(), ..self },
        }
    }

    /// The engine after the given steps were carried out, where garbage collection deleted
    /// `deleted` segments.
    pub open spec fn after_all(self, steps: Seq<StepView>, deleted: u64) -> EngineView
        decreases steps.len(),
    {
        if steps.len() == 0 {
            self
        } else {
            self.after_all(steps.drop_last(), deleted).after(steps.last(), deleted)
        }
    }

    /// Whether a frame of the given length goes to a new segment.
    pub open spec fn rotates(self, frame_len: nat) -> bool {
        self.segment_len > SEGMENT_FILE_HEADER_LEN && self.segment_len + frame_len
            > self.max_segment_len
    }

    /// The steps that start a new segment.
    pub open spec fn rotation(self) -> Seq<StepView> {
        let create = StepView::CreateSegment((self.active + 1) as u64);
        if self.sync.syncs() {
            seq![StepView::SyncSegment, create]
        } else {
            seq![create]
        }
    }

    /// The steps that come before a frame of the given length is written.
    pub open spec fn prepare(self, frame_len: nat) -> Seq<StepView> {
        if self.rotates(frame_len) {
            self.rotation()
        } else {
            Seq::empty()
        }
    }

    /// The steps that append a record, and where it goes.
    #[verifier::opaque]
    pub open spec fn append(self, node: NodeId, record: RecordView) -> Result<
        (Seq<StepView>, RecordPosition),
        StorageError,
    > {
        match written_frame(node, record) {
            Err(error) => Err(error),
            Ok(frame) => {
                let rotates = self.rotates(frame.len());
                if rotates && self.active == u64::MAX {
                    Err(StorageError::SegmentIdOverflow)
                } else {
                    let prepare = self.prepare(frame.len());
                    let ready = self.after_all(prepare, 0);
                    let write = prepare.push(StepView::AppendFrame { kind: record.kind(), frame });
                    let written = self.after_all(write, 0);
                    let steps = if self.sync.wants_sync(
                        written.stats.unsynced_records,
                        written.stats.unsynced_bytes,
                    ) {
                        write.push(StepView::SyncSegment)
                    } else {
                        write
                    };
                    let position = RecordPosition {
                        segment: SegmentName { id: ready.active },
                        offset: ready.segment_len,
                    };
                    Ok((steps, position))
                }
            },
        }
    }

    /// The steps that make what the given steps wrote durable before a metadata file refers
    /// to it.
    pub open spec fn synced(self, steps: Seq<StepView>) -> Seq<StepView> {
        if self.sync.syncs() && self.after_all(steps, 0).has_unsynced() {
            steps.push(StepView::SyncSegment)
        } else {
            steps
        }
    }

    /// The steps that create a node.
    pub open spec fn create_node(self, node: NodeId, metadata: MetadataView) -> Result<
        Seq<StepView>,
        StorageError,
    > {
        if self.registry.contains_key(node.0) {
            Err(StorageError::NodeAlreadyExists)
        } else {
            match self.append(node, RecordView::SnapshotCheckpoint(initial_checkpoint_view())) {
                Err(error) => Err(error),
                Ok((steps, position)) => Ok(
                    self.synced(steps) + seq![
                        StepView::SaveCheckpointIndex(self.index.insert(node.0, position)),
                        StepView::SaveNodeRegistry(with_created(self.registry, node.0, metadata)),
                        StepView::NodeCreated,
                    ],
                ),
            }
        }
    }

    /// The steps that save a snapshot checkpoint of an active node.
    pub open spec fn save_checkpoint(self, node: NodeId, record: RecordView) -> Result<
        Seq<StepView>,
        StorageError,
    > {
        match self.append(node, record) {
            Err(error) => Err(error),
            Ok((steps, position)) => {
                let index = self.index.insert(node.0, position);
                Ok(
                    self.synced(steps) + seq![
                        StepView::SaveCheckpointIndex(index),
                        StepView::CollectGarbage(barrier(index, active_nodes(self.registry))),
                        StepView::CheckpointSaved,
                    ],
                )
            },
        }
    }

    /// The steps that remove an active node.
    pub open spec fn remove_node(self, node: NodeId) -> Seq<StepView> {
        let registry = with_removed(self.registry, node.0);
        let index = self.index.remove(node.0);
        seq![
            StepView::SaveNodeRegistry(registry),
            StepView::SaveCheckpointIndex(index),
            StepView::CollectGarbage(barrier(index, active_nodes(registry))),
            StepView::NodeRemoved,
        ]
    }

    /// The steps that synchronize pending writes.
    pub open spec fn flush(self) -> Seq<StepView> {
        self.synced(Seq::empty()).push(StepView::SyncRequested)
    }

    /// Why an operation on a node is rejected.
    pub open spec fn access(self, node: NodeId) -> Result<(), (StorageError, NodeAccessErrorKind)> {
        if active_nodes(self.registry).contains(node.0) {
            Ok(())
        } else if removed_nodes(self.registry).contains(node.0) {
            Err((StorageError::NodeRemoved, NodeAccessErrorKind::RemovedNode))
        } else {
            Err((StorageError::NodeNotFound, NodeAccessErrorKind::UnknownNode))
        }
    }

    /// The engine after a rejected operation.
    pub open spec fn rejecting(
        self,
        operation: StorageOperationKind,
        error: NodeAccessErrorKind,
    ) -> EngineView {
        EngineView { stats: self.stats.after_rejected_operation(operation, error), ..self }
    }
}

/// Where the next record goes.
#[derive(Debug)]
pub struct SegmentWriter {
    active_segment: SegmentName,
    segment_len: u64,
    max_segment_len: u64,
}

impl SegmentWriter {
    fn should_rotate(&self, written_bytes: u64) -> (yes: bool)
        ensures
            yes == (self.segment_len > SEGMENT_FILE_HEADER_LEN && self.segment_len + written_bytes
                > self.max_segment_len),
    {
        if self.segment_len <= SEGMENT_FILE_HEADER_LEN as u64 {
            return false;
        }
        match self.segment_len.checked_add(written_bytes) {
            None => true,
            Some(len) => self.max_segment_len < len,
        }
    }
}

/// Shared segmented storage engine for registered Raft nodes.
///
/// The engine appends storage records for many nodes into shared append segments. A storage
/// treats node IDs as globally unique across all nodes stored in it. Node IDs must be
/// registered with [`StorageEngine::create_node`] before node state records can be written
/// or loaded. Once registered, a node ID remains permanently reserved, even after
/// [`StorageEngine::remove_node`].
///
/// The engine validates record-local invariants before writing, such as command payload
/// mappings in [`LogAppend`]. It does not validate a log append against the node's currently
/// loaded log before writing. Replay applies records in append order and resolves divergent
/// log suffixes.
///
/// A step that cannot be carried out is fatal to the engine instance: stop using it and open
/// the storage again after choosing an appropriate recovery action.
#[derive(Debug)]
pub struct StorageEngine {
    sync: SyncPolicy,
    stats: StorageStatsCounters,
    registry: NodeRegistry,
    checkpoint_index: CheckpointIndex,
    writer: SegmentWriter,
}

impl View for StorageEngine {
    type V = EngineView;

    closed spec fn view(&self) -> EngineView {
        EngineView {
            sync: self.sync,
            stats: self.stats@,
            registry: self.registry@,
            index: self.checkpoint_index@,
            active: self.writer.active_segment.id,
            segment_len: self.writer.segment_len,
            max_segment_len: self.writer.max_segment_len,
        }
    }
}

impl StorageEngine {
    /// Reports that a step of an operation was carried out. `deleted_segments` is how many
    /// segments a garbage collection deleted.
    pub fn complete(&mut self, step: Step, deleted_segments: u64) -> (result: Result<
        (),
        StorageError,
    >)
        ensures
            final(self)@ == old(self)@.after(step@, deleted_segments),
            result is Err <==> (step@ matches StepView::AppendFrame { frame, .. } && old(
                self,
            )@.segment_len + frame.len() > u64::MAX),
            result is Err ==> result == Err::<(), StorageError>(StorageError::SegmentLenOverflow),
    {
        match step {
            Step::SyncSegment => {
                self.stats.segment_synced();
            },
            Step::CreateSegment(name) => {
                self.writer.active_segment = name;
                self.writer.segment_len = SEGMENT_FILE_HEADER_LEN as u64;
                self.stats.segment_rotated(name.id, SEGMENT_FILE_HEADER_LEN as u64);
            },
            Step::AppendFrame { kind, frame } => {
                let written_bytes: u64 = frame.len() as u64;
                match self.writer.segment_len.checked_add(written_bytes) {
                    None => {
                        return Err(StorageError::SegmentLenOverflow);
                    },
                    Some(segment_len) => {
                        self.writer.segment_len = segment_len;
                        self.stats.record_written(kind, written_bytes);
                        self.stats.segment_written(segment_len);
                    },
                }
            },
            Step::SaveCheckpointIndex(index) => {
                self.stats.checkpoint_index_changed(index.len() as u64);
                self.checkpoint_index = index;
            },
            Step::SaveNodeRegistry(registry) => {
                self.stats.node_counts_changed(
                    registry.active_node_count() as u64,
                    registry.removed_node_count() as u64,
                );
                self.registry = registry;
            },
            Step::CollectGarbage(_) => {
                self.stats.gc_ran();
                if deleted_segments != 0 {
                    self.stats.gc_deleted_segments(deleted_segments);
                }
            },
            Step::NodeCreated => {
                self.stats.node_created();
            },
            Step::CheckpointSaved => {
                self.stats.snapshot_checkpoint_saved();
            },
            Step::NodeRemoved => {
                self.stats.node_removed();
            },
            Step::SyncRequested => {
                self.stats.sync_requested();
            },
        }
        Ok(())
    }

    /// The steps that come before a frame is written, where the frame goes, and the records
    /// and bytes that are not synchronized by then.
    fn prepare(&self, frame_len: u64) -> (result: Result<
        (Vec<Step>, RecordPosition, u64, u64),
        StorageError,
    >)
        requires
            frame_len <= 0xFFFF_FFFF,
        ensures
            if self@.rotates(frame_len as nat) && self@.active == u64::MAX {
                result is Err && result->Err_0 == StorageError::SegmentIdOverflow
            } else {
                let ready = self@.after_all(self@.prepare(frame_len as nat), 0);
                &&& result is Ok
                &&& steps_view(result->Ok_0.0@) == self@.prepare(frame_len as nat)
                &&& result->Ok_0.1 == (RecordPosition {
                    segment: SegmentName { id: ready.active },
                    offset: ready.segment_len,
                })
                &&& result->Ok_0.2 == ready.stats.unsynced_records
                &&& result->Ok_0.3 == ready.stats.unsynced_bytes
                &&& ready.segment_len + frame_len <= u64::MAX
            },
    {
        let ghost before = self@;
        let stats = self.stats.snapshot();
        let mut steps: Vec<Step> = Vec::new();
        assert(steps_view(steps@) =~= Seq::empty());
        assert(before.after_all(Seq::empty(), 0) == before);
        if !self.writer.should_rotate(frame_len) {
            let position = RecordPosition {
                segment: self.writer.active_segment,
                offset: self.writer.segment_len,
            };
            return Ok((steps, position, stats.unsynced_records, stats.unsynced_bytes));
        }
        let name = self.writer.active_segment.next_append()?;
        let position = RecordPosition { segment: name, offset: SEGMENT_FILE_HEADER_LEN as u64 };
        if should_sync_metadata(self.sync) {
            steps.push(Step::SyncSegment);
            steps.push(Step::CreateSegment(name));
            proof {
                let first = seq![StepView::SyncSegment];
                assert(steps_view(steps@) =~= before.rotation());
                assert(first.drop_last() =~= Seq::empty());
                assert(before.rotation().drop_last() =~= first);
                assert(before.after_all(first, 0) == before.after(StepView::SyncSegment, 0));
            }
            Ok((steps, position, 0, 0))
        } else {
            steps.push(Step::CreateSegment(name));
            proof {
                assert(steps_view(steps@) =~= before.rotation());
                assert(before.rotation().drop_last() =~= Seq::empty());
            }
            Ok((steps, position, stats.unsynced_records, stats.unsynced_bytes))
        }
    }

    /// The steps that append a record, where it goes, and whether writes are left that were
    /// not synchronized.
    fn append(&self, node_id: NodeId, record: &Record) -> (result: Result<
        (Vec<Step>, RecordPosition, bool),
        StorageError,
    >)
        ensures
            match self@.append(node_id, record@) {
                Ok((steps, position)) => {
                    &&& result is Ok
                    &&& steps_view(result->Ok_0.0@) == steps
                    &&& result->Ok_0.1 == position
                    &&& result->Ok_0.2 == self@.after_all(steps, 0).has_unsynced()
                },
                Err(error) => result is Err && result->Err_0 == error,
            },
    {
        reveal(EngineView::append);
        let ghost before = self@;
        let frame = encode_record_frame(node_id, record)?;
        let ghost frame_view = frame@;
        let frame_len: u64 = frame.len() as u64;
        let (mut steps, position, records, bytes) = self.prepare(frame_len)?;
        let ghost prepare = steps_view(steps@);
        let ghost ready = before.after_all(prepare, 0);
        let ghost append_step = StepView::AppendFrame { kind: record@.kind(), frame: frame_view };
        let ghost write = prepare.push(append_step);
        steps.push(Step::AppendFrame { kind: record.metric_kind(), frame });
        proof {
            assert(steps_view(steps@) =~= write);
            assert(write.drop_last() =~= prepare);
            assert(before.after_all(write, 0) == ready.after(append_step, 0));
        }
        let unsynced_records: u64 = records.saturating_add(1);
        let unsynced_bytes: u64 = bytes.saturating_add(frame_len);
        if should_sync_record(self.sync, unsynced_records, unsynced_bytes) {
            steps.push(Step::SyncSegment);
            proof {
                assert(steps_view(steps@) =~= write.push(StepView::SyncSegment));
                assert(write.push(StepView::SyncSegment).drop_last() =~= write);
            }
            Ok((steps, position, false))
        } else {
            Ok((steps, position, true))
        }
    }

    /// The steps that append a record and make it durable before a metadata file refers to it,
    /// and where the record goes.
    fn append_synced(&self, node_id: NodeId, record: &Record) -> (result: Result<
        (Vec<Step>, RecordPosition),
        StorageError,
    >)
        ensures
            match self@.append(node_id, record@) {
                Ok((steps, position)) => {
                    &&& result is Ok
                    &&& steps_view(result->Ok_0.0@) == self@.synced(steps)
                    &&& result->Ok_0.1 == position
                },
                Err(error) => result is Err && result->Err_0 == error,
            },
    {
        let (mut steps, position, unsynced) = self.append(node_id, record)?;
        let ghost appended = steps_view(steps@);
        if should_sync_metadata(self.sync) && unsynced {
            steps.push(Step::SyncSegment);
        }
        assert(steps_view(steps@) =~= self@.synced(appended));
        Ok((steps, position))
    }

    /// Creates a Raft node.
    ///
    /// This also writes an initial empty snapshot checkpoint so the node has a
    /// garbage-collection barrier from creation. A node ID cannot be created again after it
    /// has been created, even if it is later removed.
    pub fn create_node(&self, node_id: NodeId, metadata: NodeMetadata) -> (result: Result<
        Vec<Step>,
        StorageError,
    >)
        ensures
            match self@.create_node(node_id, metadata@) {
                Ok(steps) => result is Ok && steps_view(result->Ok_0@) == steps,
                Err(error) => result is Err && result->Err_0 == error,
            },
    {
        let mut registry = self.registry.clone();
        registry.create_node(node_id, metadata)?;
        let record = Record::SnapshotCheckpoint(initial_checkpoint());
        let (mut steps, position) = self.append_synced(node_id, &record)?;
        let ghost appended = steps_view(steps@);
        let mut index = self.checkpoint_index.clone();
        index.set_checkpoint_position(node_id, position);
        steps.push(Step::SaveCheckpointIndex(index));
        steps.push(Step::SaveNodeRegistry(registry));
        steps.push(Step::NodeCreated);
        assert(steps_view(steps@) =~= appended + seq![
            StepView::SaveCheckpointIndex(index@),
            StepView::SaveNodeRegistry(registry@),
            StepView::NodeCreated,
        ]);
        Ok(steps)
    }

    /// Returns metadata for an active Raft node.
    pub fn node_metadata(&self, node_id: NodeId) -> (metadata: Option<&NodeMetadata>)
        ensures
            metadata is Some <==> active_nodes(self@.registry).contains(node_id.0),
            metadata is Some ==> metadata->0@ == self@.registry[node_id.0].metadata,
    {
        self.registry.metadata(node_id)
    }

    /// Returns all active Raft nodes and their metadata.
    pub fn nodes(&self) -> (nodes: Vec<(NodeId, &NodeMetadata)>)
        ensures
            lists_nodes(nodes@, self@.registry, active_nodes(self@.registry)),
    {
        self.registry.nodes()
    }

    /// Returns active Raft nodes marked for process startup.
    pub fn startup_nodes(&self) -> (nodes: Vec<(NodeId, &NodeMetadata)>)
        ensures
            lists_nodes(nodes@, self@.registry, startup_nodes(self@.registry)),
    {
        self.registry.startup_nodes()
    }

    /// Loads the current state for the given Raft node from the contents of the segments.
    ///
    /// When a valid checkpoint hint exists, replay starts at that checkpoint record instead
    /// of scanning from the first segment. An incomplete end of the active segment is cut
    /// off.
    pub fn load(&mut self, node_id: NodeId, segments: &mut Vec<Segment>) -> (result: Result<
        NodeState,
        StorageError,
    >)
        ensures
            match old(self)@.access(node_id) {
                Err((error, kind)) => {
                    &&& result is Err
                    &&& result->Err_0 == error
                    &&& final(self)@ == old(self)@.rejecting(StorageOperationKind::Load, kind)
                    &&& segments_view(final(segments)@) == segments_view(old(segments)@)
                },
                Ok(()) => {
                    let engine = old(self)@;
                    let hint = if engine.index.contains_key(node_id.0) {
                        Some(engine.index[node_id.0])
                    } else {
                        None
                    };
                    let (run, after) = node_run(
                        engine.stats,
                        segments_view(old(segments)@),
                        engine.active,
                        node_id.0,
                        hint,
                    );
                    &&& (match run_result(run) {
                        Ok(state) => result is Ok && result->Ok_0@ == state,
                        Err(error) => result is Err && result->Err_0 == error,
                    })
                    &&& final(self)@ == (EngineView { stats: run.stats, ..engine })
                    &&& segments_view(final(segments)@) == after
                },
            },
    {
        self.ensure_node_exists(node_id, StorageOperationKind::Load)?;
        let hint = self.checkpoint_index.checkpoint_position(node_id);
        replay_node_state(segments, self.writer.active_segment, node_id, hint, &mut self.stats)
    }

    /// Loads the latest state of all non-removed nodes from the contents of the segments.
    ///
    /// If every active node has a checkpoint hint, replay starts from the oldest hinted
    /// checkpoint segment. If any active node lacks a hint, replay scans all append segments.
    /// An incomplete end of the active segment is cut off.
    pub fn load_all(&mut self, segments: &mut Vec<Segment>) -> (result: Result<
        BTreeMap<u64, NodeState>,
        StorageError,
    >)
        ensures
            ({
                let engine = old(self)@;
                let active = active_nodes(engine.registry);
                if active.len() == 0 {
                    &&& result is Ok
                    &&& result->Ok_0@ == Map::<u64, NodeState>::empty()
                    &&& final(self)@ == engine
                    &&& segments_view(final(segments)@) == segments_view(old(segments)@)
                } else {
                    let hints = if active.subset_of(engine.index.dom()) {
                        Some(engine.index.restrict(active))
                    } else {
                        None
                    };
                    let (run, after) = storage_run(
                        engine.stats,
                        segments_view(old(segments)@),
                        engine.active,
                        active,
                        hints,
                    );
                    &&& (match run_result(run) {
                        Ok(states) => {
                            &&& result is Ok
                            &&& result->Ok_0@.dom() == active
                            &&& forall|node: u64| #[trigger]
                                active.contains(node) ==> result->Ok_0@[node]@ == state_of(states, node)
                        },
                        Err(error) => result is Err && result->Err_0 == error,
                    })
                    &&& final(self)@ == (EngineView { stats: run.stats, ..engine })
                    &&& segments_view(final(segments)@) == after
                }
            }),
    {
        let active = self.registry.active_node_ids();
        if active.len() == 0 {
            return Ok(BTreeMap::new());
        }
        let hints = self.checkpoint_index.checkpoint_positions(&active);
        let mut replay = replay_storage_dir(
            segments,
            self.writer.active_segment,
            &active,
            hints,
            &mut self.stats,
        )?;
        let ghost states = replay@;
        let ids = crate::ordered::set_members(&active);
        let mut nodes: BTreeMap<u64, NodeState> = BTreeMap::new();
        let mut i: usize = 0;
        proof {
            crate::ordered::all_ahead(active@);
            assert(ids@.skip(0) =~= ids@);
        }
        while i < ids.len()
            invariant
                i <= ids@.len(),
                crate::ordered::strictly_increasing(ids@),
                forall|id: u64| #[trigger] ids@.contains(id) ==> active@.contains(id),
                forall|id: u64| #[trigger]
                    nodes@.contains_key(id) <==> active@.contains(id) && !ids@.skip(
                        i as int,
                    ).contains(id),
                forall|id: u64| #[trigger]
                    nodes@.contains_key(id) ==> nodes@[id]@ == state_of(states, id),
                forall|id: u64| #[trigger]
                    ids@.skip(i as int).contains(id) ==> (replay@.contains_key(id)
                        <==> states.contains_key(id)) && (states.contains_key(id) ==> replay@[id]
                        == states[id]),
            decreases ids@.len() - i,
        {
            let id: u64 = ids[i];
            proof {
                assert(ids@.contains(id));
                crate::ordered::ahead_of(ids@, i as int);
            }
            let ghost before = replay@;
            let state = match replay.nodes.remove(&id) {
                Some(state) => state,
                None => NodeState::default(),
            };
            proof {
                assert(replay@ =~= before.remove(id));
                assert forall|key: u64| #[trigger] ids@.skip(i + 1).contains(key) implies (
                replay@.contains_key(key) <==> states.contains_key(key)) && (states.contains_key(key)
                    ==> replay@[key] == states[key]) by {
                    assert(ids@.skip(i as int).contains(key));
                }
            }
            nodes.insert(id, state);
            i = i + 1;
        }
        assert(nodes@.dom() =~= active@);
        Ok(nodes)
    }

    /// Saves the current term for the given Raft node.
    pub fn save_current_term(&mut self, node_id: NodeId, term: Term) -> (result: Result<
        Vec<Step>,
        StorageError,
    >)
        ensures
            saves_record(
                old(self)@,
                node_id,
                RecordView::CurrentTerm(term),
                StorageOperationKind::SaveCurrentTerm,
                result,
                final(self)@,
            ),
    {
        self.save_record(node_id, Record::CurrentTerm(term), StorageOperationKind::SaveCurrentTerm)
    }

    /// Saves the node voted for in the current term.
    pub fn save_voted_for(&mut self, node_id: NodeId, voted_for: Option<NodeId>) -> (result: Result<
        Vec<Step>,
        StorageError,
    >)
        ensures
            saves_record(
                old(self)@,
                node_id,
                RecordView::VotedFor(voted_for),
                StorageOperationKind::SaveVotedFor,
                result,
                final(self)@,
            ),
    {
        self.save_record(node_id, Record::VotedFor(voted_for), StorageOperationKind::SaveVotedFor)
    }

    /// Appends log entries and their command payloads.
    ///
    /// The append is recorded as received. The storage layer checks only that command entries
    /// and command payloads match each other.
    pub fn append_entries(&mut self, node_id: NodeId, append: LogAppend) -> (result: Result<
        Vec<Step>,
        StorageError,
    >)
        ensures
            saves_record(
                old(self)@,
                node_id,
                RecordView::Append(append@),
                StorageOperationKind::AppendEntries,
                result,
                final(self)@,
            ),
    {
        self.save_record(node_id, Record::Append(append), StorageOperationKind::AppendEntries)
    }

    /// Saves a snapshot checkpoint.
    ///
    /// A checkpoint is a complete recovery point for one node. It stores the current term,
    /// voted-for node, latest snapshot, and retained log suffix. Earlier records for the node
    /// become obsolete for replay and whole-segment garbage collection. The checkpoint suffix
    /// must start at the snapshot's last covered position.
    pub fn save_snapshot(&mut self, node_id: NodeId, checkpoint: SnapshotCheckpoint) -> (result: Result<
        Vec<Step>,
        StorageError,
    >)
        ensures
            match old(self)@.access(node_id) {
                Err((error, kind)) => {
                    &&& result is Err
                    &&& result->Err_0 == error
                    &&& final(self)@ == old(self)@.rejecting(StorageOperationKind::SaveSnapshot, kind)
                },
                Ok(()) => {
                    &&& final(self)@ == old(self)@
                    &&& match checkpoint@.validation() {
                        Err(error) => result is Err && result->Err_0 == error,
                        Ok(()) => match old(self)@.save_checkpoint(
                            node_id,
                            RecordView::SnapshotCheckpoint(checkpoint@),
                        ) {
                            Ok(steps) => result is Ok && steps_view(result->Ok_0@) == steps,
                            Err(error) => result is Err && result->Err_0 == error,
                        },
                    }
                },
            },
    {
        self.ensure_node_exists(node_id, StorageOperationKind::SaveSnapshot)?;
        checkpoint.validate()?;
        let record = Record::SnapshotCheckpoint(checkpoint);
        let (mut steps, position) = self.append_synced(node_id, &record)?;
        let ghost appended = steps_view(steps@);
        let mut index = self.checkpoint_index.clone();
        index.set_checkpoint_position(node_id, position);
        let limit = index.gc_barrier(&self.registry.active_node_ids());
        steps.push(Step::SaveCheckpointIndex(index));
        steps.push(Step::CollectGarbage(limit));
        steps.push(Step::CheckpointSaved);
        assert(steps_view(steps@) =~= appended + seq![
            StepView::SaveCheckpointIndex(index@),
            StepView::CollectGarbage(limit),
            StepView::CheckpointSaved,
        ]);
        Ok(steps)
    }

    /// Marks the given Raft node as removed and reserves its node ID.
    ///
    /// Removal is persisted in the node registry. No segment record is appended for node
    /// removal. The removed node ID cannot be created again.
    pub fn remove_node(&mut self, node_id: NodeId) -> (result: Result<Vec<Step>, StorageError>)
        ensures
            match old(self)@.access(node_id) {
                Err((error, kind)) => {
                    &&& result is Err
                    &&& result->Err_0 == error
                    &&& final(self)@ == old(self)@.rejecting(StorageOperationKind::RemoveNode, kind)
                },
                Ok(()) => {
                    &&& final(self)@ == old(self)@
                    &&& result is Ok
                    &&& steps_view(result->Ok_0@) == old(self)@.remove_node(node_id)
                },
            },
    {
        self.ensure_node_exists(node_id, StorageOperationKind::RemoveNode)?;
        let mut registry = self.registry.clone();
        registry.remove_node(node_id)?;
        let mut index = self.checkpoint_index.clone();
        index.remove_node(node_id);
        let limit = index.gc_barrier(&registry.active_node_ids());
        let mut steps: Vec<Step> = Vec::new();
        steps.push(Step::SaveNodeRegistry(registry));
        steps.push(Step::SaveCheckpointIndex(index));
        steps.push(Step::CollectGarbage(limit));
        steps.push(Step::NodeRemoved);
        assert(steps_view(steps@) =~= self@.remove_node(node_id));
        Ok(steps)
    }

    /// Flushes pending segment writes according to the synchronization policy.
    pub fn flush(&self) -> (steps: Vec<Step>)
        ensures
            steps_view(steps@) == self@.flush(),
    {
        let stats = self.stats.snapshot();
        let mut steps: Vec<Step> = Vec::new();
        proof {
            assert(self@.after_all(Seq::empty(), 0) == self@);
        }
        if should_sync_metadata(self.sync) && (stats.unsynced_records != 0 || stats.unsynced_bytes
            != 0) {
            steps.push(Step::SyncSegment);
        }
        assert(steps_view(steps@) =~= self@.synced(Seq::empty()));
        steps.push(Step::SyncRequested);
        assert(steps_view(steps@) =~= self@.flush());
        steps
    }

    /// Returns the storage synchronization policy.
    pub fn sync_policy(&self) -> (sync: SyncPolicy)
        ensures
            sync == self@.sync,
    {
        self.sync
    }

    /// Returns a snapshot of storage statistics since this engine was opened.
    pub fn stats(&self) -> (stats: StorageStats)
        ensures
            stats == self@.stats,
    {
        self.stats.snapshot()
    }

    /// Returns the segment that takes appends.
    pub fn active_segment(&self) -> (name: SegmentName)
        ensures
            name.id == self@.active,
    {
        self.writer.active_segment
    }

    fn save_record(
        &mut self,
        node_id: NodeId,
        record: Record,
        operation: StorageOperationKind,
    ) -> (result: Result<Vec<Step>, StorageError>)
        ensures
            saves_record(old(self)@, node_id, record@, operation, result, final(self)@),
    {
        self.ensure_node_exists(node_id, operation)?;
        let (steps, _, _) = self.append(node_id, &record)?;
        Ok(steps)
    }

    fn ensure_node_exists(&mut self, node_id: NodeId, operation: StorageOperationKind) -> (result:
        Result<(), StorageError>)
        ensures
            match old(self)@.access(node_id) {
                Ok(()) => result is Ok && final(self)@ == old(self)@ && *final(self) == *old(self),
                Err((error, kind)) => {
                    &&& result == Err::<(), StorageError>(error)
                    &&& final(self)@ == old(self)@.rejecting(operation, kind)
                },
            },
    {
        if self.registry.is_active(node_id) {
            return Ok(());
        }
        if self.registry.is_removed(node_id) {
            self.stats.rejected_operation(operation, NodeAccessErrorKind::RemovedNode);
            return Err(StorageError::NodeRemoved);
        }
        self.stats.rejected_operation(operation, NodeAccessErrorKind::UnknownNode);
        Err(StorageError::NodeNotFound)
    }
}

// ---------------------------------------------------------------------------------------
// Opening
// ---------------------------------------------------------------------------------------

/// The segment that takes appends: the last of the existing ones, or the first segment of a
/// new storage.
pub open spec fn newest_segment(segments: Seq<SegmentView>) -> u64
    decreases segments.len(),
{
    if segments.len() == 0 {
        0
    } else {
        let rest = newest_segment(segments.drop_last());
        if segments.last().id > rest {
            segments.last().id
        } else {
            rest
        }
    }
}

/// The segments once the one that takes appends has its header.
pub open spec fn with_header(segments: Seq<SegmentView>, active: u64) -> Seq<SegmentView> {
    if segments.len() == 0 {
        seq![SegmentView { id: active, bytes: segment_magic() }]
    } else {
        segments.map_values(
            |segment: SegmentView|
                if segment.id == active && segment.bytes.len() == 0 {
                    SegmentView { bytes: segment_magic(), ..segment }
                } else {
                    segment
                },
        )
    }
}

/// The length of the first segment with the given number.
pub open spec fn len_of(segments: Seq<SegmentView>, id: u64) -> nat
    decreases segments.len(),
{
    if segments.len() == 0 {
        0
    } else if segments[0].id == id {
        segments[0].bytes.len()
    } else {
        len_of(segments.skip(1), id)
    }
}

/// The engine over the given files, or why they cannot be opened; and the segments
/// afterwards.
pub open spec fn opened(
    sync: SyncPolicy,
    max_segment_len: u64,
    segments: Seq<SegmentView>,
    nodes_text: Option<Seq<char>>,
    checkpoints_text: Option<Seq<char>>,
) -> (Result<EngineView, StorageError>, Seq<SegmentView>) {
    if max_segment_len == 0 {
        (Err(StorageError::ZeroMaxSegmentLen), segments)
    } else {
        let active = newest_segment(segments);
        let start = Run { acc: (), stats: StorageStats::zero(), failure: None };
        let (run, recovered) = run_segments(start, segments, active, None, 4, check_step());
        if run.failure is Some {
            (Err(run.failure->0), recovered)
        } else {
            let registry = match nodes_text {
                None => Ok(RegistryView::empty()),
                Some(text) => parsed_registry(text),
            };
            match registry {
                Err(error) => (Err(error), recovered),
                Ok(registry) => match loaded_index(
                    checkpoints_text,
                    active_nodes(registry),
                    recovered,
                ) {
                    Err(error) => (Err(error), recovered),
                    Ok(index) => {
                        let ready = with_header(recovered, active);
                        let segment_len = len_of(ready, active) as u64;
                        (
                            Ok(
                                EngineView {
                                    sync,
                                    stats: run.stats.after_node_counts_changed(
                                        active_nodes(registry).len() as u64,
                                        removed_nodes(registry).len() as u64,
                                    ).after_checkpoint_index_changed(
                                        index.dom().len() as u64,
                                    ).after_segment_opened(active, segment_len),
                                    registry,
                                    index,
                                    active,
                                    segment_len,
                                    max_segment_len,
                                },
                            ),
                            ready,
                        )
                    },
                },
            }
        }
    }
}

/// The contents of an optional text.
pub open spec fn text_view(text: Option<&str>) -> Option<Seq<char>> {
    match text {
        None => None,
        Some(text) => Some(text@),
    }
}

fn find_newest_segment(segments: &Vec<Segment>) -> (active: SegmentName)
    ensures
        active.id == newest_segment(segments_view(segments@)),
{
    let ghost view = segments_view(segments@);
    let mut active = SegmentName::first_append();
    let mut i: usize = 0;
    assert(view.take(0) =~= Seq::empty());
    while i < segments.len()
        invariant
            i <= segments@.len(),
            view == segments_view(segments@),
            active.id == newest_segment(view.take(i as int)),
        decreases segments@.len() - i,
    {
        assert(view.take(i + 1).drop_last() =~= view.take(i as int));
        assert(view[i as int] == segments@[i as int]@);
        if segments[i].name.id > active.id {
            active = segments[i].name;
        }
        i = i + 1;
    }
    assert(view.take(i as int) =~= view);
    active
}

/// Returns what every segment file starts with.
pub fn segment_header() -> (bytes: Vec<u8>)
    ensures
        bytes@ == segment_magic(),
{
    let mut bytes: Vec<u8> = Vec::new();
    bytes.push(0x53);
    bytes.push(0x4B);
    bytes.push(0x52);
    bytes.push(0x31);
    assert(bytes@ =~= segment_magic());
    bytes
}

fn write_missing_header(segments: &mut Vec<Segment>, active: SegmentName)
    ensures
        segments_view(final(segments)@) == with_header(segments_view(old(segments)@), active.id),
{
    let ghost before = segments_view(segments@);
    if segments.len() == 0 {
        segments.push(Segment { name: active, bytes: segment_header() });
        assert(segments_view(segments@) =~= with_header(before, active.id));
        return;
    }
    let ghost ready = with_header(before, active.id);
    let mut i: usize = 0;
    assert(segments_view(segments@) =~= ready.take(0) + before.skip(0));
    while i < segments.len()
        invariant
            i <= segments@.len(),
            segments@.len() == before.len(),
            before.len() > 0,
            ready == with_header(before, active.id),
            segments_view(segments@) == ready.take(i as int) + before.skip(i as int),
        decreases segments@.len() - i,
    {
        let ghost now = segments_view(segments@);
        assert(now[i as int] == before[i as int]);
        assert(now[i as int] == segments@[i as int]@);
        if segments[i].name.id == active.id && segments[i].bytes.len() == 0 {
            let header = Segment { name: active, bytes: segment_header() };
            segments.set(i, header);
        }
        proof {
            assert(segments_view(segments@) =~= now.update(i as int, ready[i as int]));
            assert(now.update(i as int, ready[i as int]) =~= ready.take(i + 1) + before.skip(i + 1));
        }
        i = i + 1;
    }
    assert(ready.take(i as int) + before.skip(i as int) =~= ready);
}

fn length_of(segments: &Vec<Segment>, id: u64) -> (len: u64)
    ensures
        len == len_of(segments_view(segments@), id),
{
    let ghost view = segments_view(segments@);
    let mut i: usize = 0;
    assert(view.skip(0) =~= view);
    while i < segments.len()
        invariant
            i <= segments@.len(),
            view == segments_view(segments@),
            len_of(view.skip(i as int), id) == len_of(view, id),
        decreases segments@.len() - i,
    {
        assert(view.skip(i as int).skip(1) =~= view.skip(i + 1));
        assert(view[i as int] == segments@[i as int]@);
        if segments[i].name.id == id {
            return segments[i].bytes.len() as u64;
        }
        i = i + 1;
    }
    0
}

impl StorageEngine {
    /// Opens a storage engine over the contents of the storage files.
    ///
    /// Opening recovers the active segment, loads the node registry and checkpoint index, and
    /// prepares the active append segment for new writes. Afterwards `segments` holds what
    /// the segment files must hold: an incomplete end of the active segment is cut off, and
    /// the active segment has a header.
    pub fn new(
        sync: SyncPolicy,
        segments: &mut Vec<Segment>,
        nodes_text: Option<&str>,
        checkpoints_text: Option<&str>,
    ) -> (result: Result<Self, StorageError>)
        ensures
            ({
                let (expected, after) = opened(
                    sync,
                    DEFAULT_MAX_SEGMENT_LEN,
                    segments_view(old(segments)@),
                    text_view(nodes_text),
                    text_view(checkpoints_text),
                );
                &&& (match expected {
                    Ok(engine) => result is Ok && result->Ok_0@ == engine,
                    Err(error) => result is Err && result->Err_0 == error,
                })
                &&& segments_view(final(segments)@) == after
            }),
    {
        Self::with_max_segment_len(
            sync,
            DEFAULT_MAX_SEGMENT_LEN,
            segments,
            nodes_text,
            checkpoints_text,
        )
    }

    /// Opens a storage engine with a maximum append segment length.
    ///
    /// `max_segment_len` is a rotation threshold, not a hard per-record limit. If a record
    /// frame is larger than `max_segment_len`, it is written to an empty segment and that
    /// segment is allowed to exceed the threshold.
    pub fn with_max_segment_len(
        sync: SyncPolicy,
        max_segment_len: u64,
        segments: &mut Vec<Segment>,
        nodes_text: Option<&str>,
        checkpoints_text: Option<&str>,
    ) -> (result: Result<Self, StorageError>)
        ensures
            ({
                let (expected, after) = opened(
                    sync,
                    max_segment_len,
                    segments_view(old(segments)@),
                    text_view(nodes_text),
                    text_view(checkpoints_text),
                );
                &&& (match expected {
                    Ok(engine) => result is Ok && result->Ok_0@ == engine,
                    Err(error) => result is Err && result->Err_0 == error,
                })
                &&& segments_view(final(segments)@) == after
            }),
    {
        if max_segment_len == 0 {
            return Err(StorageError::ZeroMaxSegmentLen);
        }
        let active = find_newest_segment(segments);
        let mut stats = StorageStatsCounters::default();
        recover_storage_dir(segments, active, &mut stats)?;
        let registry = match nodes_text {
            None => NodeRegistry::default(),
            Some(text) => parse_node_registry(text)?,
        };
        let index = CheckpointIndex::load(checkpoints_text, &registry, segments)?;
        stats.node_counts_changed(
            registry.active_node_count() as u64,
            registry.removed_node_count() as u64,
        );
        stats.checkpoint_index_changed(index.len() as u64);
        write_missing_header(segments, active);
        let segment_len: u64 = length_of(segments, active.id);
        stats.segment_opened(active.id, segment_len);
        Ok(
            Self {
                sync,
                stats,
                registry,
                checkpoint_index: index,
                writer: SegmentWriter { active_segment: active, segment_len, max_segment_len },
            },
        )
    }

    /// The segments that a garbage collection deletes: those that are not active and that the
    /// barrier allows to delete.
    pub fn deletable_segments(
        &self,
        limit: Option<GcBarrier>,
        names: &Vec<SegmentName>,
    ) -> (deletable: Vec<SegmentName>)
        ensures
            deletable@ == names@.filter(
                |name: SegmentName| may_delete(limit, self@.active, name.id),
            ),
    {
        let ghost wanted = |name: SegmentName| may_delete(limit, self@.active, name.id);
        let mut deletable: Vec<SegmentName> = Vec::new();
        let mut i: usize = 0;
        assert(names@.take(0).filter(wanted) =~= Seq::empty()) by {
            reveal(Seq::filter);
        }
        while i < names.len()
            invariant
                i <= names@.len(),
                wanted == (|name: SegmentName| may_delete(limit, self@.active, name.id)),
                deletable@ == names@.take(i as int).filter(wanted),
            decreases names@.len() - i,
        {
            let name = names[i];
            proof {
                assert(names@.take(i + 1).drop_last() =~= names@.take(i as int));
                reveal(Seq::filter);
            }
            if name.id != self.writer.active_segment.id {
                if let Some(limit) = limit {
                    if limit.allows_delete(name) {
                        deletable.push(name);
                    }
                }
            }
            i = i + 1;
        }
        assert(names@.take(i as int) =~= names@);
        deletable
    }
}

/// Whether a garbage collection deletes a segment.
pub open spec fn may_delete(limit: Option<GcBarrier>, active: u64, id: u64) -> bool {
    limit matches Some(limit) && id != active && limit.allows(id)
}

/// What an operation does that writes one record of a node.
pub open spec fn saves_record(
    before: EngineView,
    node: NodeId,
    record: RecordView,
    operation: StorageOperationKind,
    result: Result<Vec<Step>, StorageError>,
    after: EngineView,
) -> bool {
    match before.access(node) {
        Err((error, kind)) => {
            &&& result is Err
            &&& result->Err_0 == error
            &&& after == before.rejecting(operation, kind)
        },
        Ok(()) => {
            &&& after == before
            &&& match before.append(node, record) {
                Ok((steps, _)) => result is Ok && steps_view(result->Ok_0@) == steps,
                Err(error) => result is Err && result->Err_0 == error,
            }
        },
    }
}

} // verus!
