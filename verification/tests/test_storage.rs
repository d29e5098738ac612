use std::cell::RefCell;
use std::collections::{BTreeMap, BTreeSet};
use std::rc::Rc;

use sukari::replay::{
    replay_node_segment, replay_node_state, replay_segment, replay_storage_dir, ReplayState,
};
use sukari::segment::discover_segments;
use sukari::stats::StorageStatsCounters;
use sukari::{
    Bytes, ClusterConfig, CommandPayload, ErrorKind, Log, LogAppend, LogIndex, LogPosition, NodeId,
    NodeMetadata, NodeState, RecordPosition, Segment, Snapshot, SnapshotCheckpoint, Step,
    StorageEngine, StorageError, StorageStats, SyncPolicy, Term,
};

const SEGMENT_FILE_NAME: &str = "append-0.segment";
const SECOND_SEGMENT_FILE_NAME: &str = "append-1.segment";
const THIRD_SEGMENT_FILE_NAME: &str = "append-2.segment";
const FOURTH_SEGMENT_FILE_NAME: &str = "append-3.segment";
const FIFTH_SEGMENT_FILE_NAME: &str = "append-4.segment";
const NODE_REGISTRY_FILE_NAME: &str = "nodes.json";
const NODE_REGISTRY_TMP_FILE_NAME: &str = "nodes.json.tmp";
const CHECKPOINT_INDEX_FILE_NAME: &str = "checkpoints.json";
const CHECKPOINT_INDEX_TMP_FILE_NAME: &str = "checkpoints.json.tmp";
const FIRST_RECORD_BODY_OFFSET: usize = 12;
const MAX_RECORD_BODY_LEN: u32 = 1024 * 1024 * 1024;

/// A directory in memory.
#[derive(Debug, Clone)]
struct Dir {
    files: Rc<RefCell<BTreeMap<String, Vec<u8>>>>,
}

impl Dir {
    fn new() -> Self {
        Self {
            files: Rc::new(RefCell::new(BTreeMap::new())),
        }
    }

    fn is_empty(&self) -> bool {
        self.files.borrow().is_empty()
    }

    fn has(&self, name: &str) -> bool {
        self.files.borrow().contains_key(name)
    }

    fn names(&self) -> Vec<String> {
        self.files.borrow().keys().cloned().collect()
    }

    fn read(&self, name: &str) -> Vec<u8> {
        self.files
            .borrow()
            .get(name)
            .expect("file should exist")
            .clone()
    }

    fn read_text(&self, name: &str) -> Option<String> {
        self.files
            .borrow()
            .get(name)
            .map(|bytes| String::from_utf8(bytes.clone()).expect("file should be text"))
    }

    fn write(&self, name: &str, bytes: &[u8]) {
        self.files
            .borrow_mut()
            .insert(name.to_owned(), bytes.to_vec());
    }

    fn append(&self, name: &str, bytes: &[u8]) {
        self.files
            .borrow_mut()
            .get_mut(name)
            .expect("file should exist")
            .extend_from_slice(bytes);
    }

    fn remove(&self, name: &str) {
        self.files
            .borrow_mut()
            .remove(name)
            .expect("file should exist");
    }

    /// An independent copy of the directory.
    fn copy(&self) -> Self {
        Self {
            files: Rc::new(RefCell::new(self.files.borrow().clone())),
        }
    }

    fn read_segments(&self) -> Vec<Segment> {
        discover_segments(&self.names())
            .into_iter()
            .map(|name| Segment {
                name,
                bytes: self.read(&name.file_name()),
            })
            .collect()
    }

    fn write_segments(&self, segments: &[Segment]) {
        for segment in segments {
            self.write(&segment.name.file_name(), &segment.bytes);
        }
    }
}

/// An engine over a directory in memory.
#[derive(Debug)]
struct Store {
    dir: Dir,
    engine: StorageEngine,
    syncs: usize,
}

impl Store {
    fn new(dir: &Dir, sync: SyncPolicy) -> Result<Self, StorageError> {
        let mut segments = dir.read_segments();
        let nodes = dir.read_text(NODE_REGISTRY_FILE_NAME);
        let checkpoints = dir.read_text(CHECKPOINT_INDEX_FILE_NAME);
        let engine = StorageEngine::new(
            sync,
            &mut segments,
            nodes.as_deref(),
            checkpoints.as_deref(),
        );
        dir.write_segments(&segments);
        Ok(Self {
            dir: dir.clone(),
            engine: engine?,
            syncs: 0,
        })
    }

    fn with_max_segment_len(dir: &Dir, sync: SyncPolicy, len: u64) -> Result<Self, StorageError> {
        let mut segments = dir.read_segments();
        let nodes = dir.read_text(NODE_REGISTRY_FILE_NAME);
        let checkpoints = dir.read_text(CHECKPOINT_INDEX_FILE_NAME);
        let engine = StorageEngine::with_max_segment_len(
            sync,
            len,
            &mut segments,
            nodes.as_deref(),
            checkpoints.as_deref(),
        );
        dir.write_segments(&segments);
        Ok(Self {
            dir: dir.clone(),
            engine: engine?,
            syncs: 0,
        })
    }

    fn perform(&mut self, step: &Step) -> u64 {
        match step {
            Step::SyncSegment => {
                self.syncs += 1;
                0
            }
            Step::CreateSegment(name) => {
                self.dir.write(&name.file_name(), b"SKR1");
                0
            }
            Step::AppendFrame { frame, .. } => {
                self.dir
                    .append(&self.engine.active_segment().file_name(), frame);
                0
            }
            Step::SaveCheckpointIndex(_) => {
                let text = step.metadata_text().expect("index should have a text");
                self.dir.write(CHECKPOINT_INDEX_FILE_NAME, text.as_bytes());
                0
            }
            Step::SaveNodeRegistry(_) => {
                let text = step.metadata_text().expect("registry should have a text");
                self.dir.write(NODE_REGISTRY_FILE_NAME, text.as_bytes());
                0
            }
            Step::CollectGarbage(limit) => {
                let names = discover_segments(&self.dir.names());
                let deletable = self.engine.deletable_segments(*limit, &names);
                for name in &deletable {
                    self.dir.remove(&name.file_name());
                }
                deletable.len() as u64
            }
            _ => 0,
        }
    }

    fn run(&mut self, steps: Vec<Step>) -> Result<(), StorageError> {
        for step in steps {
            let deleted = self.perform(&step);
            self.engine.complete(step, deleted)?;
        }
        Ok(())
    }

    fn create_node(&mut self, id: NodeId, metadata: NodeMetadata) -> Result<(), StorageError> {
        let steps = self.engine.create_node(id, metadata)?;
        self.run(steps)
    }

    fn save_current_term(&mut self, id: NodeId, term: Term) -> Result<(), StorageError> {
        let steps = self.engine.save_current_term(id, term)?;
        self.run(steps)
    }

    fn save_voted_for(&mut self, id: NodeId, vote: Option<NodeId>) -> Result<(), StorageError> {
        let steps = self.engine.save_voted_for(id, vote)?;
        self.run(steps)
    }

    fn append_entries(&mut self, id: NodeId, append: LogAppend) -> Result<(), StorageError> {
        let steps = self.engine.append_entries(id, append)?;
        self.run(steps)
    }

    fn save_snapshot(
        &mut self,
        id: NodeId,
        checkpoint: SnapshotCheckpoint,
    ) -> Result<(), StorageError> {
        let steps = self.engine.save_snapshot(id, checkpoint)?;
        self.run(steps)
    }

    fn remove_node(&mut self, id: NodeId) -> Result<(), StorageError> {
        let steps = self.engine.remove_node(id)?;
        self.run(steps)
    }

    fn flush(&mut self) -> Result<(), StorageError> {
        let steps = self.engine.flush();
        self.run(steps)
    }

    fn load(&mut self, id: NodeId) -> Result<NodeState, StorageError> {
        let mut segments = self.dir.read_segments();
        let state = self.engine.load(id, &mut segments);
        self.dir.write_segments(&segments);
        state
    }

    fn load_all(&mut self) -> Result<BTreeMap<NodeId, NodeState>, StorageError> {
        let mut segments = self.dir.read_segments();
        let states = self.engine.load_all(&mut segments);
        self.dir.write_segments(&segments);
        Ok(states?
            .into_iter()
            .map(|(id, state)| (NodeId(id), state))
            .collect())
    }

    fn node_metadata(&self, id: NodeId) -> Option<&NodeMetadata> {
        self.engine.node_metadata(id)
    }

    fn nodes(&self) -> Vec<(NodeId, &NodeMetadata)> {
        self.engine.nodes()
    }

    fn startup_nodes(&self) -> Vec<(NodeId, &NodeMetadata)> {
        self.engine.startup_nodes()
    }

    fn stats(&self) -> StorageStats {
        self.engine.stats()
    }
}

fn append<const N: usize, I>(
    prev_position: noraft::LogPosition,
    entries: I,
    commands: [(u64, Bytes); N],
) -> LogAppend
where
    I: IntoIterator<Item = noraft::LogEntry>,
{
    LogAppend::new(
        noraft::LogEntries::from_iter(prev_position, entries),
        commands
            .into_iter()
            .map(|(index, payload)| (index, command_payload(payload)))
            .collect(),
    )
    .expect("append should have matching command payloads")
}

fn term_entry(term: u64) -> noraft::LogEntry {
    noraft::LogEntry::Term(noraft::Term::new(term))
}

fn command_payload(bytes: Bytes) -> CommandPayload {
    CommandPayload::new(0, bytes)
}

fn command_payload_bytes(payload: &CommandPayload) -> &[u8] {
    payload.bytes().as_slice()
}

fn snapshot(last_included: noraft::LogPosition, data: &[u8]) -> Snapshot {
    Snapshot {
        last_included: stored_position(last_included),
        config: ClusterConfig::new(),
        data: Bytes::from(data),
    }
}

fn checkpoint(
    current_term: Term,
    voted_for: Option<NodeId>,
    snapshot: Snapshot,
    suffix: LogAppend,
) -> SnapshotCheckpoint {
    SnapshotCheckpoint {
        current_term,
        voted_for,
        snapshot,
        suffix,
    }
}

fn create_node(engine: &mut Store, node_id: u64) {
    engine
        .create_node(NodeId(node_id), NodeMetadata::default())
        .expect("node should be created");
}

fn create_two_segment_store(dir: &Dir) {
    let mut engine = Store::with_max_segment_len(dir, SyncPolicy::UnsafeNoSync, 1)
        .expect("storage should open");
    create_node(&mut engine, 1);
    engine
        .save_current_term(NodeId(1), Term(2))
        .expect("term should be stored");
}

fn create_checkpoint_index_store(dir: &Dir) {
    let mut engine = Store::new(dir, SyncPolicy::UnsafeNoSync).expect("storage should open");
    create_node(&mut engine, 1);
    engine
        .save_snapshot(
            NodeId(1),
            checkpoint(
                Term(1),
                None,
                snapshot(noraft::LogPosition::ZERO, b"checkpoint"),
                append(noraft::LogPosition::ZERO, std::iter::empty(), []),
            ),
        )
        .expect("checkpoint should be stored");
}

fn node_metadata(startup: bool, metadata: &str) -> NodeMetadata {
    NodeMetadata::new(
        startup,
        nojson::RawJsonOwned::parse(metadata).expect("metadata should be valid JSON"),
    )
}

fn position(term: u64, index: u64) -> noraft::LogPosition {
    noraft::LogPosition {
        term: noraft::Term::new(term),
        index: noraft::LogIndex::new(index),
    }
}

fn stored_position(position: noraft::LogPosition) -> LogPosition {
    LogPosition {
        term: Term(position.term.get()),
        index: LogIndex(position.index.get()),
    }
}

fn write_node_registry(dir: &Dir, text: &str) {
    dir.write(NODE_REGISTRY_FILE_NAME, text.as_bytes());
}

fn write_checkpoint_index(dir: &Dir, text: &str) {
    dir.write(CHECKPOINT_INDEX_FILE_NAME, text.as_bytes());
}

fn read_checkpoint_index(dir: &Dir) -> String {
    dir.read_text(CHECKPOINT_INDEX_FILE_NAME)
        .expect("checkpoint index should exist")
}

#[test]
fn log_append_requires_command_payloads() {
    let entries =
        noraft::LogEntries::from_iter(noraft::LogPosition::ZERO, [noraft::LogEntry::Command]);

    let err = LogAppend::new(entries, BTreeMap::new())
        .expect_err("command entries should require payloads");
    assert_eq!(err.kind(), ErrorKind::InvalidInput);
}

#[test]
fn log_append_rejects_payloads_without_command_entries() {
    let entries = noraft::LogEntries::from_iter(
        noraft::LogPosition::ZERO,
        [term_entry(1)],
    );
    let mut commands = BTreeMap::new();
    commands.insert(
        1,
        command_payload(Bytes::from(b"command".as_slice())),
    );

    let err =
        LogAppend::new(entries, commands).expect_err("term entries should not accept payloads");
    assert_eq!(err.kind(), ErrorKind::InvalidInput);
}

#[test]
fn storage_engine_replays_command_payload_tags() {
    let dir = Dir::new();
    let mut engine =
        Store::new(&dir, SyncPolicy::UnsafeNoSync).expect("storage should open");
    create_node(&mut engine, 1);

    let entries =
        noraft::LogEntries::from_iter(noraft::LogPosition::ZERO, [noraft::LogEntry::Command]);
    let payload = CommandPayload::new(7, Bytes::from(b"tagged-command".as_slice()));
    let command_payloads = BTreeMap::from([(1, payload.clone())]);
    engine
        .append_entries(
            NodeId(1),
            LogAppend::new(entries, command_payloads)
                .expect("append should have matching command payloads"),
        )
        .expect("append should be stored");
    drop(engine);

    let mut engine =
        Store::new(&dir, SyncPolicy::UnsafeNoSync).expect("storage should reopen");
    let state = engine
        .load(NodeId(1))
        .expect("node state should load");
    assert_eq!(state.command_payloads.get(&1), Some(&payload));
}

#[test]
fn storage_engine_rejects_zero_max_segment_len() {
    let dir = Dir::new();

    let err = Store::with_max_segment_len(&dir, SyncPolicy::UnsafeNoSync, 0)
        .expect_err("zero max segment length should be rejected");
    assert_eq!(err.kind(), ErrorKind::InvalidInput);
    assert!(dir.is_empty());
}

#[test]
fn storage_engine_persists_node_registry_metadata() {
    let dir = Dir::new();
    let mut engine =
        Store::new(&dir, SyncPolicy::UnsafeNoSync).expect("storage should open");

    let control_metadata = node_metadata(true, r#"{"role":"control"}"#);
    let worker_metadata = node_metadata(false, r#""worker""#);
    engine
        .create_node(NodeId(1), control_metadata.clone())
        .expect("control node should be created");
    engine
        .create_node(NodeId(2), worker_metadata.clone())
        .expect("worker node should be created");

    assert_eq!(
        engine
            .node_metadata(NodeId(1))
            .expect("control metadata should exist"),
        &control_metadata
    );
    assert_eq!(
        engine
            .nodes()
            .into_iter()
            .map(|(node_id, metadata)| (node_id, metadata.metadata().text().to_owned()))
            .collect::<BTreeMap<_, _>>(),
        BTreeMap::from([
            (NodeId(1), r#"{"role":"control"}"#.to_owned()),
            (NodeId(2), r#""worker""#.to_owned()),
        ])
    );
    assert_eq!(
        engine
            .startup_nodes()
            .into_iter()
            .map(|(node_id, _)| node_id)
            .collect::<Vec<_>>(),
        vec![NodeId(1)]
    );
    drop(engine);

    let mut engine =
        Store::new(&dir, SyncPolicy::UnsafeNoSync).expect("storage should reopen");
    assert_eq!(
        engine
            .node_metadata(NodeId(1))
            .expect("control metadata should persist"),
        &control_metadata
    );
    assert_eq!(
        engine
            .node_metadata(NodeId(2))
            .expect("worker metadata should persist"),
        &worker_metadata
    );
    let state = engine
        .load(NodeId(1))
        .expect("empty created node should load");
    assert_eq!(state.current_term, Term(0));
    assert_eq!(
        state
            .snapshot
            .expect("initial checkpoint snapshot should load")
            .last_included,
        stored_position(noraft::LogPosition::ZERO)
    );
}

#[test]
fn storage_engine_rejects_uncreated_nodes() {
    let dir = Dir::new();
    let mut engine =
        Store::new(&dir, SyncPolicy::UnsafeNoSync).expect("storage should open");
    let node_id = NodeId(1);

    let err = engine
        .load(node_id)
        .expect_err("uncreated node should not load");
    assert_eq!(err.kind(), ErrorKind::NotFound);
    let err = engine
        .save_current_term(node_id, Term(1))
        .expect_err("uncreated node should reject term writes");
    assert_eq!(err.kind(), ErrorKind::NotFound);
    let err = engine
        .append_entries(
            node_id,
            append(
                position(0, 0),
                [term_entry(1)],
                [],
            ),
        )
        .expect_err("uncreated node should reject log appends");
    assert_eq!(err.kind(), ErrorKind::NotFound);
    let err = engine
        .save_snapshot(
            node_id,
            checkpoint(
                Term(1),
                None,
                snapshot(noraft::LogPosition::ZERO, b"checkpoint"),
                append(noraft::LogPosition::ZERO, std::iter::empty(), []),
            ),
        )
        .expect_err("uncreated node should reject checkpoint writes");
    assert_eq!(err.kind(), ErrorKind::NotFound);
}

#[test]
fn storage_engine_reports_typed_stats() {
    let dir = Dir::new();
    let mut engine = Store::with_max_segment_len(&dir, SyncPolicy::UnsafeNoSync, 1)
        .expect("storage should open");

    let initial_stats = engine.stats();
    assert_eq!(initial_stats.active_nodes, 0);
    assert_eq!(initial_stats.active_append_segment_id, 0);

    create_node(&mut engine, 1);
    engine
        .save_current_term(NodeId(1), Term(1))
        .expect("term should be stored");
    engine
        .save_voted_for(NodeId(1), Some(NodeId(2)))
        .expect("vote should be stored");
    engine
        .append_entries(
            NodeId(1),
            append(
                noraft::LogPosition::ZERO,
                [
                    term_entry(1),
                    noraft::LogEntry::Command,
                ],
                [(2, Bytes::from(b"command".as_slice()))],
            ),
        )
        .expect("append should be stored");
    engine
        .save_snapshot(
            NodeId(1),
            checkpoint(
                Term(2),
                None,
                snapshot(noraft::LogPosition::ZERO, b"checkpoint"),
                append(noraft::LogPosition::ZERO, std::iter::empty(), []),
            ),
        )
        .expect("checkpoint should be stored");
    engine.flush().expect("flush should succeed");

    let stats = engine.stats();
    assert_eq!(stats.records_written.current_term, 1);
    assert_eq!(stats.records_written.voted_for, 1);
    assert_eq!(stats.records_written.log_append, 1);
    assert_eq!(stats.records_written.snapshot_checkpoint, 2);
    assert!(0 < stats.bytes_written.current_term);
    assert!(0 < stats.bytes_written.snapshot_checkpoint);
    assert_eq!(stats.nodes_created, 1);
    assert_eq!(stats.snapshot_checkpoints_saved, 1);
    assert_eq!(stats.segment_rotations, 4);
    assert_eq!(stats.syncs, 1);
    assert_eq!(stats.durable_syncs, 0);
    assert_eq!(stats.gc_runs, 1);
    assert_eq!(stats.gc_segments_deleted, 4);
    assert_eq!(stats.active_nodes, 1);
    assert_eq!(stats.removed_nodes, 0);
    assert_eq!(stats.checkpoint_index_nodes, 1);
    assert_eq!(stats.active_append_segment_id, 4);
    assert!(0 < stats.active_append_segment_len_bytes);
    assert_eq!(stats.records_replayed.snapshot_checkpoint, 0);

    engine
        .load(NodeId(1))
        .expect("node state should load");
    let stats = engine.stats();
    assert_eq!(stats.records_replayed.snapshot_checkpoint, 1);
    assert!(0 < stats.bytes_replayed.snapshot_checkpoint);
}

#[test]
fn storage_engine_reports_rejected_operation_stats() {
    let dir = Dir::new();
    let mut engine =
        Store::new(&dir, SyncPolicy::UnsafeNoSync).expect("storage should open");

    let unknown_node = NodeId(1);
    engine
        .load(unknown_node)
        .expect_err("unknown node should not load");
    engine
        .save_current_term(unknown_node, Term(1))
        .expect_err("unknown node should not save a term");
    engine
        .save_voted_for(unknown_node, None)
        .expect_err("unknown node should not save a vote");
    engine
        .append_entries(
            unknown_node,
            append(noraft::LogPosition::ZERO, std::iter::empty(), []),
        )
        .expect_err("unknown node should not append entries");
    engine
        .save_snapshot(
            unknown_node,
            checkpoint(
                Term(1),
                None,
                snapshot(noraft::LogPosition::ZERO, b"checkpoint"),
                append(noraft::LogPosition::ZERO, std::iter::empty(), []),
            ),
        )
        .expect_err("unknown node should not save a checkpoint");
    engine
        .remove_node(unknown_node)
        .expect_err("unknown node should not be removed");

    let stats = engine.stats();
    assert_eq!(stats.rejected_operations.unknown_nodes.load, 1);
    assert_eq!(stats.rejected_operations.unknown_nodes.save_current_term, 1);
    assert_eq!(stats.rejected_operations.unknown_nodes.save_voted_for, 1);
    assert_eq!(stats.rejected_operations.unknown_nodes.append_entries, 1);
    assert_eq!(stats.rejected_operations.unknown_nodes.save_snapshot, 1);
    assert_eq!(stats.rejected_operations.unknown_nodes.remove_node, 1);

    let removed_node = NodeId(2);
    create_node(&mut engine, 2);
    engine
        .remove_node(removed_node)
        .expect("node should be removed");
    engine
        .load(removed_node)
        .expect_err("removed node should not load");
    engine
        .append_entries(
            removed_node,
            append(noraft::LogPosition::ZERO, std::iter::empty(), []),
        )
        .expect_err("removed node should not append entries");
    engine
        .save_snapshot(
            removed_node,
            checkpoint(
                Term(1),
                None,
                snapshot(noraft::LogPosition::ZERO, b"checkpoint"),
                append(noraft::LogPosition::ZERO, std::iter::empty(), []),
            ),
        )
        .expect_err("removed node should not save a checkpoint");
    engine
        .remove_node(removed_node)
        .expect_err("removed node should not be removed again");

    let stats = engine.stats();
    assert_eq!(stats.nodes_removed, 1);
    assert_eq!(stats.active_nodes, 0);
    assert_eq!(stats.removed_nodes, 1);
    assert_eq!(stats.rejected_operations.removed_nodes.load, 1);
    assert_eq!(stats.rejected_operations.removed_nodes.append_entries, 1);
    assert_eq!(stats.rejected_operations.removed_nodes.save_snapshot, 1);
    assert_eq!(stats.rejected_operations.removed_nodes.remove_node, 1);
}

#[test]
fn storage_engine_reports_flush_and_sync_stats() {
    let dir = Dir::new();
    let mut engine = Store::new(
        &dir,
        SyncPolicy::Batch {
            max_records: 2,
            max_bytes: 0,
        },
    )
    .expect("storage should open");

    create_node(&mut engine, 1);
    let stats = engine.stats();
    assert_eq!(stats.durable_syncs, 1);
    assert_eq!(stats.syncs, 0);
    assert_eq!(stats.unsynced_records, 0);
    assert_eq!(stats.unsynced_bytes, 0);

    engine
        .save_current_term(NodeId(1), Term(1))
        .expect("term should be stored");
    let stats = engine.stats();
    assert_eq!(stats.durable_syncs, 1);
    assert_eq!(stats.unsynced_records, 1);
    assert!(0 < stats.unsynced_bytes);

    engine.flush().expect("flush should succeed");
    let stats = engine.stats();
    assert_eq!(stats.durable_syncs, 2);
    assert_eq!(stats.syncs, 1);
    assert_eq!(stats.unsynced_records, 0);
    assert_eq!(stats.unsynced_bytes, 0);
}

#[test]
fn storage_engine_rejects_duplicate_active_node_creation() {
    let dir = Dir::new();
    let mut engine =
        Store::new(&dir, SyncPolicy::UnsafeNoSync).expect("storage should open");
    create_node(&mut engine, 1);

    let err = engine
        .create_node(NodeId(1), NodeMetadata::default())
        .expect_err("active node ID should not be reusable");
    assert_eq!(err.kind(), ErrorKind::AlreadyExists);
}

#[test]
fn storage_engine_reserves_removed_node_ids() {
    let dir = Dir::new();
    let mut engine =
        Store::new(&dir, SyncPolicy::UnsafeNoSync).expect("storage should open");
    create_node(&mut engine, 7);

    engine
        .remove_node(NodeId(7))
        .expect("node should be removed");
    assert_eq!(engine.node_metadata(NodeId(7)), None);
    let err = engine
        .create_node(NodeId(7), NodeMetadata::default())
        .expect_err("removed node ID should not be reusable");
    assert_eq!(err.kind(), ErrorKind::AlreadyExists);
    let err = engine
        .save_current_term(NodeId(7), Term(2))
        .expect_err("removed node should reject writes");
    assert_eq!(err.kind(), ErrorKind::NotFound);
    drop(engine);

    let mut engine =
        Store::new(&dir, SyncPolicy::UnsafeNoSync).expect("storage should reopen");
    let err = engine
        .create_node(NodeId(7), NodeMetadata::default())
        .expect_err("removed node ID should remain reserved after reopen");
    assert_eq!(err.kind(), ErrorKind::AlreadyExists);
}

#[test]
fn storage_engine_rejects_unknown_and_removed_node_removal() {
    let dir = Dir::new();
    let mut engine =
        Store::new(&dir, SyncPolicy::UnsafeNoSync).expect("storage should open");

    let err = engine
        .remove_node(NodeId(1))
        .expect_err("unknown node should not be removed");
    assert_eq!(err.kind(), ErrorKind::NotFound);

    create_node(&mut engine, 1);
    engine
        .remove_node(NodeId(1))
        .expect("node should be removed");
    let err = engine
        .remove_node(NodeId(1))
        .expect_err("removed node should not be removed again");
    assert_eq!(err.kind(), ErrorKind::NotFound);
}

#[test]
fn storage_engine_ignores_stale_node_registry_tmp() {
    let dir = Dir::new();
    let mut engine =
        Store::new(&dir, SyncPolicy::UnsafeNoSync).expect("storage should open");
    let metadata = node_metadata(true, r#"{"role":"control"}"#);
    engine
        .create_node(NodeId(1), metadata.clone())
        .expect("node should be created");
    drop(engine);

    dir.write(NODE_REGISTRY_TMP_FILE_NAME, b"not-json");

    let engine = Store::new(&dir, SyncPolicy::UnsafeNoSync).expect("storage should reopen");
    assert_eq!(
        engine
            .node_metadata(NodeId(1))
            .expect("metadata should come from nodes.json"),
        &metadata
    );
    assert_eq!(engine.node_metadata(NodeId(2)), None);
}

#[test]
fn storage_engine_ignores_checkpoint_index_for_unregistered_node() {
    let dir = Dir::new();
    let mut engine =
        Store::new(&dir, SyncPolicy::UnsafeNoSync).expect("storage should open");
    engine
        .create_node(
            NodeId(1),
            node_metadata(true, r#"{"role":"control"}"#),
        )
        .expect("node should be created");
    drop(engine);

    assert!(read_checkpoint_index(&dir).contains(r#""1": {"#));
    dir.remove(NODE_REGISTRY_FILE_NAME);

    let mut engine =
        Store::new(&dir, SyncPolicy::UnsafeNoSync).expect("storage should reopen");
    assert!(engine.nodes().is_empty());
    assert!(engine.load_all().expect("states should load").is_empty());
    let err = engine
        .load(NodeId(1))
        .expect_err("unregistered node should not load");
    assert_eq!(err.kind(), ErrorKind::NotFound);

    let metadata = node_metadata(true, r#"{"role":"recreated"}"#);
    engine
        .create_node(NodeId(1), metadata.clone())
        .expect("node ID should be available when registry update was lost");
    engine
        .save_current_term(NodeId(1), Term(4))
        .expect("term should be stored");
    drop(engine);

    let mut engine =
        Store::new(&dir, SyncPolicy::UnsafeNoSync).expect("storage should reopen");
    assert_eq!(
        engine
            .node_metadata(NodeId(1))
            .expect("metadata should persist"),
        &metadata
    );
    assert_eq!(
        engine
            .load(NodeId(1))
            .expect("node state should load")
            .current_term,
        Term(4)
    );
}

#[test]
fn storage_engine_rejects_invalid_node_registry_files() {
    for (name, text) in [
        ("malformed", "{"),
        ("unsupported-version", r#"{"version":2,"nodes":{}}"#),
        ("missing-version", r#"{"nodes":{}}"#),
        ("missing-nodes", r#"{"version":1}"#),
        (
            "invalid-node-id",
            r#"{"version":1,"nodes":{"abc":{"startup":false,"metadata":{},"removed":false}}}"#,
        ),
        (
            "missing-startup",
            r#"{"version":1,"nodes":{"1":{"metadata":{},"removed":false}}}"#,
        ),
        (
            "missing-metadata",
            r#"{"version":1,"nodes":{"1":{"startup":false,"removed":false}}}"#,
        ),
        (
            "missing-removed",
            r#"{"version":1,"nodes":{"1":{"startup":false,"metadata":{}}}}"#,
        ),
    ] {
        let dir = Dir::new();
        write_node_registry(&dir, text);

        let err = Store::new(&dir, SyncPolicy::UnsafeNoSync)
            .expect_err("invalid registry should fail to load");
        assert_eq!(err.kind(), ErrorKind::InvalidData, "case: {name}");

    }
}

#[test]
fn storage_engine_persists_checkpoint_index_positions() {
    let dir = Dir::new();
    let mut engine = Store::with_max_segment_len(&dir, SyncPolicy::UnsafeNoSync, 1)
        .expect("storage should open");
    create_node(&mut engine, 1);
    engine
        .save_current_term(NodeId(1), Term(1))
        .expect("term should be stored in the first segment");
    engine
        .save_snapshot(
            NodeId(1),
            checkpoint(
                Term(2),
                None,
                snapshot(noraft::LogPosition::ZERO, b"checkpoint"),
                append(noraft::LogPosition::ZERO, std::iter::empty(), []),
            ),
        )
        .expect("checkpoint should be stored in the second segment");

    let checkpoint_index = read_checkpoint_index(&dir);
    assert!(checkpoint_index.contains(r#""version": 1"#));
    assert!(checkpoint_index.contains(r#""1": {"#));
    assert!(checkpoint_index.contains(r#""checkpoint_segment": "append-2.segment""#));
    assert!(checkpoint_index.contains(r#""checkpoint_offset": 4"#));
    assert!(!dir.has(SEGMENT_FILE_NAME));
    assert!(!dir.has(SECOND_SEGMENT_FILE_NAME));
    assert!(dir.has(THIRD_SEGMENT_FILE_NAME));
    drop(engine);

    let mut engine =
        Store::new(&dir, SyncPolicy::UnsafeNoSync).expect("storage should reopen");
    assert_eq!(
        engine
            .load(NodeId(1))
            .expect("node state should load")
            .current_term,
        Term(2)
    );
}

#[test]
fn storage_engine_ignores_stale_checkpoint_index_tmp() {
    let dir = Dir::new();
    create_checkpoint_index_store(&dir);

    dir.write(CHECKPOINT_INDEX_TMP_FILE_NAME, b"not-json");

    let mut engine =
        Store::new(&dir, SyncPolicy::UnsafeNoSync).expect("storage should reopen");
    assert_eq!(
        engine
            .load(NodeId(1))
            .expect("node state should load")
            .current_term,
        Term(1)
    );
}

#[test]
fn storage_engine_rejects_invalid_checkpoint_index_files() {
    for (name, text) in [
        ("malformed", "{"),
        ("unsupported-version", r#"{"version":2,"nodes":{}}"#),
        ("missing-version", r#"{"nodes":{}}"#),
        ("missing-nodes", r#"{"version":1}"#),
        (
            "invalid-node-id",
            r#"{"version":1,"nodes":{"abc":{"checkpoint_segment":"append-0.segment","checkpoint_offset":0}}}"#,
        ),
        (
            "missing-checkpoint-segment",
            r#"{"version":1,"nodes":{"1":{"checkpoint_offset":0}}}"#,
        ),
        (
            "missing-checkpoint-offset",
            r#"{"version":1,"nodes":{"1":{"checkpoint_segment":"append-0.segment"}}}"#,
        ),
        (
            "invalid-segment-name",
            r#"{"version":1,"nodes":{"1":{"checkpoint_segment":"bad.segment","checkpoint_offset":0}}}"#,
        ),
        (
            "non-canonical-segment-name",
            r#"{"version":1,"nodes":{"1":{"checkpoint_segment":"append-01.segment","checkpoint_offset":0}}}"#,
        ),
        (
            "rewrite-segment",
            r#"{"version":1,"nodes":{"1":{"checkpoint_segment":"rewrite-0.segment","checkpoint_offset":0}}}"#,
        ),
        (
            "missing-segment",
            r#"{"version":1,"nodes":{"1":{"checkpoint_segment":"append-999999.segment","checkpoint_offset":0}}}"#,
        ),
        (
            "offset-too-large",
            r#"{"version":1,"nodes":{"1":{"checkpoint_segment":"append-0.segment","checkpoint_offset":999999}}}"#,
        ),
        (
            "offset-inside-file-header",
            r#"{"version":1,"nodes":{"1":{"checkpoint_segment":"append-0.segment","checkpoint_offset":1}}}"#,
        ),
    ] {
        let dir = Dir::new();
        create_checkpoint_index_store(&dir);
        write_checkpoint_index(&dir, text);

        let err = Store::new(&dir, SyncPolicy::UnsafeNoSync)
            .expect_err("invalid checkpoint index should fail to load");
        assert_eq!(err.kind(), ErrorKind::InvalidData, "case: {name}");

    }
}

#[test]
fn storage_engine_rejects_checkpoint_index_that_points_to_non_checkpoint_record() {
    let dir = Dir::new();
    let mut engine = Store::with_max_segment_len(&dir, SyncPolicy::UnsafeNoSync, 1)
        .expect("storage should open");
    create_node(&mut engine, 1);
    engine
        .save_current_term(NodeId(1), Term(1))
        .expect("term should be stored");
    drop(engine);

    write_checkpoint_index(
        &dir,
        r#"{"version":1,"nodes":{"1":{"checkpoint_segment":"append-1.segment","checkpoint_offset":4}}}"#,
    );

    let err = Store::new(&dir, SyncPolicy::UnsafeNoSync)
        .expect_err("checkpoint index should point to checkpoint records");
    assert_eq!(err.kind(), ErrorKind::InvalidData);
}

#[test]
fn storage_engine_rejects_checkpoint_index_node_id_mismatch() {
    let dir = Dir::new();
    let mut engine =
        Store::new(&dir, SyncPolicy::UnsafeNoSync).expect("storage should open");
    create_node(&mut engine, 1);
    create_node(&mut engine, 2);
    engine
        .save_snapshot(
            NodeId(1),
            checkpoint(
                Term(1),
                None,
                snapshot(noraft::LogPosition::ZERO, b"checkpoint"),
                append(noraft::LogPosition::ZERO, std::iter::empty(), []),
            ),
        )
        .expect("checkpoint should be stored");
    drop(engine);

    write_checkpoint_index(
        &dir,
        r#"{"version":1,"nodes":{"2":{"checkpoint_segment":"append-0.segment","checkpoint_offset":4}}}"#,
    );

    let err = Store::new(&dir, SyncPolicy::UnsafeNoSync)
        .expect_err("checkpoint index node ID should match the record");
    assert_eq!(err.kind(), ErrorKind::InvalidData);
}

#[test]
fn storage_engine_scans_after_stale_checkpoint_index_hint() {
    let dir = Dir::new();
    let mut engine =
        Store::new(&dir, SyncPolicy::UnsafeNoSync).expect("storage should open");
    create_node(&mut engine, 1);
    engine
        .save_snapshot(
            NodeId(1),
            checkpoint(
                Term(1),
                None,
                snapshot(noraft::LogPosition::ZERO, b"old-checkpoint"),
                append(noraft::LogPosition::ZERO, std::iter::empty(), []),
            ),
        )
        .expect("old checkpoint should be stored");
    let stale_checkpoint_index = read_checkpoint_index(&dir);
    engine
        .append_entries(
            NodeId(1),
            append(
                position(9, 9),
                [term_entry(10)],
                [],
            ),
        )
        .expect("invalid append should be stored");
    engine
        .save_snapshot(
            NodeId(1),
            checkpoint(
                Term(2),
                None,
                snapshot(noraft::LogPosition::ZERO, b"new-checkpoint"),
                append(noraft::LogPosition::ZERO, std::iter::empty(), []),
            ),
        )
        .expect("new checkpoint should be stored");
    drop(engine);
    write_checkpoint_index(&dir, &stale_checkpoint_index);

    let mut engine =
        Store::new(&dir, SyncPolicy::UnsafeNoSync).expect("storage should reopen");
    let state = engine
        .load(NodeId(1))
        .expect("newer checkpoint should be found after the stale hint");
    assert_eq!(state.current_term, Term(2));
    assert_eq!(
        state
            .snapshot
            .expect("new checkpoint should be loaded")
            .data
            .as_slice(),
        b"new-checkpoint"
    );
    let all = engine
        .load_all()
        .expect("newer checkpoint should be found for load_all after the stale hint");
    let state = all
        .get(&NodeId(1))
        .expect("node state should be loaded");
    assert_eq!(state.current_term, Term(2));
    assert_eq!(
        state
            .snapshot
            .as_ref()
            .expect("new checkpoint should be loaded")
            .data
            .as_slice(),
        b"new-checkpoint"
    );
}

#[test]
fn storage_engine_load_all_falls_back_without_checkpoint_index() {
    let dir = Dir::new();
    let mut engine =
        Store::new(&dir, SyncPolicy::UnsafeNoSync).expect("storage should open");
    create_node(&mut engine, 1);
    engine
        .save_current_term(NodeId(1), Term(5))
        .expect("term should be stored");
    drop(engine);
    dir.remove(CHECKPOINT_INDEX_FILE_NAME);

    let mut engine =
        Store::new(&dir, SyncPolicy::UnsafeNoSync).expect("storage should reopen");
    assert_eq!(
        engine
            .load(NodeId(1))
            .expect("state should load by full scan")
            .current_term,
        Term(5)
    );
    let all = engine.load_all().expect("states should load by full scan");
    assert_eq!(
        all.get(&NodeId(1))
            .expect("node state should be loaded")
            .current_term,
        Term(5)
    );
}

#[test]
fn storage_engine_recovers_snapshot_checkpoint_without_checkpoint_index() {
    let dir = Dir::new();
    let mut engine = Store::with_max_segment_len(&dir, SyncPolicy::UnsafeNoSync, 1)
        .expect("storage should open");
    create_node(&mut engine, 1);
    engine
        .save_current_term(NodeId(1), Term(1))
        .expect("old term should be stored");
    engine
        .save_snapshot(
            NodeId(1),
            checkpoint(
                Term(2),
                None,
                snapshot(noraft::LogPosition::ZERO, b"checkpoint"),
                append(noraft::LogPosition::ZERO, std::iter::empty(), []),
            ),
        )
        .expect("checkpoint should be stored");
    drop(engine);

    dir.remove(CHECKPOINT_INDEX_FILE_NAME);

    let mut engine =
        Store::new(&dir, SyncPolicy::UnsafeNoSync).expect("storage should reopen");
    let state = engine
        .load(NodeId(1))
        .expect("node state should load by checkpoint scan");
    assert_eq!(state.current_term, Term(2));
    assert_eq!(
        state
            .snapshot
            .as_ref()
            .expect("checkpoint snapshot should be loaded")
            .data
            .as_slice(),
        b"checkpoint"
    );
    let all = engine
        .load_all()
        .expect("all states should load by checkpoint scan");
    assert_eq!(
        all.get(&NodeId(1))
            .expect("node state should be loaded")
            .current_term,
        Term(2)
    );
}

#[test]
fn storage_engine_removes_removed_nodes_from_checkpoint_index() {
    let dir = Dir::new();
    create_checkpoint_index_store(&dir);

    let mut engine =
        Store::new(&dir, SyncPolicy::UnsafeNoSync).expect("storage should reopen");
    engine
        .remove_node(NodeId(1))
        .expect("node should be removed");

    let checkpoint_index = read_checkpoint_index(&dir);
    assert!(checkpoint_index.contains(r#""nodes": {}"#));
}

#[test]
fn storage_engine_ignores_removed_node_checkpoint_index_entry_after_gc() {
    let dir = Dir::new();
    let mut engine = Store::with_max_segment_len(&dir, SyncPolicy::UnsafeNoSync, 1)
        .expect("storage should open");
    create_node(&mut engine, 1);
    let stale_checkpoint_index = read_checkpoint_index(&dir);
    engine
        .save_current_term(NodeId(1), Term(1))
        .expect("term should be stored");
    engine
        .remove_node(NodeId(1))
        .expect("node should be removed");
    assert!(!dir.has(SEGMENT_FILE_NAME));
    drop(engine);

    write_checkpoint_index(&dir, &stale_checkpoint_index);

    let mut engine =
        Store::new(&dir, SyncPolicy::UnsafeNoSync).expect("storage should reopen");
    assert!(engine.load_all().expect("states should load").is_empty());
    let err = engine
        .load(NodeId(1))
        .expect_err("removed node should not load");
    assert_eq!(err.kind(), ErrorKind::NotFound);
    let err = engine
        .create_node(NodeId(1), NodeMetadata::default())
        .expect_err("removed node ID should remain reserved");
    assert_eq!(err.kind(), ErrorKind::AlreadyExists);
}

#[test]
fn storage_engine_collects_obsolete_segments_after_checkpoint() {
    let dir = Dir::new();
    let mut engine = Store::with_max_segment_len(&dir, SyncPolicy::UnsafeNoSync, 1)
        .expect("storage should open");
    create_node(&mut engine, 1);

    engine
        .save_current_term(NodeId(1), Term(1))
        .expect("old term should be stored");
    assert!(dir.has(SEGMENT_FILE_NAME));

    engine
        .save_snapshot(
            NodeId(1),
            checkpoint(
                Term(2),
                None,
                snapshot(noraft::LogPosition::ZERO, b"checkpoint"),
                append(noraft::LogPosition::ZERO, std::iter::empty(), []),
            ),
        )
        .expect("checkpoint should be stored");
    assert!(!dir.has(SEGMENT_FILE_NAME));
    assert!(!dir.has(SECOND_SEGMENT_FILE_NAME));
    assert!(dir.has(THIRD_SEGMENT_FILE_NAME));

    engine
        .save_current_term(NodeId(1), Term(3))
        .expect("new term should be stored");
    assert!(dir.has(THIRD_SEGMENT_FILE_NAME));
    assert!(dir.has(FOURTH_SEGMENT_FILE_NAME));
    drop(engine);

    let mut engine =
        Store::new(&dir, SyncPolicy::UnsafeNoSync).expect("storage should reopen");
    assert_eq!(
        engine
            .load(NodeId(1))
            .expect("node state should load")
            .current_term,
        Term(3)
    );
}

#[test]
fn storage_engine_replays_after_incomplete_segment_gc() {
    let dir = Dir::new();
    let mut engine = Store::with_max_segment_len(&dir, SyncPolicy::UnsafeNoSync, 1)
        .expect("storage should open");
    create_node(&mut engine, 1);
    engine
        .append_entries(
            NodeId(1),
            append(
                position(9, 9),
                [term_entry(10)],
                [],
            ),
        )
        .expect("old invalid append should be stored");
    let obsolete_segment = dir.read(SECOND_SEGMENT_FILE_NAME);
    engine
        .save_snapshot(
            NodeId(1),
            checkpoint(
                Term(2),
                None,
                snapshot(noraft::LogPosition::ZERO, b"checkpoint"),
                append(noraft::LogPosition::ZERO, std::iter::empty(), []),
            ),
        )
        .expect("checkpoint should be stored");
    assert!(!dir.has(SECOND_SEGMENT_FILE_NAME));
    drop(engine);

    dir.write(SECOND_SEGMENT_FILE_NAME, &obsolete_segment);

    let mut engine =
        Store::new(&dir, SyncPolicy::UnsafeNoSync).expect("storage should reopen");
    assert!(dir.has(SECOND_SEGMENT_FILE_NAME));
    let state = engine
        .load(NodeId(1))
        .expect("node state should load from checkpoint");
    assert_eq!(state.current_term, Term(2));
    assert_eq!(
        state
            .snapshot
            .as_ref()
            .expect("checkpoint snapshot should be loaded")
            .data
            .as_slice(),
        b"checkpoint"
    );
    let all = engine
        .load_all()
        .expect("all states should skip obsolete segment");
    assert_eq!(
        all.get(&NodeId(1))
            .expect("node state should be loaded")
            .current_term,
        Term(2)
    );
}

#[test]
fn storage_engine_uses_initial_checkpoint_barriers_for_gc() {
    let dir = Dir::new();
    let mut engine = Store::with_max_segment_len(&dir, SyncPolicy::UnsafeNoSync, 1)
        .expect("storage should open");
    create_node(&mut engine, 1);
    create_node(&mut engine, 2);

    engine
        .save_current_term(NodeId(1), Term(1))
        .expect("node 1 term should be stored");
    engine
        .save_current_term(NodeId(2), Term(1))
        .expect("node 2 term should be stored");
    engine
        .save_snapshot(
            NodeId(1),
            checkpoint(
                Term(2),
                None,
                snapshot(noraft::LogPosition::ZERO, b"checkpoint"),
                append(noraft::LogPosition::ZERO, std::iter::empty(), []),
            ),
        )
        .expect("node 1 checkpoint should be stored");

    assert!(!dir.has(SEGMENT_FILE_NAME));
    assert!(dir.has(SECOND_SEGMENT_FILE_NAME));
    assert!(dir.has(THIRD_SEGMENT_FILE_NAME));
    assert!(dir.has(FOURTH_SEGMENT_FILE_NAME));
    assert!(dir.has(FIFTH_SEGMENT_FILE_NAME));

    engine
        .remove_node(NodeId(2))
        .expect("node 2 should be removed");
    assert!(!dir.has(SEGMENT_FILE_NAME));
    assert!(!dir.has(SECOND_SEGMENT_FILE_NAME));
    assert!(!dir.has(THIRD_SEGMENT_FILE_NAME));
    assert!(!dir.has(FOURTH_SEGMENT_FILE_NAME));
    assert!(dir.has(FIFTH_SEGMENT_FILE_NAME));
    drop(engine);

    let mut engine =
        Store::new(&dir, SyncPolicy::UnsafeNoSync).expect("storage should reopen");
    assert_eq!(
        engine
            .load(NodeId(1))
            .expect("node 1 state should load")
            .current_term,
        Term(2)
    );
    assert_eq!(
        engine
            .load(NodeId(2))
            .expect_err("removed node should not load")
            .kind(),
        ErrorKind::NotFound
    );
}

#[test]
fn storage_engine_collects_inactive_segments_after_last_node_removal() {
    let dir = Dir::new();
    let mut engine = Store::with_max_segment_len(&dir, SyncPolicy::UnsafeNoSync, 1)
        .expect("storage should open");
    create_node(&mut engine, 1);
    engine
        .save_current_term(NodeId(1), Term(1))
        .expect("first term should be stored");
    engine
        .save_current_term(NodeId(1), Term(2))
        .expect("second term should be stored");

    engine
        .remove_node(NodeId(1))
        .expect("node should be removed");
    assert!(!dir.has(SEGMENT_FILE_NAME));
    assert!(!dir.has(SECOND_SEGMENT_FILE_NAME));
    assert!(dir.has(THIRD_SEGMENT_FILE_NAME));
}

#[test]
fn storage_engine_does_not_collect_after_node_creation() {
    let dir = Dir::new();
    let mut engine = Store::with_max_segment_len(&dir, SyncPolicy::UnsafeNoSync, 1)
        .expect("storage should open");
    create_node(&mut engine, 1);
    engine
        .save_current_term(NodeId(1), Term(1))
        .expect("term should be stored");
    engine
        .remove_node(NodeId(1))
        .expect("node should be removed");
    assert!(!dir.has(SEGMENT_FILE_NAME));
    assert!(dir.has(SECOND_SEGMENT_FILE_NAME));

    create_node(&mut engine, 2);
    assert!(dir.has(SECOND_SEGMENT_FILE_NAME));
    assert!(dir.has(THIRD_SEGMENT_FILE_NAME));
    drop(engine);

    let mut engine =
        Store::new(&dir, SyncPolicy::UnsafeNoSync).expect("storage should reopen");
    assert_eq!(
        engine
            .load(NodeId(2))
            .expect("new node state should load")
            .current_term,
        Term(0)
    );
}

#[test]
fn node_state_applies_log_suffix_replacement() {
    let mut state = NodeState::default();
    let mut commands = BTreeMap::new();
    commands.insert(
        2,
        command_payload(Bytes::from(b"old-2".as_slice())),
    );
    commands.insert(
        3,
        command_payload(Bytes::from(b"old-3".as_slice())),
    );

    let initial_entries = noraft::LogEntries::from_iter(
        noraft::LogPosition::ZERO,
        [
            term_entry(1),
            noraft::LogEntry::Command,
            noraft::LogEntry::Command,
        ],
    );
    let initial_append = LogAppend::new(initial_entries, commands)
        .expect("initial append should have matching command payloads");
    state
        .apply_append(&initial_append)
        .expect("initial append should apply");

    let mut replacement_commands = BTreeMap::new();
    replacement_commands.insert(
        2,
        command_payload(Bytes::from(b"new-2".as_slice())),
    );
    let replacement_entries =
        noraft::LogEntries::from_iter(position(1, 1), [noraft::LogEntry::Command]);
    let replacement_append = LogAppend::new(replacement_entries, replacement_commands)
        .expect("replacement append should have matching command payloads");
    state
        .apply_append(&replacement_append)
        .expect("replacement append should apply");

    assert_eq!(state.log.entries().last_position(), position(1, 2));
    assert_eq!(state.command_payloads.len(), 1);
    assert_eq!(
        state
            .command_payloads
            .get(&2)
            .map(command_payload_bytes)
            .expect("replacement payload should exist"),
        b"new-2"
    );
}

#[test]
fn storage_engine_replays_records_for_multiple_nodes() {
    let dir = Dir::new();
    let mut engine =
        Store::new(&dir, SyncPolicy::UnsafeNoSync).expect("storage should open");
    create_node(&mut engine, 1);
    create_node(&mut engine, 2);

    engine
        .save_current_term(NodeId(1), Term(4))
        .expect("term should be stored");
    engine
        .save_voted_for(NodeId(1), Some(NodeId(9)))
        .expect("vote should be stored");
    let append = append(
        position(0, 0),
        [
            term_entry(4),
            noraft::LogEntry::Command,
        ],
        [(2, Bytes::from(b"command".as_slice()))],
    );
    engine
        .append_entries(NodeId(1), append)
        .expect("entries should be stored");

    engine
        .save_current_term(NodeId(2), Term(7))
        .expect("node 2 term should be stored");
    drop(engine);

    let mut engine =
        Store::new(&dir, SyncPolicy::UnsafeNoSync).expect("storage should reopen");
    let state1 = engine
        .load(NodeId(1))
        .expect("node 1 state should load");
    assert_eq!(state1.current_term, Term(4));
    assert_eq!(state1.voted_for, Some(NodeId(9)));
    assert_eq!(state1.log.entries().last_position(), position(4, 2));
    assert_eq!(
        state1
            .command_payloads
            .get(&2)
            .map(command_payload_bytes),
        Some(&b"command"[..])
    );

    let state2 = engine
        .load(NodeId(2))
        .expect("node 2 state should load");
    assert_eq!(state2.current_term, Term(7));
}

#[test]
fn storage_engine_load_skips_other_node_replay_state() {
    let dir = Dir::new();
    let mut engine =
        Store::new(&dir, SyncPolicy::UnsafeNoSync).expect("storage should open");
    create_node(&mut engine, 1);
    create_node(&mut engine, 2);

    engine
        .save_current_term(NodeId(1), Term(4))
        .expect("term should be stored");

    let invalid_append = append(
        position(9, 9),
        [term_entry(10)],
        [],
    );
    engine
        .append_entries(NodeId(2), invalid_append)
        .expect("other node append should be stored without consulting current state");
    drop(engine);

    let mut engine =
        Store::new(&dir, SyncPolicy::UnsafeNoSync).expect("storage should reopen");
    let state = engine
        .load(NodeId(1))
        .expect("target node should load without applying other node records");
    assert_eq!(state.current_term, Term(4));

    let err = engine
        .load(NodeId(2))
        .expect_err("invalid target node replay should fail");
    assert_eq!(err.kind(), ErrorKind::InvalidData);

    let err = engine
        .load_all()
        .expect_err("loading all nodes should apply the invalid node record");
    assert_eq!(err.kind(), ErrorKind::InvalidData);
}

#[test]
fn storage_engine_rotates_and_replays_append_segments() {
    let dir = Dir::new();
    create_two_segment_store(&dir);

    assert!(dir.has(SEGMENT_FILE_NAME));
    assert!(dir.has(SECOND_SEGMENT_FILE_NAME));

    let mut engine = Store::with_max_segment_len(&dir, SyncPolicy::UnsafeNoSync, 1)
        .expect("storage should reopen");
    assert_eq!(
        engine
            .load(NodeId(1))
            .expect("node state should load")
            .current_term,
        Term(2)
    );

    engine
        .save_current_term(NodeId(1), Term(3))
        .expect("third term should be stored");
    drop(engine);

    assert!(dir.has(THIRD_SEGMENT_FILE_NAME));

    let mut engine =
        Store::new(&dir, SyncPolicy::UnsafeNoSync).expect("storage should reopen");
    assert_eq!(
        engine
            .load(NodeId(1))
            .expect("node state should load")
            .current_term,
        Term(3)
    );
}

#[test]
fn storage_engine_recovers_empty_next_segment() {
    let dir = Dir::new();
    create_two_segment_store(&dir);
    dir.write(THIRD_SEGMENT_FILE_NAME, b"");

    let mut engine = Store::with_max_segment_len(&dir, SyncPolicy::UnsafeNoSync, 1)
        .expect("storage should reopen");
    assert_eq!(
        engine
            .load(NodeId(1))
            .expect("node state should load")
            .current_term,
        Term(2)
    );
    engine
        .save_current_term(NodeId(1), Term(3))
        .expect("term should be stored in recovered segment");
    drop(engine);

    assert!(dir.has(THIRD_SEGMENT_FILE_NAME));
    assert!(!dir.has(FOURTH_SEGMENT_FILE_NAME));

    let mut engine =
        Store::new(&dir, SyncPolicy::UnsafeNoSync).expect("storage should reopen");
    assert_eq!(
        engine
            .load(NodeId(1))
            .expect("node state should load")
            .current_term,
        Term(3)
    );
}

#[test]
fn storage_engine_does_not_validate_log_anchor_before_write() {
    let dir = Dir::new();
    let mut engine =
        Store::new(&dir, SyncPolicy::UnsafeNoSync).expect("storage should open");
    create_node(&mut engine, 1);

    let append = append(
        position(9, 9),
        [term_entry(10)],
        [],
    );
    engine
        .append_entries(NodeId(1), append)
        .expect("append should be stored without consulting current state");

    let err = engine
        .load(NodeId(1))
        .expect_err("invalid replay stream should fail when loaded");
    assert_eq!(err.kind(), ErrorKind::InvalidData);
}

#[test]
fn storage_engine_replays_snapshots() {
    let dir = Dir::new();
    let mut engine =
        Store::new(&dir, SyncPolicy::UnsafeNoSync).expect("storage should open");
    create_node(&mut engine, 3);

    let initial_append = append(
        position(0, 0),
        [
            term_entry(2),
            noraft::LogEntry::Command,
            noraft::LogEntry::Command,
        ],
        [
            (2, Bytes::from(b"two".as_slice())),
            (3, Bytes::from(b"three".as_slice())),
        ],
    );
    engine
        .append_entries(NodeId(3), initial_append)
        .expect("entries should be stored");

    let checkpoint = checkpoint(
        Term(2),
        None,
        snapshot(position(2, 2), b"snapshot"),
        append(
            position(2, 2),
            [noraft::LogEntry::Command],
            [(3, Bytes::from(b"three".as_slice()))],
        ),
    );
    engine
        .save_snapshot(NodeId(3), checkpoint)
        .expect("snapshot should be stored");
    drop(engine);

    let mut engine =
        Store::new(&dir, SyncPolicy::UnsafeNoSync).expect("storage should reopen");
    let state = engine
        .load(NodeId(3))
        .expect("node state should load");
    assert_eq!(state.log.entries().prev_position(), position(2, 2));
    assert_eq!(state.log.entries().last_position(), position(2, 3));
    assert_eq!(state.command_payloads.get(&2), None);
    assert_eq!(
        state
            .command_payloads
            .get(&3)
            .map(command_payload_bytes),
        Some(&b"three"[..])
    );
    assert_eq!(
        state
            .snapshot
            .expect("snapshot should be loaded")
            .data
            .as_slice(),
        b"snapshot"
    );
}

#[test]
fn storage_engine_replays_snapshot_checkpoints() {
    let dir = Dir::new();
    let mut engine =
        Store::new(&dir, SyncPolicy::UnsafeNoSync).expect("storage should open");
    create_node(&mut engine, 3);

    engine
        .save_current_term(NodeId(3), Term(1))
        .expect("old term should be stored");
    engine
        .save_voted_for(NodeId(3), Some(NodeId(2)))
        .expect("old vote should be stored");
    let old_append = append(
        position(0, 0),
        [noraft::LogEntry::Command],
        [(1, Bytes::from(b"old-command".as_slice()))],
    );
    engine
        .append_entries(NodeId(3), old_append)
        .expect("old append should be stored");

    let checkpoint = checkpoint(
        Term(8),
        Some(NodeId(7)),
        snapshot(position(3, 3), b"checkpoint-snapshot"),
        append(
            position(3, 3),
            [
                term_entry(4),
                noraft::LogEntry::Command,
            ],
            [(5, Bytes::from(b"checkpoint-command".as_slice()))],
        ),
    );
    engine
        .save_snapshot(NodeId(3), checkpoint)
        .expect("checkpoint should be stored");

    let later_append = append(
        position(4, 5),
        [noraft::LogEntry::Command],
        [(6, Bytes::from(b"later-command".as_slice()))],
    );
    engine
        .append_entries(NodeId(3), later_append)
        .expect("later append should be stored");
    drop(engine);

    let mut engine =
        Store::new(&dir, SyncPolicy::UnsafeNoSync).expect("storage should reopen");
    let state = engine
        .load(NodeId(3))
        .expect("node state should load");
    assert_eq!(state.current_term, Term(8));
    assert_eq!(state.voted_for, Some(NodeId(7)));
    assert_eq!(state.log.entries().prev_position(), position(3, 3));
    assert_eq!(state.log.entries().last_position(), position(4, 6));
    assert_eq!(state.command_payloads.get(&1), None);
    assert_eq!(
        state
            .command_payloads
            .get(&5)
            .map(command_payload_bytes),
        Some(&b"checkpoint-command"[..])
    );
    assert_eq!(
        state
            .command_payloads
            .get(&6)
            .map(command_payload_bytes),
        Some(&b"later-command"[..])
    );
    assert_eq!(
        state
            .snapshot
            .expect("checkpoint snapshot should be loaded")
            .data
            .as_slice(),
        b"checkpoint-snapshot"
    );
}

#[test]
fn storage_engine_checkpoint_ignores_older_invalid_append() {
    let dir = Dir::new();
    let mut engine =
        Store::new(&dir, SyncPolicy::UnsafeNoSync).expect("storage should open");
    create_node(&mut engine, 1);

    let invalid_old_append = append(
        position(9, 9),
        [term_entry(10)],
        [],
    );
    engine
        .append_entries(NodeId(1), invalid_old_append)
        .expect("invalid old append should be stored");
    engine
        .save_snapshot(
            NodeId(1),
            checkpoint(
                Term(3),
                None,
                snapshot(noraft::LogPosition::ZERO, b"checkpoint"),
                append(noraft::LogPosition::ZERO, std::iter::empty(), []),
            ),
        )
        .expect("checkpoint should be stored");
    drop(engine);

    let mut engine =
        Store::new(&dir, SyncPolicy::UnsafeNoSync).expect("storage should reopen");
    let state = engine
        .load(NodeId(1))
        .expect("checkpoint should supersede the invalid old append");
    assert_eq!(state.current_term, Term(3));
    assert_eq!(
        state.log.entries().last_position(),
        noraft::LogPosition::ZERO
    );
}

#[test]
fn storage_engine_rejects_invalid_snapshot_checkpoints() {
    let dir = Dir::new();
    let mut engine =
        Store::new(&dir, SyncPolicy::UnsafeNoSync).expect("storage should open");
    create_node(&mut engine, 1);

    let err = engine
        .save_snapshot(
            NodeId(1),
            checkpoint(
                Term(3),
                None,
                snapshot(position(2, 2), b"checkpoint"),
                append(
                    position(1, 1),
                    [term_entry(2)],
                    [],
                ),
            ),
        )
        .expect_err("checkpoint suffix should start at the snapshot position");
    assert_eq!(err.kind(), ErrorKind::InvalidInput);
}

#[test]
fn storage_engine_registry_hides_removed_node() {
    let dir = Dir::new();
    let mut engine =
        Store::new(&dir, SyncPolicy::UnsafeNoSync).expect("storage should open");
    create_node(&mut engine, 5);
    engine
        .save_current_term(NodeId(5), Term(8))
        .expect("term should be stored");
    let segment_len_after_term = dir.read(SEGMENT_FILE_NAME).len();

    engine
        .remove_node(NodeId(5))
        .expect("node should be removed");
    assert_eq!(
        dir.read(SEGMENT_FILE_NAME).len(),
        segment_len_after_term
    );

    let all = engine.load_all().expect("states should load");
    assert!(!all.contains_key(&NodeId(5)));

    let err = engine
        .load(NodeId(5))
        .expect_err("removed node should not load");
    assert_eq!(err.kind(), ErrorKind::NotFound);
}

#[test]
fn storage_engine_truncates_trailing_partial_record() {
    let dir = Dir::new();
    let mut engine =
        Store::new(&dir, SyncPolicy::UnsafeNoSync).expect("storage should open");
    create_node(&mut engine, 2);
    engine
        .save_current_term(NodeId(2), Term(6))
        .expect("term should be stored");
    drop(engine);

    let file = SEGMENT_FILE_NAME;
    let stable_len = dir.read(file).len();
    dir.append(file, &[0, 0]);

    let mut engine =
        Store::new(&dir, SyncPolicy::UnsafeNoSync).expect("storage should reopen");
    assert_eq!(
        engine
            .load(NodeId(2))
            .expect("node state should load")
            .current_term,
        Term(6)
    );
    assert_eq!(
        dir.read(file).len(),
        stable_len
    );
}

#[test]
fn storage_engine_truncates_trailing_partial_record_in_latest_segment() {
    let dir = Dir::new();
    let mut engine = Store::with_max_segment_len(&dir, SyncPolicy::UnsafeNoSync, 1)
        .expect("storage should open");
    create_node(&mut engine, 2);
    engine
        .save_current_term(NodeId(2), Term(6))
        .expect("first term should be stored");
    engine
        .save_current_term(NodeId(2), Term(7))
        .expect("second term should be stored");
    drop(engine);

    let file = THIRD_SEGMENT_FILE_NAME;
    let stable_len = dir.read(file).len();
    dir.append(file, &[0, 0]);

    let mut engine =
        Store::new(&dir, SyncPolicy::UnsafeNoSync).expect("storage should reopen");
    assert_eq!(
        engine
            .load(NodeId(2))
            .expect("node state should load")
            .current_term,
        Term(7)
    );
    assert_eq!(
        dir.read(file).len(),
        stable_len
    );
}

#[test]
fn storage_engine_rejects_trailing_partial_record_in_inactive_segment() {
    let dir = Dir::new();
    create_two_segment_store(&dir);

    let file = SEGMENT_FILE_NAME;
    dir.append(file, &[0, 0]);

    let err = Store::new(&dir, SyncPolicy::UnsafeNoSync)
        .expect_err("inactive partial segment should fail");
    assert_eq!(err.kind(), ErrorKind::InvalidData);
}

#[test]
fn storage_engine_rejects_corrupted_checksum() {
    let dir = Dir::new();
    let mut engine =
        Store::new(&dir, SyncPolicy::UnsafeNoSync).expect("storage should open");
    create_node(&mut engine, 2);
    engine
        .save_current_term(NodeId(2), Term(6))
        .expect("term should be stored");
    drop(engine);

    let file = SEGMENT_FILE_NAME;
    let mut bytes = dir.read(file);
    bytes[FIRST_RECORD_BODY_OFFSET] = 0xFF;
    dir.write(file, &bytes);

    let err = Store::new(&dir, SyncPolicy::UnsafeNoSync)
        .expect_err("corrupted segment should fail");
    assert_eq!(err.kind(), ErrorKind::InvalidData);
}

#[test]
fn storage_engine_rejects_over_limit_record_body_len() {
    let dir = Dir::new();
    dir.write(SEGMENT_FILE_NAME, b"SKR1");
    dir.append(
        SEGMENT_FILE_NAME,
        &(MAX_RECORD_BODY_LEN + 1).to_le_bytes(),
    );

    let err = Store::new(&dir, SyncPolicy::UnsafeNoSync)
        .expect_err("over-limit body length should fail before reading body bytes");
    assert_eq!(err.kind(), ErrorKind::InvalidData);
}

// ---------------------------------------------------------------------------------------
// Random operations
// ---------------------------------------------------------------------------------------

const NODE_ID: NodeId = NodeId(1);

/// A small generator of random numbers.
struct Random {
    state: u64,
}

impl Random {
    fn new(seed: u64) -> Self {
        Self {
            state: seed.wrapping_mul(0x9E37_79B9_7F4A_7C15) | 1,
        }
    }

    fn next(&mut self) -> u64 {
        self.state ^= self.state << 13;
        self.state ^= self.state >> 7;
        self.state ^= self.state << 17;
        self.state
    }

    fn between(&mut self, low: u64, high: u64) -> u64 {
        low + self.next() % (high - low + 1)
    }

    fn ids(&mut self) -> BTreeSet<u64> {
        let len = self.between(0, 4);
        (0..len).map(|_| self.between(1, 5)).collect()
    }

    fn bytes(&mut self, max_len: u64) -> Vec<u8> {
        let len = self.between(0, max_len);
        (0..len).map(|_| self.between(0, 255) as u8).collect()
    }

    fn vote(&mut self) -> Option<NodeId> {
        if self.between(0, 1) == 0 {
            None
        } else {
            Some(NodeId(self.between(1, 5)))
        }
    }

    /// Lengths at which segments rotate, from one record per segment to none at all.
    fn max_segment_len(&mut self) -> u64 {
        match self.between(0, 7) {
            0 => 1,
            1 => 2,
            2 => 128,
            3 => 512,
            _ => self.between(1, 512),
        }
    }

    fn operation_count(&mut self) -> u64 {
        match self.between(0, 7) {
            0 => 0,
            1 => 1,
            2 => 32,
            _ => self.between(0, 32),
        }
    }
}

fn node_ids(ids: &BTreeSet<u64>) -> BTreeSet<noraft::NodeId> {
    ids.iter().map(|id| noraft::NodeId::new(*id)).collect()
}

fn random_append(random: &mut Random, prev: noraft::LogPosition) -> LogAppend {
    let mut entries = Vec::new();
    let mut commands = BTreeMap::new();
    let mut index = prev.index.get() + 1;
    for _ in 0..random.between(0, 6) {
        match random.between(0, 2) {
            0 => entries.push(term_entry(random.between(0, 8))),
            1 => entries.push(noraft::LogEntry::ClusterConfig(noraft::ClusterConfig {
                voters: node_ids(&random.ids()),
                new_voters: node_ids(&random.ids()),
                non_voters: node_ids(&random.ids()),
            })),
            _ => {
                entries.push(noraft::LogEntry::Command);
                let tag = random.between(0, 255) as u8;
                commands.insert(
                    index,
                    CommandPayload::new(tag, Bytes::from(random.bytes(24))),
                );
            }
        }
        index += 1;
    }
    LogAppend::new(noraft::LogEntries::from_iter(prev, entries), commands)
        .expect("generated append should have matching command payloads")
}

fn random_position(random: &mut Random, state: &NodeState) -> noraft::LogPosition {
    let entries = state.log.entries();
    let positions: Vec<noraft::LogPosition> = std::iter::once(entries.prev_position())
        .chain(entries.iter_with_positions().map(|(position, _)| position))
        .collect();
    positions[random.between(0, positions.len() as u64 - 1) as usize]
}

fn initial_state() -> NodeState {
    let snapshot = Snapshot {
        last_included: stored_position(noraft::LogPosition::ZERO),
        config: ClusterConfig::new(),
        data: Bytes::default(),
    };
    NodeState {
        current_term: Term(0),
        voted_for: None,
        log: Log::new(
            ClusterConfig::new(),
            noraft::LogEntries::new(noraft::LogPosition::ZERO),
        ),
        command_payloads: BTreeMap::new(),
        snapshot: Some(snapshot),
    }
}

fn apply_append_to_expected(state: &mut NodeState, append: &LogAppend) {
    let mut entries = state.log.entries().clone();
    assert!(
        entries.append_suffix(append.entries()),
        "append anchor does not exist in expected log"
    );
    state.log = Log::new(state.log.snapshot_config().clone(), entries);
    let prev_index = append.entries().prev_position().index.get();
    state
        .command_payloads
        .retain(|index, _| *index <= prev_index);
    for (index, payload) in append.command_payloads() {
        state.command_payloads.insert(*index, payload.clone());
    }
}

fn random_operation(
    random: &mut Random,
    engine: &mut Store,
    node_id: NodeId,
    expected: &mut NodeState,
) {
    match random.between(0, 3) {
        0 => {
            let term = Term(random.between(0, 16));
            engine
                .save_current_term(node_id, term)
                .expect("term should be stored");
            expected.current_term = term;
        }
        1 => {
            let voted_for = random.vote();
            engine
                .save_voted_for(node_id, voted_for)
                .expect("vote should be stored");
            expected.voted_for = voted_for;
        }
        2 => {
            let anchor = random_position(random, expected);
            let append = random_append(random, anchor);
            engine
                .append_entries(node_id, append.clone())
                .expect("append should be stored");
            apply_append_to_expected(expected, &append);
        }
        _ => {
            let anchor = random_position(random, expected);
            let snapshot = Snapshot {
                last_included: stored_position(anchor),
                config: ClusterConfig {
                    voters: random.ids(),
                    new_voters: random.ids(),
                    non_voters: random.ids(),
                },
                data: Bytes::from(random.bytes(32)),
            };
            let checkpoint = SnapshotCheckpoint {
                current_term: Term(random.between(0, 16)),
                voted_for: random.vote(),
                snapshot: snapshot.clone(),
                suffix: random_append(random, anchor),
            };
            engine
                .save_snapshot(node_id, checkpoint.clone())
                .expect("snapshot checkpoint should be stored");
            expected.current_term = checkpoint.current_term;
            expected.voted_for = checkpoint.voted_for;
            expected.log = Log::new(
                snapshot.config.clone(),
                checkpoint.suffix.entries().clone(),
            );
            expected.command_payloads = checkpoint.suffix.command_payloads().clone();
            expected.snapshot = Some(snapshot);
        }
    }
}

#[test]
fn storage_replay_roundtrip() {
    let mut cases_with_rotation = 0;
    let mut cases_with_extra_snapshot = 0;
    let mut cases_with_non_empty_log = 0;

    for seed in 0..128 {
        let mut random = Random::new(seed);
        let max_segment_len = random.max_segment_len();
        let dir = Dir::new();
        let mut engine =
            Store::with_max_segment_len(&dir, SyncPolicy::UnsafeNoSync, max_segment_len)
                .expect("storage should open");
        engine
            .create_node(NODE_ID, NodeMetadata::default())
            .expect("node should be created");
        let mut expected = initial_state();
        for _ in 0..random.operation_count() {
            random_operation(&mut random, &mut engine, NODE_ID, &mut expected);
        }
        let stats = engine.stats();
        drop(engine);

        let mut engine =
            Store::new(&dir, SyncPolicy::UnsafeNoSync).expect("storage should reopen");
        let loaded = engine.load(NODE_ID).expect("node state should load");
        assert_eq!(loaded, expected, "seed: {seed}");

        let mut all = engine.load_all().expect("all states should load");
        assert_eq!(
            all.remove(&NODE_ID),
            Some(expected.clone()),
            "seed: {seed}"
        );
        assert!(all.is_empty());

        if stats.segment_rotations > 0 {
            cases_with_rotation += 1;
        }
        if stats.snapshot_checkpoints_saved > 0 {
            cases_with_extra_snapshot += 1;
        }
        if !expected.log.entries().is_empty() {
            cases_with_non_empty_log += 1;
        }
    }

    assert!(
        cases_with_rotation > 0,
        "no case exercised segment rotation"
    );
    assert!(
        cases_with_extra_snapshot > 0,
        "no case saved an additional snapshot checkpoint"
    );
    assert!(
        cases_with_non_empty_log > 0,
        "no case ended with a non-empty log"
    );
}

fn random_active_node(
    random: &mut Random,
    active: &BTreeMap<NodeId, NodeState>,
) -> Option<NodeId> {
    if active.is_empty() {
        return None;
    }
    let choice = random.between(0, active.len() as u64 - 1) as usize;
    active.keys().copied().nth(choice)
}

#[test]
fn multi_node_storage_replay_roundtrip() {
    let mut cases_with_multiple_active_nodes = 0;
    let mut cases_with_removed_node = 0;
    let mut cases_with_rotation = 0;
    let mut cases_with_extra_snapshot = 0;

    for seed in 1000..1064 {
        let mut random = Random::new(seed);
        let max_segment_len = random.max_segment_len();
        let sync = match random.between(0, 2) {
            0 => SyncPolicy::Strict,
            1 => SyncPolicy::Batch {
                max_records: 3,
                max_bytes: 200,
            },
            _ => SyncPolicy::UnsafeNoSync,
        };
        let dir = Dir::new();
        let mut engine = Store::with_max_segment_len(&dir, sync, max_segment_len)
            .expect("storage should open");
        engine
            .create_node(NODE_ID, NodeMetadata::default())
            .expect("initial node should be created");
        let mut active = BTreeMap::from([(NODE_ID, initial_state())]);
        let mut created = BTreeSet::from([NODE_ID]);

        for _ in 0..random.operation_count() {
            match random.between(0, 10) {
                0 => {
                    let node_id = NodeId(random.between(1, 4));
                    if created.insert(node_id) {
                        engine
                            .create_node(node_id, NodeMetadata::default())
                            .expect("node should be created");
                        active.insert(node_id, initial_state());
                    }
                }
                1 => {
                    if let Some(node_id) = random_active_node(&mut random, &active) {
                        engine.remove_node(node_id).expect("node should be removed");
                        active.remove(&node_id);
                    }
                }
                2 => engine.flush().expect("sync should succeed"),
                _ => {
                    if let Some(node_id) = random_active_node(&mut random, &active) {
                        let expected = active
                            .get_mut(&node_id)
                            .expect("chosen active node should exist");
                        random_operation(&mut random, &mut engine, node_id, expected);
                    }
                }
            }
        }
        let stats = engine.stats();
        drop(engine);

        let mut engine =
            Store::new(&dir, SyncPolicy::UnsafeNoSync).expect("storage should reopen");
        for (node_id, expected) in &active {
            let loaded = engine.load(*node_id).expect("node state should load");
            assert_eq!(&loaded, expected, "seed: {seed}");
        }
        let all = engine.load_all().expect("all states should load");
        assert_eq!(all, active, "seed: {seed}");

        if active.len() >= 2 {
            cases_with_multiple_active_nodes += 1;
        }
        if created.len() > active.len() {
            cases_with_removed_node += 1;
        }
        if stats.segment_rotations > 0 {
            cases_with_rotation += 1;
        }
        if stats.snapshot_checkpoints_saved > 0 {
            cases_with_extra_snapshot += 1;
        }
    }

    assert!(
        cases_with_multiple_active_nodes > 0,
        "no case ended with two or more active nodes"
    );
    assert!(cases_with_removed_node > 0, "no case removed a node");
    assert!(
        cases_with_rotation > 0,
        "no case exercised segment rotation"
    );
    assert!(
        cases_with_extra_snapshot > 0,
        "no case saved an additional snapshot checkpoint"
    );
}

// ---------------------------------------------------------------------------------------
// Interruptions
// ---------------------------------------------------------------------------------------

#[derive(Clone, Copy)]
enum Write {
    Term,
    Append,
    Checkpoint,
    Create,
    Remove,
    Flush,
}

const WRITES: [Write; 6] = [
    Write::Term,
    Write::Append,
    Write::Checkpoint,
    Write::Create,
    Write::Remove,
    Write::Flush,
];

fn write_steps(store: &mut Store, write: Write) -> Vec<Step> {
    match write {
        Write::Term => store.engine.save_current_term(NodeId(1), Term(9)),
        Write::Append => {
            let append = append(
                position(1, 2),
                [term_entry(4), noraft::LogEntry::Command],
                [(4, Bytes::from(b"new".as_slice()))],
            );
            store.engine.append_entries(NodeId(1), append)
        }
        Write::Checkpoint => {
            let checkpoint = checkpoint(
                Term(9),
                Some(NodeId(4)),
                snapshot(position(1, 2), b"new"),
                append(position(1, 2), [term_entry(7)], []),
            );
            store.engine.save_snapshot(NodeId(1), checkpoint)
        }
        Write::Create => store
            .engine
            .create_node(NodeId(3), NodeMetadata::default()),
        Write::Remove => store.engine.remove_node(NodeId(2)),
        Write::Flush => Ok(store.engine.flush()),
    }
    .expect("operation should be accepted")
}

fn store_with_two_nodes(dir: &Dir, sync: SyncPolicy, max_segment_len: u64) -> Store {
    let mut store =
        Store::with_max_segment_len(dir, sync, max_segment_len).expect("storage should open");
    create_node(&mut store, 1);
    create_node(&mut store, 2);
    store
        .append_entries(
            NodeId(1),
            append(
                position(0, 0),
                [
                    term_entry(1),
                    noraft::LogEntry::Command,
                    noraft::LogEntry::Command,
                ],
                [
                    (2, Bytes::from(b"two".as_slice())),
                    (3, Bytes::from(b"three".as_slice())),
                ],
            ),
        )
        .expect("append should be stored");
    store
        .save_voted_for(NodeId(2), Some(NodeId(1)))
        .expect("vote should be stored");
    store
}

fn states(dir: &Dir, nodes: &[u64]) -> Vec<NodeState> {
    let mut store = Store::new(dir, SyncPolicy::UnsafeNoSync).expect("storage should reopen");
    let all = store.load_all().expect("states should load");
    nodes
        .iter()
        .map(|id| {
            let state = store.load(NodeId(*id)).expect("state should load");
            assert_eq!(all.get(&NodeId(*id)), Some(&state));
            state
        })
        .collect()
}

#[test]
fn an_interrupted_operation_leaves_the_old_or_the_new_state() {
    for write in WRITES {
        for sync in [SyncPolicy::Strict, SyncPolicy::UnsafeNoSync] {
            for max_segment_len in [1, 300, 100_000] {
                let nodes: &[u64] = match write {
                    Write::Remove => &[1],
                    _ => &[1, 2],
                };
                let dir = Dir::new();
                let mut store = store_with_two_nodes(&dir, sync, max_segment_len);
                let old = states(&dir.copy(), nodes);
                let steps = write_steps(&mut store, write);
                let mut seen = Vec::new();
                for step in steps {
                    seen.push(states(&dir.copy(), nodes));
                    let deleted = store.perform(&step);
                    store
                        .engine
                        .complete(step, deleted)
                        .expect("step should be reported");
                }
                let new = states(&dir.copy(), nodes);
                assert_eq!(seen[0], old);
                for states in seen {
                    assert!(states == old || states == new);
                }
            }
        }
    }
}

#[test]
fn a_torn_frame_is_cut_off_at_every_length() {
    let dir = Dir::new();
    let mut store = store_with_two_nodes(&dir, SyncPolicy::UnsafeNoSync, 100_000);
    let old = states(&dir.copy(), &[1, 2]);
    let before = dir.read(SEGMENT_FILE_NAME);
    let steps = write_steps(&mut store, Write::Append);
    store.run(steps).expect("append should be stored");
    let after = dir.read(SEGMENT_FILE_NAME);
    let new = states(&dir.copy(), &[1, 2]);
    assert_ne!(old, new);
    for len in before.len()..after.len() {
        let torn = dir.copy();
        torn.write(SEGMENT_FILE_NAME, &after[..len]);
        assert_eq!(states(&torn, &[1, 2]), old);
        assert_eq!(torn.read(SEGMENT_FILE_NAME), before);
    }
}

#[test]
fn a_torn_header_is_completed_at_every_length() {
    for len in 0..4 {
        let dir = Dir::new();
        let store = store_with_two_nodes(&dir, SyncPolicy::UnsafeNoSync, 1);
        let old = states(&dir.copy(), &[1, 2]);
        let next = store
            .engine
            .active_segment()
            .next_append()
            .expect("there should be a next segment");
        dir.write(&next.file_name(), &b"SKR1"[..len]);
        let mut store = Store::new(&dir, SyncPolicy::UnsafeNoSync).expect("should reopen");
        assert_eq!(store.engine.active_segment(), next);
        assert_eq!(dir.read(&next.file_name()), b"SKR1");
        assert_eq!(store.stats().active_append_segment_len_bytes, 4);
        assert_eq!(store.load(NodeId(1)).as_ref(), Ok(&old[0]));
        assert_eq!(store.load(NodeId(2)).as_ref(), Ok(&old[1]));
    }
}

// ---------------------------------------------------------------------------------------
// Policies
// ---------------------------------------------------------------------------------------

#[test]
fn the_strict_policy_synchronizes_every_record() {
    let dir = Dir::new();
    let mut store = Store::new(&dir, SyncPolicy::Strict).expect("storage should open");
    create_node(&mut store, 1);
    assert_eq!(store.syncs, 1);
    for term in 1..5 {
        store
            .save_current_term(NodeId(1), Term(term))
            .expect("term should be stored");
        assert_eq!(store.syncs as u64, 1 + term);
        assert_eq!(store.stats().unsynced_records, 0);
        assert_eq!(store.stats().unsynced_bytes, 0);
    }
    store.flush().expect("flush should succeed");
    assert_eq!(store.syncs, 5);
    assert_eq!(store.stats().durable_syncs, 5);
    assert_eq!(store.stats().syncs, 1);
}

#[test]
fn the_batch_policy_synchronizes_at_its_thresholds() {
    let dir = Dir::new();
    let sync = SyncPolicy::Batch {
        max_records: 3,
        max_bytes: 0,
    };
    let mut store = Store::new(&dir, sync).expect("storage should open");
    assert_eq!(store.engine.sync_policy(), sync);
    create_node(&mut store, 1);
    let mut unsynced = Vec::new();
    for term in 1..8 {
        store
            .save_current_term(NodeId(1), Term(term))
            .expect("term should be stored");
        unsynced.push(store.stats().unsynced_records);
    }
    assert_eq!(unsynced, vec![1, 2, 0, 1, 2, 0, 1]);

    let dir = Dir::new();
    let sync = SyncPolicy::Batch {
        max_records: 0,
        max_bytes: 60,
    };
    let mut store = Store::new(&dir, sync).expect("storage should open");
    create_node(&mut store, 1);
    let mut unsynced = Vec::new();
    for term in 1..8 {
        store
            .save_current_term(NodeId(1), Term(term))
            .expect("term should be stored");
        unsynced.push(store.stats().unsynced_bytes);
    }
    assert_eq!(unsynced, vec![25, 50, 0, 25, 50, 0, 25]);
}

#[test]
fn a_policy_without_thresholds_synchronizes_on_request() {
    let dir = Dir::new();
    let sync = SyncPolicy::Batch {
        max_records: 0,
        max_bytes: 0,
    };
    let mut store = Store::new(&dir, sync).expect("storage should open");
    create_node(&mut store, 1);
    let syncs = store.syncs;
    for term in 1..50 {
        store
            .save_current_term(NodeId(1), Term(term))
            .expect("term should be stored");
    }
    assert_eq!(store.syncs, syncs);
    assert_eq!(store.stats().unsynced_records, 49);
    store.flush().expect("flush should succeed");
    assert_eq!(store.syncs, syncs + 1);
    assert_eq!(store.stats().unsynced_records, 0);
    store.flush().expect("flush should succeed");
    assert_eq!(store.syncs, syncs + 1);
}

#[test]
fn synchronization_can_be_left_out() {
    for max_segment_len in [1, 100_000] {
        let dir = Dir::new();
        let mut store = store_with_two_nodes(&dir, SyncPolicy::UnsafeNoSync, max_segment_len);
        for write in WRITES {
            let steps = write_steps(&mut store, write);
            store.run(steps).expect("operation should succeed");
        }
        assert_eq!(store.syncs, 0);
        assert_eq!(store.stats().durable_syncs, 0);
    }
}

#[test]
fn checkpoints_are_synchronized_before_the_index_points_to_them() {
    for write in [Write::Create, Write::Checkpoint] {
        let sync = SyncPolicy::Batch {
            max_records: 100,
            max_bytes: 0,
        };
        let dir = Dir::new();
        let mut store = store_with_two_nodes(&dir, sync, 100_000);
        assert_ne!(store.stats().unsynced_records, 0);
        let mut saved = false;
        for step in write_steps(&mut store, write) {
            if let Step::SaveCheckpointIndex(_) = &step {
                saved = true;
                assert_eq!(store.stats().unsynced_records, 0);
                assert_eq!(store.stats().unsynced_bytes, 0);
            }
            let deleted = store.perform(&step);
            store
                .engine
                .complete(step, deleted)
                .expect("step should be reported");
        }
        assert!(saved);
    }
}

#[test]
fn only_the_first_record_exceeds_the_segment_length() {
    for max_segment_len in [1, 30, 64, 200] {
        let dir = Dir::new();
        let mut store = store_with_two_nodes(&dir, SyncPolicy::Strict, max_segment_len);
        for term in 1..20 {
            store
                .save_current_term(NodeId(1), Term(term))
                .expect("term should be stored");
        }
        for segment in dir.read_segments() {
            let first = u32::from_le_bytes([
                segment.bytes[4],
                segment.bytes[5],
                segment.bytes[6],
                segment.bytes[7],
            ]) as usize;
            assert!(
                segment.bytes.len() as u64 <= max_segment_len
                    || segment.bytes.len() == 12 + first
            );
        }
    }
}

#[test]
fn statistics_show_the_state_of_the_engine() {
    let dir = Dir::new();
    let mut store = store_with_two_nodes(&dir, SyncPolicy::Strict, 200);
    for write in WRITES {
        let steps = write_steps(&mut store, write);
        store.run(steps).expect("operation should succeed");
        let stats = store.stats();
        let active = store.engine.active_segment();
        assert_eq!(stats.active_nodes, store.nodes().len() as u64);
        assert_eq!(stats.checkpoint_index_nodes, stats.active_nodes);
        assert_eq!(stats.active_append_segment_id, active.id());
        assert_eq!(
            stats.active_append_segment_len_bytes,
            dir.read(&active.file_name()).len() as u64
        );
    }
    let stats = store.stats();
    assert_eq!(stats.removed_nodes, 1);
    let again = Store::new(&dir, SyncPolicy::Strict).expect("storage should reopen");
    assert_eq!(again.stats().active_nodes, stats.active_nodes);
    assert_eq!(again.stats().removed_nodes, 1);
    assert_eq!(
        again.stats().active_append_segment_len_bytes,
        stats.active_append_segment_len_bytes
    );
}

#[test]
fn a_damaged_segment_fails_to_open_and_stays_as_it_is() {
    let dir = Dir::new();
    store_with_two_nodes(&dir, SyncPolicy::UnsafeNoSync, 100_000);
    let mut bytes = dir.read(SEGMENT_FILE_NAME);
    bytes[0] = b'X';
    dir.write(SEGMENT_FILE_NAME, &bytes);
    let error = Store::new(&dir, SyncPolicy::UnsafeNoSync).expect_err("storage should not open");
    assert_eq!(error, StorageError::UnsupportedSegmentFormat);
    assert_eq!(dir.read(SEGMENT_FILE_NAME), bytes);
}

#[test]
fn damaged_bytes_give_errors_and_never_other_states() {
    let dir = Dir::new();
    store_with_two_nodes(&dir, SyncPolicy::UnsafeNoSync, 100_000);
    let whole = dir.read(SEGMENT_FILE_NAME);
    for seed in 0..400 {
        let mut random = Random::new(seed);
        let damaged = dir.copy();
        let mut bytes = whole.clone();
        match random.between(0, 2) {
            0 => {
                let at = random.between(0, bytes.len() as u64 - 1) as usize;
                bytes[at] ^= random.between(1, 255) as u8;
            }
            1 => bytes.truncate(random.between(0, bytes.len() as u64) as usize),
            _ => {
                bytes = b"SKR1".to_vec();
                bytes.extend(random.bytes(200));
            }
        }
        damaged.write(SEGMENT_FILE_NAME, &bytes);
        match Store::new(&damaged, SyncPolicy::UnsafeNoSync) {
            Ok(mut store) => {
                let kept = damaged.read(SEGMENT_FILE_NAME);
                assert!(whole.starts_with(&kept) || kept == b"SKR1");
                if let Err(error) = store.load_all() {
                    assert_eq!(error.kind(), ErrorKind::InvalidData);
                }
            }
            Err(error) => assert_eq!(error.kind(), ErrorKind::InvalidData),
        }
    }
}

/// A frame with a body of a node that is no record.
fn unreadable_frame(node_id: u64) -> Vec<u8> {
    let mut body = node_id.to_le_bytes().to_vec();
    body.push(9);
    let mut frame = (body.len() as u32).to_le_bytes().to_vec();
    frame.extend_from_slice(&sukari::crc32c::crc32c(&body).to_le_bytes());
    frame.extend_from_slice(&body);
    frame
}

#[test]
fn records_of_other_nodes_need_not_be_readable() {
    let dir = Dir::new();
    let mut engine = Store::new(&dir, SyncPolicy::UnsafeNoSync).expect("storage should open");
    create_node(&mut engine, 1);
    engine
        .save_current_term(NodeId(1), Term(4))
        .expect("term should be stored");
    dir.append(SEGMENT_FILE_NAME, &unreadable_frame(2));
    drop(engine);

    let mut hinted = Store::new(&dir, SyncPolicy::UnsafeNoSync).expect("storage should reopen");
    let state = hinted.load(NodeId(1)).expect("state should be loaded");
    assert_eq!(state.current_term, Term(4));
    let all = hinted.load_all().expect("states should be loaded");
    assert_eq!(all.keys().copied().collect::<Vec<_>>(), [NodeId(1)]);
    assert_eq!(all[&NodeId(1)], state);
    drop(hinted);

    dir.remove(CHECKPOINT_INDEX_FILE_NAME);
    let mut unhinted = Store::new(&dir, SyncPolicy::UnsafeNoSync).expect("storage should reopen");
    assert_eq!(unhinted.load(NodeId(1)), Ok(state));
    create_node(&mut unhinted, 2);
    let error = unhinted.load_all().expect_err("a node is not readable");
    assert_eq!(error.kind(), ErrorKind::InvalidData);
}

#[test]
fn the_start_of_a_load_does_not_matter_over_a_torn_segment() {
    let dir = Dir::new();
    store_with_two_nodes(&dir, SyncPolicy::UnsafeNoSync, 100_000);
    dir.append(SEGMENT_FILE_NAME, &unreadable_frame(3));
    let whole = dir.read(SEGMENT_FILE_NAME);
    dir.append(SEGMENT_FILE_NAME, &[9, 0, 0, 0, 1]);
    let first = dir.read_segments()[0].name;
    let start = RecordPosition {
        segment: first,
        offset: 4,
    };
    let mut states = Vec::new();
    for hint in [None, Some(start)] {
        let mut segments = dir.read_segments();
        let mut stats = StorageStatsCounters::default();
        let state = replay_node_state(&mut segments, first, NodeId(1), hint, &mut stats)
            .expect("node should be replayed");
        assert_eq!(segments[0].bytes, whole);
        assert_eq!(stats.snapshot().replay_truncations, 1);
        states.push(state);
    }
    assert_eq!(states[0], states[1]);
    assert_eq!(states[0].command_payloads.len(), 2);
}

#[test]
fn one_node_is_replayed_alike_alone_and_among_others() {
    let dir = Dir::new();
    store_with_two_nodes(&dir, SyncPolicy::UnsafeNoSync, 100_000);
    for node in [1u64, 2] {
        let mut segments = dir.read_segments();
        let active = segments[segments.len() - 1].name;
        let mut stats = StorageStatsCounters::default();
        let alone = replay_node_state(&mut segments, active, NodeId(node), None, &mut stats)
            .expect("node should be replayed");
        let mut among_stats = StorageStatsCounters::default();
        let among = replay_storage_dir(
            &mut segments,
            active,
            &BTreeSet::from([node]),
            None,
            &mut among_stats,
        )
        .expect("node should be replayed");
        assert_eq!(among.nodes.keys().copied().collect::<Vec<_>>(), [node]);
        assert_eq!(among.nodes[&node], alone);
        assert_eq!(stats.snapshot(), among_stats.snapshot());
    }
}

#[test]
fn a_segment_is_replayed_alike_for_one_node_and_for_a_set_of_it() {
    let dir = Dir::new();
    store_with_two_nodes(&dir, SyncPolicy::UnsafeNoSync, 100_000);
    let kept = NodeState {
        current_term: Term(33),
        ..NodeState::default()
    };
    for (node, other) in [(1u64, 2u64), (2, 1)] {
        let mut segment = dir.read_segments().remove(0);
        let mut alone = NodeState::default();
        let mut stats = StorageStatsCounters::default();
        replay_node_segment(
            &mut segment,
            true,
            NodeId(node),
            None,
            &mut alone,
            &mut stats,
        )
        .expect("segment should be replayed");
        assert_ne!(alone, NodeState::default());

        let mut replay = ReplayState {
            nodes: BTreeMap::from([(other, kept.clone())]),
        };
        let mut stats = StorageStatsCounters::default();
        replay_segment(
            &mut segment,
            true,
            &BTreeSet::from([node]),
            &BTreeMap::new(),
            &mut replay,
            &mut stats,
        )
        .expect("segment should be replayed");
        assert_eq!(replay.nodes[&node], alone);
        assert_eq!(replay.nodes[&other], kept);
        assert_eq!(replay.nodes.len(), 2);
    }
}

#[test]
fn metadata_with_whitespace_around_it_does_not_disturb_loads() {
    let dir = Dir::new();
    let mut engine = Store::new(&dir, SyncPolicy::UnsafeNoSync).expect("storage should open");
    engine
        .create_node(NodeId(1), node_metadata(true, " [7] "))
        .expect("node should be created");
    engine
        .save_current_term(NodeId(1), Term(5))
        .expect("term should be stored");
    let state = engine.load(NodeId(1)).expect("state should be loaded");
    drop(engine);
    let mut engine = Store::new(&dir, SyncPolicy::UnsafeNoSync).expect("storage should reopen");
    assert_eq!(
        engine.node_metadata(NodeId(1)),
        Some(&node_metadata(true, "[7]"))
    );
    assert_eq!(engine.load(NodeId(1)), Ok(state));
    assert_eq!(
        engine.create_node(NodeId(1), NodeMetadata::default()),
        Err(StorageError::NodeAlreadyExists)
    );
}

#[test]
fn checkpoints_and_removals_concern_their_node_only() {
    let dir = Dir::new();
    let mut engine = store_with_two_nodes(&dir, SyncPolicy::UnsafeNoSync, 100_000);
    let other = engine.load(NodeId(2)).expect("state should be loaded");
    let before = dir.read(SEGMENT_FILE_NAME);
    let gap = checkpoint(
        Term(9),
        None,
        snapshot(position(3, 3), b"gap"),
        append(position(3, 4), std::iter::empty(), []),
    );
    let error = engine
        .save_snapshot(NodeId(1), gap)
        .expect_err("suffix should start at the snapshot position");
    assert_eq!(error.kind(), ErrorKind::InvalidInput);
    assert_eq!(dir.read(SEGMENT_FILE_NAME), before);

    engine
        .save_snapshot(
            NodeId(1),
            checkpoint(
                Term(9),
                Some(NodeId(2)),
                snapshot(position(3, 3), b"kept"),
                append(position(3, 3), [term_entry(4)], []),
            ),
        )
        .expect("checkpoint should be stored");
    let state = engine.load(NodeId(1)).expect("state should be loaded");
    assert_eq!(state.current_term, Term(9));
    assert_eq!(state.voted_for, Some(NodeId(2)));
    assert_eq!(engine.load(NodeId(2)).as_ref(), Ok(&other));

    let before = dir.read(SEGMENT_FILE_NAME);
    engine.remove_node(NodeId(1)).expect("node should be removed");
    assert_eq!(dir.read(SEGMENT_FILE_NAME), before);
    assert!(!read_checkpoint_index(&dir).contains("\"1\""));
    drop(engine);

    let mut engine = Store::new(&dir, SyncPolicy::UnsafeNoSync).expect("storage should reopen");
    assert_eq!(engine.node_metadata(NodeId(1)), None);
    assert_eq!(
        engine.load(NodeId(1)).map_err(StorageError::kind),
        Err(ErrorKind::NotFound)
    );
    assert_eq!(
        engine.remove_node(NodeId(1)).map_err(StorageError::kind),
        Err(ErrorKind::NotFound)
    );
    assert_eq!(
        engine
            .create_node(NodeId(1), NodeMetadata::default())
            .map_err(StorageError::kind),
        Err(ErrorKind::AlreadyExists)
    );
    assert_eq!(engine.load(NodeId(2)).as_ref(), Ok(&other));
    let all = engine.load_all().expect("states should be loaded");
    assert_eq!(all, BTreeMap::from([(NodeId(2), other)]));
}

#[test]
fn a_creation_counts_one_more_node_and_keeps_all_segments() {
    let dir = Dir::new();
    let mut engine = store_with_two_nodes(&dir, SyncPolicy::UnsafeNoSync, 1);
    let names = dir.names();
    let active = engine.stats().active_nodes;
    engine
        .create_node(NodeId(7), node_metadata(true, "[7]"))
        .expect("node should be created");
    assert_eq!(engine.stats().active_nodes, active + 1);
    assert!(names.iter().all(|name| dir.has(name)));
    let steps = engine.engine.create_node(NodeId(7), NodeMetadata::default());
    assert_eq!(steps.map(|_| ()), Err(StorageError::NodeAlreadyExists));
    drop(engine);
    let mut engine = Store::new(&dir, SyncPolicy::UnsafeNoSync).expect("storage should reopen");
    assert_eq!(
        engine.node_metadata(NodeId(7)),
        Some(&node_metadata(true, "[7]"))
    );
    assert_eq!(
        engine.create_node(NodeId(7), NodeMetadata::default()),
        Err(StorageError::NodeAlreadyExists)
    );
}
