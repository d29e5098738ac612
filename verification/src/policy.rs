//! Laws of the storage engine: synchronization, rotation, node IDs and statistics.

use vstd::prelude::*;

verus! {

use crate::crash::{engine_at, Operation};
use crate::durability::{after_push, consistent, synced_append, written_frame_holds_body};
use crate::error::StorageError;
use crate::format::{
    append_bytes, body_bytes, checkpoint_bytes, config_bytes, frame_bytes, le_bytes_len,
    node_id_set_bytes, snapshot_bytes, storable, written_frame,
};
use crate::ordered::{ascending, ascending_sound};
use crate::raft::NodeId;
use crate::record::{initial_checkpoint_valid, initial_checkpoint_view, RecordView};
use crate::registry::{active_nodes, removed_nodes, with_created, MetadataView};
use crate::round_trip::written_body_exact;
use crate::scan::SegmentView;
use crate::storage::{opened, EngineView, StepView, SyncPolicy};

// ---------------------------------------------------------------------------------------
// Synchronization
// ---------------------------------------------------------------------------------------

/// What is left unsynchronized after a record was written: nothing under the strict policy,
/// and less than the thresholds under the batch policy.
pub proof fn policy_bounds_unsynced_writes(engine: EngineView, node: NodeId, record: RecordView)
    requires
        engine.append(node, record) is Ok,
    ensures
        ({
            let after = engine.after_all(engine.append(node, record)->Ok_0.0, 0);
            match engine.sync {
                SyncPolicy::Strict => !after.has_unsynced(),
                SyncPolicy::Batch { max_records, max_bytes } => {
                    &&& max_records != 0 ==> after.stats.unsynced_records < max_records
                    &&& max_bytes != 0 ==> after.stats.unsynced_bytes < max_bytes
                },
                SyncPolicy::UnsafeNoSync => true,
            }
        }),
{
    reveal(EngineView::append);
    let frame = written_frame(node, record)->Ok_0;
    let prepare = engine.prepare(frame.len());
    let write = prepare.push(StepView::AppendFrame { kind: record.kind(), frame });
    after_push(engine, write, StepView::SyncSegment, 0);
}

/// Whether none of the steps synchronizes the segment.
pub open spec fn syncs_nothing(steps: Seq<StepView>) -> bool {
    forall|i: int| 0 <= i < steps.len() ==> !((#[trigger] steps[i]) is SyncSegment)
}

/// Without synchronization by policy no operation synchronizes, not even a flush.
#[verifier::rlimit(40)]
pub proof fn policy_may_forbid_synchronization(engine: EngineView, operation: Operation)
    requires
        engine.sync is UnsafeNoSync,
        operation.steps(engine) is Some,
    ensures
        syncs_nothing(operation.steps(engine)->0),
{
    let steps = operation.steps(engine)->0;
    assert forall|i: int| 0 <= i < steps.len() implies !((#[trigger] steps[i]) is SyncSegment) by {
        match operation {
            Operation::Save(node, record) => {
                append_writes_segments(engine, node, record, i);
            },
            Operation::Create(_, _) | Operation::Checkpoint(_, _) => {
                let (node, record) = operation.record();
                step_behind_append(engine, operation, i);
                if i < steps.len() - 3 {
                    append_writes_segments(engine, node, record, i);
                }
            },
            _ => {},
        }
    }
}

/// A checkpoint record is durable before the checkpoint index points to it, unless the policy
/// is never to synchronize.
#[verifier::rlimit(40)]
pub proof fn index_points_to_durable_records(
    engine: EngineView,
    segments: Seq<SegmentView>,
    operation: Operation,
    deleted: u64,
    i: int,
)
    requires
        consistent(engine, segments),
        engine.sync.syncs(),
        operation.accepted(engine),
        operation is Create || operation is Checkpoint,
        operation.steps(engine) is Some,
        0 <= i < operation.steps(engine)->0.len(),
        operation.steps(engine)->0[i] is SaveCheckpointIndex,
    ensures
        !engine_at(engine, operation.steps(engine)->0, deleted, i).has_unsynced(),
{
    let steps = operation.steps(engine)->0;
    let (node, record) = operation.record();
    let written = engine.synced(engine.append(node, record)->Ok_0.0);
    initial_checkpoint_valid();
    step_behind_append(engine, operation, i);
    synced_append(engine, segments, node, record, deleted);
    if i < written.len() {
        append_writes_segments(engine, node, record, i);
    }
}

/// The steps of an append write to segments only, and synchronize only where the policy says
/// so.
proof fn append_writes_segments(engine: EngineView, node: NodeId, record: RecordView, i: int)
    requires
        engine.append(node, record) is Ok,
        0 <= i < engine.synced(engine.append(node, record)->Ok_0.0).len(),
    ensures
        match engine.synced(engine.append(node, record)->Ok_0.0)[i] {
            StepView::SyncSegment => engine.sync.syncs(),
            StepView::CreateSegment(_) => true,
            StepView::AppendFrame { .. } => true,
            _ => false,
        },
{
    reveal(EngineView::append);
}

/// A step of a creation or of saving a checkpoint is one of those that write the record, or
/// one of the three behind.
proof fn step_behind_append(engine: EngineView, operation: Operation, i: int)
    requires
        operation is Create || operation is Checkpoint,
        operation.steps(engine) is Some,
        0 <= i < operation.steps(engine)->0.len(),
    ensures
        ({
            let (node, record) = operation.record();
            let written = engine.synced(engine.append(node, record)->Ok_0.0);
            let steps = operation.steps(engine)->0;
            &&& engine.append(node, record) is Ok
            &&& steps.len() == written.len() + 3
            &&& steps.take(written.len() as int) == written
            &&& i < written.len() ==> steps[i] == written[i]
            &&& i >= written.len() ==> !(steps[i] is SyncSegment)
            &&& steps[i] is SaveCheckpointIndex && i >= written.len() ==> i == written.len()
            &&& steps[i] is SaveNodeRegistry && i >= written.len() ==> (operation matches Operation::Create(
                _,
                metadata,
            ) && steps[i] == StepView::SaveNodeRegistry(
                with_created(engine.registry, node.0, metadata),
            ))
        }),
{
    let (node, record) = operation.record();
    let written = engine.synced(engine.append(node, record)->Ok_0.0);
    assert(operation.steps(engine)->0.take(written.len() as int) =~= written);
}

impl Operation {
    /// The node and the checkpoint that a creation or a saving of a checkpoint writes.
    pub open spec fn record(self) -> (NodeId, RecordView) {
        match self {
            Operation::Checkpoint(node, record) => (node, record),
            Operation::Create(node, _) => (
                node,
                RecordView::SnapshotCheckpoint(initial_checkpoint_view()),
            ),
            _ => arbitrary(),
        }
    }
}

// ---------------------------------------------------------------------------------------
// Rotation
// ---------------------------------------------------------------------------------------

/// A segment grows beyond the length at which segments rotate only by its first record.
pub proof fn rotation_bounds_segments(engine: EngineView, node: NodeId, record: RecordView)
    requires
        engine.append(node, record) is Ok,
        record.wf(),
        engine.segment_len >= 4,
    ensures
        ({
            let (steps, position) = engine.append(node, record)->Ok_0;
            let after = engine.after_all(steps, 0);
            &&& after.segment_len <= engine.max_segment_len || position.offset == 4
            &&& after.segment_len == position.offset + frame_bytes(body_bytes(node, record)).len()
            &&& after.active == position.segment.id
            &&& after.active == engine.active || after.active == engine.active + 1
        }),
{
    reveal(EngineView::append);
    written_frame_holds_body(node, record);
    let frame = written_frame(node, record)->Ok_0;
    let prepare = engine.prepare(frame.len());
    let append_step = StepView::AppendFrame { kind: record.kind(), frame };
    let write = prepare.push(append_step);
    let create = StepView::CreateSegment((engine.active + 1) as u64);
    let empty = Seq::<StepView>::empty();
    assert(engine.after_all(empty, 0) == engine);
    if engine.rotates(frame.len()) {
        after_push(engine, empty, StepView::SyncSegment, 0);
        after_push(engine, empty.push(StepView::SyncSegment), create, 0);
        after_push(engine, empty, create, 0);
        if engine.sync.syncs() {
            assert(prepare =~= empty.push(StepView::SyncSegment).push(create));
        } else {
            assert(prepare =~= empty.push(create));
        }
    }
    after_push(engine, prepare, append_step, 0);
    after_push(engine, write, StepView::SyncSegment, 0);
}

// ---------------------------------------------------------------------------------------
// Node IDs
// ---------------------------------------------------------------------------------------

/// The checkpoint that a node starts with can be stored.
pub(crate) proof fn initial_checkpoint_storable(node: NodeId)
    ensures
        storable(node, RecordView::SnapshotCheckpoint(initial_checkpoint_view())),
{
    let checkpoint = initial_checkpoint_view();
    let none = Set::<u64>::empty();
    initial_checkpoint_valid();
    ascending_sound(none);
    le_bytes_len(node.0 as nat, 8);
    le_bytes_len(0, 8);
    assert(ascending(none) =~= Seq::empty());
    assert(node_id_set_bytes(none).len() == 8);
    assert(config_bytes(checkpoint.snapshot.config).len() == 24);
    assert(checkpoint.suffix.payloads.dom() =~= none);
    assert(append_bytes(checkpoint.suffix).len() == 32);
    assert(snapshot_bytes(checkpoint.snapshot).len() == 48);
    assert(checkpoint_bytes(checkpoint).len() == 89);
}

/// A node can be created exactly when its ID was never used, as long as segment numbers do
/// not run out.
pub proof fn creation_succeeds_for_new_ids(
    engine: EngineView,
    node: NodeId,
    metadata: MetadataView,
)
    requires
        engine.active < u64::MAX,
    ensures
        engine.create_node(node, metadata) is Ok <==> !engine.registry.contains_key(node.0),
{
    reveal(EngineView::append);
    initial_checkpoint_valid();
    initial_checkpoint_storable(node);
    written_body_exact(node, RecordView::SnapshotCheckpoint(initial_checkpoint_view()));
}

/// A node ID that was used once, by a node that is active or removed, stays reserved whatever
/// operation comes.
#[verifier::rlimit(40)]
pub proof fn node_ids_stay_reserved(
    engine: EngineView,
    operation: Operation,
    deleted: u64,
    node: NodeId,
    metadata: MetadataView,
)
    requires
        operation.accepted(engine),
        operation.steps(engine) is Some,
        engine.registry.contains_key(node.0),
    ensures
        ({
            let after = engine.after_all(operation.steps(engine)->0, deleted);
            &&& after.registry.contains_key(node.0)
            &&& after.create_node(node, metadata) == Err::<Seq<StepView>, StorageError>(
                StorageError::NodeAlreadyExists,
            )
        }),
{
    let steps = operation.steps(engine)->0;
    assert forall|i: int| 0 <= i < steps.len() implies ((
    #[trigger] steps[i]) matches StepView::SaveNodeRegistry(registry) ==> registry.contains_key(
        node.0,
    )) by {
        match operation {
            Operation::Save(id, record) => {
                append_writes_segments(engine, id, record, i);
            },
            Operation::Create(_, _) | Operation::Checkpoint(_, _) => {
                let (id, record) = operation.record();
                step_behind_append(engine, operation, i);
                if i < steps.len() - 3 {
                    append_writes_segments(engine, id, record, i);
                }
            },
            _ => {},
        }
    }
    registry_keeps_node(engine, steps, deleted, node.0);
}

proof fn registry_keeps_node(engine: EngineView, steps: Seq<StepView>, deleted: u64, node: u64)
    requires
        engine.registry.contains_key(node),
        forall|i: int|
            0 <= i < steps.len() ==> ((#[trigger] steps[i]) matches StepView::SaveNodeRegistry(
                registry,
            ) ==> registry.contains_key(node)),
    ensures
        engine.after_all(steps, deleted).registry.contains_key(node),
    decreases steps.len(),
{
    if steps.len() > 0 {
        let front = steps.drop_last();
        assert forall|i: int| 0 <= i < front.len() implies ((
        #[trigger] front[i]) matches StepView::SaveNodeRegistry(registry) ==> registry.contains_key(
            node,
        )) by {
            assert(front[i] == steps[i]);
        }
        registry_keeps_node(engine, front, deleted, node);
        assert(steps.last() == steps[steps.len() - 1]);
    }
}

// ---------------------------------------------------------------------------------------
// Statistics
// ---------------------------------------------------------------------------------------

/// Whether what a step saves can be counted in 64 bits.
pub open spec fn countable(step: StepView) -> bool {
    match step {
        StepView::SaveCheckpointIndex(index) => index.dom().len() <= u64::MAX,
        StepView::SaveNodeRegistry(registry) => {
            &&& active_nodes(registry).len() <= u64::MAX
            &&& removed_nodes(registry).len() <= u64::MAX
        },
        _ => true,
    }
}

/// Every step keeps the gauges in the statistics right.
pub proof fn step_keeps_gauges(engine: EngineView, step: StepView, deleted: u64)
    requires
        engine.gauges_match(),
        countable(step),
    ensures
        engine.after(step, deleted).gauges_match(),
{
}

/// Opening sets the gauges in the statistics right.
pub proof fn opening_sets_gauges(
    sync: SyncPolicy,
    max_segment_len: u64,
    segments: Seq<SegmentView>,
    nodes_text: Option<Seq<char>>,
    checkpoints_text: Option<Seq<char>>,
)
    requires
        opened(sync, max_segment_len, segments, nodes_text, checkpoints_text).0 matches Ok(engine)
            && countable(StepView::SaveCheckpointIndex(engine.index)) && countable(
            StepView::SaveNodeRegistry(engine.registry),
        ),
    ensures
        opened(
            sync,
            max_segment_len,
            segments,
            nodes_text,
            checkpoints_text,
        ).0->Ok_0.gauges_match(),
{
}

} // verus!
