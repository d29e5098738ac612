//! Laws of the statistics: every counter counts what it is named after, and nothing else.

use vstd::prelude::*;

verus! {

use crate::crash::{engine_at, Operation};
use crate::error::{ErrorKind, StorageError};
use crate::raft::NodeId;
use crate::record::{initial_checkpoint_valid, RecordView};
use crate::stats::{
    NodeAccessErrorKind, OperationKindStats, RecordKindMetric, RecordKindStats, StorageOperationKind,
    StorageStats,
};
use crate::storage::{saves_record, EngineView, Step, StepView};
use crate::syncing::{
    append_steps, capped, frames_fit, is_full, metric_of, operation_frames_fit, steps_before,
};

/// A counter of what operations do.
pub enum Counter {
    /// Records written, of one kind.
    RecordsWritten(RecordKindMetric),
    /// Bytes of frames written, of one kind.
    BytesWritten(RecordKindMetric),
    /// Segments started.
    Rotations,
    /// Synchronizations that were asked for.
    Requests,
    /// Synchronizations of a segment.
    DurableSyncs,
    /// Nodes created.
    NodesCreated,
    /// Nodes removed.
    NodesRemoved,
    /// Snapshot checkpoints saved.
    Checkpoints,
    /// Garbage collections.
    Collections,
    /// Segments deleted by them.
    DeletedSegments,
}

/// The number under a kind of records.
pub open spec fn of_kind(numbers: RecordKindStats, kind: RecordKindMetric) -> u64 {
    match kind {
        RecordKindMetric::CurrentTerm => numbers.current_term,
        RecordKindMetric::VotedFor => numbers.voted_for,
        RecordKindMetric::LogAppend => numbers.log_append,
        RecordKindMetric::SnapshotCheckpoint => numbers.snapshot_checkpoint,
    }
}

impl Counter {
    /// What the statistics have under the counter.
    pub open spec fn value(self, stats: StorageStats) -> u64 {
        match self {
            Counter::RecordsWritten(kind) => of_kind(stats.records_written, kind),
            Counter::BytesWritten(kind) => of_kind(stats.bytes_written, kind),
            Counter::Rotations => stats.segment_rotations,
            Counter::Requests => stats.syncs,
            Counter::DurableSyncs => stats.durable_syncs,
            Counter::NodesCreated => stats.nodes_created,
            Counter::NodesRemoved => stats.nodes_removed,
            Counter::Checkpoints => stats.snapshot_checkpoints_saved,
            Counter::Collections => stats.gc_runs,
            Counter::DeletedSegments => stats.gc_segments_deleted,
        }
    }

    /// What one step adds.
    pub open spec fn weight(self, step: StepView, deleted: u64) -> nat {
        match (self, step) {
            (Counter::RecordsWritten(kind), StepView::AppendFrame { kind: written, .. }) => if kind
                == written {
                1
            } else {
                0
            },
            (Counter::BytesWritten(kind), StepView::AppendFrame { kind: written, frame }) => if kind
                == written {
                frame.len()
            } else {
                0
            },
            (Counter::Rotations, StepView::CreateSegment(_)) => 1,
            (Counter::Requests, StepView::SyncRequested) => 1,
            (Counter::DurableSyncs, StepView::SyncSegment) => 1,
            (Counter::NodesCreated, StepView::NodeCreated) => 1,
            (Counter::NodesRemoved, StepView::NodeRemoved) => 1,
            (Counter::Checkpoints, StepView::CheckpointSaved) => 1,
            (Counter::Collections, StepView::CollectGarbage(_)) => 1,
            (Counter::DeletedSegments, StepView::CollectGarbage(_)) => deleted as nat,
            _ => 0,
        }
    }

    /// What steps add together.
    pub open spec fn total(self, steps: Seq<StepView>, deleted: u64) -> nat
        decreases steps.len(),
    {
        if steps.len() == 0 {
            0
        } else {
            self.total(steps.drop_last(), deleted) + self.weight(steps.last(), deleted)
        }
    }
}

/// One step changes each counter by what the step adds to it, and nothing else of the statistics
/// but the gauges and what is not synchronized.
pub proof fn step_is_counted(engine: EngineView, step: StepView, deleted: u64, counter: Counter)
    requires
        step matches StepView::AppendFrame { frame, .. } ==> engine.segment_len + frame.len()
            <= u64::MAX,
    ensures
        ({
            let before = engine.stats;
            let after = engine.after(step, deleted).stats;
            &&& counter.value(after) == capped(counter.value(before) + counter.weight(step, deleted))
            &&& after.records_replayed == before.records_replayed
            &&& after.bytes_replayed == before.bytes_replayed
            &&& after.replay_truncations == before.replay_truncations
            &&& after.checksum_failures == before.checksum_failures
            &&& after.rejected_operations == before.rejected_operations
            &&& after.unsynced_records == (match step {
                StepView::SyncSegment => 0,
                StepView::AppendFrame { .. } => capped(before.unsynced_records + 1),
                _ => before.unsynced_records as int,
            })
            &&& after.unsynced_bytes == (match step {
                StepView::SyncSegment => 0,
                StepView::AppendFrame { frame, .. } => capped(before.unsynced_bytes + frame.len()),
                _ => before.unsynced_bytes as int,
            })
        }),
{
}

/// Steps change each counter by what they add to it together.
pub proof fn steps_are_counted(
    engine: EngineView,
    steps: Seq<StepView>,
    deleted: u64,
    counter: Counter,
)
    requires
        frames_fit(engine, steps, deleted),
    ensures
        counter.value(engine.after_all(steps, deleted).stats) == capped(
            counter.value(engine.stats) + counter.total(steps, deleted),
        ),
    decreases steps.len(),
{
    if steps.len() > 0 {
        let front = steps.drop_last();
        reveal(frames_fit);
        assert forall|i: int| 0 <= i < front.len() implies ((
        #[trigger] front[i]) matches StepView::AppendFrame { frame, .. } ==> engine_at(
            engine,
            front,
            deleted,
            i,
        ).segment_len + frame.len() <= u64::MAX) by {
            assert(front[i] == steps[i]);
            assert(front.take(i) =~= steps.take(i));
        }
        steps_are_counted(engine, front, deleted, counter);
        assert(steps[steps.len() - 1] == steps.last());
        assert(steps.take(steps.len() - 1) =~= front);
        step_is_counted(engine.after_all(front, deleted), steps.last(), deleted, counter);
    }
}

proof fn total_push(counter: Counter, steps: Seq<StepView>, step: StepView, deleted: u64)
    ensures
        counter.total(steps.push(step), deleted) == counter.total(steps, deleted) + counter.weight(
            step,
            deleted,
        ),
{
    assert(steps.push(step).drop_last() =~= steps);
}

/// Whether a counter counts what only whole operations do.
pub open spec fn counts_operations(counter: Counter) -> bool {
    match counter {
        Counter::Rotations => false,
        Counter::DurableSyncs => false,
        Counter::BytesWritten(_) => false,
        Counter::DeletedSegments => false,
        _ => true,
    }
}

/// How often an operation counts under a counter of operations.
pub open spec fn operation_weight(operation: Operation, counter: Counter) -> nat {
    let counts = match (counter, operation) {
        (Counter::RecordsWritten(kind), Operation::Save(_, record)) => kind == metric_of(record),
        (Counter::RecordsWritten(kind), Operation::Checkpoint(_, record)) => kind == metric_of(
            record,
        ),
        (Counter::RecordsWritten(kind), Operation::Create(_, _)) => kind
            is SnapshotCheckpoint,
        (Counter::NodesCreated, Operation::Create(_, _)) => true,
        (Counter::NodesRemoved, Operation::Remove(_)) => true,
        (Counter::Checkpoints, Operation::Checkpoint(_, _)) => true,
        (Counter::Collections, Operation::Checkpoint(_, _)) => true,
        (Counter::Collections, Operation::Remove(_)) => true,
        (Counter::Requests, Operation::Flush) => true,
        _ => false,
    };
    if counts {
        1
    } else {
        0
    }
}

/// What the steps that write a record add.
proof fn write_is_counted(
    engine: EngineView,
    node: NodeId,
    record: RecordView,
    deleted: u64,
    counter: Counter,
)
    requires
        record.wf(),
        engine.append(node, record) is Ok,
        counts_operations(counter),
    ensures
        ({
            let write = engine.append(node, record)->Ok_0.0;
            let expected: nat = if counter == Counter::RecordsWritten(metric_of(record)) {
                1
            } else {
                0
            };
            &&& counter.total(write, deleted) == expected
            &&& counter.total(engine.synced(write), deleted) == expected
        }),
{
    append_steps(engine, node, record);
    let write = engine.append(node, record)->Ok_0.0;
    let frame = crate::format::frame_bytes(crate::format::body_bytes(node, record));
    let next = StepView::CreateSegment((engine.active + 1) as u64);
    let sync = StepView::SyncSegment;
    let empty = Seq::<StepView>::empty();
    let append_step = StepView::AppendFrame { kind: metric_of(record), frame };
    let before = steps_before(engine, frame.len() as int);
    total_push(counter, empty, sync, deleted);
    total_push(counter, empty.push(sync), next, deleted);
    total_push(counter, empty, next, deleted);
    assert(counter.total(before, deleted) == 0) by {
        if is_full(engine, frame.len() as int) {
            if !(engine.sync is UnsafeNoSync) {
                assert(before =~= empty.push(sync).push(next));
            } else {
                assert(before =~= empty.push(next));
            }
        }
    }
    total_push(counter, before, append_step, deleted);
    total_push(counter, before.push(append_step), sync, deleted);
    total_push(counter, write, sync, deleted);
}

/// An operation that is carried out counts once under each counter that is named after what it
/// does, and not under the others: a save, a creation and a checkpoint write one record, a
/// checkpoint and a removal collect garbage once, and so on.
#[verifier::rlimit(40)]
pub proof fn operations_are_counted_once(
    engine: EngineView,
    operation: Operation,
    deleted: u64,
    counter: Counter,
)
    requires
        operation.accepted(engine),
        operation.steps(engine) is Some,
        counts_operations(counter),
    ensures
        counter.value(engine.after_all(operation.steps(engine)->0, deleted).stats) == capped(
            counter.value(engine.stats) + operation_weight(operation, counter),
        ),
{
    let steps = operation.steps(engine)->0;
    operation_frames_fit(engine, operation, deleted);
    steps_are_counted(engine, steps, deleted, counter);
    let empty = Seq::<StepView>::empty();
    match operation {
        Operation::Save(node, record) => {
            write_is_counted(engine, node, record, deleted, counter);
        },
        Operation::Create(_, _) | Operation::Checkpoint(_, _) => {
            let (node, record) = operation.record();
            initial_checkpoint_valid();
            write_is_counted(engine, node, record, deleted, counter);
            let written = engine.synced(engine.append(node, record)->Ok_0.0);
            let first = steps[steps.len() - 3];
            let second = steps[steps.len() - 2];
            let third = steps[steps.len() - 1];
            assert(steps =~= written.push(first).push(second).push(third));
            total_push(counter, written, first, deleted);
            total_push(counter, written.push(first), second, deleted);
            total_push(counter, written.push(first).push(second), third, deleted);
        },
        Operation::Remove(_) => {
            let s = steps;
            assert(s =~= empty.push(s[0]).push(s[1]).push(s[2]).push(s[3]));
            total_push(counter, empty, s[0], deleted);
            total_push(counter, empty.push(s[0]), s[1], deleted);
            total_push(counter, empty.push(s[0]).push(s[1]), s[2], deleted);
            total_push(counter, empty.push(s[0]).push(s[1]).push(s[2]), s[3], deleted);
        },
        Operation::Flush => {
            let synced = engine.synced(empty);
            total_push(counter, empty, StepView::SyncSegment, deleted);
            total_push(counter, synced, StepView::SyncRequested, deleted);
        },
    }
}

// ---------------------------------------------------------------------------------------
// Rejections
// ---------------------------------------------------------------------------------------

/// The number under a kind of operations.
pub open spec fn of_operation(numbers: OperationKindStats, operation: StorageOperationKind) -> u64 {
    match operation {
        StorageOperationKind::Load => numbers.load,
        StorageOperationKind::SaveCurrentTerm => numbers.save_current_term,
        StorageOperationKind::SaveVotedFor => numbers.save_voted_for,
        StorageOperationKind::AppendEntries => numbers.append_entries,
        StorageOperationKind::SaveSnapshot => numbers.save_snapshot,
        StorageOperationKind::RemoveNode => numbers.remove_node,
    }
}

/// How many operations of a kind were rejected for a reason.
pub open spec fn rejections(
    stats: StorageStats,
    operation: StorageOperationKind,
    error: NodeAccessErrorKind,
) -> u64 {
    match error {
        NodeAccessErrorKind::UnknownNode => of_operation(
            stats.rejected_operations.unknown_nodes,
            operation,
        ),
        NodeAccessErrorKind::RemovedNode => of_operation(
            stats.rejected_operations.removed_nodes,
            operation,
        ),
    }
}

/// A rejected operation is counted once, under its kind and the reason, and changes nothing else.
pub proof fn rejection_is_counted_once(
    engine: EngineView,
    operation: StorageOperationKind,
    error: NodeAccessErrorKind,
    other: StorageOperationKind,
    other_error: NodeAccessErrorKind,
)
    ensures
        ({
            let after = engine.rejecting(operation, error);
            &&& rejections(after.stats, other, other_error) == capped(
                rejections(engine.stats, other, other_error) + if other == operation && other_error
                    == error {
                    1int
                } else {
                    0int
                },
            )
            &&& (StorageStats {
                rejected_operations: engine.stats.rejected_operations,
                ..after.stats
            }) == engine.stats
            &&& (EngineView { stats: engine.stats, ..after }) == engine
        }),
{
}

/// A save for a node that is not active writes nothing, tells that the node was not found, and is
/// counted as rejected, under the reason that holds of the node.
pub proof fn saves_need_active_nodes(
    engine: EngineView,
    node: NodeId,
    record: RecordView,
    operation: StorageOperationKind,
    result: Result<Vec<Step>, StorageError>,
    now: EngineView,
)
    requires
        saves_record(engine, node, record, operation, result, now),
        !engine.registry.contains_key(node.0) || engine.registry[node.0].removed,
    ensures
        result is Err,
        result->Err_0.spec_kind() == ErrorKind::NotFound,
        result->Err_0 == StorageError::NodeNotFound <==> !engine.registry.contains_key(node.0),
        result->Err_0 == StorageError::NodeRemoved <==> engine.registry.contains_key(node.0),
        ({
            let reason = if engine.registry.contains_key(node.0) {
                NodeAccessErrorKind::RemovedNode
            } else {
                NodeAccessErrorKind::UnknownNode
            };
            rejections(now.stats, operation, reason) == capped(
                rejections(engine.stats, operation, reason) + 1,
            )
        }),
        (EngineView { stats: engine.stats, ..now }) == engine,
{
}

} // verus!
