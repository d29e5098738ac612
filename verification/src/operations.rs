//! Laws of the storage engine: what each operation does with all its consequences, and what a
//! load gives after any sequence of operations and a reopening.

use vstd::prelude::*;

verus! {

use crate::checkpoint_index::{barrier, IndexView};
use crate::crash::Operation;
use crate::crc32c::crc32c_spec;
use crate::durability::{
    append_collects_nothing, collects_nothing, consistent, created_state, deleted_does_not_matter,
    flush_keeps_nodes, indexed, last_three, load_gives_created_node, load_gives_saved_checkpoint,
    load_gives_saved_record, loaded, loaded_is_stored, removal_keeps_other_nodes,
    segments_after_all,
};
use crate::error::{ErrorKind, StorageError};
use crate::format::{frame_bytes, le_bytes_len, put_u64, put_u8, put_validated, storable, Output};
use crate::history::{all_records, live_history, replayed, then_applied};
use crate::policy::{creation_succeeds_for_new_ids, initial_checkpoint_storable};
use crate::raft::{LogView, NodeId};
use crate::record::{
    initial_checkpoint_valid, initial_checkpoint_view, CheckpointView, RecordView,
};
use crate::registry::{
    active_nodes, removed_nodes, with_created, with_removed, MetadataView, RegistryView,
};
use crate::reopen::{
    new_storage_is_empty, reopening_gives_back_what_was_stored, same_nodes, same_nodes_are_active,
    saved_index, saved_registry, takes_over,
};
use crate::round_trip::{put_err_checkpoint, written_body_exact};
use crate::scan::SegmentView;
use crate::state::{checkpoint_state_exact, default_state, StateView};
use crate::stats::NodeAccessErrorKind;
use crate::storage::{opened, EngineView, StepView, SyncPolicy};

// ---------------------------------------------------------------------------------------
// Sequences of operations
// ---------------------------------------------------------------------------------------

impl Operation {
    /// What the operation makes of the state of a node.
    pub open spec fn effect(self, state: Result<StateView, StorageError>, node: u64) -> Result<
        StateView,
        StorageError,
    > {
        match self {
            Operation::Save(id, record) => if id.0 == node {
                then_applied(state, record)
            } else {
                state
            },
            Operation::Create(id, _) => if id.0 == node {
                Ok(created_state())
            } else {
                state
            },
            Operation::Checkpoint(id, record) => if id.0 == node {
                then_applied(state, record)
            } else {
                state
            },
            Operation::Remove(_) => state,
            Operation::Flush => state,
        }
    }

    /// What the operation makes of the registry.
    pub open spec fn registered(self, registry: RegistryView) -> RegistryView {
        match self {
            Operation::Create(id, metadata) => with_created(registry, id.0, metadata),
            Operation::Remove(id) => with_removed(registry, id.0),
            _ => registry,
        }
    }

    /// Whether the operation can be applied to the state of a node: an append is anchored in
    /// the log, and the snapshot of a checkpoint is at the zero position or behind it.
    pub open spec fn applies(self, state: StateView, node: u64) -> bool {
        match self {
            Operation::Save(id, RecordView::Append(append)) => id.0 == node ==> {
                &&& append.validation() is Ok
                &&& state.log.entries.contains(append.entries.prev)
                &&& state.log.entries.seq.len() <= usize::MAX
            },
            Operation::Save(id, RecordView::SnapshotCheckpoint(checkpoint)) => id.0 == node
                ==> stands_for_state(checkpoint),
            Operation::Checkpoint(id, RecordView::SnapshotCheckpoint(checkpoint)) => id.0 == node
                ==> stands_for_state(checkpoint),
            Operation::Checkpoint(id, _) => id.0 != node,
            _ => true,
        }
    }

    /// Whether the operation creates the node.
    pub open spec fn creates(self, node: u64) -> bool {
        self matches Operation::Create(id, _) && id.0 == node
    }
}

/// Whether a checkpoint is valid, with a snapshot at the zero position or at an index behind it.
pub open spec fn stands_for_state(checkpoint: CheckpointView) -> bool {
    let position = checkpoint.snapshot.last_included;
    checkpoint.validation() is Ok && (position.index.0 > 0 || position.term.0 == 0)
}

/// Some other node ID.
spec fn other_than(node: u64) -> u64 {
    if node == 0 {
        1
    } else {
        0
    }
}

/// One operation keeps the segments those of the engine, and has exactly its effect.
pub proof fn operation_has_its_effect(
    engine: EngineView,
    segments: Seq<SegmentView>,
    operation: Operation,
    deleted: u64,
    node: u64,
)
    requires
        consistent(engine, segments),
        indexed(engine),
        operation.accepted(engine),
        operation.steps(engine) is Some,
    ensures
        ({
            let steps = operation.steps(engine)->0;
            let end = engine.after_all(steps, deleted);
            let after = segments_after_all(segments, engine, steps, deleted);
            &&& consistent(end, after)
            &&& indexed(end)
            &&& end.registry == operation.registered(engine.registry)
            &&& active_nodes(end.registry).contains(node) ==> loaded(end, after, node)
                == operation.effect(loaded(engine, segments, node), node)
        }),
{
    let steps = operation.steps(engine)->0;
    match operation {
        Operation::Save(id, record) => {
            append_collects_nothing(engine, id, record);
            deleted_does_not_matter(segments, engine, steps, deleted);
            let other = if node == id.0 {
                other_than(node)
            } else {
                node
            };
            load_gives_saved_record(engine, segments, id, record, other);
        },
        Operation::Create(id, metadata) => {
            let other = if node == id.0 {
                other_than(node)
            } else {
                node
            };
            load_gives_created_node(engine, segments, id, metadata, deleted, other);
        },
        Operation::Checkpoint(id, record) => {
            load_gives_saved_checkpoint(
                engine,
                segments,
                id,
                record->SnapshotCheckpoint_0,
                deleted,
                node,
            );
        },
        Operation::Remove(id) => {
            removal_keeps_other_nodes(engine, segments, id, deleted, node);
        },
        Operation::Flush => {
            flush_keeps_nodes(engine, segments, deleted, node);
        },
    }
}

/// The engine and the segments after operations, of which each garbage collection deleted the
/// given number of segments.
pub open spec fn after_operations(
    engine: EngineView,
    segments: Seq<SegmentView>,
    operations: Seq<Operation>,
    deleted: Seq<u64>,
) -> (EngineView, Seq<SegmentView>)
    decreases operations.len(),
{
    if operations.len() == 0 {
        (engine, segments)
    } else {
        let (middle, between) = after_operations(
            engine,
            segments,
            operations.drop_last(),
            deleted,
        );
        let steps = operations.last().steps(middle)->0;
        let count = deleted[operations.len() - 1];
        (middle.after_all(steps, count), segments_after_all(between, middle, steps, count))
    }
}

/// Whether each of the operations is accepted and can be done when it comes.
pub open spec fn all_done(
    engine: EngineView,
    segments: Seq<SegmentView>,
    operations: Seq<Operation>,
    deleted: Seq<u64>,
) -> bool
    decreases operations.len(),
{
    operations.len() > 0 ==> {
        let front = operations.drop_last();
        let (middle, between) = after_operations(engine, segments, front, deleted);
        &&& all_done(engine, segments, front, deleted)
        &&& operations.last().accepted(middle)
        &&& operations.last().steps(middle) is Some
    }
}

/// What operations make of the state of a node, one after the other.
pub open spec fn effects(
    state: Result<StateView, StorageError>,
    operations: Seq<Operation>,
    node: u64,
) -> Result<StateView, StorageError>
    decreases operations.len(),
{
    if operations.len() == 0 {
        state
    } else {
        operations.last().effect(effects(state, operations.drop_last(), node), node)
    }
}

/// Whether each of the operations can be applied to what those before it made of the state.
pub open spec fn all_apply(
    state: Result<StateView, StorageError>,
    operations: Seq<Operation>,
    node: u64,
) -> bool
    decreases operations.len(),
{
    operations.len() > 0 ==> {
        let front = operations.drop_last();
        &&& all_apply(state, front, node)
        &&& effects(state, front, node) matches Ok(before) ==> operations.last().applies(
            before,
            node,
        )
    }
}

/// Operations that can be applied one after the other give a state.
pub proof fn applied_operations_give_state(state: StateView, operations: Seq<Operation>, node: u64)
    requires
        all_apply(Ok(state), operations, node),
    ensures
        effects(Ok(state), operations, node) is Ok,
    decreases operations.len(),
{
    if operations.len() > 0 {
        applied_operations_give_state(state, operations.drop_last(), node);
        match operations.last() {
            Operation::Save(_, RecordView::SnapshotCheckpoint(checkpoint)) => {
                if checkpoint.validation() is Ok {
                    checkpoint_state_exact(checkpoint);
                }
            },
            Operation::Checkpoint(_, RecordView::SnapshotCheckpoint(checkpoint)) => {
                if checkpoint.validation() is Ok {
                    checkpoint_state_exact(checkpoint);
                }
            },
            _ => {},
        }
    }
}

/// Whether one of the operations creates the node.
pub open spec fn creates_among(operations: Seq<Operation>, node: u64) -> bool {
    exists|i: int| 0 <= i < operations.len() && (#[trigger] operations[i]).creates(node)
}

/// After any sequence of operations, a load of an active node gives the state from before with
/// the operations on the node applied in order, and the registry knows exactly the nodes that
/// it knew before and those that were created.
pub proof fn load_gives_all_operations(
    engine: EngineView,
    segments: Seq<SegmentView>,
    operations: Seq<Operation>,
    deleted: Seq<u64>,
    node: u64,
)
    requires
        consistent(engine, segments),
        indexed(engine),
        all_done(engine, segments, operations, deleted),
    ensures
        ({
            let (end, after) = after_operations(engine, segments, operations, deleted);
            &&& consistent(end, after)
            &&& indexed(end)
            &&& active_nodes(end.registry).contains(node) ==> {
                &&& active_nodes(engine.registry).contains(node) || creates_among(operations, node)
                &&& loaded(end, after, node) == effects(
                    loaded(engine, segments, node),
                    operations,
                    node,
                )
            }
            &&& end.registry.contains_key(node) <==> engine.registry.contains_key(node)
                || creates_among(operations, node)
        }),
    decreases operations.len(),
{
    if operations.len() > 0 {
        let front = operations.drop_last();
        let last = operations.last();
        let (middle, between) = after_operations(engine, segments, front, deleted);
        let count = deleted[operations.len() - 1];
        load_gives_all_operations(engine, segments, front, deleted, node);
        operation_has_its_effect(middle, between, last, count, node);
        assert(creates_among(operations, node) <==> creates_among(front, node) || last.creates(
            node,
        )) by {
            if creates_among(front, node) {
                let i = choose|i: int|
                    0 <= i < front.len() && (#[trigger] front[i]).creates(node);
                assert(operations[i] == front[i]);
            }
            if last.creates(node) {
                assert(operations[operations.len() - 1].creates(node));
            }
            if creates_among(operations, node) {
                let i = choose|i: int|
                    0 <= i < operations.len() && (#[trigger] operations[i]).creates(node);
                if i < front.len() {
                    assert(front[i] == operations[i]);
                }
            }
        }
        if let Operation::Remove(id) = last {
            assert(middle.registry.contains_key(id.0));
        }
    }
}

/// A storage that starts empty, sees any sequence of operations and is opened again: a load of
/// a node that is active then gives the state that a node starts with, or what the operations
/// on the node made of it in order, which is a state where each of them could be applied; and a
/// node can be created exactly when no operation created it.
#[verifier::rlimit(40)]
pub proof fn reopened_storage_gives_all_operations(
    sync: SyncPolicy,
    max_segment_len: u64,
    operations: Seq<Operation>,
    deleted: Seq<u64>,
    sync_again: SyncPolicy,
    max_segment_len_again: u64,
    nodes_text: Option<Seq<char>>,
    checkpoints_text: Option<Seq<char>>,
    node: u64,
    metadata: MetadataView,
)
    requires
        max_segment_len > 0,
        max_segment_len_again > 0,
        ({
            let (start, segments) = opened(sync, max_segment_len, Seq::empty(), None, None);
            let (end, after) = after_operations(start->Ok_0, segments, operations, deleted);
            &&& all_done(start->Ok_0, segments, operations, deleted)
            &&& saved_registry(nodes_text) matches Ok(registry) && same_nodes(
                registry,
                end.registry,
            )
            &&& saved_index(checkpoints_text) == Ok::<IndexView, StorageError>(end.index)
        }),
    ensures
        ({
            let (start, segments) = opened(sync, max_segment_len, Seq::empty(), None, None);
            let (end, after) = after_operations(start->Ok_0, segments, operations, deleted);
            let (result, stored) = opened(
                sync_again,
                max_segment_len_again,
                after,
                nodes_text,
                checkpoints_text,
            );
            let again = result->Ok_0;
            &&& result is Ok
            &&& stored == after
            &&& again.registry == saved_registry(nodes_text)->Ok_0
            &&& again.access(NodeId(node)) == end.access(NodeId(node))
            &&& consistent(again, stored)
            &&& indexed(again)
            &&& again.access(NodeId(node)) is Ok ==> {
                &&& creates_among(operations, node)
                &&& loaded(again, stored, node) == effects(Ok(default_state()), operations, node)
                &&& all_apply(Ok(default_state()), operations, node) ==> loaded(
                    again,
                    stored,
                    node,
                ) is Ok
            }
            &&& again.create_node(NodeId(node), metadata) == Err::<Seq<StepView>, StorageError>(
                StorageError::NodeAlreadyExists,
            ) <==> creates_among(operations, node)
        }),
{
    let (start, segments) = opened(sync, max_segment_len, Seq::empty(), None, None);
    let (end, after) = after_operations(start->Ok_0, segments, operations, deleted);
    new_storage_is_empty(sync, max_segment_len);
    load_gives_all_operations(start->Ok_0, segments, operations, deleted, node);
    assert(loaded(start->Ok_0, segments, node) == Ok::<StateView, StorageError>(default_state()))
        by {
        loaded_is_stored(start->Ok_0, segments, node);
        assert(replayed(default_state(), live_history(all_records(segments), node)) == Ok::<
            StateView,
            StorageError,
        >(default_state()));
    }
    let body = Seq::<u8>::empty();
    le_bytes_len(body.len(), 4);
    le_bytes_len(crc32c_spec(body) as nat, 4);
    reopening_gives_back_what_was_stored(
        end,
        after,
        sync_again,
        max_segment_len_again,
        nodes_text,
        checkpoints_text,
        body,
        0,
        node,
    );
    let last = after.last();
    let same = SegmentView { bytes: last.bytes + frame_bytes(body).take(0), ..last };
    assert(after.len() > 0) by {
        reveal(consistent);
    }
    assert(same.bytes =~= last.bytes);
    assert(after.drop_last().push(same) =~= after);
    let again = opened(
        sync_again,
        max_segment_len_again,
        after,
        nodes_text,
        checkpoints_text,
    ).0->Ok_0;
    same_nodes_are_active(again.registry, end.registry);
    assert(again.registry.dom().contains(node) == end.registry.dom().contains(node));
    creation_fails_for_used_ids(again, NodeId(node), metadata);
    if all_apply(Ok(default_state()), operations, node) {
        applied_operations_give_state(default_state(), operations, node);
    }
}

proof fn creation_fails_for_used_ids(engine: EngineView, node: NodeId, metadata: MetadataView)
    ensures
        engine.create_node(node, metadata) == Err::<Seq<StepView>, StorageError>(
            StorageError::NodeAlreadyExists,
        ) <==> engine.registry.contains_key(node.0),
{
    reveal(EngineView::append);
    let record = RecordView::SnapshotCheckpoint(initial_checkpoint_view());
    initial_checkpoint_valid();
    initial_checkpoint_storable(node);
    written_body_exact(node, record);
}

// ---------------------------------------------------------------------------------------
// Creating a node
// ---------------------------------------------------------------------------------------

/// Whether all segments are still there, with at least their contents.
pub open spec fn segments_stay(segments: Seq<SegmentView>, after: Seq<SegmentView>) -> bool {
    &&& segments.len() <= after.len()
    &&& forall|i: int|
        0 <= i < segments.len() ==> {
            &&& (#[trigger] after[i]).id == segments[i].id
            &&& segments[i].bytes.is_prefix_of(after[i].bytes)
        }
}

proof fn uncollected_segments_stay(
    segments: Seq<SegmentView>,
    engine: EngineView,
    steps: Seq<StepView>,
    deleted: u64,
)
    requires
        collects_nothing(steps),
        segments.len() > 0,
    ensures
        segments_stay(segments, segments_after_all(segments, engine, steps, deleted)),
    decreases steps.len(),
{
    if steps.len() > 0 {
        let front = steps.drop_last();
        assert forall|i: int| 0 <= i < front.len() implies !((#[trigger] front[i]) is CollectGarbage) by {
            assert(front[i] == steps[i]);
        }
        uncollected_segments_stay(segments, engine, front, deleted);
        assert(!(steps[steps.len() - 1] is CollectGarbage));
        let before = segments_after_all(segments, engine, front, deleted);
        let after = segments_after_all(segments, engine, steps, deleted);
        assert forall|i: int| 0 <= i < segments.len() implies (#[trigger] after[i]).id
            == segments[i].id && segments[i].bytes.is_prefix_of(after[i].bytes) by {
            assert(before[i].id == segments[i].id);
            assert(before[i].bytes.is_prefix_of(after[i].bytes));
        }
    }
}

proof fn creation_collects_nothing(engine: EngineView, node: NodeId, metadata: MetadataView)
    requires
        engine.create_node(node, metadata) is Ok,
    ensures
        collects_nothing(engine.create_node(node, metadata)->Ok_0),
{
    let record = RecordView::SnapshotCheckpoint(initial_checkpoint_view());
    let (write, position) = engine.append(node, record)->Ok_0;
    let steps = engine.create_node(node, metadata)->Ok_0;
    let written = engine.synced(write);
    append_collects_nothing(engine, node, record);
    assert forall|i: int| 0 <= i < steps.len() implies !((#[trigger] steps[i]) is CollectGarbage) by {
        if i < written.len() {
            assert(steps[i] == written[i]);
        }
    }
}

/// What a creation does to the counters of nodes.
proof fn creation_is_counted(
    engine: EngineView,
    segments: Seq<SegmentView>,
    node: NodeId,
    metadata: MetadataView,
    deleted: u64,
)
    requires
        consistent(engine, segments),
        engine.registry.dom().finite(),
        engine.gauges_match(),
        engine.stats.active_nodes < u64::MAX,
        engine.create_node(node, metadata) is Ok,
    ensures
        engine.after_all(engine.create_node(node, metadata)->Ok_0, deleted).stats.active_nodes
            == engine.stats.active_nodes + 1,
{
    let record = RecordView::SnapshotCheckpoint(initial_checkpoint_view());
    let (write, position) = engine.append(node, record)->Ok_0;
    let registry = with_created(engine.registry, node.0, metadata);
    last_three(
        engine,
        segments,
        engine.synced(write),
        StepView::SaveCheckpointIndex(engine.index.insert(node.0, position)),
        StepView::SaveNodeRegistry(registry),
        StepView::NodeCreated,
        deleted,
    );
    assert(active_nodes(registry) =~= active_nodes(engine.registry).insert(node.0));
    let nodes = active_nodes(engine.registry);
    assert(engine.registry.dom().intersect(nodes) =~= nodes);
    assert(nodes.insert(node.0).len() == nodes.len() + 1);
}

/// A creation fails exactly for a node ID that was used before, by a node that is active or
/// removed, also after the storage was opened again. Otherwise, as long as segment numbers do
/// not run out, it succeeds: the metadata is stored, one more node is active, no segment is
/// deleted, the states of all other nodes stay, and from then on the ID is used.
#[verifier::rlimit(40)]
pub proof fn creation_succeeds_once(
    engine: EngineView,
    segments: Seq<SegmentView>,
    node: NodeId,
    metadata: MetadataView,
    deleted: u64,
    again: EngineView,
    other: u64,
    metadata_again: MetadataView,
)
    requires
        consistent(engine, segments),
        indexed(engine),
    ensures
        StorageError::NodeAlreadyExists.spec_kind() == ErrorKind::AlreadyExists,
        engine.create_node(node, metadata) == Err::<Seq<StepView>, StorageError>(
            StorageError::NodeAlreadyExists,
        ) <==> engine.registry.contains_key(node.0),
        takes_over(again, engine) ==> (again.create_node(node, metadata) == Err::<
            Seq<StepView>,
            StorageError,
        >(StorageError::NodeAlreadyExists) <==> engine.registry.contains_key(node.0)),
        !engine.registry.contains_key(node.0) && engine.active < u64::MAX ==> {
            let result = engine.create_node(node, metadata);
            let made = engine.after_all(result->Ok_0, deleted);
            let after = segments_after_all(segments, engine, result->Ok_0, deleted);
            &&& result is Ok
            &&& consistent(made, after)
            &&& indexed(made)
            &&& made.registry == with_created(engine.registry, node.0, metadata)
            &&& active_nodes(made.registry) == active_nodes(engine.registry).insert(node.0)
            &&& !active_nodes(engine.registry).contains(node.0)
            &&& made.registry[node.0].metadata == metadata
            &&& engine.registry.dom().finite() && engine.gauges_match()
                && engine.stats.active_nodes < u64::MAX ==> made.stats.active_nodes
                == engine.stats.active_nodes + 1
            &&& segments_stay(segments, after)
            &&& loaded(made, after, node.0) == Ok::<StateView, StorageError>(created_state())
            &&& other != node.0 ==> loaded(made, after, other) == loaded(engine, segments, other)
            &&& made.create_node(node, metadata_again) == Err::<Seq<StepView>, StorageError>(
                StorageError::NodeAlreadyExists,
            )
        },
{
    creation_fails_for_used_ids(engine, node, metadata);
    creation_fails_for_used_ids(again, node, metadata);
    assert(takes_over(again, engine) ==> again.registry.dom().contains(node.0)
        == engine.registry.dom().contains(node.0));
    if !engine.registry.contains_key(node.0) && engine.active < u64::MAX {
        creation_succeeds_for_new_ids(engine, node, metadata);
        let steps = engine.create_node(node, metadata)->Ok_0;
        let made = engine.after_all(steps, deleted);
        let apart = if other != node.0 {
            other
        } else {
            other_than(node.0)
        };
        load_gives_created_node(engine, segments, node, metadata, deleted, apart);
        creation_collects_nothing(engine, node, metadata);
        assert(segments.len() > 0) by {
            reveal(consistent);
        }
        uncollected_segments_stay(segments, engine, steps, deleted);
        if engine.registry.dom().finite() && engine.gauges_match() && engine.stats.active_nodes
            < u64::MAX {
            creation_is_counted(engine, segments, node, metadata, deleted);
        }
        assert(active_nodes(made.registry) =~= active_nodes(engine.registry).insert(node.0));
        creation_fails_for_used_ids(made, node, metadata_again);
    }
}

// ---------------------------------------------------------------------------------------
// Saving a checkpoint
// ---------------------------------------------------------------------------------------

/// A checkpoint that is not valid is not written.
proof fn invalid_checkpoint_is_rejected(engine: EngineView, node: NodeId, checkpoint: CheckpointView)
    requires
        checkpoint.validation() is Err,
    ensures
        engine.save_checkpoint(node, RecordView::SnapshotCheckpoint(checkpoint)) == Err::<
            Seq<StepView>,
            StorageError,
        >(checkpoint.validation()->Err_0),
{
    reveal(EngineView::append);
    le_bytes_len(node.0 as nat, 8);
    let error = checkpoint.validation()->Err_0;
    let start = Output { bytes: Seq::empty(), len: 0 };
    let out = put_u8(put_u64(Ok(start), node.0), 3);
    assert(out is Ok);
    assert(put_validated(out, checkpoint.validation()) == put_validated(
        Err(error),
        checkpoint.validation(),
    ));
    put_err_checkpoint(Err(error), checkpoint);
}

/// A checkpoint of an active node whose suffix does not start at the position of the snapshot
/// is invalid input, and an invalid checkpoint is not written. Any other that can be stored is
/// saved, as long as segment numbers do not run out: whatever was stored of the node before, a
/// load then gives exactly the checkpoint, and loads of all other active nodes give what they
/// gave.
#[verifier::rlimit(40)]
pub proof fn checkpoint_replaces_history(
    engine: EngineView,
    segments: Seq<SegmentView>,
    node: NodeId,
    checkpoint: CheckpointView,
    deleted: u64,
    other: u64,
)
    requires
        consistent(engine, segments),
        indexed(engine),
        engine.access(node) is Ok,
    ensures
        ({
            let record = RecordView::SnapshotCheckpoint(checkpoint);
            let position = checkpoint.snapshot.last_included;
            let result = engine.save_checkpoint(node, record);
            let saved = engine.after_all(result->Ok_0, deleted);
            let after = segments_after_all(segments, engine, result->Ok_0, deleted);
            &&& StorageError::CheckpointSuffixGap.spec_kind() == ErrorKind::InvalidInput
            &&& checkpoint.suffix.validation() is Ok && checkpoint.suffix.entries.prev != position
                ==> checkpoint.validation() == Err::<(), StorageError>(
                StorageError::CheckpointSuffixGap,
            )
            &&& checkpoint.validation() matches Err(error) ==> result == Err::<
                Seq<StepView>,
                StorageError,
            >(error)
            &&& storable(node, record) && checkpoint.validation() is Ok && engine.active < u64::MAX ==> {
                &&& result is Ok
                &&& consistent(saved, after)
                &&& indexed(saved)
                &&& saved.registry == engine.registry
                &&& saved.index.contains_key(node.0)
                &&& position.index.0 > 0 || position.term.0 == 0 ==> loaded(saved, after, node.0)
                    == Ok::<StateView, StorageError>(
                    (StateView {
                        current_term: checkpoint.current_term,
                        voted_for: checkpoint.voted_for,
                        log: LogView {
                            snapshot_config: checkpoint.snapshot.config,
                            entries: checkpoint.suffix.entries,
                        },
                        payloads: checkpoint.suffix.payloads,
                        snapshot: Some(checkpoint.snapshot),
                    }),
                )
                &&& other != node.0 && engine.access(NodeId(other)) is Ok ==> loaded(
                    saved,
                    after,
                    other,
                ) == loaded(engine, segments, other)
            }
        }),
{
    let record = RecordView::SnapshotCheckpoint(checkpoint);
    if checkpoint.validation() is Err {
        invalid_checkpoint_is_rejected(engine, node, checkpoint);
    } else if storable(node, record) && engine.active < u64::MAX {
        assert(engine.append(node, record) is Ok) by {
            reveal(EngineView::append);
            written_body_exact(node, record);
        }
        load_gives_saved_checkpoint(engine, segments, node, checkpoint, deleted, other);
        checkpoint_state_exact(checkpoint);
        let (write, position) = engine.append(node, record)->Ok_0;
        let index = engine.index.insert(node.0, position);
        last_three(
            engine,
            segments,
            engine.synced(write),
            StepView::SaveCheckpointIndex(index),
            StepView::CollectGarbage(barrier(index, active_nodes(engine.registry))),
            StepView::CheckpointSaved,
            deleted,
        );
    }
}

// ---------------------------------------------------------------------------------------
// Removing a node
// ---------------------------------------------------------------------------------------

/// A removal of an active node appends no record. From then on, also after the storage was
/// opened again, the node is not active, has no entry in the checkpoint index, and every
/// operation on it is rejected as not found, while its ID stays used; all other active nodes
/// stay active with their states.
pub proof fn removal_is_final(
    engine: EngineView,
    segments: Seq<SegmentView>,
    node: NodeId,
    metadata: MetadataView,
    deleted: u64,
    again: EngineView,
    other: u64,
)
    requires
        consistent(engine, segments),
        indexed(engine),
        engine.access(node) is Ok,
    ensures
        ({
            let steps = engine.remove_node(node);
            let removed = engine.after_all(steps, deleted);
            let after = segments_after_all(segments, engine, steps, deleted);
            &&& forall|i: int| 0 <= i < steps.len() ==> !((#[trigger] steps[i]) is AppendFrame)
            &&& consistent(removed, after)
            &&& indexed(removed)
            &&& StorageError::NodeRemoved.spec_kind() == ErrorKind::NotFound
            &&& rejects_removed(removed, node, metadata)
            &&& takes_over(again, removed) ==> rejects_removed(again, node, metadata)
            &&& active_nodes(removed.registry) == active_nodes(engine.registry).remove(node.0)
            &&& other != node.0 && engine.access(NodeId(other)) is Ok ==> {
                &&& removed.access(NodeId(other)) is Ok
                &&& removed.registry[other] == engine.registry[other]
                &&& loaded(removed, after, other) == loaded(engine, segments, other)
            }
        }),
{
    let steps = engine.remove_node(node);
    let removed = engine.after_all(steps, deleted);
    removal_keeps_other_nodes(engine, segments, node, deleted, other);
    creation_fails_for_used_ids(removed, node, metadata);
    creation_fails_for_used_ids(again, node, metadata);
    if takes_over(again, removed) {
        same_nodes_are_active(again.registry, removed.registry);
        assert(again.registry.dom().contains(node.0) == removed.registry.dom().contains(node.0));
    }
    assert(active_nodes(removed.registry) =~= active_nodes(engine.registry).remove(node.0));
    assert(removed_nodes(removed.registry).contains(node.0));
}

/// Whether the engine knows the node as removed.
pub open spec fn rejects_removed(engine: EngineView, node: NodeId, metadata: MetadataView) -> bool {
    &&& !active_nodes(engine.registry).contains(node.0)
    &&& !engine.index.contains_key(node.0)
    &&& engine.access(node) == Err::<(), (StorageError, NodeAccessErrorKind)>(
        (StorageError::NodeRemoved, NodeAccessErrorKind::RemovedNode),
    )
    &&& engine.create_node(node, metadata) == Err::<Seq<StepView>, StorageError>(
        StorageError::NodeAlreadyExists,
    )
}

} // verus!
