//! Laws of the storage engine: what is left of an operation that is interrupted.

use vstd::prelude::*;

verus! {

use crate::checkpoint_index::barrier;
use crate::durability::{
    after_push, collection_keeps_nodes, consistent, consistent_with_same_index,
    deleted_does_not_matter, frame_adds_record, hint_stays_valid, index_new_checkpoint, indexed,
    loaded, loaded_is_stored, new_segment_adds_nothing, prepare_keeps_consistent, segments_after,
    segments_after_all, segments_push, synced_append, written_frame_holds_body,
};
use crate::format::{body_bytes, frame_bytes, parse_body, MAX_RECORD_BODY_LEN};
use crate::history::{all_records, stored_state, valid_hint};
use crate::raft::NodeId;
use crate::record::{initial_checkpoint_valid, initial_checkpoint_view, RecordView};
use crate::registry::{active_nodes, with_created, with_removed, MetadataView};
use crate::scan::SegmentView;
use crate::storage::{EngineView, StepView};

/// Whether a step keeps the segments those of the engine.
pub open spec fn step_fits(engine: EngineView, segments: Seq<SegmentView>, step: StepView) -> bool {
    match step {
        StepView::CreateSegment(id) => engine.active < id,
        StepView::AppendFrame { frame, .. } => exists|body: Seq<u8>|
            {
                &&& #[trigger] frame_bytes(body) == frame
                &&& body.len() <= MAX_RECORD_BODY_LEN
                &&& parse_body(body) is Ok
                &&& engine.segment_len + frame.len() <= u64::MAX
            },
        StepView::SaveCheckpointIndex(index) => forall|node: u64| #[trigger]
            index.contains_key(node) ==> valid_hint(all_records(segments), node, Some(index[node])),
        StepView::CollectGarbage(limit) => {
            &&& limit == barrier(engine.index, active_nodes(engine.registry))
            &&& indexed(engine)
        },
        _ => true,
    }
}

/// The engine after the first steps were carried out.
pub open spec fn engine_at(engine: EngineView, steps: Seq<StepView>, deleted: u64, k: int) -> EngineView {
    engine.after_all(steps.take(k), deleted)
}

/// The segments after the first steps were carried out.
pub open spec fn segments_at(
    engine: EngineView,
    segments: Seq<SegmentView>,
    steps: Seq<StepView>,
    deleted: u64,
    k: int,
) -> Seq<SegmentView> {
    segments_after_all(segments, engine, steps.take(k), deleted)
}

/// Whether all steps keep the segments those of the engine, one after the other.
#[verifier::opaque]
pub open spec fn steps_fit(
    engine: EngineView,
    segments: Seq<SegmentView>,
    steps: Seq<StepView>,
    deleted: u64,
) -> bool {
    forall|k: int|
        0 <= k < steps.len() ==> step_fits(
            engine_at(engine, steps, deleted, k),
            segments_at(engine, segments, steps, deleted, k),
            #[trigger] steps[k],
        )
}

/// A step that fits keeps the segments those of the engine.
proof fn step_keeps_consistent(
    engine: EngineView,
    segments: Seq<SegmentView>,
    step: StepView,
    deleted: u64,
)
    requires
        consistent(engine, segments),
        step_fits(engine, segments, step),
    ensures
        consistent(engine.after(step, deleted), segments_after(segments, engine, step)),
{
    let next = engine.after(step, deleted);
    let after = segments_after(segments, engine, step);
    match step {
        StepView::CreateSegment(id) => {
            reveal(consistent);
            new_segment_adds_nothing(segments, id);
        },
        StepView::AppendFrame { kind, frame } => {
            reveal(consistent);
            let body = choose|body: Seq<u8>|
                {
                    &&& #[trigger] frame_bytes(body) == frame
                    &&& body.len() <= MAX_RECORD_BODY_LEN
                    &&& parse_body(body) is Ok
                    &&& engine.segment_len + frame.len() <= u64::MAX
                };
            frame_adds_record(segments, body);
            let all = all_records(segments);
            let added = all_records(after).last();
            assert forall|node: u64| #[trigger] engine.index.contains_key(node) implies valid_hint(
                all.push(added),
                node,
                Some(engine.index[node]),
            ) by {
                hint_stays_valid(all, added, node, Some(engine.index[node]));
            }
            assert forall|i: int| 0 <= i < all.push(added).len() implies parse_body(
                (#[trigger] all.push(added)[i]).body,
            ) is Ok by {
                if i < all.len() {
                    assert(all.push(added)[i] == all[i]);
                }
            }
        },
        StepView::SaveCheckpointIndex(index) => {
            reveal(consistent);
        },
        StepView::CollectGarbage(limit) => {
            collection_keeps_nodes(engine, segments, active_nodes(engine.registry));
            consistent_with_same_index(engine, next, after);
        },
        _ => {
            consistent_with_same_index(engine, next, after);
        },
    }
}

/// A step that fits and writes no record keeps the state of an active node.
proof fn step_keeps_state(
    engine: EngineView,
    segments: Seq<SegmentView>,
    step: StepView,
    node: u64,
)
    requires
        consistent(engine, segments),
        step_fits(engine, segments, step),
        !(step is AppendFrame),
        active_nodes(engine.registry).contains(node),
    ensures
        stored_state(all_records(segments_after(segments, engine, step)), node) == stored_state(
            all_records(segments),
            node,
        ),
{
    match step {
        StepView::CreateSegment(id) => {
            reveal(consistent);
            new_segment_adds_nothing(segments, id);
        },
        StepView::CollectGarbage(limit) => {
            collection_keeps_nodes(engine, segments, active_nodes(engine.registry));
        },
        _ => {},
    }
}

proof fn at_next(
    engine: EngineView,
    segments: Seq<SegmentView>,
    steps: Seq<StepView>,
    deleted: u64,
    k: int,
)
    requires
        0 <= k < steps.len(),
    ensures
        engine_at(engine, steps, deleted, k + 1) == engine_at(engine, steps, deleted, k).after(
            steps[k],
            deleted,
        ),
        segments_at(engine, segments, steps, deleted, k + 1) == segments_after(
            segments_at(engine, segments, steps, deleted, k),
            engine_at(engine, steps, deleted, k),
            steps[k],
        ),
{
    assert(steps.take(k + 1).drop_last() =~= steps.take(k));
}

/// Steps that fit keep the segments those of the engine at every point.
pub proof fn consistent_at_every_point(
    engine: EngineView,
    segments: Seq<SegmentView>,
    steps: Seq<StepView>,
    deleted: u64,
    k: int,
)
    requires
        consistent(engine, segments),
        steps_fit(engine, segments, steps, deleted),
        0 <= k <= steps.len(),
    ensures
        consistent(
            engine_at(engine, steps, deleted, k),
            segments_at(engine, segments, steps, deleted, k),
        ),
    decreases k,
{
    reveal(steps_fit);
    if k == 0 {
        assert(steps.take(0) =~= Seq::empty());
    } else {
        consistent_at_every_point(engine, segments, steps, deleted, k - 1);
        at_next(engine, segments, steps, deleted, k - 1);
        assert(step_fits(
            engine_at(engine, steps, deleted, k - 1),
            segments_at(engine, segments, steps, deleted, k - 1),
            steps[k - 1],
        ));
        step_keeps_consistent(
            engine_at(engine, steps, deleted, k - 1),
            segments_at(engine, segments, steps, deleted, k - 1),
            steps[k - 1],
            deleted,
        );
    }
}

/// Whether a node is active at every point.
pub open spec fn stays_active(
    engine: EngineView,
    steps: Seq<StepView>,
    deleted: u64,
    node: u64,
) -> bool {
    forall|k: int|
        0 <= k <= steps.len() ==> active_nodes(
            (#[trigger] engine_at(engine, steps, deleted, k)).registry,
        ).contains(node)
}

/// Between two points where no record is written, the state of an active node stays.
proof fn quiet_steps(
    engine: EngineView,
    segments: Seq<SegmentView>,
    steps: Seq<StepView>,
    deleted: u64,
    i: int,
    j: int,
    node: u64,
)
    requires
        consistent(engine, segments),
        steps_fit(engine, segments, steps, deleted),
        stays_active(engine, steps, deleted, node),
        0 <= i <= j <= steps.len(),
        forall|k: int| i <= k < j ==> !((#[trigger] steps[k]) is AppendFrame),
    ensures
        stored_state(all_records(segments_at(engine, segments, steps, deleted, i)), node)
            == stored_state(all_records(segments_at(engine, segments, steps, deleted, j)), node),
    decreases j - i,
{
    if i < j {
        reveal(steps_fit);
        quiet_steps(engine, segments, steps, deleted, i, j - 1, node);
        at_next(engine, segments, steps, deleted, j - 1);
        consistent_at_every_point(engine, segments, steps, deleted, j - 1);
        assert(!(steps[j - 1] is AppendFrame));
        step_keeps_state(
            engine_at(engine, steps, deleted, j - 1),
            segments_at(engine, segments, steps, deleted, j - 1),
            steps[j - 1],
            node,
        );
    }
}

/// Whether no record is written.
#[verifier::opaque]
pub open spec fn writes_nothing(steps: Seq<StepView>) -> bool {
    forall|i: int| 0 <= i < steps.len() ==> !((#[trigger] steps[i]) is AppendFrame)
}

/// Whether at most one record is written.
#[verifier::opaque]
pub open spec fn writes_once(steps: Seq<StepView>) -> bool {
    forall|i: int, j: int|
        0 <= i < j < steps.len() ==> !((#[trigger] steps[i]) is AppendFrame && (
        #[trigger] steps[j]) is AppendFrame)
}

/// Where steps that write at most one record are interrupted between two of them, each node
/// that stays active has the state from before or the state from after all of them.
proof fn old_or_new_state(
    engine: EngineView,
    segments: Seq<SegmentView>,
    steps: Seq<StepView>,
    deleted: u64,
    k: int,
    node: u64,
)
    requires
        consistent(engine, segments),
        steps_fit(engine, segments, steps, deleted),
        stays_active(engine, steps, deleted, node),
        writes_once(steps),
        0 <= k <= steps.len(),
    ensures
        ({
            let at = loaded(
                engine_at(engine, steps, deleted, k),
                segments_at(engine, segments, steps, deleted, k),
                node,
            );
            let end = loaded(
                engine.after_all(steps, deleted),
                segments_after_all(segments, engine, steps, deleted),
                node,
            );
            at == loaded(engine, segments, node) || at == end
        }),
{
    let len = steps.len() as int;
    assert(steps.take(0) =~= Seq::empty());
    assert(steps.take(len) =~= steps);
    consistent_at_every_point(engine, segments, steps, deleted, k);
    consistent_at_every_point(engine, segments, steps, deleted, len);
    loaded_is_stored(engine, segments, node);
    loaded_is_stored(
        engine_at(engine, steps, deleted, k),
        segments_at(engine, segments, steps, deleted, k),
        node,
    );
    loaded_is_stored(
        engine.after_all(steps, deleted),
        segments_after_all(segments, engine, steps, deleted),
        node,
    );
    if forall|i: int| 0 <= i < k ==> !((#[trigger] steps[i]) is AppendFrame) {
        quiet_steps(engine, segments, steps, deleted, 0, k, node);
    } else {
        reveal(writes_once);
        let i = choose|i: int| 0 <= i < k && (#[trigger] steps[i]) is AppendFrame;
        assert forall|j: int| k <= j < len implies !((#[trigger] steps[j]) is AppendFrame) by {
            assert(steps[i] is AppendFrame);
        }
        quiet_steps(engine, segments, steps, deleted, k, len, node);
    }
}

// ---------------------------------------------------------------------------------------
// The operations of the engine
// ---------------------------------------------------------------------------------------

/// A write operation that the engine does not reject.
pub enum Operation {
    /// Saves a record of a node.
    Save(NodeId, RecordView),
    /// Creates a node.
    Create(NodeId, MetadataView),
    /// Saves a snapshot checkpoint of a node.
    Checkpoint(NodeId, RecordView),
    /// Removes a node.
    Remove(NodeId),
    /// Synchronizes pending writes.
    Flush,
}

impl Operation {
    /// The steps of the operation, if it can be done.
    pub open spec fn steps(self, engine: EngineView) -> Option<Seq<StepView>> {
        match self {
            Operation::Save(node, record) => match engine.append(node, record) {
                Ok((steps, _)) => Some(steps),
                Err(_) => None,
            },
            Operation::Create(node, metadata) => match engine.create_node(node, metadata) {
                Ok(steps) => Some(steps),
                Err(_) => None,
            },
            Operation::Checkpoint(node, record) => match engine.save_checkpoint(node, record) {
                Ok(steps) => Some(steps),
                Err(_) => None,
            },
            Operation::Remove(node) => Some(engine.remove_node(node)),
            Operation::Flush => Some(engine.flush()),
        }
    }

    /// Whether the operation is one that the engine does not reject.
    pub open spec fn accepted(self, engine: EngineView) -> bool {
        match self {
            Operation::Save(node, record) => record.wf() && engine.access(node) is Ok,
            Operation::Create(_, _) => true,
            Operation::Checkpoint(node, record) => {
                &&& record.wf()
                &&& record is SnapshotCheckpoint
                &&& engine.access(node) is Ok
            },
            Operation::Remove(node) => engine.access(node) is Ok,
            Operation::Flush => true,
        }
    }

    /// Whether the operation removes the node.
    pub open spec fn removes(self, node: u64) -> bool {
        self matches Operation::Remove(removed) && removed.0 == node
    }
}

/// Whether the node is active in each registry that is saved.
#[verifier::opaque]
pub open spec fn saved_as_active(steps: Seq<StepView>, node: u64) -> bool {
    forall|i: int|
        0 <= i < steps.len() ==> ((#[trigger] steps[i]) matches StepView::SaveNodeRegistry(registry)
            ==> active_nodes(registry).contains(node))
}

/// One more step.
proof fn writes_push(steps: Seq<StepView>, step: StepView, node: u64)
    ensures
        writes_nothing(steps) && !(step is AppendFrame) ==> writes_nothing(steps.push(step)),
        writes_nothing(steps) ==> writes_once(steps.push(step)),
        writes_once(steps) && !(step is AppendFrame) ==> writes_once(steps.push(step)),
        saved_as_active(steps, node) && (step matches StepView::SaveNodeRegistry(registry)
            ==> active_nodes(registry).contains(node)) ==> saved_as_active(steps.push(step), node),
{
    reveal(writes_nothing);
    reveal(writes_once);
    reveal(saved_as_active);
    let longer = steps.push(step);
    assert(forall|i: int| 0 <= i < steps.len() ==> longer[i] == #[trigger] steps[i]);
}

proof fn fits_nothing(engine: EngineView, segments: Seq<SegmentView>, deleted: u64, node: u64)
    ensures
        steps_fit(engine, segments, Seq::empty(), deleted),
        engine.after_all(Seq::empty(), deleted) == engine,
        segments_after_all(segments, engine, Seq::empty(), deleted) == segments,
        writes_nothing(Seq::empty()),
        writes_once(Seq::empty()),
        saved_as_active(Seq::empty(), node),
{
    reveal(steps_fit);
    reveal(writes_nothing);
    reveal(writes_once);
    reveal(saved_as_active);
}

/// One more step that fits.
proof fn fits_push(
    engine: EngineView,
    segments: Seq<SegmentView>,
    steps: Seq<StepView>,
    step: StepView,
    deleted: u64,
    node: u64,
)
    requires
        steps_fit(engine, segments, steps, deleted),
        step_fits(
            engine.after_all(steps, deleted),
            segments_after_all(segments, engine, steps, deleted),
            step,
        ),
    ensures
        steps_fit(engine, segments, steps.push(step), deleted),
        engine.after_all(steps.push(step), deleted) == engine.after_all(steps, deleted).after(
            step,
            deleted,
        ),
        segments_after_all(segments, engine, steps.push(step), deleted) == segments_after(
            segments_after_all(segments, engine, steps, deleted),
            engine.after_all(steps, deleted),
            step,
        ),
        writes_nothing(steps) && !(step is AppendFrame) ==> writes_nothing(steps.push(step)),
        writes_nothing(steps) ==> writes_once(steps.push(step)),
        writes_once(steps) && !(step is AppendFrame) ==> writes_once(steps.push(step)),
        saved_as_active(steps, node) && (step matches StepView::SaveNodeRegistry(registry)
            ==> active_nodes(registry).contains(node)) ==> saved_as_active(steps.push(step), node),
{
    reveal(steps_fit);
    let longer = steps.push(step);
    after_push(engine, steps, step, deleted);
    segments_push(segments, engine, steps, step, deleted);
    writes_push(steps, step, node);
    assert forall|k: int| 0 <= k < longer.len() implies step_fits(
        engine_at(engine, longer, deleted, k),
        segments_at(engine, segments, longer, deleted, k),
        #[trigger] longer[k],
    ) by {
        assert(longer.take(k) =~= steps.take(k));
        if k < steps.len() {
            assert(longer[k] == steps[k]);
        } else {
            assert(steps.take(k) =~= steps);
        }
    }
}

/// The steps before a frame fit.
proof fn prepare_fits(
    engine: EngineView,
    segments: Seq<SegmentView>,
    frame_len: nat,
    deleted: u64,
    node: u64,
)
    requires
        consistent(engine, segments),
        !(engine.rotates(frame_len) && engine.active == u64::MAX),
    ensures
        ({
            let steps = engine.prepare(frame_len);
            &&& steps_fit(engine, segments, steps, deleted)
            &&& writes_nothing(steps)
            &&& saved_as_active(steps, node)
            &&& engine.after_all(steps, deleted) == engine.after_all(steps, 0)
        }),
{
    let empty = Seq::<StepView>::empty();
    let prepare = engine.prepare(frame_len);
    fits_nothing(engine, segments, deleted, node);
    if engine.rotates(frame_len) {
        let create = StepView::CreateSegment((engine.active + 1) as u64);
        if engine.sync.syncs() {
            let first = empty.push(StepView::SyncSegment);
            fits_push(engine, segments, empty, StepView::SyncSegment, deleted, node);
            fits_push(engine, segments, first, create, deleted, node);
            assert(prepare =~= first.push(create));
        } else {
            fits_push(engine, segments, empty, create, deleted, node);
            assert(prepare =~= empty.push(create));
        }
    }
    deleted_does_not_matter(segments, engine, prepare, deleted);
}

/// The steps of an append fit.
#[verifier::rlimit(40)]
proof fn append_fits(
    engine: EngineView,
    segments: Seq<SegmentView>,
    node: NodeId,
    record: RecordView,
    deleted: u64,
    other: u64,
)
    requires
        consistent(engine, segments),
        record.wf(),
        engine.append(node, record) is Ok,
    ensures
        ({
            let steps = engine.append(node, record)->Ok_0.0;
            &&& steps_fit(engine, segments, steps, deleted)
            &&& writes_once(steps)
            &&& saved_as_active(steps, other)
            &&& steps_fit(engine, segments, engine.synced(steps), deleted)
            &&& writes_once(engine.synced(steps))
            &&& saved_as_active(engine.synced(steps), other)
        }),
{
    reveal(EngineView::append);
    written_frame_holds_body(node, record);
    let body = body_bytes(node, record);
    let frame = frame_bytes(body);
    let prepare = engine.prepare(frame.len());
    let sync = StepView::SyncSegment;
    prepare_keeps_consistent(engine, segments, frame.len());
    prepare_fits(engine, segments, frame.len(), deleted, other);
    let append_step = StepView::AppendFrame { kind: record.kind(), frame };
    let write = prepare.push(append_step);
    let ready = engine.after_all(prepare, deleted);
    assert(ready.segment_len + frame.len() <= u64::MAX);
    assert(step_fits(
        ready,
        segments_after_all(segments, engine, prepare, deleted),
        append_step,
    ));
    fits_push(engine, segments, prepare, append_step, deleted, other);
    fits_push(engine, segments, write, sync, deleted, other);
    fits_push(engine, segments, write.push(sync), sync, deleted, other);
    let steps = engine.append(node, record)->Ok_0.0;
    assert(steps == write || steps == write.push(sync));
}

/// Where each registry that the steps save has the node as active, it stays active.
proof fn node_stays_active(
    engine: EngineView,
    steps: Seq<StepView>,
    deleted: u64,
    node: u64,
    k: int,
)
    requires
        active_nodes(engine.registry).contains(node),
        0 <= k <= steps.len(),
        saved_as_active(steps, node),
    ensures
        active_nodes(engine_at(engine, steps, deleted, k).registry).contains(node),
    decreases k,
{
    if k == 0 {
        assert(steps.take(0) =~= Seq::empty());
    } else {
        reveal(saved_as_active);
        node_stays_active(engine, steps, deleted, node, k - 1);
        assert(steps.take(k).drop_last() =~= steps.take(k - 1));
        assert(steps.take(k).last() == steps[k - 1]);
    }
}

/// The steps of saving a checkpoint, or those of a creation, up to the index.
#[verifier::rlimit(40)]
proof fn index_fits(
    engine: EngineView,
    segments: Seq<SegmentView>,
    node: NodeId,
    record: RecordView,
    deleted: u64,
    other: u64,
)
    requires
        consistent(engine, segments),
        record.wf(),
        record is SnapshotCheckpoint,
        engine.append(node, record) is Ok,
    ensures
        ({
            let (steps, position) = engine.append(node, record)->Ok_0;
            let index = engine.index.insert(node.0, position);
            let saving = engine.synced(steps).push(StepView::SaveCheckpointIndex(index));
            &&& steps_fit(engine, segments, saving, deleted)
            &&& writes_once(saving)
            &&& saved_as_active(saving, other)
            &&& engine.after_all(saving, deleted).index == index
            &&& engine.after_all(saving, deleted).registry == engine.registry
        }),
{
    let (steps, position) = engine.append(node, record)->Ok_0;
    let index = engine.index.insert(node.0, position);
    let written = engine.after_all(engine.synced(steps), deleted);
    let after = segments_after_all(segments, engine, engine.synced(steps), deleted);
    let step = StepView::SaveCheckpointIndex(index);
    append_fits(engine, segments, node, record, deleted, other);
    synced_append(engine, segments, node, record, deleted);
    index_new_checkpoint(written, after, node.0, position);
    let pointing = EngineView { index: written.index.insert(node.0, position), ..written };
    assert(pointing.index == index);
    assert forall|id: u64| #[trigger] index.contains_key(id) implies valid_hint(
        all_records(after),
        id,
        Some(index[id]),
    ) by {
        reveal(consistent);
        assert(pointing.index.contains_key(id));
    }
    fits_push(engine, segments, engine.synced(steps), step, deleted, other);
}

#[verifier::rlimit(40)]
proof fn creation_fits(
    engine: EngineView,
    segments: Seq<SegmentView>,
    node: NodeId,
    metadata: MetadataView,
    deleted: u64,
    other: u64,
)
    requires
        consistent(engine, segments),
        engine.create_node(node, metadata) is Ok,
    ensures
        ({
            let steps = engine.create_node(node, metadata)->Ok_0;
            &&& steps_fit(engine, segments, steps, deleted)
            &&& writes_once(steps)
            &&& active_nodes(engine.registry).contains(other) ==> saved_as_active(steps, other)
        }),
{
    let record = RecordView::SnapshotCheckpoint(initial_checkpoint_view());
    initial_checkpoint_valid();
    let (write, position) = engine.append(node, record)->Ok_0;
    let first = StepView::SaveCheckpointIndex(engine.index.insert(node.0, position));
    let second = StepView::SaveNodeRegistry(with_created(engine.registry, node.0, metadata));
    let third = StepView::NodeCreated;
    let saving = engine.synced(write).push(first);
    index_fits(engine, segments, node, record, deleted, other);
    fits_push(engine, segments, saving, second, deleted, other);
    fits_push(engine, segments, saving.push(second), third, deleted, other);
    assert(saving.push(second).push(third) =~= engine.synced(write) + seq![first, second, third]);
}

#[verifier::rlimit(40)]
proof fn checkpoint_fits(
    engine: EngineView,
    segments: Seq<SegmentView>,
    node: NodeId,
    record: RecordView,
    deleted: u64,
    other: u64,
)
    requires
        consistent(engine, segments),
        indexed(engine),
        record.wf(),
        record is SnapshotCheckpoint,
        active_nodes(engine.registry).contains(node.0),
        engine.save_checkpoint(node, record) is Ok,
    ensures
        ({
            let steps = engine.save_checkpoint(node, record)->Ok_0;
            &&& steps_fit(engine, segments, steps, deleted)
            &&& writes_once(steps)
            &&& saved_as_active(steps, other)
        }),
{
    let (write, position) = engine.append(node, record)->Ok_0;
    let index = engine.index.insert(node.0, position);
    let first = StepView::SaveCheckpointIndex(index);
    let second = StepView::CollectGarbage(barrier(index, active_nodes(engine.registry)));
    let third = StepView::CheckpointSaved;
    let saving = engine.synced(write).push(first);
    index_fits(engine, segments, node, record, deleted, other);
    fits_push(engine, segments, saving, second, deleted, other);
    fits_push(engine, segments, saving.push(second), third, deleted, other);
    assert(saving.push(second).push(third) =~= engine.synced(write) + seq![first, second, third]);
}

/// The index and the registry after a node was removed from them.
proof fn removal_keeps_indexed(engine: EngineView, node: u64, other: u64)
    requires
        indexed(engine),
    ensures
        engine.index.remove(node).dom().subset_of(
            active_nodes(with_removed(engine.registry, node)),
        ),
        active_nodes(engine.registry).contains(other) && other != node ==> active_nodes(
            with_removed(engine.registry, node),
        ).contains(other),
{
}

#[verifier::rlimit(40)]
proof fn removal_fits(
    engine: EngineView,
    segments: Seq<SegmentView>,
    node: NodeId,
    deleted: u64,
    other: u64,
)
    requires
        consistent(engine, segments),
        indexed(engine),
        active_nodes(engine.registry).contains(node.0),
    ensures
        ({
            let steps = engine.remove_node(node);
            &&& steps_fit(engine, segments, steps, deleted)
            &&& writes_once(steps)
            &&& active_nodes(engine.registry).contains(other) && other != node.0
                ==> saved_as_active(steps, other)
        }),
{
    let registry = with_removed(engine.registry, node.0);
    let index = engine.index.remove(node.0);
    let empty = Seq::<StepView>::empty();
    let first = StepView::SaveNodeRegistry(registry);
    let second = StepView::SaveCheckpointIndex(index);
    let third = StepView::CollectGarbage(barrier(index, active_nodes(registry)));
    let fourth = StepView::NodeRemoved;
    removal_keeps_indexed(engine, node.0, other);
    fits_nothing(engine, segments, deleted, other);
    fits_push(engine, segments, empty, first, deleted, other);
    assert forall|id: u64| #[trigger] index.contains_key(id) implies valid_hint(
        all_records(segments),
        id,
        Some(index[id]),
    ) by {
        reveal(consistent);
        assert(engine.index.contains_key(id));
    }
    let steps1 = empty.push(first);
    let steps2 = steps1.push(second);
    let steps3 = steps2.push(third);
    fits_push(engine, segments, steps1, second, deleted, other);
    fits_push(engine, segments, steps2, third, deleted, other);
    fits_push(engine, segments, steps3, fourth, deleted, other);
    assert(steps3.push(fourth) =~= engine.remove_node(node));
}

proof fn operation_fits(
    engine: EngineView,
    segments: Seq<SegmentView>,
    operation: Operation,
    deleted: u64,
    node: u64,
)
    requires
        consistent(engine, segments),
        indexed(engine),
        operation.accepted(engine),
        operation.steps(engine) is Some,
        active_nodes(engine.registry).contains(node),
        !operation.removes(node),
    ensures
        steps_fit(engine, segments, operation.steps(engine)->0, deleted),
        writes_once(operation.steps(engine)->0),
        saved_as_active(operation.steps(engine)->0, node),
{
    match operation {
        Operation::Save(id, record) => {
            append_fits(engine, segments, id, record, deleted, node);
        },
        Operation::Create(id, metadata) => {
            creation_fits(engine, segments, id, metadata, deleted, node);
        },
        Operation::Checkpoint(id, record) => {
            checkpoint_fits(engine, segments, id, record, deleted, node);
        },
        Operation::Remove(id) => {
            removal_fits(engine, segments, id, deleted, node);
        },
        Operation::Flush => {
            let empty = Seq::<StepView>::empty();
            let requested = StepView::SyncRequested;
            fits_nothing(engine, segments, deleted, node);
            fits_push(engine, segments, empty, StepView::SyncSegment, deleted, node);
            fits_push(engine, segments, engine.synced(empty), requested, deleted, node);
        },
    }
}

/// An operation that is interrupted between two of its steps leaves storage that can be read:
/// the segments stay those of the engine, and each active node that the operation does not
/// remove has the state from before or the state from after the operation.
pub proof fn interruption_leaves_old_or_new(
    engine: EngineView,
    segments: Seq<SegmentView>,
    operation: Operation,
    deleted: u64,
    k: int,
    node: u64,
)
    requires
        consistent(engine, segments),
        indexed(engine),
        operation.accepted(engine),
        operation.steps(engine) is Some,
        0 <= k <= operation.steps(engine)->0.len(),
        engine.access(NodeId(node)) is Ok,
        !operation.removes(node),
    ensures
        ({
            let steps = operation.steps(engine)->0;
            let engine_then = engine_at(engine, steps, deleted, k);
            let segments_then = segments_at(engine, segments, steps, deleted, k);
            let state = loaded(engine_then, segments_then, node);
            &&& consistent(engine_then, segments_then)
            &&& engine_then.access(NodeId(node)) is Ok
            &&& state == loaded(engine, segments, node) || state == loaded(
                engine.after_all(steps, deleted),
                segments_after_all(segments, engine, steps, deleted),
                node,
            )
        }),
{
    let steps = operation.steps(engine)->0;
    operation_fits(engine, segments, operation, deleted, node);
    consistent_at_every_point(engine, segments, steps, deleted, k);
    assert forall|j: int| 0 <= j <= steps.len() implies active_nodes(
        (#[trigger] engine_at(engine, steps, deleted, j)).registry,
    ).contains(node) by {
        node_stays_active(engine, steps, deleted, node, j);
    }
    old_or_new_state(engine, segments, steps, deleted, k, node);
}

} // verus!
