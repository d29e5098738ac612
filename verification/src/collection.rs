//! Laws of garbage collection: exactly the segments that no active node needs are deleted.

use vstd::prelude::*;

verus! {

use crate::checkpoint_index::{barrier, barrier_allows_obsolete, GcBarrier, IndexView};
use crate::crash::Operation;
use crate::durability::{
    after_push, append_adds_record, append_collects_nothing, collects_nothing, consistent,
    deleted_does_not_matter, last_three, segments_after_all,
};
use crate::raft::NodeId;
use crate::record::{initial_checkpoint_valid, initial_checkpoint_view, RecordView};
use crate::registry::{active_nodes, with_created, with_removed, MetadataView, RegistryView};
use crate::scan::SegmentView;
use crate::segment::SegmentName;
use crate::storage::{may_delete, EngineView, StepView};
use crate::syncing::writes_append_one_frame;

/// Whether one of the segments has the number.
pub open spec fn has_segment(segments: Seq<SegmentView>, id: u64) -> bool {
    exists|i: int| 0 <= i < segments.len() && (#[trigger] segments[i]).id == id
}

/// Whether no active node needs a segment: it is not the active one, and each node that was
/// created and not removed has a known checkpoint in a later segment.
pub open spec fn is_obsolete(engine: EngineView, id: u64) -> bool {
    &&& id != engine.active
    &&& forall|node: u64| #[trigger]
        engine.registry.contains_key(node) && !engine.registry[node].removed
            ==> engine.index.contains_key(node) && id < engine.index[node].segment.id
}

/// A garbage collection with the barrier of the engine deletes exactly the obsolete segments.
pub proof fn collection_deletes_obsolete(engine: EngineView, id: u64)
    ensures
        may_delete(barrier(engine.index, active_nodes(engine.registry)), engine.active, id)
            <==> is_obsolete(engine, id),
{
    let nodes = active_nodes(engine.registry);
    barrier_allows_obsolete(engine.index, nodes, id);
    assert forall|node: u64|
        nodes.contains(node) <==> (#[trigger] engine.registry.contains_key(node)
            && !engine.registry[node].removed) by {}
    if is_obsolete(engine, id) {
        assert forall|node: u64| #[trigger] nodes.contains(node) implies engine.index.contains_key(
            node,
        ) && id < engine.index[node].segment.id by {
            assert(engine.registry.contains_key(node));
        }
    }
    if may_delete(barrier(engine.index, nodes), engine.active, id) {
        assert forall|node: u64| #[trigger]
            engine.registry.contains_key(node)
                && !engine.registry[node].removed implies engine.index.contains_key(node) && id
            < engine.index[node].segment.id by {
            assert(nodes.contains(node));
        }
    }
}

/// Of the names that a garbage collection of the engine is shown, it picks exactly those of
/// obsolete segments.
pub proof fn picked_names_are_obsolete(engine: EngineView, names: Seq<SegmentName>, name: SegmentName)
    ensures
        ({
            let limit = barrier(engine.index, active_nodes(engine.registry));
            let picked = names.filter(
                |name: SegmentName| may_delete(limit, engine.active, name.id),
            );
            picked.contains(name) <==> names.contains(name) && is_obsolete(engine, name.id)
        }),
{
    let limit = barrier(engine.index, active_nodes(engine.registry));
    let wanted = |name: SegmentName| may_delete(limit, engine.active, name.id);
    let picked = names.filter(wanted);
    collection_deletes_obsolete(engine, name.id);
    if picked.contains(name) {
        let i = choose|i: int| 0 <= i < picked.len() && picked[i] == name;
        names.lemma_filter_pred(wanted, i);
        names.lemma_filter_contains_rev(wanted, name);
    }
    if names.contains(name) && is_obsolete(engine, name.id) {
        let i = choose|i: int| 0 <= i < names.len() && names[i] == name;
        names.lemma_filter_contains(wanted, i);
    }
}

// ---------------------------------------------------------------------------------------
// Which segments there are
// ---------------------------------------------------------------------------------------

proof fn kept_ids(segments: Seq<SegmentView>, keep: spec_fn(SegmentView) -> bool, id: u64)
    requires
        forall|left: SegmentView, right: SegmentView|
            left.id == right.id ==> #[trigger] keep(left) == #[trigger] keep(right),
    ensures
        has_segment(segments.filter(keep), id) <==> has_segment(segments, id) && keep(
            SegmentView { id, bytes: Seq::empty() },
        ),
{
    let kept = segments.filter(keep);
    let any = SegmentView { id, bytes: Seq::empty() };
    if has_segment(kept, id) {
        let i = choose|i: int| 0 <= i < kept.len() && (#[trigger] kept[i]).id == id;
        segments.lemma_filter_pred(keep, i);
        assert(kept.contains(kept[i]));
        segments.lemma_filter_contains_rev(keep, kept[i]);
        let j = choose|j: int| 0 <= j < segments.len() && segments[j] == kept[i];
        assert(segments[j].id == id);
        assert(keep(kept[i]) == keep(any));
    }
    if has_segment(segments, id) && keep(any) {
        let i = choose|i: int| 0 <= i < segments.len() && (#[trigger] segments[i]).id == id;
        assert(keep(segments[i]) == keep(any));
        segments.lemma_filter_contains(keep, i);
        let j = choose|j: int| 0 <= j < kept.len() && kept[j] == segments[i];
        assert(kept[j].id == id);
    }
}

/// Steps that collect no garbage add the segments that they create.
proof fn grown_ids(
    segments: Seq<SegmentView>,
    engine: EngineView,
    steps: Seq<StepView>,
    deleted: u64,
    id: u64,
)
    requires
        collects_nothing(steps),
        segments.len() > 0,
    ensures
        segments_after_all(segments, engine, steps, deleted).len() > 0,
        has_segment(segments_after_all(segments, engine, steps, deleted), id) <==> has_segment(
            segments,
            id,
        ) || steps.contains(StepView::CreateSegment(id)),
    decreases steps.len(),
{
    let create = StepView::CreateSegment(id);
    if steps.len() > 0 {
        let front = steps.drop_last();
        let last = steps.last();
        assert forall|i: int| 0 <= i < front.len() implies !((#[trigger] front[i]) is CollectGarbage) by {
            assert(front[i] == steps[i]);
        }
        grown_ids(segments, engine, front, deleted, id);
        assert(!(steps[steps.len() - 1] is CollectGarbage));
        let before = segments_after_all(segments, engine, front, deleted);
        let after = segments_after_all(segments, engine, steps, deleted);
        assert(steps =~= front.push(last));
        assert(steps.contains(create) <==> front.contains(create) || last == create) by {
            if front.contains(create) {
                let i = choose|i: int| 0 <= i < front.len() && front[i] == create;
                assert(steps[i] == create);
            }
            if last == create {
                assert(steps[steps.len() - 1] == create);
            }
            if steps.contains(create) && last != create {
                let i = choose|i: int| 0 <= i < steps.len() && steps[i] == create;
                assert(front[i] == create);
            }
        }
        if has_segment(before, id) {
            let i = choose|i: int| 0 <= i < before.len() && (#[trigger] before[i]).id == id;
            assert(after[i].id == id);
        }
        if last == create {
            assert(after[before.len() as int].id == id);
        }
        if has_segment(after, id) {
            let i = choose|i: int| 0 <= i < after.len() && (#[trigger] after[i]).id == id;
            if i < before.len() {
                assert(before[i].id == id);
            }
        }
    }
}

/// The active segment is the one that was created last.
proof fn created_is_active(engine: EngineView, steps: Seq<StepView>, deleted: u64)
    ensures
        (forall|i: int| 0 <= i < steps.len() ==> !((#[trigger] steps[i]) is CreateSegment))
            ==> engine.after_all(steps, deleted).active == engine.active,
        (exists|i: int| 0 <= i < steps.len() && (#[trigger] steps[i]) is CreateSegment)
            ==> steps.contains(
            StepView::CreateSegment(engine.after_all(steps, deleted).active),
        ),
    decreases steps.len(),
{
    if steps.len() > 0 {
        let front = steps.drop_last();
        created_is_active(engine, front, deleted);
        let active = engine.after_all(steps, deleted).active;
        if steps.last() is CreateSegment {
            assert(steps[steps.len() - 1] == StepView::CreateSegment(active));
        } else {
            assert forall|i: int| 0 <= i < front.len() implies (#[trigger] front[i]) == steps[i] by {}
            if exists|i: int| 0 <= i < steps.len() && (#[trigger] steps[i]) is CreateSegment {
                let i = choose|i: int| 0 <= i < steps.len() && (#[trigger] steps[i]) is CreateSegment;
                assert(front[i] is CreateSegment);
                let j = choose|j: int|
                    0 <= j < front.len() && front[j] == StepView::CreateSegment(active);
                assert(steps[j] == StepView::CreateSegment(active));
            }
        }
    }
}

/// An append creates no segment but the next one.
pub(crate) proof fn append_creates_next(engine: EngineView, node: NodeId, record: RecordView, i: int)
    requires
        engine.append(node, record) is Ok,
        0 <= i < engine.synced(engine.append(node, record)->Ok_0.0).len(),
    ensures
        engine.synced(engine.append(node, record)->Ok_0.0)[i] matches StepView::CreateSegment(id)
            ==> id == engine.active + 1,
{
    reveal(EngineView::append);
}

/// After a record was written the segments are those from before and the active one.
proof fn appended_ids(
    engine: EngineView,
    segments: Seq<SegmentView>,
    node: NodeId,
    record: RecordView,
    deleted: u64,
    id: u64,
)
    requires
        consistent(engine, segments),
        record.wf(),
        engine.append(node, record) is Ok,
    ensures
        ({
            let steps = engine.synced(engine.append(node, record)->Ok_0.0);
            let written = engine.after_all(steps, deleted);
            let middle = segments_after_all(segments, engine, steps, deleted);
            has_segment(middle, id) <==> has_segment(segments, id) || id == written.active
        }),
{
    let steps = engine.synced(engine.append(node, record)->Ok_0.0);
    let written = engine.after_all(steps, deleted);
    assert(segments.len() > 0 && segments.last().id == engine.active) by {
        reveal(consistent);
    }
    assert(segments[segments.len() - 1].id == engine.active);
    assert(has_segment(segments, engine.active));
    append_collects_nothing(engine, node, record);
    grown_ids(segments, engine, steps, deleted, id);
    created_is_active(engine, steps, deleted);
    assert forall|i: int| 0 <= i < steps.len() && (
    #[trigger] steps[i]) is CreateSegment implies steps[i] == StepView::CreateSegment(
        (engine.active + 1) as u64,
    ) by {
        append_creates_next(engine, node, record, i);
    }
    if exists|i: int| 0 <= i < steps.len() && (#[trigger] steps[i]) is CreateSegment {
        let j = choose|j: int|
            0 <= j < steps.len() && steps[j] == StepView::CreateSegment(written.active);
        assert(steps[j] is CreateSegment);
        if steps.contains(StepView::CreateSegment(id)) {
            let k = choose|k: int| 0 <= k < steps.len() && steps[k] == StepView::CreateSegment(id);
            assert(steps[k] is CreateSegment);
        }
    } else if steps.contains(StepView::CreateSegment(id)) {
        let k = choose|k: int| 0 <= k < steps.len() && steps[k] == StepView::CreateSegment(id);
        assert(steps[k] is CreateSegment);
    }
}

// ---------------------------------------------------------------------------------------
// Operations that collect garbage
// ---------------------------------------------------------------------------------------

/// What a garbage collection with a barrier leaves of segments.
pub open spec fn collected(
    segments: Seq<SegmentView>,
    limit: Option<GcBarrier>,
    active: u64,
) -> Seq<SegmentView> {
    segments.filter(|segment: SegmentView| !may_delete(limit, active, segment.id))
}

/// The steps behind the record of a checkpoint.
proof fn checkpoint_tail(
    engine: EngineView,
    segments: Seq<SegmentView>,
    steps: Seq<StepView>,
    index: IndexView,
    limit: Option<GcBarrier>,
    deleted: u64,
)
    ensures
        ({
            let all = steps + seq![
                StepView::SaveCheckpointIndex(index),
                StepView::CollectGarbage(limit),
                StepView::CheckpointSaved,
            ];
            let written = engine.after_all(steps, deleted);
            let end = engine.after_all(all, deleted);
            &&& end.index == index
            &&& end.registry == written.registry
            &&& end.active == written.active
            &&& segments_after_all(segments, engine, all, deleted) == collected(
                segments_after_all(segments, engine, steps, deleted),
                limit,
                written.active,
            )
        }),
{
    last_three(
        engine,
        segments,
        steps,
        StepView::SaveCheckpointIndex(index),
        StepView::CollectGarbage(limit),
        StepView::CheckpointSaved,
        deleted,
    );
}

/// The steps behind the record of a creation.
proof fn creation_tail(
    engine: EngineView,
    segments: Seq<SegmentView>,
    steps: Seq<StepView>,
    index: IndexView,
    registry: RegistryView,
    deleted: u64,
)
    ensures
        ({
            let all = steps + seq![
                StepView::SaveCheckpointIndex(index),
                StepView::SaveNodeRegistry(registry),
                StepView::NodeCreated,
            ];
            let written = engine.after_all(steps, deleted);
            let end = engine.after_all(all, deleted);
            &&& end.index == index
            &&& end.registry == registry
            &&& end.active == written.active
            &&& segments_after_all(segments, engine, all, deleted) == segments_after_all(
                segments,
                engine,
                steps,
                deleted,
            )
        }),
{
    last_three(
        engine,
        segments,
        steps,
        StepView::SaveCheckpointIndex(index),
        StepView::SaveNodeRegistry(registry),
        StepView::NodeCreated,
        deleted,
    );
}

/// What writing the record of a checkpoint leaves as it was, and where the record goes.
proof fn written_checkpoint(
    engine: EngineView,
    segments: Seq<SegmentView>,
    node: NodeId,
    record: RecordView,
    deleted: u64,
)
    requires
        consistent(engine, segments),
        record.wf(),
        engine.append(node, record) is Ok,
    ensures
        ({
            let (write, position) = engine.append(node, record)->Ok_0;
            let written = engine.after_all(engine.synced(write), deleted);
            &&& written.registry == engine.registry
            &&& written.index == engine.index
            &&& written.active == position.segment.id
        }),
{
    let (write, position) = engine.append(node, record)->Ok_0;
    append_adds_record(engine, segments, node, record);
    append_collects_nothing(engine, node, record);
    deleted_does_not_matter(segments, engine, engine.synced(write), deleted);
    after_push(engine, write, StepView::SyncSegment, 0);
}

/// Which segments a collection leaves.
proof fn collected_segments(
    engine: EngineView,
    segments: Seq<SegmentView>,
    index: IndexView,
    registry: RegistryView,
    id: u64,
)
    requires
        engine.index == index,
        engine.registry == registry,
    ensures
        has_segment(
            collected(segments, barrier(index, active_nodes(registry)), engine.active),
            id,
        ) <==> has_segment(segments, id) && !is_obsolete(engine, id),
{
    let limit = barrier(index, active_nodes(registry));
    let keep = |segment: SegmentView| !may_delete(limit, engine.active, segment.id);
    collection_deletes_obsolete(engine, id);
    kept_ids(segments, keep, id);
}

/// After a checkpoint was saved, exactly the obsolete segments are gone; the checkpoint index
/// has the checkpoint, in the active segment, and the other nodes as before.
pub proof fn checkpoint_deletes_obsolete_segments(
    engine: EngineView,
    segments: Seq<SegmentView>,
    node: NodeId,
    record: RecordView,
    deleted: u64,
    id: u64,
)
    requires
        consistent(engine, segments),
        record.wf(),
        engine.save_checkpoint(node, record) is Ok,
    ensures
        ({
            let steps = engine.save_checkpoint(node, record)->Ok_0;
            let saved = engine.after_all(steps, deleted);
            let after = segments_after_all(segments, engine, steps, deleted);
            &&& has_segment(after, id) <==> (has_segment(segments, id) || id == saved.active)
                && !is_obsolete(saved, id)
            &&& saved.registry == engine.registry
            &&& saved.index.contains_key(node.0)
            &&& saved.index[node.0].segment.id == saved.active
            &&& saved.index.remove(node.0) == engine.index.remove(node.0)
        }),
{
    let (write, position) = engine.append(node, record)->Ok_0;
    let written_steps = engine.synced(write);
    let middle = segments_after_all(segments, engine, written_steps, deleted);
    let index = engine.index.insert(node.0, position);
    let limit = barrier(index, active_nodes(engine.registry));
    let saved = engine.after_all(engine.save_checkpoint(node, record)->Ok_0, deleted);
    written_checkpoint(engine, segments, node, record, deleted);
    checkpoint_tail(engine, segments, written_steps, index, limit, deleted);
    appended_ids(engine, segments, node, record, deleted, id);
    collected_segments(saved, middle, index, engine.registry, id);
    assert(index.remove(node.0) =~= engine.index.remove(node.0));
}

/// After a node was removed, exactly the obsolete segments are gone.
pub proof fn removal_deletes_obsolete_segments(
    engine: EngineView,
    segments: Seq<SegmentView>,
    node: NodeId,
    deleted: u64,
    id: u64,
)
    ensures
        ({
            let steps = engine.remove_node(node);
            let removed = engine.after_all(steps, deleted);
            let after = segments_after_all(segments, engine, steps, deleted);
            &&& has_segment(after, id) <==> has_segment(segments, id) && !is_obsolete(removed, id)
            &&& removed.active == engine.active
            &&& removed.index == engine.index.remove(node.0)
        }),
{
    let registry = with_removed(engine.registry, node.0);
    let index = engine.index.remove(node.0);
    let limit = barrier(index, active_nodes(registry));
    removal_steps(engine, segments, node, deleted);
    let removed = engine.after_all(engine.remove_node(node), deleted);
    collected_segments(removed, segments, index, registry, id);
}

proof fn removal_steps(
    engine: EngineView,
    segments: Seq<SegmentView>,
    node: NodeId,
    deleted: u64,
)
    ensures
        ({
            let registry = with_removed(engine.registry, node.0);
            let index = engine.index.remove(node.0);
            let steps = engine.remove_node(node);
            let removed = engine.after_all(steps, deleted);
            &&& removed.registry == registry
            &&& removed.index == index
            &&& removed.active == engine.active
            &&& segments_after_all(segments, engine, steps, deleted) == collected(
                segments,
                barrier(index, active_nodes(registry)),
                engine.active,
            )
        }),
{
    let registry = with_removed(engine.registry, node.0);
    let index = engine.index.remove(node.0);
    let steps = engine.remove_node(node);
    let first = seq![StepView::SaveNodeRegistry(registry)];
    let collect = StepView::CollectGarbage(barrier(index, active_nodes(registry)));
    last_three(
        engine,
        segments,
        first,
        StepView::SaveCheckpointIndex(index),
        collect,
        StepView::NodeRemoved,
        deleted,
    );
    assert(first + seq![StepView::SaveCheckpointIndex(index), collect, StepView::NodeRemoved]
        =~= steps);
    assert(first.drop_last() =~= Seq::empty());
    assert(engine.after_all(Seq::empty(), deleted) == engine);
    assert(segments_after_all(segments, engine, Seq::empty(), deleted) == segments);
    assert(segments_after_all(segments, engine, first, deleted) == segments);
}

/// A node that was created has its checkpoint in the index from then on, in the active segment, so
/// that it takes part in garbage collection; the other nodes keep their entries.
pub proof fn creation_sets_checkpoint(
    engine: EngineView,
    segments: Seq<SegmentView>,
    node: NodeId,
    metadata: MetadataView,
    deleted: u64,
    id: u64,
)
    requires
        consistent(engine, segments),
        engine.create_node(node, metadata) is Ok,
    ensures
        ({
            let steps = engine.create_node(node, metadata)->Ok_0;
            let made = engine.after_all(steps, deleted);
            let after = segments_after_all(segments, engine, steps, deleted);
            &&& made.index.contains_key(node.0)
            &&& made.index[node.0].segment.id == made.active
            &&& made.index.remove(node.0) == engine.index.remove(node.0)
            &&& has_segment(after, id) <==> has_segment(segments, id) || id == made.active
        }),
{
    let record = RecordView::SnapshotCheckpoint(initial_checkpoint_view());
    initial_checkpoint_valid();
    let (write, position) = engine.append(node, record)->Ok_0;
    let written_steps = engine.synced(write);
    let index = engine.index.insert(node.0, position);
    let registry = with_created(engine.registry, node.0, metadata);
    written_checkpoint(engine, segments, node, record, deleted);
    creation_tail(engine, segments, written_steps, index, registry, deleted);
    appended_ids(engine, segments, node, record, deleted, id);
    assert(index.remove(node.0) =~= engine.index.remove(node.0));
}

/// The files are replaced in an order that a crash cannot spoil: a checkpoint index only behind
/// the frame of the checkpoint, a registry with a new node only behind the index, and garbage is
/// collected only behind the index, or behind the registry and the index where a node is removed.
pub proof fn files_are_replaced_in_order(engine: EngineView, operation: Operation)
    requires
        operation.accepted(engine),
        operation.steps(engine) is Some,
    ensures
        ({
            let steps = operation.steps(engine)->0;
            let last = steps.len() - 1;
            match operation {
                Operation::Create(_, _) => {
                    &&& last >= 3
                    &&& steps[last - 2] is SaveCheckpointIndex
                    &&& steps[last - 1] is SaveNodeRegistry
                    &&& steps[last] is NodeCreated
                    &&& forall|i: int| 0 <= i < last - 2 ==> writes_segment(#[trigger] steps[i])
                    &&& exists|i: int| 0 <= i < last - 2 && (#[trigger] steps[i]) is AppendFrame
                },
                Operation::Checkpoint(_, _) => {
                    &&& last >= 3
                    &&& steps[last - 2] is SaveCheckpointIndex
                    &&& steps[last - 1] is CollectGarbage
                    &&& steps[last] is CheckpointSaved
                    &&& forall|i: int| 0 <= i < last - 2 ==> writes_segment(#[trigger] steps[i])
                    &&& exists|i: int| 0 <= i < last - 2 && (#[trigger] steps[i]) is AppendFrame
                },
                Operation::Remove(_) => {
                    &&& last == 3
                    &&& steps[0] is SaveNodeRegistry
                    &&& steps[1] is SaveCheckpointIndex
                    &&& steps[2] is CollectGarbage
                    &&& steps[3] is NodeRemoved
                },
                Operation::Save(_, _) => forall|i: int|
                    0 <= i <= last ==> writes_segment(#[trigger] steps[i]),
                Operation::Flush => steps[last] is SyncRequested,
            }
        }),
{
    let steps = operation.steps(engine)->0;
    match operation {
        Operation::Create(_, _) | Operation::Checkpoint(_, _) => {
            let (node, record) = operation.record();
            initial_checkpoint_valid();
            let write = engine.append(node, record)->Ok_0.0;
            let at = writes_append_one_frame(engine, node, record);
            assert(steps[at] == write[at]);
            assert forall|i: int| 0 <= i < steps.len() - 3 implies writes_segment(
                #[trigger] steps[i],
            ) by {
                if i < write.len() {
                    assert(steps[i] == write[i]);
                }
            }
        },
        Operation::Save(node, record) => {
            let at = writes_append_one_frame(engine, node, record);
        },
        _ => {},
    }
}

/// Whether a step works on segments only.
pub open spec fn writes_segment(step: StepView) -> bool {
    step is SyncSegment || step is CreateSegment || step is AppendFrame
}

} // verus!
