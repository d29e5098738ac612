//! Laws of the storage engine: what the steps of its operations do to the segments, and what
//! stays readable.

use vstd::prelude::*;

verus! {

use crate::checkpoint_index::{barrier, barrier_protects_checkpoints};
use crate::error::StorageError;
use crate::format::{
    body_bytes, frame_bytes, parse_body, storable, written_frame, MAX_RECORD_BODY_LEN,
};
use crate::frames::{append_keeps_whole, header_is_whole, is_whole};
use crate::history::{
    all_decodable_from, all_decode, all_records, content, is_checkpoint_of, is_of, load_all_agrees_with_load,
    load_gives_stored_state, located, oldest_hint, position_in, segment_records, stored_state,
    stored_state_after_checkpoint, stored_state_after_record, stored_state_from_checkpoint,
    stored_state_of_others, then_applied, valid_hint, valid_hints, whole_storage, Located,
};
use crate::raft::NodeId;
use crate::record::{
    initial_checkpoint_valid, initial_checkpoint_view, CheckpointView, RecordView,
};
use crate::registry::{active_nodes, with_created, with_removed, MetadataView};
use crate::replay::{node_run, state_of, storage_run};
use crate::round_trip::{body_round_trip, written_body_exact};
use crate::scan::{run_result, segment_magic, FrameAt, SegmentView};
use crate::segment::{RecordPosition, SegmentName};
use crate::state::{checkpoint_state_exact, default_state, StateView};
use crate::stats::NodeAccessErrorKind;
use crate::storage::{may_delete, EngineView, StepView};

/// The segments after a step was carried out.
pub open spec fn segments_after(
    segments: Seq<SegmentView>,
    engine: EngineView,
    step: StepView,
) -> Seq<SegmentView> {
    match step {
        StepView::CreateSegment(id) => segments.push(SegmentView { id, bytes: segment_magic() }),
        StepView::AppendFrame { frame, .. } => segments.drop_last().push(
            SegmentView { bytes: segments.last().bytes + frame, ..segments.last() },
        ),
        StepView::CollectGarbage(limit) => segments.filter(
            |segment: SegmentView| !may_delete(limit, engine.active, segment.id),
        ),
        _ => segments,
    }
}

/// The segments after the given steps were carried out.
pub open spec fn segments_after_all(
    segments: Seq<SegmentView>,
    engine: EngineView,
    steps: Seq<StepView>,
    deleted: u64,
) -> Seq<SegmentView>
    decreases steps.len(),
{
    if steps.len() == 0 {
        segments
    } else {
        segments_after(
            segments_after_all(segments, engine, steps.drop_last(), deleted),
            engine.after_all(steps.drop_last(), deleted),
            steps.last(),
        )
    }
}

/// Whether the segments are those of the engine: whole, with decodable records, the last one
/// taking appends, and with a checkpoint wherever the checkpoint index points to.
#[verifier::opaque]
pub open spec fn consistent(engine: EngineView, segments: Seq<SegmentView>) -> bool {
    &&& whole_storage(segments)
    &&& all_decode(all_records(segments))
    &&& segments.len() > 0
    &&& segments.last().id == engine.active
    &&& segments.last().bytes.len() == engine.segment_len
    &&& forall|node: u64| #[trigger]
        engine.index.contains_key(node) ==> valid_hint(
            all_records(segments),
            node,
            Some(engine.index[node]),
        )
}

/// Whether the checkpoint index has active nodes only.
pub open spec fn indexed(engine: EngineView) -> bool {
    engine.index.dom().subset_of(active_nodes(engine.registry))
}

/// What a load of a node gives.
pub open spec fn loaded(engine: EngineView, segments: Seq<SegmentView>, node: u64) -> Result<
    StateView,
    StorageError,
> {
    let hint = position_in(engine.index, node);
    run_result(node_run(engine.stats, segments, engine.active, node, hint).0)
}

/// Statistics, the policy and the registry do not matter to whether the segments are those of
/// the engine.
pub(crate) proof fn consistent_with_same_index(
    engine: EngineView,
    other: EngineView,
    segments: Seq<SegmentView>,
)
    requires
        consistent(engine, segments),
        other.index == engine.index,
        other.active == engine.active,
        other.segment_len == engine.segment_len,
    ensures
        consistent(other, segments),
{
    reveal(consistent);
}

// ---------------------------------------------------------------------------------------
// Records of segments
// ---------------------------------------------------------------------------------------

/// The records of the last segment come last.
pub(crate) proof fn all_records_last(segments: Seq<SegmentView>)
    requires
        segments.len() > 0,
    ensures
        all_records(segments) == all_records(segments.drop_last()) + segment_records(segments.last()),
    decreases segments.len(),
{
    let front = segments.drop_last();
    if segments.len() == 1 {
        assert(segments.skip(1) =~= Seq::empty());
        assert(front =~= Seq::empty());
        assert(all_records(segments.skip(1)) =~= Seq::empty());
        assert(all_records(front) =~= Seq::empty());
        assert(all_records(segments) =~= all_records(front) + segment_records(segments.last()));
    } else {
        assert(segments.skip(1).drop_last() =~= front.skip(1));
        all_records_last(segments.skip(1));
        assert(front[0] == segments[0]);
        assert(all_records(segments) =~= all_records(front) + segment_records(segments.last()));
    }
}

/// A new segment adds no records.
pub(crate) proof fn new_segment_adds_nothing(segments: Seq<SegmentView>, id: u64)
    requires
        whole_storage(segments),
        segments.len() > 0,
        segments.last().id < id,
    ensures
        ({
            let after = segments.push(SegmentView { id, bytes: segment_magic() });
            &&& whole_storage(after)
            &&& all_records(after) == all_records(segments)
        }),
{
    let after = segments.push(SegmentView { id, bytes: segment_magic() });
    header_is_whole();
    all_records_last(after);
    assert(after.drop_last() =~= segments);
    assert(segment_records(after.last()) =~= Seq::empty());
    assert(all_records(after) =~= all_records(segments));
    assert forall|i: int| 0 <= i < after.len() implies is_whole((#[trigger] after[i]).bytes)
        && after[i].bytes.len() <= u64::MAX by {
        if i < segments.len() {
            assert(after[i] == segments[i]);
        }
    }
    assert forall|i: int, j: int| 0 <= i < j < after.len() implies (#[trigger] after[i]).id < (
    #[trigger] after[j]).id by {
        assert(after[i] == segments[i]);
        if j < segments.len() {
            assert(after[j] == segments[j]);
        } else if i < segments.len() - 1 {
            assert(segments[i].id < segments[segments.len() - 1].id);
        }
    }
}

/// A frame at the end of the last segment adds one record.
pub(crate) proof fn frame_adds_record(segments: Seq<SegmentView>, body: Seq<u8>)
    requires
        whole_storage(segments),
        segments.len() > 0,
        body.len() <= MAX_RECORD_BODY_LEN,
        segments.last().bytes.len() + frame_bytes(body).len() <= u64::MAX,
    ensures
        ({
            let last = segments.last();
            let after = segments.drop_last().push(
                SegmentView { bytes: last.bytes + frame_bytes(body), ..last },
            );
            let position = RecordPosition {
                segment: SegmentName { id: last.id },
                offset: last.bytes.len() as u64,
            };
            &&& whole_storage(after)
            &&& all_records(after) == all_records(segments).push(Located { position, body })
        }),
{
    let last = segments.last();
    let grown = SegmentView { bytes: last.bytes + frame_bytes(body), ..last };
    let after = segments.drop_last().push(grown);
    assert(is_whole(segments[segments.len() - 1].bytes));
    append_keeps_whole(last.bytes, body);
    all_records_last(segments);
    all_records_last(after);
    assert(after.drop_last() =~= segments.drop_last());
    let frame = FrameAt { offset: last.bytes.len(), body };
    assert(segment_records(grown) =~= segment_records(last).push(located(last.id, frame)));
    assert(all_records(after) =~= all_records(segments).push(located(last.id, frame)));
    assert forall|i: int| 0 <= i < after.len() implies is_whole((#[trigger] after[i]).bytes)
        && after[i].bytes.len() <= u64::MAX by {
        if i < segments.len() - 1 {
            assert(after[i] == segments[i]);
        }
    }
    assert forall|i: int, j: int| 0 <= i < j < after.len() implies (#[trigger] after[i]).id < (
    #[trigger] after[j]).id by {
        assert(after[i] == segments[i]);
        assert(after[j].id == segments[j].id);
    }
}

/// Hints stay valid when records are added.
pub(crate) proof fn hint_stays_valid(
    records: Seq<Located>,
    record: Located,
    node: u64,
    hint: Option<RecordPosition>,
)
    requires
        valid_hint(records, node, hint),
    ensures
        valid_hint(records.push(record), node, hint),
{
    if let Some(position) = hint {
        let k = choose|k: int|
            0 <= k < records.len() && (#[trigger] records[k]).position == position
                && is_checkpoint_of(records[k], node);
        assert(records.push(record)[k] == records[k]);
    }
}

// ---------------------------------------------------------------------------------------
// Appending
// ---------------------------------------------------------------------------------------

pub(crate) proof fn after_push(engine: EngineView, steps: Seq<StepView>, step: StepView, deleted: u64)
    ensures
        engine.after_all(steps.push(step), deleted) == engine.after_all(steps, deleted).after(
            step,
            deleted,
        ),
{
    assert(steps.push(step).drop_last() =~= steps);
}

pub(crate) proof fn segments_push(
    segments: Seq<SegmentView>,
    engine: EngineView,
    steps: Seq<StepView>,
    step: StepView,
    deleted: u64,
)
    ensures
        segments_after_all(segments, engine, steps.push(step), deleted) == segments_after(
            segments_after_all(segments, engine, steps, deleted),
            engine.after_all(steps, deleted),
            step,
        ),
{
    assert(steps.push(step).drop_last() =~= steps);
}

/// The steps before a frame keep the segments those of the engine, and change nothing that
/// is stored.
pub(crate) proof fn prepare_keeps_consistent(engine: EngineView, segments: Seq<SegmentView>, frame_len: nat)
    requires
        consistent(engine, segments),
        !(engine.rotates(frame_len) && engine.active == u64::MAX),
    ensures
        ({
            let steps = engine.prepare(frame_len);
            let ready = engine.after_all(steps, 0);
            let after = segments_after_all(segments, engine, steps, 0);
            &&& consistent(ready, after)
            &&& all_records(after) == all_records(segments)
            &&& ready.index == engine.index
            &&& ready.registry == engine.registry
            &&& ready.sync == engine.sync
            &&& ready.max_segment_len == engine.max_segment_len
            &&& engine.rotates(frame_len) ==> ready.segment_len == 4
            &&& !engine.rotates(frame_len) ==> ready == engine
        }),
{
    reveal(consistent);
    let empty = Seq::<StepView>::empty();
    assert(engine.after_all(empty, 0) == engine);
    assert(segments_after_all(segments, engine, empty, 0) == segments);
    if engine.rotates(frame_len) {
        let id = (engine.active + 1) as u64;
        let create = StepView::CreateSegment(id);
        new_segment_adds_nothing(segments, id);
        let grown = segments.push(SegmentView { id, bytes: segment_magic() });
        assert(grown.last().bytes.len() == 4);
        if engine.sync.syncs() {
            let first = empty.push(StepView::SyncSegment);
            after_push(engine, empty, StepView::SyncSegment, 0);
            segments_push(segments, engine, empty, StepView::SyncSegment, 0);
            after_push(engine, first, create, 0);
            segments_push(segments, engine, first, create, 0);
            assert(engine.rotation() =~= first.push(create));
        } else {
            after_push(engine, empty, create, 0);
            segments_push(segments, engine, empty, create, 0);
            assert(engine.rotation() =~= empty.push(create));
        }
    }
}

/// The frame of a record that the writer accepts holds the body of the record.
pub(crate) proof fn written_frame_holds_body(node: NodeId, record: RecordView)
    requires
        record.wf(),
        written_frame(node, record) is Ok,
    ensures
        storable(node, record),
        written_frame(node, record) == Ok::<Seq<u8>, StorageError>(
            frame_bytes(body_bytes(node, record)),
        ),
        body_bytes(node, record).len() <= MAX_RECORD_BODY_LEN,
        frame_bytes(body_bytes(node, record)).len() == 8 + body_bytes(node, record).len(),
        parse_body(body_bytes(node, record)) matches Ok(node_record) && node_record.node_id == node
            && node_record.record == record,
{
    written_body_exact(node, record);
    body_round_trip(node, record);
    crate::format::le_bytes_len(body_bytes(node, record).len(), 4);
    crate::format::le_bytes_len(
        crate::crc32c::crc32c_spec(body_bytes(node, record)) as nat,
        4,
    );
}

/// The record that an append adds.
pub open spec fn appended_record(
    node: NodeId,
    record: RecordView,
    position: RecordPosition,
) -> Located {
    Located { position, body: body_bytes(node, record) }
}

/// The steps of an append keep the segments those of the engine, and add exactly the record,
/// at the position that the append tells.
#[verifier::rlimit(40)]
pub proof fn append_adds_record(
    engine: EngineView,
    segments: Seq<SegmentView>,
    node: NodeId,
    record: RecordView,
)
    requires
        consistent(engine, segments),
        record.wf(),
        engine.append(node, record) is Ok,
    ensures
        ({
            let (steps, position) = engine.append(node, record)->Ok_0;
            let written = engine.after_all(steps, 0);
            let after = segments_after_all(segments, engine, steps, 0);
            let added = appended_record(node, record, position);
            &&& consistent(written, after)
            &&& all_records(after) == all_records(segments).push(added)
            &&& is_of(added, node.0)
            &&& content(added) == record
            &&& written.index == engine.index
            &&& written.registry == engine.registry
            &&& written.sync == engine.sync
            &&& written.active == position.segment.id
            &&& storable(node, record)
        }),
{
    reveal(consistent);
    reveal(EngineView::append);
    written_frame_holds_body(node, record);
    let body = body_bytes(node, record);
    let frame = frame_bytes(body);
    let prepare = engine.prepare(frame.len());
    let ready = engine.after_all(prepare, 0);
    let middle = segments_after_all(segments, engine, prepare, 0);
    prepare_keeps_consistent(engine, segments, frame.len());
    let append_step = StepView::AppendFrame { kind: record.kind(), frame };
    let write = prepare.push(append_step);
    after_push(engine, prepare, append_step, 0);
    segments_push(segments, engine, prepare, append_step, 0);
    assert(ready.segment_len + frame.len() <= u64::MAX);
    frame_adds_record(middle, body);
    let (steps, position) = engine.append(node, record)->Ok_0;
    let added = appended_record(node, record, position);
    let grown = segments_after_all(segments, engine, write, 0);
    if steps != write {
        after_push(engine, write, StepView::SyncSegment, 0);
        segments_push(segments, engine, write, StepView::SyncSegment, 0);
    }
    crate::history::decoded_node_id(body);
    let all = all_records(segments);
    assert(all_records(grown) =~= all.push(added));
    assert forall|i: int| 0 <= i < all.push(added).len() implies parse_body(
        (#[trigger] all.push(added)[i]).body,
    ) is Ok by {
        if i < all.len() {
            assert(all.push(added)[i] == all[i]);
        }
    }
    assert forall|other: u64| #[trigger] engine.index.contains_key(other) implies valid_hint(
        all.push(added),
        other,
        Some(engine.index[other]),
    ) by {
        hint_stays_valid(all, added, other, Some(engine.index[other]));
    }
}

/// A load gives the state that the stored records make up.
pub proof fn loaded_is_stored(engine: EngineView, segments: Seq<SegmentView>, node: u64)
    requires
        consistent(engine, segments),
    ensures
        loaded(engine, segments, node) == stored_state(all_records(segments), node),
{
    reveal(consistent);
    all_decodable_from(all_records(segments), set![node], position_in(engine.index, node));
    load_gives_stored_state(
        engine.stats,
        segments,
        engine.active,
        node,
        position_in(engine.index, node),
    );
}

/// A load of all nodes gives what the loads of each active node give.
pub proof fn load_all_gives_each_state(engine: EngineView, segments: Seq<SegmentView>)
    requires
        consistent(engine, segments),
    ensures
        ({
            let nodes = active_nodes(engine.registry);
            let hints = if nodes.subset_of(engine.index.dom()) {
                Some(engine.index.restrict(nodes))
            } else {
                None
            };
            let (run, after) = storage_run(engine.stats, segments, engine.active, nodes, hints);
            &&& after == segments
            &&& match run_result(run) {
                Ok(states) => forall|node: u64| #[trigger]
                    nodes.contains(node) ==> loaded(engine, segments, node) == Ok::<
                        StateView,
                        StorageError,
                    >(state_of(states, node)),
                Err(error) => exists|node: u64| #[trigger]
                    nodes.contains(node) && loaded(engine, segments, node) == Err::<
                        StateView,
                        StorageError,
                    >(error),
            }
        }),
{
    let nodes = active_nodes(engine.registry);
    let all = all_records(segments);
    let hints = if nodes.subset_of(engine.index.dom()) {
        Some(engine.index.restrict(nodes))
    } else {
        None
    };
    assert(whole_storage(segments) && all_decode(all) && valid_hints(all, nodes, hints)) by {
        reveal(consistent);
        if let Some(positions) = hints {
            assert(positions.dom() =~= nodes);
            assert forall|node: u64| #[trigger] positions.contains_key(node) implies valid_hint(
                all,
                node,
                Some(positions[node]),
            ) by {
                assert(engine.index.contains_key(node));
            }
        }
    }
    all_decodable_from(all, nodes, oldest_hint(hints));
    load_all_agrees_with_load(engine.stats, segments, engine.active, nodes, hints);
    assert forall|node: u64| #[trigger] nodes.contains(node) implies loaded(engine, segments, node)
        == stored_state(all, node) by {
        loaded_is_stored(engine, segments, node);
    }
}

/// After a record of a node was written, a load gives the state before with the record
/// applied to it; for all other nodes it gives what it gave before.
pub proof fn load_gives_saved_record(
    engine: EngineView,
    segments: Seq<SegmentView>,
    node: NodeId,
    record: RecordView,
    other: u64,
)
    requires
        consistent(engine, segments),
        record.wf(),
        engine.append(node, record) is Ok,
        other != node.0,
    ensures
        ({
            let steps = engine.append(node, record)->Ok_0.0;
            let written = engine.after_all(steps, 0);
            let after = segments_after_all(segments, engine, steps, 0);
            &&& consistent(written, after)
            &&& indexed(engine) ==> indexed(written)
            &&& written.registry == engine.registry
            &&& loaded(written, after, node.0) == then_applied(
                loaded(engine, segments, node.0),
                record,
            )
            &&& loaded(written, after, other) == loaded(engine, segments, other)
        }),
{
    let (steps, position) = engine.append(node, record)->Ok_0;
    let written = engine.after_all(steps, 0);
    let after = segments_after_all(segments, engine, steps, 0);
    let added = appended_record(node, record, position);
    append_adds_record(engine, segments, node, record);
    loaded_is_stored(engine, segments, node.0);
    loaded_is_stored(engine, segments, other);
    loaded_is_stored(written, after, node.0);
    loaded_is_stored(written, after, other);
    stored_state_after_record(all_records(segments), node.0, added);
    stored_state_of_others(all_records(segments), other, added);
}

// ---------------------------------------------------------------------------------------
// Deleting segments
// ---------------------------------------------------------------------------------------

pub(crate) proof fn whole_front(segments: Seq<SegmentView>)
    requires
        whole_storage(segments),
        segments.len() > 0,
    ensures
        whole_storage(segments.drop_last()),
{
    let front = segments.drop_last();
    assert forall|i: int| 0 <= i < front.len() implies is_whole((#[trigger] front[i]).bytes)
        && front[i].bytes.len() <= u64::MAX by {
        assert(front[i] == segments[i]);
    }
    assert forall|i: int, j: int| 0 <= i < j < front.len() implies (#[trigger] front[i]).id < (
    #[trigger] front[j]).id by {
        assert(front[i] == segments[i]);
        assert(front[j] == segments[j]);
    }
}

/// No record is in a segment behind the last one.
proof fn records_up_to_last(segments: Seq<SegmentView>, k: int)
    requires
        whole_storage(segments),
        0 <= k < all_records(segments).len(),
    ensures
        segments.len() > 0,
        all_records(segments)[k].position.segment.id <= segments.last().id,
    decreases segments.len(),
{
    let front = segments.drop_last();
    all_records_last(segments);
    if k < all_records(front).len() {
        whole_front(segments);
        records_up_to_last(front, k);
        assert(segments[front.len() - 1].id < segments[segments.len() - 1].id);
    }
}

/// The segments that are left when some are deleted, and their records, are in order and
/// decode as before.
proof fn kept_segments_are_whole(segments: Seq<SegmentView>, keep: spec_fn(SegmentView) -> bool)
    requires
        whole_storage(segments),
    ensures
        whole_storage(segments.filter(keep)),
        all_decode(all_records(segments)) ==> all_decode(all_records(segments.filter(keep))),
        forall|i: int|
            0 <= i < segments.filter(keep).len() ==> (#[trigger] segments.filter(keep)[i]).id
                <= segments.last().id,
    decreases segments.len(),
{
    reveal(Seq::filter);
    if segments.len() > 0 {
        let front = segments.drop_last();
        let last = segments.last();
        let kept = front.filter(keep);
        whole_front(segments);
        kept_segments_are_whole(front, keep);
        all_records_last(segments);
        let all = all_records(segments);
        if all_decode(all) {
            assert forall|i: int| 0 <= i < all_records(front).len() implies parse_body(
                (#[trigger] all_records(front)[i]).body,
            ) is Ok by {
                assert(all[i] == all_records(front)[i]);
            }
        }
        assert forall|i: int| 0 <= i < kept.len() implies (#[trigger] kept[i]).id < last.id by {
            assert(segments[front.len() - 1].id < segments[segments.len() - 1].id);
        }
        if keep(last) {
            let after = kept.push(last);
            assert(after.drop_last() =~= kept);
            all_records_last(after);
            let left = all_records(after);
            if all_decode(all) {
                assert forall|i: int| 0 <= i < left.len() implies parse_body(
                    (#[trigger] left[i]).body,
                ) is Ok by {
                    if i >= all_records(kept).len() {
                        let j = i - all_records(kept).len() + all_records(front).len();
                        assert(left[i] == all[j]);
                    } else {
                        assert(left[i] == all_records(kept)[i]);
                    }
                }
            }
            assert(is_whole(segments[segments.len() - 1].bytes));
            assert forall|i: int| 0 <= i < after.len() implies is_whole((#[trigger] after[i]).bytes)
                && after[i].bytes.len() <= u64::MAX by {
                if i < kept.len() {
                    assert(after[i] == kept[i]);
                }
            }
            assert forall|i: int, j: int| 0 <= i < j < after.len() implies (#[trigger] after[i]).id
                < (#[trigger] after[j]).id by {
                assert(after[i] == kept[i]);
                if j < kept.len() {
                    assert(after[j] == kept[j]);
                }
            }
        }
    }
}

/// Where the segment of a record and all behind it are kept, the records from there on are.
proof fn kept_records(segments: Seq<SegmentView>, keep: spec_fn(SegmentView) -> bool, k: int) -> (j:
    int)
    requires
        whole_storage(segments),
        0 <= k < all_records(segments).len(),
        forall|segment: SegmentView|
            segment.id >= all_records(segments)[k].position.segment.id ==> #[trigger] keep(segment),
    ensures
        0 <= j < all_records(segments.filter(keep)).len(),
        all_records(segments.filter(keep)).skip(j) == all_records(segments).skip(k),
    decreases segments.len(),
{
    reveal(Seq::filter);
    records_up_to_last(segments, k);
    all_records_last(segments);
    let front = segments.drop_last();
    let last = segments.last();
    let here = segment_records(last);
    let kept = front.filter(keep);
    let after = kept.push(last);
    assert(keep(last));
    assert(after.drop_last() =~= kept);
    all_records_last(after);
    let all = all_records(segments);
    let before = all_records(front);
    if k < before.len() {
        whole_front(segments);
        assert(all[k] == before[k]);
        let j = kept_records(front, keep, k);
        assert(all.skip(k) =~= before.skip(k) + here);
        assert(all_records(after).skip(j) =~= all_records(kept).skip(j) + here);
        j
    } else {
        let j = k - before.len() + all_records(kept).len();
        assert(all.skip(k) =~= here.skip(k - before.len()));
        assert(all_records(after).skip(j) =~= here.skip(k - before.len()));
        j
    }
}

/// Whether segments are deleted only where a garbage collection may delete them.
pub open spec fn deletes_garbage_only(
    engine: EngineView,
    nodes: Set<u64>,
    keep: spec_fn(SegmentView) -> bool,
) -> bool {
    forall|segment: SegmentView|
        !may_delete(barrier(engine.index, nodes), engine.active, segment.id) ==> #[trigger] keep(
            segment,
        )
}

/// A garbage collection deletes nothing that the given nodes need, even where it deletes only
/// some of the segments that it may delete: the segments stay those of the engine, and the
/// state of each of the nodes stays what it was.
pub proof fn unfinished_collection_keeps_nodes(
    engine: EngineView,
    segments: Seq<SegmentView>,
    nodes: Set<u64>,
    keep: spec_fn(SegmentView) -> bool,
)
    requires
        consistent(engine, segments),
        engine.index.dom().subset_of(nodes),
        deletes_garbage_only(engine, nodes, keep),
    ensures
        consistent(engine, segments.filter(keep)),
        forall|node: u64| #[trigger]
            nodes.contains(node) ==> stored_state(all_records(segments.filter(keep)), node)
                == stored_state(all_records(segments), node),
{
    reveal(consistent);
    let limit = barrier(engine.index, nodes);
    let after = segments.filter(keep);
    let all = all_records(segments);
    let left = all_records(after);
    kept_segments_are_whole(segments, keep);
    assert(after.len() > 0 && after.last() == segments.last()) by {
        reveal(Seq::filter);
        assert(keep(segments.last()));
    }
    assert forall|node: u64| #[trigger] engine.index.contains_key(node) implies valid_hint(
        left,
        node,
        Some(engine.index[node]),
    ) && stored_state(left, node) == stored_state(all, node) by {
        assert(nodes.contains(node));
        collection_keeps_node(engine, segments, nodes, keep, node);
    }
    if limit is None {
        assert(after =~= segments) by {
            keep_all(segments, keep);
        }
    }
    assert forall|node: u64| #[trigger] nodes.contains(node) implies stored_state(left, node)
        == stored_state(all, node) by {
        if limit is Some {
            assert(engine.index.contains_key(node));
        }
    }
}

/// A garbage collection deletes nothing that the given nodes need.
pub proof fn collection_keeps_nodes(engine: EngineView, segments: Seq<SegmentView>, nodes: Set<u64>)
    requires
        consistent(engine, segments),
        engine.index.dom().subset_of(nodes),
    ensures
        ({
            let step = StepView::CollectGarbage(barrier(engine.index, nodes));
            let after = segments_after(segments, engine, step);
            &&& consistent(engine, after)
            &&& forall|node: u64| #[trigger]
                nodes.contains(node) ==> stored_state(all_records(after), node) == stored_state(
                    all_records(segments),
                    node,
                )
        }),
{
    let limit = barrier(engine.index, nodes);
    let keep = |segment: SegmentView| !may_delete(limit, engine.active, segment.id);
    unfinished_collection_keeps_nodes(engine, segments, nodes, keep);
}

proof fn keep_all(segments: Seq<SegmentView>, keep: spec_fn(SegmentView) -> bool)
    requires
        forall|segment: SegmentView| #[trigger] keep(segment),
    ensures
        segments.filter(keep) == segments,
    decreases segments.len(),
{
    reveal(Seq::filter);
    if segments.len() > 0 {
        keep_all(segments.drop_last(), keep);
        assert(keep(segments.last()));
        assert(segments.drop_last().push(segments.last()) =~= segments);
    }
}

proof fn collection_keeps_node(
    engine: EngineView,
    segments: Seq<SegmentView>,
    nodes: Set<u64>,
    keep: spec_fn(SegmentView) -> bool,
    node: u64,
)
    requires
        consistent(engine, segments),
        deletes_garbage_only(engine, nodes, keep),
        nodes.contains(node),
        engine.index.contains_key(node),
    ensures
        valid_hint(all_records(segments.filter(keep)), node, Some(engine.index[node])),
        stored_state(all_records(segments.filter(keep)), node) == stored_state(
            all_records(segments),
            node,
        ),
{
    reveal(consistent);
    let limit = barrier(engine.index, nodes);
    let all = all_records(segments);
    let left = all_records(segments.filter(keep));
    let position = engine.index[node];
    assert(valid_hint(all, node, Some(position)));
    let k = choose|k: int|
        0 <= k < all.len() && (#[trigger] all[k]).position == position && is_checkpoint_of(
            all[k],
            node,
        );
    assert forall|segment: SegmentView| segment.id >= position.segment.id implies #[trigger] keep(
        segment,
    ) by {
        if may_delete(limit, engine.active, segment.id) {
            barrier_protects_checkpoints(engine.index, nodes, node, segment.id);
        }
    }
    let j = kept_records(segments, keep, k);
    assert(left.skip(j)[0] == all.skip(k)[0]);
    assert(left[j] == all[k]);
    stored_state_from_checkpoint(all, node, k);
    stored_state_from_checkpoint(left, node, j);
}

// ---------------------------------------------------------------------------------------
// Operations that replace metadata files
// ---------------------------------------------------------------------------------------

/// Whether none of the steps is a garbage collection.
pub open spec fn collects_nothing(steps: Seq<StepView>) -> bool {
    forall|i: int| 0 <= i < steps.len() ==> !((#[trigger] steps[i]) is CollectGarbage)
}

pub(crate) proof fn deleted_does_not_matter(
    segments: Seq<SegmentView>,
    engine: EngineView,
    steps: Seq<StepView>,
    deleted: u64,
)
    requires
        collects_nothing(steps),
    ensures
        engine.after_all(steps, deleted) == engine.after_all(steps, 0),
        segments_after_all(segments, engine, steps, deleted) == segments_after_all(
            segments,
            engine,
            steps,
            0,
        ),
    decreases steps.len(),
{
    if steps.len() > 0 {
        assert forall|i: int| 0 <= i < steps.drop_last().len() implies !((
        #[trigger] steps.drop_last()[i]) is CollectGarbage) by {
            assert(steps.drop_last()[i] == steps[i]);
        }
        deleted_does_not_matter(segments, engine, steps.drop_last(), deleted);
        assert(!(steps[steps.len() - 1] is CollectGarbage));
    }
}

pub(crate) proof fn append_collects_nothing(engine: EngineView, node: NodeId, record: RecordView)
    requires
        engine.append(node, record) is Ok,
    ensures
        collects_nothing(engine.append(node, record)->Ok_0.0),
        collects_nothing(engine.synced(engine.append(node, record)->Ok_0.0)),
{
    reveal(EngineView::append);
}

/// A record that is made durable before a metadata file refers to it.
#[verifier::rlimit(40)]
pub(crate) proof fn synced_append(
    engine: EngineView,
    segments: Seq<SegmentView>,
    node: NodeId,
    record: RecordView,
    deleted: u64,
)
    requires
        consistent(engine, segments),
        record.wf(),
        engine.append(node, record) is Ok,
    ensures
        ({
            let (steps, position) = engine.append(node, record)->Ok_0;
            let written = engine.after_all(engine.synced(steps), deleted);
            let after = segments_after_all(segments, engine, engine.synced(steps), deleted);
            let added = appended_record(node, record, position);
            &&& consistent(written, after)
            &&& all_records(after) == all_records(segments).push(added)
            &&& is_of(added, node.0)
            &&& content(added) == record
            &&& written.index == engine.index
            &&& written.registry == engine.registry
            &&& engine.sync.syncs() ==> !written.has_unsynced()
        }),
{
    reveal(consistent);
    let steps = engine.append(node, record)->Ok_0.0;
    append_adds_record(engine, segments, node, record);
    append_collects_nothing(engine, node, record);
    deleted_does_not_matter(segments, engine, engine.synced(steps), deleted);
    after_push(engine, steps, StepView::SyncSegment, 0);
    segments_push(segments, engine, steps, StepView::SyncSegment, 0);
}

/// The last three of some steps.
pub(crate) proof fn last_three(
    engine: EngineView,
    segments: Seq<SegmentView>,
    steps: Seq<StepView>,
    first: StepView,
    second: StepView,
    third: StepView,
    deleted: u64,
)
    ensures
        ({
            let all = steps + seq![first, second, third];
            let engine0 = engine.after_all(steps, deleted);
            let engine1 = engine0.after(first, deleted);
            let engine2 = engine1.after(second, deleted);
            let segments0 = segments_after_all(segments, engine, steps, deleted);
            let segments1 = segments_after(segments0, engine0, first);
            let segments2 = segments_after(segments1, engine1, second);
            &&& engine.after_all(all, deleted) == engine2.after(third, deleted)
            &&& segments_after_all(segments, engine, all, deleted) == segments_after(
                segments2,
                engine2,
                third,
            )
        }),
{
    let steps1 = steps.push(first);
    let steps2 = steps1.push(second);
    after_push(engine, steps, first, deleted);
    after_push(engine, steps1, second, deleted);
    after_push(engine, steps2, third, deleted);
    segments_push(segments, engine, steps, first, deleted);
    segments_push(segments, engine, steps1, second, deleted);
    segments_push(segments, engine, steps2, third, deleted);
    assert(steps2.push(third) =~= steps + seq![first, second, third]);
}

/// The index may point to the checkpoint that was written last.
pub(crate) proof fn index_new_checkpoint(
    written: EngineView,
    segments: Seq<SegmentView>,
    node: u64,
    position: RecordPosition,
)
    requires
        consistent(written, segments),
        all_records(segments).len() > 0,
        all_records(segments).last().position == position,
        is_checkpoint_of(all_records(segments).last(), node),
    ensures
        consistent(
            EngineView { index: written.index.insert(node, position), ..written },
            segments,
        ),
{
    reveal(consistent);
    let all = all_records(segments);
    let index = written.index.insert(node, position);
    assert(all[all.len() - 1].position == position && is_checkpoint_of(all[all.len() - 1], node));
    assert forall|other: u64| #[trigger] index.contains_key(other) implies valid_hint(
        all,
        other,
        Some(index[other]),
    ) by {
        if other != node {
            assert(written.index.contains_key(other));
        }
    }
}

/// The records and the index after a node was created.
#[verifier::rlimit(40)]
proof fn creation_is_kept(
    engine: EngineView,
    segments: Seq<SegmentView>,
    node: NodeId,
    record: RecordView,
    metadata: MetadataView,
    deleted: u64,
)
    requires
        consistent(engine, segments),
        indexed(engine),
        record == RecordView::SnapshotCheckpoint(initial_checkpoint_view()),
        engine.create_node(node, metadata) is Ok,
    ensures
        engine.append(node, record) is Ok,
        ({
            let position = engine.append(node, record)->Ok_0.1;
            let added = appended_record(node, record, position);
            let steps = engine.create_node(node, metadata)->Ok_0;
            let made = engine.after_all(steps, deleted);
            let after = segments_after_all(segments, engine, steps, deleted);
            &&& consistent(made, after)
            &&& indexed(made)
            &&& made.access(node) is Ok
            &&& made.registry == with_created(engine.registry, node.0, metadata)
            &&& is_checkpoint_of(added, node.0)
            &&& content(added) == record
            &&& all_records(after) == all_records(segments).push(added)
        }),
{
    initial_checkpoint_valid();
    let (write, position) = engine.append(node, record)->Ok_0;
    let steps = engine.create_node(node, metadata)->Ok_0;
    let index = engine.index.insert(node.0, position);
    let registry = with_created(engine.registry, node.0, metadata);
    let made = engine.after_all(steps, deleted);
    let after = segments_after_all(segments, engine, steps, deleted);
    let written = engine.after_all(engine.synced(write), deleted);
    synced_append(engine, segments, node, record, deleted);
    last_three(
        engine,
        segments,
        engine.synced(write),
        StepView::SaveCheckpointIndex(index),
        StepView::SaveNodeRegistry(registry),
        StepView::NodeCreated,
        deleted,
    );
    index_new_checkpoint(written, after, node.0, position);
    consistent_with_same_index(EngineView { index, ..written }, made, after);
    assert(made.index == index && made.registry == registry);
    assert(active_nodes(registry).contains(node.0));
    assert(index.dom().subset_of(active_nodes(registry)));
}

/// The state that a node starts with.
pub open spec fn created_state() -> StateView {
    StateView { snapshot: Some(initial_checkpoint_view().snapshot), ..default_state() }
}

/// A node that was created is active; a load of it gives the empty state, and loads of all
/// other nodes give what they gave before.
#[verifier::rlimit(40)]
pub proof fn load_gives_created_node(
    engine: EngineView,
    segments: Seq<SegmentView>,
    node: NodeId,
    metadata: MetadataView,
    deleted: u64,
    other: u64,
)
    requires
        consistent(engine, segments),
        indexed(engine),
        engine.create_node(node, metadata) is Ok,
        other != node.0,
    ensures
        ({
            let steps = engine.create_node(node, metadata)->Ok_0;
            let made = engine.after_all(steps, deleted);
            let after = segments_after_all(segments, engine, steps, deleted);
            &&& consistent(made, after)
            &&& indexed(made)
            &&& made.access(node) is Ok
            &&& made.registry == with_created(engine.registry, node.0, metadata)
            &&& loaded(made, after, node.0) == Ok::<StateView, StorageError>(created_state())
            &&& loaded(made, after, other) == loaded(engine, segments, other)
        }),
{
    let record = RecordView::SnapshotCheckpoint(initial_checkpoint_view());
    initial_checkpoint_valid();
    checkpoint_state_exact(initial_checkpoint_view());
    let position = engine.append(node, record)->Ok_0.1;
    let steps = engine.create_node(node, metadata)->Ok_0;
    let made = engine.after_all(steps, deleted);
    let after = segments_after_all(segments, engine, steps, deleted);
    let added = appended_record(node, record, position);
    creation_is_kept(engine, segments, node, record, metadata, deleted);
    loaded_is_stored(engine, segments, other);
    loaded_is_stored(made, after, node.0);
    loaded_is_stored(made, after, other);
    stored_state_after_checkpoint(all_records(segments), node.0, added);
    stored_state_of_others(all_records(segments), other, added);
}

/// The records and the index after a checkpoint of an active node was saved.
#[verifier::rlimit(40)]
pub(crate) proof fn checkpoint_is_kept(
    engine: EngineView,
    segments: Seq<SegmentView>,
    node: NodeId,
    record: RecordView,
    deleted: u64,
)
    requires
        consistent(engine, segments),
        indexed(engine),
        record.wf(),
        record is SnapshotCheckpoint,
        active_nodes(engine.registry).contains(node.0),
        engine.append(node, record) is Ok,
        engine.save_checkpoint(node, record) is Ok,
    ensures
        ({
            let position = engine.append(node, record)->Ok_0.1;
            let added = appended_record(node, record, position);
            let steps = engine.save_checkpoint(node, record)->Ok_0;
            let saved = engine.after_all(steps, deleted);
            let after = segments_after_all(segments, engine, steps, deleted);
            &&& consistent(saved, after)
            &&& indexed(saved)
            &&& saved.registry == engine.registry
            &&& is_checkpoint_of(added, node.0)
            &&& content(added) == record
            &&& forall|id: u64| #[trigger]
                active_nodes(engine.registry).contains(id) ==> stored_state(all_records(after), id)
                    == stored_state(all_records(segments).push(added), id)
        }),
{
    let (write, position) = engine.append(node, record)->Ok_0;
    let steps = engine.save_checkpoint(node, record)->Ok_0;
    let index = engine.index.insert(node.0, position);
    let nodes = active_nodes(engine.registry);
    let saved = engine.after_all(steps, deleted);
    let after = segments_after_all(segments, engine, steps, deleted);
    let written = engine.after_all(engine.synced(write), deleted);
    let middle = segments_after_all(segments, engine, engine.synced(write), deleted);
    let save = StepView::SaveCheckpointIndex(index);
    synced_append(engine, segments, node, record, deleted);
    last_three(
        engine,
        segments,
        engine.synced(write),
        save,
        StepView::CollectGarbage(barrier(index, nodes)),
        StepView::CheckpointSaved,
        deleted,
    );
    let pointing = written.after(save, deleted);
    index_new_checkpoint(written, middle, node.0, position);
    consistent_with_same_index(EngineView { index, ..written }, pointing, middle);
    collection_keeps_nodes(pointing, middle, nodes);
    consistent_with_same_index(pointing, saved, after);
}

/// After a snapshot checkpoint of an active node was saved, a load gives the state that the
/// checkpoint stands for, and loads of all other active nodes give what they gave before,
/// although old segments are deleted.
#[verifier::rlimit(40)]
pub proof fn load_gives_saved_checkpoint(
    engine: EngineView,
    segments: Seq<SegmentView>,
    node: NodeId,
    checkpoint: CheckpointView,
    deleted: u64,
    other: u64,
)
    requires
        consistent(engine, segments),
        indexed(engine),
        RecordView::SnapshotCheckpoint(checkpoint).wf(),
        engine.access(node) is Ok,
        engine.save_checkpoint(node, RecordView::SnapshotCheckpoint(checkpoint)) is Ok,
    ensures
        ({
            let steps = engine.save_checkpoint(
                node,
                RecordView::SnapshotCheckpoint(checkpoint),
            )->Ok_0;
            let saved = engine.after_all(steps, deleted);
            let after = segments_after_all(segments, engine, steps, deleted);
            &&& consistent(saved, after)
            &&& indexed(saved)
            &&& saved.registry == engine.registry
            &&& loaded(saved, after, node.0) == checkpoint.state()
            &&& other != node.0 && engine.access(NodeId(other)) is Ok ==> loaded(
                saved,
                after,
                other,
            ) == loaded(engine, segments, other)
        }),
{
    let record = RecordView::SnapshotCheckpoint(checkpoint);
    let position = engine.append(node, record)->Ok_0.1;
    let steps = engine.save_checkpoint(node, record)->Ok_0;
    let saved = engine.after_all(steps, deleted);
    let after = segments_after_all(segments, engine, steps, deleted);
    let added = appended_record(node, record, position);
    checkpoint_is_kept(engine, segments, node, record, deleted);
    loaded_is_stored(engine, segments, other);
    loaded_is_stored(saved, after, node.0);
    loaded_is_stored(saved, after, other);
    assert(active_nodes(engine.registry).contains(node.0));
    stored_state_after_checkpoint(all_records(segments), node.0, added);
    if other != node.0 && engine.access(NodeId(other)) is Ok {
        assert(active_nodes(engine.registry).contains(other));
        stored_state_of_others(all_records(segments), other, added);
    }
}

/// After an active node was removed, loads of all other active nodes give what they gave
/// before, although segments are deleted; operations on the removed node are rejected.
#[verifier::rlimit(40)]
pub proof fn removal_keeps_other_nodes(
    engine: EngineView,
    segments: Seq<SegmentView>,
    node: NodeId,
    deleted: u64,
    other: u64,
)
    requires
        consistent(engine, segments),
        indexed(engine),
        engine.access(node) is Ok,
    ensures
        ({
            let steps = engine.remove_node(node);
            let removed = engine.after_all(steps, deleted);
            let after = segments_after_all(segments, engine, steps, deleted);
            &&& consistent(removed, after)
            &&& indexed(removed)
            &&& removed.registry == with_removed(engine.registry, node.0)
            &&& removed.index == engine.index.remove(node.0)
            &&& other != node.0 && engine.access(NodeId(other)) is Ok ==> {
                &&& loaded(removed, after, other) == loaded(engine, segments, other)
                &&& removed.access(NodeId(other)) is Ok
            }
            &&& removed.access(node) == Err::<(), (StorageError, NodeAccessErrorKind)>(
                (StorageError::NodeRemoved, NodeAccessErrorKind::RemovedNode),
            )
        }),
{
    let registry = with_removed(engine.registry, node.0);
    let index = engine.index.remove(node.0);
    let nodes = active_nodes(registry);
    let steps = engine.remove_node(node);
    let removed = engine.after_all(steps, deleted);
    let after = segments_after_all(segments, engine, steps, deleted);
    let first = seq![StepView::SaveNodeRegistry(registry)];
    let collect = StepView::CollectGarbage(barrier(index, nodes));
    last_three(
        engine,
        segments,
        first,
        StepView::SaveCheckpointIndex(index),
        collect,
        StepView::NodeRemoved,
        deleted,
    );
    assert(first + seq![StepView::SaveCheckpointIndex(index), collect, StepView::NodeRemoved]
        =~= steps);
    assert(first.drop_last() =~= Seq::empty());
    assert(engine.after_all(Seq::empty(), deleted) == engine);
    assert(segments_after_all(segments, engine, Seq::empty(), deleted) == segments);
    assert(segments_after_all(segments, engine, first, deleted) == segments);
    let pointing = EngineView { index, registry, ..engine };
    assert(consistent(pointing, segments)) by {
        reveal(consistent);
        assert forall|id: u64| #[trigger] index.contains_key(id) implies valid_hint(
            all_records(segments),
            id,
            Some(index[id]),
        ) by {
            assert(engine.index.contains_key(id));
        }
    }
    collection_keeps_nodes(pointing, segments, nodes);
    assert(other != node.0 && engine.access(NodeId(other)) is Ok ==> nodes.contains(other));
    assert(after == segments_after(segments, pointing, collect));
    consistent_with_same_index(pointing, removed, after);
    loaded_is_stored(engine, segments, other);
    loaded_is_stored(removed, after, other);
}

/// A flush changes nothing that is stored, and leaves nothing unsynchronized unless the
/// policy is never to synchronize.
pub proof fn flush_keeps_nodes(
    engine: EngineView,
    segments: Seq<SegmentView>,
    deleted: u64,
    node: u64,
)
    requires
        consistent(engine, segments),
    ensures
        ({
            let steps = engine.flush();
            let flushed = engine.after_all(steps, deleted);
            let after = segments_after_all(segments, engine, steps, deleted);
            &&& after == segments
            &&& consistent(flushed, after)
            &&& loaded(flushed, after, node) == loaded(engine, segments, node)
            &&& engine.sync.syncs() ==> !flushed.has_unsynced()
            &&& flushed.registry == engine.registry
            &&& flushed.index == engine.index
        }),
{
    let empty = Seq::<StepView>::empty();
    let steps = engine.flush();
    let first = engine.synced(empty);
    assert(engine.after_all(empty, deleted) == engine);
    assert(engine.after_all(empty, 0) == engine);
    assert(segments_after_all(segments, engine, empty, deleted) == segments);
    after_push(engine, empty, StepView::SyncSegment, deleted);
    segments_push(segments, engine, empty, StepView::SyncSegment, deleted);
    after_push(engine, first, StepView::SyncRequested, deleted);
    segments_push(segments, engine, first, StepView::SyncRequested, deleted);
    let flushed = engine.after_all(steps, deleted);
    consistent_with_same_index(engine, flushed, segments);
    loaded_is_stored(engine, segments, node);
    loaded_is_stored(flushed, segments, node);
}

} // verus!
