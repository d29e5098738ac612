//! Laws of opening a storage: what was stored is there again, also after an interrupted
//! write.

use vstd::prelude::*;

verus! {

use crate::checkpoint_index::{
    find_segment, loaded_index, parsed_index, position_check, positions_check, IndexView,
};
use crate::durability::{all_records_last, consistent, indexed, loaded, loaded_is_stored};
use crate::error::StorageError;
use crate::format::{frame_bytes, read_frame, MAX_RECORD_BODY_LEN};
use crate::frames::{check_run_changes_nothing, frames_bounded, is_whole, recovery_drops_torn_record};
use crate::history::{
    all_decode, all_records, decoded_node_id, frames_suffix, is_checkpoint_of,
    segment_records, valid_hint, whole_rest, whole_storage,
};
use crate::ordered::{ascending, ascending_sound};
use crate::registry::{active_nodes, parsed_registry, removed_nodes, RegistryView};
use crate::scan::{
    check_step, frames_from, run_segment, run_segments, segment_magic, Run, SegmentView,
};
use crate::segment::RecordPosition;
use crate::stats::StorageStats;
use crate::storage::{len_of, newest_segment, opened, with_header, EngineView, SyncPolicy};

/// A frame of a segment can be read where it is.
proof fn frame_reads(bytes: Seq<u8>, i: int)
    requires
        is_whole(bytes),
        0 <= i < frames_from(bytes, 4).frames.len(),
    ensures
        ({
            let frame = frames_from(bytes, 4).frames[i];
            &&& 4 <= frame.offset < bytes.len()
            &&& read_frame(bytes.skip(frame.offset as int)) == Ok::<Option<Seq<u8>>, StorageError>(
                Some(frame.body),
            )
        }),
{
    frames_bounded(bytes, 4);
    frames_suffix(bytes, 4, i);
    let all = frames_from(bytes, 4).frames;
    let rest = frames_from(bytes, all[i].offset);
    assert(rest.frames[0] == all.skip(i)[0]);
}

/// A record can be read where it is.
pub(crate) proof fn record_is_found(segments: Seq<SegmentView>, k: int)
    requires
        whole_storage(segments),
        0 <= k < all_records(segments).len(),
    ensures
        ({
            let record = all_records(segments)[k];
            let found = find_segment(segments, record.position.segment.id);
            &&& found is Some
            &&& is_whole(found->0)
            &&& 4 <= record.position.offset < found->0.len()
            &&& read_frame(found->0.skip(record.position.offset as int)) == Ok::<
                Option<Seq<u8>>,
                StorageError,
            >(Some(record.body))
        }),
        exists|j: int|
            0 <= j < segments.len() && (#[trigger] segments[j]).id == all_records(
                segments,
            )[k].position.segment.id,
    decreases segments.len(),
{
    let all = all_records(segments);
    let first = segment_records(segments[0]);
    let rest = segments.skip(1);
    if k < first.len() {
        assert(all[k] == first[k]);
        assert(is_whole(segments[0].bytes));
        frame_reads(segments[0].bytes, k);
    } else {
        assert(all[k] == all_records(rest)[k - first.len()]);
        whole_rest(segments);
        record_is_found(rest, k - first.len());
        let j = choose|j: int|
            0 <= j < rest.len() && (#[trigger] rest[j]).id == all[k].position.segment.id;
        assert(rest[j] == segments[j + 1]);
        assert(segments[0].id < segments[j + 1].id);
    }
}

/// A valid hint passes the check of the checkpoint index.
proof fn hint_passes(segments: Seq<SegmentView>, node: u64, position: RecordPosition)
    requires
        whole_storage(segments),
        all_decode(all_records(segments)),
        valid_hint(all_records(segments), node, Some(position)),
    ensures
        position_check(segments, node, position) == Ok::<(), StorageError>(()),
        find_segment(segments, position.segment.id) is Some,
{
    let all = all_records(segments);
    let k = choose|k: int|
        0 <= k < all.len() && (#[trigger] all[k]).position == position && is_checkpoint_of(
            all[k],
            node,
        );
    record_is_found(segments, k);
    decoded_node_id(all[k].body);
}

/// A segment behind the others changes nothing of what is found in them.
proof fn find_in_front(segments: Seq<SegmentView>, last: SegmentView, id: u64)
    requires
        find_segment(segments, id) is Some,
    ensures
        find_segment(segments.push(last), id) == find_segment(segments, id),
    decreases segments.len(),
{
    let longer = segments.push(last);
    assert(longer[0] == segments[0]);
    if segments[0].id != id {
        assert(longer.skip(1) =~= segments.skip(1).push(last));
        find_in_front(segments.skip(1), last, id);
    }
}

proof fn all_pass(segments: Seq<SegmentView>, ids: Seq<u64>, index: IndexView)
    requires
        forall|i: int|
            0 <= i < ids.len() ==> position_check(segments, #[trigger] ids[i], index[ids[i]]) == Ok::<
                (),
                StorageError,
            >(()),
    ensures
        positions_check(segments, ids, index) == Ok::<(), StorageError>(()),
    decreases ids.len(),
{
    if ids.len() > 0 {
        assert forall|i: int| 0 <= i < ids.skip(1).len() implies position_check(
            segments,
            #[trigger] ids.skip(1)[i],
            index[ids.skip(1)[i]],
        ) == Ok::<(), StorageError>(()) by {
            assert(ids.skip(1)[i] == ids[i + 1]);
        }
        assert(position_check(segments, ids[0], index[ids[0]]) == Ok::<(), StorageError>(()));
        all_pass(segments, ids.skip(1), index);
    }
}

/// Segments in ascending order end with the newest one.
proof fn newest_is_last(segments: Seq<SegmentView>)
    requires
        segments.len() > 0,
        forall|i: int, j: int|
            0 <= i < j < segments.len() ==> (#[trigger] segments[i]).id < (#[trigger] segments[j]).id,
    ensures
        newest_segment(segments) == segments.last().id,
    decreases segments.len(),
{
    let front = segments.drop_last();
    if front.len() > 0 {
        assert forall|i: int, j: int| 0 <= i < j < front.len() implies (#[trigger] front[i]).id < (
        #[trigger] front[j]).id by {
            assert(front[i] == segments[i]);
            assert(front[j] == segments[j]);
        }
        newest_is_last(front);
        assert(segments[front.len() - 1].id < segments[segments.len() - 1].id);
    } else {
        assert(newest_segment(front) == 0);
    }
}

proof fn len_of_last(segments: Seq<SegmentView>)
    requires
        segments.len() > 0,
        forall|i: int, j: int|
            0 <= i < j < segments.len() ==> (#[trigger] segments[i]).id < (#[trigger] segments[j]).id,
    ensures
        len_of(segments, segments.last().id) == segments.last().bytes.len(),
    decreases segments.len(),
{
    if segments.len() > 1 {
        let rest = segments.skip(1);
        assert(segments[0].id < segments[segments.len() - 1].id);
        assert forall|i: int, j: int| 0 <= i < j < rest.len() implies (#[trigger] rest[i]).id < (
        #[trigger] rest[j]).id by {
            assert(rest[i] == segments[i + 1]);
            assert(rest[j] == segments[j + 1]);
        }
        assert(rest.last() == segments.last());
        len_of_last(rest);
    }
}

/// Checking whole segments and one behind them.
proof fn check_all_and_last(
    run: Run<()>,
    front: Seq<SegmentView>,
    last: SegmentView,
    active: u64,
)
    requires
        whole_storage(front),
        forall|i: int| 0 <= i < front.len() ==> (#[trigger] front[i]).id < active,
        last.id == active,
        run.failure is None,
    ensures
        ({
            let (after, recovered) = run_segment(run, last, true, 4, check_step());
            run_segments(run, front.push(last), active, None, 4, check_step()) == (
                after,
                front.push(recovered),
            )
        }),
    decreases front.len(),
{
    let all = front.push(last);
    let (after, recovered) = run_segment(run, last, true, 4, check_step());
    if front.len() == 0 {
        assert(all.skip(1) =~= Seq::empty());
        assert(seq![recovered] + Seq::<SegmentView>::empty() =~= front.push(recovered));
        assert(run_segments(after, Seq::empty(), active, None, 4, check_step()) == (
            after,
            Seq::<SegmentView>::empty(),
        ));
    } else {
        let rest = front.skip(1);
        let frames = frames_from(front[0].bytes, 4).frames;
        assert(is_whole(front[0].bytes));
        check_run_changes_nothing(run, front[0].id, frames);
        assert(run_segment(run, front[0], false, 4, check_step()) == (run, front[0]));
        whole_rest(front);
        assert forall|i: int| 0 <= i < rest.len() implies (#[trigger] rest[i]).id < active by {
            assert(rest[i] == front[i + 1]);
        }
        assert(all.skip(1) =~= rest.push(last));
        assert(all[0] == front[0]);
        check_all_and_last(run, rest, last, active);
        assert(seq![front[0]] + rest.push(recovered) =~= front.push(recovered));
    }
}

/// The registry that a registry file holds.
pub open spec fn saved_registry(text: Option<Seq<char>>) -> Result<RegistryView, StorageError> {
    match text {
        None => Ok(RegistryView::empty()),
        Some(text) => parsed_registry(text),
    }
}

/// The index that a checkpoint index file holds.
pub open spec fn saved_index(text: Option<Seq<char>>) -> Result<IndexView, StorageError> {
    match text {
        None => Ok(Map::empty()),
        Some(text) => parsed_index(text),
    }
}

/// Whether two registries have the same nodes, active and removed. Their metadata may differ:
/// whitespace around it is not read back.
pub open spec fn same_nodes(left: RegistryView, right: RegistryView) -> bool {
    &&& left.dom() == right.dom()
    &&& forall|node: u64| #[trigger]
        left.contains_key(node) ==> left[node].removed == right[node].removed
}

pub(crate) proof fn same_nodes_are_active(left: RegistryView, right: RegistryView)
    requires
        same_nodes(left, right),
    ensures
        active_nodes(left) == active_nodes(right),
        removed_nodes(left) == removed_nodes(right),
{
    assert forall|node: u64| left.contains_key(node) == right.contains_key(node) by {
        assert(left.dom().contains(node) == right.dom().contains(node));
    }
    assert(active_nodes(left) =~= active_nodes(right));
    assert(removed_nodes(left) =~= removed_nodes(right));
}

/// Whether an engine was opened on what another one had stored.
pub open spec fn takes_over(again: EngineView, engine: EngineView) -> bool {
    &&& same_nodes(again.registry, engine.registry)
    &&& again.index == engine.index.restrict(active_nodes(engine.registry))
    &&& again.active == engine.active
    &&& again.segment_len == engine.segment_len
}

/// The index in force after opening has the entries of active nodes.
proof fn index_is_loaded(
    engine: EngineView,
    front: Seq<SegmentView>,
    last: SegmentView,
    text: Option<Seq<char>>,
)
    requires
        whole_storage(front),
        all_decode(all_records(front)),
        forall|node: u64| #[trigger]
            engine.index.contains_key(node) ==> valid_hint(
                all_records(front),
                node,
                Some(engine.index[node]),
            ),
        saved_index(text) == Ok::<IndexView, StorageError>(engine.index),
    ensures
        loaded_index(text, active_nodes(engine.registry), front) == Ok::<IndexView, StorageError>(
            engine.index.restrict(active_nodes(engine.registry)),
        ),
        loaded_index(text, active_nodes(engine.registry), front.push(last)) == Ok::<
            IndexView,
            StorageError,
        >(engine.index.restrict(active_nodes(engine.registry))),
{
    let kept = engine.index.restrict(active_nodes(engine.registry));
    if text is None {
        assert(kept =~= Map::empty());
    } else {
        let ids = ascending(kept.dom());
        ascending_sound(kept.dom());
        assert forall|i: int| 0 <= i < ids.len() implies position_check(
            front,
            #[trigger] ids[i],
            kept[ids[i]],
        ) == Ok::<(), StorageError>(()) && position_check(front.push(last), ids[i], kept[ids[i]])
            == Ok::<(), StorageError>(()) by {
            assert(ids.to_set().contains(ids[i]));
            assert(kept.contains_key(ids[i]));
            assert(engine.index.contains_key(ids[i]));
            hint_passes(front, ids[i], kept[ids[i]]);
            find_in_front(front, last, kept[ids[i]].segment.id);
        }
        all_pass(front, ids, kept);
        all_pass(front.push(last), ids, kept);
    }
}

/// An engine that takes over what another one had stored loads the same states.
proof fn takes_over_loads(
    again: EngineView,
    engine: EngineView,
    segments: Seq<SegmentView>,
    node: u64,
)
    requires
        consistent(engine, segments),
        takes_over(again, engine),
    ensures
        consistent(again, segments),
        indexed(again),
        loaded(again, segments, node) == loaded(engine, segments, node),
{
    same_nodes_are_active(again.registry, engine.registry);
    assert(consistent(again, segments)) by {
        reveal(consistent);
        assert forall|id: u64| #[trigger] again.index.contains_key(id) implies valid_hint(
            all_records(segments),
            id,
            Some(again.index[id]),
        ) by {
            assert(engine.index.contains_key(id));
        }
    }
    loaded_is_stored(again, segments, node);
    loaded_is_stored(engine, segments, node);
}

/// A header that is there already is not written again.
proof fn header_is_kept(segments: Seq<SegmentView>, active: u64)
    requires
        whole_storage(segments),
        segments.len() > 0,
    ensures
        with_header(segments, active) == segments,
{
    assert forall|i: int| 0 <= i < segments.len() implies (#[trigger] segments[i]).bytes.len() > 0 by {
        assert(is_whole(segments[i].bytes));
    }
    assert(with_header(segments, active) =~= segments);
}

/// A storage that was stored whole, except perhaps for a record that was being written, opens
/// with what was stored: the nodes, their checkpoints, and the state of every node. The
/// incomplete record is cut off.
pub proof fn reopening_gives_back_what_was_stored(
    engine: EngineView,
    segments: Seq<SegmentView>,
    sync: SyncPolicy,
    max_segment_len: u64,
    nodes_text: Option<Seq<char>>,
    checkpoints_text: Option<Seq<char>>,
    body: Seq<u8>,
    written: int,
    node: u64,
)
    requires
        consistent(engine, segments),
        max_segment_len > 0,
        saved_registry(nodes_text) matches Ok(registry) && same_nodes(registry, engine.registry),
        saved_index(checkpoints_text) == Ok::<IndexView, StorageError>(engine.index),
        body.len() <= MAX_RECORD_BODY_LEN,
        0 <= written < frame_bytes(body).len(),
    ensures
        ({
            let last = segments.last();
            let torn = SegmentView { bytes: last.bytes + frame_bytes(body).take(written), ..last };
            let (result, after) = opened(
                sync,
                max_segment_len,
                segments.drop_last().push(torn),
                nodes_text,
                checkpoints_text,
            );
            &&& result is Ok
            &&& takes_over(result->Ok_0, engine)
            &&& result->Ok_0.registry == saved_registry(nodes_text)->Ok_0
            &&& result->Ok_0.sync == sync
            &&& result->Ok_0.max_segment_len == max_segment_len
            &&& after == segments
            &&& consistent(result->Ok_0, after)
            &&& indexed(result->Ok_0)
            &&& loaded(result->Ok_0, after, node) == loaded(engine, segments, node)
        }),
{
    let front = segments.drop_last();
    let last = segments.last();
    let torn = SegmentView { bytes: last.bytes + frame_bytes(body).take(written), ..last };
    let disk = front.push(torn);
    let active = engine.active;
    let start = Run { acc: (), stats: StorageStats::zero(), failure: None };
    reveal(consistent);
    crate::durability::whole_front(segments);
    assert(front.push(last) =~= segments);
    assert(is_whole(segments[segments.len() - 1].bytes));
    assert forall|i: int, j: int| 0 <= i < j < disk.len() implies (#[trigger] disk[i]).id < (
    #[trigger] disk[j]).id by {
        assert(disk[i].id == segments[i].id);
        assert(disk[j].id == segments[j].id);
    }
    newest_is_last(disk);
    assert forall|i: int| 0 <= i < front.len() implies (#[trigger] front[i]).id < active by {
        assert(segments[i].id < segments[segments.len() - 1].id);
    }
    check_all_and_last(start, front, torn, active);
    let (run, recovered) = run_segment(start, torn, true, 4, check_step());
    if written == 0 {
        assert(torn.bytes =~= last.bytes);
        check_run_changes_nothing(start, last.id, frames_from(last.bytes, 4).frames);
    } else {
        recovery_drops_torn_record(last, body, written, start);
    }
    assert(recovered == last);
    index_is_loaded(engine, segments, last, checkpoints_text);
    header_is_kept(segments, active);
    len_of_last(segments);
    same_nodes_are_active(saved_registry(nodes_text)->Ok_0, engine.registry);
    let (result, after) = opened(sync, max_segment_len, disk, nodes_text, checkpoints_text);
    assert(result is Ok);
    takes_over_loads(result->Ok_0, engine, segments, node);
}

/// A storage whose newest segment has only a part of its header opens with what was stored;
/// the header is completed.
pub proof fn reopening_completes_header(
    engine: EngineView,
    segments: Seq<SegmentView>,
    sync: SyncPolicy,
    max_segment_len: u64,
    nodes_text: Option<Seq<char>>,
    checkpoints_text: Option<Seq<char>>,
    written: int,
    node: u64,
)
    requires
        consistent(engine, segments),
        segments.last().bytes == segment_magic(),
        max_segment_len > 0,
        saved_registry(nodes_text) matches Ok(registry) && same_nodes(registry, engine.registry),
        saved_index(checkpoints_text) == Ok::<IndexView, StorageError>(engine.index),
        0 <= written < 4,
    ensures
        ({
            let last = segments.last();
            let partial = SegmentView { bytes: segment_magic().take(written), ..last };
            let (result, after) = opened(
                sync,
                max_segment_len,
                segments.drop_last().push(partial),
                nodes_text,
                checkpoints_text,
            );
            &&& result is Ok
            &&& takes_over(result->Ok_0, engine)
            &&& result->Ok_0.registry == saved_registry(nodes_text)->Ok_0
            &&& after == segments
            &&& consistent(result->Ok_0, after)
            &&& indexed(result->Ok_0)
            &&& loaded(result->Ok_0, after, node) == loaded(engine, segments, node)
        }),
{
    let front = segments.drop_last();
    let last = segments.last();
    let partial = SegmentView { bytes: segment_magic().take(written), ..last };
    let disk = front.push(partial);
    let active = engine.active;
    let start = Run { acc: (), stats: StorageStats::zero(), failure: None };
    reveal(consistent);
    crate::durability::whole_front(segments);
    assert(front.push(last) =~= segments);
    assert forall|i: int, j: int| 0 <= i < j < disk.len() implies (#[trigger] disk[i]).id < (
    #[trigger] disk[j]).id by {
        assert(disk[i].id == segments[i].id);
        assert(disk[j].id == segments[j].id);
    }
    newest_is_last(disk);
    assert forall|i: int| 0 <= i < front.len() implies (#[trigger] front[i]).id < active by {
        assert(segments[i].id < segments[segments.len() - 1].id);
    }
    check_all_and_last(start, front, partial, active);
    let (run, recovered) = run_segment(start, partial, true, 4, check_step());
    let empty = SegmentView { bytes: Seq::empty(), ..last };
    assert(recovered =~= empty);
    all_records_last(segments);
    crate::frames::header_is_whole();
    assert(segment_records(last) =~= Seq::empty());
    assert(all_records(front) =~= all_records(segments));
    index_is_loaded(engine, front, recovered, checkpoints_text);
    let ready = front.push(recovered);
    assert forall|i: int| 0 <= i < front.len() implies (#[trigger] front[i]).bytes.len() > 0 by {
        assert(is_whole(front[i].bytes));
    }
    assert(with_header(ready, active) =~= segments);
    len_of_last(segments);
    same_nodes_are_active(saved_registry(nodes_text)->Ok_0, engine.registry);
    let (result, after) = opened(sync, max_segment_len, disk, nodes_text, checkpoints_text);
    assert(result is Ok);
    takes_over_loads(result->Ok_0, engine, segments, node);
}

/// A directory without files opens as a storage without nodes.
pub proof fn new_storage_is_empty(sync: SyncPolicy, max_segment_len: u64)
    requires
        max_segment_len > 0,
    ensures
        ({
            let (result, after) = opened(sync, max_segment_len, Seq::empty(), None, None);
            &&& result is Ok
            &&& after == seq![SegmentView { id: 0, bytes: segment_magic() }]
            &&& consistent(result->Ok_0, after)
            &&& indexed(result->Ok_0)
            &&& all_records(after).len() == 0
            &&& result->Ok_0.registry == RegistryView::empty()
            &&& result->Ok_0.gauges_match()
            &&& !result->Ok_0.has_unsynced()
        }),
{
    let (result, after) = opened(sync, max_segment_len, Seq::empty(), None, None);
    let first = SegmentView { id: 0, bytes: segment_magic() };
    reveal(consistent);
    crate::frames::header_is_whole();
    assert(after =~= seq![first]);
    assert(seq![first].skip(1) =~= Seq::empty());
    assert(all_records(seq![first].skip(1)) =~= Seq::empty());
    assert(segment_records(first) =~= Seq::empty());
    assert(all_records(after) =~= Seq::empty());
    assert(active_nodes(RegistryView::empty()) =~= Set::empty());
    assert(removed_nodes(RegistryView::empty()) =~= Set::empty());
}

} // verus!
