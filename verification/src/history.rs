//! Laws of replay: what a load gives back of the records that were written.

use vstd::prelude::*;

verus! {

use crate::error::StorageError;
use crate::format::{body_node_id, parse_body, read_frame};
use crate::frames::{complete_frame_fits, frames_bounded, is_whole};
use crate::record::RecordView;
use crate::replay::{
    checkpoint_run, checkpoint_step, node_run, node_step, oldest_position, oldest_position_sound,
    plan_run, replay_step, state_of, storage_run,
};
use crate::scan::{
    frames_from, run_frames, run_result, run_segment, run_segments, FrameAt, Run, SegmentView, Step,
};
use crate::segment::{RecordPosition, SegmentName};
use crate::state::{default_state, StateView};
use crate::stats::StorageStats;

/// A record body and where it is.
#[verifier::ext_equal]
pub struct Located {
    pub position: RecordPosition,
    pub body: Seq<u8>,
}

/// Where a frame of a segment is.
pub open spec fn located(id: u64, frame: FrameAt) -> Located {
    Located {
        position: RecordPosition { segment: SegmentName { id }, offset: frame.offset as u64 },
        body: frame.body,
    }
}

/// The records in some frames of a segment.
pub open spec fn located_all(id: u64, frames: Seq<FrameAt>) -> Seq<Located> {
    frames.map_values(|frame: FrameAt| located(id, frame))
}

/// The records of a segment, in order.
pub open spec fn segment_records(segment: SegmentView) -> Seq<Located> {
    located_all(segment.id, frames_from(segment.bytes, 4).frames)
}

/// The records of all segments, in order.
pub open spec fn all_records(segments: Seq<SegmentView>) -> Seq<Located>
    decreases segments.len(),
{
    if segments.len() == 0 {
        Seq::empty()
    } else {
        segment_records(segments[0]) + all_records(segments.skip(1))
    }
}

/// Segments in ascending order, all of whose records were written to their end.
pub open spec fn whole_storage(segments: Seq<SegmentView>) -> bool {
    &&& forall|i: int|
        0 <= i < segments.len() ==> is_whole((#[trigger] segments[i]).bytes) && segments[i].bytes.len()
            <= u64::MAX
    &&& forall|i: int, j: int|
        0 <= i < j < segments.len() ==> (#[trigger] segments[i]).id < (#[trigger] segments[j]).id
}

/// The run over records.
pub open spec fn run_records<A>(run: Run<A>, records: Seq<Located>, step: Step<A>) -> Run<A>
    decreases records.len(),
{
    if records.len() == 0 || run.failure is Some {
        run
    } else {
        run_records(step(run, records[0].position, records[0].body), records.skip(1), step)
    }
}

proof fn run_frames_is_run_records<A>(run: Run<A>, id: u64, frames: Seq<FrameAt>, step: Step<A>)
    ensures
        run_frames(run, id, frames, step) == run_records(run, located_all(id, frames), step),
    decreases frames.len(),
{
    let records = located_all(id, frames);
    if frames.len() > 0 && run.failure is None {
        let next = step(run, records[0].position, frames[0].body);
        assert(records.skip(1) =~= located_all(id, frames.skip(1)));
        run_frames_is_run_records(next, id, frames.skip(1), step);
    }
}

/// Running over two lists of records one after the other.
pub proof fn run_records_concat<A>(run: Run<A>, left: Seq<Located>, right: Seq<Located>, step: Step<A>)
    ensures
        run_records(run, left + right, step) == run_records(
            run_records(run, left, step),
            right,
            step,
        ),
    decreases left.len(),
{
    if left.len() == 0 {
        assert(left + right =~= right);
    } else if run.failure is None {
        assert((left + right)[0] == left[0]);
        assert((left + right).skip(1) =~= left.skip(1) + right);
        run_records_concat(step(run, left[0].position, left[0].body), left.skip(1), right, step);
    } else {
        assert((left + right).len() > 0);
    }
}

pub(crate) proof fn whole_rest(segments: Seq<SegmentView>)
    requires
        whole_storage(segments),
        segments.len() > 0,
    ensures
        whole_storage(segments.skip(1)),
{
    let rest = segments.skip(1);
    assert forall|i: int| 0 <= i < rest.len() implies is_whole((#[trigger] rest[i]).bytes)
        && rest[i].bytes.len() <= u64::MAX by {
        assert(rest[i] == segments[i + 1]);
    }
    assert forall|i: int, j: int| 0 <= i < j < rest.len() implies (#[trigger] rest[i]).id < (
    #[trigger] rest[j]).id by {
        assert(rest[i] == segments[i + 1]);
        assert(rest[j] == segments[j + 1]);
    }
}

proof fn run_whole_segment<A>(run: Run<A>, segment: SegmentView, allow_partial: bool, step: Step<A>)
    requires
        is_whole(segment.bytes),
        run.failure is None,
    ensures
        run_segment(run, segment, allow_partial, 4, step) == (
            run_records(run, segment_records(segment), step),
            segment,
        ),
{
    run_frames_is_run_records(run, segment.id, frames_from(segment.bytes, 4).frames, step);
}

/// A run over a whole storage visits all its records and leaves the segments as they are.
pub proof fn run_whole_storage<A>(
    run: Run<A>,
    segments: Seq<SegmentView>,
    active: u64,
    step: Step<A>,
)
    requires
        whole_storage(segments),
    ensures
        run_segments(run, segments, active, None, 4, step) == (
            run_records(run, all_records(segments), step),
            segments,
        ),
    decreases segments.len(),
{
    if segments.len() > 0 && run.failure is None {
        run_whole_segment(run, segments[0], segments[0].id == active, step);
        let next = run_records(run, segment_records(segments[0]), step);
        whole_rest(segments);
        run_whole_storage(next, segments.skip(1), active, step);
        run_records_concat(run, segment_records(segments[0]), all_records(segments.skip(1)), step);
        assert(seq![segments[0]] + segments.skip(1) =~= segments);
    }
}

/// Where the frames start that begin at one of the frames of a segment.
pub(crate) proof fn frames_suffix(bytes: Seq<u8>, start: nat, i: int)
    requires
        start <= bytes.len(),
        0 <= i < frames_from(bytes, start).frames.len(),
    ensures
        ({
            let all = frames_from(bytes, start);
            let rest = frames_from(bytes, all.frames[i].offset);
            &&& rest.frames == all.frames.skip(i)
            &&& rest.ending == all.ending
            &&& rest.end == all.end
        }),
    decreases bytes.len() - start,
{
    let all = frames_from(bytes, start);
    if let Ok(Some(body)) = read_frame(bytes.skip(start as int)) {
        complete_frame_fits(bytes.skip(start as int));
        let next = start + 8 + body.len();
        let rest = frames_from(bytes, next);
        assert(all.frames =~= seq![FrameAt { offset: start, body }] + rest.frames);
        if i == 0 {
            assert(all.frames.skip(0) =~= all.frames);
        } else {
            frames_suffix(bytes, next, i - 1);
            assert(all.frames[i] == rest.frames[i - 1]);
            assert(all.frames.skip(i) =~= rest.frames.skip(i - 1));
        }
    }
}

/// The records of the segments from the given one on.
pub open spec fn records_from_segment(segments: Seq<SegmentView>, first: u64) -> Seq<Located>
    decreases segments.len(),
{
    if segments.len() == 0 {
        Seq::empty()
    } else if segments[0].id < first {
        records_from_segment(segments.skip(1), first)
    } else {
        all_records(segments)
    }
}

/// A run from the start of a segment on.
proof fn run_from_segment<A>(
    run: Run<A>,
    segments: Seq<SegmentView>,
    active: u64,
    first: u64,
    step: Step<A>,
)
    requires
        whole_storage(segments),
    ensures
        run_segments(run, segments, active, Some(first), 4, step) == (
            run_records(run, records_from_segment(segments, first), step),
            segments,
        ),
    decreases segments.len(),
{
    if segments.len() > 0 && run.failure is None {
        whole_rest(segments);
        assert(seq![segments[0]] + segments.skip(1) =~= segments);
        if segments[0].id < first {
            run_from_segment(run, segments.skip(1), active, first, step);
        } else {
            run_whole_segment(run, segments[0], segments[0].id == active, step);
            let next = run_records(run, segment_records(segments[0]), step);
            run_behind(next, segments.skip(1), active, first, 4, step);
            run_records_concat(
                run,
                segment_records(segments[0]),
                all_records(segments.skip(1)),
                step,
            );
        }
    }
}

/// A run over segments that all come after the one where it is to start.
proof fn run_behind<A>(
    run: Run<A>,
    segments: Seq<SegmentView>,
    active: u64,
    first: u64,
    offset: u64,
    step: Step<A>,
)
    requires
        whole_storage(segments),
        forall|i: int| 0 <= i < segments.len() ==> first < (#[trigger] segments[i]).id,
    ensures
        run_segments(run, segments, active, Some(first), offset, step) == (
            run_records(run, all_records(segments), step),
            segments,
        ),
    decreases segments.len(),
{
    if segments.len() > 0 && run.failure is None {
        run_whole_segment(run, segments[0], segments[0].id == active, step);
        let next = run_records(run, segment_records(segments[0]), step);
        whole_rest(segments);
        assert forall|i: int| 0 <= i < segments.skip(1).len() implies first < (
        #[trigger] segments.skip(1)[i]).id by {
            assert(segments.skip(1)[i] == segments[i + 1]);
        }
        run_behind(next, segments.skip(1), active, first, offset, step);
        run_records_concat(run, segment_records(segments[0]), all_records(segments.skip(1)), step);
        assert(seq![segments[0]] + segments.skip(1) =~= segments);
    }
}

/// A run that starts at one of the records visits the records from there on.
pub proof fn run_from_record<A>(
    run: Run<A>,
    segments: Seq<SegmentView>,
    active: u64,
    k: int,
    step: Step<A>,
)
    requires
        whole_storage(segments),
        0 <= k < all_records(segments).len(),
    ensures
        ({
            let position = all_records(segments)[k].position;
            run_segments(
                run,
                segments,
                active,
                Some(position.segment.id),
                position.offset,
                step,
            ) == (run_records(run, all_records(segments).skip(k), step), segments)
        }),
    decreases segments.len(),
{
    let all = all_records(segments);
    let position = all[k].position;
    let here = segment_records(segments[0]);
    let behind = all_records(segments.skip(1));
    whole_rest(segments);
    assert(seq![segments[0]] + segments.skip(1) =~= segments);
    if run.failure is None {
        if k < here.len() {
            let bytes = segments[0].bytes;
            let frames = frames_from(bytes, 4).frames;
            frames_bounded(bytes, 4);
            frames_suffix(bytes, 4, k);
            assert(all[k] == here[k]);
            assert(here[k] == located(segments[0].id, frames[k]));
            let rest = frames_from(bytes, frames[k].offset);
            run_frames_is_run_records(run, segments[0].id, rest.frames, step);
            let next = run_records(run, located_all(segments[0].id, rest.frames), step);
            assert(located_all(segments[0].id, rest.frames) =~= here.skip(k));
            assert(run_segment(
                run,
                segments[0],
                segments[0].id == active,
                position.offset,
                step,
            ) == (next, segments[0]));
            assert forall|i: int| 0 <= i < segments.skip(1).len() implies position.segment.id < (
            #[trigger] segments.skip(1)[i]).id by {
                assert(segments.skip(1)[i] == segments[i + 1]);
            }
            run_behind(
                next,
                segments.skip(1),
                active,
                position.segment.id,
                position.offset,
                step,
            );
            run_records_concat(run, here.skip(k), behind, step);
            assert(all.skip(k) =~= here.skip(k) + behind);
        } else {
            assert(all[k] == behind[k - here.len()]);
            record_segment_exists(segments.skip(1), k - here.len());
            let j = choose|j: int|
                0 <= j < segments.skip(1).len() && (#[trigger] segments.skip(1)[j]).id
                    == position.segment.id;
            assert(segments.skip(1)[j] == segments[j + 1]);
            run_from_record(run, segments.skip(1), active, k - here.len(), step);
            assert(all.skip(k) =~= behind.skip(k - here.len()));
        }
    }
}

/// The segment of a record is one of the segments.
proof fn record_segment_exists(segments: Seq<SegmentView>, k: int)
    requires
        0 <= k < all_records(segments).len(),
    ensures
        exists|j: int|
            0 <= j < segments.len() && (#[trigger] segments[j]).id == all_records(
                segments,
            )[k].position.segment.id,
    decreases segments.len(),
{
    let here = segment_records(segments[0]);
    if k < here.len() {
        assert(all_records(segments)[k] == here[k]);
        assert(segments[0].id == here[k].position.segment.id);
    } else {
        assert(all_records(segments)[k] == all_records(segments.skip(1))[k - here.len()]);
        record_segment_exists(segments.skip(1), k - here.len());
        let j = choose|j: int|
            0 <= j < segments.skip(1).len() && (#[trigger] segments.skip(1)[j]).id
                == all_records(segments.skip(1))[k - here.len()].position.segment.id;
        assert(segments.skip(1)[j] == segments[j + 1]);
    }
}

/// Records come in the order of their positions.
pub open spec fn in_order(records: Seq<Located>) -> bool {
    forall|i: int, j: int|
        0 <= i < j < records.len() ==> (#[trigger] records[i]).position.before(
            (#[trigger] records[j]).position,
        )
}

/// The records of a whole storage come in the order of their positions.
pub proof fn records_in_order(segments: Seq<SegmentView>)
    requires
        whole_storage(segments),
    ensures
        in_order(all_records(segments)),
    decreases segments.len(),
{
    if segments.len() > 0 {
        let here = segment_records(segments[0]);
        let behind = all_records(segments.skip(1));
        let all = all_records(segments);
        whole_rest(segments);
        records_in_order(segments.skip(1));
        frames_bounded(segments[0].bytes, 4);
        let frames = frames_from(segments[0].bytes, 4).frames;
        assert forall|i: int, j: int| 0 <= i < j < all.len() implies (
        #[trigger] all[i]).position.before((#[trigger] all[j]).position) by {
            if j < here.len() {
                assert(all[i] == located(segments[0].id, frames[i]));
                assert(all[j] == located(segments[0].id, frames[j]));
            } else if i < here.len() {
                assert(all[i] == located(segments[0].id, frames[i]));
                assert(all[j] == behind[j - here.len()]);
                record_segment_exists(segments.skip(1), j - here.len());
                let k = choose|k: int|
                    0 <= k < segments.skip(1).len() && (#[trigger] segments.skip(1)[k]).id
                        == behind[j - here.len()].position.segment.id;
                assert(segments.skip(1)[k] == segments[k + 1]);
            } else {
                assert(all[i] == behind[i - here.len()]);
                assert(all[j] == behind[j - here.len()]);
            }
        }
    }
}

/// The records from a segment on are all records but those of earlier segments.
proof fn records_from_segment_suffix(segments: Seq<SegmentView>, first: u64) -> (j: int)
    requires
        whole_storage(segments),
    ensures
        0 <= j <= all_records(segments).len(),
        records_from_segment(segments, first) == all_records(segments).skip(j),
        forall|i: int|
            0 <= i < j ==> (#[trigger] all_records(segments)[i]).position.segment.id < first,
        forall|i: int|
            j <= i < all_records(segments).len() ==> (
            #[trigger] all_records(segments)[i]).position.segment.id >= first,
    decreases segments.len(),
{
    let all = all_records(segments);
    if segments.len() == 0 {
        assert(all.skip(0) =~= all);
        0
    } else {
        let here = segment_records(segments[0]);
        let behind = all_records(segments.skip(1));
        whole_rest(segments);
        if segments[0].id < first {
            let j = records_from_segment_suffix(segments.skip(1), first);
            assert(all.skip(here.len() + j) =~= behind.skip(j));
            assert forall|i: int| 0 <= i < here.len() + j implies (
            #[trigger] all[i]).position.segment.id < first by {
                if i < here.len() {
                    assert(all[i] == here[i]);
                } else {
                    assert(all[i] == behind[i - here.len()]);
                }
            }
            assert forall|i: int| here.len() + j <= i < all.len() implies (
            #[trigger] all[i]).position.segment.id >= first by {
                assert(all[i] == behind[i - here.len()]);
            }
            here.len() + j
        } else {
            assert(all.skip(0) =~= all);
            assert forall|i: int| 0 <= i < all.len() implies (
            #[trigger] all[i]).position.segment.id >= first by {
                record_segment_exists(segments, i);
                let k = choose|k: int|
                    0 <= k < segments.len() && (#[trigger] segments[k]).id
                        == all[i].position.segment.id;
                if k > 0 {
                    assert(segments[0].id < segments[k].id);
                }
            }
            0
        }
    }
}

// ---------------------------------------------------------------------------------------
// What a node state is made of
// ---------------------------------------------------------------------------------------

/// Whether a record belongs to a node.
pub open spec fn is_of(record: Located, node: u64) -> bool {
    body_node_id(record.body) matches Ok(id) && id.0 == node
}

/// What a record holds.
pub open spec fn content(record: Located) -> RecordView {
    parse_body(record.body)->Ok_0.record
}

/// Whether a record is a checkpoint of a node.
pub open spec fn is_checkpoint_of(record: Located, node: u64) -> bool {
    is_of(record, node) && content(record) is SnapshotCheckpoint
}

/// Whether all records can be decoded.
pub open spec fn all_decode(records: Seq<Located>) -> bool {
    forall|i: int| 0 <= i < records.len() ==> parse_body((#[trigger] records[i]).body) is Ok
}

/// Whether all records tell their node, and those of the given nodes can be decoded.
pub open spec fn decodable(records: Seq<Located>, nodes: Set<u64>) -> bool {
    forall|i: int|
        0 <= i < records.len() ==> {
            &&& body_node_id((#[trigger] records[i]).body) is Ok
            &&& nodes.contains(body_node_id(records[i].body)->Ok_0.0) ==> parse_body(
                records[i].body,
            ) is Ok
        }
}

/// Where all records can be decoded, those of some nodes can.
pub proof fn all_decodable(records: Seq<Located>, nodes: Set<u64>)
    requires
        all_decode(records),
    ensures
        decodable(records, nodes),
{
    assert forall|i: int| 0 <= i < records.len() implies body_node_id(
        (#[trigger] records[i]).body,
    ) is Ok by {
        decoded_node_id(records[i].body);
    }
}

/// Whether a load of the given nodes that starts at a position can decode what it needs: the
/// records from there on as above, and of the records before, in the same segment, the node.
pub open spec fn decodable_from(
    records: Seq<Located>,
    nodes: Set<u64>,
    from: Option<RecordPosition>,
) -> bool {
    match from {
        None => decodable(records, nodes),
        Some(start) => {
            &&& forall|i: int|
                0 <= i < records.len() && (#[trigger] records[i]).position.segment.id
                    >= start.segment.id ==> body_node_id(records[i].body) is Ok
            &&& forall|i: int|
                0 <= i < records.len() && !(#[trigger] records[i]).position.before(start)
                    && nodes.contains(body_node_id(records[i].body)->Ok_0.0) ==> parse_body(
                    records[i].body,
                ) is Ok
        },
    }
}

/// Where all records can be decoded, those from a position on can.
pub proof fn all_decodable_from(
    records: Seq<Located>,
    nodes: Set<u64>,
    from: Option<RecordPosition>,
)
    requires
        all_decode(records),
    ensures
        decodable_from(records, nodes, from),
{
    all_decodable(records, nodes);
}

/// The records of a node, in order.
pub open spec fn history_of(records: Seq<Located>, node: u64) -> Seq<RecordView>
    decreases records.len(),
{
    if records.len() == 0 {
        Seq::empty()
    } else if is_of(records.last(), node) {
        history_of(records.drop_last(), node).push(content(records.last()))
    } else {
        history_of(records.drop_last(), node)
    }
}

/// The state after records were applied one after the other, or the first error.
pub open spec fn replayed(state: StateView, history: Seq<RecordView>) -> Result<
    StateView,
    StorageError,
>
    decreases history.len(),
{
    if history.len() == 0 {
        Ok(state)
    } else {
        match replayed(state, history.drop_last()) {
            Err(error) => Err(error),
            Ok(state) => state.apply(history.last()),
        }
    }
}

/// The index of the last checkpoint of a node, if it has one.
pub open spec fn last_checkpoint(records: Seq<Located>, node: u64) -> Option<int>
    decreases records.len(),
{
    if records.len() == 0 {
        None
    } else if is_checkpoint_of(records.last(), node) {
        Some(records.len() - 1)
    } else {
        last_checkpoint(records.drop_last(), node)
    }
}

/// The records that make up the state of a node: those from its last checkpoint on.
pub open spec fn live_history(records: Seq<Located>, node: u64) -> Seq<RecordView> {
    match last_checkpoint(records, node) {
        None => history_of(records, node),
        Some(k) => history_of(records.skip(k), node),
    }
}

/// The state of a node according to the records of a storage.
pub open spec fn stored_state(records: Seq<Located>, node: u64) -> Result<StateView, StorageError> {
    replayed(default_state(), live_history(records, node))
}

/// The last checkpoint is a checkpoint, and none comes after it.
pub proof fn last_checkpoint_sound(records: Seq<Located>, node: u64)
    ensures
        match last_checkpoint(records, node) {
            None => forall|i: int|
                0 <= i < records.len() ==> !is_checkpoint_of(#[trigger] records[i], node),
            Some(k) => {
                &&& 0 <= k < records.len()
                &&& is_checkpoint_of(records[k], node)
                &&& forall|i: int| k < i < records.len() ==> !is_checkpoint_of(#[trigger] records[i], node)
            },
        },
    decreases records.len(),
{
    if records.len() > 0 && !is_checkpoint_of(records.last(), node) {
        let front = records.drop_last();
        last_checkpoint_sound(front, node);
        match last_checkpoint(front, node) {
            None => {
                assert forall|i: int| 0 <= i < records.len() implies !is_checkpoint_of(
                    #[trigger] records[i],
                    node,
                ) by {
                    if i < front.len() {
                        assert(records[i] == front[i]);
                    }
                }
            },
            Some(k) => {
                assert(records[k] == front[k]);
                assert forall|i: int| k < i < records.len() implies !is_checkpoint_of(
                    #[trigger] records[i],
                    node,
                ) by {
                    if i < front.len() {
                        assert(records[i] == front[i]);
                    }
                }
            },
        }
    }
}

/// What the last checkpoint is, is what makes it the last one.
pub proof fn last_checkpoint_unique(records: Seq<Located>, node: u64, k: int)
    requires
        0 <= k < records.len(),
        is_checkpoint_of(records[k], node),
        forall|i: int| k < i < records.len() ==> !is_checkpoint_of(#[trigger] records[i], node),
    ensures
        last_checkpoint(records, node) == Some(k),
{
    last_checkpoint_sound(records, node);
}

/// What a node ID says of a decoded record.
pub proof fn decoded_node_id(body: Seq<u8>)
    ensures
        parse_body(body) matches Ok(node_record) ==> body_node_id(body) == Ok::<_, StorageError>(
            node_record.node_id,
        ),
{
}

proof fn replayed_one(state: StateView, record: RecordView)
    ensures
        replayed(state, seq![record]) == state.apply(record),
{
    let one = seq![record];
    assert(one.drop_last() =~= Seq::empty());
    assert(replayed(state, one.drop_last()) == Ok::<StateView, StorageError>(state));
    assert(one.last() == record);
}

proof fn history_one(record: Located, node: u64)
    ensures
        is_of(record, node) ==> history_of(seq![record], node) == seq![content(record)],
{
    let one = seq![record];
    assert(one.drop_last() =~= Seq::empty());
    assert(history_of(one.drop_last(), node) =~= Seq::empty());
    if is_of(record, node) {
        assert(history_of(one, node) =~= seq![content(record)]);
    }
}

/// The history of two lists of records is that of one, then that of the other.
pub proof fn history_concat(left: Seq<Located>, right: Seq<Located>, node: u64)
    ensures
        history_of(left + right, node) == history_of(left, node) + history_of(right, node),
    decreases right.len(),
{
    if right.len() == 0 {
        assert(left + right =~= left);
        assert(history_of(left, node) + history_of(right, node) =~= history_of(left, node));
    } else {
        assert((left + right).drop_last() =~= left + right.drop_last());
        assert((left + right).last() == right.last());
        history_concat(left, right.drop_last(), node);
        assert(history_of(left + right, node) =~= history_of(left, node) + history_of(right, node));
    }
}

/// Applying two lists of records one after the other.
pub proof fn replayed_concat(state: StateView, left: Seq<RecordView>, right: Seq<RecordView>)
    ensures
        replayed(state, left + right) == (match replayed(state, left) {
            Err(error) => Err(error),
            Ok(state) => replayed(state, right),
        }),
    decreases right.len(),
{
    if right.len() == 0 {
        assert(left + right =~= left);
    } else {
        assert((left + right).drop_last() =~= left + right.drop_last());
        replayed_concat(state, left, right.drop_last());
    }
}

// ---------------------------------------------------------------------------------------
// The passes of a load
// ---------------------------------------------------------------------------------------

proof fn decodable_front(records: Seq<Located>, nodes: Set<u64>)
    requires
        decodable(records, nodes),
        records.len() > 0,
    ensures
        decodable(records.drop_last(), nodes),
{
    let front = records.drop_last();
    assert forall|i: int| 0 <= i < front.len() implies body_node_id((#[trigger] front[i]).body) is Ok
        && (nodes.contains(body_node_id(front[i].body)->Ok_0.0) ==> parse_body(front[i].body) is Ok) by {
        assert(front[i] == records[i]);
    }
}

/// The checkpoint pass succeeds only where it can decode the records that it needs.
proof fn successful_pass_decodes(
    run: Run<Map<u64, RecordPosition>>,
    records: Seq<Located>,
    nodes: Set<u64>,
)
    requires
        run_records(run, records, checkpoint_step(nodes)).failure is None,
        run.failure is None,
    ensures
        decodable(records, nodes),
    decreases records.len(),
{
    if records.len() > 0 {
        let step = checkpoint_step(nodes);
        let rest = records.skip(1);
        let next = step(run, records[0].position, records[0].body);
        assert(next.failure is None) by {
            assert(run_records(run, records, step) == run_records(next, rest, step));
            if next.failure is Some {
                assert(run_records(next, rest, step) == next);
            }
        }
        successful_pass_decodes(next, rest, nodes);
        assert forall|i: int| 0 <= i < records.len() implies body_node_id(
            (#[trigger] records[i]).body,
        ) is Ok && (nodes.contains(body_node_id(records[i].body)->Ok_0.0) ==> parse_body(
            records[i].body,
        ) is Ok) by {
            if i > 0 {
                assert(records[i] == rest[i - 1]);
            }
        }
    }
}

/// What the checkpoint pass has for a node after some records.
pub(crate) proof fn checkpoint_pass(
    run: Run<Map<u64, RecordPosition>>,
    records: Seq<Located>,
    nodes: Set<u64>,
    node: u64,
)
    requires
        run.failure is None,
        decodable(records, nodes),
    ensures
        ({
            let end = run_records(run, records, checkpoint_step(nodes));
            &&& end.failure is None
            &&& end.stats == run.stats
            &&& match (if nodes.contains(node) {
                last_checkpoint(records, node)
            } else {
                None
            }) {
                None => end.acc.contains_key(node) == run.acc.contains_key(node)
                    && end.acc[node] == run.acc[node],
                Some(k) => end.acc.contains_key(node) && end.acc[node] == records[k].position,
            }
        }),
    decreases records.len(),
{
    if records.len() > 0 {
        let front = records.drop_last();
        let last = records.last();
        decodable_front(records, nodes);
        checkpoint_pass(run, front, nodes, node);
        let middle = run_records(run, front, checkpoint_step(nodes));
        run_records_concat(run, front, seq![last], checkpoint_step(nodes));
        assert(front + seq![last] =~= records);
        let step = checkpoint_step(nodes);
        let end = step(middle, last.position, last.body);
        assert(seq![last].skip(1) =~= Seq::empty());
        assert(run_records(end, Seq::empty(), step) == end);
        assert(run_records(middle, seq![last], step) == end);
        assert(records[records.len() - 1] == last);
        decoded_node_id(last.body);
        last_checkpoint_sound(front, node);
        if let Some(k) = last_checkpoint(front, node) {
            assert(front[k] == records[k]);
        }
    }
}

/// The records that a replay of a node applies: those that do not come before its
/// checkpoint.
pub open spec fn applied_history(
    records: Seq<Located>,
    node: u64,
    checkpoint: Option<RecordPosition>,
) -> Seq<RecordView>
    decreases records.len(),
{
    if records.len() == 0 {
        Seq::empty()
    } else {
        let front = applied_history(records.drop_last(), node, checkpoint);
        let last = records.last();
        if is_of(last, node) && !(checkpoint matches Some(first) && last.position.before(first)) {
            front.push(content(last))
        } else {
            front
        }
    }
}

/// Whether all records tell their node, and those that a replay of a node applies can be
/// decoded.
pub open spec fn applicable(
    records: Seq<Located>,
    node: u64,
    checkpoint: Option<RecordPosition>,
) -> bool {
    forall|i: int|
        0 <= i < records.len() ==> {
            &&& body_node_id((#[trigger] records[i]).body) is Ok
            &&& is_of(records[i], node) && !(checkpoint matches Some(first)
                && records[i].position.before(first)) ==> parse_body(records[i].body) is Ok
        }
}

proof fn applicable_front(records: Seq<Located>, node: u64, checkpoint: Option<RecordPosition>)
    requires
        applicable(records, node, checkpoint),
        records.len() > 0,
    ensures
        applicable(records.drop_last(), node, checkpoint),
{
    let front = records.drop_last();
    assert forall|i: int| 0 <= i < front.len() implies body_node_id((#[trigger] front[i]).body) is Ok
        && (is_of(front[i], node) && !(checkpoint matches Some(first)
        && front[i].position.before(first)) ==> parse_body(front[i].body) is Ok) by {
        assert(front[i] == records[i]);
    }
}

/// From the segment of a start on, with a checkpoint that does not come before the start, the
/// records that a replay applies can be decoded.
proof fn suffix_applicable(
    records: Seq<Located>,
    nodes: Set<u64>,
    from: Option<RecordPosition>,
    j: int,
    node: u64,
    checkpoint: Option<RecordPosition>,
)
    requires
        decodable_from(records, nodes, from),
        nodes.contains(node),
        0 <= j <= records.len(),
        from matches Some(start) ==> {
            &&& checkpoint matches Some(first) && !first.before(start)
            &&& forall|i: int|
                j <= i < records.len() ==> (#[trigger] records[i]).position.segment.id
                    >= start.segment.id
        },
    ensures
        applicable(records.skip(j), node, checkpoint),
{
    let tail = records.skip(j);
    assert forall|i: int| 0 <= i < tail.len() implies body_node_id((#[trigger] tail[i]).body) is Ok
        && (is_of(tail[i], node) && !(checkpoint matches Some(first)
        && tail[i].position.before(first)) ==> parse_body(tail[i].body) is Ok) by {
        assert(tail[i] == records[j + i]);
    }
}

/// The replay pass applies exactly those records.
proof fn node_pass(
    run: Run<StateView>,
    records: Seq<Located>,
    node: u64,
    checkpoint: Option<RecordPosition>,
)
    requires
        run.failure is None,
        applicable(records, node, checkpoint),
    ensures
        run_result(run_records(run, records, node_step(node, checkpoint))) == replayed(
            run.acc,
            applied_history(records, node, checkpoint),
        ),
    decreases records.len(),
{
    let step = node_step(node, checkpoint);
    if records.len() > 0 {
        let front = records.drop_last();
        let last = records.last();
        applicable_front(records, node, checkpoint);
        node_pass(run, front, node, checkpoint);
        let middle = run_records(run, front, step);
        run_records_concat(run, front, seq![last], step);
        assert(front + seq![last] =~= records);
        assert(records[records.len() - 1] == last);
        decoded_node_id(last.body);
        let before = applied_history(front, node, checkpoint);
        let after = applied_history(records, node, checkpoint);
        if middle.failure is None {
            let end = step(middle, last.position, last.body);
            assert(seq![last].skip(1) =~= Seq::empty());
            assert(run_records(end, Seq::empty(), step) == end);
            assert(run_records(middle, seq![last], step) == end);
            if after != before {
                assert(after.drop_last() =~= before);
            }
        } else {
            assert(run_records(middle, seq![last], step) == middle);
            if after != before {
                assert(after.drop_last() =~= before);
            }
        }
    }
}

/// Without a checkpoint, the whole history is applied.
proof fn applied_without_checkpoint(records: Seq<Located>, node: u64)
    ensures
        applied_history(records, node, None) == history_of(records, node),
    decreases records.len(),
{
    if records.len() > 0 {
        applied_without_checkpoint(records.drop_last(), node);
    }
}

/// With a checkpoint, the history from it on is applied.
proof fn applied_from_checkpoint(records: Seq<Located>, node: u64, k: int)
    requires
        in_order(records),
        0 <= k < records.len(),
    ensures
        applied_history(records, node, Some(records[k].position)) == history_of(records.skip(k), node),
    decreases records.len(),
{
    let first = records[k].position;
    let front = records.drop_last();
    let tail = records.skip(k);
    assert(in_order(front)) by {
        assert forall|i: int, j: int| 0 <= i < j < front.len() implies (
        #[trigger] front[i]).position.before((#[trigger] front[j]).position) by {
            assert(front[i] == records[i]);
            assert(front[j] == records[j]);
        }
    }
    assert(tail.last() == records.last());
    if k < front.len() {
        assert(front[k] == records[k]);
        applied_from_checkpoint(front, node, k);
        assert(tail.drop_last() =~= front.skip(k));
        assert(records[k].position.before(records[records.len() - 1].position));
        assert(!records.last().position.before(first));
    } else {
        applied_before(front, node, first);
        assert(tail.drop_last() =~= Seq::empty());
        assert(history_of(tail.drop_last(), node) =~= Seq::empty());
    }
}

/// Nothing is applied of the records before the checkpoint.
proof fn applied_before(records: Seq<Located>, node: u64, first: RecordPosition)
    requires
        forall|i: int| 0 <= i < records.len() ==> (#[trigger] records[i]).position.before(first),
    ensures
        applied_history(records, node, Some(first)) == Seq::<RecordView>::empty(),
    decreases records.len(),
{
    if records.len() > 0 {
        let front = records.drop_last();
        assert forall|i: int| 0 <= i < front.len() implies (#[trigger] front[i]).position.before(
            first,
        ) by {
            assert(front[i] == records[i]);
        }
        assert(records[records.len() - 1].position.before(first));
        applied_before(front, node, first);
    }
}

/// From the position of a record on, what a load needs can be decoded.
proof fn decode_suffix(records: Seq<Located>, nodes: Set<u64>, k: int)
    requires
        in_order(records),
        0 <= k < records.len(),
        decodable_from(records, nodes, Some(records[k].position)),
    ensures
        decodable(records.skip(k), nodes),
{
    let tail = records.skip(k);
    assert forall|i: int| 0 <= i < tail.len() implies body_node_id((#[trigger] tail[i]).body) is Ok
        && (nodes.contains(body_node_id(tail[i].body)->Ok_0.0) ==> parse_body(tail[i].body) is Ok) by {
        assert(tail[i] == records[k + i]);
        if i > 0 {
            assert(records[k].position.before(records[k + i].position));
        }
    }
}

proof fn order_suffix(records: Seq<Located>, k: int)
    requires
        in_order(records),
        0 <= k <= records.len(),
    ensures
        in_order(records.skip(k)),
{
    let tail = records.skip(k);
    assert forall|i: int, j: int| 0 <= i < j < tail.len() implies (
    #[trigger] tail[i]).position.before((#[trigger] tail[j]).position) by {
        assert(tail[i] == records[k + i]);
        assert(tail[j] == records[k + j]);
    }
}

/// From one of the checkpoints of a node on, its last checkpoint is the same.
proof fn last_checkpoint_suffix(records: Seq<Located>, node: u64, k: int)
    requires
        0 <= k < records.len(),
        is_checkpoint_of(records[k], node),
    ensures
        last_checkpoint(records, node) is Some,
        last_checkpoint(records, node)->0 >= k,
        last_checkpoint(records.skip(k), node) == Some(last_checkpoint(records, node)->0 - k),
{
    last_checkpoint_sound(records, node);
    let last = last_checkpoint(records, node)->0;
    let tail = records.skip(k);
    assert(tail[last - k] == records[last]);
    assert forall|i: int| last - k < i < tail.len() implies !is_checkpoint_of(
        #[trigger] tail[i],
        node,
    ) by {
        assert(tail[i] == records[k + i]);
    }
    last_checkpoint_unique(tail, node, last - k);
}

/// Whether a hint is the position of a checkpoint of the node.
pub open spec fn valid_hint(records: Seq<Located>, node: u64, hint: Option<RecordPosition>) -> bool {
    hint matches Some(position) ==> exists|k: int|
        0 <= k < records.len() && (#[trigger] records[k]).position == position && is_checkpoint_of(
            records[k],
            node,
        )
}

/// The second pass of a load, once the last checkpoint is known.
proof fn replay_from_last_checkpoint(
    start: Run<StateView>,
    segments: Seq<SegmentView>,
    active: u64,
    node: u64,
    hint: Option<RecordPosition>,
    last: int,
) -> (j: int)
    requires
        whole_storage(segments),
        decodable_from(all_records(segments), set![node], hint),
        0 <= last < all_records(segments).len(),
        hint matches Some(start) ==> !all_records(segments)[last].position.before(start),
        start.failure is None,
        start.acc == default_state(),
    ensures
        ({
            let all = all_records(segments);
            let position = all[last].position;
            let (run, after) = run_segments(
                start,
                segments,
                active,
                Some(position.segment.id),
                4,
                node_step(node, Some(position)),
            );
            &&& run_result(run) == replayed(default_state(), history_of(all.skip(last), node))
            &&& after == segments
            &&& 0 <= j <= last
            &&& run == run_records(start, all.skip(j), node_step(node, Some(position)))
            &&& applicable(all.skip(j), node, Some(position))
        }),
{
    let all = all_records(segments);
    let position = all[last].position;
    let first = position.segment.id;
    records_in_order(segments);
    run_from_segment(start, segments, active, first, node_step(node, Some(position)));
    let j = records_from_segment_suffix(segments, first);
    assert(j <= last) by {
        if last < j {
            assert(all[last].position.segment.id < first);
        }
    }
    let tail = all.skip(j);
    suffix_applicable(all, set![node], hint, j, node, Some(position));
    order_suffix(all, j);
    node_pass(start, tail, node, Some(position));
    assert(tail[last - j] == all[last]);
    applied_from_checkpoint(tail, node, last - j);
    assert(tail.skip(last - j) =~= all.skip(last));
    j
}

/// A load applies the records of the node in a part of the records that has its last checkpoint,
/// and none before that checkpoint.
pub(crate) proof fn load_replays_suffix(
    stats: StorageStats,
    segments: Seq<SegmentView>,
    active: u64,
    node: u64,
    hint: Option<RecordPosition>,
) -> (j: int)
    requires
        whole_storage(segments),
        decodable_from(all_records(segments), set![node], hint),
        valid_hint(all_records(segments), node, hint),
    ensures
        ({
            let all = all_records(segments);
            let (run, after) = node_run(stats, segments, active, node, hint);
            let start = Run { acc: default_state(), stats, failure: None };
            &&& run_result(run) == stored_state(all_records(segments), node)
            &&& after == segments
            &&& match last_checkpoint(all, node) {
                None => {
                    &&& j == 0
                    &&& run == run_records(start, all, node_step(node, None))
                    &&& applicable(all, node, None)
                },
                Some(last) => {
                    &&& 0 <= j <= last < all.len()
                    &&& run == run_records(
                        start,
                        all.skip(j),
                        node_step(node, Some(all[last].position)),
                    )
                    &&& applicable(all.skip(j), node, Some(all[last].position))
                },
            }
        }),
{
    let all = all_records(segments);
    let empty = Run { acc: Map::<u64, RecordPosition>::empty(), stats, failure: None };
    let step = checkpoint_step(set![node]);
    records_in_order(segments);
    let (found, recovered) = checkpoint_run(stats, segments, active, set![node], hint);
    match hint {
        None => {
            run_whole_storage(empty, segments, active, step);
            checkpoint_pass(empty, all, set![node], node);
        },
        Some(position) => {
            let k = choose|k: int|
                0 <= k < all.len() && (#[trigger] all[k]).position == position && is_checkpoint_of(
                    all[k],
                    node,
                );
            run_from_record(empty, segments, active, k, step);
            decode_suffix(all, set![node], k);
            checkpoint_pass(empty, all.skip(k), set![node], node);
            last_checkpoint_suffix(all, node, k);
            let latest = last_checkpoint(all, node)->0;
            last_checkpoint_sound(all, node);
            assert(!all[latest].position.before(position)) by {
                if k < latest {
                    assert(all[k].position.before(all[latest].position));
                }
            }
            last_checkpoint_sound(all.skip(k), node);
            assert(all.skip(k)[last_checkpoint(all.skip(k), node)->0] == all[last_checkpoint(
                all,
                node,
            )->0]);
        },
    }
    last_checkpoint_sound(all, node);
    let start = Run { acc: default_state(), stats: found.stats, failure: found.failure };
    match last_checkpoint(all, node) {
        None => {
            assert(!found.acc.contains_key(node));
            run_whole_storage(start, segments, active, node_step(node, None));
            suffix_applicable(all, set![node], hint, 0, node, None);
            assert(all.skip(0) =~= all);
            node_pass(start, all, node, None);
            applied_without_checkpoint(all, node);
            0
        },
        Some(last) => {
            assert(found.acc.contains_key(node) && found.acc[node] == all[last].position);
            replay_from_last_checkpoint(start, segments, active, node, hint, last)
        },
    }
}

/// A load gives the state that the records of the node make up from its last checkpoint on,
/// whether it starts at the beginning or at any of the checkpoints of the node, and leaves
/// the segments as they are.
pub proof fn load_gives_stored_state(
    stats: StorageStats,
    segments: Seq<SegmentView>,
    active: u64,
    node: u64,
    hint: Option<RecordPosition>,
)
    requires
        whole_storage(segments),
        decodable_from(all_records(segments), set![node], hint),
        valid_hint(all_records(segments), node, hint),
    ensures
        ({
            let (run, after) = node_run(stats, segments, active, node, hint);
            &&& run_result(run) == stored_state(all_records(segments), node)
            &&& after == segments
        }),
{
    load_replays_suffix(stats, segments, active, node, hint);
}

/// The checkpoint that a load starts at does not matter, stale or not: a load from the
/// beginning that succeeds gives the same state, and so does one that fails where the records
/// of the node can be decoded.
pub proof fn hint_does_not_matter(
    stats1: StorageStats,
    stats2: StorageStats,
    segments: Seq<SegmentView>,
    active: u64,
    node: u64,
    hint: Option<RecordPosition>,
)
    requires
        whole_storage(segments),
        decodable(all_records(segments), set![node]) || run_result(
            node_run(stats2, segments, active, node, None).0,
        ) is Ok,
        valid_hint(all_records(segments), node, hint),
    ensures
        run_result(node_run(stats1, segments, active, node, hint).0) == run_result(
            node_run(stats2, segments, active, node, None).0,
        ),
{
    if run_result(node_run(stats2, segments, active, node, None).0) is Ok {
        successful_load_decodes(stats2, segments, active, node);
    }
    assert(decodable_from(all_records(segments), set![node], hint));
    load_gives_stored_state(stats1, segments, active, node, hint);
    load_gives_stored_state(stats2, segments, active, node, None);
}

/// A load from the beginning succeeds only where the records of the node can be decoded.
proof fn successful_load_decodes(
    stats: StorageStats,
    segments: Seq<SegmentView>,
    active: u64,
    node: u64,
)
    requires
        whole_storage(segments),
        run_result(node_run(stats, segments, active, node, None).0) is Ok,
    ensures
        decodable(all_records(segments), set![node]),
{
    let empty = Run { acc: Map::<u64, RecordPosition>::empty(), stats, failure: None };
    let (found, after) = checkpoint_run(stats, segments, active, set![node], None);
    run_whole_storage(empty, segments, active, checkpoint_step(set![node]));
    assert(found.failure is None);
    successful_pass_decodes(empty, all_records(segments), set![node]);
}

/// Where all records of a node can be applied one after the other, the state of the node is
/// what that gives: earlier records are obsolete from a checkpoint on.
pub proof fn stored_state_is_full_replay(records: Seq<Located>, node: u64)
    requires
        replayed(default_state(), history_of(records, node)) is Ok,
    ensures
        stored_state(records, node) == replayed(default_state(), history_of(records, node)),
{
    last_checkpoint_sound(records, node);
    if let Some(k) = last_checkpoint(records, node) {
        let front = records.take(k);
        let tail = records.skip(k);
        assert(front + tail =~= records);
        history_concat(front, tail, node);
        replayed_concat(default_state(), history_of(front, node), history_of(tail, node));
        let state = replayed(default_state(), history_of(front, node))->Ok_0;
        assert(tail[0] == records[k]);
        checkpoint_starts_anew(state, tail, node);
    }
}

/// What comes from a checkpoint on gives the same state whatever it is applied to.
proof fn checkpoint_starts_anew(state: StateView, tail: Seq<Located>, node: u64)
    requires
        tail.len() > 0,
        is_checkpoint_of(tail[0], node),
    ensures
        replayed(state, history_of(tail, node)) == replayed(
            default_state(),
            history_of(tail, node),
        ),
{
    let first = seq![tail[0]];
    let rest = tail.skip(1);
    assert(first + rest =~= tail);
    history_concat(first, rest, node);
    history_one(tail[0], node);
    replayed_concat(state, history_of(first, node), history_of(rest, node));
    replayed_concat(default_state(), history_of(first, node), history_of(rest, node));
    replayed_one(state, content(tail[0]));
    replayed_one(default_state(), content(tail[0]));
}

/// A state with one more record applied to it. A checkpoint stands for itself; other records
/// need a state to be applied to.
pub open spec fn then_applied(
    state: Result<StateView, StorageError>,
    record: RecordView,
) -> Result<StateView, StorageError> {
    match record {
        RecordView::SnapshotCheckpoint(checkpoint) => checkpoint.state(),
        _ => match state {
            Err(error) => Err(error),
            Ok(state) => state.apply(record),
        },
    }
}

/// The state of a node after one more of its records is the state before with the record
/// applied.
pub proof fn stored_state_after_record(records: Seq<Located>, node: u64, record: Located)
    requires
        is_of(record, node),
    ensures
        stored_state(records.push(record), node) == then_applied(
            stored_state(records, node),
            content(record),
        ),
{
    let after = records.push(record);
    assert(after.drop_last() =~= records);
    last_checkpoint_sound(records, node);
    if is_checkpoint_of(record, node) {
        let tail = after.skip(records.len() as int);
        assert(tail =~= seq![record]);
        history_one(record, node);
        replayed_one(default_state(), content(record));
    } else {
        match last_checkpoint(records, node) {
            None => {
                assert(history_of(after, node).drop_last() =~= history_of(records, node));
            },
            Some(k) => {
                assert(after.skip(k) =~= records.skip(k).push(record));
                assert(after.skip(k).drop_last() =~= records.skip(k));
                assert(history_of(after.skip(k), node).drop_last() =~= history_of(
                    records.skip(k),
                    node,
                ));
            },
        }
    }
}

/// A record of another node does not change the state of a node.
pub proof fn stored_state_of_others(records: Seq<Located>, node: u64, record: Located)
    requires
        !is_of(record, node),
    ensures
        stored_state(records.push(record), node) == stored_state(records, node),
{
    let after = records.push(record);
    assert(after.drop_last() =~= records);
    last_checkpoint_sound(records, node);
    if let Some(k) = last_checkpoint(records, node) {
        assert(after.skip(k) =~= records.skip(k).push(record));
        assert(after.skip(k).drop_last() =~= records.skip(k));
    }
}

/// The state of a node after one of its checkpoints is the one that the checkpoint stands
/// for, whatever was there before.
pub proof fn stored_state_after_checkpoint(records: Seq<Located>, node: u64, record: Located)
    requires
        is_checkpoint_of(record, node),
    ensures
        stored_state(records.push(record), node) == content(
            record,
        )->SnapshotCheckpoint_0.state(),
{
    let after = records.push(record);
    assert(after.last() == record);
    assert(after.skip(records.len() as int) =~= seq![record]);
    history_one(record, node);
    replayed_one(default_state(), content(record));
}

/// What comes before a checkpoint of a node does not matter to the state of the node.
pub proof fn stored_state_from_checkpoint(records: Seq<Located>, node: u64, k: int)
    requires
        0 <= k < records.len(),
        is_checkpoint_of(records[k], node),
    ensures
        stored_state(records, node) == stored_state(records.skip(k), node),
{
    last_checkpoint_suffix(records, node, k);
    let last = last_checkpoint(records, node)->0;
    last_checkpoint_sound(records, node);
    assert(records.skip(k).skip(last - k) =~= records.skip(last));
}

// ---------------------------------------------------------------------------------------
// Loading many nodes
// ---------------------------------------------------------------------------------------

/// The position under a key, if there is one.
pub open spec fn position_in(positions: Map<u64, RecordPosition>, node: u64) -> Option<RecordPosition> {
    if positions.contains_key(node) {
        Some(positions[node])
    } else {
        None
    }
}

/// What the replay pass over many nodes gives for each of them, and why it fails.
proof fn replay_pass(
    run: Run<Map<u64, StateView>>,
    records: Seq<Located>,
    nodes: Set<u64>,
    positions: Map<u64, RecordPosition>,
)
    requires
        run.failure is None,
        forall|i: int| 0 <= i < records.len() ==> body_node_id((#[trigger] records[i]).body) is Ok,
        forall|node: u64| #[trigger]
            nodes.contains(node) ==> applicable(records, node, position_in(positions, node)),
    ensures
        ({
            let end = run_records(run, records, replay_step(nodes, positions));
            &&& end.failure is None ==> forall|node: u64| #[trigger]
                nodes.contains(node) ==> replayed(
                    state_of(run.acc, node),
                    applied_history(records, node, position_in(positions, node)),
                ) == Ok::<StateView, StorageError>(state_of(end.acc, node))
            &&& end.failure matches Some(error) ==> exists|node: u64|
                #![trigger nodes.contains(node)]
                nodes.contains(node) && replayed(
                    state_of(run.acc, node),
                    applied_history(records, node, position_in(positions, node)),
                ) == Err::<StateView, StorageError>(error)
        }),
    decreases records.len(),
{
    let step = replay_step(nodes, positions);
    if records.len() > 0 {
        let front = records.drop_last();
        let last = records.last();
        assert forall|i: int| 0 <= i < front.len() implies body_node_id(
            (#[trigger] front[i]).body,
        ) is Ok by {
            assert(front[i] == records[i]);
        }
        assert forall|node: u64| #[trigger] nodes.contains(node) implies applicable(
            front,
            node,
            position_in(positions, node),
        ) by {
            applicable_front(records, node, position_in(positions, node));
        }
        replay_pass(run, front, nodes, positions);
        let middle = run_records(run, front, step);
        run_records_concat(run, front, seq![last], step);
        assert(front + seq![last] =~= records);
        assert(records[records.len() - 1] == last);
        decoded_node_id(last.body);
        assert forall|node: u64| nodes.contains(node) implies {
            let before = applied_history(front, node, position_in(positions, node));
            let after = applied_history(records, node, position_in(positions, node));
            after == before || after.drop_last() == before
        } by {
            let before = applied_history(front, node, position_in(positions, node));
            let after = applied_history(records, node, position_in(positions, node));
            if after != before {
                assert(after.drop_last() =~= before);
            }
        }
        if middle.failure is None {
            let end = step(middle, last.position, last.body);
            assert(seq![last].skip(1) =~= Seq::empty());
            assert(run_records(end, Seq::empty(), step) == end);
            assert(run_records(middle, seq![last], step) == end);
            let owner = body_node_id(last.body)->Ok_0.0;
            if nodes.contains(owner) {
                assert(applicable(records, owner, position_in(positions, owner)));
            }
            assert forall|node: u64| nodes.contains(node) && node != owner implies applied_history(
                records,
                node,
                position_in(positions, node),
            ) == applied_history(front, node, position_in(positions, node)) && state_of(end.acc, node)
                == state_of(middle.acc, node) by {}
            if nodes.contains(owner) {
                let before = applied_history(front, owner, position_in(positions, owner));
                let after = applied_history(records, owner, position_in(positions, owner));
                if after != before {
                    assert(after.drop_last() =~= before);
                    assert(after.last() == content(last));
                }
            }
        } else {
            assert(run_records(middle, seq![last], step) == middle);
            let error = middle.failure->0;
            let node = choose|node: u64|
                #![trigger nodes.contains(node)]
                nodes.contains(node) && replayed(
                    state_of(run.acc, node),
                    applied_history(front, node, position_in(positions, node)),
                ) == Err::<StateView, StorageError>(error);
            assert(nodes.contains(node));
            assert(replayed(
                state_of(run.acc, node),
                applied_history(records, node, position_in(positions, node)),
            ) == Err::<StateView, StorageError>(error));
        }
    } else {
        assert forall|node: u64| #[trigger] nodes.contains(node) implies applied_history(
            records,
            node,
            position_in(positions, node),
        ) == Seq::<RecordView>::empty() by {}
    }
}

/// Whether each hint is the position of a checkpoint of its node.
pub open spec fn valid_hints(
    records: Seq<Located>,
    nodes: Set<u64>,
    hints: Option<Map<u64, RecordPosition>>,
) -> bool {
    hints matches Some(positions) ==> {
        &&& positions.dom() == nodes
        &&& forall|node: u64| #[trigger]
            positions.contains_key(node) ==> valid_hint(records, node, Some(positions[node]))
    }
}

/// The first of the hints.
pub open spec fn oldest_hint(hints: Option<Map<u64, RecordPosition>>) -> Option<RecordPosition> {
    match hints {
        None => None,
        Some(positions) => oldest_position(positions),
    }
}

/// What the plan of a load of many nodes has for each of them: the last checkpoint; and
/// nothing from there on is left out.
proof fn plan_pass(
    stats: StorageStats,
    segments: Seq<SegmentView>,
    active: u64,
    nodes: Set<u64>,
    hints: Option<Map<u64, RecordPosition>>,
) -> (j: int)
    requires
        whole_storage(segments),
        decodable_from(all_records(segments), nodes, oldest_hint(hints)),
        valid_hints(all_records(segments), nodes, hints),
    ensures
        ({
            let all = all_records(segments);
            let (plan, after) = plan_run(stats, segments, active, nodes, hints);
            &&& plan.failure is None
            &&& after == segments
            &&& 0 <= j <= all.len()
            &&& (match plan.acc.from {
                None => j == 0,
                Some(first) => {
                    &&& oldest_hint(hints) matches Some(start) && start.segment.id == first
                    &&& records_from_segment(segments, first) == all.skip(j)
                    &&& forall|i: int|
                        j <= i < all.len() ==> (#[trigger] all[i]).position.segment.id >= first
                },
            })
            &&& forall|node: u64| #[trigger]
                nodes.contains(node) ==> match last_checkpoint(all, node) {
                    None => j == 0 && !plan.acc.positions.contains_key(node),
                    Some(last) => j <= last < all.len() && plan.acc.positions.contains_key(node)
                        && plan.acc.positions[node] == all[last].position,
                }
            &&& oldest_hint(hints) matches Some(start) ==> plan.acc.from is Some && forall|node: u64|
                #[trigger]
                nodes.contains(node) ==> last_checkpoint(all, node) is Some
                    && !plan.acc.positions[node].before(start)
        }),
{
    let all = all_records(segments);
    let empty = Run { acc: Map::<u64, RecordPosition>::empty(), stats, failure: None };
    let step = checkpoint_step(nodes);
    records_in_order(segments);
    match hints {
        None => {
            run_whole_storage(empty, segments, active, step);
            checkpoint_pass(empty, all, nodes, 0);
            assert forall|node: u64| #[trigger] nodes.contains(node) implies {
                let (plan, after) = plan_run(stats, segments, active, nodes, hints);
                match last_checkpoint(all, node) {
                    None => !plan.acc.positions.contains_key(node),
                    Some(last) => 0 <= last < all.len() && plan.acc.positions.contains_key(node)
                        && plan.acc.positions[node] == all[last].position,
                }
            } by {
                checkpoint_pass(empty, all, nodes, node);
                last_checkpoint_sound(all, node);
            }
            0
        },
        Some(positions) => {
            oldest_position_sound(positions);
            match oldest_position(positions) {
                None => {
                    assert forall|node: u64| #[trigger] nodes.contains(node) implies false by {
                        assert(positions.contains_key(node));
                    }
                    0
                },
                Some(start) => {
                    let owner = choose|owner: u64|
                        positions.contains_key(owner) && positions[owner] == start;
                    assert(valid_hint(all, owner, Some(positions[owner])));
                    let k = choose|k: int|
                        0 <= k < all.len() && (#[trigger] all[k]).position == start
                            && is_checkpoint_of(all[k], owner);
                    run_from_record(empty, segments, active, k, step);
                    decode_suffix(all, nodes, k);
                    checkpoint_pass(empty, all.skip(k), nodes, owner);
                    let j = records_from_segment_suffix(segments, start.segment.id);
                    assert(j <= k) by {
                        if k < j {
                            assert(all[k].position.segment.id < start.segment.id);
                        }
                    }
                    assert forall|node: u64| #[trigger] nodes.contains(node) implies {
                        let (plan, after) = plan_run(stats, segments, active, nodes, hints);
                        match last_checkpoint(all, node) {
                            None => j == 0 && !plan.acc.positions.contains_key(node),
                            Some(last) => j <= last < all.len() && plan.acc.positions.contains_key(node)
                                && plan.acc.positions[node] == all[last].position,
                        }
                    } && last_checkpoint(all, node) is Some && !all[last_checkpoint(
                        all,
                        node,
                    )->0].position.before(start) by {
                        assert(positions.contains_key(node));
                        assert(valid_hint(all, node, Some(positions[node])));
                        let h = choose|h: int|
                            0 <= h < all.len() && (#[trigger] all[h]).position == positions[node]
                                && is_checkpoint_of(all[h], node);
                        assert(k <= h) by {
                            if h < k {
                                assert(all[h].position.before(all[k].position));
                            }
                        }
                        last_checkpoint_suffix(all, node, h);
                        last_checkpoint_sound(all, node);
                        let last = last_checkpoint(all, node)->0;
                        assert(!all[last].position.before(start)) by {
                            if k < last {
                                assert(all[k].position.before(all[last].position));
                            }
                        }
                        let tail = all.skip(k);
                        assert(tail[last - k] == all[last]);
                        assert forall|i: int| last - k < i < tail.len() implies !is_checkpoint_of(
                            #[trigger] tail[i],
                            node,
                        ) by {
                            assert(tail[i] == all[k + i]);
                        }
                        last_checkpoint_unique(tail, node, last - k);
                        checkpoint_pass(empty, tail, nodes, node);
                    }
                    j
                },
            }
        },
    }
}

/// What is applied from a record on, up to which nothing is live, is the live history.
proof fn live_history_applied(
    all: Seq<Located>,
    j: int,
    node: u64,
    positions: Map<u64, RecordPosition>,
)
    requires
        in_order(all),
        0 <= j <= all.len(),
        match last_checkpoint(all, node) {
            None => j == 0 && !positions.contains_key(node),
            Some(last) => j <= last < all.len() && positions.contains_key(node) && positions[node]
                == all[last].position,
        },
    ensures
        applied_history(all.skip(j), node, position_in(positions, node)) == live_history(all, node),
{
    let tail = all.skip(j);
    match last_checkpoint(all, node) {
        None => {
            assert(tail =~= all);
            applied_without_checkpoint(all, node);
        },
        Some(last) => {
            order_suffix(all, j);
            assert(tail[last - j] == all[last]);
            applied_from_checkpoint(tail, node, last - j);
            assert(tail.skip(last - j) =~= all.skip(last));
        },
    }
}

/// Whether the result of a load of many nodes is what the loads of each of them give.
pub open spec fn loads_nodes(
    records: Seq<Located>,
    nodes: Set<u64>,
    result: Result<Map<u64, StateView>, StorageError>,
) -> bool {
    match result {
        Ok(states) => forall|node: u64| #[trigger]
            nodes.contains(node) ==> stored_state(records, node) == Ok::<StateView, StorageError>(
                state_of(states, node),
            ),
        Err(error) => exists|node: u64|
            #![trigger nodes.contains(node)]
            nodes.contains(node) && stored_state(records, node) == Err::<StateView, StorageError>(
                error,
            ),
    }
}

/// The replay pass from record `j` on, with the last checkpoints known.
proof fn replay_loads_nodes(
    start: Run<Map<u64, StateView>>,
    all: Seq<Located>,
    j: int,
    nodes: Set<u64>,
    positions: Map<u64, RecordPosition>,
    from: Option<RecordPosition>,
)
    requires
        start.failure is None,
        start.acc == Map::<u64, StateView>::empty(),
        in_order(all),
        decodable_from(all, nodes, from),
        from matches Some(start) ==> {
            &&& forall|i: int|
                j <= i < all.len() ==> (#[trigger] all[i]).position.segment.id >= start.segment.id
            &&& forall|node: u64| #[trigger]
                nodes.contains(node) ==> positions.contains_key(node) && !positions[node].before(
                    start,
                )
        },
        0 <= j <= all.len(),
        forall|node: u64| #[trigger]
            nodes.contains(node) ==> match last_checkpoint(all, node) {
                None => j == 0 && !positions.contains_key(node),
                Some(last) => j <= last < all.len() && positions.contains_key(node) && positions[node]
                    == all[last].position,
            },
    ensures
        loads_nodes(
            all,
            nodes,
            run_result(run_records(start, all.skip(j), replay_step(nodes, positions))),
        ),
{
    let tail = all.skip(j);
    assert forall|i: int| 0 <= i < tail.len() implies body_node_id((#[trigger] tail[i]).body) is Ok by {
        assert(tail[i] == all[j + i]);
    }
    assert forall|node: u64| #[trigger] nodes.contains(node) implies applicable(
        tail,
        node,
        position_in(positions, node),
    ) by {
        suffix_applicable(all, nodes, from, j, node, position_in(positions, node));
    }
    replay_pass(start, tail, nodes, positions);
    assert forall|node: u64| #[trigger] nodes.contains(node) implies applied_history(
        tail,
        node,
        position_in(positions, node),
    ) == live_history(all, node) && state_of(start.acc, node) == default_state() by {
        live_history_applied(all, j, node, positions);
    }
    let end = run_records(start, tail, replay_step(nodes, positions));
    if let Some(error) = end.failure {
        let node = choose|node: u64|
            #![trigger nodes.contains(node)]
            nodes.contains(node) && replayed(
                state_of(start.acc, node),
                applied_history(tail, node, position_in(positions, node)),
            ) == Err::<StateView, StorageError>(error);
        assert(nodes.contains(node));
        assert(stored_state(all, node) == Err::<StateView, StorageError>(error));
    }
}

/// A load of many nodes gives for each node what a load of that node alone gives, and fails
/// only with the error of one of them. It leaves the segments as they are.
pub proof fn load_all_agrees_with_load(
    stats: StorageStats,
    segments: Seq<SegmentView>,
    active: u64,
    nodes: Set<u64>,
    hints: Option<Map<u64, RecordPosition>>,
)
    requires
        whole_storage(segments),
        decodable_from(all_records(segments), nodes, oldest_hint(hints)),
        valid_hints(all_records(segments), nodes, hints),
    ensures
        ({
            let (run, after) = storage_run(stats, segments, active, nodes, hints);
            &&& after == segments
            &&& loads_nodes(all_records(segments), nodes, run_result(run))
        }),
{
    let all = all_records(segments);
    let (plan, recovered) = plan_run(stats, segments, active, nodes, hints);
    let j = plan_pass(stats, segments, active, nodes, hints);
    let start = Run { acc: Map::<u64, StateView>::empty(), stats: plan.stats, failure: plan.failure };
    let step = replay_step(nodes, plan.acc.positions);
    records_in_order(segments);
    match plan.acc.from {
        None => {
            run_whole_storage(start, segments, active, step);
            assert(all.skip(0) =~= all);
        },
        Some(first) => {
            run_from_segment(start, segments, active, first, step);
        },
    }
    replay_loads_nodes(start, all, j, nodes, plan.acc.positions, oldest_hint(hints));
}

/// Where the loads of some nodes from the beginning all succeed, a load of them together
/// succeeds, whatever hints it is given, and gives their states.
pub proof fn load_all_gives_loaded_states(
    stats1: StorageStats,
    stats2: StorageStats,
    segments: Seq<SegmentView>,
    active: u64,
    nodes: Set<u64>,
    hints: Option<Map<u64, RecordPosition>>,
    some: u64,
)
    requires
        whole_storage(segments),
        valid_hints(all_records(segments), nodes, hints),
        nodes.contains(some),
        forall|node: u64| #[trigger]
            nodes.contains(node) ==> run_result(
                node_run(stats1, segments, active, node, None).0,
            ) is Ok,
    ensures
        ({
            let result = run_result(storage_run(stats2, segments, active, nodes, hints).0);
            &&& result is Ok
            &&& forall|node: u64| #[trigger]
                nodes.contains(node) ==> run_result(
                    node_run(stats1, segments, active, node, None).0,
                ) == Ok::<StateView, StorageError>(state_of(result->Ok_0, node))
        }),
{
    let all = all_records(segments);
    assert forall|node: u64| #[trigger] nodes.contains(node) implies decodable(all, set![node])
        && stored_state(all, node) == run_result(
        node_run(stats1, segments, active, node, None).0,
    ) by {
        successful_load_decodes(stats1, segments, active, node);
        load_gives_stored_state(stats1, segments, active, node, None);
    }
    assert(decodable(all, set![some]));
    assert forall|i: int| 0 <= i < all.len() implies body_node_id((#[trigger] all[i]).body) is Ok
        && (nodes.contains(body_node_id(all[i].body)->Ok_0.0) ==> parse_body(all[i].body) is Ok) by {
        let owner = body_node_id(all[i].body)->Ok_0.0;
        if nodes.contains(owner) {
            assert(decodable(all, set![owner]));
            assert(set![owner].contains(owner));
        }
    }
    load_all_agrees_with_load(stats2, segments, active, nodes, hints);
}

/// The replay pass succeeds only where all records tell their node.
proof fn successful_replay_tells_nodes(
    run: Run<Map<u64, StateView>>,
    records: Seq<Located>,
    nodes: Set<u64>,
    positions: Map<u64, RecordPosition>,
)
    requires
        run.failure is None,
        run_records(run, records, replay_step(nodes, positions)).failure is None,
    ensures
        forall|i: int| 0 <= i < records.len() ==> body_node_id((#[trigger] records[i]).body) is Ok,
    decreases records.len(),
{
    if records.len() > 0 {
        let step = replay_step(nodes, positions);
        let rest = records.skip(1);
        let next = step(run, records[0].position, records[0].body);
        assert(next.failure is None) by {
            assert(run_records(run, records, step) == run_records(next, rest, step));
            if next.failure is Some {
                assert(run_records(next, rest, step) == next);
            }
        }
        successful_replay_tells_nodes(next, rest, nodes, positions);
        assert forall|i: int| 0 <= i < records.len() implies body_node_id(
            (#[trigger] records[i]).body,
        ) is Ok by {
            if i > 0 {
                assert(records[i] == rest[i - 1]);
            }
        }
    }
}

/// A load of many nodes succeeds only where it can decode what it needs.
proof fn successful_load_all_decodes(
    stats: StorageStats,
    segments: Seq<SegmentView>,
    active: u64,
    nodes: Set<u64>,
    hints: Option<Map<u64, RecordPosition>>,
    node: u64,
)
    requires
        whole_storage(segments),
        valid_hints(all_records(segments), nodes, hints),
        nodes.contains(node),
        run_result(storage_run(stats, segments, active, nodes, hints).0) is Ok,
    ensures
        decodable_from(all_records(segments), nodes, oldest_hint(hints)),
        hints matches Some(positions) ==> oldest_hint(hints) matches Some(start)
            && !positions[node].before(start),
{
    let all = all_records(segments);
    let empty = Run { acc: Map::<u64, RecordPosition>::empty(), stats, failure: None };
    let (plan, after) = plan_run(stats, segments, active, nodes, hints);
    let start_run = Run {
        acc: Map::<u64, StateView>::empty(),
        stats: plan.stats,
        failure: plan.failure,
    };
    let step = replay_step(nodes, plan.acc.positions);
    assert(plan.failure is None);
    records_in_order(segments);
    match hints {
        None => {
            run_whole_storage(empty, segments, active, checkpoint_step(nodes));
            successful_pass_decodes(empty, all, nodes);
        },
        Some(positions) => {
            oldest_position_sound(positions);
            assert(positions.contains_key(node));
            let start = oldest_position(positions)->0;
            let owner = choose|owner: u64|
                positions.contains_key(owner) && positions[owner] == start;
            assert(valid_hint(all, owner, Some(positions[owner])));
            let k = choose|k: int|
                0 <= k < all.len() && (#[trigger] all[k]).position == start && is_checkpoint_of(
                    all[k],
                    owner,
                );
            run_from_record(empty, segments, active, k, checkpoint_step(nodes));
            successful_pass_decodes(empty, all.skip(k), nodes);
            run_from_segment(start_run, segments, active, start.segment.id, step);
            let j = records_from_segment_suffix(segments, start.segment.id);
            successful_replay_tells_nodes(start_run, all.skip(j), nodes, plan.acc.positions);
            assert forall|i: int|
                0 <= i < all.len() && (#[trigger] all[i]).position.segment.id
                    >= start.segment.id implies body_node_id(all[i].body) is Ok by {
                assert(all.skip(j)[i - j] == all[i]);
            }
            assert forall|i: int|
                0 <= i < all.len() && !(#[trigger] all[i]).position.before(start)
                    && nodes.contains(body_node_id(all[i].body)->Ok_0.0) implies parse_body(
                all[i].body,
            ) is Ok by {
                if i < k {
                    assert(all[i].position.before(all[k].position));
                }
                assert(all.skip(k)[i - k] == all[i]);
            }
        },
    }
}

/// A load of many nodes that succeeds gives for each of them what a load of that node alone
/// gives, from its hint on. So it fails where the load of one of them fails.
pub proof fn load_all_gives_what_load_gives(
    stats1: StorageStats,
    stats2: StorageStats,
    segments: Seq<SegmentView>,
    active: u64,
    nodes: Set<u64>,
    hints: Option<Map<u64, RecordPosition>>,
    node: u64,
    hint: Option<RecordPosition>,
)
    requires
        whole_storage(segments),
        valid_hints(all_records(segments), nodes, hints),
        valid_hint(all_records(segments), node, hint),
        hints matches Some(positions) ==> hint == Some(positions[node]),
        nodes.contains(node),
    ensures
        run_result(storage_run(stats1, segments, active, nodes, hints).0) matches Ok(states)
            ==> run_result(node_run(stats2, segments, active, node, hint).0) == Ok::<
            StateView,
            StorageError,
        >(state_of(states, node)),
{
    let all = all_records(segments);
    let result = run_result(storage_run(stats1, segments, active, nodes, hints).0);
    if let Ok(states) = result {
        successful_load_all_decodes(stats1, segments, active, nodes, hints, node);
        assert(decodable_from(all, set![node], hint));
        load_all_agrees_with_load(stats1, segments, active, nodes, hints);
        load_gives_stored_state(stats2, segments, active, node, hint);
    }
}

// ---------------------------------------------------------------------------------------
// One segment
// ---------------------------------------------------------------------------------------

/// Whether a pass over many nodes stands where a pass over one node does.
pub open spec fn in_step(
    many: Run<Map<u64, StateView>>,
    one: Run<StateView>,
    start: Map<u64, StateView>,
    counts_alike: bool,
    node: u64,
) -> bool {
    &&& many.failure == one.failure
    &&& counts_alike ==> many.stats == one.stats
    &&& state_of(many.acc, node) == one.acc
    &&& many.acc.remove(node) == start.remove(node)
}

proof fn frames_in_step(
    many: Run<Map<u64, StateView>>,
    one: Run<StateView>,
    start: Map<u64, StateView>,
    counts_alike: bool,
    id: u64,
    frames: Seq<FrameAt>,
    node: u64,
    positions: Map<u64, RecordPosition>,
)
    requires
        in_step(many, one, start, counts_alike, node),
    ensures
        in_step(
            run_frames(many, id, frames, replay_step(set![node], positions)),
            run_frames(one, id, frames, node_step(node, position_in(positions, node))),
            start,
            counts_alike,
            node,
        ),
    decreases frames.len(),
{
    if frames.len() > 0 && one.failure is None {
        let position = RecordPosition { segment: SegmentName { id }, offset: frames[0].offset as u64 };
        let body = frames[0].body;
        let step_many = replay_step(set![node], positions);
        let step_one = node_step(node, position_in(positions, node));
        let many_next = step_many(many, position, body);
        let one_next = step_one(one, position, body);
        assert(many_next.acc.remove(node) =~= start.remove(node)) by {
            assert(many.acc.remove(node) == start.remove(node));
            if many_next.acc != many.acc {
                assert(many_next.acc =~= many.acc.insert(node, one_next.acc));
                assert(many_next.acc.remove(node) =~= many.acc.remove(node));
            }
        }
        frames_in_step(
            many_next,
            one_next,
            start,
            counts_alike,
            id,
            frames.skip(1),
            node,
            positions,
        );
    }
}

/// A replay of one segment restricted to one node does to the state of the node what a replay
/// of the segment for the node alone does: it succeeds or fails alike, counts alike, leaves
/// the same contents, and keeps the states of all other nodes.
pub proof fn replay_of_one_node_agrees(
    many: Run<Map<u64, StateView>>,
    one: Run<StateView>,
    segment: SegmentView,
    allow_partial: bool,
    offset: u64,
    node: u64,
    positions: Map<u64, RecordPosition>,
)
    requires
        many.failure == one.failure,
        state_of(many.acc, node) == one.acc,
    ensures
        ({
            let (many_end, many_after) = run_segment(
                many,
                segment,
                allow_partial,
                offset,
                replay_step(set![node], positions),
            );
            let (one_end, one_after) = run_segment(
                one,
                segment,
                allow_partial,
                offset,
                node_step(node, position_in(positions, node)),
            );
            &&& many_end.failure == one_end.failure
            &&& many.stats == one.stats ==> many_end.stats == one_end.stats
            &&& state_of(many_end.acc, node) == one_end.acc
            &&& many_end.acc.remove(node) == many.acc.remove(node)
            &&& many_after == one_after
        }),
{
    let frames = frames_from(segment.bytes, offset as nat);
    let counts_alike = many.stats == one.stats;
    frames_in_step(
        many,
        one,
        many.acc,
        counts_alike,
        segment.id,
        frames.frames,
        node,
        positions,
    );
}

} // verus!
