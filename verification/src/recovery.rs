//! Laws of loads from a storage whose newest segment was not written to its end.

use vstd::prelude::*;

verus! {

use crate::durability::{all_records_last, loaded};
use crate::error::StorageError;
use crate::format::read_frame;
use crate::frames::{complete_frame_fits, frames_bounded, is_whole};
use crate::history::{
    all_records, frames_suffix, hint_does_not_matter, is_checkpoint_of, load_all_gives_loaded_states,
    load_all_gives_what_load_gives, located, oldest_hint, position_in, segment_records, valid_hint, valid_hints,
    whole_storage,
};
use crate::registry::active_nodes;
use crate::replay::{
    checkpoint_run, checkpoint_step, node_run, node_step, oldest_position_sound, plan_run,
    replay_step, state_of, storage_run,
};
use crate::scan::{
    frames_from, run_frames, run_result, run_segment, run_segments, start_offset, FrameAt, Run,
    SegmentView, Step,
};
use crate::segment::{RecordPosition, SegmentName};
use crate::state::{default_state, StateView};
use crate::stats::StorageStats;
use crate::storage::EngineView;

// ---------------------------------------------------------------------------------------
// Statistics do not matter
// ---------------------------------------------------------------------------------------

/// Whether two runs stand alike, but for their statistics.
pub open spec fn alike<A>(left: Run<A>, right: Run<A>) -> bool {
    left.acc == right.acc && left.failure == right.failure
}

/// Whether a step does not depend on the statistics.
pub open spec fn ignores_stats<A>(step: Step<A>) -> bool {
    forall|left: Run<A>, right: Run<A>, position: RecordPosition, body: Seq<u8>|
        alike(left, right) ==> alike(
            #[trigger] step(left, position, body),
            #[trigger] step(right, position, body),
        )
}

proof fn frames_alike<A>(left: Run<A>, right: Run<A>, id: u64, frames: Seq<FrameAt>, step: Step<A>)
    requires
        alike(left, right),
        ignores_stats(step),
    ensures
        alike(run_frames(left, id, frames, step), run_frames(right, id, frames, step)),
    decreases frames.len(),
{
    if frames.len() > 0 && left.failure is None {
        let position = RecordPosition { segment: SegmentName { id }, offset: frames[0].offset as u64 };
        frames_alike(
            step(left, position, frames[0].body),
            step(right, position, frames[0].body),
            id,
            frames.skip(1),
            step,
        );
    }
}

/// A segment that must be complete is left as it is.
proof fn complete_segment_alike<A>(
    left: Run<A>,
    right: Run<A>,
    segment: SegmentView,
    offset: u64,
    step: Step<A>,
)
    requires
        alike(left, right),
        ignores_stats(step),
    ensures
        ({
            let (left_end, left_after) = run_segment(left, segment, false, offset, step);
            let (right_end, right_after) = run_segment(right, segment, false, offset, step);
            alike(left_end, right_end) && left_after == segment && right_after == segment
        }),
{
    let frames = frames_from(segment.bytes, offset as nat).frames;
    frames_alike(left, right, segment.id, frames, step);
}

// ---------------------------------------------------------------------------------------
// The incomplete end
// ---------------------------------------------------------------------------------------

/// What is left of the newest segment when its incomplete end is cut off.
pub open spec fn settled(segment: SegmentView) -> SegmentView {
    let frames = frames_from(segment.bytes, 4);
    if segment.bytes.len() < 4 {
        SegmentView { bytes: Seq::empty(), ..segment }
    } else if frames.ending is Partial {
        SegmentView { bytes: segment.bytes.take(frames.end as int), ..segment }
    } else {
        segment
    }
}

/// Cutting off an incomplete end keeps all frames.
proof fn frames_settled(bytes: Seq<u8>, offset: nat)
    requires
        offset <= bytes.len(),
        frames_from(bytes, offset).ending is Partial,
    ensures
        ({
            let before = frames_from(bytes, offset);
            let after = frames_from(bytes.take(before.end as int), offset);
            &&& offset <= before.end <= bytes.len()
            &&& after.frames == before.frames
            &&& after.ending is Complete
            &&& after.end == before.end
        }),
    decreases bytes.len() - offset,
{
    let before = frames_from(bytes, offset);
    let cut = bytes.take(before.end as int);
    frames_bounded(bytes, offset);
    let input = bytes.skip(offset as int);
    match read_frame(input) {
        Ok(Some(body)) => {
            complete_frame_fits(input);
            let next = offset + 8 + body.len();
            frames_settled(bytes, next);
            frames_bounded(bytes, next);
            let short = cut.skip(offset as int);
            let rest = input.skip(short.len() as int);
            assert(short + rest =~= input);
            assert(short.take(4) =~= input.take(4));
            assert(short.subrange(4, 8) =~= input.subrange(4, 8));
            assert(short.subrange(8, 8 + body.len() as int) =~= input.subrange(
                8,
                8 + body.len() as int,
            ));
            assert(read_frame(short) == read_frame(input));
        },
        _ => {
            assert(cut.skip(offset as int) =~= Seq::empty());
        },
    }
}

/// Whether reading a segment may start at an offset: at the first record, or at any other.
pub open spec fn starts_at_record(segment: SegmentView, offset: u64) -> bool {
    offset == 4 || exists|i: int|
        0 <= i < frames_from(segment.bytes, 4).frames.len() && (#[trigger] frames_from(
            segment.bytes,
            4,
        ).frames[i]).offset == offset
}

/// Reading the newest segment gives what reading it without its incomplete end gives, and
/// leaves it so.
proof fn newest_segment_alike<A>(
    left: Run<A>,
    right: Run<A>,
    segment: SegmentView,
    offset: u64,
    step: Step<A>,
)
    requires
        alike(left, right),
        ignores_stats(step),
        starts_at_record(segment, offset),
    ensures
        ({
            let (left_end, left_after) = run_segment(left, segment, true, offset, step);
            let (right_end, right_after) = run_segment(right, settled(segment), true, offset, step);
            &&& alike(left_end, right_end)
            &&& left_end.failure is None ==> left_after == settled(segment)
            &&& left_end.failure is None ==> right_after == settled(segment)
            &&& segment.bytes.len() < 4 ==> alike(left_end, right)
        }),
{
    let bytes = segment.bytes;
    if bytes.len() >= 4 {
        let all = frames_from(bytes, 4);
        let here = frames_from(bytes, offset as nat);
        frames_bounded(bytes, 4);
        if offset != 4 {
            let i = choose|i: int|
                0 <= i < all.frames.len() && (#[trigger] all.frames[i]).offset == offset;
            frames_suffix(bytes, 4, i);
        }
        assert(here.ending == all.ending && here.end == all.end && offset <= bytes.len());
        if all.ending is Partial {
            frames_settled(bytes, offset as nat);
            frames_settled(bytes, 4);
            assert(settled(segment).bytes.take(4) =~= bytes.take(4));
        }
        frames_alike(left, right, segment.id, here.frames, step);
    } else if bytes.len() == 0 {
        assert(settled(segment) =~= segment);
    }
}

/// Cutting off an incomplete end twice is cutting it off once, and keeps all records.
proof fn settled_once(segment: SegmentView)
    ensures
        settled(settled(segment)) == settled(segment),
        segment.bytes.len() < 4 <==> settled(segment).bytes.len() < 4,
        segment_records(settled(segment)) == segment_records(segment),
        settled(segment).bytes.len() <= segment.bytes.len(),
{
    let bytes = segment.bytes;
    if bytes.len() >= 4 {
        frames_bounded(bytes, 4);
        if frames_from(bytes, 4).ending is Partial {
            frames_settled(bytes, 4);
        }
    } else {
        assert(segment_records(segment) =~= Seq::empty());
        assert(segment_records(settled(segment)) =~= Seq::empty());
    }
}

// ---------------------------------------------------------------------------------------
// Runs over a storage
// ---------------------------------------------------------------------------------------

/// The segments with records, without the incomplete end of the newest.
pub open spec fn complete_part(front: Seq<SegmentView>, newest: SegmentView) -> Seq<SegmentView> {
    if newest.bytes.len() < 4 {
        front
    } else {
        front.push(settled(newest))
    }
}

/// A run over a storage is like a run over its complete part, and leaves the storage without
/// the incomplete end.
proof fn storage_alike<A>(
    left: Run<A>,
    right: Run<A>,
    front: Seq<SegmentView>,
    newest: SegmentView,
    from: Option<u64>,
    offset: u64,
    step: Step<A>,
)
    requires
        alike(left, right),
        ignores_stats(step),
        forall|i: int| 0 <= i < front.len() ==> (#[trigger] front[i]).id != newest.id,
        starts_at_record(newest, start_offset(from, offset, newest.id)),
    ensures
        ({
            let complete = complete_part(front, newest);
            let (left_end, left_after) = run_segments(
                left,
                front.push(newest),
                newest.id,
                from,
                offset,
                step,
            );
            let (right_end, right_after) = run_segments(
                right,
                complete,
                newest.id,
                from,
                offset,
                step,
            );
            &&& alike(left_end, right_end)
            &&& left_end.failure is None && (from matches Some(first) ==> first <= newest.id) ==> {
                &&& left_after == front.push(settled(newest))
                &&& right_after == complete
            }
        }),
    decreases front.len(),
{
    let all = front.push(newest);
    let complete = complete_part(front, newest);
    let active = newest.id;
    if left.failure is None {
        if front.len() == 0 {
            assert(all.skip(1) =~= Seq::empty());
            if newest.bytes.len() >= 4 {
                assert(complete.skip(1) =~= Seq::empty());
            }
            if !(from matches Some(first) && active < first) {
                let offset_here = start_offset(from, offset, active);
                let (left_end, left_after) = run_segment(left, newest, true, offset_here, step);
                newest_segment_alike(left, right, newest, offset_here, step);
                assert(run_segments(left_end, all.skip(1), active, from, offset, step) == (
                    left_end,
                    Seq::<SegmentView>::empty(),
                ));
                assert(seq![left_after] + Seq::<SegmentView>::empty() =~= front.push(left_after));
                if newest.bytes.len() >= 4 {
                    let (right_end, right_after) = run_segment(
                        right,
                        settled(newest),
                        true,
                        offset_here,
                        step,
                    );
                    assert(run_segments(right_end, complete.skip(1), active, from, offset, step)
                        == (right_end, Seq::<SegmentView>::empty()));
                    assert(seq![right_after] + Seq::<SegmentView>::empty() =~= front.push(
                        right_after,
                    ));
                }
            } else {
                assert(run_segments(left, all.skip(1), active, from, offset, step) == (
                    left,
                    Seq::<SegmentView>::empty(),
                ));
                if newest.bytes.len() >= 4 {
                    assert(run_segments(right, complete.skip(1), active, from, offset, step) == (
                        right,
                        Seq::<SegmentView>::empty(),
                    ));
                }
            }
        } else {
            let rest = front.skip(1);
            assert(all.skip(1) =~= rest.push(newest));
            assert(complete.skip(1) =~= complete_part(rest, newest));
            assert(all[0] == front[0]);
            assert(complete[0] == front[0]);
            assert forall|i: int| 0 <= i < rest.len() implies (#[trigger] rest[i]).id != active by {
                assert(rest[i] == front[i + 1]);
            }
            assert(seq![front[0]] + rest.push(settled(newest)) =~= front.push(settled(newest)));
            assert(seq![front[0]] + complete_part(rest, newest) =~= complete);
            if from matches Some(first) && front[0].id < first {
                storage_alike(left, right, rest, newest, from, offset, step);
            } else {
                let offset_here = start_offset(from, offset, front[0].id);
                complete_segment_alike(left, right, front[0], offset_here, step);
                let left_next = run_segment(left, front[0], false, offset_here, step).0;
                let right_next = run_segment(right, front[0], false, offset_here, step).0;
                storage_alike(left_next, right_next, rest, newest, from, offset, step);
            }
        }
    }
}

/// Whether segments are in ascending order and the last of them takes appends.
pub open spec fn ends_with(segments: Seq<SegmentView>, active: u64) -> bool {
    &&& segments.len() > 0
    &&& segments.last().id == active
    &&& forall|i: int|
        0 <= i < segments.len() ==> (#[trigger] segments[i]).bytes.len() <= u64::MAX
    &&& forall|i: int, j: int|
        0 <= i < j < segments.len() ==> (#[trigger] segments[i]).id < (#[trigger] segments[j]).id
}

/// The complete part of a storage.
pub open spec fn complete_storage(segments: Seq<SegmentView>) -> Seq<SegmentView> {
    complete_part(segments.drop_last(), segments.last())
}

/// The complete part of a storage has all its records.
proof fn complete_storage_has_records(segments: Seq<SegmentView>)
    requires
        segments.len() > 0,
    ensures
        all_records(complete_storage(segments)) == all_records(segments),
{
    let front = segments.drop_last();
    let newest = segments.last();
    settled_once(newest);
    all_records_last(segments);
    if newest.bytes.len() < 4 {
        assert(segment_records(newest) =~= Seq::empty());
        assert(all_records(segments) =~= all_records(front));
    } else {
        let complete = front.push(settled(newest));
        all_records_last(complete);
        assert(complete.drop_last() =~= front);
    }
}

/// Where a record is, reading may start.
proof fn record_starts(segments: Seq<SegmentView>, active: u64, k: int)
    requires
        ends_with(segments, active),
        0 <= k < all_records(segments).len(),
    ensures
        ({
            let position = all_records(segments)[k].position;
            &&& position.segment.id <= active
            &&& position.segment.id == active ==> starts_at_record(
                segments.last(),
                position.offset,
            )
        }),
    decreases segments.len(),
{
    let front = segments.drop_last();
    let newest = segments.last();
    all_records_last(segments);
    let before = all_records(front);
    if k < before.len() {
        assert(front.len() > 0);
        assert(ends_with(front, front.last().id)) by {
            assert forall|i: int| 0 <= i < front.len() implies (
            #[trigger] front[i]).bytes.len() <= u64::MAX by {
                assert(front[i] == segments[i]);
            }
            assert forall|i: int, j: int| 0 <= i < j < front.len() implies (#[trigger] front[i]).id
                < (#[trigger] front[j]).id by {
                assert(front[i] == segments[i]);
                assert(front[j] == segments[j]);
            }
        }
        record_starts(front, front.last().id, k);
        assert(segments[front.len() - 1].id < segments[segments.len() - 1].id);
    } else {
        let i = k - before.len();
        let frames = frames_from(newest.bytes, 4).frames;
        assert(segments[segments.len() - 1].bytes.len() <= u64::MAX);
        assert(all_records(segments)[k] == segment_records(newest)[i]);
        assert(segment_records(newest)[i] == located(newest.id, frames[i]));
        assert(newest.bytes.len() >= 4);
        frames_bounded(newest.bytes, 4);
        assert(frames[i].offset <= u64::MAX);
    }
}

/// A run that succeeds over all segments has read them to their end.
pub(crate) proof fn successful_run_is_over_whole<A>(
    run: Run<A>,
    segments: Seq<SegmentView>,
    active: u64,
    step: Step<A>,
)
    requires
        run.failure is None,
        run_segments(run, segments, active, None, 4, step).0.failure is None,
    ensures
        forall|i: int|
            0 <= i < segments.len() ==> ((#[trigger] segments[i]).bytes.len() < 4
                && segments[i].id == active) || is_whole(settled(segments[i]).bytes),
        forall|i: int|
            0 <= i < segments.len() && (#[trigger] segments[i]).id != active ==> is_whole(
                segments[i].bytes,
            ),
    decreases segments.len(),
{
    if segments.len() > 0 {
        let first = segments[0];
        let rest = segments.skip(1);
        let (next, after) = run_segment(run, first, first.id == active, 4, step);
        assert(next.failure is None) by {
            if next.failure is Some {
                assert(run_segments(next, rest, active, None, 4, step).0 == next);
            }
        }
        successful_run_is_over_whole(next, rest, active, step);
        if first.bytes.len() >= 4 && frames_from(first.bytes, 4).ending is Partial {
            frames_settled(first.bytes, 4);
            assert(settled(first).bytes.take(4) =~= first.bytes.take(4));
        }
        assert forall|i: int| 0 <= i < segments.len() implies ((
        #[trigger] segments[i]).bytes.len() < 4 && segments[i].id == active) || is_whole(
            settled(segments[i]).bytes,
        ) by {
            if i > 0 {
                assert(segments[i] == rest[i - 1]);
            }
        }
        assert forall|i: int|
            0 <= i < segments.len() && (#[trigger] segments[i]).id != active implies is_whole(
            segments[i].bytes,
        ) by {
            if i > 0 {
                assert(segments[i] == rest[i - 1]);
            }
        }
    }
}

// ---------------------------------------------------------------------------------------
// Loads
// ---------------------------------------------------------------------------------------

proof fn steps_ignore_stats(
    nodes: Set<u64>,
    node: u64,
    checkpoint: Option<RecordPosition>,
    positions: Map<u64, RecordPosition>,
)
    ensures
        ignores_stats(checkpoint_step(nodes)),
        ignores_stats(node_step(node, checkpoint)),
        ignores_stats(replay_step(nodes, positions)),
{
}

/// Looking for checkpoints in a storage is like looking for them in its complete part.
proof fn checkpoint_run_alike(
    stats1: StorageStats,
    stats2: StorageStats,
    segments: Seq<SegmentView>,
    active: u64,
    nodes: Set<u64>,
    start: Option<RecordPosition>,
)
    requires
        ends_with(segments, active),
        start matches Some(position) ==> exists|k: int|
            0 <= k < all_records(segments).len() && (#[trigger] all_records(segments)[k]).position
                == position,
    ensures
        ({
            let complete = complete_storage(segments);
            let (left, left_after) = checkpoint_run(stats1, segments, active, nodes, start);
            let (right, right_after) = checkpoint_run(stats2, complete, active, nodes, start);
            &&& alike(left, right)
            &&& left.failure is None ==> {
                &&& left_after == segments.drop_last().push(settled(segments.last()))
                &&& right_after == complete
            }
        }),
{
    let front = segments.drop_last();
    let newest = segments.last();
    let left = Run { acc: Map::<u64, RecordPosition>::empty(), stats: stats1, failure: None };
    let right = Run { acc: Map::<u64, RecordPosition>::empty(), stats: stats2, failure: None };
    steps_ignore_stats(nodes, 0, None, Map::empty());
    front_is_older(segments, active);
    assert(front.push(newest) =~= segments);
    match start {
        None => {
            storage_alike(left, right, front, newest, None, 4, checkpoint_step(nodes));
        },
        Some(position) => {
            let k = choose|k: int|
                0 <= k < all_records(segments).len() && (
                #[trigger] all_records(segments)[k]).position == position;
            record_starts(segments, active, k);
            storage_alike(
                left,
                right,
                front,
                newest,
                Some(position.segment.id),
                position.offset,
                checkpoint_step(nodes),
            );
        },
    }
}

proof fn front_is_older(segments: Seq<SegmentView>, active: u64)
    requires
        ends_with(segments, active),
    ensures
        forall|i: int|
            0 <= i < segments.drop_last().len() ==> (#[trigger] segments.drop_last()[i]).id != active,
{
    let front = segments.drop_last();
    assert forall|i: int| 0 <= i < front.len() implies (#[trigger] front[i]).id != active by {
        assert(segments[i].id < segments[segments.len() - 1].id);
    }
}

/// A load of a node gives what it gives from the complete part of the storage.
proof fn load_from_complete_part(
    stats1: StorageStats,
    stats2: StorageStats,
    segments: Seq<SegmentView>,
    active: u64,
    node: u64,
    hint: Option<RecordPosition>,
)
    requires
        ends_with(segments, active),
        valid_hint(all_records(segments), node, hint),
    ensures
        run_result(node_run(stats1, segments, active, node, hint).0) == run_result(
            node_run(stats2, complete_storage(segments), active, node, hint).0,
        ),
{
    let front = segments.drop_last();
    let newest = segments.last();
    let complete = complete_storage(segments);
    checkpoint_run_alike(stats1, stats2, segments, active, set![node], hint);
    let (left, left_after) = checkpoint_run(stats1, segments, active, set![node], hint);
    let (right, right_after) = checkpoint_run(stats2, complete, active, set![node], hint);
    if left.failure is None {
        let checkpoint = if left.acc.contains_key(node) {
            Some(left.acc[node])
        } else {
            None
        };
        let from = match checkpoint {
            None => None::<u64>,
            Some(position) => Some(position.segment.id),
        };
        let left_start = Run { acc: default_state(), stats: left.stats, failure: left.failure };
        let right_start = Run { acc: default_state(), stats: right.stats, failure: right.failure };
        steps_ignore_stats(set![node], node, checkpoint, Map::empty());
        front_is_older(segments, active);
        settled_once(newest);
        storage_alike(
            left_start,
            right_start,
            front,
            settled(newest),
            from,
            4,
            node_step(node, checkpoint),
        );
    }
}

/// A load of many nodes gives what it gives from the complete part of the storage.
proof fn load_all_from_complete_part(
    stats1: StorageStats,
    stats2: StorageStats,
    segments: Seq<SegmentView>,
    active: u64,
    nodes: Set<u64>,
    hints: Option<Map<u64, RecordPosition>>,
    node: u64,
)
    requires
        ends_with(segments, active),
        valid_hints(all_records(segments), nodes, hints),
        nodes.contains(node),
    ensures
        run_result(storage_run(stats1, segments, active, nodes, hints).0) == run_result(
            storage_run(stats2, complete_storage(segments), active, nodes, hints).0,
        ),
{
    let all = all_records(segments);
    let front = segments.drop_last();
    let newest = segments.last();
    let complete = complete_storage(segments);
    if let Some(positions) = hints {
        oldest_position_sound(positions);
        assert(positions.contains_key(node));
        let start = oldest_hint(hints)->0;
        let owner = choose|owner: u64| positions.contains_key(owner) && positions[owner] == start;
        assert(valid_hint(all, owner, Some(positions[owner])));
        let k = choose|k: int|
            0 <= k < all.len() && (#[trigger] all[k]).position == start && is_checkpoint_of(
                all[k],
                owner,
            );
        assert(all[k].position == start);
    }
    checkpoint_run_alike(stats1, stats2, segments, active, nodes, oldest_hint(hints));
    let (left, left_after) = plan_run(stats1, segments, active, nodes, hints);
    let (right, right_after) = plan_run(stats2, complete, active, nodes, hints);
    assert(left.acc == right.acc && left.failure == right.failure);
    if left.failure is None {
        let left_start = Run {
            acc: Map::<u64, StateView>::empty(),
            stats: left.stats,
            failure: left.failure,
        };
        let right_start = Run {
            acc: Map::<u64, StateView>::empty(),
            stats: right.stats,
            failure: right.failure,
        };
        steps_ignore_stats(nodes, 0, None, left.acc.positions);
        front_is_older(segments, active);
        settled_once(newest);
        storage_alike(
            left_start,
            right_start,
            front,
            settled(newest),
            left.acc.from,
            4,
            replay_step(nodes, left.acc.positions),
        );
    }
}

/// Where a load from the beginning succeeds, the complete part of the storage is whole.
proof fn successful_load_is_from_whole(
    stats: StorageStats,
    segments: Seq<SegmentView>,
    active: u64,
    node: u64,
)
    requires
        ends_with(segments, active),
        run_result(node_run(stats, segments, active, node, None).0) is Ok,
    ensures
        whole_storage(complete_storage(segments)),
{
    let front = segments.drop_last();
    let newest = segments.last();
    let complete = complete_storage(segments);
    let run = Run { acc: Map::<u64, RecordPosition>::empty(), stats, failure: None };
    assert(checkpoint_run(stats, segments, active, set![node], None).0.failure is None);
    successful_run_is_over_whole(run, segments, active, checkpoint_step(set![node]));
    settled_once(newest);
    assert(segments[segments.len() - 1] == newest);
    assert forall|i: int| 0 <= i < complete.len() implies is_whole((#[trigger] complete[i]).bytes)
        && complete[i].bytes.len() <= u64::MAX by {
        if i < front.len() {
            assert(complete[i] == segments[i]);
            assert(segments[i].id < segments[segments.len() - 1].id);
        }
    }
    assert forall|i: int, j: int| 0 <= i < j < complete.len() implies (#[trigger] complete[i]).id < (
    #[trigger] complete[j]).id by {
        assert(complete[i].id == segments[i].id);
        assert(complete[j].id == segments[j].id);
    }
}

/// The checkpoint that a load starts at does not matter, be it the latest or an older one:
/// where a load from the beginning succeeds, one from a checkpoint on gives the same state.
/// The newest segment may have an incomplete end, and records of other nodes may be such as
/// cannot be decoded.
pub proof fn load_from_checkpoint_agrees(
    stats1: StorageStats,
    stats2: StorageStats,
    segments: Seq<SegmentView>,
    active: u64,
    node: u64,
    hint: Option<RecordPosition>,
)
    requires
        ends_with(segments, active),
        valid_hint(all_records(segments), node, hint),
        run_result(node_run(stats1, segments, active, node, None).0) is Ok,
    ensures
        run_result(node_run(stats2, segments, active, node, hint).0) == run_result(
            node_run(stats1, segments, active, node, None).0,
        ),
{
    let complete = complete_storage(segments);
    successful_load_is_from_whole(stats1, segments, active, node);
    complete_storage_has_records(segments);
    load_from_complete_part(stats1, stats1, segments, active, node, None);
    load_from_complete_part(stats2, stats2, segments, active, node, hint);
    hint_does_not_matter(stats2, stats1, complete, active, node, hint);
}

/// A load of many nodes that succeeds gives for each of them what a load of that node gives;
/// so it fails where one of these fails. And it succeeds where the loads of all of them from
/// the beginning do. The newest segment may have an incomplete end.
pub proof fn load_all_agrees_with_loads(
    stats1: StorageStats,
    stats2: StorageStats,
    segments: Seq<SegmentView>,
    active: u64,
    nodes: Set<u64>,
    hints: Option<Map<u64, RecordPosition>>,
    node: u64,
    hint: Option<RecordPosition>,
)
    requires
        ends_with(segments, active),
        whole_storage(complete_storage(segments)),
        valid_hints(all_records(segments), nodes, hints),
        valid_hint(all_records(segments), node, hint),
        hints matches Some(positions) ==> hint == Some(positions[node]),
        nodes.contains(node),
    ensures
        ({
            let result = run_result(storage_run(stats1, segments, active, nodes, hints).0);
            &&& result matches Ok(states) ==> run_result(
                node_run(stats2, segments, active, node, hint).0,
            ) == Ok::<StateView, StorageError>(state_of(states, node))
            &&& (forall|other: u64| #[trigger]
                nodes.contains(other) ==> run_result(
                    node_run(stats2, segments, active, other, None).0,
                ) is Ok) ==> result is Ok
        }),
{
    let complete = complete_storage(segments);
    complete_storage_has_records(segments);
    load_all_from_complete_part(stats1, stats1, segments, active, nodes, hints, node);
    load_from_complete_part(stats2, stats2, segments, active, node, hint);
    load_all_gives_what_load_gives(stats1, stats2, complete, active, nodes, hints, node, hint);
    if forall|other: u64| #[trigger]
        nodes.contains(other) ==> run_result(
            node_run(stats2, segments, active, other, None).0,
        ) is Ok {
        assert forall|other: u64| #[trigger] nodes.contains(other) implies run_result(
            node_run(stats2, complete, active, other, None).0,
        ) is Ok by {
            load_from_complete_part(stats2, stats2, segments, active, other, None);
        }
        load_all_gives_loaded_states(stats2, stats1, complete, active, nodes, hints, node);
    }
}

/// A load of all active nodes that succeeds gives for each of them what a load of that node
/// gives, whatever was counted between the two.
pub proof fn engine_load_all_agrees_with_loads(
    engine: EngineView,
    segments: Seq<SegmentView>,
    stats: StorageStats,
    node: u64,
)
    requires
        ends_with(segments, engine.active),
        whole_storage(complete_storage(segments)),
        forall|id: u64| #[trigger]
            engine.index.contains_key(id) ==> valid_hint(
                all_records(segments),
                id,
                Some(engine.index[id]),
            ),
        active_nodes(engine.registry).contains(node),
    ensures
        ({
            let nodes = active_nodes(engine.registry);
            let hints = if nodes.subset_of(engine.index.dom()) {
                Some(engine.index.restrict(nodes))
            } else {
                None
            };
            run_result(storage_run(stats, segments, engine.active, nodes, hints).0) matches Ok(
                states,
            ) ==> loaded(engine, segments, node) == Ok::<StateView, StorageError>(
                state_of(states, node),
            )
        }),
{
    let nodes = active_nodes(engine.registry);
    let hints = if nodes.subset_of(engine.index.dom()) {
        Some(engine.index.restrict(nodes))
    } else {
        None
    };
    let hint = position_in(engine.index, node);
    if let Some(positions) = hints {
        assert(positions.dom() =~= nodes);
        assert(engine.index.contains_key(node));
        assert forall|id: u64| #[trigger] positions.contains_key(id) implies valid_hint(
            all_records(segments),
            id,
            Some(positions[id]),
        ) by {
            assert(engine.index.contains_key(id));
        }
    }
    load_all_agrees_with_loads(
        stats,
        engine.stats,
        segments,
        engine.active,
        nodes,
        hints,
        node,
        hint,
    );
}

} // verus!
