//! Laws of reading: only what was written is read, and only storage that is intact is opened.

use vstd::prelude::*;

verus! {

use crate::checkpoint_index::{
    find_segment, loaded_index, parsed_index, position_check, positions_check, IndexView,
};
use crate::crc32c::crc32c_spec;
use crate::error::{ErrorKind, StorageError};
use crate::format::{
    append_within_limits, body_bytes, body_node_id, entry_within_limits, frame_bytes, le_bounds,
    le_bytes, le_bytes_len, le_value, le_value_bound, parse_append, parse_body, read_frame, storable,
};
use crate::frames::{check_run_changes_nothing, frame_round_trip, is_whole};
use crate::ordered::{ascending, ascending_sound};
use crate::raft::{ConfigView, EntryView, NodeId};
use crate::record::{AppendView, CheckpointView, RecordView};
use crate::recovery::{settled, successful_run_is_over_whole};
use crate::registry::{active_nodes, parsed_registry, RegistryView};
use crate::saving::{append_is_valid, payloads_match};
use crate::scan::{
    check_step, frames_from, header_check, run_frames, run_segment, run_segments, Ending, FrameAt,
    Run, SegmentView, Step,
};
use crate::segment::RecordPosition;
use crate::stats::StorageStats;
use crate::storage::{newest_segment, opened, SyncPolicy};
use crate::syncing::capped;

// ---------------------------------------------------------------------------------------
// Frames
// ---------------------------------------------------------------------------------------

/// Eight bytes stand for a 64-bit integer.
proof fn eight_bytes(bytes: Seq<u8>)
    requires
        bytes.len() == 8,
    ensures
        le_value(bytes) <= u64::MAX,
        le_bytes(le_value(bytes), 8) == bytes,
{
    bytes_of_value(bytes);
    le_value_bound(bytes);
    le_bounds();
}

/// Bytes are the byte form of the number that they stand for.
proof fn bytes_of_value(bytes: Seq<u8>)
    ensures
        le_bytes(le_value(bytes), bytes.len()) == bytes,
    decreases bytes.len(),
{
    if bytes.len() > 0 {
        let rest = bytes.skip(1);
        bytes_of_value(rest);
        let value = le_value(bytes);
        assert(value % 256 == bytes[0] && value / 256 == le_value(rest)) by (nonlinear_arith)
            requires
                value == bytes[0] as nat + 256 * le_value(rest),
                0 <= bytes[0] < 256,
        ;
        assert(le_bytes(value, bytes.len()) =~= bytes);
    } else {
        assert(le_bytes(le_value(bytes), 0) =~= bytes);
    }
}

/// A body is read exactly where its frame stands: its length in four bytes, its checksum in four
/// bytes, and the body itself, of at most one gibibyte.
pub proof fn only_frames_are_read(input: Seq<u8>, body: Seq<u8>)
    ensures
        read_frame(input) == Ok::<Option<Seq<u8>>, StorageError>(Some(body)) <==> {
            &&& body.len() <= 1_073_741_824
            &&& input.len() >= 8 + body.len()
            &&& input.take(4) == le_bytes(body.len(), 4)
            &&& input.subrange(4, 8) == le_bytes(crc32c_spec(body) as nat, 4)
            &&& input.subrange(8, 8 + body.len() as int) == body
        },
{
    if read_frame(input) == Ok::<Option<Seq<u8>>, StorageError>(Some(body)) {
        bytes_of_value(input.take(4));
        bytes_of_value(input.subrange(4, 8));
    }
    if body.len() <= 1_073_741_824 && input.len() >= 8 + body.len() && input.take(4) == le_bytes(
        body.len(),
        4,
    ) && input.subrange(4, 8) == le_bytes(crc32c_spec(body) as nat, 4) && input.subrange(
        8,
        8 + body.len() as int,
    ) == body {
        let rest = input.skip(8 + body.len() as int);
        le_bytes_len(body.len(), 4);
        le_bytes_len(crc32c_spec(body) as nat, 4);
        assert(input =~= frame_bytes(body) + rest) by {
            assert forall|i: int| 0 <= i < input.len() implies input[i] == (frame_bytes(body)
                + rest)[i] by {
                if i < 4 {
                    assert(input.take(4)[i] == input[i]);
                } else if i < 8 {
                    assert(input.subrange(4, 8)[i - 4] == input[i]);
                } else if i < 8 + body.len() {
                    assert(input.subrange(8, 8 + body.len() as int)[i - 8] == input[i]);
                }
            }
        }
        frame_round_trip(body, rest);
    }
}

/// What is read stands at the front as its frame.
proof fn read_frame_is_prefix(input: Seq<u8>, body: Seq<u8>)
    requires
        read_frame(input) == Ok::<Option<Seq<u8>>, StorageError>(Some(body)),
    ensures
        input.len() >= 8 + body.len(),
        input.take(8 + body.len() as int) == frame_bytes(body),
{
    only_frames_are_read(input, body);
    le_bytes_len(body.len(), 4);
    le_bytes_len(crc32c_spec(body) as nat, 4);
    let here = input.take(8 + body.len() as int);
    assert(here =~= input.take(4) + input.subrange(4, 8) + input.subrange(
        8,
        8 + body.len() as int,
    ));
}

/// A frame whose body has another checksum than it says is an error, and so is one that says to be
/// longer than a gibibyte; where bytes are missing there is neither a frame nor an error.
pub proof fn bad_frames_are_told_apart(input: Seq<u8>)
    ensures
        ({
            let len = le_value(input.take(4));
            let result = read_frame(input);
            &&& result == Ok::<Option<Seq<u8>>, StorageError>(None) <==> input.len() < 4 || (len
                <= 1_073_741_824 && input.len() < 8 + len)
            &&& result == Err::<Option<Seq<u8>>, StorageError>(StorageError::SegmentRecordTooLarge)
                <==> input.len() >= 4 && len > 1_073_741_824
            &&& result == Err::<Option<Seq<u8>>, StorageError>(StorageError::ChecksumMismatch)
                <==> input.len() >= 8 + len && len <= 1_073_741_824 && crc32c_spec(
                input.subrange(8, 8 + len as int),
            ) != le_value(input.subrange(4, 8))
            &&& result is Err ==> result->Err_0 == StorageError::SegmentRecordTooLarge
                || result->Err_0 == StorageError::ChecksumMismatch
        }),
{
}

/// Frames one behind the other.
pub open spec fn joined(bodies: Seq<Seq<u8>>) -> Seq<u8>
    decreases bodies.len(),
{
    if bodies.len() == 0 {
        Seq::empty()
    } else {
        frame_bytes(bodies[0]) + joined(bodies.skip(1))
    }
}

/// The bodies of frames.
pub open spec fn bodies_of(frames: Seq<FrameAt>) -> Seq<Seq<u8>> {
    frames.map_values(|frame: FrameAt| frame.body)
}

proof fn joined_front(body: Seq<u8>, bodies: Seq<Seq<u8>>)
    ensures
        joined(seq![body] + bodies) == frame_bytes(body) + joined(bodies),
{
    let all = seq![body] + bodies;
    assert(all.skip(1) =~= bodies);
    assert(all[0] == body);
}

/// The first frame of a segment, and the others.
proof fn first_frame(bytes: Seq<u8>, offset: nat, body: Seq<u8>)
    requires
        offset <= bytes.len(),
        read_frame(bytes.skip(offset as int)) == Ok::<Option<Seq<u8>>, StorageError>(Some(body)),
    ensures
        ({
            let next = offset + 8 + body.len();
            let found = frames_from(bytes, offset);
            let rest = frames_from(bytes, next);
            &&& next <= bytes.len()
            &&& bytes.subrange(offset as int, next as int) == frame_bytes(body)
            &&& bodies_of(found.frames) == seq![body] + bodies_of(rest.frames)
            &&& found.end == rest.end
            &&& found.ending == rest.ending
        }),
{
    let input = bytes.skip(offset as int);
    let next = offset + 8 + body.len();
    let found = frames_from(bytes, offset);
    let rest = frames_from(bytes, next);
    read_frame_is_prefix(input, body);
    assert(bytes.subrange(offset as int, next as int) =~= input.take(8 + body.len() as int));
    assert(found.frames == seq![FrameAt { offset, body }] + rest.frames);
    assert(bodies_of(found.frames) =~= seq![body] + bodies_of(rest.frames));
}

/// The frames that are read from a segment are those that stand there one behind the other, up to
/// where they end.
pub proof fn frames_stand_in_segment(bytes: Seq<u8>, offset: nat)
    requires
        offset <= bytes.len(),
    ensures
        ({
            let found = frames_from(bytes, offset);
            &&& offset <= found.end <= bytes.len()
            &&& bytes.subrange(offset as int, found.end as int) == joined(bodies_of(found.frames))
            &&& found.ending is Complete <==> found.end == bytes.len()
        }),
    decreases bytes.len() - offset,
{
    let found = frames_from(bytes, offset);
    let input = bytes.skip(offset as int);
    match read_frame(input) {
        Ok(Some(body)) => {
            first_frame(bytes, offset, body);
            let next = offset + 8 + body.len();
            frames_stand_in_segment(bytes, next);
            joined_front(body, bodies_of(frames_from(bytes, next).frames));
            assert(bytes.subrange(offset as int, found.end as int) =~= bytes.subrange(
                offset as int,
                next as int,
            ) + bytes.subrange(next as int, found.end as int));
        },
        _ => {
            no_frame(bytes, offset);
        },
    }
}

proof fn no_frame(bytes: Seq<u8>, offset: nat)
    requires
        offset <= bytes.len(),
        !(read_frame(bytes.skip(offset as int)) matches Ok(Some(_))),
    ensures
        ({
            let found = frames_from(bytes, offset);
            &&& found.end == offset
            &&& bytes.subrange(offset as int, found.end as int) == joined(bodies_of(found.frames))
            &&& found.ending is Complete <==> found.end == bytes.len()
        }),
{
    let found = frames_from(bytes, offset);
    assert(found.frames =~= Seq::empty());
    assert(bodies_of(found.frames) =~= Seq::empty());
    assert(bytes.subrange(offset as int, offset as int) =~= Seq::empty());
    if offset == bytes.len() {
        assert(bytes.skip(offset as int).len() == 0);
    }
}

/// A whole segment is its header and frames one behind the other.
pub proof fn whole_segments_are_frames(bytes: Seq<u8>)
    ensures
        is_whole(bytes) ==> {
            &&& bytes.len() >= 4
            &&& bytes.take(4) == seq![0x53u8, 0x4Bu8, 0x52u8, 0x31u8]
            &&& bytes.skip(4) == joined(bodies_of(frames_from(bytes, 4).frames))
        },
{
    if is_whole(bytes) {
        frames_stand_in_segment(bytes, 4);
        assert(bytes.skip(4) =~= bytes.subrange(4, bytes.len() as int));
        assert(bytes.take(4) =~= seq![0x53u8, 0x4Bu8, 0x52u8, 0x31u8]);
    }
}

// ---------------------------------------------------------------------------------------
// Bodies
// ---------------------------------------------------------------------------------------

/// The byte that tells what a record is.
pub open spec fn tag_of(record: RecordView) -> u8 {
    match record {
        RecordView::CurrentTerm(_) => 0,
        RecordView::VotedFor(_) => 1,
        RecordView::Append(_) => 2,
        RecordView::SnapshotCheckpoint(_) => 3,
    }
}

/// The body of a record starts with the node ID in eight bytes and the tag of the record.
pub proof fn bodies_start_with_node_and_tag(node: NodeId, record: RecordView)
    ensures
        body_bytes(node, record).len() >= 9,
        body_bytes(node, record).take(8) == le_bytes(node.0 as nat, 8),
        body_bytes(node, record)[8] == tag_of(record),
{
    le_bytes_len(node.0 as nat, 8);
    assert(body_bytes(node, record).take(8) =~= le_bytes(node.0 as nat, 8));
}

/// What is read from a body belongs to the node in its first eight bytes, and is what its tag
/// says; the bodies of terms and votes are read only in their exact byte form.
pub proof fn bodies_are_read_as_written(body: Seq<u8>)
    requires
        parse_body(body) is Ok,
    ensures
        ({
            let read = parse_body(body)->Ok_0;
            &&& body.len() >= 9
            &&& body.take(8) == le_bytes(read.node_id.0 as nat, 8)
            &&& body_node_id(body) == Ok::<NodeId, StorageError>(read.node_id)
            &&& body[8] == tag_of(read.record)
            &&& read.record is CurrentTerm || read.record is VotedFor ==> body == body_bytes(
                read.node_id,
                read.record,
            )
        }),
{
    reveal(parse_append);
    let read = parse_body(body)->Ok_0;
    eight_bytes(body.take(8));
    let rest = body.skip(8).skip(1);
    assert(body.skip(8).take(1)[0] == body[8]);
    match read.record {
        RecordView::CurrentTerm(term) => {
            eight_bytes(rest.take(8));
            assert(rest.take(8) =~= rest);
            assert(body =~= body.take(8) + seq![0u8] + rest);
            assert(body =~= body_bytes(read.node_id, read.record));
        },
        RecordView::VotedFor(vote) => {
            let tail = rest.skip(1);
            assert(rest.take(1)[0] == rest[0]);
            if vote is Some {
                eight_bytes(tail.take(8));
                assert(tail.take(8) =~= tail);
            }
            assert(body =~= body.take(8) + seq![1u8] + seq![rest[0]] + tail);
            assert(body =~= body_bytes(read.node_id, read.record));
        },
        _ => {},
    }
}

// ---------------------------------------------------------------------------------------
// Limits
// ---------------------------------------------------------------------------------------

/// Whether a configuration has at most a million nodes of each role.
pub open spec fn config_is_small(config: ConfigView) -> bool {
    config.voters.len() <= 1_000_000 && config.new_voters.len() <= 1_000_000
        && config.non_voters.len() <= 1_000_000
}

/// Whether an append has at most a million entries and payloads, no payload is longer than a
/// gibibyte, and configurations are small.
pub open spec fn append_is_small(append: AppendView) -> bool {
    &&& append.entries.seq.len() <= 1_000_000
    &&& append.payloads.dom().len() <= 1_000_000
    &&& forall|i: int|
        0 <= i < append.entries.seq.len() ==> ((
        #[trigger] append.entries.seq[i]) matches EntryView::ClusterConfig(config)
            ==> config_is_small(config))
    &&& forall|index: u64| #[trigger]
        append.payloads.contains_key(index) ==> append.payloads[index].bytes.len() <= 1_073_741_824
}

/// An append can be stored exactly when its payloads match its entries, it is within the limits on
/// counts, and its body is not longer than a gibibyte.
pub proof fn small_appends_are_storable(node: NodeId, append: AppendView)
    ensures
        storable(node, RecordView::Append(append)) <==> {
            &&& append.entries.prev.index.0 + append.entries.seq.len() <= u64::MAX
            &&& payloads_match(append)
            &&& append_is_small(append)
            &&& body_bytes(node, RecordView::Append(append)).len() <= 1_073_741_824
        },
{
    append_is_valid(append);
    append_limits(append);
}

proof fn append_limits(append: AppendView)
    ensures
        append_within_limits(append) <==> append.validation() is Ok
            && append_is_small(append),
{
    let entries = append.entries.seq;
    if append_is_small(append) {
        assert forall|i: int| 0 <= i < entries.len() implies entry_within_limits(
            #[trigger] entries[i],
        ) by {}
    }
    if append_within_limits(append) {
        assert forall|i: int| 0 <= i < entries.len() implies ((
        #[trigger] entries[i]) matches EntryView::ClusterConfig(config) ==> config_is_small(config)) by {
            assert(entry_within_limits(entries[i]));
        }
    }
}

/// A checkpoint can be stored exactly when its suffix starts at the snapshot and has matching
/// payloads, all counts are within the limits, and its body is not longer than a gibibyte.
pub proof fn small_checkpoints_are_storable(node: NodeId, checkpoint: CheckpointView)
    ensures
        storable(node, RecordView::SnapshotCheckpoint(checkpoint)) <==> {
            let suffix = checkpoint.suffix;
            &&& suffix.entries.prev == checkpoint.snapshot.last_included
            &&& suffix.entries.prev.index.0 + suffix.entries.seq.len() <= u64::MAX
            &&& payloads_match(suffix)
            &&& append_is_small(suffix)
            &&& config_is_small(checkpoint.snapshot.config)
            &&& checkpoint.snapshot.data.len() <= 1_073_741_824
            &&& body_bytes(node, RecordView::SnapshotCheckpoint(checkpoint)).len() <= 1_073_741_824
        },
{
    append_is_valid(checkpoint.suffix);
    append_limits(checkpoint.suffix);
}

// ---------------------------------------------------------------------------------------
// Opening
// ---------------------------------------------------------------------------------------

/// Whether a position has the frame of a checkpoint of the node.
pub open spec fn has_checkpoint(
    segments: Seq<SegmentView>,
    node: u64,
    position: RecordPosition,
) -> bool {
    exists|i: int, body: Seq<u8>|
        {
            &&& 0 <= i < segments.len()
            &&& (#[trigger] segments[i]).id == position.segment.id
            &&& 4 <= position.offset <= segments[i].bytes.len()
            &&& read_frame(segments[i].bytes.skip(position.offset as int)) == Ok::<
                Option<Seq<u8>>,
                StorageError,
            >(Some(body))
            &&& #[trigger] parse_body(body) is Ok
            &&& parse_body(body)->Ok_0.node_id.0 == node
            &&& parse_body(body)->Ok_0.record is SnapshotCheckpoint
        }
}

proof fn found_segment(segments: Seq<SegmentView>, id: u64) -> (i: int)
    requires
        find_segment(segments, id) is Some,
    ensures
        0 <= i < segments.len(),
        segments[i].id == id,
        find_segment(segments, id) == Some(segments[i].bytes),
    decreases segments.len(),
{
    if segments[0].id == id {
        0
    } else {
        let i = found_segment(segments.skip(1), id);
        assert(segments.skip(1)[i] == segments[i + 1]);
        i + 1
    }
}

/// A position is accepted only where the frame of a checkpoint of the node is.
pub proof fn accepted_positions_have_checkpoints(
    segments: Seq<SegmentView>,
    node: u64,
    position: RecordPosition,
)
    requires
        position_check(segments, node, position) is Ok,
    ensures
        has_checkpoint(segments, node, position),
{
    let i = found_segment(segments, position.segment.id);
    let body = read_frame(segments[i].bytes.skip(position.offset as int))->Ok_0->0;
    assert(segments[i].id == position.segment.id);
    assert(parse_body(body) is Ok);
}

proof fn all_positions_pass(segments: Seq<SegmentView>, ids: Seq<u64>, index: IndexView, i: int)
    requires
        positions_check(segments, ids, index) is Ok,
        0 <= i < ids.len(),
    ensures
        position_check(segments, ids[i], index[ids[i]]) is Ok,
    decreases ids.len(),
{
    if i > 0 {
        all_positions_pass(segments, ids.skip(1), index, i - 1);
        assert(ids.skip(1)[i - 1] == ids[i]);
    }
}

/// A checkpoint index that is read has the entries of its file for the active nodes and no others,
/// and each of them points to a checkpoint of its node. Without a file it is empty.
pub proof fn read_index_points_to_checkpoints(
    text: Option<Seq<char>>,
    active: Set<u64>,
    segments: Seq<SegmentView>,
    node: u64,
)
    requires
        loaded_index(text, active, segments) is Ok,
    ensures
        ({
            let index = loaded_index(text, active, segments)->Ok_0;
            &&& text is None ==> !index.contains_key(node)
            &&& text matches Some(text) ==> parsed_index(text) is Ok && (index.contains_key(node)
                <==> parsed_index(text)->Ok_0.contains_key(node) && active.contains(node))
            &&& index.contains_key(node) ==> {
                &&& index[node] == parsed_index(text->0)->Ok_0[node]
                &&& has_checkpoint(segments, node, index[node])
            }
        }),
{
    let index = loaded_index(text, active, segments)->Ok_0;
    if index.contains_key(node) {
        let ids = ascending(index.dom());
        ascending_sound(index.dom());
        assert(ids.to_set().contains(node));
        let i = choose|i: int| 0 <= i < ids.len() && ids[i] == node;
        all_positions_pass(segments, ids, index, i);
        accepted_positions_have_checkpoints(segments, node, index[node]);
    }
}

/// The newest segment has the largest number.
pub proof fn newest_segment_is_largest(segments: Seq<SegmentView>)
    ensures
        forall|i: int|
            0 <= i < segments.len() ==> (#[trigger] segments[i]).id <= newest_segment(segments),
        segments.len() > 0 ==> exists|i: int|
            0 <= i < segments.len() && (#[trigger] segments[i]).id == newest_segment(segments),
        segments.len() == 0 ==> newest_segment(segments) == 0,
    decreases segments.len(),
{
    if segments.len() > 0 {
        let front = segments.drop_last();
        newest_segment_is_largest(front);
        assert(segments[segments.len() - 1] == segments.last());
        assert forall|i: int| 0 <= i < segments.len() implies (#[trigger] segments[i]).id
            <= newest_segment(segments) by {
            if i < front.len() {
                assert(front[i] == segments[i]);
            }
        }
        if newest_segment(segments) != segments.last().id {
            if front.len() > 0 {
                let i = choose|i: int|
                    0 <= i < front.len() && (#[trigger] front[i]).id == newest_segment(front);
                assert(segments[i] == front[i]);
            }
        }
    }
}

/// Whether a segment has an incomplete end.
pub open spec fn is_torn(segment: SegmentView) -> bool {
    if segment.bytes.len() < 4 {
        segment.bytes.len() > 0
    } else {
        frames_from(segment.bytes, 4).ending is Partial
    }
}

/// How many of the segments with the number have an incomplete end.
pub open spec fn torn_count(segments: Seq<SegmentView>, active: u64) -> nat
    decreases segments.len(),
{
    if segments.len() == 0 {
        0
    } else {
        let rest = torn_count(segments.skip(1), active);
        if segments[0].id == active && is_torn(segments[0]) {
            rest + 1
        } else {
            rest
        }
    }
}

/// A check of segments that succeeds cuts off incomplete ends of the active segment, counts them,
/// and changes nothing else.
pub proof fn check_cuts_incomplete_ends(run: Run<()>, segments: Seq<SegmentView>, active: u64)
    requires
        run.failure is None,
        run_segments(run, segments, active, None, 4, check_step()).0.failure is None,
    ensures
        ({
            let (end, after) = run_segments(run, segments, active, None, 4, check_step());
            &&& after.len() == segments.len()
            &&& forall|i: int|
                0 <= i < segments.len() ==> (#[trigger] after[i]) == (if segments[i].id == active {
                    settled(segments[i])
                } else {
                    segments[i]
                })
            &&& end.stats.replay_truncations == capped(
                run.stats.replay_truncations + torn_count(segments, active),
            )
            &&& (StorageStats { replay_truncations: run.stats.replay_truncations, ..end.stats })
                == run.stats
        }),
    decreases segments.len(),
{
    if segments.len() > 0 {
        let first = segments[0];
        let rest = segments.skip(1);
        let (next, kept) = run_segment(run, first, first.id == active, 4, check_step());
        assert(next.failure is None) by {
            if next.failure is Some {
                assert(run_segments(next, rest, active, None, 4, check_step()).0 == next);
            }
        }
        check_run_changes_nothing(run, first.id, frames_from(first.bytes, 4).frames);
        check_cuts_incomplete_ends(next, rest, active);
        if first.id == active && first.bytes.len() == 0 {
            assert(settled(first) =~= first);
        }
        assert(kept == (if first.id == active {
            settled(first)
        } else {
            first
        }));
        let (end, behind) = run_segments(next, rest, active, None, 4, check_step());
        let after = run_segments(run, segments, active, None, 4, check_step()).1;
        assert(after == seq![kept] + behind);
        assert forall|i: int| 0 <= i < segments.len() implies (#[trigger] after[i]) == (
        if segments[i].id == active {
            settled(segments[i])
        } else {
            segments[i]
        }) by {
            if i > 0 {
                assert(after[i] == behind[i - 1]);
                assert(rest[i - 1] == segments[i]);
            }
        }
    }
}

/// Storage that opens is intact: the active segment is the newest, all others are a header and
/// frames one behind the other, and so is the active one up to an incomplete end. The registry is
/// that of its file, and the index has checkpoints of active nodes.
pub proof fn opened_storage_is_intact(
    sync: SyncPolicy,
    max_segment_len: u64,
    segments: Seq<SegmentView>,
    nodes_text: Option<Seq<char>>,
    checkpoints_text: Option<Seq<char>>,
    i: int,
    node: u64,
)
    requires
        opened(sync, max_segment_len, segments, nodes_text, checkpoints_text).0 is Ok,
        0 <= i < segments.len(),
    ensures
        ({
            let engine = opened(
                sync,
                max_segment_len,
                segments,
                nodes_text,
                checkpoints_text,
            ).0->Ok_0;
            &&& max_segment_len > 0
            &&& engine.max_segment_len == max_segment_len
            &&& engine.sync == sync
            &&& segments[i].id <= engine.active
            &&& segments[i].id != engine.active ==> is_whole(segments[i].bytes)
            &&& segments[i].id == engine.active && segments[i].bytes.len() >= 4 ==> is_whole(
                settled(segments[i]).bytes,
            )
            &&& nodes_text is None ==> !engine.registry.contains_key(node)
            &&& nodes_text matches Some(text) ==> parsed_registry(text) == Ok::<
                RegistryView,
                StorageError,
            >(engine.registry)
            &&& engine.index.contains_key(node) ==> {
                &&& engine.registry.contains_key(node)
                &&& !engine.registry[node].removed
                &&& checkpoints_text is Some
            }
            &&& engine.stats.replay_truncations == capped(
                torn_count(segments, engine.active) as int,
            )
            &&& engine.stats.checksum_failures == 0
            &&& engine.stats.nodes_created == 0
            &&& engine.stats.unsynced_records == 0
            &&& engine.stats.unsynced_bytes == 0
            &&& engine.stats.active_append_segment_id == engine.active
            &&& engine.stats.active_append_segment_len_bytes == engine.segment_len
        }),
{
    let start = Run { acc: (), stats: StorageStats::zero(), failure: None };
    let active = newest_segment(segments);
    let engine = opened(
        sync,
        max_segment_len,
        segments,
        nodes_text,
        checkpoints_text,
    ).0->Ok_0;
    let recovered = run_segments(start, segments, active, None, 4, check_step()).1;
    newest_segment_is_largest(segments);
    successful_run_is_over_whole(start, segments, active, check_step());
    check_cuts_incomplete_ends(start, segments, active);
    read_index_points_to_checkpoints(
        checkpoints_text,
        active_nodes(engine.registry),
        recovered,
        node,
    );
}

// ---------------------------------------------------------------------------------------
// Counting of faults
// ---------------------------------------------------------------------------------------

/// Reading a segment counts a wrong checksum that ends it, and an incomplete end that it cuts off.
pub proof fn faults_are_counted<A>(
    run: Run<A>,
    segment: SegmentView,
    allow_partial: bool,
    step: Step<A>,
)
    requires
        run.failure is None,
        header_check(segment.bytes, allow_partial) == Ok::<bool, StorageError>(true),
    ensures
        ({
            let frames = frames_from(segment.bytes, 4);
            let before = run_frames(run, segment.id, frames.frames, step);
            let (end, after) = run_segment(run, segment, allow_partial, 4, step);
            before.failure is None ==> {
                &&& end.acc == before.acc
                &&& frames.ending matches Ending::Failed(error) ==> {
                    &&& end.failure == Some(error)
                    &&& after == segment
                    &&& end.stats.checksum_failures == capped(
                        before.stats.checksum_failures + if error
                            == StorageError::ChecksumMismatch {
                            1int
                        } else {
                            0int
                        },
                    )
                }
                &&& frames.ending is Partial ==> if allow_partial {
                    &&& end.failure is None
                    &&& after.bytes == segment.bytes.take(frames.end as int)
                    &&& end.stats.replay_truncations == capped(before.stats.replay_truncations + 1)
                    &&& end.stats.checksum_failures == before.stats.checksum_failures
                } else {
                    &&& end.failure == Some(StorageError::PartialRecord)
                    &&& after == segment
                    &&& end.stats == before.stats
                }
                &&& frames.ending is Complete ==> end == before && after == segment
            }
        }),
{
}

/// Only a node that is not active is not found, and only a used node ID exists already; what cannot
/// be written is invalid input, and everything else is about data that was read.
pub proof fn kinds_tell_whose_fault_it_is(error: StorageError)
    ensures
        error.spec_kind() == ErrorKind::NotFound <==> error == StorageError::NodeNotFound || error
            == StorageError::NodeRemoved,
        error.spec_kind() == ErrorKind::AlreadyExists <==> error == StorageError::NodeAlreadyExists,
        error.spec_kind() == ErrorKind::InvalidInput <==> {
            ||| error == StorageError::RecordTooLarge
            ||| error == StorageError::ByteSliceTooLarge
            ||| error == StorageError::TooManyCommandPayloads
            ||| error == StorageError::TooManyLogEntries
            ||| error == StorageError::TooManyNodeIds
            ||| error == StorageError::MissingCommandPayload
            ||| error == StorageError::UnmatchedCommandPayload
            ||| error == StorageError::CheckpointSuffixGap
            ||| error == StorageError::ZeroMaxSegmentLen
        },
{
}

} // verus!
