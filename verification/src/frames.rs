//! Laws of record frames and of the segments that hold them.

use vstd::prelude::*;

verus! {

use crate::crc32c::crc32c_spec;
use crate::error::StorageError;
use crate::format::{
    frame_bytes, le_bounds, le_bytes, le_round_trip, read_frame, MAX_RECORD_BODY_LEN,
};
use crate::scan::{
    check_step, frames_from, header_check, run_frames, run_segment, FrameAt, Run, SegmentView,
};

/// A frame starts with eight bytes of header, and its length field and checksum field read
/// back.
proof fn frame_layout(body: Seq<u8>)
    requires
        body.len() <= MAX_RECORD_BODY_LEN,
    ensures
        frame_bytes(body).len() == 8 + body.len(),
        frame_bytes(body).take(4) == le_bytes(body.len(), 4),
        frame_bytes(body).subrange(4, 8) == le_bytes(crc32c_spec(body) as nat, 4),
        frame_bytes(body).skip(8) == body,
        crate::format::le_value(le_bytes(body.len(), 4)) == body.len(),
        crate::format::le_value(le_bytes(crc32c_spec(body) as nat, 4)) == crc32c_spec(body),
{
    le_bounds();
    le_round_trip(body.len(), 4);
    le_round_trip(crc32c_spec(body) as nat, 4);
    assert(frame_bytes(body).take(4) =~= le_bytes(body.len(), 4));
    assert(frame_bytes(body).subrange(4, 8) =~= le_bytes(crc32c_spec(body) as nat, 4));
    assert(frame_bytes(body).skip(8) =~= body);
}

/// Reading a frame gives its body back, whatever follows the frame.
pub proof fn frame_round_trip(body: Seq<u8>, rest: Seq<u8>)
    requires
        body.len() <= MAX_RECORD_BODY_LEN,
    ensures
        read_frame(frame_bytes(body) + rest) == Ok::<Option<Seq<u8>>, StorageError>(Some(body)),
{
    let input = frame_bytes(body) + rest;
    frame_layout(body);
    assert(input.take(4) =~= frame_bytes(body).take(4));
    assert(input.subrange(4, 8) =~= frame_bytes(body).subrange(4, 8));
    assert(input.subrange(8, 8 + body.len() as int) =~= body);
}

/// A frame that was not written to its end is no frame and no error.
pub proof fn torn_frame(body: Seq<u8>, written: int)
    requires
        body.len() <= MAX_RECORD_BODY_LEN,
        0 <= written < frame_bytes(body).len(),
    ensures
        read_frame(frame_bytes(body).take(written)) == Ok::<Option<Seq<u8>>, StorageError>(None),
{
    let input = frame_bytes(body).take(written);
    frame_layout(body);
    if written >= 4 {
        assert(input.take(4) =~= frame_bytes(body).take(4));
    }
}

/// Whatever a frame read depends on stays the same when more bytes follow, once the frame is
/// complete or is an error.
proof fn read_frame_prefix(input: Seq<u8>, rest: Seq<u8>)
    requires
        read_frame(input) != Ok::<Option<Seq<u8>>, StorageError>(None),
    ensures
        read_frame(input + rest) == read_frame(input),
{
    let longer = input + rest;
    assert(longer.take(4) =~= input.take(4));
    let body_len = crate::format::le_value(input.take(4));
    if body_len <= MAX_RECORD_BODY_LEN {
        assert(longer.subrange(8, 8 + body_len as int) =~= input.subrange(8, 8 + body_len as int));
        assert(longer.subrange(4, 8) =~= input.subrange(4, 8));
    }
}

/// A complete frame is inside its input.
pub proof fn complete_frame_fits(input: Seq<u8>)
    ensures
        read_frame(input) matches Ok(Some(body)) ==> 8 + body.len() <= input.len() && body.len()
            <= MAX_RECORD_BODY_LEN,
{
}

/// The frames of a segment lie one behind the other, and end inside it.
pub proof fn frames_bounded(bytes: Seq<u8>, offset: nat)
    requires
        offset <= bytes.len(),
    ensures
        offset <= frames_from(bytes, offset).end <= bytes.len(),
        frames_from(bytes, offset).ending is Complete ==> frames_from(bytes, offset).end == bytes.len(),
        forall|i: int|
            0 <= i < frames_from(bytes, offset).frames.len() ==> offset <= (
            #[trigger] frames_from(bytes, offset).frames[i]).offset < bytes.len(),
        forall|i: int, j: int|
            0 <= i < j < frames_from(bytes, offset).frames.len() ==> (
            #[trigger] frames_from(bytes, offset).frames[i]).offset < (
            #[trigger] frames_from(bytes, offset).frames[j]).offset,
    decreases bytes.len() - offset,
{
    let all = frames_from(bytes, offset);
    if let Ok(Some(body)) = read_frame(bytes.skip(offset as int)) {
        complete_frame_fits(bytes.skip(offset as int));
        let next = offset + 8 + body.len();
        let rest = frames_from(bytes, next);
        frames_bounded(bytes, next);
        assert(all.frames =~= seq![FrameAt { offset, body }] + rest.frames);
        assert forall|i: int| 0 <= i < all.frames.len() implies offset <= (
        #[trigger] all.frames[i]).offset < bytes.len() by {
            if i > 0 {
                assert(all.frames[i] == rest.frames[i - 1]);
            }
        }
        assert forall|i: int, j: int| 0 <= i < j < all.frames.len() implies (
        #[trigger] all.frames[i]).offset < (#[trigger] all.frames[j]).offset by {
            assert(all.frames[j] == rest.frames[j - 1]);
            if i > 0 {
                assert(all.frames[i] == rest.frames[i - 1]);
            }
        }
    }
}

/// Appending a frame to a segment that ends with a complete frame adds that frame.
pub proof fn frames_append(bytes: Seq<u8>, offset: nat, body: Seq<u8>)
    requires
        offset <= bytes.len(),
        frames_from(bytes, offset).ending is Complete,
        body.len() <= MAX_RECORD_BODY_LEN,
    ensures
        ({
            let before = frames_from(bytes, offset);
            let after = frames_from(bytes + frame_bytes(body), offset);
            &&& after.frames == before.frames.push(FrameAt { offset: bytes.len(), body })
            &&& after.ending is Complete
        }),
    decreases bytes.len() - offset,
{
    let longer = bytes + frame_bytes(body);
    frame_layout(body);
    if offset == bytes.len() {
        assert(longer.skip(offset as int) =~= frame_bytes(body) + Seq::empty());
        frame_round_trip(body, Seq::empty());
        let end = offset + 8 + body.len();
        assert(longer.skip(end as int) =~= Seq::empty());
        assert(bytes.skip(offset as int) =~= Seq::empty());
        assert(frames_from(longer, end).frames =~= Seq::empty());
        assert(frames_from(longer, offset).frames =~= frames_from(bytes, offset).frames.push(
            FrameAt { offset: bytes.len(), body },
        ));
    } else {
        let input = bytes.skip(offset as int);
        assert(longer.skip(offset as int) =~= input + frame_bytes(body));
        match read_frame(input) {
            Ok(Some(first)) => {
                complete_frame_fits(input);
                read_frame_prefix(input, frame_bytes(body));
                let next = offset + 8 + first.len();
                frames_append(bytes, next, body);
                assert(frames_from(longer, offset).frames =~= frames_from(bytes, offset).frames.push(
                    FrameAt { offset: bytes.len(), body },
                ));
            },
            _ => {},
        }
    }
}

/// A frame that was not written to its end leaves the frames before it as they were.
pub proof fn frames_torn(bytes: Seq<u8>, offset: nat, body: Seq<u8>, written: int)
    requires
        offset <= bytes.len(),
        frames_from(bytes, offset).ending is Complete,
        body.len() <= MAX_RECORD_BODY_LEN,
        0 < written < frame_bytes(body).len(),
    ensures
        ({
            let before = frames_from(bytes, offset);
            let after = frames_from(bytes + frame_bytes(body).take(written), offset);
            &&& after.frames == before.frames
            &&& after.ending is Partial
            &&& after.end == bytes.len()
        }),
    decreases bytes.len() - offset,
{
    let tail = frame_bytes(body).take(written);
    let longer = bytes + tail;
    if offset == bytes.len() {
        assert(longer.skip(offset as int) =~= tail);
        torn_frame(body, written);
        assert(bytes.skip(offset as int) =~= Seq::empty());
    } else {
        let input = bytes.skip(offset as int);
        assert(longer.skip(offset as int) =~= input + tail);
        match read_frame(input) {
            Ok(Some(first)) => {
                complete_frame_fits(input);
                read_frame_prefix(input, tail);
                frames_torn(bytes, offset + 8 + first.len(), body, written);
            },
            _ => {},
        }
    }
}

/// Whether every record of a segment was written to its end.
pub open spec fn is_whole(bytes: Seq<u8>) -> bool {
    &&& header_check(bytes, false) == Ok::<bool, StorageError>(true)
    &&& frames_from(bytes, 4).ending is Complete
}

/// A segment with nothing but its header is whole.
pub proof fn header_is_whole()
    ensures
        is_whole(crate::scan::segment_magic()),
        frames_from(crate::scan::segment_magic(), 4).frames == Seq::<FrameAt>::empty(),
{
    let magic = crate::scan::segment_magic();
    assert(magic.take(4) =~= magic);
    assert(magic.skip(4) =~= Seq::empty());
}

/// Appending a record to a whole segment keeps it whole and adds the record at its end.
pub proof fn append_keeps_whole(bytes: Seq<u8>, body: Seq<u8>)
    requires
        is_whole(bytes),
        body.len() <= MAX_RECORD_BODY_LEN,
    ensures
        is_whole(bytes + frame_bytes(body)),
        frames_from(bytes + frame_bytes(body), 4).frames == frames_from(bytes, 4).frames.push(
            FrameAt { offset: bytes.len(), body },
        ),
{
    frames_append(bytes, 4, body);
    assert((bytes + frame_bytes(body)).take(4) =~= bytes.take(4));
}

/// Recovery of the segment that takes appends cuts off a record that was not written to its
/// end, and nothing else.
pub proof fn recovery_drops_torn_record(
    segment: SegmentView,
    body: Seq<u8>,
    written: int,
    run: Run<()>,
)
    requires
        is_whole(segment.bytes),
        body.len() <= MAX_RECORD_BODY_LEN,
        0 < written < frame_bytes(body).len(),
        run.failure is None,
    ensures
        ({
            let torn = SegmentView {
                bytes: segment.bytes + frame_bytes(body).take(written),
                ..segment
            };
            let (after, recovered) = run_segment(run, torn, true, 4, check_step());
            &&& recovered == segment
            &&& after.failure is None
            &&& after.stats == run.stats.after_replay_truncated()
        }),
{
    let tail = frame_bytes(body).take(written);
    let bytes = segment.bytes + tail;
    frames_torn(segment.bytes, 4, body, written);
    assert(bytes.take(4) =~= segment.bytes.take(4));
    check_run_changes_nothing(run, segment.id, frames_from(bytes, 4).frames);
    assert(bytes.take(segment.bytes.len() as int) =~= segment.bytes);
}

/// Checking frames collects nothing and fails never.
pub proof fn check_run_changes_nothing(run: Run<()>, id: u64, frames: Seq<FrameAt>)
    ensures
        run_frames(run, id, frames, check_step()) == run,
    decreases frames.len(),
{
    if frames.len() > 0 && run.failure is None {
        check_run_changes_nothing(run, id, frames.skip(1));
    }
}

} // verus!
