//! Reading segments record by record.

use crate::codec::scan_record_frame;
use crate::error::StorageError;
use crate::segment::{RecordPosition, SegmentName, SEGMENT_FILE_HEADER_LEN};
use crate::stats::{StorageStats, StorageStatsCounters};
use vstd::prelude::*;

verus! {

use crate::format::read_frame;

/// A segment and its contents.
#[derive(Debug, PartialEq, Eq)]
pub struct Segment {
    /// Name of the segment.
    pub name: SegmentName,
    /// Contents of the segment file.
    pub bytes: Vec<u8>,
}

/// The contents of a [`Segment`].
#[verifier::ext_equal]
pub struct SegmentView {
    pub id: u64,
    pub bytes: Seq<u8>,
}

impl View for Segment {
    type V = SegmentView;

    open spec fn view(&self) -> SegmentView {
        SegmentView { id: self.name.id, bytes: self.bytes@ }
    }
}

/// The contents of segments.
pub open spec fn segments_view(segments: Seq<Segment>) -> Seq<SegmentView> {
    segments.map_values(|segment: Segment| segment@)
}

// ---------------------------------------------------------------------------------------
// Headers and frames
// ---------------------------------------------------------------------------------------

/// What every segment file starts with.
pub open spec fn segment_magic() -> Seq<u8> {
    seq![0x53u8, 0x4Bu8, 0x52u8, 0x31u8]
}

/// Whether a segment has records to read, or what is wrong with its header. Only the
/// segment that takes appends may have an incomplete header.
pub open spec fn header_check(bytes: Seq<u8>, allow_partial: bool) -> Result<bool, StorageError> {
    if bytes.len() < SEGMENT_FILE_HEADER_LEN {
        if allow_partial {
            Ok(false)
        } else if bytes.len() == 0 {
            Err(StorageError::MissingSegmentHeader)
        } else {
            Err(StorageError::PartialSegmentHeader)
        }
    } else if bytes.take(4) != segment_magic() {
        Err(StorageError::UnsupportedSegmentFormat)
    } else {
        Ok(true)
    }
}

/// A record frame: its offset in the segment, and the body.
#[verifier::ext_equal]
pub struct FrameAt {
    pub offset: nat,
    pub body: Seq<u8>,
}

/// What comes after the last complete frame.
pub enum Ending {
    /// The end of the segment.
    Complete,
    /// The start of a frame that the segment ends in.
    Partial,
    /// Something that is no frame.
    Failed(StorageError),
}

/// The complete frames from some offset on, and what comes after them.
#[verifier::ext_equal]
pub struct Frames {
    pub frames: Seq<FrameAt>,
    pub ending: Ending,
    pub end: nat,
}

/// The complete frames from `offset` on.
pub open spec fn frames_from(bytes: Seq<u8>, offset: nat) -> Frames
    decreases bytes.len() - offset,
{
    if offset > bytes.len() {
        Frames { frames: Seq::empty(), ending: Ending::Partial, end: offset }
    } else {
        match read_frame(bytes.skip(offset as int)) {
            Err(error) => Frames { frames: Seq::empty(), ending: Ending::Failed(error), end: offset },
            Ok(None) => Frames {
                frames: Seq::empty(),
                ending: if offset == bytes.len() {
                    Ending::Complete
                } else {
                    Ending::Partial
                },
                end: offset,
            },
            Ok(Some(body)) => {
                let rest = frames_from(bytes, offset + 8 + body.len());
                Frames { frames: seq![FrameAt { offset, body }] + rest.frames, ..rest }
            },
        }
    }
}

// ---------------------------------------------------------------------------------------
// Runs over frames
// ---------------------------------------------------------------------------------------

/// The state of a pass over records: what was collected, the statistics, and the error that
/// ended the pass early.
#[verifier::ext_equal]
pub struct Run<A> {
    pub acc: A,
    pub stats: StorageStats,
    pub failure: Option<StorageError>,
}

/// What a pass does with one record.
pub type Step<A> = spec_fn(Run<A>, RecordPosition, Seq<u8>) -> Run<A>;

impl<A> Run<A> {
    /// The run ends with an error.
    pub open spec fn failed(self, error: StorageError) -> Run<A> {
        Run { failure: Some(error), ..self }
    }

    /// The run after what follows the last complete frame.
    pub open spec fn ended(self, ending: Ending, allow_partial: bool) -> Run<A> {
        if self.failure is Some {
            self
        } else {
            match ending {
                Ending::Complete => self,
                Ending::Partial => if allow_partial {
                    Run { stats: self.stats.after_replay_truncated(), ..self }
                } else {
                    self.failed(StorageError::PartialRecord)
                },
                Ending::Failed(error) => if error == StorageError::ChecksumMismatch {
                    Run { stats: self.stats.after_checksum_failed(), ..self }.failed(error)
                } else {
                    self.failed(error)
                },
            }
        }
    }
}

/// The run after the given frames of a segment.
pub open spec fn run_frames<A>(run: Run<A>, id: u64, frames: Seq<FrameAt>, step: Step<A>) -> Run<A>
    decreases frames.len(),
{
    if frames.len() == 0 || run.failure is Some {
        run
    } else {
        let position = RecordPosition {
            segment: SegmentName { id },
            offset: frames[0].offset as u64,
        };
        run_frames(step(run, position, frames[0].body), id, frames.skip(1), step)
    }
}

/// The run over the frames of a segment from `offset` on, and the contents of the segment
/// afterwards: where an incomplete end is allowed, it is cut off.
pub open spec fn run_rest<A>(
    run: Run<A>,
    segment: SegmentView,
    allow_partial: bool,
    offset: nat,
    step: Step<A>,
) -> (Run<A>, SegmentView) {
    let frames = frames_from(segment.bytes, offset);
    let done = run_frames(run, segment.id, frames.frames, step);
    (
        done.ended(frames.ending, allow_partial),
        if done.failure is None && frames.ending is Partial && allow_partial {
            SegmentView { bytes: segment.bytes.take(frames.end as int), ..segment }
        } else {
            segment
        },
    )
}

/// One more frame of a run.
pub proof fn run_rest_step<A>(
    run: Run<A>,
    segment: SegmentView,
    allow_partial: bool,
    offset: nat,
    step: Step<A>,
)
    requires
        offset <= segment.bytes.len(),
        run.failure is None,
        read_frame(segment.bytes.skip(offset as int)) matches Ok(Some(_)),
    ensures
        ({
            let body = read_frame(segment.bytes.skip(offset as int))->Ok_0->0;
            let position = RecordPosition {
                segment: SegmentName { id: segment.id },
                offset: offset as u64,
            };
            &&& offset + 8 + body.len() <= segment.bytes.len()
            &&& run_rest(run, segment, allow_partial, offset, step) == run_rest(
                step(run, position, body),
                segment,
                allow_partial,
                offset + 8 + body.len(),
                step,
            )
        }),
{
    let body = read_frame(segment.bytes.skip(offset as int))->Ok_0->0;
    let frames = frames_from(segment.bytes, offset);
    let rest = frames_from(segment.bytes, offset + 8 + body.len());
    assert(frames.frames =~= seq![FrameAt { offset, body }] + rest.frames);
    assert(frames.frames.skip(1) =~= rest.frames);
}

/// A run ends where there is no complete frame.
pub proof fn run_rest_end<A>(
    run: Run<A>,
    segment: SegmentView,
    allow_partial: bool,
    offset: nat,
    step: Step<A>,
)
    requires
        offset <= segment.bytes.len(),
        run.failure is None,
    ensures
        match read_frame(segment.bytes.skip(offset as int)) {
            Err(error) => run_rest(run, segment, allow_partial, offset, step) == (
                run.ended(Ending::Failed(error), allow_partial),
                segment,
            ),
            Ok(None) => run_rest(run, segment, allow_partial, offset, step) == (
                if offset == segment.bytes.len() {
                    (run, segment)
                } else {
                    (
                        run.ended(Ending::Partial, allow_partial),
                        if allow_partial {
                            SegmentView { bytes: segment.bytes.take(offset as int), ..segment }
                        } else {
                            segment
                        },
                    )
                }),
            Ok(Some(_)) => true,
        },
{
}

/// The run over one segment from `offset` on, and the contents of the segment afterwards:
/// where the segment takes appends, an incomplete end is cut off.
pub open spec fn run_segment<A>(
    run: Run<A>,
    segment: SegmentView,
    allow_partial: bool,
    offset: u64,
    step: Step<A>,
) -> (Run<A>, SegmentView) {
    match header_check(segment.bytes, allow_partial) {
        Err(error) => (run.failed(error), segment),
        Ok(false) => if segment.bytes.len() == 0 {
            (run, segment)
        } else {
            (
                Run { stats: run.stats.after_replay_truncated(), ..run },
                SegmentView { bytes: Seq::empty(), ..segment },
            )
        },
        Ok(true) => if offset < SEGMENT_FILE_HEADER_LEN {
            (run.failed(StorageError::ScanOffsetPrecedesRecords), segment)
        } else if segment.bytes.len() < offset {
            (run.failed(StorageError::ScanOffsetExceedsSegment), segment)
        } else {
            run_rest(run, segment, allow_partial, offset as nat, step)
        },
    }
}

/// The offset at which reading a segment starts, where reading starts at `offset` in the
/// segment `from`.
pub open spec fn start_offset(from: Option<u64>, offset: u64, id: u64) -> u64 {
    if from == Some(id) {
        offset
    } else {
        4
    }
}

/// The run over segments, from the given offset in the segment `from`, or over all of them;
/// and the segments afterwards. Only the segment `active` may have an incomplete end.
pub open spec fn run_segments<A>(
    run: Run<A>,
    segments: Seq<SegmentView>,
    active: u64,
    from: Option<u64>,
    offset: u64,
    step: Step<A>,
) -> (Run<A>, Seq<SegmentView>)
    decreases segments.len(),
{
    if segments.len() == 0 || run.failure is Some {
        (run, segments)
    } else if from matches Some(first) && segments[0].id < first {
        let (end, rest) = run_segments(run, segments.skip(1), active, from, offset, step);
        (end, seq![segments[0]] + rest)
    } else {
        let (next, segment) = run_segment(
            run,
            segments[0],
            segments[0].id == active,
            start_offset(from, offset, segments[0].id),
            step,
        );
        let (end, rest) = run_segments(next, segments.skip(1), active, from, offset, step);
        (end, seq![segment] + rest)
    }
}

/// One more segment of a run that is not to be read.
pub proof fn run_segments_skip<A>(
    run: Run<A>,
    segments: Seq<SegmentView>,
    i: int,
    active: u64,
    from: Option<u64>,
    offset: u64,
    step: Step<A>,
)
    requires
        0 <= i < segments.len(),
        run.failure is None,
        from matches Some(first) && segments[i].id < first,
    ensures
        ({
            let whole = run_segments(run, segments.skip(i), active, from, offset, step);
            let rest = run_segments(run, segments.skip(i + 1), active, from, offset, step);
            &&& rest.0 == whole.0
            &&& segments.take(i + 1) + rest.1 == segments.take(i) + whole.1
        }),
{
    let rest = run_segments(run, segments.skip(i + 1), active, from, offset, step);
    assert(segments.skip(i)[0] == segments[i]);
    assert(segments.skip(i).skip(1) =~= segments.skip(i + 1));
    assert(segments.take(i + 1) + rest.1 =~= segments.take(i) + (seq![segments[i]] + rest.1));
}

/// One more segment of a run.
pub proof fn run_segments_step<A>(
    run: Run<A>,
    segments: Seq<SegmentView>,
    i: int,
    active: u64,
    from: Option<u64>,
    offset: u64,
    step: Step<A>,
)
    requires
        0 <= i < segments.len(),
        run.failure is None,
        !(from matches Some(first) && segments[i].id < first),
    ensures
        ({
            let whole = run_segments(run, segments.skip(i), active, from, offset, step);
            let one = run_segment(
                run,
                segments[i],
                segments[i].id == active,
                start_offset(from, offset, segments[i].id),
                step,
            );
            let after = segments.update(i, one.1);
            let rest = run_segments(one.0, after.skip(i + 1), active, from, offset, step);
            &&& rest.0 == whole.0
            &&& after.take(i + 1) + rest.1 == segments.take(i) + whole.1
            &&& one.0.failure is Some ==> whole.0 == one.0 && segments.take(i) + whole.1 == after
        }),
{
    let one = run_segment(
        run,
        segments[i],
        segments[i].id == active,
        start_offset(from, offset, segments[i].id),
        step,
    );
    let after = segments.update(i, one.1);
    let rest = run_segments(one.0, segments.skip(i + 1), active, from, offset, step);
    assert(segments.skip(i)[0] == segments[i]);
    assert(segments.skip(i).skip(1) =~= segments.skip(i + 1));
    assert(after.skip(i + 1) =~= segments.skip(i + 1));
    assert(after.take(i + 1) + rest.1 =~= segments.take(i) + (seq![one.1] + rest.1));
    if one.0.failure is Some {
        assert(after.take(i + 1) + after.skip(i + 1) =~= after);
    }
}

/// A run over all segments starts with nothing done.
pub proof fn run_segments_start(segments: Seq<SegmentView>, after: Seq<SegmentView>)
    ensures
        segments.skip(0) == segments,
        segments.take(0) + after == after,
{
    assert(segments.skip(0) =~= segments);
    assert(segments.take(0) + after =~= after);
}

/// A run over all segments ends with nothing left.
pub proof fn run_segments_end(segments: Seq<SegmentView>)
    ensures
        segments.skip(segments.len() as int).len() == 0,
        segments.take(segments.len() as int) + segments.skip(segments.len() as int) == segments,
{
    assert(segments.take(segments.len() as int) + segments.skip(segments.len() as int) =~= segments);
}

/// What a pass hands out at the end.
pub open spec fn run_result<A>(run: Run<A>) -> Result<A, StorageError> {
    match run.failure {
        Some(error) => Err(error),
        None => Ok(run.acc),
    }
}

// ---------------------------------------------------------------------------------------
// Reading
// ---------------------------------------------------------------------------------------

/// Checks the header of a segment.
pub fn check_segment_header(bytes: &[u8], allow_partial: bool) -> (result: Result<bool, StorageError>)
    ensures
        result == header_check(bytes@, allow_partial),
{
    if bytes.len() < SEGMENT_FILE_HEADER_LEN {
        if allow_partial {
            return Ok(false);
        }
        if bytes.len() == 0 {
            return Err(StorageError::MissingSegmentHeader);
        }
        return Err(StorageError::PartialSegmentHeader);
    }
    if bytes[0] == 0x53 && bytes[1] == 0x4B && bytes[2] == 0x52 && bytes[3] == 0x31 {
        assert(bytes@.take(4) =~= segment_magic());
        Ok(true)
    } else {
        assert(bytes@.take(4) != segment_magic()) by {
            assert(bytes@.take(4)[0] == bytes@[0]);
            assert(bytes@.take(4)[1] == bytes@[1]);
            assert(bytes@.take(4)[2] == bytes@[2]);
            assert(bytes@.take(4)[3] == bytes@[3]);
        }
        Err(StorageError::UnsupportedSegmentFormat)
    }
}

/// Checks the header of a segment. An incomplete header of the segment that takes appends
/// is counted, and cut off if `recover_partial` says so.
pub fn read_segment_header(
    segment: &mut Segment,
    allow_partial: bool,
    recover_partial: bool,
    stats: &mut StorageStatsCounters,
) -> (result: Result<bool, StorageError>)
    ensures
        result == header_check(old(segment)@.bytes, allow_partial),
        ({
            let incomplete = result == Ok::<bool, StorageError>(false) && old(segment)@.bytes.len() != 0;
            &&& final(segment)@ == (if incomplete && recover_partial {
                SegmentView { bytes: Seq::empty(), ..old(segment)@ }
            } else {
                old(segment)@
            })
            &&& final(stats)@ == (if incomplete {
                old(stats)@.after_replay_truncated()
            } else {
                old(stats)@
            })
        }),
{
    let has_records: bool = check_segment_header(segment.bytes.as_slice(), allow_partial)?;
    if !has_records && segment.bytes.len() != 0 {
        stats.replay_truncated();
        if recover_partial {
            segment.bytes.truncate(0);
            assert(segment.bytes@ =~= Seq::empty());
        }
    }
    Ok(has_records)
}

/// A pass that only checks frames.
pub open spec fn check_step() -> Step<()> {
    |run: Run<()>, position: RecordPosition, body: Seq<u8>| run
}

/// Checks all record frames of a segment.
pub fn scan_segment(
    segment: &mut Segment,
    allow_partial: bool,
    stats: &mut StorageStatsCounters,
) -> (result: Result<(), StorageError>)
    ensures
        ({
            let start = Run { acc: (), stats: old(stats)@, failure: None };
            let (run, after) = run_segment(start, old(segment)@, allow_partial, 4, check_step());
            &&& result == run_result(run)
            &&& final(stats)@ == run.stats
            &&& final(segment)@ == after
        }),
{
    if !read_segment_header(segment, allow_partial, true, stats)? {
        return Ok(());
    }
    let ghost view = segment@;
    let ghost step = check_step();
    let ghost start = Run { acc: (), stats: stats@, failure: None };
    let ghost expected = run_rest(start, view, allow_partial, 4, step);
    let mut position: usize = SEGMENT_FILE_HEADER_LEN;
    loop
        invariant
            position <= segment.bytes.len(),
            segment@ == view,
            stats@ == start.stats,
            start.failure is None,
            step == check_step(),
            run_rest(start, view, allow_partial, position as nat, step) == expected,
            expected == run_segment(
                (Run { acc: (), stats: old(stats)@, failure: None }),
                old(segment)@,
                allow_partial,
                4,
                check_step(),
            ),
        ensures
            read_frame(view.bytes.skip(position as int)) == Ok::<Option<Seq<u8>>, StorageError>(None),
        decreases segment.bytes@.len() - position,
    {
        proof {
            if read_frame(view.bytes.skip(position as int)) matches Ok(Some(_)) {
                run_rest_step(start, view, allow_partial, position as nat, step);
            } else {
                run_rest_end(start, view, allow_partial, position as nat, step);
            }
        }
        match scan_record_frame(segment.bytes.as_slice(), position) {
            Err(error) => {
                if error == StorageError::ChecksumMismatch {
                    stats.checksum_failed();
                }
                return Err(error);
            },
            Ok(Some(end)) => {
                position = end;
            },
            Ok(None) => {
                break;
            },
        }
    }
    proof {
        run_rest_end(start, view, allow_partial, position as nat, step);
    }
    if position == segment.bytes.len() {
        return Ok(());
    }
    if allow_partial {
        stats.replay_truncated();
        segment.bytes.truncate(position);
        return Ok(());
    }
    Err(StorageError::PartialRecord)
}

/// Checks all record frames of all segments, and cuts off an incomplete end of the segment
/// that takes appends.
pub fn recover_storage_dir(
    segments: &mut Vec<Segment>,
    active_segment: SegmentName,
    stats: &mut StorageStatsCounters,
) -> (result: Result<(), StorageError>)
    ensures
        ({
            let start = Run { acc: (), stats: old(stats)@, failure: None };
            let (run, after) = run_segments(
                start,
                segments_view(old(segments)@),
                active_segment.id,
                None,
                4,
                check_step(),
            );
            &&& result == run_result(run)
            &&& final(stats)@ == run.stats
            &&& segments_view(final(segments)@) == after
        }),
{
    let ghost active = active_segment.id;
    let ghost expected = run_segments(
        Run { acc: (), stats: old(stats)@, failure: None },
        segments_view(old(segments)@),
        active,
        None,
        4,
        check_step(),
    );
    let mut i: usize = 0;
    proof {
        run_segments_start(segments_view(segments@), expected.1);
    }
    while i < segments.len()
        invariant
            i <= segments@.len(),
            active == active_segment.id,
            expected == run_segments(
                (Run { acc: (), stats: old(stats)@, failure: None }),
                segments_view(old(segments)@),
                active,
                None,
                4,
                check_step(),
            ),
            ({
                let run = Run { acc: (), stats: stats@, failure: None };
                let view = segments_view(segments@);
                let rest = run_segments(run, view.skip(i as int), active, None, 4, check_step());
                &&& rest.0 == expected.0
                &&& view.take(i as int) + rest.1 == expected.1
            }),
        decreases segments@.len() - i,
    {
        let ghost before = segments_view(segments@);
        let ghost run = Run { acc: (), stats: stats@, failure: None };
        let allow_partial: bool = segments[i].name.id == active_segment.id;
        let outcome = scan_segment(&mut segments[i], allow_partial, stats);
        proof {
            run_segments_step(run, before, i as int, active, None, 4, check_step());
            let one = run_segment(run, before[i as int], allow_partial, 4, check_step());
            assert(segments_view(segments@) =~= before.update(i as int, one.1));
        }
        outcome?;
        i = i + 1;
    }
    proof {
        run_segments_end(segments_view(segments@));
    }
    Ok(())
}

} // verus!
