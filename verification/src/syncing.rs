//! Laws of synchronization and rotation: which steps a write takes, when writes are batched, and
//! that no segment is left before all of its records are durable.

use vstd::prelude::*;

verus! {

use crate::crash::{engine_at, Operation};
use crate::durability::{
    after_push, append_collects_nothing, collects_nothing, deleted_does_not_matter,
    written_frame_holds_body,
};
use crate::format::{body_bytes, frame_bytes, written_frame};
use crate::operations::{after_operations, all_done};
use crate::raft::NodeId;
use crate::record::{initial_checkpoint_valid, RecordView};
use crate::scan::SegmentView;
use crate::stats::RecordKindMetric;
use crate::storage::{EngineView, StepView, SyncPolicy};

// ---------------------------------------------------------------------------------------
// The steps of a write
// ---------------------------------------------------------------------------------------

/// A count that stays at the largest 64-bit integer.
pub open spec fn capped(count: int) -> int {
    if count > u64::MAX {
        u64::MAX as int
    } else {
        count
    }
}

/// The kind under which a record is counted.
pub open spec fn metric_of(record: RecordView) -> RecordKindMetric {
    match record {
        RecordView::CurrentTerm(_) => RecordKindMetric::CurrentTerm,
        RecordView::VotedFor(_) => RecordKindMetric::VotedFor,
        RecordView::Append(_) => RecordKindMetric::LogAppend,
        RecordView::SnapshotCheckpoint(_) => RecordKindMetric::SnapshotCheckpoint,
    }
}

/// Whether a frame of the given length does not fit into the active segment any more. A segment
/// without records takes every frame.
pub open spec fn is_full(engine: EngineView, frame_len: int) -> bool {
    engine.segment_len > 4 && engine.segment_len + frame_len > engine.max_segment_len
}

/// Whether so many unsynchronized records and bytes are to be synchronized.
pub open spec fn is_due(policy: SyncPolicy, records: int, bytes: int) -> bool {
    match policy {
        SyncPolicy::Strict => true,
        SyncPolicy::Batch { max_records, max_bytes } => {
            (max_records > 0 && records >= max_records) || (max_bytes > 0 && bytes >= max_bytes)
        },
        SyncPolicy::UnsafeNoSync => false,
    }
}

/// The steps before a frame of the given length.
pub open spec fn steps_before(engine: EngineView, frame_len: int) -> Seq<StepView> {
    let next = StepView::CreateSegment((engine.active + 1) as u64);
    if !is_full(engine, frame_len) {
        Seq::empty()
    } else if engine.sync is UnsafeNoSync {
        seq![next]
    } else {
        seq![StepView::SyncSegment, next]
    }
}

/// The records that are not synchronized once one more is written.
pub open spec fn records_behind(engine: EngineView, frame_len: int) -> int {
    if is_full(engine, frame_len) && !(engine.sync is UnsafeNoSync) {
        1
    } else {
        capped(engine.stats.unsynced_records + 1)
    }
}

/// The bytes that are not synchronized once a frame is written.
pub open spec fn bytes_behind(engine: EngineView, frame_len: int) -> int {
    if is_full(engine, frame_len) && !(engine.sync is UnsafeNoSync) {
        frame_len
    } else {
        capped(engine.stats.unsynced_bytes + frame_len)
    }
}

/// The engine before a frame is written.
proof fn ready_engine(engine: EngineView, frame_len: int)
    requires
        is_full(engine, frame_len) ==> engine.active < u64::MAX,
    ensures
        ({
            let ready = engine.after_all(steps_before(engine, frame_len), 0);
            let full = is_full(engine, frame_len);
            let synced = full && !(engine.sync is UnsafeNoSync);
            &&& ready.segment_len == (if full { 4 } else { engine.segment_len })
            &&& ready.active == (if full { engine.active + 1 } else { engine.active as int })
            &&& ready.stats.unsynced_records == (if synced { 0 } else { engine.stats.unsynced_records })
            &&& ready.stats.unsynced_bytes == (if synced { 0 } else { engine.stats.unsynced_bytes })
        }),
{
    let before = steps_before(engine, frame_len);
    let next = StepView::CreateSegment((engine.active + 1) as u64);
    let empty = Seq::<StepView>::empty();
    assert(engine.after_all(empty, 0) == engine);
    if is_full(engine, frame_len) {
        if engine.sync is UnsafeNoSync {
            after_push(engine, empty, next, 0);
            assert(before =~= empty.push(next));
        } else {
            after_push(engine, empty, StepView::SyncSegment, 0);
            after_push(engine, empty.push(StepView::SyncSegment), next, 0);
            assert(before =~= empty.push(StepView::SyncSegment).push(next));
        }
    }
}

/// The engine after a frame was written, and after a synchronization.
proof fn written_engine(ready: EngineView, kind: RecordKindMetric, frame: Seq<u8>, deleted: u64)
    requires
        ready.segment_len + frame.len() <= u64::MAX,
    ensures
        ({
            let written = ready.after(StepView::AppendFrame { kind, frame }, deleted);
            &&& written.segment_len == ready.segment_len + frame.len()
            &&& written.active == ready.active
            &&& written.stats.unsynced_records == capped(ready.stats.unsynced_records + 1)
            &&& written.stats.unsynced_bytes == capped(ready.stats.unsynced_bytes + frame.len())
        }),
{
}

proof fn synced_engine(written: EngineView, deleted: u64)
    ensures
        ({
            let synced = written.after(StepView::SyncSegment, deleted);
            &&& synced.segment_len == written.segment_len
            &&& synced.active == written.active
            &&& synced.stats.unsynced_records == 0
            &&& synced.stats.unsynced_bytes == 0
        }),
{
}

/// The steps before, with and behind the frame of a record.
pub(crate) proof fn append_steps(engine: EngineView, node: NodeId, record: RecordView)
    requires
        record.wf(),
        engine.append(node, record) is Ok,
    ensures
        ({
            let (steps, position) = engine.append(node, record)->Ok_0;
            let frame = frame_bytes(body_bytes(node, record));
            let len = frame.len() as int;
            let write = steps_before(engine, len).push(
                StepView::AppendFrame { kind: metric_of(record), frame },
            );
            let due = is_due(engine.sync, records_behind(engine, len), bytes_behind(engine, len));
            &&& steps == (if due {
                write.push(StepView::SyncSegment)
            } else {
                write
            })
            &&& len == 8 + body_bytes(node, record).len()
            &&& len <= 0xFFFF_FFFF
            &&& is_full(engine, len) ==> engine.active < u64::MAX
            &&& position.segment.id == (if is_full(engine, len) {
                engine.active + 1
            } else {
                engine.active as int
            })
            &&& position.offset == (if is_full(engine, len) {
                4
            } else {
                engine.segment_len
            })
        }),
{
    reveal(EngineView::append);
    written_frame_holds_body(node, record);
    let frame = written_frame(node, record)->Ok_0;
    let before = steps_before(engine, frame.len() as int);
    assert(engine.prepare(frame.len()) =~= before);
    ready_engine(engine, frame.len() as int);
    let ready = engine.after_all(before, 0);
    let append_step = StepView::AppendFrame { kind: metric_of(record), frame };
    written_engine(ready, metric_of(record), frame, 0);
    after_push(engine, before, append_step, 0);
}

/// The engine after the steps of a write.
pub(crate) proof fn append_result(engine: EngineView, node: NodeId, record: RecordView, deleted: u64)
    requires
        record.wf(),
        engine.append(node, record) is Ok,
    ensures
        ({
            let steps = engine.append(node, record)->Ok_0.0;
            let len = frame_bytes(body_bytes(node, record)).len() as int;
            let records = records_behind(engine, len);
            let bytes = bytes_behind(engine, len);
            let due = is_due(engine.sync, records, bytes);
            let written = engine.after_all(steps, deleted);
            &&& written.stats.unsynced_records == (if due { 0 } else { records })
            &&& written.stats.unsynced_bytes == (if due { 0 } else { bytes })
        }),
{
    append_steps(engine, node, record);
    append_collects_nothing(engine, node, record);
    let steps = engine.append(node, record)->Ok_0.0;
    deleted_does_not_matter(Seq::empty(), engine, steps, deleted);
    let frame = frame_bytes(body_bytes(node, record));
    let before = steps_before(engine, frame.len() as int);
    let append_step = StepView::AppendFrame { kind: metric_of(record), frame };
    let write = before.push(append_step);
    let ready = engine.after_all(before, 0);
    ready_engine(engine, frame.len() as int);
    written_engine(ready, metric_of(record), frame, 0);
    after_push(engine, before, append_step, 0);
    after_push(engine, write, StepView::SyncSegment, 0);
    synced_engine(engine.after_all(write, 0), 0);
}

/// A write starts a new segment exactly when the active one has records and the frame would take
/// it beyond the length at which segments rotate; then the record is the first of the next
/// segment, and otherwise it goes behind the last record of the active one.
pub proof fn segments_are_filled(engine: EngineView, node: NodeId, record: RecordView)
    requires
        record.wf(),
        engine.append(node, record) is Ok,
    ensures
        ({
            let (steps, position) = engine.append(node, record)->Ok_0;
            let frame_len = 8 + body_bytes(node, record).len();
            let full = engine.segment_len > 4 && engine.segment_len + frame_len
                > engine.max_segment_len;
            &&& full ==> {
                &&& steps.contains(StepView::CreateSegment((engine.active + 1) as u64))
                &&& position.segment.id == engine.active + 1
                &&& position.offset == 4
            }
            &&& !full ==> {
                &&& forall|i: int| 0 <= i < steps.len() ==> !((#[trigger] steps[i]) is CreateSegment)
                &&& position.segment.id == engine.active
                &&& position.offset == engine.segment_len
            }
        }),
{
    append_steps(engine, node, record);
    let (steps, position) = engine.append(node, record)->Ok_0;
    let next = StepView::CreateSegment((engine.active + 1) as u64);
    if is_full(engine, 8 + body_bytes(node, record).len() as int) {
        assert(steps[0] == next || steps[1] == next);
    }
}

/// A write appends one frame, of the body of the record and counted under its kind.
pub proof fn writes_append_one_frame(engine: EngineView, node: NodeId, record: RecordView) -> (at: int)
    requires
        record.wf(),
        engine.append(node, record) is Ok,
    ensures
        ({
            let steps = engine.append(node, record)->Ok_0.0;
            &&& 0 <= at < steps.len()
            &&& steps[at] == StepView::AppendFrame {
                kind: metric_of(record),
                frame: frame_bytes(body_bytes(node, record)),
            }
            &&& forall|i: int|
                0 <= i < steps.len() && i != at ==> (#[trigger] steps[i]) is SyncSegment
                    || steps[i] is CreateSegment
            &&& forall|i: int| at < i < steps.len() ==> (#[trigger] steps[i]) is SyncSegment
        }),
{
    append_steps(engine, node, record);
    if is_full(engine, 8 + body_bytes(node, record).len() as int) {
        if engine.sync is UnsafeNoSync {
            1
        } else {
            2
        }
    } else {
        0
    }
}

/// Under the batch policy a write that does not rotate and stays below both thresholds is not
/// synchronized, and adds its frame to what is not; one that reaches a threshold is, and then
/// nothing is left. A threshold of zero is never reached.
pub proof fn batch_policy_waits_for_thresholds(
    engine: EngineView,
    node: NodeId,
    record: RecordView,
    max_records: usize,
    max_bytes: u64,
    deleted: u64,
)
    requires
        record.wf(),
        engine.append(node, record) is Ok,
        engine.sync == (SyncPolicy::Batch { max_records, max_bytes }),
        engine.segment_len <= 4 || engine.segment_len + 8 + body_bytes(node, record).len()
            <= engine.max_segment_len,
    ensures
        ({
            let steps = engine.append(node, record)->Ok_0.0;
            let written = engine.after_all(steps, deleted);
            let records = engine.stats.unsynced_records + 1;
            let bytes = engine.stats.unsynced_bytes + 8 + body_bytes(node, record).len();
            let reached = (max_records != 0 && records >= max_records) || (max_bytes != 0 && bytes
                >= max_bytes);
            &&& !reached ==> {
                &&& steps.len() == 1
                &&& steps[0] is AppendFrame
                &&& written.stats.unsynced_records == capped(records)
                &&& written.stats.unsynced_bytes == capped(bytes as int)
            }
            &&& reached ==> {
                &&& steps.len() == 2
                &&& steps[0] is AppendFrame
                &&& steps[1] is SyncSegment
                &&& written.stats.unsynced_records == 0
                &&& written.stats.unsynced_bytes == 0
            }
        }),
{
    append_steps(engine, node, record);
    append_result(engine, node, record, deleted);
}

/// Under the batch policy a write that rotates counts from its own frame on.
pub proof fn batch_policy_counts_anew_in_new_segment(
    engine: EngineView,
    node: NodeId,
    record: RecordView,
    max_records: usize,
    max_bytes: u64,
    deleted: u64,
)
    requires
        record.wf(),
        engine.append(node, record) is Ok,
        engine.sync == (SyncPolicy::Batch { max_records, max_bytes }),
        engine.segment_len > 4,
        engine.segment_len + 8 + body_bytes(node, record).len() > engine.max_segment_len,
    ensures
        ({
            let steps = engine.append(node, record)->Ok_0.0;
            let written = engine.after_all(steps, deleted);
            let bytes = 8 + body_bytes(node, record).len();
            let reached = max_records == 1 || (max_bytes != 0 && bytes >= max_bytes);
            &&& steps.len() == (if reached { 4int } else { 3int })
            &&& steps[0] is SyncSegment
            &&& steps[1] is CreateSegment
            &&& steps[2] is AppendFrame
            &&& reached ==> steps[3] is SyncSegment
            &&& written.stats.unsynced_records == (if reached { 0int } else { 1int })
            &&& written.stats.unsynced_bytes == (if reached { 0 } else { bytes })
        }),
{
    append_steps(engine, node, record);
    append_result(engine, node, record, deleted);
}

/// Under the strict policy every write is synchronized; without synchronization by policy none
/// is.
pub proof fn other_policies_need_no_thresholds(
    engine: EngineView,
    node: NodeId,
    record: RecordView,
    deleted: u64,
)
    requires
        record.wf(),
        engine.append(node, record) is Ok,
    ensures
        ({
            let steps = engine.append(node, record)->Ok_0.0;
            let written = engine.after_all(steps, deleted);
            &&& engine.sync is Strict ==> {
                &&& steps.last() is SyncSegment
                &&& written.stats.unsynced_records == 0
                &&& written.stats.unsynced_bytes == 0
            }
            &&& engine.sync is UnsafeNoSync ==> {
                &&& steps.last() is AppendFrame
                &&& forall|i: int| 0 <= i < steps.len() ==> !((#[trigger] steps[i]) is SyncSegment)
                &&& written.stats.unsynced_records == capped(engine.stats.unsynced_records + 1)
            }
        }),
{
    append_steps(engine, node, record);
    append_result(engine, node, record, deleted);
}

/// A flush synchronizes exactly when something is not synchronized, unless the policy is never
/// to; it does nothing else but count the request.
pub proof fn flush_synchronizes_what_is_pending(engine: EngineView)
    ensures
        ({
            let steps = engine.flush();
            let pending = engine.stats.unsynced_records > 0 || engine.stats.unsynced_bytes > 0;
            if pending && !(engine.sync is UnsafeNoSync) {
                &&& steps.len() == 2
                &&& steps[0] is SyncSegment
                &&& steps[1] is SyncRequested
            } else {
                &&& steps.len() == 1
                &&& steps[0] is SyncRequested
            }
        }),
{
    assert(engine.after_all(Seq::empty(), 0) == engine);
}

// ---------------------------------------------------------------------------------------
// No segment is left before it is durable
// ---------------------------------------------------------------------------------------

/// The part of the steps of an operation that writes its record, if it writes one.
proof fn steps_before_metadata(engine: EngineView, operation: Operation, i: int)
    requires
        operation.accepted(engine),
        operation.steps(engine) is Some,
        operation is Create || operation is Checkpoint,
        0 <= i < operation.steps(engine)->0.len(),
    ensures
        ({
            let (node, record) = operation.record();
            let steps = operation.steps(engine)->0;
            let write = engine.append(node, record)->Ok_0.0;
            let written = engine.synced(write);
            &&& engine.append(node, record) is Ok
            &&& record.wf()
            &&& steps.len() == written.len() + 3
            &&& i < written.len() ==> steps[i] == written[i]
            &&& i < write.len() ==> steps[i] == write[i]
            &&& i >= write.len() ==> !(steps[i] is CreateSegment) && !(steps[i] is AppendFrame)
            &&& write.len() <= written.len() <= write.len() + 1
            &&& written.len() > write.len() ==> steps[write.len() as int] is SyncSegment
        }),
{
    initial_checkpoint_valid();
}

/// In the steps of a write a segment is created only behind a synchronization.
proof fn write_synchronizes_first(engine: EngineView, node: NodeId, record: RecordView, i: int)
    requires
        !(engine.sync is UnsafeNoSync),
        record.wf(),
        engine.append(node, record) is Ok,
        0 <= i < engine.append(node, record)->Ok_0.0.len(),
        engine.append(node, record)->Ok_0.0[i] is CreateSegment,
    ensures
        i == 1,
        engine.append(node, record)->Ok_0.0[0] is SyncSegment,
{
    append_steps(engine, node, record);
}

proof fn sync_precedes_creation(engine: EngineView, operation: Operation, i: int)
    requires
        !(engine.sync is UnsafeNoSync),
        operation.accepted(engine),
        operation.steps(engine) is Some,
        0 <= i < operation.steps(engine)->0.len(),
        operation.steps(engine)->0[i] is CreateSegment,
    ensures
        i > 0,
        operation.steps(engine)->0[i - 1] is SyncSegment,
{
    match operation {
        Operation::Save(node, record) => {
            write_synchronizes_first(engine, node, record, i);
        },
        Operation::Create(_, _) | Operation::Checkpoint(_, _) => {
            let (node, record) = operation.record();
            steps_before_metadata(engine, operation, i);
            write_synchronizes_first(engine, node, record, i);
            steps_before_metadata(engine, operation, i - 1);
        },
        _ => {},
    }
}

/// Unless the policy is never to synchronize, the step right before a segment is created
/// synchronizes the segment that is left, and nothing is unsynchronized then.
pub proof fn rotation_synchronizes_first(
    engine: EngineView,
    operation: Operation,
    deleted: u64,
    i: int,
)
    requires
        !(engine.sync is UnsafeNoSync),
        operation.accepted(engine),
        operation.steps(engine) is Some,
        0 <= i < operation.steps(engine)->0.len(),
        operation.steps(engine)->0[i] is CreateSegment,
    ensures
        ({
            let steps = operation.steps(engine)->0;
            let then = engine_at(engine, steps, deleted, i);
            &&& i > 0
            &&& steps[i - 1] is SyncSegment
            &&& then.stats.unsynced_records == 0
            &&& then.stats.unsynced_bytes == 0
        }),
{
    sync_precedes_creation(engine, operation, i);
    just_synchronized(engine, operation.steps(engine)->0, deleted, i);
}

/// Right behind a synchronization nothing is unsynchronized.
proof fn just_synchronized(engine: EngineView, steps: Seq<StepView>, deleted: u64, i: int)
    requires
        0 < i <= steps.len(),
        steps[i - 1] is SyncSegment,
    ensures
        engine_at(engine, steps, deleted, i).stats.unsynced_records == 0,
        engine_at(engine, steps, deleted, i).stats.unsynced_bytes == 0,
{
    let front = steps.take(i - 1);
    after_push(engine, front, StepView::SyncSegment, deleted);
    assert(steps.take(i) =~= front.push(StepView::SyncSegment));
    synced_engine(engine.after_all(front, deleted), deleted);
}

/// The frame that a metadata file refers to is followed by a synchronization.
proof fn frame_is_synchronized(engine: EngineView, node: NodeId, record: RecordView) -> (at: int)
    requires
        !(engine.sync is UnsafeNoSync),
        record.wf(),
        engine.append(node, record) is Ok,
    ensures
        ({
            let written = engine.synced(engine.append(node, record)->Ok_0.0);
            &&& 0 <= at
            &&& written.len() == at + 2
            &&& written[at] is AppendFrame
            &&& written[at + 1] is SyncSegment
            &&& forall|i: int| 0 <= i < at ==> !((#[trigger] written[i]) is AppendFrame)
        }),
{
    append_steps(engine, node, record);
    append_result(engine, node, record, 0);
    let len = frame_bytes(body_bytes(node, record)).len() as int;
    assert(records_behind(engine, len) > 0);
    steps_before(engine, len).len() as int
}

/// Unless the policy is never to synchronize, the frame of a checkpoint is synchronized before the
/// checkpoint index or the registry is replaced.
pub proof fn metadata_waits_for_frames(engine: EngineView, operation: Operation, i: int, j: int) -> (k:
    int)
    requires
        !(engine.sync is UnsafeNoSync),
        operation.accepted(engine),
        operation.steps(engine) is Some,
        0 <= i < j < operation.steps(engine)->0.len(),
        operation.steps(engine)->0[i] is AppendFrame,
        operation.steps(engine)->0[j] is SaveCheckpointIndex
            || operation.steps(engine)->0[j] is SaveNodeRegistry,
    ensures
        i < k < j,
        operation.steps(engine)->0[k] is SyncSegment,
{
    match operation {
        Operation::Save(node, record) => {
            let at = writes_append_one_frame(engine, node, record);
            i + 1
        },
        Operation::Create(_, _) | Operation::Checkpoint(_, _) => {
            let (node, record) = operation.record();
            steps_before_metadata(engine, operation, i);
            steps_before_metadata(engine, operation, i + 1);
            let at = frame_is_synchronized(engine, node, record);
            i + 1
        },
        _ => i + 1,
    }
}

/// The steps of operations, one after the other.
pub open spec fn performed(
    engine: EngineView,
    segments: Seq<SegmentView>,
    operations: Seq<Operation>,
    deleted: Seq<u64>,
) -> Seq<StepView>
    decreases operations.len(),
{
    if operations.len() == 0 {
        Seq::empty()
    } else {
        let front = operations.drop_last();
        let middle = after_operations(engine, segments, front, deleted).0;
        performed(engine, segments, front, deleted) + operations.last().steps(middle)->0
    }
}

proof fn steps_keep_policy(engine: EngineView, steps: Seq<StepView>, deleted: u64)
    ensures
        engine.after_all(steps, deleted).sync == engine.sync,
        engine.after_all(steps, deleted).max_segment_len == engine.max_segment_len,
    decreases steps.len(),
{
    if steps.len() > 0 {
        steps_keep_policy(engine, steps.drop_last(), deleted);
    }
}

/// Operations change neither the policy nor the length at which segments rotate.
pub proof fn operations_keep_policy(
    engine: EngineView,
    segments: Seq<SegmentView>,
    operations: Seq<Operation>,
    deleted: Seq<u64>,
)
    ensures
        ({
            let end = after_operations(engine, segments, operations, deleted).0;
            end.sync == engine.sync && end.max_segment_len == engine.max_segment_len
        }),
    decreases operations.len(),
{
    if operations.len() > 0 {
        let front = operations.drop_last();
        operations_keep_policy(engine, segments, front, deleted);
        let middle = after_operations(engine, segments, front, deleted).0;
        steps_keep_policy(
            middle,
            operations.last().steps(middle)->0,
            deleted[operations.len() - 1],
        );
    }
}

/// Over any operations, unless the policy is never to synchronize, each segment is created right
/// after a synchronization. So the records of a segment that is left are durable.
pub proof fn segments_are_left_synchronized(
    engine: EngineView,
    segments: Seq<SegmentView>,
    operations: Seq<Operation>,
    deleted: Seq<u64>,
    j: int,
)
    requires
        !(engine.sync is UnsafeNoSync),
        all_done(engine, segments, operations, deleted),
        0 <= j < performed(engine, segments, operations, deleted).len(),
        performed(engine, segments, operations, deleted)[j] is CreateSegment,
    ensures
        j > 0,
        performed(engine, segments, operations, deleted)[j - 1] is SyncSegment,
    decreases operations.len(),
{
    let front = operations.drop_last();
    let middle = after_operations(engine, segments, front, deleted).0;
    let before = performed(engine, segments, front, deleted);
    if j < before.len() {
        segments_are_left_synchronized(engine, segments, front, deleted, j);
    } else {
        operations_keep_policy(engine, segments, front, deleted);
        rotation_synchronizes_first(middle, operations.last(), 0, j - before.len());
    }
}

/// Whether a frame is not followed by a synchronization.
pub open spec fn is_pending(steps: Seq<StepView>, i: int) -> bool {
    &&& 0 <= i < steps.len()
    &&& steps[i] is AppendFrame
    &&& forall|k: int| i < k < steps.len() ==> !((#[trigger] steps[k]) is SyncSegment)
}

/// Whether every frame fits where it is appended.
#[verifier::opaque]
pub open spec fn frames_fit(engine: EngineView, steps: Seq<StepView>, deleted: u64) -> bool {
    forall|i: int|
        0 <= i < steps.len() ==> ((#[trigger] steps[i]) matches StepView::AppendFrame { frame, .. }
            ==> engine_at(engine, steps, deleted, i).segment_len + frame.len() <= u64::MAX)
}

/// One step and what is not synchronized.
proof fn step_and_unsynced(engine: EngineView, step: StepView, deleted: u64)
    requires
        step matches StepView::AppendFrame { frame, .. } ==> engine.segment_len + frame.len()
            <= u64::MAX,
    ensures
        step is AppendFrame ==> engine.after(step, deleted).stats.unsynced_records > 0,
        !(step is SyncSegment) && engine.stats.unsynced_records > 0 ==> engine.after(
            step,
            deleted,
        ).stats.unsynced_records > 0,
{
}

/// What is not followed by a synchronization is counted as unsynchronized.
proof fn pending_is_counted(engine: EngineView, steps: Seq<StepView>, deleted: u64)
    requires
        frames_fit(engine, steps, deleted),
    ensures
        (exists|i: int| is_pending(steps, i)) ==> engine.after_all(
            steps,
            deleted,
        ).stats.unsynced_records > 0,
        engine.stats.unsynced_records > 0 && (forall|k: int|
            0 <= k < steps.len() ==> !((#[trigger] steps[k]) is SyncSegment)) ==> engine.after_all(
            steps,
            deleted,
        ).stats.unsynced_records > 0,
    decreases steps.len(),
{
    if steps.len() > 0 {
        let front = steps.drop_last();
        let last = steps.last();
        assert(frames_fit(engine, front, deleted)) by {
            reveal(frames_fit);
            assert forall|i: int| 0 <= i < front.len() implies ((
            #[trigger] front[i]) matches StepView::AppendFrame { frame, .. } ==> engine_at(
                engine,
                front,
                deleted,
                i,
            ).segment_len + frame.len() <= u64::MAX) by {
                assert(front[i] == steps[i]);
                assert(front.take(i) =~= steps.take(i));
            }
        }
        pending_is_counted(engine, front, deleted);
        let before = engine.after_all(front, deleted);
        assert(last matches StepView::AppendFrame { frame, .. } ==> before.segment_len
            + frame.len() <= u64::MAX) by {
            reveal(frames_fit);
            assert(steps[steps.len() - 1] == last);
            assert(steps.take(steps.len() - 1) =~= front);
        }
        step_and_unsynced(before, last, deleted);
        assert forall|k: int| 0 <= k < front.len() implies (#[trigger] front[k]) == steps[k] by {}
        if exists|i: int| is_pending(steps, i) {
            let i = choose|i: int| is_pending(steps, i);
            assert(!(last is SyncSegment)) by {
                assert(steps[steps.len() - 1] == last);
            }
            if i < front.len() {
                assert(is_pending(front, i)) by {
                    assert forall|k: int| i < k < front.len() implies !((
                    #[trigger] front[k]) is SyncSegment) by {
                        assert(!(steps[k] is SyncSegment));
                    }
                }
            }
        }
        if forall|k: int| 0 <= k < steps.len() ==> !((#[trigger] steps[k]) is SyncSegment) {
            assert(!(steps[steps.len() - 1] is SyncSegment));
            assert forall|k: int| 0 <= k < front.len() implies !((
            #[trigger] front[k]) is SyncSegment) by {
                assert(!(steps[k] is SyncSegment));
            }
        }
    }
}

pub(crate) proof fn operation_frames_fit(engine: EngineView, operation: Operation, deleted: u64)
    requires
        operation.accepted(engine),
        operation.steps(engine) is Some,
    ensures
        frames_fit(engine, operation.steps(engine)->0, deleted),
{
    reveal(frames_fit);
    let steps = operation.steps(engine)->0;
    assert forall|i: int| 0 <= i < steps.len() implies ((
    #[trigger] steps[i]) matches StepView::AppendFrame { frame, .. } ==> engine_at(
        engine,
        steps,
        deleted,
        i,
    ).segment_len + frame.len() <= u64::MAX) by {
        if steps[i] is AppendFrame {
            match operation {
                Operation::Save(node, record) => {
                    frame_of_append_fits(engine, node, record, deleted, i);
                },
                Operation::Create(_, _) | Operation::Checkpoint(_, _) => {
                    let (node, record) = operation.record();
                    let write = engine.append(node, record)->Ok_0.0;
                    steps_before_metadata(engine, operation, i);
                    frame_of_append_fits(engine, node, record, deleted, i);
                    assert(steps.take(i) =~= write.take(i)) by {
                        assert forall|k: int| 0 <= k < i implies steps[k] == write[k] by {
                            steps_before_metadata(engine, operation, k);
                        }
                    }
                },
                _ => {},
            }
        }
    }
}

proof fn frame_of_append_fits(
    engine: EngineView,
    node: NodeId,
    record: RecordView,
    deleted: u64,
    i: int,
)
    requires
        record.wf(),
        engine.append(node, record) is Ok,
        0 <= i < engine.append(node, record)->Ok_0.0.len(),
    ensures
        engine.append(node, record)->Ok_0.0[i] matches StepView::AppendFrame { frame, .. }
            ==> engine_at(engine, engine.append(node, record)->Ok_0.0, deleted, i).segment_len
            + frame.len() <= u64::MAX,
{
    append_steps(engine, node, record);
    let steps = engine.append(node, record)->Ok_0.0;
    let len = frame_bytes(body_bytes(node, record)).len() as int;
    if steps[i] is AppendFrame {
        assert(steps.take(i) =~= steps_before(engine, len));
        append_collects_nothing(engine, node, record);
        assert(collects_nothing(steps.take(i))) by {
            assert forall|k: int| 0 <= k < i implies !((
            #[trigger] steps.take(i)[k]) is CollectGarbage) by {
                assert(steps.take(i)[k] == steps[k]);
            }
        }
        deleted_does_not_matter(Seq::empty(), engine, steps.take(i), deleted);
        ready_engine(engine, len);
    }
}

/// What operations leave pending is counted as unsynchronized.
proof fn pending_operations_are_counted(
    engine: EngineView,
    segments: Seq<SegmentView>,
    operations: Seq<Operation>,
    deleted: Seq<u64>,
    i: int,
)
    requires
        all_done(engine, segments, operations, deleted),
        is_pending(performed(engine, segments, operations, deleted), i),
    ensures
        after_operations(engine, segments, operations, deleted).0.stats.unsynced_records > 0,
    decreases operations.len(),
{
    let front = operations.drop_last();
    let middle = after_operations(engine, segments, front, deleted).0;
    let before = performed(engine, segments, front, deleted);
    let all = performed(engine, segments, operations, deleted);
    let steps = operations.last().steps(middle)->0;
    let count = deleted[operations.len() - 1];
    operation_frames_fit(middle, operations.last(), count);
    pending_is_counted(middle, steps, count);
    if i < before.len() {
        assert(is_pending(before, i)) by {
            assert forall|k: int| i < k < before.len() implies !((
            #[trigger] before[k]) is SyncSegment) by {
                assert(all[k] == before[k]);
            }
        }
        pending_operations_are_counted(engine, segments, front, deleted, i);
        assert forall|k: int| 0 <= k < steps.len() implies !((#[trigger] steps[k]) is SyncSegment) by {
            assert(all[before.len() + k] == steps[k]);
        }
    } else {
        assert(is_pending(steps, i - before.len())) by {
            assert forall|k: int| i - before.len() < k < steps.len() implies !((
            #[trigger] steps[k]) is SyncSegment) by {
                assert(all[before.len() + k] == steps[k]);
            }
        }
    }
}

/// The first synchronization behind a frame.
proof fn first_synchronization(steps: Seq<StepView>, i: int, end: int) -> (k: int)
    requires
        0 <= i < end < steps.len(),
        steps[end] is SyncSegment,
    ensures
        i < k <= end,
        steps[k] is SyncSegment,
        forall|j: int| i < j < k ==> !((#[trigger] steps[j]) is SyncSegment),
    decreases end,
{
    if exists|j: int| i < j < end && (#[trigger] steps[j]) is SyncSegment {
        let j = choose|j: int| i < j < end && (#[trigger] steps[j]) is SyncSegment;
        first_synchronization(steps, i, j)
    } else {
        end
    }
}

/// After operations that end with a flush, unless the policy is never to synchronize, every frame
/// that was appended was synchronized while its segment was the active one.
pub proof fn flush_makes_all_frames_durable(
    engine: EngineView,
    segments: Seq<SegmentView>,
    operations: Seq<Operation>,
    deleted: Seq<u64>,
    i: int,
) -> (k: int)
    requires
        !(engine.sync is UnsafeNoSync),
        all_done(engine, segments, operations, deleted),
        operations.len() > 0,
        operations.last() is Flush,
        0 <= i < performed(engine, segments, operations, deleted).len(),
        performed(engine, segments, operations, deleted)[i] is AppendFrame,
    ensures
        ({
            let steps = performed(engine, segments, operations, deleted);
            &&& i < k < steps.len()
            &&& steps[k] is SyncSegment
            &&& forall|j: int| i < j < k ==> !((#[trigger] steps[j]) is CreateSegment)
        }),
{
    let front = operations.drop_last();
    let middle = after_operations(engine, segments, front, deleted).0;
    let before = performed(engine, segments, front, deleted);
    let all = performed(engine, segments, operations, deleted);
    let flush = middle.flush();
    flush_synchronizes_what_is_pending(middle);
    operations_keep_policy(engine, segments, front, deleted);
    assert(all =~= before + flush);
    assert(i < before.len()) by {
        if i >= before.len() {
            assert(all[i] == flush[i - before.len()]);
        }
    }
    let end = if is_pending(before, i) {
        pending_operations_are_counted(engine, segments, front, deleted, i);
        assert(all[before.len() as int] == flush[0]);
        before.len() as int
    } else {
        let k = choose|k: int| i < k < before.len() && (#[trigger] before[k]) is SyncSegment;
        assert(all[k] == before[k]);
        k
    };
    let k = first_synchronization(all, i, end);
    assert forall|j: int| i < j < k implies !((#[trigger] all[j]) is CreateSegment) by {
        if all[j] is CreateSegment {
            segments_are_left_synchronized(engine, segments, operations, deleted, j);
            if j - 1 > i {
                assert(!(all[j - 1] is SyncSegment));
            }
        }
    }
    k
}

} // verus!
