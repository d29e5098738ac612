//! Laws of saving: what a load gives after each kind of save, field by field.

use vstd::prelude::*;

verus! {

use crate::crc32c::crc32c_spec;
use crate::durability::{
    consistent, indexed, load_gives_created_node, load_gives_saved_record, loaded, segments_after_all,
};
use crate::error::StorageError;
use crate::format::{body_bytes, le_bytes_len, storable};
use crate::raft::{term_after, EntriesView, NodeId, Term};
use crate::record::{AppendView, RecordView, SnapshotView};
use crate::registry::{active_nodes, MetadataView};
use crate::round_trip::written_body_exact;
use crate::scan::SegmentView;
use crate::segment::RecordPosition;
use crate::state::StateView;
use crate::stats::StorageOperationKind;
use crate::storage::{saves_record, steps_view, EngineView, Step, StepView};

// ---------------------------------------------------------------------------------------
// Changes of a state
// ---------------------------------------------------------------------------------------

/// Whether the log has the position: the index is that of the start of the log or of one of
/// its entries, and the last term entry up to there has the term.
pub open spec fn anchored(log: EntriesView, index: int, term: Term) -> bool {
    &&& log.prev.index.0 + log.seq.len() <= u64::MAX
    &&& log.prev.index.0 <= index <= log.prev.index.0 + log.seq.len()
    &&& term_after(log.prev.term, log.seq.take(index - log.prev.index.0)) == term
}

/// Whether each command entry of an append has a payload, and each payload its command entry.
pub open spec fn payloads_match(append: AppendView) -> bool {
    let first = append.entries.prev.index.0 + 1;
    &&& forall|i: int|
        0 <= i < append.entries.seq.len() && (#[trigger] append.entries.seq[i]) is Command
            ==> append.payloads.contains_key((first + i) as u64)
    &&& forall|index: u64| #[trigger]
        append.payloads.contains_key(index) ==> first <= index < first + append.entries.seq.len()
            && append.entries.seq[index - first] is Command
}

/// An append is valid exactly where its indexes are 64-bit integers and its payloads match its
/// command entries.
pub proof fn append_is_valid(append: AppendView)
    ensures
        append.validation() is Ok <==> append.entries.prev.index.0 + append.entries.seq.len()
            <= u64::MAX && payloads_match(append),
        append.entries.prev.index.0 + append.entries.seq.len() > u64::MAX
            <==> append.validation() == Err::<(), StorageError>(StorageError::LogIndexOverflow),
        append.validation() == Err::<(), StorageError>(StorageError::MissingCommandPayload) ==> exists|
            i: int,
        |
            0 <= i < append.entries.seq.len() && (#[trigger] append.entries.seq[i]) is Command
                && !append.payloads.contains_key((append.entries.prev.index.0 + 1 + i) as u64),
{
    let first = append.entries.prev.index.0 + 1;
    let seq = append.entries.seq;
    if append.entries.wf() {
        assert forall|i: int| 0 <= i < seq.len() && (#[trigger] seq[i]) is Command implies append.is_command(
            ((first + i) as u64) as int,
        ) by {}
        if append.commands_have_payloads() {
            assert forall|i: int|
                0 <= i < seq.len() && (#[trigger] seq[i]) is Command implies append.payloads.contains_key(
                (first + i) as u64,
            ) by {
                assert(append.is_command(((first + i) as u64) as int));
            }
        } else {
            let index = choose|index: u64| #[trigger]
                append.is_command(index as int) && !append.payloads.contains_key(index);
            assert(seq[index - first] is Command);
            assert((first + (index - first)) as u64 == index);
        }
        if append.payloads_have_commands() {
            assert forall|index: u64| #[trigger] append.payloads.contains_key(index) implies first
                <= index < first + seq.len() && seq[index - first] is Command by {
                assert(append.is_command(index as int));
            }
        } else {
            let index = choose|index: u64| #[trigger]
                append.payloads.contains_key(index) && !append.is_command(index as int);
            if first <= index < first + seq.len() && seq[index - first] is Command {
                assert(append.is_command(index as int));
            }
        }
    }
}

/// Whether a state is another one after an append: up to the anchor the log and the payloads
/// are what they were, behind it they are those of the append, and nothing else has changed.
pub open spec fn replaces_suffix(before: StateView, append: AppendView, after: StateView) -> bool {
    let anchor = append.entries.prev.index.0;
    let kept = anchor - before.log.entries.prev.index.0;
    &&& after.current_term == before.current_term
    &&& after.voted_for == before.voted_for
    &&& after.snapshot == before.snapshot
    &&& after.log.snapshot_config == before.log.snapshot_config
    &&& after.log.entries.prev == before.log.entries.prev
    &&& after.log.entries.seq.len() == kept + append.entries.seq.len()
    &&& forall|i: int|
        0 <= i < kept ==> (#[trigger] after.log.entries.seq[i]) == before.log.entries.seq[i]
    &&& forall|i: int|
        0 <= i < append.entries.seq.len() ==> (#[trigger] append.entries.seq[i])
            == after.log.entries.seq[kept + i]
    &&& forall|index: u64|
        index <= anchor ==> (#[trigger] after.payloads.contains_key(index)
            == before.payloads.contains_key(index)) && (after.payloads.contains_key(index)
            ==> after.payloads[index] == before.payloads[index])
    &&& forall|index: u64|
        index > anchor ==> (#[trigger] after.payloads.contains_key(index)
            == append.payloads.contains_key(index)) && (after.payloads.contains_key(index)
            ==> after.payloads[index] == append.payloads[index])
}

/// An append can be applied exactly where it is valid and anchored in the log, and then
/// replaces what comes behind the anchor.
pub proof fn append_replaces_suffix(state: StateView, append: AppendView)
    requires
        state.log.entries.seq.len() <= usize::MAX,
    ensures
        ({
            let result = state.apply_append(append);
            let prev = append.entries.prev;
            let valid = append.entries.prev.index.0 + append.entries.seq.len() <= u64::MAX
                && payloads_match(append);
            let fits = anchored(state.log.entries, prev.index.0 as int, prev.term);
            &&& result is Ok <==> valid && fits
            &&& valid && !fits <==> result == Err::<StateView, StorageError>(
                StorageError::AppendAnchorMissing,
            )
            &&& result matches Ok(after) ==> replaces_suffix(state, append, after)
        }),
{
    append_is_valid(append);
    let entries = append.entries;
    if append.validation() is Ok && anchored(
        state.log.entries,
        entries.prev.index.0 as int,
        entries.prev.term,
    ) {
        let after = state.appended(append);
        let anchor = entries.prev.index.0;
        let kept = anchor - state.log.entries.prev.index.0;
        assert(state.apply_append(append) == Ok::<StateView, StorageError>(after));
        assert forall|i: int| 0 <= i < entries.seq.len() implies (#[trigger] entries.seq[i])
            == after.log.entries.seq[kept + i] by {}
        assert forall|index: u64| index <= anchor implies !(#[trigger] append.payloads.contains_key(
            index,
        )) by {}
        assert forall|index: u64| index <= anchor implies (#[trigger] after.payloads.contains_key(
            index,
        ) == state.payloads.contains_key(index)) && (after.payloads.contains_key(index)
            ==> after.payloads[index] == state.payloads[index]) by {
            assert(!append.payloads.contains_key(index));
        }
    }
}

/// Whether a state is another one after a snapshot: the log starts at the snapshot with the
/// entries and payloads behind it that were there, and term and vote have not changed.
pub open spec fn starts_at_snapshot(
    before: StateView,
    snapshot: SnapshotView,
    after: StateView,
) -> bool {
    let index = snapshot.last_included.index.0;
    let old_end = before.log.entries.prev.index.0 + before.log.entries.seq.len();
    let dropped = index - before.log.entries.prev.index.0;
    &&& after.current_term == before.current_term
    &&& after.voted_for == before.voted_for
    &&& after.snapshot == Some(snapshot)
    &&& after.log.snapshot_config == snapshot.config
    &&& after.log.entries.prev == snapshot.last_included
    &&& after.log.entries.seq.len() == (if index <= old_end && old_end <= u64::MAX {
        old_end - index
    } else {
        0
    })
    &&& forall|i: int|
        0 <= i < after.log.entries.seq.len() ==> (#[trigger] after.log.entries.seq[i])
            == before.log.entries.seq[dropped + i]
    &&& forall|key: u64|
        (#[trigger] after.payloads.contains_key(key) <==> key > index
            && before.payloads.contains_key(key)) && (after.payloads.contains_key(key)
            ==> after.payloads[key] == before.payloads[key])
}

/// A snapshot can be applied exactly where the log has its position or ends before it, and
/// then moves the start of the log there.
pub proof fn snapshot_moves_start(state: StateView, snapshot: SnapshotView)
    ensures
        ({
            let result = state.apply_snapshot(snapshot);
            let position = snapshot.last_included;
            let log = state.log.entries;
            let end = log.prev.index.0 + log.seq.len();
            let behind = log.prev.index.0 <= position.index.0 && (end < position.index.0 || end
                > u64::MAX);
            let fits = anchored(log, position.index.0 as int, position.term);
            &&& result is Ok <==> behind || fits
            &&& position.index.0 < log.prev.index.0 <==> result == Err::<StateView, StorageError>(
                StorageError::SnapshotTooOld,
            )
            &&& result matches Ok(after) ==> starts_at_snapshot(state, snapshot, after)
        }),
{
    let position = snapshot.last_included;
    let log = state.log.entries;
    if let Ok(after) = state.apply_snapshot(snapshot) {
        assert(log.contains(position) <==> anchored(log, position.index.0 as int, position.term));
    }
}

// ---------------------------------------------------------------------------------------
// Saves and loads
// ---------------------------------------------------------------------------------------

/// Whether a node was created and not removed.
pub open spec fn is_registered(engine: EngineView, node: NodeId) -> bool {
    engine.registry.contains_key(node.0) && !engine.registry[node.0].removed
}

proof fn registered_is_active(engine: EngineView, node: NodeId)
    ensures
        is_registered(engine, node) <==> engine.access(node) is Ok,
        is_registered(engine, node) <==> active_nodes(engine.registry).contains(node.0),
{
}

/// Terms and votes can always be stored.
pub proof fn terms_and_votes_are_storable(node: NodeId, term: Term, vote: Option<NodeId>)
    ensures
        storable(node, RecordView::CurrentTerm(term)),
        storable(node, RecordView::VotedFor(vote)),
{
    le_bytes_len(node.0 as nat, 8);
    le_bytes_len(term.0 as nat, 8);
    if let Some(id) = vote {
        le_bytes_len(id.0 as nat, 8);
    }
}

/// What can be stored is written as long as segment numbers do not run out.
pub proof fn storable_is_written(engine: EngineView, node: NodeId, record: RecordView)
    requires
        record.wf(),
        storable(node, record),
        engine.active < u64::MAX,
    ensures
        engine.append(node, record) is Ok,
{
    reveal(EngineView::append);
    written_body_exact(node, record);
}

/// A record is written exactly when it can be stored and a segment is left for it: only a full
/// segment with the largest number takes no further record.
pub proof fn records_are_written_unless_full(engine: EngineView, node: NodeId, record: RecordView)
    requires
        record.wf(),
    ensures
        ({
            let len = 8 + body_bytes(node, record).len();
            let full = engine.segment_len > 4 && engine.segment_len + len > engine.max_segment_len;
            &&& engine.append(node, record) is Ok <==> storable(node, record) && !(full
                && engine.active == u64::MAX)
            &&& storable(node, record) && full && engine.active == u64::MAX ==> engine.append(
                node,
                record,
            ) == Err::<(Seq<StepView>, RecordPosition), StorageError>(
                StorageError::SegmentIdOverflow,
            )
        }),
{
    reveal(EngineView::append);
    written_body_exact(node, record);
    if storable(node, record) {
        le_bytes_len(body_bytes(node, record).len(), 4);
        le_bytes_len(crc32c_spec(body_bytes(node, record)) as nat, 4);
    }
}

/// After a term was saved, a load of the node gives this term, and all else as before; loads of
/// other nodes give what they gave. A term of an active node can always be saved, as long as
/// segment numbers do not run out.
pub proof fn load_gives_saved_term(
    engine: EngineView,
    segments: Seq<SegmentView>,
    node: NodeId,
    term: Term,
    operation: StorageOperationKind,
    result: Result<Vec<Step>, StorageError>,
    now: EngineView,
    other: u64,
)
    requires
        consistent(engine, segments),
        is_registered(engine, node),
        saves_record(engine, node, RecordView::CurrentTerm(term), operation, result, now),
        other != node.0,
    ensures
        engine.active < u64::MAX ==> result is Ok,
        now == engine,
        result is Ok ==> {
            let steps = steps_view(result->Ok_0@);
            let written = now.after_all(steps, 0);
            let after = segments_after_all(segments, now, steps, 0);
            &&& consistent(written, after)
            &&& (match loaded(engine, segments, node.0) {
                Ok(before) => {
                    &&& loaded(written, after, node.0) matches Ok(state) && {
                        &&& state.current_term == term
                        &&& state.voted_for == before.voted_for
                        &&& state.log == before.log
                        &&& state.payloads == before.payloads
                        &&& state.snapshot == before.snapshot
                    }
                },
                Err(error) => loaded(written, after, node.0) == Err::<StateView, StorageError>(error),
            })
            &&& loaded(written, after, other) == loaded(engine, segments, other)
        },
{
    let record = RecordView::CurrentTerm(term);
    registered_is_active(engine, node);
    terms_and_votes_are_storable(node, term, None);
    if engine.active < u64::MAX {
        storable_is_written(engine, node, record);
    }
    if result is Ok {
        load_gives_saved_record(engine, segments, node, record, other);
    }
}

/// After a vote was saved, a load of the node gives this vote, and all else as before; loads of
/// other nodes give what they gave. A vote of an active node can always be saved, as long as
/// segment numbers do not run out.
pub proof fn load_gives_saved_vote(
    engine: EngineView,
    segments: Seq<SegmentView>,
    node: NodeId,
    vote: Option<NodeId>,
    operation: StorageOperationKind,
    result: Result<Vec<Step>, StorageError>,
    now: EngineView,
    other: u64,
)
    requires
        consistent(engine, segments),
        is_registered(engine, node),
        saves_record(engine, node, RecordView::VotedFor(vote), operation, result, now),
        other != node.0,
    ensures
        engine.active < u64::MAX ==> result is Ok,
        now == engine,
        result is Ok ==> {
            let steps = steps_view(result->Ok_0@);
            let written = now.after_all(steps, 0);
            let after = segments_after_all(segments, now, steps, 0);
            &&& consistent(written, after)
            &&& (match loaded(engine, segments, node.0) {
                Ok(before) => {
                    &&& loaded(written, after, node.0) matches Ok(state) && {
                        &&& state.voted_for == vote
                        &&& state.current_term == before.current_term
                        &&& state.log == before.log
                        &&& state.payloads == before.payloads
                        &&& state.snapshot == before.snapshot
                    }
                },
                Err(error) => loaded(written, after, node.0) == Err::<StateView, StorageError>(error),
            })
            &&& loaded(written, after, other) == loaded(engine, segments, other)
        },
{
    let record = RecordView::VotedFor(vote);
    registered_is_active(engine, node);
    terms_and_votes_are_storable(node, Term(0), vote);
    if engine.active < u64::MAX {
        storable_is_written(engine, node, record);
    }
    if result is Ok {
        load_gives_saved_record(engine, segments, node, record, other);
    }
}

/// After log entries were appended, a load of the node gives the log and the payloads with what
/// comes behind the anchor replaced, where the log had the anchor, and fails otherwise; loads of
/// other nodes give what they gave.
pub proof fn load_gives_appended_entries(
    engine: EngineView,
    segments: Seq<SegmentView>,
    node: NodeId,
    append: AppendView,
    operation: StorageOperationKind,
    result: Result<Vec<Step>, StorageError>,
    now: EngineView,
    other: u64,
)
    requires
        consistent(engine, segments),
        is_registered(engine, node),
        append.entries.prev.index.0 + append.entries.seq.len() <= u64::MAX,
        payloads_match(append),
        saves_record(engine, node, RecordView::Append(append), operation, result, now),
        other != node.0,
    ensures
        now == engine,
        result is Ok ==> {
            let steps = steps_view(result->Ok_0@);
            let written = now.after_all(steps, 0);
            let after = segments_after_all(segments, now, steps, 0);
            let prev = append.entries.prev;
            &&& consistent(written, after)
            &&& (match loaded(engine, segments, node.0) {
                Ok(before) => if before.log.entries.seq.len() > usize::MAX {
                    loaded(written, after, node.0) is Err
                } else if anchored(before.log.entries, prev.index.0 as int, prev.term) {
                    loaded(written, after, node.0) matches Ok(state) && replaces_suffix(
                        before,
                        append,
                        state,
                    )
                } else {
                    loaded(written, after, node.0) == Err::<StateView, StorageError>(
                        StorageError::AppendAnchorMissing,
                    )
                },
                Err(error) => loaded(written, after, node.0) == Err::<StateView, StorageError>(error),
            })
            &&& loaded(written, after, other) == loaded(engine, segments, other)
        },
{
    let record = RecordView::Append(append);
    registered_is_active(engine, node);
    if result is Ok {
        load_gives_saved_record(engine, segments, node, record, other);
        if let Ok(before) = loaded(engine, segments, node.0) {
            if before.log.entries.seq.len() <= usize::MAX {
                append_replaces_suffix(before, append);
            }
        }
    }
}

/// A load of a node that was created gives term zero, no vote, an empty log at the zero position
/// and an empty snapshot there; loads of other nodes give what they gave.
pub proof fn load_gives_empty_node(
    engine: EngineView,
    segments: Seq<SegmentView>,
    node: NodeId,
    metadata: MetadataView,
    deleted: u64,
    other: u64,
)
    requires
        consistent(engine, segments),
        indexed(engine),
        engine.create_node(node, metadata) is Ok,
        other != node.0,
    ensures
        ({
            let steps = engine.create_node(node, metadata)->Ok_0;
            let made = engine.after_all(steps, deleted);
            let after = segments_after_all(segments, engine, steps, deleted);
            &&& is_registered(made, node)
            &&& loaded(made, after, node.0) matches Ok(state) && {
                &&& state.current_term.0 == 0
                &&& state.voted_for is None
                &&& state.payloads.dom().is_empty()
                &&& state.log.entries.prev.index.0 == 0
                &&& state.log.entries.prev.term.0 == 0
                &&& state.log.entries.seq.len() == 0
                &&& state.log.snapshot_config.voters.is_empty()
                &&& state.log.snapshot_config.new_voters.is_empty()
                &&& state.log.snapshot_config.non_voters.is_empty()
                &&& state.snapshot matches Some(snapshot) && {
                    &&& snapshot.last_included.index.0 == 0
                    &&& snapshot.last_included.term.0 == 0
                    &&& snapshot.data.len() == 0
                    &&& snapshot.config.voters.is_empty()
                    &&& snapshot.config.new_voters.is_empty()
                    &&& snapshot.config.non_voters.is_empty()
                }
            }
            &&& loaded(made, after, other) == loaded(engine, segments, other)
        }),
{
    load_gives_created_node(engine, segments, node, metadata, deleted, other);
    let steps = engine.create_node(node, metadata)->Ok_0;
    registered_is_active(engine.after_all(steps, deleted), node);
}

} // verus!
