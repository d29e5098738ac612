//! Laws of loads: what is read back is valid, which records a load replays, and how it counts
//! them.

use vstd::prelude::*;

verus! {

use crate::checkpoint_index::find_segment;
use crate::counting::of_kind;
use crate::durability::{consistent, loaded, loaded_is_stored};
use crate::format::{body_node_id, parse_append, parse_body, parse_checkpoint};
use crate::frames::complete_frame_fits;
use crate::history::{
    all_decodable_from, all_decode, all_records, applicable, checkpoint_pass, content, decodable,
    decoded_node_id, history_of, in_order, is_checkpoint_of, is_of, last_checkpoint,
    last_checkpoint_sound, live_history, load_replays_suffix, position_in, records_in_order,
    replayed, run_records, run_records_concat, run_whole_storage, valid_hint, whole_storage,
    Located,
};
use crate::record::{AppendView, RecordView};
use crate::reopen::record_is_found;
use crate::replay::{checkpoint_run, checkpoint_step, node_run, node_step, replay_step, state_of};
use crate::saving::{append_is_valid, payloads_match};
use crate::scan::{Run, SegmentView};
use crate::segment::RecordPosition;
use crate::state::{apply_keeps_payloads_matching, default_state, default_state_wf, StateView};
use crate::stats::{RecordKindMetric, StorageStats};
use crate::storage::EngineView;
use crate::syncing::{capped, metric_of};

// ---------------------------------------------------------------------------------------
// What is read back
// ---------------------------------------------------------------------------------------

/// A record that is read has matching payloads and 64-bit indexes, and the suffix of a checkpoint
/// starts at its snapshot.
pub proof fn read_records_are_valid(body: Seq<u8>)
    requires
        parse_body(body) is Ok,
    ensures
        match parse_body(body)->Ok_0.record {
            RecordView::Append(append) => payloads_match(append) && append.entries.prev.index.0
                + append.entries.seq.len() <= u64::MAX,
            RecordView::SnapshotCheckpoint(checkpoint) => {
                &&& payloads_match(checkpoint.suffix)
                &&& checkpoint.suffix.entries.prev.index.0 + checkpoint.suffix.entries.seq.len()
                    <= u64::MAX
                &&& checkpoint.suffix.entries.prev == checkpoint.snapshot.last_included
            },
            _ => true,
        },
        parse_body(body)->Ok_0.record.wf(),
{
    reveal(parse_append);
    reveal(parse_checkpoint);
    match parse_body(body)->Ok_0.record {
        RecordView::Append(append) => {
            append_is_valid(append);
        },
        RecordView::SnapshotCheckpoint(checkpoint) => {
            append_is_valid(checkpoint.suffix);
        },
        _ => {},
    }
}

proof fn decoded_history_is_wf(records: Seq<Located>, node: u64, i: int)
    requires
        forall|k: int| 0 <= k < records.len() ==> parse_body((#[trigger] records[k]).body) is Ok,
        0 <= i < history_of(records, node).len(),
    ensures
        history_of(records, node)[i].wf(),
    decreases records.len(),
{
    let front = records.drop_last();
    assert forall|k: int| 0 <= k < front.len() implies parse_body((#[trigger] front[k]).body) is Ok by {
        assert(front[k] == records[k]);
    }
    assert(records[records.len() - 1] == records.last());
    if is_of(records.last(), node) && i == history_of(front, node).len() {
        read_records_are_valid(records.last().body);
    } else {
        decoded_history_is_wf(front, node, i);
    }
}

proof fn replayed_is_wf(state: StateView, history: Seq<RecordView>)
    requires
        state.wf(),
        forall|i: int| 0 <= i < history.len() ==> (#[trigger] history[i]).wf(),
        replayed(state, history) is Ok,
    ensures
        replayed(state, history)->Ok_0.wf(),
    decreases history.len(),
{
    if history.len() > 0 {
        let front = history.drop_last();
        assert forall|i: int| 0 <= i < front.len() implies (#[trigger] front[i]).wf() by {
            assert(front[i] == history[i]);
        }
        replayed_is_wf(state, front);
        assert(history[history.len() - 1] == history.last());
        apply_keeps_payloads_matching(replayed(state, front)->Ok_0, history.last());
    }
}

/// In a state that a load gives, each command entry of the log has a payload, each payload its
/// command entry, and indexes are 64-bit integers.
pub proof fn loaded_payloads_match(engine: EngineView, segments: Seq<SegmentView>, node: u64)
    requires
        consistent(engine, segments),
        loaded(engine, segments, node) is Ok,
    ensures
        ({
            let state = loaded(engine, segments, node)->Ok_0;
            &&& state.log.entries.prev.index.0 + state.log.entries.seq.len() <= u64::MAX
            &&& payloads_match(AppendView { entries: state.log.entries, payloads: state.payloads })
        }),
{
    let all = all_records(segments);
    let history = live_history(all, node);
    let from = match last_checkpoint(all, node) {
        None => all,
        Some(k) => all.skip(k),
    };
    loaded_is_stored(engine, segments, node);
    last_checkpoint_sound(all, node);
    assert forall|k: int| 0 <= k < from.len() implies parse_body((#[trigger] from[k]).body) is Ok by {
        reveal(consistent);
        if let Some(start) = last_checkpoint(all, node) {
            assert(from[k] == all[start + k]);
        }
    }
    assert forall|i: int| 0 <= i < history.len() implies (#[trigger] history[i]).wf() by {
        decoded_history_is_wf(from, node, i);
    }
    default_state_wf();
    replayed_is_wf(default_state(), history);
    let state = loaded(engine, segments, node)->Ok_0;
    append_is_valid(AppendView { entries: state.log.entries, payloads: state.payloads });
}

proof fn no_history(records: Seq<Located>, node: u64)
    requires
        forall|i: int| 0 <= i < records.len() ==> !is_of(#[trigger] records[i], node),
    ensures
        history_of(records, node).len() == 0,
        last_checkpoint(records, node) is None,
    decreases records.len(),
{
    if records.len() > 0 {
        let front = records.drop_last();
        assert forall|i: int| 0 <= i < front.len() implies !is_of(#[trigger] front[i], node) by {
            assert(front[i] == records[i]);
        }
        assert(!is_of(records[records.len() - 1], node));
        no_history(front, node);
    }
}

/// A load of a node of which nothing is stored gives term zero, no vote, an empty log at the zero
/// position, and no snapshot.
pub proof fn load_of_nothing_gives_zero(engine: EngineView, segments: Seq<SegmentView>, node: u64)
    requires
        consistent(engine, segments),
        forall|i: int|
            0 <= i < all_records(segments).len() ==> !is_of(#[trigger] all_records(segments)[i], node),
    ensures
        loaded(engine, segments, node) matches Ok(state) && {
            &&& state.current_term.0 == 0
            &&& state.voted_for is None
            &&& state.snapshot is None
            &&& state.payloads.dom().is_empty()
            &&& state.log.entries.prev.index.0 == 0
            &&& state.log.entries.prev.term.0 == 0
            &&& state.log.entries.seq.len() == 0
            &&& state.log.snapshot_config.voters.is_empty()
            &&& state.log.snapshot_config.new_voters.is_empty()
            &&& state.log.snapshot_config.non_voters.is_empty()
        },
{
    loaded_is_stored(engine, segments, node);
    no_history(all_records(segments), node);
}

// ---------------------------------------------------------------------------------------
// How replay is counted
// ---------------------------------------------------------------------------------------

/// How many records of a kind, or how many bytes of frames of a kind, the records of a node have
/// that do not come before a position.
pub open spec fn replay_weight(
    records: Seq<Located>,
    node: u64,
    checkpoint: Option<RecordPosition>,
    kind: RecordKindMetric,
    in_bytes: bool,
) -> nat
    decreases records.len(),
{
    if records.len() == 0 {
        0
    } else {
        let front = replay_weight(records.drop_last(), node, checkpoint, kind, in_bytes);
        let last = records.last();
        if is_of(last, node) && !(checkpoint matches Some(first) && last.position.before(first))
            && metric_of(content(last)) == kind {
            front + if in_bytes {
                8 + last.body.len()
            } else {
                1
            }
        } else {
            front
        }
    }
}

/// The counter of a kind of records.
pub open spec fn replay_counter(stats: StorageStats, kind: RecordKindMetric, in_bytes: bool) -> u64 {
    if in_bytes {
        of_kind(stats.bytes_replayed, kind)
    } else {
        of_kind(stats.records_replayed, kind)
    }
}

/// A pass that succeeds counts what it applies.
proof fn pass_is_counted(
    run: Run<StateView>,
    records: Seq<Located>,
    node: u64,
    checkpoint: Option<RecordPosition>,
    kind: RecordKindMetric,
    in_bytes: bool,
)
    requires
        run.failure is None,
        applicable(records, node, checkpoint),
        forall|i: int| 0 <= i < records.len() ==> (#[trigger] records[i]).body.len() + 8 <= u64::MAX,
        run_records(run, records, node_step(node, checkpoint)).failure is None,
    ensures
        ({
            let end = run_records(run, records, node_step(node, checkpoint));
            &&& replay_counter(end.stats, kind, in_bytes) == capped(
                replay_counter(run.stats, kind, in_bytes) + replay_weight(
                    records,
                    node,
                    checkpoint,
                    kind,
                    in_bytes,
                ),
            )
            &&& (StorageStats {
                records_replayed: run.stats.records_replayed,
                bytes_replayed: run.stats.bytes_replayed,
                ..end.stats
            }) == run.stats
        }),
    decreases records.len(),
{
    let step = node_step(node, checkpoint);
    if records.len() > 0 {
        let front = records.drop_last();
        let last = records.last();
        assert(records[records.len() - 1] == last);
        assert(applicable(front, node, checkpoint)) by {
            assert forall|i: int| 0 <= i < front.len() implies body_node_id(
                (#[trigger] front[i]).body,
            ) is Ok && (is_of(front[i], node) && !(checkpoint matches Some(first)
                && front[i].position.before(first)) ==> parse_body(front[i].body) is Ok) by {
                assert(front[i] == records[i]);
            }
        }
        assert forall|i: int| 0 <= i < front.len() implies (#[trigger] front[i]).body.len() + 8
            <= u64::MAX by {
            assert(front[i] == records[i]);
        }
        let middle = run_records(run, front, step);
        run_records_concat(run, front, seq![last], step);
        assert(front + seq![last] =~= records);
        assert(middle.failure is None) by {
            if middle.failure is Some {
                assert(run_records(middle, seq![last], step) == middle);
            }
        }
        pass_is_counted(run, front, node, checkpoint, kind, in_bytes);
        let end = step(middle, last.position, last.body);
        assert(seq![last].skip(1) =~= Seq::empty());
        assert(run_records(end, Seq::empty(), step) == end);
        assert(run_records(middle, seq![last], step) == end);
        decoded_node_id(last.body);
    }
}

proof fn weight_before(
    records: Seq<Located>,
    node: u64,
    first: RecordPosition,
    kind: RecordKindMetric,
    in_bytes: bool,
)
    requires
        forall|i: int| 0 <= i < records.len() ==> (#[trigger] records[i]).position.before(first),
    ensures
        replay_weight(records, node, Some(first), kind, in_bytes) == 0,
    decreases records.len(),
{
    if records.len() > 0 {
        let front = records.drop_last();
        assert forall|i: int| 0 <= i < front.len() implies (#[trigger] front[i]).position.before(
            first,
        ) by {
            assert(front[i] == records[i]);
        }
        assert(records[records.len() - 1].position.before(first));
        weight_before(front, node, first, kind, in_bytes);
    }
}

proof fn weight_from_checkpoint(
    records: Seq<Located>,
    node: u64,
    k: int,
    kind: RecordKindMetric,
    in_bytes: bool,
)
    requires
        in_order(records),
        0 <= k < records.len(),
    ensures
        replay_weight(records, node, Some(records[k].position), kind, in_bytes) == replay_weight(
            records.skip(k),
            node,
            None,
            kind,
            in_bytes,
        ),
    decreases records.len(),
{
    let first = records[k].position;
    let front = records.drop_last();
    let tail = records.skip(k);
    assert(in_order(front)) by {
        assert forall|i: int, j: int| 0 <= i < j < front.len() implies (
        #[trigger] front[i]).position.before((#[trigger] front[j]).position) by {
            assert(front[i] == records[i]);
            assert(front[j] == records[j]);
        }
    }
    assert(tail.last() == records.last());
    if k < front.len() {
        assert(front[k] == records[k]);
        weight_from_checkpoint(front, node, k, kind, in_bytes);
        assert(tail.drop_last() =~= front.skip(k));
        assert(records[k].position.before(records[records.len() - 1].position));
        assert(!records.last().position.before(first));
    } else {
        weight_before(front, node, first, kind, in_bytes);
        assert(tail.drop_last() =~= Seq::empty());
        assert(replay_weight(tail.drop_last(), node, None, kind, in_bytes) == 0);
        assert(!first.before(first));
    }
}

/// The records that make up the state of a node: from its last checkpoint on, of all records, those
/// of the node.
pub open spec fn live_records(records: Seq<Located>, node: u64) -> Seq<Located> {
    match last_checkpoint(records, node) {
        None => records,
        Some(k) => records.skip(k),
    }
}

/// A load that succeeds counts as replayed, by kind, exactly the records of the node from its last
/// checkpoint on, and their frames in bytes; it changes nothing else of the statistics.
pub proof fn loads_count_live_records(
    engine: EngineView,
    segments: Seq<SegmentView>,
    node: u64,
    kind: RecordKindMetric,
    in_bytes: bool,
)
    requires
        consistent(engine, segments),
        loaded(engine, segments, node) is Ok,
    ensures
        ({
            let hint = position_in(engine.index, node);
            let after = node_run(engine.stats, segments, engine.active, node, hint).0.stats;
            let live = live_records(all_records(segments), node);
            &&& replay_counter(after, kind, in_bytes) == capped(
                replay_counter(engine.stats, kind, in_bytes) + replay_weight(
                    live,
                    node,
                    None,
                    kind,
                    in_bytes,
                ),
            )
            &&& (StorageStats {
                records_replayed: engine.stats.records_replayed,
                bytes_replayed: engine.stats.bytes_replayed,
                ..after
            }) == engine.stats
        }),
{
    let all = all_records(segments);
    let hint = position_in(engine.index, node);
    assert(whole_storage(segments) && all_decode(all) && valid_hint(all, node, hint)) by {
        reveal(consistent);
    }
    all_decodable_from(all, set![node], hint);
    let j = load_replays_suffix(engine.stats, segments, engine.active, node, hint);
    records_in_order(segments);
    bodies_are_short(segments);
    let start = Run { acc: default_state(), stats: engine.stats, failure: None };
    match last_checkpoint(all, node) {
        None => {
            pass_is_counted(start, all, node, None, kind, in_bytes);
        },
        Some(last) => {
            suffix_is_counted(start, all, node, j, last, kind, in_bytes);
        },
    }
}

proof fn bodies_are_short(segments: Seq<SegmentView>)
    requires
        whole_storage(segments),
    ensures
        forall|i: int|
            0 <= i < all_records(segments).len() ==> (#[trigger] all_records(segments)[i]).body.len()
                + 8 <= u64::MAX,
{
    let all = all_records(segments);
    assert forall|i: int| 0 <= i < all.len() implies (#[trigger] all[i]).body.len() + 8 <= u64::MAX by {
        record_is_found(segments, i);
        let bytes = find_segment(segments, all[i].position.segment.id)->0;
        complete_frame_fits(bytes.skip(all[i].position.offset as int));
    }
}

proof fn suffix_is_counted(
    start: Run<StateView>,
    all: Seq<Located>,
    node: u64,
    j: int,
    last: int,
    kind: RecordKindMetric,
    in_bytes: bool,
)
    requires
        start.failure is None,
        in_order(all),
        0 <= j <= last < all.len(),
        forall|i: int| 0 <= i < all.len() ==> (#[trigger] all[i]).body.len() + 8 <= u64::MAX,
        applicable(all.skip(j), node, Some(all[last].position)),
        run_records(
            start,
            all.skip(j),
            node_step(node, Some(all[last].position)),
        ).failure is None,
    ensures
        ({
            let end = run_records(
                start,
                all.skip(j),
                node_step(node, Some(all[last].position)),
            );
            &&& replay_counter(end.stats, kind, in_bytes) == capped(
                replay_counter(start.stats, kind, in_bytes) + replay_weight(
                    all.skip(last),
                    node,
                    None,
                    kind,
                    in_bytes,
                ),
            )
            &&& (StorageStats {
                records_replayed: start.stats.records_replayed,
                bytes_replayed: start.stats.bytes_replayed,
                ..end.stats
            }) == start.stats
        }),
{
    let tail = all.skip(j);
    let position = all[last].position;
    assert forall|i: int| 0 <= i < tail.len() implies (#[trigger] tail[i]).body.len() + 8
        <= u64::MAX by {
        assert(tail[i] == all[j + i]);
    }
    assert(in_order(tail)) by {
        assert forall|a: int, b: int| 0 <= a < b < tail.len() implies (
        #[trigger] tail[a]).position.before((#[trigger] tail[b]).position) by {
            assert(tail[a] == all[j + a]);
            assert(tail[b] == all[j + b]);
        }
    }
    pass_is_counted(start, tail, node, Some(position), kind, in_bytes);
    assert(tail[last - j] == all[last]);
    weight_from_checkpoint(tail, node, last - j, kind, in_bytes);
    assert(tail.skip(last - j) =~= all.skip(last));
}

// ---------------------------------------------------------------------------------------
// Passes over the records of many nodes
// ---------------------------------------------------------------------------------------

/// A replay of many nodes treats the record of each of them as a replay of that node alone does,
/// in what it gives, in why it fails and in what it counts; it passes over the records of others.
pub proof fn replay_treats_nodes_alike(
    nodes: Set<u64>,
    positions: Map<u64, RecordPosition>,
    many: Run<Map<u64, StateView>>,
    one: Run<StateView>,
    position: RecordPosition,
    body: Seq<u8>,
    node: u64,
)
    requires
        body_node_id(body) matches Ok(id) && id.0 == node,
        many.failure == one.failure,
        many.stats == one.stats,
        state_of(many.acc, node) == one.acc,
    ensures
        ({
            let many_step = replay_step(nodes, positions);
            let one_step = node_step(node, position_in(positions, node));
            let many_after = many_step(many, position, body);
            let one_after = one_step(one, position, body);
            if nodes.contains(node) {
                &&& many_after.failure == one_after.failure
                &&& many_after.stats == one_after.stats
                &&& state_of(many_after.acc, node) == one_after.acc
                &&& many_after.acc.remove(node) == many.acc.remove(node)
            } else {
                many_after == many
            }
        }),
{
    let many_step = replay_step(nodes, positions);
    let many_after = many_step(many, position, body);
    assert(many_after.acc.remove(node) =~= many.acc.remove(node));
}

/// A scan for checkpoints finds the last checkpoint of each of the given nodes that has one, and
/// counts nothing.
pub proof fn scan_finds_last_checkpoints(
    stats: StorageStats,
    segments: Seq<SegmentView>,
    active: u64,
    nodes: Set<u64>,
    node: u64,
)
    requires
        whole_storage(segments),
        decodable(all_records(segments), nodes),
    ensures
        ({
            let all = all_records(segments);
            let (found, after) = checkpoint_run(stats, segments, active, nodes, None);
            &&& found.failure is None
            &&& found.stats == stats
            &&& after == segments
            &&& found.acc.contains_key(node) <==> nodes.contains(node) && exists|k: int|
                0 <= k < all.len() && is_checkpoint_of(#[trigger] all[k], node)
            &&& found.acc.contains_key(node) ==> exists|k: int|
                0 <= k < all.len() && is_checkpoint_of(#[trigger] all[k], node)
                    && found.acc[node] == all[k].position && forall|later: int|
                    k < later < all.len() ==> !is_checkpoint_of(#[trigger] all[later], node)
        }),
{
    let all = all_records(segments);
    let empty = Run { acc: Map::<u64, RecordPosition>::empty(), stats, failure: None };
    let found = checkpoint_run(stats, segments, active, nodes, None).0;
    run_whole_storage(empty, segments, active, checkpoint_step(nodes));
    checkpoint_pass(empty, all, nodes, node);
    last_checkpoint_sound(all, node);
    if let Some(k) = last_checkpoint(all, node) {
        assert(is_checkpoint_of(all[k], node));
    }
}

} // verus!
