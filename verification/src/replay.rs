//! Rebuilding node states from segment records.

use crate::codec::{
    decode_node_record, decode_record_node_id, frame_len_from_body, read_record_body,
    SEGMENT_RECORD_HEADER_LEN,
};
use crate::error::StorageError;
use crate::ordered::{map_keys, move_into};
use crate::raft::NodeId;
use crate::record::{NodeRecord, Record};
use crate::scan::{read_segment_header, Segment};
use crate::segment::{RecordPosition, SegmentName, SEGMENT_FILE_HEADER_LEN};
use crate::state::{apply_record_to_state, NodeState};
use crate::stats::StorageStatsCounters;
use std::collections::{BTreeMap, BTreeSet};
use vstd::prelude::*;

verus! {

use crate::format::{body_node_id, parse_body, read_frame};
use crate::ordered::{ascending};
use crate::scan::{
    run_rest, run_rest_end, run_rest_step, run_result, run_segment, run_segments, run_segments_end,
    run_segments_skip, run_segments_start, run_segments_step, segments_view, Run, SegmentView, Step,
};
use crate::state::{default_state, StateView};
use crate::stats::StorageStats;

broadcast use {vstd::std_specs::btree::group_btree_axioms, vstd::laws_cmp::group_laws_cmp};

// ---------------------------------------------------------------------------------------
// Finding checkpoints
// ---------------------------------------------------------------------------------------

/// A pass that collects the position of the last checkpoint of each of the given nodes.
pub open spec fn checkpoint_step(nodes: Set<u64>) -> Step<Map<u64, RecordPosition>> {
    |run: Run<Map<u64, RecordPosition>>, position: RecordPosition, body: Seq<u8>|
        match body_node_id(body) {
            Err(error) => run.failed(error),
            Ok(node_id) => if !nodes.contains(node_id.0) {
                run
            } else {
                match parse_body(body) {
                    Err(error) => run.failed(error),
                    Ok(node_record) => if node_record.record is SnapshotCheckpoint {
                        Run { acc: run.acc.insert(node_id.0, position), ..run }
                    } else {
                        run
                    },
                }
            },
        }
}

/// The checkpoint pass over all segments from `start` on.
pub open spec fn checkpoint_run(
    stats: StorageStats,
    segments: Seq<SegmentView>,
    active: u64,
    nodes: Set<u64>,
    start: Option<RecordPosition>,
) -> (Run<Map<u64, RecordPosition>>, Seq<SegmentView>) {
    let run = Run { acc: Map::<u64, RecordPosition>::empty(), stats, failure: None };
    match start {
        None => run_segments(run, segments, active, None, 4, checkpoint_step(nodes)),
        Some(position) => run_segments(
            run,
            segments,
            active,
            Some(position.segment.id),
            position.offset,
            checkpoint_step(nodes),
        ),
    }
}

/// Collects the checkpoint positions in one segment.
fn scan_checkpoint_positions(
    segment: &mut Segment,
    allow_partial: bool,
    nodes: &BTreeSet<u64>,
    offset: u64,
    checkpoints: &mut BTreeMap<u64, RecordPosition>,
    stats: &mut StorageStatsCounters,
) -> (result: Result<(), StorageError>)
    ensures
        ({
            let start = Run { acc: old(checkpoints)@, stats: old(stats)@, failure: None };
            let (run, after) = run_segment(
                start,
                old(segment)@,
                allow_partial,
                offset,
                checkpoint_step(nodes@),
            );
            &&& (match run.failure {
                Some(error) => result == Err::<(), StorageError>(error),
                None => result is Ok,
            })
            &&& final(checkpoints)@ == run.acc
            &&& final(stats)@ == run.stats
            &&& final(segment)@ == after
        }),
{
    if !read_segment_header(segment, allow_partial, true, stats)? {
        return Ok(());
    }
    if offset < SEGMENT_FILE_HEADER_LEN as u64 {
        return Err(StorageError::ScanOffsetPrecedesRecords);
    }
    if (segment.bytes.len() as u64) < offset {
        return Err(StorageError::ScanOffsetExceedsSegment);
    }
    let ghost view = segment@;
    let ghost step = checkpoint_step(nodes@);
    let ghost expected = run_rest(
        Run { acc: checkpoints@, stats: stats@, failure: None },
        view,
        allow_partial,
        offset as nat,
        step,
    );
    let mut position: usize = offset as usize;
    loop
        invariant
            position <= segment.bytes.len(),
            segment@ == view,
            step == checkpoint_step(nodes@),
            run_rest(
                (Run { acc: checkpoints@, stats: stats@, failure: None }),
                view,
                allow_partial,
                position as nat,
                step,
            ) == expected,
            expected == run_segment(
                (Run { acc: old(checkpoints)@, stats: old(stats)@, failure: None }),
                old(segment)@,
                allow_partial,
                offset,
                checkpoint_step(nodes@),
            ),
        ensures
            read_frame(view.bytes.skip(position as int)) == Ok::<Option<Seq<u8>>, StorageError>(None),
        decreases segment.bytes@.len() - position,
    {
        let ghost run = Run { acc: checkpoints@, stats: stats@, failure: None };
        proof {
            if read_frame(view.bytes.skip(position as int)) matches Ok(Some(_)) {
                run_rest_step(run, view, allow_partial, position as nat, step);
            } else {
                run_rest_end(run, view, allow_partial, position as nat, step);
            }
        }
        match read_record_body(segment.bytes.as_slice(), position) {
            Err(error) => {
                if error == StorageError::ChecksumMismatch {
                    stats.checksum_failed();
                }
                return Err(error);
            },
            Ok(None) => {
                break;
            },
            Ok(Some(body)) => {
                let node_id = decode_record_node_id(body)?;
                if nodes.contains(&node_id.0) {
                    let node_record = decode_node_record(body)?;
                    if let Record::SnapshotCheckpoint(_) = node_record.record {
                        checkpoints.insert(
                            node_id.0,
                            RecordPosition { segment: segment.name, offset: position as u64 },
                        );
                    }
                }
                position = position + SEGMENT_RECORD_HEADER_LEN + body.len();
            },
        }
    }
    proof {
        run_rest_end(
            Run { acc: checkpoints@, stats: stats@, failure: None },
            view,
            allow_partial,
            position as nat,
            step,
        );
    }
    if position == segment.bytes.len() {
        return Ok(());
    }
    if allow_partial {
        stats.replay_truncated();
        segment.bytes.truncate(position);
        return Ok(());
    }
    Err(StorageError::PartialRecord)
}

/// Finds the last checkpoint of each of the given nodes, reading from `start` on.
pub fn find_checkpoint_positions_from(
    segments: &mut Vec<Segment>,
    active_segment: SegmentName,
    nodes: &BTreeSet<u64>,
    start: Option<RecordPosition>,
    stats: &mut StorageStatsCounters,
) -> (result: Result<BTreeMap<u64, RecordPosition>, StorageError>)
    ensures
        ({
            let (run, after) = checkpoint_run(
                old(stats)@,
                segments_view(old(segments)@),
                active_segment.id,
                nodes@,
                start,
            );
            &&& (match run_result(run) {
                Ok(positions) => result is Ok && result->Ok_0@ == positions,
                Err(error) => result == Err::<BTreeMap<u64, RecordPosition>, StorageError>(error),
            })
            &&& final(stats)@ == run.stats
            &&& segments_view(final(segments)@) == after
        }),
{
    let ghost active = active_segment.id;
    let ghost step = checkpoint_step(nodes@);
    let ghost from = match start {
        None => None::<u64>,
        Some(position) => Some(position.segment.id),
    };
    let ghost offset = match start {
        None => 4u64,
        Some(position) => position.offset,
    };
    let ghost expected = checkpoint_run(
        old(stats)@,
        segments_view(old(segments)@),
        active,
        nodes@,
        start,
    );
    let mut checkpoints: BTreeMap<u64, RecordPosition> = BTreeMap::new();
    let mut i: usize = 0;
    proof {
        run_segments_start(segments_view(segments@), expected.1);
    }
    while i < segments.len()
        invariant
            i <= segments@.len(),
            active == active_segment.id,
            step == checkpoint_step(nodes@),
            start is None ==> from is None && offset == 4,
            start matches Some(position) ==> from == Some(position.segment.id) && offset
                == position.offset,
            expected == checkpoint_run(
                old(stats)@,
                segments_view(old(segments)@),
                active,
                nodes@,
                start,
            ),
            ({
                let run = Run { acc: checkpoints@, stats: stats@, failure: None };
                let view = segments_view(segments@);
                let rest = run_segments(run, view.skip(i as int), active, from, offset, step);
                &&& rest.0 == expected.0
                &&& view.take(i as int) + rest.1 == expected.1
            }),
        decreases segments@.len() - i,
    {
        let ghost before = segments_view(segments@);
        let ghost run = Run { acc: checkpoints@, stats: stats@, failure: None };
        let name = segments[i].name;
        let mut segment_offset: u64 = SEGMENT_FILE_HEADER_LEN as u64;
        let mut skip: bool = false;
        if let Some(position) = start {
            if name.id < position.segment.id {
                skip = true;
            } else if name.id == position.segment.id {
                segment_offset = position.offset;
            }
        }
        if skip {
            proof {
                run_segments_skip(run, before, i as int, active, from, offset, step);
            }
        } else {
            let allow_partial: bool = name.id == active_segment.id;
            let outcome = scan_checkpoint_positions(
                &mut segments[i],
                allow_partial,
                nodes,
                segment_offset,
                &mut checkpoints,
                stats,
            );
            proof {
                run_segments_step(run, before, i as int, active, from, offset, step);
                let one = run_segment(run, before[i as int], allow_partial, segment_offset, step);
                assert(segments_view(segments@) =~= before.update(i as int, one.1));
            }
            outcome?;
        }
        i = i + 1;
    }
    proof {
        run_segments_end(segments_view(segments@));
    }
    Ok(checkpoints)
}

// ---------------------------------------------------------------------------------------
// Replaying one node
// ---------------------------------------------------------------------------------------

/// A pass that applies the records of one node from its checkpoint on.
pub open spec fn node_step(node: u64, checkpoint: Option<RecordPosition>) -> Step<StateView> {
    |run: Run<StateView>, position: RecordPosition, body: Seq<u8>|
        match body_node_id(body) {
            Err(error) => run.failed(error),
            Ok(node_id) => if node_id.0 != node {
                run
            } else if checkpoint matches Some(first) && position.before(first) {
                run
            } else {
                match parse_body(body) {
                    Err(error) => run.failed(error),
                    Ok(node_record) => match run.acc.apply(node_record.record) {
                        Err(error) => run.failed(error),
                        Ok(state) => Run {
                            acc: state,
                            stats: run.stats.after_record_replayed(
                                node_record.record.kind(),
                                (8 + body.len()) as u64,
                            ),
                            ..run
                        },
                    },
                }
            },
        }
}

/// The pass that rebuilds one node, after the pass that looked for its checkpoint.
pub open spec fn node_run(
    stats: StorageStats,
    segments: Seq<SegmentView>,
    active: u64,
    node: u64,
    hint: Option<RecordPosition>,
) -> (Run<StateView>, Seq<SegmentView>) {
    let (found, after) = checkpoint_run(stats, segments, active, set![node], hint);
    let start = Run { acc: default_state(), stats: found.stats, failure: found.failure };
    let checkpoint = if found.acc.contains_key(node) {
        Some(found.acc[node])
    } else {
        None
    };
    let from = match checkpoint {
        None => None::<u64>,
        Some(position) => Some(position.segment.id),
    };
    run_segments(start, after, active, from, 4, node_step(node, checkpoint))
}

/// Applies the records of one node in one segment.
pub fn replay_node_segment(
    segment: &mut Segment,
    allow_partial: bool,
    target: NodeId,
    checkpoint: Option<RecordPosition>,
    state: &mut NodeState,
    stats: &mut StorageStatsCounters,
) -> (result: Result<(), StorageError>)
    ensures
        ({
            let start = Run { acc: old(state)@, stats: old(stats)@, failure: None };
            let (run, after) = run_segment(
                start,
                old(segment)@,
                allow_partial,
                4,
                node_step(target.0, checkpoint),
            );
            &&& (match run.failure {
                Some(error) => result == Err::<(), StorageError>(error),
                None => result is Ok,
            })
            &&& final(state)@ == run.acc
            &&& final(stats)@ == run.stats
            &&& final(segment)@ == after
        }),
{
    if !read_segment_header(segment, allow_partial, true, stats)? {
        return Ok(());
    }
    let ghost view = segment@;
    let ghost step = node_step(target.0, checkpoint);
    let ghost expected = run_rest(
        Run { acc: state@, stats: stats@, failure: None },
        view,
        allow_partial,
        4,
        step,
    );
    let mut position: usize = SEGMENT_FILE_HEADER_LEN;
    loop
        invariant
            position <= segment.bytes.len(),
            segment@ == view,
            step == node_step(target.0, checkpoint),
            run_rest(
                (Run { acc: state@, stats: stats@, failure: None }),
                view,
                allow_partial,
                position as nat,
                step,
            ) == expected,
            expected == run_segment(
                (Run { acc: old(state)@, stats: old(stats)@, failure: None }),
                old(segment)@,
                allow_partial,
                4,
                node_step(target.0, checkpoint),
            ),
        ensures
            read_frame(view.bytes.skip(position as int)) == Ok::<Option<Seq<u8>>, StorageError>(None),
        decreases segment.bytes@.len() - position,
    {
        let ghost run = Run { acc: state@, stats: stats@, failure: None };
        proof {
            if read_frame(view.bytes.skip(position as int)) matches Ok(Some(_)) {
                run_rest_step(run, view, allow_partial, position as nat, step);
            } else {
                run_rest_end(run, view, allow_partial, position as nat, step);
            }
        }
        match read_record_body(segment.bytes.as_slice(), position) {
            Err(error) => {
                if error == StorageError::ChecksumMismatch {
                    stats.checksum_failed();
                }
                return Err(error);
            },
            Ok(None) => {
                break;
            },
            Ok(Some(body)) => {
                let node_id = decode_record_node_id(body)?;
                if node_id == target {
                    let here = RecordPosition { segment: segment.name, offset: position as u64 };
                    let superseded: bool = match checkpoint {
                        Some(first) => here.precedes(first),
                        None => false,
                    };
                    if !superseded {
                        let node_record = decode_node_record(body)?;
                        let kind = node_record.record.metric_kind();
                        apply_record_to_state(state, node_record.record)?;
                        stats.record_replayed(kind, frame_len_from_body(body));
                    }
                }
                position = position + SEGMENT_RECORD_HEADER_LEN + body.len();
            },
        }
    }
    proof {
        run_rest_end(
            Run { acc: state@, stats: stats@, failure: None },
            view,
            allow_partial,
            position as nat,
            step,
        );
    }
    if position == segment.bytes.len() {
        return Ok(());
    }
    if allow_partial {
        stats.replay_truncated();
        segment.bytes.truncate(position);
        return Ok(());
    }
    Err(StorageError::PartialRecord)
}

/// Rebuilds the state of one node. `checkpoint_hint` is the position of one of its
/// checkpoints, where reading can start.
pub fn replay_node_state(
    segments: &mut Vec<Segment>,
    active_segment: SegmentName,
    node_id: NodeId,
    checkpoint_hint: Option<RecordPosition>,
    stats: &mut StorageStatsCounters,
) -> (result: Result<NodeState, StorageError>)
    ensures
        ({
            let (run, after) = node_run(
                old(stats)@,
                segments_view(old(segments)@),
                active_segment.id,
                node_id.0,
                checkpoint_hint,
            );
            &&& (match run_result(run) {
                Ok(state) => result is Ok && result->Ok_0@ == state,
                Err(error) => result == Err::<NodeState, StorageError>(error),
            })
            &&& final(stats)@ == run.stats
            &&& segments_view(final(segments)@) == after
        }),
{
    let mut target_nodes: BTreeSet<u64> = BTreeSet::new();
    target_nodes.insert(node_id.0);
    assert(target_nodes@ =~= set![node_id.0]);
    let positions = find_checkpoint_positions_from(
        segments,
        active_segment,
        &target_nodes,
        checkpoint_hint,
        stats,
    )?;
    let checkpoint = match positions.get(&node_id.0) {
        Some(position) => Some(*position),
        None => None,
    };

    let ghost active = active_segment.id;
    let ghost step = node_step(node_id.0, checkpoint);
    let ghost from = match checkpoint {
        None => None::<u64>,
        Some(position) => Some(position.segment.id),
    };
    let ghost expected = node_run(
        old(stats)@,
        segments_view(old(segments)@),
        active,
        node_id.0,
        checkpoint_hint,
    );
    let mut state = NodeState::default();
    let mut i: usize = 0;
    proof {
        run_segments_start(segments_view(segments@), expected.1);
    }
    while i < segments.len()
        invariant
            i <= segments@.len(),
            active == active_segment.id,
            step == node_step(node_id.0, checkpoint),
            checkpoint is None ==> from is None,
            checkpoint matches Some(position) ==> from == Some(position.segment.id),
            expected == node_run(
                old(stats)@,
                segments_view(old(segments)@),
                active,
                node_id.0,
                checkpoint_hint,
            ),
            ({
                let run = Run { acc: state@, stats: stats@, failure: None };
                let view = segments_view(segments@);
                let rest = run_segments(run, view.skip(i as int), active, from, 4, step);
                &&& rest.0 == expected.0
                &&& view.take(i as int) + rest.1 == expected.1
            }),
        decreases segments@.len() - i,
    {
        let ghost before = segments_view(segments@);
        let ghost run = Run { acc: state@, stats: stats@, failure: None };
        let name = segments[i].name;
        let skip: bool = match checkpoint {
            Some(position) => name.id < position.segment.id,
            None => false,
        };
        if skip {
            proof {
                run_segments_skip(run, before, i as int, active, from, 4, step);
            }
        } else {
            let allow_partial: bool = name.id == active_segment.id;
            let outcome = replay_node_segment(
                &mut segments[i],
                allow_partial,
                node_id,
                checkpoint,
                &mut state,
                stats,
            );
            proof {
                run_segments_step(run, before, i as int, active, from, 4, step);
                let one = run_segment(run, before[i as int], allow_partial, 4, step);
                assert(segments_view(segments@) =~= before.update(i as int, one.1));
            }
            outcome?;
        }
        i = i + 1;
    }
    proof {
        run_segments_end(segments_view(segments@));
    }
    Ok(state)
}

// ---------------------------------------------------------------------------------------
// Replaying many nodes
// ---------------------------------------------------------------------------------------

/// The first of the positions under the given keys.
pub open spec fn oldest_among(keys: Seq<u64>, positions: Map<u64, RecordPosition>) -> Option<
    RecordPosition,
>
    decreases keys.len(),
{
    if keys.len() == 0 {
        None
    } else {
        let last = positions[keys.last()];
        match oldest_among(keys.drop_last(), positions) {
            None => Some(last),
            Some(oldest) => if last.before(oldest) {
                Some(last)
            } else {
                Some(oldest)
            },
        }
    }
}

/// The first of the positions.
pub open spec fn oldest_position(positions: Map<u64, RecordPosition>) -> Option<RecordPosition> {
    oldest_among(ascending(positions.dom()), positions)
}

proof fn oldest_among_sound(keys: Seq<u64>, positions: Map<u64, RecordPosition>)
    ensures
        keys.len() > 0 <==> oldest_among(keys, positions) is Some,
        oldest_among(keys, positions) matches Some(oldest) ==> {
            &&& exists|i: int| 0 <= i < keys.len() && positions[#[trigger] keys[i]] == oldest
            &&& forall|i: int|
                0 <= i < keys.len() ==> !positions[#[trigger] keys[i]].before(oldest)
        },
    decreases keys.len(),
{
    if keys.len() > 0 {
        let rest = keys.drop_last();
        oldest_among_sound(rest, positions);
        let oldest = oldest_among(keys, positions)->0;
        assert forall|i: int| 0 <= i < keys.len() implies !positions[#[trigger] keys[i]].before(
            oldest,
        ) by {
            if i < rest.len() {
                assert(rest[i] == keys[i]);
            }
        }
        if oldest == positions[keys.last()] {
            assert(positions[keys[keys.len() - 1]] == oldest);
        } else {
            let i = choose|i: int| 0 <= i < rest.len() && positions[#[trigger] rest[i]] == oldest;
            assert(positions[keys[i]] == oldest);
        }
    }
}

/// The first of the positions is one of them, and none comes before it.
pub proof fn oldest_position_sound(positions: Map<u64, RecordPosition>)
    ensures
        oldest_position(positions) is None ==> positions =~= Map::empty(),
        oldest_position(positions) matches Some(oldest) ==> {
            &&& positions.contains_value(oldest)
            &&& forall|node: u64| #[trigger]
                positions.contains_key(node) ==> !positions[node].before(oldest)
        },
{
    let keys = ascending(positions.dom());
    oldest_among_sound(keys, positions);
    crate::ordered::ascending_sound(positions.dom());
    assert forall|node: u64| #[trigger] positions.contains_key(node) implies keys.contains(node) by {
        assert(keys.to_set().contains(node));
    }
    if let Some(oldest) = oldest_position(positions) {
        let i = choose|i: int| 0 <= i < keys.len() && positions[#[trigger] keys[i]] == oldest;
        assert(keys.to_set().contains(keys[i]));
        assert(positions.contains_key(keys[i]));
        assert forall|node: u64| #[trigger] positions.contains_key(node) implies !positions[node].before(
            oldest,
        ) by {
            let j = choose|j: int| 0 <= j < keys.len() && keys[j] == node;
            assert(!positions[keys[j]].before(oldest));
        }
    } else {
        assert(positions.dom() =~= Set::empty());
        assert(positions =~= Map::empty());
    }
}

fn find_oldest_position(positions: &BTreeMap<u64, RecordPosition>) -> (oldest: Option<RecordPosition>)
    ensures
        oldest == oldest_position(positions@),
{
    let keys = map_keys(positions);
    let mut oldest: Option<RecordPosition> = None;
    let mut i: usize = 0;
    proof {
        crate::ordered::ascending_sound(positions@.dom());
        assert(keys@.take(0) =~= Seq::empty());
    }
    while i < keys.len()
        invariant
            i <= keys@.len(),
            keys@.to_set() == positions@.dom(),
            oldest == oldest_among(keys@.take(i as int), positions@),
        decreases keys@.len() - i,
    {
        proof {
            assert(keys@.take(i + 1).drop_last() =~= keys@.take(i as int));
            assert(keys@.to_set().contains(keys@[i as int]));
        }
        if let Some(position) = positions.get(&keys[i]) {
            oldest = match oldest {
                None => Some(*position),
                Some(current) => {
                    if position.precedes(current) {
                        Some(*position)
                    } else {
                        Some(current)
                    }
                },
            };
        }
        i = i + 1;
    }
    assert(keys@.take(i as int) =~= keys@);
    oldest
}

/// A pass that applies the records of the given nodes, each from its checkpoint on.
pub open spec fn replay_step(
    nodes: Set<u64>,
    positions: Map<u64, RecordPosition>,
) -> Step<Map<u64, StateView>> {
    |run: Run<Map<u64, StateView>>, position: RecordPosition, body: Seq<u8>|
        match body_node_id(body) {
            Err(error) => run.failed(error),
            Ok(node_id) => if !nodes.contains(node_id.0) {
                run
            } else if positions.contains_key(node_id.0) && position.before(positions[node_id.0]) {
                run
            } else {
                match parse_body(body) {
                    Err(error) => run.failed(error),
                    Ok(node_record) => match state_of(run.acc, node_id.0).apply(node_record.record) {
                        Err(error) => run.failed(error),
                        Ok(state) => Run {
                            acc: run.acc.insert(node_id.0, state),
                            stats: run.stats.after_record_replayed(
                                node_record.record.kind(),
                                (8 + body.len()) as u64,
                            ),
                            ..run
                        },
                    },
                }
            },
        }
}

/// The state of a node, where nothing was applied to nodes that are not in the map.
pub open spec fn state_of(states: Map<u64, StateView>, node: u64) -> StateView {
    if states.contains_key(node) {
        states[node]
    } else {
        default_state()
    }
}

/// What is known before the records of many nodes are applied.
#[verifier::ext_equal]
pub struct ReplayPlan {
    /// The checkpoint of each node that has one.
    pub positions: Map<u64, RecordPosition>,
    /// The segment to start from, if not from the first one.
    pub from: Option<u64>,
}

/// The pass that finds the checkpoints of many nodes. With hints for all of them, reading
/// starts at the oldest hint.
pub open spec fn plan_run(
    stats: StorageStats,
    segments: Seq<SegmentView>,
    active: u64,
    nodes: Set<u64>,
    hints: Option<Map<u64, RecordPosition>>,
) -> (Run<ReplayPlan>, Seq<SegmentView>) {
    match hints {
        None => {
            let (run, after) = checkpoint_run(stats, segments, active, nodes, None);
            (
                Run {
                    acc: ReplayPlan { positions: run.acc, from: None },
                    stats: run.stats,
                    failure: run.failure,
                },
                after,
            )
        },
        Some(hints) => match oldest_position(hints) {
            None => (
                Run { acc: ReplayPlan { positions: hints, from: None }, stats, failure: None },
                segments,
            ),
            Some(start) => {
                let (run, after) = checkpoint_run(stats, segments, active, nodes, Some(start));
                (
                    Run {
                        acc: ReplayPlan {
                            positions: hints.union_prefer_right(run.acc),
                            from: Some(start.segment.id),
                        },
                        stats: run.stats,
                        failure: run.failure,
                    },
                    after,
                )
            },
        },
    }
}

/// The pass that rebuilds many nodes.
pub open spec fn storage_run(
    stats: StorageStats,
    segments: Seq<SegmentView>,
    active: u64,
    nodes: Set<u64>,
    hints: Option<Map<u64, RecordPosition>>,
) -> (Run<Map<u64, StateView>>, Seq<SegmentView>) {
    let (plan, after) = plan_run(stats, segments, active, nodes, hints);
    let start = Run { acc: Map::<u64, StateView>::empty(), stats: plan.stats, failure: plan.failure };
    run_segments(start, after, active, plan.acc.from, 4, replay_step(nodes, plan.acc.positions))
}

/// Node states under reconstruction.
#[derive(Debug)]
pub struct ReplayState {
    /// The states of the nodes that had records so far.
    pub nodes: BTreeMap<u64, NodeState>,
}

impl View for ReplayState {
    type V = Map<u64, StateView>;

    open spec fn view(&self) -> Map<u64, StateView> {
        self.nodes@.map_values(|state: NodeState| state@)
    }
}

impl ReplayState {
    /// Applies one record. Where that fails, the state of the node stays as it was.
    pub fn apply(&mut self, node_record: NodeRecord) -> (result: Result<(), StorageError>)
        ensures
            match state_of(old(self)@, node_record.node_id.0).apply(node_record.record@) {
                Ok(state) => result is Ok && final(self)@ == old(self)@.insert(
                    node_record.node_id.0,
                    state,
                ),
                Err(error) => result == Err::<(), StorageError>(error) && final(self)@ == old(self)@,
            },
    {
        let NodeRecord { node_id, record } = node_record;
        let ghost before = self.nodes@;
        let (mut state, known) = match self.nodes.remove(&node_id.0) {
            Some(state) => (state, true),
            None => (NodeState::default(), false),
        };
        let result = apply_record_to_state(&mut state, record);
        if known || result.is_ok() {
            self.nodes.insert(node_id.0, state);
        }
        proof {
            if result is Ok {
                assert(self@ =~= old(self)@.insert(node_id.0, state@));
            } else {
                assert(self@ =~= old(self)@);
            }
        }
        result
    }
}

/// Applies the records of the given nodes in one segment.
pub fn replay_segment(
    segment: &mut Segment,
    allow_partial: bool,
    nodes: &BTreeSet<u64>,
    positions: &BTreeMap<u64, RecordPosition>,
    replay: &mut ReplayState,
    stats: &mut StorageStatsCounters,
) -> (result: Result<(), StorageError>)
    ensures
        ({
            let start = Run { acc: old(replay)@, stats: old(stats)@, failure: None };
            let (run, after) = run_segment(
                start,
                old(segment)@,
                allow_partial,
                4,
                replay_step(nodes@, positions@),
            );
            &&& (match run.failure {
                Some(error) => result == Err::<(), StorageError>(error),
                None => result is Ok,
            })
            &&& final(replay)@ == run.acc
            &&& final(stats)@ == run.stats
            &&& final(segment)@ == after
        }),
{
    if !read_segment_header(segment, allow_partial, true, stats)? {
        return Ok(());
    }
    let ghost view = segment@;
    let ghost step = replay_step(nodes@, positions@);
    let ghost expected = run_rest(
        Run { acc: replay@, stats: stats@, failure: None },
        view,
        allow_partial,
        4,
        step,
    );
    let mut position: usize = SEGMENT_FILE_HEADER_LEN;
    loop
        invariant
            position <= segment.bytes.len(),
            segment@ == view,
            step == replay_step(nodes@, positions@),
            run_rest(
                (Run { acc: replay@, stats: stats@, failure: None }),
                view,
                allow_partial,
                position as nat,
                step,
            ) == expected,
            expected == run_segment(
                (Run { acc: old(replay)@, stats: old(stats)@, failure: None }),
                old(segment)@,
                allow_partial,
                4,
                replay_step(nodes@, positions@),
            ),
        ensures
            read_frame(view.bytes.skip(position as int)) == Ok::<Option<Seq<u8>>, StorageError>(None),
        decreases segment.bytes@.len() - position,
    {
        let ghost run = Run { acc: replay@, stats: stats@, failure: None };
        proof {
            if read_frame(view.bytes.skip(position as int)) matches Ok(Some(_)) {
                run_rest_step(run, view, allow_partial, position as nat, step);
            } else {
                run_rest_end(run, view, allow_partial, position as nat, step);
            }
        }
        match read_record_body(segment.bytes.as_slice(), position) {
            Err(error) => {
                if error == StorageError::ChecksumMismatch {
                    stats.checksum_failed();
                }
                return Err(error);
            },
            Ok(None) => {
                break;
            },
            Ok(Some(body)) => {
                let node_id = decode_record_node_id(body)?;
                if nodes.contains(&node_id.0) {
                    let here = RecordPosition { segment: segment.name, offset: position as u64 };
                    let superseded: bool = match positions.get(&node_id.0) {
                        Some(first) => here.precedes(*first),
                        None => false,
                    };
                    if !superseded {
                        let node_record = decode_node_record(body)?;
                        let kind = node_record.record.metric_kind();
                        replay.apply(node_record)?;
                        stats.record_replayed(kind, frame_len_from_body(body));
                    }
                }
                position = position + SEGMENT_RECORD_HEADER_LEN + body.len();
            },
        }
    }
    proof {
        run_rest_end(
            Run { acc: replay@, stats: stats@, failure: None },
            view,
            allow_partial,
            position as nat,
            step,
        );
    }
    if position == segment.bytes.len() {
        return Ok(());
    }
    if allow_partial {
        stats.replay_truncated();
        segment.bytes.truncate(position);
        return Ok(());
    }
    Err(StorageError::PartialRecord)
}

/// Finds the checkpoints of many nodes, and the segment from which to apply records.
fn checkpoint_positions_for_replay(
    segments: &mut Vec<Segment>,
    active_segment: SegmentName,
    nodes: &BTreeSet<u64>,
    checkpoint_hints: Option<BTreeMap<u64, RecordPosition>>,
    stats: &mut StorageStatsCounters,
) -> (result: Result<(BTreeMap<u64, RecordPosition>, Option<SegmentName>), StorageError>)
    ensures
        ({
            let (run, after) = plan_run(
                old(stats)@,
                segments_view(old(segments)@),
                active_segment.id,
                nodes@,
                positions_view(checkpoint_hints),
            );
            &&& (match run_result(run) {
                Ok(plan) => result is Ok && result->Ok_0.0@ == plan.positions && match plan.from {
                    None => result->Ok_0.1 is None,
                    Some(id) => result->Ok_0.1 == Some(SegmentName { id }),
                },
                Err(error) => result is Err && result->Err_0 == error,
            })
            &&& final(stats)@ == run.stats
            &&& segments_view(final(segments)@) == after
        }),
{
    let mut positions = match checkpoint_hints {
        None => {
            let found = find_checkpoint_positions_from(segments, active_segment, nodes, None, stats)?;
            return Ok((found, None));
        },
        Some(hints) => hints,
    };
    let start = match find_oldest_position(&positions) {
        None => {
            return Ok((positions, None));
        },
        Some(start) => start,
    };
    let discovered = find_checkpoint_positions_from(
        segments,
        active_segment,
        nodes,
        Some(start),
        stats,
    )?;
    move_into(&mut positions, discovered);
    Ok((positions, Some(start.segment)))
}

/// The contents of optional checkpoint hints.
pub open spec fn positions_view(hints: Option<BTreeMap<u64, RecordPosition>>) -> Option<
    Map<u64, RecordPosition>,
> {
    match hints {
        None => None,
        Some(hints) => Some(hints@),
    }
}

/// Rebuilds the states of the given nodes. `checkpoint_hints` has the position of a
/// checkpoint for each of them, where reading can start.
pub fn replay_storage_dir(
    segments: &mut Vec<Segment>,
    active_segment: SegmentName,
    nodes: &BTreeSet<u64>,
    checkpoint_hints: Option<BTreeMap<u64, RecordPosition>>,
    stats: &mut StorageStatsCounters,
) -> (result: Result<ReplayState, StorageError>)
    ensures
        ({
            let (run, after) = storage_run(
                old(stats)@,
                segments_view(old(segments)@),
                active_segment.id,
                nodes@,
                positions_view(checkpoint_hints),
            );
            &&& (match run_result(run) {
                Ok(states) => result is Ok && result->Ok_0@ == states,
                Err(error) => result is Err && result->Err_0 == error,
            })
            &&& final(stats)@ == run.stats
            &&& segments_view(final(segments)@) == after
        }),
{
    let ghost hints = positions_view(checkpoint_hints);
    let (positions, start) = checkpoint_positions_for_replay(
        segments,
        active_segment,
        nodes,
        checkpoint_hints,
        stats,
    )?;
    let ghost active = active_segment.id;
    let ghost step = replay_step(nodes@, positions@);
    let ghost from = match start {
        None => None::<u64>,
        Some(name) => Some(name.id),
    };
    let ghost expected = storage_run(
        old(stats)@,
        segments_view(old(segments)@),
        active,
        nodes@,
        hints,
    );
    let mut replay = ReplayState { nodes: BTreeMap::new() };
    let mut i: usize = 0;
    proof {
        assert(replay@ =~= Map::empty());
        run_segments_start(segments_view(segments@), expected.1);
    }
    while i < segments.len()
        invariant
            i <= segments@.len(),
            active == active_segment.id,
            step == replay_step(nodes@, positions@),
            start is None ==> from is None,
            start matches Some(name) ==> from == Some(name.id),
            hints == positions_view(checkpoint_hints),
            expected == storage_run(
                old(stats)@,
                segments_view(old(segments)@),
                active,
                nodes@,
                hints,
            ),
            ({
                let run = Run { acc: replay@, stats: stats@, failure: None };
                let view = segments_view(segments@);
                let rest = run_segments(run, view.skip(i as int), active, from, 4, step);
                &&& rest.0 == expected.0
                &&& view.take(i as int) + rest.1 == expected.1
            }),
        decreases segments@.len() - i,
    {
        let ghost before = segments_view(segments@);
        let ghost run = Run { acc: replay@, stats: stats@, failure: None };
        let name = segments[i].name;
        let skip: bool = match start {
            Some(first) => name.id < first.id,
            None => false,
        };
        if skip {
            proof {
                run_segments_skip(run, before, i as int, active, from, 4, step);
            }
        } else {
            let allow_partial: bool = name.id == active_segment.id;
            let outcome = replay_segment(
                &mut segments[i],
                allow_partial,
                nodes,
                &positions,
                &mut replay,
                stats,
            );
            proof {
                run_segments_step(run, before, i as int, active, from, 4, step);
                let one = run_segment(run, before[i as int], allow_partial, 4, step);
                assert(segments_view(segments@) =~= before.update(i as int, one.1));
            }
            outcome?;
        }
        i = i + 1;
    }
    proof {
        run_segments_end(segments_view(segments@));
    }
    Ok(replay)
}

} // verus!
