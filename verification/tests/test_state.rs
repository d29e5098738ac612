use std::collections::{BTreeMap, BTreeSet};

use sukari::record::{initial_checkpoint, Record};
use sukari::state::apply_record_to_state;
use sukari::{
    Bytes, ClusterConfig, CommandPayload, ErrorKind, LogAppend, LogIndex, LogPosition, NodeId,
    NodeState, Snapshot, SnapshotCheckpoint, StorageError, Term,
};

fn position(term: u64, index: u64) -> noraft::LogPosition {
    noraft::LogPosition {
        term: noraft::Term::new(term),
        index: noraft::LogIndex::new(index),
    }
}

fn stored(term: u64, index: u64) -> LogPosition {
    LogPosition {
        term: Term(term),
        index: LogIndex(index),
    }
}

fn commands(prev: noraft::LogPosition, terms: &[u64], count: u64) -> LogAppend {
    let mut entries: Vec<noraft::LogEntry> = terms
        .iter()
        .map(|term| noraft::LogEntry::Term(noraft::Term::new(*term)))
        .collect();
    let mut payloads = BTreeMap::new();
    for i in 0..count {
        entries.push(noraft::LogEntry::Command);
        let index = prev.index.get() + entries.len() as u64;
        payloads.insert(index, CommandPayload::new(i as u8, Bytes::new(vec![i as u8])));
    }
    LogAppend::new(noraft::LogEntries::from_iter(prev, entries), payloads)
        .expect("append should be valid")
}

fn snapshot(term: u64, index: u64) -> Snapshot {
    Snapshot {
        last_included: stored(term, index),
        config: ClusterConfig {
            voters: BTreeSet::from([1]),
            ..ClusterConfig::new()
        },
        data: Bytes::from(b"data".as_slice()),
    }
}

fn payloads_match(state: &NodeState) -> bool {
    let commands: Vec<u64> = state
        .log
        .entries()
        .iter_with_positions()
        .filter(|(_, entry)| *entry == noraft::LogEntry::Command)
        .map(|(position, _)| position.index.get())
        .collect();
    commands == state.command_payloads.keys().copied().collect::<Vec<u64>>()
}

#[test]
fn nothing_is_saved_at_first() {
    let state = NodeState::default();
    assert_eq!(state.current_term, Term(0));
    assert_eq!(state.voted_for, None);
    assert_eq!(state.log.entries().prev_position(), position(0, 0));
    assert!(state.log.entries().is_empty());
    assert!(state.command_payloads.is_empty());
    assert_eq!(state.snapshot, None);
}

#[test]
fn records_change_their_part_of_the_state() {
    let mut state = NodeState::default();
    apply_record_to_state(&mut state, Record::CurrentTerm(Term(3))).expect("should apply");
    apply_record_to_state(&mut state, Record::VotedFor(Some(NodeId(2)))).expect("should apply");
    assert_eq!(state.current_term, Term(3));
    assert_eq!(state.voted_for, Some(NodeId(2)));
    apply_record_to_state(&mut state, Record::VotedFor(None)).expect("should apply");
    assert_eq!(state.voted_for, None);
    let append = commands(position(0, 0), &[3], 2);
    apply_record_to_state(&mut state, Record::Append(append)).expect("should apply");
    assert_eq!(state.log.entries().last_position(), position(3, 3));
    assert!(payloads_match(&state));
}

#[test]
fn an_append_needs_its_anchor() {
    let mut state = NodeState::default();
    state
        .apply_append_owned(commands(position(0, 0), &[1], 2))
        .expect("should apply");
    let before = state.clone();
    for anchor in [position(1, 4), position(2, 2), position(0, 1)] {
        let error = state
            .apply_append_owned(commands(anchor, &[5], 1))
            .expect_err("anchor should be missing");
        assert_eq!(error, StorageError::AppendAnchorMissing);
        assert_eq!(error.kind(), ErrorKind::InvalidData);
        assert_eq!(state, before);
    }
}

#[test]
fn appends_replace_what_is_behind_their_anchor() {
    let mut state = NodeState::default();
    state
        .apply_append_owned(commands(position(0, 0), &[1], 3))
        .expect("should apply");
    for (anchor, last) in [(2, 4), (1, 3), (3, 5)] {
        state
            .apply_append_owned(commands(position(if anchor == 3 { 2 } else { 1 }, anchor), &[2], 1))
            .expect("should apply");
        assert_eq!(state.log.entries().last_position(), position(2, last));
        assert!(payloads_match(&state));
    }
}

#[test]
fn a_snapshot_moves_the_start_of_the_log() {
    let mut state = NodeState::default();
    state
        .apply_append_owned(commands(position(0, 0), &[1], 3))
        .expect("should apply");
    state.apply_snapshot(snapshot(1, 2)).expect("should apply");
    assert_eq!(state.log.entries().prev_position(), position(1, 2));
    assert_eq!(state.log.entries().last_position(), position(1, 4));
    assert_eq!(state.log.snapshot_config().voters, BTreeSet::from([1]));
    assert_eq!(state.snapshot, Some(snapshot(1, 2)));
    assert!(payloads_match(&state));

    assert_eq!(
        state.apply_snapshot(snapshot(1, 1)),
        Err(StorageError::SnapshotTooOld)
    );
    assert_eq!(
        state.apply_snapshot(snapshot(9, 3)),
        Err(StorageError::SnapshotConflict)
    );
    state.apply_snapshot(snapshot(4, 9)).expect("should apply");
    assert_eq!(state.log.entries().prev_position(), position(4, 9));
    assert!(state.log.entries().is_empty());
    assert!(state.command_payloads.is_empty());
}

#[test]
fn a_checkpoint_stands_for_what_it_holds() {
    let checkpoint = SnapshotCheckpoint {
        current_term: Term(7),
        voted_for: Some(NodeId(3)),
        snapshot: snapshot(4, 9),
        suffix: commands(position(4, 9), &[5], 2),
    };
    let mut state = NodeState::default();
    state
        .apply_append_owned(commands(position(0, 0), &[1], 3))
        .expect("should apply");
    apply_record_to_state(&mut state, Record::SnapshotCheckpoint(checkpoint.clone()))
        .expect("should apply");
    assert_eq!(state.current_term, Term(7));
    assert_eq!(state.voted_for, Some(NodeId(3)));
    assert_eq!(state.log.entries(), checkpoint.suffix.entries());
    assert_eq!(
        &state.command_payloads,
        checkpoint.suffix.command_payloads()
    );
    assert_eq!(state.snapshot, Some(checkpoint.snapshot.clone()));
    assert_eq!(checkpoint.into_state(), Ok(state));
}

#[test]
fn the_initial_checkpoint_stands_for_an_empty_snapshot() {
    let state = initial_checkpoint()
        .into_state()
        .expect("checkpoint should be valid");
    assert_eq!(state.current_term, Term(0));
    assert!(state.log.entries().is_empty());
    let snapshot = state.snapshot.expect("snapshot should be there");
    assert_eq!(snapshot.last_included, stored(0, 0));
    assert!(snapshot.data.is_empty());
}

#[test]
fn checkpoints_that_stand_for_nothing_are_rejected() {
    let valid = SnapshotCheckpoint {
        current_term: Term(7),
        voted_for: None,
        snapshot: snapshot(4, 9),
        suffix: commands(position(4, 9), &[], 1),
    };
    assert_eq!(valid.validate(), Ok(()));
    let gap = SnapshotCheckpoint {
        suffix: commands(position(4, 8), &[], 1),
        ..valid.clone()
    };
    assert_eq!(gap.validate(), Err(StorageError::CheckpointSuffixGap));
    assert!(gap.into_state().is_err());
    let conflict = SnapshotCheckpoint {
        snapshot: snapshot(4, 0),
        suffix: commands(position(4, 0), &[], 1),
        ..valid
    };
    assert_eq!(conflict.into_state(), Err(StorageError::SnapshotConflict));
}

#[test]
fn appends_keep_their_parts() {
    let append = commands(position(2, 5), &[3], 1);
    assert_eq!(append.validate(), Ok(()));
    assert_eq!(append.entries().prev_position(), position(2, 5));
    assert_eq!(append.command_payloads().len(), 1);
    let (entries, payloads) = append.clone().into_parts();
    assert_eq!(LogAppend::new(entries, payloads), Ok(append));
}

#[test]
fn payloads_keep_tag_and_bytes() {
    let payload = CommandPayload::new(9, Bytes::from(b"x".as_slice()));
    assert_eq!(payload.tag(), 9);
    assert_eq!(payload.bytes().as_slice(), b"x");
    assert_eq!(payload.clone(), payload);
    assert_eq!(payload.into_bytes().into_vec(), b"x");
}
