//! The persistent state of one Raft node, and how records change it.

use crate::error::StorageError;
use crate::ordered::{keep_after, keep_up_to, move_into};
use crate::raft::{
    entries_contain, entries_get, entries_last, entries_len, entries_new, entries_prev,
    entries_push, entries_since, entries_truncate, entries_valid, ClusterConfig, Log, LogIndex, LogPosition,
    NodeId, Term,
};
use crate::record::{CommandPayload, LogAppend, Record, Snapshot, SnapshotCheckpoint};
use std::collections::BTreeMap;
use vstd::prelude::*;

verus! {

use crate::raft::{empty_config, log_entries_view, zero_position, EntriesView, EntryView, LogView};
use crate::record::{
    payloads_view, AppendView, CheckpointView, PayloadView, RecordView, SnapshotView,
};

/// Loaded persistent state for a Raft node.
///
/// Storage does not keep this full state in memory for normal writes. It is constructed by
/// replaying records when callers need to rebuild a Raft node.
#[derive(Debug, PartialEq, Eq)]
pub struct NodeState {
    /// Current term.
    pub current_term: Term,
    /// Node voted for in the current term.
    pub voted_for: Option<NodeId>,
    /// Local Raft log.
    pub log: Log,
    /// Command payloads keyed by log index.
    pub command_payloads: BTreeMap<u64, CommandPayload>,
    /// Latest snapshot.
    pub snapshot: Option<Snapshot>,
}

/// The contents of a [`NodeState`].
#[verifier::ext_equal]
pub struct StateView {
    pub current_term: Term,
    pub voted_for: Option<NodeId>,
    pub log: LogView,
    pub payloads: Map<u64, PayloadView>,
    pub snapshot: Option<SnapshotView>,
}

/// The contents of an optional snapshot.
pub open spec fn snapshot_view(snapshot: Option<Snapshot>) -> Option<SnapshotView> {
    match snapshot {
        None => None,
        Some(snapshot) => Some(snapshot@),
    }
}

impl View for NodeState {
    type V = StateView;

    open spec fn view(&self) -> StateView {
        StateView {
            current_term: self.current_term,
            voted_for: self.voted_for,
            log: self.log@,
            payloads: payloads_view(self.command_payloads@),
            snapshot: snapshot_view(self.snapshot),
        }
    }
}

/// The state of a node for which nothing was saved.
pub open spec fn default_state() -> StateView {
    StateView {
        current_term: Term(0),
        voted_for: None,
        log: LogView {
            snapshot_config: empty_config(),
            entries: EntriesView { prev: zero_position(), seq: Seq::empty() },
        },
        payloads: Map::empty(),
        snapshot: None,
    }
}

impl StateView {
    /// The state after an append: the log is cut where the append starts, and its entries
    /// and payloads come behind.
    pub open spec fn appended(self, append: AppendView) -> StateView {
        let anchor = append.entries.prev.index.0;
        let entries = self.log.entries;
        StateView {
            log: LogView {
                entries: EntriesView {
                    prev: entries.prev,
                    seq: entries.seq.take(anchor - entries.prev.index.0) + append.entries.seq,
                },
                ..self.log
            },
            payloads: self.payloads.restrict(
                Set::new(|index: u64| index <= anchor),
            ).union_prefer_right(append.payloads),
            ..self
        }
    }

    /// The state after an append, or why the append cannot be applied.
    pub open spec fn apply_append(self, append: AppendView) -> Result<StateView, StorageError> {
        match append.validation() {
            Err(error) => Err(error),
            Ok(()) => if !self.log.entries.contains(append.entries.prev) {
                Err(StorageError::AppendAnchorMissing)
            } else if self.log.entries.seq.len() > usize::MAX {
                Err(StorageError::LogSuffixTooLong)
            } else {
                Ok(self.appended(append))
            },
        }
    }

    /// The state after a snapshot: the log starts at the snapshot position.
    pub open spec fn snapshotted(self, snapshot: SnapshotView, entries: EntriesView) -> StateView {
        StateView {
            log: LogView { snapshot_config: snapshot.config, entries },
            payloads: self.payloads.restrict(
                Set::new(|index: u64| index > snapshot.last_included.index.0),
            ),
            snapshot: Some(snapshot),
            ..self
        }
    }

    /// The state after a snapshot, or why the snapshot cannot be applied.
    pub open spec fn apply_snapshot(self, snapshot: SnapshotView) -> Result<StateView, StorageError> {
        let entries = self.log.entries;
        let position = snapshot.last_included;
        if position.index.0 < entries.prev.index.0 {
            Err(StorageError::SnapshotTooOld)
        } else if entries.contains(position) {
            Ok(self.snapshotted(snapshot, entries.after(position)))
        } else if !entries.wf() || entries.last_index() < position.index.0 {
            Ok(self.snapshotted(snapshot, EntriesView { prev: position, seq: Seq::empty() }))
        } else {
            Err(StorageError::SnapshotConflict)
        }
    }

    /// The state after a record, or why the record cannot be applied.
    pub open spec fn apply(self, record: RecordView) -> Result<StateView, StorageError> {
        match record {
            RecordView::CurrentTerm(term) => Ok(StateView { current_term: term, ..self }),
            RecordView::VotedFor(voted_for) => Ok(StateView { voted_for, ..self }),
            RecordView::Append(append) => self.apply_append(append),
            RecordView::SnapshotCheckpoint(checkpoint) => checkpoint.state(),
        }
    }
}

impl CheckpointView {
    /// The state that a checkpoint stands for, or why it stands for none.
    pub open spec fn state(self) -> Result<StateView, StorageError> {
        match self.validation() {
            Err(error) => Err(error),
            Ok(()) => {
                let started = StateView {
                    current_term: self.current_term,
                    voted_for: self.voted_for,
                    ..default_state()
                };
                match started.apply_snapshot(self.snapshot) {
                    Err(error) => Err(error),
                    Ok(state) => state.apply_append(self.suffix),
                }
            },
        }
    }
}

/// A valid checkpoint stands for exactly what it holds. The only snapshot position that no
/// checkpoint can start from is index zero with a term other than zero, which conflicts
/// with the empty log.
pub proof fn checkpoint_state_exact(checkpoint: CheckpointView)
    requires
        checkpoint.validation() is Ok,
    ensures
        ({
            let position = checkpoint.snapshot.last_included;
            if position.index.0 == 0 && position.term.0 != 0 {
                checkpoint.state() == Err::<StateView, StorageError>(StorageError::SnapshotConflict)
            } else {
                checkpoint.state() == Ok::<StateView, StorageError>(
                    (StateView {
                        current_term: checkpoint.current_term,
                        voted_for: checkpoint.voted_for,
                        log: LogView {
                            snapshot_config: checkpoint.snapshot.config,
                            entries: checkpoint.suffix.entries,
                        },
                        payloads: checkpoint.suffix.payloads,
                        snapshot: Some(checkpoint.snapshot),
                    }),
                )
            }
        }),
{
    let position = checkpoint.snapshot.last_included;
    let started = StateView {
        current_term: checkpoint.current_term,
        voted_for: checkpoint.voted_for,
        ..default_state()
    };
    let empty = EntriesView { prev: position, seq: Seq::<EntryView>::empty() };
    assert(started.log.entries.seq.take(0) =~= Seq::empty());
    assert(started.log.entries.term_at(0) == Term(0));
    assert(empty.seq.take(0) =~= Seq::empty());
    assert(empty.term_at(position.index.0 as int) == position.term);
    if !(position.index.0 == 0 && position.term.0 != 0) {
        let state = started.snapshotted(checkpoint.snapshot, empty);
        if position.index.0 == 0 {
            assert(started.log.entries.after(position) =~= empty);
        }
        assert(started.apply_snapshot(checkpoint.snapshot) == Ok::<StateView, StorageError>(state));
        let suffix = checkpoint.suffix;
        assert(state.log.entries.contains(suffix.entries.prev));
        let end = state.appended(suffix);
        assert(end.log.entries.seq =~= suffix.entries.seq);
        assert(end.payloads =~= suffix.payloads);
    }
}

impl StateView {
    /// Every command entry of the log has a payload and every payload belongs to one, and
    /// log indexes are 64-bit integers.
    pub open spec fn wf(self) -> bool {
        &&& self.log.entries.wf()
        &&& (AppendView { entries: self.log.entries, payloads: self.payloads }).validation() is Ok
    }
}

/// The state of a node for which nothing was saved has matching payloads.
pub proof fn default_state_wf()
    ensures
        default_state().wf(),
{
}

/// Records keep the payloads matching the command entries of the log.
pub proof fn apply_keeps_payloads_matching(state: StateView, record: RecordView)
    requires
        state.wf(),
        record.wf(),
        state.apply(record) is Ok,
    ensures
        state.apply(record)->Ok_0.wf(),
{
    match record {
        RecordView::Append(append) => {
            append_keeps_payloads_matching(state, append);
        },
        RecordView::SnapshotCheckpoint(checkpoint) => {
            checkpoint_state_exact(checkpoint);
            assert(checkpoint.suffix == (AppendView {
                entries: checkpoint.suffix.entries,
                payloads: checkpoint.suffix.payloads,
            }));
        },
        _ => {},
    }
}

proof fn append_keeps_payloads_matching(state: StateView, append: AppendView)
    requires
        state.wf(),
        append.entries.wf(),
        state.apply_append(append) is Ok,
    ensures
        state.apply_append(append)->Ok_0.wf(),
{
    let after = state.appended(append);
    let before = AppendView { entries: state.log.entries, payloads: state.payloads };
    let view = AppendView { entries: after.log.entries, payloads: after.payloads };
    let anchor = append.entries.prev.index.0;
    let kept = anchor - state.log.entries.prev.index.0;
    assert(0 <= kept <= state.log.entries.seq.len());
    assert forall|index: u64| #[trigger] view.is_command(index as int) <==> (if index <= anchor {
        before.is_command(index as int)
    } else {
        append.is_command(index as int)
    }) by {
        let i = index - state.log.entries.prev.index.0 - 1;
        if 0 <= i < kept {
            assert(view.entries.seq[i] == before.entries.seq[i]);
        } else if kept <= i < view.entries.seq.len() {
            assert(view.entries.seq[i] == append.entries.seq[i - kept]);
        }
    }
    assert forall|index: u64| #[trigger] view.is_command(index as int) implies view.payloads.contains_key(
        index,
    ) by {
        if index <= anchor {
            assert(before.is_command(index as int));
        } else {
            assert(append.is_command(index as int));
        }
    }
    assert forall|index: u64| #[trigger] view.payloads.contains_key(index) implies view.is_command(
        index as int,
    ) by {
        if append.payloads.contains_key(index) {
            assert(append.is_command(index as int));
        } else {
            assert(before.payloads.contains_key(index));
            assert(before.is_command(index as int));
        }
    }
}

impl Default for NodeState {
    fn default() -> (state: Self)
        ensures
            state@ == default_state(),
    {
        let zero = LogPosition { term: Term(0), index: LogIndex(0) };
        let state = Self {
            current_term: Term(0),
            voted_for: None,
            log: Log::new(ClusterConfig::new(), entries_new(zero)),
            command_payloads: BTreeMap::new(),
            snapshot: None,
        };
        assert(state@.payloads =~= Map::empty());
        state
    }
}

impl Clone for NodeState {
    fn clone(&self) -> (copy: Self)
        ensures
            copy@ == self@,
    {
        let snapshot = match &self.snapshot {
            None => None,
            Some(snapshot) => Some(snapshot.clone()),
        };
        Self {
            current_term: self.current_term,
            voted_for: self.voted_for,
            log: self.log.clone(),
            command_payloads: self.command_payloads.clone(),
            snapshot,
        }
    }
}

impl NodeState {
    /// Sets the current term.
    pub fn apply_current_term(&mut self, term: Term)
        ensures
            final(self)@ == (StateView { current_term: term, ..old(self)@ }),
    {
        self.current_term = term;
    }

    /// Sets the vote.
    pub fn apply_voted_for(&mut self, voted_for: Option<NodeId>)
        ensures
            final(self)@ == (StateView { voted_for, ..old(self)@ }),
    {
        self.voted_for = voted_for;
    }

    /// Appends log entries, replacing what the local log has behind their anchor.
    pub fn apply_append(&mut self, append: &LogAppend) -> (result: Result<(), StorageError>)
        ensures
            match old(self)@.apply_append(append@) {
                Ok(state) => result is Ok && final(self)@ == state,
                Err(error) => result == Err::<(), StorageError>(error) && final(self)@ == old(self)@,
            },
    {
        self.apply_append_owned(append.clone())
    }

    /// Like [`NodeState::apply_append`], of entries that are handed over.
    pub fn apply_append_owned(&mut self, append: LogAppend) -> (result: Result<(), StorageError>)
        ensures
            match old(self)@.apply_append(append@) {
                Ok(state) => result is Ok && final(self)@ == state,
                Err(error) => result == Err::<(), StorageError>(error) && final(self)@ == old(self)@,
            },
    {
        append.validate()?;
        let ghost view = append@;
        let ghost local = self.log@.entries;
        let prev = entries_prev(append.entries());
        if !entries_valid(self.log.entries()) || !entries_contain(self.log.entries(), prev) {
            return Err(StorageError::AppendAnchorMissing);
        }
        let local_prev = entries_prev(self.log.entries());
        let local_len: u64 = entries_len(self.log.entries());
        if local_len > usize::MAX as u64 {
            return Err(StorageError::LogSuffixTooLong);
        }
        let keep_len: u64 = prev.index.0 - local_prev.index.0;
        let append_len: u64 = entries_len(append.entries());

        let mut entries = self.log.entries().clone();
        entries_truncate(&mut entries, keep_len as usize);
        assert(log_entries_view(entries).seq =~= local.seq.take(keep_len as int));
        assert(local.seq.take(keep_len as int) + view.entries.seq.take(0) =~= local.seq.take(
            keep_len as int,
        ));
        let mut i: u64 = 0;
        while i < append_len
            invariant
                i <= append_len,
                append@ == view,
                prev == view.entries.prev,
                append_len == view.entries.seq.len(),
                view.entries.wf(),
                keep_len == prev.index.0 - local.prev.index.0,
                0 <= keep_len <= local.seq.len(),
                log_entries_view(entries).prev == local.prev,
                log_entries_view(entries).seq == local.seq.take(keep_len as int)
                    + view.entries.seq.take(i as int),
            decreases append_len - i,
        {
            if let Some(entry) = entries_get(append.entries(), prev.index.0 + 1 + i) {
                entries_push(&mut entries, entry);
            }
            proof {
                assert(log_entries_view(entries).seq =~= local.seq.take(keep_len as int)
                    + view.entries.seq.take(i + 1));
            }
            i = i + 1;
        }
        assert(view.entries.seq.take(append_len as int) =~= view.entries.seq);

        let ghost before = self.command_payloads@;
        let (_, payloads) = append.into_parts();
        let ghost added = payloads@;
        self.log = Log::new(self.log.snapshot_config().clone(), entries);
        keep_up_to(&mut self.command_payloads, prev.index.0);
        move_into(&mut self.command_payloads, payloads);
        assert(self@.payloads =~= old(self)@.appended(view).payloads) by {
            assert(payloads_view(added) == view.payloads);
            assert(view.payloads.dom() =~= added.dom());
            assert(old(self)@.payloads.dom() =~= before.dom());
        }
        Ok(())
    }

    /// Moves the start of the log to a snapshot.
    pub fn apply_snapshot(&mut self, snapshot: Snapshot) -> (result: Result<(), StorageError>)
        ensures
            match old(self)@.apply_snapshot(snapshot@) {
                Ok(state) => result is Ok && final(self)@ == state,
                Err(error) => result == Err::<(), StorageError>(error) && final(self)@ == old(self)@,
            },
    {
        let position = snapshot.last_included;
        let ghost view = snapshot@;
        let ghost local = self.log@.entries;
        let local_prev = entries_prev(self.log.entries());
        let local_last = entries_last(self.log.entries());
        if position.index.0 < local_prev.index.0 {
            return Err(StorageError::SnapshotTooOld);
        }
        let suffix = if !entries_valid(self.log.entries()) {
            None
        } else if position.index.0 < u64::MAX {
            entries_since(self.log.entries(), position)
        } else if entries_contain(self.log.entries(), position) {
            // No entry can come after the last index.
            proof {
                assert(local.after(position).seq =~= Seq::empty());
            }
            Some(entries_new(position))
        } else {
            None
        };
        let entries = match suffix {
            Some(entries) => entries,
            None => {
                if local_last.index.0 < position.index.0 {
                    entries_new(position)
                } else {
                    return Err(StorageError::SnapshotConflict);
                }
            },
        };
        let ghost before = self.command_payloads@;
        keep_after(&mut self.command_payloads, position.index.0);
        self.log = Log::new(snapshot.config.clone(), entries);
        self.snapshot = Some(snapshot);
        assert(self@.payloads =~= old(self)@.snapshotted(view, log_entries_view(entries)).payloads)
            by {
            assert(old(self)@.payloads.dom() =~= before.dom());
        }
        Ok(())
    }
}

impl SnapshotCheckpoint {
    /// Converts this checkpoint into the state that it stands for.
    pub fn into_state(self) -> (result: Result<NodeState, StorageError>)
        ensures
            match self@.state() {
                Ok(state) => result is Ok && result->Ok_0@ == state,
                Err(error) => result == Err::<NodeState, StorageError>(error),
            },
    {
        self.validate()?;
        let mut state = NodeState::default();
        state.apply_current_term(self.current_term);
        state.apply_voted_for(self.voted_for);
        state.apply_snapshot(self.snapshot)?;
        state.apply_append_owned(self.suffix)?;
        Ok(state)
    }
}

/// Applies one record to the state of its node.
pub fn apply_record_to_state(state: &mut NodeState, record: Record) -> (result: Result<
    (),
    StorageError,
>)
    ensures
        match old(state)@.apply(record@) {
            Ok(next) => result is Ok && final(state)@ == next,
            Err(error) => result == Err::<(), StorageError>(error) && final(state)@ == old(state)@,
        },
{
    match record {
        Record::CurrentTerm(term) => {
            state.apply_current_term(term);
            Ok(())
        },
        Record::VotedFor(voted_for) => {
            state.apply_voted_for(voted_for);
            Ok(())
        },
        Record::Append(append) => state.apply_append_owned(append),
        Record::SnapshotCheckpoint(checkpoint) => {
            *state = checkpoint.into_state()?;
            Ok(())
        },
    }
}

} // verus!
