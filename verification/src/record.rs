//! Storage records: what is persisted for one Raft node.

use crate::bytes::Bytes;
use crate::error::StorageError;
use crate::ordered::map_keys;
use crate::raft::{
    entries_get, entries_len, entries_new, entries_prev, entries_valid, ClusterConfig, LogEntry, LogIndex,
    LogPosition, NodeId, Term,
};
use crate::stats::RecordKindMetric;
use std::collections::BTreeMap;
use vstd::prelude::*;

verus! {

use crate::ordered::{ascending, ascending_sound};
use crate::raft::{empty_config, log_entries_view, zero_position, ConfigView, EntriesView};

broadcast use {vstd::std_specs::btree::group_btree_axioms, vstd::laws_cmp::group_laws_cmp};

/// Application-defined payload for a command log entry.
///
/// The storage layer persists the tag and bytes but does not interpret either value.
#[derive(Debug, PartialEq, Eq)]
pub struct CommandPayload {
    tag: u8,
    bytes: Bytes,
}

/// The contents of a [`CommandPayload`].
#[verifier::ext_equal]
pub struct PayloadView {
    pub tag: u8,
    pub bytes: Seq<u8>,
}

impl View for CommandPayload {
    type V = PayloadView;

    closed spec fn view(&self) -> PayloadView {
        PayloadView { tag: self.tag, bytes: self.bytes@ }
    }
}

impl CommandPayload {
    /// Makes a command payload with an application-defined tag.
    pub fn new(tag: u8, bytes: Bytes) -> (payload: Self)
        ensures
            payload@ == (PayloadView { tag, bytes: bytes@ }),
    {
        Self { tag, bytes }
    }

    /// Returns the application-defined payload tag.
    pub fn tag(&self) -> (tag: u8)
        ensures
            tag == self@.tag,
    {
        self.tag
    }

    /// Returns the opaque payload bytes.
    pub fn bytes(&self) -> (bytes: &Bytes)
        ensures
            bytes@ == self@.bytes,
    {
        &self.bytes
    }

    /// Converts this payload into opaque bytes.
    pub fn into_bytes(self) -> (bytes: Bytes)
        ensures
            bytes@ == self@.bytes,
    {
        self.bytes
    }
}

impl Clone for CommandPayload {
    fn clone(&self) -> (copy: Self)
        ensures
            copy@ == self@,
    {
        Self { tag: self.tag, bytes: self.bytes.clone() }
    }
}

/// The contents of command payloads keyed by log index.
pub open spec fn payloads_view(payloads: Map<u64, CommandPayload>) -> Map<u64, PayloadView> {
    payloads.map_values(|payload: CommandPayload| payload@)
}

/// A persisted log append operation.
///
/// The value pairs log entries with tagged opaque command payloads. Construction validates
/// only the record-local payload mapping: every command entry must have one payload, and
/// payloads must not exist for non-command entries.
#[derive(Debug, PartialEq, Eq)]
pub struct LogAppend {
    entries: noraft::LogEntries,
    command_payloads: BTreeMap<u64, CommandPayload>,
}

/// The contents of a [`LogAppend`].
#[verifier::ext_equal]
pub struct AppendView {
    pub entries: EntriesView,
    pub payloads: Map<u64, PayloadView>,
}

impl View for LogAppend {
    type V = AppendView;

    closed spec fn view(&self) -> AppendView {
        AppendView {
            entries: log_entries_view(self.entries),
            payloads: payloads_view(self.command_payloads@),
        }
    }
}

impl AppendView {
    /// Whether there is a command entry at `index`.
    pub open spec fn is_command(self, index: int) -> bool {
        self.entries.has_entry(index) && self.entries.entry(index) is Command
    }

    /// Every command entry has a payload.
    pub open spec fn commands_have_payloads(self) -> bool {
        forall|index: u64| #[trigger]
            self.is_command(index as int) ==> self.payloads.contains_key(index)
    }

    /// Every payload belongs to a command entry.
    pub open spec fn payloads_have_commands(self) -> bool {
        forall|index: u64| #[trigger]
            self.payloads.contains_key(index) ==> self.is_command(index as int)
    }

    /// What is wrong with the indexes of the entries or with the payload mapping.
    pub open spec fn validation(self) -> Result<(), StorageError> {
        if !self.entries.wf() {
            Err(StorageError::LogIndexOverflow)
        } else if !self.commands_have_payloads() {
            Err(StorageError::MissingCommandPayload)
        } else if !self.payloads_have_commands() {
            Err(StorageError::UnmatchedCommandPayload)
        } else {
            Ok(())
        }
    }
}

impl LogAppend {
    /// Makes a new append operation after validating command payload mapping.
    pub fn new(
        entries: noraft::LogEntries,
        command_payloads: BTreeMap<u64, CommandPayload>,
    ) -> (append: Result<Self, StorageError>)
        ensures
            ({
                let view = AppendView {
                    entries: log_entries_view(entries),
                    payloads: payloads_view(command_payloads@),
                };
                match view.validation() {
                    Ok(()) => append is Ok && append->Ok_0@ == view,
                    Err(error) => append == Err::<LogAppend, _>(error),
                }
            }),
    {
        let this = Self { entries, command_payloads };
        match this.validate() {
            Ok(()) => Ok(this),
            Err(error) => Err(error),
        }
    }

    /// Returns the log entries.
    pub fn entries(&self) -> (entries: &noraft::LogEntries)
        ensures
            log_entries_view(*entries) == self@.entries,
    {
        &self.entries
    }

    /// Returns command payloads keyed by log index.
    pub fn command_payloads(&self) -> (payloads: &BTreeMap<u64, CommandPayload>)
        ensures
            payloads_view(payloads@) == self@.payloads,
    {
        &self.command_payloads
    }

    /// Converts this value into its entries and payloads.
    pub fn into_parts(self) -> (parts: (noraft::LogEntries, BTreeMap<u64, CommandPayload>))
        ensures
            log_entries_view(parts.0) == self@.entries,
            payloads_view(parts.1@) == self@.payloads,
    {
        (self.entries, self.command_payloads)
    }

    /// Checks that command entries and command payloads match each other.
    pub fn validate(&self) -> (result: Result<(), StorageError>)
        ensures
            result == self@.validation(),
    {
        if !entries_valid(&self.entries) {
            return Err(StorageError::LogIndexOverflow);
        }
        let len: u64 = entries_len(&self.entries);
        let prev: u64 = entries_prev(&self.entries).index.0;
        let mut i: u64 = 0;
        while i < len
            invariant
                i <= len,
                len == self@.entries.seq.len(),
                prev == self@.entries.prev.index.0,
                self@.entries.wf(),
                forall|index: u64|
                    prev < index <= prev + i && #[trigger] self@.is_command(index as int)
                        ==> self@.payloads.contains_key(index),
            decreases len - i,
        {
            let index: u64 = prev + 1 + i;
            if let Some(LogEntry::Command) = entries_get(&self.entries, index) {
                if !self.command_payloads.contains_key(&index) {
                    assert(self@.is_command(index as int));
                    return Err(StorageError::MissingCommandPayload);
                }
            }
            i = i + 1;
        }
        let keys = map_keys(&self.command_payloads);
        proof {
            ascending_sound(self.command_payloads@.dom());
        }
        let mut j: usize = 0;
        while j < keys.len()
            invariant
                j <= keys@.len(),
                keys@ == ascending(self.command_payloads@.dom()),
                keys@.to_set() == self.command_payloads@.dom(),
                self@.entries.wf(),
                self@.commands_have_payloads(),
                forall|k: int| 0 <= k < j ==> self@.is_command(#[trigger] keys@[k] as int),
            decreases keys@.len() - j,
        {
            let index: u64 = keys[j];
            let entry = entries_get(&self.entries, index);
            if let Some(LogEntry::Command) = entry {
                j = j + 1;
            } else {
                proof {
                    assert(keys@.to_set().contains(index));
                    assert(self@.payloads.contains_key(index));
                }
                return Err(StorageError::UnmatchedCommandPayload);
            }
        }
        assert forall|index: u64| #[trigger] self@.payloads.contains_key(index) implies
            self@.is_command(index as int) by {
            assert(keys@.to_set().contains(index));
            let k = choose|k: int| 0 <= k < keys@.len() && keys@[k] == index;
            assert(self@.is_command(keys@[k] as int));
        }
        Ok(())
    }
}

impl Clone for LogAppend {
    fn clone(&self) -> (copy: Self)
        ensures
            copy@ == self@,
    {
        Self {
            entries: self.entries.clone(),
            command_payloads: self.command_payloads.clone(),
        }
    }
}

/// Snapshot data of one node.
///
/// Snapshot payload bytes are application-defined and are loaded into memory with the rest
/// of the node state.
#[derive(Debug, PartialEq, Eq)]
pub struct Snapshot {
    /// Last log position that the snapshot covers.
    pub last_included: LogPosition,
    /// Cluster configuration at `last_included`.
    pub config: ClusterConfig,
    /// User-defined snapshot payload.
    pub data: Bytes,
}

/// The contents of a [`Snapshot`].
#[verifier::ext_equal]
pub struct SnapshotView {
    pub last_included: LogPosition,
    pub config: ConfigView,
    pub data: Seq<u8>,
}

impl View for Snapshot {
    type V = SnapshotView;

    open spec fn view(&self) -> SnapshotView {
        SnapshotView {
            last_included: self.last_included,
            config: self.config@,
            data: self.data@,
        }
    }
}

impl Clone for Snapshot {
    fn clone(&self) -> (copy: Self)
        ensures
            copy@ == self@,
    {
        Self {
            last_included: self.last_included,
            config: self.config.clone(),
            data: self.data.clone(),
        }
    }
}

/// Snapshot checkpoint data of one node.
///
/// A checkpoint replaces the earlier replay history for one node. Callers that need log
/// entries after the snapshot position must put them in the suffix or append them after
/// saving the checkpoint.
#[derive(Debug, PartialEq, Eq)]
pub struct SnapshotCheckpoint {
    /// Current term at the checkpoint.
    pub current_term: Term,
    /// Node voted for in the current term at the checkpoint.
    pub voted_for: Option<NodeId>,
    /// Latest snapshot at the checkpoint.
    pub snapshot: Snapshot,
    /// Log suffix retained after the snapshot. It must start at `snapshot.last_included`.
    pub suffix: LogAppend,
}

/// The contents of a [`SnapshotCheckpoint`].
#[verifier::ext_equal]
pub struct CheckpointView {
    pub current_term: Term,
    pub voted_for: Option<NodeId>,
    pub snapshot: SnapshotView,
    pub suffix: AppendView,
}

impl View for SnapshotCheckpoint {
    type V = CheckpointView;

    open spec fn view(&self) -> CheckpointView {
        CheckpointView {
            current_term: self.current_term,
            voted_for: self.voted_for,
            snapshot: self.snapshot@,
            suffix: self.suffix@,
        }
    }
}

impl CheckpointView {
    /// What is wrong with the checkpoint.
    pub open spec fn validation(self) -> Result<(), StorageError> {
        match self.suffix.validation() {
            Err(error) => Err(error),
            Ok(()) => if self.suffix.entries.prev != self.snapshot.last_included {
                Err(StorageError::CheckpointSuffixGap)
            } else {
                Ok(())
            },
        }
    }
}

impl SnapshotCheckpoint {
    /// Checks the suffix mapping and that the suffix starts at the snapshot position.
    pub fn validate(&self) -> (result: Result<(), StorageError>)
        ensures
            result == self@.validation(),
    {
        match self.suffix.validate() {
            Err(error) => Err(error),
            Ok(()) => {
                if entries_prev(self.suffix.entries()) != self.snapshot.last_included {
                    Err(StorageError::CheckpointSuffixGap)
                } else {
                    Ok(())
                }
            },
        }
    }
}

impl Clone for SnapshotCheckpoint {
    fn clone(&self) -> (copy: Self)
        ensures
            copy@ == self@,
    {
        Self {
            current_term: self.current_term,
            voted_for: self.voted_for,
            snapshot: self.snapshot.clone(),
            suffix: self.suffix.clone(),
        }
    }
}

/// The checkpoint that a node starts with: nothing saved yet.
pub open spec fn initial_checkpoint_view() -> CheckpointView {
    CheckpointView {
        current_term: Term(0),
        voted_for: None,
        snapshot: SnapshotView {
            last_included: zero_position(),
            config: empty_config(),
            data: Seq::empty(),
        },
        suffix: AppendView {
            entries: EntriesView { prev: zero_position(), seq: Seq::empty() },
            payloads: Map::empty(),
        },
    }
}

/// The initial checkpoint is valid.
pub proof fn initial_checkpoint_valid()
    ensures
        initial_checkpoint_view().validation() == Ok::<(), StorageError>(()),
        initial_checkpoint_view().suffix.entries.wf(),
{
}

/// Makes the checkpoint that a node starts with.
pub fn initial_checkpoint() -> (checkpoint: SnapshotCheckpoint)
    ensures
        checkpoint@ == initial_checkpoint_view(),
{
    let zero = LogPosition { term: Term(0), index: LogIndex(0) };
    let suffix = LogAppend { entries: entries_new(zero), command_payloads: BTreeMap::new() };
    assert(suffix@.payloads =~= Map::empty());
    SnapshotCheckpoint {
        current_term: Term(0),
        voted_for: None,
        snapshot: Snapshot {
            last_included: zero,
            config: ClusterConfig::new(),
            data: Bytes::new(Vec::new()),
        },
        suffix,
    }
}

/// One change of the persistent state of a node.
#[derive(Debug, PartialEq, Eq)]
pub enum Record {
    /// The current term changed.
    CurrentTerm(Term),
    /// The vote in the current term changed.
    VotedFor(Option<NodeId>),
    /// Log entries were appended.
    Append(LogAppend),
    /// The whole state up to here.
    SnapshotCheckpoint(SnapshotCheckpoint),
}

/// The contents of a [`Record`].
#[verifier::ext_equal]
pub enum RecordView {
    CurrentTerm(Term),
    VotedFor(Option<NodeId>),
    Append(AppendView),
    SnapshotCheckpoint(CheckpointView),
}

impl View for Record {
    type V = RecordView;

    open spec fn view(&self) -> RecordView {
        match self {
            Record::CurrentTerm(term) => RecordView::CurrentTerm(*term),
            Record::VotedFor(voted_for) => RecordView::VotedFor(*voted_for),
            Record::Append(append) => RecordView::Append(append@),
            Record::SnapshotCheckpoint(checkpoint) => RecordView::SnapshotCheckpoint(checkpoint@),
        }
    }
}

impl RecordView {
    /// The kind that statistics count this record under.
    pub open spec fn kind(self) -> RecordKindMetric {
        match self {
            RecordView::CurrentTerm(_) => RecordKindMetric::CurrentTerm,
            RecordView::VotedFor(_) => RecordKindMetric::VotedFor,
            RecordView::Append(_) => RecordKindMetric::LogAppend,
            RecordView::SnapshotCheckpoint(_) => RecordKindMetric::SnapshotCheckpoint,
        }
    }

    /// Log indexes in the record are 64-bit integers.
    pub open spec fn wf(self) -> bool {
        match self {
            RecordView::Append(append) => append.entries.wf(),
            RecordView::SnapshotCheckpoint(checkpoint) => checkpoint.suffix.entries.wf(),
            _ => true,
        }
    }
}

impl Record {
    /// Returns the kind that statistics count this record under.
    pub fn metric_kind(&self) -> (kind: RecordKindMetric)
        ensures
            kind == self@.kind(),
    {
        match self {
            Record::CurrentTerm(_) => RecordKindMetric::CurrentTerm,
            Record::VotedFor(_) => RecordKindMetric::VotedFor,
            Record::Append(_) => RecordKindMetric::LogAppend,
            Record::SnapshotCheckpoint(_) => RecordKindMetric::SnapshotCheckpoint,
        }
    }
}

/// A record and the node that it belongs to.
#[derive(Debug, PartialEq, Eq)]
pub struct NodeRecord {
    /// The node.
    pub node_id: NodeId,
    /// The record.
    pub record: Record,
}

/// The contents of a [`NodeRecord`].
#[verifier::ext_equal]
pub struct NodeRecordView {
    pub node_id: NodeId,
    pub record: RecordView,
}

impl View for NodeRecord {
    type V = NodeRecordView;

    open spec fn view(&self) -> NodeRecordView {
        NodeRecordView { node_id: self.node_id, record: self.record@ }
    }
}

} // verus!
