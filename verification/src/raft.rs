//! The Raft values that storage records are made of.
//!
//! Log entries are kept in [`noraft::LogEntries`]; everything else is plain data.

use std::collections::BTreeSet;
use vstd::prelude::*;

verus! {

/// Identifier of a Raft node, unique within a storage.
#[derive(Debug, Clone, Copy, PartialEq, Eq, PartialOrd, Ord, Hash, Structural)]
pub struct NodeId(pub u64);

/// Raft term.
#[derive(Debug, Clone, Copy, PartialEq, Eq, PartialOrd, Ord, Hash, Structural)]
pub struct Term(pub u64);

/// Index of a log entry.
#[derive(Debug, Clone, Copy, PartialEq, Eq, PartialOrd, Ord, Hash, Structural)]
pub struct LogIndex(pub u64);

/// Position of a log entry: its index and the term in force there.
#[derive(Debug, Clone, Copy, PartialEq, Eq, PartialOrd, Ord, Hash, Structural)]
pub struct LogPosition {
    /// Term in force at the entry.
    pub term: Term,
    /// Index of the entry.
    pub index: LogIndex,
}

/// The position before the first entry of an empty log.
pub open spec fn zero_position() -> LogPosition {
    LogPosition { term: Term(0), index: LogIndex(0) }
}

/// Members of a Raft cluster, by node ID.
#[derive(Debug, PartialEq, Eq, Hash)]
pub struct ClusterConfig {
    /// Voting members.
    pub voters: BTreeSet<u64>,
    /// Voting members of the configuration that a joint consensus moves to.
    pub new_voters: BTreeSet<u64>,
    /// Members that do not vote.
    pub non_voters: BTreeSet<u64>,
}

/// The contents of a [`ClusterConfig`].
#[verifier::ext_equal]
pub struct ConfigView {
    pub voters: Set<u64>,
    pub new_voters: Set<u64>,
    pub non_voters: Set<u64>,
}

impl View for ClusterConfig {
    type V = ConfigView;

    open spec fn view(&self) -> ConfigView {
        ConfigView {
            voters: self.voters@,
            new_voters: self.new_voters@,
            non_voters: self.non_voters@,
        }
    }
}

/// The configuration without members.
pub open spec fn empty_config() -> ConfigView {
    ConfigView { voters: Set::empty(), new_voters: Set::empty(), non_voters: Set::empty() }
}

impl ClusterConfig {
    /// Makes a configuration without members.
    pub fn new() -> (config: Self)
        ensures
            config@ == empty_config(),
    {
        Self { voters: BTreeSet::new(), new_voters: BTreeSet::new(), non_voters: BTreeSet::new() }
    }
}

impl Default for ClusterConfig {
    fn default() -> (config: Self)
        ensures
            config@ == empty_config(),
    {
        Self::new()
    }
}

impl Clone for ClusterConfig {
    fn clone(&self) -> (copy: Self)
        ensures
            copy@ == self@,
    {
        Self {
            voters: self.voters.clone(),
            new_voters: self.new_voters.clone(),
            non_voters: self.non_voters.clone(),
        }
    }
}

/// One entry of a Raft log.
#[derive(Debug, PartialEq, Eq, Hash)]
pub enum LogEntry {
    /// A new term starts here.
    Term(Term),
    /// The cluster configuration changes here.
    ClusterConfig(ClusterConfig),
    /// An application command, whose payload is stored beside the log.
    Command,
}

/// The contents of a [`LogEntry`].
#[verifier::ext_equal]
pub enum EntryView {
    Term(Term),
    ClusterConfig(ConfigView),
    Command,
}

impl View for LogEntry {
    type V = EntryView;

    open spec fn view(&self) -> EntryView {
        match self {
            LogEntry::Term(term) => EntryView::Term(*term),
            LogEntry::ClusterConfig(config) => EntryView::ClusterConfig(config@),
            LogEntry::Command => EntryView::Command,
        }
    }
}

/// The contents of a sequence of log entries: what precedes them, and the entries.
#[verifier::ext_equal]
pub struct EntriesView {
    pub prev: LogPosition,
    pub seq: Seq<EntryView>,
}

/// The term in force after the entries `seq`, where `before` is in force ahead of them.
pub open spec fn term_after(before: Term, seq: Seq<EntryView>) -> Term
    decreases seq.len(),
{
    if seq.len() == 0 {
        before
    } else {
        match seq.last() {
            EntryView::Term(term) => term,
            _ => term_after(before, seq.drop_last()),
        }
    }
}

impl EntriesView {
    /// The index of the last entry, or that of the previous position if there is none.
    pub open spec fn last_index(self) -> int {
        self.prev.index.0 + self.seq.len()
    }

    /// Indexes of log entries are 64-bit integers.
    pub open spec fn wf(self) -> bool {
        self.last_index() <= u64::MAX
    }

    /// Whether there is an entry at `index`.
    pub open spec fn has_entry(self, index: int) -> bool {
        self.prev.index.0 < index <= self.last_index()
    }

    /// The entry at `index`.
    pub open spec fn entry(self, index: int) -> EntryView
        recommends
            self.has_entry(index),
    {
        self.seq[index - self.prev.index.0 - 1]
    }

    /// The term in force at `index`.
    pub open spec fn term_at(self, index: int) -> Term
        recommends
            self.prev.index.0 <= index <= self.last_index(),
    {
        term_after(self.prev.term, self.seq.take(index - self.prev.index.0))
    }

    /// Whether `position` is the previous position or that of an entry. Where the indexes ran
    /// past the largest one, no position is.
    pub open spec fn contains(self, position: LogPosition) -> bool {
        &&& self.wf()
        &&& self.prev.index.0 <= position.index.0 <= self.last_index()
        &&& self.term_at(position.index.0 as int) == position.term
    }

    /// The entries after `index`, preceded by `position`.
    pub open spec fn after(self, position: LogPosition) -> EntriesView
        recommends
            self.contains(position),
    {
        EntriesView {
            prev: position,
            seq: self.seq.skip(position.index.0 - self.prev.index.0),
        }
    }
}

#[verifier::external_type_specification]
#[verifier::external_body]
pub struct ExLogEntries(noraft::LogEntries);

/// The position that precedes the entries of a [`noraft::LogEntries`].
pub uninterp spec fn log_entries_prev(entries: noraft::LogEntries) -> LogPosition;

/// The entries of a [`noraft::LogEntries`] at the indexes behind its previous position, in
/// order. Release builds of `noraft` let the indexes wrap around behind the largest one; such
/// a value has more entries than there are indexes behind the previous position. Not covered
/// are values that come from [`noraft::LogEntries::since`] at the largest index, a call that
/// `noraft` asks its callers to guard against.
pub uninterp spec fn log_entries_seq(entries: noraft::LogEntries) -> Seq<EntryView>;

/// The contents of a [`noraft::LogEntries`].
pub open spec fn log_entries_view(entries: noraft::LogEntries) -> EntriesView {
    EntriesView { prev: log_entries_prev(entries), seq: log_entries_seq(entries) }
}

/// [`noraft::LogEntries::clone`]: the copy holds the same entries.
pub assume_specification[ <noraft::LogEntries as Clone>::clone ](
    entries: &noraft::LogEntries,
) -> (copy: noraft::LogEntries)
    ensures
        log_entries_prev(copy) == log_entries_prev(*entries),
        log_entries_seq(copy) == log_entries_seq(*entries),
;

/// [`noraft::LogEntries::new`]: no entries after the given position.
#[verifier::external_body]
pub(crate) fn entries_new(prev: LogPosition) -> (entries: noraft::LogEntries)
    ensures
        log_entries_prev(entries) == prev,
        log_entries_seq(entries) == Seq::<EntryView>::empty(),
{
    noraft::LogEntries::new(noraft::LogPosition::new(
        noraft::Term::new(prev.term.0),
        noraft::LogIndex::new(prev.index.0),
    ))
}

/// [`noraft::LogEntries::prev_position`]: the position that precedes the entries.
#[verifier::external_body]
pub(crate) fn entries_prev(entries: &noraft::LogEntries) -> (prev: LogPosition)
    ensures
        prev == log_entries_prev(*entries),
{
    let prev = entries.prev_position();
    LogPosition { term: Term(prev.term.get()), index: LogIndex(prev.index.get()) }
}

/// [`noraft::LogEntries::last_position`]: the last index comes before the previous one exactly
/// where indexes wrapped around. Where they did not, the last index tells how many entries
/// there are, as they have consecutive indexes.
#[verifier::external_body]
pub(crate) fn entries_last(entries: &noraft::LogEntries) -> (last: LogPosition)
    ensures
        last.index.0 >= log_entries_prev(*entries).index.0 <==> log_entries_view(*entries).wf(),
        log_entries_view(*entries).wf() ==> last.index.0 == log_entries_view(*entries).last_index(),
{
    let last = entries.last_position();
    LogPosition { term: Term(last.term.get()), index: LogIndex(last.index.get()) }
}

/// [`noraft::LogEntries::get_entry`]: the entry at an index, if there is one.
#[verifier::external_body]
pub(crate) fn entries_get(entries: &noraft::LogEntries, index: u64) -> (entry: Option<LogEntry>)
    requires
        log_entries_view(*entries).wf(),
    ensures
        entry is Some <==> log_entries_view(*entries).has_entry(index as int),
        entry is Some ==> entry->0@ == log_entries_view(*entries).entry(index as int),
{
    Some(match entries.get_entry(noraft::LogIndex::new(index))? {
        noraft::LogEntry::Term(term) => LogEntry::Term(Term(term.get())),
        noraft::LogEntry::ClusterConfig(config) => LogEntry::ClusterConfig(ClusterConfig {
            voters: config.voters.iter().map(|id| id.get()).collect(),
            new_voters: config.new_voters.iter().map(|id| id.get()).collect(),
            non_voters: config.non_voters.iter().map(|id| id.get()).collect(),
        }),
        noraft::LogEntry::Command => LogEntry::Command,
    })
}

/// [`noraft::LogEntries::push`]: one more entry at the end. The index of the new entry
/// must be representable.
#[verifier::external_body]
pub(crate) fn entries_push(entries: &mut noraft::LogEntries, entry: LogEntry)
    requires
        log_entries_view(*old(entries)).last_index() < u64::MAX,
    ensures
        log_entries_prev(*final(entries)) == log_entries_prev(*old(entries)),
        log_entries_seq(*final(entries)) == log_entries_seq(*old(entries)).push(entry@),
{
    entries.push(match entry {
        LogEntry::Term(term) => noraft::LogEntry::Term(noraft::Term::new(term.0)),
        LogEntry::ClusterConfig(config) => noraft::LogEntry::ClusterConfig(noraft::ClusterConfig {
            voters: config.voters.into_iter().map(noraft::NodeId::new).collect(),
            new_voters: config.new_voters.into_iter().map(noraft::NodeId::new).collect(),
            non_voters: config.non_voters.into_iter().map(noraft::NodeId::new).collect(),
        }),
        LogEntry::Command => noraft::LogEntry::Command,
    });
}

/// [`noraft::LogEntries::truncate`]: keeps at most the first `len` entries. The number of
/// entries must fit in `usize`.
#[verifier::external_body]
pub(crate) fn entries_truncate(entries: &mut noraft::LogEntries, len: usize)
    requires
        log_entries_view(*old(entries)).wf(),
        log_entries_seq(*old(entries)).len() <= usize::MAX,
    ensures
        log_entries_prev(*final(entries)) == log_entries_prev(*old(entries)),
        log_entries_seq(*final(entries)) == (if len < log_entries_seq(*old(entries)).len() {
            log_entries_seq(*old(entries)).take(len as int)
        } else {
            log_entries_seq(*old(entries))
        }),
{
    entries.truncate(len);
}

/// [`noraft::LogEntries::contains`]: whether the position is the previous position or that
/// of an entry, with the term in force there.
#[verifier::external_body]
pub(crate) fn entries_contain(entries: &noraft::LogEntries, position: LogPosition) -> (found: bool)
    requires
        log_entries_view(*entries).wf(),
    ensures
        found == log_entries_view(*entries).contains(position),
{
    entries.contains(noraft::LogPosition::new(
        noraft::Term::new(position.term.0),
        noraft::LogIndex::new(position.index.0),
    ))
}

/// [`noraft::LogEntries::since`]: the entries after a position, if the log contains it.
/// The index after the position must be representable.
#[verifier::external_body]
pub(crate) fn entries_since(
    entries: &noraft::LogEntries,
    position: LogPosition,
) -> (suffix: Option<noraft::LogEntries>)
    requires
        log_entries_view(*entries).wf(),
        position.index.0 < u64::MAX,
    ensures
        suffix is Some <==> log_entries_view(*entries).contains(position),
        suffix is Some ==> log_entries_view(suffix->0) == log_entries_view(*entries).after(position),
{
    entries.since(noraft::LogPosition::new(
        noraft::Term::new(position.term.0),
        noraft::LogIndex::new(position.index.0),
    ))
}

/// Whether the indexes of the entries are 64-bit integers.
pub(crate) fn entries_valid(entries: &noraft::LogEntries) -> (valid: bool)
    ensures
        valid == log_entries_view(*entries).wf(),
{
    entries_last(entries).index.0 >= entries_prev(entries).index.0
}

/// How many entries there are.
pub(crate) fn entries_len(entries: &noraft::LogEntries) -> (len: u64)
    requires
        log_entries_view(*entries).wf(),
    ensures
        len == log_entries_seq(*entries).len(),
{
    entries_last(entries).index.0 - entries_prev(entries).index.0
}

/// A Raft log: the configuration at its snapshot position, and the entries after it.
#[derive(Debug, PartialEq, Eq)]
pub struct Log {
    snapshot_config: ClusterConfig,
    entries: noraft::LogEntries,
}

/// The contents of a [`Log`].
#[verifier::ext_equal]
pub struct LogView {
    pub snapshot_config: ConfigView,
    pub entries: EntriesView,
}

impl View for Log {
    type V = LogView;

    closed spec fn view(&self) -> LogView {
        LogView {
            snapshot_config: self.snapshot_config@,
            entries: log_entries_view(self.entries),
        }
    }
}

impl Log {
    /// Makes a log.
    pub fn new(snapshot_config: ClusterConfig, entries: noraft::LogEntries) -> (log: Self)
        ensures
            log@ == (LogView {
                snapshot_config: snapshot_config@,
                entries: log_entries_view(entries),
            }),
    {
        Self { snapshot_config, entries }
    }

    /// Returns the entries after the snapshot position.
    pub fn entries(&self) -> (entries: &noraft::LogEntries)
        ensures
            log_entries_view(*entries) == self@.entries,
    {
        &self.entries
    }

    /// Returns the configuration at the snapshot position.
    pub fn snapshot_config(&self) -> (config: &ClusterConfig)
        ensures
            config@ == self@.snapshot_config,
    {
        &self.snapshot_config
    }
}

impl Clone for Log {
    fn clone(&self) -> (copy: Self)
        ensures
            copy@ == self@,
    {
        Self { snapshot_config: self.snapshot_config.clone(), entries: self.entries.clone() }
    }
}

} // verus!
