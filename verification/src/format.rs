//! The binary format of segment records.
//!
//! Every value has a byte form (`*_bytes`), the writer's view of it with its limits and
//! the error that each breach gives (`put_*`), and the reader's view (`parse_*`). The
//! proofs show that the reader gives back what the writer wrote.

use crate::error::StorageError;
use vstd::prelude::*;

verus! {

use crate::crc32c::crc32c_spec;
use crate::ordered::ascending;
use crate::raft::{ConfigView, EntriesView, EntryView, LogIndex, LogPosition, NodeId, Term};
use crate::record::{
    AppendView, CheckpointView, NodeRecordView, PayloadView, RecordView, SnapshotView,
};

/// The most items that a stored collection may have.
pub const MAX_COUNT_ITEMS: u32 = 1_000_000;

/// The most bytes that the body of a stored record may have.
pub const MAX_RECORD_BODY_LEN: u32 = 1_073_741_824;

// ---------------------------------------------------------------------------------------
// Little-endian integers
// ---------------------------------------------------------------------------------------

/// The low `n` bytes of `value`, least significant first.
pub open spec fn le_bytes(value: nat, n: nat) -> Seq<u8>
    decreases n,
{
    if n == 0 {
        Seq::empty()
    } else {
        seq![(value % 256) as u8] + le_bytes(value / 256, (n - 1) as nat)
    }
}

/// The number whose little-endian bytes are `bytes`.
pub open spec fn le_value(bytes: Seq<u8>) -> nat
    decreases bytes.len(),
{
    if bytes.len() == 0 {
        0
    } else {
        bytes[0] as nat + 256 * le_value(bytes.skip(1))
    }
}

/// One more than the largest number of `n` bytes.
pub open spec fn le_bound(n: nat) -> nat
    decreases n,
{
    if n == 0 {
        1
    } else {
        256 * le_bound((n - 1) as nat)
    }
}

/// The bounds of the integer widths in use.
pub proof fn le_bounds()
    ensures
        le_bound(0) == 1,
        le_bound(4) == 0x1_0000_0000,
        le_bound(8) == 0x1_0000_0000_0000_0000,
{
    reveal_with_fuel(le_bound, 9);
}

/// `n` bytes hold numbers below the bound.
pub proof fn le_value_bound(bytes: Seq<u8>)
    ensures
        le_value(bytes) < le_bound(bytes.len()),
    decreases bytes.len(),
{
    if bytes.len() > 0 {
        le_value_bound(bytes.skip(1));
    }
}

/// The byte form of a number has the requested width and gives the number back.
pub proof fn le_round_trip(value: nat, n: nat)
    requires
        value < le_bound(n),
    ensures
        le_bytes(value, n).len() == n,
        le_value(le_bytes(value, n)) == value,
    decreases n,
{
    if n > 0 {
        le_round_trip(value / 256, (n - 1) as nat);
        assert(le_bytes(value, n).skip(1) =~= le_bytes(value / 256, (n - 1) as nat));
    }
}

/// The byte form of a number has the requested width.
pub proof fn le_bytes_len(value: nat, n: nat)
    ensures
        le_bytes(value, n).len() == n,
    decreases n,
{
    if n > 0 {
        le_bytes_len(value / 256, (n - 1) as nat);
    }
}

// ---------------------------------------------------------------------------------------
// The writer
// ---------------------------------------------------------------------------------------

/// The state of a record writer: the bytes so far, and the length that counts against the
/// limit.
#[verifier::ext_equal]
pub struct Output {
    pub bytes: Seq<u8>,
    pub len: nat,
}

/// A writer, or the first error.
pub type Written = Result<Output, StorageError>;

/// Writes `bytes` if the limit allows it.
pub open spec fn put(out: Written, bytes: Seq<u8>) -> Written {
    match out {
        Err(error) => Err(error),
        Ok(output) => if output.len + bytes.len() > MAX_RECORD_BODY_LEN {
            Err(StorageError::RecordTooLarge)
        } else {
            Ok(Output { bytes: output.bytes + bytes, len: output.len + bytes.len() })
        },
    }
}

pub open spec fn put_u8(out: Written, value: u8) -> Written {
    put(out, seq![value])
}

pub open spec fn put_u32(out: Written, value: nat) -> Written {
    put(out, le_bytes(value, 4))
}

pub open spec fn put_u64(out: Written, value: u64) -> Written {
    put(out, le_bytes(value as nat, 8))
}

/// Goes on only if `validation` found nothing wrong.
pub open spec fn put_validated(out: Written, validation: Result<(), StorageError>) -> Written {
    match out {
        Err(error) => Err(error),
        Ok(output) => match validation {
            Err(error) => Err(error),
            Ok(()) => Ok(output),
        },
    }
}

/// Writes the number of items of a collection, which is limited.
pub open spec fn put_count(out: Written, count: nat, too_many: StorageError) -> Written {
    match out {
        Err(error) => Err(error),
        Ok(output) => if count > MAX_COUNT_ITEMS {
            Err(too_many)
        } else {
            put(out, le_bytes(count, 8))
        },
    }
}

/// Writes a byte string with its length in front.
pub open spec fn put_blob(out: Written, blob: Seq<u8>) -> Written {
    match out {
        Err(error) => Err(error),
        Ok(output) => if blob.len() > MAX_RECORD_BODY_LEN {
            Err(StorageError::ByteSliceTooLarge)
        } else {
            put(out, le_bytes(blob.len(), 8) + blob)
        },
    }
}

pub open spec fn put_optional_node_id(out: Written, node_id: Option<NodeId>) -> Written {
    match node_id {
        None => put_u8(out, 0),
        Some(node_id) => put_u64(put_u8(out, 1), node_id.0),
    }
}

pub open spec fn put_position(out: Written, position: LogPosition) -> Written {
    put_u64(put_u64(out, position.term.0), position.index.0)
}

pub open spec fn put_ids(out: Written, ids: Seq<u64>) -> Written
    decreases ids.len(),
{
    if ids.len() == 0 {
        out
    } else {
        put_ids(put_u64(out, ids[0]), ids.skip(1))
    }
}

/// Writes a set of node IDs in ascending order.
pub open spec fn put_node_id_set(out: Written, set: Set<u64>) -> Written {
    put_ids(put_count(out, set.len(), StorageError::TooManyNodeIds), ascending(set))
}

pub open spec fn put_config(out: Written, config: ConfigView) -> Written {
    put_node_id_set(
        put_node_id_set(put_node_id_set(out, config.voters), config.new_voters),
        config.non_voters,
    )
}

pub open spec fn put_entry(out: Written, entry: EntryView) -> Written {
    match entry {
        EntryView::Term(term) => put_u64(put_u8(out, 0), term.0),
        EntryView::ClusterConfig(config) => put_config(put_u8(out, 1), config),
        EntryView::Command => put_u8(out, 2),
    }
}

pub open spec fn put_entry_list(out: Written, entries: Seq<EntryView>) -> Written
    decreases entries.len(),
{
    if entries.len() == 0 {
        out
    } else {
        put_entry_list(put_entry(out, entries[0]), entries.skip(1))
    }
}

pub open spec fn put_entries(out: Written, entries: EntriesView) -> Written {
    put_entry_list(
        put_count(put_position(out, entries.prev), entries.seq.len(), StorageError::TooManyLogEntries),
        entries.seq,
    )
}

pub open spec fn put_payload(out: Written, index: u64, payload: PayloadView) -> Written {
    put_blob(put_u8(put_u64(out, index), payload.tag), payload.bytes)
}

pub open spec fn put_payload_list(
    out: Written,
    indexes: Seq<u64>,
    payloads: Map<u64, PayloadView>,
) -> Written
    decreases indexes.len(),
{
    if indexes.len() == 0 {
        out
    } else {
        put_payload_list(
            put_payload(out, indexes[0], payloads[indexes[0]]),
            indexes.skip(1),
            payloads,
        )
    }
}

/// Writes the payloads in ascending order of their log indexes.
pub open spec fn put_payloads(out: Written, payloads: Map<u64, PayloadView>) -> Written {
    put_payload_list(
        put_count(out, payloads.dom().len(), StorageError::TooManyCommandPayloads),
        ascending(payloads.dom()),
        payloads,
    )
}

pub open spec fn put_append(out: Written, append: AppendView) -> Written {
    put_payloads(put_entries(put_validated(out, append.validation()), append.entries), append.payloads)
}

pub open spec fn put_snapshot(out: Written, snapshot: SnapshotView) -> Written {
    put_blob(put_config(put_position(out, snapshot.last_included), snapshot.config), snapshot.data)
}

pub open spec fn put_checkpoint(out: Written, checkpoint: CheckpointView) -> Written {
    put_append(
        put_snapshot(
            put_optional_node_id(
                put_u64(put_validated(out, checkpoint.validation()), checkpoint.current_term.0),
                checkpoint.voted_for,
            ),
            checkpoint.snapshot,
        ),
        checkpoint.suffix,
    )
}

pub open spec fn put_record(out: Written, record: RecordView) -> Written {
    match record {
        RecordView::CurrentTerm(term) => put_u64(put_u8(out, 0), term.0),
        RecordView::VotedFor(voted_for) => put_optional_node_id(put_u8(out, 1), voted_for),
        RecordView::Append(append) => put_append(put_u8(out, 2), append),
        RecordView::SnapshotCheckpoint(checkpoint) => put_checkpoint(put_u8(out, 3), checkpoint),
    }
}

/// The body of a record, or why it cannot be stored.
pub open spec fn written_body(node_id: NodeId, record: RecordView) -> Result<Seq<u8>, StorageError> {
    let start = Output { bytes: Seq::empty(), len: 0 };
    match put_record(put_u64(Ok(start), node_id.0), record) {
        Err(error) => Err(error),
        Ok(output) => Ok(output.bytes),
    }
}

// ---------------------------------------------------------------------------------------
// Frames
// ---------------------------------------------------------------------------------------

/// The frame of a record body: its length, its checksum, the body.
pub open spec fn frame_bytes(body: Seq<u8>) -> Seq<u8> {
    le_bytes(body.len(), 4) + le_bytes(crc32c_spec(body) as nat, 4) + body
}

/// The frame of a record, or why it cannot be stored.
pub open spec fn written_frame(node_id: NodeId, record: RecordView) -> Result<Seq<u8>, StorageError> {
    match written_body(node_id, record) {
        Err(error) => Err(error),
        Ok(body) => Ok(frame_bytes(body)),
    }
}

/// The record body in the frame at the front of `input`; nothing where the input ends
/// before the frame does.
pub open spec fn read_frame(input: Seq<u8>) -> Result<Option<Seq<u8>>, StorageError> {
    if input.len() < 4 {
        Ok(None)
    } else {
        let body_len = le_value(input.take(4));
        if body_len > MAX_RECORD_BODY_LEN {
            Err(StorageError::SegmentRecordTooLarge)
        } else if input.len() < 8 + body_len {
            Ok(None)
        } else {
            let body = input.subrange(8, 8 + body_len as int);
            if crc32c_spec(body) != le_value(input.subrange(4, 8)) {
                Err(StorageError::ChecksumMismatch)
            } else {
                Ok(Some(body))
            }
        }
    }
}

// ---------------------------------------------------------------------------------------
// Byte forms
// ---------------------------------------------------------------------------------------

pub open spec fn blob_bytes(blob: Seq<u8>) -> Seq<u8> {
    le_bytes(blob.len(), 8) + blob
}

pub open spec fn optional_node_id_bytes(node_id: Option<NodeId>) -> Seq<u8> {
    match node_id {
        None => seq![0u8],
        Some(node_id) => seq![1u8] + le_bytes(node_id.0 as nat, 8),
    }
}

pub open spec fn position_bytes(position: LogPosition) -> Seq<u8> {
    le_bytes(position.term.0 as nat, 8) + le_bytes(position.index.0 as nat, 8)
}

pub open spec fn ids_bytes(ids: Seq<u64>) -> Seq<u8>
    decreases ids.len(),
{
    if ids.len() == 0 {
        Seq::empty()
    } else {
        le_bytes(ids[0] as nat, 8) + ids_bytes(ids.skip(1))
    }
}

pub open spec fn node_id_set_bytes(set: Set<u64>) -> Seq<u8> {
    le_bytes(set.len(), 8) + ids_bytes(ascending(set))
}

pub open spec fn config_bytes(config: ConfigView) -> Seq<u8> {
    node_id_set_bytes(config.voters) + node_id_set_bytes(config.new_voters) + node_id_set_bytes(
        config.non_voters,
    )
}

pub open spec fn entry_bytes(entry: EntryView) -> Seq<u8> {
    match entry {
        EntryView::Term(term) => seq![0u8] + le_bytes(term.0 as nat, 8),
        EntryView::ClusterConfig(config) => seq![1u8] + config_bytes(config),
        EntryView::Command => seq![2u8],
    }
}

pub open spec fn entry_list_bytes(entries: Seq<EntryView>) -> Seq<u8>
    decreases entries.len(),
{
    if entries.len() == 0 {
        Seq::empty()
    } else {
        entry_bytes(entries[0]) + entry_list_bytes(entries.skip(1))
    }
}

pub open spec fn entries_bytes(entries: EntriesView) -> Seq<u8> {
    position_bytes(entries.prev) + le_bytes(entries.seq.len(), 8) + entry_list_bytes(entries.seq)
}

pub open spec fn payload_bytes(index: u64, payload: PayloadView) -> Seq<u8> {
    le_bytes(index as nat, 8) + seq![payload.tag] + blob_bytes(payload.bytes)
}

pub open spec fn payload_list_bytes(indexes: Seq<u64>, payloads: Map<u64, PayloadView>) -> Seq<u8>
    decreases indexes.len(),
{
    if indexes.len() == 0 {
        Seq::empty()
    } else {
        payload_bytes(indexes[0], payloads[indexes[0]]) + payload_list_bytes(indexes.skip(1), payloads)
    }
}

pub open spec fn payloads_bytes(payloads: Map<u64, PayloadView>) -> Seq<u8> {
    le_bytes(payloads.dom().len(), 8) + payload_list_bytes(ascending(payloads.dom()), payloads)
}

pub open spec fn append_bytes(append: AppendView) -> Seq<u8> {
    entries_bytes(append.entries) + payloads_bytes(append.payloads)
}

pub open spec fn snapshot_bytes(snapshot: SnapshotView) -> Seq<u8> {
    position_bytes(snapshot.last_included) + config_bytes(snapshot.config) + blob_bytes(snapshot.data)
}

pub open spec fn checkpoint_bytes(checkpoint: CheckpointView) -> Seq<u8> {
    le_bytes(checkpoint.current_term.0 as nat, 8) + optional_node_id_bytes(checkpoint.voted_for)
        + snapshot_bytes(checkpoint.snapshot) + append_bytes(checkpoint.suffix)
}

pub open spec fn record_bytes(record: RecordView) -> Seq<u8> {
    match record {
        RecordView::CurrentTerm(term) => seq![0u8] + le_bytes(term.0 as nat, 8),
        RecordView::VotedFor(voted_for) => seq![1u8] + optional_node_id_bytes(voted_for),
        RecordView::Append(append) => seq![2u8] + append_bytes(append),
        RecordView::SnapshotCheckpoint(checkpoint) => seq![3u8] + checkpoint_bytes(checkpoint),
    }
}

/// The body of a stored record: the node ID, then the record.
pub open spec fn body_bytes(node_id: NodeId, record: RecordView) -> Seq<u8> {
    le_bytes(node_id.0 as nat, 8) + record_bytes(record)
}

// ---------------------------------------------------------------------------------------
// Limits
// ---------------------------------------------------------------------------------------

pub open spec fn config_within_limits(config: ConfigView) -> bool {
    &&& config.voters.len() <= MAX_COUNT_ITEMS
    &&& config.new_voters.len() <= MAX_COUNT_ITEMS
    &&& config.non_voters.len() <= MAX_COUNT_ITEMS
}

pub open spec fn entry_within_limits(entry: EntryView) -> bool {
    entry matches EntryView::ClusterConfig(config) ==> config_within_limits(config)
}

pub open spec fn append_within_limits(append: AppendView) -> bool {
    &&& append.validation() is Ok
    &&& append.entries.wf()
    &&& append.entries.seq.len() <= MAX_COUNT_ITEMS
    &&& forall|i: int|
        0 <= i < append.entries.seq.len() ==> entry_within_limits(#[trigger] append.entries.seq[i])
    &&& append.payloads.dom().len() <= MAX_COUNT_ITEMS
    &&& forall|index: u64| #[trigger]
        append.payloads.contains_key(index) ==> append.payloads[index].bytes.len()
            <= MAX_RECORD_BODY_LEN
}

pub open spec fn checkpoint_within_limits(checkpoint: CheckpointView) -> bool {
    &&& checkpoint.validation() is Ok
    &&& config_within_limits(checkpoint.snapshot.config)
    &&& checkpoint.snapshot.data.len() <= MAX_RECORD_BODY_LEN
    &&& append_within_limits(checkpoint.suffix)
}

/// Whether the parts of a record are valid and within the limits on counts and lengths.
pub open spec fn record_within_limits(record: RecordView) -> bool {
    match record {
        RecordView::CurrentTerm(_) => true,
        RecordView::VotedFor(_) => true,
        RecordView::Append(append) => append_within_limits(append),
        RecordView::SnapshotCheckpoint(checkpoint) => checkpoint_within_limits(checkpoint),
    }
}

/// Whether a record can be stored.
pub open spec fn storable(node_id: NodeId, record: RecordView) -> bool {
    record_within_limits(record) && body_bytes(node_id, record).len() <= MAX_RECORD_BODY_LEN
}

// ---------------------------------------------------------------------------------------
// The reader
// ---------------------------------------------------------------------------------------

/// A value read from the front of the input together with the rest of it, or an error.
pub type Parsed<T> = Result<(T, Seq<u8>), StorageError>;

/// Reads `n` bytes.
pub open spec fn parse_slice(input: Seq<u8>, n: nat) -> Parsed<Seq<u8>> {
    if input.len() < n {
        Err(StorageError::RecordTooShort)
    } else {
        Ok((input.take(n as int), input.skip(n as int)))
    }
}

pub open spec fn parse_u8(input: Seq<u8>) -> Parsed<u8> {
    match parse_slice(input, 1) {
        Err(error) => Err(error),
        Ok((bytes, rest)) => Ok((bytes[0], rest)),
    }
}

pub open spec fn parse_u32(input: Seq<u8>) -> Parsed<nat> {
    match parse_slice(input, 4) {
        Err(error) => Err(error),
        Ok((bytes, rest)) => Ok((le_value(bytes), rest)),
    }
}

pub open spec fn parse_u64(input: Seq<u8>) -> Parsed<u64> {
    match parse_slice(input, 8) {
        Err(error) => Err(error),
        Ok((bytes, rest)) => Ok((le_value(bytes) as u64, rest)),
    }
}

pub open spec fn parse_count(input: Seq<u8>, too_many: StorageError) -> Parsed<nat> {
    match parse_u64(input) {
        Err(error) => Err(error),
        Ok((count, rest)) => if count > MAX_COUNT_ITEMS {
            Err(too_many)
        } else {
            Ok((count as nat, rest))
        },
    }
}

pub open spec fn parse_blob(input: Seq<u8>) -> Parsed<Seq<u8>> {
    match parse_u64(input) {
        Err(error) => Err(error),
        Ok((len, rest)) => if len > MAX_RECORD_BODY_LEN {
            Err(StorageError::StoredByteSliceTooLarge)
        } else {
            parse_slice(rest, len as nat)
        },
    }
}

pub open spec fn parse_optional_node_id(input: Seq<u8>) -> Parsed<Option<NodeId>> {
    match parse_u8(input) {
        Err(error) => Err(error),
        Ok((tag, rest)) => if tag == 0 {
            Ok((None, rest))
        } else if tag == 1 {
            match parse_u64(rest) {
                Err(error) => Err(error),
                Ok((id, rest)) => Ok((Some(NodeId(id)), rest)),
            }
        } else {
            Err(StorageError::InvalidOptionalNodeIdTag)
        },
    }
}

pub open spec fn parse_position(input: Seq<u8>) -> Parsed<LogPosition> {
    match parse_u64(input) {
        Err(error) => Err(error),
        Ok((term, rest)) => match parse_u64(rest) {
            Err(error) => Err(error),
            Ok((index, rest)) => Ok(
                (LogPosition { term: Term(term), index: LogIndex(index) }, rest),
            ),
        },
    }
}

/// Reads `count` more node IDs into `set`; none may come twice.
pub open spec fn parse_ids(input: Seq<u8>, count: nat, set: Set<u64>) -> Parsed<Set<u64>>
    decreases count,
{
    if count == 0 {
        Ok((set, input))
    } else {
        match parse_u64(input) {
            Err(error) => Err(error),
            Ok((id, rest)) => if set.contains(id) {
                Err(StorageError::DuplicateNodeId)
            } else {
                parse_ids(rest, (count - 1) as nat, set.insert(id))
            },
        }
    }
}

pub open spec fn parse_node_id_set(input: Seq<u8>) -> Parsed<Set<u64>> {
    match parse_count(input, StorageError::StoredTooManyNodeIds) {
        Err(error) => Err(error),
        Ok((count, rest)) => parse_ids(rest, count, Set::empty()),
    }
}

#[verifier::opaque]
pub open spec fn parse_config(input: Seq<u8>) -> Parsed<ConfigView> {
    match parse_node_id_set(input) {
        Err(error) => Err(error),
        Ok((voters, rest)) => match parse_node_id_set(rest) {
            Err(error) => Err(error),
            Ok((new_voters, rest)) => match parse_node_id_set(rest) {
                Err(error) => Err(error),
                Ok((non_voters, rest)) => Ok((ConfigView { voters, new_voters, non_voters }, rest)),
            },
        },
    }
}

pub open spec fn parse_entry(input: Seq<u8>) -> Parsed<EntryView> {
    match parse_u8(input) {
        Err(error) => Err(error),
        Ok((tag, rest)) => if tag == 0 {
            match parse_u64(rest) {
                Err(error) => Err(error),
                Ok((term, rest)) => Ok((EntryView::Term(Term(term)), rest)),
            }
        } else if tag == 1 {
            match parse_config(rest) {
                Err(error) => Err(error),
                Ok((config, rest)) => Ok((EntryView::ClusterConfig(config), rest)),
            }
        } else if tag == 2 {
            Ok((EntryView::Command, rest))
        } else {
            Err(StorageError::UnknownLogEntryTag)
        },
    }
}

/// Reads `count` more log entries behind `entries`.
pub open spec fn parse_entry_list(input: Seq<u8>, count: nat, entries: Seq<EntryView>) -> Parsed<
    Seq<EntryView>,
>
    decreases count,
{
    if count == 0 {
        Ok((entries, input))
    } else {
        match parse_entry(input) {
            Err(error) => Err(error),
            Ok((entry, rest)) => parse_entry_list(rest, (count - 1) as nat, entries.push(entry)),
        }
    }
}

#[verifier::opaque]
pub open spec fn parse_entries(input: Seq<u8>) -> Parsed<EntriesView> {
    match parse_position(input) {
        Err(error) => Err(error),
        Ok((prev, rest)) => match parse_count(rest, StorageError::StoredTooManyLogEntries) {
            Err(error) => Err(error),
            Ok((count, rest)) => if prev.index.0 + count > u64::MAX {
                Err(StorageError::LogIndexOverflow)
            } else {
                match parse_entry_list(rest, count, Seq::empty()) {
                    Err(error) => Err(error),
                    Ok((seq, rest)) => Ok((EntriesView { prev, seq }, rest)),
                }
            },
        },
    }
}

pub open spec fn parse_payload(input: Seq<u8>) -> Parsed<(u64, PayloadView)> {
    match parse_u64(input) {
        Err(error) => Err(error),
        Ok((index, rest)) => match parse_u8(rest) {
            Err(error) => Err(error),
            Ok((tag, rest)) => match parse_blob(rest) {
                Err(error) => Err(error),
                Ok((bytes, rest)) => Ok(((index, PayloadView { tag, bytes }), rest)),
            },
        },
    }
}

/// Reads `count` more payloads into `payloads`; no log index may come twice.
pub open spec fn parse_payload_list(
    input: Seq<u8>,
    count: nat,
    payloads: Map<u64, PayloadView>,
) -> Parsed<Map<u64, PayloadView>>
    decreases count,
{
    if count == 0 {
        Ok((payloads, input))
    } else {
        match parse_payload(input) {
            Err(error) => Err(error),
            Ok(((index, payload), rest)) => if payloads.contains_key(index) {
                Err(StorageError::DuplicateCommandPayloadIndex)
            } else {
                parse_payload_list(rest, (count - 1) as nat, payloads.insert(index, payload))
            },
        }
    }
}

#[verifier::opaque]
pub open spec fn parse_payloads(input: Seq<u8>) -> Parsed<Map<u64, PayloadView>> {
    match parse_count(input, StorageError::StoredTooManyCommandPayloads) {
        Err(error) => Err(error),
        Ok((count, rest)) => parse_payload_list(rest, count, Map::empty()),
    }
}

#[verifier::opaque]
pub open spec fn parse_append(input: Seq<u8>) -> Parsed<AppendView> {
    match parse_entries(input) {
        Err(error) => Err(error),
        Ok((entries, rest)) => match parse_payloads(rest) {
            Err(error) => Err(error),
            Ok((payloads, rest)) => {
                let append = AppendView { entries, payloads };
                if append.validation() is Err {
                    Err(StorageError::InvalidCommandPayloadMapping)
                } else {
                    Ok((append, rest))
                }
            },
        },
    }
}

#[verifier::opaque]
pub open spec fn parse_snapshot(input: Seq<u8>) -> Parsed<SnapshotView> {
    match parse_position(input) {
        Err(error) => Err(error),
        Ok((last_included, rest)) => match parse_config(rest) {
            Err(error) => Err(error),
            Ok((config, rest)) => match parse_blob(rest) {
                Err(error) => Err(error),
                Ok((data, rest)) => Ok((SnapshotView { last_included, config, data }, rest)),
            },
        },
    }
}

#[verifier::opaque]
pub open spec fn parse_checkpoint(input: Seq<u8>) -> Parsed<CheckpointView> {
    match parse_u64(input) {
        Err(error) => Err(error),
        Ok((term, rest)) => match parse_optional_node_id(rest) {
            Err(error) => Err(error),
            Ok((voted_for, rest)) => match parse_snapshot(rest) {
                Err(error) => Err(error),
                Ok((snapshot, rest)) => match parse_append(rest) {
                    Err(error) => Err(error),
                    Ok((suffix, rest)) => {
                        let checkpoint = CheckpointView {
                            current_term: Term(term),
                            voted_for,
                            snapshot,
                            suffix,
                        };
                        if checkpoint.validation() is Err {
                            Err(StorageError::InvalidSnapshotCheckpoint)
                        } else {
                            Ok((checkpoint, rest))
                        }
                    },
                },
            },
        },
    }
}

pub open spec fn parse_record(input: Seq<u8>) -> Parsed<RecordView> {
    match parse_u8(input) {
        Err(error) => Err(error),
        Ok((tag, rest)) => if tag == 0 {
            match parse_u64(rest) {
                Err(error) => Err(error),
                Ok((term, rest)) => Ok((RecordView::CurrentTerm(Term(term)), rest)),
            }
        } else if tag == 1 {
            match parse_optional_node_id(rest) {
                Err(error) => Err(error),
                Ok((voted_for, rest)) => Ok((RecordView::VotedFor(voted_for), rest)),
            }
        } else if tag == 2 {
            match parse_append(rest) {
                Err(error) => Err(error),
                Ok((append, rest)) => Ok((RecordView::Append(append), rest)),
            }
        } else if tag == 3 {
            match parse_checkpoint(rest) {
                Err(error) => Err(error),
                Ok((checkpoint, rest)) => Ok((RecordView::SnapshotCheckpoint(checkpoint), rest)),
            }
        } else {
            Err(StorageError::UnknownRecordTag)
        },
    }
}

/// The node that the body of a stored record belongs to.
pub open spec fn body_node_id(body: Seq<u8>) -> Result<NodeId, StorageError> {
    match parse_u64(body) {
        Err(error) => Err(error),
        Ok((id, _)) => Ok(NodeId(id)),
    }
}

/// What the body of a stored record holds.
pub open spec fn parse_body(body: Seq<u8>) -> Result<NodeRecordView, StorageError> {
    match parse_u64(body) {
        Err(error) => Err(error),
        Ok((id, rest)) => match parse_record(rest) {
            Err(error) => Err(error),
            Ok((record, rest)) => if rest.len() != 0 {
                Err(StorageError::RecordTrailingBytes)
            } else {
                Ok(NodeRecordView { node_id: NodeId(id), record })
            },
        },
    }
}

} // verus!
