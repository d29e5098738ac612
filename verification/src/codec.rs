//! Encoding and decoding of segment records.

use crate::bytes::Bytes;
use crate::crc32c::{crc32c, Crc32c};
use crate::error::StorageError;
use crate::format::{MAX_COUNT_ITEMS, MAX_RECORD_BODY_LEN};
use crate::ordered::{map_keys, set_members};
use crate::raft::{
    entries_get, entries_len, entries_new, entries_prev, entries_push, ClusterConfig, LogEntry,
    LogIndex, LogPosition, NodeId, Term,
};
use crate::record::{
    CommandPayload, LogAppend, NodeRecord, Record, Snapshot, SnapshotCheckpoint,
};
use std::collections::{BTreeMap, BTreeSet};
use vstd::prelude::*;

verus! {

use crate::crc32c::{crc32c_spec, crc_register, crc_register_concat};
use crate::format::{
    body_node_id, frame_bytes, le_bound, le_bounds, le_bytes, le_bytes_len, le_value,
    le_value_bound, parse_append, parse_blob, parse_body, parse_checkpoint, parse_config,
    parse_count, parse_entries, parse_entry, parse_entry_list, parse_ids, parse_node_id_set,
    parse_optional_node_id, parse_payload, parse_payload_list, parse_payloads, parse_position,
    parse_record, parse_slice, parse_snapshot, parse_u32, parse_u64, parse_u8, put, put_append,
    put_blob, put_checkpoint, put_config, put_count, put_entries, put_entry, put_entry_list,
    put_ids, put_node_id_set, put_optional_node_id, put_payload, put_payload_list, put_payloads,
    put_position, put_record, put_snapshot, put_u32, put_u64, put_u8, put_validated, read_frame,
    written_frame, Output, Written,
};
use crate::ordered::{ascending, ascending_sound};
use crate::raft::{log_entries_view, EntriesView};
use crate::record::payloads_view;
use crate::round_trip::{
    put_err_append, put_err_checkpoint, put_err_entry_list, put_err_ids, put_err_node_id_set,
    put_err_payload_list, record_counted,
};

broadcast use {vstd::std_specs::btree::group_btree_axioms, vstd::laws_cmp::group_laws_cmp};

/// Length of the header of a record frame: the body length and the checksum.
pub const SEGMENT_RECORD_HEADER_LEN: usize = 8;

// ---------------------------------------------------------------------------------------
// Little-endian integers
// ---------------------------------------------------------------------------------------

/// The low `n` bytes of `value`, least significant first.
fn to_le_bytes(value: u64, n: usize) -> (bytes: Vec<u8>)
    ensures
        bytes@ == le_bytes(value as nat, n as nat),
{
    let mut bytes: Vec<u8> = Vec::new();
    let mut left: u64 = value;
    let mut i: usize = 0;
    while i < n
        invariant
            i <= n,
            bytes@ + le_bytes(left as nat, (n - i) as nat) == le_bytes(value as nat, n as nat),
        decreases n - i,
    {
        let ghost before = bytes@;
        let byte: u8 = (left % 256) as u8;
        bytes.push(byte);
        proof {
            assert(le_bytes(left as nat, (n - i) as nat) == seq![byte] + le_bytes(
                (left / 256) as nat,
                (n - i - 1) as nat,
            ));
            assert(bytes@ + le_bytes((left / 256) as nat, (n - i - 1) as nat) =~= before + (seq![byte]
                + le_bytes((left / 256) as nat, (n - i - 1) as nat)));
        }
        left = left / 256;
        i = i + 1;
    }
    assert(bytes@ + le_bytes(left as nat, 0) =~= bytes@);
    bytes
}

/// The number whose little-endian bytes are `bytes`.
fn from_le_bytes(bytes: &[u8]) -> (value: u64)
    requires
        bytes@.len() <= 8,
    ensures
        value == le_value(bytes@),
        value < le_bound(bytes@.len()),
{
    let mut value: u64 = 0;
    let mut i: usize = bytes.len();
    proof {
        le_bounds();
        assert(bytes@.skip(bytes@.len() as int) =~= Seq::<u8>::empty());
    }
    while i > 0
        invariant
            i <= bytes@.len(),
            bytes@.len() <= 8,
            value == le_value(bytes@.skip(i as int)),
        decreases i,
    {
        i = i - 1;
        proof {
            let tail = bytes@.skip(i as int);
            assert(tail.skip(1) =~= bytes@.skip(i + 1));
            assert(tail[0] == bytes@[i as int]);
            le_value_bound(tail);
            le_bound_at_most(tail.len());
        }
        value = value * 256 + (bytes[i] as u64);
    }
    proof {
        assert(bytes@.skip(0) =~= bytes@);
        le_value_bound(bytes@);
    }
    value
}

proof fn le_bound_at_most(n: nat)
    requires
        n <= 8,
    ensures
        le_bound(n) <= 0x1_0000_0000_0000_0000,
{
    reveal_with_fuel(le_bound, 9);
}

// ---------------------------------------------------------------------------------------
// Encoder
// ---------------------------------------------------------------------------------------

/// Collects the bytes of one record body and enforces the limit on its length.
#[derive(Debug)]
pub struct Encoder {
    /// The bytes written so far.
    pub bytes: Vec<u8>,
    /// The length that counts against the limit.
    pub len: u32,
}

impl View for Encoder {
    type V = Output;

    open spec fn view(&self) -> Output {
        Output { bytes: self.bytes@, len: self.len as nat }
    }
}

/// The outcome of a write: the expected bytes were written, or the expected error came.
spec fn wrote(result: Result<(), StorageError>, after: Output, expected: Written) -> bool {
    match expected {
        Ok(output) => result is Ok && after == output,
        Err(error) => result == Err::<(), StorageError>(error),
    }
}

impl Encoder {
    /// Makes an encoder without bytes.
    pub fn new() -> (encoder: Self)
        ensures
            encoder@ == (Output { bytes: Seq::empty(), len: 0 }),
    {
        Self { bytes: Vec::new(), len: 0 }
    }

    /// Writes one byte.
    pub fn put_u8(&mut self, value: u8) -> (result: Result<(), StorageError>)
        ensures
            match put_u8(Ok(old(self)@), value) {
                Ok(output) => result is Ok && final(self)@ == output,
                Err(error) => result == Err::<(), StorageError>(error) && final(self)@ == old(self)@,
            },
    {
        let mut bytes: Vec<u8> = Vec::new();
        bytes.push(value);
        assert(bytes@ =~= seq![value]);
        self.put_slice(&bytes)
    }

    /// Writes a 32-bit integer.
    pub fn put_u32(&mut self, value: u32) -> (result: Result<(), StorageError>)
        ensures
            match put_u32(Ok(old(self)@), value as nat) {
                Ok(output) => result is Ok && final(self)@ == output,
                Err(error) => result == Err::<(), StorageError>(error) && final(self)@ == old(self)@,
            },
    {
        self.put_slice(&to_le_bytes(value as u64, 4))
    }

    /// Writes a 64-bit integer.
    pub fn put_u64(&mut self, value: u64) -> (result: Result<(), StorageError>)
        ensures
            match put_u64(Ok(old(self)@), value) {
                Ok(output) => result is Ok && final(self)@ == output,
                Err(error) => result == Err::<(), StorageError>(error) && final(self)@ == old(self)@,
            },
    {
        self.put_slice(&to_le_bytes(value, 8))
    }

    /// Writes a byte string with its length in front.
    pub fn put_bytes(&mut self, bytes: &[u8]) -> (result: Result<(), StorageError>)
        ensures
            match put_blob(Ok(old(self)@), bytes@) {
                Ok(output) => result is Ok && final(self)@ == output,
                Err(error) => result == Err::<(), StorageError>(error) && final(self)@ == old(self)@,
            },
    {
        if bytes.len() > MAX_RECORD_BODY_LEN as usize {
            return Err(StorageError::ByteSliceTooLarge);
        }
        proof {
            le_bytes_len(bytes@.len(), 8);
        }
        match self.check_append_len(bytes.len() + 8) {
            Err(error) => Err(error),
            Ok(len) => {
                let prefix = to_le_bytes(bytes.len() as u64, 8);
                self.bytes.extend_from_slice(&prefix);
                self.bytes.extend_from_slice(bytes);
                self.len = len;
                assert(self.bytes@ =~= old(self).bytes@ + (le_bytes(bytes@.len(), 8) + bytes@));
                Ok(())
            },
        }
    }

    fn put_slice(&mut self, bytes: &[u8]) -> (result: Result<(), StorageError>)
        ensures
            match put(Ok(old(self)@), bytes@) {
                Ok(output) => result is Ok && final(self)@ == output,
                Err(error) => result == Err::<(), StorageError>(error) && final(self)@ == old(self)@,
            },
    {
        match self.check_append_len(bytes.len()) {
            Err(error) => Err(error),
            Ok(len) => {
                self.len = len;
                self.bytes.extend_from_slice(bytes);
                assert(self.bytes@ =~= old(self).bytes@ + bytes@);
                Ok(())
            },
        }
    }

    /// The length after `additional` more bytes, if the limit allows it.
    fn check_append_len(&self, additional: usize) -> (result: Result<u32, StorageError>)
        ensures
            result == (if self@.len + additional > MAX_RECORD_BODY_LEN {
                Err::<u32, StorageError>(StorageError::RecordTooLarge)
            } else {
                Ok::<u32, StorageError>((self@.len + additional) as u32)
            }),
    {
        if additional > MAX_RECORD_BODY_LEN as usize {
            return Err(StorageError::RecordTooLarge);
        }
        match self.len.checked_add(additional as u32) {
            None => Err(StorageError::RecordTooLarge),
            Some(len) => {
                if MAX_RECORD_BODY_LEN < len {
                    Err(StorageError::RecordTooLarge)
                } else {
                    Ok(len)
                }
            },
        }
    }

    /// Returns the bytes written. The length count must agree with them.
    pub fn finish(self) -> (bytes: Vec<u8>)
        requires
            self.bytes@.len() == self.len,
        ensures
            bytes@ == self@.bytes,
    {
        self.bytes
    }
}

// ---------------------------------------------------------------------------------------
// Encoding
// ---------------------------------------------------------------------------------------

/// Writes the number of items of a collection, which is limited.
pub fn encode_count(
    value: u64,
    too_many: StorageError,
    encoder: &mut Encoder,
) -> (result: Result<(), StorageError>)
    ensures
        match put_count(Ok(old(encoder)@), value as nat, too_many) {
            Ok(output) => result is Ok && final(encoder)@ == output,
            Err(error) => {
                &&& result == Err::<(), StorageError>(error)
                &&& final(encoder)@ == old(encoder)@
            },
        },
{
    if value > MAX_COUNT_ITEMS as u64 {
        return Err(too_many);
    }
    encoder.put_u64(value)
}

fn encode_optional_node_id(
    node_id: Option<NodeId>,
    encoder: &mut Encoder,
) -> (result: Result<(), StorageError>)
    ensures
        wrote(result, final(encoder)@, put_optional_node_id(Ok(old(encoder)@), node_id)),
{
    match node_id {
        Some(node_id) => {
            encoder.put_u8(1)?;
            encoder.put_u64(node_id.0)
        },
        None => encoder.put_u8(0),
    }
}

fn encode_log_position(
    position: LogPosition,
    encoder: &mut Encoder,
) -> (result: Result<(), StorageError>)
    ensures
        wrote(result, final(encoder)@, put_position(Ok(old(encoder)@), position)),
{
    encoder.put_u64(position.term.0)?;
    encoder.put_u64(position.index.0)
}

fn encode_node_id_set(
    nodes: &BTreeSet<u64>,
    encoder: &mut Encoder,
) -> (result: Result<(), StorageError>)
    ensures
        wrote(result, final(encoder)@, put_node_id_set(Ok(old(encoder)@), nodes@)),
{
    let ghost expected = put_node_id_set(Ok(old(encoder)@), nodes@);
    let ids = set_members(nodes);
    proof {
        ascending_sound(nodes@);
        put_err_ids(
            put_count(Ok(old(encoder)@), nodes@.len(), StorageError::TooManyNodeIds),
            ids@,
        );
        assert(ids@.skip(0) =~= ids@);
    }
    encode_count(ids.len() as u64, StorageError::TooManyNodeIds, encoder)?;
    let mut i: usize = 0;
    while i < ids.len()
        invariant
            i <= ids@.len(),
            expected == put_node_id_set(Ok(old(encoder)@), nodes@),
            put_ids(Ok(encoder@), ids@.skip(i as int)) == expected,
        decreases ids@.len() - i,
    {
        proof {
            assert(ids@.skip(i as int).skip(1) =~= ids@.skip(i + 1));
            put_err_ids(put_u64(Ok(encoder@), ids@[i as int]), ids@.skip(i + 1));
        }
        encoder.put_u64(ids[i])?;
        i = i + 1;
    }
    Ok(())
}

fn encode_cluster_config(
    config: &ClusterConfig,
    encoder: &mut Encoder,
) -> (result: Result<(), StorageError>)
    ensures
        wrote(result, final(encoder)@, put_config(Ok(old(encoder)@), config@)),
{
    proof {
        let out1 = put_node_id_set(Ok(encoder@), config@.voters);
        let out2 = put_node_id_set(out1, config@.new_voters);
        put_err_node_id_set(out1, config@.new_voters);
        put_err_node_id_set(out2, config@.non_voters);
    }
    encode_node_id_set(&config.voters, encoder)?;
    encode_node_id_set(&config.new_voters, encoder)?;
    encode_node_id_set(&config.non_voters, encoder)
}

fn encode_log_entry(entry: &LogEntry, encoder: &mut Encoder) -> (result: Result<(), StorageError>)
    ensures
        wrote(result, final(encoder)@, put_entry(Ok(old(encoder)@), entry@)),
{
    match entry {
        LogEntry::Term(term) => {
            encoder.put_u8(0)?;
            encoder.put_u64(term.0)
        },
        LogEntry::ClusterConfig(config) => {
            proof {
                let out = put_u8(Ok(encoder@), 1);
                put_err_node_id_set(out, config@.voters);
                put_err_node_id_set(out, config@.new_voters);
                put_err_node_id_set(out, config@.non_voters);
            }
            encoder.put_u8(1)?;
            encode_cluster_config(config, encoder)
        },
        LogEntry::Command => encoder.put_u8(2),
    }
}

fn encode_log_entries(
    entries: &noraft::LogEntries,
    encoder: &mut Encoder,
) -> (result: Result<(), StorageError>)
    requires
        log_entries_view(*entries).wf(),
    ensures
        wrote(result, final(encoder)@, put_entries(Ok(old(encoder)@), log_entries_view(*entries))),
{
    let ghost view = log_entries_view(*entries);
    let ghost expected = put_entries(Ok(old(encoder)@), view);
    let prev = entries_prev(entries);
    let len: u64 = entries_len(entries);
    proof {
        put_err_entry_list(
            put_count(
                put_position(Ok(old(encoder)@), view.prev),
                view.seq.len(),
                StorageError::TooManyLogEntries,
            ),
            view.seq,
        );
        assert(view.seq.skip(0) =~= view.seq);
    }
    encode_log_position(prev, encoder)?;
    encode_count(len, StorageError::TooManyLogEntries, encoder)?;
    let mut i: u64 = 0;
    while i < len
        invariant
            i <= len,
            view == log_entries_view(*entries),
            view.wf(),
            len == view.seq.len(),
            prev == view.prev,
            expected == put_entries(Ok(old(encoder)@), view),
            put_entry_list(Ok(encoder@), view.seq.skip(i as int)) == expected,
        decreases len - i,
    {
        proof {
            assert(view.seq.skip(i as int).skip(1) =~= view.seq.skip(i + 1));
            put_err_entry_list(
                put_entry(Ok(encoder@), view.seq[i as int]),
                view.seq.skip(i + 1),
            );
        }
        if let Some(entry) = entries_get(entries, prev.index.0 + 1 + i) {
            encode_log_entry(&entry, encoder)?;
        }
        i = i + 1;
    }
    Ok(())
}

fn encode_command_payload(
    index: u64,
    payload: &CommandPayload,
    encoder: &mut Encoder,
) -> (result: Result<(), StorageError>)
    ensures
        wrote(result, final(encoder)@, put_payload(Ok(old(encoder)@), index, payload@)),
{
    encoder.put_u64(index)?;
    encoder.put_u8(payload.tag())?;
    encoder.put_bytes(payload.bytes().as_slice())
}

fn encode_command_payloads(
    payloads: &BTreeMap<u64, CommandPayload>,
    encoder: &mut Encoder,
) -> (result: Result<(), StorageError>)
    ensures
        wrote(result, final(encoder)@, put_payloads(Ok(old(encoder)@), payloads_view(payloads@))),
{
    let ghost view = payloads_view(payloads@);
    let ghost expected = put_payloads(Ok(old(encoder)@), view);
    let indexes = map_keys(payloads);
    proof {
        assert(view.dom() =~= payloads@.dom());
        ascending_sound(view.dom());
        put_err_payload_list(
            put_count(
                Ok(old(encoder)@),
                view.dom().len(),
                StorageError::TooManyCommandPayloads,
            ),
            indexes@,
            view,
        );
        assert(indexes@.skip(0) =~= indexes@);
    }
    encode_count(indexes.len() as u64, StorageError::TooManyCommandPayloads, encoder)?;
    let mut i: usize = 0;
    while i < indexes.len()
        invariant
            i <= indexes@.len(),
            view == payloads_view(payloads@),
            indexes@.to_set() == view.dom(),
            expected == put_payloads(Ok(old(encoder)@), view),
            put_payload_list(Ok(encoder@), indexes@.skip(i as int), view) == expected,
        decreases indexes@.len() - i,
    {
        let index: u64 = indexes[i];
        proof {
            assert(indexes@.to_set().contains(index));
            assert(payloads@.contains_key(index));
            assert(indexes@.skip(i as int).skip(1) =~= indexes@.skip(i + 1));
            put_err_payload_list(
                put_payload(Ok(encoder@), index, view[index]),
                indexes@.skip(i + 1),
                view,
            );
        }
        if let Some(payload) = payloads.get(&index) {
            encode_command_payload(index, payload, encoder)?;
        }
        i = i + 1;
    }
    Ok(())
}

fn encode_log_append(append: &LogAppend, encoder: &mut Encoder) -> (result: Result<(), StorageError>)
    ensures
        wrote(result, final(encoder)@, put_append(Ok(old(encoder)@), append@)),
{
    proof {
        let validated = put_validated(Ok(encoder@), append@.validation());
        put_err_append(validated, append@);
        let listed = put_entries(validated, append@.entries);
        put_err_payload_list(
            put_count(
                listed,
                append@.payloads.dom().len(),
                StorageError::TooManyCommandPayloads,
            ),
            ascending(append@.payloads.dom()),
            append@.payloads,
        );
    }
    append.validate()?;
    encode_log_entries(append.entries(), encoder)?;
    encode_command_payloads(append.command_payloads(), encoder)
}

fn encode_snapshot(snapshot: &Snapshot, encoder: &mut Encoder) -> (result: Result<(), StorageError>)
    ensures
        wrote(result, final(encoder)@, put_snapshot(Ok(old(encoder)@), snapshot@)),
{
    proof {
        let out = put_position(Ok(encoder@), snapshot.last_included);
        put_err_node_id_set(out, snapshot@.config.voters);
        put_err_node_id_set(out, snapshot@.config.new_voters);
        put_err_node_id_set(out, snapshot@.config.non_voters);
    }
    encode_log_position(snapshot.last_included, encoder)?;
    encode_cluster_config(&snapshot.config, encoder)?;
    encoder.put_bytes(snapshot.data.as_slice())
}

fn encode_snapshot_checkpoint(
    checkpoint: &SnapshotCheckpoint,
    encoder: &mut Encoder,
) -> (result: Result<(), StorageError>)
    ensures
        wrote(result, final(encoder)@, put_checkpoint(Ok(old(encoder)@), checkpoint@)),
{
    proof {
        let view = checkpoint@;
        let out0 = put_validated(Ok(encoder@), view.validation());
        let out1 = put_u64(out0, view.current_term.0);
        let out2 = put_optional_node_id(out1, view.voted_for);
        let out3 = put_snapshot(out2, view.snapshot);
        let positioned = put_position(out2, view.snapshot.last_included);
        put_err_node_id_set(positioned, view.snapshot.config.voters);
        put_err_node_id_set(positioned, view.snapshot.config.new_voters);
        put_err_node_id_set(positioned, view.snapshot.config.non_voters);
        put_err_append(out3, view.suffix);
    }
    checkpoint.validate()?;
    encoder.put_u64(checkpoint.current_term.0)?;
    encode_optional_node_id(checkpoint.voted_for, encoder)?;
    encode_snapshot(&checkpoint.snapshot, encoder)?;
    encode_log_append(&checkpoint.suffix, encoder)
}

fn encode_record(record: &Record, encoder: &mut Encoder) -> (result: Result<(), StorageError>)
    ensures
        wrote(result, final(encoder)@, put_record(Ok(old(encoder)@), record@)),
{
    match record {
        Record::CurrentTerm(term) => {
            encoder.put_u8(0)?;
            encoder.put_u64(term.0)
        },
        Record::VotedFor(voted_for) => {
            encoder.put_u8(1)?;
            encode_optional_node_id(*voted_for, encoder)
        },
        Record::Append(append) => {
            proof {
                put_err_append(put_u8(Ok(encoder@), 2), append@);
            }
            encoder.put_u8(2)?;
            encode_log_append(append, encoder)
        },
        Record::SnapshotCheckpoint(checkpoint) => {
            proof {
                put_err_checkpoint(put_u8(Ok(encoder@), 3), checkpoint@);
            }
            encoder.put_u8(3)?;
            encode_snapshot_checkpoint(checkpoint, encoder)
        },
    }
}

/// Encodes a record into the frame that is appended to a segment.
pub fn encode_record_frame(
    node_id: NodeId,
    record: &Record,
) -> (frame: Result<Vec<u8>, StorageError>)
    ensures
        match written_frame(node_id, record@) {
            Ok(bytes) => frame is Ok && frame->Ok_0@ == bytes,
            Err(error) => frame == Err::<Vec<u8>, StorageError>(error),
        },
        frame is Ok ==> SEGMENT_RECORD_HEADER_LEN <= frame->Ok_0@.len() <= SEGMENT_RECORD_HEADER_LEN
            + MAX_RECORD_BODY_LEN,
{
    let mut encoder = Encoder::new();
    proof {
        record_counted(put_u64(Ok(encoder@), node_id.0), record@);
        le_bytes_len(node_id.0 as nat, 8);
    }
    encoder.put_u64(node_id.0)?;
    encode_record(record, &mut encoder)?;
    let body = encoder.finish();
    let mut frame = to_le_bytes(body.len() as u64, 4);
    let checksum = to_le_bytes(crc32c(&body) as u64, 4);
    frame.extend_from_slice(&checksum);
    frame.extend_from_slice(&body);
    proof {
        le_bytes_len(body@.len(), 4);
        le_bytes_len(crc32c_spec(body@) as nat, 4);
        assert(frame@ =~= frame_bytes(body@));
    }
    Ok(frame)
}

// ---------------------------------------------------------------------------------------
// Decoder
// ---------------------------------------------------------------------------------------

/// Reads the body of one record from the front.
///
/// The view is the input that has not been read yet.
#[derive(Debug)]
pub struct Decoder<'a> {
    bytes: &'a [u8],
    position: usize,
}

/// The unread input behind a 64-bit integer, if there is one.
pub open spec fn behind_u64(input: Seq<u8>) -> Seq<u8> {
    match parse_u64(input) {
        Ok((_, rest)) => rest,
        Err(_) => input,
    }
}

impl<'a> View for Decoder<'a> {
    type V = Seq<u8>;

    closed spec fn view(&self) -> Seq<u8> {
        self.bytes@.skip(self.position as int)
    }
}

impl<'a> Decoder<'a> {
    #[verifier::type_invariant]
    spec fn position_is_valid(&self) -> bool {
        self.position <= self.bytes@.len()
    }

    /// Makes a decoder that reads `bytes`.
    pub fn new(bytes: &'a [u8]) -> (decoder: Self)
        ensures
            decoder@ == bytes@,
    {
        assert(bytes@.skip(0) =~= bytes@);
        Self { bytes, position: 0 }
    }

    /// Reads one byte.
    pub fn get_u8(&mut self) -> (result: Result<u8, StorageError>)
        ensures
            match parse_u8(old(self)@) {
                Ok((value, rest)) => result == Ok::<u8, StorageError>(value) && final(self)@ == rest,
                Err(error) => result == Err::<u8, StorageError>(error) && final(self)@ == old(self)@,
            },
    {
        let bytes = self.take(1)?;
        Ok(bytes[0])
    }

    /// Reads a 32-bit integer.
    pub fn get_u32(&mut self) -> (result: Result<u32, StorageError>)
        ensures
            match parse_u32(old(self)@) {
                Ok((value, rest)) => result is Ok && result->Ok_0 == value && final(self)@ == rest,
                Err(error) => result == Err::<u32, StorageError>(error) && final(self)@ == old(self)@,
            },
    {
        let bytes = self.take(4)?;
        proof {
            le_bounds();
        }
        Ok(from_le_bytes(bytes) as u32)
    }

    /// Reads a 64-bit integer.
    pub fn get_u64(&mut self) -> (result: Result<u64, StorageError>)
        ensures
            match parse_u64(old(self)@) {
                Ok((value, rest)) => result == Ok::<u64, StorageError>(value) && final(self)@ == rest,
                Err(error) => result == Err::<u64, StorageError>(error) && final(self)@ == old(self)@,
            },
    {
        let bytes = self.take(8)?;
        Ok(from_le_bytes(bytes))
    }

    /// Reads a byte string with its length in front.
    pub fn get_bytes(&mut self) -> (result: Result<&'a [u8], StorageError>)
        ensures
            match parse_blob(old(self)@) {
                Ok((blob, rest)) => result is Ok && result->Ok_0@ == blob && final(self)@ == rest,
                Err(error) => {
                    &&& result == Err::<&'a [u8], StorageError>(error)
                    &&& final(self)@ == behind_u64(old(self)@)
                },
            },
    {
        let len: u64 = self.get_u64()?;
        if len > MAX_RECORD_BODY_LEN as u64 {
            return Err(StorageError::StoredByteSliceTooLarge);
        }
        self.take(len as usize)
    }

    fn take(&mut self, len: usize) -> (result: Result<&'a [u8], StorageError>)
        ensures
            match parse_slice(old(self)@, len as nat) {
                Ok((slice, rest)) => result is Ok && result->Ok_0@ == slice && final(self)@ == rest,
                Err(error) => result == Err::<&'a [u8], StorageError>(error) && final(self)@ == old(self)@,
            },
    {
        proof {
            use_type_invariant(&*self);
        }
        if self.bytes.len() - self.position < len {
            return Err(StorageError::RecordTooShort);
        }
        let end: usize = self.position + len;
        let slice = vstd::slice::slice_subrange(self.bytes, self.position, end);
        proof {
            assert(slice@ =~= old(self)@.take(len as int));
            assert(self.bytes@.skip(end as int) =~= old(self)@.skip(len as int));
        }
        self.position = end;
        Ok(slice)
    }

    /// Checks that the whole input was read.
    pub fn finish(&self) -> (result: Result<(), StorageError>)
        ensures
            result == (if self@.len() != 0 {
                Err::<(), StorageError>(StorageError::RecordTrailingBytes)
            } else {
                Ok::<(), StorageError>(())
            }),
    {
        proof {
            use_type_invariant(self);
        }
        if self.position == self.bytes.len() {
            Ok(())
        } else {
            Err(StorageError::RecordTrailingBytes)
        }
    }
}

// ---------------------------------------------------------------------------------------
// Decoding
// ---------------------------------------------------------------------------------------

/// Reads the number of items of a collection, which is limited.
pub fn decode_count(decoder: &mut Decoder, too_many: StorageError) -> (result: Result<u32, StorageError>)
    ensures
        match parse_count(old(decoder)@, too_many) {
            Ok((count, rest)) => result is Ok && result->Ok_0 == count && final(decoder)@ == rest,
            Err(error) => {
                &&& result == Err::<u32, StorageError>(error)
                &&& final(decoder)@ == behind_u64(old(decoder)@)
            },
        },
{
    let value: u64 = decoder.get_u64()?;
    if value > MAX_COUNT_ITEMS as u64 {
        return Err(too_many);
    }
    Ok(value as u32)
}

fn decode_optional_node_id(decoder: &mut Decoder) -> (result: Result<Option<NodeId>, StorageError>)
    ensures
        match parse_optional_node_id(old(decoder)@) {
            Ok((node_id, rest)) => result == Ok::<Option<NodeId>, StorageError>(node_id)
                && final(decoder)@ == rest,
            Err(error) => result == Err::<Option<NodeId>, StorageError>(error),
        },
{
    match decoder.get_u8()? {
        0 => Ok(None),
        1 => Ok(Some(NodeId(decoder.get_u64()?))),
        _ => Err(StorageError::InvalidOptionalNodeIdTag),
    }
}

fn decode_log_position(decoder: &mut Decoder) -> (result: Result<LogPosition, StorageError>)
    ensures
        match parse_position(old(decoder)@) {
            Ok((position, rest)) => result == Ok::<LogPosition, StorageError>(position)
                && final(decoder)@ == rest,
            Err(error) => result == Err::<LogPosition, StorageError>(error),
        },
{
    let term: u64 = decoder.get_u64()?;
    let index: u64 = decoder.get_u64()?;
    Ok(LogPosition { term: Term(term), index: LogIndex(index) })
}

fn decode_node_id_set(decoder: &mut Decoder) -> (result: Result<BTreeSet<u64>, StorageError>)
    ensures
        match parse_node_id_set(old(decoder)@) {
            Ok((set, rest)) => result is Ok && result->Ok_0@ == set && final(decoder)@ == rest,
            Err(error) => result == Err::<BTreeSet<u64>, StorageError>(error),
        },
{
    let ghost input = decoder@;
    let len: u32 = decode_count(decoder, StorageError::StoredTooManyNodeIds)?;
    let mut nodes: BTreeSet<u64> = BTreeSet::new();
    let mut i: u32 = 0;
    while i < len
        invariant
            i <= len,
            input == old(decoder)@,
            parse_ids(decoder@, (len - i) as nat, nodes@) == parse_node_id_set(input),
        decreases len - i,
    {
        let id: u64 = decoder.get_u64()?;
        if !nodes.insert(id) {
            return Err(StorageError::DuplicateNodeId);
        }
        i = i + 1;
    }
    Ok(nodes)
}

fn decode_cluster_config(decoder: &mut Decoder) -> (result: Result<ClusterConfig, StorageError>)
    ensures
        match parse_config(old(decoder)@) {
            Ok((config, rest)) => result is Ok && result->Ok_0@ == config && final(decoder)@ == rest,
            Err(error) => result == Err::<ClusterConfig, StorageError>(error),
        },
{
    proof {
        reveal(parse_config);
    }
    let voters = decode_node_id_set(decoder)?;
    let new_voters = decode_node_id_set(decoder)?;
    let non_voters = decode_node_id_set(decoder)?;
    Ok(ClusterConfig { voters, new_voters, non_voters })
}

fn decode_log_entry(decoder: &mut Decoder) -> (result: Result<LogEntry, StorageError>)
    ensures
        match parse_entry(old(decoder)@) {
            Ok((entry, rest)) => result is Ok && result->Ok_0@ == entry && final(decoder)@ == rest,
            Err(error) => result == Err::<LogEntry, StorageError>(error),
        },
{
    match decoder.get_u8()? {
        0 => Ok(LogEntry::Term(Term(decoder.get_u64()?))),
        1 => Ok(LogEntry::ClusterConfig(decode_cluster_config(decoder)?)),
        2 => Ok(LogEntry::Command),
        _ => Err(StorageError::UnknownLogEntryTag),
    }
}

fn decode_log_entries(decoder: &mut Decoder) -> (result: Result<noraft::LogEntries, StorageError>)
    ensures
        match parse_entries(old(decoder)@) {
            Ok((entries, rest)) => result is Ok && log_entries_view(result->Ok_0) == entries
                && final(decoder)@ == rest,
            Err(error) => result == Err::<noraft::LogEntries, StorageError>(error),
        },
{
    proof {
        reveal(parse_entries);
    }
    let prev = decode_log_position(decoder)?;
    let len: u32 = decode_count(decoder, StorageError::StoredTooManyLogEntries)?;
    if prev.index.0.checked_add(len as u64).is_none() {
        return Err(StorageError::LogIndexOverflow);
    }
    let ghost list = decoder@;
    let mut entries = entries_new(prev);
    let mut i: u32 = 0;
    while i < len
        invariant
            i <= len,
            log_entries_view(entries).prev == prev,
            log_entries_view(entries).seq.len() == i,
            prev.index.0 + len <= u64::MAX,
            parse_entry_list(decoder@, (len - i) as nat, log_entries_view(entries).seq)
                == parse_entry_list(list, len as nat, Seq::empty()),
            match parse_entry_list(list, len as nat, Seq::empty()) {
                Ok((seq, rest)) => parse_entries(old(decoder)@) == Ok::<
                    (EntriesView, Seq<u8>),
                    StorageError,
                >((EntriesView { prev, seq }, rest)),
                Err(error) => parse_entries(old(decoder)@) == Err::<
                    (EntriesView, Seq<u8>),
                    StorageError,
                >(error),
            },
        decreases len - i,
    {
        let entry = decode_log_entry(decoder)?;
        entries_push(&mut entries, entry);
        i = i + 1;
    }
    Ok(entries)
}

fn decode_command_payload(
    decoder: &mut Decoder,
) -> (result: Result<(u64, CommandPayload), StorageError>)
    ensures
        match parse_payload(old(decoder)@) {
            Ok(((index, payload), rest)) => result is Ok && result->Ok_0.0 == index
                && result->Ok_0.1@ == payload && final(decoder)@ == rest,
            Err(error) => result == Err::<(u64, CommandPayload), StorageError>(error),
        },
{
    let index: u64 = decoder.get_u64()?;
    let tag: u8 = decoder.get_u8()?;
    let bytes = decoder.get_bytes()?;
    Ok((index, CommandPayload::new(tag, Bytes::from(bytes))))
}

fn decode_command_payloads(
    decoder: &mut Decoder,
) -> (result: Result<BTreeMap<u64, CommandPayload>, StorageError>)
    ensures
        match parse_payloads(old(decoder)@) {
            Ok((payloads, rest)) => result is Ok && payloads_view(result->Ok_0@) == payloads
                && final(decoder)@ == rest,
            Err(error) => result == Err::<BTreeMap<u64, CommandPayload>, StorageError>(error),
        },
{
    let ghost input = decoder@;
    proof {
        reveal(parse_payloads);
    }
    let len: u32 = decode_count(decoder, StorageError::StoredTooManyCommandPayloads)?;
    let mut payloads: BTreeMap<u64, CommandPayload> = BTreeMap::new();
    assert(payloads_view(payloads@) =~= Map::empty());
    let mut i: u32 = 0;
    while i < len
        invariant
            i <= len,
            input == old(decoder)@,
            parse_payload_list(decoder@, (len - i) as nat, payloads_view(payloads@))
                == parse_payloads(input),
        decreases len - i,
    {
        let ghost before = payloads@;
        let (index, payload) = decode_command_payload(decoder)?;
        let replaced = payloads.insert(index, payload);
        if replaced.is_some() {
            return Err(StorageError::DuplicateCommandPayloadIndex);
        }
        assert(payloads_view(payloads@) =~= payloads_view(before).insert(index, payload@));
        i = i + 1;
    }
    Ok(payloads)
}

fn decode_log_append(decoder: &mut Decoder) -> (result: Result<LogAppend, StorageError>)
    ensures
        match parse_append(old(decoder)@) {
            Ok((append, rest)) => result is Ok && result->Ok_0@ == append && final(decoder)@ == rest,
            Err(error) => result == Err::<LogAppend, StorageError>(error),
        },
{
    proof {
        reveal(parse_append);
    }
    let entries = decode_log_entries(decoder)?;
    let payloads = decode_command_payloads(decoder)?;
    match LogAppend::new(entries, payloads) {
        Ok(append) => Ok(append),
        Err(_) => Err(StorageError::InvalidCommandPayloadMapping),
    }
}

fn decode_snapshot(decoder: &mut Decoder) -> (result: Result<Snapshot, StorageError>)
    ensures
        match parse_snapshot(old(decoder)@) {
            Ok((snapshot, rest)) => result is Ok && result->Ok_0@ == snapshot && final(decoder)@ == rest,
            Err(error) => result == Err::<Snapshot, StorageError>(error),
        },
{
    proof {
        reveal(parse_snapshot);
    }
    let last_included = decode_log_position(decoder)?;
    let config = decode_cluster_config(decoder)?;
    let data = decoder.get_bytes()?;
    Ok(Snapshot { last_included, config, data: Bytes::from(data) })
}

fn decode_snapshot_checkpoint(
    decoder: &mut Decoder,
) -> (result: Result<SnapshotCheckpoint, StorageError>)
    ensures
        match parse_checkpoint(old(decoder)@) {
            Ok((checkpoint, rest)) => result is Ok && result->Ok_0@ == checkpoint
                && final(decoder)@ == rest,
            Err(error) => result == Err::<SnapshotCheckpoint, StorageError>(error),
        },
{
    proof {
        reveal(parse_checkpoint);
    }
    let current_term: u64 = decoder.get_u64()?;
    let voted_for = decode_optional_node_id(decoder)?;
    let snapshot = decode_snapshot(decoder)?;
    let suffix = decode_log_append(decoder)?;
    let checkpoint = SnapshotCheckpoint {
        current_term: Term(current_term),
        voted_for,
        snapshot,
        suffix,
    };
    match checkpoint.validate() {
        Ok(()) => Ok(checkpoint),
        Err(_) => Err(StorageError::InvalidSnapshotCheckpoint),
    }
}

fn decode_record(decoder: &mut Decoder) -> (result: Result<Record, StorageError>)
    ensures
        match parse_record(old(decoder)@) {
            Ok((record, rest)) => result is Ok && result->Ok_0@ == record && final(decoder)@ == rest,
            Err(error) => result == Err::<Record, StorageError>(error),
        },
{
    match decoder.get_u8()? {
        0 => Ok(Record::CurrentTerm(Term(decoder.get_u64()?))),
        1 => Ok(Record::VotedFor(decode_optional_node_id(decoder)?)),
        2 => Ok(Record::Append(decode_log_append(decoder)?)),
        3 => Ok(Record::SnapshotCheckpoint(decode_snapshot_checkpoint(decoder)?)),
        _ => Err(StorageError::UnknownRecordTag),
    }
}

/// Decodes the body of a record frame.
pub fn decode_node_record(bytes: &[u8]) -> (result: Result<NodeRecord, StorageError>)
    ensures
        match parse_body(bytes@) {
            Ok(node_record) => result is Ok && result->Ok_0@ == node_record,
            Err(error) => result == Err::<NodeRecord, StorageError>(error),
        },
{
    let mut decoder = Decoder::new(bytes);
    let node_id: u64 = decoder.get_u64()?;
    let record = decode_record(&mut decoder)?;
    decoder.finish()?;
    Ok(NodeRecord { node_id: NodeId(node_id), record })
}

/// Decodes the node that the body of a record frame belongs to.
pub fn decode_record_node_id(bytes: &[u8]) -> (result: Result<NodeId, StorageError>)
    ensures
        result == body_node_id(bytes@),
{
    let mut decoder = Decoder::new(bytes);
    Ok(NodeId(decoder.get_u64()?))
}

// ---------------------------------------------------------------------------------------
// Frames
// ---------------------------------------------------------------------------------------

/// The header of the record frame at `position`: the body length and the checksum. Nothing
/// where the segment ends before the frame does.
fn read_frame_header(
    segment: &[u8],
    position: usize,
) -> (result: Result<Option<(usize, u32)>, StorageError>)
    requires
        position <= segment.len(),
    ensures
        ({
            let input = segment@.skip(position as int);
            match result {
                Err(error) => {
                    &&& error == StorageError::SegmentRecordTooLarge
                    &&& input.len() >= 4
                    &&& le_value(input.take(4)) > MAX_RECORD_BODY_LEN
                },
                Ok(None) => {
                    ||| input.len() < 4
                    ||| le_value(input.take(4)) <= MAX_RECORD_BODY_LEN && input.len() < 8 + le_value(
                        input.take(4),
                    )
                },
                Ok(Some((body_len, checksum))) => {
                    &&& input.len() >= 8 + body_len
                    &&& body_len == le_value(input.take(4))
                    &&& body_len <= MAX_RECORD_BODY_LEN
                    &&& checksum == le_value(input.subrange(4, 8))
                },
            }
        }),
{
    let left: usize = segment.len() - position;
    let ghost input = segment@.skip(position as int);
    if left < 4 {
        return Ok(None);
    }
    proof {
        le_bounds();
    }
    let len_bytes = vstd::slice::slice_subrange(segment, position, position + 4);
    assert(len_bytes@ =~= input.take(4));
    let body_len: u32 = from_le_bytes(len_bytes) as u32;
    if MAX_RECORD_BODY_LEN < body_len {
        return Err(StorageError::SegmentRecordTooLarge);
    }
    if left < SEGMENT_RECORD_HEADER_LEN {
        return Ok(None);
    }
    let checksum_bytes = vstd::slice::slice_subrange(segment, position + 4, position + 8);
    assert(checksum_bytes@ =~= input.subrange(4, 8));
    let checksum: u32 = from_le_bytes(checksum_bytes) as u32;
    if left - SEGMENT_RECORD_HEADER_LEN < body_len as usize {
        return Ok(None);
    }
    Ok(Some((body_len as usize, checksum)))
}

/// Reads the body of the record frame at `position`. Nothing where the segment ends before
/// the frame does.
pub fn read_record_body(
    segment: &[u8],
    position: usize,
) -> (result: Result<Option<&[u8]>, StorageError>)
    requires
        position <= segment.len(),
    ensures
        match read_frame(segment@.skip(position as int)) {
            Err(error) => result == Err::<Option<&[u8]>, StorageError>(error),
            Ok(None) => result == Ok::<Option<&[u8]>, StorageError>(None),
            Ok(Some(body)) => result matches Ok(Some(slice)) && slice@ == body && position
                + SEGMENT_RECORD_HEADER_LEN + slice@.len() <= segment@.len(),
        },
{
    match read_frame_header(segment, position)? {
        None => Ok(None),
        Some((body_len, checksum)) => {
            let start: usize = position + SEGMENT_RECORD_HEADER_LEN;
            let body = vstd::slice::slice_subrange(segment, start, start + body_len);
            assert(body@ =~= segment@.skip(position as int).subrange(8, 8 + body_len));
            if crc32c(body) != checksum {
                return Err(StorageError::ChecksumMismatch);
            }
            Ok(Some(body))
        },
    }
}

/// Checks the record frame at `position` piece by piece, without decoding it, and returns
/// the position after it.
pub fn scan_record_frame(
    segment: &[u8],
    position: usize,
) -> (result: Result<Option<usize>, StorageError>)
    requires
        position <= segment.len(),
    ensures
        match read_frame(segment@.skip(position as int)) {
            Err(error) => result == Err::<Option<usize>, StorageError>(error),
            Ok(None) => result == Ok::<Option<usize>, StorageError>(None),
            Ok(Some(body)) => result matches Ok(Some(end)) && end == position
                + SEGMENT_RECORD_HEADER_LEN + body.len() && end <= segment@.len(),
        },
{
    match read_frame_header(segment, position)? {
        None => Ok(None),
        Some((body_len, checksum)) => {
            let start: usize = position + SEGMENT_RECORD_HEADER_LEN;
            let end: usize = start + body_len;
            let ghost body = segment@.skip(position as int).subrange(8, 8 + body_len);
            let mut crc = Crc32c::new();
            let mut at: usize = start;
            assert(body.take(0) =~= Seq::<u8>::empty());
            while at < end
                invariant
                    start <= at <= end,
                    start == position + SEGMENT_RECORD_HEADER_LEN,
                    end == start + body_len,
                    end <= segment@.len(),
                    body == segment@.skip(position as int).subrange(8, 8 + body_len),
                    crc@ == crc_register(0xFFFF_FFFF, body.take(at - start)),
                decreases end - at,
            {
                let chunk_len: usize = if end - at < 8192 {
                    end - at
                } else {
                    8192
                };
                let chunk = vstd::slice::slice_subrange(segment, at, at + chunk_len);
                proof {
                    crc_register_concat(0xFFFF_FFFF, body.take(at - start), chunk@);
                    assert(body.take(at - start) + chunk@ =~= body.take(at + chunk_len - start));
                }
                crc.update(chunk);
                at = at + chunk_len;
            }
            assert(body.take(end - start) =~= body);
            if crc.value() != checksum {
                return Err(StorageError::ChecksumMismatch);
            }
            Ok(Some(end))
        },
    }
}

/// The length of the frame of a record body.
pub fn frame_len_from_body(body: &[u8]) -> (len: u64)
    requires
        SEGMENT_RECORD_HEADER_LEN + body@.len() <= u64::MAX,
    ensures
        len == SEGMENT_RECORD_HEADER_LEN + body@.len(),
{
    SEGMENT_RECORD_HEADER_LEN as u64 + body.len() as u64
}

} // verus!
