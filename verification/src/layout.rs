//! Laws of the byte forms: what stands where in a record body, and what the checksum detects.

use vstd::prelude::*;

verus! {

use crate::crc32c::{
    crc32c_spec, crc_bit, crc_bits, crc_bits_eight, crc_byte, crc_register, crc_register_concat,
};
use crate::error::StorageError;
use crate::format::{
    append_bytes, body_bytes, entry_bytes, entry_list_bytes, frame_bytes, ids_bytes, le_bounds,
    le_bytes, le_bytes_len, le_round_trip, node_id_set_bytes, optional_node_id_bytes, parse_blob,
    parse_u32, parse_u64, parse_u8, payload_bytes, payload_list_bytes, put_blob, put_u32, put_u64,
    put_u8, read_frame, Output, Written,
};
use crate::ordered::{ascending, ascending_sound};
use crate::raft::{EntryView, NodeId, Term};
use crate::record::{AppendView, PayloadView, RecordView};

// ---------------------------------------------------------------------------------------
// Numbers and lists
// ---------------------------------------------------------------------------------------

/// A number without its lowest bytes.
pub open spec fn without_low_bytes(value: nat, count: nat) -> nat
    decreases count,
{
    if count == 0 {
        value
    } else {
        without_low_bytes(value / 256, (count - 1) as nat)
    }
}

/// Numbers are stored with the least significant byte first.
pub proof fn low_bytes_come_first(value: nat, n: nat, i: nat)
    requires
        i < n,
    ensures
        le_bytes(value, n).len() == n,
        le_bytes(value, n)[i as int] == without_low_bytes(value, i) % 256,
    decreases n,
{
    le_bytes_len(value, n);
    le_bytes_len(value / 256, (n - 1) as nat);
    if i > 0 {
        low_bytes_come_first(value / 256, (n - 1) as nat, (i - 1) as nat);
        assert(le_bytes(value, n)[i as int] == le_bytes(value / 256, (n - 1) as nat)[i - 1]);
    }
}

proof fn ids_layout(ids: Seq<u64>, i: int)
    requires
        0 <= i < ids.len(),
    ensures
        ids_bytes(ids).len() == 8 * ids.len(),
        ids_bytes(ids).subrange(8 * i, 8 * i + 8) == le_bytes(ids[i] as nat, 8),
    decreases ids.len(),
{
    let rest = ids.skip(1);
    let first = le_bytes(ids[0] as nat, 8);
    le_bytes_len(ids[0] as nat, 8);
    ids_len(rest);
    ids_len(ids);
    if i == 0 {
        assert(ids_bytes(ids).subrange(0, 8) =~= first);
    } else {
        ids_layout(rest, i - 1);
        assert(rest[i - 1] == ids[i]);
        assert(ids_bytes(ids).subrange(8 * i, 8 * i + 8) =~= ids_bytes(rest).subrange(
            8 * (i - 1),
            8 * (i - 1) + 8,
        ));
    }
}

proof fn ids_len(ids: Seq<u64>)
    ensures
        ids_bytes(ids).len() == 8 * ids.len(),
    decreases ids.len(),
{
    if ids.len() > 0 {
        le_bytes_len(ids[0] as nat, 8);
        ids_len(ids.skip(1));
    }
}

/// A set of node IDs is stored as their number in eight bytes and the IDs in ascending order, in
/// eight bytes each.
pub proof fn sets_are_stored_in_order(set: Set<u64>) -> (ids: Seq<u64>)
    ensures
        forall|id: u64| ids.contains(id) <==> set.contains(id),
        forall|i: int, j: int| 0 <= i < j < ids.len() ==> ids[i] < ids[j],
        node_id_set_bytes(set).len() == 8 + 8 * ids.len(),
        node_id_set_bytes(set).take(8) == le_bytes(ids.len(), 8),
        forall|i: int|
            0 <= i < ids.len() ==> node_id_set_bytes(set).subrange(8 + 8 * i, 16 + 8 * i)
                == le_bytes(#[trigger] ids[i] as nat, 8),
{
    let ids = ascending(set);
    ascending_sound(set);
    ids_len(ids);
    le_bytes_len(set.len(), 8);
    assert(node_id_set_bytes(set).take(8) =~= le_bytes(ids.len(), 8));
    assert forall|id: u64| ids.contains(id) <==> set.contains(id) by {
        assert(ids.to_set().contains(id) <==> set.contains(id));
    }
    assert forall|i: int| 0 <= i < ids.len() implies node_id_set_bytes(set).subrange(
        8 + 8 * i,
        16 + 8 * i,
    ) == le_bytes(#[trigger] ids[i] as nat, 8) by {
        ids_layout(ids, i);
        assert(node_id_set_bytes(set).subrange(8 + 8 * i, 16 + 8 * i) =~= ids_bytes(ids).subrange(
            8 * i,
            8 * i + 8,
        ));
    }
    ids
}

/// Log entries are stored one behind the other: a term as tag 0 and the term, a configuration as
/// tag 1 and its voters, new voters and other nodes, a command as tag 2.
pub proof fn entries_are_stored_in_order(entries: Seq<EntryView>, entry: EntryView)
    ensures
        entry_list_bytes(Seq::empty()) == Seq::<u8>::empty(),
        entry_list_bytes(entries.push(entry)) == entry_list_bytes(entries) + match entry {
            EntryView::Term(term) => seq![0u8] + le_bytes(term.0 as nat, 8),
            EntryView::ClusterConfig(config) => seq![1u8] + node_id_set_bytes(config.voters)
                + node_id_set_bytes(config.new_voters) + node_id_set_bytes(config.non_voters),
            EntryView::Command => seq![2u8],
        },
    decreases entries.len(),
{
    let longer = entries.push(entry);
    let tail = match entry {
        EntryView::Term(term) => seq![0u8] + le_bytes(term.0 as nat, 8),
        EntryView::ClusterConfig(config) => seq![1u8] + node_id_set_bytes(config.voters)
            + node_id_set_bytes(config.new_voters) + node_id_set_bytes(config.non_voters),
        EntryView::Command => seq![2u8],
    };
    assert(entry_bytes(entry) =~= tail);
    if entries.len() == 0 {
        assert(longer.skip(1) =~= Seq::empty());
        assert(entry_list_bytes(longer.skip(1)) =~= Seq::empty());
        assert(entry_list_bytes(longer) =~= entry_list_bytes(entries) + tail);
    } else {
        assert(longer.skip(1) =~= entries.skip(1).push(entry));
        entries_are_stored_in_order(entries.skip(1), entry);
        assert(entry_list_bytes(longer) =~= entry_list_bytes(entries) + tail);
    }
}

/// Command payloads are stored one behind the other: the log index, the tag, the length, and the
/// bytes.
pub proof fn payloads_are_stored_in_order(
    indexes: Seq<u64>,
    index: u64,
    payloads: Map<u64, PayloadView>,
)
    ensures
        payload_list_bytes(Seq::empty(), payloads) == Seq::<u8>::empty(),
        payload_list_bytes(indexes.push(index), payloads) == payload_list_bytes(indexes, payloads)
            + le_bytes(index as nat, 8) + seq![payloads[index].tag] + le_bytes(
            payloads[index].bytes.len(),
            8,
        ) + payloads[index].bytes,
    decreases indexes.len(),
{
    let longer = indexes.push(index);
    let payload = payloads[index];
    let tail = le_bytes(index as nat, 8) + seq![payload.tag] + le_bytes(payload.bytes.len(), 8)
        + payload.bytes;
    assert(payload_bytes(index, payload) =~= tail);
    if indexes.len() == 0 {
        assert(longer.skip(1) =~= Seq::empty());
        assert(payload_list_bytes(longer.skip(1), payloads) =~= Seq::empty());
    } else {
        assert(longer.skip(1) =~= indexes.skip(1).push(index));
        payloads_are_stored_in_order(indexes.skip(1), index, payloads);
    }
    assert(payload_list_bytes(longer, payloads) =~= payload_list_bytes(indexes, payloads) + tail);
    assert(payload_list_bytes(indexes, payloads) + tail =~= payload_list_bytes(indexes, payloads)
        + le_bytes(index as nat, 8) + seq![payload.tag] + le_bytes(payload.bytes.len(), 8)
        + payload.bytes);
}

/// Whether a writer has written some bytes behind those that it had, or has refused because the
/// length that it counts would exceed a gibibyte.
pub open spec fn appends(before: Output, bytes: Seq<u8>, after: Written) -> bool {
    if before.len + bytes.len() <= 1_073_741_824 {
        after matches Ok(output) && output.bytes == before.bytes + bytes && output.len == before.len
            + bytes.len()
    } else {
        after == Err::<Output, StorageError>(StorageError::RecordTooLarge)
    }
}

/// Numbers are written in one, four and eight bytes behind what is there, and read back.
pub proof fn numbers_read_back(output: Output, byte: u8, word: u32, number: u64, rest: Seq<u8>)
    ensures
        appends(output, seq![byte], put_u8(Ok(output), byte)),
        parse_u8(seq![byte] + rest) == Ok::<(u8, Seq<u8>), StorageError>((byte, rest)),
        le_bytes(word as nat, 4).len() == 4,
        appends(output, le_bytes(word as nat, 4), put_u32(Ok(output), word as nat)),
        parse_u32(le_bytes(word as nat, 4) + rest) == Ok::<(nat, Seq<u8>), StorageError>(
            (word as nat, rest),
        ),
        le_bytes(number as nat, 8).len() == 8,
        appends(output, le_bytes(number as nat, 8), put_u64(Ok(output), number)),
        parse_u64(le_bytes(number as nat, 8) + rest) == Ok::<(u64, Seq<u8>), StorageError>(
            (number, rest),
        ),
{
    le_bounds();
    le_round_trip(word as nat, 4);
    le_round_trip(number as nat, 8);
    assert((seq![byte] + rest).take(1) =~= seq![byte]);
    assert((seq![byte] + rest).skip(1) =~= rest);
    let four = le_bytes(word as nat, 4);
    assert((four + rest).take(4) =~= four);
    assert((four + rest).skip(4) =~= rest);
    let eight = le_bytes(number as nat, 8);
    assert((eight + rest).take(8) =~= eight);
    assert((eight + rest).skip(8) =~= rest);
}

/// A byte string of at most a gibibyte is written with its length in eight bytes in front, and
/// reads back; a longer one is neither written nor read.
pub proof fn byte_strings_read_back(output: Output, blob: Seq<u8>, rest: Seq<u8>)
    requires
        blob.len() <= u64::MAX,
    ensures
        blob.len() <= 1_073_741_824 ==> {
            &&& appends(output, le_bytes(blob.len(), 8) + blob, put_blob(Ok(output), blob))
            &&& parse_blob(le_bytes(blob.len(), 8) + blob + rest) == Ok::<
                (Seq<u8>, Seq<u8>),
                StorageError,
            >((blob, rest))
        },
        blob.len() > 1_073_741_824 ==> {
            &&& put_blob(Ok(output), blob) == Err::<Output, StorageError>(
                StorageError::ByteSliceTooLarge,
            )
            &&& parse_blob(le_bytes(blob.len(), 8) + blob + rest) == Err::<
                (Seq<u8>, Seq<u8>),
                StorageError,
            >(StorageError::StoredByteSliceTooLarge)
        },
{
    let len = blob.len() as u64;
    numbers_read_back(output, 0, 0, len, blob + rest);
    assert(le_bytes(blob.len(), 8) + blob + rest =~= le_bytes(len as nat, 8) + (blob + rest));
    assert((blob + rest).take(blob.len() as int) =~= blob);
    assert((blob + rest).skip(blob.len() as int) =~= rest);
}

// ---------------------------------------------------------------------------------------
// Record bodies
// ---------------------------------------------------------------------------------------

/// The byte form of an append: term and index of the anchor, the number of entries, the entries,
/// the number of payloads, and the payloads in ascending order of their indexes.
pub proof fn append_layout(append: AppendView) -> (indexes: Seq<u64>)
    ensures
        append_bytes(append) == le_bytes(append.entries.prev.term.0 as nat, 8) + le_bytes(
            append.entries.prev.index.0 as nat,
            8,
        ) + le_bytes(append.entries.seq.len(), 8) + entry_list_bytes(append.entries.seq) + le_bytes(
            indexes.len(),
            8,
        ) + payload_list_bytes(indexes, append.payloads),
        forall|index: u64| indexes.contains(index) <==> append.payloads.contains_key(index),
        forall|i: int, j: int| 0 <= i < j < indexes.len() ==> indexes[i] < indexes[j],
{
    let indexes = ascending(append.payloads.dom());
    ascending_sound(append.payloads.dom());
    assert forall|index: u64| indexes.contains(index) <==> append.payloads.contains_key(index) by {
        assert(indexes.to_set().contains(index) <==> append.payloads.dom().contains(index));
    }
    assert(append_bytes(append) =~= le_bytes(append.entries.prev.term.0 as nat, 8) + le_bytes(
        append.entries.prev.index.0 as nat,
        8,
    ) + le_bytes(append.entries.seq.len(), 8) + entry_list_bytes(append.entries.seq) + le_bytes(
        indexes.len(),
        8,
    ) + payload_list_bytes(indexes, append.payloads));
    indexes
}

/// A vote is stored as 0, or as 1 and the node ID.
pub open spec fn stored_vote(vote: Option<NodeId>) -> Seq<u8> {
    match vote {
        None => seq![0u8],
        Some(id) => seq![1u8] + le_bytes(id.0 as nat, 8),
    }
}

/// The bodies of the four kinds of records: the node ID, the tag, and the parts of the record.
pub proof fn body_layout(node: NodeId, record: RecordView)
    ensures
        match record {
            RecordView::CurrentTerm(term) => body_bytes(node, record) == le_bytes(node.0 as nat, 8)
                + seq![0u8] + le_bytes(term.0 as nat, 8),
            RecordView::VotedFor(vote) => body_bytes(node, record) == le_bytes(node.0 as nat, 8)
                + seq![1u8] + stored_vote(vote),
            RecordView::Append(append) => body_bytes(node, record) == le_bytes(node.0 as nat, 8)
                + seq![2u8] + append_bytes(append),
            RecordView::SnapshotCheckpoint(checkpoint) => {
                let snapshot = checkpoint.snapshot;
                body_bytes(node, record) == le_bytes(node.0 as nat, 8) + seq![3u8] + le_bytes(
                    checkpoint.current_term.0 as nat,
                    8,
                ) + stored_vote(checkpoint.voted_for) + le_bytes(
                    snapshot.last_included.term.0 as nat,
                    8,
                ) + le_bytes(snapshot.last_included.index.0 as nat, 8) + node_id_set_bytes(
                    snapshot.config.voters,
                ) + node_id_set_bytes(snapshot.config.new_voters) + node_id_set_bytes(
                    snapshot.config.non_voters,
                ) + le_bytes(snapshot.data.len(), 8) + snapshot.data + append_bytes(
                    checkpoint.suffix,
                )
            },
        },
{
    match record {
        RecordView::CurrentTerm(term) => {
            assert(body_bytes(node, record) =~= le_bytes(node.0 as nat, 8) + seq![0u8] + le_bytes(
                term.0 as nat,
                8,
            ));
        },
        RecordView::VotedFor(vote) => {
            assert(body_bytes(node, record) =~= le_bytes(node.0 as nat, 8) + seq![1u8]
                + stored_vote(vote));
        },
        RecordView::Append(append) => {
            assert(body_bytes(node, record) =~= le_bytes(node.0 as nat, 8) + seq![2u8]
                + append_bytes(append));
        },
        RecordView::SnapshotCheckpoint(checkpoint) => {
            let snapshot = checkpoint.snapshot;
            assert(optional_node_id_bytes(checkpoint.voted_for) =~= stored_vote(
                checkpoint.voted_for,
            ));
            assert(body_bytes(node, record) =~= le_bytes(node.0 as nat, 8) + seq![3u8] + le_bytes(
                checkpoint.current_term.0 as nat,
                8,
            ) + stored_vote(checkpoint.voted_for) + le_bytes(
                snapshot.last_included.term.0 as nat,
                8,
            ) + le_bytes(snapshot.last_included.index.0 as nat, 8) + node_id_set_bytes(
                snapshot.config.voters,
            ) + node_id_set_bytes(snapshot.config.new_voters) + node_id_set_bytes(
                snapshot.config.non_voters,
            ) + le_bytes(snapshot.data.len(), 8) + snapshot.data + append_bytes(checkpoint.suffix));
        },
    }
}

// ---------------------------------------------------------------------------------------
// The checksum
// ---------------------------------------------------------------------------------------

/// One round of the division by the Castagnoli polynomial.
pub open spec fn divided(register: u32) -> u32 {
    if register & 1 == 0 {
        register >> 1
    } else {
        (register >> 1) ^ 0x82F6_3B78
    }
}

/// The checksum of nothing is zero, and one more byte makes eight more rounds.
pub proof fn checksum_grows_by_rounds(data: Seq<u8>, byte: u8)
    ensures
        crc32c_spec(Seq::empty()) == 0,
        ({
            let register = !crc32c_spec(data) ^ (byte as u32);
            crc32c_spec(data.push(byte)) == !divided(
                divided(divided(divided(divided(divided(divided(divided(register))))))),
            )
        }),
{
    assert(!0xFFFF_FFFFu32 == 0) by (bit_vector);
    let before = crc_register(0xFFFF_FFFF, data);
    assert(!(!before) == before) by (bit_vector);
    assert(data.push(byte).drop_last() =~= data);
    crc_bits_eight(before ^ (byte as u32));
}

proof fn rounds_differ(a: u32, b: u32, n: nat)
    requires
        a != b,
    ensures
        crc_bits(a, n) != crc_bits(b, n),
    decreases n,
{
    if n > 0 {
        rounds_differ(a, b, (n - 1) as nat);
        let x = crc_bits(a, (n - 1) as nat);
        let y = crc_bits(b, (n - 1) as nat);
        assert(x != y ==> crc_bit(x) != crc_bit(y)) by (bit_vector);
    }
}

proof fn registers_differ(a: u32, b: u32, data: Seq<u8>)
    requires
        a != b,
    ensures
        crc_register(a, data) != crc_register(b, data),
    decreases data.len(),
{
    if data.len() > 0 {
        registers_differ(a, b, data.drop_last());
        let x = crc_register(a, data.drop_last());
        let y = crc_register(b, data.drop_last());
        let byte = data.last() as u32;
        assert(x != y ==> x ^ byte != y ^ byte) by (bit_vector);
        rounds_differ(x ^ byte, y ^ byte, 8);
    }
}

/// A change of one byte, wherever it is, changes the checksum.
pub proof fn changed_byte_changes_checksum(data: Seq<u8>, i: int, byte: u8)
    requires
        0 <= i < data.len(),
        byte != data[i],
    ensures
        crc32c_spec(data.update(i, byte)) != crc32c_spec(data),
{
    let changed = data.update(i, byte);
    let front = data.take(i);
    let rest = data.skip(i + 1);
    let register = crc_register(0xFFFF_FFFF, front);
    let a = register ^ (data[i] as u32);
    let b = register ^ (byte as u32);
    let old_byte = data[i];
    assert(byte != old_byte ==> register ^ (old_byte as u32) != register ^ (byte as u32)) by (bit_vector);
    rounds_differ(a, b, 8);
    assert(front.push(data[i]).drop_last() =~= front);
    assert(front.push(byte).drop_last() =~= front);
    registers_differ(crc_byte(register, data[i]), crc_byte(register, byte), rest);
    crc_register_concat(0xFFFF_FFFF, front.push(data[i]), rest);
    crc_register_concat(0xFFFF_FFFF, front.push(byte), rest);
    assert(front.push(data[i]) + rest =~= data);
    assert(front.push(byte) + rest =~= changed);
    let x = crc_register(0xFFFF_FFFF, data);
    let y = crc_register(0xFFFF_FFFF, changed);
    assert(x != y ==> !x != !y) by (bit_vector);
}

/// A frame with one byte of its body changed is found to be corrupt.
pub proof fn changed_body_is_corrupt(body: Seq<u8>, i: int, byte: u8, rest: Seq<u8>)
    requires
        0 <= i < body.len(),
        body.len() <= 1_073_741_824,
        byte != body[i],
    ensures
        read_frame(frame_bytes(body).update(8 + i, byte) + rest) == Err::<
            Option<Seq<u8>>,
            StorageError,
        >(StorageError::ChecksumMismatch),
{
    let changed = body.update(i, byte);
    let input = frame_bytes(body).update(8 + i, byte) + rest;
    changed_byte_changes_checksum(body, i, byte);
    le_bounds();
    le_round_trip(body.len(), 4);
    le_round_trip(crc32c_spec(body) as nat, 4);
    assert(input.take(4) =~= le_bytes(body.len(), 4));
    assert(input.subrange(4, 8) =~= le_bytes(crc32c_spec(body) as nat, 4));
    assert(input.subrange(8, 8 + body.len() as int) =~= changed);
}

} // verus!
