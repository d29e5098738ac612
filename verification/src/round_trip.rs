//! Proofs about the record format: what the writer accepts, and that the reader gives back
//! what the writer wrote.

use vstd::prelude::*;

verus! {

use crate::error::{ErrorKind, StorageError};
use crate::format::{
    MAX_COUNT_ITEMS, MAX_RECORD_BODY_LEN, le_bytes, le_bounds, le_round_trip, le_bytes_len, Output,
    Written, put, put_u8, put_u64, put_validated, put_count, put_blob, put_optional_node_id,
    put_position, put_ids, put_node_id_set, put_config, put_entry, put_entry_list, put_entries,
    put_payload, put_payload_list, put_payloads, put_append, put_snapshot, put_checkpoint,
    put_record, written_body, blob_bytes, optional_node_id_bytes, position_bytes, ids_bytes,
    node_id_set_bytes, config_bytes, entry_bytes, entry_list_bytes, entries_bytes, payload_bytes,
    payload_list_bytes, payloads_bytes, append_bytes, snapshot_bytes, checkpoint_bytes,
    record_bytes, body_bytes, config_within_limits, entry_within_limits, append_within_limits,
    checkpoint_within_limits, record_within_limits, storable, parse_slice, parse_u8,
    parse_u64, parse_count, parse_blob, parse_optional_node_id, parse_position, parse_ids, parse_node_id_set,
    parse_config, parse_entry, parse_entry_list, parse_entries, parse_payload, parse_payload_list,
    parse_payloads, parse_append, parse_snapshot, parse_checkpoint, parse_record, body_node_id,
    parse_body,
};
use crate::ordered::{ascending, ascending_sound};
use crate::raft::{ConfigView, EntriesView, EntryView, LogPosition, NodeId, Term};
use crate::record::{
    AppendView, CheckpointView, NodeRecordView, PayloadView, RecordView, SnapshotView,
};

/// Writing two pieces one after the other is writing their concatenation.
pub proof fn put_put(out: Written, left: Seq<u8>, right: Seq<u8>)
    ensures
        put(put(out, left), right) == put(out, left + right),
{
    if let Ok(output) = out {
        assert(output.bytes + (left + right) =~= (output.bytes + left) + right);
    }
}

/// Writing nothing changes nothing, for a writer within its limit.
proof fn put_nothing(out: Written)
    requires
        out matches Ok(output) ==> output.len <= MAX_RECORD_BODY_LEN,
    ensures
        put(out, Seq::empty()) == out,
{
    if let Ok(output) = out {
        assert(output.bytes + Seq::<u8>::empty() =~= output.bytes);
    }
}

/// A writer that has not gone over its limit.
spec fn in_limit(out: Written) -> bool {
    out matches Ok(output) ==> output.len <= MAX_RECORD_BODY_LEN
}

proof fn blob_written(out: Written, blob: Seq<u8>)
    ensures
        blob.len() <= MAX_RECORD_BODY_LEN ==> put_blob(out, blob) == put(out, blob_bytes(blob)),
        blob.len() > MAX_RECORD_BODY_LEN ==> put_blob(out, blob) is Err,
{
}

proof fn optional_node_id_written(out: Written, node_id: Option<NodeId>)
    ensures
        put_optional_node_id(out, node_id) == put(out, optional_node_id_bytes(node_id)),
{
    if let Some(id) = node_id {
        put_put(out, seq![1u8], le_bytes(id.0 as nat, 8));
    }
}

proof fn position_written(out: Written, position: LogPosition)
    ensures
        put_position(out, position) == put(out, position_bytes(position)),
{
    put_put(out, le_bytes(position.term.0 as nat, 8), le_bytes(position.index.0 as nat, 8));
}

proof fn ids_written(out: Written, ids: Seq<u64>)
    requires
        in_limit(out),
    ensures
        put_ids(out, ids) == put(out, ids_bytes(ids)),
    decreases ids.len(),
{
    if ids.len() == 0 {
        put_nothing(out);
    } else {
        let first = le_bytes(ids[0] as nat, 8);
        ids_written(put(out, first), ids.skip(1));
        put_put(out, first, ids_bytes(ids.skip(1)));
    }
}

proof fn node_id_set_written(out: Written, set: Set<u64>)
    requires
        in_limit(out),
    ensures
        set.len() <= MAX_COUNT_ITEMS ==> put_node_id_set(out, set) == put(
            out,
            node_id_set_bytes(set),
        ),
        set.len() > MAX_COUNT_ITEMS ==> put_node_id_set(out, set) is Err,
{
    let counted = put_count(out, set.len(), StorageError::TooManyNodeIds);
    ids_written(counted, ascending(set));
    put_put(out, le_bytes(set.len(), 8), ids_bytes(ascending(set)));
}

proof fn config_written(out: Written, config: ConfigView)
    requires
        in_limit(out),
    ensures
        config_within_limits(config) ==> put_config(out, config) == put(out, config_bytes(config)),
        !config_within_limits(config) ==> put_config(out, config) is Err,
{
    let a = node_id_set_bytes(config.voters);
    let b = node_id_set_bytes(config.new_voters);
    let c = node_id_set_bytes(config.non_voters);
    let out1 = put_node_id_set(out, config.voters);
    let out2 = put_node_id_set(out1, config.new_voters);
    node_id_set_written(out, config.voters);
    node_id_set_written(out1, config.new_voters);
    node_id_set_written(out2, config.non_voters);
    put_put(out, a, b);
    put_put(out, a + b, c);
    put_err_node_id_set(out1, config.new_voters);
    put_err_node_id_set(out2, config.non_voters);
}

pub proof fn put_err_ids(out: Written, ids: Seq<u64>)
    ensures
        out is Err ==> put_ids(out, ids) == out,
    decreases ids.len(),
{
    if ids.len() > 0 {
        put_err_ids(put_u64(out, ids[0]), ids.skip(1));
    }
}

pub proof fn put_err_node_id_set(out: Written, set: Set<u64>)
    ensures
        out is Err ==> put_node_id_set(out, set) == out,
{
    put_err_ids(put_count(out, set.len(), StorageError::TooManyNodeIds), ascending(set));
}

proof fn entry_written(out: Written, entry: EntryView)
    requires
        in_limit(out),
    ensures
        entry_within_limits(entry) ==> put_entry(out, entry) == put(out, entry_bytes(entry)),
        !entry_within_limits(entry) ==> put_entry(out, entry) is Err,
{
    match entry {
        EntryView::Term(term) => {
            put_put(out, seq![0u8], le_bytes(term.0 as nat, 8));
        },
        EntryView::ClusterConfig(config) => {
            config_written(put_u8(out, 1), config);
            put_put(out, seq![1u8], config_bytes(config));
        },
        EntryView::Command => {},
    }
}

/// Every entry is within the limits.
spec fn entries_within_limits(entries: Seq<EntryView>) -> bool {
    forall|i: int| 0 <= i < entries.len() ==> entry_within_limits(#[trigger] entries[i])
}

pub proof fn put_err_entry_list(out: Written, entries: Seq<EntryView>)
    ensures
        out is Err ==> put_entry_list(out, entries) == out,
    decreases entries.len(),
{
    if entries.len() > 0 {
        if out is Err {
            if let EntryView::ClusterConfig(config) = entries[0] {
                put_err_node_id_set(out, config.voters);
                put_err_node_id_set(out, config.new_voters);
                put_err_node_id_set(out, config.non_voters);
            }
        }
        put_err_entry_list(put_entry(out, entries[0]), entries.skip(1));
    }
}

proof fn entry_list_written(out: Written, entries: Seq<EntryView>)
    requires
        in_limit(out),
    ensures
        entries_within_limits(entries) ==> put_entry_list(out, entries) == put(
            out,
            entry_list_bytes(entries),
        ),
        !entries_within_limits(entries) ==> put_entry_list(out, entries) is Err,
    decreases entries.len(),
{
    if entries.len() == 0 {
        put_nothing(out);
    } else {
        let next = put_entry(out, entries[0]);
        let rest = entries.skip(1);
        entry_written(out, entries[0]);
        assert(entries_within_limits(entries) <==> entry_within_limits(entries[0])
            && entries_within_limits(rest)) by {
            assert(forall|i: int| 0 <= i < rest.len() ==> rest[i] == entries[i + 1]);
            if entry_within_limits(entries[0]) && entries_within_limits(rest) {
                assert forall|i: int| 0 <= i < entries.len() implies entry_within_limits(
                    #[trigger] entries[i],
                ) by {
                    if i > 0 {
                        assert(entry_within_limits(rest[i - 1]));
                    }
                }
            }
            if entries_within_limits(entries) {
                assert forall|i: int| 0 <= i < rest.len() implies entry_within_limits(
                    #[trigger] rest[i],
                ) by {
                    assert(entry_within_limits(entries[i + 1]));
                }
            }
        }
        put_err_entry_list(next, rest);
        if next is Ok || entry_within_limits(entries[0]) {
            entry_list_written(next, rest);
        }
        put_put(out, entry_bytes(entries[0]), entry_list_bytes(rest));
    }
}

proof fn entries_written(out: Written, entries: EntriesView)
    requires
        in_limit(out),
    ensures
        entries.seq.len() <= MAX_COUNT_ITEMS && entries_within_limits(entries.seq) ==> put_entries(
            out,
            entries,
        ) == put(out, entries_bytes(entries)),
        !(entries.seq.len() <= MAX_COUNT_ITEMS && entries_within_limits(entries.seq))
            ==> put_entries(out, entries) is Err,
{
    let positioned = put_position(out, entries.prev);
    let counted = put_count(positioned, entries.seq.len(), StorageError::TooManyLogEntries);
    position_written(out, entries.prev);
    entry_list_written(counted, entries.seq);
    put_err_entry_list(counted, entries.seq);
    put_put(out, position_bytes(entries.prev), le_bytes(entries.seq.len(), 8));
    put_put(
        out,
        position_bytes(entries.prev) + le_bytes(entries.seq.len(), 8),
        entry_list_bytes(entries.seq),
    );
}

/// The payloads at `indexes` are within the limits.
spec fn payloads_within_limits(indexes: Seq<u64>, payloads: Map<u64, PayloadView>) -> bool {
    forall|i: int|
        0 <= i < indexes.len() ==> payloads[#[trigger] indexes[i]].bytes.len() <= MAX_RECORD_BODY_LEN
}

pub proof fn put_err_payload_list(out: Written, indexes: Seq<u64>, payloads: Map<u64, PayloadView>)
    ensures
        out is Err ==> put_payload_list(out, indexes, payloads) == out,
    decreases indexes.len(),
{
    if indexes.len() > 0 {
        put_err_payload_list(
            put_payload(out, indexes[0], payloads[indexes[0]]),
            indexes.skip(1),
            payloads,
        );
    }
}

proof fn payload_list_written(out: Written, indexes: Seq<u64>, payloads: Map<u64, PayloadView>)
    requires
        in_limit(out),
    ensures
        payloads_within_limits(indexes, payloads) ==> put_payload_list(out, indexes, payloads)
            == put(out, payload_list_bytes(indexes, payloads)),
        !payloads_within_limits(indexes, payloads) ==> put_payload_list(out, indexes, payloads) is Err,
    decreases indexes.len(),
{
    if indexes.len() == 0 {
        put_nothing(out);
    } else {
        let index = indexes[0];
        let payload = payloads[index];
        let rest = indexes.skip(1);
        let a = le_bytes(index as nat, 8);
        let b = seq![payload.tag];
        let c = blob_bytes(payload.bytes);
        let next = put_payload(out, index, payload);
        put_put(out, a, b);
        blob_written(put(out, a + b), payload.bytes);
        put_put(out, a + b, c);
        put_put(out, payload_bytes(index, payload), payload_list_bytes(rest, payloads));
        payload_list_written(next, rest, payloads);
        put_err_payload_list(next, rest, payloads);
        assert(payloads_within_limits(indexes, payloads) <==> payload.bytes.len()
            <= MAX_RECORD_BODY_LEN && payloads_within_limits(rest, payloads)) by {
            assert(forall|i: int| 0 <= i < rest.len() ==> rest[i] == indexes[i + 1]);
            if payload.bytes.len() <= MAX_RECORD_BODY_LEN && payloads_within_limits(rest, payloads) {
                assert forall|i: int| 0 <= i < indexes.len() implies payloads[#[trigger] indexes[i]].bytes.len()
                    <= MAX_RECORD_BODY_LEN by {
                    if i > 0 {
                        assert(payloads[rest[i - 1]].bytes.len() <= MAX_RECORD_BODY_LEN);
                    }
                }
            }
            if payloads_within_limits(indexes, payloads) {
                assert(payloads[indexes[0]].bytes.len() <= MAX_RECORD_BODY_LEN);
                assert forall|i: int| 0 <= i < rest.len() implies payloads[#[trigger] rest[i]].bytes.len()
                    <= MAX_RECORD_BODY_LEN by {
                    assert(payloads[indexes[i + 1]].bytes.len() <= MAX_RECORD_BODY_LEN);
                }
            }
        }
    }
}

proof fn payloads_written(out: Written, payloads: Map<u64, PayloadView>)
    requires
        in_limit(out),
    ensures
        payloads.dom().len() <= MAX_COUNT_ITEMS && payloads_within_limits(
            ascending(payloads.dom()),
            payloads,
        ) ==> put_payloads(out, payloads) == put(out, payloads_bytes(payloads)),
        !(payloads.dom().len() <= MAX_COUNT_ITEMS && payloads_within_limits(
            ascending(payloads.dom()),
            payloads,
        )) ==> put_payloads(out, payloads) is Err,
{
    let indexes = ascending(payloads.dom());
    let counted = put_count(out, payloads.dom().len(), StorageError::TooManyCommandPayloads);
    payload_list_written(counted, indexes, payloads);
    put_err_payload_list(counted, indexes, payloads);
    put_put(out, le_bytes(payloads.dom().len(), 8), payload_list_bytes(indexes, payloads));
}

proof fn payload_limits_by_index(payloads: Map<u64, PayloadView>)
    ensures
        payloads_within_limits(ascending(payloads.dom()), payloads) <==> forall|index: u64|
            #[trigger] payloads.contains_key(index) ==> payloads[index].bytes.len()
                <= MAX_RECORD_BODY_LEN,
{
    let indexes = ascending(payloads.dom());
    ascending_sound(payloads.dom());
    if payloads_within_limits(indexes, payloads) {
        assert forall|index: u64| #[trigger] payloads.contains_key(index) implies payloads[index].bytes.len()
            <= MAX_RECORD_BODY_LEN by {
            assert(indexes.to_set().contains(index));
            let i = choose|i: int| 0 <= i < indexes.len() && indexes[i] == index;
            assert(payloads[indexes[i]].bytes.len() <= MAX_RECORD_BODY_LEN);
        }
    } else {
        let i = choose|i: int|
            0 <= i < indexes.len() && payloads[#[trigger] indexes[i]].bytes.len() > MAX_RECORD_BODY_LEN;
        assert(indexes.to_set().contains(indexes[i]));
        assert(payloads.contains_key(indexes[i]));
    }
}

proof fn append_written(out: Written, append: AppendView)
    requires
        in_limit(out),
        append.entries.wf(),
    ensures
        append_within_limits(append) ==> put_append(out, append) == put(out, append_bytes(append)),
        !append_within_limits(append) ==> put_append(out, append) is Err,
{
    let validated = put_validated(out, append.validation());
    let listed = put_entries(validated, append.entries);
    entries_written(validated, append.entries);
    payloads_written(listed, append.payloads);
    payload_limits_by_index(append.payloads);
    put_put(out, entries_bytes(append.entries), payloads_bytes(append.payloads));
    put_err_entry_list(
        put_count(
            put_position(validated, append.entries.prev),
            append.entries.seq.len(),
            StorageError::TooManyLogEntries,
        ),
        append.entries.seq,
    );
    put_err_payload_list(
        put_count(listed, append.payloads.dom().len(), StorageError::TooManyCommandPayloads),
        ascending(append.payloads.dom()),
        append.payloads,
    );
    assert(entries_within_limits(append.entries.seq) <==> forall|i: int|
        0 <= i < append.entries.seq.len() ==> entry_within_limits(#[trigger] append.entries.seq[i]));
}

proof fn snapshot_written(out: Written, snapshot: SnapshotView)
    requires
        in_limit(out),
    ensures
        config_within_limits(snapshot.config) && snapshot.data.len() <= MAX_RECORD_BODY_LEN
            ==> put_snapshot(out, snapshot) == put(out, snapshot_bytes(snapshot)),
        !(config_within_limits(snapshot.config) && snapshot.data.len() <= MAX_RECORD_BODY_LEN)
            ==> put_snapshot(out, snapshot) is Err,
        out is Err ==> put_snapshot(out, snapshot) == out,
{
    let a = position_bytes(snapshot.last_included);
    let b = config_bytes(snapshot.config);
    let c = blob_bytes(snapshot.data);
    let positioned = put_position(out, snapshot.last_included);
    let configured = put_config(positioned, snapshot.config);
    position_written(out, snapshot.last_included);
    config_written(positioned, snapshot.config);
    blob_written(configured, snapshot.data);
    put_put(out, a, b);
    put_put(out, a + b, c);
    put_err_node_id_set(positioned, snapshot.config.voters);
    put_err_node_id_set(positioned, snapshot.config.new_voters);
    put_err_node_id_set(positioned, snapshot.config.non_voters);
}

pub proof fn put_err_append(out: Written, append: AppendView)
    ensures
        out is Err ==> put_append(out, append) == out,
{
    let validated = put_validated(out, append.validation());
    let listed = put_entries(validated, append.entries);
    put_err_entry_list(
        put_count(
            put_position(validated, append.entries.prev),
            append.entries.seq.len(),
            StorageError::TooManyLogEntries,
        ),
        append.entries.seq,
    );
    put_err_payload_list(
        put_count(listed, append.payloads.dom().len(), StorageError::TooManyCommandPayloads),
        ascending(append.payloads.dom()),
        append.payloads,
    );
}

pub proof fn put_err_checkpoint(out: Written, checkpoint: CheckpointView)
    ensures
        out is Err ==> put_checkpoint(out, checkpoint) == out,
{
    if out is Err {
        put_err_node_id_set(out, checkpoint.snapshot.config.voters);
        put_err_node_id_set(out, checkpoint.snapshot.config.new_voters);
        put_err_node_id_set(out, checkpoint.snapshot.config.non_voters);
        put_err_append(out, checkpoint.suffix);
    }
}

proof fn checkpoint_written(out: Written, checkpoint: CheckpointView)
    requires
        in_limit(out),
        checkpoint.suffix.entries.wf(),
    ensures
        checkpoint_within_limits(checkpoint) ==> put_checkpoint(out, checkpoint) == put(
            out,
            checkpoint_bytes(checkpoint),
        ),
        !checkpoint_within_limits(checkpoint) ==> put_checkpoint(out, checkpoint) is Err,
{
    let validated = put_validated(out, checkpoint.validation());
    let a = le_bytes(checkpoint.current_term.0 as nat, 8);
    let b = optional_node_id_bytes(checkpoint.voted_for);
    let c = snapshot_bytes(checkpoint.snapshot);
    let d = append_bytes(checkpoint.suffix);
    let out1 = put_u64(validated, checkpoint.current_term.0);
    let out2 = put_optional_node_id(out1, checkpoint.voted_for);
    let out3 = put_snapshot(out2, checkpoint.snapshot);
    optional_node_id_written(out1, checkpoint.voted_for);
    snapshot_written(out2, checkpoint.snapshot);
    append_written(out3, checkpoint.suffix);
    put_err_append(out3, checkpoint.suffix);
    put_put(out, a, b);
    put_put(out, a + b, c);
    put_put(out, a + b + c, d);
}

/// The length that a writer counts is that of its bytes, and within the limit.
pub open spec fn counted_right(out: Written) -> bool {
    out matches Ok(output) ==> output.bytes.len() == output.len && output.len
        <= MAX_RECORD_BODY_LEN
}

proof fn ids_counted(out: Written, ids: Seq<u64>)
    requires
        counted_right(out),
    ensures
        counted_right(put_ids(out, ids)),
    decreases ids.len(),
{
    if ids.len() > 0 {
        ids_counted(put_u64(out, ids[0]), ids.skip(1));
    }
}

proof fn config_counted(out: Written, config: ConfigView)
    requires
        counted_right(out),
    ensures
        counted_right(put_config(out, config)),
{
    let out1 = put_node_id_set(out, config.voters);
    let out2 = put_node_id_set(out1, config.new_voters);
    let too_many = StorageError::TooManyNodeIds;
    ids_counted(put_count(out, config.voters.len(), too_many), ascending(config.voters));
    ids_counted(put_count(out1, config.new_voters.len(), too_many), ascending(config.new_voters));
    ids_counted(put_count(out2, config.non_voters.len(), too_many), ascending(config.non_voters));
}

proof fn entry_list_counted(out: Written, entries: Seq<EntryView>)
    requires
        counted_right(out),
    ensures
        counted_right(put_entry_list(out, entries)),
    decreases entries.len(),
{
    if entries.len() > 0 {
        if let EntryView::ClusterConfig(config) = entries[0] {
            config_counted(put_u8(out, 1), config);
        }
        entry_list_counted(put_entry(out, entries[0]), entries.skip(1));
    }
}

proof fn payload_list_counted(out: Written, indexes: Seq<u64>, payloads: Map<u64, PayloadView>)
    requires
        counted_right(out),
    ensures
        counted_right(put_payload_list(out, indexes, payloads)),
    decreases indexes.len(),
{
    if indexes.len() > 0 {
        payload_list_counted(
            put_payload(out, indexes[0], payloads[indexes[0]]),
            indexes.skip(1),
            payloads,
        );
    }
}

proof fn append_counted(out: Written, append: AppendView)
    requires
        counted_right(out),
    ensures
        counted_right(put_append(out, append)),
{
    let entries = append.entries;
    let positioned = put_position(put_validated(out, append.validation()), entries.prev);
    entry_list_counted(
        put_count(positioned, entries.seq.len(), StorageError::TooManyLogEntries),
        entries.seq,
    );
    let listed = put_entries(put_validated(out, append.validation()), entries);
    payload_list_counted(
        put_count(listed, append.payloads.dom().len(), StorageError::TooManyCommandPayloads),
        ascending(append.payloads.dom()),
        append.payloads,
    );
}

/// Writing a record keeps the length count right.
pub proof fn record_counted(out: Written, record: RecordView)
    requires
        counted_right(out),
    ensures
        counted_right(put_record(out, record)),
{
    match record {
        RecordView::Append(append) => {
            append_counted(put_u8(out, 2), append);
        },
        RecordView::SnapshotCheckpoint(checkpoint) => {
            let out0 = put_validated(put_u8(out, 3), checkpoint.validation());
            let out1 = put_u64(out0, checkpoint.current_term.0);
            let out2 = put_optional_node_id(out1, checkpoint.voted_for);
            config_counted(
                put_position(out2, checkpoint.snapshot.last_included),
                checkpoint.snapshot.config,
            );
            append_counted(put_snapshot(out2, checkpoint.snapshot), checkpoint.suffix);
        },
        _ => {},
    }
}

/// A record body can be written exactly when its parts are valid and within the limits and
/// its byte form is not too long; then the writer produces that byte form. Where only the
/// length is at fault, the error says so.
pub proof fn written_body_exact(node_id: NodeId, record: RecordView)
    requires
        record.wf(),
    ensures
        storable(node_id, record) <==> written_body(node_id, record) is Ok,
        storable(node_id, record) ==> written_body(node_id, record) == Ok::<Seq<u8>, StorageError>(
            body_bytes(node_id, record),
        ),
        record_within_limits(record) && !storable(node_id, record) ==> written_body(node_id, record)
            == Err::<Seq<u8>, StorageError>(StorageError::RecordTooLarge),
{
    let start: Written = Ok(Output { bytes: Seq::empty(), len: 0 });
    let id = le_bytes(node_id.0 as nat, 8);
    let out = put_u64(start, node_id.0);
    le_bytes_len(node_id.0 as nat, 8);
    match record {
        RecordView::CurrentTerm(term) => {
            put_put(out, seq![0u8], le_bytes(term.0 as nat, 8));
        },
        RecordView::VotedFor(voted_for) => {
            optional_node_id_written(put_u8(out, 1), voted_for);
            put_put(out, seq![1u8], optional_node_id_bytes(voted_for));
        },
        RecordView::Append(append) => {
            append_written(put_u8(out, 2), append);
            put_put(out, seq![2u8], append_bytes(append));
        },
        RecordView::SnapshotCheckpoint(checkpoint) => {
            checkpoint_written(put_u8(out, 3), checkpoint);
            put_put(out, seq![3u8], checkpoint_bytes(checkpoint));
        },
    }
    if record_within_limits(record) {
        put_put(start, id, record_bytes(record));
        assert(Seq::<u8>::empty() + body_bytes(node_id, record) =~= body_bytes(node_id, record));
    }
}

/// A count can be written exactly when it is within the limit, and then reads back; a stored
/// count beyond the limit is rejected.
pub proof fn count_round_trip(
    count: u64,
    too_many: StorageError,
    stored_too_many: StorageError,
    rest: Seq<u8>,
)
    ensures
        ({
            let empty = Output { bytes: Seq::empty(), len: 0 };
            let stored = le_bytes(count as nat, 8);
            if count <= MAX_COUNT_ITEMS {
                &&& put_count(Ok(empty), count as nat, too_many) == Ok::<Output, StorageError>(
                    Output { bytes: stored, len: 8 },
                )
                &&& parse_count(stored + rest, stored_too_many) == Ok::<
                    (nat, Seq<u8>),
                    StorageError,
                >((count as nat, rest))
            } else {
                &&& put_count(Ok(empty), count as nat, too_many) == Err::<Output, StorageError>(
                    too_many,
                )
                &&& parse_count(stored + rest, stored_too_many) == Err::<
                    (nat, Seq<u8>),
                    StorageError,
                >(stored_too_many)
            }
        }),
        StorageError::TooManyNodeIds.spec_kind() == ErrorKind::InvalidInput,
        StorageError::TooManyLogEntries.spec_kind() == ErrorKind::InvalidInput,
        StorageError::TooManyCommandPayloads.spec_kind() == ErrorKind::InvalidInput,
        StorageError::StoredTooManyNodeIds.spec_kind() == ErrorKind::InvalidData,
        StorageError::StoredTooManyLogEntries.spec_kind() == ErrorKind::InvalidData,
        StorageError::StoredTooManyCommandPayloads.spec_kind() == ErrorKind::InvalidData,
{
    let stored = le_bytes(count as nat, 8);
    le_bytes_len(count as nat, 8);
    assert(Seq::<u8>::empty() + stored =~= stored);
    u64_read(count, rest);
}

proof fn slice_read(bytes: Seq<u8>, rest: Seq<u8>)
    ensures
        parse_slice(bytes + rest, bytes.len()) == Ok::<(Seq<u8>, Seq<u8>), StorageError>((bytes, rest)),
{
    assert((bytes + rest).take(bytes.len() as int) =~= bytes);
    assert((bytes + rest).skip(bytes.len() as int) =~= rest);
}

proof fn u8_read(value: u8, rest: Seq<u8>)
    ensures
        parse_u8(seq![value] + rest) == Ok::<(u8, Seq<u8>), StorageError>((value, rest)),
{
    slice_read(seq![value], rest);
}

proof fn u64_read(value: u64, rest: Seq<u8>)
    ensures
        parse_u64(le_bytes(value as nat, 8) + rest) == Ok::<(u64, Seq<u8>), StorageError>(
            (value, rest),
        ),
{
    le_bounds();
    le_round_trip(value as nat, 8);
    slice_read(le_bytes(value as nat, 8), rest);
}

proof fn blob_read(blob: Seq<u8>, rest: Seq<u8>)
    requires
        blob.len() <= MAX_RECORD_BODY_LEN,
    ensures
        parse_blob(blob_bytes(blob) + rest) == Ok::<(Seq<u8>, Seq<u8>), StorageError>((blob, rest)),
{
    assert(blob_bytes(blob) + rest =~= le_bytes(blob.len(), 8) + (blob + rest));
    u64_read(blob.len() as u64, blob + rest);
    slice_read(blob, rest);
}

proof fn optional_node_id_read(node_id: Option<NodeId>, rest: Seq<u8>)
    ensures
        parse_optional_node_id(optional_node_id_bytes(node_id) + rest) == Ok::<
            (Option<NodeId>, Seq<u8>),
            StorageError,
        >((node_id, rest)),
{
    match node_id {
        None => {
            u8_read(0, rest);
        },
        Some(id) => {
            let tail = le_bytes(id.0 as nat, 8) + rest;
            assert(optional_node_id_bytes(node_id) + rest =~= seq![1u8] + tail);
            u8_read(1, tail);
            u64_read(id.0, rest);
        },
    }
}

proof fn position_read(position: LogPosition, rest: Seq<u8>)
    ensures
        parse_position(position_bytes(position) + rest) == Ok::<(LogPosition, Seq<u8>), StorageError>(
            (position, rest),
        ),
{
    let tail = le_bytes(position.index.0 as nat, 8) + rest;
    assert(position_bytes(position) + rest =~= le_bytes(position.term.0 as nat, 8) + tail);
    u64_read(position.term.0, tail);
    u64_read(position.index.0, rest);
}

proof fn ids_read(ids: Seq<u64>, set: Set<u64>, rest: Seq<u8>)
    requires
        ids.no_duplicates(),
        forall|i: int| 0 <= i < ids.len() ==> !set.contains(#[trigger] ids[i]),
    ensures
        parse_ids(ids_bytes(ids) + rest, ids.len(), set) == Ok::<(Set<u64>, Seq<u8>), StorageError>(
            (set.union(ids.to_set()), rest),
        ),
    decreases ids.len(),
{
    if ids.len() == 0 {
        assert(ids_bytes(ids) + rest =~= rest);
        assert(set.union(ids.to_set()) =~= set);
    } else {
        let tail = ids.skip(1);
        assert(ids_bytes(ids) + rest =~= le_bytes(ids[0] as nat, 8) + (ids_bytes(tail) + rest));
        u64_read(ids[0], ids_bytes(tail) + rest);
        assert(forall|i: int| 0 <= i < tail.len() ==> tail[i] == ids[i + 1]);
        ids_read(tail, set.insert(ids[0]), rest);
        assert(set.insert(ids[0]).union(tail.to_set()) =~= set.union(ids.to_set())) by {
            assert forall|x: u64| ids.contains(x) <==> x == ids[0] || tail.contains(x) by {
                if ids.contains(x) && x != ids[0] {
                    let i = choose|i: int| 0 <= i < ids.len() && ids[i] == x;
                    assert(tail[i - 1] == x);
                }
                if tail.contains(x) {
                    let i = choose|i: int| 0 <= i < tail.len() && tail[i] == x;
                    assert(ids[i + 1] == x);
                }
            }
        }
    }
}

proof fn node_id_set_read(set: Set<u64>, rest: Seq<u8>)
    requires
        set.len() <= MAX_COUNT_ITEMS,
    ensures
        parse_node_id_set(node_id_set_bytes(set) + rest) == Ok::<(Set<u64>, Seq<u8>), StorageError>(
            (set, rest),
        ),
{
    let ids = ascending(set);
    ascending_sound(set);
    assert(node_id_set_bytes(set) + rest =~= le_bytes(set.len(), 8) + (ids_bytes(ids) + rest));
    u64_read(set.len() as u64, ids_bytes(ids) + rest);
    ids_read(ids, Set::empty(), rest);
    assert(Set::<u64>::empty().union(set) =~= set);
}

proof fn config_read(config: ConfigView, rest: Seq<u8>)
    requires
        config_within_limits(config),
    ensures
        parse_config(config_bytes(config) + rest) == Ok::<(ConfigView, Seq<u8>), StorageError>(
            (config, rest),
        ),
{
    reveal(parse_config);
    let a = node_id_set_bytes(config.voters);
    let b = node_id_set_bytes(config.new_voters);
    let c = node_id_set_bytes(config.non_voters);
    assert(config_bytes(config) + rest =~= a + (b + (c + rest)));
    node_id_set_read(config.voters, b + (c + rest));
    node_id_set_read(config.new_voters, c + rest);
    node_id_set_read(config.non_voters, rest);
}

proof fn entry_read(entry: EntryView, rest: Seq<u8>)
    requires
        entry_within_limits(entry),
    ensures
        parse_entry(entry_bytes(entry) + rest) == Ok::<(EntryView, Seq<u8>), StorageError>(
            (entry, rest),
        ),
{
    match entry {
        EntryView::Term(term) => {
            let tail = le_bytes(term.0 as nat, 8) + rest;
            assert(entry_bytes(entry) + rest =~= seq![0u8] + tail);
            u8_read(0, tail);
            u64_read(term.0, rest);
        },
        EntryView::ClusterConfig(config) => {
            let tail = config_bytes(config) + rest;
            assert(entry_bytes(entry) + rest =~= seq![1u8] + tail);
            u8_read(1, tail);
            config_read(config, rest);
        },
        EntryView::Command => {
            u8_read(2, rest);
        },
    }
}

proof fn entry_list_read(entries: Seq<EntryView>, before: Seq<EntryView>, rest: Seq<u8>)
    requires
        entries_within_limits(entries),
    ensures
        parse_entry_list(entry_list_bytes(entries) + rest, entries.len(), before) == Ok::<
            (Seq<EntryView>, Seq<u8>),
            StorageError,
        >((before + entries, rest)),
    decreases entries.len(),
{
    if entries.len() == 0 {
        assert(entry_list_bytes(entries) + rest =~= rest);
        assert(before + entries =~= before);
    } else {
        let tail = entries.skip(1);
        let more = entry_list_bytes(tail) + rest;
        assert(entry_list_bytes(entries) + rest =~= entry_bytes(entries[0]) + more);
        assert(entry_within_limits(entries[0]));
        entry_read(entries[0], more);
        assert forall|i: int| 0 <= i < tail.len() implies entry_within_limits(#[trigger] tail[i]) by {
            assert(tail[i] == entries[i + 1]);
            assert(entry_within_limits(entries[i + 1]));
        }
        entry_list_read(tail, before.push(entries[0]), rest);
        assert(before.push(entries[0]) + tail =~= before + entries);
    }
}

proof fn entries_read(entries: EntriesView, rest: Seq<u8>)
    requires
        entries.wf(),
        entries.seq.len() <= MAX_COUNT_ITEMS,
        entries_within_limits(entries.seq),
    ensures
        parse_entries(entries_bytes(entries) + rest) == Ok::<(EntriesView, Seq<u8>), StorageError>(
            (entries, rest),
        ),
{
    reveal(parse_entries);
    let list = entry_list_bytes(entries.seq) + rest;
    let counted = le_bytes(entries.seq.len(), 8) + list;
    assert(entries_bytes(entries) + rest =~= position_bytes(entries.prev) + counted);
    position_read(entries.prev, counted);
    u64_read(entries.seq.len() as u64, list);
    entry_list_read(entries.seq, Seq::empty(), rest);
    assert(Seq::<EntryView>::empty() + entries.seq =~= entries.seq);
}

proof fn payload_read(index: u64, payload: PayloadView, rest: Seq<u8>)
    requires
        payload.bytes.len() <= MAX_RECORD_BODY_LEN,
    ensures
        parse_payload(payload_bytes(index, payload) + rest) == Ok::<
            ((u64, PayloadView), Seq<u8>),
            StorageError,
        >(((index, payload), rest)),
{
    let blob = blob_bytes(payload.bytes) + rest;
    let tagged = seq![payload.tag] + blob;
    assert(payload_bytes(index, payload) + rest =~= le_bytes(index as nat, 8) + tagged);
    u64_read(index, tagged);
    u8_read(payload.tag, blob);
    blob_read(payload.bytes, rest);
}

proof fn payload_list_read(
    indexes: Seq<u64>,
    payloads: Map<u64, PayloadView>,
    before: Map<u64, PayloadView>,
    rest: Seq<u8>,
)
    requires
        indexes.no_duplicates(),
        payloads_within_limits(indexes, payloads),
        forall|i: int| 0 <= i < indexes.len() ==> !before.contains_key(#[trigger] indexes[i]),
    ensures
        ({
            let read = parse_payload_list(
                payload_list_bytes(indexes, payloads) + rest,
                indexes.len(),
                before,
            );
            &&& read is Ok
            &&& read->Ok_0.1 == rest
            &&& read->Ok_0.0.dom() == before.dom().union(indexes.to_set())
            &&& forall|index: u64| #[trigger]
                read->Ok_0.0.contains_key(index) ==> read->Ok_0.0[index] == (if before.contains_key(
                    index,
                ) {
                    before[index]
                } else {
                    payloads[index]
                })
        }),
    decreases indexes.len(),
{
    if indexes.len() == 0 {
        assert(payload_list_bytes(indexes, payloads) + rest =~= rest);
        assert(before.dom().union(indexes.to_set()) =~= before.dom());
    } else {
        let index = indexes[0];
        let tail = indexes.skip(1);
        let more = payload_list_bytes(tail, payloads) + rest;
        assert(payload_list_bytes(indexes, payloads) + rest =~= payload_bytes(index, payloads[index])
            + more);
        assert(payloads[indexes[0]].bytes.len() <= MAX_RECORD_BODY_LEN);
        payload_read(index, payloads[index], more);
        assert forall|i: int| 0 <= i < tail.len() implies payloads[#[trigger] tail[i]].bytes.len()
            <= MAX_RECORD_BODY_LEN by {
            assert(tail[i] == indexes[i + 1]);
            assert(payloads[indexes[i + 1]].bytes.len() <= MAX_RECORD_BODY_LEN);
        }
        let next = before.insert(index, payloads[index]);
        assert forall|i: int| 0 <= i < tail.len() implies !next.contains_key(#[trigger] tail[i]) by {
            assert(tail[i] == indexes[i + 1]);
            assert(!before.contains_key(indexes[i + 1]));
        }
        payload_list_read(tail, payloads, next, rest);
        assert(next.dom().union(tail.to_set()) =~= before.dom().union(indexes.to_set())) by {
            assert forall|x: u64| indexes.contains(x) <==> x == index || tail.contains(x) by {
                if indexes.contains(x) && x != index {
                    let i = choose|i: int| 0 <= i < indexes.len() && indexes[i] == x;
                    assert(tail[i - 1] == x);
                }
                if tail.contains(x) {
                    let i = choose|i: int| 0 <= i < tail.len() && tail[i] == x;
                    assert(indexes[i + 1] == x);
                }
            }
        }
    }
}

proof fn payloads_read(payloads: Map<u64, PayloadView>, rest: Seq<u8>)
    requires
        payloads.dom().len() <= MAX_COUNT_ITEMS,
        payloads_within_limits(ascending(payloads.dom()), payloads),
    ensures
        parse_payloads(payloads_bytes(payloads) + rest) == Ok::<
            (Map<u64, PayloadView>, Seq<u8>),
            StorageError,
        >((payloads, rest)),
{
    reveal(parse_payloads);
    let indexes = ascending(payloads.dom());
    ascending_sound(payloads.dom());
    let list = payload_list_bytes(indexes, payloads) + rest;
    assert(payloads_bytes(payloads) + rest =~= le_bytes(payloads.dom().len(), 8) + list);
    u64_read(payloads.dom().len() as u64, list);
    payload_list_read(indexes, payloads, Map::empty(), rest);
    let read = parse_payload_list(list, indexes.len(), Map::empty());
    assert(read->Ok_0.0 =~= payloads);
}

proof fn append_read(append: AppendView, rest: Seq<u8>)
    requires
        append_within_limits(append),
    ensures
        parse_append(append_bytes(append) + rest) == Ok::<(AppendView, Seq<u8>), StorageError>(
            (append, rest),
        ),
{
    reveal(parse_append);
    let tail = payloads_bytes(append.payloads) + rest;
    assert(append_bytes(append) + rest =~= entries_bytes(append.entries) + tail);
    entries_read(append.entries, tail);
    payload_limits_by_index(append.payloads);
    payloads_read(append.payloads, rest);
}

proof fn snapshot_read(snapshot: SnapshotView, rest: Seq<u8>)
    requires
        config_within_limits(snapshot.config),
        snapshot.data.len() <= MAX_RECORD_BODY_LEN,
    ensures
        parse_snapshot(snapshot_bytes(snapshot) + rest) == Ok::<(SnapshotView, Seq<u8>), StorageError>(
            (snapshot, rest),
        ),
{
    reveal(parse_snapshot);
    let blob = blob_bytes(snapshot.data) + rest;
    let tail = config_bytes(snapshot.config) + blob;
    assert(snapshot_bytes(snapshot) + rest =~= position_bytes(snapshot.last_included) + tail);
    position_read(snapshot.last_included, tail);
    config_read(snapshot.config, blob);
    blob_read(snapshot.data, rest);
}

proof fn checkpoint_read(checkpoint: CheckpointView, rest: Seq<u8>)
    requires
        checkpoint_within_limits(checkpoint),
    ensures
        parse_checkpoint(checkpoint_bytes(checkpoint) + rest) == Ok::<
            (CheckpointView, Seq<u8>),
            StorageError,
        >((checkpoint, rest)),
{
    reveal(parse_checkpoint);
    let suffix = append_bytes(checkpoint.suffix) + rest;
    let snapshot = snapshot_bytes(checkpoint.snapshot) + suffix;
    let vote = optional_node_id_bytes(checkpoint.voted_for) + snapshot;
    assert(checkpoint_bytes(checkpoint) + rest =~= le_bytes(checkpoint.current_term.0 as nat, 8)
        + vote);
    u64_read(checkpoint.current_term.0, vote);
    optional_node_id_read(checkpoint.voted_for, snapshot);
    snapshot_read(checkpoint.snapshot, suffix);
    append_read(checkpoint.suffix, rest);
}

proof fn append_record_read(append: AppendView, rest: Seq<u8>)
    requires
        append_within_limits(append),
    ensures
        parse_record(seq![2u8] + append_bytes(append) + rest) == Ok::<
            (RecordView, Seq<u8>),
            StorageError,
        >((RecordView::Append(append), rest)),
{
    let tail = append_bytes(append) + rest;
    assert(seq![2u8] + append_bytes(append) + rest =~= seq![2u8] + tail);
    u8_read(2, tail);
    append_read(append, rest);
}

proof fn checkpoint_record_read(checkpoint: CheckpointView, rest: Seq<u8>)
    requires
        checkpoint_within_limits(checkpoint),
    ensures
        parse_record(seq![3u8] + checkpoint_bytes(checkpoint) + rest) == Ok::<
            (RecordView, Seq<u8>),
            StorageError,
        >((RecordView::SnapshotCheckpoint(checkpoint), rest)),
{
    let tail = checkpoint_bytes(checkpoint) + rest;
    assert(seq![3u8] + checkpoint_bytes(checkpoint) + rest =~= seq![3u8] + tail);
    u8_read(3, tail);
    checkpoint_read(checkpoint, rest);
}

proof fn small_record_read(record: RecordView, rest: Seq<u8>)
    requires
        record is CurrentTerm || record is VotedFor,
    ensures
        parse_record(record_bytes(record) + rest) == Ok::<(RecordView, Seq<u8>), StorageError>(
            (record, rest),
        ),
{
    if let RecordView::CurrentTerm(term) = record {
        let tail = le_bytes(term.0 as nat, 8) + rest;
        assert(record_bytes(record) + rest =~= seq![0u8] + tail);
        u8_read(0, tail);
        u64_read(term.0, rest);
    }
    if let RecordView::VotedFor(voted_for) = record {
        let tail = optional_node_id_bytes(voted_for) + rest;
        assert(record_bytes(record) + rest =~= seq![1u8] + tail);
        u8_read(1, tail);
        optional_node_id_read(voted_for, rest);
    }
}

proof fn record_read(record: RecordView, rest: Seq<u8>)
    requires
        record_within_limits(record),
    ensures
        parse_record(record_bytes(record) + rest) == Ok::<(RecordView, Seq<u8>), StorageError>(
            (record, rest),
        ),
{
    match record {
        RecordView::Append(append) => append_record_read(append, rest),
        RecordView::SnapshotCheckpoint(checkpoint) => checkpoint_record_read(checkpoint, rest),
        _ => small_record_read(record, rest),
    }
}

/// Reading the body of a storable record gives the node and the record back.
pub proof fn body_round_trip(node_id: NodeId, record: RecordView)
    requires
        record_within_limits(record),
    ensures
        body_node_id(body_bytes(node_id, record)) == Ok::<NodeId, StorageError>(node_id),
        parse_body(body_bytes(node_id, record)) == Ok::<NodeRecordView, StorageError>(
            (NodeRecordView { node_id, record }),
        ),
{
    let tail = record_bytes(record);
    assert(tail + Seq::<u8>::empty() =~= tail);
    u64_read(node_id.0, tail);
    record_read(record, Seq::empty());
}

/// Different node IDs or records have different stored bodies.
pub proof fn body_bytes_injective(node1: NodeId, record1: RecordView, node2: NodeId, record2: RecordView)
    requires
        record_within_limits(record1),
        record_within_limits(record2),
        body_bytes(node1, record1) == body_bytes(node2, record2),
    ensures
        node1 == node2,
        record1 == record2,
{
    body_round_trip(node1, record1);
    body_round_trip(node2, record2);
}

} // verus!
