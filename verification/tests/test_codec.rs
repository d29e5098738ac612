use std::collections::{BTreeMap, BTreeSet};

use sukari::codec::{
    decode_count, decode_node_record, decode_record_node_id, encode_count, encode_record_frame,
    frame_len_from_body, read_record_body, scan_record_frame, Decoder, Encoder,
};
use sukari::format::{MAX_COUNT_ITEMS, MAX_RECORD_BODY_LEN};
use sukari::record::{NodeRecord, Record};
use sukari::{
    Bytes, ClusterConfig, CommandPayload, ErrorKind, LogAppend, LogIndex, LogPosition, NodeId,
    Snapshot, SnapshotCheckpoint, StorageError, Term,
};

#[test]
fn encoder_rejects_record_body_limit_before_integer_write() {
    let mut encoder = encoder_with_len_for_test(MAX_RECORD_BODY_LEN);

    let err = encoder
        .put_u8(0)
        .expect_err("integer write should exceed the record body limit");
    assert_eq!(err.kind(), ErrorKind::InvalidInput);
    assert!(encoder.bytes.is_empty());
    assert_eq!(encoder.len, MAX_RECORD_BODY_LEN);
}

#[test]
fn encoder_rejects_record_body_limit_before_byte_write() {
    let mut encoder = encoder_with_len_for_test(MAX_RECORD_BODY_LEN - 3);

    let err = encoder
        .put_bytes(&[])
        .expect_err("byte length prefix should exceed the record body limit");
    assert_eq!(err.kind(), ErrorKind::InvalidInput);
    assert!(encoder.bytes.is_empty());
    assert_eq!(encoder.len, MAX_RECORD_BODY_LEN - 3);
}

fn encoder_with_len_for_test(len: u32) -> Encoder {
    Encoder {
        bytes: Vec::new(),
        len,
    }
}

#[test]
fn integers_are_little_endian() {
    let mut encoder = Encoder::new();
    encoder.put_u8(0xAB).expect("should fit");
    encoder.put_u32(0x0102_0304).expect("should fit");
    encoder.put_u64(0x1112_1314_1516_1718).expect("should fit");
    encoder.put_bytes(b"xyz").expect("should fit");
    assert_eq!(encoder.len, 24);
    let bytes = encoder.finish();
    assert_eq!(
        bytes,
        [
            0xAB, 4, 3, 2, 1, 0x18, 0x17, 0x16, 0x15, 0x14, 0x13, 0x12, 0x11, 3, 0, 0, 0, 0, 0, 0,
            0, b'x', b'y', b'z',
        ]
    );

    let mut decoder = Decoder::new(&bytes);
    assert_eq!(decoder.get_u8(), Ok(0xAB));
    assert_eq!(decoder.get_u32(), Ok(0x0102_0304));
    assert_eq!(decoder.get_u64(), Ok(0x1112_1314_1516_1718));
    assert_eq!(decoder.finish().is_err(), true);
    assert_eq!(decoder.get_bytes(), Ok(b"xyz".as_slice()));
    assert_eq!(decoder.finish(), Ok(()));
    assert_eq!(
        decoder.get_u8().map_err(StorageError::kind),
        Err(ErrorKind::InvalidData)
    );
}

#[test]
fn byte_strings_have_their_length_in_front() {
    let mut encoder = Encoder::new();
    encoder.put_bytes(b"ab").expect("should fit");
    let bytes = encoder.finish();
    assert_eq!(bytes, [2, 0, 0, 0, 0, 0, 0, 0, b'a', b'b']);
}

#[test]
fn a_byte_string_that_is_not_there_ends_reading_behind_its_length() {
    let mut short = 3u64.to_le_bytes().to_vec();
    short.extend_from_slice(b"xy");
    let mut decoder = Decoder::new(&short);
    assert_eq!(decoder.get_bytes(), Err(StorageError::RecordTooShort));
    assert_eq!(decoder.get_u8(), Ok(b'x'));

    let mut long = (MAX_RECORD_BODY_LEN as u64 + 1).to_le_bytes().to_vec();
    long.push(7);
    let mut decoder = Decoder::new(&long);
    assert_eq!(
        decoder.get_bytes(),
        Err(StorageError::StoredByteSliceTooLarge)
    );
    assert_eq!(decoder.get_u8(), Ok(7));
    assert_eq!(decoder.finish(), Ok(()));

    let mut decoder = Decoder::new(&[1, 2]);
    assert_eq!(decoder.get_bytes(), Err(StorageError::RecordTooShort));
    assert_eq!(decoder.get_u8(), Ok(1));
}

#[test]
fn counts_up_to_the_limit_read_back() {
    let too_many = StorageError::TooManyLogEntries;
    let stored_too_many = StorageError::StoredTooManyLogEntries;
    for count in [0, 1, 300, MAX_COUNT_ITEMS as u64] {
        let mut encoder = Encoder::new();
        assert_eq!(encode_count(count, too_many, &mut encoder), Ok(()));
        let bytes = encoder.finish();
        assert_eq!(bytes, count.to_le_bytes());
        let mut decoder = Decoder::new(&bytes);
        assert_eq!(
            decode_count(&mut decoder, stored_too_many),
            Ok(count as u32)
        );
        assert_eq!(decoder.finish(), Ok(()));
    }
    for count in [MAX_COUNT_ITEMS as u64 + 1, 1 << 32, u64::MAX] {
        let mut encoder = Encoder::new();
        let error = encode_count(count, too_many, &mut encoder)
            .expect_err("count should exceed the limit");
        assert_eq!(error.kind(), ErrorKind::InvalidInput);
        assert!(encoder.bytes.is_empty());
        let bytes = count.to_le_bytes();
        let mut decoder = Decoder::new(&bytes);
        let error = decode_count(&mut decoder, stored_too_many)
            .expect_err("stored count should exceed the limit");
        assert_eq!(error.kind(), ErrorKind::InvalidData);
    }
}

#[test]
fn stored_entries_stay_within_the_index_space() {
    let mut body = 1u64.to_le_bytes().to_vec();
    body.push(2);
    body.extend_from_slice(&0u64.to_le_bytes());
    body.extend_from_slice(&u64::MAX.to_le_bytes());
    body.extend_from_slice(&1u64.to_le_bytes());
    body.push(0);
    body.extend_from_slice(&[0; 16]);
    assert_eq!(
        decode_node_record(&body),
        Err(StorageError::LogIndexOverflow)
    );
}

#[test]
fn a_frame_has_length_checksum_and_body() {
    let frame = encode_record_frame(NodeId(2), &Record::CurrentTerm(Term(6)))
        .expect("record should be encoded");
    let body = [
        2, 0, 0, 0, 0, 0, 0, 0, 0, 6, 0, 0, 0, 0, 0, 0, 0,
    ];
    assert_eq!(&frame[..4], &17u32.to_le_bytes());
    assert_eq!(&frame[4..8], &sukari::crc32c::crc32c(&body).to_le_bytes());
    assert_eq!(&frame[8..], &body);
    assert_eq!(frame_len_from_body(&body), 25);
    assert_eq!(read_record_body(&frame, 0), Ok(Some(body.as_slice())));
    assert_eq!(scan_record_frame(&frame, 0), Ok(Some(25)));
    assert_eq!(decode_record_node_id(&body), Ok(NodeId(2)));
}

#[test]
fn votes_have_a_tag_for_their_presence() {
    let none = encode_record_frame(NodeId(1), &Record::VotedFor(None)).expect("should encode");
    assert_eq!(&none[16..], &[1, 0]);
    let some =
        encode_record_frame(NodeId(1), &Record::VotedFor(Some(NodeId(9)))).expect("should encode");
    assert_eq!(&some[16..], &[1, 1, 9, 0, 0, 0, 0, 0, 0, 0]);
}

#[test]
fn every_kind_of_record_reads_back() {
    for record in [
        Record::CurrentTerm(Term(u64::MAX)),
        Record::VotedFor(None),
        Record::VotedFor(Some(NodeId(9))),
        Record::Append(sample_append(position(3, 3))),
        Record::SnapshotCheckpoint(sample_checkpoint()),
    ] {
        let frame = encode_record_frame(NodeId(7), &record).expect("record should be encoded");
        let body = read_record_body(&frame, 0)
            .expect("frame should be intact")
            .expect("frame should be complete");
        assert_eq!(
            decode_node_record(body),
            Ok(NodeRecord {
                node_id: NodeId(7),
                record,
            })
        );
    }
}

#[test]
fn a_cut_frame_is_incomplete_everywhere() {
    let frame = encode_record_frame(NodeId(7), &Record::Append(sample_append(position(0, 0))))
        .expect("record should be encoded");
    for len in 0..frame.len() {
        assert_eq!(read_record_body(&frame[..len], 0), Ok(None));
        assert_eq!(scan_record_frame(&frame[..len], 0), Ok(None));
    }
}

#[test]
fn a_changed_body_fails_the_checksum() {
    let frame = encode_record_frame(NodeId(7), &Record::CurrentTerm(Term(1)))
        .expect("record should be encoded");
    for i in 4..frame.len() {
        let mut changed = frame.clone();
        changed[i] ^= 0x40;
        assert_eq!(
            read_record_body(&changed, 0),
            Err(StorageError::ChecksumMismatch)
        );
    }
}

#[test]
fn an_over_limit_length_is_rejected() {
    let bytes = (MAX_RECORD_BODY_LEN + 1).to_le_bytes();
    assert_eq!(
        scan_record_frame(&bytes, 0),
        Err(StorageError::SegmentRecordTooLarge)
    );
    let bytes = MAX_RECORD_BODY_LEN.to_le_bytes();
    assert_eq!(scan_record_frame(&bytes, 0), Ok(None));
}

#[test]
fn bodies_that_are_no_records_are_rejected() {
    let node = 7u64.to_le_bytes().to_vec();
    let mut unknown_kind = node.clone();
    unknown_kind.push(9);
    let mut trailing = node.clone();
    trailing.push(0);
    trailing.extend_from_slice(&1u64.to_le_bytes());
    trailing.push(0);
    let mut bad_vote = node.clone();
    bad_vote.extend_from_slice(&[1, 2]);
    let mut too_many_entries = node.clone();
    too_many_entries.push(2);
    too_many_entries.extend_from_slice(&[0; 16]);
    too_many_entries.extend_from_slice(&(MAX_COUNT_ITEMS as u64 + 1).to_le_bytes());
    let mut bad_entry = node.clone();
    bad_entry.push(2);
    bad_entry.extend_from_slice(&[0; 16]);
    bad_entry.extend_from_slice(&1u64.to_le_bytes());
    bad_entry.push(7);
    for body in [
        Vec::new(),
        vec![1, 2, 3],
        node,
        unknown_kind,
        trailing,
        bad_vote,
        too_many_entries,
        bad_entry,
    ] {
        let error = decode_node_record(&body).expect_err("body should be rejected");
        assert_eq!(error.kind(), ErrorKind::InvalidData);
    }
}

#[test]
fn invalid_values_are_not_encoded() {
    let suffix = sample_append(position(1, 1));
    let checkpoint = SnapshotCheckpoint {
        suffix,
        ..sample_checkpoint()
    };
    let error = encode_record_frame(NodeId(1), &Record::SnapshotCheckpoint(checkpoint))
        .expect_err("suffix should start at the snapshot position");
    assert_eq!(error, StorageError::CheckpointSuffixGap);
    assert_eq!(error.kind(), ErrorKind::InvalidInput);
}

#[test]
fn decoding_reads_sets_in_any_order() {
    let mut body = 1u64.to_le_bytes().to_vec();
    body.push(2);
    body.extend_from_slice(&[0; 16]);
    body.extend_from_slice(&1u64.to_le_bytes());
    body.push(1);
    body.extend_from_slice(&2u64.to_le_bytes());
    body.extend_from_slice(&5u64.to_le_bytes());
    body.extend_from_slice(&3u64.to_le_bytes());
    body.extend_from_slice(&[0; 16]);
    body.extend_from_slice(&0u64.to_le_bytes());
    let record = decode_node_record(&body).expect("body should be decoded").record;
    let entries = noraft::LogEntries::from_iter(
        noraft::LogPosition::ZERO,
        [noraft::LogEntry::ClusterConfig(noraft::ClusterConfig {
            voters: [3, 5].into_iter().map(noraft::NodeId::new).collect(),
            ..noraft::ClusterConfig::new()
        })],
    );
    let append = LogAppend::new(entries, BTreeMap::new()).expect("append should be valid");
    assert_eq!(record, Record::Append(append));
}

fn position(term: u64, index: u64) -> noraft::LogPosition {
    noraft::LogPosition {
        term: noraft::Term::new(term),
        index: noraft::LogIndex::new(index),
    }
}

fn sample_append(prev: noraft::LogPosition) -> LogAppend {
    let entries = noraft::LogEntries::from_iter(
        prev,
        [
            noraft::LogEntry::Term(noraft::Term::new(4)),
            noraft::LogEntry::Command,
            noraft::LogEntry::ClusterConfig(noraft::ClusterConfig {
                voters: [1, 2].into_iter().map(noraft::NodeId::new).collect(),
                new_voters: [3].into_iter().map(noraft::NodeId::new).collect(),
                non_voters: [4, 5].into_iter().map(noraft::NodeId::new).collect(),
            }),
            noraft::LogEntry::Command,
        ],
    );
    let first = prev.index.get() + 2;
    let payloads = BTreeMap::from([
        (
            first,
            CommandPayload::new(7, Bytes::from(b"first".as_slice())),
        ),
        (first + 2, CommandPayload::new(0, Bytes::default())),
    ]);
    LogAppend::new(entries, payloads).expect("append should be valid")
}

fn sample_checkpoint() -> SnapshotCheckpoint {
    SnapshotCheckpoint {
        current_term: Term(8),
        voted_for: Some(NodeId(2)),
        snapshot: Snapshot {
            last_included: LogPosition {
                term: Term(3),
                index: LogIndex(3),
            },
            config: ClusterConfig {
                voters: BTreeSet::from([1, 2, 3]),
                new_voters: BTreeSet::new(),
                non_voters: BTreeSet::from([9]),
            },
            data: Bytes::from(b"snapshot".as_slice()),
        },
        suffix: sample_append(position(3, 3)),
    }
}
