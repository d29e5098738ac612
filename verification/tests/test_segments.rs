use sukari::codec::encode_record_frame;
use sukari::record::Record;
use sukari::scan::{check_segment_header, recover_storage_dir, scan_segment};
use sukari::segment::{discover_segments, select_active_append_segment};
use sukari::stats::StorageStatsCounters;
use sukari::{ErrorKind, NodeId, RecordPosition, Segment, SegmentName, StorageError, Term};

fn name(id: u64) -> SegmentName {
    SegmentName { id }
}

#[test]
fn names_and_numbers_of_segments_belong_together() {
    for id in [0, 1, 9, 10, 12345, u64::MAX] {
        let text = name(id).file_name();
        assert_eq!(text, format!("append-{id}.segment"));
        assert_eq!(SegmentName::parse_str(&text), Some(name(id)));
    }
    for text in [
        "",
        "append-.segment",
        "append-01.segment",
        "append-+1.segment",
        "append-1.segment.tmp",
        "append-1.segmen",
        "rewrite-1.segment",
        "append-18446744073709551616.segment",
        "append-1 .segment",
    ] {
        assert_eq!(SegmentName::parse_str(text), None, "text: {text}");
    }
}

#[test]
fn segments_are_numbered_in_order() {
    assert_eq!(SegmentName::first_append().id(), 0);
    assert_eq!(name(7).next_append(), Ok(name(8)));
    assert_eq!(
        name(u64::MAX).next_append(),
        Err(StorageError::SegmentIdOverflow)
    );
}

#[test]
fn segments_are_discovered_among_other_files() {
    let names: Vec<String> = [
        "append-10.segment",
        "nodes.json",
        "append-2.segment",
        "write.lock",
        "append-02.segment",
        "append-0.segment",
        "checkpoints.json.tmp",
    ]
    .iter()
    .map(|text| text.to_string())
    .collect();
    let found = discover_segments(&names);
    assert_eq!(found, vec![name(0), name(2), name(10)]);
    assert_eq!(select_active_append_segment(&found), name(10));
    assert_eq!(select_active_append_segment(&Vec::new()), name(0));
}

#[test]
fn positions_are_ordered_by_segment_and_offset() {
    let at = |id: u64, offset: u64| RecordPosition {
        segment: name(id),
        offset,
    };
    assert!(at(1, 900).precedes(at(2, 4)));
    assert!(at(2, 4).precedes(at(2, 5)));
    assert!(!at(2, 5).precedes(at(2, 5)));
    assert!(!at(2, 5).precedes(at(2, 4)));
    assert!(!at(3, 4).precedes(at(2, 900)));
}

#[test]
fn headers_are_checked() {
    assert_eq!(check_segment_header(b"SKR1", false), Ok(true));
    assert_eq!(check_segment_header(b"SKR1more", true), Ok(true));
    assert_eq!(
        check_segment_header(b"SKR0", true),
        Err(StorageError::UnsupportedSegmentFormat)
    );
    assert_eq!(check_segment_header(b"SK", true), Ok(false));
    assert_eq!(
        check_segment_header(b"SK", false),
        Err(StorageError::PartialSegmentHeader)
    );
    assert_eq!(check_segment_header(b"", true), Ok(false));
    assert_eq!(
        check_segment_header(b"", false),
        Err(StorageError::MissingSegmentHeader)
    );
}

fn whole_segment(id: u64) -> Segment {
    let mut bytes = b"SKR1".to_vec();
    for term in 1..4 {
        let record = Record::CurrentTerm(Term(term));
        bytes.extend(encode_record_frame(NodeId(1), &record).expect("record should be encoded"));
    }
    Segment {
        name: name(id),
        bytes,
    }
}

#[test]
fn recovery_cuts_the_newest_segment_after_its_last_record() {
    let whole = whole_segment(1);
    for len in 0..whole.bytes.len() {
        let mut segments = vec![
            whole_segment(0),
            Segment {
                name: name(1),
                bytes: whole.bytes[..len].to_vec(),
            },
        ];
        let mut stats = StorageStatsCounters::default();
        assert_eq!(
            recover_storage_dir(&mut segments, name(1), &mut stats),
            Ok(())
        );
        let kept = if len < 4 { 0 } else { 4 + (len - 4) / 25 * 25 };
        assert_eq!(segments[0], whole_segment(0));
        assert_eq!(segments[1].bytes, whole.bytes[..kept].to_vec());
        assert_eq!(
            stats.snapshot().replay_truncations,
            if kept == len { 0 } else { 1 }
        );
    }
}

#[test]
fn other_segments_must_be_complete() {
    let whole = whole_segment(0);
    for len in 0..whole.bytes.len() {
        if len >= 4 && (len - 4) % 25 == 0 {
            continue;
        }
        let mut segments = vec![
            Segment {
                name: name(0),
                bytes: whole.bytes[..len].to_vec(),
            },
            whole_segment(1),
        ];
        let mut stats = StorageStatsCounters::default();
        let error = recover_storage_dir(&mut segments, name(1), &mut stats)
            .expect_err("segment should be rejected");
        assert_eq!(error.kind(), ErrorKind::InvalidData);
        assert_eq!(segments[0].bytes.len(), len);
    }
}

#[test]
fn checksum_failures_are_counted() {
    let mut segment = whole_segment(0);
    segment.bytes[12 + 25] ^= 1;
    let before = segment.bytes.clone();
    let mut stats = StorageStatsCounters::default();
    assert_eq!(
        scan_segment(&mut segment, true, &mut stats),
        Err(StorageError::ChecksumMismatch)
    );
    assert_eq!(stats.snapshot().checksum_failures, 1);
    assert_eq!(segment.bytes, before);
}
