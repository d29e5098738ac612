use std::collections::BTreeSet;

use sukari::checkpoint_index::{
    format_checkpoint_index, parse_checkpoint_index, CheckpointIndex, GcBarrier,
};
use sukari::codec::encode_record_frame;
use sukari::record::{initial_checkpoint, Record};
use sukari::registry::{format_node_registry, parse_node_registry, NodeRegistry};
use sukari::{
    ErrorKind, NodeId, NodeMetadata, RecordPosition, Segment, SegmentName, StorageError, Term,
};

fn metadata(startup: bool, text: &str) -> NodeMetadata {
    NodeMetadata::new(
        startup,
        nojson::RawJsonOwned::parse(text).expect("metadata should be valid JSON"),
    )
}

fn sample_registry() -> NodeRegistry {
    let mut registry = NodeRegistry::default();
    registry
        .create_node(NodeId(10), metadata(false, r#""worker""#))
        .expect("node should be created");
    registry
        .create_node(NodeId(2), metadata(true, r#"{"role":"control"}"#))
        .expect("node should be created");
    registry
        .remove_node(NodeId(10))
        .expect("node should be removed");
    registry
}

fn at(id: u64, offset: u64) -> RecordPosition {
    RecordPosition {
        segment: SegmentName { id },
        offset,
    }
}

fn sample_index() -> CheckpointIndex {
    let mut index = CheckpointIndex::default();
    index.set_checkpoint_position(NodeId(2), at(3, 4));
    index.set_checkpoint_position(NodeId(1), at(12, 500));
    index
}

#[test]
fn registry_text_is_indented_json() {
    let text = format_node_registry(&sample_registry());
    let expected = [
        "{\n",
        "  \"version\": 1,\n",
        "  \"nodes\": {\n",
        "    \"2\": {\n",
        "      \"startup\": true,\n",
        "      \"metadata\": {\"role\":\"control\"},\n",
        "      \"removed\": false\n",
        "    },\n",
        "    \"10\": {\n",
        "      \"startup\": false,\n",
        "      \"metadata\": \"worker\",\n",
        "      \"removed\": true\n",
        "    }\n",
        "  }\n",
        "}\n",
    ]
    .concat();
    assert_eq!(text, expected);
}

#[test]
fn index_text_is_indented_json() {
    let text = format_checkpoint_index(&sample_index());
    let mut expected = nojson::json(|f| {
        f.set_indent_size(2);
        f.set_spacing(true);
        f.object(|f| {
            f.member("version", 1)?;
            f.member(
                "nodes",
                nojson::object(|f| {
                    f.member(
                        1,
                        nojson::object(|f| {
                            f.member("checkpoint_segment", "append-12.segment")?;
                            f.member("checkpoint_offset", 500)
                        }),
                    )?;
                    f.member(
                        2,
                        nojson::object(|f| {
                            f.member("checkpoint_segment", "append-3.segment")?;
                            f.member("checkpoint_offset", 4)
                        }),
                    )
                }),
            )
        })
    })
    .to_string();
    expected.push('\n');
    assert_eq!(text, expected);
}

#[test]
fn empty_files_have_empty_objects() {
    let registry = format_node_registry(&NodeRegistry::default());
    assert_eq!(registry, "{\n  \"version\": 1,\n  \"nodes\": {}\n}\n");
    let index = format_checkpoint_index(&CheckpointIndex::default());
    assert_eq!(index, "{\n  \"version\": 1,\n  \"nodes\": {}\n}\n");
}

#[test]
fn registry_reads_back() {
    let registry = sample_registry();
    let again =
        parse_node_registry(&format_node_registry(&registry)).expect("registry should be read");
    assert_eq!(again, registry);
    assert_eq!(again.active_node_count(), 1);
    assert_eq!(again.removed_node_count(), 1);
    assert!(again.is_active(NodeId(2)));
    assert!(again.is_removed(NodeId(10)));
    assert_eq!(again.metadata(NodeId(10)), None);
    assert_eq!(again.active_node_ids(), BTreeSet::from([2]));
}

#[test]
fn index_reads_back() {
    let index = sample_index();
    let again =
        parse_checkpoint_index(&format_checkpoint_index(&index)).expect("index should be read");
    assert_eq!(again, index);
    assert_eq!(again.len(), 2);
    assert_eq!(again.checkpoint_position(NodeId(1)), Some(at(12, 500)));
    assert_eq!(again.checkpoint_position(NodeId(3)), None);
}

#[test]
fn spaces_around_metadata_are_lost() {
    let mut registry = NodeRegistry::default();
    registry
        .create_node(NodeId(1), metadata(false, " {} "))
        .expect("node should be created");
    let again =
        parse_node_registry(&format_node_registry(&registry)).expect("registry should be read");
    assert_eq!(
        again
            .metadata(NodeId(1))
            .expect("node should be there")
            .metadata()
            .text(),
        "{}"
    );
}

#[test]
fn metadata_keeps_what_it_was_made_of() {
    let value = metadata(true, r#"[1, 2]"#);
    assert!(value.startup());
    assert_eq!(value.metadata().text(), "[1, 2]");
    assert_eq!(value.clone().into_metadata().text(), "[1, 2]");
    let default = NodeMetadata::default();
    assert!(!default.startup());
    assert_eq!(default.metadata().text(), "{}");
}

#[test]
fn registry_members_come_in_any_order_and_with_others() {
    let text = r#"{"more":null,"nodes":{"1":{"removed":true,"x":0,"metadata":[ 1 ],"startup":true}},"version":1}"#;
    let registry = parse_node_registry(text).expect("registry should be read");
    assert!(registry.is_removed(NodeId(1)));
    let text = r#"{"version":1,"nodes":{"1":{"startup":true,"metadata":[ 1 ],"removed":false}}}"#;
    let registry = parse_node_registry(text).expect("registry should be read");
    let nodes = registry.startup_nodes();
    assert_eq!(nodes.len(), 1);
    assert_eq!(nodes[0].0, NodeId(1));
    assert_eq!(nodes[0].1.metadata().text(), "[ 1 ]");
}

#[test]
fn invalid_registries_are_rejected() {
    for text in [
        "",
        "[]",
        r#"{"version":"1","nodes":{}}"#,
        r#"{"version":1,"nodes":[]}"#,
        r#"{"version":1,"nodes":{"1":7}}"#,
        r#"{"version":1,"nodes":{"-1":{"startup":true,"metadata":1,"removed":false}}}"#,
        r#"{"version":1,"nodes":{"18446744073709551616":{"startup":true,"metadata":1,"removed":false}}}"#,
        r#"{"version":1,"nodes":{"1":{"startup":1,"metadata":1,"removed":false}}}"#,
        r#"{"version":1,"nodes":{"1":{"startup":true,"metadata":1,"removed":"no"}}}"#,
    ] {
        let error = parse_node_registry(text).expect_err("registry should be rejected");
        assert_eq!(error.kind(), ErrorKind::InvalidData, "text: {text}");
    }
}

#[test]
fn invalid_indexes_are_rejected() {
    for text in [
        "",
        "7",
        r#"{"version":1,"nodes":{"1":{"checkpoint_segment":7,"checkpoint_offset":0}}}"#,
        r#"{"version":1,"nodes":{"1":{"checkpoint_segment":"append-0.segment","checkpoint_offset":-1}}}"#,
        r#"{"version":1,"nodes":{"1":{"checkpoint_segment":"append-0.segment","checkpoint_offset":1.5}}}"#,
    ] {
        let error = parse_checkpoint_index(text).expect_err("index should be rejected");
        assert_eq!(error.kind(), ErrorKind::InvalidData, "text: {text}");
    }
}

#[test]
fn escapes_in_segment_names_are_resolved() {
    let text = r#"{"version":1,"nodes":{"7":{"checkpoint_segment":"append-5\u002esegment","checkpoint_offset":9}}}"#;
    let index = parse_checkpoint_index(text).expect("index should be read");
    assert_eq!(index.checkpoint_position(NodeId(7)), Some(at(5, 9)));
}

#[test]
fn node_ids_are_used_once() {
    let mut registry = sample_registry();
    for id in [2, 10] {
        assert_eq!(
            registry.create_node(NodeId(id), NodeMetadata::default()),
            Err(StorageError::NodeAlreadyExists)
        );
    }
    assert_eq!(
        registry.remove_node(NodeId(10)).map_err(StorageError::kind),
        Err(ErrorKind::NotFound)
    );
    assert_eq!(
        registry.remove_node(NodeId(3)).map_err(StorageError::kind),
        Err(ErrorKind::NotFound)
    );
}

#[test]
fn barrier_is_the_oldest_checkpoint() {
    let index = sample_index();
    assert_eq!(
        index.gc_barrier(&BTreeSet::from([1, 2])),
        Some(GcBarrier::Before(SegmentName { id: 3 }))
    );
    assert_eq!(
        index.gc_barrier(&BTreeSet::from([1])),
        Some(GcBarrier::Before(SegmentName { id: 12 }))
    );
    assert_eq!(
        index.gc_barrier(&BTreeSet::new()),
        Some(GcBarrier::AllInactiveAppendSegments)
    );
    assert_eq!(index.gc_barrier(&BTreeSet::from([1, 9])), None);
    assert!(GcBarrier::Before(SegmentName { id: 3 }).allows_delete(SegmentName { id: 2 }));
    assert!(!GcBarrier::Before(SegmentName { id: 3 }).allows_delete(SegmentName { id: 3 }));
    assert!(GcBarrier::AllInactiveAppendSegments.allows_delete(SegmentName { id: u64::MAX }));
}

#[test]
fn hints_are_given_for_all_nodes_or_none() {
    let index = sample_index();
    let hints = index
        .checkpoint_positions(&BTreeSet::from([2]))
        .expect("node should have a checkpoint");
    assert_eq!(hints.len(), 1);
    assert_eq!(hints.get(&2), Some(&at(3, 4)));
    assert_eq!(index.checkpoint_positions(&BTreeSet::from([2, 3])), None);
}

#[test]
fn index_keeps_active_nodes_only() {
    let mut index = sample_index();
    index.retain_active(&sample_registry());
    assert_eq!(index.len(), 1);
    assert_eq!(index.checkpoint_position(NodeId(2)), Some(at(3, 4)));
    index.remove_node(NodeId(2));
    assert_eq!(index, CheckpointIndex::default());
}

fn segment_with(records: &[(u64, Record)]) -> Segment {
    let mut bytes = b"SKR1".to_vec();
    for (id, record) in records {
        bytes.extend(encode_record_frame(NodeId(*id), record).expect("record should be encoded"));
    }
    Segment {
        name: SegmentName { id: 0 },
        bytes,
    }
}

#[test]
fn index_positions_are_checked() {
    let segments = vec![segment_with(&[
        (1, Record::SnapshotCheckpoint(initial_checkpoint())),
        (1, Record::CurrentTerm(Term(1))),
    ])];
    let len = segments[0].bytes.len() as u64;
    let second = len - 25;
    let check = |id: u64, position: RecordPosition| {
        let mut index = CheckpointIndex::default();
        index.set_checkpoint_position(NodeId(id), position);
        index.validate_checkpoint_positions(&segments)
    };
    assert_eq!(check(1, at(0, 4)), Ok(()));
    assert_eq!(check(1, at(1, 4)), Err(StorageError::IndexSegmentMissing));
    assert_eq!(
        check(1, at(0, 3)),
        Err(StorageError::IndexOffsetPrecedesRecords)
    );
    assert_eq!(
        check(1, at(0, len + 1)),
        Err(StorageError::IndexOffsetExceedsSegment)
    );
    assert_eq!(
        check(1, at(0, len)),
        Err(StorageError::IndexOffsetNotARecord)
    );
    assert_eq!(check(2, at(0, 4)), Err(StorageError::IndexNodeIdMismatch));
    assert_eq!(
        check(1, at(0, second)),
        Err(StorageError::IndexNotACheckpoint)
    );
}
