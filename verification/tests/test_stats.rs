use sukari::stats::{
    NodeAccessErrorKind, RecordKindMetric, StorageOperationKind, StorageStatsCounters,
};
use sukari::{OperationKindStats, RecordKindStats, RejectedOperationStats, StorageStats};

fn record_kind_json(metrics: RecordKindStats) -> String {
    nojson::object(|f| {
        f.member("current_term", metrics.current_term)?;
        f.member("voted_for", metrics.voted_for)?;
        f.member("log_append", metrics.log_append)?;
        f.member("snapshot_checkpoint", metrics.snapshot_checkpoint)
    })
    .to_string()
}

fn operation_kind_json(metrics: OperationKindStats) -> String {
    nojson::object(|f| {
        f.member("load", metrics.load)?;
        f.member("save_current_term", metrics.save_current_term)?;
        f.member("save_voted_for", metrics.save_voted_for)?;
        f.member("append_entries", metrics.append_entries)?;
        f.member("save_snapshot", metrics.save_snapshot)?;
        f.member("remove_node", metrics.remove_node)
    })
    .to_string()
}

fn rewritten(text: &str) -> String {
    let json = nojson::RawJsonOwned::parse(text).expect("text should be JSON");
    nojson::Json(&json).to_string()
}

#[test]
fn record_kind_metrics_displays_json() {
    let metrics = record_kind_metrics(1, 2, 3, 4);

    assert_eq!(
        metrics.to_string(),
        r#"{"current_term":1,"voted_for":2,"log_append":3,"snapshot_checkpoint":4}"#
    );
    assert_eq!(record_kind_json(metrics), metrics.to_string());
}

#[test]
fn operation_kind_metrics_displays_json() {
    let metrics = operation_kind_metrics(1, 2, 3, 4, 5, 6);

    assert_eq!(
        metrics.to_string(),
        r#"{"load":1,"save_current_term":2,"save_voted_for":3,"append_entries":4,"save_snapshot":5,"remove_node":6}"#
    );
    assert_eq!(operation_kind_json(metrics), metrics.to_string());
}

#[test]
fn rejected_operation_metrics_displays_json() {
    let metrics = RejectedOperationStats {
        unknown_nodes: operation_kind_metrics(1, 2, 3, 4, 5, 6),
        removed_nodes: operation_kind_metrics(7, 8, 9, 10, 11, 12),
    };

    assert_eq!(
        metrics.to_string(),
        [
            r#"{"unknown_nodes":{"load":1,"save_current_term":2,"#,
            r#""save_voted_for":3,"append_entries":4,"save_snapshot":5,"remove_node":6},"#,
            r#""removed_nodes":{"load":7,"save_current_term":8,"#,
            r#""save_voted_for":9,"append_entries":10,"save_snapshot":11,"remove_node":12}}"#,
        ]
        .concat()
    );
    assert_eq!(rewritten(&metrics.to_string()), metrics.to_string());
}

#[test]
fn storage_metrics_displays_json() {
    let metrics = StorageStats {
        records_written: record_kind_metrics(1, 2, 3, 4),
        bytes_written: record_kind_metrics(5, 6, 7, 8),
        records_replayed: record_kind_metrics(9, 10, 11, 12),
        bytes_replayed: record_kind_metrics(13, 14, 15, 16),
        segment_rotations: 17,
        syncs: 18,
        durable_syncs: 19,
        replay_truncations: 20,
        checksum_failures: 21,
        nodes_created: 22,
        nodes_removed: 23,
        rejected_operations: RejectedOperationStats {
            unknown_nodes: operation_kind_metrics(24, 25, 26, 27, 28, 29),
            removed_nodes: operation_kind_metrics(30, 31, 32, 33, 34, 35),
        },
        snapshot_checkpoints_saved: 36,
        gc_runs: 37,
        gc_segments_deleted: 38,
        active_nodes: 39,
        removed_nodes: 40,
        checkpoint_index_nodes: 41,
        active_append_segment_id: 42,
        active_append_segment_len_bytes: 43,
        unsynced_records: 44,
        unsynced_bytes: 45,
    };

    assert_eq!(
        metrics.to_string(),
        [
            r#"{"records_written":{"current_term":1,"voted_for":2,"log_append":3,"snapshot_checkpoint":4},"#,
            r#""bytes_written":{"current_term":5,"voted_for":6,"log_append":7,"snapshot_checkpoint":8},"#,
            r#""records_replayed":{"current_term":9,"voted_for":10,"log_append":11,"snapshot_checkpoint":12},"#,
            r#""bytes_replayed":{"current_term":13,"voted_for":14,"log_append":15,"snapshot_checkpoint":16},"#,
            r#""segment_rotations":17,"syncs":18,"durable_syncs":19,"replay_truncations":20,"#,
            r#""checksum_failures":21,"nodes_created":22,"nodes_removed":23,"#,
            r#""rejected_operations":{"unknown_nodes":{"load":24,"save_current_term":25,"#,
            r#""save_voted_for":26,"append_entries":27,"save_snapshot":28,"remove_node":29},"#,
            r#""removed_nodes":{"load":30,"save_current_term":31,"save_voted_for":32,"#,
            r#""append_entries":33,"save_snapshot":34,"remove_node":35}},"#,
            r#""snapshot_checkpoints_saved":36,"gc_runs":37,"gc_segments_deleted":38,"#,
            r#""active_nodes":39,"removed_nodes":40,"checkpoint_index_nodes":41,"#,
            r#""active_append_segment_id":42,"active_append_segment_len_bytes":43,"#,
            r#""unsynced_records":44,"unsynced_bytes":45}"#,
        ]
        .concat()
    );
    assert_eq!(rewritten(&metrics.to_string()), metrics.to_string());
}

#[test]
fn counters_follow_what_happens() {
    let mut counters = StorageStatsCounters::default();
    assert_eq!(counters.snapshot(), StorageStats::default());

    counters.segment_opened(3, 40);
    counters.record_written(RecordKindMetric::LogAppend, 7);
    counters.segment_written(47);
    counters.record_replayed(RecordKindMetric::VotedFor, 5);
    counters.sync_requested();
    counters.replay_truncated();
    counters.checksum_failed();
    counters.node_created();
    counters.node_removed();
    counters.snapshot_checkpoint_saved();
    counters.gc_ran();
    counters.gc_deleted_segments(2);
    counters.node_counts_changed(4, 1);
    counters.checkpoint_index_changed(6);
    counters.rejected_operation(
        StorageOperationKind::SaveSnapshot,
        NodeAccessErrorKind::RemovedNode,
    );
    let stats = counters.snapshot();
    assert_eq!(stats.records_written.log_append, 1);
    assert_eq!(stats.bytes_written.log_append, 7);
    assert_eq!(stats.unsynced_records, 1);
    assert_eq!(stats.unsynced_bytes, 7);
    assert_eq!(stats.active_append_segment_id, 3);
    assert_eq!(stats.active_append_segment_len_bytes, 47);
    assert_eq!(stats.records_replayed.voted_for, 1);
    assert_eq!(stats.bytes_replayed.voted_for, 5);
    assert_eq!(stats.syncs, 1);
    assert_eq!(stats.replay_truncations, 1);
    assert_eq!(stats.checksum_failures, 1);
    assert_eq!(stats.nodes_created, 1);
    assert_eq!(stats.nodes_removed, 1);
    assert_eq!(stats.snapshot_checkpoints_saved, 1);
    assert_eq!(stats.gc_runs, 1);
    assert_eq!(stats.gc_segments_deleted, 2);
    assert_eq!(stats.active_nodes, 4);
    assert_eq!(stats.removed_nodes, 1);
    assert_eq!(stats.checkpoint_index_nodes, 6);
    assert_eq!(stats.rejected_operations.removed_nodes.save_snapshot, 1);

    counters.segment_synced();
    counters.segment_rotated(4, 4);
    let stats = counters.snapshot();
    assert_eq!(stats.durable_syncs, 1);
    assert_eq!(stats.unsynced_records, 0);
    assert_eq!(stats.unsynced_bytes, 0);
    assert_eq!(stats.segment_rotations, 1);
    assert_eq!(stats.active_append_segment_id, 4);
    assert_eq!(stats.active_append_segment_len_bytes, 4);
}

#[test]
fn counters_stop_at_the_largest_number() {
    let mut counters = StorageStatsCounters::default();
    counters.gc_deleted_segments(u64::MAX);
    counters.gc_deleted_segments(2);
    counters.record_written(RecordKindMetric::CurrentTerm, u64::MAX);
    counters.record_written(RecordKindMetric::CurrentTerm, u64::MAX);
    let stats = counters.snapshot();

    assert_eq!(stats.gc_segments_deleted, u64::MAX);
    assert_eq!(stats.bytes_written.current_term, u64::MAX);
    assert_eq!(stats.records_written.current_term, 2);
}

fn record_kind_metrics(
    current_term: u64,
    voted_for: u64,
    log_append: u64,
    snapshot_checkpoint: u64,
) -> RecordKindStats {
    RecordKindStats {
        current_term,
        voted_for,
        log_append,
        snapshot_checkpoint,
    }
}

fn operation_kind_metrics(
    load: u64,
    save_current_term: u64,
    save_voted_for: u64,
    append_entries: u64,
    save_snapshot: u64,
    remove_node: u64,
) -> OperationKindStats {
    OperationKindStats {
        load,
        save_current_term,
        save_voted_for,
        append_entries,
        save_snapshot,
        remove_node,
    }
}
