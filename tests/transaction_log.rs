use icechunk_conflict::change_set::{ChangeSet, ChunkWrite, NodeChunks};
use icechunk_conflict::format::{ChunkIndices, LATEST_ICECHUNK_TRANSACTION_LOG_FORMAT};
use icechunk_conflict::transaction_log::TransactionLog;

fn sample() -> ChangeSet {
    ChangeSet {
        new_groups: vec![("/g".to_string(), 1)],
        new_arrays: vec![("/g/arr".to_string(), 2, vec![1, 2, 3])],
        updated_arrays: vec![(3, vec![4])],
        updated_attributes: vec![(4, None), (5, Some(vec![6]))],
        set_chunks: vec![NodeChunks {
            node: 2,
            writes: vec![
                ChunkWrite { coord: ChunkIndices(vec![0, 0]), payload: Some(vec![1]) },
                ChunkWrite { coord: ChunkIndices(vec![0, 1]), payload: None },
            ],
        }],
        deleted_groups: vec!["/old".to_string(), "/both".to_string()],
        deleted_arrays: vec!["/both".to_string(), "/x".to_string(), "/x".to_string()],
    }
}

#[test]
fn derivation_projects_change_set() {
    let log = TransactionLog::from_change_set(&sample());
    assert_eq!(log.icechunk_transaction_log_format_version, LATEST_ICECHUNK_TRANSACTION_LOG_FORMAT);
    assert_eq!(log.new_groups, vec![("/g".to_string(), 1)]);
    assert_eq!(log.new_arrays, vec![("/g/arr".to_string(), 2)]);
    assert_eq!(log.updated_user_attributes, vec![4, 5]);
    assert_eq!(log.updated_zarr_metadata, vec![3]);
    assert_eq!(
        log.updated_chunks,
        vec![(2, vec![ChunkIndices(vec![0, 0]), ChunkIndices(vec![0, 1])])]
    );
    assert!(log.deleted_groups.is_empty());
    assert!(log.deleted_arrays.is_empty());
}

#[test]
fn derivation_unites_deleted_paths_once() {
    let log = TransactionLog::from_change_set(&sample());
    assert_eq!(
        log.deleted_paths,
        vec!["/both".to_string(), "/x".to_string(), "/old".to_string()]
    );
}

#[test]
fn derivation_is_deterministic() {
    let cs = sample();
    let first = TransactionLog::from_change_set(&cs);
    let second = TransactionLog::from_change_set(&cs);
    assert_eq!(first, second);
}

#[test]
fn derivation_of_empty_set_is_empty() {
    let cs = ChangeSet {
        new_groups: vec![],
        new_arrays: vec![],
        updated_arrays: vec![],
        updated_attributes: vec![],
        set_chunks: vec![],
        deleted_groups: vec![],
        deleted_arrays: vec![],
    };
    let log = TransactionLog::from_change_set(&cs);
    assert!(log.new_groups.is_empty());
    assert!(log.updated_chunks.is_empty());
    assert!(log.deleted_paths.is_empty());
}
