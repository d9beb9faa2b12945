use icechunk_conflict::change_set::{ChangeSet, ChunkWrite, NodeChunks};
use icechunk_conflict::conflict::{
    both_created_arrays, both_created_groups, both_updated_attributes,
    both_updated_zarr_metadata, chunks_written_to_deleted_arrays, colliding_indices,
    write_to_written_chunks, BasicConflictSolver, ConflictResolution, ConflictSolver,
    NoFastForward, UnsolvableConflict, VersionSelection,
};
use icechunk_conflict::format::{find_path, ChunkIndices, NodeSnapshot};
use icechunk_conflict::transaction_log::TransactionLog;

const ID_A: u64 = 10;
const ID_B: u64 = 20;

fn idx(c: &[u32]) -> ChunkIndices {
    ChunkIndices(c.to_vec())
}

fn write(c: &[u32], byte: u8) -> ChunkWrite {
    ChunkWrite { coord: idx(c), payload: Some(vec![byte]) }
}

fn empty_change_set() -> ChangeSet {
    ChangeSet {
        new_groups: vec![],
        new_arrays: vec![],
        updated_arrays: vec![],
        updated_attributes: vec![],
        set_chunks: vec![],
        deleted_groups: vec![],
        deleted_arrays: vec![],
    }
}

fn empty_log() -> TransactionLog {
    TransactionLog {
        icechunk_transaction_log_format_version: 0,
        new_groups: vec![],
        new_arrays: vec![],
        updated_user_attributes: vec![],
        updated_zarr_metadata: vec![],
        updated_chunks: vec![],
        deleted_paths: vec![],
        deleted_groups: vec![],
        deleted_arrays: vec![],
    }
}

fn nodes() -> Vec<NodeSnapshot> {
    vec![
        NodeSnapshot { id: ID_A, path: "/a".to_string() },
        NodeSnapshot { id: ID_B, path: "/b".to_string() },
    ]
}

fn solver(on_chunks: VersionSelection) -> BasicConflictSolver {
    BasicConflictSolver { on_chunk_write_conflicts: on_chunks, ..BasicConflictSolver::default() }
}

/// Log that wrote `[0,0]` of `/a`; pending set writes `[0,0]` and `[0,1]` there.
fn overlapping() -> (TransactionLog, ChangeSet) {
    let mut log = empty_log();
    log.updated_chunks = vec![(ID_A, vec![idx(&[0, 0])])];
    let mut cs = empty_change_set();
    cs.set_chunks = vec![NodeChunks { node: ID_A, writes: vec![write(&[0, 0], 1), write(&[0, 1], 2)] }];
    (log, cs)
}

fn deleted_target() -> (TransactionLog, ChangeSet) {
    let mut log = empty_log();
    log.deleted_arrays = vec![(ID_B, "/b".to_string())];
    let mut cs = empty_change_set();
    cs.set_chunks = vec![NodeChunks { node: ID_B, writes: vec![write(&[3], 7)] }];
    (log, cs)
}

#[test]
fn fail_policy_reports_colliding_chunk_count() {
    let (log, cs) = overlapping();
    let r = solver(VersionSelection::Fail).solve(&log, &nodes(), cs.clone());
    assert_eq!(
        r,
        ConflictResolution::Failure {
            reason: vec![UnsolvableConflict::WriteToWrittenChunk(vec![("/a".to_string(), 1)])],
            unmodified: cs,
        }
    );
}

#[test]
fn theirs_policy_keeps_only_non_colliding_write() {
    let (log, cs) = overlapping();
    let r = solver(VersionSelection::Theirs).solve(&log, &nodes(), cs.clone());
    let mut expected = cs;
    expected.set_chunks = vec![NodeChunks { node: ID_A, writes: vec![write(&[0, 1], 2)] }];
    assert_eq!(r, ConflictResolution::Patched(expected));
}

#[test]
fn ours_policy_keeps_pending_set() {
    let (log, cs) = overlapping();
    let r = solver(VersionSelection::Ours).solve(&log, &nodes(), cs.clone());
    assert_eq!(r, ConflictResolution::Patched(cs));
}

#[test]
fn fail_policy_counts_every_colliding_index_per_path() {
    let mut log = empty_log();
    log.updated_chunks = vec![
        (ID_A, vec![idx(&[0]), idx(&[1]), idx(&[2])]),
        (ID_B, vec![idx(&[5])]),
    ];
    let mut cs = empty_change_set();
    cs.set_chunks = vec![
        NodeChunks { node: ID_B, writes: vec![write(&[5], 0), write(&[6], 0)] },
        NodeChunks { node: ID_A, writes: vec![write(&[2], 0), write(&[0], 0), write(&[9], 0)] },
    ];
    let r = solver(VersionSelection::Fail).solve(&log, &nodes(), cs.clone());
    assert_eq!(
        r,
        ConflictResolution::Failure {
            reason: vec![UnsolvableConflict::WriteToWrittenChunk(vec![
                ("/b".to_string(), 1),
                ("/a".to_string(), 2),
            ])],
            unmodified: cs,
        }
    );
}

#[test]
fn deleted_array_write_fails_under_every_policy() {
    for policy in [VersionSelection::Fail, VersionSelection::Ours, VersionSelection::Theirs] {
        let (log, cs) = deleted_target();
        let r = solver(policy).solve(&log, &nodes(), cs.clone());
        assert_eq!(
            r,
            ConflictResolution::Failure {
                reason: vec![UnsolvableConflict::ChunksWrittenToDeletedArrays(vec![
                    "/b".to_string()
                ])],
                unmodified: cs,
            }
        );
    }
}

#[test]
fn deleted_array_write_reported_before_collisions() {
    let (mut log, mut cs) = overlapping();
    log.deleted_arrays = vec![(ID_B, "/b".to_string())];
    cs.set_chunks.push(NodeChunks { node: ID_B, writes: vec![write(&[3], 7)] });
    let r = solver(VersionSelection::Fail).solve(&log, &nodes(), cs.clone());
    assert_eq!(
        r,
        ConflictResolution::Failure {
            reason: vec![
                UnsolvableConflict::ChunksWrittenToDeletedArrays(vec!["/b".to_string()]),
                UnsolvableConflict::WriteToWrittenChunk(vec![("/a".to_string(), 1)]),
            ],
            unmodified: cs.clone(),
        }
    );
    let theirs = solver(VersionSelection::Theirs).solve(&log, &nodes(), cs.clone());
    match theirs {
        ConflictResolution::Failure { reason, unmodified } => {
            assert_eq!(reason.len(), 1);
            assert_eq!(unmodified, cs);
        }
        ConflictResolution::Patched(_) => panic!("expected a failure"),
    }
}

#[test]
fn no_fast_forward_always_fails() {
    let (log, cs) = overlapping();
    let r = NoFastForward().solve(&log, &nodes(), cs.clone());
    assert_eq!(
        r,
        ConflictResolution::Failure {
            reason: vec![UnsolvableConflict::NoFastForwardConfigured],
            unmodified: cs,
        }
    );
    let r = NoFastForward().solve(&empty_log(), &vec![], empty_change_set());
    assert_eq!(
        r,
        ConflictResolution::Failure {
            reason: vec![UnsolvableConflict::NoFastForwardConfigured],
            unmodified: empty_change_set(),
        }
    );
}

#[test]
fn disjoint_changes_pass_unchanged() {
    let mut log = empty_log();
    log.updated_chunks = vec![(ID_A, vec![idx(&[0, 0])])];
    log.deleted_arrays = vec![(ID_B, "/b".to_string())];
    let mut cs = empty_change_set();
    cs.set_chunks = vec![NodeChunks { node: ID_A, writes: vec![write(&[1, 0], 1)] }];
    let r = BasicConflictSolver::default().solve(&log, &nodes(), cs.clone());
    assert_eq!(r, ConflictResolution::Patched(cs));
}

#[test]
fn empty_inputs_pass() {
    let r = BasicConflictSolver::default().solve(&empty_log(), &vec![], empty_change_set());
    assert_eq!(r, ConflictResolution::Patched(empty_change_set()));
}

#[test]
fn theirs_without_collision_leaves_set_alone() {
    let mut log = empty_log();
    log.updated_chunks = vec![(ID_B, vec![idx(&[0, 0])])];
    let mut cs = empty_change_set();
    cs.set_chunks = vec![NodeChunks { node: ID_A, writes: vec![write(&[0, 0], 1)] }];
    let r = solver(VersionSelection::Theirs).solve(&log, &nodes(), cs.clone());
    assert_eq!(r, ConflictResolution::Patched(cs));
}

#[test]
fn unenforced_categories_do_not_fail() {
    let mut log = empty_log();
    log.updated_user_attributes = vec![ID_A];
    log.updated_zarr_metadata = vec![ID_B];
    log.new_groups = vec![("/g".to_string(), 30)];
    log.new_arrays = vec![("/n".to_string(), 31)];
    let mut cs = empty_change_set();
    cs.updated_attributes = vec![(ID_A, Some(vec![1]))];
    cs.updated_arrays = vec![(ID_B, vec![2])];
    cs.new_groups = vec![("/g".to_string(), 40)];
    cs.new_arrays = vec![("/n".to_string(), 41, vec![3])];

    assert_eq!(both_updated_attributes(&log, &nodes(), &cs), vec!["/a".to_string()]);
    assert_eq!(both_updated_zarr_metadata(&log, &nodes(), &cs), vec!["/b".to_string()]);
    assert_eq!(both_created_groups(&log, &cs), vec!["/g".to_string()]);
    assert_eq!(both_created_arrays(&log, &cs), vec!["/n".to_string()]);

    let r = BasicConflictSolver::default().solve(&log, &nodes(), cs.clone());
    assert_eq!(r, ConflictResolution::Patched(cs));
}

#[test]
fn unenforced_detections_ignore_unrelated_nodes() {
    let mut log = empty_log();
    log.updated_user_attributes = vec![ID_B];
    log.updated_zarr_metadata = vec![ID_A];
    log.new_groups = vec![("/g".to_string(), 30)];
    let mut cs = empty_change_set();
    cs.updated_attributes = vec![(ID_A, None)];
    cs.updated_arrays = vec![(ID_B, vec![2])];
    cs.new_groups = vec![("/h".to_string(), 40)];
    cs.new_arrays = vec![("/g".to_string(), 41, vec![])];
    assert!(both_updated_attributes(&log, &nodes(), &cs).is_empty());
    assert!(both_updated_zarr_metadata(&log, &nodes(), &cs).is_empty());
    assert!(both_created_groups(&log, &cs).is_empty());
    assert!(both_created_arrays(&log, &cs).is_empty());
}

#[test]
fn default_solver_fails_every_category() {
    let s = BasicConflictSolver::default();
    assert_eq!(s.on_chunk_write_conflicts, VersionSelection::Fail);
    assert_eq!(s.on_user_attributes_conflict, VersionSelection::Fail);
    assert_eq!(s.on_zarr_metadata_conflict, VersionSelection::Fail);
    assert_eq!(s.on_group_creation_conflict, VersionSelection::Fail);
    assert_eq!(s.on_array_creation_conflict, VersionSelection::Fail);
}

#[test]
fn find_path_resolves_first_match() {
    let mut listing = nodes();
    listing.push(NodeSnapshot { id: ID_A, path: "/other".to_string() });
    assert_eq!(find_path(ID_A, &listing), Some("/a".to_string()));
    assert_eq!(find_path(ID_B, &listing), Some("/b".to_string()));
    assert_eq!(find_path(99, &listing), None);
    assert_eq!(find_path(ID_A, &vec![]), None);
}

#[test]
fn colliding_indices_keeps_pending_order() {
    let writes = vec![write(&[4, 1], 0), write(&[0, 0], 0), write(&[2, 2], 0)];
    let previous = vec![idx(&[0, 0]), idx(&[4, 1]), idx(&[7, 7])];
    assert_eq!(colliding_indices(&writes, &previous), vec![idx(&[4, 1]), idx(&[0, 0])]);
    assert!(colliding_indices(&writes, &vec![]).is_empty());
}

#[test]
fn detection_helpers_on_scenarios() {
    let (log, cs) = deleted_target();
    assert_eq!(chunks_written_to_deleted_arrays(&log, &cs), vec!["/b".to_string()]);
    let (log, cs) = overlapping();
    assert!(chunks_written_to_deleted_arrays(&log, &cs).is_empty());
    assert_eq!(write_to_written_chunks(&log, &nodes(), &cs), vec![("/a".to_string(), 1)]);
}

#[test]
fn change_set_queries() {
    let mut cs = empty_change_set();
    cs.set_chunks = vec![
        NodeChunks { node: ID_B, writes: vec![] },
        NodeChunks { node: ID_A, writes: vec![write(&[0], 0)] },
    ];
    cs.updated_attributes = vec![(ID_A, None)];
    cs.updated_arrays = vec![(ID_B, vec![9, 8])];
    assert_eq!(cs.written_arrays(), vec![ID_B, ID_A]);
    assert!(cs.has_updated_attributes(ID_A));
    assert!(!cs.has_updated_attributes(ID_B));
    assert_eq!(cs.get_updated_zarr_metadata(ID_B), Some(&vec![9, 8]));
    assert_eq!(cs.get_updated_zarr_metadata(ID_A), None);
}

#[test]
fn chunk_indices_compare_and_copy() {
    let a = idx(&[1, 2, 3]);
    assert!(a.same_as(&idx(&[1, 2, 3])));
    assert!(!a.same_as(&idx(&[1, 2])));
    assert!(!a.same_as(&idx(&[1, 2, 4])));
    assert_eq!(a.duplicate(), a);
}

#[test]
fn no_fast_forward_accepts_inconsistent_listing() {
    let (log, cs) = overlapping();
    let solver = NoFastForward();
    assert!(solver.can_solve(&log, &vec![], &cs));
    let r = solver.solve(&log, &vec![], cs.clone());
    assert_eq!(
        r,
        ConflictResolution::Failure {
            reason: vec![UnsolvableConflict::NoFastForwardConfigured],
            unmodified: cs,
        }
    );
}

#[test]
fn basic_solver_needs_colliding_nodes_in_listing() {
    let (log, cs) = overlapping();
    let s = BasicConflictSolver::default();
    assert!(s.can_solve(&log, &nodes(), &cs));
    assert!(!s.can_solve(&log, &vec![], &cs));
    let only_b = vec![NodeSnapshot { id: ID_B, path: "/b".to_string() }];
    assert!(!s.can_solve(&log, &only_b, &cs));
    assert!(s.can_solve(&empty_log(), &vec![], &cs));
}

#[test]
fn attribute_check_ignores_unresolved_chunk_nodes() {
    let (mut log, mut cs) = overlapping();
    log.updated_user_attributes = vec![ID_B];
    cs.updated_attributes = vec![(ID_B, None)];
    let only_b = vec![NodeSnapshot { id: ID_B, path: "/b".to_string() }];
    assert_eq!(both_updated_attributes(&log, &only_b, &cs), vec!["/b".to_string()]);
    assert!(both_updated_zarr_metadata(&log, &only_b, &cs).is_empty());
}
