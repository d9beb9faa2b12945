//! Detection and resolution of conflicts between a committed transaction log
//! and a pending change set.
use vstd::prelude::*;

use crate::change_set::{kept_writes, written_coords, ChangeSet, ChunkWrite, NodeChunks};
use crate::format::{
    contains_coord, coords_view, find_path, lookup, paths_view, resolve_path, ChunkIndices,
    NodeId, NodeSnapshot, Path,
};
use crate::transaction_log::TransactionLog;

verus! {

/// A collision that no policy settled, with what a caller needs to report it.
#[derive(Clone, Debug, PartialEq)]
pub enum UnsolvableConflict {
    NoFastForwardConfigured,
    ChunksWrittenToDeletedArrays(Vec<Path>),
    WriteToWrittenChunk(Vec<(Path, usize)>),
    ConflictingUserAttributesUpdate(Vec<Path>),
    ConflictingZarrMetadataUpdate(Vec<Path>),
    ConflictingGroupCreation(Vec<Path>),
    ConflictingArrayCreation(Vec<Path>),
}

/// An [`UnsolvableConflict`] as plain values.
pub ghost enum ConflictView {
    NoFastForwardConfigured,
    ChunksWrittenToDeletedArrays(Seq<Seq<char>>),
    WriteToWrittenChunk(Seq<(Seq<char>, usize)>),
    ConflictingUserAttributesUpdate(Seq<Seq<char>>),
    ConflictingZarrMetadataUpdate(Seq<Seq<char>>),
    ConflictingGroupCreation(Seq<Seq<char>>),
    ConflictingArrayCreation(Seq<Seq<char>>),
}

/// The views of per-path counts.
pub open spec fn counts_view(s: Seq<(Path, usize)>) -> Seq<(Seq<char>, usize)> {
    s.map_values(|e: (Path, usize)| (e.0@, e.1))
}

impl View for UnsolvableConflict {
    type V = ConflictView;

    open spec fn view(&self) -> ConflictView {
        match self {
            UnsolvableConflict::NoFastForwardConfigured => ConflictView::NoFastForwardConfigured,
            UnsolvableConflict::ChunksWrittenToDeletedArrays(p) => {
                ConflictView::ChunksWrittenToDeletedArrays(paths_view(p@))
            },
            UnsolvableConflict::WriteToWrittenChunk(c) => ConflictView::WriteToWrittenChunk(
                counts_view(c@),
            ),
            UnsolvableConflict::ConflictingUserAttributesUpdate(p) => {
                ConflictView::ConflictingUserAttributesUpdate(paths_view(p@))
            },
            UnsolvableConflict::ConflictingZarrMetadataUpdate(p) => {
                ConflictView::ConflictingZarrMetadataUpdate(paths_view(p@))
            },
            UnsolvableConflict::ConflictingGroupCreation(p) => {
                ConflictView::ConflictingGroupCreation(paths_view(p@))
            },
            UnsolvableConflict::ConflictingArrayCreation(p) => {
                ConflictView::ConflictingArrayCreation(paths_view(p@))
            },
        }
    }
}

/// The views of a list of conflicts.
pub open spec fn conflicts_view(s: Seq<UnsolvableConflict>) -> Seq<ConflictView> {
    s.map_values(|c: UnsolvableConflict| c@)
}

/// Outcome of a solver: the change set to commit, or why it cannot be.
#[derive(Clone, Debug, PartialEq)]
pub enum ConflictResolution {
    Patched(ChangeSet),
    Failure { reason: Vec<UnsolvableConflict>, unmodified: ChangeSet },
}

/// Which side wins a conflict of one category.
#[derive(Clone, Copy, Debug, PartialEq, Eq, Structural)]
pub enum VersionSelection {
    Fail,
    Ours,
    Theirs,
}

// ---------------------------------------------------------------------------
// What the detections compute

/// The chunk coordinates that `log` records as written into `node`; none
/// when it records no write there.
pub open spec fn previous_coords(log: TransactionLog, node: NodeId) -> Seq<Seq<u32>> {
    match lookup(log@.updated_chunks, node) {
        Some(c) => c,
        None => Seq::empty(),
    }
}

/// The coordinates of `writes` that are also among `previous`, in order.
pub open spec fn colliding_coords(writes: Seq<ChunkWrite>, previous: Seq<Seq<u32>>) -> Seq<Seq<u32>>
    decreases writes.len(),
{
    if writes.len() == 0 {
        Seq::empty()
    } else {
        let rest = colliding_coords(writes.drop_last(), previous);
        if previous.contains(writes.last().coord@) {
            rest.push(writes.last().coord@)
        } else {
            rest
        }
    }
}

/// The coordinates at which the pending writes `e` collide with `log`.
pub open spec fn entry_collisions(log: TransactionLog, e: NodeChunks) -> Seq<Seq<u32>> {
    colliding_coords(e.writes@, previous_coords(log, e.node))
}

/// Write/write collisions: for each entry of `entries` that collides with
/// `log`, the path of its node in `nodes` and the number of colliding
/// coordinates.
pub open spec fn chunk_collisions(
    log: TransactionLog,
    nodes: Seq<NodeSnapshot>,
    entries: Seq<NodeChunks>,
) -> Seq<(Seq<char>, usize)>
    decreases entries.len(),
{
    if entries.len() == 0 {
        Seq::empty()
    } else {
        let rest = chunk_collisions(log, nodes, entries.drop_last());
        let c = entry_collisions(log, entries.last());
        if c.len() > 0 {
            rest.push((resolve_path(nodes, entries.last().node).unwrap(), c.len() as usize))
        } else {
            rest
        }
    }
}

/// The paths, as `log` records them, of the deleted arrays among `written`.
pub open spec fn deleted_array_writes(log: TransactionLog, written: Seq<NodeId>) -> Seq<Seq<char>>
    decreases written.len(),
{
    if written.len() == 0 {
        Seq::empty()
    } else {
        let rest = deleted_array_writes(log, written.drop_last());
        match lookup(log@.deleted_arrays, written.last()) {
            Some(p) => rest.push(p),
            None => rest,
        }
    }
}

/// The paths in `nodes` of the nodes of `ids` whose attributes `cs` updates too.
pub open spec fn attribute_collisions(
    ids: Seq<NodeId>,
    nodes: Seq<NodeSnapshot>,
    cs: ChangeSet,
) -> Seq<Seq<char>>
    decreases ids.len(),
{
    if ids.len() == 0 {
        Seq::empty()
    } else {
        let rest = attribute_collisions(ids.drop_last(), nodes, cs);
        if cs.attributes_updated(ids.last()) {
            rest.push(resolve_path(nodes, ids.last()).unwrap())
        } else {
            rest
        }
    }
}

/// The paths in `nodes` of the nodes of `ids` whose metadata `cs` updates too.
pub open spec fn metadata_collisions(
    ids: Seq<NodeId>,
    nodes: Seq<NodeSnapshot>,
    cs: ChangeSet,
) -> Seq<Seq<char>>
    decreases ids.len(),
{
    if ids.len() == 0 {
        Seq::empty()
    } else {
        let rest = metadata_collisions(ids.drop_last(), nodes, cs);
        if cs.metadata_updated(ids.last()) {
            rest.push(resolve_path(nodes, ids.last()).unwrap())
        } else {
            rest
        }
    }
}

/// The paths of `created` that are also keys of `previous`.
pub open spec fn creation_collisions(
    created: Seq<Seq<char>>,
    previous: Seq<(Seq<char>, NodeId)>,
) -> Seq<Seq<char>>
    decreases created.len(),
{
    if created.len() == 0 {
        Seq::empty()
    } else {
        let rest = creation_collisions(created.drop_last(), previous);
        if exists|k: int| 0 <= k < previous.len() && previous[k].0 == created.last() {
            rest.push(created.last())
        } else {
            rest
        }
    }
}

/// Every node whose pending chunk writes collide with `log` resolves in the
/// snapshot listing `nodes`.
pub open spec fn chunk_lookups_resolve(
    log: TransactionLog,
    nodes: Seq<NodeSnapshot>,
    cs: ChangeSet,
) -> bool {
    forall|i: int|
        0 <= i < cs.set_chunks@.len() && entry_collisions(log, #[trigger] cs.set_chunks@[i]).len()
            > 0 ==> resolve_path(nodes, cs.set_chunks@[i].node).is_some()
}

/// Every node whose user attributes both `log` and `cs` update resolves in `nodes`.
pub open spec fn attribute_lookups_resolve(
    log: TransactionLog,
    nodes: Seq<NodeSnapshot>,
    cs: ChangeSet,
) -> bool {
    forall|i: int|
        0 <= i < log.updated_user_attributes@.len() && cs.attributes_updated(
            #[trigger] log.updated_user_attributes@[i],
        ) ==> resolve_path(nodes, log.updated_user_attributes@[i]).is_some()
}

/// Every node whose metadata both `log` and `cs` update resolves in `nodes`.
pub open spec fn metadata_lookups_resolve(
    log: TransactionLog,
    nodes: Seq<NodeSnapshot>,
    cs: ChangeSet,
) -> bool {
    forall|i: int|
        0 <= i < log.updated_zarr_metadata@.len() && cs.metadata_updated(
            #[trigger] log.updated_zarr_metadata@[i],
        ) ==> resolve_path(nodes, log.updated_zarr_metadata@[i]).is_some()
}

/// Every node that the detections look up resolves in the snapshot listing
/// `nodes`: the log and the snapshot agree.
pub open spec fn lookups_resolve(log: TransactionLog, nodes: Seq<NodeSnapshot>, cs: ChangeSet) -> bool {
    &&& chunk_lookups_resolve(log, nodes, cs)
    &&& attribute_lookups_resolve(log, nodes, cs)
    &&& metadata_lookups_resolve(log, nodes, cs)
}

/// `p` is `cs` with every pending chunk write that `log` also wrote taken out.
pub open spec fn retracted(log: TransactionLog, cs: ChangeSet, p: ChangeSet) -> bool {
    &&& p.new_groups == cs.new_groups
    &&& p.new_arrays == cs.new_arrays
    &&& p.updated_arrays == cs.updated_arrays
    &&& p.updated_attributes == cs.updated_attributes
    &&& p.deleted_groups == cs.deleted_groups
    &&& p.deleted_arrays == cs.deleted_arrays
    &&& p.set_chunks@.len() == cs.set_chunks@.len()
    &&& forall|i: int|
        0 <= i < cs.set_chunks@.len() ==> {
            &&& (#[trigger] p.set_chunks@[i]).node == cs.set_chunks@[i].node
            &&& p.set_chunks@[i].writes@ == kept_writes(
                cs.set_chunks@[i].writes@,
                previous_coords(log, cs.set_chunks@[i].node),
            )
        }
}

/// The conflicts that the basic solver reports, in order: writes into deleted
/// arrays, then write/write collisions when `on_chunks` is `Fail`.
pub open spec fn basic_reasons(
    on_chunks: VersionSelection,
    log: TransactionLog,
    nodes: Seq<NodeSnapshot>,
    cs: ChangeSet,
) -> Seq<ConflictView> {
    let deleted = deleted_array_writes(log, cs.written_nodes());
    let written = chunk_collisions(log, nodes, cs.set_chunks@);
    let first = if deleted.len() > 0 {
        seq![ConflictView::ChunksWrittenToDeletedArrays(deleted)]
    } else {
        Seq::empty()
    };
    if written.len() > 0 && on_chunks == VersionSelection::Fail {
        first.push(ConflictView::WriteToWrittenChunk(written))
    } else {
        first
    }
}

// ---------------------------------------------------------------------------
// Detections

/// The entry of `log.updated_chunks` for `node`.
fn previous_chunk_updates(log: &TransactionLog, node: NodeId) -> (r: Option<&Vec<ChunkIndices>>)
    ensures
        match r {
            Some(v) => lookup(log@.updated_chunks, node) == Some(coords_view(v@)),
            None => lookup(log@.updated_chunks, node).is_none(),
        },
{
    let ghost entries = log@.updated_chunks;
    let mut i: usize = 0;
    assert(entries.skip(0) =~= entries);
    while i < log.updated_chunks.len()
        invariant
            entries == log@.updated_chunks,
            i <= entries.len(),
            lookup(entries.skip(i as int), node) == lookup(entries, node),
        decreases entries.len() - i,
    {
        assert(entries.skip(i as int).drop_first() =~= entries.skip(i + 1));
        if log.updated_chunks[i].0 == node {
            return Some(&log.updated_chunks[i].1);
        }
        i += 1;
    }
    assert(entries.skip(i as int).len() == 0);
    None
}

/// The coordinates that `log` records as written into `node`, or `empty`
/// when it records none.
fn previous_or_empty<'a>(
    log: &'a TransactionLog,
    node: NodeId,
    empty: &'a Vec<ChunkIndices>,
) -> (r: &'a Vec<ChunkIndices>)
    requires
        empty@ == Seq::<ChunkIndices>::empty(),
    ensures
        coords_view(r@) == previous_coords(*log, node),
{
    match previous_chunk_updates(log, node) {
        Some(p) => p,
        None => {
            assert(coords_view(empty@) =~= Seq::<Seq<u32>>::empty());
            empty
        },
    }
}

/// The path that `log.deleted_arrays` records for `node`.
fn deleted_array_path(log: &TransactionLog, node: NodeId) -> (r: Option<Path>)
    ensures
        match r {
            Some(p) => lookup(log@.deleted_arrays, node) == Some(p@),
            None => lookup(log@.deleted_arrays, node).is_none(),
        },
{
    let ghost entries = log@.deleted_arrays;
    let mut i: usize = 0;
    assert(entries.skip(0) =~= entries);
    while i < log.deleted_arrays.len()
        invariant
            entries == log@.deleted_arrays,
            i <= entries.len(),
            lookup(entries.skip(i as int), node) == lookup(entries, node),
        decreases entries.len() - i,
    {
        assert(entries.skip(i as int).drop_first() =~= entries.skip(i + 1));
        if log.deleted_arrays[i].0 == node {
            return Some(log.deleted_arrays[i].1.clone());
        }
        i += 1;
    }
    assert(entries.skip(i as int).len() == 0);
    None
}

/// Pending writes into arrays that `log` deleted: the paths it records for them.
pub fn chunks_written_to_deleted_arrays(log: &TransactionLog, cs: &ChangeSet) -> (r: Vec<Path>)
    ensures
        paths_view(r@) == deleted_array_writes(*log, cs.written_nodes()),
{
    let written = cs.written_arrays();
    let mut r: Vec<Path> = Vec::new();
    let mut i: usize = 0;
    while i < written.len()
        invariant
            written@ == cs.written_nodes(),
            i <= written@.len(),
            paths_view(r@) == deleted_array_writes(*log, written@.take(i as int)),
        decreases written@.len() - i,
    {
        assert(written@.take(i + 1).drop_last() =~= written@.take(i as int));
        let ghost before = r@;
        match deleted_array_path(log, written[i]) {
            Some(p) => {
                r.push(p);
                assert(paths_view(r@) =~= paths_view(before).push(r@[r@.len() - 1]@));
            },
            None => {},
        }
        i += 1;
    }
    assert(written@.take(i as int) =~= written@);
    r
}

/// The coordinates of `writes` that are among `previous`.
pub fn colliding_indices(writes: &Vec<ChunkWrite>, previous: &Vec<ChunkIndices>) -> (r: Vec<
    ChunkIndices,
>)
    ensures
        coords_view(r@) == colliding_coords(writes@, coords_view(previous@)),
{
    let ghost prev = coords_view(previous@);
    let mut r: Vec<ChunkIndices> = Vec::new();
    let mut i: usize = 0;
    while i < writes.len()
        invariant
            prev == coords_view(previous@),
            i <= writes@.len(),
            coords_view(r@) == colliding_coords(writes@.take(i as int), prev),
        decreases writes@.len() - i,
    {
        assert(writes@.take(i + 1).drop_last() =~= writes@.take(i as int));
        if contains_coord(previous, &writes[i].coord) {
            let ghost before = r@;
            r.push(writes[i].coord.duplicate());
            assert(coords_view(r@) =~= coords_view(before).push(writes@[i as int].coord@));
        }
        i += 1;
    }
    assert(writes@.take(i as int) =~= writes@);
    r
}

/// Write/write collisions between the pending chunk writes of `cs` and those
/// recorded in `log`, with each node's path in the snapshot `nodes`.
pub fn write_to_written_chunks(
    log: &TransactionLog,
    nodes: &Vec<NodeSnapshot>,
    cs: &ChangeSet,
) -> (r: Vec<(Path, usize)>)
    requires
        chunk_lookups_resolve(*log, nodes@, *cs),
    ensures
        counts_view(r@) == chunk_collisions(*log, nodes@, cs.set_chunks@),
{
    let no_previous: Vec<ChunkIndices> = Vec::new();
    let mut r: Vec<(Path, usize)> = Vec::new();
    let mut i: usize = 0;
    while i < cs.set_chunks.len()
        invariant
            chunk_lookups_resolve(*log, nodes@, *cs),
            no_previous@ == Seq::<ChunkIndices>::empty(),
            i <= cs.set_chunks@.len(),
            counts_view(r@) == chunk_collisions(*log, nodes@, cs.set_chunks@.take(i as int)),
        decreases cs.set_chunks@.len() - i,
    {
        let ghost e = cs.set_chunks@[i as int];
        assert(cs.set_chunks@.take(i + 1).drop_last() =~= cs.set_chunks@.take(i as int));
        assert(cs.set_chunks@.take(i + 1).last() == e);
        let previous = previous_or_empty(log, cs.set_chunks[i].node, &no_previous);
        let conflicts = colliding_indices(&cs.set_chunks[i].writes, previous);
        if conflicts.len() > 0 {
            assert(entry_collisions(*log, e).len() > 0);
            let path = find_path(cs.set_chunks[i].node, nodes);
            match path {
                Some(p) => {
                    let ghost before = r@;
                    r.push((p, conflicts.len()));
                    assert(counts_view(r@) =~= counts_view(before).push(
                        (resolve_path(nodes@, e.node).unwrap(), conflicts@.len() as usize),
                    ));
                },
                None => {},
            }
        }
        i += 1;
    }
    assert(cs.set_chunks@.take(i as int) =~= cs.set_chunks@);
    r
}

/// Nodes whose user attributes both `log` and `cs` update, by path in `nodes`.
pub fn both_updated_attributes(
    log: &TransactionLog,
    nodes: &Vec<NodeSnapshot>,
    cs: &ChangeSet,
) -> (r: Vec<Path>)
    requires
        attribute_lookups_resolve(*log, nodes@, *cs),
    ensures
        paths_view(r@) == attribute_collisions(log.updated_user_attributes@, nodes@, *cs),
{
    let ghost ids = log.updated_user_attributes@;
    let mut r: Vec<Path> = Vec::new();
    let mut i: usize = 0;
    while i < log.updated_user_attributes.len()
        invariant
            attribute_lookups_resolve(*log, nodes@, *cs),
            ids == log.updated_user_attributes@,
            i <= ids.len(),
            paths_view(r@) == attribute_collisions(ids.take(i as int), nodes@, *cs),
        decreases ids.len() - i,
    {
        assert(ids.take(i + 1).drop_last() =~= ids.take(i as int));
        let node = log.updated_user_attributes[i];
        if cs.has_updated_attributes(node) {
            match find_path(node, nodes) {
                Some(p) => {
                    let ghost before = r@;
                    r.push(p);
                    assert(paths_view(r@) =~= paths_view(before).push(r@[r@.len() - 1]@));
                },
                None => {},
            }
        }
        i += 1;
    }
    assert(ids.take(i as int) =~= ids);
    r
}

/// Nodes whose metadata both `log` and `cs` update, by path in `nodes`.
pub fn both_updated_zarr_metadata(
    log: &TransactionLog,
    nodes: &Vec<NodeSnapshot>,
    cs: &ChangeSet,
) -> (r: Vec<Path>)
    requires
        metadata_lookups_resolve(*log, nodes@, *cs),
    ensures
        paths_view(r@) == metadata_collisions(log.updated_zarr_metadata@, nodes@, *cs),
{
    let ghost ids = log.updated_zarr_metadata@;
    let mut r: Vec<Path> = Vec::new();
    let mut i: usize = 0;
    while i < log.updated_zarr_metadata.len()
        invariant
            metadata_lookups_resolve(*log, nodes@, *cs),
            ids == log.updated_zarr_metadata@,
            i <= ids.len(),
            paths_view(r@) == metadata_collisions(ids.take(i as int), nodes@, *cs),
        decreases ids.len() - i,
    {
        assert(ids.take(i + 1).drop_last() =~= ids.take(i as int));
        let node = log.updated_zarr_metadata[i];
        if cs.get_updated_zarr_metadata(node).is_some() {
            match find_path(node, nodes) {
                Some(p) => {
                    let ghost before = r@;
                    r.push(p);
                    assert(paths_view(r@) =~= paths_view(before).push(r@[r@.len() - 1]@));
                },
                None => {},
            }
        }
        i += 1;
    }
    assert(ids.take(i as int) =~= ids);
    r
}

/// Whether `p` is a key of `entries`.
fn has_path_key(entries: &Vec<(Path, NodeId)>, p: &Path) -> (r: bool)
    ensures
        r == exists|k: int| 0 <= k < entries@.len() && entries@[k].0@ == p@,
{
    let mut i: usize = 0;
    while i < entries.len()
        invariant
            i <= entries@.len(),
            forall|k: int| 0 <= k < i ==> entries@[k].0@ != p@,
        decreases entries@.len() - i,
    {
        if entries[i].0 == *p {
            return true;
        }
        i += 1;
    }
    false
}

/// The paths of the groups that `cs` creates.
pub open spec fn new_group_paths(cs: ChangeSet) -> Seq<Seq<char>> {
    cs.new_groups@.map_values(|e: (Path, NodeId)| e.0@)
}

/// The paths of the arrays that `cs` creates.
pub open spec fn new_array_paths(cs: ChangeSet) -> Seq<Seq<char>> {
    cs.new_arrays@.map_values(|e: (Path, NodeId, Vec<u8>)| e.0@)
}

/// Paths at which both `log` and `cs` create a group.
pub fn both_created_groups(log: &TransactionLog, cs: &ChangeSet) -> (r: Vec<Path>)
    ensures
        paths_view(r@) == creation_collisions(new_group_paths(*cs), log@.new_groups),
{
    let ghost created = new_group_paths(*cs);
    let mut r: Vec<Path> = Vec::new();
    let mut i: usize = 0;
    while i < cs.new_groups.len()
        invariant
            created == new_group_paths(*cs),
            i <= created.len(),
            paths_view(r@) == creation_collisions(created.take(i as int), log@.new_groups),
        decreases created.len() - i,
    {
        assert(created.take(i + 1).drop_last() =~= created.take(i as int));
        let found = has_path_key(&log.new_groups, &cs.new_groups[i].0);
        assert(found == exists|k: int|
            0 <= k < log@.new_groups.len() && log@.new_groups[k].0 == created[i as int]) by {
            if found {
                let k = choose|k: int|
                    0 <= k < log.new_groups@.len() && log.new_groups@[k].0@ == cs.new_groups@[i as int].0@;
                assert(log@.new_groups[k].0 == created[i as int]);
            }
        }
        if found {
            let ghost before = r@;
            r.push(cs.new_groups[i].0.clone());
            assert(paths_view(r@) =~= paths_view(before).push(created[i as int]));
        }
        i += 1;
    }
    assert(created.take(i as int) =~= created);
    r
}

/// Paths at which both `log` and `cs` create an array.
pub fn both_created_arrays(log: &TransactionLog, cs: &ChangeSet) -> (r: Vec<Path>)
    ensures
        paths_view(r@) == creation_collisions(new_array_paths(*cs), log@.new_arrays),
{
    let ghost created = new_array_paths(*cs);
    let mut r: Vec<Path> = Vec::new();
    let mut i: usize = 0;
    while i < cs.new_arrays.len()
        invariant
            created == new_array_paths(*cs),
            i <= created.len(),
            paths_view(r@) == creation_collisions(created.take(i as int), log@.new_arrays),
        decreases created.len() - i,
    {
        assert(created.take(i + 1).drop_last() =~= created.take(i as int));
        let found = has_path_key(&log.new_arrays, &cs.new_arrays[i].0);
        assert(found == exists|k: int|
            0 <= k < log@.new_arrays.len() && log@.new_arrays[k].0 == created[i as int]) by {
            if found {
                let k = choose|k: int|
                    0 <= k < log.new_arrays@.len() && log.new_arrays@[k].0@ == cs.new_arrays@[i as int].0@;
                assert(log@.new_arrays[k].0 == created[i as int]);
            }
        }
        if found {
            let ghost before = r@;
            r.push(cs.new_arrays[i].0.clone());
            assert(paths_view(r@) =~= paths_view(before).push(created[i as int]));
        }
        i += 1;
    }
    assert(created.take(i as int) =~= created);
    r
}

/// The writes of `writes` whose coordinates are not among `previous`, in order.
fn keep_outside(writes: Vec<ChunkWrite>, previous: &Vec<ChunkIndices>) -> (r: Vec<ChunkWrite>)
    ensures
        r@ == kept_writes(writes@, coords_view(previous@)),
{
    let ghost all = writes@;
    let ghost prev = coords_view(previous@);
    let mut rest = writes;
    let mut r: Vec<ChunkWrite> = Vec::new();
    let mut i: usize = 0;
    assert(all.skip(0) =~= all);
    assert(all.len() == rest.len());
    while rest.len() > 0
        invariant
            all.len() <= usize::MAX,
            prev == coords_view(previous@),
            i <= all.len(),
            rest@ == all.skip(i as int),
            r@ == kept_writes(all.take(i as int), prev),
        decreases rest@.len(),
    {
        assert(all.take(i + 1).drop_last() =~= all.take(i as int));
        let w = rest.remove(0);
        assert(w == all[i as int]);
        assert(rest@ =~= all.skip(i + 1));
        if !contains_coord(previous, &w.coord) {
            r.push(w);
        }
        i += 1;
    }
    assert(all.take(i as int) =~= all);
    r
}

/// Takes out of `cs` every pending chunk write that `log` also wrote.
fn retract_previous_writes(cs: &mut ChangeSet, log: &TransactionLog)
    ensures
        retracted(*log, *old(cs), *final(cs)),
{
    let ghost orig = cs.set_chunks@;
    let mut entries: Vec<NodeChunks> = Vec::new();
    std::mem::swap(&mut entries, &mut cs.set_chunks);
    let no_previous: Vec<ChunkIndices> = Vec::new();
    let mut out: Vec<NodeChunks> = Vec::new();
    assert(orig.skip(0) =~= orig);
    while entries.len() > 0
        invariant
            no_previous@ == Seq::<ChunkIndices>::empty(),
            out@.len() <= orig.len(),
            entries@ == orig.skip(out@.len() as int),
            forall|k: int|
                0 <= k < out@.len() ==> {
                    &&& (#[trigger] out@[k]).node == orig[k].node
                    &&& out@[k].writes@ == kept_writes(
                        orig[k].writes@,
                        previous_coords(*log, orig[k].node),
                    )
                },
        decreases entries@.len(),
    {
        let ghost k = out@.len() as int;
        let e = entries.remove(0);
        assert(e == orig[k]);
        assert(entries@ =~= orig.skip(k + 1));
        let previous = previous_or_empty(log, e.node, &no_previous);
        let node = e.node;
        let writes = keep_outside(e.writes, previous);
        out.push(NodeChunks { node, writes });
    }
    cs.set_chunks = out;
}

/// Whether every node that the detections look up resolves in `nodes`.
pub fn snapshot_resolves_lookups(
    log: &TransactionLog,
    nodes: &Vec<NodeSnapshot>,
    cs: &ChangeSet,
) -> (r: bool)
    ensures
        r == lookups_resolve(*log, nodes@, *cs),
{
    let no_previous: Vec<ChunkIndices> = Vec::new();
    let mut i: usize = 0;
    while i < cs.set_chunks.len()
        invariant
            no_previous@ == Seq::<ChunkIndices>::empty(),
            i <= cs.set_chunks@.len(),
            forall|k: int|
                0 <= k < i && entry_collisions(*log, #[trigger] cs.set_chunks@[k]).len() > 0
                    ==> resolve_path(nodes@, cs.set_chunks@[k].node).is_some(),
        decreases cs.set_chunks@.len() - i,
    {
        let ghost e = cs.set_chunks@[i as int];
        let previous = previous_or_empty(log, cs.set_chunks[i].node, &no_previous);
        let conflicts = colliding_indices(&cs.set_chunks[i].writes, previous);
        if conflicts.len() > 0 && find_path(cs.set_chunks[i].node, nodes).is_none() {
            assert(entry_collisions(*log, cs.set_chunks@[i as int]).len() > 0);
            return false;
        }
        i += 1;
    }
    let mut i: usize = 0;
    while i < log.updated_user_attributes.len()
        invariant
            i <= log.updated_user_attributes@.len(),
            forall|k: int|
                0 <= k < cs.set_chunks@.len() && entry_collisions(
                    *log,
                    #[trigger] cs.set_chunks@[k],
                ).len() > 0 ==> resolve_path(nodes@, cs.set_chunks@[k].node).is_some(),
            forall|k: int|
                0 <= k < i && cs.attributes_updated(#[trigger] log.updated_user_attributes@[k])
                    ==> resolve_path(nodes@, log.updated_user_attributes@[k]).is_some(),
        decreases log.updated_user_attributes@.len() - i,
    {
        let node = log.updated_user_attributes[i];
        if cs.has_updated_attributes(node) && find_path(node, nodes).is_none() {
            return false;
        }
        i += 1;
    }
    let mut i: usize = 0;
    while i < log.updated_zarr_metadata.len()
        invariant
            i <= log.updated_zarr_metadata@.len(),
            forall|k: int|
                0 <= k < cs.set_chunks@.len() && entry_collisions(
                    *log,
                    #[trigger] cs.set_chunks@[k],
                ).len() > 0 ==> resolve_path(nodes@, cs.set_chunks@[k].node).is_some(),
            forall|k: int|
                0 <= k < log.updated_user_attributes@.len() && cs.attributes_updated(
                    #[trigger] log.updated_user_attributes@[k],
                ) ==> resolve_path(nodes@, log.updated_user_attributes@[k]).is_some(),
            forall|k: int|
                0 <= k < i && cs.metadata_updated(#[trigger] log.updated_zarr_metadata@[k])
                    ==> resolve_path(nodes@, log.updated_zarr_metadata@[k]).is_some(),
        decreases log.updated_zarr_metadata@.len() - i,
    {
        let node = log.updated_zarr_metadata[i];
        if cs.get_updated_zarr_metadata(node).is_some() && find_path(node, nodes).is_none() {
            return false;
        }
        i += 1;
    }
    true
}

// ---------------------------------------------------------------------------
// Solvers

/// A policy that decides whether a pending change set can be committed on top
/// of a commit made meanwhile by another writer.
pub trait ConflictSolver {
    /// What `solve` asks of its inputs.
    spec fn solvable(&self, log: TransactionLog, nodes: Seq<NodeSnapshot>, cs: ChangeSet) -> bool;

    /// Whether `solve` may be called on these inputs.
    fn can_solve(
        &self,
        previous_change: &TransactionLog,
        previous_nodes: &Vec<NodeSnapshot>,
        current_changes: &ChangeSet,
    ) -> (r: bool)
        ensures
            r == self.solvable(*previous_change, previous_nodes@, *current_changes),
    ;

    /// Compares `current_changes` with `previous_change`, the log of the
    /// commit made meanwhile, whose snapshot lists the live nodes
    /// `previous_nodes`; the inputs must be `solvable` for this solver.
    fn solve(
        &self,
        previous_change: &TransactionLog,
        previous_nodes: &Vec<NodeSnapshot>,
        current_changes: ChangeSet,
    ) -> (r: ConflictResolution)
        requires
            self.solvable(*previous_change, previous_nodes@, current_changes),
    ;
}

/// Strictly linear history: a commit made meanwhile always fails the pending one.
pub struct NoFastForward();

impl ConflictSolver for NoFastForward {
    /// Any inputs: nothing is looked up.
    open spec fn solvable(&self, log: TransactionLog, nodes: Seq<NodeSnapshot>, cs: ChangeSet) -> bool {
        true
    }

    fn can_solve(
        &self,
        previous_change: &TransactionLog,
        previous_nodes: &Vec<NodeSnapshot>,
        current_changes: &ChangeSet,
    ) -> (r: bool) {
        true
    }

    fn solve(
        &self,
        previous_change: &TransactionLog,
        previous_nodes: &Vec<NodeSnapshot>,
        current_changes: ChangeSet,
    ) -> (r: ConflictResolution)
        ensures
            match r {
                ConflictResolution::Failure { reason, unmodified } => {
                    &&& conflicts_view(reason@) == seq![ConflictView::NoFastForwardConfigured]
                    &&& unmodified == current_changes
                },
                ConflictResolution::Patched(_) => false,
            },
    {
        let reason = vec![UnsolvableConflict::NoFastForwardConfigured];
        assert(conflicts_view(reason@) =~= seq![ConflictView::NoFastForwardConfigured]);
        ConflictResolution::Failure { reason, unmodified: current_changes }
    }
}

/// A policy chosen per category of conflict.
///
/// Only the chunk-write policy takes effect. Concurrent updates of user
/// attributes or of array metadata, and concurrent creation of a group or an
/// array at one path, are detected but not yet enforced: the other four
/// policies are kept for when they are.
#[derive(Clone, Debug, PartialEq)]
pub struct BasicConflictSolver {
    pub on_chunk_write_conflicts: VersionSelection,
    pub on_user_attributes_conflict: VersionSelection,
    pub on_zarr_metadata_conflict: VersionSelection,
    pub on_group_creation_conflict: VersionSelection,
    pub on_array_creation_conflict: VersionSelection,
}

impl Default for BasicConflictSolver {
    fn default() -> (r: Self)
        ensures
            r.on_chunk_write_conflicts == VersionSelection::Fail,
            r.on_user_attributes_conflict == VersionSelection::Fail,
            r.on_zarr_metadata_conflict == VersionSelection::Fail,
            r.on_group_creation_conflict == VersionSelection::Fail,
            r.on_array_creation_conflict == VersionSelection::Fail,
    {
        BasicConflictSolver {
            on_chunk_write_conflicts: VersionSelection::Fail,
            on_user_attributes_conflict: VersionSelection::Fail,
            on_zarr_metadata_conflict: VersionSelection::Fail,
            on_group_creation_conflict: VersionSelection::Fail,
            on_array_creation_conflict: VersionSelection::Fail,
        }
    }
}

impl BasicConflictSolver {
    /// What `solve` returns for `cs` against `log` and `nodes`: a failure with
    /// the reported conflicts and `cs` unchanged when there is any; else, under
    /// `Theirs` with colliding chunk writes, `cs` with those writes taken out;
    /// else `cs` itself.
    pub open spec fn outcome(
        &self,
        log: TransactionLog,
        nodes: Seq<NodeSnapshot>,
        cs: ChangeSet,
        r: ConflictResolution,
    ) -> bool {
        let reasons = basic_reasons(self.on_chunk_write_conflicts, log, nodes, cs);
        if reasons.len() > 0 {
            match r {
                ConflictResolution::Failure { reason, unmodified } => {
                    &&& conflicts_view(reason@) == reasons
                    &&& unmodified == cs
                },
                ConflictResolution::Patched(_) => false,
            }
        } else if self.on_chunk_write_conflicts == VersionSelection::Theirs && chunk_collisions(
            log,
            nodes,
            cs.set_chunks@,
        ).len() > 0 {
            match r {
                ConflictResolution::Patched(p) => retracted(log, cs, p),
                ConflictResolution::Failure { .. } => false,
            }
        } else {
            r == ConflictResolution::Patched(cs)
        }
    }
}

impl ConflictSolver for BasicConflictSolver {
    /// Every node that the detections look up resolves in the listing.
    open spec fn solvable(&self, log: TransactionLog, nodes: Seq<NodeSnapshot>, cs: ChangeSet) -> bool {
        lookups_resolve(log, nodes, cs)
    }

    fn can_solve(
        &self,
        previous_change: &TransactionLog,
        previous_nodes: &Vec<NodeSnapshot>,
        current_changes: &ChangeSet,
    ) -> (r: bool) {
        snapshot_resolves_lookups(previous_change, previous_nodes, current_changes)
    }

    fn solve(
        &self,
        previous_change: &TransactionLog,
        previous_nodes: &Vec<NodeSnapshot>,
        current_changes: ChangeSet,
    ) -> (r: ConflictResolution)
        ensures
            self.outcome(*previous_change, previous_nodes@, current_changes, r),
    {
        let ghost cs = current_changes;
        let mut current_changes = current_changes;
        let deleted = chunks_written_to_deleted_arrays(previous_change, &current_changes);
        let written = write_to_written_chunks(previous_change, previous_nodes, &current_changes);

        // Detected but not enforced: these categories do not yet contribute
        // to the outcome, whatever their policy says.
        let _attributes = both_updated_attributes(
            previous_change,
            previous_nodes,
            &current_changes,
        );
        let _metadata = both_updated_zarr_metadata(
            previous_change,
            previous_nodes,
            &current_changes,
        );
        let _groups = both_created_groups(previous_change, &current_changes);
        let _arrays = both_created_arrays(previous_change, &current_changes);

        let ghost deleted_v = deleted_array_writes(*previous_change, cs.written_nodes());
        let ghost written_v = chunk_collisions(*previous_change, previous_nodes@, cs.set_chunks@);
        let mut conflicts: Vec<UnsolvableConflict> = Vec::new();
        if deleted.len() > 0 {
            conflicts.push(UnsolvableConflict::ChunksWrittenToDeletedArrays(deleted));
            assert(conflicts_view(conflicts@) =~= seq![
                ConflictView::ChunksWrittenToDeletedArrays(deleted_v),
            ]);
        } else {
            assert(conflicts_view(conflicts@) =~= Seq::<ConflictView>::empty());
        }
        let ghost first = conflicts@;
        let mut retract = false;
        if written.len() > 0 {
            match self.on_chunk_write_conflicts {
                VersionSelection::Fail => {
                    conflicts.push(UnsolvableConflict::WriteToWrittenChunk(written));
                    assert(conflicts_view(conflicts@) =~= conflicts_view(first).push(
                        ConflictView::WriteToWrittenChunk(written_v),
                    ));
                },
                VersionSelection::Ours => {
                    // The pending writes win as they stand.
                },
                VersionSelection::Theirs => {
                    retract = true;
                },
            }
        }
        if conflicts.len() == 0 {
            if retract {
                retract_previous_writes(&mut current_changes, previous_change);
            }
            ConflictResolution::Patched(current_changes)
        } else {
            ConflictResolution::Failure { reason: conflicts, unmodified: current_changes }
        }
    }
}

// ---------------------------------------------------------------------------
// Laws

/// No coordinate collides exactly when no write's coordinates are among `previous`.
pub proof fn lemma_colliding_empty(writes: Seq<ChunkWrite>, previous: Seq<Seq<u32>>)
    ensures
        colliding_coords(writes, previous).len() == 0 <==> forall|j: int|
            0 <= j < writes.len() ==> !previous.contains(#[trigger] writes[j].coord@),
    decreases writes.len(),
{
    if writes.len() > 0 {
        let d = writes.drop_last();
        lemma_colliding_empty(d, previous);
        assert(writes.last() == writes[writes.len() - 1]);
        if forall|j: int| 0 <= j < writes.len() ==> !previous.contains(#[trigger] writes[j].coord@) {
            assert forall|j: int| 0 <= j < d.len() implies !previous.contains(
                #[trigger] d[j].coord@,
            ) by {
                assert(d[j] == writes[j]);
            }
        }
        if colliding_coords(writes, previous).len() == 0 {
            assert forall|j: int| 0 <= j < writes.len() implies !previous.contains(
                #[trigger] writes[j].coord@,
            ) by {
                if j < d.len() {
                    assert(d[j] == writes[j]);
                }
            }
        }
    }
}

/// No entry is reported exactly when no entry collides.
pub proof fn lemma_chunk_collisions_empty(
    log: TransactionLog,
    nodes: Seq<NodeSnapshot>,
    entries: Seq<NodeChunks>,
)
    ensures
        chunk_collisions(log, nodes, entries).len() == 0 <==> forall|i: int|
            0 <= i < entries.len() ==> entry_collisions(log, #[trigger] entries[i]).len() == 0,
    decreases entries.len(),
{
    if entries.len() > 0 {
        let d = entries.drop_last();
        lemma_chunk_collisions_empty(log, nodes, d);
        assert(forall|i: int| 0 <= i < d.len() ==> d[i] == entries[i]);
        assert(entries.last() == entries[entries.len() - 1]);
    }
}

/// No deleted array is written exactly when none of `written` is deleted.
pub proof fn lemma_deleted_array_writes_empty(log: TransactionLog, written: Seq<NodeId>)
    ensures
        deleted_array_writes(log, written).len() == 0 <==> forall|i: int|
            0 <= i < written.len() ==> lookup(log@.deleted_arrays, #[trigger] written[i]).is_none(),
    decreases written.len(),
{
    if written.len() > 0 {
        let d = written.drop_last();
        lemma_deleted_array_writes_empty(log, d);
        assert(forall|i: int| 0 <= i < d.len() ==> d[i] == written[i]);
        assert(written.last() == written[written.len() - 1]);
    }
}

/// With every policy `Fail`, a change set that writes no chunk into an array
/// that the log deleted, and no chunk that the log wrote, comes back patched
/// and unchanged.
pub proof fn lemma_disjoint_changes_pass_unchanged(
    solver: BasicConflictSolver,
    log: TransactionLog,
    nodes: Seq<NodeSnapshot>,
    cs: ChangeSet,
    r: ConflictResolution,
)
    requires
        solver.on_chunk_write_conflicts == VersionSelection::Fail,
        solver.on_user_attributes_conflict == VersionSelection::Fail,
        solver.on_zarr_metadata_conflict == VersionSelection::Fail,
        solver.on_group_creation_conflict == VersionSelection::Fail,
        solver.on_array_creation_conflict == VersionSelection::Fail,
        forall|i: int|
            0 <= i < cs.set_chunks@.len() ==> lookup(
                log@.deleted_arrays,
                (#[trigger] cs.set_chunks@[i]).node,
            ).is_none(),
        forall|i: int, j: int|
            0 <= i < cs.set_chunks@.len() && 0 <= j < cs.set_chunks@[i].writes@.len()
                ==> !previous_coords(log, cs.set_chunks@[i].node).contains(
                #[trigger] cs.set_chunks@[i].writes@[j].coord@,
            ),
        solver.outcome(log, nodes, cs, r),
    ensures
        r == ConflictResolution::Patched(cs),
{
    lemma_deleted_array_writes_empty(log, cs.written_nodes());
    assert forall|i: int| 0 <= i < cs.set_chunks@.len() implies entry_collisions(
        log,
        #[trigger] cs.set_chunks@[i],
    ).len() == 0 by {
        let e = cs.set_chunks@[i];
        lemma_colliding_empty(e.writes@, previous_coords(log, e.node));
        assert forall|j: int| 0 <= j < e.writes@.len() implies !previous_coords(
            log,
            e.node,
        ).contains(#[trigger] e.writes@[j].coord@) by {
            assert(cs.set_chunks@[i].writes@[j] == e.writes@[j]);
        }
    }
    lemma_chunk_collisions_empty(log, nodes, cs.set_chunks@);
}

/// Under `Theirs`, a patched change set holds no pending write at a chunk that
/// the log wrote into the same node, and keeps every other pending write.
pub proof fn lemma_theirs_retracts_exactly_collisions(
    solver: BasicConflictSolver,
    log: TransactionLog,
    nodes: Seq<NodeSnapshot>,
    cs: ChangeSet,
    p: ChangeSet,
)
    requires
        solver.on_chunk_write_conflicts == VersionSelection::Theirs,
        solver.outcome(log, nodes, cs, ConflictResolution::Patched(p)),
    ensures
        p.set_chunks@.len() == cs.set_chunks@.len(),
        forall|i: int|
            0 <= i < cs.set_chunks@.len() ==> (#[trigger] p.set_chunks@[i]).node
                == cs.set_chunks@[i].node,
        forall|i: int, w: ChunkWrite|
            0 <= i < cs.set_chunks@.len() ==> (#[trigger] p.set_chunks@[i].writes@.contains(w) <==> (
            cs.set_chunks@[i].writes@.contains(w) && !previous_coords(
                log,
                cs.set_chunks@[i].node,
            ).contains(w.coord@))),
{
    if chunk_collisions(log, nodes, cs.set_chunks@).len() > 0 {
        assert forall|i: int, w: ChunkWrite| 0 <= i < cs.set_chunks@.len() implies (
        #[trigger] p.set_chunks@[i].writes@.contains(w) <==> (cs.set_chunks@[i].writes@.contains(w)
            && !previous_coords(log, cs.set_chunks@[i].node).contains(w.coord@))) by {
            crate::change_set::lemma_kept_writes(
                cs.set_chunks@[i].writes@,
                previous_coords(log, cs.set_chunks@[i].node),
                w,
            );
        }
    } else {
        lemma_chunk_collisions_empty(log, nodes, cs.set_chunks@);
        assert forall|i: int, w: ChunkWrite| 0 <= i < cs.set_chunks@.len() implies (
        #[trigger] p.set_chunks@[i].writes@.contains(w) <==> (cs.set_chunks@[i].writes@.contains(w)
            && !previous_coords(log, cs.set_chunks@[i].node).contains(w.coord@))) by {
            let e = cs.set_chunks@[i];
            assert(entry_collisions(log, e).len() == 0);
            lemma_colliding_empty(e.writes@, previous_coords(log, e.node));
            if e.writes@.contains(w) {
                let j = choose|j: int| 0 <= j < e.writes@.len() && e.writes@[j] == w;
                assert(!previous_coords(log, e.node).contains(e.writes@[j].coord@));
            }
        }
    }
}

/// Under `Ours`, write/write collisions are never reported and the pending
/// writes are never changed: a patched change set is the input itself.
pub proof fn lemma_ours_keeps_pending_writes(
    solver: BasicConflictSolver,
    log: TransactionLog,
    nodes: Seq<NodeSnapshot>,
    cs: ChangeSet,
    r: ConflictResolution,
)
    requires
        solver.on_chunk_write_conflicts == VersionSelection::Ours,
        solver.outcome(log, nodes, cs, r),
    ensures
        match r {
            ConflictResolution::Patched(p) => p == cs,
            ConflictResolution::Failure { reason, unmodified } => {
                &&& unmodified == cs
                &&& forall|k: int|
                    0 <= k < reason@.len() ==> !(#[trigger] conflicts_view(
                        reason@,
                    )[k] is WriteToWrittenChunk)
            },
        },
{
}

/// Under `Fail`, write/write collisions fail the change set, reported last as
/// one entry per colliding node: its path and its number of colliding chunks.
/// The change set comes back unmodified.
pub proof fn lemma_fail_reports_collisions(
    solver: BasicConflictSolver,
    log: TransactionLog,
    nodes: Seq<NodeSnapshot>,
    cs: ChangeSet,
    r: ConflictResolution,
)
    requires
        solver.on_chunk_write_conflicts == VersionSelection::Fail,
        chunk_collisions(log, nodes, cs.set_chunks@).len() > 0,
        solver.outcome(log, nodes, cs, r),
    ensures
        match r {
            ConflictResolution::Patched(_) => false,
            ConflictResolution::Failure { reason, unmodified } => {
                &&& unmodified == cs
                &&& conflicts_view(reason@).last() == ConflictView::WriteToWrittenChunk(
                    chunk_collisions(log, nodes, cs.set_chunks@),
                )
            },
        },
{
}

/// Writes into an array that the log deleted fail the change set whatever the
/// policies, reported first, with the paths the log records.
pub proof fn lemma_deleted_array_writes_always_fail(
    solver: BasicConflictSolver,
    log: TransactionLog,
    nodes: Seq<NodeSnapshot>,
    cs: ChangeSet,
    r: ConflictResolution,
)
    requires
        deleted_array_writes(log, cs.written_nodes()).len() > 0,
        solver.outcome(log, nodes, cs, r),
    ensures
        match r {
            ConflictResolution::Patched(_) => false,
            ConflictResolution::Failure { reason, unmodified } => {
                &&& unmodified == cs
                &&& conflicts_view(reason@)[0] == ConflictView::ChunksWrittenToDeletedArrays(
                    deleted_array_writes(log, cs.written_nodes()),
                )
            },
        },
{
}

/// The distinct coordinates at which the pending writes `e` collide with `log`.
pub open spec fn colliding_set(log: TransactionLog, e: NodeChunks) -> Set<Seq<u32>> {
    written_coords(e.writes@).to_set().filter(|c: Seq<u32>| previous_coords(log, e.node).contains(c))
}

/// A coordinate collides exactly when it is written and `previous` holds it.
pub proof fn lemma_colliding_coords_contains(
    writes: Seq<ChunkWrite>,
    previous: Seq<Seq<u32>>,
    c: Seq<u32>,
)
    ensures
        colliding_coords(writes, previous).contains(c) <==> (written_coords(writes).contains(c)
            && previous.contains(c)),
    decreases writes.len(),
{
    if writes.len() > 0 {
        let d = writes.drop_last();
        lemma_colliding_coords_contains(d, previous, c);
        let rest = colliding_coords(d, previous);
        assert(written_coords(writes) =~= written_coords(d).push(writes.last().coord@));
        let w = written_coords(writes);
        assert(w[w.len() - 1] == writes.last().coord@);
        if w.contains(c) && !written_coords(d).contains(c) {
            let k = choose|k: int| 0 <= k < w.len() && w[k] == c;
            assert(k == w.len() - 1);
        }
        if written_coords(d).contains(c) {
            let k = choose|k: int| 0 <= k < d.len() && written_coords(d)[k] == c;
            assert(w[k] == c);
        }
        if previous.contains(writes.last().coord@) {
            let pushed = rest.push(writes.last().coord@);
            assert(pushed[rest.len() as int] == writes.last().coord@);
            if pushed.contains(c) && !rest.contains(c) {
                let k = choose|k: int| 0 <= k < pushed.len() && pushed[k] == c;
                assert(k == rest.len());
            }
            if rest.contains(c) {
                let k = choose|k: int| 0 <= k < rest.len() && rest[k] == c;
                assert(pushed[k] == c);
            }
        }
    }
}

/// Distinct written coordinates give distinct colliding coordinates.
pub proof fn lemma_colliding_coords_distinct(writes: Seq<ChunkWrite>, previous: Seq<Seq<u32>>)
    requires
        written_coords(writes).no_duplicates(),
    ensures
        colliding_coords(writes, previous).no_duplicates(),
    decreases writes.len(),
{
    if writes.len() > 0 {
        let d = writes.drop_last();
        let w = written_coords(writes);
        assert(w =~= written_coords(d).push(writes.last().coord@));
        assert(written_coords(d).no_duplicates()) by {
            assert forall|i: int, j: int|
                0 <= i < written_coords(d).len() && 0 <= j < written_coords(d).len() && i != j
                    implies written_coords(d)[i] != written_coords(d)[j] by {
                assert(w[i] == written_coords(d)[i] && w[j] == written_coords(d)[j]);
            }
        }
        lemma_colliding_coords_distinct(d, previous);
        let rest = colliding_coords(d, previous);
        let last = writes.last().coord@;
        if previous.contains(last) {
            lemma_colliding_coords_contains(d, previous, last);
            assert(!written_coords(d).contains(last)) by {
                if written_coords(d).contains(last) {
                    let k = choose|k: int| 0 <= k < d.len() && written_coords(d)[k] == last;
                    assert(w[k] == w[w.len() - 1]);
                }
            }
            let pushed = rest.push(last);
            assert forall|i: int, j: int|
                0 <= i < pushed.len() && 0 <= j < pushed.len() && i != j implies pushed[i]
                    != pushed[j] by {
                if i == rest.len() {
                    assert(rest[j] != last);
                } else if j == rest.len() {
                    assert(rest[i] != last);
                }
            }
        }
    }
}

/// With distinct written coordinates, the count of colliding coordinates is
/// the number of distinct chunks at which the writes collide with `log`.
pub proof fn lemma_collision_count_is_distinct_chunks(log: TransactionLog, e: NodeChunks)
    requires
        written_coords(e.writes@).no_duplicates(),
    ensures
        entry_collisions(log, e).len() == colliding_set(log, e).len(),
{
    let prev = previous_coords(log, e.node);
    let c = entry_collisions(log, e);
    lemma_colliding_coords_distinct(e.writes@, prev);
    c.unique_seq_to_set();
    assert forall|x: Seq<u32>| c.to_set().contains(x) <==> colliding_set(log, e).contains(x) by {
        lemma_colliding_coords_contains(e.writes@, prev, x);
    }
    assert(c.to_set() =~= colliding_set(log, e));
}

/// In a well-formed change set, each node that collides with `log` is
/// reported once, with its path in `nodes` and the number of distinct chunks
/// at which it collides; nothing else is reported.
#[verifier::rlimit(60)]
pub proof fn lemma_collisions_one_per_node(
    log: TransactionLog,
    nodes: Seq<NodeSnapshot>,
    entries: Seq<NodeChunks>,
)
    requires
        forall|i: int|
            0 <= i < entries.len() ==> written_coords(
                (#[trigger] entries[i]).writes@,
            ).no_duplicates(),
    ensures
        forall|k: int|
            0 <= k < chunk_collisions(log, nodes, entries).len() ==> exists|i: int|
                0 <= i < entries.len() && colliding_set(log, #[trigger] entries[i]).len() > 0
                    && #[trigger] chunk_collisions(log, nodes, entries)[k] == (
                    resolve_path(nodes, entries[i].node).unwrap(),
                    colliding_set(log, entries[i]).len() as usize,
                ),
        forall|i: int|
            0 <= i < entries.len() && colliding_set(log, #[trigger] entries[i]).len() > 0
                ==> exists|k: int|
                0 <= k < chunk_collisions(log, nodes, entries).len() && chunk_collisions(
                    log,
                    nodes,
                    entries,
                )[k] == (
                    resolve_path(nodes, entries[i].node).unwrap(),
                    colliding_set(log, entries[i]).len() as usize,
                ),
    decreases entries.len(),
{
    if entries.len() > 0 {
        let d = entries.drop_last();
        let n = entries.len() - 1;
        assert forall|i: int| 0 <= i < d.len() implies written_coords(
            (#[trigger] d[i]).writes@,
        ).no_duplicates() by {
            assert(d[i] == entries[i]);
        }
        lemma_collisions_one_per_node(log, nodes, d);
        assert(entries.last() == entries[n]);
        lemma_collision_count_is_distinct_chunks(log, entries[n]);
        let rest = chunk_collisions(log, nodes, d);
        let all = chunk_collisions(log, nodes, entries);
        assert forall|k: int| 0 <= k < all.len() implies exists|i: int|
            0 <= i < entries.len() && colliding_set(log, #[trigger] entries[i]).len() > 0
                && #[trigger] all[k] == (
                resolve_path(nodes, entries[i].node).unwrap(),
                colliding_set(log, entries[i]).len() as usize,
            ) by {
            if k < rest.len() {
                assert(all[k] == rest[k]);
                let i = choose|i: int|
                    0 <= i < d.len() && colliding_set(log, #[trigger] d[i]).len() > 0 && rest[k] == (
                        resolve_path(nodes, d[i].node).unwrap(),
                        colliding_set(log, d[i]).len() as usize,
                    );
                assert(d[i] == entries[i]);
            } else {
                assert(colliding_set(log, entries[n]).len() > 0);
            }
        }
        assert forall|i: int|
            0 <= i < entries.len() && colliding_set(log, #[trigger] entries[i]).len() > 0
                implies exists|k: int|
                0 <= k < all.len() && all[k] == (
                    resolve_path(nodes, entries[i].node).unwrap(),
                    colliding_set(log, entries[i]).len() as usize,
                ) by {
            if i < n {
                assert(d[i] == entries[i]);
                let k = choose|k: int|
                    0 <= k < rest.len() && rest[k] == (
                        resolve_path(nodes, d[i].node).unwrap(),
                        colliding_set(log, d[i]).len() as usize,
                    );
                assert(all[k] == rest[k]);
            } else {
                assert(all[rest.len() as int] == (
                    resolve_path(nodes, entries[i].node).unwrap(),
                    colliding_set(log, entries[i]).len() as usize,
                ));
            }
        }
    }
}

} // verus!
