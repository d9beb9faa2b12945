//! The immutable summary of what one commit changed.
use vstd::prelude::*;

use crate::change_set::{written_coords, ChangeSet, ChunkWrite};
use crate::format::{
    coords_view, paths_view, ChunkIndices, IcechunkFormatVersion, NodeId, Path,
    LATEST_ICECHUNK_TRANSACTION_LOG_FORMAT,
};

verus! {

/// What one commit added, updated or deleted. Each list plays the part of a
/// map keyed by its first component, or of a set.
#[derive(Clone, Debug, PartialEq)]
pub struct TransactionLog {
    pub icechunk_transaction_log_format_version: IcechunkFormatVersion,
    pub new_groups: Vec<(Path, NodeId)>,
    pub new_arrays: Vec<(Path, NodeId)>,
    pub updated_user_attributes: Vec<NodeId>,
    pub updated_zarr_metadata: Vec<NodeId>,
    pub updated_chunks: Vec<(NodeId, Vec<ChunkIndices>)>,
    pub deleted_paths: Vec<Path>,
    pub deleted_groups: Vec<(NodeId, Path)>,
    pub deleted_arrays: Vec<(NodeId, Path)>,
}

/// A transaction log as plain values.
pub ghost struct TransactionLogView {
    pub format_version: IcechunkFormatVersion,
    pub new_groups: Seq<(Seq<char>, NodeId)>,
    pub new_arrays: Seq<(Seq<char>, NodeId)>,
    pub updated_user_attributes: Seq<NodeId>,
    pub updated_zarr_metadata: Seq<NodeId>,
    pub updated_chunks: Seq<(NodeId, Seq<Seq<u32>>)>,
    pub deleted_paths: Seq<Seq<char>>,
    pub deleted_groups: Seq<(NodeId, Seq<char>)>,
    pub deleted_arrays: Seq<(NodeId, Seq<char>)>,
}

impl TransactionLogView {
    /// What the maps and sets that the lists stand for guarantee: unique keys,
    /// unique elements, and unique chunk coordinates within one node.
    pub open spec fn wf(&self) -> bool {
        &&& self.new_groups.map_values(|e: (Seq<char>, NodeId)| e.0).no_duplicates()
        &&& self.new_arrays.map_values(|e: (Seq<char>, NodeId)| e.0).no_duplicates()
        &&& self.updated_user_attributes.no_duplicates()
        &&& self.updated_zarr_metadata.no_duplicates()
        &&& self.updated_chunks.map_values(|e: (NodeId, Seq<Seq<u32>>)| e.0).no_duplicates()
        &&& forall|i: int|
            0 <= i < self.updated_chunks.len() ==> (#[trigger] self.updated_chunks[i]).1.no_duplicates()
        &&& self.deleted_paths.no_duplicates()
        &&& self.deleted_groups.map_values(|e: (NodeId, Seq<char>)| e.0).no_duplicates()
        &&& self.deleted_arrays.map_values(|e: (NodeId, Seq<char>)| e.0).no_duplicates()
    }
}

impl TransactionLog {
    /// Well-formedness of the log's view.
    pub open spec fn wf(&self) -> bool {
        self@.wf()
    }
}

impl View for TransactionLog {
    type V = TransactionLogView;

    open spec fn view(&self) -> TransactionLogView {
        TransactionLogView {
            format_version: self.icechunk_transaction_log_format_version,
            new_groups: self.new_groups@.map_values(|e: (Path, NodeId)| (e.0@, e.1)),
            new_arrays: self.new_arrays@.map_values(|e: (Path, NodeId)| (e.0@, e.1)),
            updated_user_attributes: self.updated_user_attributes@,
            updated_zarr_metadata: self.updated_zarr_metadata@,
            updated_chunks: self.updated_chunks@.map_values(
                |e: (NodeId, Vec<ChunkIndices>)| (e.0, coords_view(e.1@)),
            ),
            deleted_paths: paths_view(self.deleted_paths@),
            deleted_groups: self.deleted_groups@.map_values(|e: (NodeId, Path)| (e.0, e.1@)),
            deleted_arrays: self.deleted_arrays@.map_values(|e: (NodeId, Path)| (e.0, e.1@)),
        }
    }
}

/// `acc` followed by the elements of `s` that are not already there, each once.
pub open spec fn extend_distinct(acc: Seq<Seq<char>>, s: Seq<Seq<char>>) -> Seq<Seq<char>>
    decreases s.len(),
{
    if s.len() == 0 {
        acc
    } else {
        let r = extend_distinct(acc, s.drop_last());
        if r.contains(s.last()) {
            r
        } else {
            r.push(s.last())
        }
    }
}

/// The log that records exactly the changes of `cs`. Deleted nodes are
/// recorded by path only: the identifier-keyed deletion maps stay empty.
pub open spec fn derived_log(cs: ChangeSet) -> TransactionLogView {
    TransactionLogView {
        format_version: LATEST_ICECHUNK_TRANSACTION_LOG_FORMAT,
        new_groups: cs.new_groups@.map_values(|e: (Path, NodeId)| (e.0@, e.1)),
        new_arrays: cs.new_arrays@.map_values(|e: (Path, NodeId, Vec<u8>)| (e.0@, e.1)),
        updated_user_attributes: cs.updated_attributes@.map_values(
            |e: (NodeId, Option<Vec<u8>>)| e.0,
        ),
        updated_zarr_metadata: cs.updated_arrays@.map_values(|e: (NodeId, Vec<u8>)| e.0),
        updated_chunks: cs.set_chunks@.map_values(
            |e: crate::change_set::NodeChunks| (e.node, written_coords(e.writes@)),
        ),
        deleted_paths: extend_distinct(
            extend_distinct(Seq::empty(), paths_view(cs.deleted_arrays@)),
            paths_view(cs.deleted_groups@),
        ),
        deleted_groups: Seq::empty(),
        deleted_arrays: Seq::empty(),
    }
}

/// Whether `p` is among `s`.
fn contains_path(s: &Vec<Path>, p: &Path) -> (r: bool)
    ensures
        r == paths_view(s@).contains(p@),
{
    let mut i: usize = 0;
    while i < s.len()
        invariant
            i <= s@.len(),
            forall|k: int| 0 <= k < i ==> s@[k]@ != p@,
        decreases s@.len() - i,
    {
        if s[i] == *p {
            assert(paths_view(s@)[i as int] == p@);
            return true;
        }
        i += 1;
    }
    assert(!paths_view(s@).contains(p@)) by {
        if paths_view(s@).contains(p@) {
            let k = choose|k: int| 0 <= k < paths_view(s@).len() && paths_view(s@)[k] == p@;
            assert(s@[k]@ == p@);
        }
    }
    false
}

/// Appends to `acc` each path of `src` that it does not hold yet.
fn extend_paths(acc: &mut Vec<Path>, src: &Vec<Path>)
    ensures
        paths_view(final(acc)@) == extend_distinct(paths_view(old(acc)@), paths_view(src@)),
{
    let ghost start = paths_view(acc@);
    let mut i: usize = 0;
    assert(paths_view(src@).take(0) =~= Seq::<Seq<char>>::empty());
    while i < src.len()
        invariant
            i <= src@.len(),
            paths_view(acc@) == extend_distinct(start, paths_view(src@).take(i as int)),
        decreases src@.len() - i,
    {
        let ghost before = acc@;
        assert(paths_view(src@).take(i + 1).drop_last() =~= paths_view(src@).take(i as int));
        if !contains_path(acc, &src[i]) {
            acc.push(src[i].clone());
            assert(paths_view(acc@) =~= paths_view(before).push(src@[i as int]@));
        }
        i += 1;
    }
    assert(paths_view(src@).take(i as int) =~= paths_view(src@));
}

/// The coordinates touched by `writes`, in order.
fn coords_of(writes: &Vec<ChunkWrite>) -> (r: Vec<ChunkIndices>)
    ensures
        coords_view(r@) == written_coords(writes@),
{
    let mut r: Vec<ChunkIndices> = Vec::new();
    let mut i: usize = 0;
    while i < writes.len()
        invariant
            i <= writes@.len(),
            coords_view(r@) == written_coords(writes@).take(i as int),
        decreases writes@.len() - i,
    {
        let ghost before = r@;
        r.push(writes[i].coord.duplicate());
        i += 1;
        assert(coords_view(r@) =~= coords_view(before).push(writes@[i - 1].coord@));
        assert(coords_view(r@) =~= written_coords(writes@).take(i as int));
    }
    assert(written_coords(writes@).take(i as int) =~= written_coords(writes@));
    r
}

impl TransactionLog {
    /// Derives the log of a commit from the change set it committed. Total
    /// and deterministic: the result depends on `cs` alone.
    pub fn from_change_set(cs: &ChangeSet) -> (r: TransactionLog)
        ensures
            r@ == derived_log(*cs),
            cs.wf() ==> r.wf(),
    {
        let ghost d = derived_log(*cs);

        let mut new_groups: Vec<(Path, NodeId)> = Vec::new();
        let mut i: usize = 0;
        while i < cs.new_groups.len()
            invariant
                d == derived_log(*cs),
                i <= cs.new_groups@.len(),
                new_groups@.map_values(|e: (Path, NodeId)| (e.0@, e.1)) == d.new_groups.take(
                    i as int,
                ),
            decreases cs.new_groups@.len() - i,
        {
            let ghost before = new_groups@;
            new_groups.push((cs.new_groups[i].0.clone(), cs.new_groups[i].1));
            assert(new_groups@.map_values(|e: (Path, NodeId)| (e.0@, e.1)) =~= before.map_values(
                |e: (Path, NodeId)| (e.0@, e.1),
            ).push(d.new_groups[i as int]));
            i += 1;
            assert(new_groups@.map_values(|e: (Path, NodeId)| (e.0@, e.1)) =~= d.new_groups.take(
                i as int,
            ));
        }
        assert(d.new_groups.take(i as int) =~= d.new_groups);

        let mut new_arrays: Vec<(Path, NodeId)> = Vec::new();
        let mut i: usize = 0;
        while i < cs.new_arrays.len()
            invariant
                d == derived_log(*cs),
                i <= cs.new_arrays@.len(),
                new_arrays@.map_values(|e: (Path, NodeId)| (e.0@, e.1)) == d.new_arrays.take(
                    i as int,
                ),
            decreases cs.new_arrays@.len() - i,
        {
            let ghost before = new_arrays@;
            new_arrays.push((cs.new_arrays[i].0.clone(), cs.new_arrays[i].1));
            assert(new_arrays@.map_values(|e: (Path, NodeId)| (e.0@, e.1)) =~= before.map_values(
                |e: (Path, NodeId)| (e.0@, e.1),
            ).push(d.new_arrays[i as int]));
            i += 1;
            assert(new_arrays@.map_values(|e: (Path, NodeId)| (e.0@, e.1)) =~= d.new_arrays.take(
                i as int,
            ));
        }
        assert(d.new_arrays.take(i as int) =~= d.new_arrays);

        let mut updated_user_attributes: Vec<NodeId> = Vec::new();
        let mut i: usize = 0;
        while i < cs.updated_attributes.len()
            invariant
                d == derived_log(*cs),
                i <= cs.updated_attributes@.len(),
                updated_user_attributes@ == d.updated_user_attributes.take(i as int),
            decreases cs.updated_attributes@.len() - i,
        {
            updated_user_attributes.push(cs.updated_attributes[i].0);
            i += 1;
            assert(updated_user_attributes@ =~= d.updated_user_attributes.take(i as int));
        }
        assert(d.updated_user_attributes.take(i as int) =~= d.updated_user_attributes);

        let mut updated_zarr_metadata: Vec<NodeId> = Vec::new();
        let mut i: usize = 0;
        while i < cs.updated_arrays.len()
            invariant
                d == derived_log(*cs),
                i <= cs.updated_arrays@.len(),
                updated_zarr_metadata@ == d.updated_zarr_metadata.take(i as int),
            decreases cs.updated_arrays@.len() - i,
        {
            updated_zarr_metadata.push(cs.updated_arrays[i].0);
            i += 1;
            assert(updated_zarr_metadata@ =~= d.updated_zarr_metadata.take(i as int));
        }
        assert(d.updated_zarr_metadata.take(i as int) =~= d.updated_zarr_metadata);

        let mut updated_chunks: Vec<(NodeId, Vec<ChunkIndices>)> = Vec::new();
        let mut i: usize = 0;
        while i < cs.set_chunks.len()
            invariant
                d == derived_log(*cs),
                i <= cs.set_chunks@.len(),
                updated_chunks@.map_values(
                    |e: (NodeId, Vec<ChunkIndices>)| (e.0, coords_view(e.1@)),
                ) == d.updated_chunks.take(i as int),
            decreases cs.set_chunks@.len() - i,
        {
            let coords = coords_of(&cs.set_chunks[i].writes);
            let ghost before = updated_chunks@;
            updated_chunks.push((cs.set_chunks[i].node, coords));
            assert(updated_chunks@.map_values(
                |e: (NodeId, Vec<ChunkIndices>)| (e.0, coords_view(e.1@)),
            ) =~= before.map_values(
                |e: (NodeId, Vec<ChunkIndices>)| (e.0, coords_view(e.1@)),
            ).push(d.updated_chunks[i as int]));
            i += 1;
            assert(updated_chunks@.map_values(
                |e: (NodeId, Vec<ChunkIndices>)| (e.0, coords_view(e.1@)),
            ) =~= d.updated_chunks.take(i as int));
        }
        assert(d.updated_chunks.take(i as int) =~= d.updated_chunks);

        let mut deleted_paths: Vec<Path> = Vec::new();
        assert(paths_view(deleted_paths@) =~= Seq::<Seq<char>>::empty());
        extend_paths(&mut deleted_paths, &cs.deleted_arrays);
        extend_paths(&mut deleted_paths, &cs.deleted_groups);

        let r = TransactionLog {
            icechunk_transaction_log_format_version: LATEST_ICECHUNK_TRANSACTION_LOG_FORMAT,
            new_groups,
            new_arrays,
            updated_user_attributes,
            updated_zarr_metadata,
            updated_chunks,
            deleted_paths,
            deleted_groups: Vec::new(),
            deleted_arrays: Vec::new(),
        };
        assert(r@.deleted_groups =~= d.deleted_groups);
        assert(r@.deleted_arrays =~= d.deleted_arrays);
        proof {
            if cs.wf() {
                lemma_derived_log_wf(*cs);
            }
        }
        r
    }
}

/// `extend_distinct` is a union that keeps each element once.
pub proof fn lemma_extend_distinct(acc: Seq<Seq<char>>, s: Seq<Seq<char>>, x: Seq<char>)
    ensures
        extend_distinct(acc, s).contains(x) <==> (acc.contains(x) || s.contains(x)),
        acc.no_duplicates() ==> extend_distinct(acc, s).no_duplicates(),
    decreases s.len(),
{
    if s.len() > 0 {
        let d = s.drop_last();
        lemma_extend_distinct(acc, d, x);
        let r = extend_distinct(acc, d);
        assert(s =~= d.push(s.last()));
        if d.contains(x) {
            let k = choose|k: int| 0 <= k < d.len() && d[k] == x;
            assert(s[k] == x);
        }
        if s.contains(x) && !d.contains(x) {
            let k = choose|k: int| 0 <= k < s.len() && s[k] == x;
            assert(k == s.len() - 1);
        }
        if !r.contains(s.last()) {
            assert(r.push(s.last())[r.len() as int] == s.last());
            if r.push(s.last()).contains(x) && !r.contains(x) {
                let k = choose|k: int| 0 <= k < r.len() + 1 && r.push(s.last())[k] == x;
                assert(k == r.len());
            }
            if r.contains(x) {
                let k = choose|k: int| 0 <= k < r.len() && r[k] == x;
                assert(r.push(s.last())[k] == x);
            }
            if acc.no_duplicates() {
                lemma_extend_distinct(acc, d, s.last());
                assert(r.push(s.last()).no_duplicates()) by {
                    assert forall|i: int, j: int|
                        0 <= i < r.len() + 1 && 0 <= j < r.len() + 1 && i != j implies r.push(
                            s.last(),
                        )[i] != r.push(s.last())[j] by {
                        if i == r.len() {
                            assert(r[j] != s.last());
                        } else if j == r.len() {
                            assert(r[i] != s.last());
                        }
                    }
                }
            }
        }
    }
}

/// The deleted paths of a derived log are the union of the deleted arrays'
/// and the deleted groups' paths, each once.
pub proof fn lemma_deleted_paths_union(cs: ChangeSet, log: TransactionLog, x: Seq<char>)
    requires
        log@ == derived_log(cs),
    ensures
        log@.deleted_paths.contains(x) <==> (paths_view(cs.deleted_arrays@).contains(x)
            || paths_view(cs.deleted_groups@).contains(x)),
        log@.deleted_paths.no_duplicates(),
{
    let arrays = extend_distinct(Seq::empty(), paths_view(cs.deleted_arrays@));
    lemma_extend_distinct(Seq::empty(), paths_view(cs.deleted_arrays@), x);
    lemma_extend_distinct(arrays, paths_view(cs.deleted_groups@), x);
}

/// Deriving a log is deterministic: two logs derived from one change set are
/// equal field by field.
pub proof fn lemma_derivation_deterministic(
    cs: ChangeSet,
    first: TransactionLog,
    second: TransactionLog,
)
    requires
        first@ == derived_log(cs),
        second@ == derived_log(cs),
    ensures
        first@ == second@,
        first@.format_version == second@.format_version,
        first@.new_groups == second@.new_groups,
        first@.new_arrays == second@.new_arrays,
        first@.updated_user_attributes == second@.updated_user_attributes,
        first@.updated_zarr_metadata == second@.updated_zarr_metadata,
        first@.updated_chunks == second@.updated_chunks,
        first@.deleted_paths == second@.deleted_paths,
        first@.deleted_groups == second@.deleted_groups,
        first@.deleted_arrays == second@.deleted_arrays,
{
}

/// A log derived from a well-formed change set is well formed.
pub proof fn lemma_derived_log_wf(cs: ChangeSet)
    requires
        cs.wf(),
    ensures
        derived_log(cs).wf(),
{
    let d = derived_log(cs);
    assert(d.new_groups.map_values(|e: (Seq<char>, NodeId)| e.0) =~= cs.new_groups@.map_values(
        |e: (Path, NodeId)| e.0@,
    ));
    assert(d.new_arrays.map_values(|e: (Seq<char>, NodeId)| e.0) =~= cs.new_arrays@.map_values(
        |e: (Path, NodeId, Vec<u8>)| e.0@,
    ));
    assert(d.updated_chunks.map_values(|e: (NodeId, Seq<Seq<u32>>)| e.0) =~= cs.written_nodes());
    assert forall|i: int| 0 <= i < d.updated_chunks.len() implies (
    #[trigger] d.updated_chunks[i]).1.no_duplicates() by {
        assert(d.updated_chunks[i].1 == written_coords(cs.set_chunks@[i].writes@));
    }
    lemma_extend_distinct(Seq::empty(), paths_view(cs.deleted_arrays@), Seq::empty());
    lemma_extend_distinct(
        extend_distinct(Seq::empty(), paths_view(cs.deleted_arrays@)),
        paths_view(cs.deleted_groups@),
        Seq::empty(),
    );
    assert(d.deleted_groups.map_values(|e: (NodeId, Seq<char>)| e.0) =~= Seq::<NodeId>::empty());
    assert(d.deleted_arrays.map_values(|e: (NodeId, Seq<char>)| e.0) =~= Seq::<NodeId>::empty());
}

} // verus!
