//! Identifiers, paths and chunk coordinates shared by the whole crate.
use vstd::prelude::*;

verus! {

/// Stable identifier of a group or array node, independent of its path.
pub type NodeId = u64;

/// Absolute path of a node inside the repository, such as `/a/b`.
pub type Path = String;

/// Schema version tag of a persisted transaction log.
pub type IcechunkFormatVersion = u8;

/// The version written by [`crate::TransactionLog::from_change_set`].
pub const LATEST_ICECHUNK_TRANSACTION_LOG_FORMAT: IcechunkFormatVersion = 0;

/// Coordinates of one chunk of an array.
#[derive(Clone, Debug, PartialEq)]
pub struct ChunkIndices(pub Vec<u32>);

impl View for ChunkIndices {
    type V = Seq<u32>;

    open spec fn view(&self) -> Seq<u32> {
        self.0@
    }
}

impl ChunkIndices {
    /// A copy holding the same coordinates.
    pub fn duplicate(&self) -> (r: ChunkIndices)
        ensures
            r@ == self@,
    {
        let mut out: Vec<u32> = Vec::new();
        let mut i: usize = 0;
        while i < self.0.len()
            invariant
                i <= self.0@.len(),
                out@ == self.0@.take(i as int),
            decreases self.0@.len() - i,
        {
            out.push(self.0[i]);
            i += 1;
            assert(out@ =~= self.0@.take(i as int));
        }
        assert(self.0@.take(i as int) =~= self.0@);
        ChunkIndices(out)
    }

    /// Whether both name the same chunk.
    pub fn same_as(&self, other: &ChunkIndices) -> (r: bool)
        ensures
            r == (self@ == other@),
    {
        if self.0.len() != other.0.len() {
            assert(self@.len() != other@.len());
            return false;
        }
        let mut i: usize = 0;
        while i < self.0.len()
            invariant
                i <= self.0@.len(),
                self.0@.len() == other.0@.len(),
                forall|k: int| 0 <= k < i ==> self.0@[k] == other.0@[k],
            decreases self.0@.len() - i,
        {
            if self.0[i] != other.0[i] {
                return false;
            }
            i += 1;
        }
        assert(self@ =~= other@);
        true
    }
}

/// The views of a sequence of chunk coordinates.
pub open spec fn coords_view(s: Seq<ChunkIndices>) -> Seq<Seq<u32>> {
    s.map_values(|c: ChunkIndices| c@)
}

/// The views of a sequence of paths.
pub open spec fn paths_view(s: Seq<Path>) -> Seq<Seq<char>> {
    s.map_values(|p: Path| p@)
}

/// Whether `c` is among the coordinates `s`.
pub fn contains_coord(s: &Vec<ChunkIndices>, c: &ChunkIndices) -> (r: bool)
    ensures
        r == coords_view(s@).contains(c@),
{
    let mut i: usize = 0;
    while i < s.len()
        invariant
            i <= s@.len(),
            forall|k: int| 0 <= k < i ==> s@[k]@ != c@,
        decreases s@.len() - i,
    {
        if s[i].same_as(c) {
            assert(coords_view(s@)[i as int] == c@);
            return true;
        }
        i += 1;
    }
    assert(!coords_view(s@).contains(c@)) by {
        if coords_view(s@).contains(c@) {
            let k = choose|k: int| 0 <= k < coords_view(s@).len() && coords_view(s@)[k] == c@;
            assert(s@[k]@ == c@);
        }
    }
    false
}

/// One live node of a snapshot: its identifier and its path there.
#[derive(Clone, Debug, PartialEq)]
pub struct NodeSnapshot {
    pub id: NodeId,
    pub path: Path,
}

/// The path of the first node of `nodes` whose identifier is `id`.
pub open spec fn resolve_path(nodes: Seq<NodeSnapshot>, id: NodeId) -> Option<Seq<char>>
    decreases nodes.len(),
{
    if nodes.len() == 0 {
        None
    } else if nodes[0].id == id {
        Some(nodes[0].path@)
    } else {
        resolve_path(nodes.drop_first(), id)
    }
}

/// The value of the first entry of `entries` whose key is `key`, as a map
/// lookup with unique keys would give it.
pub open spec fn lookup<V>(entries: Seq<(NodeId, V)>, key: NodeId) -> Option<V>
    decreases entries.len(),
{
    if entries.len() == 0 {
        None
    } else if entries[0].0 == key {
        Some(entries[0].1)
    } else {
        lookup(entries.drop_first(), key)
    }
}

/// Node resolver: the path, in the snapshot whose live nodes are `nodes`, of
/// the first node whose identifier is `id`; `None` when it does not resolve.
pub fn find_path(id: NodeId, nodes: &Vec<NodeSnapshot>) -> (r: Option<Path>)
    ensures
        match r {
            Some(p) => resolve_path(nodes@, id) == Some(p@),
            None => resolve_path(nodes@, id).is_none(),
        },
{
    let mut i: usize = 0;
    assert(nodes@.skip(0) =~= nodes@);
    while i < nodes.len()
        invariant
            i <= nodes@.len(),
            resolve_path(nodes@.skip(i as int), id) == resolve_path(nodes@, id),
        decreases nodes@.len() - i,
    {
        assert(nodes@.skip(i as int).drop_first() =~= nodes@.skip(i + 1));
        if nodes[i].id == id {
            return Some(nodes[i].path.clone());
        }
        i += 1;
    }
    assert(nodes@.skip(i as int).len() == 0);
    None
}

} // verus!
