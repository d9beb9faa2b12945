//! The pending, not yet committed, edits of one writer.
use vstd::prelude::*;

use crate::format::{coords_view, ChunkIndices, NodeId, Path};

verus! {

/// Encoded metadata of an array.
pub type ZarrArrayMetadata = Vec<u8>;

/// Encoded user attributes of a node.
pub type UserAttributes = Vec<u8>;

/// Reference to the bytes of one chunk.
pub type ChunkPayload = Vec<u8>;

/// One pending chunk write; a payload of `None` clears the chunk.
#[derive(Clone, Debug, PartialEq)]
pub struct ChunkWrite {
    pub coord: ChunkIndices,
    pub payload: Option<ChunkPayload>,
}

/// The pending chunk writes into one array node.
#[derive(Clone, Debug, PartialEq)]
pub struct NodeChunks {
    pub node: NodeId,
    pub writes: Vec<ChunkWrite>,
}

/// The edits of one writer since its base snapshot. Each list plays the part
/// of a map keyed by its first component.
#[derive(Clone, Debug, PartialEq)]
pub struct ChangeSet {
    pub new_groups: Vec<(Path, NodeId)>,
    pub new_arrays: Vec<(Path, NodeId, ZarrArrayMetadata)>,
    pub updated_arrays: Vec<(NodeId, ZarrArrayMetadata)>,
    pub updated_attributes: Vec<(NodeId, Option<UserAttributes>)>,
    pub set_chunks: Vec<NodeChunks>,
    pub deleted_groups: Vec<Path>,
    pub deleted_arrays: Vec<Path>,
}

/// The coordinates that `writes` touch, in order.
pub open spec fn written_coords(writes: Seq<ChunkWrite>) -> Seq<Seq<u32>> {
    writes.map_values(|w: ChunkWrite| w.coord@)
}

/// The writes of `writes` whose coordinates are not among `retracted`.
pub open spec fn kept_writes(writes: Seq<ChunkWrite>, retracted: Seq<Seq<u32>>) -> Seq<ChunkWrite>
    decreases writes.len(),
{
    if writes.len() == 0 {
        Seq::empty()
    } else {
        let rest = kept_writes(writes.drop_last(), retracted);
        if retracted.contains(writes.last().coord@) {
            rest
        } else {
            rest.push(writes.last())
        }
    }
}

/// A write is kept exactly when it was there and its coordinates are not
/// retracted.
pub proof fn lemma_kept_writes(writes: Seq<ChunkWrite>, retracted: Seq<Seq<u32>>, w: ChunkWrite)
    ensures
        kept_writes(writes, retracted).contains(w) <==> (writes.contains(w) && !retracted.contains(
            w.coord@,
        )),
    decreases writes.len(),
{
    if writes.len() > 0 {
        lemma_kept_writes(writes.drop_last(), retracted, w);
        assert(writes =~= writes.drop_last().push(writes.last()));
        if writes.contains(w) && !writes.drop_last().contains(w) {
            let k = choose|k: int| 0 <= k < writes.len() && writes[k] == w;
            assert(k == writes.len() - 1);
        }
        let rest = kept_writes(writes.drop_last(), retracted);
        assert(rest.push(writes.last()).contains(writes.last())) by {
            assert(rest.push(writes.last())[rest.len() as int] == writes.last());
        }
        if rest.push(writes.last()).contains(w) && !rest.contains(w) {
            let k = choose|k: int| 0 <= k < rest.len() + 1 && rest.push(writes.last())[k] == w;
            assert(k == rest.len());
        }
        if writes.drop_last().contains(w) {
            let k = choose|k: int| 0 <= k < writes.len() - 1 && writes.drop_last()[k] == w;
            assert(writes[k] == w);
        }
        if rest.contains(w) {
            let k = choose|k: int| 0 <= k < rest.len() && rest[k] == w;
            assert(rest.push(writes.last())[k] == w);
        }
    }
}

impl ChangeSet {
    /// What the maps and sets that the lists stand for guarantee: unique keys,
    /// unique elements, and unique chunk coordinates within one node.
    pub open spec fn wf(&self) -> bool {
        &&& self.new_groups@.map_values(|e: (Path, NodeId)| e.0@).no_duplicates()
        &&& self.new_arrays@.map_values(|e: (Path, NodeId, Vec<u8>)| e.0@).no_duplicates()
        &&& self.updated_arrays@.map_values(|e: (NodeId, Vec<u8>)| e.0).no_duplicates()
        &&& self.updated_attributes@.map_values(|e: (NodeId, Option<Vec<u8>>)| e.0).no_duplicates()
        &&& self.written_nodes().no_duplicates()
        &&& forall|i: int|
            0 <= i < self.set_chunks@.len() ==> written_coords(
                (#[trigger] self.set_chunks@[i]).writes@,
            ).no_duplicates()
        &&& crate::format::paths_view(self.deleted_groups@).no_duplicates()
        &&& crate::format::paths_view(self.deleted_arrays@).no_duplicates()
    }

    /// The array nodes that hold pending chunk writes, in order.
    pub open spec fn written_nodes(&self) -> Seq<NodeId> {
        self.set_chunks@.map_values(|e: NodeChunks| e.node)
    }

    /// Whether the user attributes of `node` were updated.
    pub open spec fn attributes_updated(&self, node: NodeId) -> bool {
        exists|i: int| 0 <= i < self.updated_attributes@.len() && self.updated_attributes@[i].0 == node
    }

    /// Whether the metadata of array `node` was updated.
    pub open spec fn metadata_updated(&self, node: NodeId) -> bool {
        exists|i: int| 0 <= i < self.updated_arrays@.len() && self.updated_arrays@[i].0 == node
    }

    /// The array nodes that hold pending chunk writes.
    pub fn written_arrays(&self) -> (r: Vec<NodeId>)
        ensures
            r@ == self.written_nodes(),
    {
        let mut r: Vec<NodeId> = Vec::new();
        let mut i: usize = 0;
        while i < self.set_chunks.len()
            invariant
                i <= self.set_chunks@.len(),
                r@ == self.written_nodes().take(i as int),
            decreases self.set_chunks@.len() - i,
        {
            r.push(self.set_chunks[i].node);
            i += 1;
            assert(r@ =~= self.written_nodes().take(i as int));
        }
        assert(self.written_nodes().take(i as int) =~= self.written_nodes());
        r
    }

    /// Whether the user attributes of `node` were updated.
    pub fn has_updated_attributes(&self, node: NodeId) -> (r: bool)
        ensures
            r == self.attributes_updated(node),
    {
        let mut i: usize = 0;
        while i < self.updated_attributes.len()
            invariant
                i <= self.updated_attributes@.len(),
                forall|k: int| 0 <= k < i ==> self.updated_attributes@[k].0 != node,
            decreases self.updated_attributes@.len() - i,
        {
            if self.updated_attributes[i].0 == node {
                return true;
            }
            i += 1;
        }
        false
    }

    /// The new metadata of array `node`, if it was updated.
    pub fn get_updated_zarr_metadata(&self, node: NodeId) -> (r: Option<&ZarrArrayMetadata>)
        ensures
            r.is_some() == self.metadata_updated(node),
            r.is_some() ==> exists|i: int|
                0 <= i < self.updated_arrays@.len() && self.updated_arrays@[i].0 == node
                    && self.updated_arrays@[i].1 == *r.unwrap(),
    {
        let mut i: usize = 0;
        while i < self.updated_arrays.len()
            invariant
                i <= self.updated_arrays@.len(),
                forall|k: int| 0 <= k < i ==> self.updated_arrays@[k].0 != node,
            decreases self.updated_arrays@.len() - i,
        {
            if self.updated_arrays[i].0 == node {
                return Some(&self.updated_arrays[i].1);
            }
            i += 1;
        }
        None
    }
}

} // verus!
