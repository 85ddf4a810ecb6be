//! A node of the ID-Tree: its parent in the spanning forest, the size of its
//! subtree, and its adjacency list.
use vstd::prelude::*;
use crate::forest::SENTINEL;
use crate::smallvec_spec::{NeighborList, neighbor_items, swap_removed};

verus! {

/// A node of the ID-Tree.
pub struct Node {
    /// The parent of this node in the id-tree (`usize::MAX` for a root).
    pub parent: usize,
    /// Subtree cardinality in normal operation; during rotations it briefly
    /// holds signed size differences.
    pub subtree_size: i32,
    /// The adjacent neighbors of this node.
    pub neighbors: NeighborList,
}

impl Node {
    /// The neighbors of this node, in order.
    pub open spec fn nbrs(&self) -> Seq<u32> {
        neighbor_items(self.neighbors)
    }

    /// A root with no neighbors and a subtree of one.
    pub fn new() -> (r: Node)
        ensures
            r.parent == SENTINEL,
            r.subtree_size == 1,
            r.nbrs() == Seq::<u32>::empty(),
    {
        Node { parent: SENTINEL, subtree_size: 1, neighbors: NeighborList::new() }
    }

    /// Whether `u` is a neighbor.
    pub fn has_neighbor(&self, u: u32) -> (r: bool)
        ensures
            r == self.nbrs().contains(u),
    {
        let len = self.neighbors.len();
        let mut i: usize = 0;
        while i < len
            invariant
                len == self.nbrs().len(),
                i <= len,
                forall|j: int| 0 <= j < i ==> self.nbrs()[j] != u,
            decreases len - i,
        {
            if self.neighbors.get(i) == u {
                return true;
            }
            i += 1;
        }
        false
    }

    /// The first position of `u` among the neighbors.
    pub fn position(&self, u: u32) -> (r: Option<usize>)
        ensures
            r is Some <==> self.nbrs().contains(u),
            r matches Some(i) ==> i as int == self.nbrs().index_of_first(u).unwrap(),
    {
        proof {
            self.nbrs().index_of_first_ensures(u);
        }
        let len = self.neighbors.len();
        let mut i: usize = 0;
        while i < len
            invariant
                len == self.nbrs().len(),
                i <= len,
                forall|j: int| 0 <= j < i ==> self.nbrs()[j] != u,
                match self.nbrs().index_of_first(u) {
                    Some(index) => {
                        &&& self.nbrs().contains(u)
                        &&& 0 <= index < self.nbrs().len()
                        &&& self.nbrs()[index] == u
                        &&& forall|j: int| 0 <= j < index < self.nbrs().len() ==> self.nbrs()[j] != u
                    },
                    None => { !self.nbrs().contains(u) },
                },
            decreases len - i,
        {
            if self.neighbors.get(i) == u {
                proof {
                    let index = self.nbrs().index_of_first(u).unwrap();
                    assert(index == i);
                }
                return Some(i);
            }
            i += 1;
        }
        None
    }

    /// Adds `u` as a neighbor unless it already is one.
    ///
    /// Returns 0 when `u` was added and 1 when it was already present.
    pub fn insert_neighbor(&mut self, u: u32) -> (r: i32)
        requires
            old(self).nbrs().len() < usize::MAX,
        ensures
            final(self).parent == old(self).parent,
            final(self).subtree_size == old(self).subtree_size,
            old(self).nbrs().contains(u) ==> r == 1 && final(self).nbrs() == old(self).nbrs(),
            !old(self).nbrs().contains(u) ==> r == 0 && final(self).nbrs() == old(self).nbrs().push(u),
    {
        if !self.has_neighbor(u) {
            self.neighbors.push(u);
            return 0;
        }
        1
    }

    /// Removes `u` from the neighbors, moving the last neighbor into its place.
    ///
    /// Returns 0 when `u` was removed and 1 when it was not a neighbor.
    pub fn delete_neighbor(&mut self, u: u32) -> (r: i32)
        ensures
            final(self).parent == old(self).parent,
            final(self).subtree_size == old(self).subtree_size,
            !old(self).nbrs().contains(u) ==> r == 1 && final(self).nbrs() == old(self).nbrs(),
            old(self).nbrs().contains(u) ==> r == 0 && final(self).nbrs() == swap_removed(
                old(self).nbrs(),
                old(self).nbrs().index_of_first(u).unwrap(),
            ),
    {
        proof {
            old(self).nbrs().index_of_first_ensures(u);
        }
        match self.position(u) {
            Some(i) => {
                assert(i as int == old(self).nbrs().index_of_first(u).unwrap());
                self.neighbors.swap_remove(i);
                0
            },
            None => 1,
        }
    }

    /// A copy of this node.
    pub fn duplicate(&self) -> (r: Node)
        ensures
            r.parent == self.parent,
            r.subtree_size == self.subtree_size,
            r.nbrs() == self.nbrs(),
    {
        Node {
            parent: self.parent,
            subtree_size: self.subtree_size,
            neighbors: self.neighbors.duplicate(),
        }
    }
}

impl Clone for Node {
    fn clone(&self) -> (r: Self)
        ensures
            r.parent == self.parent,
            r.subtree_size == self.subtree_size,
            r.nbrs() == self.nbrs(),
    {
        self.duplicate()
    }
}

} // verus!
