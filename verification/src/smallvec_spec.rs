//! The inline small vectors of the `smallvec` crate that hold adjacency
//! lists. Verus cannot declare `SmallVec` itself (its parameter is bound by
//! an outside trait), so each list lives in a struct whose contents Verus
//! sees only through the names below.
use vstd::prelude::*;
use smallvec::SmallVec;

verus! {

/// A node's adjacency list, held in a `SmallVec` with inline room for eight ids.
#[verifier::external_body]
pub struct NeighborList {
    items: SmallVec<[u32; 8]>,
}

/// The items held by a neighbor list, in order.
pub uninterp spec fn neighbor_items(v: NeighborList) -> Seq<u32>;

/// The sequence after `swap_remove(i)`: the last item takes the place of
/// item `i` and the sequence shrinks by one.
pub open spec fn swap_removed<T>(s: Seq<T>, i: int) -> Seq<T> {
    s.update(i, s.last()).drop_last()
}

impl NeighborList {
    /// `SmallVec::new`: an empty list.
    #[verifier::external_body]
    pub(crate) fn new() -> (r: NeighborList)
        ensures
            neighbor_items(r) == Seq::<u32>::empty(),
    {
        NeighborList { items: SmallVec::new() }
    }

    /// `SmallVec::len`: the number of items.
    #[verifier::external_body]
    pub(crate) fn len(&self) -> (r: usize)
        ensures
            r == neighbor_items(*self).len(),
    {
        self.items.len()
    }

    /// `SmallVec::is_empty`: whether there are no items.
    #[verifier::external_body]
    pub(crate) fn is_empty(&self) -> (r: bool)
        ensures
            r == (neighbor_items(*self).len() == 0),
    {
        self.items.is_empty()
    }

    /// Indexing a `SmallVec` (through its slice): item `i`.
    #[verifier::external_body]
    pub(crate) fn get(&self, i: usize) -> (r: u32)
        requires
            i < neighbor_items(*self).len(),
        ensures
            r == neighbor_items(*self)[i as int],
    {
        self.items[i]
    }

    /// `SmallVec::push`: appends an item.
    #[verifier::external_body]
    pub(crate) fn push(&mut self, u: u32)
        requires
            neighbor_items(*old(self)).len() < usize::MAX,
        ensures
            neighbor_items(*final(self)) == neighbor_items(*old(self)).push(u),
    {
        self.items.push(u)
    }

    /// `SmallVec::swap_remove`: removes item `i`, moving the last item into
    /// its place, and returns it.
    #[verifier::external_body]
    pub(crate) fn swap_remove(&mut self, i: usize) -> (r: u32)
        requires
            i < neighbor_items(*old(self)).len(),
        ensures
            r == neighbor_items(*old(self))[i as int],
            neighbor_items(*final(self)) == swap_removed(neighbor_items(*old(self)), i as int),
    {
        self.items.swap_remove(i)
    }

    /// `SmallVec::clear`: removes every item.
    #[verifier::external_body]
    pub(crate) fn clear(&mut self)
        ensures
            neighbor_items(*final(self)) == Seq::<u32>::empty(),
    {
        self.items.clear()
    }

    /// `SmallVec::clone`: a list with the same items.
    #[verifier::external_body]
    pub(crate) fn duplicate(&self) -> (r: NeighborList)
        ensures
            neighbor_items(r) == neighbor_items(*self),
    {
        NeighborList { items: self.items.clone() }
    }
}

/// A list of node ids held in a `SmallVec` with inline room for eight ids.
#[verifier::external_body]
pub struct NodeIdList {
    items: SmallVec<[usize; 8]>,
}

/// The ids held by a node id list, in order.
pub uninterp spec fn node_id_items(v: NodeIdList) -> Seq<usize>;

impl NodeIdList {
    /// `SmallVec::new`: an empty list.
    #[verifier::external_body]
    pub(crate) fn new() -> (r: NodeIdList)
        ensures
            node_id_items(r) == Seq::<usize>::empty(),
    {
        NodeIdList { items: SmallVec::new() }
    }

    /// `SmallVec::push`: appends an id.
    #[verifier::external_body]
    pub(crate) fn push(&mut self, u: usize)
        requires
            node_id_items(*old(self)).len() < usize::MAX,
        ensures
            node_id_items(*final(self)) == node_id_items(*old(self)).push(u),
    {
        self.items.push(u)
    }

    /// `SmallVec::len`: the number of ids.
    #[verifier::external_body]
    pub(crate) fn len(&self) -> (r: usize)
        ensures
            r == node_id_items(*self).len(),
    {
        self.items.len()
    }

    /// Indexing a `SmallVec` (through its slice): id `i`.
    #[verifier::external_body]
    pub(crate) fn get(&self, i: usize) -> (r: usize)
        requires
            i < node_id_items(*self).len(),
        ensures
            r == node_id_items(*self)[i as int],
    {
        self.items[i]
    }

    /// The ids, in order, in a `Vec`.
    pub fn to_vec(&self) -> (r: Vec<usize>)
        ensures
            r@ == node_id_items(*self),
    {
        let len = self.len();
        let mut r: Vec<usize> = Vec::with_capacity(len);
        let mut i: usize = 0;
        while i < len
            invariant
                len == node_id_items(*self).len(),
                i <= len,
                r@ == node_id_items(*self).subrange(0, i as int),
            decreases len - i,
        {
            r.push(self.get(i));
            proof {
                assert(r@ =~= node_id_items(*self).subrange(0, i as int + 1));
            }
            i += 1;
        }
        proof {
            assert(node_id_items(*self).subrange(0, len as int) =~= node_id_items(*self));
        }
        r
    }
}

} // verus!
