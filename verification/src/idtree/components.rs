//! Connected components and active nodes of the graph of an ID-Tree.
use vstd::prelude::*;
use nohash_hasher::IntSet;
use fixedbitset::FixedBitSet;
use crate::idtree::{IDTree, is_active, active_nodes};
use crate::forest::SENTINEL;
use crate::graph::{graph_wf, connected, spans, lemma_connected_refl};
use crate::hash_spec::{intset_of_one, intset_with_capacity, intset_insert, intset_into_vec};
use crate::bitset_spec::{
    bitset_bits, bitset_len, bitset_clear, bitset_insert, bitset_put, bitset_clone, bitset_with_capacity,
};
use crate::idtree::cycles::{
    walk_state, is_done, after_pop, lemma_walk_push, lemma_walk_finish_node, lemma_walk_pop,
    lemma_walk_component,
};

verus! {

/// The ids listed in `pushed` are exactly the members of `s`.
pub open spec fn same_members(s: Set<usize>, pushed: Seq<usize>) -> bool {
    forall|x: usize| #[trigger] s.contains(x) <==> pushed.contains(x)
}

proof fn lemma_members_push(s: Set<usize>, pushed: Seq<usize>, v: usize)
    requires
        same_members(s, pushed),
    ensures
        same_members(s.insert(v), pushed.push(v)),
{
    let p2 = pushed.push(v);
    assert forall|x: usize| #[trigger] s.insert(v).contains(x) <==> p2.contains(x) by {
        if x == v {
            assert(p2[p2.len() - 1] == v);
        } else if pushed.contains(x) {
            let k = choose|k: int| 0 <= k < pushed.len() && pushed[k] == x;
            assert(p2[k] == x);
        } else if p2.contains(x) {
            let k = choose|k: int| 0 <= k < p2.len() && p2[k] == x;
            assert(k < pushed.len());
            assert(pushed[k] == x);
        }
    }
}

proof fn lemma_pushed_bound(pushed: Seq<usize>, n: int)
    requires
        pushed.no_duplicates(),
        forall|k: int| 0 <= k < pushed.len() ==> (#[trigger] pushed[k] as int) < n,
        n >= 0,
    ensures
        pushed.len() <= n,
{
    let ip = pushed.map_values(|x: usize| x as int);
    assert forall|i: int, j: int| 0 <= i < j < ip.len() implies ip[i] != ip[j] by {
        assert(pushed[i] != pushed[j]);
    }
    assert forall|i: int| 0 <= i < ip.len() implies 0 <= #[trigger] ip[i] < n by {
        assert((pushed[i] as int) < n);
    }
    crate::forest::lemma_distinct_bounded(ip, n);
}

impl IDTree {
    /// The nodes joined to `v`, `v` included, each once, in the order a set
    /// of them is walked.
    pub fn node_connected_component(&mut self, v: usize) -> (r: Vec<usize>)
        requires
            old(self).wf(),
            v < old(self).num_nodes(),
        ensures
            *final(self) == *old(self),
            r@.no_duplicates(),
            forall|x: usize| #[trigger] r@.contains(x) <==> x < old(self).num_nodes() && old(self).is_connected(v as int, x as int),
    {
        let ghost adj = self.adj();
        let ghost par = self.parents();
        let ghost n = self.n as int;
        let mut stack: Vec<usize> = vec![v];
        let mut visited = intset_of_one(v);
        let ghost mut pushed: Seq<usize> = seq![v];
        proof {
            lemma_connected_refl(adj, v as int);
            assert(same_members(visited@, pushed)) by {
                assert forall|x: usize| #[trigger] visited@.contains(x) <==> pushed.contains(x) by {
                    if x == v {
                        assert(pushed[0] == v);
                    }
                }
            }
            assert(pushed.contains(v)) by {
                assert(pushed[0] == v);
            }
            assert(walk_state(adj, par, v, pushed, stack@, None)) by {
                assert forall|x: usize, j: int| is_done(pushed, stack@, None, x) && 0 <= j < adj[x as int].len()
                    implies pushed.contains(#[trigger] adj[x as int][j] as usize) by {
                    assert(stack@[0] == v);
                }
            }
        }
        let ghost stack0 = stack@;
        let mut next = stack.pop();
        proof {
            assert(stack@ == after_pop(stack0));
            lemma_walk_pop(adj, par, v, pushed, stack0, next);
        }
        while next.is_some()
            invariant
                self.wf(),
                self.adj() == adj,
                self.parents() == par,
                n == self.n,
                n == adj.len(),
                v < n,
                same_members(visited@, pushed),
                walk_state(adj, par, v, pushed, stack@, next),
                next is None ==> stack@.len() == 0,
            decreases 2 * (n - pushed.len()) + stack@.len() + (if next is Some { 1int } else { 0 }),
        {
            let node = next.unwrap();
            proof {
                lemma_pushed_bound(pushed, n);
                let k = choose|k: int| 0 <= k < pushed.len() && pushed[k] == node;
                assert((pushed[k] as int) < adj.len());
                assert(self.nodes@[node as int].nbrs() == adj[node as int]);
            }
            let deg = self.nodes[node].neighbors.len();
            let mut j: usize = 0;
            let ghost diff0 = stack@.len() - pushed.len();
            let ghost p0 = pushed.len();
            while j < deg
                invariant
                    self.wf(),
                    self.adj() == adj,
                    self.parents() == par,
                    n == self.n,
                    n == adj.len(),
                    v < n,
                    node < n,
                    next == Some(node),
                    deg == adj[node as int].len(),
                    j <= deg,
                    stack@.len() - pushed.len() == diff0,
                    pushed.len() >= p0,
                    pushed.len() <= n,
                    same_members(visited@, pushed),
                    walk_state(adj, par, v, pushed, stack@, next),
                    forall|k: int| 0 <= k < j ==> pushed.contains(#[trigger] adj[node as int][k] as usize),
                decreases deg - j,
            {
                proof {
                    assert(self.nodes@[node as int].nbrs() == adj[node as int]);
                }
                let neighbor = self.nodes[node].neighbors.get(j) as usize;
                proof {
                    assert(graph_wf(adj));
                    assert((adj[node as int][j as int] as int) < adj.len());
                }
                let ghost vis0 = visited@;
                if intset_insert(&mut visited, neighbor) {
                    let ghost s0 = stack@;
                    stack.push(neighbor);
                    proof {
                        assert(!pushed.contains(neighbor));
                        assert(adj[node as int].contains(neighbor as u32));
                        lemma_walk_push(adj, par, v, pushed, s0, next, node, neighbor);
                        lemma_members_push(vis0, pushed, neighbor);
                        let p2 = pushed.push(neighbor);
                        assert forall|k: int| 0 <= k < j + 1 implies p2.contains(#[trigger] adj[node as int][k] as usize) by {
                            let w = adj[node as int][k] as usize;
                            if k < j {
                                let i = choose|i: int| 0 <= i < pushed.len() && pushed[i] == w;
                                assert(p2[i] == w);
                            } else {
                                assert(p2[p2.len() - 1] == neighbor);
                            }
                        }
                        pushed = p2;
                        lemma_pushed_bound(pushed, n);
                    }
                } else {
                    proof {
                        assert(visited@ =~= vis0);
                    }
                }
                j += 1;
            }
            proof {
                lemma_walk_finish_node(adj, par, v, pushed, stack@, node);
            }
            let ghost stack1 = stack@;
            next = stack.pop();
            proof {
                assert(stack@ == after_pop(stack1));
                assert(stack1.len() - pushed.len() == diff0);
                lemma_walk_pop(adj, par, v, pushed, stack1, next);
            }
        }
        let r = intset_into_vec(visited);
        proof {
            assert forall|x: usize| #[trigger] r@.contains(x) <==> x < n && connected(adj, v as int, x as int) by {
                lemma_walk_component(adj, par, v, pushed, stack@, x);
            }
        }
        r
    }
}

/// The roots of the spanning trees that hold an edge, in increasing order:
/// one for each connected component with more than one node or a loop.
pub open spec fn tree_roots(adj: Seq<Seq<u32>>, par: Seq<usize>) -> Seq<usize> {
    node_range(adj.len()).filter(root_with_edge(adj, par))
}

/// The nodes `0..n` in increasing order.
pub open spec fn node_range(n: nat) -> Seq<usize> {
    Seq::new(n, |i: int| i as usize)
}

/// A root of the spanning forest with a neighbor.
pub open spec fn root_with_edge(adj: Seq<Seq<u32>>, par: Seq<usize>) -> spec_fn(usize) -> bool {
    |x: usize| par[x as int] == SENTINEL && adj[x as int].len() > 0
}

impl IDTree {
    /// The nodes joined to `v`, `v` included, as a bit set over the nodes.
    pub fn node_connected_component_bitset(&mut self, v: usize) -> (r: FixedBitSet)
        requires
            old(self).wf(),
            v < old(self).num_nodes(),
        ensures
            final(self).wf(),
            final(self).same_trees(old(self)),
            bitset_len(r) == old(self).num_nodes(),
            forall|x: usize| #[trigger] bitset_bits(r).contains(x) <==> x < old(self).num_nodes() && old(self).is_connected(v as int, x as int),
    {
        let ghost old_self = *self;
        let ghost adj = self.adj();
        let ghost par = self.parents();
        let ghost n = self.n as int;
        self.vec_scratch_stack.clear();
        bitset_clear(&mut self.node_bitset_scratch0);
        self.vec_scratch_stack.push(v);
        bitset_insert(&mut self.node_bitset_scratch0, v);
        let ghost mut pushed: Seq<usize> = seq![v];
        proof {
            lemma_connected_refl(adj, v as int);
            assert(same_members(bitset_bits(self.node_bitset_scratch0), pushed)) by {
                assert forall|x: usize| #[trigger] bitset_bits(self.node_bitset_scratch0).contains(x) <==> pushed.contains(x) by {
                    if x == v {
                        assert(pushed[0] == v);
                    }
                }
            }
            assert(pushed.contains(v)) by {
                assert(pushed[0] == v);
            }
            assert(self.vec_scratch_stack@ =~= seq![v]);
            assert(walk_state(adj, par, v, pushed, self.vec_scratch_stack@, None)) by {
                assert forall|x: usize, j: int| is_done(pushed, self.vec_scratch_stack@, None, x) && 0 <= j < adj[x as int].len()
                    implies pushed.contains(#[trigger] adj[x as int][j] as usize) by {
                    assert(self.vec_scratch_stack@[0] == v);
                }
            }
        }
        let ghost stack0 = self.vec_scratch_stack@;
        let mut next = self.vec_scratch_stack.pop();
        proof {
            assert(self.vec_scratch_stack@ == after_pop(stack0));
            lemma_walk_pop(adj, par, v, pushed, stack0, next);
        }
        while next.is_some()
            invariant
                self.core_wf(),
                spans(adj, par, self.depth@),
                self.adj() == adj,
                self.parents() == par,
                self.nodes == old_self.nodes,
                self.depth == old_self.depth,
                n == self.n,
                n == adj.len(),
                v < n,
                same_members(bitset_bits(self.node_bitset_scratch0), pushed),
                walk_state(adj, par, v, pushed, self.vec_scratch_stack@, next),
                next is None ==> self.vec_scratch_stack@.len() == 0,
            decreases 2 * (n - pushed.len()) + self.vec_scratch_stack@.len() + (if next is Some { 1int } else { 0 }),
        {
            let node = next.unwrap();
            proof {
                lemma_pushed_bound(pushed, n);
                let k = choose|k: int| 0 <= k < pushed.len() && pushed[k] == node;
                assert((pushed[k] as int) < adj.len());
                assert(self.nodes@[node as int].nbrs() == adj[node as int]);
            }
            let deg = self.nodes[node].neighbors.len();
            let mut j: usize = 0;
            let ghost diff0 = self.vec_scratch_stack@.len() - pushed.len();
            let ghost p0 = pushed.len();
            while j < deg
                invariant
                    self.core_wf(),
                    spans(adj, par, self.depth@),
                    self.adj() == adj,
                    self.parents() == par,
                    self.nodes == old_self.nodes,
                    self.depth == old_self.depth,
                    n == self.n,
                    n == adj.len(),
                    v < n,
                    node < n,
                    next == Some(node),
                    deg == adj[node as int].len(),
                    j <= deg,
                    self.vec_scratch_stack@.len() - pushed.len() == diff0,
                    pushed.len() >= p0,
                    pushed.len() <= n,
                    same_members(bitset_bits(self.node_bitset_scratch0), pushed),
                    walk_state(adj, par, v, pushed, self.vec_scratch_stack@, next),
                    forall|k: int| 0 <= k < j ==> pushed.contains(#[trigger] adj[node as int][k] as usize),
                decreases deg - j,
            {
                proof {
                    assert(self.nodes@[node as int].nbrs() == adj[node as int]);
                }
                let neighbor = self.nodes[node].neighbors.get(j) as usize;
                proof {
                    assert(graph_wf(adj));
                    assert((adj[node as int][j as int] as int) < adj.len());
                    assert(bitset_len(self.node_bitset_scratch0) == n);
                }
                let ghost bits0 = bitset_bits(self.node_bitset_scratch0);
                if !bitset_put(&mut self.node_bitset_scratch0, neighbor) {
                    let ghost s0 = self.vec_scratch_stack@;
                    self.vec_scratch_stack.push(neighbor);
                    proof {
                        assert(!pushed.contains(neighbor));
                        assert(adj[node as int].contains(neighbor as u32));
                        lemma_walk_push(adj, par, v, pushed, s0, next, node, neighbor);
                        lemma_members_push(bits0, pushed, neighbor);
                        let p2 = pushed.push(neighbor);
                        assert forall|k: int| 0 <= k < j + 1 implies p2.contains(#[trigger] adj[node as int][k] as usize) by {
                            let w = adj[node as int][k] as usize;
                            if k < j {
                                let i = choose|i: int| 0 <= i < pushed.len() && pushed[i] == w;
                                assert(p2[i] == w);
                            } else {
                                assert(p2[p2.len() - 1] == neighbor);
                            }
                        }
                        pushed = p2;
                        lemma_pushed_bound(pushed, n);
                    }
                } else {
                    proof {
                        assert(bitset_bits(self.node_bitset_scratch0) =~= bits0);
                    }
                }
                j += 1;
            }
            proof {
                lemma_walk_finish_node(adj, par, v, pushed, self.vec_scratch_stack@, node);
            }
            let ghost stack1 = self.vec_scratch_stack@;
            next = self.vec_scratch_stack.pop();
            proof {
                assert(self.vec_scratch_stack@ == after_pop(stack1));
                assert(stack1.len() - pushed.len() == diff0);
                lemma_walk_pop(adj, par, v, pushed, stack1, next);
            }
        }
        let r = bitset_clone(&self.node_bitset_scratch0);
        proof {
            assert forall|x: usize| #[trigger] bitset_bits(r).contains(x) <==> x < n && connected(adj, v as int, x as int) by {
                lemma_walk_component(adj, par, v, pushed, self.vec_scratch_stack@, x);
            }
        }
        r
    }

    /// The number of connected components that hold an edge: the roots of
    /// the spanning forest that have a neighbor.
    pub fn num_connected_components(&mut self) -> (r: usize)
        requires
            old(self).wf(),
        ensures
            *final(self) == *old(self),
            r == tree_roots(old(self).adj(), old(self).parents()).len(),
    {
        let ghost adj = self.adj();
        let ghost par = self.parents();
        let ghost pred = root_with_edge(adj, par);
        let ghost all = node_range(adj.len());
        let mut count: usize = 0;
        let mut i: usize = 0;
        while i < self.n
            invariant
                self.wf(),
                *self == *old(self),
                adj == self.adj(),
                par == self.parents(),
                pred == root_with_edge(adj, par),
                all == node_range(adj.len()),
                i <= self.n,
                self.n == adj.len(),
                count == all.subrange(0, i as int).filter(pred).len(),
                count <= i,
            decreases self.n - i,
        {
            proof {
                let sub = all.subrange(0, i as int + 1);
                assert(sub.drop_last() =~= all.subrange(0, i as int));
                assert(sub.last() == i);
                reveal(Seq::filter);
                assert(self.nodes@[i as int].parent == par[i as int]);
            }
            if self.nodes[i].parent == SENTINEL && !self.is_isolated(i) {
                count += 1;
            }
            i += 1;
        }
        proof {
            assert(all.subrange(0, self.n as int) =~= all);
        }
        count
    }

    /// The roots of the spanning forest that have a neighbor, in increasing
    /// order.
    fn component_roots(&mut self) -> (r: Vec<usize>)
        requires
            old(self).wf(),
        ensures
            *final(self) == *old(self),
            r@ == tree_roots(old(self).adj(), old(self).parents()),
    {
        let ghost adj = self.adj();
        let ghost par = self.parents();
        let ghost pred = root_with_edge(adj, par);
        let ghost all = node_range(adj.len());
        let mut r: Vec<usize> = Vec::new();
        let mut i: usize = 0;
        while i < self.n
            invariant
                self.wf(),
                *self == *old(self),
                adj == self.adj(),
                par == self.parents(),
                pred == root_with_edge(adj, par),
                all == node_range(adj.len()),
                i <= self.n,
                self.n == adj.len(),
                r@ == all.subrange(0, i as int).filter(pred),
            decreases self.n - i,
        {
            proof {
                let sub = all.subrange(0, i as int + 1);
                assert(sub.drop_last() =~= all.subrange(0, i as int));
                assert(sub.last() == i);
                reveal(Seq::filter);
                assert(self.nodes@[i as int].parent == par[i as int]);
            }
            if self.nodes[i].parent == SENTINEL && !self.is_isolated(i) {
                r.push(i);
            }
            i += 1;
        }
        proof {
            assert(all.subrange(0, self.n as int) =~= all);
        }
        r
    }

    /// The connected components that hold an edge, one for each root of the
    /// spanning forest with a neighbor, in increasing order of those roots.
    pub fn connected_components(&mut self) -> (r: Vec<Vec<usize>>)
        requires
            old(self).wf(),
        ensures
            *final(self) == *old(self),
            r@.len() == tree_roots(old(self).adj(), old(self).parents()).len(),
            forall|i: int| 0 <= i < r@.len() ==> (#[trigger] r@[i])@.no_duplicates(),
            forall|i: int, x: usize|
                0 <= i < r@.len() ==> (#[trigger] r@[i]@.contains(x) <==> x < old(self).num_nodes() && old(self).is_connected(
                    tree_roots(old(self).adj(), old(self).parents())[i] as int,
                    x as int,
                )),
    {
        let roots = self.component_roots();
        let ghost adj = self.adj();
        let mut r: Vec<Vec<usize>> = Vec::with_capacity(roots.len());
        let mut i: usize = 0;
        while i < roots.len()
            invariant
                self.wf(),
                *self == *old(self),
                adj == self.adj(),
                roots@ == tree_roots(adj, self.parents()),
                i <= roots@.len(),
                r@.len() == i,
                forall|k: int| 0 <= k < i ==> (#[trigger] r@[k])@.no_duplicates(),
                forall|k: int, x: usize|
                    0 <= k < i ==> (#[trigger] r@[k]@.contains(x) <==> x < adj.len() && connected(adj, roots@[k] as int, x as int)),
            decreases roots@.len() - i,
        {
            proof {
                let pred = root_with_edge(adj, self.parents());
                let all = node_range(adj.len());
                assert(all.filter(pred).contains(roots@[i as int]));
                all.lemma_filter_contains_rev(pred, roots@[i as int]);
                let k = choose|k: int| 0 <= k < all.len() && all[k] == roots@[i as int];
                assert(roots@[i as int] < adj.len());
            }
            let c = self.node_connected_component(roots[i]);
            r.push(c);
            i += 1;
        }
        r
    }

    /// The nodes with at least one neighbor, as a set.
    pub fn active_nodes_set(&mut self) -> (r: IntSet<usize>)
        requires
            old(self).wf(),
        ensures
            *final(self) == *old(self),
            r@ == active_nodes(old(self).adj()).to_set(),
    {
        let ghost adj = self.adj();
        let ghost pred = |x: usize| is_active(adj, x);
        let ghost all = Seq::new(adj.len(), |i: int| i as usize);
        let mut active = intset_with_capacity(self.n);
        let mut i: usize = 0;
        while i < self.n
            invariant
                self.wf(),
                *self == *old(self),
                adj == self.adj(),
                pred == (|x: usize| is_active(adj, x)),
                all == Seq::new(adj.len(), |q: int| q as usize),
                i <= self.n,
                self.n == adj.len(),
                active@ == all.subrange(0, i as int).filter(pred).to_set(),
            decreases self.n - i,
        {
            proof {
                let sub = all.subrange(0, i as int + 1);
                assert(sub.drop_last() =~= all.subrange(0, i as int));
                assert(sub.last() == i);
                reveal(Seq::filter);
                crate::counting::lemma_push_to_set(all.subrange(0, i as int).filter(pred), i);
            }
            if !self.is_isolated(i) {
                intset_insert(&mut active, i);
            }
            i += 1;
        }
        proof {
            assert(all.subrange(0, self.n as int) =~= all);
        }
        active
    }

    /// The nodes with at least one neighbor, as a bit set over the nodes.
    pub fn active_nodes_bitset(&mut self) -> (r: FixedBitSet)
        requires
            old(self).wf(),
        ensures
            *final(self) == *old(self),
            bitset_len(r) == old(self).num_nodes(),
            bitset_bits(r) == active_nodes(old(self).adj()).to_set(),
    {
        let ghost adj = self.adj();
        let ghost pred = |x: usize| is_active(adj, x);
        let ghost all = Seq::new(adj.len(), |i: int| i as usize);
        let mut active = bitset_with_capacity(self.n);
        let mut i: usize = 0;
        while i < self.n
            invariant
                self.wf(),
                *self == *old(self),
                adj == self.adj(),
                pred == (|x: usize| is_active(adj, x)),
                all == Seq::new(adj.len(), |q: int| q as usize),
                i <= self.n,
                self.n == adj.len(),
                bitset_len(active) == self.n,
                bitset_bits(active) == all.subrange(0, i as int).filter(pred).to_set(),
            decreases self.n - i,
        {
            proof {
                let sub = all.subrange(0, i as int + 1);
                assert(sub.drop_last() =~= all.subrange(0, i as int));
                assert(sub.last() == i);
                reveal(Seq::filter);
                crate::counting::lemma_push_to_set(all.subrange(0, i as int).filter(pred), i);
            }
            if !self.is_isolated(i) {
                bitset_insert(&mut active, i);
            }
            i += 1;
        }
        proof {
            assert(all.subrange(0, self.n as int) =~= all);
            assert(Seq::<usize>::empty().to_set() =~= Set::<usize>::empty());
        }
        active
    }
}

} // verus!
