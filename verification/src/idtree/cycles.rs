//! The fundamental cycle basis of a component, with the spanning forest of
//! the ID-Tree as its spanning tree.
use vstd::prelude::*;
use crate::idtree::IDTree;
use crate::forest::{SENTINEL, forest_wf, root};
use crate::graph::{
    has_edge, graph_wf, connected, spans, edges_within_trees, lemma_connected_refl, lemma_connected_edge,
    lemma_connected_trans,
};
use crate::distance::lemma_closed_reach;
use crate::paths::{
    up_chain, tree_path, non_tree_edge, fundamental_cycle, cycle_ends, lemma_chain_push, dfs_scan, dfs_run, basis_ends,
    lemma_chain_distinct, lemma_chain_root, lemma_join_chains,
};
use crate::bitset_spec::{bitset_bits, bitset_len, bitset_clear, bitset_set, bitset_contains};
use crate::idtree::parents_of;
use crate::sizes::sizes_exact;
use crate::node::Node;
use fixedbitset::FixedBitSet;

verus! {

/// Whether `x` occurs in `v`.
fn holds(v: &Vec<usize>, x: usize) -> (r: bool)
    ensures
        r == v@.contains(x),
{
    let mut i: usize = 0;
    while i < v.len()
        invariant
            i <= v.len(),
            forall|k: int| 0 <= k < i ==> v@[k] != x,
        decreases v.len() - i,
    {
        if v[i] == x {
            return true;
        }
        i += 1;
    }
    false
}

/// The last id of `pu` that also occurs in `pv`.
fn last_common(pu: &Vec<usize>, pv: &Vec<usize>) -> (r: usize)
    requires
        exists|i: int, j: int| 0 <= i < pu@.len() && 0 <= j < pv@.len() && pu@[i] == pv@[j],
    ensures
        pu@.contains(r),
        pv@.contains(r),
{
    let mut k = pu.len();
    while k > 0
        invariant
            k <= pu@.len(),
            forall|i: int| k <= i < pu@.len() ==> !pv@.contains(#[trigger] pu@[i]),
            exists|i: int, j: int| 0 <= i < pu@.len() && 0 <= j < pv@.len() && pu@[i] == pv@[j],
        decreases k,
    {
        if holds(pv, pu[k - 1]) {
            return pu[k - 1];
        }
        k -= 1;
    }
    proof {
        let (i, j) = choose|i: int, j: int| 0 <= i < pu@.len() && 0 <= j < pv@.len() && pu@[i] == pv@[j];
        assert(pv@.contains(pu@[i]));
    }
    0
}

/// One step of a climb: moves from the last node of `path` to its parent,
/// marks the parent in `mine` and records it in `path`. Returns the parent
/// and whether the other climb, whose marks are `theirs`, has passed it.
fn climb(
    nodes: &Vec<Node>,
    mine: &mut FixedBitSet,
    theirs: &FixedBitSet,
    path: &mut Vec<usize>,
    Ghost(par): Ghost<Seq<usize>>,
    Ghost(dep): Ghost<Seq<nat>>,
    Ghost(x): Ghost<usize>,
) -> (r: (usize, bool))
    requires
        forest_wf(par, dep),
        parents_of(nodes@) == par,
        up_chain(par, dep, old(path)@, x),
        par[old(path)@.last() as int] != SENTINEL,
        bitset_len(*old(mine)) == par.len(),
        bitset_len(*theirs) == par.len(),
        forall|y: usize| bitset_bits(*old(mine)).contains(y) <==> old(path)@.contains(y),
    ensures
        final(path)@ == old(path)@.push(par[old(path)@.last() as int]),
        up_chain(par, dep, final(path)@, x),
        r.0 == final(path)@.last(),
        r.1 == bitset_bits(*theirs).contains(r.0),
        bitset_len(*final(mine)) == par.len(),
        forall|y: usize| bitset_bits(*final(mine)).contains(y) <==> final(path)@.contains(y),
{
    let ghost prev = path@;
    let last = path[path.len() - 1];
    proof {
        assert(nodes@[last as int].parent == par[last as int]);
        lemma_chain_push(par, dep, prev, x);
        lemma_chain_distinct(par, dep, prev.push(par[last as int]), x);
    }
    let a = nodes[last].parent;
    proof {
        assert((a as int) < par.len());
        if prev.contains(a) {
            let q = prev.push(a);
            let k = choose|k: int| 0 <= k < prev.len() && prev[k] == a;
            assert(q[k] == a);
            assert(q[q.len() - 1] == a);
        }
        assert(!bitset_bits(*mine).contains(a));
    }
    bitset_set(mine, a, true);
    path.push(a);
    proof {
        assert forall|y: usize| bitset_bits(*mine).contains(y) <==> path@.contains(y) by {
            if y == a {
                assert(path@[path@.len() - 1] == a);
            } else if path@.contains(y) {
                let k = choose|k: int| 0 <= k < path@.len() && path@[k] == y;
                assert(prev[k] == y);
            } else if prev.contains(y) {
                let k = choose|k: int| 0 <= k < prev.len() && prev[k] == y;
                assert(path@[k] == y);
            }
        }
    }
    let met = bitset_contains(theirs, a);
    (a, met)
}

impl IDTree {
    /// The forest path from `u` to `v`, two nodes of one tree: both ends
    /// climb towards the root in turn, each marking the nodes it passes,
    /// until one climb reaches a node the other has marked; that node is
    /// their lowest common ancestor, where the two climbs are joined.
    fn tree_cycle(&mut self, u: usize, v: usize) -> (r: Vec<usize>)
        requires
            old(self).wf(),
            u < old(self).n,
            v < old(self).n,
            u != v,
            root(old(self).parents(), old(self).depth@, u) == root(old(self).parents(), old(self).depth@, v),
        ensures
            final(self).wf(),
            final(self).nodes == old(self).nodes,
            final(self).depth == old(self).depth,
            final(self).n == old(self).n,
            final(self).vec_scratch_stack == old(self).vec_scratch_stack,
            final(self).node_bitset_scratch0 == old(self).node_bitset_scratch0,
            tree_path(old(self).parents(), r@, u, v),
    {
        let ghost old_self = *self;
        let ghost par = self.parents();
        let ghost dep = self.depth@;
        let ghost n = self.n as int;
        let mut path_u: Vec<usize> = Vec::with_capacity(self.n);
        let mut path_v: Vec<usize> = Vec::with_capacity(self.n);
        path_u.push(u);
        path_v.push(v);
        bitset_clear(&mut self.node_bitset_scratch1);
        bitset_clear(&mut self.node_bitset_scratch2);
        bitset_set(&mut self.node_bitset_scratch1, u, true);
        bitset_set(&mut self.node_bitset_scratch2, v, true);
        let mut a = u;
        let mut b = v;
        let mut stop = false;
        let ghost mut im: int = 0;
        let ghost mut jm: int = 0;
        proof {
            assert(forest_wf(par, dep));
            assert forall|x: usize| bitset_bits(self.node_bitset_scratch1).contains(x) <==> path_u@.contains(x) by {
                if x == u {
                    assert(path_u@[0] == u);
                }
            }
            assert forall|x: usize| bitset_bits(self.node_bitset_scratch2).contains(x) <==> path_v@.contains(x) by {
                if x == v {
                    assert(path_v@[0] == v);
                }
            }
        }
        while !stop && a != b
            invariant
                forest_wf(par, dep),
                parents_of(self.nodes@) == par,
                self.nodes == old_self.nodes,
                self.depth == old_self.depth,
                self.n == old_self.n,
                self.generation == old_self.generation,
                self.generations == old_self.generations,
                self.distances == old_self.distances,
                self.vec_scratch_stack == old_self.vec_scratch_stack,
                self.node_bitset_scratch0 == old_self.node_bitset_scratch0,
                self.vec_scratch_nodes == old_self.vec_scratch_nodes,
                self.deque_scratch == old_self.deque_scratch,
                bitset_len(self.node_bitset_scratch1) == n,
                bitset_len(self.node_bitset_scratch2) == n,
                dep == self.depth@,
                n == self.n,
                n == par.len(),
                u < n,
                v < n,
                root(par, dep, u) == root(par, dep, v),
                up_chain(par, dep, path_u@, u),
                up_chain(par, dep, path_v@, v),
                a == path_u@.last(),
                b == path_v@.last(),
                forall|x: usize| bitset_bits(self.node_bitset_scratch1).contains(x) <==> path_u@.contains(x),
                forall|x: usize| bitset_bits(self.node_bitset_scratch2).contains(x) <==> path_v@.contains(x),
                !stop ==> a != b,
                !stop ==> forall|x: int, y: int| 0 <= x < path_u@.len() && 0 <= y < path_v@.len() ==> path_u@[x] != path_v@[y],
                stop ==> 0 <= im < path_u@.len() && 0 <= jm < path_v@.len() && path_u@[im] == path_v@[jm],
                stop ==> forall|x: int, y: int| 0 <= x < path_u@.len() && 0 <= y < path_v@.len() && path_u@[x] == path_v@[y]
                    ==> x == im && y == jm,
            decreases dep[a as int] + dep[b as int],
        {
            let ghost a0 = a;
            let ghost b0 = b;
            proof {
                lemma_chain_root(par, dep, path_u@, u, path_u@.len() - 1);
                lemma_chain_root(par, dep, path_v@, v, path_v@.len() - 1);
                assert(path_u@[path_u@.len() - 1] == a);
                assert(path_v@[path_v@.len() - 1] == b);
                assert(self.nodes@[a as int].parent == par[a as int]);
                assert(self.nodes@[b as int].parent == par[b as int]);
                if par[a as int] == SENTINEL && par[b as int] == SENTINEL {
                    assert(root(par, dep, a) == a);
                    assert(root(par, dep, b) == b);
                }
            }
            if self.nodes[a].parent != SENTINEL {
                let ghost pv = path_v@;
                let (na, met) = climb(
                    &self.nodes,
                    &mut self.node_bitset_scratch1,
                    &self.node_bitset_scratch2,
                    &mut path_u,
                    Ghost(par),
                    Ghost(dep),
                    Ghost(u),
                );
                a = na;
                if met {
                    proof {
                        im = path_u@.len() - 1;
                        assert(pv.contains(a));
                        jm = choose|j: int| 0 <= j < pv.len() && pv[j] == a;
                        assert(path_u@[im] == a);
                        lemma_chain_distinct(par, dep, path_v@, v);
                        assert forall|x: int, y: int| 0 <= x < path_u@.len() && 0 <= y < path_v@.len() && path_u@[x] == path_v@[y]
                            implies x == im && y == jm by {
                            if x < im {
                                assert(path_u@[x] == path_u@.drop_last()[x]);
                            }
                        }
                    }
                    stop = true;
                } else {
                    proof {
                        assert forall|x: int, y: int| 0 <= x < path_u@.len() && 0 <= y < path_v@.len() implies path_u@[x] != path_v@[y] by {
                            if x < path_u@.len() - 1 {
                                assert(path_u@[x] == path_u@.drop_last()[x]);
                            } else {
                                assert(path_v@.contains(path_v@[y]));
                            }
                        }
                    }
                }
            }
            if !stop && self.nodes[b].parent != SENTINEL && a != b {
                let ghost pu = path_u@;
                let (nb, met) = climb(
                    &self.nodes,
                    &mut self.node_bitset_scratch2,
                    &self.node_bitset_scratch1,
                    &mut path_v,
                    Ghost(par),
                    Ghost(dep),
                    Ghost(v),
                );
                b = nb;
                if met {
                    proof {
                        jm = path_v@.len() - 1;
                        assert(pu.contains(b));
                        im = choose|i: int| 0 <= i < pu.len() && pu[i] == b;
                        assert(path_v@[jm] == b);
                        lemma_chain_distinct(par, dep, path_u@, u);
                        assert forall|x: int, y: int| 0 <= x < path_u@.len() && 0 <= y < path_v@.len() && path_u@[x] == path_v@[y]
                            implies x == im && y == jm by {
                            if y < jm {
                                assert(path_v@[y] == path_v@.drop_last()[y]);
                            }
                        }
                    }
                    stop = true;
                } else {
                    proof {
                        assert forall|x: int, y: int| 0 <= x < path_u@.len() && 0 <= y < path_v@.len() implies path_u@[x] != path_v@[y] by {
                            if y < path_v@.len() - 1 {
                                assert(path_v@[y] == path_v@.drop_last()[y]);
                            } else {
                                assert(path_u@.contains(path_u@[x]));
                            }
                        }
                    }
                }
            }
            proof {
                assert(dep[a as int] + dep[b as int] < dep[a0 as int] + dep[b0 as int]);
            }
        }
        proof {
            assert(stop);
            assert(path_v@.contains(path_u@[im]));
        }
        let r = join_climbs(path_u, path_v, Ghost(par), Ghost(dep), Ghost(u), Ghost(v), Ghost(im), Ghost(jm));
        proof {
            assert(self.adj() == old_self.adj());
            assert(self.parents() == old_self.parents());
        }
        r
    }
}

/// Joins two climbs, from `u` and from `v`, that meet exactly once, at
/// `path_u[im] == path_v[jm]`: the climb from `u` up to the meeting node,
/// then the climb from `v` backwards down to `v`.
fn join_climbs(
    path_u: Vec<usize>,
    path_v: Vec<usize>,
    Ghost(par): Ghost<Seq<usize>>,
    Ghost(dep): Ghost<Seq<nat>>,
    Ghost(u): Ghost<usize>,
    Ghost(v): Ghost<usize>,
    Ghost(im): Ghost<int>,
    Ghost(jm): Ghost<int>,
) -> (r: Vec<usize>)
    requires
        up_chain(par, dep, path_u@, u),
        up_chain(par, dep, path_v@, v),
        0 <= im < path_u@.len(),
        0 <= jm < path_v@.len(),
        path_u@[im] == path_v@[jm],
        forall|x: int, y: int| 0 <= x < path_u@.len() && 0 <= y < path_v@.len() && path_u@[x] == path_v@[y]
            ==> x == im && y == jm,
    ensures
        tree_path(par, r@, u, v),
{
    let mut path_u = path_u;
    let mut path_v = path_v;
    proof {
        assert(path_v@.contains(path_u@[im]));
    }
        let lca = last_common(&path_u, &path_v);
        let ghost pu0 = path_u@;
        let ghost pv0 = path_v@;
        proof {
            let i = choose|i: int| 0 <= i < pu0.len() && pu0[i] == lca;
            let j = choose|j: int| 0 <= j < pv0.len() && pv0[j] == lca;
            assert(i == im && j == jm);
            lemma_chain_distinct(par, dep, pu0, u);
            lemma_chain_distinct(par, dep, pv0, v);
        }
        while path_u[path_u.len() - 1] != lca
            invariant
                0 <= im < path_u@.len() <= pu0.len(),
                path_u@ == pu0.subrange(0, path_u@.len() as int),
                pu0[im] == lca,
                pu0.no_duplicates(),
            decreases path_u@.len(),
        {
            proof {
                if path_u@.len() - 1 == im {
                    assert(path_u@[im] == pu0[im]);
                }
            }
            path_u.pop();
        }
        proof {
            let l = path_u@.len() - 1;
            assert(path_u@[l] == pu0[l]);
            assert(l == im);
        }
        while path_v[path_v.len() - 1] != lca
            invariant
                0 <= jm < path_v@.len() <= pv0.len(),
                path_v@ == pv0.subrange(0, path_v@.len() as int),
                pv0[jm] == lca,
                pv0.no_duplicates(),
            decreases path_v@.len(),
        {
            proof {
                if path_v@.len() - 1 == jm {
                    assert(path_v@[jm] == pv0[jm]);
                }
            }
            path_v.pop();
        }
        proof {
            let l = path_v@.len() - 1;
            assert(path_v@[l] == pv0[l]);
            assert(l == jm);
        }
        path_v.pop();
        let mut rest = reversed_ids(&path_v);
        path_u.append(&mut rest);
        proof {
            lemma_join_chains(par, dep, pu0, pv0, u, v, im, jm);
            assert(path_u@ =~= pu0.subrange(0, im + 1) + pv0.subrange(0, jm).reverse());
        }
        path_u
}


/// The ids of `v` in reverse order.
pub(crate) fn reversed_ids(v: &Vec<usize>) -> (r: Vec<usize>)
    ensures
        r@ == v@.reverse(),
{
    let mut r: Vec<usize> = Vec::with_capacity(v.len());
    let mut i = v.len();
    while i > 0
        invariant
            i <= v.len(),
            r@ == v@.subrange(i as int, v.len() as int).reverse(),
        decreases i,
    {
        i -= 1;
        r.push(v[i]);
        proof {
            assert(r@ =~= v@.subrange(i as int, v.len() as int).reverse());
        }
    }
    proof {
        assert(v@.subrange(0, v.len() as int) =~= v@);
    }
    r
}

/// The nodes marked in `bits` are exactly those listed in `pushed`.
pub open spec fn marks_listed(bits: Set<usize>, pushed: Seq<usize>) -> bool {
    forall|x: usize| #[trigger] bits.contains(x) <==> pushed.contains(x)
}

/// A node is done once it has been listed and taken off the stack, and is
/// not the node being worked on.
pub open spec fn is_done(pushed: Seq<usize>, stack: Seq<usize>, cur: Option<usize>, x: usize) -> bool {
    &&& pushed.contains(x)
    &&& !stack.contains(x)
    &&& cur != Some(x)
}

/// The state of the depth-first walk of `cycle_basis` from `root`.
pub open spec fn walk_state(
    adj: Seq<Seq<u32>>,
    par: Seq<usize>,
    root: usize,
    pushed: Seq<usize>,
    stack: Seq<usize>,
    cur: Option<usize>,
) -> bool {
    &&& pushed.len() >= 1
    &&& pushed[0] == root
    &&& pushed.no_duplicates()
    &&& forall|k: int| 0 <= k < pushed.len() ==> (#[trigger] pushed[k] as int) < adj.len()
    &&& forall|k: int| 0 <= k < pushed.len() ==> connected(adj, root as int, #[trigger] pushed[k] as int)
    &&& stack.no_duplicates()
    &&& forall|k: int| 0 <= k < stack.len() ==> pushed.contains(#[trigger] stack[k])
    &&& cur matches Some(c) ==> pushed.contains(c) && !stack.contains(c)
    &&& forall|x: usize, j: int|
        is_done(pushed, stack, cur, x) && 0 <= j < adj[x as int].len() ==> pushed.contains(
            #[trigger] adj[x as int][j] as usize,
        )
}

/// The cycles found: each is a fundamental cycle, no two share their ends,
/// and their ends are the edges outside the forest that leave a done node
/// towards a larger one, or leave the node being worked on through one of
/// its first `j` neighbors.
pub open spec fn cycles_found(
    adj: Seq<Seq<u32>>,
    par: Seq<usize>,
    pushed: Seq<usize>,
    stack: Seq<usize>,
    cur: Option<usize>,
    j: int,
    cycles: Seq<Vec<usize>>,
) -> bool {
    &&& forall|i: int| 0 <= i < cycles.len() ==> fundamental_cycle(adj, par, #[trigger] cycles[i]@)
    &&& cycle_ends(cycles).no_duplicates()
    &&& forall|a: usize, b: usize|
        #[trigger] cycle_ends(cycles).contains((a, b)) <==> non_tree_edge(adj, par, a, b) && (is_done(
            pushed,
            stack,
            cur,
            a,
        ) || (cur == Some(a) && exists|k: int| 0 <= k < j && adj[a as int][k] == b as u32))
}


/// The stack after popping its top, if any.
pub open spec fn after_pop(stack: Seq<usize>) -> Seq<usize> {
    if stack.len() > 0 { stack.drop_last() } else { stack }
}

/// The top of the stack, if any.
pub open spec fn top_of(stack: Seq<usize>) -> Option<usize> {
    if stack.len() > 0 { Some(stack.last()) } else { None }
}

proof fn lemma_listed_marks(bits: Set<usize>, pushed: Seq<usize>, v: usize)
    requires
        marks_listed(bits, pushed),
    ensures
        marks_listed(bits.insert(v), pushed.push(v)),
{
    let p2 = pushed.push(v);
    assert forall|x: usize| #[trigger] bits.insert(v).contains(x) <==> p2.contains(x) by {
        if x == v {
            assert(p2[p2.len() - 1] == v);
        } else if pushed.contains(x) {
            let k = choose|k: int| 0 <= k < pushed.len() && pushed[k] == x;
            assert(p2[k] == x);
        } else if p2.contains(x) {
            let k = choose|k: int| 0 <= k < p2.len() && p2[k] == x;
            assert(k < pushed.len());
            assert(pushed[k] == x);
        }
    }
}

proof fn lemma_done_push(pushed: Seq<usize>, stack: Seq<usize>, cur: Option<usize>, v: usize, x: usize)
    requires
        !pushed.contains(v),
    ensures
        is_done(pushed.push(v), stack.push(v), cur, x) <==> is_done(pushed, stack, cur, x),
{
    let p2 = pushed.push(v);
    let s2 = stack.push(v);
    if x == v {
        assert(s2[s2.len() - 1] == v);
    } else {
        if pushed.contains(x) {
            let k = choose|k: int| 0 <= k < pushed.len() && pushed[k] == x;
            assert(p2[k] == x);
        }
        if p2.contains(x) {
            let k = choose|k: int| 0 <= k < p2.len() && p2[k] == x;
            assert(pushed[k] == x);
        }
        if stack.contains(x) {
            let k = choose|k: int| 0 <= k < stack.len() && stack[k] == x;
            assert(s2[k] == x);
        }
        if s2.contains(x) {
            let k = choose|k: int| 0 <= k < s2.len() && s2[k] == x;
            assert(stack[k] == x);
        }
    }
}

pub(crate) proof fn lemma_walk_push(
    adj: Seq<Seq<u32>>,
    par: Seq<usize>,
    root: usize,
    pushed: Seq<usize>,
    stack: Seq<usize>,
    cur: Option<usize>,
    u: usize,
    v: usize,
)
    requires
        walk_state(adj, par, root, pushed, stack, cur),
        cur == Some(u),
        has_edge(adj, u as int, v as int),
        !pushed.contains(v),
    ensures
        walk_state(adj, par, root, pushed.push(v), stack.push(v), cur),
{
    let p2 = pushed.push(v);
    let s2 = stack.push(v);
    let ku = choose|k: int| 0 <= k < pushed.len() && pushed[k] == u;
    assert(connected(adj, root as int, pushed[ku] as int));
    lemma_connected_edge(adj, u as int, v as int);
    lemma_connected_trans(adj, root as int, u as int, v as int);
    assert forall|k: int| 0 <= k < p2.len() implies connected(adj, root as int, #[trigger] p2[k] as int) && (p2[k] as int) < adj.len() by {
        if k < pushed.len() {
            assert(p2[k] == pushed[k]);
        }
    }
    assert(p2.no_duplicates()) by {
        assert forall|i: int, j: int| 0 <= i < j < p2.len() implies p2[i] != p2[j] by {
            if j == pushed.len() {
                assert(pushed.contains(pushed[i]));
            }
        }
    }
    assert(s2.no_duplicates()) by {
        assert forall|i: int, j: int| 0 <= i < j < s2.len() implies s2[i] != s2[j] by {
            if j == stack.len() {
                assert(pushed.contains(stack[i]));
            }
        }
    }
    assert forall|k: int| 0 <= k < s2.len() implies p2.contains(#[trigger] s2[k]) by {
        if k < stack.len() {
            assert(pushed.contains(stack[k]));
            let i = choose|i: int| 0 <= i < pushed.len() && pushed[i] == stack[k];
            assert(p2[i] == s2[k]);
        } else {
            assert(p2[p2.len() - 1] == v);
        }
    }
    assert(p2.contains(u)) by {
        assert(p2[ku] == u);
    }
    assert(!s2.contains(u)) by {
        if s2.contains(u) {
            let k = choose|k: int| 0 <= k < s2.len() && s2[k] == u;
            assert(stack[k] == u);
        }
    }
    assert forall|x: usize, j: int| is_done(p2, s2, cur, x) && 0 <= j < adj[x as int].len() implies p2.contains(
        #[trigger] adj[x as int][j] as usize,
    ) by {
        lemma_done_push(pushed, stack, cur, v, x);
        let w = adj[x as int][j] as usize;
        let i = choose|i: int| 0 <= i < pushed.len() && pushed[i] == w;
        assert(p2[i] == w);
    }
}

proof fn lemma_found_push(
    adj: Seq<Seq<u32>>,
    par: Seq<usize>,
    pushed: Seq<usize>,
    stack: Seq<usize>,
    cur: Option<usize>,
    j: int,
    cycles: Seq<Vec<usize>>,
    v: usize,
)
    requires
        cycles_found(adj, par, pushed, stack, cur, j, cycles),
        !pushed.contains(v),
    ensures
        cycles_found(adj, par, pushed.push(v), stack.push(v), cur, j, cycles),
{
    assert forall|a: usize, b: usize| #[trigger] cycle_ends(cycles).contains((a, b)) <==> non_tree_edge(adj, par, a, b) && (is_done(
        pushed.push(v),
        stack.push(v),
        cur,
        a,
    ) || (cur == Some(a) && exists|k: int| 0 <= k < j && adj[a as int][k] == b as u32)) by {
        lemma_done_push(pushed, stack, cur, v, a);
    }
}

proof fn lemma_found_skip(
    adj: Seq<Seq<u32>>,
    par: Seq<usize>,
    pushed: Seq<usize>,
    stack: Seq<usize>,
    u: usize,
    j: int,
    cycles: Seq<Vec<usize>>,
)
    requires
        cycles_found(adj, par, pushed, stack, Some(u), j, cycles),
        0 <= j < adj[u as int].len(),
        adj.len() <= u32::MAX,
        (adj[u as int][j] as int) < adj.len(),
        !non_tree_edge(adj, par, u, adj[u as int][j] as usize),
    ensures
        cycles_found(adj, par, pushed, stack, Some(u), j + 1, cycles),
{
    let v = adj[u as int][j] as usize;
    assert forall|a: usize, b: usize| #[trigger] cycle_ends(cycles).contains((a, b)) <==> non_tree_edge(adj, par, a, b) && (is_done(
        pushed,
        stack,
        Some(u),
        a,
    ) || (Some(u) == Some(a) && exists|k: int| 0 <= k < j + 1 && adj[a as int][k] == b as u32)) by {
        if a == u && non_tree_edge(adj, par, a, b) && adj[a as int][j] == b as u32 {
            assert(b == v);
        }
        if exists|k: int| 0 <= k < j && adj[a as int][k] == b as u32 {
            let k = choose|k: int| 0 <= k < j && adj[a as int][k] == b as u32;
            assert(0 <= k < j + 1 && adj[a as int][k] == b as u32);
        }
        if a == u && exists|k: int| 0 <= k < j + 1 && adj[a as int][k] == b as u32 {
            let k = choose|k: int| 0 <= k < j + 1 && adj[a as int][k] == b as u32;
            if k < j {
            } else {
                assert(b as u32 == adj[u as int][j]);
            }
        }
    }
}

proof fn lemma_found_cycle(
    adj: Seq<Seq<u32>>,
    par: Seq<usize>,
    pushed: Seq<usize>,
    stack: Seq<usize>,
    u: usize,
    j: int,
    cycles: Seq<Vec<usize>>,
    c: Vec<usize>,
)
    requires
        cycles_found(adj, par, pushed, stack, Some(u), j, cycles),
        graph_wf(adj),
        adj.len() <= u32::MAX,
        0 <= u < adj.len(),
        0 <= j < adj[u as int].len(),
        non_tree_edge(adj, par, u, adj[u as int][j] as usize),
        tree_path(par, c@, u, adj[u as int][j] as usize),
    ensures
        cycles_found(adj, par, pushed, stack, Some(u), j + 1, cycles.push(c)),
{
    let v = adj[u as int][j] as usize;
    let c2 = cycles.push(c);
    assert((adj[u as int][j] as int) < adj.len());
    assert(v as u32 == adj[u as int][j]);
    assert(cycle_ends(c2) =~= cycle_ends(cycles).push((u, v)));
    assert forall|i: int| 0 <= i < c2.len() implies fundamental_cycle(adj, par, #[trigger] c2[i]@) by {
        if i < cycles.len() {
            assert(c2[i] == cycles[i]);
        }
    }
    assert(!cycle_ends(cycles).contains((u, v))) by {
        if cycle_ends(cycles).contains((u, v)) {
            let k = choose|k: int| 0 <= k < j && adj[u as int][k] == v as u32;
            assert(adj[u as int].no_duplicates());
        }
    }
    assert(cycle_ends(c2).no_duplicates()) by {
        let e = cycle_ends(cycles);
        let e2 = cycle_ends(c2);
        assert forall|x: int, y: int| 0 <= x < y < e2.len() implies e2[x] != e2[y] by {
            if y == e.len() {
                assert(e2[x] == e[x]);
                assert(e.contains(e[x]));
            } else {
                assert(e2[x] == e[x] && e2[y] == e[y]);
            }
        }
    }
    let e = cycle_ends(cycles);
    let e2 = cycle_ends(c2);
    assert forall|a: usize, b: usize| #[trigger] e2.contains((a, b)) implies non_tree_edge(adj, par, a, b) && (is_done(
        pushed,
        stack,
        Some(u),
        a,
    ) || (Some(u) == Some(a) && exists|k: int| 0 <= k < j + 1 && adj[a as int][k] == b as u32)) by {
        let k = choose|k: int| 0 <= k < e2.len() && e2[k] == (a, b);
        if k < e.len() {
            assert(e[k] == (a, b));
            assert(e.contains((a, b)));
            if !is_done(pushed, stack, Some(u), a) {
                let k2 = choose|k2: int| 0 <= k2 < j && adj[a as int][k2] == b as u32;
                assert(0 <= k2 < j + 1 && adj[a as int][k2] == b as u32);
            }
        } else {
            assert(a == u && b == v);
            assert(0 <= j < j + 1 && adj[a as int][j] == b as u32);
        }
    }
    assert forall|a: usize, b: usize| non_tree_edge(adj, par, a, b) && (is_done(
        pushed,
        stack,
        Some(u),
        a,
    ) || (Some(u) == Some(a) && exists|k: int| 0 <= k < j + 1 && adj[a as int][k] == b as u32)) implies #[trigger] e2.contains((a, b)) by {
        if a == u && b == v {
            assert(e2[e.len() as int] == (a, b));
        } else {
            if !is_done(pushed, stack, Some(u), a) {
                let k = choose|k: int| 0 <= k < j + 1 && adj[a as int][k] == b as u32;
                if k == j {
                    assert((b as int) < adj.len());
                    assert(b as u32 == adj[u as int][j]);
                    assert(b == v);
                }
                assert(0 <= k < j && adj[a as int][k] == b as u32);
            }
            assert(e.contains((a, b)));
            let k = choose|k: int| 0 <= k < e.len() && e[k] == (a, b);
            assert(e2[k] == (a, b));
        }
    }
}

pub(crate) proof fn lemma_walk_finish_node(adj: Seq<Seq<u32>>, par: Seq<usize>, root: usize, pushed: Seq<usize>, stack: Seq<usize>, u: usize)
    requires
        walk_state(adj, par, root, pushed, stack, Some(u)),
        forall|k: int| 0 <= k < adj[u as int].len() ==> pushed.contains(#[trigger] adj[u as int][k] as usize),
    ensures
        walk_state(adj, par, root, pushed, stack, None),
{
    assert forall|x: usize, j: int| is_done(pushed, stack, None, x) && 0 <= j < adj[x as int].len() implies pushed.contains(
        #[trigger] adj[x as int][j] as usize,
    ) by {
        if x != u {
            assert(is_done(pushed, stack, Some(u), x));
        }
    }
}

proof fn lemma_found_finish_node(
    adj: Seq<Seq<u32>>,
    par: Seq<usize>,
    pushed: Seq<usize>,
    stack: Seq<usize>,
    u: usize,
    cycles: Seq<Vec<usize>>,
)
    requires
        cycles_found(adj, par, pushed, stack, Some(u), adj[u as int].len() as int, cycles),
        adj.len() <= u32::MAX,
        pushed.contains(u),
        !stack.contains(u),
    ensures
        cycles_found(adj, par, pushed, stack, None, 0, cycles),
{
    assert forall|a: usize, b: usize| #[trigger] cycle_ends(cycles).contains((a, b)) <==> non_tree_edge(adj, par, a, b) && (is_done(
        pushed,
        stack,
        None,
        a,
    ) || (None::<usize> == Some(a) && exists|k: int| 0 <= k < 0 && adj[a as int][k] == b as u32)) by {
        if a == u && non_tree_edge(adj, par, a, b) {
            assert(adj[a as int].contains(b as u32));
            let k = adj[a as int].index_of(b as u32);
            assert(0 <= k < adj[u as int].len() && adj[a as int][k] == b as u32);
        }
        if a != u {
            assert(is_done(pushed, stack, None, a) == is_done(pushed, stack, Some(u), a));
        }
    }
}

pub(crate) proof fn lemma_walk_pop(adj: Seq<Seq<u32>>, par: Seq<usize>, root: usize, pushed: Seq<usize>, stack: Seq<usize>, next: Option<usize>)
    requires
        walk_state(adj, par, root, pushed, stack, None),
        next == top_of(stack),
    ensures
        walk_state(adj, par, root, pushed, after_pop(stack), next),
{
    if stack.len() > 0 {
        let s2 = stack.drop_last();
        let t = stack.last();
        assert(pushed.contains(stack[stack.len() - 1]));
        assert(!s2.contains(t)) by {
            if s2.contains(t) {
                let k = choose|k: int| 0 <= k < s2.len() && s2[k] == t;
                assert(stack[k] == stack[stack.len() - 1]);
            }
        }
        assert forall|k: int| 0 <= k < s2.len() implies pushed.contains(#[trigger] s2[k]) by {
            assert(s2[k] == stack[k]);
        }
        assert forall|x: usize, j: int| is_done(pushed, s2, next, x) && 0 <= j < adj[x as int].len() implies pushed.contains(
            #[trigger] adj[x as int][j] as usize,
        ) by {
            if stack.contains(x) {
                let k = choose|k: int| 0 <= k < stack.len() && stack[k] == x;
                if k < s2.len() {
                    assert(s2[k] == x);
                }
            }
            assert(is_done(pushed, stack, None, x));
        }
    }
}

proof fn lemma_found_pop(
    adj: Seq<Seq<u32>>,
    par: Seq<usize>,
    pushed: Seq<usize>,
    stack: Seq<usize>,
    next: Option<usize>,
    cycles: Seq<Vec<usize>>,
)
    requires
        cycles_found(adj, par, pushed, stack, None, 0, cycles),
        stack.no_duplicates(),
        next == top_of(stack),
    ensures
        cycles_found(adj, par, pushed, after_pop(stack), next, 0, cycles),
{
    assert forall|a: usize, b: usize| #[trigger] cycle_ends(cycles).contains((a, b)) <==> non_tree_edge(adj, par, a, b) && (is_done(
        pushed,
        after_pop(stack),
        next,
        a,
    ) || (next == Some(a) && exists|k: int| 0 <= k < 0 && adj[a as int][k] == b as u32)) by {
        if stack.len() > 0 {
            let s2 = stack.drop_last();
            if stack.contains(a) {
                let k = choose|k: int| 0 <= k < stack.len() && stack[k] == a;
                if k < s2.len() {
                    assert(s2[k] == a);
                }
            }
            if s2.contains(a) {
                let k = choose|k: int| 0 <= k < s2.len() && s2[k] == a;
                assert(stack[k] == a);
            }
            assert(is_done(pushed, after_pop(stack), next, a) == is_done(pushed, stack, None, a));
        }
    }
}

proof fn lemma_walk_end(
    adj: Seq<Seq<u32>>,
    par: Seq<usize>,
    root: usize,
    pushed: Seq<usize>,
    stack: Seq<usize>,
    cycles: Seq<Vec<usize>>,
)
    requires
        walk_state(adj, par, root, pushed, stack, None),
        cycles_found(adj, par, pushed, stack, None, 0, cycles),
        stack.len() == 0,
        adj.len() <= u32::MAX,
    ensures
        forall|a: usize, b: usize|
            #[trigger] cycle_ends(cycles).contains((a, b)) <==> non_tree_edge(adj, par, a, b) && connected(
                adj,
                root as int,
                a as int,
            ),
{
    let inside = |x: int| 0 <= x < adj.len() && pushed.contains(x as usize);
    assert forall|x: int, y: int| #[trigger] has_edge(adj, x, y) && inside(x) implies inside(y) by {
        assert(is_done(pushed, stack, None, x as usize));
        let j = adj[x].index_of(y as u32);
        assert(pushed.contains(adj[x as int][j] as usize));
    }
    assert(inside(root as int)) by {
        assert(pushed[0] == root);
    }
    assert forall|a: usize, b: usize| #[trigger] cycle_ends(cycles).contains((a, b)) <==> non_tree_edge(adj, par, a, b) && connected(
        adj,
        root as int,
        a as int,
    ) by {
        if non_tree_edge(adj, par, a, b) {
            if connected(adj, root as int, a as int) {
                lemma_closed_reach(adj, inside, root as int, a as int);
            }
            if pushed.contains(a) {
                let k = choose|k: int| 0 <= k < pushed.len() && pushed[k] == a;
                assert(connected(adj, root as int, pushed[k] as int));
            }
        }
    }
}

impl IDTree {
    /// The fundamental cycle basis of the component of `root`, with the
    /// spanning tree of the ID-Tree as its tree: a depth-first walk from
    /// `root` meets every edge of the component; each edge `(u, v)` with
    /// `u < v` that is not a tree edge gives the cycle made of the tree path
    /// from `u` to `v`, closed by that edge. The walk takes the top of its
    /// stack and stacks the neighbors not met yet in list order, so the
    /// cycles come in the order `basis_ends` gives. With no root, there are
    /// no cycles.
    pub fn cycle_basis(&mut self, root: Option<usize>) -> (r: Vec<Vec<usize>>)
        requires
            old(self).wf(),
            root matches Some(x) ==> x < old(self).num_nodes(),
        ensures
            final(self).wf(),
            final(self).same_trees(old(self)),
            root is None ==> r@.len() == 0,
            forall|i: int| 0 <= i < r@.len() ==> fundamental_cycle(old(self).adj(), old(self).parents(), #[trigger] r@[i]@),
            cycle_ends(r@).no_duplicates(),
            root matches Some(x) ==> forall|a: usize, b: usize|
                #[trigger] cycle_ends(r@).contains((a, b)) <==> non_tree_edge(old(self).adj(), old(self).parents(), a, b)
                    && old(self).is_connected(x as int, a as int),
            root matches Some(x) ==> cycle_ends(r@) == basis_ends(old(self).adj(), old(self).parents(), x),
    {
        if root.is_none() {
            let r: Vec<Vec<usize>> = Vec::new();
            proof {
                assert(cycle_ends(r@) =~= Seq::<(usize, usize)>::empty());
            }
            return r;
        }
        let root = root.unwrap();
        let ghost old_self = *self;
        let ghost adj = self.adj();
        let ghost par = self.parents();
        let ghost dep = self.depth@;
        let ghost n = self.n as int;
        let mut cycles: Vec<Vec<usize>> = Vec::with_capacity(self.n / 2);
        self.vec_scratch_stack.clear();
        bitset_clear(&mut self.node_bitset_scratch0);
        self.vec_scratch_stack.push(root);
        bitset_set(&mut self.node_bitset_scratch0, root, true);
        let ghost mut pushed: Seq<usize> = seq![root];
        proof {
            lemma_connected_refl(adj, root as int);
            assert(marks_listed(bitset_bits(self.node_bitset_scratch0), pushed)) by {
                assert forall|x: usize| #[trigger] bitset_bits(self.node_bitset_scratch0).contains(x) <==> pushed.contains(x) by {
                    if x == root {
                        assert(pushed[0] == root);
                    }
                }
            }
            assert(self.vec_scratch_stack@ =~= seq![root]);
            assert(walk_state(adj, par, root, pushed, self.vec_scratch_stack@, None)) by {
                assert(pushed.contains(root)) by {
                    assert(pushed[0] == root);
                }
                assert forall|x: usize, j: int| is_done(pushed, self.vec_scratch_stack@, None, x) && 0 <= j < adj[x as int].len()
                    implies pushed.contains(#[trigger] adj[x as int][j] as usize) by {
                    assert(self.vec_scratch_stack@[0] == root);
                }
            }
            assert(cycle_ends(cycles@) =~= Seq::<(usize, usize)>::empty());
        }
        let mut next = self.vec_scratch_stack.pop();
        let ghost mut pops: int = 0;
        let ghost goal = basis_ends(adj, par, root);
        proof {
            assert(walk_state(adj, par, root, pushed, self.vec_scratch_stack@, next));
            assert(cycles_found(adj, par, pushed, self.vec_scratch_stack@, next, 0, cycles@));
            assert(self.vec_scratch_stack@ =~= Seq::<usize>::empty());
        }
        while next.is_some()
            invariant
                self.core_wf(),
                spans(adj, par, dep),
                sizes_exact(par, dep, self.sizes()),
                self.adj() == adj,
                self.parents() == par,
                self.nodes == old_self.nodes,
                self.depth == old_self.depth,
                self.depth@ == dep,
                n == self.n,
                n == adj.len(),
                root < n,
                marks_listed(bitset_bits(self.node_bitset_scratch0), pushed),
                walk_state(adj, par, root, pushed, self.vec_scratch_stack@, next),
                cycles_found(adj, par, pushed, self.vec_scratch_stack@, next, 0, cycles@),
                next is None ==> self.vec_scratch_stack@.len() == 0,
                goal == basis_ends(adj, par, root),
                0 <= pops,
                pops + self.vec_scratch_stack@.len() + (if next is Some { 1int } else { 0 }) == pushed.len(),
                dfs_run(adj, par, pushed, self.vec_scratch_stack@, next, cycle_ends(cycles@), (n + 1 - pops) as nat) == goal,
            decreases 2 * (n - pushed.len()) + self.vec_scratch_stack@.len() + (if next is Some { 1int } else { 0 }),
        {
            let u = next.unwrap();
            proof {
                let ip = pushed.map_values(|x: usize| x as int);
                assert forall|i: int, j: int| 0 <= i < j < ip.len() implies ip[i] != ip[j] by {
                    assert(pushed[i] != pushed[j]);
                }
                assert forall|i: int| 0 <= i < ip.len() implies 0 <= #[trigger] ip[i] < n by {
                    assert((pushed[i] as int) < adj.len());
                }
                crate::forest::lemma_distinct_bounded(ip, n);
                let k = choose|k: int| 0 <= k < pushed.len() && pushed[k] == u;
                assert((pushed[k] as int) < adj.len());
                assert(self.nodes@[u as int].nbrs() == adj[u as int]);
            }
            let deg = self.nodes[u].neighbors.len();
            let mut j: usize = 0;
            let ghost diff0 = self.vec_scratch_stack@.len() - pushed.len();
            let ghost p0 = pushed.len();
            let ghost pushed_h = pushed;
            let ghost stack_h = self.vec_scratch_stack@;
            let ghost ends_h = cycle_ends(cycles@);
            while j < deg
                invariant
                    self.vec_scratch_stack@.len() - pushed.len() == diff0,
                    pushed.len() >= p0,
                    self.core_wf(),
                    spans(adj, par, dep),
                    sizes_exact(par, dep, self.sizes()),
                    self.adj() == adj,
                    self.parents() == par,
                    self.nodes == old_self.nodes,
                    self.depth == old_self.depth,
                    self.depth@ == dep,
                    n == self.n,
                    n == adj.len(),
                    root < n,
                    u < n,
                    next == Some(u),
                    deg == adj[u as int].len(),
                    j <= deg,
                    pushed.len() <= n,
                    marks_listed(bitset_bits(self.node_bitset_scratch0), pushed),
                    walk_state(adj, par, root, pushed, self.vec_scratch_stack@, next),
                    cycles_found(adj, par, pushed, self.vec_scratch_stack@, next, j as int, cycles@),
                    forall|k: int| 0 <= k < j ==> pushed.contains(#[trigger] adj[u as int][k] as usize),
                    dfs_scan(adj, par, u, j as int, pushed, self.vec_scratch_stack@, cycle_ends(cycles@)) == dfs_scan(
                        adj,
                        par,
                        u,
                        0,
                        pushed_h,
                        stack_h,
                        ends_h,
                    ),
                decreases deg - j,
            {
                proof {
                    assert(self.nodes@[u as int].nbrs() == adj[u as int]);
                }
                let v = self.nodes[u].neighbors.get(j) as usize;
                let ghost pj = pushed;
                let ghost sj = self.vec_scratch_stack@;
                let ghost ej = cycle_ends(cycles@);
                proof {
                    assert(graph_wf(adj));
                    assert((adj[u as int][j as int] as int) < adj.len());
                    assert(bitset_len(self.node_bitset_scratch0) == n);
                    assert(v == adj[u as int][j as int] as usize);
                }
                if !bitset_contains(&self.node_bitset_scratch0, v) {
                    let ghost stack0 = self.vec_scratch_stack@;
                    let ghost bits0 = bitset_bits(self.node_bitset_scratch0);
                    self.vec_scratch_stack.push(v);
                    bitset_set(&mut self.node_bitset_scratch0, v, true);
                    proof {
                        lemma_walk_push(adj, par, root, pushed, stack0, next, u, v);
                        lemma_found_push(adj, par, pushed, stack0, next, j as int, cycles@, v);
                        lemma_listed_marks(bits0, pushed, v);
                        let p2 = pushed.push(v);
                        assert forall|k: int| 0 <= k < j + 1 implies p2.contains(#[trigger] adj[u as int][k] as usize) by {
                            let w = adj[u as int][k] as usize;
                            if k < j {
                                let i = choose|i: int| 0 <= i < pushed.len() && pushed[i] == w;
                                assert(p2[i] == w);
                            } else {
                                assert(p2[p2.len() - 1] == v);
                            }
                        }
                        pushed = p2;
                        let ip = pushed.map_values(|x: usize| x as int);
                        assert forall|i: int, j: int| 0 <= i < j < ip.len() implies ip[i] != ip[j] by {
                            assert(pushed[i] != pushed[j]);
                        }
                        assert forall|i: int| 0 <= i < ip.len() implies 0 <= #[trigger] ip[i] < n by {
                            assert((pushed[i] as int) < adj.len());
                        }
                        crate::forest::lemma_distinct_bounded(ip, n);
                    }
                } else {
                    proof {
                        assert(pushed.contains(v));
                    }
                }
                let pu = self.nodes[u].parent;
                let pv = self.nodes[v].parent;
                proof {
                    assert(pu == par[u as int]);
                    assert(pv == par[v as int]);
                    assert(adj[u as int].contains(v as u32));
                    assert(has_edge(adj, u as int, v as int));
                }
                if pu == v || pv == u || u >= v {
                    proof {
                        lemma_found_skip(adj, par, pushed, self.vec_scratch_stack@, u, j as int, cycles@);
                    }
                } else {
                    proof {
                        assert(edges_within_trees(adj, par, dep));
                    }
                    let ghost before = *self;
                    let c = self.tree_cycle(u, v);
                    let ghost cs0 = cycles@;
                    cycles.push(c);
                    proof {
                        assert(self.adj() == before.adj());
                        assert(self.parents() == before.parents());
                        lemma_found_cycle(adj, par, pushed, self.vec_scratch_stack@, u, j as int, cs0, c);
                        assert(cycle_ends(cycles@) =~= cycle_ends(cs0).push((u, v)));
                    }
                }
                proof {
                    assert(pushed == if pj.contains(v) { pj } else { pj.push(v) });
                    assert(self.vec_scratch_stack@ == if pj.contains(v) { sj } else { sj.push(v) });
                    assert(cycle_ends(cycles@) == if par[u as int] == v || par[v as int] == u || u >= v { ej } else { ej.push((u, v)) });
                    assert(dfs_scan(adj, par, u, j as int, pj, sj, ej) == dfs_scan(
                        adj,
                        par,
                        u,
                        j + 1,
                        pushed,
                        self.vec_scratch_stack@,
                        cycle_ends(cycles@),
                    ));
                }
                j += 1;
            }
            proof {
                lemma_walk_finish_node(adj, par, root, pushed, self.vec_scratch_stack@, u);
                lemma_found_finish_node(adj, par, pushed, self.vec_scratch_stack@, u, cycles@);
            }
            let ghost stack1 = self.vec_scratch_stack@;
            proof {
                assert(dfs_scan(adj, par, u, deg as int, pushed, stack1, cycle_ends(cycles@)) == (pushed, stack1, cycle_ends(cycles@)));
                assert(pops + stack_h.len() + 1 == pushed_h.len());
                assert(n + 1 - pops > 0);
            }
            next = self.vec_scratch_stack.pop();
            proof {
                assert(self.vec_scratch_stack@ == after_pop(stack1));
                assert(next == top_of(stack1));
                pops = pops + 1;
                assert(stack1.len() - pushed.len() == diff0);
                lemma_walk_pop(adj, par, root, pushed, stack1, next);
                lemma_found_pop(adj, par, pushed, stack1, next, cycles@);
            }
        }
        proof {
            lemma_walk_end(adj, par, root, pushed, self.vec_scratch_stack@, cycles@);
            assert(self.adj() == old_self.adj());
        }
        cycles
    }
}

/// When the walk is over, the nodes listed are exactly those joined to
/// its start.
pub(crate) proof fn lemma_walk_component(
    adj: Seq<Seq<u32>>,
    par: Seq<usize>,
    root: usize,
    pushed: Seq<usize>,
    stack: Seq<usize>,
    x: usize,
)
    requires
        walk_state(adj, par, root, pushed, stack, None),
        stack.len() == 0,
        adj.len() <= u32::MAX,
    ensures
        (x < adj.len() && connected(adj, root as int, x as int)) <==> pushed.contains(x),
{
    let inside = |y: int| 0 <= y < adj.len() && pushed.contains(y as usize);
    assert forall|y: int, z: int| #[trigger] has_edge(adj, y, z) && inside(y) implies inside(z) by {
        assert(is_done(pushed, stack, None, y as usize));
        let j = adj[y].index_of(z as u32);
        assert(pushed.contains(adj[y as int][j] as usize));
    }
    assert(inside(root as int)) by {
        assert(pushed[0] == root);
    }
    if x < adj.len() && connected(adj, root as int, x as int) {
        lemma_closed_reach(adj, inside, root as int, x as int);
    }
    if pushed.contains(x) {
        let k = choose|k: int| 0 <= k < pushed.len() && pushed[k] == x;
        assert(connected(adj, root as int, pushed[k] as int));
        assert((pushed[k] as int) < adj.len());
    }
}

} // verus!
