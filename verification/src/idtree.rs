//! The ID-Tree: an undirected graph together with a spanning forest whose
//! trees are the connected components of the graph.
use vstd::prelude::*;
use std::collections::VecDeque;
use fixedbitset::FixedBitSet;
use nohash_hasher::{IntMap, IntSet};
use crate::hash_spec::{adjacency_len, adjacency_get, intset_elements};
use crate::forest::{
    SENTINEL, anc, forest_wf, root, is_desc, rebuilt, rotated, rotated_upto,
    lemma_anc_depth, lemma_root, lemma_root_parent, lemma_depth_bound, lemma_desc_refl,
    lemma_desc_parent, lemma_desc_root, lemma_desc_up, lemma_cut, lemma_rotate,
    lemma_anc_add, lemma_anc_is_desc, lemma_rot_up, lemma_link, lemma_root_unique, };
use crate::graph::{
    has_edge, graph_wf, connected, loop_free, tree_edges_in_graph, edges_within_trees, spans,
    with_edge, without_edge, lemma_without_edge_connectivity, add_pair, empty_adj, adj_of_edges, listed, lemma_adj_of_edges, lemma_with_edge, lemma_without_edge, lemma_spans_connected, lemma_degree_bound, lemma_rotate_tree_edges,
    lemma_cut_tree_edges, spans_except, lemma_reroot_spans, lemma_join,
};
use crate::node::Node;
use crate::sizes::{parents_earlier, sizes_exact, subtree_nodes, centroid_rooted, centroid_except, desc_count, rot_sizes, cut_sizes, lemma_rot_sizes, lemma_rot_paths, lemma_cut_sizes, lemma_exact_local};
use crate::smallvec_spec::{NodeIdList, node_id_items, neighbor_items};
use crate::distance::{bfs_run, bfs_scan};
use crate::setup::{
    comp_walk, walk_parents, setup_component, setup_upto, setup_forest, depths_of, last_heavy, lemma_depths_unique, lemma_last_heavy,
    unmarked_alone, marked_closed, walk_list, walk_marks, walk_done, old_roots, lemma_walk_start,
    lemma_walk_visit, lemma_walk_end, lemma_walk_len, lemma_all_marked, lemma_reroot_marks,
};
use crate::search::{
    repl_scan, repl_run, replacement_edge,
    visit_list, marks_match, parents_visited, children_listed, edges_inside, children_seen,
    neighbors_inside, lemma_list_len, lemma_search_start, lemma_begin_node, lemma_skip_neighbor,
    lemma_push_child, lemma_end_node, lemma_search_done, lemma_marked_path,
};
use crate::bitset_spec::{bitset_len, bitset_with_capacity, bitset_clone};

pub mod traversal;
pub mod cycles;
pub mod betweenness;
pub mod components;
pub mod laws;

verus! {

/// Walks along parent chains give up after this many steps when comparing depths.
pub const MAX_DEPTH: usize = 32767;

/// The ID-Tree of an undirected graph on the nodes `0..n`.
pub struct IDTree {
    n: usize,
    nodes: Vec<Node>,
    generation: u16,
    generations: Vec<u16>,
    vec_scratch_nodes: Vec<usize>,
    distances: Vec<i32>,
    deque_scratch: VecDeque<usize>,
    vec_scratch_stack: Vec<usize>,
    node_bitset_scratch0: FixedBitSet,
    node_bitset_scratch1: FixedBitSet,
    node_bitset_scratch2: FixedBitSet,
    depth: Ghost<Seq<nat>>,
}

/// The adjacency lists of a sequence of nodes.
pub open spec fn adj_of(nodes: Seq<Node>) -> Seq<Seq<u32>> {
    Seq::new(nodes.len(), |i: int| nodes[i].nbrs())
}

/// The parents of a sequence of nodes.
pub open spec fn parents_of(nodes: Seq<Node>) -> Seq<usize> {
    Seq::new(nodes.len(), |i: int| nodes[i].parent)
}

/// The subtree sizes of a sequence of nodes.
pub open spec fn sizes_of(nodes: Seq<Node>) -> Seq<i32> {
    Seq::new(nodes.len(), |i: int| nodes[i].subtree_size)
}

impl IDTree {
    /// The neighbors of every node, in order.
    pub closed spec fn adj(&self) -> Seq<Seq<u32>> {
        adj_of(self.nodes@)
    }

    /// The parent of every node in the spanning forest.
    pub closed spec fn parents(&self) -> Seq<usize> {
        parents_of(self.nodes@)
    }

    /// The subtree size recorded at every node.
    pub closed spec fn sizes(&self) -> Seq<i32> {
        sizes_of(self.nodes@)
    }

    /// The depth of every node in the spanning forest.
    pub closed spec fn depths(&self) -> Seq<nat> {
        self.depth@
    }

    /// The number of nodes.
    pub open spec fn num_nodes(&self) -> nat {
        self.adj().len()
    }

    /// `u` and `v` are adjacent.
    pub open spec fn edge(&self, u: int, v: int) -> bool {
        has_edge(self.adj(), u, v)
    }

    /// Some path of the graph joins `u` and `v`.
    pub open spec fn is_connected(&self, u: int, v: int) -> bool {
        connected(self.adj(), u, v)
    }

    /// The root of the spanning tree that holds `u`.
    pub open spec fn root_of(&self, u: usize) -> usize {
        root(self.parents(), self.depths(), u)
    }

    /// The graph, the spanning forest and the recorded subtree sizes agree
    /// with those of `other`.
    pub open spec fn same_trees(&self, other: &Self) -> bool {
        &&& self.adj() == other.adj()
        &&& self.parents() == other.parents()
        &&& self.sizes() == other.sizes()
        &&& self.depths() == other.depths()
    }

    /// The scratch areas fit the nodes and no node carries the current or a
    /// later generation mark.
    pub closed spec fn scratch_wf(&self) -> bool {
        &&& self.generations@.len() == self.n
        &&& self.distances@.len() == self.n
        &&& self.generation >= 1
        &&& forall|i: int| 0 <= i < self.n ==> #[trigger] self.generations@[i] <= self.generation
        &&& bitset_len(self.node_bitset_scratch0) == self.n
        &&& bitset_len(self.node_bitset_scratch1) == self.n
        &&& bitset_len(self.node_bitset_scratch2) == self.n
    }

    /// The nodes are `0..n` and the scratch areas fit them.
    pub closed spec fn core_wf(&self) -> bool {
        &&& self.n == self.nodes@.len()
        &&& 0 < self.n <= i32::MAX
        &&& self.scratch_wf()
    }

    /// The whole invariant: the nodes are `0..n`, the graph is well formed,
    /// the forest spans it, and every subtree size counts its subtree.
    pub closed spec fn wf(&self) -> bool {
        &&& self.core_wf()
        &&& spans(self.adj(), self.parents(), self.depth@)
        &&& sizes_exact(self.parents(), self.depth@, self.sizes())
    }

    /// What the invariant holds, for clients that see it only by name: the
    /// graph is well formed (neighbors are nodes, listed once, and every
    /// edge at both ends), the parents form a forest whose parent chains end
    /// within fewer steps than there are nodes, every forest edge is a graph
    /// edge, the two ends of every graph edge share a root, and every
    /// subtree size is the number of nodes in that subtree.
    pub proof fn lemma_wf_facts(&self)
        requires
            self.wf(),
        ensures
            spans(self.adj(), self.parents(), self.depths()),
            graph_wf(self.adj()),
            forest_wf(self.parents(), self.depths()),
            tree_edges_in_graph(self.adj(), self.parents()),
            edges_within_trees(self.adj(), self.parents(), self.depths()),
            self.parents().len() == self.num_nodes(),
            self.sizes().len() == self.num_nodes(),
            0 < self.num_nodes() <= i32::MAX,
            forall|w: usize| w < self.num_nodes() ==> #[trigger] self.depths()[w as int] < self.num_nodes(),
            self.sizes_ok(),
    {
        assert forall|w: usize| w < self.num_nodes() implies #[trigger] self.depths()[w as int] < self.num_nodes() by {
            lemma_depth_bound(self.parents(), self.depth@, w);
        }
    }

    /// The size recorded at a node is the number of nodes whose root path
    /// passes through it, the node included; so it lies between 1 and the
    /// number of nodes.
    pub proof fn lemma_sizes_count(&self, w: usize)
        requires
            self.wf(),
            w < self.num_nodes(),
        ensures
            subtree_nodes(self.parents(), self.depths(), w).finite(),
            self.sizes()[w as int] == subtree_nodes(self.parents(), self.depths(), w).len(),
            subtree_nodes(self.parents(), self.depths(), w).contains(w),
            1 <= self.sizes()[w as int] <= self.num_nodes(),
    {
        crate::sizes::lemma_count_is_card(self.parents(), self.depth@, w);
        crate::sizes::lemma_count_bounds(self.parents(), self.depth@, w);
        crate::forest::lemma_desc_refl(self.parents(), self.depth@, w);
    }

    /// Every subtree size is the number of nodes in that subtree: the nodes
    /// whose root path passes through the node, the node included.
    pub open spec fn sizes_ok(&self) -> bool {
        sizes_exact(self.parents(), self.depths(), self.sizes())
    }

    /// The fields other than the nodes agree.
    pub closed spec fn same_scratch(&self, other: &Self) -> bool {
        &&& self.n == other.n
        &&& self.generation == other.generation
        &&& self.generations == other.generations
        &&& self.vec_scratch_nodes == other.vec_scratch_nodes
        &&& self.distances == other.distances
        &&& self.deque_scratch == other.deque_scratch
        &&& self.vec_scratch_stack == other.vec_scratch_stack
        &&& self.node_bitset_scratch0 == other.node_bitset_scratch0
        &&& self.node_bitset_scratch1 == other.node_bitset_scratch1
        &&& self.node_bitset_scratch2 == other.node_bitset_scratch2
        &&& self.depth == other.depth
    }

    /// The fields other than the nodes and the depths agree.
    pub closed spec fn same_aux(&self, other: &Self) -> bool {
        &&& self.n == other.n
        &&& self.generation == other.generation
        &&& self.generations == other.generations
        &&& self.vec_scratch_nodes == other.vec_scratch_nodes
        &&& self.distances == other.distances
        &&& self.deque_scratch == other.deque_scratch
        &&& self.vec_scratch_stack == other.vec_scratch_stack
        &&& self.node_bitset_scratch0 == other.node_bitset_scratch0
        &&& self.node_bitset_scratch1 == other.node_bitset_scratch1
        &&& self.node_bitset_scratch2 == other.node_bitset_scratch2
    }

    /// Sets the parent of `w`.
    fn set_parent(&mut self, w: usize, p: usize)
        requires
            w < old(self).nodes@.len(),
        ensures
            final(self).nodes@.len() == old(self).nodes@.len(),
            final(self).parents() == old(self).parents().update(w as int, p),
            final(self).adj() == old(self).adj(),
            final(self).sizes() == old(self).sizes(),
            final(self).same_scratch(old(self)),
    {
        self.nodes[w].parent = p;
        assert(self.parents() =~= old(self).parents().update(w as int, p));
        assert(self.adj() =~= old(self).adj());
        assert(self.sizes() =~= old(self).sizes());
    }

    /// Sets the subtree size of `w`.
    fn set_size(&mut self, w: usize, s: i32)
        requires
            w < old(self).nodes@.len(),
        ensures
            final(self).nodes@.len() == old(self).nodes@.len(),
            final(self).parents() == old(self).parents(),
            final(self).adj() == old(self).adj(),
            final(self).sizes() == old(self).sizes().update(w as int, s),
            final(self).same_scratch(old(self)),
    {
        self.nodes[w].subtree_size = s;
        assert(self.parents() =~= old(self).parents());
        assert(self.adj() =~= old(self).adj());
        assert(self.sizes() =~= old(self).sizes().update(w as int, s));
    }

    /// Adds `delta` to the subtree size of `w`, wrapping on overflow.
    fn add_size(&mut self, w: usize, delta: i32)
        requires
            w < old(self).nodes@.len(),
        ensures
            final(self).nodes@.len() == old(self).nodes@.len(),
            final(self).parents() == old(self).parents(),
            final(self).adj() == old(self).adj(),
            final(self).sizes() == old(self).sizes().update(
                w as int,
                old(self).sizes()[w as int].wrapping_add(delta),
            ),
            final(self).same_scratch(old(self)),
    {
        let s = self.nodes[w].subtree_size.wrapping_add(delta);
        self.set_size(w, s);
    }

    /// The state right after construction: the given nodes, fresh scratch
    /// areas and depth zero everywhere.
    fn _new(nodes: Vec<Node>) -> (r: Self)
        requires
            0 < nodes@.len() <= i32::MAX,
        ensures
            r.nodes@ == nodes@,
            r.n == nodes@.len(),
            r.scratch_wf(),
            r.depth@ == Seq::new(nodes@.len(), |i: int| 0nat),
    {
        let n = nodes.len();
        Self {
            n,
            nodes,
            generation: 1,
            generations: vec![0; n],
            vec_scratch_nodes: Vec::with_capacity(n),
            distances: vec![0; n],
            deque_scratch: VecDeque::with_capacity(n),
            vec_scratch_stack: Vec::new(),
            node_bitset_scratch0: bitset_with_capacity(n),
            node_bitset_scratch1: bitset_with_capacity(n),
            node_bitset_scratch2: bitset_with_capacity(n),
            depth: Ghost(Seq::new(n as nat, |i: int| 0nat)),
        }
    }

    /// Moves to a fresh generation mark that no node carries.
    fn next_generation(&mut self) -> (g: u16)
        requires
            old(self).scratch_wf(),
        ensures
            g == final(self).generation,
            final(self).scratch_wf(),
            forall|i: int| 0 <= i < final(self).n ==> #[trigger] final(self).generations@[i] < g,
            final(self).nodes == old(self).nodes,
            final(self).n == old(self).n,
            final(self).vec_scratch_nodes == old(self).vec_scratch_nodes,
            final(self).depth == old(self).depth,
    {
        if self.generation == u16::MAX {
            self.generation = 1;
            self.generations = vec![0; self.n];
        } else {
            self.generation = self.generation + 1;
        }
        self.generation
    }

    /// The root of the tree that holds `u`, found by following parents.
    fn get_tree_root(&self, u: usize) -> (r: usize)
        requires
            forest_wf(self.parents(), self.depth@),
            u < self.nodes@.len(),
        ensures
            r == root(self.parents(), self.depth@, u),
            r < self.nodes@.len(),
    {
        let ghost par = self.parents();
        let ghost dep = self.depth@;
        let mut root = u;
        proof {
            lemma_desc_refl(par, dep, u);
        }
        while self.nodes[root].parent != SENTINEL
            invariant
                par == self.parents(),
                dep == self.depth@,
                forest_wf(par, dep),
                u < par.len(),
                root < par.len(),
                is_desc(par, dep, u, root),
            decreases dep[root as int],
        {
            proof {
                assert(par[root as int] == self.nodes@[root as int].parent);
                lemma_desc_up(par, dep, u, root);
            }
            root = self.nodes[root].parent;
        }
        proof {
            assert(par[root as int] == SENTINEL);
        }
        root
    }

    /// Inserts `v` into the list of `u` and `u` into the list of `v`, unless
    /// they are already adjacent.
    fn insert_edge_in_graph(&mut self, u: usize, v: usize) -> (r: bool)
        requires
            graph_wf(old(self).adj()),
            old(self).nodes@.len() <= i32::MAX,
            u < old(self).nodes@.len(),
            v < old(self).nodes@.len(),
        ensures
            r == (u != v && !has_edge(old(self).adj(), u as int, v as int)),
            final(self).adj() == add_pair(old(self).adj(), u as int, v as int),
            r ==> final(self).adj() == with_edge(old(self).adj(), u as int, v as int),
            final(self).nodes@.len() == old(self).nodes@.len(),
            final(self).parents() == old(self).parents(),
            final(self).sizes() == old(self).sizes(),
            final(self).same_scratch(old(self)),
    {
        let ghost adj = self.adj();
        proof {
            lemma_degree_bound(adj, u as int);
            lemma_degree_bound(adj, v as int);
            assert(self.nodes@[u as int].nbrs() == adj[u as int]);
            assert(self.nodes@[v as int].nbrs() == adj[v as int]);
            assert(has_edge(adj, u as int, v as int) <==> has_edge(adj, v as int, u as int));
        }
        if self.nodes[u].insert_neighbor(v as u32) != 0 {
            assert(self.adj() =~= old(self).adj());
            assert(self.parents() =~= old(self).parents());
            assert(self.sizes() =~= old(self).sizes());
            return false;
        }
        let ghost mid = self.nodes@;
        proof {
            if u == v {
                assert(self.nodes@[v as int].nbrs() == adj[u as int].push(v as u32));
                assert(self.nodes@[v as int].nbrs()[adj[u as int].len() as int] == u as u32);
            } else {
                assert(mid[v as int] == old(self).nodes@[v as int]);
            }
        }
        let b = self.nodes[v].insert_neighbor(u as u32) == 0;
        proof {
            if u == v {
                assert(self.adj() =~= add_pair(adj, u as int, v as int));
            } else {
                assert(self.adj() =~= with_edge(adj, u as int, v as int));
            }
            assert(self.parents() =~= old(self).parents());
            assert(self.sizes() =~= old(self).sizes());
        }
        b
    }

    /// Removes `v` from the list of `u` and `u` from the list of `v`, when
    /// they are adjacent.
    fn delete_edge_in_graph(&mut self, u: usize, v: usize) -> (r: bool)
        requires
            graph_wf(old(self).adj()),
            old(self).nodes@.len() <= i32::MAX,
            u < old(self).nodes@.len(),
            v < old(self).nodes@.len(),
            u != v,
        ensures
            r == has_edge(old(self).adj(), u as int, v as int),
            r ==> final(self).adj() == without_edge(old(self).adj(), u as int, v as int),
            !r ==> final(self).adj() == old(self).adj(),
            final(self).nodes@.len() == old(self).nodes@.len(),
            final(self).parents() == old(self).parents(),
            final(self).sizes() == old(self).sizes(),
            final(self).same_scratch(old(self)),
    {
        let ghost adj = self.adj();
        proof {
            assert(self.nodes@[u as int].nbrs() == adj[u as int]);
            assert(self.nodes@[v as int].nbrs() == adj[v as int]);
            assert(has_edge(adj, u as int, v as int) <==> has_edge(adj, v as int, u as int));
        }
        if self.nodes[u].delete_neighbor(v as u32) != 0 {
            assert(self.adj() =~= old(self).adj());
            assert(self.parents() =~= old(self).parents());
            assert(self.sizes() =~= old(self).sizes());
            return false;
        }
        let ghost mid = self.nodes@;
        assert(mid[v as int] == old(self).nodes@[v as int]);
        let b = self.nodes[v].delete_neighbor(u as u32) == 0;
        proof {
            assert(self.adj() =~= without_edge(adj, u as int, v as int));
            assert(self.parents() =~= old(self).parents());
            assert(self.sizes() =~= old(self).sizes());
        }
        b
    }
}

impl IDTree {
    /// Whether `u` and `v` lie in the same connected component.
    pub fn query(&self, u: usize, v: usize) -> (r: bool)
        requires
            self.wf(),
        ensures
            r == (u < self.num_nodes() && v < self.num_nodes() && self.is_connected(u as int, v as int)),
    {
        if u >= self.n || v >= self.n {
            return false;
        }
        let ru = self.get_tree_root(u);
        let rv = self.get_tree_root(v);
        proof {
            lemma_spans_connected(self.adj(), self.parents(), self.depth@, u, v);
        }
        ru == rv
    }

    /// The parent of `u` in the spanning forest (`usize::MAX` for a root).
    pub fn get_parent(&self, u: usize) -> (r: usize)
        requires
            self.wf(),
            u < self.num_nodes(),
        ensures
            r == self.parents()[u as int],
    {
        self.nodes[u].parent
    }

    /// A copy of node `u`.
    pub fn get_node_data(&self, u: usize) -> (r: Node)
        requires
            self.wf(),
            u < self.num_nodes(),
        ensures
            r.parent == self.parents()[u as int],
            r.subtree_size == self.sizes()[u as int],
            r.subtree_size == subtree_nodes(self.parents(), self.depths(), u).len(),
            r.nbrs() == self.adj()[u as int],
    {
        proof {
            self.lemma_sizes_count(u);
        }
        self.nodes[u].duplicate()
    }
}

/// The subtree sizes after the fix-up that follows a rotation: walking up
/// from `u0` to the node at depth `top`, every node on the way takes the old
/// size of `u0` less the old size of its parent, and the node at depth `top`
/// takes the old size of `u0`. Every other size stays.
#[verifier::opaque]
pub open spec fn path_sizes(par: Seq<usize>, dep: Seq<nat>, s: Seq<i32>, u0: usize, top: int) -> Seq<i32> {
    Seq::new(
        s.len(),
        |w: int|
            if is_desc(par, dep, u0, w as usize) && dep[w] >= top {
                if dep[w] == top {
                    s[u0 as int]
                } else {
                    s[u0 as int].wrapping_sub(s[par[w] as int])
                }
            } else {
                s[w]
            },
    )
}

/// The sizes after adding `delta`, wrapping, to every node on the root
/// path of `v` at depth `lim` or more.
#[verifier::opaque]
pub open spec fn path_added(par: Seq<usize>, dep: Seq<nat>, s: Seq<i32>, v: usize, lim: int, delta: i32) -> Seq<i32> {
    Seq::new(
        s.len(),
        |w: int|
            if is_desc(par, dep, v, w as usize) && dep[w] >= lim {
                s[w].wrapping_add(delta)
            } else {
                s[w]
            },
    )
}

/// The sizes after adding `delta`, wrapping, to every proper ancestor of `x`.
#[verifier::opaque]
pub open spec fn ancestors_added(par: Seq<usize>, dep: Seq<nat>, s: Seq<i32>, x: usize, delta: i32) -> Seq<i32> {
    Seq::new(
        s.len(),
        |w: int|
            if is_desc(par, dep, x, w as usize) && w != x {
                s[w].wrapping_add(delta)
            } else {
                s[w]
            },
    )
}

/// `x` is the deepest node on the root path of `v` whose size exceeds `thr`.
#[verifier::opaque]
pub open spec fn first_over(par: Seq<usize>, dep: Seq<nat>, s: Seq<i32>, v: usize, thr: int, x: usize) -> bool {
    &&& is_desc(par, dep, v, x)
    &&& s[x as int] > thr
    &&& forall|w: usize| #[trigger] is_desc(par, dep, v, w) && dep[w as int] > dep[x as int] ==> s[w as int] <= thr
}

/// The reshape that inserting the non-forest edge `(u, v)` makes in the tree
/// rooted at `f` when one end lies at least two levels deeper: the deep end's
/// root path is cut at about half its height, the cut-off part is rerooted
/// at the deep end and hung under the shallow end, and the sizes are brought
/// along. Gives the parents and sizes after that, the shallow end, and half
/// the sizes of `f` and the moved part together.
#[verifier::opaque]
pub open spec fn reshape_plan(par0: Seq<usize>, dep0: Seq<nat>, s0: Seq<i32>, u: usize, v: usize, f: usize) -> (Seq<usize>, Seq<i32>, usize, int) {
    let walk = imbalance_walk(par0, dep0, u, v);
    let shallow = walk.1;
    let deep = walk.2;
    let p = anc(par0, deep, ((dep0[walk.4 as int] + 1) / 2 - 1) as nat);
    let cut = detached(par0, p, deep);
    let s1 = ancestors_added(par0, dep0, s0, p, 0i32.wrapping_sub(s0[p as int]));
    let s2 = path_sizes(cut, rebuilt(cut), s1, p, 0);
    let par_r = cut.update(deep as int, shallow);
    let s3 = path_added(par_r, rebuilt(par_r), s2, shallow, 0, s2[deep as int]);
    let thr = half_toward_zero(s2[f as int].wrapping_add(s2[deep as int]) as int);
    (par_r, s3, shallow, thr)
}

/// What inserting the non-forest edge `(u, v)` into the tree rooted at `f`
/// leaves when a reshape is needed: after the reshape of `reshape_plan`, the
/// tree keeps `f` as its root and the result is 0 when `f` is the deepest
/// node on the root path of the shallow end whose size exceeds the bound,
/// or no node there exceeds it; otherwise the tree is rerooted at that
/// deepest node and the result is 2.
#[verifier::opaque]
pub open spec fn reshaped(
    par0: Seq<usize>,
    dep0: Seq<nat>,
    s0: Seq<i32>,
    u: usize,
    v: usize,
    f: usize,
    r: i32,
    par: Seq<usize>,
    dep: Seq<nat>,
    s: Seq<i32>,
) -> bool {
    let plan = reshape_plan(par0, dep0, s0, u, v, f);
    let par_r = plan.0;
    let dep_r = rebuilt(par_r);
    &&& r == 0 ==> {
        &&& par == par_r
        &&& s == plan.1
        &&& forall|x: usize| #[trigger] first_over(par_r, dep_r, plan.1, plan.2, plan.3, x) ==> x == f
    }
    &&& r == 2 ==> exists|x: usize| {
        &&& #[trigger] first_over(par_r, dep_r, plan.1, plan.2, plan.3, x)
        &&& x != f
        &&& par == rotated(par_r, dep_r, x, SENTINEL)
        &&& s == path_sizes(par, dep, plan.1, root(par_r, dep_r, x), 0)
    }
}

/// Rerooting at `x`, in the tree rooted at `f`, a forest whose roots are
/// those of another: the nodes of that tree get root `x`, the others keep
/// their roots.
proof fn lemma_reroot_roots(
    par0: Seq<usize>,
    dep0: Seq<nat>,
    par_r: Seq<usize>,
    dep_r: Seq<nat>,
    f: usize,
    x: usize,
    par: Seq<usize>,
    dep: Seq<nat>,
)
    requires
        forest_wf(par_r, dep_r),
        par_r.len() == par0.len(),
        x < par_r.len(),
        forall|w: usize| w < par0.len() ==> #[trigger] root(par_r, dep_r, w) == root(par0, dep0, w),
        root(par_r, dep_r, x) == f,
        par == rotated(par_r, dep_r, x, SENTINEL),
        dep == rebuilt(par),
    ensures
        forall|w: usize|
            w < par0.len() ==> #[trigger] root(par, dep, w) == if root(par0, dep0, w) == f {
                x
            } else {
                root(par0, dep0, w)
            },
{
    lemma_rotate(par_r, dep_r, x, SENTINEL);
    assert forall|w: usize| w < par0.len() implies #[trigger] root(par, dep, w) == if root(par0, dep0, w) == f {
        x
    } else {
        root(par0, dep0, w)
    } by {
        assert(root(par_r, dep_r, w) == root(par0, dep0, w));
    }
}

/// The reshape kept `f` as the root.
proof fn lemma_reshaped_kept(
    par0: Seq<usize>,
    dep0: Seq<nat>,
    s0: Seq<i32>,
    u: usize,
    v: usize,
    f: usize,
    par: Seq<usize>,
    dep: Seq<nat>,
    s: Seq<i32>,
)
    requires
        ({
            let plan = reshape_plan(par0, dep0, s0, u, v, f);
            &&& par == plan.0
            &&& s == plan.1
            &&& forall|x: usize| #[trigger] first_over(plan.0, rebuilt(plan.0), plan.1, plan.2, plan.3, x) ==> x == f
        }),
    ensures
        reshaped(par0, dep0, s0, u, v, f, 0, par, dep, s),
{
    reveal(reshaped);
}

/// The reshape was followed by a reroot at `x`.
proof fn lemma_reshaped_rerooted(
    par0: Seq<usize>,
    dep0: Seq<nat>,
    s0: Seq<i32>,
    u: usize,
    v: usize,
    f: usize,
    par: Seq<usize>,
    dep: Seq<nat>,
    s: Seq<i32>,
    x: usize,
)
    requires
        ({
            let plan = reshape_plan(par0, dep0, s0, u, v, f);
            let dep_r = rebuilt(plan.0);
            &&& first_over(plan.0, dep_r, plan.1, plan.2, plan.3, x)
            &&& x != f
            &&& par == rotated(plan.0, dep_r, x, SENTINEL)
            &&& s == path_sizes(par, dep, plan.1, root(plan.0, dep_r, x), 0)
        }),
    ensures
        reshaped(par0, dep0, s0, u, v, f, 2, par, dep, s),
{
    reveal(reshaped);
}

/// What joining the trees of `u` and `v` by the edge `(u, v)` leaves, given
/// the forest and sizes before: the end in the smaller tree (the tree of `u`
/// on a tie) has its root path reversed and hangs under the other end. The
/// result 1 leaves that, with the root of the larger tree as the root of
/// the joined tree; the result 3 then reroots the joined tree at a node of
/// the root path of the other end other than that root, so neither old
/// root is the new one. Every other tree keeps its root.
/// Which node, if any, the joined tree is rerooted at is fixed by
/// `rejoin_choice`.
#[verifier::opaque]
pub open spec fn joined(par0: Seq<usize>, dep0: Seq<nat>, s0: Seq<i32>, u: usize, v: usize, r: i32, par: Seq<usize>, dep: Seq<nat>) -> bool {
    let fu = root(par0, dep0, u);
    let fv = root(par0, dep0, v);
    if s0[fu as int] > s0[fv as int] {
        &&& join_outcome(par0, dep0, u, v, u, fu, r, par, dep)
        &&& rejoin_choice(par0, dep0, s0, v, u, fu, r, par)
    } else {
        &&& join_outcome(par0, dep0, u, u, v, fv, r, par, dep)
        &&& rejoin_choice(par0, dep0, s0, u, v, fv, r, par)
    }
}

/// The sizes on the root path of `b` once the tree of `a` hangs under `b`:
/// each grows by the size of the moved tree.
pub open spec fn rejoin_sizes(par0: Seq<usize>, dep0: Seq<nat>, s0: Seq<i32>, a: usize, b: usize) -> Seq<i32> {
    let par1 = rotated(par0, dep0, a, b);
    path_added(par1, rebuilt(par1), s0, b, 0, s0[root(par0, dep0, a) as int])
}

/// Half the size of the two trees together, the tree of `a` and the tree
/// rooted at `fb`.
pub open spec fn rejoin_bound(par0: Seq<usize>, dep0: Seq<nat>, s0: Seq<i32>, a: usize, fb: usize) -> int {
    half_toward_zero(s0[fb as int].wrapping_add(s0[root(par0, dep0, a) as int]) as int)
}

/// Hanging the tree of `a`, rerooted at `a`, under `b` of the tree rooted at
/// `fb`, and keeping `fb` as the root: no node of the root path of `b`
/// deeper than `fb` holds more than half of the two trees together.
pub open spec fn rejoin_kept(par0: Seq<usize>, dep0: Seq<nat>, s0: Seq<i32>, a: usize, b: usize, fb: usize, par: Seq<usize>) -> bool {
    let par1 = rotated(par0, dep0, a, b);
    let dep1 = rebuilt(par1);
    &&& par == par1
    &&& forall|x: usize|
        #[trigger] first_over(par1, dep1, rejoin_sizes(par0, dep0, s0, a, b), b, rejoin_bound(par0, dep0, s0, a, fb), x)
            ==> x == fb
}

/// The same hanging, followed by a reroot at the deepest node of the root
/// path of `b` that holds more than half of the two trees together, when
/// that node is not `fb`.
pub open spec fn rejoin_moved(par0: Seq<usize>, dep0: Seq<nat>, s0: Seq<i32>, a: usize, b: usize, fb: usize, par: Seq<usize>) -> bool {
    let par1 = rotated(par0, dep0, a, b);
    let dep1 = rebuilt(par1);
    exists|x: usize|
        #[trigger] first_over(par1, dep1, rejoin_sizes(par0, dep0, s0, a, b), b, rejoin_bound(par0, dep0, s0, a, fb), x)
            && x != fb && par == rotated(par1, dep1, x, SENTINEL)
}

/// Hanging the tree of `a` under `b`, rerooted as `rejoin_kept` or
/// `rejoin_moved` says.
#[verifier::opaque]
pub open spec fn rejoined(par0: Seq<usize>, dep0: Seq<nat>, s0: Seq<i32>, a: usize, b: usize, fb: usize, par: Seq<usize>) -> bool {
    rejoin_kept(par0, dep0, s0, a, b, fb, par) || rejoin_moved(par0, dep0, s0, a, b, fb, par)
}

/// Deleting the forest edge between `u` and `v`: the end that is the child
/// is cut off, which splits its tree in two. Gives the forest, depths and
/// sizes after the cut, the root of the smaller part (the cut-off part on a
/// tie) and the root of the other.
pub open spec fn split_plan(par0: Seq<usize>, dep0: Seq<nat>, s0: Seq<i32>, u: usize, v: usize) -> (Seq<usize>, Seq<nat>, Seq<i32>, usize, usize) {
    let c = if par0[v as int] == u { v } else { u };
    let cut = par0.update(c as int, SENTINEL);
    let sc = cut_sizes(par0, dep0, s0, c);
    let other = root(par0, dep0, c);
    if sc[other as int] < sc[c as int] {
        (cut, rebuilt(cut), sc, other, c)
    } else {
        (cut, rebuilt(cut), sc, c, other)
    }
}

/// What deleting the forest edge between `u` and `v` of the graph `adj`
/// (the edge already gone) leaves when a replacement is found: the first
/// edge that the walk over the smaller part meets, leaving it, joins the
/// two parts as `rejoined` says.
pub open spec fn replaced(adj: Seq<Seq<u32>>, par0: Seq<usize>, dep0: Seq<nat>, s0: Seq<i32>, u: usize, v: usize, par: Seq<usize>) -> bool {
    let plan = split_plan(par0, dep0, s0, u, v);
    let e = replacement_edge(adj, plan.0, plan.1, plan.3);
    let edge = e.unwrap();
    &&& e is Some
    &&& rejoined(plan.0, plan.1, plan.2, edge.0, edge.1, plan.4, par)
}

/// No edge leaves the smaller part of the split.
pub open spec fn unreplaced(adj: Seq<Seq<u32>>, par0: Seq<usize>, dep0: Seq<nat>, s0: Seq<i32>, u: usize, v: usize) -> bool {
    let plan = split_plan(par0, dep0, s0, u, v);
    replacement_edge(adj, plan.0, plan.1, plan.3) is None
}

/// Result 1 keeps the root, result 3 moves it.
pub open spec fn rejoin_choice(par0: Seq<usize>, dep0: Seq<nat>, s0: Seq<i32>, a: usize, b: usize, fb: usize, r: i32, par: Seq<usize>) -> bool {
    &&& r == 1 ==> rejoin_kept(par0, dep0, s0, a, b, fb, par)
    &&& r == 3 ==> rejoin_moved(par0, dep0, s0, a, b, fb, par)
}

/// What `joined` says once the end `a` to move, the end `b` to hang it
/// under and the root `fb` of the tree of `b` are fixed.
pub open spec fn join_outcome(
    par0: Seq<usize>,
    dep0: Seq<nat>,
    u: usize,
    a: usize,
    b: usize,
    fb: usize,
    r: i32,
    par: Seq<usize>,
    dep: Seq<nat>,
) -> bool {
    let par1 = rotated(par0, dep0, a, b);
    let dep1 = rebuilt(par1);
    let fa = root(par0, dep0, a);
    &&& r == 1 ==> par == par1
    &&& r == 3 ==> exists|x: usize| #[trigger] is_desc(par1, dep1, b, x) && x != fb && par == rotated(par1, dep1, x, SENTINEL)
    &&& r == 1 ==> root(par, dep, u) == fb
    &&& r == 3 ==> root(par, dep, u) != fa && root(par, dep, u) != fb
    &&& forall|w: usize|
        w < par0.len() ==> #[trigger] root(par, dep, w) == if root(par0, dep0, w) == fa || root(par0, dep0, w) == fb {
            root(par, dep, u)
        } else {
            root(par0, dep0, w)
        }
}

/// What inserting the edge `(u, v)` leaves, given the forest and sizes
/// before: a join of two trees as `joined` says when the ends lay in two
/// trees; otherwise the reshape of `reshaped` when the depths of the ends
/// are out of balance, and nothing changed at all when they are not.
#[verifier::opaque]
pub open spec fn inserted(
    par0: Seq<usize>,
    dep0: Seq<nat>,
    s0: Seq<i32>,
    u: usize,
    v: usize,
    r: i32,
    par: Seq<usize>,
    dep: Seq<nat>,
    s: Seq<i32>,
) -> bool {
    let f = root(par0, dep0, u);
    if f != root(par0, dep0, v) {
        joined(par0, dep0, s0, u, v, r, par, dep)
    } else if imbalance_walk(par0, dep0, u, v).0 {
        reshaped(par0, dep0, s0, u, v, f, r, par, dep, s)
    } else {
        r == 0 && par == par0 && dep == dep0 && s == s0
    }
}

/// The roots that a join leaves.
proof fn lemma_joined_roots(par0: Seq<usize>, dep0: Seq<nat>, s0: Seq<i32>, u: usize, v: usize, r: i32, par: Seq<usize>, dep: Seq<nat>)
    requires
        forest_wf(par0, dep0),
        u < par0.len(),
        v < par0.len(),
        root(par0, dep0, u) != root(par0, dep0, v),
        r == 1 || r == 3,
        joined(par0, dep0, s0, u, v, r, par, dep),
    ensures
        ({
            let ru = root(par0, dep0, u);
            let rv = root(par0, dep0, v);
            &&& r == 1 ==> root(par, dep, u) == if s0[ru as int] > s0[rv as int] {
                ru
            } else {
                rv
            }
            &&& r == 3 ==> root(par, dep, u) != ru && root(par, dep, u) != rv
            &&& forall|w: usize|
                w < par0.len() ==> #[trigger] root(par, dep, w) == if root(par0, dep0, w) == ru || root(par0, dep0, w) == rv {
                    root(par, dep, u)
                } else {
                    root(par0, dep0, w)
                }
            &&& root(par, dep, u) == root(par, dep, v)
        }),
{
    reveal(joined);
    lemma_root(par0, dep0, u);
    lemma_root(par0, dep0, v);
    let ru = root(par0, dep0, u);
    let rv = root(par0, dep0, v);
    assert(root(par0, dep0, v) == rv);
}

/// Joining without a reroot.
proof fn lemma_joined_kept(par0: Seq<usize>, dep0: Seq<nat>, s0: Seq<i32>, u: usize, v: usize, par: Seq<usize>, dep: Seq<nat>)
    requires
        forest_wf(par0, dep0),
        u < par0.len(),
        v < par0.len(),
        root(par0, dep0, u) != root(par0, dep0, v),
        ({
            let fu = root(par0, dep0, u);
            let fv = root(par0, dep0, v);
            let swap = s0[fu as int] > s0[fv as int];
            let a = if swap { v } else { u };
            let b = if swap { u } else { v };
            let fb = if swap { fu } else { fv };
            &&& par == rotated(par0, dep0, a, b)
            &&& dep == rebuilt(par)
            &&& rejoin_kept(par0, dep0, s0, a, b, fb, par)
        }),
    ensures
        joined(par0, dep0, s0, u, v, 1, par, dep),
{
    reveal(joined);
    let fu = root(par0, dep0, u);
    let fv = root(par0, dep0, v);
    let swap = s0[fu as int] > s0[fv as int];
    let a = if swap { v } else { u };
    let b = if swap { u } else { v };
    lemma_root(par0, dep0, u);
    lemma_root(par0, dep0, v);
    lemma_rotate(par0, dep0, a, b);
    assert(root(par, dep, u) == root(par0, dep0, b));
    assert forall|w: usize| w < par0.len() implies #[trigger] root(par, dep, w) == if root(par0, dep0, w) == fu
        || root(par0, dep0, w) == fv {
        root(par, dep, u)
    } else {
        root(par0, dep0, w)
    } by {
    }
}

/// Hanging the root path of `a` under `b`, of another tree, and then
/// rerooting at `x` on the root path of `b` below its old root: both trees
/// end up with root `x`, and every other tree keeps its root.
proof fn lemma_join_reroot_roots(par0: Seq<usize>, dep0: Seq<nat>, a: usize, b: usize, x: usize)
    requires
        forest_wf(par0, dep0),
        a < par0.len(),
        b < par0.len(),
        root(par0, dep0, a) != root(par0, dep0, b),
        is_desc(rotated(par0, dep0, a, b), rebuilt(rotated(par0, dep0, a, b)), b, x),
    ensures
        ({
            let par1 = rotated(par0, dep0, a, b);
            let dep1 = rebuilt(par1);
            let par = rotated(par1, dep1, x, SENTINEL);
            let dep = rebuilt(par);
            forall|w: usize|
                w < par0.len() ==> #[trigger] root(par, dep, w) == if root(par0, dep0, w) == root(par0, dep0, a)
                    || root(par0, dep0, w) == root(par0, dep0, b) {
                    x
                } else {
                    root(par0, dep0, w)
                }
        }),
{
    let par1 = rotated(par0, dep0, a, b);
    let dep1 = rebuilt(par1);
    let par = rotated(par1, dep1, x, SENTINEL);
    let dep = rebuilt(par);
    lemma_root(par0, dep0, a);
    lemma_root(par0, dep0, b);
    lemma_rotate(par0, dep0, a, b);
    assert(root(par1, dep1, b) == root(par0, dep0, b));
    lemma_desc_root(par1, dep1, b, x);
    lemma_rotate(par1, dep1, x, SENTINEL);
    assert forall|w: usize| w < par0.len() implies #[trigger] root(par, dep, w) == if root(par0, dep0, w) == root(
        par0,
        dep0,
        a,
    ) || root(par0, dep0, w) == root(par0, dep0, b) {
        x
    } else {
        root(par0, dep0, w)
    } by {
        lemma_root(par0, dep0, w);
        assert(root(par, dep, w) == if root(par1, dep1, w) == root(par1, dep1, x) {
            x
        } else {
            root(par1, dep1, w)
        });
    }
}

/// Joining followed by a reroot at `x`, a node of the root path of the end
/// that stayed, other than its old root; `top` is the old root of the other
/// tree, which lies below that end.
proof fn lemma_joined_rerooted(
    par0: Seq<usize>,
    dep0: Seq<nat>,
    s0: Seq<i32>,
    u: usize,
    v: usize,
    x: usize,
    top: usize,
    par: Seq<usize>,
    dep: Seq<nat>,
)
    requires
        forest_wf(par0, dep0),
        u < par0.len(),
        v < par0.len(),
        root(par0, dep0, u) != root(par0, dep0, v),
        ({
            let fu = root(par0, dep0, u);
            let fv = root(par0, dep0, v);
            let swap = s0[fu as int] > s0[fv as int];
            let a = if swap { v } else { u };
            let b = if swap { u } else { v };
            let fa = if swap { fv } else { fu };
            let fb = if swap { fu } else { fv };
            let par1 = rotated(par0, dep0, a, b);
            let dep1 = rebuilt(par1);
            &&& forest_wf(par1, dep1)
            &&& is_desc(par1, dep1, b, x)
            &&& x != fb
            &&& top == fa
            &&& is_desc(par1, dep1, top, b)
            &&& top != b
            &&& par == rotated(par1, dep1, x, SENTINEL)
            &&& dep == rebuilt(par)
            &&& rejoin_moved(par0, dep0, s0, a, b, fb, par)
        }),
    ensures
        joined(par0, dep0, s0, u, v, 3, par, dep),
{
    reveal(joined);
    let fu = root(par0, dep0, u);
    let fv = root(par0, dep0, v);
    let swap = s0[fu as int] > s0[fv as int];
    let a = if swap { v } else { u };
    let b = if swap { u } else { v };
    let par1 = rotated(par0, dep0, a, b);
    let dep1 = rebuilt(par1);
    assert(x != top) by {
        assert(dep1[top as int] > dep1[b as int]);
    }
    lemma_root(par0, dep0, u);
    lemma_root(par0, dep0, v);
    lemma_join_reroot_roots(par0, dep0, a, b, x);
    assert(root(par, dep, u) == x);
}

/// No node on the root path of `v` has a size above `thr`.
#[verifier::opaque]
pub open spec fn none_over(par: Seq<usize>, dep: Seq<nat>, s: Seq<i32>, v: usize, thr: int) -> bool {
    forall|w: usize| #[trigger] is_desc(par, dep, v, w) ==> s[w as int] <= thr
}

/// At most one node is the deepest on a root path to exceed a bound.
proof fn lemma_first_over_unique(par: Seq<usize>, dep: Seq<nat>, s: Seq<i32>, v: usize, thr: int, x: usize, y: usize)
    requires
        first_over(par, dep, s, v, thr, x),
        first_over(par, dep, s, v, thr, y),
    ensures
        x == y,
{
    reveal(first_over);
    assert(dep[x as int] == dep[y as int]);
}

/// Half of `x`, rounded toward zero as integer division does.
pub open spec fn half_toward_zero(x: int) -> int {
    if x >= 0 {
        x / 2
    } else {
        -((-x) / 2)
    }
}

/// The parents after cutting `p` from its parent and rerooting the cut-off
/// subtree at `moved`.
#[verifier::opaque]
pub open spec fn detached(par: Seq<usize>, p: usize, moved: usize) -> Seq<usize> {
    let cut = par.update(p as int, SENTINEL);
    rotated(cut, rebuilt(cut), moved, SENTINEL)
}

/// Rerooting with the fix-up of `path_sizes` keeps sizes exact.
#[verifier::spinoff_prover]
proof fn lemma_reroot_sizes(par: Seq<usize>, dep: Seq<nat>, s: Seq<i32>, u: usize)
    requires
        forest_wf(par, dep),
        sizes_exact(par, dep, s),
        par.len() <= i32::MAX,
        u < par.len(),
    ensures
        ({
            let rot = rotated(par, dep, u, SENTINEL);
            sizes_exact(rot, rebuilt(rot), path_sizes(rot, rebuilt(rot), s, root(par, dep, u), 0))
        }),
        path_sizes(rotated(par, dep, u, SENTINEL), rebuilt(rotated(par, dep, u, SENTINEL)), s, root(par, dep, u), 0)
            == rot_sizes(par, dep, s, u, SENTINEL),
{
    let rot = rotated(par, dep, u, SENTINEL);
    let dr = rebuilt(rot);
    reveal(path_sizes);
    lemma_rot_sizes(par, dep, s, u, SENTINEL);
    lemma_rot_paths(par, dep, u, SENTINEL);
    let a = path_sizes(rot, dr, s, root(par, dep, u), 0);
    let b = rot_sizes(par, dep, s, u, SENTINEL);
    assert forall|w: int| 0 <= w < s.len() implies #[trigger] a[w] == b[w] by {
        if is_desc(par, dep, u, w as usize) && w != u {
            crate::sizes::lemma_rot_parents_pub(par, dep, u, SENTINEL, w as usize);
        }
    }
    assert(a =~= b);
}

/// Hanging the root path of `a` under `b`, of another tree, with the sizes
/// brought along as `rebalance_tree` and the fix-up do, keeps sizes exact.
#[verifier::spinoff_prover]
proof fn lemma_join_sizes(par: Seq<usize>, dep: Seq<nat>, s: Seq<i32>, a: usize, b: usize)
    requires
        forest_wf(par, dep),
        sizes_exact(par, dep, s),
        par.len() <= i32::MAX,
        a < par.len(),
        b < par.len(),
        root(par, dep, a) != root(par, dep, b),
    ensures
        ({
            let rot = rotated(par, dep, a, b);
            let dr = rebuilt(rot);
            let fa = root(par, dep, a);
            sizes_exact(rot, dr, path_sizes(rot, dr, path_added(rot, dr, s, b, 0, s[fa as int]), fa, dr[b as int] + 1int))
        }),
{
    let rot = rotated(par, dep, a, b);
    let dr = rebuilt(rot);
    let fa = root(par, dep, a);
    reveal(path_sizes);
    reveal(path_added);
    lemma_root(par, dep, a);
    lemma_root(par, dep, b);
    lemma_rot_sizes(par, dep, s, a, b);
    lemma_rot_paths(par, dep, a, b);
    let s1 = path_added(rot, dr, s, b, 0, s[fa as int]);
    let x = path_sizes(rot, dr, s1, fa, dr[b as int] + 1int);
    let y = rot_sizes(par, dep, s, a, b);
    assert(!is_desc(par, dep, b, fa)) by {
        if is_desc(par, dep, b, fa) {
            lemma_desc_root(par, dep, b, fa);
            lemma_root(par, dep, fa);
        }
    }
    assert(dr[b as int] == dep[b as int]);
    assert forall|w: int| 0 <= w < s.len() implies #[trigger] x[w] == y[w] by {
        assert(is_desc(rot, dr, fa, w as usize) && dr[w] >= dep[b as int] + 1 <==> is_desc(par, dep, a, w as usize));
        assert(is_desc(rot, dr, b, w as usize) <==> is_desc(par, dep, b, w as usize));
        assert(is_desc(rot, dr, b, fa) <==> is_desc(par, dep, b, fa));
        if is_desc(par, dep, a, w as usize) {
            assert(dr[w] == dr[b as int] + 1 <==> w == a);
            if w != a {
                crate::sizes::lemma_rot_parents_pub(par, dep, a, b, w as usize);
                let c = rot[w];
                assert(is_desc(rot, dr, b, c) <==> is_desc(par, dep, b, c));
                assert(!is_desc(par, dep, b, c)) by {
                    if is_desc(par, dep, b, c) {
                        lemma_desc_root(par, dep, b, c);
                        lemma_desc_root(par, dep, a, c);
                    }
                }
            }
            assert(!is_desc(par, dep, b, w as usize)) by {
                if is_desc(par, dep, b, w as usize) {
                    lemma_desc_root(par, dep, b, w as usize);
                    lemma_desc_root(par, dep, a, w as usize);
                }
            }
        }
    }
    assert(x =~= y);
}

/// Hanging the root `x` under `np`, of another tree, with the size of `x`
/// added along the root path of `np`, keeps sizes exact.
#[verifier::spinoff_prover]
proof fn lemma_link_sizes(par: Seq<usize>, dep: Seq<nat>, s: Seq<i32>, x: usize, np: usize)
    requires
        forest_wf(par, dep),
        sizes_exact(par, dep, s),
        par.len() <= i32::MAX,
        x < par.len(),
        np < par.len(),
        par[x as int] == SENTINEL,
        root(par, dep, np) != x,
    ensures
        ({
            let l = par.update(x as int, np);
            sizes_exact(l, rebuilt(l), path_added(l, rebuilt(l), s, np, 0, s[x as int]))
        }),
{
    let l = par.update(x as int, np);
    let dl = rebuilt(l);
    reveal(path_added);
    lemma_link(par, dep, x, np);
    lemma_root(par, dep, x);
    assert(root(par, dep, x) == x);
    lemma_rot_sizes(par, dep, s, x, np);
    lemma_rot_paths(par, dep, x, np);
    let a = path_added(l, dl, s, np, 0, s[x as int]);
    let b = rot_sizes(par, dep, s, x, np);
    assert forall|w: int| 0 <= w < s.len() implies #[trigger] a[w] == b[w] by {
        assert(is_desc(l, dl, np, w as usize) <==> is_desc(par, dep, np, w as usize));
        if is_desc(par, dep, x, w as usize) {
            assert(w == x);
            assert(!is_desc(par, dep, np, x)) by {
                if is_desc(par, dep, np, x) {
                    lemma_desc_root(par, dep, np, x);
                }
            }
        }
    }
    assert(a =~= b);
}

/// Adding back what was taken off gives the value again.
proof fn lemma_wrapping_add_back(a: i32, c: i32)
    ensures
        a.wrapping_add(c.wrapping_sub(a)) == c,
{
}

impl IDTree {
    /// Reverses the parent pointers on the root path of `u0`, so that `u0`
    /// becomes the top of its tree, and hangs `u0` under `new_parent`.
    /// Returns the old root.
    fn _rotate_tree(&mut self, u0: usize, new_parent: usize) -> (r: usize)
        requires
            forest_wf(old(self).parents(), old(self).depth@),
            u0 < old(self).nodes@.len(),
            new_parent == SENTINEL || (new_parent < old(self).nodes@.len() && root(
                old(self).parents(),
                old(self).depth@,
                new_parent,
            ) != root(old(self).parents(), old(self).depth@, u0)),
        ensures
            final(self).parents() == rotated(old(self).parents(), old(self).depth@, u0, new_parent),
            final(self).depth@ == rebuilt(final(self).parents()),
            forest_wf(final(self).parents(), final(self).depth@),
            r == root(old(self).parents(), old(self).depth@, u0),
            r < final(self).nodes@.len(),
            is_desc(final(self).parents(), final(self).depth@, r, u0),
            new_parent != SENTINEL ==> is_desc(final(self).parents(), final(self).depth@, r, new_parent)
                && r != new_parent,
            final(self).nodes@.len() == old(self).nodes@.len(),
            final(self).adj() == old(self).adj(),
            final(self).sizes() == old(self).sizes(),
            final(self).same_aux(old(self)),
    {
        let ghost par0 = self.parents();
        let ghost dep0 = self.depth@;
        let ghost adj0 = self.adj();
        let ghost sizes0 = self.sizes();
        let ghost len = par0.len();
        proof {
            lemma_root(par0, dep0, u0);
            assert(par0[u0 as int] == self.nodes@[u0 as int].parent);
            assert(rotated_upto(par0, dep0, u0, new_parent, 0) =~= par0.update(u0 as int, new_parent));
            assert(anc(par0, u0, 1) == anc(par0, par0[u0 as int], 0));
            assert(0nat + 1 == 1nat);
            if dep0[u0 as int] > 0 {
                lemma_anc_depth(par0, dep0, u0, 1);
            }
        }
        let mut u = u0;
        let mut p = self.nodes[u].parent;
        self.set_parent(u, new_parent);
        let ghost mut i: nat = 0;
        while p != SENTINEL
            invariant
                forest_wf(par0, dep0),
                len == par0.len(),
                u0 < len,
                self.nodes@.len() == len,
                i <= dep0[u0 as int],
                u == anc(par0, u0, i),
                p == anc(par0, u0, i + 1),
                (p == SENTINEL) <==> (i == dep0[u0 as int]),
                self.parents() == rotated_upto(par0, dep0, u0, new_parent, i),
                self.adj() == adj0,
                self.sizes() == sizes0,
                self.same_scratch(old(self)),
            decreases dep0[u0 as int] - i,
        {
            proof {
                lemma_anc_depth(par0, dep0, u0, i + 1);
                lemma_anc_add(par0, u0, i + 1, 1);
                assert(anc(par0, p, 1) == anc(par0, par0[p as int], 0));
                assert(self.parents()[p as int] == par0[p as int]);
            }
            let next = self.nodes[p].parent;
            self.set_parent(p, u);
            proof {
                assert forall|w: int| 0 <= w < len implies #[trigger] self.parents()[w] == rotated_upto(
                    par0,
                    dep0,
                    u0,
                    new_parent,
                    i + 1,
                )[w] by {
                    if w == p {
                        assert(is_desc(par0, dep0, u0, p));
                        assert((dep0[u0 as int] - dep0[p as int] - 1) as nat == i);
                    } else if w != u0 && is_desc(par0, dep0, u0, w as usize) && dep0[u0 as int]
                        - dep0[w] == i + 1 {
                        assert(w == p);
                    }
                }
                assert(self.parents() =~= rotated_upto(par0, dep0, u0, new_parent, i + 1));
                if i + 1 < dep0[u0 as int] {
                    lemma_anc_depth(par0, dep0, u0, i + 2);
                } else {
                    lemma_root(par0, dep0, u0);
                }
            }
            u = p;
            p = next;
            proof {
                i = i + 1;
            }
        }
        proof {
            lemma_rotate(par0, dep0, u0, new_parent);
            lemma_root(par0, dep0, u0);
        }
        self.depth = Ghost(rebuilt(self.parents()));
        proof {
            let par1 = self.parents();
            let dep1 = self.depth@;
            lemma_rot_up(par0, dep0, u0, new_parent, u);
            lemma_anc_is_desc(par1, dep1, u, (dep0[u0 as int] - dep0[u as int]) as nat);
            if new_parent != SENTINEL {
                let k = (dep0[u0 as int] - dep0[u as int]) as nat;
                lemma_anc_add(par1, u, k, 1);
                assert(anc(par1, u0, 1) == anc(par1, par1[u0 as int], 0));
                lemma_anc_is_desc(par1, dep1, u, k + 1);
            }
        }
        u
    }

    /// Rotates the root path of `start_node` and hangs it under `stop_node`.
    fn rotate_tree(&mut self, start_node: usize, stop_node: usize) -> (r: usize)
        requires
            forest_wf(old(self).parents(), old(self).depth@),
            start_node < old(self).nodes@.len(),
            stop_node < old(self).nodes@.len(),
            root(old(self).parents(), old(self).depth@, stop_node) != root(
                old(self).parents(),
                old(self).depth@,
                start_node,
            ),
        ensures
            final(self).parents() == rotated(old(self).parents(), old(self).depth@, start_node, stop_node),
            final(self).depth@ == rebuilt(final(self).parents()),
            forest_wf(final(self).parents(), final(self).depth@),
            r == root(old(self).parents(), old(self).depth@, start_node),
            r < final(self).nodes@.len(),
            is_desc(final(self).parents(), final(self).depth@, r, stop_node),
            r != stop_node,
            final(self).nodes@.len() == old(self).nodes@.len(),
            final(self).adj() == old(self).adj(),
            final(self).sizes() == old(self).sizes(),
            final(self).same_aux(old(self)),
    {
        self._rotate_tree(start_node, stop_node)
    }

    /// Rotates the root path of `start_node` so that it becomes the root.
    fn rotate_tree_to_root(&mut self, start_node: usize) -> (r: usize)
        requires
            forest_wf(old(self).parents(), old(self).depth@),
            start_node < old(self).nodes@.len(),
        ensures
            final(self).parents() == rotated(old(self).parents(), old(self).depth@, start_node, SENTINEL),
            final(self).depth@ == rebuilt(final(self).parents()),
            forest_wf(final(self).parents(), final(self).depth@),
            r == root(old(self).parents(), old(self).depth@, start_node),
            r < final(self).nodes@.len(),
            final(self).nodes@.len() == old(self).nodes@.len(),
            final(self).adj() == old(self).adj(),
            final(self).sizes() == old(self).sizes(),
            final(self).same_aux(old(self)),
    {
        self._rotate_tree(start_node, SENTINEL)
    }

    /// Recomputes subtree sizes along the path from `u0` up to, but not
    /// including, `stop_parent`, after a rotation reversed that path.
    fn _fix_rotated_subtree_sizes(&mut self, u0: usize, stop_parent: usize)
        requires
            forest_wf(old(self).parents(), old(self).depth@),
            u0 < old(self).nodes@.len(),
            stop_parent == SENTINEL || (is_desc(old(self).parents(), old(self).depth@, u0, stop_parent)
                && stop_parent != u0),
        ensures
            final(self).nodes@.len() == old(self).nodes@.len(),
            final(self).parents() == old(self).parents(),
            final(self).adj() == old(self).adj(),
            final(self).same_scratch(old(self)),
            final(self).sizes() == path_sizes(
                old(self).parents(),
                old(self).depth@,
                old(self).sizes(),
                u0,
                if stop_parent == SENTINEL { 0 } else { old(self).depth@[stop_parent as int] + 1int },
            ),
    {
        let ghost par = self.parents();
        let ghost dep = self.depth@;
        let ghost s0 = self.sizes();
        proof {
            reveal(path_sizes);
        }
        let mut u = u0;
        let mut p = self.nodes[u].parent;
        proof {
            lemma_desc_refl(par, dep, u0);
            assert(self.sizes() =~= path_sizes(par, dep, s0, u0, dep[u0 as int] as int)) by {
                assert forall|w: int| 0 <= w < s0.len() && is_desc(par, dep, u0, w as usize) && dep[w] >= dep[u0 as int] implies w == u0 by {
                }
            }
        }
        while p != stop_parent
            invariant
                forest_wf(par, dep),
                self.nodes@.len() == par.len(),
                s0.len() == par.len(),
                self.parents() == par,
                self.depth@ == dep,
                self.adj() == old(self).adj(),
                self.same_scratch(old(self)),
                u0 < par.len(),
                u < par.len(),
                p == par[u as int],
                is_desc(par, dep, u0, u),
                self.sizes() == path_sizes(par, dep, s0, u0, dep[u as int] as int),
                stop_parent == SENTINEL || (is_desc(par, dep, u, stop_parent) && stop_parent != u),
            decreases dep[u as int],
        {
            proof {
                reveal(path_sizes);
                if stop_parent != SENTINEL {
                    lemma_desc_parent(par, dep, u, stop_parent);
                } else {
                    assert(p != SENTINEL);
                }
                lemma_desc_up(par, dep, u0, u);
                lemma_wrapping_add_back(s0[p as int], s0[u0 as int]);
            }
            let ghost pre = self.sizes();
            let sp = self.nodes[p].subtree_size;
            let su = self.nodes[u].subtree_size.wrapping_sub(sp);
            self.set_size(u, su);
            self.add_size(p, su);
            proof {
                reveal(path_sizes);
                assert(pre[u as int] == s0[u0 as int]);
                assert(pre[p as int] == s0[p as int]);
                assert forall|w: int| 0 <= w < s0.len() implies #[trigger] self.sizes()[w] == path_sizes(par, dep, s0, u0, dep[p as int] as int)[w] by {
                    if is_desc(par, dep, u0, w as usize) && dep[w] == dep[p as int] {
                        assert(w == p);
                    }
                }
                assert(self.sizes() =~= path_sizes(par, dep, s0, u0, dep[p as int] as int));
            }
            u = p;
            p = self.nodes[p].parent;
        }
        proof {
            if stop_parent == SENTINEL {
                assert(dep[u as int] == 0);
            }
        }
    }

    /// Fixes sizes after a rotation, up to the attach point `stop_node`.
    fn fix_rotated_subtree_sizes(&mut self, start_node: usize, stop_node: usize)
        requires
            forest_wf(old(self).parents(), old(self).depth@),
            start_node < old(self).nodes@.len(),
            is_desc(old(self).parents(), old(self).depth@, start_node, stop_node),
            stop_node != start_node,
        ensures
            final(self).nodes@.len() == old(self).nodes@.len(),
            final(self).parents() == old(self).parents(),
            final(self).adj() == old(self).adj(),
            final(self).same_scratch(old(self)),
            final(self).sizes() == path_sizes(
                old(self).parents(),
                old(self).depth@,
                old(self).sizes(),
                start_node,
                old(self).depth@[stop_node as int] + 1int,
            ),
    {
        self._fix_rotated_subtree_sizes(start_node, stop_node);
    }

    /// Fixes sizes after a rotation, up to the root.
    fn fix_rotated_subtree_sizes_until_root(&mut self, start_node: usize)
        requires
            forest_wf(old(self).parents(), old(self).depth@),
            start_node < old(self).nodes@.len(),
        ensures
            final(self).nodes@.len() == old(self).nodes@.len(),
            final(self).parents() == old(self).parents(),
            final(self).adj() == old(self).adj(),
            final(self).same_scratch(old(self)),
            final(self).sizes() == path_sizes(
                old(self).parents(),
                old(self).depth@,
                old(self).sizes(),
                start_node,
                0,
            ),
    {
        self._fix_rotated_subtree_sizes(start_node, SENTINEL);
    }

    /// Makes `u` the root of its tree.
    fn reroot(&mut self, u: usize, _f: usize)
        requires
            forest_wf(old(self).parents(), old(self).depth@),
            u < old(self).nodes@.len(),
        ensures
            final(self).parents() == rotated(old(self).parents(), old(self).depth@, u, SENTINEL),
            final(self).depth@ == rebuilt(final(self).parents()),
            forest_wf(final(self).parents(), final(self).depth@),
            final(self).nodes@.len() == old(self).nodes@.len(),
            final(self).adj() == old(self).adj(),
            final(self).same_aux(old(self)),
            final(self).sizes() == path_sizes(
                final(self).parents(),
                final(self).depth@,
                old(self).sizes(),
                root(old(self).parents(), old(self).depth@, u),
                0,
            ),
    {
        let old_root = self.rotate_tree_to_root(u);
        self.fix_rotated_subtree_sizes_until_root(old_root);
    }
}

impl IDTree {
    /// Makes `x` a root, cutting the edge to its parent.
    fn cut_node(&mut self, x: usize)
        requires
            forest_wf(old(self).parents(), old(self).depth@),
            x < old(self).nodes@.len(),
        ensures
            final(self).parents() == old(self).parents().update(x as int, SENTINEL),
            final(self).depth@ == rebuilt(final(self).parents()),
            forest_wf(final(self).parents(), final(self).depth@),
            forall|w: usize|
                w < old(self).nodes@.len() ==> #[trigger] root(final(self).parents(), final(self).depth@, w)
                    == if is_desc(old(self).parents(), old(self).depth@, w, x) {
                    x
                } else {
                    root(old(self).parents(), old(self).depth@, w)
                },
            final(self).nodes@.len() == old(self).nodes@.len(),
            final(self).adj() == old(self).adj(),
            final(self).sizes() == old(self).sizes(),
            final(self).same_aux(old(self)),
    {
        proof {
            lemma_cut(self.parents(), self.depth@, x);
        }
        self.set_parent(x, SENTINEL);
        self.depth = Ghost(rebuilt(self.parents()));
    }

    /// Hangs the root `x` under `np`, a node of another tree.
    fn link_root(&mut self, x: usize, np: usize)
        requires
            forest_wf(old(self).parents(), old(self).depth@),
            x < old(self).nodes@.len(),
            np < old(self).nodes@.len(),
            old(self).parents()[x as int] == SENTINEL,
            root(old(self).parents(), old(self).depth@, np) != x,
        ensures
            final(self).parents() == old(self).parents().update(x as int, np),
            final(self).parents() == rotated(old(self).parents(), old(self).depth@, x, np),
            final(self).depth@ == rebuilt(final(self).parents()),
            forest_wf(final(self).parents(), final(self).depth@),
            forall|w: usize|
                w < old(self).nodes@.len() ==> #[trigger] root(final(self).parents(), final(self).depth@, w)
                    == if root(old(self).parents(), old(self).depth@, w) == x {
                    root(old(self).parents(), old(self).depth@, np)
                } else {
                    root(old(self).parents(), old(self).depth@, w)
                },
            final(self).nodes@.len() == old(self).nodes@.len(),
            final(self).adj() == old(self).adj(),
            final(self).sizes() == old(self).sizes(),
            final(self).same_aux(old(self)),
    {
        proof {
            let par = self.parents();
            let dep = self.depth@;
            lemma_root(par, dep, x);
            assert(dep[x as int] == 0);
            assert(root(par, dep, x) == x);
            lemma_link(par, dep, x, np);
            lemma_rotate(par, dep, x, np);
        }
        self.set_parent(x, np);
        self.depth = Ghost(rebuilt(self.parents()));
    }

    /// Adds `delta` to the subtree size of every proper ancestor of
    /// `start_node` and returns the root.
    fn adjust_subtree_sizes(&mut self, start_node: usize, delta: i32) -> (r: usize)
        requires
            forest_wf(old(self).parents(), old(self).depth@),
            start_node < old(self).nodes@.len(),
        ensures
            r == root(old(self).parents(), old(self).depth@, start_node),
            final(self).nodes@.len() == old(self).nodes@.len(),
            final(self).parents() == old(self).parents(),
            final(self).adj() == old(self).adj(),
            final(self).same_scratch(old(self)),
            final(self).sizes() == ancestors_added(
                old(self).parents(),
                old(self).depth@,
                old(self).sizes(),
                start_node,
                delta,
            ),
    {
        let ghost par = self.parents();
        let ghost dep = self.depth@;
        let ghost s0 = self.sizes();
        proof {
            reveal(ancestors_added);
        }
        proof {
            lemma_desc_refl(par, dep, start_node);
            assert(self.sizes() =~= Seq::new(
                s0.len(),
                |x: int|
                    if is_desc(par, dep, start_node, x as usize) && x != start_node && dep[x] >= dep[start_node as int] {
                        s0[x].wrapping_add(delta)
                    } else {
                        s0[x]
                    },
            ));
        }
        let mut root_v = start_node;
        let mut w = self.nodes[start_node].parent;
        while w != SENTINEL
            invariant
                forest_wf(par, dep),
                self.nodes@.len() == par.len(),
                s0.len() == par.len(),
                self.parents() == par,
                self.depth@ == dep,
                self.adj() == old(self).adj(),
                self.same_scratch(old(self)),
                start_node < par.len(),
                root_v < par.len(),
                is_desc(par, dep, start_node, root_v),
                w == par[root_v as int],
                self.sizes() == Seq::new(
                    s0.len(),
                    |x: int|
                        if is_desc(par, dep, start_node, x as usize) && x != start_node && dep[x] >= dep[root_v as int] {
                            s0[x].wrapping_add(delta)
                        } else {
                            s0[x]
                        },
                ),
            decreases dep[root_v as int],
        {
            proof {
                lemma_desc_up(par, dep, start_node, root_v);
            }
            self.add_size(w, delta);
            proof {
                reveal(ancestors_added);
                assert forall|x: int| 0 <= x < s0.len() && is_desc(par, dep, start_node, x as usize) && dep[x] == dep[w as int] implies x == w by {
                }
                assert(self.sizes() =~= Seq::new(
                    s0.len(),
                    |x: int|
                        if is_desc(par, dep, start_node, x as usize) && x != start_node && dep[x] >= dep[w as int] {
                            s0[x].wrapping_add(delta)
                        } else {
                            s0[x]
                        },
                ));
            }
            root_v = w;
            w = self.nodes[w].parent;
        }
        proof {
            reveal(ancestors_added);
            lemma_root_unique(par, dep, start_node, (dep[start_node as int] - dep[root_v as int]) as nat, root_v);
            assert(dep[root_v as int] == 0);
            assert(self.sizes() =~= ancestors_added(par, dep, s0, start_node, delta));
        }
        root_v
    }

    /// Adds the subtree size of `u` to every node on the root path of `v`
    /// and returns the first of them whose size then exceeds half of the
    /// sizes of `f` and `u` together. The contract below describes the case
    /// where `u` is not itself on that path, as at every call here: its size
    /// then stays as it was on entry while the path is walked.
    fn rebalance_tree(&mut self, u: usize, v: usize, f: usize) -> (r: Option<usize>)
        requires
            forest_wf(old(self).parents(), old(self).depth@),
            u < old(self).nodes@.len(),
            v < old(self).nodes@.len(),
            f < old(self).nodes@.len(),
        ensures
            r matches Some(x) ==> is_desc(old(self).parents(), old(self).depth@, v, x),
            final(self).nodes@.len() == old(self).nodes@.len(),
            final(self).parents() == old(self).parents(),
            final(self).adj() == old(self).adj(),
            final(self).same_scratch(old(self)),
            !is_desc(old(self).parents(), old(self).depth@, v, u) ==> {
                let par = old(self).parents();
                let dep = old(self).depth@;
                let s0 = old(self).sizes();
                let thr = half_toward_zero(s0[f as int].wrapping_add(s0[u as int]) as int);
                let s1 = final(self).sizes();
                &&& s1 == path_added(par, dep, s0, v, 0, s0[u as int])
                &&& r is None <==> none_over(par, dep, s1, v, thr)
                &&& r matches Some(x) ==> first_over(par, dep, s1, v, thr, x)
            },
    {
        let ghost par = self.parents();
        let ghost dep = self.depth@;
        let ghost s0 = self.sizes();
        proof {
            reveal(path_added);
        }
        let ghost clean = !is_desc(par, dep, v, u);
        let ghost thr = half_toward_zero(s0[f as int].wrapping_add(s0[u as int]) as int);
        let s = self.nodes[f].subtree_size.wrapping_add(self.nodes[u].subtree_size) / 2;
        let mut new_root: Option<usize> = None;
        let mut p = v;
        proof {
            lemma_desc_refl(par, dep, v);
            assert(s == thr);
            assert(self.sizes() =~= path_added(par, dep, s0, v, dep[v as int] + 1int, s0[u as int]));
        }
        while p != SENTINEL
            invariant
                forest_wf(par, dep),
                self.nodes@.len() == par.len(),
                s0.len() == par.len(),
                self.parents() == par,
                self.depth@ == dep,
                self.adj() == old(self).adj(),
                self.same_scratch(old(self)),
                u < par.len(),
                v < par.len(),
                clean == !is_desc(par, dep, v, u),
                s == thr,
                p == SENTINEL || is_desc(par, dep, v, p),
                new_root matches Some(x) ==> is_desc(par, dep, v, x),
                clean ==> {
                    let lim: int = if p == SENTINEL { 0 } else { dep[p as int] + 1int };
                    &&& self.sizes() == path_added(par, dep, s0, v, lim, s0[u as int])
                    &&& new_root is None ==> forall|w: usize| #[trigger] is_desc(par, dep, v, w) && dep[w as int] >= lim ==> self.sizes()[w as int] <= thr
                    &&& new_root matches Some(x) ==> {
                        &&& dep[x as int] >= lim
                        &&& self.sizes()[x as int] > thr
                        &&& forall|w: usize| #[trigger] is_desc(par, dep, v, w) && dep[w as int] > dep[x as int] ==> self.sizes()[w as int] <= thr
                    }
                },
            decreases (if p == SENTINEL { 0 } else { dep[p as int] + 1 }),
        {
            let ghost pre = self.sizes();
            let su = self.nodes[u].subtree_size;
            self.add_size(p, su);
            if new_root.is_none() && self.nodes[p].subtree_size > s {
                new_root = Some(p);
            }
            proof {
                if par[p as int] != SENTINEL {
                    lemma_desc_up(par, dep, v, p);
                }
                if clean {
                    reveal(path_added);
                    let lim2: int = if par[p as int] == SENTINEL { 0 } else { dep[par[p as int] as int] + 1int };
                    assert(pre[u as int] == s0[u as int]);
                    assert(lim2 == dep[p as int]);
                    assert forall|w: int| 0 <= w < s0.len() implies #[trigger] self.sizes()[w] == path_added(par, dep, s0, v, lim2, s0[u as int])[w] by {
                        if is_desc(par, dep, v, w as usize) && dep[w] == dep[p as int] {
                            assert(w == p);
                        }
                    }
                    assert(self.sizes() =~= path_added(par, dep, s0, v, lim2, s0[u as int]));
                    assert forall|w: usize| #[trigger] is_desc(par, dep, v, w) && dep[w as int] == dep[p as int] implies w == p by {
                    }
                }
            }
            p = self.nodes[p].parent;
        }
        proof {
            reveal(first_over);
            reveal(none_over);
        }
        new_root
    }

    /// Removes the forest edge from `u` to its parent `v`, taking the subtree
    /// size of `u` off every node on the root path of `v`. Returns the root
    /// of `v` and the subtree size of `u`.
    fn unlink(&mut self, u: usize, v: usize) -> (r: (usize, i32))
        requires
            forest_wf(old(self).parents(), old(self).depth@),
            u < old(self).nodes@.len(),
            v < old(self).nodes@.len(),
            old(self).parents()[u as int] == v,
        ensures
            r.0 == root(old(self).parents(), old(self).depth@, v),
            final(self).parents() == old(self).parents().update(u as int, SENTINEL),
            final(self).depth@ == rebuilt(final(self).parents()),
            forest_wf(final(self).parents(), final(self).depth@),
            forall|w: usize|
                w < old(self).nodes@.len() ==> #[trigger] root(final(self).parents(), final(self).depth@, w)
                    == if is_desc(old(self).parents(), old(self).depth@, w, u) {
                    u
                } else {
                    root(old(self).parents(), old(self).depth@, w)
                },
            final(self).nodes@.len() == old(self).nodes@.len(),
            final(self).adj() == old(self).adj(),
            final(self).same_aux(old(self)),
            final(self).sizes() == cut_sizes(old(self).parents(), old(self).depth@, old(self).sizes(), u),
            r.1 == old(self).sizes()[u as int],
    {
        let ghost par = self.parents();
        let ghost dep = self.depth@;
        let ghost s0 = self.sizes();
        let subtree_u_size = self.nodes[u].subtree_size;
        let root_v = self.adjust_subtree_sizes_from(v, 0i32.wrapping_sub(subtree_u_size));
        proof {
            reveal(ancestors_added);
            let s1 = self.sizes();
            assert forall|w: int| 0 <= w < s0.len() implies #[trigger] s1[w] == cut_sizes(par, dep, s0, u)[w] by {
                if is_desc(par, dep, u, w as usize) && w != u {
                    lemma_desc_parent(par, dep, u, w as usize);
                }
                if is_desc(par, dep, v, w as usize) {
                    crate::forest::lemma_desc_child(par, dep, u, w as usize);
                }
            }
            assert(s1 =~= cut_sizes(par, dep, s0, u));
        }
        self.cut_node(u);
        (root_v, subtree_u_size)
    }

    /// Adds `delta` to the subtree size of `start_node` and of every
    /// ancestor, and returns the root.
    fn adjust_subtree_sizes_from(&mut self, start_node: usize, delta: i32) -> (r: usize)
        requires
            forest_wf(old(self).parents(), old(self).depth@),
            start_node < old(self).nodes@.len(),
        ensures
            r == root(old(self).parents(), old(self).depth@, start_node),
            final(self).nodes@.len() == old(self).nodes@.len(),
            final(self).parents() == old(self).parents(),
            final(self).adj() == old(self).adj(),
            final(self).same_scratch(old(self)),
            final(self).sizes() == ancestors_added(
                old(self).parents(),
                old(self).depth@,
                old(self).sizes().update(start_node as int, old(self).sizes()[start_node as int].wrapping_add(delta)),
                start_node,
                delta,
            ),
    {
        self.add_size(start_node, delta);
        self.adjust_subtree_sizes(start_node, delta)
    }
}

/// What walking up from `u` and `v` in lockstep finds: the walks stop at
/// the lower of the two depths, or after `MAX_DEPTH` steps; a reshape is
/// needed when they stopped at the depth of one end and the other lies at
/// least two levels deeper. When a reshape is needed the end whose walk
/// reached the root first, the shallow one, comes first and the deeper end
/// second; the last two are the nodes one step above where each of them
/// stopped, in the same order.
pub open spec fn imbalance_walk(par: Seq<usize>, dep: Seq<nat>, u: usize, v: usize) -> (bool, usize, usize, usize, usize) {
    let m = if dep[u as int] <= dep[v as int] { dep[u as int] } else { dep[v as int] };
    let d: nat = if m < MAX_DEPTH { m } else { MAX_DEPTH as nat };
    let reshape = m < MAX_DEPTH && (dep[u as int] >= dep[v as int] + 2 || dep[v as int] >= dep[u as int] + 2);
    if reshape && dep[u as int] > dep[v as int] {
        (true, v, u, anc(par, v, d + 1), anc(par, u, d + 1))
    } else {
        (reshape, u, v, anc(par, u, d + 1), anc(par, v, d + 1))
    }
}

impl IDTree {
    /// Walks up from `u` and `v` in lockstep. When one walk reaches the root
    /// while the other still has at least two levels to go, a reshape is
    /// needed; the end that reached the root first comes first in the
    /// result, followed by the deeper one and the positions the two walks
    /// reached.
    fn detect_depth_imbalance(&self, u: usize, v: usize) -> (r: (bool, usize, usize, usize, usize))
        requires
            forest_wf(self.parents(), self.depth@),
            u < self.nodes@.len(),
            v < self.nodes@.len(),
        ensures
            r.0 ==> {
                let par = self.parents();
                let dep = self.depth@;
                &&& (r.1 == u && r.2 == v) || (r.1 == v && r.2 == u)
                &&& r.4 == anc(par, r.2, dep[r.1 as int] + 1)
                &&& r.4 < par.len()
                &&& par[r.4 as int] != SENTINEL
                &&& dep[r.2 as int] >= dep[r.1 as int] + 2
            },
            r == imbalance_walk(self.parents(), self.depth@, u, v),
    {
        let ghost par = self.parents();
        let ghost dep = self.depth@;
        let mut u = u;
        let mut v = v;
        let ghost u0 = u;
        let ghost v0 = v;
        let mut reshape = false;
        let mut depth: usize = 0;
        let mut pu = self.nodes[u].parent;
        let mut pv = self.nodes[v].parent;
        let mut done = false;
        proof {
            assert(anc(par, u0, 1) == anc(par, par[u0 as int], 0));
            assert(anc(par, v0, 1) == anc(par, par[v0 as int], 0));
        }
        while !done && depth < MAX_DEPTH
            invariant
                forest_wf(par, dep),
                par == self.parents(),
                dep == self.depth@,
                u0 < par.len(),
                v0 < par.len(),
                depth <= MAX_DEPTH,
                !done ==> {
                    &&& u == u0
                    &&& v == v0
                    &&& !reshape
                    &&& pu == anc(par, u0, depth as nat + 1)
                    &&& pv == anc(par, v0, depth as nat + 1)
                    &&& depth <= dep[u0 as int]
                    &&& depth <= dep[v0 as int]
                },
                done ==> (reshape, u, v, pu, pv) == imbalance_walk(par, dep, u0, v0),
                reshape ==> {
                    &&& (u == u0 && v == v0) || (u == v0 && v == u0)
                    &&& pv == anc(par, v, dep[u as int] + 1)
                    &&& pv < par.len()
                    &&& par[pv as int] != SENTINEL
                    &&& dep[v as int] >= dep[u as int] + 2
                },
            decreases 2 * (MAX_DEPTH - depth) + (if done { 0int } else { 1int }),
        {
            proof {
                lemma_root(par, dep, u0);
                lemma_root(par, dep, v0);
                if depth + 1 <= dep[u0 as int] {
                    lemma_anc_depth(par, dep, u0, depth as nat + 1);
                }
                if depth + 1 <= dep[v0 as int] {
                    lemma_anc_depth(par, dep, v0, depth as nat + 1);
                }
            }
            if pu == SENTINEL {
                proof {
                    assert(depth == dep[u0 as int]);
                }
                if pv != SENTINEL && self.nodes[pv].parent != SENTINEL {
                    proof {
                        lemma_anc_add(par, v0, depth as nat + 1, 1);
                        assert(anc(par, pv, 1) == anc(par, par[pv as int], 0));
                        assert(dep[v0 as int] >= depth + 2) by {
                            if dep[v0 as int] < depth + 2 {
                                assert(anc(par, v0, depth as nat + 2) == SENTINEL);
                            }
                        }
                    }
                    reshape = true;
                } else {
                    proof {
                        if pv != SENTINEL {
                            lemma_anc_is_desc(par, dep, v0, depth as nat + 1);
                            assert(par[pv as int] == self.nodes@[pv as int].parent);
                            assert(dep[pv as int] == 0);
                        }
                        assert(dep[v0 as int] < depth + 2);
                    }
                }
                done = true;
            } else if pv == SENTINEL {
                proof {
                    assert(depth == dep[v0 as int]);
                }
                if pu != SENTINEL && self.nodes[pu].parent != SENTINEL {
                    proof {
                        lemma_anc_add(par, u0, depth as nat + 1, 1);
                        assert(anc(par, pu, 1) == anc(par, par[pu as int], 0));
                        assert(dep[u0 as int] >= depth + 2) by {
                            if dep[u0 as int] < depth + 2 {
                                assert(anc(par, u0, depth as nat + 2) == SENTINEL);
                            }
                        }
                    }
                    reshape = true;
                    let t = u;
                    u = v;
                    v = t;
                    let tp = pu;
                    pu = pv;
                    pv = tp;
                } else {
                    proof {
                        lemma_anc_is_desc(par, dep, u0, depth as nat + 1);
                        assert(par[pu as int] == self.nodes@[pu as int].parent);
                        assert(dep[pu as int] == 0);
                        assert(dep[u0 as int] < depth + 2);
                    }
                }
                proof {
                    assert(depth < dep[u0 as int]);
                }
                done = true;
            } else {
                proof {
                    lemma_anc_add(par, u0, depth as nat + 1, 1);
                    lemma_anc_add(par, v0, depth as nat + 1, 1);
                    assert(depth + 1 <= dep[u0 as int]) by {
                        if depth + 1 > dep[u0 as int] {
                            assert(anc(par, u0, depth as nat + 1) == SENTINEL);
                        }
                    }
                    assert(depth + 1 <= dep[v0 as int]) by {
                        if depth + 1 > dep[v0 as int] {
                            assert(anc(par, v0, depth as nat + 1) == SENTINEL);
                        }
                    }
                    assert(anc(par, pu, 1) == anc(par, par[pu as int], 0));
                    assert(anc(par, pv, 1) == anc(par, par[pv as int], 0));
                }
                pu = self.nodes[pu].parent;
                pv = self.nodes[pv].parent;
                depth += 1;
            }
        }
        proof {
            if !done {
                assert(depth == MAX_DEPTH);
            }
        }
        (reshape, u, v, pu, pv)
    }

    /// For the deep end `deep_node` of an imbalanced edge, and `deep_p`, the
    /// node its walk reached when the other walk reached the root: counts
    /// the levels from `deep_p` to the root and walks up from `deep_node` by
    /// one less than half of them, to the point where the deep side is cut.
    fn find_imbalance_centroid(&self, deep_node: usize, deep_p: usize) -> (r: usize)
        requires
            forest_wf(self.parents(), self.depth@),
            self.nodes@.len() <= i32::MAX,
            is_desc(self.parents(), self.depth@, deep_node, deep_p),
            self.parents()[deep_p as int] != SENTINEL,
        ensures
            r < self.nodes@.len(),
            is_desc(self.parents(), self.depth@, deep_node, r),
            self.depth@[r as int] >= 1,
            self.depth@[r as int] > self.depth@[deep_node as int] - self.depth@[deep_p as int],
            r == anc(self.parents(), deep_node, ((self.depth@[deep_p as int] + 1) / 2 - 1) as nat),
    {
        let ghost par = self.parents();
        let ghost dep = self.depth@;
        proof {
            lemma_depth_bound(par, dep, deep_p);
            lemma_root(par, dep, deep_p);
            lemma_desc_refl(par, dep, deep_p);
        }
        let mut depth_imbalance: i32 = 0;
        let mut p = deep_p;
        while p != SENTINEL
            invariant
                forest_wf(par, dep),
                par == self.parents(),
                deep_p < par.len(),
                par.len() <= i32::MAX,
                dep[deep_p as int] < par.len(),
                0 <= depth_imbalance <= dep[deep_p as int] + 1,
                p == anc(par, deep_p, depth_imbalance as nat),
                (p == SENTINEL) <==> (depth_imbalance == dep[deep_p as int] + 1),
            decreases dep[deep_p as int] + 1 - depth_imbalance,
        {
            proof {
                lemma_anc_add(par, deep_p, depth_imbalance as nat, 1);
                if depth_imbalance <= dep[deep_p as int] {
                    lemma_anc_depth(par, dep, deep_p, depth_imbalance as nat);
                }
                assert(anc(par, p, 1) == anc(par, par[p as int], 0));
                if depth_imbalance + 1 <= dep[deep_p as int] {
                    lemma_anc_depth(par, dep, deep_p, depth_imbalance as nat + 1);
                }
            }
            depth_imbalance += 1;
            p = self.nodes[p].parent;
        }
        depth_imbalance = depth_imbalance / 2 - 1;
        let ghost h = depth_imbalance as nat;
        let mut cur = deep_node;
        proof {
            lemma_desc_refl(par, dep, deep_node);
        }
        while depth_imbalance > 0
            invariant
                forest_wf(par, dep),
                par == self.parents(),
                deep_node < par.len(),
                0 <= depth_imbalance <= h,
                h <= dep[deep_p as int],
                is_desc(par, dep, deep_node, deep_p),
                cur < par.len(),
                is_desc(par, dep, deep_node, cur),
                dep[cur as int] == dep[deep_node as int] - (h - depth_imbalance),
                cur == anc(par, deep_node, (h - depth_imbalance) as nat),
            decreases depth_imbalance,
        {
            proof {
                assert(par[cur as int] != SENTINEL);
                lemma_desc_up(par, dep, deep_node, cur);
                lemma_anc_add(par, deep_node, (h - depth_imbalance) as nat, 1);
                assert(anc(par, cur, 1) == anc(par, par[cur as int], 0));
                assert((h - depth_imbalance) as nat + 1 == (h - (depth_imbalance - 1)) as nat);
            }
            cur = self.nodes[cur].parent;
            depth_imbalance -= 1;
        }
        cur
    }
}

impl IDTree {
    /// Inserts a forest edge between `u` and `v`, which lie in the trees
    /// rooted at `fu` and `fv`: the smaller tree is rerooted at its end of
    /// the edge and hung under the other end, then the joined tree is
    /// rerooted at its centroid when that moved.
    ///
    /// Returns 1, or 3 when the joined tree was rerooted.
    #[verifier::spinoff_prover]
    fn insert_tree_edge_balanced(&mut self, u: usize, v: usize, fu: usize, fv: usize) -> (r: i32)
        requires
            sizes_exact(old(self).parents(), old(self).depth@, old(self).sizes()),
            old(self).core_wf(),
            spans_except(old(self).adj(), old(self).parents(), old(self).depth@, fu, fv),
            has_edge(old(self).adj(), u as int, v as int),
            u < old(self).nodes@.len(),
            v < old(self).nodes@.len(),
            fu == root(old(self).parents(), old(self).depth@, u),
            fv == root(old(self).parents(), old(self).depth@, v),
            fu != fv,
        ensures
            final(self).wf(),
            final(self).adj() == old(self).adj(),
            r == 1 || r == 3,
            joined(
                old(self).parents(),
                old(self).depth@,
                old(self).sizes(),
                u,
                v,
                r,
                final(self).parents(),
                final(self).depth@,
            ),
    {
        let ghost par0 = self.parents();
        let ghost dep0 = self.depth@;
        let ghost s0 = self.sizes();
        let ghost u0 = u;
        let ghost v0 = v;
        let mut u = u;
        let mut v = v;
        let mut fu = fu;
        let mut fv = fv;
        proof {
            lemma_root(self.parents(), self.depth@, u);
            lemma_root(self.parents(), self.depth@, v);
        }
        if self.nodes[fu].subtree_size > self.nodes[fv].subtree_size {
            let t = u;
            u = v;
            v = t;
            let tf = fu;
            fu = fv;
            fv = tf;
        }
        proof {
            lemma_join(self.adj(), self.parents(), self.depth@, u, v);
            lemma_root(self.parents(), self.depth@, u);
            lemma_root(self.parents(), self.depth@, v);
        }
        let ghost a = u;
        let ghost b = v;
        let ghost swap = s0[root(par0, dep0, u0) as int] > s0[root(par0, dep0, v0) as int];
        proof {
            assert(a == if swap { v0 } else { u0 });
            assert(b == if swap { u0 } else { v0 });
            assert(fu == if swap { root(par0, dep0, v0) } else { root(par0, dep0, u0) });
            assert(fv == if swap { root(par0, dep0, u0) } else { root(par0, dep0, v0) });
        }
        let u = self.rotate_tree(u, v);
        let ghost par1 = self.parents();
        let ghost dep1 = self.depth@;
        proof {
            assert(par1 == rotated(par0, dep0, a, b));
            assert(dep1 == rebuilt(par1));
            assert(is_desc(par1, dep1, u, b) && u != b);
        }
        proof {
            assert(!is_desc(par1, dep1, b, u)) by {
                assert(dep1[u as int] > dep1[b as int]);
            }
        }
        let new_root = self.rebalance_tree(fu, v, fv);
        let ghost s1 = rejoin_sizes(par0, dep0, s0, a, b);
        let ghost thr = rejoin_bound(par0, dep0, s0, a, fv);
        proof {
            assert(self.sizes() == s1);
            assert(new_root is None <==> none_over(par1, dep1, s1, b, thr));
            assert(new_root matches Some(x) ==> first_over(par1, dep1, s1, b, thr, x));
        }
        self.fix_rotated_subtree_sizes(u, v);
        let ghost s2 = self.sizes();
        proof {
            {
                lemma_join_sizes(par0, dep0, s0, a, b);
                assert(u == root(par0, dep0, a));
                assert(sizes_exact(par1, dep1, s2));
            }
        }
        if let Some(new_root) = new_root {
            if new_root != fv {
                proof {
                    lemma_reroot_spans(self.adj(), self.parents(), self.depth@, new_root);
                }
                self.reroot(new_root, fv);
                proof {
                    assert(is_desc(par1, dep1, b, new_root));
                    assert(self.parents() == rotated(par1, dep1, new_root, SENTINEL));
                    assert(first_over(par1, dep1, s1, b, thr, new_root));
                    assert(rejoin_moved(par0, dep0, s0, a, b, fv, self.parents()));
                    lemma_joined_rerooted(par0, dep0, s0, u0, v0, new_root, u, self.parents(), self.depth@);
                    {
                        lemma_reroot_sizes(par1, dep1, s2, new_root);
                    }
                }
                return 3;
            }
        }
        proof {
            assert forall|x: usize| #[trigger] first_over(par1, dep1, s1, b, thr, x) implies x == fv by {
                match new_root {
                    Some(y) => {
                        lemma_first_over_unique(par1, dep1, s1, b, thr, x, y);
                    },
                    None => {
                        reveal(none_over);
                        reveal(first_over);
                    },
                }
            }
            assert(rejoin_kept(par0, dep0, s0, a, b, fv, self.parents()));
            lemma_joined_kept(par0, dep0, s0, u0, v0, self.parents(), self.depth@);
        }
        1
    }



    /// Inserts a non-forest edge between `u` and `v` of the tree rooted at
    /// `f`. When one end lies at least two levels deeper than the other,
    /// the part of its root path below the middle is cut off, rerooted at
    /// the deep end and hung under the shallow end; the tree is then
    /// rerooted at its centroid when that moved.
    ///
    /// Returns 0, or 2 when the tree was rerooted.
    fn insert_non_tree_edge_balanced(&mut self, u: usize, v: usize, f: usize) -> (r: i32)
        requires
            old(self).wf(),
            has_edge(old(self).adj(), u as int, v as int),
            u < old(self).nodes@.len(),
            v < old(self).nodes@.len(),
            f == root(old(self).parents(), old(self).depth@, u),
            f == root(old(self).parents(), old(self).depth@, v),
        ensures
            final(self).wf(),
            final(self).adj() == old(self).adj(),
            r == 0 || r == 2,
            !imbalance_walk(old(self).parents(), old(self).depth@, u, v).0 ==> r == 0 && *final(self) == *old(self),
            imbalance_walk(old(self).parents(), old(self).depth@, u, v).0 ==> final(self).parents() != old(self).parents(),
            r == 0 ==> forall|w: usize|
                w < old(self).nodes@.len() ==> #[trigger] root(final(self).parents(), final(self).depth@, w)
                    == root(old(self).parents(), old(self).depth@, w),
            r == 2 ==> root(final(self).parents(), final(self).depth@, u) != f,
            r == 2 ==> forall|w: usize|
                w < old(self).nodes@.len() ==> #[trigger] root(final(self).parents(), final(self).depth@, w)
                    == if root(old(self).parents(), old(self).depth@, w) == f {
                    root(final(self).parents(), final(self).depth@, u)
                } else {
                    root(old(self).parents(), old(self).depth@, w)
                },
            imbalance_walk(old(self).parents(), old(self).depth@, u, v).0 ==> reshaped(
                old(self).parents(),
                old(self).depth@,
                old(self).sizes(),
                u,
                v,
                f,
                r,
                final(self).parents(),
                final(self).depth@,
                final(self).sizes(),
            ),
    {
        let ghost adj = self.adj();
        let ghost par0 = self.parents();
        let ghost dep0 = self.depth@;
        let ghost s0 = self.sizes();
        let (reshape, shallow, deep, shallow_p, deep_p) = self.detect_depth_imbalance(u, v);
        if !reshape {
            return 0;
        }
        assert((reshape, shallow, deep, shallow_p, deep_p) == imbalance_walk(par0, dep0, u, v));
        proof {
            lemma_anc_is_desc(par0, dep0, deep, dep0[shallow as int] + 1);
        }
        let p = self.find_imbalance_centroid(deep, deep_p);
        assert(p == anc(par0, deep, ((dep0[deep_p as int] + 1) / 2 - 1) as nat));
        let neg = 0i32.wrapping_sub(self.nodes[p].subtree_size);
        assert(neg == 0i32.wrapping_sub(s0[p as int]));
        self.adjust_subtree_sizes(p, neg);
        let ghost s1 = self.sizes();
        assert(s1 == ancestors_added(par0, dep0, s0, p, neg));
        assert(self.parents() == par0);
        proof {
            assert(!is_desc(par0, dep0, shallow, p));
            lemma_desc_root(par0, dep0, deep, p);
            lemma_desc_root(par0, dep0, u, u);
        }
        self.reattach(p, deep, shallow);
        let ghost par_r = self.parents();
        let ghost dep_r = self.depth@;
        let ghost s2 = self.sizes();
        proof {
            {
                let cut = par0.update(p as int, SENTINEL);
                let dc = rebuilt(cut);
                reveal(ancestors_added);
                reveal(detached);
                assert(s1 =~= cut_sizes(par0, dep0, s0, p));
                lemma_cut_sizes(par0, dep0, s0, p);
                crate::forest::lemma_cut(par0, dep0, p);
                assert(root(cut, dc, deep) == p);
                lemma_reroot_sizes(cut, dc, s1, deep);
                let dt = detached(par0, p, deep);
                lemma_link_sizes(dt, rebuilt(dt), s2, deep, shallow);
            }
        }
        assert(par_r == detached(par0, p, deep).update(deep as int, shallow));
        assert(dep_r == rebuilt(par_r));
        assert(s2 == path_sizes(detached(par0, p, deep), rebuilt(detached(par0, p, deep)), s1, p, 0));
        proof {
            lemma_root(self.parents(), self.depth@, shallow);
            assert(!is_desc(par_r, dep_r, shallow, deep)) by {
                assert(dep_r[deep as int] == dep_r[shallow as int] + 1);
            }
        }
        let new_root = self.rebalance_tree(deep, shallow, f);
        let ghost s3 = self.sizes();
        proof {
            {
                assert(sizes_exact(par_r, dep_r, s3));
            }
        }
        let ghost thr = half_toward_zero(s2[f as int].wrapping_add(s2[deep as int]) as int);
        assert(s3 == path_added(par_r, dep_r, s2, shallow, 0, s2[deep as int]));
        proof {
            assert(reshape_plan(par0, dep0, s0, u, v, f) == (par_r, s3, shallow, thr)) by {
                reveal(reshape_plan);
            }
        }
        if let Some(new_root) = new_root {
            if new_root != f {
                proof {
                    lemma_reroot_spans(self.adj(), self.parents(), self.depth@, new_root);
                    assert(first_over(par_r, dep_r, s3, shallow, thr, new_root)) by {
                        reveal(first_over);
                    }
                    assert(is_desc(par_r, dep_r, shallow, new_root)) by {
                        reveal(first_over);
                    }
                    lemma_desc_root(par_r, dep_r, shallow, new_root);
                    lemma_root(par0, dep0, shallow);
                }
                self.reroot(new_root, f);
                proof {
                    assert(self.parents() == rotated(par_r, dep_r, new_root, SENTINEL));
                    assert(self.sizes() == path_sizes(self.parents(), self.depth@, s3, root(par_r, dep_r, new_root), 0));
                    lemma_reshaped_rerooted(par0, dep0, s0, u, v, f, self.parents(), self.depth@, self.sizes(), new_root);
                    lemma_reroot_roots(par0, dep0, par_r, dep_r, f, new_root, self.parents(), self.depth@);
                    {
                        lemma_reroot_sizes(par_r, dep_r, s3, new_root);
                    }
                    lemma_root(par0, dep0, u);
                    assert(root(par_r, dep_r, u) == root(par0, dep0, u));
                    if self.parents() == par0 {
                        crate::setup::lemma_depths_unique(par0, dep0, self.depth@);
                    }
                }
                return 2;
            }
        }
        proof {
            assert forall|x: usize| #[trigger] first_over(par_r, dep_r, s3, shallow, thr, x) implies x == f by {
                reveal(first_over);
                reveal(none_over);
                if let Some(y) = new_root {
                    lemma_first_over_unique(par_r, dep_r, s3, shallow, thr, x, y);
                }
            }
            assert(self.parents() == par_r);
            assert(self.sizes() == s3);
            lemma_reshaped_kept(par0, dep0, s0, u, v, f, self.parents(), self.depth@, self.sizes());
            assert(self.depth@ == dep_r);
            assert(par_r.len() == par0.len());
            assert(par_r[deep as int] == shallow);
            assert(dep0[deep as int] >= dep0[shallow as int] + 2);
            if par0[deep as int] == shallow {
                assert(dep0[deep as int] == dep0[shallow as int] + 1);
            }
        }
        0
    }

    /// Cuts `p` from its parent and reroots the cut-off subtree at `moved`.
    fn detach(&mut self, p: usize, moved: usize)
        requires
            old(self).core_wf(),
            graph_wf(old(self).adj()),
            old(self).adj().len() == old(self).parents().len(),
            forest_wf(old(self).parents(), old(self).depth@),
            tree_edges_in_graph(old(self).adj(), old(self).parents()),
            is_desc(old(self).parents(), old(self).depth@, moved, p),
        ensures
            final(self).core_wf(),
            forest_wf(final(self).parents(), final(self).depth@),
            tree_edges_in_graph(final(self).adj(), final(self).parents()),
            final(self).parents()[moved as int] == SENTINEL,
            final(self).parents() == detached(old(self).parents(), p, moved),
            final(self).depth@ == rebuilt(final(self).parents()),
            final(self).sizes() == path_sizes(final(self).parents(), final(self).depth@, old(self).sizes(), p, 0),
            forall|w: usize|
                w < old(self).nodes@.len() ==> #[trigger] root(final(self).parents(), final(self).depth@, w)
                    == if is_desc(old(self).parents(), old(self).depth@, w, p) {
                    moved
                } else {
                    root(old(self).parents(), old(self).depth@, w)
                },
            final(self).adj() == old(self).adj(),
    {
        let ghost adj = self.adj();
        let ghost par0 = self.parents();
        let ghost dep0 = self.depth@;
        proof {
            reveal(detached);
        }
        proof {
            lemma_cut_tree_edges(adj, par0, p);
        }
        self.cut_node(p);
        let ghost par1 = self.parents();
        let ghost dep1 = self.depth@;
        proof {
            lemma_rotate(par1, dep1, moved, SENTINEL);
            lemma_rotate_tree_edges(adj, par1, dep1, moved, SENTINEL);
            assert(root(par1, dep1, moved) == p);
        }
        self.reroot(moved, SENTINEL);
        proof {
            let par2 = self.parents();
            let dep2 = self.depth@;
            assert forall|w: usize| w < par0.len() implies #[trigger] root(par2, dep2, w) == if is_desc(
                par0,
                dep0,
                w,
                p,
            ) {
                moved
            } else {
                root(par0, dep0, w)
            } by {
                lemma_root(par0, dep0, w);
            }
        }
    }

    /// Cuts `p` from its parent, reroots the cut-off subtree at `moved`, and
    /// hangs it under `anchor`, which lies outside it in the same tree.
    /// Every node keeps its root.
    fn reattach(&mut self, p: usize, moved: usize, anchor: usize)
        requires
            old(self).core_wf(),
            spans(old(self).adj(), old(self).parents(), old(self).depth@),
            is_desc(old(self).parents(), old(self).depth@, moved, p),
            anchor < old(self).nodes@.len(),
            !is_desc(old(self).parents(), old(self).depth@, anchor, p),
            root(old(self).parents(), old(self).depth@, anchor) == root(
                old(self).parents(),
                old(self).depth@,
                moved,
            ),
            has_edge(old(self).adj(), moved as int, anchor as int),
        ensures
            final(self).core_wf(),
            spans(final(self).adj(), final(self).parents(), final(self).depth@),
            forall|w: usize|
                w < old(self).nodes@.len() ==> #[trigger] root(final(self).parents(), final(self).depth@, w)
                    == root(old(self).parents(), old(self).depth@, w),
            final(self).adj() == old(self).adj(),
            final(self).parents() == detached(old(self).parents(), p, moved).update(moved as int, anchor),
            final(self).parents()[moved as int] == anchor,
            detached(old(self).parents(), p, moved)[moved as int] == SENTINEL,
            root(detached(old(self).parents(), p, moved), rebuilt(detached(old(self).parents(), p, moved)), anchor) != moved,
            forest_wf(detached(old(self).parents(), p, moved), rebuilt(detached(old(self).parents(), p, moved))),
            final(self).depth@ == rebuilt(final(self).parents()),
            final(self).sizes() == path_sizes(
                detached(old(self).parents(), p, moved),
                rebuilt(detached(old(self).parents(), p, moved)),
                old(self).sizes(),
                p,
                0,
            ),
    {
        let ghost adj = self.adj();
        let ghost par0 = self.parents();
        let ghost dep0 = self.depth@;
        proof {
            lemma_root(par0, dep0, anchor);
            lemma_root(par0, dep0, moved);
            lemma_desc_root(par0, dep0, moved, p);
            assert(root(par0, dep0, anchor) != p);
            assert(par0[moved as int] != SENTINEL) by {
                if par0[moved as int] == SENTINEL {
                    assert(dep0[moved as int] == 0);
                    assert(p == moved);
                }
            }
        }
        self.detach(p, moved);
        let ghost par2 = self.parents();
        let ghost dep2 = self.depth@;
        proof {
            assert(root(par2, dep2, anchor) == root(par0, dep0, anchor));
            lemma_rotate_tree_edges(adj, par2, dep2, moved, anchor);
        }
        self.link_root(moved, anchor);
        let ghost par3 = self.parents();
        let ghost dep3 = self.depth@;
        proof {
            assert forall|w: usize| w < par0.len() implies #[trigger] root(par3, dep3, w) == root(
                par0,
                dep0,
                w,
            ) by {
                lemma_root(par0, dep0, w);
                if is_desc(par0, dep0, w, p) {
                    lemma_desc_root(par0, dep0, w, p);
                }
            }
            assert forall|a: int, b: int| #[trigger] has_edge(adj, a, b) implies root(
                par3,
                dep3,
                a as usize,
            ) == root(par3, dep3, b as usize) by {
                assert(root(par0, dep0, a as usize) == root(par0, dep0, b as usize));
            }
        }
    }

    /// Inserts the new graph edge `(u, v)` into the forest.
    fn insert_edge_balanced(&mut self, u: usize, v: usize) -> (r: i32)
        requires
            sizes_exact(old(self).parents(), old(self).depth@, old(self).sizes()),
            old(self).core_wf(),
            has_edge(old(self).adj(), u as int, v as int),
            u < old(self).nodes@.len(),
            v < old(self).nodes@.len(),
            spans_except(
                old(self).adj(),
                old(self).parents(),
                old(self).depth@,
                root(old(self).parents(), old(self).depth@, u),
                root(old(self).parents(), old(self).depth@, v),
            ),
            forall|a: int, b: int|
                #[trigger] has_edge(old(self).adj(), a, b) && root(old(self).parents(), old(self).depth@, a as usize)
                    != root(old(self).parents(), old(self).depth@, b as usize) ==> (a == u && b == v) || (
                a == v && b == u),
        ensures
            final(self).wf(),
            final(self).adj() == old(self).adj(),
            r == 0 || r == 1 || r == 2 || r == 3,
            (r == 0 || r == 2) <==> root(old(self).parents(), old(self).depth@, u) == root(
                old(self).parents(),
                old(self).depth@,
                v,
            ),
            root(old(self).parents(), old(self).depth@, u) == root(old(self).parents(), old(self).depth@, v)
                && imbalance_walk(old(self).parents(), old(self).depth@, u, v).0 ==> final(self).parents() != old(self).parents(),
            inserted(
                old(self).parents(),
                old(self).depth@,
                old(self).sizes(),
                u,
                v,
                r,
                final(self).parents(),
                final(self).depth@,
                final(self).sizes(),
            ),
            ({
                let par0 = old(self).parents();
                let dep0 = old(self).depth@;
                let par = final(self).parents();
                let dep = final(self).depth@;
                let ru = root(par0, dep0, u);
                let rv = root(par0, dep0, v);
                &&& r == 0 ==> forall|w: usize| w < par0.len() ==> #[trigger] root(par, dep, w) == root(par0, dep0, w)
                &&& r == 1 ==> root(par, dep, u) == if old(self).sizes()[ru as int] > old(self).sizes()[rv as int] {
                    ru
                } else {
                    rv
                }
                &&& r == 2 ==> root(par, dep, u) != ru
                &&& r == 3 ==> root(par, dep, u) != ru && root(par, dep, u) != rv
                &&& root(par, dep, u) == root(par, dep, v)
                &&& forall|w: usize|
                    w < par0.len() ==> #[trigger] root(par, dep, w) == if root(par0, dep0, w) == ru || root(par0, dep0, w) == rv {
                        root(par, dep, u)
                    } else {
                        root(par0, dep0, w)
                    }
            }),
    {
        let ghost par0 = self.parents();
        let ghost dep0 = self.depth@;
        let ghost s0 = self.sizes();
        let fu = self.get_tree_root(u);
        let fv = self.get_tree_root(v);
        if fu == fv {
            proof {
                assert(spans(self.adj(), self.parents(), self.depth@));
            }
            let r = self.insert_non_tree_edge_balanced(u, v, fu);
            proof {
                reveal(inserted);
                lemma_root(par0, dep0, u);
            }
            r
        } else {
            let r = self.insert_tree_edge_balanced(u, v, fu, fv);
            proof {
                reveal(inserted);
                lemma_joined_roots(par0, dep0, s0, u, v, r, self.parents(), self.depth@);
            }
            r
        }
    }
}

/// What the search for an edge leaving the tree of `u` relies on.
#[verifier::opaque]
pub open spec fn scan_ctx(adj: Seq<Seq<u32>>, par: Seq<usize>, dep: Seq<nat>, u: usize, root_v: usize) -> bool {
    &&& spans_except(adj, par, dep, u, root_v)
    &&& par.len() <= i32::MAX
    &&& u < par.len()
    &&& root_v < par.len()
    &&& u != root_v
    &&& root(par, dep, u) == u
    &&& root(par, dep, root_v) == root_v
}

/// The neighbor at position `m` of `node` is a node joined to it.
proof fn lemma_scan_step(adj: Seq<Seq<u32>>, par: Seq<usize>, dep: Seq<nat>, u: usize, root_v: usize, node: usize, m: int)
    requires
        scan_ctx(adj, par, dep, u, root_v),
        node < par.len(),
        0 <= m < adj[node as int].len(),
    ensures
        (adj[node as int][m] as usize) < par.len(),
        has_edge(adj, node as int, adj[node as int][m] as int),
        forest_wf(par, dep),
        par.len() <= i32::MAX,
{
    reveal(scan_ctx);
    assert((adj[node as int][m] as int) < adj.len());
    assert(adj[node as int].contains(adj[node as int][m]));
}

/// The parent of `node` lies in its tree and is not its child.
proof fn lemma_scan_parent(adj: Seq<Seq<u32>>, par: Seq<usize>, dep: Seq<nat>, u: usize, root_v: usize, node: usize, m: int)
    requires
        scan_ctx(adj, par, dep, u, root_v),
        node < par.len(),
        root(par, dep, node) == u,
        0 <= m < adj[node as int].len(),
        adj[node as int][m] as usize == par[node as int],
    ensures
        par[adj[node as int][m] as int] != node,
        root(par, dep, adj[node as int][m] as usize) == u,
{
    reveal(scan_ctx);
    assert((adj[node as int][m] as int) < adj.len());
    lemma_root_parent(par, dep, node);
}

/// A neighbor outside the tree of `u` lies in the tree of `root_v`.
proof fn lemma_scan_leave(adj: Seq<Seq<u32>>, par: Seq<usize>, dep: Seq<nat>, u: usize, root_v: usize, node: usize, m: int)
    requires
        scan_ctx(adj, par, dep, u, root_v),
        node < par.len(),
        root(par, dep, node) == u,
        0 <= m < adj[node as int].len(),
        root(par, dep, adj[node as int][m] as usize) != u,
    ensures
        root(par, dep, adj[node as int][m] as usize) == root_v,
{
    reveal(scan_ctx);
    assert((adj[node as int][m] as int) < adj.len());
    assert(adj[node as int].contains(adj[node as int][m]));
    assert(has_edge(adj, node as int, adj[node as int][m] as int));
}

impl IDTree {
    /// Whether some node on the root path of `w0` carries the mark `g`.
    fn chain_marked(&self, w0: usize, g: u16) -> (r: bool)
        requires
            forest_wf(self.parents(), self.depth@),
            w0 < self.nodes@.len(),
            self.generations@.len() == self.nodes@.len(),
        ensures
            r == exists|x: usize|
                #[trigger] is_desc(self.parents(), self.depth@, w0, x) && self.generations@[x as int]
                    == g,
    {
        let ghost par = self.parents();
        let ghost dep = self.depth@;
        let mut w = w0;
        let ghost mut k: nat = 0;
        while w != SENTINEL
            invariant
                forest_wf(par, dep),
                par == self.parents(),
                dep == self.depth@,
                w0 < par.len(),
                self.generations@.len() == par.len(),
                k <= dep[w0 as int] + 1,
                w == anc(par, w0, k),
                (w == SENTINEL) <==> (k == dep[w0 as int] + 1),
                forall|j: nat| j < k ==> #[trigger] self.generations@[anc(par, w0, j) as int] != g,
            decreases dep[w0 as int] + 1 - k,
        {
            proof {
                lemma_root(par, dep, w0);
                lemma_anc_depth(par, dep, w0, k);
                lemma_anc_is_desc(par, dep, w0, k);
            }
            if self.generations[w] == g {
                return true;
            }
            proof {
                lemma_anc_add(par, w0, k, 1);
                assert(anc(par, w, 1) == anc(par, par[w as int], 0));
                if k + 1 <= dep[w0 as int] {
                    lemma_anc_depth(par, dep, w0, k + 1);
                }
            }
            w = self.nodes[w].parent;
            proof {
                k = k + 1;
            }
        }
        proof {
            assert forall|x: usize| #[trigger] is_desc(par, dep, w0, x) implies self.generations@[x as int]
                != g by {
                let j = (dep[w0 as int] - dep[x as int]) as nat;
                assert(self.generations@[anc(par, w0, j) as int] != g);
            }
        }
        false
    }

    /// Joins the tree of `node` to the tree rooted at `root_v` through the
    /// edge from `node` to `neighbor`, then reroots the joined tree at its
    /// centroid when that moved.
    #[verifier::rlimit(60)]
    fn join_trees(&mut self, node: usize, neighbor: usize, root_v: usize, Ghost(a): Ghost<usize>, Ghost(b): Ghost<usize>)
        requires
            sizes_exact(old(self).parents(), old(self).depth@, old(self).sizes()),
            old(self).core_wf(),
            node < old(self).nodes@.len(),
            neighbor < old(self).nodes@.len(),
            spans_except(
                old(self).adj(),
                old(self).parents(),
                old(self).depth@,
                root(old(self).parents(), old(self).depth@, node),
                root_v,
            ),
            has_edge(old(self).adj(), node as int, neighbor as int),
            root(old(self).parents(), old(self).depth@, neighbor) == root_v,
            root(old(self).parents(), old(self).depth@, node) != root_v,
            a < old(self).nodes@.len(),
            b < old(self).nodes@.len(),
            root(old(self).parents(), old(self).depth@, a) == root_v || root(old(self).parents(), old(self).depth@, a) == root(old(self).parents(), old(self).depth@, node),
            root(old(self).parents(), old(self).depth@, b) == root_v || root(old(self).parents(), old(self).depth@, b) == root(old(self).parents(), old(self).depth@, node),
        ensures
            final(self).wf(),
            final(self).adj() == old(self).adj(),
            root(final(self).parents(), final(self).depth@, a) == root(final(self).parents(), final(self).depth@, b),
            rejoined(old(self).parents(), old(self).depth@, old(self).sizes(), node, neighbor, root_v, final(self).parents()),
    {
        let ghost par0 = self.parents();
        let ghost dep0 = self.depth@;
        let ghost s0 = self.sizes();
        proof {
            lemma_join(self.adj(), self.parents(), self.depth@, node, neighbor);
            lemma_root(self.parents(), self.depth@, node);
            lemma_root(self.parents(), self.depth@, neighbor);
        }
        let rotated_u = self.rotate_tree(node, neighbor);
        let ghost par1 = self.parents();
        let ghost dep1 = self.depth@;
        proof {
            assert(!is_desc(par1, dep1, neighbor, rotated_u)) by {
                assert(dep1[rotated_u as int] > dep1[neighbor as int]);
            }
        }
        proof {
            assert(root(self.parents(), self.depth@, a) == root(self.parents(), self.depth@, b));
        }
        let new_root = self.rebalance_tree(rotated_u, neighbor, root_v);
        let ghost s1 = rejoin_sizes(par0, dep0, s0, node, neighbor);
        let ghost thr = rejoin_bound(par0, dep0, s0, node, root_v);
        proof {
            assert(self.sizes() == s1);
            assert(new_root is None <==> none_over(par1, dep1, s1, neighbor, thr));
            assert(new_root matches Some(x) ==> first_over(par1, dep1, s1, neighbor, thr, x));
        }
        self.fix_rotated_subtree_sizes(rotated_u, neighbor);
        let ghost s2 = self.sizes();
        proof {
            {
                lemma_join_sizes(par0, dep0, s0, node, neighbor);
            }
        }
        if let Some(new_root) = new_root {
            if new_root != root_v {
                proof {
                    lemma_reroot_spans(self.adj(), self.parents(), self.depth@, new_root);
                }
                self.reroot(new_root, root_v);
                proof {
                    {
                        lemma_reroot_sizes(par1, dep1, s2, new_root);
                    }
                    assert(first_over(par1, dep1, s1, neighbor, thr, new_root));
                    assert(rejoin_moved(par0, dep0, s0, node, neighbor, root_v, self.parents()));
                    reveal(rejoined);
                }
                return;
            }
        }
        proof {
            assert forall|x: usize| #[trigger] first_over(par1, dep1, s1, neighbor, thr, x) implies x == root_v by {
                match new_root {
                    Some(y) => {
                        lemma_first_over_unique(par1, dep1, s1, neighbor, thr, x, y);
                    },
                    None => {
                        reveal(none_over);
                        reveal(first_over);
                    },
                }
            }
            assert(rejoin_kept(par0, dep0, s0, node, neighbor, root_v, self.parents()));
            reveal(rejoined);
        }
    }
}

impl IDTree {
    /// Goes through the neighbors of `node`, the list entry at position
    /// `i0`: lists and marks its children, passes over neighbors in the
    /// tree of `u`, and returns the first neighbor in another tree.
    fn scan_node(&mut self, node: usize, Ghost(i0): Ghost<int>, u: usize, root_v: usize, cur_generation: u16) -> (r: Option<usize>)
        requires
            old(self).core_wf(),
            old(self).generation == cur_generation,
            scan_ctx(old(self).adj(), old(self).parents(), old(self).depth@, u, root_v),
            old(self).vec_scratch_nodes@[i0] < old(self).nodes@.len(),
            root(old(self).parents(), old(self).depth@, node) == u,
            0 <= i0 < old(self).vec_scratch_nodes@.len(),
            old(self).vec_scratch_nodes@[i0] == node,
            visit_list(old(self).vec_scratch_nodes@, old(self).parents(), old(self).depth@, u),
            marks_match(old(self).generations@, old(self).vec_scratch_nodes@, cur_generation, old(self).nodes@.len()),
            parents_visited(old(self).vec_scratch_nodes@, old(self).parents(), i0 + 1),
            children_listed(old(self).vec_scratch_nodes@, old(self).parents(), i0),
            edges_inside(old(self).vec_scratch_nodes@, old(self).adj(), old(self).parents(), old(self).depth@, u, i0),
            children_seen(old(self).vec_scratch_nodes@, old(self).adj(), old(self).parents(), node, 0),
        ensures
            final(self).core_wf(),
            final(self).generation == cur_generation,
            final(self).adj() == old(self).adj(),
            final(self).parents() == old(self).parents(),
            final(self).depth@ == old(self).depth@,
            final(self).sizes() == old(self).sizes(),
            (final(self).vec_scratch_nodes@, r) == repl_scan(
                old(self).adj(),
                old(self).parents(),
                old(self).depth@,
                u,
                node,
                0,
                old(self).vec_scratch_nodes@,
            ),
            r matches Some(y) ==> y < final(self).nodes@.len() && has_edge(final(self).adj(), node as int, y as int)
                && root(final(self).parents(), final(self).depth@, y) == root_v,
            r is None ==> {
                &&& i0 < final(self).vec_scratch_nodes@.len()
                &&& visit_list(final(self).vec_scratch_nodes@, final(self).parents(), final(self).depth@, u)
                &&& marks_match(final(self).generations@, final(self).vec_scratch_nodes@, cur_generation, final(self).nodes@.len())
                &&& parents_visited(final(self).vec_scratch_nodes@, final(self).parents(), i0 + 1)
                &&& children_listed(final(self).vec_scratch_nodes@, final(self).parents(), i0 + 1)
                &&& edges_inside(final(self).vec_scratch_nodes@, final(self).adj(), final(self).parents(), final(self).depth@, u, i0 + 1)
            },
    {
        let ghost adj = self.adj();
        let ghost par = self.parents();
        let ghost dep = self.depth@;
        let ghost n = par.len();
        proof {
            lemma_list_len(self.vec_scratch_nodes@, par, dep, u);
            assert(neighbors_inside(adj, par, dep, node, u, 0)) by {
                reveal(neighbors_inside);
            }
        }
        let deg = self.nodes[node].neighbors.len();
        let mut n_idx: usize = 0;
        while n_idx < deg
            invariant
                self.core_wf(),
                self.generation == cur_generation,
                self.adj() == adj,
                self.parents() == par,
                self.depth@ == dep,
                self.nodes == old(self).nodes,
                adj == old(self).adj(),
                par == old(self).parents(),
                dep == old(self).depth@,
                n == par.len(),
                scan_ctx(adj, par, dep, u, root_v),
                node < n,
                root(par, dep, node) == u,
                deg == adj[node as int].len(),
                n_idx <= deg,
                0 <= i0 < self.vec_scratch_nodes@.len(),
                self.vec_scratch_nodes@[i0] == node,
                visit_list(self.vec_scratch_nodes@, par, dep, u),
                marks_match(self.generations@, self.vec_scratch_nodes@, cur_generation, n),
                parents_visited(self.vec_scratch_nodes@, par, i0 + 1),
                children_listed(self.vec_scratch_nodes@, par, i0),
                edges_inside(self.vec_scratch_nodes@, adj, par, dep, u, i0),
                children_seen(self.vec_scratch_nodes@, adj, par, node, n_idx as int),
                neighbors_inside(adj, par, dep, node, u, n_idx as int),
                repl_scan(adj, par, dep, u, node, n_idx as int, self.vec_scratch_nodes@) == repl_scan(
                    adj,
                    par,
                    dep,
                    u,
                    node,
                    0,
                    old(self).vec_scratch_nodes@,
                ),
            decreases deg - n_idx,
        {
            proof {
                assert(self.nodes@[node as int].nbrs() == adj[node as int]);
            }
            let neighbor = self.nodes[node].neighbors.get(n_idx) as usize;
            let ghost l0 = self.vec_scratch_nodes@;
            proof {
                assert(neighbor == adj[node as int][n_idx as int] as usize);
                lemma_scan_step(adj, par, dep, u, root_v, node, n_idx as int);
                lemma_list_len(self.vec_scratch_nodes@, par, dep, u);
            }
            if neighbor == self.nodes[node].parent {
                proof {
                    lemma_scan_parent(adj, par, dep, u, root_v, node, n_idx as int);
                    lemma_skip_neighbor(self.vec_scratch_nodes@, adj, par, dep, node, u, n_idx as int);
                }
            } else if self.nodes[neighbor].parent == node {
                proof {
                    reveal(scan_ctx);
                    lemma_push_child(
                        self.vec_scratch_nodes@,
                        self.generations@,
                        cur_generation,
                        adj,
                        par,
                        dep,
                        u,
                        node,
                        i0,
                        n_idx as int,
                    );
                }
                self.vec_scratch_nodes.push(neighbor);
                self.generations.set(neighbor, cur_generation);
                proof {
                    assert(self.vec_scratch_nodes@ == l0.push(neighbor));
                }
            } else if self.chain_marked(neighbor, cur_generation) {
                proof {
                    lemma_marked_path(self.vec_scratch_nodes@, self.generations@, cur_generation, par, dep, u, neighbor);
                    lemma_skip_neighbor(self.vec_scratch_nodes@, adj, par, dep, node, u, n_idx as int);
                }
            } else {
                proof {
                    lemma_marked_path(self.vec_scratch_nodes@, self.generations@, cur_generation, par, dep, u, neighbor);
                    lemma_scan_leave(adj, par, dep, u, root_v, node, n_idx as int);
                }
                return Some(neighbor);
            }
            n_idx += 1;
        }
        proof {
            reveal(scan_ctx);
            lemma_end_node(self.vec_scratch_nodes@, adj, par, dep, u, i0);
        }
        None
    }

    /// Looks, breadth first over the tree rooted at `u`, for a graph edge
    /// from that tree to another one; such an edge can only lead to the tree
    /// rooted at `root_v`. When one is found the two trees are joined
    /// through it.
    ///
    /// Returns whether an edge was found. The nodes visited are left in
    /// `vec_scratch_nodes`, marked with the current generation.
    #[verifier::rlimit(40)]
    #[verifier::spinoff_prover]
    fn find_replacement(
        &mut self,
        u: usize,
        root_v: usize,
        Ghost(a): Ghost<usize>,
        Ghost(b): Ghost<usize>,
    ) -> (r: bool)
        requires
            sizes_exact(old(self).parents(), old(self).depth@, old(self).sizes()),
            old(self).core_wf(),
            spans_except(old(self).adj(), old(self).parents(), old(self).depth@, u, root_v),
            u < old(self).nodes@.len(),
            root_v < old(self).nodes@.len(),
            old(self).parents()[u as int] == SENTINEL,
            old(self).parents()[root_v as int] == SENTINEL,
            u != root_v,
            a < old(self).nodes@.len(),
            b < old(self).nodes@.len(),
            root(old(self).parents(), old(self).depth@, a) == u || root(
                old(self).parents(),
                old(self).depth@,
                a,
            ) == root_v,
            root(old(self).parents(), old(self).depth@, b) == u || root(
                old(self).parents(),
                old(self).depth@,
                b,
            ) == root_v,
        ensures
            final(self).wf(),
            final(self).adj() == old(self).adj(),
            r ==> root(final(self).parents(), final(self).depth@, a) == root(
                final(self).parents(),
                final(self).depth@,
                b,
            ),
            !r ==> final(self).parents() == old(self).parents() && final(self).depth@ == old(
                self,
            ).depth@ && final(self).sizes() == old(self).sizes(),
            r == (replacement_edge(old(self).adj(), old(self).parents(), old(self).depth@, u) is Some),
            r ==> ({
                let e = replacement_edge(old(self).adj(), old(self).parents(), old(self).depth@, u)->0;
                rejoined(old(self).parents(), old(self).depth@, old(self).sizes(), e.0, e.1, root_v, final(self).parents())
            }),
    {
        let ghost adj = self.adj();
        let ghost par = self.parents();
        let ghost dep = self.depth@;
        let ghost n = par.len();
        proof {
            lemma_root(par, dep, u);
            lemma_root(par, dep, root_v);
            assert(root(par, dep, u) == u);
            assert(root(par, dep, root_v) == root_v);
        }
        self.vec_scratch_nodes.clear();
        let cur_generation = self.next_generation();
        proof {
            lemma_search_start(par, dep, adj, self.generations@, cur_generation, u);
        }
        self.vec_scratch_nodes.push(u);
        self.generations.set(u, cur_generation);
        proof {
            assert(self.vec_scratch_nodes@ =~= seq![u]);
            assert(scan_ctx(adj, par, dep, u, root_v)) by {
                reveal(scan_ctx);
            }
        }
        let mut i: usize = 0;
        let ghost goal = replacement_edge(adj, par, dep, u);
        proof {
            assert(self.vec_scratch_nodes@ == seq![u]);
        }
        while i < self.vec_scratch_nodes.len()
            invariant
                self.core_wf(),
                self.generation == cur_generation,
                self.adj() == adj,
                self.parents() == par,
                self.depth@ == dep,
                self.sizes() == old(self).sizes(),
                sizes_exact(par, dep, self.sizes()),
                n == par.len(),
                adj == old(self).adj(),
                par == old(self).parents(),
                dep == old(self).depth@,
                scan_ctx(adj, par, dep, u, root_v),
                a < n,
                b < n,
                root(par, dep, a) == u || root(par, dep, a) == root_v,
                root(par, dep, b) == u || root(par, dep, b) == root_v,
                i <= self.vec_scratch_nodes@.len(),
                visit_list(self.vec_scratch_nodes@, par, dep, u),
                marks_match(self.generations@, self.vec_scratch_nodes@, cur_generation, n),
                parents_visited(self.vec_scratch_nodes@, par, i as int),
                children_listed(self.vec_scratch_nodes@, par, i as int),
                edges_inside(self.vec_scratch_nodes@, adj, par, dep, u, i as int),
                goal == replacement_edge(adj, par, dep, u),
                repl_run(adj, par, dep, u, self.vec_scratch_nodes@, i as int, (n - i) as nat) == goal,
            decreases n - i,
        {
            proof {
                lemma_list_len(self.vec_scratch_nodes@, par, dep, u);
                lemma_begin_node(self.vec_scratch_nodes@, adj, par, dep, u, i as int);
            }
            let node = self.vec_scratch_nodes[i];
            let ghost i0 = i;
            let ghost l0 = self.vec_scratch_nodes@;
            proof {
                assert(i < l0.len() && l0.len() <= n);
            }
            i += 1;
            match self.scan_node(node, Ghost(i0 as int), u, root_v, cur_generation) {
                Some(neighbor) => {
                    proof {
                        reveal(scan_ctx);
                        lemma_root(par, dep, root_v);
                    }
                    proof {
                        assert(goal == Some((node, neighbor)));
                    }
                    self.join_trees(node, neighbor, root_v, Ghost(a), Ghost(b));
                    return true;
                },
                None => {},
            }
        }
        proof {
            assert(goal is None);
            reveal(scan_ctx);
            lemma_search_done(self.vec_scratch_nodes@, adj, par, dep, u, root_v);
        }
        false
    }
}

impl IDTree {
    /// Removes the edge `(u, v)`, just deleted from the graph, from the
    /// forest. A non-forest edge needs nothing more; for a forest edge the
    /// tree is split and the smaller part searched for a replacement edge.
    ///
    /// Returns 0 for a non-forest edge, 1 when a replacement was found and
    /// 2 when the tree stays split.
    fn delete_edge_balanced(&mut self, u: usize, v: usize) -> (r: i32)
        requires
            sizes_exact(old(self).parents(), old(self).depth@, old(self).sizes()),
            old(self).core_wf(),
            graph_wf(old(self).adj()),
            forest_wf(old(self).parents(), old(self).depth@),
            edges_within_trees(old(self).adj(), old(self).parents(), old(self).depth@),
            u < old(self).nodes@.len(),
            v < old(self).nodes@.len(),
            u != v,
            !has_edge(old(self).adj(), u as int, v as int),
            root(old(self).parents(), old(self).depth@, u) == root(old(self).parents(), old(self).depth@, v),
            forall|w: int|
                0 <= w < old(self).nodes@.len() && #[trigger] old(self).parents()[w] != SENTINEL ==> has_edge(
                    old(self).adj(),
                    w,
                    old(self).parents()[w] as int,
                ) || (w == u && old(self).parents()[w] == v) || (w == v && old(self).parents()[w] == u),
        ensures
            final(self).wf(),
            final(self).adj() == old(self).adj(),
            r == 0 <==> (old(self).parents()[u as int] != v && old(self).parents()[v as int] != u),
            r == 0 ==> *final(self) == *old(self),
            r == 1 ==> root(final(self).parents(), final(self).depth@, u) == root(
                final(self).parents(),
                final(self).depth@,
                v,
            ),
            r == 2 ==> root(final(self).parents(), final(self).depth@, u) != root(
                final(self).parents(),
                final(self).depth@,
                v,
            ),
            r == 2 ==> final(self).parents() == old(self).parents().update(
                (if old(self).parents()[v as int] == u { v } else { u }) as int,
                SENTINEL,
            ),
            r == 1 ==> replaced(old(self).adj(), old(self).parents(), old(self).depth@, old(self).sizes(), u, v, final(self).parents()),
            r == 2 ==> unreplaced(old(self).adj(), old(self).parents(), old(self).depth@, old(self).sizes(), u, v),
            r == 0 || r == 1 || r == 2,
    {
        let mut u = u;
        let mut v = v;
        if (self.nodes[u].parent != v && self.nodes[v].parent != u) || u == v {
            return 0;
        }
        if self.nodes[v].parent == u {
            let t = u;
            u = v;
            v = t;
        }
        let ghost adj = self.adj();
        let ghost par0 = self.parents();
        let ghost dep0 = self.depth@;
        let ghost s0 = self.sizes();
        proof {
            lemma_root(par0, dep0, u);
            lemma_root(par0, dep0, v);
            lemma_root_parent(par0, dep0, u);
        }
        let (p, subtree_u_size) = self.unlink(u, v);
        proof {
            {
                lemma_cut_sizes(par0, dep0, s0, u);
            }
        }
        let ghost par1 = self.parents();
        let ghost dep1 = self.depth@;
        proof {
            lemma_desc_refl(par0, dep0, u);
            assert(!is_desc(par0, dep0, v, u)) by {
                if is_desc(par0, dep0, v, u) {
                    assert(dep0[u as int] == dep0[v as int] + 1);
                }
            }
            assert(root(par1, dep1, u) == u);
            assert(root(par1, dep1, v) == p);
            lemma_root(par1, dep1, v);
            lemma_root(par1, dep1, u);
            assert(tree_edges_in_graph(adj, par1));
            assert forall|x: int, y: int| #[trigger] has_edge(adj, x, y) implies {
                let rx = root(par1, dep1, x as usize);
                let ry = root(par1, dep1, y as usize);
                ||| rx == ry
                ||| (rx == u && ry == p)
                ||| (rx == p && ry == u)
            } by {
                lemma_root(par0, dep0, x as usize);
                lemma_root(par0, dep0, y as usize);
                if is_desc(par0, dep0, x as usize, u) {
                    lemma_desc_root(par0, dep0, x as usize, u);
                }
                if is_desc(par0, dep0, y as usize, u) {
                    lemma_desc_root(par0, dep0, y as usize, u);
                }
            }
            assert(spans_except(adj, par1, dep1, u, p));
        }
        let (small_node, large_node): (usize, usize) = if self.nodes[p].subtree_size < subtree_u_size {
            (p, u)
        } else {
            (u, p)
        };
        if self.find_replacement(small_node, large_node, Ghost(u), Ghost(v)) {
            return 1;
        }
        2
    }
}

/// The depths of `u` and `v` differ by two or more, and the shallower one
/// lies above `MAX_DEPTH`.
pub open spec fn depth_apart(dep: Seq<nat>, u: usize, v: usize) -> bool {
    &&& (if dep[u as int] <= dep[v as int] { dep[u as int] } else { dep[v as int] }) < MAX_DEPTH
    &&& (dep[u as int] >= dep[v as int] + 2 || dep[v as int] >= dep[u as int] + 2)
}

/// Inserting an edge between two nodes of one tree reshapes the forest
/// exactly when their depths are apart: otherwise nothing changes.
proof fn lemma_insert_depths(
    adj0: Seq<Seq<u32>>,
    par0: Seq<usize>,
    dep0: Seq<nat>,
    s0: Seq<i32>,
    u: usize,
    v: usize,
    r: i32,
    par: Seq<usize>,
    dep: Seq<nat>,
    s: Seq<i32>,
)
    requires
        spans(adj0, par0, dep0),
        u < par0.len(),
        v < par0.len(),
        connected(adj0, u as int, v as int),
        imbalance_walk(par0, dep0, u, v).0 ==> par != par0,
        inserted(par0, dep0, s0, u, v, r, par, dep, s),
    ensures
        depth_apart(dep0, u, v) ==> par != par0,
        !depth_apart(dep0, u, v) ==> r == 0 && par == par0 && s == s0,
{
    reveal(inserted);
    lemma_spans_connected(adj0, par0, dep0, u, v);
    assert(root(par0, dep0, u) == root(par0, dep0, v));
    assert(imbalance_walk(par0, dep0, u, v).0 == depth_apart(dep0, u, v));
}

/// Inserting an edge between two nodes of one tree does not depend on the
/// order of its ends: `insert_edge(u, v)` and `insert_edge(v, u)` on the
/// same forest give the same result, the same forest and the same sizes.
pub proof fn law_insert_non_tree_symmetric(
    par0: Seq<usize>,
    dep0: Seq<nat>,
    s0: Seq<i32>,
    u: usize,
    v: usize,
    r1: i32,
    par1: Seq<usize>,
    dep1: Seq<nat>,
    s1: Seq<i32>,
    r2: i32,
    par2: Seq<usize>,
    dep2: Seq<nat>,
    s2: Seq<i32>,
)
    requires
        forest_wf(par0, dep0),
        u < par0.len(),
        v < par0.len(),
        root(par0, dep0, u) == root(par0, dep0, v),
        r1 == 0 || r1 == 2,
        r2 == 0 || r2 == 2,
        forest_wf(par1, dep1),
        forest_wf(par2, dep2),
        inserted(par0, dep0, s0, u, v, r1, par1, dep1, s1),
        inserted(par0, dep0, s0, v, u, r2, par2, dep2, s2),
    ensures
        r1 == r2,
        par1 == par2,
        s1 == s2,
{
    reveal(inserted);
    let f = root(par0, dep0, u);
    assert(imbalance_walk(par0, dep0, u, v).0 == imbalance_walk(par0, dep0, v, u).0);
    if imbalance_walk(par0, dep0, u, v).0 {
        assert(imbalance_walk(par0, dep0, u, v) == imbalance_walk(par0, dep0, v, u));
        assert(reshape_plan(par0, dep0, s0, u, v, f) == reshape_plan(par0, dep0, s0, v, u, f)) by {
            reveal(reshape_plan);
        }
        let plan = reshape_plan(par0, dep0, s0, u, v, f);
        let dep_r = rebuilt(plan.0);
        reveal(reshaped);
        if r1 == 2 && r2 == 2 {
            let x1 = choose|x: usize| {
                &&& #[trigger] first_over(plan.0, dep_r, plan.1, plan.2, plan.3, x)
                &&& x != f
                &&& par1 == rotated(plan.0, dep_r, x, SENTINEL)
                &&& s1 == path_sizes(par1, dep1, plan.1, root(plan.0, dep_r, x), 0)
            };
            let x2 = choose|x: usize| {
                &&& #[trigger] first_over(plan.0, dep_r, plan.1, plan.2, plan.3, x)
                &&& x != f
                &&& par2 == rotated(plan.0, dep_r, x, SENTINEL)
                &&& s2 == path_sizes(par2, dep2, plan.1, root(plan.0, dep_r, x), 0)
            };
            lemma_first_over_unique(plan.0, dep_r, plan.1, plan.2, plan.3, x1, x2);
            crate::setup::lemma_depths_unique(par1, dep1, dep2);
        } else if r1 == 2 {
            let x1 = choose|x: usize| {
                &&& #[trigger] first_over(plan.0, dep_r, plan.1, plan.2, plan.3, x)
                &&& x != f
                &&& par1 == rotated(plan.0, dep_r, x, SENTINEL)
                &&& s1 == path_sizes(par1, dep1, plan.1, root(plan.0, dep_r, x), 0)
            };
            assert(x1 == f);
        } else if r2 == 2 {
            let x2 = choose|x: usize| {
                &&& #[trigger] first_over(plan.0, dep_r, plan.1, plan.2, plan.3, x)
                &&& x != f
                &&& par2 == rotated(plan.0, dep_r, x, SENTINEL)
                &&& s2 == path_sizes(par2, dep2, plan.1, root(plan.0, dep_r, x), 0)
            };
            assert(x2 == f);
        }
    }
}

impl IDTree {
    /// Inserts the undirected edge `(u, v)`.
    ///
    /// Returns -1 when the edge is invalid (an end out of range, a loop, or
    /// an edge already present), 0 for a non-tree edge, 1 for a tree edge,
    /// 2 for a non-tree edge that triggered a reroot and 3 for a tree edge
    /// that triggered a reroot.
    pub fn insert_edge(&mut self, u: usize, v: usize) -> (r: i32)
        requires
            old(self).wf(),
        ensures
            final(self).wf(),
            final(self).num_nodes() == old(self).num_nodes(),
            r == -1 <==> (u >= old(self).num_nodes() || v >= old(self).num_nodes() || u == v || old(
                self,
            ).edge(u as int, v as int)),
            r == -1 ==> final(self).adj() == old(self).adj() && final(self).parents() == old(
                self,
            ).parents() && final(self).sizes() == old(self).sizes(),
            r != -1 ==> final(self).adj() == with_edge(old(self).adj(), u as int, v as int),
            loop_free(old(self).adj()) ==> loop_free(final(self).adj()),
            (r == 0 || r == 2) <==> (r != -1 && old(self).is_connected(u as int, v as int)),
            (r == 1 || r == 3) <==> (r != -1 && !old(self).is_connected(u as int, v as int)),
            -1 <= r <= 3,
            r != -1 ==> inserted(
                old(self).parents(),
                old(self).depths(),
                old(self).sizes(),
                u,
                v,
                r,
                final(self).parents(),
                final(self).depths(),
                final(self).sizes(),
            ),
            r == 0 ==> forall|w: usize| w < old(self).num_nodes() ==> #[trigger] final(self).root_of(w) == old(self).root_of(w),
            r == 1 ==> final(self).root_of(u) == if old(self).sizes()[old(self).root_of(u) as int] > old(self).sizes()[old(
                self,
            ).root_of(v) as int] {
                old(self).root_of(u)
            } else {
                old(self).root_of(v)
            },
            r == 2 ==> final(self).root_of(u) != old(self).root_of(u),
            r == 3 ==> final(self).root_of(u) != old(self).root_of(u) && final(self).root_of(u) != old(self).root_of(v),
            r != -1 ==> final(self).root_of(u) == final(self).root_of(v),
            r != -1 ==> forall|w: usize|
                w < old(self).num_nodes() ==> #[trigger] final(self).root_of(w) == if old(self).root_of(w) == old(
                    self,
                ).root_of(u) || old(self).root_of(w) == old(self).root_of(v) {
                    final(self).root_of(u)
                } else {
                    old(self).root_of(w)
                },
            r != -1 && old(self).is_connected(u as int, v as int) && depth_apart(old(self).depths(), u, v)
                ==> final(self).parents() != old(self).parents(),
            r != -1 && old(self).is_connected(u as int, v as int) && !depth_apart(old(self).depths(), u, v) ==> r == 0
                && final(self).parents() == old(self).parents() && final(self).sizes() == old(self).sizes(),
    {
        if u >= self.n || v >= self.n || u == v {
            return -1;
        }
        let ghost adj0 = self.adj();
        let ghost par0 = self.parents();
        let ghost dep0 = self.depth@;
        if !self.insert_edge_in_graph(u, v) {
            return -1;
        }
        proof {
            lemma_with_edge(adj0, u as int, v as int);
            lemma_spans_connected(adj0, par0, dep0, u, v);
            let adj1 = self.adj();
            assert(spans_except(adj1, par0, dep0, root(par0, dep0, u), root(par0, dep0, v)));
        }
        let ghost s0 = self.sizes();
        let r = self.insert_edge_balanced(u, v);
        proof {
            if connected(adj0, u as int, v as int) {
                self.lemma_wf_facts();
                lemma_spans_connected(adj0, par0, dep0, u, v);
                lemma_insert_depths(adj0, par0, dep0, s0, u, v, r, self.parents(), self.depth@, self.sizes());
            }
        }
        r
    }

    /// Deletes the undirected edge `(u, v)`.
    ///
    /// Returns -1 when the edge is invalid (an end out of range, a loop, or
    /// an edge not present), 0 when it was a non-tree edge, 1 when it was a
    /// tree edge and a replacement edge keeps its ends connected, and 2 when
    /// it was a tree edge and its ends are now disconnected.
    ///
    /// On a tree edge the child end is cut off; the first edge that a
    /// breadth-first walk over the smaller part meets, leaving it, joins the
    /// parts again, and the joined tree is rerooted at its centroid when that
    /// moved (`replaced`). With no such edge the forest stays cut.
    pub fn delete_edge(&mut self, u: usize, v: usize) -> (r: i32)
        requires
            old(self).wf(),
        ensures
            final(self).wf(),
            final(self).num_nodes() == old(self).num_nodes(),
            r == -1 <==> (u >= old(self).num_nodes() || v >= old(self).num_nodes() || u == v || !old(
                self,
            ).edge(u as int, v as int)),
            r == -1 ==> final(self).adj() == old(self).adj() && final(self).parents() == old(
                self,
            ).parents() && final(self).sizes() == old(self).sizes(),
            r != -1 ==> final(self).adj() == without_edge(old(self).adj(), u as int, v as int),
            loop_free(old(self).adj()) ==> loop_free(final(self).adj()),
            r == 0 ==> final(self).parents() == old(self).parents() && final(self).sizes() == old(
                self,
            ).sizes() && final(self).is_connected(u as int, v as int),
            r == 0 || r == 1 ==> forall|a: int, b: int|
                #[trigger] final(self).is_connected(a, b) <==> old(self).is_connected(a, b),
            r == 0 <==> (r != -1 && old(self).parents()[u as int] != v && old(self).parents()[v as int]
                != u),
            r == 1 <==> (r != -1 && (old(self).parents()[u as int] == v || old(self).parents()[v as int]
                == u) && final(self).is_connected(u as int, v as int)),
            r == 2 <==> (r != -1 && (old(self).parents()[u as int] == v || old(self).parents()[v as int]
                == u) && !final(self).is_connected(u as int, v as int)),
            r == 2 ==> final(self).parents() == old(self).parents().update(
                (if old(self).parents()[v as int] == u { v } else { u }) as int,
                SENTINEL,
            ),
            r == 1 ==> replaced(final(self).adj(), old(self).parents(), old(self).depths(), old(self).sizes(), u, v, final(self).parents()),
            r == 2 ==> unreplaced(final(self).adj(), old(self).parents(), old(self).depths(), old(self).sizes(), u, v),
            -1 <= r <= 2,
    {
        if u >= self.n || v >= self.n || u == v {
            return -1;
        }
        let ghost adj0 = self.adj();
        let ghost par0 = self.parents();
        let ghost dep0 = self.depth@;
        proof {
            lemma_spans_connected(adj0, par0, dep0, u, v);
        }
        if !self.delete_edge_in_graph(u, v) {
            return -1;
        }
        proof {
            lemma_without_edge(adj0, u as int, v as int);
            assert(root(par0, dep0, u) == root(par0, dep0, v));
        }
        let r = self.delete_edge_balanced(u, v);
        proof {
            lemma_spans_connected(self.adj(), self.parents(), self.depth@, u, v);
            if r == 0 || r == 1 {
                assert forall|a: int, b: int| #[trigger] self.is_connected(a, b) <==> old(self).is_connected(a, b) by {
                    lemma_without_edge_connectivity(adj0, u as int, v as int, a, b);
                }
            }
        }
        r
    }
}

impl IDTree {
    /// Walks breadth first from the unmarked node `root` over its
    /// component, marking every node reached and hanging it under the node
    /// it was reached from, then adds up subtree sizes from the leaves
    /// towards `root`. The nodes reached are left in `vec_scratch_nodes`.
    fn bfs_setup_subtrees(&mut self, root: usize)
        requires
            old(self).core_wf(),
            graph_wf(old(self).adj()),
            forest_wf(old(self).parents(), old(self).depth@),
            tree_edges_in_graph(old(self).adj(), old(self).parents()),
            root < old(self).nodes@.len(),
            old(self).generations@[root as int] != old(self).generation,
            unmarked_alone(old(self).parents(), old(self).generations@, old(self).generation),
            marked_closed(
                old(self).adj(),
                old(self).parents(),
                old(self).depth@,
                old(self).generations@,
                old(self).generation,
            ),
            sizes_exact(old(self).parents(), old(self).depth@, old(self).sizes()),
            centroid_rooted(old(self).parents(), old(self).sizes()),
        ensures
            sizes_exact(final(self).parents(), final(self).depth@, final(self).sizes()),
            centroid_except(final(self).parents(), final(self).sizes(), root),
            final(self).vec_scratch_nodes@[0] == root,
            final(self).vec_scratch_nodes@ == comp_walk(old(self).adj(), root).0,
            forall|x: int|
                0 <= x < final(self).nodes@.len() ==> (#[trigger] final(self).generations@[x] == final(self).generation <==> (
                old(self).generations@[x] == old(self).generation || final(self).vec_scratch_nodes@.contains(x as usize))),
            final(self).parents() == walk_parents(old(self).parents(), comp_walk(old(self).adj(), root).0, comp_walk(old(self).adj(), root).1),
            final(self).sizes()[root as int] == final(self).vec_scratch_nodes@.len(),
            forall|q: int|
                0 <= q < final(self).vec_scratch_nodes@.len() ==> crate::forest::root(final(self).parents(), final(self).depth@, #[trigger] final(self).vec_scratch_nodes@[q])
                    == root,
            forall|jj: int, x: usize|
                0 <= jj < final(self).vec_scratch_nodes@.len() && x < final(self).nodes@.len()
                    && #[trigger] final(self).parents()[x as int] == #[trigger] final(self).vec_scratch_nodes@[jj]
                    ==> final(self).vec_scratch_nodes@.contains(x) && crate::sizes::list_pos(final(self).vec_scratch_nodes@, x) > jj,
            final(self).core_wf(),
            final(self).n == old(self).n,
            final(self).nodes@.len() == old(self).nodes@.len(),
            final(self).generation == old(self).generation,
            final(self).adj() == old(self).adj(),
            forest_wf(final(self).parents(), final(self).depth@),
            tree_edges_in_graph(final(self).adj(), final(self).parents()),
            unmarked_alone(final(self).parents(), final(self).generations@, final(self).generation),
            marked_closed(
                final(self).adj(),
                final(self).parents(),
                final(self).depth@,
                final(self).generations@,
                final(self).generation,
            ),
            final(self).generations@[root as int] == final(self).generation,
            forall|x: int|
                0 <= x < final(self).nodes@.len() && old(self).generations@[x] == old(self).generation
                    ==> #[trigger] final(self).generations@[x] == final(self).generation,
            1 <= final(self).vec_scratch_nodes@.len() <= final(self).nodes@.len(),
            forall|k: int|
                0 <= k < final(self).vec_scratch_nodes@.len() ==> #[trigger] final(self).vec_scratch_nodes@[k]
                    < final(self).nodes@.len() && final(self).generations@[final(self).vec_scratch_nodes@[k] as int]
                    == final(self).generation,
    {
        let ghost adj = self.adj();
        let ghost par0 = self.parents();
        let ghost dep0 = self.depth@;
        let ghost gens0 = self.generations@;
        let ghost n = par0.len();
        let ghost s0 = self.sizes();
        self.deque_scratch.clear();
        self.deque_scratch.push_back(root);
        self.vec_scratch_nodes.clear();
        self.vec_scratch_nodes.push(root);
        let cur_generation = self.generation;
        proof {
            lemma_walk_start(adj, par0, dep0, gens0, cur_generation, root);
            assert(gens0[root as int] != cur_generation);
            assert(par0[root as int] == SENTINEL) by {
                reveal(unmarked_alone);
            }
        }
        self.generations.set(root, cur_generation);
        proof {
            assert(self.vec_scratch_nodes@ =~= seq![root]);
            assert(self.deque_scratch@ =~= self.vec_scratch_nodes@.subrange(0, 1));
        }
        let ghost mut h: int = 0;
        let ghost mut pm: Map<usize, usize> = Map::empty().insert(root, SENTINEL);
        let ghost goal = comp_walk(adj, root);
        proof {
            assert(adj.len() == n);
            assert forall|x: usize| #[trigger] pm.contains_key(x) <==> self.vec_scratch_nodes@.contains(x) by {
                if x == root {
                    assert(self.vec_scratch_nodes@[0] == root);
                }
            }
        }
        let mut next = self.deque_scratch.pop_front();
        while next.is_some()
            invariant
                self.core_wf(),
                self.generation == cur_generation,
                self.adj() == adj,
                n == self.nodes@.len(),
                graph_wf(adj),
                forest_wf(self.parents(), self.depth@),
                tree_edges_in_graph(adj, self.parents()),
                gens0.len() == n,
                marked_closed(adj, par0, dep0, gens0, cur_generation),
                forall|x: int| 0 <= x < n ==> #[trigger] gens0[x] <= cur_generation,
                unmarked_alone(self.parents(), self.generations@, cur_generation),
                walk_list(self.vec_scratch_nodes@, self.parents(), self.depth@, self.generations@, gens0, cur_generation, root),
                walk_marks(self.generations@, gens0, self.vec_scratch_nodes@, cur_generation),
                walk_done(self.vec_scratch_nodes@, adj, self.generations@, cur_generation, h),
                old_roots(self.parents(), self.depth@, par0, dep0, gens0, cur_generation),
                self.sizes() == s0,
                forall|c: usize| c < n && !self.vec_scratch_nodes@.contains(c) ==> #[trigger] self.parents()[c as int] == par0[c as int],
                parents_earlier(self.vec_scratch_nodes@, self.parents()),
                self.parents()[root as int] == SENTINEL,
                unmarked_alone(par0, gens0, cur_generation),
                0 <= h < self.vec_scratch_nodes@.len() || (h == self.vec_scratch_nodes@.len() && next is None),
                next matches Some(p) ==> p == self.vec_scratch_nodes@[h] && self.deque_scratch@ == self.vec_scratch_nodes@.subrange(h + 1, self.vec_scratch_nodes@.len() as int),
                next is None ==> h == self.vec_scratch_nodes@.len(),
                adj.len() == n,
                goal == comp_walk(adj, root),
                bfs_run(adj, SENTINEL, self.vec_scratch_nodes@, pm, h, (n - h) as nat) == goal,
                forall|x: usize| #[trigger] pm.contains_key(x) <==> self.vec_scratch_nodes@.contains(x),
                forall|x: usize| self.vec_scratch_nodes@.contains(x) ==> #[trigger] self.parents()[x as int] == pm[x],
            decreases n - h,
        {
            proof {
                lemma_walk_len(self.vec_scratch_nodes@, self.parents(), self.depth@, self.generations@, gens0, cur_generation, root);
            }
            let p = next.unwrap();
            let deg = self.nodes[p].neighbors.len();
            let mut j: usize = 0;
            let ghost l_h = self.vec_scratch_nodes@;
            let ghost pm_h = pm;
            proof {
                assert(self.nodes@[p as int].nbrs() == adj[p as int]);
            }
            while j < deg
                invariant
                    self.core_wf(),
                    self.generation == cur_generation,
                    self.adj() == adj,
                    n == self.nodes@.len(),
                    graph_wf(adj),
                    forest_wf(self.parents(), self.depth@),
                    tree_edges_in_graph(adj, self.parents()),
                    gens0.len() == n,
                    forall|x: int| 0 <= x < n ==> #[trigger] gens0[x] <= cur_generation,
                    unmarked_alone(self.parents(), self.generations@, cur_generation),
                    walk_list(self.vec_scratch_nodes@, self.parents(), self.depth@, self.generations@, gens0, cur_generation, root),
                    walk_marks(self.generations@, gens0, self.vec_scratch_nodes@, cur_generation),
                    walk_done(self.vec_scratch_nodes@, adj, self.generations@, cur_generation, h),
                    old_roots(self.parents(), self.depth@, par0, dep0, gens0, cur_generation),
                    self.sizes() == s0,
                    forall|c: usize| c < n && !self.vec_scratch_nodes@.contains(c) ==> #[trigger] self.parents()[c as int] == par0[c as int],
                    parents_earlier(self.vec_scratch_nodes@, self.parents()),
                    self.parents()[root as int] == SENTINEL,
                    unmarked_alone(par0, gens0, cur_generation),
                    0 <= h < self.vec_scratch_nodes@.len(),
                    p == self.vec_scratch_nodes@[h],
                    p < n,
                    self.deque_scratch@ == self.vec_scratch_nodes@.subrange(h + 1, self.vec_scratch_nodes@.len() as int),
                    deg == adj[p as int].len(),
                    j <= deg,
                    forall|q: int| 0 <= q < j ==> #[trigger] self.generations@[adj[p as int][q] as int] == cur_generation,
                    marked_closed(adj, par0, dep0, gens0, cur_generation),
                    adj.len() == n,
                    bfs_scan(adj, p, j as int, self.vec_scratch_nodes@, pm) == bfs_scan(adj, p, 0, l_h, pm_h),
                    forall|x: usize| #[trigger] pm.contains_key(x) <==> self.vec_scratch_nodes@.contains(x),
                    forall|x: usize| self.vec_scratch_nodes@.contains(x) ==> #[trigger] self.parents()[x as int] == pm[x],
                decreases deg - j,
            {
                proof {
                    assert(self.nodes@[p as int].nbrs() == adj[p as int]);
                }
                let neighbor = self.nodes[p].neighbors.get(j) as usize;
                proof {
                    assert((adj[p as int][j as int] as int) < n);
                    assert(neighbor == adj[p as int][j as int] as usize);
                    reveal(walk_marks);
                    reveal(walk_list);
                    reveal(marked_closed);
                    let l = self.vec_scratch_nodes@;
                    assert(l[h] == p);
                    assert(gens0[p as int] != cur_generation);
                    assert(adj[p as int].contains(neighbor as u32));
                    assert(has_edge(adj, p as int, neighbor as int));
                    assert(has_edge(adj, neighbor as int, p as int));
                    assert(gens0[neighbor as int] != cur_generation);
                    assert(self.generations@[neighbor as int] == cur_generation <==> l.contains(neighbor));
                }
                if self.generations[neighbor] != cur_generation {
                    proof {
                        assert(adj[p as int].contains(neighbor as u32));
                        assert(has_edge(adj, p as int, neighbor as int));
                        assert(self.vec_scratch_nodes@.contains(p));
                        lemma_walk_visit(
                            adj,
                            self.parents(),
                            self.depth@,
                            self.generations@,
                            gens0,
                            par0,
                            dep0,
                            cur_generation,
                            root,
                            self.vec_scratch_nodes@,
                            h,
                            p,
                            neighbor,
                        );
                    }
                    let ghost l0 = self.vec_scratch_nodes@;
                    let ghost pr0 = self.parents();
                    proof {
                        reveal(walk_marks);
                        assert(!l0.contains(neighbor));
                        reveal(walk_list);
                        crate::sizes::lemma_list_pos(l0, h);
                    }
                    self.generations.set(neighbor, cur_generation);
                    self.set_parent(neighbor, p);
                    self.depth = Ghost(self.depth@.update(neighbor as int, self.depth@[p as int] + 1));
                    self.vec_scratch_nodes.push(neighbor);
                    self.deque_scratch.push_back(neighbor);
                    proof {
                        assert(self.vec_scratch_nodes@.subrange(0, l0.len() as int) =~= l0);
                        assert(self.deque_scratch@ =~= self.vec_scratch_nodes@.subrange(h + 1, self.vec_scratch_nodes@.len() as int));
                        assert(self.vec_scratch_nodes@[h] == p);
                        let l1 = self.vec_scratch_nodes@;
                        assert(l1 == l0.push(neighbor));
                        assert forall|c: usize| c < n && !l1.contains(c) implies #[trigger] self.parents()[c as int] == par0[c as int] by {
                            if c != neighbor {
                                assert(!l0.contains(c)) by {
                                    if l0.contains(c) {
                                        let q = choose|q: int| 0 <= q < l0.len() && l0[q] == c;
                                        assert(l1[q] == c);
                                    }
                                }
                            } else {
                                assert(l1[l0.len() as int] == c);
                            }
                        }
                        assert(l1.no_duplicates()) by {
                            reveal(walk_list);
                        }
                        assert forall|jj: int| 0 < jj < l1.len() implies l1.contains(self.parents()[#[trigger] l1[jj] as int]) && crate::sizes::list_pos(l1, self.parents()[l1[jj] as int]) < jj by {
                            if jj < l0.len() {
                                assert(l1[jj] == l0[jj]);
                                assert(l1[jj] != neighbor);
                                let pp = pr0[l0[jj] as int];
                                assert(l0.contains(pp) && crate::sizes::list_pos(l0, pp) < jj);
                                let ip = crate::sizes::list_pos(l0, pp);
                                assert(l1[ip] == pp);
                                crate::sizes::lemma_list_pos(l1, ip);
                            } else {
                                assert(l1[jj] == neighbor);
                                assert(l1[h] == p);
                                crate::sizes::lemma_list_pos(l1, h);
                            }
                        }
                        assert(self.parents()[root as int] == SENTINEL) by {
                            reveal(walk_list);
                            assert(l0[0] == root);
                        }
                        let pm2 = pm.insert(neighbor, p);
                        assert(bfs_scan(adj, p, j as int, l0, pm) == bfs_scan(adj, p, j + 1, l1, pm2));
                        assert forall|x: usize| #[trigger] pm2.contains_key(x) <==> l1.contains(x) by {
                            if l1.contains(x) && x != neighbor {
                                let q = choose|q: int| 0 <= q < l1.len() && l1[q] == x;
                                assert(l0[q] == x);
                            }
                            if l0.contains(x) {
                                let q = choose|q: int| 0 <= q < l0.len() && l0[q] == x;
                                assert(l1[q] == x);
                            }
                            if x == neighbor {
                                assert(l1[l0.len() as int] == neighbor);
                            }
                        }
                        assert forall|x: usize| l1.contains(x) implies #[trigger] self.parents()[x as int] == pm2[x] by {
                            if x != neighbor {
                                let q = choose|q: int| 0 <= q < l1.len() && l1[q] == x;
                                assert(l0[q] == x);
                                assert(l0.contains(x));
                                assert(pr0[x as int] == pm[x]);
                            }
                        }
                        pm = pm2;
                    }
                } else {
                    proof {
                        assert(self.vec_scratch_nodes@.contains(neighbor));
                        assert(bfs_scan(adj, p, j as int, self.vec_scratch_nodes@, pm) == bfs_scan(adj, p, j + 1, self.vec_scratch_nodes@, pm));
                    }
                }
                j += 1;
            }
            proof {
                assert forall|k: int, y: int| 0 <= k < h + 1 && #[trigger] has_edge(adj, self.vec_scratch_nodes@[k] as int, y) implies self.generations@[y] == cur_generation by {
                    reveal(walk_done);
                    if k == h {
                        let q = choose|q: int| 0 <= q < adj[p as int].len() && #[trigger] adj[p as int][q] == y as u32;
                        assert(adj[p as int][q] as int == y);
                    }
                }
                assert(walk_done(self.vec_scratch_nodes@, adj, self.generations@, cur_generation, h + 1)) by {
                    reveal(walk_done);
                }
            }
            proof {
                let l = self.vec_scratch_nodes@;
                assert(bfs_scan(adj, p, deg as int, l, pm) == (l, pm));
                assert(l_h[h] == p);
                assert(h < l_h.len());
                assert(bfs_run(adj, SENTINEL, l_h, pm_h, h, (n - h) as nat) == bfs_run(adj, SENTINEL, l, pm, h + 1, (n - h - 1) as nat));
            }
            next = self.deque_scratch.pop_front();
            proof {
                h = h + 1;
            }
        }
        proof {
            let l = self.vec_scratch_nodes@;
            assert(bfs_run(adj, SENTINEL, l, pm, h, (n - h) as nat) == (l, pm));
            assert(self.parents() =~= walk_parents(par0, goal.0, goal.1)) by {
                assert forall|x: int| 0 <= x < n implies #[trigger] self.parents()[x] == walk_parents(par0, goal.0, goal.1)[x] by {
                    if !l.contains(x as usize) {
                        assert(self.parents()[(x as usize) as int] == par0[(x as usize) as int]);
                    }
                }
            }
        }
        proof {
            lemma_walk_end(adj, self.parents(), self.depth@, self.generations@, gens0, par0, dep0, cur_generation, root, self.vec_scratch_nodes@);
            lemma_walk_len(self.vec_scratch_nodes@, self.parents(), self.depth@, self.generations@, gens0, cur_generation, root);
            reveal(walk_marks);
        }
        let len = self.vec_scratch_nodes.len();
        let mut k = len;
        let ghost par_end = self.parents();
        let ghost dep_end = self.depth@;
        let ghost gens_end = self.generations@;
        let ghost list_end = self.vec_scratch_nodes@;
        proof {
            reveal(walk_list);
            lemma_exact_local(par0, dep0, s0);
            assert forall|jj: int| 0 <= jj < len implies #[trigger] par0[list_end[jj] as int] == SENTINEL && (forall|c: int|
                0 <= c < n ==> par0[c] != list_end[jj]) by {
                let w = list_end[jj];
                assert(gens0[w as int] != cur_generation);
                reveal(unmarked_alone);
            }
            assert forall|jj: int| 0 <= jj < len implies #[trigger] s0[list_end[jj] as int] == 1 by {
                let w = list_end[jj];
                assert(par0[list_end[jj] as int] == SENTINEL);
                let ct = crate::sizes::child_term(par0, s0, w);
                assert forall|c: int| 0 <= c < n implies #[trigger] ct(c) == 0 by {
                    assert(par0[c] != list_end[jj]);
                }
                crate::sizes::lemma_sum_zero(n as int, ct);
            }
            assert forall|jj: int| 0 <= jj < len implies #[trigger] self.sizes()[list_end[jj] as int] == 1 + crate::sizes::sum_upto(
                n as int,
                crate::sizes::later_children(par_end, dep_end, list_end, len as int, list_end[jj]),
            ) by {
                let lc = crate::sizes::later_children(par_end, dep_end, list_end, len as int, list_end[jj]);
                assert forall|c: int| 0 <= c < n implies #[trigger] lc(c) == 0 by {
                    if list_end.contains(c as usize) {
                        let ic = crate::sizes::list_pos(list_end, c as usize);
                        assert(0 <= ic < list_end.len() && list_end[ic] == c as usize);
                    }
                }
                crate::sizes::lemma_sum_zero(n as int, lc);
            }
            assert(crate::sizes::walk_ctx(par0, par_end, dep_end, list_end));
            assert(crate::sizes::walk_sizes(par_end, dep_end, list_end, self.sizes(), len as int));
        }
        while k > 1
            invariant
                self.core_wf(),
                self.generation == cur_generation,
                self.adj() == adj,
                self.parents() == par_end,
                self.depth@ == dep_end,
                self.generations@ == gens_end,
                self.vec_scratch_nodes@ == list_end,
                len == self.vec_scratch_nodes@.len(),
                1 <= k <= len,
                forest_wf(self.parents(), self.depth@),
                walk_list(self.vec_scratch_nodes@, self.parents(), self.depth@, self.generations@, gens0, cur_generation, root),
                self.vec_scratch_nodes@.len() <= self.nodes@.len(),
                self.vec_scratch_nodes@[0] == root,
                forall|q: int| 0 <= q < self.vec_scratch_nodes@.len() ==> #[trigger] self.vec_scratch_nodes@[q] < self.nodes@.len()
                    && crate::forest::root(self.parents(), self.depth@, self.vec_scratch_nodes@[q]) == root
                    && self.generations@[self.vec_scratch_nodes@[q] as int] == cur_generation,
                n == par_end.len(),
                crate::sizes::walk_ctx(par0, par_end, dep_end, list_end),
                forall|c: usize| c < n && !list_end.contains(c) ==> #[trigger] self.sizes()[c as int] == s0[c as int],
                crate::sizes::walk_sizes(par_end, dep_end, list_end, self.sizes(), k as int),
            decreases k,
        {
            let ghost kk = k as int;
            k -= 1;
            let q = self.vec_scratch_nodes[k];
            proof {
                reveal(walk_list);
                lemma_root(self.parents(), self.depth@, q);
                assert(q != root);
                assert(self.parents()[q as int] != SENTINEL);
            }
            let p = self.nodes[q].parent;
            let ghost sz = self.sizes();
            proof {
                crate::sizes::lemma_walk_step(par0, par_end, dep_end, list_end, sz, k as int);
            }
            let sq = self.nodes[q].subtree_size;
            self.add_size(p, sq);
            proof {
                assert(self.sizes() =~= sz.update(p as int, (sz[p as int] + sz[q as int]) as i32));
                crate::sizes::lemma_walk_after(par0, par_end, dep_end, list_end, sz, self.sizes(), k as int);
            }
        }
        proof {
            crate::sizes::lemma_walk_done(par0, dep0, s0, par_end, dep_end, list_end, self.sizes());
            crate::sizes::lemma_walk_centroid(par0, s0, par_end, dep_end, self.sizes(), list_end);
            crate::sizes::lemma_walk_closed(par0, par_end, dep_end, list_end);
            assert forall|q: int| 0 <= q < list_end.len() implies is_desc(par_end, dep_end, #[trigger] list_end[q], list_end[0]) by {
                lemma_root(par_end, dep_end, list_end[q]);
            }
            crate::sizes::lemma_walk_count(par0, par_end, dep_end, list_end);
            reveal(walk_marks);
        }
    }
}

impl IDTree {
    /// The last node of the walk list whose subtree holds more than half of
    /// the list.
    fn find_centroid_in_q(&self) -> (r: Option<usize>)
        requires
            self.core_wf(),
            self.vec_scratch_nodes@.len() <= self.nodes@.len(),
            forall|k: int| 0 <= k < self.vec_scratch_nodes@.len() ==> #[trigger] self.vec_scratch_nodes@[k] < self.nodes@.len(),
        ensures
            ({
                let q = self.vec_scratch_nodes@;
                let half = q.len() / 2;
                &&& r is None <==> forall|k: int| 0 <= k < q.len() ==> #[trigger] self.sizes()[q[k] as int] <= half
                &&& r matches Some(c) ==> exists|k: int| {
                    &&& 0 <= k < q.len()
                    &&& q[k] == c
                    &&& self.sizes()[c as int] > half
                    &&& forall|j: int| k < j < q.len() ==> #[trigger] self.sizes()[q[j] as int] <= half
                }
            }),
    {
        let num_nodes = self.vec_scratch_nodes.len();
        let half_num_nodes = (num_nodes / 2) as i32;
        let mut k = num_nodes;
        while k > 0
            invariant
                k <= num_nodes,
                num_nodes == self.vec_scratch_nodes@.len(),
                half_num_nodes == num_nodes / 2,
                self.core_wf(),
                self.vec_scratch_nodes@.len() <= self.nodes@.len(),
                forall|q: int| 0 <= q < self.vec_scratch_nodes@.len() ==> #[trigger] self.vec_scratch_nodes@[q] < self.nodes@.len(),
                forall|j: int| k <= j < num_nodes ==> #[trigger] self.sizes()[self.vec_scratch_nodes@[j] as int] <= half_num_nodes,
            decreases k,
        {
            k -= 1;
            let i = self.vec_scratch_nodes[k];
            if self.nodes[i].subtree_size > half_num_nodes {
                proof {
                    assert(self.vec_scratch_nodes@[k as int] == i);
                    assert(self.sizes()[i as int] == self.nodes@[i as int].subtree_size);
                }
                return Some(i);
            }
            proof {
                assert(self.sizes()[i as int] == self.nodes@[i as int].subtree_size);
            }
        }
        None
    }
}

impl IDTree {
    /// Reroots the tree just walked from `node` at the last node of the walk
    /// list whose subtree holds more than half of the list, which makes it
    /// a centroid.
    #[verifier::spinoff_prover]
    fn reroot_at_centroid(&mut self, node: usize)
        requires
            old(self).core_wf(),
            graph_wf(old(self).adj()),
            forest_wf(old(self).parents(), old(self).depth@),
            tree_edges_in_graph(old(self).adj(), old(self).parents()),
            unmarked_alone(old(self).parents(), old(self).generations@, old(self).generation),
            marked_closed(old(self).adj(), old(self).parents(), old(self).depth@, old(self).generations@, old(self).generation),
            sizes_exact(old(self).parents(), old(self).depth@, old(self).sizes()),
            centroid_except(old(self).parents(), old(self).sizes(), node),
            node < old(self).nodes@.len(),
            1 <= old(self).vec_scratch_nodes@.len() <= old(self).nodes@.len(),
            old(self).vec_scratch_nodes@[0] == node,
            old(self).sizes()[node as int] == old(self).vec_scratch_nodes@.len(),
            forall|k: int|
                0 <= k < old(self).vec_scratch_nodes@.len() ==> #[trigger] old(self).vec_scratch_nodes@[k] < old(self).nodes@.len()
                    && old(self).generations@[old(self).vec_scratch_nodes@[k] as int] == old(self).generation,
            forall|q: int|
                0 <= q < old(self).vec_scratch_nodes@.len() ==> root(old(self).parents(), old(self).depth@, #[trigger] old(self).vec_scratch_nodes@[q])
                    == node,
            forall|jj: int, x: usize|
                0 <= jj < old(self).vec_scratch_nodes@.len() && x < old(self).nodes@.len()
                    && #[trigger] old(self).parents()[x as int] == #[trigger] old(self).vec_scratch_nodes@[jj]
                    ==> old(self).vec_scratch_nodes@.contains(x) && crate::sizes::list_pos(old(self).vec_scratch_nodes@, x) > jj,
        ensures
            final(self).core_wf(),
            final(self).generation == old(self).generation,
            final(self).generations@ == old(self).generations@,
            final(self).adj() == old(self).adj(),
            forest_wf(final(self).parents(), final(self).depth@),
            tree_edges_in_graph(final(self).adj(), final(self).parents()),
            unmarked_alone(final(self).parents(), final(self).generations@, final(self).generation),
            marked_closed(final(self).adj(), final(self).parents(), final(self).depth@, final(self).generations@, final(self).generation),
            sizes_exact(final(self).parents(), final(self).depth@, final(self).sizes()),
            centroid_rooted(final(self).parents(), final(self).sizes()),
            final(self).parents() == rotated(
                old(self).parents(),
                old(self).depth@,
                old(self).vec_scratch_nodes@[last_heavy(
                    old(self).vec_scratch_nodes@,
                    old(self).parents(),
                    old(self).depth@,
                    (old(self).vec_scratch_nodes@.len() / 2) as int,
                    old(self).vec_scratch_nodes@.len() as int,
                )],
                SENTINEL,
            ),
    {
        let ghost adj = self.adj();
        let cur_generation = self.generation;
        proof {
            lemma_root(self.parents(), self.depth@, node);
        }
        let found = self.find_centroid_in_q();
        proof {
            if found is None {
                let q = self.vec_scratch_nodes@;
                assert(self.sizes()[q[0] as int] <= q.len() / 2);
            }
        }
        if let Some(centroid) = found {
            proof {
                reveal(marked_closed);
                assert(self.generations@[centroid as int] == cur_generation) by {
                    let k = choose|k: int| 0 <= k < self.vec_scratch_nodes@.len() && #[trigger] self.vec_scratch_nodes@[k] == centroid;
                }
                lemma_reroot_marks(adj, self.parents(), self.depth@, self.generations@, cur_generation, centroid);
                lemma_rotate_tree_edges(adj, self.parents(), self.depth@, centroid, SENTINEL);
            }
            let ghost pb = self.parents();
            let ghost db = self.depth@;
            let ghost sb = self.sizes();
            let ghost q = self.vec_scratch_nodes@;
            let ghost kc = choose|k: int| {
                &&& 0 <= k < q.len()
                &&& q[k] == centroid
                &&& sb[centroid as int] > q.len() / 2
                &&& forall|j: int| k < j < q.len() ==> #[trigger] sb[q[j] as int] <= q.len() / 2
            };
            self.reroot(centroid, node);
            proof {
                lemma_reroot_sizes(pb, db, sb, centroid);
                crate::sizes::lemma_reroot_centroid(pb, db, sb, q, kc);
                assert(desc_count(pb, db, q[kc]) > (q.len() / 2) as int);
                assert forall|j: int| kc < j < q.len() implies desc_count(pb, db, #[trigger] q[j]) <= (q.len() / 2) as int by {
                    assert(sb[q[j] as int] <= q.len() / 2);
                }
                lemma_last_heavy(q, pb, db, (q.len() / 2) as int, kc, q.len() as int);
            }
        }
    }

    /// Builds the spanning forest of a graph whose nodes are all roots:
    /// every component not yet reached is walked breadth first from its
    /// first node, and its tree is rerooted at a centroid.
    fn initialize(&mut self)
        requires
            old(self).core_wf(),
            graph_wf(old(self).adj()),
            forest_wf(old(self).parents(), old(self).depth@),
            forall|x: int| 0 <= x < old(self).nodes@.len() ==> #[trigger] old(self).parents()[x] == SENTINEL,
            forall|x: int| 0 <= x < old(self).nodes@.len() ==> #[trigger] old(self).sizes()[x] == 1,
        ensures
            final(self).wf(),
            sizes_exact(final(self).parents(), final(self).depth@, final(self).sizes()),
            centroid_rooted(final(self).parents(), final(self).sizes()),
            final(self).adj() == old(self).adj(),
            final(self).parents() == setup_forest(old(self).adj()),
    {
        let ghost adj = self.adj();
        proof {
            crate::sizes::lemma_fresh_exact(self.parents(), self.depth@, self.sizes());
        }
        let cur_generation = self.next_generation();
        proof {
            let par = self.parents();
            assert(unmarked_alone(par, self.generations@, cur_generation)) by {
                reveal(unmarked_alone);
            }
            assert(marked_closed(adj, par, self.depth@, self.generations@, cur_generation)) by {
                reveal(marked_closed);
            }
        }
        let len = self.nodes.len();
        let mut node: usize = 0;
        while node < len
            invariant
                self.core_wf(),
                self.generation == cur_generation,
                self.adj() == adj,
                len == self.nodes@.len(),
                graph_wf(adj),
                forest_wf(self.parents(), self.depth@),
                tree_edges_in_graph(adj, self.parents()),
                unmarked_alone(self.parents(), self.generations@, cur_generation),
                marked_closed(adj, self.parents(), self.depth@, self.generations@, cur_generation),
                node <= len,
                sizes_exact(self.parents(), self.depth@, self.sizes()),
                centroid_rooted(self.parents(), self.sizes()),
                forall|x: int| 0 <= x < node ==> #[trigger] self.generations@[x] == cur_generation || adj[x].len() == 0,
                adj.len() == len,
                self.parents() == setup_upto(adj, node as nat).0,
                forall|x: int| 0 <= x < len ==> (#[trigger] self.generations@[x] == cur_generation <==> setup_upto(adj, node as nat).1.contains(x as usize)),
            decreases len - node,
        {
            proof {
                assert(self.nodes@[node as int].nbrs() == adj[node as int]);
            }
            let ghost prev = setup_upto(adj, node as nat);
            proof {
                assert(setup_upto(adj, (node + 1) as nat) == if adj[node as int].len() > 0 && !prev.1.contains(node) {
                    (setup_component(adj, prev.0, node), prev.1 + comp_walk(adj, node).0.to_set())
                } else {
                    prev
                });
            }
            if !self.nodes[node].neighbors.is_empty() && self.generations[node] != cur_generation {
                let ghost gens_b = self.generations@;
                self.bfs_setup_subtrees(node);
                let ghost p1 = self.parents();
                let ghost d1 = self.depth@;
                let ghost w = comp_walk(adj, node);
                self.reroot_at_centroid(node);
                proof {
                    assert(w.0 == comp_walk(adj, node).0);
                    assert(p1 == walk_parents(prev.0, w.0, w.1));
                    assert(forest_wf(p1, d1));
                    assert(forest_wf(p1, depths_of(p1)));
                    lemma_depths_unique(p1, d1, depths_of(p1));
                    assert(self.parents() == setup_component(adj, prev.0, node));
                    let nxt = setup_upto(adj, (node + 1) as nat);
                    assert forall|x: int| 0 <= x < len implies (#[trigger] self.generations@[x] == cur_generation <==> nxt.1.contains(x as usize)) by {
                        assert(gens_b[x] == cur_generation <==> prev.1.contains(x as usize));
                        assert(w.0.to_set().contains(x as usize) <==> w.0.contains(x as usize));
                    }
                }
            }
            node += 1;
        }
        self.vec_scratch_nodes.clear();
        proof {
            lemma_all_marked(adj, self.parents(), self.depth@, self.generations@, cur_generation);
        }
    }
}

/// Every node is a root of size one.
pub open spec fn all_fresh(nodes: Seq<Node>) -> bool {
    forall|i: int| 0 <= i < nodes.len() ==> #[trigger] nodes[i].parent == SENTINEL && nodes[i].subtree_size == 1
}

/// `n` roots without neighbors.
fn fresh_nodes(n: usize) -> (r: Vec<Node>)
    ensures
        r@.len() == n,
        all_fresh(r@),
        adj_of(r@) == empty_adj(n as nat),
{
    let mut nodes: Vec<Node> = Vec::with_capacity(n);
    let mut i: usize = 0;
    while i < n
        invariant
            i <= n,
            nodes@.len() == i,
            all_fresh(nodes@),
            forall|k: int| 0 <= k < i ==> (#[trigger] nodes@[k]).nbrs() == Seq::<u32>::empty(),
        decreases n - i,
    {
        nodes.push(Node::new());
        i += 1;
    }
    assert(adj_of(nodes@) =~= empty_adj(n as nat));
    nodes
}

impl IDTree {
    /// Creates a tree of `n` isolated nodes.
    #[verifier::spinoff_prover]
    pub fn new(n: usize) -> (r: Self)
        requires
            0 < n <= i32::MAX,
        ensures
            r.wf(),
            r.num_nodes() == n,
            r.adj() == empty_adj(n as nat),
            loop_free(r.adj()),
            forall|x: int| 0 <= x < n ==> #[trigger] r.parents()[x] == SENTINEL,
            forall|x: int| 0 <= x < n ==> #[trigger] r.sizes()[x] == 1,
    {
        let nodes = fresh_nodes(n);
        let ghost ns = nodes@;
        let r = Self::_new(nodes);
        proof {
            let par = r.parents();
            let dep = r.depth@;
            assert forall|w: int| 0 <= w < par.len() implies #[trigger] par[w] == SENTINEL && r.sizes()[w] == 1 by {
                assert(ns[w].parent == SENTINEL && ns[w].subtree_size == 1);
                assert(r.nodes@[w].parent == SENTINEL);
            }
            assert forall|w: int| 0 <= w < n implies #[trigger] r.sizes()[w] == 1 by {
                assert(ns[w].parent == SENTINEL && ns[w].subtree_size == 1);
            }
            assert(forest_wf(par, dep));
            crate::sizes::lemma_fresh_exact(par, dep, r.sizes());
            assert forall|a: int, b: int| #[trigger] has_edge(r.adj(), a, b) implies false by {
                assert(r.adj()[a].len() == 0);
            }
            assert(graph_wf(r.adj())) by {
                assert forall|a: int| 0 <= a < r.adj().len() implies (#[trigger] r.adj()[a]).no_duplicates() by {
                }
            }
        }
        r
    }

    /// The nodes of the graph with the given edges on the nodes `0..n`.
    #[verifier::spinoff_prover]
    fn nodes_from_edges(n: usize, edges: &[(usize, usize)]) -> (r: Vec<Node>)
        requires
            0 < n <= i32::MAX,
            forall|i: int| 0 <= i < edges@.len() ==> #[trigger] edges@[i].0 < n && edges@[i].1 < n && edges@[i].0 != edges@[i].1,
        ensures
            r@.len() == n,
            all_fresh(r@),
            adj_of(r@) == adj_of_edges(n as nat, edges@),
    {
        let mut nodes = fresh_nodes(n);
        let mut i: usize = 0;
        proof {
            assert(edges@.subrange(0, 0) =~= Seq::<(usize, usize)>::empty());
        }
        while i < edges.len()
            invariant
                0 < n <= i32::MAX,
                forall|q: int| 0 <= q < edges@.len() ==> #[trigger] edges@[q].0 < n && edges@[q].1 < n && edges@[q].0 != edges@[q].1,
                i <= edges@.len(),
                nodes@.len() == n,
                all_fresh(nodes@),
                adj_of(nodes@) == adj_of_edges(n as nat, edges@.subrange(0, i as int)),
            decreases edges@.len() - i,
        {
            let (j, k) = edges[i];
            let ghost adj = adj_of(nodes@);
            let ghost sub = edges@.subrange(0, i as int);
            proof {
                assert forall|q: int| 0 <= q < sub.len() implies (#[trigger] sub[q]).0 < n && sub[q].1 < n by {
                    assert(sub[q] == edges@[q]);
                }
                lemma_adj_of_edges(n as nat, sub);
                lemma_degree_bound(adj, j as int);
                lemma_degree_bound(adj, k as int);
                assert(nodes@[j as int].nbrs() == adj[j as int]);
                assert(nodes@[k as int].nbrs() == adj[k as int]);
                assert(has_edge(adj, j as int, k as int) <==> has_edge(adj, k as int, j as int));
            }
            nodes[j].insert_neighbor(k as u32);
            proof {
                assert(nodes@[k as int].nbrs() == adj[k as int]);
            }
            nodes[k].insert_neighbor(j as u32);
            proof {
                assert(edges@.subrange(0, i as int + 1).drop_last() =~= sub);
                assert(edges@.subrange(0, i as int + 1).last() == (j, k));
                assert(adj_of(nodes@) =~= add_pair(adj, j as int, k as int));
                assert(all_fresh(nodes@));
            }
            i += 1;
        }
        proof {
            assert(edges@.subrange(0, edges@.len() as int) =~= edges@);
        }
        nodes
    }

    /// Creates the tree of the graph with the given edges on the nodes
    /// `0..n`, building its spanning forest: each component, from its first
    /// node, is walked breadth first with neighbors in list order, and its
    /// tree is rerooted at a centroid (`setup_forest`).
    pub fn from_edges(n: usize, edges: &[(usize, usize)]) -> (r: Self)
        requires
            0 < n <= i32::MAX,
            forall|i: int| 0 <= i < edges@.len() ==> #[trigger] edges@[i].0 < n && edges@[i].1 < n && edges@[i].0 != edges@[i].1,
        ensures
            r.wf(),
            r.num_nodes() == n,
            r.adj() == adj_of_edges(n as nat, edges@),
            forall|x: int, y: int| #[trigger] r.edge(x, y) <==> listed(edges@, x, y),
            loop_free(r.adj()),
            centroid_rooted(r.parents(), r.sizes()),
            r.parents() == setup_forest(r.adj()),
    {
        let nodes = Self::nodes_from_edges(n, edges);
        let mut instance = Self::_new(nodes);
        proof {
            assert forall|i: int| 0 <= i < edges@.len() implies (#[trigger] edges@[i]).0 < n && edges@[i].1 < n by {
            }
            lemma_adj_of_edges(n as nat, edges@);
            let par = instance.parents();
            assert forall|w: int| 0 <= w < par.len() implies #[trigger] par[w] == SENTINEL by {
                assert(instance.nodes@[w].parent == SENTINEL);
            }
            assert forall|w: int| 0 <= w < par.len() implies #[trigger] instance.sizes()[w] == 1 by {
                assert(instance.nodes@[w].parent == SENTINEL);
                assert(instance.nodes@[w].subtree_size == 1);
            }
        }
        instance.initialize();
        proof {
            assert forall|x: int| !#[trigger] has_edge(instance.adj(), x, x) by {
                if listed(edges@, x, x) {
                    let i = choose|i: int| 0 <= i < edges@.len() && ((edges@[i].0 == x && edges@[i].1 == x) || (edges@[i].0 == x && edges@[i].1 == x));
                    assert(edges@[i].0 != edges@[i].1);
                }
            }
        }
        instance
    }

    /// Removes every edge, leaving `n` isolated nodes.
    pub fn reset_all_edges(&mut self)
        requires
            old(self).wf(),
        ensures
            final(self).wf(),
            final(self).num_nodes() == old(self).num_nodes(),
            final(self).adj() == empty_adj(old(self).num_nodes()),
            loop_free(final(self).adj()),
            forall|x: int| 0 <= x < final(self).num_nodes() ==> #[trigger] final(self).parents()[x] == SENTINEL,
            forall|x: int| 0 <= x < final(self).num_nodes() ==> #[trigger] final(self).sizes()[x] == 1,
    {
        let len = self.nodes.len();
        let mut i: usize = 0;
        while i < len
            invariant
                old(self).wf(),
                self.core_wf(),
                self.same_aux(old(self)),
                len == self.nodes@.len(),
                i <= len,
                forall|k: int| 0 <= k < i ==> (#[trigger] self.nodes@[k]).parent == SENTINEL && self.nodes@[k].subtree_size == 1
                    && self.nodes@[k].nbrs() == Seq::<u32>::empty(),
            decreases len - i,
        {
            self.nodes[i].neighbors.clear();
            self.nodes[i].parent = SENTINEL;
            self.nodes[i].subtree_size = 1;
            i += 1;
        }
        self.depth = Ghost(Seq::new(len as nat, |k: int| 0nat));
        proof {
            let par = self.parents();
            assert(forest_wf(par, self.depth@));
            assert forall|x: int| 0 <= x < len implies #[trigger] self.sizes()[x] == 1 by {
                assert(self.nodes@[x].parent == SENTINEL);
            }
            assert forall|x: int| 0 <= x < len implies #[trigger] par[x] == SENTINEL by {
                assert(self.nodes@[x].parent == SENTINEL);
            }
            crate::sizes::lemma_fresh_exact(par, self.depth@, self.sizes());
            assert(self.adj() =~= empty_adj(len as nat));
            assert forall|a: int, b: int| #[trigger] has_edge(self.adj(), a, b) implies false by {
                assert(self.adj()[a].len() == 0);
            }
            assert(graph_wf(self.adj())) by {
                assert forall|a: int| 0 <= a < self.adj().len() implies (#[trigger] self.adj()[a]).no_duplicates() by {
                }
            }
        }
    }

    /// Replaces the edges by the given ones, keeping the number of nodes,
    /// and rebuilds the spanning forest, each tree rooted at a centroid.
    pub fn reset_all_edges_to_edges(&mut self, edges: &[(usize, usize)])
        requires
            old(self).wf(),
            forall|i: int| 0 <= i < edges@.len() ==> #[trigger] edges@[i].0 < old(self).num_nodes() && edges@[i].1 < old(self).num_nodes(),
        ensures
            final(self).wf(),
            final(self).num_nodes() == old(self).num_nodes(),
            final(self).adj() == adj_of_edges(old(self).num_nodes(), edges@),
            forall|x: int, y: int| #[trigger] final(self).edge(x, y) <==> listed(edges@, x, y),
            (forall|i: int| 0 <= i < edges@.len() ==> #[trigger] edges@[i].0 != edges@[i].1) ==> loop_free(final(self).adj()),
            centroid_rooted(final(self).parents(), final(self).sizes()),
            final(self).parents() == setup_forest(final(self).adj()),
    {
        self.reset_all_edges();
        let ghost n = self.nodes@.len();
        let mut i: usize = 0;
        proof {
            assert(edges@.subrange(0, 0) =~= Seq::<(usize, usize)>::empty());
        }
        while i < edges.len()
            invariant
                self.core_wf(),
                n == self.nodes@.len(),
                n == old(self).num_nodes(),
                forall|q: int| 0 <= q < edges@.len() ==> #[trigger] edges@[q].0 < n && edges@[q].1 < n,
                i <= edges@.len(),
                forest_wf(self.parents(), self.depth@),
                forall|x: int| 0 <= x < n ==> #[trigger] self.parents()[x] == SENTINEL,
                forall|x: int| 0 <= x < n ==> #[trigger] self.sizes()[x] == 1,
                self.adj() == adj_of_edges(n, edges@.subrange(0, i as int)),
            decreases edges@.len() - i,
        {
            let (u, v) = edges[i];
            let ghost sub = edges@.subrange(0, i as int);
            proof {
                assert forall|q: int| 0 <= q < sub.len() implies (#[trigger] sub[q]).0 < n && sub[q].1 < n by {
                    assert(sub[q] == edges@[q]);
                }
                lemma_adj_of_edges(n, sub);
            }
            self.insert_edge_in_graph(u, v);
            proof {
                assert(edges@.subrange(0, i as int + 1).drop_last() =~= sub);
                assert(edges@.subrange(0, i as int + 1).last() == (u, v));
            }
            i += 1;
        }
        proof {
            assert(edges@.subrange(0, edges@.len() as int) =~= edges@);
            lemma_adj_of_edges(n, edges@);
        }
        self.initialize();
        proof {
            if forall|i: int| 0 <= i < edges@.len() ==> #[trigger] edges@[i].0 != edges@[i].1 {
                assert forall|x: int| !#[trigger] has_edge(self.adj(), x, x) by {
                    if listed(edges@, x, x) {
                        let i = choose|i: int| 0 <= i < edges@.len() && ((edges@[i].0 == x && edges@[i].1 == x) || (edges@[i].0 == x && edges@[i].1 == x));
                        assert(edges@[i].0 != edges@[i].1);
                    }
                }
            }
        }
    }
}

/// The adjacency map lists `j` under the key `i`.
pub open spec fn dict_has(m: IntMap<usize, IntSet<usize>>, i: usize, j: usize) -> bool {
    m@.contains_key(i) && m@[i]@.contains(j)
}

/// A node with the elements of `s` as neighbors, in the order `s` is walked.
fn node_from_set(s: &IntSet<usize>) -> (r: Node)
    requires
        forall|j: usize| #[trigger] s@.contains(j) ==> j <= u32::MAX,
    ensures
        r.parent == SENTINEL,
        r.subtree_size == 1,
        r.nbrs().no_duplicates(),
        forall|q: int| 0 <= q < r.nbrs().len() ==> s@.contains(#[trigger] r.nbrs()[q] as usize),
        forall|j: usize| #[trigger] s@.contains(j) ==> r.nbrs().contains(j as u32),
{
    let elems = intset_elements(s);
    let mut node = Node::new();
    let mut k: usize = 0;
    while k < elems.len()
        invariant
            k <= elems@.len(),
            elems@.no_duplicates(),
            forall|x: usize| #[trigger] elems@.contains(x) <==> s@.contains(x),
            forall|j: usize| #[trigger] s@.contains(j) ==> j <= u32::MAX,
            node.parent == SENTINEL,
            node.subtree_size == 1,
            node.nbrs() == Seq::new(k as nat, |q: int| elems@[q] as u32),
        decreases elems@.len() - k,
    {
        let j = elems[k];
        proof {
            assert(elems@.contains(j));
            assert(!node.nbrs().contains(j as u32)) by {
                if node.nbrs().contains(j as u32) {
                    let q = choose|q: int| 0 <= q < node.nbrs().len() && #[trigger] node.nbrs()[q] == j as u32;
                    assert(elems@.contains(elems@[q]));
                    assert(elems@[q] as u32 == j as u32);
                    assert(elems@[q] == j);
                }
            }
        }
        node.insert_neighbor(j as u32);
        proof {
            assert(node.nbrs() =~= Seq::new((k + 1) as nat, |q: int| elems@[q] as u32));
        }
        k += 1;
    }
    proof {
        let nb = node.nbrs();
        assert forall|a: int, b: int| 0 <= a < nb.len() && 0 <= b < nb.len() && a != b implies nb[a] != nb[b] by {
            assert(elems@.contains(elems@[a]));
            assert(elems@.contains(elems@[b]));
        }
        assert forall|q: int| 0 <= q < nb.len() implies s@.contains(#[trigger] nb[q] as usize) by {
            assert(elems@.contains(elems@[q]));
        }
        assert forall|j: usize| #[trigger] s@.contains(j) implies nb.contains(j as u32) by {
            assert(elems@.contains(j));
            let q = choose|q: int| 0 <= q < elems@.len() && #[trigger] elems@[q] == j;
            assert(nb[q] == j as u32);
        }
    }
    node
}

/// What both constructions from an adjacency map rely on: neighbors are
/// nodes and the map is symmetric.
pub open spec fn dict_wf(m: IntMap<usize, IntSet<usize>>, n: nat) -> bool {
    &&& forall|i: usize, j: usize| i < n && #[trigger] dict_has(m, i, j) ==> j < n
    &&& forall|i: usize, j: usize|
        i < n && j < n && #[trigger] dict_has(m, i, j) ==> dict_has(m, j, i)
}

impl IDTree {
    /// The nodes of the graph given by an adjacency map on `0..n`; a
    /// missing key stands for a node without neighbors.
    fn nodes_from_map(n: usize, adj_dict: &IntMap<usize, IntSet<usize>>) -> (r: Vec<Node>)
        requires
            n <= i32::MAX,
            forall|i: usize, j: usize| i < n && #[trigger] dict_has(*adj_dict, i, j) ==> j < n,
        ensures
            r@.len() == n,
            all_fresh(r@),
            forall|i: int| 0 <= i < n ==> (#[trigger] r@[i]).nbrs().no_duplicates(),
            forall|i: int, q: int|
                0 <= i < n && 0 <= q < r@[i].nbrs().len() ==> dict_has(*adj_dict, i as usize, #[trigger] r@[i].nbrs()[q] as usize),
            forall|i: usize, j: usize| i < n && #[trigger] dict_has(*adj_dict, i, j) ==> r@[i as int].nbrs().contains(j as u32),
    {
        let mut nodes: Vec<Node> = Vec::with_capacity(n);
        let mut i: usize = 0;
        while i < n
            invariant
                n <= i32::MAX,
                forall|a: usize, j: usize| a < n && #[trigger] dict_has(*adj_dict, a, j) ==> j < n,
                i <= n,
                nodes@.len() == i,
                all_fresh(nodes@),
                forall|a: int| 0 <= a < i ==> (#[trigger] nodes@[a]).nbrs().no_duplicates(),
                forall|a: int, q: int|
                    0 <= a < i && 0 <= q < nodes@[a].nbrs().len() ==> dict_has(*adj_dict, a as usize, #[trigger] nodes@[a].nbrs()[q] as usize),
                forall|a: usize, j: usize| a < i && #[trigger] dict_has(*adj_dict, a, j) ==> nodes@[a as int].nbrs().contains(j as u32),
            decreases n - i,
        {
            let node = match adjacency_get(adj_dict, i) {
                Some(s) => {
                    proof {
                        assert forall|j: usize| #[trigger] s@.contains(j) implies j <= u32::MAX by {
                            assert(dict_has(*adj_dict, i, j));
                        }
                    }
                    let node = node_from_set(s);
                    proof {
                        assert forall|q: int| 0 <= q < node.nbrs().len() implies dict_has(*adj_dict, i, #[trigger] node.nbrs()[q] as usize) by {
                        }
                        assert forall|j: usize| #[trigger] dict_has(*adj_dict, i, j) implies node.nbrs().contains(j as u32) by {
                        }
                    }
                    node
                },
                None => Node::new(),
            };
            let ghost prev = nodes@;
            nodes.push(node);
            proof {
                assert forall|a: int| 0 <= a < i + 1 implies (#[trigger] nodes@[a]).nbrs().no_duplicates() by {
                    if a < i {
                        assert(nodes@[a] == prev[a]);
                    }
                }
                assert forall|a: int, q: int|
                    0 <= a < i + 1 && 0 <= q < nodes@[a].nbrs().len() implies dict_has(*adj_dict, a as usize, #[trigger] nodes@[a].nbrs()[q] as usize) by {
                    if a < i {
                        assert(nodes@[a] == prev[a]);
                    }
                }
                assert forall|a: usize, j: usize| a < i + 1 && #[trigger] dict_has(*adj_dict, a, j) implies nodes@[a as int].nbrs().contains(j as u32) by {
                    if a < i {
                        assert(nodes@[a as int] == prev[a as int]);
                    }
                }
            }
            i += 1;
        }
        nodes
    }

    /// Creates the tree of the graph given by an adjacency map whose keys
    /// are `0..adj_dict.len()`, building its spanning forest as `from_edges`
    /// does (`setup_forest`).
    pub fn from_adj(adj_dict: &IntMap<usize, IntSet<usize>>) -> (r: Self)
        requires
            0 < adj_dict@.len() <= i32::MAX,
            forall|i: usize, j: usize| i < adj_dict@.len() && #[trigger] dict_has(*adj_dict, i, j) ==> j != i,
            dict_wf(*adj_dict, adj_dict@.len()),
        ensures
            r.wf(),
            r.num_nodes() == adj_dict@.len(),
            forall|x: int, y: int|
                #[trigger] r.edge(x, y) <==> (0 <= x < adj_dict@.len() && 0 <= y < adj_dict@.len() && dict_has(*adj_dict, x as usize, y as usize)),
            (forall|i: usize| i < adj_dict@.len() ==> !#[trigger] dict_has(*adj_dict, i, i)) ==> loop_free(r.adj()),
            centroid_rooted(r.parents(), r.sizes()),
            r.parents() == setup_forest(r.adj()),
    {
        let n = adjacency_len(adj_dict);
        let nodes = Self::nodes_from_map(n, adj_dict);
        let mut instance = Self::_new(nodes);
        proof {
            instance.lemma_map_graph(adj_dict);
        }
        instance.initialize();
        proof {
            assert forall|x: int| has_edge(instance.adj(), x, x) implies dict_has(*adj_dict, x as usize, x as usize) by {
            }
        }
        instance
    }

    proof fn lemma_map_graph(&self, adj_dict: &IntMap<usize, IntSet<usize>>)
        requires
            self.nodes@.len() == adj_dict@.len(),
            self.nodes@.len() <= i32::MAX,
            dict_wf(*adj_dict, adj_dict@.len()),
            all_fresh(self.nodes@),
            forall|i: int| 0 <= i < self.nodes@.len() ==> (#[trigger] self.nodes@[i]).nbrs().no_duplicates(),
            forall|i: int, q: int|
                0 <= i < self.nodes@.len() && 0 <= q < self.nodes@[i].nbrs().len() ==> dict_has(*adj_dict, i as usize, #[trigger] self.nodes@[i].nbrs()[q] as usize),
            forall|i: usize, j: usize| i < self.nodes@.len() && #[trigger] dict_has(*adj_dict, i, j) ==> self.nodes@[i as int].nbrs().contains(j as u32),
        ensures
            graph_wf(self.adj()),
            forall|x: int| 0 <= x < self.nodes@.len() ==> #[trigger] self.parents()[x] == SENTINEL,
            forall|x: int| 0 <= x < self.nodes@.len() ==> #[trigger] self.sizes()[x] == 1,
            forall|x: int, y: int|
                #[trigger] has_edge(self.adj(), x, y) <==> (0 <= x < adj_dict@.len() && 0 <= y < adj_dict@.len() && dict_has(*adj_dict, x as usize, y as usize)),
    {
        let adj = self.adj();
        let n = self.nodes@.len();
        assert forall|x: int| 0 <= x < n implies #[trigger] self.parents()[x] == SENTINEL by {
            assert(self.nodes@[x].parent == SENTINEL);
        }
        assert forall|x: int| 0 <= x < n implies #[trigger] self.sizes()[x] == 1 by {
            assert(self.nodes@[x].parent == SENTINEL);
            assert(self.nodes@[x].subtree_size == 1);
        }
        assert forall|x: int, y: int| #[trigger] has_edge(adj, x, y) <==> (0 <= x < n && 0 <= y < n && dict_has(*adj_dict, x as usize, y as usize)) by {
            if has_edge(adj, x, y) {
                let q = choose|q: int| 0 <= q < adj[x].len() && #[trigger] adj[x][q] == y as u32;
                assert(dict_has(*adj_dict, x as usize, self.nodes@[x].nbrs()[q] as usize));
            }
            if 0 <= x < n && 0 <= y < n && dict_has(*adj_dict, x as usize, y as usize) {
                assert(self.nodes@[x].nbrs().contains(y as usize as u32));
            }
        }
        assert forall|a: int, j: int| 0 <= a < adj.len() && 0 <= j < adj[a].len() implies (#[trigger] adj[a][j] as int) < adj.len() by {
            assert(dict_has(*adj_dict, a as usize, self.nodes@[a].nbrs()[j] as usize));
        }
        assert forall|a: int| 0 <= a < adj.len() implies (#[trigger] adj[a]).no_duplicates() by {
        }
        assert forall|a: int, b: int| #[trigger] has_edge(adj, a, b) implies has_edge(adj, b, a) by {
            assert(dict_has(*adj_dict, a as usize, b as usize));
            assert(dict_has(*adj_dict, b as usize, a as usize));
        }
    }
}

impl IDTree {
    /// Replaces the edges by those of an adjacency map with a key for every
    /// node, keeping the number of nodes, and rebuilds the spanning forest,
    /// each tree rooted at a centroid.
    #[verifier::spinoff_prover]
    pub fn reset_all_edges_to_adj(&mut self, adj_dict: &IntMap<usize, IntSet<usize>>)
        requires
            old(self).wf(),
            adj_dict@.len() == old(self).num_nodes(),
            forall|i: usize| i < adj_dict@.len() ==> #[trigger] adj_dict@.contains_key(i),
            dict_wf(*adj_dict, adj_dict@.len()),
        ensures
            final(self).wf(),
            final(self).num_nodes() == old(self).num_nodes(),
            forall|x: int, y: int|
                #[trigger] final(self).edge(x, y) <==> (0 <= x < adj_dict@.len() && 0 <= y < adj_dict@.len() && dict_has(*adj_dict, x as usize, y as usize)),
            (forall|i: usize| i < adj_dict@.len() ==> !#[trigger] dict_has(*adj_dict, i, i)) ==> loop_free(final(self).adj()),
            centroid_rooted(final(self).parents(), final(self).sizes()),
            final(self).parents() == setup_forest(final(self).adj()),
    {
        let n = adjacency_len(adj_dict);
        let len = self.nodes.len();
        let mut i: usize = 0;
        while i < len
            invariant
                old(self).wf(),
                self.core_wf(),
                self.same_aux(old(self)),
                len == self.nodes@.len(),
                n == len,
                n == adj_dict@.len(),
                forall|a: usize| a < adj_dict@.len() ==> #[trigger] adj_dict@.contains_key(a),
                dict_wf(*adj_dict, adj_dict@.len()),
                i <= len,
                forall|k: int| 0 <= k < i ==> #[trigger] self.nodes@[k].parent == SENTINEL && self.nodes@[k].subtree_size == 1,
                forall|a: int| 0 <= a < i ==> (#[trigger] self.nodes@[a]).nbrs().no_duplicates(),
                forall|a: int, q: int|
                    0 <= a < i && 0 <= q < self.nodes@[a].nbrs().len() ==> dict_has(*adj_dict, a as usize, #[trigger] self.nodes@[a].nbrs()[q] as usize),
                forall|a: usize, j: usize| a < i && #[trigger] dict_has(*adj_dict, a, j) ==> self.nodes@[a as int].nbrs().contains(j as u32),
            decreases len - i,
        {
            proof {
                assert(adj_dict@.contains_key(i));
            }
            self.nodes[i].parent = SENTINEL;
            self.nodes[i].subtree_size = 1;
            let neighbors = adjacency_get(adj_dict, i).unwrap();
            self.nodes[i].neighbors.clear();
            let elems = intset_elements(neighbors);
            let mut k: usize = 0;
            while k < elems.len()
                invariant
                    old(self).wf(),
                    self.core_wf(),
                    self.same_aux(old(self)),
                    len == self.nodes@.len(),
                    n == adj_dict@.len(),
                    dict_wf(*adj_dict, adj_dict@.len()),
                    i < len,
                    k <= elems@.len(),
                    elems@.no_duplicates(),
                    *neighbors == adj_dict@[i],
                    adj_dict@.contains_key(i),
                    n == len,
                    n <= i32::MAX,
                    forall|a: int| 0 <= a < i ==> #[trigger] self.nodes@[a].parent == SENTINEL && self.nodes@[a].subtree_size == 1,
                    forall|a: int| 0 <= a < i ==> (#[trigger] self.nodes@[a]).nbrs().no_duplicates(),
                    forall|a: int, q: int|
                        0 <= a < i && 0 <= q < self.nodes@[a].nbrs().len() ==> dict_has(*adj_dict, a as usize, #[trigger] self.nodes@[a].nbrs()[q] as usize),
                    forall|a: usize, j: usize| a < i && #[trigger] dict_has(*adj_dict, a, j) ==> self.nodes@[a as int].nbrs().contains(j as u32),
                    forall|x: usize| #[trigger] elems@.contains(x) <==> neighbors@.contains(x),
                    self.nodes@[i as int].parent == SENTINEL,
                    self.nodes@[i as int].subtree_size == 1,
                    self.nodes@[i as int].nbrs() == Seq::new(k as nat, |q: int| elems@[q] as u32),
                decreases elems@.len() - k,
            {
                let j = elems[k];
                proof {
                    assert(elems@.contains(j));
                    assert(dict_has(*adj_dict, i, j));
                    assert(j < n);
                }
                let ghost pre = self.nodes@;
                self.nodes[i].neighbors.push(j as u32);
                proof {
                    assert forall|a: int| 0 <= a < len && a != i implies self.nodes@[a] == pre[a] by {
                    }
                }
                proof {
                    assert(self.nodes@[i as int].nbrs() =~= Seq::new((k + 1) as nat, |q: int| elems@[q] as u32));
                }
                k += 1;
            }
            proof {
                let nb = self.nodes@[i as int].nbrs();
                assert forall|x: usize| #[trigger] neighbors@.contains(x) implies x < n by {
                    assert(dict_has(*adj_dict, i, x));
                }
                assert forall|a: int, b: int| 0 <= a < nb.len() && 0 <= b < nb.len() && a != b implies nb[a] != nb[b] by {
                    assert(elems@.contains(elems@[a]));
                    assert(elems@.contains(elems@[b]));
                }
                assert forall|q: int| 0 <= q < nb.len() implies dict_has(*adj_dict, i, #[trigger] nb[q] as usize) by {
                    assert(elems@.contains(elems@[q]));
                }
                assert forall|j: usize| #[trigger] dict_has(*adj_dict, i, j) implies nb.contains(j as u32) by {
                    assert(elems@.contains(j));
                    let q = choose|q: int| 0 <= q < elems@.len() && #[trigger] elems@[q] == j;
                    assert(nb[q] == j as u32);
                }
                assert forall|a: int| 0 <= a < i + 1 implies #[trigger] self.nodes@[a].parent == SENTINEL && self.nodes@[a].subtree_size == 1 by {
                    if a < i {
                        assert(self.nodes@[a].parent == SENTINEL && self.nodes@[a].subtree_size == 1);
                    } else {
                        assert(a == i);
                    }
                }
            }
            i += 1;
        }
        self.depth = Ghost(Seq::new(len as nat, |k: int| 0nat));
        proof {
            self.lemma_map_graph(adj_dict);
            assert(forest_wf(self.parents(), self.depth@));
        }
        self.initialize();
        proof {
            assert forall|x: int| has_edge(self.adj(), x, x) implies dict_has(*adj_dict, x as usize, x as usize) by {
            }
        }
    }
}

/// `x` has at least one neighbor.
pub open spec fn is_active(adj: Seq<Seq<u32>>, x: usize) -> bool {
    adj[x as int].len() > 0
}

/// The neighbor ids of one node as `usize`.
pub open spec fn ids_of(s: Seq<u32>) -> Seq<usize> {
    Seq::new(s.len(), |i: int| s[i] as usize)
}

/// The nodes `0..n` with at least one neighbor, in increasing order.
pub open spec fn active_nodes(adj: Seq<Seq<u32>>) -> Seq<usize> {
    Seq::new(adj.len(), |i: int| i as usize).filter(|x: usize| is_active(adj, x))
}

impl IDTree {
    /// Whether `v` has no neighbors.
    pub fn is_isolated(&mut self, v: usize) -> (r: bool)
        requires
            old(self).wf(),
            v < old(self).num_nodes(),
        ensures
            *final(self) == *old(self),
            r == !is_active(old(self).adj(), v),
    {
        self.nodes[v].neighbors.is_empty()
    }

    /// The number of neighbors of `v`.
    pub fn degree(&mut self, v: usize) -> (r: i32)
        requires
            old(self).wf(),
            v < old(self).num_nodes(),
        ensures
            *final(self) == *old(self),
            r as int == old(self).adj()[v as int].len(),
    {
        proof {
            lemma_degree_bound(self.adj(), v as int);
        }
        self.nodes[v].neighbors.len() as i32
    }

    /// The neighbors of `v`, in their stored order.
    pub fn neighbors(&mut self, v: usize) -> (r: Vec<usize>)
        requires
            old(self).wf(),
            v < old(self).num_nodes(),
        ensures
            *final(self) == *old(self),
            r@ == ids_of(old(self).adj()[v as int]),
    {
        let len = self.nodes[v].neighbors.len();
        let mut r: Vec<usize> = Vec::with_capacity(len);
        let mut i: usize = 0;
        while i < len
            invariant
                self.wf(),
                v < self.num_nodes(),
                len == self.adj()[v as int].len(),
                i <= len,
                r@ == ids_of(self.adj()[v as int].subrange(0, i as int)),
            decreases len - i,
        {
            proof {
                assert(self.nodes@[v as int].nbrs() == self.adj()[v as int]);
            }
            r.push(self.nodes[v].neighbors.get(i) as usize);
            proof {
                assert(r@ =~= ids_of(self.adj()[v as int].subrange(0, i as int + 1)));
            }
            i += 1;
        }
        proof {
            assert(self.adj()[v as int].subrange(0, len as int) =~= self.adj()[v as int]);
        }
        r
    }

    /// The neighbors of `v`, in their stored order, in a small vector.
    pub fn neighbors_smallvec(&mut self, v: usize) -> (r: NodeIdList)
        requires
            old(self).wf(),
            v < old(self).num_nodes(),
        ensures
            *final(self) == *old(self),
            node_id_items(r) == ids_of(old(self).adj()[v as int]),
    {
        let len = self.nodes[v].neighbors.len();
        let mut r = NodeIdList::new();
        let mut i: usize = 0;
        while i < len
            invariant
                self.wf(),
                v < self.num_nodes(),
                len == self.adj()[v as int].len(),
                i <= len,
                node_id_items(r) == ids_of(self.adj()[v as int].subrange(0, i as int)),
            decreases len - i,
        {
            proof {
                assert(self.nodes@[v as int].nbrs() == self.adj()[v as int]);
            }
            r.push(self.nodes[v].neighbors.get(i) as usize);
            proof {
                assert(node_id_items(r) =~= ids_of(self.adj()[v as int].subrange(0, i as int + 1)));
            }
            i += 1;
        }
        proof {
            assert(self.adj()[v as int].subrange(0, len as int) =~= self.adj()[v as int]);
        }
        r
    }

    /// The nodes of `from_indices` that have neighbors, in their order.
    pub fn retain_active_nodes_from(&mut self, from_indices: Vec<usize>) -> (r: Vec<usize>)
        requires
            old(self).wf(),
            forall|i: int| 0 <= i < from_indices@.len() ==> #[trigger] from_indices@[i] < old(self).num_nodes(),
        ensures
            *final(self) == *old(self),
            r@ == from_indices@.filter(|x: usize| is_active(old(self).adj(), x)),
    {
        let ghost adj = self.adj();
        let ghost pred = |x: usize| is_active(adj, x);
        let mut r: Vec<usize> = Vec::new();
        let mut i: usize = 0;
        while i < from_indices.len()
            invariant
                self.wf(),
                *self == *old(self),
                adj == self.adj(),
                pred == (|x: usize| is_active(adj, x)),
                forall|q: int| 0 <= q < from_indices@.len() ==> #[trigger] from_indices@[q] < self.num_nodes(),
                i <= from_indices@.len(),
                r@ == from_indices@.subrange(0, i as int).filter(pred),
            decreases from_indices@.len() - i,
        {
            let x = from_indices[i];
            proof {
                let sub = from_indices@.subrange(0, i as int + 1);
                assert(sub.drop_last() =~= from_indices@.subrange(0, i as int));
                assert(sub.last() == x);
                reveal(Seq::filter);
            }
            if !self.is_isolated(x) {
                r.push(x);
            }
            i += 1;
        }
        proof {
            assert(from_indices@.subrange(0, from_indices@.len() as int) =~= from_indices@);
        }
        r
    }

    /// The nodes with at least one neighbor, in increasing order.
    pub fn active_nodes_vec(&mut self) -> (r: Vec<usize>)
        requires
            old(self).wf(),
        ensures
            *final(self) == *old(self),
            r@ == active_nodes(old(self).adj()),
    {
        let ghost adj = self.adj();
        let ghost pred = |x: usize| is_active(adj, x);
        let ghost all = Seq::new(adj.len(), |i: int| i as usize);
        let mut r: Vec<usize> = Vec::new();
        let mut i: usize = 0;
        while i < self.n
            invariant
                self.wf(),
                *self == *old(self),
                adj == self.adj(),
                pred == (|x: usize| is_active(adj, x)),
                all == Seq::new(adj.len(), |q: int| q as usize),
                i <= self.n,
                r@ == all.subrange(0, i as int).filter(pred),
            decreases self.n - i,
        {
            proof {
                let sub = all.subrange(0, i as int + 1);
                assert(sub.drop_last() =~= all.subrange(0, i as int));
                assert(sub.last() == i);
                reveal(Seq::filter);
            }
            if !self.is_isolated(i) {
                r.push(i);
            }
            i += 1;
        }
        proof {
            assert(all.subrange(0, self.n as int) =~= all);
        }
        r
    }
}

impl IDTree {
    /// Removes every edge at `v` (an edge from `v` to itself stays).
    pub fn isolate_node(&mut self, v: usize)
        requires
            old(self).wf(),
            v < old(self).num_nodes(),
        ensures
            final(self).wf(),
            final(self).num_nodes() == old(self).num_nodes(),
            forall|x: int, y: int|
                #[trigger] final(self).edge(x, y) <==> (old(self).edge(x, y) && (x == y || (x != v && y != v))),
            loop_free(old(self).adj()) ==> loop_free(final(self).adj()),
    {
        let ghost adj0 = self.adj();
        let list = self.nodes[v].neighbors.duplicate();
        let len = list.len();
        proof {
            assert(self.nodes@[v as int].nbrs() == adj0[v as int]);
            assert forall|x: int, y: int| #[trigger] has_edge(self.adj(), x, y) <==> cut_from(adj0, v as int, adj0[v as int].subrange(0, 0), x, y) by {
                if has_edge(adj0, x, y) {
                    assert(!adj0[v as int].subrange(0, 0).contains(y as u32));
                    assert(!adj0[v as int].subrange(0, 0).contains(x as u32));
                }
            }
        }
        let mut i: usize = 0;
        while i < len
            invariant
                self.wf(),
                self.num_nodes() == adj0.len(),
                v < adj0.len(),
                adj0.len() <= i32::MAX,
                graph_wf(adj0),
                neighbor_items(list) == adj0[v as int],
                len == adj0[v as int].len(),
                i <= len,
                forall|x: int, y: int|
                    #[trigger] has_edge(self.adj(), x, y) <==> cut_from(adj0, v as int, adj0[v as int].subrange(0, i as int), x, y),
            decreases len - i,
        {
            let nb = list.get(i) as usize;
            proof {
                assert((adj0[v as int][i as int] as int) < adj0.len());
            }
            let ghost before = self.adj();
            let r = self.delete_edge(v, nb);
            proof {
                let sub = adj0[v as int].subrange(0, i as int);
                let sub2 = adj0[v as int].subrange(0, i as int + 1);
                assert(sub2 =~= sub.push(nb as u32));
                if nb != v {
                    assert(adj0[v as int].contains(nb as u32));
                    assert(has_edge(adj0, v as int, nb as int));
                    assert(!sub.contains(nb as u32)) by {
                        if sub.contains(nb as u32) {
                            let q = choose|q: int| 0 <= q < sub.len() && #[trigger] sub[q] == nb as u32;
                            assert(adj0[v as int][q] == adj0[v as int][i as int]);
                            assert(adj0[v as int].no_duplicates());
                        }
                    }
                    assert(cut_from(adj0, v as int, sub, v as int, nb as int));
                    assert(has_edge(before, v as int, nb as int));
                    lemma_without_edge(before, v as int, nb as int);
                }
                assert forall|x: int, y: int| #[trigger] has_edge(self.adj(), x, y) <==> cut_from(adj0, v as int, sub2, x, y) by {
                    assert(has_edge(before, x, y) <==> cut_from(adj0, v as int, sub, x, y));
                    if has_edge(adj0, x, y) {
                        crate::graph::lemma_push_contains(sub, nb as u32, y as u32);
                        crate::graph::lemma_push_contains(sub, nb as u32, x as u32);
                        assert((y as u32 == nb as u32) <==> y == nb);
                        assert((x as u32 == nb as u32) <==> x == nb);
                    }
                }
            }
            i += 1;
        }
        proof {
            assert(adj0[v as int].subrange(0, len as int) =~= adj0[v as int]);
            assert forall|x: int, y: int| #[trigger] self.edge(x, y) <==> (has_edge(adj0, x, y) && (x == y || (x != v && y != v))) by {
                assert(has_edge(self.adj(), x, y) <==> cut_from(adj0, v as int, adj0[v as int], x, y));
                if has_edge(adj0, x, y) && x == v {
                    assert(adj0[v as int].contains(y as u32));
                }
                if has_edge(adj0, x, y) && y == v {
                    assert(has_edge(adj0, y, x));
                    assert(adj0[v as int].contains(x as u32));
                }
            }
        }
    }

    /// Removes every edge at each of the given nodes (edges from a node to
    /// itself stay).
    pub fn isolate_nodes(&mut self, nodes: Vec<usize>)
        requires
            old(self).wf(),
            forall|i: int| 0 <= i < nodes@.len() ==> #[trigger] nodes@[i] < old(self).num_nodes(),
        ensures
            final(self).wf(),
            final(self).num_nodes() == old(self).num_nodes(),
            forall|x: int, y: int|
                #[trigger] final(self).edge(x, y) <==> (old(self).edge(x, y) && (x == y || (
                    !nodes@.contains(x as usize) && !nodes@.contains(y as usize)))),
            loop_free(old(self).adj()) ==> loop_free(final(self).adj()),
    {
        let ghost adj0 = self.adj();
        let mut i: usize = 0;
        while i < nodes.len()
            invariant
                self.wf(),
                self.num_nodes() == adj0.len(),
                forall|q: int| 0 <= q < nodes@.len() ==> #[trigger] nodes@[q] < adj0.len(),
                i <= nodes@.len(),
                forall|x: int, y: int|
                    #[trigger] self.edge(x, y) <==> (has_edge(adj0, x, y) && (x == y || (!nodes@.subrange(
                        0,
                        i as int,
                    ).contains(x as usize) && !nodes@.subrange(0, i as int).contains(y as usize)))),
            decreases nodes@.len() - i,
        {
            let v = nodes[i];
            self.isolate_node(v);
            proof {
                let sub = nodes@.subrange(0, i as int);
                let sub2 = nodes@.subrange(0, i as int + 1);
                assert(sub2 =~= sub.push(v));
                assert forall|x: int, y: int| #[trigger] self.edge(x, y) <==> (has_edge(adj0, x, y) && (x == y || (!sub2.contains(x as usize) && !sub2.contains(y as usize)))) by {
                    if has_edge(adj0, x, y) {
                        assert(0 <= x < adj0.len() && 0 <= y < adj0.len());
                        assert(sub2.contains(x as usize) <==> (sub.contains(x as usize) || x as usize == v)) by {
                            lemma_push_contains_usize(sub, v, x as usize);
                        }
                        assert(sub2.contains(y as usize) <==> (sub.contains(y as usize) || y as usize == v)) by {
                            lemma_push_contains_usize(sub, v, y as usize);
                        }
                    }
                }
            }
            i += 1;
        }
        proof {
            assert(nodes@.subrange(0, nodes@.len() as int) =~= nodes@);
            assert forall|x: int| #[trigger] has_edge(self.adj(), x, x) implies has_edge(adj0, x, x) by {
                assert(self.edge(x, x));
            }
        }
    }
}

/// The edge `(x, y)` of `adj` survives removing the edges from `v` to the
/// nodes of `cut` other than `v`.
pub open spec fn cut_from(adj: Seq<Seq<u32>>, v: int, cut: Seq<u32>, x: int, y: int) -> bool {
    &&& has_edge(adj, x, y)
    &&& !(x == v && y != v && cut.contains(y as u32))
    &&& !(y == v && x != v && cut.contains(x as u32))
}

/// An id is in a list with one id pushed exactly when it is that id or was
/// there before.
proof fn lemma_push_contains_usize(s: Seq<usize>, w: usize, y: usize)
    ensures
        s.push(w).contains(y) <==> (s.contains(y) || y == w),
{
    if s.push(w).contains(y) {
        let j = choose|j: int| 0 <= j < s.push(w).len() && #[trigger] s.push(w)[j] == y;
        if j < s.len() {
            assert(s[j] == y);
        }
    }
    if s.contains(y) {
        let j = choose|j: int| 0 <= j < s.len() && #[trigger] s[j] == y;
        assert(s.push(w)[j] == y);
    }
    if y == w {
        assert(s.push(w)[s.len() as int] == w);
    }
}

/// A copy of each node, in order.
fn copy_nodes(nodes: &Vec<Node>) -> (r: Vec<Node>)
    ensures
        adj_of(r@) == adj_of(nodes@),
        parents_of(r@) == parents_of(nodes@),
        sizes_of(r@) == sizes_of(nodes@),
{
    let mut r: Vec<Node> = Vec::with_capacity(nodes.len());
    let mut i: usize = 0;
    while i < nodes.len()
        invariant
            i <= nodes@.len(),
            r@.len() == i,
            forall|k: int| 0 <= k < i ==> (#[trigger] r@[k]).parent == nodes@[k].parent && r@[k].subtree_size
                == nodes@[k].subtree_size && r@[k].nbrs() == nodes@[k].nbrs(),
        decreases nodes@.len() - i,
    {
        r.push(nodes[i].duplicate());
        i += 1;
    }
    assert(adj_of(r@) =~= adj_of(nodes@));
    assert(parents_of(r@) =~= parents_of(nodes@));
    assert(sizes_of(r@) =~= sizes_of(nodes@));
    r
}

impl Clone for IDTree {
    /// A copy with the same graph, forest and subtree sizes.
    fn clone(&self) -> (r: Self)
        ensures
            r.same_trees(self),
            self.wf() ==> r.wf(),
    {
        let generations = self.generations.clone();
        let distances = self.distances.clone();
        proof {
            assert(generations@ =~= self.generations@);
            assert(distances@ =~= self.distances@);
        }
        IDTree {
            n: self.n,
            nodes: copy_nodes(&self.nodes),
            generation: self.generation,
            generations,
            vec_scratch_nodes: self.vec_scratch_nodes.clone(),
            distances,
            deque_scratch: self.deque_scratch.clone(),
            vec_scratch_stack: self.vec_scratch_stack.clone(),
            node_bitset_scratch0: bitset_clone(&self.node_bitset_scratch0),
            node_bitset_scratch1: bitset_clone(&self.node_bitset_scratch1),
            node_bitset_scratch2: bitset_clone(&self.node_bitset_scratch2),
            depth: Ghost(self.depth@),
        }
    }
}

} // verus!
