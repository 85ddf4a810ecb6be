//! Betweenness of removal candidates: for each candidate, how many terminal
//! pairs have a shortest path through it.
use vstd::prelude::*;
use nohash_hasher::{IntMap, IntSet};
use rapidhash::RapidHashSet;
use crate::idtree::IDTree;
use crate::hash_spec::{pair_elements, intset_elements, id_map_new, id_map_get, id_map_insert};
use crate::centrality::{
    candidate_ids, multiplicity, roots_of, ordinary, through, ends_at, through_count,
    end_count, super_count, through_in, ends_in, super_in, is_cand, through_pred,
    ends_pred, super_pred, super_ends, town_pred, path_count, walk_hits, town_hit, bfs_shortest, unique_pair,
    lemma_path_count_through, lemma_single_multiplicity,
};
use crate::graph::{has_edge, graph_wf, connected, spans, lemma_connected_sym, lemma_connected_trans};
use crate::graph::is_path;
use crate::distance::{
    ids_path, lemma_shortest_path_nodes, is_dist, on_shortest, lemma_dist_unique, lemma_dist_sym, lemma_within_connected, bfs_state, lemma_bfs_start, lemma_bfs_visit, lemma_bfs_done_node, lemma_bfs_finished,
    lemma_bfs_facts, unique_shortest,
};
use crate::idtree::traversal::{lemma_marks_start, lemma_marks_push, lemma_marks_read, lemma_listed_push, marks_order};
use crate::counting::{
    lemma_filter_count_set, lemma_take_filter, lemma_take_none, lemma_push_to_set,
};

verus! {

/// Every candidate mapped to `value(candidate)`.
pub open spec fn maps_candidates(m: Map<usize, usize>, cands: Seq<(usize, usize)>) -> bool {
    m.dom() == candidate_ids(cands)
}

/// `x` is the root of one of the pairs `(terminal, root)`.
pub open spec fn is_root_of(pairs: Seq<(usize, usize)>, x: usize) -> bool {
    exists|k: int| 0 <= k < pairs.len() && pairs[k].1 == x
}

/// Each candidate mapped to its entry in `counts`.
fn build_map(cands: &[(usize, usize)], counts: &Vec<usize>) -> (r: IntMap<usize, usize>)
    requires
        forall|k: int| 0 <= k < cands@.len() ==> (#[trigger] cands@[k]).0 < counts@.len(),
    ensures
        maps_candidates(r@, cands@),
        forall|c: usize| #[trigger] r@.contains_key(c) ==> r@[c] == counts@[c as int],
{
    let mut m = id_map_new();
    let mut i: usize = 0;
    while i < cands.len()
        invariant
            i <= cands@.len(),
            forall|k: int| 0 <= k < cands@.len() ==> (#[trigger] cands@[k]).0 < counts@.len(),
            m@.dom() == cands@.take(i as int).map_values(|p: (usize, usize)| p.0).to_set(),
            forall|c: usize| #[trigger] m@.contains_key(c) ==> m@[c] == counts@[c as int],
        decreases cands@.len() - i,
    {
        let v = cands[i].0;
        id_map_insert(&mut m, v, counts[v]);
        proof {
            let f = |p: (usize, usize)| p.0;
            assert(cands@.take(i as int + 1).map_values(f) =~= cands@.take(i as int).map_values(f).push(v));
            lemma_push_to_set(cands@.take(i as int).map_values(f), v);
        }
        i += 1;
    }
    proof {
        assert(cands@.take(cands@.len() as int) =~= cands@);
    }
    m
}

/// Each candidate mapped to zero.
fn zero_counts(cands: &[(usize, usize)]) -> (r: IntMap<usize, usize>)
    ensures
        maps_candidates(r@, cands@),
        forall|c: usize| #[trigger] r@.contains_key(c) ==> r@[c] == 0,
{
    let mut m = id_map_new();
    let mut i: usize = 0;
    while i < cands.len()
        invariant
            i <= cands@.len(),
            m@.dom() == cands@.take(i as int).map_values(|p: (usize, usize)| p.0).to_set(),
            forall|c: usize| #[trigger] m@.contains_key(c) ==> m@[c] == 0,
        decreases cands@.len() - i,
    {
        let v = cands[i].0;
        id_map_insert(&mut m, v, 0);
        proof {
            let f = |p: (usize, usize)| p.0;
            assert(cands@.take(i as int + 1).map_values(f) =~= cands@.take(i as int).map_values(f).push(v));
            lemma_push_to_set(cands@.take(i as int).map_values(f), v);
        }
        i += 1;
    }
    proof {
        assert(cands@.take(cands@.len() as int) =~= cands@);
    }
    m
}

/// The distinct roots of the pairs `(terminal, root)`, in the order they
/// first occur, and for each pair the index of its root among them.
fn distinct_roots(pairs: &Vec<(usize, usize)>) -> (r: (Vec<usize>, Vec<usize>))
    ensures
        r.0@.no_duplicates(),
        r.0@.len() <= pairs@.len(),
        forall|x: usize| #[trigger] r.0@.contains(x) <==> exists|k: int| 0 <= k < pairs@.len() && pairs@[k].1 == x,
        r.1@.len() == pairs@.len(),
        forall|k: int| 0 <= k < pairs@.len() ==> (#[trigger] r.1@[k]) < r.0@.len() && r.0@[r.1@[k] as int] == pairs@[k].1,
{
    let mut roots: Vec<usize> = Vec::new();
    let mut idx: Vec<usize> = Vec::with_capacity(pairs.len());
    let mut index = id_map_new();
    let mut k: usize = 0;
    while k < pairs.len()
        invariant
            k <= pairs@.len(),
            roots@.no_duplicates(),
            roots@.len() <= k,
            idx@.len() == k,
            forall|x: usize| #[trigger] roots@.contains(x) <==> exists|j: int| 0 <= j < k && pairs@[j].1 == x,
            forall|j: int| 0 <= j < k ==> (#[trigger] idx@[j]) < roots@.len() && roots@[idx@[j] as int] == pairs@[j].1,
            forall|x: usize| #[trigger] index@.contains_key(x) <==> roots@.contains(x),
            forall|x: usize| #[trigger] index@.contains_key(x) ==> index@[x] < roots@.len() && roots@[index@[x] as int] == x,
        decreases pairs@.len() - k,
    {
        let r = pairs[k].1;
        match id_map_get(&index, r) {
            Some(i) => {
                idx.push(i);
                proof {
                    assert forall|x: usize| #[trigger] roots@.contains(x) <==> exists|j: int| 0 <= j < k + 1 && pairs@[j].1 == x by {
                        if x == r {
                            assert(pairs@[k as int].1 == x);
                        }
                        if exists|j: int| 0 <= j < k + 1 && pairs@[j].1 == x {
                            let j = choose|j: int| 0 <= j < k + 1 && pairs@[j].1 == x;
                            if j < k {
                            }
                        }
                    }
                }
            },
            None => {
                let ghost prev = roots@;
                let i = roots.len();
                roots.push(r);
                id_map_insert(&mut index, r, i);
                idx.push(i);
                proof {
                    assert(!prev.contains(r));
                    assert(roots@.no_duplicates()) by {
                        assert forall|a: int, b: int| 0 <= a < b < roots@.len() implies roots@[a] != roots@[b] by {
                            if b == prev.len() {
                                assert(prev.contains(prev[a]));
                            } else {
                                assert(prev[a] != prev[b]);
                            }
                        }
                    }
                    assert forall|x: usize| #[trigger] roots@.contains(x) <==> prev.contains(x) || x == r by {
                        if x == r {
                            assert(roots@[i as int] == r);
                        }
                        if prev.contains(x) {
                            let j = choose|j: int| 0 <= j < prev.len() && prev[j] == x;
                            assert(roots@[j] == x);
                        }
                        if roots@.contains(x) {
                            let j = choose|j: int| 0 <= j < roots@.len() && roots@[j] == x;
                            if j < prev.len() {
                                assert(prev[j] == x);
                            }
                        }
                    }
                    assert forall|x: usize| #[trigger] roots@.contains(x) <==> exists|j: int| 0 <= j < k + 1 && pairs@[j].1 == x by {
                        if x == r {
                            assert(pairs@[k as int].1 == x);
                        }
                        if exists|j: int| 0 <= j < k + 1 && pairs@[j].1 == x {
                            let j = choose|j: int| 0 <= j < k + 1 && pairs@[j].1 == x;
                            if j < k {
                                assert(prev.contains(x));
                            }
                        }
                    }
                    assert forall|j: int| 0 <= j < k + 1 implies (#[trigger] idx@[j]) < roots@.len() && roots@[idx@[j] as int] == pairs@[j].1 by {
                        if j < k {
                            assert(prev[idx@[j] as int] == pairs@[j].1);
                        }
                    }
                    assert forall|x: usize| #[trigger] index@.contains_key(x) ==> index@[x] < roots@.len() && roots@[index@[x] as int] == x by {
                        if x != r && index@.contains_key(x) {
                            assert(prev[index@[x] as int] == x);
                        }
                    }
                }
            },
        }
        k += 1;
    }
    (roots, idx)
}

impl IDTree {
    /// Walks breadth first from `source`: afterwards the nodes that carry the
    /// current generation mark are exactly those joined to `source`, and
    /// each of them has its distance from `source` recorded.
    fn compute_distances_from_internal(&mut self, source: usize)
        requires
            old(self).wf(),
            source < old(self).nodes@.len(),
        ensures
            final(self).wf(),
            final(self).nodes == old(self).nodes,
            final(self).n == old(self).n,
            final(self).depth == old(self).depth,
            forall|x: int|
                0 <= x < final(self).n ==> (#[trigger] final(self).generations@[x] == final(self).generation
                    <==> connected(final(self).adj(), source as int, x)),
            forall|x: int|
                0 <= x < final(self).n && #[trigger] final(self).generations@[x] == final(self).generation
                    ==> 0 <= final(self).distances@[x] && is_dist(
                    final(self).adj(),
                    source as int,
                    x,
                    final(self).distances@[x] as nat,
                ),
    {
        let ghost adj = self.adj();
        let ghost n = self.n as int;
        let ghost nodes0 = self.nodes;
        let ghost depth0 = self.depth;
        let g = self.next_generation();
        self.deque_scratch.clear();
        self.distances.set(source, 0);
        self.generations.set(source, g);
        self.deque_scratch.push_back(source);
        let ghost mut order: Seq<usize> = seq![source];
        let ghost mut h: int = 0;
        proof {
            lemma_bfs_start(adj, source, self.distances@);
            lemma_marks_start(self.generations@, g, source, n);
            assert(self.deque_scratch@ =~= seq![source]);
        }
        let mut next = self.deque_scratch.pop_front();
        proof {
            assert(self.deque_scratch@ =~= order.subrange(1, 1));
        }
        while next.is_some()
            invariant
                self.core_wf(),
                spans(adj, self.parents(), self.depth@),
                self.adj() == adj,
                self.nodes == nodes0,
                self.depth == depth0,
                n == self.n,
                n == adj.len(),
                self.generation == g,
                bfs_state(adj, source, order, h, self.distances@),
                marks_order(self.generations@, g, order, n),
                next matches Some(u) ==> h < order.len() && u == order[h] && self.deque_scratch@ == order.subrange(h + 1, order.len() as int),
                next is None ==> h == order.len(),
            decreases n - h,
        {
            proof {
                lemma_bfs_facts(adj, source, order, h, self.distances@);
            }
            let u = next.unwrap();
            let du = self.distances[u];
            let deg = self.nodes[u].neighbors.len();
            proof {
                assert(self.nodes@[u as int].nbrs() == adj[u as int]);
                assert(0 <= du <= h);
            }
            let mut j: usize = 0;
            while j < deg
                invariant
                    self.core_wf(),
                    spans(adj, self.parents(), self.depth@),
                    self.adj() == adj,
                    self.nodes == nodes0,
                    self.depth == depth0,
                    n == self.n,
                    n == adj.len(),
                    self.generation == g,
                    bfs_state(adj, source, order, h, self.distances@),
                    marks_order(self.generations@, g, order, n),
                    h < order.len() <= n,
                    u == order[h],
                    u < n,
                    du == self.distances@[u as int],
                    0 <= du <= h,
                    deg == adj[u as int].len(),
                    self.deque_scratch@ == order.subrange(h + 1, order.len() as int),
                    j <= deg,
                    forall|k: int| 0 <= k < j ==> order.contains(#[trigger] adj[u as int][k] as usize),
                decreases deg - j,
            {
                proof {
                    assert(self.nodes@[u as int].nbrs() == adj[u as int]);
                }
                let v = self.nodes[u].neighbors.get(j) as usize;
                proof {
                    assert(graph_wf(adj));
                    assert((adj[u as int][j as int] as int) < adj.len());
                    lemma_marks_read(self.generations@, g, order, n, v);
                }
                if self.generations[v] != g {
                    proof {
                        assert(adj[u as int].contains(v as u32));
                        assert(has_edge(adj, u as int, v as int));
                        lemma_bfs_visit(adj, source, order, h, self.distances@, v);
                        lemma_marks_push(self.generations@, g, order, n, v);
                        lemma_listed_push(adj, order, u, j as int, v);
                    }
                    self.generations.set(v, g);
                    self.distances.set(v, du + 1);
                    self.deque_scratch.push_back(v);
                    proof {
                        let o2 = order.push(v);
                        assert(self.deque_scratch@ =~= o2.subrange(h + 1, o2.len() as int));
                        order = o2;
                        lemma_bfs_facts(adj, source, order, h, self.distances@);
                    }
                }
                j += 1;
            }
            proof {
                lemma_bfs_done_node(adj, source, order, h, self.distances@);
                h = h + 1;
            }
            next = self.deque_scratch.pop_front();
            proof {
                if next is Some {
                    assert(self.deque_scratch@ =~= order.subrange(h + 1, order.len() as int));
                }
            }
        }
        proof {
            lemma_bfs_facts(adj, source, order, h, self.distances@);
            assert forall|x: int| 0 <= x < n implies (#[trigger] self.generations@[x] == g <==> connected(adj, source as int, x)) by {
                lemma_bfs_finished(adj, source, order, self.distances@, x);
                lemma_marks_read(self.generations@, g, order, n, x as usize);
            }
            assert forall|x: int| 0 <= x < n && #[trigger] self.generations@[x] == g implies 0 <= self.distances@[x] && is_dist(
                adj,
                source as int,
                x,
                self.distances@[x] as nat,
            ) by {
                lemma_marks_read(self.generations@, g, order, n, x as usize);
                let i = choose|i: int| 0 <= i < order.len() && order[i] == x as usize;
                assert(order[i] as int == x);
            }
        }
    }
}

/// Distances from `r`: each node joined to `r` holds its distance from `r`,
/// and every other node holds -1.
pub open spec fn distances_from(adj: Seq<Seq<u32>>, r: usize, d: Seq<i32>) -> bool {
    &&& d.len() == adj.len()
    &&& forall|x: int| 0 <= x < adj.len() && connected(adj, r as int, x) ==> 0 <= #[trigger] d[x] && is_dist(adj, r as int, x, d[x] as nat)
    &&& forall|x: int| 0 <= x < adj.len() && !connected(adj, r as int, x) ==> #[trigger] d[x] == -1
}

/// The marks and distances of a walk from `s`: the marked nodes are those
/// joined to `s`, each holding its distance from `s`.
pub open spec fn walk_from(adj: Seq<Seq<u32>>, s: usize, d: Seq<i32>, gens: Seq<u16>, g: u16) -> bool {
    &&& d.len() == adj.len()
    &&& gens.len() == adj.len()
    &&& forall|x: int| 0 <= x < adj.len() ==> (#[trigger] gens[x] == g <==> connected(adj, s as int, x))
    &&& forall|x: int| 0 <= x < adj.len() && #[trigger] gens[x] == g ==> 0 <= d[x] && is_dist(adj, s as int, x, d[x] as nat)
}

/// Whether `sr` is `Some(r)`.
fn is_super(sr: Option<usize>, r: usize) -> (b: bool)
    ensures
        b == (sr == Some(r)),
{
    match sr {
        Some(s) => s == r,
        None => false,
    }
}

/// With the distances from the root `r` and those of a walk from the
/// candidate `c`, the test on the terminal `t` holds exactly for the pairs
/// with a shortest path through `c`.
proof fn lemma_hit_candidate(
    adj: Seq<Seq<u32>>,
    sr: Option<usize>,
    dr: Seq<i32>,
    dc: Seq<i32>,
    gens: Seq<u16>,
    g: u16,
    c: usize,
    t: usize,
    r: usize,
)
    requires
        graph_wf(adj),
        c < adj.len(),
        t < adj.len(),
        r < adj.len(),
        ordinary(sr, (t, r)),
        distances_from(adj, r, dr),
        walk_from(adj, c, dc, gens, g),
    ensures
        through(adj, sr, c, (t, r)) ==> (dr[c as int] >= 0 && dr[t as int] >= 0 && gens[t as int] == g && dr[t as int]
            == dr[c as int] + dc[t as int]),
        (dr[c as int] >= 0 && dr[t as int] >= 0 && gens[t as int] == g && dr[t as int] == dr[c as int] + dc[t as int])
            ==> through(adj, sr, c, (t, r)),
{
    if through(adj, sr, c, (t, r)) {
        let (d1, d2) = choose|d1: nat, d2: nat|
            #![trigger is_dist(adj, r as int, c as int, d1), is_dist(adj, c as int, t as int, d2)]
            is_dist(adj, r as int, c as int, d1) && is_dist(adj, c as int, t as int, d2) && is_dist(adj, r as int, t as int, d1 + d2);
        lemma_within_connected(adj, r as int, c as int, d1);
        lemma_within_connected(adj, c as int, t as int, d2);
        assert(gens[t as int] == g);
        lemma_dist_unique(adj, r as int, c as int, d1, dr[c as int] as nat);
        lemma_dist_unique(adj, c as int, t as int, d2, dc[t as int] as nat);
        lemma_dist_unique(adj, r as int, t as int, d1 + d2, dr[t as int] as nat);
    }
    if dr[c as int] >= 0 && dr[t as int] >= 0 && gens[t as int] == g && dr[t as int] == dr[c as int] + dc[t as int] {
        assert(connected(adj, r as int, c as int));
        assert(connected(adj, r as int, t as int));
        {
            lemma_connected_sym(adj, c as int, t as int);
            lemma_connected_trans(adj, r as int, t as int, c as int);
            let d1 = dr[c as int] as nat;
            let d2 = dc[t as int] as nat;
            assert(is_dist(adj, r as int, c as int, d1));
            assert(is_dist(adj, c as int, t as int, d2));
            assert(is_dist(adj, r as int, t as int, d1 + d2));
        }
    }
}

impl IDTree {
    /// The distances from each root other than the super root, each from a
    /// walk of its own; an empty list stands for the super root.
    fn root_distances(&mut self, roots: &Vec<usize>, super_root: Option<usize>) -> (r: Vec<Vec<i32>>)
        requires
            old(self).wf(),
            forall|i: int| 0 <= i < roots@.len() && super_root != Some(#[trigger] roots@[i]) ==> roots@[i] < old(self).n,
        ensures
            final(self).wf(),
            final(self).nodes == old(self).nodes,
            final(self).depth == old(self).depth,
            final(self).n == old(self).n,
            r@.len() == roots@.len(),
            forall|i: int| 0 <= i < roots@.len() && super_root != Some(#[trigger] roots@[i]) ==> distances_from(old(self).adj(), roots@[i], r@[i]@),
    {
        let ghost old_self = *self;
        let mut cache: Vec<Vec<i32>> = Vec::with_capacity(roots.len());
        let mut i: usize = 0;
        while i < roots.len()
            invariant
                self.wf(),
                self.nodes == old_self.nodes,
                self.depth == old_self.depth,
                self.n == old_self.n,
                i <= roots@.len(),
                cache@.len() == i,
                forall|i: int| 0 <= i < roots@.len() && super_root != Some(#[trigger] roots@[i]) ==> roots@[i] < old_self.n,
                forall|k: int| 0 <= k < i && super_root != Some(#[trigger] roots@[k]) ==> distances_from(old_self.adj(), roots@[k], cache@[k]@),
            decreases roots@.len() - i,
        {
            if !is_super(super_root, roots[i]) {
                self.compute_distances_from_internal(roots[i]);
                let mut d = self.distances.clone();
                let mut x: usize = 0;
                proof {
                    assert(d@ =~= self.distances@);
                }
                while x < self.n
                    invariant
                        self.wf(),
                        self.n == old_self.n,
                        self.nodes == old_self.nodes,
                        x <= self.n,
                        d@.len() == self.n,
                        self.distances@.len() == self.n,
                        self.generations@.len() == self.n,
                        forall|y: int| 0 <= y < self.n ==> (#[trigger] d@[y] == -1 && y < x && self.generations@[y] != self.generation)
                            || (d@[y] == self.distances@[y] && (y >= x || self.generations@[y] == self.generation)),
                    decreases self.n - x,
                {
                    if self.generations[x] != self.generation {
                        d.set(x, -1);
                    }
                    x += 1;
                }
                proof {
                    let adj = old_self.adj();
                    assert forall|y: int| 0 <= y < adj.len() && connected(adj, roots@[i as int] as int, y) implies 0 <= #[trigger] d@[y] && is_dist(adj, roots@[i as int] as int, y, d@[y] as nat) by {
                        assert(self.generations@[y] == self.generation);
                    }
                    assert forall|y: int| 0 <= y < adj.len() && !connected(adj, roots@[i as int] as int, y) implies #[trigger] d@[y] == -1 by {
                        assert(self.generations@[y] != self.generation);
                    }
                }
                cache.push(d);
            } else {
                cache.push(Vec::new());
            }
            i += 1;
        }
        cache
    }
}

impl IDTree {
    /// Betweenness by triangle equality, one walk per candidate: a pair
    /// `(terminal, root)` counts for a candidate when the distance from the
    /// root to the terminal is the distance from the root to the candidate
    /// plus that from the candidate to the terminal. Pairs of the super root
    /// are left out.
    fn grouped_candidate_centric(
        &mut self,
        cands: &[(usize, usize)],
        pairs: &Vec<(usize, usize)>,
        roots: &Vec<usize>,
        idx: &Vec<usize>,
        super_root: Option<usize>,
    ) -> (r: IntMap<usize, usize>)
        requires
            old(self).wf(),
            forall|k: int| 0 <= k < cands@.len() ==> (#[trigger] cands@[k]).0 < old(self).n,
            forall|k: int|
                0 <= k < pairs@.len() && ordinary(super_root, #[trigger] pairs@[k]) ==> pairs@[k].0 < old(self).n
                    && pairs@[k].1 < old(self).n,
            idx@.len() == pairs@.len(),
            forall|k: int| 0 <= k < pairs@.len() ==> (#[trigger] idx@[k]) < roots@.len() && roots@[idx@[k] as int] == pairs@[k].1,
            forall|i: int| 0 <= i < roots@.len() ==> is_root_of(pairs@, #[trigger] roots@[i]),
        ensures
            final(self).wf(),
            final(self).nodes == old(self).nodes,
            final(self).depth == old(self).depth,
            maps_candidates(r@, cands@),
            forall|c: usize| #[trigger] r@.contains_key(c) ==> r@[c] == through_in(old(self).adj(), pairs@, super_root, c),
    {
        let ghost old_self = *self;
        let ghost adj = self.adj();
        let n = self.n;
        let mut betweenness_counts: Vec<usize> = vec![0usize; n];
        let mut candidate_filter: Vec<bool> = vec![false; n];
        let mut q: usize = 0;
        while q < cands.len()
            invariant
                candidate_filter@.len() == n,
                forall|k: int| 0 <= k < cands@.len() ==> (#[trigger] cands@[k]).0 < n,
            decreases cands@.len() - q,
        {
            candidate_filter.set(cands[q].0, true);
            q += 1;
        }
        proof {
            assert forall|i: int| 0 <= i < roots@.len() && super_root != Some(#[trigger] roots@[i]) implies roots@[i] < old_self.n by {
                assert(is_root_of(pairs@, roots@[i]));
                let k = choose|k: int| 0 <= k < pairs@.len() && pairs@[k].1 == roots@[i];
                assert(ordinary(super_root, pairs@[k]));
            }
        }
        let cache = self.root_distances(roots, super_root);
        let mut q: usize = 0;
        while q < cands.len()
            invariant
                self.wf(),
                self.nodes == old_self.nodes,
                self.depth == old_self.depth,
                self.n == n,
                adj == self.adj(),
                n == adj.len(),
                q <= cands@.len(),
                betweenness_counts@.len() == n,
                cache@.len() == roots@.len(),
                idx@.len() == pairs@.len(),
                forall|k: int| 0 <= k < cands@.len() ==> (#[trigger] cands@[k]).0 < n,
                forall|k: int|
                    0 <= k < pairs@.len() && ordinary(super_root, #[trigger] pairs@[k]) ==> pairs@[k].0 < n && pairs@[k].1 < n,
                forall|k: int| 0 <= k < pairs@.len() ==> (#[trigger] idx@[k]) < roots@.len() && roots@[idx@[k] as int] == pairs@[k].1,
                forall|i: int| 0 <= i < roots@.len() && super_root != Some(#[trigger] roots@[i]) ==> distances_from(adj, roots@[i], cache@[i]@),
                forall|j: int|
                    0 <= j < q ==> through_in(adj, pairs@, super_root, (#[trigger] cands@[j]).0) == betweenness_counts@[cands@[j].0 as int],
            decreases cands@.len() - q,
        {
            let c = cands[q].0;
            self.compute_distances_from_internal(c);
            let mut current: usize = 0;
            let mut k: usize = 0;
            let ghost pt = through_pred(adj, super_root, c);
            proof {
                lemma_take_none(pairs@, pt);
                assert(walk_from(adj, c, self.distances@, self.generations@, self.generation));
            }
            while k < pairs.len()
                invariant
                    self.wf(),
                    self.nodes == old_self.nodes,
                    self.depth == old_self.depth,
                    self.n == n,
                    adj == self.adj(),
                    n == adj.len(),
                    c < n,
                    k <= pairs@.len(),
                    cache@.len() == roots@.len(),
                    idx@.len() == pairs@.len(),
                    forall|k: int|
                        0 <= k < pairs@.len() && ordinary(super_root, #[trigger] pairs@[k]) ==> pairs@[k].0 < n && pairs@[k].1 < n,
                    forall|k: int| 0 <= k < pairs@.len() ==> (#[trigger] idx@[k]) < roots@.len() && roots@[idx@[k] as int] == pairs@[k].1,
                    forall|i: int| 0 <= i < roots@.len() && super_root != Some(#[trigger] roots@[i]) ==> distances_from(adj, roots@[i], cache@[i]@),
                    walk_from(adj, c, self.distances@, self.generations@, self.generation),
                    pt == through_pred(adj, super_root, c),
                    pairs@.take(k as int).filter(pt).len() == current,
                    current <= k,
                decreases pairs@.len() - k,
            {
                let t = pairs[k].0;
                let r = pairs[k].1;
                let ghost hit = false;
                if !is_super(super_root, r) {
                    let dr = &cache[idx[k]];
                    proof {
                        assert(ordinary(super_root, pairs@[k as int]));
                        assert(distances_from(adj, roots@[idx@[k as int] as int], cache@[idx@[k as int] as int]@));
                        lemma_hit_candidate(adj, super_root, dr@, self.distances@, self.generations@, self.generation, c, t, r);
                    }
                    let d_rc = dr[c];
                    if d_rc >= 0 {
                        let d_rt = dr[t];
                        let d_ct = self.distances[t];
                        if d_rt >= 0 && self.generations[t] == self.generation && d_rt as i64 == d_rc as i64 + d_ct as i64 {
                            current += 1;
                        }
                    }
                }
                proof {
                    assert(pairs@[k as int] == (t, r));
                    assert(pt((t, r)) == through(adj, super_root, c, (t, r)));
                    if !ordinary(super_root, (t, r)) {
                        assert(!through(adj, super_root, c, (t, r)));
                    }
                    lemma_take_filter(pairs@, k as int, pt);
                }
                k += 1;
            }
            proof {
                assert(pairs@.take(pairs@.len() as int) =~= pairs@);
            }
            betweenness_counts.set(c, current);
            proof {
                assert forall|j: int| 0 <= j < q + 1 implies through_in(adj, pairs@, super_root, (#[trigger] cands@[j]).0)
                    == betweenness_counts@[cands@[j].0 as int] by {
                }
            }
            q += 1;
        }
        let r = build_map(cands, &betweenness_counts);
        proof {
            assert forall|c: usize| #[trigger] r@.contains_key(c) implies r@[c] == through_in(adj, pairs@, super_root, c) by {
                let f = |p: (usize, usize)| p.0;
                assert(cands@.map_values(f).contains(c));
                let j = choose|j: int| 0 <= j < cands@.len() && cands@.map_values(f)[j] == c;
                assert(cands@[j].0 == c);
            }
        }
        r
    }
}

/// The test of the terminal-centric count on the candidate `x`, after a
/// walk from the terminal `t` whose root has distances `dr`.
pub open spec fn terminal_hit(dr: Seq<i32>, dt: Seq<i32>, gens: Seq<u16>, g: u16, t: usize, x: usize) -> bool {
    &&& dr[x as int] >= 0
    &&& gens[x as int] == g
    &&& dr[t as int] == dr[x as int] + dt[x as int]
}

/// With the distances from the root `r` and those of a walk from the
/// terminal `t`, when the root reaches the terminal, the test on a
/// candidate `c` holds exactly for the pairs with a shortest path through
/// `c`; a pair whose root does not reach the terminal has no shortest path
/// through any node.
proof fn lemma_hit_terminal(
    adj: Seq<Seq<u32>>,
    sr: Option<usize>,
    dr: Seq<i32>,
    dt: Seq<i32>,
    gens: Seq<u16>,
    g: u16,
    c: usize,
    t: usize,
    r: usize,
)
    requires
        graph_wf(adj),
        c < adj.len(),
        t < adj.len(),
        r < adj.len(),
        ordinary(sr, (t, r)),
        distances_from(adj, r, dr),
        walk_from(adj, t, dt, gens, g),
    ensures
        through(adj, sr, c, (t, r)) ==> dr[t as int] >= 0 && terminal_hit(dr, dt, gens, g, t, c),
        dr[t as int] >= 0 && terminal_hit(dr, dt, gens, g, t, c) ==> through(adj, sr, c, (t, r)),
{
    if through(adj, sr, c, (t, r)) {
        let (d1, d2) = choose|d1: nat, d2: nat|
            #![trigger is_dist(adj, r as int, c as int, d1), is_dist(adj, c as int, t as int, d2)]
            is_dist(adj, r as int, c as int, d1) && is_dist(adj, c as int, t as int, d2) && is_dist(adj, r as int, t as int, d1 + d2);
        lemma_within_connected(adj, r as int, c as int, d1);
        lemma_within_connected(adj, c as int, t as int, d2);
        lemma_connected_sym(adj, c as int, t as int);
        assert(gens[c as int] == g);
        lemma_dist_sym(adj, c as int, t as int, d2);
        lemma_dist_unique(adj, r as int, c as int, d1, dr[c as int] as nat);
        lemma_dist_unique(adj, t as int, c as int, d2, dt[c as int] as nat);
        lemma_dist_unique(adj, r as int, t as int, d1 + d2, dr[t as int] as nat);
    }
    if dr[t as int] >= 0 && terminal_hit(dr, dt, gens, g, t, c) {
        assert(connected(adj, t as int, c as int));
        lemma_connected_sym(adj, t as int, c as int);
        let d2 = dt[c as int] as nat;
        lemma_dist_sym(adj, t as int, c as int, d2);
        assert(connected(adj, r as int, t as int));
        {
            lemma_connected_trans(adj, r as int, t as int, c as int);
            let d1 = dr[c as int] as nat;
            assert(is_dist(adj, r as int, c as int, d1));
            assert(is_dist(adj, c as int, t as int, d2));
            assert(is_dist(adj, r as int, t as int, d1 + d2));
        }
    }
}

impl IDTree {
    /// Betweenness by triangle equality, one walk per terminal: each
    /// candidate entry counts each pair `(terminal, root)` for which the
    /// distance from the root to the terminal is the distance from the root
    /// to the candidate plus that from the candidate to the terminal. Pairs
    /// of the super root are left out.
    fn grouped_terminal_centric(
        &mut self,
        cands: &[(usize, usize)],
        pairs: &Vec<(usize, usize)>,
        roots: &Vec<usize>,
        idx: &Vec<usize>,
        super_root: Option<usize>,
    ) -> (r: IntMap<usize, usize>)
        requires
            old(self).wf(),
            pairs@.len() * cands@.len() <= usize::MAX,
            forall|k: int| 0 <= k < cands@.len() ==> (#[trigger] cands@[k]).0 < old(self).n,
            forall|k: int|
                0 <= k < pairs@.len() && ordinary(super_root, #[trigger] pairs@[k]) ==> pairs@[k].0 < old(self).n
                    && pairs@[k].1 < old(self).n,
            idx@.len() == pairs@.len(),
            forall|k: int| 0 <= k < pairs@.len() ==> (#[trigger] idx@[k]) < roots@.len() && roots@[idx@[k] as int] == pairs@[k].1,
            forall|i: int| 0 <= i < roots@.len() ==> is_root_of(pairs@, #[trigger] roots@[i]),
        ensures
            final(self).wf(),
            final(self).nodes == old(self).nodes,
            final(self).depth == old(self).depth,
            maps_candidates(r@, cands@),
            forall|c: usize|
                #[trigger] r@.contains_key(c) ==> r@[c] == multiplicity(cands@, c) * through_in(old(self).adj(), pairs@, super_root, c),
    {
        let ghost old_self = *self;
        let ghost adj = self.adj();
        let n = self.n;
        let mut betweenness_counts: Vec<usize> = vec![0usize; n];
        let mut candidate_filter: Vec<bool> = vec![false; n];
        let mut q: usize = 0;
        while q < cands.len()
            invariant
                candidate_filter@.len() == n,
                forall|k: int| 0 <= k < cands@.len() ==> (#[trigger] cands@[k]).0 < n,
            decreases cands@.len() - q,
        {
            candidate_filter.set(cands[q].0, true);
            q += 1;
        }
        proof {
            assert forall|i: int| 0 <= i < roots@.len() && super_root != Some(#[trigger] roots@[i]) implies roots@[i] < old_self.n by {
                assert(is_root_of(pairs@, roots@[i]));
                let k = choose|k: int| 0 <= k < pairs@.len() && pairs@[k].1 == roots@[i];
                assert(ordinary(super_root, pairs@[k]));
            }
        }
        let cache = self.root_distances(roots, super_root);
        let mut k: usize = 0;
        proof {
            assert forall|x: usize| x < n implies multiplicity(cands@, x) * through_in(adj, pairs@.take(0), super_root, x)
                == #[trigger] betweenness_counts@[x as int] && betweenness_counts@[x as int] <= multiplicity(cands@, x) * 0 by {
                lemma_take_none(pairs@, through_pred(adj, super_root, x));
            }
        }
        while k < pairs.len()
            invariant
                self.wf(),
                self.nodes == old_self.nodes,
                self.depth == old_self.depth,
                self.n == n,
                adj == self.adj(),
                n == adj.len(),
                k <= pairs@.len(),
                pairs@.len() * cands@.len() <= usize::MAX,
                betweenness_counts@.len() == n,
                cache@.len() == roots@.len(),
                idx@.len() == pairs@.len(),
                forall|k: int| 0 <= k < cands@.len() ==> (#[trigger] cands@[k]).0 < n,
                forall|k: int|
                    0 <= k < pairs@.len() && ordinary(super_root, #[trigger] pairs@[k]) ==> pairs@[k].0 < n && pairs@[k].1 < n,
                forall|k: int| 0 <= k < pairs@.len() ==> (#[trigger] idx@[k]) < roots@.len() && roots@[idx@[k] as int] == pairs@[k].1,
                forall|i: int| 0 <= i < roots@.len() && super_root != Some(#[trigger] roots@[i]) ==> distances_from(adj, roots@[i], cache@[i]@),
                forall|x: usize|
                    x < n ==> multiplicity(cands@, x) * through_in(adj, pairs@.take(k as int), super_root, x)
                        == #[trigger] betweenness_counts@[x as int] && betweenness_counts@[x as int]
                        <= multiplicity(cands@, x) * k,
            decreases pairs@.len() - k,
        {
            let t = pairs[k].0;
            let r = pairs[k].1;
            let ghost base = betweenness_counts@;
            let ghost mut hits: spec_fn(usize) -> bool = |x: usize| false;
            let ghost mut dt_g: Seq<i32> = Seq::empty();
            let ghost mut gens_g: Seq<u16> = Seq::empty();
            let ghost mut g_g: u16 = 0;
            if !is_super(super_root, r) {
                let dr = &cache[idx[k]];
                proof {
                    assert(ordinary(super_root, pairs@[k as int]));
                    assert(distances_from(adj, roots@[idx@[k as int] as int], cache@[idx@[k as int] as int]@));
                }
                let d_rt = dr[t];
                if d_rt >= 0 {
                    self.compute_distances_from_internal(t);
                    proof {
                        assert(walk_from(adj, t, self.distances@, self.generations@, self.generation));
                        dt_g = self.distances@;
                        gens_g = self.generations@;
                        g_g = self.generation;
                        hits = |x: usize| terminal_hit(dr@, dt_g, gens_g, g_g, t, x);
                    }
                    let mut j: usize = 0;
                    while j < cands.len()
                        invariant
                            self.wf(),
                            self.n == n,
                            n == adj.len(),
                            j <= cands@.len(),
                            t < n,
                            dr@.len() == n,
                            d_rt == dr@[t as int],
                            betweenness_counts@.len() == n,
                            base.len() == n,
                            pairs@.len() * cands@.len() <= usize::MAX,
                            k < pairs@.len(),
                            forall|k: int| 0 <= k < cands@.len() ==> (#[trigger] cands@[k]).0 < n,
                            forall|x: usize| x < n ==> #[trigger] base[x as int] <= multiplicity(cands@, x) * k,
                            self.distances@ == dt_g,
                            self.generations@ == gens_g,
                            self.generation == g_g,
                            walk_from(adj, t, dt_g, gens_g, g_g),
                            hits == (|x: usize| terminal_hit(dr@, dt_g, gens_g, g_g, t, x)),
                            forall|x: usize|
                                x < n ==> #[trigger] betweenness_counts@[x as int] == base[x as int] + cands@.take(j as int).filter(
                                    is_cand(x),
                                ).len() * (if hits(x) { 1int } else { 0 }),
                        decreases cands@.len() - j,
                    {
                        let c = cands[j].0;
                        let d_rc = dr[c];
                        let d_ct = self.distances[c];
                        proof {
                            lemma_take_filter(cands@, j as int, is_cand(c));
                            cands@.lemma_filter_take_len(is_cand(c), j as int + 1);
                            let m = multiplicity(cands@, c);
                            assert(m <= cands@.len());
                            assert(m * k + m <= pairs@.len() * cands@.len()) by (nonlinear_arith)
                                requires
                                    m <= cands@.len(),
                                    k < pairs@.len(),
                            ;
                        }
                        if d_rc >= 0 && self.generations[c] == self.generation && d_rt as i64 == d_rc as i64 + d_ct as i64 {
                            betweenness_counts.set(c, betweenness_counts[c] + 1);
                        }
                        proof {
                            assert forall|x: usize| x < n implies #[trigger] betweenness_counts@[x as int] == base[x as int] + cands@.take(
                                j as int + 1,
                            ).filter(is_cand(x)).len() * (if hits(x) { 1int } else { 0 }) by {
                                lemma_take_filter(cands@, j as int, is_cand(x));
                                if x != c {
                                    assert(!is_cand(x)(cands@[j as int]));
                                }
                            }
                        }
                        j += 1;
                    }
                    proof {
                        assert(cands@.take(cands@.len() as int) =~= cands@);
                    }
                }
            }
            proof {
                assert(pairs@[k as int] == (t, r));
                assert forall|x: usize| x < n implies multiplicity(cands@, x) * through_in(adj, pairs@.take(k + 1), super_root, x)
                    == #[trigger] betweenness_counts@[x as int] && betweenness_counts@[x as int] <= multiplicity(cands@, x) * (k + 1) by {
                    let m = multiplicity(cands@, x);
                    let a = through_in(adj, pairs@.take(k as int), super_root, x);
                    lemma_take_filter(pairs@, k as int, through_pred(adj, super_root, x));
                    let tp = through(adj, super_root, x, (t, r));
                    assert(through_pred(adj, super_root, x)((t, r)) == tp);
                    let h: int = if !ordinary(super_root, (t, r)) || cache@[idx@[k as int] as int]@[t as int] < 0 { 0 } else if hits(x) { 1 } else { 0 };
                    if ordinary(super_root, (t, r)) {
                        let dr = cache@[idx@[k as int] as int]@;
                        assert(distances_from(adj, r, dr));
                        if dr[t as int] >= 0 {
                            lemma_hit_terminal(adj, super_root, dr, dt_g, gens_g, g_g, x, t, r);
                        } else if tp {
                            assert(connected(adj, r as int, t as int));
                        }
                        assert(cands@.take(cands@.len() as int) =~= cands@);
                    }
                    assert(betweenness_counts@[x as int] == base[x as int] + m * h);
                    assert(tp ==> h == 1);
                    assert(h == 1 ==> tp);
                    let a2: int = a + if tp { 1int } else { 0 };
                    assert(m * a == base[x as int] && base[x as int] <= m * k);
                    assert(m * a2 == base[x as int] + m * h && base[x as int] + m * h <= m * (k + 1)) by (nonlinear_arith)
                        requires
                            m * a == base[x as int],
                            base[x as int] <= m * k,
                            a2 == a + (if tp { 1int } else { 0 }),
                            tp ==> h == 1,
                            h == 1 ==> tp,
                            h == 0 || h == 1,
                            m >= 0,
                    ;
                }
            }
            k += 1;
        }
        proof {
            assert(pairs@.take(pairs@.len() as int) =~= pairs@);
        }
        let r = build_map(cands, &betweenness_counts);
        proof {
            assert forall|c: usize| #[trigger] r@.contains_key(c) implies r@[c] == multiplicity(cands@, c) * through_in(adj, pairs@, super_root, c) by {
                let f = |p: (usize, usize)| p.0;
                assert(cands@.map_values(f).contains(c));
                let j = choose|j: int| 0 <= j < cands@.len() && cands@.map_values(f)[j] == c;
                assert(cands@[j].0 == c);
            }
        }
        r
    }
}

/// Adds one to the count of every candidate on `path`.
fn count_path(m: &mut IntMap<usize, usize>, path: &Vec<usize>)
    requires
        path@.no_duplicates(),
        forall|c: usize| #[trigger] old(m)@.contains_key(c) ==> old(m)@[c] < usize::MAX,
    ensures
        final(m)@.dom() == old(m)@.dom(),
        forall|c: usize| #[trigger] final(m)@.contains_key(c) ==> final(m)@[c] == old(m)@[c] + (if path@.contains(c) { 1int } else { 0 }),
{
    let ghost m0 = m@;
    let mut i: usize = 0;
    while i < path.len()
        invariant
            i <= path@.len(),
            path@.no_duplicates(),
            m@.dom() == m0.dom(),
            forall|c: usize| #[trigger] m0.contains_key(c) ==> m0[c] < usize::MAX,
            forall|c: usize| #[trigger] m@.contains_key(c) ==> m@[c] == m0[c] + (if path@.take(i as int).contains(c) { 1int } else { 0 }),
        decreases path@.len() - i,
    {
        let node = path[i];
        let ghost before = m@;
        match id_map_get(m, node) {
            Some(count) => {
                proof {
                    if path@.take(i as int).contains(node) {
                        let j = choose|j: int| 0 <= j < i && path@.take(i as int)[j] == node;
                        assert(path@[j] == path@[i as int]);
                    }
                }
                id_map_insert(m, node, count + 1);
            },
            None => {},
        }
        proof {
            assert(path@.take(i as int + 1) =~= path@.take(i as int).push(node));
            assert forall|c: usize| #[trigger] m@.contains_key(c) implies m@[c] == m0[c] + (if path@.take(i as int + 1).contains(c) { 1int } else { 0 }) by {
                crate::counting::lemma_push_to_set(path@.take(i as int), node);
                assert(path@.take(i as int + 1).to_set().contains(c) == path@.take(i as int + 1).contains(c));
                assert(path@.take(i as int).to_set().contains(c) == path@.take(i as int).contains(c));
            }
            assert(m@.dom() =~= m0.dom());
        }
        i += 1;
    }
    proof {
        assert(path@.take(path@.len() as int) =~= path@);
    }
}

/// A node on a path returned by `shortest_path` lies on a shortest path
/// between its ends, and such a path visits no node twice.
proof fn lemma_on_returned_path(adj: Seq<Seq<u32>>, p: Seq<usize>, s: usize, t: usize, c: usize)
    requires
        is_path(adj, ids_path(p), s as int, t as int),
        is_dist(adj, s as int, t as int, (p.len() - 1) as nat),
    ensures
        p.no_duplicates(),
        p.contains(c) ==> on_shortest(adj, s as int, c as int, t as int),
        p.contains(s),
        p.contains(t),
{
    let q = ids_path(p);
    lemma_shortest_path_nodes(adj, q, s as int, t as int, 0);
    assert forall|i: int, j: int| 0 <= i < j < p.len() implies p[i] != p[j] by {
        assert(q[i] != q[j]);
    }
    if p.contains(c) {
        let i = choose|i: int| 0 <= i < p.len() && p[i] == c;
        lemma_shortest_path_nodes(adj, q, s as int, t as int, i);
    }
    assert(p[0] as int == q[0]);
    assert(p[p.len() - 1] as int == q[q.len() - 1]);
}

impl IDTree {
    /// Betweenness by one shortest path per pair: for each pair `(terminal,
    /// root)` the candidates on the shortest path that `shortest_path`
    /// returns from the root to the terminal count it; each terminal of the
    /// super root instead counts the path returned from it to every base
    /// town.
    fn compute_subset_betweenness_pairwise(
        &mut self,
        cands: &[(usize, usize)],
        pairs: &Vec<(usize, usize)>,
        base: &Vec<usize>,
        super_root: Option<usize>,
    ) -> (r: IntMap<usize, usize>)
        requires
            old(self).wf(),
            pairs@.len() * (base@.len() + 1) <= usize::MAX,
        ensures
            final(self).wf(),
            final(self).same_trees(old(self)),
            maps_candidates(r@, cands@),
            forall|c: usize|
                #[trigger] r@.contains_key(c) ==> ends_in(old(self).adj(), pairs@, super_root, c) + super_ends(
                    old(self).adj(),
                    pairs@,
                    base@,
                    super_root,
                    c,
                ) <= r@[c] <= through_in(old(self).adj(), pairs@, super_root, c) + super_in(pairs@, super_root)
                    * base@.len(),
            forall|c: usize| #[trigger] r@.contains_key(c) ==> r@[c] == path_count(old(self).adj(), pairs@, base@, super_root, c),
            forall|k: int|
                0 <= k < pairs@.len() && ordinary(super_root, pairs@[k]) && pairs@[k].0 < old(self).num_nodes() && pairs@[k].1
                    < old(self).num_nodes() && connected(old(self).adj(), pairs@[k].1 as int, pairs@[k].0 as int)
                    ==> #[trigger] bfs_shortest(old(self).adj(), pairs@[k].1, pairs@[k].0),
    {
        let ghost old_self = *self;
        let ghost adj = self.adj();
        let ghost bl = base@.len() as int;
        let mut m = zero_counts(cands);
        let mut k: usize = 0;
        proof {
            assert forall|c: usize| #[trigger] m@.contains_key(c) implies ends_in(adj, pairs@.take(0), super_root, c)
                + super_ends(adj, pairs@.take(0), base@, super_root, c) <= m@[c]
                <= through_in(adj, pairs@.take(0), super_root, c) + super_in(pairs@.take(0), super_root) * bl by {
                lemma_take_none(pairs@, ends_pred(adj, super_root, c));
                lemma_take_none(pairs@, through_pred(adj, super_root, c));
                lemma_take_none(pairs@, super_pred(super_root));
            }
            assert forall|c: usize| #[trigger] m@.contains_key(c) implies m@[c] == path_count(adj, pairs@.take(0), base@, super_root, c) by {
                assert(pairs@.take(0).len() == 0);
            }
        }
        while k < pairs.len()
            invariant
                self.wf(),
                self.same_trees(&old_self),
                adj == self.adj(),
                k <= pairs@.len(),
                bl == base@.len(),
                pairs@.len() * (bl + 1) <= usize::MAX,
                maps_candidates(m@, cands@),
                forall|c: usize|
                    #[trigger] m@.contains_key(c) ==> ends_in(adj, pairs@.take(k as int), super_root, c) + super_ends(
                        adj,
                        pairs@.take(k as int),
                        base@,
                        super_root,
                        c,
                    ) <= m@[c] <= through_in(adj, pairs@.take(k as int), super_root, c) + super_in(
                        pairs@.take(k as int),
                        super_root,
                    ) * bl,
                forall|c: usize| #[trigger] m@.contains_key(c) ==> m@[c] == path_count(adj, pairs@.take(k as int), base@, super_root, c),
                forall|kk: int|
                    0 <= kk < k && ordinary(super_root, pairs@[kk]) && pairs@[kk].0 < adj.len() && pairs@[kk].1 < adj.len()
                        && connected(adj, pairs@[kk].1 as int, pairs@[kk].0 as int) ==> #[trigger] bfs_shortest(adj, pairs@[kk].1, pairs@[kk].0),
            decreases pairs@.len() - k,
        {
            let t = pairs[k].0;
            let r = pairs[k].1;
            let ghost m0 = m@;
            proof {
                assert forall|c: usize| #[trigger] m0.contains_key(c) implies m0[c] <= k * (bl + 1) by {
                    let a = through_in(adj, pairs@.take(k as int), super_root, c);
                    let b = super_in(pairs@.take(k as int), super_root);
                    assert(a <= k && b <= k);
                    assert(a + b * bl <= k * (bl + 1)) by (nonlinear_arith)
                        requires
                            a <= k,
                            b <= k,
                            bl >= 0,
                    ;
                }
                assert(k * (bl + 1) + bl + 1 <= pairs@.len() * (bl + 1)) by (nonlinear_arith)
                    requires
                        k < pairs@.len(),
                        bl >= 0,
                ;
            }
            if is_super(super_root, r) {
                let mut i: usize = 0;
                while i < base.len()
                    invariant
                        self.wf(),
                        self.same_trees(&old_self),
                        adj == self.adj(),
                        i <= base@.len(),
                        bl == base@.len(),
                        k < pairs@.len(),
                        pairs@.len() * (bl + 1) <= usize::MAX,
                        k * (bl + 1) + bl + 1 <= pairs@.len() * (bl + 1),
                        m@.dom() == m0.dom(),
                        forall|c: usize| #[trigger] m0.contains_key(c) ==> m0[c] <= k * (bl + 1),
                        forall|c: usize|
                            #[trigger] m@.contains_key(c) ==> m0[c] + base@.take(i as int).filter(town_pred(adj, t, c)).len()
                                <= m@[c] <= m0[c] + i,
                        forall|c: usize|
                            #[trigger] m@.contains_key(c) ==> m@[c] == m0[c] + base@.take(i as int).filter(town_hit(adj, t, c)).len(),
                    decreases base@.len() - i,
                {
                    let ghost mb = m@;
                    let found = self.shortest_path(t, base[i]);
                    if let Some(path) = found {
                        proof {
                            lemma_on_returned_path(adj, path@, t, base@[i as int], t);
                        }
                        count_path(&mut m, &path);
                        proof {
                            assert forall|c: usize| #[trigger] m@.contains_key(c) implies (town_pred(adj, t, c)(base@[i as int]) ==> m@[c]
                                == mb[c] + 1) by {
                                lemma_on_returned_path(adj, path@, t, base@[i as int], c);
                            }
                        }
                    }
                    proof {
                        assert forall|c: usize| #[trigger] m@.contains_key(c) implies m@[c] == mb[c] + (if walk_hits(adj, t, base@[i as int], c) { 1int } else { 0 }) by {
                            assert(mb.contains_key(c));
                        }
                        assert forall|c: usize| #[trigger] m@.contains_key(c) implies m0[c] + base@.take(i + 1).filter(
                            town_pred(adj, t, c),
                        ).len() <= m@[c] <= m0[c] + i + 1 by {
                            lemma_take_filter(base@, i as int, town_pred(adj, t, c));
                            assert(mb.contains_key(c));
                        }
                        assert forall|c: usize| #[trigger] m@.contains_key(c) implies m@[c] == m0[c] + base@.take(i + 1).filter(
                            town_hit(adj, t, c),
                        ).len() by {
                            lemma_take_filter(base@, i as int, town_hit(adj, t, c));
                            assert(mb.contains_key(c));
                            assert(town_hit(adj, t, c)(base@[i as int]) == walk_hits(adj, t, base@[i as int], c));
                        }
                    }
                    i += 1;
                }
                proof {
                    assert(base@.take(bl) =~= base@);
                }
            } else {
                let ghost mb0 = m@;
                let found = self.shortest_path(r, t);
                if let Some(path) = found {
                    proof {
                        lemma_on_returned_path(adj, path@, r, t, r);
                        assert(bfs_shortest(adj, r, t));
                    }
                    let ghost mb = m@;
                    count_path(&mut m, &path);
                    proof {
                        assert forall|c: usize| #[trigger] m@.contains_key(c) implies (ends_at(adj, super_root, c, (t, r)) ==> m@[c] == mb[c] + 1)
                            && (m@[c] == mb[c] + 1 ==> through(adj, super_root, c, (t, r))) && m@[c] <= mb[c] + 1 by {
                            lemma_on_returned_path(adj, path@, r, t, c);
                        }
                        assert forall|c: usize| #[trigger] m@.contains_key(c) implies m@[c] == mb0[c] + (if walk_hits(adj, r, t, c) { 1int } else { 0 }) by {
                            assert(mb.contains_key(c));
                        }
                    }
                } else {
                    proof {
                        assert forall|c: usize| #[trigger] m@.contains_key(c) implies m@[c] == mb0[c] + (if walk_hits(adj, r, t, c) { 1int } else { 0 }) by {
                        }
                    }
                }
            }
            proof {
                assert(pairs@[k as int] == (t, r));
                assert forall|kk: int|
                    0 <= kk < k + 1 && ordinary(super_root, pairs@[kk]) && pairs@[kk].0 < adj.len() && pairs@[kk].1 < adj.len()
                        && connected(adj, pairs@[kk].1 as int, pairs@[kk].0 as int) implies #[trigger] bfs_shortest(adj, pairs@[kk].1, pairs@[kk].0) by {
                }
                assert forall|c: usize| #[trigger] m@.contains_key(c) implies m@[c] == path_count(adj, pairs@.take(k + 1), base@, super_root, c) by {
                    assert(pairs@.take(k + 1).drop_last() =~= pairs@.take(k as int));
                    assert(pairs@.take(k + 1).last() == (t, r));
                    assert(m0.contains_key(c));
                }
                assert forall|c: usize| #[trigger] m@.contains_key(c) implies ends_in(adj, pairs@.take(k + 1), super_root, c)
                    + super_ends(adj, pairs@.take(k + 1), base@, super_root, c) <= m@[c]
                    <= through_in(adj, pairs@.take(k + 1), super_root, c) + super_in(pairs@.take(k + 1), super_root) * bl by {
                    lemma_take_filter(pairs@, k as int, ends_pred(adj, super_root, c));
                    lemma_take_filter(pairs@, k as int, through_pred(adj, super_root, c));
                    lemma_take_filter(pairs@, k as int, super_pred(super_root));
                    assert(pairs@.take(k + 1).drop_last() =~= pairs@.take(k as int));
                    assert(pairs@.take(k + 1).last() == (t, r));
                    assert(ends_pred(adj, super_root, c)((t, r)) == ends_at(adj, super_root, c, (t, r)));
                    assert(through_pred(adj, super_root, c)((t, r)) == through(adj, super_root, c, (t, r)));
                    assert(super_pred(super_root)((t, r)) == !ordinary(super_root, (t, r)));
                    let e = ends_in(adj, pairs@.take(k as int), super_root, c);
                    let a = through_in(adj, pairs@.take(k as int), super_root, c);
                    let b = super_in(pairs@.take(k as int), super_root);
                    if !ordinary(super_root, (t, r)) {
                        assert(m0[c] <= a + b * bl);
                        assert(a + b * bl + bl == a + (b + 1) * bl) by (nonlinear_arith);
                    }
                }
            }
            k += 1;
        }
        proof {
            assert(pairs@.take(pairs@.len() as int) =~= pairs@);
        }
        m
    }
}

impl IDTree {
    /// Betweenness of the removal candidates over the terminal pairs
    /// `(terminal, root)` in the graph of the ID-Tree (undirected,
    /// unweighted): how many pairs have a shortest path through each
    /// candidate. Each candidate is mapped to its count.
    ///
    /// With no candidate or no pair every count is zero. When there are
    /// fewer roots and candidates together than pairs, the pairs of the
    /// super root are left out and a pair counts for a candidate when the
    /// distances through it add up (one walk per terminal when there are
    /// fewer pairs than candidates, and then each candidate entry counts;
    /// else one walk per candidate). Otherwise each pair counts for the
    /// candidates on the shortest path that `shortest_path` returns from its
    /// root to its terminal, and each terminal of the super root for those
    /// on the path returned from it to each base town.
    pub fn compute_subset_betweenness(
        &mut self,
        removal_candidates: &[(usize, usize)],
        affected_terminals: &RapidHashSet<(usize, usize)>,
        affected_base_towns: &IntSet<usize>,
        super_root: Option<usize>,
    ) -> (r: IntMap<usize, usize>)
        requires
            old(self).wf(),
            removal_candidates@.len() > 0 && affected_terminals@.len() > 0 ==> affected_terminals@.len() * (
            removal_candidates@.len() + affected_base_towns@.len() + 1) <= usize::MAX,
            removal_candidates@.len() > 0 && affected_terminals@.len() > 0 && (roots_of(affected_terminals@).len() + removal_candidates@.len() < affected_terminals@.len()) ==> (forall|k: int| 0 <= k < removal_candidates@.len() ==> (#[trigger] removal_candidates@[k]).0 < old(self).num_nodes())
                && (forall|p: (usize, usize)| #[trigger] affected_terminals@.contains(p) && ordinary(super_root, p)
                ==> p.0 < old(self).num_nodes() && p.1 < old(self).num_nodes()),
        ensures
            final(self).wf(),
            final(self).same_trees(old(self)),
            maps_candidates(r@, removal_candidates@),
            removal_candidates@.len() == 0 || affected_terminals@.len() == 0 ==> forall|c: usize|
                #[trigger] r@.contains_key(c) ==> r@[c] == 0,
            removal_candidates@.len() > 0 && affected_terminals@.len() > 0 && (roots_of(affected_terminals@).len() + removal_candidates@.len() < affected_terminals@.len()) && affected_terminals@.len() < removal_candidates@.len() ==> forall|c: usize|
                #[trigger] r@.contains_key(c) ==> r@[c] == multiplicity(removal_candidates@, c) * through_count(
                    old(self).adj(),
                    affected_terminals@,
                    super_root,
                    c,
                ),
            removal_candidates@.len() > 0 && affected_terminals@.len() > 0 && (roots_of(affected_terminals@).len() + removal_candidates@.len() < affected_terminals@.len()) && affected_terminals@.len() >= removal_candidates@.len() ==> forall|c: usize|
                #[trigger] r@.contains_key(c) ==> r@[c] == through_count(old(self).adj(), affected_terminals@, super_root, c),
            removal_candidates@.len() > 0 && affected_terminals@.len() > 0 && !(roots_of(affected_terminals@).len() + removal_candidates@.len() < affected_terminals@.len()) ==> exists|ps: Seq<(usize, usize)>, bs: Seq<usize>|
                {
                    &&& #[trigger] ps.to_set() == affected_terminals@
                    &&& ps.no_duplicates()
                    &&& #[trigger] bs.to_set() == affected_base_towns@
                    &&& bs.no_duplicates()
                    &&& forall|c: usize|
                        #[trigger] r@.contains_key(c) ==> end_count(old(self).adj(), affected_terminals@, super_root, c) + super_ends(
                            old(self).adj(),
                            ps,
                            bs,
                            super_root,
                            c,
                        ) <= r@[c] <= through_count(old(self).adj(), affected_terminals@, super_root, c) + super_count(
                            affected_terminals@,
                            super_root,
                        ) * affected_base_towns@.len()
                    &&& forall|c: usize| #[trigger] r@.contains_key(c) ==> r@[c] == path_count(old(self).adj(), ps, bs, super_root, c)
                },
            removal_candidates@.len() > 0 && affected_terminals@.len() > 0 && super_root is None && (forall|i: int, j: int|
                0 <= i < removal_candidates@.len() && 0 <= j < removal_candidates@.len() && #[trigger] removal_candidates@[i].0
                    == #[trigger] removal_candidates@[j].0 ==> i == j) && (forall|p: (usize, usize)|
                #[trigger] affected_terminals@.contains(p) ==> p.0 < old(self).num_nodes() && p.1 < old(self).num_nodes()
                    && unique_shortest(old(self).adj(), p.1 as int, p.0 as int)) ==> forall|c: usize|
                #[trigger] r@.contains_key(c) ==> r@[c] == through_count(old(self).adj(), affected_terminals@, None, c),
    {
        let ghost adj = self.adj();
        let ghost terms = affected_terminals@;
        let ghost cs = removal_candidates@;
        let pairs = pair_elements(affected_terminals);
        proof {
            assert(pairs@.to_set() =~= terms);
            pairs@.unique_seq_to_set();
        }
        if removal_candidates.len() == 0 || pairs.len() == 0 {
            return zero_counts(removal_candidates);
        }
        let base = intset_elements(affected_base_towns);
        proof {
            assert(base@.to_set() =~= affected_base_towns@);
            base@.unique_seq_to_set();
        }
        let (roots, idx) = distinct_roots(&pairs);
        let num_terminals = pairs.len();
        let num_roots = roots.len();
        let num_candidates = removal_candidates.len();
        proof {
            assert(roots@.to_set() =~= roots_of(terms)) by {
                assert forall|x: usize| #[trigger] roots@.to_set().contains(x) <==> roots_of(terms).contains(x) by {
                    if roots@.contains(x) {
                        let k = choose|k: int| 0 <= k < pairs@.len() && pairs@[k].1 == x;
                        assert(pairs@.contains(pairs@[k]));
                        assert(terms.contains(pairs@[k]));
                    }
                    if roots_of(terms).contains(x) {
                        let p = choose|p: (usize, usize)| terms.contains(p) && p.1 == x;
                        assert(pairs@.contains(p));
                        let k = choose|k: int| 0 <= k < pairs@.len() && pairs@[k] == p;
                        assert(pairs@[k].1 == x);
                    }
                }
            }
            roots@.unique_seq_to_set();
            let tl = terms.len();
            let cl = cs.len();
            let bl = affected_base_towns@.len();
            assert(tl + cl <= tl * (cl + bl + 1)) by (nonlinear_arith)
                requires
                    tl >= 1,
                    bl >= 0,
                    cl >= 0,
            ;
            assert(pairs@.len() * cl <= tl * (cl + bl + 1)) by (nonlinear_arith)
                requires
                    pairs@.len() == tl,
                    bl >= 0,
                    cl >= 0,
            ;
            assert(pairs@.len() * (base@.len() + 1) <= tl * (cl + bl + 1)) by (nonlinear_arith)
                requires
                    pairs@.len() == tl,
                    base@.len() == bl,
                    cl >= 0,
            ;
        }
        let use_grouped = (num_roots + num_candidates) < num_terminals;
        let r;
        if use_grouped {
            proof {
                assert forall|k: int| 0 <= k < pairs@.len() && ordinary(super_root, #[trigger] pairs@[k]) implies pairs@[k].0
                    < self.n && pairs@[k].1 < self.n by {
                    assert(pairs@.contains(pairs@[k]));
                }
                assert forall|i: int| 0 <= i < roots@.len() implies is_root_of(pairs@, #[trigger] roots@[i]) by {
                    assert(roots@.contains(roots@[i]));
                }
            }
            if num_terminals < num_candidates {
                r = self.grouped_terminal_centric(removal_candidates, &pairs, &roots, &idx, super_root);
            } else {
                proof {
                    assert forall|i: int| 0 <= i < roots@.len() implies is_root_of(pairs@, #[trigger] roots@[i]) by {
                        assert(roots@.contains(roots@[i]));
                    }
                }
                r = self.grouped_candidate_centric(removal_candidates, &pairs, &roots, &idx, super_root);
            }
        } else {
            r = self.compute_subset_betweenness_pairwise(removal_candidates, &pairs, &base, super_root);
        }
        proof {
            assert forall|c: usize| #[trigger] r@.contains_key(c) implies through_in(adj, pairs@, super_root, c) == through_count(adj, terms, super_root, c)
                && ends_in(adj, pairs@, super_root, c) == end_count(adj, terms, super_root, c)
                && super_in(pairs@, super_root) == super_count(terms, super_root) by {
                lemma_filter_count_set(pairs@, terms, through_pred(adj, super_root, c));
                lemma_filter_count_set(pairs@, terms, ends_pred(adj, super_root, c));
                lemma_filter_count_set(pairs@, terms, super_pred(super_root));
            }
            assert(pairs@.to_set() == terms);
            assert(base@.to_set() == affected_base_towns@);
            if super_root is None && (forall|i: int, j: int|
                0 <= i < cs.len() && 0 <= j < cs.len() && #[trigger] cs[i].0 == #[trigger] cs[j].0 ==> i == j) && (forall|
                p: (usize, usize),
            | #[trigger] terms.contains(p) ==> p.0 < adj.len() && p.1 < adj.len() && unique_shortest(adj, p.1 as int, p.0 as int)) {
                assert forall|c: usize| #[trigger] r@.contains_key(c) implies r@[c] == through_count(adj, terms, None, c) by {
                    if !use_grouped {
                        assert forall|k: int| 0 <= k < pairs@.len() implies #[trigger] unique_pair(adj, pairs@[k]) by {
                            assert(pairs@.contains(pairs@[k]));
                            assert(terms.contains(pairs@[k]));
                        }
                        lemma_path_count_through(adj, pairs@, base@, c);
                    } else if num_terminals < num_candidates {
                        lemma_single_multiplicity(cs, c);
                    }
                }
            }
        }
        r
    }
}

} // verus!
