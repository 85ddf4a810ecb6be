//! Breadth-first walks over the graph of an ID-Tree.
use vstd::prelude::*;
use crate::idtree::IDTree;
use crate::idtree::cycles::reversed_ids;
use crate::forest::SENTINEL;
use crate::graph::{has_edge, graph_wf, is_path, spans, lemma_connected_refl};
use crate::distance::{
    bfs_scan, bfs_run, bfs_chain, bfs_tree, bfs_path, is_dist, bfs_state, bfs_parents, ids_path, lemma_bfs_start, lemma_bfs_visit, lemma_bfs_done_node,
    lemma_bfs_finished, lemma_within_zero, lemma_bfs_facts, lemma_bfs_parents_start,
    lemma_bfs_parents_visit, lemma_bfs_parent_of,
};

verus! {

/// The nodes carrying the mark `g` are exactly those listed in `order`.
#[verifier::opaque]
pub open spec fn marks_order(gens: Seq<u16>, g: u16, order: Seq<usize>, n: int) -> bool {
    forall|x: int| 0 <= x < n ==> (#[trigger] gens[x] == g <==> order.contains(x as usize))
}

pub(crate) proof fn lemma_marks_start(gens: Seq<u16>, g: u16, s: usize, n: int)
    requires
        s < n <= i32::MAX,
        gens.len() == n,
        gens[s as int] == g,
        forall|x: int| 0 <= x < n && x != s ==> #[trigger] gens[x] != g,
    ensures
        marks_order(gens, g, seq![s], n),
{
    reveal(marks_order);
    assert forall|x: int| 0 <= x < n implies (#[trigger] gens[x] == g <==> seq![s].contains(x as usize)) by {
        if x == s as int {
            assert(seq![s][0] == s);
        }
    }
}

pub(crate) proof fn lemma_marks_push(gens: Seq<u16>, g: u16, order: Seq<usize>, n: int, v: usize)
    requires
        marks_order(gens, g, order, n),
        v < n <= i32::MAX,
        gens.len() == n,
    ensures
        marks_order(gens.update(v as int, g), g, order.push(v), n),
        gens[v as int] == g <==> order.contains(v),
{
    reveal(marks_order);
    let o2 = order.push(v);
    let gens2 = gens.update(v as int, g);
    assert forall|x: int| 0 <= x < n implies (#[trigger] gens2[x] == g <==> o2.contains(x as usize)) by {
        if x == v as int {
            assert(o2[o2.len() - 1] == v);
        } else if order.contains(x as usize) {
            let i = choose|i: int| 0 <= i < order.len() && order[i] == x as usize;
            assert(o2[i] == x as usize);
        } else if o2.contains(x as usize) {
            let i = choose|i: int| 0 <= i < o2.len() && o2[i] == x as usize;
            if i < order.len() {
                assert(order[i] == o2[i]);
            }
        }
    }
}

pub(crate) proof fn lemma_marks_read(gens: Seq<u16>, g: u16, order: Seq<usize>, n: int, x: usize)
    requires
        marks_order(gens, g, order, n),
        x < n <= i32::MAX,
    ensures
        gens[x as int] == g <==> order.contains(x),
{
    reveal(marks_order);
}

/// After the neighbors `0..j` of `u` are all listed, listing `v` keeps them
/// listed and lists neighbor `j` too when it is `v`.
pub(crate) proof fn lemma_listed_push(adj: Seq<Seq<u32>>, order: Seq<usize>, u: usize, j: int, v: usize)
    requires
        0 <= j < adj[u as int].len(),
        forall|k: int| 0 <= k < j ==> order.contains(#[trigger] adj[u as int][k] as usize),
        adj[u as int][j] as usize == v || order.contains(adj[u as int][j] as usize),
    ensures
        forall|k: int| 0 <= k < j + 1 ==> order.push(v).contains(#[trigger] adj[u as int][k] as usize),
{
    let o2 = order.push(v);
    assert forall|k: int| 0 <= k < j + 1 implies o2.contains(#[trigger] adj[u as int][k] as usize) by {
        let w = adj[u as int][k] as usize;
        if w == v {
            assert(o2[o2.len() - 1] == v);
        } else {
            let i = choose|i: int| 0 <= i < order.len() && order[i] == w;
            assert(o2[i] == w);
        }
    }
}

impl IDTree {
    /// A shortest path from `start` to `target`, both ends included, found
    /// by a breadth-first walk from `start`; `None` when either end is not a
    /// node or no path joins them.
    pub fn shortest_path(&mut self, start: usize, target: usize) -> (r: Option<Vec<usize>>)
        requires
            old(self).wf(),
        ensures
            final(self).wf(),
            final(self).same_trees(old(self)),
            r is Some <==> (start < old(self).num_nodes() && target < old(self).num_nodes()
                && old(self).is_connected(start as int, target as int)),
            r matches Some(p) ==> is_path(old(self).adj(), ids_path(p@), start as int, target as int)
                && is_dist(old(self).adj(), start as int, target as int, (p@.len() - 1) as nat),
            r matches Some(p) ==> p@ == bfs_path(old(self).adj(), start, target),
    {
        if start >= self.n || target >= self.n {
            return None;
        }
        if start == target {
            let p = vec![start];
            proof {
                lemma_connected_refl(self.adj(), start as int);
                lemma_within_zero(self.adj(), start as int, start as int);
                assert(is_path(self.adj(), ids_path(p@), start as int, target as int));
                let pm0 = Map::<usize, usize>::empty().insert(start, SENTINEL);
                assert(seq![start][0] == target);
                assert(bfs_tree(self.adj(), start, target) == pm0);
                assert(p@ =~= bfs_path(self.adj(), start, target));
            }
            return Some(p);
        }
        let ghost adj = self.adj();
        let ghost n = self.n as int;
        let ghost nodes0 = self.nodes;
        let ghost depth0 = self.depth;
        let g = self.next_generation();
        self.deque_scratch.clear();
        self.vec_scratch_nodes.resize(self.n, SENTINEL);
        self.deque_scratch.push_back(start);
        self.generations.set(start, g);
        self.vec_scratch_nodes.set(start, SENTINEL);
        let ghost mut d: Seq<i32> = Seq::new(n as nat, |i: int| 0i32);
        let ghost mut order: Seq<usize> = seq![start];
        let ghost mut h: int = 0;
        let ghost mut pm: Map<usize, usize> = Map::empty().insert(start, SENTINEL);
        let ghost goal = bfs_run(adj, target, seq![start], pm, 0, n as nat);
        proof {
            lemma_bfs_start(adj, start, d);
            lemma_marks_start(self.generations@, g, start, n);
            lemma_bfs_parents_start(adj, start, d, self.vec_scratch_nodes@);
            assert(self.deque_scratch@ =~= seq![start]);
        }
        let mut next = self.deque_scratch.pop_front();
        proof {
            assert(self.deque_scratch@ =~= order.subrange(1, 1));
        }
        while next.is_some() && next.unwrap() != target
            invariant
                self.core_wf(),
                spans(adj, self.parents(), self.depth@),
                self.adj() == adj,
                self.nodes == nodes0,
                self.depth == depth0,
                n == self.n,
                n == adj.len(),
                start < n,
                target < n,
                self.generation == g,
                self.vec_scratch_nodes@.len() == n,
                bfs_state(adj, start, order, h, d),
                bfs_parents(adj, start, order, d, self.vec_scratch_nodes@),
                marks_order(self.generations@, g, order, n),
                forall|i: int| 0 <= i < h ==> #[trigger] order[i] != target,
                next matches Some(u) ==> h < order.len() && u == order[h] && self.deque_scratch@ == order.subrange(h + 1, order.len() as int),
                next is None ==> h == order.len(),
                bfs_run(adj, target, order, pm, h, (n - h) as nat) == goal,
                goal == bfs_run(adj, target, seq![start], Map::<usize, usize>::empty().insert(start, SENTINEL), 0, n as nat),
                forall|x: usize| #[trigger] pm.contains_key(x) <==> order.contains(x),
                forall|x: usize| order.contains(x) ==> #[trigger] self.vec_scratch_nodes@[x as int] == pm[x],
            decreases n - h,
        {
            proof {
                lemma_bfs_facts(adj, start, order, h, d);
            }
            let u = next.unwrap();
            let deg = self.nodes[u].neighbors.len();
            let ghost order_h = order;
            let ghost pm_h = pm;
            proof {
                assert(self.nodes@[u as int].nbrs() == adj[u as int]);
            }
            let mut j: usize = 0;
            while j < deg
                invariant
                    self.core_wf(),
                    spans(adj, self.parents(), self.depth@),
                    self.adj() == adj,
                    self.nodes == nodes0,
                    self.depth == depth0,
                    n == self.n,
                    n == adj.len(),
                    self.generation == g,
                    self.vec_scratch_nodes@.len() == n,
                    bfs_state(adj, start, order, h, d),
                    bfs_parents(adj, start, order, d, self.vec_scratch_nodes@),
                    marks_order(self.generations@, g, order, n),
                    0 <= h < order.len() <= n,
                    d.len() == n,
                    u == order[h],
                    u < n,
                    u != target,
                    forall|i: int| 0 <= i < h ==> #[trigger] order[i] != target,
                    deg == adj[u as int].len(),
                    self.deque_scratch@ == order.subrange(h + 1, order.len() as int),
                    j <= deg,
                    forall|k: int| 0 <= k < j ==> order.contains(#[trigger] adj[u as int][k] as usize),
                    bfs_scan(adj, u, j as int, order, pm) == bfs_scan(adj, u, 0, order_h, pm_h),
                    forall|x: usize| #[trigger] pm.contains_key(x) <==> order.contains(x),
                    forall|x: usize| order.contains(x) ==> #[trigger] self.vec_scratch_nodes@[x as int] == pm[x],
                decreases deg - j,
            {
                proof {
                    assert(self.nodes@[u as int].nbrs() == adj[u as int]);
                }
                let v = self.nodes[u].neighbors.get(j) as usize;
                proof {
                    assert(graph_wf(adj));
                    assert((adj[u as int][j as int] as int) < adj.len());
                    lemma_marks_read(self.generations@, g, order, n, v);
                }
                if self.generations[v] != g {
                    proof {
                        assert(adj[u as int].contains(v as u32));
                        assert(has_edge(adj, u as int, v as int));
                        lemma_bfs_facts(adj, start, order, h, d);
                        assert forall|x: usize| order.contains(x) implies (x as int) < n by {
                            let i = choose|i: int| 0 <= i < order.len() && order[i] == x;
                            assert((order[i] as int) < adj.len());
                        }
                        lemma_bfs_visit(adj, start, order, h, d, v);
                        lemma_bfs_parents_visit(adj, start, order, h, d, self.vec_scratch_nodes@, v);
                        lemma_marks_push(self.generations@, g, order, n, v);
                        lemma_listed_push(adj, order, u, j as int, v);
                    }
                    let ghost q0 = self.deque_scratch@;
                    let ghost vs0 = self.vec_scratch_nodes@;
                    self.generations.set(v, g);
                    self.vec_scratch_nodes.set(v, u);
                    self.deque_scratch.push_back(v);
                    proof {
                        let o2 = order.push(v);
                        assert(q0 == order.subrange(h + 1, order.len() as int));
                        assert(self.deque_scratch@ == q0.push(v));
                        assert(o2.subrange(h + 1, o2.len() as int) =~= q0.push(v));
                        assert forall|i: int| 0 <= i < h implies #[trigger] o2[i] != target by {
                            assert(o2[i] == order[i]);
                        }
                        d = d.update(v as int, (d[u as int] + 1) as i32);
                        let pm2 = pm.insert(v, u);
                        assert(!order.contains(v));
                        assert(bfs_scan(adj, u, j as int, order, pm) == bfs_scan(adj, u, j + 1, o2, pm2));
                        assert forall|x: usize| #[trigger] pm2.contains_key(x) <==> o2.contains(x) by {
                            if o2.contains(x) && x != v {
                                let i = choose|i: int| 0 <= i < o2.len() && o2[i] == x;
                                assert(order[i] == x);
                            }
                            if order.contains(x) {
                                let i = choose|i: int| 0 <= i < order.len() && order[i] == x;
                                assert(o2[i] == x);
                            }
                            if x == v {
                                assert(o2[o2.len() - 1] == v);
                            }
                        }
                        assert forall|x: usize| o2.contains(x) implies #[trigger] self.vec_scratch_nodes@[x as int] == pm2[x] by {
                            if x != v {
                                let i = choose|i: int| 0 <= i < o2.len() && o2[i] == x;
                                assert(order[i] == x);
                                assert(order.contains(x));
                                assert(vs0[x as int] == pm[x]);
                                assert(self.vec_scratch_nodes@ == vs0.update(v as int, u));
                                assert(x as int != v as int);
                                assert(self.vec_scratch_nodes@[x as int] == vs0[x as int]);
                            } else {
                                assert(self.vec_scratch_nodes@[v as int] == u);
                            }
                        }
                        pm = pm2;
                        order = o2;
                        lemma_bfs_facts(adj, start, order, h, d);
                    }
                } else {
                    proof {
                        assert(order.contains(v));
                        assert(bfs_scan(adj, u, j as int, order, pm) == bfs_scan(adj, u, j + 1, order, pm));
                    }
                }
                j += 1;
            }
            proof {
                lemma_bfs_done_node(adj, start, order, h, d);
                assert(order[h] != target);
                assert(bfs_scan(adj, u, deg as int, order, pm) == (order, pm));
                assert(order_h[h] == u);
                assert(bfs_run(adj, target, order_h, pm_h, h, (n - h) as nat) == bfs_run(adj, target, order, pm, h + 1, (n - h - 1) as nat));
                h = h + 1;
            }
            next = self.deque_scratch.pop_front();
            proof {
                if next is Some {
                    assert(self.deque_scratch@ =~= order.subrange(h + 1, order.len() as int));
                }
            }
        }
        proof {
            lemma_bfs_facts(adj, start, order, h, d);
        }
        if next.is_none() {
            proof {
                lemma_bfs_finished(adj, start, order, d, target as int);
                if order.contains(target) {
                    let i = choose|i: int| 0 <= i < order.len() && order[i] == target;
                    assert(order[i] != target);
                }
            }
            return None;
        }
        proof {
            assert(order.contains(target)) by {
                assert(order[h] == target);
            }
            assert(bfs_run(adj, target, order, pm, h, (n - h) as nat) == (order, pm));
            assert(pm == bfs_tree(adj, start, target));
        }
        let ghost full = bfs_chain(pm, target, n as nat);
        let ghost dt = d[target as int];
        let mut path: Vec<usize> = Vec::with_capacity(32);
        let mut current = target;
        while current != SENTINEL
            invariant
                n == adj.len(),
                self.vec_scratch_nodes@.len() == n,
                bfs_state(adj, start, order, h, d),
                bfs_parents(adj, start, order, d, self.vec_scratch_nodes@),
                dt == d[target as int],
                path@.len() == 0 ==> current == target,
                current != SENTINEL ==> order.contains(current) && 0 <= d[current as int] && d[current as int] + path@.len() == dt,
                current != SENTINEL && path@.len() > 0 ==> has_edge(adj, current as int, path@.last() as int),
                current == SENTINEL ==> path@.len() == dt + 1 && path@.len() > 0 && path@.last() == start,
                path@.len() > 0 ==> path@[0] == target,
                forall|i: int| 0 <= i < path@.len() - 1 ==> has_edge(adj, path@[i + 1] as int, #[trigger] path@[i] as int),
                forall|x: usize| order.contains(x) ==> #[trigger] self.vec_scratch_nodes@[x as int] == pm[x],
                full == bfs_chain(pm, target, n as nat),
                dt < n,
                current != SENTINEL ==> full == bfs_chain(pm, current, (n - path@.len()) as nat) + path@.reverse(),
                current == SENTINEL ==> full == path@.reverse(),
            decreases (if current == SENTINEL { 0 } else { d[current as int] + 1 }),
        {
            proof {
                lemma_bfs_facts(adj, start, order, h, d);
                lemma_bfs_parent_of(adj, start, order, h, d, self.vec_scratch_nodes@, current);
                let k = choose|k: int| 0 <= k < order.len() && order[k] == current;
                assert((order[k] as int) < adj.len());
            }
            let ghost path0 = path@;
            path.push(current);
            let p = self.vec_scratch_nodes[current];
            proof {
                let f = (n - path0.len()) as nat;
                assert(f > 0);
                assert(p == pm[current]);
                assert(path@.reverse() =~= seq![current] + path0.reverse());
                if p == SENTINEL {
                    assert(bfs_chain(pm, current, f) == seq![current]);
                } else {
                    let c2 = bfs_chain(pm, p, (f - 1) as nat);
                    assert(bfs_chain(pm, current, f) == c2.push(current));
                    assert(c2.push(current) + path0.reverse() =~= c2 + path@.reverse());
                }
            }
            proof {
                if current != start {
                    lemma_bfs_parent_of(adj, start, order, h, d, self.vec_scratch_nodes@, p);
                }
                assert forall|i: int| 0 <= i < path@.len() - 1 implies has_edge(adj, path@[i + 1] as int, #[trigger] path@[i] as int) by {
                    if i < path@.len() - 2 {
                        assert(path@[i] == path0[i] && path@[i + 1] == path0[i + 1]);
                    }
                }
            }
            current = p;
        }
        let r = reversed_ids(&path);
        proof {
            assert(r@ == bfs_path(adj, start, target));
            let q = ids_path(r@);
            let len = path@.len();
            assert(q.len() == len);
            assert(q[0] == start as int);
            assert(q.last() == target as int);
            assert forall|i: int| 0 <= i < q.len() - 1 implies #[trigger] has_edge(adj, q[i], q[i + 1]) by {
                let j = len - 2 - i;
                assert(q[i] == path@[j + 1] as int);
                assert(q[i + 1] == path@[j] as int);
            }
            lemma_bfs_facts(adj, start, order, h, d);
            let kt = choose|k: int| 0 <= k < order.len() && order[k] == target;
            assert(is_dist(adj, start as int, order[kt] as int, d[order[kt] as int] as nat));
        }
        Some(r)
    }
}


} // verus!
