//! Distances in an undirected graph: the number of edges on a shortest path.
use vstd::prelude::*;
use crate::graph::{has_edge, graph_wf, is_path, connected};
use crate::forest::SENTINEL;

verus! {

/// Some path from `s` to `v` takes at most `k` edges.
pub open spec fn within(adj: Seq<Seq<u32>>, s: int, v: int, k: nat) -> bool {
    exists|p: Seq<int>| #[trigger] is_path(adj, p, s, v) && p.len() <= k + 1
}

/// A shortest path from `s` to `v` takes exactly `d` edges.
pub open spec fn is_dist(adj: Seq<Seq<u32>>, s: int, v: int, d: nat) -> bool {
    &&& within(adj, s, v, d)
    &&& d > 0 ==> !within(adj, s, v, (d - 1) as nat)
}

/// A bound on the path length can always be loosened.
pub proof fn lemma_within_mono(adj: Seq<Seq<u32>>, s: int, v: int, k: nat, m: nat)
    requires
        within(adj, s, v, k),
        k <= m,
    ensures
        within(adj, s, v, m),
{
    let p = choose|p: Seq<int>| #[trigger] is_path(adj, p, s, v) && p.len() <= k + 1;
    assert(is_path(adj, p, s, v) && p.len() <= m + 1);
}

/// One more edge reaches one step further.
pub proof fn lemma_within_step(adj: Seq<Seq<u32>>, s: int, u: int, v: int, k: nat)
    requires
        within(adj, s, u, k),
        has_edge(adj, u, v),
    ensures
        within(adj, s, v, k + 1),
{
    let p = choose|p: Seq<int>| #[trigger] is_path(adj, p, s, u) && p.len() <= k + 1;
    let q = p.push(v);
    assert forall|i: int| 0 <= i < q.len() - 1 implies #[trigger] has_edge(adj, q[i], q[i + 1]) by {
        if i < p.len() - 1 {
            assert(q[i] == p[i] && q[i + 1] == p[i + 1]);
        } else {
            assert(q[i] == u && q[i + 1] == v);
        }
    }
    assert(is_path(adj, q, s, v));
}

/// A node other than `s` reached within `k + 1` edges has a neighbor
/// reached within `k` edges.
pub proof fn lemma_within_pred(adj: Seq<Seq<u32>>, s: int, v: int, k: nat) -> (x: int)
    requires
        within(adj, s, v, k + 1),
        v != s,
    ensures
        within(adj, s, x, k),
        has_edge(adj, x, v),
{
    let p = choose|p: Seq<int>| #[trigger] is_path(adj, p, s, v) && p.len() <= k + 2;
    assert(p.len() >= 2);
    let q = p.drop_last();
    let x = q.last();
    let j = p.len() - 2;
    assert(has_edge(adj, p[j], p[j + 1]));
    assert forall|i: int| 0 <= i < q.len() - 1 implies #[trigger] has_edge(adj, q[i], q[i + 1]) by {
        assert(q[i] == p[i] && q[i + 1] == p[i + 1]);
    }
    assert(is_path(adj, q, s, x));
    x
}

/// Within no edges only `s` itself is reached.
pub proof fn lemma_within_zero(adj: Seq<Seq<u32>>, s: int, v: int)
    ensures
        within(adj, s, v, 0) <==> v == s,
{
    if v == s {
        assert(is_path(adj, seq![s], s, s));
    }
    if within(adj, s, v, 0) {
        let p = choose|p: Seq<int>| #[trigger] is_path(adj, p, s, v) && p.len() <= 1;
        assert(p[0] == p.last());
    }
}

/// A node reached within some bound is joined to `s`.
pub proof fn lemma_within_connected(adj: Seq<Seq<u32>>, s: int, v: int, k: nat)
    requires
        within(adj, s, v, k),
    ensures
        connected(adj, s, v),
{
    let p = choose|p: Seq<int>| #[trigger] is_path(adj, p, s, v) && p.len() <= k + 1;
    assert(is_path(adj, p, s, v));
}

/// A distance is a lower bound on every bound within which a node is reached.
pub proof fn lemma_dist_least(adj: Seq<Seq<u32>>, s: int, v: int, d: nat, k: nat)
    requires
        is_dist(adj, s, v, d),
        within(adj, s, v, k),
    ensures
        d <= k,
{
    if k < d {
        lemma_within_mono(adj, s, v, k, (d - 1) as nat);
    }
}

/// A node has at most one distance from `s`.
pub proof fn lemma_dist_unique(adj: Seq<Seq<u32>>, s: int, v: int, d: nat, e: nat)
    requires
        is_dist(adj, s, v, d),
        is_dist(adj, s, v, e),
    ensures
        d == e,
{
    lemma_dist_least(adj, s, v, d, e);
    lemma_dist_least(adj, s, v, e, d);
}

/// A set that holds `s` and, with every node, its neighbors, holds every
/// node joined to `s`.
pub proof fn lemma_closed_reach(adj: Seq<Seq<u32>>, inside: spec_fn(int) -> bool, s: int, v: int)
    requires
        inside(s),
        forall|x: int, y: int| #[trigger] has_edge(adj, x, y) && inside(x) ==> inside(y),
        connected(adj, s, v),
    ensures
        inside(v),
{
    let p = choose|p: Seq<int>| is_path(adj, p, s, v);
    assert forall|i: int| 0 <= i < p.len() implies #[trigger] inside(p[i]) by {
        lemma_closed_prefix(adj, inside, p, s, i);
    }
    assert(inside(p[p.len() - 1]));
}

proof fn lemma_closed_prefix(adj: Seq<Seq<u32>>, inside: spec_fn(int) -> bool, p: Seq<int>, s: int, i: int)
    requires
        inside(s),
        forall|x: int, y: int| #[trigger] has_edge(adj, x, y) && inside(x) ==> inside(y),
        p.len() >= 1,
        p[0] == s,
        forall|j: int| 0 <= j < p.len() - 1 ==> #[trigger] has_edge(adj, p[j], p[j + 1]),
        0 <= i < p.len(),
    ensures
        inside(p[i]),
    decreases i,
{
    if i > 0 {
        let j = i - 1;
        lemma_closed_prefix(adj, inside, p, s, j);
        assert(has_edge(adj, p[j], p[j + 1]));
    }
}

/// The state of a breadth-first walk from `s`: `order` lists the nodes
/// reached so far in the order they were reached, the first `h` of them have
/// had all their neighbors reached, and `d` holds the distance of each node
/// reached. Every node reached has a shorter index than its distance allows,
/// distances never decrease along `order` and grow by at most one past the
/// next node to be done, and every node within that node's distance has been
/// reached.
#[verifier::opaque]
pub open spec fn bfs_state(adj: Seq<Seq<u32>>, s: usize, order: Seq<usize>, h: int, d: Seq<i32>) -> bool {
    &&& d.len() == adj.len()
    &&& adj.len() <= i32::MAX
    &&& 0 <= h <= order.len()
    &&& 1 <= order.len() <= adj.len()
    &&& order[0] == s
    &&& order.no_duplicates()
    &&& forall|k: int| 0 <= k < order.len() ==> (#[trigger] order[k] as int) < adj.len()
    &&& forall|k: int|
        0 <= k < order.len() ==> 0 <= #[trigger] d[order[k] as int] <= k && is_dist(
            adj,
            s as int,
            order[k] as int,
            d[order[k] as int] as nat,
        )
    &&& forall|i: int, j: int|
        0 <= i <= j < order.len() ==> #[trigger] d[order[i] as int] <= #[trigger] d[order[j] as int]
    &&& h < order.len() ==> d[order[order.len() - 1] as int] <= d[order[h] as int] + 1
    &&& h < order.len() ==> forall|y: int, k: nat|
        k <= d[order[h] as int] && #[trigger] within(adj, s as int, y, k) ==> order.contains(y as usize)
    &&& forall|i: int, j: int|
        0 <= i < h && 0 <= j < adj[order[i] as int].len() ==> order.contains(
            #[trigger] adj[order[i] as int][j] as usize,
        )
}

/// The walk starts from `s` alone, at distance zero.
pub proof fn lemma_bfs_start(adj: Seq<Seq<u32>>, s: usize, d: Seq<i32>)
    requires
        s < adj.len(),
        adj.len() <= i32::MAX,
        d.len() == adj.len(),
        d[s as int] == 0,
    ensures
        bfs_state(adj, s, seq![s], 0, d),
{
    reveal(bfs_state);
    let order = seq![s];
    lemma_within_zero(adj, s as int, s as int);
    assert forall|y: int, k: nat| k <= d[order[0] as int] && #[trigger] within(adj, s as int, y, k) implies order.contains(y as usize) by {
        lemma_within_zero(adj, s as int, y);
        assert(order[0] == s);
    }
}

/// Reaching an unreached neighbor `v` of the next node to be done puts it at
/// the end of the walk, one further than that node.
pub proof fn lemma_bfs_visit(adj: Seq<Seq<u32>>, s: usize, order: Seq<usize>, h: int, d: Seq<i32>, v: usize)
    requires
        bfs_state(adj, s, order, h, d),
        h < order.len(),
        has_edge(adj, order[h] as int, v as int),
        !order.contains(v),
    ensures
        bfs_state(adj, s, order.push(v), h, d.update(v as int, (d[order[h] as int] + 1) as i32)),
{
    reveal(bfs_state);
    let u = order[h];
    let du = d[u as int];
    let o2 = order.push(v);
    let d2 = d.update(v as int, (du + 1) as i32);
    let len = order.len();
    assert(0 <= du <= h);
    assert(o2.no_duplicates()) by {
        assert forall|i: int, j: int| 0 <= i < j < o2.len() implies o2[i] != o2[j] by {
            if j == len {
                assert(o2[i] == order[i]);
                assert(order.contains(order[i]));
            }
        }
    }
    let oi = o2.map_values(|x: usize| x as int);
    assert forall|i: int, j: int| 0 <= i < j < oi.len() implies oi[i] != oi[j] by {
        assert(o2[i] != o2[j]);
    }
    assert forall|i: int| 0 <= i < oi.len() implies 0 <= #[trigger] oi[i] < adj.len() by {
        if i < len {
            assert(o2[i] == order[i]);
        }
    }
    crate::forest::lemma_distinct_bounded(oi, adj.len() as int);
    assert forall|k: int| 0 <= k < len implies #[trigger] o2[k] == order[k] && d2[order[k] as int] == d[order[k] as int] by {
        assert(order.contains(order[k]));
    }
    lemma_within_step(adj, s as int, u as int, v as int, du as nat);
    if du >= 0 && within(adj, s as int, v as int, du as nat) {
        assert(order.contains(v));
    }
    assert(is_dist(adj, s as int, v as int, (du + 1) as nat));
    assert forall|k: int| 0 <= k < o2.len() implies 0 <= #[trigger] d2[o2[k] as int] <= k && is_dist(
        adj,
        s as int,
        o2[k] as int,
        d2[o2[k] as int] as nat,
    ) by {
        if k < len {
            assert(o2[k] == order[k]);
        } else {
            assert(o2[k] == v);
        }
    }
    assert forall|i: int, j: int| 0 <= i <= j < o2.len() implies #[trigger] d2[o2[i] as int] <= #[trigger] d2[o2[j] as int] by {
        if j < len {
            assert(o2[i] == order[i] && o2[j] == order[j]);
        } else if i < len {
            assert(o2[i] == order[i]);
            assert(d[order[i] as int] <= d[order[len - 1] as int]);
        }
    }
    assert forall|y: int, k: nat| k <= d2[o2[h] as int] && #[trigger] within(adj, s as int, y, k) implies o2.contains(y as usize) by {
        assert(o2[h] == order[h]);
        assert(order.contains(y as usize));
        let i = choose|i: int| 0 <= i < len && order[i] == y as usize;
        assert(o2[i] == y as usize);
    }
    assert forall|i: int, j: int| 0 <= i < h && 0 <= j < adj[o2[i] as int].len() implies o2.contains(
        #[trigger] adj[o2[i] as int][j] as usize,
    ) by {
        assert(o2[i] == order[i]);
        let w = adj[order[i] as int][j] as usize;
        assert(order.contains(w));
        let m = choose|m: int| 0 <= m < len && order[m] == w;
        assert(o2[m] == w);
    }
}

/// Once every neighbor of the next node to be done has been reached, that
/// node is done.
pub proof fn lemma_bfs_done_node(adj: Seq<Seq<u32>>, s: usize, order: Seq<usize>, h: int, d: Seq<i32>)
    requires
        bfs_state(adj, s, order, h, d),
        h < order.len(),
        forall|j: int| 0 <= j < adj[order[h] as int].len() ==> order.contains(#[trigger] adj[order[h] as int][j] as usize),
    ensures
        bfs_state(adj, s, order, h + 1, d),
{
    reveal(bfs_state);
    let len = order.len();
    if h + 1 < len {
        let dh = d[order[h] as int];
        let dn = d[order[h + 1] as int];
        assert(dh <= dn <= dh + 1);
        assert(d[order[h + 1] as int] <= d[order[len - 1] as int]);
        assert forall|y: int, k: nat| k <= dn && #[trigger] within(adj, s as int, y, k) implies order.contains(y as usize) by {
            if k <= dh {
            } else if y == s as int {
                assert(order[0] == s);
            } else {
                let k1 = (k - 1) as nat;
                let x = lemma_within_pred(adj, s as int, y, k1);
                assert(order.contains(x as usize));
                let i = choose|i: int| 0 <= i < len && order[i] == x as usize;
                assert(order[i] as int == x);
                lemma_dist_least(adj, s as int, x, d[order[i] as int] as nat, k1);
                if i > h {
                    assert(d[order[h + 1] as int] <= d[order[i] as int]);
                }
                assert(adj[x][adj[x].index_of(y as u32)] == y as u32);
                let j = adj[x].index_of(y as u32);
                assert(order.contains(adj[order[i] as int][j] as usize));
            }
        }
    }
    assert forall|i: int, j: int| 0 <= i < h + 1 && 0 <= j < adj[order[i] as int].len() implies order.contains(
        #[trigger] adj[order[i] as int][j] as usize,
    ) by {
        if i == h {
        }
    }
}

/// When every node reached is done, the nodes reached are exactly those
/// joined to `s`.
pub proof fn lemma_bfs_finished(adj: Seq<Seq<u32>>, s: usize, order: Seq<usize>, d: Seq<i32>, v: int)
    requires
        bfs_state(adj, s, order, order.len() as int, d),
    ensures
        connected(adj, s as int, v) <==> (0 <= v && order.contains(v as usize) && v < adj.len()),
{
    reveal(bfs_state);
    let len = order.len();
    let inside = |x: int| 0 <= x && order.contains(x as usize) && x < adj.len();
    assert forall|x: int, y: int| #[trigger] has_edge(adj, x, y) && inside(x) implies inside(y) by {
        let i = choose|i: int| 0 <= i < len && order[i] == x as usize;
        let j = adj[x].index_of(y as u32);
        assert(order.contains(adj[order[i] as int][j] as usize));
    }
    assert(inside(s as int)) by {
        assert(order[0] == s);
    }
    if connected(adj, s as int, v) {
        lemma_closed_reach(adj, inside, s as int, v);
    }
    if inside(v) {
        let i = choose|i: int| 0 <= i < len && order[i] == v as usize;
        lemma_within_connected(adj, s as int, v, d[order[i] as int] as nat);
    }
}

/// A sequence of node ids read as a sequence of nodes.
pub open spec fn ids_path(p: Seq<usize>) -> Seq<int> {
    p.map_values(|x: usize| x as int)
}

/// Each node reached other than `s` records, as its parent, a node reached
/// before it, adjacent to it and one step nearer to `s`.
#[verifier::opaque]
pub open spec fn bfs_parents(adj: Seq<Seq<u32>>, s: usize, order: Seq<usize>, d: Seq<i32>, par: Seq<usize>) -> bool {
    &&& par.len() == adj.len()
    &&& par[s as int] == usize::MAX
    &&& forall|k: int|
        1 <= k < order.len() ==> {
            let x = #[trigger] order[k];
            &&& order.contains(par[x as int])
            &&& has_edge(adj, par[x as int] as int, x as int)
            &&& d[x as int] == d[par[x as int] as int] + 1
        }
}

/// What a walk's state tells of each node reached.
pub proof fn lemma_bfs_facts(adj: Seq<Seq<u32>>, s: usize, order: Seq<usize>, h: int, d: Seq<i32>)
    requires
        bfs_state(adj, s, order, h, d),
    ensures
        d.len() == adj.len(),
        adj.len() <= i32::MAX,
        0 <= h <= order.len(),
        1 <= order.len() <= adj.len(),
        order[0] == s,
        order.no_duplicates(),
        forall|k: int|
            0 <= k < order.len() ==> (#[trigger] order[k] as int) < adj.len() && 0 <= d[order[k] as int] <= k
                && is_dist(adj, s as int, order[k] as int, d[order[k] as int] as nat),
{
    reveal(bfs_state);
}

/// The start of the walk records no parent.
pub proof fn lemma_bfs_parents_start(adj: Seq<Seq<u32>>, s: usize, d: Seq<i32>, par: Seq<usize>)
    requires
        par.len() == adj.len(),
        par[s as int] == usize::MAX,
    ensures
        bfs_parents(adj, s, seq![s], d, par),
{
    reveal(bfs_parents);
}

/// Reaching `v` from the next node `u` to be done records `u` as its parent.
pub proof fn lemma_bfs_parents_visit(
    adj: Seq<Seq<u32>>,
    s: usize,
    order: Seq<usize>,
    h: int,
    d: Seq<i32>,
    par: Seq<usize>,
    v: usize,
)
    requires
        bfs_state(adj, s, order, h, d),
        bfs_parents(adj, s, order, d, par),
        h < order.len(),
        has_edge(adj, order[h] as int, v as int),
        !order.contains(v),
    ensures
        bfs_parents(
            adj,
            s,
            order.push(v),
            d.update(v as int, (d[order[h] as int] + 1) as i32),
            par.update(v as int, order[h]),
        ),
{
    reveal(bfs_state);
    reveal(bfs_parents);
    let u = order[h];
    let o2 = order.push(v);
    let d2 = d.update(v as int, (d[u as int] + 1) as i32);
    let par2 = par.update(v as int, u);
    assert(order.contains(order[0]));
    assert forall|k: int| 1 <= k < o2.len() implies {
        let x = #[trigger] o2[k];
        &&& o2.contains(par2[x as int])
        &&& has_edge(adj, par2[x as int] as int, x as int)
        &&& d2[x as int] == d2[par2[x as int] as int] + 1
    } by {
        let x = o2[k];
        if k < order.len() {
            assert(o2[k] == order[k]);
            assert(order.contains(order[k]));
            let p = par[x as int];
            let i = choose|i: int| 0 <= i < order.len() && order[i] == p;
            assert(o2[i] == p);
            assert(order.contains(p));
        } else {
            assert(x == v);
            assert(o2[h] == u);
            assert(order.contains(u));
        }
    }
}

/// The parent recorded for a node reached: none for `s`, else a node
/// reached, adjacent to it and one step nearer to `s`.
pub proof fn lemma_bfs_parent_of(adj: Seq<Seq<u32>>, s: usize, order: Seq<usize>, h: int, d: Seq<i32>, par: Seq<usize>, x: usize)
    requires
        bfs_state(adj, s, order, h, d),
        bfs_parents(adj, s, order, d, par),
        order.contains(x),
    ensures
        par.len() == adj.len(),
        x == s ==> par[x as int] == usize::MAX && d[x as int] == 0,
        x != s ==> order.contains(par[x as int]) && has_edge(adj, par[x as int] as int, x as int)
            && d[x as int] == d[par[x as int] as int] + 1 && par[x as int] != usize::MAX,
{
    reveal(bfs_state);
    reveal(bfs_parents);
    let k = choose|k: int| 0 <= k < order.len() && order[k] == x;
    if x == s {
        lemma_within_zero(adj, s as int, s as int);
        assert(order[0] == s);
        assert(d[order[0] as int] <= 0);
    } else {
        assert(k != 0);
        let p = par[x as int];
        let i = choose|i: int| 0 <= i < order.len() && order[i] == p;
        assert((order[i] as int) < adj.len());
    }
}

/// `c` lies on some shortest path from `s` to `t`: the distances through it
/// add up to the distance from `s` to `t`.
pub open spec fn on_shortest(adj: Seq<Seq<u32>>, s: int, c: int, t: int) -> bool {
    exists|d1: nat, d2: nat|
        #![trigger is_dist(adj, s, c, d1), is_dist(adj, c, t, d2)]
        is_dist(adj, s, c, d1) && is_dist(adj, c, t, d2) && is_dist(adj, s, t, d1 + d2)
}

/// A path from `a` to `b` followed by a path from `b` to `c`.
pub proof fn lemma_path_concat(adj: Seq<Seq<u32>>, p: Seq<int>, q: Seq<int>, a: int, b: int, c: int)
    requires
        is_path(adj, p, a, b),
        is_path(adj, q, b, c),
    ensures
        is_path(adj, p + q.drop_first(), a, c),
        (p + q.drop_first()).len() == p.len() + q.len() - 1,
{
    let r = p + q.drop_first();
    assert forall|i: int| 0 <= i < r.len() - 1 implies #[trigger] has_edge(adj, r[i], r[i + 1]) by {
        if i < p.len() - 1 {
            assert(r[i] == p[i] && r[i + 1] == p[i + 1]);
        } else if i == p.len() - 1 {
            assert(r[i] == q[0] && r[i + 1] == q[1]);
        } else {
            let j = i - p.len() + 1;
            assert(r[i] == q[j] && r[i + 1] == q[j + 1]);
        }
    }
    if q.len() == 1 {
        assert(r =~= p);
    }
}

/// The part of a path from index `i` to index `j`.
pub proof fn lemma_path_slice(adj: Seq<Seq<u32>>, p: Seq<int>, a: int, b: int, i: int, j: int)
    requires
        is_path(adj, p, a, b),
        0 <= i <= j < p.len(),
    ensures
        is_path(adj, p.subrange(i, j + 1), p[i], p[j]),
{
    let q = p.subrange(i, j + 1);
    assert forall|k: int| 0 <= k < q.len() - 1 implies #[trigger] has_edge(adj, q[k], q[k + 1]) by {
        assert(q[k] == p[i + k] && q[k + 1] == p[i + k + 1]);
    }
}

/// In a graph that lists each edge at both ends, a path can be walked backwards.
pub proof fn lemma_within_sym(adj: Seq<Seq<u32>>, s: int, v: int, k: nat)
    requires
        graph_wf(adj),
        within(adj, s, v, k),
    ensures
        within(adj, v, s, k),
{
    let p = choose|p: Seq<int>| #[trigger] is_path(adj, p, s, v) && p.len() <= k + 1;
    let r = p.reverse();
    assert forall|i: int| 0 <= i < r.len() - 1 implies #[trigger] has_edge(adj, r[i], r[i + 1]) by {
        let j = p.len() - 2 - i;
        assert(r[i] == p[j + 1] && r[i + 1] == p[j]);
        assert(has_edge(adj, p[j], p[j + 1]));
    }
    assert(is_path(adj, r, v, s));
}

/// Distances are symmetric.
pub proof fn lemma_dist_sym(adj: Seq<Seq<u32>>, s: int, v: int, d: nat)
    requires
        graph_wf(adj),
        is_dist(adj, s, v, d),
    ensures
        is_dist(adj, v, s, d),
{
    lemma_within_sym(adj, s, v, d);
    if d > 0 && within(adj, v, s, (d - 1) as nat) {
        lemma_within_sym(adj, v, s, (d - 1) as nat);
    }
}

/// A path as short as the distance between its ends visits no node twice,
/// and each of its nodes lies on a shortest path between its ends, at the
/// distance of its index from the start.
pub proof fn lemma_shortest_path_nodes(adj: Seq<Seq<u32>>, p: Seq<int>, s: int, t: int, i: int)
    requires
        is_path(adj, p, s, t),
        is_dist(adj, s, t, (p.len() - 1) as nat),
        0 <= i < p.len(),
    ensures
        p.no_duplicates(),
        is_dist(adj, s, p[i], i as nat),
        is_dist(adj, p[i], t, (p.len() - 1 - i) as nat),
        on_shortest(adj, s, p[i], t),
{
    let len = p.len() as int;
    let d = (len - 1) as nat;
    assert forall|x: int, y: int| 0 <= x < y < len implies p[x] != p[y] by {
        if p[x] == p[y] {
            lemma_path_slice(adj, p, s, t, 0, x);
            lemma_path_slice(adj, p, s, t, y, len - 1);
            assert(p.subrange(0, x + 1)[0] == s);
            assert(p.subrange(y, len)[(len - 1 - y) as int] == t);
            lemma_path_concat(adj, p.subrange(0, x + 1), p.subrange(y, len), s, p[y], t);
            let r = p.subrange(0, x + 1) + p.subrange(y, len).drop_first();
            assert(is_path(adj, r, s, t) && r.len() <= (d - 1) as nat + 1);
        }
    }
    lemma_path_slice(adj, p, s, t, 0, i);
    lemma_path_slice(adj, p, s, t, i, len - 1);
    let pre = p.subrange(0, i + 1);
    let suf = p.subrange(i, len);
    assert(is_path(adj, pre, s, p[i]) && pre.len() <= i as nat + 1);
    assert(is_path(adj, suf, p[i], t) && suf.len() <= (len - 1 - i) as nat + 1);
    if i > 0 && within(adj, s, p[i], (i - 1) as nat) {
        let q = choose|q: Seq<int>| #[trigger] is_path(adj, q, s, p[i]) && q.len() <= (i - 1) as nat + 1;
        lemma_path_concat(adj, q, suf, s, p[i], t);
        let r = q + suf.drop_first();
        assert(is_path(adj, r, s, t) && r.len() <= (d - 1) as nat + 1);
    }
    if len - 1 - i > 0 && within(adj, p[i], t, (len - 2 - i) as nat) {
        let q = choose|q: Seq<int>| #[trigger] is_path(adj, q, p[i], t) && q.len() <= (len - 2 - i) as nat + 1;
        lemma_path_concat(adj, pre, q, s, p[i], t);
        let r = pre + q.drop_first();
        assert(is_path(adj, r, s, t) && r.len() <= (d - 1) as nat + 1);
    }
    assert(is_dist(adj, s, p[i], i as nat));
    assert(is_dist(adj, p[i], t, (len - 1 - i) as nat));
    assert((i as nat) + ((len - 1 - i) as nat) == d);
}

/// One node's turn in a breadth-first walk, from position `j` of its
/// neighbor list on: each neighbor not listed yet, in list order, is appended
/// to the list and takes `u` as its parent.
pub open spec fn bfs_scan(
    adj: Seq<Seq<u32>>,
    u: usize,
    j: int,
    order: Seq<usize>,
    pm: Map<usize, usize>,
) -> (Seq<usize>, Map<usize, usize>)
    decreases adj[u as int].len() - j,
{
    if j < 0 || j >= adj[u as int].len() {
        (order, pm)
    } else {
        let v = adj[u as int][j] as usize;
        if order.contains(v) {
            bfs_scan(adj, u, j + 1, order, pm)
        } else {
            bfs_scan(adj, u, j + 1, order.push(v), pm.insert(v, u))
        }
    }
}

/// The walk from position `h` of the list on: the listed nodes take their
/// turns in list order until `target` comes up or the list runs out (at most
/// `fuel` turns).
pub open spec fn bfs_run(
    adj: Seq<Seq<u32>>,
    target: usize,
    order: Seq<usize>,
    pm: Map<usize, usize>,
    h: int,
    fuel: nat,
) -> (Seq<usize>, Map<usize, usize>)
    decreases fuel,
{
    if fuel == 0 || h < 0 || h >= order.len() || order[h] == target {
        (order, pm)
    } else {
        let next = bfs_scan(adj, order[h], 0, order, pm);
        bfs_run(adj, target, next.0, next.1, h + 1, (fuel - 1) as nat)
    }
}

/// The parent chain that ends at `x`, from the node without a parent down
/// to `x` (at most `fuel` nodes).
pub open spec fn bfs_chain(pm: Map<usize, usize>, x: usize, fuel: nat) -> Seq<usize>
    decreases fuel,
{
    if fuel == 0 {
        Seq::empty()
    } else if pm[x] == SENTINEL {
        seq![x]
    } else {
        bfs_chain(pm, pm[x], (fuel - 1) as nat).push(x)
    }
}

/// The parents that a breadth-first walk from `s` has given when `t` comes
/// up: neighbors are taken in list order.
pub open spec fn bfs_tree(adj: Seq<Seq<u32>>, s: usize, t: usize) -> Map<usize, usize> {
    bfs_run(adj, t, seq![s], Map::empty().insert(s, SENTINEL), 0, adj.len()).1
}

/// The path from `s` to `t` along the parents of that walk.
pub open spec fn bfs_path(adj: Seq<Seq<u32>>, s: usize, t: usize) -> Seq<usize> {
    bfs_chain(bfs_tree(adj, s, t), t, adj.len())
}

/// At most one shortest path joins `s` to `t`.
pub open spec fn unique_shortest(adj: Seq<Seq<u32>>, s: int, t: int) -> bool {
    forall|p: Seq<int>, q: Seq<int>|
        #[trigger] is_path(adj, p, s, t) && #[trigger] is_path(adj, q, s, t) && is_dist(adj, s, t, (p.len() - 1) as nat)
            && is_dist(adj, s, t, (q.len() - 1) as nat) ==> p == q
}

/// When the shortest path from `s` to `t` is unique, every node on some
/// shortest path lies on the given one.
pub proof fn lemma_unique_shortest_holds(adj: Seq<Seq<u32>>, p: Seq<int>, s: int, c: int, t: int)
    requires
        unique_shortest(adj, s, t),
        is_path(adj, p, s, t),
        is_dist(adj, s, t, (p.len() - 1) as nat),
        on_shortest(adj, s, c, t),
    ensures
        p.contains(c),
{
    let (d1, d2) = choose|d1: nat, d2: nat|
        #![trigger is_dist(adj, s, c, d1), is_dist(adj, c, t, d2)]
        is_dist(adj, s, c, d1) && is_dist(adj, c, t, d2) && is_dist(adj, s, t, d1 + d2);
    let p1 = choose|q: Seq<int>| #[trigger] is_path(adj, q, s, c) && q.len() <= d1 + 1;
    let q1 = choose|q: Seq<int>| #[trigger] is_path(adj, q, c, t) && q.len() <= d2 + 1;
    lemma_path_concat(adj, p1, q1, s, c, t);
    let r = p1 + q1.drop_first();
    lemma_dist_unique(adj, s, t, (p.len() - 1) as nat, d1 + d2);
    let k = (r.len() - 1) as nat;
    assert(within(adj, s, t, k));
    if k < d1 + d2 {
        lemma_within_mono(adj, s, t, k, (d1 + d2 - 1) as nat);
    }
    assert(k == d1 + d2);
    assert(is_dist(adj, s, t, (r.len() - 1) as nat));
    assert(r == p);
    assert(r[p1.len() - 1] == c);
}

} // verus!
