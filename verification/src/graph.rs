//! Undirected graphs as adjacency sequences, paths, connectivity, and how a
//! spanning forest captures connectivity.
use vstd::prelude::*;
use crate::smallvec_spec::swap_removed;
use crate::forest::{
    SENTINEL, anc, forest_wf, root, is_desc, rotated, rebuilt, lemma_root_parent, lemma_anc_depth,
    lemma_rotate,
};

verus! {

/// `a` and `b` are nodes and `b` is listed among the neighbors of `a`.
pub open spec fn has_edge(adj: Seq<Seq<u32>>, a: int, b: int) -> bool {
    &&& 0 <= a < adj.len()
    &&& 0 <= b < adj.len()
    &&& adj[a].contains(b as u32)
}

/// No node is its own neighbor.
pub open spec fn loop_free(adj: Seq<Seq<u32>>) -> bool {
    forall|x: int| !#[trigger] has_edge(adj, x, x)
}

/// Every neighbor is a node, no neighbor is listed twice, and every edge is
/// listed at both of its ends.
pub open spec fn graph_wf(adj: Seq<Seq<u32>>) -> bool {
    &&& forall|a: int, j: int|
        0 <= a < adj.len() && 0 <= j < adj[a].len() ==> (#[trigger] adj[a][j] as int) < adj.len()
    &&& forall|a: int| 0 <= a < adj.len() ==> (#[trigger] adj[a]).no_duplicates()
    &&& forall|a: int, b: int| #[trigger] has_edge(adj, a, b) ==> has_edge(adj, b, a)
}

/// `p` walks from `a` to `b` along edges.
pub open spec fn is_path(adj: Seq<Seq<u32>>, p: Seq<int>, a: int, b: int) -> bool {
    &&& p.len() >= 1
    &&& p[0] == a
    &&& p.last() == b
    &&& forall|i: int| 0 <= i < p.len() - 1 ==> #[trigger] has_edge(adj, p[i], p[i + 1])
}

/// Some path joins `a` and `b`.
pub open spec fn connected(adj: Seq<Seq<u32>>, a: int, b: int) -> bool {
    exists|p: Seq<int>| is_path(adj, p, a, b)
}

/// Every node is joined to itself.
pub proof fn lemma_connected_refl(adj: Seq<Seq<u32>>, a: int)
    ensures
        connected(adj, a, a),
{
    assert(is_path(adj, seq![a], a, a));
}

/// An edge joins its ends.
pub proof fn lemma_connected_edge(adj: Seq<Seq<u32>>, a: int, b: int)
    requires
        has_edge(adj, a, b),
    ensures
        connected(adj, a, b),
{
    let p = seq![a, b];
    assert(has_edge(adj, p[0], p[1]));
    assert(is_path(adj, p, a, b));
}

/// Joined nodes stay joined through a further node joined to the second.
pub proof fn lemma_connected_trans(adj: Seq<Seq<u32>>, a: int, b: int, c: int)
    requires
        connected(adj, a, b),
        connected(adj, b, c),
    ensures
        connected(adj, a, c),
{
    let p = choose|p: Seq<int>| is_path(adj, p, a, b);
    let q = choose|q: Seq<int>| is_path(adj, q, b, c);
    let r = p + q.drop_first();
    assert forall|i: int| 0 <= i < r.len() - 1 implies #[trigger] has_edge(adj, r[i], r[i + 1]) by {
        if i < p.len() - 1 {
            assert(r[i] == p[i] && r[i + 1] == p[i + 1]);
        } else if i == p.len() - 1 {
            assert(r[i] == q[0] && r[i + 1] == q[1]);
        } else {
            let j = i - p.len() + 1;
            assert(r[i] == q[j] && r[i + 1] == q[j + 1]);
        }
    }
    if q.len() == 1 {
        assert(r =~= p);
    }
    assert(is_path(adj, r, a, c));
}

/// In a graph that lists every edge at both ends, joining is symmetric.
pub proof fn lemma_connected_sym(adj: Seq<Seq<u32>>, a: int, b: int)
    requires
        graph_wf(adj),
        connected(adj, a, b),
    ensures
        connected(adj, b, a),
{
    let p = choose|p: Seq<int>| is_path(adj, p, a, b);
    let r = p.reverse();
    assert forall|i: int| 0 <= i < r.len() - 1 implies #[trigger] has_edge(adj, r[i], r[i + 1]) by {
        let j = p.len() - 2 - i;
        assert(r[i] == p[j + 1] && r[i + 1] == p[j]);
        assert(has_edge(adj, p[j], p[j + 1]));
    }
    assert(is_path(adj, r, b, a));
}

/// A labelling that agrees on the ends of every edge agrees on joined nodes.
pub proof fn lemma_connected_label(adj: Seq<Seq<u32>>, f: spec_fn(int) -> int, a: int, b: int)
    requires
        forall|x: int, y: int| #[trigger] has_edge(adj, x, y) ==> f(x) == f(y),
        connected(adj, a, b),
    ensures
        f(a) == f(b),
{
    let p = choose|p: Seq<int>| is_path(adj, p, a, b);
    assert forall|i: int| 0 <= i < p.len() implies #[trigger] f(p[i]) == f(a) by {
        lemma_label_prefix(adj, f, p, a, i);
    }
    assert(f(p[p.len() - 1]) == f(a));
}

proof fn lemma_label_prefix(adj: Seq<Seq<u32>>, f: spec_fn(int) -> int, p: Seq<int>, a: int, i: int)
    requires
        forall|x: int, y: int| #[trigger] has_edge(adj, x, y) ==> f(x) == f(y),
        p.len() >= 1,
        p[0] == a,
        forall|j: int| 0 <= j < p.len() - 1 ==> #[trigger] has_edge(adj, p[j], p[j + 1]),
        0 <= i < p.len(),
    ensures
        f(p[i]) == f(a),
    decreases i,
{
    if i > 0 {
        let j = i - 1;
        lemma_label_prefix(adj, f, p, a, j);
        assert(has_edge(adj, p[j], p[j + 1]));
    }
}

/// Every edge of the forest is an edge of the graph.
pub open spec fn tree_edges_in_graph(adj: Seq<Seq<u32>>, par: Seq<usize>) -> bool {
    forall|w: int|
        0 <= w < par.len() && #[trigger] par[w] != SENTINEL ==> has_edge(adj, w, par[w] as int)
}

/// Both ends of every edge of the graph lie in one tree.
pub open spec fn edges_within_trees(adj: Seq<Seq<u32>>, par: Seq<usize>, dep: Seq<nat>) -> bool {
    forall|a: int, b: int|
        #[trigger] has_edge(adj, a, b) ==> root(par, dep, a as usize) == root(par, dep, b as usize)
}

/// The forest spans the graph: its trees are exactly the connected components.
pub open spec fn spans(adj: Seq<Seq<u32>>, par: Seq<usize>, dep: Seq<nat>) -> bool {
    &&& adj.len() == par.len()
    &&& graph_wf(adj)
    &&& forest_wf(par, dep)
    &&& tree_edges_in_graph(adj, par)
    &&& edges_within_trees(adj, par, dep)
}

/// Following forest edges from `w` reaches its root through the graph.
pub proof fn lemma_connected_to_root(adj: Seq<Seq<u32>>, par: Seq<usize>, dep: Seq<nat>, w: usize)
    requires
        adj.len() == par.len(),
        forest_wf(par, dep),
        tree_edges_in_graph(adj, par),
        w < par.len(),
    ensures
        connected(adj, w as int, root(par, dep, w) as int),
    decreases dep[w as int],
{
    let p = par[w as int];
    if p == SENTINEL {
        lemma_connected_refl(adj, w as int);
    } else {
        lemma_connected_to_root(adj, par, dep, p);
        lemma_root_parent(par, dep, w);
        lemma_connected_edge(adj, w as int, p as int);
        lemma_connected_trans(adj, w as int, p as int, root(par, dep, p) as int);
    }
}

/// In a spanning forest, two nodes are joined in the graph exactly when they
/// have the same root.
pub proof fn lemma_spans_connected(adj: Seq<Seq<u32>>, par: Seq<usize>, dep: Seq<nat>, a: usize, b: usize)
    requires
        spans(adj, par, dep),
        a < par.len(),
        b < par.len(),
    ensures
        connected(adj, a as int, b as int) <==> root(par, dep, a) == root(par, dep, b),
{
    if root(par, dep, a) == root(par, dep, b) {
        lemma_connected_to_root(adj, par, dep, a);
        lemma_connected_to_root(adj, par, dep, b);
        lemma_connected_sym(adj, b as int, root(par, dep, b) as int);
        lemma_connected_trans(adj, a as int, root(par, dep, a) as int, b as int);
    }
    if connected(adj, a as int, b as int) {
        let f = |x: int| root(par, dep, x as usize) as int;
        assert forall|x: int, y: int| #[trigger] has_edge(adj, x, y) implies f(x) == f(y) by {
        }
        lemma_connected_label(adj, f, a as int, b as int);
    }
}


/// The adjacency lists after adding the edge `(u, v)` at the end of both lists.
pub open spec fn with_edge(adj: Seq<Seq<u32>>, u: int, v: int) -> Seq<Seq<u32>> {
    adj.update(u, adj[u].push(v as u32)).update(v, adj[v].push(u as u32))
}

/// The adjacency lists after removing the edge `(u, v)` from both lists,
/// each time moving the last neighbor into the freed place.
pub open spec fn without_edge(adj: Seq<Seq<u32>>, u: int, v: int) -> Seq<Seq<u32>> {
    adj.update(u, swap_removed(adj[u], adj[u].index_of_first(v as u32).unwrap())).update(
        v,
        swap_removed(adj[v], adj[v].index_of_first(u as u32).unwrap()),
    )
}

/// No list holds more neighbors than there are nodes.
pub proof fn lemma_degree_bound(adj: Seq<Seq<u32>>, a: int)
    requires
        graph_wf(adj),
        0 <= a < adj.len(),
    ensures
        adj[a].len() <= adj.len(),
{
    let s = Seq::new(adj[a].len(), |j: int| adj[a][j] as int);
    assert forall|i: int, j: int| 0 <= i < s.len() && 0 <= j < s.len() && i != j implies s[i]
        != s[j] by {
        assert(adj[a].no_duplicates());
    }
    assert forall|i: int| 0 <= i < s.len() implies 0 <= #[trigger] s[i] < adj.len() by {
        assert((adj[a][i] as int) < adj.len());
    }
    crate::forest::lemma_distinct_bounded(s, adj.len() as int);
}

/// Removing one item from a list without repeats leaves exactly the other items.
pub proof fn lemma_swap_removed(s: Seq<u32>, i: int)
    requires
        s.no_duplicates(),
        0 <= i < s.len(),
    ensures
        swap_removed(s, i).no_duplicates(),
        swap_removed(s, i).len() == s.len() - 1,
        forall|y: u32| #[trigger] swap_removed(s, i).contains(y) <==> (s.contains(y) && y != s[i]),
        forall|j: int| 0 <= j < swap_removed(s, i).len() ==> #[trigger] swap_removed(s, i)[j] == if j == i {
            s.last()
        } else {
            s[j]
        },
{
    let t = swap_removed(s, i);
    let last = s.len() - 1;
    assert forall|y: u32| #[trigger] t.contains(y) <==> (s.contains(y) && y != s[i]) by {
        if t.contains(y) {
            let j = choose|j: int| 0 <= j < t.len() && t[j] == y;
            if j == i {
                assert(s[last] == y);
            } else {
                assert(s[j] == y);
            }
        }
        if s.contains(y) && y != s[i] {
            let j = choose|j: int| 0 <= j < s.len() && s[j] == y;
            if j == last {
                assert(t[i] == y);
            } else {
                assert(t[j] == y);
            }
        }
    }
    assert forall|a: int, b: int| 0 <= a < t.len() && 0 <= b < t.len() && a != b implies t[a]
        != t[b] by {
        let sa = if a == i { last } else { a };
        let sb = if b == i { last } else { b };
        assert(t[a] == s[sa] && t[b] == s[sb]);
    }
}

/// An item is in a list with one item pushed exactly when it is that item
/// or was there before.
pub proof fn lemma_push_contains(s: Seq<u32>, w: u32, y: u32)
    ensures
        s.push(w).contains(y) <==> (s.contains(y) || y == w),
{
    if s.push(w).contains(y) {
        let j = choose|j: int| 0 <= j < s.push(w).len() && #[trigger] s.push(w)[j] == y;
        if j < s.len() {
            assert(s[j] == y);
        }
    }
    if s.contains(y) {
        let j = choose|j: int| 0 <= j < s.len() && #[trigger] s[j] == y;
        assert(s.push(w)[j] == y);
    }
    if y == w {
        assert(s.push(w)[s.len() as int] == w);
    }
}

/// Adding an absent edge keeps the graph well formed and adds just that edge.
pub proof fn lemma_with_edge(adj: Seq<Seq<u32>>, u: int, v: int)
    requires
        graph_wf(adj),
        0 <= u < adj.len(),
        0 <= v < adj.len(),
        u != v,
        !has_edge(adj, u, v),
        adj.len() <= u32::MAX,
    ensures
        graph_wf(with_edge(adj, u, v)),
        with_edge(adj, u, v).len() == adj.len(),
        forall|x: int, y: int|
            #[trigger] has_edge(with_edge(adj, u, v), x, y) <==> (has_edge(adj, x, y) || (x == u && y
                == v) || (x == v && y == u)),
{
    let adj2 = with_edge(adj, u, v);
    assert(!has_edge(adj, v, u));
    assert forall|x: int, y: int| #[trigger] has_edge(adj2, x, y) <==> (has_edge(adj, x, y) || (x
        == u && y == v) || (x == v && y == u)) by {
        if 0 <= x < adj.len() && 0 <= y < adj.len() {
            if x == u {
                assert(adj2[x] == adj[u].push(v as u32));
                lemma_push_contains(adj[u], v as u32, y as u32);
            } else if x == v {
                assert(adj2[x] == adj[v].push(u as u32));
                lemma_push_contains(adj[v], u as u32, y as u32);
            } else {
                assert(adj2[x] == adj[x]);
            }
        }
    }
    assert forall|a: int, j: int|
        0 <= a < adj2.len() && 0 <= j < adj2[a].len() implies (#[trigger] adj2[a][j] as int)
        < adj2.len() by {
        if a == u {
            if j < adj[u].len() {
                assert(adj2[a][j] == adj[u][j]);
            }
        } else if a == v {
            if j < adj[v].len() {
                assert(adj2[a][j] == adj[v][j]);
            }
        } else {
            assert(adj2[a][j] == adj[a][j]);
        }
    }
    assert forall|a: int| 0 <= a < adj2.len() implies (#[trigger] adj2[a]).no_duplicates() by {
        if a == u || a == v {
            let w = if a == u { v } else { u };
            let s = adj[a];
            assert(adj2[a] == s.push(w as u32));
            assert(!s.contains(w as u32)) by {
                if s.contains(w as u32) {
                    let j = choose|j: int| 0 <= j < s.len() && s[j] == w as u32;
                    assert((s[j] as int) < adj.len());
                    assert(has_edge(adj, a, w));
                }
            }
            let t = s.push(w as u32);
            assert forall|p: int, q: int| 0 <= p < t.len() && 0 <= q < t.len() && p != q implies #[trigger] t[p]
                != #[trigger] t[q] by {
                if p < s.len() && q < s.len() {
                } else if p < s.len() {
                    assert(s.contains(s[p]));
                } else {
                    assert(s.contains(s[q]));
                }
            }
        } else {
            assert(adj2[a] == adj[a]);
        }
    }
}

/// Deleting an edge whose ends stay connected without it changes no
/// connectivity.
pub proof fn lemma_without_edge_connectivity(adj: Seq<Seq<u32>>, u: int, v: int, a: int, b: int)
    requires
        graph_wf(adj),
        u != v,
        has_edge(adj, u, v),
        adj.len() <= u32::MAX,
        connected(without_edge(adj, u, v), u, v),
    ensures
        connected(without_edge(adj, u, v), a, b) <==> connected(adj, a, b),
{
    let adj2 = without_edge(adj, u, v);
    lemma_without_edge(adj, u, v);
    if connected(adj2, a, b) {
        let p = choose|p: Seq<int>| is_path(adj2, p, a, b);
        assert forall|i: int| 0 <= i < p.len() - 1 implies #[trigger] has_edge(adj, p[i], p[i + 1]) by {
            assert(has_edge(adj2, p[i], p[i + 1]));
        }
        assert(is_path(adj, p, a, b));
    }
    if connected(adj, a, b) {
        let f = |x: int| if connected(adj2, a, x) { 1int } else { 0int };
        assert forall|x: int, y: int| #[trigger] has_edge(adj, x, y) implies f(x) == f(y) by {
            assert(has_edge(adj, y, x));
            if (x == u && y == v) || (x == v && y == u) {
                lemma_connected_sym(adj2, u, v);
                if connected(adj2, a, x) {
                    lemma_connected_trans(adj2, a, x, y);
                }
                if connected(adj2, a, y) {
                    lemma_connected_trans(adj2, a, y, x);
                }
            } else {
                assert(has_edge(adj2, x, y));
                assert(has_edge(adj2, y, x));
                lemma_connected_edge(adj2, x, y);
                lemma_connected_edge(adj2, y, x);
                if connected(adj2, a, x) {
                    lemma_connected_trans(adj2, a, x, y);
                }
                if connected(adj2, a, y) {
                    lemma_connected_trans(adj2, a, y, x);
                }
            }
        }
        lemma_connected_refl(adj2, a);
        lemma_connected_label(adj, f, a, b);
    }
}

/// Removing a present edge keeps the graph well formed and removes just that edge.
pub proof fn lemma_without_edge(adj: Seq<Seq<u32>>, u: int, v: int)
    requires
        graph_wf(adj),
        u != v,
        has_edge(adj, u, v),
        adj.len() <= u32::MAX,
    ensures
        graph_wf(without_edge(adj, u, v)),
        without_edge(adj, u, v).len() == adj.len(),
        forall|x: int, y: int|
            #[trigger] has_edge(without_edge(adj, u, v), x, y) <==> (has_edge(adj, x, y) && !(x == u
                && y == v) && !(x == v && y == u)),
{
    let adj2 = without_edge(adj, u, v);
    assert(has_edge(adj, v, u));
    adj[u].index_of_first_ensures(v as u32);
    adj[v].index_of_first_ensures(u as u32);
    let iu = adj[u].index_of_first(v as u32).unwrap();
    let iv = adj[v].index_of_first(u as u32).unwrap();
    lemma_swap_removed(adj[u], iu);
    lemma_swap_removed(adj[v], iv);
    assert(adj2[u] == swap_removed(adj[u], iu));
    assert(adj2[v] == swap_removed(adj[v], iv));
    assert forall|x: int, y: int| #[trigger] has_edge(adj2, x, y) <==> (has_edge(adj, x, y) && !(x
        == u && y == v) && !(x == v && y == u)) by {
        if 0 <= x < adj.len() && 0 <= y < adj.len() {
            if x == u {
                assert((y as u32 == v as u32) <==> y == v);
            } else if x == v {
                assert((y as u32 == u as u32) <==> y == u);
            } else {
                assert(adj2[x] == adj[x]);
            }
        }
    }
    assert forall|a: int, j: int|
        0 <= a < adj2.len() && 0 <= j < adj2[a].len() implies (#[trigger] adj2[a][j] as int)
        < adj2.len() by {
        if a == u {
            assert(adj2[a].contains(adj2[a][j]));
        } else if a == v {
            assert(adj2[a].contains(adj2[a][j]));
        } else {
            assert(adj2[a][j] == adj[a][j]);
        }
        if a == u || a == v {
            let k = choose|k: int| 0 <= k < adj[a].len() && adj[a][k] == adj2[a][j];
            assert((adj[a][k] as int) < adj.len());
        }
    }
    assert forall|a: int| 0 <= a < adj2.len() implies (#[trigger] adj2[a]).no_duplicates() by {
        if a != u && a != v {
            assert(adj2[a] == adj[a]);
        }
    }
}


/// A rotation reverses forest edges and adds the edge from `u` to `np`, so
/// forest edges stay graph edges when that one is.
pub proof fn lemma_rotate_tree_edges(adj: Seq<Seq<u32>>, par: Seq<usize>, dep: Seq<nat>, u: usize, np: usize)
    requires
        graph_wf(adj),
        adj.len() == par.len(),
        forest_wf(par, dep),
        tree_edges_in_graph(adj, par),
        u < par.len(),
        np == SENTINEL || has_edge(adj, u as int, np as int),
    ensures
        tree_edges_in_graph(adj, rotated(par, dep, u, np)),
{
    let rot = rotated(par, dep, u, np);
    assert forall|w: int| 0 <= w < rot.len() && #[trigger] rot[w] != SENTINEL implies has_edge(
        adj,
        w,
        rot[w] as int,
    ) by {
        if w == u {
        } else if is_desc(par, dep, u, w as usize) {
            let k = (dep[u as int] - dep[w] - 1) as nat;
            let c = anc(par, u, k);
            lemma_anc_depth(par, dep, u, k);
            lemma_anc_depth(par, dep, u, k + 1);
            crate::forest::lemma_anc_add(par, u, k, 1);
            assert(anc(par, c, 1) == anc(par, par[c as int], 0));
            assert(par[c as int] == w);
            assert(has_edge(adj, c as int, w));
        } else {
        }
    }
}

/// Cutting a forest edge keeps forest edges graph edges.
pub proof fn lemma_cut_tree_edges(adj: Seq<Seq<u32>>, par: Seq<usize>, x: usize)
    requires
        tree_edges_in_graph(adj, par),
        x < par.len(),
    ensures
        tree_edges_in_graph(adj, par.update(x as int, SENTINEL)),
{
}


/// Like `spans`, except that edges may also join the trees rooted at `r1`
/// and `r2`.
pub open spec fn spans_except(adj: Seq<Seq<u32>>, par: Seq<usize>, dep: Seq<nat>, r1: usize, r2: usize) -> bool {
    &&& adj.len() == par.len()
    &&& graph_wf(adj)
    &&& forest_wf(par, dep)
    &&& tree_edges_in_graph(adj, par)
    &&& forall|a: int, b: int|
        #[trigger] has_edge(adj, a, b) ==> {
            let ra = root(par, dep, a as usize);
            let rb = root(par, dep, b as usize);
            ||| ra == rb
            ||| (ra == r1 && rb == r2)
            ||| (ra == r2 && rb == r1)
        }
}

/// Rerooting a tree of a spanning forest leaves a spanning forest.
pub proof fn lemma_reroot_spans(adj: Seq<Seq<u32>>, par: Seq<usize>, dep: Seq<nat>, x: usize)
    requires
        spans(adj, par, dep),
        x < par.len(),
    ensures
        spans(adj, rotated(par, dep, x, SENTINEL), rebuilt(rotated(par, dep, x, SENTINEL))),
        forall|w: usize|
            w < par.len() ==> #[trigger] root(
                rotated(par, dep, x, SENTINEL),
                rebuilt(rotated(par, dep, x, SENTINEL)),
                w,
            ) == if root(par, dep, w) == root(par, dep, x) {
                x
            } else {
                root(par, dep, w)
            },
{
    lemma_rotate(par, dep, x, SENTINEL);
    lemma_rotate_tree_edges(adj, par, dep, x, SENTINEL);
    let par2 = rotated(par, dep, x, SENTINEL);
    let dep2 = rebuilt(par2);
    assert forall|a: int, b: int| #[trigger] has_edge(adj, a, b) implies root(par2, dep2, a as usize)
        == root(par2, dep2, b as usize) by {
        assert(root(par, dep, a as usize) == root(par, dep, b as usize));
    }
}

/// Joining two trees by an edge between them leaves a spanning forest when
/// no other edge of the graph lies between different trees.
pub proof fn lemma_join(adj: Seq<Seq<u32>>, par: Seq<usize>, dep: Seq<nat>, u: usize, v: usize)
    requires
        spans_except(adj, par, dep, root(par, dep, u), root(par, dep, v)),
        has_edge(adj, u as int, v as int),
        root(par, dep, u) != root(par, dep, v),
    ensures
        spans(adj, rotated(par, dep, u, v), rebuilt(rotated(par, dep, u, v))),
        forall|w: usize|
            w < par.len() ==> #[trigger] root(rotated(par, dep, u, v), rebuilt(rotated(par, dep, u, v)), w)
                == if root(par, dep, w) == root(par, dep, u) {
                root(par, dep, v)
            } else {
                root(par, dep, w)
            },
{
    lemma_rotate(par, dep, u, v);
    lemma_rotate_tree_edges(adj, par, dep, u, v);
    let par2 = rotated(par, dep, u, v);
    let dep2 = rebuilt(par2);
    assert forall|a: int, b: int| #[trigger] has_edge(adj, a, b) implies root(par2, dep2, a as usize)
        == root(par2, dep2, b as usize) by {
    }
}


/// The adjacency lists after listing `k` among the neighbors of `j` and
/// `j` among those of `k`, unless `k` is already a neighbor of `j`.
pub open spec fn add_pair(adj: Seq<Seq<u32>>, j: int, k: int) -> Seq<Seq<u32>> {
    if adj[j].contains(k as u32) {
        adj
    } else if j == k {
        adj.update(j, adj[j].push(k as u32))
    } else {
        with_edge(adj, j, k)
    }
}

/// `n` empty adjacency lists.
pub open spec fn empty_adj(n: nat) -> Seq<Seq<u32>> {
    Seq::new(n, |i: int| Seq::<u32>::empty())
}

/// The adjacency lists built by adding the pairs of `edges` in order to
/// `n` empty lists.
pub open spec fn adj_of_edges(n: nat, edges: Seq<(usize, usize)>) -> Seq<Seq<u32>>
    decreases edges.len(),
{
    if edges.len() == 0 {
        empty_adj(n)
    } else {
        let e = edges.last();
        add_pair(adj_of_edges(n, edges.drop_last()), e.0 as int, e.1 as int)
    }
}

/// `(x, y)` is listed among `edges`, in either direction.
pub open spec fn listed(edges: Seq<(usize, usize)>, x: int, y: int) -> bool {
    exists|i: int| 0 <= i < edges.len() && ((edges[i].0 == x && edges[i].1 == y) || (edges[i].0 == y && edges[i].1 == x))
}

/// Adding a pair keeps the graph well formed and adds just that edge.
pub proof fn lemma_add_pair(adj: Seq<Seq<u32>>, j: int, k: int)
    requires
        graph_wf(adj),
        0 <= j < adj.len(),
        0 <= k < adj.len(),
        adj.len() <= u32::MAX,
    ensures
        graph_wf(add_pair(adj, j, k)),
        add_pair(adj, j, k).len() == adj.len(),
        forall|x: int, y: int|
            #[trigger] has_edge(add_pair(adj, j, k), x, y) <==> (has_edge(adj, x, y) || (x == j && y
                == k) || (x == k && y == j)),
{
    if adj[j].contains(k as u32) {
        assert(has_edge(adj, j, k));
        assert(has_edge(adj, k, j));
    } else if j == k {
        let adj2 = add_pair(adj, j, k);
        assert forall|x: int, y: int| #[trigger] has_edge(adj2, x, y) <==> (has_edge(adj, x, y) || (x == j && y == k) || (x == k && y == j)) by {
            if 0 <= x < adj.len() && 0 <= y < adj.len() {
                if x == j {
                    lemma_push_contains(adj[j], k as u32, y as u32);
                } else {
                    assert(adj2[x] == adj[x]);
                }
            }
        }
        assert forall|a: int, i: int|
            0 <= a < adj2.len() && 0 <= i < adj2[a].len() implies (#[trigger] adj2[a][i] as int) < adj2.len() by {
            if a == j && i < adj[j].len() {
                assert(adj2[a][i] == adj[j][i]);
            } else if a != j {
                assert(adj2[a] == adj[a]);
            }
        }
        assert forall|a: int| 0 <= a < adj2.len() implies (#[trigger] adj2[a]).no_duplicates() by {
            if a == j {
                let t = adj[j].push(k as u32);
                assert forall|p: int, q: int| 0 <= p < t.len() && 0 <= q < t.len() && p != q implies #[trigger] t[p] != #[trigger] t[q] by {
                    if p < adj[j].len() && q < adj[j].len() {
                    } else if p < adj[j].len() {
                        assert(adj[j].contains(adj[j][p]));
                    } else {
                        assert(adj[j].contains(adj[j][q]));
                    }
                }
            } else {
                assert(adj2[a] == adj[a]);
            }
        }
    } else {
        lemma_with_edge(adj, j, k);
    }
}

/// The graph built from `edges` is well formed and has exactly the listed edges.
pub proof fn lemma_adj_of_edges(n: nat, edges: Seq<(usize, usize)>)
    requires
        n <= u32::MAX,
        forall|i: int| 0 <= i < edges.len() ==> (#[trigger] edges[i]).0 < n && edges[i].1 < n,
    ensures
        adj_of_edges(n, edges).len() == n,
        graph_wf(adj_of_edges(n, edges)),
        forall|x: int, y: int| #[trigger] has_edge(adj_of_edges(n, edges), x, y) <==> listed(edges, x, y),
    decreases edges.len(),
{
    if edges.len() == 0 {
        let adj = empty_adj(n);
        assert forall|x: int, y: int| #[trigger] has_edge(adj, x, y) <==> listed(edges, x, y) by {
            if has_edge(adj, x, y) {
                assert(adj[x].len() == 0);
            }
        }
        assert forall|a: int| 0 <= a < adj.len() implies (#[trigger] adj[a]).no_duplicates() by {
        }
    } else {
        let pre = edges.drop_last();
        let e = edges.last();
        assert forall|i: int| 0 <= i < pre.len() implies (#[trigger] pre[i]).0 < n && pre[i].1 < n by {
            assert(pre[i] == edges[i]);
        }
        lemma_adj_of_edges(n, pre);
        lemma_add_pair(adj_of_edges(n, pre), e.0 as int, e.1 as int);
        let adj = adj_of_edges(n, edges);
        assert forall|x: int, y: int| #[trigger] has_edge(adj, x, y) <==> listed(edges, x, y) by {
            if listed(pre, x, y) {
                let i = choose|i: int| 0 <= i < pre.len() && ((pre[i].0 == x && pre[i].1 == y) || (pre[i].0 == y && pre[i].1 == x));
                assert(edges[i] == pre[i]);
            }
            if listed(edges, x, y) {
                let i = choose|i: int| 0 <= i < edges.len() && ((edges[i].0 == x && edges[i].1 == y) || (edges[i].0 == y && edges[i].1 == x));
                if i < pre.len() {
                    assert(pre[i] == edges[i]);
                    assert(listed(pre, x, y));
                }
            }
            if (x == e.0 && y == e.1) || (x == e.1 && y == e.0) {
                assert(edges[edges.len() - 1] == e);
            }
        }
    }
}

} // verus!
