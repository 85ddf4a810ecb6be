//! The breadth-first walk over one tree that looks for an edge leaving it:
//! what holds of the visit list while the walk goes on, and why a walk that
//! finds nothing proves the tree to be a whole component.
use vstd::prelude::*;
use crate::forest::{
    SENTINEL, forest_wf, root, is_desc, lemma_root, lemma_root_parent, lemma_desc_root,
    lemma_distinct_bounded, lemma_closed_holds_tree,
};
use crate::graph::{has_edge, graph_wf, tree_edges_in_graph, spans, spans_except};

verus! {

/// The visit list starts at the root `u`, repeats no node, and holds only
/// nodes of the tree of `u`.
#[verifier::opaque]
pub open spec fn visit_list(l: Seq<usize>, par: Seq<usize>, dep: Seq<nat>, u: usize) -> bool {
    &&& l.len() >= 1
    &&& l[0] == u
    &&& l.no_duplicates()
    &&& forall|k: int| 0 <= k < l.len() ==> #[trigger] l[k] < par.len() && root(par, dep, l[k]) == u
}

/// Exactly the listed nodes carry the mark `g`.
#[verifier::opaque]
pub open spec fn marks_match(gens: Seq<u16>, l: Seq<usize>, g: u16, n: nat) -> bool {
    forall|x: usize| x < n ==> (#[trigger] gens[x as int] == g <==> l.contains(x))
}

/// Every listed node but the first has its parent among the first `i`.
#[verifier::opaque]
pub open spec fn parents_visited(l: Seq<usize>, par: Seq<usize>, i: int) -> bool {
    forall|k: int|
        1 <= k < l.len() ==> par[#[trigger] l[k] as int] != SENTINEL && l.subrange(0, i).contains(
            par[l[k] as int],
        )
}

/// Every child of the first `i` listed nodes is listed.
#[verifier::opaque]
pub open spec fn children_listed(l: Seq<usize>, par: Seq<usize>, i: int) -> bool {
    forall|x: usize|
        x < par.len() && #[trigger] par[x as int] != SENTINEL && l.subrange(0, i).contains(par[x as int])
            ==> l.contains(x)
}

/// No neighbor of the first `i` listed nodes lies outside the tree of `u`.
#[verifier::opaque]
pub open spec fn edges_inside(l: Seq<usize>, adj: Seq<Seq<u32>>, par: Seq<usize>, dep: Seq<nat>, u: usize, i: int) -> bool {
    forall|k: int, y: int|
        0 <= k < i && #[trigger] has_edge(adj, l[k] as int, y) ==> root(par, dep, y as usize) == u
}

/// Among the first `m` neighbors of `node`, the children of `node` are
/// listed, and every listed child of `node` is among them.
#[verifier::opaque]
pub open spec fn children_seen(l: Seq<usize>, adj: Seq<Seq<u32>>, par: Seq<usize>, node: usize, m: int) -> bool {
    &&& forall|k: int|
        1 <= k < l.len() && par[#[trigger] l[k] as int] == node ==> adj[node as int].subrange(
            0,
            m,
        ).contains(l[k] as u32)
    &&& forall|j: int|
        0 <= j < m && par[#[trigger] adj[node as int][j] as int] == node ==> l.contains(
            adj[node as int][j] as usize,
        )
}

/// The first `m` neighbors of `node` lie in the tree of `u`.
#[verifier::opaque]
pub open spec fn neighbors_inside(adj: Seq<Seq<u32>>, par: Seq<usize>, dep: Seq<nat>, node: usize, u: usize, m: int) -> bool {
    forall|j: int| 0 <= j < m ==> root(par, dep, #[trigger] adj[node as int][j] as usize) == u
}

/// A visit list is no longer than the number of nodes.
pub proof fn lemma_list_len(l: Seq<usize>, par: Seq<usize>, dep: Seq<nat>, u: usize)
    requires
        visit_list(l, par, dep, u),
    ensures
        l.len() <= par.len(),
        l[0] == u,
        forall|k: int| 0 <= k < l.len() ==> #[trigger] l[k] < par.len() && root(par, dep, l[k]) == u,
{
    reveal(visit_list);
    let s = Seq::new(l.len(), |k: int| l[k] as int);
    assert forall|k1: int, k2: int| 0 <= k1 < s.len() && 0 <= k2 < s.len() && k1 != k2 implies s[k1]
        != s[k2] by {
        assert(l[k1] != l[k2]);
    }
    assert forall|k: int| 0 <= k < s.len() implies 0 <= #[trigger] s[k] < par.len() by {
        assert(l[k] < par.len());
    }
    lemma_distinct_bounded(s, par.len() as int);
}

/// The walk starts with the root alone, marked.
pub proof fn lemma_search_start(par: Seq<usize>, dep: Seq<nat>, adj: Seq<Seq<u32>>, gens: Seq<u16>, g: u16, u: usize)
    requires
        forest_wf(par, dep),
        u < par.len(),
        par[u as int] == SENTINEL,
        gens.len() == par.len(),
        forall|x: int| 0 <= x < par.len() ==> #[trigger] gens[x] < g,
    ensures
        visit_list(seq![u], par, dep, u),
        marks_match(gens.update(u as int, g), seq![u], g, par.len()),
        parents_visited(seq![u], par, 0),
        children_listed(seq![u], par, 0),
        edges_inside(seq![u], adj, par, dep, u, 0),
{
    reveal(visit_list);
    reveal(marks_match);
    reveal(parents_visited);
    reveal(children_listed);
    reveal(edges_inside);
    lemma_root(par, dep, u);
    assert(root(par, dep, u) == u);
    assert forall|x: usize| x < par.len() implies (#[trigger] gens.update(u as int, g)[x as int] == g
        <==> seq![u].contains(x)) by {
        if x == u {
            assert(seq![u][0] == u);
        } else {
            assert(gens.update(u as int, g)[x as int] == gens[x as int]);
            assert(!seq![u].contains(x)) by {
                if seq![u].contains(x) {
                    let k = choose|k: int| 0 <= k < 1 && seq![u][k] == x;
                }
            }
        }
    }
    assert forall|x: usize| x < par.len() && #[trigger] par[x as int] != SENTINEL && seq![u].subrange(0, 0).contains(par[x as int])
        implies seq![u].contains(x) by {
        assert(seq![u].subrange(0, 0).len() == 0);
    }
}

/// Starting on the node at position `i` of the list: no listed node is yet
/// known as its child, and its parent was visited earlier.
pub proof fn lemma_begin_node(l: Seq<usize>, adj: Seq<Seq<u32>>, par: Seq<usize>, dep: Seq<nat>, u: usize, i: int)
    requires
        visit_list(l, par, dep, u),
        parents_visited(l, par, i),
        0 <= i < l.len(),
    ensures
        children_seen(l, adj, par, l[i], 0),
        parents_visited(l, par, i + 1),
{
    reveal(visit_list);
    reveal(parents_visited);
    reveal(children_seen);
    let node = l[i];
    assert forall|k: int| 1 <= k < l.len() && par[#[trigger] l[k] as int] == node implies adj[node as int].subrange(
        0,
        0,
    ).contains(l[k] as u32) by {
        assert(l.subrange(0, i).contains(par[l[k] as int]));
        let j = choose|j: int| 0 <= j < i && #[trigger] l.subrange(0, i)[j] == par[l[k] as int];
        assert(l[j] == l[i]);
    }
    assert forall|k: int| 1 <= k < l.len() implies par[#[trigger] l[k] as int] != SENTINEL && l.subrange(0, i + 1).contains(
        par[l[k] as int],
    ) by {
        let j = choose|j: int| 0 <= j < i && #[trigger] l.subrange(0, i)[j] == par[l[k] as int];
        assert(l.subrange(0, i + 1)[j] == par[l[k] as int]);
    }
}

/// Passing over a neighbor of `node` that is not its child and lies in the
/// tree of `u`.
pub proof fn lemma_skip_neighbor(l: Seq<usize>, adj: Seq<Seq<u32>>, par: Seq<usize>, dep: Seq<nat>, node: usize, u: usize, m: int)
    requires
        children_seen(l, adj, par, node, m),
        neighbors_inside(adj, par, dep, node, u, m),
        0 <= m < adj[node as int].len(),
        par[adj[node as int][m] as int] != node,
        root(par, dep, adj[node as int][m] as usize) == u,
    ensures
        children_seen(l, adj, par, node, m + 1),
        neighbors_inside(adj, par, dep, node, u, m + 1),
{
    reveal(children_seen);
    reveal(neighbors_inside);
    assert forall|k: int| 1 <= k < l.len() && par[#[trigger] l[k] as int] == node implies adj[node as int].subrange(
        0,
        m + 1,
    ).contains(l[k] as u32) by {
        let j = choose|j: int| 0 <= j < m && adj[node as int].subrange(0, m)[j] == l[k] as u32;
        assert(adj[node as int].subrange(0, m + 1)[j] == l[k] as u32);
    }
}

/// Listing a child of `node` found at position `m` of its neighbors.
pub proof fn lemma_push_child(
    l: Seq<usize>,
    gens: Seq<u16>,
    g: u16,
    adj: Seq<Seq<u32>>,
    par: Seq<usize>,
    dep: Seq<nat>,
    u: usize,
    node: usize,
    i: int,
    m: int,
)
    requires
        forest_wf(par, dep),
        graph_wf(adj),
        adj.len() == par.len(),
        par.len() <= u32::MAX,
        gens.len() == par.len(),
        visit_list(l, par, dep, u),
        marks_match(gens, l, g, par.len()),
        parents_visited(l, par, i + 1),
        children_listed(l, par, i),
        edges_inside(l, adj, par, dep, u, i),
        children_seen(l, adj, par, node, m),
        neighbors_inside(adj, par, dep, node, u, m),
        0 <= i < l.len(),
        l[i] == node,
        node < par.len(),
        root(par, dep, node) == u,
        0 <= m < adj[node as int].len(),
        par[adj[node as int][m] as int] == node,
    ensures
        !l.contains(adj[node as int][m] as usize),
        visit_list(l.push(adj[node as int][m] as usize), par, dep, u),
        marks_match(
            gens.update(adj[node as int][m] as int, g),
            l.push(adj[node as int][m] as usize),
            g,
            par.len(),
        ),
        parents_visited(l.push(adj[node as int][m] as usize), par, i + 1),
        children_listed(l.push(adj[node as int][m] as usize), par, i),
        edges_inside(l.push(adj[node as int][m] as usize), adj, par, dep, u, i),
        children_seen(l.push(adj[node as int][m] as usize), adj, par, node, m + 1),
        neighbors_inside(adj, par, dep, node, u, m + 1),
{
    reveal(visit_list);
    reveal(marks_match);
    reveal(parents_visited);
    reveal(children_listed);
    reveal(edges_inside);
    reveal(children_seen);
    reveal(neighbors_inside);
    let y = adj[node as int][m] as usize;
    let l2 = l.push(y);
    assert((adj[node as int][m] as int) < adj.len());
    assert(y as u32 == adj[node as int][m]);
    lemma_root_parent(par, dep, y);
    assert(!l.contains(y)) by {
        if l.contains(y) {
            let k = choose|k: int| 0 <= k < l.len() && #[trigger] l[k] == y;
            if k == 0 {
                assert(par[u as int] == SENTINEL) by {
                    lemma_root(par, dep, u);
                    assert(root(par, dep, l[0]) == u);
                }
            } else {
                assert(adj[node as int].subrange(0, m).contains(l[k] as u32));
                let j = choose|j: int| 0 <= j < m && adj[node as int].subrange(0, m)[j] == l[k] as u32;
                assert(adj[node as int][j] == adj[node as int][m]);
                assert(adj[node as int].no_duplicates());
            }
        }
    }
    assert forall|k: int| 0 <= k < l2.len() implies #[trigger] l2[k] < par.len() && root(par, dep, l2[k]) == u by {
        if k < l.len() {
            assert(l2[k] == l[k]);
        }
    }
    assert forall|a: int, b: int| 0 <= a < l2.len() && 0 <= b < l2.len() && a != b implies l2[a] != l2[b] by {
        if a < l.len() && b < l.len() {
        } else if a < l.len() {
            assert(l.contains(l[a]));
        } else {
            assert(l.contains(l[b]));
        }
    }
    assert forall|x: usize| x < par.len() implies (#[trigger] gens.update(y as int, g)[x as int] == g
        <==> l2.contains(x)) by {
        if x == y {
            assert(l2[l.len() as int] == y);
        } else {
            assert(gens[x as int] == g <==> l.contains(x));
            if l.contains(x) {
                let k = choose|k: int| 0 <= k < l.len() && #[trigger] l[k] == x;
                assert(l2[k] == x);
            }
            if l2.contains(x) {
                let k = choose|k: int| 0 <= k < l2.len() && #[trigger] l2[k] == x;
                assert(l[k] == x);
            }
        }
    }
    assert(l2.subrange(0, i + 1) =~= l.subrange(0, i + 1));
    assert(l2.subrange(0, i) =~= l.subrange(0, i));
    assert forall|k: int| 1 <= k < l2.len() implies par[#[trigger] l2[k] as int] != SENTINEL && l2.subrange(0, i + 1).contains(
        par[l2[k] as int],
    ) by {
        if k < l.len() {
            assert(l2[k] == l[k]);
        } else {
            assert(l.subrange(0, i + 1)[i] == node);
        }
    }
    assert forall|x: usize| x < par.len() && #[trigger] par[x as int] != SENTINEL && l2.subrange(0, i).contains(par[x as int])
        implies l2.contains(x) by {
        assert(l.contains(x));
        let k = choose|k: int| 0 <= k < l.len() && #[trigger] l[k] == x;
        assert(l2[k] == x);
    }
    assert forall|k: int, z: int| 0 <= k < i && #[trigger] has_edge(adj, l2[k] as int, z) implies root(par, dep, z as usize) == u by {
        assert(l2[k] == l[k]);
    }
    assert forall|k: int| 1 <= k < l2.len() && par[#[trigger] l2[k] as int] == node implies adj[node as int].subrange(
        0,
        m + 1,
    ).contains(l2[k] as u32) by {
        if k < l.len() {
            assert(l2[k] == l[k]);
            let j = choose|j: int| 0 <= j < m && adj[node as int].subrange(0, m)[j] == l[k] as u32;
            assert(adj[node as int].subrange(0, m + 1)[j] == l[k] as u32);
        } else {
            assert(adj[node as int].subrange(0, m + 1)[m] == y as u32);
        }
    }
    assert forall|j: int| 0 <= j < m + 1 && par[#[trigger] adj[node as int][j] as int] == node implies l2.contains(
        adj[node as int][j] as usize,
    ) by {
        if j < m {
            assert(l.contains(adj[node as int][j] as usize));
            let k = choose|k: int| 0 <= k < l.len() && #[trigger] l[k] == adj[node as int][j] as usize;
            assert(l2[k] == adj[node as int][j] as usize);
        } else {
            assert(l2[l.len() as int] == y);
        }
    }
}

/// Finishing the node at position `i`: its children are listed and its
/// neighbors lie in the tree.
pub proof fn lemma_end_node(l: Seq<usize>, adj: Seq<Seq<u32>>, par: Seq<usize>, dep: Seq<nat>, u: usize, i: int)
    requires
        graph_wf(adj),
        adj.len() == par.len(),
        par.len() <= u32::MAX,
        tree_edges_in_graph(adj, par),
        0 <= i < l.len(),
        children_listed(l, par, i),
        edges_inside(l, adj, par, dep, u, i),
        children_seen(l, adj, par, l[i], adj[l[i] as int].len() as int),
        neighbors_inside(adj, par, dep, l[i], u, adj[l[i] as int].len() as int),
    ensures
        children_listed(l, par, i + 1),
        edges_inside(l, adj, par, dep, u, i + 1),
{
    reveal(children_listed);
    reveal(edges_inside);
    reveal(children_seen);
    reveal(neighbors_inside);
    let node = l[i];
    let nb = adj[node as int];
    assert forall|x: usize| x < par.len() && #[trigger] par[x as int] != SENTINEL && l.subrange(0, i + 1).contains(par[x as int])
        implies l.contains(x) by {
        let j = choose|j: int| 0 <= j < i + 1 && #[trigger] l.subrange(0, i + 1)[j] == par[x as int];
        if j < i {
            assert(l.subrange(0, i)[j] == par[x as int]);
        } else {
            assert(par[x as int] == node);
            assert(has_edge(adj, x as int, node as int));
            assert(has_edge(adj, node as int, x as int));
            let q = choose|q: int| 0 <= q < nb.len() && #[trigger] nb[q] == x as u32;
            assert(nb[q] as usize == x);
        }
    }
    assert forall|k: int, y: int| 0 <= k < i + 1 && #[trigger] has_edge(adj, l[k] as int, y) implies root(par, dep, y as usize) == u by {
        if k == i {
            let q = choose|q: int| 0 <= q < nb.len() && #[trigger] nb[q] == y as u32;
            assert(nb[q] as usize == y as usize);
        }
    }
}

/// A walk that ran out of nodes without finding an edge leaving the tree of
/// `u` has visited the whole tree, so no edge joins it to another tree.
pub proof fn lemma_search_done(l: Seq<usize>, adj: Seq<Seq<u32>>, par: Seq<usize>, dep: Seq<nat>, u: usize, root_v: usize)
    requires
        spans_except(adj, par, dep, u, root_v),
        visit_list(l, par, dep, u),
        children_listed(l, par, l.len() as int),
        edges_inside(l, adj, par, dep, u, l.len() as int),
        root(par, dep, u) == u,
    ensures
        spans(adj, par, dep),
{
    reveal(visit_list);
    reveal(children_listed);
    reveal(edges_inside);
    assert(l.subrange(0, l.len() as int) =~= l);
    let st = Set::new(|x: usize| l.contains(x));
    assert(st.contains(u)) by {
        assert(l[0] == u);
    }
    assert forall|x: usize| x < par.len() && #[trigger] par[x as int] != SENTINEL && st.contains(par[x as int]) implies st.contains(x) by {
        assert(l.subrange(0, l.len() as int).contains(par[x as int]));
    }
    assert forall|p: int, q: int| #[trigger] has_edge(adj, p, q) implies root(par, dep, p as usize) == root(par, dep, q as usize) by {
        if root(par, dep, p as usize) == u {
            lemma_closed_holds_tree(par, dep, st, u, p as usize);
            let k = choose|k: int| 0 <= k < l.len() && #[trigger] l[k] == p as usize;
            assert(has_edge(adj, l[k] as int, q));
        } else if root(par, dep, q as usize) == u {
            assert(has_edge(adj, q, p));
            lemma_closed_holds_tree(par, dep, st, u, q as usize);
            let k = choose|k: int| 0 <= k < l.len() && #[trigger] l[k] == q as usize;
            assert(has_edge(adj, l[k] as int, p));
        }
    }
}

/// A marked node on the root path of `w` means `w` is in the tree of `u`;
/// an unmarked path means it is not.
pub proof fn lemma_marked_path(l: Seq<usize>, gens: Seq<u16>, g: u16, par: Seq<usize>, dep: Seq<nat>, u: usize, w: usize)
    requires
        forest_wf(par, dep),
        visit_list(l, par, dep, u),
        marks_match(gens, l, g, par.len()),
        w < par.len(),
        root(par, dep, u) == u,
    ensures
        (exists|x: usize| #[trigger] is_desc(par, dep, w, x) && gens[x as int] == g) <==> root(par, dep, w) == u,
{
    reveal(visit_list);
    reveal(marks_match);
    if exists|x: usize| #[trigger] is_desc(par, dep, w, x) && gens[x as int] == g {
        let x = choose|x: usize| #[trigger] is_desc(par, dep, w, x) && gens[x as int] == g;
        lemma_desc_root(par, dep, w, x);
        let k = choose|k: int| 0 <= k < l.len() && #[trigger] l[k] == x;
        assert(root(par, dep, l[k]) == u);
    }
    if root(par, dep, w) == u {
        lemma_root(par, dep, w);
        assert(l[0] == u);
        assert(l.contains(u));
        assert(is_desc(par, dep, w, u));
    }
}

/// The turn of `node` in the walk over the tree of `u`, from its neighbor
/// `j` on: the parent of `node` is passed over, each child is listed, other
/// neighbors in the tree of `u` are passed over, and the first neighbor in
/// another tree is returned.
pub open spec fn repl_scan(
    adj: Seq<Seq<u32>>,
    par: Seq<usize>,
    dep: Seq<nat>,
    u: usize,
    node: usize,
    j: int,
    l: Seq<usize>,
) -> (Seq<usize>, Option<usize>)
    decreases adj[node as int].len() - j,
{
    if j < 0 || j >= adj[node as int].len() {
        (l, None)
    } else {
        let y = adj[node as int][j] as usize;
        if y == par[node as int] {
            repl_scan(adj, par, dep, u, node, j + 1, l)
        } else if par[y as int] == node {
            repl_scan(adj, par, dep, u, node, j + 1, l.push(y))
        } else if root(par, dep, y) == u {
            repl_scan(adj, par, dep, u, node, j + 1, l)
        } else {
            (l, Some(y))
        }
    }
}

/// The walk from position `i` of the list on (at most `fuel` turns): the
/// first edge `(node, neighbor)` met that leaves the tree.
pub open spec fn repl_run(
    adj: Seq<Seq<u32>>,
    par: Seq<usize>,
    dep: Seq<nat>,
    u: usize,
    l: Seq<usize>,
    i: int,
    fuel: nat,
) -> Option<(usize, usize)>
    decreases fuel,
{
    if fuel == 0 || i < 0 || i >= l.len() {
        None
    } else {
        let t = repl_scan(adj, par, dep, u, l[i], 0, l);
        match t.1 {
            Some(y) => Some((l[i], y)),
            None => repl_run(adj, par, dep, u, t.0, i + 1, (fuel - 1) as nat),
        }
    }
}

/// The edge that the breadth-first walk over the tree rooted at `u` takes
/// to leave it, children and neighbors in list order; `None` when no edge
/// leaves the tree.
pub open spec fn replacement_edge(adj: Seq<Seq<u32>>, par: Seq<usize>, dep: Seq<nat>, u: usize) -> Option<(usize, usize)> {
    repl_run(adj, par, dep, u, seq![u], 0, par.len())
}

} // verus!
