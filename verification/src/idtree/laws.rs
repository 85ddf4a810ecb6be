//! What holds of the ID-Tree across its operations: its queries answer
//! connectivity, an inserted edge joins its ends, deleting an edge just
//! inserted restores the graph, and the components it lists are the
//! components of the graph, each once.
use vstd::prelude::*;
use crate::idtree::IDTree;
use crate::idtree::components::{tree_roots, node_range, root_with_edge};
use crate::forest::{SENTINEL, root, anc, lemma_root, lemma_anc_depth, lemma_anc_add};
use crate::graph::{
    has_edge, graph_wf, connected, with_edge, without_edge, lemma_connected_refl, lemma_connected_sym,
    lemma_connected_trans, lemma_connected_edge, lemma_spans_connected, lemma_with_edge, lemma_without_edge,
};
use crate::distance::{is_dist, lemma_dist_sym};
use crate::smallvec_spec::swap_removed;

verus! {

/// Connectivity between the nodes of an ID-Tree, which `query` answers, is
/// an equivalence relation: every node is connected to itself, and the
/// relation is symmetric and transitive.
pub proof fn law_query_equivalence(t: &IDTree, u: usize, v: usize, w: usize)
    requires
        t.wf(),
    ensures
        u < t.num_nodes() ==> t.is_connected(u as int, u as int),
        t.is_connected(u as int, v as int) ==> t.is_connected(v as int, u as int),
        t.is_connected(u as int, v as int) && t.is_connected(v as int, w as int) ==> t.is_connected(u as int, w as int),
{
    lemma_connected_refl(t.adj(), u as int);
    if t.is_connected(u as int, v as int) {
        lemma_connected_sym(t.adj(), u as int, v as int);
        if t.is_connected(v as int, w as int) {
            lemma_connected_trans(t.adj(), u as int, v as int, w as int);
        }
    }
}

/// Two nodes are connected in the graph exactly when they lie in the same
/// tree of the spanning forest: this is what `query` compares.
pub proof fn law_connected_same_root(t: &IDTree, u: usize, v: usize)
    requires
        t.wf(),
        u < t.num_nodes(),
        v < t.num_nodes(),
    ensures
        t.is_connected(u as int, v as int) <==> t.root_of(u) == t.root_of(v),
{
    lemma_spans_connected(t.adj(), t.parents(), t.depths(), u, v);
}

/// An inserted edge joins its ends, and every two nodes that were
/// connected stay connected.
pub proof fn law_insert_joins(adj: Seq<Seq<u32>>, u: int, v: int, a: int, b: int)
    requires
        graph_wf(adj),
        0 <= u < adj.len(),
        0 <= v < adj.len(),
        u != v,
        adj.len() <= u32::MAX,
        !has_edge(adj, u, v),
    ensures
        connected(with_edge(adj, u, v), u, v),
        connected(adj, a, b) ==> connected(with_edge(adj, u, v), a, b),
{
    lemma_with_edge(adj, u, v);
    let adj2 = with_edge(adj, u, v);
    lemma_connected_edge(adj2, u, v);
    if connected(adj, a, b) {
        let p = choose|p: Seq<int>| crate::graph::is_path(adj, p, a, b);
        assert forall|i: int| 0 <= i < p.len() - 1 implies #[trigger] has_edge(adj2, p[i], p[i + 1]) by {
            assert(has_edge(adj, p[i], p[i + 1]));
        }
        assert(crate::graph::is_path(adj2, p, a, b));
    }
}

/// After an edge is inserted, two nodes are connected exactly when they
/// were connected before, or one reached `u` and the other `v`.
pub proof fn law_insert_connectivity(adj: Seq<Seq<u32>>, u: int, v: int, a: int, b: int)
    requires
        graph_wf(adj),
        0 <= u < adj.len(),
        0 <= v < adj.len(),
        u != v,
        adj.len() <= u32::MAX,
        !has_edge(adj, u, v),
    ensures
        connected(with_edge(adj, u, v), a, b) <==> (connected(adj, a, b) || (connected(adj, a, u) && connected(
            adj,
            v,
            b,
        )) || (connected(adj, a, v) && connected(adj, u, b))),
{
    let adj2 = with_edge(adj, u, v);
    lemma_with_edge(adj, u, v);
    law_insert_joins(adj, u, v, a, b);
    law_insert_joins(adj, u, v, a, u);
    law_insert_joins(adj, u, v, v, b);
    law_insert_joins(adj, u, v, a, v);
    law_insert_joins(adj, u, v, u, b);
    lemma_connected_sym(adj2, u, v);
    if connected(adj, a, u) && connected(adj, v, b) {
        lemma_connected_trans(adj2, a, u, v);
        lemma_connected_trans(adj2, a, v, b);
    }
    if connected(adj, a, v) && connected(adj, u, b) {
        lemma_connected_trans(adj2, a, v, u);
        lemma_connected_trans(adj2, a, u, b);
    }
    if connected(adj2, a, b) {
        let f = |x: int| if connected(adj, a, x) || (connected(adj, a, u) && connected(adj, v, x)) || (connected(adj, a, v)
            && connected(adj, u, x)) { 1int } else { 0int };
        assert forall|x: int, y: int| #[trigger] has_edge(adj2, x, y) implies f(x) == f(y) by {
            if (x == u && y == v) || (x == v && y == u) {
                lemma_connected_refl(adj, u);
                lemma_connected_refl(adj, v);
            } else {
                assert(has_edge(adj, x, y));
                assert(has_edge(adj, y, x));
                lemma_connected_edge(adj, x, y);
                lemma_connected_edge(adj, y, x);
                if connected(adj, a, x) {
                    lemma_connected_trans(adj, a, x, y);
                }
                if connected(adj, a, y) {
                    lemma_connected_trans(adj, a, y, x);
                }
                if connected(adj, v, x) {
                    lemma_connected_trans(adj, v, x, y);
                }
                if connected(adj, v, y) {
                    lemma_connected_trans(adj, v, y, x);
                }
                if connected(adj, u, x) {
                    lemma_connected_trans(adj, u, x, y);
                }
                if connected(adj, u, y) {
                    lemma_connected_trans(adj, u, y, x);
                }
            }
        }
        lemma_connected_refl(adj, a);
        crate::graph::lemma_connected_label(adj2, f, a, b);
    }
}

/// Deleting an edge right after inserting it gives back exactly the
/// adjacency lists there were before.
pub proof fn law_delete_after_insert(adj: Seq<Seq<u32>>, u: int, v: int)
    requires
        graph_wf(adj),
        0 <= u < adj.len(),
        0 <= v < adj.len(),
        u != v,
        adj.len() <= u32::MAX,
        !has_edge(adj, u, v),
    ensures
        without_edge(with_edge(adj, u, v), u, v) == adj,
{
    let adj2 = with_edge(adj, u, v);
    let lu = adj2[u];
    let lv = adj2[v];
    assert(lu == adj[u].push(v as u32));
    assert(lv == adj[v].push(u as u32));
    assert(!adj[u].contains(v as u32));
    assert(!has_edge(adj, v, u));
    assert(!adj[v].contains(u as u32));
    lu.index_of_first_ensures(v as u32);
    lv.index_of_first_ensures(u as u32);
    let iu = lu.index_of_first(v as u32).unwrap();
    let iv = lv.index_of_first(u as u32).unwrap();
    assert(lu[lu.len() - 1] == v as u32);
    assert(iu == lu.len() - 1) by {
        if iu < lu.len() - 1 {
            assert(adj[u][iu] == lu[iu]);
        }
    }
    assert(lv[lv.len() - 1] == u as u32);
    assert(iv == lv.len() - 1) by {
        if iv < lv.len() - 1 {
            assert(adj[v][iv] == lv[iv]);
        }
    }
    assert(swap_removed(lu, iu) =~= adj[u]);
    assert(swap_removed(lv, iv) =~= adj[v]);
    assert(without_edge(adj2, u, v) =~= adj);
}

/// Deleting an edge and inserting it again gives back the same graph: the
/// same edges, though the lists may hold them in another order.
pub proof fn law_insert_after_delete(adj: Seq<Seq<u32>>, u: int, v: int, x: int, y: int)
    requires
        graph_wf(adj),
        u != v,
        adj.len() <= u32::MAX,
        has_edge(adj, u, v),
    ensures
        has_edge(with_edge(without_edge(adj, u, v), u, v), x, y) <==> has_edge(adj, x, y),
{
    lemma_without_edge(adj, u, v);
    let adj1 = without_edge(adj, u, v);
    assert(!has_edge(adj1, u, v));
    lemma_with_edge(adj1, u, v);
    assert(has_edge(adj, v, u));
}

/// Distances are symmetric: a shortest path from `u` to `v` is as long as
/// one from `v` to `u`.
pub proof fn law_distance_symmetric(t: &IDTree, u: usize, v: usize, d: nat)
    requires
        t.wf(),
        is_dist(t.adj(), u as int, v as int, d),
    ensures
        is_dist(t.adj(), v as int, u as int, d),
{
    lemma_dist_sym(t.adj(), u as int, v as int, d);
}

/// The components that `connected_components` lists, one for each root of
/// the spanning forest with a neighbor, are distinct: no two of those roots
/// are connected.
pub proof fn law_components_distinct(t: &IDTree, i: int, j: int)
    requires
        t.wf(),
        0 <= i < tree_roots(t.adj(), t.parents()).len(),
        0 <= j < tree_roots(t.adj(), t.parents()).len(),
        i != j,
    ensures
        !t.is_connected(tree_roots(t.adj(), t.parents())[i] as int, tree_roots(t.adj(), t.parents())[j] as int),
{
    let adj = t.adj();
    let par = t.parents();
    let dep = t.depths();
    let rs = tree_roots(adj, par);
    let all = node_range(adj.len());
    let pred = root_with_edge(adj, par);
    all.filter_lemma(pred);
    let a = rs[i];
    let b = rs[j];
    assert(rs.contains(a));
    assert(rs.contains(b));
    all.lemma_filter_contains_rev(pred, a);
    all.lemma_filter_contains_rev(pred, b);
    let ka = choose|k: int| 0 <= k < all.len() && all[k] == a;
    let kb = choose|k: int| 0 <= k < all.len() && all[k] == b;
    assert(pred(a) && pred(b));
    assert(par[a as int] == SENTINEL && par[b as int] == SENTINEL);
    lemma_root(par, dep, a);
    lemma_root(par, dep, b);
    assert(root(par, dep, a) == a);
    assert(root(par, dep, b) == b);
    assert(rs.no_duplicates()) by {
        lemma_filter_range_distinct(adj, par);
    }
    lemma_spans_connected(adj, par, dep, a, b);
}

proof fn lemma_filter_range_distinct(adj: Seq<Seq<u32>>, par: Seq<usize>)
    requires
        adj.len() <= i32::MAX,
    ensures
        tree_roots(adj, par).no_duplicates(),
{
    let all = node_range(adj.len());
    assert forall|i: int, j: int| 0 <= i < j < all.len() implies all[i] != all[j] by {
    }
    lemma_filter_distinct(all, root_with_edge(adj, par));
}

proof fn lemma_filter_distinct<A>(s: Seq<A>, p: spec_fn(A) -> bool)
    requires
        s.no_duplicates(),
    ensures
        s.filter(p).no_duplicates(),
{
    crate::counting::lemma_filter_count(s, p);
    let f = s.filter(p);
    assert(f.to_set() =~= s.to_set().filter(p)) by {
        assert forall|x: A| #[trigger] f.to_set().contains(x) <==> s.to_set().filter(p).contains(x) by {
            if f.contains(x) {
                s.lemma_filter_contains_rev(p, x);
                let k = choose|k: int| 0 <= k < f.len() && f[k] == x;
                s.filter_lemma(p);
                assert(p(f[k]));
            }
            if s.contains(x) && p(x) {
                let k = choose|k: int| 0 <= k < s.len() && s[k] == x;
                s.filter_lemma(p);
                assert(f.contains(s[k]));
            }
        }
    }
    f.lemma_no_dup_set_cardinality();
}

/// The components that `connected_components` lists share no node: no node
/// is connected to two of the listed roots.
pub proof fn law_components_disjoint(t: &IDTree, i: int, j: int, x: int)
    requires
        t.wf(),
        0 <= i < tree_roots(t.adj(), t.parents()).len(),
        0 <= j < tree_roots(t.adj(), t.parents()).len(),
        i != j,
    ensures
        !(t.is_connected(tree_roots(t.adj(), t.parents())[i] as int, x) && t.is_connected(
            tree_roots(t.adj(), t.parents())[j] as int,
            x,
        )),
{
    let rs = tree_roots(t.adj(), t.parents());
    t.lemma_wf_facts();
    law_components_distinct(t, i, j);
    if t.is_connected(rs[i] as int, x) && t.is_connected(rs[j] as int, x) {
        lemma_connected_sym(t.adj(), rs[j] as int, x);
        lemma_connected_trans(t.adj(), rs[i] as int, x, rs[j] as int);
    }
}

/// Every node with a neighbor is connected to one of the roots that
/// `connected_components` lists, so its component is listed.
pub proof fn law_components_cover(t: &IDTree, x: usize)
    requires
        t.wf(),
        x < t.num_nodes(),
        t.adj()[x as int].len() > 0,
    ensures
        exists|i: int|
            0 <= i < tree_roots(t.adj(), t.parents()).len() && t.is_connected(
                tree_roots(t.adj(), t.parents())[i] as int,
                x as int,
            ),
{
    let adj = t.adj();
    let par = t.parents();
    let dep = t.depths();
    let r = root(par, dep, x);
    lemma_root(par, dep, x);
    assert(adj[r as int].len() > 0) by {
        if r != x {
            let k = (dep[x as int] - 1) as nat;
            lemma_anc_depth(par, dep, x, k);
            let c = anc(par, x, k);
            lemma_anc_add(par, x, k, 1);
            assert(anc(par, c, 1) == anc(par, par[c as int], 0));
            assert(par[c as int] == r);
            assert(has_edge(adj, c as int, r as int));
            assert(has_edge(adj, r as int, c as int));
        }
    }
    let all = node_range(adj.len());
    let pred = root_with_edge(adj, par);
    all.filter_lemma(pred);
    assert(all[r as int] == r);
    assert(pred(all[r as int]));
    assert(tree_roots(adj, par).contains(r));
    let i = choose|i: int| 0 <= i < tree_roots(adj, par).len() && tree_roots(adj, par)[i] == r;
    assert(root(par, dep, r) == r);
    lemma_spans_connected(adj, par, dep, r, x);
}

} // verus!
