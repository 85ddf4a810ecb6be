//! Paths inside a spanning forest, and the fundamental cycles that the graph
//! edges outside the forest close with them.
use vstd::prelude::*;
use crate::forest::{SENTINEL, forest_wf, root, lemma_root_parent};
use crate::graph::has_edge;

verus! {

/// `p` climbs from `x` towards its root, one parent at a time.
pub open spec fn up_chain(par: Seq<usize>, dep: Seq<nat>, p: Seq<usize>, x: usize) -> bool {
    &&& p.len() >= 1
    &&& p[0] == x
    &&& forall|k: int| 0 <= k < p.len() ==> (#[trigger] p[k] as int) < par.len() && dep[p[k] as int] == dep[x as int] - k
    &&& forall|k: int| 0 <= k < p.len() - 1 ==> par[#[trigger] p[k] as int] == p[k + 1]
}

/// `c` is a path of forest edges from `u` to `v` that visits no node twice;
/// in a forest there is exactly one such path between two nodes of a tree.
pub open spec fn tree_path(par: Seq<usize>, c: Seq<usize>, u: usize, v: usize) -> bool {
    &&& c.len() >= 1
    &&& c[0] == u
    &&& c.last() == v
    &&& c.no_duplicates()
    &&& forall|i: int| 0 <= i < c.len() - 1 ==> (#[trigger] c[i] as int) < par.len() && (par[c[i] as int] == c[i + 1]
        || par[c[i + 1] as int] == c[i])
}

/// `(u, v)`, with `u < v`, is an edge of the graph that is not an edge of
/// the forest: together with the forest path from `u` to `v` it closes a
/// fundamental cycle.
pub open spec fn non_tree_edge(adj: Seq<Seq<u32>>, par: Seq<usize>, u: usize, v: usize) -> bool {
    &&& u < v
    &&& has_edge(adj, u as int, v as int)
    &&& par[u as int] != v
    &&& par[v as int] != u
}

/// `c` closes a fundamental cycle: it runs along the forest from its first
/// node to its last, and those two are joined by an edge outside the forest.
pub open spec fn fundamental_cycle(adj: Seq<Seq<u32>>, par: Seq<usize>, c: Seq<usize>) -> bool {
    &&& c.len() >= 1
    &&& non_tree_edge(adj, par, c[0], c.last())
    &&& tree_path(par, c, c[0], c.last())
}

/// The first and last node of each cycle.
pub open spec fn cycle_ends(cycles: Seq<Vec<usize>>) -> Seq<(usize, usize)> {
    Seq::new(cycles.len(), |i: int| (cycles[i]@[0], cycles[i]@.last()))
}

/// A chain with one more step up.
pub proof fn lemma_chain_push(par: Seq<usize>, dep: Seq<nat>, p: Seq<usize>, x: usize)
    requires
        forest_wf(par, dep),
        up_chain(par, dep, p, x),
        par[p.last() as int] != SENTINEL,
    ensures
        up_chain(par, dep, p.push(par[p.last() as int]), x),
        dep[par[p.last() as int] as int] + p.len() == dep[x as int],
{
    let q = p.push(par[p.last() as int]);
    let l = p.len() - 1;
    assert(p[l] == p.last());
    assert forall|k: int| 0 <= k < q.len() - 1 implies par[#[trigger] q[k] as int] == q[k + 1] by {
        if k < l {
            assert(q[k] == p[k] && q[k + 1] == p[k + 1]);
        }
    }
    assert forall|k: int| 0 <= k < q.len() implies (#[trigger] q[k] as int) < par.len() && dep[q[k] as int] == dep[x as int] - k by {
        if k <= l {
            assert(q[k] == p[k]);
        }
    }
}

/// A chain visits no node twice.
pub proof fn lemma_chain_distinct(par: Seq<usize>, dep: Seq<nat>, p: Seq<usize>, x: usize)
    requires
        up_chain(par, dep, p, x),
    ensures
        p.no_duplicates(),
{
    assert forall|i: int, j: int| 0 <= i < p.len() && 0 <= j < p.len() && i != j implies p[i] != p[j] by {
        assert(dep[p[i] as int] == dep[x as int] - i);
        assert(dep[p[j] as int] == dep[x as int] - j);
    }
}

/// Every node of a chain has the root of its start.
pub proof fn lemma_chain_root(par: Seq<usize>, dep: Seq<nat>, p: Seq<usize>, x: usize, k: int)
    requires
        forest_wf(par, dep),
        up_chain(par, dep, p, x),
        0 <= k < p.len(),
    ensures
        root(par, dep, p[k]) == root(par, dep, x),
    decreases k,
{
    if k > 0 {
        lemma_chain_root(par, dep, p, x, k - 1);
        assert(par[p[k - 1] as int] == p[k]);
        assert((p[k - 1] as int) < par.len());
        lemma_root_parent(par, dep, p[k - 1]);
    }
}

/// Two chains from `u` and `v` that meet at `pu[i] == pv[j]`, and share no
/// other node before it, join into the forest path from `u` to `v`.
pub proof fn lemma_join_chains(
    par: Seq<usize>,
    dep: Seq<nat>,
    pu: Seq<usize>,
    pv: Seq<usize>,
    u: usize,
    v: usize,
    i: int,
    j: int,
)
    requires
        up_chain(par, dep, pu, u),
        up_chain(par, dep, pv, v),
        0 <= i < pu.len(),
        0 <= j < pv.len(),
        pu[i] == pv[j],
        forall|a: int, b: int| 0 <= a <= i && 0 <= b < j ==> pu[a] != pv[b],
    ensures
        tree_path(par, pu.subrange(0, i + 1) + pv.subrange(0, j).reverse(), u, v),
{
    let left = pu.subrange(0, i + 1);
    let right = pv.subrange(0, j).reverse();
    let c = left + right;
    lemma_chain_distinct(par, dep, pu, u);
    lemma_chain_distinct(par, dep, pv, v);
    assert(c[0] == u) by {
        assert(left[0] == pu[0]);
    }
    assert(c.last() == v) by {
        if j > 0 {
            assert(c.last() == right[j - 1]);
            assert(right[j - 1] == pv[0]);
        } else {
            assert(right.len() == 0);
            assert(c.last() == left[i]);
        }
    }
    assert forall|x: int, y: int| 0 <= x < y < c.len() implies c[x] != c[y] by {
        if y <= i {
            assert(c[x] == pu[x] && c[y] == pu[y]);
        } else if x > i {
            assert(c[x] == pv[j - 1 - (x - i - 1)] && c[y] == pv[j - 1 - (y - i - 1)]);
        } else {
            assert(c[x] == pu[x] && c[y] == pv[j - 1 - (y - i - 1)]);
        }
    }
    assert forall|x: int| 0 <= x < c.len() - 1 implies (#[trigger] c[x] as int) < par.len() && (par[c[x] as int] == c[x + 1]
        || par[c[x + 1] as int] == c[x]) by {
        if x < i {
            assert(c[x] == pu[x] && c[x + 1] == pu[x + 1]);
        } else if x == i {
            let b = j - 1;
            assert(c[x] == pu[i] && c[x + 1] == pv[b]);
            assert(par[pv[b] as int] == pv[b + 1]);
        } else {
            let b = j - 1 - (x - i - 1);
            assert(c[x] == pv[b] && c[x + 1] == pv[b - 1]);
            assert(par[pv[b - 1] as int] == pv[b]);
        }
    }
}

/// One turn of the depth-first walk that builds the cycle basis, at `u`
/// from its neighbor `j` on: each neighbor not listed yet is listed and
/// stacked, and each neighbor `v` with `u < v` that is joined to `u` by an
/// edge outside the forest gives the ends `(u, v)` of the next cycle.
pub open spec fn dfs_scan(
    adj: Seq<Seq<u32>>,
    par: Seq<usize>,
    u: usize,
    j: int,
    pushed: Seq<usize>,
    stack: Seq<usize>,
    ends: Seq<(usize, usize)>,
) -> (Seq<usize>, Seq<usize>, Seq<(usize, usize)>)
    decreases adj[u as int].len() - j,
{
    if j < 0 || j >= adj[u as int].len() {
        (pushed, stack, ends)
    } else {
        let v = adj[u as int][j] as usize;
        let p2 = if pushed.contains(v) { pushed } else { pushed.push(v) };
        let s2 = if pushed.contains(v) { stack } else { stack.push(v) };
        let e2 = if par[u as int] == v || par[v as int] == u || u >= v { ends } else { ends.push((u, v)) };
        dfs_scan(adj, par, u, j + 1, p2, s2, e2)
    }
}

/// The walk from the turn of `next` on, with the nodes listed and stacked
/// so far: the ends of the cycles found, in the order they are found (at
/// most `fuel` turns; the next turn goes to the top of the stack).
pub open spec fn dfs_run(
    adj: Seq<Seq<u32>>,
    par: Seq<usize>,
    pushed: Seq<usize>,
    stack: Seq<usize>,
    next: Option<usize>,
    ends: Seq<(usize, usize)>,
    fuel: nat,
) -> Seq<(usize, usize)>
    decreases fuel,
{
    match next {
        None => ends,
        Some(u) => if fuel == 0 {
            ends
        } else {
            let t = dfs_scan(adj, par, u, 0, pushed, stack, ends);
            let top = if t.1.len() > 0 { Some(t.1.last()) } else { None };
            let rest = if t.1.len() > 0 { t.1.drop_last() } else { t.1 };
            dfs_run(adj, par, t.0, rest, top, t.2, (fuel - 1) as nat)
        },
    }
}

/// The ends of the cycles that the walk from `root` finds, in order.
pub open spec fn basis_ends(adj: Seq<Seq<u32>>, par: Seq<usize>, root: usize) -> Seq<(usize, usize)> {
    dfs_run(adj, par, seq![root], Seq::empty(), Some(root), Seq::empty(), adj.len() + 1)
}

} // verus!
