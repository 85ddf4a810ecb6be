//! Building the spanning forest from scratch: a breadth-first walk over
//! each component, in the order of the nodes, hangs every newly reached node
//! under the node it was reached from, and the tree is then rerooted at a
//! centroid. `setup_forest` is the forest this gives.
use vstd::prelude::*;
use crate::forest::{
    SENTINEL, anc, forest_wf, root, is_desc, rotated, rebuilt, lemma_root, lemma_chain_same, lemma_desc_parent, lemma_distinct_bounded, lemma_rotate, lemma_anc_depth,
    };
use crate::graph::{has_edge, graph_wf, tree_edges_in_graph, edges_within_trees};
use crate::distance::bfs_run;
use crate::sizes::desc_count;

verus! {

/// Every node without the mark `g` is a root with no children.
#[verifier::opaque]
pub open spec fn unmarked_alone(par: Seq<usize>, gens: Seq<u16>, g: u16) -> bool {
    forall|x: int|
        0 <= x < par.len() && #[trigger] gens[x] != g ==> par[x] == SENTINEL && forall|w: int|
            0 <= w < par.len() ==> par[w] != x as usize
}

/// The marked nodes are closed under edges, and edges between them stay
/// inside trees.
#[verifier::opaque]
pub open spec fn marked_closed(adj: Seq<Seq<u32>>, par: Seq<usize>, dep: Seq<nat>, gens: Seq<u16>, g: u16) -> bool {
    forall|x: int, y: int|
        #[trigger] has_edge(adj, x, y) && gens[x] == g ==> gens[y] == g && root(par, dep, x as usize)
            == root(par, dep, y as usize)
}

/// The walk list starts at `r`, repeats no node, and holds only nodes that
/// were unmarked before the walk, are marked now, and lie in the tree of `r`.
#[verifier::opaque]
pub open spec fn walk_list(l: Seq<usize>, par: Seq<usize>, dep: Seq<nat>, gens: Seq<u16>, gens0: Seq<u16>, g: u16, r: usize) -> bool {
    &&& l.len() >= 1
    &&& l[0] == r
    &&& l.no_duplicates()
    &&& forall|k: int|
        0 <= k < l.len() ==> #[trigger] l[k] < par.len() && gens[l[k] as int] == g && gens0[l[k] as int]
            != g && root(par, dep, l[k]) == r
}

/// The marked nodes are those marked before the walk and those listed.
#[verifier::opaque]
pub open spec fn walk_marks(gens: Seq<u16>, gens0: Seq<u16>, l: Seq<usize>, g: u16) -> bool {
    forall|x: int|
        0 <= x < gens.len() ==> (#[trigger] gens[x] == g <==> (gens0[x] == g || l.contains(x as usize)))
}

/// Every neighbor of the first `h` listed nodes is marked.
#[verifier::opaque]
pub open spec fn walk_done(l: Seq<usize>, adj: Seq<Seq<u32>>, gens: Seq<u16>, g: u16, h: int) -> bool {
    forall|k: int, y: int| 0 <= k < h && #[trigger] has_edge(adj, l[k] as int, y) ==> gens[y] == g
}

/// Nodes marked before the walk keep their roots.
#[verifier::opaque]
pub open spec fn old_roots(par: Seq<usize>, dep: Seq<nat>, par0: Seq<usize>, dep0: Seq<nat>, gens0: Seq<u16>, g: u16) -> bool {
    forall|x: int|
        0 <= x < par.len() && #[trigger] gens0[x] == g ==> root(par, dep, x as usize) == root(
            par0,
            dep0,
            x as usize,
        )
}

/// Hanging a childless root `x` under another node `p` keeps a forest, moves
/// `x` to the tree of `p`, and leaves every other root alone.
pub proof fn lemma_attach_leaf(par: Seq<usize>, dep: Seq<nat>, x: usize, p: usize)
    requires
        forest_wf(par, dep),
        x < par.len(),
        p < par.len(),
        x != p,
        par[x as int] == SENTINEL,
        forall|w: int| 0 <= w < par.len() ==> par[w] != x,
    ensures
        forest_wf(par.update(x as int, p), dep.update(x as int, dep[p as int] + 1)),
        root(par.update(x as int, p), dep.update(x as int, dep[p as int] + 1), x) == root(par, dep, p),
        forall|w: usize|
            w < par.len() && w != x ==> #[trigger] root(
                par.update(x as int, p),
                dep.update(x as int, dep[p as int] + 1),
                w,
            ) == root(par, dep, w),
{
    let par2 = par.update(x as int, p);
    let dep2 = dep.update(x as int, dep[p as int] + 1);
    assert forall|w: usize| w < par.len() && w != x implies #[trigger] root(par2, dep2, w) == root(par, dep, w) by {
        assert forall|y: usize| #[trigger] is_desc(par, dep, w, y) implies par2[y as int] == par[y as int] by {
            if y == x {
                assert(dep[x as int] == 0);
                let k = (dep[w as int] - 1) as nat;
                assert(dep[w as int] >= 1) by {
                    if dep[w as int] == 0 {
                        assert(anc(par, w, 0) == w);
                    }
                }
                lemma_no_child_not_above(par, dep, w, x);
            }
        }
        lemma_chain_same(par, dep, par2, w, dep[w as int]);
    }
    assert(root(par2, dep2, x) == root(par, dep, p)) by {
        assert(root(par2, dep2, p) == root(par, dep, p));
        assert(anc(par2, x, (dep[p as int] + 1) as nat) == anc(par2, par2[x as int], dep[p as int]));
    }
}

/// A node with no children lies on no other node's root path.
proof fn lemma_no_child_not_above(par: Seq<usize>, dep: Seq<nat>, w: usize, x: usize)
    requires
        forest_wf(par, dep),
        w < par.len(),
        w != x,
        forall|v: int| 0 <= v < par.len() ==> par[v] != x,
    ensures
        !is_desc(par, dep, w, x),
    decreases dep[w as int],
{
    if is_desc(par, dep, w, x) {
        lemma_desc_parent(par, dep, w, x);
        let p = par[w as int];
        lemma_no_child_not_above(par, dep, p, x);
    }
}

/// The walk starts at the unmarked node `r` alone.
pub proof fn lemma_walk_start(
    adj: Seq<Seq<u32>>,
    par: Seq<usize>,
    dep: Seq<nat>,
    gens: Seq<u16>,
    g: u16,
    r: usize,
)
    requires
        forest_wf(par, dep),
        r < par.len(),
        gens.len() == par.len(),
        gens[r as int] != g,
        unmarked_alone(par, gens, g),
    ensures
        walk_list(seq![r], par, dep, gens.update(r as int, g), gens, g, r),
        walk_marks(gens.update(r as int, g), gens, seq![r], g),
        walk_done(seq![r], adj, gens.update(r as int, g), g, 0),
        old_roots(par, dep, par, dep, gens, g),
        unmarked_alone(par, gens.update(r as int, g), g),
{
    reveal(walk_list);
    reveal(walk_marks);
    reveal(walk_done);
    reveal(old_roots);
    reveal(unmarked_alone);
    lemma_root(par, dep, r);
    assert(par[r as int] == SENTINEL);
    assert(root(par, dep, r) == r);
    let gens2 = gens.update(r as int, g);
    assert forall|x: int| 0 <= x < gens2.len() implies (#[trigger] gens2[x] == g <==> (gens[x] == g || seq![r].contains(x as usize))) by {
        if x == r {
            assert(seq![r][0] == r);
        } else if seq![r].contains(x as usize) {
            let k = choose|k: int| 0 <= k < 1 && #[trigger] seq![r][k] == x as usize;
        }
    }
}

/// Reaching the unmarked neighbor `y` of the listed node `p`: `y` is marked,
/// listed, and hung under `p`.
pub proof fn lemma_walk_visit(
    adj: Seq<Seq<u32>>,
    par: Seq<usize>,
    dep: Seq<nat>,
    gens: Seq<u16>,
    gens0: Seq<u16>,
    par0: Seq<usize>,
    dep0: Seq<nat>,
    g: u16,
    r: usize,
    l: Seq<usize>,
    h: int,
    p: usize,
    y: usize,
)
    requires
        graph_wf(adj),
        adj.len() == par.len(),
        forest_wf(par, dep),
        tree_edges_in_graph(adj, par),
        gens.len() == par.len(),
        gens0.len() == par.len(),
        unmarked_alone(par, gens, g),
        walk_list(l, par, dep, gens, gens0, g, r),
        walk_marks(gens, gens0, l, g),
        walk_done(l, adj, gens, g, h),
        old_roots(par, dep, par0, dep0, gens0, g),
        l.contains(p),
        y < par.len(),
        gens[y as int] != g,
        has_edge(adj, p as int, y as int),
    ensures
        forest_wf(par.update(y as int, p), dep.update(y as int, dep[p as int] + 1)),
        tree_edges_in_graph(adj, par.update(y as int, p)),
        unmarked_alone(par.update(y as int, p), gens.update(y as int, g), g),
        walk_list(
            l.push(y),
            par.update(y as int, p),
            dep.update(y as int, dep[p as int] + 1),
            gens.update(y as int, g),
            gens0,
            g,
            r,
        ),
        walk_marks(gens.update(y as int, g), gens0, l.push(y), g),
        walk_done(l.push(y), adj, gens.update(y as int, g), g, h),
        old_roots(
            par.update(y as int, p),
            dep.update(y as int, dep[p as int] + 1),
            par0,
            dep0,
            gens0,
            g,
        ),
        !l.contains(y),
{
    reveal(walk_list);
    reveal(walk_marks);
    reveal(walk_done);
    reveal(old_roots);
    reveal(unmarked_alone);
    let par2 = par.update(y as int, p);
    let dep2 = dep.update(y as int, dep[p as int] + 1);
    let gens2 = gens.update(y as int, g);
    let l2 = l.push(y);
    let kp = choose|k: int| 0 <= k < l.len() && #[trigger] l[k] == p;
    assert(gens[p as int] == g);
    assert(p != y);
    assert(par[y as int] == SENTINEL);
    lemma_attach_leaf(par, dep, y, p);
    assert(!l.contains(y)) by {
        if l.contains(y) {
            let k = choose|k: int| 0 <= k < l.len() && #[trigger] l[k] == y;
        }
    }
    assert(gens0[y as int] != g);
    assert(has_edge(adj, y as int, p as int));
    assert forall|x: int| 0 <= x < par2.len() && #[trigger] gens2[x] != g implies par2[x] == SENTINEL && forall|w: int|
        0 <= w < par2.len() ==> par2[w] != x as usize by {
        assert(gens[x] != g);
        assert forall|w: int| 0 <= w < par2.len() implies par2[w] != x as usize by {
            if w == y {
                assert(gens[p as int] == g);
            }
        }
    }
    assert forall|k: int| 0 <= k < l2.len() implies #[trigger] l2[k] < par2.len() && gens2[l2[k] as int] == g && gens0[l2[k] as int]
        != g && root(par2, dep2, l2[k]) == r by {
        if k < l.len() {
            assert(l2[k] == l[k]);
            assert(l[k] != y);
        } else {
            assert(l2[k] == y);
        }
    }
    assert forall|a: int, b: int| 0 <= a < l2.len() && 0 <= b < l2.len() && a != b implies l2[a] != l2[b] by {
        if a < l.len() && b < l.len() {
        } else if a < l.len() {
            assert(l.contains(l[a]));
        } else {
            assert(l.contains(l[b]));
        }
    }
    assert forall|x: int| 0 <= x < gens2.len() implies (#[trigger] gens2[x] == g <==> (gens0[x] == g || l2.contains(x as usize))) by {
        if x == y {
            assert(l2[l.len() as int] == y);
        } else {
            if l.contains(x as usize) {
                let k = choose|k: int| 0 <= k < l.len() && #[trigger] l[k] == x as usize;
                assert(l2[k] == x as usize);
            }
            if l2.contains(x as usize) {
                let k = choose|k: int| 0 <= k < l2.len() && #[trigger] l2[k] == x as usize;
                assert(l[k] == x as usize);
            }
        }
    }
    assert forall|k: int, z: int| 0 <= k < h && #[trigger] has_edge(adj, l2[k] as int, z) implies gens2[z] == g by {
        assert(l2[k] == l[k]);
    }
    assert forall|x: int| 0 <= x < par2.len() && #[trigger] gens0[x] == g implies root(par2, dep2, x as usize) == root(
        par0,
        dep0,
        x as usize,
    ) by {
        assert(x != y);
    }
}

/// With every listed node finished, the marked nodes are again closed
/// under edges and keep edges inside trees.
pub proof fn lemma_walk_end(
    adj: Seq<Seq<u32>>,
    par: Seq<usize>,
    dep: Seq<nat>,
    gens: Seq<u16>,
    gens0: Seq<u16>,
    par0: Seq<usize>,
    dep0: Seq<nat>,
    g: u16,
    r: usize,
    l: Seq<usize>,
)
    requires
        graph_wf(adj),
        adj.len() == par.len(),
        par.len() <= u32::MAX,
        gens.len() == par.len(),
        gens0.len() == par.len(),
        marked_closed(adj, par0, dep0, gens0, g),
        walk_list(l, par, dep, gens, gens0, g, r),
        walk_marks(gens, gens0, l, g),
        walk_done(l, adj, gens, g, l.len() as int),
        old_roots(par, dep, par0, dep0, gens0, g),
    ensures
        marked_closed(adj, par, dep, gens, g),
{
    reveal(walk_list);
    reveal(walk_marks);
    reveal(walk_done);
    reveal(old_roots);
    reveal(marked_closed);
    assert forall|x: int, y: int| #[trigger] has_edge(adj, x, y) && gens[x] == g implies gens[y] == g && root(par, dep, x as usize)
        == root(par, dep, y as usize) by {
        assert(has_edge(adj, y, x));
        if gens0[x] == g {
            assert(gens0[y] == g);
        } else {
            assert(l.contains(x as usize));
            let k = choose|k: int| 0 <= k < l.len() && #[trigger] l[k] == x as usize;
            assert(has_edge(adj, l[k] as int, y));
            assert(gens[y] == g);
            if gens0[y] == g {
                assert(gens0[x] == g);
            } else {
                assert(l.contains(y as usize));
                let k2 = choose|k2: int| 0 <= k2 < l.len() && #[trigger] l[k2] == y as usize;
            }
        }
    }
}

/// A walk list is no longer than the number of nodes.
pub proof fn lemma_walk_len(l: Seq<usize>, par: Seq<usize>, dep: Seq<nat>, gens: Seq<u16>, gens0: Seq<u16>, g: u16, r: usize)
    requires
        walk_list(l, par, dep, gens, gens0, g, r),
    ensures
        1 <= l.len() <= par.len(),
        l[0] == r,
        forall|k: int| 0 <= k < l.len() ==> #[trigger] l[k] < par.len() && gens[l[k] as int] == g
            && root(par, dep, l[k]) == r,
{
    reveal(walk_list);
    let s = Seq::new(l.len(), |k: int| l[k] as int);
    assert forall|k1: int, k2: int| 0 <= k1 < s.len() && 0 <= k2 < s.len() && k1 != k2 implies s[k1]
        != s[k2] by {
        assert(l[k1] != l[k2]);
    }
    assert forall|k: int| 0 <= k < s.len() implies 0 <= #[trigger] s[k] < par.len() by {
        assert(l[k] < par.len());
    }
    lemma_distinct_bounded(s, par.len() as int);
}

/// When every node is marked or has no neighbors and the marked nodes keep
/// edges inside trees, every edge lies inside a tree.
pub proof fn lemma_all_marked(adj: Seq<Seq<u32>>, par: Seq<usize>, dep: Seq<nat>, gens: Seq<u16>, g: u16)
    requires
        marked_closed(adj, par, dep, gens, g),
        gens.len() == adj.len(),
        forall|x: int| 0 <= x < adj.len() ==> #[trigger] gens[x] == g || adj[x].len() == 0,
    ensures
        edges_within_trees(adj, par, dep),
{
    reveal(marked_closed);
    assert forall|a: int, b: int| #[trigger] has_edge(adj, a, b) implies root(par, dep, a as usize) == root(par, dep, b as usize) by {
        assert(adj[a].contains(b as u32));
        assert(adj[a].len() > 0);
        assert(gens[a] == g);
    }
}


/// Rerooting the tree of a marked node keeps unmarked nodes alone and
/// edges between marked nodes inside trees.
pub proof fn lemma_reroot_marks(adj: Seq<Seq<u32>>, par: Seq<usize>, dep: Seq<nat>, gens: Seq<u16>, g: u16, c: usize)
    requires
        forest_wf(par, dep),
        gens.len() == par.len(),
        adj.len() == par.len(),
        c < par.len(),
        gens[c as int] == g,
        unmarked_alone(par, gens, g),
        marked_closed(adj, par, dep, gens, g),
    ensures
        unmarked_alone(rotated(par, dep, c, SENTINEL), gens, g),
        marked_closed(adj, rotated(par, dep, c, SENTINEL), rebuilt(rotated(par, dep, c, SENTINEL)), gens, g),
{
    reveal(unmarked_alone);
    reveal(marked_closed);
    let rot = rotated(par, dep, c, SENTINEL);
    let dep2 = rebuilt(rot);
    lemma_rotate(par, dep, c, SENTINEL);
    assert forall|x: int| 0 <= x < rot.len() && #[trigger] gens[x] != g implies rot[x] == SENTINEL && forall|w: int|
        0 <= w < rot.len() ==> rot[w] != x as usize by {
        let xu = x as usize;
        assert(xu != c);
        assert(!is_desc(par, dep, c, xu)) by {
            if is_desc(par, dep, c, xu) {
                lemma_no_child_not_above(par, dep, c, xu);
            }
        }
        assert(rot[x] == par[x]);
        assert forall|w: int| 0 <= w < rot.len() implies rot[w] != xu by {
            if w != c && is_desc(par, dep, c, w as usize) {
                let k = (dep[c as int] - dep[w] - 1) as nat;
                lemma_anc_depth(par, dep, c, k);
                if anc(par, c, k) == xu {
                    crate::forest::lemma_anc_is_desc(par, dep, c, k);
                }
            }
        }
    }
    assert forall|x: int, y: int| #[trigger] has_edge(adj, x, y) && gens[x] == g implies gens[y] == g && root(rot, dep2, x as usize)
        == root(rot, dep2, y as usize) by {
        assert(root(par, dep, x as usize) == root(par, dep, y as usize));
    }
}

/// The breadth-first walk of the component of `r`: the nodes in the order
/// they are reached, neighbors taken in list order, and the node each was
/// reached from.
pub open spec fn comp_walk(adj: Seq<Seq<u32>>, r: usize) -> (Seq<usize>, Map<usize, usize>) {
    bfs_run(adj, SENTINEL, seq![r], Map::empty().insert(r, SENTINEL), 0, adj.len())
}

/// The parents after hanging each walked node from the node it was reached
/// from.
pub open spec fn walk_parents(par: Seq<usize>, o: Seq<usize>, pm: Map<usize, usize>) -> Seq<usize> {
    Seq::new(par.len(), |x: int| if o.contains(x as usize) { pm[x as usize] } else { par[x] })
}

/// Depths that fit a forest (there is one way to fit them).
pub open spec fn depths_of(par: Seq<usize>) -> Seq<nat> {
    choose|d: Seq<nat>| forest_wf(par, d)
}

/// The position, below `k`, of the last listed node whose subtree holds
/// more than `half` nodes (0 when there is none).
pub open spec fn last_heavy(l: Seq<usize>, par: Seq<usize>, dep: Seq<nat>, half: int, k: int) -> int
    decreases k,
{
    if k <= 0 {
        0
    } else if desc_count(par, dep, l[k - 1]) > half {
        k - 1
    } else {
        last_heavy(l, par, dep, half, k - 1)
    }
}

/// The forest after walking the component of `r` and rerooting its tree at
/// the last walked node whose subtree holds more than half of the walk.
pub open spec fn setup_component(adj: Seq<Seq<u32>>, par: Seq<usize>, r: usize) -> Seq<usize> {
    let w = comp_walk(adj, r);
    let p1 = walk_parents(par, w.0, w.1);
    let d1 = depths_of(p1);
    let c = w.0[last_heavy(w.0, p1, d1, (w.0.len() / 2) as int, w.0.len() as int)];
    rotated(p1, d1, c, SENTINEL)
}

/// The forest, and the nodes walked, after the nodes below `k` have taken
/// their turns: a node with a neighbor that no earlier walk reached starts
/// the walk of its component.
pub open spec fn setup_upto(adj: Seq<Seq<u32>>, k: nat) -> (Seq<usize>, Set<usize>)
    decreases k,
{
    if k == 0 {
        (Seq::new(adj.len(), |i: int| SENTINEL), Set::empty())
    } else {
        let prev = setup_upto(adj, (k - 1) as nat);
        let x = (k - 1) as usize;
        if adj[x as int].len() > 0 && !prev.1.contains(x) {
            (setup_component(adj, prev.0, x), prev.1 + comp_walk(adj, x).0.to_set())
        } else {
            prev
        }
    }
}

/// The spanning forest that construction builds.
pub open spec fn setup_forest(adj: Seq<Seq<u32>>) -> Seq<usize> {
    setup_upto(adj, adj.len()).0
}

/// A forest fits one set of depths.
pub proof fn lemma_depths_unique(par: Seq<usize>, d1: Seq<nat>, d2: Seq<nat>)
    requires
        forest_wf(par, d1),
        forest_wf(par, d2),
    ensures
        d1 == d2,
{
    assert forall|w: int| 0 <= w < par.len() implies d1[w] == d2[w] by {
        lemma_depth_eq(par, d1, d2, w);
    }
    assert(d1 =~= d2);
}

proof fn lemma_depth_eq(par: Seq<usize>, d1: Seq<nat>, d2: Seq<nat>, w: int)
    requires
        forest_wf(par, d1),
        forest_wf(par, d2),
        0 <= w < par.len(),
    ensures
        d1[w] == d2[w],
    decreases d1[w],
{
    if par[w] != SENTINEL {
        lemma_depth_eq(par, d1, d2, par[w] as int);
    }
}

/// The last listed node with more than `half` nodes below it is the one
/// that every later listed node falls short of.
pub proof fn lemma_last_heavy(l: Seq<usize>, par: Seq<usize>, dep: Seq<nat>, half: int, k: int, m: int)
    requires
        0 <= k < m <= l.len(),
        desc_count(par, dep, l[k]) > half,
        forall|j: int| k < j < m ==> desc_count(par, dep, #[trigger] l[j]) <= half,
    ensures
        last_heavy(l, par, dep, half, m) == k,
    decreases m,
{
    if m - 1 > k {
        assert(desc_count(par, dep, l[m - 1]) <= half);
        lemma_last_heavy(l, par, dep, half, k, m - 1);
    }
}

} // verus!
