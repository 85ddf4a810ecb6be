//! Parent-pointer forests: ancestors, depths, roots, and how cutting an edge
//! or rotating a root path changes them.
use vstd::prelude::*;
use vstd::set_lib::*;

verus! {

/// The parent value of a root.
pub const SENTINEL: usize = usize::MAX;

/// The node reached from `w` after `k` parent steps, or `SENTINEL` once the
/// walk has left the forest.
pub open spec fn anc(par: Seq<usize>, w: usize, k: nat) -> usize
    decreases k,
{
    if k == 0 {
        w
    } else if w >= par.len() {
        SENTINEL
    } else {
        anc(par, par[w as int], (k - 1) as nat)
    }
}

/// Every parent entry is a node or `SENTINEL`.
pub open spec fn valid_parents(par: Seq<usize>) -> bool {
    &&& par.len() < SENTINEL
    &&& forall|w: int| 0 <= w < par.len() ==> #[trigger] par[w] == SENTINEL || par[w] < par.len()
}

/// `dep` is the depth of every node in the forest `par`: roots have depth 0
/// and every other node lies one below its parent. Such a depth exists only
/// when following parents from any node ends at a root.
pub open spec fn forest_wf(par: Seq<usize>, dep: Seq<nat>) -> bool {
    &&& par.len() == dep.len()
    &&& par.len() < SENTINEL
    &&& forall|w: int|
        0 <= w < par.len() ==> {
            &&& (#[trigger] par[w] == SENTINEL ==> dep[w] == 0)
            &&& (par[w] != SENTINEL ==> par[w] < par.len() && dep[w] == dep[par[w] as int] + 1)
        }
}

/// The root of the tree that holds `w`.
pub open spec fn root(par: Seq<usize>, dep: Seq<nat>, w: usize) -> usize {
    anc(par, w, dep[w as int])
}

/// `a` lies on the path from `x` to its root (`x` itself included).
pub open spec fn is_desc(par: Seq<usize>, dep: Seq<nat>, x: usize, a: usize) -> bool {
    &&& x < par.len()
    &&& a < par.len()
    &&& dep[a as int] <= dep[x as int]
    &&& anc(par, x, (dep[x as int] - dep[a as int]) as nat) == a
}

/// Walking `a + b` steps is walking `a` steps and then `b` more.
pub proof fn lemma_anc_add(par: Seq<usize>, w: usize, a: nat, b: nat)
    requires
        par.len() < SENTINEL,
    ensures
        anc(par, w, a + b) == anc(par, anc(par, w, a), b),
    decreases a,
{
    if a == 0 {
    } else if w >= par.len() {
        lemma_anc_sentinel(par, b);
    } else {
        lemma_anc_add(par, par[w as int], (a - 1) as nat, b);
        assert((a - 1) as nat + b == (a + b - 1) as nat);
    }
}

/// A walk that has left the forest stays out of it.
pub proof fn lemma_anc_sentinel(par: Seq<usize>, k: nat)
    requires
        par.len() < SENTINEL,
    ensures
        anc(par, SENTINEL, k) == SENTINEL,
    decreases k,
{
}

/// The first `dep[w]` steps from `w` stay inside the forest, one level up each.
pub proof fn lemma_anc_depth(par: Seq<usize>, dep: Seq<nat>, w: usize, k: nat)
    requires
        forest_wf(par, dep),
        w < par.len(),
        k <= dep[w as int],
    ensures
        anc(par, w, k) < par.len(),
        dep[anc(par, w, k) as int] == dep[w as int] - k,
    decreases k,
{
    if k > 0 {
        assert(par[w as int] != SENTINEL);
        lemma_anc_depth(par, dep, par[w as int], (k - 1) as nat);
    }
}

/// The root is a node whose parent is `SENTINEL`, and the walk leaves the
/// forest right after it.
pub proof fn lemma_root(par: Seq<usize>, dep: Seq<nat>, w: usize)
    requires
        forest_wf(par, dep),
        w < par.len(),
    ensures
        root(par, dep, w) < par.len(),
        par[root(par, dep, w) as int] == SENTINEL,
        dep[root(par, dep, w) as int] == 0,
        is_desc(par, dep, w, root(par, dep, w)),
        forall|j: nat| j > dep[w as int] ==> anc(par, w, j) == SENTINEL,
{
    lemma_anc_depth(par, dep, w, dep[w as int]);
    let r = root(par, dep, w);
    assert(par[r as int] == SENTINEL);
    assert forall|j: nat| j > dep[w as int] implies anc(par, w, j) == SENTINEL by {
        lemma_anc_add(par, w, dep[w as int], (j - dep[w as int]) as nat);
        assert(par[r as int] == SENTINEL);
        assert(anc(par, par[r as int], 0) == par[r as int]);
        assert(anc(par, r, 1) == SENTINEL);
        lemma_anc_add(par, r, 1, (j - dep[w as int] - 1) as nat);
        lemma_anc_sentinel(par, (j - dep[w as int] - 1) as nat);
    }
}

/// A walk from `w` that stops at a root stops at the root of `w`, after
/// exactly `dep[w]` steps.
pub proof fn lemma_root_unique(par: Seq<usize>, dep: Seq<nat>, w: usize, k: nat, r: usize)
    requires
        forest_wf(par, dep),
        w < par.len(),
        anc(par, w, k) == r,
        r < par.len(),
        par[r as int] == SENTINEL,
    ensures
        k == dep[w as int],
        root(par, dep, w) == r,
{
    lemma_root(par, dep, w);
    if k > dep[w as int] {
    } else {
        lemma_anc_depth(par, dep, w, k);
    }
}

/// A node and its parent share a root.
pub proof fn lemma_root_parent(par: Seq<usize>, dep: Seq<nat>, w: usize)
    requires
        forest_wf(par, dep),
        w < par.len(),
        par[w as int] != SENTINEL,
    ensures
        root(par, dep, w) == root(par, dep, par[w as int]),
{
    assert(dep[w as int] - 1 == dep[par[w as int] as int]);
}

/// A node on the root path of `x` other than `x` lies on the path of the
/// parent of `x`.
pub proof fn lemma_desc_parent(par: Seq<usize>, dep: Seq<nat>, x: usize, a: usize)
    requires
        forest_wf(par, dep),
        is_desc(par, dep, x, a),
        x != a,
    ensures
        par[x as int] != SENTINEL,
        is_desc(par, dep, par[x as int], a),
{
    assert(dep[x as int] - dep[a as int] > 0);
    assert(par[x as int] != SENTINEL);
}

/// If the parent of `x` has `a` on its root path, so has `x`.
pub proof fn lemma_desc_child(par: Seq<usize>, dep: Seq<nat>, x: usize, a: usize)
    requires
        forest_wf(par, dep),
        x < par.len(),
        par[x as int] != SENTINEL,
        is_desc(par, dep, par[x as int], a),
    ensures
        is_desc(par, dep, x, a),
{
    let p = par[x as int];
    assert((dep[x as int] - dep[a as int]) as nat == ((dep[p as int] - dep[a as int]) as nat + 1) as nat);
    assert(anc(par, x, (dep[x as int] - dep[a as int]) as nat) == anc(par, p, (dep[p as int] - dep[a as int]) as nat));
}

/// The parent of a node on the root path of `x` is on that path too.
pub proof fn lemma_desc_up(par: Seq<usize>, dep: Seq<nat>, x: usize, a: usize)
    requires
        forest_wf(par, dep),
        is_desc(par, dep, x, a),
        par[a as int] != SENTINEL,
    ensures
        is_desc(par, dep, x, par[a as int]),
{
    let k = (dep[x as int] - dep[a as int]) as nat;
    lemma_anc_add(par, x, k, 1);
    assert(anc(par, a, 1) == anc(par, par[a as int], 0));
    assert(k + 1 == (dep[x as int] - dep[par[a as int] as int]) as nat);
}

/// A node reached by walking up from `x` lies on the root path of `x`.
pub proof fn lemma_anc_is_desc(par: Seq<usize>, dep: Seq<nat>, x: usize, k: nat)
    requires
        forest_wf(par, dep),
        x < par.len(),
        anc(par, x, k) < par.len(),
    ensures
        is_desc(par, dep, x, anc(par, x, k)),
        k == dep[x as int] - dep[anc(par, x, k) as int],
{
    lemma_root(par, dep, x);
    if k <= dep[x as int] {
        lemma_anc_depth(par, dep, x, k);
    }
}

/// Nodes on one root path share the root.
pub proof fn lemma_desc_root(par: Seq<usize>, dep: Seq<nat>, x: usize, a: usize)
    requires
        forest_wf(par, dep),
        is_desc(par, dep, x, a),
    ensures
        root(par, dep, x) == root(par, dep, a),
{
    let k = (dep[x as int] - dep[a as int]) as nat;
    lemma_anc_add(par, x, k, dep[a as int]);
    assert(k + dep[a as int] == dep[x as int]);
}

/// Every node is its own descendant.
pub proof fn lemma_desc_refl(par: Seq<usize>, dep: Seq<nat>, x: usize)
    requires
        forest_wf(par, dep),
        x < par.len(),
    ensures
        is_desc(par, dep, x, x),
{
}

/// Distinct values below `n` number at most `n`.
pub proof fn lemma_distinct_bounded(s: Seq<int>, n: int)
    requires
        s.no_duplicates(),
        forall|i: int| 0 <= i < s.len() ==> 0 <= #[trigger] s[i] < n,
        n >= 0,
    ensures
        s.len() <= n,
{
    s.unique_seq_to_set();
    lemma_int_range(0, n);
    assert(s.to_set().subset_of(set_int_range(0, n)));
    lemma_len_subset(s.to_set(), set_int_range(0, n));
}

/// No node lies deeper than the number of nodes allows.
pub proof fn lemma_depth_bound(par: Seq<usize>, dep: Seq<nat>, w: usize)
    requires
        forest_wf(par, dep),
        w < par.len(),
    ensures
        dep[w as int] < par.len(),
{
    let d = dep[w as int];
    let s = Seq::new(d + 1, |k: int| anc(par, w, k as nat) as int);
    assert forall|i: int| 0 <= i < s.len() implies 0 <= #[trigger] s[i] < par.len() by {
        lemma_anc_depth(par, dep, w, i as nat);
    }
    assert forall|i: int, j: int| 0 <= i < s.len() && 0 <= j < s.len() && i != j implies s[i]
        != s[j] by {
        lemma_anc_depth(par, dep, w, i as nat);
        lemma_anc_depth(par, dep, w, j as nat);
    }
    lemma_distinct_bounded(s, par.len() as int);
}

// ----- Rebuilding depths after a change of parents -----

/// The number of steps from `w` to a root, counting at most `fuel` steps.
pub open spec fn depth_of(par: Seq<usize>, w: usize, fuel: nat) -> nat
    decreases fuel,
{
    if fuel == 0 || w >= par.len() || par[w as int] >= par.len() {
        0
    } else {
        1 + depth_of(par, par[w as int], (fuel - 1) as nat)
    }
}

/// Depths of all nodes, each counted with `fuel` steps.
pub open spec fn depths(par: Seq<usize>, fuel: nat) -> Seq<nat> {
    Seq::new(par.len(), |w: int| depth_of(par, w as usize, fuel))
}

/// Every walk of `fuel` steps leaves the forest.
pub open spec fn all_reach(par: Seq<usize>, fuel: nat) -> bool {
    forall|w: usize| w < par.len() ==> #[trigger] anc(par, w, fuel) == SENTINEL
}

proof fn lemma_depth_of_stable(par: Seq<usize>, w: usize, f: nat)
    requires
        valid_parents(par),
        w < par.len(),
        f >= 1,
        anc(par, w, f) == SENTINEL,
    ensures
        depth_of(par, w, f) == depth_of(par, w, f + 1),
    decreases f,
{
    let p = par[w as int];
    if p >= par.len() {
    } else {
        assert(f >= 2) by {
            if f == 1 {
                assert(anc(par, w, 1) == anc(par, p, 0));
            }
        }
        lemma_depth_of_stable(par, p, (f - 1) as nat);
        assert((f + 1 - 1) as nat == f);
    }
}

/// When every walk of `fuel` steps leaves the forest, counting steps gives
/// a depth for every node.
pub proof fn lemma_rebuild(par: Seq<usize>, fuel: nat)
    requires
        valid_parents(par),
        all_reach(par, fuel),
    ensures
        forest_wf(par, depths(par, fuel)),
{
    let dep = depths(par, fuel);
    assert forall|w: int| 0 <= w < par.len() implies {
        &&& (#[trigger] par[w] == SENTINEL ==> dep[w] == 0)
        &&& (par[w] != SENTINEL ==> par[w] < par.len() && dep[w] == dep[par[w] as int] + 1)
    } by {
        let wu = w as usize;
        assert(anc(par, wu, fuel) == SENTINEL);
        assert(fuel >= 1);
        if par[w] != SENTINEL {
            let p = par[w];
            assert(anc(par, wu, fuel) == anc(par, p, (fuel - 1) as nat));
            assert(fuel >= 2) by {
                if fuel == 1 {
                    assert(anc(par, p, 0) == p);
                }
            }
            lemma_depth_of_stable(par, p, (fuel - 1) as nat);
            assert(anc(par, p, fuel) == SENTINEL);
            assert((fuel - 1 + 1) as nat == fuel);
        }
    }
}

/// A walk that has reached a root leaves the forest one step later, and
/// stays out.
pub proof fn lemma_reach_mono(par: Seq<usize>, w: usize, k: nat, f: nat)
    requires
        valid_parents(par),
        anc(par, w, k) == SENTINEL,
        k <= f,
    ensures
        anc(par, w, f) == SENTINEL,
{
    lemma_anc_add(par, w, k, (f - k) as nat);
    lemma_anc_sentinel(par, (f - k) as nat);
}


/// Depths recomputed for a changed forest.
pub open spec fn rebuilt(par: Seq<usize>) -> Seq<nat> {
    depths(par, 3 * par.len())
}

/// Walking from `w` towards `a`, which lies on its root path, reaches `a`
/// when the parents below `a` on that path are unchanged.
pub proof fn lemma_walk_to(par: Seq<usize>, dep: Seq<nat>, par2: Seq<usize>, w: usize, a: usize)
    requires
        forest_wf(par, dep),
        par2.len() == par.len(),
        is_desc(par, dep, w, a),
        forall|y: usize|
            #[trigger] is_desc(par, dep, w, y) && dep[y as int] > dep[a as int] ==> par2[y as int]
                == par[y as int],
    ensures
        anc(par2, w, (dep[w as int] - dep[a as int]) as nat) == a,
    decreases dep[w as int] - dep[a as int],
{
    if w != a {
        lemma_desc_parent(par, dep, w, a);
        let p = par[w as int];
        lemma_desc_refl(par, dep, w);
        assert(par2[w as int] == p);
        assert forall|y: usize|
            #[trigger] is_desc(par, dep, p, y) && dep[y as int] > dep[a as int] implies par2[y as int]
                == par[y as int] by {
            lemma_desc_child(par, dep, w, y);
        }
        lemma_walk_to(par, dep, par2, p, a);
        assert((dep[w as int] - dep[a as int]) as nat - 1 == (dep[p as int] - dep[a as int]) as nat);
    }
}

/// Walks over parents that agree on the whole root path of `w` agree.
pub proof fn lemma_chain_same(par: Seq<usize>, dep: Seq<nat>, par2: Seq<usize>, w: usize, k: nat)
    requires
        forest_wf(par, dep),
        par2.len() == par.len(),
        w < par.len(),
        forall|y: usize| #[trigger] is_desc(par, dep, w, y) ==> par2[y as int] == par[y as int],
    ensures
        anc(par2, w, k) == anc(par, w, k),
    decreases k,
{
    if k > 0 {
        lemma_desc_refl(par, dep, w);
        let p = par[w as int];
        if p == SENTINEL {
            lemma_anc_sentinel(par, (k - 1) as nat);
            lemma_anc_sentinel(par2, (k - 1) as nat);
        } else {
            assert forall|y: usize| #[trigger] is_desc(par, dep, p, y) implies par2[y as int]
                == par[y as int] by {
                lemma_desc_child(par, dep, w, y);
            }
            lemma_chain_same(par, dep, par2, p, (k - 1) as nat);
        }
    }
}

proof fn lemma_cut_walk(par: Seq<usize>, dep: Seq<nat>, x: usize, w: usize)
    requires
        forest_wf(par, dep),
        x < par.len(),
        w < par.len(),
    ensures
        anc(par.update(x as int, SENTINEL), w, 3 * par.len()) == SENTINEL,
        is_desc(par, dep, w, x) ==> anc(
            par.update(x as int, SENTINEL),
            w,
            (dep[w as int] - dep[x as int]) as nat,
        ) == x,
        !is_desc(par, dep, w, x) ==> anc(par.update(x as int, SENTINEL), w, dep[w as int]) == root(
            par,
            dep,
            w,
        ),
{
    let par2 = par.update(x as int, SENTINEL);
    let fuel = 3 * par.len();
    lemma_depth_bound(par, dep, w);
    lemma_root(par, dep, w);
    if is_desc(par, dep, w, x) {
        lemma_walk_to(par, dep, par2, w, x);
        let k = (dep[w as int] - dep[x as int]) as nat;
        lemma_anc_add(par2, w, k, 1);
        assert(anc(par2, par2[x as int], 0) == SENTINEL);
        lemma_reach_mono(par2, w, k + 1, fuel);
    } else {
        assert forall|y: usize| #[trigger] is_desc(par, dep, w, y) implies par2[y as int]
            == par[y as int] by {
        }
        lemma_chain_same(par, dep, par2, w, dep[w as int]);
        lemma_chain_same(par, dep, par2, w, dep[w as int] + 1);
        lemma_reach_mono(par2, w, dep[w as int] + 1, fuel);
    }
}

/// Cutting `x` from its parent makes `x` the root of the nodes below it and
/// leaves every other root as it was.
pub proof fn lemma_cut(par: Seq<usize>, dep: Seq<nat>, x: usize)
    requires
        forest_wf(par, dep),
        x < par.len(),
    ensures
        valid_parents(par.update(x as int, SENTINEL)),
        forest_wf(par.update(x as int, SENTINEL), rebuilt(par.update(x as int, SENTINEL))),
        forall|w: usize|
            w < par.len() ==> #[trigger] root(
                par.update(x as int, SENTINEL),
                rebuilt(par.update(x as int, SENTINEL)),
                w,
            ) == if is_desc(par, dep, w, x) {
                x
            } else {
                root(par, dep, w)
            },
{
    let par2 = par.update(x as int, SENTINEL);
    let fuel = 3 * par.len();
    let dep2 = rebuilt(par2);
    assert(valid_parents(par2));
    assert forall|w: usize| w < par.len() implies #[trigger] anc(par2, w, fuel) == SENTINEL by {
        lemma_cut_walk(par, dep, x, w);
    }
    lemma_rebuild(par2, fuel);
    assert forall|w: usize| w < par.len() implies #[trigger] root(par2, dep2, w) == if is_desc(
        par,
        dep,
        w,
        x,
    ) {
        x
    } else {
        root(par, dep, w)
    } by {
        lemma_root(par, dep, w);
        lemma_cut_walk(par, dep, x, w);
        if is_desc(par, dep, w, x) {
            lemma_root_unique(par2, dep2, w, (dep[w as int] - dep[x as int]) as nat, x);
        } else {
            lemma_root_unique(par2, dep2, w, dep[w as int], root(par, dep, w));
        }
    }
}


/// The parents after reversing the first `i` edges of the root path of `u`
/// and hanging `u` under `np`.
pub open spec fn rotated_upto(par: Seq<usize>, dep: Seq<nat>, u: usize, np: usize, i: nat) -> Seq<
    usize,
> {
    Seq::new(
        par.len(),
        |w: int|
            if w == u {
                np
            } else if is_desc(par, dep, u, w as usize) && dep[u as int] - dep[w] <= i {
                anc(par, u, (dep[u as int] - dep[w] - 1) as nat)
            } else {
                par[w]
            },
    )
}

/// The parents after reversing the whole root path of `u`, so that `u`
/// becomes the top of its tree, and hanging `u` under `np`.
pub open spec fn rotated(par: Seq<usize>, dep: Seq<nat>, u: usize, np: usize) -> Seq<usize> {
    rotated_upto(par, dep, u, np, dep[u as int])
}

proof fn lemma_rot_valid(par: Seq<usize>, dep: Seq<nat>, u: usize, np: usize)
    requires
        forest_wf(par, dep),
        u < par.len(),
        np == SENTINEL || np < par.len(),
    ensures
        valid_parents(rotated(par, dep, u, np)),
{
    let rot = rotated(par, dep, u, np);
    assert forall|w: int| 0 <= w < rot.len() implies #[trigger] rot[w] == SENTINEL || rot[w]
        < rot.len() by {
        if w != u && is_desc(par, dep, u, w as usize) {
            lemma_anc_depth(par, dep, u, (dep[u as int] - dep[w] - 1) as nat);
        }
    }
}

/// From a node on the old root path of `u`, the rotated parents lead down to `u`.
pub proof fn lemma_rot_up(par: Seq<usize>, dep: Seq<nat>, u: usize, np: usize, w: usize)
    requires
        forest_wf(par, dep),
        u < par.len(),
        is_desc(par, dep, u, w),
    ensures
        anc(rotated(par, dep, u, np), w, (dep[u as int] - dep[w as int]) as nat) == u,
    decreases dep[u as int] - dep[w as int],
{
    let rot = rotated(par, dep, u, np);
    let m = (dep[u as int] - dep[w as int]) as nat;
    if m > 0 {
        let w2 = anc(par, u, (m - 1) as nat);
        lemma_anc_depth(par, dep, u, (m - 1) as nat);
        assert(w != u);
        assert(rot[w as int] == w2);
        assert(is_desc(par, dep, u, w2));
        lemma_rot_up(par, dep, u, np, w2);
        assert((dep[u as int] - dep[w2 as int]) as nat == (m - 1) as nat);
    }
}

/// From a node of the tree of `u` off its root path, the rotated parents
/// lead to `u` within `dep[w] + dep[u]` steps.
proof fn lemma_rot_side(par: Seq<usize>, dep: Seq<nat>, u: usize, np: usize, w: usize) -> (k: nat)
    requires
        forest_wf(par, dep),
        u < par.len(),
        w < par.len(),
        root(par, dep, w) == root(par, dep, u),
    ensures
        anc(rotated(par, dep, u, np), w, k) == u,
        k <= dep[w as int] + dep[u as int],
    decreases dep[w as int],
{
    let rot = rotated(par, dep, u, np);
    if is_desc(par, dep, u, w) {
        lemma_rot_up(par, dep, u, np, w);
        (dep[u as int] - dep[w as int]) as nat
    } else {
        lemma_root(par, dep, u);
        lemma_desc_refl(par, dep, u);
        let p = par[w as int];
        if p == SENTINEL {
            assert(root(par, dep, w) == w);
            assert(false);
        }
        assert(rot[w as int] == p);
        lemma_root_parent(par, dep, w);
        let k0 = lemma_rot_side(par, dep, u, np, p);
        assert(anc(rot, w, k0 + 1) == anc(rot, p, k0));
        k0 + 1
    }
}

/// A walk from a node of another tree never meets a rotated parent.
proof fn lemma_rot_other(par: Seq<usize>, dep: Seq<nat>, u: usize, np: usize, w: usize, k: nat)
    requires
        forest_wf(par, dep),
        u < par.len(),
        w < par.len(),
        root(par, dep, w) != root(par, dep, u),
    ensures
        anc(rotated(par, dep, u, np), w, k) == anc(par, w, k),
{
    let rot = rotated(par, dep, u, np);
    assert forall|y: usize| #[trigger] is_desc(par, dep, w, y) implies rot[y as int]
        == par[y as int] by {
        lemma_desc_root(par, dep, w, y);
        if y == u {
        } else if is_desc(par, dep, u, y) {
            lemma_desc_root(par, dep, u, y);
        }
    }
    lemma_chain_same(par, dep, rot, w, k);
}

proof fn lemma_rot_reach(par: Seq<usize>, dep: Seq<nat>, u: usize, np: usize, w: usize)
    requires
        forest_wf(par, dep),
        u < par.len(),
        w < par.len(),
        np == SENTINEL || (np < par.len() && root(par, dep, np) != root(par, dep, u)),
    ensures
        ({
            let rot = rotated(par, dep, u, np);
            let r = if root(par, dep, w) == root(par, dep, u) {
                if np == SENTINEL {
                    u
                } else {
                    root(par, dep, np)
                }
            } else {
                root(par, dep, w)
            };
            &&& anc(rot, w, 3 * par.len()) == SENTINEL
            &&& exists|k: nat| anc(rot, w, k) == r
            &&& r < par.len()
            &&& rot[r as int] == SENTINEL
        }),
{
    let rot = rotated(par, dep, u, np);
    let fuel = 3 * par.len();
    lemma_rot_valid(par, dep, u, np);
    lemma_depth_bound(par, dep, w);
    lemma_depth_bound(par, dep, u);
    lemma_root(par, dep, w);
    if np != SENTINEL {
        lemma_depth_bound(par, dep, np);
        lemma_root(par, dep, np);
        lemma_rot_other(par, dep, u, np, np, dep[np as int]);
        lemma_rot_other(par, dep, u, np, np, dep[np as int] + 1);
        lemma_desc_root(par, dep, np, root(par, dep, np));
        let rn = root(par, dep, np);
        assert(rot[rn as int] == par[rn as int]) by {
            lemma_rot_other(par, dep, u, np, rn, 1);
            assert(anc(rot, rn, 1) == anc(rot, rot[rn as int], 0));
            assert(anc(par, rn, 1) == anc(par, par[rn as int], 0));
        }
    }
    if root(par, dep, w) == root(par, dep, u) {
        let k = lemma_rot_side(par, dep, u, np, w);
        if np == SENTINEL {
            lemma_anc_add(rot, w, k, 1);
            assert(anc(rot, rot[u as int], 0) == SENTINEL);
            lemma_reach_mono(rot, w, k + 1, fuel);
            assert(anc(rot, w, k) == u);
        } else {
            assert(anc(rot, u, 1) == anc(rot, np, 0));
            lemma_anc_add(rot, u, 1, dep[np as int]);
            lemma_anc_add(rot, w, k, 1 + dep[np as int]);
            let rn = root(par, dep, np);
            lemma_anc_add(rot, w, k + 1 + dep[np as int], 1);
            assert(anc(rot, rn, 1) == anc(rot, rot[rn as int], 0));
            lemma_reach_mono(rot, w, k + 1 + dep[np as int] + 1, fuel);
            assert(anc(rot, w, k + 1 + dep[np as int]) == rn);
        }
    } else {
        lemma_rot_other(par, dep, u, np, w, dep[w as int]);
        lemma_rot_other(par, dep, u, np, w, dep[w as int] + 1);
        lemma_reach_mono(rot, w, dep[w as int] + 1, fuel);
        let r = root(par, dep, w);
        lemma_desc_root(par, dep, w, r);
        lemma_rot_other(par, dep, u, np, r, 1);
        assert(anc(rot, r, 1) == anc(rot, rot[r as int], 0));
        assert(anc(par, r, 1) == anc(par, par[r as int], 0));
    }
}

/// Reversing the root path of `u` and hanging `u` under `np`, a node of
/// another tree or `SENTINEL`, leaves a forest. The tree of `u` joins the
/// tree of `np`, or gets `u` as its root; other trees keep their roots.
pub proof fn lemma_rotate(par: Seq<usize>, dep: Seq<nat>, u: usize, np: usize)
    requires
        forest_wf(par, dep),
        u < par.len(),
        np == SENTINEL || (np < par.len() && root(par, dep, np) != root(par, dep, u)),
    ensures
        valid_parents(rotated(par, dep, u, np)),
        forest_wf(rotated(par, dep, u, np), rebuilt(rotated(par, dep, u, np))),
        forall|w: usize|
            w < par.len() ==> #[trigger] root(
                rotated(par, dep, u, np),
                rebuilt(rotated(par, dep, u, np)),
                w,
            ) == if root(par, dep, w) == root(par, dep, u) {
                if np == SENTINEL {
                    u
                } else {
                    root(par, dep, np)
                }
            } else {
                root(par, dep, w)
            },
{
    let rot = rotated(par, dep, u, np);
    let fuel = 3 * par.len();
    lemma_rot_valid(par, dep, u, np);
    assert forall|w: usize| w < par.len() implies #[trigger] anc(rot, w, fuel) == SENTINEL by {
        lemma_rot_reach(par, dep, u, np, w);
    }
    lemma_rebuild(rot, fuel);
    let dep2 = rebuilt(rot);
    assert forall|w: usize| w < par.len() implies #[trigger] root(rot, dep2, w) == if root(
        par,
        dep,
        w,
    ) == root(par, dep, u) {
        if np == SENTINEL {
            u
        } else {
            root(par, dep, np)
        }
    } else {
        root(par, dep, w)
    } by {
        lemma_rot_reach(par, dep, u, np, w);
        let r = if root(par, dep, w) == root(par, dep, u) {
            if np == SENTINEL {
                u
            } else {
                root(par, dep, np)
            }
        } else {
            root(par, dep, w)
        };
        let k = choose|k: nat| anc(rot, w, k) == r;
        lemma_root_unique(rot, dep2, w, k, r);
    }
}


/// Hanging a root under a node of another tree is a rotation of a path of
/// length zero.
pub proof fn lemma_link(par: Seq<usize>, dep: Seq<nat>, x: usize, np: usize)
    requires
        forest_wf(par, dep),
        x < par.len(),
        par[x as int] == SENTINEL,
    ensures
        rotated(par, dep, x, np) == par.update(x as int, np),
{
    assert forall|w: int| 0 <= w < par.len() implies #[trigger] rotated(par, dep, x, np)[w]
        == par.update(x as int, np)[w] by {
        if w != x && is_desc(par, dep, x, w as usize) {
            assert(dep[x as int] == 0);
        }
    }
    assert(rotated(par, dep, x, np) =~= par.update(x as int, np));
}


/// A set that holds a root and every child of its members holds the whole
/// tree of that root.
pub proof fn lemma_closed_holds_tree(par: Seq<usize>, dep: Seq<nat>, s: Set<usize>, r: usize, x: usize)
    requires
        forest_wf(par, dep),
        s.contains(r),
        forall|y: usize|
            y < par.len() && #[trigger] par[y as int] != SENTINEL && s.contains(par[y as int]) ==> s.contains(y),
        x < par.len(),
        root(par, dep, x) == r,
    ensures
        s.contains(x),
    decreases dep[x as int],
{
    if par[x as int] == SENTINEL {
        assert(dep[x as int] == 0);
    } else {
        lemma_root_parent(par, dep, x);
        lemma_closed_holds_tree(par, dep, s, r, par[x as int]);
    }
}

} // verus!
