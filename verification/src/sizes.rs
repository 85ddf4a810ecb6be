//! Subtree sizes in a parent-pointer forest: the size of a node is the
//! number of nodes whose root path passes through it, which is one more
//! than the sizes of its children together.
use vstd::prelude::*;
use crate::forest::{
    SENTINEL, anc, forest_wf, is_desc, root, rotated, rebuilt, lemma_anc_depth, lemma_anc_add, lemma_anc_is_desc,
    lemma_desc_refl, lemma_depth_bound, lemma_desc_parent, lemma_desc_up, lemma_desc_root, lemma_root, lemma_rotate,
};

verus! {

/// `f(0) + ... + f(k - 1)`.
pub open spec fn sum_upto(k: int, f: spec_fn(int) -> int) -> int
    decreases k,
{
    if k <= 0 {
        0
    } else {
        sum_upto(k - 1, f) + f(k - 1)
    }
}

/// Sums of functions that agree below `k` agree.
pub proof fn lemma_sum_ext(k: int, f: spec_fn(int) -> int, g: spec_fn(int) -> int)
    requires
        forall|i: int| 0 <= i < k ==> #[trigger] f(i) == g(i),
    ensures
        sum_upto(k, f) == sum_upto(k, g),
    decreases k,
{
    if k > 0 {
        lemma_sum_ext(k - 1, f, g);
    }
}

/// A sum changes by the change of the one term that changed.
pub proof fn lemma_sum_diff1(k: int, f: spec_fn(int) -> int, g: spec_fn(int) -> int, a: int)
    requires
        0 <= a < k,
        forall|i: int| 0 <= i < k && i != a ==> #[trigger] f(i) == g(i),
    ensures
        sum_upto(k, g) == sum_upto(k, f) + g(a) - f(a),
    decreases k,
{
    if k - 1 == a {
        lemma_sum_ext(k - 1, f, g);
    } else {
        lemma_sum_diff1(k - 1, f, g, a);
    }
}

/// A sum changes by the changes of the two terms that changed.
pub proof fn lemma_sum_diff2(k: int, f: spec_fn(int) -> int, g: spec_fn(int) -> int, a: int, b: int)
    requires
        0 <= a < k,
        0 <= b < k,
        a != b,
        forall|i: int| 0 <= i < k && i != a && i != b ==> #[trigger] f(i) == g(i),
    ensures
        sum_upto(k, g) == sum_upto(k, f) + g(a) - f(a) + g(b) - f(b),
{
    let h = |i: int| if i == a { g(i) } else { f(i) };
    lemma_sum_diff1(k, f, h, a);
    lemma_sum_diff1(k, h, g, b);
}

/// A sum of terms that are 0 or 1 lies between 0 and the number of terms.
pub proof fn lemma_sum_count_bound(k: int, f: spec_fn(int) -> int)
    requires
        k >= 0,
        forall|i: int| 0 <= i < k ==> 0 <= #[trigger] f(i) <= 1,
    ensures
        0 <= sum_upto(k, f) <= k,
    decreases k,
{
    if k > 0 {
        lemma_sum_count_bound(k - 1, f);
    }
}

/// A sum is at most another whose terms are at least as large.
pub proof fn lemma_sum_le(k: int, f: spec_fn(int) -> int, g: spec_fn(int) -> int)
    requires
        forall|i: int| 0 <= i < k ==> #[trigger] f(i) <= g(i),
    ensures
        sum_upto(k, f) <= sum_upto(k, g),
    decreases k,
{
    if k > 0 {
        lemma_sum_le(k - 1, f, g);
    }
}

/// The sum of a sum of two functions.
pub proof fn lemma_sum_add(k: int, f: spec_fn(int) -> int, g: spec_fn(int) -> int)
    ensures
        sum_upto(k, |i: int| f(i) + g(i)) == sum_upto(k, f) + sum_upto(k, g),
    decreases k,
{
    if k > 0 {
        lemma_sum_add(k - 1, f, g);
    }
}

/// A sum whose terms all vanish vanishes.
pub proof fn lemma_sum_zero(k: int, f: spec_fn(int) -> int)
    requires
        forall|i: int| 0 <= i < k ==> #[trigger] f(i) == 0,
    ensures
        sum_upto(k, f) == 0,
    decreases k,
{
    if k > 0 {
        lemma_sum_zero(k - 1, f);
    }
}

/// Summing a table by rows or by columns gives the same.
pub proof fn lemma_sum_swap(k1: int, k2: int, g: spec_fn(int, int) -> int)
    requires
        k2 >= 0,
    ensures
        sum_upto(k1, |i: int| sum_upto(k2, |j: int| g(i, j))) == sum_upto(k2, |j: int| sum_upto(k1, |i: int| g(i, j))),
    decreases k1,
{
    if k1 > 0 {
        lemma_sum_swap(k1 - 1, k2, g);
        let cols_prev = |j: int| sum_upto(k1 - 1, |i: int| g(i, j));
        let last = |j: int| g(k1 - 1, j);
        lemma_sum_add(k2, cols_prev, last);
        let lhs = |j: int| sum_upto(k1, |i: int| g(i, j));
        let rhs = |j: int| cols_prev(j) + last(j);
        assert forall|j: int| 0 <= j < k2 implies #[trigger] lhs(j) == rhs(j) by {
            assert(sum_upto(k1, |i: int| g(i, j)) == sum_upto(k1 - 1, |i: int| g(i, j)) + g(k1 - 1, j));
        }
        lemma_sum_ext(k2, lhs, rhs);
        let rows = |i: int| sum_upto(k2, |j: int| g(i, j));
        assert(sum_upto(k1, rows) == sum_upto(k1 - 1, rows) + rows(k1 - 1));
        assert(sum_upto(k1 - 1, rows) == sum_upto(k2, cols_prev));
        assert(rows(k1 - 1) == sum_upto(k2, |j: int| g(k1 - 1, j)));
        lemma_sum_ext(k2, |j: int| g(k1 - 1, j), last);
        assert(sum_upto(k1, rows) == sum_upto(k2, lhs));
    } else {
        lemma_sum_zero(k2, |j: int| sum_upto(k1, |i: int| g(i, j)));
    }
}

/// The number of nodes whose root path passes through `w`, `w` included.
pub open spec fn desc_count(par: Seq<usize>, dep: Seq<nat>, w: usize) -> int {
    sum_upto(par.len() as int, in_subtree(par, dep, w))
}

/// The nodes below `k` whose root path passes through `w`.
pub open spec fn subtree_below(par: Seq<usize>, dep: Seq<nat>, w: usize, k: int) -> Set<usize> {
    Set::new(|x: usize| (x as int) < k && is_desc(par, dep, x, w))
}

/// The nodes whose root path passes through `w`, `w` included.
pub open spec fn subtree_nodes(par: Seq<usize>, dep: Seq<nat>, w: usize) -> Set<usize> {
    subtree_below(par, dep, w, par.len() as int)
}

/// The count of the subtree below `k` is the size of that set.
proof fn lemma_count_below(par: Seq<usize>, dep: Seq<nat>, w: usize, k: int)
    requires
        0 <= k <= par.len(),
        par.len() < SENTINEL,
    ensures
        subtree_below(par, dep, w, k).finite(),
        subtree_below(par, dep, w, k).len() == sum_upto(k, in_subtree(par, dep, w)),
    decreases k,
{
    if k == 0 {
        assert(subtree_below(par, dep, w, k) =~= Set::<usize>::empty());
    } else {
        lemma_count_below(par, dep, w, k - 1);
        let prev = subtree_below(par, dep, w, k - 1);
        let km = (k - 1) as usize;
        assert(km as int == k - 1);
        if is_desc(par, dep, km, w) {
            assert(subtree_below(par, dep, w, k) =~= prev.insert(km));
            assert(!prev.contains(km));
        } else {
            assert(subtree_below(par, dep, w, k) =~= prev);
        }
    }
}

/// The count that a subtree size must match is the number of nodes in the
/// subtree.
pub proof fn lemma_count_is_card(par: Seq<usize>, dep: Seq<nat>, w: usize)
    requires
        par.len() < SENTINEL,
    ensures
        subtree_nodes(par, dep, w).finite(),
        desc_count(par, dep, w) == subtree_nodes(par, dep, w).len(),
{
    lemma_count_below(par, dep, w, par.len() as int);
}

/// 1 for the nodes of the subtree of `w`, 0 for the others.
pub open spec fn in_subtree(par: Seq<usize>, dep: Seq<nat>, w: usize) -> spec_fn(int) -> int {
    |x: int| if is_desc(par, dep, x as usize, w) { 1int } else { 0int }
}

/// The size of `c` when `c` is a child of `w`, else 0.
pub open spec fn child_term(par: Seq<usize>, s: Seq<i32>, w: usize) -> spec_fn(int) -> int {
    |c: int| if par[c] == w { s[c] as int } else { 0int }
}

/// The subtree count of `c` when `c` is a child of `w`, else 0.
pub open spec fn child_count_term(par: Seq<usize>, dep: Seq<nat>, w: usize) -> spec_fn(int) -> int {
    |c: int| if par[c] == w { desc_count(par, dep, c as usize) } else { 0int }
}

/// The sizes of the children of `w` together.
pub open spec fn child_sum(par: Seq<usize>, s: Seq<i32>, w: usize) -> int {
    sum_upto(par.len() as int, child_term(par, s, w))
}

/// Every size is one more than the sizes of the children together.
pub open spec fn sizes_local(par: Seq<usize>, s: Seq<i32>) -> bool {
    &&& s.len() == par.len()
    &&& forall|w: usize| w < par.len() ==> #[trigger] s[w as int] == 1 + child_sum(par, s, w)
}

/// Every size is the number of nodes in the subtree of its node.
pub open spec fn sizes_exact(par: Seq<usize>, dep: Seq<nat>, s: Seq<i32>) -> bool {
    &&& s.len() == par.len()
    &&& forall|w: usize| w < par.len() ==> #[trigger] s[w as int] == desc_count(par, dep, w)
}

/// The child of `w` on the root path of a node `x` below `w`.
proof fn lemma_child_toward(par: Seq<usize>, dep: Seq<nat>, x: usize, w: usize) -> (c: usize)
    requires
        forest_wf(par, dep),
        is_desc(par, dep, x, w),
        x != w,
    ensures
        c < par.len(),
        par[c as int] == w,
        is_desc(par, dep, x, c),
        forall|d: usize| d < par.len() && par[d as int] == w && #[trigger] is_desc(par, dep, x, d) ==> d == c,
{
    let k = (dep[x as int] - dep[w as int] - 1) as nat;
    assert(dep[x as int] > dep[w as int]) by {
        if dep[x as int] == dep[w as int] {
            assert(anc(par, x, 0) == x);
        }
    }
    lemma_anc_depth(par, dep, x, k);
    let c = anc(par, x, k);
    lemma_anc_add(par, x, k, 1);
    assert(anc(par, c, 1) == anc(par, par[c as int], 0));
    assert(k + 1 == (dep[x as int] - dep[w as int]) as nat);
    assert(par[c as int] != SENTINEL);
    lemma_anc_is_desc(par, dep, x, k);
    assert forall|d: usize| d < par.len() && par[d as int] == w && #[trigger] is_desc(par, dep, x, d) implies d == c by {
        assert(dep[d as int] == dep[w as int] + 1);
    }
    c
}

/// A node's subtree is the node and the subtrees of its children.
pub proof fn lemma_desc_split(par: Seq<usize>, dep: Seq<nat>, w: usize)
    requires
        forest_wf(par, dep),
        w < par.len(),
    ensures
        desc_count(par, dep, w) == 1 + sum_upto(par.len() as int, child_count_term(par, dep, w)),
{
    let n = par.len() as int;
    let g = |x: int, c: int| if par[c] == w && is_desc(par, dep, x as usize, c as usize) { 1int } else { 0int };
    let ind = in_subtree(par, dep, w);
    let eqw = |x: int| if x == w { 1int } else { 0int };
    let rows = |x: int| sum_upto(n, |c: int| g(x, c));
    assert forall|x: int| 0 <= x < n implies #[trigger] ind(x) == eqw(x) + rows(x) by {
        let gx = |c: int| g(x, c);
        if x == w {
            assert forall|c: int| 0 <= c < n implies #[trigger] gx(c) == 0 by {
                if par[c] == w && is_desc(par, dep, x as usize, c as usize) {
                    assert(dep[c] == dep[w as int] + 1);
                }
            }
            lemma_sum_zero(n, gx);
            lemma_desc_refl(par, dep, w);
        } else if is_desc(par, dep, x as usize, w) {
            let c0 = lemma_child_toward(par, dep, x as usize, w);
            let z = |c: int| 0int;
            assert forall|c: int| 0 <= c < n && c != c0 implies #[trigger] z(c) == gx(c) by {
                if par[c] == w && is_desc(par, dep, x as usize, c as usize) {
                    assert(c as usize == c0);
                }
            }
            lemma_sum_zero(n, z);
            lemma_sum_diff1(n, z, gx, c0 as int);
        } else {
            assert forall|c: int| 0 <= c < n implies #[trigger] gx(c) == 0 by {
                if par[c] == w && is_desc(par, dep, x as usize, c as usize) {
                    crate::forest::lemma_desc_up(par, dep, x as usize, c as usize);
                }
            }
            lemma_sum_zero(n, gx);
        }
    }
    lemma_sum_ext(n, ind, |x: int| eqw(x) + rows(x));
    lemma_sum_add(n, eqw, rows);
    let z = |x: int| 0int;
    assert forall|x: int| 0 <= x < n && x != w implies #[trigger] z(x) == eqw(x) by {}
    lemma_sum_zero(n, z);
    lemma_sum_diff1(n, z, eqw, w as int);
    lemma_sum_swap(n, n, g);
    let cols = |c: int| sum_upto(n, |x: int| g(x, c));
    let target = child_count_term(par, dep, w);
    assert forall|c: int| 0 <= c < n implies #[trigger] cols(c) == target(c) by {
        if par[c] == w {
            lemma_sum_ext(n, |x: int| g(x, c), in_subtree(par, dep, c as usize));
        } else {
            lemma_sum_zero(n, |x: int| g(x, c));
        }
    }
    lemma_sum_ext(n, cols, target);
    assert(desc_count(par, dep, w) == sum_upto(n, ind));
}

/// Every subtree holds its node and at most all nodes.
pub proof fn lemma_count_bounds(par: Seq<usize>, dep: Seq<nat>, w: usize)
    requires
        forest_wf(par, dep),
        w < par.len(),
    ensures
        1 <= desc_count(par, dep, w) <= par.len(),
{
    let n = par.len() as int;
    let ind = in_subtree(par, dep, w);
    lemma_sum_count_bound(n, ind);
    lemma_desc_refl(par, dep, w);
    let z = |x: int| 0int;
    let eqw = |x: int| if x == w { 1int } else { 0int };
    assert forall|x: int| 0 <= x < n && x != w implies #[trigger] z(x) == eqw(x) by {}
    lemma_sum_zero(n, z);
    lemma_sum_diff1(n, z, eqw, w as int);
    lemma_sum_le(n, eqw, ind);
}

/// Nodes of different trees have disjoint subtrees.
pub proof fn lemma_count_disjoint(par: Seq<usize>, dep: Seq<nat>, a: usize, b: usize)
    requires
        forest_wf(par, dep),
        a < par.len(),
        b < par.len(),
        crate::forest::root(par, dep, a) != crate::forest::root(par, dep, b),
    ensures
        desc_count(par, dep, a) + desc_count(par, dep, b) <= par.len(),
{
    let n = par.len() as int;
    let ia = in_subtree(par, dep, a);
    let ib = in_subtree(par, dep, b);
    lemma_sum_add(n, ia, ib);
    let both = |x: int| ia(x) + ib(x);
    assert forall|x: int| 0 <= x < n implies 0 <= #[trigger] both(x) <= 1 by {
        if is_desc(par, dep, x as usize, a) && is_desc(par, dep, x as usize, b) {
            crate::forest::lemma_desc_root(par, dep, x as usize, a);
            crate::forest::lemma_desc_root(par, dep, x as usize, b);
        }
    }
    lemma_sum_count_bound(n, both);
}

/// Sizes that add up locally are the subtree counts.
proof fn lemma_local_exact_at(par: Seq<usize>, dep: Seq<nat>, s: Seq<i32>, w: usize)
    requires
        forest_wf(par, dep),
        sizes_local(par, s),
        w < par.len(),
    ensures
        s[w as int] == desc_count(par, dep, w),
    decreases par.len() - dep[w as int],
{
    let n = par.len() as int;
    lemma_depth_bound(par, dep, w);
    assert forall|c: int| 0 <= c < n && par[c] == w implies s[c] == desc_count(par, dep, c as usize) by {
        assert(dep[c] == dep[w as int] + 1);
        lemma_depth_bound(par, dep, c as usize);
        lemma_local_exact_at(par, dep, s, c as usize);
    }
    lemma_sum_ext(n, child_term(par, s, w), child_count_term(par, dep, w));
    lemma_desc_split(par, dep, w);
}

/// Sizes that add up locally are exact.
pub proof fn lemma_local_exact(par: Seq<usize>, dep: Seq<nat>, s: Seq<i32>)
    requires
        forest_wf(par, dep),
        sizes_local(par, s),
    ensures
        sizes_exact(par, dep, s),
{
    assert forall|w: usize| w < par.len() implies #[trigger] s[w as int] == desc_count(par, dep, w) by {
        lemma_local_exact_at(par, dep, s, w);
    }
}

/// Exact sizes add up locally, and lie between 1 and the number of nodes.
pub proof fn lemma_exact_local(par: Seq<usize>, dep: Seq<nat>, s: Seq<i32>)
    requires
        forest_wf(par, dep),
        sizes_exact(par, dep, s),
    ensures
        sizes_local(par, s),
        forall|w: usize| w < par.len() ==> 1 <= #[trigger] s[w as int] <= par.len(),
{
    let n = par.len() as int;
    assert forall|w: usize| w < par.len() implies #[trigger] s[w as int] == 1 + child_sum(par, s, w) && 1 <= s[w as int] <= par.len() by {
        lemma_desc_split(par, dep, w);
        lemma_count_bounds(par, dep, w);
        let f1 = child_term(par, s, w);
        let f2 = child_count_term(par, dep, w);
        assert forall|c: int| 0 <= c < n implies #[trigger] f1(c) == f2(c) by {
            if par[c] == w {
                assert(s[(c as usize) as int] == desc_count(par, dep, c as usize));
            }
        }
        lemma_sum_ext(n, f1, f2);
    }
}

/// The sizes after reversing the root path of `u` and hanging `u` under
/// `np` (`SENTINEL` to make `u` the root): `u` takes the size of its old
/// root, every other node of that path the size of the old root less the
/// size of its new parent (its old child on the path), and every node of
/// the root path of `np` grows by the size of the old root.
pub open spec fn rot_sizes(par: Seq<usize>, dep: Seq<nat>, s: Seq<i32>, u: usize, np: usize) -> Seq<i32> {
    let r = root(par, dep, u);
    Seq::new(
        s.len(),
        |w: int|
            if is_desc(par, dep, u, w as usize) {
                if w == u {
                    s[r as int]
                } else {
                    s[r as int].wrapping_sub(s[anc(par, u, (dep[u as int] - dep[w] - 1) as nat) as int])
                }
            } else if np != SENTINEL && is_desc(par, dep, np, w as usize) {
                s[w].wrapping_add(s[r as int])
            } else {
                s[w]
            },
    )
}

/// Where the rotated parents of the root path of `u` lead.
pub proof fn lemma_rot_parents_pub(par: Seq<usize>, dep: Seq<nat>, u: usize, np: usize, w: usize)
    requires
        forest_wf(par, dep),
        u < par.len(),
        is_desc(par, dep, u, w),
        w != u,
    ensures
        ({
            let c = rotated(par, dep, u, np)[w as int];
            &&& c == anc(par, u, (dep[u as int] - dep[w as int] - 1) as nat)
            &&& c < par.len()
            &&& is_desc(par, dep, u, c)
            &&& par[c as int] == w
            &&& dep[c as int] == dep[w as int] + 1
        }),
{
    lemma_rot_parents(par, dep, u, np, w);
}

/// Where the rotated parents of the root path of `u` lead.
proof fn lemma_rot_parents(par: Seq<usize>, dep: Seq<nat>, u: usize, np: usize, w: usize)
    requires
        forest_wf(par, dep),
        u < par.len(),
        is_desc(par, dep, u, w),
        w != u,
    ensures
        ({
            let c = rotated(par, dep, u, np)[w as int];
            &&& c == anc(par, u, (dep[u as int] - dep[w as int] - 1) as nat)
            &&& c < par.len()
            &&& is_desc(par, dep, u, c)
            &&& par[c as int] == w
            &&& dep[c as int] == dep[w as int] + 1
        }),
{
    let k = (dep[u as int] - dep[w as int] - 1) as nat;
    assert(dep[u as int] > dep[w as int]) by {
        if dep[u as int] == dep[w as int] {
            assert(anc(par, u, 0) == u);
        }
    }
    lemma_anc_depth(par, dep, u, k);
    let c = anc(par, u, k);
    lemma_anc_is_desc(par, dep, u, k);
    lemma_anc_add(par, u, k, 1);
    assert(anc(par, c, 1) == anc(par, par[c as int], 0));
    assert(k + 1 == (dep[u as int] - dep[w as int]) as nat);
    assert(par[c as int] != SENTINEL);
}

/// What rotating does to the parent of one node `c`.
proof fn lemma_rot_node(par: Seq<usize>, dep: Seq<nat>, u: usize, np: usize, c: usize)
    requires
        forest_wf(par, dep),
        u < par.len(),
        c < par.len(),
        np == SENTINEL || (np < par.len() && root(par, dep, np) != root(par, dep, u)),
    ensures
        is_desc(par, dep, u, c) && par[c as int] != SENTINEL ==> is_desc(par, dep, u, par[c as int]),
        np != SENTINEL && is_desc(par, dep, np, c) && par[c as int] != SENTINEL ==> is_desc(par, dep, np, par[c as int]),
        !is_desc(par, dep, u, c) ==> rotated(par, dep, u, np)[c as int] == par[c as int],
        c == u ==> rotated(par, dep, u, np)[c as int] == np,
        is_desc(par, dep, u, c) && c != u ==> is_desc(par, dep, u, rotated(par, dep, u, np)[c as int]) && par[rotated(
            par,
            dep,
            u,
            np,
        )[c as int] as int] == c && dep[rotated(par, dep, u, np)[c as int] as int] == dep[c as int] + 1,
        !(is_desc(par, dep, u, c) && np != SENTINEL && is_desc(par, dep, np, c)),
{
    if is_desc(par, dep, u, c) && par[c as int] != SENTINEL {
        lemma_desc_up(par, dep, u, c);
    }
    if np != SENTINEL && is_desc(par, dep, np, c) && par[c as int] != SENTINEL {
        lemma_desc_up(par, dep, np, c);
    }
    if is_desc(par, dep, u, c) && c != u {
        lemma_rot_parents(par, dep, u, np, c);
    }
    if is_desc(par, dep, u, c) && np != SENTINEL && is_desc(par, dep, np, c) {
        lemma_desc_root(par, dep, u, c);
        lemma_desc_root(par, dep, np, c);
    }
}

/// Two nodes of one root path at one depth are one node.
proof fn lemma_path_unique(par: Seq<usize>, dep: Seq<nat>, x: usize, a: usize, b: usize)
    requires
        is_desc(par, dep, x, a),
        is_desc(par, dep, x, b),
        dep[a as int] == dep[b as int],
    ensures
        a == b,
{
}

/// The bounds that make the wrapping arithmetic of `rot_sizes` exact.
pub open spec fn rot_bounds(par: Seq<usize>, dep: Seq<nat>, s: Seq<i32>, u: usize, np: usize) -> bool {
    &&& forall|w: usize| w < par.len() ==> 1 <= #[trigger] s[w as int] <= par.len()
    &&& par.len() <= i32::MAX
    &&& forall|w: usize| w < par.len() && np != SENTINEL && #[trigger] is_desc(par, dep, np, w) ==> s[w as int] + s[root(par, dep, u) as int] <= par.len()
}

/// `rot_sizes` adds up locally at a node of the root path of `u`.
proof fn lemma_rot_local_path(par: Seq<usize>, dep: Seq<nat>, s: Seq<i32>, u: usize, np: usize, w: usize)
    requires
        forest_wf(par, dep),
        sizes_local(par, s),
        rot_bounds(par, dep, s, u, np),
        u < par.len(),
        np == SENTINEL || (np < par.len() && root(par, dep, np) != root(par, dep, u)),
        is_desc(par, dep, u, w),
    ensures
        rot_sizes(par, dep, s, u, np)[w as int] == 1 + child_sum(rotated(par, dep, u, np), rot_sizes(par, dep, s, u, np), w),
{
    let n = par.len() as int;
    let rot = rotated(par, dep, u, np);
    let s2 = rot_sizes(par, dep, s, u, np);
    let r = root(par, dep, u);
    let f = child_term(par, s, w);
    let g = child_term(rot, s2, w);
    lemma_root(par, dep, u);
    lemma_desc_root(par, dep, u, w);
    if np != SENTINEL {
        lemma_root(par, dep, np);
    }
    assert(s[w as int] == 1 + sum_upto(n, f));
    lemma_rot_node(par, dep, u, np, w);
    if np != SENTINEL {
        lemma_desc_refl(par, dep, np);
        lemma_rot_node(par, dep, u, np, np);
    }
    let a: int = if w != u { rot[w as int] as int } else { -1 };
    let b: int = if par[w as int] != SENTINEL { par[w as int] as int } else { -1 };
    if w != u {
        lemma_rot_parents(par, dep, u, np, w);
    }
    if b >= 0 {
        lemma_desc_up(par, dep, u, w);
        lemma_rot_parents(par, dep, u, np, b as usize);
        lemma_path_unique(par, dep, u, rot[b], w);
    }
    assert forall|c: int| 0 <= c < n && c != a && c != b implies #[trigger] f(c) == g(c) by {
        lemma_rot_node(par, dep, u, np, c as usize);
        if is_desc(par, dep, u, c as usize) && par[c] == w {
            lemma_path_unique(par, dep, u, c as usize, rot[w as int]);
        }
        if par[c] != SENTINEL {
            lemma_rot_node(par, dep, u, np, par[c]);
        }
    }
    if a >= 0 {
        lemma_rot_node(par, dep, u, np, a as usize);
        if np != SENTINEL && a as usize == u {
            lemma_desc_refl(par, dep, np);
            lemma_rot_node(par, dep, u, np, np);
        }
    }
    if b >= 0 {
        lemma_rot_node(par, dep, u, np, b as usize);
    }
    if a >= 0 && b >= 0 {
        lemma_sum_diff2(n, f, g, a, b);
    } else if a >= 0 {
        lemma_sum_diff1(n, f, g, a);
    } else if b >= 0 {
        lemma_sum_diff1(n, f, g, b);
    } else {
        lemma_sum_ext(n, f, g);
    }
}

/// `rot_sizes` adds up locally at a node of the root path of `np`.
proof fn lemma_rot_local_np(par: Seq<usize>, dep: Seq<nat>, s: Seq<i32>, u: usize, np: usize, w: usize)
    requires
        forest_wf(par, dep),
        sizes_local(par, s),
        rot_bounds(par, dep, s, u, np),
        u < par.len(),
        np < par.len(),
        root(par, dep, np) != root(par, dep, u),
        is_desc(par, dep, np, w),
    ensures
        rot_sizes(par, dep, s, u, np)[w as int] == 1 + child_sum(rotated(par, dep, u, np), rot_sizes(par, dep, s, u, np), w),
{
    let n = par.len() as int;
    let rot = rotated(par, dep, u, np);
    let s2 = rot_sizes(par, dep, s, u, np);
    let r = root(par, dep, u);
    let f = child_term(par, s, w);
    let g = child_term(rot, s2, w);
    lemma_root(par, dep, u);
    lemma_root(par, dep, np);
    lemma_rot_node(par, dep, u, np, w);
    assert(s[w as int] == 1 + sum_upto(n, f));
    lemma_desc_refl(par, dep, u);
    lemma_rot_node(par, dep, u, np, u);
    if w == np {
        assert forall|c: int| 0 <= c < n && c != u implies #[trigger] f(c) == g(c) by {
            lemma_rot_node(par, dep, u, np, c as usize);
            if is_desc(par, dep, np, c as usize) && par[c] == w {
                assert(dep[c] == dep[np as int] + 1);
            }
        }
        lemma_sum_diff1(n, f, g, u as int);
    } else {
        let cp = lemma_child_toward(par, dep, np, w);
        lemma_desc_up(par, dep, np, cp);
        lemma_rot_node(par, dep, u, np, cp);
        assert(is_desc(par, dep, np, cp)) by {
            lemma_anc_is_desc(par, dep, np, (dep[np as int] - dep[cp as int]) as nat);
        }
        assert forall|c: int| 0 <= c < n && c != cp implies #[trigger] f(c) == g(c) by {
            lemma_rot_node(par, dep, u, np, c as usize);
            if is_desc(par, dep, np, c as usize) && par[c] == w {
                assert(dep[c] == dep[w as int] + 1);
                lemma_path_unique(par, dep, np, c as usize, cp);
            }
        }
        lemma_sum_diff1(n, f, g, cp as int);
    }
}

/// `rot_sizes` adds up locally at a node off both root paths.
proof fn lemma_rot_local_other(par: Seq<usize>, dep: Seq<nat>, s: Seq<i32>, u: usize, np: usize, w: usize)
    requires
        forest_wf(par, dep),
        sizes_local(par, s),
        u < par.len(),
        w < par.len(),
        np == SENTINEL || (np < par.len() && root(par, dep, np) != root(par, dep, u)),
        !is_desc(par, dep, u, w),
        !(np != SENTINEL && is_desc(par, dep, np, w)),
    ensures
        rot_sizes(par, dep, s, u, np)[w as int] == 1 + child_sum(rotated(par, dep, u, np), rot_sizes(par, dep, s, u, np), w),
{
    let n = par.len() as int;
    let rot = rotated(par, dep, u, np);
    let s2 = rot_sizes(par, dep, s, u, np);
    let f = child_term(par, s, w);
    let g = child_term(rot, s2, w);
    assert(s[w as int] == 1 + sum_upto(n, f));
    assert forall|c: int| 0 <= c < n implies #[trigger] f(c) == g(c) by {
        lemma_rot_node(par, dep, u, np, c as usize);
        if c as usize == u && np != SENTINEL {
            lemma_desc_refl(par, dep, np);
        }
    }
    lemma_sum_ext(n, f, g);
}

/// Rotating keeps sizes exact when they change as `rot_sizes` says.
pub proof fn lemma_rot_sizes(par: Seq<usize>, dep: Seq<nat>, s: Seq<i32>, u: usize, np: usize)
    requires
        forest_wf(par, dep),
        sizes_exact(par, dep, s),
        par.len() <= i32::MAX,
        u < par.len(),
        np == SENTINEL || (np < par.len() && root(par, dep, np) != root(par, dep, u)),
    ensures
        sizes_exact(rotated(par, dep, u, np), rebuilt(rotated(par, dep, u, np)), rot_sizes(par, dep, s, u, np)),
{
    let rot = rotated(par, dep, u, np);
    let s2 = rot_sizes(par, dep, s, u, np);
    lemma_exact_local(par, dep, s);
    lemma_rotate(par, dep, u, np);
    lemma_root(par, dep, u);
    assert forall|w: usize| w < par.len() && np != SENTINEL && #[trigger] is_desc(par, dep, np, w) implies s[w as int] + s[root(par, dep, u) as int] <= par.len() by {
        lemma_root(par, dep, np);
        lemma_desc_root(par, dep, np, w);
        lemma_count_disjoint(par, dep, w, root(par, dep, u));
    }
    assert(rot_bounds(par, dep, s, u, np));
    assert forall|w: usize| w < par.len() implies #[trigger] s2[w as int] == 1 + child_sum(rot, s2, w) by {
        if is_desc(par, dep, u, w) {
            lemma_rot_local_path(par, dep, s, u, np, w);
        } else if np != SENTINEL && is_desc(par, dep, np, w) {
            lemma_rot_local_np(par, dep, s, u, np, w);
        } else {
            lemma_rot_local_other(par, dep, s, u, np, w);
        }
    }
    lemma_local_exact(rot, rebuilt(rot), s2);
}

/// Walking the rotated parents from a node of the root path of `u` goes
/// down that path towards `u`.
pub proof fn lemma_rot_walk(par: Seq<usize>, dep: Seq<nat>, u: usize, np: usize, q: usize, j: nat)
    requires
        forest_wf(par, dep),
        u < par.len(),
        is_desc(par, dep, u, q),
        j <= dep[u as int] - dep[q as int],
    ensures
        anc(rotated(par, dep, u, np), q, j) == anc(par, u, (dep[u as int] - dep[q as int] - j) as nat),
    decreases j,
{
    if j > 0 {
        assert(q != u);
        lemma_rot_parents(par, dep, u, np, q);
        let c = rotated(par, dep, u, np)[q as int];
        lemma_rot_walk(par, dep, u, np, c, (j - 1) as nat);
        assert(anc(rotated(par, dep, u, np), q, j) == anc(rotated(par, dep, u, np), c, (j - 1) as nat));
        assert((dep[u as int] - dep[c as int] - (j - 1)) as nat == (dep[u as int] - dep[q as int] - j) as nat);
    }
}

/// The depths after rotating: the root path of `u` lies below the hanging
/// point (or starts the tree at `u`), and other trees keep their walks.
pub proof fn lemma_rot_depths(par: Seq<usize>, dep: Seq<nat>, u: usize, np: usize)
    requires
        forest_wf(par, dep),
        u < par.len(),
        np == SENTINEL || (np < par.len() && root(par, dep, np) != root(par, dep, u)),
    ensures
        ({
            let rot = rotated(par, dep, u, np);
            let dr = rebuilt(rot);
            let top: int = if np == SENTINEL { 0 } else { dep[np as int] + 1int };
            &&& forest_wf(rot, dr)
            &&& forall|q: usize| #[trigger] is_desc(par, dep, u, q) ==> dr[q as int] == dep[u as int] - dep[q as int] + top
            &&& forall|w: usize|
                w < par.len() && root(par, dep, w) != root(par, dep, u) ==> #[trigger] dr[w as int] == dep[w as int]
            &&& forall|w: usize, k: nat|
                w < par.len() && root(par, dep, w) != root(par, dep, u) ==> #[trigger] anc(rot, w, k) == anc(par, w, k)
        }),
{
    let rot = rotated(par, dep, u, np);
    let dr = rebuilt(rot);
    lemma_rotate(par, dep, u, np);
    lemma_root(par, dep, u);
    assert forall|w: usize, k: nat| w < par.len() && root(par, dep, w) != root(par, dep, u) implies #[trigger] anc(rot, w, k) == anc(par, w, k) by {
        assert forall|y: usize| #[trigger] is_desc(par, dep, w, y) implies rot[y as int] == par[y as int] by {
            lemma_desc_root(par, dep, w, y);
            if is_desc(par, dep, u, y) {
                lemma_desc_root(par, dep, u, y);
            }
        }
        crate::forest::lemma_chain_same(par, dep, rot, w, k);
    }
    assert forall|w: usize| w < par.len() && root(par, dep, w) != root(par, dep, u) implies #[trigger] dr[w as int] == dep[w as int] by {
        lemma_root(par, dep, w);
        let rw = root(par, dep, w);
        lemma_desc_root(par, dep, w, rw);
        assert(root(par, dep, rw) == rw) by {
            lemma_root(par, dep, rw);
        }
        assert(!is_desc(par, dep, u, rw)) by {
            if is_desc(par, dep, u, rw) {
                lemma_desc_root(par, dep, u, rw);
            }
        }
        lemma_rot_node(par, dep, u, np, rw);
        assert(anc(rot, w, dep[w as int]) == rw);
        crate::forest::lemma_root_unique(rot, dr, w, dep[w as int], rw);
    }
    assert forall|q: usize| #[trigger] is_desc(par, dep, u, q) implies dr[q as int] == dep[u as int] - dep[q as int] + (if np == SENTINEL { 0int } else { dep[np as int] + 1int }) by {
        let k = (dep[u as int] - dep[q as int]) as nat;
        lemma_rot_walk(par, dep, u, np, q, k);
        assert(anc(rot, q, k) == u);
        lemma_desc_refl(par, dep, u);
        lemma_rot_node(par, dep, u, np, u);
        if np == SENTINEL {
            crate::forest::lemma_root_unique(rot, dr, q, k, u);
        } else {
            lemma_anc_add(rot, q, k, 1);
            assert(anc(rot, u, 1) == anc(rot, np, 0));
            lemma_root(par, dep, np);
            let rn = root(par, dep, np);
            assert(anc(rot, np, dep[np as int]) == rn);
            lemma_anc_add(rot, q, k + 1, dep[np as int]);
            assert(!is_desc(par, dep, u, rn)) by {
                if is_desc(par, dep, u, rn) {
                    lemma_desc_root(par, dep, u, rn);
                    lemma_root(par, dep, rn);
                }
            }
            lemma_rot_node(par, dep, u, np, rn);
            crate::forest::lemma_root_unique(rot, dr, q, k + 1 + dep[np as int], rn);
        }
    }
}

/// The rotated root path from the old root: the nodes at least as deep as
/// the hanging point below the old root are those of the old root path of
/// `u`; the root path of `np` is kept.
pub proof fn lemma_rot_paths(par: Seq<usize>, dep: Seq<nat>, u: usize, np: usize)
    requires
        forest_wf(par, dep),
        u < par.len(),
        np == SENTINEL || (np < par.len() && root(par, dep, np) != root(par, dep, u)),
    ensures
        ({
            let rot = rotated(par, dep, u, np);
            let dr = rebuilt(rot);
            let r = root(par, dep, u);
            let top: int = if np == SENTINEL { 0 } else { dep[np as int] + 1int };
            &&& forall|w: usize| w < par.len() ==> (#[trigger] is_desc(rot, dr, r, w) && dr[w as int] >= top <==> is_desc(par, dep, u, w))
            &&& forall|w: usize| #[trigger] is_desc(par, dep, u, w) ==> (dr[w as int] == top <==> w == u)
            &&& np != SENTINEL ==> dr[np as int] == dep[np as int]
            &&& np != SENTINEL ==> forall|w: usize| w < par.len() ==> (#[trigger] is_desc(rot, dr, np, w) <==> is_desc(par, dep, np, w))
        }),
{
    let rot = rotated(par, dep, u, np);
    let dr = rebuilt(rot);
    let r = root(par, dep, u);
    let top: int = if np == SENTINEL { 0 } else { dep[np as int] + 1int };
    lemma_rot_depths(par, dep, u, np);
    lemma_root(par, dep, u);
    assert(dr[r as int] == dep[u as int] + top);
    assert forall|w: usize| w < par.len() implies (#[trigger] is_desc(rot, dr, r, w) && dr[w as int] >= top <==> is_desc(par, dep, u, w)) by {
        if is_desc(par, dep, u, w) {
            lemma_rot_walk(par, dep, u, np, r, dep[w as int]);
            assert(dr[w as int] == dep[u as int] - dep[w as int] + top);
            assert((dep[u as int] - dep[r as int] - dep[w as int]) as nat == (dep[u as int] - dep[w as int]) as nat);
            assert((dr[r as int] - dr[w as int]) as nat == dep[w as int]);
        }
        if is_desc(rot, dr, r, w) && dr[w as int] >= top {
            let k = (dr[r as int] - dr[w as int]) as nat;
            assert(k <= dep[u as int]);
            lemma_rot_walk(par, dep, u, np, r, k);
            lemma_anc_depth(par, dep, u, (dep[u as int] - k) as nat);
            lemma_anc_is_desc(par, dep, u, (dep[u as int] - k) as nat);
        }
    }
    assert forall|w: usize| #[trigger] is_desc(par, dep, u, w) implies (dr[w as int] == top <==> w == u) by {
        lemma_desc_refl(par, dep, u);
        if dep[w as int] == dep[u as int] {
            lemma_path_unique(par, dep, u, u, w);
        }
    }
    if np != SENTINEL {
        assert(dr[np as int] == dep[np as int]);
        assert forall|w: usize| w < par.len() implies (#[trigger] is_desc(rot, dr, np, w) <==> is_desc(par, dep, np, w)) by {
            if is_desc(par, dep, np, w) {
                lemma_desc_root(par, dep, np, w);
                assert(dr[w as int] == dep[w as int]);
                assert(anc(rot, np, (dep[np as int] - dep[w as int]) as nat) == anc(par, np, (dep[np as int] - dep[w as int]) as nat));
            }
            if is_desc(rot, dr, np, w) {
                let k = (dr[np as int] - dr[w as int]) as nat;
                assert(anc(rot, np, k) == anc(par, np, k));
                lemma_root(par, dep, np);
                lemma_anc_depth(par, dep, np, k);
                lemma_anc_is_desc(par, dep, np, k);
                lemma_desc_root(par, dep, np, w);
                assert(dr[w as int] == dep[w as int]);
            }
        }
    }
}

/// The sizes after cutting `x` from its parent: every proper ancestor of
/// `x` shrinks by the size of `x`.
pub open spec fn cut_sizes(par: Seq<usize>, dep: Seq<nat>, s: Seq<i32>, x: usize) -> Seq<i32> {
    Seq::new(
        s.len(),
        |w: int|
            if is_desc(par, dep, x, w as usize) && w != x {
                s[w].wrapping_add(0i32.wrapping_sub(s[x as int]))
            } else {
                s[w]
            },
    )
}

/// `cut_sizes` adds up locally at every node.
proof fn lemma_cut_local_at(par: Seq<usize>, dep: Seq<nat>, s: Seq<i32>, x: usize, w: usize)
    requires
        forest_wf(par, dep),
        sizes_local(par, s),
        x < par.len(),
        w < par.len(),
        forall|y: usize| y < par.len() ==> 1 <= #[trigger] s[y as int] <= par.len(),
        par.len() <= i32::MAX,
    ensures
        cut_sizes(par, dep, s, x)[w as int] == 1 + child_sum(par.update(x as int, SENTINEL), cut_sizes(par, dep, s, x), w),
{
    let n = par.len() as int;
    let p1 = par.update(x as int, SENTINEL);
    let s1 = cut_sizes(par, dep, s, x);
    let f = child_term(par, s, w);
    let g = child_term(p1, s1, w);
    assert(s[w as int] == 1 + sum_upto(n, f));
    if is_desc(par, dep, x, w) && w != x {
        let c0 = lemma_child_toward(par, dep, x, w);
        assert forall|c: int| 0 <= c < n && c != c0 implies #[trigger] f(c) == g(c) by {
            if is_desc(par, dep, x, c as usize) && c != x && par[c] == w {
                assert(dep[c] == dep[w as int] + 1);
                lemma_path_unique(par, dep, x, c as usize, c0);
            }
        }
        lemma_sum_diff1(n, f, g, c0 as int);
        if c0 != x {
            assert(is_desc(par, dep, x, c0));
        }
    } else {
        assert forall|c: int| 0 <= c < n implies #[trigger] f(c) == g(c) by {
            if is_desc(par, dep, x, c as usize) && c != x && par[c] == w {
                lemma_desc_up(par, dep, x, c as usize);
                assert(dep[c] > dep[x as int]) by {
                    if dep[c] == dep[x as int] {
                        lemma_desc_refl(par, dep, x);
                        lemma_path_unique(par, dep, x, c as usize, x);
                    }
                }
            }
            if c == x && par[c] == w {
                lemma_desc_refl(par, dep, x);
                lemma_desc_up(par, dep, x, x);
            }
        }
        lemma_sum_ext(n, f, g);
    }
}

/// Cutting `x` from its parent keeps sizes exact when its proper
/// ancestors shrink by its size.
pub proof fn lemma_cut_sizes(par: Seq<usize>, dep: Seq<nat>, s: Seq<i32>, x: usize)
    requires
        forest_wf(par, dep),
        sizes_exact(par, dep, s),
        x < par.len(),
        par.len() <= i32::MAX,
    ensures
        sizes_exact(par.update(x as int, SENTINEL), rebuilt(par.update(x as int, SENTINEL)), cut_sizes(par, dep, s, x)),
{
    let p1 = par.update(x as int, SENTINEL);
    let s1 = cut_sizes(par, dep, s, x);
    lemma_exact_local(par, dep, s);
    crate::forest::lemma_cut(par, dep, x);
    assert forall|w: usize| w < par.len() implies #[trigger] s1[w as int] == 1 + child_sum(p1, s1, w) by {
        lemma_cut_local_at(par, dep, s, x, w);
    }
    lemma_local_exact(p1, rebuilt(p1), s1);
}

/// The position of `c` in the list `l`.
pub open spec fn list_pos(l: Seq<usize>, c: usize) -> int {
    choose|j: int| 0 <= j < l.len() && l[j] == c
}

/// In a list without repeats, a listed node is found at its position.
pub proof fn lemma_list_pos(l: Seq<usize>, j: int)
    requires
        l.no_duplicates(),
        0 <= j < l.len(),
    ensures
        list_pos(l, l[j]) == j,
        l.contains(l[j]),
{
    let i = list_pos(l, l[j]);
    assert(0 <= i < l.len() && l[i] == l[j]);
}

/// The subtree count of `c` when `c` is a child of `w` listed at position
/// `k` or later, else 0.
pub open spec fn later_children(par: Seq<usize>, dep: Seq<nat>, l: Seq<usize>, k: int, w: usize) -> spec_fn(int) -> int {
    |c: int| if par[c] == w && l.contains(c as usize) && list_pos(l, c as usize) >= k { desc_count(par, dep, c as usize) } else { 0int }
}

/// Every listed node after the first hangs under a node listed before it.
pub open spec fn parents_earlier(l: Seq<usize>, par: Seq<usize>) -> bool {
    forall|j: int| 0 < j < l.len() ==> l.contains(par[#[trigger] l[j] as int]) && list_pos(l, par[l[j] as int]) < j
}

/// What the accumulation of sizes over a breadth-first list relies on: the
/// listed nodes were childless roots before the walk, the walk hung each of
/// them after the first under a node listed before it, and left every other
/// parent alone.
pub open spec fn walk_ctx(par0: Seq<usize>, par: Seq<usize>, dep: Seq<nat>, l: Seq<usize>) -> bool {
    &&& forest_wf(par, dep)
    &&& par0.len() == par.len()
    &&& par.len() <= i32::MAX
    &&& l.len() >= 1
    &&& l.no_duplicates()
    &&& forall|jj: int| 0 <= jj < l.len() ==> #[trigger] l[jj] < par.len()
    &&& parents_earlier(l, par)
    &&& par[l[0] as int] == SENTINEL
    &&& forall|c: usize| c < par.len() && !l.contains(c) ==> #[trigger] par[c as int] == par0[c as int]
    &&& forall|jj: int| 0 <= jj < l.len() ==> #[trigger] par0[l[jj] as int] == SENTINEL && (forall|c: int|
        0 <= c < par.len() ==> par0[c] != l[jj])
}

/// The children of a listed node are listed after it.
proof fn lemma_walk_child(par0: Seq<usize>, par: Seq<usize>, dep: Seq<nat>, l: Seq<usize>, jj: int, c: usize)
    requires
        walk_ctx(par0, par, dep, l),
        0 <= jj < l.len(),
        c < par.len(),
        par[c as int] == l[jj],
    ensures
        l.contains(c),
        list_pos(l, c) > jj,
{
    if !l.contains(c) {
        assert(par[c as int] == par0[c as int]);
        assert(par0[l[jj] as int] == SENTINEL);
        assert(par0[c as int] != l[jj]);
    }
    let ic = list_pos(l, c);
    assert(0 <= ic < l.len() && l[ic] == c);
    assert(ic != 0);
    assert(l.contains(par[l[ic] as int]) && list_pos(l, par[l[ic] as int]) < ic);
    lemma_list_pos(l, jj);
}

/// The children of an unlisted node are unlisted.
proof fn lemma_walk_child_out(par0: Seq<usize>, par: Seq<usize>, dep: Seq<nat>, l: Seq<usize>, w: usize, c: usize)
    requires
        walk_ctx(par0, par, dep, l),
        w < par.len(),
        !l.contains(w),
        c < par.len(),
        par[c as int] == w,
    ensures
        !l.contains(c),
{
    if l.contains(c) {
        let ic = list_pos(l, c);
        assert(0 <= ic < l.len() && l[ic] == c);
        assert(ic != 0);
        assert(l.contains(par[l[ic] as int]));
    }
}

/// The sizes part way through the accumulation from the end of the list:
/// the nodes listed at `k` or later hold their subtree counts, those before
/// one more than the counts of their children listed at `k` or later.
pub open spec fn walk_sizes(par: Seq<usize>, dep: Seq<nat>, l: Seq<usize>, s: Seq<i32>, k: int) -> bool {
    &&& s.len() == par.len()
    &&& forall|jj: int| k <= jj < l.len() ==> #[trigger] s[l[jj] as int] == desc_count(par, dep, l[jj])
    &&& forall|jj: int| 0 <= jj < k ==> #[trigger] s[l[jj] as int] == 1 + sum_upto(par.len() as int, later_children(par, dep, l, k, l[jj]))
}

/// Before adding the size of the node listed at `k` to its parent: that
/// size is its subtree count, and the sum stays within the number of nodes.
pub proof fn lemma_walk_step(par0: Seq<usize>, par: Seq<usize>, dep: Seq<nat>, l: Seq<usize>, s: Seq<i32>, k: int)
    requires
        walk_ctx(par0, par, dep, l),
        1 <= k < l.len(),
        walk_sizes(par, dep, l, s, k + 1),
    ensures
        s[l[k] as int] == desc_count(par, dep, l[k]),
        par[l[k] as int] < par.len(),
        l.contains(par[l[k] as int]),
        list_pos(l, par[l[k] as int]) < k,
        0 <= s[par[l[k] as int] as int] + s[l[k] as int] <= par.len(),
        s[par[l[k] as int] as int] + s[l[k] as int] == 1 + sum_upto(par.len() as int, later_children(par, dep, l, k, par[l[k] as int])),
{
    let n = par.len() as int;
    let q = l[k];
    let p = par[q as int];
    assert(l.contains(p) && list_pos(l, p) < k);
    let ip = list_pos(l, p);
    assert(l[ip] == p);
    lemma_list_pos(l, k);
    // the size of q
    let lq = later_children(par, dep, l, k + 1, q);
    let cq = child_count_term(par, dep, q);
    assert forall|c: int| 0 <= c < n implies #[trigger] lq(c) == cq(c) by {
        if par[c] == q {
            lemma_walk_child(par0, par, dep, l, k, c as usize);
        }
    }
    lemma_sum_ext(n, lq, cq);
    lemma_desc_split(par, dep, q);
    // the parent of q
    let lp1 = later_children(par, dep, l, k + 1, p);
    let lp0 = later_children(par, dep, l, k, p);
    assert forall|c: int| 0 <= c < n && c != q implies #[trigger] lp1(c) == lp0(c) by {
        if par[c] == p && l.contains(c as usize) && list_pos(l, c as usize) == k {
            assert(l[list_pos(l, c as usize)] == c as usize);
        }
    }
    lemma_sum_diff1(n, lp1, lp0, q as int);
    let cp = child_count_term(par, dep, p);
    assert forall|c: int| 0 <= c < n implies #[trigger] lp0(c) <= cp(c) by {
        lemma_count_bounds(par, dep, c as usize);
    }
    lemma_sum_le(n, lp0, cp);
    lemma_desc_split(par, dep, p);
    lemma_count_bounds(par, dep, p);
    assert forall|c: int| 0 <= c < n implies 0 <= #[trigger] lp1(c) by {
        lemma_count_bounds(par, dep, c as usize);
    }
    let z = |c: int| 0int;
    lemma_sum_zero(n, z);
    lemma_sum_le(n, z, lp1);
    assert(s[p as int] == 1 + sum_upto(n, lp1));
    lemma_count_bounds(par, dep, q);
}

/// After adding the size of the node listed at `k` to its parent.
pub proof fn lemma_walk_after(par0: Seq<usize>, par: Seq<usize>, dep: Seq<nat>, l: Seq<usize>, s: Seq<i32>, s2: Seq<i32>, k: int)
    requires
        walk_ctx(par0, par, dep, l),
        1 <= k < l.len(),
        walk_sizes(par, dep, l, s, k + 1),
        s[l[k] as int] == desc_count(par, dep, l[k]),
        par[l[k] as int] < par.len(),
        list_pos(l, par[l[k] as int]) < k,
        l.contains(par[l[k] as int]),
        s[par[l[k] as int] as int] + s[l[k] as int] == 1 + sum_upto(par.len() as int, later_children(par, dep, l, k, par[l[k] as int])),
        0 <= s[par[l[k] as int] as int] + s[l[k] as int] <= par.len(),
        s2 == s.update(par[l[k] as int] as int, (s[par[l[k] as int] as int] + s[l[k] as int]) as i32),
    ensures
        walk_sizes(par, dep, l, s2, k),
        forall|c: usize| c < par.len() && !l.contains(c) ==> #[trigger] s2[c as int] == s[c as int],
{
    let n = par.len() as int;
    let q = l[k];
    let p = par[q as int];
    let ip = list_pos(l, p);
    assert(l[ip] == p);
    lemma_list_pos(l, ip);
    assert forall|jj: int| k <= jj < l.len() implies #[trigger] s2[l[jj] as int] == desc_count(par, dep, l[jj]) by {
        if l[jj] == p {
            lemma_list_pos(l, jj);
        }
    }
    assert forall|jj: int| 0 <= jj < k implies #[trigger] s2[l[jj] as int] == 1 + sum_upto(n, later_children(par, dep, l, k, l[jj])) by {
        let w = l[jj];
        if w == p {
            assert(s2[p as int] == s[p as int] + s[q as int]);
        } else {
            assert(s2[w as int] == s[w as int]);
            let a = later_children(par, dep, l, k + 1, w);
            let b = later_children(par, dep, l, k, w);
            assert forall|c: int| 0 <= c < n implies #[trigger] a(c) == b(c) by {
                if par[c] == w && l.contains(c as usize) && list_pos(l, c as usize) == k {
                    assert(l[list_pos(l, c as usize)] == c as usize);
                }
            }
            lemma_sum_ext(n, a, b);
        }
    }
}

/// Once every listed node after the first has added its size to its
/// parent, all sizes are exact.
pub proof fn lemma_walk_done(par0: Seq<usize>, dep0: Seq<nat>, s0: Seq<i32>, par: Seq<usize>, dep: Seq<nat>, l: Seq<usize>, s: Seq<i32>)
    requires
        walk_ctx(par0, par, dep, l),
        forest_wf(par0, dep0),
        sizes_exact(par0, dep0, s0),
        walk_sizes(par, dep, l, s, 1),
        forall|c: usize| c < par.len() && !l.contains(c) ==> #[trigger] s[c as int] == s0[c as int],
    ensures
        sizes_exact(par, dep, s),
{
    let n = par.len() as int;
    lemma_exact_local(par0, dep0, s0);
    assert forall|w: usize| w < par.len() implies #[trigger] s[w as int] == 1 + child_sum(par, s, w) by {
        let f = child_term(par, s, w);
        if l.contains(w) {
            let jj = list_pos(l, w);
            assert(l[jj] == w);
            lemma_list_pos(l, jj);
            let cc = child_count_term(par, dep, w);
            assert forall|c: int| 0 <= c < n implies #[trigger] f(c) == cc(c) by {
                if par[c] == w {
                    lemma_walk_child(par0, par, dep, l, jj, c as usize);
                    let ic = list_pos(l, c as usize);
                    assert(l[ic] == c as usize);
                }
            }
            lemma_sum_ext(n, f, cc);
            lemma_desc_split(par, dep, w);
            if jj == 0 {
                let lc = later_children(par, dep, l, 1, w);
                assert forall|c: int| 0 <= c < n implies #[trigger] lc(c) == cc(c) by {
                    if par[c] == w {
                        lemma_walk_child(par0, par, dep, l, jj, c as usize);
                    }
                }
                lemma_sum_ext(n, lc, cc);
            }
        } else {
            let f0 = child_term(par0, s0, w);
            assert forall|c: int| 0 <= c < n implies #[trigger] f(c) == f0(c) by {
                if l.contains(c as usize) {
                    let ic = list_pos(l, c as usize);
                    assert(l[ic] == c as usize);
                    if par[c] == w {
                        lemma_walk_child_out(par0, par, dep, l, w, c as usize);
                    }
                }
            }
            lemma_sum_ext(n, f, f0);
        }
    }
    lemma_local_exact(par, dep, s);
}

/// A forest of lone roots of size one has exact sizes.
pub proof fn lemma_fresh_exact(par: Seq<usize>, dep: Seq<nat>, s: Seq<i32>)
    requires
        forest_wf(par, dep),
        s.len() == par.len(),
        forall|x: int| 0 <= x < par.len() ==> #[trigger] par[x] == SENTINEL,
        forall|x: int| 0 <= x < par.len() ==> #[trigger] s[x] == 1,
    ensures
        sizes_exact(par, dep, s),
{
    assert forall|w: usize| w < par.len() implies #[trigger] s[w as int] == 1 + child_sum(par, s, w) by {
        let ct = child_term(par, s, w);
        assert forall|c: int| 0 <= c < par.len() implies #[trigger] ct(c) == 0 by {
            assert(par[c] == SENTINEL);
        }
        lemma_sum_zero(par.len() as int, ct);
    }
    lemma_local_exact(par, dep, s);
}

/// Every child of a root holds at most half of the nodes of its tree, so
/// each root is a centroid of its tree.
pub open spec fn centroid_rooted(par: Seq<usize>, s: Seq<i32>) -> bool {
    forall|c: int|
        0 <= c < par.len() && #[trigger] par[c] != SENTINEL && par[par[c] as int] == SENTINEL ==> 2 * s[c] <= s[
            par[c] as int
        ]
}

/// The same, except for the children of `r`.
pub open spec fn centroid_except(par: Seq<usize>, s: Seq<i32>, r: usize) -> bool {
    forall|c: int|
        0 <= c < par.len() && #[trigger] par[c] != SENTINEL && par[par[c] as int] == SENTINEL && par[c] != r ==> 2
            * s[c] <= s[par[c] as int]
}

/// After a breadth-first walk from `l[0]`, every child of a listed node is
/// listed after it.
pub proof fn lemma_walk_closed(par0: Seq<usize>, par: Seq<usize>, dep: Seq<nat>, l: Seq<usize>)
    requires
        walk_ctx(par0, par, dep, l),
    ensures
        forall|jj: int, x: usize|
            0 <= jj < l.len() && x < par.len() && #[trigger] par[x as int] == #[trigger] l[jj] ==> l.contains(x) && list_pos(l, x) > jj,
{
    assert forall|jj: int, x: usize| 0 <= jj < l.len() && x < par.len() && #[trigger] par[x as int] == #[trigger] l[jj] implies l.contains(
        x,
    ) && list_pos(l, x) > jj by {
        lemma_walk_child(par0, par, dep, l, jj, x);
    }
}

/// The nodes below `l[0]` are listed, by depth below it.
proof fn lemma_walk_covers(par0: Seq<usize>, par: Seq<usize>, dep: Seq<nat>, l: Seq<usize>, x: usize)
    requires
        walk_ctx(par0, par, dep, l),
        is_desc(par, dep, x, l[0]),
    ensures
        l.contains(x),
    decreases dep[x as int],
{
    if x != l[0] {
        lemma_desc_parent(par, dep, x, l[0]);
        let p = par[x as int];
        lemma_walk_covers(par0, par, dep, l, p);
        let jj = list_pos(l, p);
        assert(0 <= jj < l.len() && l[jj] == p);
        lemma_walk_child(par0, par, dep, l, jj, x);
    } else {
        assert(l[0] == x);
    }
}

/// After the walk, the tree of `l[0]` is the list: its count is the length
/// of the list.
pub proof fn lemma_walk_count(par0: Seq<usize>, par: Seq<usize>, dep: Seq<nat>, l: Seq<usize>)
    requires
        walk_ctx(par0, par, dep, l),
        forall|k: int| 0 <= k < l.len() ==> is_desc(par, dep, #[trigger] l[k], l[0]),
    ensures
        desc_count(par, dep, l[0]) == l.len(),
{
    let t = subtree_nodes(par, dep, l[0]);
    assert forall|x: usize| #[trigger] t.contains(x) <==> l.to_set().contains(x) by {
        if t.contains(x) {
            lemma_walk_covers(par0, par, dep, l, x);
        }
        if l.contains(x) {
            let k = choose|k: int| 0 <= k < l.len() && l[k] == x;
            assert(is_desc(par, dep, l[k], l[0]));
        }
    }
    assert(t =~= l.to_set());
    l.unique_seq_to_set();
    lemma_count_is_card(par, dep, l[0]);
}

/// The walk leaves every root other than `l[0]` a centroid when it was
/// one before: the walk hangs only fresh roots, under listed nodes.
pub proof fn lemma_walk_centroid(
    par0: Seq<usize>,
    s0: Seq<i32>,
    par: Seq<usize>,
    dep: Seq<nat>,
    s: Seq<i32>,
    l: Seq<usize>,
)
    requires
        walk_ctx(par0, par, dep, l),
        centroid_rooted(par0, s0),
        s.len() == par.len(),
        forall|c: usize| c < par.len() && !l.contains(c) ==> #[trigger] s[c as int] == s0[c as int],
    ensures
        centroid_except(par, s, l[0]),
{
    assert forall|c: int|
        0 <= c < par.len() && #[trigger] par[c] != SENTINEL && par[par[c] as int] == SENTINEL && par[c] != l[0] implies 2
            * s[c] <= s[par[c] as int] by {
        let p = par[c];
        assert(p < par.len());
        if l.contains(c as usize) {
            let ic = choose|ic: int| 0 <= ic < l.len() && l[ic] == c as usize;
            assert(ic != 0);
            assert(l.contains(par[l[ic] as int]));
            let ip = list_pos(l, p);
            assert(0 <= ip < l.len() && l[ip] == p);
            assert(ip != 0);
            assert(l.contains(par[l[ip] as int]));
            let iq = choose|iq: int| 0 <= iq < l.len() && l[iq] == par[l[ip] as int];
            assert(l[iq] < par.len());
        } else {
            assert(par[(c as usize) as int] == par0[(c as usize) as int]);
            if l.contains(p) {
                let jj = choose|jj: int| 0 <= jj < l.len() && l[jj] == p;
                assert(par0[l[jj] as int] == SENTINEL);
                assert(par0[c] != l[jj]);
            }
            assert(par[p as int] == par0[p as int]);
            assert(s[p as int] == s0[p as int]);
            assert(s[(c as usize) as int] == s0[(c as usize) as int]);
            assert(par0[c] != SENTINEL && par0[par0[c] as int] == SENTINEL);
        }
    }
}

/// Rerooting the tree of `l[0]` at the last listed node `c` whose subtree
/// holds more than half of the list, when every node listed after `c`
/// holds at most half, makes every root a centroid: the children of `c`
/// are its old children, listed after it, and its old parent, which now
/// holds the nodes outside the old subtree of `c`.
pub proof fn lemma_reroot_centroid(par: Seq<usize>, dep: Seq<nat>, s: Seq<i32>, l: Seq<usize>, k: int)
    requires
        forest_wf(par, dep),
        sizes_exact(par, dep, s),
        par.len() <= i32::MAX,
        centroid_except(par, s, l[0]),
        l.len() >= 1,
        l[0] < par.len(),
        par[l[0] as int] == SENTINEL,
        s[l[0] as int] == l.len(),
        forall|jj: int, x: usize|
            0 <= jj < l.len() && x < par.len() && #[trigger] par[x as int] == #[trigger] l[jj] ==> l.contains(x) && list_pos(l, x) > jj,
        0 <= k < l.len(),
        l[k] < par.len(),
        root(par, dep, l[k]) == l[0],
        s[l[k] as int] > l.len() / 2,
        forall|j: int| k < j < l.len() ==> #[trigger] s[l[j] as int] <= l.len() / 2,
    ensures
        centroid_rooted(rotated(par, dep, l[k], SENTINEL), rot_sizes(par, dep, s, l[k], SENTINEL)),
{
    let c = l[k];
    let r = l[0];
    let n = par.len();
    let rot = rotated(par, dep, c, SENTINEL);
    let s2 = rot_sizes(par, dep, s, c, SENTINEL);
    let len = l.len() as int;
    lemma_root(par, dep, c);
    lemma_count_bounds(par, dep, c);
    lemma_count_bounds(par, dep, r);
    assert(s[c as int] == desc_count(par, dep, c));
    assert(s2[c as int] == s[r as int]);
    assert forall|y: int|
        0 <= y < rot.len() && #[trigger] rot[y] != SENTINEL && rot[rot[y] as int] == SENTINEL implies 2 * s2[y] <= s2[rot[y] as int] by {
        let w = rot[y];
        if y == c as int {
            assert(rot[y] == SENTINEL);
        } else if is_desc(par, dep, c, y as usize) {
            lemma_rot_parents_pub(par, dep, c, SENTINEL, y as usize);
            assert(is_desc(par, dep, c, w));
            if w != c {
                lemma_rot_parents_pub(par, dep, c, SENTINEL, w);
                assert(rot[w as int] < n);
            }
            assert(w == c);
            assert(anc(par, c, (dep[c as int] - dep[y] - 1) as nat) == c);
            lemma_count_bounds(par, dep, y as usize);
            assert(s2[y] == s[r as int] - s[c as int]);
        } else {
            assert(rot[y] == par[y]);
            assert(s2[y] == s[y]);
            assert(w < n);
            if is_desc(par, dep, c, w) {
                if w != c {
                    lemma_rot_parents_pub(par, dep, c, SENTINEL, w);
                    assert(rot[w as int] < n);
                }
                assert(w == c);
                let kk = list_pos(l, y as usize);
                assert(par[(y as usize) as int] == l[k]);
                assert(l.contains(y as usize) && kk > k);
                assert(l[kk] == y as usize);
                assert(s[l[kk] as int] <= len / 2);
            } else {
                assert(rot[w as int] == par[w as int]);
                assert(s2[w as int] == s[w as int]);
                assert(w != r);
                assert(par[y] != SENTINEL && par[par[y] as int] == SENTINEL && par[y] != r);
            }
        }
    }
}

} // verus!
