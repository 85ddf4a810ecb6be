//! What the betweenness counts of removal candidates measure: how many
//! terminal pairs have a shortest path through each candidate.
use vstd::prelude::*;
use crate::graph::connected;
use crate::distance::{on_shortest, bfs_path, is_dist, ids_path, unique_shortest, lemma_shortest_path_nodes, lemma_unique_shortest_holds};
use crate::graph::is_path;

verus! {

/// The node ids of the removal candidates.
pub open spec fn candidate_ids(cands: Seq<(usize, usize)>) -> Set<usize> {
    cands.map_values(|p: (usize, usize)| p.0).to_set()
}

/// A removal candidate entry for the node `c`.
pub open spec fn is_cand(c: usize) -> spec_fn((usize, usize)) -> bool {
    |p: (usize, usize)| p.0 == c
}

/// How many times `c` is listed as a removal candidate.
pub open spec fn multiplicity(cands: Seq<(usize, usize)>, c: usize) -> nat {
    cands.filter(is_cand(c)).len()
}

/// The roots of the terminal pairs `(terminal, root)`.
pub open spec fn roots_of(terms: Set<(usize, usize)>) -> Set<usize> {
    terms.map(|p: (usize, usize)| p.1)
}

/// The grouped computation is chosen when there are fewer roots and
/// candidates together than terminal pairs.
pub open spec fn use_grouped(terms: Set<(usize, usize)>, cands: Seq<(usize, usize)>) -> bool {
    roots_of(terms).len() + cands.len() < terms.len()
}

/// A terminal pair `(terminal, root)` outside the group of the super root.
pub open spec fn ordinary(sr: Option<usize>, p: (usize, usize)) -> bool {
    sr != Some(p.1)
}

/// An ordinary pair whose root reaches its terminal along a shortest path
/// through `c`.
pub open spec fn through(adj: Seq<Seq<u32>>, sr: Option<usize>, c: usize, p: (usize, usize)) -> bool {
    &&& ordinary(sr, p)
    &&& connected(adj, p.1 as int, p.0 as int)
    &&& on_shortest(adj, p.1 as int, c as int, p.0 as int)
}

/// An ordinary pair of joined nodes of which `c` is one.
pub open spec fn ends_at(adj: Seq<Seq<u32>>, sr: Option<usize>, c: usize, p: (usize, usize)) -> bool {
    &&& ordinary(sr, p)
    &&& p.0 < adj.len()
    &&& p.1 < adj.len()
    &&& connected(adj, p.1 as int, p.0 as int)
    &&& (c == p.0 || c == p.1)
}

/// The base towns that the terminal `t` reaches, as a condition on towns,
/// for the candidate `c`: those of which `t` or the town itself is `c`.
pub open spec fn town_pred(adj: Seq<Seq<u32>>, t: usize, c: usize) -> spec_fn(usize) -> bool {
    |b: usize| t < adj.len() && b < adj.len() && connected(adj, t as int, b as int) && (c == t || c == b)
}

/// Over the pairs `(terminal, root)` of the super root, the base towns that
/// the terminal reaches and of which the terminal or the town is `c`: a
/// path from the terminal to such a town holds `c`.
pub open spec fn super_ends(adj: Seq<Seq<u32>>, pairs: Seq<(usize, usize)>, base: Seq<usize>, sr: Option<usize>, c: usize) -> nat
    decreases pairs.len(),
{
    if pairs.len() == 0 {
        0
    } else {
        super_ends(adj, pairs.drop_last(), base, sr, c) + if ordinary(sr, pairs.last()) {
            0
        } else {
            base.filter(town_pred(adj, pairs.last().0, c)).len()
        }
    }
}

/// `through` for the candidate `c`, as a condition on pairs.
pub open spec fn through_pred(adj: Seq<Seq<u32>>, sr: Option<usize>, c: usize) -> spec_fn((usize, usize)) -> bool {
    |p: (usize, usize)| through(adj, sr, c, p)
}

/// `ends_at` for the candidate `c`, as a condition on pairs.
pub open spec fn ends_pred(adj: Seq<Seq<u32>>, sr: Option<usize>, c: usize) -> spec_fn((usize, usize)) -> bool {
    |p: (usize, usize)| ends_at(adj, sr, c, p)
}

/// Membership in the group of the super root, as a condition on pairs.
pub open spec fn super_pred(sr: Option<usize>) -> spec_fn((usize, usize)) -> bool {
    |p: (usize, usize)| !ordinary(sr, p)
}

/// The ordinary pairs with a shortest path through `c`.
pub open spec fn through_count(adj: Seq<Seq<u32>>, terms: Set<(usize, usize)>, sr: Option<usize>, c: usize) -> nat {
    terms.filter(through_pred(adj, sr, c)).len()
}

/// The ordinary pairs of joined nodes of which `c` is one.
pub open spec fn end_count(adj: Seq<Seq<u32>>, terms: Set<(usize, usize)>, sr: Option<usize>, c: usize) -> nat {
    terms.filter(ends_pred(adj, sr, c)).len()
}

/// The pairs in the group of the super root.
pub open spec fn super_count(terms: Set<(usize, usize)>, sr: Option<usize>) -> nat {
    terms.filter(super_pred(sr)).len()
}

/// Pairs of a list with a shortest path through `c`.
pub open spec fn through_in(adj: Seq<Seq<u32>>, pairs: Seq<(usize, usize)>, sr: Option<usize>, c: usize) -> nat {
    pairs.filter(through_pred(adj, sr, c)).len()
}

/// Pairs of a list of joined nodes of which `c` is one.
pub open spec fn ends_in(adj: Seq<Seq<u32>>, pairs: Seq<(usize, usize)>, sr: Option<usize>, c: usize) -> nat {
    pairs.filter(ends_pred(adj, sr, c)).len()
}

/// Pairs of a list in the group of the super root.
pub open spec fn super_in(pairs: Seq<(usize, usize)>, sr: Option<usize>) -> nat {
    pairs.filter(super_pred(sr)).len()
}

/// `s` and `t` are nodes that a path joins, and the path that the
/// breadth-first walk from `s` returns to `t` holds `c`.
pub open spec fn walk_hits(adj: Seq<Seq<u32>>, s: usize, t: usize, c: usize) -> bool {
    &&& s < adj.len()
    &&& t < adj.len()
    &&& connected(adj, s as int, t as int)
    &&& bfs_path(adj, s, t).contains(c)
}

/// The base towns whose returned path from `t` holds `c`, as a condition
/// on towns.
pub open spec fn town_hit(adj: Seq<Seq<u32>>, t: usize, c: usize) -> spec_fn(usize) -> bool {
    |b: usize| walk_hits(adj, t, b, c)
}

/// The count of `c` over a list of pairs `(terminal, root)` when each pair
/// takes the one path that the breadth-first walk returns: an ordinary pair
/// counts once when its path from the root to the terminal holds `c`; a
/// pair of the super root counts the base towns whose path from its
/// terminal holds `c`.
pub open spec fn path_count(adj: Seq<Seq<u32>>, pairs: Seq<(usize, usize)>, base: Seq<usize>, sr: Option<usize>, c: usize) -> nat
    decreases pairs.len(),
{
    if pairs.len() == 0 {
        0
    } else {
        path_count(adj, pairs.drop_last(), base, sr, c) + if ordinary(sr, pairs.last()) {
            if walk_hits(adj, pairs.last().1, pairs.last().0, c) { 1nat } else { 0nat }
        } else {
            base.filter(town_hit(adj, pairs.last().0, c)).len()
        }
    }
}

/// The path that the breadth-first walk from `s` returns to `t` is a
/// shortest path.
pub open spec fn bfs_shortest(adj: Seq<Seq<u32>>, s: usize, t: usize) -> bool {
    &&& is_path(adj, ids_path(bfs_path(adj, s, t)), s as int, t as int)
    &&& is_dist(adj, s as int, t as int, (bfs_path(adj, s, t).len() - 1) as nat)
}

/// A pair `(terminal, root)` of nodes joined by exactly one shortest path,
/// which, when they are joined, the walk from the root returns.
pub open spec fn unique_pair(adj: Seq<Seq<u32>>, p: (usize, usize)) -> bool {
    &&& p.0 < adj.len()
    &&& p.1 < adj.len()
    &&& unique_shortest(adj, p.1 as int, p.0 as int)
    &&& connected(adj, p.1 as int, p.0 as int) ==> bfs_shortest(adj, p.1, p.0)
}

/// For a pair with one shortest path, the returned path holds `c` exactly
/// when some shortest path does.
pub proof fn lemma_hits_through(adj: Seq<Seq<u32>>, p: (usize, usize), c: usize)
    requires
        unique_pair(adj, p),
    ensures
        walk_hits(adj, p.1, p.0, c) <==> through(adj, None, c, p),
{
    let (t, r) = p;
    if connected(adj, r as int, t as int) {
        let b = bfs_path(adj, r, t);
        let q = ids_path(b);
        if b.contains(c) {
            let i = choose|i: int| 0 <= i < b.len() && b[i] == c;
            assert(q[i] == c as int);
            lemma_shortest_path_nodes(adj, q, r as int, t as int, i);
        }
        if on_shortest(adj, r as int, c as int, t as int) {
            lemma_unique_shortest_holds(adj, q, r as int, c as int, t as int);
            let i = choose|i: int| 0 <= i < q.len() && q[i] == c as int;
            assert(b[i] == c);
        }
    }
}

/// Without a super root, and with one shortest path for every pair, the
/// count over the returned paths is the count of pairs with a shortest path
/// through `c`.
pub proof fn lemma_path_count_through(adj: Seq<Seq<u32>>, ps: Seq<(usize, usize)>, bs: Seq<usize>, c: usize)
    requires
        forall|k: int| 0 <= k < ps.len() ==> #[trigger] unique_pair(adj, ps[k]),
    ensures
        path_count(adj, ps, bs, None, c) == through_in(adj, ps, None, c),
    decreases ps.len(),
{
    if ps.len() > 0 {
        let init = ps.drop_last();
        assert forall|k: int| 0 <= k < init.len() implies #[trigger] unique_pair(adj, init[k]) by {
            assert(init[k] == ps[k]);
        }
        lemma_path_count_through(adj, init, bs, c);
        assert(unique_pair(adj, ps[ps.len() - 1]));
        lemma_hits_through(adj, ps.last(), c);
        assert(init.push(ps.last()) =~= ps);
        init.lemma_filter_push(ps.last(), through_pred(adj, None, c));
    }
}

/// A candidate listed once counts once.
pub proof fn lemma_single_multiplicity(cands: Seq<(usize, usize)>, c: usize)
    requires
        candidate_ids(cands).contains(c),
        forall|i: int, j: int| 0 <= i < cands.len() && 0 <= j < cands.len() && #[trigger] cands[i].0 == #[trigger] cands[j].0 ==> i == j,
    ensures
        multiplicity(cands, c) == 1,
{
    let ids = cands.map_values(|p: (usize, usize)| p.0);
    assert(ids.contains(c));
    let i = choose|i: int| 0 <= i < ids.len() && ids[i] == c;
    assert(cands[i].0 == c);
    lemma_single_upto(cands, c, i, cands.len() as int);
    assert(cands.take(cands.len() as int) =~= cands);
}

proof fn lemma_single_upto(cands: Seq<(usize, usize)>, c: usize, i: int, k: int)
    requires
        0 <= i < cands.len(),
        0 <= k <= cands.len(),
        cands[i].0 == c,
        forall|a: int, b: int| 0 <= a < cands.len() && 0 <= b < cands.len() && #[trigger] cands[a].0 == #[trigger] cands[b].0 ==> a == b,
    ensures
        cands.take(k).filter(is_cand(c)).len() == if k > i { 1int } else { 0 },
    decreases k,
{
    if k == 0 {
        crate::counting::lemma_take_none(cands, is_cand(c));
    } else {
        lemma_single_upto(cands, c, i, k - 1);
        crate::counting::lemma_take_filter(cands, k - 1, is_cand(c));
        if k - 1 != i {
            assert(cands[k - 1].0 != c);
        }
    }
}

} // verus!
