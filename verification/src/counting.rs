//! Counting the items of a list, or of the set it lists, that meet a
//! condition.
use vstd::prelude::*;

verus! {

/// The items of a list without repeats that meet `p` are as many as the
/// items of its set that meet `p`.
pub proof fn lemma_filter_count<A>(s: Seq<A>, p: spec_fn(A) -> bool)
    requires
        s.no_duplicates(),
    ensures
        s.to_set().finite(),
        s.filter(p).len() == s.to_set().filter(p).len(),
    decreases s.len(),
{
    broadcast use vstd::seq_lib::group_seq_properties;
    broadcast use vstd::set::group_set_axioms;

    if s.len() == 0 {
        assert(s.to_set() =~= Set::empty());
        assert(s.to_set().filter(p) =~= Set::empty());
        reveal(Seq::filter);
    } else {
        let r = s.drop_last();
        let x = s.last();
        lemma_filter_count(r, p);
        assert(s =~= r.push(x));
        r.lemma_filter_push(x, p);
        assert(s.to_set() =~= r.to_set().insert(x));
        assert(!r.to_set().contains(x)) by {
            if r.contains(x) {
                let k = choose|k: int| 0 <= k < r.len() && r[k] == x;
                assert(s[k] == s[s.len() - 1]);
            }
        }
        if p(x) {
            assert(s.to_set().filter(p) =~= r.to_set().filter(p).insert(x));
        } else {
            assert(s.to_set().filter(p) =~= r.to_set().filter(p));
        }
    }
}

/// The same count, for a set given by membership.
pub proof fn lemma_filter_count_set<A>(s: Seq<A>, t: Set<A>, p: spec_fn(A) -> bool)
    requires
        s.no_duplicates(),
        forall|x: A| #[trigger] s.contains(x) <==> t.contains(x),
    ensures
        t.finite(),
        s.filter(p).len() == t.filter(p).len(),
{
    assert(s.to_set() =~= t);
    lemma_filter_count(s, p);
}

/// Taking one more item of a list adds it to the items that meet `p` when
/// it meets `p`.
pub proof fn lemma_take_filter<A>(s: Seq<A>, k: int, p: spec_fn(A) -> bool)
    requires
        0 <= k < s.len(),
    ensures
        s.take(k + 1).filter(p).len() == s.take(k).filter(p).len() + (if p(s[k]) { 1int } else { 0 }),
{
    assert(s.take(k + 1) =~= s.take(k).push(s[k]));
    s.take(k).lemma_filter_push(s[k], p);
}

/// No item of the empty prefix meets anything.
pub proof fn lemma_take_none<A>(s: Seq<A>, p: spec_fn(A) -> bool)
    ensures
        s.take(0).filter(p).len() == 0,
{
    reveal(Seq::filter);
    assert(s.take(0).len() == 0);
}

/// The set of a list with one more item.
pub proof fn lemma_push_to_set<A>(s: Seq<A>, x: A)
    ensures
        s.push(x).to_set() == s.to_set().insert(x),
{
    let t = s.push(x);
    assert forall|y: A| #[trigger] t.to_set().contains(y) <==> s.to_set().insert(x).contains(y) by {
        if s.contains(y) {
            let k = choose|k: int| 0 <= k < s.len() && s[k] == y;
            assert(t[k] == y);
        }
        if t.contains(y) && y != x {
            let k = choose|k: int| 0 <= k < t.len() && t[k] == y;
            assert(k < s.len());
            assert(s[k] == y);
        }
        if y == x {
            assert(t[s.len() as int] == x);
        }
    }
    assert(t.to_set() =~= s.to_set().insert(x));
}

} // verus!
