//! Facts about sequences.

use vstd::prelude::*;

verus! {

/// One more element, filtered.
pub proof fn lemma_filter_step<A>(s: Seq<A>, i: int, p: spec_fn(A) -> bool)
    requires
        0 <= i < s.len(),
    ensures
        s.take(i + 1).filter(p) == (if p(s[i]) {
            s.take(i).filter(p).push(s[i])
        } else {
            s.take(i).filter(p)
        }),
{
    reveal(Seq::filter);
    assert(s.take(i + 1).drop_last() =~= s.take(i));
    assert(s.take(i + 1).last() == s[i]);
}

/// Where a filtered element comes from.
pub proof fn lemma_filter_from<A>(s: Seq<A>, p: spec_fn(A) -> bool, k: int) -> (i: int)
    requires
        0 <= k < s.filter(p).len(),
    ensures
        0 <= i < s.len(),
        s[i] == s.filter(p)[k],
        p(s[i]),
        k <= i,
    decreases s.len(),
{
    reveal(Seq::filter);
    let sub = s.drop_last().filter(p);
    if k < sub.len() {
        let j = lemma_filter_from(s.drop_last(), p, k);
        assert(s.drop_last()[j] == s[j]);
        j
    } else {
        lemma_filter_len(s.drop_last(), p);
        s.len() - 1
    }
}

/// Filtering makes nothing longer.
pub proof fn lemma_filter_len<A>(s: Seq<A>, p: spec_fn(A) -> bool)
    ensures
        s.filter(p).len() <= s.len(),
    decreases s.len(),
{
    reveal(Seq::filter);
    if s.len() > 0 {
        lemma_filter_len(s.drop_last(), p);
    }
}

/// Two filtered elements come from two places, in the same order.
pub proof fn lemma_filter_pairs<A>(s: Seq<A>, p: spec_fn(A) -> bool, a: int, b: int) -> (r: (int, int))
    requires
        0 <= a < b < s.filter(p).len(),
    ensures
        0 <= r.0 < r.1 < s.len(),
        s[r.0] == s.filter(p)[a],
        s[r.1] == s.filter(p)[b],
    decreases s.len(),
{
    reveal(Seq::filter);
    let sub = s.drop_last().filter(p);
    if b < sub.len() {
        let r = lemma_filter_pairs(s.drop_last(), p, a, b);
        assert(s.drop_last()[r.0] == s[r.0]);
        assert(s.drop_last()[r.1] == s[r.1]);
        r
    } else {
        let i = lemma_filter_from(s.drop_last(), p, a);
        assert(s.drop_last()[i] == s[i]);
        (i, s.len() - 1)
    }
}

/// An element that passes the filter is still there.
pub proof fn lemma_filter_keeps<A>(s: Seq<A>, p: spec_fn(A) -> bool, i: int)
    requires
        0 <= i < s.len(),
        p(s[i]),
    ensures
        s.filter(p).contains(s[i]),
    decreases s.len(),
{
    reveal(Seq::filter);
    let sub = s.drop_last().filter(p);
    if i < s.len() - 1 {
        lemma_filter_keeps(s.drop_last(), p, i);
        assert(s.drop_last()[i] == s[i]);
        let k = choose|k: int| 0 <= k < sub.len() && sub[k] == s[i];
        assert(s.filter(p)[k] == s[i]);
    } else {
        assert(s.filter(p)[sub.len() as int] == s[i]);
    }
}

/// One more element of a prefix.
pub proof fn lemma_take_contains(keys: Seq<u64>, i: int)
    requires
        0 <= i < keys.len(),
    ensures
        forall|k: u64| #[trigger]
            keys.take(i + 1).contains(k) <==> keys.take(i).contains(k) || k == keys[i],
{
    let (done, next) = (keys.take(i), keys.take(i + 1));
    assert forall|k: u64| #[trigger] next.contains(k) <==> done.contains(k) || k == keys[i] by {
        if next.contains(k) {
            let j = choose|j: int| 0 <= j < next.len() && next[j] == k;
            if j < i {
                assert(done[j] == k);
            }
        }
        if done.contains(k) {
            let j = choose|j: int| 0 <= j < done.len() && done[j] == k;
            assert(next[j] == k);
        }
        if k == keys[i] {
            assert(next[i] == k);
        }
    }
}

} // verus!
