//! An ordered table keyed by an integer.

use std::collections::BTreeMap;
use vstd::laws_cmp::obeys_cmp;
use vstd::prelude::*;
use vstd::std_specs::btree::increasing_seq;
use vstd::std_specs::cmp::OrdSpec;
use vstd::std_specs::iter::IteratorSpec;

verus! {

broadcast use vstd::laws_cmp::group_laws_cmp;

/// Keys in strictly rising order.
pub open spec fn rising(keys: Seq<u64>) -> bool {
    forall|i: int, j: int| 0 <= i < j < keys.len() ==> #[trigger] keys[i] < #[trigger] keys[j]
}

/// A map from 64-bit keys, kept in the order of its keys.
pub struct Table<V> {
    rows: BTreeMap<u64, V>,
}

impl<V> View for Table<V> {
    type V = Map<u64, V>;

    closed spec fn view(&self) -> Map<u64, V> {
        self.rows@
    }
}

impl<V> Table<V> {
    /// An empty table.
    pub fn new() -> (t: Self)
        ensures
            t@ == Map::<u64, V>::empty(),
    {
        Table { rows: BTreeMap::new() }
    }

    /// The number of keys.
    pub fn len(&self) -> (n: usize)
        ensures
            self@.dom().finite(),
            n == self@.len(),
    {
        self.rows.len()
    }

    /// Whether there is no key at all.
    pub fn is_empty(&self) -> (r: bool)
        ensures
            r == (self@ == Map::<u64, V>::empty()),
    {
        let r: bool = self.rows.is_empty();
        proof {
            if r {
                assert(self@ =~= Map::<u64, V>::empty());
            }
        }
        r
    }

    /// Whether the key is there.
    pub fn contains_key(&self, k: u64) -> (r: bool)
        ensures
            r == self@.contains_key(k),
    {
        self.rows.contains_key(&k)
    }

    /// The value of a key.
    pub fn get(&self, k: u64) -> (r: Option<&V>)
        ensures
            r == (if self@.contains_key(k) {
                Some(&self@[k])
            } else {
                None
            }),
    {
        self.rows.get(&k)
    }

    /// Gives a key a value, and hands back the value it had.
    pub fn insert(&mut self, k: u64, v: V) -> (prev: Option<V>)
        ensures
            final(self)@ == old(self)@.insert(k, v),
            prev == (if old(self)@.contains_key(k) {
                Some(old(self)@[k])
            } else {
                None
            }),
    {
        self.rows.insert(k, v)
    }

    /// Takes a key out, and hands back its value.
    pub fn remove(&mut self, k: u64) -> (prev: Option<V>)
        ensures
            final(self)@ == old(self)@.remove(k),
            prev == (if old(self)@.contains_key(k) {
                Some(old(self)@[k])
            } else {
                None
            }),
    {
        self.rows.remove(&k)
    }

    /// All keys, in rising order.
    pub fn keys(&self) -> (ks: Vec<u64>)
        ensures
            self@.dom().finite(),
            rising(ks@),
            forall|k: u64| self@.contains_key(k) <==> #[trigger] ks@.contains(k),
    {
        let ghost all: Seq<&u64> = IteratorSpec::remaining(&self.rows.keys());
        let mut ks: Vec<u64> = Vec::new();
        for k in it: self.rows.keys()
            invariant
                it.seq() == all,
                ks@.len() == it.index(),
                forall|j: int| 0 <= j < ks@.len() ==> #[trigger] ks@[j] == *all[j],
        {
            ks.push(*k);
        }
        proof {
            assert(ks@ =~= all.unref());
            assert forall|i: int, j: int| 0 <= i < j < ks@.len() implies #[trigger] ks@[i]
                < #[trigger] ks@[j] by {
                assert(obeys_cmp::<u64>() && obeys_cmp::<&u64>());
                assert(increasing_seq(all));
                assert(OrdSpec::cmp_spec(&all[i], &all[j]) is Less);
            }
            assert forall|k: u64| self@.contains_key(k) <==> #[trigger] ks@.contains(k) by {
                assert(self@.dom().contains(k) == all.unref().to_set().contains(k));
            }
        }
        ks
    }

    /// The last key below a bound.
    pub fn last_below(&self, bound: u64) -> (r: Option<u64>)
        ensures
            match r {
                Some(k) => {
                    &&& self@.contains_key(k)
                    &&& k < bound
                    &&& forall|x: u64| #[trigger] self@.contains_key(x) && x < bound ==> x <= k
                },
                None => forall|x: u64| #[trigger] self@.contains_key(x) ==> x >= bound,
            },
    {
        let ks: Vec<u64> = self.keys();
        let mut i: usize = ks.len();
        while i > 0
            invariant
                i <= ks@.len(),
                rising(ks@),
                forall|k: u64| self@.contains_key(k) <==> #[trigger] ks@.contains(k),
                forall|j: int| i <= j < ks@.len() ==> #[trigger] ks@[j] >= bound,
            decreases i,
        {
            i = i - 1;
            let k: u64 = ks[i];
            if k < bound {
                proof {
                    assert(ks@.contains(k));
                    assert forall|x: u64| #[trigger] self@.contains_key(x) && x < bound implies x
                        <= k by {
                        assert(ks@.contains(x));
                        let j = choose|j: int| 0 <= j < ks@.len() && ks@[j] == x;
                        if j < i {
                            assert(ks@[j] < ks@[i as int]);
                        }
                    }
                }
                return Some(k);
            }
        }
        proof {
            assert forall|x: u64| #[trigger] self@.contains_key(x) implies x >= bound by {
                assert(ks@.contains(x));
            }
        }
        None
    }
}

/// Two rising lists of the same keys are the same list.
pub proof fn lemma_rising_lists_agree(a: Seq<u64>, b: Seq<u64>)
    requires
        rising(a),
        rising(b),
        forall|k: u64| #[trigger] a.contains(k) <==> b.contains(k),
    ensures
        a == b,
    decreases a.len(),
{
    if a.len() == 0 {
        if b.len() > 0 {
            assert(b.contains(b[0]));
            assert(a.contains(b[0]));
        }
        assert(a =~= b);
    } else {
        assert(a.contains(a.last()));
        assert(b.contains(a.last()));
        assert(b.len() > 0);
        assert(b.contains(b.last()));
        assert(a.contains(b.last()));
        let i = choose|i: int| 0 <= i < a.len() && a[i] == b.last();
        let j = choose|j: int| 0 <= j < b.len() && b[j] == a.last();
        assert(a.last() == b.last()) by {
            if i < a.len() - 1 && j < b.len() - 1 {
                assert(a[i] < a[a.len() - 1]);
                assert(b[j] < b[b.len() - 1]);
            }
        }
        let (x, y) = (a.drop_last(), b.drop_last());
        assert(rising(x));
        assert(rising(y));
        assert forall|k: u64| #[trigger] x.contains(k) <==> y.contains(k) by {
            if x.contains(k) {
                let n = choose|n: int| 0 <= n < x.len() && x[n] == k;
                assert(a[n] == k);
                assert(a.contains(k));
                let m = choose|m: int| 0 <= m < b.len() && b[m] == k;
                assert(a[n] < a[a.len() - 1]);
                assert(y[m] == k);
            }
            if y.contains(k) {
                let n = choose|n: int| 0 <= n < y.len() && y[n] == k;
                assert(b[n] == k);
                assert(b.contains(k));
                assert(a.contains(k));
                let m = choose|m: int| 0 <= m < a.len() && a[m] == k;
                assert(b[n] < b[b.len() - 1]);
                assert(x[m] == k);
            }
        }
        lemma_rising_lists_agree(x, y);
        assert(a =~= x.push(a.last()));
        assert(b =~= y.push(b.last()));
    }
}

} // verus!
