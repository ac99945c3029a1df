//! A map ordered by sequence number.

use std::collections::BTreeMap;
use vstd::prelude::*;
use vstd::std_specs::cmp::OrdSpec;

verus! {

broadcast use {vstd::std_specs::btree::group_btree_axioms, vstd::laws_cmp::group_laws_cmp};

/// The numbers from `lo` on that are in the set, in ascending order.
pub open spec fn ascending_from(s: Set<u16>, lo: int) -> Seq<u16>
    decreases 0x1_0000 - lo,
{
    if lo >= 0x1_0000 {
        Seq::empty()
    } else if s.contains(lo as u16) {
        seq![lo as u16] + ascending_from(s, lo + 1)
    } else {
        ascending_from(s, lo + 1)
    }
}

/// The numbers in the set, in ascending order.
pub open spec fn ascending(s: Set<u16>) -> Seq<u16> {
    ascending_from(s, 0)
}

/// The numbers in ascending order are those of the set, each once.
pub proof fn lemma_ascending(s: Set<u16>)
    ensures
        forall|k: u16| #[trigger] ascending(s).contains(k) <==> s.contains(k),
        forall|i: int, j: int|
            0 <= i < j < ascending(s).len() ==> #[trigger] ascending(s)[i] < #[trigger] ascending(
                s,
            )[j],
        ascending(s).no_duplicates(),
{
    lemma_ascending_from(s, 0);
}

proof fn lemma_ascending_from(s: Set<u16>, lo: int)
    requires
        0 <= lo,
    ensures
        forall|k: u16| #[trigger]
            ascending_from(s, lo).contains(k) <==> s.contains(k) && lo <= k,
        forall|i: int, j: int|
            0 <= i < j < ascending_from(s, lo).len() ==> #[trigger] ascending_from(s, lo)[i]
                < #[trigger] ascending_from(s, lo)[j],
    decreases 0x1_0000 - lo,
{
    let t = ascending_from(s, lo);
    if lo < 0x1_0000 {
        let rest = ascending_from(s, lo + 1);
        lemma_ascending_from(s, lo + 1);
        if s.contains(lo as u16) {
            assert(t[0] == lo as u16);
            assert forall|i: int| 0 <= i < rest.len() implies #[trigger] t[i + 1] == rest[i] by {}
            assert forall|k: u16| #[trigger] t.contains(k) <==> s.contains(k) && lo <= k by {
                if t.contains(k) {
                    let i = choose|i: int| 0 <= i < t.len() && t[i] == k;
                    if i > 0 {
                        assert(rest.contains(k));
                    }
                }
                if s.contains(k) && lo <= k {
                    if k != lo {
                        assert(rest.contains(k));
                        let i = choose|i: int| 0 <= i < rest.len() && rest[i] == k;
                        assert(t[i + 1] == k);
                    }
                }
            }
            assert forall|i: int, j: int| 0 <= i < j < t.len() implies #[trigger] t[i]
                < #[trigger] t[j] by {
                assert(rest.contains(rest[j - 1]));
                if i > 0 {
                    assert(t[i] == rest[i - 1]);
                }
            }
        }
    }
}

/// An ascending sequence of the numbers in the set is the one.
pub proof fn lemma_ascending_unique(s: Set<u16>, t: Seq<u16>)
    requires
        forall|k: u16| #[trigger] t.contains(k) <==> s.contains(k),
        forall|i: int, j: int| 0 <= i < j < t.len() ==> #[trigger] t[i] < #[trigger] t[j],
    ensures
        t == ascending(s),
{
    lemma_unique_from(s, t, 0);
}

proof fn lemma_unique_from(s: Set<u16>, t: Seq<u16>, lo: int)
    requires
        0 <= lo,
        forall|k: u16| #[trigger] t.contains(k) <==> s.contains(k) && lo <= k,
        forall|i: int, j: int| 0 <= i < j < t.len() ==> #[trigger] t[i] < #[trigger] t[j],
    ensures
        t == ascending_from(s, lo),
    decreases 0x1_0000 - lo,
{
    if lo >= 0x1_0000 {
        if t.len() > 0 {
            assert(t.contains(t[0]));
        }
        assert(t =~= Seq::<u16>::empty());
    } else if s.contains(lo as u16) {
        assert(t.contains(lo as u16));
        let i = choose|i: int| 0 <= i < t.len() && t[i] == lo as u16;
        if i > 0 {
            assert(t.contains(t[0]));
        }
        let rest = t.drop_first();
        assert forall|k: u16| #[trigger] rest.contains(k) <==> s.contains(k) && lo + 1 <= k by {
            if rest.contains(k) {
                let j = choose|j: int| 0 <= j < rest.len() && rest[j] == k;
                assert(t.contains(k));
            }
            if s.contains(k) && lo + 1 <= k {
                assert(t.contains(k));
                let j = choose|j: int| 0 <= j < t.len() && t[j] == k;
                assert(rest[j - 1] == k);
            }
        }
        lemma_unique_from(s, rest, lo + 1);
        assert(t =~= seq![lo as u16] + rest);
    } else {
        assert forall|k: u16| #[trigger] t.contains(k) <==> s.contains(k) && lo + 1 <= k by {}
        lemma_unique_from(s, t, lo + 1);
    }
}

proof fn lemma_increasing(s: Seq<&u16>, i: int, j: int)
    requires
        vstd::std_specs::btree::increasing_seq(s),
        0 <= i < j < s.len(),
    ensures
        *s[i] < *s[j],
{
    assert(OrdSpec::cmp_spec(&s[i], &s[j]) is Less);
}

/// A map from sequence numbers, walked in ascending order.
pub struct SeqMap<V> {
    inner: BTreeMap<u16, V>,
}

impl<V> View for SeqMap<V> {
    type V = Map<u16, V>;

    closed spec fn view(&self) -> Map<u16, V> {
        self.inner@
    }
}

impl<V> SeqMap<V> {
    /// An empty map.
    pub fn new() -> (m: SeqMap<V>)
        ensures
            m@ == Map::<u16, V>::empty(),
    {
        SeqMap { inner: BTreeMap::new() }
    }

    /// Whether the map holds no number.
    pub fn is_empty(&self) -> (r: bool)
        ensures
            r == (self@ == Map::<u16, V>::empty()),
    {
        let r = self.inner.is_empty();
        proof {
            if r {
                assert(self@ =~= Map::<u16, V>::empty());
            }
        }
        r
    }

    /// The value of the number.
    pub fn get(&self, k: u16) -> (r: Option<&V>)
        ensures
            match r {
                Some(v) => self@.contains_key(k) && *v == self@[k],
                None => !self@.contains_key(k),
            },
    {
        self.inner.get(&k)
    }

    /// Sets the value of the number.
    pub fn insert(&mut self, k: u16, v: V)
        ensures
            final(self)@ == old(self)@.insert(k, v),
    {
        self.inner.insert(k, v);
    }

    /// Takes the number out of the map.
    pub fn remove(&mut self, k: u16) -> (r: Option<V>)
        ensures
            final(self)@ == old(self)@.remove(k),
            match r {
                Some(v) => old(self)@.contains_key(k) && v == old(self)@[k],
                None => !old(self)@.contains_key(k),
            },
    {
        self.inner.remove(&k)
    }

    /// The numbers, in ascending order.
    pub fn keys(&self) -> (r: Vec<u16>)
        ensures
            r@ == ascending(self@.dom()),
    {
        let mut r: Vec<u16> = Vec::new();
        for k in it: self.inner.keys()
            invariant
                r@.len() == it.index(),
                forall|i: int|
                    #![trigger r@[i]]
                    #![trigger it.seq()[i]]
                    0 <= i < r@.len() ==> r@[i] == *it.seq()[i],
                it.seq().unref().to_set() == self@.dom(),
                vstd::std_specs::btree::increasing_seq(it.seq()),
                forall|i: int| 0 <= i < r@.len() ==> self@.contains_key(#[trigger] r@[i]),
                forall|i: int, j: int| 0 <= i < j < r@.len() ==> #[trigger] r@[i] < #[trigger] r@[j],
                forall|q: u16| #[trigger]
                    self@.contains_key(q) ==> exists|i: int|
                        0 <= i < it.seq().len() && *it.seq()[i] == q,
        {
            proof {
                let s = it.seq();
                let n = it.index();
                assert forall|i: int| 0 <= i < n implies #[trigger] r@[i] < *k by {
                    lemma_increasing(s, i, n);
                }
            }
            r.push(*k);
        }
        proof {
            assert forall|q: u16| #[trigger] r@.contains(q) <==> self@.dom().contains(q) by {
                if self@.dom().contains(q) {
                    assert(self@.contains_key(q));
                }
            }
            lemma_ascending_unique(self@.dom(), r@);
        }
        r
    }

    /// The domain is finite.
    pub proof fn lemma_finite(&self)
        ensures
            self@.dom().finite(),
    {
    }
}

} // verus!
