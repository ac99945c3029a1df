//! Small keyed collections with a `Map` view.
//!
//! A torrent holds a few dozen peers and a handful of pieces in flight, so the
//! collections here are vectors searched from the front: iteration follows the
//! order of insertion.

use vstd::prelude::*;

verus! {

/// A value that can be a key: a copyable value whose equality can be tested.
pub trait Key: Copy {
    /// Whether the two keys are the same value.
    fn same(&self, other: &Self) -> (r: bool)
        ensures
            r == (*self == *other),
    ;
}

impl Key for i32 {
    fn same(&self, other: &i32) -> (r: bool) {
        *self == *other
    }
}

impl Key for u16 {
    fn same(&self, other: &u16) -> (r: bool) {
        *self == *other
    }
}

impl Key for u32 {
    fn same(&self, other: &u32) -> (r: bool) {
        *self == *other
    }
}

impl Key for [u8; 20] {
    fn same(&self, other: &[u8; 20]) -> (r: bool) {
        let mut i: usize = 0;
        while i < 20
            invariant
                i <= 20,
                forall|j: int| 0 <= j < i ==> self@[j] == other@[j],
            decreases 20 - i,
        {
            if self[i] != other[i] {
                return false;
            }
            i += 1;
        }
        assert(*self =~= *other);
        true
    }
}

/// The first position of `k` in `s`, or the length of `s` where it does not occur.
pub open spec fn position_of<K>(s: Seq<K>, k: K) -> int
    decreases s.len(),
{
    if s.len() == 0 {
        0
    } else if s[0] == k {
        0
    } else {
        1 + position_of(s.drop_first(), k)
    }
}

/// Where a position is found, the key stands there.
pub proof fn lemma_position_of<K>(s: Seq<K>, k: K)
    ensures
        0 <= position_of(s, k) <= s.len(),
        position_of(s, k) < s.len() ==> s[position_of(s, k)] == k,
        position_of(s, k) < s.len() <==> s.contains(k),
        forall|j: int| 0 <= j < position_of(s, k) ==> s[j] != k,
    decreases s.len(),
{
    if s.len() > 0 && s[0] != k {
        let t = s.drop_first();
        lemma_position_of(t, k);
        assert forall|j: int| 0 <= j < position_of(s, k) implies s[j] != k by {
            if j > 0 {
                assert(t[j - 1] == s[j]);
            }
        }
        if s.contains(k) {
            let i = choose|i: int| 0 <= i < s.len() && s[i] == k;
            assert(t[i - 1] == k);
        }
    }
}

/// In a sequence without duplicates the position of the key at `i` is `i`.
pub proof fn lemma_position_unique<K>(s: Seq<K>, i: int)
    requires
        s.no_duplicates(),
        0 <= i < s.len(),
    ensures
        position_of(s, s[i]) == i,
{
    lemma_position_of(s, s[i]);
    assert(s.contains(s[i]));
}

/// The position of `k` in `keys`, if it occurs.
pub fn find_key<K: Key>(keys: &Vec<K>, k: &K) -> (r: Option<usize>)
    ensures
        match r {
            Some(i) => i < keys@.len() && i == position_of(keys@, *k) && keys@[i as int] == *k,
            None => !keys@.contains(*k),
        },
{
    let mut i: usize = 0;
    while i < keys.len()
        invariant
            i <= keys@.len(),
            forall|j: int| 0 <= j < i ==> keys@[j] != *k,
        decreases keys@.len() - i,
    {
        if keys[i].same(k) {
            proof {
                lemma_position_of(keys@, *k);
                assert(keys@.contains(*k));
            }
            return Some(i);
        }
        i += 1;
    }
    None
}

/// A map kept in the order in which its keys were inserted.
pub struct VecMap<K, V> {
    keys: Vec<K>,
    vals: Vec<V>,
}

impl<K: Key, V> View for VecMap<K, V> {
    type V = Map<K, V>;

    closed spec fn view(&self) -> Map<K, V> {
        Map::new(
            |k: K| self.keys@.contains(k),
            |k: K| self.vals@[position_of(self.keys@, k)],
        )
    }
}

impl<K: Key, V> VecMap<K, V> {
    /// Every key occurs once and has a value.
    pub closed spec fn wf(&self) -> bool {
        &&& self.keys@.len() == self.vals@.len()
        &&& self.keys@.no_duplicates()
    }

    /// The keys in the order in which they were inserted.
    pub closed spec fn order(&self) -> Seq<K> {
        self.keys@
    }

    /// The keys in order are the keys of the map, each once.
    pub proof fn lemma_order(&self)
        requires
            self.wf(),
        ensures
            self.order().no_duplicates(),
            forall|k: K| #[trigger] self@.contains_key(k) <==> self.order().contains(k),
            self@.dom() == self.order().to_set(),
            self@.dom().finite(),
            self@.dom().len() == self.order().len(),
    {
        assert(self@.dom() =~= self.order().to_set());
        self.order().unique_seq_to_set();
    }

    /// An empty map.
    pub fn new() -> (m: VecMap<K, V>)
        ensures
            m.wf(),
            m@ == Map::<K, V>::empty(),
            m.order() == Seq::<K>::empty(),
    {
        let m = VecMap { keys: Vec::new(), vals: Vec::new() };
        assert(m@ =~= Map::<K, V>::empty());
        m
    }

    /// The number of keys.
    pub fn len(&self) -> (n: usize)
        requires
            self.wf(),
        ensures
            n == self.order().len(),
            n == self@.dom().len(),
    {
        proof {
            self.lemma_order();
        }
        self.keys.len()
    }

    /// Whether the map holds no key.
    pub fn is_empty(&self) -> (r: bool)
        requires
            self.wf(),
        ensures
            r == (self.order().len() == 0),
            r == (self@ == Map::<K, V>::empty()),
    {
        let r = self.keys.len() == 0;
        proof {
            if r {
                assert(self@ =~= Map::<K, V>::empty());
            } else {
                assert(self@.contains_key(self.keys@[0]));
            }
        }
        r
    }

    /// Whether the key is in the map.
    pub fn contains_key(&self, k: &K) -> (r: bool)
        requires
            self.wf(),
        ensures
            r == self@.contains_key(*k),
    {
        find_key(&self.keys, k).is_some()
    }

    /// The value of the key.
    pub fn get(&self, k: &K) -> (r: Option<&V>)
        requires
            self.wf(),
        ensures
            match r {
                Some(v) => self@.contains_key(*k) && *v == self@[*k],
                None => !self@.contains_key(*k),
            },
    {
        match find_key(&self.keys, k) {
            Some(i) => Some(&self.vals[i]),
            None => None,
        }
    }

    /// The value of the key, to be changed in place.
    pub fn get_mut(&mut self, k: &K) -> (r: Option<&mut V>)
        requires
            old(self).wf(),
        ensures
            final(self).wf(),
            final(self).order() == old(self).order(),
            match r {
                Some(v) => {
                    &&& old(self)@.contains_key(*k)
                    &&& *v == old(self)@[*k]
                    &&& final(self)@ == old(self)@.insert(*k, *final(v))
                },
                None => !old(self)@.contains_key(*k) && final(self)@ == old(self)@,
            },
    {
        match find_key(&self.keys, k) {
            Some(i) => {
                let ghost before = *self;
                let v = &mut self.vals[i];
                proof {
                    lemma_update(before.keys@, before.vals@, i as int, *final(v));
                }
                Some(v)
            },
            None => None,
        }
    }

    /// Sets the value of the key; a new key goes last.
    pub fn insert(&mut self, k: K, v: V) -> (r: Option<V>)
        requires
            old(self).wf(),
        ensures
            final(self).wf(),
            final(self)@ == old(self)@.insert(k, v),
            final(self).order() == if old(self)@.contains_key(k) {
                old(self).order()
            } else {
                old(self).order().push(k)
            },
            match r {
                Some(o) => old(self)@.contains_key(k) && o == old(self)@[k],
                None => !old(self)@.contains_key(k),
            },
    {
        match find_key(&self.keys, &k) {
            Some(i) => {
                let mut v = v;
                std::mem::swap(&mut self.vals[i], &mut v);
                proof {
                    lemma_update(old(self).keys@, old(self).vals@, i as int, self.vals@[i as int]);
                    assert(self@ =~= old(self)@.insert(k, self.vals@[i as int]));
                }
                Some(v)
            },
            None => {
                self.keys.push(k);
                self.vals.push(v);
                proof {
                    let ks = old(self).keys@;
                    assert forall|q: K| ks.contains(q) implies #[trigger] position_of(self.keys@, q)
                        == position_of(ks, q) by {
                        lemma_position_of(ks, q);
                        lemma_position_of(self.keys@, q);
                        lemma_position_unique(self.keys@, position_of(ks, q));
                    }
                    lemma_position_unique(self.keys@, ks.len() as int);
                    assert forall|q: K| self.keys@.contains(q) <==> (ks.contains(q) || q == k) by {
                        if ks.contains(q) {
                            let j = choose|j: int| 0 <= j < ks.len() && ks[j] == q;
                            assert(self.keys@[j] == q);
                        }
                    }
                    assert forall|q: K| ks.contains(q) implies #[trigger] self.vals@[position_of(
                        self.keys@,
                        q,
                    )] == old(self).vals@[position_of(ks, q)] by {
                        lemma_position_of(ks, q);
                    }
                    assert(self@ =~= old(self)@.insert(k, v));
                }
                None
            },
        }
    }

    /// Takes the key out of the map.
    pub fn remove(&mut self, k: &K) -> (r: Option<V>)
        requires
            old(self).wf(),
        ensures
            final(self).wf(),
            final(self)@ == old(self)@.remove(*k),
            final(self).order() == if old(self)@.contains_key(*k) {
                old(self).order().remove(position_of(old(self).order(), *k))
            } else {
                old(self).order()
            },
            match r {
                Some(o) => old(self)@.contains_key(*k) && o == old(self)@[*k],
                None => !old(self)@.contains_key(*k),
            },
    {
        match find_key(&self.keys, k) {
            Some(i) => {
                self.keys.remove(i);
                let v = self.vals.remove(i);
                proof {
                    lemma_remove(old(self).keys@, old(self).vals@, i as int);
                    assert(self@ =~= old(self)@.remove(*k));
                }
                Some(v)
            },
            None => {
                assert(self@ =~= old(self)@.remove(*k));
                None
            },
        }
    }

    /// Takes every key out of the map.
    pub fn clear(&mut self)
        ensures
            final(self).wf(),
            final(self)@ == Map::<K, V>::empty(),
            final(self).order() == Seq::<K>::empty(),
    {
        self.keys.clear();
        self.vals.clear();
        assert(self@ =~= Map::<K, V>::empty());
    }

    /// The keys, in the order in which they were inserted.
    pub fn keys(&self) -> (r: Vec<K>)
        requires
            self.wf(),
        ensures
            r@ == self.order(),
    {
        let mut r: Vec<K> = Vec::new();
        let mut i: usize = 0;
        while i < self.keys.len()
            invariant
                i <= self.keys@.len(),
                r@ == self.keys@.take(i as int),
            decreases self.keys@.len() - i,
        {
            r.push(self.keys[i]);
            i += 1;
            assert(self.keys@.take(i as int) =~= self.keys@.take(i - 1).push(self.keys@[i - 1]));
        }
        assert(self.keys@.take(i as int) =~= self.keys@);
        r
    }
}

/// Changing one value changes the map at that key only.
proof fn lemma_update<K: Key, V>(keys: Seq<K>, vals: Seq<V>, i: int, v: V)
    requires
        keys.no_duplicates(),
        keys.len() == vals.len(),
        0 <= i < keys.len(),
    ensures
        Map::new(
            |k: K| keys.contains(k),
            |k: K| vals.update(i, v)[position_of(keys, k)],
        ) == Map::new(|k: K| keys.contains(k), |k: K| vals[position_of(keys, k)]).insert(keys[i], v),
{
    lemma_position_unique(keys, i);
    let a = Map::new(|k: K| keys.contains(k), |k: K| vals.update(i, v)[position_of(keys, k)]);
    let b = Map::new(|k: K| keys.contains(k), |k: K| vals[position_of(keys, k)]);
    assert forall|k: K| keys.contains(k) && k != keys[i] implies a[k] == b[k] by {
        lemma_position_of(keys, k);
    }
    assert(a =~= b.insert(keys[i], v));
}

/// Taking one position out takes its key out of the map.
proof fn lemma_remove<K: Key, V>(keys: Seq<K>, vals: Seq<V>, i: int)
    requires
        keys.no_duplicates(),
        keys.len() == vals.len(),
        0 <= i < keys.len(),
    ensures
        keys.remove(i).no_duplicates(),
        Map::new(
            |k: K| keys.remove(i).contains(k),
            |k: K| vals.remove(i)[position_of(keys.remove(i), k)],
        ) == Map::new(|k: K| keys.contains(k), |k: K| vals[position_of(keys, k)]).remove(keys[i]),
{
    let ks = keys.remove(i);
    let vs = vals.remove(i);
    assert forall|a: int, b: int| 0 <= a < b < ks.len() implies ks[a] != ks[b] by {
        let x = if a < i { a } else { a + 1 };
    }
    let m = Map::new(|k: K| keys.contains(k), |k: K| vals[position_of(keys, k)]);
    let n = Map::new(|k: K| ks.contains(k), |k: K| vs[position_of(ks, k)]);
    assert forall|k: K| ks.contains(k) <==> (keys.contains(k) && k != keys[i]) by {
        if ks.contains(k) {
            let j = choose|j: int| 0 <= j < ks.len() && ks[j] == k;
            let x = if j < i { j } else { j + 1 };
        }
        if keys.contains(k) && k != keys[i] {
            let x = choose|x: int| 0 <= x < keys.len() && keys[x] == k;
            let j = if x < i { x } else { x - 1 };
            assert(ks[j] == k);
        }
    }
    assert forall|k: K| ks.contains(k) implies n[k] == m[k] by {
        let j = choose|j: int| 0 <= j < ks.len() && ks[j] == k;
        let x = if j < i { j } else { j + 1 };
        lemma_position_unique(ks, j);
        lemma_position_unique(keys, x);
    }
    assert(n =~= m.remove(keys[i]));
}

/// The position of a key is the first at which it stands; a key that does not
/// occur has the length as its position.
pub proof fn law_position<K>(s: Seq<K>, k: K, i: int)
    requires
        0 <= i <= s.len(),
        i < s.len() ==> s[i] == k,
        forall|j: int| 0 <= j < i ==> #[trigger] s[j] != k,
    ensures
        position_of(s, k) == i,
{
    lemma_position_of(s, k);
    if i == s.len() && s.contains(k) {
        let j = choose|j: int| 0 <= j < s.len() && s[j] == k;
        assert(s[j] != k);
    }
    if i < s.len() {
        assert(s.contains(k));
        if position_of(s, k) < i {
            assert(s[position_of(s, k)] != k);
        }
    }
}

} // verus!
