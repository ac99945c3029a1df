//! Facts about sequences that several modules share.

use vstd::prelude::*;

verus! {

/// The first position at which `f` holds, or the length of `s`.
pub open spec fn first_where<T>(s: Seq<T>, f: spec_fn(T) -> bool) -> int
    decreases s.len(),
{
    if s.len() == 0 || f(s[0]) {
        0
    } else {
        1 + first_where(s.drop_first(), f)
    }
}

/// `first_where` is the first position at which `f` holds.
pub proof fn lemma_first_where<T>(s: Seq<T>, f: spec_fn(T) -> bool)
    ensures
        0 <= first_where(s, f) <= s.len(),
        first_where(s, f) < s.len() ==> f(s[first_where(s, f)]),
        forall|j: int| 0 <= j < first_where(s, f) ==> !f(#[trigger] s[j]),
    decreases s.len(),
{
    if s.len() > 0 && !f(s[0]) {
        let t = s.drop_first();
        lemma_first_where(t, f);
        assert forall|j: int| 0 <= j < first_where(s, f) implies !f(#[trigger] s[j]) by {
            if j > 0 {
                assert(t[j - 1] == s[j]);
            }
        }
    }
}

/// A position at which `f` holds, with none before it, is the first.
pub proof fn lemma_first_where_is<T>(s: Seq<T>, f: spec_fn(T) -> bool, i: int)
    requires
        0 <= i <= s.len(),
        i < s.len() ==> f(s[i]),
        forall|j: int| 0 <= j < i ==> !f(#[trigger] s[j]),
    ensures
        first_where(s, f) == i,
{
    lemma_first_where(s, f);
    let k = first_where(s, f);
    if i < k {
        assert(!f(s[i]));
    }
}

/// The number of positions at which `f` holds.
pub open spec fn count_where<T>(s: Seq<T>, f: spec_fn(T) -> bool) -> nat
    decreases s.len(),
{
    if s.len() == 0 {
        0
    } else {
        count_where(s.drop_last(), f) + if f(s.last()) {
            1nat
        } else {
            0nat
        }
    }
}

/// A count is at most the length; it is zero where `f` holds nowhere.
pub proof fn lemma_count_where<T>(s: Seq<T>, f: spec_fn(T) -> bool)
    ensures
        count_where(s, f) <= s.len(),
        count_where(s, f) == 0 <==> forall|i: int| 0 <= i < s.len() ==> !f(#[trigger] s[i]),
        count_where(s, f) == s.len() <==> forall|i: int| 0 <= i < s.len() ==> f(#[trigger] s[i]),
    decreases s.len(),
{
    if s.len() > 0 {
        let t = s.drop_last();
        lemma_count_where(t, f);
        assert forall|i: int| 0 <= i < t.len() implies t[i] == s[i] by {}
        if forall|i: int| 0 <= i < s.len() ==> !f(#[trigger] s[i]) {
            assert forall|i: int| 0 <= i < t.len() implies !f(#[trigger] t[i]) by {}
        }
        if forall|i: int| 0 <= i < s.len() ==> f(#[trigger] s[i]) {
            assert forall|i: int| 0 <= i < t.len() implies f(#[trigger] t[i]) by {}
        }
        if forall|i: int| 0 <= i < t.len() ==> !f(#[trigger] t[i]) {
            assert forall|i: int| 0 <= i < s.len() && i < t.len() implies !f(#[trigger] s[i]) by {}
        }
        if forall|i: int| 0 <= i < t.len() ==> f(#[trigger] t[i]) {
            assert forall|i: int| 0 <= i < s.len() && i < t.len() implies f(#[trigger] s[i]) by {
                assert(f(t[i]));
            }
        }
    }
}

/// The number of set entries.
pub open spec fn count_true(s: Seq<bool>) -> nat {
    count_where(s, |b: bool| b)
}

/// Counts the set entries.
pub fn count_set(s: &Vec<bool>) -> (n: usize)
    ensures
        n == count_true(s@),
{
    let mut n: usize = 0;
    let mut i: usize = 0;
    assert(s@.take(0) =~= Seq::<bool>::empty());
    while i < s.len()
        invariant
            i <= s@.len(),
            n <= i,
            n == count_true(s@.take(i as int)),
        decreases s@.len() - i,
    {
        assert(s@.take(i + 1).drop_last() =~= s@.take(i as int));
        if s[i] {
            n += 1;
        }
        i += 1;
    }
    assert(s@.take(i as int) =~= s@);
    n
}

/// Whether every entry is set.
pub open spec fn all_true(s: Seq<bool>) -> bool {
    forall|i: int| 0 <= i < s.len() ==> #[trigger] s[i]
}

/// Tests whether every entry is set.
pub fn all_set(s: &Vec<bool>) -> (r: bool)
    ensures
        r == all_true(s@),
{
    let mut i: usize = 0;
    while i < s.len()
        invariant
            i <= s@.len(),
            forall|j: int| 0 <= j < i ==> #[trigger] s@[j],
        decreases s@.len() - i,
    {
        if !s[i] {
            assert(!s@[i as int]);
            return false;
        }
        i += 1;
    }
    true
}

/// Copies a vector of bytes.
pub fn copy_bytes(s: &[u8]) -> (r: Vec<u8>)
    ensures
        r@ == s@,
{
    let mut r: Vec<u8> = Vec::new();
    r.extend_from_slice(s);
    assert(r@ =~= s@);
    r
}

/// What a longer prefix holds.
pub proof fn lemma_take_contains<T>(s: Seq<T>, d: int, a: T)
    requires
        0 <= d < s.len(),
    ensures
        s.take(d + 1).contains(a) <==> s.take(d).contains(a) || a == s[d],
{
    let t = s.take(d + 1);
    let u = s.take(d);
    if t.contains(a) {
        let i = choose|i: int| 0 <= i < t.len() && t[i] == a;
    }
    if u.contains(a) {
        let i = choose|i: int| 0 <= i < u.len() && u[i] == a;
    }
    assert(t[d] == s[d]);
}

/// What a sequence with one more entry holds.
pub proof fn lemma_push_contains<T>(s: Seq<T>, x: T, a: T)
    ensures
        s.push(x).contains(a) <==> s.contains(a) || a == x,
{
    assert(s.push(x)[s.len() as int] == x);
    if s.contains(a) {
        let i = choose|i: int| 0 <= i < s.len() && s[i] == a;
        assert(s.push(x)[i] == a);
    }
    if s.push(x).contains(a) && a != x {
        let i = choose|i: int| 0 <= i < s.push(x).len() && s.push(x)[i] == a;
        assert(s[i] == a);
    }
}

/// What a sequence holds beside its last entry.
pub proof fn lemma_contains_last<T>(s: Seq<T>, a: T)
    requires
        s.len() > 0,
    ensures
        s.contains(a) <==> s.drop_last().contains(a) || a == s.last(),
{
    lemma_push_contains(s.drop_last(), s.last(), a);
    assert(s.drop_last().push(s.last()) =~= s);
}

/// Filtering keeps elements distinct.
pub proof fn lemma_filter_no_duplicates<T>(s: Seq<T>, f: spec_fn(T) -> bool)
    requires
        s.no_duplicates(),
    ensures
        s.filter(f).no_duplicates(),
    decreases s.len(),
{
    reveal(Seq::filter);
    if s.len() > 0 {
        let t = s.drop_last();
        lemma_filter_no_duplicates(t, f);
        if t.filter(f).contains(s.last()) {
            t.lemma_filter_contains_rev(f, s.last());
            let i = choose|i: int| 0 <= i < t.len() && t[i] == s.last();
            assert(s[i] == s[s.len() - 1]);
        }
    }
}

/// Whether an entry is set.
pub open spec fn is_set() -> spec_fn(bool) -> bool {
    |b: bool| b
}

/// A copy of a bitfield.
pub fn copy_bits(v: &Vec<bool>) -> (r: Vec<bool>)
    ensures
        r@ == v@,
{
    let mut r: Vec<bool> = Vec::new();
    let mut i: usize = 0;
    while i < v.len()
        invariant
            i <= v@.len(),
            r@ == v@.take(i as int),
        decreases v@.len() - i,
    {
        r.push(v[i]);
        i += 1;
        assert(r@ =~= v@.take(i as int));
    }
    assert(v@.take(i as int) =~= v@);
    r
}

/// A filter keeps exactly the elements that pass.
pub proof fn lemma_filtered<T>(s: Seq<T>, f: spec_fn(T) -> bool)
    ensures
        forall|x: T| #[trigger] s.filter(f).contains(x) <==> s.contains(x) && f(x),
{
    assert forall|x: T| #[trigger] s.filter(f).contains(x) <==> s.contains(x) && f(x) by {
        if s.filter(f).contains(x) {
            s.lemma_filter_contains_rev(f, x);
            let j = choose|j: int| 0 <= j < s.filter(f).len() && s.filter(f)[j] == x;
            s.lemma_filter_pred(f, j);
        }
        if s.contains(x) && f(x) {
            let j = choose|j: int| 0 <= j < s.len() && s[j] == x;
            s.lemma_filter_contains(f, j);
        }
    }
}

/// The count of set flags: none in an empty list, and one more for each set flag
/// that is added.
pub proof fn law_count_true(s: Seq<bool>, b: bool)
    ensures
        count_true(Seq::empty()) == 0,
        count_true(s.push(b)) == count_true(s) + if b {
            1nat
        } else {
            0nat
        },
        count_true(s) <= s.len(),
        count_true(s) == s.len() <==> all_true(s),
{
    let f = |x: bool| x;
    assert(s.push(b).drop_last() =~= s);
    lemma_count_where(s, f);
    if all_true(s) {
        assert forall|i: int| 0 <= i < s.len() implies f(#[trigger] s[i]) by {}
    }
    if count_true(s) == s.len() {
        assert forall|i: int| 0 <= i < s.len() implies #[trigger] s[i] by {
            assert(f(s[i]));
        }
    }
}

} // verus!
