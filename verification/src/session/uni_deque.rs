//! A FIFO queue without duplicates.

use crate::collections::{find_key, Key};
use vstd::prelude::*;

verus! {

/// A FIFO queue in which nothing occurs twice.
///
/// Its view is the queue from front to back. Every operation keeps it free of
/// duplicates, so membership and visible contents never disagree.
pub struct UniDeque<T> {
    queue: Vec<T>,
}

impl<T: Key> View for UniDeque<T> {
    type V = Seq<T>;

    closed spec fn view(&self) -> Seq<T> {
        self.queue@
    }
}

impl<T: Key> UniDeque<T> {
    /// Nothing occurs twice.
    pub open spec fn wf(&self) -> bool {
        self@.no_duplicates()
    }

    /// Create an empty queue.
    pub fn new() -> (d: UniDeque<T>)
        ensures
            d.wf(),
            d@ == Seq::<T>::empty(),
    {
        UniDeque { queue: Vec::new() }
    }

    /// Push a value to the back of the queue if it is not already present.
    ///
    /// Returns whether the value was newly inserted.
    pub fn push_unique(&mut self, value: T) -> (new: bool)
        requires
            old(self).wf(),
        ensures
            final(self).wf(),
            new == !old(self)@.contains(value),
            final(self)@ == if new {
                old(self)@.push(value)
            } else {
                old(self)@
            },
    {
        match find_key(&self.queue, &value) {
            Some(_) => false,
            None => {
                self.queue.push(value);
                true
            },
        }
    }

    /// Drain up to `n` items from the front, in order.
    ///
    /// If `n` exceeds the current length, all items are drained.
    pub fn drain_first_n(&mut self, n: usize) -> (drained: Vec<T>)
        requires
            old(self).wf(),
        ensures
            final(self).wf(),
            drained@ == old(self)@.take(vstd::math::min(n as int, old(self)@.len() as int)),
            final(self)@ == old(self)@.skip(vstd::math::min(n as int, old(self)@.len() as int)),
    {
        let n: usize = if n < self.queue.len() {
            n
        } else {
            self.queue.len()
        };
        let mut rest = self.queue.split_off(n);
        std::mem::swap(&mut self.queue, &mut rest);
        proof {
            assert(rest@ =~= old(self)@.take(n as int));
            assert(self.queue@ =~= old(self)@.skip(n as int));
        }
        rest
    }

    /// Check whether `value` is present in the queue.
    pub fn contains(&self, value: &T) -> (r: bool)
        ensures
            r == self@.contains(*value),
    {
        find_key(&self.queue, value).is_some()
    }

    /// Return the number of items in the queue.
    pub fn len(&self) -> (n: usize)
        ensures
            n == self@.len(),
    {
        self.queue.len()
    }
}

/// What is pushed into an empty queue comes out in the order of first
/// occurrence: draining everything and pushing it back gives the same queue.
pub proof fn law_drain_re_enqueue<T>(q: Seq<T>, n: int)
    requires
        q.no_duplicates(),
        0 <= n <= q.len(),
    ensures
        q.take(n) + q.skip(n) == q,
        q.take(n).no_duplicates(),
        q.skip(n).no_duplicates(),
        forall|x: T| q.take(n).contains(x) ==> !q.skip(n).contains(x),
        (q.skip(n) + q.take(n)).no_duplicates(),
        (q.skip(n) + q.take(n)).to_set() == q.to_set(),
{
    assert(q.take(n) + q.skip(n) =~= q);
    assert forall|x: T| q.take(n).contains(x) implies !q.skip(n).contains(x) by {
        if q.skip(n).contains(x) {
            let i = choose|i: int| 0 <= i < n && q.take(n)[i] == x;
            let j = choose|j: int| 0 <= j < q.skip(n).len() && q.skip(n)[j] == x;
        }
    }
    let r = q.skip(n) + q.take(n);
    assert forall|a: int, b: int| 0 <= a < b < r.len() implies r[a] != r[b] by {
        let x = if a < q.len() - n { a + n } else { a - (q.len() - n) };
    }
    assert forall|x: T| r.contains(x) <==> q.contains(x) by {
        if r.contains(x) {
            let a = choose|a: int| 0 <= a < r.len() && r[a] == x;
            let i = if a < q.len() - n { a + n } else { a - (q.len() - n) };
        }
        if q.contains(x) {
            let i = choose|i: int| 0 <= i < q.len() && q[i] == x;
            let a = if i >= n { i - n } else { i + (q.len() - n) };
            assert(r[a] == x);
        }
    }
    assert(r.to_set() =~= q.to_set());
}

} // verus!
