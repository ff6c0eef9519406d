//! A fixed-capacity ring that evicts its oldest items to make room.
use std::collections::VecDeque;
use vstd::prelude::*;

verus! {

/// The last `n` items of `s` (all of `s` when it is no longer than `n`).
pub open spec fn keep_last<T>(s: Seq<T>, n: nat) -> Seq<T> {
    if s.len() <= n {
        s
    } else {
        s.subrange(s.len() - n, s.len() as int)
    }
}

/// The contents of a ring of capacity `n` that held `s` after pushing each
/// of `items` in order.
pub open spec fn pushed_all<T>(s: Seq<T>, items: Seq<T>, n: nat) -> Seq<T>
    decreases items.len(),
{
    if items.len() == 0 {
        s
    } else {
        pushed_all(keep_last(s.push(items[0]), n), items.subrange(1, items.len() as int), n)
    }
}

/// Keeping the last `n` items and then appending more, and keeping the last
/// `n` again, is the same as keeping the last `n` of everything.
pub proof fn lemma_keep_last_append<T>(a: Seq<T>, b: Seq<T>, n: nat)
    ensures
        keep_last(keep_last(a, n) + b, n) == keep_last(a + b, n),
{
    let ka = keep_last(a, n);
    if a.len() > n {
        let lhs = keep_last(ka + b, n);
        let rhs = keep_last(a + b, n);
        assert(lhs.len() == rhs.len());
        assert forall|i: int| 0 <= i < lhs.len() implies lhs[i] == rhs[i] by {
            let j = (ka + b).len() - n + i;
            let k = (a + b).len() - n + i;
            if j < ka.len() {
                assert(ka[j] == a[a.len() - n + j]);
            }
        }
        assert(lhs =~= rhs);
    } else {
        assert(ka == a);
    }
}

/// Keeping the last `n` items twice is keeping them once.
pub proof fn lemma_keep_last_idempotent<T>(a: Seq<T>, n: nat)
    ensures
        keep_last(keep_last(a, n), n) == keep_last(a, n),
{
}

/// Pushing a sequence of items one by one into a ring keeps the most recent
/// items of everything it has seen, in the order they came.
pub proof fn law_pushes_keep_most_recent<T>(s: Seq<T>, items: Seq<T>, n: nat)
    requires
        s.len() <= n,
    ensures
        pushed_all(s, items, n) == keep_last(s + items, n),
    decreases items.len(),
{
    if items.len() == 0 {
        assert(s + items =~= s);
    } else {
        let rest = items.subrange(1, items.len() as int);
        let s1 = keep_last(s.push(items[0]), n);
        law_pushes_keep_most_recent(s1, rest, n);
        lemma_keep_last_append(s.push(items[0]), rest, n);
        assert(s.push(items[0]) + rest =~= s + items);
    }
}

/// A ring that was fed more items than it holds keeps exactly the last
/// `capacity` of them, oldest first.
pub proof fn law_ring_overwrite<T>(s: Seq<T>, items: Seq<T>, n: nat)
    requires
        items.len() > n,
    ensures
        keep_last(s + items, n) == items.subrange(items.len() - n, items.len() as int),
{
    assert(keep_last(s + items, n) =~= items.subrange(items.len() - n, items.len() as int));
}

/// A ring of at most `capacity` items; pushing into a full ring evicts the
/// oldest item.
pub struct Ring<T> {
    items: VecDeque<T>,
    capacity: usize,
}

impl<T> View for Ring<T> {
    type V = Seq<T>;

    /// The items held, oldest first.
    closed spec fn view(&self) -> Seq<T> {
        self.items@
    }
}

impl<T> Ring<T> {
    pub closed spec fn spec_capacity(&self) -> nat {
        self.capacity as nat
    }

    pub closed spec fn wf(&self) -> bool {
        self.items@.len() <= self.capacity
    }

    pub fn new(capacity: usize) -> (r: Self)
        ensures
            r.wf(),
            r@ == Seq::<T>::empty(),
            r.spec_capacity() == capacity,
    {
        Ring { items: VecDeque::new(), capacity }
    }

    pub fn len(&self) -> (r: usize)
        requires
            self.wf(),
        ensures
            r == self@.len(),
            r <= self.spec_capacity(),
    {
        self.items.len()
    }

    pub fn get(&self, i: usize) -> (r: &T)
        requires
            i < self@.len(),
        ensures
            *r == self@[i as int],
    {
        &self.items[i]
    }

    /// Appends `item`, evicting the oldest item when the ring is full.
    pub fn push(&mut self, item: T)
        requires
            old(self).wf(),
        ensures
            final(self).wf(),
            final(self).spec_capacity() == old(self).spec_capacity(),
            final(self)@ == keep_last(old(self)@.push(item), old(self).spec_capacity()),
    {
        if self.capacity == 0 {
            assert(keep_last(old(self)@.push(item), 0) =~= Seq::<T>::empty());
            assert(self.items@ =~= Seq::<T>::empty());
            return;
        }
        if self.items.len() == self.capacity {
            let _ = self.items.pop_front();
        }
        self.items.push_back(item);
        assert(self.items@ =~= keep_last(old(self)@.push(item), old(self).spec_capacity()));
    }
}

impl<T: Copy> Ring<T> {
    /// Appends each of `items` in order.
    pub fn extend_from_slice(&mut self, items: &[T])
        requires
            old(self).wf(),
        ensures
            final(self).wf(),
            final(self).spec_capacity() == old(self).spec_capacity(),
            final(self)@ == keep_last(old(self)@ + items@, old(self).spec_capacity()),
    {
        let ghost start = self@;
        let ghost n = self.spec_capacity();
        proof {
            lemma_keep_last_idempotent(start, n);
            assert(start + items@.take(0) =~= start);
            assert(start == keep_last(start, n));
        }
        for i in 0..items.len()
            invariant
                self.wf(),
                self.spec_capacity() == n,
                self@ == keep_last(start + items@.take(i as int), n),
        {
            let ghost before = self@;
            self.push(items[i]);
            proof {
                lemma_keep_last_append(start + items@.take(i as int), seq![items@[i as int]], n);
                assert(before.push(items@[i as int]) =~= before + seq![items@[i as int]]);
                assert(start + items@.take(i as int) + seq![items@[i as int]]
                    =~= start + items@.take(i + 1));
            }
        }
        assert(items@.take(items@.len() as int) =~= items@);
    }

    /// A copy of the contents, oldest first.
    pub fn to_vec(&self) -> (r: Vec<T>)
        requires
            self.wf(),
        ensures
            r@ == self@,
            r@.len() <= self.spec_capacity(),
    {
        let mut out: Vec<T> = Vec::with_capacity(self.items.len());
        for i in 0..self.items.len()
            invariant
                out@ == self@.take(i as int),
        {
            out.push(self.items[i]);
            assert(out@ =~= self@.take(i + 1));
        }
        assert(self@.take(self@.len() as int) =~= self@);
        out
    }
}

} // verus!
