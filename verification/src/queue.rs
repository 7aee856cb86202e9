//! A first-in/first-out queue with an element counter.
//!
//! Values enter at the tail and leave at the head, so the dequeue order is
//! exactly the enqueue order, and no value is ever lost or duplicated. The
//! operations here take exclusive access (`&mut self`); callers that share a
//! queue between threads wrap it in an exclusive lock outside this crate.
//! That serialisation trades the lock-free progress guarantee of a
//! compare-and-swap protocol for semantics that are fully checked here: each
//! completed operation behaves as one atomic step in some total order, which
//! is the order these contracts speak of.

use std::collections::VecDeque;
use vstd::prelude::*;
use vstd::multiset::Multiset;
use vstd::seq_lib::lemma_multiset_commutative;

verus! {

pub struct LockFreeQueue<T> {
    items: VecDeque<T>,
    size: usize,
}

impl<T> View for LockFreeQueue<T> {
    type V = Seq<T>;

    closed spec fn view(&self) -> Seq<T> {
        self.items@
    }
}

impl<T> LockFreeQueue<T> {
    /// The counter always matches the number of queued values.
    pub closed spec fn well_formed(&self) -> bool {
        self.size == self.items@.len()
    }

    pub fn new() -> (q: Self)
        ensures
            q.well_formed(),
            q@ == Seq::<T>::empty(),
    {
        LockFreeQueue { items: VecDeque::new(), size: 0 }
    }

    pub fn enqueue(&mut self, data: T)
        requires
            old(self).well_formed(),
            old(self)@.len() < usize::MAX,
        ensures
            final(self).well_formed(),
            final(self)@ == old(self)@.push(data),
    {
        self.items.push_back(data);
        self.size = self.size + 1;
    }

    pub fn dequeue(&mut self) -> (r: Option<T>)
        requires
            old(self).well_formed(),
        ensures
            final(self).well_formed(),
            old(self)@.len() == 0 ==> r is None && final(self)@ == old(self)@,
            old(self)@.len() > 0 ==> r == Some(old(self)@.first()) && final(self)@ == old(
                self,
            )@.drop_first(),
    {
        match self.items.pop_front() {
            None => None,
            Some(data) => {
                self.size = self.size - 1;
                Some(data)
            },
        }
    }

    pub fn size(&self) -> (r: usize)
        requires
            self.well_formed(),
        ensures
            r == self@.len(),
    {
        self.size
    }

    pub fn is_empty(&self) -> (r: bool)
        requires
            self.well_formed(),
        ensures
            r == (self@.len() == 0),
    {
        self.size() == 0
    }
}

/// The values handed back by dequeuing `k` times from a queue whose contents
/// are `s`: each dequeue removes and returns the first element.
pub open spec fn drain_fifo<T>(s: Seq<T>, k: nat) -> Seq<T>
    decreases k,
{
    if k == 0 || s.len() == 0 {
        Seq::empty()
    } else {
        seq![s.first()] + drain_fifo(s.drop_first(), (k - 1) as nat)
    }
}

/// With one producer and one consumer, dequeue order equals enqueue order
/// exactly: `enqueue` appends each value in turn, so the contents equal the
/// enqueued sequence, and draining them all returns that same sequence.
pub proof fn lemma_fifo_order<T>(vs: Seq<T>)
    ensures
        drain_fifo(vs, vs.len()) == vs,
    decreases vs.len(),
{
    if vs.len() == 0 {
        assert(drain_fifo(vs, vs.len()) =~= vs);
    } else {
        lemma_fifo_order(vs.drop_first());
        assert(drain_fifo(vs, vs.len()) =~= vs);
    }
}

/// `s` is one of the orders in which the elements of `a` and `b` can arrive
/// when two producers enqueue them concurrently: each producer's own values
/// keep their order, and every element lands somewhere.
pub open spec fn is_interleaving<T>(s: Seq<T>, a: Seq<T>, b: Seq<T>) -> bool
    decreases s.len(),
{
    if s.len() == 0 {
        a.len() == 0 && b.len() == 0
    } else {
        ||| (a.len() > 0 && s.first() == a.first() && is_interleaving(
            s.drop_first(),
            a.drop_first(),
            b,
        ))
        ||| (b.len() > 0 && s.first() == b.first() && is_interleaving(
            s.drop_first(),
            a,
            b.drop_first(),
        ))
    }
}

/// Two producers enqueueing `a` and `b` in any interleaving, followed by a
/// full drain, hand back exactly the union of what was enqueued: no value is
/// lost and none is duplicated. `lemma_n_producers_multiset` extends this to
/// any number of producers.
pub proof fn lemma_interleaving_multiset<T>(s: Seq<T>, a: Seq<T>, b: Seq<T>)
    requires
        is_interleaving(s, a, b),
    ensures
        drain_fifo(s, s.len()).to_multiset() == a.to_multiset().add(b.to_multiset()),
    decreases s.len(),
{
    lemma_fifo_order(s);
    lemma_interleaving_to_multiset(s, a, b);
}


/// `s` is an order in which any number of producers' values can arrive:
/// each producer's own sequence keeps its order.
pub open spec fn is_interleaving_n<T>(s: Seq<T>, parts: Seq<Seq<T>>) -> bool
    decreases parts.len(),
{
    if parts.len() == 0 {
        s.len() == 0
    } else {
        exists|t: Seq<T>|
            is_interleaving_n(t, parts.drop_last()) && #[trigger] is_interleaving(
                s,
                t,
                parts.last(),
            )
    }
}

/// The union of all producers' values, multiplicities included.
pub open spec fn multiset_union<T>(parts: Seq<Seq<T>>) -> Multiset<T>
    decreases parts.len(),
{
    if parts.len() == 0 {
        Multiset::empty()
    } else {
        multiset_union(parts.drop_last()).add(parts.last().to_multiset())
    }
}

/// Any number of producers enqueueing their values in any interleaving,
/// followed by a full sequential drain, hand back exactly the union of what
/// was enqueued: no value is lost and none is duplicated.
pub proof fn lemma_n_producers_multiset<T>(s: Seq<T>, parts: Seq<Seq<T>>)
    requires
        is_interleaving_n(s, parts),
    ensures
        drain_fifo(s, s.len()).to_multiset() == multiset_union(parts),
    decreases parts.len(),
{
    lemma_fifo_order(s);
    lemma_n_producers_contents(s, parts);
}

proof fn lemma_n_producers_contents<T>(s: Seq<T>, parts: Seq<Seq<T>>)
    requires
        is_interleaving_n(s, parts),
    ensures
        s.to_multiset() == multiset_union(parts),
    decreases parts.len(),
{
    if parts.len() == 0 {
        assert(s =~= Seq::<T>::empty());
        assert(s.to_multiset() =~= multiset_union(parts)) by {
            broadcast use vstd::seq_lib::group_to_multiset_ensures;

            assert(s.to_multiset().len() == 0);
        }
    } else {
        let t = choose|t: Seq<T>|
            is_interleaving_n(t, parts.drop_last()) && #[trigger] is_interleaving(
                s,
                t,
                parts.last(),
            );
        lemma_n_producers_contents(t, parts.drop_last());
        lemma_interleaving_to_multiset(s, t, parts.last());
    }
}

proof fn lemma_interleaving_to_multiset<T>(s: Seq<T>, a: Seq<T>, b: Seq<T>)
    requires
        is_interleaving(s, a, b),
    ensures
        s.to_multiset() == a.to_multiset().add(b.to_multiset()),
    decreases s.len(),
{
    broadcast use vstd::seq_lib::group_to_multiset_ensures;

    if s.len() == 0 {
        assert(s.to_multiset() =~= a.to_multiset().add(b.to_multiset()));
    } else {
        if a.len() > 0 && s.first() == a.first() && is_interleaving(
            s.drop_first(),
            a.drop_first(),
            b,
        ) {
            lemma_interleaving_to_multiset(s.drop_first(), a.drop_first(), b);
            lemma_multiset_commutative(seq![s.first()], s.drop_first());
            lemma_multiset_commutative(seq![a.first()], a.drop_first());
            assert(seq![s.first()] + s.drop_first() =~= s);
            assert(seq![a.first()] + a.drop_first() =~= a);
            assert(s.to_multiset() =~= a.to_multiset().add(b.to_multiset()));
        } else {
            lemma_interleaving_to_multiset(s.drop_first(), a, b.drop_first());
            lemma_multiset_commutative(seq![s.first()], s.drop_first());
            lemma_multiset_commutative(seq![b.first()], b.drop_first());
            assert(seq![s.first()] + s.drop_first() =~= s);
            assert(seq![b.first()] + b.drop_first() =~= b);
            assert(s.to_multiset() =~= a.to_multiset().add(b.to_multiset()));
        }
    }
}

} // verus!
