//! A priority queue whose priorities come from a caller-supplied function.
//!
//! Each pushed item is scored once, on entry; the queue keeps item/priority
//! pairs ordered by priority and pops an item of greatest priority. Which of
//! several equally scored items leaves first is not promised.

use vstd::prelude::*;

verus! {

struct PriorityItem<T> {
    item: T,
    priority: i32,
}

pub struct PriorityQueue<T, F> {
    heap: Vec<PriorityItem<T>>,
    compare: F,
}

impl<T, F: Fn(&T) -> i32> PriorityQueue<T, F> {
    /// The queued item/priority pairs, in nondecreasing priority order.
    pub closed spec fn pairs(&self) -> Seq<(T, i32)> {
        Seq::new(self.heap@.len(), |i: int| (self.heap@[i].item, self.heap@[i].priority))
    }

    pub closed spec fn compare_spec(&self) -> F {
        self.compare
    }

    /// Pairs sit in nondecreasing priority order, so the last pair has the
    /// greatest priority.
    pub closed spec fn well_formed(&self) -> bool {
        forall|i: int, j: int|
            0 <= i <= j < self.heap@.len() ==> self.heap@[i].priority <= self.heap@[j].priority
    }

    pub fn new(compare: F) -> (q: Self)
        ensures
            q.well_formed(),
            q.pairs() == Seq::<(T, i32)>::empty(),
            q.compare_spec() == compare,
    {
        let q = PriorityQueue { heap: Vec::new(), compare };
        proof {
            assert(q.pairs() =~= Seq::<(T, i32)>::empty());
        }
        q
    }

    /// Scores `item` with the queue's priority function and files the pair
    /// by priority.
    pub fn push(&mut self, item: T)
        requires
            old(self).well_formed(),
            call_requires(old(self).compare_spec(), (&item,)),
        ensures
            final(self).well_formed(),
            final(self).compare_spec() == old(self).compare_spec(),
            exists|p: i32|
                {
                    &&& #[trigger] call_ensures(old(self).compare_spec(), (&item,), p)
                    &&& final(self).pairs().to_multiset() == old(self).pairs().to_multiset().insert(
                        (item, p),
                    )
                },
    {
        broadcast use vstd::seq_lib::group_to_multiset_ensures;

        let priority = (self.compare)(&item);
        let mut idx: usize = 0;
        while idx < self.heap.len() && self.heap[idx].priority <= priority
            invariant
                idx <= self.heap@.len(),
                forall|k: int| 0 <= k < idx ==> self.heap@[k].priority <= priority,
            decreases self.heap@.len() - idx,
        {
            idx = idx + 1;
        }
        let ghost pre = *self;
        self.heap.insert(idx, PriorityItem { item, priority });
        proof {
            let n = pre.heap@.len() as int;
            let ii = idx as int;
            assert forall|a: int, b: int|
                0 <= a <= b < self.heap@.len() implies self.heap@[a].priority
                    <= self.heap@[b].priority by {
                if a < ii && b < ii {
                    assert(self.heap@[a] == pre.heap@[a] && self.heap@[b] == pre.heap@[b]);
                } else if a < ii && b == ii {
                    assert(self.heap@[a] == pre.heap@[a]);
                } else if a < ii && b > ii {
                    assert(self.heap@[a] == pre.heap@[a] && self.heap@[b] == pre.heap@[b - 1]);
                } else if a == ii && b > ii {
                    assert(self.heap@[b] == pre.heap@[b - 1]);
                    assert(pre.heap@[b - 1].priority > priority || (ii < n && pre.heap@[b
                        - 1].priority >= pre.heap@[ii].priority));
                } else if a > ii && b > ii {
                    assert(self.heap@[a] == pre.heap@[a - 1] && self.heap@[b] == pre.heap@[b - 1]);
                } else {
                }
            }
            assert(self.pairs() =~= pre.pairs().insert(ii, (item, priority)));
            vstd::seq_lib::to_multiset_insert(pre.pairs(), ii, (item, priority));
        }
    }

    /// Pops an item whose priority is greatest among those queued.
    pub fn pop(&mut self) -> (r: Option<T>)
        requires
            old(self).well_formed(),
        ensures
            final(self).well_formed(),
            final(self).compare_spec() == old(self).compare_spec(),
            old(self).pairs().len() == 0 ==> r is None && final(self).pairs() == old(self).pairs(),
            old(self).pairs().len() > 0 ==> {
                &&& r == Some(old(self).pairs().last().0)
                &&& final(self).pairs() == old(self).pairs().drop_last()
                &&& forall|k: int|
                    0 <= k < old(self).pairs().len() ==> (#[trigger] old(self).pairs()[k]).1 <= old(
                        self,
                    ).pairs().last().1
            },
    {
        proof {
            assert(self.pairs().len() == self.heap@.len());
        }
        match self.heap.pop() {
            None => {
                proof {
                    assert(final(self).pairs() =~= old(self).pairs());
                }
                None
            },
            Some(top) => {
                proof {
                    assert(old(self).pairs().last() == (top.item, top.priority));
                    assert(self.pairs() =~= old(self).pairs().drop_last());
                }
                Some(top.item)
            },
        }
    }

    /// A look at an item of greatest priority, if any.
    pub fn peek(&self) -> (r: Option<&T>)
        requires
            self.well_formed(),
        ensures
            self.pairs().len() == 0 ==> r is None,
            self.pairs().len() > 0 ==> {
                &&& r == Some(&self.pairs().last().0)
                &&& forall|k: int|
                    0 <= k < self.pairs().len() ==> (#[trigger] self.pairs()[k]).1
                        <= self.pairs().last().1
            },
    {
        if self.heap.len() == 0 {
            None
        } else {
            let r = &self.heap[self.heap.len() - 1].item;
            proof {
                assert(self.pairs().last() == (
                    self.heap@[self.heap@.len() - 1].item,
                    self.heap@[self.heap@.len() - 1].priority,
                ));
            }
            Some(r)
        }
    }

    pub fn len(&self) -> (r: usize)
        ensures
            r == self.pairs().len(),
    {
        self.heap.len()
    }

    pub fn is_empty(&self) -> (r: bool)
        ensures
            r == (self.pairs().len() == 0),
    {
        self.heap.len() == 0
    }
}

} // verus!
