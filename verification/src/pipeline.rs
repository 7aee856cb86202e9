//! A shared work queue and a two-stage parallel pipeline around it.
//!
//! The queue hands values out in arrival order. The pipeline feeds an input
//! queue, expects workers to move transformed values to an output queue, and
//! exposes a running flag that tells the workers when to stop. The worker
//! loop itself — threads that poll the input queue and apply the stage
//! function — lives outside this crate; these operations give it exact
//! queue semantics to rely on. A queue shared between threads sits behind an
//! exclusive lock outside the crate, so each operation here acts as one
//! atomic step.

use std::collections::VecDeque;
use vstd::prelude::*;

verus! {

pub struct LockFreeQueue<T> {
    queue: VecDeque<T>,
}

impl<T> View for LockFreeQueue<T> {
    type V = Seq<T>;

    closed spec fn view(&self) -> Seq<T> {
        self.queue@
    }
}

impl<T> LockFreeQueue<T> {
    pub fn new() -> (q: Self)
        ensures
            q@ == Seq::<T>::empty(),
    {
        LockFreeQueue { queue: VecDeque::new() }
    }

    pub fn push(&mut self, item: T)
        ensures
            final(self)@ == old(self)@.push(item),
    {
        self.queue.push_back(item);
    }

    pub fn pop(&mut self) -> (r: Option<T>)
        ensures
            old(self)@.len() == 0 ==> r is None && final(self)@ == old(self)@,
            old(self)@.len() > 0 ==> r == Some(old(self)@.first()) && final(self)@ == old(self)@.drop_first(),
    {
        self.queue.pop_front()
    }

    pub fn len(&self) -> (r: usize)
        ensures
            r == self@.len(),
    {
        self.queue.len()
    }

    pub fn is_empty(&self) -> (r: bool)
        ensures
            r == (self@.len() == 0),
    {
        self.queue.len() == 0
    }
}

pub struct ParallelPipeline<T, R> {
    input_queue: LockFreeQueue<T>,
    output_queue: LockFreeQueue<R>,
    worker_count: usize,
    running: bool,
}

impl<T, R> ParallelPipeline<T, R> {
    pub closed spec fn inputs(&self) -> Seq<T> {
        self.input_queue@
    }

    pub closed spec fn outputs(&self) -> Seq<R> {
        self.output_queue@
    }

    pub closed spec fn spec_workers(&self) -> usize {
        self.worker_count
    }

    pub closed spec fn spec_running(&self) -> bool {
        self.running
    }

    pub fn new(worker_count: usize) -> (p: Self)
        ensures
            p.inputs() == Seq::<T>::empty(),
            p.outputs() == Seq::<R>::empty(),
            p.spec_workers() == worker_count,
            !p.spec_running(),
    {
        ParallelPipeline {
            input_queue: LockFreeQueue::new(),
            output_queue: LockFreeQueue::new(),
            worker_count,
            running: false,
        }
    }

    pub fn push_input(&mut self, item: T)
        ensures
            final(self).inputs() == old(self).inputs().push(item),
            final(self).outputs() == old(self).outputs(),
            final(self).spec_workers() == old(self).spec_workers(),
            final(self).spec_running() == old(self).spec_running(),
    {
        self.input_queue.push(item);
    }

    pub fn pop_output(&mut self) -> (r: Option<R>)
        ensures
            final(self).inputs() == old(self).inputs(),
            final(self).spec_workers() == old(self).spec_workers(),
            final(self).spec_running() == old(self).spec_running(),
            old(self).outputs().len() == 0 ==> r is None && final(self).outputs() == old(self).outputs(),
            old(self).outputs().len() > 0 ==> r == Some(old(self).outputs().first()) && final(self).outputs() == old(self).outputs().drop_first(),
    {
        self.output_queue.pop()
    }

    /// Tells the workers to stop polling.
    pub fn stop(&mut self)
        ensures
            !final(self).spec_running(),
            final(self).inputs() == old(self).inputs(),
            final(self).outputs() == old(self).outputs(),
            final(self).spec_workers() == old(self).spec_workers(),
    {
        self.running = false;
    }

    /// Marks the pipeline as running; the worker loop outside the crate
    /// polls while this holds.
    pub fn mark_running(&mut self)
        ensures
            final(self).spec_running(),
            final(self).inputs() == old(self).inputs(),
            final(self).outputs() == old(self).outputs(),
            final(self).spec_workers() == old(self).spec_workers(),
    {
        self.running = true;
    }

    /// Takes the next piece of input work, if any: what a worker does at the
    /// top of each round.
    pub fn take_input(&mut self) -> (r: Option<T>)
        ensures
            final(self).outputs() == old(self).outputs(),
            final(self).spec_workers() == old(self).spec_workers(),
            final(self).spec_running() == old(self).spec_running(),
            old(self).inputs().len() == 0 ==> r is None && final(self).inputs() == old(self).inputs(),
            old(self).inputs().len() > 0 ==> r == Some(old(self).inputs().first()) && final(self).inputs() == old(self).inputs().drop_first(),
    {
        self.input_queue.pop()
    }

    /// Delivers one transformed value: what a worker does at the bottom of
    /// each round.
    pub fn push_output(&mut self, item: R)
        ensures
            final(self).outputs() == old(self).outputs().push(item),
            final(self).inputs() == old(self).inputs(),
            final(self).spec_workers() == old(self).spec_workers(),
            final(self).spec_running() == old(self).spec_running(),
    {
        self.output_queue.push(item);
    }

    pub fn input_size(&self) -> (r: usize)
        ensures
            r == self.inputs().len(),
    {
        self.input_queue.len()
    }

    pub fn output_size(&self) -> (r: usize)
        ensures
            r == self.outputs().len(),
    {
        self.output_queue.len()
    }

    pub fn is_running(&self) -> (r: bool)
        ensures
            r == self.spec_running(),
    {
        self.running
    }
}

/// The messages an actor loop answers: work to process, a statistics query,
/// and the stop request.
pub enum ActorMessage {
    Process(String),
    GetStats,
    Shutdown,
}

} // verus!
