//! A fixed-capacity ring that keeps the most recent items, oldest first.
use std::collections::VecDeque;
use vstd::prelude::*;

verus! {

/// The last `n` items of `s`, or all of them when there are no more than `n`.
pub open spec fn keep_last<T>(s: Seq<T>, n: nat) -> Seq<T> {
    if s.len() <= n {
        s
    } else {
        s.subrange(s.len() - n, s.len() as int)
    }
}

/// The contents of a ring of capacity `cap` after `item` is pushed onto `s`.
pub open spec fn pushed<T>(s: Seq<T>, item: T, cap: nat) -> Seq<T> {
    keep_last(s.push(item), cap)
}

/// The contents of a ring of capacity `cap` holding `s` after each of
/// `items` is pushed, in order.
pub open spec fn pushed_all<T>(s: Seq<T>, items: Seq<T>, cap: nat) -> Seq<T>
    decreases items.len(),
{
    if items.len() == 0 {
        s
    } else {
        pushed(pushed_all(s, items.drop_last(), cap), items.last(), cap)
    }
}

/// A ring buffer of bounded capacity: when it is full, the oldest item is
/// dropped before the newest is appended.
pub struct CircularBuffer<T> {
    buffer: VecDeque<T>,
    capacity: usize,
}

impl<T> View for CircularBuffer<T> {
    type V = Seq<T>;

    closed spec fn view(&self) -> Seq<T> {
        self.buffer@
    }
}

impl<T> CircularBuffer<T> {
    /// The ring holds no more than its capacity.
    pub closed spec fn wf(&self) -> bool {
        self.buffer@.len() <= self.capacity
    }

    /// The number of items the ring keeps.
    pub closed spec fn cap(&self) -> nat {
        self.capacity as nat
    }

    /// An empty ring that keeps up to `capacity` items.
    pub fn new(capacity: usize) -> (r: CircularBuffer<T>)
        ensures
            r.wf(),
            r@ == Seq::<T>::empty(),
            r.cap() == capacity,
    {
        CircularBuffer { buffer: VecDeque::with_capacity(capacity), capacity }
    }

    pub fn capacity(&self) -> (r: usize)
        ensures
            r == self.cap(),
    {
        self.capacity
    }

    pub fn len(&self) -> (r: usize)
        requires
            self.wf(),
        ensures
            r == self@.len(),
            r <= self.cap(),
    {
        self.buffer.len()
    }

    /// Appends `item`, first dropping the oldest item if the ring is full.
    /// A ring of capacity zero keeps nothing.
    pub fn push(&mut self, item: T)
        requires
            old(self).wf(),
        ensures
            final(self).wf(),
            final(self)@ == pushed(old(self)@, item, old(self).cap()),
            final(self).cap() == old(self).cap(),
    {
        if self.capacity == 0 {
            return;
        }
        if self.buffer.len() == self.capacity {
            self.buffer.pop_front();
        }
        self.buffer.push_back(item);
        assert(self.buffer@ =~= pushed(old(self)@, item, old(self).cap()));
    }

    /// A copy of the contents, oldest first.
    pub fn get_logs(&self) -> (r: Vec<T>)
        where
            T: Clone,
        ensures
            r@.len() == self@.len(),
            forall|i: int| 0 <= i < r@.len() ==> cloned(#[trigger] self@[i], r@[i]),
    {
        let mut out: Vec<T> = Vec::new();
        let mut i: usize = 0;
        while i < self.buffer.len()
            invariant
                i <= self.buffer@.len(),
                out@.len() == i,
                forall|j: int| 0 <= j < i ==> cloned(#[trigger] self.buffer@[j], out@[j]),
            decreases self.buffer@.len() - i,
        {
            out.push(self.buffer[i].clone());
            i = i + 1;
        }
        out
    }
}

/// Pushing one item onto the last `n` of a sequence keeps the last `n` of
/// the longer sequence.
proof fn lemma_pushed_keep_last<T>(s: Seq<T>, item: T, cap: nat)
    ensures
        pushed(keep_last(s, cap), item, cap) == keep_last(s.push(item), cap),
{
    assert(pushed(keep_last(s, cap), item, cap) =~= keep_last(s.push(item), cap));
}

/// Whatever was pushed, an initially empty ring holds the last `cap` items
/// pushed (all of them if there were no more), in the order of pushing: the
/// oldest leave first and the ring never holds more than `cap`.
pub proof fn lemma_ring_keeps_most_recent<T>(items: Seq<T>, cap: nat)
    ensures
        pushed_all(Seq::empty(), items, cap) == keep_last(items, cap),
        pushed_all(Seq::empty(), items, cap).len() <= cap,
    decreases items.len(),
{
    if items.len() > 0 {
        lemma_ring_keeps_most_recent(items.drop_last(), cap);
        lemma_pushed_keep_last(items.drop_last(), items.last(), cap);
        assert(items.drop_last().push(items.last()) =~= items);
    }
}

/// After `cap + 1` pushes onto an empty ring of capacity `cap`, the ring
/// holds every item but the first, in the order they were pushed.
pub proof fn lemma_overflow_drops_oldest<T>(items: Seq<T>, cap: nat)
    requires
        items.len() == cap + 1,
    ensures
        pushed_all(Seq::empty(), items, cap) == items.drop_first(),
{
    lemma_ring_keeps_most_recent(items, cap);
    assert(keep_last(items, cap) =~= items.drop_first());
}

} // verus!
