//! A bounded ring queue for one producer and one consumer.
//!
//! The ring keeps one slot free to tell a full ring from an empty one, so a
//! ring of `N` slots holds at most `N - 1` values. `Spsc` is the ring as one
//! owner sees it. The index rules are free functions, so that a ring whose
//! two indices live in shared atomics takes the same decisions.

use vstd::prelude::*;

verus! {

/// The slot after `index` in a ring of `n` slots.
pub open spec fn spec_next_index(index: usize, n: usize) -> usize {
    if index == n - 1 {
        0
    } else {
        (index + 1) as usize
    }
}

#[verifier::when_used_as_spec(spec_next_index)]
pub fn next_index(index: usize, n: usize) -> (next: usize)
    requires
        n >= 1,
        index < n,
    ensures
        next == spec_next_index(index, n),
        next < n,
{
    if index == n - 1 {
        0
    } else {
        index + 1
    }
}

/// What a producer does with `tail` and the `head` it sees: nothing when the
/// ring is full, which is when the slot after `tail` is `head`; else it
/// writes slot `tail` and publishes the slot after it as the new tail, which
/// is returned.
pub fn produce_slot(tail: usize, head: usize, n: usize) -> (next_tail: Option<usize>)
    requires
        n >= 1,
        tail < n,
    ensures
        next_tail == if spec_next_index(tail, n) == head {
            None
        } else {
            Some(spec_next_index(tail, n))
        },
{
    let next_tail = next_index(tail, n);
    if next_tail == head {
        None
    } else {
        Some(next_tail)
    }
}

/// What a consumer does with `head` and the `tail` it sees: nothing when the
/// ring is empty, which is when `head` is `tail`; else it reads slot `head`
/// and publishes the slot after it as the new head, which is returned.
pub fn consume_slot(head: usize, tail: usize, n: usize) -> (next_head: Option<usize>)
    requires
        n >= 1,
        head < n,
    ensures
        next_head == if head == tail {
            None
        } else {
            Some(spec_next_index(head, n))
        },
{
    let next_head = next_index(head, n);
    if head == tail {
        None
    } else {
        Some(next_head)
    }
}

/// Number of values between `head` and `tail` in a ring of `n` slots.
pub open spec fn ring_len(head: int, tail: int, n: int) -> int {
    if tail >= head {
        tail - head
    } else {
        tail + n - head
    }
}

/// The slot that lies `i` slots after `head`.
pub open spec fn ring_slot(head: int, i: int, n: int) -> int {
    if head + i < n {
        head + i
    } else {
        head + i - n
    }
}

/// The queue after `value` is offered to a ring of `n` slots: it is taken
/// unless the ring already holds `n - 1` values.
pub open spec fn offered<T>(queue: Seq<T>, value: T, n: int) -> Seq<T> {
    if queue.len() < n - 1 {
        queue.push(value)
    } else {
        queue
    }
}

/// The queue after its oldest value is asked for.
pub open spec fn polled<T>(queue: Seq<T>) -> Seq<T> {
    if queue.len() > 0 {
        queue.drop_first()
    } else {
        queue
    }
}

/// A ring of `N` slots, of which `N - 1` can be in use.
pub struct Spsc<T, const N: usize> {
    head: usize,
    tail: usize,
    buffer: Vec<Option<T>>,
}

impl<T, const N: usize> View for Spsc<T, N> {
    type V = Seq<T>;

    /// The values in the ring, oldest first.
    closed spec fn view(&self) -> Seq<T> {
        Seq::new(
            ring_len(self.head as int, self.tail as int, N as int) as nat,
            |i: int| self.buffer@[ring_slot(self.head as int, i, N as int)]->0,
        )
    }
}

impl<T, const N: usize> Spsc<T, N> {
    /// The slot that the consumer reads next.
    pub closed spec fn head_index(&self) -> usize {
        self.head
    }

    /// The slot that the producer writes next.
    pub closed spec fn tail_index(&self) -> usize {
        self.tail
    }

    /// The indices lie in the ring and every slot from head up to tail holds
    /// a value.
    pub closed spec fn wf(&self) -> bool {
        &&& self.buffer@.len() == N
        &&& N == 0 ==> self.head == 0 && self.tail == 0
        &&& N > 0 ==> self.head < N && self.tail < N
        &&& forall|i: int|
            0 <= i < ring_len(self.head as int, self.tail as int, N as int)
                ==> (#[trigger] self.buffer@[ring_slot(self.head as int, i, N as int)]) is Some
    }

    /// An empty ring.
    pub fn new() -> (ring: Spsc<T, N>)
        ensures
            ring.wf(),
            ring@ == Seq::<T>::empty(),
            ring.head_index() == 0,
            ring.tail_index() == 0,
    {
        let mut buffer: Vec<Option<T>> = Vec::new();
        let mut i: usize = 0;
        while i < N
            invariant
                i <= N,
                buffer@.len() == i,
            decreases N - i,
        {
            buffer.push(None);
            i += 1;
        }
        let ring = Self { head: 0, tail: 0, buffer };
        assert(ring@ =~= Seq::<T>::empty());
        ring
    }

    /// Offers `val` to the ring. Returns false, and leaves the ring as it is,
    /// when the ring is full.
    pub fn produce(&mut self, val: T) -> (accepted: bool)
        requires
            old(self).wf(),
            N >= 1,
        ensures
            final(self).wf(),
            accepted == (old(self)@.len() < N - 1),
            accepted == (spec_next_index(old(self).tail_index(), N) != old(self).head_index()),
            final(self)@ == offered(old(self)@, val, N as int),
            final(self)@.len() <= N - 1,
            final(self).head_index() == old(self).head_index(),
            final(self).tail_index() == if accepted {
                spec_next_index(old(self).tail_index(), N)
            } else {
                old(self).tail_index()
            },
    {
        let tail = self.tail;
        match produce_slot(tail, self.head, N) {
            None => false,
            Some(next_tail) => {
                self.buffer[tail] = Some(val);
                self.tail = next_tail;
                proof {
                    let h = self.head as int;
                    let n = N as int;
                    let len = ring_len(h, tail as int, n);
                    assert(ring_slot(h, len, n) == tail);
                    assert forall|i: int| 0 <= i < len + 1 implies (#[trigger] self.buffer@[ring_slot(
                        h,
                        i,
                        n,
                    )]) is Some by {
                        if i < len {
                            assert(old(self).buffer@[ring_slot(h, i, n)] is Some);
                        }
                    }
                    assert(self@ =~= old(self)@.push(val));
                }
                true
            },
        }
    }

    /// Takes the oldest value out of the ring, if there is one.
    pub fn consume(&mut self) -> (value: Option<T>)
        requires
            old(self).wf(),
            N >= 1,
        ensures
            final(self).wf(),
            value == if old(self)@.len() > 0 {
                Some(old(self)@[0])
            } else {
                None
            },
            value is Some <==> old(self).head_index() != old(self).tail_index(),
            final(self)@ == polled(old(self)@),
            final(self)@.len() <= N - 1,
            final(self).tail_index() == old(self).tail_index(),
            final(self).head_index() == if value is Some {
                spec_next_index(old(self).head_index(), N)
            } else {
                old(self).head_index()
            },
    {
        let head = self.head;
        match consume_slot(head, self.tail, N) {
            None => {
                assert(self@.len() == 0);
                None
            },
            Some(next_head) => {
                assert(self.buffer@[ring_slot(head as int, 0, N as int)] is Some);
                let value = self.buffer[head].take();
                self.head = next_head;
                proof {
                    let h = head as int;
                    let n = N as int;
                    let len = ring_len(h, self.tail as int, n);
                    assert forall|i: int| 0 <= i < len - 1 implies (#[trigger] self.buffer@[ring_slot(
                        next_head as int,
                        i,
                        n,
                    )]) is Some by {
                        assert(ring_slot(next_head as int, i, n) == ring_slot(h, i + 1, n));
                        assert(old(self).buffer@[ring_slot(h, i + 1, n)] is Some);
                    }
                    assert forall|i: int| 0 <= i < len - 1 implies self@[i] == old(self)@[i + 1] by {
                        assert(ring_slot(next_head as int, i, n) == ring_slot(h, i + 1, n));
                    }
                    assert(self@ =~= old(self)@.drop_first());
                }
                value
            },
        }
    }
}

/// A ring of `N` slots never holds more than `N - 1` values: it holds the
/// slots from its head up to its tail, and both lie in the ring.
pub proof fn lemma_bounded<T, const N: usize>(ring: &Spsc<T, N>)
    requires
        ring.wf(),
        N >= 1,
    ensures
        ring@.len() <= N - 1,
        ring.head_index() < N,
        ring.tail_index() < N,
        ring@.len() == ring_len(ring.head_index() as int, ring.tail_index() as int, N as int),
{
}

/// One call on a ring.
pub enum Op<T> {
    Produce(T),
    Consume,
}

/// What a run of calls leaves: the queue, the values that were accepted, in
/// the order they were offered, and the values that were handed out, in the
/// order they left.
pub struct Trace<T> {
    pub queue: Seq<T>,
    pub accepted: Seq<T>,
    pub consumed: Seq<T>,
}

/// The trace of the calls `ops`, made in order on an empty ring of `n`
/// slots.
pub open spec fn run<T>(ops: Seq<Op<T>>, n: int) -> Trace<T>
    decreases ops.len(),
{
    if ops.len() == 0 {
        Trace { queue: Seq::empty(), accepted: Seq::empty(), consumed: Seq::empty() }
    } else {
        let t = run(ops.drop_last(), n);
        match ops.last() {
            Op::Produce(v) => Trace {
                queue: offered(t.queue, v, n),
                accepted: if t.queue.len() < n - 1 {
                    t.accepted.push(v)
                } else {
                    t.accepted
                },
                consumed: t.consumed,
            },
            Op::Consume => Trace {
                queue: polled(t.queue),
                accepted: t.accepted,
                consumed: if t.queue.len() > 0 {
                    t.consumed.push(t.queue[0])
                } else {
                    t.consumed
                },
            },
        }
    }
}

/// No loss and first in, first out: after any run of calls on a ring that
/// started empty, the values handed out followed by those still queued are
/// the values accepted, each once and in the order they were offered. The
/// ring never holds more than `n - 1` of them.
pub proof fn lemma_fifo<T>(ops: Seq<Op<T>>, n: int)
    requires
        n >= 1,
    ensures
        run(ops, n).accepted == run(ops, n).consumed + run(ops, n).queue,
        run(ops, n).queue.len() <= n - 1,
    decreases ops.len(),
{
    if ops.len() > 0 {
        lemma_fifo(ops.drop_last(), n);
        let t = run(ops.drop_last(), n);
        let u = run(ops, n);
        assert(u.accepted =~= u.consumed + u.queue);
    } else {
        assert(run(ops, n).accepted =~= run(ops, n).consumed + run(ops, n).queue);
    }
}

} // verus!
