use vstd::prelude::*;

verus! {

/// A value on a cache line of its own.
pub struct CachePadded<T> {
    value: T,
    _pad: [u64; 7],
}

impl<T> CachePadded<T> {
    pub closed spec fn inner(&self) -> T {
        self.value
    }

    pub fn new(value: T) -> (r: CachePadded<T>)
        ensures
            r.inner() == value,
    {
        CachePadded { value, _pad: [0u64; 7] }
    }

    pub fn get(&self) -> (r: &T)
        ensures
            *r == self.inner(),
    {
        &self.value
    }
}

/// Returned when pushing to a full ring. Holds the rejected value.
pub struct Full<T>(pub T);

/// Returned when popping from an empty ring.
#[derive(Debug, Clone, Copy, PartialEq, Eq, Structural)]
pub struct Empty;

/// A capacity the ring accepts: a power of two.
pub open spec fn valid_capacity(capacity: usize) -> bool {
    capacity > 0 && capacity & ((capacity - 1) as usize) == 0
}

/// The index mask of a ring of `capacity` slots, or `None` when the
/// capacity is zero or not a power of two.
pub fn ring_mask(capacity: usize) -> (r: Option<usize>)
    ensures
        valid_capacity(capacity) <==> r is Some,
        r matches Some(m) ==> m == capacity - 1,
{
    if capacity == 0 {
        return None;
    }
    if capacity & (capacity - 1) != 0 {
        return None;
    }
    Some(capacity - 1)
}

/// Items between the consumer's cursor `tail` and the producer's cursor
/// `head`, both counting modulo the word size.
pub fn occupancy(head: usize, tail: usize) -> (r: usize)
    ensures
        r == (if head >= tail { head - tail } else { head + (usize::MAX - tail) + 1 }),
{
    head.wrapping_sub(tail)
}

/// The slot a cursor maps to.
pub fn slot_of(cursor: usize, mask: usize) -> (r: usize)
    ensures
        r <= mask,
        r == cursor & mask,
{
    assert((cursor & mask) <= mask) by (bit_vector);
    cursor & mask
}

/// The producer's half of the cursor protocol: its own cursor and the last
/// value it saw of the consumer's.
pub struct ProducerCursor {
    head: usize,
    cached_tail: usize,
    capacity: usize,
    mask: usize,
}

impl ProducerCursor {
    pub closed spec fn head_spec(&self) -> usize {
        self.head
    }

    pub closed spec fn cached_tail_spec(&self) -> usize {
        self.cached_tail
    }

    pub closed spec fn capacity_spec(&self) -> usize {
        self.capacity
    }

    pub closed spec fn mask_spec(&self) -> usize {
        self.mask
    }

    pub fn new(capacity: usize, mask: usize) -> (r: ProducerCursor)
        ensures
            r.head_spec() == 0,
            r.cached_tail_spec() == 0,
            r.capacity_spec() == capacity,
            r.mask_spec() == mask,
    {
        ProducerCursor { head: 0, cached_tail: 0, capacity, mask }
    }

    pub fn capacity(&self) -> (r: usize)
        ensures
            r == self.capacity_spec(),
    {
        self.capacity
    }

    /// The slot to write next, unless the ring is full as far as the cached
    /// tail shows.
    pub fn claim(&self) -> (r: Option<usize>)
        ensures
            r is None <==> self.head_spec().wrapping_sub(self.cached_tail_spec()) == self.capacity_spec(),
            r matches Some(s) ==> s == self.head_spec() & self.mask_spec(),
    {
        if occupancy(self.head, self.cached_tail) == self.capacity {
            None
        } else {
            Some(slot_of(self.head, self.mask))
        }
    }

    /// Records the consumer's cursor as just loaded.
    pub fn observe_tail(&mut self, tail: usize)
        ensures
            final(self).cached_tail_spec() == tail,
            final(self).head_spec() == old(self).head_spec(),
            final(self).capacity_spec() == old(self).capacity_spec(),
            final(self).mask_spec() == old(self).mask_spec(),
    {
        self.cached_tail = tail;
    }

    /// Moves past the slot just written and returns the cursor to publish.
    pub fn advance(&mut self) -> (r: usize)
        ensures
            r == old(self).head_spec().wrapping_add(1),
            final(self).head_spec() == r,
            final(self).cached_tail_spec() == old(self).cached_tail_spec(),
            final(self).capacity_spec() == old(self).capacity_spec(),
            final(self).mask_spec() == old(self).mask_spec(),
    {
        self.head = self.head.wrapping_add(1);
        self.head
    }
}

/// The consumer's half of the cursor protocol: its own cursor and the last
/// value it saw of the producer's.
pub struct ConsumerCursor {
    tail: usize,
    cached_head: usize,
    capacity: usize,
    mask: usize,
}

impl ConsumerCursor {
    pub closed spec fn tail_spec(&self) -> usize {
        self.tail
    }

    pub closed spec fn cached_head_spec(&self) -> usize {
        self.cached_head
    }

    pub closed spec fn capacity_spec(&self) -> usize {
        self.capacity
    }

    pub closed spec fn mask_spec(&self) -> usize {
        self.mask
    }

    pub fn new(capacity: usize, mask: usize) -> (r: ConsumerCursor)
        ensures
            r.tail_spec() == 0,
            r.cached_head_spec() == 0,
            r.capacity_spec() == capacity,
            r.mask_spec() == mask,
    {
        ConsumerCursor { tail: 0, cached_head: 0, capacity, mask }
    }

    pub fn capacity(&self) -> (r: usize)
        ensures
            r == self.capacity_spec(),
    {
        self.capacity
    }

    /// The slot to read next, unless the ring is empty as far as the cached
    /// head shows.
    pub fn claim(&self) -> (r: Option<usize>)
        ensures
            r is None <==> self.tail_spec() == self.cached_head_spec(),
            r matches Some(s) ==> s == self.tail_spec() & self.mask_spec(),
    {
        if self.tail == self.cached_head {
            None
        } else {
            Some(slot_of(self.tail, self.mask))
        }
    }

    /// Records the producer's cursor as just loaded.
    pub fn observe_head(&mut self, head: usize)
        ensures
            final(self).cached_head_spec() == head,
            final(self).tail_spec() == old(self).tail_spec(),
            final(self).capacity_spec() == old(self).capacity_spec(),
            final(self).mask_spec() == old(self).mask_spec(),
    {
        self.cached_head = head;
    }

    /// Moves past the slot just read and returns the cursor to publish.
    pub fn advance(&mut self) -> (r: usize)
        ensures
            r == old(self).tail_spec().wrapping_add(1),
            final(self).tail_spec() == r,
            final(self).cached_head_spec() == old(self).cached_head_spec(),
            final(self).capacity_spec() == old(self).capacity_spec(),
            final(self).mask_spec() == old(self).mask_spec(),
    {
        self.tail = self.tail.wrapping_add(1);
        self.tail
    }
}

/// The ring as both sides see it, with cursors counted without wrapping:
/// the slot contents, everything the producer has pushed, and how much of
/// it the consumer has taken.
pub struct RingModel<T> {
    pub slots: Seq<T>,
    pub produced: Seq<T>,
    pub taken: nat,
}

/// Every item between the consumer's and the producer's cursor sits in the
/// slot its cursor maps to, and there are at most `capacity` of them.
pub open spec fn model_ok<T>(m: RingModel<T>, capacity: nat) -> bool {
    &&& capacity > 0
    &&& m.slots.len() == capacity
    &&& m.taken <= m.produced.len() <= m.taken + capacity
    &&& forall|c: int| m.taken <= c < m.produced.len() ==> m.slots[c % (capacity as int)] == #[trigger] m.produced[c]
}

/// A push writes the slot of the producer's cursor and moves it on.
pub open spec fn model_push<T>(m: RingModel<T>, capacity: nat, x: T) -> RingModel<T> {
    RingModel {
        slots: m.slots.update(m.produced.len() as int % (capacity as int), x),
        produced: m.produced.push(x),
        taken: m.taken,
    }
}

/// A pop reads the slot of the consumer's cursor and moves it on.
pub open spec fn model_pop<T>(m: RingModel<T>, capacity: nat) -> (T, RingModel<T>) {
    (m.slots[m.taken as int % (capacity as int)], RingModel { taken: m.taken + 1, ..m })
}

/// A push into a ring that is not full keeps every waiting item in its slot.
pub proof fn lemma_model_push<T>(m: RingModel<T>, capacity: nat, x: T)
    requires
        model_ok(m, capacity),
        m.produced.len() < m.taken + capacity,
    ensures
        model_ok(model_push(m, capacity, x), capacity),
{
    let h = m.produced.len() as int;
    let cap = capacity as int;
    let n = model_push(m, capacity, x);
    assert forall|c: int| n.taken <= c < n.produced.len() implies n.slots[c % cap] == #[trigger] n.produced[c] by {
        if c < h {
            assert(c % cap != h % cap) by (nonlinear_arith)
                requires
                    0 <= c,
                    c < h,
                    h - c < cap,
                    cap > 0,
            {
                let q1 = c / cap;
                let q2 = h / cap;
                assert(c == q1 * cap + c % cap);
                assert(h == q2 * cap + h % cap);
                if c % cap == h % cap {
                    assert(h - c == (q2 - q1) * cap);
                    if q2 - q1 >= 1 {
                        assert((q2 - q1) * cap >= cap);
                    } else {
                        assert((q2 - q1) * cap <= 0);
                    }
                }
            }
        }
    }
}

/// A pop from a ring that is not empty returns the oldest item not yet
/// taken, so the items come out in the order they went in.
pub proof fn lemma_model_pop<T>(m: RingModel<T>, capacity: nat)
    requires
        model_ok(m, capacity),
        m.taken < m.produced.len(),
    ensures
        model_pop(m, capacity).0 == m.produced[m.taken as int],
        model_ok(model_pop(m, capacity).1, capacity),
{
}

} // verus!
