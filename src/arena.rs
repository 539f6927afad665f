use vstd::prelude::*;

use crate::order::{Order, Side};

verus! {

/// Sentinel index: "no node".
pub const ARENA_NULL: u32 = 4294967295;

/// Number of slots a book gets when no capacity is given.
pub const DEFAULT_CAPACITY: u32 = 1048576;

#[derive(Debug, Clone, Copy, PartialEq, Eq, Structural)]
pub enum ArenaError {
    Full,
}

/// The arena-resident form of an order: the order's fields plus the links of
/// the per-level FIFO list (or, while the slot is vacant, of the free list).
#[derive(Debug, Clone, Copy)]
pub struct OrderNode {
    pub id: u64,
    pub trader_id: u64,
    pub price: i64,
    pub quantity: u64,
    pub timestamp: u64,
    pub prev: u32,
    pub next: u32,
    pub side: Side,
    pub pad: [u8; 15],
}

/// The order a node carries (its links play no part).
pub open spec fn order_of(n: OrderNode) -> Order {
    Order {
        id: n.id,
        trader_id: n.trader_id,
        side: n.side,
        price: n.price,
        quantity: n.quantity,
        timestamp: n.timestamp,
    }
}

pub open spec fn with_next(n: OrderNode, next: u32) -> OrderNode {
    OrderNode { next, ..n }
}

pub open spec fn with_prev(n: OrderNode, prev: u32) -> OrderNode {
    OrderNode { prev, ..n }
}

pub open spec fn with_quantity(n: OrderNode, quantity: u64) -> OrderNode {
    OrderNode { quantity, ..n }
}

impl OrderNode {
    pub fn zeroed() -> (r: OrderNode)
        ensures
            r.prev == ARENA_NULL,
            r.next == ARENA_NULL,
            r.quantity == 0,
    {
        OrderNode {
            id: 0,
            trader_id: 0,
            price: 0,
            quantity: 0,
            timestamp: 0,
            prev: ARENA_NULL,
            next: ARENA_NULL,
            side: Side::Bid,
            pad: [0u8; 15],
        }
    }

    /// An unlinked node holding `order`.
    pub fn from_order(order: &Order) -> (r: OrderNode)
        ensures
            order_of(r) == *order,
            r.prev == ARENA_NULL,
            r.next == ARENA_NULL,
    {
        OrderNode {
            id: order.id,
            trader_id: order.trader_id,
            price: order.price,
            quantity: order.quantity,
            timestamp: order.timestamp,
            prev: ARENA_NULL,
            next: ARENA_NULL,
            side: order.side,
            pad: [0u8; 15],
        }
    }

    pub fn to_order(&self) -> (r: Order)
        ensures
            r == order_of(*self),
    {
        Order {
            id: self.id,
            trader_id: self.trader_id,
            side: self.side,
            price: self.price,
            quantity: self.quantity,
            timestamp: self.timestamp,
        }
    }
}

/// Head and tail of one price level's FIFO list, with its order count and
/// aggregate resting quantity.
#[derive(Debug, Clone, Copy)]
pub struct PriceLevel {
    pub head: u32,
    pub tail: u32,
    pub count: u32,
    pub qty: u128,
}

impl PriceLevel {
    pub fn new() -> (r: PriceLevel)
        ensures
            r == (PriceLevel { head: ARENA_NULL, tail: ARENA_NULL, count: 0, qty: 0 }),
    {
        PriceLevel { head: ARENA_NULL, tail: ARENA_NULL, count: 0, qty: 0 }
    }
}

/// A fixed slab of order nodes with an embedded free list threaded through
/// the `next` field of vacant slots.
pub struct Arena {
    storage: Vec<OrderNode>,
    free_head: u32,
    count: u32,
    capacity: u32,
    free: Ghost<Seq<u32>>,
}

impl View for Arena {
    type V = Seq<OrderNode>;

    closed spec fn view(&self) -> Seq<OrderNode> {
        self.storage@
    }
}

impl Arena {
    /// The vacant slots, in the order `allocate` hands them out.
    pub closed spec fn free_list(&self) -> Seq<u32> {
        self.free@
    }

    pub closed spec fn cap(&self) -> nat {
        self.capacity as nat
    }

    pub closed spec fn occupied(&self) -> nat {
        self.count as nat
    }

    pub closed spec fn links_ok(&self) -> bool {
        &&& self.free_head == (if self.free@.len() == 0 {
            ARENA_NULL
        } else {
            self.free@[0]
        })
        &&& forall|i: int|
            0 <= i < self.free@.len() ==> #[trigger] self.storage@[self.free@[i] as int].next == (
            if i + 1 < self.free@.len() {
                self.free@[i + 1]
            } else {
                ARENA_NULL
            })
    }

    pub open spec fn wf(&self) -> bool {
        &&& self@.len() == self.cap()
        &&& self.cap() <= ARENA_NULL
        &&& self.occupied() + self.free_list().len() == self.cap()
        &&& self.free_list().no_duplicates()
        &&& forall|i: int| 0 <= i < self.free_list().len() ==> #[trigger] self.free_list()[i] < self.cap()
        &&& self.links_ok()
    }

    /// A slot that is in range and not vacant.
    pub open spec fn live(&self, index: u32) -> bool {
        index < self.cap() && !self.free_list().contains(index)
    }

    /// Every slot vacant, chained 0 -> 1 -> ... -> capacity-1.
    pub fn new(capacity: u32) -> (r: Arena)
        ensures
            r.wf(),
            r.cap() == capacity,
            r.occupied() == 0,
    {
        let mut storage: Vec<OrderNode> = Vec::with_capacity(capacity as usize);
        let mut i: u32 = 0;
        while i < capacity
            invariant
                i <= capacity,
                storage@.len() == i,
                forall|j: int|
                    0 <= j < i ==> #[trigger] storage@[j].next == (if j + 1 < capacity {
                        (j + 1) as u32
                    } else {
                        ARENA_NULL
                    }),
            decreases capacity - i,
        {
            let mut node = OrderNode::zeroed();
            node.next = if i + 1 < capacity {
                i + 1
            } else {
                ARENA_NULL
            };
            storage.push(node);
            i = i + 1;
        }
        let ghost free = Seq::new(capacity as nat, |j: int| j as u32);
        let r = Arena {
            storage,
            free_head: if capacity > 0 {
                0
            } else {
                ARENA_NULL
            },
            count: 0,
            capacity,
            free: Ghost(free),
        };
        assert(r.free@.no_duplicates());
        assert(r.links_ok()) by {
            assert forall|j: int| 0 <= j < r.free@.len() implies #[trigger] r.storage@[r.free@[j] as int].next == (
            if j + 1 < r.free@.len() {
                r.free@[j + 1]
            } else {
                ARENA_NULL
            }) by {
                assert(r.free@[j] as int == j);
            }
        }
        r
    }

    pub fn default_capacity() -> (r: u32)
        ensures
            r == DEFAULT_CAPACITY,
    {
        DEFAULT_CAPACITY
    }

    /// Number of occupied slots.
    pub fn count(&self) -> (r: u32)
        ensures
            r == self.occupied(),
    {
        self.count
    }

    pub fn capacity(&self) -> (r: u32)
        ensures
            r == self.cap(),
    {
        self.capacity
    }

    /// Takes the first vacant slot and writes `order` into it, unlinked.
    /// Fails exactly when no slot is vacant.
    pub fn allocate(&mut self, order: &Order) -> (r: Result<u32, ArenaError>)
        requires
            old(self).wf(),
        ensures
            final(self).wf(),
            final(self).cap() == old(self).cap(),
            old(self).free_list().len() == 0 <==> r is Err,
            r is Err ==> *final(self) == *old(self),
            r matches Ok(index) ==> {
                &&& index == old(self).free_list()[0]
                &&& final(self).free_list() == old(self).free_list().drop_first()
                &&& final(self).occupied() == old(self).occupied() + 1
                &&& order_of(final(self)@[index as int]) == *order
                &&& final(self)@[index as int].prev == ARENA_NULL
                &&& final(self)@[index as int].next == ARENA_NULL
                &&& forall|j: int| 0 <= j < old(self)@.len() && j != index ==> final(self)@[j] == old(self)@[j]
                &&& final(self)@.len() == old(self)@.len()
            },
    {
        if self.free_head == ARENA_NULL {
            proof {
                if self.free@.len() > 0 {
                    assert(self.free@[0] < self.capacity);
                }
            }
            return Err(ArenaError::Full);
        }
        let index = self.free_head;
        proof {
            assert(self.free@[0] < self.capacity);
        }
        self.free_head = self.storage[index as usize].next;
        self.storage.set(index as usize, OrderNode::from_order(order));
        self.count = self.count + 1;
        proof {
            let old_free = self.free@;
            self.free@ = old_free.drop_first();
            assert forall|i: int| 0 <= i < self.free@.len() implies #[trigger] self.storage@[self.free@[i] as int].next == (
            if i + 1 < self.free@.len() {
                self.free@[i + 1]
            } else {
                ARENA_NULL
            }) by {
                assert(old_free[i + 1] != old_free[0]);
                assert(self.storage@[self.free@[i] as int] == old(self).storage@[old_free[i + 1] as int]);
            }
            assert forall|i: int| 0 <= i < self.free@.len() implies #[trigger] self.free@[i] < self.capacity by {
                assert(old_free[i + 1] < self.capacity);
            }
        }
        Ok(index)
    }

    /// Returns a slot to the front of the free list.
    pub fn dealloc(&mut self, index: u32)
        requires
            old(self).wf(),
            old(self).live(index),
            old(self).occupied() > 0,
        ensures
            final(self).wf(),
            final(self).cap() == old(self).cap(),
            final(self).free_list() == seq![index] + old(self).free_list(),
            final(self).occupied() == old(self).occupied() - 1,
            final(self)@.len() == old(self)@.len(),
            forall|j: int| 0 <= j < old(self)@.len() && j != index ==> final(self)@[j] == old(self)@[j],
            order_of(final(self)@[index as int]) == order_of(old(self)@[index as int]),
    {
        let mut node = self.storage[index as usize];
        node.next = self.free_head;
        self.storage.set(index as usize, node);
        self.free_head = index;
        self.count = self.count - 1;
        proof {
            let old_free = self.free@;
            self.free@ = seq![index] + old_free;
            assert forall|i: int| 0 <= i < self.free@.len() implies #[trigger] self.storage@[self.free@[i] as int].next == (
            if i + 1 < self.free@.len() {
                self.free@[i + 1]
            } else {
                ARENA_NULL
            }) by {
                if i > 0 {
                    assert(self.free@[i] == old_free[i - 1]);
                    assert(old_free[i - 1] != index);
                }
            }
            assert forall|i: int| 0 <= i < self.free@.len() implies #[trigger] self.free@[i] < self.capacity by {
                if i > 0 {
                    assert(self.free@[i] == old_free[i - 1]);
                }
            }
            assert(self.free@.no_duplicates()) by {
                assert forall|a: int, b: int| 0 <= a < b < self.free@.len() implies self.free@[a] != self.free@[b] by {
                    if a > 0 {
                        assert(old_free[a - 1] != old_free[b - 1]);
                    } else {
                        assert(self.free@[b] == old_free[b - 1]);
                    }
                }
            }
        }
    }

    pub fn get(&self, index: u32) -> (r: &OrderNode)
        requires
            self.wf(),
            index < self.cap(),
        ensures
            *r == self@[index as int],
    {
        &self.storage[index as usize]
    }

    /// Overwrites the quantity of an occupied slot.
    pub fn set_quantity(&mut self, index: u32, quantity: u64)
        requires
            old(self).wf(),
            old(self).live(index),
        ensures
            final(self).wf(),
            final(self).cap() == old(self).cap(),
            final(self).free_list() == old(self).free_list(),
            final(self).occupied() == old(self).occupied(),
            final(self)@ == old(self)@.update(index as int, with_quantity(old(self)@[index as int], quantity)),
    {
        let mut node = self.storage[index as usize];
        node.quantity = quantity;
        self.storage.set(index as usize, node);
        proof {
            assert forall|i: int| 0 <= i < self.free@.len() implies #[trigger] self.storage@[self.free@[i] as int].next == (
            if i + 1 < self.free@.len() {
                self.free@[i + 1]
            } else {
                ARENA_NULL
            }) by {
                assert(self.free@[i] != index);
            }
        }
    }

    /// Links node `index` at the tail of `level`.
    pub fn push_back(&mut self, level: &mut PriceLevel, index: u32)
        requires
            old(self).wf(),
            old(self).live(index),
            old(level).tail == ARENA_NULL || old(self).live(old(level).tail),
            old(level).count < ARENA_NULL,
            old(level).qty + old(self)@[index as int].quantity <= u128::MAX,
        ensures
            final(self).wf(),
            final(self).cap() == old(self).cap(),
            final(self).free_list() == old(self).free_list(),
            final(self).occupied() == old(self).occupied(),
            ({
                let t = old(level).tail;
                let s1 = if t != ARENA_NULL {
                    old(self)@.update(t as int, with_next(old(self)@[t as int], index))
                } else {
                    old(self)@
                };
                final(self)@ == s1.update(index as int, with_next(with_prev(s1[index as int], t), ARENA_NULL))
            }),
            final(level).head == (if old(level).tail == ARENA_NULL {
                index
            } else {
                old(level).head
            }),
            final(level).tail == index,
            final(level).count == old(level).count + 1,
            final(level).qty == old(level).qty + old(self)@[index as int].quantity,
    {
        let quantity = self.storage[index as usize].quantity;
        if level.tail != ARENA_NULL {
            let old_tail = level.tail;
            let mut t = self.storage[old_tail as usize];
            t.next = index;
            self.storage.set(old_tail as usize, t);
            let mut n = self.storage[index as usize];
            n.prev = old_tail;
            self.storage.set(index as usize, n);
        } else {
            level.head = index;
            let mut n = self.storage[index as usize];
            n.prev = ARENA_NULL;
            self.storage.set(index as usize, n);
        }
        let mut n = self.storage[index as usize];
        n.next = ARENA_NULL;
        self.storage.set(index as usize, n);
        level.tail = index;
        level.count = level.count + 1;
        level.qty = level.qty + quantity as u128;
        proof {
            assert forall|i: int| 0 <= i < self.free@.len() implies #[trigger] self.storage@[self.free@[i] as int].next == (
            if i + 1 < self.free@.len() {
                self.free@[i + 1]
            } else {
                ARENA_NULL
            }) by {
                assert(self.free@[i] != index);
                assert(self.free@[i] != old(level).tail);
            }
        }
    }

    /// Unlinks the head of `level`, if any, and returns its index.
    pub fn pop_front(&mut self, level: &mut PriceLevel) -> (r: Option<u32>)
        requires
            old(self).wf(),
            old(level).head != ARENA_NULL ==> {
                &&& old(self).live(old(level).head)
                &&& old(self)@[old(level).head as int].next == ARENA_NULL || old(self).live(
                    old(self)@[old(level).head as int].next,
                )
                &&& old(level).count > 0
                &&& old(level).qty >= old(self)@[old(level).head as int].quantity
            },
        ensures
            final(self).wf(),
            final(self).cap() == old(self).cap(),
            final(self).free_list() == old(self).free_list(),
            final(self).occupied() == old(self).occupied(),
            old(level).head == ARENA_NULL ==> r is None && *final(self) == *old(self) && *final(level)
                == *old(level),
            old(level).head != ARENA_NULL ==> ({
                let h = old(level).head;
                let nx = old(self)@[h as int].next;
                &&& r == Some(h)
                &&& final(self)@ == (if nx != ARENA_NULL {
                    old(self)@.update(nx as int, with_prev(old(self)@[nx as int], ARENA_NULL))
                } else {
                    old(self)@
                })
                &&& final(level).head == nx
                &&& final(level).tail == (if nx != ARENA_NULL {
                    old(level).tail
                } else {
                    ARENA_NULL
                })
                &&& final(level).count == old(level).count - 1
                &&& final(level).qty == old(level).qty - old(self)@[h as int].quantity
            }),
    {
        if level.head == ARENA_NULL {
            return None;
        }
        let index = level.head;
        let next = self.storage[index as usize].next;
        let quantity = self.storage[index as usize].quantity;
        if next != ARENA_NULL {
            let mut n = self.storage[next as usize];
            n.prev = ARENA_NULL;
            self.storage.set(next as usize, n);
            level.head = next;
        } else {
            level.head = ARENA_NULL;
            level.tail = ARENA_NULL;
        }
        level.count = level.count - 1;
        level.qty = level.qty - quantity as u128;
        proof {
            assert forall|i: int| 0 <= i < self.free@.len() implies #[trigger] self.storage@[self.free@[i] as int].next == (
            if i + 1 < self.free@.len() {
                self.free@[i + 1]
            } else {
                ARENA_NULL
            }) by {
                assert(self.free@[i] != next);
            }
        }
        Some(index)
    }

    /// Unlinks node `index` from anywhere in `level`.
    pub fn remove(&mut self, level: &mut PriceLevel, index: u32)
        requires
            old(self).wf(),
            old(self).live(index),
            old(self)@[index as int].prev == ARENA_NULL || old(self).live(old(self)@[index as int].prev),
            old(self)@[index as int].next == ARENA_NULL || old(self).live(old(self)@[index as int].next),
            old(level).count > 0,
            old(level).qty >= old(self)@[index as int].quantity,
        ensures
            final(self).wf(),
            final(self).cap() == old(self).cap(),
            final(self).free_list() == old(self).free_list(),
            final(self).occupied() == old(self).occupied(),
            ({
                let p = old(self)@[index as int].prev;
                let n = old(self)@[index as int].next;
                let s1 = if p != ARENA_NULL {
                    old(self)@.update(p as int, with_next(old(self)@[p as int], n))
                } else {
                    old(self)@
                };
                &&& final(self)@ == (if n != ARENA_NULL {
                    s1.update(n as int, with_prev(s1[n as int], p))
                } else {
                    s1
                })
                &&& final(level).head == (if p == ARENA_NULL {
                    n
                } else {
                    old(level).head
                })
                &&& final(level).tail == (if n == ARENA_NULL {
                    p
                } else {
                    old(level).tail
                })
            }),
            final(level).count == old(level).count - 1,
            final(level).qty == old(level).qty - old(self)@[index as int].quantity,
    {
        let prev_idx = self.storage[index as usize].prev;
        let next_idx = self.storage[index as usize].next;
        let quantity = self.storage[index as usize].quantity;
        if prev_idx != ARENA_NULL {
            let mut p = self.storage[prev_idx as usize];
            p.next = next_idx;
            self.storage.set(prev_idx as usize, p);
        } else {
            level.head = next_idx;
        }
        if next_idx != ARENA_NULL {
            let mut n = self.storage[next_idx as usize];
            n.prev = prev_idx;
            self.storage.set(next_idx as usize, n);
        } else {
            level.tail = prev_idx;
        }
        level.count = level.count - 1;
        level.qty = level.qty - quantity as u128;
        proof {
            assert forall|i: int| 0 <= i < self.free@.len() implies #[trigger] self.storage@[self.free@[i] as int].next == (
            if i + 1 < self.free@.len() {
                self.free@[i + 1]
            } else {
                ARENA_NULL
            }) by {
                assert(self.free@[i] != prev_idx);
                assert(self.free@[i] != next_idx);
            }
        }
    }
}

} // verus!
