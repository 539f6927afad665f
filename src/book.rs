use std::collections::HashMap;

use vstd::prelude::*;

use crate::arena::{
    order_of, with_next, with_prev, with_quantity, Arena, OrderNode, PriceLevel, ARENA_NULL,
};
use crate::order::{Order, Side};

verus! {

broadcast use vstd::std_specs::hash::group_hash_axioms;

#[derive(Debug, Clone, Copy, PartialEq, Eq, Structural)]
pub enum BookError {
    DuplicateOrderId(u64),
    OrderNotFound(u64),
    PriceLevelNotFound(i64),
    FillExceedsQuantity { available: u64, requested: u64 },
    ArenaFull,
}

/// `r` is the largest element of `s`, or `None` when `s` is empty.
pub open spec fn is_max(r: Option<i64>, s: Set<i64>) -> bool {
    match r {
        None => s.is_empty(),
        Some(b) => s.contains(b) && forall|k: i64| #[trigger] s.contains(k) ==> k <= b,
    }
}

/// `r` is the smallest element of `s`, or `None` when `s` is empty.
pub open spec fn is_min(r: Option<i64>, s: Set<i64>) -> bool {
    match r {
        None => s.is_empty(),
        Some(b) => s.contains(b) && forall|k: i64| #[trigger] s.contains(k) ==> b <= k,
    }
}

pub open spec fn other_side(side: Side) -> Side {
    match side {
        Side::Bid => Side::Ask,
        Side::Ask => Side::Bid,
    }
}

/// A set has one largest element.
pub proof fn lemma_max_unique(a: Option<i64>, b: Option<i64>, s: Set<i64>)
    requires
        is_max(a, s),
        is_max(b, s),
    ensures
        a == b,
{
    if let (Some(x), Some(y)) = (a, b) {
        assert(x <= y && y <= x);
    }
}

/// A set has one smallest element.
pub proof fn lemma_min_unique(a: Option<i64>, b: Option<i64>, s: Set<i64>)
    requires
        is_min(a, s),
        is_min(b, s),
    ensures
        a == b,
{
    if let (Some(x), Some(y)) = (a, b) {
        assert(x <= y && y <= x);
    }
}

/// Taking elements away never lowers the smallest one.
pub proof fn lemma_min_subset(a: Option<i64>, s: Set<i64>, b: Option<i64>, t: Set<i64>)
    requires
        is_min(a, s),
        is_min(b, t),
        t.subset_of(s),
    ensures
        b matches Some(y) ==> a matches Some(x) && x <= y,
{
}

/// Taking elements away never raises the largest one.
pub proof fn lemma_max_subset(a: Option<i64>, s: Set<i64>, b: Option<i64>, t: Set<i64>)
    requires
        is_max(a, s),
        is_max(b, t),
        t.subset_of(s),
    ensures
        b matches Some(y) ==> a matches Some(x) && y <= x,
{
}

/// Sum of the quantities of the nodes a list visits.
pub open spec fn sum_qty(nodes: Seq<OrderNode>, s: Seq<u32>) -> int
    decreases s.len(),
{
    if s.len() == 0 {
        0
    } else {
        sum_qty(nodes, s.drop_last()) + nodes[s.last() as int].quantity
    }
}

/// `s` is exactly the doubly linked list that `lvl` heads.
pub open spec fn list_ok(nodes: Seq<OrderNode>, s: Seq<u32>, lvl: PriceLevel) -> bool {
    &&& s.len() == lvl.count
    &&& s.no_duplicates()
    &&& (if s.len() == 0 {
        lvl.head == ARENA_NULL && lvl.tail == ARENA_NULL
    } else {
        lvl.head == s[0] && lvl.tail == s.last()
    })
    &&& forall|i: int|
        0 <= i < s.len() ==> (#[trigger] nodes[s[i] as int]).prev == (if i == 0 {
            ARENA_NULL
        } else {
            s[i - 1]
        }) && nodes[s[i] as int].next == (if i + 1 == s.len() {
            ARENA_NULL
        } else {
            s[i + 1]
        })
    &&& lvl.qty == sum_qty(nodes, s)
}

pub proof fn lemma_sum_frame(a: Seq<OrderNode>, b: Seq<OrderNode>, s: Seq<u32>)
    requires
        forall|i: int| 0 <= i < s.len() ==> a[s[i] as int].quantity == b[s[i] as int].quantity,
    ensures
        sum_qty(a, s) == sum_qty(b, s),
    decreases s.len(),
{
    if s.len() > 0 {
        lemma_sum_frame(a, b, s.drop_last());
    }
}

pub proof fn lemma_sum_bound(nodes: Seq<OrderNode>, s: Seq<u32>)
    ensures
        0 <= sum_qty(nodes, s) <= s.len() * 18446744073709551615,
    decreases s.len(),
{
    if s.len() > 0 {
        lemma_sum_bound(nodes, s.drop_last());
    }
}

/// Removing the element at `k` takes its quantity out of the sum.
pub proof fn lemma_sum_remove(nodes: Seq<OrderNode>, s: Seq<u32>, k: int)
    requires
        0 <= k < s.len(),
    ensures
        sum_qty(nodes, s) == sum_qty(nodes, s.remove(k)) + nodes[s[k] as int].quantity,
    decreases s.len(),
{
    if k == s.len() - 1 {
        assert(s.remove(k) =~= s.drop_last());
    } else {
        lemma_sum_remove(nodes, s.drop_last(), k);
        assert(s.remove(k).drop_last() =~= s.drop_last().remove(k));
        assert(s.remove(k).last() == s.last());
    }
}

/// The order in which resting orders are listed: by side (bids first), then
/// price, then ingress timestamp, then id.
pub open spec fn listed_before(a: Order, b: Order) -> bool {
    let sa: int = match a.side { Side::Bid => 0, Side::Ask => 1 };
    let sb: int = match b.side { Side::Bid => 0, Side::Ask => 1 };
    if sa != sb {
        sa < sb
    } else if a.price != b.price {
        a.price < b.price
    } else if a.timestamp != b.timestamp {
        a.timestamp < b.timestamp
    } else {
        a.id <= b.id
    }
}

fn listed_before_exec(a: &Order, b: &Order) -> (r: bool)
    ensures
        r == listed_before(*a, *b),
{
    let sa: u8 = match a.side { Side::Bid => 0, Side::Ask => 1 };
    let sb: u8 = match b.side { Side::Bid => 0, Side::Ask => 1 };
    if sa != sb {
        sa < sb
    } else if a.price != b.price {
        a.price < b.price
    } else if a.timestamp != b.timestamp {
        a.timestamp < b.timestamp
    } else {
        a.id <= b.id
    }
}

/// The map from id to order of a list of orders.
pub open spec fn by_id(orders: Seq<Order>) -> Map<u64, Order> {
    Map::new(
        |id: u64| exists|i: int| 0 <= i < orders.len() && orders[i].id == id,
        |id: u64| orders[choose|i: int| 0 <= i < orders.len() && orders[i].id == id],
    )
}

pub open spec fn ids_distinct(orders: Seq<Order>) -> bool {
    forall|a: int, b: int| 0 <= a < b < orders.len() ==> orders[a].id != orders[b].id
}

/// What a book holds: resting orders by id and, per side, the queue of ids
/// (oldest first) of each price level.
pub struct BookView {
    pub resting: Map<u64, Order>,
    pub bids: Map<i64, Seq<u64>>,
    pub asks: Map<i64, Seq<u64>>,
}

pub open spec fn side_levels(v: BookView, side: Side) -> Map<i64, Seq<u64>> {
    match side {
        Side::Bid => v.bids,
        Side::Ask => v.asks,
    }
}

pub open spec fn with_side_levels(v: BookView, side: Side, m: Map<i64, Seq<u64>>) -> BookView {
    match side {
        Side::Bid => BookView { bids: m, ..v },
        Side::Ask => BookView { asks: m, ..v },
    }
}

/// The best price of a side: the highest bid, or the lowest ask.
pub open spec fn best_price(v: BookView, side: Side) -> Option<i64> {
    match side {
        Side::Bid => choose|b: Option<i64>| is_max(b, v.bids.dom()),
        Side::Ask => choose|b: Option<i64>| is_min(b, v.asks.dom()),
    }
}

/// A single-instrument limit order book: two price-keyed maps of FIFO levels
/// whose orders live in one arena, an id index, and cached best prices.
pub struct OrderBook {
    bids: HashMap<i64, PriceLevel>,
    asks: HashMap<i64, PriceLevel>,
    best_bid: Option<i64>,
    best_ask: Option<i64>,
    order_index: HashMap<u64, u32>,
    arena: Arena,
    bid_lists: Ghost<Map<i64, Seq<u32>>>,
    ask_lists: Ghost<Map<i64, Seq<u32>>>,
}

impl OrderBook {
    pub closed spec fn levels(&self, side: Side) -> Map<i64, PriceLevel> {
        match side {
            Side::Bid => self.bids@,
            Side::Ask => self.asks@,
        }
    }

    pub closed spec fn lists(&self, side: Side) -> Map<i64, Seq<u32>> {
        match side {
            Side::Bid => self.bid_lists@,
            Side::Ask => self.ask_lists@,
        }
    }

    /// Resting orders by id.
    pub closed spec fn resting(&self) -> Map<u64, Order> {
        Map::new(
            |id: u64| self.order_index@.contains_key(id),
            |id: u64| order_of(self.arena@[self.order_index@[id] as int]),
        )
    }

    /// The prices at which `side` has a level.
    pub closed spec fn prices(&self, side: Side) -> Set<i64> {
        self.lists(side).dom()
    }

    /// Ids of the orders resting at (`side`, `price`), oldest first.
    pub closed spec fn queue(&self, side: Side, price: i64) -> Seq<u64> {
        if self.lists(side).contains_key(price) {
            self.lists(side)[price].map_values(|i: u32| self.arena@[i as int].id)
        } else {
            Seq::empty()
        }
    }

    /// The book as resting orders and level queues.
    pub open spec fn model(&self) -> BookView {
        BookView {
            resting: self.resting(),
            bids: Map::new(|p: i64| self.prices(Side::Bid).contains(p), |p: i64| self.queue(Side::Bid, p)),
            asks: Map::new(|p: i64| self.prices(Side::Ask).contains(p), |p: i64| self.queue(Side::Ask, p)),
        }
    }

    pub closed spec fn best(&self, side: Side) -> Option<i64> {
        match side {
            Side::Bid => self.best_bid,
            Side::Ask => self.best_ask,
        }
    }

    /// Number of orders the book can hold.
    pub closed spec fn capacity_spec(&self) -> nat {
        self.arena.cap()
    }

    /// Number of occupied arena slots.
    pub closed spec fn occupancy(&self) -> nat {
        self.arena.occupied()
    }

    pub closed spec fn elem_ok(&self, side: Side, price: i64, x: u32) -> bool {
        &&& self.arena.live(x)
        &&& self.arena@[x as int].side == side
        &&& self.arena@[x as int].price == price
        &&& self.arena@[x as int].quantity > 0
        &&& self.order_index@.contains_key(self.arena@[x as int].id)
        &&& self.order_index@[self.arena@[x as int].id] == x
    }

    pub closed spec fn level_ok(&self, side: Side, price: i64) -> bool {
        let s = self.lists(side)[price];
        &&& s.len() > 0
        &&& list_ok(self.arena@, s, self.levels(side)[price])
        &&& forall|i: int| 0 <= i < s.len() ==> #[trigger] self.elem_ok(side, price, s[i])
    }

    pub closed spec fn side_ok(&self, side: Side) -> bool {
        &&& self.lists(side).dom() == self.levels(side).dom()
        &&& forall|p: i64| #[trigger] self.lists(side).contains_key(p) ==> self.level_ok(side, p)
    }

    pub closed spec fn index_ok(&self) -> bool {
        forall|id: u64| #[trigger]
            self.order_index@.contains_key(id) ==> {
                let x = self.order_index@[id];
                let n = self.arena@[x as int];
                &&& n.id == id
                &&& self.lists(n.side).contains_key(n.price)
                &&& self.lists(n.side)[n.price].contains(x)
            }
    }

    pub closed spec fn inv(&self) -> bool {
        &&& self.arena.wf()
        &&& self.side_ok(Side::Bid)
        &&& self.side_ok(Side::Ask)
        &&& self.index_ok()
        &&& self.arena.occupied() == self.order_index@.len()
        &&& self.order_index@.dom().finite()
        &&& is_max(self.best_bid, self.bid_lists@.dom())
        &&& is_min(self.best_ask, self.ask_lists@.dom())
    }

    /// What holds of the book between any two operations.
    pub open spec fn wf(&self) -> bool {
        &&& self.inv()
        &&& is_max(self.best(Side::Bid), self.prices(Side::Bid))
        &&& is_min(self.best(Side::Ask), self.prices(Side::Ask))
        &&& self.resting().dom().finite()
        &&& self.resting().len() <= self.capacity_spec()
        &&& self.occupancy() == self.resting().len()
        &&& forall|side: Side, p: i64| #[trigger]
            self.prices(side).contains(p) <==> self.queue(side, p).len() > 0
        &&& forall|side: Side, p: i64, i: int|
            0 <= i < self.queue(side, p).len() ==> {
                let id = #[trigger] self.queue(side, p)[i];
                &&& self.resting().contains_key(id)
                &&& self.resting()[id].side == side
                &&& self.resting()[id].price == p
            }
        &&& forall|id: u64| #[trigger]
            self.resting().contains_key(id) ==> {
                let o = self.resting()[id];
                &&& o.quantity > 0
                &&& self.queue(o.side, o.price).contains(id)
                &&& o.id == id
            }
        &&& forall|side: Side, p: i64| #[trigger] self.queue(side, p).no_duplicates()
    }

    proof fn lemma_wf(&self)
        requires
            self.inv(),
        ensures
            self.wf(),
    {
        assert forall|side: Side, p: i64| #[trigger] self.queue(side, p).no_duplicates() by {
            if self.lists(side).contains_key(p) {
                let s = self.lists(side)[p];
                assert(self.level_ok(side, p));
                let ids = self.queue(side, p);
                assert forall|a: int, b: int| 0 <= a < b < ids.len() implies ids[a] != ids[b] by {
                    assert(self.elem_ok(side, p, s[a]));
                    assert(self.elem_ok(side, p, s[b]));
                }
            }
        }
        assert(self.resting().dom() =~= self.order_index@.dom());
        assert forall|side: Side, p: i64| #[trigger] self.prices(side).contains(p) <==> self.queue(side, p).len() > 0 by {
            if self.prices(side).contains(p) {
                assert(self.level_ok(side, p));
            }
        }
        assert forall|side: Side, p: i64, i: int|
            0 <= i < self.queue(side, p).len() implies {
                let id = #[trigger] self.queue(side, p)[i];
                &&& self.resting().contains_key(id)
                &&& self.resting()[id].side == side
                &&& self.resting()[id].price == p
            } by {
            assert(self.level_ok(side, p));
            let s = self.lists(side)[p];
            assert(self.elem_ok(side, p, s[i]));
        }
        assert forall|id: u64| #[trigger] self.resting().contains_key(id) implies {
            let o = self.resting()[id];
            &&& o.quantity > 0
            &&& self.queue(o.side, o.price).contains(id)
            &&& o.id == id
        } by {
            let x = self.order_index@[id];
            let n = self.arena@[x as int];
            let s = self.lists(n.side)[n.price];
            assert(self.level_ok(n.side, n.price));
            let k = choose|k: int| 0 <= k < s.len() && s[k] == x;
            assert(self.elem_ok(n.side, n.price, s[k]));
            assert(self.queue(n.side, n.price)[k] == id);
        }
        assert(self.resting().len() <= self.capacity_spec()) by {
            assert(self.resting().len() == self.order_index@.len());
        }
        assert(self.occupancy() == self.resting().len());
    }

    pub fn new() -> (r: OrderBook)
        ensures
            r.wf(),
            r.resting().is_empty(),
            r.prices(Side::Bid).is_empty(),
            r.prices(Side::Ask).is_empty(),
            r.capacity_spec() == crate::arena::DEFAULT_CAPACITY,
    {
        OrderBook::with_capacity(Arena::default_capacity())
    }

    /// An empty book whose arena holds `arena_capacity` orders.
    pub fn with_capacity(arena_capacity: u32) -> (r: OrderBook)
        ensures
            r.wf(),
            r.resting().is_empty(),
            r.prices(Side::Bid).is_empty(),
            r.prices(Side::Ask).is_empty(),
            r.capacity_spec() == arena_capacity,
    {
        let r = OrderBook {
            bids: HashMap::new(),
            asks: HashMap::new(),
            best_bid: None,
            best_ask: None,
            order_index: HashMap::new(),
            arena: Arena::new(arena_capacity),
            bid_lists: Ghost(Map::empty()),
            ask_lists: Ghost(Map::empty()),
        };
        proof {
            assert(r.bid_lists@.dom() =~= r.bids@.dom());
            assert(r.ask_lists@.dom() =~= r.asks@.dom());
            assert(r.resting() =~= Map::empty());
            r.lemma_wf();
        }
        r
    }

    pub fn best_bid(&self) -> (r: Option<i64>)
        ensures
            r == self.best(Side::Bid),
    {
        self.best_bid
    }

    pub fn best_ask(&self) -> (r: Option<i64>)
        ensures
            r == self.best(Side::Ask),
    {
        self.best_ask
    }

    /// Number of occupied arena slots.
    pub fn arena_count(&self) -> (r: u32)
        ensures
            r == self.occupancy(),
    {
        self.arena.count()
    }

    /// Number of resting orders.
    pub fn order_count(&self) -> (r: usize)
        requires
            self.wf(),
        ensures
            r == self.resting().len(),
    {
        proof {
            assert(self.resting().dom() =~= self.order_index@.dom());
        }
        self.order_index.len()
    }

    /// Bounds the length of a level's queue by the number of resting orders.
    proof fn lemma_queue_len(&self, side: Side, p: i64)
        requires
            self.inv(),
            self.lists(side).contains_key(p),
        ensures
            self.lists(side)[p].len() <= self.order_index@.len(),
    {
        let s = self.lists(side)[p];
        assert(self.level_ok(side, p));
        let ids = s.map_values(|x: u32| self.arena@[x as int].id);
        assert(ids.no_duplicates()) by {
            assert forall|a: int, b: int| 0 <= a < b < ids.len() implies ids[a] != ids[b] by {
                assert(self.elem_ok(side, p, s[a]));
                assert(self.elem_ok(side, p, s[b]));
            }
        }
        ids.unique_seq_to_set();
        assert(ids.to_set().subset_of(self.order_index@.dom())) by {
            assert forall|id: u64| ids.to_set().contains(id) implies self.order_index@.contains_key(id) by {
                let i = choose|i: int| 0 <= i < ids.len() && ids[i] == id;
                assert(self.elem_ok(side, p, s[i]));
            }
        }
        vstd::set_lib::lemma_len_subset(ids.to_set(), self.order_index@.dom());
    }

    /// Rests `order` at the tail of its price level.
    ///
    /// Fails with `DuplicateOrderId` when the id is already resting, then with
    /// `ArenaFull` when the book holds as many orders as its capacity; a
    /// failed call leaves the book as it was.
    pub fn insert_order(&mut self, order: Order) -> (r: Result<(), BookError>)
        requires
            old(self).wf(),
            order.quantity > 0,
        ensures
            final(self).wf(),
            final(self).capacity_spec() == old(self).capacity_spec(),
            old(self).resting().contains_key(order.id) ==> r == Err::<(), BookError>(BookError::DuplicateOrderId(order.id)),
            !old(self).resting().contains_key(order.id) && old(self).resting().len() == old(self).capacity_spec()
                ==> r == Err::<(), BookError>(BookError::ArenaFull),
            !old(self).resting().contains_key(order.id) && old(self).resting().len() < old(self).capacity_spec()
                ==> r is Ok,
            r is Err ==> *final(self) == *old(self),
            r is Ok ==> {
                &&& final(self).resting() == old(self).resting().insert(order.id, order)
                &&& final(self).queue(order.side, order.price) == old(self).queue(order.side, order.price).push(order.id)
                &&& final(self).prices(order.side) == old(self).prices(order.side).insert(order.price)
                &&& forall|side: Side, p: i64| !(side == order.side && p == order.price) ==> #[trigger] final(self).queue(side, p) == old(self).queue(side, p)
                &&& forall|side: Side| side != order.side ==> #[trigger] final(self).prices(side) == old(self).prices(side)
            },
    {
        proof {
            assert(old(self).resting().dom() =~= old(self).order_index@.dom());
        }
        if self.order_index.contains_key(&order.id) {
            return Err(BookError::DuplicateOrderId(order.id));
        }
        let side = order.side;
        let price = order.price;
        let id = order.id;
        let ghost pre = *self;
        let index = match self.arena.allocate(&order) {
            Ok(i) => i,
            Err(_) => {
                return Err(BookError::ArenaFull);
            },
        };
        let ghost t = ARENA_NULL;
        let ghost old_s: Seq<u32> = Seq::empty();
        let mut level = match side {
            Side::Bid => match self.bids.get(&price) {
                Some(l) => *l,
                None => PriceLevel::new(),
            },
            Side::Ask => match self.asks.get(&price) {
                Some(l) => *l,
                None => PriceLevel::new(),
            },
        };
        proof {
            assert(pre.arena.free_list()[0] == index);
            assert(pre.arena.free_list()[0] < pre.arena.cap());
            assert(!self.arena.free_list().contains(index)) by {
                if self.arena.free_list().contains(index) {
                    let k = choose|k: int| 0 <= k < self.arena.free_list().len() && self.arena.free_list()[k] == index;
                    assert(pre.arena.free_list()[k + 1] == pre.arena.free_list()[0]);
                }
            }
            if pre.lists(side).contains_key(price) {
                old_s = pre.lists(side)[price];
                assert(pre.level_ok(side, price));
                t = old_s.last();
                assert(pre.elem_ok(side, price, old_s[old_s.len() - 1]));
                assert(!self.arena.free_list().contains(t)) by {
                    if self.arena.free_list().contains(t) {
                        let k = choose|k: int| 0 <= k < self.arena.free_list().len() && self.arena.free_list()[k] == t;
                        assert(pre.arena.free_list()[k + 1] == t);
                    }
                }
                pre.lemma_queue_len(side, price);
                lemma_sum_bound(pre.arena@, old_s);
                assert(old_s.len() * 18446744073709551615 <= 4294967295 * 18446744073709551615) by (nonlinear_arith)
                    requires old_s.len() <= 4294967295;
            } else {
                assert(!pre.levels(side).contains_key(price));
            }
            assert(level.tail == t);
            assert(level.count == old_s.len());
        }
        let ghost nodes1 = self.arena@;
        proof {
            assert(nodes1 =~= pre.arena@.update(index as int, nodes1[index as int]));
        }
        self.arena.push_back(&mut level, index);
        match side {
            Side::Bid => {
                self.bids.insert(price, level);
            },
            Side::Ask => {
                self.asks.insert(price, level);
            },
        }
        self.order_index.insert(id, index);
        let ghost new_s = old_s.push(index);
        proof {
            match side {
                Side::Bid => {
                    self.bid_lists@ = self.bid_lists@.insert(price, new_s);
                },
                Side::Ask => {
                    self.ask_lists@ = self.ask_lists@.insert(price, new_s);
                },
            }
        }
        self.update_best_after_insert(side, price);
        proof {
            self.lemma_insert_inv(pre, order, index, t, old_s, nodes1[index as int]);
            self.lemma_wf();
        }
        Ok(())
    }

    #[verifier::spinoff_prover]
    proof fn lemma_insert_inv(&self, pre: OrderBook, order: Order, index: u32, t: u32, old_s: Seq<u32>, n0: OrderNode)
        requires
            pre.inv(),
            order.quantity > 0,
            !pre.order_index@.contains_key(order.id),
            pre.arena.free_list().len() > 0,
            index == pre.arena.free_list()[0],
            self.arena.wf(),
            self.arena.cap() == pre.arena.cap(),
            self.arena.free_list() == pre.arena.free_list().drop_first(),
            self.arena.occupied() == pre.arena.occupied() + 1,
            pre.lists(order.side).contains_key(order.price) ==> old_s == pre.lists(order.side)[order.price] && t == old_s.last(),
            !pre.lists(order.side).contains_key(order.price) ==> old_s == Seq::<u32>::empty() && t == ARENA_NULL,
            n0.prev == ARENA_NULL,
            n0.next == ARENA_NULL,
            order_of(n0) == order,
            ({
                let nodes1 = pre.arena@.update(index as int, n0);
                let s1 = if t != ARENA_NULL {
                    nodes1.update(t as int, with_next(nodes1[t as int], index))
                } else {
                    nodes1
                };
                self.arena@ == s1.update(index as int, with_next(with_prev(s1[index as int], t), ARENA_NULL))
            }),
            self.order_index@ == pre.order_index@.insert(order.id, index),
            self.lists(order.side) == pre.lists(order.side).insert(order.price, old_s.push(index)),
            self.lists(other_side(order.side)) == pre.lists(other_side(order.side)),
            self.levels(other_side(order.side)) == pre.levels(other_side(order.side)),
            self.levels(order.side).dom() == pre.levels(order.side).dom().insert(order.price),
            forall|p: i64| p != order.price ==> #[trigger] self.levels(order.side)[p] == pre.levels(order.side)[p],
            ({
                let lvl = self.levels(order.side)[order.price];
                &&& lvl.tail == index
                &&& lvl.head == (if t == ARENA_NULL { index } else { pre.levels(order.side)[order.price].head })
                &&& lvl.count == old_s.len() + 1
                &&& lvl.qty == (if t == ARENA_NULL { 0 } else { pre.levels(order.side)[order.price].qty }) + order.quantity
            }),
            is_max(self.best_bid, self.bid_lists@.dom()),
            is_min(self.best_ask, self.ask_lists@.dom()),
        ensures
            self.inv(),
            self.resting() == pre.resting().insert(order.id, order),
            self.queue(order.side, order.price) == pre.queue(order.side, order.price).push(order.id),
            forall|side: Side, p: i64| !(side == order.side && p == order.price) ==> #[trigger] self.queue(side, p) == pre.queue(side, p),
    {
        let side = order.side;
        let price = order.price;
        let nodes = pre.arena@;
        let post = self.arena@;
        // Slots other than the new one and the old tail keep their node.
        assert(!pre.arena.live(index));
        assert(pre.arena.free_list()[0] < pre.arena.cap());
        if t != ARENA_NULL {
            assert(pre.level_ok(side, price));
            assert(pre.elem_ok(side, price, old_s[old_s.len() - 1]));
            assert(pre.arena.live(t));
            assert(post[t as int] == with_next(nodes[t as int], index));
        }
        assert forall|j: int| 0 <= j < nodes.len() && j != index && j != t implies post[j] == nodes[j] by {}
        assert(post[index as int].next == ARENA_NULL);
        assert(post[index as int].prev == t);
        // Every node of the old book is untouched but for links.
        assert forall|x: u32| #[trigger] pre.arena.live(x) implies self.arena.live(x) && order_of(post[x as int]) == order_of(nodes[x as int]) by {
            assert(x != index);
        }
        // Lists of the book before, other than the one that grows.
        assert forall|sd: Side, p: i64| #[trigger] self.lists(sd).contains_key(p) implies self.level_ok(sd, p) by {
            if sd == side && p == price {
                let s = old_s.push(index);
                let lvl = self.levels(sd)[p];
                if t != ARENA_NULL {
                    assert(pre.level_ok(sd, p));
                    assert forall|i: int| 0 <= i < old_s.len() - 1 implies post[old_s[i] as int] == nodes[old_s[i] as int] by {
                        assert(pre.elem_ok(sd, p, old_s[i]));
                        assert(old_s[i] != old_s.last());
                    }
                }
                assert(s.no_duplicates()) by {
                    assert forall|i: int| 0 <= i < old_s.len() implies old_s[i] != index by {
                        assert(pre.level_ok(sd, p));
                        assert(pre.elem_ok(sd, p, old_s[i]));
                    }
                }
                assert forall|i: int| 0 <= i < s.len() implies (#[trigger] post[s[i] as int]).prev == (if i == 0 {
                    ARENA_NULL
                } else {
                    s[i - 1]
                }) && post[s[i] as int].next == (if i + 1 == s.len() {
                    ARENA_NULL
                } else {
                    s[i + 1]
                }) by {
                    if i < old_s.len() {
                        assert(pre.lists(sd).contains_key(p));
                        assert(pre.level_ok(sd, p));
                        assert(pre.elem_ok(sd, p, old_s[old_s.len() - 1]));
                        assert(t != ARENA_NULL);
                        assert(post[t as int] == with_next(nodes[t as int], index));
                    }
                    if i + 1 < old_s.len() {
                        assert(s[i] == old_s[i]);
                        assert(s[i + 1] == old_s[i + 1]);
                        assert(pre.elem_ok(sd, p, old_s[i]));
                        assert(old_s[i] != old_s[old_s.len() - 1]);
                        assert(post[old_s[i] as int] == nodes[old_s[i] as int]);
                        assert(list_ok(nodes, old_s, pre.levels(sd)[p]));
                        assert(nodes[old_s[i] as int].next == old_s[i + 1]);
                        if i > 0 {
                            assert(s[i - 1] == old_s[i - 1]);
                        }
                    } else if i + 1 == old_s.len() {
                        assert(s[i] == t);
                        assert(list_ok(nodes, old_s, pre.levels(sd)[p]));
                        assert(nodes[old_s[i] as int].prev == (if i == 0 { ARENA_NULL } else { old_s[i - 1] }));
                        if i > 0 {
                            assert(s[i - 1] == old_s[i - 1]);
                        }
                    } else {
                        assert(s[i] == index);
                        assert(post[index as int].prev == t);
                        assert(post[index as int].next == ARENA_NULL);
                        if i > 0 {
                            assert(pre.lists(sd).contains_key(p));
                            assert(s[i - 1] == t);
                        } else {
                            assert(!pre.lists(sd).contains_key(p)) by {
                                if pre.lists(sd).contains_key(p) {
                                    assert(pre.level_ok(sd, p));
                                }
                            }
                        }
                    }
                }
                if !pre.lists(sd).contains_key(p) {
                    assert(old_s.len() == 0);
                    assert(t == ARENA_NULL);
                    assert(lvl.head == index);
                    assert(lvl.qty == order.quantity);
                }
                if pre.lists(sd).contains_key(p) {
                    assert(pre.level_ok(sd, p));
                    assert(pre.elem_ok(sd, p, old_s[old_s.len() - 1]));
                    assert(t != ARENA_NULL);
                    assert(lvl.head == old_s[0]);
                    assert forall|i: int| 0 <= i < old_s.len() implies nodes[old_s[i] as int].quantity == post[old_s[i] as int].quantity by {
                        if i + 1 < old_s.len() {
                            assert(pre.elem_ok(sd, p, old_s[i]));
                            assert(old_s[i] != old_s[old_s.len() - 1]);
                            assert(post[old_s[i] as int] == nodes[old_s[i] as int]);
                        }
                    }
                    lemma_sum_frame(nodes, post, old_s);
                }
                assert(s.drop_last() =~= old_s);
                assert(s.last() == index);
                assert(post[index as int].quantity == order.quantity);
                assert(s.len() == lvl.count);
                assert(lvl.head == s[0]);
                assert(lvl.tail == s.last());
                assert(sum_qty(post, s) == sum_qty(post, old_s) + order.quantity);
                if pre.lists(sd).contains_key(p) {
                    assert(list_ok(nodes, old_s, pre.levels(sd)[p]));
                    assert(sum_qty(post, old_s) == pre.levels(sd)[p].qty);
                }
                assert(lvl.qty == sum_qty(post, s));
                assert(list_ok(post, s, lvl));
                assert forall|i: int| 0 <= i < s.len() implies #[trigger] self.elem_ok(sd, p, s[i]) by {
                    if i < old_s.len() {
                        assert(pre.level_ok(sd, p));
                        assert(pre.elem_ok(sd, p, old_s[i]));
                        assert(s[i] == old_s[i]);
                    } else {
                        assert(s[i] == index);
                        assert(!self.arena.free_list().contains(index)) by {
                            if self.arena.free_list().contains(index) {
                                let k = choose|k: int| 0 <= k < self.arena.free_list().len() && self.arena.free_list()[k] == index;
                                assert(pre.arena.free_list()[k + 1] == pre.arena.free_list()[0]);
                            }
                        }
                    }
                }
            } else {
                assert(pre.lists(sd).contains_key(p));
                assert(pre.level_ok(sd, p));
                let s = pre.lists(sd)[p];
                assert(self.lists(sd)[p] == s);
                assert(self.levels(sd)[p] == pre.levels(sd)[p]);
                assert forall|i: int| 0 <= i < s.len() implies post[s[i] as int] == nodes[s[i] as int] by {
                    assert(pre.elem_ok(sd, p, s[i]));
                    if t != ARENA_NULL {
                        assert(pre.elem_ok(side, price, old_s[old_s.len() - 1]));
                    }
                }
                lemma_list_frame(nodes, post, s, self.levels(sd)[p]);
                assert forall|i: int| 0 <= i < s.len() implies #[trigger] self.elem_ok(sd, p, s[i]) by {
                    assert(pre.elem_ok(sd, p, s[i]));
                }
            }
        }
        assert(self.lists(Side::Bid).dom() == self.levels(Side::Bid).dom());
        assert(self.lists(Side::Ask).dom() == self.levels(Side::Ask).dom());
        assert(self.index_ok()) by {
            assert forall|id: u64| #[trigger] self.order_index@.contains_key(id) implies {
                let x = self.order_index@[id];
                let n = post[x as int];
                &&& n.id == id
                &&& self.lists(n.side).contains_key(n.price)
                &&& self.lists(n.side)[n.price].contains(x)
            } by {
                if id != order.id {
                    let x = pre.order_index@[id];
                    let n = nodes[x as int];
                    assert(pre.lists(n.side)[n.price].contains(x));
                    let k = choose|k: int| 0 <= k < pre.lists(n.side)[n.price].len() && pre.lists(n.side)[n.price][k] == x;
                    assert(pre.level_ok(n.side, n.price));
                    assert(pre.elem_ok(n.side, n.price, pre.lists(n.side)[n.price][k]));
                    if n.side == side && n.price == price {
                        assert(old_s.push(index)[k] == x);
                    }
                } else {
                    assert(old_s.push(index)[old_s.len() as int] == index);
                }
            }
        }
        assert(self.order_index@.len() == pre.order_index@.len() + 1);
        assert forall|id: u64| #[trigger] pre.order_index@.contains_key(id) implies pre.arena.live(pre.order_index@[id]) by {
            let x = pre.order_index@[id];
            let n = nodes[x as int];
            let k = choose|k: int| 0 <= k < pre.lists(n.side)[n.price].len() && pre.lists(n.side)[n.price][k] == x;
            assert(pre.level_ok(n.side, n.price));
            assert(pre.elem_ok(n.side, n.price, pre.lists(n.side)[n.price][k]));
        }
        assert(self.resting() =~= pre.resting().insert(order.id, order));
        assert forall|sd: Side, p: i64| #[trigger] self.queue(sd, p) == (if sd == side && p == price {
            pre.queue(sd, p).push(order.id)
        } else {
            pre.queue(sd, p)
        }) by {
            if self.lists(sd).contains_key(p) {
                let s = self.lists(sd)[p];
                assert(self.level_ok(sd, p));
                if sd == side && p == price {
                    assert(self.queue(sd, p) =~= pre.queue(sd, p).push(order.id)) by {
                        if pre.lists(sd).contains_key(p) {
                            assert(pre.level_ok(sd, p));
                            assert forall|i: int| 0 <= i < old_s.len() implies post[old_s[i] as int].id == nodes[old_s[i] as int].id by {
                                assert(pre.elem_ok(sd, p, old_s[i]));
                            }
                        }
                    }
                } else {
                    assert(pre.level_ok(sd, p));
                    assert(self.queue(sd, p) =~= pre.queue(sd, p)) by {
                        assert forall|i: int| 0 <= i < s.len() implies post[s[i] as int].id == nodes[s[i] as int].id by {
                            assert(pre.elem_ok(sd, p, s[i]));
                        }
                    }
                }
            }
        }
    }

    fn level_at(&self, side: Side, price: i64) -> (r: Option<PriceLevel>)
        ensures
            r == (if self.levels(side).contains_key(price) {
                Some(self.levels(side)[price])
            } else {
                None::<PriceLevel>
            }),
    {
        let found = match side {
            Side::Bid => self.bids.get(&price),
            Side::Ask => self.asks.get(&price),
        };
        match found {
            Some(l) => Some(*l),
            None => None,
        }
    }

    fn set_level(&mut self, side: Side, price: i64, level: PriceLevel)
        ensures
            final(self).levels(side) == old(self).levels(side).insert(price, level),
            final(self).levels(other_side(side)) == old(self).levels(other_side(side)),
            final(self).lists(Side::Bid) == old(self).lists(Side::Bid),
            final(self).lists(Side::Ask) == old(self).lists(Side::Ask),
            final(self).order_index == old(self).order_index,
            final(self).arena == old(self).arena,
            final(self).best_bid == old(self).best_bid,
            final(self).best_ask == old(self).best_ask,
    {
        match side {
            Side::Bid => {
                self.bids.insert(price, level);
            },
            Side::Ask => {
                self.asks.insert(price, level);
            },
        }
    }

    /// Drops an emptied level and recomputes that side's best price by a
    /// scan of the remaining keys.
    fn drop_level(&mut self, side: Side, price: i64)
        ensures
            final(self).levels(side) == old(self).levels(side).remove(price),
            final(self).levels(other_side(side)) == old(self).levels(other_side(side)),
            final(self).lists(Side::Bid) == old(self).lists(Side::Bid),
            final(self).lists(Side::Ask) == old(self).lists(Side::Ask),
            final(self).order_index == old(self).order_index,
            final(self).arena == old(self).arena,
            side == Side::Bid ==> is_max(final(self).best_bid, final(self).levels(side).dom()),
            side == Side::Ask ==> is_min(final(self).best_ask, final(self).levels(side).dom()),
            side == Side::Bid ==> final(self).best_ask == old(self).best_ask,
            side == Side::Ask ==> final(self).best_bid == old(self).best_bid,
    {
        match side {
            Side::Bid => {
                self.bids.remove(&price);
                self.best_bid = max_key(&self.bids);
            },
            Side::Ask => {
                self.asks.remove(&price);
                self.best_ask = min_key(&self.asks);
            },
        }
    }

    /// The order at the head of level (`side`, `price`), if that level exists.
    pub fn peek_front(&self, side: Side, price: i64) -> (r: Option<&OrderNode>)
        requires
            self.wf(),
        ensures
            self.prices(side).contains(price) <==> r is Some,
            r matches Some(n) ==> order_of(*n) == self.resting()[self.queue(side, price)[0]],
    {
        let level = match self.level_at(side, price) {
            Some(l) => l,
            None => {
                return None;
            },
        };
        proof {
            assert(self.level_ok(side, price));
            let s = self.lists(side)[price];
            assert(self.elem_ok(side, price, s[0]));
        }
        if level.head == ARENA_NULL {
            return None;
        }
        Some(self.arena.get(level.head))
    }

    /// Removes a resting order and returns it.
    pub fn cancel_order(&mut self, order_id: u64) -> (r: Result<Order, BookError>)
        requires
            old(self).wf(),
        ensures
            final(self).wf(),
            final(self).capacity_spec() == old(self).capacity_spec(),
            old(self).resting().contains_key(order_id) <==> r is Ok,
            r is Err ==> r == Err::<Order, BookError>(BookError::OrderNotFound(order_id)) && *final(self) == *old(self),
            r matches Ok(o) ==> {
                &&& o == old(self).resting()[order_id]
                &&& final(self).resting() == old(self).resting().remove(order_id)
                &&& exists|k: int|
                    0 <= k < old(self).queue(o.side, o.price).len() && old(self).queue(o.side, o.price)[k] == order_id
                        && final(self).queue(o.side, o.price) == old(self).queue(o.side, o.price).remove(k)
                &&& forall|sd: Side, p: i64| !(sd == o.side && p == o.price) ==> #[trigger] final(self).queue(sd, p) == old(self).queue(sd, p)
            },
    {
        let index = match self.order_index.get(&order_id) {
            Some(i) => *i,
            None => {
                return Err(BookError::OrderNotFound(order_id));
            },
        };
        let ghost pre = *self;
        proof {
            assert(pre.index_ok());
        }
        let ghost n = pre.arena@[index as int];
        let ghost s = pre.lists(n.side)[n.price];
        let ghost k = choose|k: int| 0 <= k < s.len() && s[k] == index;
        proof {
            assert(pre.level_ok(n.side, n.price));
            assert(pre.elem_ok(n.side, n.price, s[k]));
        }
        let order = self.arena.get(index).to_order();
        let side = order.side;
        let price = order.price;
        proof {
            assert(pre.level_ok(side, price));
            assert(pre.elem_ok(side, price, s[k]));
            if k > 0 {
                assert(pre.elem_ok(side, price, s[k - 1]));
            }
            if k + 1 < s.len() {
                assert(pre.elem_ok(side, price, s[k + 1]));
            }
            lemma_sum_remove(pre.arena@, s, k);
            lemma_sum_bound(pre.arena@, s.remove(k));
        }
        let mut level = match self.level_at(side, price) {
            Some(l) => l,
            None => {
                return Err(BookError::PriceLevelNotFound(price));
            },
        };
        self.arena.remove(&mut level, index);
        self.arena.dealloc(index);
        self.order_index.remove(&order_id);
        if level.count == 0 {
            proof {
                match side {
                    Side::Bid => {
                        self.bid_lists@ = self.bid_lists@.remove(price);
                    },
                    Side::Ask => {
                        self.ask_lists@ = self.ask_lists@.remove(price);
                    },
                }
            }
            self.drop_level(side, price);
            proof {
                assert(self.lists(side).dom() =~= self.levels(side).dom());
            }
        } else {
            self.set_level(side, price, level);
            proof {
                match side {
                    Side::Bid => {
                        self.bid_lists@ = self.bid_lists@.insert(price, s.remove(k));
                    },
                    Side::Ask => {
                        self.ask_lists@ = self.ask_lists@.insert(price, s.remove(k));
                    },
                }
                assert(self.lists(side).dom() =~= pre.lists(side).dom());
            }
        }
        proof {
            assert(self.removed_from(pre, side, price, k));
            self.lemma_remove_inv(pre, side, price, k);
            self.lemma_wf();
            assert(pre.queue(side, price)[k] == order_id);
        }
        Ok(order)
    }

    /// Every resting order once, listed by side, price, timestamp and id.
    pub fn all_resting_orders(&self) -> (r: Vec<Order>)
        requires
            self.wf(),
        ensures
            ids_distinct(r@),
            by_id(r@) == self.resting(),
            r@.len() == self.resting().len(),
            forall|a: int, b: int| 0 <= a < b < r@.len() ==> listed_before(r@[a], r@[b]),
    {
        let mut out: Vec<Order> = Vec::new();
        let ghost mut seen: Set<u64> = Set::empty();
        proof {
            assert(self.index_ok());
        }
        for id in it: self.order_index.keys()
            invariant
                self.wf(),
                it.seq().unref().to_set() == self.order_index@.dom(),
                it.seq().unref().no_duplicates(),
                seen.subset_of(self.order_index@.dom()),
                ids_distinct(out@),
                forall|a: int, b: int| 0 <= a < b < out@.len() ==> listed_before(out@[a], out@[b]),
                forall|k: int| 0 <= k < out@.len() ==> self.resting().contains_key(#[trigger] out@[k].id)
                    && self.resting()[out@[k].id] == out@[k] && seen.contains(out@[k].id),
                forall|x: u64| #[trigger] seen.contains(x) ==> exists|k: int| 0 <= k < out@.len() && out@[k].id == x,
                forall|x: u64| #[trigger] seen.contains(x) ==> exists|j: int| 0 <= j < it.index() && *it.seq()[j] == x,
                forall|j: int| 0 <= j < it.index() ==> seen.contains(*it.seq()[j]),
                it.index() == it.seq().len() ==> self.order_index@.dom().subset_of(seen),
        {
            assert(it.seq().unref()[it.index() as int] == *id);
            assert(it.seq().unref().to_set().contains(*id));
            assert(!seen.contains(*id)) by {
                if seen.contains(*id) {
                    let j = choose|j: int| 0 <= j < it.index() && *it.seq()[j] == *id;
                    assert(it.seq().unref()[j] == *it.seq()[j]);
                }
            }
            let index = *self.order_index.get(id).unwrap();
            proof {
                let n = self.arena@[index as int];
                let k = choose|k: int| 0 <= k < self.lists(n.side)[n.price].len() && self.lists(n.side)[n.price][k] == index;
                assert(self.level_ok(n.side, n.price));
                assert(self.elem_ok(n.side, n.price, self.lists(n.side)[n.price][k]));
            }
            let o = self.arena.get(index).to_order();
            let mut pos: usize = 0;
            while pos < out.len() && listed_before_exec(&out[pos], &o)
                invariant
                    pos <= out@.len(),
                    forall|k: int| 0 <= k < pos ==> listed_before(out@[k], o),
                decreases out@.len() - pos,
            {
                pos = pos + 1;
            }
            let ghost before = out@;
            proof {
                seen = seen.insert(*id);
            }
            out.insert(pos, o);
            proof {
                assert forall|a: int, b: int| 0 <= a < b < out@.len() implies listed_before(out@[a], out@[b]) by {
                    if a == pos as int && pos < before.len() {
                        assert(!listed_before(before[pos as int], o));
                        assert(listed_before(o, before[pos as int]));
                        if b - 1 > pos as int {
                            assert(listed_before(before[pos as int], before[b - 1]));
                        }
                    }
                }
                assert forall|a: int, b: int| 0 <= a < b < out@.len() implies out@[a].id != out@[b].id by {
                    if a == pos as int {
                        assert(seen.contains(out@[b].id));
                    }
                }
                assert forall|x: u64| #[trigger] seen.contains(x) implies exists|k: int| 0 <= k < out@.len() && out@[k].id == x by {
                    if x == *id {
                        assert(out@[pos as int].id == x);
                    } else {
                        let k = choose|k: int| 0 <= k < before.len() && before[k].id == x;
                        if k < pos {
                            assert(out@[k] == before[k]);
                        } else {
                            assert(out@[k + 1] == before[k]);
                        }
                    }
                }
                assert forall|k: int| 0 <= k < out@.len() implies self.resting().contains_key(#[trigger] out@[k].id)
                    && self.resting()[out@[k].id] == out@[k] && seen.contains(out@[k].id) by {
                    if k < pos {
                        assert(out@[k] == before[k]);
                    } else if k > pos {
                        assert(out@[k] == before[k - 1]);
                    }
                }
            }
            assert forall|x: u64| self.order_index@.dom().contains(x) && it.index() + 1 == it.seq().len() implies seen.contains(x) by {
                assert(it.seq().unref().to_set().contains(x));
                assert(exists|i: int| 0 <= i < it.seq().len() && it.seq().unref()[i] == x);
                assert(forall|i: int| 0 <= i < it.seq().len() ==> it.seq().unref()[i] == *it.seq()[i]);
            }
        }
        proof {
            assert(seen =~= self.order_index@.dom());
            assert(self.resting().dom() =~= self.order_index@.dom());
            assert(by_id(out@) =~= self.resting()) by {
                assert forall|x: u64| #[trigger] self.resting().contains_key(x) implies by_id(out@).contains_key(x) by {
                    assert(seen.contains(x));
                }
                assert forall|x: u64| #[trigger] by_id(out@).contains_key(x) implies self.resting().contains_key(x)
                    && by_id(out@)[x] == self.resting()[x] by {
                    let k = choose|k: int| 0 <= k < out@.len() && out@[k].id == x;
                }
            }
            let ids = out@.map_values(|o: Order| o.id);
            assert(ids.no_duplicates());
            assert(ids.to_set() =~= seen) by {
                assert forall|x: u64| seen.contains(x) implies ids.to_set().contains(x) by {
                    let k = choose|k: int| 0 <= k < out@.len() && out@[k].id == x;
                    assert(ids[k] == x);
                }
            }
            ids.unique_seq_to_set();
        }
        out
    }

    /// Takes `fill_qty` off the order at the head of level (`side`, `price`)
    /// and returns what it has left. An order left with nothing is removed,
    /// and a level left empty is dropped with that side's best price
    /// recomputed.
    pub fn reduce_front_quantity(&mut self, side: Side, price: i64, fill_qty: u64) -> (r: Result<u64, BookError>)
        requires
            old(self).wf(),
        ensures
            final(self).wf(),
            final(self).capacity_spec() == old(self).capacity_spec(),
            !old(self).prices(side).contains(price) ==> r == Err::<u64, BookError>(BookError::PriceLevelNotFound(price)),
            old(self).prices(side).contains(price) ==> ({
                let o = old(self).resting()[old(self).queue(side, price)[0]];
                &&& fill_qty > o.quantity ==> r == Err::<u64, BookError>(
                    BookError::FillExceedsQuantity { available: o.quantity, requested: fill_qty },
                )
                &&& fill_qty <= o.quantity ==> r == Ok::<u64, BookError>((o.quantity - fill_qty) as u64)
            }),
            r is Err ==> *final(self) == *old(self),
            r matches Ok(rem) ==> ({
                let h = old(self).queue(side, price)[0];
                let o = old(self).resting()[h];
                &&& rem > 0 ==> final(self).resting() == old(self).resting().insert(h, Order { quantity: rem, ..o })
                    && forall|sd: Side, p: i64| #[trigger] final(self).queue(sd, p) == old(self).queue(sd, p)
                &&& rem == 0 ==> final(self).resting() == old(self).resting().remove(h)
                    && final(self).queue(side, price) == old(self).queue(side, price).drop_first()
                    && forall|sd: Side, p: i64| !(sd == side && p == price) ==> #[trigger] final(self).queue(sd, p) == old(self).queue(sd, p)
            }),
    {
        let level = match self.level_at(side, price) {
            Some(l) => l,
            None => {
                return Err(BookError::PriceLevelNotFound(price));
            },
        };
        let ghost pre = *self;
        let ghost s = pre.lists(side)[price];
        proof {
            assert(pre.level_ok(side, price));
            assert(pre.elem_ok(side, price, s[0]));
            if s.len() > 1 {
                assert(pre.elem_ok(side, price, s[1]));
            }
            lemma_sum_remove(pre.arena@, s, 0);
            lemma_sum_bound(pre.arena@, s.remove(0));
        }
        if level.head == ARENA_NULL {
            return Err(BookError::PriceLevelNotFound(price));
        }
        let head_idx = level.head;
        let front = *self.arena.get(head_idx);
        if fill_qty > front.quantity {
            return Err(BookError::FillExceedsQuantity { available: front.quantity, requested: fill_qty });
        }
        let remaining = front.quantity - fill_qty;
        if remaining == 0 {
            let mut level = level;
            self.arena.pop_front(&mut level);
            self.arena.dealloc(head_idx);
            self.order_index.remove(&front.id);
            if level.count == 0 {
                proof {
                    match side {
                        Side::Bid => {
                            self.bid_lists@ = self.bid_lists@.remove(price);
                        },
                        Side::Ask => {
                            self.ask_lists@ = self.ask_lists@.remove(price);
                        },
                    }
                }
                self.drop_level(side, price);
                proof {
                    assert(self.lists(side).dom() =~= self.levels(side).dom());
                }
            } else {
                self.set_level(side, price, level);
                proof {
                    match side {
                        Side::Bid => {
                            self.bid_lists@ = self.bid_lists@.insert(price, s.remove(0));
                        },
                        Side::Ask => {
                            self.ask_lists@ = self.ask_lists@.insert(price, s.remove(0));
                        },
                    }
                    assert(self.lists(side).dom() =~= pre.lists(side).dom());
                }
            }
            proof {
                assert(unlinked(pre.arena@, head_idx) =~= self.arena@.update(head_idx as int, pre.arena@[head_idx as int])) by {
                    assert(pre.arena@[head_idx as int].prev == ARENA_NULL);
                }
                assert(self.removed_from(pre, side, price, 0));
                self.lemma_remove_inv(pre, side, price, 0);
                self.lemma_wf();
                assert(pre.queue(side, price).remove(0) =~= pre.queue(side, price).drop_first());
            }
        } else {
            let mut level = level;
            self.arena.set_quantity(head_idx, remaining);
            level.qty = level.qty - fill_qty as u128;
            self.set_level(side, price, level);
            proof {
                self.lemma_reduce_inv(pre, side, price, remaining);
                self.lemma_wf();
            }
        }
        Ok(remaining)
    }

    #[verifier::spinoff_prover]
    proof fn lemma_reduce_inv(&self, pre: OrderBook, side: Side, price: i64, rem: u64)
        requires
            pre.inv(),
            pre.lists(side).contains_key(price),
            rem > 0,
            ({
                let s = pre.lists(side)[price];
                let h = s[0];
                let old_lvl = pre.levels(side)[price];
                &&& rem <= pre.arena@[h as int].quantity
                &&& self.arena.wf()
                &&& self.arena.cap() == pre.arena.cap()
                &&& self.arena.free_list() == pre.arena.free_list()
                &&& self.arena.occupied() == pre.arena.occupied()
                &&& self.arena@ == pre.arena@.update(h as int, with_quantity(pre.arena@[h as int], rem))
                &&& self.levels(side) == pre.levels(side).insert(
                    price,
                    PriceLevel { qty: (old_lvl.qty - (pre.arena@[h as int].quantity - rem)) as u128, ..old_lvl },
                )
            }),
            self.levels(other_side(side)) == pre.levels(other_side(side)),
            self.bid_lists == pre.bid_lists,
            self.ask_lists == pre.ask_lists,
            self.order_index == pre.order_index,
            self.best_bid == pre.best_bid,
            self.best_ask == pre.best_ask,
        ensures
            self.inv(),
            ({
                let h = pre.queue(side, price)[0];
                let o = pre.resting()[h];
                self.resting() == pre.resting().insert(h, Order { quantity: rem, ..o })
            }),
            forall|sd: Side, p: i64| #[trigger] self.queue(sd, p) == pre.queue(sd, p),
    {
        let s = pre.lists(side)[price];
        let h = s[0];
        let nodes = pre.arena@;
        let post = self.arena@;
        assert(pre.level_ok(side, price));
        assert(pre.elem_ok(side, price, s[0]));
        assert(h < nodes.len());
        assert forall|j: int| 0 <= j < nodes.len() && j != h implies post[j] == nodes[j] by {}
        assert forall|sd: Side, p: i64| #[trigger] self.lists(sd).contains_key(p) implies self.level_ok(sd, p) by {
            assert(pre.level_ok(sd, p));
            let s2 = pre.lists(sd)[p];
            assert(self.lists(sd)[p] == s2);
            if sd == side && p == price {
                let lvl = self.levels(sd)[p];
                assert forall|i: int| 0 <= i < s2.remove(0).len() implies nodes[s2.remove(0)[i] as int].quantity
                    == post[s2.remove(0)[i] as int].quantity by {
                    assert(s2.remove(0)[i] == s2[i + 1]);
                    assert(s2[i + 1] != s2[0]);
                    assert(pre.elem_ok(sd, p, s2[i + 1]));
                }
                lemma_sum_frame(nodes, post, s2.remove(0));
                lemma_sum_remove(nodes, s2, 0);
                lemma_sum_remove(post, s2, 0);
                assert forall|i: int| 0 <= i < s2.len() implies (#[trigger] post[s2[i] as int]).prev == (if i == 0 {
                    ARENA_NULL
                } else {
                    s2[i - 1]
                }) && post[s2[i] as int].next == (if i + 1 == s2.len() {
                    ARENA_NULL
                } else {
                    s2[i + 1]
                }) by {
                    assert(pre.elem_ok(sd, p, s2[i]));
                }
                assert(list_ok(nodes, s2, pre.levels(sd)[p]));
                assert(post[h as int].quantity == rem);
                assert(sum_qty(post, s2) == sum_qty(nodes, s2) - (nodes[h as int].quantity - rem));
                lemma_sum_bound(nodes, s2.remove(0));
                assert(lvl.qty == sum_qty(post, s2));
                assert(list_ok(post, s2, lvl));
                assert forall|i: int| 0 <= i < s2.len() implies #[trigger] self.elem_ok(sd, p, s2[i]) by {
                    assert(pre.elem_ok(sd, p, s2[i]));
                }
            } else {
                assert(self.levels(sd)[p] == pre.levels(sd)[p]);
                assert forall|i: int| 0 <= i < s2.len() implies post[s2[i] as int] == nodes[s2[i] as int] by {
                    assert(pre.elem_ok(sd, p, s2[i]));
                }
                lemma_list_frame(nodes, post, s2, self.levels(sd)[p]);
                assert forall|i: int| 0 <= i < s2.len() implies #[trigger] self.elem_ok(sd, p, s2[i]) by {
                    assert(pre.elem_ok(sd, p, s2[i]));
                }
            }
        }
        assert(self.lists(Side::Bid).dom() == self.levels(Side::Bid).dom());
        assert(self.lists(Side::Ask).dom() == self.levels(Side::Ask).dom());
        assert(self.index_ok()) by {
            assert forall|i: u64| #[trigger] self.order_index@.contains_key(i) implies {
                let x = self.order_index@[i];
                let n = post[x as int];
                &&& n.id == i
                &&& self.lists(n.side).contains_key(n.price)
                &&& self.lists(n.side)[n.price].contains(x)
            } by {
                let x = pre.order_index@[i];
                let n = nodes[x as int];
                let j = choose|j: int| 0 <= j < pre.lists(n.side)[n.price].len() && pre.lists(n.side)[n.price][j] == x;
                assert(pre.level_ok(n.side, n.price));
                assert(pre.elem_ok(n.side, n.price, pre.lists(n.side)[n.price][j]));
            }
        }
        assert(pre.queue(side, price)[0] == nodes[h as int].id);
        assert forall|i: u64| #[trigger] pre.order_index@.contains_key(i) implies pre.arena.live(pre.order_index@[i]) by {
            let x = pre.order_index@[i];
            let n = nodes[x as int];
            let j = choose|j: int| 0 <= j < pre.lists(n.side)[n.price].len() && pre.lists(n.side)[n.price][j] == x;
            assert(pre.level_ok(n.side, n.price));
            assert(pre.elem_ok(n.side, n.price, pre.lists(n.side)[n.price][j]));
        }
        assert(self.resting() =~= pre.resting().insert(nodes[h as int].id, Order { quantity: rem, ..order_of(nodes[h as int]) }));
        assert forall|sd: Side, p: i64| #[trigger] self.queue(sd, p) == pre.queue(sd, p) by {
            if self.lists(sd).contains_key(p) {
                let s2 = pre.lists(sd)[p];
                assert(pre.level_ok(sd, p));
                assert forall|i: int| 0 <= i < s2.len() implies post[s2[i] as int].id == nodes[s2[i] as int].id by {
                    assert(pre.elem_ok(sd, p, s2[i]));
                }
                assert(self.queue(sd, p) =~= pre.queue(sd, p));
            }
        }
    }

    /// `self` is `pre` once the order at position `k` of level (`side`,
    /// `price`) was unlinked, deallocated and dropped from the index.
    closed spec fn removed_from(&self, pre: OrderBook, side: Side, price: i64, k: int) -> bool {
        let s = pre.lists(side)[price];
        let idx = s[k];
        let nodes = pre.arena@;
        let un = unlinked(nodes, idx);
        &&& pre.inv()
        &&& pre.lists(side).contains_key(price)
        &&& 0 <= k < s.len()
        &&& self.arena.wf()
        &&& self.arena.cap() == pre.arena.cap()
        &&& self.arena.free_list() == seq![idx] + pre.arena.free_list()
        &&& self.arena.occupied() == pre.arena.occupied() - 1
        &&& self.arena@.len() == nodes.len()
        &&& (forall|j: int| 0 <= j < nodes.len() && j != idx ==> self.arena@[j] == un[j])
        &&& order_of(self.arena@[idx as int]) == order_of(nodes[idx as int])
        &&& self.order_index@ == pre.order_index@.remove(nodes[idx as int].id)
        &&& self.lists(other_side(side)) == pre.lists(other_side(side))
        &&& self.levels(other_side(side)) == pre.levels(other_side(side))
        &&& if s.len() == 1 {
            &&& self.lists(side) == pre.lists(side).remove(price)
            &&& self.levels(side) == pre.levels(side).remove(price)
        } else {
            let lvl = self.levels(side)[price];
            let old_lvl = pre.levels(side)[price];
            &&& self.lists(side) == pre.lists(side).insert(price, s.remove(k))
            &&& self.levels(side).dom() == pre.levels(side).dom()
            &&& (forall|p: i64| p != price ==> #[trigger] self.levels(side)[p] == pre.levels(side)[p])
            &&& lvl.count == s.len() - 1
            &&& lvl.qty == old_lvl.qty - nodes[idx as int].quantity
            &&& lvl.head == (if k == 0 { s[1] } else { old_lvl.head })
            &&& lvl.tail == (if k == s.len() - 1 { s[k - 1] } else { old_lvl.tail })
        }
    }

    /// Which slots the removal touched, and how.
    #[verifier::spinoff_prover]
    proof fn lemma_remove_frame(&self, pre: OrderBook, side: Side, price: i64, k: int)
        requires
            self.removed_from(pre, side, price, k),
        ensures
            ({
                let s = pre.lists(side)[price];
                let idx = s[k];
                let nodes = pre.arena@;
                let pv = nodes[idx as int].prev;
                let nx = nodes[idx as int].next;
                &&& pre.level_ok(side, price)
                &&& pv == (if k > 0 { s[k - 1] } else { ARENA_NULL })
                &&& nx == (if k + 1 < s.len() { s[k + 1] } else { ARENA_NULL })
                &&& k > 0 ==> self.arena@[pv as int] == with_next(nodes[pv as int], nx)
                &&& k + 1 < s.len() ==> self.arena@[nx as int] == with_prev(nodes[nx as int], pv)
                &&& forall|j: int| 0 <= j < nodes.len() && j != idx && j != pv && j != nx ==> self.arena@[j] == nodes[j]
                &&& forall|x: u32| #[trigger] pre.arena.live(x) && x != idx ==> self.arena.live(x) && order_of(self.arena@[x as int]) == order_of(nodes[x as int])
            }),
    {
        let s = pre.lists(side)[price];
        let idx = s[k];
        let nodes = pre.arena@;
        let post = self.arena@;
        let pv = nodes[idx as int].prev;
        let nx = nodes[idx as int].next;
        assert(pre.level_ok(side, price));
        assert(pre.elem_ok(side, price, s[k]));
        if k > 0 && k + 1 < s.len() {
            assert(s[k - 1] != s[k + 1]);
        }
        if k > 0 {
            assert(pre.elem_ok(side, price, s[k - 1]));
            assert(pv == s[k - 1]);
            assert(pv != idx);
        } else {
            assert(pv == ARENA_NULL);
        }
        if k + 1 < s.len() {
            assert(pre.elem_ok(side, price, s[k + 1]));
            assert(nx == s[k + 1]);
            assert(nx != idx);
        } else {
            assert(nx == ARENA_NULL);
        }
        assert(idx < nodes.len());
        let s1 = if pv != ARENA_NULL {
            nodes.update(pv as int, with_next(nodes[pv as int], nx))
        } else {
            nodes
        };
        let un = if nx != ARENA_NULL {
            s1.update(nx as int, with_prev(s1[nx as int], pv))
        } else {
            s1
        };
        assert(un == unlinked(nodes, idx));
        if k > 0 {
            assert(un[pv as int] == with_next(nodes[pv as int], nx));
            assert(post[pv as int] == with_next(nodes[pv as int], nx));
        }
        if k + 1 < s.len() {
            assert(un[nx as int] == with_prev(nodes[nx as int], pv));
        }
        assert forall|j: int| 0 <= j < nodes.len() && j != idx && j != pv && j != nx implies post[j] == nodes[j] by {
            assert(post[j] == un[j]);
        }
        assert forall|x: u32| #[trigger] pre.arena.live(x) && x != idx implies self.arena.live(x) && order_of(post[x as int]) == order_of(nodes[x as int]) by {
            assert(post[x as int] == un[x as int]);
        }
    }

    /// The links of the level the order left, once it is spliced out.
    #[verifier::spinoff_prover]
    proof fn lemma_remove_links(&self, pre: OrderBook, side: Side, price: i64, k: int)
        requires
            self.removed_from(pre, side, price, k),
            pre.lists(side)[price].len() > 1,
        ensures
            ({
                let s2 = pre.lists(side)[price].remove(k);
                forall|i: int| 0 <= i < s2.len() ==> (#[trigger] self.arena@[s2[i] as int]).prev == (if i == 0 {
                    ARENA_NULL
                } else {
                    s2[i - 1]
                }) && self.arena@[s2[i] as int].next == (if i + 1 == s2.len() {
                    ARENA_NULL
                } else {
                    s2[i + 1]
                })
            }),
    {
        self.lemma_remove_frame(pre, side, price, k);
        let s = pre.lists(side)[price];
        let idx = s[k];
        let nodes = pre.arena@;
        let post = self.arena@;
        let pv = nodes[idx as int].prev;
        let nx = nodes[idx as int].next;
        let sd = side;
        let p = price;
        let s2 = s.remove(k);
        assert forall|i: int| 0 <= i < s2.len() implies (#[trigger] post[s2[i] as int]).prev == (if i == 0 {
            ARENA_NULL
        } else {
            s2[i - 1]
        }) && post[s2[i] as int].next == (if i + 1 == s2.len() {
            ARENA_NULL
        } else {
            s2[i + 1]
        }) by {
            let i1 = if i < k { i } else { i + 1 };
            assert(s2[i] == s[i1]);
            assert(pre.elem_ok(sd, p, s[i1]));
            if i > 0 {
                assert(s2[i - 1] == s[if i - 1 < k { i - 1 } else { i }]);
            }
            if i + 1 < s2.len() {
                assert(s2[i + 1] == s[if i + 1 < k { i + 1 } else { i + 2 }]);
            }
            if i1 == k - 1 {
                assert(s[i1] == pv);
            } else if i1 == k + 1 {
                assert(s[i1] == nx);
                if k > 0 {
                    assert(s[i1] != pv);
                }
            } else {
                if k > 0 {
                    assert(s[i1] != pv);
                }
                if k + 1 < s.len() {
                    assert(s[i1] != nx);
                }
                assert(s[i1] != idx);
                assert(post[s[i1] as int] == nodes[s[i1] as int]);
            }
        }
    }

    /// The level the order left still satisfies its invariant, if it is kept.
    #[verifier::rlimit(100)]
    #[verifier::spinoff_prover]
    proof fn lemma_remove_level(&self, pre: OrderBook, side: Side, price: i64, k: int)
        requires
            self.removed_from(pre, side, price, k),
            pre.lists(side)[price].len() > 1,
        ensures
            self.level_ok(side, price),
    {
        self.lemma_remove_frame(pre, side, price, k);
        let s = pre.lists(side)[price];
        let idx = s[k];
        let nodes = pre.arena@;
        let post = self.arena@;
        let id = nodes[idx as int].id;
        let pv = nodes[idx as int].prev;
        let nx = nodes[idx as int].next;
        let sd = side;
        let p = price;
        assert(pre.elem_ok(side, price, s[k]));
        let s2 = s.remove(k);
        let lvl = self.levels(sd)[p];
        assert(self.lists(sd)[p] == s2);
        assert(s2.no_duplicates()) by {
            assert forall|a: int, b: int| 0 <= a < b < s2.len() implies s2[a] != s2[b] by {
                let a1 = if a < k { a } else { a + 1 };
                let b1 = if b < k { b } else { b + 1 };
                assert(s2[a] == s[a1]);
                assert(s2[b] == s[b1]);
            }
        }
        self.lemma_remove_links(pre, side, price, k);
        assert forall|i: int| 0 <= i < s2.len() implies nodes[s2[i] as int].quantity == post[s2[i] as int].quantity by {
            let i1 = if i < k { i } else { i + 1 };
            assert(s2[i] == s[i1]);
            assert(pre.elem_ok(sd, p, s[i1]));
            assert(s[i1] != idx);
        }
        lemma_sum_frame(nodes, post, s2);
        lemma_sum_remove(nodes, s, k);
        assert(lvl.head == s2[0]);
        assert(lvl.tail == s2.last());
        assert(list_ok(post, s2, lvl));
        assert forall|i: int| 0 <= i < s2.len() implies #[trigger] self.elem_ok(sd, p, s2[i]) by {
            let i1 = if i < k { i } else { i + 1 };
            assert(s2[i] == s[i1]);
            assert(pre.elem_ok(sd, p, s[i1]));
            assert(s[i1] != idx);
            assert(nodes[s[i1] as int].id != id);
        }
    }

    #[verifier::spinoff_prover]
    proof fn lemma_remove_inv(&self, pre: OrderBook, side: Side, price: i64, k: int)
        requires
            self.removed_from(pre, side, price, k),
            is_max(self.best_bid, self.bid_lists@.dom()),
            is_min(self.best_ask, self.ask_lists@.dom()),
        ensures
            self.inv(),
            self.resting() == pre.resting().remove(pre.arena@[pre.lists(side)[price][k] as int].id),
            self.queue(side, price) == pre.queue(side, price).remove(k),
            forall|sd: Side, p: i64| !(sd == side && p == price) ==> #[trigger] self.queue(sd, p) == pre.queue(sd, p),
    {
        self.lemma_remove_frame(pre, side, price, k);
        let s = pre.lists(side)[price];
        let idx = s[k];
        let nodes = pre.arena@;
        let post = self.arena@;
        let id = nodes[idx as int].id;
        let pv = nodes[idx as int].prev;
        let nx = nodes[idx as int].next;
        assert(pre.elem_ok(side, price, s[k]));
        if k > 0 {
            assert(pre.elem_ok(side, price, s[k - 1]));
        }
        if k + 1 < s.len() {
            assert(pre.elem_ok(side, price, s[k + 1]));
        }
        assert forall|sd: Side, p: i64| #[trigger] self.lists(sd).contains_key(p) implies self.level_ok(sd, p) by {
            if sd == side && p == price {
                self.lemma_remove_level(pre, side, price, k);
            } else {
                assert(pre.lists(sd).contains_key(p));
                assert(pre.level_ok(sd, p));
                let s2 = pre.lists(sd)[p];
                assert(self.lists(sd)[p] == s2);
                assert(self.levels(sd)[p] == pre.levels(sd)[p]);
                assert forall|i: int| 0 <= i < s2.len() implies post[s2[i] as int] == nodes[s2[i] as int] by {
                    assert(pre.elem_ok(sd, p, s2[i]));
                }
                lemma_list_frame(nodes, post, s2, self.levels(sd)[p]);
                assert forall|i: int| 0 <= i < s2.len() implies #[trigger] self.elem_ok(sd, p, s2[i]) by {
                    assert(pre.elem_ok(sd, p, s2[i]));
                    assert(nodes[s2[i] as int].id != id);
                }
            }
        }
        assert(self.lists(Side::Bid).dom() == self.levels(Side::Bid).dom());
        assert(self.lists(Side::Ask).dom() == self.levels(Side::Ask).dom());
        assert forall|i: u64| #[trigger] pre.order_index@.contains_key(i) implies pre.arena.live(pre.order_index@[i]) by {
            let x = pre.order_index@[i];
            let n = nodes[x as int];
            let j = choose|j: int| 0 <= j < pre.lists(n.side)[n.price].len() && pre.lists(n.side)[n.price][j] == x;
            assert(pre.level_ok(n.side, n.price));
            assert(pre.elem_ok(n.side, n.price, pre.lists(n.side)[n.price][j]));
        }
        assert(self.index_ok()) by {
            assert forall|i: u64| #[trigger] self.order_index@.contains_key(i) implies {
                let x = self.order_index@[i];
                let n = post[x as int];
                &&& n.id == i
                &&& self.lists(n.side).contains_key(n.price)
                &&& self.lists(n.side)[n.price].contains(x)
            } by {
                let x = pre.order_index@[i];
                let n = nodes[x as int];
                assert(x != idx);
                let j = choose|j: int| 0 <= j < pre.lists(n.side)[n.price].len() && pre.lists(n.side)[n.price][j] == x;
                if n.side == side && n.price == price {
                    assert(j != k);
                    let j2 = if j < k { j } else { j - 1 };
                    assert(s.remove(k)[j2] == x);
                }
            }
        }
        assert(self.order_index@.len() == pre.order_index@.len() - 1);
        assert(self.resting() =~= pre.resting().remove(id));
        self.lemma_remove_queues(pre, side, price, k);
    }

    #[verifier::spinoff_prover]
    proof fn lemma_remove_queues(&self, pre: OrderBook, side: Side, price: i64, k: int)
        requires
            self.removed_from(pre, side, price, k),
        ensures
            self.queue(side, price) == pre.queue(side, price).remove(k),
            forall|sd: Side, p: i64| !(sd == side && p == price) ==> #[trigger] self.queue(sd, p) == pre.queue(sd, p),
    {
        self.lemma_remove_frame(pre, side, price, k);
        let s = pre.lists(side)[price];
        let idx = s[k];
        let nodes = pre.arena@;
        let post = self.arena@;
        assert forall|sd: Side, p: i64| #[trigger] self.queue(sd, p) == (if sd == side && p == price {
            pre.queue(sd, p).remove(k)
        } else {
            pre.queue(sd, p)
        }) by {
            if sd == side && p == price {
                if s.len() == 1 {
                    assert(self.queue(sd, p) =~= pre.queue(sd, p).remove(k));
                } else {
                    let s2 = s.remove(k);
                    assert forall|i: int| 0 <= i < s2.len() implies post[s2[i] as int].id == nodes[s2[i] as int].id by {
                        let i1 = if i < k { i } else { i + 1 };
                        assert(s2[i] == s[i1]);
                        assert(pre.elem_ok(sd, p, s[i1]));
                        assert(s[i1] != idx);
                    }
                    assert(self.queue(sd, p) =~= pre.queue(sd, p).remove(k));
                }
            } else if self.lists(sd).contains_key(p) {
                let s2 = self.lists(sd)[p];
                assert(pre.level_ok(sd, p));
                assert forall|i: int| 0 <= i < s2.len() implies post[s2[i] as int].id == nodes[s2[i] as int].id by {
                    assert(pre.elem_ok(sd, p, s2[i]));
                }
                assert(self.queue(sd, p) =~= pre.queue(sd, p));
            } else {
                assert(self.queue(sd, p) =~= pre.queue(sd, p));
            }
        }
    }

    fn update_best_after_insert(&mut self, side: Side, price: i64)
        ensures
            final(self).best_bid == (if side == Side::Bid {
                match old(self).best_bid {
                    Some(b) => Some(if b >= price { b } else { price }),
                    None => Some(price),
                }
            } else {
                old(self).best_bid
            }),
            final(self).best_ask == (if side == Side::Ask {
                match old(self).best_ask {
                    Some(a) => Some(if a <= price { a } else { price }),
                    None => Some(price),
                }
            } else {
                old(self).best_ask
            }),
            final(self).bids == old(self).bids,
            final(self).asks == old(self).asks,
            final(self).order_index == old(self).order_index,
            final(self).arena == old(self).arena,
            final(self).bid_lists == old(self).bid_lists,
            final(self).ask_lists == old(self).ask_lists,
    {
        match side {
            Side::Bid => {
                self.best_bid = Some(
                    match self.best_bid {
                        Some(b) => if b >= price { b } else { price },
                        None => price,
                    },
                );
            },
            Side::Ask => {
                self.best_ask = Some(
                    match self.best_ask {
                        Some(a) => if a <= price { a } else { price },
                        None => price,
                    },
                );
            },
        }
    }
}

/// The nodes once `idx` is spliced out of the list it sits in.
pub open spec fn unlinked(nodes: Seq<OrderNode>, idx: u32) -> Seq<OrderNode> {
    let p = nodes[idx as int].prev;
    let n = nodes[idx as int].next;
    let s1 = if p != ARENA_NULL {
        nodes.update(p as int, with_next(nodes[p as int], n))
    } else {
        nodes
    };
    if n != ARENA_NULL {
        s1.update(n as int, with_prev(s1[n as int], p))
    } else {
        s1
    }
}

pub proof fn lemma_list_frame(a: Seq<OrderNode>, b: Seq<OrderNode>, s: Seq<u32>, lvl: PriceLevel)
    requires
        list_ok(a, s, lvl),
        forall|i: int| 0 <= i < s.len() ==> b[s[i] as int] == a[s[i] as int],
    ensures
        list_ok(b, s, lvl),
{
    lemma_sum_frame(a, b, s);
    assert forall|i: int| 0 <= i < s.len() implies (#[trigger] b[s[i] as int]).prev == (if i == 0 {
        ARENA_NULL
    } else {
        s[i - 1]
    }) && b[s[i] as int].next == (if i + 1 == s.len() {
        ARENA_NULL
    } else {
        s[i + 1]
    }) by {
        assert(a[s[i] as int] == b[s[i] as int]);
    }
}

impl Default for OrderBook {
    fn default() -> (r: OrderBook)
        ensures
            r.wf(),
            r.resting().is_empty(),
            r.capacity_spec() == crate::arena::DEFAULT_CAPACITY,
    {
        OrderBook::new()
    }
}

/// The largest key of a side's level map.
fn max_key(m: &HashMap<i64, PriceLevel>) -> (r: Option<i64>)
    ensures
        is_max(r, m@.dom()),
{
    let mut best: Option<i64> = None;
    let ghost mut seen: Set<i64> = Set::empty();
    for k in it: m.keys()
        invariant
            it.seq().unref().to_set() == m@.dom(),
            seen.subset_of(m@.dom()),
            forall|j: int| 0 <= j < it.index() ==> seen.contains(*it.seq()[j]),
            it.index() == it.seq().len() ==> m@.dom().subset_of(seen),
            best is None ==> seen.is_empty(),
            best matches Some(b) ==> seen.contains(b) && forall|x: i64| #[trigger] seen.contains(x) ==> x <= b,
    {
        proof {
            seen = seen.insert(*k);
        }
        assert(it.seq().unref()[it.index() as int] == *k);
        assert(it.seq().unref().to_set().contains(*k));
        assert forall|x: i64| m@.dom().contains(x) && it.index() + 1 == it.seq().len() implies seen.contains(x) by {
            assert(it.seq().unref().to_set().contains(x));
            assert(exists|i: int| 0 <= i < it.seq().len() && it.seq().unref()[i] == x);
            assert(forall|i: int| 0 <= i < it.seq().len() ==> it.seq().unref()[i] == *it.seq()[i]);
        }
        best = match best {
            None => Some(*k),
            Some(b) => if *k > b { Some(*k) } else { Some(b) },
        };
    }
    proof {
        assert(m@.dom().subset_of(seen));
        assert(seen =~= m@.dom());
    }
    best
}

/// The smallest key of a side's level map.
fn min_key(m: &HashMap<i64, PriceLevel>) -> (r: Option<i64>)
    ensures
        is_min(r, m@.dom()),
{
    let mut best: Option<i64> = None;
    let ghost mut seen: Set<i64> = Set::empty();
    for k in it: m.keys()
        invariant
            it.seq().unref().to_set() == m@.dom(),
            seen.subset_of(m@.dom()),
            forall|j: int| 0 <= j < it.index() ==> seen.contains(*it.seq()[j]),
            it.index() == it.seq().len() ==> m@.dom().subset_of(seen),
            best is None ==> seen.is_empty(),
            best matches Some(b) ==> seen.contains(b) && forall|x: i64| #[trigger] seen.contains(x) ==> b <= x,
    {
        proof {
            seen = seen.insert(*k);
        }
        assert(it.seq().unref()[it.index() as int] == *k);
        assert(it.seq().unref().to_set().contains(*k));
        assert forall|x: i64| m@.dom().contains(x) && it.index() + 1 == it.seq().len() implies seen.contains(x) by {
            assert(it.seq().unref().to_set().contains(x));
            assert(exists|i: int| 0 <= i < it.seq().len() && it.seq().unref()[i] == x);
            assert(forall|i: int| 0 <= i < it.seq().len() ==> it.seq().unref()[i] == *it.seq()[i]);
        }
        best = match best {
            None => Some(*k),
            Some(b) => if *k < b { Some(*k) } else { Some(b) },
        };
    }
    proof {
        assert(m@.dom().subset_of(seen));
        assert(seen =~= m@.dom());
    }
    best
}

/// Arena occupancy equals the number of indexed orders whenever the book
/// is well formed, which every operation of the book preserves.
pub proof fn lemma_occupancy_is_index_size(book: &OrderBook)
    requires
        book.wf(),
    ensures
        book.occupancy() == book.resting().len(),
{
}

/// The cached best price of a well-formed book is the best price of its
/// model.
pub proof fn lemma_best_price(book: &OrderBook, side: Side)
    requires
        book.wf(),
    ensures
        best_price(book.model(), side) == book.best(side),
        side_levels(book.model(), side).dom() == book.prices(side),
{
    let v = book.model();
    assert(side_levels(v, side).dom() =~= book.prices(side));
    match side {
        Side::Bid => {
            assert(is_max(book.best(Side::Bid), v.bids.dom()));
            let b = choose|b: Option<i64>| is_max(b, v.bids.dom());
            lemma_max_unique(b, book.best(Side::Bid), v.bids.dom());
        },
        Side::Ask => {
            assert(is_min(book.best(Side::Ask), v.asks.dom()));
            let b = choose|b: Option<i64>| is_min(b, v.asks.dom());
            lemma_min_unique(b, book.best(Side::Ask), v.asks.dom());
        },
    }
}

/// Two well-formed books with the same resting orders and the same queues
/// have the same model.
pub proof fn lemma_model_eq(a: &OrderBook, b: &OrderBook)
    requires
        a.wf(),
        b.wf(),
        a.resting() == b.resting(),
        forall|sd: Side, p: i64| #[trigger] a.queue(sd, p) == b.queue(sd, p),
    ensures
        a.model() == b.model(),
{
    assert forall|sd: Side, p: i64| #[trigger] a.prices(sd).contains(p) == b.prices(sd).contains(p) by {
        assert(a.queue(sd, p) == b.queue(sd, p));
    }
    assert(a.model().bids =~= b.model().bids);
    assert(a.model().asks =~= b.model().asks);
}

/// Two well-formed books with the same queues on a side have the same
/// levels on that side.
pub proof fn lemma_levels_eq(a: &OrderBook, b: &OrderBook, side: Side)
    requires
        a.wf(),
        b.wf(),
        forall|p: i64| #[trigger] a.queue(side, p) == b.queue(side, p),
    ensures
        side_levels(a.model(), side) == side_levels(b.model(), side),
{
    assert forall|p: i64| #[trigger] a.prices(side).contains(p) == b.prices(side).contains(p) by {
        assert(a.queue(side, p) == b.queue(side, p));
    }
    assert(side_levels(a.model(), side) =~= side_levels(b.model(), side));
}

} // verus!
