use vstd::prelude::*;

use crate::book::{
    best_price, lemma_best_price, lemma_max_subset, lemma_max_unique, lemma_min_subset, lemma_min_unique,
    lemma_levels_eq, lemma_model_eq, side_levels, with_side_levels, BookError, BookView, OrderBook,
};
use crate::order::{Order, Side};
use crate::protocol::EngineCommand;

verus! {

/// One execution between an incoming order (taker) and a resting one (maker).
#[derive(Debug, Clone, Copy, PartialEq, Eq, Structural)]
pub struct Fill {
    pub taker_order_id: u64,
    pub maker_order_id: u64,
    pub price: i64,
    pub quantity: u64,
    pub maker_fully_filled: bool,
}

#[derive(Debug, Clone, Copy, PartialEq, Eq, Structural)]
pub enum OrderStatus {
    FullyFilled,
    PartiallyFilled,
    Resting,
    CancelledSelfTrade,
}

#[derive(Debug, Clone, PartialEq, Eq)]
pub struct AddOrderResult {
    pub order_id: u64,
    pub status: OrderStatus,
    pub fills: Vec<Fill>,
}

#[derive(Debug, Clone, Copy, PartialEq, Eq, Structural)]
pub enum MatchingError {
    Book(BookError),
    ZeroQuantity,
}

const FILLS_INITIAL_CAPACITY: usize = 16;

pub open spec fn opposite(side: Side) -> Side {
    match side {
        Side::Bid => Side::Ask,
        Side::Ask => Side::Bid,
    }
}

/// A resting price `p` on the other side is marketable for a `side` order
/// limited at `limit`.
pub open spec fn crosses(side: Side, limit: i64, p: i64) -> bool {
    match side {
        Side::Bid => p <= limit,
        Side::Ask => p >= limit,
    }
}

/// `a` is at least as good a price as `b` for a `side` taker.
pub open spec fn no_worse(side: Side, a: i64, b: i64) -> bool {
    match side {
        Side::Bid => a <= b,
        Side::Ask => a >= b,
    }
}

/// Either side is empty or the best bid is below the best ask.
pub open spec fn uncrossed(book: &OrderBook) -> bool {
    match (book.best(Side::Bid), book.best(Side::Ask)) {
        (Some(b), Some(a)) => b < a,
        _ => true,
    }
}

/// Total quantity of a run of fills.
pub open spec fn filled(fills: Seq<Fill>) -> int
    decreases fills.len(),
{
    if fills.len() == 0 {
        0
    } else {
        filled(fills.drop_last()) + fills.last().quantity
    }
}

/// The head of the best opposite level, which an incoming `order` would
/// trade with next, belongs to the same trader.
pub open spec fn blocked_by_self_trade(book: &OrderBook, order: Order) -> bool {
    let opp = opposite(order.side);
    match book.best(opp) {
        Some(p) => crosses(order.side, order.price, p) && book.resting()[book.queue(opp, p)[0]].trader_id
            == order.trader_id,
        None => false,
    }
}

/// No resting price on the other side is marketable for `order`.
pub open spec fn no_cross_for(book: &OrderBook, order: Order) -> bool {
    match book.best(opposite(order.side)) {
        Some(p) => !crosses(order.side, order.price, p),
        None => true,
    }
}

/// What every fill of an `add_order` call for `order` satisfies, against the
/// book as it was before the call.
pub open spec fn fill_ok(f: Fill, order: Order, before: Map<u64, Order>) -> bool {
    &&& f.taker_order_id == order.id
    &&& f.quantity > 0
    &&& crosses(order.side, order.price, f.price)
    &&& before.contains_key(f.maker_order_id)
    &&& before[f.maker_order_id].trader_id != order.trader_id
    &&& before[f.maker_order_id].price == f.price
    &&& before[f.maker_order_id].side == opposite(order.side)
    &&& f.quantity <= before[f.maker_order_id].quantity
    &&& (f.maker_fully_filled <==> f.quantity == before[f.maker_order_id].quantity)
}

/// The book once `f` is taken off the order at the head of level
/// (`side`, `p`): a maker left with nothing leaves its level, and an
/// emptied level goes.
pub open spec fn take_from_head(v: BookView, side: Side, p: i64, f: nat) -> BookView {
    let q = side_levels(v, side)[p];
    let h = q[0];
    let m = v.resting[h];
    if f >= m.quantity {
        let levels = if q.len() == 1 {
            side_levels(v, side).remove(p)
        } else {
            side_levels(v, side).insert(p, q.drop_first())
        };
        with_side_levels(BookView { resting: v.resting.remove(h), ..v }, side, levels)
    } else {
        BookView { resting: v.resting.insert(h, Order { quantity: (m.quantity - f) as u64, ..m }), ..v }
    }
}

/// Matching `o` with `q` still to fill against `v`: the fills, the book
/// left, the quantity left, and whether a self-trade stopped it.
pub open spec fn match_from(v: BookView, o: Order, q: nat) -> (Seq<Fill>, BookView, nat, bool)
    decreases q,
{
    let opp = opposite(o.side);
    if q == 0 {
        (Seq::empty(), v, 0, false)
    } else {
        match best_price(v, opp) {
            None => (Seq::empty(), v, q, false),
            Some(p) => {
                if !crosses(o.side, o.price, p) || !side_levels(v, opp).contains_key(p) || side_levels(
                    v,
                    opp,
                )[p].len() == 0 {
                    (Seq::empty(), v, q, false)
                } else {
                    let h = side_levels(v, opp)[p][0];
                    let m = v.resting[h];
                    if m.trader_id == o.trader_id {
                        (Seq::empty(), v, q, true)
                    } else {
                        let f: nat = if q < m.quantity { q } else { m.quantity as nat };
                        if f == 0 {
                            (Seq::empty(), v, q, false)
                        } else {
                            let fill = Fill {
                                taker_order_id: o.id,
                                maker_order_id: h,
                                price: m.price,
                                quantity: f as u64,
                                maker_fully_filled: f == m.quantity,
                            };
                            let r = match_from(take_from_head(v, opp, p, f), o, (q - f) as nat);
                            (seq![fill] + r.0, r.1, r.2, r.3)
                        }
                    }
                }
            },
        }
    }
}

/// The book with `o` resting at the tail of its level.
pub open spec fn rest_order(v: BookView, o: Order) -> BookView {
    let levels = side_levels(v, o.side);
    let q = if levels.contains_key(o.price) { levels[o.price] } else { Seq::empty() };
    with_side_levels(BookView { resting: v.resting.insert(o.id, o), ..v }, o.side, levels.insert(o.price, q.push(o.id)))
}

/// What adding `o` to a book `v` that holds at most `capacity` orders
/// gives: the fills, the status, the book after, and whether it succeeds
/// (it fails when the residual cannot rest, its id resting already or the
/// book being full; the fills made stay made).
pub open spec fn match_outcome(v: BookView, o: Order, capacity: nat) -> (Seq<Fill>, OrderStatus, BookView, bool) {
    let (fills, left, rest, self_trade) = match_from(v, o, o.quantity as nat);
    if self_trade {
        (fills, OrderStatus::CancelledSelfTrade, left, true)
    } else if rest == 0 {
        (fills, OrderStatus::FullyFilled, left, true)
    } else if left.resting.contains_key(o.id) || left.resting.len() >= capacity {
        (fills, OrderStatus::Resting, left, false)
    } else {
        (
            fills,
            if fills.len() == 0 { OrderStatus::Resting } else { OrderStatus::PartiallyFilled },
            rest_order(left, Order { quantity: rest as u64, ..o }),
            true,
        )
    }
}

/// One round of matching as the engine runs it: the head of the best
/// opposite level is another trader's, the fill takes what it can, and the
/// book after is `before` with that taken off the head.
proof fn lemma_match_step(before: OrderBook, after: OrderBook, order: Order, q: nat, p: i64, fill: Fill)
    requires
        before.wf(),
        after.wf(),
        q > 0,
        before.best(opposite(order.side)) == Some(p),
        crosses(order.side, order.price, p),
        ({
            let opp = opposite(order.side);
            let h = before.queue(opp, p)[0];
            let m = before.resting()[h];
            let f: nat = if q < m.quantity { q } else { m.quantity as nat };
            &&& m.trader_id != order.trader_id
            &&& fill == (Fill {
                taker_order_id: order.id,
                maker_order_id: h,
                price: m.price,
                quantity: f as u64,
                maker_fully_filled: f == m.quantity,
            })
            &&& f > 0
            &&& f < m.quantity ==> after.resting() == before.resting().insert(h, Order { quantity: (m.quantity - f) as u64, ..m })
                && forall|sd: Side, p2: i64| #[trigger] after.queue(sd, p2) == before.queue(sd, p2)
            &&& f == m.quantity ==> after.resting() == before.resting().remove(h)
                && after.queue(opp, p) == before.queue(opp, p).drop_first()
                && forall|sd: Side, p2: i64| !(sd == opp && p2 == p) ==> #[trigger] after.queue(sd, p2) == before.queue(sd, p2)
        }),
    ensures
        ({
            let r = match_from(after.model(), order, (q - fill.quantity) as nat);
            match_from(before.model(), order, q) == (seq![fill] + r.0, r.1, r.2, r.3)
        }),
{
    let opp = opposite(order.side);
    let v = before.model();
    lemma_best_price(&before, opp);
    assert(before.prices(opp).contains(p));
    assert(side_levels(v, opp)[p] == before.queue(opp, p));
    let h = before.queue(opp, p)[0];
    let m = before.resting()[h];
    let f: nat = if q < m.quantity { q } else { m.quantity as nat };
    let w = take_from_head(v, opp, p, f);
    lemma_levels_eq_other(&before, &after, order);
    if f < m.quantity {
        lemma_levels_eq(&before, &after, opp);
        assert(after.model() =~= w) by {
            assert(after.model().resting =~= w.resting);
            assert(side_levels(after.model(), opp) == side_levels(w, opp));
        }
    } else {
        let q0 = before.queue(opp, p);
        assert(side_levels(after.model(), opp) =~= side_levels(w, opp)) by {
            assert forall|p2: i64| #[trigger] side_levels(after.model(), opp).contains_key(p2) <==> side_levels(w, opp).contains_key(p2) by {
                if p2 != p {
                    assert(after.queue(opp, p2) == before.queue(opp, p2));
                }
            }
            assert forall|p2: i64| #[trigger] side_levels(after.model(), opp).contains_key(p2) implies side_levels(after.model(), opp)[p2]
                == side_levels(w, opp)[p2] by {
                if p2 != p {
                    assert(after.queue(opp, p2) == before.queue(opp, p2));
                }
            }
        }
        assert(after.model().resting =~= w.resting);
        assert(after.model() =~= w);
    }
}

/// The side a taker rests on is untouched by a round of matching.
proof fn lemma_levels_eq_other(before: &OrderBook, after: &OrderBook, order: Order)
    requires
        before.wf(),
        after.wf(),
        forall|p2: i64| #[trigger] after.queue(order.side, p2) == before.queue(order.side, p2),
    ensures
        side_levels(after.model(), order.side) == side_levels(before.model(), order.side),
{
    lemma_levels_eq(after, before, order.side);
}

/// Resting an order as the book's insert does it is `rest_order` on the
/// model.
pub proof fn lemma_rest_step(before: &OrderBook, after: &OrderBook, o: Order)
    requires
        before.wf(),
        after.wf(),
        after.resting() == before.resting().insert(o.id, o),
        after.queue(o.side, o.price) == before.queue(o.side, o.price).push(o.id),
        after.prices(o.side) == before.prices(o.side).insert(o.price),
        forall|sd: Side, p: i64| !(sd == o.side && p == o.price) ==> #[trigger] after.queue(sd, p) == before.queue(sd, p),
    ensures
        after.model() == rest_order(before.model(), o),
{
    let w = rest_order(before.model(), o);
    lemma_levels_eq(before, after, opposite(o.side));
    assert(side_levels(after.model(), o.side) =~= side_levels(w, o.side)) by {
        assert forall|p2: i64| #[trigger] side_levels(after.model(), o.side).contains_key(p2) <==> side_levels(w, o.side).contains_key(p2) by {
            if p2 != o.price {
                assert(after.queue(o.side, p2) == before.queue(o.side, p2));
            }
        }
        assert forall|p2: i64| #[trigger] side_levels(after.model(), o.side).contains_key(p2) implies side_levels(after.model(), o.side)[p2]
            == side_levels(w, o.side)[p2] by {
            if p2 != o.price {
                assert(after.queue(o.side, p2) == before.queue(o.side, p2));
            }
        }
    }
    assert(after.model() =~= w);
}

/// The book without resting order `id`: it leaves its level's queue, and
/// an emptied level goes.
pub open spec fn cancel_view(v: BookView, id: u64) -> BookView {
    let o = v.resting[id];
    let levels = side_levels(v, o.side);
    let q = levels[o.price];
    let k = choose|k: int| 0 <= k < q.len() && q[k] == id;
    let q2 = q.remove(k);
    let levels2 = if q2.len() == 0 { levels.remove(o.price) } else { levels.insert(o.price, q2) };
    with_side_levels(BookView { resting: v.resting.remove(id), ..v }, o.side, levels2)
}

/// Removing an order as the book's cancel does it is `cancel_view` on the
/// model.
proof fn lemma_cancel_step(before: &OrderBook, after: &OrderBook, id: u64, k: int)
    requires
        before.wf(),
        after.wf(),
        before.resting().contains_key(id),
        ({
            let o = before.resting()[id];
            &&& 0 <= k < before.queue(o.side, o.price).len()
            &&& before.queue(o.side, o.price)[k] == id
            &&& after.queue(o.side, o.price) == before.queue(o.side, o.price).remove(k)
            &&& forall|sd: Side, p: i64| !(sd == o.side && p == o.price) ==> #[trigger] after.queue(sd, p) == before.queue(sd, p)
        }),
        after.resting() == before.resting().remove(id),
    ensures
        after.model() == cancel_view(before.model(), id),
{
    let o = before.resting()[id];
    let v = before.model();
    let w = cancel_view(v, id);
    let q = before.queue(o.side, o.price);
    assert(before.prices(o.side).contains(o.price));
    assert(side_levels(v, o.side)[o.price] == q);
    let k2 = choose|k2: int| 0 <= k2 < q.len() && q[k2] == id;
    assert(q.no_duplicates());
    assert(k2 == k);
    lemma_levels_eq(before, after, opposite(o.side));
    assert(side_levels(after.model(), o.side) =~= side_levels(w, o.side)) by {
        assert forall|p2: i64| #[trigger] side_levels(after.model(), o.side).contains_key(p2) <==> side_levels(w, o.side).contains_key(p2) by {
            if p2 != o.price {
                assert(after.queue(o.side, p2) == before.queue(o.side, p2));
            }
        }
        assert forall|p2: i64| #[trigger] side_levels(after.model(), o.side).contains_key(p2) implies side_levels(after.model(), o.side)[p2]
            == side_levels(w, o.side)[p2] by {
            if p2 != o.price {
                assert(after.queue(o.side, p2) == before.queue(o.side, p2));
            }
        }
    }
    assert(after.model() =~= w);
}

/// The book after applying one logged command, errors ignored.
pub open spec fn replay_step(v: BookView, cmd: EngineCommand, capacity: nat) -> BookView {
    match cmd {
        EngineCommand::NewOrder(o) => if o.quantity == 0 { v } else { match_outcome(v, o, capacity).2 },
        EngineCommand::CancelOrder { order_id } => if v.resting.contains_key(order_id) {
            cancel_view(v, order_id)
        } else {
            v
        },
    }
}

/// A book with no orders.
pub open spec fn empty_view() -> BookView {
    BookView { resting: Map::empty(), bids: Map::empty(), asks: Map::empty() }
}

/// The book after resting each of `orders` in turn.
pub open spec fn rest_all(v: BookView, orders: Seq<Order>) -> BookView
    decreases orders.len(),
{
    if orders.len() == 0 {
        v
    } else {
        rest_order(rest_all(v, orders.drop_last()), orders.last())
    }
}

/// An empty well-formed book has the empty model.
pub proof fn lemma_empty_model(book: &OrderBook)
    requires
        book.wf(),
        book.resting().is_empty(),
    ensures
        book.model() == empty_view(),
{
    assert forall|sd: Side, p: i64| !#[trigger] book.prices(sd).contains(p) by {
        if book.prices(sd).contains(p) {
            assert(book.queue(sd, p).len() > 0);
            assert(book.resting().contains_key(book.queue(sd, p)[0]));
        }
    }
    assert(book.model().resting =~= Map::empty());
    assert(book.model().bids =~= Map::empty());
    assert(book.model().asks =~= Map::empty());
}

/// Matching conserves quantity: what the fills take plus what is left is
/// what there was to fill; every fill takes something, from another
/// trader's order; and a self-trade stop leaves something unfilled.
pub proof fn lemma_match_conserves(v: BookView, o: Order, q: nat)
    ensures
        ({
            let r = match_from(v, o, q);
            &&& filled(r.0) + r.2 == q
            &&& r.3 ==> r.2 > 0
            &&& forall|i: int| 0 <= i < r.0.len() ==> (#[trigger] r.0[i]).quantity > 0 && r.0[i].taker_order_id == o.id
        }),
    decreases q,
{
    let r = match_from(v, o, q);
    let opp = opposite(o.side);
    if q > 0 {
        if let Some(p) = best_price(v, opp) {
            if crosses(o.side, o.price, p) && side_levels(v, opp).contains_key(p) && side_levels(v, opp)[p].len() > 0 {
                let h = side_levels(v, opp)[p][0];
                let m = v.resting[h];
                if m.trader_id != o.trader_id {
                    let f: nat = if q < m.quantity { q } else { m.quantity as nat };
                    if f > 0 {
                        let rest = match_from(take_from_head(v, opp, p, f), o, (q - f) as nat);
                        lemma_match_conserves(take_from_head(v, opp, p, f), o, (q - f) as nat);
                        let fill = Fill {
                            taker_order_id: o.id,
                            maker_order_id: h,
                            price: m.price,
                            quantity: f as u64,
                            maker_fully_filled: f == m.quantity,
                        };
                        lemma_filled_prepend(fill, rest.0);
                        assert forall|i: int| 0 <= i < r.0.len() implies (#[trigger] r.0[i]).quantity > 0 && r.0[i].taker_order_id
                            == o.id by {
                            if i > 0 {
                                assert(r.0[i] == rest.0[i - 1]);
                            }
                        }
                    }
                }
            }
        }
    }
}

proof fn lemma_filled_prepend(f: Fill, fs: Seq<Fill>)
    ensures
        filled(seq![f] + fs) == f.quantity + filled(fs),
    decreases fs.len(),
{
    if fs.len() == 0 {
        assert(seq![f] + fs =~= seq![f]);
        assert(seq![f].drop_last() =~= Seq::<Fill>::empty());
        assert(seq![f].last() == f);
        assert(filled(seq![f]) == filled(Seq::<Fill>::empty()) + f.quantity);
    } else {
        lemma_filled_prepend(f, fs.drop_last());
        assert((seq![f] + fs).drop_last() =~= seq![f] + fs.drop_last());
        assert((seq![f] + fs).last() == fs.last());
        assert(filled(seq![f] + fs) == filled((seq![f] + fs).drop_last()) + (seq![f] + fs).last().quantity);
    }
}

/// Price–time priority engine over one book.
pub struct MatchingEngine {
    book: OrderBook,
    fills_buf: Vec<Fill>,
}

impl MatchingEngine {
    pub closed spec fn book_spec(&self) -> &OrderBook {
        &self.book
    }

    /// What holds of the engine between any two calls: the book is well
    /// formed and never crossed.
    pub open spec fn wf(&self) -> bool {
        &&& self.book_spec().wf()
        &&& uncrossed(self.book_spec())
    }

    pub fn new() -> (r: MatchingEngine)
        ensures
            r.wf(),
            r.book_spec().resting().is_empty(),
    {
        MatchingEngine { book: OrderBook::new(), fills_buf: Vec::with_capacity(FILLS_INITIAL_CAPACITY) }
    }

    pub fn with_capacity(arena_capacity: u32) -> (r: MatchingEngine)
        ensures
            r.wf(),
            r.book_spec().resting().is_empty(),
            r.book_spec().capacity_spec() == arena_capacity,
            r.book_spec().model() == empty_view(),
    {
        let book = OrderBook::with_capacity(arena_capacity);
        proof {
            lemma_empty_model(&book);
            assert(book.prices(Side::Bid).is_empty());
            assert(book.best(Side::Bid) is None);
        }
        MatchingEngine { book, fills_buf: Vec::with_capacity(FILLS_INITIAL_CAPACITY) }
    }

    /// An engine over a book that is well formed and not crossed.
    pub fn from_book(book: OrderBook) -> (r: MatchingEngine)
        requires
            book.wf(),
            uncrossed(&book),
        ensures
            r.wf(),
            *r.book_spec() == book,
    {
        MatchingEngine { book, fills_buf: Vec::with_capacity(FILLS_INITIAL_CAPACITY) }
    }

    pub fn book(&self) -> (r: &OrderBook)
        ensures
            r == self.book_spec(),
    {
        &self.book
    }

    /// Matches `order` against the opposite side and rests any residual.
    ///
    /// Fills come best price first and, within a price, oldest order first,
    /// each at the resting order's price. Matching stops when the order is
    /// filled, when no resting price is marketable, or when the next resting
    /// order belongs to the same trader; in that last case the residual is
    /// cancelled and the fills made so far are kept.
    pub fn add_order(&mut self, order: Order) -> (r: Result<AddOrderResult, MatchingError>)
        requires
            old(self).wf(),
        ensures
            final(self).wf(),
            final(self).book_spec().capacity_spec() == old(self).book_spec().capacity_spec(),
            order.quantity == 0 ==> r == Err::<AddOrderResult, MatchingError>(MatchingError::ZeroQuantity)
                && *final(self) == *old(self),
            r matches Err(e) ==> order.quantity == 0 || e == MatchingError::Book(BookError::DuplicateOrderId(order.id))
                || e == MatchingError::Book(BookError::ArenaFull),
            order.quantity > 0 && !old(self).book_spec().resting().contains_key(order.id)
                && old(self).book_spec().resting().len() < old(self).book_spec().capacity_spec() ==> r is Ok,
            order.quantity > 0 ==> ({
                let out = match_outcome(old(self).book_spec().model(), order, old(self).book_spec().capacity_spec());
                &&& out.3 ==> (r matches Ok(res) && res.fills@ == out.0 && res.status == out.1)
                &&& !out.3 ==> r is Err
                &&& final(self).book_spec().model() == out.2
            }),
            r matches Ok(res) ==> {
                let fills = res.fills@;
                let rest = order.quantity - filled(fills);
                &&& order.quantity > 0
                &&& res.order_id == order.id
                &&& 0 <= rest
                &&& forall|i: int| 0 <= i < fills.len() ==> fill_ok(#[trigger] fills[i], order, old(self).book_spec().resting())
                &&& forall|i: int, j: int| 0 <= i < j < fills.len() ==> no_worse(order.side, fills[i].price, fills[j].price)
                &&& (res.status == OrderStatus::FullyFilled <==> rest == 0)
                &&& res.status == OrderStatus::CancelledSelfTrade ==> blocked_by_self_trade(final(self).book_spec(), order)
                &&& (res.status == OrderStatus::Resting || res.status == OrderStatus::PartiallyFilled) ==> {
                    &&& final(self).book_spec().resting().contains_key(order.id)
                    &&& final(self).book_spec().resting()[order.id] == (Order { quantity: rest as u64, ..order })
                    &&& (res.status == OrderStatus::Resting <==> fills.len() == 0)
                }
                &&& res.status != OrderStatus::FullyFilled && res.status != OrderStatus::CancelledSelfTrade
                    ==> no_cross_for(old(self).book_spec(), order) || fills.len() > 0
            },
    {
        if order.quantity == 0 {
            return Err(MatchingError::ZeroQuantity);
        }
        self.fills_buf.clear();
        let ghost pre = self.book;
        let ghost before = self.book.resting();
        let order_id = order.id;
        let side = order.side;
        let opp = match side {
            Side::Bid => Side::Ask,
            Side::Ask => Side::Bid,
        };
        let mut remaining = order.quantity;
        let mut self_trade = false;
        proof {
            assert(Seq::<Fill>::empty() + match_from(pre.model(), order, order.quantity as nat).0 =~= match_from(
                pre.model(),
                order,
                order.quantity as nat,
            ).0);
        }
        while remaining > 0
            invariant_except_break
                !self_trade,
            invariant
                self.book.wf(),
                uncrossed(&self.book),
                self.book.capacity_spec() == pre.capacity_spec(),
                opp == opposite(side),
                side == order.side,
                order_id == order.id,
                remaining + filled(self.fills_buf@) == order.quantity,
                self.book.prices(side) == pre.prices(side),
                self.book.prices(opp).subset_of(pre.prices(opp)),
                forall|id: u64| #[trigger] self.book.resting().contains_key(id) ==> before.contains_key(id)
                    && self.book.resting()[id].trader_id == before[id].trader_id
                    && self.book.resting()[id].price == before[id].price
                    && self.book.resting()[id].side == before[id].side,
                remaining > 0 ==> forall|id: u64| #[trigger] self.book.resting().contains_key(id)
                    ==> self.book.resting()[id].quantity == before[id].quantity,
                forall|i: int| 0 <= i < self.fills_buf@.len() ==> fill_ok(#[trigger] self.fills_buf@[i], order, before),
                forall|i: int, j: int| 0 <= i < j < self.fills_buf@.len() ==> no_worse(side, self.fills_buf@[i].price, self.fills_buf@[j].price),
                forall|i: int| 0 <= i < self.fills_buf@.len() ==> (self.book.best(opp) matches Some(p) ==> no_worse(side, #[trigger] self.fills_buf@[i].price, p)),
                self.fills_buf@.len() == 0 ==> self.book == pre,
                ({
                    let out = match_from(pre.model(), order, order.quantity as nat);
                    let cur = match_from(self.book.model(), order, remaining as nat);
                    &&& out.0 == self.fills_buf@ + cur.0
                    &&& out.1 == cur.1
                    &&& out.2 == cur.2
                    &&& out.3 == cur.3
                }),
            ensures
                match_from(self.book.model(), order, remaining as nat) == (Seq::<Fill>::empty(), self.book.model(), remaining as nat, self_trade),
                self_trade ==> remaining > 0 && blocked_by_self_trade(&self.book, order),
                !self_trade ==> remaining == 0 || no_cross_for(&self.book, order),
            decreases remaining,
        {
            proof {
                lemma_best_price(&self.book, opp);
            }
            let ghost q_now = remaining as nat;
            let best = match opp {
                Side::Bid => self.book.best_bid(),
                Side::Ask => self.book.best_ask(),
            };
            let level_price = match best {
                Some(p) => {
                    let marketable = match side {
                        Side::Bid => p <= order.price,
                        Side::Ask => p >= order.price,
                    };
                    if !marketable {
                        break;
                    }
                    p
                },
                None => {
                    break;
                },
            };
            let maker = match self.book.peek_front(opp, level_price) {
                Some(m) => *m,
                None => {
                    break;
                },
            };
            let ghost head = self.book.queue(opp, level_price)[0];
            proof {
                assert(self.book.prices(opp).contains(level_price));
                assert(self.book.resting().contains_key(head));
                assert(side_levels(self.book.model(), opp)[level_price] == self.book.queue(opp, level_price));
            }
            if maker.trader_id == order.trader_id {
                self_trade = true;
                break;
            }
            let fill_qty = if remaining < maker.quantity {
                remaining
            } else {
                maker.quantity
            };
            let maker_id = maker.id;
            let fill_price = maker.price;
            let ghost book_before = self.book;
            let maker_remaining = match self.book.reduce_front_quantity(opp, level_price, fill_qty) {
                Ok(q) => q,
                Err(e) => {
                    return Err(MatchingError::Book(e));
                },
            };
            let ghost fills_before = self.fills_buf@;
            self.fills_buf.push(
                Fill {
                    taker_order_id: order.id,
                    maker_order_id: maker_id,
                    price: fill_price,
                    quantity: fill_qty,
                    maker_fully_filled: maker_remaining == 0,
                },
            );
            remaining = remaining - fill_qty;
            proof {
                assert(self.fills_buf@.drop_last() == fills_before);
                let fill = self.fills_buf@.last();
                assert(self.fills_buf@ == fills_before.push(fill));
                lemma_match_step(book_before, self.book, order, q_now, level_price, fill);
                let r = match_from(self.book.model(), order, remaining as nat);
                assert(fills_before + (seq![fill] + r.0) =~= self.fills_buf@ + r.0);
                // The taker's side is untouched, the other side only loses prices.
                assert forall|p: i64| #[trigger] self.book.prices(side).contains(p) <==> book_before.prices(side).contains(p) by {
                    assert(self.book.queue(side, p) == book_before.queue(side, p));
                }
                assert(self.book.prices(side) =~= book_before.prices(side));
                assert forall|p: i64| #[trigger] self.book.prices(opp).contains(p) implies book_before.prices(opp).contains(p) by {
                    if p != level_price {
                        assert(self.book.queue(opp, p) == book_before.queue(opp, p));
                    }
                }
                match side {
                    Side::Bid => {
                        lemma_max_unique(self.book.best(Side::Bid), book_before.best(Side::Bid), self.book.prices(Side::Bid));
                        lemma_min_subset(book_before.best(Side::Ask), book_before.prices(Side::Ask), self.book.best(Side::Ask), self.book.prices(Side::Ask));
                    },
                    Side::Ask => {
                        lemma_min_unique(self.book.best(Side::Ask), book_before.best(Side::Ask), self.book.prices(Side::Ask));
                        lemma_max_subset(book_before.best(Side::Bid), book_before.prices(Side::Bid), self.book.best(Side::Bid), self.book.prices(Side::Bid));
                    },
                }
                assert(book_before.resting()[head].trader_id != order.trader_id);
                assert(before.contains_key(head));
            }
        }
        let status = if self_trade {
            OrderStatus::CancelledSelfTrade
        } else if remaining == 0 {
            OrderStatus::FullyFilled
        } else {
            let ghost book_before = self.book;
            proof {
                assert(self.book.resting().dom().subset_of(before.dom()));
                vstd::set_lib::lemma_len_subset(self.book.resting().dom(), before.dom());
            }
            let residual = Order { quantity: remaining, ..order };
            match self.book.insert_order(residual) {
                Ok(()) => {},
                Err(e) => {
                    return Err(MatchingError::Book(e));
                },
            }
            proof {
                lemma_rest_step(&book_before, &self.book, residual);
                assert forall|p: i64| #[trigger] self.book.prices(opp).contains(p) <==> book_before.prices(opp).contains(p) by {
                    assert(self.book.queue(opp, p) == book_before.queue(opp, p));
                }
                assert(self.book.prices(opp) =~= book_before.prices(opp));
                match side {
                    Side::Bid => {
                        lemma_min_unique(self.book.best(Side::Ask), book_before.best(Side::Ask), self.book.prices(Side::Ask));
                    },
                    Side::Ask => {
                        lemma_max_unique(self.book.best(Side::Bid), book_before.best(Side::Bid), self.book.prices(Side::Bid));
                    },
                }
            }
            if self.fills_buf.len() == 0 {
                OrderStatus::Resting
            } else {
                OrderStatus::PartiallyFilled
            }
        };
        let mut fills: Vec<Fill> = Vec::with_capacity(FILLS_INITIAL_CAPACITY);
        std::mem::swap(&mut fills, &mut self.fills_buf);
        Ok(AddOrderResult { order_id, status, fills })
    }

    /// Cancels a resting order; the book's error comes back unchanged.
    pub fn cancel_order(&mut self, order_id: u64) -> (r: Result<Order, MatchingError>)
        requires
            old(self).wf(),
        ensures
            final(self).wf(),
            final(self).book_spec().capacity_spec() == old(self).book_spec().capacity_spec(),
            old(self).book_spec().resting().contains_key(order_id) <==> r is Ok,
            r is Err ==> r == Err::<Order, MatchingError>(MatchingError::Book(BookError::OrderNotFound(order_id)))
                && *final(self) == *old(self),
            r matches Ok(o) ==> o == old(self).book_spec().resting()[order_id] && final(self).book_spec().resting()
                == old(self).book_spec().resting().remove(order_id),
            r is Ok ==> final(self).book_spec().model() == cancel_view(old(self).book_spec().model(), order_id),
            r matches Ok(o) ==> exists|k: int|
                0 <= k < old(self).book_spec().queue(o.side, o.price).len() && old(self).book_spec().queue(o.side, o.price)[k]
                    == order_id && final(self).book_spec().queue(o.side, o.price) == old(self).book_spec().queue(o.side, o.price).remove(k),
            r matches Ok(o) ==> forall|sd: Side, p: i64| !(sd == o.side && p == o.price) ==> #[trigger] final(self).book_spec().queue(sd, p)
                == old(self).book_spec().queue(sd, p),
    {
        let ghost pre = self.book;
        match self.book.cancel_order(order_id) {
            Ok(o) => {
                proof {
                    let k = choose|k: int|
                        0 <= k < pre.queue(o.side, o.price).len() && pre.queue(o.side, o.price)[k] == order_id
                            && self.book.queue(o.side, o.price) == pre.queue(o.side, o.price).remove(k);
                    lemma_cancel_step(&pre, &self.book, order_id, k);
                    assert forall|sd: Side, p: i64| #[trigger] self.book.prices(sd).contains(p) implies pre.prices(sd).contains(p) by {
                        if !(sd == o.side && p == o.price) {
                            assert(self.book.queue(sd, p) == pre.queue(sd, p));
                        }
                    }
                    assert(self.book.prices(Side::Bid).subset_of(pre.prices(Side::Bid)));
                    assert(self.book.prices(Side::Ask).subset_of(pre.prices(Side::Ask)));
                    lemma_min_subset(pre.best(Side::Ask), pre.prices(Side::Ask), self.book.best(Side::Ask), self.book.prices(Side::Ask));
                    lemma_max_subset(pre.best(Side::Bid), pre.prices(Side::Bid), self.book.best(Side::Bid), self.book.prices(Side::Bid));
                }
                Ok(o)
            },
            Err(e) => Err(MatchingError::Book(e)),
        }
    }
}

impl Default for MatchingEngine {
    fn default() -> (r: MatchingEngine)
        ensures
            r.wf(),
            r.book_spec().resting().is_empty(),
    {
        MatchingEngine::new()
    }
}

/// The engine's book is never crossed: `wf` holds of a new engine, every
/// operation of the engine preserves it, and it includes this.
pub proof fn lemma_never_crossed(engine: &MatchingEngine)
    requires
        engine.wf(),
    ensures
        uncrossed(engine.book_spec()),
        match (engine.book_spec().best(Side::Bid), engine.book_spec().best(Side::Ask)) {
            (Some(b), Some(a)) => b < a,
            _ => true,
        },
{
}

} // verus!
