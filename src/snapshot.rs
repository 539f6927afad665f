use vstd::prelude::*;

use crate::book::{by_id, ids_distinct, is_max, is_min, lemma_max_unique, lemma_min_unique, listed_before, BookError, OrderBook};
use crate::matching::{empty_view, lemma_empty_model, lemma_rest_step, rest_all, MatchingEngine};
use crate::order::{Order, Side};
use crate::protocol::{encode_new_order, le_u64, new_order_frame, write_u64};
use crate::wal::{crc32, crc32_of};

verus! {

#[derive(Debug, Clone, Copy, PartialEq, Eq, Structural)]
pub enum SnapshotError {
    ChecksumMismatch { expected: u32, actual: u32 },
    /// An order of the snapshot has no quantity.
    ZeroQuantity,
    /// The book refused an order of the snapshot.
    Restore(BookError),
    /// The snapshot's bids and asks cross.
    Crossed,
}

/// A point-in-time copy of the resting orders, with the log position it
/// was taken at.
#[derive(Debug, Clone)]
pub struct Snapshot {
    pub wal_record_count: u64,
    pub orders: Vec<Order>,
    pub best_bid: Option<i64>,
    pub best_ask: Option<i64>,
    /// CRC-32 of the orders' canonical bytes.
    pub checksum: u32,
}

/// The canonical bytes of one order: its New Order frame, then its
/// timestamp (u64 LE).
pub open spec fn order_bytes(o: Order) -> Seq<u8> {
    new_order_frame(o) + le_u64(o.timestamp)
}

/// The canonical bytes of a list of orders, which the checksum covers.
pub open spec fn orders_bytes(orders: Seq<Order>) -> Seq<u8>
    decreases orders.len(),
{
    if orders.len() == 0 {
        Seq::empty()
    } else {
        orders_bytes(orders.drop_last()) + order_bytes(orders.last())
    }
}

/// The stored checksum matches the orders.
pub open spec fn checksum_ok(s: Snapshot) -> bool {
    s.checksum == crc32_of(orders_bytes(s.orders@))
}

/// The prices at which `orders` has orders on `side`.
pub open spec fn side_prices(orders: Seq<Order>, side: Side) -> Set<i64> {
    Set::new(|p: i64| exists|i: int| 0 <= i < orders.len() && orders[i].side == side && orders[i].price == p)
}

/// What a snapshot's orders need for `restore` into `capacity` slots to
/// succeed: distinct ids, positive quantities, room, and no crossing.
pub open spec fn restorable(orders: Seq<Order>, capacity: nat) -> bool {
    &&& ids_distinct(orders)
    &&& orders.len() <= capacity
    &&& forall|i: int| 0 <= i < orders.len() ==> #[trigger] orders[i].quantity > 0
    &&& orders_uncrossed(orders)
}

/// No bid of `orders` is priced at or above an ask of it.
pub open spec fn orders_uncrossed(orders: Seq<Order>) -> bool {
    forall|b: i64, a: i64| side_prices(orders, Side::Bid).contains(b) && side_prices(orders, Side::Ask).contains(a) ==> b < a
}

fn orders_to_bytes(orders: &Vec<Order>) -> (r: Vec<u8>)
    ensures
        r@ == orders_bytes(orders@),
{
    let mut out: Vec<u8> = Vec::new();
    let mut i: usize = 0;
    while i < orders.len()
        invariant
            i <= orders@.len(),
            out@ == orders_bytes(orders@.subrange(0, i as int)),
        decreases orders@.len() - i,
    {
        let o = orders[i];
        let mut buf: Vec<u8> = Vec::new();
        let mut k: usize = 0;
        while k < 48
            invariant
                k <= 48,
                buf@.len() == k,
            decreases 48 - k,
        {
            buf.push(0);
            k = k + 1;
        }
        let _ = encode_new_order(buf.as_mut_slice(), &o);
        let _ = write_u64(buf.as_mut_slice(), 40, o.timestamp);
        proof {
            assert(buf@ =~= order_bytes(o));
        }
        let ghost before = out@;
        let mut j: usize = 0;
        while j < buf.len()
            invariant
                j <= buf@.len(),
                buf@.len() == 48,
                out@ == before + buf@.subrange(0, j as int),
            decreases buf@.len() - j,
        {
            out.push(buf[j]);
            j = j + 1;
            proof {
                assert(out@ =~= before + buf@.subrange(0, j as int));
            }
        }
        proof {
            assert(orders@.subrange(0, i + 1).drop_last() =~= orders@.subrange(0, i as int));
            assert(buf@.subrange(0, 48) =~= buf@);
        }
        i = i + 1;
    }
    proof {
        assert(orders@.subrange(0, orders@.len() as int) =~= orders@);
    }
    out
}

impl Snapshot {
    /// Checksum of a list of orders.
    pub fn compute_checksum(orders: &Vec<Order>) -> (r: u32)
        ensures
            r == crc32_of(orders_bytes(orders@)),
    {
        let bytes = orders_to_bytes(orders);
        crc32(bytes.as_slice())
    }

    /// Checks the stored checksum against the orders.
    pub fn verify_checksum(&self) -> (r: Result<(), SnapshotError>)
        ensures
            self.checksum == crc32_of(orders_bytes(self.orders@)) ==> r is Ok,
            self.checksum != crc32_of(orders_bytes(self.orders@)) ==> r == Err::<(), SnapshotError>(
                SnapshotError::ChecksumMismatch { expected: self.checksum, actual: crc32_of(orders_bytes(self.orders@)) },
            ),
    {
        let actual = Snapshot::compute_checksum(&self.orders);
        if self.checksum == actual {
            Ok(())
        } else {
            Err(SnapshotError::ChecksumMismatch { expected: self.checksum, actual })
        }
    }

    /// The first snapshot, in the order given (newest first), whose
    /// checksum holds.
    pub fn latest_valid(candidates: Vec<Snapshot>) -> (r: Option<Snapshot>)
        ensures
            r matches Some(s) ==> exists|i: int|
                0 <= i < candidates@.len() && candidates@[i] == s && checksum_ok(s) && forall|j: int|
                    0 <= j < i ==> !checksum_ok(#[trigger] candidates@[j]),
            r is None ==> forall|i: int| 0 <= i < candidates@.len() ==> !checksum_ok(#[trigger] candidates@[i]),
    {
        let mut rest = candidates;
        let ghost orig = rest@;
        let ghost mut skipped: int = 0;
        while rest.len() > 0
            invariant
                orig == candidates@,
                0 <= skipped <= orig.len(),
                rest@ == orig.subrange(skipped, orig.len() as int),
                forall|j: int| 0 <= j < skipped ==> !checksum_ok(#[trigger] orig[j]),
            decreases rest@.len(),
        {
            let s = rest.remove(0);
            proof {
                assert(orig[skipped] == s);
            }
            if s.verify_checksum().is_ok() {
                proof {
                    assert(checksum_ok(s));
                    assert(orig == candidates@);
                    assert(candidates@[skipped] == s);
                    assert(forall|j: int| 0 <= j < skipped ==> !checksum_ok(#[trigger] candidates@[j]));
                }
                return Some(s);
            }
            proof {
                assert(orig[skipped] == s);
                skipped = skipped + 1;
                assert(rest@ =~= orig.subrange(skipped, orig.len() as int));
            }
        }
        None
    }

    /// Takes the resting orders of `engine`, listed by side, price,
    /// timestamp and id, with its best prices.
    pub fn capture(engine: &MatchingEngine, wal_record_count: u64) -> (r: Snapshot)
        requires
            engine.wf(),
        ensures
            r.wal_record_count == wal_record_count,
            ids_distinct(r.orders@),
            by_id(r.orders@) == engine.book_spec().resting(),
            r.orders@.len() == engine.book_spec().resting().len(),
            forall|a: int, b: int| 0 <= a < b < r.orders@.len() ==> listed_before(r.orders@[a], r.orders@[b]),
            r.best_bid == engine.book_spec().best(Side::Bid),
            r.best_ask == engine.book_spec().best(Side::Ask),
            r.checksum == crc32_of(orders_bytes(r.orders@)),
    {
        let orders = engine.book().all_resting_orders();
        let best_bid = engine.book().best_bid();
        let best_ask = engine.book().best_ask();
        let checksum = Snapshot::compute_checksum(&orders);
        Snapshot { wal_record_count, orders, best_bid, best_ask, checksum }
    }

    /// Rebuilds an engine whose book holds the snapshot's orders, inserted
    /// in the snapshot's order.
    pub fn restore(&self, arena_capacity: u32) -> (r: Result<MatchingEngine, SnapshotError>)
        ensures
            r matches Ok(e) ==> {
                &&& e.wf()
                &&& e.book_spec().capacity_spec() == arena_capacity
                &&& e.book_spec().resting() == by_id(self.orders@)
                &&& e.book_spec().model() == rest_all(empty_view(), self.orders@)
                &&& is_max(e.book_spec().best(Side::Bid), side_prices(self.orders@, Side::Bid))
                &&& is_min(e.book_spec().best(Side::Ask), side_prices(self.orders@, Side::Ask))
            },
            restorable(self.orders@, arena_capacity as nat) ==> r is Ok,
    {
        let mut book = OrderBook::with_capacity(arena_capacity);
        proof {
            lemma_empty_model(&book);
            assert(self.orders@.subrange(0, 0) =~= Seq::<Order>::empty());
        }
        let mut i: usize = 0;
        while i < self.orders.len()
            invariant
                i <= self.orders@.len(),
                book.wf(),
                book.capacity_spec() == arena_capacity,
                book.resting() == by_id(self.orders@.subrange(0, i as int)),
                book.model() == rest_all(empty_view(), self.orders@.subrange(0, i as int)),
                book.resting().len() == i,
                ids_distinct(self.orders@.subrange(0, i as int)),
                book.prices(Side::Bid) == side_prices(self.orders@.subrange(0, i as int), Side::Bid),
                book.prices(Side::Ask) == side_prices(self.orders@.subrange(0, i as int), Side::Ask),
            decreases self.orders@.len() - i,
        {
            let o = self.orders[i];
            if o.quantity == 0 {
                return Err(SnapshotError::ZeroQuantity);
            }
            let ghost pre = book;
            let ghost done = self.orders@.subrange(0, i as int);
            let ghost next = self.orders@.subrange(0, i + 1);
            match book.insert_order(o) {
                Ok(()) => {},
                Err(e) => {
                    return Err(SnapshotError::Restore(e));
                },
            }
            proof {
                assert(next == done.push(o));
                lemma_rest_step(&pre, &book, o);
                assert(next.drop_last() =~= done);
                assert(!by_id(done).contains_key(o.id));
                assert forall|a: int, b: int| 0 <= a < b < next.len() implies next[a].id != next[b].id by {
                    if b == i as int {
                        assert(!by_id(done).contains_key(o.id));
                        assert(done[a].id == next[a].id);
                        if next[a].id == o.id {
                            assert(by_id(done).contains_key(o.id));
                        }
                    } else {
                        assert(done[a] == next[a] && done[b] == next[b]);
                    }
                }
                assert(book.resting() =~= by_id(next)) by {
                    assert forall|id: u64| #[trigger] by_id(next).contains_key(id) implies book.resting().contains_key(id)
                        && book.resting()[id] == by_id(next)[id] by {
                        let k = choose|k: int| 0 <= k < next.len() && next[k].id == id;
                        if k < i {
                            assert(done[k] == next[k]);
                            assert(by_id(done).contains_key(id));
                            let k2 = choose|k2: int| 0 <= k2 < done.len() && done[k2].id == id;
                            assert(k2 == k);
                        }
                    }
                    assert forall|id: u64| #[trigger] book.resting().contains_key(id) implies by_id(next).contains_key(id) by {
                        if id != o.id {
                            let k = choose|k: int| 0 <= k < done.len() && done[k].id == id;
                            assert(next[k] == done[k]);
                        } else {
                            assert(next[i as int].id == id);
                        }
                    }
                }
                assert forall|sd: Side| #[trigger] book.prices(sd) == side_prices(next, sd) by {
                    if sd == o.side {
                        assert(book.prices(sd) == pre.prices(sd).insert(o.price));
                    } else {
                        assert(book.prices(sd) == pre.prices(sd));
                    }
                    assert forall|p: i64| side_prices(next, sd).contains(p) <==> #[trigger] book.prices(sd).contains(p) by {
                        if side_prices(next, sd).contains(p) {
                            let k = choose|k: int| 0 <= k < next.len() && next[k].side == sd && next[k].price == p;
                            if k < i {
                                assert(done[k] == next[k]);
                                assert(side_prices(done, sd).contains(p));
                            }
                        }
                        if book.prices(sd).contains(p) && !(sd == o.side && p == o.price) {
                            assert(side_prices(done, sd).contains(p));
                            let k = choose|k: int| 0 <= k < done.len() && done[k].side == sd && done[k].price == p;
                            assert(next[k] == done[k]);
                        }
                        if sd == o.side && p == o.price {
                            assert(next[i as int] == o);
                        }
                    }
                    assert(book.prices(sd) =~= side_prices(next, sd));
                }
                assert(book.prices(Side::Bid) == side_prices(next, Side::Bid));
                assert(book.prices(Side::Ask) == side_prices(next, Side::Ask));
            }
            i = i + 1;
        }
        proof {
            assert(self.orders@.subrange(0, self.orders@.len() as int) =~= self.orders@);
        }
        let crossed = match (book.best_bid(), book.best_ask()) {
            (Some(b), Some(a)) => b >= a,
            _ => false,
        };
        if crossed {
            return Err(SnapshotError::Crossed);
        }
        Ok(MatchingEngine::from_book(book))
    }
}

/// In a well-formed book, a side has a level at a price exactly when some
/// resting order on that side carries that price.
pub proof fn lemma_prices_of_resting(book: &OrderBook, side: Side, p: i64)
    requires
        book.wf(),
    ensures
        book.prices(side).contains(p) <==> exists|id: u64| #[trigger] book.resting().contains_key(id)
            && book.resting()[id].side == side && book.resting()[id].price == p,
{
    if book.prices(side).contains(p) {
        let id = book.queue(side, p)[0];
        assert(book.resting().contains_key(id));
    }
    if exists|id: u64| #[trigger] book.resting().contains_key(id) && book.resting()[id].side == side && book.resting()[id].price == p {
        let id = choose|id: u64| #[trigger] book.resting().contains_key(id) && book.resting()[id].side == side && book.resting()[id].price == p;
        assert(book.queue(side, p).contains(id));
    }
}

/// Capturing a well-formed engine and restoring the capture into an arena
/// of the same capacity succeeds, and gives a book with the same resting
/// orders, the same best bid and the same best ask.
pub proof fn lemma_snapshot_idempotent(engine: &MatchingEngine, snap: &Snapshot, restored: MatchingEngine)
    requires
        engine.wf(),
        ids_distinct(snap.orders@),
        by_id(snap.orders@) == engine.book_spec().resting(),
        snap.orders@.len() == engine.book_spec().resting().len(),
        snap.best_bid == engine.book_spec().best(Side::Bid),
        snap.best_ask == engine.book_spec().best(Side::Ask),
        restored.book_spec().resting() == by_id(snap.orders@),
        is_max(restored.book_spec().best(Side::Bid), side_prices(snap.orders@, Side::Bid)),
        is_min(restored.book_spec().best(Side::Ask), side_prices(snap.orders@, Side::Ask)),
    ensures
        snap.orders@.len() <= engine.book_spec().capacity_spec(),
        forall|i: int| 0 <= i < snap.orders@.len() ==> #[trigger] snap.orders@[i].quantity > 0,
        orders_uncrossed(snap.orders@),
        restored.book_spec().resting() == engine.book_spec().resting(),
        restored.book_spec().best(Side::Bid) == snap.best_bid,
        restored.book_spec().best(Side::Ask) == snap.best_ask,
{
    let book = engine.book_spec();
    let orders = snap.orders@;
    assert forall|i: int| 0 <= i < orders.len() implies #[trigger] orders[i].quantity > 0 && book.resting().contains_key(orders[i].id)
        && book.resting()[orders[i].id] == orders[i] by {
        assert(by_id(orders).contains_key(orders[i].id));
        let k = choose|k: int| 0 <= k < orders.len() && orders[k].id == orders[i].id;
        assert(k == i);
    }
    assert forall|sd: Side| #[trigger] side_prices(orders, sd) == book.prices(sd) by {
        assert forall|p: i64| side_prices(orders, sd).contains(p) <==> #[trigger] book.prices(sd).contains(p) by {
            lemma_prices_of_resting(book, sd, p);
            if side_prices(orders, sd).contains(p) {
                let k = choose|k: int| 0 <= k < orders.len() && orders[k].side == sd && orders[k].price == p;
                assert(book.resting().contains_key(orders[k].id));
            }
            if book.prices(sd).contains(p) {
                let id = choose|id: u64| #[trigger] book.resting().contains_key(id) && book.resting()[id].side == sd && book.resting()[id].price == p;
                assert(by_id(orders).contains_key(id));
                let k = choose|k: int| 0 <= k < orders.len() && orders[k].id == id;
            }
        }
        assert(side_prices(orders, sd) =~= book.prices(sd));
    }
    assert(side_prices(orders, Side::Bid) == book.prices(Side::Bid));
    assert(side_prices(orders, Side::Ask) == book.prices(Side::Ask));
    lemma_max_unique(restored.book_spec().best(Side::Bid), book.best(Side::Bid), book.prices(Side::Bid));
    lemma_min_unique(restored.book_spec().best(Side::Ask), book.best(Side::Ask), book.prices(Side::Ask));
}

/// The snapshot cadence after one more command: the count of commands
/// since the last snapshot, and whether a snapshot is due now (only when
/// there is a log to take it against). A snapshot resets the count.
pub fn snapshot_step(since: u64, interval: u64, persisting: bool) -> (r: (u64, bool))
    ensures
        ({
            let n: int = if since < u64::MAX { since + 1 } else { since as int };
            &&& r.1 == (persisting && n >= interval)
            &&& r.0 == (if r.1 { 0 } else { n })
        }),
{
    let n = if since < u64::MAX { since + 1 } else { since };
    if persisting && n >= interval {
        (0, true)
    } else {
        (n, false)
    }
}

/// The bytes of `snapshot_`.
pub open spec fn snapshot_prefix() -> Seq<u8> {
    seq![115u8, 110u8, 97u8, 112u8, 115u8, 104u8, 111u8, 116u8, 95u8]
}

/// The bytes of `.bin`.
pub open spec fn snapshot_suffix() -> Seq<u8> {
    seq![46u8, 98u8, 105u8, 110u8]
}

/// A file name of the form `snapshot_*.bin`.
pub open spec fn is_snapshot_name(n: Seq<u8>) -> bool {
    &&& n.len() >= 13
    &&& n.subrange(0, 9) == snapshot_prefix()
    &&& n.subrange(n.len() - 4, n.len() as int) == snapshot_suffix()
}

/// Byte-wise lexicographic order.
pub open spec fn lex_le(a: Seq<u8>, b: Seq<u8>) -> bool
    decreases a.len(),
{
    if a.len() == 0 {
        true
    } else if b.len() == 0 {
        false
    } else if a[0] != b[0] {
        a[0] < b[0]
    } else {
        lex_le(a.drop_first(), b.drop_first())
    }
}

pub proof fn lemma_lex_total(a: Seq<u8>, b: Seq<u8>)
    ensures
        lex_le(a, b) || lex_le(b, a),
    decreases a.len(),
{
    if a.len() > 0 && b.len() > 0 && a[0] == b[0] {
        lemma_lex_total(a.drop_first(), b.drop_first());
    }
}

pub proof fn lemma_lex_trans(a: Seq<u8>, b: Seq<u8>, c: Seq<u8>)
    requires
        lex_le(a, b),
        lex_le(b, c),
    ensures
        lex_le(a, c),
    decreases a.len(),
{
    if a.len() > 0 && b.len() > 0 && c.len() > 0 && a[0] == b[0] && b[0] == c[0] {
        lemma_lex_trans(a.drop_first(), b.drop_first(), c.drop_first());
    }
}

fn lex_le_exec(a: &Vec<u8>, b: &Vec<u8>) -> (r: bool)
    ensures
        r == lex_le(a@, b@),
{
    let mut i: usize = 0;
    proof {
        assert(a@.skip(0) =~= a@);
        assert(b@.skip(0) =~= b@);
    }
    while i < a.len() && i < b.len() && a[i] == b[i]
        invariant
            i <= a@.len(),
            i <= b@.len(),
            lex_le(a@, b@) == lex_le(a@.skip(i as int), b@.skip(i as int)),
        decreases a@.len() - i,
    {
        proof {
            assert(a@.skip(i as int).drop_first() =~= a@.skip(i + 1));
            assert(b@.skip(i as int).drop_first() =~= b@.skip(i + 1));
        }
        i = i + 1;
    }
    if i == a.len() {
        true
    } else if i == b.len() {
        false
    } else {
        a[i] < b[i]
    }
}

fn is_snapshot_name_exec(n: &Vec<u8>) -> (r: bool)
    ensures
        r == is_snapshot_name(n@),
{
    let len = n.len();
    if len < 13 {
        return false;
    }
    let ok = n[0] == 115 && n[1] == 110 && n[2] == 97 && n[3] == 112 && n[4] == 115 && n[5] == 104 && n[6] == 111
        && n[7] == 116 && n[8] == 95 && n[len - 4] == 46 && n[len - 3] == 98 && n[len - 2] == 105 && n[len - 1] == 110;
    proof {
        if ok {
            assert(n@.subrange(0, 9) =~= snapshot_prefix());
            assert(n@.subrange(len - 4, len as int) =~= snapshot_suffix());
        } else {
            if is_snapshot_name(n@) {
                assert(n@.subrange(0, 9)[0] == n@[0]);
                assert(n@.subrange(len - 4, len as int)[0] == n@[len - 4]);
                assert(n@.subrange(0, 9) =~= snapshot_prefix());
            }
        }
    }
    ok
}

/// The positions of the names of the form `snapshot_*.bin` among `names`,
/// newest (lexicographically greatest, the count being zero-padded) first.
#[verifier::rlimit(100)]
#[verifier::spinoff_prover]
pub fn snapshot_candidates(names: &Vec<Vec<u8>>) -> (r: Vec<usize>)
    ensures
        r@.no_duplicates(),
        forall|i: int| 0 <= i < r@.len() ==> #[trigger] r@[i] < names@.len() && is_snapshot_name(names@[r@[i] as int]@),
        forall|j: int| 0 <= j < names@.len() && is_snapshot_name(#[trigger] names@[j]@) ==> r@.contains(j as usize),
        forall|a: int, b: int| 0 <= a < b < r@.len() ==> lex_le(names@[r@[b] as int]@, names@[r@[a] as int]@),
{
    let mut out: Vec<usize> = Vec::new();
    let mut j: usize = 0;
    while j < names.len()
        invariant
            j <= names@.len(),
            out@.no_duplicates(),
            forall|i: int| 0 <= i < out@.len() ==> #[trigger] out@[i] < j && is_snapshot_name(names@[out@[i] as int]@),
            forall|x: int| 0 <= x < j && is_snapshot_name(#[trigger] names@[x]@) ==> out@.contains(x as usize),
            forall|a: int, b: int| 0 <= a < b < out@.len() ==> lex_le(names@[out@[b] as int]@, names@[out@[a] as int]@),
        decreases names@.len() - j,
    {
        if is_snapshot_name_exec(&names[j]) {
            let mut k: usize = 0;
            while k < out.len() && !lex_le_exec(&names[out[k]], &names[j])
                invariant
                    k <= out@.len(),
                    j < names@.len(),
                    forall|i: int| 0 <= i < out@.len() ==> #[trigger] out@[i] < j,
                    forall|i: int| 0 <= i < k ==> !lex_le(names@[out@[i] as int]@, names@[j as int]@),
                decreases out@.len() - k,
            {
                k = k + 1;
            }
            let ghost before = out@;
            out.insert(k, j);
            proof {
                let nj = names@[j as int]@;
                assert forall|a: int, b: int| 0 <= a < b < out@.len() implies lex_le(
                    names@[out@[b] as int]@,
                    names@[out@[a] as int]@,
                ) by {
                    if b == k as int {
                        lemma_lex_total(names@[before[a] as int]@, nj);
                    } else if a == k as int {
                        assert(out@[b] == before[b - 1]);
                        if k < before.len() {
                            if b - 1 > k as int {
                                lemma_lex_trans(names@[before[b - 1] as int]@, names@[before[k as int] as int]@, nj);
                            }
                        }
                    } else if a < k as int && b > k as int {
                        assert(out@[a] == before[a]);
                        assert(out@[b] == before[b - 1]);
                    } else if b < k as int {
                        assert(out@[a] == before[a] && out@[b] == before[b]);
                    } else {
                        assert(out@[a] == before[a - 1] && out@[b] == before[b - 1]);
                    }
                }
                assert forall|x: int| 0 <= x < j + 1 && is_snapshot_name(#[trigger] names@[x]@) implies out@.contains(x as usize) by {
                    if x == j as int {
                        assert(out@[k as int] == j);
                    } else {
                        let p = choose|p: int| 0 <= p < before.len() && before[p] == x as usize;
                        if p < k {
                            assert(out@[p] == before[p]);
                        } else {
                            assert(out@[p + 1] == before[p]);
                        }
                    }
                }
                assert forall|i: int| 0 <= i < out@.len() implies #[trigger] out@[i] < j + 1 && is_snapshot_name(names@[out@[i] as int]@) by {
                    if i < k {
                        assert(out@[i] == before[i]);
                    } else if i > k {
                        assert(out@[i] == before[i - 1]);
                    }
                }
                assert(out@.no_duplicates()) by {
                    assert forall|a: int, b: int| 0 <= a < b < out@.len() implies out@[a] != out@[b] by {
                        if a != k as int && b != k as int {
                            let a1 = if a < k { a } else { a - 1 };
                            let b1 = if b < k { b } else { b - 1 };
                            assert(out@[a] == before[a1] && out@[b] == before[b1]);
                        } else if a == k as int {
                            assert(out@[b] == before[b - 1]);
                        } else {
                            assert(out@[a] == before[a]);
                        }
                    }
                }
            }
        }
        j = j + 1;
    }
    out
}

} // verus!
