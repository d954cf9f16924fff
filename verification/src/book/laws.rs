//! What holds of the books as a whole.

use crate::book::event::{Event, EventType};
use crate::book::hot_book::Lane;
use crate::book::model::{BookModel, Ladder, LevelModel, OrderMeta};
#[allow(unused_imports)]
use crate::book::{digest, event, hot_book, ladder, model, orderbook};
use vstd::prelude::*;

verus! {

// ─── Levels are sums of orders ──────────────────────────────────────

/// The order rests at this price on this side.
pub open spec fn rests_at(o: OrderMeta, is_bid: bool, p: u64) -> bool {
    o.price == p && (o.side == 0) == is_bid
}

/// The quantity of all orders at one price of one side.
pub open spec fn resting_qty(orders: Map<u64, OrderMeta>, is_bid: bool, p: u64) -> nat
    decreases orders.dom().len(),
{
    if !orders.dom().finite() || orders.dom().len() == 0 {
        0
    } else {
        let k = orders.dom().choose();
        resting_qty(orders.remove(k), is_bid, p) + if rests_at(orders[k], is_bid, p) {
            orders[k].qty as nat
        } else {
            0
        }
    }
}

/// The number of orders at one price of one side.
pub open spec fn resting_count(orders: Map<u64, OrderMeta>, is_bid: bool, p: u64) -> nat
    decreases orders.dom().len(),
{
    if !orders.dom().finite() || orders.dom().len() == 0 {
        0
    } else {
        let k = orders.dom().choose();
        resting_count(orders.remove(k), is_bid, p) + if rests_at(orders[k], is_bid, p) {
            1nat
        } else {
            0
        }
    }
}

/// Any one order can be counted first.
proof fn lemma_count_apart(orders: Map<u64, OrderMeta>, is_bid: bool, p: u64, k: u64)
    requires
        orders.dom().finite(),
        orders.contains_key(k),
    ensures
        resting_qty(orders, is_bid, p) == resting_qty(orders.remove(k), is_bid, p) + if rests_at(
            orders[k],
            is_bid,
            p,
        ) {
            orders[k].qty as nat
        } else {
            0
        },
        resting_count(orders, is_bid, p) == resting_count(orders.remove(k), is_bid, p) + if rests_at(
            orders[k],
            is_bid,
            p,
        ) {
            1nat
        } else {
            0
        },
    decreases orders.dom().len(),
{
    let c = orders.dom().choose();
    assert(orders.dom().contains(c));
    if c != k {
        lemma_count_apart(orders.remove(c), is_bid, p, k);
        lemma_count_apart(orders.remove(k), is_bid, p, c);
        assert(orders.remove(c).remove(k) =~= orders.remove(k).remove(c));
    }
}

/// A level has an order count exactly where an order rests.
proof fn lemma_count_witness(orders: Map<u64, OrderMeta>, is_bid: bool, p: u64)
    requires
        orders.dom().finite(),
        resting_count(orders, is_bid, p) > 0,
    ensures
        exists|k: u64| #[trigger] orders.contains_key(k) && rests_at(orders[k], is_bid, p),
    decreases orders.dom().len(),
{
    let c = orders.dom().choose();
    assert(orders.contains_key(c));
    if !rests_at(orders[c], is_bid, p) {
        lemma_count_witness(orders.remove(c), is_bid, p);
        let k = choose|k: u64| #[trigger]
            orders.remove(c).contains_key(k) && rests_at(orders.remove(c)[k], is_bid, p);
        assert(orders.contains_key(k));
    }
}

/// Each level of one side is the sum of the orders resting there.
pub open spec fn side_is_sum(m: Ladder, orders: Map<u64, OrderMeta>, is_bid: bool) -> bool {
    forall|p: u64|
        #![trigger m.contains_key(p)]
        #![trigger resting_count(orders, is_bid, p)]
        {
            &&& m.contains_key(p) <==> resting_count(orders, is_bid, p) > 0
            &&& m.contains_key(p) ==> m[p].qty == resting_qty(orders, is_bid, p)
            &&& m.contains_key(p) ==> m[p].count == resting_count(orders, is_bid, p)
        }
}

/// Every level is the sum of the orders resting there, and every order rests
/// on a level.
pub open spec fn consistent(b: BookModel) -> bool {
    &&& b.valid()
    &&& side_is_sum(b.bids, b.orders, true)
    &&& side_is_sum(b.asks, b.orders, false)
}

/// What a level holds beyond the orders resting there. A modify that withdraws
/// only a part of the order it replaces leaves such a remainder.
pub type Remainder = spec_fn(bool, u64) -> LevelModel;

/// No level holds anything beyond its orders.
pub open spec fn no_remainder() -> Remainder {
    |is_bid: bool, p: u64| LevelModel { qty: 0, count: 0 }
}

/// Each level of one side is its remainder and the orders resting there.
pub open spec fn side_is_covered(m: Ladder, orders: Map<u64, OrderMeta>, is_bid: bool, r: Remainder) -> bool {
    forall|p: u64|
        #![trigger m.contains_key(p)]
        #![trigger resting_count(orders, is_bid, p)]
        {
            &&& m.contains_key(p) <==> resting_count(orders, is_bid, p) + r(is_bid, p).count > 0
            &&& m.contains_key(p) ==> m[p].qty == resting_qty(orders, is_bid, p) + r(is_bid, p).qty
            &&& m.contains_key(p) ==> m[p].count == resting_count(orders, is_bid, p) + r(is_bid, p).count
            &&& r(is_bid, p).count == 0 ==> r(is_bid, p).qty == 0
        }
}

/// Every level is its remainder and the orders resting there.
pub open spec fn covered(b: BookModel, r: Remainder) -> bool {
    &&& b.valid()
    &&& side_is_covered(b.bids, b.orders, true, r)
    &&& side_is_covered(b.asks, b.orders, false, r)
}

/// What stays behind in a level has a quantity.
pub open spec fn solid(r: Remainder) -> bool {
    forall|is_bid: bool, p: u64| (#[trigger] r(is_bid, p)).count > 0 ==> r(is_bid, p).qty > 0
}

/// Every order has a quantity.
pub open spec fn positive_orders(orders: Map<u64, OrderMeta>) -> bool {
    forall|k: u64| #[trigger] orders.contains_key(k) ==> orders[k].qty > 0
}

/// Every level has a quantity.
pub open spec fn positive_levels(m: Ladder) -> bool {
    forall|p: u64| #[trigger] m.contains_key(p) ==> m[p].qty > 0
}

proof fn lemma_no_remainder(b: BookModel)
    ensures
        consistent(b) <==> covered(b, no_remainder()),
{
    if consistent(b) {
        assert(side_is_covered(b.bids, b.orders, true, no_remainder()));
        assert(side_is_covered(b.asks, b.orders, false, no_remainder()));
    }
    if covered(b, no_remainder()) {
        assert(side_is_sum(b.bids, b.orders, true));
        assert(side_is_sum(b.asks, b.orders, false));
    }
}

/// The empty book is consistent.
pub proof fn empty_is_consistent()
    ensures
        consistent(BookModel::empty()),
{
}

proof fn lemma_orders_fix(a: BookModel, b: BookModel, r: Remainder)
    requires
        covered(a, r),
        covered(b, r),
        a.orders == b.orders,
    ensures
        a == b,
{
    assert forall|p: u64| a.bids.contains_key(p) <==> b.bids.contains_key(p) by {}
    assert forall|p: u64| a.asks.contains_key(p) <==> b.asks.contains_key(p) by {}
    assert(a.bids =~= b.bids);
    assert(a.asks =~= b.asks);
}

/// A consistent book is fixed by its orders.
pub proof fn orders_fix_the_book(a: BookModel, b: BookModel)
    requires
        consistent(a),
        consistent(b),
        a.orders == b.orders,
    ensures
        a == b,
{
    lemma_no_remainder(a);
    lemma_no_remainder(b);
    lemma_orders_fix(a, b, no_remainder());
}

proof fn lemma_place(b: BookModel, r: Remainder, id: u64, o: OrderMeta)
    requires
        covered(b, r),
        !b.orders.contains_key(id),
    ensures
        covered(b.place(id, o), r),
{
    let n = b.place(id, o);
    assert(n.orders.remove(id) =~= b.orders);
    assert forall|is_bid: bool| side_is_covered(#[trigger] n.side(is_bid), n.orders, is_bid, r) by {
        let m = b.side(is_bid);
        let x = n.side(is_bid);
        assert(side_is_covered(m, b.orders, is_bid, r));
        assert forall|p: u64| {
            &&& x.contains_key(p) <==> resting_count(n.orders, is_bid, p) + r(is_bid, p).count > 0
            &&& x.contains_key(p) ==> x[p].qty == resting_qty(n.orders, is_bid, p) + r(is_bid, p).qty
            &&& x.contains_key(p) ==> x[p].count == resting_count(n.orders, is_bid, p) + r(is_bid, p).count
            &&& r(is_bid, p).count == 0 ==> r(is_bid, p).qty == 0
        } by {
            assert(m.contains_key(p) <==> resting_count(b.orders, is_bid, p) + r(is_bid, p).count > 0);
            lemma_count_apart(n.orders, is_bid, p, id);
            if resting_count(b.orders, is_bid, p) == 0 {
                lemma_no_count_no_qty(b.orders, is_bid, p);
            }
        }
    }
    assert(n.bids == n.side(true) && n.asks == n.side(false));
}

/// An order under an ID in use takes the place of the other, which stays behind in
/// its level.
proof fn lemma_replace(c: BookModel, r: Remainder, id: u64, o: OrderMeta) -> (s: Remainder)
    requires
        covered(c, r),
    ensures
        covered(c.place(id, o), s),
        solid(r) && positive_orders(c.orders) ==> solid(s),
{
    if !c.orders.contains_key(id) {
        lemma_place(c, r, id, o);
        r
    } else {
        let x = c.orders[id];
        let s: Remainder = |is_bid: bool, p: u64|
            if rests_at(x, is_bid, p) {
                LevelModel { qty: r(is_bid, p).qty + x.qty as nat, count: r(is_bid, p).count + 1 }
            } else {
                r(is_bid, p)
            };
        let c2 = c.with_orders(c.orders.remove(id));
        assert forall|is_bid: bool| side_is_covered(#[trigger] c2.side(is_bid), c2.orders, is_bid, s) by {
            let m = c.side(is_bid);
            assert(side_is_covered(m, c.orders, is_bid, r));
            assert forall|p: u64| {
                &&& m.contains_key(p) <==> resting_count(c2.orders, is_bid, p) + s(is_bid, p).count > 0
                &&& m.contains_key(p) ==> m[p].qty == resting_qty(c2.orders, is_bid, p) + s(is_bid, p).qty
                &&& m.contains_key(p) ==> m[p].count == resting_count(c2.orders, is_bid, p) + s(is_bid, p).count
                &&& s(is_bid, p).count == 0 ==> s(is_bid, p).qty == 0
            } by {
                assert(m.contains_key(p) <==> resting_count(c.orders, is_bid, p) + r(is_bid, p).count > 0);
                lemma_count_apart(c.orders, is_bid, p, id);
            }
        }
        assert(c2.bids == c2.side(true) && c2.asks == c2.side(false));
        lemma_place(c2, s, id, o);
        assert(c2.place(id, o).orders =~= c.place(id, o).orders);
        s
    }
}

/// A new order under an ID that was not in use keeps the book consistent.
pub proof fn place_keeps_consistent(b: BookModel, id: u64, o: OrderMeta)
    requires
        consistent(b),
        !b.orders.contains_key(id),
    ensures
        consistent(b.place(id, o)),
{
    lemma_no_remainder(b);
    lemma_place(b, no_remainder(), id, o);
    lemma_no_remainder(b.place(id, o));
}

proof fn lemma_no_count_no_qty(orders: Map<u64, OrderMeta>, is_bid: bool, p: u64)
    requires
        resting_count(orders, is_bid, p) == 0,
    ensures
        resting_qty(orders, is_bid, p) == 0,
    decreases orders.dom().len(),
{
    if orders.dom().finite() && orders.dom().len() > 0 {
        let c = orders.dom().choose();
        assert(orders.dom().contains(c));
        lemma_no_count_no_qty(orders.remove(c), is_bid, p);
    }
}

/// What is left of an order keeps its place and has no more quantity.
pub open spec fn is_rest_of(o: OrderMeta, left: Option<OrderMeta>) -> bool {
    left matches Some(n) ==> n.price == o.price && n.side == o.side && n.qty <= o.qty
}

proof fn lemma_reduce(b: BookModel, r: Remainder, id: u64, left: Option<OrderMeta>)
    requires
        covered(b, r),
        b.orders.contains_key(id),
        is_rest_of(b.orders[id], left),
    ensures
        covered(b.reduce(id, left), r),
{
    let o = b.orders[id];
    let n = b.reduce(id, left);
    let rest = b.orders.remove(id);
    if let Some(l) = left {
        assert(n.orders.remove(id) =~= rest);
    }
    assert forall|is_bid: bool| side_is_covered(#[trigger] n.side(is_bid), n.orders, is_bid, r) by {
        let m = b.side(is_bid);
        let x = n.side(is_bid);
        assert(side_is_covered(m, b.orders, is_bid, r));
        assert forall|p: u64| {
            &&& x.contains_key(p) <==> resting_count(n.orders, is_bid, p) + r(is_bid, p).count > 0
            &&& x.contains_key(p) ==> x[p].qty == resting_qty(n.orders, is_bid, p) + r(is_bid, p).qty
            &&& x.contains_key(p) ==> x[p].count == resting_count(n.orders, is_bid, p) + r(is_bid, p).count
            &&& r(is_bid, p).count == 0 ==> r(is_bid, p).qty == 0
        } by {
            assert(m.contains_key(p) <==> resting_count(b.orders, is_bid, p) + r(is_bid, p).count > 0);
            lemma_count_apart(b.orders, is_bid, p, id);
            if left is Some {
                lemma_count_apart(n.orders, is_bid, p, id);
            }
            if resting_count(rest, is_bid, p) == 0 {
                lemma_no_count_no_qty(rest, is_bid, p);
            }
        }
    }
    assert(n.bids == n.side(true) && n.asks == n.side(false));
}

/// Reducing a resting order keeps the book consistent.
pub proof fn reduce_keeps_consistent(b: BookModel, id: u64, left: Option<OrderMeta>)
    requires
        consistent(b),
        b.orders.contains_key(id),
        is_rest_of(b.orders[id], left),
    ensures
        consistent(b.reduce(id, left)),
{
    lemma_no_remainder(b);
    lemma_reduce(b, no_remainder(), id, left);
    lemma_no_remainder(b.reduce(id, left));
}

/// The event adds under an ID not in use, and a modify withdraws all of the
/// order it replaces.
pub open spec fn orderly(b: BookModel, e: Event) -> bool {
    &&& e.event_type == event::event_code(EventType::OrderAdd) ==> !b.orders.contains_key(e.order_id)
    &&& e.event_type == event::event_code(EventType::OrderModify) && b.orders.contains_key(e.order_id)
        ==> model::after_cancel(b.orders[e.order_id], e.qty) is None
}

/// The reference book stays consistent under every orderly event: each level
/// is always the sum of the orders resting there.
pub proof fn reference_book_stays_consistent(b: BookModel, e: Event)
    requires
        consistent(b),
        orderly(b, e),
    ensures
        consistent(orderbook::ref_apply(b, e).0),
{
    let c = orderbook::ref_cancel(b, e).0;
    if b.orders.contains_key(e.order_id) {
        reduce_keeps_consistent(b, e.order_id, model::after_cancel(b.orders[e.order_id], e.qty));
        reduce_keeps_consistent(b, e.order_id, model::after_trade(b.orders[e.order_id], e.qty));
    } else {
        place_keeps_consistent(b, e.order_id, model::order_of(e));
    }
    if e.event_type == event::event_code(EventType::OrderModify) {
        assert(!c.orders.contains_key(e.order_id));
        place_keeps_consistent(c, e.order_id, model::order_of(e));
    }
}

/// The fixed-depth book stays consistent under every orderly event that names
/// its order.
pub proof fn hot_book_stays_consistent(b: BookModel, e: Event, cap: nat)
    requires
        consistent(b),
        orderly(b, e),
        e.order_id != 0,
    ensures
        consistent(hot_book::hot_apply(b, e, cap).0),
{
    let c = hot_book::hot_cancel(b, e).0;
    if b.orders.contains_key(e.order_id) {
        reduce_keeps_consistent(b, e.order_id, model::after_cancel(b.orders[e.order_id], e.qty));
        reduce_keeps_consistent(b, e.order_id, model::after_trade(b.orders[e.order_id], e.qty));
    } else {
        place_keeps_consistent(b, e.order_id, model::order_of(e));
    }
    if e.event_type == event::event_code(EventType::OrderModify) {
        assert(!c.orders.contains_key(e.order_id));
        place_keeps_consistent(c, e.order_id, model::order_of(e));
    }
}

// ─── The two books agree ────────────────────────────────────────────

/// The event adds with a known side code.
pub open spec fn known_side(e: Event) -> bool {
    e.event_type == event::event_code(EventType::OrderAdd) || e.event_type == event::event_code(
        EventType::OrderModify,
    ) ==> e.side <= 1
}

/// The fixed-depth book has room for any level that `e` opens.
pub open spec fn has_room(b: BookModel, e: Event, cap: nat) -> bool {
    &&& e.event_type == event::event_code(EventType::OrderAdd) ==> hot_book::hot_add(b, e, cap).1
    &&& e.event_type == event::event_code(EventType::OrderModify) ==> hot_book::hot_add(
        hot_book::hot_cancel(b, e).0,
        e,
        cap,
    ).1
}

/// From the same book both implementations reach the same book, on every event
/// that names an order, with a known side and room for its level, and report the
/// same.
pub proof fn books_agree(b: BookModel, e: Event, cap: nat)
    requires
        e.order_id != 0,
        known_side(e),
        has_room(b, e, cap),
    ensures
        hot_book::hot_apply(b, e, cap) == orderbook::ref_apply(b, e),
{
}

/// A stream through the fixed-depth book.
pub open spec fn run_serial(b: BookModel, es: Seq<Event>, cap: nat) -> BookModel
    decreases es.len(),
{
    if es.len() == 0 {
        b
    } else {
        hot_book::hot_apply(run_serial(b, es.drop_last(), cap), es.last(), cap).0
    }
}

/// A stream through the reference book.
pub open spec fn run_reference(b: BookModel, es: Seq<Event>) -> BookModel
    decreases es.len(),
{
    if es.len() == 0 {
        b
    } else {
        orderbook::ref_apply(run_reference(b, es.drop_last()), es.last()).0
    }
}

/// Every event of the stream names its order, has a known side and finds room.
pub open spec fn tractable(b: BookModel, es: Seq<Event>, cap: nat) -> bool {
    forall|i: int|
        0 <= i < es.len() ==> {
            &&& (#[trigger] es[i]).order_id != 0
            &&& known_side(es[i])
            &&& has_room(run_serial(b, es.take(i), cap), es[i], cap)
        }
}

/// Fed the same stream, both implementations hold the same book and hence the
/// same canonical digest.
pub proof fn books_agree_on_streams(b: BookModel, es: Seq<Event>, cap: nat)
    requires
        tractable(b, es, cap),
    ensures
        run_serial(b, es, cap) == run_reference(b, es),
        digest::l2_digest(
            digest::best_first(run_serial(b, es, cap).bids, true),
            digest::best_first(run_serial(b, es, cap).asks, false),
        ) == digest::l2_digest(
            digest::best_first(run_reference(b, es).bids, true),
            digest::best_first(run_reference(b, es).asks, false),
        ),
    decreases es.len(),
{
    if es.len() > 0 {
        let d = es.drop_last();
        assert forall|i: int| 0 <= i < d.len() implies {
            &&& (#[trigger] d[i]).order_id != 0
            &&& known_side(d[i])
            &&& has_room(run_serial(b, d.take(i), cap), d[i], cap)
        } by {
            assert(d[i] == es[i]);
            assert(d.take(i) =~= es.take(i));
        }
        books_agree_on_streams(b, d, cap);
        let last = es[es.len() - 1];
        assert(es.take(es.len() - 1) =~= d);
        books_agree(run_serial(b, d, cap), last, cap);
    }
}

// ─── Undoing and ignoring ───────────────────────────────────────────

/// A full cancel right after an add of a new order restores the book, in either
/// implementation.
pub proof fn cancel_undoes_add(b: BookModel, add: Event, cancel: Event, cap: nat)
    requires
        b.valid(),
        !b.orders.contains_key(add.order_id),
        cancel.order_id == add.order_id,
        cancel.qty == 0 || cancel.qty >= add.qty,
    ensures
        add.order_id != 0 && hot_book::hot_add(b, add, cap).1 ==> hot_book::hot_cancel(
            hot_book::hot_add(b, add, cap).0,
            cancel,
        ) == (b, true),
        orderbook::ref_add(b, add).1 ==> orderbook::ref_cancel(orderbook::ref_add(b, add).0, cancel) == (
            b,
            true,
        ),
{
    let placed = b.place(add.order_id, model::order_of(add));
    let n = placed.reduce(add.order_id, model::after_cancel(placed.orders[add.order_id], cancel.qty));
    let is_bid = add.side == 0;
    let m = b.side(is_bid);
    assert(n.orders =~= b.orders);
    assert(n.side(is_bid) =~= m) by {
        if m.contains_key(add.price) {
            assert(m[add.price].count >= 1);
        }
    }
    assert(n.side(!is_bid) == b.side(!is_bid));
    assert(n.bids == n.side(true) && n.asks == n.side(false));
    assert(b.bids == b.side(true) && b.asks == b.side(false));
}

/// A cancel or trade that names an order the book does not hold changes
/// nothing, in either implementation, and is reported as no change.
pub proof fn unknown_order_is_ignored(b: BookModel, e: Event, cap: nat)
    requires
        e.order_id != 0,
        !b.orders.contains_key(e.order_id),
        e.event_type == event::event_code(EventType::OrderCancel) || e.event_type
            == event::event_code(EventType::Trade),
    ensures
        hot_book::hot_apply(b, e, cap) == (b, false),
        orderbook::ref_apply(b, e) == (b, false),
{
}

/// What an event does to either book does not depend on when it happened.
pub proof fn timestamps_do_not_matter(b: BookModel, e: Event, ts: u64, cap: nat)
    ensures
        hot_book::hot_apply(b, Event { ts, ..e }, cap) == hot_book::hot_apply(b, e, cap),
        orderbook::ref_apply(b, Event { ts, ..e }) == orderbook::ref_apply(b, e),
{
}

/// No more than `cap` levels a side, and none without an order.
pub open spec fn within_depth(b: BookModel, cap: nat) -> bool {
    &&& b.valid()
    &&& b.bids.len() <= cap
    &&& b.asks.len() <= cap
}

proof fn lemma_add_within_depth(b: BookModel, e: Event, cap: nat)
    requires
        within_depth(b, cap),
    ensures
        within_depth(hot_book::hot_add(b, e, cap).0, cap),
{
}

proof fn lemma_cancel_within_depth(b: BookModel, e: Event, cap: nat)
    requires
        within_depth(b, cap),
    ensures
        within_depth(hot_book::hot_cancel(b, e).0, cap),
{
}

proof fn lemma_trade_within_depth(b: BookModel, e: Event, cap: nat)
    requires
        within_depth(b, cap),
    ensures
        within_depth(hot_book::hot_trade(b, e).0, cap),
{
}

/// The fixed-depth book never holds more than `cap` levels a side, nor a level
/// without an order.
pub proof fn depth_stays_bounded(b: BookModel, e: Event, cap: nat)
    requires
        within_depth(b, cap),
    ensures
        within_depth(hot_book::hot_apply(b, e, cap).0, cap),
{
    lemma_add_within_depth(b, e, cap);
    lemma_cancel_within_depth(b, e, cap);
    lemma_trade_within_depth(b, e, cap);
    lemma_add_within_depth(hot_book::hot_cancel(b, e).0, e, cap);
}

/// However many events come, and whatever they are, the fixed-depth book never
/// holds more than `cap` levels a side, nor a level without an order.
pub proof fn depth_stays_bounded_throughout(b: BookModel, es: Seq<Event>, cap: nat)
    requires
        within_depth(b, cap),
    ensures
        within_depth(run_serial(b, es, cap), cap),
    decreases es.len(),
{
    if es.len() > 0 {
        depth_stays_bounded_throughout(b, es.drop_last(), cap);
        depth_stays_bounded(run_serial(b, es.drop_last(), cap), es.last(), cap);
    }
}

/// The event names its order, and an add or modify brings a quantity.
pub open spec fn substantial(e: Event) -> bool {
    &&& e.order_id != 0
    &&& e.event_type == event::event_code(EventType::OrderAdd) || e.event_type == event::event_code(
        EventType::OrderModify,
    ) ==> e.qty > 0
}

/// Orders that have a quantity give their level one.
proof fn lemma_positive_qty(orders: Map<u64, OrderMeta>, is_bid: bool, p: u64)
    requires
        positive_orders(orders),
        resting_count(orders, is_bid, p) > 0,
    ensures
        resting_qty(orders, is_bid, p) > 0,
    decreases orders.dom().len(),
{
    let c = orders.dom().choose();
    assert(orders.contains_key(c));
    if !rests_at(orders[c], is_bid, p) {
        lemma_positive_qty(orders.remove(c), is_bid, p);
    }
}

proof fn lemma_positive_side(m: Ladder, orders: Map<u64, OrderMeta>, is_bid: bool, r: Remainder)
    requires
        side_is_covered(m, orders, is_bid, r),
        positive_orders(orders),
        solid(r),
    ensures
        positive_levels(m),
{
    assert forall|p: u64| #[trigger] m.contains_key(p) implies m[p].qty > 0 by {
        if resting_count(orders, is_bid, p) > 0 {
            lemma_positive_qty(orders, is_bid, p);
        } else {
            assert(r(is_bid, p).count > 0);
        }
    }
}

/// After an event of a named order every level still is its orders and some
/// remainder; where all of them had a quantity and the event brings one, they have.
proof fn lemma_step_covered(p: BookModel, t: Remainder, e: Event, cap: nat) -> (s: Remainder)
    requires
        covered(p, t),
        named(e),
    ensures
        covered(hot_book::hot_apply(p, e, cap).0, s),
        solid(t) && positive_orders(p.orders) && substantial(e) ==> solid(s) && positive_orders(
            hot_book::hot_apply(p, e, cap).0.orders,
        ),
{
    let id = e.order_id;
    if p.orders.contains_key(id) {
        lemma_reduce(p, t, id, model::after_cancel(p.orders[id], e.qty));
        lemma_reduce(p, t, id, model::after_trade(p.orders[id], e.qty));
    }
    let c = hot_book::hot_cancel(p, e).0;
    assert(positive_orders(p.orders) && id != 0 ==> positive_orders(c.orders));
    if e.event_type == event::event_code(EventType::OrderAdd) && hot_book::hot_add(p, e, cap).1 {
        lemma_replace(p, t, id, model::order_of(e))
    } else if e.event_type == event::event_code(EventType::OrderModify) && hot_book::hot_add(c, e, cap).1 {
        lemma_replace(c, t, id, model::order_of(e))
    } else {
        t
    }
}

/// After a stream every level still is its orders and some remainder, all of them
/// with a quantity.
proof fn lemma_serial_covered(b: BookModel, r: Remainder, es: Seq<Event>, cap: nat) -> (s: Remainder)
    requires
        covered(b, r),
        solid(r),
        positive_orders(b.orders),
        forall|i: int| 0 <= i < es.len() ==> substantial(#[trigger] es[i]),
    ensures
        covered(run_serial(b, es, cap), s),
        solid(s),
        positive_orders(run_serial(b, es, cap).orders),
    decreases es.len(),
{
    if es.len() == 0 {
        r
    } else {
        let d = es.drop_last();
        assert forall|i: int| 0 <= i < d.len() implies substantial(#[trigger] d[i]) by {
            assert(d[i] == es[i]);
        }
        let t = lemma_serial_covered(b, r, d, cap);
        assert(substantial(es[es.len() - 1]));
        lemma_step_covered(run_serial(b, d, cap), t, es.last(), cap)
    }
}

/// However many events come, each of a named order and no add without a quantity,
/// the fixed-depth book keeps within its depth, and every level keeps an order and
/// a quantity.
pub proof fn hot_levels_stay_sound(b: BookModel, es: Seq<Event>, cap: nat)
    requires
        consistent(b),
        within_depth(b, cap),
        positive_orders(b.orders),
        forall|i: int| 0 <= i < es.len() ==> substantial(#[trigger] es[i]),
    ensures
        within_depth(run_serial(b, es, cap), cap),
        positive_levels(run_serial(b, es, cap).bids),
        positive_levels(run_serial(b, es, cap).asks),
        positive_orders(run_serial(b, es, cap).orders),
{
    depth_stays_bounded_throughout(b, es, cap);
    lemma_no_remainder(b);
    let s = lemma_serial_covered(b, no_remainder(), es, cap);
    let n = run_serial(b, es, cap);
    lemma_positive_side(n.bids, n.orders, true, s);
    lemma_positive_side(n.asks, n.orders, false, s);
}

/// The same of the book that is stored: after any such events its levels are
/// strictly from the best on, no more than it is deep, each with an order and a
/// quantity.
pub proof fn hot_book_stays_sound<const MAX_LEVELS: usize>(
    book: hot_book::HotOrderBook<MAX_LEVELS>,
    b: BookModel,
    es: Seq<Event>,
)
    requires
        consistent(b),
        within_depth(b, MAX_LEVELS as nat),
        positive_orders(b.orders),
        forall|i: int| 0 <= i < es.len() ==> substantial(#[trigger] es[i]),
        book.wf(),
        book@ == run_serial(b, es, MAX_LEVELS as nat),
    ensures
        ladder::sorted(book.bid_seq(), true),
        ladder::sorted(book.ask_seq(), false),
        book.bid_seq().len() <= MAX_LEVELS,
        book.ask_seq().len() <= MAX_LEVELS,
        forall|i: int|
            #![trigger book.bid_seq()[i]]
            0 <= i < book.bid_seq().len() ==> book.bid_seq()[i].total_qty > 0
                && book.bid_seq()[i].order_count > 0,
        forall|i: int|
            #![trigger book.ask_seq()[i]]
            0 <= i < book.ask_seq().len() ==> book.ask_seq()[i].total_qty > 0
                && book.ask_seq()[i].order_count > 0,
{
    book.lemma_wf();
    hot_levels_stay_sound(b, es, MAX_LEVELS as nat);
    assert forall|i: int| #![trigger book.bid_seq()[i]] 0 <= i < book.bid_seq().len() implies book.bid_seq()[i].total_qty
        > 0 && book.bid_seq()[i].order_count > 0 by {
        ladder::lemma_level_at(book.bid_seq(), true, i);
    }
    assert forall|i: int| #![trigger book.ask_seq()[i]] 0 <= i < book.ask_seq().len() implies book.ask_seq()[i].total_qty
        > 0 && book.ask_seq()[i].order_count > 0 by {
        ladder::lemma_level_at(book.ask_seq(), false, i);
    }
}

/// Every event of a stream is orderly when it comes to the reference book.
pub open spec fn orderly_throughout(b: BookModel, es: Seq<Event>) -> bool {
    forall|i: int| 0 <= i < es.len() ==> orderly(#[trigger] run_reference(b, es.take(i)), es[i])
}

/// However many orderly events come, the reference book stays consistent: each
/// level is always the sum of the orders resting there.
pub proof fn reference_book_stays_consistent_throughout(b: BookModel, es: Seq<Event>)
    requires
        consistent(b),
        orderly_throughout(b, es),
    ensures
        consistent(run_reference(b, es)),
    decreases es.len(),
{
    if es.len() > 0 {
        let d = es.drop_last();
        assert forall|i: int| 0 <= i < d.len() implies orderly(
            #[trigger] run_reference(b, d.take(i)),
            d[i],
        ) by {
            assert(d.take(i) =~= es.take(i));
            assert(orderly(run_reference(b, es.take(i)), es[i]));
        }
        reference_book_stays_consistent_throughout(b, d);
        assert(es.take(es.len() - 1) =~= d);
        assert(orderly(run_reference(b, es.take(es.len() - 1)), es[es.len() - 1]));
        reference_book_stays_consistent(run_reference(b, d), es.last());
    }
}

/// Every event of a stream is orderly when it comes to the fixed-depth book, and
/// names its order.
pub open spec fn orderly_in_depth(b: BookModel, es: Seq<Event>, cap: nat) -> bool {
    forall|i: int|
        0 <= i < es.len() ==> orderly(#[trigger] run_serial(b, es.take(i), cap), es[i])
            && es[i].order_id != 0
}

/// The same of the fixed-depth book.
pub proof fn hot_book_stays_consistent_throughout(b: BookModel, es: Seq<Event>, cap: nat)
    requires
        consistent(b),
        orderly_in_depth(b, es, cap),
    ensures
        consistent(run_serial(b, es, cap)),
    decreases es.len(),
{
    if es.len() > 0 {
        let d = es.drop_last();
        assert forall|i: int| 0 <= i < d.len() implies orderly(
            #[trigger] run_serial(b, d.take(i), cap),
            d[i],
        ) && d[i].order_id != 0 by {
            assert(d.take(i) =~= es.take(i));
            assert(orderly(run_serial(b, es.take(i), cap), es[i]));
        }
        hot_book_stays_consistent_throughout(b, d, cap);
        assert(es.take(es.len() - 1) =~= d);
        assert(orderly(run_serial(b, es.take(es.len() - 1), cap), es[es.len() - 1]));
        hot_book_stays_consistent(run_serial(b, d, cap), es.last(), cap);
    }
}

// ─── Batches ────────────────────────────────────────────────────────

/// One event's effect on the orders alone.
pub open spec fn order_step(orders: Map<u64, OrderMeta>, e: Event) -> Map<u64, OrderMeta> {
    if e.event_type == event::event_code(EventType::OrderAdd) {
        orders.insert(e.order_id, model::order_of(e))
    } else if e.event_type == event::event_code(EventType::OrderCancel) && orders.contains_key(
        e.order_id,
    ) {
        model::settle(orders, e.order_id, model::after_cancel(orders[e.order_id], e.qty))
    } else if e.event_type == event::event_code(EventType::Trade) && orders.contains_key(e.order_id) {
        model::settle(orders, e.order_id, model::after_trade(orders[e.order_id], e.qty))
    } else {
        orders
    }
}

/// A stream's effect on the orders alone.
pub open spec fn order_serial(orders: Map<u64, OrderMeta>, es: Seq<Event>) -> Map<u64, OrderMeta>
    decreases es.len(),
{
    if es.len() == 0 {
        orders
    } else {
        order_step(order_serial(orders, es.drop_last()), es.last())
    }
}

/// One pass's effect on the orders alone.
pub open spec fn order_lane(
    orders: Map<u64, OrderMeta>,
    es: Seq<Event>,
    lane: Lane,
) -> Map<u64, OrderMeta>
    decreases es.len(),
{
    if es.len() == 0 {
        orders
    } else {
        let p = order_lane(orders, es.drop_last(), lane);
        if hot_book::in_lane(lane, es.last()) {
            order_step(p, es.last())
        } else {
            p
        }
    }
}

/// An order event names an order.
pub open spec fn named(e: Event) -> bool {
    1 <= e.event_type <= 4 ==> e.order_id != 0
}

/// No modify, and an order event names an order.
pub open spec fn plain(e: Event) -> bool {
    &&& e.event_type != event::event_code(EventType::OrderModify)
    &&& named(e)
}

/// The event is an add of order `id`.
pub open spec fn adds(e: Event, id: u64) -> bool {
    e.event_type == event::event_code(EventType::OrderAdd) && e.order_id == id
}

/// A conformant batch: each order added once, under an ID that the book does not
/// hold, and before anything else names it.
pub open spec fn conformant(orders: Map<u64, OrderMeta>, es: Seq<Event>) -> bool {
    &&& forall|i: int| 0 <= i < es.len() ==> named(#[trigger] es[i])
    &&& forall|i: int|
        0 <= i < es.len() && adds(#[trigger] es[i], es[i].order_id) ==> !orders.contains_key(
            es[i].order_id,
        )
    &&& forall|i: int, j: int|
        0 <= i < j < es.len() && adds(#[trigger] es[j], es[j].order_id) ==> (#[trigger] es[i]).order_id
            != es[j].order_id || es[i].event_type == 0 || es[i].event_type > 4
}

/// A conformant batch without modifies.
pub open spec fn conformant_part(orders: Map<u64, OrderMeta>, es: Seq<Event>) -> bool {
    &&& forall|i: int| 0 <= i < es.len() ==> plain(#[trigger] es[i])
    &&& forall|i: int|
        0 <= i < es.len() && adds(#[trigger] es[i], es[i].order_id) ==> !orders.contains_key(
            es[i].order_id,
        )
    &&& forall|i: int, j: int|
        0 <= i < j < es.len() && adds(#[trigger] es[j], es[j].order_id) ==> (#[trigger] es[i]).order_id
            != es[j].order_id || es[i].event_type == 0 || es[i].event_type > 4
}

proof fn lemma_conformant_prefix(orders: Map<u64, OrderMeta>, es: Seq<Event>)
    requires
        conformant_part(orders, es),
        es.len() > 0,
    ensures
        conformant_part(orders, es.drop_last()),
{
    let d = es.drop_last();
    assert forall|i: int| 0 <= i < d.len() implies plain(#[trigger] d[i]) by {
        assert(d[i] == es[i]);
    }
    assert forall|i: int| 0 <= i < d.len() && adds(#[trigger] d[i], d[i].order_id) implies !orders.contains_key(
        d[i].order_id,
    ) by {
        assert(d[i] == es[i]);
    }
    assert forall|i: int, j: int| 0 <= i < j < d.len() && adds(#[trigger] d[j], d[j].order_id) implies (#[trigger] d[i]).order_id
        != d[j].order_id || d[i].event_type == 0 || d[i].event_type > 4 by {
        assert(d[i] == es[i] && d[j] == es[j]);
    }
}

/// A trade or cancel of a given order, moved over another event.
proof fn lemma_steps_commute(orders: Map<u64, OrderMeta>, e: Event, f: Event)
    requires
        plain(e),
        plain(f),
        e.order_id != f.order_id || {
            &&& e.event_type != event::event_code(EventType::OrderAdd)
            &&& f.event_type != event::event_code(EventType::OrderAdd)
        },
    ensures
        order_step(order_step(orders, e), f) == order_step(order_step(orders, f), e),
{
    let ef = order_step(order_step(orders, e), f);
    let fe = order_step(order_step(orders, f), e);
    assert(ef =~= fe);
}

/// An event can be moved over a whole pass that it commutes with.
proof fn lemma_step_over_lane(orders: Map<u64, OrderMeta>, es: Seq<Event>, lane: Lane, e: Event)
    requires
        plain(e),
        lane !is Adds,
        forall|i: int| 0 <= i < es.len() ==> plain(#[trigger] es[i]),
        adds(e, e.order_id) ==> forall|i: int|
            0 <= i < es.len() && 1 <= (#[trigger] es[i]).event_type <= 4 ==> es[i].order_id != e.order_id,
    ensures
        order_lane(order_step(orders, e), es, lane) == order_step(order_lane(orders, es, lane), e),
    decreases es.len(),
{
    if es.len() > 0 {
        let d = es.drop_last();
        assert forall|i: int| 0 <= i < d.len() implies plain(#[trigger] d[i]) by {
            assert(d[i] == es[i]);
        }
        if adds(e, e.order_id) {
            assert forall|i: int| 0 <= i < d.len() && 1 <= (#[trigger] d[i]).event_type <= 4 implies d[i].order_id
                != e.order_id by {
                assert(d[i] == es[i]);
            }
        }
        lemma_step_over_lane(orders, d, lane, e);
        let f = es[es.len() - 1];
        assert(plain(f));
        if hot_book::in_lane(lane, f) {
            lemma_steps_commute(order_lane(orders, d, lane), e, f);
        }
    }
}

/// On the orders, the three passes end where the stream ends.
proof fn lemma_lanes_match_orders(orders: Map<u64, OrderMeta>, es: Seq<Event>)
    requires
        conformant_part(orders, es),
    ensures
        order_lane(
            order_lane(order_lane(orders, es, Lane::Adds), es, Lane::Trades),
            es,
            Lane::Cancels,
        ) == order_serial(orders, es),
    decreases es.len(),
{
    if es.len() > 0 {
        let d = es.drop_last();
        let e = es[es.len() - 1];
        lemma_conformant_prefix(orders, es);
        lemma_lanes_match_orders(orders, d);
        let a = order_lane(orders, d, Lane::Adds);
        let t = order_lane(a, d, Lane::Trades);
        assert(plain(e));
        assert forall|i: int| 0 <= i < d.len() implies plain(#[trigger] d[i]) by {
            assert(d[i] == es[i]);
        }
        if adds(e, e.order_id) {
            assert forall|i: int| 0 <= i < d.len() && 1 <= (#[trigger] d[i]).event_type <= 4 implies d[i].order_id
                != e.order_id by {
                assert(d[i] == es[i]);
            }
            lemma_step_over_lane(a, d, Lane::Trades, e);
            lemma_step_over_lane(t, d, Lane::Cancels, e);
        } else if e.event_type == event::event_code(EventType::Trade) {
            lemma_step_over_lane(t, d, Lane::Cancels, e);
        }
    }
}

/// Orders come from the book or from an add of the stream.
proof fn lemma_serial_keys(orders: Map<u64, OrderMeta>, es: Seq<Event>, k: u64)
    requires
        order_serial(orders, es).contains_key(k),
    ensures
        orders.contains_key(k) || exists|i: int| 0 <= i < es.len() && adds(#[trigger] es[i], k),
    decreases es.len(),
{
    if es.len() > 0 {
        let d = es.drop_last();
        let e = es[es.len() - 1];
        if order_serial(orders, d).contains_key(k) {
            lemma_serial_keys(orders, d, k);
            if !orders.contains_key(k) {
                let i = choose|i: int| 0 <= i < d.len() && adds(#[trigger] d[i], k);
                assert(adds(es[i], k));
            }
        } else {
            assert(adds(e, k));
        }
    }
}

/// Every add of the batch finds room for its level in the add pass.
pub open spec fn adds_accepted(b: BookModel, es: Seq<Event>, cap: nat) -> bool {
    forall|i: int|
        0 <= i < es.len() && hot_book::in_lane(Lane::Adds, #[trigger] es[i]) ==> hot_book::hot_add(
            hot_book::run_lane(b, es.take(i), Lane::Adds, cap).0,
            es[i],
            cap,
        ).1
}

proof fn lemma_accepted_prefix(b: BookModel, es: Seq<Event>, cap: nat)
    requires
        adds_accepted(b, es, cap),
        es.len() > 0,
    ensures
        adds_accepted(b, es.drop_last(), cap),
{
    let d = es.drop_last();
    assert forall|i: int| 0 <= i < d.len() && hot_book::in_lane(Lane::Adds, #[trigger] d[i]) implies hot_book::hot_add(
        hot_book::run_lane(b, d.take(i), Lane::Adds, cap).0,
        d[i],
        cap,
    ).1 by {
        assert(d[i] == es[i]);
        assert(d.take(i) =~= es.take(i));
    }
}

proof fn lemma_lane_keys(orders: Map<u64, OrderMeta>, es: Seq<Event>, lane: Lane, k: u64)
    requires
        order_lane(orders, es, lane).contains_key(k),
    ensures
        orders.contains_key(k) || (lane is Adds && exists|i: int| 0 <= i < es.len() && adds(#[trigger] es[i], k)),
    decreases es.len(),
{
    if es.len() > 0 {
        let d = es.drop_last();
        let e = es[es.len() - 1];
        if order_lane(orders, d, lane).contains_key(k) {
            lemma_lane_keys(orders, d, lane, k);
            if !orders.contains_key(k) {
                let i = choose|i: int| 0 <= i < d.len() && adds(#[trigger] d[i], k);
                assert(adds(es[i], k));
            }
        } else {
            assert(adds(e, k));
        }
    }
}

/// The add pass keeps the book consistent and does to the orders what it says.
proof fn lemma_add_lane(b: BookModel, r: Remainder, es: Seq<Event>, cap: nat)
    requires
        covered(b, r),
        conformant_part(b.orders, es),
        adds_accepted(b, es, cap),
    ensures
        covered(hot_book::run_lane(b, es, Lane::Adds, cap).0, r),
        hot_book::run_lane(b, es, Lane::Adds, cap).0.orders == order_lane(b.orders, es, Lane::Adds),
    decreases es.len(),
{
    if es.len() > 0 {
        let d = es.drop_last();
        let e = es[es.len() - 1];
        lemma_conformant_prefix(b.orders, es);
        lemma_accepted_prefix(b, es, cap);
        lemma_add_lane(b, r, d, cap);
        let p = hot_book::run_lane(b, d, Lane::Adds, cap).0;
        assert(es.take(es.len() - 1) =~= d);
        assert(plain(e));
        if hot_book::in_lane(Lane::Adds, e) {
            assert(adds(e, e.order_id));
            assert(!p.orders.contains_key(e.order_id)) by {
                if p.orders.contains_key(e.order_id) {
                    lemma_lane_keys(b.orders, d, Lane::Adds, e.order_id);
                    let i = choose|i: int| 0 <= i < d.len() && adds(#[trigger] d[i], e.order_id);
                    assert(d[i] == es[i]);
                }
            }
            lemma_place(p, r, e.order_id, model::order_of(e));
        }
    }
}

/// So do the trade and the cancel pass.
proof fn lemma_reduce_lane(b: BookModel, r: Remainder, es: Seq<Event>, lane: Lane, cap: nat)
    requires
        covered(b, r),
        lane !is Adds,
        forall|i: int| 0 <= i < es.len() ==> plain(#[trigger] es[i]),
    ensures
        covered(hot_book::run_lane(b, es, lane, cap).0, r),
        hot_book::run_lane(b, es, lane, cap).0.orders == order_lane(b.orders, es, lane),
    decreases es.len(),
{
    if es.len() > 0 {
        let d = es.drop_last();
        let e = es[es.len() - 1];
        assert forall|i: int| 0 <= i < d.len() implies plain(#[trigger] d[i]) by {
            assert(d[i] == es[i]);
        }
        lemma_reduce_lane(b, r, d, lane, cap);
        let p = hot_book::run_lane(b, d, lane, cap).0;
        assert(plain(e));
        if p.orders.contains_key(e.order_id) {
            lemma_reduce(p, r, e.order_id, model::after_cancel(p.orders[e.order_id], e.qty));
            lemma_reduce(p, r, e.order_id, model::after_trade(p.orders[e.order_id], e.qty));
        }
    }
}

/// Whatever rests along the stream also rests, at the same place, after the
/// add pass over the same events.
proof fn lemma_serial_within_adds(orders: Map<u64, OrderMeta>, es: Seq<Event>)
    requires
        conformant_part(orders, es),
    ensures
        forall|k: u64| #[trigger]
            order_serial(orders, es).contains_key(k) ==> {
                let a = order_lane(orders, es, Lane::Adds);
                &&& a.contains_key(k)
                &&& a[k].price == order_serial(orders, es)[k].price
                &&& a[k].side == order_serial(orders, es)[k].side
            },
    decreases es.len(),
{
    if es.len() > 0 {
        lemma_conformant_prefix(orders, es);
        let d = es.drop_last();
        lemma_serial_within_adds(orders, d);
        assert(plain(es[es.len() - 1]));
        assert forall|k: u64| #[trigger] order_serial(orders, es).contains_key(k) implies {
            let a = order_lane(orders, es, Lane::Adds);
            &&& a.contains_key(k)
            &&& a[k].price == order_serial(orders, es)[k].price
            &&& a[k].side == order_serial(orders, es)[k].side
        } by {
            if !adds(es.last(), k) {
                assert(order_serial(orders, d).contains_key(k));
            }
        }
    }
}

proof fn lemma_levels_within(s: BookModel, a: BookModel, r: Remainder, is_bid: bool)
    requires
        covered(s, r),
        covered(a, r),
        forall|k: u64| #[trigger]
            s.orders.contains_key(k) ==> {
                &&& a.orders.contains_key(k)
                &&& a.orders[k].price == s.orders[k].price
                &&& a.orders[k].side == s.orders[k].side
            },
    ensures
        s.side(is_bid).dom().subset_of(a.side(is_bid).dom()),
{
    assert forall|p: u64| s.side(is_bid).dom().contains(p) implies a.side(is_bid).dom().contains(p) by {
        assert(side_is_covered(s.side(is_bid), s.orders, is_bid, r));
        assert(side_is_covered(a.side(is_bid), a.orders, is_bid, r));
        assert(s.side(is_bid).contains_key(p));
        if resting_count(s.orders, is_bid, p) > 0 {
            lemma_count_witness(s.orders, is_bid, p);
            let k = choose|k: u64| #[trigger]
                s.orders.contains_key(k) && rests_at(s.orders[k], is_bid, p);
            lemma_count_apart(a.orders, is_bid, p, k);
        }
        assert(a.side(is_bid).contains_key(p) <==> resting_count(a.orders, is_bid, p) + r(is_bid, p).count
            > 0);
    }
}

/// Event by event the book stays consistent and does to the orders what the
/// stream says.
proof fn lemma_serial(b: BookModel, r: Remainder, es: Seq<Event>, cap: nat)
    requires
        covered(b, r),
        b.bids.len() <= cap,
        b.asks.len() <= cap,
        conformant_part(b.orders, es),
        adds_accepted(b, es, cap),
    ensures
        covered(run_serial(b, es, cap), r),
        run_serial(b, es, cap).orders == order_serial(b.orders, es),
    decreases es.len(),
{
    if es.len() > 0 {
        let d = es.drop_last();
        let e = es[es.len() - 1];
        lemma_conformant_prefix(b.orders, es);
        lemma_accepted_prefix(b, es, cap);
        lemma_serial(b, r, d, cap);
        lemma_add_lane(b, r, d, cap);
        lemma_add_lane_bounded(b, d, cap);
        let p = run_serial(b, d, cap);
        let a = hot_book::run_lane(b, d, Lane::Adds, cap).0;
        assert(es.take(es.len() - 1) =~= d);
        assert(plain(e));
        if adds(e, e.order_id) {
            assert(!p.orders.contains_key(e.order_id)) by {
                if p.orders.contains_key(e.order_id) {
                    lemma_serial_keys(b.orders, d, e.order_id);
                    let i = choose|i: int| 0 <= i < d.len() && adds(#[trigger] d[i], e.order_id);
                    assert(d[i] == es[i]);
                }
            }
            let is_bid = e.side == 0;
            lemma_serial_within_adds(b.orders, d);
            lemma_levels_within(p, a, r, is_bid);
            assert(hot_book::hot_add(a, e, cap).1);
            vstd::set_lib::lemma_len_subset(p.side(is_bid).dom(), a.side(is_bid).dom());
            if !p.side(is_bid).contains_key(e.price) && a.side(is_bid).contains_key(e.price) {
                vstd::set_lib::lemma_len_subset(
                    p.side(is_bid).dom().insert(e.price),
                    a.side(is_bid).dom(),
                );
            }
            assert(hot_book::hot_add(p, e, cap).1);
            lemma_place(p, r, e.order_id, model::order_of(e));
        } else if p.orders.contains_key(e.order_id) {
            lemma_reduce(p, r, e.order_id, model::after_cancel(p.orders[e.order_id], e.qty));
            lemma_reduce(p, r, e.order_id, model::after_trade(p.orders[e.order_id], e.qty));
        }
    }
}

proof fn lemma_add_lane_bounded(b: BookModel, es: Seq<Event>, cap: nat)
    requires
        b.valid(),
        b.bids.len() <= cap,
        b.asks.len() <= cap,
    ensures
        hot_book::run_lane(b, es, Lane::Adds, cap).0.valid(),
        hot_book::run_lane(b, es, Lane::Adds, cap).0.bids.len() <= cap,
        hot_book::run_lane(b, es, Lane::Adds, cap).0.asks.len() <= cap,
    decreases es.len(),
{
    if es.len() > 0 {
        lemma_add_lane_bounded(b, es.drop_last(), cap);
    }
}

/// Without modifies the three passes end in the book that applying the events one
/// by one ends in.
proof fn lemma_part_matches(b: BookModel, r: Remainder, es: Seq<Event>, cap: nat)
    requires
        covered(b, r),
        b.bids.len() <= cap,
        b.asks.len() <= cap,
        conformant_part(b.orders, es),
        adds_accepted(b, es, cap),
    ensures
        hot_book::run_lanes(b, es, cap).0 == run_serial(b, es, cap),
        covered(run_serial(b, es, cap), r),
        run_serial(b, es, cap).orders == order_serial(b.orders, es),
{
    let b1 = hot_book::run_lane(b, es, Lane::Adds, cap).0;
    let b2 = hot_book::run_lane(b1, es, Lane::Trades, cap).0;
    let b3 = hot_book::run_lane(b2, es, Lane::Cancels, cap).0;
    lemma_add_lane(b, r, es, cap);
    lemma_reduce_lane(b1, r, es, Lane::Trades, cap);
    lemma_reduce_lane(b2, r, es, Lane::Cancels, cap);
    lemma_serial(b, r, es, cap);
    lemma_lanes_match_orders(b.orders, es);
    lemma_orders_fix(b3, run_serial(b, es, cap), r);
}

/// Every add of a whole batch finds room for its level in the add pass over its
/// part.
pub open spec fn batch_accepted(b: BookModel, es: Seq<Event>, cap: nat) -> bool
    decreases es.len(),
{
    let w = hot_book::last_part(es);
    if w == 0 || w > es.len() {
        adds_accepted(b, es, cap)
    } else {
        let p = hot_book::run_batch(b, es.take(w - 1), cap).0;
        &&& batch_accepted(b, es.take(w - 1), cap)
        &&& adds_accepted(hot_book::hot_modify(p, es[w - 1], cap).0, es.skip(w as int), cap)
    }
}

/// The event brings an order under this ID.
pub open spec fn brings(e: Event, id: u64) -> bool {
    adds(e, id) || (hot_book::modifies(e) && e.order_id == id)
}

/// A stream can be cut anywhere.
proof fn lemma_serial_split(b: BookModel, es: Seq<Event>, w: int, cap: nat)
    requires
        0 <= w <= es.len(),
    ensures
        run_serial(b, es, cap) == run_serial(run_serial(b, es.take(w), cap), es.skip(w), cap),
    decreases es.len(),
{
    if w == es.len() {
        assert(es.take(w) =~= es);
        assert(es.skip(w) =~= Seq::<Event>::empty());
    } else {
        let d = es.drop_last();
        lemma_serial_split(b, d, w, cap);
        assert(d.take(w) =~= es.take(w));
        assert(es.skip(w).drop_last() =~= d.skip(w));
        assert(es.skip(w).last() == es.last());
    }
}

/// After a modify every level still is its orders and some remainder.
proof fn lemma_modify(b: BookModel, r: Remainder, e: Event, cap: nat) -> (s: Remainder)
    requires
        covered(b, r),
        b.bids.len() <= cap,
        b.asks.len() <= cap,
        e.order_id != 0,
    ensures
        covered(hot_book::hot_modify(b, e, cap).0, s),
        hot_book::hot_modify(b, e, cap).0.bids.len() <= cap,
        hot_book::hot_modify(b, e, cap).0.asks.len() <= cap,
        forall|k: u64| #[trigger]
            hot_book::hot_modify(b, e, cap).0.orders.contains_key(k) ==> b.orders.contains_key(k) || k
                == e.order_id,
{
    let c = hot_book::hot_cancel(b, e).0;
    let id = e.order_id;
    lemma_cancel_within_depth(b, e, cap);
    lemma_add_within_depth(c, e, cap);
    if b.orders.contains_key(id) {
        lemma_reduce(b, r, id, model::after_cancel(b.orders[id], e.qty));
    }
    if !hot_book::hot_add(c, e, cap).1 {
        r
    } else {
        lemma_replace(c, r, id, model::order_of(e))
    }
}

/// A whole batch ends in the book that the stream ends in, which is sound, and
/// whose orders were there or were brought.
proof fn lemma_batch_matches(b: BookModel, r: Remainder, es: Seq<Event>, cap: nat) -> (s: Remainder)
    requires
        covered(b, r),
        b.bids.len() <= cap,
        b.asks.len() <= cap,
        conformant(b.orders, es),
        batch_accepted(b, es, cap),
    ensures
        hot_book::run_batch(b, es, cap).0 == run_serial(b, es, cap),
        covered(run_serial(b, es, cap), s),
        run_serial(b, es, cap).bids.len() <= cap,
        run_serial(b, es, cap).asks.len() <= cap,
        forall|k: u64| #[trigger]
            run_serial(b, es, cap).orders.contains_key(k) ==> b.orders.contains_key(k) || exists|i: int|
                0 <= i < es.len() && brings(#[trigger] es[i], k),
    decreases es.len(),
{
    hot_book::lemma_last_part(es);
    let w = hot_book::last_part(es);
    depth_stays_bounded_throughout(b, es, cap);
    if w == 0 {
        lemma_part_conforms(b.orders, es);
        lemma_part_matches(b, r, es, cap);
        assert forall|k: u64| #[trigger] run_serial(b, es, cap).orders.contains_key(k) implies b.orders.contains_key(
            k,
        ) || exists|i: int| 0 <= i < es.len() && brings(#[trigger] es[i], k) by {
            lemma_serial_keys(b.orders, es, k);
            if !b.orders.contains_key(k) {
                let i = choose|i: int| 0 <= i < es.len() && adds(#[trigger] es[i], k);
                assert(brings(es[i], k));
            }
        }
        r
    } else {
        let d = es.take(w - 1);
        let e = es[w - 1];
        let rest = es.skip(w as int);
        assert(conformant(b.orders, d)) by {
            assert forall|i: int| 0 <= i < d.len() implies named(#[trigger] d[i]) by {
                assert(d[i] == es[i]);
            }
            assert forall|i: int| 0 <= i < d.len() && adds(#[trigger] d[i], d[i].order_id) implies !b.orders.contains_key(
                d[i].order_id,
            ) by {
                assert(d[i] == es[i]);
            }
            assert forall|i: int, j: int| 0 <= i < j < d.len() && adds(#[trigger] d[j], d[j].order_id) implies (#[trigger] d[i]).order_id
                != d[j].order_id || d[i].event_type == 0 || d[i].event_type > 4 by {
                assert(d[i] == es[i] && d[j] == es[j]);
            }
        }
        let s = lemma_batch_matches(b, r, d, cap);
        let p = run_serial(b, d, cap);
        assert(named(e));
        let u = lemma_modify(p, s, e, cap);
        let q = hot_book::hot_modify(p, e, cap).0;
        let head = es.take(w as int);
        assert(head.drop_last() =~= d);
        assert(head.last() == e);
        assert(run_serial(b, head, cap) == q);
        lemma_serial_split(b, es, w as int, cap);
        assert forall|k: u64| #[trigger] q.orders.contains_key(k) implies b.orders.contains_key(k) || exists|
            i: int,
        | 0 <= i < w && brings(#[trigger] es[i], k) by {
            if k == e.order_id {
                assert(brings(es[w - 1], k));
            } else if !b.orders.contains_key(k) {
                let i = choose|i: int| 0 <= i < d.len() && brings(#[trigger] d[i], k);
                assert(brings(es[i], k));
            }
        }
        assert(conformant(q.orders, rest)) by {
            assert forall|i: int| 0 <= i < rest.len() implies named(#[trigger] rest[i]) by {
                assert(rest[i] == es[w + i]);
            }
            assert forall|i: int| 0 <= i < rest.len() && adds(#[trigger] rest[i], rest[i].order_id) implies !q.orders.contains_key(
                rest[i].order_id,
            ) by {
                let k = rest[i].order_id;
                assert(rest[i] == es[w + i]);
                assert(adds(es[w + i], es[w + i].order_id));
                if q.orders.contains_key(k) {
                    let j = choose|j: int| 0 <= j < w && brings(#[trigger] es[j], k);
                    assert(es[j].order_id == k);
                }
            }
            assert forall|i: int, j: int|
                0 <= i < j < rest.len() && adds(#[trigger] rest[j], rest[j].order_id) implies (#[trigger] rest[i]).order_id
                != rest[j].order_id || rest[i].event_type == 0 || rest[i].event_type > 4 by {
                assert(rest[i] == es[w + i] && rest[j] == es[w + j]);
            }
        }
        assert forall|i: int| 0 <= i < rest.len() implies !hot_book::modifies(#[trigger] rest[i]) by {
            assert(rest[i] == es[w + i]);
        }
        lemma_part_conforms(q.orders, rest);
        lemma_part_matches(q, u, rest, cap);
        assert forall|k: u64| #[trigger] run_serial(b, es, cap).orders.contains_key(k) implies b.orders.contains_key(
            k,
        ) || exists|i: int| 0 <= i < es.len() && brings(#[trigger] es[i], k) by {
            lemma_serial_keys(q.orders, rest, k);
            if !q.orders.contains_key(k) {
                let i = choose|i: int| 0 <= i < rest.len() && adds(#[trigger] rest[i], k);
                assert(brings(es[w + i], k));
            } else if !b.orders.contains_key(k) {
                let i = choose|i: int| 0 <= i < w && brings(#[trigger] es[i], k);
                assert(brings(es[i], k));
            }
        }
        u
    }
}

/// A conformant batch without modifies is a conformant part.
proof fn lemma_part_conforms(orders: Map<u64, OrderMeta>, es: Seq<Event>)
    requires
        conformant(orders, es),
        forall|i: int| 0 <= i < es.len() ==> !hot_book::modifies(#[trigger] es[i]),
    ensures
        conformant_part(orders, es),
{
    assert forall|i: int| 0 <= i < es.len() implies plain(#[trigger] es[i]) by {
        assert(named(es[i]) && !hot_book::modifies(es[i]));
    }
}

// ─── Books that can be reached ──────────────────────────────────────

/// A level holds at least what the orders resting there say: as many of them and
/// as much, and more of the one only with more of the other.
pub open spec fn level_covers(m: Ladder, orders: Map<u64, OrderMeta>, is_bid: bool, p: u64) -> bool {
    &&& resting_count(orders, is_bid, p) > 0 ==> m.contains_key(p)
    &&& m.contains_key(p) ==> {
        &&& m[p].count >= resting_count(orders, is_bid, p)
        &&& m[p].qty >= resting_qty(orders, is_bid, p)
        &&& m[p].count == resting_count(orders, is_bid, p) ==> m[p].qty == resting_qty(orders, is_bid, p)
    }
}

/// Every level of one side does.
pub open spec fn side_covers(m: Ladder, orders: Map<u64, OrderMeta>, is_bid: bool) -> bool {
    forall|p: u64|
        #![trigger m.contains_key(p)]
        #![trigger resting_count(orders, is_bid, p)]
        level_covers(m, orders, is_bid, p)
}

/// Every level holds at least what the orders resting there say. It may hold more:
/// what was added without an ID, or left behind by an order that another took the
/// ID of.
pub open spec fn settled(b: BookModel) -> bool {
    &&& b.valid()
    &&& side_covers(b.bids, b.orders, true)
    &&& side_covers(b.asks, b.orders, false)
}

/// What a level holds beyond its orders.
spec fn beyond(b: BookModel) -> Remainder {
    |is_bid: bool, p: u64|
        if b.side(is_bid).contains_key(p) {
            LevelModel {
                qty: model::minus(b.side(is_bid)[p].qty, resting_qty(b.orders, is_bid, p)),
                count: model::minus(b.side(is_bid)[p].count, resting_count(b.orders, is_bid, p)),
            }
        } else {
            LevelModel { qty: 0, count: 0 }
        }
}

proof fn lemma_settled_is_covered(b: BookModel)
    requires
        settled(b),
    ensures
        covered(b, beyond(b)),
{
    let r = beyond(b);
    assert forall|is_bid: bool| side_is_covered(#[trigger] b.side(is_bid), b.orders, is_bid, r) by {
        let m = b.side(is_bid);
        assert(side_covers(m, b.orders, is_bid));
        assert forall|p: u64| {
            &&& m.contains_key(p) <==> resting_count(b.orders, is_bid, p) + r(is_bid, p).count > 0
            &&& m.contains_key(p) ==> m[p].qty == resting_qty(b.orders, is_bid, p) + r(is_bid, p).qty
            &&& m.contains_key(p) ==> m[p].count == resting_count(b.orders, is_bid, p) + r(is_bid, p).count
            &&& r(is_bid, p).count == 0 ==> r(is_bid, p).qty == 0
        } by {
            assert(m.contains_key(p) || !m.contains_key(p));
            assert(level_covers(m, b.orders, is_bid, p));
        }
    }
    assert(b.bids == b.side(true) && b.asks == b.side(false));
}

proof fn lemma_covered_is_settled(b: BookModel, r: Remainder)
    requires
        covered(b, r),
    ensures
        settled(b),
{
    assert forall|is_bid: bool| side_covers(#[trigger] b.side(is_bid), b.orders, is_bid) by {
        let m = b.side(is_bid);
        assert(side_is_covered(m, b.orders, is_bid, r));
        assert forall|p: u64| level_covers(m, b.orders, is_bid, p) by {
            assert(m.contains_key(p) <==> resting_count(b.orders, is_bid, p) + r(is_bid, p).count > 0);
        }
    }
    assert(b.bids == b.side(true) && b.asks == b.side(false));
}

/// A consistent book is settled.
pub proof fn consistent_is_settled(b: BookModel)
    requires
        consistent(b),
    ensures
        settled(b),
{
    lemma_no_remainder(b);
    lemma_covered_is_settled(b, no_remainder());
}

/// An event without an ID leaves its level with at least what the named orders
/// there say.
pub open spec fn spares_orders(b: BookModel, e: Event, cap: nat) -> bool {
    let n = hot_book::hot_apply(b, e, cap).0;
    !named(e) ==> level_covers(n.side(e.side == 0), n.orders, e.side == 0, e.price)
}

/// A settled book stays settled with every event, of whatever kind, except for one
/// without an ID that takes what named orders hold. That one does unsettle it.
pub proof fn settled_books_stay_settled(b: BookModel, e: Event, cap: nat)
    requires
        settled(b),
    ensures
        settled(hot_book::hot_apply(b, e, cap).0) <==> spares_orders(b, e, cap),
        e.event_type == event::event_code(EventType::OrderAdd) ==> spares_orders(b, e, cap),
{
    let n = hot_book::hot_apply(b, e, cap).0;
    if named(e) {
        lemma_settled_is_covered(b);
        let s = lemma_step_covered(b, beyond(b), e, cap);
        lemma_covered_is_settled(n, s);
    } else {
        let is_bid = e.side == 0;
        assert(side_covers(b.side(is_bid), b.orders, is_bid));
        assert(level_covers(b.side(is_bid), b.orders, is_bid, e.price)) by {
            assert(b.side(is_bid).contains_key(e.price) || !b.side(is_bid).contains_key(e.price));
        }
        assert(n.orders == b.orders);
        assert(n.side(!is_bid) == b.side(!is_bid));
        assert(n.valid());
        if e.event_type == event::event_code(EventType::OrderAdd) {
            let m = b.side(is_bid);
            if hot_book::hot_add(b, e, cap).1 {
                assert(n.side(is_bid) == model::grow(m, e.price, e.qty as nat));
                if resting_count(b.orders, is_bid, e.price) == 0 {
                    lemma_no_count_no_qty(b.orders, is_bid, e.price);
                }
            }
            assert(level_covers(n.side(is_bid), n.orders, is_bid, e.price));
        }
        if spares_orders(b, e, cap) {
            assert forall|p: u64| level_covers(n.side(is_bid), n.orders, is_bid, p) by {
                assert(b.side(is_bid).contains_key(p) || !b.side(is_bid).contains_key(p));
                assert(level_covers(b.side(is_bid), b.orders, is_bid, p));
            }
            assert(side_covers(n.side(is_bid), n.orders, is_bid));
            assert(side_covers(b.side(!is_bid), b.orders, !is_bid));
        } else if settled(n) {
            assert(side_covers(n.side(is_bid), n.orders, is_bid));
            assert(n.side(is_bid).contains_key(e.price) || !n.side(is_bid).contains_key(e.price));
            assert(level_covers(n.side(is_bid), n.orders, is_bid, e.price));
        }
    }
}

/// The event names its order, or only adds.
pub open spec fn names_or_adds(e: Event) -> bool {
    named(e) || e.event_type == event::event_code(EventType::OrderAdd)
}

/// However many events come, each of a named order or an add, one by one, a settled
/// book stays settled: so every book that such a stream leads to from the empty one is.
pub proof fn streams_keep_books_settled(b: BookModel, es: Seq<Event>, cap: nat)
    requires
        settled(b),
        forall|i: int| 0 <= i < es.len() ==> names_or_adds(#[trigger] es[i]),
    ensures
        settled(run_serial(b, es, cap)),
    decreases es.len(),
{
    if es.len() > 0 {
        let d = es.drop_last();
        assert forall|i: int| 0 <= i < d.len() implies names_or_adds(#[trigger] d[i]) by {
            assert(d[i] == es[i]);
        }
        streams_keep_books_settled(b, d, cap);
        assert(names_or_adds(es[es.len() - 1]));
        settled_books_stay_settled(run_serial(b, d, cap), es.last(), cap);
    }
}

proof fn lemma_lane_settled(b: BookModel, es: Seq<Event>, lane: Lane, cap: nat)
    requires
        settled(b),
        forall|i: int| 0 <= i < es.len() ==> names_or_adds(#[trigger] es[i]) && !hot_book::modifies(es[i]),
    ensures
        settled(hot_book::run_lane(b, es, lane, cap).0),
    decreases es.len(),
{
    if es.len() > 0 {
        let d = es.drop_last();
        assert forall|i: int| 0 <= i < d.len() implies names_or_adds(#[trigger] d[i]) && !hot_book::modifies(d[i]) by {
            assert(d[i] == es[i]);
        }
        lemma_lane_settled(b, d, lane, cap);
        assert(names_or_adds(es[es.len() - 1]));
        settled_books_stay_settled(hot_book::run_lane(b, d, lane, cap).0, es.last(), cap);
    }
}

/// So does every batch, conformant or not.
pub proof fn batches_keep_books_settled(b: BookModel, es: Seq<Event>, cap: nat)
    requires
        settled(b),
        forall|i: int| 0 <= i < es.len() ==> names_or_adds(#[trigger] es[i]),
    ensures
        settled(hot_book::run_batch(b, es, cap).0),
    decreases es.len(),
{
    hot_book::lemma_last_part(es);
    let w = hot_book::last_part(es);
    let (q, part) = if w == 0 {
        (b, es)
    } else {
        let d = es.take(w - 1);
        assert forall|i: int| 0 <= i < d.len() implies names_or_adds(#[trigger] d[i]) by {
            assert(d[i] == es[i]);
        }
        batches_keep_books_settled(b, d, cap);
        let p = hot_book::run_batch(b, d, cap).0;
        assert(names_or_adds(es[w - 1]));
        settled_books_stay_settled(p, es[w - 1], cap);
        (hot_book::hot_modify(p, es[w - 1], cap).0, es.skip(w as int))
    };
    assert forall|i: int| 0 <= i < part.len() implies names_or_adds(#[trigger] part[i]) && !hot_book::modifies(part[i]) by {
        assert(part[i] == es[i + w]);
    }
    lemma_lane_settled(q, part, Lane::Adds, cap);
    let b1 = hot_book::run_lane(q, part, Lane::Adds, cap).0;
    lemma_lane_settled(b1, part, Lane::Trades, cap);
    lemma_lane_settled(hot_book::run_lane(b1, part, Lane::Trades, cap).0, part, Lane::Cancels, cap);
}

/// On a conformant batch, modifies among it, the passes end in the book that
/// applying the events one by one ends in, and hence in the same ladders and the
/// same digest. It holds from every settled book, and the book stays settled. This
/// is of the end of the batch alone. A batch whose adds, taken first, would need
/// more levels than the book has is outside of it.
pub proof fn lanes_match_serial(b: BookModel, es: Seq<Event>, cap: nat)
    requires
        settled(b),
        within_depth(b, cap),
        conformant(b.orders, es),
        batch_accepted(b, es, cap),
    ensures
        hot_book::run_batch(b, es, cap).0 == run_serial(b, es, cap),
        digest::l2_digest(
            digest::best_first(hot_book::run_batch(b, es, cap).0.bids, true),
            digest::best_first(hot_book::run_batch(b, es, cap).0.asks, false),
        ) == digest::l2_digest(
            digest::best_first(run_serial(b, es, cap).bids, true),
            digest::best_first(run_serial(b, es, cap).asks, false),
        ),
        settled(run_serial(b, es, cap)),
        within_depth(run_serial(b, es, cap), cap),
{
    lemma_settled_is_covered(b);
    let s = lemma_batch_matches(b, beyond(b), es, cap);
    lemma_covered_is_settled(run_serial(b, es, cap), s);
}

/// The same from any book that a stream of named orders and of adds leads to from
/// the empty one.
pub proof fn lanes_match_serial_wherever_streams_lead(before: Seq<Event>, es: Seq<Event>, cap: nat)
    requires
        forall|i: int| 0 <= i < before.len() ==> names_or_adds(#[trigger] before[i]),
        conformant(run_serial(BookModel::empty(), before, cap).orders, es),
        batch_accepted(run_serial(BookModel::empty(), before, cap), es, cap),
    ensures
        hot_book::run_batch(run_serial(BookModel::empty(), before, cap), es, cap).0 == run_serial(
            run_serial(BookModel::empty(), before, cap),
            es,
            cap,
        ),
{
    let b = BookModel::empty();
    empty_is_consistent();
    consistent_is_settled(b);
    streams_keep_books_settled(b, before, cap);
    depth_stays_bounded_throughout(b, before, cap);
    lanes_match_serial(run_serial(b, before, cap), es, cap);
}

/// An add of a new price on a side that is full is refused and changes nothing.
pub proof fn full_side_refuses_a_new_price(b: BookModel, e: Event, cap: nat)
    requires
        e.event_type == event::event_code(EventType::OrderAdd),
        b.side(e.side == 0).len() >= cap,
        !b.side(e.side == 0).contains_key(e.price),
    ensures
        hot_book::hot_apply(b, e, cap) == (b, false),
{
}

// ─── What each event does, level by level ───────────────────────────

/// Nothing but one level of one side changed.
pub open spec fn only_level(b: BookModel, n: BookModel, is_bid: bool, price: u64) -> bool {
    &&& is_bid ==> n.asks == b.asks
    &&& !is_bid ==> n.bids == b.bids
    &&& forall|p: u64|
        p != price ==> (#[trigger] n.side(is_bid).contains_key(p) <==> b.side(is_bid).contains_key(p))
            && n.side(is_bid)[p] == b.side(is_bid)[p]
}

/// An add that finds room puts its quantity and one order on its level, remembers the
/// order as it is, and changes nothing else. Without an ID nothing is remembered.
pub proof fn adds_join_their_level(b: BookModel, e: Event, cap: nat, k: u64)
    requires
        e.event_type == event::event_code(EventType::OrderAdd),
        b.side(e.side == 0).contains_key(e.price) || b.side(e.side == 0).len() < cap,
    ensures
        ({
            let (n, changed) = hot_book::hot_apply(b, e, cap);
            let m = if e.side == 0 { b.bids } else { b.asks };
            let r = if e.side == 0 { n.bids } else { n.asks };
            &&& changed
            &&& only_level(b, n, e.side == 0, e.price)
            &&& r.contains_key(e.price)
            &&& m.contains_key(e.price) ==> r[e.price].qty == m[e.price].qty + e.qty && r[e.price].count
                == m[e.price].count + 1
            &&& !m.contains_key(e.price) ==> r[e.price].qty == e.qty && r[e.price].count == 1
            &&& e.order_id != 0 ==> n.orders.contains_key(e.order_id) && n.orders[e.order_id].price == e.price
                && n.orders[e.order_id].qty == e.qty && n.orders[e.order_id].side == e.side
            &&& k != e.order_id || e.order_id == 0 ==> (n.orders.contains_key(k) <==> b.orders.contains_key(k))
                && n.orders[k] == b.orders[k]
        }),
{
}

/// What becomes of an order and its level when so much of it leaves: what stays is known
/// at its place, the level has that much less, and with the last of the order one order
/// less; the level goes with its last order.
pub open spec fn leaves(b: BookModel, n: BookModel, id: u64, gone: int) -> bool {
    let o = b.orders[id];
    let is_bid = o.side == 0;
    let m = b.side(is_bid);
    let r = n.side(is_bid);
    &&& only_level(b, n, is_bid, o.price)
    &&& gone < o.qty ==> {
        &&& n.orders.contains_key(id)
        &&& n.orders[id].qty == o.qty - gone
        &&& n.orders[id].price == o.price
        &&& n.orders[id].side == o.side
        &&& r.contains_key(o.price)
        &&& r[o.price].qty == m[o.price].qty - gone
        &&& r[o.price].count == m[o.price].count
    }
    &&& gone == o.qty ==> {
        &&& !n.orders.contains_key(id)
        &&& m[o.price].count == 1 ==> !r.contains_key(o.price)
        &&& m[o.price].count > 1 ==> r.contains_key(o.price) && r[o.price].qty == m[o.price].qty - gone
            && r[o.price].count == m[o.price].count - 1
    }
    &&& forall|k: u64|
        k != id ==> (#[trigger] n.orders.contains_key(k) <==> b.orders.contains_key(k)) && n.orders[k]
            == b.orders[k]
}

/// The level of an order stands and holds at least the order.
pub open spec fn stands(b: BookModel, id: u64) -> bool {
    let o = b.orders[id];
    let m = b.side(o.side == 0);
    &&& b.orders.contains_key(id)
    &&& m.contains_key(o.price)
    &&& m[o.price].qty >= o.qty
    &&& m[o.price].count >= 1
}

/// A cancel takes what it says of its order, or all where that is nothing or more, from
/// the level where the order rests, whatever price and side the cancel bears.
pub proof fn cancels_take_from_their_order(b: BookModel, e: Event, cap: nat)
    requires
        e.event_type == event::event_code(EventType::OrderCancel),
        e.order_id != 0,
        stands(b, e.order_id),
    ensures
        hot_book::hot_apply(b, e, cap).1,
        0 < e.qty < b.orders[e.order_id].qty ==> leaves(
            b,
            hot_book::hot_apply(b, e, cap).0,
            e.order_id,
            e.qty as int,
        ),
        e.qty == 0 || e.qty >= b.orders[e.order_id].qty ==> leaves(
            b,
            hot_book::hot_apply(b, e, cap).0,
            e.order_id,
            b.orders[e.order_id].qty as int,
        ),
{
}

/// A trade takes what it says of its order, or all where that is more, from the level
/// where the order rests.
pub proof fn trades_take_from_their_order(b: BookModel, e: Event, cap: nat)
    requires
        e.event_type == event::event_code(EventType::Trade),
        e.order_id != 0,
        stands(b, e.order_id),
    ensures
        hot_book::hot_apply(b, e, cap).1,
        e.qty < b.orders[e.order_id].qty ==> leaves(
            b,
            hot_book::hot_apply(b, e, cap).0,
            e.order_id,
            e.qty as int,
        ),
        e.qty >= b.orders[e.order_id].qty ==> leaves(
            b,
            hot_book::hot_apply(b, e, cap).0,
            e.order_id,
            b.orders[e.order_id].qty as int,
        ),
{
}

/// A modify of a known order that withdraws all of it and finds room ends with the order
/// where the modify says, as if it were cancelled and added.
pub proof fn modifies_move_their_order(b: BookModel, e: Event, cap: nat, cancel: Event, add: Event)
    requires
        e.event_type == event::event_code(EventType::OrderModify),
        cancel.event_type == event::event_code(EventType::OrderCancel),
        add.event_type == event::event_code(EventType::OrderAdd),
        cancel == (Event { event_type: cancel.event_type, ..e }),
        add == (Event { event_type: add.event_type, ..e }),
    ensures
        hot_book::hot_apply(b, e, cap).0 == hot_book::hot_apply(hot_book::hot_apply(b, cancel, cap).0, add, cap).0,
        hot_book::hot_apply(b, e, cap).1 <==> hot_book::hot_apply(b, cancel, cap).1 || hot_book::hot_apply(
            hot_book::hot_apply(b, cancel, cap).0,
            add,
            cap,
        ).1,
{
}

/// A cancel or trade without an ID takes from the level that it names and leaves all
/// orders alone: a cancel takes its quantity and one order, a trade its quantity, and one
/// order only with the last of the level. The level goes with its last order; where there
/// is no such level nothing changes.
pub proof fn anonymous_events_take_from_their_level(b: BookModel, e: Event, cap: nat)
    requires
        e.order_id == 0,
        b.valid(),
        e.event_type == event::event_code(EventType::OrderCancel) || e.event_type == event::event_code(
            EventType::Trade,
        ),
    ensures
        ({
            let (n, changed) = hot_book::hot_apply(b, e, cap);
            let m = if e.side == 0 { b.bids } else { b.asks };
            let r = if e.side == 0 { n.bids } else { n.asks };
            let release = e.event_type == event::event_code(EventType::OrderCancel) || m[e.price].qty <= e.qty;
            &&& n.orders == b.orders
            &&& only_level(b, n, e.side == 0, e.price)
            &&& changed <==> m.contains_key(e.price)
            &&& !m.contains_key(e.price) ==> n == b
            &&& m.contains_key(e.price) && release && m[e.price].count == 1 ==> !r.contains_key(e.price)
            &&& m.contains_key(e.price) && release && m[e.price].count > 1 ==> r.contains_key(e.price)
                && r[e.price].count == m[e.price].count - 1
            &&& m.contains_key(e.price) && !release ==> r.contains_key(e.price) && r[e.price].count
                == m[e.price].count
            &&& r.contains_key(e.price) ==> r[e.price].qty == (if m[e.price].qty >= e.qty {
                m[e.price].qty - e.qty
            } else {
                0
            })
        }),
{
}

/// A snapshot and an unknown type change nothing.
pub proof fn other_events_change_nothing(b: BookModel, e: Event, cap: nat)
    requires
        e.event_type == 0 || e.event_type >= 5,
    ensures
        hot_book::hot_apply(b, e, cap) == (b, false),
        orderbook::ref_apply(b, e) == (b, false),
{
}

/// The reference book refuses what has no side, and else does what the fixed-depth book
/// with room does.
pub proof fn the_reference_book_does_the_same(b: BookModel, e: Event, cap: nat)
    requires
        e.order_id != 0,
        e.side <= 1,
        e.event_type != event::event_code(EventType::OrderModify),
        b.side(e.side == 0).contains_key(e.price) || b.side(e.side == 0).len() < cap,
    ensures
        orderbook::ref_apply(b, e) == hot_book::hot_apply(b, e, cap),
{
}

/// An event without a known side is refused where it would add.
pub proof fn no_side_no_order(b: BookModel, e: Event)
    requires
        e.side > 1,
        e.event_type == event::event_code(EventType::OrderAdd) || e.event_type == event::event_code(
            EventType::OrderModify,
        ),
    ensures
        orderbook::ref_apply(b, e) == (b, false),
{
}

/// Where the best prices are: no bid is above the best one and no ask below, and they
/// are prices of levels.
pub proof fn best_prices_bound_all(b: BookModel, p: u64, q: u64, x: u64)
    requires
        b.is_best_bid(p),
        b.is_best_ask(q),
    ensures
        b.bids.contains_key(p) && b.asks.contains_key(q),
        b.bids.contains_key(x) ==> x <= p,
        b.asks.contains_key(x) ==> x >= q,
{
}

} // verus!
