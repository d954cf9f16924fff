//! The mathematical order book that both book implementations are held to.
//!
//! A side of the book is a ladder: a finite map from price to the aggregate
//! resting there. The orders are a map from order ID to what rests under it.

use crate::book::event::Event;
use vstd::prelude::*;

verus! {

/// One price level as the books store it.
#[derive(Debug, Clone, Copy, PartialEq, Eq, Structural)]
pub struct Level {
    pub price: u64,
    pub total_qty: u64,
    pub order_count: u32,
}

impl Default for Level {
    fn default() -> (l: Self)
        ensures
            l == (Level { price: 0, total_qty: 0, order_count: 0 }),
    {
        Level { price: 0, total_qty: 0, order_count: 0 }
    }
}

/// What rests under one order ID: its price, its remaining quantity and the
/// side code it was added with.
#[derive(Debug, Clone, Copy, PartialEq, Eq, Structural)]
pub struct OrderMeta {
    pub price: u64,
    pub qty: u64,
    pub side: u8,
}

/// Aggregate of one price level.
pub struct LevelModel {
    pub qty: nat,
    pub count: nat,
}

/// One side of the book, keyed by price.
pub type Ladder = Map<u64, LevelModel>;

/// The whole book.
#[verifier::ext_equal]
pub struct BookModel {
    pub bids: Ladder,
    pub asks: Ladder,
    pub orders: Map<u64, OrderMeta>,
}

/// `a - b`, or 0 where that is negative.
pub open spec fn minus(a: nat, b: nat) -> nat {
    if a >= b {
        (a - b) as nat
    } else {
        0
    }
}

/// The ladder after one more order of `qty` at `price`.
pub open spec fn grow(m: Ladder, price: u64, qty: nat) -> Ladder {
    if m.contains_key(price) {
        m.insert(price, LevelModel { qty: m[price].qty + qty, count: m[price].count + 1 })
    } else {
        m.insert(price, LevelModel { qty, count: 1 })
    }
}

/// The ladder after `qty` leaves `price`. With `release` one order leaves too,
/// and the level goes with its last order. A missing level changes nothing.
pub open spec fn shrink(m: Ladder, price: u64, qty: nat, release: bool) -> Ladder {
    if !m.contains_key(price) {
        m
    } else if !release {
        m.insert(price, LevelModel { qty: minus(m[price].qty, qty), count: m[price].count })
    } else if m[price].count <= 1 {
        m.remove(price)
    } else {
        m.insert(
            price,
            LevelModel {
                qty: minus(m[price].qty, qty),
                count: (m[price].count - 1) as nat,
            },
        )
    }
}

impl BookModel {
    /// The book with nothing in it.
    pub open spec fn empty() -> BookModel {
        BookModel { bids: Map::empty(), asks: Map::empty(), orders: Map::empty() }
    }

    /// The ladder of one side.
    pub open spec fn side(self, is_bid: bool) -> Ladder {
        if is_bid {
            self.bids
        } else {
            self.asks
        }
    }

    /// The book with one ladder replaced.
    pub open spec fn with_side(self, is_bid: bool, m: Ladder) -> BookModel {
        if is_bid {
            BookModel { bids: m, ..self }
        } else {
            BookModel { asks: m, ..self }
        }
    }

    /// The book with the orders replaced.
    pub open spec fn with_orders(self, orders: Map<u64, OrderMeta>) -> BookModel {
        BookModel { orders, ..self }
    }

    /// Ladders and orders are finite, and no level stands without an order count.
    pub open spec fn valid(self) -> bool {
        &&& self.bids.dom().finite()
        &&& self.asks.dom().finite()
        &&& self.orders.dom().finite()
        &&& forall|p: u64| #[trigger] self.bids.contains_key(p) ==> self.bids[p].count >= 1
        &&& forall|p: u64| #[trigger] self.asks.contains_key(p) ==> self.asks[p].count >= 1
    }

    /// Best bid: the highest price with a bid level.
    pub open spec fn is_best_bid(self, p: u64) -> bool {
        self.bids.contains_key(p) && forall|q: u64| #[trigger] self.bids.contains_key(q) ==> q <= p
    }

    /// Best ask: the lowest price with an ask level.
    pub open spec fn is_best_ask(self, p: u64) -> bool {
        self.asks.contains_key(p) && forall|q: u64| #[trigger] self.asks.contains_key(q) ==> p <= q
    }
}

/// A resting order after `cancelled` units of it are withdrawn: `None` when it
/// is gone. Zero units, or at least all that rest, withdraw the whole order.
pub open spec fn after_cancel(o: OrderMeta, cancelled: u64) -> Option<OrderMeta> {
    if cancelled == 0 || cancelled >= o.qty {
        None
    } else {
        Some(OrderMeta { qty: (o.qty - cancelled) as u64, ..o })
    }
}

/// A resting order after a trade of `traded` units: `None` when it is filled.
pub open spec fn after_trade(o: OrderMeta, traded: u64) -> Option<OrderMeta> {
    if traded >= o.qty {
        None
    } else {
        Some(OrderMeta { qty: (o.qty - traded) as u64, ..o })
    }
}

/// The quantity that left an order between `o` and what is left of it.
pub open spec fn departed(o: OrderMeta, left: Option<OrderMeta>) -> nat {
    match left {
        Some(n) => minus(o.qty as nat, n.qty as nat),
        None => o.qty as nat,
    }
}

/// The orders with `id` replaced by what is left of it.
pub open spec fn settle(
    orders: Map<u64, OrderMeta>,
    id: u64,
    left: Option<OrderMeta>,
) -> Map<u64, OrderMeta> {
    match left {
        Some(n) => orders.insert(id, n),
        None => orders.remove(id),
    }
}

impl BookModel {
    /// The book after order `id`, which rests in it, is reduced to `left`.
    pub open spec fn reduce(self, id: u64, left: Option<OrderMeta>) -> BookModel {
        let o = self.orders[id];
        let is_bid = o.side == 0;
        self.with_orders(settle(self.orders, id, left)).with_side(
            is_bid,
            shrink(self.side(is_bid), o.price, departed(o, left), left is None),
        )
    }

    /// The book after a new order.
    pub open spec fn place(self, id: u64, o: OrderMeta) -> BookModel {
        let is_bid = o.side == 0;
        self.with_orders(self.orders.insert(id, o)).with_side(
            is_bid,
            grow(self.side(is_bid), o.price, o.qty as nat),
        )
    }
}

/// The level that `e` adds to has room in its quantity and in its order count.
pub open spec fn level_fits(b: BookModel, e: Event) -> bool {
    let m = b.side(e.side == 0);
    m.contains_key(e.price) ==> m[e.price].qty + e.qty <= u64::MAX && m[e.price].count < u32::MAX
}

/// The order an add event asks for.
pub open spec fn order_of(e: Event) -> OrderMeta {
    OrderMeta { price: e.price, qty: e.qty, side: e.side }
}

} // verus!
