//! A small two-sided book of price and quantity, capped in depth: the levels
//! farthest from the best go first.

use crate::ordered::{highest, lowest};
#[allow(unused_imports)]
use crate::ordered;
use std::collections::BTreeMap;
use vstd::prelude::*;

verus! {

/// Quantity by price, each side.
#[verifier::ext_equal]
pub struct MiniModel {
    pub bids: Map<u64, u64>,
    pub asks: Map<u64, u64>,
}

/// The floor of the mean of the two best prices, where both stand and the book
/// is not crossed.
pub open spec fn mid_of(bid: Option<u64>, ask: Option<u64>) -> Option<u64> {
    if bid is Some && ask is Some && ask->0 >= bid->0 {
        Some(((ask->0 + bid->0) / 2) as u64)
    } else {
        None
    }
}

impl MiniModel {
    /// Nothing in the book.
    pub open spec fn empty() -> MiniModel {
        MiniModel { bids: Map::empty(), asks: Map::empty() }
    }

    /// One side.
    pub open spec fn side(self, is_bid: bool) -> Map<u64, u64> {
        if is_bid {
            self.bids
        } else {
            self.asks
        }
    }

    /// The book with one side replaced.
    pub open spec fn with_side(self, is_bid: bool, m: Map<u64, u64>) -> MiniModel {
        if is_bid {
            MiniModel { bids: m, asks: self.asks }
        } else {
            MiniModel { bids: self.bids, asks: m }
        }
    }

    /// Highest bid.
    pub open spec fn best_bid(self) -> Option<u64> {
        ordered::last_key(self.bids)
    }

    /// Lowest ask.
    pub open spec fn best_ask(self) -> Option<u64> {
        ordered::first_key(self.asks)
    }

    /// Midprice.
    pub open spec fn mid(self) -> Option<u64> {
        mid_of(self.best_bid(), self.best_ask())
    }

    /// The book after `qty` comes to `price`.
    pub open spec fn added(self, is_bid: bool, price: u64, qty: u64, cap: nat) -> MiniModel {
        self.with_side(is_bid, trimmed(piled(self.side(is_bid), price, qty), is_bid, cap))
    }

    /// The book after `qty` comes to `price`, where also nothing makes a level.
    pub open spec fn laid_on(self, is_bid: bool, price: u64, qty: u64, cap: nat) -> MiniModel {
        self.with_side(is_bid, trimmed(laid(self.side(is_bid), price, qty), is_bid, cap))
    }

    /// The book after `qty` leaves `price`.
    pub open spec fn reduced(self, is_bid: bool, price: u64, qty: u64) -> MiniModel {
        self.with_side(is_bid, taken(self.side(is_bid), price, qty))
    }

    /// Both sides are finite and no deeper than the cap.
    pub open spec fn within(self, cap: nat) -> bool {
        &&& self.bids.dom().finite()
        &&& self.asks.dom().finite()
        &&& self.bids.len() <= cap
        &&& self.asks.len() <= cap
    }

    /// No level is empty.
    pub open spec fn positive(self) -> bool {
        &&& forall|p: u64| #[trigger] self.bids.contains_key(p) ==> self.bids[p] > 0
        &&& forall|p: u64| #[trigger] self.asks.contains_key(p) ==> self.asks[p] > 0
    }
}

/// Quantity at a price, zero without a level.
pub open spec fn qty_at(m: Map<u64, u64>, price: u64) -> u64 {
    if m.contains_key(price) {
        m[price]
    } else {
        0
    }
}

/// One side with more quantity at a price. Also nothing makes a level.
pub open spec fn laid(m: Map<u64, u64>, price: u64, qty: u64) -> Map<u64, u64> {
    m.insert(price, (qty_at(m, price) + qty) as u64)
}

/// One side with more quantity at a price. Nothing makes no level.
pub open spec fn piled(m: Map<u64, u64>, price: u64, qty: u64) -> Map<u64, u64> {
    if qty == 0 {
        m
    } else {
        laid(m, price, qty)
    }
}

/// The price farthest from the best.
pub open spec fn worst(m: Map<u64, u64>, is_bid: bool) -> u64 {
    if is_bid {
        ordered::first_key(m)->0
    } else {
        ordered::last_key(m)->0
    }
}

/// One side without its worst level where it is too deep.
pub open spec fn trimmed(m: Map<u64, u64>, is_bid: bool, cap: nat) -> Map<u64, u64> {
    if m.len() > cap {
        m.remove(worst(m, is_bid))
    } else {
        m
    }
}

/// What leaves a level: all of it when the quantity is zero or at least as much.
pub open spec fn portion(have: u64, qty: u64) -> u64 {
    if qty == 0 || qty >= have {
        have
    } else {
        qty
    }
}

/// One side with less quantity at a price. A level goes with its last unit.
pub open spec fn taken(m: Map<u64, u64>, price: u64, qty: u64) -> Map<u64, u64> {
    if !m.contains_key(price) {
        m
    } else if portion(m[price], qty) == m[price] {
        m.remove(price)
    } else {
        m.insert(price, (m[price] - portion(m[price], qty)) as u64)
    }
}

/// The quantity between two prices, both counted.
pub open spec fn band(m: Map<u64, u64>, lo: u64, hi: u64) -> nat
    decreases m.dom().len(),
{
    if !m.dom().finite() || m.dom().len() == 0 {
        0
    } else {
        let k = m.dom().choose();
        band(m.remove(k), lo, hi) + if lo <= k <= hi {
            m[k] as nat
        } else {
            0
        }
    }
}

/// A sum as a counter that stops at its end holds it.
pub open spec fn held(n: nat) -> u64 {
    if n > u64::MAX {
        u64::MAX
    } else {
        n as u64
    }
}

/// Any one level can be counted apart.
pub proof fn lemma_band_apart(m: Map<u64, u64>, lo: u64, hi: u64, k: u64)
    requires
        m.dom().finite(),
        m.contains_key(k),
    ensures
        band(m, lo, hi) == band(m.remove(k), lo, hi) + if lo <= k <= hi {
            m[k] as nat
        } else {
            0
        },
    decreases m.dom().len(),
{
    let c = m.dom().choose();
    assert(m.dom().contains(c));
    if c != k {
        lemma_band_apart(m.remove(c), lo, hi, k);
        lemma_band_apart(m.remove(k), lo, hi, c);
        assert(m.remove(c).remove(k) =~= m.remove(k).remove(c));
    }
}

/// How one more or less of quantity at a price shows in a band.
pub proof fn lemma_band_insert(m: Map<u64, u64>, lo: u64, hi: u64, price: u64, q: u64)
    requires
        m.dom().finite(),
    ensures
        band(m.insert(price, q), lo, hi) == band(m, lo, hi) + if lo <= price <= hi {
            q - qty_at(m, price)
        } else {
            0
        },
{
    let n = m.insert(price, q);
    lemma_band_apart(n, lo, hi, price);
    if m.contains_key(price) {
        lemma_band_apart(m, lo, hi, price);
        assert(n.remove(price) =~= m.remove(price));
    } else {
        assert(n.remove(price) =~= m);
    }
}

/// The quantity between two prices of one side.
pub fn band_sum(levels: &BTreeMap<u64, u64>, lo: u64, hi: u64) -> (d: u64)
    ensures
        d == held(band(levels@, lo, hi)),
{
    let mut d: u64 = 0;
    let iter = levels.iter();
    let ghost items = vstd::std_specs::iter::IteratorSpec::remaining(&iter);
    let ghost keys = items.map_values(|kv: (&u64, &u64)| *kv.0);
    let ghost mut seen: Map<u64, u64> = Map::empty();
    assert(seen.dom() =~= Set::<u64>::empty());
    for kv in it: iter
        invariant
            it.seq() == items,
            items.len() == keys.len(),
            forall|i: int| 0 <= i < items.len() ==> keys[i] == *(#[trigger] items[i]).0,
            vstd::std_specs::btree::increasing_seq(keys),
            forall|i: int| 0 <= i < items.len() ==> levels@.contains_key(*(#[trigger] items[i]).0)
                && levels@[*items[i].0] == *items[i].1,
            seen.dom().finite(),
            forall|k: u64| #[trigger] seen.contains_key(k) ==> levels@.contains_key(k) && seen[k] == levels@[k],
            forall|k: u64| #[trigger]
                seen.contains_key(k) <==> exists|i: int| 0 <= i < it.index() && *(#[trigger] items[i]).0 == k,
            d == held(band(seen, lo, hi)),
    {
        let ghost n = it.index();
        proof {
            assert(kv == items[n]);
            let k = *kv.0;
            assert(!seen.contains_key(k)) by {
                if seen.contains_key(k) {
                    let i = choose|i: int| 0 <= i < n && *(#[trigger] items[i]).0 == k;
                    assert(keys[i] == *items[i].0 && keys[n] == *items[n].0);
                    assert(vstd::std_specs::cmp::OrdSpec::cmp_spec(&keys[i], &keys[n]) is Less);
                }
            }
            lemma_band_insert(seen, lo, hi, k, *kv.1);
            let next = seen.insert(k, *kv.1);
            seen = next;
            assert forall|j: u64| #[trigger] seen.contains_key(j) <==> exists|i: int|
                0 <= i < n + 1 && *(#[trigger] items[i]).0 == j by {
                if seen.contains_key(j) && j != k {
                    let i = choose|i: int| 0 <= i < n && *(#[trigger] items[i]).0 == j;
                    assert(0 <= i < n + 1 && *items[i].0 == j);
                }
                if j == k {
                    assert(*items[n].0 == j);
                }
            }
        }
        if lo <= *kv.0 && *kv.0 <= hi {
            d = d.saturating_add(*kv.1);
        }
    }
    proof {
        assert forall|k: u64| levels@.contains_key(k) implies seen.contains_key(k) by {
            assert(items.contains((&k, &levels@[k])));
            let i = choose|i: int| 0 <= i < items.len() && items[i] == (&k, &levels@[k]);
            assert(*items[i].0 == k);
        }
        assert(seen =~= levels@);
    }
    d
}

/// The book.
#[derive(Debug)]
pub struct MiniBook {
    bids: BTreeMap<u64, u64>,
    asks: BTreeMap<u64, u64>,
    cap: usize,
}

impl View for MiniBook {
    type V = MiniModel;

    closed spec fn view(&self) -> MiniModel {
        MiniModel { bids: self.bids@, asks: self.asks@ }
    }
}

impl MiniBook {
    /// Depth that a side may have.
    pub closed spec fn depth(&self) -> nat {
        self.cap as nat
    }

    /// At least one level may stand, and no side is deeper than allowed.
    pub open spec fn wf(&self) -> bool {
        &&& self.depth() >= 1
        &&& self@.within(self.depth())
    }

    /// An empty book of at most `cap` levels a side.
    pub fn new(cap: usize) -> (b: Self)
        requires
            cap >= 1,
        ensures
            b.wf(),
            b.depth() == cap,
            b@ == MiniModel::empty(),
            b@.positive(),
    {
        MiniBook { bids: BTreeMap::new(), asks: BTreeMap::new(), cap }
    }

    /// Highest bid.
    pub fn best_bid(&self) -> (r: Option<u64>)
        ensures
            r == self@.best_bid(),
            r matches Some(p) ==> ordered::is_max_key(self@.bids, p),
            self@.positive() ==> (r matches Some(p) ==> self@.bids[p] > 0),
    {
        highest(&self.bids)
    }

    /// Lowest ask.
    pub fn best_ask(&self) -> (r: Option<u64>)
        ensures
            r == self@.best_ask(),
            r matches Some(p) ==> ordered::is_min_key(self@.asks, p),
            self@.positive() ==> (r matches Some(p) ==> self@.asks[p] > 0),
    {
        lowest(&self.asks)
    }

    /// Midprice.
    pub fn midprice(&self) -> (r: Option<u64>)
        ensures
            r == self@.mid(),
    {
        mid_between(self.best_bid(), self.best_ask())
    }

    /// Levels on the bid side.
    pub fn bid_levels(&self) -> (n: usize)
        ensures
            n == self@.bids.len(),
    {
        self.bids.len()
    }

    /// Levels on the ask side.
    pub fn ask_levels(&self) -> (n: usize)
        ensures
            n == self@.asks.len(),
    {
        self.asks.len()
    }

    /// Adds `qty` at `price`; nothing makes no level. Says whether a level had to
    /// go for it.
    pub fn add_qty(&mut self, is_bid: bool, price: u64, qty: u64) -> (pruned: bool)
        requires
            old(self).wf(),
            qty_at(old(self)@.side(is_bid), price) + qty <= u64::MAX,
        ensures
            final(self).wf(),
            final(self).depth() == old(self).depth(),
            final(self)@ == old(self)@.added(is_bid, price, qty, old(self).depth()),
            old(self)@.positive() ==> final(self)@.positive(),
            pruned == (piled(old(self)@.side(is_bid), price, qty).len() > old(self).depth()),
    {
        if qty == 0 {
            assert(self@ =~= old(self)@.added(is_bid, price, qty, self.depth()));
            return false;
        }
        self.lay_qty(is_bid, price, qty)
    }

    /// Adds `qty` at `price`; also nothing makes a level. Says whether a level had
    /// to go for it.
    pub fn lay_qty(&mut self, is_bid: bool, price: u64, qty: u64) -> (pruned: bool)
        requires
            old(self).wf(),
            qty_at(old(self)@.side(is_bid), price) + qty <= u64::MAX,
        ensures
            final(self).wf(),
            final(self).depth() == old(self).depth(),
            final(self)@ == old(self)@.laid_on(is_bid, price, qty, old(self).depth()),
            pruned == (laid(old(self)@.side(is_bid), price, qty).len() > old(self).depth()),
    {
        if is_bid {
            lay_level(&mut self.bids, price, qty);
            prune_levels(&mut self.bids, true, self.cap)
        } else {
            lay_level(&mut self.asks, price, qty);
            prune_levels(&mut self.asks, false, self.cap)
        }
    }

    /// Takes `qty` from `price`, all of it when `qty` is zero. Says how much
    /// left and whether the level went with it.
    pub fn sub_qty(&mut self, is_bid: bool, price: u64, qty: u64) -> (r: (u64, bool))
        requires
            old(self).wf(),
        ensures
            final(self).wf(),
            final(self).depth() == old(self).depth(),
            final(self)@ == old(self)@.reduced(is_bid, price, qty),
            old(self)@.positive() ==> final(self)@.positive(),
            ({
                let m = old(self)@.side(is_bid);
                &&& r.0 == (if m.contains_key(price) {
                    portion(m[price], qty)
                } else {
                    0
                })
                &&& r.1 == (m.contains_key(price) && r.0 == m[price])
            }),
    {
        if is_bid {
            take_level(&mut self.bids, price, qty)
        } else {
            take_level(&mut self.asks, price, qty)
        }
    }

    /// The quantity at a price, zero where nothing stands.
    pub fn qty_of(&self, is_bid: bool, price: u64) -> (q: u64)
        ensures
            q == qty_at(self@.side(is_bid), price),
    {
        let level: Option<&u64> = if is_bid {
            self.bids.get(&price)
        } else {
            self.asks.get(&price)
        };
        match level {
            Some(q) => *q,
            None => 0,
        }
    }

    /// The quantity of bids in `[lo, hi]`.
    pub fn bid_band(&self, lo: u64, hi: u64) -> (d: u64)
        ensures
            d == held(band(self@.bids, lo, hi)),
    {
        band_sum(&self.bids, lo, hi)
    }

    /// The quantity of asks in `[lo, hi]`.
    pub fn ask_band(&self, lo: u64, hi: u64) -> (d: u64)
        ensures
            d == held(band(self@.asks, lo, hi)),
    {
        band_sum(&self.asks, lo, hi)
    }
}

/// Midprice of two best prices.
pub fn mid_between(bid: Option<u64>, ask: Option<u64>) -> (r: Option<u64>)
    ensures
        r == mid_of(bid, ask),
{
    match (bid, ask) {
        (Some(b), Some(a)) => if a >= b {
            Some(b + (a - b) / 2)
        } else {
            None
        },
        _ => None,
    }
}

fn lay_level(levels: &mut BTreeMap<u64, u64>, price: u64, qty: u64)
    requires
        qty_at(old(levels)@, price) + qty <= u64::MAX,
    ensures
        final(levels)@ == laid(old(levels)@, price, qty),
{
    let have: u64 = match levels.get(&price) {
        Some(q) => *q,
        None => 0,
    };
    levels.insert(price, have + qty);
}

fn take_level(levels: &mut BTreeMap<u64, u64>, price: u64, qty: u64) -> (r: (u64, bool))
    ensures
        final(levels)@ == taken(old(levels)@, price, qty),
        final(levels)@.dom().subset_of(old(levels)@.dom()),
        final(levels)@.len() <= old(levels)@.len(),
        r.0 == (if old(levels)@.contains_key(price) {
            portion(old(levels)@[price], qty)
        } else {
            0
        }),
        r.1 == (old(levels)@.contains_key(price) && r.0 == old(levels)@[price]),
{
    let have: u64 = match levels.get(&price) {
        Some(q) => *q,
        None => {
            return (0, false);
        },
    };
    let take: u64 = if qty == 0 || qty >= have { have } else { qty };
    if take == have {
        levels.remove(&price);
        (take, true)
    } else {
        levels.insert(price, have - take);
        (take, false)
    }
}

/// Drops the level farthest from the best where there is one too many.
fn prune_levels(levels: &mut BTreeMap<u64, u64>, is_bid: bool, cap: usize) -> (pruned: bool)
    requires
        old(levels)@.len() <= cap + 1,
    ensures
        final(levels)@ == trimmed(old(levels)@, is_bid, cap as nat),
        final(levels)@.len() <= cap,
        pruned == (old(levels)@.len() > cap),
{
    if levels.len() > cap {
        let out: Option<u64> = if is_bid {
            lowest(levels)
        } else {
            highest(levels)
        };
        if let Some(p) = out {
            levels.remove(&p);
        } else {
            assert(levels@.len() == 0);
        }
        true
    } else {
        false
    }
}

/// Pruning never touches the best level: it goes only to the far end, and the
/// side has at least one level left.
pub proof fn pruning_keeps_the_best(m: Map<u64, u64>, is_bid: bool, cap: nat)
    requires
        m.dom().finite(),
        cap >= 1,
        m.len() <= cap + 1,
    ensures
        is_bid ==> ordered::last_key(trimmed(m, is_bid, cap)) == ordered::last_key(m),
        !is_bid ==> ordered::first_key(trimmed(m, is_bid, cap)) == ordered::first_key(m),
        trimmed(m, is_bid, cap).len() <= cap,
{
    if m.len() > cap {
        ordered::lemma_ends_exist(m);
        let lo = ordered::first_key(m)->0;
        let hi = ordered::last_key(m)->0;
        let t = trimmed(m, is_bid, cap);
        assert(lo != hi) by {
            if lo == hi {
                assert(m.dom() =~= set![lo]) by {
                    assert forall|k: u64| m.dom().contains(k) implies k == lo by {
                        assert(m.contains_key(k));
                    }
                }
            }
        }
        if is_bid {
            assert(ordered::is_max_key(t, hi));
            ordered::lemma_last_key(t, hi);
        } else {
            assert(ordered::is_min_key(t, lo));
            ordered::lemma_first_key(t, lo);
        }
    }
}

/// The best price of one side.
pub open spec fn top(m: Map<u64, u64>, is_bid: bool) -> Option<u64> {
    if is_bid {
        ordered::last_key(m)
    } else {
        ordered::first_key(m)
    }
}

/// `a` is a better price than `b`.
pub open spec fn beats(is_bid: bool, a: u64, b: u64) -> bool {
    if is_bid {
        a > b
    } else {
        a < b
    }
}

/// An add makes the best price better or leaves it.
pub proof fn lemma_top_after_add(m: Map<u64, u64>, is_bid: bool, price: u64, qty: u64, cap: nat)
    requires
        m.dom().finite(),
        cap >= 1,
        m.len() <= cap,
    ensures
        top(trimmed(piled(m, price, qty), is_bid, cap), is_bid) == (if qty > 0 && (top(m, is_bid) is None
            || beats(is_bid, price, top(m, is_bid)->0)) {
            Some(price)
        } else {
            top(m, is_bid)
        }),
{
    let p = piled(m, price, qty);
    if qty > 0 {
        assert(p.dom() =~= m.dom().insert(price));
    }
    pruning_keeps_the_best(p, is_bid, cap);
    if qty == 0 {
        assert(p == m);
    } else if m.dom() != Set::<u64>::empty() {
        ordered::lemma_ends_exist(m);
        let best = top(m, is_bid)->0;
        let next = if beats(is_bid, price, best) {
            price
        } else {
            best
        };
        if is_bid {
            assert(ordered::is_max_key(p, next));
            ordered::lemma_last_key(p, next);
        } else {
            assert(ordered::is_min_key(p, next));
            ordered::lemma_first_key(p, next);
        }
    } else {
        assert forall|k: u64| #[trigger] p.contains_key(k) implies k == price by {
            if k != price {
                assert(m.dom().contains(k));
            }
        }
        if is_bid {
            assert(ordered::is_max_key(p, price));
            ordered::lemma_last_key(p, price);
        } else {
            assert(ordered::is_min_key(p, price));
            ordered::lemma_first_key(p, price);
        }
    }
}

/// A reduction moves the best price only when it empties the best level.
pub proof fn lemma_top_after_take(m: Map<u64, u64>, is_bid: bool, price: u64, qty: u64)
    requires
        m.dom().finite(),
        !(m.contains_key(price) && portion(m[price], qty) == m[price] && top(m, is_bid) == Some(price)),
    ensures
        top(taken(m, price, qty), is_bid) == top(m, is_bid),
{
    let t = taken(m, price, qty);
    if m.dom() != Set::<u64>::empty() {
        ordered::lemma_ends_exist(m);
        let best = top(m, is_bid)->0;
        assert(t.contains_key(best));
        if is_bid {
            assert(ordered::is_max_key(t, best)) by {
                assert forall|k: u64| #[trigger] t.contains_key(k) implies k <= best by {
                    assert(m.contains_key(k));
                }
            }
            ordered::lemma_last_key(t, best);
        } else {
            assert(ordered::is_min_key(t, best)) by {
                assert forall|k: u64| #[trigger] t.contains_key(k) implies best <= k by {
                    assert(m.contains_key(k));
                }
            }
            ordered::lemma_first_key(t, best);
        }
    } else {
        assert(!m.dom().contains(price));
    }
}

/// An add shows in a band by its quantity, if it is within and nothing was pruned.
pub proof fn lemma_band_after_add(m: Map<u64, u64>, is_bid: bool, price: u64, qty: u64, cap: nat, lo: u64, hi: u64)
    requires
        m.dom().finite(),
        qty_at(m, price) + qty <= u64::MAX,
    ensures
        band(trimmed(piled(m, price, qty), is_bid, cap), lo, hi) <= band(m, lo, hi) + qty,
        piled(m, price, qty).len() <= cap ==> band(trimmed(piled(m, price, qty), is_bid, cap), lo, hi)
            == band(m, lo, hi) + if lo <= price <= hi {
            qty as nat
        } else {
            0
        },
{
    let p = piled(m, price, qty);
    if qty > 0 {
        lemma_band_insert(m, lo, hi, price, p[price]);
    }
    if p.len() > cap {
        let w = worst(p, is_bid);
        if p.contains_key(w) {
            lemma_band_apart(p, lo, hi, w);
        } else {
            assert(p.remove(w) =~= p);
        }
    }
}

/// A reduction shows in a band by what left, if it is within.
pub proof fn lemma_band_after_take(m: Map<u64, u64>, price: u64, qty: u64, lo: u64, hi: u64)
    requires
        m.dom().finite(),
    ensures
        band(taken(m, price, qty), lo, hi) == band(m, lo, hi) - if lo <= price <= hi && m.contains_key(price) {
            portion(m[price], qty) as int
        } else {
            0
        },
{
    if m.contains_key(price) {
        lemma_band_apart(m, lo, hi, price);
        if portion(m[price], qty) != m[price] {
            lemma_band_insert(m, lo, hi, price, (m[price] - portion(m[price], qty)) as u64);
        }
    }
}

// ─── What the book tells ────────────────────────────────────────────

/// The midprice lies between the best prices, half way up to one half tick, and there
/// is one exactly where both sides stand and do not cross.
pub proof fn mid_lies_half_way(bid: Option<u64>, ask: Option<u64>)
    ensures
        mid_of(bid, ask) is Some <==> bid is Some && ask is Some && bid->0 <= ask->0,
        mid_of(bid, ask) matches Some(m) ==> {
            &&& bid->0 <= m <= ask->0
            &&& 0 <= bid->0 + ask->0 - 2 * m <= 1
        },
{
}

/// The best bid is the highest bid and the best ask the lowest ask; a side without
/// levels has none.
pub proof fn best_prices_are_the_best(b: MiniModel, p: u64)
    requires
        b.bids.dom().finite(),
        b.asks.dom().finite(),
    ensures
        b.bids.contains_key(p) ==> b.best_bid() is Some && p <= b.best_bid()->0,
        b.asks.contains_key(p) ==> b.best_ask() is Some && p >= b.best_ask()->0,
        b.best_bid() matches Some(x) ==> b.bids.contains_key(x),
        b.best_ask() matches Some(x) ==> b.asks.contains_key(x),
        b.mid() == mid_of(b.best_bid(), b.best_ask()),
{
    if b.bids.contains_key(p) {
        assert(b.bids.dom().contains(p));
    }
    if b.asks.contains_key(p) {
        assert(b.asks.dom().contains(p));
    }
    if b.bids.dom() != Set::<u64>::empty() {
        ordered::lemma_ends_exist(b.bids);
    }
    if b.asks.dom() != Set::<u64>::empty() {
        ordered::lemma_ends_exist(b.asks);
    }
}

/// An add brings its quantity to its price and side and nothing elsewhere. Where the
/// side gets too deep one level goes, and it is farther from the best than all that
/// stay.
pub proof fn adds_come_to_their_level(b: MiniModel, is_bid: bool, price: u64, qty: u64, cap: nat, p: u64)
    requires
        b.bids.dom().finite(),
        b.asks.dom().finite(),
        qty > 0,
        cap >= 1,
        qty_at(b.side(is_bid), price) + qty <= u64::MAX,
    ensures
        ({
            let n = b.added(is_bid, price, qty, cap);
            let m = if is_bid { b.bids } else { b.asks };
            let r = if is_bid { n.bids } else { n.asks };
            let had = if m.contains_key(price) { m[price] as int } else { 0 };
            let full = m.insert(price, 0).len() > cap;
            &&& n == b.laid_on(is_bid, price, qty, cap)
            &&& is_bid ==> n.asks == b.asks
            &&& !is_bid ==> n.bids == b.bids
            &&& r.contains_key(price) ==> r[price] == had + qty
            &&& !full ==> r.contains_key(price)
            &&& p != price && r.contains_key(p) ==> m.contains_key(p) && r[p] == m[p]
            &&& p != price && m.contains_key(p) && !full ==> r.contains_key(p)
            &&& (p == price || m.contains_key(p)) && !r.contains_key(p) ==> full && forall|q: u64| #[trigger]
                r.contains_key(q) ==> (is_bid ==> p < q) && (!is_bid ==> p > q)
        }),
{
    let m = b.side(is_bid);
    let l = laid(m, price, qty);
    assert(l.dom() =~= m.insert(price, 0).dom());
    if l.len() > cap {
        ordered::lemma_ends_exist(l);
    }
}

/// What leaves a level is what is said, or all of it where that is nothing or more; a
/// level goes with its last unit, and no other level changes.
pub proof fn reductions_leave_the_rest(b: MiniModel, is_bid: bool, price: u64, qty: u64, p: u64)
    ensures
        ({
            let n = b.reduced(is_bid, price, qty);
            let m = if is_bid { b.bids } else { b.asks };
            let r = if is_bid { n.bids } else { n.asks };
            &&& is_bid ==> n.asks == b.asks
            &&& !is_bid ==> n.bids == b.bids
            &&& p != price ==> (r.contains_key(p) <==> m.contains_key(p)) && r[p] == m[p]
            &&& m.contains_key(price) && 0 < qty < m[price] ==> r.contains_key(price) && r[price] == m[price] - qty
            &&& m.contains_key(price) && (qty == 0 || qty >= m[price]) ==> !r.contains_key(price)
            &&& !m.contains_key(price) ==> n == b
        }),
{
}

/// The quantity of a band counts every level between its prices, both of them, and no
/// other.
pub proof fn bands_count_their_levels(m: Map<u64, u64>, lo: u64, hi: u64, k: u64)
    requires
        m.dom().finite(),
    ensures
        m.dom().len() == 0 ==> band(m, lo, hi) == 0,
        m.contains_key(k) && lo <= k && k <= hi ==> band(m, lo, hi) == band(m.remove(k), lo, hi) + m[k],
        m.contains_key(k) && (k < lo || k > hi) ==> band(m, lo, hi) == band(m.remove(k), lo, hi),
{
    if m.contains_key(k) {
        lemma_band_apart(m, lo, hi, k);
    }
}

} // verus!
