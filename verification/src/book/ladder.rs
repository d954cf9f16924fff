//! A ladder stored as a vector of levels, best price first.

use crate::book::model::{Ladder, Level, LevelModel};
use crate::book::model;
use vstd::prelude::*;

verus! {

/// The aggregate a stored level stands for.
pub open spec fn level_model(l: Level) -> LevelModel {
    LevelModel { qty: l.total_qty as nat, count: l.order_count as nat }
}

/// Whether price `a` is better than price `b`: higher for bids, lower for asks.
pub open spec fn better(is_bid: bool, a: u64, b: u64) -> bool {
    if is_bid {
        a > b
    } else {
        a < b
    }
}

/// Levels strictly from best to worst.
pub open spec fn sorted(s: Seq<Level>, is_bid: bool) -> bool {
    forall|i: int, j: int| 0 <= i < j < s.len() ==> better(is_bid, #[trigger] s[i].price, #[trigger] s[j].price)
}

/// `price` is the price of some level.
pub open spec fn has_price(s: Seq<Level>, price: u64) -> bool {
    exists|i: int| 0 <= i < s.len() && #[trigger] s[i].price == price
}

/// Where the level at `price` is.
pub open spec fn index_of_price(s: Seq<Level>, price: u64) -> int {
    choose|i: int| 0 <= i < s.len() && #[trigger] s[i].price == price
}

/// The ladder that a sequence of levels stands for.
pub open spec fn ladder_of(s: Seq<Level>) -> Ladder {
    Map::new(|p: u64| has_price(s, p), |p: u64| level_model(s[index_of_price(s, p)]))
}

/// Every stored level counts at least one order.
pub open spec fn populated(s: Seq<Level>) -> bool {
    forall|i: int| 0 <= i < s.len() ==> (#[trigger] s[i]).order_count >= 1
}

pub proof fn lemma_level_at(s: Seq<Level>, is_bid: bool, i: int)
    requires
        sorted(s, is_bid),
        0 <= i < s.len(),
    ensures
        ladder_of(s).contains_key(s[i].price),
        ladder_of(s)[s[i].price] == level_model(s[i]),
{
    assert(has_price(s, s[i].price));
    let k = index_of_price(s, s[i].price);
    assert(0 <= k < s.len() && s[k].price == s[i].price);
    if k < i {
        assert(better(is_bid, s[k].price, s[i].price));
    } else if i < k {
        assert(better(is_bid, s[i].price, s[k].price));
    }
}

pub proof fn lemma_ladder_size(s: Seq<Level>, is_bid: bool)
    requires
        sorted(s, is_bid),
    ensures
        ladder_of(s).dom().finite(),
        ladder_of(s).len() == s.len(),
{
    let prices = s.map_values(|l: Level| l.price);
    assert(prices.no_duplicates()) by {
        assert forall|i: int, j: int| 0 <= i < prices.len() && 0 <= j < prices.len() && i != j implies prices[i]
            != prices[j] by {
            if i < j {
                assert(better(is_bid, s[i].price, s[j].price));
            } else {
                assert(better(is_bid, s[j].price, s[i].price));
            }
        }
    }
    prices.unique_seq_to_set();
    vstd::seq_lib::seq_to_set_is_finite(prices);
    assert(ladder_of(s).dom() =~= prices.to_set()) by {
        assert forall|p: u64| ladder_of(s).dom().contains(p) <==> prices.to_set().contains(p) by {
            if has_price(s, p) {
                let k = index_of_price(s, p);
                assert(prices[k] == p);
            }
            if prices.contains(p) {
                let k = choose|k: int| 0 <= k < prices.len() && prices[k] == p;
                assert(s[k].price == p);
            }
        }
    }
}

/// A sorted sequence of levels is fixed by its ladder.
pub proof fn sorted_levels_are_unique(a: Seq<Level>, b: Seq<Level>, is_bid: bool)
    requires
        sorted(a, is_bid),
        sorted(b, is_bid),
        ladder_of(a) == ladder_of(b),
    ensures
        a == b,
{
    lemma_ladder_size(a, is_bid);
    lemma_ladder_size(b, is_bid);
    assert forall|n: int| 0 <= n <= a.len() implies #[trigger] a.take(n) == b.take(n) by {
        lemma_same_prefix(a, b, is_bid, n as nat);
    }
    assert(a.take(a.len() as int) =~= a);
    assert(b.take(b.len() as int) =~= b);
}

proof fn lemma_same_prefix(a: Seq<Level>, b: Seq<Level>, is_bid: bool, n: nat)
    requires
        sorted(a, is_bid),
        sorted(b, is_bid),
        ladder_of(a) == ladder_of(b),
        a.len() == b.len(),
        n <= a.len(),
    ensures
        a.take(n as int) == b.take(n as int),
    decreases n,
{
    if n > 0 {
        let m = (n - 1) as nat;
        lemma_same_prefix(a, b, is_bid, m);
        let i = m as int;
        assert forall|j: int| 0 <= j < i implies a[j] == b[j] by {
            assert(a.take(i)[j] == b.take(i)[j]);
        }
        lemma_level_at(a, is_bid, i);
        lemma_level_at(b, is_bid, i);
        // each of the two prices stands in the other sequence, not before `i`
        assert(has_price(b, a[i].price));
        let k = index_of_price(b, a[i].price);
        if k < i {
            assert(a[k].price == a[i].price);
            assert(better(is_bid, a[k].price, a[i].price));
        }
        assert(has_price(a, b[i].price));
        let l = index_of_price(a, b[i].price);
        if l < i {
            assert(b[l].price == b[i].price);
            assert(better(is_bid, b[l].price, b[i].price));
        }
        if k > i {
            assert(better(is_bid, b[i].price, b[k].price));
        }
        if l > i {
            assert(better(is_bid, a[i].price, a[l].price));
        }
        assert(a[i].price == b[i].price);
        assert(a[i] == b[i]);
        assert(a.take(n as int) =~= a.take(i).push(a[i]));
        assert(b.take(n as int) =~= b.take(i).push(b[i]));
    } else {
        assert(a.take(0) =~= b.take(0));
    }
}

pub proof fn lemma_insert_level(s: Seq<Level>, is_bid: bool, pos: int, l: Level)
    requires
        sorted(s, is_bid),
        0 <= pos <= s.len(),
        forall|i: int| 0 <= i < pos ==> better(is_bid, (#[trigger] s[i]).price, l.price),
        forall|i: int| pos <= i < s.len() ==> better(is_bid, l.price, (#[trigger] s[i]).price),
    ensures
        sorted(s.insert(pos, l), is_bid),
        ladder_of(s.insert(pos, l)) == ladder_of(s).insert(l.price, level_model(l)),
        !ladder_of(s).contains_key(l.price),
{
    let t = s.insert(pos, l);
    assert forall|i: int, j: int| 0 <= i < j < t.len() implies better(is_bid, #[trigger] t[i].price, #[trigger] t[j].price) by {
        let i0 = if i < pos { i } else { i - 1 };
        let j0 = if j < pos { j } else { j - 1 };
        if i != pos && j != pos {
            assert(t[i] == s[i0] && t[j] == s[j0]);
        } else if i == pos {
            assert(t[j] == s[j0]);
        } else {
            assert(t[i] == s[i0]);
        }
    }
    assert forall|p: u64| has_price(t, p) <==> has_price(s, p) || p == l.price by {
        if has_price(t, p) && p != l.price {
            let k = index_of_price(t, p);
            if k < pos {
                assert(s[k].price == p);
            } else {
                assert(s[k - 1].price == p);
            }
        }
        if has_price(s, p) {
            let k = index_of_price(s, p);
            if k < pos {
                assert(t[k].price == p);
            } else {
                assert(t[k + 1].price == p);
            }
        }
        assert(t[pos].price == l.price);
    }
    let m = ladder_of(s).insert(l.price, level_model(l));
    assert forall|p: u64| has_price(t, p) implies #[trigger] ladder_of(t)[p] == m[p] by {
        let k = index_of_price(t, p);
        lemma_level_at(t, is_bid, k);
        if k < pos {
            lemma_level_at(s, is_bid, k);
        } else if k > pos {
            lemma_level_at(s, is_bid, k - 1);
        }
    }
    assert(ladder_of(t) =~= m);
}

pub proof fn lemma_update_level(s: Seq<Level>, is_bid: bool, i: int, l: Level)
    requires
        sorted(s, is_bid),
        0 <= i < s.len(),
        l.price == s[i].price,
    ensures
        sorted(s.update(i, l), is_bid),
        ladder_of(s.update(i, l)) == ladder_of(s).insert(l.price, level_model(l)),
{
    let t = s.update(i, l);
    assert forall|a: int, b: int| 0 <= a < b < t.len() implies better(is_bid, #[trigger] t[a].price, #[trigger] t[b].price) by {
        assert(better(is_bid, s[a].price, s[b].price));
    }
    assert forall|p: u64| has_price(t, p) <==> has_price(s, p) by {
        if has_price(t, p) {
            let k = index_of_price(t, p);
            assert(s[k].price == p);
        }
        if has_price(s, p) {
            let k = index_of_price(s, p);
            assert(t[k].price == p);
        }
    }
    lemma_level_at(s, is_bid, i);
    let m = ladder_of(s).insert(l.price, level_model(l));
    assert forall|p: u64| has_price(t, p) implies #[trigger] ladder_of(t)[p] == m[p] by {
        let k = index_of_price(t, p);
        lemma_level_at(t, is_bid, k);
        lemma_level_at(s, is_bid, k);
    }
    assert(ladder_of(t) =~= m);
}

pub proof fn lemma_remove_level(s: Seq<Level>, is_bid: bool, i: int)
    requires
        sorted(s, is_bid),
        0 <= i < s.len(),
    ensures
        sorted(s.remove(i), is_bid),
        ladder_of(s.remove(i)) == ladder_of(s).remove(s[i].price),
{
    let t = s.remove(i);
    assert forall|a: int, b: int| 0 <= a < b < t.len() implies better(is_bid, #[trigger] t[a].price, #[trigger] t[b].price) by {
        let a0 = if a < i { a } else { a + 1 };
        let b0 = if b < i { b } else { b + 1 };
        assert(t[a] == s[a0] && t[b] == s[b0]);
    }
    assert forall|p: u64| has_price(t, p) <==> has_price(s, p) && p != s[i].price by {
        if has_price(t, p) {
            let k = index_of_price(t, p);
            let k0 = if k < i { k } else { k + 1 };
            assert(s[k0].price == p);
            if k0 < i {
                assert(better(is_bid, s[k0].price, s[i].price));
            } else {
                assert(better(is_bid, s[i].price, s[k0].price));
            }
        }
        if has_price(s, p) && p != s[i].price {
            let k = index_of_price(s, p);
            let k0 = if k < i { k } else { k - 1 };
            assert(t[k0].price == p);
        }
    }
    let m = ladder_of(s).remove(s[i].price);
    assert forall|p: u64| has_price(t, p) implies #[trigger] ladder_of(t)[p] == m[p] by {
        let k = index_of_price(t, p);
        lemma_level_at(t, is_bid, k);
        lemma_level_at(s, is_bid, if k < i { k } else { k + 1 });
    }
    assert(ladder_of(t) =~= m);
}

/// The number of levels better than `price`: where its level is, or belongs.
pub fn locate(levels: &Vec<Level>, price: u64, is_bid: bool) -> (pos: usize)
    requires
        sorted(levels@, is_bid),
    ensures
        pos <= levels@.len(),
        forall|i: int| 0 <= i < pos ==> better(is_bid, (#[trigger] levels@[i]).price, price),
        forall|i: int| pos <= i < levels@.len() ==> !better(is_bid, (#[trigger] levels@[i]).price, price),
{
    let mut lo: usize = 0;
    let mut hi: usize = levels.len();
    while lo < hi
        invariant
            lo <= hi <= levels@.len(),
            sorted(levels@, is_bid),
            forall|i: int| 0 <= i < lo ==> better(is_bid, (#[trigger] levels@[i]).price, price),
            forall|i: int| hi <= i < levels@.len() ==> !better(is_bid, (#[trigger] levels@[i]).price, price),
        decreases hi - lo,
    {
        let mid: usize = lo + (hi - lo) / 2;
        let p: u64 = levels[mid].price;
        let ahead: bool = if is_bid { p > price } else { p < price };
        if ahead {
            assert forall|i: int| 0 <= i <= mid implies better(is_bid, (#[trigger] levels@[i]).price, price) by {
                if i < mid {
                    assert(better(is_bid, levels@[i].price, levels@[mid as int].price));
                }
            }
            lo = mid + 1;
        } else {
            assert forall|i: int| mid <= i < levels@.len() implies !better(is_bid, (#[trigger] levels@[i]).price, price) by {
                if i > mid {
                    assert(better(is_bid, levels@[mid as int].price, levels@[i].price));
                }
            }
            hi = mid;
        }
    }
    lo
}

/// The index of the level at `price`.
pub fn find_level(levels: &Vec<Level>, price: u64, is_bid: bool) -> (r: Option<usize>)
    requires
        sorted(levels@, is_bid),
    ensures
        r is Some <==> ladder_of(levels@).contains_key(price),
        r matches Some(i) ==> i < levels@.len() && levels@[i as int].price == price,
{
    let pos: usize = locate(levels, price, is_bid);
    if pos < levels.len() && levels[pos].price == price {
        proof {
            lemma_level_at(levels@, is_bid, pos as int);
        }
        Some(pos)
    } else {
        assert(!has_price(levels@, price)) by {
            if has_price(levels@, price) {
                let k = index_of_price(levels@, price);
                if pos < k {
                    assert(better(is_bid, levels@[pos as int].price, levels@[k].price));
                }
            }
        }
        None
    }
}

/// Adds one order of `qty` at `price`. A new level is refused once `cap` levels stand.
pub fn raise(levels: &mut Vec<Level>, price: u64, qty: u64, is_bid: bool, cap: usize) -> (ok: bool)
    requires
        sorted(old(levels)@, is_bid),
        populated(old(levels)@),
        old(levels)@.len() <= cap,
        ladder_of(old(levels)@).contains_key(price) ==> {
            &&& ladder_of(old(levels)@)[price].qty + qty <= u64::MAX
            &&& ladder_of(old(levels)@)[price].count < u32::MAX
        },
    ensures
        sorted(final(levels)@, is_bid),
        populated(final(levels)@),
        final(levels)@.len() <= cap,
        ok == (ladder_of(old(levels)@).contains_key(price) || old(levels)@.len() < cap),
        ladder_of(final(levels)@) == (if ok {
            model::grow(ladder_of(old(levels)@), price, qty as nat)
        } else {
            ladder_of(old(levels)@)
        }),
{
    let ghost s = levels@;
    let pos: usize = locate(levels, price, is_bid);
    if pos < levels.len() && levels[pos].price == price {
        proof {
            lemma_level_at(s, is_bid, pos as int);
        }
        let l: Level = levels[pos];
        let n = Level { price, total_qty: l.total_qty + qty, order_count: l.order_count + 1 };
        levels.set(pos, n);
        proof {
            lemma_update_level(s, is_bid, pos as int, n);
        }
        true
    } else {
        assert forall|i: int| pos <= i < s.len() implies better(is_bid, price, (#[trigger] s[i]).price) by {
            assert(!better(is_bid, s[i].price, price));
            if i > pos {
                assert(better(is_bid, s[pos as int].price, s[i].price));
            }
        }
        let n = Level { price, total_qty: qty, order_count: 1 };
        proof {
            lemma_insert_level(s, is_bid, pos as int, n);
        }
        if levels.len() >= cap {
            false
        } else {
            levels.insert(pos, n);
            true
        }
    }
}

/// Takes `qty` from the level at `price`; with `release` one order leaves too,
/// and a level goes with its last order. Tells whether the level was there.
pub fn lower(levels: &mut Vec<Level>, price: u64, qty: u64, is_bid: bool, release: bool) -> (found: bool)
    requires
        sorted(old(levels)@, is_bid),
        populated(old(levels)@),
    ensures
        sorted(final(levels)@, is_bid),
        populated(final(levels)@),
        final(levels)@.len() <= old(levels)@.len(),
        found == ladder_of(old(levels)@).contains_key(price),
        ladder_of(final(levels)@) == model::shrink(ladder_of(old(levels)@), price, qty as nat, release),
{
    let ghost s = levels@;
    match find_level(levels, price, is_bid) {
        Some(i) => {
            proof {
                lemma_level_at(s, is_bid, i as int);
            }
            let l: Level = levels[i];
            let left: u64 = l.total_qty.saturating_sub(qty);
            if release {
                let count: u32 = l.order_count.saturating_sub(1);
                if count == 0 {
                    levels.remove(i);
                    proof {
                        lemma_remove_level(s, is_bid, i as int);
                    }
                } else {
                    let n = Level { price, total_qty: left, order_count: count };
                    levels.set(i, n);
                    proof {
                        lemma_update_level(s, is_bid, i as int, n);
                    }
                }
            } else {
                let n = Level { price, total_qty: left, order_count: l.order_count };
                levels.set(i, n);
                proof {
                    lemma_update_level(s, is_bid, i as int, n);
                }
            }
            true
        },
        None => false,
    }
}

} // verus!
