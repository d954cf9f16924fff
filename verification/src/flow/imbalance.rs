//! Imbalance and depth at the top of the book.

use crate::book::hot_book::HotOrderBook;
#[allow(unused_imports)]
use crate::book::hot_book;
use crate::ratio::SignedFraction;
use vstd::prelude::*;

verus! {

/// Bid less ask quantity over their sum, of the best `levels` levels. Zero when
/// both are empty. Positive is bid-heavy.
pub fn book_imbalance<const M: usize>(book: &HotOrderBook<M>, levels: usize) -> (r: SignedFraction)
    requires
        book.wf(),
        hot_book::depth_of(book.bid_seq(), book.bid_seq().len()) + hot_book::depth_of(
            book.ask_seq(),
            book.ask_seq().len(),
        ) <= u64::MAX,
    ensures
        ({
            let bid = hot_book::depth_of(book.bid_seq(), levels as nat);
            let ask = hot_book::depth_of(book.ask_seq(), levels as nat);
            r == imbalance_of(bid, ask)
        }),
{
    proof {
        hot_book::lemma_depth_total(book.bid_seq(), levels as nat);
        hot_book::lemma_depth_total(book.ask_seq(), levels as nat);
    }
    let bid: u64 = book.bid_depth(levels);
    let ask: u64 = book.ask_depth(levels);
    let total: u64 = bid + ask;
    if total == 0 {
        return SignedFraction { num: 0, den: 1 };
    }
    SignedFraction { num: bid as i128 - ask as i128, den: total }
}

/// `(bid - ask) / (bid + ask)`, or zero without any quantity.
pub open spec fn imbalance_of(bid: nat, ask: nat) -> SignedFraction {
    if bid + ask == 0 {
        SignedFraction { num: 0, den: 1 }
    } else {
        SignedFraction { num: (bid - ask) as i128, den: (bid + ask) as u64 }
    }
}

/// An imbalance lies between minus one and one, is one exactly when only bids
/// are there, and minus one exactly when only asks are.
pub proof fn imbalance_is_bounded(bid: nat, ask: nat)
    requires
        bid + ask <= u64::MAX,
    ensures
        imbalance_of(bid, ask).den > 0,
        -imbalance_of(bid, ask).den <= imbalance_of(bid, ask).num <= imbalance_of(bid, ask).den,
        imbalance_of(bid, ask).num == imbalance_of(bid, ask).den <==> bid > 0 && ask == 0,
        imbalance_of(bid, ask).num == -imbalance_of(bid, ask).den <==> ask > 0 && bid == 0,
{
}

/// Depth of the best levels, each side.
#[derive(Debug, Clone, Copy)]
pub struct DepthSnapshot {
    pub bid_depth: u64,
    pub ask_depth: u64,
    pub bid_levels: usize,
    pub ask_levels: usize,
}

/// Quantity and number of levels among the best `levels` of each side.
pub fn depth_snapshot<const M: usize>(book: &HotOrderBook<M>, levels: usize) -> (s: DepthSnapshot)
    requires
        book.wf(),
        hot_book::depth_of(book.bid_seq(), book.bid_seq().len()) <= u64::MAX,
        hot_book::depth_of(book.ask_seq(), book.ask_seq().len()) <= u64::MAX,
    ensures
        s.bid_depth == hot_book::depth_of(book.bid_seq(), levels as nat),
        s.ask_depth == hot_book::depth_of(book.ask_seq(), levels as nat),
        s.bid_levels == (if book.bid_seq().len() < levels {
            book.bid_seq().len()
        } else {
            levels as nat
        }),
        s.ask_levels == (if book.ask_seq().len() < levels {
            book.ask_seq().len()
        } else {
            levels as nat
        }),
{
    let bids: usize = book.bid_count();
    let asks: usize = book.ask_count();
    DepthSnapshot {
        bid_depth: book.bid_depth(levels),
        ask_depth: book.ask_depth(levels),
        bid_levels: if bids < levels { bids } else { levels },
        ask_levels: if asks < levels { asks } else { levels },
    }
}

/// An imbalance is what there is more of on the bid side than on the ask side, over
/// all there is; with the sides exchanged it is the same with the other sign, and it
/// is positive exactly where there is more to buy.
pub proof fn imbalance_has_two_sides(bid: nat, ask: nat)
    requires
        bid + ask <= u64::MAX,
    ensures
        imbalance_of(ask, bid).num == -imbalance_of(bid, ask).num,
        imbalance_of(ask, bid).den == imbalance_of(bid, ask).den,
        imbalance_of(bid, ask).num == bid - ask,
        imbalance_of(bid, ask).num > 0 <==> bid > ask,
        imbalance_of(bid, ask).num < 0 <==> bid < ask,
        bid + ask > 0 ==> imbalance_of(bid, ask).den == bid + ask,
{
}

} // verus!
