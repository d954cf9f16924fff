//! The canonical level-two digest.

use crate::book::ladder;
use crate::book::model::{Ladder, Level};
use vstd::bytes::u64_to_le_bytes;
use vstd::prelude::*;

verus! {

/// What `xxhash_rust::xxh3::xxh3_64` returns for these bytes.
pub uninterp spec fn xxh3_of(data: Seq<u8>) -> u64;

/// What `xxhash_rust::xxh3::xxh3_64_with_seed` returns for these bytes and seed.
pub uninterp spec fn xxh3_seeded_of(data: Seq<u8>, seed: u64) -> u64;

/// `xxhash_rust::xxh3::xxh3_64`: a digest fixed by the bytes alone.
#[verifier::external_body]
pub(crate) fn xxh3(data: &[u8]) -> (h: u64)
    ensures
        h == xxh3_of(data@),
{
    xxhash_rust::xxh3::xxh3_64(data)
}

/// `xxhash_rust::xxh3::xxh3_64_with_seed`: a digest fixed by the bytes and the seed.
#[verifier::external_body]
pub(crate) fn xxh3_seeded(data: &[u8], seed: u64) -> (h: u64)
    ensures
        h == xxh3_seeded_of(data@, seed),
{
    xxhash_rust::xxh3::xxh3_64_with_seed(data, seed)
}

/// `FLOWLAB-L2-v1` in ASCII: the domain tag, so that an empty book has a digest
/// of its own.
pub open spec fn domain_tag() -> Seq<u8> {
    seq![
        70u8,
        76u8,
        79u8,
        87u8,
        76u8,
        65u8,
        66u8,
        45u8,
        76u8,
        50u8,
        45u8,
        118u8,
        49u8,
    ]
}

/// `|` in ASCII, between bids and asks.
pub open spec fn separator() -> Seq<u8> {
    seq![124u8]
}

/// The sixteen bytes of a level: price, then quantity, little-endian.
pub open spec fn level_layout(price: u64, qty: u64) -> Seq<u8> {
    vstd::bytes::spec_u64_to_le_bytes(price) + vstd::bytes::spec_u64_to_le_bytes(qty)
}

/// Each level, in order, is digested with the digest so far as the seed, and
/// the result is folded in by exclusive or.
pub open spec fn fold_levels(h: u64, levels: Seq<Level>) -> u64
    decreases levels.len(),
{
    if levels.len() == 0 {
        h
    } else {
        let prev = fold_levels(h, levels.drop_last());
        let l = levels.last();
        prev ^ xxh3_seeded_of(level_layout(l.price, l.total_qty), prev)
    }
}

/// The digest of a book: the tag, the bids from the best down, the separator
/// (which replaces the digest rather than folding into it), the asks from the
/// best up.
pub open spec fn l2_digest(bids: Seq<Level>, asks: Seq<Level>) -> u64 {
    fold_levels(
        xxh3_seeded_of(separator(), fold_levels(xxh3_of(domain_tag()), bids)),
        asks,
    )
}

/// The levels of a ladder, best first.
pub open spec fn best_first(m: Ladder, is_bid: bool) -> Seq<Level> {
    choose|s: Seq<Level>| ladder::sorted(s, is_bid) && #[trigger] ladder::ladder_of(s) == m
}

pub proof fn lemma_best_first(s: Seq<Level>, is_bid: bool)
    requires
        ladder::sorted(s, is_bid),
    ensures
        best_first(ladder::ladder_of(s), is_bid) == s,
{
    let t = best_first(ladder::ladder_of(s), is_bid);
    assert(ladder::sorted(t, is_bid) && ladder::ladder_of(t) == ladder::ladder_of(s));
    ladder::sorted_levels_are_unique(s, t, is_bid);
}

/// The bytes of a level.
pub fn level_bytes(price: u64, qty: u64) -> (r: Vec<u8>)
    ensures
        r@ == level_layout(price, qty),
        r@.len() == 16,
{
    let mut out: Vec<u8> = u64_to_le_bytes(price);
    let mut part: Vec<u8> = u64_to_le_bytes(qty);
    out.append(&mut part);
    out
}

/// Folds the digest of one level into the digest so far.
pub fn fold_digest(h: u64, level_digest: u64) -> (r: u64)
    ensures
        r == h ^ level_digest,
{
    h ^ level_digest
}

/// Folds all levels in, in order.
pub fn digest_levels(start: u64, levels: &[Level]) -> (h: u64)
    ensures
        h == fold_levels(start, levels@),
{
    let mut h: u64 = start;
    let mut i: usize = 0;
    assert(levels@.take(0) =~= Seq::<Level>::empty());
    while i < levels.len()
        invariant
            i <= levels@.len(),
            h == fold_levels(start, levels@.take(i as int)),
        decreases levels@.len() - i,
    {
        let bytes: Vec<u8> = level_bytes(levels[i].price, levels[i].total_qty);
        assert(levels@.take(i + 1).drop_last() =~= levels@.take(i as int));
        h = fold_digest(h, xxh3_seeded(bytes.as_slice(), h));
        i += 1;
    }
    assert(levels@.take(i as int) =~= levels@);
    h
}

/// The digest of a book from its levels, each side best first.
pub fn digest_book(bids: &[Level], asks: &[Level]) -> (h: u64)
    ensures
        h == l2_digest(bids@, asks@),
{
    let tag: [u8; 13] = [70, 76, 79, 87, 76, 65, 66, 45, 76, 50, 45, 118, 49];
    assert(tag@ =~= domain_tag());
    let bar: [u8; 1] = [124];
    assert(bar@ =~= separator());
    let h0: u64 = xxh3(&tag);
    let h1: u64 = digest_levels(h0, bids);
    let h2: u64 = xxh3_seeded(&bar, h1);
    digest_levels(h2, asks)
}

// ─── Laws ───────────────────────────────────────────────────────────

/// The same prices with the same quantities, in the same order, whatever the
/// numbers of orders.
pub open spec fn same_quotes(a: Seq<Level>, b: Seq<Level>) -> bool {
    &&& a.len() == b.len()
    &&& forall|i: int|
        0 <= i < a.len() ==> (#[trigger] a[i]).price == (#[trigger] b[i]).price && a[i].total_qty
            == b[i].total_qty
}

proof fn lemma_fold_looks_at_quotes(h: u64, a: Seq<Level>, b: Seq<Level>)
    requires
        same_quotes(a, b),
    ensures
        fold_levels(h, a) == fold_levels(h, b),
    decreases a.len(),
{
    if a.len() > 0 {
        let (c, d) = (a.drop_last(), b.drop_last());
        assert forall|i: int| 0 <= i < c.len() implies (#[trigger] c[i]).price == (#[trigger] d[i]).price
            && c[i].total_qty == d[i].total_qty by {
            assert(c[i] == a[i] && d[i] == b[i]);
        }
        lemma_fold_looks_at_quotes(h, c, d);
        assert(a[a.len() - 1].price == b[a.len() - 1].price);
    }
}

/// Two books with the same prices and quantities have the same digest: how many
/// orders make up a level does not matter.
pub proof fn digest_looks_at_quotes(
    bids: Seq<Level>,
    asks: Seq<Level>,
    other_bids: Seq<Level>,
    other_asks: Seq<Level>,
)
    requires
        same_quotes(bids, other_bids),
        same_quotes(asks, other_asks),
    ensures
        l2_digest(bids, asks) == l2_digest(other_bids, other_asks),
{
    let h = xxh3_of(domain_tag());
    lemma_fold_looks_at_quotes(h, bids, other_bids);
    lemma_fold_looks_at_quotes(
        xxh3_seeded_of(separator(), fold_levels(h, bids)),
        asks,
        other_asks,
    );
}

} // verus!
