//! First and last key of an ordered map.

use std::collections::BTreeMap;
use vstd::prelude::*;

verus! {

/// `p` is the lowest key of `m`.
pub open spec fn is_min_key<V>(m: Map<u64, V>, p: u64) -> bool {
    m.contains_key(p) && forall|q: u64| #[trigger] m.contains_key(q) ==> p <= q
}

/// `p` is the highest key of `m`.
pub open spec fn is_max_key<V>(m: Map<u64, V>, p: u64) -> bool {
    m.contains_key(p) && forall|q: u64| #[trigger] m.contains_key(q) ==> q <= p
}

/// `std::collections::BTreeMap::first_key_value`: the pair with the minimum key,
/// or nothing when the map is empty.
#[verifier::external_body]
pub(crate) fn min_key<V>(m: &BTreeMap<u64, V>) -> (r: Option<u64>)
    ensures
        r is None <==> m@.dom() == Set::<u64>::empty(),
        r matches Some(p) ==> is_min_key(m@, p),
{
    m.first_key_value().map(|kv| *kv.0)
}

/// `std::collections::BTreeMap::last_key_value`: the pair with the maximum key,
/// or nothing when the map is empty.
#[verifier::external_body]
pub(crate) fn max_key<V>(m: &BTreeMap<u64, V>) -> (r: Option<u64>)
    ensures
        r is None <==> m@.dom() == Set::<u64>::empty(),
        r matches Some(p) ==> is_max_key(m@, p),
{
    m.last_key_value().map(|kv| *kv.0)
}

/// The lowest key, if there is one.
pub open spec fn first_key<V>(m: Map<u64, V>) -> Option<u64> {
    if m.dom() == Set::<u64>::empty() {
        None
    } else {
        Some(choose|k: u64| is_min_key(m, k))
    }
}

/// The highest key, if there is one.
pub open spec fn last_key<V>(m: Map<u64, V>) -> Option<u64> {
    if m.dom() == Set::<u64>::empty() {
        None
    } else {
        Some(choose|k: u64| is_max_key(m, k))
    }
}

/// A lowest key is the lowest key.
pub proof fn lemma_first_key<V>(m: Map<u64, V>, p: u64)
    requires
        is_min_key(m, p),
    ensures
        first_key(m) == Some(p),
{
    assert(m.dom().contains(p));
    let k = choose|k: u64| is_min_key(m, k);
    assert(is_min_key(m, k));
    assert(m.contains_key(k) && m.contains_key(p));
}

/// A highest key is the highest key.
pub proof fn lemma_last_key<V>(m: Map<u64, V>, p: u64)
    requires
        is_max_key(m, p),
    ensures
        last_key(m) == Some(p),
{
    assert(m.dom().contains(p));
    let k = choose|k: u64| is_max_key(m, k);
    assert(is_max_key(m, k));
    assert(m.contains_key(k) && m.contains_key(p));
}

/// A finite map with a key has a lowest and a highest one.
pub proof fn lemma_ends_exist<V>(m: Map<u64, V>)
    requires
        m.dom().finite(),
        m.dom() != Set::<u64>::empty(),
    ensures
        first_key(m) matches Some(p) && is_min_key(m, p),
        last_key(m) matches Some(q) && is_max_key(m, q),
    decreases m.dom().len(),
{
    let c = m.dom().choose();
    assert(m.dom().contains(c)) by {
        if m.dom().len() == 0 {
            m.dom().lemma_len0_is_empty();
        }
    }
    let r = m.remove(c);
    if r.dom() == Set::<u64>::empty() {
        assert forall|j: u64| #[trigger] m.contains_key(j) implies j == c by {
            if j != c {
                assert(r.dom().contains(j));
            }
        }
        assert(is_min_key(m, c) && is_max_key(m, c));
        lemma_first_key(m, c);
        lemma_last_key(m, c);
    } else {
        lemma_ends_exist(r);
        let lo = first_key(r)->0;
        let hi = last_key(r)->0;
        let p = if c < lo { c } else { lo };
        let q = if c > hi { c } else { hi };
        assert forall|j: u64| #[trigger] m.contains_key(j) implies p <= j <= q by {
            if j != c {
                assert(r.contains_key(j));
            }
        }
        assert(is_min_key(m, p) && is_max_key(m, q));
        lemma_first_key(m, p);
        lemma_last_key(m, q);
    }
}

/// The lowest key of an ordered map.
pub fn lowest<V>(m: &BTreeMap<u64, V>) -> (r: Option<u64>)
    ensures
        r == first_key(m@),
        r matches Some(p) ==> is_min_key(m@, p),
{
    let r = min_key(m);
    proof {
        if let Some(p) = r {
            lemma_first_key(m@, p);
        }
    }
    r
}

/// The highest key of an ordered map.
pub fn highest<V>(m: &BTreeMap<u64, V>) -> (r: Option<u64>)
    ensures
        r == last_key(m@),
        r matches Some(p) ==> is_max_key(m@, p),
{
    let r = max_key(m);
    proof {
        if let Some(p) = r {
            lemma_last_key(m@, p);
        }
    }
    r
}

} // verus!
