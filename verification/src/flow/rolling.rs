//! Rolling windows over a double-ended queue.

use std::collections::VecDeque;
use vstd::prelude::*;

verus! {

/// The window after `x` comes in. Once it is full the oldest entry goes; it
/// always holds at least the newest.
pub open spec fn slide<T>(s: Seq<T>, window: nat, x: T) -> Seq<T> {
    if s.len() >= window && s.len() > 0 {
        s.drop_first().push(x)
    } else {
        s.push(x)
    }
}

/// Puts `x` in and hands back the entry that had to go.
pub fn slide_in<T>(q: &mut VecDeque<T>, window: usize, x: T) -> (gone: Option<T>)
    ensures
        final(q)@ == slide(old(q)@, window as nat, x),
        gone is Some <==> old(q)@.len() >= window && old(q)@.len() > 0,
        gone matches Some(g) ==> g == old(q)@[0],
{
    let gone: Option<T> = if q.len() >= window {
        q.pop_front()
    } else {
        None
    };
    q.push_back(x);
    proof {
        if gone is Some {
            assert(q@ =~= old(q)@.drop_first().push(x));
        }
    }
    gone
}

/// No window ever holds more than its size, or more than one entry where the
/// size is zero.
pub proof fn windows_stay_bounded<T>(s: Seq<T>, window: nat, x: T)
    requires
        s.len() <= window || s.len() <= 1,
    ensures
        slide(s, window, x).len() <= window || slide(s, window, x).len() <= 1,
        slide(s, window, x).last() == x,
{
}

/// The sum of a window of 64-bit numbers.
pub open spec fn total(s: Seq<u64>) -> nat
    decreases s.len(),
{
    if s.len() == 0 {
        0
    } else {
        total(s.drop_last()) + s.last() as nat
    }
}

pub proof fn lemma_total_front(s: Seq<u64>)
    requires
        s.len() > 0,
    ensures
        total(s) == s[0] + total(s.drop_first()),
    decreases s.len(),
{
    if s.len() > 1 {
        lemma_total_front(s.drop_last());
        assert(s.drop_last().drop_first() =~= s.drop_first().drop_last());
        assert(s.drop_first().last() == s.last());
    } else {
        assert(s.drop_last() =~= Seq::<u64>::empty());
        assert(s.drop_first() =~= Seq::<u64>::empty());
    }
}

pub proof fn lemma_total_slide(s: Seq<u64>, window: nat, x: u64)
    ensures
        total(slide(s, window, x)) == total(s) + x - (if s.len() >= window && s.len() > 0 {
            s[0] as int
        } else {
            0
        }),
        s.len() > 0 ==> s[0] <= total(s),
{
    if s.len() > 0 {
        lemma_total_front(s);
    }
    let t = if s.len() >= window && s.len() > 0 {
        s.drop_first()
    } else {
        s
    };
    assert(t.push(x).drop_last() =~= t);
}

pub proof fn lemma_total_bound(s: Seq<u64>)
    ensures
        total(s) <= s.len() * u64::MAX,
    decreases s.len(),
{
    if s.len() > 0 {
        lemma_total_bound(s.drop_last());
        assert(s.len() * u64::MAX == (s.len() - 1) * u64::MAX + u64::MAX) by (nonlinear_arith);
    }
}

/// A window that many entries came into, one by one, from an empty one.
pub open spec fn slid<T>(xs: Seq<T>, window: nat) -> Seq<T>
    decreases xs.len(),
{
    if xs.len() == 0 {
        Seq::empty()
    } else {
        slide(slid(xs.drop_last(), window), window, xs.last())
    }
}

/// However many entries come, the window holds the newest ones in their order, as many
/// as it has room for, and one where it has room for none.
pub proof fn windows_hold_the_newest<T>(xs: Seq<T>, window: nat)
    ensures
        ({
            let w = slid(xs, window);
            let room = if window == 0 { 1nat } else { window };
            &&& w.len() == (if xs.len() <= room { xs.len() } else { room })
            &&& forall|i: int|
                #![trigger w[i]]
                0 <= i < w.len() ==> w[i] == xs[xs.len() - w.len() + i]
        }),
    decreases xs.len(),
{
    if xs.len() > 0 {
        windows_hold_the_newest(xs.drop_last(), window);
    }
}

/// A sum is the sum: nothing of nothing, and one entry more is that much more.
pub proof fn totals_add(s: Seq<u64>, x: u64)
    ensures
        total(Seq::empty()) == 0,
        total(s.push(x)) == total(s) + x,
        forall|i: int| 0 <= i < s.len() ==> #[trigger] s[i] <= total(s),
    decreases s.len(),
{
    assert(s.push(x).drop_last() =~= s);
    if s.len() > 0 {
        totals_add(s.drop_last(), x);
        assert forall|i: int| 0 <= i < s.len() implies #[trigger] s[i] <= total(s) by {
            if i < s.len() - 1 {
                assert(s.drop_last()[i] == s[i]);
            }
        }
    }
}

} // verus!
