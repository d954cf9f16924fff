//! Which instrument is followed.
//!
//! One that was asked for is followed for good. Otherwise the first one to
//! print enough trades is, until it has printed none for a while.

use crate::book::event::{Event, EventType};
#[allow(unused_imports)]
use crate::book::event;
use std::collections::HashMap;
use vstd::prelude::*;

verus! {

/// Without a trade for longer than this, another instrument may be followed.
pub const STALE_NS: u64 = 5_000_000_000;

/// What becomes of an event.
#[derive(Debug, Clone, Copy, PartialEq, Eq, Structural)]
pub enum Gate {
    /// It is of no interest.
    Skip,
    /// It is of the instrument that is followed.
    Pass,
    /// Its instrument is followed from now on, after this many trades.
    Locked(u32),
}

/// What is remembered.
#[verifier::ext_equal]
pub struct LockModel {
    /// The instrument that was asked for.
    pub pinned: Option<u32>,
    /// Trades after which an instrument is followed.
    pub threshold: u32,
    /// The instrument that is followed.
    pub followed: Option<u32>,
    /// Trades of each instrument while none is followed.
    pub counts: Map<u32, u32>,
    /// When the one that is followed last traded.
    pub last_trade_ns: Option<u64>,
}

/// What is followed has not traded for too long, and was not asked for.
pub open spec fn is_stale(m: LockModel, now_ns: u64) -> bool {
    &&& m.followed is Some
    &&& m.last_trade_ns is Some
    &&& m.pinned is None
    &&& now_ns - m.last_trade_ns->0 > STALE_NS
}

/// Nothing is followed any more if it is stale.
pub open spec fn rearmed(m: LockModel, now_ns: u64) -> LockModel {
    if is_stale(m, now_ns) {
        LockModel { followed: None, counts: Map::empty(), last_trade_ns: None, ..m }
    } else {
        m
    }
}

/// Trades of an instrument so far.
pub open spec fn trades_of(m: LockModel, id: u32) -> int {
    if m.counts.contains_key(id) {
        m.counts[id] as int
    } else {
        0
    }
}

/// One event.
pub open spec fn lock_step(m: LockModel, e: Event, now_ns: u64) -> (LockModel, Gate) {
    let r = rearmed(m, now_ns);
    let is_trade = e.event_type == event::event_code(EventType::Trade);
    match r.followed {
        Some(id) => if e.instrument_id != id {
            (r, Gate::Skip)
        } else if is_trade {
            (LockModel { last_trade_ns: Some(now_ns), ..r }, Gate::Pass)
        } else {
            (r, Gate::Pass)
        },
        None => if is_trade {
            let n = (trades_of(r, e.instrument_id) + 1) as u32;
            if n >= r.threshold {
                (
                    LockModel {
                        followed: Some(e.instrument_id),
                        counts: Map::empty(),
                        last_trade_ns: Some(now_ns),
                        ..r
                    },
                    Gate::Locked(n),
                )
            } else {
                (LockModel { counts: r.counts.insert(e.instrument_id, n), ..r }, Gate::Skip)
            }
        } else {
            (r, Gate::Skip)
        },
    }
}

/// Decides which instrument is followed.
#[derive(Debug)]
pub struct SymbolLock {
    pinned: Option<u32>,
    threshold: u32,
    followed: Option<u32>,
    counts: HashMap<u32, u32>,
    last_trade_ns: Option<u64>,
}

impl View for SymbolLock {
    type V = LockModel;

    closed spec fn view(&self) -> LockModel {
        LockModel {
            pinned: self.pinned,
            threshold: self.threshold,
            followed: self.followed,
            counts: self.counts@,
            last_trade_ns: self.last_trade_ns,
        }
    }
}

impl SymbolLock {
    /// No instrument has enough trades yet.
    pub open spec fn wf(&self) -> bool {
        forall|id: u32| #[trigger] self@.counts.contains_key(id) ==> self@.counts[id] < self@.threshold
    }

    /// Follows `pinned` for good, or else whatever prints `threshold` trades.
    pub fn new(pinned: Option<u32>, threshold: u32) -> (l: Self)
        ensures
            l.wf(),
            l@ == (LockModel {
                pinned,
                threshold,
                followed: pinned,
                counts: Map::empty(),
                last_trade_ns: None,
            }),
    {
        broadcast use vstd::std_specs::hash::group_hash_axioms;

        let l = SymbolLock {
            pinned,
            threshold,
            followed: pinned,
            counts: HashMap::new(),
            last_trade_ns: None,
        };
        assert(l@.counts =~= Map::empty());
        l
    }

    /// The instrument that is followed.
    pub fn followed(&self) -> (t: Option<u32>)
        ensures
            t == self@.followed,
    {
        self.followed
    }

    /// What becomes of an event.
    pub fn step(&mut self, e: &Event, now_ns: u64) -> (g: Gate)
        requires
            old(self).wf(),
        ensures
            final(self).wf(),
            (final(self)@, g) == lock_step(old(self)@, *e, now_ns),
    {
        broadcast use vstd::std_specs::hash::group_hash_axioms;

        self.rearm(now_ns);
        let ghost r = self@;
        let is_trade: bool = e.event_type == EventType::Trade.code();
        match self.followed {
            Some(id) => {
                if e.instrument_id != id {
                    return Gate::Skip;
                }
                if is_trade {
                    self.last_trade_ns = Some(now_ns);
                }
                assert(self@.counts == r.counts);
                Gate::Pass
            },
            None => {
                if !is_trade {
                    return Gate::Skip;
                }
                assert(r.counts.contains_key(e.instrument_id) ==> r.counts[e.instrument_id] < r.threshold);
                let seen: u32 = match self.counts.get(&e.instrument_id) {
                    Some(c) => *c,
                    None => 0,
                };
                let n: u32 = seen + 1;
                if n < self.threshold {
                    self.counts.insert(e.instrument_id, n);
                    assert(self@.counts == r.counts.insert(e.instrument_id, n));
                    return Gate::Skip;
                }
                self.followed = Some(e.instrument_id);
                self.counts = HashMap::new();
                self.last_trade_ns = Some(now_ns);
                assert(self@.counts =~= Map::empty());
                Gate::Locked(n)
            },
        }
    }

    fn rearm(&mut self, now_ns: u64)
        requires
            old(self).wf(),
        ensures
            final(self).wf(),
            final(self)@ == rearmed(old(self)@, now_ns),
    {
        broadcast use vstd::std_specs::hash::group_hash_axioms;

        if self.followed.is_some() && self.pinned.is_none() {
            if let Some(last) = self.last_trade_ns {
                if now_ns > last && now_ns - last > STALE_NS {
                    self.followed = None;
                    self.last_trade_ns = None;
                    self.counts = HashMap::new();
                    assert(self@.counts =~= Map::empty());
                }
            }
        }
    }
}

// ─── Laws ───────────────────────────────────────────────────────────

/// The lock after some events, each with its time.
pub open spec fn lock_run(m: LockModel, es: Seq<(Event, u64)>) -> LockModel
    decreases es.len(),
{
    if es.len() == 0 {
        m
    } else {
        lock_step(lock_run(m, es.drop_last()), es.last().0, es.last().1).0
    }
}

/// An instrument that was asked for is never given up, however quiet it is.
pub proof fn pinned_stays_followed(m: LockModel, es: Seq<(Event, u64)>, id: u32)
    requires
        m.pinned == Some(id),
        m.followed == Some(id),
    ensures
        lock_run(m, es).pinned == Some(id),
        lock_run(m, es).followed == Some(id),
    decreases es.len(),
{
    if es.len() > 0 {
        pinned_stays_followed(m, es.drop_last(), id);
    }
}

/// Only events of the instrument that is followed go further.
pub proof fn only_the_followed_passes(m: LockModel, e: Event, now_ns: u64)
    ensures
        lock_step(m, e, now_ns).1 != Gate::Skip ==> lock_step(m, e, now_ns).0.followed == Some(e.instrument_id),
{
}

/// What an event does while nothing is followed: a trade counts for its instrument and for
/// no other, and the trade that makes enough has its instrument followed; anything else
/// changes nothing. Nothing passes.
pub proof fn trades_earn_the_lock(m: LockModel, e: Event, now_ns: u64, other: u32)
    requires
        m.followed is None,
        m.counts.contains_key(e.instrument_id) ==> m.counts[e.instrument_id] < u32::MAX,
    ensures
        ({
            let (n, g) = lock_step(m, e, now_ns);
            let had = if m.counts.contains_key(e.instrument_id) {
                m.counts[e.instrument_id] as int
            } else {
                0
            };
            let trade = e.event_type == event::event_code(EventType::Trade);
            &&& trade && had + 1 >= m.threshold ==> {
                &&& n.followed == Some(e.instrument_id)
                &&& g == Gate::Locked((had + 1) as u32)
                &&& n.last_trade_ns == Some(now_ns)
                &&& n.counts == Map::<u32, u32>::empty()
            }
            &&& trade && had + 1 < m.threshold ==> {
                &&& g == Gate::Skip
                &&& n.followed is None
                &&& n.counts.contains_key(e.instrument_id) && n.counts[e.instrument_id] == had + 1
                &&& other != e.instrument_id ==> (n.counts.contains_key(other) <==> m.counts.contains_key(other))
                    && n.counts[other] == m.counts[other]
            }
            &&& !trade ==> g == Gate::Skip && n == m
        }),
{
}

/// What is followed passes, and nothing else. It is given up, with all counts, once it has
/// not traded for more than five seconds, unless it was asked for; a trade of it starts
/// that time anew.
pub proof fn the_lock_is_kept_by_trades(m: LockModel, e: Event, now_ns: u64)
    requires
        m.followed is Some,
    ensures
        ({
            let (n, g) = lock_step(m, e, now_ns);
            let quiet = m.last_trade_ns is Some && now_ns - m.last_trade_ns->0 > 5_000_000_000 && m.pinned is None;
            let same = e.instrument_id == m.followed->0;
            &&& !quiet && same ==> g == Gate::Pass && n.followed == m.followed
            &&& !quiet && !same ==> g == Gate::Skip && n == m
            &&& !quiet && same && e.event_type == event::event_code(EventType::Trade) ==> n.last_trade_ns == Some(
                now_ns,
            )
            &&& !quiet && same && e.event_type != event::event_code(EventType::Trade) ==> n == m
            &&& quiet && e.event_type != event::event_code(EventType::Trade) ==> n.followed is None && g
                == Gate::Skip && n.counts == Map::<u32, u32>::empty() && n.last_trade_ns is None
            &&& quiet && e.event_type == event::event_code(EventType::Trade) && m.threshold > 1 ==> n.followed is None
                && n.counts == Map::<u32, u32>::empty().insert(e.instrument_id, 1) && g == Gate::Skip
        }),
{
}

} // verus!
