//! Groups flags into episodes.
//!
//! A flag joins the current episode if it starts no later than `max_gap` after
//! its end and either both are of one kind with one known initiator, or one is
//! a flash crash and the other a momentum ignition. An unknown initiator is
//! never the same as another.

use crate::book::types::SeqNum;
use crate::chaos::flag::{ChaosEvent, ChaosKind};
use vstd::prelude::*;

verus! {

/// One episode.
#[derive(Debug)]
pub struct ChaosCluster {
    pub start_seq: SeqNum,
    pub end_seq: SeqNum,
    pub events: Vec<ChaosEvent>,
    pub count: usize,
    /// Kind of the first flag.
    pub dominant_kind: ChaosKind,
    /// Initiator of the first flag.
    pub initiator: Option<u64>,
}

/// What an episode is.
#[verifier::ext_equal]
pub struct ClusterModel {
    pub start_seq: SeqNum,
    pub end_seq: SeqNum,
    pub events: Seq<ChaosEvent>,
    pub kind: ChaosKind,
    pub initiator: Option<u64>,
}

impl View for ChaosCluster {
    type V = ClusterModel;

    open spec fn view(&self) -> ClusterModel {
        ClusterModel {
            start_seq: self.start_seq,
            end_seq: self.end_seq,
            events: self.events@,
            kind: self.dominant_kind,
            initiator: self.initiator,
        }
    }
}

/// The episode of one flag.
pub open spec fn cluster_of(e: ChaosEvent) -> ClusterModel {
    ClusterModel {
        start_seq: e.start_seq,
        end_seq: e.end_seq,
        events: seq![e],
        kind: e.kind,
        initiator: e.initiator,
    }
}

/// The episode with one flag more.
pub open spec fn joined(c: ClusterModel, e: ChaosEvent) -> ClusterModel {
    ClusterModel {
        end_seq: if e.end_seq > c.end_seq {
            e.end_seq
        } else {
            c.end_seq
        },
        events: c.events.push(e),
        ..c
    }
}

/// A crash and the ignition that goes with it.
pub open spec fn related(a: ChaosKind, b: ChaosKind) -> bool {
    ||| a == ChaosKind::FlashCrash && b == ChaosKind::MomentumIgnition
    ||| a == ChaosKind::MomentumIgnition && b == ChaosKind::FlashCrash
}

/// The flag belongs to the episode.
pub open spec fn merges(c: ClusterModel, e: ChaosEvent, max_gap: u64) -> bool {
    &&& e.start_seq <= c.end_seq + max_gap
    &&& related(c.kind, e.kind) || (c.kind == e.kind && c.initiator is Some && c.initiator == e.initiator)
}

/// A flag put into its place among sorted ones, behind those that start with it.
pub open spec fn placed(s: Seq<ChaosEvent>, e: ChaosEvent) -> Seq<ChaosEvent>
    decreases s.len(),
{
    if s.len() == 0 || s.last().start_seq <= e.start_seq {
        s.push(e)
    } else {
        placed(s.drop_last(), e).push(s.last())
    }
}

/// The flags by where they start; those that start together keep their order.
pub open spec fn by_start(s: Seq<ChaosEvent>) -> Seq<ChaosEvent>
    decreases s.len(),
{
    if s.len() == 0 {
        Seq::empty()
    } else {
        placed(by_start(s.drop_last()), s.last())
    }
}

/// The episodes of sorted flags.
pub open spec fn episodes(s: Seq<ChaosEvent>, max_gap: u64) -> Seq<ClusterModel>
    decreases s.len(),
{
    if s.len() == 0 {
        Seq::empty()
    } else {
        let cs = episodes(s.drop_last(), max_gap);
        let e = s.last();
        if cs.len() > 0 && merges(cs.last(), e, max_gap) {
            cs.drop_last().push(joined(cs.last(), e))
        } else {
            cs.push(cluster_of(e))
        }
    }
}

/// Flags within reach of the sequence numbers.
pub open spec fn gaps_fit(s: Seq<ChaosEvent>, max_gap: u64) -> bool {
    forall|i: int| 0 <= i < s.len() ==> (#[trigger] s[i]).end_seq + max_gap <= u64::MAX
}

proof fn lemma_placed_len(s: Seq<ChaosEvent>, e: ChaosEvent)
    ensures
        placed(s, e).len() == s.len() + 1,
    decreases s.len(),
{
    if s.len() > 0 && s.last().start_seq > e.start_seq {
        lemma_placed_len(s.drop_last(), e);
    }
}

/// Sorting neither loses nor invents a flag.
pub proof fn by_start_keeps_flags(s: Seq<ChaosEvent>)
    ensures
        by_start(s).to_multiset() == s.to_multiset(),
        by_start(s).len() == s.len(),
    decreases s.len(),
{
    broadcast use vstd::seq_lib::group_to_multiset_ensures;

    if s.len() > 0 {
        by_start_keeps_flags(s.drop_last());
        lemma_placed_multiset(by_start(s.drop_last()), s.last());
        lemma_placed_len(by_start(s.drop_last()), s.last());
        assert(s =~= s.drop_last().push(s.last()));
    } else {
        assert(by_start(s) =~= s);
    }
}

proof fn lemma_placed_multiset(s: Seq<ChaosEvent>, e: ChaosEvent)
    ensures
        placed(s, e).to_multiset() == s.to_multiset().insert(e),
    decreases s.len(),
{
    broadcast use vstd::seq_lib::group_to_multiset_ensures;

    if s.len() > 0 && s.last().start_seq > e.start_seq {
        lemma_placed_multiset(s.drop_last(), e);
        assert(s =~= s.drop_last().push(s.last()));
        assert(s.to_multiset() =~= s.drop_last().to_multiset().insert(s.last()));
        assert(placed(s, e).to_multiset() =~= s.to_multiset().insert(e));
    } else {
        assert(s.push(e).to_multiset() =~= s.to_multiset().insert(e));
    }
}

/// Starts never fall.
pub open spec fn starts_sorted(s: Seq<ChaosEvent>) -> bool {
    forall|i: int, j: int| 0 <= i < j < s.len() ==> (#[trigger] s[i]).start_seq <= (#[trigger] s[j]).start_seq
}

proof fn lemma_placed_sorted(s: Seq<ChaosEvent>, e: ChaosEvent)
    requires
        starts_sorted(s),
    ensures
        starts_sorted(placed(s, e)),
        forall|i: int|
            0 <= i < placed(s, e).len() ==> (#[trigger] placed(s, e)[i]) == e || s.contains(placed(s, e)[i]),
    decreases s.len(),
{
    let r = placed(s, e);
    if s.len() == 0 || s.last().start_seq <= e.start_seq {
        assert forall|i: int| 0 <= i < r.len() implies (#[trigger] r[i]) == e || s.contains(r[i]) by {
            if i < s.len() {
                assert(r[i] == s[i]);
            }
        }
        assert forall|i: int, j: int| 0 <= i < j < r.len() implies (#[trigger] r[i]).start_seq <= (#[trigger] r[j]).start_seq by {
            if j == s.len() {
                if i < s.len() - 1 {
                    assert(s[i].start_seq <= s[s.len() - 1].start_seq);
                }
            }
        }
    } else {
        let d = s.drop_last();
        assert forall|i: int, j: int| 0 <= i < j < d.len() implies (#[trigger] d[i]).start_seq <= (#[trigger] d[j]).start_seq by {
            assert(d[i] == s[i] && d[j] == s[j]);
        }
        lemma_placed_sorted(d, e);
        let p = placed(d, e);
        assert forall|i: int| 0 <= i < p.len() implies (#[trigger] p[i]).start_seq <= s.last().start_seq by {
            if p[i] != e {
                let k = choose|k: int| 0 <= k < d.len() && d[k] == p[i];
                assert(s[k].start_seq <= s[s.len() - 1].start_seq);
            }
        }
        assert forall|i: int| 0 <= i < r.len() implies (#[trigger] r[i]) == e || s.contains(r[i]) by {
            if i < p.len() {
                assert(r[i] == p[i]);
                if p[i] != e {
                    let k = choose|k: int| 0 <= k < d.len() && d[k] == p[i];
                    assert(s[k] == r[i]);
                }
            } else {
                assert(s[s.len() - 1] == r[i]);
            }
        }
    }
}

/// Sorting sorts.
pub proof fn by_start_is_sorted(s: Seq<ChaosEvent>)
    ensures
        starts_sorted(by_start(s)),
    decreases s.len(),
{
    if s.len() > 0 {
        by_start_is_sorted(s.drop_last());
        lemma_placed_sorted(by_start(s.drop_last()), s.last());
    }
}

proof fn lemma_by_start_fits(s: Seq<ChaosEvent>, max_gap: u64)
    requires
        gaps_fit(s, max_gap),
    ensures
        gaps_fit(by_start(s), max_gap),
    decreases s.len(),
{
    if s.len() > 0 {
        let d = s.drop_last();
        assert forall|i: int| 0 <= i < d.len() implies (#[trigger] d[i]).end_seq + max_gap <= u64::MAX by {
            assert(d[i] == s[i]);
        }
        lemma_by_start_fits(d, max_gap);
        by_start_is_sorted(d);
        lemma_placed_sorted(by_start(d), s.last());
        let r = by_start(s);
        assert forall|i: int| 0 <= i < r.len() implies (#[trigger] r[i]).end_seq + max_gap <= u64::MAX by {
            if r[i] != s.last() {
                let k = choose|k: int| 0 <= k < by_start(d).len() && by_start(d)[k] == r[i];
                assert(by_start(d)[k].end_seq + max_gap <= u64::MAX);
            } else {
                assert(s[s.len() - 1].end_seq + max_gap <= u64::MAX);
            }
        }
    }
}

/// Groups flags into episodes.
#[derive(Debug)]
pub struct ChaosClusterer {
    max_gap: u64,
}

impl ChaosClusterer {
    /// How far apart flags of one episode may be.
    pub closed spec fn gap(&self) -> u64 {
        self.max_gap
    }

    /// A grouping by a given gap.
    pub fn new(max_gap: u64) -> (c: Self)
        ensures
            c.gap() == max_gap,
    {
        ChaosClusterer { max_gap }
    }

    /// The episodes of some flags, given in any order.
    pub fn cluster(&self, events: &[ChaosEvent]) -> (r: Vec<ChaosCluster>)
        requires
            gaps_fit(events@, self.gap()),
        ensures
            r@.len() == episodes(by_start(events@), self.gap()).len(),
            forall|i: int|
                0 <= i < r@.len() ==> (#[trigger] r@[i])@ == episodes(by_start(events@), self.gap())[i]
                    && r@[i].count == r@[i].events@.len(),
    {
        let mut clusters: Vec<ChaosCluster> = Vec::new();
        if events.len() == 0 {
            return clusters;
        }
        let sorted: Vec<ChaosEvent> = sort_by_start(events);
        let ghost s = sorted@;
        proof {
            by_start_keeps_flags(events@);
            lemma_by_start_fits(events@, self.max_gap);
        }
        let mut current: ChaosCluster = ChaosCluster::from_event(&sorted[0]);
        let mut i: usize = 1;
        assert(s.take(1).drop_last() =~= Seq::<ChaosEvent>::empty());
        assert(episodes(s.take(1), self.max_gap) =~= seq![current@]) by {
            assert(episodes(s.take(1).drop_last(), self.max_gap).len() == 0);
        }
        while i < sorted.len()
            invariant
                s == sorted@,
                gaps_fit(s, self.max_gap),
                1 <= i <= s.len(),
                clusters@.len() + 1 == episodes(s.take(i as int), self.max_gap).len(),
                forall|k: int|
                    0 <= k < clusters@.len() ==> (#[trigger] clusters@[k])@ == episodes(
                        s.take(i as int),
                        self.max_gap,
                    )[k] && clusters@[k].count == clusters@[k].events@.len(),
                current@ == episodes(s.take(i as int), self.max_gap).last(),
                current.count == current.events@.len(),
                current.events@.len() <= i,
                current.end_seq + self.max_gap <= u64::MAX,
            decreases s.len() - i,
        {
            let ghost before = episodes(s.take(i as int), self.max_gap);
            let e: ChaosEvent = sorted[i];
            assert(s[i as int].end_seq + self.max_gap <= u64::MAX);
            assert(s.take(i + 1).drop_last() =~= s.take(i as int));
            assert(s.take(i + 1).last() == e);
            if self.should_merge(&current, &e) {
                current.absorb(&e);
                assert(episodes(s.take(i + 1), self.max_gap) =~= before.drop_last().push(current@));
            } else {
                let ghost gone = current@;
                clusters.push(current);
                current = ChaosCluster::from_event(&e);
                assert(episodes(s.take(i + 1), self.max_gap) =~= before.push(current@));
            }
            i += 1;
        }
        assert(s.take(i as int) =~= s);
        clusters.push(current);
        clusters
    }

    /// Whether the flag belongs to the episode.
    fn should_merge(&self, current: &ChaosCluster, event: &ChaosEvent) -> (r: bool)
        requires
            current.end_seq + self.max_gap <= u64::MAX,
        ensures
            r == merges(current@, *event, self.max_gap),
    {
        if event.start_seq > current.end_seq + self.max_gap {
            return false;
        }
        match (current.dominant_kind, event.kind) {
            (ChaosKind::FlashCrash, ChaosKind::MomentumIgnition) => true,
            (ChaosKind::MomentumIgnition, ChaosKind::FlashCrash) => true,
            (a, b) => if a == b {
                match (current.initiator, event.initiator) {
                    (Some(x), Some(y)) => x == y,
                    _ => false,
                }
            } else {
                false
            },
        }
    }
}

impl ChaosCluster {
    fn from_event(e: &ChaosEvent) -> (c: Self)
        ensures
            c@ == cluster_of(*e),
            c.count == c.events@.len(),
            c.end_seq == e.end_seq,
    {
        let mut events: Vec<ChaosEvent> = Vec::new();
        events.push(*e);
        assert(events@ =~= seq![*e]);
        ChaosCluster {
            start_seq: e.start_seq,
            end_seq: e.end_seq,
            events,
            count: 1,
            dominant_kind: e.kind,
            initiator: e.initiator,
        }
    }

    fn absorb(&mut self, e: &ChaosEvent)
        requires
            old(self).count == old(self).events@.len(),
            old(self).events@.len() < usize::MAX,
        ensures
            final(self)@ == joined(old(self)@, *e),
            final(self).count == final(self).events@.len(),
            final(self).end_seq == (if e.end_seq > old(self).end_seq {
                e.end_seq
            } else {
                old(self).end_seq
            }),
    {
        if e.end_seq > self.end_seq {
            self.end_seq = e.end_seq;
        }
        self.count += 1;
        self.events.push(*e);
    }
}

/// The flags by where they start.
fn sort_by_start(events: &[ChaosEvent]) -> (r: Vec<ChaosEvent>)
    ensures
        r@ == by_start(events@),
        r@.len() == events@.len(),
{
    let mut out: Vec<ChaosEvent> = Vec::new();
    let mut i: usize = 0;
    assert(events@.take(0) =~= Seq::<ChaosEvent>::empty());
    while i < events.len()
        invariant
            i <= events@.len(),
            out@ == by_start(events@.take(i as int)),
            out@.len() == i,
        decreases events@.len() - i,
    {
        assert(events@.take(i + 1).drop_last() =~= events@.take(i as int));
        assert(events@.take(i + 1).last() == events@[i as int]);
        let e: ChaosEvent = events[i];
        let mut at: usize = out.len();
        let ghost s = out@;
        proof {
            assert(s.take(at as int) =~= s);
            assert(s.skip(at as int) =~= Seq::<ChaosEvent>::empty());
            assert(placed(s, e) =~= placed(s.take(at as int), e) + s.skip(at as int));
        }
        while at > 0 && out[at - 1].start_seq > e.start_seq
            invariant
                s == out@,
                at <= s.len(),
                placed(s, e) == placed(s.take(at as int), e) + s.skip(at as int),
            decreases at,
        {
            let ghost t = s.take(at as int);
            proof {
                assert(t.last() == s[at - 1]);
                assert(t.drop_last() =~= s.take(at - 1));
                assert(placed(t, e) == placed(t.drop_last(), e).push(t.last()));
                assert(placed(t.drop_last(), e).push(t.last()) + s.skip(at as int) =~= placed(
                    s.take(at - 1),
                    e,
                ) + s.skip(at - 1));
            }
            at -= 1;
        }
        proof {
            let t = s.take(at as int);
            if at > 0 {
                assert(t.last() == s[at - 1]);
            }
            assert(placed(t, e) == t.push(e));
            assert(s.insert(at as int, e) =~= t.push(e) + s.skip(at as int));
            lemma_placed_len(s, e);
        }
        out.insert(at, e);
        i += 1;
    }
    assert(events@.take(i as int) =~= events@);
    out
}

// ─── Laws ───────────────────────────────────────────────────────────

/// The flags of some episodes, one after the other.
pub open spec fn flags_of(cs: Seq<ClusterModel>) -> Seq<ChaosEvent>
    decreases cs.len(),
{
    if cs.len() == 0 {
        Seq::empty()
    } else {
        flags_of(cs.drop_last()) + cs.last().events
    }
}

/// Every flag is in exactly one episode: laid end to end, the episodes are the
/// sorted flags.
pub proof fn episodes_partition_the_flags(s: Seq<ChaosEvent>, max_gap: u64)
    ensures
        flags_of(episodes(s, max_gap)) == s,
        forall|i: int|
            0 <= i < episodes(s, max_gap).len() ==> (#[trigger] episodes(s, max_gap)[i]).events.len() > 0,
    decreases s.len(),
{
    if s.len() > 0 {
        let d = s.drop_last();
        let e = s.last();
        episodes_partition_the_flags(d, max_gap);
        let cs = episodes(d, max_gap);
        let ns = episodes(s, max_gap);
        if cs.len() > 0 && merges(cs.last(), e, max_gap) {
            assert(ns.drop_last() =~= cs.drop_last());
            assert(flags_of(ns) =~= flags_of(cs).push(e));
            assert forall|i: int| 0 <= i < ns.len() implies (#[trigger] ns[i]).events.len() > 0 by {
                if i < ns.len() - 1 {
                    assert(ns[i] == cs[i]);
                }
            }
        } else {
            assert(ns.drop_last() =~= cs);
            assert(flags_of(ns) =~= flags_of(cs).push(e));
            assert forall|i: int| 0 <= i < ns.len() implies (#[trigger] ns[i]).events.len() > 0 by {
                if i < ns.len() - 1 {
                    assert(ns[i] == cs[i]);
                }
            }
        }
        assert(s =~= d.push(e));
    }
}

/// Two flags of one kind that share an episode have one known initiator, and
/// two of different kinds are a crash and an ignition.
pub proof fn episodes_do_not_mix(s: Seq<ChaosEvent>, max_gap: u64, c: int, k: int)
    requires
        0 <= c < episodes(s, max_gap).len(),
        0 <= k < episodes(s, max_gap)[c].events.len(),
    ensures
        ({
            let x = episodes(s, max_gap)[c];
            let f = x.events[k];
            &&& x.events[0].kind == x.kind
            &&& x.events[0].initiator == x.initiator
            &&& k == 0 || related(x.kind, f.kind) || (f.kind == x.kind && x.initiator is Some && f.initiator
                == x.initiator)
        }),
    decreases s.len(),
{
    let d = s.drop_last();
    let e = s.last();
    let cs = episodes(d, max_gap);
    let ns = episodes(s, max_gap);
    if c < ns.len() - 1 {
        assert(ns[c] == cs[c]);
        episodes_do_not_mix(d, max_gap, c, k);
    } else if cs.len() > 0 && merges(cs.last(), e, max_gap) {
        let old_c = cs.last();
        assert(ns[c] == joined(old_c, e));
        episodes_partition_the_flags(d, max_gap);
        assert(cs[c].events.len() > 0);
        episodes_do_not_mix(d, max_gap, c, 0);
        if k < old_c.events.len() {
            episodes_do_not_mix(d, max_gap, c, k);
            assert(ns[c].events[k] == old_c.events[k]);
        } else {
            assert(ns[c].events[k] == e);
        }
        assert(ns[c].events[0] == old_c.events[0]);
    } else {
        assert(ns[c] == cluster_of(e));
    }
}

proof fn lemma_episode_shape(s: Seq<ChaosEvent>, max_gap: u64, c: int)
    requires
        0 <= c < episodes(s, max_gap).len(),
    ensures
        ({
            let x = episodes(s, max_gap)[c];
            &&& x.events.len() > 0
            &&& x.start_seq == x.events[0].start_seq
            &&& x.kind == x.events[0].kind
            &&& x.initiator == x.events[0].initiator
            &&& forall|k: int| 0 <= k < x.events.len() ==> (#[trigger] x.events[k]).end_seq <= x.end_seq
            &&& exists|k: int| 0 <= k < x.events.len() && (#[trigger] x.events[k]).end_seq == x.end_seq
        }),
    decreases s.len(),
{
    let d = s.drop_last();
    let e = s.last();
    let cs = episodes(d, max_gap);
    let ns = episodes(s, max_gap);
    if c < ns.len() - 1 {
        assert(ns[c] == cs[c]);
        lemma_episode_shape(d, max_gap, c);
    } else if cs.len() > 0 && merges(cs.last(), e, max_gap) {
        let o = cs[c];
        lemma_episode_shape(d, max_gap, c);
        let x = ns[c];
        assert(x == joined(o, e));
        assert forall|k: int| 0 <= k < x.events.len() implies (#[trigger] x.events[k]).end_seq <= x.end_seq by {
            if k < o.events.len() {
                assert(x.events[k] == o.events[k]);
            }
        }
        if e.end_seq > o.end_seq {
            assert(x.events[o.events.len() as int].end_seq == x.end_seq);
        } else {
            let k = choose|k: int| 0 <= k < o.events.len() && (#[trigger] o.events[k]).end_seq == o.end_seq;
            assert(x.events[k].end_seq == x.end_seq);
        }
        assert(x.events[0] == o.events[0]);
    } else {
        assert(ns[c] == cluster_of(e));
        assert(ns[c].events[0].end_seq == ns[c].end_seq);
    }
}

/// An episode begins where its first flag does, with the kind and initiator of that
/// flag, and ends where the last of its flags to end does.
pub proof fn episodes_span_their_flags(s: Seq<ChaosEvent>, max_gap: u64, c: int)
    requires
        starts_sorted(s),
        0 <= c < episodes(s, max_gap).len(),
    ensures
        ({
            let x = episodes(s, max_gap)[c];
            &&& x.events.len() > 0
            &&& x.start_seq == x.events[0].start_seq
            &&& x.kind == x.events[0].kind
            &&& x.initiator == x.events[0].initiator
            &&& forall|k: int|
                0 <= k < x.events.len() ==> x.start_seq <= (#[trigger] x.events[k]).start_seq && x.events[k].end_seq
                    <= x.end_seq
            &&& exists|k: int| 0 <= k < x.events.len() && (#[trigger] x.events[k]).end_seq == x.end_seq
        }),
{
    lemma_episode_shape(s, max_gap, c);
    let x = episodes(s, max_gap)[c];
    assert forall|k: int| 0 <= k < x.events.len() implies x.start_seq <= (#[trigger] x.events[k]).start_seq by {
        let i = lemma_flag_place(s, max_gap, c, 0);
        let j = lemma_flag_place(s, max_gap, c, k);
        if k > 0 {
            assert(s[i].start_seq <= s[j].start_seq);
        }
    }
}

/// Where a flag of an episode stands among the sorted ones: later flags stand later.
proof fn lemma_flag_place(s: Seq<ChaosEvent>, max_gap: u64, c: int, k: int) -> (i: int)
    requires
        0 <= c < episodes(s, max_gap).len(),
        0 <= k < episodes(s, max_gap)[c].events.len(),
    ensures
        0 <= i < s.len(),
        s[i] == episodes(s, max_gap)[c].events[k],
        i == flags_of(episodes(s, max_gap).take(c)).len() + k,
    decreases s.len(),
{
    let cs = episodes(s, max_gap);
    episodes_partition_the_flags(s, max_gap);
    lemma_flags_split(cs, c);
    lemma_flags_split(cs, c + 1);
    assert(cs.take(c + 1).drop_last() =~= cs.take(c));
    let before = flags_of(cs.take(c));
    assert(flags_of(cs.take(c + 1)) == before + cs[c].events);
    let i = before.len() + k;
    assert(s[i] == (before + cs[c].events)[i]);
    i
}

proof fn lemma_flags_split(cs: Seq<ClusterModel>, c: int)
    requires
        0 <= c <= cs.len(),
    ensures
        flags_of(cs) == flags_of(cs.take(c)) + flags_of(cs.skip(c)),
    decreases cs.len(),
{
    if c == cs.len() {
        assert(cs.take(c) =~= cs);
        assert(cs.skip(c) =~= Seq::<ClusterModel>::empty());
        assert(flags_of(cs) =~= flags_of(cs.take(c)) + flags_of(cs.skip(c)));
    } else {
        lemma_flags_split(cs.drop_last(), c);
        assert(cs.drop_last().take(c) =~= cs.take(c));
        assert(cs.skip(c).drop_last() =~= cs.drop_last().skip(c));
        assert(flags_of(cs) =~= flags_of(cs.take(c)) + flags_of(cs.skip(c)));
    }
}

/// What the kinds and initiators of two flags have to be for one to join the episode
/// that the other began: a crash and an ignition, or one kind with one known initiator.
pub open spec fn may_share(a: ChaosEvent, b: ChaosEvent) -> bool {
    ||| a.kind == ChaosKind::FlashCrash && b.kind == ChaosKind::MomentumIgnition
    ||| a.kind == ChaosKind::MomentumIgnition && b.kind == ChaosKind::FlashCrash
    ||| a.kind == b.kind && a.initiator is Some && a.initiator == b.initiator
}

/// Episodes hang together: each flag after the first starts no later than the gap
/// after some flag before it ends, and may share an episode with the first.
pub proof fn episodes_hang_together(s: Seq<ChaosEvent>, max_gap: u64, c: int, k: int)
    requires
        0 <= c < episodes(s, max_gap).len(),
        1 <= k < episodes(s, max_gap)[c].events.len(),
    ensures
        ({
            let f = episodes(s, max_gap)[c].events;
            &&& may_share(f[0], f[k])
            &&& exists|j: int| 0 <= j < k && f[k].start_seq <= (#[trigger] f[j]).end_seq + max_gap
        }),
    decreases s.len(),
{
    let d = s.drop_last();
    let e = s.last();
    let cs = episodes(d, max_gap);
    let ns = episodes(s, max_gap);
    let f = ns[c].events;
    if c < ns.len() - 1 {
        assert(ns[c] == cs[c]);
        episodes_hang_together(d, max_gap, c, k);
    } else if cs.len() > 0 && merges(cs.last(), e, max_gap) {
        let o = cs[c];
        assert(ns[c] == joined(o, e));
        lemma_episode_shape(d, max_gap, c);
        assert(f[0] == o.events[0]);
        if k < o.events.len() {
            episodes_hang_together(d, max_gap, c, k);
            let j = choose|j: int| 0 <= j < k && o.events[k].start_seq <= (#[trigger] o.events[j]).end_seq + max_gap;
            assert(f[j] == o.events[j] && f[k] == o.events[k]);
        } else {
            assert(f[k] == e);
            let j = choose|j: int| 0 <= j < o.events.len() && (#[trigger] o.events[j]).end_seq == o.end_seq;
            assert(f[j] == o.events[j]);
        }
    } else {
        assert(ns[c] == cluster_of(e));
    }
}

/// Episodes are as long as they can be: the first flag of the next one starts more than
/// the gap after every flag of this one ended, or may not share an episode with it.
pub proof fn episodes_are_maximal(s: Seq<ChaosEvent>, max_gap: u64, c: int)
    requires
        0 <= c,
        c + 1 < episodes(s, max_gap).len(),
    ensures
        ({
            let a = episodes(s, max_gap)[c].events;
            let f = episodes(s, max_gap)[c + 1].events[0];
            ||| !may_share(a[0], f)
            ||| forall|k: int| 0 <= k < a.len() ==> f.start_seq > (#[trigger] a[k]).end_seq + max_gap
        }),
    decreases s.len(),
{
    let d = s.drop_last();
    let e = s.last();
    let cs = episodes(d, max_gap);
    let ns = episodes(s, max_gap);
    if c + 1 < ns.len() - 1 {
        assert(ns[c] == cs[c] && ns[c + 1] == cs[c + 1]);
        episodes_are_maximal(d, max_gap, c);
    } else if cs.len() > 0 && merges(cs.last(), e, max_gap) {
        assert(ns[c] == cs[c]);
        lemma_episode_shape(d, max_gap, c + 1);
        assert(ns[c + 1].events[0] == cs[c + 1].events[0]);
        episodes_are_maximal(d, max_gap, c);
    } else {
        assert(ns[c] == cs[c]);
        assert(ns[c + 1] == cluster_of(e));
        lemma_episode_shape(d, max_gap, c);
    }
}

/// Sorting only moves flags that start later behind those that start earlier: flags
/// that start together keep their order.
pub proof fn sorting_is_stable(s: Seq<ChaosEvent>, at: SeqNum)
    ensures
        starting_at(by_start(s), at) == starting_at(s, at),
    decreases s.len(),
{
    if s.len() > 0 {
        let d = s.drop_last();
        sorting_is_stable(d, at);
        by_start_is_sorted(d);
        lemma_placed_stable(by_start(d), s.last(), at);
    }
}

/// The flags that start at a sequence number, in their order.
pub open spec fn starting_at(s: Seq<ChaosEvent>, at: SeqNum) -> Seq<ChaosEvent>
    decreases s.len(),
{
    if s.len() == 0 {
        Seq::empty()
    } else {
        let before = starting_at(s.drop_last(), at);
        if s.last().start_seq == at {
            before.push(s.last())
        } else {
            before
        }
    }
}

proof fn lemma_placed_stable(s: Seq<ChaosEvent>, e: ChaosEvent, at: SeqNum)
    requires
        starts_sorted(s),
    ensures
        starting_at(placed(s, e), at) == (if e.start_seq == at {
            starting_at(s, at).push(e)
        } else {
            starting_at(s, at)
        }),
    decreases s.len(),
{
    let r = placed(s, e);
    if s.len() == 0 || s.last().start_seq <= e.start_seq {
        assert(r.drop_last() =~= s);
    } else {
        let d = s.drop_last();
        assert forall|i: int, j: int| 0 <= i < j < d.len() implies (#[trigger] d[i]).start_seq <= (#[trigger] d[j]).start_seq by {
            assert(d[i] == s[i] && d[j] == s[j]);
        }
        lemma_placed_stable(d, e, at);
        assert(r.drop_last() =~= placed(d, e));
    }
}

} // verus!
