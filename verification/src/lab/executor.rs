//! Runs a strategy against replayed events, with a chain of detectors beside it
//! that sees the same stream.
//!
//! Of each event first the book learns, then the chain, then the strategy; the
//! profit is looked at last.

use crate::book::event::SequencedEvent;
use crate::book::model::BookModel;
use crate::book::orderbook::OrderBook;
#[allow(unused_imports)]
use crate::book::orderbook;
use crate::chaos::cancellation_storm::{RateSample, StormVerdict};
use crate::chaos::chain::{ChainLimits, ChainModel, ChaosChain};
#[allow(unused_imports)]
use crate::chaos::chain;
use crate::chaos::flag::{ChaosEvent, ChaosKind};
use crate::lab::report::StressReport;
use crate::lab::strategy::{Fill, StormJudge, Strategy, StrategyOrder};
use vstd::prelude::*;

verus! {

/// How orders are executed.
#[derive(Debug, Clone, Copy, PartialEq, Eq, Structural)]
pub struct ExecutorConfig {
    /// Simulated delay. Zero is at once.
    pub latency_ns: u64,
    pub partial_fills: bool,
    pub queue_position: bool,
}

impl Default for ExecutorConfig {
    fn default() -> (c: Self)
        ensures
            c == (ExecutorConfig { latency_ns: 0, partial_fills: true, queue_position: false }),
    {
        ExecutorConfig { latency_ns: 0, partial_fills: true, queue_position: false }
    }
}

/// The highest profit so far, and the deepest fall below it.
#[derive(Debug, Clone, Copy, PartialEq, Eq, Structural)]
pub struct Drawdown {
    pub peak: i64,
    pub worst: u64,
}

/// The fall below the peak after one more profit.
pub open spec fn noted(t: Drawdown, pnl: i64) -> Drawdown {
    let peak = if pnl > t.peak {
        pnl
    } else {
        t.peak
    };
    Drawdown {
        peak,
        worst: if peak - pnl > t.worst {
            (peak - pnl) as u64
        } else {
            t.worst
        },
    }
}

/// The fall below the peak after several profits.
pub open spec fn noted_all(t: Drawdown, pnls: Seq<i64>) -> Drawdown
    decreases pnls.len(),
{
    if pnls.len() == 0 {
        t
    } else {
        noted(noted_all(t, pnls.drop_last()), pnls.last())
    }
}

/// The book after some events.
pub open spec fn book_after(b: BookModel, es: Seq<SequencedEvent>) -> BookModel
    decreases es.len(),
{
    if es.len() == 0 {
        b
    } else {
        orderbook::ref_apply(book_after(b, es.drop_last()), es.last().event).0
    }
}

/// The detectors after some events, with the verdicts on their rates.
pub open spec fn chain_after(
    c: ChainModel,
    l: ChainLimits,
    es: Seq<SequencedEvent>,
    vs: Seq<StormVerdict>,
) -> ChainModel
    decreases es.len(),
{
    if es.len() == 0 {
        c
    } else {
        chain::chain_step(
            chain_after(c, l, es.drop_last(), vs),
            l,
            es.last(),
            vs[es.len() - 1],
        ).next
    }
}

/// The flags of some events, with the verdicts on their rates.
pub open spec fn flags_after(
    c: ChainModel,
    l: ChainLimits,
    es: Seq<SequencedEvent>,
    vs: Seq<StormVerdict>,
) -> Seq<ChaosEvent>
    decreases es.len(),
{
    if es.len() == 0 {
        Seq::empty()
    } else {
        flags_after(c, l, es.drop_last(), vs) + chain::chain_step(
            chain_after(c, l, es.drop_last(), vs),
            l,
            es.last(),
            vs[es.len() - 1],
        ).flags
    }
}

/// The book has room for every event when it comes.
pub open spec fn book_ready(b: BookModel, es: Seq<SequencedEvent>) -> bool {
    forall|i: int|
        0 <= i < es.len() ==> orderbook::ref_fits(#[trigger] book_after(b, es.take(i)), es[i].event)
}

/// The detectors can take every event when it comes, whatever the verdicts.
pub open spec fn detectors_ready(c: ChainModel, l: ChainLimits, es: Seq<SequencedEvent>) -> bool {
    forall|vs: Seq<StormVerdict>, i: int|
        0 <= i < es.len() ==> chain::chain_ready(#[trigger] chain_after(c, l, es.take(i), vs), es[i])
}

/// How often each kind was flagged, in the order of reports.
pub open spec fn counts_of(c: ChainModel) -> Seq<(ChaosKind, u64)> {
    seq![
        (ChaosKind::PhantomLiquidity, c.counts[chain::rank(ChaosKind::PhantomLiquidity)]),
        (ChaosKind::CancellationStorm, c.counts[chain::rank(ChaosKind::CancellationStorm)]),
        (ChaosKind::MomentumIgnition, c.counts[chain::rank(ChaosKind::MomentumIgnition)]),
        (ChaosKind::FlashCrash, c.counts[chain::rank(ChaosKind::FlashCrash)]),
        (ChaosKind::LatencyArbitrage, c.counts[chain::rank(ChaosKind::LatencyArbitrage)]),
    ]
}

/// What came from outside during a run: the verdicts on the rates of cancels,
/// and the profits.
pub struct Outside {
    pub verdicts: Seq<StormVerdict>,
    pub pnls: Seq<i64>,
}

/// A run from one state to another, as told by a report.
pub open spec fn ran(
    before: StrategyExecutor,
    after: StrategyExecutor,
    es: Seq<SequencedEvent>,
    r: StressReport,
    o: Outside,
) -> bool {
    &&& o.verdicts.len() == es.len()
    &&& o.pnls.len() == es.len()
    &&& after.drawdown() == noted_all(before.drawdown(), o.pnls)
    &&& after.chain() is Some <==> before.chain() is Some
    &&& match before.chain() {
        Some(c) => {
            let last = chain_after(c@, c.config(), es, o.verdicts);
            &&& after.chain()->0@ == last
            &&& after.chain()->0.config() == c.config()
            &&& r.chaos_events@ == flags_after(c@, c.config(), es, o.verdicts)
            &&& r.chaos_counts@ == counts_of(last)
        },
        None => r.chaos_events@.len() == 0 && r.chaos_counts@.len() == 0,
    }
}

/// A place in a row of so many.
pub open spec fn within(i: int, n: nat) -> bool {
    0 <= i < n
}

/// The row of states that something outside goes through: one before each of so
/// many steps, and one at the end.
pub open spec fn row_of<T>(states: Seq<T>, first: T, last: T, steps: nat) -> bool {
    &&& states.len() == steps + 1
    &&& states[0] == first
    &&& states[steps as int] == last
}

/// The rate of cancels that an executor shows to the judge at an event.
pub open spec fn rate_at(x: StrategyExecutor, e: SequencedEvent) -> Option<RateSample> {
    match x.chain() {
        Some(c) => crate::chaos::cancellation_storm::rate_after(c@.storm.window, c.config().storm, e),
        None => None,
    }
}

/// The rate that the judge is to learn from an event with a verdict on it.
pub open spec fn lesson_at(x: StrategyExecutor, e: SequencedEvent, v: StormVerdict) -> Option<RateSample> {
    match x.chain() {
        Some(c) => chain::chain_step(c@, c.config(), e, v).learn,
        None => None,
    }
}

/// The book that the strategy sees with an event.
#[verifier::opaque]
pub open spec fn book_at(b: BookModel, es: Seq<SequencedEvent>, i: int) -> BookModel {
    book_after(b, es.take(i + 1))
}

/// The rate of cancels that is shown to the judge at an event, given the verdicts
/// before.
#[verifier::opaque]
pub open spec fn shown(
    x: StrategyExecutor,
    es: Seq<SequencedEvent>,
    vs: Seq<StormVerdict>,
    i: int,
) -> Option<RateSample> {
    match x.chain() {
        Some(c) => crate::chaos::cancellation_storm::rate_after(
            chain_after(c@, c.config(), es.take(i), vs).storm.window,
            c.config().storm,
            es[i],
        ),
        None => None,
    }
}

/// The rate that the judge is to learn at an event, given the verdicts up to it.
#[verifier::opaque]
pub open spec fn taught(
    x: StrategyExecutor,
    es: Seq<SequencedEvent>,
    vs: Seq<StormVerdict>,
    i: int,
) -> Option<RateSample> {
    match x.chain() {
        Some(c) => chain::chain_step(
            chain_after(c@, c.config(), es.take(i), vs),
            c.config(),
            es[i],
            vs[i],
        ).learn,
        None => None,
    }
}

/// Runs strategies.
#[derive(Debug)]
pub struct StrategyExecutor {
    config: ExecutorConfig,
    fills: Vec<Fill>,
    track: Drawdown,
    chaos_chain: Option<ChaosChain>,
}

impl StrategyExecutor {
    /// The settings.
    pub closed spec fn settings(&self) -> ExecutorConfig {
        self.config
    }

    /// The fills so far.
    pub closed spec fn filled(&self) -> Seq<Fill> {
        self.fills@
    }

    /// How far the profit fell below its peak.
    pub closed spec fn drawdown(&self) -> Drawdown {
        self.track
    }

    /// The detectors.
    pub closed spec fn chain(&self) -> Option<ChaosChain> {
        self.chaos_chain
    }

    /// The detectors are sound.
    pub open spec fn wf(&self) -> bool {
        self.chain() matches Some(c) ==> c.wf()
    }

    /// An executor that has not run.
    pub fn new(config: ExecutorConfig) -> (x: Self)
        ensures
            x.wf(),
            x.settings() == config,
            x.filled() == Seq::<Fill>::empty(),
            x.drawdown() == (Drawdown { peak: 0, worst: 0 }),
            x.chain() is None,
    {
        StrategyExecutor {
            config,
            fills: Vec::new(),
            track: Drawdown { peak: 0, worst: 0 },
            chaos_chain: None,
        }
    }

    /// The same with detectors beside it.
    pub fn with_chaos_chain(self, chain: ChaosChain) -> (x: Self)
        requires
            chain.wf(),
        ensures
            x.wf(),
            x.settings() == self.settings(),
            x.filled() == self.filled(),
            x.drawdown() == self.drawdown(),
            x.chain() == Some(chain),
    {
        let mut x = self;
        x.chaos_chain = Some(chain);
        x
    }

    /// The rate of cancels that an event leads to, to be judged from outside.
    pub fn preview(&self, event: &SequencedEvent) -> (r: Option<RateSample>)
        requires
            self.wf(),
            self.chain() matches Some(c) ==> chain::chain_ready(c@, *event),
        ensures
            r == (match self.chain() {
                Some(c) => crate::chaos::cancellation_storm::rate_after(
                    c@.storm.window,
                    c.config().storm,
                    *event,
                ),
                None => None,
            }),
    {
        match &self.chaos_chain {
            Some(c) => c.storm_preview(event),
            None => None,
        }
    }

    /// Shows an event to the detectors, and appends their flags.
    pub fn observe(&mut self, event: &SequencedEvent, verdict: StormVerdict, flags: &mut Vec<ChaosEvent>) -> (learn:
        Option<RateSample>)
        requires
            old(self).wf(),
            old(self).chain() matches Some(c) ==> chain::chain_ready(c@, *event),
        ensures
            final(self).wf(),
            final(self).settings() == old(self).settings(),
            final(self).filled() == old(self).filled(),
            final(self).drawdown() == old(self).drawdown(),
            final(self).chain() is Some <==> old(self).chain() is Some,
            match old(self).chain() {
                Some(c) => {
                    let o = chain::chain_step(c@, c.config(), *event, verdict);
                    &&& final(self).chain()->0@ == o.next
                    &&& final(self).chain()->0.config() == c.config()
                    &&& final(flags)@ == old(flags)@ + o.flags
                    &&& learn == o.learn
                },
                None => final(flags)@ == old(flags)@ && learn is None,
            },
    {
        match self.chaos_chain.take() {
            Some(c) => {
                let mut chain = c;
                let learn = chain.process_into(event, verdict, flags);
                self.chaos_chain = Some(chain);
                learn
            },
            None => None,
        }
    }

    /// Looks at the profit.
    pub fn note_pnl(&mut self, pnl: i64)
        ensures
            final(self).settings() == old(self).settings(),
            final(self).filled() == old(self).filled(),
            final(self).chain() == old(self).chain(),
            final(self).drawdown() == noted(old(self).drawdown(), pnl),
    {
        if pnl > self.track.peak {
            self.track.peak = pnl;
        }
        let fall: u64 = (self.track.peak as i128 - pnl as i128) as u64;
        if fall > self.track.worst {
            self.track.worst = fall;
        }
    }

    /// How often each kind was flagged, also where it never was. Nothing without
    /// detectors.
    pub fn chaos_counts(&self) -> (r: Vec<(ChaosKind, u64)>)
        requires
            self.wf(),
        ensures
            match self.chain() {
                Some(c) => r@ == counts_of(c@),
                None => r@.len() == 0,
            },
    {
        let mut r: Vec<(ChaosKind, u64)> = Vec::new();
        if let Some(c) = &self.chaos_chain {
            r.push((ChaosKind::PhantomLiquidity, c.count(ChaosKind::PhantomLiquidity)));
            r.push((ChaosKind::CancellationStorm, c.count(ChaosKind::CancellationStorm)));
            r.push((ChaosKind::MomentumIgnition, c.count(ChaosKind::MomentumIgnition)));
            r.push((ChaosKind::FlashCrash, c.count(ChaosKind::FlashCrash)));
            r.push((ChaosKind::LatencyArbitrage, c.count(ChaosKind::LatencyArbitrage)));
            assert(r@ =~= counts_of(c@));
        }
        r
    }

    /// Shows one event to the book, the detectors and the strategy.
    fn run_one<S: Strategy, J: StormJudge>(
        &mut self,
        strategy: &mut S,
        judge: &mut J,
        event: &SequencedEvent,
        book: &mut OrderBook,
        flags: &mut Vec<ChaosEvent>,
    ) -> (r: (StormVerdict, i64, Ghost<J>))
        requires
            old(self).wf(),
            old(book).wf(),
            orderbook::ref_fits(old(book)@, event.event),
            old(self).chain() matches Some(c) ==> chain::chain_ready(c@, *event),
        ensures
            final(self).wf(),
            final(self).settings() == old(self).settings(),
            final(self).filled() == old(self).filled(),
            final(self).drawdown() == noted(old(self).drawdown(), r.1),
            final(book).wf(),
            final(book).instrument() == old(book).instrument(),
            final(book)@ == orderbook::ref_apply(old(book)@, event.event).0,
            final(self).chain() is Some <==> old(self).chain() is Some,
            match old(self).chain() {
                Some(c) => {
                    let o = chain::chain_step(c@, c.config(), *event, r.0);
                    &&& final(self).chain()->0@ == o.next
                    &&& final(self).chain()->0.config() == c.config()
                    &&& final(flags)@ == old(flags)@ + o.flags
                },
                None => final(flags)@ == old(flags)@,
            },
            call_ensures(S::pnl, (&*final(strategy),), r.1),
            exists|m: &mut S, b: OrderBook, orders: Vec<StrategyOrder>|
                {
                    &&& *m == *old(strategy)
                    &&& *final(m) == *final(strategy)
                    &&& b == *final(book)
                    &&& #[trigger] call_ensures(S::on_event, (m, event, &b), orders)
                },
            exists|m: &mut J|
                {
                    &&& *m == *old(judge)
                    &&& *final(m) == r.2@
                    &&& #[trigger] call_ensures(J::judge, (m, rate_at(*old(self), *event)), r.0)
                },
            lesson_at(*old(self), *event, r.0) is None ==> *final(judge) == r.2@,
            lesson_at(*old(self), *event, r.0) is Some ==> exists|m: &mut J|
                {
                    &&& *m == r.2@
                    &&& *final(m) == *final(judge)
                    &&& #[trigger] call_ensures(J::learn, (m, lesson_at(*old(self), *event, r.0)->0), ())
                },
    {
        let _changed: bool = book.apply(&event.event);
        let rate = self.preview(event);
        let verdict = judge.judge(rate);
        let ghost settled = *judge;
        let learn = self.observe(event, verdict, flags);
        if let Some(r) = learn {
            judge.learn(r);
        }
        let _orders = strategy.on_event(event, book);
        let pnl: i64 = strategy.pnl();
        self.note_pnl(pnl);
        (verdict, pnl, Ghost(settled))
    }

    /// Runs a strategy against events. What the judge and the strategy do is not
    /// known; whatever it is, each sees every event in turn, in the state that the
    /// one before left it in, and the report follows from what they answer. No
    /// orders are matched yet, so there are no fills.
    #[verifier::spinoff_prover]
    #[verifier::rlimit(30)]
    pub fn run<S: Strategy, J: StormJudge>(
        &mut self,
        strategy: &mut S,
        judge: &mut J,
        events: &[SequencedEvent],
        book: &mut OrderBook,
    ) -> (r: StressReport)
        requires
            old(self).wf(),
            old(book).wf(),
            book_ready(old(book)@, events@),
            old(self).chain() matches Some(c) ==> detectors_ready(c@, c.config(), events@),
        ensures
            final(self).wf(),
            final(self).settings() == old(self).settings(),
            final(self).filled() == old(self).filled(),
            final(book).wf(),
            final(book).instrument() == old(book).instrument(),
            final(book)@ == book_after(old(book)@, events@),
            r.events_processed == events@.len(),
            r.fills == old(self).filled().len(),
            r.max_drawdown == final(self).drawdown().worst,
            call_ensures(S::name, (&*final(strategy),), r.strategy_name),
            call_ensures(S::pnl, (&*final(strategy),), r.final_pnl),
            call_ensures(S::inventory, (&*final(strategy),), r.final_inventory),
            exists|
                o: Outside,
                states: Seq<S>,
                judges: Seq<J>,
                judged: Seq<J>,
                rates: Seq<Option<RateSample>>,
                lessons: Seq<RateSample>,
            |
                {
                    &&& #[trigger] ran(*old(self), *final(self), events@, r, o)
                    &&& #[trigger] row_of(states, *old(strategy), *final(strategy), events@.len())
                    &&& #[trigger] row_of(judges, *old(judge), *final(judge), events@.len())
                    &&& #[trigger] judged.len() == events@.len()
                    &&& #[trigger] rates.len() == events@.len()
                    &&& #[trigger] lessons.len() == events@.len()
                    &&& forall|i: int| #![trigger within(i, events@.len())]
                        within(i, events@.len()) ==> {
                            &&& call_ensures(S::pnl, (&states[i + 1],), o.pnls[i])
                            &&& exists|m: &mut S, b: OrderBook, orders: Vec<StrategyOrder>|
                                {
                                    &&& *m == states[i]
                                    &&& *final(m) == states[i + 1]
                                    &&& b.wf()
                                    &&& b.instrument() == old(book).instrument()
                                    &&& b@ == book_at(old(book)@, events@, i)
                                    &&& #[trigger] call_ensures(S::on_event, (m, &events@[i], &b), orders)
                                }
                        }
                    &&& forall|i: int| #![trigger within(i, events@.len())]
                        within(i, events@.len()) ==> rates[i] == shown(*old(self), events@, o.verdicts, i)
                    &&& forall|i: int| #![trigger within(i, events@.len())]
                        within(i, events@.len()) ==> exists|m: &mut J|
                                {
                                    &&& *m == judges[i]
                                    &&& *final(m) == judged[i]
                                    &&& #[trigger] call_ensures(J::judge, (m, rates[i]), o.verdicts[i])
                                }
                    &&& forall|i: int| #![trigger within(i, events@.len())]
                        within(i, events@.len()) ==> match taught(*old(self), events@, o.verdicts, i) {
                            Some(rate) => rate == lessons[i],
                            None => judges[i + 1] == judged[i],
                        }
                    &&& forall|i: int| #![trigger within(i, events@.len())]
                        within(i, events@.len()) && taught(*old(self), events@, o.verdicts, i) is Some
                            ==> exists|m: &mut J|
                                {
                                    &&& *m == judged[i]
                                    &&& *final(m) == judges[i + 1]
                                    &&& #[trigger] call_ensures(J::learn, (m, lessons[i]), ())
                                }
                },
    {
        let mut chaos_events: Vec<ChaosEvent> = Vec::new();
        let ghost mut verdicts: Seq<StormVerdict> = Seq::empty();
        let ghost mut pnls: Seq<i64> = Seq::empty();
        let ghost mut states: Seq<S> = seq![*strategy];
        let ghost mut judges: Seq<J> = seq![*judge];
        let ghost mut judged: Seq<J> = Seq::empty();
        let ghost mut rates: Seq<Option<RateSample>> = Seq::empty();
        let ghost mut lessons: Seq<RateSample> = Seq::empty();
        let ghost mut learns: Seq<bool> = Seq::empty();
        let ghost first = *old(self);
        let ghost es = events@;
        let mut i: usize = 0;
        assert(es.take(0) =~= Seq::empty());
        while i < events.len()
            invariant
                es == events@,
                i <= es.len(),
                first == *old(self),
                first.wf(),
                self.wf(),
                self.settings() == first.settings(),
                self.filled() == first.filled(),
                book.wf(),
                book.instrument() == old(book).instrument(),
                book@ == book_after(old(book)@, es.take(i as int)),
                book_ready(old(book)@, es),
                first.chain() matches Some(c) ==> detectors_ready(c@, c.config(), es),
                verdicts.len() == i,
                pnls.len() == i,
                self.drawdown() == noted_all(first.drawdown(), pnls),
                self.chain() is Some <==> first.chain() is Some,
                match first.chain() {
                    Some(c) => {
                        &&& self.chain()->0.config() == c.config()
                        &&& self.chain()->0@ == chain_after(c@, c.config(), es.take(i as int), verdicts)
                        &&& chaos_events@ == flags_after(c@, c.config(), es.take(i as int), verdicts)
                    },
                    None => chaos_events@.len() == 0,
                },
                row_of(states, *old(strategy), *strategy, i as nat),
                row_of(judges, *old(judge), *judge, i as nat),
                judged.len() == i,
                forall|k: int| #![trigger within(k, i as nat)]
                    within(k, i as nat) ==> {
                        &&& call_ensures(S::pnl, (&states[k + 1],), pnls[k])
                        &&& exists|m: &mut S, b: OrderBook, orders: Vec<StrategyOrder>|
                            {
                                &&& *m == states[k]
                                &&& *final(m) == states[k + 1]
                                &&& b.wf()
                                &&& b.instrument() == old(book).instrument()
                                &&& b@ == book_at(old(book)@, es, k)
                                &&& #[trigger] call_ensures(S::on_event, (m, &es[k], &b), orders)
                            }
                    },
                rates.len() == i,
                lessons.len() == i,
                learns.len() == i,
                forall|k: int| #![trigger within(k, i as nat)]
                    within(k, i as nat) ==> learns[k] == (taught(first, es, verdicts, k) is Some),
                forall|k: int| #![trigger within(k, i as nat)]
                    within(k, i as nat) ==> rates[k] == shown(first, es, verdicts, k),
                forall|k: int| #![trigger within(k, i as nat)]
                    within(k, i as nat) ==> exists|m: &mut J|
                            {
                                &&& *m == judges[k]
                                &&& *final(m) == judged[k]
                                &&& #[trigger] call_ensures(J::judge, (m, rates[k]), verdicts[k])
                            },
                forall|k: int| #![trigger within(k, i as nat)]
                    within(k, i as nat) ==> match taught(first, es, verdicts, k) {
                        Some(rate) => rate == lessons[k],
                        None => judges[k + 1] == judged[k],
                    },
                forall|k: int| #![trigger within(k, i as nat)]
                    within(k, i as nat) && learns[k] ==> exists|m: &mut J|
                            {
                                &&& *m == judged[k]
                                &&& *final(m) == judges[k + 1]
                                &&& #[trigger] call_ensures(J::learn, (m, lessons[k]), ())
                            },
            decreases es.len() - i,
        {
            let ghost head = es.take(i as int);
            let ghost more = es.take(i + 1);
            let ghost before = *self;
            assert(more.drop_last() =~= head && more.last() == es[i as int]);
            assert(orderbook::ref_fits(book_after(old(book)@, es.take(i as int)), es[i as int].event));
            let (verdict, pnl, settled) = self.run_one(
                strategy,
                judge,
                &events[i],
                book,
                &mut chaos_events,
            );
            proof {
                let vs = verdicts.push(verdict);
                assert(book@ == book_at(old(book)@, es, i as int)) by {
                    reveal(book_at);
                }
                assert(rate_at(before, es[i as int]) == shown(first, es, verdicts, i as int)) by {
                    reveal(shown);
                }
                assert(lesson_at(before, es[i as int], verdict) == taught(first, es, vs, i as int)) by {
                    reveal(taught);
                    if let Some(c) = first.chain() {
                        lemma_earlier(c@, c.config(), head, verdicts, vs);
                    }
                }
                let (ss, ps) = (states.push(*strategy), pnls.push(pnl));
                let (js, ds) = (judges.push(*judge), judged.push(settled@));
                lemma_strategy_row(
                    old(book)@,
                    old(book).instrument(),
                    es,
                    states,
                    pnls,
                    *strategy,
                    pnl,
                    ss,
                    ps,
                );
                let rate = rate_at(before, es[i as int]);
                let learn = lesson_at(before, es[i as int], verdict);
                let (rs, ls, bs) = (rates.push(rate), lessons.push(learn->0), learns.push(learn is Some));
                lemma_judge_row(
                    judges,
                    judged,
                    rates,
                    verdicts,
                    settled@,
                    *judge,
                    rate,
                    verdict,
                    js,
                    ds,
                    rs,
                    vs,
                );
                lemma_lesson_row(
                    judges,
                    judged,
                    lessons,
                    learns,
                    settled@,
                    *judge,
                    learn->0,
                    learn is Some,
                    js,
                    ds,
                    ls,
                    bs,
                );
                assert forall|k: int| #![trigger within(k, (i + 1) as nat)] within(k, (i + 1) as nat) implies {
                    &&& rs[k] == shown(first, es, vs, k)
                    &&& bs[k] == (taught(first, es, vs, k) is Some)
                    &&& match taught(first, es, vs, k) {
                        Some(rate) => rate == ls[k],
                        None => js[k + 1] == ds[k],
                    }
                } by {
                    lemma_shown_earlier(first, es, verdicts, verdict, k);
                    if k < i {
                        assert(within(k, i as nat));
                        assert(rs[k] == rates[k] && bs[k] == learns[k] && ls[k] == lessons[k]);
                        assert(js[k + 1] == judges[k + 1] && ds[k] == judged[k]);
                    }
                }
                if let Some(c) = first.chain() {
                    lemma_earlier(c@, c.config(), head, verdicts, vs);
                }
                assert(ps.drop_last() =~= pnls);
                assert(vs.len() == (i + 1) as nat && ps.len() == (i + 1) as nat && ls.len() == (i + 1) as nat);
                verdicts = vs;
                pnls = ps;
                states = ss;
                judges = js;
                judged = ds;
                rates = rs;
                lessons = ls;
                learns = bs;
            }
            i += 1;
        }
        assert(es.take(i as int) =~= es);
        let chaos_counts = self.chaos_counts();
        let r = StressReport {
            strategy_name: strategy.name(),
            events_processed: events.len() as u64,
            final_pnl: strategy.pnl(),
            max_drawdown: self.track.worst,
            final_inventory: strategy.inventory(),
            fills: self.fills.len() as u64,
            chaos_events,
            chaos_counts,
        };
        proof {
            let o = Outside { verdicts, pnls };
            assert(ran(first, *self, es, r, o));
        }
        r
    }
}

/// Verdicts that come later change nothing before.
proof fn lemma_earlier(
    c: ChainModel,
    l: ChainLimits,
    es: Seq<SequencedEvent>,
    vs: Seq<StormVerdict>,
    ws: Seq<StormVerdict>,
)
    requires
        es.len() <= vs.len() <= ws.len(),
        forall|i: int| 0 <= i < es.len() ==> vs[i] == ws[i],
    ensures
        chain_after(c, l, es, vs) == chain_after(c, l, es, ws),
        flags_after(c, l, es, vs) == flags_after(c, l, es, ws),
    decreases es.len(),
{
    if es.len() > 0 {
        lemma_earlier(c, l, es.drop_last(), vs, ws);
        assert(vs[es.len() - 1] == ws[es.len() - 1]);
    }
}

/// A verdict that comes later changes nothing of what the judge was shown, nor of
/// what it was to learn.
proof fn lemma_shown_earlier(
    x: StrategyExecutor,
    es: Seq<SequencedEvent>,
    vs: Seq<StormVerdict>,
    v: StormVerdict,
    k: int,
)
    requires
        0 <= k <= vs.len() < es.len(),
    ensures
        shown(x, es, vs.push(v), k) == shown(x, es, vs, k),
        k < vs.len() ==> taught(x, es, vs.push(v), k) == taught(x, es, vs, k),
{
    reveal(shown);
    reveal(taught);
    if let Some(c) = x.chain() {
        lemma_earlier(c@, c.config(), es.take(k), vs, vs.push(v));
    }
}

/// The row of a strategy's states, with one event more.
proof fn lemma_strategy_row<S: Strategy>(
    b0: BookModel,
    instrument: u32,
    es: Seq<SequencedEvent>,
    states: Seq<S>,
    pnls: Seq<i64>,
    next: S,
    pnl: i64,
    ss: Seq<S>,
    ps: Seq<i64>,
)
    requires
        states.len() == pnls.len() + 1,
        ss == states.push(next),
        ps == pnls.push(pnl),
        forall|k: int| #![trigger within(k, pnls.len())]
            within(k, pnls.len()) ==> {
                &&& call_ensures(S::pnl, (&states[k + 1],), pnls[k])
                &&& exists|m: &mut S, b: OrderBook, orders: Vec<StrategyOrder>|
                    {
                        &&& *m == states[k]
                        &&& *final(m) == states[k + 1]
                        &&& b.wf()
                        &&& b.instrument() == instrument
                        &&& b@ == book_at(b0, es, k)
                        &&& #[trigger] call_ensures(S::on_event, (m, &es[k], &b), orders)
                    }
            },
        call_ensures(S::pnl, (&next,), pnl),
        exists|m: &mut S, b: OrderBook, orders: Vec<StrategyOrder>|
            {
                &&& *m == states[pnls.len() as int]
                &&& *final(m) == next
                &&& b.wf()
                &&& b.instrument() == instrument
                &&& b@ == book_at(b0, es, pnls.len() as int)
                &&& #[trigger] call_ensures(S::on_event, (m, &es[pnls.len() as int], &b), orders)
            },
    ensures
        forall|k: int| #![trigger within(k, ps.len())]
            within(k, ps.len()) ==> {
                &&& call_ensures(S::pnl, (&ss[k + 1],), ps[k])
                &&& exists|m: &mut S, b: OrderBook, orders: Vec<StrategyOrder>|
                    {
                        &&& *m == ss[k]
                        &&& *final(m) == ss[k + 1]
                        &&& b.wf()
                        &&& b.instrument() == instrument
                        &&& b@ == book_at(b0, es, k)
                        &&& #[trigger] call_ensures(S::on_event, (m, &es[k], &b), orders)
                    }
            },
{
    assert forall|k: int| #![trigger within(k, ps.len())]
        within(k, ps.len()) implies {
            &&& call_ensures(S::pnl, (&ss[k + 1],), ps[k])
            &&& exists|m: &mut S, b: OrderBook, orders: Vec<StrategyOrder>|
                {
                    &&& *m == ss[k]
                    &&& *final(m) == ss[k + 1]
                    &&& b.wf()
                    &&& b.instrument() == instrument
                    &&& b@ == book_at(b0, es, k)
                    &&& #[trigger] call_ensures(S::on_event, (m, &es[k], &b), orders)
                }
        } by {
        if k < pnls.len() {
            assert(within(k, pnls.len()));
            assert(ps[k] == pnls[k]);
            assert(ss[k] == states[k] && ss[k + 1] == states[k + 1]);
        } else {
            assert(ss[k] == states[k] && ss[k + 1] == next);
        }
    }
}

/// The row of what a judge is shown, with one event more.
proof fn lemma_judge_row<J: StormJudge>(
    judges: Seq<J>,
    judged: Seq<J>,
    rates: Seq<Option<RateSample>>,
    vs: Seq<StormVerdict>,
    settled: J,
    next: J,
    rate: Option<RateSample>,
    v: StormVerdict,
    js: Seq<J>,
    ds: Seq<J>,
    rs: Seq<Option<RateSample>>,
    ws: Seq<StormVerdict>,
)
    requires
        judges.len() == vs.len() + 1,
        judged.len() == vs.len(),
        rates.len() == vs.len(),
        js == judges.push(next),
        ds == judged.push(settled),
        rs == rates.push(rate),
        ws == vs.push(v),
        forall|k: int| #![trigger within(k, vs.len())]
            within(k, vs.len()) ==> exists|m: &mut J|
                    {
                        &&& *m == judges[k]
                        &&& *final(m) == judged[k]
                        &&& #[trigger] call_ensures(J::judge, (m, rates[k]), vs[k])
                    },
        exists|m: &mut J|
            {
                &&& *m == judges[vs.len() as int]
                &&& *final(m) == settled
                &&& #[trigger] call_ensures(J::judge, (m, rate), v)
            },
    ensures
        forall|k: int| #![trigger within(k, ws.len())]
            within(k, ws.len()) ==> exists|m: &mut J|
                    {
                        &&& *m == js[k]
                        &&& *final(m) == ds[k]
                        &&& #[trigger] call_ensures(J::judge, (m, rs[k]), ws[k])
                    },
{
    assert forall|k: int| #![trigger within(k, ws.len())] within(k, ws.len()) implies exists|m: &mut J|
        {
            &&& *m == js[k]
            &&& *final(m) == ds[k]
            &&& #[trigger] call_ensures(J::judge, (m, rs[k]), ws[k])
        } by {
        if k < vs.len() {
            assert(within(k, vs.len()));
            assert(ws[k] == vs[k] && rs[k] == rates[k]);
            assert(js[k] == judges[k] && ds[k] == judged[k]);
        } else {
            assert(ws[k] == v && rs[k] == rate);
            assert(js[k] == judges[k] && ds[k] == settled);
        }
    }
}

/// The row of what a judge learns, with one event more.
proof fn lemma_lesson_row<J: StormJudge>(
    judges: Seq<J>,
    judged: Seq<J>,
    lessons: Seq<RateSample>,
    learns: Seq<bool>,
    settled: J,
    next: J,
    lesson: RateSample,
    learn: bool,
    js: Seq<J>,
    ds: Seq<J>,
    ls: Seq<RateSample>,
    bs: Seq<bool>,
)
    requires
        judges.len() == lessons.len() + 1,
        judged.len() == lessons.len(),
        learns.len() == lessons.len(),
        js == judges.push(next),
        ds == judged.push(settled),
        ls == lessons.push(lesson),
        bs == learns.push(learn),
        forall|k: int| #![trigger within(k, lessons.len())]
            within(k, lessons.len()) && learns[k] ==> exists|m: &mut J|
                    {
                        &&& *m == judged[k]
                        &&& *final(m) == judges[k + 1]
                        &&& #[trigger] call_ensures(J::learn, (m, lessons[k]), ())
                    },
        learn ==> exists|m: &mut J|
            {
                &&& *m == settled
                &&& *final(m) == next
                &&& #[trigger] call_ensures(J::learn, (m, lesson), ())
            },
    ensures
        forall|k: int| #![trigger within(k, ls.len())]
            within(k, ls.len()) && bs[k] ==> exists|m: &mut J|
                    {
                        &&& *m == ds[k]
                        &&& *final(m) == js[k + 1]
                        &&& #[trigger] call_ensures(J::learn, (m, ls[k]), ())
                    },
{
    assert forall|k: int| #![trigger within(k, ls.len())] within(k, ls.len()) && bs[k] implies exists|m: &mut J|
        {
            &&& *m == ds[k]
            &&& *final(m) == js[k + 1]
            &&& #[trigger] call_ensures(J::learn, (m, ls[k]), ())
        } by {
        if k < lessons.len() {
            assert(within(k, lessons.len()));
            assert(ls[k] == lessons[k] && bs[k] == learns[k]);
            assert(js[k + 1] == judges[k + 1] && ds[k] == judged[k]);
        } else {
            assert(ls[k] == lesson && js[k + 1] == next && ds[k] == settled);
        }
    }
}

// ─── Laws ───────────────────────────────────────────────────────────

/// Every fall of the profit is covered: from one profit to a later one, and from
/// the start at zero.
pub proof fn falls_are_covered(pnls: Seq<i64>, i: int, j: int)
    requires
        0 <= i <= j < pnls.len(),
    ensures
        ({
            let t = noted_all(Drawdown { peak: 0, worst: 0 }, pnls);
            t.worst >= pnls[i] - pnls[j] && t.worst >= 0 - pnls[j] && t.peak >= pnls[i] && t.peak >= 0
        }),
    decreases pnls.len(),
{
    let start = Drawdown { peak: 0, worst: 0 };
    let head = pnls.drop_last();
    if j < pnls.len() - 1 {
        falls_are_covered(head, i, j);
    } else if i < j {
        falls_are_covered(head, i, i);
    } else if j > 0 {
        falls_are_covered(head, 0, 0);
    } else {
        assert(head.len() == 0);
        assert(noted_all(start, head) == start);
    }
}

/// The worst fall that is told did happen: from some profit, or from the start
/// at zero, to a later one. Without any fall it is zero.
pub proof fn the_worst_fall_happened(pnls: Seq<i64>)
    ensures
        ({
            let t = noted_all(Drawdown { peak: 0, worst: 0 }, pnls);
            &&& t.peak == 0 || exists|k: int| 0 <= k < pnls.len() && t.peak == #[trigger] pnls[k]
            &&& {
                ||| t.worst == 0
                ||| exists|j: int| 0 <= j < pnls.len() && t.worst == 0 - #[trigger] pnls[j]
                ||| exists|i: int, j: int|
                    0 <= i <= j < pnls.len() && t.worst == #[trigger] pnls[i] - #[trigger] pnls[j]
            }
        }),
    decreases pnls.len(),
{
    if pnls.len() > 0 {
        let start = Drawdown { peak: 0, worst: 0 };
        let head = pnls.drop_last();
        let before = noted_all(start, head);
        let t = noted_all(start, pnls);
        let n = pnls.len() - 1;
        the_worst_fall_happened(head);
        assert(pnls.last() == pnls[n]);
        if t.peak != pnls[n] && t.peak != 0 {
            let k = choose|k: int| 0 <= k < head.len() && before.peak == #[trigger] head[k];
            assert(t.peak == pnls[k]);
        }
        if t.worst == before.worst {
            if t.worst != 0 {
                if exists|j: int| 0 <= j < head.len() && before.worst == 0 - #[trigger] head[j] {
                    let j = choose|j: int| 0 <= j < head.len() && before.worst == 0 - #[trigger] head[j];
                    assert(t.worst == 0 - pnls[j]);
                } else {
                    let (i, j) = choose|i: int, j: int|
                        0 <= i <= j < head.len() && before.worst == #[trigger] head[i] - #[trigger] head[j];
                    assert(t.worst == pnls[i] - pnls[j]);
                }
            }
        } else {
            assert(t.worst == t.peak - pnls[n]);
            if t.peak != 0 {
                let k = choose|k: int| 0 <= k < pnls.len() && t.peak == #[trigger] pnls[k];
                assert(t.worst == pnls[k] - pnls[n]);
            }
        }
    }
}

/// The counts that a run ends with are those it began with and the flags it
/// tells, kind by kind.
pub proof fn counts_match_the_flags(
    c: ChainModel,
    l: ChainLimits,
    es: Seq<SequencedEvent>,
    vs: Seq<StormVerdict>,
    kind: ChaosKind,
)
    requires
        c.counts.len() == 7,
        c.counts[chain::rank(kind)] + 7 * es.len() <= u64::MAX,
    ensures
        chain_after(c, l, es, vs).counts.len() == 7,
        chain_after(c, l, es, vs).counts[chain::rank(kind)] == c.counts[chain::rank(kind)] + chain::number_of(
            flags_after(c, l, es, vs),
            kind,
        ),
        chain::number_of(flags_after(c, l, es, vs), kind) <= 7 * es.len(),
    decreases es.len(),
{
    if es.len() > 0 {
        let head = es.drop_last();
        let v = vs[es.len() - 1];
        counts_match_the_flags(c, l, head, vs, kind);
        let before = chain_after(c, l, head, vs);
        chain::flags_are_counted(before, l, es.last(), v, kind);
        chain::lemma_number_joins(
            flags_after(c, l, head, vs),
            chain::chain_step(before, l, es.last(), v).flags,
            kind,
        );
    }
}

/// What a run with fresh detectors reports: of each of the five kinds, in their order, as
/// many as its flags show.
pub proof fn reports_count_their_flags(
    c: ChainModel,
    l: ChainLimits,
    es: Seq<SequencedEvent>,
    vs: Seq<StormVerdict>,
)
    requires
        c.counts.len() == 7,
        forall|i: int| 0 <= i < 7 ==> c.counts[i] == 0,
        7 * es.len() <= u64::MAX,
    ensures
        ({
            let r = counts_of(chain_after(c, l, es, vs));
            let f = flags_after(c, l, es, vs);
            &&& r.len() == 5
            &&& r[0].0 == ChaosKind::PhantomLiquidity
            &&& r[1].0 == ChaosKind::CancellationStorm
            &&& r[2].0 == ChaosKind::MomentumIgnition
            &&& r[3].0 == ChaosKind::FlashCrash
            &&& r[4].0 == ChaosKind::LatencyArbitrage
            &&& forall|i: int| 0 <= i < 5 ==> (#[trigger] r[i]).1 == chain::number_of(f, r[i].0)
        }),
{
    counts_match_the_flags(c, l, es, vs, ChaosKind::PhantomLiquidity);
    counts_match_the_flags(c, l, es, vs, ChaosKind::CancellationStorm);
    counts_match_the_flags(c, l, es, vs, ChaosKind::MomentumIgnition);
    counts_match_the_flags(c, l, es, vs, ChaosKind::FlashCrash);
    counts_match_the_flags(c, l, es, vs, ChaosKind::LatencyArbitrage);
}

} // verus!
