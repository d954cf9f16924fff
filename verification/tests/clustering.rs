use flowlab::chaos::clustering::{ChaosCluster, ChaosClusterer};
use flowlab::chaos::flag::{ChaosEvent, ChaosFeatures, ChaosKind, Severity, StressWindow, Term};
use flowlab::chaos::scale::Portion;
use flowlab::flow::regime::Regime;
use flowlab::natural::{Natural, BASE};
use flowlab::ratio::Fraction;

fn ev(kind: ChaosKind, start: u64, end: u64, tenths: u128, initiator: Option<u64>) -> ChaosEvent {
    ChaosEvent {
        kind,
        start_seq: start,
        end_seq: end,
        severity: Severity::single(tenths, 10),
        initiator,
        features: ChaosFeatures {
            event_count: 1,
            duration_ns: 0,
            cancel_trade_ratio: Fraction { num: 0, den: 1 },
            price_displacement: 0,
            depth_removed: 0,
        },
    }
}

fn part(t: Term) -> f64 {
    t.tenths as f64 / 10.0 * (t.num as f64 / t.den as f64)
}

fn severity(s: Severity) -> f64 {
    part(s.first) + part(s.second) + part(s.third)
}

fn number(n: &Natural) -> f64 {
    n.digits().iter().rev().fold(0.0, |acc, d| acc * BASE as f64 + *d as f64)
}

fn portion(p: &Portion) -> f64 {
    number(&p.num) / number(&p.den)
}

fn peak_severity(c: &ChaosCluster) -> f64 {
    severity(c.peak_severity().unwrap())
}

fn mean_severity(c: &ChaosCluster) -> f64 {
    portion(&c.mean_severity())
}

fn composite_severity(c: &ChaosCluster) -> f64 {
    peak_severity(c) * (1.0 + (c.count as f64).ln())
}

#[test]
fn same_kind_same_initiator_merges() {
    let c = ChaosClusterer::new(100);
    let evs = vec![
        ev(ChaosKind::PhantomLiquidity, 10, 20, 5, Some(42)),
        ev(ChaosKind::PhantomLiquidity, 50, 60, 7, Some(42)),
    ];
    let out = c.cluster(&evs);
    assert_eq!(out.len(), 1);
    assert_eq!(out[0].events.len(), 2);
    assert_eq!(peak_severity(&out[0]), 0.7);
}

#[test]
fn same_kind_different_initiator_splits() {
    let c = ChaosClusterer::new(100);
    let evs = vec![
        ev(ChaosKind::PhantomLiquidity, 10, 20, 5, Some(42)),
        ev(ChaosKind::PhantomLiquidity, 50, 60, 7, Some(99)),
    ];
    let out = c.cluster(&evs);
    assert_eq!(out.len(), 2, "different initiators must not merge");
}

#[test]
fn unknown_initiators_do_not_merge() {
    // Two `None` initiators are NOT the same actor — they're both
    // "unknown". Policy rejects the merge.
    let c = ChaosClusterer::new(100);
    let evs = vec![
        ev(ChaosKind::Spoof, 10, 20, 5, None),
        ev(ChaosKind::Spoof, 50, 60, 7, None),
    ];
    let out = c.cluster(&evs);
    assert_eq!(out.len(), 2);
}

#[test]
fn crash_and_ignition_merge_regardless_of_initiator() {
    let c = ChaosClusterer::new(100);
    let evs = vec![
        ev(ChaosKind::MomentumIgnition, 10, 30, 6, Some(7)),
        ev(ChaosKind::FlashCrash, 50, 80, 9, Some(8)),
    ];
    let out = c.cluster(&evs);
    assert_eq!(out.len(), 1, "crash + ignition share the price move");
    assert_eq!(peak_severity(&out[0]), 0.9);
}

#[test]
fn unrelated_kinds_never_merge() {
    let c = ChaosClusterer::new(100);
    let evs = vec![
        ev(ChaosKind::QuoteStuff, 10, 20, 5, Some(1)),
        ev(ChaosKind::FlashCrash, 30, 40, 9, Some(1)),
    ];
    let out = c.cluster(&evs);
    assert_eq!(out.len(), 2, "quote-stuff and flash-crash are unrelated");
}

#[test]
fn distant_events_split_even_when_eligible() {
    let c = ChaosClusterer::new(10);
    let evs = vec![
        ev(ChaosKind::PhantomLiquidity, 10, 20, 5, Some(42)),
        ev(ChaosKind::PhantomLiquidity, 200, 210, 7, Some(42)),
    ];
    let out = c.cluster(&evs);
    assert_eq!(out.len(), 2, "seq-gap > max_gap must always split");
}

#[test]
fn empty_input_yields_no_clusters() {
    let c = ChaosClusterer::new(100);
    assert!(c.cluster(&[]).is_empty());
}

#[test]
fn singleton_composite_equals_peak() {
    // 1 event -> ln(1) == 0 -> composite == peak. Pinning this so a
    // future tweak of the persistence factor cannot silently change
    // the meaning of the field for the common 1-event case.
    let c = ChaosClusterer::new(100);
    let evs = vec![ev(ChaosKind::Spoof, 10, 20, 8, Some(1))];
    let out = c.cluster(&evs);
    assert_eq!(out.len(), 1);
    assert_eq!(out[0].count, 1);
    assert!((composite_severity(&out[0]) - 0.8).abs() < 1e-9);
    assert!((mean_severity(&out[0]) - 0.8).abs() < 1e-9);
}

#[test]
fn composite_grows_with_persistence_not_volume() {
    // Two episodes with the SAME peak (0.6); the longer one must
    // rank strictly higher on composite.
    let c = ChaosClusterer::new(100);
    let short = vec![
        ev(ChaosKind::PhantomLiquidity, 10, 20, 6, Some(1)),
        ev(ChaosKind::PhantomLiquidity, 30, 40, 4, Some(1)),
    ];
    let long = vec![
        ev(ChaosKind::PhantomLiquidity, 10, 20, 6, Some(1)),
        ev(ChaosKind::PhantomLiquidity, 30, 40, 4, Some(1)),
        ev(ChaosKind::PhantomLiquidity, 50, 60, 4, Some(1)),
        ev(ChaosKind::PhantomLiquidity, 70, 80, 4, Some(1)),
        ev(ChaosKind::PhantomLiquidity, 90, 100, 4, Some(1)),
    ];
    let s = &c.cluster(&short)[0];
    let l = &c.cluster(&long)[0];
    assert_eq!(peak_severity(s), peak_severity(l));
    assert!(
        composite_severity(l) > composite_severity(s),
        "longer episode at same peak must rank higher"
    );
    // Mean drops as the long episode adds 0.4 events to a 0.6 peak.
    assert!(mean_severity(l) < mean_severity(s));
}

#[test]
fn products_and_sums_are_exact() {
    let most = Natural::of(u128::MAX);
    let square = most.times(&most);
    assert_eq!(
        square.digits(),
        &vec![1, 0, 0, 0, 0xffff_fffe, 0xffff_ffff, 0xffff_ffff, 0xffff_ffff]
    );
    assert_eq!(most.plus(&Natural::of(1)).digits(), &vec![0, 0, 0, 0, 1]);
    assert!(most.is_below(&square) && !square.is_below(&square) && !square.is_below(&most));
    assert!(Natural::zero().is_below(&Natural::of(1)) && !Natural::zero().is_below(&Natural::zero()));
    assert!(Natural::zero().times(&most).digits().iter().all(|d| *d == 0));
}

/// Severities that floating point cannot tell apart are told apart.
#[test]
fn the_peak_is_the_exact_worst() {
    let most = u128::MAX;
    let severities = [Severity::single(most - 2, most), Severity::single(most - 1, most)];
    assert_eq!(severity(severities[0]), severity(severities[1]));
    assert!(severities[1].is_worse_than(&severities[0]));
    assert!(!severities[0].is_worse_than(&severities[1]));
    assert!(!severities[0].is_worse_than(&severities[0]));
    let mut evs = vec![ev(ChaosKind::Spoof, 10, 20, 0, Some(1)); 3];
    evs[0].severity = severities[0];
    evs[1].severity = severities[1];
    let out = ChaosClusterer::new(100).cluster(&evs);
    assert_eq!(out[0].peak_severity(), Some(severities[1]));
}

#[test]
fn severities_of_several_parts_add_up() {
    let s = Severity::double(Term::capped(6, 1, 2), Term::capped(4, 1, 4));
    let p = s.portion();
    assert_eq!((p.num.digits(), p.den.digits()), (&vec![32], &vec![80]));
    assert!(s.is_worse_than(&Severity::single(39, 100)));
    assert!(Severity::single(41, 100).is_worse_than(&s));
}

#[test]
fn windows_tell_the_mean_of_their_flags() {
    let mut w = StressWindow {
        start_seq: 1,
        end_seq: 9,
        regime: Regime::Crisis,
        chaos_events: Vec::new(),
    };
    assert_eq!(portion(&w.severity()), 0.0);
    w.chaos_events.push(ev(ChaosKind::Spoof, 1, 2, 2, None));
    w.chaos_events.push(ev(ChaosKind::Spoof, 3, 4, 6, None));
    w.chaos_events.push(ev(ChaosKind::Spoof, 5, 6, 10, None));
    assert_eq!(portion(&w.severity()), 0.6);
}
