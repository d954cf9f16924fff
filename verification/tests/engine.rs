use flowlab::book::event::{Event, EventType, Side};
use flowlab::chaos::cancellation_storm::StormVerdict;
use flowlab::chaos::flag::ChaosKind;
use flowlab::engine::config::{period_ns, EngineConfig};
use flowlab::engine::histo::ApplyHisto;
use flowlab::engine::ich::{fast_forward, next_step, Framing, IchWalk, Step};
use flowlab::engine::pipeline::Engine;
use flowlab::engine::print::tag_trade;
use flowlab::engine::stage_stats::StageStats;
use flowlab::engine::symbol_lock::{Gate, SymbolLock};
use flowlab::engine::symbols::SymbolTable;
use flowlab::engine::tsc::net_cycles;
use flowlab::engine::wire::{
    chaos_kind_name, frame_message, halt_reason_name, Codec, StageLat, WIRE_VERSION,
};
use flowlab::flow::circuit_breaker::HaltReason;
use flowlab::log_bins::{bin_of, lower_ns, N_BINS};
use flowlab::ratio::{Fraction, Ratio};

fn event(kind: EventType, side: Side, price: u64, qty: u64, order_id: u64) -> Event {
    Event {
        ts: 11,
        price,
        qty,
        order_id,
        instrument_id: 1,
        event_type: kind.code(),
        side: side.code(),
        _pad: [0; 2],
    }
}

fn trade_of(instrument_id: u32) -> Event {
    Event { instrument_id, ..event(EventType::Trade, Side::Bid, 10, 1, 0) }
}

const QUIET: StormVerdict = StormVerdict { above: false, severity: Ratio { num: 0, den: 1 } };

// ─── Pieces ─────────────────────────────────────────────────────────

#[test]
fn periods_are_rounded() {
    assert_eq!(period_ns(50), 20_000_000);
    assert_eq!(period_ns(3), 333_333_333);
    assert_eq!(period_ns(7), 142_857_143);
}

#[test]
fn default_settings() {
    let c = EngineConfig::default();
    assert_eq!((c.tick_publish_hz, c.book_publish_hz, c.depth_levels), (50, 10, 10));
    assert_eq!((c.vpin_bucket, c.vpin_buckets, c.spread_window), (10_000, 50, 256));
    assert_eq!((c.instrument_id, c.track_instrument, c.auto_lock_threshold), (1, None, 5));
}

#[test]
fn cycles_wrap_and_never_go_below_zero() {
    assert_eq!(net_cycles(100, 150, 20), 30);
    assert_eq!(net_cycles(100, 110, 20), 0);
    assert_eq!(net_cycles(u64::MAX, 9, 3), 7);
}

#[test]
fn stage_stats_keep_the_newest() {
    let mut s = StageStats::new(4);
    assert_eq!(s.snapshot(), StageLat::default());
    for ns in [9, 1, 2, 3, 4] {
        s.push(ns);
    }
    let l = s.snapshot();
    assert_eq!(l.max_ns, 4);
    assert_eq!(l.p50_ns, 3);
    assert_eq!(l.p999_ns, 4);
}

#[test]
fn histogram_counts_by_bin() {
    let mut h = ApplyHisto::new();
    h.record(100);
    h.record(100);
    h.record(5);
    let c = h.counts();
    assert_eq!(c.len(), N_BINS);
    assert_eq!(c[bin_of(100)], 2);
    assert_eq!(c[bin_of(5)], 1);
    assert_eq!(c.iter().sum::<u64>(), 3);
}

#[test]
fn bins_hold_their_numbers() {
    for ns in [1u64, 2, 7, 8, 9, 100, 1_000, 123_456, 1_000_000] {
        let i = bin_of(ns);
        assert!(lower_ns(i) <= ns);
        if i + 1 < N_BINS {
            assert!(ns < lower_ns(i + 1) || lower_ns(i + 1) == lower_ns(i));
        }
    }
}

/// What a bin stands for is off by less than an eighth of itself, and by nothing
/// below sixteen.
#[test]
fn bins_are_tight() {
    for ns in (1u64..5_000).chain([123_456, 999_999, 0xFF_FFFF]) {
        let lo = lower_ns(bin_of(ns));
        assert!(lo <= ns && 8 * (ns - lo) < lo);
        assert!(ns >= 16 || lo == ns);
    }
    assert_eq!((lower_ns(bin_of(17)), lower_ns(bin_of(1_000))), (16, 960));
    assert_eq!(bin_of(0xFF_FFFF), N_BINS - 1);
}

#[test]
fn aggressor_follows_the_best_prices() {
    let t = |price: u64| event(EventType::Trade, Side::Bid, price, 5, 0);
    assert_eq!(tag_trade(&t(101), 99, 101).unwrap().aggressor, 1);
    assert_eq!(tag_trade(&t(99), 99, 101).unwrap().aggressor, -1);
    assert_eq!(tag_trade(&t(100), 99, 101).unwrap().aggressor, 0);
    assert_eq!(tag_trade(&t(100), 101, 99).unwrap().aggressor, 0);
    assert_eq!(tag_trade(&t(0), 99, 101).unwrap().price, 99);
    assert_eq!(tag_trade(&event(EventType::Trade, Side::Ask, 0, 5, 0), 99, 101).unwrap().price, 101);
    assert_eq!(tag_trade(&t(0), 0, 101), None);
    assert_eq!(tag_trade(&event(EventType::OrderAdd, Side::Bid, 5, 5, 1), 1, 9), None);
}

#[test]
fn lock_goes_to_the_first_that_trades_enough() {
    let mut l = SymbolLock::new(None, 2);
    assert_eq!(l.step(&trade_of(7), 0), Gate::Skip);
    assert_eq!(l.step(&trade_of(8), 0), Gate::Skip);
    assert_eq!(l.step(&trade_of(7), 0), Gate::Locked(2));
    assert_eq!(l.followed(), Some(7));
    assert_eq!(l.step(&trade_of(8), 0), Gate::Skip);
    assert_eq!(l.step(&trade_of(7), 1), Gate::Pass);
}

#[test]
fn stale_locks_are_given_up_unless_pinned() {
    let mut l = SymbolLock::new(None, 1);
    assert_eq!(l.step(&trade_of(7), 0), Gate::Locked(1));
    assert_eq!(l.step(&trade_of(8), 5_000_000_000), Gate::Skip);
    assert_eq!(l.step(&trade_of(8), 5_000_000_001), Gate::Locked(1));
    let mut pinned = SymbolLock::new(Some(3), 1);
    assert_eq!(pinned.step(&trade_of(3), 0), Gate::Pass);
    assert_eq!(pinned.step(&trade_of(8), 99_000_000_000), Gate::Skip);
    assert_eq!(pinned.followed(), Some(3));
}

#[test]
fn symbols_are_found_whatever_their_case() {
    let mut t = SymbolTable::new();
    t.insert(5, "AAPL    ".to_string());
    t.insert(6, "MSFT".to_string());
    assert_eq!(t.locate_of(" aapl"), Some(5));
    assert_eq!(t.locate_of("goog"), None);
    t.insert(5, "APLE".to_string());
    assert_eq!(t.symbol_of(5), Some("APLE"));
    assert_eq!(t.symbol_of(9), None);
}

/// Blanks are those of Unicode; the case of letters beyond the English ones counts.
#[test]
fn blanks_are_those_of_unicode() {
    let mut t = SymbolTable::new();
    t.insert(1, "\u{a0}IBM\u{2003}".to_string());
    t.insert(2, "\u{c4}".to_string());
    assert_eq!(t.locate_of("ibm"), Some(1));
    assert_eq!(t.locate_of("\u{3000}Ibm\u{85}\u{1680}"), Some(1));
    assert_eq!(t.locate_of("i bm"), None);
    assert_eq!(t.locate_of("\u{200b}ibm"), None);
    assert_eq!((t.locate_of("\u{c4}"), t.locate_of("\u{e4}")), (Some(2), None));
    for n in 0..=0x3100u32 {
        if let Some(c) = char::from_u32(n) {
            let padded: String = [c, 'I', 'B', 'M', c].iter().collect();
            assert_eq!(t.locate_of(&padded) == Some(1), c.is_whitespace());
        }
    }
}

#[test]
fn labels_and_codecs() {
    assert_eq!(Codec::parse("json"), Codec::Json);
    assert_eq!(Codec::parse("JSON"), Codec::Bincode);
    assert_eq!(Codec::parse(""), Codec::Bincode);
    assert_eq!(halt_reason_name(HaltReason::OrderToTradeRatio), "order_to_trade_ratio");
    assert_eq!(chaos_kind_name(ChaosKind::FlashCrash), "FlashCrash");
    assert_eq!(WIRE_VERSION, 2);
}

#[test]
fn messages_carry_length_and_version() {
    assert_eq!(frame_message(&[9, 8, 7]), vec![5, 0, 0, 0, 2, 0, 9, 8, 7]);
    assert_eq!(frame_message(&[]), vec![2, 0, 0, 0, 2, 0]);
}

// ─── Files of messages ──────────────────────────────────────────────

fn lengths() -> Vec<u16> {
    let mut t = vec![0u16; 256];
    t[b'A' as usize] = 12;
    t[b'R' as usize] = 11;
    t[b'S' as usize] = 3;
    t
}

fn message(kind: u8, len: usize, ns: u64) -> Vec<u8> {
    let mut m = vec![0u8; len];
    m[0] = kind;
    if len >= 11 {
        m[5..11].copy_from_slice(&ns.to_be_bytes()[2..]);
    }
    m
}

fn framed(parts: &[Vec<u8>]) -> Vec<u8> {
    let mut out = Vec::new();
    for p in parts {
        out.extend((p.len() as u16).to_be_bytes());
        out.extend(p);
    }
    out
}

#[test]
fn framed_messages_are_walked_one_by_one() {
    let file = framed(&[message(b'A', 12, 1), message(b'S', 3, 0), message(b'A', 5, 0)]);
    let mut w = IchWalk::new(Framing::BinaryFile, 0);
    assert_eq!(w.advance(&file, &lengths()), Step::Message(2, 14));
    assert_eq!(w.advance(&file, &lengths()), Step::Message(16, 19));
    w.ignore();
    assert_eq!(w.advance(&file, &lengths()), Step::Unknown(26));
    assert_eq!((w.skipped_unknown(), w.skipped_ignored()), (1, 1));
    assert_eq!(w.advance(&file, &lengths()), Step::Rewind);
    assert_eq!(w.bytes_consumed(), 0);
    assert_eq!(w.advance(&file, &lengths()), Step::Message(2, 14));
}

#[test]
fn zero_lengths_stop_and_cut_ends_rewind() {
    assert_eq!(next_step(&[0, 0, 1], Framing::BinaryFile, &lengths(), 0), Step::Stop);
    assert_eq!(next_step(&[0, 9, 1], Framing::BinaryFile, &lengths(), 0), Step::Rewind);
    assert_eq!(next_step(&[0], Framing::BinaryFile, &lengths(), 0), Step::Rewind);
}

#[test]
fn bare_messages_are_told_by_their_type() {
    let mut file = vec![b'?'];
    file.extend(message(b'S', 3, 0));
    file.push(b'A');
    assert_eq!(next_step(&file, Framing::Unframed, &lengths(), 0), Step::Unknown(1));
    assert_eq!(next_step(&file, Framing::Unframed, &lengths(), 1), Step::Message(1, 4));
    assert_eq!(next_step(&file, Framing::Unframed, &lengths(), 4), Step::Rewind);
}

#[test]
fn fast_forward_parks_before_the_first_late_message() {
    let file = framed(&[
        message(b'R', 11, 5),
        message(b'A', 12, 10),
        message(b'S', 3, 0),
        message(b'A', 12, 0x0102_0304_0506),
        message(b'A', 12, 0x0102_0304_0507),
    ]);
    let s = fast_forward(&file, Framing::BinaryFile, &lengths(), 0x0102_0304_0506);
    assert_eq!(s.cursor, 13 + 14 + 5);
    assert_eq!(s.scanned, 3);
    assert_eq!(s.directory, vec![(2, 13)]);
    let all = fast_forward(&file, Framing::BinaryFile, &lengths(), u64::MAX);
    assert_eq!(all.cursor, file.len());
    assert_eq!(all.scanned, 5);
}

#[test]
fn pace_counts_from_the_first_event() {
    let mut w = IchWalk::new(Framing::BinaryFile, 0);
    assert_eq!(w.pace(100), None);
    assert_eq!(w.pace(100), None);
    assert_eq!(w.pace(350), Some(250));
    assert_eq!(w.pace(50), None);
}

// ─── The whole ──────────────────────────────────────────────────────

fn feed(e: &mut Engine, ev: &Event, now_ns: u64) -> usize {
    if e.gate(ev, now_ns) == Gate::Skip {
        return 0;
    }
    assert!(e.can_apply(ev));
    let print = e.open_turn(ev);
    e.apply(ev);
    assert!(e.can_detect(ev));
    let d = e.detect(ev, QUIET);
    assert!(e.can_analyse(ev));
    e.analyse(ev, print);
    d.frames.len()
}

fn pinned() -> Engine {
    Engine::new(EngineConfig { track_instrument: Some(1), ..EngineConfig::default() }, 0)
}

#[test]
fn a_two_sided_book_makes_a_tick() {
    let mut e = pinned();
    assert!(e.tick_to_publish(0, 0, 0).is_none());
    feed(&mut e, &event(EventType::OrderAdd, Side::Bid, 10_000, 30, 1), 0);
    assert!(e.tick_to_publish(0, 0, 0).is_none());
    feed(&mut e, &event(EventType::OrderAdd, Side::Ask, 10_010, 10, 2), 0);
    assert!(e.can_tick());
    let t = e.tick_to_publish(11, 22, 33).unwrap();
    assert_eq!((t.seq, t.event_time_ns, t.process_time_ns, t.dropped_total), (2, 11, 22, 33));
    assert_eq!((t.mid_ticks, t.spread_ticks), (10_005, 10));
    assert_eq!(t.microprice_ticks, 10_007);
    assert_eq!(t.spread_bps, Fraction { num: 100_000, den: 10_005 });
    assert_eq!((t.bid_depth, t.ask_depth), (30, 10));
    assert_eq!(t.imbalance.num as f64 / t.imbalance.den as f64, 0.5);
    assert!(!t.book_crossed);
}

#[test]
fn a_crossed_book_makes_none() {
    let mut e = pinned();
    feed(&mut e, &event(EventType::OrderAdd, Side::Bid, 10_010, 1, 1), 0);
    feed(&mut e, &event(EventType::OrderAdd, Side::Ask, 10_000, 1, 2), 0);
    assert!(e.tick_to_publish(0, 0, 0).is_none());
    let t = e.build_tick(0, 0, 0);
    assert!(t.book_crossed);
    assert_eq!((t.mid_ticks, t.spread_ticks, t.microprice_ticks), (0, 0, 0));
}

#[test]
fn room_is_told_before_it_runs_out() {
    let mut e = pinned();
    feed(&mut e, &event(EventType::OrderAdd, Side::Bid, 10_000, u64::MAX - 5, 1), 0);
    assert!(e.can_apply(&event(EventType::OrderAdd, Side::Bid, 10_000, 5, 2)));
    assert!(!e.can_apply(&event(EventType::OrderAdd, Side::Bid, 10_000, 6, 2)));
    assert!(!e.can_apply(&event(EventType::OrderModify, Side::Bid, 10_000, 6, 1)));
    assert!(e.can_apply(&event(EventType::OrderAdd, Side::Bid, 9_999, u64::MAX, 2)));
    assert!(e.can_apply(&event(EventType::OrderCancel, Side::Bid, 10_000, u64::MAX, 1)));
}

#[test]
fn figures_follow_the_book() {
    let mut e = pinned();
    assert_eq!(e.vpin(), Fraction { num: 0, den: 1 });
    assert_eq!(e.blowout_ratio(), Fraction { num: 0, den: 1 });
    feed(&mut e, &event(EventType::OrderAdd, Side::Bid, 10_000, 30_000, 1), 0);
    assert_eq!(e.imbalance().num as f64 / e.imbalance().den as f64, 1.0);
    feed(&mut e, &event(EventType::OrderAdd, Side::Ask, 10_010, 30_000, 2), 0);
    assert_eq!(e.imbalance().num, 0);
    assert_eq!(e.blowout_ratio().num, e.blowout_ratio().den);
    feed(&mut e, &event(EventType::Trade, Side::Ask, 10_010, 10_000, 2), 0);
    assert_eq!(e.vpin().num, e.vpin().den);
    assert_eq!(e.imbalance().num as f64 / e.imbalance().den as f64, 0.2);
}

#[test]
fn seconds_are_summed_up() {
    let mut e = pinned();
    feed(&mut e, &event(EventType::OrderAdd, Side::Bid, 10_000, 30, 1), 0);
    feed(&mut e, &event(EventType::OrderAdd, Side::Ask, 10_010, 10, 2), 0);
    feed(&mut e, &event(EventType::Trade, Side::Ask, 10_010, 4, 2), 0);
    assert_eq!(e.roll_window(999_999_999), None);
    let r = e.roll_window(2_000_000_000).unwrap();
    assert_eq!((r.best_bid, r.best_ask, r.events_per_sec), (10_000, 10_010, 1));
    assert_eq!(r.trade_velocity, Fraction { num: 1_000_000_000, den: 2_000_000_000 });
    assert_eq!(r.mid_drift, Fraction { num: 0, den: 1 });
    feed(&mut e, &event(EventType::OrderAdd, Side::Bid, 10_006, 1, 3), 2_000_000_000);
    let s = e.roll_window(3_000_000_000).unwrap();
    assert_eq!(s.mid_drift, Fraction { num: 3, den: 10_008 });
    assert_eq!(e.mid_drift(), s.mid_drift);
    assert_eq!(s.events_per_sec, 1);
}

#[test]
fn publishing_keeps_its_pace() {
    let mut e = pinned();
    assert!(!e.tick_due(19_999_999));
    assert!(e.tick_due(20_000_000));
    assert!(!e.tick_due(39_999_999));
    assert!(e.tick_due(90_000_000));
    assert!(!e.tick_due(109_999_999));
    assert!(!e.book_due(99_999_999));
    assert!(e.book_due(100_000_000));
}

#[test]
fn a_new_lock_empties_the_book() {
    let cfg = EngineConfig { auto_lock_threshold: 1, ..EngineConfig::default() };
    let mut e = Engine::new(cfg, 0);
    assert_eq!(e.gate(&trade_of(4), 0), Gate::Locked(1));
    assert_eq!(e.followed(), Some(4));
    assert!(e.build_book().bids.is_empty());
    let mut quote = event(EventType::OrderAdd, Side::Bid, 5, 7, 1);
    quote.instrument_id = 4;
    feed(&mut e, &quote, 0);
    let b = e.build_book();
    assert_eq!((b.seq, b.bids.len(), b.asks.len()), (1, 1, 0));
    assert_eq!((b.bids[0].price_ticks, b.bids[0].qty, b.bids[0].order_count), (5, 7, 1));
    assert_eq!(e.gate(&trade_of(9), 6_000_000_000), Gate::Locked(1));
    assert!(e.build_book().bids.is_empty());
}

#[test]
fn flags_are_published_with_the_engines_number() {
    let mut e = pinned();
    feed(&mut e, &event(EventType::OrderAdd, Side::Bid, 10_000, 5_000, 42), 0);
    let mut off = event(EventType::OrderCancel, Side::Bid, 10_000, 5_000, 42);
    off.ts = 12;
    assert!(e.gate(&off, 0) == Gate::Pass);
    e.open_turn(&off);
    e.apply(&off);
    let d = e.detect(&off, QUIET);
    let kinds: Vec<ChaosKind> = d.frames.iter().map(|f| f.kind).collect();
    assert_eq!(kinds, vec![ChaosKind::Spoof, ChaosKind::PhantomLiquidity]);
    assert!(d.frames.iter().all(|f| f.seq == 2 && f.start_seq == 1 && f.end_seq == 2));
}

#[test]
fn trades_feed_the_volume_measure() {
    let cfg = EngineConfig { track_instrument: Some(1), vpin_bucket: 10, ..EngineConfig::default() };
    let mut e = Engine::new(cfg, 0);
    feed(&mut e, &event(EventType::OrderAdd, Side::Bid, 100, 50, 1), 0);
    feed(&mut e, &event(EventType::OrderAdd, Side::Ask, 110, 50, 2), 0);
    feed(&mut e, &event(EventType::Trade, Side::Ask, 110, 10, 2), 0);
    let t = e.build_tick(0, 0, 0);
    assert_eq!(t.vpin.num as f64 / t.vpin.den as f64, 1.0);
    let print = tag_trade(&event(EventType::Trade, Side::Ask, 110, 10, 2), 100, 110).unwrap();
    let f = e.trade_frame(print);
    assert_eq!((f.seq, f.ts_ns, f.price_ticks, f.qty, f.aggressor), (3, 11, 110, 10, 1));
}

#[test]
fn latencies_go_to_their_stage() {
    let mut e = pinned();
    e.note_apply(40);
    e.note_analytics(50);
    e.note_risk(60);
    e.note_wire(70);
    let l = e.build_lat();
    assert_eq!(l.parse, StageLat::default());
    assert_eq!((l.apply.max_ns, l.analytics.max_ns, l.risk.max_ns, l.wire_out.max_ns), (40, 50, 60, 70));
    assert_eq!(l.histo_apply[bin_of(40)], 1);
}

#[test]
fn risk_tells_the_limits() {
    let r = pinned().build_risk();
    assert!(!r.halted);
    assert_eq!(r.reason, None);
    assert_eq!(r.otr_ratio, Fraction { num: 0, den: 1 });
    assert_eq!(r.otr_limit, Ratio::new(100, 1));
    assert_eq!((r.position_limit, r.daily_loss_floor_ticks, r.gap_threshold), (10_000, 5_000_000_000, 16));
}

#[test]
fn bins_are_off_by_less_than_an_eighth() {
    for ns in (1..5_000u64).chain((13..23).map(|g| (1u64 << g) + 12_345 % (1u64 << g))) {
        let low = lower_ns(bin_of(ns));
        assert!(low <= ns && 8 * (ns - low) < ns);
    }
}
