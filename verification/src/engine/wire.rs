//! Telemetry: the frames that are published and how they are put on the wire.
//!
//! A message on the wire is its length in four bytes, the protocol version in
//! two, and the encoded frame; all little-endian. The length counts what comes
//! after it.

use crate::chaos::flag::{ChaosKind, Severity};
use crate::flow::circuit_breaker::HaltReason;
use crate::ratio::{Fraction, Ratio, SignedFraction};
use vstd::bytes::u32_to_le_bytes;
use vstd::prelude::*;

verus! {

/// Version of the frames.
pub const WIRE_VERSION: u16 = 2;

/// What is published.
#[derive(Debug)]
pub enum TelemetryFrame {
    /// Sent once at the beginning, and whenever another instrument is followed.
    Header(Header),
    /// The market at a glance.
    Tick(TickFrame),
    /// The best levels of both sides.
    Book(BookFrame),
    /// The counters of the risk gate.
    Risk(RiskFrame),
    /// How long the stages take.
    Lat(LatFrame),
    /// One trade.
    Trade(TradeFrame),
    /// Nothing; keeps a connection open.
    Heartbeat,
    /// A detector's flag.
    Chaos(ChaosFrame),
}

/// Where the events come from.
#[derive(Debug)]
pub struct Header {
    pub source: String,
    pub is_live: bool,
    pub started_at_ns: u64,
    pub symbol: Option<String>,
    pub instrument_id: Option<u32>,
}

/// The market at a glance. The regime and the velocity baseline are judged by
/// the reader of these figures.
#[derive(Debug, Clone, Copy, PartialEq, Eq, Structural)]
pub struct TickFrame {
    pub seq: u64,
    pub event_time_ns: u64,
    pub process_time_ns: u64,
    pub mid_ticks: i64,
    pub spread_ticks: i64,
    /// The mid weighted by the size on the other side.
    pub microprice_ticks: i64,
    /// Spread over mid, in ten-thousandths; zero without a mid.
    pub spread_bps: Fraction,
    pub bid_depth: u64,
    pub ask_depth: u64,
    pub imbalance: SignedFraction,
    pub vpin: Fraction,
    /// Trades per second.
    pub trade_velocity: Fraction,
    pub events_per_sec: u64,
    pub dropped_total: u64,
    /// The best bid is at or above the best ask.
    pub book_crossed: bool,
}

/// One level of a ladder.
#[derive(Debug, Clone, Copy, PartialEq, Eq, Structural)]
pub struct Level {
    pub price_ticks: u64,
    pub qty: u64,
    pub order_count: u32,
}

/// The best levels: bids from the highest down, asks from the lowest up.
#[derive(Debug)]
pub struct BookFrame {
    pub seq: u64,
    pub bids: Vec<Level>,
    pub asks: Vec<Level>,
}

/// The counters of the risk gate, and their limits.
#[derive(Debug, Clone, Copy, PartialEq, Eq, Structural)]
pub struct RiskFrame {
    pub halted: bool,
    pub reason: Option<HaltReason>,
    pub orders_sent: u64,
    pub trades_done: u64,
    /// Orders per trade; all orders when there was no trade.
    pub otr_ratio: Fraction,
    pub otr_limit: Ratio,
    pub net_position: i64,
    pub position_limit: i64,
    pub cash_flow_ticks: i64,
    pub daily_loss_floor_ticks: i64,
    pub gaps_in_window: usize,
    pub gap_threshold: u32,
}

/// Latency figures of one stage.
#[derive(Debug, Clone, Copy, PartialEq, Eq, Structural)]
pub struct StageLat {
    pub p50_ns: u64,
    pub p99_ns: u64,
    pub p999_ns: u64,
    pub max_ns: u64,
}

/// Nothing measured.
pub open spec fn no_lat() -> StageLat {
    StageLat { p50_ns: 0, p99_ns: 0, p999_ns: 0, max_ns: 0 }
}

impl Default for StageLat {
    fn default() -> (l: Self)
        ensures
            l == no_lat(),
    {
        StageLat { p50_ns: 0, p99_ns: 0, p999_ns: 0, max_ns: 0 }
    }
}

/// Latency figures of all stages.
#[derive(Debug)]
pub struct LatFrame {
    pub parse: StageLat,
    pub apply: StageLat,
    pub analytics: StageLat,
    pub risk: StageLat,
    pub wire_out: StageLat,
    /// Counts of the log-linear bins of the apply stage.
    pub histo_apply: Vec<u64>,
}

/// One trade. The aggressor is 1 for the buyer, -1 for the seller and 0 where
/// that is not known.
#[derive(Debug, Clone, Copy, PartialEq, Eq, Structural)]
pub struct TradeFrame {
    pub seq: u64,
    pub ts_ns: u64,
    pub price_ticks: u64,
    pub qty: u64,
    pub aggressor: i8,
}

/// A detector's flag.
#[derive(Debug, Clone, Copy, PartialEq, Eq, Structural)]
pub struct ChaosFrame {
    /// Sequence number of the event that raised it.
    pub seq: u64,
    pub kind: ChaosKind,
    pub severity: Severity,
    pub start_seq: u64,
    pub end_seq: u64,
    pub initiator: Option<u64>,
}

/// How frames are encoded.
#[derive(Debug, Clone, Copy, PartialEq, Eq, Structural)]
pub enum Codec {
    Bincode,
    Json,
}

impl Codec {
    /// The codec of a name: JSON is asked for by name, anything else is binary.
    pub fn parse(s: &str) -> (c: Self)
        ensures
            c == (if s@ == "json"@ {
                Codec::Json
            } else {
                Codec::Bincode
            }),
    {
        let name: String = s.to_owned();
        let json: String = "json".to_owned();
        if name == json {
            Codec::Json
        } else {
            Codec::Bincode
        }
    }
}

/// The label of a halt reason.
pub open spec fn halt_label(r: HaltReason) -> Seq<char> {
    match r {
        HaltReason::RateLimit => "rate_limit"@,
        HaltReason::PositionCap => "position_cap"@,
        HaltReason::DailyLossFloor => "daily_loss_floor"@,
        HaltReason::OrderToTradeRatio => "order_to_trade_ratio"@,
        HaltReason::FeedGap => "feed_gap"@,
        HaltReason::Manual => "manual"@,
    }
}

/// The label of a halt reason.
pub fn halt_reason_name(r: HaltReason) -> (s: String)
    ensures
        s@ == halt_label(r),
{
    match r {
        HaltReason::RateLimit => "rate_limit".to_owned(),
        HaltReason::PositionCap => "position_cap".to_owned(),
        HaltReason::DailyLossFloor => "daily_loss_floor".to_owned(),
        HaltReason::OrderToTradeRatio => "order_to_trade_ratio".to_owned(),
        HaltReason::FeedGap => "feed_gap".to_owned(),
        HaltReason::Manual => "manual".to_owned(),
    }
}

/// The label of a pattern.
pub open spec fn kind_label(k: ChaosKind) -> Seq<char> {
    match k {
        ChaosKind::QuoteStuff => "QuoteStuff"@,
        ChaosKind::PhantomLiquidity => "PhantomLiquidity"@,
        ChaosKind::Spoof => "Spoof"@,
        ChaosKind::CancellationStorm => "CancellationStorm"@,
        ChaosKind::MomentumIgnition => "MomentumIgnition"@,
        ChaosKind::FlashCrash => "FlashCrash"@,
        ChaosKind::LatencyArbitrage => "LatencyArbitrage"@,
    }
}

/// The label of a pattern.
pub fn chaos_kind_name(k: ChaosKind) -> (s: String)
    ensures
        s@ == kind_label(k),
{
    match k {
        ChaosKind::QuoteStuff => "QuoteStuff".to_owned(),
        ChaosKind::PhantomLiquidity => "PhantomLiquidity".to_owned(),
        ChaosKind::Spoof => "Spoof".to_owned(),
        ChaosKind::CancellationStorm => "CancellationStorm".to_owned(),
        ChaosKind::MomentumIgnition => "MomentumIgnition".to_owned(),
        ChaosKind::FlashCrash => "FlashCrash".to_owned(),
        ChaosKind::LatencyArbitrage => "LatencyArbitrage".to_owned(),
    }
}

/// The two bytes of the version, the low one first.
pub open spec fn version_bytes() -> Seq<u8> {
    seq![(WIRE_VERSION % 256) as u8, (WIRE_VERSION / 256) as u8]
}

/// A message: length, version and payload.
pub open spec fn message(payload: Seq<u8>) -> Seq<u8> {
    vstd::bytes::spec_u32_to_le_bytes((2 + payload.len()) as u32) + version_bytes() + payload
}

/// A payload whose length fits the length field.
pub open spec fn payload_fits(payload: Seq<u8>) -> bool {
    2 + payload.len() <= u32::MAX
}

/// Puts a payload into a message.
pub fn frame_message(payload: &[u8]) -> (m: Vec<u8>)
    requires
        payload_fits(payload@),
    ensures
        m@ == message(payload@),
{
    let mut m: Vec<u8> = u32_to_le_bytes(2u32 + payload.len() as u32);
    m.push((WIRE_VERSION % 256) as u8);
    m.push((WIRE_VERSION / 256) as u8);
    let ghost head = m@;
    assert(head =~= vstd::bytes::spec_u32_to_le_bytes((2 + payload@.len()) as u32) + version_bytes());
    let mut i: usize = 0;
    assert(m@ =~= head + payload@.take(0));
    while i < payload.len()
        invariant
            i <= payload@.len(),
            m@ == head + payload@.take(i as int),
        decreases payload@.len() - i,
    {
        m.push(payload[i]);
        i += 1;
        assert(m@ =~= head + payload@.take(i as int));
    }
    assert(payload@.take(i as int) =~= payload@);
    m
}

// ─── Laws ───────────────────────────────────────────────────────────

/// A reader can cut a stream of messages apart: the first four bytes say how
/// many follow, and those after the version are the payload.
pub proof fn messages_delimit_themselves(payload: Seq<u8>, rest: Seq<u8>)
    requires
        payload_fits(payload),
    ensures
        ({
            let s = message(payload) + rest;
            let len = vstd::bytes::spec_u32_from_le_bytes(s.subrange(0, 4));
            &&& len == 2 + payload.len()
            &&& s.subrange(4, 6) == version_bytes()
            &&& s.subrange(6, 4 + len) == payload
            &&& s.skip(4 + len) == rest
        }),
{
    let s = message(payload) + rest;
    let n = (2 + payload.len()) as u32;
    vstd::bytes::lemma_auto_spec_u32_to_from_le_bytes();
    assert(s.subrange(0, 4) =~= vstd::bytes::spec_u32_to_le_bytes(n));
    assert(s.subrange(4, 6) =~= version_bytes());
    assert(s.subrange(6, 4 + n) =~= payload);
    assert(s.skip(4 + n) =~= rest);
}

/// Without samples every figure is zero.
pub proof fn no_samples_no_figures()
    ensures
        no_lat().p50_ns == 0,
        no_lat().p99_ns == 0,
        no_lat().p999_ns == 0,
        no_lat().max_ns == 0,
{
}

} // verus!
