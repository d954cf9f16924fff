//! Walks a file of exchange messages.
//!
//! Messages either follow one another bare, and their type says how long they
//! are, or each has its length before it in two big-endian bytes. The walker
//! finds where messages begin and end; it does not read what they say, but for
//! the time that most of them carry in six big-endian bytes.

use vstd::prelude::*;

verus! {

/// How messages are separated.
#[derive(Debug, Clone, Copy, PartialEq, Eq, Structural)]
pub enum Framing {
    /// They are not; the type of a message tells its length.
    Unframed,
    /// The length stands before each message.
    BinaryFile,
}

/// Bytes before the time of a message.
pub const TIME_AT: usize = 5;

/// Bytes that a message has at least if it carries a time.
pub const TIMED_LEN: usize = 11;

/// The type of the messages that name an instrument.
pub const DIRECTORY: u8 = 82;

/// Two big-endian bytes.
pub open spec fn be16(s: Seq<u8>, i: int) -> int {
    s[i] * 0x100 + s[i + 1]
}

/// Six big-endian bytes.
pub open spec fn be48(s: Seq<u8>, i: int) -> int {
    be16(s, i) * 0x1_0000_0000 + be16(s, i + 2) * 0x1_0000 + be16(s, i + 4)
}

/// A length for each type; zero for a type that is not known.
pub open spec fn is_table(lengths: Seq<u16>) -> bool {
    lengths.len() == 256
}

fn read_be16(buf: &[u8], i: usize) -> (x: u64)
    requires
        i + 2 <= buf@.len(),
    ensures
        x == be16(buf@, i as int),
        x <= 0xffff,
{
    buf[i] as u64 * 0x100 + buf[i + 1] as u64
}

fn read_be48(buf: &[u8], i: usize) -> (x: u64)
    requires
        i + 6 <= buf@.len(),
    ensures
        x == be48(buf@, i as int),
{
    let len: usize = buf.len();
    assert(i + 6 <= len);
    let hi: u64 = read_be16(buf, i);
    let mid: u64 = read_be16(buf, i + 2);
    let lo: u64 = read_be16(buf, i + 4);
    hi * 0x1_0000_0000 + mid * 0x1_0000 + lo
}

/// What comes next in a file.
#[derive(Debug, Clone, Copy, PartialEq, Eq, Structural)]
pub enum Step {
    /// No whole message is left: back to where the replay begins.
    Rewind,
    /// Something that is not known, up to this place.
    Unknown(usize),
    /// A length of zero, which no message has.
    Stop,
    /// A message from here to there.
    Message(usize, usize),
}

/// What comes next, from a place in a file.
pub open spec fn walk_step(buf: Seq<u8>, framing: Framing, lengths: Seq<u16>, at: int) -> Step {
    match framing {
        Framing::Unframed => {
            let n = lengths[buf[at] as int] as int;
            if at >= buf.len() {
                Step::Rewind
            } else if n == 0 {
                Step::Unknown((at + 1) as usize)
            } else if at + n > buf.len() {
                Step::Rewind
            } else {
                Step::Message(at as usize, (at + n) as usize)
            }
        },
        Framing::BinaryFile => {
            let n = be16(buf, at);
            if at + 2 > buf.len() {
                Step::Rewind
            } else if n == 0 {
                Step::Stop
            } else if at + 2 + n > buf.len() {
                Step::Rewind
            } else if lengths[buf[at + 2] as int] != n {
                Step::Unknown((at + 2 + n) as usize)
            } else {
                Step::Message((at + 2) as usize, (at + 2 + n) as usize)
            }
        },
    }
}

/// What comes next, from a place in a file.
pub fn next_step(buf: &[u8], framing: Framing, lengths: &[u16], at: usize) -> (s: Step)
    requires
        is_table(lengths@),
        at <= buf@.len(),
    ensures
        s == walk_step(buf@, framing, lengths@, at as int),
{
    let left: usize = buf.len() - at;
    match framing {
        Framing::Unframed => {
            if left == 0 {
                return Step::Rewind;
            }
            let n: usize = lengths[buf[at] as usize] as usize;
            if n == 0 {
                Step::Unknown(at + 1)
            } else if n > left {
                Step::Rewind
            } else {
                Step::Message(at, at + n)
            }
        },
        Framing::BinaryFile => {
            if left < 2 {
                return Step::Rewind;
            }
            let n: usize = read_be16(buf, at) as usize;
            if n == 0 {
                Step::Stop
            } else if n > left - 2 {
                Step::Rewind
            } else if lengths[buf[at + 2] as usize] as usize != n {
                Step::Unknown(at + 2 + n)
            } else {
                Step::Message(at + 2, at + 2 + n)
            }
        },
    }
}

// ─── Fast-forward ───────────────────────────────────────────────────

/// What a scan finds at a place.
pub enum Found {
    /// Nothing more.
    End,
    /// One byte of no meaning.
    Noise,
    /// A message.
    Body(int, int),
}

/// What a scan finds at a place. A scan takes any type where lengths are told.
pub open spec fn scan_at(buf: Seq<u8>, framing: Framing, lengths: Seq<u16>, at: int) -> Found {
    match framing {
        Framing::Unframed => {
            let n = lengths[buf[at] as int] as int;
            if at >= buf.len() {
                Found::End
            } else if n == 0 {
                Found::Noise
            } else if at + n > buf.len() {
                Found::End
            } else {
                Found::Body(at, at + n)
            }
        },
        Framing::BinaryFile => {
            let n = be16(buf, at);
            if at + 2 > buf.len() || n == 0 || at + 2 + n > buf.len() {
                Found::End
            } else {
                Found::Body(at + 2, at + 2 + n)
            }
        },
    }
}

/// A message carries a time from `target` on.
pub open spec fn is_late(buf: Seq<u8>, start: int, end: int, target: u64) -> bool {
    end - start >= TIMED_LEN && be48(buf, start + TIME_AT) >= target
}

/// Where a scan ends: the place, the messages it passed, and those that name
/// instruments, the one it stopped at among them.
#[verifier::ext_equal]
pub struct ScanModel {
    pub at: int,
    pub passed: Seq<(int, int)>,
    pub directory: Seq<(int, int)>,
}

/// One message more that names an instrument, if it does.
pub open spec fn with_directory(buf: Seq<u8>, dir: Seq<(int, int)>, start: int, end: int) -> Seq<(int, int)> {
    if buf[start] == DIRECTORY {
        dir.push((start, end))
    } else {
        dir
    }
}

/// A scan that goes on from a place until a message is late.
pub open spec fn scan(buf: Seq<u8>, framing: Framing, lengths: Seq<u16>, target: u64, m: ScanModel) -> ScanModel
    decreases buf.len() - m.at,
{
    match scan_at(buf, framing, lengths, m.at) {
        Found::End => m,
        Found::Noise => if m.at < buf.len() {
            scan(buf, framing, lengths, target, ScanModel { at: m.at + 1, ..m })
        } else {
            m
        },
        Found::Body(start, end) => {
            let dir = with_directory(buf, m.directory, start, end);
            if is_late(buf, start, end, target) {
                ScanModel { directory: dir, ..m }
            } else if m.at < end <= buf.len() {
                scan(
                    buf,
                    framing,
                    lengths,
                    target,
                    ScanModel { at: end, passed: m.passed.push((start, end)), directory: dir },
                )
            } else {
                m
            }
        },
    }
}

/// A scan that begins.
pub open spec fn scan_start() -> ScanModel {
    ScanModel { at: 0, passed: Seq::empty(), directory: Seq::empty() }
}

/// Where a scan ended.
#[derive(Debug)]
pub struct Scan {
    /// The place to begin the replay at.
    pub cursor: usize,
    /// How many messages were passed.
    pub scanned: usize,
    /// The messages that name instruments.
    pub directory: Vec<(usize, usize)>,
}

/// Messages, as places in a file.
pub open spec fn places(s: Seq<(usize, usize)>) -> Seq<(int, int)> {
    s.map_values(|p: (usize, usize)| (p.0 as int, p.1 as int))
}

/// Finds the first message with a time from `target` on.
pub fn fast_forward(buf: &[u8], framing: Framing, lengths: &[u16], target: u64) -> (s: Scan)
    requires
        is_table(lengths@),
    ensures
        ({
            let m = scan(buf@, framing, lengths@, target, scan_start());
            &&& s.cursor == m.at
            &&& s.scanned == m.passed.len()
            &&& places(s.directory@) == m.directory
            &&& s.cursor <= buf@.len()
        }),
{
    let ghost whole = scan(buf@, framing, lengths@, target, scan_start());
    let len: usize = buf.len();
    let mut cursor: usize = 0;
    let mut scanned: usize = 0;
    let mut directory: Vec<(usize, usize)> = Vec::new();
    let mut going: bool = true;
    let ghost mut m = scan_start();
    assert(places(directory@) =~= m.directory);
    while going
        invariant
            is_table(lengths@),
            len == buf@.len(),
            cursor <= len,
            cursor == m.at,
            scanned == m.passed.len(),
            scanned <= cursor,
            places(directory@) == m.directory,
            going ==> whole == scan(buf@, framing, lengths@, target, m),
            !going ==> whole == m,
        decreases buf@.len() - cursor, (if going {
            1int
        } else {
            0int
        }),
    {
        match next_body(buf, framing, lengths, cursor) {
            None => {
                going = false;
            },
            Some((start, end)) => {
                if start == end {
                    cursor = end;
                    proof {
                        m = ScanModel { at: m.at + 1, ..m };
                    }
                } else {
                    let ghost old_dir = directory@;
                    if buf[start] == DIRECTORY {
                        directory.push((start, end));
                        assert(places(directory@) =~= places(old_dir).push((start as int, end as int)));
                    }
                    let late: bool = end - start >= TIMED_LEN && read_be48(buf, start + TIME_AT) >= target;
                    proof {
                        m = ScanModel {
                            directory: with_directory(buf@, m.directory, start as int, end as int),
                            ..m
                        };
                    }
                    if late {
                        going = false;
                    } else {
                        cursor = end;
                        scanned = scanned + 1;
                        proof {
                            m = ScanModel { at: end as int, passed: m.passed.push((start as int, end as int)), ..m };
                        }
                    }
                }
            },
        }
    }
    Scan { cursor, scanned, directory }
}

/// The message that a scan finds at a place; an empty one past a byte of no
/// meaning.
fn next_body(buf: &[u8], framing: Framing, lengths: &[u16], at: usize) -> (r: Option<(usize, usize)>)
    requires
        is_table(lengths@),
        at <= buf@.len(),
    ensures
        match scan_at(buf@, framing, lengths@, at as int) {
            Found::End => r is None,
            Found::Noise => r == Some(((at + 1) as usize, (at + 1) as usize)) && at < buf@.len(),
            Found::Body(start, end) => {
                &&& r == Some((start as usize, end as usize))
                &&& at <= start < end <= buf@.len()
                &&& at < end
            },
        },
{
    let left: usize = buf.len() - at;
    match framing {
        Framing::Unframed => {
            if left == 0 {
                return None;
            }
            let n: usize = lengths[buf[at] as usize] as usize;
            if n == 0 {
                Some((at + 1, at + 1))
            } else if n > left {
                None
            } else {
                Some((at, at + n))
            }
        },
        Framing::BinaryFile => {
            if left < 2 {
                return None;
            }
            let n: usize = read_be16(buf, at) as usize;
            if n == 0 || n > left - 2 {
                None
            } else {
                Some((at + 2, at + 2 + n))
            }
        },
    }
}

// ─── Replay ─────────────────────────────────────────────────────────

/// Where a replay stands.
pub struct WalkModel {
    pub cursor: usize,
    pub loop_start: usize,
    pub framing: Framing,
    pub skipped_unknown: u64,
    pub skipped_ignored: u64,
    /// Time of the first event since the replay last began.
    pub base_event_ns: Option<u64>,
}

/// The replay after a step.
pub open spec fn walked(w: WalkModel, s: Step) -> WalkModel {
    match s {
        Step::Rewind => WalkModel { cursor: w.loop_start, base_event_ns: None, ..w },
        Step::Unknown(to) => WalkModel {
            cursor: to,
            skipped_unknown: w.skipped_unknown.saturating_add(1),
            ..w
        },
        Step::Stop => w,
        Step::Message(_, end) => WalkModel { cursor: end, ..w },
    }
}

/// The replay after an event, and how long after the first one it came. The
/// first event sets the time to count from.
pub open spec fn paced(w: WalkModel, event_ns: u64) -> (WalkModel, Option<u64>) {
    match w.base_event_ns {
        None => (WalkModel { base_event_ns: Some(event_ns), ..w }, None),
        Some(base) => (
            w,
            if event_ns > base {
                Some((event_ns - base) as u64)
            } else {
                None
            },
        ),
    }
}

/// A replay of a file, over and over.
#[derive(Debug)]
pub struct IchWalk {
    cursor: usize,
    loop_start: usize,
    framing: Framing,
    skipped_unknown: u64,
    skipped_ignored: u64,
    base_event_ns: Option<u64>,
}

impl View for IchWalk {
    type V = WalkModel;

    closed spec fn view(&self) -> WalkModel {
        WalkModel {
            cursor: self.cursor,
            loop_start: self.loop_start,
            framing: self.framing,
            skipped_unknown: self.skipped_unknown,
            skipped_ignored: self.skipped_ignored,
            base_event_ns: self.base_event_ns,
        }
    }
}

impl IchWalk {
    /// It stands within a file of `len` bytes.
    pub open spec fn within(&self, len: nat) -> bool {
        self@.cursor <= len && self@.loop_start <= len
    }

    /// A replay that begins, and begins again, at a place.
    pub fn new(framing: Framing, start: usize) -> (w: Self)
        ensures
            w@ == (WalkModel {
                cursor: start,
                loop_start: start,
                framing,
                skipped_unknown: 0,
                skipped_ignored: 0,
                base_event_ns: None,
            }),
    {
        IchWalk {
            cursor: start,
            loop_start: start,
            framing,
            skipped_unknown: 0,
            skipped_ignored: 0,
            base_event_ns: None,
        }
    }

    /// Goes one step on.
    pub fn advance(&mut self, buf: &[u8], lengths: &[u16]) -> (s: Step)
        requires
            is_table(lengths@),
            old(self).within(buf@.len()),
        ensures
            s == walk_step(buf@, old(self)@.framing, lengths@, old(self)@.cursor as int),
            final(self)@ == walked(old(self)@, s),
            final(self).within(buf@.len()),
            s matches Step::Message(start, end) ==> start < end <= buf@.len(),
    {
        let len: usize = buf.len();
        assert(self.cursor <= len);
        let s: Step = next_step(buf, self.framing, lengths, self.cursor);
        match s {
            Step::Rewind => {
                self.cursor = self.loop_start;
                self.base_event_ns = None;
            },
            Step::Unknown(to) => {
                self.skipped_unknown = self.skipped_unknown.saturating_add(1);
                self.cursor = to;
            },
            Step::Stop => {},
            Step::Message(_, end) => {
                self.cursor = end;
            },
        }
        s
    }

    /// Counts a message that is no event.
    pub fn ignore(&mut self)
        ensures
            final(self)@ == (WalkModel {
                skipped_ignored: old(self)@.skipped_ignored.saturating_add(1),
                ..old(self)@
            }),
    {
        self.skipped_ignored = self.skipped_ignored.saturating_add(1);
    }

    /// How long after the first event this one came, if it came later.
    pub fn pace(&mut self, event_ns: u64) -> (lag: Option<u64>)
        ensures
            (final(self)@, lag) == paced(old(self)@, event_ns),
    {
        match self.base_event_ns {
            None => {
                self.base_event_ns = Some(event_ns);
                None
            },
            Some(base) => if event_ns > base {
                Some(event_ns - base)
            } else {
                None
            },
        }
    }

    /// Bytes read since the replay last began.
    pub fn bytes_consumed(&self) -> (n: u64)
        ensures
            n == self@.cursor,
    {
        self.cursor as u64
    }

    /// How often something was not known.
    pub fn skipped_unknown(&self) -> (n: u64)
        ensures
            n == self@.skipped_unknown,
    {
        self.skipped_unknown
    }

    /// How many messages were no events.
    pub fn skipped_ignored(&self) -> (n: u64)
        ensures
            n == self@.skipped_ignored,
    {
        self.skipped_ignored
    }
}

// ─── Laws ───────────────────────────────────────────────────────────

/// No message in a list is late.
pub open spec fn all_early(buf: Seq<u8>, s: Seq<(int, int)>, target: u64) -> bool {
    forall|i: int| 0 <= i < s.len() ==> !is_late(buf, (#[trigger] s[i]).0, s[i].1, target)
}

/// A scan stops at the first late message: it passed none, and where it stopped
/// there is one, or nothing more at all.
pub proof fn scan_finds_the_first(buf: Seq<u8>, framing: Framing, lengths: Seq<u16>, target: u64, m: ScanModel)
    requires
        0 <= m.at <= buf.len(),
        all_early(buf, m.passed, target),
    ensures
        ({
            let r = scan(buf, framing, lengths, target, m);
            &&& m.at <= r.at <= buf.len()
            &&& all_early(buf, r.passed, target)
            &&& match scan_at(buf, framing, lengths, r.at) {
                Found::End => true,
                Found::Noise => false,
                Found::Body(start, end) => is_late(buf, start, end, target),
            }
        }),
    decreases buf.len() - m.at,
{
    match scan_at(buf, framing, lengths, m.at) {
        Found::End => {},
        Found::Noise => {
            scan_finds_the_first(buf, framing, lengths, target, ScanModel { at: m.at + 1, ..m });
        },
        Found::Body(start, end) => {
            if !is_late(buf, start, end, target) {
                let n = ScanModel {
                    at: end,
                    passed: m.passed.push((start, end)),
                    directory: with_directory(buf, m.directory, start, end),
                };
                scan_finds_the_first(buf, framing, lengths, target, n);
            }
        },
    }
}

/// A replay never leaves its file, and every message it gives lies in it.
pub proof fn walks_stay_inside(buf: Seq<u8>, lengths: Seq<u16>, w: WalkModel)
    requires
        w.cursor <= buf.len() <= usize::MAX,
        w.loop_start <= buf.len(),
    ensures
        ({
            let s = walk_step(buf, w.framing, lengths, w.cursor as int);
            &&& walked(w, s).cursor <= buf.len()
            &&& s matches Step::Message(start, end) ==> w.cursor <= start < end <= buf.len()
        }),
{
}

/// Lengths and times are big-endian.
pub proof fn numbers_are_big_endian(s: Seq<u8>, i: int)
    ensures
        be16(s, i) == 256 * s[i] + s[i + 1],
        be48(s, i) == ((((s[i] * 256 + s[i + 1]) * 256 + s[i + 2]) * 256 + s[i + 3]) * 256 + s[i + 4]) * 256 + s[i
            + 5],
{
}

/// What a file without lengths holds at a place: a message of a known type as long as its
/// type says, if all of it is there; an unknown type is passed by one byte; and at the end,
/// or before a message that is cut off, the replay begins again.
pub proof fn unframed_files_go_by_type(buf: Seq<u8>, lengths: Seq<u16>, at: int)
    requires
        0 <= at <= buf.len() <= usize::MAX,
        lengths.len() == 256,
    ensures
        ({
            let s = walk_step(buf, Framing::Unframed, lengths, at);
            let n = lengths[buf[at] as int] as int;
            &&& at == buf.len() ==> s == Step::Rewind
            &&& at < buf.len() && n == 0 ==> s == Step::Unknown((at + 1) as usize)
            &&& at < buf.len() && 0 < n <= buf.len() - at ==> s == Step::Message(at as usize, (at + n) as usize)
            &&& at < buf.len() && n > buf.len() - at ==> s == Step::Rewind
        }),
{
}

/// What a file with lengths holds at a place: a length of two bytes and so many bytes of a
/// message. A length that its type does not have is passed as a whole, a length of zero
/// ends the file, and a cut-off message begins the replay again.
pub proof fn framed_files_go_by_length(buf: Seq<u8>, lengths: Seq<u16>, at: int)
    requires
        0 <= at <= buf.len() <= usize::MAX,
        lengths.len() == 256,
    ensures
        ({
            let s = walk_step(buf, Framing::BinaryFile, lengths, at);
            let n = 256 * buf[at] + buf[at + 1];
            let room = buf.len() - at;
            &&& room < 2 ==> s == Step::Rewind
            &&& room >= 2 && n == 0 ==> s == Step::Stop
            &&& room >= 2 && n > room - 2 ==> s == Step::Rewind
            &&& room >= 2 && 0 < n <= room - 2 && lengths[buf[at + 2] as int] == n ==> s == Step::Message(
                (at + 2) as usize,
                (at + 2 + n) as usize,
            )
            &&& room >= 2 && 0 < n <= room - 2 && lengths[buf[at + 2] as int] != n ==> s == Step::Unknown(
                (at + 2 + n) as usize,
            )
        }),
{
}

/// A message is late exactly where it is long enough to carry a time and that time, six
/// bytes from its sixth on, is at least the one asked for.
pub proof fn late_messages_carry_late_times(buf: Seq<u8>, start: int, end: int, target: u64)
    ensures
        is_late(buf, start, end, target) <==> end - start >= 11 && be48(buf, start + 5) >= target,
{
}

/// What a step does to a replay: a message or something unknown moves it on to the end of
/// that, and the unknown is counted; a rewind takes it back to where it loops, with the
/// time to count from forgotten; a stop leaves it where it is.
pub proof fn steps_move_the_replay(w: WalkModel, s: Step)
    ensures
        ({
            let n = walked(w, s);
            &&& s is Rewind ==> n.cursor == w.loop_start && n.base_event_ns is None && n.skipped_unknown
                == w.skipped_unknown
            &&& s matches Step::Message(a, b) ==> n.cursor == b && n.skipped_unknown == w.skipped_unknown
                && n.base_event_ns == w.base_event_ns
            &&& s matches Step::Unknown(b) ==> n.cursor == b && (w.skipped_unknown < u64::MAX ==> n.skipped_unknown
                == w.skipped_unknown + 1)
            &&& s is Stop ==> n == w
            &&& n.loop_start == w.loop_start
            &&& n.skipped_ignored == w.skipped_ignored
        }),
{
}

/// An event waits as long after the first one as it came after it; the first does not
/// wait, nor does one that is no later.
pub proof fn events_wait_their_time(w: WalkModel, event_ns: u64)
    ensures
        w.base_event_ns is None ==> paced(w, event_ns).1 is None && paced(w, event_ns).0.base_event_ns == Some(
            event_ns,
        ),
        w.base_event_ns matches Some(b) ==> paced(w, event_ns).0 == w && (event_ns > b ==> paced(w, event_ns).1
            == Some((event_ns - b) as u64)) && (event_ns <= b ==> paced(w, event_ns).1 is None),
{
}

/// Messages that name instruments are all listed, and nothing else is.
pub open spec fn names_listed(buf: Seq<u8>, m: ScanModel) -> bool {
    &&& forall|x: (int, int)| #[trigger] m.passed.contains(x) && buf[x.0] == 82 ==> m.directory.contains(x)
    &&& forall|x: (int, int)| #[trigger] m.directory.contains(x) ==> buf[x.0] == 82
}

proof fn lemma_listed_on(buf: Seq<u8>, m: ScanModel, start: int, end: int, at: int)
    requires
        names_listed(buf, m),
    ensures
        ({
            let dir = with_directory(buf, m.directory, start, end);
            &&& names_listed(buf, ScanModel { at, passed: m.passed.push((start, end)), directory: dir })
            &&& names_listed(buf, ScanModel { directory: dir, ..m })
            &&& buf[start] == 82 ==> dir.contains((start, end))
        }),
{
    let dir = with_directory(buf, m.directory, start, end);
    let more = m.passed.push((start, end));
    if buf[start] == 82 {
        assert(dir[m.directory.len() as int] == (start, end));
    }
    assert forall|x: (int, int)| #[trigger] dir.contains(x) implies buf[x.0] == 82 by {
        let k = choose|k: int| 0 <= k < dir.len() && dir[k] == x;
        if k < m.directory.len() {
            assert(m.directory[k] == x);
            assert(m.directory.contains(x));
        }
    }
    assert forall|x: (int, int)| m.directory.contains(x) implies #[trigger] dir.contains(x) by {
        let k = choose|k: int| 0 <= k < m.directory.len() && m.directory[k] == x;
        assert(dir[k] == x);
    }
    assert forall|x: (int, int)| #[trigger] more.contains(x) && buf[x.0] == 82 implies dir.contains(x) by {
        let k = choose|k: int| 0 <= k < more.len() && more[k] == x;
        if k < m.passed.len() {
            assert(m.passed[k] == x);
            assert(m.passed.contains(x));
        }
    }
    assert forall|x: (int, int)| #[trigger] m.passed.contains(x) && buf[x.0] == 82 implies dir.contains(x) by {
        assert(m.directory.contains(x));
    }
}

/// A scan lists every message that names an instrument, among those it passed and the one
/// it stopped at, and no other.
pub proof fn scans_list_the_directory(buf: Seq<u8>, framing: Framing, lengths: Seq<u16>, target: u64, m: ScanModel)
    requires
        0 <= m.at <= buf.len(),
        names_listed(buf, m),
    ensures
        names_listed(buf, scan(buf, framing, lengths, target, m)),
        ({
            let r = scan(buf, framing, lengths, target, m);
            scan_at(buf, framing, lengths, r.at) matches Found::Body(start, end) ==> buf[start] == 82
                ==> r.directory.contains((start, end))
        }),
    decreases buf.len() - m.at,
{
    match scan_at(buf, framing, lengths, m.at) {
        Found::End => {},
        Found::Noise => {
            let n = ScanModel { at: m.at + 1, ..m };
            scans_list_the_directory(buf, framing, lengths, target, n);
        },
        Found::Body(start, end) => {
            let n = ScanModel {
                at: end,
                passed: m.passed.push((start, end)),
                directory: with_directory(buf, m.directory, start, end),
            };
            lemma_listed_on(buf, m, start, end, end);
            if !is_late(buf, start, end, target) {
                scans_list_the_directory(buf, framing, lengths, target, n);
            }
        },
    }
}

/// A scan sees what a replay would: the same messages at the same places, and noise where
/// the replay finds something unknown; only a message of a length that its type does not
/// have is taken by a scan and passed by a replay.
pub proof fn scans_see_what_replays_see(buf: Seq<u8>, framing: Framing, lengths: Seq<u16>, at: int)
    requires
        0 <= at <= buf.len() <= usize::MAX,
        lengths.len() == 256,
    ensures
        match walk_step(buf, framing, lengths, at) {
            Step::Message(a, b) => scan_at(buf, framing, lengths, at) == Found::Body(a as int, b as int),
            Step::Unknown(b) => match framing {
                Framing::Unframed => scan_at(buf, framing, lengths, at) == Found::Noise,
                Framing::BinaryFile => scan_at(buf, framing, lengths, at) == Found::Body(at + 2, b as int),
            },
            _ => scan_at(buf, framing, lengths, at) == Found::End,
        },
{
}

/// A scan begins at the start of the file with nothing passed or listed.
pub proof fn scans_begin_at_the_start(buf: Seq<u8>)
    ensures
        scan_start().at == 0,
        scan_start().passed.len() == 0,
        scan_start().directory.len() == 0,
        names_listed(buf, scan_start()),
{
}

} // verus!
