//! The names of instruments.

use vstd::prelude::*;

verus! {

/// White space, as Unicode has it: the controls from tab to carriage return and
/// next line, the space, and the spaces and separators beyond.
pub open spec fn is_blank(c: char) -> bool {
    let n = c as u32;
    ||| 0x9 <= n <= 0xd
    ||| n == 0x20
    ||| n == 0x85
    ||| n == 0xa0
    ||| n == 0x1680
    ||| 0x2000 <= n <= 0x200a
    ||| n == 0x2028
    ||| n == 0x2029
    ||| n == 0x202f
    ||| n == 0x205f
    ||| n == 0x3000
}

/// Without blanks at its front.
pub open spec fn trim_front(s: Seq<char>) -> Seq<char>
    decreases s.len(),
{
    if s.len() > 0 && is_blank(s[0]) {
        trim_front(s.drop_first())
    } else {
        s
    }
}

/// Without blanks at its end.
pub open spec fn trim_end(s: Seq<char>) -> Seq<char>
    decreases s.len(),
{
    if s.len() > 0 && is_blank(s.last()) {
        trim_end(s.drop_last())
    } else {
        s
    }
}

/// Without blanks around it.
pub open spec fn trimmed(s: Seq<char>) -> Seq<char> {
    trim_end(trim_front(s))
}

/// The number of a letter of the English alphabet in upper case, of anything else
/// as it is.
pub open spec fn upper(c: char) -> u32 {
    if 97 <= c as u32 <= 122 {
        (c as u32 - 32) as u32
    } else {
        c as u32
    }
}

/// Two names that differ in the case of English letters and blanks around them
/// alone.
pub open spec fn same_name(a: Seq<char>, b: Seq<char>) -> bool {
    let (x, y) = (trimmed(a), trimmed(b));
    x.len() == y.len() && forall|i: int| 0 <= i < x.len() ==> upper(#[trigger] x[i]) == upper(y[i])
}

/// Names with their instruments.
pub type Named = (u32, String);

/// Instruments and their names, in the order in which they came up.
pub open spec fn listed(v: Seq<Named>) -> Seq<(u32, Seq<char>)> {
    v.map_values(|p: Named| (p.0, p.1@))
}

/// The place of an instrument among the first `n`, `n` if it is not there.
pub open spec fn place(s: Seq<(u32, Seq<char>)>, id: u32, n: nat) -> nat
    decreases n,
{
    if n == 0 {
        0
    } else if place(s, id, (n - 1) as nat) < n - 1 {
        place(s, id, (n - 1) as nat)
    } else if s[n - 1].0 == id {
        (n - 1) as nat
    } else {
        n
    }
}

/// The name of an instrument.
pub open spec fn name_of(s: Seq<(u32, Seq<char>)>, id: u32) -> Option<Seq<char>> {
    if place(s, id, s.len()) < s.len() {
        Some(s[place(s, id, s.len()) as int].1)
    } else {
        None
    }
}

/// The names with one more, or with a new name for an instrument.
pub open spec fn renamed(s: Seq<(u32, Seq<char>)>, id: u32, name: Seq<char>) -> Seq<(u32, Seq<char>)> {
    if place(s, id, s.len()) < s.len() {
        s.update(place(s, id, s.len()) as int, (id, name))
    } else {
        s.push((id, name))
    }
}

proof fn lemma_place(s: Seq<(u32, Seq<char>)>, id: u32, n: nat)
    requires
        n <= s.len(),
    ensures
        place(s, id, n) <= n,
        place(s, id, n) < n ==> s[place(s, id, n) as int].0 == id,
        forall|i: int| 0 <= i < place(s, id, n) ==> (#[trigger] s[i]).0 != id,
    decreases n,
{
    if n > 0 {
        lemma_place(s, id, (n - 1) as nat);
    }
}

/// The names of instruments.
#[derive(Debug)]
pub struct SymbolTable {
    names: Vec<Named>,
}

impl View for SymbolTable {
    type V = Seq<(u32, Seq<char>)>;

    closed spec fn view(&self) -> Seq<(u32, Seq<char>)> {
        listed(self.names@)
    }
}

impl SymbolTable {
    /// No names.
    pub fn new() -> (t: Self)
        ensures
            t@ == Seq::<(u32, Seq<char>)>::empty(),
    {
        let t = SymbolTable { names: Vec::new() };
        assert(t@ =~= Seq::<(u32, Seq<char>)>::empty());
        t
    }

    fn position(&self, id: u32) -> (i: usize)
        ensures
            i == place(self@, id, self@.len()),
            i <= self@.len(),
            self@.len() == self.names@.len(),
    {
        let mut i: usize = 0;
        while i < self.names.len()
            invariant
                i <= self.names@.len(),
                place(self@, id, i as nat) == i,
                self@ == listed(self.names@),
            decreases self.names@.len() - i,
        {
            if self.names[i].0 == id {
                proof {
                    lemma_found(self@, id, i as nat);
                }
                return i;
            }
            i += 1;
        }
        i
    }

    /// Names an instrument.
    pub fn insert(&mut self, id: u32, name: String)
        ensures
            final(self)@ == renamed(old(self)@, id, name@),
    {
        let ghost before = self@;
        let i: usize = self.position(id);
        if i < self.names.len() {
            self.names.set(i, (id, name));
            assert(self@ =~= before.update(i as int, (id, name@)));
        } else {
            self.names.push((id, name));
            assert(self@ =~= before.push((id, name@)));
        }
    }

    /// The name of an instrument.
    pub fn symbol_of(&self, id: u32) -> (r: Option<&str>)
        ensures
            r is Some <==> name_of(self@, id) is Some,
            r matches Some(n) ==> n@ == name_of(self@, id)->0,
    {
        let i: usize = self.position(id);
        if i < self.names.len() {
            Some(self.names[i].1.as_str())
        } else {
            None
        }
    }

    /// An instrument of a name, whatever its case and the blanks around it; the
    /// one that came up first where there are several.
    pub fn locate_of(&self, ticker: &str) -> (r: Option<u32>)
        ensures
            match r {
                None => forall|i: int| 0 <= i < self@.len() ==> !same_name((#[trigger] self@[i]).1, ticker@),
                Some(id) => exists|i: int|
                    {
                        &&& 0 <= i < self@.len()
                        &&& (#[trigger] self@[i]).0 == id
                        &&& same_name(self@[i].1, ticker@)
                        &&& forall|j: int| 0 <= j < i ==> !same_name((#[trigger] self@[j]).1, ticker@)
                    },
            },
    {
        let wanted: Vec<char> = chars_of(ticker);
        let mut i: usize = 0;
        while i < self.names.len()
            invariant
                i <= self.names@.len(),
                wanted@ == ticker@,
                self@ == listed(self.names@),
                forall|j: int| 0 <= j < i ==> !same_name((#[trigger] self@[j]).1, ticker@),
            decreases self.names@.len() - i,
        {
            assert(self@[i as int] == (self.names@[i as int].0, self.names@[i as int].1@));
            let name: Vec<char> = chars_of(self.names[i].1.as_str());
            if matches_name(name.as_slice(), wanted.as_slice()) {
                return Some(self.names[i].0);
            }
            i += 1;
        }
        None
    }
}

proof fn lemma_found(s: Seq<(u32, Seq<char>)>, id: u32, i: nat)
    requires
        i < s.len(),
        place(s, id, i) == i,
        s[i as int].0 == id,
    ensures
        place(s, id, s.len()) == i,
{
    lemma_place_kept(s, id, i, s.len());
}

proof fn lemma_place_kept(s: Seq<(u32, Seq<char>)>, id: u32, i: nat, n: nat)
    requires
        i < n <= s.len(),
        place(s, id, i) == i,
        s[i as int].0 == id,
    ensures
        place(s, id, n) == i,
    decreases n,
{
    if n > i + 1 {
        lemma_place_kept(s, id, i, (n - 1) as nat);
    }
}

/// The characters of a text.
fn chars_of(s: &str) -> (v: Vec<char>)
    ensures
        v@ == s@,
{
    let n: usize = s.unicode_len();
    let mut v: Vec<char> = Vec::new();
    let mut i: usize = 0;
    while i < n
        invariant
            n == s@.len(),
            i <= n,
            v@ =~= s@.take(i as int),
        decreases n - i,
    {
        v.push(s.get_char(i));
        i += 1;
    }
    assert(s@.take(n as int) =~= s@);
    v
}

fn blank(c: char) -> (b: bool)
    ensures
        b == is_blank(c),
{
    let n: u32 = c as u32;
    (0x9 <= n && n <= 0xd) || n == 0x20 || n == 0x85 || n == 0xa0 || n == 0x1680 || (0x2000 <= n && n
        <= 0x200a) || n == 0x2028 || n == 0x2029 || n == 0x202f || n == 0x205f || n == 0x3000
}

/// Where a name begins and ends without the blanks around it.
fn core_of(s: &[char]) -> (r: (usize, usize))
    ensures
        r.0 <= r.1 <= s@.len(),
        s@.subrange(r.0 as int, r.1 as int) == trimmed(s@),
{
    let mut lo: usize = 0;
    let len: usize = s.len();
    assert(s@.skip(0) =~= s@);
    while lo < len && blank(s[lo])
        invariant
            len == s@.len(),
            lo <= len,
            trim_front(s@.skip(lo as int)) == trim_front(s@),
        decreases len - lo,
    {
        assert(s@.skip(lo as int).drop_first() =~= s@.skip(lo + 1));
        lo += 1;
    }
    let ghost front = s@.skip(lo as int);
    let mut hi: usize = len;
    assert(s@.subrange(lo as int, hi as int) =~= front);
    while hi > lo && blank(s[hi - 1])
        invariant
            len == s@.len(),
            lo <= hi <= len,
            trim_end(s@.subrange(lo as int, hi as int)) == trim_end(front),
        decreases hi,
    {
        assert(s@.subrange(lo as int, hi as int).drop_last() =~= s@.subrange(lo as int, hi - 1));
        hi -= 1;
    }
    (lo, hi)
}

fn to_upper(c: char) -> (u: u32)
    ensures
        u == upper(c),
{
    let n: u32 = c as u32;
    if 97 <= n && n <= 122 {
        n - 32
    } else {
        n
    }
}

/// Whether two names differ in case and blanks around them alone.
fn matches_name(a: &[char], b: &[char]) -> (r: bool)
    ensures
        r == same_name(a@, b@),
{
    let (al, ah): (usize, usize) = core_of(a);
    let (bl, bh): (usize, usize) = core_of(b);
    let ghost x = trimmed(a@);
    let ghost y = trimmed(b@);
    if ah - al != bh - bl {
        return false;
    }
    let n: usize = ah - al;
    let mut i: usize = 0;
    while i < n
        invariant
            i <= n,
            al + n == ah <= a@.len(),
            bl + n == bh <= b@.len(),
            x == a@.subrange(al as int, ah as int),
            y == b@.subrange(bl as int, bh as int),
            x == trimmed(a@),
            y == trimmed(b@),
            forall|j: int| 0 <= j < i ==> upper(#[trigger] x[j]) == upper(y[j]),
        decreases n - i,
    {
        assert(x[i as int] == a@[al + i] && y[i as int] == b@[bl + i]);
        if to_upper(a[al + i]) != to_upper(b[bl + i]) {
            return false;
        }
        i += 1;
    }
    true
}

// ─── Laws ───────────────────────────────────────────────────────────

/// A name that was given is the name that is found, and the others stay.
pub proof fn names_are_kept(s: Seq<(u32, Seq<char>)>, id: u32, name: Seq<char>, other: u32)
    ensures
        name_of(renamed(s, id, name), id) == Some(name),
        other != id ==> name_of(renamed(s, id, name), other) == name_of(s, other),
{
    let t = renamed(s, id, name);
    lemma_place(s, id, s.len());
    lemma_place(t, id, t.len());
    lemma_place(s, other, s.len());
    lemma_place(t, other, t.len());
    let k = place(s, id, s.len()) as int;
    assert(t[k] == (id, name));
    if place(t, id, t.len()) > k {
        assert(t[k].0 != id);
    }
    if place(t, id, t.len()) < k {
        assert(s[place(t, id, t.len()) as int].0 != id);
    }
    if other != id {
        let (p, q) = (place(s, other, s.len()) as int, place(t, other, t.len()) as int);
        if p < s.len() {
            assert(t[p] == s[p]);
            if q > p {
                assert(t[p].0 != other);
            }
        }
        if q < t.len() {
            assert(t[q].0 == other);
            assert(s[q] == t[q]);
            if p > q {
                assert(s[q].0 != other);
            }
        }
    }
}

/// Trimming cuts blanks from both ends and nothing else: what is left stands in the name
/// as it is, neither begins nor ends with a blank, and all before and after it is blank.
pub proof fn trimming_cuts_blanks_only(s: Seq<char>) -> (r: (int, int))
    ensures
        0 <= r.0 <= r.1 <= s.len(),
        trimmed(s) == s.subrange(r.0, r.1),
        r.0 < r.1 ==> !is_blank(s[r.0]) && !is_blank(s[r.1 - 1]),
        forall|i: int| 0 <= i < s.len() && (i < r.0 || i >= r.1) ==> is_blank(#[trigger] s[i]),
{
    let a = lemma_front(s);
    let f = s.skip(a);
    let b = lemma_end(f);
    assert(f.take(b) =~= s.subrange(a, a + b));
    assert forall|i: int| 0 <= i < s.len() && (i < a || i >= a + b) implies is_blank(#[trigger] s[i]) by {
        if i >= a + b {
            assert(f[i - a] == s[i]);
        }
    }
    if b > 0 {
        assert(f[b - 1] == s[a + b - 1]);
        if a < s.len() {
            assert(f[0] == s[a]);
        }
    }
    (a, a + b)
}

proof fn lemma_front(s: Seq<char>) -> (a: int)
    ensures
        0 <= a <= s.len(),
        trim_front(s) == s.skip(a),
        forall|i: int| 0 <= i < a ==> is_blank(#[trigger] s[i]),
        a < s.len() ==> !is_blank(s[a]),
    decreases s.len(),
{
    if s.len() > 0 && is_blank(s[0]) {
        let d = s.drop_first();
        let a = lemma_front(d);
        assert(d.skip(a) =~= s.skip(a + 1));
        assert forall|i: int| 0 <= i < a + 1 implies is_blank(#[trigger] s[i]) by {
            if i > 0 {
                assert(d[i - 1] == s[i]);
            }
        }
        if a + 1 < s.len() {
            assert(d[a] == s[a + 1]);
        }
        a + 1
    } else {
        assert(s.skip(0) =~= s);
        0
    }
}

proof fn lemma_end(s: Seq<char>) -> (b: int)
    ensures
        0 <= b <= s.len(),
        trim_end(s) == s.take(b),
        forall|i: int| b <= i < s.len() ==> is_blank(#[trigger] s[i]),
        b > 0 ==> !is_blank(s[b - 1]),
    decreases s.len(),
{
    if s.len() > 0 && is_blank(s.last()) {
        let d = s.drop_last();
        let b = lemma_end(d);
        assert(d.take(b) =~= s.take(b));
        assert forall|i: int| b <= i < s.len() implies is_blank(#[trigger] s[i]) by {
            if i < d.len() {
                assert(d[i] == s[i]);
            }
        }
        b
    } else {
        assert(s.take(s.len() as int) =~= s);
        s.len() as int
    }
}

/// Letters of the English alphabet are the same in both cases, and no other characters
/// are the same as another.
pub proof fn case_is_that_of_english_letters(a: char, b: char)
    ensures
        upper(a) == upper(b) <==> a == b || (65 <= a as u32 <= 90 && b as u32 == a as u32 + 32) || (65 <= b as u32
            <= 90 && a as u32 == b as u32 + 32),
{
}

/// An instrument has a name exactly where it is listed, and that is the name it is listed
/// with first.
pub proof fn names_are_looked_up(s: Seq<(u32, Seq<char>)>, id: u32)
    ensures
        name_of(s, id) is Some <==> exists|i: int| 0 <= i < s.len() && (#[trigger] s[i]).0 == id,
        name_of(s, id) matches Some(n) ==> exists|i: int|
            0 <= i < s.len() && (#[trigger] s[i]) == (id, n) && forall|j: int| 0 <= j < i ==> (#[trigger] s[j]).0
                != id,
{
    lemma_place(s, id, s.len());
    let k = place(s, id, s.len()) as int;
    if k < s.len() {
        assert(s[k] == (id, s[k].1));
    }
}

} // verus!
