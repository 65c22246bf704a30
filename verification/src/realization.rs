use std::str::FromStr;

use vstd::prelude::*;
use vstd::string::*;

verus! {

/// The error that parsing a member address reports.
#[verifier::external_type_specification]
#[verifier::external_body]
pub struct ExFmtError(std::fmt::Error);

/// `Default::default` for `std::fmt::Error`, a unit struct: nothing is stated of it.
pub assume_specification[ <std::fmt::Error as std::default::Default>::default ]() -> std::fmt::Error;

/// A member of the cluster as the runtime-facing API names it: an IPv4
/// address and port, written `a.b.c.d:port` with the last address byte first,
/// as a member is printed.
#[derive(Debug, Clone, Copy, PartialEq, Eq, PartialOrd, Ord)]
pub struct Member(crate::member::Member);

impl Member {
    /// The protocol core's member.
    pub fn protocol_member(&self) -> (r: crate::member::Member)
        ensures
            r == self.protocol_view(),
    {
        self.0
    }

    pub closed spec fn protocol_view(&self) -> crate::member::Member {
        self.0
    }
}

impl FromStr for Member {
    type Err = std::fmt::Error;

    /// Parses `a.b.c.d:port`, as `parse_member` does.
    fn from_str(s: &str) -> (r: Result<Self, Self::Err>)
        ensures
            r is Ok <==> is_address_text(s@),
            r matches Ok(m) ==> spells_member(s@, m.protocol_view()),
    {
        match parse_member(s) {
            Some(m) => Ok(m),
            None => Err(std::fmt::Error::default()),
        }
    }
}

pub open spec fn is_digit(c: char) -> bool {
    '0' <= c && c <= '9'
}

pub open spec fn digit_value(c: char) -> nat {
    (c as int - '0' as int) as nat
}

/// The number that the decimal digits `s` write.
pub open spec fn decimal_value(s: Seq<char>) -> nat
    decreases s.len(),
{
    if s.len() == 0 {
        0
    } else {
        decimal_value(s.drop_last()) * 10 + digit_value(s.last())
    }
}

/// `s` writes a number up to `max` in decimal, with no leading zero.
pub open spec fn is_field(s: Seq<char>, max: nat) -> bool {
    &&& s.len() >= 1
    &&& forall|i: int| 0 <= i < s.len() ==> is_digit(#[trigger] s[i])
    &&& (s.len() == 1 || s[0] != '0')
    &&& decimal_value(s) <= max
}

/// `text` is `a.b.c.d:p`, with four address bytes and a port written in decimal.
pub open spec fn address_parts(
    text: Seq<char>,
    a: Seq<char>,
    b: Seq<char>,
    c: Seq<char>,
    d: Seq<char>,
    p: Seq<char>,
) -> bool {
    &&& text == a + seq!['.'] + b + seq!['.'] + c + seq!['.'] + d + seq![':'] + p
    &&& is_field(a, 255)
    &&& is_field(b, 255)
    &&& is_field(c, 255)
    &&& is_field(d, 255)
    &&& is_field(p, 65535)
}

/// `text` is the address of a member.
pub open spec fn is_address_text(text: Seq<char>) -> bool {
    exists|a: Seq<char>, b: Seq<char>, c: Seq<char>, d: Seq<char>, p: Seq<char>|
        address_parts(text, a, b, c, d, p)
}

/// `text` is the address of member `m`, its last byte written first.
pub open spec fn spells_member(text: Seq<char>, m: crate::member::Member) -> bool {
    exists|a: Seq<char>, b: Seq<char>, c: Seq<char>, d: Seq<char>, p: Seq<char>|
        #![trigger address_parts(text, a, b, c, d, p)]
        address_parts(text, a, b, c, d, p) && m.address() == seq![
            decimal_value(d) as u8,
            decimal_value(c) as u8,
            decimal_value(b) as u8,
            decimal_value(a) as u8,
        ] && m.port_number() == decimal_value(p) as u16
}

/// `end` closes the run of digits of `s` that starts at `start`.
pub open spec fn is_run_end(s: Seq<char>, start: int, end: int) -> bool {
    &&& 0 <= start <= end <= s.len()
    &&& forall|i: int| start <= i < end ==> is_digit(#[trigger] s[i])
    &&& (end == s.len() || !is_digit(s[end]))
}

proof fn lemma_run_end_unique(s: Seq<char>, start: int, e1: int, e2: int)
    requires
        is_run_end(s, start, e1),
        is_run_end(s, start, e2),
    ensures
        e1 == e2,
{
    if e1 < e2 {
        assert(is_digit(s[e1]));
    } else if e2 < e1 {
        assert(is_digit(s[e2]));
    }
}

proof fn lemma_decimal_value_push(s: Seq<char>, c: char)
    ensures
        decimal_value(s.push(c)) == decimal_value(s) * 10 + digit_value(c),
{
    assert(s.push(c).drop_last() =~= s);
}

/// Reads the run of digits of `s` from `start`: its end, and its value where
/// it is a valid field up to `max`.
fn read_field(s: &str, n: usize, start: usize, max: u32) -> (r: (Option<u32>, usize))
    requires
        n == s@.len(),
        start <= n,
        max <= 65535,
    ensures
        is_run_end(s@, start as int, r.1 as int),
        r.0 is Some <==> is_field(s@.subrange(start as int, r.1 as int), max as nat),
        r.0 matches Some(v) ==> v as nat == decimal_value(s@.subrange(start as int, r.1 as int)),
{
    let mut i = start;
    let mut v: u32 = 0;
    let mut too_big = false;
    while i < n && is_ascii_digit(s.get_char(i))
        invariant
            start <= i <= n,
            n == s@.len(),
            max <= 65535,
            forall|j: int| start <= j < i ==> is_digit(#[trigger] s@[j]),
            !too_big ==> v as nat == decimal_value(s@.subrange(start as int, i as int)) && v <= max,
            too_big ==> decimal_value(s@.subrange(start as int, i as int)) > max,
        decreases n - i,
    {
        let c = s.get_char(i);
        let d = digit_of(c);
        proof {
            assert(s@.subrange(start as int, i as int + 1) =~= s@.subrange(start as int, i as int).push(c));
            lemma_decimal_value_push(s@.subrange(start as int, i as int), c);
        }
        if !too_big {
            let nv = v * 10 + d;
            if nv > max {
                too_big = true;
            } else {
                v = nv;
            }
        }
        i += 1;
    }
    let sub = Ghost(s@.subrange(start as int, i as int));
    if i == start || too_big || (i - start > 1 && s.get_char(start) == '0') {
        proof {
            if i > start {
                assert(sub@[0] == s@[start as int]);
            }
        }
        (None, i)
    } else {
        proof {
            assert forall|j: int| 0 <= j < sub@.len() implies is_digit(#[trigger] sub@[j]) by {
                assert(sub@[j] == s@[start + j]);
            }
            assert(sub@[0] == s@[start as int]);
        }
        (Some(v), i)
    }
}

fn is_ascii_digit(c: char) -> (r: bool)
    ensures
        r == is_digit(c),
{
    '0' <= c && c <= '9'
}

fn digit_of(c: char) -> (r: u32)
    requires
        is_digit(c),
    ensures
        r as nat == digit_value(c),
        r <= 9,
{
    (c as u32) - ('0' as u32)
}

/// Where `text` is `a.b.c.d:p`, the runs of digits end before each separator.
proof fn lemma_parts_runs(
    text: Seq<char>,
    a: Seq<char>,
    b: Seq<char>,
    c: Seq<char>,
    d: Seq<char>,
    p: Seq<char>,
)
    requires
        address_parts(text, a, b, c, d, p),
    ensures
        ({
            let e1 = a.len() as int;
            let e2 = e1 + 1 + b.len();
            let e3 = e2 + 1 + c.len();
            let e4 = e3 + 1 + d.len();
            let e5 = e4 + 1 + p.len();
            &&& text.len() == e5
            &&& is_run_end(text, 0, e1) && text.subrange(0, e1) == a && text[e1] == '.'
            &&& is_run_end(text, e1 + 1, e2) && text.subrange(e1 + 1, e2) == b && text[e2] == '.'
            &&& is_run_end(text, e2 + 1, e3) && text.subrange(e2 + 1, e3) == c && text[e3] == '.'
            &&& is_run_end(text, e3 + 1, e4) && text.subrange(e3 + 1, e4) == d && text[e4] == ':'
            &&& is_run_end(text, e4 + 1, e5) && text.subrange(e4 + 1, e5) == p
        }),
{
    let e1 = a.len() as int;
    let e2 = e1 + 1 + b.len();
    let e3 = e2 + 1 + c.len();
    let e4 = e3 + 1 + d.len();
    let e5 = e4 + 1 + p.len();
    assert(text.subrange(0, e1) =~= a);
    assert(text.subrange(e1 + 1, e2) =~= b);
    assert(text.subrange(e2 + 1, e3) =~= c);
    assert(text.subrange(e3 + 1, e4) =~= d);
    assert(text.subrange(e4 + 1, e5) =~= p);
    assert(text[e1] == '.');
    assert(text[e2] == '.');
    assert(text[e3] == '.');
    assert(text[e4] == ':');
    assert forall|i: int| 0 <= i < e1 implies is_digit(#[trigger] text[i]) by {
        assert(text[i] == a[i]);
    }
    assert forall|i: int| e1 + 1 <= i < e2 implies is_digit(#[trigger] text[i]) by {
        assert(text[i] == b[i - e1 - 1]);
    }
    assert forall|i: int| e2 + 1 <= i < e3 implies is_digit(#[trigger] text[i]) by {
        assert(text[i] == c[i - e2 - 1]);
    }
    assert forall|i: int| e3 + 1 <= i < e4 implies is_digit(#[trigger] text[i]) by {
        assert(text[i] == d[i - e3 - 1]);
    }
    assert forall|i: int| e4 + 1 <= i < e5 implies is_digit(#[trigger] text[i]) by {
        assert(text[i] == p[i - e4 - 1]);
    }
}

/// The runs of digits of `t` end at `g1` to `g4`, each followed by its
/// separator, and the last runs to the end: `t` is `a.b.c.d:p` cut there.
pub open spec fn address_at(t: Seq<char>, g1: int, g2: int, g3: int, g4: int) -> bool {
    &&& is_run_end(t, 0, g1) && is_field(t.subrange(0, g1), 255) && g1 < t.len() && t[g1] == '.'
    &&& is_run_end(t, g1 + 1, g2) && is_field(t.subrange(g1 + 1, g2), 255) && g2 < t.len() && t[g2]
        == '.'
    &&& is_run_end(t, g2 + 1, g3) && is_field(t.subrange(g2 + 1, g3), 255) && g3 < t.len() && t[g3]
        == '.'
    &&& is_run_end(t, g3 + 1, g4) && is_field(t.subrange(g3 + 1, g4), 255) && g4 < t.len() && t[g4]
        == ':'
    &&& is_run_end(t, g4 + 1, t.len() as int) && is_field(t.subrange(g4 + 1, t.len() as int), 65535)
}

proof fn lemma_positions(t: Seq<char>) -> (g: (int, int, int, int))
    requires
        is_address_text(t),
    ensures
        address_at(t, g.0, g.1, g.2, g.3),
{
    let (a, b, c, d, p) = choose|a: Seq<char>, b: Seq<char>, c: Seq<char>, d: Seq<char>, p: Seq<char>|
        address_parts(t, a, b, c, d, p);
    lemma_parts_runs(t, a, b, c, d, p);
    let g1 = a.len() as int;
    let g2 = g1 + 1 + b.len();
    let g3 = g2 + 1 + c.len();
    let g4 = g3 + 1 + d.len();
    (g1, g2, g3, g4)
}

proof fn lemma_address_at_spells(t: Seq<char>, g1: int, g2: int, g3: int, g4: int)
    requires
        address_at(t, g1, g2, g3, g4),
    ensures
        address_parts(
            t,
            t.subrange(0, g1),
            t.subrange(g1 + 1, g2),
            t.subrange(g2 + 1, g3),
            t.subrange(g3 + 1, g4),
            t.subrange(g4 + 1, t.len() as int),
        ),
        is_address_text(t),
{
    let sa = t.subrange(0, g1);
    let sb = t.subrange(g1 + 1, g2);
    let sc = t.subrange(g2 + 1, g3);
    let sd = t.subrange(g3 + 1, g4);
    let sp = t.subrange(g4 + 1, t.len() as int);
    assert(t =~= sa + seq!['.'] + sb + seq!['.'] + sc + seq!['.'] + sd + seq![':'] + sp);
    assert(address_parts(t, sa, sb, sc, sd, sp));
}

proof fn lemma_spells(t: Seq<char>, g1: int, g2: int, g3: int, g4: int, m: crate::member::Member)
    requires
        address_parts(
            t,
            t.subrange(0, g1),
            t.subrange(g1 + 1, g2),
            t.subrange(g2 + 1, g3),
            t.subrange(g3 + 1, g4),
            t.subrange(g4 + 1, t.len() as int),
        ),
        m.address() == seq![
            decimal_value(t.subrange(g3 + 1, g4)) as u8,
            decimal_value(t.subrange(g2 + 1, g3)) as u8,
            decimal_value(t.subrange(g1 + 1, g2)) as u8,
            decimal_value(t.subrange(0, g1)) as u8,
        ],
        m.port_number() == decimal_value(t.subrange(g4 + 1, t.len() as int)) as u16,
    ensures
        spells_member(t, m),
{
}

/// Parses a member address written `a.b.c.d:port`: four decimal bytes and a
/// decimal port, with no leading zeros. The text gives the address bytes last
/// first, as a member is printed, so `a.b.c.d` is the address `[d, c, b, a]`.
/// Answers `None` for any other text.
#[verifier::spinoff_prover]
pub fn parse_member(s: &str) -> (r: Option<Member>)
    ensures
        r is None <==> !is_address_text(s@),
        r matches Some(m) ==> spells_member(s@, m.protocol_view()),
{
    let n = s.unicode_len();
    let ghost t = s@;
    let (fa, e1) = read_field(s, n, 0, 255);
    if fa.is_none() || e1 >= n || s.get_char(e1) != '.' {
        proof {
            if is_address_text(t) {
                let g = lemma_positions(t);
                lemma_run_end_unique(t, 0, e1 as int, g.0);
            }
        }
        return None;
    }
    let (fb, e2) = read_field(s, n, e1 + 1, 255);
    if fb.is_none() || e2 >= n || s.get_char(e2) != '.' {
        proof {
            if is_address_text(t) {
                let g = lemma_positions(t);
                lemma_run_end_unique(t, 0, e1 as int, g.0);
                lemma_run_end_unique(t, g.0 + 1, e2 as int, g.1);
            }
        }
        return None;
    }
    let (fc, e3) = read_field(s, n, e2 + 1, 255);
    if fc.is_none() || e3 >= n || s.get_char(e3) != '.' {
        proof {
            if is_address_text(t) {
                let g = lemma_positions(t);
                lemma_run_end_unique(t, 0, e1 as int, g.0);
                lemma_run_end_unique(t, g.0 + 1, e2 as int, g.1);
                lemma_run_end_unique(t, g.1 + 1, e3 as int, g.2);
            }
        }
        return None;
    }
    let (fd, e4) = read_field(s, n, e3 + 1, 255);
    if fd.is_none() || e4 >= n || s.get_char(e4) != ':' {
        proof {
            if is_address_text(t) {
                let g = lemma_positions(t);
                lemma_run_end_unique(t, 0, e1 as int, g.0);
                lemma_run_end_unique(t, g.0 + 1, e2 as int, g.1);
                lemma_run_end_unique(t, g.1 + 1, e3 as int, g.2);
                lemma_run_end_unique(t, g.2 + 1, e4 as int, g.3);
            }
        }
        return None;
    }
    let (fp, e5) = read_field(s, n, e4 + 1, 65535);
    if fp.is_none() || e5 != n {
        proof {
            if is_address_text(t) {
                let g = lemma_positions(t);
                lemma_run_end_unique(t, 0, e1 as int, g.0);
                lemma_run_end_unique(t, g.0 + 1, e2 as int, g.1);
                lemma_run_end_unique(t, g.1 + 1, e3 as int, g.2);
                lemma_run_end_unique(t, g.2 + 1, e4 as int, g.3);
                lemma_run_end_unique(t, g.3 + 1, e5 as int, t.len() as int);
            }
        }
        return None;
    }
    let a = fa.unwrap();
    let b = fb.unwrap();
    let c = fc.unwrap();
    let d = fd.unwrap();
    let p = fp.unwrap();
    let m = crate::member::Member::new_ipv4([d as u8, c as u8, b as u8, a as u8], p as u16);
    proof {
        assert(m.address() =~= seq![d as u8, c as u8, b as u8, a as u8]);
    }
    proof {
        lemma_address_at_spells(t, e1 as int, e2 as int, e3 as int, e4 as int);
        lemma_spells(t, e1 as int, e2 as int, e3 as int, e4 as int, m);
    }
    Some(Member(m))
}

pub open spec fn digit_char(d: nat) -> char {
    if d == 0 {
        '0'
    } else if d == 1 {
        '1'
    } else if d == 2 {
        '2'
    } else if d == 3 {
        '3'
    } else if d == 4 {
        '4'
    } else if d == 5 {
        '5'
    } else if d == 6 {
        '6'
    } else if d == 7 {
        '7'
    } else if d == 8 {
        '8'
    } else {
        '9'
    }
}

/// `n` written in decimal, with no leading zero.
pub open spec fn decimal_text(n: nat) -> Seq<char>
    decreases n,
{
    if n < 10 {
        seq![digit_char(n)]
    } else {
        decimal_text(n / 10).push(digit_char(n % 10))
    }
}

/// The address of member `m`, written `a.b.c.d:port` with its last byte first,
/// as a member is printed.
pub open spec fn address_text(m: crate::member::Member) -> Seq<char> {
    decimal_text(m.address()[3] as nat) + seq!['.'] + decimal_text(m.address()[2] as nat) + seq!['.']
        + decimal_text(m.address()[1] as nat) + seq!['.'] + decimal_text(m.address()[0] as nat)
        + seq![':'] + decimal_text(m.port_number() as nat)
}

proof fn lemma_decimal_text(n: nat, max: nat)
    requires
        n <= max,
    ensures
        is_field(decimal_text(n), max),
        decimal_value(decimal_text(n)) == n,
        n >= 1 ==> decimal_text(n)[0] != '0',
    decreases n,
{
    let t = decimal_text(n);
    if n < 10 {
        assert(t.drop_last() =~= Seq::<char>::empty());
        assert(decimal_value(t) == decimal_value(t.drop_last()) * 10 + digit_value(t.last()));
    } else {
        lemma_decimal_text(n / 10, max);
        let u = decimal_text(n / 10);
        assert(t.drop_last() =~= u);
        assert(t[0] == u[0]);
        assert forall|i: int| 0 <= i < t.len() implies is_digit(#[trigger] t[i]) by {
            if i < u.len() {
                assert(t[i] == u[i]);
            }
        }
    }
}

/// Every member has an address text, which spells that member and no other.
pub proof fn law_address_round_trip(m: crate::member::Member)
    ensures
        is_address_text(address_text(m)),
        spells_member(address_text(m), m),
        forall|other: crate::member::Member|
            spells_member(address_text(m), other) ==> other == m,
{
    let a = decimal_text(m.address()[3] as nat);
    let b = decimal_text(m.address()[2] as nat);
    let c = decimal_text(m.address()[1] as nat);
    let d = decimal_text(m.address()[0] as nat);
    let p = decimal_text(m.port_number() as nat);
    lemma_decimal_text(m.address()[0] as nat, 255);
    lemma_decimal_text(m.address()[1] as nat, 255);
    lemma_decimal_text(m.address()[2] as nat, 255);
    lemma_decimal_text(m.address()[3] as nat, 255);
    lemma_decimal_text(m.port_number() as nat, 65535);
    let t = address_text(m);
    assert(address_parts(t, a, b, c, d, p));
    crate::member::Member::lemma_address_len(m);
    assert(m.address() =~= seq![
        decimal_value(d) as u8,
        decimal_value(c) as u8,
        decimal_value(b) as u8,
        decimal_value(a) as u8,
    ]);
    assert forall|other: crate::member::Member| spells_member(t, other) implies other == m by {
        lemma_spelling_unique(t, other, m);
    }
}

/// A text spells at most one member.
pub proof fn lemma_spelling_unique(t: Seq<char>, m1: crate::member::Member, m2: crate::member::Member)
    requires
        spells_member(t, m1),
        spells_member(t, m2),
    ensures
        m1 == m2,
{
    let (a1, b1, c1, d1, p1) = choose|a: Seq<char>, b: Seq<char>, c: Seq<char>, d: Seq<char>, p: Seq<char>|
        address_parts(t, a, b, c, d, p) && m1.address() == seq![
            decimal_value(d) as u8,
            decimal_value(c) as u8,
            decimal_value(b) as u8,
            decimal_value(a) as u8,
        ] && m1.port_number() == decimal_value(p) as u16;
    let (a2, b2, c2, d2, p2) = choose|a: Seq<char>, b: Seq<char>, c: Seq<char>, d: Seq<char>, p: Seq<char>|
        address_parts(t, a, b, c, d, p) && m2.address() == seq![
            decimal_value(d) as u8,
            decimal_value(c) as u8,
            decimal_value(b) as u8,
            decimal_value(a) as u8,
        ] && m2.port_number() == decimal_value(p) as u16;
    lemma_parts_runs(t, a1, b1, c1, d1, p1);
    lemma_parts_runs(t, a2, b2, c2, d2, p2);
    let g1 = a1.len() as int;
    let h1 = a2.len() as int;
    lemma_run_end_unique(t, 0, g1, h1);
    let g2 = g1 + 1 + b1.len();
    let h2 = h1 + 1 + b2.len();
    lemma_run_end_unique(t, g1 + 1, g2, h2);
    let g3 = g2 + 1 + c1.len();
    let h3 = h2 + 1 + c2.len();
    lemma_run_end_unique(t, g2 + 1, g3, h3);
    let g4 = g3 + 1 + d1.len();
    let h4 = h3 + 1 + d2.len();
    lemma_run_end_unique(t, g3 + 1, g4, h4);
    crate::member::Member::lemma_address_port_determine(m1, m2);
}

/// What a node is started with: its own address and those of its seeds.
#[derive(Debug)]
pub struct Configuration {
    pub id: Member,
    pub seeds: Vec<Member>,
}

/// What the runtime reports to the application about the cluster.
#[derive(Debug)]
pub enum Event<T> {
    MemberAlive { id: Member, data: Option<T> },
    MemberSuspected { id: Member },
    MemberDead { id: Member },
}

/// The members a node knows, as reported to the application.
#[derive(Debug, PartialEq, Eq, PartialOrd, Ord)]
pub struct MemberList {}

/// The settings that the runtime-facing builder collects, as the contracts
/// speak of them; addresses are kept as the text given.
pub struct RuntimeSettings {
    pub local: Option<Seq<char>>,
    pub seeds: Seq<Seq<char>>,
    pub k: Option<u64>,
    pub period: Option<i64>,
    pub timeout: Option<i64>,
}

/// Collects the settings of a node from addresses written as text.
#[derive(Debug, Default)]
pub struct VigieBuilder<'builder> {
    local: Option<&'builder str>,
    seeds: Vec<&'builder str>,
    k: Option<u64>,
    period: Option<i64>,
    timeout: Option<i64>,
}

impl<'builder> View for VigieBuilder<'builder> {
    type V = RuntimeSettings;

    closed spec fn view(&self) -> RuntimeSettings {
        RuntimeSettings {
            local: match self.local {
                Some(l) => Some(l@),
                None => None,
            },
            seeds: self.seeds@.map_values(|s: &str| s@),
            k: self.k,
            period: self.period,
            timeout: self.timeout,
        }
    }
}

impl<'builder> VigieBuilder<'builder> {
    /// A builder with nothing set.
    pub fn new() -> (b: Self)
        ensures
            b@ == (RuntimeSettings {
                local: None,
                seeds: Seq::empty(),
                k: None,
                period: None,
                timeout: None,
            }),
    {
        let b = VigieBuilder { local: None, seeds: Vec::new(), k: None, period: None, timeout: None };
        proof {
            assert(b@.seeds =~= Seq::<Seq<char>>::empty());
        }
        b
    }

    /// Sets the address this node answers to.
    pub fn id(self, local: &'builder str) -> (b: Self)
        ensures
            b@ == (RuntimeSettings { local: Some(local@), ..self@ }),
    {
        let mut b = self;
        b.local = Some(local);
        b
    }

    /// Adds the address of a member to contact first.
    pub fn seed(self, seed: &'builder str) -> (b: Self)
        ensures
            b@ == (RuntimeSettings { seeds: self@.seeds.push(seed@), ..self@ }),
    {
        let mut b = self;
        b.seeds.push(seed);
        proof {
            assert(b@.seeds =~= self@.seeds.push(seed@));
        }
        b
    }

    /// Sets how many members are asked to probe an unresponsive one.
    pub fn k(self, k: u64) -> (b: Self)
        ensures
            b@ == (RuntimeSettings { k: Some(k), ..self@ }),
    {
        let mut b = self;
        b.k = Some(k);
        b
    }

    /// Sets the length of a probe period, in milliseconds.
    pub fn period(self, period: i64) -> (b: Self)
        ensures
            b@ == (RuntimeSettings { period: Some(period), ..self@ }),
    {
        let mut b = self;
        b.period = Some(period);
        b
    }

    /// Sets the probe timeout, in milliseconds.
    pub fn timeout(self, timeout: i64) -> (b: Self)
        ensures
            b@ == (RuntimeSettings { timeout: Some(timeout), ..self@ }),
    {
        let mut b = self;
        b.timeout = Some(timeout);
        b
    }
}

} // verus!
