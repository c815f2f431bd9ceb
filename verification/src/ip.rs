//! IP addresses and socket addresses, with their textual forms.
//!
//! The text forms follow the standard library's: an IPv4 address is four
//! decimal octets without superfluous leading zeros; an IPv6 address is eight
//! groups of one to four hexadecimal digits, at most one `::` standing for one
//! or more zero groups, and possibly a dotted IPv4 address for the last two
//! groups.
use vstd::prelude::*;
use crate::text::{
    all_digits, all_hex_digits, canonical_dec, contains_char, dec_text, dec_value, digit_char,
    digit_value, first_pair_index, hex_char, hex_digit_value, hex_text, hex_value, is_digit,
    is_hex_digit, join_with, lemma_canonical_dec, lemma_dec_text, lemma_dec_value_bounds,
    lemma_dec_value_leading, lemma_first_pair_index_unique, lemma_hex_text,
    lemma_hex_value_bounds, lemma_join_split, lemma_split_join, lemma_split_single, push_char, split_on, split_ranges,
};

verus! {

// ---------------------------------------------------------------------------
// Types
// ---------------------------------------------------------------------------

/// An IPv4 address, octets in network order.
#[derive(Clone, Copy, Debug, PartialEq, Eq, Structural)]
pub struct Ipv4Addr {
    pub a: u8,
    pub b: u8,
    pub c: u8,
    pub d: u8,
}

/// An IPv6 address, its eight 16-bit groups in network order.
#[derive(Clone, Copy, Debug, PartialEq, Eq, Structural)]
pub struct Ipv6Addr {
    pub s0: u16,
    pub s1: u16,
    pub s2: u16,
    pub s3: u16,
    pub s4: u16,
    pub s5: u16,
    pub s6: u16,
    pub s7: u16,
}

/// An IPv4 or IPv6 address.
#[derive(Clone, Copy, Debug, PartialEq, Eq, Structural)]
pub enum IpAddr {
    V4(Ipv4Addr),
    V6(Ipv6Addr),
}

/// An IP address and a port.
#[derive(Clone, Copy, Debug, PartialEq, Eq, Structural)]
pub struct SocketAddr {
    pub ip: IpAddr,
    pub port: u16,
}

impl Ipv4Addr {
    pub fn new(a: u8, b: u8, c: u8, d: u8) -> (r: Ipv4Addr)
        ensures
            r == (Ipv4Addr { a, b, c, d }),
    {
        Ipv4Addr { a, b, c, d }
    }

    pub open spec fn octet_seq(self) -> Seq<u8> {
        seq![self.a, self.b, self.c, self.d]
    }

    pub fn octets(&self) -> (r: [u8; 4])
        ensures
            r@ == self.octet_seq(),
    {
        let r = [self.a, self.b, self.c, self.d];
        assert(r@ =~= self.octet_seq());
        r
    }

    /// The high 16 bits, as an IPv6 group.
    pub open spec fn high_group(self) -> u16 {
        (self.a as int * 256 + self.b as int) as u16
    }

    /// The low 16 bits, as an IPv6 group.
    pub open spec fn low_group(self) -> u16 {
        (self.c as int * 256 + self.d as int) as u16
    }

    /// The dotted-decimal form, as the standard library prints it.
    pub fn to_string(&self) -> (r: String)
        ensures
            r@ == ipv4_text(*self),
    {
        let mut s = String::new();
        push_dec(&mut s, self.a as u32);
        push_char(&mut s, '.');
        push_dec(&mut s, self.b as u32);
        push_char(&mut s, '.');
        push_dec(&mut s, self.c as u32);
        push_char(&mut s, '.');
        push_dec(&mut s, self.d as u32);
        proof {
            lemma_join4(ipv4_pieces(*self), '.');
        }
        s
    }
}

impl Ipv6Addr {
    pub fn new(s0: u16, s1: u16, s2: u16, s3: u16, s4: u16, s5: u16, s6: u16, s7: u16) -> (r:
        Ipv6Addr)
        ensures
            r == (Ipv6Addr { s0, s1, s2, s3, s4, s5, s6, s7 }),
    {
        Ipv6Addr { s0, s1, s2, s3, s4, s5, s6, s7 }
    }

    pub open spec fn segs(self) -> Seq<u16> {
        seq![self.s0, self.s1, self.s2, self.s3, self.s4, self.s5, self.s6, self.s7]
    }

    pub open spec fn from_segs(g: Seq<u16>) -> Ipv6Addr {
        Ipv6Addr { s0: g[0], s1: g[1], s2: g[2], s3: g[3], s4: g[4], s5: g[5], s6: g[6], s7: g[7] }
    }

    pub fn segments(&self) -> (r: [u16; 8])
        ensures
            r@ == self.segs(),
    {
        let r = [self.s0, self.s1, self.s2, self.s3, self.s4, self.s5, self.s6, self.s7];
        assert(r@ =~= self.segs());
        r
    }

    fn from_vec(g: &Vec<u16>) -> (r: Ipv6Addr)
        requires
            g@.len() == 8,
        ensures
            r == Ipv6Addr::from_segs(g@),
    {
        Ipv6Addr {
            s0: g[0],
            s1: g[1],
            s2: g[2],
            s3: g[3],
            s4: g[4],
            s5: g[5],
            s6: g[6],
            s7: g[7],
        }
    }

    /// The IPv4 address of an IPv4-mapped address `::ffff:a.b.c.d`.
    pub fn to_ipv4_mapped(&self) -> (r: Option<Ipv4Addr>)
        ensures
            r == ipv4_mapped(*self),
    {
        if self.s0 == 0 && self.s1 == 0 && self.s2 == 0 && self.s3 == 0 && self.s4 == 0 && self.s5
            == 0xffff {
            Some(
                Ipv4Addr {
                    a: (self.s6 / 256) as u8,
                    b: (self.s6 % 256) as u8,
                    c: (self.s7 / 256) as u8,
                    d: (self.s7 % 256) as u8,
                },
            )
        } else {
            None
        }
    }

    /// The text form, as the standard library prints it: lower-case groups
    /// without leading zeros, the first longest run of two or more zero groups
    /// written `::`, and an IPv4-mapped address as `::ffff:a.b.c.d`.
    pub fn to_string(&self) -> (r: String)
        ensures
            r@ == ipv6_text(*self),
    {
        let mut s = String::new();
        match self.to_ipv4_mapped() {
            Some(v4) => {
                push_char(&mut s, ':');
                push_char(&mut s, ':');
                push_char(&mut s, 'f');
                push_char(&mut s, 'f');
                push_char(&mut s, 'f');
                push_char(&mut s, 'f');
                push_char(&mut s, ':');
                let t = v4.to_string();
                push_all(&mut s, &t);
                assert(s@ =~= seq![':', ':', 'f', 'f', 'f', 'f', ':'] + ipv4_text(v4));
            },
            None => {
                let g = self.segments();
                let (start, len) = zero_span_exec(&g);
                if len > 1 {
                    push_hex_groups(&mut s, &g, 0, start);
                    push_char(&mut s, ':');
                    push_char(&mut s, ':');
                    push_hex_groups(&mut s, &g, start + len, 8);
                    assert(g@.subrange(0, start as int) =~= g@.take(start as int));
                    assert(g@.subrange(start + len, 8) =~= g@.skip(start + len));
                    assert(s@ =~= hex_join(g@.take(start as int)) + seq![':', ':'] + hex_join(
                        g@.skip(start + len),
                    ));
                } else {
                    push_hex_groups(&mut s, &g, 0, 8);
                    assert(g@.subrange(0, 8) =~= g@);
                }
            },
        }
        s
    }
}

impl IpAddr {
    pub fn is_ipv4(&self) -> (r: bool)
        ensures
            r == (*self is V4),
    {
        match self {
            IpAddr::V4(_) => true,
            IpAddr::V6(_) => false,
        }
    }

    pub fn is_ipv6(&self) -> (r: bool)
        ensures
            r == (*self is V6),
    {
        match self {
            IpAddr::V4(_) => false,
            IpAddr::V6(_) => true,
        }
    }

    /// The text form of either family.
    pub fn to_string(&self) -> (r: String)
        ensures
            r@ == ip_text(*self),
    {
        match self {
            IpAddr::V4(a) => a.to_string(),
            IpAddr::V6(a) => a.to_string(),
        }
    }
}

impl SocketAddr {
    pub fn new(ip: IpAddr, port: u16) -> (r: SocketAddr)
        ensures
            r.ip == ip,
            r.port == port,
    {
        SocketAddr { ip, port }
    }

    pub fn ip(&self) -> (r: IpAddr)
        ensures
            r == self.ip,
    {
        self.ip
    }

    pub fn port(&self) -> (r: u16)
        ensures
            r == self.port,
    {
        self.port
    }
}

// ---------------------------------------------------------------------------
// Text forms
// ---------------------------------------------------------------------------

pub open spec fn ipv4_pieces(a: Ipv4Addr) -> Seq<Seq<char>> {
    seq![dec_text(a.a as nat), dec_text(a.b as nat), dec_text(a.c as nat), dec_text(a.d as nat)]
}

/// The dotted-decimal text of an IPv4 address.
pub open spec fn ipv4_text(a: Ipv4Addr) -> Seq<char> {
    join_with(ipv4_pieces(a), '.')
}

/// A decimal octet: a numeral without superfluous leading zero, at most 255.
pub open spec fn octet_piece(s: Seq<char>) -> Option<u8> {
    if canonical_dec(s) && dec_value(s) <= 255 {
        Some(dec_value(s) as u8)
    } else {
        None
    }
}

/// What `Ipv4Addr::from_str` accepts, and the address it gives.
pub open spec fn spec_parse_ipv4(s: Seq<char>) -> Option<Ipv4Addr> {
    let ps = split_on(s, '.');
    if ps.len() == 4 && octet_piece(ps[0]) is Some && octet_piece(ps[1]) is Some && octet_piece(
        ps[2],
    ) is Some && octet_piece(ps[3]) is Some {
        Some(
            Ipv4Addr {
                a: octet_piece(ps[0])->0,
                b: octet_piece(ps[1])->0,
                c: octet_piece(ps[2])->0,
                d: octet_piece(ps[3])->0,
            },
        )
    } else {
        None
    }
}

/// A group of an IPv6 address: one to four hexadecimal digits of either case.
pub open spec fn hex_piece(s: Seq<char>) -> Option<u16> {
    if 1 <= s.len() <= 4 && all_hex_digits(s) {
        Some(hex_value(s) as u16)
    } else {
        None
    }
}

pub open spec fn all_hex_pieces(ps: Seq<Seq<char>>, n: int) -> bool {
    forall|i: int| 0 <= i < n ==> #[trigger] hex_piece(ps[i]) is Some
}

pub open spec fn hex_piece_values(ps: Seq<Seq<char>>, n: int) -> Seq<u16> {
    Seq::new(n as nat, |i: int| hex_piece(ps[i])->0)
}

/// The groups that a list of pieces stands for: all hexadecimal groups, or,
/// where `v4_last`, hexadecimal groups followed by a dotted IPv4 address that
/// stands for two groups.
pub open spec fn group_values(ps: Seq<Seq<char>>, v4_last: bool) -> Option<Seq<u16>> {
    if all_hex_pieces(ps, ps.len() as int) {
        Some(hex_piece_values(ps, ps.len() as int))
    } else if v4_last && ps.len() >= 1 && all_hex_pieces(ps, ps.len() - 1) && spec_parse_ipv4(
        ps.last(),
    ) is Some {
        let v = spec_parse_ipv4(ps.last())->0;
        Some(hex_piece_values(ps, ps.len() - 1) + seq![v.high_group(), v.low_group()])
    } else {
        None
    }
}

/// The `:`-separated pieces of `s`; none for the empty text.
pub open spec fn colon_pieces(s: Seq<char>) -> Seq<Seq<char>> {
    if s.len() == 0 {
        Seq::<Seq<char>>::empty()
    } else {
        split_on(s, ':')
    }
}

/// What `Ipv6Addr::from_str` accepts, and the address it gives.
pub open spec fn spec_parse_ipv6(s: Seq<char>) -> Option<Ipv6Addr> {
    let k = first_pair_index(s, ':');
    if k < 0 {
        let g = group_values(split_on(s, ':'), true);
        if g is Some && g->0.len() == 8 {
            Some(Ipv6Addr::from_segs(g->0))
        } else {
            None
        }
    } else {
        let h = group_values(colon_pieces(s.subrange(0, k)), false);
        let t = group_values(colon_pieces(s.subrange(k + 2, s.len() as int)), true);
        if h is Some && t is Some && h->0.len() + t->0.len() <= 7 {
            let zeros = Seq::new((8 - h->0.len() - t->0.len()) as nat, |i: int| 0u16);
            Some(Ipv6Addr::from_segs(h->0 + zeros + t->0))
        } else {
            None
        }
    }
}

/// What `IpAddr::from_str` accepts: either family.
pub open spec fn spec_parse_ip(s: Seq<char>) -> Option<IpAddr> {
    match spec_parse_ipv4(s) {
        Some(a) => Some(IpAddr::V4(a)),
        None => match spec_parse_ipv6(s) {
            Some(a) => Some(IpAddr::V6(a)),
            None => None,
        },
    }
}

/// What `u16::from_str` accepts: an optional `+` and at least one decimal
/// digit, of value at most 65535 (leading zeros allowed).
pub open spec fn spec_parse_u16(s: Seq<char>) -> Option<u16> {
    let digits = if s.len() > 0 && s[0] == '+' {
        s.drop_first()
    } else {
        s
    };
    if digits.len() > 0 && all_digits(digits) && dec_value(digits) <= 65535 {
        Some(dec_value(digits) as u16)
    } else {
        None
    }
}

pub open spec fn ipv4_mapped(a: Ipv6Addr) -> Option<Ipv4Addr> {
    if a.s0 == 0 && a.s1 == 0 && a.s2 == 0 && a.s3 == 0 && a.s4 == 0 && a.s5 == 0xffff {
        Some(
            Ipv4Addr {
                a: (a.s6 / 256) as u8,
                b: (a.s6 % 256) as u8,
                c: (a.s7 / 256) as u8,
                d: (a.s7 % 256) as u8,
            },
        )
    } else {
        None
    }
}

/// Groups printed in lower-case hexadecimal, `:` between them.
pub open spec fn hex_join(g: Seq<u16>) -> Seq<char> {
    join_with(Seq::new(g.len(), |i: int| hex_text(g[i] as nat)), ':')
}

/// The first longest run of zero groups among the first `n` groups, and the
/// run of zeros that ends at group `n`: `(start, len, run_start, run_len)`.
pub open spec fn zero_runs(g: Seq<u16>, n: int) -> (int, int, int, int)
    decreases n,
{
    if n <= 0 {
        (0, 0, 0, 0)
    } else {
        let (ls, ll, cs, cl) = zero_runs(g, n - 1);
        if g[n - 1] == 0 {
            let s = if cl == 0 {
                n - 1
            } else {
                cs
            };
            if cl + 1 > ll {
                (s, cl + 1, s, cl + 1)
            } else {
                (ls, ll, s, cl + 1)
            }
        } else {
            (ls, ll, 0, 0)
        }
    }
}

/// The first longest run of zero groups: `(start, len)`.
pub open spec fn zero_span(g: Seq<u16>) -> (int, int) {
    let r = zero_runs(g, g.len() as int);
    (r.0, r.1)
}

/// The text of an IPv6 address, as the standard library prints it.
pub open spec fn ipv6_text(a: Ipv6Addr) -> Seq<char> {
    match ipv4_mapped(a) {
        Some(v4) => seq![':', ':', 'f', 'f', 'f', 'f', ':'] + ipv4_text(v4),
        None => {
            let g = a.segs();
            let (st, len) = zero_span(g);
            if len > 1 {
                hex_join(g.take(st)) + seq![':', ':'] + hex_join(g.skip(st + len))
            } else {
                hex_join(g)
            }
        },
    }
}

pub open spec fn ip_text(a: IpAddr) -> Seq<char> {
    match a {
        IpAddr::V4(v) => ipv4_text(v),
        IpAddr::V6(v) => ipv6_text(v),
    }
}

// ---------------------------------------------------------------------------
// Laws of the text forms
// ---------------------------------------------------------------------------

proof fn lemma_join4(ps: Seq<Seq<char>>, c: char)
    requires
        ps.len() == 4,
    ensures
        join_with(ps, c) == ps[0] + seq![c] + ps[1] + seq![c] + ps[2] + seq![c] + ps[3],
{
    let p3 = ps.drop_last();
    let p2 = p3.drop_last();
    let p1 = p2.drop_last();
    assert(join_with(p1, c) == ps[0]);
    assert(join_with(p2, c) =~= ps[0] + seq![c] + ps[1]);
    assert(join_with(p3, c) =~= ps[0] + seq![c] + ps[1] + seq![c] + ps[2]);
    assert(join_with(ps, c) =~= ps[0] + seq![c] + ps[1] + seq![c] + ps[2] + seq![c] + ps[3]);
}

proof fn lemma_octet_text(n: u8)
    ensures
        octet_piece(dec_text(n as nat)) == Some(n),
        !contains_char(dec_text(n as nat), '.'),
{
    lemma_dec_text(n as nat);
}

/// An IPv4 text is read back as the address it was printed from, and the
/// only text read as an address is the one printed from it.
pub proof fn law_ipv4_text_roundtrip(s: Seq<char>, a: Ipv4Addr)
    ensures
        spec_parse_ipv4(s) == Some(a) <==> s == ipv4_text(a),
{
    let ps = ipv4_pieces(a);
    lemma_octet_text(a.a);
    lemma_octet_text(a.b);
    lemma_octet_text(a.c);
    lemma_octet_text(a.d);
    assert forall|i: int| 0 <= i < ps.len() implies !contains_char(#[trigger] ps[i], '.') by {
        if i == 0 {
        } else if i == 1 {
        } else if i == 2 {
        } else {
        }
    }
    lemma_split_join(ps, '.');
    if s == ipv4_text(a) {
        assert(split_on(s, '.') == ps);
    }
    if spec_parse_ipv4(s) == Some(a) {
        let qs = split_on(s, '.');
        lemma_canonical_dec(qs[0]);
        lemma_canonical_dec(qs[1]);
        lemma_canonical_dec(qs[2]);
        lemma_canonical_dec(qs[3]);
        lemma_dec_value_bounds(qs[0]);
        lemma_dec_value_bounds(qs[1]);
        lemma_dec_value_bounds(qs[2]);
        lemma_dec_value_bounds(qs[3]);
        assert(qs[0] == ps[0]);
        assert(qs[1] == ps[1]);
        assert(qs[2] == ps[2]);
        assert(qs[3] == ps[3]);
        assert(qs =~= ps);
        lemma_join_split(s, '.');
    }
}

/// The facts of a join of nonempty pieces free of the separator: it starts
/// and ends with a piece's character, and never holds two separators in a
/// row.
proof fn lemma_join_facts(ps: Seq<Seq<char>>, c: char)
    requires
        ps.len() >= 1,
        forall|i: int| 0 <= i < ps.len() ==> (#[trigger] ps[i]).len() >= 1 && !contains_char(ps[i], c),
    ensures
        join_with(ps, c).len() >= 1,
        join_with(ps, c)[0] != c,
        join_with(ps, c).last() != c,
        forall|j: int|
            0 <= j < join_with(ps, c).len() - 1 ==> !(#[trigger] join_with(ps, c)[j] == c
                && join_with(ps, c)[j + 1] == c),
    decreases ps.len(),
{
    let s = join_with(ps, c);
    if ps.len() == 1 {
        assert(s == ps[0]);
        assert(ps[0][0] != c);
        assert(ps[0][ps[0].len() - 1] != c);
        assert forall|j: int| 0 <= j < s.len() - 1 implies !(#[trigger] s[j] == c && s[j + 1] == c) by {
            assert(ps[0][j] != c);
        }
    } else {
        let init = ps.drop_last();
        assert forall|i: int| 0 <= i < init.len() implies (#[trigger] init[i]).len() >= 1
            && !contains_char(init[i], c) by {
            assert(init[i] == ps[i]);
        }
        lemma_join_facts(init, c);
        let t = join_with(init, c);
        let p = ps.last();
        assert(p == ps[ps.len() - 1]);
        assert(s == t.push(c) + p);
        assert(p[p.len() - 1] != c);
        assert(s[0] == t[0]);
        assert(s.last() == p.last());
        assert forall|j: int| 0 <= j < s.len() - 1 implies !(#[trigger] s[j] == c && s[j + 1] == c) by {
            if j + 1 < t.len() {
                assert(s[j] == t[j] && s[j + 1] == t[j + 1]);
            } else if j + 1 == t.len() {
                assert(s[j] == t.last());
            } else if j == t.len() {
                assert(s[j + 1] == p[0]);
            } else {
                assert(s[j] == p[j - t.len() - 1]);
            }
        }
    }
}

/// A join of pieces free of a character other than the separator is free
/// of it too.
proof fn lemma_join_free(ps: Seq<Seq<char>>, c: char, d: char)
    requires
        c != d,
        forall|i: int| 0 <= i < ps.len() ==> !contains_char(#[trigger] ps[i], d),
    ensures
        !contains_char(join_with(ps, c), d),
    decreases ps.len(),
{
    if ps.len() == 1 {
        assert(!contains_char(ps[0], d));
    } else if ps.len() > 1 {
        let init = ps.drop_last();
        assert forall|i: int| 0 <= i < init.len() implies !contains_char(#[trigger] init[i], d) by {
            assert(init[i] == ps[i]);
        }
        lemma_join_free(init, c, d);
        let t = join_with(init, c);
        let p = ps.last();
        assert(!contains_char(p, d)) by {
            assert(p == ps[ps.len() - 1]);
        }
        let s = join_with(ps, c);
        assert(s == t.push(c) + p);
        if contains_char(s, d) {
            let j = choose|j: int| 0 <= j < s.len() && s[j] == d;
            if j < t.len() {
                assert(t[j] == d);
            } else if j > t.len() {
                assert(p[j - t.len() - 1] == d);
            }
        }
    }
}

/// The dotted text of an IPv4 address has more than four characters and no
/// colon.
pub proof fn lemma_ipv4_text_shape(a: Ipv4Addr)
    ensures
        ipv4_text(a).len() >= 7,
        !contains_char(ipv4_text(a), ':'),
        hex_piece(ipv4_text(a)) is None,
{
    let ps = ipv4_pieces(a);
    lemma_dec_text(a.a as nat);
    lemma_dec_text(a.b as nat);
    lemma_dec_text(a.c as nat);
    lemma_dec_text(a.d as nat);
    lemma_join4(ps, '.');
    assert forall|i: int| 0 <= i < ps.len() implies !contains_char(#[trigger] ps[i], ':') by {
        if i == 0 {
        } else if i == 1 {
        } else if i == 2 {
        } else {
        }
    }
    lemma_join_free(ps, '.', ':');
}

/// A group printed in hexadecimal reads back as the group.
proof fn lemma_hex_group_text(x: u16)
    ensures
        hex_piece(hex_text(x as nat)) == Some(x),
        hex_text(x as nat).len() >= 1,
        !contains_char(hex_text(x as nat), ':'),
{
    lemma_hex_text(x as nat);
}

pub open spec fn hex_pieces(g: Seq<u16>) -> Seq<Seq<char>> {
    Seq::new(g.len(), |i: int| hex_text(g[i] as nat))
}

/// Groups printed and joined with colons read back as the groups.
proof fn lemma_hex_join_read(g: Seq<u16>, v4_last: bool)
    ensures
        group_values(colon_pieces(hex_join(g)), v4_last) == Some(g),
        g.len() >= 1 ==> hex_join(g).len() >= 1 && hex_join(g)[0] != ':' && hex_join(g).last()
            != ':',
        g.len() >= 1 ==> forall|j: int|
            0 <= j < hex_join(g).len() - 1 ==> !(#[trigger] hex_join(g)[j] == ':' && hex_join(
                g,
            )[j + 1] == ':'),
        g.len() == 0 ==> hex_join(g).len() == 0,
{
    let ps = hex_pieces(g);
    assert(hex_join(g) == join_with(ps, ':'));
    assert forall|i: int| 0 <= i < ps.len() implies (#[trigger] ps[i]).len() >= 1
        && !contains_char(ps[i], ':') && hex_piece(ps[i]) == Some(g[i]) by {
        lemma_hex_group_text(g[i]);
    }
    if g.len() == 0 {
        assert(colon_pieces(hex_join(g)) =~= Seq::<Seq<char>>::empty());
        assert(hex_piece_values(Seq::<Seq<char>>::empty(), 0) =~= g);
    } else {
        lemma_join_facts(ps, ':');
        lemma_split_join(ps, ':');
        assert(colon_pieces(hex_join(g)) == ps);
        assert(all_hex_pieces(ps, ps.len() as int));
        assert(hex_piece_values(ps, ps.len() as int) =~= g);
    }
}

/// The groups of a run that `zero_runs` reports are zero.
proof fn lemma_zero_runs(g: Seq<u16>, n: int)
    requires
        0 <= n <= g.len(),
    ensures
        ({
            let (ls, ll, cs, cl) = zero_runs(g, n);
            &&& 0 <= ls && 0 <= ll && ls + ll <= n
            &&& forall|k: int| ls <= k < ls + ll ==> g[k] == 0
            &&& 0 <= cl && (cl == 0 || (0 <= cs && cs + cl == n))
            &&& forall|k: int| cs <= k < cs + cl ==> g[k] == 0
        }),
    decreases n,
{
    if n > 0 {
        lemma_zero_runs(g, n - 1);
    }
}

proof fn lemma_mapped_roundtrip(a: Ipv6Addr, v4: Ipv4Addr)
    requires
        ipv4_mapped(a) == Some(v4),
    ensures
        spec_parse_ipv6(ipv6_text(a)) == Some(a),
{
    let g = a.segs();
    let s = ipv6_text(a);
    let t4 = ipv4_text(v4);
    lemma_ipv4_text_shape(v4);
    law_ipv4_text_roundtrip(t4, v4);
    let ffff = seq!['f', 'f', 'f', 'f'];
    assert(s =~= seq![':', ':'] + (ffff.push(':') + t4));
    assert(first_pair_index(s, ':') == 0);
    let tail = s.subrange(2, s.len() as int);
    assert(tail =~= ffff.push(':') + t4);
    let ps = seq![ffff, t4];
    assert(join_with(ps, ':') =~= tail) by {
        assert(ps.drop_last() =~= seq![ffff]);
        assert(join_with(seq![ffff], ':') == ffff);
        assert(ps.last() == t4);
    }
    assert(!contains_char(ffff, ':'));
    assert forall|i: int| 0 <= i < ps.len() implies !contains_char(#[trigger] ps[i], ':') by {
        if i == 0 {
        } else {
        }
    }
    lemma_split_join(ps, ':');
    assert(colon_pieces(tail) == ps);
    assert(s.subrange(0, 0) =~= Seq::<char>::empty());
    assert(colon_pieces(s.subrange(0, 0)) =~= Seq::<Seq<char>>::empty());
    assert(group_values(Seq::<Seq<char>>::empty(), false) == Some(Seq::<u16>::empty())) by {
        assert(hex_piece_values(Seq::<Seq<char>>::empty(), 0) =~= Seq::<u16>::empty());
    }
    assert(all_hex_digits(ffff)) by {
        assert forall|i: int| 0 <= i < ffff.len() implies is_hex_digit(#[trigger] ffff[i]) by {
        }
    }
    assert(hex_value(ffff) == 0xffff) by {
        let f1 = seq!['f'];
        let f2 = seq!['f', 'f'];
        let f3 = seq!['f', 'f', 'f'];
        crate::text::lemma_dec_value_single('f');
        assert(hex_value(f1) == 15);
        assert(f2.drop_last() =~= f1);
        assert(hex_value(f2) == 255);
        assert(f3.drop_last() =~= f2);
        assert(hex_value(f3) == 0xfff);
        assert(ffff.drop_last() =~= f3);
    }
    assert(hex_piece(ps[0]) == Some(0xffffu16));
    assert(!all_hex_pieces(ps, 2));
    assert(all_hex_pieces(ps, 1));
    assert(ps.last() == t4);
    let tv = hex_piece_values(ps, 1) + seq![v4.high_group(), v4.low_group()];
    assert(group_values(ps, true) == Some(tv));
    assert(v4.high_group() == a.s6 && v4.low_group() == a.s7) by (nonlinear_arith)
        requires
            v4.a == (a.s6 / 256) as u8,
            v4.b == (a.s6 % 256) as u8,
            v4.c == (a.s7 / 256) as u8,
            v4.d == (a.s7 % 256) as u8,
    ;
    let zeros = Seq::new(5, |i: int| 0u16);
    assert(Seq::<u16>::empty() + zeros + tv =~= g);
}

proof fn lemma_compressed_roundtrip(a: Ipv6Addr)
    requires
        ipv4_mapped(a) is None,
        zero_span(a.segs()).1 > 1,
    ensures
        spec_parse_ipv6(ipv6_text(a)) == Some(a),
{
    let g = a.segs();
    let s = ipv6_text(a);
    let (st, len) = zero_span(g);
    lemma_zero_runs(g, 8);
    let hg = g.take(st);
    let tg = g.skip(st + len);
    let h = hex_join(hg);
    let t = hex_join(tg);
    assert(s == h + seq![':', ':'] + t);
    lemma_hex_join_read(hg, false);
    lemma_hex_join_read(tg, true);
    // the first `::` is the one between the two halves
    assert forall|j: int|
        0 <= j < s.len() - 1 && j < h.len() implies !(#[trigger] s[j] == ':' && s[j + 1] == ':') by {
        assert(s[j] == h[j]);
        if j + 1 < h.len() {
            assert(s[j + 1] == h[j + 1]);
        } else {
            assert(h[j] == h.last());
        }
    }
    lemma_first_pair_index_unique(s, ':', h.len() as int);
    assert(s.subrange(0, h.len() as int) =~= h);
    assert(s.subrange(h.len() as int + 2, s.len() as int) =~= t);
    let zeros = Seq::new((8 - hg.len() - tg.len()) as nat, |i: int| 0u16);
    assert(hg + zeros + tg =~= g);
    assert(Ipv6Addr::from_segs(g) == a);
}

proof fn lemma_plain_roundtrip(a: Ipv6Addr)
    requires
        ipv4_mapped(a) is None,
        zero_span(a.segs()).1 <= 1,
    ensures
        spec_parse_ipv6(ipv6_text(a)) == Some(a),
{
    let g = a.segs();
    let s = ipv6_text(a);
    lemma_hex_join_read(g, true);
    assert(s == hex_join(g));
    lemma_first_pair_index_unique(s, ':', -1);
    assert(colon_pieces(s) == split_on(s, ':'));
    assert(Ipv6Addr::from_segs(g) == a);
}

/// Printing an IPv6 address and reading the text back gives the address.
pub proof fn law_ipv6_text_roundtrip(a: Ipv6Addr)
    ensures
        spec_parse_ipv6(ipv6_text(a)) == Some(a),
{
    match ipv4_mapped(a) {
        Some(v4) => lemma_mapped_roundtrip(a, v4),
        None => {
            if zero_span(a.segs()).1 > 1 {
                lemma_compressed_roundtrip(a);
            } else {
                lemma_plain_roundtrip(a);
            }
        },
    }
}

/// Every character of a join satisfies `p` where the separator and every
/// piece's characters do.
proof fn lemma_join_chars(ps: Seq<Seq<char>>, c: char, p: spec_fn(char) -> bool)
    requires
        p(c),
        forall|i: int, j: int| 0 <= i < ps.len() && 0 <= j < ps[i].len() ==> p(#[trigger] ps[i][j]),
    ensures
        forall|j: int| 0 <= j < join_with(ps, c).len() ==> p(#[trigger] join_with(ps, c)[j]),
    decreases ps.len(),
{
    if ps.len() == 1 {
        assert forall|j: int| 0 <= j < join_with(ps, c).len() implies p(
            #[trigger] join_with(ps, c)[j],
        ) by {
            assert(join_with(ps, c)[j] == ps[0][j]);
        }
    } else if ps.len() > 1 {
        let init = ps.drop_last();
        assert forall|i: int, j: int| 0 <= i < init.len() && 0 <= j < init[i].len() implies p(
            #[trigger] init[i][j],
        ) by {
            assert(init[i] == ps[i]);
        }
        lemma_join_chars(init, c, p);
        let t = join_with(init, c);
        let l = ps.last();
        let s = join_with(ps, c);
        assert(s == t.push(c) + l);
        assert forall|j: int| 0 <= j < s.len() implies p(#[trigger] s[j]) by {
            if j < t.len() {
                assert(s[j] == t[j]);
            } else if j > t.len() {
                assert(s[j] == l[j - t.len() - 1]);
                assert(l == ps[ps.len() - 1]);
            }
        }
    }
}

/// A character of an IPv6 text.
pub open spec fn ipv6_text_char(c: char) -> bool {
    is_hex_digit(c) || c == ':' || c == '.'
}

pub proof fn lemma_ipv4_text_chars(v: Ipv4Addr)
    ensures
        forall|j: int| 0 <= j < ipv4_text(v).len() ==> is_digit(#[trigger] ipv4_text(v)[j]) || ipv4_text(v)[j] == '.',
{
    let ps = ipv4_pieces(v);
    lemma_dec_text(v.a as nat);
    lemma_dec_text(v.b as nat);
    lemma_dec_text(v.c as nat);
    lemma_dec_text(v.d as nat);
    let p = |c: char| is_digit(c) || c == '.';
    assert forall|i: int, j: int| 0 <= i < ps.len() && 0 <= j < ps[i].len() implies p(
        #[trigger] ps[i][j],
    ) by {
        assert(is_digit(ps[i][j]));
    }
    lemma_join_chars(ps, '.', p);
}

proof fn lemma_hex_join_chars(g: Seq<u16>)
    ensures
        forall|j: int| 0 <= j < hex_join(g).len() ==> ipv6_text_char(#[trigger] hex_join(g)[j]),
        g.len() >= 2 ==> contains_char(hex_join(g), ':'),
{
    let ps = hex_pieces(g);
    assert(hex_join(g) == join_with(ps, ':'));
    let p = |c: char| ipv6_text_char(c);
    assert forall|i: int, j: int| 0 <= i < ps.len() && 0 <= j < ps[i].len() implies p(
        #[trigger] ps[i][j],
    ) by {
        lemma_hex_text(g[i] as nat);
        assert(is_hex_digit(ps[i][j]));
    }
    lemma_join_chars(ps, ':', p);
    if g.len() >= 2 {
        let t = join_with(ps.drop_last(), ':');
        assert(join_with(ps, ':') == t.push(':') + ps.last());
        assert(join_with(ps, ':')[t.len() as int] == ':');
    }
}

/// The text of an IPv6 address holds only hexadecimal digits, colons and
/// dots, and at least one colon.
pub proof fn lemma_ipv6_text_chars(a: Ipv6Addr)
    ensures
        forall|j: int| 0 <= j < ipv6_text(a).len() ==> ipv6_text_char(#[trigger] ipv6_text(a)[j]),
        contains_char(ipv6_text(a), ':'),
{
    let g = a.segs();
    let s = ipv6_text(a);
    match ipv4_mapped(a) {
        Some(v4) => {
            lemma_ipv4_text_chars(v4);
            let pre = seq![':', ':', 'f', 'f', 'f', 'f', ':'];
            assert(s == pre + ipv4_text(v4));
            assert forall|j: int| 0 <= j < s.len() implies ipv6_text_char(#[trigger] s[j]) by {
                if j >= pre.len() {
                    assert(s[j] == ipv4_text(v4)[j - pre.len()]);
                }
            }
            assert(s[0] == ':');
        },
        None => {
            let (st, len) = zero_span(g);
            lemma_zero_runs(g, 8);
            if len > 1 {
                let h = hex_join(g.take(st));
                let t = hex_join(g.skip(st + len));
                lemma_hex_join_chars(g.take(st));
                lemma_hex_join_chars(g.skip(st + len));
                assert(s == h + seq![':', ':'] + t);
                assert forall|j: int| 0 <= j < s.len() implies ipv6_text_char(#[trigger] s[j]) by {
                    if j < h.len() {
                        assert(s[j] == h[j]);
                    } else if j >= h.len() + 2 {
                        assert(s[j] == t[j - h.len() - 2]);
                    }
                }
                assert(s[h.len() as int] == ':');
            } else {
                lemma_hex_join_chars(g);
            }
        },
    }
}

/// Printing an IP address of either family and reading the text back gives
/// the address.
pub proof fn law_ip_text_roundtrip(a: IpAddr)
    ensures
        spec_parse_ip(ip_text(a)) == Some(a),
{
    match a {
        IpAddr::V4(v) => {
            law_ipv4_text_roundtrip(ipv4_text(v), v);
        },
        IpAddr::V6(v) => {
            law_ipv6_text_roundtrip(v);
            lemma_ipv6_text_chars(v);
            let s = ipv6_text(v);
            if spec_parse_ipv4(s) is Some {
                let w = spec_parse_ipv4(s)->0;
                law_ipv4_text_roundtrip(s, w);
                lemma_ipv4_text_shape(w);
            }
        },
    }
}

/// The shortest numeral of a port reads back as the port.
pub proof fn law_port_text_roundtrip(p: u16)
    ensures
        spec_parse_u16(dec_text(p as nat)) == Some(p),
        forall|j: int| 0 <= j < dec_text(p as nat).len() ==> is_digit(#[trigger] dec_text(p as nat)[j]),
{
    lemma_dec_text(p as nat);
    let t = dec_text(p as nat);
    assert(t[0] != '+') by {
        assert(is_digit(t[0]));
    }
}

// ---------------------------------------------------------------------------
// Laws of reading, over every text
// ---------------------------------------------------------------------------

/// Any one to four hexadecimal digits, of either case and with or without
/// leading zeros, are a group of an IPv6 address: the number they write.
pub proof fn law_hex_group(g: Seq<char>)
    requires
        1 <= g.len() <= 4,
        all_hex_digits(g),
    ensures
        hex_value(g) < 0x10000,
        hex_piece(g) == Some(hex_value(g) as u16),
{
    lemma_hex_value_bounds(g);
}

/// Hexadecimal digits are free of any character that is not one.
proof fn lemma_hex_free(p: Seq<char>, c: char)
    requires
        all_hex_digits(p),
        !is_hex_digit(c),
    ensures
        !contains_char(p, c),
{
    if contains_char(p, c) {
        let j = choose|j: int| 0 <= j < p.len() && p[j] == c;
        assert(is_hex_digit(p[j]));
    }
}

/// Eight groups of one to four hexadecimal digits each (either case, leading
/// zeros allowed) joined by colons read as the IPv6 address whose groups are
/// the numbers they write, whichever family is tried first.
pub proof fn law_eight_groups_read(gs: Seq<Seq<char>>)
    requires
        gs.len() == 8,
        forall|i: int| 0 <= i < 8 ==> 1 <= (#[trigger] gs[i]).len() <= 4 && all_hex_digits(gs[i]),
    ensures
        spec_parse_ipv6(join_with(gs, ':')) == Some(
            Ipv6Addr::from_segs(Seq::new(8, |i: int| hex_value(gs[i]) as u16)),
        ),
        spec_parse_ip(join_with(gs, ':')) == Some(
            IpAddr::V6(Ipv6Addr::from_segs(Seq::new(8, |i: int| hex_value(gs[i]) as u16))),
        ),
{
    let s = join_with(gs, ':');
    let vals = Seq::new(8, |i: int| hex_value(gs[i]) as u16);
    assert forall|i: int| 0 <= i < gs.len() implies (#[trigger] gs[i]).len() >= 1 && !contains_char(
        gs[i],
        ':',
    ) && !contains_char(gs[i], '.') && hex_piece(gs[i]) == Some(vals[i]) by {
        lemma_hex_free(gs[i], ':');
        lemma_hex_free(gs[i], '.');
        law_hex_group(gs[i]);
    }
    lemma_join_facts(gs, ':');
    lemma_first_pair_index_unique(s, ':', -1);
    lemma_split_join(gs, ':');
    assert(all_hex_pieces(gs, 8));
    assert(hex_piece_values(gs, 8) =~= vals);
    assert(group_values(split_on(s, ':'), true) == Some(vals));
    lemma_join_free(gs, ':', '.');
    lemma_split_single(s, '.');
    assert(spec_parse_ipv4(s) is None);
}

/// A dotted IPv4 text holds no `]`.
proof fn lemma_ipv4_read_free(s: Seq<char>)
    requires
        spec_parse_ipv4(s) is Some,
    ensures
        !contains_char(s, ']'),
{
    let ps = split_on(s, '.');
    assert forall|i: int| 0 <= i < ps.len() implies !contains_char(#[trigger] ps[i], ']') by {
        assert(octet_piece(ps[i]) is Some) by {
            if i == 0 {
            } else if i == 1 {
            } else if i == 2 {
            } else {
            }
        }
        assert(all_digits(ps[i]));
        if contains_char(ps[i], ']') {
            let j = choose|j: int| 0 <= j < ps[i].len() && ps[i][j] == ']';
            assert(is_digit(ps[i][j]));
        }
    }
    lemma_join_free(ps, '.', ']');
    lemma_join_split(s, '.');
}

/// Colon-separated groups (the last possibly a dotted IPv4 address) hold no
/// `]`.
proof fn lemma_groups_read_free(s: Seq<char>, v4_last: bool)
    requires
        group_values(colon_pieces(s), v4_last) is Some,
    ensures
        !contains_char(s, ']'),
{
    if s.len() > 0 {
        let ps = split_on(s, ':');
        assert(colon_pieces(s) == ps);
        assert forall|i: int| 0 <= i < ps.len() implies !contains_char(#[trigger] ps[i], ']') by {
            if all_hex_pieces(ps, ps.len() as int) || i < ps.len() - 1 {
                assert(hex_piece(ps[i]) is Some);
                lemma_hex_free(ps[i], ']');
            } else {
                assert(ps[i] == ps.last());
                lemma_ipv4_read_free(ps[i]);
            }
        }
        lemma_join_free(ps, ':', ']');
        lemma_join_split(s, ':');
    }
}

/// A text read as an IP address of either family holds no `]`.
pub proof fn lemma_ip_read_free(s: Seq<char>)
    requires
        spec_parse_ip(s) is Some,
    ensures
        !contains_char(s, ']'),
{
    if spec_parse_ipv4(s) is Some {
        lemma_ipv4_read_free(s);
    } else {
        let k = first_pair_index(s, ':');
        crate::text::lemma_first_pair_index(s, ':');
        if k < 0 {
            if s.len() > 0 {
                assert(colon_pieces(s) == split_on(s, ':'));
                lemma_groups_read_free(s, true);
            }
        } else {
            let a = s.subrange(0, k);
            let b = s.subrange(k + 2, s.len() as int);
            lemma_groups_read_free(a, false);
            lemma_groups_read_free(b, true);
            if contains_char(s, ']') {
                let j = choose|j: int| 0 <= j < s.len() && s[j] == ']';
                if j < k {
                    assert(a[j] == s[j]);
                } else if j >= k + 2 {
                    assert(b[j - k - 2] == s[j]);
                }
            }
        }
    }
}

// ---------------------------------------------------------------------------
// Reading
// ---------------------------------------------------------------------------

fn is_digit_exec(c: char) -> (r: bool)
    ensures
        r == is_digit(c),
{
    '0' <= c && c <= '9'
}

fn digit_exec(c: char) -> (r: u32)
    requires
        is_digit(c),
    ensures
        r == digit_value(c),
        r < 10,
{
    (c as u32) - ('0' as u32)
}

fn hex_digit_exec(c: char) -> (r: Option<u32>)
    ensures
        r is Some <==> is_hex_digit(c),
        r is Some ==> r->0 == hex_digit_value(c) && r->0 < 16,
{
    if '0' <= c && c <= '9' {
        Some((c as u32) - ('0' as u32))
    } else if 'a' <= c && c <= 'f' {
        Some((c as u32) - ('a' as u32) + 10)
    } else if 'A' <= c && c <= 'F' {
        Some((c as u32) - ('A' as u32) + 10)
    } else {
        None
    }
}

/// Reads a decimal octet `cs[lo..hi]`.
fn parse_octet(cs: &Vec<char>, lo: usize, hi: usize) -> (r: Option<u8>)
    requires
        lo <= hi <= cs@.len(),
    ensures
        r == octet_piece(cs@.subrange(lo as int, hi as int)),
{
    let ghost s = cs@.subrange(lo as int, hi as int);
    if lo == hi {
        return None;
    }
    if cs[lo] == '0' && hi - lo > 1 {
        assert(s[0] == '0');
        return None;
    }
    if hi - lo > 3 {
        proof {
            if canonical_dec(s) {
                lemma_dec_value_leading(s);
            }
        }
        return None;
    }
    let mut v: u32 = 0;
    let mut i = lo;
    while i < hi
        invariant
            lo <= i <= hi <= cs@.len(),
            hi - lo <= 3,
            s == cs@.subrange(lo as int, hi as int),
            all_digits(cs@.subrange(lo as int, i as int)),
            v == dec_value(cs@.subrange(lo as int, i as int)),
            i - lo == 0 ==> v == 0,
            i - lo == 1 ==> v < 10,
            i - lo == 2 ==> v < 100,
            i - lo == 3 ==> v < 1000,
        decreases hi - i,
    {
        let ghost prefix = cs@.subrange(lo as int, i as int);
        let ghost next = cs@.subrange(lo as int, i + 1);
        assert(next.drop_last() =~= prefix);
        assert(next.last() == cs@[i as int]);
        if !is_digit_exec(cs[i]) {
            assert(s[i - lo] == cs@[i as int]);
            return None;
        }
        let d = digit_exec(cs[i]);
        v = v * 10 + d;
        i = i + 1;
        assert forall|j: int| 0 <= j < next.len() implies is_digit(#[trigger] next[j]) by {
            if j < prefix.len() {
                assert(next[j] == prefix[j]);
            }
        }
    }
    assert(cs@.subrange(lo as int, i as int) =~= s);
    if v > 255 {
        None
    } else {
        Some(v as u8)
    }
}

/// Reads a hexadecimal group `cs[lo..hi]`.
fn parse_hex_group(cs: &Vec<char>, lo: usize, hi: usize) -> (r: Option<u16>)
    requires
        lo <= hi <= cs@.len(),
    ensures
        r == hex_piece(cs@.subrange(lo as int, hi as int)),
{
    let ghost s = cs@.subrange(lo as int, hi as int);
    if lo == hi || hi - lo > 4 {
        return None;
    }
    let mut v: u32 = 0;
    let mut i = lo;
    while i < hi
        invariant
            lo <= i <= hi <= cs@.len(),
            hi - lo <= 4,
            s == cs@.subrange(lo as int, hi as int),
            all_hex_digits(cs@.subrange(lo as int, i as int)),
            v == hex_value(cs@.subrange(lo as int, i as int)),
            v < 0x10000,
        decreases hi - i,
    {
        let ghost prefix = cs@.subrange(lo as int, i as int);
        let ghost next = cs@.subrange(lo as int, i + 1);
        assert(next.drop_last() =~= prefix);
        assert(next.last() == cs@[i as int]);
        match hex_digit_exec(cs[i]) {
            None => {
                assert(s[i - lo] == cs@[i as int]);
                return None;
            },
            Some(d) => {
                proof {
                    lemma_hex_value_bounds(prefix);
                    assert forall|j: int| 0 <= j < next.len() implies is_hex_digit(
                        #[trigger] next[j],
                    ) by {
                        if j < prefix.len() {
                            assert(next[j] == prefix[j]);
                        }
                    }
                    lemma_hex_value_bounds(next);
                }
                v = v * 16 + d;
                i = i + 1;
            },
        }
    }
    assert(cs@.subrange(lo as int, i as int) =~= s);
    Some(v as u16)
}

/// Reads a dotted IPv4 address `cs[lo..hi]`.
pub fn parse_ipv4_range(cs: &Vec<char>, lo: usize, hi: usize) -> (r: Option<Ipv4Addr>)
    requires
        lo <= hi <= cs@.len(),
    ensures
        r == spec_parse_ipv4(cs@.subrange(lo as int, hi as int)),
{
    let ranges = split_ranges(cs, lo, hi, '.');
    if ranges.len() != 4 {
        return None;
    }
    let a = parse_octet(cs, ranges[0].0, ranges[0].1);
    let b = parse_octet(cs, ranges[1].0, ranges[1].1);
    let c = parse_octet(cs, ranges[2].0, ranges[2].1);
    let d = parse_octet(cs, ranges[3].0, ranges[3].1);
    match (a, b, c, d) {
        (Some(a), Some(b), Some(c), Some(d)) => Some(Ipv4Addr { a, b, c, d }),
        _ => None,
    }
}

/// The first index `k` in `lo..hi` with `cs[k] == cs[k + 1] == c`.
fn find_pair(cs: &Vec<char>, lo: usize, hi: usize, c: char) -> (r: Option<usize>)
    requires
        lo <= hi <= cs@.len(),
    ensures
        match r {
            None => first_pair_index(cs@.subrange(lo as int, hi as int), c) == -1,
            Some(k) => lo <= k && k + 1 < hi && first_pair_index(
                cs@.subrange(lo as int, hi as int),
                c,
            ) == k - lo,
        },
{
    let ghost s = cs@.subrange(lo as int, hi as int);
    let mut i = lo;
    while hi - i > 1
        invariant
            lo <= i <= hi <= cs@.len(),
            s == cs@.subrange(lo as int, hi as int),
            forall|j: int| 0 <= j < i - lo ==> !(#[trigger] s[j] == c && s[j + 1] == c),
        decreases hi - i,
    {
        if cs[i] == c && cs[i + 1] == c {
            proof {
                assert(s[i - lo] == cs@[i as int]);
                assert(s[i - lo + 1] == cs@[i + 1]);
                lemma_first_pair_index_unique(s, c, i - lo);
            }
            return Some(i);
        }
        assert(s[i - lo] == cs@[i as int]);
        assert(s[i - lo + 1] == cs@[i + 1]);
        i = i + 1;
    }
    proof {
        lemma_first_pair_index_unique(s, c, -1);
    }
    None
}

/// The groups that the pieces `ranges` of `cs` stand for (`group_values`).
fn parse_groups(cs: &Vec<char>, ranges: &Vec<(usize, usize)>, v4_last: bool, Ghost(
    ps,
): Ghost<Seq<Seq<char>>>) -> (r: Option<Vec<u16>>)
    requires
        ranges@.len() == ps.len(),
        forall|i: int|
            #![trigger ranges@[i]]
            0 <= i < ranges@.len() ==> ranges@[i].0 <= ranges@[i].1 <= cs@.len() && cs@.subrange(
                ranges@[i].0 as int,
                ranges@[i].1 as int,
            ) == ps[i],
    ensures
        match r {
            None => group_values(ps, v4_last) is None,
            Some(v) => group_values(ps, v4_last) == Some(v@),
        },
{
    let n = ranges.len();
    let mut vals: Vec<u16> = Vec::new();
    let mut i: usize = 0;
    while i < n
        invariant
            n == ranges@.len() == ps.len(),
            i <= n,
            forall|k: int|
                #![trigger ranges@[k]]
                0 <= k < ranges@.len() ==> ranges@[k].0 <= ranges@[k].1 <= cs@.len()
                    && cs@.subrange(ranges@[k].0 as int, ranges@[k].1 as int) == ps[k],
            all_hex_pieces(ps, i as int),
            vals@ == hex_piece_values(ps, i as int),
        decreases n - i,
    {
        let (a, b) = ranges[i];
        match parse_hex_group(cs, a, b) {
            Some(g) => {
                vals.push(g);
                i = i + 1;
                assert(vals@ =~= hex_piece_values(ps, i as int));
            },
            None => {
                assert(hex_piece(ps[i as int]) is None);
                if v4_last && i + 1 == n {
                    match parse_ipv4_range(cs, a, b) {
                        Some(v4) => {
                            let hi_group = (v4.a as u16) * 256 + (v4.b as u16);
                            let lo_group = (v4.c as u16) * 256 + (v4.d as u16);
                            vals.push(hi_group);
                            vals.push(lo_group);
                            assert(ps.last() == ps[i as int]);
                            assert(vals@ =~= hex_piece_values(ps, ps.len() - 1) + seq![
                                v4.high_group(),
                                v4.low_group(),
                            ]);
                            return Some(vals);
                        },
                        None => {
                            assert(ps.last() == ps[i as int]);
                            return None;
                        },
                    }
                }
                return None;
            },
        }
    }
    Some(vals)
}

/// The pieces of `cs[lo..hi]` between colons, none for an empty range.
fn colon_ranges(cs: &Vec<char>, lo: usize, hi: usize) -> (r: Vec<(usize, usize)>)
    requires
        lo <= hi <= cs@.len(),
    ensures
        r@.len() == colon_pieces(cs@.subrange(lo as int, hi as int)).len(),
        forall|i: int|
            #![trigger r@[i]]
            0 <= i < r@.len() ==> lo <= r@[i].0 <= r@[i].1 <= hi && cs@.subrange(
                r@[i].0 as int,
                r@[i].1 as int,
            ) == colon_pieces(cs@.subrange(lo as int, hi as int))[i],
{
    if lo == hi {
        Vec::new()
    } else {
        split_ranges(cs, lo, hi, ':')
    }
}

/// Reads an IPv6 address `cs[lo..hi]`.
pub fn parse_ipv6_range(cs: &Vec<char>, lo: usize, hi: usize) -> (r: Option<Ipv6Addr>)
    requires
        lo <= hi <= cs@.len(),
    ensures
        r == spec_parse_ipv6(cs@.subrange(lo as int, hi as int)),
{
    let ghost s = cs@.subrange(lo as int, hi as int);
    match find_pair(cs, lo, hi, ':') {
        None => {
            let ranges = split_ranges(cs, lo, hi, ':');
            let g = parse_groups(cs, &ranges, true, Ghost(split_on(s, ':')));
            match g {
                Some(g) => {
                    if g.len() == 8 {
                        Some(Ipv6Addr::from_vec(&g))
                    } else {
                        None
                    }
                },
                None => None,
            }
        },
        Some(k) => {
            assert(cs@.subrange(lo as int, k as int) =~= s.subrange(0, k - lo));
            assert(cs@.subrange(k + 2, hi as int) =~= s.subrange(k - lo + 2, s.len() as int));
            let head = colon_ranges(cs, lo, k);
            let tail = colon_ranges(cs, k + 2, hi);
            let h = parse_groups(
                cs,
                &head,
                false,
                Ghost(colon_pieces(cs@.subrange(lo as int, k as int))),
            );
            let t = parse_groups(
                cs,
                &tail,
                true,
                Ghost(colon_pieces(cs@.subrange(k + 2, hi as int))),
            );
            match (h, t) {
                (Some(h), Some(t)) => {
                    if h.len() <= 7 && t.len() <= 7 - h.len() {
                        let mut g: Vec<u16> = Vec::new();
                        let mut j: usize = 0;
                        while j < h.len()
                            invariant
                                j <= h@.len(),
                                g@ == h@.take(j as int),
                            decreases h@.len() - j,
                        {
                            g.push(h[j]);
                            j = j + 1;
                            assert(g@ =~= h@.take(j as int));
                        }
                        let zeros = 8 - h.len() - t.len();
                        let ghost zs = Seq::new(zeros as nat, |i: int| 0u16);
                        let mut z: usize = 0;
                        assert(h@.take(h@.len() as int) =~= h@);
                        while z < zeros
                            invariant
                                z <= zeros,
                                g@ == h@ + Seq::new(z as nat, |i: int| 0u16),
                            decreases zeros - z,
                        {
                            g.push(0);
                            z = z + 1;
                            assert(g@ =~= h@ + Seq::new(z as nat, |i: int| 0u16));
                        }
                        let mut j: usize = 0;
                        while j < t.len()
                            invariant
                                j <= t@.len(),
                                g@ == h@ + zs + t@.take(j as int),
                            decreases t@.len() - j,
                        {
                            g.push(t[j]);
                            j = j + 1;
                            assert(g@ =~= h@ + zs + t@.take(j as int));
                        }
                        assert(t@.take(t@.len() as int) =~= t@);
                        Some(Ipv6Addr::from_vec(&g))
                    } else {
                        None
                    }
                },
                _ => None,
            }
        },
    }
}

/// Reads an IP address of either family from `cs[lo..hi]`.
pub fn parse_ip_range(cs: &Vec<char>, lo: usize, hi: usize) -> (r: Option<IpAddr>)
    requires
        lo <= hi <= cs@.len(),
    ensures
        r == spec_parse_ip(cs@.subrange(lo as int, hi as int)),
{
    match parse_ipv4_range(cs, lo, hi) {
        Some(a) => Some(IpAddr::V4(a)),
        None => match parse_ipv6_range(cs, lo, hi) {
            Some(a) => Some(IpAddr::V6(a)),
            None => None,
        },
    }
}

/// Reads an IPv4 address.
pub fn parse_ipv4(s: &str) -> (r: Option<Ipv4Addr>)
    ensures
        r == spec_parse_ipv4(s@),
{
    let cs = crate::text::chars_of(s);
    assert(cs@.subrange(0, cs@.len() as int) =~= s@);
    parse_ipv4_range(&cs, 0, cs.len())
}

/// Reads an IPv6 address.
pub fn parse_ipv6(s: &str) -> (r: Option<Ipv6Addr>)
    ensures
        r == spec_parse_ipv6(s@),
{
    let cs = crate::text::chars_of(s);
    assert(cs@.subrange(0, cs@.len() as int) =~= s@);
    parse_ipv6_range(&cs, 0, cs.len())
}

/// Reads an IP address of either family.
pub fn parse_ip(s: &str) -> (r: Option<IpAddr>)
    ensures
        r == spec_parse_ip(s@),
{
    let cs = crate::text::chars_of(s);
    assert(cs@.subrange(0, cs@.len() as int) =~= s@);
    parse_ip_range(&cs, 0, cs.len())
}

/// Reads a port number as `u16::from_str` does.
pub fn parse_u16(s: &str) -> (r: Option<u16>)
    ensures
        r == spec_parse_u16(s@),
{
    let cs = crate::text::chars_of(s);
    assert(cs@.subrange(0, cs@.len() as int) =~= s@);
    parse_u16_range(&cs, 0, cs.len())
}

/// Reads a port number `cs[lo..hi]` as `u16::from_str` does.
pub fn parse_u16_range(cs: &Vec<char>, lo: usize, hi: usize) -> (r: Option<u16>)
    requires
        lo <= hi <= cs@.len(),
    ensures
        r == spec_parse_u16(cs@.subrange(lo as int, hi as int)),
{
    let ghost s = cs@.subrange(lo as int, hi as int);
    let start = if lo < hi && cs[lo] == '+' {
        assert(s[0] == '+');
        assert(s.drop_first() =~= cs@.subrange(lo + 1, hi as int));
        lo + 1
    } else {
        lo
    };
    let ghost digits = cs@.subrange(start as int, hi as int);
    assert(digits == (if s.len() > 0 && s[0] == '+' {
        s.drop_first()
    } else {
        s
    }));
    if start == hi {
        return None;
    }
    assert(spec_parse_u16(s) == (if all_digits(digits) && dec_value(digits) <= 65535 {
        Some(dec_value(digits) as u16)
    } else {
        None
    }));
    let mut v: u32 = 0;
    let mut i = start;
    while i < hi
        invariant
            start <= i <= hi <= cs@.len(),
            digits == cs@.subrange(start as int, hi as int),
            s == cs@.subrange(lo as int, hi as int),
            spec_parse_u16(s) == (if all_digits(digits) && dec_value(digits) <= 65535 {
                Some(dec_value(digits) as u16)
            } else {
                None
            }),
            all_digits(cs@.subrange(start as int, i as int)),
            v == dec_value(cs@.subrange(start as int, i as int)),
            v <= 65535,
        decreases hi - i,
    {
        let ghost prefix = cs@.subrange(start as int, i as int);
        let ghost next = cs@.subrange(start as int, i + 1);
        assert(next.drop_last() =~= prefix);
        assert(next.last() == cs@[i as int]);
        if !is_digit_exec(cs[i]) {
            assert(digits[i - start] == cs@[i as int]);
            return None;
        }
        let d = digit_exec(cs[i]);
        assert forall|j: int| 0 <= j < next.len() implies is_digit(#[trigger] next[j]) by {
            if j < prefix.len() {
                assert(next[j] == prefix[j]);
            }
        }
        if v * 10 + d > 65535 {
            proof {
                assert(digits.take(next.len() as int) =~= next);
                if all_digits(digits) {
                    lemma_dec_value_prefix(digits, next.len() as int);
                }
            }
            return None;
        }
        v = v * 10 + d;
        i = i + 1;
    }
    assert(cs@.subrange(start as int, i as int) =~= digits);
    Some(v as u16)
}

/// A numeral is worth at least any of its prefixes.
proof fn lemma_dec_value_prefix(s: Seq<char>, n: int)
    requires
        0 <= n <= s.len(),
        all_digits(s),
    ensures
        dec_value(s.take(n)) <= dec_value(s),
    decreases s.len() - n,
{
    if n < s.len() {
        lemma_dec_value_prefix(s, n + 1);
        let t = s.take(n + 1);
        assert(t.drop_last() =~= s.take(n));
        assert(is_digit(s[n]));
        assert(t.last() == s[n]);
        assert forall|j: int| 0 <= j < s.take(n).len() implies is_digit(#[trigger] s.take(n)[j]) by {
            assert(s.take(n)[j] == s[j]);
        }
        lemma_dec_value_bounds(s.take(n));
    } else {
        assert(s.take(n) =~= s);
    }
}

// ---------------------------------------------------------------------------
// Writing
// ---------------------------------------------------------------------------

fn digit_to_char(d: u32) -> (c: char)
    requires
        d < 16,
    ensures
        c == hex_char(d as int),
        d < 10 ==> c == digit_char(d as int),
{
    match d {
        0 => '0',
        1 => '1',
        2 => '2',
        3 => '3',
        4 => '4',
        5 => '5',
        6 => '6',
        7 => '7',
        8 => '8',
        9 => '9',
        10 => 'a',
        11 => 'b',
        12 => 'c',
        13 => 'd',
        14 => 'e',
        _ => 'f',
    }
}

/// Appends the shortest decimal numeral of `n`.
fn push_dec(s: &mut String, n: u32)
    ensures
        final(s)@ == old(s)@ + dec_text(n as nat),
    decreases n,
{
    if n >= 10 {
        push_dec(s, n / 10);
    }
    push_char(s, digit_to_char(n % 10));
    proof {
        if n < 10 {
            assert(dec_text(n as nat) == seq![digit_char(n as int)]);
        }
    }
    assert(s@ =~= old(s)@ + dec_text(n as nat));
}

/// Appends the shortest lower-case hexadecimal numeral of `n`.
fn push_hex(s: &mut String, n: u32)
    ensures
        final(s)@ == old(s)@ + hex_text(n as nat),
    decreases n,
{
    if n >= 16 {
        push_hex(s, n / 16);
    }
    push_char(s, digit_to_char(n % 16));
    assert(s@ =~= old(s)@ + hex_text(n as nat));
}

/// Appends a whole string.
fn push_all(s: &mut String, t: &String)
    ensures
        final(s)@ == old(s)@ + t@,
{
    let cs = crate::text::chars_of(t.as_str());
    let mut i: usize = 0;
    while i < cs.len()
        invariant
            i <= cs@.len(),
            cs@ == t@,
            s@ == old(s)@ + t@.take(i as int),
        decreases cs@.len() - i,
    {
        push_char(s, cs[i]);
        i = i + 1;
        assert(s@ =~= old(s)@ + t@.take(i as int));
    }
    assert(t@.take(cs@.len() as int) =~= t@);
}

/// Appends the groups `g[lo..hi]` in hexadecimal, `:` between them.
fn push_hex_groups(s: &mut String, g: &[u16; 8], lo: usize, hi: usize)
    requires
        lo <= hi <= 8,
    ensures
        final(s)@ == old(s)@ + hex_join(g@.subrange(lo as int, hi as int)),
{
    let mut i = lo;
    while i < hi
        invariant
            lo <= i <= hi <= 8,
            s@ == old(s)@ + hex_join(g@.subrange(lo as int, i as int)),
        decreases hi - i,
    {
        let ghost before = s@;
        if i > lo {
            push_char(s, ':');
        }
        push_hex(s, g[i] as u32);
        proof {
            let ps = Seq::new((i + 1 - lo) as nat, |k: int| hex_text(g@[lo + k] as nat));
            let sub = g@.subrange(lo as int, i + 1);
            assert(Seq::new(sub.len(), |k: int| hex_text(sub[k] as nat)) =~= ps);
            let prev = g@.subrange(lo as int, i as int);
            assert(Seq::new(prev.len(), |k: int| hex_text(prev[k] as nat)) =~= ps.drop_last());
            if i == lo {
                assert(ps.len() == 1);
                assert(ps.drop_last().len() == 0);
            }
        }
        i = i + 1;
        assert(s@ =~= old(s)@ + hex_join(g@.subrange(lo as int, i as int)));
    }
}

/// The first longest run of zero groups (`zero_span`).
fn zero_span_exec(g: &[u16; 8]) -> (r: (usize, usize))
    ensures
        r.0 as int == zero_span(g@).0,
        r.1 as int == zero_span(g@).1,
        r.0 + r.1 <= 8,
{
    let mut ls: usize = 0;
    let mut ll: usize = 0;
    let mut cs: usize = 0;
    let mut cl: usize = 0;
    let mut i: usize = 0;
    while i < 8
        invariant
            i <= 8,
            g@.len() == 8,
            zero_runs(g@, i as int) == (ls as int, ll as int, cs as int, cl as int),
            ls + ll <= i,
            cs + cl == i || cl == 0,
            cl <= i,
        decreases 8 - i,
    {
        if g[i] == 0 {
            if cl == 0 {
                cs = i;
            }
            cl = cl + 1;
            if cl > ll {
                ls = cs;
                ll = cl;
            }
        } else {
            cs = 0;
            cl = 0;
        }
        i = i + 1;
    }
    (ls, ll)
}

} // verus!
