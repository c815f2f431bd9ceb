//! Host addresses (a domain name or an IP address), host sockets (a host and
//! a port), their text forms, and the choice of address after a lookup.
use vstd::prelude::*;
use crate::ip::{
    hex_piece, ipv4_text, ipv6_text, ipv6_text_char, law_ip_text_roundtrip,
    law_ipv4_text_roundtrip, law_port_text_roundtrip, lemma_ipv4_text_chars, lemma_ipv4_text_shape,
    lemma_ip_read_free, lemma_ipv6_text_chars, parse_ip_range, parse_ipv6_range, parse_u16_range, spec_parse_ip,
    spec_parse_ipv6, spec_parse_u16, IpAddr, Ipv4Addr, Ipv6Addr, SocketAddr,
};
use crate::text::{
    chars_of, contains_char, dec_text, first_index_of, last_index_of,
    is_digit, lemma_first_index_of_unique, lemma_first_pair_index_unique, lemma_last_index_of_unique,
    lemma_split_single, string_of,
};
use addr::domain::Name;
use hickory_resolver::error::ResolveError;

verus! {

// ---------------------------------------------------------------------------
// Outside items
// ---------------------------------------------------------------------------

/// A domain name parsed by the `addr` crate, borrowing the text it was read
/// from.
#[verifier::external_type_specification]
#[verifier::external_body]
pub struct ExDomainName<'a>(Name<'a>);

/// The failure of a DNS lookup, from `hickory_resolver`.
#[verifier::external_type_specification]
#[verifier::external_body]
pub struct ExResolveError(ResolveError);

/// Whether the `addr` crate takes the text for a domain name: it checks the
/// labels against the DNS rules and the name against the public suffix list
/// compiled into the crate, so the answer depends on the text alone.
pub uninterp spec fn is_domain_name(s: Seq<char>) -> bool;

/// Calls `addr::parse_domain_name`. Trusted: the result is present exactly
/// when the crate takes the text for a domain name. Nothing is stated of the
/// `Name` returned beyond its presence.
#[verifier::external_body]
fn parse_domain(s: &str) -> (r: Option<Name<'_>>)
    ensures
        r is Some <==> is_domain_name(s@),
{
    addr::parse_domain_name(s).ok()
}

// ---------------------------------------------------------------------------
// Types
// ---------------------------------------------------------------------------

/// A host: a domain name to be looked up, or an IP address.
#[derive(Debug)]
pub enum HostAddr {
    Domain(String),
    Addr(IpAddr),
}

/// The value of a `HostAddr`, the domain name as its characters.
pub enum HostAddrView {
    Domain(Seq<char>),
    Addr(IpAddr),
}

impl View for HostAddr {
    type V = HostAddrView;

    open spec fn view(&self) -> HostAddrView {
        match self {
            HostAddr::Domain(s) => HostAddrView::Domain(s@),
            HostAddr::Addr(a) => HostAddrView::Addr(*a),
        }
    }
}

/// A host and a port.
#[derive(Debug)]
pub struct HostSocket {
    pub addr: HostAddr,
    pub port: u16,
}

impl Clone for HostAddr {
    fn clone(&self) -> (r: Self)
        ensures
            r@ == self@,
    {
        match self {
            HostAddr::Domain(s) => HostAddr::Domain(s.clone()),
            HostAddr::Addr(a) => HostAddr::Addr(*a),
        }
    }
}

impl Clone for HostSocket {
    fn clone(&self) -> (r: Self)
        ensures
            r@ == self@,
    {
        HostSocket { addr: self.addr.clone(), port: self.port }
    }
}

pub struct HostSocketView {
    pub addr: HostAddrView,
    pub port: u16,
}

impl View for HostSocket {
    type V = HostSocketView;

    open spec fn view(&self) -> HostSocketView {
        HostSocketView { addr: self.addr@, port: self.port }
    }
}

/// A text that is neither an IP address nor a domain name.
#[derive(Debug)]
pub struct HostAddrParse {
    s: String,
}

/// A text that is not a host socket.
#[derive(Debug)]
pub struct HostParseError {
    s: String,
}

/// Why a host could not be turned into an IP address.
#[derive(Debug)]
pub enum LookupError {
    /// The lookup itself failed.
    CantResolve(ResolveError),
    /// The lookup answered with no address.
    NoIp,
}

/// What turning a host into an IP address takes: nothing, or a lookup of a
/// domain name.
#[derive(Debug)]
pub enum ResolvePlan {
    Known(IpAddr),
    Lookup(String),
}

// ---------------------------------------------------------------------------
// Specifications
// ---------------------------------------------------------------------------

/// What `HostAddr::from_str` accepts: an IP address, else a domain name.
pub open spec fn spec_parse_host_addr(s: Seq<char>) -> Option<HostAddrView> {
    match spec_parse_ip(s) {
        Some(ip) => Some(HostAddrView::Addr(ip)),
        None => if is_domain_name(s) {
            Some(HostAddrView::Domain(s))
        } else {
            None
        },
    }
}

/// The texts on which reading a host socket would slice a string inside a
/// character: a bracketed host whose `]` is followed by a character of more
/// than one byte.
pub open spec fn host_socket_text_splits_char(s: Seq<char>) -> bool {
    let e = first_index_of(s, ']');
    &&& s.len() > 0
    &&& s[0] == '['
    &&& e >= 0
    &&& e + 1 < s.len()
    &&& s[e + 1] > '\u{7f}'
}

/// What `HostSocket::from_str` accepts: `[ip]:port`, or `host:port` split at
/// the last colon where the host is not an IPv6 address.
pub open spec fn spec_parse_host_socket(s: Seq<char>) -> Option<HostSocketView> {
    if s.len() > 0 && s[0] == '[' {
        let e = first_index_of(s, ']');
        if e < 0 || s.len() <= e + 1 || s[e + 1] != ':' {
            None
        } else {
            match spec_parse_ip(s.subrange(1, e)) {
                None => None,
                Some(ip) => match spec_parse_u16(s.subrange(e + 2, s.len() as int)) {
                    None => None,
                    Some(port) => Some(HostSocketView { addr: HostAddrView::Addr(ip), port }),
                },
            }
        }
    } else {
        let c = last_index_of(s, ':');
        if c < 0 {
            None
        } else if spec_parse_ipv6(s.subrange(0, c)) is Some {
            None
        } else {
            match spec_parse_host_addr(s.subrange(0, c)) {
                None => None,
                Some(addr) => match spec_parse_u16(s.subrange(c + 1, s.len() as int)) {
                    None => None,
                    Some(port) => Some(HostSocketView { addr, port }),
                },
            }
        }
    }
}

/// The first address of the given family.
pub open spec fn first_of_family(ips: Seq<IpAddr>, v4: bool) -> Option<IpAddr>
    decreases ips.len(),
{
    if ips.len() == 0 {
        None
    } else if (ips[0] is V4) == v4 {
        Some(ips[0])
    } else {
        first_of_family(ips.drop_first(), v4)
    }
}

/// The address a lookup settles on: the first IPv4 address, else the first
/// IPv6 address.
pub open spec fn preferred_ip(ips: Seq<IpAddr>) -> Option<IpAddr> {
    match first_of_family(ips, true) {
        Some(a) => Some(a),
        None => first_of_family(ips, false),
    }
}

// ---------------------------------------------------------------------------
// Reading
// ---------------------------------------------------------------------------

/// Reads a host from `cs[lo..hi]`: an IP address, else a domain name.
fn host_addr_from_chars(cs: &Vec<char>, lo: usize, hi: usize) -> (r: Option<HostAddr>)
    requires
        lo <= hi <= cs@.len(),
    ensures
        match r {
            Some(a) => spec_parse_host_addr(cs@.subrange(lo as int, hi as int)) == Some(a@),
            None => spec_parse_host_addr(cs@.subrange(lo as int, hi as int)) is None,
        },
{
    match parse_ip_range(cs, lo, hi) {
        Some(ip) => Some(HostAddr::Addr(ip)),
        None => {
            let text = string_of(cs, lo, hi);
            let is_name = parse_domain(text.as_str()).is_some();
            if is_name {
                Some(HostAddr::Domain(text))
            } else {
                None
            }
        },
    }
}

impl HostAddr {
    /// Reads a host: an IP address of either family, else a domain name.
    pub fn from_str(s: &str) -> (r: Result<HostAddr, HostAddrParse>)
        ensures
            match r {
                Ok(a) => spec_parse_host_addr(s@) == Some(a@),
                Err(e) => spec_parse_host_addr(s@) is None && e.text() == s@,
            },
    {
        let cs = chars_of(s);
        assert(cs@.subrange(0, cs@.len() as int) =~= s@);
        match host_addr_from_chars(&cs, 0, cs.len()) {
            Some(a) => Ok(a),
            None => Err(HostAddrParse { s: s.to_owned() }),
        }
    }

    /// The parsed domain name of a `Domain` host.
    pub fn name(&self) -> (r: Option<Name<'_>>)
        requires
            self matches HostAddr::Domain(s) ==> is_domain_name(s@),
        ensures
            r is Some <==> self is Domain,
    {
        match self {
            HostAddr::Domain(s) => parse_domain(s.as_str()),
            HostAddr::Addr(_) => None,
        }
    }

    /// `name`, for a host whose domain name may not be one: `None` there.
    pub fn checked_name(&self) -> (r: Option<Name<'_>>)
        ensures
            r is Some <==> (self matches HostAddr::Domain(s) && is_domain_name(s@)),
    {
        match self {
            HostAddr::Domain(s) => {
                if parse_domain(s.as_str()).is_some() {
                    self.name()
                } else {
                    None
                }
            },
            HostAddr::Addr(_) => None,
        }
    }

    /// Whether the host needs a lookup, and of which name.
    pub fn resolve_plan(&self) -> (r: ResolvePlan)
        ensures
            match self {
                HostAddr::Addr(a) => r == ResolvePlan::Known(*a),
                HostAddr::Domain(n) => r matches ResolvePlan::Lookup(m) && m@ == n@,
            },
    {
        match self {
            HostAddr::Addr(a) => ResolvePlan::Known(*a),
            HostAddr::Domain(n) => ResolvePlan::Lookup(n.clone()),
        }
    }
}

impl HostAddrParse {
    pub closed spec fn text(&self) -> Seq<char> {
        self.s@
    }

    /// The text that was refused.
    pub fn input(&self) -> (r: &String)
        ensures
            r@ == self.text(),
    {
        &self.s
    }

    /// The error message: `invalid address: ` and the text.
    pub fn message(&self) -> (r: String)
        ensures
            r@ == "invalid address: "@ + self.text(),
    {
        let mut m = "invalid address: ".to_owned();
        m.append(self.s.as_str());
        m
    }
}

impl HostParseError {
    pub closed spec fn text(&self) -> Seq<char> {
        self.s@
    }

    /// The text that was refused.
    pub fn input(&self) -> (r: &String)
        ensures
            r@ == self.text(),
    {
        &self.s
    }

    /// The error message: `invalid host socket: ` and the text.
    pub fn message(&self) -> (r: String)
        ensures
            r@ == "invalid host socket: "@ + self.text(),
    {
        let mut m = "invalid host socket: ".to_owned();
        m.append(self.s.as_str());
        m
    }
}

/// Whether reading `s` as a host socket would slice a string inside a
/// character (`host_socket_text_splits_char`).
pub fn splits_char_when_read(s: &str) -> (r: bool)
    ensures
        r == host_socket_text_splits_char(s@),
{
    let cs = chars_of(s);
    if cs.len() == 0 || cs[0] != '[' {
        return false;
    }
    match find_char(&cs, ']') {
        None => false,
        Some(e) => e + 1 < cs.len() && cs[e + 1] > '\u{7f}',
    }
}

/// The first index of `c` in `cs`.
fn find_char(cs: &Vec<char>, c: char) -> (r: Option<usize>)
    ensures
        match r {
            None => first_index_of(cs@, c) == -1,
            Some(k) => k < cs@.len() && first_index_of(cs@, c) == k,
        },
{
    let mut i: usize = 0;
    while i < cs.len()
        invariant
            i <= cs@.len(),
            forall|j: int| 0 <= j < i ==> cs@[j] != c,
        decreases cs@.len() - i,
    {
        if cs[i] == c {
            proof {
                lemma_first_index_of_unique(cs@, c, i as int);
            }
            return Some(i);
        }
        i = i + 1;
    }
    proof {
        lemma_first_index_of_unique(cs@, c, -1);
    }
    None
}

/// The last index of `c` in `cs`.
fn rfind_char(cs: &Vec<char>, c: char) -> (r: Option<usize>)
    ensures
        match r {
            None => last_index_of(cs@, c) == -1,
            Some(k) => k < cs@.len() && last_index_of(cs@, c) == k,
        },
{
    let mut i: usize = cs.len();
    while i > 0
        invariant
            i <= cs@.len(),
            forall|j: int| i <= j < cs@.len() ==> cs@[j] != c,
        decreases i,
    {
        if cs[i - 1] == c {
            proof {
                lemma_last_index_of_unique(cs@, c, i - 1);
            }
            return Some(i - 1);
        }
        i = i - 1;
    }
    proof {
        lemma_last_index_of_unique(cs@, c, -1);
    }
    None
}

impl HostSocket {
    /// The host socket of a socket address.
    pub fn from_socketaddr(a: SocketAddr) -> (r: HostSocket)
        ensures
            r.addr == HostAddr::Addr(a.ip),
            r.port == a.port,
    {
        HostSocket { addr: HostAddr::Addr(a.ip), port: a.port }
    }

    /// Reads `[ip]:port`, or `host:port` where the host is an IPv4 address or
    /// a domain name. The port is read as `u16::from_str` reads it.
    pub fn from_str(s: &str) -> (r: Result<HostSocket, HostParseError>)
        requires
            !host_socket_text_splits_char(s@),
        ensures
            match r {
                Ok(h) => spec_parse_host_socket(s@) == Some(h@),
                Err(e) => spec_parse_host_socket(s@) is None && e.text() == s@,
            },
    {
        let cs = chars_of(s);
        let n = cs.len();
        let ghost t = s@;
        if n > 0 && cs[0] == '[' {
            let e = match find_char(&cs, ']') {
                None => {
                    return Err(HostParseError { s: s.to_owned() });
                },
                Some(e) => e,
            };
            if n <= e + 1 || cs[e + 1] != ':' {
                return Err(HostParseError { s: s.to_owned() });
            }
            assert(e >= 1) by {
                assert(t[0] == '[');
            }
            let addr = match parse_ip_range(&cs, 1, e) {
                None => {
                    return Err(HostParseError { s: s.to_owned() });
                },
                Some(a) => a,
            };
            match parse_u16_range(&cs, e + 2, n) {
                None => Err(HostParseError { s: s.to_owned() }),
                Some(port) => Ok(HostSocket { addr: HostAddr::Addr(addr), port }),
            }
        } else {
            let c = match rfind_char(&cs, ':') {
                None => {
                    return Err(HostParseError { s: s.to_owned() });
                },
                Some(c) => c,
            };
            if parse_ipv6_range(&cs, 0, c).is_some() {
                return Err(HostParseError { s: s.to_owned() });
            }
            let addr = match host_addr_from_chars(&cs, 0, c) {
                None => {
                    return Err(HostParseError { s: s.to_owned() });
                },
                Some(a) => a,
            };
            match parse_u16_range(&cs, c + 1, n) {
                None => Err(HostParseError { s: s.to_owned() }),
                Some(port) => Ok(HostSocket { addr, port }),
            }
        }
    }

    /// Whether the host needs a lookup, and of which name.
    pub fn resolve_plan(&self) -> (r: ResolvePlan)
        ensures
            match self.addr {
                HostAddr::Addr(a) => r == ResolvePlan::Known(a),
                HostAddr::Domain(n) => r matches ResolvePlan::Lookup(m) && m@ == n@,
            },
    {
        self.addr.resolve_plan()
    }
}

// ---------------------------------------------------------------------------
// After a lookup
// ---------------------------------------------------------------------------

/// The first address of the given family.
fn first_of_family_exec(ips: &Vec<IpAddr>, v4: bool) -> (r: Option<IpAddr>)
    ensures
        r == first_of_family(ips@, v4),
{
    let mut i: usize = 0;
    assert(ips@.skip(0) =~= ips@);
    while i < ips.len()
        invariant
            i <= ips@.len(),
            first_of_family(ips@, v4) == first_of_family(ips@.skip(i as int), v4),
        decreases ips@.len() - i,
    {
        let ghost rest = ips@.skip(i as int);
        assert(rest[0] == ips@[i as int]);
        assert(rest.drop_first() =~= ips@.skip(i + 1));
        if ips[i].is_ipv4() == v4 {
            return Some(ips[i]);
        }
        i = i + 1;
    }
    assert(ips@.skip(i as int).len() == 0);
    None
}

/// The address a lookup settles on: the first IPv4 address, else the first
/// IPv6 address, else none.
pub fn pick_ip(ips: &Vec<IpAddr>) -> (r: Option<IpAddr>)
    ensures
        r == preferred_ip(ips@),
{
    match first_of_family_exec(ips, true) {
        Some(a) => Some(a),
        None => first_of_family_exec(ips, false),
    }
}

/// The outcome of resolving a domain name, given the lookup's answer: its
/// failure, else the preferred address, else `NoIp`.
pub fn finish_lookup(answer: Result<Vec<IpAddr>, ResolveError>) -> (r: Result<IpAddr, LookupError>)
    ensures
        match answer {
            Err(e) => r == Err::<IpAddr, LookupError>(LookupError::CantResolve(e)),
            Ok(ips) => match preferred_ip(ips@) {
                Some(a) => r == Ok::<IpAddr, LookupError>(a),
                None => r == Err::<IpAddr, LookupError>(LookupError::NoIp),
            },
        },
{
    match answer {
        Err(e) => Err(LookupError::CantResolve(e)),
        Ok(ips) => match pick_ip(&ips) {
            Some(a) => Ok(a),
            None => Err(LookupError::NoIp),
        },
    }
}

// ---------------------------------------------------------------------------
// Laws
// ---------------------------------------------------------------------------

/// A host socket in brackets is always an IP address, never a domain name.
pub proof fn law_bracketed_host_is_address(s: Seq<char>)
    requires
        s.len() > 0,
        s[0] == '[',
        spec_parse_host_socket(s) is Some,
    ensures
        spec_parse_host_socket(s)->0.addr is Addr,
{
}

/// An IPv6 address without brackets is refused as a host, whatever follows
/// its last colon.
pub proof fn law_unbracketed_ipv6_refused(s: Seq<char>)
    requires
        !(s.len() > 0 && s[0] == '['),
        last_index_of(s, ':') >= 0,
        spec_parse_ipv6(s.subrange(0, last_index_of(s, ':'))) is Some,
    ensures
        spec_parse_host_socket(s) is None,
{
}

/// An IPv4 address, a colon and a port number read back as that address
/// and port.
pub proof fn law_ipv4_socket_text(a: Ipv4Addr, p: u16)
    ensures
        spec_parse_host_socket(ipv4_text(a) + seq![':'] + dec_text(p as nat)) == Some(
            HostSocketView { addr: HostAddrView::Addr(IpAddr::V4(a)), port: p },
        ),
{
    let t4 = ipv4_text(a);
    let pt = dec_text(p as nat);
    let s = t4 + seq![':'] + pt;
    let k = t4.len() as int;
    lemma_ipv4_text_shape(a);
    law_ipv4_text_roundtrip(t4, a);
    law_port_text_roundtrip(p);
    assert(s[0] != '[') by {
        assert(s[0] == t4[0]);
        lemma_ipv4_text_chars(a);
        assert(is_digit(t4[0]) || t4[0] == '.');
    }
    assert forall|j: int| k < j < s.len() implies s[j] != ':' by {
        assert(s[j] == pt[j - k - 1]);
    }
    lemma_last_index_of_unique(s, ':', k);
    assert(s.subrange(0, k) =~= t4);
    assert(s.subrange(k + 1, s.len() as int) =~= pt);
    // the host is no IPv6 address: a single piece with an IPv4 address only
    lemma_first_pair_index_unique(t4, ':', -1);
    lemma_split_single(t4, ':');
    assert(hex_piece(t4) is None);
    assert(spec_parse_ipv6(t4) is None);
}

/// An IPv6 address in brackets, a colon and a port number read back as that
/// address and port.
pub proof fn law_ipv6_socket_text(a: Ipv6Addr, p: u16)
    ensures
        spec_parse_host_socket(seq!['['] + ipv6_text(a) + seq![']', ':'] + dec_text(p as nat))
            == Some(HostSocketView { addr: HostAddrView::Addr(IpAddr::V6(a)), port: p }),
{
    let t6 = ipv6_text(a);
    let pt = dec_text(p as nat);
    let s = seq!['['] + t6 + seq![']', ':'] + pt;
    let e = t6.len() as int + 1;
    lemma_ipv6_text_chars(a);
    law_ip_text_roundtrip(IpAddr::V6(a));
    law_port_text_roundtrip(p);
    assert forall|j: int| 0 <= j < e implies s[j] != ']' by {
        if j > 0 {
            assert(s[j] == t6[j - 1]);
            assert(ipv6_text_char(t6[j - 1]));
        }
    }
    lemma_first_index_of_unique(s, ']', e);
    assert(s.subrange(1, e) =~= t6);
    assert(s.subrange(e + 2, s.len() as int) =~= pt);
}

/// A lookup settles on an IPv4 address whenever it answered one: the first
/// one it answered.
pub proof fn law_lookup_prefers_ipv4(ips: Seq<IpAddr>, i: int)
    requires
        0 <= i < ips.len(),
        ips[i] is V4,
    ensures
        preferred_ip(ips) is Some,
        preferred_ip(ips)->0 is V4,
        exists|j: int| 0 <= j <= i && ips[j] == preferred_ip(ips)->0 && forall|k: int|
            0 <= k < j ==> !(ips[k] is V4),
    decreases i,
{
    lemma_first_of_family(ips, true);
}

/// Any text read as an IP address (however it is written: leading zeros,
/// upper case, uncompressed groups, or an IPv4 address), in brackets, then a
/// colon and any text read as a port, reads as that address and port.
pub proof fn law_bracketed_socket(t: Seq<char>, ip: IpAddr, q: Seq<char>, p: u16)
    requires
        spec_parse_ip(t) == Some(ip),
        spec_parse_u16(q) == Some(p),
    ensures
        spec_parse_host_socket(seq!['['] + t + seq![']', ':'] + q) == Some(
            HostSocketView { addr: HostAddrView::Addr(ip), port: p },
        ),
{
    let s = seq!['['] + t + seq![']', ':'] + q;
    let e = t.len() as int + 1;
    lemma_ip_read_free(t);
    assert forall|j: int| 0 <= j < e implies s[j] != ']' by {
        if j > 0 {
            assert(s[j] == t[j - 1]);
            if t[j - 1] == ']' {
                assert(contains_char(t, ']'));
            }
        }
    }
    lemma_first_index_of_unique(s, ']', e);
    assert(s.subrange(1, e) =~= t);
    assert(s.subrange(e + 2, s.len() as int) =~= q);
}

/// A lookup settles on the first IPv4 address it answered, whenever it
/// answered one.
pub proof fn law_lookup_first_ipv4(ips: Seq<IpAddr>, j: int)
    requires
        0 <= j < ips.len(),
        ips[j] is V4,
        forall|k: int| 0 <= k < j ==> !(ips[k] is V4),
    ensures
        preferred_ip(ips) == Some(ips[j]),
{
    lemma_first_of_family(ips, true);
}

/// A lookup that answered no IPv4 address settles on the first IPv6 address
/// it answered, however many it answered.
pub proof fn law_lookup_first_ipv6(ips: Seq<IpAddr>, j: int)
    requires
        forall|k: int| 0 <= k < ips.len() ==> !(ips[k] is V4),
        0 <= j < ips.len(),
        ips[j] is V6,
        forall|k: int| 0 <= k < j ==> !(ips[k] is V6),
    ensures
        preferred_ip(ips) == Some(ips[j]),
{
    lemma_first_of_family(ips, true);
    lemma_first_of_family(ips, false);
}

/// A lookup settles on no address only when it answered none.
pub proof fn law_lookup_none_only_when_empty(ips: Seq<IpAddr>)
    ensures
        preferred_ip(ips) is None <==> ips.len() == 0,
{
    lemma_first_of_family(ips, true);
    lemma_first_of_family(ips, false);
    if ips.len() > 0 {
        assert(ips[0] is V4 || ips[0] is V6);
    }
}

proof fn lemma_first_of_family(ips: Seq<IpAddr>, v4: bool)
    ensures
        match first_of_family(ips, v4) {
            Some(a) => exists|j: int|
                0 <= j < ips.len() && ips[j] == a && (a is V4) == v4 && forall|k: int|
                    0 <= k < j ==> (ips[k] is V4) != v4,
            None => forall|k: int| 0 <= k < ips.len() ==> (ips[k] is V4) != v4,
        },
    decreases ips.len(),
{
    if ips.len() > 0 && (ips[0] is V4) != v4 {
        let rest = ips.drop_first();
        lemma_first_of_family(rest, v4);
        match first_of_family(rest, v4) {
            Some(a) => {
                let j = choose|j: int|
                    0 <= j < rest.len() && rest[j] == a && (a is V4) == v4 && forall|k: int|
                        0 <= k < j ==> (rest[k] is V4) != v4;
                assert(ips[j + 1] == a);
                assert forall|k: int| 0 <= k < j + 1 implies (ips[k] is V4) != v4 by {
                    if k > 0 {
                        assert(ips[k] == rest[k - 1]);
                    }
                }
            },
            None => {
                assert forall|k: int| 0 <= k < ips.len() implies (ips[k] is V4) != v4 by {
                    if k > 0 {
                        assert(ips[k] == rest[k - 1]);
                    }
                }
            },
        }
    }
}

} // verus!
