//! IPv4 addresses and `ip:port` socket addresses as plain values, with
//! their decimal text forms: formatting, and parsing exactly as std's
//! `FromStr` impls accept them.

use vstd::prelude::*;
use crate::text::{
    chars_of, is_ascii_digit, is_digit_char, is_unicode_whitespace, lemma_split_push_piece,
    lemma_split_single, split_char, split_chars, string_from_chars, trim,
};

verus! {

// ---------------------------------------------------------------------
// Decimal numbers
// ---------------------------------------------------------------------

pub open spec fn digit_char(d: nat) -> char {
    (48 + d) as char
}

pub open spec fn digit_value(c: char) -> nat {
    ((c as u32) - 48) as nat
}

/// Decimal text of `n`, without leading zeros (`"0"` for zero).
pub open spec fn dec_text(n: nat) -> Seq<char>
    decreases n,
{
    if n < 10 {
        seq![digit_char(n)]
    } else {
        dec_text(n / 10).push(digit_char(n % 10))
    }
}

pub open spec fn all_digits(s: Seq<char>) -> bool {
    forall|i: int| 0 <= i < s.len() ==> is_ascii_digit(#[trigger] s[i])
}

/// Value of a run of decimal digits (most significant first).
pub open spec fn digits_value(s: Seq<char>) -> nat
    decreases s.len(),
{
    if s.len() == 0 {
        0
    } else {
        digits_value(s.drop_last()) * 10 + digit_value(s.last())
    }
}

/// What std's `FromStr` for an unsigned integer type with maximum `max`
/// accepts: an optional `+`, then at least one ASCII digit, with the
/// value no greater than `max`.
pub open spec fn parse_unsigned(s: Seq<char>, max: nat) -> Option<nat> {
    let body = if s.len() > 0 && s[0] == '+' {
        s.drop_first()
    } else {
        s
    };
    if body.len() > 0 && all_digits(body) && digits_value(body) <= max {
        Some(digits_value(body))
    } else {
        None
    }
}

pub proof fn lemma_digit_char(d: nat)
    requires
        d < 10,
    ensures
        digit_char(d) as u32 == 48 + d,
        is_ascii_digit(digit_char(d)),
        digit_value(digit_char(d)) == d,
        digit_char(d) != '.',
        digit_char(d) != ':',
        digit_char(d) != '+',
        digit_char(d) != '|',
{
}

pub proof fn lemma_dec_text_digits(n: nat)
    ensures
        all_digits(dec_text(n)),
        dec_text(n).len() >= 1,
        digits_value(dec_text(n)) == n,
        dec_text(n)[0] != '0' || n == 0,
        n < 10 ==> dec_text(n).len() == 1,
        n < 100 ==> dec_text(n).len() <= 2,
        n < 1000 ==> dec_text(n).len() <= 3,
    decreases n,
{
    lemma_digit_char(n % 10);
    if n < 10 {
        lemma_digit_char(n);
        let t = dec_text(n);
        assert(t.drop_last() =~= Seq::<char>::empty());
        assert(t.last() == digit_char(n));
        assert(digits_value(t) == digits_value(t.drop_last()) * 10 + digit_value(t.last()));
    } else {
        lemma_dec_text_digits(n / 10);
        let t = dec_text(n);
        assert(t.drop_last() == dec_text(n / 10));
        assert(t.last() == digit_char(n % 10));
        assert(digits_value(t) == digits_value(t.drop_last()) * 10 + digit_value(t.last()));
        assert forall|i: int| 0 <= i < t.len() implies is_ascii_digit(#[trigger] t[i]) by {
            if i < t.len() - 1 {
                assert(t[i] == dec_text(n / 10)[i]);
            }
        }
    }
}

/// Appends the decimal text of `n` to `out`.
pub fn push_decimal(out: &mut Vec<char>, n: u64)
    ensures
        final(out)@ == old(out)@ + dec_text(n as nat),
    decreases n,
{
    if n >= 10 {
        push_decimal(out, n / 10);
    }
    let d: u8 = (n % 10) as u8;
    let c = (48u8 + d) as char;
    out.push(c);
    proof {
        assert(old(out)@ + dec_text(n as nat) == old(out)@ + dec_text((n / 10) as nat) + seq![c]
            || n < 10);
    }
}

/// Decimal text of `n` (`u64::to_string`).
pub fn format_decimal(n: u64) -> (res: String)
    ensures
        res@ == dec_text(n as nat),
{
    let mut v: Vec<char> = Vec::new();
    push_decimal(&mut v, n);
    string_from_chars(v.as_slice())
}

/// Parses an unsigned decimal number as std's integer `FromStr` does,
/// for a target type whose maximum is `max`.
pub fn parse_unsigned_chars(s: &[char], max: u64) -> (res: Option<u64>)
    ensures
        res matches Some(v) ==> parse_unsigned(s@, max as nat) == Some(v as nat),
        res is None ==> parse_unsigned(s@, max as nat) is None,
{
    let start: usize = if s.len() > 0 && s[0] == '+' {
        1
    } else {
        0
    };
    let ghost body = if s@.len() > 0 && s@[0] == '+' {
        s@.drop_first()
    } else {
        s@
    };
    assert(body == s@.skip(start as int));
    if start >= s.len() {
        return None;
    }
    let mut acc: u64 = 0;
    let mut i: usize = start;
    while i < s.len()
        invariant
            start <= i <= s.len(),
            start < s.len(),
            body == s@.skip(start as int),
            body == (if s@.len() > 0 && s@[0] == '+' { s@.drop_first() } else { s@ }),
            all_digits(s@.subrange(start as int, i as int)),
            acc as nat == digits_value(s@.subrange(start as int, i as int)),
            acc <= max,
        decreases s.len() - i,
    {
        let c = s[i];
        if !is_digit_char(c) {
            assert(!all_digits(body)) by {
                assert(body[i - start] == c);
            }
            assert(parse_unsigned(s@, max as nat) is None);
            return None;
        }
        let d: u64 = (c as u32 - 48) as u64;
        proof {
            let sub = s@.subrange(start as int, i + 1);
            assert(sub.drop_last() == s@.subrange(start as int, i as int));
            assert(sub.last() == c);
        }
        if acc > max / 10 {
            proof {
                assert(acc * 10 + d > max) by (nonlinear_arith)
                    requires
                        acc > max / 10,
                ;
            }
            proof {
                lemma_too_large_rejected(s@, body, start as int, i as int, max as nat);
            }
            return None;
        }
        assert(acc * 10 <= max) by (nonlinear_arith)
            requires
                acc <= max / 10,
        ;
        let t = acc * 10;
        if d > max - t {
            proof {
                lemma_too_large_rejected(s@, body, start as int, i as int, max as nat);
            }
            return None;
        }
        acc = t + d;
        i = i + 1;
    }
    proof {
        assert(s@.subrange(start as int, s.len() as int) == body);
    }
    Some(acc)
}

proof fn lemma_too_large_rejected(s: Seq<char>, body: Seq<char>, start: int, i: int, max: nat)
    requires
        0 <= start <= i < s.len(),
        body == s.skip(start),
        body == (if s.len() > 0 && s[0] == '+' { s.drop_first() } else { s }),
        digits_value(s.subrange(start, i + 1)) > max,
    ensures
        parse_unsigned(s, max) is None,
{
    if all_digits(body) {
        lemma_digits_value_prefix_monotone(body, i + 1 - start);
        assert(s.subrange(start, i + 1) == body.take(i + 1 - start));
    }
}

/// Extending a digit run never lowers its value: if some prefix is already
/// above a bound, so is the whole run.
proof fn lemma_digits_value_prefix_monotone(s: Seq<char>, k: int)
    requires
        0 <= k <= s.len(),
        all_digits(s),
    ensures
        digits_value(s.take(k)) <= digits_value(s),
    decreases s.len() - k,
{
    if k < s.len() {
        lemma_digits_value_prefix_monotone(s, k + 1);
        let t = s.take(k + 1);
        assert(t.drop_last() == s.take(k));
        assert(is_ascii_digit(t.last())) by {
            assert(t.last() == s[k]);
        }
    } else {
        assert(s.take(k) == s);
    }
}

// ---------------------------------------------------------------------
// IPv4 addresses
// ---------------------------------------------------------------------

/// An IPv4 address, by its four octets in network order.
#[derive(Clone, Copy, Debug, PartialEq, Eq, Structural, Hash)]
pub struct Ipv4Addr {
    pub a: u8,
    pub b: u8,
    pub c: u8,
    pub d: u8,
}

/// The address as a 32-bit number (`u32::from(Ipv4Addr)`).
pub open spec fn ipv4_u32(ip: Ipv4Addr) -> nat {
    ip.a as nat * 0x1000000 + ip.b as nat * 0x10000 + ip.c as nat * 0x100 + ip.d as nat
}

/// The address with the given 32-bit number (`Ipv4Addr::from(u32)`).
pub open spec fn ipv4_from_u32(v: u32) -> Ipv4Addr {
    Ipv4Addr {
        a: (v / 0x1000000) as u8,
        b: ((v / 0x10000) % 0x100) as u8,
        c: ((v / 0x100) % 0x100) as u8,
        d: (v % 0x100) as u8,
    }
}

/// Dotted-quad text, e.g. `10.66.0.2` (`Display for Ipv4Addr`).
pub open spec fn ipv4_text(ip: Ipv4Addr) -> Seq<char> {
    dec_text(ip.a as nat) + seq!['.'] + dec_text(ip.b as nat) + seq!['.'] + dec_text(ip.c as nat)
        + seq!['.'] + dec_text(ip.d as nat)
}

/// One dotted-quad component as std's parser accepts it: one to three
/// digits, no leading zero unless the component is `0`, value at most 255.
pub open spec fn octet_text_ok(p: Seq<char>) -> bool {
    &&& 1 <= p.len() <= 3
    &&& all_digits(p)
    &&& (p.len() == 1 || p[0] != '0')
    &&& digits_value(p) <= 255
}

/// `Ipv4Addr::from_str`: exactly four components separated by dots.
pub open spec fn parse_ipv4(s: Seq<char>) -> Option<Ipv4Addr> {
    let parts = split_char(s, '.');
    if parts.len() == 4 && octet_text_ok(parts[0]) && octet_text_ok(parts[1]) && octet_text_ok(
        parts[2],
    ) && octet_text_ok(parts[3]) {
        Some(
            Ipv4Addr {
                a: digits_value(parts[0]) as u8,
                b: digits_value(parts[1]) as u8,
                c: digits_value(parts[2]) as u8,
                d: digits_value(parts[3]) as u8,
            },
        )
    } else {
        None
    }
}

impl Ipv4Addr {
    pub fn new(a: u8, b: u8, c: u8, d: u8) -> (ip: Ipv4Addr)
        ensures
            ip == (Ipv4Addr { a, b, c, d }),
    {
        Ipv4Addr { a, b, c, d }
    }

    pub fn octets(&self) -> (o: [u8; 4])
        ensures
            o@ == seq![self.a, self.b, self.c, self.d],
    {
        [self.a, self.b, self.c, self.d]
    }

    /// 255.255.255.255.
    pub fn broadcast() -> (ip: Ipv4Addr)
        ensures
            ip == (Ipv4Addr { a: 255, b: 255, c: 255, d: 255 }),
    {
        Ipv4Addr { a: 255, b: 255, c: 255, d: 255 }
    }

    pub fn to_u32(&self) -> (v: u32)
        ensures
            v as nat == ipv4_u32(*self),
    {
        (self.a as u32) * 0x1000000 + (self.b as u32) * 0x10000 + (self.c as u32) * 0x100
            + (self.d as u32)
    }

    pub fn from_u32(v: u32) -> (ip: Ipv4Addr)
        ensures
            ipv4_u32(ip) == v as nat,
            ip == ipv4_from_u32(v),
    {
        let a = (v / 0x1000000) as u8;
        let b = ((v / 0x10000) % 0x100) as u8;
        let c = ((v / 0x100) % 0x100) as u8;
        let d = (v % 0x100) as u8;
        Ipv4Addr { a, b, c, d }
    }

    /// Dotted-quad text.
    pub fn to_text(&self) -> (res: String)
        ensures
            res@ == ipv4_text(*self),
    {
        let mut v: Vec<char> = Vec::new();
        push_ipv4(&mut v, *self);
        string_from_chars(v.as_slice())
    }
}

pub fn push_ipv4(out: &mut Vec<char>, ip: Ipv4Addr)
    ensures
        final(out)@ == old(out)@ + ipv4_text(ip),
{
    push_decimal(out, ip.a as u64);
    out.push('.');
    push_decimal(out, ip.b as u64);
    out.push('.');
    push_decimal(out, ip.c as u64);
    out.push('.');
    push_decimal(out, ip.d as u64);
    assert(final(out)@ =~= old(out)@ + ipv4_text(ip));
}

fn parse_octet(p: &Vec<char>) -> (res: Option<u8>)
    ensures
        res matches Some(v) ==> octet_text_ok(p@) && v as nat == digits_value(p@),
        res is None ==> !octet_text_ok(p@),
{
    if p.len() < 1 || p.len() > 3 {
        return None;
    }
    if p.len() > 1 && p[0] == '0' {
        return None;
    }
    if p[0] == '+' {
        return None;
    }
    match parse_unsigned_chars(p.as_slice(), 255) {
        Some(v) => {
            assert(p@[0] != '+');
            Some(v as u8)
        },
        None => {
            assert(p@[0] != '+');
            None
        },
    }
}

/// Parses dotted-quad text exactly as `Ipv4Addr::from_str` does.
pub fn parse_ipv4_chars(s: &[char]) -> (res: Option<Ipv4Addr>)
    ensures
        res == parse_ipv4(s@),
{
    let parts = split_chars(s, '.');
    if parts.len() != 4 {
        return None;
    }
    let a = parse_octet(&parts[0]);
    let b = parse_octet(&parts[1]);
    let c = parse_octet(&parts[2]);
    let d = parse_octet(&parts[3]);
    match (a, b, c, d) {
        (Some(a), Some(b), Some(c), Some(d)) => Some(Ipv4Addr { a, b, c, d }),
        _ => None,
    }
}

/// Parses dotted-quad text exactly as `Ipv4Addr::from_str` does.
pub fn parse_ipv4_str(s: &str) -> (res: Option<Ipv4Addr>)
    ensures
        res == parse_ipv4(s@),
{
    let v = chars_of(s);
    parse_ipv4_chars(v.as_slice())
}

// ---------------------------------------------------------------------
// Socket addresses
// ---------------------------------------------------------------------

/// An IPv4 socket address (`ip:port`). The mesh is IPv4-only end to end.
#[derive(Clone, Copy, Debug, PartialEq, Eq, Structural, Hash)]
pub struct SocketAddr {
    pub ip: Ipv4Addr,
    pub port: u16,
}

/// `ip:port` text (`Display for SocketAddrV4`).
pub open spec fn socket_text(a: SocketAddr) -> Seq<char> {
    ipv4_text(a.ip) + seq![':'] + dec_text(a.port as nat)
}

/// The port half of `SocketAddrV4::from_str`: one or more digits, leading
/// zeros allowed, value at most 65535.
pub open spec fn port_text_ok(p: Seq<char>) -> bool {
    p.len() > 0 && all_digits(p) && digits_value(p) <= 65535
}

/// `SocketAddrV4::from_str`: a dotted quad, a colon, a port.
pub open spec fn parse_socket_addr(s: Seq<char>) -> Option<SocketAddr> {
    let parts = split_char(s, ':');
    if parts.len() == 2 && parse_ipv4(parts[0]) is Some && port_text_ok(parts[1]) {
        Some(SocketAddr { ip: parse_ipv4(parts[0])->0, port: digits_value(parts[1]) as u16 })
    } else {
        None
    }
}

impl SocketAddr {
    pub fn new(ip: Ipv4Addr, port: u16) -> (a: SocketAddr)
        ensures
            a == (SocketAddr { ip, port }),
    {
        SocketAddr { ip, port }
    }

    pub fn ip(&self) -> (ip: Ipv4Addr)
        ensures
            ip == self.ip,
    {
        self.ip
    }

    pub fn port(&self) -> (p: u16)
        ensures
            p == self.port,
    {
        self.port
    }

    /// `ip:port` text.
    pub fn to_text(&self) -> (res: String)
        ensures
            res@ == socket_text(*self),
    {
        let mut v: Vec<char> = Vec::new();
        push_ipv4(&mut v, self.ip);
        v.push(':');
        push_decimal(&mut v, self.port as u64);
        assert(v@ =~= socket_text(*self));
        string_from_chars(v.as_slice())
    }
}

/// Parses `ip:port` text exactly as `SocketAddrV4::from_str` does.
pub fn parse_socket_addr_str(s: &str) -> (res: Option<SocketAddr>)
    ensures
        res == parse_socket_addr(s@),
{
    let v = chars_of(s);
    let parts = split_chars(v.as_slice(), ':');
    if parts.len() != 2 {
        return None;
    }
    let ip = parse_ipv4_chars(parts[0].as_slice());
    let port_part = &parts[1];
    if port_part.len() == 0 || port_part[0] == '+' {
        return None;
    }
    let port = parse_unsigned_chars(port_part.as_slice(), 65535);
    match (ip, port) {
        (Some(ip), Some(port)) => {
            assert(port_part@[0] != '+');
            Some(SocketAddr { ip, port: port as u16 })
        },
        _ => {
            assert(port_part@[0] != '+' ==> (port is None ==> !port_text_ok(port_part@)));
            None
        },
    }
}

// ---------------------------------------------------------------------
// Text round trips
// ---------------------------------------------------------------------

proof fn lemma_dec_no_char(n: nat, c: char)
    requires
        !is_ascii_digit(c),
    ensures
        forall|i: int| 0 <= i < dec_text(n).len() ==> dec_text(n)[i] != c,
{
    lemma_dec_text_digits(n);
}

proof fn lemma_octet_text(v: u8)
    ensures
        octet_text_ok(dec_text(v as nat)),
        digits_value(dec_text(v as nat)) == v as nat,
{
    lemma_dec_text_digits(v as nat);
}

/// The dotted-quad text of an address parses back to that address, and
/// has no surrounding whitespace.
pub proof fn lemma_ipv4_text_roundtrip(ip: Ipv4Addr)
    ensures
        parse_ipv4(ipv4_text(ip)) == Some(ip),
        trim(ipv4_text(ip)) == ipv4_text(ip),
        forall|i: int| 0 <= i < ipv4_text(ip).len() ==> ipv4_text(ip)[i] != ':',
        forall|i: int| 0 <= i < ipv4_text(ip).len() ==> ipv4_text(ip)[i] != '|',
{
    let ta = dec_text(ip.a as nat);
    let tb = dec_text(ip.b as nat);
    let tc = dec_text(ip.c as nat);
    let td = dec_text(ip.d as nat);
    lemma_dec_no_char(ip.a as nat, '.');
    lemma_dec_no_char(ip.b as nat, '.');
    lemma_dec_no_char(ip.c as nat, '.');
    lemma_dec_no_char(ip.d as nat, '.');
    lemma_octet_text(ip.a);
    lemma_octet_text(ip.b);
    lemma_octet_text(ip.c);
    lemma_octet_text(ip.d);
    lemma_split_single(ta, '.');
    lemma_split_push_piece(ta, tb, '.');
    lemma_split_push_piece(ta + seq!['.'] + tb, tc, '.');
    lemma_split_push_piece(ta + seq!['.'] + tb + seq!['.'] + tc, td, '.');
    let t = ipv4_text(ip);
    let parts = split_char(t, '.');
    assert(parts =~= seq![ta, tb, tc, td]);
    lemma_dec_text_digits(ip.a as nat);
    lemma_dec_text_digits(ip.d as nat);
    assert(t[0] == ta[0]);
    assert(t.last() == td.last());
    crate::text::lemma_trim_noop(t);
    assert forall|i: int| 0 <= i < t.len() implies t[i] != ':' && t[i] != '|' by {
        lemma_dec_text_digits(ip.b as nat);
        lemma_dec_text_digits(ip.c as nat);
        if i < ta.len() {
            assert(t[i] == ta[i]);
        } else if i < ta.len() + 1 {
        } else if i < ta.len() + 1 + tb.len() {
            assert(t[i] == tb[i - ta.len() - 1]);
        } else if i < ta.len() + 2 + tb.len() {
        } else if i < ta.len() + 2 + tb.len() + tc.len() {
            assert(t[i] == tc[i - ta.len() - 2 - tb.len()]);
        } else if i < ta.len() + 3 + tb.len() + tc.len() {
        } else {
            assert(t[i] == td[i - ta.len() - 3 - tb.len() - tc.len()]);
        }
    }
}

/// The `ip:port` text of a socket address parses back to it.
pub proof fn lemma_socket_text_roundtrip(a: SocketAddr)
    ensures
        parse_socket_addr(socket_text(a)) == Some(a),
{
    lemma_ipv4_text_roundtrip(a.ip);
    let ti = ipv4_text(a.ip);
    let tp = dec_text(a.port as nat);
    lemma_dec_no_char(a.port as nat, ':');
    lemma_dec_text_digits(a.port as nat);
    lemma_split_single(ti, ':');
    lemma_split_push_piece(ti, tp, ':');
    assert(split_char(socket_text(a), ':') =~= seq![ti, tp]);
}

} // verus!
