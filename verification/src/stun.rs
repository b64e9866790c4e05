//! A minimal RFC 5389 STUN Binding Request client: building the request
//! and reading the mapped address out of a Binding Success response.
//! Sending and receiving are done by the caller on its own socket.

use vstd::prelude::*;
use crate::net::{Ipv4Addr, SocketAddr, ipv4_from_u32};

verus! {

pub const MAGIC_COOKIE: u32 = 0x2112A442;

pub const BINDING_REQUEST: u16 = 0x0001;

pub const BINDING_RESPONSE_SUCCESS: u16 = 0x0101;

pub const XOR_MAPPED_ADDRESS: u16 = 0x0020;

pub const MAPPED_ADDRESS: u16 = 0x0001;

/// Binding Request header with an empty body: type, zero length, magic
/// cookie, transaction ID.
pub open spec fn request_bytes(tx_id: Seq<u8>) -> Seq<u8> {
    seq![0x00u8, 0x01u8, 0x00u8, 0x00u8, 0x21u8, 0x12u8, 0xA4u8, 0x42u8] + tx_id
}

pub fn build_request(tx_id: &[u8; 12]) -> (buf: [u8; 20])
    ensures
        buf@ == request_bytes(tx_id@),
{
    let mut buf: [u8; 20] = [0u8; 20];
    buf[0] = 0x00;
    buf[1] = 0x01;
    buf[2] = 0x00;
    buf[3] = 0x00;
    buf[4] = 0x21;
    buf[5] = 0x12;
    buf[6] = 0xA4;
    buf[7] = 0x42;
    let mut i: usize = 0;
    while i < 12
        invariant
            i <= 12,
            buf@.len() == 20,
            buf@.subrange(0, 8) == seq![0x00u8, 0x01u8, 0x00u8, 0x00u8, 0x21u8, 0x12u8, 0xA4u8, 0x42u8],
            forall|k: int| 0 <= k < i ==> buf@[8 + k] == tx_id@[k],
        decreases 12 - i,
    {
        buf[8 + i] = tx_id[i];
        i = i + 1;
    }
    assert(buf@ =~= request_bytes(tx_id@));
    buf
}

pub open spec fn be16_at(d: Seq<u8>, at: int) -> u16 {
    (d[at] as nat * 256 + d[at + 1] as nat) as u16
}

pub open spec fn be32_at(d: Seq<u8>, at: int) -> u32 {
    (d[at] as nat * 0x1000000 + d[at + 1] as nat * 0x10000 + d[at + 2] as nat * 256 + d[at
        + 3] as nat) as u32
}

/// Attribute value length rounded up to a multiple of four.
pub open spec fn padded_len(n: int) -> int {
    (n + 3) / 4 * 4
}

/// The address an attribute carries, if it is an IPv4 XOR-MAPPED-ADDRESS,
/// or an IPv4 MAPPED-ADDRESS when nothing was found before it; otherwise
/// the result so far.
pub open spec fn apply_attr(attr_type: u16, val: Seq<u8>, result: Option<SocketAddr>) -> Option<
    SocketAddr,
> {
    if attr_type == XOR_MAPPED_ADDRESS && val.len() >= 8 && val[1] == 0x01 {
        let port = be16_at(val, 2) ^ ((MAGIC_COOKIE / 0x10000) as u16);
        let addr = be32_at(val, 4) ^ MAGIC_COOKIE;
        Some(SocketAddr { ip: ipv4_from_u32(addr), port })
    } else if attr_type == MAPPED_ADDRESS && val.len() >= 8 && val[1] == 0x01 && result is None {
        Some(
            SocketAddr {
                ip: Ipv4Addr { a: val[4], b: val[5], c: val[6], d: val[7] },
                port: be16_at(val, 2),
            },
        )
    } else {
        result
    }
}

/// Walks the attributes of a message body from `offset`, stopping at the
/// first one whose header or value runs past the body.
pub open spec fn scan_attrs(body: Seq<u8>, offset: int, result: Option<SocketAddr>) -> Option<
    SocketAddr,
>
    decreases body.len() + 4 - offset,
{
    if offset < 0 || offset + 4 > body.len() {
        result
    } else {
        let attr_type = be16_at(body, offset);
        let attr_len = be16_at(body, offset + 2) as int;
        let vs = offset + 4;
        let ve = vs + attr_len;
        if ve > body.len() {
            result
        } else {
            let r = apply_attr(attr_type, body.subrange(vs, ve), result);
            scan_attrs(body, vs + padded_len(attr_len), r)
        }
    }
}

/// The address a Binding Success response for `tx_id` reports, if any:
/// the last XOR-MAPPED-ADDRESS, else the first MAPPED-ADDRESS.
pub open spec fn parse_response_spec(data: Seq<u8>, tx_id: Seq<u8>) -> Option<SocketAddr> {
    if data.len() < 20 {
        None
    } else if be16_at(data, 0) != BINDING_RESPONSE_SUCCESS {
        None
    } else if data.subrange(8, 20) != tx_id {
        None
    } else if 20 + be16_at(data, 2) as int > data.len() {
        None
    } else {
        scan_attrs(data.subrange(20, 20 + be16_at(data, 2) as int), 0, None)
    }
}

fn get16(d: &[u8], at: usize) -> (v: u16)
    requires
        at + 2 <= d@.len(),
    ensures
        v == be16_at(d@, at as int),
{
    (d[at] as u16) * 256 + (d[at + 1] as u16)
}

fn get32(d: &[u8], at: usize) -> (v: u32)
    requires
        at + 4 <= d@.len(),
    ensures
        v == be32_at(d@, at as int),
{
    (d[at] as u32) * 0x1000000 + (d[at + 1] as u32) * 0x10000 + (d[at + 2] as u32) * 256 + (d[at
        + 3] as u32)
}

fn parse_response(data: &[u8], tx_id: &[u8; 12]) -> (res: Option<SocketAddr>)
    ensures
        res == parse_response_spec(data@, tx_id@),
{
    if data.len() < 20 {
        return None;
    }
    let msg_type = get16(data, 0);
    let msg_len = get16(data, 2) as usize;
    if msg_type != BINDING_RESPONSE_SUCCESS {
        return None;
    }
    let mut i: usize = 0;
    while i < 12
        invariant
            i <= 12,
            data@.len() >= 20,
            forall|k: int| 0 <= k < i ==> data@[8 + k] == tx_id@[k],
        decreases 12 - i,
    {
        if data[8 + i] != tx_id[i] {
            assert(data@.subrange(8, 20)[i as int] != tx_id@[i as int]);
            return None;
        }
        i = i + 1;
    }
    assert(data@.subrange(8, 20) =~= tx_id@);
    if msg_len > data.len() - 20 {
        return None;
    }
    let body = &data[20..20 + msg_len];
    let ghost b = body@;
    assert(scan_attrs(b, 0, None) == parse_response_spec(data@, tx_id@));
    let mut offset: usize = 0;
    let mut result: Option<SocketAddr> = None;
    while offset <= body.len() && body.len() - offset >= 4
        invariant
            body@ == b,
            b.len() <= 65535,
            scan_attrs(b, 0, None) == scan_attrs(b, offset as int, result),
            scan_attrs(b, 0, None) == parse_response_spec(data@, tx_id@),
            offset <= b.len() + 65536,
        decreases b.len() + 65536 - offset,
    {
        let attr_type = get16(body, offset);
        let attr_len = get16(body, offset + 2) as usize;
        let val_start = offset + 4;
        if attr_len > body.len() - val_start {
            assert(scan_attrs(b, offset as int, result) == result);
            return result;
        }
        let val_end = val_start + attr_len;
        let val = &body[val_start..val_end];
        let padded = (attr_len + 3) / 4 * 4;
        let next = val_start + padded;
        if attr_type == XOR_MAPPED_ADDRESS && val.len() >= 8 && val[1] == 0x01 {
            let xport = get16(val, 2);
            let port = xport ^ 0x2112u16;
            let xaddr = get32(val, 4);
            let addr = xaddr ^ MAGIC_COOKIE;
            let ip = Ipv4Addr::from_u32(addr);
            result = Some(SocketAddr { ip, port });
        } else if attr_type == MAPPED_ADDRESS && val.len() >= 8 && val[1] == 0x01 && result.is_none() {
            let port = get16(val, 2);
            let ip = Ipv4Addr { a: val[4], b: val[5], c: val[6], d: val[7] };
            result = Some(SocketAddr { ip, port });
        }
        offset = next;
    }
    result
}

/// A Binding Success response for `tx_id` whose only attribute is an
/// IPv4 MAPPED-ADDRESS carrying `port` and `ip` as they are (no XOR).
pub open spec fn mapped_address_response(tx_id: Seq<u8>, ip: Ipv4Addr, port: u16) -> Seq<u8> {
    seq![0x01u8, 0x01u8, 0x00u8, 12u8, 0x21u8, 0x12u8, 0xA4u8, 0x42u8] + tx_id + seq![
        0x00u8,
        0x01u8,
        0x00u8,
        0x08u8,
        0x00u8,
        0x01u8,
        (port / 256) as u8,
        (port % 256) as u8,
        ip.a,
        ip.b,
        ip.c,
        ip.d,
    ]
}

/// A plain MAPPED-ADDRESS is read as it stands: a response whose only
/// attribute is one reports exactly the port and address it carries.
pub proof fn lemma_mapped_address_read_plainly(tx_id: Seq<u8>, ip: Ipv4Addr, port: u16)
    requires
        tx_id.len() == 12,
    ensures
        parse_response_spec(mapped_address_response(tx_id, ip, port), tx_id) == Some(SocketAddr { ip, port }),
{
    let d = mapped_address_response(tx_id, ip, port);
    assert(d.len() == 32);
    assert(be16_at(d, 0) == BINDING_RESPONSE_SUCCESS);
    assert(d.subrange(8, 20) =~= tx_id);
    assert(be16_at(d, 2) == 12);
    let body = d.subrange(20, 32);
    let val = seq![0x00u8, 0x01u8, (port / 256) as u8, (port % 256) as u8, ip.a, ip.b, ip.c, ip.d];
    assert(body =~= seq![0x00u8, 0x01u8, 0x00u8, 0x08u8] + val);
    assert(be16_at(body, 0) == MAPPED_ADDRESS);
    assert(be16_at(body, 2) == 8);
    assert(body.subrange(4, 12) =~= val);
    assert(be16_at(val, 2) == port);
    let r = apply_attr(MAPPED_ADDRESS, val, None);
    assert(r == Some(SocketAddr { ip, port }));
    assert(padded_len(8) == 8);
    assert(scan_attrs(body, 12, r) == r);
    assert(scan_attrs(body, 0, None) == scan_attrs(body, 12, r));
}

/// The big-endian bytes of a 32-bit number.
pub open spec fn be32_bytes(v: u32) -> Seq<u8> {
    seq![(v / 0x1000000) as u8, ((v / 0x10000) % 0x100) as u8, ((v / 0x100) % 0x100) as u8, (v % 0x100) as u8]
}

/// The address as one 32-bit number, first octet highest.
pub open spec fn ip_number(ip: Ipv4Addr) -> u32 {
    ((ip.a as u32) * 0x1000000 + (ip.b as u32) * 0x10000 + (ip.c as u32) * 0x100 + ip.d as u32) as u32
}

/// A Binding Success response for `tx_id` whose only attribute is an
/// IPv4 XOR-MAPPED-ADDRESS for `ip` and `port`: the port XORed with the
/// top half of the magic cookie, the address with the whole cookie.
pub open spec fn xor_mapped_address_response(tx_id: Seq<u8>, ip: Ipv4Addr, port: u16) -> Seq<u8> {
    let xp = port ^ 0x2112u16;
    seq![0x01u8, 0x01u8, 0x00u8, 12u8, 0x21u8, 0x12u8, 0xA4u8, 0x42u8] + tx_id + seq![
        0x00u8,
        0x20u8,
        0x00u8,
        0x08u8,
        0x00u8,
        0x01u8,
        (xp / 256) as u8,
        (xp % 256) as u8,
    ] + be32_bytes(ip_number(ip) ^ 0x2112A442u32)
}

/// An XOR-MAPPED-ADDRESS is decoded with the magic cookie: a response
/// whose only attribute is one for `ip` and `port` reports exactly them.
pub proof fn lemma_xor_mapped_address_decoded(tx_id: Seq<u8>, ip: Ipv4Addr, port: u16)
    requires
        tx_id.len() == 12,
    ensures
        parse_response_spec(xor_mapped_address_response(tx_id, ip, port), tx_id) == Some(
            SocketAddr { ip, port },
        ),
{
    let d = xor_mapped_address_response(tx_id, ip, port);
    let xp = port ^ 0x2112u16;
    let n = ip_number(ip);
    let xa = n ^ 0x2112A442u32;
    let val = seq![0x00u8, 0x01u8, (xp / 256) as u8, (xp % 256) as u8] + be32_bytes(xa);
    assert(d.len() == 32);
    assert(be16_at(d, 0) == BINDING_RESPONSE_SUCCESS);
    assert(d.subrange(8, 20) =~= tx_id);
    assert(be16_at(d, 2) == 12);
    let body = d.subrange(20, 32);
    assert(body =~= seq![0x00u8, 0x20u8, 0x00u8, 0x08u8] + val);
    assert(be16_at(body, 0) == XOR_MAPPED_ADDRESS);
    assert(be16_at(body, 2) == 8);
    assert(body.subrange(4, 12) =~= val);
    assert(be16_at(val, 2) == xp);
    assert((xp ^ 0x2112u16) == port) by (bit_vector)
        requires
            xp == port ^ 0x2112u16,
    ;
    assert((MAGIC_COOKIE / 0x10000) as u16 == 0x2112u16);
    assert(((xa / 0x1000000) as u8) as nat * 0x1000000 + (((xa / 0x10000) % 0x100) as u8) as nat * 0x10000
        + (((xa / 0x100) % 0x100) as u8) as nat * 256 + ((xa % 0x100) as u8) as nat == xa as nat) by (bit_vector);
    assert(be32_at(val, 4) == xa);
    assert((xa ^ 0x2112A442u32) == n) by (bit_vector)
        requires
            xa == n ^ 0x2112A442u32,
    ;
    let (a, b, c, e) = (ip.a, ip.b, ip.c, ip.d);
    assert(n == ((a as u32) * 0x1000000 + (b as u32) * 0x10000 + (c as u32) * 0x100 + e as u32) as u32);
    assert(((((a as u32) * 0x1000000 + (b as u32) * 0x10000 + (c as u32) * 0x100 + e as u32) as u32)
        / 0x1000000) as u8 == a && ((((((a as u32) * 0x1000000 + (b as u32) * 0x10000 + (c as u32) * 0x100
        + e as u32) as u32) / 0x10000) % 0x100) as u8) == b && ((((((a as u32) * 0x1000000 + (b as u32)
        * 0x10000 + (c as u32) * 0x100 + e as u32) as u32) / 0x100) % 0x100) as u8) == c && (((((a as u32)
        * 0x1000000 + (b as u32) * 0x10000 + (c as u32) * 0x100 + e as u32) as u32) % 0x100) as u8) == e)
        by (bit_vector);
    assert(ipv4_from_u32(n) == ip);
    let r = apply_attr(XOR_MAPPED_ADDRESS, val, None);
    assert(r == Some(SocketAddr { ip, port }));
    assert(padded_len(8) == 8);
    assert(scan_attrs(body, 12, r) == r);
    assert(scan_attrs(body, 0, None) == scan_attrs(body, 12, r));
}

/// Cheap shape check: at least 8 bytes with the magic cookie at offset 4.
pub open spec fn looks_like_stun_spec(data: Seq<u8>) -> bool {
    data.len() >= 8 && be32_at(data, 4) == MAGIC_COOKIE
}

pub fn looks_like_stun_message(data: &[u8]) -> (b: bool)
    ensures
        b == looks_like_stun_spec(data@),
{
    data.len() >= 8 && get32(data, 4) == MAGIC_COOKIE
}

/// Parses `data` as a Binding Success response, accepted only if its
/// transaction ID matches `tx_id`.
pub fn try_parse_response_for(data: &[u8], tx_id: &[u8; 12]) -> (res: Option<SocketAddr>)
    ensures
        res == parse_response_spec(data@, tx_id@),
{
    parse_response(data, tx_id)
}

/// Twelve fresh random bytes from the thread-local generator
/// (`rand::RngExt::fill` on `rand::rng()`); nothing is promised about
/// their values.
#[verifier::external_body]
fn random_transaction_id() -> (tx: [u8; 12]) {
    let mut tx_id = [0u8; 12];
    rand::RngExt::fill(&mut rand::rng(), &mut tx_id[..]);
    tx_id
}

/// A fresh random transaction ID and the request bytes that carry it.
pub fn new_transaction() -> (res: ([u8; 12], [u8; 20]))
    ensures
        res.1@ == request_bytes(res.0@),
{
    let tx_id = random_transaction_id();
    let req = build_request(&tx_id);
    (tx_id, req)
}

} // verus!
