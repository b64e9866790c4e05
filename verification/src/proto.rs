//! The plaintext mesh packet format (what gets AEAD-sealed as a whole):
//!
//! ```text
//!   byte 0     : packet type
//!   bytes 1..5 : sender's virtual IPv4 address (network byte order)
//!   bytes 5..  : payload
//! ```
//!
//! plus the two IPv4 header fields the router reads, and the rule for
//! which destinations are flooded to every peer.

use vstd::prelude::*;
use crate::net::Ipv4Addr;

verus! {

pub const TYPE_DATA: u8 = 1;

/// No longer sent (PING doubles as the keepalive) but still a reserved,
/// harmlessly handled value for older builds.
pub const TYPE_KEEPALIVE: u8 = 2;

/// Latency probe carrying an 8-byte big-endian sequence number, echoed
/// back unchanged in a PONG.
pub const TYPE_PING: u8 = 3;

pub const TYPE_PONG: u8 = 4;

/// Carries one gossip payload (see `gossip`).
pub const TYPE_GOSSIP: u8 = 5;

pub const HEADER_LEN: usize = 5;

#[derive(Clone, Copy, Debug, PartialEq, Eq, Structural)]
pub struct Header {
    pub packet_type: u8,
    pub sender_virtual_ip: Ipv4Addr,
}

/// The wire bytes of a packet.
pub open spec fn packet_bytes(packet_type: u8, ip: Ipv4Addr, payload: Seq<u8>) -> Seq<u8> {
    seq![packet_type, ip.a, ip.b, ip.c, ip.d] + payload
}

/// What `parse` reads out of a buffer.
pub open spec fn parse_packet(data: Seq<u8>) -> Option<(Header, Seq<u8>)> {
    if data.len() < HEADER_LEN {
        None
    } else {
        Some(
            (
                Header {
                    packet_type: data[0],
                    sender_virtual_ip: Ipv4Addr { a: data[1], b: data[2], c: data[3], d: data[4] },
                },
                data.skip(HEADER_LEN as int),
            ),
        )
    }
}

/// Builds the wire bytes of one packet.
pub fn build(packet_type: u8, sender_virtual_ip: Ipv4Addr, payload: &[u8]) -> (out: Vec<u8>)
    ensures
        out@ == packet_bytes(packet_type, sender_virtual_ip, payload@),
{
    let mut out: Vec<u8> = Vec::new();
    out.push(packet_type);
    out.push(sender_virtual_ip.a);
    out.push(sender_virtual_ip.b);
    out.push(sender_virtual_ip.c);
    out.push(sender_virtual_ip.d);
    let mut i: usize = 0;
    while i < payload.len()
        invariant
            i <= payload.len(),
            out@ == packet_bytes(packet_type, sender_virtual_ip, payload@.take(i as int)),
        decreases payload.len() - i,
    {
        out.push(payload[i]);
        i = i + 1;
        assert(payload@.take(i as int) == payload@.take(i - 1).push(payload@[i - 1]));
    }
    assert(payload@.take(payload.len() as int) == payload@);
    out
}

/// Splits a packet into its header and payload; `None` if it is shorter
/// than the header.
pub fn parse(data: &[u8]) -> (res: Option<(Header, &[u8])>)
    ensures
        match res {
            Some((h, p)) => parse_packet(data@) == Some((h, p@)),
            None => parse_packet(data@) is None,
        },
{
    if data.len() < HEADER_LEN {
        return None;
    }
    let header = Header {
        packet_type: data[0],
        sender_virtual_ip: Ipv4Addr { a: data[1], b: data[2], c: data[3], d: data[4] },
    };
    let rest = &data[HEADER_LEN..data.len()];
    assert(rest@ == data@.skip(HEADER_LEN as int));
    Some((header, rest))
}

/// Reading back what was built gives the same type, sender and payload.
pub proof fn lemma_packet_roundtrip(packet_type: u8, ip: Ipv4Addr, payload: Seq<u8>)
    ensures
        parse_packet(packet_bytes(packet_type, ip, payload)) == Some(
            (Header { packet_type, sender_virtual_ip: ip }, payload),
        ),
{
    let b = packet_bytes(packet_type, ip, payload);
    assert(b.skip(HEADER_LEN as int) =~= payload);
}

/// The destination address of a raw IPv4 packet, or `None` when the
/// buffer is not a plausible IPv4 packet (too short, or another version).
pub open spec fn ipv4_dst_spec(packet: Seq<u8>) -> Option<Ipv4Addr> {
    if packet.len() < 20 || packet[0] / 16 != 4 {
        None
    } else {
        Some(Ipv4Addr { a: packet[16], b: packet[17], c: packet[18], d: packet[19] })
    }
}

/// The source address of a raw IPv4 packet, under the same conditions.
pub open spec fn ipv4_src_spec(packet: Seq<u8>) -> Option<Ipv4Addr> {
    if packet.len() < 20 || packet[0] / 16 != 4 {
        None
    } else {
        Some(Ipv4Addr { a: packet[12], b: packet[13], c: packet[14], d: packet[15] })
    }
}

pub fn ipv4_dst(packet: &[u8]) -> (res: Option<Ipv4Addr>)
    ensures
        res == ipv4_dst_spec(packet@),
{
    if packet.len() < 20 {
        return None;
    }
    let version = packet[0] / 16;
    if version != 4 {
        return None;
    }
    Some(Ipv4Addr { a: packet[16], b: packet[17], c: packet[18], d: packet[19] })
}

pub fn ipv4_src(packet: &[u8]) -> (res: Option<Ipv4Addr>)
    ensures
        res == ipv4_src_spec(packet@),
{
    if packet.len() < 20 {
        return None;
    }
    let version = packet[0] / 16;
    if version != 4 {
        return None;
    }
    Some(Ipv4Addr { a: packet[12], b: packet[13], c: packet[14], d: packet[15] })
}

/// Flooded to every peer: the subnet broadcast address, 255.255.255.255,
/// or any multicast address (224.0.0.0/4).
pub open spec fn is_flood_target_spec(addr: Ipv4Addr, subnet_broadcast: Ipv4Addr) -> bool {
    addr == subnet_broadcast || addr == (Ipv4Addr { a: 255, b: 255, c: 255, d: 255 }) || (224
        <= addr.a <= 239)
}

pub fn is_flood_target(addr: Ipv4Addr, subnet_broadcast: Ipv4Addr) -> (b: bool)
    ensures
        b == is_flood_target_spec(addr, subnet_broadcast),
        224 <= addr.a <= 239 ==> b,
        addr == subnet_broadcast ==> b,
        (addr.a == 255 && addr.b == 255 && addr.c == 255 && addr.d == 255) ==> b,
        b ==> addr == subnet_broadcast || (224 <= addr.a <= 239) || (addr.a == 255 && addr.b == 255
            && addr.c == 255 && addr.d == 255),
{
    if addr == subnet_broadcast || addr == Ipv4Addr::broadcast() {
        return true;
    }
    224 <= addr.a && addr.a <= 239
}

/// What is flooded: every multicast address (first octet 224 to 239,
/// the whole 224.0.0.0/4 block), the limited broadcast 255.255.255.255
/// and the subnet's own broadcast address; nothing else.
pub proof fn lemma_flood_targets(addr: Ipv4Addr, subnet_broadcast: Ipv4Addr)
    ensures
        224 <= addr.a <= 239 ==> is_flood_target_spec(addr, subnet_broadcast),
        addr == subnet_broadcast ==> is_flood_target_spec(addr, subnet_broadcast),
        (addr.a == 255 && addr.b == 255 && addr.c == 255 && addr.d == 255) ==> is_flood_target_spec(
            addr,
            subnet_broadcast,
        ),
        is_flood_target_spec(addr, subnet_broadcast) ==> addr == subnet_broadcast || (224 <= addr.a
            <= 239) || (addr.a == 255 && addr.b == 255 && addr.c == 255 && addr.d == 255),
{
}

} // verus!
