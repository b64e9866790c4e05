//! Peer-table gossip: the wire format in which every node shares what it
//! knows about the mesh (name, virtual IP, best-known public address, how
//! fresh that address is, advertised services and an optional same-LAN
//! candidate address) with the peers it talks to.
//!
//! One payload is a count byte followed by that many entries:
//!
//! ```text
//!   4  virtual IP
//!   1  name length n (at most MAX_NAME_LEN), then n name bytes
//!   4  public IP, 2 public port (big-endian), 4 epoch seconds (big-endian)
//!   1  service name length m (at most MAX_SERVICE_NAME_LEN), m bytes,
//!      2 service port (big-endian)
//!   1  LAN flag, then 4 IP + 2 port bytes when the flag is non-zero
//! ```
//!
//! Parsing tolerates a truncated tail: the service and LAN fields may be
//! missing (older senders), in which case they read as empty/absent.

use vstd::prelude::*;
use vstd::utf8::{decode_utf8, encode_utf8, valid_utf8, encode_utf8_valid_utf8, encode_utf8_decode_utf8};
use crate::net::{Ipv4Addr, SocketAddr};

verus! {

/// At most this many entries go in one payload; a longer table is split
/// over several payloads sent back to back.
pub const MAX_ENTRIES_PER_PACKET: usize = 16;

pub const MAX_NAME_LEN: usize = 32;

/// Service names are short labels such as "game" or "voice".
pub const MAX_SERVICE_NAME_LEN: usize = 24;

#[derive(Debug, Clone, PartialEq, Eq)]
pub struct GossipEntry {
    pub virtual_ip: Ipv4Addr,
    pub name: String,
    pub addr: SocketAddr,
    /// Unix seconds (truncated to u32) at which the sender last confirmed
    /// this address; freshest wins when merging.
    pub epoch_secs: u32,
    /// Empty for a plain peer entry; otherwise the entry announces this
    /// named service of the peer at `virtual_ip`, on `service_port`.
    pub service_name: String,
    pub service_port: u16,
    /// The sender's own LAN-facing address, if it knows one.
    pub lan_addr: Option<SocketAddr>,
}

/// The mathematical content of a gossip entry.
pub struct EntryView {
    pub virtual_ip: Ipv4Addr,
    pub name: Seq<char>,
    pub addr: SocketAddr,
    pub epoch_secs: u32,
    pub service_name: Seq<char>,
    pub service_port: u16,
    pub lan_addr: Option<SocketAddr>,
}

impl View for GossipEntry {
    type V = EntryView;

    open spec fn view(&self) -> EntryView {
        EntryView {
            virtual_ip: self.virtual_ip,
            name: self.name@,
            addr: self.addr,
            epoch_secs: self.epoch_secs,
            service_name: self.service_name@,
            service_port: self.service_port,
            lan_addr: self.lan_addr,
        }
    }
}

pub open spec fn views(entries: Seq<GossipEntry>) -> Seq<EntryView> {
    Seq::new(entries.len(), |i: int| entries[i]@)
}

impl GossipEntry {
    /// A plain peer-address entry (no service, no LAN candidate).
    pub fn peer(virtual_ip: Ipv4Addr, name: &str, addr: SocketAddr, epoch_secs: u32) -> (e:
        GossipEntry)
        ensures
            e@ == (EntryView {
                virtual_ip,
                name: name@,
                addr,
                epoch_secs,
                service_name: Seq::<char>::empty(),
                service_port: 0,
                lan_addr: None,
            }),
    {
        GossipEntry {
            virtual_ip,
            name: name.to_owned(),
            addr,
            epoch_secs,
            service_name: String::new(),
            service_port: 0,
            lan_addr: None,
        }
    }

    /// A plain peer-address entry that also carries the sender's LAN
    /// candidate address.
    pub fn peer_with_lan(
        virtual_ip: Ipv4Addr,
        name: &str,
        addr: SocketAddr,
        epoch_secs: u32,
        lan_addr: Option<SocketAddr>,
    ) -> (e: GossipEntry)
        ensures
            e@ == (EntryView {
                virtual_ip,
                name: name@,
                addr,
                epoch_secs,
                service_name: Seq::<char>::empty(),
                service_port: 0,
                lan_addr,
            }),
    {
        GossipEntry {
            virtual_ip,
            name: name.to_owned(),
            addr,
            epoch_secs,
            service_name: String::new(),
            service_port: 0,
            lan_addr,
        }
    }

    /// A service announcement: `name` is the hosting peer's display name,
    /// `service`/`port` describe the service.
    pub fn service(
        virtual_ip: Ipv4Addr,
        name: &str,
        addr: SocketAddr,
        epoch_secs: u32,
        service: &str,
        port: u16,
    ) -> (e: GossipEntry)
        ensures
            e@ == (EntryView {
                virtual_ip,
                name: name@,
                addr,
                epoch_secs,
                service_name: service@,
                service_port: port,
                lan_addr: None,
            }),
    {
        GossipEntry {
            virtual_ip,
            name: name.to_owned(),
            addr,
            epoch_secs,
            service_name: service.to_owned(),
            service_port: port,
            lan_addr: None,
        }
    }

    pub fn is_service(&self) -> (b: bool)
        ensures
            b == (self.service_name@.len() > 0),
    {
        !self.service_name.as_str().is_empty()
    }
}

// ---------------------------------------------------------------------
// Byte-level model
// ---------------------------------------------------------------------

pub open spec fn be16(v: u16) -> Seq<u8> {
    seq![(v / 256) as u8, (v % 256) as u8]
}

pub open spec fn be32(v: u32) -> Seq<u8> {
    seq![(v / 0x1000000) as u8, ((v / 0x10000) % 256) as u8, ((v / 256) % 256) as u8, (v % 256) as u8]
}

pub open spec fn read16(data: Seq<u8>, at: int) -> u16 {
    (data[at] as nat * 256 + data[at + 1] as nat) as u16
}

pub open spec fn read32(data: Seq<u8>, at: int) -> u32 {
    (data[at] as nat * 0x1000000 + data[at + 1] as nat * 0x10000 + data[at + 2] as nat * 256
        + data[at + 3] as nat) as u32
}

pub open spec fn read_ip(data: Seq<u8>, at: int) -> Ipv4Addr {
    Ipv4Addr { a: data[at], b: data[at + 1], c: data[at + 2], d: data[at + 3] }
}

pub open spec fn ip_bytes(ip: Ipv4Addr) -> Seq<u8> {
    seq![ip.a, ip.b, ip.c, ip.d]
}

pub open spec fn min_nat(a: nat, b: nat) -> nat {
    if a < b {
        a
    } else {
        b
    }
}

/// The UTF-8 bytes of a name, cut to at most `max` bytes.
pub open spec fn cut_bytes(s: Seq<char>, max: nat) -> Seq<u8> {
    encode_utf8(s).take(min_nat(encode_utf8(s).len(), max) as int)
}

/// Virtual IP and name length.
pub open spec fn wire_head(e: EntryView) -> Seq<u8> {
    ip_bytes(e.virtual_ip) + seq![cut_bytes(e.name, MAX_NAME_LEN as nat).len() as u8]
}

/// Public address, port and epoch.
pub open spec fn wire_addr(e: EntryView) -> Seq<u8> {
    ip_bytes(e.addr.ip) + be16(e.addr.port) + be32(e.epoch_secs)
}

/// Service name length, service name, service port.
pub open spec fn wire_service(e: EntryView) -> Seq<u8> {
    let sb = cut_bytes(e.service_name, MAX_SERVICE_NAME_LEN as nat);
    seq![sb.len() as u8] + sb + be16(e.service_port)
}

/// The LAN flag and, when present, the LAN address.
pub open spec fn wire_lan(e: EntryView) -> Seq<u8> {
    match e.lan_addr {
        Some(lan) => seq![1u8] + ip_bytes(lan.ip) + be16(lan.port),
        None => seq![0u8],
    }
}

/// The wire bytes of one entry.
pub open spec fn entry_wire(e: EntryView) -> Seq<u8> {
    wire_head(e) + cut_bytes(e.name, MAX_NAME_LEN as nat) + wire_addr(e) + wire_service(e)
        + wire_lan(e)
}

pub open spec fn entries_wire(es: Seq<EntryView>) -> Seq<u8>
    decreases es.len(),
{
    if es.len() == 0 {
        Seq::<u8>::empty()
    } else {
        entries_wire(es.drop_last()) + entry_wire(es.last())
    }
}

/// One payload: a count byte (at most 255), then that many entries.
pub open spec fn single_payload(es: Seq<EntryView>) -> Seq<u8> {
    let n = min_nat(es.len(), 255);
    seq![n as u8] + entries_wire(es.take(n as int))
}

pub open spec fn chunk_count(n: nat) -> nat {
    ((n + 15) / 16) as nat
}

pub open spec fn chunk(es: Seq<EntryView>, i: int) -> Seq<EntryView> {
    let start = i * MAX_ENTRIES_PER_PACKET as int;
    let end = if start + MAX_ENTRIES_PER_PACKET as int <= es.len() {
        start + MAX_ENTRIES_PER_PACKET as int
    } else {
        es.len() as int
    };
    es.subrange(start, end)
}

/// What `String::from_utf8_lossy` makes of a byte run that is not valid
/// UTF-8 (each invalid sequence becomes U+FFFD).
pub uninterp spec fn utf8_lossy(bytes: Seq<u8>) -> Seq<char>;

/// Lossy UTF-8 decoding: valid UTF-8 decodes as itself.
pub open spec fn lossy_text(bytes: Seq<u8>) -> Seq<char> {
    if valid_utf8(bytes) {
        decode_utf8(bytes)
    } else {
        utf8_lossy(bytes)
    }
}

/// `String::from_utf8_lossy`, as an owned `String`. Its documentation
/// promises that valid UTF-8 is decoded unchanged; what it makes of an
/// invalid run is only named (`utf8_lossy`), not spelled out.
#[verifier::external_body]
pub(crate) fn string_from_utf8_lossy(bytes: &[u8]) -> (s: String)
    ensures
        valid_utf8(bytes@) ==> s@ == decode_utf8(bytes@),
        !valid_utf8(bytes@) ==> s@ == utf8_lossy(bytes@),
{
    String::from_utf8_lossy(bytes).into_owned()
}

/// Decodes the entry starting at `at`, given that its fixed-size prefix
/// (virtual IP, name, address, port, epoch) is present. Returns the entry
/// and the offset just past what was consumed.
pub open spec fn decode_entry(data: Seq<u8>, at: int) -> (EntryView, int) {
    let vip = read_ip(data, at);
    let name_len = data[at + 4] as int;
    let o = at + 5;
    let name = lossy_text(data.subrange(o, o + name_len));
    let o = o + name_len;
    let ip = read_ip(data, o);
    let port = read16(data, o + 4);
    let epoch = read32(data, o + 6);
    let o = o + 10;
    let (service_name, service_port, o) = if o + 1 <= data.len() {
        let slen = data[o] as int;
        let o1 = o + 1;
        if o1 + slen + 2 <= data.len() {
            (lossy_text(data.subrange(o1, o1 + slen)), read16(data, o1 + slen), o1 + slen + 2)
        } else {
            (Seq::<char>::empty(), 0u16, o1)
        }
    } else {
        (Seq::<char>::empty(), 0u16, o)
    };
    let (lan_addr, o) = if o + 1 <= data.len() {
        let present = data[o] != 0;
        let o1 = o + 1;
        if present && o1 + 6 <= data.len() {
            (Some(SocketAddr { ip: read_ip(data, o1), port: read16(data, o1 + 4) }), o1 + 6)
        } else {
            (None, o1)
        }
    } else {
        (None, o)
    };
    (
        EntryView {
            virtual_ip: vip,
            name,
            addr: SocketAddr { ip, port },
            epoch_secs: epoch,
            service_name,
            service_port,
            lan_addr,
        },
        o,
    )
}

/// Entries read from `at` onwards, at most `left` of them, stopping at the
/// first one whose fixed-size prefix is cut off.
pub open spec fn parse_from(data: Seq<u8>, at: int, left: nat) -> Seq<EntryView>
    decreases left,
{
    if left == 0 || at < 0 || at + 5 > data.len() || at + 5 + data[at + 4] as int + 10 > data.len() {
        Seq::<EntryView>::empty()
    } else {
        let (e, next) = decode_entry(data, at);
        seq![e] + parse_from(data, next, (left - 1) as nat)
    }
}

/// Everything `parse_payload` reads from a payload.
pub open spec fn parse_payload_spec(data: Seq<u8>) -> Seq<EntryView> {
    if data.len() == 0 {
        Seq::<EntryView>::empty()
    } else {
        parse_from(data, 1, data[0] as nat)
    }
}

// ---------------------------------------------------------------------
// Building
// ---------------------------------------------------------------------

fn push_ip(out: &mut Vec<u8>, ip: Ipv4Addr)
    ensures
        final(out)@ == old(out)@ + ip_bytes(ip),
{
    out.push(ip.a);
    out.push(ip.b);
    out.push(ip.c);
    out.push(ip.d);
    assert(final(out)@ =~= old(out)@ + ip_bytes(ip));
}

fn push_u16(out: &mut Vec<u8>, v: u16)
    ensures
        final(out)@ == old(out)@ + be16(v),
{
    out.push((v / 256) as u8);
    out.push((v % 256) as u8);
    assert(final(out)@ =~= old(out)@ + be16(v));
}

fn push_u32(out: &mut Vec<u8>, v: u32)
    ensures
        final(out)@ == old(out)@ + be32(v),
{
    out.push((v / 0x1000000) as u8);
    out.push(((v / 0x10000) % 256) as u8);
    out.push(((v / 256) % 256) as u8);
    out.push((v % 256) as u8);
    assert(final(out)@ =~= old(out)@ + be32(v));
}

/// Appends the first `n` bytes of `bytes`.
fn push_prefix(out: &mut Vec<u8>, bytes: &[u8], n: usize)
    requires
        n <= bytes@.len(),
    ensures
        final(out)@ == old(out)@ + bytes@.take(n as int),
{
    let mut i: usize = 0;
    while i < n
        invariant
            i <= n,
            n <= bytes@.len(),
            out@ == old(out)@ + bytes@.take(i as int),
        decreases n - i,
    {
        out.push(bytes[i]);
        i = i + 1;
        assert(bytes@.take(i as int) == bytes@.take(i - 1).push(bytes@[i - 1]));
    }
}

/// Appends the wire bytes of one entry.
pub fn push_entry(out: &mut Vec<u8>, entry: &GossipEntry)
    ensures
        final(out)@ == old(out)@ + entry_wire(entry@),
{
    let ghost start = out@;
    let ghost e = entry@;
    push_ip(out, entry.virtual_ip);
    let name_bytes = entry.name.as_str().as_bytes();
    let name_len: usize = if name_bytes.len() < MAX_NAME_LEN {
        name_bytes.len()
    } else {
        MAX_NAME_LEN
    };
    out.push(name_len as u8);
    assert(out@ =~= start + wire_head(e));
    push_prefix(out, name_bytes, name_len);
    let ghost s1 = out@;
    assert(s1 =~= start + (wire_head(e) + cut_bytes(e.name, MAX_NAME_LEN as nat)));
    push_ip(out, entry.addr.ip);
    push_u16(out, entry.addr.port);
    push_u32(out, entry.epoch_secs);
    assert(out@ =~= s1 + wire_addr(e));
    let ghost s2 = out@;
    let service_bytes = entry.service_name.as_str().as_bytes();
    let service_len: usize = if service_bytes.len() < MAX_SERVICE_NAME_LEN {
        service_bytes.len()
    } else {
        MAX_SERVICE_NAME_LEN
    };
    out.push(service_len as u8);
    push_prefix(out, service_bytes, service_len);
    push_u16(out, entry.service_port);
    assert(out@ =~= s2 + wire_service(e));
    let ghost s3 = out@;
    match entry.lan_addr {
        Some(lan) => {
            out.push(1);
            push_ip(out, lan.ip);
            push_u16(out, lan.port);
        },
        None => {
            out.push(0);
        },
    }
    assert(out@ =~= s3 + wire_lan(e));
    assert(out@ =~= start + entry_wire(e));
}

/// One payload holding the first (at most 255) of `entries`.
pub fn build_single_payload(entries: &[GossipEntry]) -> (out: Vec<u8>)
    ensures
        out@ == single_payload(views(entries@)),
{
    let n: usize = if entries.len() < 255 {
        entries.len()
    } else {
        255
    };
    let mut out: Vec<u8> = Vec::new();
    out.push(n as u8);
    let ghost es = views(entries@);
    let mut i: usize = 0;
    while i < n
        invariant
            i <= n,
            n <= entries@.len(),
            es == views(entries@),
            out@ == seq![n as u8] + entries_wire(es.take(i as int)),
        decreases n - i,
    {
        push_entry(&mut out, &entries[i]);
        proof {
            let t = es.take(i + 1);
            assert(t.drop_last() == es.take(i as int));
            assert(t.last() == entries@[i as int]@);
        }
        i = i + 1;
    }
    out
}

/// Splits `entries` into wire-ready payloads of at most
/// `MAX_ENTRIES_PER_PACKET` entries each, in order.
pub fn build_payloads(entries: &[GossipEntry]) -> (res: Vec<Vec<u8>>)
    ensures
        res.len() == chunk_count(entries@.len() as nat),
        forall|i: int|
            0 <= i < res.len() ==> #[trigger] res[i]@ == single_payload(
                chunk(views(entries@), i),
            ),
{
    let mut res: Vec<Vec<u8>> = Vec::new();
    let mut start: usize = 0;
    let ghost es = views(entries@);
    while start < entries.len()
        invariant
            start <= entries@.len(),
            start <= res.len() * MAX_ENTRIES_PER_PACKET,
            start == res.len() * MAX_ENTRIES_PER_PACKET || (start == entries@.len() && res.len() > 0
                && (res.len() - 1) * MAX_ENTRIES_PER_PACKET < entries@.len()),
            es == views(entries@),
            forall|i: int|
                0 <= i < res.len() ==> #[trigger] res[i]@ == single_payload(chunk(es, i)),
        decreases entries.len() - start,
    {
        let end: usize = if entries.len() - start > MAX_ENTRIES_PER_PACKET {
            start + MAX_ENTRIES_PER_PACKET
        } else {
            entries.len()
        };
        let part = &entries[start..end];
        let payload = build_single_payload(part);
        proof {
            assert(views(part@) =~= chunk(es, res.len() as int));
        }
        res.push(payload);
        start = end;
    }
    let ghost n = entries@.len() as int;
    let ghost r = res.len() as int;
    assert(r == (n + 15) / 16);
    res
}

// ---------------------------------------------------------------------
// Parsing
// ---------------------------------------------------------------------

fn get16(data: &[u8], at: usize) -> (v: u16)
    requires
        at + 2 <= data@.len(),
    ensures
        v == read16(data@, at as int),
{
    (data[at] as u16) * 256 + (data[at + 1] as u16)
}

fn get32(data: &[u8], at: usize) -> (v: u32)
    requires
        at + 4 <= data@.len(),
    ensures
        v == read32(data@, at as int),
{
    (data[at] as u32) * 0x1000000 + (data[at + 1] as u32) * 0x10000 + (data[at + 2] as u32) * 256
        + (data[at + 3] as u32)
}

fn get_ip(data: &[u8], at: usize) -> (ip: Ipv4Addr)
    requires
        at + 4 <= data@.len(),
    ensures
        ip == read_ip(data@, at as int),
{
    Ipv4Addr { a: data[at], b: data[at + 1], c: data[at + 2], d: data[at + 3] }
}

/// Decodes one entry at `at`, whose fixed-size prefix is present.
fn decode_entry_exec(data: &[u8], at: usize) -> (res: (GossipEntry, usize))
    requires
        at + 5 <= data.len(),
        at + 5 + data@[at + 4] as int + 10 <= data.len(),
    ensures
        (res.0@, res.1 as int) == decode_entry(data@, at as int),
{
    let virtual_ip = get_ip(data, at);
    let name_len = data[at + 4] as usize;
    let mut offset = at + 5;
    let name = string_from_utf8_lossy(&data[offset..offset + name_len]);
    offset = offset + name_len;
    let ip = get_ip(data, offset);
    let port = get16(data, offset + 4);
    let epoch_secs = get32(data, offset + 6);
    offset = offset + 10;
    let mut service_name = String::new();
    let mut service_port: u16 = 0;
    if offset < data.len() {
        let service_len = data[offset] as usize;
        offset = offset + 1;
        if service_len + 2 <= data.len() - offset {
            service_name = string_from_utf8_lossy(&data[offset..offset + service_len]);
            offset = offset + service_len;
            service_port = get16(data, offset);
            offset = offset + 2;
        }
    }
    let mut lan_addr: Option<SocketAddr> = None;
    if offset < data.len() {
        let present = data[offset] != 0;
        offset = offset + 1;
        if present && 6 <= data.len() - offset {
            let lan_ip = get_ip(data, offset);
            let lan_port = get16(data, offset + 4);
            offset = offset + 6;
            lan_addr = Some(SocketAddr { ip: lan_ip, port: lan_port });
        }
    }
    let entry = GossipEntry {
        virtual_ip,
        name,
        addr: SocketAddr { ip, port },
        epoch_secs,
        service_name,
        service_port,
        lan_addr,
    };
    (entry, offset)
}

/// Parses a payload back into entries. A truncated trailing entry ends the
/// list instead of failing the whole payload.
pub fn parse_payload(data: &[u8]) -> (res: Vec<GossipEntry>)
    ensures
        views(res@) == parse_payload_spec(data@),
{
    let mut entries: Vec<GossipEntry> = Vec::new();
    if data.len() == 0 {
        assert(views(entries@) =~= Seq::<EntryView>::empty());
        return entries;
    }
    let count = data[0] as usize;
    let mut offset: usize = 1;
    let mut k: usize = 0;
    while k < count
        invariant
            k <= count,
            count == data@[0] as usize,
            data@.len() > 0,
            1 <= offset <= data@.len(),
            views(entries@) + parse_from(data@, offset as int, (count - k) as nat)
                == parse_payload_spec(data@),
        ensures
            views(entries@) == parse_payload_spec(data@),
        decreases count - k,
    {
        if data.len() - offset < 5 {
            assert(views(entries@) + Seq::<EntryView>::empty() =~= views(entries@));
            break;
        }
        let name_len = data[offset + 4] as usize;
        if data.len() - offset - 5 < name_len + 10 {
            assert(views(entries@) + Seq::<EntryView>::empty() =~= views(entries@));
            break;
        }
        let (entry, next) = decode_entry_exec(data, offset);
        proof {
            let rest = parse_from(data@, next as int, (count - k - 1) as nat);
            assert(parse_from(data@, offset as int, (count - k) as nat) == seq![entry@] + rest);
            assert(views(entries@.push(entry)) =~= views(entries@).push(entry@));
            assert(views(entries@).push(entry@) + rest =~= views(entries@) + (seq![entry@] + rest));
        }
        entries.push(entry);
        offset = next;
        k = k + 1;
    }
    entries
}

// ---------------------------------------------------------------------
// Round trip
// ---------------------------------------------------------------------

/// An entry whose name and service name fit their length caps unchanged.
pub open spec fn entry_fits(e: EntryView) -> bool {
    encode_utf8(e.name).len() <= MAX_NAME_LEN && encode_utf8(e.service_name).len()
        <= MAX_SERVICE_NAME_LEN
}

proof fn lemma_entries_wire_cons(e: EntryView, rest: Seq<EntryView>)
    ensures
        entries_wire(seq![e] + rest) == entry_wire(e) + entries_wire(rest),
    decreases rest.len(),
{
    if rest.len() == 0 {
        let all = seq![e] + rest;
        assert(all =~= seq![e]);
        assert(all.drop_last() =~= Seq::<EntryView>::empty());
        assert(entries_wire(all) == entries_wire(all.drop_last()) + entry_wire(all.last()));
        assert(entries_wire(all) =~= entry_wire(e));
        assert(entry_wire(e) + entries_wire(rest) =~= entry_wire(e));
    } else {
        let all = seq![e] + rest;
        assert(all.drop_last() =~= seq![e] + rest.drop_last());
        assert(all.last() == rest.last());
        assert(entries_wire(all) == entries_wire(all.drop_last()) + entry_wire(all.last()));
        assert(entries_wire(rest) == entries_wire(rest.drop_last()) + entry_wire(rest.last()));
        lemma_entries_wire_cons(e, rest.drop_last());
        assert(entry_wire(e) + entries_wire(rest.drop_last()) + entry_wire(rest.last())
            =~= entry_wire(e) + (entries_wire(rest.drop_last()) + entry_wire(rest.last())));
    }
}

proof fn lemma_sub_of_written(data: Seq<u8>, at: int, w: Seq<u8>, x: int, y: int)
    requires
        0 <= at,
        at + w.len() <= data.len(),
        data.subrange(at, at + w.len()) == w,
        0 <= x <= y <= w.len(),
    ensures
        data.subrange(at + x, at + y) == w.subrange(x, y),
{
    assert forall|k: int| 0 <= k < y - x implies data.subrange(at + x, at + y)[k] == w.subrange(
        x,
        y,
    )[k] by {
        assert(data.subrange(at, at + w.len())[x + k] == data[at + x + k]);
    }
    assert(data.subrange(at + x, at + y) =~= w.subrange(x, y));
}

proof fn lemma_read_ip_written(data: Seq<u8>, at: int, ip: Ipv4Addr)
    requires
        0 <= at,
        at + 4 <= data.len(),
        data.subrange(at, at + 4) == ip_bytes(ip),
    ensures
        read_ip(data, at) == ip,
{
    assert(data.subrange(at, at + 4)[0] == data[at]);
    assert(data.subrange(at, at + 4)[1] == data[at + 1]);
    assert(data.subrange(at, at + 4)[2] == data[at + 2]);
    assert(data.subrange(at, at + 4)[3] == data[at + 3]);
}

proof fn lemma_read16_written(data: Seq<u8>, at: int, v: u16)
    requires
        0 <= at,
        at + 2 <= data.len(),
        data.subrange(at, at + 2) == be16(v),
    ensures
        read16(data, at) == v,
{
    assert(data.subrange(at, at + 2)[0] == data[at]);
    assert(data.subrange(at, at + 2)[1] == data[at + 1]);
}

proof fn lemma_read32_written(data: Seq<u8>, at: int, v: u32)
    requires
        0 <= at,
        at + 4 <= data.len(),
        data.subrange(at, at + 4) == be32(v),
    ensures
        read32(data, at) == v,
{
    assert(data.subrange(at, at + 4)[0] == data[at]);
    assert(data.subrange(at, at + 4)[1] == data[at + 1]);
    assert(data.subrange(at, at + 4)[2] == data[at + 2]);
    assert(data.subrange(at, at + 4)[3] == data[at + 3]);
}

/// A fitting entry written at `at` decodes back to itself and consumes
/// exactly its own bytes, whatever follows it.
#[verifier::rlimit(40)]
proof fn lemma_decode_written_entry(data: Seq<u8>, at: int, e: EntryView)
    requires
        entry_fits(e),
        0 <= at,
        at + entry_wire(e).len() <= data.len(),
        data.subrange(at, at + entry_wire(e).len()) == entry_wire(e),
    ensures
        at + 5 <= data.len(),
        at + 5 + data[at + 4] as int + 10 <= data.len(),
        decode_entry(data, at) == (e, at + entry_wire(e).len()),
{
    broadcast use encode_utf8_valid_utf8, encode_utf8_decode_utf8;

    let w = entry_wire(e);
    let nb = cut_bytes(e.name, MAX_NAME_LEN as nat);
    let sb = cut_bytes(e.service_name, MAX_SERVICE_NAME_LEN as nat);
    assert(nb =~= encode_utf8(e.name));
    assert(sb =~= encode_utf8(e.service_name));
    let nl: int = nb.len() as int;
    let sl: int = sb.len() as int;
    let h = wire_head(e);
    let ad = wire_addr(e);
    let sv = wire_service(e);
    let ln = wire_lan(e);
    assert(h.len() == 5);
    assert(ad.len() == 10);
    assert(sv.len() == sl + 3);
    // section boundaries
    let o1: int = 5;
    let o2: int = o1 + nl;
    let o3: int = o2 + 10;
    let o4: int = o3 + sl + 3;
    assert(w.subrange(0, 4) =~= ip_bytes(e.virtual_ip));
    assert(w[4] == nl as u8);
    assert(w.subrange(o1, o2) =~= nb);
    assert(w.subrange(o2, o2 + 4) =~= ip_bytes(e.addr.ip));
    assert(w.subrange(o2 + 4, o2 + 6) =~= be16(e.addr.port));
    assert(w.subrange(o2 + 6, o3) =~= be32(e.epoch_secs));
    assert(w[o3] == sl as u8);
    assert(w.subrange(o3 + 1, o3 + 1 + sl) =~= sb);
    assert(w.subrange(o3 + 1 + sl, o4) =~= be16(e.service_port));
    assert(w.subrange(o4, w.len() as int) =~= ln);
    lemma_sub_of_written(data, at, w, 0, 4);
    lemma_read_ip_written(data, at, e.virtual_ip);
    assert(data[at + 4] == w[4]) by {
        lemma_sub_of_written(data, at, w, 4, 5);
        assert(data.subrange(at + 4, at + 5)[0] == data[at + 4]);
    }
    lemma_sub_of_written(data, at, w, o1, o2);
    lemma_sub_of_written(data, at, w, o2, o2 + 4);
    lemma_read_ip_written(data, at + o2, e.addr.ip);
    lemma_sub_of_written(data, at, w, o2 + 4, o2 + 6);
    lemma_read16_written(data, at + o2 + 4, e.addr.port);
    lemma_sub_of_written(data, at, w, o2 + 6, o3);
    lemma_read32_written(data, at + o2 + 6, e.epoch_secs);
    assert(data[at + o3] == w[o3]) by {
        lemma_sub_of_written(data, at, w, o3, o3 + 1);
        assert(data.subrange(at + o3, at + o3 + 1)[0] == data[at + o3]);
    }
    lemma_sub_of_written(data, at, w, o3 + 1, o3 + 1 + sl);
    lemma_sub_of_written(data, at, w, o3 + 1 + sl, o4);
    lemma_read16_written(data, at + o3 + 1 + sl, e.service_port);
    lemma_sub_of_written(data, at, w, o4, w.len() as int);
    match e.lan_addr {
        Some(lan) => {
            assert(ln.len() == 7);
            assert(data[at + o4] == 1u8) by {
                assert(data.subrange(at + o4, at + w.len())[0] == data[at + o4]);
                assert(ln[0] == 1u8);
            }
            assert(ln.subrange(1, 5) =~= ip_bytes(lan.ip));
            assert(ln.subrange(5, 7) =~= be16(lan.port));
            lemma_sub_of_written(data, at + o4, ln, 1, 5);
            lemma_read_ip_written(data, at + o4 + 1, lan.ip);
            lemma_sub_of_written(data, at + o4, ln, 5, 7);
            lemma_read16_written(data, at + o4 + 5, lan.port);
        },
        None => {
            assert(ln.len() == 1);
            assert(data[at + o4] == 0u8) by {
                assert(data.subrange(at + o4, at + w.len())[0] == data[at + o4]);
            }
        },
    }
}

/// Entries written back to back from `at` parse back as themselves.
proof fn lemma_parse_written(data: Seq<u8>, at: int, es: Seq<EntryView>)
    requires
        forall|i: int| 0 <= i < es.len() ==> entry_fits(#[trigger] es[i]),
        0 <= at,
        at + entries_wire(es).len() <= data.len(),
        data.subrange(at, at + entries_wire(es).len()) == entries_wire(es),
    ensures
        parse_from(data, at, es.len()) == es,
    decreases es.len(),
{
    if es.len() == 0 {
    } else {
        let e = es[0];
        let rest = es.drop_first();
        assert(es =~= seq![e] + rest);
        lemma_entries_wire_cons(e, rest);
        let we = entry_wire(e);
        let wr = entries_wire(rest);
        assert(data.subrange(at, at + we.len()) =~= we) by {
            assert forall|k: int| 0 <= k < we.len() implies data.subrange(at, at + we.len())[k]
                == we[k] by {
                assert(data.subrange(at, at + entries_wire(es).len())[k] == (we + wr)[k]);
            }
        }
        lemma_decode_written_entry(data, at, e);
        let next = at + we.len();
        assert(data.subrange(next, next + wr.len()) =~= wr) by {
            assert forall|k: int| 0 <= k < wr.len() implies data.subrange(next, next + wr.len())[k]
                == wr[k] by {
                assert(data.subrange(at, at + entries_wire(es).len())[we.len() + k] == (we + wr)[
                    we.len() + k]);
            }
        }
        lemma_parse_written(data, next, rest);
        assert(parse_from(data, at, es.len()) == seq![e] + parse_from(data, next, rest.len()));
    }
}

/// Reading back a payload gives exactly the entries it was built from,
/// provided there are at most 255 of them and every name and service
/// name fits its length cap (longer ones come back cut).
pub proof fn lemma_payload_roundtrip(es: Seq<EntryView>)
    requires
        es.len() <= 255,
        forall|i: int| 0 <= i < es.len() ==> entry_fits(#[trigger] es[i]),
    ensures
        parse_payload_spec(single_payload(es)) == es,
{
    let p = single_payload(es);
    assert(es.take(es.len() as int) =~= es);
    let w = entries_wire(es);
    assert(p =~= seq![es.len() as u8] + w);
    assert(p.subrange(1, 1 + w.len() as int) =~= w);
    lemma_parse_written(p, 1, es);
}

/// Every payload of `build_payloads` reads back as its own slice of the
/// input, so reading all payloads in order gives back the whole table.
pub proof fn lemma_payloads_roundtrip(es: Seq<EntryView>, i: int)
    requires
        forall|j: int| 0 <= j < es.len() ==> entry_fits(#[trigger] es[j]),
        0 <= i < chunk_count(es.len()),
    ensures
        parse_payload_spec(single_payload(chunk(es, i))) == chunk(es, i),
        chunk(es, i).len() >= 1,
{
    let c = chunk(es, i);
    assert(i * 16 < es.len()) by (nonlinear_arith)
        requires
            0 <= i < (es.len() + 15) / 16,
    {
    }
    assert forall|j: int| 0 <= j < c.len() implies entry_fits(#[trigger] c[j]) by {
        assert(c[j] == es[i * 16 + j]);
    }
    lemma_payload_roundtrip(c);
}

/// The entries of several payloads read one after another, in order.
pub open spec fn parse_all(payloads: Seq<Seq<u8>>) -> Seq<EntryView>
    decreases payloads.len(),
{
    if payloads.len() == 0 {
        Seq::empty()
    } else {
        parse_all(payloads.drop_last()) + parse_payload_spec(payloads.last())
    }
}

/// The payloads `build_payloads` makes of `es`, as bytes.
pub open spec fn payloads_of(es: Seq<EntryView>) -> Seq<Seq<u8>> {
    Seq::new(chunk_count(es.len()), |i: int| single_payload(chunk(es, i)))
}

proof fn lemma_parse_first_chunks(es: Seq<EntryView>, k: int)
    requires
        forall|j: int| 0 <= j < es.len() ==> entry_fits(#[trigger] es[j]),
        0 <= k <= chunk_count(es.len()),
    ensures
        parse_all(payloads_of(es).take(k)) == es.take(if k * 16 <= es.len() { k * 16 } else { es.len() as int }),
    decreases k,
{
    let ps = payloads_of(es);
    if k == 0 {
        assert(ps.take(0) =~= Seq::<Seq<u8>>::empty());
        assert(es.take(0) =~= Seq::<EntryView>::empty());
    } else {
        lemma_parse_first_chunks(es, k - 1);
        assert(ps.take(k).drop_last() =~= ps.take(k - 1));
        assert(ps.take(k).last() == single_payload(chunk(es, k - 1)));
        lemma_payloads_roundtrip(es, k - 1);
        assert((k - 1) * 16 < es.len()) by (nonlinear_arith)
            requires
                0 <= k - 1 < (es.len() + 15) / 16,
        {
        }
        let end = if k * 16 <= es.len() { k * 16 } else { es.len() as int };
        assert(es.take((k - 1) * 16) + chunk(es, k - 1) =~= es.take(end));
    }
}

/// Reading every payload of `build_payloads` in order gives back the
/// whole list, in order, across the split into payloads of at most
/// `MAX_ENTRIES_PER_PACKET` entries, provided every name and service name
/// fits its length cap.
pub proof fn lemma_all_payloads_roundtrip(es: Seq<EntryView>)
    requires
        forall|j: int| 0 <= j < es.len() ==> entry_fits(#[trigger] es[j]),
    ensures
        parse_all(payloads_of(es)) == es,
{
    let k = chunk_count(es.len()) as int;
    lemma_parse_first_chunks(es, k);
    assert(payloads_of(es).take(k) =~= payloads_of(es));
    assert(k * 16 >= es.len()) by (nonlinear_arith)
        requires
            k == (es.len() + 15) / 16,
    {
    }
    assert(es.take(es.len() as int) =~= es);
}

} // verus!
