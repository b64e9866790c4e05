//! The public, read-only bootstrap directory of peers: the rules that a
//! downloaded directory must meet before any of it is trusted.
//!
//! Downloading the file and reading its TOML are done outside the
//! library; the parsed directory is handed here as plain values. Network
//! keys are never part of a directory.

use vstd::prelude::*;
use crate::config::{PeerConfig, PeerConfigView, peer_config_view};
use crate::net::{Ipv4Addr, ipv4_text};
use crate::text::{chars_of, is_alnum_char, is_ascii_alphanumeric};

verus! {

pub const URL: &'static str = "https://raw.githubusercontent.com/faeker55555/FaekNET/main/network/peers.toml";

pub const ENDPOINT_PATH: &'static str = ".faeknet-endpoint.toml";

/// A directory larger than this many bytes is refused unread.
pub const MAX_BYTES: usize = 131072;

/// At most this many peers may be listed.
pub const MAX_DIRECTORY_PEERS: usize = 254;

/// Entries may not claim to be valid for longer than a week.
pub const MAX_VALIDITY_SECS: u64 = 604800;

/// Entries may be stamped at most this far in the future.
pub const CLOCK_SKEW_SECS: u64 = 60;

/// One listed peer, as read from the directory file.
#[derive(Debug, Clone)]
pub struct Entry {
    pub name: String,
    pub virtual_ip: Ipv4Addr,
    pub public_ip: Ipv4Addr,
    pub public_port: u16,
    pub owner: String,
    pub updated_at: u64,
    pub expires_at: u64,
}

/// The directory file, as read.
#[derive(Debug, Clone)]
pub struct Directory {
    pub schema_version: u32,
    pub peers: Vec<Entry>,
}

/// A publicly routable unicast IPv4 address: not private (10/8,
/// 172.16/12, 192.168/16), loopback (127/8), link-local (169.254/16),
/// multicast (224/4), "this network" (0/8), reserved (240/4), shared
/// CGNAT space (100.64/10), IETF protocol assignments (192.0.0.0/22 as
/// checked here), benchmarking (198.18/15) or documentation (198.51.100/24,
/// 203.0.113/24).
pub open spec fn public_ipv4_spec(ip: Ipv4Addr) -> bool {
    let (a, b, c) = (ip.a, ip.b, ip.c);
    !(a == 10 || (a == 172 && 16 <= b <= 31) || (a == 192 && b == 168) || a == 127 || (a == 169
        && b == 254) || (224 <= a <= 239) || a == 0 || a >= 240 || (a == 100 && 64 <= b <= 127) || (
    a == 192 && b == 0 && c <= 2) || (a == 198 && (b == 18 || b == 19 || (b == 51 && c == 100))) || (
    a == 203 && b == 0 && c == 113))
}

pub fn public_ipv4(ip: Ipv4Addr) -> (r: bool)
    ensures
        r == public_ipv4_spec(ip),
        ip.a == 10 || ip.a == 127 || ip.a == 0 || ip.a >= 224 ==> !r,
        ip.a == 172 && 16 <= ip.b <= 31 ==> !r,
        ip.a == 192 && ip.b == 168 ==> !r,
        ip.a == 169 && ip.b == 254 ==> !r,
        ip.a == 100 && 64 <= ip.b <= 127 ==> !r,
{
    let a = ip.a;
    let b = ip.b;
    let c = ip.c;
    !(a == 10 || (a == 172 && 16 <= b && b <= 31) || (a == 192 && b == 168) || a == 127 || (a == 169
        && b == 254) || (224 <= a && a <= 239) || a == 0 || a >= 240 || (a == 100 && 64 <= b && b
        <= 127) || (a == 192 && b == 0 && c <= 2) || (a == 198 && (b == 18 || b == 19 || (b == 51
        && c == 100))) || (a == 203 && b == 0 && c == 113))
}

/// The blocks no public endpoint lies in: the private blocks 10.0.0.0/8,
/// 172.16.0.0/12 and 192.168.0.0/16, loopback 127.0.0.0/8, link-local
/// 169.254.0.0/16, "this network" 0.0.0.0/8, multicast and reserved space
/// from 224.0.0.0 up, the shared CGNAT block 100.64.0.0/10, 192.0.0.0/22,
/// the benchmarking block 198.18.0.0/15 and the documentation blocks
/// 198.51.100.0/24 and 203.0.113.0/24.
pub open spec fn in_non_public_block(ip: Ipv4Addr) -> bool {
    ||| ip.a == 10
    ||| (ip.a == 172 && 16 <= ip.b <= 31)
    ||| (ip.a == 192 && ip.b == 168)
    ||| ip.a == 127
    ||| (ip.a == 169 && ip.b == 254)
    ||| ip.a == 0
    ||| ip.a >= 224
    ||| (ip.a == 100 && 64 <= ip.b <= 127)
    ||| (ip.a == 192 && ip.b == 0 && ip.c <= 2)
    ||| (ip.a == 198 && (ip.b == 18 || ip.b == 19))
    ||| (ip.a == 198 && ip.b == 51 && ip.c == 100)
    ||| (ip.a == 203 && ip.b == 0 && ip.c == 113)
}

/// An address is a public endpoint exactly when it lies in none of those
/// blocks.
pub proof fn lemma_public_ranges(ip: Ipv4Addr)
    ensures
        public_ipv4_spec(ip) <==> !in_non_public_block(ip),
{
}

/// A directory that lists any entry whose endpoint lies in one of those
/// blocks (for example 10.1.2.3) is refused as a whole.
pub proof fn lemma_private_endpoint_refused(es: Seq<Entry>, now: u64, i: int)
    requires
        0 <= i < es.len(),
        in_non_public_block(es[i].public_ip),
    ensures
        !all_entries_ok(es, now),
{
    assert(!entry_ok(es[i], entry_ips(es).take(i), now));
}

/// A directory peer name: 1 to 32 characters, ASCII letters, digits, `_`
/// and `-`, starting with a letter or digit.
pub open spec fn name_ok(n: Seq<char>) -> bool {
    &&& 1 <= n.len() <= 32
    &&& is_ascii_alphanumeric(n[0])
    &&& forall|i: int| 0 <= i < n.len() ==> is_ascii_alphanumeric(#[trigger] n[i]) || n[i] == '_' || n[i] == '-'
}

/// The checks every entry must pass, given the virtual IPs listed before
/// it and the current Unix time: a mesh address 10.66.0.1-254 not listed
/// before, a public endpoint with a non-zero port, an owner, a valid
/// name, not stamped more than a minute in the future, and a validity
/// window that is non-empty and at most a week.
pub open spec fn entry_ok(e: Entry, seen: Seq<Ipv4Addr>, now: u64) -> bool {
    &&& e.virtual_ip.a == 10 && e.virtual_ip.b == 66 && e.virtual_ip.c == 0
    &&& e.virtual_ip.d != 0 && e.virtual_ip.d != 255
    &&& !seen.contains(e.virtual_ip)
    &&& public_ipv4_spec(e.public_ip)
    &&& e.public_port != 0
    &&& e.owner@.len() > 0
    &&& name_ok(e.name@)
    &&& e.updated_at <= (if now + CLOCK_SKEW_SECS > u64::MAX { u64::MAX as int } else { now + CLOCK_SKEW_SECS })
    &&& e.expires_at > e.updated_at
    &&& e.expires_at - e.updated_at <= MAX_VALIDITY_SECS
}

pub open spec fn entry_ips(es: Seq<Entry>) -> Seq<Ipv4Addr> {
    Seq::new(es.len(), |i: int| es[i].virtual_ip)
}

/// Every entry passes its checks.
pub open spec fn all_entries_ok(es: Seq<Entry>, now: u64) -> bool {
    forall|i: int| 0 <= i < es.len() ==> entry_ok(#[trigger] es[i], entry_ips(es).take(i), now)
}

/// The peer configuration an entry becomes.
pub open spec fn entry_peer(e: Entry) -> PeerConfigView {
    PeerConfigView {
        name: e.name@,
        virtual_ip: e.virtual_ip,
        public_ip: ipv4_text(e.public_ip),
        public_port: e.public_port,
    }
}

/// The peers of a valid directory that have not expired at `now`, in order.
pub open spec fn live_peers(es: Seq<Entry>, now: u64) -> Seq<PeerConfigView>
    decreases es.len(),
{
    if es.len() == 0 {
        Seq::empty()
    } else {
        let r = live_peers(es.drop_last(), now);
        if es.last().expires_at <= now {
            r
        } else {
            r.push(entry_peer(es.last()))
        }
    }
}

pub open spec fn peer_config_seq(s: Seq<PeerConfig>) -> Seq<PeerConfigView> {
    Seq::new(s.len(), |i: int| peer_config_view(s[i]))
}

fn name_is_ok(n: &String) -> (r: bool)
    ensures
        r == name_ok(n@),
{
    let c = chars_of(n.as_str());
    if c.len() == 0 || c.len() > 32 {
        return false;
    }
    if !is_alnum_char(c[0]) {
        return false;
    }
    let mut i: usize = 0;
    while i < c.len()
        invariant
            i <= c@.len(),
            c@ == n@,
            forall|k: int| 0 <= k < i ==> is_ascii_alphanumeric(#[trigger] c@[k]) || c@[k] == '_' || c@[k] == '-',
        decreases c@.len() - i,
    {
        if !(is_alnum_char(c[i]) || c[i] == '_' || c[i] == '-') {
            return false;
        }
        i = i + 1;
    }
    true
}

fn ip_listed(seen: &Vec<Ipv4Addr>, ip: Ipv4Addr) -> (r: bool)
    ensures
        r == seen@.contains(ip),
{
    let mut i: usize = 0;
    while i < seen.len()
        invariant
            i <= seen@.len(),
            forall|k: int| 0 <= k < i ==> seen@[k] != ip,
        decreases seen@.len() - i,
    {
        if seen[i] == ip {
            proof {
                assert(seen@[i as int] == ip);
            }
            return true;
        }
        i = i + 1;
    }
    false
}

fn entry_is_ok(e: &Entry, seen: &Vec<Ipv4Addr>, now: u64) -> (r: bool)
    ensures
        r == entry_ok(*e, seen@, now),
{
    let ip = e.virtual_ip;
    if ip.a != 10 || ip.b != 66 || ip.c != 0 || ip.d == 0 || ip.d == 255 {
        return false;
    }
    if ip_listed(seen, ip) || !public_ipv4(e.public_ip) || e.public_port == 0 {
        return false;
    }
    if e.owner.as_str().is_empty() || !name_is_ok(&e.name) {
        return false;
    }
    let limit = now.saturating_add(CLOCK_SKEW_SECS);
    if e.updated_at > limit || e.expires_at <= e.updated_at {
        return false;
    }
    e.expires_at - e.updated_at <= MAX_VALIDITY_SECS
}

/// Whether a directory of `len` bytes may be read at all.
pub fn check_size(len: usize) -> (res: Result<(), String>)
    ensures
        res is Ok <==> len <= MAX_BYTES,
        res matches Err(m) ==> m@ == "Peer directory exceeds size limit"@,
{
    if len > MAX_BYTES {
        return Err("Peer directory exceeds size limit".to_owned());
    }
    Ok(())
}

/// Validates a read directory at Unix time `now`: an unsupported schema
/// or more than `MAX_DIRECTORY_PEERS` peers is refused, any entry failing
/// its checks refuses the whole directory, and the peers still valid at
/// `now` are returned in order.
pub fn validate(directory: Directory, now: u64) -> (res: Result<Vec<PeerConfig>, String>)
    ensures
        (directory.schema_version != 1 || directory.peers@.len() > MAX_DIRECTORY_PEERS) ==> (res
            matches Err(m) && m@ == "Unsupported or oversized peer directory"@),
        (directory.schema_version == 1 && directory.peers@.len() <= MAX_DIRECTORY_PEERS) ==> {
            &&& res is Ok <==> all_entries_ok(directory.peers@, now)
            &&& res matches Ok(ps) ==> peer_config_seq(ps@) == live_peers(directory.peers@, now)
            &&& res matches Err(m) ==> m@ == "Invalid or duplicate peer directory entry"@
        },
{
    if directory.schema_version != 1 || directory.peers.len() > MAX_DIRECTORY_PEERS {
        return Err("Unsupported or oversized peer directory".to_owned());
    }
    let ghost es = directory.peers@;
    let mut seen: Vec<Ipv4Addr> = Vec::new();
    let mut peers: Vec<PeerConfig> = Vec::new();
    let mut i: usize = 0;
    while i < directory.peers.len()
        invariant
            i <= es.len(),
            es == directory.peers@,
            directory.schema_version == 1,
            es.len() <= MAX_DIRECTORY_PEERS,
            seen@ == entry_ips(es).take(i as int),
            forall|k: int| 0 <= k < i ==> entry_ok(#[trigger] es[k], entry_ips(es).take(k), now),
            peer_config_seq(peers@) == live_peers(es.take(i as int), now),
        decreases es.len() - i,
    {
        let e = &directory.peers[i];
        if !entry_is_ok(e, &seen, now) {
            proof {
                assert(!all_entries_ok(es, now)) by {
                    assert(!entry_ok(es[i as int], entry_ips(es).take(i as int), now));
                }
            }
            return Err("Invalid or duplicate peer directory entry".to_owned());
        }
        proof {
            assert(es.take(i + 1).drop_last() =~= es.take(i as int));
            assert(es.take(i + 1).last() == es[i as int]);
        }
        seen.push(e.virtual_ip);
        proof {
            assert(seen@ =~= entry_ips(es).take(i + 1));
        }
        if e.expires_at > now {
            let ghost before = peer_config_seq(peers@);
            let p = PeerConfig {
                name: e.name.clone(),
                virtual_ip: e.virtual_ip,
                public_ip: e.public_ip.to_text(),
                public_port: e.public_port,
            };
            peers.push(p);
            proof {
                assert(peer_config_seq(peers@) =~= before.push(peer_config_view(p)));
            }
        }
        i = i + 1;
    }
    proof {
        assert(es.take(i as int) =~= es);
    }
    Ok(peers)
}

} // verus!
