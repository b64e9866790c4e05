//! The node configuration (`mesh.toml`) and the rules on its fields:
//! defaults, the manual and cached public-address overrides, the subnet
//! broadcast address, and the edits the running mesh makes to it (peer
//! addresses learned, services added or removed). Reading and writing the
//! file itself is done outside the library.

use vstd::prelude::*;
use crate::net::{
    Ipv4Addr, SocketAddr, ipv4_text, ipv4_u32, lemma_ipv4_text_roundtrip, parse_ipv4,
    parse_ipv4_chars,
};
use crate::text::{chars_of, eq_ignore_case, string_from_chars, trim, trim_chars};

verus! {

pub const CONFIG_PATH: &'static str = "mesh.toml";

#[derive(Debug, Clone)]
pub struct MeConfig {
    /// Display name shown to peers.
    pub name: String,
    /// This machine's address on the virtual LAN.
    pub virtual_ip: Ipv4Addr,
    /// Prefix length of the virtual LAN subnet.
    pub prefix: u8,
    /// UDP port this instance listens on.
    pub listen_port: u16,
    /// Base64 of the 32-byte key shared by the whole mesh.
    pub psk: String,
    /// MTU of the virtual adapter.
    pub mtu: u16,
    /// Suffix of local mesh domain names ("mesh" makes "alice.mesh").
    pub domain_suffix: String,
    /// Keep a managed block of the OS hosts file in sync.
    pub sync_hosts_file: bool,
    /// Run the built-in local DNS resolver.
    pub dns_server: bool,
    /// Port of the built-in resolver on 127.0.0.1.
    pub dns_port: u16,
    /// Try to point the OS resolver at the built-in one.
    pub dns_auto_configure: bool,
    /// Manual override of our public address; takes effect only when
    /// both halves are set.
    pub manual_public_ip: Option<String>,
    pub manual_public_port: Option<u16>,
    /// Pin the UDP socket to the real internet-facing interface.
    pub warp_compat: bool,
    /// Persist the last discovered public address.
    pub cache_public_addr: bool,
    pub cached_public_ip: Option<String>,
    pub cached_public_port: Option<u16>,
}

/// One named service this machine advertises.
#[derive(Debug, Clone, PartialEq, Eq)]
pub struct ServiceConfig {
    pub name: String,
    pub port: u16,
}

#[derive(Debug, Clone)]
pub struct PeerConfig {
    pub name: String,
    pub virtual_ip: Ipv4Addr,
    pub public_ip: String,
    pub public_port: u16,
}

#[derive(Debug, Clone)]
pub struct Config {
    pub me: MeConfig,
    pub peers: Vec<PeerConfig>,
    /// Services this machine hosts, each becoming `<service>.<name>.<suffix>`.
    pub services: Vec<ServiceConfig>,
}

pub fn default_name() -> (s: String)
    ensures
        s@ == seq!['p', 'e', 'e', 'r'],
{
    string_from_chars(&['p', 'e', 'e', 'r'])
}

pub fn default_prefix() -> (p: u8)
    ensures
        p == 24,
{
    24
}

pub fn default_mtu() -> (m: u16)
    ensures
        m == 1400,
{
    1400
}

pub fn default_domain_suffix() -> (s: String)
    ensures
        s@ == seq!['m', 'e', 's', 'h'],
{
    string_from_chars(&['m', 'e', 's', 'h'])
}

pub fn default_true() -> (b: bool)
    ensures
        b,
{
    true
}

pub fn default_dns_port() -> (p: u16)
    ensures
        p == 53,
{
    53
}

/// An optional address override: both halves present and the IP text
/// (trimmed) a valid dotted quad.
pub open spec fn override_addr(ip: Option<String>, port: Option<u16>) -> Option<SocketAddr> {
    match (ip, port) {
        (Some(ip), Some(port)) => match parse_ipv4(trim(ip@)) {
            Some(a) => Some(SocketAddr { ip: a, port }),
            None => None,
        },
        _ => None,
    }
}

fn resolve_override(ip: &Option<String>, port: Option<u16>) -> (res: Option<SocketAddr>)
    ensures
        res == override_addr(*ip, port),
{
    let ip_text = match ip {
        Some(s) => s,
        None => return None,
    };
    let port = match port {
        Some(p) => p,
        None => return None,
    };
    let chars = chars_of(ip_text.as_str());
    let trimmed = trim_chars(chars.as_slice());
    match parse_ipv4_chars(trimmed.as_slice()) {
        Some(a) => Some(SocketAddr { ip: a, port }),
        None => None,
    }
}

/// The subnet broadcast address: the virtual IP with every host bit set.
pub open spec fn broadcast_u32(ip: u32, prefix: u8) -> u32 {
    let mask: u32 = if prefix == 0 {
        0
    } else {
        (0xFFFF_FFFFu32 << ((32 - prefix) as u32)) as u32
    };
    (ip & mask) | !mask
}

impl Config {
    /// The manual public-address override, when both halves are set and
    /// the IP parses.
    pub fn manual_public_addr(&self) -> (res: Option<SocketAddr>)
        ensures
            res == self.manual_public_addr_spec(),
    {
        resolve_override(&self.me.manual_public_ip, self.me.manual_public_port)
    }

    /// The cached public address, only when caching is enabled.
    pub fn cached_public_addr(&self) -> (res: Option<SocketAddr>)
        ensures
            res == self.cached_public_addr_spec(),
    {
        if !self.me.cache_public_addr {
            return None;
        }
        resolve_override(&self.me.cached_public_ip, self.me.cached_public_port)
    }

    /// Records `addr` as the cached public address; a no-op when caching
    /// is disabled (an older cached value is then kept, not cleared).
    pub fn set_cached_public_addr(&mut self, addr: SocketAddr)
        ensures
            !old(self).me.cache_public_addr ==> *final(self) == *old(self),
            old(self).me.cache_public_addr ==> {
                &&& final(self).me.cached_public_ip matches Some(t) && t@ == ipv4_text(addr.ip)
                &&& *final(self) == (Config {
                    me: MeConfig {
                        cached_public_ip: final(self).me.cached_public_ip,
                        cached_public_port: Some(addr.port),
                        ..old(self).me
                    },
                    ..*old(self)
                })
                &&& final(self).cached_public_addr_spec() == Some(addr)
            },
    {
        if !self.me.cache_public_addr {
            return;
        }
        self.me.cached_public_ip = Some(addr.ip.to_text());
        self.me.cached_public_port = Some(addr.port);
        proof {
            lemma_ipv4_text_roundtrip(addr.ip);
        }
    }

    /// The cached address as `cached_public_addr` reads it.
    pub open spec fn cached_public_addr_spec(&self) -> Option<SocketAddr> {
        if self.me.cache_public_addr {
            override_addr(self.me.cached_public_ip, self.me.cached_public_port)
        } else {
            None
        }
    }

    /// Clears the cached public address; the manual override and
    /// everything else is untouched.
    pub fn clear_cached_public_addr(&mut self)
        ensures
            *final(self) == (Config {
                me: MeConfig { cached_public_ip: None, cached_public_port: None, ..old(self).me },
                ..*old(self)
            }),
    {
        self.me.cached_public_ip = None;
        self.me.cached_public_port = None;
    }

    /// Sets the manual public-address override (the IP written in its
    /// dotted form), which then stands in for self-discovery.
    pub fn set_manual_public_addr(&mut self, ip: Ipv4Addr, port: u16)
        ensures
            final(self).me.manual_public_ip matches Some(t) && t@ == ipv4_text(ip),
            *final(self) == (Config {
                me: MeConfig {
                    manual_public_ip: final(self).me.manual_public_ip,
                    manual_public_port: Some(port),
                    ..old(self).me
                },
                ..*old(self)
            }),
            final(self).manual_public_addr_spec() == Some(SocketAddr { ip, port }),
    {
        self.me.manual_public_ip = Some(ip.to_text());
        self.me.manual_public_port = Some(port);
        proof {
            lemma_ipv4_text_roundtrip(ip);
        }
    }

    /// The manual override as `manual_public_addr` reads it.
    pub open spec fn manual_public_addr_spec(&self) -> Option<SocketAddr> {
        override_addr(self.me.manual_public_ip, self.me.manual_public_port)
    }

    /// Removes the manual public-address override. Returns whether either
    /// half of one was set (when neither was, nothing changes).
    pub fn clear_manual_public_addr(&mut self) -> (was_set: bool)
        ensures
            was_set == (old(self).me.manual_public_ip is Some || old(self).me.manual_public_port is Some),
            *final(self) == (Config {
                me: MeConfig { manual_public_ip: None, manual_public_port: None, ..old(self).me },
                ..*old(self)
            }),
    {
        let was_set = self.me.manual_public_ip.is_some() || self.me.manual_public_port.is_some();
        self.me.manual_public_ip = None;
        self.me.manual_public_port = None;
        was_set
    }

    /// Broadcast address of the virtual LAN (10.66.0.2/24 gives
    /// 10.66.0.255). A prefix above 32 is rejected by `requires`: the
    /// shift would overflow.
    pub fn broadcast_addr(&self) -> (res: Ipv4Addr)
        requires
            self.me.prefix <= 32,
        ensures
            ipv4_u32(res) == broadcast_u32(ipv4_u32(self.me.virtual_ip) as u32, self.me.prefix)
                as nat,
    {
        let ip_u32 = self.me.virtual_ip.to_u32();
        let mask: u32 = if self.me.prefix == 0 {
            0
        } else {
            0xFFFF_FFFFu32 << (32 - self.me.prefix as u32)
        };
        let broadcast_u32 = (ip_u32 & mask) | !mask;
        Ipv4Addr::from_u32(broadcast_u32)
    }
}

// ---------------------------------------------------------------------
// Edits the running mesh makes to the configuration
// ---------------------------------------------------------------------

/// A configured service as (name, port).
pub open spec fn svc_views(s: Seq<ServiceConfig>) -> Seq<(Seq<char>, u16)> {
    Seq::new(s.len(), |i: int| (s[i].name@, s[i].port))
}

pub struct PeerConfigView {
    pub name: Seq<char>,
    pub virtual_ip: Ipv4Addr,
    pub public_ip: Seq<char>,
    pub public_port: u16,
}

pub open spec fn peer_config_view(p: PeerConfig) -> PeerConfigView {
    PeerConfigView {
        name: p.name@,
        virtual_ip: p.virtual_ip,
        public_ip: p.public_ip@,
        public_port: p.public_port,
    }
}

pub open spec fn peer_config_views(s: Seq<PeerConfig>) -> Seq<PeerConfigView> {
    Seq::new(s.len(), |i: int| peer_config_view(s[i]))
}

/// The mathematical content of a configuration.
pub struct ConfigView {
    pub me: MeConfig,
    pub peers: Seq<PeerConfigView>,
    pub services: Seq<(Seq<char>, u16)>,
}

pub open spec fn config_view(c: Config) -> ConfigView {
    ConfigView { me: c.me, peers: peer_config_views(c.peers@), services: svc_views(c.services@) }
}

/// `i` is the first configured peer with virtual IP `ip`.
pub open spec fn is_first_peer_config(s: Seq<PeerConfigView>, ip: Ipv4Addr, i: int) -> bool {
    &&& 0 <= i < s.len()
    &&& s[i].virtual_ip == ip
    &&& forall|j: int| 0 <= j < i ==> (#[trigger] s[j]).virtual_ip != ip
}

/// The configured peers after recording that the peer at `ip` (called
/// `name`) is reachable at `addr`: the first entry for `ip` gets the new
/// address (and the name, unless it is empty); an unknown peer is
/// appended.
pub open spec fn upsert_peer(s: Seq<PeerConfigView>, ip: Ipv4Addr, name: Seq<char>, addr: SocketAddr) -> Seq<
    PeerConfigView,
> {
    if exists|i: int| is_first_peer_config(s, ip, i) {
        let i = choose|i: int| is_first_peer_config(s, ip, i);
        s.update(
            i,
            PeerConfigView {
                name: if name.len() == 0 { s[i].name } else { name },
                virtual_ip: ip,
                public_ip: ipv4_text(addr.ip),
                public_port: addr.port,
            },
        )
    } else {
        s.push(PeerConfigView { name, virtual_ip: ip, public_ip: ipv4_text(addr.ip), public_port: addr.port })
    }
}

/// `i` is the first configured service called `name`, ignoring case.
pub open spec fn is_first_service(s: Seq<(Seq<char>, u16)>, name: Seq<char>, i: int) -> bool {
    &&& 0 <= i < s.len()
    &&& eq_ignore_case(s[i].0, name)
    &&& forall|j: int| 0 <= j < i ==> !eq_ignore_case((#[trigger] s[j]).0, name)
}

/// The services after adding `name` (trimmed) on `port`: an empty name
/// changes nothing; a name already present (ignoring case) gets the new
/// port; otherwise the service is appended.
pub open spec fn add_service_spec(s: Seq<(Seq<char>, u16)>, name: Seq<char>, port: u16) -> Seq<
    (Seq<char>, u16),
> {
    let n = trim(name);
    if n.len() == 0 {
        s
    } else if exists|i: int| is_first_service(s, n, i) {
        let i = choose|i: int| is_first_service(s, n, i);
        s.update(i, (s[i].0, port))
    } else {
        s.push((n, port))
    }
}

/// The services with every one called `name` (ignoring case) removed.
pub open spec fn without_service(s: Seq<(Seq<char>, u16)>, name: Seq<char>) -> Seq<(Seq<char>, u16)>
    decreases s.len(),
{
    if s.len() == 0 {
        s
    } else {
        let r = without_service(s.drop_last(), name);
        if eq_ignore_case(s.last().0, name) {
            r
        } else {
            r.push(s.last())
        }
    }
}

/// What importing a peer (from a card) did to the configuration.
#[derive(Debug, Clone, Copy, PartialEq, Eq, Structural)]
pub enum ImportOutcome {
    /// The peer has this machine's own virtual IP: refused, nothing changed.
    OwnAddress,
    /// A peer with that virtual IP was configured and was replaced.
    Updated,
    /// The peer was new and was appended.
    Added,
}

/// The configured peers after importing `p`: the first entry with its
/// virtual IP is replaced by it whole, or it is appended.
pub open spec fn import_peer_spec(s: Seq<PeerConfigView>, p: PeerConfigView) -> Seq<PeerConfigView> {
    if exists|i: int| is_first_peer_config(s, p.virtual_ip, i) {
        let i = choose|i: int| is_first_peer_config(s, p.virtual_ip, i);
        s.update(i, p)
    } else {
        s.push(p)
    }
}

impl Config {
    /// Imports a peer read from a card: refused when it has this
    /// machine's own virtual IP; otherwise it replaces the configured peer
    /// with the same virtual IP, or is added. Saving the file is the
    /// caller's job.
    pub fn import_peer(&mut self, peer: PeerConfig) -> (r: ImportOutcome)
        ensures
            peer.virtual_ip == old(self).me.virtual_ip ==> r == ImportOutcome::OwnAddress
                && final(self).peers@ == old(self).peers@,
            peer.virtual_ip != old(self).me.virtual_ip ==> {
                &&& peer_config_views(final(self).peers@) == import_peer_spec(
                    peer_config_views(old(self).peers@),
                    peer_config_view(peer),
                )
                &&& (r == ImportOutcome::Updated) == (exists|i: int|
                    is_first_peer_config(peer_config_views(old(self).peers@), peer.virtual_ip, i))
                &&& r != ImportOutcome::OwnAddress
            },
            final(self).me == old(self).me,
            final(self).services@ == old(self).services@,
    {
        if peer.virtual_ip == self.me.virtual_ip {
            return ImportOutcome::OwnAddress;
        }
        let ghost s0 = peer_config_views(self.peers@);
        let ghost pv = peer_config_view(peer);
        let mut i: usize = 0;
        while i < self.peers.len()
            invariant
                i <= self.peers@.len(),
                s0 == peer_config_views(self.peers@),
                pv == peer_config_view(peer),
                peer.virtual_ip != old(self).me.virtual_ip,
                *self == *old(self),
                forall|j: int| 0 <= j < i ==> (#[trigger] s0[j]).virtual_ip != peer.virtual_ip,
            decreases self.peers@.len() - i,
        {
            if self.peers[i].virtual_ip == peer.virtual_ip {
                let ghost before = self.peers@;
                self.peers.set(i, peer);
                proof {
                    assert(self.peers@ == before.update(i as int, peer));
                    assert(peer_config_views(self.peers@) =~= s0.update(i as int, pv));
                    let k = choose|k: int| is_first_peer_config(s0, pv.virtual_ip, k);
                    assert(is_first_peer_config(s0, pv.virtual_ip, i as int));
                    if k < i {
                        assert(s0[k].virtual_ip != pv.virtual_ip);
                    }
                    if k > i {
                        assert(s0[i as int].virtual_ip != pv.virtual_ip);
                    }
                    assert(import_peer_spec(s0, pv) == s0.update(i as int, pv));
                }
                return ImportOutcome::Updated;
            }
            i = i + 1;
        }
        self.peers.push(peer);
        proof {
            assert(!exists|k: int| is_first_peer_config(s0, pv.virtual_ip, k));
            assert(peer_config_views(self.peers@) =~= import_peer_spec(s0, pv));
        }
        ImportOutcome::Added
    }
}

impl Config {
    /// Records that the peer at `virtual_ip` (called `name`) is reachable
    /// at `addr`; see `upsert_peer`. Saving the file is the caller's job.
    pub fn upsert_peer_addr(&mut self, virtual_ip: Ipv4Addr, name: &str, addr: SocketAddr)
        ensures
            peer_config_views(final(self).peers@) == upsert_peer(
                peer_config_views(old(self).peers@),
                virtual_ip,
                name@,
                addr,
            ),
            final(self).me == old(self).me,
            final(self).services@ == old(self).services@,
    {
        let ghost s0 = peer_config_views(self.peers@);
        let mut i: usize = 0;
        while i < self.peers.len()
            invariant
                i <= self.peers@.len(),
                s0 == peer_config_views(self.peers@),
                *self == *old(self),
                forall|j: int| 0 <= j < i ==> (#[trigger] s0[j]).virtual_ip != virtual_ip,
            decreases self.peers@.len() - i,
        {
            if self.peers[i].virtual_ip == virtual_ip {
                proof {
                    assert(is_first_peer_config(s0, virtual_ip, i as int));
                    let k = choose|k: int| is_first_peer_config(s0, virtual_ip, k);
                    if k < i {
                        assert(s0[k].virtual_ip != virtual_ip);
                    }
                    if k > i {
                        assert(s0[i as int].virtual_ip != virtual_ip);
                    }
                }
                let old_name = self.peers[i].name.clone();
                let new_name = if name.is_empty() {
                    old_name
                } else {
                    name.to_owned()
                };
                let updated = PeerConfig {
                    name: new_name,
                    virtual_ip,
                    public_ip: addr.ip.to_text(),
                    public_port: addr.port,
                };
                self.peers.set(i, updated);
                proof {
                    assert(peer_config_views(self.peers@) =~= upsert_peer(s0, virtual_ip, name@, addr));
                }
                return;
            }
            i = i + 1;
        }
        self.peers.push(
            PeerConfig {
                name: name.to_owned(),
                virtual_ip,
                public_ip: addr.ip.to_text(),
                public_port: addr.port,
            },
        );
        proof {
            assert(!exists|k: int| is_first_peer_config(s0, virtual_ip, k));
            assert(peer_config_views(self.peers@) =~= upsert_peer(s0, virtual_ip, name@, addr));
        }
    }

    /// Adds a service this machine hosts, or updates its port; see
    /// `add_service_spec`. Returns false (and changes nothing) when the
    /// trimmed name is empty.
    pub fn add_service(&mut self, name: &str, port: u16) -> (added: bool)
        ensures
            added == (trim(name@).len() > 0),
            svc_views(final(self).services@) == add_service_spec(svc_views(old(self).services@), name@, port),
            final(self).me == old(self).me,
            final(self).peers@ == old(self).peers@,
    {
        let chars = chars_of(name);
        let trimmed = trim_chars(chars.as_slice());
        if trimmed.len() == 0 {
            return false;
        }
        let ghost s0 = svc_views(self.services@);
        let ghost n = trim(name@);
        let mut i: usize = 0;
        while i < self.services.len()
            invariant
                i <= self.services@.len(),
                s0 == svc_views(self.services@),
                *self == *old(self),
                n == trimmed@,
                n == trim(name@),
                n.len() > 0,
                forall|j: int| 0 <= j < i ==> !eq_ignore_case((#[trigger] s0[j]).0, n),
            decreases self.services@.len() - i,
        {
            let cur = chars_of(self.services[i].name.as_str());
            if crate::text::chars_eq_ignore_case(cur.as_slice(), trimmed.as_slice()) {
                proof {
                    assert(is_first_service(s0, n, i as int));
                    let k = choose|k: int| is_first_service(s0, n, k);
                    if k < i {
                        assert(!eq_ignore_case(s0[k].0, n));
                    }
                    if k > i {
                        assert(!eq_ignore_case(s0[i as int].0, n));
                    }
                }
                let kept = self.services[i].name.clone();
                self.services.set(i, ServiceConfig { name: kept, port });
                proof {
                    assert(svc_views(self.services@) =~= add_service_spec(s0, name@, port));
                }
                return true;
            }
            i = i + 1;
        }
        self.services.push(ServiceConfig { name: string_from_chars(trimmed.as_slice()), port });
        proof {
            assert(!exists|k: int| is_first_service(s0, n, k));
            assert(svc_views(self.services@) =~= add_service_spec(s0, name@, port));
        }
        true
    }

    /// Removes every hosted service called `name` (ignoring case). Returns
    /// whether any was removed.
    pub fn remove_service(&mut self, name: &str) -> (removed: bool)
        ensures
            svc_views(final(self).services@) == without_service(svc_views(old(self).services@), name@),
            removed == (without_service(svc_views(old(self).services@), name@).len()
                != old(self).services@.len()),
            final(self).me == old(self).me,
            final(self).peers@ == old(self).peers@,
    {
        let ghost s0 = svc_views(self.services@);
        let target = chars_of(name);
        let mut kept: Vec<ServiceConfig> = Vec::new();
        let mut i: usize = 0;
        while i < self.services.len()
            invariant
                i <= self.services@.len(),
                s0 == svc_views(self.services@),
                *self == *old(self),
                target@ == name@,
                svc_views(kept@) == without_service(s0.take(i as int), name@),
            decreases self.services@.len() - i,
        {
            let cur = chars_of(self.services[i].name.as_str());
            let matches = crate::text::chars_eq_ignore_case(cur.as_slice(), target.as_slice());
            proof {
                assert(s0.take(i + 1).drop_last() =~= s0.take(i as int));
                assert(s0.take(i + 1).last() == s0[i as int]);
            }
            if !matches {
                let n = self.services[i].name.clone();
                kept.push(ServiceConfig { name: n, port: self.services[i].port });
                proof {
                    assert(svc_views(kept@) =~= without_service(s0.take(i as int), name@).push(s0[i as int]));
                }
            }
            i = i + 1;
        }
        proof {
            assert(s0.take(i as int) =~= s0);
        }
        let removed = kept.len() != self.services.len();
        self.services = kept;
        removed
    }
}

} // verus!
