//! The live mesh: the peer table and the rules by which it changes.
//!
//! The table starts from the configured peers and grows as gossip (or an
//! unsolicited, authenticated ping) introduces peers nobody configured.
//! Every change follows the same rules: nothing is ever learned about
//! ourselves, a virtual IP appears at most once, addresses follow
//! "freshest wins", and the table stops growing at `MAX_PEERS`.
//!
//! Sockets, the virtual adapter, threads and timers live outside the
//! library; they hand this state the events (a packet arrived, a tick
//! elapsed, a STUN probe answered) and carry out what it decides.

use vstd::prelude::*;
use crate::config::{Config, PeerConfig};
use crate::gossip::{
    EntryView, GossipEntry, build_payloads, chunk, chunk_count, parse_payload, parse_payload_spec,
    single_payload, views,
};
use crate::proto::{
    Header, TYPE_DATA, TYPE_GOSSIP, TYPE_PING, TYPE_PONG, build, ipv4_dst, ipv4_dst_spec,
    is_flood_target, is_flood_target_spec, packet_bytes,
};
use crate::net::{Ipv4Addr, SocketAddr, ipv4_text, push_ipv4};
use crate::peer::{
    Peer, PeerView, gossip_peer_view, lemma_merge_service_idempotent, merge_service, now_secs,
    observe_epoch_spec, observe_spec, pending_after_send, send_addr, service_views, services_wf,
};
use crate::config::{
    ConfigView, MeConfig, add_service_spec, broadcast_u32, config_view, override_addr,
    peer_config_views, svc_views,
    upsert_peer, without_service,
};
use crate::net::{dec_text, ipv4_u32, parse_socket_addr, parse_socket_addr_str, push_decimal};
use crate::hosts::{
    HostEntry, HostEntryView, PeerDomainInfo, build_entries_with_services, config_domain_infos,
    config_infos_spec, domain_entries, host_views,
};
use crate::dns::{DnsEntry, DnsEntryView, table_view};
use crate::text::{
    chars_contains, chars_eq, chars_of, chars_starts_with, contains_seq, starts_with, to_lowercase,
    trim, unicode_lower,
};
use crate::peer::configured_peer_view;
use crate::text::string_from_chars;

verus! {

/// Sanity cap on the size of the gossip-grown peer table.
pub const MAX_PEERS: usize = 512;

/// What applying a piece of news to the peer table did, when it is worth
/// logging, persisting or re-syncing names over.
#[derive(Debug)]
pub enum GossipOutcome {
    NewPeer { virtual_ip: Ipv4Addr, name: String, addr: SocketAddr },
    AddressUpdated { virtual_ip: Ipv4Addr, name: String, addr: SocketAddr },
    NameUpdated { virtual_ip: Ipv4Addr, name: String },
    ServiceAnnounced { virtual_ip: Ipv4Addr, peer_name: String, service_name: String, port: u16 },
}

pub enum OutcomeView {
    NewPeer { virtual_ip: Ipv4Addr, name: Seq<char>, addr: SocketAddr },
    AddressUpdated { virtual_ip: Ipv4Addr, name: Seq<char>, addr: SocketAddr },
    NameUpdated { virtual_ip: Ipv4Addr, name: Seq<char> },
    ServiceAnnounced {
        virtual_ip: Ipv4Addr,
        peer_name: Seq<char>,
        service_name: Seq<char>,
        port: u16,
    },
}

impl View for GossipOutcome {
    type V = OutcomeView;

    open spec fn view(&self) -> OutcomeView {
        match self {
            GossipOutcome::NewPeer { virtual_ip, name, addr } => OutcomeView::NewPeer {
                virtual_ip: *virtual_ip,
                name: name@,
                addr: *addr,
            },
            GossipOutcome::AddressUpdated { virtual_ip, name, addr } => OutcomeView::AddressUpdated {
                virtual_ip: *virtual_ip,
                name: name@,
                addr: *addr,
            },
            GossipOutcome::NameUpdated { virtual_ip, name } => OutcomeView::NameUpdated {
                virtual_ip: *virtual_ip,
                name: name@,
            },
            GossipOutcome::ServiceAnnounced { virtual_ip, peer_name, service_name, port } =>
                OutcomeView::ServiceAnnounced {
                virtual_ip: *virtual_ip,
                peer_name: peer_name@,
                service_name: service_name@,
                port: *port,
            },
        }
    }
}

pub open spec fn outcome_view(o: Option<GossipOutcome>) -> Option<OutcomeView> {
    match o {
        Some(x) => Some(x@),
        None => None,
    }
}

/// The mathematical content of the mesh state.
pub struct MeshView {
    pub my_virtual_ip: Ipv4Addr,
    pub my_name: Seq<char>,
    /// The peer table, in the order the peers became known.
    pub peers: Seq<PeerView>,
    /// Our advertised public address and the epoch it was learned at.
    pub my_public_addr: Option<(SocketAddr, u32)>,
    pub my_lan_addr: Option<SocketAddr>,
    pub broadcast_addr: Ipv4Addr,
    pub config: ConfigView,
    pub domain_suffix: Seq<char>,
    pub sync_hosts_file: bool,
}

pub struct MeshState {
    my_virtual_ip: Ipv4Addr,
    my_name: String,
    broadcast_addr: Ipv4Addr,
    peers: Vec<Peer>,
    my_public_addr: Option<(SocketAddr, u32)>,
    my_lan_addr: Option<SocketAddr>,
    /// The configuration, kept current with what the mesh learns so that a
    /// restart starts warm; saving it is the caller's job.
    config: Config,
    domain_suffix: String,
    sync_hosts_file: bool,
}

pub open spec fn peer_views(ps: Seq<Peer>) -> Seq<PeerView> {
    Seq::new(ps.len(), |i: int| ps[i]@)
}

impl View for MeshState {
    type V = MeshView;

    closed spec fn view(&self) -> MeshView {
        MeshView {
            my_virtual_ip: self.my_virtual_ip,
            my_name: self.my_name@,
            peers: peer_views(self.peers@),
            my_public_addr: self.my_public_addr,
            my_lan_addr: self.my_lan_addr,
            broadcast_addr: self.broadcast_addr,
            config: config_view(self.config),
            domain_suffix: self.domain_suffix@,
            sync_hosts_file: self.sync_hosts_file,
        }
    }
}

/// No virtual IP occurs twice in the table.
pub open spec fn ips_unique(ps: Seq<PeerView>) -> bool {
    forall|i: int, j: int|
        0 <= i < j < ps.len() ==> (#[trigger] ps[i]).virtual_ip != (#[trigger] ps[j]).virtual_ip
}

pub open spec fn has_peer(ps: Seq<PeerView>, ip: Ipv4Addr) -> bool {
    exists|i: int| 0 <= i < ps.len() && (#[trigger] ps[i]).virtual_ip == ip
}

/// The position of the peer with virtual IP `ip`.
pub open spec fn peer_pos(ps: Seq<PeerView>, ip: Ipv4Addr) -> int {
    choose|i: int| 0 <= i < ps.len() && (#[trigger] ps[i]).virtual_ip == ip
}

/// The name a peer gets when it is first heard from through a ping, which
/// carries no name: `peer-<virtual ip>`.
pub open spec fn placeholder_name(ip: Ipv4Addr) -> Seq<char> {
    seq!['p', 'e', 'e', 'r', '-'] + ipv4_text(ip)
}

/// The table after an authenticated ping from a virtual IP we may not
/// know, arriving from `addr` at Unix time `now`. An unknown peer (not
/// ourselves, table not full) is added under its placeholder name with
/// the address confirmed as of `now`; anything else changes nothing.
pub open spec fn learn_from_ping(m: MeshView, ip: Ipv4Addr, addr: SocketAddr, now: u64) -> (
    MeshView,
    Option<OutcomeView>,
) {
    if ip == m.my_virtual_ip || has_peer(m.peers, ip) || m.peers.len() >= MAX_PEERS {
        (m, None)
    } else {
        (
            MeshView {
                peers: m.peers.push(gossip_peer_view(ip, placeholder_name(ip), addr, now as u32)),
                ..m
            },
            Some(OutcomeView::NewPeer { virtual_ip: ip, name: placeholder_name(ip), addr }),
        )
    }
}

/// The table after one plain gossip entry. News about ourselves is
/// ignored. For a known peer: a non-empty name replaces the old one, a
/// LAN candidate (when the entry carries one) replaces the old one, and
/// the address is taken only when strictly fresher; the outcome reports
/// an address change first, else a name change, else nothing. An unknown
/// peer is added (unless the table is full) with the entry's name,
/// address, epoch and LAN candidate.
pub open spec fn apply_entry(m: MeshView, e: EntryView) -> (MeshView, Option<OutcomeView>) {
    if e.virtual_ip == m.my_virtual_ip {
        (m, None)
    } else if has_peer(m.peers, e.virtual_ip) {
        let i = peer_pos(m.peers, e.virtual_ip);
        let p = m.peers[i];
        let name_changed = e.name.len() > 0 && p.name != e.name;
        let p1 = PeerView { name: if e.name.len() == 0 { p.name } else { e.name }, ..p };
        let p2 = if e.lan_addr is Some {
            PeerView { lan_candidate: e.lan_addr, ..p1 }
        } else {
            p1
        };
        let (p3, addr_changed) = observe_epoch_spec(p2, e.addr, e.epoch_secs);
        (
            MeshView { peers: m.peers.update(i, p3), ..m },
            if addr_changed {
                Some(OutcomeView::AddressUpdated { virtual_ip: e.virtual_ip, name: p3.name, addr: e.addr })
            } else if name_changed {
                Some(OutcomeView::NameUpdated { virtual_ip: e.virtual_ip, name: p3.name })
            } else {
                None
            },
        )
    } else if m.peers.len() >= MAX_PEERS {
        (m, None)
    } else {
        (
            MeshView {
                peers: m.peers.push(
                    PeerView {
                        lan_candidate: e.lan_addr,
                        ..gossip_peer_view(e.virtual_ip, e.name, e.addr, e.epoch_secs)
                    },
                ),
                ..m
            },
            Some(OutcomeView::NewPeer { virtual_ip: e.virtual_ip, name: e.name, addr: e.addr }),
        )
    }
}

/// The table after one service-announcement entry: ignored when about
/// ourselves; an unknown peer is first added from the entry (unless the
/// table is full, in which case nothing happens); then the service is
/// merged into that peer's list and an announcement is reported when the
/// list changed.
pub open spec fn apply_service(m: MeshView, e: EntryView) -> (MeshView, Option<OutcomeView>) {
    if e.virtual_ip == m.my_virtual_ip {
        (m, None)
    } else if !has_peer(m.peers, e.virtual_ip) && m.peers.len() >= MAX_PEERS {
        (m, None)
    } else {
        let ps = if has_peer(m.peers, e.virtual_ip) {
            m.peers
        } else {
            m.peers.push(gossip_peer_view(e.virtual_ip, e.name, e.addr, e.epoch_secs))
        };
        let i = peer_pos(ps, e.virtual_ip);
        let p = ps[i];
        let (svcs, changed) = merge_service(p.services, e.service_name, e.service_port);
        (
            MeshView { peers: ps.update(i, PeerView { services: svcs, ..p }), ..m },
            if changed {
                Some(
                    OutcomeView::ServiceAnnounced {
                        virtual_ip: e.virtual_ip,
                        peer_name: p.name,
                        service_name: e.service_name,
                        port: e.service_port,
                    },
                )
            } else {
                None
            },
        )
    }
}

impl MeshState {
    /// Well-formedness: every peer is well formed and no virtual IP occurs
    /// twice in the table.
    pub closed spec fn wf(&self) -> bool {
        &&& forall|i: int| 0 <= i < self.peers@.len() ==> (#[trigger] self.peers@[i]).wf()
        &&& ips_unique(self@.peers)
    }

    /// The position of the peer with virtual IP `ip`, if known.
    fn find_peer(&self, ip: Ipv4Addr) -> (r: Option<usize>)
        ensures
            r matches Some(i) ==> i < self@.peers.len() && self@.peers[i as int].virtual_ip == ip,
            r is None ==> !has_peer(self@.peers, ip),
    {
        position_of(self.peers.as_slice(), ip)
    }

    pub fn peer_count(&self) -> (n: usize)
        ensures
            n == self@.peers.len(),
    {
        self.peers.len()
    }
}

/// The position of the peer with virtual IP `ip` in `ps`, if any.
fn position_of(ps: &[Peer], ip: Ipv4Addr) -> (r: Option<usize>)
    ensures
        r matches Some(i) ==> i < ps@.len() && peer_views(ps@)[i as int].virtual_ip == ip,
        r is None ==> !has_peer(peer_views(ps@), ip),
{
    let mut i: usize = 0;
    while i < ps.len()
        invariant
            i <= ps@.len(),
            forall|k: int| 0 <= k < i ==> ps@[k]@.virtual_ip != ip,
        decreases ps@.len() - i,
    {
        if ps[i].virtual_ip() == ip {
            return Some(i);
        }
        i = i + 1;
    }
    proof {
        if has_peer(peer_views(ps@), ip) {
            let k = choose|k: int|
                0 <= k < peer_views(ps@).len() && (#[trigger] peer_views(ps@)[k]).virtual_ip == ip;
            assert(peer_views(ps@)[k] == ps@[k]@);
        }
    }
    None
}

proof fn lemma_peer_views_update(s: Seq<Peer>, i: int, x: Peer)
    requires
        0 <= i < s.len(),
    ensures
        peer_views(s.update(i, x)) == peer_views(s).update(i, x@),
{
    assert(peer_views(s.update(i, x)) =~= peer_views(s).update(i, x@));
}

proof fn lemma_peer_views_push(s: Seq<Peer>, x: Peer)
    ensures
        peer_views(s.push(x)) == peer_views(s).push(x@),
{
    assert(peer_views(s.push(x)) =~= peer_views(s).push(x@));
}

/// In a table without repeated IPs, the peer found at `i` is the one
/// `peer_pos` names.
proof fn lemma_pos(ps: Seq<PeerView>, i: int, ip: Ipv4Addr)
    requires
        ips_unique(ps),
        0 <= i < ps.len(),
        ps[i].virtual_ip == ip,
    ensures
        has_peer(ps, ip),
        peer_pos(ps, ip) == i,
{
    assert(has_peer(ps, ip));
    let k = peer_pos(ps, ip);
    if k != i {
        if k < i {
            assert(ps[k].virtual_ip != ps[i].virtual_ip);
        } else {
            assert(ps[i].virtual_ip != ps[k].virtual_ip);
        }
    }
}

proof fn lemma_update_keeps_unique(ps: Seq<PeerView>, i: int, p: PeerView)
    requires
        ips_unique(ps),
        0 <= i < ps.len(),
        p.virtual_ip == ps[i].virtual_ip,
    ensures
        ips_unique(ps.update(i, p)),
{
    let q = ps.update(i, p);
    assert forall|a: int, b: int| 0 <= a < b < q.len() implies (#[trigger] q[a]).virtual_ip != (
    #[trigger] q[b]).virtual_ip by {
        assert(q[a].virtual_ip == ps[a].virtual_ip);
        assert(q[b].virtual_ip == ps[b].virtual_ip);
    }
}

proof fn lemma_push_keeps_unique(ps: Seq<PeerView>, p: PeerView)
    requires
        ips_unique(ps),
        !has_peer(ps, p.virtual_ip),
    ensures
        ips_unique(ps.push(p)),
        has_peer(ps.push(p), p.virtual_ip),
        peer_pos(ps.push(p), p.virtual_ip) == ps.len(),
{
    let q = ps.push(p);
    assert forall|a: int, b: int| 0 <= a < b < q.len() implies (#[trigger] q[a]).virtual_ip != (
    #[trigger] q[b]).virtual_ip by {
        if b == ps.len() {
            assert(q[a] == ps[a]);
        } else {
            assert(q[a] == ps[a] && q[b] == ps[b]);
        }
    }
    assert(q[ps.len() as int] == p);
    lemma_pos(q, ps.len() as int, p.virtual_ip);
}

impl MeshState {
    /// An authenticated ping arrived from `virtual_ip` at `addr` at Unix
    /// time `now`; see `learn_from_ping`.
    pub fn learn_peer_from_ping_at(&mut self, virtual_ip: Ipv4Addr, addr: SocketAddr, now: u64) -> (res:
        Option<GossipOutcome>)
        requires
            old(self).wf(),
        ensures
            final(self).wf(),
            (final(self)@, outcome_view(res)) == learn_from_ping(old(self)@, virtual_ip, addr, now),
    {
        if virtual_ip == self.my_virtual_ip {
            return None;
        }
        if self.find_peer(virtual_ip).is_some() {
            return None;
        }
        if self.peers.len() >= MAX_PEERS {
            return None;
        }
        let mut name_chars: Vec<char> = vec!['p', 'e', 'e', 'r', '-'];
        push_ipv4(&mut name_chars, virtual_ip);
        let name = string_from_chars(name_chars.as_slice());
        let epoch: u32 = #[verifier::truncate] (now as u32);
        let peer = Peer::from_gossip(virtual_ip, name.as_str(), addr, epoch);
        let ghost ps0 = self.peers@;
        self.peers.push(peer);
        proof {
            assert(name@ =~= placeholder_name(virtual_ip));
            lemma_peer_views_push(ps0, peer);
            lemma_push_keeps_unique(peer_views(ps0), peer@);
            assert forall|i: int| 0 <= i < self.peers@.len() implies (#[trigger] self.peers@[i]).wf() by {
                if i < ps0.len() {
                    assert(self.peers@[i] == ps0[i]);
                }
            }
        }
        Some(GossipOutcome::NewPeer { virtual_ip, name, addr })
    }

    /// `learn_peer_from_ping_at` with the current time.
    pub fn learn_peer_from_ping(&mut self, virtual_ip: Ipv4Addr, addr: SocketAddr) -> (res: Option<
        GossipOutcome,
    >)
        requires
            old(self).wf(),
        ensures
            final(self).wf(),
            exists|now: u64|
                (final(self)@, outcome_view(res)) == learn_from_ping(old(self)@, virtual_ip, addr, now),
    {
        let now = now_secs();
        self.learn_peer_from_ping_at(virtual_ip, addr, now)
    }
}

impl MeshState {
    /// Applies one plain gossip entry to the table; see `apply_entry`.
    pub fn apply_gossip_entry(&mut self, entry: &GossipEntry) -> (res: Option<GossipOutcome>)
        requires
            old(self).wf(),
        ensures
            final(self).wf(),
            (final(self)@, outcome_view(res)) == apply_entry(old(self)@, entry@),
    {
        if entry.virtual_ip == self.my_virtual_ip {
            return None;
        }
        let ghost m0 = self@;
        let ghost ps0 = self.peers@;
        match self.find_peer(entry.virtual_ip) {
            Some(i) => {
                proof {
                    lemma_pos(m0.peers, i as int, entry.virtual_ip);
                }
                let old_name = self.peers[i].name();
                let name_changed = !entry.name.as_str().is_empty() && old_name != entry.name;
                self.peers[i].set_name(entry.name.as_str());
                if entry.lan_addr.is_some() {
                    self.peers[i].set_lan_candidate(entry.lan_addr);
                }
                let addr_changed = self.peers[i].observe_epoch(entry.addr, entry.epoch_secs);
                let ghost p3 = self.peers@[i as int];
                proof {
                    assert(self.peers@ == ps0.update(i as int, p3));
                    lemma_peer_views_update(ps0, i as int, p3);
                    lemma_update_keeps_unique(m0.peers, i as int, p3@);
                    assert forall|k: int| 0 <= k < self.peers@.len() implies (#[trigger] self.peers@[k]).wf() by {
                        if k != i {
                            assert(self.peers@[k] == ps0[k]);
                        }
                    }
                }
                if addr_changed {
                    let name = self.peers[i].name();
                    return Some(
                        GossipOutcome::AddressUpdated { virtual_ip: entry.virtual_ip, name, addr: entry.addr },
                    );
                }
                if name_changed {
                    let name = self.peers[i].name();
                    return Some(GossipOutcome::NameUpdated { virtual_ip: entry.virtual_ip, name });
                }
                None
            },
            None => {
                if self.peers.len() >= MAX_PEERS {
                    return None;
                }
                let mut peer = Peer::from_gossip(
                    entry.virtual_ip,
                    entry.name.as_str(),
                    entry.addr,
                    entry.epoch_secs,
                );
                peer.set_lan_candidate(entry.lan_addr);
                self.peers.push(peer);
                proof {
                    lemma_peer_views_push(ps0, peer);
                    lemma_push_keeps_unique(m0.peers, peer@);
                    assert forall|k: int| 0 <= k < self.peers@.len() implies (#[trigger] self.peers@[k]).wf() by {
                        if k < ps0.len() {
                            assert(self.peers@[k] == ps0[k]);
                        }
                    }
                }
                let name = entry.name.clone();
                Some(GossipOutcome::NewPeer { virtual_ip: entry.virtual_ip, name, addr: entry.addr })
            },
        }
    }
}

impl MeshState {
    /// Applies one service-announcement entry; see `apply_service`.
    pub fn apply_gossip_service(&mut self, entry: &GossipEntry) -> (res: Option<GossipOutcome>)
        requires
            old(self).wf(),
        ensures
            final(self).wf(),
            (final(self)@, outcome_view(res)) == apply_service(old(self)@, entry@),
    {
        if entry.virtual_ip == self.my_virtual_ip {
            return None;
        }
        let ghost m0 = self@;
        let i: usize = match self.find_peer(entry.virtual_ip) {
            Some(i) => {
                proof {
                    lemma_pos(m0.peers, i as int, entry.virtual_ip);
                }
                i
            },
            None => {
                if self.peers.len() >= MAX_PEERS {
                    return None;
                }
                let peer = Peer::from_gossip(
                    entry.virtual_ip,
                    entry.name.as_str(),
                    entry.addr,
                    entry.epoch_secs,
                );
                let ghost ps0 = self.peers@;
                self.peers.push(peer);
                proof {
                    lemma_peer_views_push(ps0, peer);
                    lemma_push_keeps_unique(m0.peers, peer@);
                    assert forall|k: int| 0 <= k < self.peers@.len() implies (#[trigger] self.peers@[k]).wf() by {
                        if k < ps0.len() {
                            assert(self.peers@[k] == ps0[k]);
                        }
                    }
                }
                self.peers.len() - 1
            },
        };
        let ghost m1 = self@;
        let ghost ps1 = self.peers@;
        let peer_name = self.peers[i].name();
        let changed = self.peers[i].observe_service(entry.service_name.as_str(), entry.service_port);
        proof {
            let p3 = self.peers@[i as int];
            assert(self.peers@ == ps1.update(i as int, p3));
            lemma_peer_views_update(ps1, i as int, p3);
            lemma_update_keeps_unique(m1.peers, i as int, p3@);
            assert forall|k: int| 0 <= k < self.peers@.len() implies (#[trigger] self.peers@[k]).wf() by {
                if k != i {
                    assert(self.peers@[k] == ps1[k]);
                }
            }
        }
        if changed {
            let service_name = entry.service_name.clone();
            Some(
                GossipOutcome::ServiceAnnounced {
                    virtual_ip: entry.virtual_ip,
                    peer_name,
                    service_name,
                    port: entry.service_port,
                },
            )
        } else {
            None
        }
    }
}

/// One service-announcement entry per service, all about the peer at
/// `ip` reachable at `addr` as of `epoch`.
pub open spec fn service_entries(
    ip: Ipv4Addr,
    name: Seq<char>,
    addr: SocketAddr,
    epoch: u32,
    svcs: Seq<(Seq<char>, u16)>,
) -> Seq<EntryView> {
    Seq::new(
        svcs.len(),
        |k: int|
            EntryView {
                virtual_ip: ip,
                name,
                addr,
                epoch_secs: epoch,
                service_name: svcs[k].0,
                service_port: svcs[k].1,
                lan_addr: None,
            },
    )
}

/// What we gossip about one peer: nothing while we have no address for it
/// (or only one with port 0); otherwise its address entry (with its LAN
/// candidate) followed by one entry per service it advertises.
pub open spec fn peer_gossip(p: PeerView) -> Seq<EntryView> {
    match send_addr(p) {
        Some(a) => if a.port == 0 {
            Seq::empty()
        } else {
            seq![
                EntryView {
                    virtual_ip: p.virtual_ip,
                    name: p.name,
                    addr: a,
                    epoch_secs: p.confirmed_epoch,
                    service_name: Seq::empty(),
                    service_port: 0,
                    lan_addr: p.lan_candidate,
                },
            ] + service_entries(p.virtual_ip, p.name, a, p.confirmed_epoch, p.services)
        },
        None => Seq::empty(),
    }
}

pub open spec fn peers_gossip(ps: Seq<PeerView>) -> Seq<EntryView>
    decreases ps.len(),
{
    if ps.len() == 0 {
        Seq::empty()
    } else {
        peers_gossip(ps.drop_last()) + peer_gossip(ps.last())
    }
}

/// What we gossip about ourselves: nothing until we know our public
/// address; then our address entry (with our LAN address) and one entry
/// per service we host.
pub open spec fn own_gossip(m: MeshView) -> Seq<EntryView> {
    match m.my_public_addr {
        Some((addr, epoch)) => seq![
            EntryView {
                virtual_ip: m.my_virtual_ip,
                name: m.my_name,
                addr,
                epoch_secs: epoch,
                service_name: Seq::empty(),
                service_port: 0,
                lan_addr: m.my_lan_addr,
            },
        ] + service_entries(m.my_virtual_ip, m.my_name, addr, epoch, m.config.services),
        None => Seq::empty(),
    }
}

/// Everything we currently know, as gossip entries: every peer in table
/// order, then ourselves.
pub open spec fn local_gossip(m: MeshView) -> Seq<EntryView> {
    peers_gossip(m.peers) + own_gossip(m)
}

/// Appends one service entry per service in `svcs`.
fn push_service_entries(
    out: &mut Vec<GossipEntry>,
    ip: Ipv4Addr,
    name: &str,
    addr: SocketAddr,
    epoch: u32,
    svcs: &Vec<(String, u16)>,
)
    ensures
        views(final(out)@) == views(old(out)@) + service_entries(ip, name@, addr, epoch, service_views(svcs@)),
{
    let ghost base = views(out@);
    let mut k: usize = 0;
    while k < svcs.len()
        invariant
            k <= svcs@.len(),
            views(out@) == base + service_entries(ip, name@, addr, epoch, service_views(svcs@)).take(k as int),
        decreases svcs@.len() - k,
    {
        let e = GossipEntry::service(ip, name, addr, epoch, svcs[k].0.as_str(), svcs[k].1);
        let ghost before = out@;
        out.push(e);
        proof {
            assert(views(out@) =~= views(before).push(e@));
            assert(service_entries(ip, name@, addr, epoch, service_views(svcs@)).take(k + 1) =~= service_entries(
                ip,
                name@,
                addr,
                epoch,
                service_views(svcs@),
            ).take(k as int).push(e@));
        }
        k = k + 1;
    }
    proof {
        assert(service_entries(ip, name@, addr, epoch, service_views(svcs@)).take(k as int) =~= service_entries(
            ip,
            name@,
            addr,
            epoch,
            service_views(svcs@),
        ));
    }
}

impl MeshState {
    /// The gossip entries describing everything we know; see
    /// `local_gossip`.
    pub fn build_local_gossip_entries(&self) -> (res: Vec<GossipEntry>)
        requires
            self.wf(),
        ensures
            views(res@) == local_gossip(self@),
    {
        let mut out: Vec<GossipEntry> = Vec::new();
        let ghost ps = self@.peers;
        let mut i: usize = 0;
        while i < self.peers.len()
            invariant
                i <= self.peers@.len(),
                ps == self@.peers,
                views(out@) == peers_gossip(ps.take(i as int)),
            decreases self.peers@.len() - i,
        {
            let p = &self.peers[i];
            proof {
                assert(ps[i as int] == p@);
                assert(ps.take(i + 1).drop_last() =~= ps.take(i as int));
                assert(ps.take(i + 1).last() == p@);
            }
            match p.current_send_addr() {
                Some(addr) => {
                    if addr.port != 0 {
                        let name = p.name();
                        let epoch = p.confirmed_epoch();
                        let e = GossipEntry::peer_with_lan(p.virtual_ip(), name.as_str(), addr, epoch, p.lan_candidate());
                        let ghost before = out@;
                        out.push(e);
                        proof {
                            assert(views(out@) =~= views(before).push(e@));
                        }
                        let svcs = p.services();
                        push_service_entries(&mut out, p.virtual_ip(), name.as_str(), addr, epoch, &svcs);
                        proof {
                            assert(views(out@) =~= peers_gossip(ps.take(i as int)) + peer_gossip(p@));
                        }
                    } else {
                        proof {
                            assert(peer_gossip(p@) =~= Seq::<EntryView>::empty());
                            assert(views(out@) =~= peers_gossip(ps.take(i as int)) + peer_gossip(p@));
                        }
                    }
                },
                None => {
                    proof {
                        assert(views(out@) =~= peers_gossip(ps.take(i as int)) + peer_gossip(p@));
                    }
                },
            }
            i = i + 1;
        }
        proof {
            assert(ps.take(i as int) =~= ps);
        }
        match self.my_public_addr {
            Some((addr, epoch)) => {
                let e = GossipEntry::peer_with_lan(
                    self.my_virtual_ip,
                    self.my_name.as_str(),
                    addr,
                    epoch,
                    self.my_lan_addr,
                );
                let ghost before = out@;
                out.push(e);
                proof {
                    assert(views(out@) =~= views(before).push(e@));
                }
                let svcs = config_service_pairs(&self.config);
                push_service_entries(&mut out, self.my_virtual_ip, self.my_name.as_str(), addr, epoch, &svcs);
                proof {
                    assert(views(out@) =~= local_gossip(self@));
                }
            },
            None => {
                proof {
                    assert(views(out@) =~= local_gossip(self@));
                }
            },
        }
        out
    }
}

/// The configured services as (name, port) pairs.
pub fn config_service_pairs(cfg: &Config) -> (res: Vec<(String, u16)>)
    ensures
        service_views(res@) == svc_views(cfg.services@),
{
    let mut res: Vec<(String, u16)> = Vec::new();
    let mut k: usize = 0;
    while k < cfg.services.len()
        invariant
            k <= cfg.services@.len(),
            res@.len() == k,
            service_views(res@) == svc_views(cfg.services@).take(k as int),
        decreases cfg.services@.len() - k,
    {
        let n = cfg.services[k].name.clone();
        res.push((n, cfg.services[k].port));
        proof {
            assert(service_views(res@)[k as int] == svc_views(cfg.services@)[k as int]);
            assert(service_views(res@) =~= svc_views(cfg.services@).take(k + 1));
        }
        k = k + 1;
    }
    proof {
        assert(svc_views(cfg.services@).take(k as int) =~= svc_views(cfg.services@));
    }
    res
}

/// The table the mesh starts from: the configured peers in order, a later
/// entry for an already listed virtual IP replacing the earlier one.
pub open spec fn initial_peers(cfgs: Seq<PeerConfig>) -> Seq<PeerView>
    decreases cfgs.len(),
{
    if cfgs.len() == 0 {
        Seq::empty()
    } else {
        let ps = initial_peers(cfgs.drop_last());
        let p = configured_peer_view(cfgs.last());
        if has_peer(ps, p.virtual_ip) {
            ps.update(peer_pos(ps, p.virtual_ip), p)
        } else {
            ps.push(p)
        }
    }
}

impl MeshState {
    /// The mesh state at startup. `my_lan_ip` is our LAN-facing address if
    /// one was found; it is advertised with our listen port. The subnet
    /// prefix must be at most 32 (a larger one has no broadcast address).
    pub fn new(config: Config, my_lan_ip: Option<Ipv4Addr>) -> (m: MeshState)
        requires
            config.me.prefix <= 32,
        ensures
            m.wf(),
            m@.my_virtual_ip == config.me.virtual_ip,
            m@.my_name == config.me.name@,
            m@.peers == initial_peers(config.peers@),
            m@.my_public_addr is None,
            m@.my_lan_addr == (match my_lan_ip {
                Some(ip) => Some(SocketAddr { ip, port: config.me.listen_port }),
                None => None,
            }),
            ipv4_u32(m@.broadcast_addr) == broadcast_u32(ipv4_u32(config.me.virtual_ip) as u32, config.me.prefix) as nat,
            m@.config == config_view(config),
            m@.domain_suffix == config.me.domain_suffix@,
            m@.sync_hosts_file == config.me.sync_hosts_file,
    {
        let mut peers: Vec<Peer> = Vec::new();
        let mut i: usize = 0;
        while i < config.peers.len()
            invariant
                i <= config.peers@.len(),
                peer_views(peers@) == initial_peers(config.peers@.take(i as int)),
                ips_unique(peer_views(peers@)),
                forall|k: int| 0 <= k < peers@.len() ==> (#[trigger] peers@[k]).wf(),
            decreases config.peers@.len() - i,
        {
            let p = Peer::new(&config.peers[i]);
            let ghost ps0 = peers@;
            let ghost pv = peer_views(ps0);
            proof {
                assert(config.peers@.take(i + 1).drop_last() =~= config.peers@.take(i as int));
                assert(config.peers@.take(i + 1).last() == config.peers@[i as int]);
            }
            let found = position_of(peers.as_slice(), p.virtual_ip());
            match found {
                Some(j) => {
                    proof {
                        lemma_pos(pv, j as int, p@.virtual_ip);
                    }
                    peers.set(j, p);
                    proof {
                        lemma_peer_views_update(ps0, j as int, p);
                        lemma_update_keeps_unique(pv, j as int, p@);
                    }
                },
                None => {
                    peers.push(p);
                    proof {
                        lemma_peer_views_push(ps0, p);
                        lemma_push_keeps_unique(pv, p@);
                    }
                },
            }
            proof {
                assert forall|k: int| 0 <= k < peers@.len() implies (#[trigger] peers@[k]).wf() by {
                    if k < ps0.len() && peers@[k] != p {
                        assert(peers@[k] == ps0[k]);
                    }
                }
            }
            i = i + 1;
        }
        proof {
            assert(config.peers@.take(i as int) =~= config.peers@);
        }
        let broadcast_addr = config.broadcast_addr();
        let my_lan_addr = match my_lan_ip {
            Some(ip) => Some(SocketAddr { ip, port: config.me.listen_port }),
            None => None,
        };
        let my_virtual_ip = config.me.virtual_ip;
        let my_name = config.me.name.clone();
        let domain_suffix = config.me.domain_suffix.clone();
        let sync_hosts_file = config.me.sync_hosts_file;
        MeshState {
            my_virtual_ip,
            my_name,
            broadcast_addr,
            peers,
            my_public_addr: None,
            my_lan_addr,
            config,
            domain_suffix,
            sync_hosts_file,
        }
    }

    pub fn my_virtual_ip(&self) -> (ip: Ipv4Addr)
        ensures
            ip == self@.my_virtual_ip,
    {
        self.my_virtual_ip
    }

    pub fn my_name(&self) -> (n: &String)
        ensures
            n@ == self@.my_name,
    {
        &self.my_name
    }

    pub fn broadcast_addr(&self) -> (b: Ipv4Addr)
        ensures
            b == self@.broadcast_addr,
    {
        self.broadcast_addr
    }

    pub fn domain_suffix(&self) -> (s: &String)
        ensures
            s@ == self@.domain_suffix,
    {
        &self.domain_suffix
    }

    pub fn sync_hosts_file(&self) -> (b: bool)
        ensures
            b == self@.sync_hosts_file,
    {
        self.sync_hosts_file
    }

    /// The live configuration.
    pub fn config(&self) -> (c: &Config)
        ensures
            config_view(*c) == self@.config,
    {
        &self.config
    }

    /// The peer table, in the order the peers became known.
    pub fn peers(&self) -> (ps: &[Peer])
        ensures
            peer_views(ps@) == self@.peers,
    {
        self.peers.as_slice()
    }

    /// The peer with virtual IP `ip`, if known.
    pub fn get_peer(&self, ip: Ipv4Addr) -> (res: Option<&Peer>)
        requires
            self.wf(),
        ensures
            res is Some == has_peer(self@.peers, ip),
            res matches Some(p) ==> p@ == self@.peers[peer_pos(self@.peers, ip)],
    {
        match self.find_peer(ip) {
            Some(i) => {
                proof {
                    lemma_pos(self@.peers, i as int, ip);
                }
                Some(&self.peers[i])
            },
            None => None,
        }
    }

    /// The public address we currently advertise, if any.
    pub fn my_public_addr(&self) -> (res: Option<SocketAddr>)
        ensures
            res == (match self@.my_public_addr {
                Some((a, _)) => Some(a),
                None => None,
            }),
    {
        match self.my_public_addr {
            Some((a, _)) => Some(a),
            None => None,
        }
    }
}

/// The address part of the advertised public address.
pub open spec fn public_addr_of(m: MeshView) -> Option<SocketAddr> {
    match m.my_public_addr {
        Some((a, _)) => Some(a),
        None => None,
    }
}

impl MeshState {
    /// Sets a manual public address override at Unix time `now`: it is
    /// written to the configuration and advertised right away. Saving the
    /// configuration and waking the discovery loop is the caller's job.
    pub fn set_manual_public_addr_at(&mut self, ip: Ipv4Addr, port: u16, now: u64)
        requires
            old(self).wf(),
        ensures
            final(self).wf(),
            final(self)@.config.me.manual_public_ip matches Some(t) && t@ == ipv4_text(ip),
            final(self)@ == (MeshView {
                config: ConfigView {
                    me: MeConfig {
                        manual_public_ip: final(self)@.config.me.manual_public_ip,
                        manual_public_port: Some(port),
                        ..old(self)@.config.me
                    },
                    ..old(self)@.config
                },
                my_public_addr: Some((SocketAddr { ip, port }, now as u32)),
                ..old(self)@
            }),
    {
        self.config.me.manual_public_ip = Some(ip.to_text());
        self.config.me.manual_public_port = Some(port);
        self.my_public_addr = Some((SocketAddr { ip, port }, #[verifier::truncate] (now as u32)));
    }

    /// `set_manual_public_addr_at` with the current time.
    pub fn set_manual_public_addr(&mut self, ip: Ipv4Addr, port: u16)
        requires
            old(self).wf(),
        ensures
            final(self).wf(),
            final(self)@.config.me.manual_public_ip matches Some(t) && t@ == ipv4_text(ip),
            public_addr_of(final(self)@) == Some(SocketAddr { ip, port }),
            final(self)@ == (MeshView {
                config: ConfigView {
                    me: MeConfig {
                        manual_public_ip: final(self)@.config.me.manual_public_ip,
                        manual_public_port: Some(port),
                        ..old(self)@.config.me
                    },
                    ..old(self)@.config
                },
                my_public_addr: final(self)@.my_public_addr,
                ..old(self)@
            }),
    {
        let now = now_secs();
        self.set_manual_public_addr_at(ip, port, now);
    }

    /// Clears the manual override and the advertised address, so discovery
    /// starts afresh.
    pub fn clear_manual_public_addr(&mut self)
        requires
            old(self).wf(),
        ensures
            final(self).wf(),
            final(self)@ == (MeshView {
                config: ConfigView {
                    me: MeConfig {
                        manual_public_ip: None,
                        manual_public_port: None,
                        ..old(self)@.config.me
                    },
                    ..old(self)@.config
                },
                my_public_addr: None,
                ..old(self)@
            }),
    {
        self.config.me.manual_public_ip = None;
        self.config.me.manual_public_port = None;
        self.my_public_addr = None;
    }

    /// "Reset public address": clears the cached address and the
    /// advertised one, but not a manual override.
    pub fn reset_public_addr(&mut self)
        requires
            old(self).wf(),
        ensures
            final(self).wf(),
            final(self)@ == (MeshView {
                config: ConfigView {
                    me: MeConfig {
                        cached_public_ip: None,
                        cached_public_port: None,
                        ..old(self)@.config.me
                    },
                    ..old(self)@.config
                },
                my_public_addr: None,
                ..old(self)@
            }),
    {
        self.config.clear_cached_public_addr();
        self.my_public_addr = None;
    }

    /// The address to advertise at startup, before any probe: the cached
    /// one, unless a manual override is set (which the first tick applies).
    pub fn public_addr_seed(&self) -> (res: Option<SocketAddr>)
        ensures
            res == (if override_addr(self@.config.me.manual_public_ip, self@.config.me.manual_public_port) is None {
                if self@.config.me.cache_public_addr {
                    override_addr(self@.config.me.cached_public_ip, self@.config.me.cached_public_port)
                } else {
                    None
                }
            } else {
                None
            }),
    {
        if self.config.manual_public_addr().is_none() {
            self.config.cached_public_addr()
        } else {
            None
        }
    }

    /// Advertises `addr` as our public address from Unix time `now`.
    /// Returns whether the address differs from the one advertised before.
    pub fn adopt_public_addr_at(&mut self, addr: SocketAddr, now: u64) -> (changed: bool)
        requires
            old(self).wf(),
        ensures
            final(self).wf(),
            changed == (public_addr_of(old(self)@) != Some(addr)),
            final(self)@ == (MeshView { my_public_addr: Some((addr, now as u32)), ..old(self)@ }),
    {
        let changed = match self.my_public_addr {
            Some((a, _)) => a != addr,
            None => true,
        };
        self.my_public_addr = Some((addr, #[verifier::truncate] (now as u32)));
        changed
    }

    /// One discovery tick, first step: when a manual override is set it is
    /// what we advertise (re-stamped with `now` only when it differs from
    /// the current address), and `Some(changed)` tells the caller whether
    /// to gossip it; `None` means no override is set and the caller should
    /// probe STUN.
    pub fn apply_manual_override_at(&mut self, now: u64) -> (res: Option<bool>)
        requires
            old(self).wf(),
        ensures
            final(self).wf(),
            match override_addr(old(self)@.config.me.manual_public_ip, old(self)@.config.me.manual_public_port) {
                None => res is None && final(self)@ == old(self)@,
                Some(m) => if public_addr_of(old(self)@) == Some(m) {
                    res == Some(false) && final(self)@ == old(self)@
                } else {
                    res == Some(true) && final(self)@ == (MeshView {
                        my_public_addr: Some((m, now as u32)),
                        ..old(self)@
                    })
                },
            },
    {
        match self.config.manual_public_addr() {
            Some(m) => {
                let changed = match self.my_public_addr {
                    Some((a, _)) => a != m,
                    None => true,
                };
                if changed {
                    self.my_public_addr = Some((m, #[verifier::truncate] (now as u32)));
                }
                Some(changed)
            },
            None => None,
        }
    }

    /// One discovery tick, second step: a STUN probe reported `addr` at
    /// Unix time `now`. It is advertised from now on; when caching is on
    /// and the cache holds something else, it is cached too. Returns
    /// (whether the address changed, whether the configuration changed and
    /// should be saved).
    pub fn apply_stun_result_at(&mut self, addr: SocketAddr, now: u64) -> (res: (bool, bool))
        requires
            old(self).wf(),
        ensures
            final(self).wf(),
            res.0 == (public_addr_of(old(self)@) != Some(addr)),
            res.1 == (old(self)@.config.me.cache_public_addr && override_addr(
                old(self)@.config.me.cached_public_ip,
                old(self)@.config.me.cached_public_port,
            ) != Some(addr)),
            final(self)@.my_public_addr == Some((addr, now as u32)),
            !res.1 ==> final(self)@ == (MeshView { my_public_addr: Some((addr, now as u32)), ..old(self)@ }),
            res.1 ==> {
                &&& final(self)@.config.me.cached_public_ip matches Some(t) && t@ == ipv4_text(addr.ip)
                &&& final(self)@ == (MeshView {
                    my_public_addr: Some((addr, now as u32)),
                    config: ConfigView {
                        me: MeConfig {
                            cached_public_ip: final(self)@.config.me.cached_public_ip,
                            cached_public_port: Some(addr.port),
                            ..old(self)@.config.me
                        },
                        ..old(self)@.config
                    },
                    ..old(self)@
                })
            },
    {
        let changed = self.adopt_public_addr_at(addr, now);
        let mut cache_written = false;
        if self.config.me.cache_public_addr {
            let already = match self.config.cached_public_addr() {
                Some(c) => c == addr,
                None => false,
            };
            if !already {
                self.config.set_cached_public_addr(addr);
                cache_written = true;
            }
        }
        (changed, cache_written)
    }
}

/// The address a manually added peer card points at.
pub open spec fn card_addr(cfg: PeerConfig) -> Option<SocketAddr> {
    parse_socket_addr(cfg.public_ip@ + seq![':'] + dec_text(cfg.public_port as nat))
}

/// The table after manually adding (or refreshing) a peer reachable at
/// `addr`, at Unix time `now`: a known peer takes the card's name (unless
/// empty) and the address as news of epoch `now`; an unknown one is added
/// as configured.
pub open spec fn add_live_peers(ps: Seq<PeerView>, cfg: PeerConfig, addr: SocketAddr, now: u64) -> Seq<PeerView> {
    if has_peer(ps, cfg.virtual_ip) {
        let i = peer_pos(ps, cfg.virtual_ip);
        let p = ps[i];
        let named = PeerView { name: if cfg.name@.len() == 0 { p.name } else { cfg.name@ }, ..p };
        ps.update(i, observe_epoch_spec(named, addr, now as u32).0)
    } else {
        ps.push(configured_peer_view(cfg))
    }
}

impl MeshState {
    /// Adds (or updates) a peer in the running mesh from a peer card, at
    /// Unix time `now`, and records it in the configuration. A card whose
    /// `public_ip:public_port` is not a literal socket address is ignored
    /// (false). Saving and re-syncing names is the caller's job.
    pub fn add_peer_live_at(&mut self, peer: PeerConfig, now: u64) -> (applied: bool)
        requires
            old(self).wf(),
        ensures
            final(self).wf(),
            applied == card_addr(peer) is Some,
            !applied ==> final(self)@ == old(self)@,
            card_addr(peer) matches Some(addr) ==> {
                &&& final(self)@ == (MeshView {
                    peers: add_live_peers(old(self)@.peers, peer, addr, now),
                    config: ConfigView {
                        peers: upsert_peer(old(self)@.config.peers, peer.virtual_ip, peer.name@, addr),
                        ..old(self)@.config
                    },
                    ..old(self)@
                })
            },
    {
        let mut text = chars_of(peer.public_ip.as_str());
        text.push(':');
        push_decimal(&mut text, peer.public_port as u64);
        let text_str = crate::text::string_from_chars(text.as_slice());
        proof {
            assert(text@ =~= peer.public_ip@ + seq![':'] + dec_text(peer.public_port as nat));
        }
        let addr = match parse_socket_addr_str(text_str.as_str()) {
            Some(a) => a,
            None => return false,
        };
        let ghost m0 = self@;
        let ghost ps0 = self.peers@;
        match self.find_peer(peer.virtual_ip) {
            Some(i) => {
                proof {
                    lemma_pos(m0.peers, i as int, peer.virtual_ip);
                }
                self.peers[i].set_name(peer.name.as_str());
                let epoch: u32 = #[verifier::truncate] (now as u32);
                self.peers[i].observe_epoch(addr, epoch);
                proof {
                    let p3 = self.peers@[i as int];
                    assert(self.peers@ == ps0.update(i as int, p3));
                    lemma_peer_views_update(ps0, i as int, p3);
                    lemma_update_keeps_unique(m0.peers, i as int, p3@);
                    assert forall|k: int| 0 <= k < self.peers@.len() implies (#[trigger] self.peers@[k]).wf() by {
                        if k != i {
                            assert(self.peers@[k] == ps0[k]);
                        }
                    }
                }
            },
            None => {
                let p = Peer::new(&peer);
                self.peers.push(p);
                proof {
                    lemma_peer_views_push(ps0, p);
                    lemma_push_keeps_unique(m0.peers, p@);
                    assert forall|k: int| 0 <= k < self.peers@.len() implies (#[trigger] self.peers@[k]).wf() by {
                        if k < ps0.len() {
                            assert(self.peers@[k] == ps0[k]);
                        }
                    }
                }
            },
        }
        self.config.upsert_peer_addr(peer.virtual_ip, peer.name.as_str(), addr);
        true
    }

    /// Records what the configured host name of the peer at `virtual_ip`
    /// resolved to (see `Peer::needs_resolving`); nothing changes for an
    /// unknown peer.
    pub fn set_resolved_addr(&mut self, virtual_ip: Ipv4Addr, addr: Option<SocketAddr>)
        requires
            old(self).wf(),
        ensures
            final(self).wf(),
            !has_peer(old(self)@.peers, virtual_ip) ==> final(self)@ == old(self)@,
            has_peer(old(self)@.peers, virtual_ip) ==> final(self)@ == (MeshView {
                peers: old(self)@.peers.update(
                    peer_pos(old(self)@.peers, virtual_ip),
                    PeerView {
                        resolved_addr: addr,
                        ..old(self)@.peers[peer_pos(old(self)@.peers, virtual_ip)]
                    },
                ),
                ..old(self)@
            }),
    {
        let ghost m0 = self@;
        let ghost ps0 = self.peers@;
        match self.find_peer(virtual_ip) {
            Some(i) => {
                proof {
                    lemma_pos(m0.peers, i as int, virtual_ip);
                }
                self.peers[i].set_resolved_addr(addr);
                proof {
                    let p3 = self.peers@[i as int];
                    assert(self.peers@ == ps0.update(i as int, p3));
                    lemma_peer_views_update(ps0, i as int, p3);
                    lemma_update_keeps_unique(m0.peers, i as int, p3@);
                    assert forall|k: int| 0 <= k < self.peers@.len() implies (#[trigger] self.peers@[k]).wf() by {
                        if k != i {
                            assert(self.peers@[k] == ps0[k]);
                        }
                    }
                }
            },
            None => {},
        }
    }

    /// `add_peer_live_at` with the current time.
    pub fn add_peer_live(&mut self, peer: PeerConfig) -> (applied: bool)
        requires
            old(self).wf(),
        ensures
            final(self).wf(),
            applied == card_addr(peer) is Some,
            !applied ==> final(self)@ == old(self)@,
            card_addr(peer) matches Some(addr) ==> exists|now: u64|
                final(self)@ == (MeshView {
                    peers: #[trigger] add_live_peers(old(self)@.peers, peer, addr, now),
                    config: ConfigView {
                        peers: upsert_peer(old(self)@.config.peers, peer.virtual_ip, peer.name@, addr),
                        ..old(self)@.config
                    },
                    ..old(self)@
                }),
    {
        let now = now_secs();
        self.add_peer_live_at(peer, now)
    }

    /// Adds (or re-ports) a service we host; see `add_service_spec`.
    /// Returns false, changing nothing, for an empty (trimmed) name.
    pub fn add_service_live(&mut self, name: &str, port: u16) -> (added: bool)
        requires
            old(self).wf(),
        ensures
            final(self).wf(),
            added == (trim(name@).len() > 0),
            final(self)@ == (MeshView {
                config: ConfigView {
                    services: add_service_spec(old(self)@.config.services, name@, port),
                    ..old(self)@.config
                },
                ..old(self)@
            }),
    {
        self.config.add_service(name, port)
    }

    /// Removes every service we host called `name` (ignoring case).
    /// Returns whether any was removed.
    pub fn remove_service_live(&mut self, name: &str) -> (removed: bool)
        requires
            old(self).wf(),
        ensures
            final(self).wf(),
            removed == (without_service(old(self)@.config.services, name@).len()
                != old(self)@.config.services.len()),
            final(self)@ == (MeshView {
                config: ConfigView {
                    services: without_service(old(self)@.config.services, name@),
                    ..old(self)@.config
                },
                ..old(self)@
            }),
    {
        self.config.remove_service(name)
    }
}

pub open spec fn opt_seq(a: Option<SocketAddr>) -> Seq<SocketAddr> {
    match a {
        Some(x) => seq![x],
        None => Seq::empty(),
    }
}

/// Every address we can currently send to, one per peer that has one, in
/// table order.
pub open spec fn all_send_addrs(ps: Seq<PeerView>) -> Seq<SocketAddr>
    decreases ps.len(),
{
    if ps.len() == 0 {
        Seq::empty()
    } else {
        all_send_addrs(ps.drop_last()) + opt_seq(send_addr(ps.last()))
    }
}

/// Where a packet for `dst` from the virtual adapter goes: broadcast and
/// multicast destinations to every peer, a known peer to that peer, any
/// other destination nowhere.
pub open spec fn route_targets(m: MeshView, dst: Ipv4Addr) -> Seq<SocketAddr> {
    if is_flood_target_spec(dst, m.broadcast_addr) {
        all_send_addrs(m.peers)
    } else if has_peer(m.peers, dst) {
        opt_seq(send_addr(m.peers[peer_pos(m.peers, dst)]))
    } else {
        Seq::empty()
    }
}

proof fn lemma_all_send_addrs_has(ps: Seq<PeerView>, i: int)
    requires
        0 <= i < ps.len(),
        send_addr(ps[i]) is Some,
    ensures
        all_send_addrs(ps).contains(send_addr(ps[i])->0),
    decreases ps.len(),
{
    let a = send_addr(ps[i])->0;
    let rest = all_send_addrs(ps.drop_last());
    let last = opt_seq(send_addr(ps.last()));
    if i == ps.len() - 1 {
        assert((rest + last)[rest.len() as int] == a);
    } else {
        lemma_all_send_addrs_has(ps.drop_last(), i);
        let k = choose|k: int| 0 <= k < rest.len() && rest[k] == a;
        assert((rest + last)[k] == a);
    }
}

/// A broadcast or multicast packet read from the virtual adapter is sent
/// to every peer that has an address; a packet for a known peer's virtual
/// IP (no flood target) is sent to that peer's address and nowhere else.
pub proof fn lemma_routing(m: MeshView, dst: Ipv4Addr, i: int)
    requires
        0 <= i < m.peers.len(),
    ensures
        is_flood_target_spec(dst, m.broadcast_addr) && send_addr(m.peers[i]) is Some
            ==> route_targets(m, dst).contains(send_addr(m.peers[i])->0),
        !is_flood_target_spec(dst, m.broadcast_addr) && m.peers[i].virtual_ip == dst && ips_unique(m.peers)
            ==> route_targets(m, dst) == opt_seq(send_addr(m.peers[i])),
{
    if is_flood_target_spec(dst, m.broadcast_addr) && send_addr(m.peers[i]) is Some {
        lemma_all_send_addrs_has(m.peers, i);
    }
    if !is_flood_target_spec(dst, m.broadcast_addr) && m.peers[i].virtual_ip == dst && ips_unique(m.peers) {
        assert(has_peer(m.peers, dst));
        let p = peer_pos(m.peers, dst);
        assert(m.peers[p].virtual_ip == dst);
        if p < i {
            assert(m.peers[p].virtual_ip != m.peers[i].virtual_ip);
        } else if p > i {
            assert(m.peers[i].virtual_ip != m.peers[p].virtual_ip);
        }
    }
}

/// A packet for any multicast group (224.0.0.0/4, such as mDNS at
/// 224.0.0.251 or SSDP at 239.255.255.250), for 255.255.255.255 or for
/// the subnet's broadcast address goes to every peer's send address, in
/// table order, whatever peers there are.
pub proof fn lemma_broadcast_and_multicast_flood(m: MeshView, dst: Ipv4Addr)
    requires
        (224 <= dst.a <= 239) || dst == m.broadcast_addr || (dst.a == 255 && dst.b == 255 && dst.c
            == 255 && dst.d == 255),
    ensures
        route_targets(m, dst) == all_send_addrs(m.peers),
{
    crate::proto::lemma_flood_targets(dst, m.broadcast_addr);
}

/// Every keepalive round pings each peer at its send address and, when it
/// differs from that, at its same-LAN candidate too (so two peers behind
/// one router find each other over the LAN).
pub proof fn lemma_keepalive_pings_every_address(ps: Seq<PeerView>, i: int)
    requires
        0 <= i < ps.len(),
    ensures
        send_addr(ps[i]) matches Some(a) ==> keepalive_targets(ps).contains(a),
        ps[i].lan_candidate matches Some(l) ==> (Some(l) != send_addr(ps[i]) ==> keepalive_targets(
            ps,
        ).contains(l)),
    decreases ps.len(),
{
    let init = ps.drop_last();
    let rest = keepalive_targets(init);
    let last = ping_targets(ps.last());
    assert(keepalive_targets(ps) == rest + last);
    if i < ps.len() - 1 {
        lemma_keepalive_pings_every_address(init, i);
        assert(init[i] == ps[i]);
        if send_addr(ps[i]) is Some {
            let a = send_addr(ps[i])->0;
            let k = choose|k: int| 0 <= k < rest.len() && rest[k] == a;
            assert((rest + last)[k] == a);
        }
        if ps[i].lan_candidate is Some && Some(ps[i].lan_candidate->0) != send_addr(ps[i]) {
            let l = ps[i].lan_candidate->0;
            let k = choose|k: int| 0 <= k < rest.len() && rest[k] == l;
            assert((rest + last)[k] == l);
        }
    } else {
        assert(ps.last() == ps[i]);
        let d = opt_seq(send_addr(ps[i]));
        if send_addr(ps[i]) is Some {
            assert((rest + last)[rest.len() as int] == send_addr(ps[i])->0);
        }
        if ps[i].lan_candidate is Some && Some(ps[i].lan_candidate->0) != send_addr(ps[i]) {
            let l = ps[i].lan_candidate->0;
            assert(last[d.len() as int] == l);
            assert((rest + last)[(rest.len() + d.len()) as int] == l);
        }
    }
}

/// Big-endian bytes of a 64-bit number.
pub open spec fn be64(v: u64) -> Seq<u8> {
    Seq::new(8, |k: int| ((v as nat / pow256((7 - k) as nat)) % 256) as u8)
}

pub open spec fn pow256(n: nat) -> nat
    decreases n,
{
    if n == 0 {
        1
    } else {
        256 * pow256((n - 1) as nat)
    }
}

/// The 64-bit number with the given big-endian bytes.
pub open spec fn be64_value(b: Seq<u8>) -> nat
    decreases b.len(),
{
    if b.len() == 0 {
        0
    } else {
        be64_value(b.drop_last()) * 256 + b.last() as nat
    }
}

/// The first `k` big-endian bytes of `v` read back as the number `v`
/// without its last `8 - k` bytes.
proof fn lemma_be64_prefix(v: u64, k: nat)
    requires
        k <= 8,
    ensures
        be64_value(be64(v).take(k as int)) == v as nat / pow256((8 - k) as nat),
    decreases k,
{
    lemma_pow256_mono(0, (8 - k) as nat);
    if k == 0 {
        assert(be64(v).take(0) =~= Seq::<u8>::empty());
        reveal_with_fuel(pow256, 9);
        assert(pow256(8) == 0x1_0000_0000_0000_0000);
        vstd::arithmetic::div_mod::lemma_basic_div(v as int, pow256(8) as int);
    } else {
        lemma_be64_prefix(v, (k - 1) as nat);
        let t = be64(v).take(k as int);
        assert(t.drop_last() =~= be64(v).take(k - 1));
        let p = pow256((8 - k) as nat);
        lemma_pow256_mono(0, (8 - k) as nat);
        assert(pow256((8 - (k - 1)) as nat) == 256 * p);
        assert(t.last() == ((v as nat / p) % 256) as u8);
        let q = v as nat / p;
        assert(q / 256 == v as nat / (256 * p)) by {
            vstd::arithmetic::div_mod::lemma_div_denominator(v as int, p as int, 256);
            vstd::arithmetic::mul::lemma_mul_is_commutative(p as int, 256);
        }
        assert(q == 256 * (q / 256) + q % 256) by {
            vstd::arithmetic::div_mod::lemma_fundamental_div_mod(q as int, 256);
        }
    }
}

/// Reading back the big-endian bytes of a number gives the number
/// (`u64::from_be_bytes(v.to_be_bytes()) == v`).
pub proof fn lemma_be64_roundtrip(v: u64)
    ensures
        be64_value(be64(v)) == v as nat,
{
    lemma_be64_prefix(v, 8);
    assert(be64(v).take(8) =~= be64(v));
    assert(pow256((8 - 8) as nat) == 1);
    assert(v as nat / 1 == v as nat);
}

/// The eight big-endian bytes of `v` (`u64::to_be_bytes`).
pub fn be64_bytes(v: u64) -> (out: Vec<u8>)
    ensures
        out@ == be64(v),
{
    let mut out: Vec<u8> = Vec::new();
    let mut k: usize = 0;
    let mut div: u64 = 0x0100_0000_0000_0000;
    proof {
        reveal_with_fuel(pow256, 8);
    }
    while k < 8
        invariant
            k <= 8,
            out@ == be64(v).take(k as int),
            k < 8 ==> div as nat == pow256((7 - k) as nat),
        decreases 8 - k,
    {
        proof {
            lemma_pow256_mono(0, (7 - k) as nat);
        }
        let byte = ((v / div) % 256) as u8;
        out.push(byte);
        proof {
            assert(out@ =~= be64(v).take(k + 1));
        }
        if k < 7 {
            proof {
                assert(pow256((7 - k) as nat) == 256 * pow256((7 - (k + 1)) as nat));
            }
            div = div / 256;
        }
        k = k + 1;
    }
    proof {
        assert(be64(v).take(8) =~= be64(v));
    }
    out
}

/// The number in eight big-endian bytes (`u64::from_be_bytes`).
pub fn be64_read(b: &[u8]) -> (v: u64)
    requires
        b@.len() == 8,
    ensures
        v as nat == be64_value(b@),
{
    let mut v: u64 = 0;
    let mut k: usize = 0;
    while k < 8
        invariant
            k <= 8,
            b@.len() == 8,
            v as nat == be64_value(b@.take(k as int)),
            v as nat <= pow256(k as nat) - 1,
        decreases 8 - k,
    {
        proof {
            assert(b@.take(k + 1).drop_last() =~= b@.take(k as int));
            assert(pow256((k + 1) as nat) == 256 * pow256(k as nat));
            assert(pow256(8) == 0x1_0000_0000_0000_0000) by {
                reveal_with_fuel(pow256, 9);
            }
            lemma_pow256_mono(k as nat, 7);
            assert(v as nat * 256 + 255 <= pow256((k + 1) as nat) - 1) by (nonlinear_arith)
                requires
                    v as nat <= pow256(k as nat) - 1,
                    pow256((k + 1) as nat) == 256 * pow256(k as nat),
            ;
        }
        v = v * 256 + b[k] as u64;
        k = k + 1;
    }
    proof {
        assert(b@.take(8) =~= b@);
    }
    v
}

proof fn lemma_pow256_mono(a: nat, b: nat)
    requires
        a <= b,
    ensures
        pow256(a) <= pow256(b),
        pow256(a) >= 1,
    decreases b,
{
    if a < b {
        lemma_pow256_mono(a, (b - 1) as nat);
    }
    if b > 0 {
        lemma_pow256_mono(0, (b - 1) as nat);
    }
}

/// Appends the send address of every peer in `ps` that has one.
fn push_send_addrs(out: &mut Vec<SocketAddr>, ps: &[Peer])
    ensures
        final(out)@ == old(out)@ + all_send_addrs(peer_views(ps@)),
{
    let ghost base = out@;
    let ghost pv = peer_views(ps@);
    let mut i: usize = 0;
    while i < ps.len()
        invariant
            i <= ps@.len(),
            pv == peer_views(ps@),
            out@ == base + all_send_addrs(pv.take(i as int)),
        decreases ps@.len() - i,
    {
        proof {
            assert(pv.take(i + 1).drop_last() =~= pv.take(i as int));
            assert(pv.take(i + 1).last() == ps@[i as int]@);
        }
        match ps[i].current_send_addr() {
            Some(a) => {
                out.push(a);
                proof {
                    assert(out@ =~= base + all_send_addrs(pv.take(i + 1)));
                }
            },
            None => {
                proof {
                    assert(out@ =~= base + all_send_addrs(pv.take(i + 1)));
                }
            },
        }
        i = i + 1;
    }
    proof {
        assert(pv.take(i as int) =~= pv);
    }
}

impl MeshState {
    /// A packet read from the virtual adapter: `None` when it is not IPv4;
    /// otherwise the data frame to seal and the peers to send it to (see
    /// `route_targets`).
    pub fn route_outbound(&self, packet: &[u8]) -> (res: Option<(Vec<u8>, Vec<SocketAddr>)>)
        requires
            self.wf(),
        ensures
            match ipv4_dst_spec(packet@) {
                None => res is None,
                Some(dst) => res matches Some((frame, targets)) && frame@ == packet_bytes(
                    TYPE_DATA,
                    self@.my_virtual_ip,
                    packet@,
                ) && targets@ == route_targets(self@, dst),
            },
    {
        let dst = match ipv4_dst(packet) {
            Some(d) => d,
            None => return None,
        };
        let frame = build(TYPE_DATA, self.my_virtual_ip, packet);
        let mut targets: Vec<SocketAddr> = Vec::new();
        if is_flood_target(dst, self.broadcast_addr) {
            push_send_addrs(&mut targets, self.peers.as_slice());
            proof {
                assert(targets@ =~= route_targets(self@, dst));
            }
        } else {
            match self.find_peer(dst) {
                Some(i) => {
                    proof {
                        lemma_pos(self@.peers, i as int, dst);
                    }
                    if let Some(a) = self.peers[i].current_send_addr() {
                        targets.push(a);
                    }
                    proof {
                        assert(targets@ =~= route_targets(self@, dst));
                    }
                },
                None => {
                    proof {
                        assert(targets@ =~= route_targets(self@, dst));
                    }
                },
            }
        }
        Some((frame, targets))
    }

    /// One gossip round: the frames carrying everything we know (split
    /// into payloads of at most `MAX_ENTRIES_PER_PACKET` entries), and the
    /// peers to send each of them to. Nothing when there is nothing to
    /// tell.
    pub fn gossip_frames(&self) -> (res: (Vec<Vec<u8>>, Vec<SocketAddr>))
        requires
            self.wf(),
        ensures
            local_gossip(self@).len() == 0 ==> res.0@.len() == 0 && res.1@.len() == 0,
            local_gossip(self@).len() > 0 ==> {
                &&& res.0@.len() == chunk_count(local_gossip(self@).len())
                &&& forall|i: int|
                    0 <= i < res.0@.len() ==> #[trigger] res.0@[i]@ == packet_bytes(
                        TYPE_GOSSIP,
                        self@.my_virtual_ip,
                        single_payload(chunk(local_gossip(self@), i)),
                    )
                &&& res.1@ == all_send_addrs(self@.peers)
            },
    {
        let entries = self.build_local_gossip_entries();
        let mut frames: Vec<Vec<u8>> = Vec::new();
        let mut targets: Vec<SocketAddr> = Vec::new();
        if entries.len() == 0 {
            return (frames, targets);
        }
        let payloads = build_payloads(entries.as_slice());
        let mut i: usize = 0;
        while i < payloads.len()
            invariant
                i <= payloads@.len(),
                frames@.len() == i,
                payloads@.len() == chunk_count(entries@.len() as nat),
                forall|k: int|
                    0 <= k < payloads@.len() ==> #[trigger] payloads@[k]@ == single_payload(
                        chunk(views(entries@), k),
                    ),
                forall|k: int|
                    0 <= k < i ==> #[trigger] frames@[k]@ == packet_bytes(
                        TYPE_GOSSIP,
                        self@.my_virtual_ip,
                        payloads@[k]@,
                    ),
            decreases payloads@.len() - i,
        {
            let f = build(TYPE_GOSSIP, self.my_virtual_ip, payloads[i].as_slice());
            frames.push(f);
            i = i + 1;
        }
        push_send_addrs(&mut targets, self.peers.as_slice());
        proof {
            assert(targets@ =~= all_send_addrs(self@.peers));
            assert(views(entries@).len() == entries@.len());
        }
        (frames, targets)
    }
}

/// Where one keepalive ping for a peer goes: its send address, plus its
/// LAN candidate when it has one that differs from the send address.
pub open spec fn ping_targets(p: PeerView) -> Seq<SocketAddr> {
    opt_seq(send_addr(p)) + match p.lan_candidate {
        Some(l) => if Some(l) != send_addr(p) {
            seq![l]
        } else {
            Seq::empty()
        },
        None => Seq::empty(),
    }
}

pub open spec fn keepalive_targets(ps: Seq<PeerView>) -> Seq<SocketAddr>
    decreases ps.len(),
{
    if ps.len() == 0 {
        Seq::empty()
    } else {
        keepalive_targets(ps.drop_last()) + ping_targets(ps.last())
    }
}

/// A peer after a keepalive round with sequence number `seq`: the ping is
/// pending whenever it was sent anywhere.
pub open spec fn after_ping(p: PeerView, seq: u64) -> PeerView {
    if ping_targets(p).len() > 0 {
        PeerView { pending: pending_after_send(p.pending, seq), ..p }
    } else {
        p
    }
}

impl MeshState {
    /// One keepalive round with sequence number `seq`: the ping frame
    /// (carrying `seq` big-endian) and every address it goes to; each peer
    /// pinged somewhere records the ping as pending.
    pub fn keepalive_round(&mut self, seq: u64) -> (res: (Vec<u8>, Vec<SocketAddr>))
        requires
            old(self).wf(),
        ensures
            final(self).wf(),
            res.0@ == packet_bytes(TYPE_PING, old(self)@.my_virtual_ip, be64(seq)),
            res.1@ == keepalive_targets(old(self)@.peers),
            final(self)@ == (MeshView {
                peers: Seq::new(old(self)@.peers.len(), |k: int| after_ping(old(self)@.peers[k], seq)),
                ..old(self)@
            }),
    {
        let seq_bytes = be64_bytes(seq);
        let frame = build(TYPE_PING, self.my_virtual_ip, seq_bytes.as_slice());
        let mut targets: Vec<SocketAddr> = Vec::new();
        let ghost m0 = self@;
        let ghost ps0 = self.peers@;
        let mut i: usize = 0;
        while i < self.peers.len()
            invariant
                i <= self.peers@.len(),
                self.peers@.len() == ps0.len(),
                m0.peers == peer_views(ps0),
                targets@ == keepalive_targets(m0.peers.take(i as int)),
                forall|k: int| 0 <= k < self.peers@.len() ==> (#[trigger] self.peers@[k]).wf(),
                forall|k: int| 0 <= k < i ==> (#[trigger] self.peers@[k])@ == after_ping(m0.peers[k], seq),
                forall|k: int| i <= k < self.peers@.len() ==> #[trigger] self.peers@[k] == ps0[k],
                self@ == (MeshView { peers: self@.peers, ..m0 }),
            decreases self.peers@.len() - i,
        {
            proof {
                assert(m0.peers.take(i + 1).drop_last() =~= m0.peers.take(i as int));
                assert(m0.peers.take(i + 1).last() == m0.peers[i as int]);
                assert(self.peers@[i as int] == ps0[i as int]);
            }
            let direct = self.peers[i].current_send_addr();
            let lan = self.peers[i].lan_candidate();
            let mut pinged = false;
            let ghost t0 = targets@;
            if let Some(a) = direct {
                targets.push(a);
                pinged = true;
            }
            if let Some(l) = lan {
                let same = match direct {
                    Some(a) => a == l,
                    None => false,
                };
                if !same {
                    targets.push(l);
                    pinged = true;
                }
            }
            proof {
                assert(targets@ =~= t0 + ping_targets(m0.peers[i as int]));
                assert(pinged == (ping_targets(m0.peers[i as int]).len() > 0));
            }
            let ghost ps1 = self.peers@;
            if pinged {
                self.peers[i].record_ping_sent(seq);
            }
            proof {
                let p3 = self.peers@[i as int];
                assert(self.peers@ == ps1.update(i as int, p3));
                lemma_peer_views_update(ps1, i as int, p3);
            }
            i = i + 1;
        }
        proof {
            assert(m0.peers.take(i as int) =~= m0.peers);
            assert(peer_views(self.peers@) =~= Seq::new(m0.peers.len(), |k: int| after_ping(m0.peers[k], seq)));
            assert forall|a: int, b: int| 0 <= a < b < self@.peers.len() implies (#[trigger] self@.peers[a]).virtual_ip
                != (#[trigger] self@.peers[b]).virtual_ip by {
                assert(self@.peers[a].virtual_ip == m0.peers[a].virtual_ip);
                assert(self@.peers[b].virtual_ip == m0.peers[b].virtual_ip);
            }
        }
        (frame, targets)
    }
}

/// The state after recording in the configuration what an outcome says
/// about a peer's address: a new peer or a new address is written as is; a
/// new name is written with the address we currently send to (if any);
/// a service announcement writes nothing. The flag tells whether anything
/// was written.
pub open spec fn persist_outcome(m: MeshView, o: Option<OutcomeView>) -> (MeshView, bool) {
    match o {
        Some(OutcomeView::NewPeer { virtual_ip, name, addr }) => (
            MeshView {
                config: ConfigView { peers: upsert_peer(m.config.peers, virtual_ip, name, addr), ..m.config },
                ..m
            },
            true,
        ),
        Some(OutcomeView::AddressUpdated { virtual_ip, name, addr }) => (
            MeshView {
                config: ConfigView { peers: upsert_peer(m.config.peers, virtual_ip, name, addr), ..m.config },
                ..m
            },
            true,
        ),
        Some(OutcomeView::NameUpdated { virtual_ip, name }) => if has_peer(m.peers, virtual_ip) {
            match send_addr(m.peers[peer_pos(m.peers, virtual_ip)]) {
                Some(a) => (
                    MeshView {
                        config: ConfigView { peers: upsert_peer(m.config.peers, virtual_ip, name, a), ..m.config },
                        ..m
                    },
                    true,
                ),
                None => (m, false),
            }
        } else {
            (m, false)
        },
        _ => (m, false),
    }
}

/// One gossip entry: applied as a service announcement or a plain entry,
/// then persisted. Returns the new state, the outcome and whether the
/// configuration was written.
pub open spec fn gossip_one(m: MeshView, e: EntryView) -> (MeshView, Option<OutcomeView>, bool) {
    let (m1, o) = if e.service_name.len() > 0 {
        apply_service(m, e)
    } else {
        apply_entry(m, e)
    };
    let (m2, saved) = persist_outcome(m1, o);
    (m2, o, saved)
}

pub open spec fn opt_outcome(o: Option<OutcomeView>) -> Seq<OutcomeView> {
    match o {
        Some(x) => seq![x],
        None => Seq::empty(),
    }
}

/// A whole gossip payload's entries, in order: the final state, every
/// outcome reported, and whether the configuration was written.
pub open spec fn gossip_all(m: MeshView, es: Seq<EntryView>) -> (MeshView, Seq<OutcomeView>, bool)
    decreases es.len(),
{
    if es.len() == 0 {
        (m, Seq::empty(), false)
    } else {
        let (m1, os, s1) = gossip_all(m, es.drop_last());
        let (m2, o, s2) = gossip_one(m1, es.last());
        (m2, os + opt_outcome(o), s1 || s2)
    }
}

pub open spec fn outcome_views(os: Seq<GossipOutcome>) -> Seq<OutcomeView> {
    Seq::new(os.len(), |i: int| os[i]@)
}

impl MeshState {
    /// Records in the configuration what `o` says; see `persist_outcome`.
    fn persist(&mut self, o: &Option<GossipOutcome>) -> (saved: bool)
        requires
            old(self).wf(),
        ensures
            final(self).wf(),
            (final(self)@, saved) == persist_outcome(old(self)@, outcome_view(*o)),
    {
        match o {
            Some(GossipOutcome::NewPeer { virtual_ip, name, addr }) => {
                self.config.upsert_peer_addr(*virtual_ip, name.as_str(), *addr);
                true
            },
            Some(GossipOutcome::AddressUpdated { virtual_ip, name, addr }) => {
                self.config.upsert_peer_addr(*virtual_ip, name.as_str(), *addr);
                true
            },
            Some(GossipOutcome::NameUpdated { virtual_ip, name }) => {
                match self.find_peer(*virtual_ip) {
                    Some(i) => {
                        proof {
                            lemma_pos(self@.peers, i as int, *virtual_ip);
                        }
                        match self.peers[i].current_send_addr() {
                            Some(a) => {
                                self.config.upsert_peer_addr(*virtual_ip, name.as_str(), a);
                                true
                            },
                            None => false,
                        }
                    },
                    None => false,
                }
            },
            _ => false,
        }
    }

    /// Applies every entry of a received gossip payload in order; see
    /// `gossip_all`. Returns the outcomes and whether the configuration was
    /// written (and should be saved).
    pub fn apply_gossip_payload(&mut self, payload: &[u8]) -> (res: (Vec<GossipOutcome>, bool))
        requires
            old(self).wf(),
        ensures
            final(self).wf(),
            (final(self)@, outcome_views(res.0@), res.1) == gossip_all(old(self)@, parse_payload_spec(payload@)),
    {
        let entries = parse_payload(payload);
        let ghost es = views(entries@);
        let ghost m0 = self@;
        let mut outs: Vec<GossipOutcome> = Vec::new();
        let mut saved = false;
        let mut i: usize = 0;
        while i < entries.len()
            invariant
                i <= entries@.len(),
                es == views(entries@),
                self.wf(),
                (self@, outcome_views(outs@), saved) == gossip_all(m0, es.take(i as int)),
            decreases entries@.len() - i,
        {
            proof {
                assert(es.take(i + 1).drop_last() =~= es.take(i as int));
                assert(es.take(i + 1).last() == entries@[i as int]@);
            }
            let o = if entries[i].is_service() {
                self.apply_gossip_service(&entries[i])
            } else {
                self.apply_gossip_entry(&entries[i])
            };
            let s = self.persist(&o);
            let ghost before = outs@;
            match o {
                Some(x) => {
                    outs.push(x);
                },
                None => {},
            }
            proof {
                assert(outcome_views(outs@) =~= outcome_views(before) + opt_outcome(outcome_view(o)));
            }
            saved = saved || s;
            i = i + 1;
        }
        proof {
            assert(es.take(i as int) =~= es);
        }
        (outs, saved)
    }
}

/// Accepting an authenticated packet of type `ptype` from the virtual IP
/// `ip`, arriving from `from` at Unix time `now`. An unknown sender is
/// learned when the packet is a ping (see `learn_from_ping`) and dropped
/// otherwise (`None`). The sender is then observed at `from` (direct
/// observation wins), and a changed address is recorded in the
/// configuration. Returns the state, the outcome of learning the peer,
/// whether this is the first packet ever seen from it, and whether the
/// configuration was written.
pub open spec fn accept_packet(m: MeshView, ptype: u8, ip: Ipv4Addr, from: SocketAddr, now: u64) -> Option<
    (MeshView, Option<OutcomeView>, bool, bool),
> {
    let (m0, learned) = if !has_peer(m.peers, ip) && ptype == TYPE_PING {
        learn_from_ping(m, ip, from, now)
    } else {
        (m, None)
    };
    if !has_peer(m0.peers, ip) {
        None
    } else {
        let (m1, saved1) = persist_outcome(m0, learned);
        let i = peer_pos(m1.peers, ip);
        let p = m1.peers[i];
        let (p2, changed) = observe_spec(p, from, now);
        let m2 = MeshView { peers: m1.peers.update(i, p2), ..m1 };
        let m3 = if changed {
            MeshView {
                config: ConfigView { peers: upsert_peer(m2.config.peers, ip, p2.name, from), ..m2.config },
                ..m2
            }
        } else {
            m2
        };
        Some((m3, learned, p.last_seen_secs == 0, saved1 || changed))
    }
}

/// What became of one received packet.
pub struct PacketOutcome {
    /// The sender was known (or learned) and the packet was processed;
    /// false means it was dropped without effect.
    pub accepted: bool,
    /// First packet ever seen from this peer.
    pub first_contact: bool,
    /// An IPv4 packet to write to the virtual adapter.
    pub deliver: Option<Vec<u8>>,
    /// A frame to seal and send back to where the packet came from.
    pub reply: Option<Vec<u8>>,
    /// The outcome of learning an unknown sender from its ping.
    pub learned: Option<GossipOutcome>,
    /// The outcomes of the gossip entries the packet carried.
    pub gossip: Vec<GossipOutcome>,
    /// The configuration changed and should be saved.
    pub save_config: bool,
    /// Local domain names should be rebuilt.
    pub refresh_names: bool,
}

pub open spec fn opt_bytes(o: Option<Vec<u8>>) -> Option<Seq<u8>> {
    match o {
        Some(v) => Some(v@),
        None => None,
    }
}

impl MeshState {
    /// Handles one authenticated packet (header `hdr`, `payload`) that
    /// arrived from `from` at Unix time `now`: the sender is accepted as
    /// `accept_packet` says, then by type: data with a non-empty payload
    /// is delivered to the virtual adapter; an 8-byte ping is answered
    /// with a pong echoing it; an 8-byte pong completes the matching ping;
    /// a gossip payload is applied as `gossip_all` says; anything else only
    /// counts as a sign of life.
    pub fn on_packet_at(&mut self, hdr: Header, payload: &[u8], from: SocketAddr, now: u64) -> (res:
        PacketOutcome)
        requires
            old(self).wf(),
        ensures
            final(self).wf(),
            match accept_packet(old(self)@, hdr.packet_type, hdr.sender_virtual_ip, from, now) {
                None => !res.accepted && final(self)@ == old(self)@ && res.deliver is None
                    && res.reply is None && res.learned is None && res.gossip@.len() == 0
                    && !res.save_config && !res.refresh_names,
                Some((m3, learned, first, saved)) => {
                    &&& res.accepted
                    &&& res.first_contact == first
                    &&& outcome_view(res.learned) == learned
                    &&& opt_bytes(res.deliver) == (if hdr.packet_type == TYPE_DATA && payload@.len() > 0 {
                        Some(payload@)
                    } else {
                        None
                    })
                    &&& opt_bytes(res.reply) == (if hdr.packet_type == TYPE_PING && payload@.len() == 8 {
                        Some(packet_bytes(TYPE_PONG, old(self)@.my_virtual_ip, payload@))
                    } else {
                        None
                    })
                    &&& if hdr.packet_type == TYPE_GOSSIP {
                        let (m4, outs, saved2) = gossip_all(m3, parse_payload_spec(payload@));
                        &&& final(self)@ == m4
                        &&& outcome_views(res.gossip@) == outs
                        &&& res.save_config == (saved || saved2)
                        &&& res.refresh_names == (learned is Some || outs.len() > 0)
                    } else if hdr.packet_type == TYPE_PONG && payload@.len() == 8 {
                        let seq = be64_value(payload@) as u64;
                        let i = peer_pos(m3.peers, hdr.sender_virtual_ip);
                        let p = m3.peers[i];
                        &&& final(self)@ == (MeshView {
                            peers: m3.peers.update(
                                i,
                                PeerView {
                                    pending: p.pending.remove(seq),
                                    last_rtt_ms: final(self)@.peers[i].last_rtt_ms,
                                    ..p
                                },
                            ),
                            ..m3
                        })
                        &&& !p.pending.contains(seq) ==> final(self)@.peers[i].last_rtt_ms == p.last_rtt_ms
                        &&& res.gossip@.len() == 0
                        &&& res.save_config == saved
                        &&& res.refresh_names == (learned is Some)
                    } else {
                        &&& final(self)@ == m3
                        &&& res.gossip@.len() == 0
                        &&& res.save_config == saved
                        &&& res.refresh_names == (learned is Some)
                    }
                },
            },
    {
        let ip = hdr.sender_virtual_ip;
        let mut learned: Option<GossipOutcome> = None;
        let i: usize = match self.find_peer(ip) {
            Some(i) => i,
            None => {
                let ghost m = self@;
                if hdr.packet_type == TYPE_PING {
                    learned = self.learn_peer_from_ping_at(ip, from, now);
                    proof {
                        if !(ip == m.my_virtual_ip || has_peer(m.peers, ip) || m.peers.len() >= MAX_PEERS) {
                            assert(self@.peers[m.peers.len() as int].virtual_ip == ip);
                        }
                    }
                }
                match self.find_peer(ip) {
                    Some(i) => i,
                    None => {
                        return PacketOutcome {
                            accepted: false,
                            first_contact: false,
                            deliver: None,
                            reply: None,
                            learned: None,
                            gossip: Vec::new(),
                            save_config: false,
                            refresh_names: false,
                        };
                    },
                }
            },
        };
        let refresh_learned = learned.is_some();
        let saved1 = self.persist(&learned);
        let ghost m1 = self@;
        proof {
            lemma_pos(m1.peers, i as int, ip);
        }
        let first_contact = self.peers[i].last_seen_secs() == 0;
        let ghost ps1 = self.peers@;
        let changed = self.peers[i].observe_at(from, now);
        proof {
            let p3 = self.peers@[i as int];
            assert(self.peers@ == ps1.update(i as int, p3));
            lemma_peer_views_update(ps1, i as int, p3);
            lemma_update_keeps_unique(m1.peers, i as int, p3@);
            assert forall|k: int| 0 <= k < self.peers@.len() implies (#[trigger] self.peers@[k]).wf() by {
                if k != i {
                    assert(self.peers@[k] == ps1[k]);
                }
            }
        }
        if changed {
            let name = self.peers[i].name();
            self.config.upsert_peer_addr(ip, name.as_str(), from);
        }
        let ghost m3 = self@;
        let mut out = PacketOutcome {
            accepted: true,
            first_contact,
            deliver: None,
            reply: None,
            learned,
            gossip: Vec::new(),
            save_config: saved1 || changed,
            refresh_names: refresh_learned,
        };
        if hdr.packet_type == TYPE_DATA && payload.len() > 0 {
            out.deliver = Some(slice_to_vec(payload));
        } else if hdr.packet_type == TYPE_PING && payload.len() == 8 {
            out.reply = Some(build(TYPE_PONG, self.my_virtual_ip, payload));
        } else if hdr.packet_type == TYPE_PONG && payload.len() == 8 {
            let seq = be64_read(payload);
            proof {
                lemma_pos(m3.peers, i as int, ip);
            }
            let ghost ps3 = self.peers@;
            let _ = self.peers[i].record_pong_received(seq);
            proof {
                let p3 = self.peers@[i as int];
                assert(self.peers@ == ps3.update(i as int, p3));
                lemma_peer_views_update(ps3, i as int, p3);
                lemma_update_keeps_unique(m3.peers, i as int, p3@);
                assert forall|k: int| 0 <= k < self.peers@.len() implies (#[trigger] self.peers@[k]).wf() by {
                    if k != i {
                        assert(self.peers@[k] == ps3[k]);
                    }
                }
            }
        } else if hdr.packet_type == TYPE_GOSSIP {
            let (outs, saved2) = self.apply_gossip_payload(payload);
            out.save_config = out.save_config || saved2;
            out.refresh_names = out.refresh_names || outs.len() > 0;
            out.gossip = outs;
        }
        out
    }
}

/// A copy of a byte slice.
fn slice_to_vec(b: &[u8]) -> (v: Vec<u8>)
    ensures
        v@ == b@,
{
    let mut v: Vec<u8> = Vec::new();
    let mut i: usize = 0;
    while i < b.len()
        invariant
            i <= b@.len(),
            v@ == b@.take(i as int),
        decreases b@.len() - i,
    {
        v.push(b[i]);
        proof {
            assert(v@ =~= b@.take(i + 1));
        }
        i = i + 1;
    }
    proof {
        assert(b@.take(i as int) =~= b@);
    }
    v
}

/// A point-in-time, display-friendly view of one peer.
#[derive(Clone, Debug)]
pub struct PeerSnapshot {
    pub name: String,
    pub virtual_ip: Ipv4Addr,
    pub addr: Option<SocketAddr>,
    pub rtt_ms: Option<u64>,
    pub seconds_since_seen: Option<u64>,
    pub discovered_via_gossip: bool,
}

/// A point-in-time, display-friendly view of the whole mesh.
#[derive(Clone, Debug)]
pub struct MeshSnapshot {
    pub my_virtual_ip: Ipv4Addr,
    pub my_name: String,
    pub my_public_addr: Option<SocketAddr>,
    pub listen_port: u16,
    /// One entry per peer, ordered by virtual IP.
    pub peers: Vec<PeerSnapshot>,
}

pub struct PeerSnapshotView {
    pub name: Seq<char>,
    pub virtual_ip: Ipv4Addr,
    pub addr: Option<SocketAddr>,
    pub rtt_ms: Option<u64>,
    pub seconds_since_seen: Option<u64>,
    pub discovered_via_gossip: bool,
}

pub open spec fn snap_view(s: PeerSnapshot) -> PeerSnapshotView {
    PeerSnapshotView {
        name: s.name@,
        virtual_ip: s.virtual_ip,
        addr: s.addr,
        rtt_ms: s.rtt_ms,
        seconds_since_seen: s.seconds_since_seen,
        discovered_via_gossip: s.discovered_via_gossip,
    }
}

/// What the snapshot says of peer `p` at Unix time `now`.
pub open spec fn snapshot_of(p: PeerView, now: u64) -> PeerSnapshotView {
    PeerSnapshotView {
        name: p.name,
        virtual_ip: p.virtual_ip,
        addr: send_addr(p),
        rtt_ms: if p.last_rtt_ms < 0 {
            None
        } else {
            Some(p.last_rtt_ms as u64)
        },
        seconds_since_seen: if p.last_seen_secs == 0 {
            None
        } else if now >= p.last_seen_secs {
            Some((now - p.last_seen_secs) as u64)
        } else {
            Some(0u64)
        },
        discovered_via_gossip: p.discovered_via_gossip,
    }
}

/// Strictly increasing by virtual IP.
pub open spec fn sorted_by_ip(s: Seq<PeerSnapshotView>) -> bool {
    forall|a: int, b: int|
        0 <= a < b < s.len() ==> ipv4_u32((#[trigger] s[a]).virtual_ip) < ipv4_u32(
            (#[trigger] s[b]).virtual_ip,
        )
}

pub open spec fn snap_views(s: Seq<PeerSnapshot>) -> Seq<PeerSnapshotView> {
    Seq::new(s.len(), |i: int| snap_view(s[i]))
}

/// Exactly the snapshots of the peers in `ps`, each once.
pub open spec fn same_snapshots(s: Seq<PeerSnapshotView>, ps: Seq<PeerView>, now: u64) -> bool {
    &&& s.len() == ps.len()
    &&& forall|j: int| 0 <= j < ps.len() ==> s.contains(#[trigger] snapshot_of(ps[j], now))
    &&& forall|k: int| 0 <= k < s.len() ==> exists|j: int| 0 <= j < ps.len() && #[trigger] s[k] == snapshot_of(ps[j], now)
}

fn ip_less(a: Ipv4Addr, b: Ipv4Addr) -> (r: bool)
    ensures
        r == (ipv4_u32(a) < ipv4_u32(b)),
{
    a.to_u32() < b.to_u32()
}

impl MeshState {
    /// The snapshot of one peer at Unix time `now`.
    fn peer_snapshot(p: &Peer, now: u64) -> (s: PeerSnapshot)
        ensures
            snap_view(s) == snapshot_of(p@, now),
    {
        PeerSnapshot {
            name: p.name(),
            virtual_ip: p.virtual_ip(),
            addr: p.current_send_addr(),
            rtt_ms: p.last_rtt_ms(),
            seconds_since_seen: p.seconds_since_seen_at(now),
            discovered_via_gossip: p.discovered_via_gossip(),
        }
    }

    /// A snapshot of the mesh at Unix time `now`, with the peers ordered
    /// by virtual IP.
    #[verifier::spinoff_prover]
    #[verifier::rlimit(40)]
    pub fn snapshot_at(&self, now: u64) -> (snap: MeshSnapshot)
        requires
            self.wf(),
        ensures
            snap.my_virtual_ip == self@.my_virtual_ip,
            snap.my_name@ == self@.my_name,
            snap.my_public_addr == public_addr_of(self@),
            snap.listen_port == self@.config.me.listen_port,
            sorted_by_ip(snap_views(snap.peers@)),
            same_snapshots(snap_views(snap.peers@), self@.peers, now),
    {
        let ghost ps = self@.peers;
        let mut out: Vec<PeerSnapshot> = Vec::new();
        let mut i: usize = 0;
        while i < self.peers.len()
            invariant
                i <= self.peers@.len(),
                ps == self@.peers,
                ips_unique(ps),
                sorted_by_ip(snap_views(out@)),
                same_snapshots(snap_views(out@), ps.take(i as int), now),
            decreases self.peers@.len() - i,
        {
            let s = Self::peer_snapshot(&self.peers[i], now);
            proof {
                assert(ps[i as int] == self.peers@[i as int]@);
            }
            let ghost sv0 = snap_views(out@);
            let mut pos: usize = 0;
            while pos < out.len() && ip_less(out[pos].virtual_ip, s.virtual_ip)
                invariant
                    pos <= out@.len(),
                    sv0 == snap_views(out@),
                    forall|k: int| 0 <= k < pos ==> ipv4_u32(sv0[k].virtual_ip) < ipv4_u32(s.virtual_ip),
                decreases out@.len() - pos,
            {
                pos = pos + 1;
            }
            out.insert(pos, s);
            proof {
                let sv = snap_views(out@);
                assert(sv =~= sv0.insert(pos as int, snap_view(s)));
                // every earlier snapshot is of a different peer, so of a different IP
                assert forall|k: int| 0 <= k < sv0.len() implies sv0[k].virtual_ip != s.virtual_ip by {
                    let j = choose|j: int| 0 <= j < i && #[trigger] sv0[k] == snapshot_of(ps.take(i as int)[j], now);
                    assert(ps.take(i as int)[j] == ps[j]);
                    assert(ps[j].virtual_ip != ps[i as int].virtual_ip);
                }
                assert forall|k: int| pos <= k < sv0.len() implies ipv4_u32(s.virtual_ip) < ipv4_u32(sv0[k].virtual_ip) by {
                    if pos < sv0.len() {
                        assert(!(ipv4_u32(sv0[pos as int].virtual_ip) < ipv4_u32(s.virtual_ip)));
                        assert(sv0[pos as int].virtual_ip != s.virtual_ip);
                        lemma_ipv4_u32_injective(sv0[pos as int].virtual_ip, s.virtual_ip);
                        if k > pos {
                            assert(ipv4_u32(sv0[pos as int].virtual_ip) < ipv4_u32(sv0[k].virtual_ip));
                        }
                    }
                }
                assert(sorted_by_ip(sv));
                let pt = ps.take(i + 1);
                assert forall|j: int| 0 <= j < pt.len() implies sv.contains(#[trigger] snapshot_of(pt[j], now)) by {
                    if j < i {
                        assert(pt[j] == ps.take(i as int)[j]);
                        assert(sv0.contains(snapshot_of(ps.take(i as int)[j], now)));
                        let k = choose|k: int| 0 <= k < sv0.len() && sv0[k] == snapshot_of(ps.take(i as int)[j], now);
                        if k < pos {
                            assert(sv[k] == sv0[k]);
                        } else {
                            assert(sv[k + 1] == sv0[k]);
                        }
                    } else {
                        assert(sv[pos as int] == snap_view(s));
                    }
                }
                assert forall|k: int| 0 <= k < sv.len() implies exists|j: int| 0 <= j < pt.len() && #[trigger] sv[k] == snapshot_of(pt[j], now) by {
                    if k == pos {
                        assert(sv[k] == snapshot_of(pt[i as int], now));
                    } else {
                        let k0 = if k < pos { k } else { k - 1 };
                        assert(sv[k] == sv0[k0]);
                        let j = choose|j: int| 0 <= j < i && #[trigger] sv0[k0] == snapshot_of(ps.take(i as int)[j], now);
                        assert(pt[j] == ps.take(i as int)[j]);
                    }
                }
            }
            i = i + 1;
        }
        proof {
            assert(ps.take(i as int) =~= ps);
        }
        MeshSnapshot {
            my_virtual_ip: self.my_virtual_ip,
            my_name: self.my_name.clone(),
            my_public_addr: self.my_public_addr(),
            listen_port: self.config.me.listen_port,
            peers: out,
        }
    }

    /// `snapshot_at` with the current time.
    pub fn snapshot(&self) -> (snap: MeshSnapshot)
        requires
            self.wf(),
        ensures
            snap.my_virtual_ip == self@.my_virtual_ip,
            snap.my_name@ == self@.my_name,
            snap.my_public_addr == public_addr_of(self@),
            snap.listen_port == self@.config.me.listen_port,
            sorted_by_ip(snap_views(snap.peers@)),
            snap.peers@.len() == self@.peers.len(),
            exists|now: u64| #[trigger] same_snapshots(snap_views(snap.peers@), self@.peers, now),
    {
        let now = now_secs();
        self.snapshot_at(now)
    }
}

/// Different addresses have different numbers.
pub proof fn lemma_ipv4_u32_injective(a: Ipv4Addr, b: Ipv4Addr)
    requires
        a != b,
    ensures
        ipv4_u32(a) != ipv4_u32(b),
{
    if ipv4_u32(a) == ipv4_u32(b) {
        let xa: int = (a.a as int * 0x100 + a.b as int) * 0x100 + a.c as int;
        let xb: int = (b.a as int * 0x100 + b.b as int) * 0x100 + b.c as int;
        assert(ipv4_u32(a) == xa * 0x100 + a.d as int);
        assert(ipv4_u32(b) == xb * 0x100 + b.d as int);
        lemma_base256_digit(xa, xb, a.d as int, b.d as int);
        lemma_base256_digit(a.a as int * 0x100 + a.b as int, b.a as int * 0x100 + b.b as int, a.c as int, b.c as int);
        lemma_base256_digit(a.a as int, b.a as int, a.b as int, b.b as int);
    }
}

/// A number written in base 256 has one last digit and one rest.
proof fn lemma_base256_digit(x: int, y: int, d: int, e: int)
    requires
        0 <= d < 0x100,
        0 <= e < 0x100,
        x * 0x100 + d == y * 0x100 + e,
    ensures
        x == y,
        d == e,
{
    if x < y {
        assert(x * 0x100 + 0x100 <= y * 0x100);
    } else if y < x {
        assert(y * 0x100 + 0x100 <= x * 0x100);
    }
}

// ---------------------------------------------------------------------
// Choosing the real network interface
// ---------------------------------------------------------------------

/// One network interface as the operating system reports it; the choice
/// among them is made here, the enumeration is done by the caller.
#[derive(Debug, Clone)]
pub struct InterfaceCandidate {
    pub index: u32,
    pub name: String,
    pub description: String,
    pub ipv4_addrs: Vec<Ipv4Addr>,
}

pub struct CandidateView {
    pub index: u32,
    pub name: Seq<char>,
    pub description: Seq<char>,
    pub ipv4_addrs: Seq<Ipv4Addr>,
}

pub open spec fn candidate_view(c: InterfaceCandidate) -> CandidateView {
    CandidateView {
        index: c.index,
        name: c.name@,
        description: c.description@,
        ipv4_addrs: c.ipv4_addrs@,
    }
}

pub open spec fn candidate_views(cs: Seq<InterfaceCandidate>) -> Seq<CandidateView> {
    Seq::new(cs.len(), |i: int| candidate_view(cs[i]))
}

/// Markers of VPN and tunnel adapters in a lowercased driver description:
/// "cloudflare warp", "wireguard", "openvpn", "tap-windows", "wintun",
/// "nordlynx", "tunnelbear".
pub open spec fn vpn_markers() -> Seq<Seq<char>> {
    seq![
        seq!['c', 'l', 'o', 'u', 'd', 'f', 'l', 'a', 'r', 'e', ' ', 'w', 'a', 'r', 'p'],
        seq!['w', 'i', 'r', 'e', 'g', 'u', 'a', 'r', 'd'],
        seq!['o', 'p', 'e', 'n', 'v', 'p', 'n'],
        seq!['t', 'a', 'p', '-', 'w', 'i', 'n', 'd', 'o', 'w', 's'],
        seq!['w', 'i', 'n', 't', 'u', 'n'],
        seq!['n', 'o', 'r', 'd', 'l', 'y', 'n', 'x'],
        seq!['t', 'u', 'n', 'n', 'e', 'l', 'b', 'e', 'a', 'r'],
    ]
}

fn vpn_markers_exec() -> (m: Vec<Vec<char>>)
    ensures
        m@.len() == vpn_markers().len(),
        forall|k: int| 0 <= k < m@.len() ==> #[trigger] m@[k]@ == vpn_markers()[k],
{
    let m = vec![
        vec!['c', 'l', 'o', 'u', 'd', 'f', 'l', 'a', 'r', 'e', ' ', 'w', 'a', 'r', 'p'],
        vec!['w', 'i', 'r', 'e', 'g', 'u', 'a', 'r', 'd'],
        vec!['o', 'p', 'e', 'n', 'v', 'p', 'n'],
        vec!['t', 'a', 'p', '-', 'w', 'i', 'n', 'd', 'o', 'w', 's'],
        vec!['w', 'i', 'n', 't', 'u', 'n'],
        vec!['n', 'o', 'r', 'd', 'l', 'y', 'n', 'x'],
        vec!['t', 'u', 'n', 'n', 'e', 'l', 'b', 'e', 'a', 'r'],
    ];
    proof {
        assert forall|k: int| 0 <= k < m@.len() implies #[trigger] m@[k]@ == vpn_markers()[k] by {
            if k == 0 {
                assert(m@[0]@ =~= vpn_markers()[0]);
            } else if k == 1 {
                assert(m@[1]@ =~= vpn_markers()[1]);
            } else if k == 2 {
                assert(m@[2]@ =~= vpn_markers()[2]);
            } else if k == 3 {
                assert(m@[3]@ =~= vpn_markers()[3]);
            } else if k == 4 {
                assert(m@[4]@ =~= vpn_markers()[4]);
            } else if k == 5 {
                assert(m@[5]@ =~= vpn_markers()[5]);
            } else {
                assert(m@[6]@ =~= vpn_markers()[6]);
            }
        }
    }
    m
}

/// An interface is skipped by its (lowercased) description when that
/// contains a VPN marker, and by its (lowercased) name when it is
/// "loopback" or carries our own adapter's name: it starts with
/// "meowmesh" (the adapter's default name, "meowmesh0") or with the
/// older "lanmesh".
pub open spec fn interface_excluded_spec(lower_description: Seq<char>, lower_name: Seq<char>) -> bool {
    ||| exists|k: int| 0 <= k < vpn_markers().len() && contains_seq(lower_description, #[trigger] vpn_markers()[k])
    ||| lower_name == seq!['l', 'o', 'o', 'p', 'b', 'a', 'c', 'k']
    ||| starts_with(lower_name, seq!['l', 'a', 'n', 'm', 'e', 's', 'h'])
    ||| starts_with(lower_name, seq!['m', 'e', 'o', 'w', 'm', 'e', 's', 'h'])
}

/// The name and description test of `pick_real_interface`, on texts
/// already lowercased.
pub fn interface_excluded(lower_description: &[char], lower_name: &[char]) -> (r: bool)
    ensures
        r == interface_excluded_spec(lower_description@, lower_name@),
{
    let markers = vpn_markers_exec();
    let mut k: usize = 0;
    while k < markers.len()
        invariant
            k <= markers@.len(),
            markers@.len() == vpn_markers().len(),
            forall|j: int| 0 <= j < markers@.len() ==> #[trigger] markers@[j]@ == vpn_markers()[j],
            forall|j: int| 0 <= j < k ==> !contains_seq(lower_description@, #[trigger] vpn_markers()[j]),
        decreases markers@.len() - k,
    {
        if chars_contains(lower_description, markers[k].as_slice()) {
            proof {
                assert(markers@[k as int]@ == vpn_markers()[k as int]);
            }
            return true;
        }
        k = k + 1;
    }
    let loopback: Vec<char> = vec!['l', 'o', 'o', 'p', 'b', 'a', 'c', 'k'];
    let lanmesh: Vec<char> = vec!['l', 'a', 'n', 'm', 'e', 's', 'h'];
    let meowmesh: Vec<char> = vec!['m', 'e', 'o', 'w', 'm', 'e', 's', 'h'];
    proof {
        assert(loopback@ =~= seq!['l', 'o', 'o', 'p', 'b', 'a', 'c', 'k']);
        assert(lanmesh@ =~= seq!['l', 'a', 'n', 'm', 'e', 's', 'h']);
        assert(meowmesh@ =~= seq!['m', 'e', 'o', 'w', 'm', 'e', 's', 'h']);
    }
    chars_eq(lower_name, loopback.as_slice()) || chars_starts_with(lower_name, lanmesh.as_slice())
        || chars_starts_with(lower_name, meowmesh.as_slice())
}

/// An interface worth pinning the mesh socket to: it has an IPv4 address,
/// none of them is our own virtual IP (that is our own adapter), and
/// neither its description nor its name marks it as a tunnel.
pub open spec fn usable_interface(c: CandidateView, my_virtual_ip: Option<Ipv4Addr>) -> bool {
    &&& c.ipv4_addrs.len() > 0
    &&& !(my_virtual_ip matches Some(ip) && c.ipv4_addrs.contains(ip))
    &&& !interface_excluded_spec(unicode_lower(c.description), unicode_lower(c.name))
}

/// The first usable interface, as (index, name).
pub open spec fn pick_interface(cs: Seq<CandidateView>, my_virtual_ip: Option<Ipv4Addr>) -> Option<(u32, Seq<char>)>
    decreases cs.len(),
{
    if cs.len() == 0 {
        None
    } else {
        match pick_interface(cs.drop_last(), my_virtual_ip) {
            Some(x) => Some(x),
            None => if usable_interface(cs.last(), my_virtual_ip) {
                Some((cs.last().index, cs.last().name))
            } else {
                None
            },
        }
    }
}

fn contains_ip(v: &Vec<Ipv4Addr>, ip: Ipv4Addr) -> (r: bool)
    ensures
        r == v@.contains(ip),
{
    let mut i: usize = 0;
    while i < v.len()
        invariant
            i <= v@.len(),
            forall|j: int| 0 <= j < i ==> v@[j] != ip,
        decreases v@.len() - i,
    {
        if v[i] == ip {
            proof {
                assert(v@[i as int] == ip);
            }
            return true;
        }
        i = i + 1;
    }
    false
}

/// Picks the real, internet-facing interface to pin the mesh socket to;
/// see `pick_interface`. Returns its index and name.
pub fn pick_real_interface(candidates: &[InterfaceCandidate], my_virtual_ip: Option<Ipv4Addr>) -> (res:
    Option<(u32, String)>)
    ensures
        match res {
            Some((i, n)) => pick_interface(candidate_views(candidates@), my_virtual_ip) == Some((i, n@)),
            None => pick_interface(candidate_views(candidates@), my_virtual_ip) is None,
        },
{
    let ghost cs = candidate_views(candidates@);
    let mut k: usize = 0;
    while k < candidates.len()
        invariant
            k <= candidates@.len(),
            cs == candidate_views(candidates@),
            pick_interface(cs.take(k as int), my_virtual_ip) is None,
        decreases candidates@.len() - k,
    {
        let c = &candidates[k];
        proof {
            assert(cs.take(k + 1).drop_last() =~= cs.take(k as int));
            assert(cs.take(k + 1).last() == candidate_view(*c));
        }
        let mut usable = c.ipv4_addrs.len() > 0;
        if usable {
            if let Some(ip) = my_virtual_ip {
                if contains_ip(&c.ipv4_addrs, ip) {
                    usable = false;
                }
            }
        }
        if usable {
            let desc = to_lowercase(c.description.as_str());
            let name = to_lowercase(c.name.as_str());
            let dchars = chars_of(desc.as_str());
            let nchars = chars_of(name.as_str());
            if interface_excluded(dchars.as_slice(), nchars.as_slice()) {
                usable = false;
            }
        }
        if usable {
            proof {
                assert(pick_interface(cs.take(k + 1), my_virtual_ip) == Some((c.index, c.name@)));
                lemma_pick_prefix(cs, (k + 1) as int, my_virtual_ip);
            }
            return Some((c.index, c.name.clone()));
        }
        k = k + 1;
    }
    proof {
        assert(cs.take(k as int) =~= cs);
    }
    None
}

/// Once a prefix has a usable interface, the whole list picks the same.
proof fn lemma_pick_prefix(cs: Seq<CandidateView>, k: int, my: Option<Ipv4Addr>)
    requires
        0 <= k <= cs.len(),
        pick_interface(cs.take(k), my) is Some,
    ensures
        pick_interface(cs, my) == pick_interface(cs.take(k), my),
    decreases cs.len() - k,
{
    if k < cs.len() {
        assert(cs.take(k + 1).drop_last() =~= cs.take(k));
        lemma_pick_prefix(cs, k + 1, my);
    } else {
        assert(cs.take(k) =~= cs);
    }
}

// ---------------------------------------------------------------------
// Local domain names
// ---------------------------------------------------------------------

pub open spec fn info_view(i: PeerDomainInfo) -> (Seq<char>, Ipv4Addr, Seq<(Seq<char>, u16)>) {
    (i.name@, i.virtual_ip, service_views(i.services@))
}

pub open spec fn info_views(s: Seq<PeerDomainInfo>) -> Seq<(Seq<char>, Ipv4Addr, Seq<(Seq<char>, u16)>)> {
    Seq::new(s.len(), |i: int| info_view(s[i]))
}

/// The naming picture of the mesh: ourselves (with the services we host)
/// first, then every peer in table order with the services it advertises.
pub open spec fn domain_infos(m: MeshView) -> Seq<(Seq<char>, Ipv4Addr, Seq<(Seq<char>, u16)>)> {
    seq![(m.my_name, m.my_virtual_ip, m.config.services)] + Seq::new(
        m.peers.len(),
        |i: int| (m.peers[i].name, m.peers[i].virtual_ip, m.peers[i].services),
    )
}

/// A resolvable local name, for display.
#[derive(Clone, Debug)]
pub struct DomainNameEntry {
    pub hostname: String,
    pub virtual_ip: Ipv4Addr,
    pub is_peer_root: bool,
    pub port: Option<u16>,
}

pub open spec fn domain_entry_view(e: DomainNameEntry) -> HostEntryView {
    HostEntryView { hostname: e.hostname@, virtual_ip: e.virtual_ip, is_peer_root: e.is_peer_root, port: e.port }
}

/// The DNS table entry for each name: same name, address and root flag.
pub open spec fn dns_of(e: HostEntryView) -> DnsEntryView {
    DnsEntryView { hostname: e.hostname, virtual_ip: e.virtual_ip, is_peer_root: e.is_peer_root }
}

/// The built-in resolver's table for the given names.
pub fn dns_entries(entries: &[HostEntry]) -> (res: Vec<DnsEntry>)
    ensures
        table_view(res@) == Seq::new(entries@.len(), |i: int| dns_of(host_views(entries@)[i])),
{
    let mut res: Vec<DnsEntry> = Vec::new();
    let mut i: usize = 0;
    while i < entries.len()
        invariant
            i <= entries@.len(),
            table_view(res@) == Seq::new(i as nat, |k: int| dns_of(host_views(entries@)[k])),
        decreases entries@.len() - i,
    {
        let ghost before = table_view(res@);
        let e = DnsEntry {
            hostname: entries[i].hostname.clone(),
            virtual_ip: entries[i].virtual_ip,
            is_peer_root: entries[i].is_peer_root,
        };
        res.push(e);
        proof {
            assert(table_view(res@) =~= before.push(e@));
            assert(e@ == dns_of(host_views(entries@)[i as int]));
            assert(table_view(res@) =~= Seq::new((i + 1) as nat, |k: int| dns_of(host_views(entries@)[k])));
        }
        i = i + 1;
    }
    res
}

impl MeshState {
    /// The naming picture of the mesh; see `domain_infos`.
    pub fn build_domain_infos(&self) -> (res: Vec<PeerDomainInfo>)
        requires
            self.wf(),
        ensures
            info_views(res@) == domain_infos(self@),
    {
        let mut res: Vec<PeerDomainInfo> = Vec::new();
        res.push(
            PeerDomainInfo {
                name: self.my_name.clone(),
                virtual_ip: self.my_virtual_ip,
                services: config_service_pairs(&self.config),
            },
        );
        let ghost m = self@;
        let mut i: usize = 0;
        while i < self.peers.len()
            invariant
                i <= self.peers@.len(),
                m == self@,
                info_views(res@) == domain_infos(m).take(i + 1),
            decreases self.peers@.len() - i,
        {
            let p = &self.peers[i];
            let ghost before = info_views(res@);
            let info = PeerDomainInfo { name: p.name(), virtual_ip: p.virtual_ip(), services: p.services() };
            res.push(info);
            proof {
                assert(m.peers[i as int] == p@);
                assert(info_views(res@) =~= before.push(info_view(info)));
                assert(info_view(info) == domain_infos(m)[i + 1]);
                assert(info_views(res@) =~= domain_infos(m).take(i + 2));
            }
            i = i + 1;
        }
        proof {
            assert(domain_infos(m).take(i + 1) =~= domain_infos(m));
        }
        res
    }

    /// Every local domain name, with the mesh's domain suffix.
    pub fn domain_entries(&self) -> (res: Vec<HostEntry>)
        requires
            self.wf(),
        ensures
            exists|infos: Seq<PeerDomainInfo>|
                info_views(infos) == domain_infos(self@) && host_views(res@) == domain_entries(
                    self@.domain_suffix,
                    infos,
                    infos.len() as int,
                ),
    {
        let infos = self.build_domain_infos();
        build_entries_with_services(self.domain_suffix.as_str(), infos.as_slice())
    }

    /// Every local domain name, with the suffix currently configured, for
    /// display.
    pub fn domain_snapshot(&self) -> (res: Vec<DomainNameEntry>)
        requires
            self.wf(),
        ensures
            exists|infos: Seq<PeerDomainInfo>|
                info_views(infos) == domain_infos(self@) && Seq::new(
                    res@.len(),
                    |i: int| domain_entry_view(res@[i]),
                ) == domain_entries(self@.config.me.domain_suffix@, infos, infos.len() as int),
    {
        let infos = self.build_domain_infos();
        let entries = build_entries_with_services(self.config.me.domain_suffix.as_str(), infos.as_slice());
        to_display_entries(entries.as_slice())
    }
}

/// The names as the Domains screen lists them.
fn to_display_entries(entries: &[HostEntry]) -> (res: Vec<DomainNameEntry>)
    ensures
        Seq::new(res@.len(), |i: int| domain_entry_view(res@[i])) == host_views(entries@),
{
    let mut res: Vec<DomainNameEntry> = Vec::new();
    let mut i: usize = 0;
    while i < entries.len()
        invariant
            i <= entries@.len(),
            Seq::new(res@.len(), |k: int| domain_entry_view(res@[k])) == host_views(entries@).take(i as int),
        decreases entries@.len() - i,
    {
        let ghost before = Seq::new(res@.len(), |k: int| domain_entry_view(res@[k]));
        let d = DomainNameEntry {
            hostname: entries[i].hostname.clone(),
            virtual_ip: entries[i].virtual_ip,
            is_peer_root: entries[i].is_peer_root,
            port: entries[i].port,
        };
        res.push(d);
        proof {
            assert(Seq::new(res@.len(), |k: int| domain_entry_view(res@[k])) =~= before.push(domain_entry_view(d)));
            assert(domain_entry_view(d) == host_views(entries@)[i as int]);
            assert(Seq::new(res@.len(), |k: int| domain_entry_view(res@[k])) =~= host_views(entries@).take(i + 1));
        }
        i = i + 1;
    }
    proof {
        assert(host_views(entries@).take(i as int) =~= host_views(entries@));
    }
    res
}

/// The names a configuration alone gives, for display while the mesh is
/// not running (this machine's services, but no other peer's: those are
/// only learned from gossip); see `config_infos_spec`.
pub fn offline_domain_snapshot(cfg: &Config) -> (res: Vec<DomainNameEntry>)
    ensures
        exists|infos: Seq<PeerDomainInfo>|
            config_infos_spec(*cfg, infos) && Seq::new(res@.len(), |i: int| domain_entry_view(res@[i]))
                == domain_entries(cfg.me.domain_suffix@, infos, infos.len() as int),
{
    let infos = config_domain_infos(cfg);
    let entries = build_entries_with_services(cfg.me.domain_suffix.as_str(), infos.as_slice());
    to_display_entries(entries.as_slice())
}

// ---------------------------------------------------------------------
// Laws of the peer table
// ---------------------------------------------------------------------

proof fn lemma_entry_keeps_unique(m: MeshView, e: EntryView)
    requires
        ips_unique(m.peers),
    ensures
        ips_unique(apply_entry(m, e).0.peers),
{
    if e.virtual_ip != m.my_virtual_ip && has_peer(m.peers, e.virtual_ip) {
        let i = peer_pos(m.peers, e.virtual_ip);
        let r = apply_entry(m, e).0;
        lemma_update_keeps_unique(m.peers, i, r.peers[i]);
    } else if e.virtual_ip != m.my_virtual_ip && m.peers.len() < MAX_PEERS {
        let r = apply_entry(m, e).0;
        lemma_push_keeps_unique(m.peers, r.peers.last());
        assert(r.peers == m.peers.push(r.peers.last()));
    }
}

/// Gossip is idempotent: applying the same entry a second time changes
/// nothing and reports nothing.
pub proof fn lemma_apply_entry_idempotent(m: MeshView, e: EntryView)
    requires
        ips_unique(m.peers),
    ensures
        apply_entry(apply_entry(m, e).0, e) == (apply_entry(m, e).0, None::<OutcomeView>),
{
    let m1 = apply_entry(m, e).0;
    lemma_entry_keeps_unique(m, e);
    if e.virtual_ip == m.my_virtual_ip {
    } else if has_peer(m.peers, e.virtual_ip) {
        let i = peer_pos(m.peers, e.virtual_ip);
        assert(m1.peers[i].virtual_ip == e.virtual_ip);
        lemma_pos(m1.peers, i, e.virtual_ip);
        let p = m1.peers[i];
        let p1 = PeerView { name: if e.name.len() == 0 { p.name } else { e.name }, ..p };
        assert(p1 == p);
        let p2 = if e.lan_addr is Some {
            PeerView { lan_candidate: e.lan_addr, ..p1 }
        } else {
            p1
        };
        assert(p2 == p);
        assert(e.epoch_secs <= p.confirmed_epoch);
        assert(m1.peers.update(i, p) =~= m1.peers);
    } else if m.peers.len() >= MAX_PEERS {
    } else {
        let i = m.peers.len() as int;
        lemma_push_keeps_unique(m.peers, m1.peers[i]);
        assert(m1.peers == m.peers.push(m1.peers[i]));
        let p = m1.peers[i];
        assert(m1.peers.update(i, p) =~= m1.peers);
    }
}

/// Every peer's services list is keyed by name up to case.
pub open spec fn all_services_wf(ps: Seq<PeerView>) -> bool {
    forall|i: int| 0 <= i < ps.len() ==> services_wf(#[trigger] ps[i].services)
}

proof fn lemma_service_keeps_unique(m: MeshView, e: EntryView)
    requires
        ips_unique(m.peers),
        all_services_wf(m.peers),
    ensures
        ips_unique(apply_service(m, e).0.peers),
        all_services_wf(apply_service(m, e).0.peers),
{
    if e.virtual_ip == m.my_virtual_ip {
    } else if !has_peer(m.peers, e.virtual_ip) && m.peers.len() >= MAX_PEERS {
    } else {
        let ps = if has_peer(m.peers, e.virtual_ip) {
            m.peers
        } else {
            m.peers.push(gossip_peer_view(e.virtual_ip, e.name, e.addr, e.epoch_secs))
        };
        if !has_peer(m.peers, e.virtual_ip) {
            lemma_push_keeps_unique(m.peers, gossip_peer_view(e.virtual_ip, e.name, e.addr, e.epoch_secs));
            assert(services_wf(Seq::<(Seq<char>, u16)>::empty()));
            assert forall|k: int| 0 <= k < ps.len() implies services_wf(#[trigger] ps[k].services) by {
                if k < m.peers.len() {
                    assert(ps[k] == m.peers[k]);
                }
            }
        }
        let i = peer_pos(ps, e.virtual_ip);
        let r = apply_service(m, e).0;
        lemma_update_keeps_unique(ps, i, r.peers[i]);
        lemma_merge_service_idempotent(ps[i].services, e.service_name, e.service_port);
        assert forall|k: int| 0 <= k < r.peers.len() implies services_wf(#[trigger] r.peers[k].services) by {
            if k != i {
                assert(r.peers[k] == ps[k]);
            }
        }
    }
}

/// Service announcements are idempotent too: the same announcement a
/// second time changes nothing and reports nothing.
pub proof fn lemma_apply_service_idempotent(m: MeshView, e: EntryView)
    requires
        ips_unique(m.peers),
        all_services_wf(m.peers),
    ensures
        apply_service(apply_service(m, e).0, e) == (apply_service(m, e).0, None::<OutcomeView>),
{
    let m1 = apply_service(m, e).0;
    lemma_service_keeps_unique(m, e);
    if e.virtual_ip == m.my_virtual_ip {
    } else if !has_peer(m.peers, e.virtual_ip) && m.peers.len() >= MAX_PEERS {
    } else {
        let ps = if has_peer(m.peers, e.virtual_ip) {
            m.peers
        } else {
            m.peers.push(gossip_peer_view(e.virtual_ip, e.name, e.addr, e.epoch_secs))
        };
        if !has_peer(m.peers, e.virtual_ip) {
            lemma_push_keeps_unique(m.peers, gossip_peer_view(e.virtual_ip, e.name, e.addr, e.epoch_secs));
            assert(services_wf(Seq::<(Seq<char>, u16)>::empty()));
            assert(services_wf(ps[ps.len() - 1].services));
        }
        let i = peer_pos(ps, e.virtual_ip);
        assert(services_wf(ps[i].services)) by {
            if i < m.peers.len() {
                assert(ps[i] == m.peers[i]);
            }
        }
        lemma_merge_service_idempotent(ps[i].services, e.service_name, e.service_port);
        assert(m1.peers[i].virtual_ip == e.virtual_ip);
        lemma_pos(m1.peers, i, e.virtual_ip);
        let p = m1.peers[i];
        assert(m1.peers.update(i, PeerView { services: p.services, ..p }) =~= m1.peers);
    }
}

/// The peer list an announcement is merged into: the table, plus the
/// announced peer when it was unknown.
proof fn lemma_service_target(m: MeshView, e: EntryView)
    requires
        e.virtual_ip != m.my_virtual_ip,
        has_peer(m.peers, e.virtual_ip) || m.peers.len() < MAX_PEERS,
    ensures
        ({
            let ps = if has_peer(m.peers, e.virtual_ip) {
                m.peers
            } else {
                m.peers.push(gossip_peer_view(e.virtual_ip, e.name, e.addr, e.epoch_secs))
            };
            let i = peer_pos(ps, e.virtual_ip);
            &&& has_peer(ps, e.virtual_ip)
            &&& 0 <= i < ps.len()
            &&& ps[i].virtual_ip == e.virtual_ip
            &&& forall|k: int| 0 <= k < ps.len() ==> (#[trigger] apply_service(m, e).0.peers[k]).virtual_ip == ps[k].virtual_ip
            &&& apply_service(m, e).0.peers.len() == ps.len()
        }),
{
    let ps = if has_peer(m.peers, e.virtual_ip) {
        m.peers
    } else {
        m.peers.push(gossip_peer_view(e.virtual_ip, e.name, e.addr, e.epoch_secs))
    };
    if !has_peer(m.peers, e.virtual_ip) {
        assert(ps[m.peers.len() as int].virtual_ip == e.virtual_ip);
    }
    assert(has_peer(ps, e.virtual_ip));
}

/// Nothing we hear ever adds ourselves to the table: not a ping, not a
/// gossip entry, not a service announcement.
pub proof fn lemma_never_learns_self(m: MeshView, e: EntryView, ip: Ipv4Addr, from: SocketAddr, now: u64)
    requires
        !has_peer(m.peers, m.my_virtual_ip),
    ensures
        !has_peer(learn_from_ping(m, ip, from, now).0.peers, m.my_virtual_ip),
        !has_peer(apply_entry(m, e).0.peers, m.my_virtual_ip),
        !has_peer(apply_service(m, e).0.peers, m.my_virtual_ip),
{
    let me = m.my_virtual_ip;
    let r1 = learn_from_ping(m, ip, from, now).0.peers;
    if has_peer(r1, me) {
        let k = choose|k: int| 0 <= k < r1.len() && (#[trigger] r1[k]).virtual_ip == me;
        if k < m.peers.len() {
            assert(r1[k] == m.peers[k]);
        }
    }
    let r2 = apply_entry(m, e).0.peers;
    if has_peer(r2, me) {
        let k = choose|k: int| 0 <= k < r2.len() && (#[trigger] r2[k]).virtual_ip == me;
        if k < m.peers.len() {
            assert(r2[k].virtual_ip == m.peers[k].virtual_ip);
        }
    }
    let r3 = apply_service(m, e).0.peers;
    if e.virtual_ip != me && (has_peer(m.peers, e.virtual_ip) || m.peers.len() < MAX_PEERS) {
        lemma_service_target(m, e);
        if has_peer(r3, me) {
            let k = choose|k: int| 0 <= k < r3.len() && (#[trigger] r3[k]).virtual_ip == me;
            if k < m.peers.len() {
                assert(r3[k].virtual_ip == m.peers[k].virtual_ip);
            }
        }
    }
}

/// The table only grows, by at most one peer per ping or entry, never
/// past `MAX_PEERS` through them, and every known peer keeps its place
/// and its virtual IP.
pub proof fn lemma_table_growth(m: MeshView, e: EntryView, ip: Ipv4Addr, from: SocketAddr, now: u64)
    ensures
        ({
            let r = learn_from_ping(m, ip, from, now).0.peers;
            &&& m.peers.len() <= r.len() <= m.peers.len() + 1
            &&& (r.len() > m.peers.len() ==> r.len() <= MAX_PEERS)
            &&& forall|k: int| 0 <= k < m.peers.len() ==> r[k] == m.peers[k]
        }),
        ({
            let r = apply_entry(m, e).0.peers;
            &&& m.peers.len() <= r.len() <= m.peers.len() + 1
            &&& (r.len() > m.peers.len() ==> r.len() <= MAX_PEERS)
            &&& forall|k: int| 0 <= k < m.peers.len() ==> (#[trigger] r[k]).virtual_ip == m.peers[k].virtual_ip
        }),
        ({
            let r = apply_service(m, e).0.peers;
            &&& m.peers.len() <= r.len() <= m.peers.len() + 1
            &&& (r.len() > m.peers.len() ==> r.len() <= MAX_PEERS)
            &&& forall|k: int| 0 <= k < m.peers.len() ==> (#[trigger] r[k]).virtual_ip == m.peers[k].virtual_ip
        }),
{
    if e.virtual_ip != m.my_virtual_ip && (has_peer(m.peers, e.virtual_ip) || m.peers.len() < MAX_PEERS) {
        lemma_service_target(m, e);
        let r = apply_service(m, e).0.peers;
        assert forall|k: int| 0 <= k < m.peers.len() implies (#[trigger] r[k]).virtual_ip == m.peers[k].virtual_ip by {
            if !has_peer(m.peers, e.virtual_ip) {
                assert(m.peers.push(gossip_peer_view(e.virtual_ip, e.name, e.addr, e.epoch_secs))[k] == m.peers[k]);
            }
        }
    }
}

/// Freshest wins across the table: a gossip entry never makes what we
/// know of any already known peer older, and only ever replaces the
/// address of the peer it is about, with strictly fresher news. An entry
/// without a LAN candidate never erases one we hold.
pub proof fn lemma_entry_freshest_wins(m: MeshView, e: EntryView)
    requires
        ips_unique(m.peers),
    ensures
        forall|k: int|
            0 <= k < m.peers.len() ==> {
                let old_p = m.peers[k];
                let new_p = #[trigger] apply_entry(m, e).0.peers[k];
                &&& new_p.confirmed_epoch >= old_p.confirmed_epoch
                &&& new_p.confirmed_addr != old_p.confirmed_addr ==> (old_p.virtual_ip == e.virtual_ip
                    && e.epoch_secs > old_p.confirmed_epoch && new_p.confirmed_addr == Some(e.addr))
                &&& e.lan_addr is None ==> new_p.lan_candidate == old_p.lan_candidate
            },
{
    if e.virtual_ip != m.my_virtual_ip && has_peer(m.peers, e.virtual_ip) {
        let i = peer_pos(m.peers, e.virtual_ip);
        assert forall|k: int| 0 <= k < m.peers.len() && k != i implies #[trigger] apply_entry(m, e).0.peers[k]
            == m.peers[k] by {}
    }
}

} // verus!
