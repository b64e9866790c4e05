//! Runtime state kept for one mesh peer: its display name, the address we
//! currently send to and how fresh that knowledge is, liveness and latency
//! bookkeeping, the services it advertises and its same-LAN candidate
//! address.
//!
//! Conflict resolution for addresses is "freshest wins": a packet that
//! arrives from the peer always wins (it is stamped with the current
//! time), and gossip from other peers only replaces the address when it
//! carries a strictly newer epoch.

use vstd::prelude::*;
use crate::config::PeerConfig;
use crate::net::{SocketAddr, Ipv4Addr, dec_text, parse_socket_addr, parse_socket_addr_str, push_decimal, socket_text};
use crate::text::{chars_of, eq_ignore_case, str_eq_ignore_case, string_from_chars};

verus! {

#[verifier::external_type_specification]
#[verifier::external_body]
pub struct ExInstant(std::time::Instant);

#[verifier::external_type_specification]
#[verifier::external_body]
pub struct ExSystemTime(std::time::SystemTime);

/// Outstanding pings are capped so a peer that never answers cannot grow
/// the table without bound; the oldest sequence number is dropped first.
pub const MAX_PENDING_PINGS: usize = 64;

/// `SystemTime::now`. Nothing is stated of the value: it is the clock.
#[verifier::external_body]
fn system_now() -> (t: std::time::SystemTime) {
    std::time::SystemTime::now()
}

/// `SystemTime::duration_since(UNIX_EPOCH)`, in whole seconds; `None` when
/// the clock reads before 1970. Nothing is stated of the value.
#[verifier::external_body]
fn secs_since_epoch(t: std::time::SystemTime) -> (secs: Option<u64>) {
    match t.duration_since(std::time::UNIX_EPOCH) {
        Ok(d) => Some(d.as_secs()),
        Err(_) => None,
    }
}

/// `Instant::now`. Nothing is stated of the value.
#[verifier::external_body]
fn instant_now() -> (t: std::time::Instant) {
    std::time::Instant::now()
}

/// `Instant::elapsed`, in whole milliseconds (truncated to 64 bits).
/// Nothing is stated of the value: it depends on the clock.
#[verifier::external_body]
fn elapsed_millis(t: &std::time::Instant) -> (ms: u64) {
    t.elapsed().as_millis() as u64
}

/// Whole seconds since 1970 from a clock reading: the seconds when the
/// clock reads 1970 or later, else 0.
pub fn secs_or_zero(reading: Option<u64>) -> (s: u64)
    ensures
        s == match reading {
            Some(v) => v,
            None => 0,
        },
{
    match reading {
        Some(v) => v,
        None => 0,
    }
}

/// Unix time in seconds, from the system clock. A clock set before 1970
/// reads as 0.
pub fn now_secs() -> (secs: u64) {
    secs_or_zero(secs_since_epoch(system_now()))
}

/// The mathematical content of a peer's state.
pub struct PeerView {
    pub name: Seq<char>,
    pub virtual_ip: Ipv4Addr,
    pub configured_addr: Seq<char>,
    pub confirmed_addr: Option<SocketAddr>,
    pub confirmed_epoch: u32,
    pub last_seen_secs: u64,
    pub discovered_via_gossip: bool,
    pub last_rtt_ms: i64,
    /// Sequence numbers of the pings still awaiting a pong.
    pub pending: Set<u64>,
    /// Advertised services, (name, port), in the order first learned.
    pub services: Seq<(Seq<char>, u16)>,
    pub lan_candidate: Option<SocketAddr>,
    /// What the configured host name last resolved to, when it is a name
    /// rather than a literal address (resolution is the caller's job).
    pub resolved_addr: Option<SocketAddr>,
}

pub struct Peer {
    name: String,
    virtual_ip: Ipv4Addr,
    /// `ip:port` (or `host:port`) this peer was configured with.
    configured_addr_str: String,
    confirmed_addr: Option<SocketAddr>,
    confirmed_epoch: u32,
    /// Unix seconds of the last packet received from this peer; 0 before
    /// the first one.
    last_seen_secs: u64,
    /// Learned from gossip (or an unsolicited ping) rather than configured.
    discovered_via_gossip: bool,
    /// Last measured round trip in milliseconds; -1 before the first one.
    last_rtt_ms: i64,
    pending_pings: Vec<(u64, std::time::Instant)>,
    services: Vec<(String, u16)>,
    lan_candidate: Option<SocketAddr>,
    resolved_addr: Option<SocketAddr>,
}

pub open spec fn ping_keys(p: Seq<(u64, std::time::Instant)>) -> Seq<u64> {
    Seq::new(p.len(), |i: int| p[i].0)
}

pub open spec fn service_views(s: Seq<(String, u16)>) -> Seq<(Seq<char>, u16)> {
    Seq::new(s.len(), |i: int| (s[i].0@, s[i].1))
}

impl View for Peer {
    type V = PeerView;

    closed spec fn view(&self) -> PeerView {
        PeerView {
            name: self.name@,
            virtual_ip: self.virtual_ip,
            configured_addr: self.configured_addr_str@,
            confirmed_addr: self.confirmed_addr,
            confirmed_epoch: self.confirmed_epoch,
            last_seen_secs: self.last_seen_secs,
            discovered_via_gossip: self.discovered_via_gossip,
            last_rtt_ms: self.last_rtt_ms,
            pending: ping_keys(self.pending_pings@).to_set(),
            services: service_views(self.services@),
            lan_candidate: self.lan_candidate,
            resolved_addr: self.resolved_addr,
        }
    }
}

/// A peer as configured: nothing confirmed or measured yet, sent to at
/// `public_ip:public_port`.
pub open spec fn configured_peer_view(cfg: PeerConfig) -> PeerView {
    PeerView {
        name: cfg.name@,
        virtual_ip: cfg.virtual_ip,
        configured_addr: cfg.public_ip@ + seq![':'] + dec_text(cfg.public_port as nat),
        confirmed_addr: None,
        confirmed_epoch: 0,
        last_seen_secs: 0,
        discovered_via_gossip: false,
        last_rtt_ms: -1i64,
        pending: Set::empty(),
        services: Seq::empty(),
        lan_candidate: None,
        resolved_addr: None,
    }
}

/// A peer first heard of through gossip (or an unsolicited ping): its
/// address is confirmed with the epoch the news carried.
pub open spec fn gossip_peer_view(virtual_ip: Ipv4Addr, name: Seq<char>, addr: SocketAddr, epoch: u32) -> PeerView {
    PeerView {
        name,
        virtual_ip,
        configured_addr: socket_text(addr),
        confirmed_addr: Some(addr),
        confirmed_epoch: epoch,
        last_seen_secs: 0,
        discovered_via_gossip: true,
        last_rtt_ms: -1i64,
        pending: Set::empty(),
        services: Seq::empty(),
        lan_candidate: None,
        resolved_addr: None,
    }
}

/// The advertised-services list is keyed by name, ignoring ASCII case:
/// no name is empty and no two names are equal up to case.
pub open spec fn services_wf(s: Seq<(Seq<char>, u16)>) -> bool {
    &&& forall|i: int| 0 <= i < s.len() ==> (#[trigger] s[i]).0.len() > 0
    &&& forall|i: int, j: int|
        0 <= i < j < s.len() ==> !eq_ignore_case(#[trigger] s[i].0, #[trigger] s[j].0)
}

pub open spec fn has_service(s: Seq<(Seq<char>, u16)>, name: Seq<char>) -> bool {
    exists|i: int| 0 <= i < s.len() && eq_ignore_case(#[trigger] s[i].0, name)
}

/// The position of the service called `name` (ignoring case).
pub open spec fn service_index(s: Seq<(Seq<char>, u16)>, name: Seq<char>) -> int {
    choose|i: int| 0 <= i < s.len() && eq_ignore_case(#[trigger] s[i].0, name)
}

/// The services list after hearing that `name` runs on `port`, and
/// whether that changed it: an empty name is ignored, a known name (up
/// to case) has its port updated, a new one is appended.
pub open spec fn merge_service(s: Seq<(Seq<char>, u16)>, name: Seq<char>, port: u16) -> (
    Seq<(Seq<char>, u16)>,
    bool,
) {
    if name.len() == 0 {
        (s, false)
    } else if has_service(s, name) {
        let i = service_index(s, name);
        if s[i].1 == port {
            (s, false)
        } else {
            (s.update(i, (s[i].0, port)), true)
        }
    } else {
        (s.push((name, port)), true)
    }
}

/// The smallest element of a non-empty finite set.
pub open spec fn set_min(s: Set<u64>) -> u64 {
    choose|m: u64| s.contains(m) && forall|x: u64| s.contains(x) ==> m <= x
}

/// Pending pings after sending ping `seq`: it is added (a repeated number
/// just restarts its timer) and, once more than `MAX_PENDING_PINGS` are
/// outstanding, the smallest sequence number is dropped.
pub open spec fn pending_after_send(p: Set<u64>, seq: u64) -> Set<u64> {
    let q = p.insert(seq);
    if q.len() > MAX_PENDING_PINGS {
        q.remove(set_min(q))
    } else {
        q
    }
}

impl Peer {
    /// Well-formedness: no sequence number is pending twice, at most
    /// `MAX_PENDING_PINGS` are pending, and the services list is keyed by
    /// name up to case.
    pub closed spec fn wf(&self) -> bool {
        &&& ping_keys(self.pending_pings@).no_duplicates()
        &&& self.pending_pings@.len() <= MAX_PENDING_PINGS
        &&& services_wf(service_views(self.services@))
    }

    /// Every peer the library keeps (each is well formed) tracks at most
    /// `MAX_PENDING_PINGS` unanswered pings, and advertises services under
    /// non-empty names that differ ignoring ASCII case.
    pub proof fn lemma_wf(&self)
        requires
            self.wf(),
        ensures
            self@.pending.finite(),
            self@.pending.len() <= MAX_PENDING_PINGS,
            services_wf(self@.services),
    {
        broadcast use vstd::seq_lib::seq_to_set_is_finite;

        ping_keys(self.pending_pings@).unique_seq_to_set();
    }

    /// A peer from a configuration entry: nothing confirmed yet, sent to
    /// at its configured `public_ip:public_port`.
    pub fn new(cfg: &PeerConfig) -> (p: Peer)
        ensures
            p.wf(),
            p@ == configured_peer_view(*cfg),
    {
        let mut addr = chars_of(cfg.public_ip.as_str());
        addr.push(':');
        push_decimal(&mut addr, cfg.public_port as u64);
        assert(addr@ =~= cfg.public_ip@ + seq![':'] + dec_text(cfg.public_port as nat));
        let p = Peer {
            name: cfg.name.clone(),
            virtual_ip: cfg.virtual_ip,
            configured_addr_str: string_from_chars(addr.as_slice()),
            confirmed_addr: None,
            confirmed_epoch: 0,
            last_seen_secs: 0,
            discovered_via_gossip: false,
            last_rtt_ms: -1i64,
            pending_pings: Vec::new(),
            services: Vec::new(),
            lan_candidate: None,
            resolved_addr: None,
        };
        proof {
            assert(ping_keys(p.pending_pings@) =~= Seq::<u64>::empty());
            assert(service_views(p.services@) =~= Seq::<(Seq<char>, u16)>::empty());
            assert(p@.pending =~= Set::<u64>::empty());
        }
        p
    }
}


impl Peer {
    /// A peer learned from gossip (or from an unsolicited ping) that was
    /// never configured: its address is already confirmed, with the epoch
    /// the news carried.
    pub fn from_gossip(virtual_ip: Ipv4Addr, name: &str, addr: SocketAddr, epoch_secs: u32) -> (p:
        Peer)
        ensures
            p.wf(),
            p@ == gossip_peer_view(virtual_ip, name@, addr, epoch_secs),
    {
        let p = Peer {
            name: name.to_owned(),
            virtual_ip,
            configured_addr_str: addr.to_text(),
            confirmed_addr: Some(addr),
            confirmed_epoch: epoch_secs,
            last_seen_secs: 0,
            discovered_via_gossip: true,
            last_rtt_ms: -1i64,
            pending_pings: Vec::new(),
            services: Vec::new(),
            lan_candidate: None,
            resolved_addr: None,
        };
        proof {
            assert(ping_keys(p.pending_pings@) =~= Seq::<u64>::empty());
            assert(service_views(p.services@) =~= Seq::<(Seq<char>, u16)>::empty());
            assert(p@.pending =~= Set::<u64>::empty());
        }
        p
    }

    pub fn virtual_ip(&self) -> (ip: Ipv4Addr)
        ensures
            ip == self@.virtual_ip,
    {
        self.virtual_ip
    }

    /// The `ip:port` (or `host:port`) text this peer was configured with.
    pub fn configured_addr_str(&self) -> (s: String)
        ensures
            s@ == self@.configured_addr,
    {
        self.configured_addr_str.clone()
    }

    pub fn last_seen_secs(&self) -> (t: u64)
        ensures
            t == self@.last_seen_secs,
    {
        self.last_seen_secs
    }

    pub fn discovered_via_gossip(&self) -> (b: bool)
        ensures
            b == self@.discovered_via_gossip,
    {
        self.discovered_via_gossip
    }

    pub fn name(&self) -> (n: String)
        ensures
            n@ == self@.name,
    {
        self.name.clone()
    }

    /// Renames the peer; an empty name is ignored.
    pub fn set_name(&mut self, name: &str)
        requires
            old(self).wf(),
        ensures
            final(self).wf(),
            final(self)@ == (PeerView {
                name: if name@.len() == 0 { old(self)@.name } else { name@ },
                ..old(self)@
            }),
    {
        if !name.is_empty() {
            self.name = name.to_owned();
        }
    }
}


/// Direct observation of a packet from `addr` at Unix time `now`: the
/// address is confirmed, stamped with `now` (truncated to 32 bits), and
/// the peer counts as seen at `now`. The flag tells whether the confirmed
/// address changed.
pub open spec fn observe_spec(v: PeerView, addr: SocketAddr, now: u64) -> (PeerView, bool) {
    (
        PeerView {
            confirmed_addr: Some(addr),
            confirmed_epoch: now as u32,
            last_seen_secs: now,
            ..v
        },
        v.confirmed_addr != Some(addr),
    )
}

/// Gossip claiming `addr` as of `epoch`: applied only when strictly
/// fresher than the epoch held. The flag tells whether the stored address
/// changed.
pub open spec fn observe_epoch_spec(v: PeerView, addr: SocketAddr, epoch: u32) -> (PeerView, bool) {
    if epoch <= v.confirmed_epoch {
        (v, false)
    } else {
        (
            PeerView { confirmed_addr: Some(addr), confirmed_epoch: epoch, ..v },
            v.confirmed_addr != Some(addr),
        )
    }
}

/// The address a peer is sent to: the confirmed one when there is one,
/// else its configured `ip:port` text read as a literal socket address,
/// else what its configured host name last resolved to.
pub open spec fn send_addr(v: PeerView) -> Option<SocketAddr> {
    match v.confirmed_addr {
        Some(a) => Some(a),
        None => match parse_socket_addr(v.configured_addr) {
            Some(a) => Some(a),
            None => v.resolved_addr,
        },
    }
}

/// How long ago, at Unix time `now`, a peer last seen at `last_seen_secs`
/// was heard from: never (`None`) when that is 0, and 0 for a clock that
/// went backwards.
pub open spec fn seen_ago(last_seen_secs: u64, now: u64) -> Option<u64> {
    if last_seen_secs == 0 {
        None
    } else if now >= last_seen_secs {
        Some((now - last_seen_secs) as u64)
    } else {
        Some(0u64)
    }
}

impl Peer {
    /// Where to send to this peer: the confirmed (roamed-to or gossiped)
    /// address, else the configured one when it is a literal `ip:port`,
    /// else what the configured host name last resolved to (see
    /// `needs_resolving`).
    pub fn current_send_addr(&self) -> (res: Option<SocketAddr>)
        ensures
            res == send_addr(self@),
    {
        match self.confirmed_addr {
            Some(a) => Some(a),
            None => match parse_socket_addr_str(self.configured_addr_str.as_str()) {
                Some(a) => Some(a),
                None => self.resolved_addr,
            },
        }
    }

    /// Whether the configured address is a host name to look up: nothing
    /// is confirmed yet and the configured text is no literal `ip:port`.
    /// (It is looked up again each time it is needed, in case it is a
    /// dynamic-DNS name.)
    pub fn needs_resolving(&self) -> (r: bool)
        ensures
            r == (self@.confirmed_addr is None && parse_socket_addr(self@.configured_addr) is None),
    {
        self.confirmed_addr.is_none() && parse_socket_addr_str(self.configured_addr_str.as_str()).is_none()
    }

    /// Records what the configured host name resolved to (`None` when the
    /// lookup failed).
    pub fn set_resolved_addr(&mut self, addr: Option<SocketAddr>)
        requires
            old(self).wf(),
        ensures
            final(self).wf(),
            final(self)@ == (PeerView { resolved_addr: addr, ..old(self)@ }),
    {
        self.resolved_addr = addr;
    }

    pub fn confirmed_epoch(&self) -> (e: u32)
        ensures
            e == self@.confirmed_epoch,
    {
        self.confirmed_epoch
    }

    /// The LAN-facing address this peer last gossiped about itself.
    pub fn lan_candidate(&self) -> (res: Option<SocketAddr>)
        ensures
            res == self@.lan_candidate,
    {
        self.lan_candidate
    }

    /// Records a gossiped LAN candidate; always overwrites, since a stale
    /// candidate is only ever probed, never sent data.
    pub fn set_lan_candidate(&mut self, addr: Option<SocketAddr>)
        requires
            old(self).wf(),
        ensures
            final(self).wf(),
            final(self)@ == (PeerView { lan_candidate: addr, ..old(self)@ }),
    {
        self.lan_candidate = addr;
    }

    /// A packet from this peer arrived from `addr` at Unix time `now`:
    /// direct observation always wins. The address is confirmed, the epoch
    /// becomes `now` (truncated to 32 bits) and the peer counts as seen at
    /// `now`. Returns whether the confirmed address changed (including the
    /// first time one is learned).
    pub fn observe_at(&mut self, addr: SocketAddr, now: u64) -> (changed: bool)
        requires
            old(self).wf(),
        ensures
            final(self).wf(),
            (final(self)@, changed) == observe_spec(old(self)@, addr, now),
    {
        let changed = match self.confirmed_addr {
            Some(a) => a != addr,
            None => true,
        };
        self.confirmed_addr = Some(addr);
        self.confirmed_epoch = #[verifier::truncate] (now as u32);
        self.last_seen_secs = now;
        changed
    }

    /// `observe_at` with the current time.
    pub fn observe(&mut self, addr: SocketAddr) -> (changed: bool)
        requires
            old(self).wf(),
        ensures
            final(self).wf(),
            exists|now: u64| (final(self)@, changed) == observe_spec(old(self)@, addr, now),
    {
        let now = now_secs();
        self.observe_at(addr, now)
    }

    /// Gossip claims `addr` for this peer as of `epoch_secs`: applied only
    /// when strictly fresher than what we hold. Returns whether the stored
    /// address changed.
    pub fn observe_epoch(&mut self, addr: SocketAddr, epoch_secs: u32) -> (changed: bool)
        requires
            old(self).wf(),
        ensures
            final(self).wf(),
            (final(self)@, changed) == observe_epoch_spec(old(self)@, addr, epoch_secs),
    {
        if epoch_secs <= self.confirmed_epoch {
            return false;
        }
        let changed = match self.confirmed_addr {
            Some(a) => a != addr,
            None => true,
        };
        self.confirmed_addr = Some(addr);
        self.confirmed_epoch = epoch_secs;
        changed
    }

    /// Last measured round trip, if any.
    pub fn last_rtt_ms(&self) -> (res: Option<u64>)
        ensures
            res == (if self@.last_rtt_ms < 0 {
                None
            } else {
                Some(self@.last_rtt_ms as u64)
            }),
    {
        let v = self.last_rtt_ms;
        if v < 0 {
            None
        } else {
            Some(v as u64)
        }
    }

    /// Seconds since the last packet from this peer, as of Unix time `now`
    /// (0 if the clock went backwards); `None` if none ever arrived.
    pub fn seconds_since_seen_at(&self, now: u64) -> (res: Option<u64>)
        ensures
            res == seen_ago(self@.last_seen_secs, now),
    {
        let last = self.last_seen_secs;
        if last == 0 {
            None
        } else if now >= last {
            Some(now - last)
        } else {
            Some(0)
        }
    }

    /// `seconds_since_seen_at` with the current time.
    pub fn seconds_since_seen(&self) -> (res: Option<u64>)
        ensures
            (res is None) == (self@.last_seen_secs == 0),
            exists|now: u64| #[trigger] seen_ago(self@.last_seen_secs, now) == res,
    {
        let now = now_secs();
        self.seconds_since_seen_at(now)
    }
}


proof fn lemma_push_to_set(s: Seq<u64>, x: u64)
    ensures
        s.push(x).to_set() == s.to_set().insert(x),
{
    assert forall|y: u64| s.push(x).to_set().contains(y) <==> s.to_set().insert(x).contains(y) by {
        if s.push(x).contains(y) && y != x {
            let k = choose|k: int| 0 <= k < s.push(x).len() && s.push(x)[k] == y;
            assert(s[k] == y);
        }
        if s.contains(y) {
            let k = choose|k: int| 0 <= k < s.len() && s[k] == y;
            assert(s.push(x)[k] == y);
        }
        if y == x {
            assert(s.push(x)[s.len() as int] == y);
        }
    }
    assert(s.push(x).to_set() =~= s.to_set().insert(x));
}

proof fn lemma_remove_to_set(s: Seq<u64>, i: int)
    requires
        0 <= i < s.len(),
        s.no_duplicates(),
    ensures
        s.remove(i).to_set() == s.to_set().remove(s[i]),
        s.remove(i).no_duplicates(),
{
    let r = s.remove(i);
    assert forall|y: u64| r.to_set().contains(y) <==> s.to_set().remove(s[i]).contains(y) by {
        if r.contains(y) {
            let k = choose|k: int| 0 <= k < r.len() && r[k] == y;
            if k < i {
                assert(s[k] == y);
            } else {
                assert(s[k + 1] == y);
            }
        }
        if s.contains(y) && y != s[i] {
            let k = choose|k: int| 0 <= k < s.len() && s[k] == y;
            if k < i {
                assert(r[k] == y);
            } else {
                assert(k != i);
                assert(r[k - 1] == y);
            }
        }
    }
    assert(r.to_set() =~= s.to_set().remove(s[i]));
    assert forall|a: int, b: int| 0 <= a < r.len() && 0 <= b < r.len() && a != b implies r[a]
        != r[b] by {
        let sa = if a < i { a } else { a + 1 };
        let sb = if b < i { b } else { b + 1 };
        assert(r[a] == s[sa] && r[b] == s[sb]);
    }
}

impl Peer {
    /// Records that ping `seq` was sent at `sent_at`; see
    /// `pending_after_send`.
    pub fn record_ping_sent_at(&mut self, seq: u64, sent_at: std::time::Instant)
        requires
            old(self).wf(),
        ensures
            final(self).wf(),
            final(self)@ == (PeerView {
                pending: pending_after_send(old(self)@.pending, seq),
                ..old(self)@
            }),
    {
        insert_ping(&mut self.pending_pings, seq, sent_at);
    }
}

impl Peer {
    /// Records that ping `seq` was just sent.
    pub fn record_ping_sent(&mut self, seq: u64)
        requires
            old(self).wf(),
        ensures
            final(self).wf(),
            final(self)@ == (PeerView {
                pending: pending_after_send(old(self)@.pending, seq),
                ..old(self)@
            }),
    {
        let now = instant_now();
        self.record_ping_sent_at(seq, now);
    }

    /// A pong for ping `seq` arrived. When that ping was pending it is
    /// matched (and no longer pending), the round trip measured from its
    /// send time becomes the last RTT and is returned; otherwise (never
    /// sent, or already matched) nothing changes and `None` comes back.
    pub fn record_pong_received(&mut self, seq: u64) -> (res: Option<u64>)
        requires
            old(self).wf(),
        ensures
            final(self).wf(),
            (res is Some) == old(self)@.pending.contains(seq),
            final(self)@ == (PeerView {
                pending: old(self)@.pending.remove(seq),
                last_rtt_ms: match res {
                    Some(r) => r as i64,
                    None => old(self)@.last_rtt_ms,
                },
                ..old(self)@
            }),
    {
        match take_ping(&mut self.pending_pings, seq) {
            Some(sent_at) => {
                let rtt = elapsed_millis(&sent_at);
                self.last_rtt_ms = #[verifier::truncate] (rtt as i64);
                Some(rtt)
            },
            None => None,
        }
    }
}

impl Peer {
    /// The advertised services, (name, port).
    pub fn services(&self) -> (res: Vec<(String, u16)>)
        ensures
            service_views(res@) == self@.services,
    {
        let mut res: Vec<(String, u16)> = Vec::new();
        let mut i: usize = 0;
        while i < self.services.len()
            invariant
                i <= self.services@.len(),
                res@.len() == i,
                service_views(res@) == service_views(self.services@).take(i as int),
            decreases self.services@.len() - i,
        {
            let name = self.services[i].0.clone();
            res.push((name, self.services[i].1));
            proof {
                assert(service_views(res@)[i as int] == service_views(self.services@)[i as int]);
                assert(service_views(res@) =~= service_views(self.services@).take(i + 1));
            }
            i = i + 1;
        }
        proof {
            assert(service_views(self.services@).take(i as int) =~= service_views(self.services@));
        }
        res
    }

    /// Merges a gossiped service announcement; see `merge_service`.
    /// Returns whether the services list changed.
    pub fn observe_service(&mut self, service_name: &str, port: u16) -> (changed: bool)
        requires
            old(self).wf(),
        ensures
            final(self).wf(),
            (final(self)@.services, changed) == merge_service(old(self)@.services, service_name@, port),
            final(self)@ == (PeerView { services: final(self)@.services, ..old(self)@ }),
    {
        if service_name.is_empty() {
            return false;
        }
        let ghost sv = service_views(self.services@);
        let mut i: usize = 0;
        while i < self.services.len()
            invariant
                i <= self.services@.len(),
                self.wf(),
                self@ == old(self)@,
                *self == *old(self),
                service_name@.len() != 0,
                sv == service_views(self.services@),
                services_wf(sv),
                forall|k: int| 0 <= k < i ==> !eq_ignore_case(#[trigger] sv[k].0, service_name@),
            decreases self.services@.len() - i,
        {
            if str_eq_ignore_case(self.services[i].0.as_str(), service_name) {
                proof {
                    assert(sv[i as int].0 == self.services@[i as int].0@);
                    assert(has_service(sv, service_name@));
                    let j = service_index(sv, service_name@);
                    if j != i {
                        if j < i {
                            assert(!eq_ignore_case(sv[j].0, sv[i as int].0));
                        } else {
                            assert(!eq_ignore_case(sv[i as int].0, sv[j].0));
                        }
                    }
                    assert(service_index(sv, service_name@) == i);
                    assert(old(self)@.services == sv);
                    assert(sv[i as int].1 == self.services@[i as int].1);
                }
                if self.services[i].1 == port {
                    return false;
                }
                let name = self.services[i].0.clone();
                self.services.set(i, (name, port));
                proof {
                    assert(service_views(self.services@) =~= sv.update(i as int, (sv[i as int].0, port)));
                    let nv = service_views(self.services@);
                    assert forall|a: int, b: int| 0 <= a < b < nv.len() implies !eq_ignore_case(
                        #[trigger] nv[a].0,
                        #[trigger] nv[b].0,
                    ) by {
                        assert(nv[a].0 == sv[a].0 && nv[b].0 == sv[b].0);
                    }
                    assert forall|a: int| 0 <= a < nv.len() implies (#[trigger] nv[a]).0.len() > 0 by {
                        assert(nv[a].0 == sv[a].0);
                    }
                }
                return true;
            }
            i = i + 1;
        }
        self.services.push((service_name.to_owned(), port));
        proof {
            assert(!has_service(sv, service_name@));
            let nv = service_views(self.services@);
            assert(nv =~= sv.push((service_name@, port)));
            assert forall|a: int, b: int| 0 <= a < b < nv.len() implies !eq_ignore_case(
                #[trigger] nv[a].0,
                #[trigger] nv[b].0,
            ) by {
                if b == sv.len() {
                    assert(nv[a].0 == sv[a].0);
                    assert(!eq_ignore_case(sv[a].0, service_name@));
                } else {
                    assert(nv[a].0 == sv[a].0 && nv[b].0 == sv[b].0);
                }
            }
            assert forall|a: int| 0 <= a < nv.len() implies (#[trigger] nv[a]).0.len() > 0 by {
                if a < sv.len() {
                    assert(nv[a].0 == sv[a].0);
                }
            }
        }
        true
    }
}

/// Removes ping `seq` from the pending list, handing back its send time.
fn take_ping(p: &mut Vec<(u64, std::time::Instant)>, seq: u64) -> (r: Option<std::time::Instant>)
    requires
        ping_keys(old(p)@).no_duplicates(),
        old(p)@.len() <= MAX_PENDING_PINGS,
    ensures
        ping_keys(final(p)@).no_duplicates(),
        final(p)@.len() <= MAX_PENDING_PINGS,
        ping_keys(final(p)@).to_set() == ping_keys(old(p)@).to_set().remove(seq),
        (r is Some) == ping_keys(old(p)@).to_set().contains(seq),
{
    let ghost keys0 = ping_keys(p@);
    match find_ping(p, seq) {
        Some(i) => {
            let (_, sent_at) = p.remove(i);
            proof {
                assert(ping_keys(p@) =~= keys0.remove(i as int));
                assert(keys0[i as int] == seq);
                lemma_remove_to_set(keys0, i as int);
                assert(keys0.to_set().contains(seq));
            }
            Some(sent_at)
        },
        None => {
            proof {
                assert(keys0.to_set().remove(seq) =~= keys0.to_set());
            }
            None
        },
    }
}

/// The pending ping with sequence number `seq`, if any.
fn find_ping(p: &Vec<(u64, std::time::Instant)>, seq: u64) -> (r: Option<usize>)
    ensures
        r matches Some(i) ==> i < p@.len() && p@[i as int].0 == seq,
        r is None ==> !ping_keys(p@).contains(seq),
{
    let mut i: usize = 0;
    while i < p.len()
        invariant
            i <= p@.len(),
            forall|k: int| 0 <= k < i ==> p@[k].0 != seq,
        decreases p@.len() - i,
    {
        if p[i].0 == seq {
            return Some(i);
        }
        i = i + 1;
    }
    proof {
        if ping_keys(p@).contains(seq) {
            let k = choose|k: int| 0 <= k < ping_keys(p@).len() && ping_keys(p@)[k] == seq;
            assert(p@[k].0 == seq);
        }
    }
    None
}

/// Position of the smallest pending sequence number.
fn min_ping_index(p: &Vec<(u64, std::time::Instant)>) -> (r: usize)
    requires
        p@.len() > 0,
    ensures
        r < p@.len(),
        forall|k: int| 0 <= k < p@.len() ==> p@[r as int].0 <= p@[k].0,
{
    let mut best: usize = 0;
    let mut i: usize = 1;
    while i < p.len()
        invariant
            1 <= i <= p@.len(),
            best < i,
            forall|k: int| 0 <= k < i ==> p@[best as int].0 <= p@[k].0,
        decreases p@.len() - i,
    {
        if p[i].0 < p[best].0 {
            best = i;
        }
        i = i + 1;
    }
    best
}

fn insert_ping(p: &mut Vec<(u64, std::time::Instant)>, seq: u64, sent_at: std::time::Instant)
    requires
        ping_keys(old(p)@).no_duplicates(),
        old(p)@.len() <= MAX_PENDING_PINGS,
    ensures
        ping_keys(final(p)@).no_duplicates(),
        final(p)@.len() <= MAX_PENDING_PINGS,
        ping_keys(final(p)@).to_set() == pending_after_send(ping_keys(old(p)@).to_set(), seq),
{
    let ghost keys0 = ping_keys(p@);
    match find_ping(p, seq) {
        Some(i) => {
            p.set(i, (seq, sent_at));
            proof {
                assert(ping_keys(p@) =~= keys0);
                assert(keys0[i as int] == seq);
                assert(keys0.to_set().contains(seq));
                assert(keys0.to_set().insert(seq) =~= keys0.to_set());
            }
        },
        None => {
            p.push((seq, sent_at));
            proof {
                assert(ping_keys(p@) =~= keys0.push(seq));
                lemma_push_new(keys0, seq);
            }
        },
    }
    let ghost keys1 = ping_keys(p@);
    proof {
        keys1.unique_seq_to_set();
    }
    if p.len() > MAX_PENDING_PINGS {
        let m = min_ping_index(p);
        p.remove(m);
        proof {
            assert(ping_keys(p@) =~= keys1.remove(m as int));
            lemma_drop_min(keys1, m as int);
        }
    }
}

proof fn lemma_push_new(s: Seq<u64>, x: u64)
    requires
        s.no_duplicates(),
        !s.contains(x),
    ensures
        s.push(x).no_duplicates(),
        s.push(x).to_set() == s.to_set().insert(x),
{
    lemma_push_to_set(s, x);
    let t = s.push(x);
    assert forall|a: int, b: int| 0 <= a < t.len() && 0 <= b < t.len() && a != b implies t[a]
        != t[b] by {
        if a == s.len() {
            assert(s[b] == t[b]);
        }
        if b == s.len() {
            assert(s[a] == t[a]);
        }
    }
}

proof fn lemma_drop_min(s: Seq<u64>, m: int)
    requires
        s.no_duplicates(),
        0 <= m < s.len(),
        forall|k: int| 0 <= k < s.len() ==> s[m] <= s[k],
    ensures
        s.remove(m).no_duplicates(),
        s.remove(m).to_set() == s.to_set().remove(set_min(s.to_set())),
{
    lemma_remove_to_set(s, m);
    let q = s.to_set();
    assert(q.contains(s[m]));
    assert forall|x: u64| q.contains(x) implies s[m] <= x by {
        let k = choose|k: int| 0 <= k < s.len() && s[k] == x;
    }
    let c = set_min(q);
    assert(q.contains(c) && forall|x: u64| q.contains(x) ==> c <= x);
    assert(c <= s[m] && s[m] <= c);
}

/// Announcing a service twice is the same as announcing it once: the
/// second announcement changes nothing and reports no change; the list
/// stays keyed by name up to case.
pub proof fn lemma_merge_service_idempotent(s: Seq<(Seq<char>, u16)>, name: Seq<char>, port: u16)
    requires
        services_wf(s),
    ensures
        services_wf(merge_service(s, name, port).0),
        merge_service(merge_service(s, name, port).0, name, port) == (merge_service(s, name, port).0, false),
{
    let s1 = merge_service(s, name, port).0;
    if name.len() == 0 {
    } else if has_service(s, name) {
        let i = service_index(s, name);
        assert forall|a: int| 0 <= a < s1.len() implies (#[trigger] s1[a]).0 == s[a].0 by {}
        assert(services_wf(s1));
        assert(has_service(s1, name)) by {
            assert(eq_ignore_case(s1[i].0, name));
        }
        let j = service_index(s1, name);
        if j != i {
            if j < i {
                assert(!eq_ignore_case(s[j].0, s[i].0));
            } else {
                assert(!eq_ignore_case(s[i].0, s[j].0));
            }
        }
        assert(s1[i].1 == port);
    } else {
        let n = s.len() as int;
        assert(s1 == s.push((name, port)));
        assert forall|a: int, b: int| 0 <= a < b < s1.len() implies !eq_ignore_case(
            #[trigger] s1[a].0,
            #[trigger] s1[b].0,
        ) by {
            if b == n {
                assert(s1[a].0 == s[a].0);
                if eq_ignore_case(s[a].0, name) {
                    assert(has_service(s, name));
                }
            } else {
                assert(s1[a] == s[a] && s1[b] == s[b]);
            }
        }
        assert forall|a: int| 0 <= a < s1.len() implies (#[trigger] s1[a]).0.len() > 0 by {
            if a < n {
                assert(s1[a] == s[a]);
            }
        }
        assert(has_service(s1, name)) by {
            assert(eq_ignore_case(s1[n].0, name));
        }
        let j = service_index(s1, name);
        if j != n {
            assert(!eq_ignore_case(s1[j].0, s1[n].0));
        }
    }
}

/// After hearing of a service with a non-empty name, the peer lists it
/// (up to case) exactly once, on the announced port.
pub proof fn lemma_merge_service_present(s: Seq<(Seq<char>, u16)>, name: Seq<char>, port: u16)
    requires
        services_wf(s),
        name.len() > 0,
    ensures
        has_service(merge_service(s, name, port).0, name),
        merge_service(s, name, port).0[service_index(merge_service(s, name, port).0, name)].1 == port,
        forall|a: int|
            0 <= a < merge_service(s, name, port).0.len() && eq_ignore_case(
                (#[trigger] merge_service(s, name, port).0[a]).0,
                name,
            ) ==> a == service_index(merge_service(s, name, port).0, name),
{
    lemma_merge_service_idempotent(s, name, port);
    let s1 = merge_service(s, name, port).0;
    let s2 = merge_service(s1, name, port);
    assert(has_service(s1, name)) by {
        if has_service(s, name) {
            let i = service_index(s, name);
            assert(eq_ignore_case(s1[i].0, name));
        } else {
            assert(eq_ignore_case(s1[s.len() as int].0, name));
        }
    }
    let j = service_index(s1, name);
    assert forall|a: int| 0 <= a < s1.len() && eq_ignore_case((#[trigger] s1[a]).0, name) implies a == j by {
        if a < j {
            assert(!eq_ignore_case(s1[a].0, s1[j].0));
        } else if a > j {
            assert(!eq_ignore_case(s1[j].0, s1[a].0));
        }
    }
}

/// Freshest wins: gossip never makes what we know older. The epoch never
/// decreases, and the address is replaced exactly when the news is
/// strictly fresher.
pub proof fn lemma_gossip_epoch_monotone(v: PeerView, addr: SocketAddr, epoch: u32)
    ensures
        observe_epoch_spec(v, addr, epoch).0.confirmed_epoch >= v.confirmed_epoch,
        observe_epoch_spec(v, addr, epoch).0.confirmed_epoch == if epoch > v.confirmed_epoch {
            epoch
        } else {
            v.confirmed_epoch
        },
        observe_epoch_spec(v, addr, epoch).0.confirmed_addr == if epoch > v.confirmed_epoch {
            Some(addr)
        } else {
            v.confirmed_addr
        },
{
}

/// Direct observation wins over gossip that is not newer than it: after a
/// packet arrives at time `now`, news stamped at or before `now` changes
/// nothing.
pub proof fn lemma_observation_beats_older_gossip(
    v: PeerView,
    addr: SocketAddr,
    now: u64,
    other: SocketAddr,
    epoch: u32,
)
    requires
        epoch <= now as u32,
    ensures
        observe_epoch_spec(observe_spec(v, addr, now).0, other, epoch) == (observe_spec(v, addr, now).0, false),
        observe_spec(v, addr, now).0.confirmed_addr == Some(addr),
{
}

/// A ping sent while fewer than `MAX_PENDING_PINGS` are outstanding is
/// pending afterwards, so its pong is matched exactly once.
pub proof fn lemma_ping_then_pong(p: Set<u64>, seq: u64)
    requires
        p.finite(),
        p.len() < MAX_PENDING_PINGS,
    ensures
        pending_after_send(p, seq).contains(seq),
        !pending_after_send(p, seq).remove(seq).contains(seq),
{
    let q = p.insert(seq);
    if !p.contains(seq) {
        assert(q.len() == p.len() + 1);
    } else {
        assert(q =~= p);
    }
}

} // verus!
