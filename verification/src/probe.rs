//! Measuring round trips to the configured peers (`ping`): the encrypted
//! probe each peer is sent, which received datagrams count as the answer
//! to a probe, and the per-peer tally the summary is printed from.
//! Sending, receiving and timing are the caller's job.

use vstd::prelude::*;
use crate::crypto::{open_spec, sealed_by, Cipher, MAX_PLAINTEXT};
use crate::mesh::{be64, be64_bytes, be64_read, be64_value, lemma_be64_roundtrip};
use crate::config::PeerConfig;
use crate::net::Ipv4Addr;
use crate::proto::{build, packet_bytes, parse, parse_packet, TYPE_PING, TYPE_PONG};

verus! {

/// The plaintext of probe number `seq` from `my_virtual_ip`: a PING
/// carrying the sequence number in eight big-endian bytes.
pub open spec fn probe_plaintext(my_virtual_ip: Ipv4Addr, seq: u64) -> Seq<u8> {
    packet_bytes(TYPE_PING, my_virtual_ip, be64(seq))
}

/// The encrypted probe number `seq`.
pub fn probe_packet(cipher: &Cipher, my_virtual_ip: Ipv4Addr, seq: u64) -> (wire: Vec<u8>)
    ensures
        sealed_by(cipher.key(), wire@, probe_plaintext(my_virtual_ip, seq)),
{
    let seq_bytes = be64_bytes(seq);
    let plain = build(TYPE_PING, my_virtual_ip, seq_bytes.as_slice());
    assert(plain@.len() == 13);
    cipher.seal(plain.as_slice())
}

/// The peer a received datagram answers probe `seq` for: it must open
/// under the key and be a PONG carrying exactly eight bytes that read as
/// `seq`; the answer is from the sender the header names.
pub open spec fn probe_reply_spec(key: Seq<u8>, datagram: Seq<u8>, seq: u64) -> Option<Ipv4Addr> {
    match open_spec(key, datagram) {
        None => None,
        Some(plain) => match parse_packet(plain) {
            None => None,
            Some((h, payload)) => if h.packet_type == TYPE_PONG && payload.len() == 8 && be64_value(
                payload,
            ) == seq {
                Some(h.sender_virtual_ip)
            } else {
                None
            },
        },
    }
}

/// See `probe_reply_spec`.
pub fn probe_reply(cipher: &Cipher, datagram: &[u8], seq: u64) -> (r: Option<Ipv4Addr>)
    ensures
        r == probe_reply_spec(cipher.key(), datagram@, seq),
{
    let plain = match cipher.open(datagram) {
        Some(p) => p,
        None => return None,
    };
    let (hdr, payload) = match parse(plain.as_slice()) {
        Some(x) => x,
        None => return None,
    };
    if hdr.packet_type != TYPE_PONG || payload.len() != 8 {
        return None;
    }
    if be64_read(payload) != seq {
        return None;
    }
    Some(hdr.sender_virtual_ip)
}

/// A peer's answer to a probe (the PONG echoing its sequence number,
/// sealed under the shared key) is recognised as that peer's answer.
pub proof fn lemma_echo_is_recognised(key: Seq<u8>, wire: Seq<u8>, peer: Ipv4Addr, seq: u64)
    requires
        sealed_by(key, wire, packet_bytes(TYPE_PONG, peer, be64(seq))),
    ensures
        probe_reply_spec(key, wire, seq) == Some(peer),
{
    let b = packet_bytes(TYPE_PONG, peer, be64(seq));
    assert(b.skip(5) =~= be64(seq));
    lemma_be64_roundtrip(seq);
}

/// The tally of one peer's probes: how many were sent, how many answered,
/// and each answer's round-trip time in milliseconds.
#[derive(Clone, Debug)]
pub struct ProbeTally {
    pub name: String,
    pub sent: u32,
    pub received: u32,
    pub rtts_ms: Vec<u64>,
}

pub open spec fn seq_min(s: Seq<u64>) -> u64
    decreases s.len(),
{
    if s.len() <= 1 {
        s[0]
    } else {
        let m = seq_min(s.drop_last());
        if s.last() < m {
            s.last()
        } else {
            m
        }
    }
}

pub open spec fn seq_max(s: Seq<u64>) -> u64
    decreases s.len(),
{
    if s.len() <= 1 {
        s[0]
    } else {
        let m = seq_max(s.drop_last());
        if s.last() > m {
            s.last()
        } else {
            m
        }
    }
}

pub open spec fn seq_sum(s: Seq<u64>) -> nat
    decreases s.len(),
{
    if s.len() == 0 {
        0
    } else {
        seq_sum(s.drop_last()) + s.last() as nat
    }
}

impl ProbeTally {
    /// A peer's tally before any probe.
    pub fn new(name: String) -> (t: ProbeTally)
        ensures
            t.name == name,
            t.sent == 0,
            t.received == 0,
            t.rtts_ms@.len() == 0,
    {
        ProbeTally { name, sent: 0, received: 0, rtts_ms: Vec::new() }
    }

    /// Counts one probe sent.
    pub fn record_sent(&mut self)
        requires
            old(self).sent < u32::MAX,
        ensures
            final(self).sent == old(self).sent + 1,
            final(self).received == old(self).received,
            final(self).rtts_ms@ == old(self).rtts_ms@,
            final(self).name == old(self).name,
    {
        self.sent = self.sent + 1;
    }

    /// Counts one answer, with its round-trip time.
    pub fn record_answer(&mut self, rtt_ms: u64)
        requires
            old(self).received < u32::MAX,
        ensures
            final(self).received == old(self).received + 1,
            final(self).sent == old(self).sent,
            final(self).rtts_ms@ == old(self).rtts_ms@.push(rtt_ms),
            final(self).name == old(self).name,
    {
        self.received = self.received + 1;
        self.rtts_ms.push(rtt_ms);
    }


    /// The shortest and longest round trip, and the sum of all of them
    /// (for the average); `None` when no probe was answered.
    pub fn rtt_summary(&self) -> (r: Option<(u64, u64, u128)>)
        ensures
            self.rtts_ms@.len() == 0 ==> r is None,
            self.rtts_ms@.len() > 0 ==> r == Some(
                (seq_min(self.rtts_ms@), seq_max(self.rtts_ms@), seq_sum(self.rtts_ms@) as u128),
            ),
    {
        if self.rtts_ms.len() == 0 {
            return None;
        }
        let ghost s = self.rtts_ms@;
        let mut lo: u64 = self.rtts_ms[0];
        let mut hi: u64 = self.rtts_ms[0];
        let mut total: u128 = self.rtts_ms[0] as u128;
        let mut i: usize = 1;
        assert(s.take(1).drop_last() =~= Seq::<u64>::empty());
        assert(s.take(1).last() == s[0]);
        assert(seq_sum(Seq::<u64>::empty()) == 0);
        assert(seq_sum(s.take(1)) == seq_sum(s.take(1).drop_last()) + s.take(1).last() as nat);
        assert(seq_sum(s.take(1)) == s[0] as nat);
        while i < self.rtts_ms.len()
            invariant
                1 <= i <= s.len(),
                s == self.rtts_ms@,
                lo == seq_min(s.take(i as int)),
                hi == seq_max(s.take(i as int)),
                total as nat == seq_sum(s.take(i as int)),
                seq_sum(s.take(i as int)) <= i * 0xFFFF_FFFF_FFFF_FFFFu64,
            decreases s.len() - i,
        {
            let x = self.rtts_ms[i];
            proof {
                assert(s.take(i + 1).drop_last() =~= s.take(i as int));
                assert(s.take(i + 1).last() == x);
                assert(i * 0xFFFF_FFFF_FFFF_FFFFu64 + x <= (i + 1) * 0xFFFF_FFFF_FFFF_FFFFu64)
                    by (nonlinear_arith)
                    requires
                        x <= 0xFFFF_FFFF_FFFF_FFFFu64,
                ;
                assert((i + 1) * 0xFFFF_FFFF_FFFF_FFFFu64 <= 0xFFFF_FFFF_FFFF_FFFF_FFFF_FFFF_FFFF_FFFFu128)
                    by (nonlinear_arith)
                    requires
                        i + 1 <= 0xFFFF_FFFF_FFFF_FFFFu64,
                ;
            }
            if x < lo {
                lo = x;
            }
            if x > hi {
                hi = x;
            }
            total = total + x as u128;
            i = i + 1;
        }
        assert(s.take(i as int) =~= s);
        Some((lo, hi, total))
    }
}

// ---------------------------------------------------------------------
// A run of probe rounds
// ---------------------------------------------------------------------

/// The mathematical content of a peer's tally.
pub struct TallyView {
    pub name: Seq<char>,
    pub sent: u32,
    pub received: u32,
    pub rtts_ms: Seq<u64>,
}

pub open spec fn tally_view(t: ProbeTally) -> TallyView {
    TallyView { name: t.name@, sent: t.sent, received: t.received, rtts_ms: t.rtts_ms@ }
}

pub open spec fn tally_views(ts: Seq<ProbeTally>) -> Seq<TallyView> {
    Seq::new(ts.len(), |i: int| tally_view(ts[i]))
}

/// The mathematical content of a run of probe rounds: the peers' virtual
/// IPs, their tallies, whether each was sent the current round's probe,
/// whether it still owes the answer to it, and how many rounds started.
pub struct RoundView {
    pub ips: Seq<Ipv4Addr>,
    pub tallies: Seq<TallyView>,
    pub probed: Seq<bool>,
    pub awaiting: Seq<bool>,
    pub rounds: u32,
}

/// What holds of peer `i` at every point: it has no more answers than
/// probes sent and no more probes than rounds started; one round trip is
/// recorded per answer; a peer not yet probed this round has a probe left
/// to send; a peer that still owes an answer was probed this round and has
/// an unanswered probe.
pub open spec fn counts_ok(v: RoundView, i: int) -> bool {
    let t = v.tallies[i];
    &&& t.received <= t.sent <= v.rounds
    &&& t.rtts_ms.len() == t.received
    &&& (!v.probed[i] && v.rounds > 0 ==> t.sent < v.rounds)
    &&& (v.awaiting[i] ==> v.probed[i] && t.received < t.sent)
}

pub open spec fn round_ok(v: RoundView) -> bool {
    &&& v.tallies.len() == v.ips.len()
    &&& v.probed.len() == v.ips.len()
    &&& v.awaiting.len() == v.ips.len()
    &&& forall|i: int| 0 <= i < v.ips.len() ==> #[trigger] counts_ok(v, i)
}

/// `j` is the first position of `ip`.
pub open spec fn is_first_ip(ips: Seq<Ipv4Addr>, ip: Ipv4Addr, j: int) -> bool {
    &&& 0 <= j < ips.len()
    &&& ips[j] == ip
    &&& forall|k: int| 0 <= k < j ==> ips[k] != ip
}

pub open spec fn has_ip(ips: Seq<Ipv4Addr>, ip: Ipv4Addr) -> bool {
    exists|j: int| 0 <= j < ips.len() && ips[j] == ip
}

pub open spec fn first_ip(ips: Seq<Ipv4Addr>, ip: Ipv4Addr) -> int {
    choose|j: int| is_first_ip(ips, ip, j)
}

proof fn lemma_first_ip_unique(ips: Seq<Ipv4Addr>, ip: Ipv4Addr, j: int)
    requires
        is_first_ip(ips, ip, j),
    ensures
        first_ip(ips, ip) == j,
{
    let f = first_ip(ips, ip);
    assert(is_first_ip(ips, ip, f));
    if f < j {
        assert(ips[f] != ip);
    } else if f > j {
        assert(ips[j] != ip);
    }
}

/// The tally after one more probe sent.
pub open spec fn tally_sent(t: TallyView) -> TallyView {
    TallyView { sent: (t.sent + 1) as u32, ..t }
}

/// The tally after one answer with round trip `rtt_ms`.
pub open spec fn tally_answered(t: TallyView, rtt_ms: u64) -> TallyView {
    TallyView { received: (t.received + 1) as u32, rtts_ms: t.rtts_ms.push(rtt_ms), ..t }
}

/// The probe rounds of `ping`: one tally per configured peer, and for the
/// current round which peers were sent the probe and which still owe the
/// answer. An answer counts only for a peer that was sent the current
/// probe and has not answered it yet, so no peer ever has more answers
/// than probes, nor more probes than rounds (`lemma_probe_counts`).
pub struct ProbeRound {
    ips: Vec<Ipv4Addr>,
    tallies: Vec<ProbeTally>,
    probed: Vec<bool>,
    awaiting: Vec<bool>,
    rounds: u32,
}

impl View for ProbeRound {
    type V = RoundView;

    closed spec fn view(&self) -> RoundView {
        RoundView {
            ips: self.ips@,
            tallies: tally_views(self.tallies@),
            probed: self.probed@,
            awaiting: self.awaiting@,
            rounds: self.rounds,
        }
    }
}

/// The counts of every peer stay consistent: answers received never
/// exceed probes sent, probes sent never exceed the rounds started, and
/// a peer has round trips recorded exactly when one of its probes was
/// answered (so its loss lies between 0 and 100%, and it is unreachable
/// exactly when nothing came back).
pub proof fn lemma_probe_counts(v: RoundView, i: int)
    requires
        round_ok(v),
        0 <= i < v.ips.len(),
    ensures
        v.tallies[i].received <= v.tallies[i].sent <= v.rounds,
        (v.tallies[i].received == 0) == (v.tallies[i].rtts_ms.len() == 0),
{
    assert(counts_ok(v, i));
}

impl ProbeRound {
    /// Well-formed: `round_ok` holds of the view.
    pub open spec fn wf(&self) -> bool {
        round_ok(self@)
    }

    /// No round started yet: a fresh tally for each peer, in order.
    pub fn new(peers: &[PeerConfig]) -> (r: ProbeRound)
        ensures
            r.wf(),
            r@.rounds == 0,
            r@.ips == Seq::new(peers@.len(), |i: int| peers@[i].virtual_ip),
            r@.tallies == Seq::new(
                peers@.len(),
                |i: int| TallyView { name: peers@[i].name@, sent: 0, received: 0, rtts_ms: Seq::empty() },
            ),
            r@.probed == Seq::new(peers@.len(), |i: int| false),
            r@.awaiting == Seq::new(peers@.len(), |i: int| false),
    {
        let mut ips: Vec<Ipv4Addr> = Vec::new();
        let mut tallies: Vec<ProbeTally> = Vec::new();
        let mut flags: Vec<bool> = Vec::new();
        let mut i: usize = 0;
        proof {
            assert(ips@ =~= Seq::new(0, |k: int| peers@[k].virtual_ip));
            assert(tally_views(tallies@) =~= Seq::new(
                0,
                |k: int| TallyView { name: peers@[k].name@, sent: 0, received: 0, rtts_ms: Seq::empty() },
            ));
            assert(flags@ =~= Seq::new(0, |k: int| false));
        }
        while i < peers.len()
            invariant
                i <= peers@.len(),
                ips@ == Seq::new(i as nat, |k: int| peers@[k].virtual_ip),
                tally_views(tallies@) == Seq::new(
                    i as nat,
                    |k: int| TallyView { name: peers@[k].name@, sent: 0, received: 0, rtts_ms: Seq::empty() },
                ),
                flags@ == Seq::new(i as nat, |k: int| false),
            decreases peers@.len() - i,
        {
            ips.push(peers[i].virtual_ip);
            let t = ProbeTally::new(peers[i].name.clone());
            assert(t.rtts_ms@ =~= Seq::<u64>::empty());
            assert(tally_view(t) == TallyView {
                name: peers@[i as int].name@,
                sent: 0,
                received: 0,
                rtts_ms: Seq::<u64>::empty(),
            });
            let ghost before = tally_views(tallies@);
            tallies.push(t);
            flags.push(false);
            proof {
                assert(tally_views(tallies@) =~= before.push(tally_view(t)));
            }
            proof {
                assert(ips@ =~= Seq::new((i + 1) as nat, |k: int| peers@[k].virtual_ip));
                assert(tally_views(tallies@) =~= Seq::new(
                    (i + 1) as nat,
                    |k: int| TallyView { name: peers@[k].name@, sent: 0, received: 0, rtts_ms: Seq::empty() },
                ));
                assert(flags@ =~= Seq::new((i + 1) as nat, |k: int| false));
            }
            i = i + 1;
        }
        let r = ProbeRound { ips, tallies, probed: flags.clone(), awaiting: flags, rounds: 0 };
        proof {
            assert(r.probed@ =~= r.awaiting@);
            assert forall|k: int| 0 <= k < r@.ips.len() implies #[trigger] counts_ok(r@, k) by {}
        }
        r
    }

    /// How many rounds have started.
    pub fn rounds(&self) -> (n: u32)
        ensures
            n == self@.rounds,
    {
        self.rounds
    }

    /// The peers' tallies, in the order the peers were given.
    pub fn tallies(&self) -> (ts: &[ProbeTally])
        ensures
            tally_views(ts@) == self@.tallies,
    {
        self.tallies.as_slice()
    }

    /// Starts the next round (a new probe number): nobody has been sent
    /// its probe yet. Refused, changing nothing, once `u32::MAX` rounds
    /// have started.
    pub fn start_round(&mut self) -> (started: bool)
        requires
            old(self).wf(),
        ensures
            final(self).wf(),
            started == (old(self)@.rounds < u32::MAX),
            !started ==> final(self)@ == old(self)@,
            started ==> final(self)@ == (RoundView {
                rounds: (old(self)@.rounds + 1) as u32,
                probed: Seq::new(old(self)@.ips.len(), |i: int| false),
                awaiting: Seq::new(old(self)@.ips.len(), |i: int| false),
                ..old(self)@
            }),
    {
        if self.rounds == u32::MAX {
            return false;
        }
        let ghost v0 = self@;
        let n = self.ips.len();
        let mut flags: Vec<bool> = Vec::new();
        let mut i: usize = 0;
        while i < n
            invariant
                i <= n,
                flags@ == Seq::new(i as nat, |k: int| false),
            decreases n - i,
        {
            flags.push(false);
            proof {
                assert(flags@ =~= Seq::new((i + 1) as nat, |k: int| false));
            }
            i = i + 1;
        }
        self.probed = flags.clone();
        self.awaiting = flags;
        self.rounds = self.rounds + 1;
        proof {
            assert(self.probed@ =~= self.awaiting@);
            assert forall|k: int| 0 <= k < self@.ips.len() implies #[trigger] counts_ok(self@, k) by {
                assert(counts_ok(v0, k));
                assert(self@.tallies[k] == v0.tallies[k]);
            }
            assert(self@ =~= RoundView {
                rounds: (v0.rounds + 1) as u32,
                probed: Seq::new(v0.ips.len(), |i: int| false),
                awaiting: Seq::new(v0.ips.len(), |i: int| false),
                ..v0
            });
        }
        true
    }

    /// Peer `i` was sent the current round's probe. Counted only once per
    /// round, for a known peer, once a round has started.
    pub fn on_sent(&mut self, i: usize) -> (counted: bool)
        requires
            old(self).wf(),
        ensures
            final(self).wf(),
            counted == (i < old(self)@.ips.len() && old(self)@.rounds > 0 && !old(self)@.probed[i as int]),
            !counted ==> final(self)@ == old(self)@,
            counted ==> final(self)@ == (RoundView {
                tallies: old(self)@.tallies.update(i as int, tally_sent(old(self)@.tallies[i as int])),
                probed: old(self)@.probed.update(i as int, true),
                awaiting: old(self)@.awaiting.update(i as int, true),
                ..old(self)@
            }),
    {
        if i >= self.ips.len() || self.rounds == 0 || self.probed[i] {
            return false;
        }
        let ghost v0 = self@;
        proof {
            assert(counts_ok(v0, i as int));
        }
        self.tallies[i].record_sent();
        self.probed.set(i, true);
        self.awaiting.set(i, true);
        proof {
            let v1 = RoundView {
                tallies: v0.tallies.update(i as int, tally_sent(v0.tallies[i as int])),
                probed: v0.probed.update(i as int, true),
                awaiting: v0.awaiting.update(i as int, true),
                ..v0
            };
            assert(tally_views(self.tallies@) =~= v1.tallies);
            assert(self@ =~= v1);
            assert forall|k: int| 0 <= k < self@.ips.len() implies #[trigger] counts_ok(self@, k) by {
                assert(counts_ok(v0, k));
            }
        }
        true
    }

    /// A PONG for the current probe came from `sender` after `rtt_ms`
    /// milliseconds. It counts only for the first peer with that virtual
    /// IP, and only if that peer was sent this probe and has not answered
    /// it yet; a duplicated or unsolicited answer changes nothing.
    pub fn on_reply(&mut self, sender: Ipv4Addr, rtt_ms: u64) -> (counted: bool)
        requires
            old(self).wf(),
        ensures
            final(self).wf(),
            counted == (has_ip(old(self)@.ips, sender) && old(self)@.awaiting[first_ip(old(self)@.ips, sender)]),
            !counted ==> final(self)@ == old(self)@,
            counted ==> final(self)@ == (RoundView {
                tallies: old(self)@.tallies.update(
                    first_ip(old(self)@.ips, sender),
                    tally_answered(old(self)@.tallies[first_ip(old(self)@.ips, sender)], rtt_ms),
                ),
                awaiting: old(self)@.awaiting.update(first_ip(old(self)@.ips, sender), false),
                ..old(self)@
            }),
    {
        let ghost v0 = self@;
        let mut j: usize = 0;
        while j < self.ips.len() && self.ips[j] != sender
            invariant
                j <= self.ips@.len(),
                self@ == v0,
                forall|k: int| 0 <= k < j ==> self.ips@[k] != sender,
            decreases self.ips@.len() - j,
        {
            j = j + 1;
        }
        if j == self.ips.len() {
            proof {
                assert forall|k: int| 0 <= k < v0.ips.len() implies v0.ips[k] != sender by {}
            }
            return false;
        }
        proof {
            assert(is_first_ip(v0.ips, sender, j as int));
            lemma_first_ip_unique(v0.ips, sender, j as int);
            assert(counts_ok(v0, j as int));
        }
        if !self.awaiting[j] {
            return false;
        }
        self.tallies[j].record_answer(rtt_ms);
        self.awaiting.set(j, false);
        proof {
            let v1 = RoundView {
                tallies: v0.tallies.update(j as int, tally_answered(v0.tallies[j as int], rtt_ms)),
                awaiting: v0.awaiting.update(j as int, false),
                ..v0
            };
            assert(tally_views(self.tallies@) =~= v1.tallies);
            assert(self@ =~= v1);
            assert forall|k: int| 0 <= k < self@.ips.len() implies #[trigger] counts_ok(self@, k) by {
                assert(counts_ok(v0, k));
            }
        }
        true
    }
}

} // verus!
