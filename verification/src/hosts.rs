//! Local domain names: turning peer names into host names (`alice.mesh`,
//! `game.alice.mesh`) and keeping a managed block of the OS hosts file in
//! step with them.
//!
//! The managed block is delimited by marker lines, so it can be rewritten
//! on every change without touching anything else in the file. Reading and
//! writing the file itself is done outside the library; this module works
//! on its text.

use vstd::prelude::*;
use crate::net::{Ipv4Addr, dec_text, ipv4_text, push_decimal, push_ipv4};
use crate::config::{Config, svc_views};
use crate::peer::service_views;
use crate::text::{
    ascii_lower, chars_eq, chars_of, is_ascii_alphanumeric, is_alnum_char, is_unicode_whitespace,
    join_lines, join_with, lemma_lines_of_joined, lemma_text_lines_no_newline, lemma_trim_end_prefix,
    lemma_trim_noop, lines_of, lower_char, plain_line, string_from_chars, text_lines, trim, trim_chars,
    trim_end, trim_start, split_char,
};

verus! {

// ---------------------------------------------------------------------
// Labels
// ---------------------------------------------------------------------

/// One character of label building: ASCII letters and digits are kept
/// (lowercased); a space, underscore, hyphen or dot becomes a single
/// hyphen, but only after something was kept and never twice in a row;
/// anything else is dropped. The flag records whether the last thing
/// written was such a hyphen.
pub open spec fn label_step(st: (Seq<char>, bool), c: char) -> (Seq<char>, bool) {
    let lower = ascii_lower(c);
    if is_ascii_alphanumeric(lower) {
        (st.0.push(lower), false)
    } else if (lower == ' ' || lower == '_' || lower == '-' || lower == '.') && !st.1 && st.0.len()
        > 0 {
        (st.0.push('-'), true)
    } else {
        st
    }
}

pub open spec fn label_scan(s: Seq<char>) -> (Seq<char>, bool)
    decreases s.len(),
{
    if s.len() == 0 {
        (Seq::empty(), false)
    } else {
        label_step(label_scan(s.drop_last()), s.last())
    }
}

/// Drops trailing hyphens.
pub open spec fn strip_trailing_dashes(s: Seq<char>) -> Seq<char>
    decreases s.len(),
{
    if s.len() > 0 && s.last() == '-' {
        strip_trailing_dashes(s.drop_last())
    } else {
        s
    }
}

/// A display name as a host-name label: the trimmed name scanned as
/// `label_step` says, trailing hyphens dropped, and `peer` when nothing
/// usable is left.
pub open spec fn sanitize_spec(name: Seq<char>) -> Seq<char> {
    let out = strip_trailing_dashes(label_scan(trim(name)).0);
    if out.len() == 0 {
        seq!['p', 'e', 'e', 'r']
    } else {
        out
    }
}

/// A safe DNS-style label: non-empty, only lowercase ASCII letters, digits
/// and hyphens, no hyphen first or last, never two hyphens in a row.
pub open spec fn is_valid_label(s: Seq<char>) -> bool {
    &&& s.len() > 0
    &&& forall|i: int|
        0 <= i < s.len() ==> (97 <= (#[trigger] s[i] as u32) <= 122 || 48 <= (s[i] as u32) <= 57
            || s[i] == '-')
    &&& s[0] != '-'
    &&& s.last() != '-'
    &&& forall|i: int| 0 <= i < s.len() - 1 ==> !(#[trigger] s[i] == '-' && s[i + 1] == '-')
}

/// What the scan keeps building: only label characters, no leading
/// hyphen, no two hyphens in a row, and the flag says whether it ends in
/// a hyphen.
pub open spec fn scan_ok(st: (Seq<char>, bool)) -> bool {
    let s = st.0;
    &&& forall|i: int|
        0 <= i < s.len() ==> (97 <= (#[trigger] s[i] as u32) <= 122 || 48 <= (s[i] as u32) <= 57
            || s[i] == '-')
    &&& (s.len() > 0 ==> s[0] != '-')
    &&& forall|i: int| 0 <= i < s.len() - 1 ==> !(#[trigger] s[i] == '-' && s[i + 1] == '-')
    &&& st.1 == (s.len() > 0 && s.last() == '-')
}

proof fn lemma_step_ok(st: (Seq<char>, bool), c: char)
    requires
        scan_ok(st),
    ensures
        scan_ok(label_step(st, c)),
{
    let r = label_step(st, c);
    let s = st.0;
    let t = r.0;
    assert forall|i: int| 0 <= i < t.len() implies (97 <= (#[trigger] t[i] as u32) <= 122 || 48 <= (
    t[i] as u32) <= 57 || t[i] == '-') by {
        if i < s.len() {
            assert(t[i] == s[i]);
        }
    }
    assert forall|i: int| 0 <= i < t.len() - 1 implies !(#[trigger] t[i] == '-' && t[i + 1] == '-') by {
        if i + 1 < s.len() {
            assert(t[i] == s[i] && t[i + 1] == s[i + 1]);
        } else if i + 1 == s.len() && t.len() > s.len() {
            assert(t[i] == s[i]);
        }
    }
    if t.len() > 0 {
        if s.len() > 0 {
            assert(t[0] == s[0]);
        }
    }
}

proof fn lemma_scan_ok(s: Seq<char>)
    ensures
        scan_ok(label_scan(s)),
    decreases s.len(),
{
    if s.len() == 0 {
    } else {
        lemma_scan_ok(s.drop_last());
        lemma_step_ok(label_scan(s.drop_last()), s.last());
    }
}

/// Every label `sanitize_label` produces is a valid label.
pub proof fn lemma_sanitize_valid(name: Seq<char>)
    ensures
        is_valid_label(sanitize_spec(name)),
{
    let st = label_scan(trim(name));
    lemma_scan_ok(trim(name));
    let s = st.0;
    let out = strip_trailing_dashes(s);
    if s.len() > 0 && s.last() == '-' {
        // no two hyphens in a row, so one step removes the only trailing one
        let d = s.drop_last();
        if d.len() > 0 {
            assert(!(s[d.len() - 1] == '-' && s[d.len() as int] == '-'));
            assert(d.last() != '-');
        }
        assert(strip_trailing_dashes(d) == d);
        assert(out == strip_trailing_dashes(d));
        assert forall|i: int| 0 <= i < d.len() - 1 implies !(#[trigger] d[i] == '-' && d[i + 1] == '-') by {
            assert(d[i] == s[i] && d[i + 1] == s[i + 1]);
        }
    } else {
        assert(out == s);
    }
    if out.len() == 0 {
        let p = seq!['p', 'e', 'e', 'r'];
        assert(sanitize_spec(name) == p);
        assert forall|i: int| 0 <= i < p.len() - 1 implies !(#[trigger] p[i] == '-' && p[i + 1] == '-') by {}
    }
}

/// A valid label scans to itself: each of its letters and digits is kept
/// as it is, and each hyphen follows something kept and no other hyphen.
proof fn lemma_label_scan_valid(s: Seq<char>, k: int)
    requires
        is_valid_label(s),
        0 <= k <= s.len(),
    ensures
        label_scan(s.take(k)) == (s.take(k), k > 0 && s[k - 1] == '-'),
    decreases k,
{
    if k > 0 {
        lemma_label_scan_valid(s, k - 1);
        assert(s.take(k).drop_last() =~= s.take(k - 1));
        assert(s.take(k).last() == s[k - 1]);
        let c = s[k - 1];
        assert(97 <= (c as u32) <= 122 || 48 <= (c as u32) <= 57 || c == '-');
        assert(ascii_lower(c) == c);
        if c == '-' {
            assert(k - 1 > 0);
            assert(!(s[k - 2] == '-' && s[k - 1] == '-'));
        }
        assert(s.take(k - 1).push(c) =~= s.take(k));
    }
}

/// Sanitizing a label again changes nothing: `sanitize_label` is
/// idempotent.
pub proof fn lemma_sanitize_idempotent(name: Seq<char>)
    ensures
        sanitize_spec(sanitize_spec(name)) == sanitize_spec(name),
{
    let s = sanitize_spec(name);
    lemma_sanitize_valid(name);
    assert(97 <= (s[0] as u32) <= 122 || 48 <= (s[0] as u32) <= 57 || s[0] == '-');
    assert(s.last() == s[s.len() - 1]);
    assert(97 <= (s[s.len() - 1] as u32) <= 122 || 48 <= (s[s.len() - 1] as u32) <= 57 || s[s.len() - 1] == '-');
    lemma_trim_noop(s);
    lemma_label_scan_valid(s, s.len() as int);
    assert(s.take(s.len() as int) =~= s);
}

/// Turns a display name into a safe host-name label; see `sanitize_spec`.
/// The result is always a valid label (`lemma_sanitize_valid`).
pub fn sanitize_label(name: &str) -> (res: String)
    ensures
        res@ == sanitize_spec(name@),
        is_valid_label(res@),
{
    let chars = chars_of(name);
    let trimmed = trim_chars(chars.as_slice());
    let mut out: Vec<char> = Vec::new();
    let mut last_was_sep = false;
    let mut i: usize = 0;
    while i < trimmed.len()
        invariant
            i <= trimmed@.len(),
            trimmed@ == trim(name@),
            (out@, last_was_sep) == label_scan(trimmed@.take(i as int)),
        decreases trimmed@.len() - i,
    {
        proof {
            assert(trimmed@.take(i + 1).drop_last() =~= trimmed@.take(i as int));
        }
        let lower = lower_char(trimmed[i]);
        if is_alnum_char(lower) {
            out.push(lower);
            last_was_sep = false;
        } else if (lower == ' ' || lower == '_' || lower == '-' || lower == '.') && !last_was_sep
            && out.len() > 0 {
            out.push('-');
            last_was_sep = true;
        }
        i = i + 1;
    }
    proof {
        assert(trimmed@.take(i as int) =~= trimmed@);
    }
    while out.len() > 0 && out[out.len() - 1] == '-'
        invariant
            strip_trailing_dashes(out@) == strip_trailing_dashes(label_scan(trim(name@)).0),
        decreases out@.len(),
    {
        out.pop();
    }
    proof {
        lemma_sanitize_valid(name@);
    }
    if out.len() == 0 {
        let p: Vec<char> = vec!['p', 'e', 'e', 'r'];
        proof {
            assert(p@ =~= seq!['p', 'e', 'e', 'r']);
        }
        string_from_chars(p.as_slice())
    } else {
        string_from_chars(out.as_slice())
    }
}

// ---------------------------------------------------------------------
// Host names
// ---------------------------------------------------------------------

/// One name -> address mapping to publish.
#[derive(Debug, Clone)]
pub struct HostEntry {
    pub hostname: String,
    pub virtual_ip: Ipv4Addr,
    /// A peer's own name (as opposed to one of its services).
    pub is_peer_root: bool,
    /// The service's port, for a service name.
    pub port: Option<u16>,
}

pub struct HostEntryView {
    pub hostname: Seq<char>,
    pub virtual_ip: Ipv4Addr,
    pub is_peer_root: bool,
    pub port: Option<u16>,
}

pub open spec fn host_view(e: HostEntry) -> HostEntryView {
    HostEntryView {
        hostname: e.hostname@,
        virtual_ip: e.virtual_ip,
        is_peer_root: e.is_peer_root,
        port: e.port,
    }
}

pub open spec fn host_views(s: Seq<HostEntry>) -> Seq<HostEntryView> {
    Seq::new(s.len(), |i: int| host_view(s[i]))
}

/// One peer (or ourselves) as the naming rules see it: display name,
/// virtual IP and advertised services.
#[derive(Debug, Clone)]
pub struct PeerDomainInfo {
    pub name: String,
    pub virtual_ip: Ipv4Addr,
    pub services: Vec<(String, u16)>,
}

/// The domain-name sources a configuration alone gives: this machine
/// first, with the services it hosts, then each configured peer with no
/// services (other peers' services are only learned from gossip while the
/// mesh runs).
pub open spec fn config_infos_spec(cfg: Config, infos: Seq<PeerDomainInfo>) -> bool {
    &&& infos.len() == cfg.peers@.len() + 1
    &&& infos[0].name@ == cfg.me.name@
    &&& infos[0].virtual_ip == cfg.me.virtual_ip
    &&& service_views(infos[0].services@) == svc_views(cfg.services@)
    &&& forall|i: int|
        0 <= i < cfg.peers@.len() ==> {
            &&& (#[trigger] infos[i + 1]).name@ == cfg.peers@[i].name@
            &&& infos[i + 1].virtual_ip == cfg.peers@[i].virtual_ip
            &&& infos[i + 1].services@.len() == 0
        }
}

/// See `config_infos_spec`.
pub fn config_domain_infos(cfg: &Config) -> (infos: Vec<PeerDomainInfo>)
    ensures
        config_infos_spec(*cfg, infos@),
{
    let mut svcs: Vec<(String, u16)> = Vec::new();
    let mut k: usize = 0;
    while k < cfg.services.len()
        invariant
            k <= cfg.services@.len(),
            service_views(svcs@) == svc_views(cfg.services@).take(k as int),
        decreases cfg.services@.len() - k,
    {
        let ghost before = service_views(svcs@);
        svcs.push((cfg.services[k].name.clone(), cfg.services[k].port));
        assert(service_views(svcs@) =~= before.push((cfg.services@[k as int].name@, cfg.services@[k as int].port)));
        assert(svc_views(cfg.services@).take(k + 1) =~= svc_views(cfg.services@).take(k as int).push(
            svc_views(cfg.services@)[k as int],
        ));
        k = k + 1;
    }
    assert(svc_views(cfg.services@).take(k as int) =~= svc_views(cfg.services@));
    let mut infos: Vec<PeerDomainInfo> = Vec::new();
    infos.push(PeerDomainInfo { name: cfg.me.name.clone(), virtual_ip: cfg.me.virtual_ip, services: svcs });
    let mut i: usize = 0;
    while i < cfg.peers.len()
        invariant
            i <= cfg.peers@.len(),
            infos@.len() == i + 1,
            infos@[0].name@ == cfg.me.name@,
            infos@[0].virtual_ip == cfg.me.virtual_ip,
            service_views(infos@[0].services@) == svc_views(cfg.services@),
            forall|j: int|
                0 <= j < i ==> {
                    &&& (#[trigger] infos@[j + 1]).name@ == cfg.peers@[j].name@
                    &&& infos@[j + 1].virtual_ip == cfg.peers@[j].virtual_ip
                    &&& infos@[j + 1].services@.len() == 0
                },
        decreases cfg.peers@.len() - i,
    {
        infos.push(
            PeerDomainInfo {
                name: cfg.peers[i].name.clone(),
                virtual_ip: cfg.peers[i].virtual_ip,
                services: Vec::new(),
            },
        );
        i = i + 1;
    }
    infos
}

/// How many of the first `n` labels equal `x`.
pub open spec fn count_before(bases: Seq<Seq<char>>, x: Seq<char>, n: int) -> nat
    decreases n,
{
    if n <= 0 {
        0
    } else {
        count_before(bases, x, n - 1) + if bases[n - 1] == x {
            1nat
        } else {
            0nat
        }
    }
}

/// The label of the `i`-th peer: its sanitized name, or, when an earlier
/// peer already has that name, the name followed by `-` and the last
/// octet of its virtual IP (two "alice" become `alice` and `alice-12`).
pub open spec fn root_label(bases: Seq<Seq<char>>, ips: Seq<Ipv4Addr>, i: int) -> Seq<char> {
    if count_before(bases, bases[i], i) == 0 {
        bases[i]
    } else {
        bases[i] + seq!['-'] + dec_text(ips[i].d as nat)
    }
}

/// `label.suffix`, or the bare label when the suffix is empty.
pub open spec fn with_suffix(label: Seq<char>, suffix: Seq<char>) -> Seq<char> {
    if suffix.len() == 0 {
        label
    } else {
        label + seq!['.'] + suffix
    }
}

pub open spec fn name_bases(names: Seq<Seq<char>>) -> Seq<Seq<char>> {
    Seq::new(names.len(), |i: int| sanitize_spec(names[i]))
}

/// The host name of the `i`-th of the given peers.
pub open spec fn root_host(suffix: Seq<char>, names: Seq<Seq<char>>, ips: Seq<Ipv4Addr>, i: int) -> Seq<char> {
    with_suffix(root_label(name_bases(names), ips, i), suffix)
}

pub open spec fn pair_names(p: Seq<(String, Ipv4Addr)>) -> Seq<Seq<char>> {
    Seq::new(p.len(), |i: int| p[i].0@)
}

pub open spec fn pair_ips(p: Seq<(String, Ipv4Addr)>) -> Seq<Ipv4Addr> {
    Seq::new(p.len(), |i: int| p[i].1)
}

/// One root entry per peer, in order.
pub open spec fn host_entries(suffix: Seq<char>, names: Seq<Seq<char>>, ips: Seq<Ipv4Addr>) -> Seq<
    HostEntryView,
> {
    Seq::new(
        names.len(),
        |i: int|
            HostEntryView {
                hostname: root_host(suffix, names, ips, i),
                virtual_ip: ips[i],
                is_peer_root: true,
                port: None,
            },
    )
}

/// Appends `label.suffix` (or the bare label) to `out`.
fn push_with_suffix(out: &mut Vec<char>, suffix: &[char])
    ensures
        final(out)@ == with_suffix(old(out)@, suffix@),
{
    if suffix.len() > 0 {
        out.push('.');
        let mut k: usize = 0;
        let ghost base = out@;
        while k < suffix.len()
            invariant
                k <= suffix@.len(),
                out@ == base + suffix@.take(k as int),
            decreases suffix@.len() - k,
        {
            out.push(suffix[k]);
            proof {
                assert(out@ =~= base + suffix@.take(k + 1));
            }
            k = k + 1;
        }
        proof {
            assert(suffix@.take(k as int) =~= suffix@);
            assert(out@ =~= old(out)@ + seq!['.'] + suffix@);
        }
    }
}

/// Counts the labels among `bases` equal to `x`.
fn count_equal(bases: &Vec<Vec<char>>, x: &[char]) -> (n: usize)
    ensures
        n == count_before(Seq::new(bases@.len(), |i: int| bases@[i]@), x@, bases@.len() as int),
{
    let ghost bs = Seq::new(bases@.len(), |i: int| bases@[i]@);
    let mut n: usize = 0;
    let mut k: usize = 0;
    while k < bases.len()
        invariant
            k <= bases@.len(),
            bs == Seq::new(bases@.len(), |i: int| bases@[i]@),
            n == count_before(bs, x@, k as int),
            n <= k,
        decreases bases@.len() - k,
    {
        if chars_eq(bases[k].as_slice(), x) {
            n = n + 1;
        }
        k = k + 1;
    }
    n
}

/// Labels for a run of peers: computes the root label of each in turn.
struct LabelState {
    bases: Vec<Vec<char>>,
}

impl LabelState {
    /// The label of the next peer (`name`, `ip`), given the peers before.
    fn next_label(&mut self, name: &str, ip: Ipv4Addr, Ghost(names): Ghost<Seq<Seq<char>>>, Ghost(ips): Ghost<Seq<Ipv4Addr>>) -> (label: Vec<char>)
        requires
            old(self).bases@.len() < names.len(),
            names.len() == ips.len(),
            names[old(self).bases@.len() as int] == name@,
            ips[old(self).bases@.len() as int] == ip,
            forall|i: int|
                0 <= i < old(self).bases@.len() ==> #[trigger] old(self).bases@[i]@ == sanitize_spec(names[i]),
        ensures
            final(self).bases@.len() == old(self).bases@.len() + 1,
            forall|i: int|
                0 <= i < final(self).bases@.len() ==> #[trigger] final(self).bases@[i]@ == sanitize_spec(names[i]),
            label@ == root_label(name_bases(names), ips, old(self).bases@.len() as int),
    {
        let i = self.bases.len();
        let base_s = sanitize_label(name);
        let base = chars_of(base_s.as_str());
        let count = count_equal(&self.bases, base.as_slice());
        proof {
            let bs = name_bases(names);
            let cur = Seq::new(self.bases@.len(), |k: int| self.bases@[k]@);
            assert forall|n: int| 0 <= n <= i implies count_before(cur, base@, n) == count_before(bs, bs[i as int], n) by {
                lemma_count_prefix(cur, bs, base@, n);
            }
        }
        let mut label = base.clone();
        if count > 0 {
            label.push('-');
            push_decimal(&mut label, ip.d as u64);
        }
        self.bases.push(base);
        label
    }
}

proof fn lemma_count_prefix(a: Seq<Seq<char>>, b: Seq<Seq<char>>, x: Seq<char>, n: int)
    requires
        0 <= n <= a.len(),
        n <= b.len(),
        forall|k: int| 0 <= k < n ==> a[k] == b[k],
    ensures
        count_before(a, x, n) == count_before(b, x, n),
    decreases n,
{
    if n > 0 {
        lemma_count_prefix(a, b, x, n - 1);
    }
}

/// Builds the host names for the given (display name, virtual IP) pairs,
/// with `suffix` applied; see `host_entries`. A naming collision never
/// drops an entry.
pub fn build_entries(suffix: &str, peers: &[(String, Ipv4Addr)]) -> (res: Vec<HostEntry>)
    ensures
        host_views(res@) == host_entries(suffix@, pair_names(peers@), pair_ips(peers@)),
{
    let ghost names = pair_names(peers@);
    let ghost ips = pair_ips(peers@);
    let suffix_chars = chars_of(suffix);
    let mut st = LabelState { bases: Vec::new() };
    let mut out: Vec<HostEntry> = Vec::new();
    let mut i: usize = 0;
    while i < peers.len()
        invariant
            i <= peers@.len(),
            names == pair_names(peers@),
            ips == pair_ips(peers@),
            suffix_chars@ == suffix@,
            st.bases@.len() == i,
            forall|k: int| 0 <= k < i ==> #[trigger] st.bases@[k]@ == sanitize_spec(names[k]),
            host_views(out@) == host_entries(suffix@, names, ips).take(i as int),
        decreases peers@.len() - i,
    {
        let mut label = st.next_label(peers[i].0.as_str(), peers[i].1, Ghost(names), Ghost(ips));
        push_with_suffix(&mut label, suffix_chars.as_slice());
        let e = HostEntry {
            hostname: string_from_chars(label.as_slice()),
            virtual_ip: peers[i].1,
            is_peer_root: true,
            port: None,
        };
        let ghost before = host_views(out@);
        out.push(e);
        proof {
            assert(host_views(out@) =~= before.push(host_view(e)));
            assert(host_view(e) == host_entries(suffix@, names, ips)[i as int]);
            assert(host_views(out@) =~= host_entries(suffix@, names, ips).take(i + 1));
        }
        i = i + 1;
    }
    proof {
        assert(host_entries(suffix@, names, ips).take(i as int) =~= host_entries(suffix@, names, ips));
    }
    out
}

pub open spec fn info_names(infos: Seq<PeerDomainInfo>) -> Seq<Seq<char>> {
    Seq::new(infos.len(), |i: int| infos[i].name@)
}

pub open spec fn info_ips(infos: Seq<PeerDomainInfo>) -> Seq<Ipv4Addr> {
    Seq::new(infos.len(), |i: int| infos[i].virtual_ip)
}

/// One entry per service, named `<service label>.<root host>`.
pub open spec fn service_hosts(root: Seq<char>, ip: Ipv4Addr, svcs: Seq<(Seq<char>, u16)>) -> Seq<HostEntryView> {
    Seq::new(
        svcs.len(),
        |k: int|
            HostEntryView {
                hostname: sanitize_spec(svcs[k].0) + seq!['.'] + root,
                virtual_ip: ip,
                is_peer_root: false,
                port: Some(svcs[k].1),
            },
    )
}

/// The names of the first `n` peers: each peer's root name (as
/// `build_entries` gives it) followed by its service names.
pub open spec fn domain_entries(suffix: Seq<char>, infos: Seq<PeerDomainInfo>, n: int) -> Seq<HostEntryView>
    decreases n,
{
    if n <= 0 {
        Seq::empty()
    } else {
        let i = n - 1;
        let root = root_host(suffix, info_names(infos), info_ips(infos), i);
        domain_entries(suffix, infos, i) + seq![
            HostEntryView { hostname: root, virtual_ip: infos[i].virtual_ip, is_peer_root: true, port: None },
        ] + service_hosts(root, infos[i].virtual_ip, service_views(infos[i].services@))
    }
}

/// Builds every local domain name: for each peer (ourselves included) its
/// root name and `<service>.<root name>` for each service it advertises;
/// see `domain_entries`.
pub fn build_entries_with_services(suffix: &str, infos: &[PeerDomainInfo]) -> (res: Vec<HostEntry>)
    ensures
        host_views(res@) == domain_entries(suffix@, infos@, infos@.len() as int),
{
    let ghost names = info_names(infos@);
    let ghost ips = info_ips(infos@);
    let suffix_chars = chars_of(suffix);
    let mut st = LabelState { bases: Vec::new() };
    let mut out: Vec<HostEntry> = Vec::new();
    let mut i: usize = 0;
    while i < infos.len()
        invariant
            i <= infos@.len(),
            names == info_names(infos@),
            ips == info_ips(infos@),
            suffix_chars@ == suffix@,
            st.bases@.len() == i,
            forall|k: int| 0 <= k < i ==> #[trigger] st.bases@[k]@ == sanitize_spec(names[k]),
            host_views(out@) == domain_entries(suffix@, infos@, i as int),
        decreases infos@.len() - i,
    {
        let info = &infos[i];
        let mut root = st.next_label(info.name.as_str(), info.virtual_ip, Ghost(names), Ghost(ips));
        push_with_suffix(&mut root, suffix_chars.as_slice());
        let ghost root_v = root@;
        let ghost before = host_views(out@);
        out.push(
            HostEntry {
                hostname: string_from_chars(root.as_slice()),
                virtual_ip: info.virtual_ip,
                is_peer_root: true,
                port: None,
            },
        );
        let ghost mid = host_views(out@);
        let ghost svcs = service_views(info.services@);
        let mut k: usize = 0;
        while k < info.services.len()
            invariant
                k <= info.services@.len(),
                svcs == service_views(info.services@),
                root@ == root_v,
                host_views(out@) == mid + service_hosts(root_v, info.virtual_ip, svcs).take(k as int),
            decreases info.services@.len() - k,
        {
            let label = sanitize_label(info.services[k].0.as_str());
            let mut host = chars_of(label.as_str());
            host.push('.');
            let mut r: usize = 0;
            let ghost hb = host@;
            while r < root.len()
                invariant
                    r <= root@.len(),
                    host@ == hb + root@.take(r as int),
                decreases root@.len() - r,
            {
                host.push(root[r]);
                proof {
                    assert(host@ =~= hb + root@.take(r + 1));
                }
                r = r + 1;
            }
            proof {
                assert(root@.take(r as int) =~= root@);
            }
            let e = HostEntry {
                hostname: string_from_chars(host.as_slice()),
                virtual_ip: info.virtual_ip,
                is_peer_root: false,
                port: Some(info.services[k].1),
            };
            let ghost before = host_views(out@);
            out.push(e);
            proof {
                assert(host_views(out@) =~= before.push(host_view(e)));
                assert(svcs[k as int].0 == info.services@[k as int].0@);
                assert(host@ =~= sanitize_spec(svcs[k as int].0) + seq!['.'] + root_v);
                assert(host_view(e) == service_hosts(root_v, info.virtual_ip, svcs)[k as int]);
                assert(host_views(out@) =~= mid + service_hosts(root_v, info.virtual_ip, svcs).take(k + 1));
            }
            k = k + 1;
        }
        proof {
            assert(service_hosts(root_v, info.virtual_ip, svcs).take(k as int) =~= service_hosts(root_v, info.virtual_ip, svcs));
            assert(root_v == root_host(suffix@, names, ips, i as int));
            assert(host_views(out@) =~= domain_entries(suffix@, infos@, i + 1));
        }
        i = i + 1;
    }
    out
}

// ---------------------------------------------------------------------
// The managed block of the hosts file
// ---------------------------------------------------------------------

pub const BEGIN_MARKER: &'static str = "# >>> lan_mesh managed block -- do not edit by hand >>>";

pub const END_MARKER: &'static str = "# <<< lan_mesh managed block <<<";

pub const BLOCK_NOTE: &'static str = "# Managed automatically by lan_mesh -- edits here will be overwritten.";

/// The hosts file of this system.
pub fn hosts_file_path() -> (p: String)
    ensures
        p@ == "/etc/hosts"@,
{
    "/etc/hosts".to_owned()
}

/// One hosts-file line: `<ip><TAB><hostname>`.
pub open spec fn entry_line(e: HostEntryView) -> Seq<char> {
    ipv4_text(e.virtual_ip) + seq!['\t'] + e.hostname
}

/// The managed block: begin marker, note, one line per entry, end marker.
pub open spec fn block_lines(es: Seq<HostEntryView>) -> Seq<Seq<char>> {
    seq![BEGIN_MARKER@, BLOCK_NOTE@] + Seq::new(es.len(), |i: int| entry_line(es[i])) + seq![END_MARKER@]
}

/// One line of the existing file: a (trimmed) begin marker is replaced
/// by the fresh block and opens the old block; a (trimmed) end marker
/// closes it; lines inside the old block are dropped; every other line
/// is kept. The state is (lines so far, inside the old block, block
/// written).
pub open spec fn splice_step(st: (Seq<Seq<char>>, bool, bool), line: Seq<char>, block: Seq<Seq<char>>) -> (
    Seq<Seq<char>>,
    bool,
    bool,
) {
    if trim(line) == BEGIN_MARKER@ {
        (st.0 + block, true, true)
    } else if trim(line) == END_MARKER@ {
        (st.0, false, st.2)
    } else if st.1 {
        st
    } else {
        (st.0.push(line), st.1, st.2)
    }
}

pub open spec fn splice_scan(lines: Seq<Seq<char>>, block: Seq<Seq<char>>) -> (Seq<Seq<char>>, bool, bool)
    decreases lines.len(),
{
    if lines.len() == 0 {
        (Seq::empty(), false, false)
    } else {
        splice_step(splice_scan(lines.drop_last(), block), lines.last(), block)
    }
}

/// The hosts file after syncing the managed block to `es`: every line of
/// `existing` outside the old block kept in place, the fresh block where
/// the old one began, or, when there was none, appended at the end after
/// a blank line (unless the file already ends with one); lines joined by
/// `\n` with a final `\n`.
pub open spec fn hosts_text(existing: Seq<char>, es: Seq<HostEntryView>) -> Seq<char> {
    let block = block_lines(es);
    let (out, _, replaced) = splice_scan(text_lines(existing), block);
    let all = if replaced {
        out
    } else {
        (if out.len() > 0 && out.last().len() > 0 {
            out.push(Seq::empty())
        } else {
            out
        }) + block
    };
    join_with(all, seq!['\n']) + seq!['\n']
}

fn append_chars(out: &mut Vec<Vec<char>>, line: Vec<char>)
    ensures
        Seq::new(final(out)@.len(), |i: int| final(out)@[i]@) == Seq::new(old(out)@.len(), |i: int| old(out)@[i]@).push(line@),
{
    let ghost before = Seq::new(out@.len(), |i: int| out@[i]@);
    out.push(line);
    proof {
        assert(Seq::new(out@.len(), |i: int| out@[i]@) =~= before.push(line@));
    }
}

pub open spec fn line_views(v: Seq<Vec<char>>) -> Seq<Seq<char>> {
    Seq::new(v.len(), |i: int| v[i]@)
}

/// The managed block's lines for `entries`.
fn block_for(entries: &[HostEntry]) -> (res: Vec<Vec<char>>)
    ensures
        line_views(res@) == block_lines(host_views(entries@)),
{
    let ghost es = host_views(entries@);
    let mut res: Vec<Vec<char>> = Vec::new();
    append_chars(&mut res, chars_of(BEGIN_MARKER));
    append_chars(&mut res, chars_of(BLOCK_NOTE));
    let mut i: usize = 0;
    while i < entries.len()
        invariant
            i <= entries@.len(),
            es == host_views(entries@),
            line_views(res@) == seq![BEGIN_MARKER@, BLOCK_NOTE@] + Seq::new(i as nat, |k: int| entry_line(es[k])),
        decreases entries@.len() - i,
    {
        let mut line: Vec<char> = Vec::new();
        push_ipv4(&mut line, entries[i].virtual_ip);
        line.push('\t');
        let h = chars_of(entries[i].hostname.as_str());
        let mut k: usize = 0;
        let ghost lb = line@;
        while k < h.len()
            invariant
                k <= h@.len(),
                line@ == lb + h@.take(k as int),
            decreases h@.len() - k,
        {
            line.push(h[k]);
            proof {
                assert(line@ =~= lb + h@.take(k + 1));
            }
            k = k + 1;
        }
        proof {
            assert(h@.take(k as int) =~= h@);
            assert(line@ =~= entry_line(es[i as int]));
        }
        append_chars(&mut res, line);
        proof {
            assert(line_views(res@) =~= seq![BEGIN_MARKER@, BLOCK_NOTE@] + Seq::new((i + 1) as nat, |k: int| entry_line(es[k])));
        }
        i = i + 1;
    }
    append_chars(&mut res, chars_of(END_MARKER));
    proof {
        assert(line_views(res@) =~= block_lines(es));
    }
    res
}

/// Appends clones of every line of `block` to `out`.
fn append_block(out: &mut Vec<Vec<char>>, block: &Vec<Vec<char>>)
    ensures
        line_views(final(out)@) == line_views(old(out)@) + line_views(block@),
{
    let ghost base = line_views(out@);
    let mut i: usize = 0;
    while i < block.len()
        invariant
            i <= block@.len(),
            line_views(out@) == base + line_views(block@).take(i as int),
        decreases block@.len() - i,
    {
        let ghost before = line_views(out@);
        out.push(block[i].clone());
        proof {
            assert(line_views(out@) =~= before.push(block@[i as int]@));
            assert(line_views(out@) =~= base + line_views(block@).take(i + 1));
        }
        i = i + 1;
    }
    proof {
        assert(line_views(block@).take(i as int) =~= line_views(block@));
    }
}

/// The hosts file text with its managed block synced to `entries`; see
/// `hosts_text`. Writing it back (atomically) is the caller's job.
pub fn splice_hosts_block(existing: &str, entries: &[HostEntry]) -> (res: String)
    ensures
        res@ == hosts_text(existing@, host_views(entries@)),
{
    let block = block_for(entries);
    let ex = chars_of(existing);
    let lines = lines_of(ex.as_slice());
    let begin = chars_of(BEGIN_MARKER);
    let end = chars_of(END_MARKER);
    let ghost ls = text_lines(existing@);
    let ghost bl = block_lines(host_views(entries@));
    let mut out: Vec<Vec<char>> = Vec::new();
    let mut in_block = false;
    let mut replaced = false;
    let mut i: usize = 0;
    proof {
        assert(line_views(lines@) =~= ls);
    }
    while i < lines.len()
        invariant
            i <= lines@.len(),
            ls == text_lines(existing@),
            line_views(lines@) == ls,
            bl == block_lines(host_views(entries@)),
            line_views(block@) == bl,
            begin@ == BEGIN_MARKER@,
            end@ == END_MARKER@,
            (line_views(out@), in_block, replaced) == splice_scan(ls.take(i as int), bl),
        decreases lines@.len() - i,
    {
        proof {
            assert(ls.take(i + 1).drop_last() =~= ls.take(i as int));
            assert(ls.take(i + 1).last() == lines@[i as int]@);
        }
        let t = trim_chars(lines[i].as_slice());
        if chars_eq(t.as_slice(), begin.as_slice()) {
            in_block = true;
            replaced = true;
            append_block(&mut out, &block);
        } else if chars_eq(t.as_slice(), end.as_slice()) {
            in_block = false;
        } else if !in_block {
            let ghost before = line_views(out@);
            out.push(lines[i].clone());
            proof {
                assert(line_views(out@) =~= before.push(lines@[i as int]@));
            }
        }
        i = i + 1;
    }
    proof {
        assert(ls.take(i as int) =~= ls);
    }
    if !replaced {
        if out.len() > 0 && out[out.len() - 1].len() > 0 {
            let ghost before = line_views(out@);
            out.push(Vec::new());
            proof {
                assert(line_views(out@) =~= before.push(Seq::<char>::empty()));
            }
        }
        append_block(&mut out, &block);
    }
    let mut content = join_lines(&out, &['\n']);
    content.push('\n');
    proof {
        assert(seq!['\n'] == (&['\n'])@) by {
            assert((&['\n'])@ =~= seq!['\n']);
        }
    }
    string_from_chars(content.as_slice())
}

/// The lines of a hosts file outside the managed block, with a flag for
/// being inside it: a (trimmed) begin marker opens the block, a (trimmed)
/// end marker closes it; both markers and every line inside the block are
/// dropped, every other line is kept in order.
pub open spec fn outside_scan(lines: Seq<Seq<char>>) -> (Seq<Seq<char>>, bool)
    decreases lines.len(),
{
    if lines.len() == 0 {
        (Seq::empty(), false)
    } else {
        let (out, inside) = outside_scan(lines.drop_last());
        let l = lines.last();
        if trim(l) == BEGIN_MARKER@ {
            (out, true)
        } else if trim(l) == END_MARKER@ {
            (out, false)
        } else if inside {
            (out, inside)
        } else {
            (out.push(l), inside)
        }
    }
}

/// The lines outside the managed block; see `outside_scan`.
pub open spec fn outside_block_lines(lines: Seq<Seq<char>>) -> Seq<Seq<char>> {
    outside_scan(lines).0
}

/// Some line is a marker of the managed block.
pub open spec fn has_marker_line(lines: Seq<Seq<char>>) -> bool {
    exists|i: int| 0 <= i < lines.len() && is_marker(#[trigger] lines[i])
}

/// The hosts file with the managed block removed entirely: a file with no
/// marker line is left as it is; otherwise its lines outside the block
/// (see `outside_block_lines`), joined by `\n` with a final `\n`, or
/// nothing when no line is left.
pub open spec fn without_block(existing: Seq<char>) -> Seq<char> {
    let ls = text_lines(existing);
    if !has_marker_line(ls) {
        existing
    } else {
        let kept = outside_block_lines(ls);
        if kept.len() == 0 {
            Seq::empty()
        } else {
            join_with(kept, seq!['\n']) + seq!['\n']
        }
    }
}

proof fn lemma_has_marker_push(ls: Seq<Seq<char>>, l: Seq<char>)
    ensures
        has_marker_line(ls.push(l)) == (has_marker_line(ls) || is_marker(l)),
{
    let m = ls.push(l);
    if has_marker_line(ls) {
        let i = choose|i: int| 0 <= i < ls.len() && is_marker(#[trigger] ls[i]);
        assert(m[i] == ls[i]);
    }
    if is_marker(l) {
        assert(m[ls.len() as int] == l);
    }
    if has_marker_line(m) {
        let i = choose|i: int| 0 <= i < m.len() && is_marker(#[trigger] m[i]);
        if i < ls.len() {
            assert(m[i] == ls[i]);
        }
    }
}

/// The hosts file text with the managed block removed: what is written
/// when the mesh stops managing names; see `without_block`.
pub fn remove_block(existing: &str) -> (res: String)
    ensures
        res@ == without_block(existing@),
{
    let ex = chars_of(existing);
    let lines = lines_of(ex.as_slice());
    let begin = chars_of(BEGIN_MARKER);
    let end = chars_of(END_MARKER);
    let ghost ls = text_lines(existing@);
    let mut out: Vec<Vec<char>> = Vec::new();
    let mut inside = false;
    let mut marked = false;
    let mut i: usize = 0;
    proof {
        assert(line_views(lines@) =~= ls);
        assert(ls.take(0) =~= Seq::<Seq<char>>::empty());
    }
    while i < lines.len()
        invariant
            i <= lines@.len(),
            ls == text_lines(existing@),
            line_views(lines@) == ls,
            begin@ == BEGIN_MARKER@,
            end@ == END_MARKER@,
            (line_views(out@), inside) == outside_scan(ls.take(i as int)),
            marked == has_marker_line(ls.take(i as int)),
        decreases lines@.len() - i,
    {
        proof {
            assert(ls.take(i + 1).drop_last() =~= ls.take(i as int));
            assert(ls.take(i + 1).last() == lines@[i as int]@);
            assert(ls.take(i + 1) =~= ls.take(i as int).push(lines@[i as int]@));
            lemma_has_marker_push(ls.take(i as int), lines@[i as int]@);
        }
        let t = trim_chars(lines[i].as_slice());
        if chars_eq(t.as_slice(), begin.as_slice()) {
            inside = true;
            marked = true;
        } else if chars_eq(t.as_slice(), end.as_slice()) {
            inside = false;
            marked = true;
        } else if !inside {
            let ghost before = line_views(out@);
            out.push(lines[i].clone());
            proof {
                assert(line_views(out@) =~= before.push(lines@[i as int]@));
            }
        }
        i = i + 1;
    }
    proof {
        assert(ls.take(i as int) =~= ls);
    }
    if !marked {
        return string_from_chars(ex.as_slice());
    }
    if out.len() == 0 {
        let none: Vec<char> = Vec::new();
        return string_from_chars(none.as_slice());
    }
    let mut content = join_lines(&out, &['\n']);
    content.push('\n');
    proof {
        assert(seq!['\n'] == (&['\n'])@) by {
            assert((&['\n'])@ =~= seq!['\n']);
        }
    }
    string_from_chars(content.as_slice())
}

// ---------------------------------------------------------------------
// Laws of syncing
// ---------------------------------------------------------------------

/// A line that syncing treats as a marker of the managed block.
pub open spec fn is_marker(l: Seq<char>) -> bool {
    trim(l) == BEGIN_MARKER@ || trim(l) == END_MARKER@
}

/// The scan of `lines` from state `st` (`splice_scan` starts from the
/// empty state).
pub open spec fn scan_from(st: (Seq<Seq<char>>, bool, bool), lines: Seq<Seq<char>>, block: Seq<Seq<char>>) -> (
    Seq<Seq<char>>,
    bool,
    bool,
)
    decreases lines.len(),
{
    if lines.len() == 0 {
        st
    } else {
        splice_step(scan_from(st, lines.drop_last(), block), lines.last(), block)
    }
}

proof fn lemma_scan_from_empty(lines: Seq<Seq<char>>, block: Seq<Seq<char>>)
    ensures
        splice_scan(lines, block) == scan_from((Seq::empty(), false, false), lines, block),
    decreases lines.len(),
{
    if lines.len() > 0 {
        lemma_scan_from_empty(lines.drop_last(), block);
    }
}

proof fn lemma_scan_from_concat(
    st: (Seq<Seq<char>>, bool, bool),
    a: Seq<Seq<char>>,
    b: Seq<Seq<char>>,
    block: Seq<Seq<char>>,
)
    ensures
        scan_from(st, a + b, block) == scan_from(scan_from(st, a, block), b, block),
    decreases b.len(),
{
    if b.len() == 0 {
        assert(a + b =~= a);
    } else {
        lemma_scan_from_concat(st, a, b.drop_last(), block);
        assert((a + b).drop_last() =~= a + b.drop_last());
        assert((a + b).last() == b.last());
    }
}

proof fn lemma_scan_one(st: (Seq<Seq<char>>, bool, bool), l: Seq<char>, block: Seq<Seq<char>>)
    ensures
        scan_from(st, seq![l], block) == splice_step(st, l, block),
{
    assert(seq![l].drop_last() =~= Seq::<Seq<char>>::empty());
    assert(scan_from(st, Seq::<Seq<char>>::empty(), block) == st);
    assert(seq![l].last() == l);
}

/// Inside a block, lines that are not markers are skipped.
proof fn lemma_scan_skips(st: (Seq<Seq<char>>, bool, bool), ls: Seq<Seq<char>>, block: Seq<Seq<char>>)
    requires
        st.1,
        forall|i: int| 0 <= i < ls.len() ==> !is_marker(#[trigger] ls[i]),
    ensures
        scan_from(st, ls, block) == st,
    decreases ls.len(),
{
    if ls.len() > 0 {
        lemma_scan_skips(st, ls.drop_last(), block);
        assert(!is_marker(ls[ls.len() - 1]));
    }
}

/// Outside a block, lines that are not markers are kept.
proof fn lemma_scan_keeps(st: (Seq<Seq<char>>, bool, bool), ls: Seq<Seq<char>>, block: Seq<Seq<char>>)
    requires
        !st.1,
        forall|i: int| 0 <= i < ls.len() ==> !is_marker(#[trigger] ls[i]),
    ensures
        scan_from(st, ls, block) == (st.0 + ls, false, st.2),
    decreases ls.len(),
{
    if ls.len() == 0 {
        assert(st.0 + ls =~= st.0);
    } else {
        lemma_scan_keeps(st, ls.drop_last(), block);
        assert(!is_marker(ls[ls.len() - 1]));
        assert(st.0 + ls.drop_last() + seq![ls.last()] =~= st.0 + ls);
    }
}

proof fn lemma_marker_texts()
    ensures
        trim(BEGIN_MARKER@) == BEGIN_MARKER@,
        trim(END_MARKER@) == END_MARKER@,
        BEGIN_MARKER@ != END_MARKER@,
        BEGIN_MARKER@.len() > 0 && BEGIN_MARKER@[0] == '#',
        END_MARKER@.len() > 0 && END_MARKER@[0] == '#',
        !is_marker(BLOCK_NOTE@),
        plain_line(BEGIN_MARKER@),
        plain_line(END_MARKER@),
        plain_line(BLOCK_NOTE@),
{
    reveal_strlit("# >>> lan_mesh managed block -- do not edit by hand >>>");
    reveal_strlit("# <<< lan_mesh managed block <<<");
    reveal_strlit("# Managed automatically by lan_mesh -- edits here will be overwritten.");
    lemma_trim_noop(BEGIN_MARKER@);
    lemma_trim_noop(END_MARKER@);
    lemma_trim_noop(BLOCK_NOTE@);
    assert(BEGIN_MARKER@[2] != END_MARKER@[2]);
    assert(BLOCK_NOTE@[2] != BEGIN_MARKER@[2]);
    assert(BLOCK_NOTE@[2] != END_MARKER@[2]);
}

/// A line starting with a digit is no marker.
proof fn lemma_digit_line_not_marker(l: Seq<char>)
    requires
        l.len() > 0,
        crate::text::is_ascii_digit(l[0]),
    ensures
        !is_marker(l),
{
    lemma_marker_texts();
    assert(trim_start(l) == l);
    lemma_trim_end_prefix(l);
    let t = trim(l);
    if t.len() > 0 {
        assert(t[0] == l[0]);
    }
}

/// A host name that reads back from the file: no line break in it and
/// no `\r` at its end.
pub open spec fn plain_hostname(h: Seq<char>) -> bool {
    plain_line(h)
}

proof fn lemma_entry_line_facts(e: HostEntryView)
    requires
        plain_hostname(e.hostname),
    ensures
        !is_marker(entry_line(e)),
        plain_line(entry_line(e)),
{
    let l = entry_line(e);
    let t = ipv4_text(e.virtual_ip);
    crate::net::lemma_ipv4_text_roundtrip(e.virtual_ip);
    crate::net::lemma_dec_text_digits(e.virtual_ip.a as nat);
    assert(t[0] == dec_text(e.virtual_ip.a as nat)[0]);
    assert(crate::text::is_ascii_digit(dec_text(e.virtual_ip.a as nat)[0]));
    assert(l[0] == t[0]);
    lemma_digit_line_not_marker(l);
    assert forall|j: int| 0 <= j < l.len() implies l[j] != '\n' by {
        if j < t.len() {
            assert(l[j] == t[j]);
            lemma_ipv4_text_chars(e.virtual_ip, j);
        } else if j > t.len() {
            assert(l[j] == e.hostname[j - t.len() - 1]);
        }
    }
    if e.hostname.len() > 0 {
        assert(l.last() == e.hostname.last());
    }
}

/// The dotted text of an address holds digits and dots only.
proof fn lemma_ipv4_text_chars(ip: Ipv4Addr, j: int)
    requires
        0 <= j < ipv4_text(ip).len(),
    ensures
        ipv4_text(ip)[j] != '\n',
{
    let ta = dec_text(ip.a as nat);
    let tb = dec_text(ip.b as nat);
    let tc = dec_text(ip.c as nat);
    let td = dec_text(ip.d as nat);
    crate::net::lemma_dec_text_digits(ip.a as nat);
    crate::net::lemma_dec_text_digits(ip.b as nat);
    crate::net::lemma_dec_text_digits(ip.c as nat);
    crate::net::lemma_dec_text_digits(ip.d as nat);
    let t = ipv4_text(ip);
    if j < ta.len() {
        assert(t[j] == ta[j]);
    } else if j == ta.len() {
    } else if j < ta.len() + 1 + tb.len() {
        assert(t[j] == tb[j - ta.len() - 1]);
    } else if j == ta.len() + 1 + tb.len() {
    } else if j < ta.len() + 2 + tb.len() + tc.len() {
        assert(t[j] == tc[j - ta.len() - 2 - tb.len()]);
    } else if j == ta.len() + 2 + tb.len() + tc.len() {
    } else {
        assert(t[j] == td[j - ta.len() - 3 - tb.len() - tc.len()]);
    }
}

/// Scanning a fresh block from outside any block: it is kept whole, and
/// the scan ends outside it with a block written.
proof fn lemma_scan_block(st: (Seq<Seq<char>>, bool, bool), es: Seq<HostEntryView>)
    requires
        !st.1,
        forall|i: int| 0 <= i < es.len() ==> plain_hostname(#[trigger] es[i].hostname),
    ensures
        scan_from(st, block_lines(es), block_lines(es)) == (st.0 + block_lines(es), false, true),
{
    let block = block_lines(es);
    let mid = seq![BLOCK_NOTE@] + Seq::new(es.len(), |i: int| entry_line(es[i]));
    lemma_marker_texts();
    assert forall|i: int| 0 <= i < mid.len() implies !is_marker(#[trigger] mid[i]) by {
        if i > 0 {
            assert(mid[i] == entry_line(es[i - 1]));
            lemma_entry_line_facts(es[i - 1]);
        }
    }
    assert(block =~= seq![BEGIN_MARKER@] + mid + seq![END_MARKER@]);
    lemma_scan_from_concat(st, seq![BEGIN_MARKER@] + mid, seq![END_MARKER@], block);
    lemma_scan_from_concat(st, seq![BEGIN_MARKER@], mid, block);
    let s1 = scan_from(st, seq![BEGIN_MARKER@], block);
    lemma_scan_one(st, BEGIN_MARKER@, block);
    assert(s1 == (st.0 + block, true, true));
    lemma_scan_skips(s1, mid, block);
    lemma_scan_one(s1, END_MARKER@, block);
}

/// What the first sync writes scans, on the next sync, to itself: every
/// line it kept is outside a block and no marker, and every block it
/// wrote is whole.
proof fn lemma_sync_output_rescans(lines: Seq<Seq<char>>, es: Seq<HostEntryView>)
    requires
        forall|i: int| 0 <= i < es.len() ==> plain_hostname(#[trigger] es[i].hostname),
    ensures
        scan_from((Seq::empty(), false, false), splice_scan(lines, block_lines(es)).0, block_lines(es))
            == (splice_scan(lines, block_lines(es)).0, false, splice_scan(lines, block_lines(es)).2),
    decreases lines.len(),
{
    let block = block_lines(es);
    let e0: (Seq<Seq<char>>, bool, bool) = (Seq::empty(), false, false);
    if lines.len() == 0 {
    } else {
        lemma_sync_output_rescans(lines.drop_last(), es);
        let st = splice_scan(lines.drop_last(), block);
        let l = lines.last();
        if trim(l) == BEGIN_MARKER@ {
            lemma_scan_from_concat(e0, st.0, block, block);
            lemma_scan_block((st.0, false, st.2), es);
        } else if trim(l) == END_MARKER@ {
        } else if st.1 {
        } else {
            lemma_scan_from_concat(e0, st.0, seq![l], block);
            lemma_scan_one((st.0, false, st.2), l, block);
            assert(st.0 + seq![l] =~= st.0.push(l));
        }
    }
}

/// The lines the first sync joins into the file.
pub open spec fn synced_lines(existing: Seq<char>, es: Seq<HostEntryView>) -> Seq<Seq<char>> {
    let block = block_lines(es);
    let (out, _, replaced) = splice_scan(text_lines(existing), block);
    if replaced {
        out
    } else {
        (if out.len() > 0 && out.last().len() > 0 {
            out.push(Seq::empty())
        } else {
            out
        }) + block
    }
}

proof fn lemma_synced_lines_plain(existing: Seq<char>, es: Seq<HostEntryView>)
    requires
        forall|i: int| 0 <= i < text_lines(existing).len() ==> plain_line(#[trigger] text_lines(existing)[i]),
        forall|i: int| 0 <= i < es.len() ==> plain_hostname(#[trigger] es[i].hostname),
    ensures
        forall|i: int| 0 <= i < synced_lines(existing, es).len() ==> plain_line(
            #[trigger] synced_lines(existing, es)[i],
        ),
        synced_lines(existing, es).len() >= 1,
{
    let block = block_lines(es);
    lemma_marker_texts();
    assert forall|i: int| 0 <= i < block.len() implies plain_line(#[trigger] block[i]) by {
        if 2 <= i < block.len() - 1 {
            assert(block[i] == entry_line(es[i - 2]));
            lemma_entry_line_facts(es[i - 2]);
        }
    }
    lemma_out_lines_from(text_lines(existing), block);
    let (out, _, replaced) = splice_scan(text_lines(existing), block);
    let all = synced_lines(existing, es);
    if replaced {
        lemma_replaced_nonempty(text_lines(existing), block);
    } else {
        let pre = if out.len() > 0 && out.last().len() > 0 {
            out.push(Seq::empty())
        } else {
            out
        };
        assert forall|i: int| 0 <= i < all.len() implies plain_line(#[trigger] all[i]) by {
            if i < pre.len() {
                assert(all[i] == pre[i]);
                if i < out.len() {
                    assert(pre[i] == out[i]);
                } else {
                    assert(pre[i] =~= Seq::<char>::empty());
                }
            } else {
                assert(all[i] == block[i - pre.len()]);
            }
        }
    }
}

/// Every line a scan outputs is a kept input line or a block line.
proof fn lemma_out_lines_from(lines: Seq<Seq<char>>, block: Seq<Seq<char>>)
    ensures
        forall|i: int|
            0 <= i < splice_scan(lines, block).0.len() ==> (lines.contains(
                #[trigger] splice_scan(lines, block).0[i],
            ) || block.contains(splice_scan(lines, block).0[i])),
    decreases lines.len(),
{
    if lines.len() > 0 {
        lemma_out_lines_from(lines.drop_last(), block);
        let st = splice_scan(lines.drop_last(), block);
        let r = splice_scan(lines, block);
        assert forall|i: int| 0 <= i < r.0.len() implies (lines.contains(#[trigger] r.0[i]) || block.contains(
            r.0[i],
        )) by {
            if i < st.0.len() {
                assert(r.0[i] == st.0[i]);
                if lines.drop_last().contains(st.0[i]) {
                    let k = choose|k: int| 0 <= k < lines.drop_last().len() && lines.drop_last()[k] == st.0[i];
                    assert(lines[k] == st.0[i]);
                }
            } else if trim(lines.last()) == BEGIN_MARKER@ {
                assert(r.0[i] == block[i - st.0.len()]);
            } else {
                assert(r.0[i] == lines.last());
                assert(lines[lines.len() - 1] == lines.last());
            }
        }
    }
}

/// A scan that wrote a block output at least one line.
proof fn lemma_replaced_nonempty(lines: Seq<Seq<char>>, block: Seq<Seq<char>>)
    requires
        block.len() > 0,
    ensures
        splice_scan(lines, block).2 ==> splice_scan(lines, block).0.len() > 0,
    decreases lines.len(),
{
    if lines.len() > 0 {
        lemma_replaced_nonempty(lines.drop_last(), block);
    }
}

/// Syncing the same names twice gives the file the first sync gave:
/// the managed block is rewritten in place and nothing else moves. This
/// holds for any file (`\r\n` line endings and marker lines included)
/// whose lines, as read, do not end in a stray `\r` (as `a\r\r\n` or a
/// final unterminated `a\r` do: written back, such a line reads back
/// shorter), and for host names without a line break or final `\r`.
pub proof fn lemma_sync_idempotent(existing: Seq<char>, es: Seq<HostEntryView>)
    requires
        forall|i: int|
            0 <= i < text_lines(existing).len() ==> !(#[trigger] text_lines(existing)[i].len() > 0
                && text_lines(existing)[i].last() == '\r'),
        forall|i: int| 0 <= i < es.len() ==> plain_hostname(#[trigger] es[i].hostname),
    ensures
        hosts_text(hosts_text(existing, es), es) == hosts_text(existing, es),
{
    lemma_text_lines_no_newline(existing);
    assert forall|i: int| 0 <= i < text_lines(existing).len() implies plain_line(
        #[trigger] text_lines(existing)[i],
    ) by {
        assert(!(text_lines(existing)[i].len() > 0 && text_lines(existing)[i].last() == '\r'));
    }
    let block = block_lines(es);
    let all = synced_lines(existing, es);
    lemma_synced_lines_plain(existing, es);
    assert(hosts_text(existing, es) == join_with(all, seq!['\n']) + seq!['\n']);
    lemma_lines_of_joined(all);
    let text1 = hosts_text(existing, es);
    assert(text_lines(text1) == all);
    let e0: (Seq<Seq<char>>, bool, bool) = (Seq::empty(), false, false);
    let (out, _, replaced) = splice_scan(text_lines(existing), block);
    lemma_sync_output_rescans(text_lines(existing), es);
    lemma_scan_from_empty(all, block);
    if replaced {
        assert(splice_scan(all, block) == (all, false, true));
    } else {
        let pre = if out.len() > 0 && out.last().len() > 0 {
            out.push(Seq::empty())
        } else {
            out
        };
        lemma_scan_from_concat(e0, pre, block, block);
        if out.len() > 0 && out.last().len() > 0 {
            lemma_scan_from_concat(e0, out, seq![Seq::<char>::empty()], block);
            lemma_scan_one((out, false, false), Seq::<char>::empty(), block);
            lemma_marker_texts();
            assert(trim(Seq::<char>::empty()) =~= Seq::<char>::empty());
            assert(out + seq![Seq::<char>::empty()] =~= pre);
        }
        assert(scan_from(e0, pre, block) == (pre, false, false));
        lemma_scan_block((pre, false, false), es);
        assert(splice_scan(all, block) == (all, false, true));
    }
}

proof fn lemma_outside_facts(ls: Seq<Seq<char>>)
    ensures
        forall|i: int|
            0 <= i < outside_block_lines(ls).len() ==> !is_marker(#[trigger] outside_block_lines(ls)[i])
                && ls.contains(outside_block_lines(ls)[i]),
        !has_marker_line(ls) ==> outside_block_lines(ls) == ls && !outside_scan(ls).1,
    decreases ls.len(),
{
    if ls.len() > 0 {
        let init = ls.drop_last();
        lemma_outside_facts(init);
        let l = ls.last();
        assert(ls =~= init.push(l));
        lemma_has_marker_push(init, l);
        let (out, inside) = outside_scan(init);
        let r = outside_block_lines(ls);
        assert forall|i: int| 0 <= i < r.len() implies !is_marker(#[trigger] r[i]) && ls.contains(r[i]) by {
            if i < out.len() {
                assert(r[i] == out[i]);
                assert(outside_block_lines(init)[i] == out[i]);
                assert(!is_marker(outside_block_lines(init)[i]) && init.contains(outside_block_lines(init)[i]));
                let k = choose|k: int| 0 <= k < init.len() && init[k] == out[i];
                assert(ls[k] == init[k]);
            } else {
                assert(r[i] == l);
                assert(ls[ls.len() - 1] == l);
            }
        }
    }
}

/// Removing the managed block leaves no marker line, keeps every other
/// line of the file in order, and leaves a file without a block exactly
/// as it was. Reading the result back gives those lines when the file's
/// lines read back as written (no line ending in `\r` once `\r\n` is
/// read as a line break).
pub proof fn lemma_remove_block(existing: Seq<char>)
    ensures
        forall|i: int|
            0 <= i < outside_block_lines(text_lines(existing)).len() ==> !is_marker(
                #[trigger] outside_block_lines(text_lines(existing))[i],
            ),
        !has_marker_line(text_lines(existing)) ==> without_block(existing) == existing,
        (forall|i: int| 0 <= i < text_lines(existing).len() ==> plain_line(#[trigger] text_lines(existing)[i]))
            ==> text_lines(without_block(existing)) == outside_block_lines(text_lines(existing)),
{
    let ls = text_lines(existing);
    lemma_outside_facts(ls);
    let kept = outside_block_lines(ls);
    if forall|i: int| 0 <= i < ls.len() ==> plain_line(#[trigger] ls[i]) {
        if !has_marker_line(ls) {
        } else if kept.len() == 0 {
            let e = Seq::<char>::empty();
            assert(split_char(e, '\n') == seq![e]);
            assert(text_lines(e) =~= Seq::<Seq<char>>::empty());
        } else {
            assert forall|i: int| 0 <= i < kept.len() implies plain_line(#[trigger] kept[i]) by {
                let k = choose|k: int| 0 <= k < ls.len() && ls[k] == kept[i];
                assert(plain_line(ls[k]));
            }
            lemma_lines_of_joined(kept);
        }
    }
}

/// Syncing a file without a managed block keeps every line of it as it
/// was and adds the block at the end (after a blank line, unless the file
/// ends with one).
pub proof fn lemma_sync_appends_block(existing: Seq<char>, es: Seq<HostEntryView>)
    requires
        forall|i: int| 0 <= i < text_lines(existing).len() ==> !is_marker(#[trigger] text_lines(existing)[i]),
    ensures
        hosts_text(existing, es) == join_with(
            (if text_lines(existing).len() > 0 && text_lines(existing).last().len() > 0 {
                text_lines(existing).push(Seq::empty())
            } else {
                text_lines(existing)
            }) + block_lines(es),
            seq!['\n'],
        ) + seq!['\n'],
{
    let ls = text_lines(existing);
    let block = block_lines(es);
    lemma_scan_from_empty(ls, block);
    lemma_scan_keeps((Seq::empty(), false, false), ls, block);
    assert(Seq::<Seq<char>>::empty() + ls =~= ls);
}

} // verus!
