//! The query-answering core of the optional local DNS resolver for mesh
//! domain names.
//!
//! Names under the mesh suffix are answered from a live table: an exact
//! (case-insensitive) match on a peer root (`alice.mesh`) or a registered
//! service (`game.alice.mesh`) wins; failing that, any name ending in
//! `.<peer-root>` resolves to that peer (open-ended subdomains). Anything
//! else, and every query that is not a plain IN/A lookup, is forwarded
//! upstream untouched. Only the minimal wire subset is implemented:
//! single-question queries (RFC 1035 section 4.1) and a one-record answer.

use vstd::prelude::*;
use crate::gossip::{lossy_text, string_from_utf8_lossy};
use crate::net::{dec_text, push_decimal, Ipv4Addr};
use crate::text::{
    chars_of, ends_with, eq_ignore_case, join_with, lower_char, lower_seq, push_all, split_char,
    string_from_chars, text_lines, trim,
};

verus! {

pub const QTYPE_A: u16 = 1;

pub const QCLASS_IN: u16 = 1;

/// One resolvable name in the live table.
#[derive(Debug, Clone)]
pub struct DnsEntry {
    pub hostname: String,
    pub virtual_ip: Ipv4Addr,
    /// A peer's own root name: also the base of wildcard subdomains.
    /// False for a registered service name, which only matches exactly.
    pub is_peer_root: bool,
}

pub struct DnsEntryView {
    pub hostname: Seq<char>,
    pub virtual_ip: Ipv4Addr,
    pub is_peer_root: bool,
}

impl View for DnsEntry {
    type V = DnsEntryView;

    open spec fn view(&self) -> DnsEntryView {
        DnsEntryView {
            hostname: self.hostname@,
            virtual_ip: self.virtual_ip,
            is_peer_root: self.is_peer_root,
        }
    }
}

pub open spec fn table_view(t: Seq<DnsEntry>) -> Seq<DnsEntryView> {
    Seq::new(t.len(), |i: int| t[i]@)
}

// ---------------------------------------------------------------------
// Question parsing
// ---------------------------------------------------------------------

pub open spec fn be16_at(q: Seq<u8>, at: int) -> u16 {
    (q[at] as nat * 256 + q[at + 1] as nat) as u16
}

/// The labels of the name starting at `pos`, and the position just past
/// its terminating zero-length label; `None` when the buffer ends first,
/// a label runs past the end, or a label length has either of its top
/// two bits set (a compression pointer, not handled in a query).
pub open spec fn labels_from(q: Seq<u8>, pos: int) -> Option<(Seq<Seq<char>>, int)>
    decreases q.len() - pos,
{
    if pos < 0 || pos >= q.len() {
        None
    } else {
        let len = q[pos] as int;
        if len == 0 {
            Some((Seq::<Seq<char>>::empty(), pos + 1))
        } else if len >= 64 {
            None
        } else if pos + 1 + len > q.len() {
            None
        } else {
            match labels_from(q, pos + 1 + len) {
                Some((rest, end)) => Some(
                    (seq![lossy_text(q.subrange(pos + 1, pos + 1 + len))] + rest, end),
                ),
                None => None,
            }
        }
    }
}

/// `(name, qtype, qclass)` of the single question of a query.
pub open spec fn question_spec(q: Seq<u8>) -> Option<(Seq<char>, u16, u16)> {
    if q.len() < 12 || be16_at(q, 4) == 0 {
        None
    } else {
        match labels_from(q, 12) {
            Some((labels, end)) => if end + 4 <= q.len() {
                Some((join_with(labels, seq!['.']), be16_at(q, end), be16_at(q, end + 2)))
            } else {
                None
            },
            None => None,
        }
    }
}

/// Parses the single question of a DNS query: 12-byte header (with a
/// non-zero question count), then length-prefixed labels ending in a
/// zero-length label, then QTYPE and QCLASS.
pub fn parse_question(query: &[u8]) -> (res: Option<(String, u16, u16)>)
    ensures
        match res {
            Some((name, qtype, qclass)) => question_spec(query@) == Some((name@, qtype, qclass)),
            None => question_spec(query@) is None,
        },
{
    if query.len() < 12 {
        return None;
    }
    let qdcount = (query[4] as u16) * 256 + (query[5] as u16);
    if qdcount == 0 {
        return None;
    }
    let mut pos: usize = 12;
    let mut name: Vec<char> = Vec::new();
    let ghost mut labels: Seq<Seq<char>> = Seq::empty();
    let mut first = true;
    loop
        invariant
            12 <= pos,
            first == (labels.len() == 0),
            query.len() >= 12,
            be16_at(query@, 4) != 0,
            name@ == join_with(labels, seq!['.']),
            match labels_from(query@, 12) {
                Some((all, end)) => labels_from(query@, pos as int) matches Some((rest, e)) && e
                    == end && all == labels + rest,
                None => labels_from(query@, pos as int) is None,
            },
        decreases query.len() - pos,
    {
        if pos >= query.len() {
            return None;
        }
        let len = query[pos] as usize;
        if len == 0 {
            proof {
                assert(labels + Seq::<Seq<char>>::empty() =~= labels);
            }
            let end = pos + 1;
            if query.len() - end < 4 {
                return None;
            }
            let qtype = (query[end] as u16) * 256 + (query[end + 1] as u16);
            let qclass = (query[end + 2] as u16) * 256 + (query[end + 3] as u16);
            return Some((string_from_chars(name.as_slice()), qtype, qclass));
        }
        if len >= 64 {
            return None;
        }
        if len > query.len() - pos - 1 {
            return None;
        }
        let label = string_from_utf8_lossy(&query[pos + 1..pos + 1 + len]);
        let label_chars = chars_of(label.as_str());
        proof {
            assert(query@.subrange(pos + 1, pos + 1 + len) == query@.subrange(pos + 1, pos + 1 + len));
        }
        let ghost old_name = name@;
        if !first {
            name.push('.');
        }
        let mut k: usize = 0;
        while k < label_chars.len()
            invariant
                k <= label_chars.len(),
                name@ == (if labels.len() > 0 {
                    old_name + seq!['.']
                } else {
                    old_name
                }) + label_chars@.take(k as int),
            decreases label_chars.len() - k,
        {
            name.push(label_chars[k]);
            k = k + 1;
            assert(label_chars@.take(k as int) == label_chars@.take(k - 1).push(
                label_chars@[k - 1],
            ));
        }
        proof {
            assert(label_chars@.take(label_chars.len() as int) == label_chars@);
            let nl = labels.push(label_chars@);
            assert(nl.drop_last() == labels);
            if labels.len() == 0 {
                assert(join_with(nl, seq!['.']) == nl[0]);
            } else {
                assert(join_with(nl, seq!['.']) == join_with(labels, seq!['.']) + seq!['.']
                    + label_chars@);
            }
            let next = (pos + 1 + len) as int;
            match labels_from(query@, 12) {
                Some((all, end)) => {
                    let (rest, e) = labels_from(query@, pos as int)->0;
                    let (rest2, e2) = labels_from(query@, next)->0;
                    assert(rest == seq![label_chars@] + rest2);
                    assert(all == nl + rest2);
                },
                None => {},
            }
            labels = nl;
        }
        first = false;
        pos = pos + 1 + len;
    }
}

/// Where the question section ends (past QTYPE and QCLASS), by walking
/// the label lengths from offset 12 without checking them further.
pub open spec fn question_end_from(q: Seq<u8>, pos: int) -> Option<int>
    decreases q.len() - pos,
{
    if pos < 0 || pos >= q.len() {
        None
    } else if q[pos] == 0 {
        Some(pos + 1 + 4)
    } else if pos + 1 + q[pos] as int >= q.len() {
        None
    } else {
        question_end_from(q, pos + 1 + q[pos] as int)
    }
}

pub fn find_question_end(query: &[u8]) -> (res: Option<usize>)
    requires
        query@.len() <= isize::MAX,
    ensures
        match res {
            Some(e) => question_end_from(query@, 12) == Some(e as int),
            None => question_end_from(query@, 12) is None,
        },
{
    let mut pos: usize = 12;
    loop
        invariant
            12 <= pos,
            query@.len() <= isize::MAX,
            question_end_from(query@, 12) == question_end_from(query@, pos as int),
        decreases query.len() - pos,
    {
        if pos >= query.len() {
            return None;
        }
        let len = query[pos] as usize;
        if len == 0 {
            return Some(pos + 5);
        }
        if len >= query.len() - pos - 1 {
            return None;
        }
        pos = pos + 1 + len;
    }
}

/// A question that parses ends within the query, exactly after the
/// 12-byte header, its name (a length byte and the bytes of each label,
/// then the zero byte) and the 4 bytes of QTYPE and QCLASS.
pub proof fn lemma_question_end_within(q: Seq<u8>)
    requires
        question_spec(q) is Some,
    ensures
        question_end_from(q, 12) matches Some(e) && 12 <= e <= q.len(),
        question_end_from(q, 12) == Some(12 + name_wire_len(q, 12) + 4),
{
    lemma_labels_end(q, 12);
}

/// The bytes of the name at `pos`: one length byte plus the bytes of each
/// label, and the final zero byte.
pub open spec fn name_wire_len(q: Seq<u8>, pos: int) -> int
    decreases q.len() - pos,
{
    if pos < 0 || pos >= q.len() {
        0
    } else if q[pos] == 0 {
        1
    } else if pos + 1 + q[pos] as int >= q.len() {
        0
    } else {
        1 + q[pos] as int + name_wire_len(q, pos + 1 + q[pos] as int)
    }
}

proof fn lemma_labels_end(q: Seq<u8>, pos: int)
    requires
        labels_from(q, pos) is Some,
    ensures
        labels_from(q, pos) matches Some((_, end)) && question_end_from(q, pos) == Some(end + 4)
            && end > pos,
        question_end_from(q, pos) == Some(pos + name_wire_len(q, pos) + 4),
    decreases q.len() - pos,
{
    let len = q[pos] as int;
    if len != 0 {
        lemma_labels_end(q, pos + 1 + len);
    }
}

// ---------------------------------------------------------------------
// Resolution
// ---------------------------------------------------------------------

/// The first entry whose hostname equals `name` ignoring ASCII case.
pub open spec fn find_exact(name: Seq<char>, t: Seq<DnsEntryView>) -> Option<Ipv4Addr>
    decreases t.len(),
{
    if t.len() == 0 {
        None
    } else if eq_ignore_case(t[0].hostname, name) {
        Some(t[0].virtual_ip)
    } else {
        find_exact(name, t.drop_first())
    }
}

/// The first peer root of which `name` is a proper dotted subdomain.
pub open spec fn find_wildcard(name: Seq<char>, t: Seq<DnsEntryView>) -> Option<Ipv4Addr>
    decreases t.len(),
{
    if t.len() == 0 {
        None
    } else if t[0].is_peer_root && ends_with(name, seq!['.'] + lower_seq(t[0].hostname)) {
        Some(t[0].virtual_ip)
    } else {
        find_wildcard(name, t.drop_first())
    }
}

/// Exact matches win over wildcard subdomains of a peer root.
pub open spec fn resolve_spec(name: Seq<char>, t: Seq<DnsEntryView>) -> Option<Ipv4Addr> {
    match find_exact(name, t) {
        Some(ip) => Some(ip),
        None => find_wildcard(name, t),
    }
}

fn lower_chars(s: &[char]) -> (res: Vec<char>)
    ensures
        res@ == lower_seq(s@),
{
    let mut out: Vec<char> = Vec::new();
    let mut i: usize = 0;
    while i < s.len()
        invariant
            i <= s.len(),
            out@ == lower_seq(s@.take(i as int)),
        decreases s.len() - i,
    {
        out.push(lower_char(s[i]));
        i = i + 1;
        assert(lower_seq(s@.take(i as int)) =~= lower_seq(s@.take(i - 1)).push(
            crate::text::ascii_lower(s@[i - 1]),
        ));
    }
    assert(s@.take(s.len() as int) == s@);
    out
}

fn same_ignoring_case(a: &[char], b: &[char]) -> (r: bool)
    ensures
        r == eq_ignore_case(a@, b@),
{
    let la = lower_chars(a);
    let lb = lower_chars(b);
    if la.len() != lb.len() {
        assert(lower_seq(a@).len() != lower_seq(b@).len());
        return false;
    }
    let mut i: usize = 0;
    while i < la.len()
        invariant
            la.len() == lb.len(),
            i <= la.len(),
            la@ == lower_seq(a@),
            lb@ == lower_seq(b@),
            forall|k: int| 0 <= k < i ==> la@[k] == lb@[k],
        decreases la.len() - i,
    {
        if la[i] != lb[i] {
            return false;
        }
        i = i + 1;
    }
    assert(la@ =~= lb@);
    true
}

fn chars_end_with(s: &[char], suffix: &[char]) -> (r: bool)
    ensures
        r == ends_with(s@, suffix@),
{
    if suffix.len() > s.len() {
        return false;
    }
    let off = s.len() - suffix.len();
    let mut i: usize = 0;
    while i < suffix.len()
        invariant
            off + suffix.len() == s.len(),
            i <= suffix.len(),
            forall|k: int| 0 <= k < i ==> s@[off + k] == suffix@[k],
        decreases suffix.len() - i,
    {
        if s[off + i] != suffix[i] {
            assert(s@.skip(off as int)[i as int] != suffix@[i as int]);
            return false;
        }
        i = i + 1;
    }
    assert(s@.skip(off as int) =~= suffix@);
    true
}

/// Resolves one query name against the table: an exact match (peer root
/// or registered service) first, then a wildcard match on a peer root.
pub fn resolve(lower_name: &str, table: &[DnsEntry]) -> (res: Option<Ipv4Addr>)
    ensures
        res == resolve_spec(lower_name@, table_view(table@)),
{
    let name = chars_of(lower_name);
    let ghost t = table_view(table@);
    assert(t.skip(0) == t);
    let mut i: usize = 0;
    while i < table.len()
        invariant
            i <= table.len(),
            t == table_view(table@),
            find_exact(name@, t) == find_exact(name@, t.skip(i as int)),
            name@ == lower_name@,
        decreases table.len() - i,
    {
        let host = chars_of(table[i].hostname.as_str());
        assert(t.skip(i as int)[0] == table@[i as int]@);
        assert(t.skip(i as int).drop_first() == t.skip(i + 1));
        if same_ignoring_case(host.as_slice(), name.as_slice()) {
            assert(host@ == t.skip(i as int)[0].hostname);
            assert(find_exact(name@, t.skip(i as int)) == Some(table@[i as int].virtual_ip));
            return Some(table[i].virtual_ip);
        }
        i = i + 1;
    }
    assert(t.skip(table.len() as int).len() == 0);
    let mut j: usize = 0;
    assert(t.skip(0) == t);
    while j < table.len()
        invariant
            j <= table.len(),
            t == table_view(table@),
            find_exact(name@, t) is None,
            find_wildcard(name@, t) == find_wildcard(name@, t.skip(j as int)),
            name@ == lower_name@,
        decreases table.len() - j,
    {
        assert(t.skip(j as int)[0] == table@[j as int]@);
        assert(t.skip(j as int).drop_first() == t.skip(j + 1));
        if table[j].is_peer_root {
            let host = chars_of(table[j].hostname.as_str());
            let lowered = lower_chars(host.as_slice());
            let mut suffix: Vec<char> = Vec::new();
            suffix.push('.');
            let mut k: usize = 0;
            while k < lowered.len()
                invariant
                    k <= lowered.len(),
                    suffix@ == seq!['.'] + lowered@.take(k as int),
                decreases lowered.len() - k,
            {
                suffix.push(lowered[k]);
                k = k + 1;
                assert(lowered@.take(k as int) == lowered@.take(k - 1).push(lowered@[k - 1]));
            }
            assert(lowered@.take(lowered.len() as int) == lowered@);
            if chars_end_with(name.as_slice(), suffix.as_slice()) {
                assert(host@ == t.skip(j as int)[0].hostname);
                assert(suffix@ == seq!['.'] + lower_seq(t.skip(j as int)[0].hostname));
                assert(find_wildcard(name@, t.skip(j as int)) == Some(table@[j as int].virtual_ip));
                return Some(table[j].virtual_ip);
            }
        }
        j = j + 1;
    }
    assert(t.skip(table.len() as int).len() == 0);
    None
}

// ---------------------------------------------------------------------
// Answering
// ---------------------------------------------------------------------

/// The response bytes for a single A-record answer: the query's ID, fixed
/// response flags and counts, the question copied verbatim, and one
/// answer pointing back at offset 12 with a 30 second TTL.
pub open spec fn a_response_bytes(q: Seq<u8>, end: int, ip: Ipv4Addr) -> Seq<u8> {
    q.subrange(0, 2) + seq![0x81u8, 0x80u8, 0u8, 1u8, 0u8, 1u8, 0u8, 0u8, 0u8, 0u8] + q.subrange(
        12,
        end,
    ) + seq![0xC0u8, 0x0Cu8, 0u8, 1u8, 0u8, 1u8, 0u8, 0u8, 0u8, 30u8, 0u8, 4u8, ip.a, ip.b, ip.c, ip.d]
}

/// The end of the copied question: where the question ends, or the end
/// of the query when no end is found.
pub open spec fn copied_question_end(q: Seq<u8>) -> int {
    match question_end_from(q, 12) {
        Some(e) => e,
        None => q.len() as int,
    }
}

proof fn lemma_question_end_after(q: Seq<u8>, pos: int)
    requires
        0 <= pos,
    ensures
        question_end_from(q, pos) matches Some(e) ==> e >= pos + 5,
    decreases q.len() - pos,
{
    if 0 <= pos < q.len() && q[pos] != 0 && pos + 1 + (q[pos] as int) < q.len() {
        lemma_question_end_after(q, pos + 1 + q[pos] as int);
    }
}

/// The layout of an A answer to a query whose question ends at `end`: the
/// query's ID, the flags of a recursive answer without error, one question
/// and one answer, the question copied as asked, then the answer record:
/// a pointer to the name at offset 12, TYPE A, CLASS IN, a TTL of 30
/// seconds, 4 bytes of data, and the address.
pub proof fn lemma_a_response_layout(q: Seq<u8>, end: int, ip: Ipv4Addr)
    requires
        12 <= end <= q.len(),
    ensures
        a_response_bytes(q, end, ip).len() == end + 16,
        a_response_bytes(q, end, ip).subrange(0, 2) == q.subrange(0, 2),
        a_response_bytes(q, end, ip).subrange(2, 12) == seq![0x81u8, 0x80u8, 0u8, 1u8, 0u8, 1u8, 0u8, 0u8, 0u8, 0u8],
        a_response_bytes(q, end, ip).subrange(12, end) == q.subrange(12, end),
        a_response_bytes(q, end, ip)[end] == 0xC0 && a_response_bytes(q, end, ip)[end + 1] == 0x0C,
        a_response_bytes(q, end, ip)[end + 2] as int * 256 + a_response_bytes(q, end, ip)[end + 3] as int
            == QTYPE_A as int,
        a_response_bytes(q, end, ip)[end + 4] as int * 256 + a_response_bytes(q, end, ip)[end + 5] as int
            == QCLASS_IN as int,
        a_response_bytes(q, end, ip).subrange(end + 6, end + 10) == seq![0u8, 0u8, 0u8, 30u8],
        a_response_bytes(q, end, ip)[end + 10] == 0 && a_response_bytes(q, end, ip)[end + 11] == 4,
        a_response_bytes(q, end, ip).subrange(end + 12, end + 16) == seq![ip.a, ip.b, ip.c, ip.d],
{
    let r = a_response_bytes(q, end, ip);
    assert(r.subrange(0, 2) =~= q.subrange(0, 2));
    assert(r.subrange(2, 12) =~= seq![0x81u8, 0x80u8, 0u8, 1u8, 0u8, 1u8, 0u8, 0u8, 0u8, 0u8]);
    assert(r.subrange(12, end) =~= q.subrange(12, end));
    assert(r.subrange(end + 6, end + 10) =~= seq![0u8, 0u8, 0u8, 30u8]);
    assert(r.subrange(end + 12, end + 16) =~= seq![ip.a, ip.b, ip.c, ip.d]);
}

pub fn build_a_response(query: &[u8], ip: Ipv4Addr) -> (resp: Vec<u8>)
    requires
        query@.len() >= 12,
        query@.len() <= isize::MAX,
        copied_question_end(query@) <= query@.len(),
    ensures
        resp@ == a_response_bytes(query@, copied_question_end(query@), ip),
        resp@.len() == copied_question_end(query@) + 16,
        resp@[copied_question_end(query@) + 2] as int * 256 + resp@[copied_question_end(query@) + 3] as int
            == QTYPE_A as int,
        resp@[copied_question_end(query@) + 4] as int * 256 + resp@[copied_question_end(query@) + 5] as int
            == QCLASS_IN as int,
        resp@.subrange(copied_question_end(query@) + 12, copied_question_end(query@) + 16) == seq![
            ip.a,
            ip.b,
            ip.c,
            ip.d,
        ],
{
    proof {
        lemma_question_end_after(query@, 12);
        lemma_a_response_layout(query@, copied_question_end(query@), ip);
    }
    let mut resp: Vec<u8> = Vec::new();
    resp.push(query[0]);
    resp.push(query[1]);
    resp.push(0x81);
    resp.push(0x80);
    resp.push(0);
    resp.push(1);
    resp.push(0);
    resp.push(1);
    resp.push(0);
    resp.push(0);
    resp.push(0);
    resp.push(0);
    let question_end = match find_question_end(query) {
        Some(e) => e,
        None => query.len(),
    };
    proof {
        lemma_question_end_start(query@);
    }
    let ghost head = resp@;
    let mut i: usize = 12;
    while i < question_end
        invariant
            12 <= i <= question_end,
            question_end <= query@.len(),
            resp@ == head + query@.subrange(12, i as int),
        decreases question_end - i,
    {
        resp.push(query[i]);
        i = i + 1;
        assert(query@.subrange(12, i as int) == query@.subrange(12, i - 1).push(query@[i - 1]));
    }
    let tail: [u8; 16] = [0xC0, 0x0C, 0, 1, 0, 1, 0, 0, 0, 30, 0, 4, ip.a, ip.b, ip.c, ip.d];
    let mut k: usize = 0;
    let ghost mid = resp@;
    while k < 16
        invariant
            k <= 16,
            resp@ == mid + tail@.take(k as int),
        decreases 16 - k,
    {
        resp.push(tail[k]);
        k = k + 1;
        assert(tail@.take(k as int) == tail@.take(k - 1).push(tail@[k - 1]));
    }
    assert(resp@ =~= a_response_bytes(query@, copied_question_end(query@), ip));
    resp
}

proof fn lemma_question_end_start(q: Seq<u8>)
    ensures
        question_end_from(q, 12) matches Some(e) ==> e >= 12,
{
    lemma_question_end_monotone(q, 12);
}

proof fn lemma_question_end_monotone(q: Seq<u8>, pos: int)
    ensures
        question_end_from(q, pos) matches Some(e) ==> e > pos,
    decreases q.len() - pos,
{
    if 0 <= pos < q.len() && q[pos] != 0 && (pos + 1 + q[pos] as int) < q.len() {
        lemma_question_end_monotone(q, pos + 1 + q[pos] as int);
    }
}

pub enum QueryOutcome {
    Answered(Vec<u8>),
    Forward,
    Malformed,
}

/// What the resolver does with one query: unparseable queries are
/// dropped; non-A or non-IN queries are forwarded; A/IN queries for a
/// name in the table are answered, all others forwarded.
pub open spec fn handle_query_spec(q: Seq<u8>, t: Seq<DnsEntryView>) -> Option<Option<Ipv4Addr>> {
    match question_spec(q) {
        None => None,
        Some((name, qtype, qclass)) => if qtype != QTYPE_A || qclass != QCLASS_IN {
            Some(None)
        } else {
            Some(resolve_spec(lower_seq(name), t))
        },
    }
}

pub fn handle_query(query: &[u8], table: &[DnsEntry]) -> (res: QueryOutcome)
    requires
        query@.len() <= isize::MAX,
    ensures
        match res {
            QueryOutcome::Malformed => handle_query_spec(query@, table_view(table@)) is None,
            QueryOutcome::Forward => handle_query_spec(query@, table_view(table@)) == Some(
                None::<Ipv4Addr>,
            ),
            QueryOutcome::Answered(resp) => handle_query_spec(query@, table_view(table@)) matches Some(
                Some(ip),
            ) && resp@ == a_response_bytes(query@, copied_question_end(query@), ip),
        },
{
    let (name, qtype, qclass) = match parse_question(query) {
        Some(q) => q,
        None => return QueryOutcome::Malformed,
    };
    if qtype != QTYPE_A || qclass != QCLASS_IN {
        return QueryOutcome::Forward;
    }
    let name_chars = chars_of(name.as_str());
    let lowered = lower_chars(name_chars.as_slice());
    let lower_name = string_from_chars(lowered.as_slice());
    match resolve(lower_name.as_str(), table) {
        Some(ip) => {
            proof {
                lemma_question_end_within(query@);
            }
            QueryOutcome::Answered(build_a_response(query, ip))
        },
        None => QueryOutcome::Forward,
    }
}

/// Handle on a running resolver: dropping it does not stop the resolver,
/// `stop` does (the resolver loop checks the shared flag between
/// queries).
pub struct DnsHandle {
    running: std::sync::Arc<std::sync::atomic::AtomicBool>,
}

impl DnsHandle {
    /// The flag the resolver loop watches.
    pub closed spec fn flag(&self) -> std::sync::Arc<std::sync::atomic::AtomicBool> {
        self.running
    }

    /// A handle on the resolver whose loop watches `running`.
    pub fn new(running: std::sync::Arc<std::sync::atomic::AtomicBool>) -> (h: DnsHandle)
        ensures
            h.flag() == running,
    {
        DnsHandle { running }
    }

    /// Asks the resolver loop to stop at its next check.
    pub fn stop(&self) {
        self.running.store(false, std::sync::atomic::Ordering::Relaxed);
    }
}

// ---------------------------------------------------------------------
// Pointing the system resolver at the built-in one
// ---------------------------------------------------------------------

/// The line that points the system resolver at the built-in one.
pub const LOCAL_NAMESERVER_LINE: &'static str = "nameserver 127.0.0.1";

/// What `/etc/resolv.conf` becomes when the system is pointed at the
/// built-in resolver: refused unless it listens on port 53 (the resolver
/// protocol has no port); nothing to do when its first line (trimmed)
/// already is `LOCAL_NAMESERVER_LINE`; otherwise that line, then the file
/// as it was.
pub open spec fn resolv_conf_update_spec(existing: Seq<char>, dns_port: u16) -> Result<
    Option<Seq<char>>,
    Seq<char>,
> {
    if dns_port != 53 {
        Err(
            "dns_auto_configure only works with dns_port = 53 (got "@ + dec_text(dns_port as nat)
                + "); the OS resolver protocol doesn't support a custom port."@,
        )
    } else if text_lines(existing).len() > 0 && trim(text_lines(existing)[0]) == LOCAL_NAMESERVER_LINE@ {
        Ok(None)
    } else {
        Ok(Some(LOCAL_NAMESERVER_LINE@ + seq!['\n'] + existing))
    }
}

/// See `resolv_conf_update_spec`; backing up and writing the file is the
/// caller's job.
pub fn resolv_conf_update(existing: &str, dns_port: u16) -> (r: Result<Option<String>, String>)
    ensures
        match r {
            Ok(Some(t)) => resolv_conf_update_spec(existing@, dns_port) == Ok::<Option<Seq<char>>, Seq<char>>(
                Some(t@),
            ),
            Ok(None) => resolv_conf_update_spec(existing@, dns_port) == Ok::<Option<Seq<char>>, Seq<char>>(
                None,
            ),
            Err(m) => resolv_conf_update_spec(existing@, dns_port) == Err::<Option<Seq<char>>, Seq<char>>(m@),
        },
{
    if dns_port != 53 {
        let mut m = chars_of("dns_auto_configure only works with dns_port = 53 (got ");
        push_decimal(&mut m, dns_port as u64);
        let tail = chars_of("); the OS resolver protocol doesn't support a custom port.");
        push_all(&mut m, tail.as_slice());
        return Err(string_from_chars(m.as_slice()));
    }
    let ec = chars_of(existing);
    let lines = crate::text::lines_of(ec.as_slice());
    if lines.len() > 0 {
        let first = crate::text::trim_chars(lines[0].as_slice());
        let local = chars_of(LOCAL_NAMESERVER_LINE);
        if crate::text::chars_eq(first.as_slice(), local.as_slice()) {
            return Ok(None);
        }
    }
    let mut out = chars_of(LOCAL_NAMESERVER_LINE);
    out.push('\n');
    push_all(&mut out, ec.as_slice());
    assert(out@ =~= LOCAL_NAMESERVER_LINE@ + seq!['\n'] + existing@);
    Ok(Some(string_from_chars(out.as_slice())))
}

} // verus!
