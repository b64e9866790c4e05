//! The desktop app's self-updater, as far as it decides things: reading
//! release version tags, telling whether a release is an upgrade, picking
//! the platform package among a release's assets, checking the published
//! checksum, and the text of the script that swaps the binaries.
//!
//! Downloading, hashing, unpacking and running the script are done by the
//! caller; what they return is handed to the functions here.

use vstd::prelude::*;
use vstd::utf8::{decode_utf8, valid_utf8};
use crate::gossip::{lossy_text, string_from_utf8_lossy, utf8_lossy};
use crate::net::{all_digits, dec_text, digits_value, parse_unsigned, parse_unsigned_chars, push_decimal};
use crate::text::{
    chars_contains, chars_ends_with, chars_eq, chars_eq_ignore_case, chars_of, contains_seq,
    ends_with, eq_ignore_case, is_ascii_digit, is_ascii_hexdigit, is_digit_char, is_hex_char,
    is_unicode_whitespace, is_whitespace_char, lines_of, push_all, push_replaced, replace_with, split_char, split_chars,
    string_from_chars, strip_leading, text_lines, lemma_trim_start_first, to_lowercase, trim, trim_chars, trim_start,
    trim_start_char, unicode_lower,
};

verus! {

/// The version of this build.
pub const CURRENT_VERSION: &'static str = "0.1.0";

/// This build's own version.
pub fn current_version() -> (v: &'static str)
    ensures
        v@ == CURRENT_VERSION@,
{
    CURRENT_VERSION
}

// ---------------------------------------------------------------------
// Version tags
// ---------------------------------------------------------------------

/// A tag without surrounding whitespace and without its leading `v`s,
/// then its leading `V`s.
pub open spec fn version_body(s: Seq<char>) -> Seq<char> {
    trim_start_char(trim_start_char(trim(s), 'v'), 'V')
}

/// The run of ASCII digits a text starts with.
pub open spec fn lead_digits(s: Seq<char>) -> Seq<char>
    decreases s.len(),
{
    if s.len() > 0 && is_ascii_digit(s[0]) {
        seq![s[0]] + lead_digits(s.drop_first())
    } else {
        Seq::<char>::empty()
    }
}

/// How many of the dot-separated pieces are read: at most `limit`, and
/// none from the first piece that does not start with a digit.
pub open spec fn pieces_read(pieces: Seq<Seq<char>>, limit: nat) -> nat
    decreases limit,
{
    if limit == 0 || pieces.len() == 0 || lead_digits(pieces[0]).len() == 0 {
        0
    } else {
        1 + pieces_read(pieces.drop_first(), (limit - 1) as nat)
    }
}

/// The pieces of a version tag that are read: of the first three
/// dot-separated pieces, those before the first one without a leading
/// digit.
pub open spec fn read_pieces(s: Seq<char>) -> Seq<Seq<char>> {
    let pieces = split_char(version_body(s), '.');
    pieces.take(pieces_read(pieces, 3) as int)
}

/// Whether a read piece gives a number: its leading digits fit in `u64`.
pub open spec fn piece_fits(p: Seq<char>) -> bool {
    digits_value(lead_digits(p)) <= u64::MAX
}

/// Field `i` of the version: the number of read piece `i` where it
/// fits, else 0.
pub open spec fn version_field(s: Seq<char>, i: int) -> u64 {
    let r = read_pieces(s);
    if 0 <= i < r.len() && piece_fits(r[i]) {
        digits_value(lead_digits(r[i])) as u64
    } else {
        0
    }
}

/// `parse_version`: `(major, minor, patch)` from a tag such as `v0.31.0`,
/// `0.3` or `1`; missing fields are 0. A tag none of whose read pieces
/// gives a number (such as `BETA` or the empty text) has no version.
pub open spec fn parsed_version(s: Seq<char>) -> Option<(u64, u64, u64)> {
    let r = read_pieces(s);
    if exists|i: int| 0 <= i < r.len() && piece_fits(#[trigger] r[i]) {
        Some((version_field(s, 0), version_field(s, 1), version_field(s, 2)))
    } else {
        None
    }
}

/// Versions compare field by field, major first (tuple order).
pub open spec fn version_le(a: (u64, u64, u64), b: (u64, u64, u64)) -> bool {
    a.0 < b.0 || (a.0 == b.0 && (a.1 < b.1 || (a.1 == b.1 && a.2 <= b.2)))
}

proof fn lemma_lead_digits_step(s: Seq<char>, i: int)
    requires
        0 <= i < s.len(),
        is_ascii_digit(s[i]),
    ensures
        lead_digits(s.skip(i)) == seq![s[i]] + lead_digits(s.skip(i + 1)),
{
    let t = s.skip(i);
    assert(t[0] == s[i]);
    assert(t.drop_first() =~= s.skip(i + 1));
}

/// The leading ASCII digits of a piece.
fn leading_digits(p: &[char]) -> (d: Vec<char>)
    ensures
        d@ == lead_digits(p@),
{
    let mut d: Vec<char> = Vec::new();
    let mut i: usize = 0;
    assert(p@.skip(0) =~= p@);
    assert(p@.take(0) =~= Seq::<char>::empty());
    while i < p.len() && is_digit_char(p[i])
        invariant
            i <= p.len(),
            d@ == p@.take(i as int),
            lead_digits(p@) == p@.take(i as int) + lead_digits(p@.skip(i as int)),
        decreases p.len() - i,
    {
        proof {
            lemma_lead_digits_step(p@, i as int);
            assert(p@.take(i + 1) =~= p@.take(i as int) + seq![p@[i as int]]);
            assert(p@.take(i as int) + (seq![p@[i as int]] + lead_digits(p@.skip(i + 1)))
                =~= p@.take(i + 1) + lead_digits(p@.skip(i + 1)));
        }
        d.push(p[i]);
        i = i + 1;
    }
    proof {
        let t = p@.skip(i as int);
        if i < p.len() {
            assert(t[0] == p@[i as int]);
        }
        assert(lead_digits(t) =~= Seq::<char>::empty());
        assert(p@.take(i as int) + Seq::<char>::empty() =~= p@.take(i as int));
    }
    d
}

proof fn lemma_lead_digits_all(s: Seq<char>)
    ensures
        all_digits(lead_digits(s)),
        lead_digits(s).len() > 0 <==> (s.len() > 0 && is_ascii_digit(s[0])),
    decreases s.len(),
{
    if s.len() > 0 && is_ascii_digit(s[0]) {
        lemma_lead_digits_all(s.drop_first());
        let l = lead_digits(s);
        let r = lead_digits(s.drop_first());
        assert forall|k: int| 0 <= k < l.len() implies is_ascii_digit(#[trigger] l[k]) by {
            if k > 0 {
                assert(l[k] == r[k - 1]);
            }
        }
    }
}

/// The number a piece gives, if its leading digits fit in `u64`.
fn piece_number(p: &[char]) -> (r: Option<u64>)
    requires
        lead_digits(p@).len() > 0,
    ensures
        r is Some <==> piece_fits(p@),
        r matches Some(v) ==> v as nat == digits_value(lead_digits(p@)),
{
    let d = leading_digits(p);
    proof {
        lemma_lead_digits_all(p@);
        assert(d@[0] != '+');
    }
    parse_unsigned_chars(d.as_slice(), u64::MAX)
}

/// Parses `0.25`, `0.3`, `v0.31.0`, ... into `(major, minor, patch)`;
/// `None` for tags that do not start with a number (`BETA`).
pub fn parse_version(s: &str) -> (r: Option<(u64, u64, u64)>)
    ensures
        r == parsed_version(s@),
{
    let raw = chars_of(s);
    let t0 = trim_chars(raw.as_slice());
    let t1 = strip_leading(t0.as_slice(), 'v');
    let body = strip_leading(t1.as_slice(), 'V');
    let pieces = split_chars(body.as_slice(), '.');
    let ghost ps = split_char(version_body(s@), '.');
    assert(body@ == version_body(s@));
    let limit: usize = if pieces.len() < 3 {
        pieces.len()
    } else {
        3
    };
    // How many pieces are read.
    let mut k: usize = 0;
    assert(ps.skip(0) =~= ps);
    while k < limit && pieces[k].len() > 0 && is_digit_char(pieces[k][0])
        invariant
            k <= limit,
            limit <= 3,
            limit == (if ps.len() < 3 { ps.len() } else { 3 }),
            pieces.len() == ps.len(),
            forall|j: int| 0 <= j < pieces.len() ==> #[trigger] pieces[j]@ == ps[j],
            pieces_read(ps, 3) == k + pieces_read(ps.skip(k as int), (3 - k) as nat),
            forall|j: int| 0 <= j < k ==> lead_digits(#[trigger] ps[j]).len() > 0,
        decreases limit - k,
    {
        proof {
            let t = ps.skip(k as int);
            assert(t[0] == ps[k as int]);
            assert(t.drop_first() =~= ps.skip(k + 1));
            lemma_lead_digits_all(ps[k as int]);
        }
        k = k + 1;
    }
    proof {
        let t = ps.skip(k as int);
        if k < limit {
            assert(t[0] == ps[k as int]);
            lemma_lead_digits_all(ps[k as int]);
        }
        assert(pieces_read(t, (3 - k) as nat) == 0);
    }
    let ghost rd = read_pieces(s@);
    assert(rd =~= ps.take(k as int));
    let mut fields: [u64; 3] = [0, 0, 0];
    let mut any: bool = false;
    let mut i: usize = 0;
    while i < k
        invariant
            i <= k,
            k <= limit,
            limit <= 3,
            pieces.len() == ps.len(),
            limit <= pieces.len(),
            forall|j: int| 0 <= j < pieces.len() ==> #[trigger] pieces[j]@ == ps[j],
            rd == ps.take(k as int),
            rd == read_pieces(s@),
            forall|j: int| 0 <= j < k ==> lead_digits(#[trigger] ps[j]).len() > 0,
            forall|j: int| 0 <= j < 3 ==> #[trigger] fields[j] == (if j < i { version_field(s@, j) } else { 0 }),
            any <==> exists|j: int| 0 <= j < i && piece_fits(#[trigger] rd[j]),
        decreases k - i,
    {
        assert(rd[i as int] == ps[i as int]);
        match piece_number(pieces[i].as_slice()) {
            Some(v) => {
                fields[i] = v;
                any = true;
            },
            None => {},
        }
        i = i + 1;
    }
    if any {
        Some((fields[0], fields[1], fields[2]))
    } else {
        None
    }
}

/// A run of digits is its own leading digits.
proof fn lemma_lead_digits_of_digits(s: Seq<char>)
    requires
        all_digits(s),
    ensures
        lead_digits(s) == s,
    decreases s.len(),
{
    if s.len() > 0 {
        assert(is_ascii_digit(s[0]));
        assert(all_digits(s.drop_first())) by {
            assert forall|i: int| 0 <= i < s.drop_first().len() implies is_ascii_digit(#[trigger] s.drop_first()[i]) by {
                assert(s.drop_first()[i] == s[i + 1]);
            }
        }
        lemma_lead_digits_of_digits(s.drop_first());
        assert(seq![s[0]] + s.drop_first() =~= s);
    } else {
        assert(s =~= Seq::<char>::empty());
    }
}

/// The text of a version tag: `v`, then the three numbers joined by dots.
pub open spec fn version_tag(a: u64, b: u64, c: u64) -> Seq<char> {
    seq!['v'] + dec_text(a as nat) + seq!['.'] + dec_text(b as nat) + seq!['.'] + dec_text(c as nat)
}

proof fn lemma_number_text(n: u64)
    ensures
        all_digits(dec_text(n as nat)),
        dec_text(n as nat).len() > 0,
        is_ascii_digit(dec_text(n as nat)[0]),
        is_ascii_digit(dec_text(n as nat).last()),
        forall|i: int| 0 <= i < dec_text(n as nat).len() ==> dec_text(n as nat)[i] != '.',
        lead_digits(dec_text(n as nat)) == dec_text(n as nat),
        piece_fits(dec_text(n as nat)),
        digits_value(lead_digits(dec_text(n as nat))) == n,
{
    let t = dec_text(n as nat);
    crate::net::lemma_dec_text_digits(n as nat);
    assert(is_ascii_digit(t[0]));
    assert(is_ascii_digit(t[t.len() - 1]));
    assert forall|i: int| 0 <= i < t.len() implies t[i] != '.' by {
        assert(is_ascii_digit(t[i]));
    }
    lemma_lead_digits_of_digits(t);
}

/// A tag written from a version reads back as that version (the release
/// tags track the versions this way: tag `v0.31.0` for version 0.31.0).
pub proof fn lemma_version_tag_roundtrip(a: u64, b: u64, c: u64)
    ensures
        parsed_version(version_tag(a, b, c)) == Some((a, b, c)),
{
    let ta = dec_text(a as nat);
    let tb = dec_text(b as nat);
    let tc = dec_text(c as nat);
    lemma_number_text(a);
    lemma_number_text(b);
    lemma_number_text(c);
    let tag = version_tag(a, b, c);
    let body = ta + seq!['.'] + tb + seq!['.'] + tc;
    assert(tag.last() == tc.last());
    assert(!crate::text::is_unicode_whitespace(tag[0]));
    assert(!crate::text::is_unicode_whitespace(tag.last()));
    crate::text::lemma_trim_noop(tag);
    assert(tag.drop_first() =~= body);
    assert(body[0] == ta[0]);
    assert(trim_start_char(body, 'v') == body);
    assert(trim_start_char(tag, 'v') == body);
    assert(trim_start_char(body, 'V') == body);
    assert(version_body(tag) == body);
    crate::text::lemma_split_single(ta, '.');
    crate::text::lemma_split_push_piece(ta, tb, '.');
    crate::text::lemma_split_push_piece(ta + seq!['.'] + tb, tc, '.');
    let ps = split_char(body, '.');
    assert(ps =~= seq![ta, tb, tc]);
    lemma_lead_digits_all(ta);
    lemma_lead_digits_all(tb);
    lemma_lead_digits_all(tc);
    let p1 = ps.drop_first();
    let p2 = p1.drop_first();
    let p3 = p2.drop_first();
    assert(p1 =~= seq![tb, tc]);
    assert(p2 =~= seq![tc]);
    assert(p3.len() == 0);
    assert(pieces_read(p3, 0) == 0);
    assert(pieces_read(p2, 1) == 1);
    assert(pieces_read(p1, 2) == 2);
    assert(pieces_read(ps, 3) == 3);
    let r = read_pieces(tag);
    assert(r =~= ps);
    assert(piece_fits(r[0]));
    assert(version_field(tag, 0) == a);
    assert(version_field(tag, 1) == b);
    assert(version_field(tag, 2) == c);
}

/// Whether version `a` is at most version `b` (`a <= b` on the tuples).
pub fn version_at_most(a: (u64, u64, u64), b: (u64, u64, u64)) -> (r: bool)
    ensures
        r == version_le(a, b),
{
    a.0 < b.0 || (a.0 == b.0 && (a.1 < b.1 || (a.1 == b.1 && a.2 <= b.2)))
}

// ---------------------------------------------------------------------
// Release assets
// ---------------------------------------------------------------------

/// One file attached to a release, by the fields the updater reads; a
/// field that the release listing lacks (or gives with the wrong type)
/// is `None`.
#[derive(Clone, Debug)]
pub struct ReleaseAsset {
    pub name: Option<String>,
    pub browser_download_url: Option<String>,
    pub size: Option<u64>,
}

pub struct AssetView {
    pub name: Option<Seq<char>>,
    pub url: Option<Seq<char>>,
    pub size: Option<u64>,
}

pub open spec fn opt_text(o: Option<String>) -> Option<Seq<char>> {
    match o {
        Some(s) => Some(s@),
        None => None,
    }
}

pub open spec fn asset_view(a: ReleaseAsset) -> AssetView {
    AssetView { name: opt_text(a.name), url: opt_text(a.browser_download_url), size: a.size }
}

pub open spec fn asset_views(s: Seq<ReleaseAsset>) -> Seq<AssetView> {
    Seq::new(s.len(), |i: int| asset_view(s[i]))
}

/// The platform word looked for in package names.
pub open spec fn platform_word(windows: bool) -> Seq<char> {
    if windows {
        seq!['w', 'i', 'n', 'd', 'o', 'w', 's']
    } else {
        seq!['l', 'i', 'n', 'u', 'x']
    }
}

pub open spec fn tar_gz_suffix() -> Seq<char> {
    seq!['.', 't', 'a', 'r', '.', 'g', 'z']
}

pub open spec fn zip_suffix() -> Seq<char> {
    seq!['.', 'z', 'i', 'p']
}

pub open spec fn sha256_suffix() -> Seq<char> {
    seq!['.', 's', 'h', 'a', '2', '5', '6']
}

/// How much an asset is preferred as the platform package (lower is
/// better), or `None` when it is not one. By its lowercased name: one that
/// names the platform is a `.tar.gz` (0) or a `.zip` (1); otherwise the
/// flat `<platform>.zip` (2).
pub open spec fn asset_rank(a: AssetView, windows: bool) -> Option<nat> {
    match a.name {
        None => None,
        Some(n) => {
            let lower = unicode_lower(n);
            let p = platform_word(windows);
            if contains_seq(lower, p) {
                if ends_with(lower, tar_gz_suffix()) {
                    Some(0)
                } else if ends_with(lower, zip_suffix()) {
                    Some(1)
                } else {
                    None
                }
            } else if lower == p + zip_suffix() {
                Some(2)
            } else {
                None
            }
        },
    }
}

/// Asset `i` is the package taken: the first of the best-ranked ones.
pub open spec fn is_first_best(assets: Seq<AssetView>, windows: bool, i: int) -> bool {
    &&& 0 <= i < assets.len()
    &&& asset_rank(assets[i], windows) is Some
    &&& forall|j: int|
        0 <= j < assets.len() && (#[trigger] asset_rank(assets[j], windows)) is Some ==> asset_rank(
            assets[i],
            windows,
        ).unwrap() <= asset_rank(assets[j], windows).unwrap()
    &&& forall|j: int|
        0 <= j < i && (#[trigger] asset_rank(assets[j], windows)) is Some ==> asset_rank(
            assets[i],
            windows,
        ).unwrap() < asset_rank(assets[j], windows).unwrap()
}

/// The download address of the first asset named `target` (ASCII case
/// ignored, a nameless asset counting as named ``) that has one.
pub open spec fn checksum_url_in(assets: Seq<AssetView>, target: Seq<char>) -> Option<Seq<char>>
    decreases assets.len(),
{
    if assets.len() == 0 {
        None
    } else {
        let a = assets[0];
        let n = match a.name {
            Some(n) => n,
            None => Seq::<char>::empty(),
        };
        if eq_ignore_case(n, target) && a.url is Some {
            a.url
        } else {
            checksum_url_in(assets.drop_first(), target)
        }
    }
}

/// The package chosen for the platform: its download address, its size
/// (0 when not given) and the address of its `<name>.sha256` companion,
/// if any. `None` when no asset is a package for the platform, or the one
/// chosen has no download address.
pub open spec fn picked_assets(assets: Seq<AssetView>, windows: bool) -> Option<
    (Seq<char>, u64, Option<Seq<char>>),
> {
    if exists|i: int| is_first_best(assets, windows, i) {
        let i = choose|i: int| is_first_best(assets, windows, i);
        let a = assets[i];
        match a.url {
            None => None,
            Some(u) => Some(
                (
                    u,
                    match a.size {
                        Some(n) => n,
                        None => 0,
                    },
                    checksum_url_in(assets, a.name.unwrap() + sha256_suffix()),
                ),
            ),
        }
    } else {
        None
    }
}

proof fn lemma_first_best_unique(assets: Seq<AssetView>, windows: bool, i: int, j: int)
    requires
        is_first_best(assets, windows, i),
        is_first_best(assets, windows, j),
    ensures
        i == j,
{
    if i < j {
        assert(asset_rank(assets[i], windows) is Some);
    } else if j < i {
        assert(asset_rank(assets[j], windows) is Some);
    }
}

/// Characters of a literal word.
fn word_chars(windows: bool) -> (w: Vec<char>)
    ensures
        w@ == platform_word(windows),
{
    if windows {
        vec!['w', 'i', 'n', 'd', 'o', 'w', 's']
    } else {
        vec!['l', 'i', 'n', 'u', 'x']
    }
}

/// The rank of one asset; see `asset_rank`.
fn rank_of(a: &ReleaseAsset, windows: bool) -> (r: Option<u64>)
    ensures
        match r {
            Some(v) => asset_rank(asset_view(*a), windows) == Some(v as nat),
            None => asset_rank(asset_view(*a), windows) is None,
        },
{
    match &a.name {
        None => None,
        Some(n) => {
            let lowered = to_lowercase(n.as_str());
            let lower = chars_of(lowered.as_str());
            let p = word_chars(windows);
            let tgz = vec!['.', 't', 'a', 'r', '.', 'g', 'z'];
            let zip = vec!['.', 'z', 'i', 'p'];
            assert(tgz@ == tar_gz_suffix());
            assert(zip@ == zip_suffix());
            if chars_contains(lower.as_slice(), p.as_slice()) {
                if chars_ends_with(lower.as_slice(), tgz.as_slice()) {
                    Some(0)
                } else if chars_ends_with(lower.as_slice(), zip.as_slice()) {
                    Some(1)
                } else {
                    None
                }
            } else {
                let mut flat = p.clone();
                flat.push('.');
                flat.push('z');
                flat.push('i');
                flat.push('p');
                assert(flat@ =~= platform_word(windows) + zip_suffix());
                if chars_eq(lower.as_slice(), flat.as_slice()) {
                    Some(2)
                } else {
                    None
                }
            }
        },
    }
}

/// The address of the checksum companion named `target`; see
/// `checksum_url_in`.
fn find_checksum_url(assets: &[ReleaseAsset], target: &[char]) -> (r: Option<String>)
    ensures
        opt_text(r) == checksum_url_in(asset_views(assets@), target@),
{
    let ghost all = asset_views(assets@);
    let mut i: usize = 0;
    assert(all.skip(0) =~= all);
    while i < assets.len()
        invariant
            i <= assets.len(),
            all == asset_views(assets@),
            checksum_url_in(all, target@) == checksum_url_in(all.skip(i as int), target@),
        decreases assets.len() - i,
    {
        let a = &assets[i];
        proof {
            let t = all.skip(i as int);
            assert(t[0] == asset_view(assets@[i as int]));
            assert(t.drop_first() =~= all.skip(i + 1));
        }
        let name_chars: Vec<char> = match &a.name {
            Some(n) => chars_of(n.as_str()),
            None => Vec::new(),
        };
        if chars_eq_ignore_case(name_chars.as_slice(), target) {
            match &a.browser_download_url {
                Some(u) => {
                    return Some(u.clone());
                },
                None => {},
            }
        }
        i = i + 1;
    }
    proof {
        assert(all.skip(i as int).len() == 0);
    }
    None
}

/// Picks the platform's release package among a release's assets: a
/// `.tar.gz` or `.zip` whose name mentions the platform (`linux` or
/// `windows`), `.tar.gz` first, then the flat `<platform>.zip`; among
/// equals the first listed. Gives its download address, its size and the
/// address of its `.sha256` companion, if the release has one.
pub fn pick_assets(assets: &[ReleaseAsset], windows: bool) -> (r: Option<(String, u64, Option<String>)>)
    ensures
        match r {
            None => picked_assets(asset_views(assets@), windows) is None,
            Some((u, n, c)) => picked_assets(asset_views(assets@), windows) == Some(
                (u@, n, opt_text(c)),
            ),
        },
{
    let ghost all = asset_views(assets@);
    let mut best: Option<(usize, u64)> = None;
    let mut i: usize = 0;
    while i < assets.len()
        invariant
            i <= assets.len(),
            all == asset_views(assets@),
            match best {
                None => forall|j: int| 0 <= j < i ==> (#[trigger] asset_rank(all[j], windows)) is None,
                Some((b, br)) => {
                    &&& b < i
                    &&& asset_rank(all[b as int], windows) == Some(br as nat)
                    &&& forall|j: int|
                        0 <= j < i && (#[trigger] asset_rank(all[j], windows)) is Some ==> br
                            <= asset_rank(all[j], windows).unwrap()
                    &&& forall|j: int|
                        0 <= j < b && (#[trigger] asset_rank(all[j], windows)) is Some ==> br
                            < asset_rank(all[j], windows).unwrap()
                },
            },
        decreases assets.len() - i,
    {
        let r = rank_of(&assets[i], windows);
        assert(all[i as int] == asset_view(assets@[i as int]));
        match r {
            Some(v) => {
                let better = match best {
                    None => true,
                    Some((_, br)) => v < br,
                };
                if better {
                    best = Some((i, v));
                }
            },
            None => {},
        }
        i = i + 1;
    }
    match best {
        None => {
            proof {
                assert forall|k: int| !is_first_best(all, windows, k) by {
                    if 0 <= k < all.len() {
                        assert(asset_rank(all[k], windows) is None);
                    }
                }
            }
            None
        },
        Some((b, _)) => {
            proof {
                assert(is_first_best(all, windows, b as int));
                let c = choose|k: int| is_first_best(all, windows, k);
                lemma_first_best_unique(all, windows, b as int, c);
            }
            let a = &assets[b];
            assert(all[b as int] == asset_view(assets@[b as int]));
            match &a.browser_download_url {
                None => None,
                Some(u) => {
                    let size: u64 = match a.size {
                        Some(n) => n,
                        None => 0,
                    };
                    let name = match &a.name {
                        Some(n) => n,
                        None => {
                            assert(false);
                            return None;
                        },
                    };
                    let mut target = chars_of(name.as_str());
                    target.push('.');
                    target.push('s');
                    target.push('h');
                    target.push('a');
                    target.push('2');
                    target.push('5');
                    target.push('6');
                    assert(target@ =~= name@ + sha256_suffix());
                    let c = find_checksum_url(assets, target.as_slice());
                    Some((u.clone(), size, c))
                },
            }
        },
    }
}

// ---------------------------------------------------------------------
// Release check
// ---------------------------------------------------------------------

/// The latest release as the release listing gives it: its tag (empty
/// when missing), its notes (empty when missing) and its assets (`None`
/// when the listing has no asset list).
#[derive(Clone, Debug)]
pub struct Release {
    pub tag_name: String,
    pub body: String,
    pub assets: Option<Vec<ReleaseAsset>>,
}

/// A release that can be installed.
#[derive(Clone, Debug)]
pub struct UpdateInfo {
    /// Full release tag, e.g. "v0.31.0".
    pub tag: String,
    /// Tag with any leading "v" stripped, for display.
    pub version: String,
    /// Release notes (truncated).
    pub notes: String,
    pub archive_url: String,
    pub archive_size: u64,
    pub checksum_url: Option<String>,
}

pub struct UpdateInfoView {
    pub tag: Seq<char>,
    pub version: Seq<char>,
    pub notes: Seq<char>,
    pub archive_url: Seq<char>,
    pub archive_size: u64,
    pub checksum_url: Option<Seq<char>>,
}

pub open spec fn info_view(i: UpdateInfo) -> UpdateInfoView {
    UpdateInfoView {
        tag: i.tag@,
        version: i.version@,
        notes: i.notes@,
        archive_url: i.archive_url@,
        archive_size: i.archive_size,
        checksum_url: opt_text(i.checksum_url),
    }
}

/// What a release check found.
#[derive(Clone, Debug)]
pub enum CheckOutcome {
    /// A newer release with a package for this platform.
    Available(UpdateInfo),
    /// The latest release is not newer; its tag.
    UpToDate(String),
    /// No versioned release, or a newer one without a usable package.
    NoUsableRelease,
}

pub enum CheckView {
    Available(UpdateInfoView),
    UpToDate(Seq<char>),
    NoUsableRelease,
}

pub open spec fn check_view(o: CheckOutcome) -> CheckView {
    match o {
        CheckOutcome::Available(i) => CheckView::Available(info_view(i)),
        CheckOutcome::UpToDate(t) => CheckView::UpToDate(t@),
        CheckOutcome::NoUsableRelease => CheckView::NoUsableRelease,
    }
}

/// The most characters of release notes kept.
pub const MAX_NOTES_CHARS: usize = 2000;

/// The first `MAX_NOTES_CHARS` characters of the notes.
pub open spec fn notes_kept(body: Seq<char>) -> Seq<char> {
    if body.len() <= MAX_NOTES_CHARS {
        body
    } else {
        body.take(MAX_NOTES_CHARS as int)
    }
}

/// The version of this build as a tuple (all zero when it does not parse).
pub open spec fn own_version(current: Seq<char>) -> (u64, u64, u64) {
    match parsed_version(current) {
        Some(v) => v,
        None => (0, 0, 0),
    }
}

/// What checking the latest release against the running version
/// `current` finds. The tag is trimmed; an unversioned tag is no usable
/// release; a version at most the running one is up to date; otherwise
/// the platform package is needed.
pub open spec fn check_spec(
    tag_name: Seq<char>,
    body: Seq<char>,
    assets: Option<Seq<AssetView>>,
    current: Seq<char>,
    windows: bool,
) -> CheckView {
    let tag = trim(tag_name);
    match parsed_version(tag) {
        None => CheckView::NoUsableRelease,
        Some(latest) => if version_le(latest, own_version(current)) {
            CheckView::UpToDate(tag)
        } else {
            match assets {
                None => CheckView::NoUsableRelease,
                Some(a) => match picked_assets(a, windows) {
                    None => CheckView::NoUsableRelease,
                    Some((url, size, checksum)) => CheckView::Available(
                        UpdateInfoView {
                            tag,
                            version: trim_start_char(trim_start_char(tag, 'v'), 'V'),
                            notes: notes_kept(body),
                            archive_url: url,
                            archive_size: size,
                            checksum_url: checksum,
                        },
                    ),
                },
            }
        },
    }
}

pub open spec fn release_assets(r: Release) -> Option<Seq<AssetView>> {
    match r.assets {
        Some(v) => Some(asset_views(v@)),
        None => None,
    }
}

/// Decides what the latest release means for a build of version
/// `current` (see `check_spec`). An update is only ever offered when the
/// release's version is greater than the running one: never a downgrade.
pub fn check_release(release: &Release, current: &str, windows: bool) -> (r: CheckOutcome)
    ensures
        check_view(r) == check_spec(release.tag_name@, release.body@, release_assets(*release), current@, windows),
        r is Available ==> (parsed_version(trim(release.tag_name@)) matches Some(latest) && !version_le(
            latest,
            own_version(current@),
        )),
{
    let raw = chars_of(release.tag_name.as_str());
    let tag_chars = trim_chars(raw.as_slice());
    let tag = string_from_chars(tag_chars.as_slice());
    let latest = match parse_version(tag.as_str()) {
        Some(v) => v,
        None => return CheckOutcome::NoUsableRelease,
    };
    let own = match parse_version(current) {
        Some(v) => v,
        None => (0, 0, 0),
    };
    if version_at_most(latest, own) {
        return CheckOutcome::UpToDate(tag);
    }
    let assets = match &release.assets {
        Some(a) => a,
        None => return CheckOutcome::NoUsableRelease,
    };
    let (archive_url, archive_size, checksum_url) = match pick_assets(assets.as_slice(), windows) {
        Some(p) => p,
        None => return CheckOutcome::NoUsableRelease,
    };
    let body = chars_of(release.body.as_str());
    let mut kept: Vec<char> = Vec::new();
    let mut i: usize = 0;
    while i < body.len() && i < MAX_NOTES_CHARS
        invariant
            i <= body.len(),
            i <= MAX_NOTES_CHARS,
            kept@ == body@.take(i as int),
        decreases body.len() - i,
    {
        kept.push(body[i]);
        proof {
            assert(body@.take(i + 1) =~= body@.take(i as int).push(body@[i as int]));
        }
        i = i + 1;
    }
    proof {
        if body.len() <= MAX_NOTES_CHARS {
            assert(body@.take(body.len() as int) =~= body@);
        }
    }
    let notes = string_from_chars(kept.as_slice());
    let v1 = strip_leading(tag_chars.as_slice(), 'v');
    let v2 = strip_leading(v1.as_slice(), 'V');
    let version = string_from_chars(v2.as_slice());
    proof {
        assert(notes@ == notes_kept(release.body@));
        assert(release_assets(*release) == Some(asset_views(assets@)));
        assert(tag@ == trim(release.tag_name@));
    }
    CheckOutcome::Available(
        UpdateInfo { tag, version, notes, archive_url, archive_size, checksum_url },
    )
}

// ---------------------------------------------------------------------
// Updater state
// ---------------------------------------------------------------------

/// Where the updater is, as the settings screen shows it.
#[derive(Clone, Debug, PartialEq)]
pub enum UpdateStatus {
    Idle,
    Checking,
    UpToDate { version: String },
    Available { version: String },
    NoRelease,
    Downloading { bytes: u64, total: u64 },
    Verifying,
    Extracting,
    Applying,
    Failed(String),
}

/// The updater's status and, once a check found one, the release to
/// install.
pub struct UpdaterState {
    pub status: UpdateStatus,
    pub info: Option<UpdateInfo>,
}

impl UpdaterState {
    /// Records what a release check gave (an error text when the check
    /// itself failed): the status shows it, and the release to install is
    /// kept only when one is available.
    pub fn record_check(&mut self, outcome: Result<CheckOutcome, String>)
        ensures
            match outcome {
                Ok(CheckOutcome::Available(info)) => final(self).status == (UpdateStatus::Available {
                    version: info.version,
                }) && final(self).info == Some(info),
                Ok(CheckOutcome::UpToDate(v)) => final(self).status == (UpdateStatus::UpToDate {
                    version: v,
                }) && final(self).info is None,
                Ok(CheckOutcome::NoUsableRelease) => final(self).status == UpdateStatus::NoRelease
                    && final(self).info is None,
                Err(e) => final(self).status == UpdateStatus::Failed(e) && final(self).info is None,
            },
    {
        self.info = None;
        match outcome {
            Ok(CheckOutcome::Available(info)) => {
                self.status = UpdateStatus::Available { version: info.version.clone() };
                self.info = Some(info);
            },
            Ok(CheckOutcome::UpToDate(version)) => {
                self.status = UpdateStatus::UpToDate { version };
            },
            Ok(CheckOutcome::NoUsableRelease) => {
                self.status = UpdateStatus::NoRelease;
            },
            Err(e) => {
                self.status = UpdateStatus::Failed(e);
            },
        }
    }
}

impl UpdaterState {
    /// Records how an install attempt ended. On success the swap script
    /// is running and the app must now exit so that it can replace the
    /// binaries: the result says whether to quit.
    pub fn record_install(&mut self, result: Result<(), String>) -> (quit: bool)
        ensures
            quit == result is Ok,
            final(self).info == old(self).info,
            match result {
                Ok(()) => final(self).status == UpdateStatus::Applying,
                Err(e) => final(self).status == UpdateStatus::Failed(e),
            },
    {
        match result {
            Ok(()) => {
                self.status = UpdateStatus::Applying;
                true
            },
            Err(e) => {
                self.status = UpdateStatus::Failed(e);
                false
            },
        }
    }
}

#[verifier::external_type_specification]
#[verifier::external_body]
#[verifier::reject_recursive_types(T)]
pub struct ExMutex<T: ?Sized>(std::sync::Mutex<T>);

/// `Mutex::new`: a lock around the value. The lock is opaque here, so
/// nothing is stated of what it holds.
#[verifier::external_body]
pub(crate) fn new_mutex<T>(value: T) -> std::sync::Mutex<T> {
    std::sync::Mutex::new(value)
}

/// The updater state shared between the interface and the worker
/// threads, starting idle with no release.
pub fn shared() -> std::sync::Arc<std::sync::Mutex<UpdaterState>> {
    std::sync::Arc::new(new_mutex(UpdaterState { status: UpdateStatus::Idle, info: None }))
}

// ---------------------------------------------------------------------
// Checksums
// ---------------------------------------------------------------------

/// A SHA-256 digest in hex: 64 ASCII hex digits. (Being ASCII, such a
/// text is as long in bytes as in characters.)
pub open spec fn is_sha256_hex(h: Seq<char>) -> bool {
    h.len() == 64 && forall|i: int| 0 <= i < h.len() ==> is_ascii_hexdigit(#[trigger] h[i])
}

/// The run of non-whitespace characters a text starts with.
pub open spec fn word_prefix(s: Seq<char>) -> Seq<char>
    decreases s.len(),
{
    if s.len() > 0 && !is_unicode_whitespace(s[0]) {
        seq![s[0]] + word_prefix(s.drop_first())
    } else {
        Seq::<char>::empty()
    }
}

/// The first whitespace-separated word of a text, or the empty text when
/// it has none (`split_whitespace().next().unwrap_or("")`).
pub open spec fn first_word(s: Seq<char>) -> Seq<char> {
    word_prefix(trim_start(s))
}

/// The digest a `.sha256` file announces: its first word, lowercased.
pub open spec fn announced_digest(file: Seq<char>) -> Seq<char> {
    unicode_lower(first_word(file))
}

/// Error when the checksum file does not hold a digest.
pub const MALFORMED_CHECKSUM: &'static str = "release checksum file is malformed -- aborting install";

/// Error when the package's digest is not the announced one.
pub open spec fn mismatch_message(expected: Seq<char>, actual: Seq<char>) -> Seq<char> {
    "checksum mismatch (expected "@ + expected + ", got "@ + actual
        + ") -- install aborted, nothing was changed"@
}

proof fn lemma_word_prefix_step(s: Seq<char>, i: int)
    requires
        0 <= i < s.len(),
        !is_unicode_whitespace(s[i]),
    ensures
        word_prefix(s.skip(i)) == seq![s[i]] + word_prefix(s.skip(i + 1)),
{
    let t = s.skip(i);
    assert(t[0] == s[i]);
    assert(t.drop_first() =~= s.skip(i + 1));
}

/// The first whitespace-separated word of a text; see `first_word`.
fn first_word_chars(s: &[char]) -> (w: Vec<char>)
    ensures
        w@ == first_word(s@),
{
    let mut start: usize = 0;
    assert(s@.skip(0) == s@);
    while start < s.len() && is_whitespace_char(s[start])
        invariant
            start <= s.len(),
            trim_start(s@) == trim_start(s@.skip(start as int)),
        decreases s.len() - start,
    {
        assert(s@.skip(start as int).drop_first() == s@.skip(start + 1));
        start = start + 1;
    }
    let ghost rest = s@.skip(start as int);
    assert(trim_start(s@) == rest) by {
        if start < s.len() {
            assert(rest[0] == s@[start as int]);
        }
    }
    let mut w: Vec<char> = Vec::new();
    let mut i: usize = start;
    assert(rest.skip(0) =~= rest);
    assert(rest.take(0) =~= Seq::<char>::empty());
    while i < s.len() && !is_whitespace_char(s[i])
        invariant
            start <= i <= s.len(),
            rest == s@.skip(start as int),
            w@ == rest.take(i - start),
            word_prefix(rest) == rest.take(i - start) + word_prefix(rest.skip(i - start)),
        decreases s.len() - i,
    {
        let ghost k: int = i - start;
        proof {
            assert(rest[k] == s@[i as int]);
            lemma_word_prefix_step(rest, k);
            assert(rest.take(k + 1) =~= rest.take(k) + seq![rest[k]]);
            assert(rest.take(k) + (seq![rest[k]] + word_prefix(rest.skip(k + 1))) =~= rest.take(k + 1)
                + word_prefix(rest.skip(k + 1)));
        }
        w.push(s[i]);
        i = i + 1;
    }
    proof {
        let k: int = i - start;
        let t = rest.skip(k);
        if i < s.len() {
            assert(t[0] == s@[i as int]);
        }
        assert(word_prefix(t) =~= Seq::<char>::empty());
        assert(rest.take(k) + Seq::<char>::empty() =~= rest.take(k));
    }
    w
}

/// Whether a text is a SHA-256 hex digest; see `is_sha256_hex`.
fn is_digest(h: &[char]) -> (r: bool)
    ensures
        r == is_sha256_hex(h@),
{
    if h.len() != 64 {
        return false;
    }
    let mut i: usize = 0;
    while i < h.len()
        invariant
            i <= h.len(),
            forall|k: int| 0 <= k < i ==> is_ascii_hexdigit(#[trigger] h@[k]),
        decreases h.len() - i,
    {
        if !is_hex_char(h[i]) {
            return false;
        }
        i = i + 1;
    }
    true
}

/// The digest a release's `.sha256` file announces (its first word,
/// lowercased), refused when that is no SHA-256 hex digest.
pub fn announced_checksum(checksum_file: &str) -> (r: Result<String, String>)
    ensures
        is_sha256_hex(announced_digest(checksum_file@)) ==> (r matches Ok(d) && d@ == announced_digest(
            checksum_file@,
        )),
        !is_sha256_hex(announced_digest(checksum_file@)) ==> (r matches Err(m) && m@
            == MALFORMED_CHECKSUM@),
{
    let file = chars_of(checksum_file);
    let word = first_word_chars(file.as_slice());
    let word_text = string_from_chars(word.as_slice());
    let expected = to_lowercase(word_text.as_str());
    let exp = chars_of(expected.as_str());
    if !is_digest(exp.as_slice()) {
        return Err(MALFORMED_CHECKSUM.to_string());
    }
    Ok(expected)
}

/// Checks a downloaded package against its release's `.sha256` file: the
/// file's first word, lowercased, must be a SHA-256 hex digest, and the
/// package's own digest `actual` must be that one.
pub fn verify_checksum(checksum_file: &str, actual: &str) -> (r: Result<(), String>)
    ensures
        r is Ok <==> is_sha256_hex(announced_digest(checksum_file@)) && actual@ == announced_digest(
            checksum_file@,
        ),
        !is_sha256_hex(announced_digest(checksum_file@)) ==> (r matches Err(m) && m@
            == MALFORMED_CHECKSUM@),
        is_sha256_hex(announced_digest(checksum_file@)) && actual@ != announced_digest(checksum_file@)
            ==> (r matches Err(m) && m@ == mismatch_message(
            announced_digest(checksum_file@),
            actual@,
        )),
{
    let file = chars_of(checksum_file);
    let word = first_word_chars(file.as_slice());
    let word_text = string_from_chars(word.as_slice());
    let expected = to_lowercase(word_text.as_str());
    let exp = chars_of(expected.as_str());
    if !is_digest(exp.as_slice()) {
        return Err(MALFORMED_CHECKSUM.to_string());
    }
    let act = chars_of(actual);
    if !chars_eq(act.as_slice(), exp.as_slice()) {
        let mut m: Vec<char> = Vec::new();
        let p1 = chars_of("checksum mismatch (expected ");
        let p2 = chars_of(", got ");
        let p3 = chars_of(") -- install aborted, nothing was changed");
        push_all(&mut m, p1.as_slice());
        push_all(&mut m, exp.as_slice());
        push_all(&mut m, p2.as_slice());
        push_all(&mut m, act.as_slice());
        push_all(&mut m, p3.as_slice());
        return Err(string_from_chars(m.as_slice()));
    }
    Ok(())
}

/// What `sha256sum` printed gives: its first word, lowercased, if it
/// printed one.
pub open spec fn sha256sum_digest_spec(stdout: Seq<u8>) -> Option<Seq<char>> {
    let text = lossy_text(stdout);
    if trim_start(text).len() == 0 {
        None
    } else {
        Some(unicode_lower(first_word(text)))
    }
}

/// The digest in the output of `sha256sum <file>`; see
/// `sha256sum_digest_spec`.
pub fn sha256sum_digest(stdout: &[u8]) -> (r: Option<String>)
    ensures
        opt_text(r) == sha256sum_digest_spec(stdout@),
{
    let text = string_from_utf8_lossy(stdout);
    let chars = chars_of(text.as_str());
    let word = first_word_chars(chars.as_slice());
    if word.len() == 0 {
        proof {
            let t = trim_start(chars@);
            if t.len() > 0 {
                assert(!is_unicode_whitespace(t[0])) by {
                    lemma_trim_start_first(chars@);
                }
                assert(word_prefix(t).len() > 0);
            }
        }
        return None;
    }
    proof {
        if trim_start(chars@).len() == 0 {
            assert(word_prefix(trim_start(chars@)).len() == 0);
        }
    }
    let w = string_from_chars(word.as_slice());
    Some(to_lowercase(w.as_str()))
}

/// The digest one output line of `openssl dgst -sha256` (`SHA2-256(f)=
/// <hex>`) or `certutil -hashfile` (the bare hex) holds: the part after
/// the first `=` for openssl, the whole line for certutil, trimmed, if it
/// is a SHA-256 hex digest; lowercased.
pub open spec fn line_digest(line: Seq<char>, after_equals: bool) -> Option<Seq<char>> {
    let parts = split_char(line, '=');
    let field = if after_equals {
        if parts.len() >= 2 {
            Some(trim(parts[1]))
        } else {
            None
        }
    } else {
        Some(trim(line))
    };
    match field {
        Some(f) => if is_sha256_hex(f) {
            Some(unicode_lower(f))
        } else {
            None
        },
        None => None,
    }
}

/// The digest of the first line that holds one.
pub open spec fn first_line_digest(lines: Seq<Seq<char>>, after_equals: bool) -> Option<Seq<char>>
    decreases lines.len(),
{
    if lines.len() == 0 {
        None
    } else {
        match line_digest(lines[0], after_equals) {
            Some(d) => Some(d),
            None => first_line_digest(lines.drop_first(), after_equals),
        }
    }
}

/// The digest in the output of a hashing tool that prints it on a line of
/// its own (`after_equals` false: `certutil -hashfile <file> SHA256`) or
/// after an `=` (`after_equals` true: `openssl dgst -sha256 <file>`).
pub fn tool_line_digest(stdout: &[u8], after_equals: bool) -> (r: Option<String>)
    ensures
        opt_text(r) == first_line_digest(text_lines(lossy_text(stdout@)), after_equals),
{
    let text = string_from_utf8_lossy(stdout);
    let chars = chars_of(text.as_str());
    let lines = lines_of(chars.as_slice());
    assert(chars@ == lossy_text(stdout@));
    let ghost ls = text_lines(chars@);
    let mut i: usize = 0;
    assert(ls.skip(0) =~= ls);
    while i < lines.len()
        invariant
            i <= lines.len(),
            lines@.len() == ls.len(),
            ls == text_lines(lossy_text(stdout@)),
            forall|k: int| 0 <= k < lines@.len() ==> #[trigger] lines@[k]@ == ls[k],
            first_line_digest(ls, after_equals) == first_line_digest(ls.skip(i as int), after_equals),
        decreases lines.len() - i,
    {
        proof {
            let t = ls.skip(i as int);
            assert(t[0] == ls[i as int]);
            assert(t.drop_first() =~= ls.skip(i + 1));
        }
        let line = &lines[i];
        let field: Option<Vec<char>> = if after_equals {
            let parts = split_chars(line.as_slice(), '=');
            if parts.len() >= 2 {
                Some(trim_chars(parts[1].as_slice()))
            } else {
                None
            }
        } else {
            Some(trim_chars(line.as_slice()))
        };
        proof {
            let ps = split_char(ls[i as int], '=');
            if after_equals && ps.len() >= 2 {
                assert(field matches Some(f) && f@ == trim(ps[1]));
            }
        }
        match field {
            Some(f) => {
                if is_digest(f.as_slice()) {
                    let ft = string_from_chars(f.as_slice());
                    proof {
                        assert(line_digest(ls[i as int], after_equals) == Some(unicode_lower(f@)));
                        let t = ls.skip(i as int);
                        assert(first_line_digest(t, after_equals) == Some(unicode_lower(f@)));
                    }
                    return Some(to_lowercase(ft.as_str()));
                }
            },
            None => {},
        }
        i = i + 1;
    }
    None
}

/// The digest in what PowerShell's `Get-FileHash` printed: the whole
/// output trimmed and lowercased, if that is a SHA-256 hex digest.
pub open spec fn powershell_digest_spec(stdout: Seq<u8>) -> Option<Seq<char>> {
    let t = unicode_lower(trim(lossy_text(stdout)));
    if is_sha256_hex(t) {
        Some(t)
    } else {
        None
    }
}

/// See `powershell_digest_spec`.
pub fn powershell_digest(stdout: &[u8]) -> (r: Option<String>)
    ensures
        opt_text(r) == powershell_digest_spec(stdout@),
{
    let text = string_from_utf8_lossy(stdout);
    let chars = chars_of(text.as_str());
    let t = trim_chars(chars.as_slice());
    let ts = string_from_chars(t.as_slice());
    let lowered = to_lowercase(ts.as_str());
    let lc = chars_of(lowered.as_str());
    if is_digest(lc.as_slice()) {
        Some(lowered)
    } else {
        None
    }
}

// ---------------------------------------------------------------------
// Installing: which files, and the script that swaps them
// ---------------------------------------------------------------------

/// The names of the files an update replaces next to the running
/// executable: the app, the command-line tool and the browser, with
/// `.exe` on Windows, where the tunnel driver's DLL comes too.
pub open spec fn installable_names_spec(windows: bool) -> Seq<Seq<char>> {
    if windows {
        seq!["lan_mesh_gui.exe"@, "lan_mesh.exe"@, "lan_mesh_browser.exe"@, "wintun.dll"@]
    } else {
        seq!["lan_mesh_gui"@, "lan_mesh"@, "lan_mesh_browser"@]
    }
}

/// See `installable_names_spec`.
pub fn installable_names(windows: bool) -> (r: Vec<String>)
    ensures
        r@.len() == installable_names_spec(windows).len(),
        forall|i: int| 0 <= i < r@.len() ==> #[trigger] r@[i]@ == installable_names_spec(windows)[i],
{
    let mut r: Vec<String> = Vec::new();
    if windows {
        r.push("lan_mesh_gui.exe".to_string());
        r.push("lan_mesh.exe".to_string());
        r.push("lan_mesh_browser.exe".to_string());
        r.push("wintun.dll".to_string());
    } else {
        r.push("lan_mesh_gui".to_string());
        r.push("lan_mesh".to_string());
        r.push("lan_mesh_browser".to_string());
    }
    r
}

/// Whether a file name (lowercased) is the app's own binary.
pub open spec fn is_gui_name(name: Seq<char>) -> bool {
    unicode_lower(name) == "lan_mesh_gui"@ || unicode_lower(name) == "lan_mesh_gui.exe"@
}

/// Whether a file, by its name, is the app's own binary (which the swap
/// script starts again).
pub fn is_gui_binary(file_name: &str) -> (r: bool)
    ensures
        r == is_gui_name(file_name@),
{
    let lowered = to_lowercase(file_name);
    let l = chars_of(lowered.as_str());
    let a = chars_of("lan_mesh_gui");
    let b = chars_of("lan_mesh_gui.exe");
    chars_eq(l.as_slice(), a.as_slice()) || chars_eq(l.as_slice(), b.as_slice())
}

/// A text quoted for a POSIX shell inside single quotes: each `'`
/// becomes `'\''`.
pub open spec fn sh_escaped(s: Seq<char>) -> Seq<char> {
    replace_with(s, '\'', "'\\''"@)
}

/// A text quoted for PowerShell inside single quotes: each `'` doubled.
pub open spec fn ps_quoted(s: Seq<char>) -> Seq<char> {
    replace_with(s, '\'', "''"@)
}

/// See `sh_escaped`.
pub fn sh_escape(s: &str) -> (r: String)
    ensures
        r@ == sh_escaped(s@),
{
    let mut out: Vec<char> = Vec::new();
    let sc = chars_of(s);
    let q = chars_of("'\\''");
    push_replaced(&mut out, sc.as_slice(), '\'', q.as_slice());
    assert(out@ =~= sh_escaped(s@));
    string_from_chars(out.as_slice())
}

/// See `ps_quoted`.
pub fn ps_quote(s: &str) -> (r: String)
    ensures
        r@ == ps_quoted(s@),
{
    let mut out: Vec<char> = Vec::new();
    let sc = chars_of(s);
    let q = chars_of("''");
    push_replaced(&mut out, sc.as_slice(), '\'', q.as_slice());
    assert(out@ =~= ps_quoted(s@));
    string_from_chars(out.as_slice())
}

/// One file to swap: its name, the staged copy and the file it replaces
/// (both paths as text; `name` is the last part of each).
#[derive(Clone, Debug)]
pub struct Replacement {
    pub name: String,
    pub from: String,
    pub to: String,
}

pub struct ReplacementView {
    pub name: Seq<char>,
    pub from: Seq<char>,
    pub to: Seq<char>,
}

pub open spec fn replacement_view(r: Replacement) -> ReplacementView {
    ReplacementView { name: r.name@, from: r.from@, to: r.to@ }
}

pub open spec fn replacement_views(s: Seq<Replacement>) -> Seq<ReplacementView> {
    Seq::new(s.len(), |i: int| replacement_view(s[i]))
}

/// The file the script starts again: the target of the first replacement
/// that is the app's own binary.
pub open spec fn gui_target(rs: Seq<ReplacementView>) -> Option<Seq<char>>
    decreases rs.len(),
{
    if rs.len() == 0 {
        None
    } else if is_gui_name(rs[0].name) {
        Some(rs[0].to)
    } else {
        gui_target(rs.drop_first())
    }
}

/// Each replacement's line of a script, in order.
pub open spec fn script_lines(rs: Seq<ReplacementView>, windows: bool) -> Seq<char>
    decreases rs.len(),
{
    if rs.len() == 0 {
        Seq::<char>::empty()
    } else {
        script_lines(rs.drop_last(), windows) + replacement_line(rs.last(), windows)
    }
}

/// The line that swaps one file: a forced copy (POSIX shell) or move
/// (Windows batch).
pub open spec fn replacement_line(r: ReplacementView, windows: bool) -> Seq<char> {
    if windows {
        "move /Y \""@ + r.from + "\" \""@ + r.to + "\" >nul\r\n"@
    } else {
        "cp -f '"@ + sh_escaped(r.from) + "' '"@ + sh_escaped(r.to) + "' 2>/dev/null || true\n"@
    }
}

/// The start of a script: wait until process `pid` has exited.
pub open spec fn script_head(pid: u32, windows: bool) -> Seq<char> {
    if windows {
        "@echo off\r\nrem lan_mesh self-update\r\n:wait\r\nping -n 2 127.0.0.1 >nul\r\ntasklist /fi \"PID eq "@
            + dec_text(pid as nat) + "\" /nh 2>nul | findstr /c:\""@ + dec_text(pid as nat)
            + "\" >nul\r\nif %errorlevel%==0 goto wait\r\n"@
    } else {
        "#!/bin/bash\n# lan_mesh self-update\nwhile kill -0 "@ + dec_text(pid as nat)
            + " 2>/dev/null; do sleep 0.25; done\n"@
    }
}

/// The end of a script: start the app again, if it was among the files.
pub open spec fn script_tail(gui: Option<Seq<char>>, windows: bool) -> Seq<char> {
    match gui {
        None => Seq::<char>::empty(),
        Some(g) => if windows {
            "start \"\" \""@ + g + "\"\r\n"@
        } else {
            "chmod +x '"@ + sh_escaped(g) + "' 2>/dev/null || true\n"@ + "nohup '"@ + sh_escaped(g)
                + "' >/dev/null 2>&1 &\n"@
        },
    }
}

/// The whole swap script.
pub open spec fn apply_script_spec(pid: u32, rs: Seq<ReplacementView>, windows: bool) -> Seq<char> {
    script_head(pid, windows) + script_lines(rs, windows) + script_tail(gui_target(rs), windows)
}

fn push_str_chars(out: &mut Vec<char>, s: &str)
    ensures
        final(out)@ == old(out)@ + s@,
{
    let c = chars_of(s);
    push_all(out, c.as_slice());
}

fn push_replacement_line(out: &mut Vec<char>, r: &Replacement, windows: bool)
    ensures
        final(out)@ == old(out)@ + replacement_line(replacement_view(*r), windows),
{
    let ghost base = out@;
    if windows {
        push_str_chars(out, "move /Y \"");
        push_str_chars(out, r.from.as_str());
        push_str_chars(out, "\" \"");
        push_str_chars(out, r.to.as_str());
        push_str_chars(out, "\" >nul\r\n");
    } else {
        let q = chars_of("'\\''");
        let from = chars_of(r.from.as_str());
        let to = chars_of(r.to.as_str());
        push_str_chars(out, "cp -f '");
        push_replaced(out, from.as_slice(), '\'', q.as_slice());
        push_str_chars(out, "' '");
        push_replaced(out, to.as_slice(), '\'', q.as_slice());
        push_str_chars(out, "' 2>/dev/null || true\n");
    }
    assert(out@ =~= base + replacement_line(replacement_view(*r), windows));
}

/// The text of the script that waits for process `pid` (this app) to
/// exit, swaps in the staged files and starts the app again: a bash
/// script, or a batch file on Windows.
pub fn apply_script(pid: u32, replacements: &[Replacement], windows: bool) -> (r: String)
    ensures
        r@ == apply_script_spec(pid, replacement_views(replacements@), windows),
{
    let ghost rs = replacement_views(replacements@);
    let mut out: Vec<char> = Vec::new();
    if windows {
        push_str_chars(&mut out, "@echo off\r\nrem lan_mesh self-update\r\n:wait\r\nping -n 2 127.0.0.1 >nul\r\ntasklist /fi \"PID eq ");
        push_decimal(&mut out, pid as u64);
        push_str_chars(&mut out, "\" /nh 2>nul | findstr /c:\"");
        push_decimal(&mut out, pid as u64);
        push_str_chars(&mut out, "\" >nul\r\nif %errorlevel%==0 goto wait\r\n");
    } else {
        push_str_chars(&mut out, "#!/bin/bash\n# lan_mesh self-update\nwhile kill -0 ");
        push_decimal(&mut out, pid as u64);
        push_str_chars(&mut out, " 2>/dev/null; do sleep 0.25; done\n");
    }
    assert(out@ =~= script_head(pid, windows));
    let mut i: usize = 0;
    let mut gui: Option<usize> = None;
    assert(rs.take(0) =~= Seq::<ReplacementView>::empty());
    assert(rs.skip(0) =~= rs);
    while i < replacements.len()
        invariant
            i <= replacements.len(),
            rs == replacement_views(replacements@),
            out@ == script_head(pid, windows) + script_lines(rs.take(i as int), windows),
            gui_target(rs) == match gui {
                Some(g) => Some(rs[g as int].to),
                None => gui_target(rs.skip(i as int)),
            },
            gui matches Some(g) ==> g < i,
        decreases replacements.len() - i,
    {
        proof {
            let next = rs.take(i + 1);
            assert(next.drop_last() =~= rs.take(i as int));
            assert(next.last() == replacement_view(replacements@[i as int]));
            let t = rs.skip(i as int);
            assert(t[0] == rs[i as int]);
            assert(t.drop_first() =~= rs.skip(i + 1));
        }
        push_replacement_line(&mut out, &replacements[i], windows);
        if gui.is_none() && is_gui_binary(replacements[i].name.as_str()) {
            gui = Some(i);
        }
        i = i + 1;
    }
    assert(rs.take(i as int) =~= rs);
    match gui {
        None => {
            assert(gui_target(rs.skip(i as int)) is None);
        },
        Some(g) => {
            let target = &replacements[g].to;
            assert(rs[g as int].to == target@);
            if windows {
                push_str_chars(&mut out, "start \"\" \"");
                push_str_chars(&mut out, target.as_str());
                push_str_chars(&mut out, "\"\r\n");
            } else {
                let q = chars_of("'\\''");
                let t = chars_of(target.as_str());
                push_str_chars(&mut out, "chmod +x '");
                push_replaced(&mut out, t.as_slice(), '\'', q.as_slice());
                push_str_chars(&mut out, "' 2>/dev/null || true\n");
                push_str_chars(&mut out, "nohup '");
                push_replaced(&mut out, t.as_slice(), '\'', q.as_slice());
                push_str_chars(&mut out, "' >/dev/null 2>&1 &\n");
            }
        },
    }
    assert(out@ =~= apply_script_spec(pid, rs, windows));
    string_from_chars(out.as_slice())
}

} // verus!
