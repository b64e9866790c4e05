//! Peer cards: a single copy-pasteable line that describes how to reach a
//! peer (`LMESH1:` followed by URL-safe base64 of
//! `1|name|virtual ip|public ip|public port`). The mesh key is never part
//! of a card.

use vstd::prelude::*;
use vstd::utf8::{decode_utf8, encode_utf8, encode_utf8_decode_utf8, encode_utf8_valid_utf8, valid_utf8};
use base64::Engine;
use crate::config::{PeerConfig, PeerConfigView, peer_config_view};
use crate::net::{
    Ipv4Addr, dec_text, ipv4_text, lemma_dec_text_digits, lemma_digit_char, lemma_ipv4_text_roundtrip,
    parse_ipv4, parse_ipv4_chars, parse_unsigned, parse_unsigned_chars, push_decimal, push_ipv4,
};
use crate::text::{
    chars_eq, chars_of, chars_starts_with, push_all, is_ascii_alphanumeric, is_unicode_whitespace,
    lemma_split_push_piece, lemma_split_single, lemma_trim_noop, replace_char, split_char, split_chars,
    starts_with, string_from_chars, trim, trim_chars,
};

verus! {

pub const PREFIX: &'static str = "LMESH1:";

/// A character of the URL-safe base64 alphabet.
pub open spec fn is_b64url_char(c: char) -> bool {
    is_ascii_alphanumeric(c) || c == '-' || c == '_'
}

/// What `URL_SAFE_NO_PAD.encode` returns for some bytes.
pub uninterp spec fn b64url_encoded(bytes: Seq<u8>) -> Seq<char>;

/// What `URL_SAFE_NO_PAD.decode` returns for a text: the bytes, or `None`
/// when it is not valid unpadded URL-safe base64.
pub uninterp spec fn b64url_decoded(text: Seq<char>) -> Option<Seq<u8>>;

/// `URL_SAFE_NO_PAD.encode(bytes)`: the result is named `b64url_encoded`;
/// it uses only the URL-safe alphabet and decodes back to the bytes.
#[verifier::external_body]
fn b64url_encode(bytes: &[u8]) -> (s: String)
    ensures
        s@ == b64url_encoded(bytes@),
        forall|i: int| 0 <= i < s@.len() ==> is_b64url_char(#[trigger] s@[i]),
        b64url_decoded(s@) == Some(bytes@),
{
    base64::engine::general_purpose::URL_SAFE_NO_PAD.encode(bytes)
}

/// `URL_SAFE_NO_PAD.decode(text)`, the error rendered as text; the result
/// is named `b64url_decoded`. What the error text says is not stated.
#[verifier::external_body]
fn b64url_decode(text: &str) -> (r: Result<Vec<u8>, String>)
    ensures
        match r {
            Ok(b) => b64url_decoded(text@) == Some(b@),
            Err(_) => b64url_decoded(text@) is None,
        },
{
    base64::engine::general_purpose::URL_SAFE_NO_PAD.decode(text).map_err(|e| e.to_string())
}

/// `String::from_utf8`: succeeds exactly on valid UTF-8, giving its
/// characters; the error is rendered as text (its wording is not stated).
#[verifier::external_body]
fn string_from_utf8(bytes: Vec<u8>) -> (r: Result<String, String>)
    ensures
        r is Ok <==> valid_utf8(bytes@),
        r matches Ok(s) ==> s@ == decode_utf8(bytes@),
{
    String::from_utf8(bytes).map_err(|e| e.to_string())
}

/// The text inside a card: `1|name|virtual ip|public ip|port`, with any
/// `|` in the name replaced by `_`.
pub open spec fn card_text(name: Seq<char>, virtual_ip: Ipv4Addr, public_ip: Seq<char>, port: u16) -> Seq<char> {
    seq!['1', '|'] + replace_char(name, '|', '_') + seq!['|'] + ipv4_text(virtual_ip) + seq!['|']
        + public_ip + seq!['|'] + dec_text(port as nat)
}

/// The card for a peer.
pub open spec fn card(name: Seq<char>, virtual_ip: Ipv4Addr, public_ip: Seq<char>, port: u16) -> Seq<char> {
    PREFIX@ + b64url_encoded(encode_utf8(card_text(name, virtual_ip, public_ip, port)))
}

/// The card for a peer; see `card`.
///
/// A card reads back as the peer it was made for (with `|` in the name
/// replaced by `_`), as long as the public address has no `|` in it.
pub fn encode(name: &str, virtual_ip: Ipv4Addr, public_ip: &str, public_port: u16) -> (token: String)
    ensures
        token@ == card(name@, virtual_ip, public_ip@, public_port),
        (forall|i: int| 0 <= i < public_ip@.len() ==> #[trigger] public_ip@[i] != '|') ==> decode_spec(token@)
            == Ok::<PeerConfigView, CardError>(
            PeerConfigView {
                name: replace_char(name@, '|', '_'),
                virtual_ip,
                public_ip: public_ip@,
                public_port,
            },
        ),
{
    let name_chars = chars_of(name);
    let mut raw: Vec<char> = vec!['1', '|'];
    let mut k: usize = 0;
    let ghost base = raw@;
    while k < name_chars.len()
        invariant
            k <= name_chars@.len(),
            name_chars@ == name@,
            raw@ == base + replace_char(name@, '|', '_').take(k as int),
        decreases name_chars@.len() - k,
    {
        let c = if name_chars[k] == '|' {
            '_'
        } else {
            name_chars[k]
        };
        raw.push(c);
        proof {
            assert(raw@ =~= base + replace_char(name@, '|', '_').take(k + 1));
        }
        k = k + 1;
    }
    proof {
        assert(replace_char(name@, '|', '_').take(k as int) =~= replace_char(name@, '|', '_'));
    }
    raw.push('|');
    push_ipv4(&mut raw, virtual_ip);
    raw.push('|');
    let pc = chars_of(public_ip);
    push_all(&mut raw, pc.as_slice());
    raw.push('|');
    push_decimal(&mut raw, public_port as u64);
    proof {
        assert(raw@ =~= card_text(name@, virtual_ip, public_ip@, public_port));
    }
    let raw_s = string_from_chars(raw.as_slice());
    let encoded = b64url_encode(raw_s.as_str().as_bytes());
    let mut out = chars_of(PREFIX);
    let ec = chars_of(encoded.as_str());
    push_all(&mut out, ec.as_slice());
    proof {
        if forall|i: int| 0 <= i < public_ip@.len() ==> #[trigger] public_ip@[i] != '|' {
            lemma_card_reads_back(name@, virtual_ip, public_ip@, public_port, encoded@);
        }
    }
    string_from_chars(out.as_slice())
}

/// The card text splits into its five fields.
proof fn lemma_card_fields(name: Seq<char>, virtual_ip: Ipv4Addr, public_ip: Seq<char>, port: u16)
    requires
        forall|i: int| 0 <= i < public_ip.len() ==> #[trigger] public_ip[i] != '|',
    ensures
        split_char(card_text(name, virtual_ip, public_ip, port), '|') == seq![
            seq!['1'],
            replace_char(name, '|', '_'),
            ipv4_text(virtual_ip),
            public_ip,
            dec_text(port as nat),
        ],
{
    let n = replace_char(name, '|', '_');
    let ti = ipv4_text(virtual_ip);
    let tp = dec_text(port as nat);
    lemma_ipv4_text_roundtrip(virtual_ip);
    lemma_dec_text_digits(port as nat);
    assert forall|i: int| 0 <= i < tp.len() implies tp[i] != '|' by {
        assert(crate::text::is_ascii_digit(tp[i]));
    }
    assert forall|i: int| 0 <= i < n.len() implies n[i] != '|' by {}
    lemma_split_single(seq!['1'], '|');
    lemma_split_push_piece(seq!['1'], n, '|');
    lemma_split_push_piece(seq!['1'] + seq!['|'] + n, ti, '|');
    lemma_split_push_piece(seq!['1'] + seq!['|'] + n + seq!['|'] + ti, public_ip, '|');
    lemma_split_push_piece(seq!['1'] + seq!['|'] + n + seq!['|'] + ti + seq!['|'] + public_ip, tp, '|');
    assert(card_text(name, virtual_ip, public_ip, port) =~= seq!['1'] + seq!['|'] + n + seq!['|'] + ti
        + seq!['|'] + public_ip + seq!['|'] + tp);
}

/// A card made from `encoded` (the encoding of the card text) reads back
/// as the peer it describes.
proof fn lemma_card_reads_back(
    name: Seq<char>,
    virtual_ip: Ipv4Addr,
    public_ip: Seq<char>,
    port: u16,
    encoded: Seq<char>,
)
    requires
        forall|i: int| 0 <= i < public_ip.len() ==> #[trigger] public_ip[i] != '|',
        encoded == b64url_encoded(encode_utf8(card_text(name, virtual_ip, public_ip, port))),
        forall|i: int| 0 <= i < encoded.len() ==> is_b64url_char(#[trigger] encoded[i]),
        b64url_decoded(encoded) == Some(encode_utf8(card_text(name, virtual_ip, public_ip, port))),
    ensures
        decode_spec(card(name, virtual_ip, public_ip, port)) == Ok::<PeerConfigView, CardError>(
            PeerConfigView { name: replace_char(name, '|', '_'), virtual_ip, public_ip, public_port: port },
        ),
{
    reveal_strlit("LMESH1:");
    let c = card(name, virtual_ip, public_ip, port);
    let raw = card_text(name, virtual_ip, public_ip, port);
    assert(c[0] == 'L');
    if encoded.len() > 0 {
        assert(c.last() == encoded.last());
        assert(is_b64url_char(encoded.last()));
    } else {
        assert(c.last() == ':');
    }
    lemma_trim_noop(c);
    assert(c.take(PREFIX@.len() as int) =~= PREFIX@);
    assert(c.skip(PREFIX@.len() as int) =~= encoded);
    encode_utf8_valid_utf8(raw);
    encode_utf8_decode_utf8(raw);
    lemma_card_fields(name, virtual_ip, public_ip, port);
    lemma_ipv4_text_roundtrip(virtual_ip);
    lemma_dec_text_digits(port as nat);
    lemma_digit_char(0);
    let tp = dec_text(port as nat);
    assert(tp[0] != '+') by {
        assert(crate::text::is_ascii_digit(tp[0]));
    }
    assert(parse_unsigned(tp, 65535) == Some(port as nat));
}

/// Why a card is refused, or `None` when it is accepted.
pub enum CardError {
    /// It does not start with `LMESH1:`.
    NoPrefix,
    /// The rest is not base64.
    NotBase64,
    /// The decoded bytes are not UTF-8 text.
    NotText,
    /// Not five `|`-separated fields with version `1`.
    Malformed,
    /// The virtual IP field (given) does not parse.
    BadVirtualIp(Seq<char>),
    /// The port field (given) does not parse.
    BadPort(Seq<char>),
}

/// What `decode` makes of a card: the peer it describes, or why it is
/// refused. Surrounding whitespace is ignored.
pub open spec fn decode_spec(token: Seq<char>) -> Result<PeerConfigView, CardError> {
    let t = trim(token);
    if !starts_with(t, PREFIX@) {
        Err(CardError::NoPrefix)
    } else {
        match b64url_decoded(t.skip(PREFIX@.len() as int)) {
            None => Err(CardError::NotBase64),
            Some(bytes) => if !valid_utf8(bytes) {
                Err(CardError::NotText)
            } else {
                let f = split_char(decode_utf8(bytes), '|');
                if f.len() != 5 || f[0] != seq!['1'] {
                    Err(CardError::Malformed)
                } else {
                    match parse_ipv4(f[2]) {
                        None => Err(CardError::BadVirtualIp(f[2])),
                        Some(ip) => match parse_unsigned(f[4], 65535) {
                            None => Err(CardError::BadPort(f[4])),
                            Some(port) => Ok(
                                PeerConfigView {
                                    name: f[1],
                                    virtual_ip: ip,
                                    public_ip: f[3],
                                    public_port: port as u16,
                                },
                            ),
                        },
                    }
                }
            },
        }
    }
}

fn concat_message(head: &str, tail: &[char]) -> (s: String)
    ensures
        s@ == head@ + tail@,
{
    let mut m = chars_of(head);
    push_all(&mut m, tail);
    string_from_chars(m.as_slice())
}

/// The fixed message for a refused card: for a missing prefix, bad
/// fields and bad numbers (quoting the offending field). Bad base64 and
/// bad text carry the decoder's own explanation, which is not stated.
pub open spec fn card_error_text(e: CardError) -> Option<Seq<char>> {
    match e {
        CardError::NoPrefix => Some(
            "Not a valid meow-meow peer card (expected it to start with 'LMESH1:')"@,
        ),
        CardError::Malformed => Some("Peer card is malformed or from an incompatible version"@),
        CardError::BadVirtualIp(f) => Some("Peer card has an invalid virtual IP: "@ + f),
        CardError::BadPort(f) => Some("Peer card has an invalid port: "@ + f),
        _ => None,
    }
}

/// Reads a card; see `decode_spec`. Each refusal comes with a message:
/// for a missing prefix, bad fields and bad numbers the message is fixed
/// (quoting the offending field); for bad base64 or bad text it carries
/// the decoder's own explanation.
pub fn decode(token: &str) -> (res: Result<PeerConfig, String>)
    ensures
        match decode_spec(token@) {
            Ok(p) => res matches Ok(c) && peer_config_view(c) == p,
            Err(e) => res matches Err(m) && (card_error_text(e) matches Some(t) ==> m@ == t) && (e is NotBase64
                ==> starts_with(m@, "Could not decode peer card: "@)) && (e is NotText ==> starts_with(
                m@,
                "Peer card is not valid text: "@,
            )),
        },
{
    let tc = chars_of(token);
    let t = trim_chars(tc.as_slice());
    let prefix = chars_of(PREFIX);
    if !chars_starts_with(t.as_slice(), prefix.as_slice()) {
        return Err("Not a valid meow-meow peer card (expected it to start with 'LMESH1:')".to_owned());
    }
    let payload = string_from_chars(&t.as_slice()[prefix.len()..t.len()]);
    proof {
        assert(payload@ == t@.skip(PREFIX@.len() as int));
    }
    let bytes = match b64url_decode(payload.as_str()) {
        Ok(b) => b,
        Err(e) => {
            let ec = chars_of(e.as_str());
            let m = concat_message("Could not decode peer card: ", ec.as_slice());
            assert(m@.take("Could not decode peer card: "@.len() as int) =~= "Could not decode peer card: "@);
            return Err(m);
        },
    };
    let raw = match string_from_utf8(bytes) {
        Ok(s) => s,
        Err(e) => {
            let ec = chars_of(e.as_str());
            let m = concat_message("Peer card is not valid text: ", ec.as_slice());
            assert(m@.take("Peer card is not valid text: "@.len() as int) =~= "Peer card is not valid text: "@);
            return Err(m);
        },
    };
    let rc = chars_of(raw.as_str());
    let fields = split_chars(rc.as_slice(), '|');
    let one: Vec<char> = vec!['1'];
    proof {
        assert(one@ =~= seq!['1']);
    }
    if fields.len() != 5 || !chars_eq(fields[0].as_slice(), one.as_slice()) {
        return Err("Peer card is malformed or from an incompatible version".to_owned());
    }
    let virtual_ip = match parse_ipv4_chars(fields[2].as_slice()) {
        Some(ip) => ip,
        None => {
            return Err(concat_message("Peer card has an invalid virtual IP: ", fields[2].as_slice()));
        },
    };
    let port = match parse_unsigned_chars(fields[4].as_slice(), 65535) {
        Some(p) => p,
        None => {
            return Err(concat_message("Peer card has an invalid port: ", fields[4].as_slice()));
        },
    };
    Ok(
        PeerConfig {
            name: string_from_chars(fields[1].as_slice()),
            virtual_ip,
            public_ip: string_from_chars(fields[3].as_slice()),
            public_port: port as u16,
        },
    )
}

} // verus!
