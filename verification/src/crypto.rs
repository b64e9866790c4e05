//! Packet encryption with the mesh-wide pre-shared key: ChaCha20-Poly1305
//! with a fresh random nonce per packet, sent as
//! `nonce (12) || ciphertext || tag (16)`.
//!
//! The cipher itself comes from the `chacha20poly1305` crate and the key
//! text from the `base64` crate; what they compute is named here, not
//! re-implemented, and the framing around them is proved.

use vstd::prelude::*;
use base64::Engine;
use chacha20poly1305::aead::{Aead, Generate};
use chacha20poly1305::{ChaCha20Poly1305, Key, KeyInit, Nonce};
use crate::net::{dec_text, push_decimal};
use crate::text::{
    chars_of, is_ascii_alphanumeric, lemma_trim_noop, push_all, starts_with, string_from_chars, trim, trim_chars,
};

verus! {

pub const NONCE_LEN: usize = 12;

pub const TAG_LEN: usize = 16;

pub const KEY_LEN: usize = 32;

/// ChaCha20-Poly1305 refuses messages of this many bytes or more
/// (2^32 - 1 blocks of 64 bytes).
pub const MAX_PLAINTEXT: u64 = 274877906880;

/// What `ChaCha20Poly1305::encrypt` returns for a key, a nonce and a
/// plaintext (no associated data): the ciphertext with its tag appended.
pub uninterp spec fn aead_sealed(key: Seq<u8>, nonce: Seq<u8>, plaintext: Seq<u8>) -> Seq<u8>;

/// What `ChaCha20Poly1305::decrypt` returns for a key, a nonce and a
/// ciphertext with its tag: the plaintext, or `None` when the tag does not
/// verify.
pub uninterp spec fn aead_opened(key: Seq<u8>, nonce: Seq<u8>, ciphertext: Seq<u8>) -> Option<Seq<u8>>;

/// What `base64::engine::general_purpose::STANDARD.decode` returns for a
/// text: the bytes, or `None` when it is not valid padded base64.
pub uninterp spec fn b64std_decoded(text: Seq<char>) -> Option<Seq<u8>>;

/// What `base64::engine::general_purpose::STANDARD.encode` returns.
pub uninterp spec fn b64std_encoded(bytes: Seq<u8>) -> Seq<char>;

/// `ChaCha20Poly1305::new(key).encrypt(nonce, plaintext)`: the result is
/// named `aead_sealed`; the tag adds 16 bytes, and decrypting with the
/// same key and nonce gives the plaintext back (AEAD correctness). The
/// crate refuses plaintexts of `MAX_PLAINTEXT` bytes or more; those are
/// excluded by `requires`.
#[verifier::external_body]
fn aead_encrypt(key: &[u8; 32], nonce: &[u8; 12], plaintext: &[u8]) -> (ct: Vec<u8>)
    requires
        plaintext@.len() < MAX_PLAINTEXT,
    ensures
        ct@ == aead_sealed(key@, nonce@, plaintext@),
        ct@.len() == plaintext@.len() + TAG_LEN,
        aead_opened(key@, nonce@, ct@) == Some(plaintext@),
{
    let cipher = ChaCha20Poly1305::new(&Key::from(*key));
    cipher.encrypt(&Nonce::from(*nonce), plaintext).unwrap_or_default()
}

/// `ChaCha20Poly1305::new(key).decrypt(nonce, ciphertext)`, `None` on
/// failure; the result is named `aead_opened`.
#[verifier::external_body]
fn aead_decrypt(key: &[u8; 32], nonce: &[u8], ciphertext: &[u8]) -> (pt: Option<Vec<u8>>)
    requires
        nonce@.len() == NONCE_LEN,
    ensures
        match pt {
            Some(p) => aead_opened(key@, nonce@, ciphertext@) == Some(p@),
            None => aead_opened(key@, nonce@, ciphertext@) is None,
        },
{
    let cipher = ChaCha20Poly1305::new(&Key::from(*key));
    match Nonce::try_from(nonce) {
        Ok(n) => cipher.decrypt(&n, ciphertext).ok(),
        Err(_) => None,
    }
}

/// `Nonce::generate()`: 12 bytes from the system's secure random number
/// generator (which panics if that generator fails). Nothing is stated of
/// the value.
#[verifier::external_body]
fn random_nonce() -> (n: [u8; 12]) {
    Nonce::generate().into()
}

/// `Key::generate()`: 32 bytes from the system's secure random number
/// generator (which panics if that generator fails). Nothing is stated of
/// the value.
#[verifier::external_body]
fn random_key() -> (k: [u8; 32]) {
    Key::generate().into()
}

/// `STANDARD.decode(text)`; the error is rendered as text. The result is
/// named `b64std_decoded`; what the error text says is not stated.
#[verifier::external_body]
fn b64std_decode(text: &str) -> (r: Result<Vec<u8>, String>)
    ensures
        match r {
            Ok(b) => b64std_decoded(text@) == Some(b@),
            Err(_) => b64std_decoded(text@) is None,
        },
{
    base64::engine::general_purpose::STANDARD.decode(text).map_err(|e| e.to_string())
}

/// A character of the standard base64 alphabet, or its `=` padding.
pub open spec fn is_b64std_char(c: char) -> bool {
    is_ascii_alphanumeric(c) || c == '+' || c == '/' || c == '='
}

/// `STANDARD.encode(bytes)`; the result is named `b64std_encoded`, uses
/// only the standard alphabet and padding, and decodes back to the bytes.
#[verifier::external_body]
fn b64std_encode(bytes: &[u8]) -> (s: String)
    ensures
        s@ == b64std_encoded(bytes@),
        forall|i: int| 0 <= i < s@.len() ==> is_b64std_char(#[trigger] s@[i]),
        b64std_decoded(s@) == Some(bytes@),
{
    base64::engine::general_purpose::STANDARD.encode(bytes)
}

/// The cipher for one mesh key.
pub struct Cipher {
    key: [u8; 32],
}

/// What `open` makes of a received packet under `key`.
pub open spec fn open_spec(key: Seq<u8>, wire: Seq<u8>) -> Option<Seq<u8>> {
    if wire.len() < NONCE_LEN + TAG_LEN {
        None
    } else {
        aead_opened(key, wire.take(NONCE_LEN as int), wire.skip(NONCE_LEN as int))
    }
}

/// `wire` is what sealing `plaintext` under `key` produced: a nonce
/// followed by the ciphertext of the plaintext under that nonce.
pub open spec fn sealed_by(key: Seq<u8>, wire: Seq<u8>, plaintext: Seq<u8>) -> bool {
    &&& wire.len() == NONCE_LEN + plaintext.len() + TAG_LEN
    &&& wire.skip(NONCE_LEN as int) == aead_sealed(key, wire.take(NONCE_LEN as int), plaintext)
    &&& aead_opened(key, wire.take(NONCE_LEN as int), wire.skip(NONCE_LEN as int)) == Some(plaintext)
}

/// Why a key text is refused.
pub open spec fn psk_error_kind(psk: Seq<char>) -> Option<Option<nat>> {
    match b64std_decoded(trim(psk)) {
        None => Some(None),
        Some(b) => if b.len() != KEY_LEN {
            Some(Some(b.len()))
        } else {
            None
        },
    }
}

impl Cipher {
    /// The key this cipher encrypts with.
    pub closed spec fn key(&self) -> Seq<u8> {
        self.key@
    }

    /// The cipher for a base64 key text (surrounding whitespace ignored).
    /// Refused when the text is not valid base64, or does not decode to
    /// exactly 32 bytes (the message then gives the length).
    pub fn from_psk_b64(psk_b64: &str) -> (res: Result<Cipher, String>)
        ensures
            match b64std_decoded(trim(psk_b64@)) {
                None => res matches Err(m) && starts_with(m@, "PSK is not valid base64: "@),
                Some(b) => if b.len() == KEY_LEN {
                    res matches Ok(c) && c.key() == b
                } else {
                    res matches Err(m) && m@ == "PSK must decode to exactly 32 bytes, got "@ + dec_text(
                        b.len(),
                    ) + " bytes"@
                },
            },
    {
        let chars = chars_of(psk_b64);
        let trimmed = string_from_chars(trim_chars(chars.as_slice()).as_slice());
        let bytes = match b64std_decode(trimmed.as_str()) {
            Ok(b) => b,
            Err(e) => {
                let mut msg = chars_of("PSK is not valid base64: ");
                let ec = chars_of(e.as_str());
                push_all(&mut msg, ec.as_slice());
                proof {
                    reveal_strlit("PSK is not valid base64: ");
                    assert(msg@.take(25) =~= "PSK is not valid base64: "@);
                }
                return Err(string_from_chars(msg.as_slice()));
            },
        };
        if bytes.len() != KEY_LEN {
            let mut msg = chars_of("PSK must decode to exactly 32 bytes, got ");
            let ghost head = msg@;
            push_decimal(&mut msg, bytes.len() as u64);
            let tail = chars_of(" bytes");
            let ghost mid = msg@;
            let mut k: usize = 0;
            while k < tail.len()
                invariant
                    k <= tail@.len(),
                    msg@ == mid + tail@.take(k as int),
                decreases tail@.len() - k,
            {
                msg.push(tail[k]);
                proof {
                    assert(msg@ =~= mid + tail@.take(k + 1));
                }
                k = k + 1;
            }
            proof {
                assert(tail@.take(k as int) =~= tail@);
            }
            return Err(string_from_chars(msg.as_slice()));
        }
        let mut key = [0u8; 32];
        let mut i: usize = 0;
        while i < 32
            invariant
                i <= 32,
                bytes@.len() == 32,
                forall|k: int| 0 <= k < i ==> key@[k] == bytes@[k],
            decreases 32 - i,
        {
            key[i] = bytes[i];
            i = i + 1;
        }
        proof {
            assert(key@ =~= bytes@);
        }
        Ok(Cipher { key })
    }

    /// A fresh random key, as base64 text that `from_psk_b64` accepts.
    pub fn generate_psk_b64() -> (s: String)
        ensures
            b64std_decoded(trim(s@)) matches Some(b) && b.len() == KEY_LEN,
    {
        let key = random_key();
        let s = b64std_encode(&key);
        proof {
            if s@.len() > 0 {
                assert(is_b64std_char(s@[0]));
                assert(is_b64std_char(s@.last()));
            }
            lemma_trim_noop(s@);
        }
        s
    }

    /// Encrypts `plaintext` under a fresh random nonce, giving
    /// `nonce || ciphertext || tag`. The plaintext must be shorter than
    /// `MAX_PLAINTEXT` (the cipher refuses longer ones).
    pub fn seal(&self, plaintext: &[u8]) -> (wire: Vec<u8>)
        requires
            plaintext@.len() < MAX_PLAINTEXT,
        ensures
            sealed_by(self.key(), wire@, plaintext@),
    {
        let nonce = random_nonce();
        let ct = aead_encrypt(&self.key, &nonce, plaintext);
        let mut out: Vec<u8> = Vec::new();
        let mut i: usize = 0;
        while i < NONCE_LEN
            invariant
                i <= NONCE_LEN,
                out@ == nonce@.take(i as int),
            decreases NONCE_LEN - i,
        {
            out.push(nonce[i]);
            proof {
                assert(out@ =~= nonce@.take(i + 1));
            }
            i = i + 1;
        }
        let mut k: usize = 0;
        while k < ct.len()
            invariant
                k <= ct@.len(),
                out@ == nonce@ + ct@.take(k as int),
            decreases ct@.len() - k,
        {
            out.push(ct[k]);
            proof {
                assert(out@ =~= nonce@ + ct@.take(k + 1));
            }
            k = k + 1;
        }
        proof {
            assert(nonce@.take(12) =~= nonce@);
            assert(ct@.take(k as int) =~= ct@);
            assert(out@.take(NONCE_LEN as int) =~= nonce@);
            assert(out@.skip(NONCE_LEN as int) =~= ct@);
        }
        out
    }

    /// Decrypts a received `nonce || ciphertext || tag`; `None` when it is
    /// too short or does not authenticate (wrong key, corruption,
    /// tampering, noise).
    pub fn open(&self, wire: &[u8]) -> (res: Option<Vec<u8>>)
        ensures
            match res {
                Some(p) => open_spec(self.key(), wire@) == Some(p@),
                None => open_spec(self.key(), wire@) is None,
            },
    {
        if wire.len() < NONCE_LEN + TAG_LEN {
            return None;
        }
        let nonce = &wire[0..NONCE_LEN];
        let ct = &wire[NONCE_LEN..wire.len()];
        proof {
            assert(nonce@ == wire@.take(NONCE_LEN as int));
            assert(ct@ == wire@.skip(NONCE_LEN as int));
        }
        aead_decrypt(&self.key, nonce, ct)
    }
}

/// What one peer seals, another holding the same key opens, unchanged.
pub proof fn lemma_open_after_seal(key: Seq<u8>, wire: Seq<u8>, plaintext: Seq<u8>)
    requires
        sealed_by(key, wire, plaintext),
    ensures
        open_spec(key, wire) == Some(plaintext),
{
}

} // verus!
