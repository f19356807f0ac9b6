//! Values and helpers the server and the client both have to agree on: the
//! address, the control-line prefixes, public keys as text, the key two people
//! share, and sealing and opening messages.

use base64::Engine;
use chacha20poly1305::aead::Aead;
use chacha20poly1305::KeyInit;
use sha2::Digest;
use vstd::prelude::*;
use vstd::utf8::{decode_utf8, encode_utf8, valid_utf8};
use crate::text::{is_space, contains_char, decimal, head_before, push_decimal, split_once_at};

verus! {

/// Where the server listens and the client connects.
pub const ADDRESS: &'static str = "127.0.0.1:8080";

/// The room everyone starts in. It is never destroyed, even when empty.
pub const DEFAULT_ROOM: &'static str = "general";

/// Server -> client: which room you are in, e.g. `\room general`.
pub const ROOM_PREFIX: &'static str = "\\room ";

/// Client -> server: my public key, e.g. `\pubkey <base64>`.
pub const PUBKEY_PREFIX: &'static str = "\\pubkey ";

/// Server -> client: who is in your room and their public keys, e.g.
/// `\members alice=<base64> bob=<base64>`.
pub const MEMBERS_PREFIX: &'static str = "\\members ";

/// Client -> server: deliver this sealed blob to one person, e.g.
/// `\to alice <base64>`. The server cannot read the blob.
pub const TO_PREFIX: &'static str = "\\to ";

/// Server -> client: a sealed blob from someone, e.g. `\from bob <base64>`.
pub const FROM_PREFIX: &'static str = "\\from ";

/// Whether `c` is an ASCII decimal digit.
pub open spec fn is_digit(c: char) -> bool {
    48 <= (c as u32) <= 57
}

/// The number that a run of decimal digits spells.
pub open spec fn digits_value(s: Seq<char>) -> nat
    decreases s.len(),
{
    if s.len() == 0 {
        0
    } else {
        digits_value(s.drop_last()) * 10 + ((s.last() as u32) - 48) as nat
    }
}

/// The digits of a port argument: an optional `+` sign comes off first.
pub open spec fn port_digits(t: Seq<char>) -> Seq<char> {
    if t.len() > 0 && t[0] == '+' {
        t.drop_first()
    } else {
        t
    }
}

/// The port that a text names, as `u16`'s `from_str` reads it: an optional
/// `+`, then one or more decimal digits, for a value that fits in 16 bits.
pub open spec fn port_number(t: Seq<char>) -> Option<u16> {
    let d = port_digits(t);
    if d.len() > 0 && (forall|i: int| 0 <= i < d.len() ==> is_digit(#[trigger] d[i]))
        && digits_value(d) <= 65535 {
        Some(digits_value(d) as u16)
    } else {
        None
    }
}

/// Reads a port number from text; `None` when the text is not one.
pub fn parse_port(text: &str) -> (r: Option<u16>)
    ensures
        r == port_number(text@),
{
    let v = crate::text::chars_of(text);
    let mut i: usize = 0;
    if v.len() > 0 && v[0] == '+' {
        i = 1;
    }
    let start = i;
    let ghost d = port_digits(text@);
    assert(d =~= text@.skip(start as int));
    if start == v.len() {
        return None;
    }
    let mut value: u32 = 0;
    let mut too_big = false;
    while i < v.len()
        invariant
            v@ == text@,
            start <= i <= v.len(),
            d == v@.skip(start as int),
            d == port_digits(text@),
            forall|j: int| 0 <= j < i - start ==> is_digit(#[trigger] d[j]),
            !too_big ==> value as nat == digits_value(d.take(i - start)) && value <= 65535,
            too_big ==> digits_value(d.take(i - start)) > 65535,
        decreases v.len() - i,
    {
        let c = v[i];
        let u = c as u32;
        if u < 48 || u > 57 {
            assert(d[i - start] == c);
            assert(!is_digit(d[i - start]));
            assert(!(forall|j: int| 0 <= j < d.len() ==> is_digit(#[trigger] d[j])));
            return None;
        }
        proof {
            assert(d.take(i + 1 - start).drop_last() =~= d.take(i - start));
            assert(d.take(i + 1 - start).last() == c);
        }
        if !too_big {
            let next = value * 10 + (u - 48);
            if next > 65535 {
                too_big = true;
            } else {
                value = next;
            }
        }
        i = i + 1;
    }
    assert(d.take(i - start) =~= d);
    if too_big {
        None
    } else {
        Some(value as u16)
    }
}

/// The address to use for an optional command-line argument: none gives
/// [`ADDRESS`], text with a colon is a whole address, a port number goes on
/// the default host, and anything else falls back to [`ADDRESS`].
pub open spec fn resolved_address(argument: Option<Seq<char>>) -> Seq<char> {
    match argument {
        None => ADDRESS@,
        Some(t) => if t.contains(':') {
            t
        } else {
            match port_number(t) {
                Some(p) => head_before(ADDRESS@, ':') + seq![':'] + decimal(p as nat),
                None => ADDRESS@,
            }
        },
    }
}

/// Which address to use, given the first command-line argument.
///
/// ```text
/// (none)          the default in ADDRESS
/// 9000            port 9000 on the default host
/// 1.2.3.4:9000    that exact address
/// ```
pub fn resolve_address(argument: Option<String>) -> (r: String)
    ensures
        r@ == resolved_address(match argument {
            Some(t) => Some(t@),
            None => None,
        }),
{
    match argument {
        None => ADDRESS.to_string(),
        Some(text) => {
            if contains_char(text.as_str(), ':') {
                text
            } else {
                match parse_port(text.as_str()) {
                    Some(port) => {
                        let (host, _) = split_once_at(ADDRESS, ':');
                        let mut r = host.to_string();
                        r.append(":");
                        push_decimal(&mut r, port as u64);
                        proof {
                            reveal_strlit(":");
                        }
                        r
                    },
                    None => ADDRESS.to_string(),
                }
            }
        },
    }
}


/// Whether an argument is one that [`resolve_address`] passes over with a
/// warning: text that is neither a whole address nor a port number.
pub open spec fn argument_rejected(argument: Option<Seq<char>>) -> bool {
    match argument {
        Some(t) => !t.contains(':') && port_number(t) is None,
        None => false,
    }
}

/// The warning for an argument that is neither a port nor an address, e.g.
/// `'banana' is not a port number; using 127.0.0.1:8080`.
pub fn argument_warning(argument: &Option<String>) -> (r: Option<String>)
    ensures
        match argument {
            Some(t) => if argument_rejected(Some(t@)) {
                r matches Some(w) && w@ == seq!['\''] + t@ + "' is not a port number; using "@
                    + ADDRESS@
            } else {
                r is None
            },
            None => r is None,
        },
{
    match argument {
        None => None,
        Some(text) => {
            if !contains_char(text.as_str(), ':') && parse_port(text.as_str()).is_none() {
                let mut w = "'".to_string();
                w.append(text.as_str());
                w.append("' is not a port number; using ");
                w.append(ADDRESS);
                proof {
                    reveal_strlit("'");
                }
                Some(w)
            } else {
                None
            }
        },
    }
}

// --- keys ----------------------------------------------------------------

/// An X25519 public key, as its 32 bytes.
#[derive(Clone, Copy, Debug, PartialEq, Eq)]
pub struct PublicKey {
    pub bytes: [u8; 32],
}

impl View for PublicKey {
    type V = Seq<u8>;

    open spec fn view(&self) -> Seq<u8> {
        self.bytes@
    }
}

/// An X25519 private key, as its 32 bytes. It never leaves the process that
/// made it.
#[derive(Clone, Copy)]
pub struct StaticSecret {
    pub bytes: [u8; 32],
}

impl View for StaticSecret {
    type V = Seq<u8>;

    open spec fn view(&self) -> Seq<u8> {
        self.bytes@
    }
}

/// The public key that X25519 derives from a private key
/// (`x25519_dalek::PublicKey::from(&StaticSecret)`).
pub uninterp spec fn x25519_public(secret: Seq<u8>) -> Seq<u8>;

/// The shared secret that X25519 computes from a private key and another
/// party's public key (`x25519_dalek::StaticSecret::diffie_hellman`).
pub uninterp spec fn x25519_shared(secret: Seq<u8>, public: Seq<u8>) -> Seq<u8>;

/// The SHA-256 digest of some bytes (`sha2::Sha256::digest`).
pub uninterp spec fn sha256(data: Seq<u8>) -> Seq<u8>;

/// A character of the standard base64 alphabet, or the `=` of padding.
pub open spec fn is_base64_char(c: char) -> bool {
    let u = c as u32;
    ||| 65 <= u <= 90
    ||| 97 <= u <= 122
    ||| 48 <= u <= 57
    ||| u == 43
    ||| u == 47
    ||| u == 61
}

/// The standard, padded base64 text of some bytes
/// (`base64::engine::general_purpose::STANDARD.encode`).
pub uninterp spec fn base64_text(bytes: Seq<u8>) -> Seq<char>;

/// The bytes that standard, padded base64 text stands for, or `None` when the
/// text is not such base64 (`base64::engine::general_purpose::STANDARD.decode`).
pub uninterp spec fn base64_bytes(text: Seq<char>) -> Option<Seq<u8>>;

/// XChaCha20-Poly1305 encryption of a plaintext under a key and a 24-byte
/// nonce: the ciphertext followed by the 16-byte tag
/// (`chacha20poly1305::XChaCha20Poly1305`'s `Aead::encrypt`).
pub uninterp spec fn xchacha_sealed(key: Seq<u8>, nonce: Seq<u8>, plaintext: Seq<u8>) -> Seq<u8>;

/// XChaCha20-Poly1305 decryption: the plaintext, or `None` when the tag does not
/// authenticate the ciphertext (`chacha20poly1305::XChaCha20Poly1305`'s
/// `Aead::decrypt`).
pub uninterp spec fn xchacha_opened(key: Seq<u8>, nonce: Seq<u8>, ciphertext: Seq<u8>) -> Option<
    Seq<u8>,
>;

/// Calls `rand::fill`, which fills the buffer from the thread-local random
/// number generator. Its contract says only that the length is kept: the bytes
/// are random. The call panics when the operating system's random source
/// cannot be read, when the thread first uses the generator or when the
/// generator reseeds from it; nothing here rules that out.
#[verifier::external_body]
fn fill_random(buf: &mut [u8])
    ensures
        final(buf)@.len() == old(buf)@.len(),
{
    rand::fill(buf)
}

/// Calls `x25519_dalek::PublicKey::from(&StaticSecret::from(secret))`. The
/// contract names the result [`x25519_public`].
#[verifier::external_body]
fn x25519_public_of(secret: &[u8; 32]) -> (p: [u8; 32])
    ensures
        p@ == x25519_public(secret@),
{
    x25519_dalek::PublicKey::from(&x25519_dalek::StaticSecret::from(*secret)).to_bytes()
}

/// Calls `x25519_dalek::StaticSecret::diffie_hellman`. The contract names the
/// result [`x25519_shared`] and states the agreement that X25519 exists for:
/// when the other key is the public key of some private key `b`, then `b`
/// with our public key gives the same secret.
#[verifier::external_body]
fn x25519_diffie_hellman(secret: &[u8; 32], their_public: &[u8; 32]) -> (s: [u8; 32])
    ensures
        s@ == x25519_shared(secret@, their_public@),
        forall|b: Seq<u8>|
            b.len() == 32 && their_public@ == #[trigger] x25519_public(b) ==> s@ == x25519_shared(
                b,
                x25519_public(secret@),
            ),
{
    x25519_dalek::StaticSecret::from(*secret).diffie_hellman(
        &x25519_dalek::PublicKey::from(*their_public),
    ).to_bytes()
}

/// Calls `sha2::Sha256::digest`; the contract names the result [`sha256`].
#[verifier::external_body]
fn sha256_digest(data: &[u8]) -> (d: [u8; 32])
    ensures
        d@ == sha256(data@),
{
    sha2::Sha256::digest(data).into()
}

/// Calls `STANDARD.encode` of the `base64` crate. The contract names the
/// result [`base64_text`] and states that `STANDARD.decode` gives the bytes
/// back, so that no other bytes encode to the same text. It states the shape of padded base64 too: four characters for every
/// three bytes or part of three, all from the standard alphabet, with `=`
/// exactly in the last one or two places when the bytes do not fill the last
/// group of three. The requirement keeps the length of the text within what a
/// `String` can hold, where the crate would panic.
#[verifier::external_body]
fn base64_encode(bytes: &[u8]) -> (s: String)
    requires
        (bytes@.len() + 2) / 3 * 4 <= isize::MAX,
    ensures
        s@ == base64_text(bytes@),
        base64_bytes(s@) == Some(bytes@),
        forall|b: Seq<u8>| #[trigger] base64_text(b) == s@ ==> b == bytes@,
        s@.len() == (bytes@.len() + 2) / 3 * 4,
        forall|i: int| 0 <= i < s@.len() ==> is_base64_char(#[trigger] s@[i]),
        forall|i: int|
            0 <= i < s@.len() ==> (#[trigger] s@[i] == '=' <==> i >= s@.len() - (3 - bytes@.len()
                % 3) % 3),
{
    base64::engine::general_purpose::STANDARD.encode(bytes)
}

/// Calls `STANDARD.decode` of the `base64` crate, with the error turned into
/// `None`. The contract names the result [`base64_bytes`] and states that the
/// engine decodes canonically (padding required where it belongs, no stray
/// bits): text that decodes is the encoding of what it decodes to and of
/// nothing else, and text that does not decode is the encoding of no bytes.
#[verifier::external_body]
fn base64_decode(text: &str) -> (r: Option<Vec<u8>>)
    ensures
        base64_bytes(text@) == match r {
            Some(b) => Some(b@),
            None => None::<Seq<u8>>,
        },
        r matches Some(b) ==> base64_text(b@) == text@,
        r is None ==> forall|b: Seq<u8>| #[trigger] base64_text(b) != text@,
        r matches Some(d) ==> forall|b: Seq<u8>| #[trigger] base64_text(b) == text@ ==> b == d@,
{
    base64::engine::general_purpose::STANDARD.decode(text).ok()
}

/// Whether two ciphertexts have the same length and the same body, everything
/// but the last 16 bytes of tag, yet are not the same: only the tag differs.
pub open spec fn differs_only_in_tag(c1: Seq<u8>, c2: Seq<u8>) -> bool {
    &&& c1.len() == c2.len()
    &&& c1.len() >= 16
    &&& c1.take(c1.len() - 16) == c2.take(c2.len() - 16)
    &&& c1 != c2
}

/// The most bytes that XChaCha20-Poly1305 encrypts or decrypts as one
/// message here: the ChaCha20 keystream has `u32::MAX` blocks of 64 bytes, and
/// the first of them keys Poly1305, which leaves `u32::MAX - 1` blocks.
pub const MAX_PLAINTEXT: u64 = 274877906816;

/// Calls `XChaCha20Poly1305::new(key).encrypt(nonce, plaintext)`, with the
/// error turned into `None`. The contract names the ciphertext
/// [`xchacha_sealed`], states that it is 16 bytes of tag longer than the
/// plaintext and that decryption under the same key and nonce gives the
/// plaintext back. The Poly1305 tag is a function of key, nonce and body, and
/// decryption refuses any other, so a ciphertext that differs from this one
/// only in its tag does not decrypt. The requirements leave out the plaintexts on which the
/// call panics: longer than the keystream left after the Poly1305 key
/// ([`MAX_PLAINTEXT`]), or with an output buffer too big for a `Vec`. On all
/// others the call succeeds.
#[verifier::external_body]
fn xchacha_encrypt(key: &[u8; 32], nonce: &[u8; 24], plaintext: &[u8]) -> (r: Option<Vec<u8>>)
    requires
        plaintext@.len() <= MAX_PLAINTEXT,
        plaintext@.len() + 16 <= isize::MAX,
    ensures
        r is Some,
        r matches Some(c) ==> c@.len() == plaintext@.len() + 16,
        r matches Some(c) ==> c@ == xchacha_sealed(key@, nonce@, plaintext@) && xchacha_opened(
            key@,
            nonce@,
            c@,
        ) == Some(plaintext@),
        r matches Some(c) ==> forall|c2: Seq<u8>|
            differs_only_in_tag(c@, c2) ==> #[trigger] xchacha_opened(key@, nonce@, c2) is None,
{
    chacha20poly1305::XChaCha20Poly1305::new(key.into()).encrypt(
        &chacha20poly1305::XNonce::from(*nonce),
        plaintext,
    ).ok()
}

/// Calls `XChaCha20Poly1305::new(key).decrypt(nonce, ciphertext)`, with the
/// error turned into `None`. The contract names the result
/// [`xchacha_opened`], and states what a successful decryption rests on: the
/// tag matched, so encrypting the plaintext again under the same key and nonce
/// gives exactly the ciphertext (the plaintext and 16 bytes of tag), and a ciphertext that differs from it only in
/// the tag does not decrypt. The requirement leaves out the ciphertexts
/// on which the call panics once the tag checks out: a message part longer
/// than [`MAX_PLAINTEXT`].
#[verifier::external_body]
fn xchacha_decrypt(key: &[u8; 32], nonce: &[u8; 24], ciphertext: &[u8]) -> (r: Option<Vec<u8>>)
    requires
        ciphertext@.len() <= MAX_PLAINTEXT + 16,
    ensures
        xchacha_opened(key@, nonce@, ciphertext@) == match r {
            Some(p) => Some(p@),
            None => None::<Seq<u8>>,
        },
        r matches Some(p) ==> xchacha_sealed(key@, nonce@, p@) == ciphertext@
            && ciphertext@.len() == p@.len() + 16,
        r matches Some(p) ==> forall|c2: Seq<u8>|
            differs_only_in_tag(ciphertext@, c2) ==> #[trigger] xchacha_opened(key@, nonce@, c2)
                is None,
{
    chacha20poly1305::XChaCha20Poly1305::new(key.into()).decrypt(
        &chacha20poly1305::XNonce::from(*nonce),
        ciphertext,
    ).ok()
}

/// Calls `String::from_utf8`, with the error turned into `None`: a `String` is
/// made exactly when the bytes are valid UTF-8, and its bytes are the input.
#[verifier::external_body]
fn utf8_string(bytes: Vec<u8>) -> (r: Option<String>)
    ensures
        r is Some <==> valid_utf8(bytes@),
        r matches Some(s) ==> encode_utf8(s@) == bytes@,
{
    String::from_utf8(bytes).ok()
}


impl StaticSecret {
    /// A fresh private key, from the thread-local random number generator:
    /// any 32 bytes may come out. It can panic only where that generator
    /// does: when the operating system's random source cannot be read, on
    /// first use or when the generator reseeds.
    pub fn random() -> (s: StaticSecret) {
        let mut bytes = [0u8; 32];
        fill_random(&mut bytes);
        StaticSecret { bytes }
    }

    /// The public key that goes with this private key.
    pub fn public_key(&self) -> (p: PublicKey)
        ensures
            p@ == x25519_public(self@),
    {
        PublicKey { bytes: x25519_public_of(&self.bytes) }
    }
}

/// Copies the bytes of `src` into `dst`.
fn copy_into<const N: usize>(dst: &mut [u8; N], src: &[u8])
    requires
        src@.len() == N,
    ensures
        final(dst)@ == src@,
{
    let mut i: usize = 0;
    while i < N
        invariant
            src@.len() == N,
            dst@.len() == N,
            i <= N,
            forall|j: int| 0 <= j < i ==> dst@[j] == src@[j],
        decreases N - i,
    {
        dst[i] = src[i];
        i = i + 1;
    }
    assert(dst@ =~= src@);
}

/// Appends the bytes of `src` to `out`.
fn push_bytes(out: &mut Vec<u8>, src: &[u8])
    ensures
        final(out)@ == old(out)@ + src@,
{
    let mut i: usize = 0;
    while i < src.len()
        invariant
            i <= src@.len(),
            out@ == old(out)@ + src@.take(i as int),
        decreases src@.len() - i,
    {
        out.push(src[i]);
        i = i + 1;
        assert(old(out)@ + src@.take(i as int) =~= (old(out)@ + src@.take(i - 1)).push(src@[i - 1]));
    }
    assert(src@.take(src@.len() as int) =~= src@);
}

/// The bytes of `v` from `lo` up to its end.
fn bytes_from(v: &Vec<u8>, lo: usize) -> (r: Vec<u8>)
    requires
        lo <= v.len(),
    ensures
        r@ == v@.skip(lo as int),
{
    let mut r: Vec<u8> = Vec::new();
    let mut i = lo;
    while i < v.len()
        invariant
            lo <= i <= v.len(),
            r@ == v@.subrange(lo as int, i as int),
        decreases v.len() - i,
    {
        r.push(v[i]);
        i = i + 1;
        assert(v@.subrange(lo as int, i as int) =~= v@.subrange(lo as int, i - 1).push(v@[i - 1]));
    }
    r
}

/// Turn a public key into text that can travel on a line-based connection:
/// 44 characters of the standard base64 alphabet, the last of them `=`.
/// Different keys give different text.
pub fn encode_public(key: &PublicKey) -> (r: String)
    ensures
        r@ == base64_text(key@),
        decoded_public(r@) == Some(key@),
        forall|other: PublicKey| #[trigger] base64_text(other@) == r@ ==> other@ == key@,
        r@.len() == 44,
        forall|i: int| 0 <= i < 43 ==> is_base64_char(#[trigger] r@[i]) && r@[i] != '=',
        r@[43] == '=',
        forall|i: int| 0 <= i < r@.len() ==> !is_space(#[trigger] r@[i]),
{
    let r = base64_encode(&key.bytes);
    assert(r@[43] == '=');
    assert forall|i: int| 0 <= i < r@.len() implies !is_space(#[trigger] r@[i]) by {
        assert(is_base64_char(r@[i]));
    }
    r
}

/// The public key, as bytes, that some text stands for: base64 of exactly
/// 32 bytes.
pub open spec fn decoded_public(text: Seq<char>) -> Option<Seq<u8>> {
    match base64_bytes(text) {
        Some(b) => if b.len() == 32 {
            Some(b)
        } else {
            None
        },
        None => None,
    }
}

/// Parse a public key back out of that text. `None` if it is not a valid key.
/// The text that parses is exactly what [`encode_public`] makes of some key,
/// and it parses to that key.
pub fn decode_public(text: &str) -> (r: Option<PublicKey>)
    ensures
        decoded_public(text@) == match r {
            Some(k) => Some(k@),
            None => None::<Seq<u8>>,
        },
        r matches Some(k) ==> base64_text(k@) == text@,
        forall|k: PublicKey| #[trigger] base64_text(k@) == text@ ==> (r matches Some(d) && d@ == k@),
{
    key_from_bytes(base64_decode(text))
}

/// The public key that decoded bytes, if any, stand for: exactly 32 of them.
pub fn key_from_bytes(bytes: Option<Vec<u8>>) -> (r: Option<PublicKey>)
    ensures
        match r {
            Some(k) => Some(k@),
            None => None::<Seq<u8>>,
        } == match bytes {
            Some(b) => if b@.len() == 32 {
                Some(b@)
            } else {
                None
            },
            None => None::<Seq<u8>>,
        },
{
    let bytes = match bytes {
        Some(b) => b,
        None => return None,
    };
    if bytes.len() != 32 {
        return None;
    }
    let mut key = [0u8; 32];
    copy_into(&mut key, bytes.as_slice());
    Some(PublicKey { bytes: key })
}

/// The label hashed in with the X25519 output, which keeps this key distinct
/// from any other use of the same pair of keys.
pub const MESSAGE_KEY_LABEL: &'static str = "group_chat v1 message key";

/// The key shared by the holder of `secret` and the holder of `their_public`:
/// SHA-256 of the label's bytes followed by the X25519 shared secret.
pub open spec fn shared_key_of(secret: Seq<u8>, their_public: Seq<u8>) -> Seq<u8> {
    sha256(encode_utf8(MESSAGE_KEY_LABEL@) + x25519_shared(secret, their_public))
}

/// What is hashed into the message key: the label's bytes, then the X25519
/// shared secret.
pub fn key_material(shared: &[u8; 32]) -> (r: Vec<u8>)
    ensures
        r@ == encode_utf8(MESSAGE_KEY_LABEL@) + shared@,
{
    let mut data: Vec<u8> = Vec::new();
    push_bytes(&mut data, MESSAGE_KEY_LABEL.as_bytes());
    push_bytes(&mut data, shared);
    data
}

/// Work out the key shared with one other person.
///
/// X25519 gives both sides the same secret from their own private key and the
/// other person's public key, without that secret ever crossing the network.
/// It is hashed before use because the raw output is not uniformly random, and
/// the label keeps this key distinct from any other use of the same pair.
pub fn shared_key(secret: &StaticSecret, their_public: &PublicKey) -> (key: [u8; 32])
    ensures
        key@ == shared_key_of(secret@, their_public@),
        forall|other: StaticSecret|
            their_public@ == #[trigger] x25519_public(other@) ==> key@ == shared_key_of(
                other@,
                x25519_public(secret@),
            ),
{
    let shared = x25519_diffie_hellman(&secret.bytes, &their_public.bytes);
    let data = key_material(&shared);
    let key = sha256_digest(data.as_slice());
    assert forall|other: StaticSecret|
        their_public@ == #[trigger] x25519_public(other@) implies key@ == shared_key_of(
        other@,
        x25519_public(secret@),
    ) by {
        assert(other@.len() == 32);
    }
    key
}

/// The nonce length used by XChaCha20-Poly1305.
pub const NONCE_LEN: usize = 24;

/// The text that sealing `message` under `key` with `nonce` gives: base64 of
/// the nonce followed by the XChaCha20-Poly1305 ciphertext of its UTF-8 bytes.
pub open spec fn sealed_text(key: Seq<u8>, nonce: Seq<u8>, message: Seq<char>) -> Seq<char> {
    base64_text(nonce + xchacha_sealed(key, nonce, encode_utf8(message)))
}

/// Whether a message is longer than XChaCha20-Poly1305 will encrypt.
pub open spec fn too_long_to_seal(message: Seq<char>) -> bool {
    encode_utf8(message).len() > MAX_PLAINTEXT
}

/// How long the text of a sealed `n`-byte message is: base64 of the nonce, the
/// ciphertext and the 16-byte tag.
pub open spec fn sealed_len(n: nat) -> nat {
    ((n + NONCE_LEN + 16 + 2) / 3 * 4) as nat
}

/// Whether the text of a sealed `n`-byte message fits in memory at all.
pub open spec fn sealable_size(n: nat) -> bool {
    sealed_len(n) <= isize::MAX
}

/// The nonce and the ciphertext that a sealed message's bytes hold, or `None`
/// when there are fewer bytes than a nonce or more ciphertext than
/// XChaCha20-Poly1305 decrypts.
pub open spec fn wire_parts(wire: Seq<u8>) -> Option<(Seq<u8>, Seq<u8>)> {
    if wire.len() < NONCE_LEN || wire.len() - NONCE_LEN > MAX_PLAINTEXT + 16 {
        None
    } else {
        Some((wire.take(NONCE_LEN as int), wire.skip(NONCE_LEN as int)))
    }
}

/// What opening `sealed` with `key` gives: the message, or `None` when the
/// text is not base64, is shorter than a nonce, fails authentication or is not
/// UTF-8.
pub open spec fn opened_text(key: Seq<u8>, sealed: Seq<char>) -> Option<Seq<char>> {
    match base64_bytes(sealed) {
        None => None,
        Some(wire) => match wire_parts(wire) {
            None => None,
            Some((nonce, ciphertext)) => match xchacha_opened(key, nonce, ciphertext) {
                None => None,
                Some(p) => if valid_utf8(p) {
                    Some(decode_utf8(p))
                } else {
                    None
                },
            },
        },
    }
}

/// Whether `t` is `sealed` with only the tag changed: both are base64, and
/// their bytes differ in the last 16 and nowhere else.
pub open spec fn tag_changed(sealed: Seq<char>, t: Seq<char>) -> bool {
    &&& base64_bytes(sealed) is Some
    &&& base64_bytes(t) is Some
    &&& differs_only_in_tag(base64_bytes(sealed)->0, base64_bytes(t)->0)
}

/// Changing only the tag of a sealed message's bytes keeps its nonce and
/// changes only the tag of its ciphertext.
proof fn lemma_tag_change_keeps_nonce(w: Seq<u8>, w2: Seq<u8>)
    requires
        differs_only_in_tag(w, w2),
        w.len() >= NONCE_LEN + 16,
    ensures
        w2.take(NONCE_LEN as int) == w.take(NONCE_LEN as int),
        differs_only_in_tag(w.skip(NONCE_LEN as int), w2.skip(NONCE_LEN as int)),
        wire_parts(w2) == (if wire_parts(w) is Some {
            Some((w.take(NONCE_LEN as int), w2.skip(NONCE_LEN as int)))
        } else {
            None
        }),
{
    let n = NONCE_LEN as int;
    let l = w.len() as int;
    assert forall|i: int| 0 <= i < n implies w2[i] == w[i] by {
        assert(w2.take(l - 16)[i] == w.take(l - 16)[i]);
    }
    assert(w2.take(n) =~= w.take(n));
    let b = w.skip(n);
    let b2 = w2.skip(n);
    assert forall|i: int| 0 <= i < l - n - 16 implies b2[i] == b[i] by {
        assert(w2.take(l - 16)[i + n] == w.take(l - 16)[i + n]);
    }
    assert(b.take(b.len() - 16) =~= b2.take(b2.len() - 16));
    if b == b2 {
        assert(w =~= w.take(n) + b);
        assert(w2 =~= w2.take(n) + b2);
    }
}

/// Seal a message with a given nonce: `nonce || ciphertext`, base64 encoded.
/// [`seal`] is this with a fresh random nonce.
pub fn seal_with_nonce(key: &[u8; 32], nonce: &[u8; 24], message: &str) -> (r: Option<String>)
    requires
        sealable_size(encode_utf8(message@).len()),
    ensures
        match r {
            Some(s) => !too_long_to_seal(message@) && s@ == sealed_text(key@, nonce@, message@),
            None => too_long_to_seal(message@),
        },
        r matches Some(s) ==> opened_text(key@, s@) == Some(message@),
        r matches Some(s) ==> s@.len() > 0 && forall|i: int| 0 <= i < s@.len() ==> is_base64_char(
            #[trigger] s@[i],
        ),
        r matches Some(s) ==> s@.len() == sealed_len(encode_utf8(message@).len()),
        r matches Some(s) ==> base64_bytes(s@) matches Some(w) && w.len() == NONCE_LEN
            + encode_utf8(message@).len() + 16 && w.take(NONCE_LEN as int) == nonce@,
        r matches Some(s) ==> forall|t: Seq<char>|
            #[trigger] tag_changed(s@, t) ==> opened_text(key@, t) is None,
{
    let bytes = message.as_bytes();
    if bytes.len() as u64 > MAX_PLAINTEXT {
        return None;
    }
    proof {
        let n = bytes@.len();
        assert(n + 16 <= isize::MAX) by (nonlinear_arith)
            requires
                (n + 42) / 3 * 4 <= isize::MAX,
        ;
    }
    let ciphertext = match xchacha_encrypt(key, nonce, bytes) {
        Some(c) => c,
        None => return None,
    };
    let mut wire: Vec<u8> = Vec::new();
    push_bytes(&mut wire, nonce);
    push_bytes(&mut wire, ciphertext.as_slice());
    let text = base64_encode(wire.as_slice());
    proof {
        let w = wire@;
        assert(w.take(NONCE_LEN as int) =~= nonce@);
        assert(w.skip(NONCE_LEN as int) =~= ciphertext@);
        vstd::utf8::encode_utf8_valid_utf8(message@);
        vstd::utf8::encode_utf8_decode_utf8(message@);
        assert forall|t: Seq<char>| #[trigger] tag_changed(text@, t) implies opened_text(
            key@,
            t,
        ) is None by {
            lemma_tag_change_keeps_nonce(w, base64_bytes(t)->0);
        }
    }
    Some(text)
}

/// Seal a message so only the holder of the matching key can read it.
///
/// The nonce is random and must never repeat for one key, which is why this
/// uses XChaCha20-Poly1305: its 24-byte nonce is large enough that random
/// values are safe. The result is `nonce || ciphertext`, base64 encoded so it
/// can travel on a line-based connection.
/// It can panic only where the thread's random number generator does: when
/// the operating system's random source cannot be read, on first use or when
/// the generator reseeds.
pub fn seal(key: &[u8; 32], message: &str) -> (r: Option<String>)
    requires
        sealable_size(encode_utf8(message@).len()),
    ensures
        r is None <==> too_long_to_seal(message@),
        r matches Some(s) ==> exists|nonce: Seq<u8>|
            nonce.len() == NONCE_LEN && s@ == #[trigger] sealed_text(key@, nonce, message@),
        r matches Some(s) ==> opened_text(key@, s@) == Some(message@),
        r matches Some(s) ==> s@.len() > 0 && forall|i: int| 0 <= i < s@.len() ==> is_base64_char(
            #[trigger] s@[i],
        ),
        r matches Some(s) ==> s@.len() == sealed_len(encode_utf8(message@).len()),
        r matches Some(s) ==> base64_bytes(s@) matches Some(w) && w.len() == NONCE_LEN
            + encode_utf8(message@).len() + 16,
        r matches Some(s) ==> forall|t: Seq<char>|
            #[trigger] tag_changed(s@, t) ==> opened_text(key@, t) is None,
{
    let mut nonce = [0u8; 24];
    fill_random(&mut nonce);
    let r = seal_with_nonce(key, &nonce, message);
    proof {
        if r is Some {
            assert(r->0@ == sealed_text(key@, nonce@, message@));
        }
    }
    r
}

/// Splits the bytes of a sealed message, if any, into its nonce and its
/// ciphertext, as [`wire_parts`] says.
pub fn split_wire(wire: Option<Vec<u8>>) -> (r: Option<([u8; 24], Vec<u8>)>)
    ensures
        match r {
            Some(p) => Some((p.0@, p.1@)),
            None => None::<(Seq<u8>, Seq<u8>)>,
        } == match wire {
            Some(w) => wire_parts(w@),
            None => None::<(Seq<u8>, Seq<u8>)>,
        },
{
    let wire = match wire {
        Some(w) => w,
        None => return None,
    };
    if wire.len() < NONCE_LEN {
        return None;
    }
    if (wire.len() - NONCE_LEN) as u64 > MAX_PLAINTEXT + 16 {
        return None;
    }
    let head = wire_head(&wire);
    let mut nonce = [0u8; 24];
    copy_into(&mut nonce, head.as_slice());
    let ciphertext = bytes_from(&wire, NONCE_LEN);
    Some((nonce, ciphertext))
}

/// Open a sealed message. `None` if it was corrupted, tampered with, or is not
/// for us -- Poly1305 authenticates the ciphertext, so a modified message
/// fails to open rather than decrypting to garbage. What does open is
/// exactly the sealing of the message it opens to, under this key, with the
/// nonce its first bytes carry; with its tag changed it would not open.
pub fn open(key: &[u8; 32], sealed: &str) -> (r: Option<String>)
    ensures
        opened_text(key@, sealed@) == match r {
            Some(m) => Some(m@),
            None => None::<Seq<char>>,
        },
        r matches Some(m) ==> exists|nonce: Seq<u8>|
            nonce.len() == NONCE_LEN && sealed@ == #[trigger] sealed_text(key@, nonce, m@),
        r matches Some(m) ==> base64_bytes(sealed@) matches Some(w) && w.len() >= NONCE_LEN
            && xchacha_sealed(key@, w.take(NONCE_LEN as int), encode_utf8(m@)) == w.skip(
            NONCE_LEN as int,
        ),
        r matches Some(m) ==> forall|t: Seq<char>|
            #[trigger] tag_changed(sealed@, t) ==> opened_text(key@, t) is None,
{
    let decoded = base64_decode(sealed);
    let ghost wire = decoded->0@;
    let (nonce, ciphertext) = match split_wire(decoded) {
        Some(p) => p,
        None => return None,
    };
    let plaintext = match xchacha_decrypt(key, &nonce, ciphertext.as_slice()) {
        Some(p) => p,
        None => return None,
    };
    let r = utf8_string(plaintext);
    proof {
        if r is Some {
            vstd::utf8::encode_utf8_decode_utf8(r->0@);
            let n = wire.take(NONCE_LEN as int);
            assert(n + ciphertext@ =~= wire);
            assert(sealed@ == sealed_text(key@, n, r->0@));
            assert forall|t: Seq<char>| #[trigger] tag_changed(sealed@, t) implies opened_text(
                key@,
                t,
            ) is None by {
                let w2 = base64_bytes(t)->0;
                lemma_tag_change_keeps_nonce(wire, w2);
            }
        }
    }
    r
}

/// The first [`NONCE_LEN`] bytes of a sealed message.
fn wire_head(wire: &Vec<u8>) -> (r: Vec<u8>)
    requires
        wire.len() >= NONCE_LEN,
    ensures
        r@ == wire@.take(NONCE_LEN as int),
{
    let mut r: Vec<u8> = Vec::new();
    let mut i: usize = 0;
    while i < NONCE_LEN
        invariant
            i <= NONCE_LEN <= wire.len(),
            r@ == wire@.take(i as int),
        decreases NONCE_LEN - i,
    {
        r.push(wire[i]);
        i = i + 1;
        assert(wire@.take(i as int) =~= wire@.take(i - 1).push(wire@[i - 1]));
    }
    r
}

} // verus!
