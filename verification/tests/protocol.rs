use base64::engine::general_purpose::STANDARD as B64;
use base64::Engine;
use chacha20poly1305::aead::Aead;
use chacha20poly1305::KeyInit;
use sha2::Digest;
use group_chat::protocol::{
    argument_warning, decode_public, encode_public, open, parse_port, resolve_address, seal,
    seal_with_nonce, shared_key, PublicKey, StaticSecret, ADDRESS, MAX_PLAINTEXT,
    key_from_bytes, key_material, split_wire,
};

fn keypair() -> (StaticSecret, PublicKey) {
    let secret = StaticSecret::random();
    let public = secret.public_key();
    (secret, public)
}

#[test]
fn both_sides_derive_the_same_key() {
    let (alice_secret, alice_public) = keypair();
    let (bob_secret, bob_public) = keypair();
    assert_eq!(
        shared_key(&alice_secret, &bob_public),
        shared_key(&bob_secret, &alice_public)
    );
}

#[test]
fn a_sealed_message_opens_again() {
    let (alice_secret, alice_public) = keypair();
    let (bob_secret, bob_public) = keypair();
    let sealed = seal(&shared_key(&alice_secret, &bob_public), "hello david").unwrap();
    let opened = open(&shared_key(&bob_secret, &alice_public), &sealed);
    assert_eq!(opened.as_deref(), Some("hello david"));
}

#[test]
fn the_same_message_seals_differently_every_time() {
    // A fresh random nonce each time, so identical messages do not produce
    // identical ciphertext and leak that they were the same.
    let (alice_secret, _) = keypair();
    let (_, bob_public) = keypair();
    let key = shared_key(&alice_secret, &bob_public);
    assert_ne!(seal(&key, "same text").unwrap(), seal(&key, "same text").unwrap());
}

#[test]
fn a_tampered_message_will_not_open() {
    let (alice_secret, alice_public) = keypair();
    let (bob_secret, bob_public) = keypair();
    let sealed = seal(&shared_key(&alice_secret, &bob_public), "transfer $10").unwrap();

    // Flip one byte of the ciphertext.
    let mut wire = B64.decode(&sealed).unwrap();
    let last = wire.len() - 1;
    wire[last] ^= 0x01;
    let tampered = B64.encode(&wire);

    // Poly1305 authenticates the ciphertext, so this fails outright rather
    // than decrypting to something the attacker chose.
    assert_eq!(open(&shared_key(&bob_secret, &alice_public), &tampered), None);
}

#[test]
fn the_wrong_key_will_not_open_it() {
    let (alice_secret, _) = keypair();
    let (_, bob_public) = keypair();
    let (eve_secret, _) = keypair();
    let (_, eve_target) = keypair();

    let sealed = seal(&shared_key(&alice_secret, &bob_public), "private").unwrap();
    assert_eq!(open(&shared_key(&eve_secret, &eve_target), &sealed), None);
}

#[test]
fn public_keys_survive_a_round_trip_through_text() {
    let (_, public) = keypair();
    assert_eq!(decode_public(&encode_public(&public)), Some(public));
}

#[test]
fn the_address_comes_from_the_argument() {
    assert_eq!(resolve_address(None), ADDRESS);
    assert_eq!(resolve_address(Some("9000".to_string())), "127.0.0.1:9000");
    assert_eq!(
        resolve_address(Some("1.2.3.4:9000".to_string())),
        "1.2.3.4:9000"
    );
    // Not a port and not an address: fall back rather than crash.
    assert_eq!(resolve_address(Some("banana".to_string())), ADDRESS);
}

#[test]
fn rubbish_does_not_panic() {
    let (secret, _) = keypair();
    let (_, public) = keypair();
    let key = shared_key(&secret, &public);
    assert_eq!(open(&key, "not base64 at all !!!"), None);
    assert_eq!(open(&key, ""), None);
    assert_eq!(decode_public("nonsense"), None);
}

#[test]
fn port_numbers_read_like_u16_from_str() {
    assert_eq!(parse_port("9000"), Some(9000));
    assert_eq!(parse_port("+80"), Some(80));
    assert_eq!(parse_port("0080"), Some(80));
    assert_eq!(parse_port("65535"), Some(65535));
    assert_eq!(parse_port("65536"), None);
    assert_eq!(parse_port("+"), None);
    assert_eq!(parse_port(""), None);
    assert_eq!(parse_port("-1"), None);
    assert_eq!(parse_port("80a"), None);
    for text in ["0", "1", "443", "00000000000000000009", "99999", "12x", "+-1", " 1"] {
        assert_eq!(parse_port(text), text.parse::<u16>().ok(), "{}", text);
    }
}

#[test]
fn a_port_argument_drops_leading_zeros_and_sign() {
    assert_eq!(resolve_address(Some("+0080".to_string())), "127.0.0.1:80");
    assert_eq!(resolve_address(Some("0".to_string())), "127.0.0.1:0");
    assert_eq!(resolve_address(Some("70000".to_string())), ADDRESS);
    assert_eq!(resolve_address(Some("host:".to_string())), "host:");
}

#[test]
fn only_a_rejected_argument_gets_a_warning() {
    assert_eq!(
        argument_warning(&Some("banana".to_string())).as_deref(),
        Some("'banana' is not a port number; using 127.0.0.1:8080")
    );
    assert_eq!(argument_warning(&Some("9000".to_string())), None);
    assert_eq!(argument_warning(&Some("a:b".to_string())), None);
    assert_eq!(argument_warning(&None), None);
}

#[test]
fn the_public_key_text_is_standard_base64_of_its_bytes() {
    let key = PublicKey { bytes: [7u8; 32] };
    let text = encode_public(&key);
    assert_eq!(text, B64.encode([7u8; 32]));
    assert_ne!(text.as_bytes(), &key.bytes[..]);
    assert_eq!(decode_public(&B64.encode([1u8; 31])), None);
    assert_eq!(decode_public(&B64.encode([1u8; 33])), None);
}

#[test]
fn a_known_key_pair_matches_x25519() {
    // RFC 7748, section 6.1.
    let alice = StaticSecret { bytes: hex32("77076d0a7318a57d3c16c17251b26645df4c2f87ebc0992ab177fba51db92c2a") };
    let bob_public = PublicKey { bytes: hex32("de9edb7d7b7dc1b4d35b61c2ece435373f8343c85b78674dadfc7e146f882b4f") };
    assert_eq!(
        alice.public_key().bytes,
        hex32("8520f0098930a754748b7ddcb43ef75a0dbf3a0d26381af4eba4a98eaa9b4e6a")
    );
    let secret = x25519_dalek::StaticSecret::from(alice.bytes)
        .diffie_hellman(&x25519_dalek::PublicKey::from(bob_public.bytes));
    assert_eq!(
        secret.to_bytes(),
        hex32("4a5d9d5ba4ce2de1728e3bf480350f25e07e21c947d19e3376f09b3c1e161742")
    );
    let key = shared_key(&alice, &bob_public);
    let mut hasher = sha2::Sha256::new();
    hasher.update(b"group_chat v1 message key");
    hasher.update(secret.as_bytes());
    let expected: [u8; 32] = hasher.finalize().into();
    assert_eq!(key, expected);
    assert_ne!(key, secret.to_bytes());
}

#[test]
fn sealing_with_a_fixed_nonce_puts_the_nonce_first() {
    let key = [9u8; 32];
    let nonce = [3u8; 24];
    let sealed = seal_with_nonce(&key, &nonce, "hi").unwrap();
    let wire = B64.decode(&sealed).unwrap();
    assert_eq!(&wire[..24], &nonce[..]);
    assert_eq!(wire.len(), 24 + 2 + 16);
    assert_ne!(&wire[24..26], b"hi");
    assert_eq!(seal_with_nonce(&key, &nonce, "hi"), Some(sealed.clone()));
    assert_eq!(open(&key, &sealed).as_deref(), Some("hi"));
    assert_eq!(open(&[8u8; 32], &sealed), None);
    // Too short to hold a nonce.
    assert_eq!(open(&key, &B64.encode([0u8; 23])), None);
}

#[test]
fn a_message_that_is_not_utf8_will_not_open() {
    let key = [5u8; 32];
    let nonce = [6u8; 24];
    let cipher = chacha20poly1305::XChaCha20Poly1305::new(&key.into());
    let ciphertext = cipher
        .encrypt(&chacha20poly1305::XNonce::from(nonce), &[0xff, 0xfe][..])
        .unwrap();
    let mut wire = nonce.to_vec();
    wire.extend_from_slice(&ciphertext);
    assert_eq!(open(&key, &B64.encode(&wire)), None);
}

#[test]
fn unicode_messages_open_again() {
    let key = [1u8; 32];
    let text = "grüße 👋 — ok";
    let sealed = seal(&key, text).unwrap();
    assert_eq!(open(&key, &sealed).as_deref(), Some(text));
}

fn hex32(text: &str) -> [u8; 32] {
    let mut out = [0u8; 32];
    for i in 0..32 {
        out[i] = u8::from_str_radix(&text[2 * i..2 * i + 2], 16).unwrap();
    }
    out
}

#[test]
fn sealed_text_length_depends_only_on_the_message_length() {
    // 4 * ceil((24 + n + 16) / 3) characters, whatever the key or the text.
    for n in [0usize, 1, 2, 3, 10, 100] {
        let message: String = "x".repeat(n);
        let other: String = "é".repeat(n / 2) + &"y".repeat(n % 2);
        let a = seal(&[1u8; 32], &message).unwrap();
        let b = seal(&[2u8; 32], &other).unwrap();
        let expected = 4 * ((n + 40 + 2) / 3);
        assert_eq!(a.len(), expected);
        assert_eq!(b.len(), expected);
        assert_eq!(B64.decode(&a).unwrap().len(), 24 + n + 16);
        assert_eq!(B64.decode(&b).unwrap().len(), 24 + n + 16);
    }
    assert_eq!(seal(&[1u8; 32], "").unwrap().len(), 56);
}

#[test]
fn the_sealed_text_is_one_word_of_base64() {
    let sealed = seal(&[4u8; 32], "a line\nwith breaks and spaces").unwrap();
    assert!(sealed
        .chars()
        .all(|c| c.is_ascii_alphanumeric() || c == '+' || c == '/' || c == '='));
}

#[test]
fn what_opens_is_a_sealing_of_it_with_the_nonce_it_carries() {
    let key = [7u8; 32];
    let sealed = seal(&key, "pay bob").unwrap();
    let message = open(&key, &sealed).unwrap();
    let wire = B64.decode(&sealed).unwrap();
    let mut nonce = [0u8; 24];
    nonce.copy_from_slice(&wire[..24]);
    assert_eq!(seal_with_nonce(&key, &nonce, &message), Some(sealed));
}

#[test]
fn public_key_text_is_44_characters_ending_in_padding() {
    for fill in [0u8, 1, 0x3f, 0x80, 0xff] {
        let text = encode_public(&PublicKey { bytes: [fill; 32] });
        assert_eq!(text.len(), 44);
        assert!(text.ends_with('='));
        assert!(!text[..43].contains('='));
        assert!(text[..43]
            .chars()
            .all(|c| c.is_ascii_alphanumeric() || c == '+' || c == '/'));
        assert!(!text.contains(char::is_whitespace));
    }
}

#[test]
fn different_keys_give_different_text() {
    let a = PublicKey { bytes: [0u8; 32] };
    let mut bytes = [0u8; 32];
    bytes[31] = 1;
    let b = PublicKey { bytes };
    assert_ne!(encode_public(&a), encode_public(&b));
    assert_eq!(encode_public(&a), encode_public(&PublicKey { bytes: [0u8; 32] }));
}

#[test]
fn only_canonical_key_text_decodes() {
    let key = PublicKey { bytes: [0x5au8; 32] };
    let text = encode_public(&key);
    assert_eq!(decode_public(&text), Some(key));
    // The last character before `=` carries two unused bits; setting them
    // gives text that is not what any key encodes to.
    let mut chars: Vec<char> = text.chars().collect();
    let i = chars.iter().position(|c| *c == '=').unwrap() - 1;
    let alphabet = "ABCDEFGHIJKLMNOPQRSTUVWXYZabcdefghijklmnopqrstuvwxyz0123456789+/";
    let v = alphabet.find(chars[i]).unwrap();
    chars[i] = alphabet.as_bytes()[v | 1] as char;
    let odd: String = chars.iter().collect();
    assert_ne!(odd, text);
    assert_eq!(decode_public(&odd), None);
    // Missing padding is refused too.
    assert_eq!(decode_public(&text[..43]), None);
    assert_eq!(decode_public(""), None);
}

#[test]
fn the_cipher_limit_is_the_keystream_after_the_poly1305_block() {
    assert_eq!(MAX_PLAINTEXT, 64 * (u32::MAX as u64 - 1));
}

#[test]
fn changing_any_tag_byte_stops_it_opening() {
    let key = [2u8; 32];
    let sealed = seal(&key, "transfer $10").unwrap();
    let wire = B64.decode(&sealed).unwrap();
    for i in wire.len() - 16..wire.len() {
        for flip in [0x01u8, 0x80, 0xff] {
            let mut changed = wire.clone();
            changed[i] ^= flip;
            assert_eq!(open(&key, &B64.encode(&changed)), None);
        }
    }
    assert_eq!(open(&key, &sealed).as_deref(), Some("transfer $10"));
}

#[test]
fn the_wire_splits_into_nonce_and_ciphertext() {
    let wire: Vec<u8> = (0u8..50).collect();
    let (nonce, ciphertext) = split_wire(Some(wire.clone())).unwrap();
    assert_eq!(&nonce[..], &wire[..24]);
    assert_eq!(ciphertext, wire[24..].to_vec());
    let (nonce, ciphertext) = split_wire(Some(vec![9u8; 24])).unwrap();
    assert_eq!(nonce, [9u8; 24]);
    assert!(ciphertext.is_empty());
    assert_eq!(split_wire(Some(vec![1u8; 23])), None);
    assert_eq!(split_wire(None), None);
}

#[test]
fn only_exactly_32_bytes_make_a_key() {
    assert_eq!(key_from_bytes(Some(vec![4u8; 32])), Some(PublicKey { bytes: [4u8; 32] }));
    assert_eq!(key_from_bytes(Some(vec![4u8; 31])), None);
    assert_eq!(key_from_bytes(Some(vec![4u8; 33])), None);
    assert_eq!(key_from_bytes(Some(Vec::new())), None);
    assert_eq!(key_from_bytes(None), None);
}

#[test]
fn the_key_material_is_the_label_then_the_shared_secret() {
    let shared = [0xabu8; 32];
    let material = key_material(&shared);
    let mut expected = b"group_chat v1 message key".to_vec();
    expected.extend_from_slice(&shared);
    assert_eq!(material, expected);
}
