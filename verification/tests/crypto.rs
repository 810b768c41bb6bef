use base64::engine::general_purpose::STANDARD;
use base64::Engine;
use propylaea::crypto::hmac_sha256_hex;
use propylaea::crypto::sha256_hex;
use propylaea::crypto::verify_ed25519;
use propylaea::crypto::KeyError;
use propylaea::crypto::ProxyKeypair;
use propylaea::encoding::decode_base64;
use propylaea::signing::generate_nonce;

const SEED: &str = "9d61b19deffd5a60ba844af492ec2cc44449c5697b326919703bac031cae7f60";
const PUBLIC: &str = "d75a980182b10ab7d54bfed3c964073a0ee172f3daa62325af021a68f707511a";
const SIGNATURE: &str = "e5564300c360ac729086e2cc806e828a84877f1eb8e5d974d873e065224901555fb8821590a33bacc61e39701cf9b46bd25bf5f0595bbe24655141438e7a100b";

fn b64(hex_text: &str) -> String {
    STANDARD.encode(hex::decode(hex_text).unwrap())
}

fn pair() -> ProxyKeypair {
    match ProxyKeypair::load(&hex::decode(SEED).unwrap()) {
        Ok(k) => k,
        Err(_) => panic!("a seed"),
    }
}

#[test]
fn known_key_and_signature() {
    let k = pair();
    assert_eq!(k.public_key_b64(), b64(PUBLIC));
    assert_eq!(k.sign(b""), b64(SIGNATURE));
    assert!(verify_ed25519(&b64(PUBLIC), b"", &b64(SIGNATURE)));
    assert_eq!(k.to_bytes().to_vec(), hex::decode(SEED).unwrap());
}

#[test]
fn what_is_signed_is_accepted() {
    let k = ProxyKeypair::generate();
    let public = k.public_key_b64();
    for message in [&b""[..], &b"x"[..], &[0u8; 1000][..]] {
        let signature = k.sign(message);
        assert!(verify_ed25519(&public, message, &signature));
        assert!(!verify_ed25519(&public, b"another message", &signature));
        assert!(!verify_ed25519(&ProxyKeypair::generate().public_key_b64(), message, &signature));
    }
}

#[test]
fn bad_keys_and_signatures_are_refused() {
    let k = pair();
    let public = k.public_key_b64();
    let signature = k.sign(b"m");
    assert!(!verify_ed25519("", b"m", &signature));
    assert!(!verify_ed25519("!", b"m", &signature));
    assert!(!verify_ed25519(&STANDARD.encode([0u8; 31]), b"m", &signature));
    assert!(!verify_ed25519(&public, b"m", ""));
    assert!(!verify_ed25519(&public, b"m", "!"));
    assert!(!verify_ed25519(&public, b"m", &STANDARD.encode([0u8; 63])));
    assert!(!verify_ed25519(&public, b"m", &STANDARD.encode([0u8; 64])));
    assert!(!verify_ed25519(&format!(" {public}"), b"m", &signature));
}

#[test]
fn seeds_have_thirty_two_bytes() {
    assert!(matches!(ProxyKeypair::load(&[0u8; 31]), Err(KeyError::SeedLength)));
    assert!(matches!(ProxyKeypair::load(&[0u8; 33]), Err(KeyError::SeedLength)));
    assert!(matches!(ProxyKeypair::load(&[]), Err(KeyError::SeedLength)));
    assert!(ProxyKeypair::load(&[7u8; 32]).is_ok());
}

#[test]
fn a_stored_seed_is_loaded_and_else_one_is_made() {
    let stored = [5u8; 32];
    match ProxyKeypair::load_or_generate(Some(&stored)) {
        Ok((k, fresh)) => {
            assert!(!fresh);
            assert_eq!(k.to_bytes(), stored);
        }
        Err(_) => panic!("a seed"),
    }
    match ProxyKeypair::load_or_generate(None) {
        Ok((k, fresh)) => {
            assert!(fresh);
            assert_ne!(k.to_bytes(), [0u8; 32]);
        }
        Err(_) => panic!("a fresh seed"),
    }
    assert!(ProxyKeypair::load_or_generate(Some(&[1u8])).is_err());
}

#[test]
fn fresh_keys_differ() {
    assert_ne!(ProxyKeypair::generate().to_bytes(), ProxyKeypair::generate().to_bytes());
}

#[test]
fn known_hmac() {
    assert_eq!(
        hmac_sha256_hex("key", "The quick brown fox jumps over the lazy dog"),
        "f7bc83f430538424b13298e6aa6fb143ef4d59a14946175997479dbc2d1a3cd8"
    );
}

#[test]
fn known_digest() {
    assert_eq!(
        sha256_hex(b"abc"),
        "ba7816bf8f01cfea414140de5dae2223b00361a396177a9cb410ff61f20015ad"
    );
    assert_eq!(
        sha256_hex(b""),
        "e3b0c44298fc1c149afbf4c8996fb92427ae41e4649b934ca495991b7852b855"
    );
}

#[test]
fn base64_is_canonical() {
    assert_eq!(decode_base64("aGVsbG8="), Some(b"hello".to_vec()));
    assert_eq!(decode_base64(""), Some(vec![]));
    assert_eq!(decode_base64("aGVsbG8"), None);
    assert_eq!(decode_base64("aGVsbG9="), None);
    assert_eq!(decode_base64("aGVs bG8="), None);
    assert_eq!(decode_base64("-_=="), None);
}

#[test]
fn nonces_are_hexadecimal_and_differ() {
    let nonce = generate_nonce();
    assert_eq!(nonce.len(), 32);
    assert!(nonce.chars().all(|c| c.is_ascii_digit() || ('a'..='f').contains(&c)));
    assert_ne!(nonce, generate_nonce());
}

#[test]
fn a_copy_of_a_key_pair_signs_alike() {
    let pair = ProxyKeypair::generate();
    let copy = pair.clone();
    assert_eq!(copy.to_bytes(), pair.to_bytes());
    assert_eq!(copy.public_key_b64(), pair.public_key_b64());
    assert_eq!(copy.sign(b"message"), pair.sign(b"message"));
}
