//! Keys, signatures and digests.

use ed25519_dalek::Signer;
use ed25519_dalek::SigningKey;
use ed25519_dalek::Verifier;
use ed25519_dalek::VerifyingKey;
use hmac::Mac;
use sha2::Digest;
use vstd::prelude::*;
use vstd::string::*;

use crate::encoding;
use crate::text;

verus! {

// ---------------------------------------------------------------------------
// Primitives
// ---------------------------------------------------------------------------

/// The Ed25519 public key that belongs to a secret seed.
pub uninterp spec fn ed25519_public_key(seed: Seq<u8>) -> Seq<u8>;

/// The Ed25519 signature of a message under a secret seed.
pub uninterp spec fn ed25519_signature(seed: Seq<u8>, message: Seq<u8>) -> Seq<u8>;

/// Whether an Ed25519 public key accepts a signature of a message.
pub uninterp spec fn ed25519_accepts(
    public_key: Seq<u8>,
    message: Seq<u8>,
    signature: Seq<u8>,
) -> bool;

/// The HMAC of a message with SHA-256.
pub uninterp spec fn hmac_sha256(key: Seq<u8>, message: Seq<u8>) -> Seq<u8>;

/// The SHA-256 digest of some bytes.
pub uninterp spec fn sha256(data: Seq<u8>) -> Seq<u8>;

/// `SigningKey::generate` with the randomness of the operating system, of
/// which nothing is claimed; it does not return where that source fails.
#[verifier::external_body]
fn ed25519_generate() -> (r: [u8; 32]) {
    SigningKey::generate(&mut rand::rngs::OsRng).to_bytes()
}

/// `SigningKey::from_bytes` and `SigningKey::verifying_key`: the public key is
/// a function of the seed.
#[verifier::external_body]
fn ed25519_public(seed: &[u8; 32]) -> (r: [u8; 32])
    ensures
        r@ == ed25519_public_key(seed@),
{
    SigningKey::from_bytes(seed).verifying_key().to_bytes()
}

/// `SigningKey::sign`: the signature is a function of the seed and the message,
/// and the public key of the seed accepts it for that message.
#[verifier::external_body]
fn ed25519_sign(seed: &[u8; 32], message: &[u8]) -> (r: [u8; 64])
    ensures
        r@ == ed25519_signature(seed@, message@),
        ed25519_accepts(ed25519_public_key(seed@), message@, r@),
{
    SigningKey::from_bytes(seed).sign(message).to_bytes()
}

/// `VerifyingKey::from_bytes` and `VerifyingKey::verify`: the answer is a
/// function of the key, the message and the signature. A key that is no point
/// of the curve accepts nothing.
#[verifier::external_body]
fn ed25519_verify(public_key: &[u8; 32], message: &[u8], signature: &[u8; 64]) -> (r: bool)
    ensures
        r == ed25519_accepts(public_key@, message@, signature@),
{
    let signature = ed25519_dalek::Signature::from_bytes(signature);
    match VerifyingKey::from_bytes(public_key) {
        Ok(key) => key.verify(message, &signature).is_ok(),
        Err(_) => false,
    }
}

/// `Hmac::<Sha256>`, which takes a key of any length: the tag of the message,
/// of thirty-two bytes.
#[verifier::external_body]
fn hmac_sha256_tag(key: &[u8], message: &[u8]) -> (r: Vec<u8>)
    ensures
        r@ == hmac_sha256(key@, message@),
        r@.len() == 32,
{
    let mut mac = hmac::Hmac::<sha2::Sha256>::new_from_slice(key).expect("any key length");
    mac.update(message);
    mac.finalize().into_bytes().to_vec()
}

/// `Sha256::digest`: the digest of the bytes, of thirty-two bytes.
#[verifier::external_body]
fn sha256_digest(data: &[u8]) -> (r: Vec<u8>)
    ensures
        r@ == sha256(data@),
        r@.len() == 32,
{
    sha2::Sha256::digest(data).to_vec()
}

// ---------------------------------------------------------------------------
// The key pair of the proxy
// ---------------------------------------------------------------------------

/// Why stored bytes are not a key.
#[derive(Clone, Copy, PartialEq, Eq, Structural, Debug)]
pub enum KeyError {
    /// A seed has thirty-two bytes.
    SeedLength,
}

/// The signing key of the proxy, with its public key.
pub struct ProxyKeypair {
    seed: [u8; 32],
    public_key: [u8; 32],
}

/// The text under which a public key is published.
pub open spec fn public_key_text(seed: Seq<u8>) -> Seq<char> {
    encoding::base64_text(ed25519_public_key(seed))
}

/// Whether the key and the signature, both in base64, fit the message.
pub open spec fn signature_fits(
    public_key_b64: Seq<char>,
    message: Seq<u8>,
    signature_b64: Seq<char>,
) -> bool {
    match (encoding::base64_bytes(public_key_b64), encoding::base64_bytes(signature_b64)) {
        (Some(key), Some(signature)) => key.len() == 32 && signature.len() == 64
            && ed25519_accepts(key, message, signature),
        _ => false,
    }
}

fn array_32(b: &[u8]) -> (r: Option<[u8; 32]>)
    ensures
        match r {
            Some(a) => a@ == b@,
            None => b@.len() != 32,
        },
{
    if b.len() != 32 {
        return None;
    }
    let mut a: [u8; 32] = [0u8;32];
    let mut i: usize = 0;
    while i < 32
        invariant
            i <= 32,
            b@.len() == 32,
            forall|j: int| 0 <= j < i ==> a@[j] == b@[j],
        decreases 32 - i,
    {
        a[i] = b[i];
        i = i + 1;
    }
    assert(a@ =~= b@);
    Some(a)
}

fn array_64(b: &[u8]) -> (r: Option<[u8; 64]>)
    ensures
        match r {
            Some(a) => a@ == b@,
            None => b@.len() != 64,
        },
{
    if b.len() != 64 {
        return None;
    }
    let mut a: [u8; 64] = [0u8;64];
    let mut i: usize = 0;
    while i < 64
        invariant
            i <= 64,
            b@.len() == 64,
            forall|j: int| 0 <= j < i ==> a@[j] == b@[j],
        decreases 64 - i,
    {
        a[i] = b[i];
        i = i + 1;
    }
    assert(a@ =~= b@);
    Some(a)
}

impl ProxyKeypair {
    /// The secret seed.
    pub closed spec fn seed(&self) -> Seq<u8> {
        self.seed@
    }

    #[verifier::type_invariant]
    spec fn well_formed(&self) -> bool {
        self.public_key@ == ed25519_public_key(self.seed@)
    }

    fn from_seed(seed: [u8; 32]) -> (r: Self)
        ensures
            r.seed() == seed@,
    {
        let public_key = ed25519_public(&seed);
        ProxyKeypair { seed, public_key }
    }

    /// A key pair with a fresh random seed.
    pub fn generate() -> (r: Self)
        ensures
            r.seed().len() == 32,
    {
        Self::from_seed(ed25519_generate())
    }

    /// The key pair whose stored seed is `bytes`.
    pub fn load(bytes: &[u8]) -> (r: Result<Self, KeyError>)
        ensures
            match r {
                Ok(k) => bytes@.len() == 32 && k.seed() == bytes@,
                Err(e) => bytes@.len() != 32 && e == KeyError::SeedLength,
            },
    {
        match array_32(bytes) {
            Some(seed) => Ok(Self::from_seed(seed)),
            None => Err(KeyError::SeedLength),
        }
    }

    /// The stored key pair where a seed is stored; else a fresh one, which the
    /// caller stores under the condition that nothing is stored there yet. The
    /// flag tells that the key pair is fresh.
    pub fn load_or_generate(stored: Option<&[u8]>) -> (r: Result<(Self, bool), KeyError>)
        ensures
            match (stored, r) {
                (Some(bytes), Ok((k, fresh))) => bytes@.len() == 32 && k.seed() == bytes@ && !fresh,
                (Some(bytes), Err(e)) => bytes@.len() != 32 && e == KeyError::SeedLength,
                (None, Ok((k, fresh))) => fresh && k.seed().len() == 32,
                (None, Err(_)) => false,
            },
    {
        match stored {
            Some(bytes) => match Self::load(bytes) {
                Ok(k) => Ok((k, false)),
                Err(e) => Err(e),
            },
            None => Ok((Self::generate(), true)),
        }
    }

    /// The seed as it is stored.
    pub fn to_bytes(&self) -> (r: [u8; 32])
        ensures
            r@ == self.seed(),
    {
        self.seed
    }

    /// The public key in base64.
    pub fn public_key_b64(&self) -> (r: String)
        ensures
            r@ == public_key_text(self.seed()),
    {
        proof {
            use_type_invariant(self);
        }
        encoding::base64_encode(self.public_key.as_slice())
    }

    /// The signature of `message` in base64. The public key of this pair accepts it.
    pub fn sign(&self, message: &[u8]) -> (r: String)
        ensures
            r@ == encoding::base64_text(ed25519_signature(self.seed(), message@)),
            signature_fits(public_key_text(self.seed()), message@, r@),
    {
        proof {
            use_type_invariant(self);
        }
        let signature = ed25519_sign(&self.seed, message);
        proof {
            encoding::lemma_base64_round_trip(self.public_key@);
            encoding::lemma_base64_round_trip(signature@);
        }
        encoding::base64_encode(signature.as_slice())
    }
}

impl Clone for ProxyKeypair {
    fn clone(&self) -> (r: Self)
        ensures
            r.seed() == self.seed(),
    {
        proof {
            use_type_invariant(self);
        }
        ProxyKeypair { seed: self.seed, public_key: self.public_key }
    }
}

/// Whether the key and the signature, both in base64, fit the message.
pub fn verify_ed25519(public_key_b64: &str, message: &[u8], signature_b64: &str) -> (r: bool)
    ensures
        r == signature_fits(public_key_b64@, message@, signature_b64@),
{
    let pk_bytes = match encoding::decode_base64(public_key_b64) {
        Some(b) => b,
        None => {
            return false;
        },
    };
    let pk_array = match array_32(pk_bytes.as_slice()) {
        Some(a) => a,
        None => {
            return false;
        },
    };
    let sig_bytes = match encoding::decode_base64(signature_b64) {
        Some(b) => b,
        None => {
            return false;
        },
    };
    let sig_array = match array_64(sig_bytes.as_slice()) {
        Some(a) => a,
        None => {
            return false;
        },
    };
    ed25519_verify(&pk_array, message, &sig_array)
}

/// The HMAC of `value` under `pepper`, in hexadecimal.
pub open spec fn token_hmac(pepper: Seq<char>, value: Seq<char>) -> Seq<char> {
    encoding::hex_bytes(
        hmac_sha256(vstd::utf8::encode_utf8(pepper), vstd::utf8::encode_utf8(value)),
    )
}

/// The HMAC of `value` under `pepper`, in hexadecimal.
pub fn hmac_sha256_hex(pepper: &str, value: &str) -> (r: String)
    ensures
        r@ == token_hmac(pepper@, value@),
        r@.len() == 64,
{
    let tag = hmac_sha256_tag(pepper.as_bytes(), value.as_bytes());
    encoding::hex_encode(tag.as_slice())
}

/// The SHA-256 digest of `data`, in hexadecimal.
pub open spec fn sha256_text(data: Seq<u8>) -> Seq<char> {
    encoding::hex_bytes(sha256(data))
}

/// The SHA-256 digest of `data`, in hexadecimal.
pub fn sha256_hex(data: &[u8]) -> (r: String)
    ensures
        r@ == sha256_text(data@),
        r@.len() == 64,
{
    let digest = sha256_digest(data);
    encoding::hex_encode(digest.as_slice())
}

/// A signature fits a message under a key exactly where both are the base64 texts
/// of a key of thirty-two bytes and a signature of sixty-four that it accepts.
pub proof fn lemma_signature_fits(key: Seq<u8>, signature: Seq<u8>, message: Seq<u8>)
    ensures
        signature_fits(encoding::base64_text(key), message, encoding::base64_text(signature)) == (
        key.len() == 32 && signature.len() == 64 && ed25519_accepts(key, message, signature)),
{
    encoding::lemma_base64_round_trip(key);
    encoding::lemma_base64_round_trip(signature);
}

/// Nothing that is no base64 text is a key or a signature.
pub proof fn lemma_signature_needs_base64(
    public_key_b64: Seq<char>,
    message: Seq<u8>,
    signature_b64: Seq<char>,
)
    requires
        signature_fits(public_key_b64, message, signature_b64),
    ensures
        exists|key: Seq<u8>, signature: Seq<u8>|
            #[trigger] encoding::base64_text(key) == public_key_b64
                && #[trigger] encoding::base64_text(signature) == signature_b64 && key.len() == 32
                && signature.len() == 64 && ed25519_accepts(key, message, signature),
{
    let key = encoding::base64_bytes(public_key_b64)->0;
    let signature = encoding::base64_bytes(signature_b64)->0;
    assert(encoding::base64_text(key) == public_key_b64);
    assert(encoding::base64_text(signature) == signature_b64);
}

/// A key pair is published under the base64 text of its public key, which is
/// read back as that key.
pub proof fn lemma_public_key_text(seed: Seq<u8>)
    ensures
        encoding::base64_bytes(public_key_text(seed)) == Some(ed25519_public_key(seed)),
{
    encoding::lemma_base64_round_trip(ed25519_public_key(seed));
}

/// The digest of bytes, and the HMAC of a token under a pepper, are written with
/// two hexadecimal digits for each byte, the higher one first.
pub proof fn lemma_digest_texts(data: Seq<u8>, pepper: Seq<char>, value: Seq<char>, i: int)
    ensures
        ({
            let digest = sha256(data);
            let tag = hmac_sha256(
                vstd::utf8::encode_utf8(pepper),
                vstd::utf8::encode_utf8(value),
            );
            &&& sha256_text(data).len() == 2 * digest.len()
            &&& token_hmac(pepper, value).len() == 2 * tag.len()
            &&& 0 <= i < digest.len() ==> text::hex_value(sha256_text(data)[2 * i]) == Some(
                digest[i] as int / 16,
            ) && text::hex_value(sha256_text(data)[2 * i + 1]) == Some(digest[i] as int % 16)
            &&& 0 <= i < tag.len() ==> text::hex_value(token_hmac(pepper, value)[2 * i]) == Some(
                tag[i] as int / 16,
            ) && text::hex_value(token_hmac(pepper, value)[2 * i + 1]) == Some(
                tag[i] as int % 16,
            )
        }),
{
    let digest = sha256(data);
    let tag = hmac_sha256(vstd::utf8::encode_utf8(pepper), vstd::utf8::encode_utf8(value));
    if 0 <= i < digest.len() {
        text::lemma_hex_digit(digest[i] as int / 16);
        text::lemma_hex_digit(digest[i] as int % 16);
        assert((2 * i) / 2 == i && (2 * i + 1) / 2 == i);
    }
    if 0 <= i < tag.len() {
        text::lemma_hex_digit(tag[i] as int / 16);
        text::lemma_hex_digit(tag[i] as int % 16);
        assert((2 * i) / 2 == i && (2 * i + 1) / 2 == i);
    }
}

} // verus!
