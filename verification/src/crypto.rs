//! Ed25519 keys and signatures.
//!
//! Signature algorithms are an account-level choice in the protocol, so these
//! types hide the backing library from the rest of the stack: a key or a
//! signature is its bytes.

use ed25519_dalek::Signer;
use vstd::prelude::*;
use vstd::std_specs::cmp::PartialEqSpecImpl;

use crate::bytes;
use crate::hash;
use crate::text;

verus! {

pub const PUBLIC_KEY_LEN: usize = 32;

pub const SIGNATURE_LEN: usize = 64;

/// The Ed25519 public key that belongs to a seed.
pub uninterp spec fn ed25519_public_key(seed: Seq<u8>) -> [u8; 32];

/// The Ed25519 signature of a message under a seed.
pub uninterp spec fn ed25519_signature(seed: Seq<u8>, message: Seq<u8>) -> [u8; 64];

/// Whether a signature passes strict Ed25519 verification.
pub uninterp spec fn ed25519_verifies(key: Seq<u8>, message: Seq<u8>, signature: Seq<u8>) -> bool;

/// The encoding of the curve's identity point.
pub open spec fn identity_point() -> Seq<u8> {
    Seq::new(32, |i: int| if i == 0 { 1u8 } else { 0u8 })
}

/// `ed25519_dalek::SigningKey::verifying_key`, on the key made of `seed` by
/// `SigningKey::from_bytes`: the public key depends on the seed alone.
#[verifier::external_body]
fn dalek_public_key(seed: &[u8; 32]) -> (key: [u8; 32])
    ensures
        key == ed25519_public_key(seed@),
{
    ed25519_dalek::SigningKey::from_bytes(seed).verifying_key().to_bytes()
}

/// `ed25519_dalek::Signer::sign`, on the key made of `seed` by
/// `SigningKey::from_bytes`: the signature depends on seed and message alone
/// (RFC 8032 signing draws no randomness). It passes strict verification
/// under the seed's public key, except where its first half encodes the
/// identity point, which strict verification refuses as a point of small
/// order. A public key made from a seed never has small order.
#[verifier::external_body]
fn dalek_sign(seed: &[u8; 32], message: &[u8]) -> (signature: [u8; 64])
    ensures
        signature == ed25519_signature(seed@, message@),
        signature@.take(32) != identity_point() ==> ed25519_verifies(
            ed25519_public_key(seed@)@,
            message@,
            signature@,
        ),
{
    ed25519_dalek::SigningKey::from_bytes(seed).sign(message).to_bytes()
}

/// `ed25519_dalek::VerifyingKey::verify_strict`, on the key decoded by
/// `VerifyingKey::from_bytes`: the verdict depends on the three byte strings
/// alone. Bytes that decode to no key verify nothing.
#[verifier::external_body]
fn dalek_verify(key: &[u8; 32], message: &[u8], signature: &[u8; 64]) -> (ok: bool)
    ensures
        ok == ed25519_verifies(key@, message@, signature@),
{
    match ed25519_dalek::VerifyingKey::from_bytes(key) {
        Ok(k) => k.verify_strict(message, &ed25519_dalek::Signature::from_bytes(signature)).is_ok(),
        Err(_) => false,
    }
}

/// An Ed25519 public key.
#[derive(Clone, Copy, Eq, Hash, PartialOrd, Ord, Debug)]
pub struct PublicKey(pub [u8; PUBLIC_KEY_LEN]);

/// A detached Ed25519 signature.
#[derive(Clone, Copy, Eq, Debug)]
pub struct Signature(pub [u8; SIGNATURE_LEN]);

/// An Ed25519 signing keypair. Its view is the secret seed.
pub struct Keypair {
    seed: [u8; 32],
}

impl View for PublicKey {
    type V = Seq<u8>;

    open spec fn view(&self) -> Seq<u8> {
        self.0@
    }
}

impl View for Signature {
    type V = Seq<u8>;

    open spec fn view(&self) -> Seq<u8> {
        self.0@
    }
}

impl View for Keypair {
    type V = Seq<u8>;

    closed spec fn view(&self) -> Seq<u8> {
        self.seed@
    }
}

impl PartialEqSpecImpl for PublicKey {
    open spec fn obeys_eq_spec() -> bool {
        true
    }

    open spec fn eq_spec(&self, other: &PublicKey) -> bool {
        *self == *other
    }
}

impl PartialEq for PublicKey {
    fn eq(&self, other: &PublicKey) -> (same: bool) {
        proof {
            lemma_key_ext(*self, *other);
        }
        bytes::bytes_eq(&self.0, &other.0)
    }
}

impl PartialEqSpecImpl for Signature {
    open spec fn obeys_eq_spec() -> bool {
        true
    }

    open spec fn eq_spec(&self, other: &Signature) -> bool {
        *self == *other
    }
}

impl PartialEq for Signature {
    fn eq(&self, other: &Signature) -> (same: bool) {
        proof {
            lemma_signature_ext(*self, *other);
        }
        bytes::bytes_eq(&self.0, &other.0)
    }
}

/// A public key is its bytes.
pub proof fn lemma_key_ext(a: PublicKey, b: PublicKey)
    ensures
        (a@ == b@) == (a == b),
{
    if a@ == b@ {
        assert(a.0 =~= b.0);
    }
}

/// A signature is its bytes.
pub proof fn lemma_signature_ext(a: Signature, b: Signature)
    ensures
        (a@ == b@) == (a == b),
{
    if a@ == b@ {
        assert(a.0 =~= b.0);
    }
}

/// The public key of the keypair with this seed.
pub open spec fn public_key_of(seed: Seq<u8>) -> PublicKey {
    PublicKey(ed25519_public_key(seed))
}

/// The signature that the keypair with this seed puts under a message.
pub open spec fn signature_of(seed: Seq<u8>, message: Seq<u8>) -> Signature {
    Signature(ed25519_signature(seed, message))
}

/// Whether `signature` is `key`'s signature over `message`.
pub open spec fn verifies(key: PublicKey, message: Seq<u8>, signature: Signature) -> bool {
    ed25519_verifies(key@, message, signature@)
}

/// The seed derived from a human label.
pub open spec fn label_seed(label: Seq<char>) -> Seq<u8> {
    hash::blake3_digest(text::utf8("phi:keyseed"@) + text::utf8(label))@
}

impl Keypair {
    /// Derive a keypair from a 32-byte seed.
    pub fn from_seed(seed: [u8; 32]) -> (kp: Keypair)
        ensures
            kp@ == seed@,
    {
        Keypair { seed }
    }

    /// Deterministic keypair from a human label (test/simulation helper; real
    /// wallets derive seeds from passkeys or OS keystores).
    pub fn from_label(label: &str) -> (kp: Keypair)
        ensures
            kp@ == label_seed(label@),
    {
        let mut input: Vec<u8> = Vec::new();
        bytes::push_bytes(&mut input, "phi:keyseed".as_bytes());
        bytes::push_bytes(&mut input, label.as_bytes());
        assert(input@ =~= text::utf8("phi:keyseed"@) + text::utf8(label@));
        Keypair::from_seed(hash::Hash::of(input.as_slice()).0)
    }

    pub fn public(&self) -> (key: PublicKey)
        ensures
            key == public_key_of(self@),
    {
        PublicKey(dalek_public_key(&self.seed))
    }

    /// Sign a message. The signature verifies under this keypair's public
    /// key, unless its first half encodes the identity point.
    pub fn sign(&self, message: &[u8]) -> (signature: Signature)
        ensures
            signature == signature_of(self@, message@),
            signature@.take(32) != identity_point() ==> verifies(
                public_key_of(self@),
                message@,
                signature,
            ),
    {
        Signature(dalek_sign(&self.seed, message))
    }
}

impl PublicKey {
    /// Verify a signature over `message`. Uses strict verification, which
    /// rejects malleable encodings and low-order public keys: consensus
    /// objects must have exactly one valid byte representation.
    pub fn verify(&self, message: &[u8], signature: &Signature) -> (ok: bool)
        ensures
            ok == verifies(*self, message@, *signature),
    {
        dalek_verify(&self.0, message, &signature.0)
    }

    /// The abbreviated form: `pk:`, the digits of the first six bytes, and an
    /// ellipsis.
    pub fn to_short_hex(&self) -> (s: String)
        ensures
            s@ == "pk:"@ + hash::hex_digits(self@.take(6)) + "…"@,
    {
        let mut s = String::new();
        s.append("pk:");
        hash::push_hex(&mut s, &self.0, 6);
        s.append("…");
        assert(s@ =~= "pk:"@ + hash::hex_digits(self@.take(6)) + "…"@);
        s
    }
}

impl Signature {
    /// The abbreviated form: `sig:`, the digits of the first six bytes, and an
    /// ellipsis.
    pub fn to_short_hex(&self) -> (s: String)
        ensures
            s@ == "sig:"@ + hash::hex_digits(self@.take(6)) + "…"@,
    {
        let mut s = String::new();
        s.append("sig:");
        hash::push_hex(&mut s, &self.0, 6);
        s.append("…");
        assert(s@ =~= "sig:"@ + hash::hex_digits(self@.take(6)) + "…"@);
        s
    }
}

/// Keys, signatures and their verification are those of Ed25519, on the bytes
/// that they hold.
pub proof fn law_signatures_are_ed25519(
    seed: Seq<u8>,
    key: PublicKey,
    message: Seq<u8>,
    signature: Signature,
)
    ensures
        public_key_of(seed).0 == ed25519_public_key(seed),
        signature_of(seed, message).0 == ed25519_signature(seed, message),
        verifies(key, message, signature) == ed25519_verifies(key.0@, message, signature.0@),
{
}

/// Different labels have different seeds, unless the hash inputs collide.
pub proof fn law_labels_have_their_own_seeds(a: Seq<char>, b: Seq<char>)
    requires
        label_seed(a) == label_seed(b),
    ensures
        a == b || hash::collide(
            text::utf8("phi:keyseed"@) + text::utf8(a),
            text::utf8("phi:keyseed"@) + text::utf8(b),
        ),
{
    let tag = text::utf8("phi:keyseed"@);
    let x = tag + text::utf8(a);
    let y = tag + text::utf8(b);
    let (p, q) = (hash::Hash(hash::blake3_digest(x)), hash::Hash(hash::blake3_digest(y)));
    hash::lemma_hash_ext(p, q);
    if x == y {
        bytes::lemma_concat_cancel(tag, text::utf8(a), tag, text::utf8(b));
        text::lemma_utf8_injective(a, b);
    }
}

} // verus!
