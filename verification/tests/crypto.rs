//! Keys, signatures and hashes.

use phi::crypto::Keypair;

#[test]
fn sign_verify_roundtrip() {
    let kp = Keypair::from_label("alice");
    let sig = kp.sign(b"hello phi");
    assert!(kp.public().verify(b"hello phi", &sig));
}

#[test]
fn wrong_key_rejected() {
    let alice = Keypair::from_label("alice");
    let mallory = Keypair::from_label("mallory");
    let sig = mallory.sign(b"transfer all funds");
    assert!(!alice.public().verify(b"transfer all funds", &sig));
}

#[test]
fn tampered_message_rejected() {
    let kp = Keypair::from_label("alice");
    let sig = kp.sign(b"amount=10");
    assert!(!kp.public().verify(b"amount=10000", &sig));
}

#[test]
fn label_derivation_is_deterministic() {
    let a = Keypair::from_label("validator-0");
    let b = Keypair::from_label("validator-0");
    let c = Keypair::from_label("validator-1");
    assert_eq!(a.public(), b.public());
    assert_ne!(a.public(), c.public());
}

#[test]
fn tagged_hash_is_not_ambiguous_across_part_boundaries() {
    // Same concatenated bytes, different part split -> different hash.
    let a = phi::hash::Hash::of_tagged(b"t", &[b"ab", b"c"]);
    let b = phi::hash::Hash::of_tagged(b"t", &[b"a", b"bc"]);
    assert_ne!(a, b);
}

#[test]
fn tagged_hash_separates_domains() {
    assert_ne!(
        phi::hash::Hash::of_tagged(b"domain-a", &[b"payload"]),
        phi::hash::Hash::of_tagged(b"domain-b", &[b"payload"])
    );
}
