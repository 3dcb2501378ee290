//! The sparse Merkle tree.

use phi::bytemap::{ByteMap, Key};
use phi::smt::{prove, root, verify, DEPTH};

fn key(label: &str) -> Key {
    *phi::hash::Hash::of(label.as_bytes()).as_bytes()
}

fn value(label: &str) -> phi::hash::Hash {
    phi::hash::Hash::of(label.as_bytes())
}

const LABELS: [&str; 5] = ["alice", "bob", "carol", "dave", "erin"];

fn sample() -> ByteMap<phi::hash::Hash> {
    let mut entries = ByteMap::new();
    for l in LABELS {
        entries.insert(key(l), value(&format!("{l}-state")));
    }
    entries
}

#[test]
fn root_is_deterministic_and_insertion_order_independent() {
    let a = sample();
    let mut b = ByteMap::new();
    for i in (0..a.len()).rev() {
        b.insert(*a.key_at(i), *a.value_at(i));
    }
    assert_eq!(root(&a), root(&b));
    assert_ne!(root(&a), root(&ByteMap::new()));
}

#[test]
fn root_changes_when_a_value_changes() {
    let mut entries = sample();
    let before = root(&entries);
    entries.insert(key("alice"), value("alice-modified"));
    assert_ne!(before, root(&entries));
}

#[test]
fn inclusion_proofs_verify() {
    let entries = sample();
    let r = root(&entries);
    for i in 0..entries.len() {
        let k = entries.key_at(i);
        let v = entries.value_at(i);
        let proof = prove(&entries, k);
        assert!(verify(&r, k, Some(v), &proof));
        // Same proof with the wrong value or as an exclusion fails.
        assert!(!verify(&r, k, Some(&value("wrong")), &proof));
        assert!(!verify(&r, k, None, &proof));
    }
}

#[test]
fn exclusion_proofs_verify() {
    let entries = sample();
    let r = root(&entries);
    let absent = key("mallory");
    let proof = prove(&entries, &absent);
    assert!(verify(&r, &absent, None, &proof));
    assert!(!verify(&r, &absent, Some(&value("forged")), &proof));
}

#[test]
fn exclusion_stops_verifying_after_insert() {
    let mut entries = sample();
    let k = key("mallory");
    let old_root = root(&entries);
    let old_proof = prove(&entries, &k);
    assert!(verify(&old_root, &k, None, &old_proof));

    entries.insert(k, value("mallory-state"));
    let new_root = root(&entries);
    assert!(!verify(&new_root, &k, None, &old_proof));
    let new_proof = prove(&entries, &k);
    assert!(verify(&new_root, &k, Some(&value("mallory-state")), &new_proof));
}

#[test]
fn truncated_proof_rejected() {
    let entries = sample();
    let r = root(&entries);
    let k = key("alice");
    let mut proof = prove(&entries, &k);
    proof.siblings.pop();
    assert!(!verify(&r, &k, Some(&value("alice-state")), &proof));
}

#[test]
fn a_proof_has_one_sibling_per_level() {
    let entries = sample();
    assert_eq!(DEPTH, 256);
    assert_eq!(prove(&entries, &key("bob")).siblings.len(), 256);
}

#[test]
fn removing_an_entry_restores_the_root() {
    let mut entries = sample();
    let before = root(&entries);
    entries.insert(key("mallory"), value("mallory-state"));
    assert_ne!(root(&entries), before);
    entries.remove(&key("mallory"));
    assert_eq!(root(&entries), before);
}

#[test]
fn entries_are_kept_in_key_order() {
    let entries = sample();
    assert_eq!(entries.len(), 5);
    for i in 1..entries.len() {
        assert!(entries.key_at(i - 1) < entries.key_at(i));
    }
    assert!(entries.contains_key(&key("alice")));
    assert!(!entries.contains_key(&key("mallory")));
    assert_eq!(entries.get(&key("bob")), Some(&value("bob-state")));
}

#[test]
fn a_proof_cannot_be_varied() {
    let entries = sample();
    let r = root(&entries);
    for label in ["alice", "mallory"] {
        let k = key(label);
        let claim = entries.get(&k).copied();
        let proof = prove(&entries, &k);
        assert!(verify(&r, &k, claim.as_ref(), &proof));
        for level in [0, 1, 100, 255] {
            let mut varied = prove(&entries, &k);
            varied.siblings[level] = value("other");
            assert!(!verify(&r, &k, claim.as_ref(), &varied));
        }
    }
}
