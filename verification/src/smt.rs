//! Sparse Merkle Tree over 32-byte keys.
//!
//! Gives the state commitment compact *inclusion and exclusion* proofs: light
//! clients can verify both "this account has balance X" and "this account does
//! not exist" against a block's state root. The tree is the full 256-level
//! binary tree over the key bit-space; empty subtrees hash to defaults, so
//! only populated paths cost anything.
//!
//! Proofs are uncompressed (256 siblings). Roots are recomputed from the leaf
//! map on demand.

use vstd::prelude::*;

use crate::bytemap;
use crate::bytemap::{ByteMap, Key};
use crate::hash;
use crate::text;

verus! {

/// Tree depth: one level per key bit.
pub const DEPTH: usize = 256;

/// What is hashed for an interior node.
pub open spec fn node_input(left: hash::Hash, right: hash::Hash) -> Seq<u8> {
    hash::tagged_preimage(text::utf8("nex:smt:node"@), seq![left@, right@])
}

/// What is hashed for a populated leaf.
pub open spec fn leaf_input(key: Key, value_hash: hash::Hash) -> Seq<u8> {
    hash::tagged_preimage(text::utf8("nex:smt:leaf"@), seq![key@, value_hash@])
}

/// What is hashed for an empty leaf.
pub open spec fn empty_input() -> Seq<u8> {
    hash::tagged_preimage(text::utf8("nex:smt:empty"@), Seq::empty())
}

/// The tagged hash of an interior node.
pub open spec fn node_digest(left: hash::Hash, right: hash::Hash) -> hash::Hash {
    hash::tagged(text::utf8("nex:smt:node"@), seq![left@, right@])
}

/// The tagged hash of a populated leaf.
pub open spec fn leaf_digest(key: Key, value_hash: hash::Hash) -> hash::Hash {
    hash::tagged(text::utf8("nex:smt:leaf"@), seq![key@, value_hash@])
}

/// The hash of an empty subtree whose root sits at depth `depth`.
pub open spec fn empty_digest(depth: int) -> hash::Hash
    decreases DEPTH - depth,
{
    if depth >= DEPTH {
        hash::tagged(text::utf8("nex:smt:empty"@), Seq::empty())
    } else {
        node_digest(empty_digest(depth + 1), empty_digest(depth + 1))
    }
}

/// Bit `depth` of `key`, most significant first.
pub open spec fn bit_of(key: Key, depth: int) -> bool {
    (key[depth / 8] >> ((7 - depth % 8) as u8)) & 1u8 == 1u8
}

/// The entries whose key has `side` as bit `depth`.
pub open spec fn half(m: Map<Key, hash::Hash>, depth: int, side: bool) -> Map<Key, hash::Hash> {
    m.restrict(Set::new(|k: Key| bit_of(k, depth) == side))
}

/// The hash of the subtree at `depth` that holds the entries `m`.
pub open spec fn subtree(m: Map<Key, hash::Hash>, depth: int) -> hash::Hash
    decreases DEPTH - depth,
{
    if m == Map::<Key, hash::Hash>::empty() {
        empty_digest(depth)
    } else if depth >= DEPTH {
        let key = choose|k: Key| m.contains_key(k);
        leaf_digest(key, m[key])
    } else {
        node_digest(
            subtree(half(m, depth, false), depth + 1),
            subtree(half(m, depth, true), depth + 1),
        )
    }
}

/// The root of the tree that holds the entries `m`.
pub open spec fn root_of(m: Map<Key, hash::Hash>) -> hash::Hash {
    subtree(m, 0)
}

/// All that is hashed for the subtree at `depth` that holds the entries `m`.
pub open spec fn subtree_inputs(m: Map<Key, hash::Hash>, depth: int) -> Set<Seq<u8>>
    decreases DEPTH - depth,
{
    if depth >= DEPTH {
        if m == Map::<Key, hash::Hash>::empty() {
            set![empty_input()]
        } else {
            let key = choose|k: Key| m.contains_key(k);
            set![leaf_input(key, m[key])]
        }
    } else {
        let left = half(m, depth, false);
        let right = half(m, depth, true);
        subtree_inputs(left, depth + 1).union(subtree_inputs(right, depth + 1)).insert(
            node_input(subtree(left, depth + 1), subtree(right, depth + 1)),
        )
    }
}

/// All that is hashed for the root of the tree that holds the entries `m`.
pub open spec fn root_inputs(m: Map<Key, hash::Hash>) -> Set<Seq<u8>> {
    subtree_inputs(m, 0)
}

/// The siblings on the way of `key` from `depth` down, top first.
pub open spec fn path(m: Map<Key, hash::Hash>, key: Key, depth: int) -> Seq<hash::Hash>
    decreases DEPTH - depth,
{
    if depth >= DEPTH {
        Seq::empty()
    } else {
        let side = bit_of(key, depth);
        seq![subtree(half(m, depth, !side), depth + 1)] + path(half(m, depth, side), key, depth + 1)
    }
}

/// The leaf that a claim about `key` speaks of: a value, or nothing at all.
pub open spec fn claimed_leaf(key: Key, claim: Option<hash::Hash>) -> hash::Hash {
    match claim {
        Some(v) => leaf_digest(key, v),
        None => empty_digest(DEPTH as int),
    }
}

/// The node at `depth` on the way of `key` that the claimed leaf and the
/// siblings below lead to.
pub open spec fn climb(
    key: Key,
    claim: Option<hash::Hash>,
    siblings: Seq<hash::Hash>,
    depth: int,
) -> hash::Hash
    decreases DEPTH - depth,
{
    if depth >= DEPTH {
        claimed_leaf(key, claim)
    } else {
        let below = climb(key, claim, siblings, depth + 1);
        if bit_of(key, depth) {
            node_digest(siblings[depth], below)
        } else {
            node_digest(below, siblings[depth])
        }
    }
}

/// What is hashed for the leaf that a claim about `key` speaks of.
pub open spec fn claim_input(key: Key, claim: Option<hash::Hash>) -> Seq<u8> {
    match claim {
        Some(v) => leaf_input(key, v),
        None => empty_input(),
    }
}

/// All that is hashed on the way from the claimed leaf up to `depth` (see
/// [`climb`]).
pub open spec fn climb_inputs(
    key: Key,
    claim: Option<hash::Hash>,
    siblings: Seq<hash::Hash>,
    depth: int,
) -> Set<Seq<u8>>
    decreases DEPTH - depth,
{
    if depth >= DEPTH {
        set![claim_input(key, claim)]
    } else {
        let below = climb(key, claim, siblings, depth + 1);
        climb_inputs(key, claim, siblings, depth + 1).insert(
            if bit_of(key, depth) {
                node_input(siblings[depth], below)
            } else {
                node_input(below, siblings[depth])
            },
        )
    }
}

/// All that is hashed to check a proof of the claim about `key`.
pub open spec fn proof_inputs(
    key: Key,
    claim: Option<hash::Hash>,
    siblings: Seq<hash::Hash>,
) -> Set<Seq<u8>> {
    climb_inputs(key, claim, siblings, 0)
}

/// Whether the siblings prove the claim about `key` under `root`.
pub open spec fn proves(
    root: hash::Hash,
    key: Key,
    claim: Option<hash::Hash>,
    siblings: Seq<hash::Hash>,
) -> bool {
    siblings.len() == DEPTH && climb(key, claim, siblings, 0) == root
}

/// What a map says about a key.
pub open spec fn lookup(m: Map<Key, hash::Hash>, key: Key) -> Option<hash::Hash> {
    if m.contains_key(key) {
        Some(m[key])
    } else {
        None
    }
}

/// Whether two keys have the same first `depth` bits.
spec fn agree(a: Key, b: Key, depth: int) -> bool {
    forall|d: int| 0 <= d < depth ==> #[trigger] bit_of(a, d) == bit_of(b, d)
}

/// Whether all keys of `m` have the same first `depth` bits.
spec fn uniform(m: Map<Key, hash::Hash>, depth: int) -> bool {
    forall|a: Key, b: Key|
        #[trigger] m.contains_key(a) && #[trigger] m.contains_key(b) ==> agree(a, b, depth)
}

proof fn lemma_byte_from_bits(a: u8, b: u8)
    by (bit_vector)
    requires
        (a >> 7u8) & 1u8 == (b >> 7u8) & 1u8,
        (a >> 6u8) & 1u8 == (b >> 6u8) & 1u8,
        (a >> 5u8) & 1u8 == (b >> 5u8) & 1u8,
        (a >> 4u8) & 1u8 == (b >> 4u8) & 1u8,
        (a >> 3u8) & 1u8 == (b >> 3u8) & 1u8,
        (a >> 2u8) & 1u8 == (b >> 2u8) & 1u8,
        (a >> 1u8) & 1u8 == (b >> 1u8) & 1u8,
        (a >> 0u8) & 1u8 == (b >> 0u8) & 1u8,
    ensures
        a == b,
{
}

proof fn lemma_one_bit(x: u8, n: u8)
    by (bit_vector)
    ensures
        (x >> n) & 1u8 == 0u8 || (x >> n) & 1u8 == 1u8,
{
}

proof fn lemma_same_bit(a: Key, b: Key, byte: int, t: int)
    requires
        0 <= byte < 32,
        0 <= t < 8,
        bit_of(a, 8 * byte + t) == bit_of(b, 8 * byte + t),
    ensures
        (a[byte] >> ((7 - t) as u8)) & 1u8 == (b[byte] >> ((7 - t) as u8)) & 1u8,
{
    assert((8 * byte + t) / 8 == byte);
    assert((8 * byte + t) % 8 == t);
    lemma_one_bit(a[byte], (7 - t) as u8);
    lemma_one_bit(b[byte], (7 - t) as u8);
}

/// Keys with the same bits are the same key.
proof fn lemma_agree_all(a: Key, b: Key)
    requires
        agree(a, b, DEPTH as int),
    ensures
        a == b,
{
    assert forall|i: int| 0 <= i < 32 implies a[i] == b[i] by {
        assert forall|t: int| 0 <= t < 8 implies #[trigger] bit_of(a, 8 * i + t) == bit_of(
            b,
            8 * i + t,
        ) by {}
        lemma_same_bit(a, b, i, 0);
        lemma_same_bit(a, b, i, 1);
        lemma_same_bit(a, b, i, 2);
        lemma_same_bit(a, b, i, 3);
        lemma_same_bit(a, b, i, 4);
        lemma_same_bit(a, b, i, 5);
        lemma_same_bit(a, b, i, 6);
        lemma_same_bit(a, b, i, 7);
        lemma_byte_from_bits(a[i], b[i]);
    }
    assert(a =~= b);
}

proof fn lemma_half_uniform(m: Map<Key, hash::Hash>, depth: int, side: bool)
    requires
        uniform(m, depth),
    ensures
        uniform(half(m, depth, side), depth + 1),
{
    let h = half(m, depth, side);
    assert forall|a: Key, b: Key| #[trigger] h.contains_key(a) && #[trigger] h.contains_key(
        b,
    ) implies agree(a, b, depth + 1) by {
        assert(m.contains_key(a) && m.contains_key(b));
    }
}

/// Above the leaves a subtree is the node over its halves, empty or not.
proof fn lemma_subtree_node(m: Map<Key, hash::Hash>, depth: int)
    requires
        depth < DEPTH,
    ensures
        subtree(m, depth) == node_digest(
            subtree(half(m, depth, false), depth + 1),
            subtree(half(m, depth, true), depth + 1),
        ),
{
    if m == Map::<Key, hash::Hash>::empty() {
        assert(half(m, depth, false) =~= Map::<Key, hash::Hash>::empty());
        assert(half(m, depth, true) =~= Map::<Key, hash::Hash>::empty());
    }
}

fn node_hash(left: &hash::Hash, right: &hash::Hash) -> (h: hash::Hash)
    ensures
        h == node_digest(*left, *right),
{
    let parts: [&[u8]; 2] = [left.0.as_slice(), right.0.as_slice()];
    assert(hash::part_views(parts@) =~= seq![left@, right@]);
    hash::Hash::of_tagged("nex:smt:node".as_bytes(), &parts)
}

fn leaf_hash(key: &Key, value_hash: &hash::Hash) -> (h: hash::Hash)
    ensures
        h == leaf_digest(*key, *value_hash),
{
    let parts: [&[u8]; 2] = [key.as_slice(), value_hash.0.as_slice()];
    assert(hash::part_views(parts@) =~= seq![key@, value_hash@]);
    hash::Hash::of_tagged("nex:smt:leaf".as_bytes(), &parts)
}

fn empty_leaf() -> (h: hash::Hash)
    ensures
        h == empty_digest(DEPTH as int),
{
    let parts: [&[u8]; 0] = [];
    assert(hash::part_views(parts@) =~= Seq::<Seq<u8>>::empty());
    hash::Hash::of_tagged("nex:smt:empty".as_bytes(), &parts)
}

/// The hashes of the empty subtrees, by height: that of depth `d` stands at
/// index `DEPTH - d`.
fn empty_hashes() -> (table: Vec<hash::Hash>)
    ensures
        table@.len() == DEPTH + 1,
        forall|i: int| 0 <= i <= DEPTH ==> #[trigger] table@[i] == empty_digest(DEPTH - i),
{
    let mut table: Vec<hash::Hash> = Vec::new();
    let mut current: hash::Hash = empty_leaf();
    table.push(current);
    let mut i: usize = 0;
    while i < DEPTH
        invariant
            i <= DEPTH,
            table@.len() == i + 1,
            current == empty_digest(DEPTH - i),
            forall|j: int| 0 <= j <= i ==> #[trigger] table@[j] == empty_digest(DEPTH - j),
        decreases DEPTH - i,
    {
        current = node_hash(&current, &current);
        table.push(current);
        i += 1;
    }
    table
}

/// Bit `depth` of `key`, most significant first.
fn bit(key: &Key, depth: usize) -> (b: bool)
    requires
        depth < DEPTH,
    ensures
        b == bit_of(*key, depth as int),
{
    let shift: u8 = (7 - depth % 8) as u8;
    (key[depth / 8] >> shift) & 1 == 1
}

/// Splits the entries by bit `depth` of their keys.
fn split(entries: &Vec<(Key, hash::Hash)>, depth: usize) -> (halves: (
    Vec<(Key, hash::Hash)>,
    Vec<(Key, hash::Hash)>,
))
    requires
        depth < DEPTH,
    ensures
        bytemap::as_map(halves.0@) == half(bytemap::as_map(entries@), depth as int, false),
        bytemap::as_map(halves.1@) == half(bytemap::as_map(entries@), depth as int, true),
{
    let mut zeros: Vec<(Key, hash::Hash)> = Vec::new();
    let mut ones: Vec<(Key, hash::Hash)> = Vec::new();
    let ghost d = depth as int;
    let mut i: usize = 0;
    proof {
        let none = Map::<Key, hash::Hash>::empty();
        assert(bytemap::as_map(entries@.take(0)) == none);
        assert(half(none, d, false) =~= none);
        assert(half(none, d, true) =~= none);
    }
    while i < entries.len()
        invariant
            depth < DEPTH,
            d == depth,
            i <= entries@.len(),
            bytemap::as_map(zeros@) == half(bytemap::as_map(entries@.take(i as int)), d, false),
            bytemap::as_map(ones@) == half(bytemap::as_map(entries@.take(i as int)), d, true),
        decreases entries@.len() - i,
    {
        let e: (Key, hash::Hash) = entries[i];
        let ghost m = bytemap::as_map(entries@.take(i as int));
        let ghost z = zeros@;
        let ghost o = ones@;
        proof {
            assert(entries@.take(i + 1).drop_last() =~= entries@.take(i as int));
        }
        if bit(&e.0, depth) {
            ones.push(e);
            proof {
                assert(ones@.drop_last() =~= o);
                assert(half(m.insert(e.0, e.1), d, true) =~= half(m, d, true).insert(e.0, e.1));
                assert(half(m.insert(e.0, e.1), d, false) =~= half(m, d, false));
            }
        } else {
            zeros.push(e);
            proof {
                assert(zeros@.drop_last() =~= z);
                assert(half(m.insert(e.0, e.1), d, false) =~= half(m, d, false).insert(e.0, e.1));
                assert(half(m.insert(e.0, e.1), d, true) =~= half(m, d, true));
            }
        }
        i += 1;
    }
    assert(entries@.take(i as int) =~= entries@);
    (zeros, ones)
}

/// The hash of the subtree at `depth` that holds `entries`.
fn subtree_root(
    entries: &Vec<(Key, hash::Hash)>,
    depth: usize,
    empties: &Vec<hash::Hash>,
) -> (h: hash::Hash)
    requires
        depth <= DEPTH,
        uniform(bytemap::as_map(entries@), depth as int),
        empties@.len() == DEPTH + 1,
        forall|i: int| 0 <= i <= DEPTH ==> #[trigger] empties@[i] == empty_digest(DEPTH - i),
    ensures
        h == subtree(bytemap::as_map(entries@), depth as int),
    decreases DEPTH - depth,
{
    let n: usize = entries.len();
    let ghost m = bytemap::as_map(entries@);
    if n == 0 {
        return empties[DEPTH - depth];
    }
    let last: (Key, hash::Hash) = entries[n - 1];
    assert(m.contains_key(last.0) && m[last.0] == last.1);
    if depth == DEPTH {
        proof {
            let key = choose|k: Key| m.contains_key(k);
            assert(m.contains_key(key));
            lemma_agree_all(key, last.0);
        }
        return leaf_hash(&last.0, &last.1);
    }
    proof {
        lemma_half_uniform(m, depth as int, false);
        lemma_half_uniform(m, depth as int, true);
    }
    let (zeros, ones) = split(entries, depth);
    let left = subtree_root(&zeros, depth + 1, empties);
    let right = subtree_root(&ones, depth + 1, empties);
    node_hash(&left, &right)
}

/// The entries of a map as a list.
fn flat(entries: &ByteMap<hash::Hash>) -> (list: Vec<(Key, hash::Hash)>)
    ensures
        list@ == entries.entries(),
        bytemap::as_map(list@) == entries@,
{
    let n: usize = entries.len();
    let mut list: Vec<(Key, hash::Hash)> = Vec::new();
    let mut i: usize = 0;
    while i < n
        invariant
            i <= n,
            n == entries.entries().len(),
            list@ == entries.entries().take(i as int),
        decreases n - i,
    {
        list.push((*entries.key_at(i), *entries.value_at(i)));
        assert(list@ =~= entries.entries().take(i + 1));
        i += 1;
    }
    assert(entries.entries().take(n as int) =~= entries.entries());
    list
}

/// Root of the tree containing `entries` (key to value hash).
pub fn root(entries: &ByteMap<hash::Hash>) -> (h: hash::Hash)
    ensures
        h == root_of(entries@),
{
    let list = flat(entries);
    let empties = empty_hashes();
    subtree_root(&list, 0, &empties)
}

/// Merkle path for one key: the sibling root at every depth, top first. The
/// same structure proves inclusion (key present with a value) and exclusion
/// (key's path ends in the empty leaf).
#[derive(Debug, PartialEq, Eq)]
pub struct SmtProof {
    pub siblings: Vec<hash::Hash>,
}

impl View for SmtProof {
    type V = Seq<hash::Hash>;

    open spec fn view(&self) -> Seq<hash::Hash> {
        self.siblings@
    }
}

impl Clone for SmtProof {
    fn clone(&self) -> (p: SmtProof)
        ensures
            p@ == self@,
    {
        let siblings = self.siblings.clone();
        assert(siblings@ =~= self.siblings@);
        SmtProof { siblings }
    }
}

/// Build the (in|ex)clusion proof for `key`.
pub fn prove(entries: &ByteMap<hash::Hash>, key: &Key) -> (proof: SmtProof)
    ensures
        proof@ == path(entries@, *key, 0),
{
    let empties = empty_hashes();
    let mut window = flat(entries);
    let mut siblings: Vec<hash::Hash> = Vec::new();
    let mut depth: usize = 0;
    assert(siblings@ + path(entries@, *key, 0) =~= path(entries@, *key, 0));
    while depth < DEPTH
        invariant
            depth <= DEPTH,
            uniform(bytemap::as_map(window@), depth as int),
            siblings@ + path(bytemap::as_map(window@), *key, depth as int) == path(
                entries@,
                *key,
                0,
            ),
            empties@.len() == DEPTH + 1,
            forall|i: int| 0 <= i <= DEPTH ==> #[trigger] empties@[i] == empty_digest(DEPTH - i),
        decreases DEPTH - depth,
    {
        let ghost m = bytemap::as_map(window@);
        let ghost before = siblings@;
        proof {
            lemma_half_uniform(m, depth as int, false);
            lemma_half_uniform(m, depth as int, true);
        }
        let (zeros, ones) = split(&window, depth);
        let (chosen, sibling) = if bit(key, depth) {
            (ones, zeros)
        } else {
            (zeros, ones)
        };
        siblings.push(subtree_root(&sibling, depth + 1, &empties));
        assert(siblings@ + path(bytemap::as_map(chosen@), *key, depth + 1) =~= before + path(
            m,
            *key,
            depth as int,
        ));
        window = chosen;
        depth += 1;
    }
    assert(siblings@ + path(bytemap::as_map(window@), *key, depth as int) =~= siblings@);
    SmtProof { siblings }
}

/// Verify a proof against `expected_root`. `value_hash` is `Some` for an
/// inclusion claim and `None` for an exclusion claim.
pub fn verify(
    expected_root: &hash::Hash,
    key: &Key,
    value_hash: Option<&hash::Hash>,
    proof: &SmtProof,
) -> (ok: bool)
    ensures
        ok == proves(
            *expected_root,
            *key,
            match value_hash {
                Some(v) => Some(*v),
                None => None,
            },
            proof@,
        ),
{
    let ghost claim: Option<hash::Hash> = match value_hash {
        Some(v) => Some(*v),
        None => None,
    };
    if proof.siblings.len() != DEPTH {
        return false;
    }
    let mut current: hash::Hash = match value_hash {
        Some(v) => leaf_hash(key, v),
        None => empty_leaf(),
    };
    let mut depth: usize = DEPTH;
    while depth > 0
        invariant
            depth <= DEPTH,
            proof@.len() == DEPTH,
            current == climb(*key, claim, proof@, depth as int),
        decreases depth,
    {
        depth -= 1;
        let sibling = &proof.siblings[depth];
        current = if bit(key, depth) {
            node_hash(sibling, &current)
        } else {
            node_hash(&current, sibling)
        };
    }
    current == *expected_root
}

/// The three domains are apart, and every hash input of this module frames.
proof fn lemma_tags()
    ensures
        text::utf8("nex:smt:leaf"@) != text::utf8("nex:smt:empty"@),
        text::utf8("nex:smt:leaf"@).len() < 0x1_0000_0000,
        text::utf8("nex:smt:node"@).len() < 0x1_0000_0000,
        text::utf8("nex:smt:empty"@).len() < 0x1_0000_0000,
{
    reveal_strlit("nex:smt:leaf");
    reveal_strlit("nex:smt:node");
    reveal_strlit("nex:smt:empty");
    text::lemma_utf8_len("nex:smt:leaf"@);
    text::lemma_utf8_len("nex:smt:node"@);
    text::lemma_utf8_len("nex:smt:empty"@);
    assert("nex:smt:leaf"@.len() != "nex:smt:empty"@.len());
    if text::utf8("nex:smt:leaf"@) == text::utf8("nex:smt:empty"@) {
        text::lemma_utf8_injective("nex:smt:leaf"@, "nex:smt:empty"@);
    }
}

proof fn lemma_node_binds(a: hash::Hash, b: hash::Hash, c: hash::Hash, d: hash::Hash)
    requires
        node_digest(a, b) == node_digest(c, d),
    ensures
        (a == c && b == d) || hash::collide(node_input(a, b), node_input(c, d)),
{
    lemma_tags();
    let tag = text::utf8("nex:smt:node"@);
    hash::law_tagged_binds(tag, seq![a@, b@], tag, seq![c@, d@]);
    if !hash::collide(node_input(a, b), node_input(c, d)) {
        assert(seq![a@, b@][0] == seq![c@, d@][0]);
        assert(seq![a@, b@][1] == seq![c@, d@][1]);
        hash::lemma_hash_ext(a, c);
        hash::lemma_hash_ext(b, d);
    }
}

proof fn lemma_leaf_binds(j: Key, v: hash::Hash, k: Key, w: hash::Hash)
    requires
        leaf_digest(j, v) == leaf_digest(k, w),
    ensures
        (j == k && v == w) || hash::collide(leaf_input(j, v), leaf_input(k, w)),
{
    lemma_tags();
    let tag = text::utf8("nex:smt:leaf"@);
    hash::law_tagged_binds(tag, seq![j@, v@], tag, seq![k@, w@]);
    if !hash::collide(leaf_input(j, v), leaf_input(k, w)) {
        assert(seq![j@, v@][0] == seq![k@, w@][0]);
        assert(seq![j@, v@][1] == seq![k@, w@][1]);
        assert(j =~= k);
        hash::lemma_hash_ext(v, w);
    }
}

proof fn lemma_leaf_is_not_empty(k: Key, v: hash::Hash)
    requires
        leaf_digest(k, v) == empty_digest(DEPTH as int),
    ensures
        hash::collide(leaf_input(k, v), empty_input()),
{
    lemma_tags();
    hash::law_tagged_binds(
        text::utf8("nex:smt:leaf"@),
        seq![k@, v@],
        text::utf8("nex:smt:empty"@),
        Seq::empty(),
    );
}

/// What a map of keys that all agree with `key` hashes to at the bottom.
proof fn lemma_bottom(m: Map<Key, hash::Hash>, key: Key)
    requires
        forall|k: Key| #[trigger] m.contains_key(k) ==> agree(k, key, DEPTH as int),
    ensures
        subtree(m, DEPTH as int) == claimed_leaf(key, lookup(m, key)),
        subtree_inputs(m, DEPTH as int) == set![claim_input(key, lookup(m, key))],
{
    if m == Map::<Key, hash::Hash>::empty() {
    } else {
        if forall|k: Key| !m.contains_key(k) {
            assert(m =~= Map::<Key, hash::Hash>::empty());
        }
        let k = choose|k: Key| m.contains_key(k);
        lemma_agree_all(k, key);
    }
}

proof fn lemma_path_climbs(
    m: Map<Key, hash::Hash>,
    key: Key,
    siblings: Seq<hash::Hash>,
    depth: int,
)
    requires
        0 <= depth <= DEPTH,
        forall|k: Key| #[trigger] m.contains_key(k) ==> agree(k, key, depth),
        siblings.len() == DEPTH,
        siblings.skip(depth) == path(m, key, depth),
    ensures
        climb(key, lookup(m, key), siblings, depth) == subtree(m, depth),
        climb_inputs(key, lookup(m, key), siblings, depth).subset_of(subtree_inputs(m, depth)),
    decreases DEPTH - depth,
{
    if depth == DEPTH {
        lemma_bottom(m, key);
    } else {
        let side = bit_of(key, depth);
        let near = half(m, depth, side);
        lemma_subtree_node(m, depth);
        assert(siblings.skip(depth + 1) =~= siblings.skip(depth).drop_first());
        assert(path(m, key, depth).drop_first() =~= path(near, key, depth + 1));
        assert(siblings[depth] == siblings.skip(depth)[0]);
        assert forall|k: Key| #[trigger] near.contains_key(k) implies agree(k, key, depth + 1) by {
            assert(m.contains_key(k));
        }
        lemma_path_climbs(near, key, siblings, depth + 1);
        assert(lookup(near, key) == lookup(m, key));
    }
}

proof fn lemma_path_len(m: Map<Key, hash::Hash>, key: Key, depth: int)
    requires
        0 <= depth <= DEPTH,
    ensures
        path(m, key, depth).len() == DEPTH - depth,
    decreases DEPTH - depth,
{
    if depth < DEPTH {
        lemma_path_len(half(m, depth, bit_of(key, depth)), key, depth + 1);
    }
}

/// The path of any key proves what the map says about the key: its value if
/// it is there, its absence if it is not.
pub proof fn law_proofs_verify(m: Map<Key, hash::Hash>, key: Key)
    ensures
        proves(root_of(m), key, lookup(m, key), path(m, key, 0)),
{
    let siblings = path(m, key, 0);
    lemma_path_len(m, key, 0);
    assert(siblings.skip(0) =~= siblings);
    lemma_path_climbs(m, key, siblings, 0);
}

proof fn lemma_climb_sound(
    m: Map<Key, hash::Hash>,
    key: Key,
    claim: Option<hash::Hash>,
    siblings: Seq<hash::Hash>,
    depth: int,
    inputs: Set<Seq<u8>>,
)
    requires
        0 <= depth <= DEPTH,
        forall|k: Key| #[trigger] m.contains_key(k) ==> agree(k, key, depth),
        siblings.len() == DEPTH,
        climb(key, claim, siblings, depth) == subtree(m, depth),
        subtree_inputs(m, depth).subset_of(inputs),
        climb_inputs(key, claim, siblings, depth).subset_of(inputs),
    ensures
        (claim == lookup(m, key) && siblings.skip(depth) == path(m, key, depth))
            || hash::collision_in(inputs),
    decreases DEPTH - depth,
{
    if depth == DEPTH {
        assert(siblings.skip(depth) =~= path(m, key, depth));
        lemma_bottom(m, key);
        assert(climb_inputs(key, claim, siblings, depth).contains(claim_input(key, claim)));
        assert(subtree_inputs(m, depth).contains(claim_input(key, lookup(m, key))));
        match (claim, lookup(m, key)) {
            (Some(v), Some(w)) => lemma_leaf_binds(key, v, key, w),
            (Some(v), None) => lemma_leaf_is_not_empty(key, v),
            (None, Some(w)) => lemma_leaf_is_not_empty(key, w),
            (None, None) => {},
        }
    } else {
        let side = bit_of(key, depth);
        let near = half(m, depth, side);
        let below = climb(key, claim, siblings, depth + 1);
        lemma_subtree_node(m, depth);
        let l = subtree(half(m, depth, false), depth + 1);
        let r = subtree(half(m, depth, true), depth + 1);
        assert(subtree_inputs(m, depth).contains(node_input(l, r)));
        assert(subtree_inputs(near, depth + 1).subset_of(subtree_inputs(m, depth)));
        let (left, right) = if side {
            (siblings[depth], below)
        } else {
            (below, siblings[depth])
        };
        assert(climb_inputs(key, claim, siblings, depth).contains(node_input(left, right)));
        assert(climb_inputs(key, claim, siblings, depth + 1).subset_of(
            climb_inputs(key, claim, siblings, depth),
        ));
        lemma_node_binds(left, right, l, r);
        if !hash::collision_in(inputs) {
            assert forall|k: Key| #[trigger] near.contains_key(k) implies agree(
                k,
                key,
                depth + 1,
            ) by {
                assert(m.contains_key(k));
            }
            lemma_climb_sound(near, key, claim, siblings, depth + 1, inputs);
            assert(lookup(near, key) == lookup(m, key));
            assert(siblings.skip(depth) =~= seq![siblings[depth]] + siblings.skip(depth + 1));
        }
    }
}

/// Against the root of a map, nothing but what the map says about a key can
/// be proved of it, and in no other way than by the path of the key: a proof is
/// unique, unless two of the hash inputs of root and proof collide.
pub proof fn law_proofs_are_sound(
    m: Map<Key, hash::Hash>,
    key: Key,
    claim: Option<hash::Hash>,
    siblings: Seq<hash::Hash>,
)
    requires
        proves(root_of(m), key, claim, siblings),
    ensures
        (claim == lookup(m, key) && siblings == path(m, key, 0)) || hash::collision_in(
            root_inputs(m).union(proof_inputs(key, claim, siblings)),
        ),
{
    let inputs = root_inputs(m).union(proof_inputs(key, claim, siblings));
    lemma_climb_sound(m, key, claim, siblings, 0, inputs);
    assert(siblings.skip(0) =~= siblings);
}

/// Distinct maps have distinct roots, unless two of their hash inputs collide.
/// A root depends on the map alone, not on the order in which it was filled.
pub proof fn law_root_binds_map(a: Map<Key, hash::Hash>, b: Map<Key, hash::Hash>)
    requires
        root_of(a) == root_of(b),
    ensures
        a == b || hash::collision_in(root_inputs(a).union(root_inputs(b))),
{
    let inputs = root_inputs(a).union(root_inputs(b));
    if !hash::collision_in(inputs) {
        assert forall|k: Key| lookup(a, k) == lookup(b, k) by {
            let siblings = path(a, k, 0);
            lemma_path_len(a, k, 0);
            assert(siblings.skip(0) =~= siblings);
            lemma_path_climbs(a, k, siblings, 0);
            lemma_climb_sound(b, k, lookup(a, k), siblings, 0, inputs);
        }
        assert forall|k: Key| #[trigger] a.contains_key(k) == b.contains_key(k) by {
            assert(lookup(a, k) == lookup(b, k));
        }
        assert forall|k: Key| a.contains_key(k) implies #[trigger] a[k] == b[k] by {
            assert(lookup(a, k) == lookup(b, k));
        }
        assert(a =~= b);
    }
}

/// The path to a key follows its bits from the highest of its first byte to the
/// lowest of its last.
pub proof fn law_bits_run_from_the_top(key: Key, i: int)
    requires
        0 <= i < 32,
    ensures
        bit_of(key, 8 * i) <==> key[i] >= 128,
        bit_of(key, 8 * i + 7) <==> key[i] % 2 == 1,
{
    let b = key[i];
    assert((8 * i) / 8 == i && (8 * i) % 8 == 0);
    assert((8 * i + 7) / 8 == i && (8 * i + 7) % 8 == 7);
    assert(((b >> 7u8) & 1u8 == 1u8) <==> b >= 128) by (bit_vector);
    assert(((b >> 0u8) & 1u8 == 1u8) <==> b % 2 == 1) by (bit_vector);
}

/// A claim is about what the map says of the key: its value, or that it has
/// none.
pub proof fn law_claims_are_lookups(m: Map<Key, hash::Hash>, key: Key)
    ensures
        m.contains_key(key) ==> lookup(m, key) == Some(m[key]),
        !m.contains_key(key) ==> lookup(m, key) is None,
        path(m, key, 0).len() == 256,
{
    law_proofs_verify(m, key);
}

} // verus!
