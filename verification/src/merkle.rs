//! Binary Merkle tree over 32-byte leaves, with inclusion proofs.
//!
//! Three hardening measures over a naive construction:
//! - Leaves and interior nodes are hashed under different domain tags, so an
//!   interior node can never be reinterpreted as a leaf.
//! - An odd node at the end of a level is *promoted* unchanged to the next
//!   level instead of being paired with a copy of itself. Duplicating the last
//!   leaf would make `[A, B, C]` and `[A, B, C, C]` commit to the same root;
//!   promotion keeps every distinct leaf list at a distinct root (see
//!   [`law_root_binds_leaves`]).
//! - The root covers the number of leaves, so a proof that claims another count
//!   (and with it another shape of the tree, and another index) never verifies
//!   (see [`law_proofs_are_sound`]).

use vstd::prelude::*;

use crate::bytes;
use crate::hash;
use crate::text;

verus! {

/// What is hashed for a leaf.
pub open spec fn leaf_input(leaf: hash::Hash) -> Seq<u8> {
    hash::tagged_preimage(text::utf8("nex:merkle:leaf"@), seq![leaf@])
}

/// What is hashed for an interior node.
pub open spec fn node_input(left: hash::Hash, right: hash::Hash) -> Seq<u8> {
    hash::tagged_preimage(text::utf8("nex:merkle:node"@), seq![left@, right@])
}

/// What is hashed for the empty leaf list.
pub open spec fn empty_input() -> Seq<u8> {
    hash::tagged_preimage(text::utf8("nex:merkle:empty"@), Seq::empty())
}

/// What is hashed for the root over `count` leaves that fold up to `top`.
pub open spec fn root_input(count: nat, top: hash::Hash) -> Seq<u8> {
    hash::tagged_preimage(text::utf8("nex:merkle:root"@), seq![bytes::le64(count as u64), top@])
}

/// The tagged hash of one leaf.
pub open spec fn leaf_digest(leaf: hash::Hash) -> hash::Hash {
    hash::tagged(text::utf8("nex:merkle:leaf"@), seq![leaf@])
}

/// The tagged hash of an interior node.
pub open spec fn node_digest(left: hash::Hash, right: hash::Hash) -> hash::Hash {
    hash::tagged(text::utf8("nex:merkle:node"@), seq![left@, right@])
}

/// The root of the empty leaf list.
pub open spec fn empty_digest() -> hash::Hash {
    hash::tagged(text::utf8("nex:merkle:empty"@), Seq::empty())
}

/// The root over `count` leaves that fold up to `top`.
pub open spec fn root_digest(count: nat, top: hash::Hash) -> hash::Hash {
    hash::tagged(text::utf8("nex:merkle:root"@), seq![bytes::le64(count as u64), top@])
}

/// The next level up: neighbours are paired, an odd last node is promoted.
pub open spec fn parents(level: Seq<hash::Hash>) -> Seq<hash::Hash> {
    Seq::new(
        ((level.len() + 1) / 2) as nat,
        |i: int|
            if 2 * i + 1 < level.len() {
                node_digest(level[2 * i], level[2 * i + 1])
            } else {
                level[2 * i]
            },
    )
}

/// What a non-empty level folds up to.
pub open spec fn fold(level: Seq<hash::Hash>) -> hash::Hash
    decreases level.len(),
{
    if level.len() <= 1 {
        level[0]
    } else {
        fold(parents(level))
    }
}

/// The lowest level of the tree.
pub open spec fn leaf_level(leaves: Seq<hash::Hash>) -> Seq<hash::Hash> {
    Seq::new(leaves.len(), |i: int| leaf_digest(leaves[i]))
}

/// The Merkle root of a leaf list.
pub open spec fn root_of(leaves: Seq<hash::Hash>) -> hash::Hash {
    if leaves.len() == 0 {
        empty_digest()
    } else {
        root_digest(leaves.len(), fold(leaf_level(leaves)))
    }
}

/// What is hashed for the `i`-th pair of a level.
pub open spec fn pair_input(level: Seq<hash::Hash>, i: int) -> Seq<u8> {
    node_input(level[2 * i], level[2 * i + 1])
}

/// All that is hashed while a level is folded up.
pub open spec fn fold_inputs(level: Seq<hash::Hash>) -> Set<Seq<u8>>
    decreases level.len(),
{
    if level.len() <= 1 {
        Set::empty()
    } else {
        Set::new(
            |x: Seq<u8>|
                exists|i: int|
                    0 <= i && 2 * i + 1 < level.len() && x == #[trigger] pair_input(level, i),
        ).union(fold_inputs(parents(level)))
    }
}

/// All that is hashed for the root of a leaf list.
pub open spec fn root_inputs(leaves: Seq<hash::Hash>) -> Set<Seq<u8>> {
    if leaves.len() == 0 {
        set![empty_input()]
    } else {
        Set::new(
            |x: Seq<u8>|
                exists|i: int| 0 <= i < leaves.len() && x == leaf_input(#[trigger] leaves[i]),
        ).union(fold_inputs(leaf_level(leaves))).insert(
            root_input(leaves.len(), fold(leaf_level(leaves))),
        )
    }
}

/// The other half of the pair that `index` belongs to.
pub open spec fn partner(index: int) -> int {
    if index % 2 == 0 {
        index + 1
    } else {
        index - 1
    }
}

/// The sibling hashes met on the way from `level[index]` to the top.
pub open spec fn path(level: Seq<hash::Hash>, index: int) -> Seq<hash::Hash>
    decreases level.len(),
{
    if level.len() <= 1 {
        Seq::empty()
    } else {
        let here = if partner(index) < level.len() {
            seq![level[partner(index)]]
        } else {
            Seq::empty()
        };
        here + path(parents(level), index / 2)
    }
}

/// How many siblings a proof for `index` in a level of `width` nodes holds.
pub open spec fn path_len(index: int, width: nat) -> nat
    decreases width,
{
    if width <= 1 {
        0
    } else {
        (if partner(index) < width {
            1nat
        } else {
            0nat
        }) + path_len(index / 2, ((width + 1) / 2) as nat)
    }
}

/// The root that `siblings` lead to from `current`, the node at `index` of a
/// level of `width` nodes; nothing if the number of siblings is off.
pub open spec fn replay(
    current: hash::Hash,
    index: int,
    width: nat,
    siblings: Seq<hash::Hash>,
) -> Option<hash::Hash>
    decreases width,
{
    if width <= 1 {
        if siblings.len() == 0 {
            Some(current)
        } else {
            None
        }
    } else {
        let up = ((width + 1) / 2) as nat;
        if partner(index) < width {
            if siblings.len() == 0 {
                None
            } else if index % 2 == 0 {
                replay(node_digest(current, siblings[0]), index / 2, up, siblings.drop_first())
            } else {
                replay(node_digest(siblings[0], current), index / 2, up, siblings.drop_first())
            }
        } else {
            replay(current, index / 2, up, siblings)
        }
    }
}

/// All that is hashed on the way from `current` up (see [`replay`]).
pub open spec fn replay_inputs(
    current: hash::Hash,
    index: int,
    width: nat,
    siblings: Seq<hash::Hash>,
) -> Set<Seq<u8>>
    decreases width,
{
    if width <= 1 {
        Set::empty()
    } else {
        let up = ((width + 1) / 2) as nat;
        if partner(index) < width {
            let (left, right) = if index % 2 == 0 {
                (current, siblings[0])
            } else {
                (siblings[0], current)
            };
            replay_inputs(
                node_digest(left, right),
                index / 2,
                up,
                siblings.drop_first(),
            ).insert(node_input(left, right))
        } else {
            replay_inputs(current, index / 2, up, siblings)
        }
    }
}

/// All that is hashed to check a proof for `leaf`.
pub open spec fn proof_inputs(
    leaf: hash::Hash,
    index: int,
    count: nat,
    siblings: Seq<hash::Hash>,
) -> Set<Seq<u8>> {
    let path = replay_inputs(leaf_digest(leaf), index, count, siblings).insert(leaf_input(leaf));
    match replay(leaf_digest(leaf), index, count, siblings) {
        Some(top) => path.insert(root_input(count, top)),
        None => path,
    }
}

/// Whether a proof places `leaf` at `index` of `count` leaves under `root`.
pub open spec fn proves(
    root: hash::Hash,
    leaf: hash::Hash,
    index: int,
    count: nat,
    siblings: Seq<hash::Hash>,
) -> bool {
    &&& 0 <= index < count
    &&& match replay(leaf_digest(leaf), index, count, siblings) {
        Some(top) => root == root_digest(count, top),
        None => false,
    }
}

fn leaf_hash(leaf: &hash::Hash) -> (h: hash::Hash)
    ensures
        h == leaf_digest(*leaf),
{
    let parts: [&[u8]; 1] = [leaf.0.as_slice()];
    assert(hash::part_views(parts@) =~= seq![leaf@]);
    hash::Hash::of_tagged("nex:merkle:leaf".as_bytes(), &parts)
}

fn node_hash(left: &hash::Hash, right: &hash::Hash) -> (h: hash::Hash)
    ensures
        h == node_digest(*left, *right),
{
    let parts: [&[u8]; 2] = [left.0.as_slice(), right.0.as_slice()];
    assert(hash::part_views(parts@) =~= seq![left@, right@]);
    hash::Hash::of_tagged("nex:merkle:node".as_bytes(), &parts)
}

fn root_hash(count: usize, top: &hash::Hash) -> (h: hash::Hash)
    ensures
        h == root_digest(count as nat, *top),
{
    let encoded = bytes::u64_bytes(count as u64);
    let parts: [&[u8]; 2] = [encoded.as_slice(), top.0.as_slice()];
    assert(hash::part_views(parts@) =~= seq![bytes::le64(count as u64), top@]);
    hash::Hash::of_tagged("nex:merkle:root".as_bytes(), &parts)
}

/// Root committing to an empty leaf list (distinct from any real root).
pub fn empty_root() -> (h: hash::Hash)
    ensures
        h == empty_digest(),
{
    let parts: [&[u8]; 0] = [];
    assert(hash::part_views(parts@) =~= Seq::<Seq<u8>>::empty());
    hash::Hash::of_tagged("nex:merkle:empty".as_bytes(), &parts)
}

/// The tagged leaves.
fn hash_leaves(leaves: &[hash::Hash]) -> (level: Vec<hash::Hash>)
    ensures
        level@ == leaf_level(leaves@),
{
    let mut level: Vec<hash::Hash> = Vec::new();
    let mut i: usize = 0;
    while i < leaves.len()
        invariant
            i <= leaves@.len(),
            level@.len() == i,
            forall|j: int| 0 <= j < i ==> level@[j] == leaf_digest(leaves@[j]),
        decreases leaves@.len() - i,
    {
        level.push(leaf_hash(&leaves[i]));
        i += 1;
    }
    assert(level@ =~= leaf_level(leaves@));
    level
}

/// The next level up.
fn pair_up(level: &Vec<hash::Hash>) -> (up: Vec<hash::Hash>)
    ensures
        up@ == parents(level@),
{
    let mut up: Vec<hash::Hash> = Vec::new();
    let mut i: usize = 0;
    while i < level.len()
        invariant
            i <= level@.len() + 1,
            i % 2 == 0 || i == level@.len(),
            up@.len() == (i + 1) / 2,
            forall|j: int| 0 <= j < up@.len() ==> up@[j] == parents(level@)[j],
        decreases level@.len() - i,
    {
        if level.len() - i > 1 {
            up.push(node_hash(&level[i], &level[i + 1]));
            i += 2;
        } else {
            up.push(level[i]);
            i += 1;
        }
    }
    assert(up@ =~= parents(level@));
    up
}

/// Merkle root over `leaves`.
pub fn root(leaves: &[hash::Hash]) -> (h: hash::Hash)
    ensures
        h == root_of(leaves@),
{
    if leaves.len() == 0 {
        return empty_root();
    }
    let mut level: Vec<hash::Hash> = hash_leaves(leaves);
    while level.len() > 1
        invariant
            level@.len() >= 1,
            fold(level@) == fold(leaf_level(leaves@)),
        decreases level@.len(),
    {
        level = pair_up(&level);
    }
    root_hash(leaves.len(), &level[0])
}

/// Inclusion proof for one leaf: the sibling hashes from leaf level to root.
/// Levels where the node is promoted (odd tail) contribute no sibling, so the
/// verifier needs the leaf count to replay the tree shape.
#[derive(Debug, PartialEq, Eq)]
pub struct MerkleProof {
    pub siblings: Vec<hash::Hash>,
}

impl View for MerkleProof {
    type V = Seq<hash::Hash>;

    open spec fn view(&self) -> Seq<hash::Hash> {
        self.siblings@
    }
}

impl Clone for MerkleProof {
    fn clone(&self) -> (p: MerkleProof)
        ensures
            p@ == self@,
    {
        let siblings = self.siblings.clone();
        assert(siblings@ =~= self.siblings@);
        MerkleProof { siblings }
    }
}

/// Build the inclusion proof for `leaves[index]`.
pub fn prove(leaves: &[hash::Hash], index: usize) -> (proof: Option<MerkleProof>)
    ensures
        index >= leaves@.len() ==> proof is None,
        index < leaves@.len() ==> proof is Some && proof->0@ == path(
            leaf_level(leaves@),
            index as int,
        ),
{
    if index >= leaves.len() {
        return None;
    }
    let mut siblings: Vec<hash::Hash> = Vec::new();
    let mut level: Vec<hash::Hash> = hash_leaves(leaves);
    let mut idx: usize = index;
    assert(siblings@ + path(level@, idx as int) =~= path(leaf_level(leaves@), index as int));
    while level.len() > 1
        invariant
            idx < level@.len(),
            siblings@ + path(level@, idx as int) == path(leaf_level(leaves@), index as int),
        decreases level@.len(),
    {
        let ghost before = siblings@;
        let sibling: usize = if idx % 2 == 0 {
            idx + 1
        } else {
            idx - 1
        };
        if sibling < level.len() {
            siblings.push(level[sibling]);
        }
        let up = pair_up(&level);
        assert(siblings@ + path(up@, idx as int / 2) =~= before + path(level@, idx as int));
        level = up;
        idx = idx / 2;
    }
    assert(siblings@ + path(level@, idx as int) =~= siblings@);
    Some(MerkleProof { siblings })
}

/// Verify that `leaf` sits at `index` in a tree of `leaf_count` leaves with
/// the given root.
pub fn verify(
    expected_root: &hash::Hash,
    leaf: &hash::Hash,
    index: usize,
    leaf_count: usize,
    proof: &MerkleProof,
) -> (ok: bool)
    ensures
        ok == proves(*expected_root, *leaf, index as int, leaf_count as nat, proof@),
{
    if leaf_count == 0 || index >= leaf_count {
        return false;
    }
    let mut current: hash::Hash = leaf_hash(leaf);
    let mut next: usize = 0;
    let mut idx: usize = index;
    let mut width: usize = leaf_count;
    let ghost goal = replay(current, index as int, leaf_count as nat, proof@);
    assert(proof@.skip(0) =~= proof@);
    while width > 1
        invariant
            idx < width,
            next <= proof@.len(),
            replay(current, idx as int, width as nat, proof@.skip(next as int)) == goal,
            index < leaf_count,
            goal == replay(leaf_digest(*leaf), index as int, leaf_count as nat, proof@),
        decreases width,
    {
        let sibling: usize = if idx % 2 == 0 {
            idx + 1
        } else {
            idx - 1
        };
        if sibling < width {
            if next >= proof.siblings.len() {
                return false;
            }
            proof {
                assert(proof@.skip(next as int).drop_first() =~= proof@.skip(next + 1));
            }
            current = if idx % 2 == 0 {
                node_hash(&current, &proof.siblings[next])
            } else {
                node_hash(&proof.siblings[next], &current)
            };
            next += 1;
        }
        idx = idx / 2;
        width = width / 2 + width % 2;
    }
    next == proof.siblings.len() && root_hash(leaf_count, &current) == *expected_root
}

/// The domains are apart, and every hash input of this module frames.
proof fn lemma_tags()
    ensures
        text::utf8("nex:merkle:leaf"@) != text::utf8("nex:merkle:node"@),
        text::utf8("nex:merkle:root"@) != text::utf8("nex:merkle:empty"@),
        text::utf8("nex:merkle:root"@).len() < 0x1_0000_0000,
        text::utf8("nex:merkle:leaf"@).len() < 0x1_0000_0000,
        text::utf8("nex:merkle:node"@).len() < 0x1_0000_0000,
        text::utf8("nex:merkle:empty"@).len() < 0x1_0000_0000,
{
    reveal_strlit("nex:merkle:leaf");
    reveal_strlit("nex:merkle:node");
    reveal_strlit("nex:merkle:empty");
    reveal_strlit("nex:merkle:root");
    text::lemma_utf8_len("nex:merkle:leaf"@);
    text::lemma_utf8_len("nex:merkle:node"@);
    text::lemma_utf8_len("nex:merkle:empty"@);
    text::lemma_utf8_len("nex:merkle:root"@);
    assert("nex:merkle:leaf"@[11] != "nex:merkle:node"@[11]);
    assert("nex:merkle:root"@.len() != "nex:merkle:empty"@.len());
    if text::utf8("nex:merkle:leaf"@) == text::utf8("nex:merkle:node"@) {
        text::lemma_utf8_injective("nex:merkle:leaf"@, "nex:merkle:node"@);
    }
    if text::utf8("nex:merkle:root"@) == text::utf8("nex:merkle:empty"@) {
        text::lemma_utf8_injective("nex:merkle:root"@, "nex:merkle:empty"@);
    }
}

proof fn lemma_leaf_binds(a: hash::Hash, b: hash::Hash)
    requires
        leaf_digest(a) == leaf_digest(b),
    ensures
        a == b || hash::collide(leaf_input(a), leaf_input(b)),
{
    lemma_tags();
    let tag = text::utf8("nex:merkle:leaf"@);
    hash::law_tagged_binds(tag, seq![a@], tag, seq![b@]);
    if !hash::collide(leaf_input(a), leaf_input(b)) {
        assert(seq![a@][0] == seq![b@][0]);
        hash::lemma_hash_ext(a, b);
    }
}

proof fn lemma_node_binds(a: hash::Hash, b: hash::Hash, c: hash::Hash, d: hash::Hash)
    requires
        node_digest(a, b) == node_digest(c, d),
    ensures
        (a == c && b == d) || hash::collide(node_input(a, b), node_input(c, d)),
{
    lemma_tags();
    let tag = text::utf8("nex:merkle:node"@);
    hash::law_tagged_binds(tag, seq![a@, b@], tag, seq![c@, d@]);
    if !hash::collide(node_input(a, b), node_input(c, d)) {
        assert(seq![a@, b@][0] == seq![c@, d@][0]);
        assert(seq![a@, b@][1] == seq![c@, d@][1]);
        hash::lemma_hash_ext(a, c);
        hash::lemma_hash_ext(b, d);
    }
}

proof fn lemma_root_binds(m: nat, a: hash::Hash, n: nat, b: hash::Hash)
    requires
        root_digest(m, a) == root_digest(n, b),
    ensures
        (m as u64 == n as u64 && a == b) || hash::collide(root_input(m, a), root_input(n, b)),
{
    broadcast use bytes::lemma_le_bytes_len;

    lemma_tags();
    let tag = text::utf8("nex:merkle:root"@);
    let p = seq![bytes::le64(m as u64), a@];
    let q = seq![bytes::le64(n as u64), b@];
    hash::law_tagged_binds(tag, p, tag, q);
    if !hash::collide(root_input(m, a), root_input(n, b)) {
        assert(p[0] == q[0] && p[1] == q[1]);
        bytes::lemma_le64_injective(m as u64, n as u64);
        hash::lemma_hash_ext(a, b);
    }
}

proof fn lemma_root_is_not_empty_root(count: nat, top: hash::Hash)
    requires
        root_digest(count, top) == empty_digest(),
    ensures
        hash::collide(root_input(count, top), empty_input()),
{
    broadcast use bytes::lemma_le_bytes_len;

    lemma_tags();
    hash::law_tagged_binds(
        text::utf8("nex:merkle:root"@),
        seq![bytes::le64(count as u64), top@],
        text::utf8("nex:merkle:empty"@),
        Seq::empty(),
    );
}

proof fn lemma_path_replays(level: Seq<hash::Hash>, index: int)
    requires
        0 <= index < level.len(),
    ensures
        replay(level[index], index, level.len(), path(level, index)) == Some(fold(level)),
    decreases level.len(),
{
    if level.len() > 1 {
        lemma_path_replays(parents(level), index / 2);
        let rest = path(parents(level), index / 2);
        if partner(index) < level.len() {
            assert(path(level, index).drop_first() =~= rest);
        } else {
            assert(path(level, index) =~= rest);
        }
    }
}

/// The proof that [`prove`] builds for a leaf verifies against the root.
pub proof fn law_proofs_verify(leaves: Seq<hash::Hash>, index: int)
    requires
        0 <= index < leaves.len(),
    ensures
        proves(
            root_of(leaves),
            leaves[index],
            index,
            leaves.len(),
            path(leaf_level(leaves), index),
        ),
{
    lemma_path_replays(leaf_level(leaves), index);
}

proof fn lemma_replay_len(
    current: hash::Hash,
    index: int,
    width: nat,
    siblings: Seq<hash::Hash>,
)
    requires
        replay(current, index, width, siblings) is Some,
    ensures
        siblings.len() == path_len(index, width),
    decreases width,
{
    if width > 1 {
        let up = ((width + 1) / 2) as nat;
        if partner(index) < width {
            if index % 2 == 0 {
                lemma_replay_len(
                    node_digest(current, siblings[0]),
                    index / 2,
                    up,
                    siblings.drop_first(),
                );
            } else {
                lemma_replay_len(
                    node_digest(siblings[0], current),
                    index / 2,
                    up,
                    siblings.drop_first(),
                );
            }
        } else {
            lemma_replay_len(current, index / 2, up, siblings);
        }
    }
}

/// A proof with a sibling too many or too few verifies nothing.
pub proof fn law_proof_length_is_fixed(
    root: hash::Hash,
    leaf: hash::Hash,
    index: int,
    count: nat,
    siblings: Seq<hash::Hash>,
)
    requires
        siblings.len() != path_len(index, count),
    ensures
        !proves(root, leaf, index, count, siblings),
{
    if proves(root, leaf, index, count, siblings) {
        lemma_replay_len(leaf_digest(leaf), index, count, siblings);
    }
}

proof fn lemma_replay_sound(
    level: Seq<hash::Hash>,
    current: hash::Hash,
    index: int,
    siblings: Seq<hash::Hash>,
    inputs: Set<Seq<u8>>,
)
    requires
        0 <= index < level.len(),
        replay(current, index, level.len(), siblings) == Some(fold(level)),
        fold_inputs(level).subset_of(inputs),
        replay_inputs(current, index, level.len(), siblings).subset_of(inputs),
    ensures
        (current == level[index] && siblings == path(level, index)) || hash::collision_in(inputs),
    decreases level.len(),
{
    if level.len() > 1 {
        let up = parents(level);
        let half = index / 2;
        assert(fold_inputs(up).subset_of(fold_inputs(level)));
        if partner(index) < level.len() {
            let rest = siblings.drop_first();
            let (left, right) = if index % 2 == 0 {
                (current, siblings[0])
            } else {
                (siblings[0], current)
            };
            let next = node_digest(left, right);
            let here = replay_inputs(current, index, level.len(), siblings);
            let above = replay_inputs(next, half, up.len(), rest);
            assert(here == above.insert(node_input(left, right)));
            assert(above.subset_of(here));
            lemma_replay_sound(up, next, half, rest, inputs);
            if !hash::collision_in(inputs) {
                assert(fold_inputs(level).contains(pair_input(level, half)));
                assert(here.contains(node_input(left, right)));
                lemma_node_binds(left, right, level[2 * half], level[2 * half + 1]);
                assert(siblings =~= seq![siblings[0]] + rest);
                assert(siblings =~= path(level, index));
            }
        } else {
            lemma_replay_sound(up, current, half, siblings, inputs);
            assert(path(level, index) =~= path(up, half));
        }
    } else {
        assert(siblings =~= path(level, index));
    }
}

/// Against the root of a leaf list a proof shows the place of a leaf in the
/// list and nothing else: whatever count and index it claims, the count is the
/// number of leaves, the leaf is the one at the index, and the siblings are
/// those on its path, unless two of the hash inputs of root and proof collide.
pub proof fn law_proofs_are_sound(
    leaves: Seq<hash::Hash>,
    leaf: hash::Hash,
    index: int,
    count: nat,
    siblings: Seq<hash::Hash>,
)
    requires
        leaves.len() <= u64::MAX,
        count <= u64::MAX,
        proves(root_of(leaves), leaf, index, count, siblings),
    ensures
        (count == leaves.len() && leaf == leaves[index] && siblings == path(
            leaf_level(leaves),
            index,
        )) || hash::collision_in(
            root_inputs(leaves).union(proof_inputs(leaf, index, count, siblings)),
        ),
{
    let inputs = root_inputs(leaves).union(proof_inputs(leaf, index, count, siblings));
    let top = replay(leaf_digest(leaf), index, count, siblings)->0;
    assert(inputs.contains(root_input(count, top)));
    if leaves.len() == 0 {
        assert(inputs.contains(empty_input()));
        lemma_root_is_not_empty_root(count, top);
    } else {
        let peak = fold(leaf_level(leaves));
        assert(inputs.contains(root_input(leaves.len(), peak)));
        lemma_root_binds(leaves.len(), peak, count, top);
        if !hash::collision_in(inputs) {
            lemma_replay_sound(leaf_level(leaves), leaf_digest(leaf), index, siblings, inputs);
            assert(inputs.contains(leaf_input(leaf)));
            assert(root_inputs(leaves).contains(leaf_input(leaves[index])));
            lemma_leaf_binds(leaf, leaves[index]);
        }
    }
}

/// The shape of a tree: which leaf is paired with which.
enum Tree {
    Leaf(hash::Hash),
    Node(Box<Tree>, Box<Tree>),
}

/// The hash of a tree.
spec fn digest(t: Tree) -> hash::Hash
    decreases t,
{
    match t {
        Tree::Leaf(h) => leaf_digest(h),
        Tree::Node(l, r) => node_digest(digest(*l), digest(*r)),
    }
}

/// All that is hashed for a tree.
spec fn tree_inputs(t: Tree) -> Set<Seq<u8>>
    decreases t,
{
    match t {
        Tree::Leaf(h) => set![leaf_input(h)],
        Tree::Node(l, r) => tree_inputs(*l).union(tree_inputs(*r)).insert(
            node_input(digest(*l), digest(*r)),
        ),
    }
}

/// The leaves of a tree, from left to right.
spec fn flatten(t: Tree) -> Seq<hash::Hash>
    decreases t,
{
    match t {
        Tree::Leaf(h) => seq![h],
        Tree::Node(l, r) => flatten(*l) + flatten(*r),
    }
}

spec fn flatten_all(level: Seq<Tree>) -> Seq<hash::Hash>
    decreases level.len(),
{
    if level.len() == 0 {
        Seq::empty()
    } else {
        flatten(level[0]) + flatten_all(level.drop_first())
    }
}

spec fn digests(level: Seq<Tree>) -> Seq<hash::Hash> {
    Seq::new(level.len(), |i: int| digest(level[i]))
}

spec fn tree_parents(level: Seq<Tree>) -> Seq<Tree> {
    Seq::new(
        ((level.len() + 1) / 2) as nat,
        |i: int|
            if 2 * i + 1 < level.len() {
                Tree::Node(Box::new(level[2 * i]), Box::new(level[2 * i + 1]))
            } else {
                level[2 * i]
            },
    )
}

spec fn tree_fold(level: Seq<Tree>) -> Tree
    decreases level.len(),
{
    if level.len() <= 1 {
        level[0]
    } else {
        tree_fold(tree_parents(level))
    }
}

proof fn lemma_parents_keep_leaves(level: Seq<Tree>)
    ensures
        flatten_all(tree_parents(level)) == flatten_all(level),
    decreases level.len(),
{
    let up = tree_parents(level);
    if level.len() == 0 {
    } else if level.len() == 1 {
        assert(up =~= level);
    } else {
        let rest = level.skip(2);
        lemma_parents_keep_leaves(rest);
        assert(up.drop_first() =~= tree_parents(rest));
        assert(level.drop_first().drop_first() =~= rest);
        assert(level.drop_first()[0] == level[1]);
        assert(flatten(up[0]) == flatten(level[0]) + flatten(level[1]));
        assert(flatten_all(level.drop_first()) == flatten(level[1]) + flatten_all(rest));
        assert(flatten_all(up) =~= flatten_all(level));
    }
}

proof fn lemma_tree_fold(level: Seq<Tree>)
    requires
        level.len() >= 1,
    ensures
        digest(tree_fold(level)) == fold(digests(level)),
        flatten(tree_fold(level)) == flatten_all(level),
    decreases level.len(),
{
    if level.len() == 1 {
        assert(level.drop_first() =~= Seq::<Tree>::empty());
        assert(flatten_all(level.drop_first()) =~= Seq::<hash::Hash>::empty());
        assert(flatten_all(level) =~= flatten(level[0]));
    } else {
        let up = tree_parents(level);
        lemma_tree_fold(up);
        lemma_parents_keep_leaves(level);
        assert(digests(up) =~= parents(digests(level))) by {
            assert forall|i: int| 0 <= i < up.len() implies digest(#[trigger] up[i]) == parents(
                digests(level),
            )[i] by {}
        }
    }
}

/// What is hashed for the tree over a level is hashed for the trees of the
/// level, or while it is folded up.
proof fn lemma_tree_inputs(level: Seq<Tree>, inputs: Set<Seq<u8>>)
    requires
        level.len() >= 1,
        forall|i: int|
            0 <= i < level.len() ==> tree_inputs(#[trigger] level[i]).subset_of(inputs),
        fold_inputs(digests(level)).subset_of(inputs),
    ensures
        tree_inputs(tree_fold(level)).subset_of(inputs),
    decreases level.len(),
{
    if level.len() > 1 {
        let up = tree_parents(level);
        assert(digests(up) =~= parents(digests(level))) by {
            assert forall|i: int| 0 <= i < up.len() implies digest(#[trigger] up[i]) == parents(
                digests(level),
            )[i] by {}
        }
        assert(fold_inputs(digests(up)).subset_of(fold_inputs(digests(level))));
        assert forall|i: int| 0 <= i < up.len() implies tree_inputs(#[trigger] up[i]).subset_of(
            inputs,
        ) by {
            assert(tree_inputs(level[2 * i]).subset_of(inputs));
            if 2 * i + 1 < level.len() {
                assert(tree_inputs(level[2 * i + 1]).subset_of(inputs));
                assert(fold_inputs(digests(level)).contains(pair_input(digests(level), i)));
            }
        }
        lemma_tree_inputs(up, inputs);
    }
}

proof fn lemma_root_tree_inputs(leaves: Seq<hash::Hash>)
    requires
        leaves.len() > 0,
    ensures
        tree_inputs(tree_fold(leaf_trees(leaves))).subset_of(root_inputs(leaves)),
{
    lemma_leaf_trees(leaves);
    assert forall|i: int| 0 <= i < leaves.len() implies tree_inputs(
        #[trigger] leaf_trees(leaves)[i],
    ).subset_of(root_inputs(leaves)) by {
        assert(root_inputs(leaves).contains(leaf_input(leaves[i])));
    }
    lemma_tree_inputs(leaf_trees(leaves), root_inputs(leaves));
}

proof fn lemma_digest_binds(s: Tree, t: Tree, inputs: Set<Seq<u8>>)
    requires
        digest(s) == digest(t),
        tree_inputs(s).subset_of(inputs),
        tree_inputs(t).subset_of(inputs),
    ensures
        s == t || hash::collision_in(inputs),
    decreases s,
{
    lemma_tags();
    let leaf_tag = text::utf8("nex:merkle:leaf"@);
    let node_tag = text::utf8("nex:merkle:node"@);
    match (s, t) {
        (Tree::Leaf(a), Tree::Leaf(b)) => {
            assert(inputs.contains(leaf_input(a)) && inputs.contains(leaf_input(b)));
            lemma_leaf_binds(a, b);
        },
        (Tree::Node(a, b), Tree::Node(c, d)) => {
            assert(inputs.contains(node_input(digest(*a), digest(*b))));
            assert(inputs.contains(node_input(digest(*c), digest(*d))));
            lemma_node_binds(digest(*a), digest(*b), digest(*c), digest(*d));
            if !hash::collision_in(inputs) {
                assert(tree_inputs(*a).subset_of(tree_inputs(s)));
                assert(tree_inputs(*b).subset_of(tree_inputs(s)));
                assert(tree_inputs(*c).subset_of(tree_inputs(t)));
                assert(tree_inputs(*d).subset_of(tree_inputs(t)));
                lemma_digest_binds(*a, *c, inputs);
                lemma_digest_binds(*b, *d, inputs);
            }
        },
        (Tree::Leaf(a), Tree::Node(c, d)) => {
            assert(inputs.contains(leaf_input(a)));
            assert(inputs.contains(node_input(digest(*c), digest(*d))));
            hash::law_tagged_binds(leaf_tag, seq![a@], node_tag, seq![digest(*c)@, digest(*d)@]);
        },
        (Tree::Node(a, b), Tree::Leaf(c)) => {
            assert(inputs.contains(node_input(digest(*a), digest(*b))));
            assert(inputs.contains(leaf_input(c)));
            hash::law_tagged_binds(node_tag, seq![digest(*a)@, digest(*b)@], leaf_tag, seq![c@]);
        },
    }
}

/// The leaves as the lowest level of a tree.
spec fn leaf_trees(leaves: Seq<hash::Hash>) -> Seq<Tree> {
    Seq::new(leaves.len(), |i: int| Tree::Leaf(leaves[i]))
}

proof fn lemma_leaf_trees(leaves: Seq<hash::Hash>)
    ensures
        digests(leaf_trees(leaves)) == leaf_level(leaves),
        flatten_all(leaf_trees(leaves)) == leaves,
    decreases leaves.len(),
{
    assert(digests(leaf_trees(leaves)) =~= leaf_level(leaves));
    if leaves.len() > 0 {
        lemma_leaf_trees(leaves.drop_first());
        assert(leaf_trees(leaves).drop_first() =~= leaf_trees(leaves.drop_first()));
        assert(flatten_all(leaf_trees(leaves)) =~= leaves);
    }
}

/// Distinct leaf lists have distinct roots, unless two of their hash inputs
/// collide: no leaf can be dropped, added, moved or repeated, and no interior
/// node passed off as a leaf, without changing the root.
pub proof fn law_root_binds_leaves(a: Seq<hash::Hash>, b: Seq<hash::Hash>)
    requires
        root_of(a) == root_of(b),
    ensures
        a == b || hash::collision_in(root_inputs(a).union(root_inputs(b))),
{
    let inputs = root_inputs(a).union(root_inputs(b));
    let (top_a, top_b) = (fold(leaf_level(a)), fold(leaf_level(b)));
    if a.len() == 0 || b.len() == 0 {
        assert(a.len() == 0 ==> root_inputs(a).contains(empty_input()));
        assert(b.len() == 0 ==> root_inputs(b).contains(empty_input()));
        if a.len() > 0 {
            assert(root_inputs(a).contains(root_input(a.len(), top_a)));
            lemma_root_is_not_empty_root(a.len(), top_a);
        } else if b.len() > 0 {
            assert(root_inputs(b).contains(root_input(b.len(), top_b)));
            lemma_root_is_not_empty_root(b.len(), top_b);
        } else {
            assert(a =~= b);
        }
    } else {
        assert(root_inputs(a).contains(root_input(a.len(), top_a)));
        assert(root_inputs(b).contains(root_input(b.len(), top_b)));
        lemma_root_binds(a.len(), top_a, b.len(), top_b);
        if !hash::collision_in(inputs) {
            lemma_leaf_trees(a);
            lemma_leaf_trees(b);
            lemma_tree_fold(leaf_trees(a));
            lemma_tree_fold(leaf_trees(b));
            lemma_root_tree_inputs(a);
            lemma_root_tree_inputs(b);
            lemma_digest_binds(tree_fold(leaf_trees(a)), tree_fold(leaf_trees(b)), inputs);
        }
    }
}

proof fn lemma_flatten_split(level: Seq<Tree>, k: int)
    requires
        0 <= k <= level.len(),
    ensures
        flatten_all(level) == flatten_all(level.take(k)) + flatten_all(level.skip(k)),
    decreases k,
{
    if k == 0 {
        assert(level.take(0) =~= Seq::<Tree>::empty());
        assert(level.skip(0) =~= level);
        assert(flatten_all(level) =~= flatten_all(level.take(0)) + flatten_all(level.skip(0)));
    } else {
        let rest = level.drop_first();
        lemma_flatten_split(rest, k - 1);
        assert(level.take(k).drop_first() =~= rest.take(k - 1));
        assert(level.take(k)[0] == level[0]);
        assert(level.skip(k) =~= rest.skip(k - 1));
        assert(flatten_all(level) =~= flatten_all(level.take(k)) + flatten_all(level.skip(k)));
    }
}

proof fn lemma_flatten_some(t: Tree)
    ensures
        flatten(t).len() > 0,
    decreases t,
{
    if let Tree::Node(l, r) = t {
        lemma_flatten_some(*l);
    }
}

/// Among trees that share no leaf, no two are the same.
proof fn lemma_trees_differ(level: Seq<Tree>, i: int, j: int)
    requires
        0 <= i < j < level.len(),
        flatten_all(level).no_duplicates(),
    ensures
        level[i] != level[j],
{
    if level[i] == level[j] {
        let all = flatten_all(level);
        let (a, b) = (flatten_all(level.take(i)).len() as int, flatten_all(level.take(j)).len() as int);
        lemma_flatten_some(level[i]);
        lemma_flatten_split(level, i);
        lemma_flatten_split(level, j);
        assert(level.skip(i)[0] == level[i] && level.skip(j)[0] == level[j]);
        assert(all[a] == flatten(level[i])[0]);
        assert(all[b] == flatten(level[j])[0]);
        lemma_flatten_split(level.take(j), i);
        assert(level.take(j).take(i) =~= level.take(i));
        assert(level.take(j).skip(i)[0] == level[i]);
        assert(a < b);
    }
}

/// The paths of two places part: at some distance from the top, which is
/// returned, their siblings differ.
proof fn lemma_paths_part(level: Seq<Tree>, i: int, j: int, inputs: Set<Seq<u8>>) -> (k: int)
    requires
        0 <= i < level.len(),
        0 <= j < level.len(),
        i != j,
        flatten_all(level).no_duplicates(),
        forall|l: int|
            0 <= l < level.len() ==> tree_inputs(#[trigger] level[l]).subset_of(inputs),
        fold_inputs(digests(level)).subset_of(inputs),
    ensures
        hash::collision_in(inputs) || ({
            let p = path(digests(level), i);
            let q = path(digests(level), j);
            0 <= k < p.len() && k < q.len() && p[p.len() - 1 - k] != q[q.len() - 1 - k]
        }),
    decreases level.len(),
{
    let ds = digests(level);
    let up = tree_parents(level);
    assert(digests(up) =~= parents(ds)) by {
        assert forall|l: int| 0 <= l < up.len() implies digest(#[trigger] up[l]) == parents(ds)[l] by {}
    }
    let (rest_i, rest_j) = (path(parents(ds), i / 2), path(parents(ds), j / 2));
    let (p, q) = (path(ds, i), path(ds, j));
    assert(p.len() >= rest_i.len() && q.len() >= rest_j.len());
    if i / 2 == j / 2 {
        assert(partner(i) == j && partner(j) == i);
        if i < j {
            lemma_trees_differ(level, i, j);
        } else {
            lemma_trees_differ(level, j, i);
        }
        assert(p[0] == digest(level[j]) && q[0] == digest(level[i]));
        if digest(level[i]) == digest(level[j]) {
            lemma_digest_binds(level[i], level[j], inputs);
        }
        rest_i.len() as int
    } else {
        lemma_parents_keep_leaves(level);
        assert(fold_inputs(parents(ds)).subset_of(fold_inputs(ds)));
        assert forall|l: int| 0 <= l < up.len() implies tree_inputs(#[trigger] up[l]).subset_of(
            inputs,
        ) by {
            assert(tree_inputs(level[2 * l]).subset_of(inputs));
            if 2 * l + 1 < level.len() {
                assert(tree_inputs(level[2 * l + 1]).subset_of(inputs));
                assert(fold_inputs(ds).contains(pair_input(ds, l)));
            }
        }
        let k = lemma_paths_part(up, i / 2, j / 2, inputs);
        if !hash::collision_in(inputs) {
            assert(p[p.len() - 1 - k] == rest_i[rest_i.len() - 1 - k]);
            assert(q[q.len() - 1 - k] == rest_j[rest_j.len() - 1 - k]);
        }
        k
    }
}

/// The proof built for a leaf fits that leaf and no other claim: with distinct
/// leaves it verifies at no other index, under no other count and for no other
/// leaf, unless two of the hash inputs of root and proof collide.
pub proof fn law_proofs_fit_one_leaf(
    leaves: Seq<hash::Hash>,
    i: int,
    leaf: hash::Hash,
    index: int,
    count: nat,
)
    requires
        0 <= i < leaves.len() <= u64::MAX,
        count <= u64::MAX,
        leaves.no_duplicates(),
    ensures
        ({
            let siblings = path(leaf_level(leaves), i);
            let same = index == i && count == leaves.len() && leaf == leaves[i];
            &&& same ==> proves(root_of(leaves), leaf, index, count, siblings)
            &&& proves(root_of(leaves), leaf, index, count, siblings) ==> same
                || hash::collision_in(
                root_inputs(leaves).union(proof_inputs(leaf, index, count, siblings)),
            )
        }),
{
    let siblings = path(leaf_level(leaves), i);
    let inputs = root_inputs(leaves).union(proof_inputs(leaf, index, count, siblings));
    law_proofs_verify(leaves, i);
    if proves(root_of(leaves), leaf, index, count, siblings) {
        law_proofs_are_sound(leaves, leaf, index, count, siblings);
        if !hash::collision_in(inputs) && index != i {
            let trees = leaf_trees(leaves);
            lemma_leaf_trees(leaves);
            assert forall|l: int| 0 <= l < trees.len() implies tree_inputs(
                #[trigger] trees[l],
            ).subset_of(inputs) by {
                assert(root_inputs(leaves).contains(leaf_input(leaves[l])));
            }
            let k = lemma_paths_part(trees, i, index, inputs);
        }
    }
}

/// How a tree is built: neighbours are hashed together in their order, and one
/// that has no neighbour moves up as it is.
pub proof fn law_neighbours_are_hashed_in_order(level: Seq<hash::Hash>, i: int)
    requires
        level.len() > 1,
        0 <= i < (level.len() + 1) / 2,
    ensures
        parents(level).len() == (level.len() + 1) / 2,
        2 * i + 1 < level.len() ==> parents(level)[i] == node_digest(
            level[2 * i],
            level[2 * i + 1],
        ),
        2 * i + 1 >= level.len() ==> parents(level)[i] == level.last(),
        fold(level) == fold(parents(level)),
{
}

/// The root of one leaf is made of that leaf, and that of none is the empty root.
pub proof fn law_small_trees(leaf: hash::Hash)
    ensures
        root_of(Seq::empty()) == empty_digest(),
        root_of(seq![leaf]) == root_digest(1, leaf_digest(leaf)),
{
    assert(leaf_level(seq![leaf]) =~= seq![leaf_digest(leaf)]);
}

} // verus!
