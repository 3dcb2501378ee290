//! Votes, quorum certificates and slashing evidence.
//!
//! Votes are Ed25519-signed and bound to a view, quorum certificates can be
//! verified by light clients, and a validator that signs two different votes
//! in one view incriminates itself.

use std::collections::BTreeMap;
use vstd::prelude::*;

use crate::bytes;
use crate::crypto;
use crate::crypto::{PublicKey, Signature};
use crate::hash;
use crate::text;

verus! {

/// What is hashed for the message that a vote signs.
pub open spec fn vote_input(
    block_hash: hash::Hash,
    height: u64,
    view: u64,
    approve: bool,
) -> Seq<u8> {
    hash::tagged_preimage(
        text::utf8("phi:vote"@),
        seq![
            block_hash@,
            bytes::le64(height),
            bytes::le64(view),
            seq![if approve { 1u8 } else { 0u8 }],
        ],
    )
}

/// What a vote's signature covers.
pub open spec fn vote_digest(
    block_hash: hash::Hash,
    height: u64,
    view: u64,
    approve: bool,
) -> hash::Hash {
    hash::tagged(
        text::utf8("phi:vote"@),
        seq![
            block_hash@,
            bytes::le64(height),
            bytes::le64(view),
            seq![if approve { 1u8 } else { 0u8 }],
        ],
    )
}

/// Canonical message a validator signs when voting on a proposal. The `view`
/// binds the vote to a single consensus round, which is what makes
/// equivocation (double-voting within one view) a well-defined, provable
/// fault: an honest validator legitimately votes for different blocks at the
/// same *height* across views, but never twice in the same view.
pub fn vote_message(block_hash: &hash::Hash, height: u64, view: u64, approve: bool) -> (h:
    hash::Hash)
    ensures
        h == vote_digest(*block_hash, height, view, approve),
{
    let height_bytes = bytes::u64_bytes(height);
    let view_bytes = bytes::u64_bytes(view);
    let flag: [u8; 1] = [if approve { 1u8 } else { 0u8 }];
    assert(flag@ =~= seq![if approve { 1u8 } else { 0u8 }]);
    let parts: [&[u8]; 4] = [
        block_hash.0.as_slice(),
        height_bytes.as_slice(),
        view_bytes.as_slice(),
        flag.as_slice(),
    ];
    assert(hash::part_views(parts@) =~= seq![
        block_hash@,
        bytes::le64(height),
        bytes::le64(view),
        seq![if approve { 1u8 } else { 0u8 }],
    ]);
    hash::Hash::of_tagged("phi:vote".as_bytes(), &parts)
}

/// A signed vote message stands for one vote, unless the hash inputs collide:
/// no vote can be replayed for another block, height or view, nor turned
/// from a rejection into an approval.
pub proof fn law_vote_message_binds(
    hash_a: hash::Hash,
    height_a: u64,
    view_a: u64,
    approve_a: bool,
    hash_b: hash::Hash,
    height_b: u64,
    view_b: u64,
    approve_b: bool,
)
    requires
        vote_digest(hash_a, height_a, view_a, approve_a) == vote_digest(
            hash_b,
            height_b,
            view_b,
            approve_b,
        ),
    ensures
        hash::collide(
            vote_input(hash_a, height_a, view_a, approve_a),
            vote_input(hash_b, height_b, view_b, approve_b),
        ) || (hash_a == hash_b && height_a == height_b && view_a == view_b && approve_a
            == approve_b),
{
    broadcast use bytes::lemma_le_bytes_len;

    let tag = text::utf8("phi:vote"@);
    reveal_strlit("phi:vote");
    text::lemma_utf8_len("phi:vote"@);
    let fa = seq![if approve_a { 1u8 } else { 0u8 }];
    let fb = seq![if approve_b { 1u8 } else { 0u8 }];
    let p = seq![hash_a@, bytes::le64(height_a), bytes::le64(view_a), fa];
    let q = seq![hash_b@, bytes::le64(height_b), bytes::le64(view_b), fb];
    hash::law_tagged_binds(tag, p, tag, q);
    if !hash::collide(
        vote_input(hash_a, height_a, view_a, approve_a),
        vote_input(hash_b, height_b, view_b, approve_b),
    ) {
        assert(p[0] == q[0] && p[1] == q[1] && p[2] == q[2] && p[3] == q[3]);
        hash::lemma_hash_ext(hash_a, hash_b);
        bytes::lemma_le64_injective(height_a, height_b);
        bytes::lemma_le64_injective(view_a, view_b);
        assert(fa[0] == fb[0]);
    }
}

/// A validator's signed vote on a proposed block.
#[derive(Clone, Copy, Debug, PartialEq, Eq)]
pub struct Vote {
    pub validator: u32,
    pub block_hash: hash::Hash,
    pub height: u64,
    /// Consensus view (round) this vote was cast in. Two distinct votes from
    /// one validator sharing a view are equivocation.
    pub view: u64,
    pub approve: bool,
    pub signature: Signature,
}

impl Vote {
    /// Whether the signature is the claimed validator's.
    pub open spec fn valid(self, keys: Seq<PublicKey>) -> bool {
        &&& self.validator < keys.len()
        &&& crypto::verifies(
            keys[self.validator as int],
            vote_digest(self.block_hash, self.height, self.view, self.approve)@,
            self.signature,
        )
    }

    /// Check the vote's signature against the claimed validator's key.
    pub fn verify(&self, validator_keys: &[PublicKey]) -> (ok: bool)
        ensures
            ok == self.valid(validator_keys@),
    {
        if self.validator as usize >= validator_keys.len() {
            return false;
        }
        let key: PublicKey = validator_keys[self.validator as usize];
        let message = vote_message(&self.block_hash, self.height, self.view, self.approve);
        key.verify(message.0.as_slice(), &self.signature)
    }
}

/// Proof that more than two thirds of the validators approved a block: the
/// committed chain is a sequence of (block, certificate) pairs any light
/// client can verify against the validator set.
#[derive(Debug, PartialEq, Eq)]
pub struct QuorumCertificate {
    pub block_hash: hash::Hash,
    pub height: u64,
    /// View the certified votes were cast in (every signature covers it).
    pub view: u64,
    pub signers: Vec<u32>,
    pub signatures: Vec<Signature>,
}

/// The contents of a [`QuorumCertificate`].
#[verifier::ext_equal]
pub struct QcView {
    pub block_hash: hash::Hash,
    pub height: u64,
    pub view: u64,
    pub signers: Seq<u32>,
    pub signatures: Seq<Signature>,
}

impl View for QuorumCertificate {
    type V = QcView;

    open spec fn view(&self) -> QcView {
        QcView {
            block_hash: self.block_hash,
            height: self.height,
            view: self.view,
            signers: self.signers@,
            signatures: self.signatures@,
        }
    }
}

impl Clone for QuorumCertificate {
    fn clone(&self) -> (qc: QuorumCertificate)
        ensures
            qc@ == self@,
    {
        let signers = self.signers.clone();
        let signatures = self.signatures.clone();
        assert(signers@ =~= self.signers@);
        assert(signatures@ =~= self.signatures@);
        QuorumCertificate {
            block_hash: self.block_hash,
            height: self.height,
            view: self.view,
            signers,
            signatures,
        }
    }
}

impl QcView {
    /// The approving vote that the `i`-th signature stands for.
    pub open spec fn vote(self, i: int) -> Vote {
        Vote {
            validator: self.signers[i],
            block_hash: self.block_hash,
            height: self.height,
            view: self.view,
            approve: true,
            signature: self.signatures[i],
        }
    }

    /// Whether the certificate holds enough signatures, all by different
    /// validators, and every one of them is a valid approval.
    pub open spec fn valid(self, keys: Seq<PublicKey>, quorum: nat) -> bool {
        &&& self.signers.len() == self.signatures.len()
        &&& self.signers.len() >= quorum
        &&& self.signers.no_duplicates()
        &&& forall|i: int| 0 <= i < self.signers.len() ==> (#[trigger] self.vote(i)).valid(keys)
    }
}

/// Whether no number occurs twice.
fn all_distinct(numbers: &Vec<u32>) -> (ok: bool)
    ensures
        ok == numbers@.no_duplicates(),
{
    let mut i: usize = 0;
    while i < numbers.len()
        invariant
            i <= numbers@.len(),
            forall|a: int, b: int| 0 <= a < b < i ==> numbers@[a] != numbers@[b],
        decreases numbers@.len() - i,
    {
        let mut j: usize = 0;
        while j < i
            invariant
                j <= i < numbers@.len(),
                forall|a: int| 0 <= a < j ==> numbers@[a] != numbers@[i as int],
            decreases i - j,
        {
            if numbers[j] == numbers[i] {
                assert(numbers@[j as int] == numbers@[i as int]);
                return false;
            }
            j += 1;
        }
        i += 1;
    }
    true
}

impl QuorumCertificate {
    /// Verify quorum size, signer distinctness, and every signature.
    pub fn verify(&self, validator_keys: &[PublicKey], quorum: usize) -> (ok: bool)
        ensures
            ok == self@.valid(validator_keys@, quorum as nat),
    {
        if self.signers.len() != self.signatures.len() || self.signers.len() < quorum {
            return false;
        }
        if !all_distinct(&self.signers) {
            return false;
        }
        let message = vote_message(&self.block_hash, self.height, self.view, true);
        let mut i: usize = 0;
        while i < self.signers.len()
            invariant
                i <= self.signers@.len(),
                self.signers@.len() == self.signatures@.len(),
                message == vote_digest(self.block_hash, self.height, self.view, true),
                forall|j: int|
                    0 <= j < i ==> (#[trigger] self@.vote(j)).valid(validator_keys@),
            decreases self.signers@.len() - i,
        {
            let signer: usize = self.signers[i] as usize;
            if signer >= validator_keys.len() {
                assert(!self@.vote(i as int).valid(validator_keys@));
                return false;
            }
            if !validator_keys[signer].verify(message.0.as_slice(), &self.signatures[i]) {
                assert(!self@.vote(i as int).valid(validator_keys@));
                return false;
            }
            i += 1;
        }
        true
    }
}

/// Irrefutable proof that one validator equivocated: two validly signed votes
/// from the same validator in the same view that disagree (different block or
/// different approve bit). A correct validator signs at most one vote per
/// view, so producing two is cryptographic self-incrimination.
#[derive(Clone, Copy, Debug, PartialEq, Eq)]
pub struct SlashingEvidence {
    pub validator: u32,
    pub view: u64,
    pub vote_a: Vote,
    pub vote_b: Vote,
}

/// Whether two votes disagree on the block or on its approval.
pub open spec fn disagree(a: Vote, b: Vote) -> bool {
    a.block_hash != b.block_hash || a.approve != b.approve
}

impl SlashingEvidence {
    /// Whether both votes are validly signed by the accused validator in the
    /// accused view, and genuinely conflict.
    pub open spec fn valid(self, keys: Seq<PublicKey>) -> bool {
        &&& self.vote_a.validator == self.validator
        &&& self.vote_b.validator == self.validator
        &&& self.vote_a.view == self.view
        &&& self.vote_b.view == self.view
        &&& disagree(self.vote_a, self.vote_b)
        &&& self.vote_a.valid(keys)
        &&& self.vote_b.valid(keys)
    }

    /// Both votes must be validly signed by the accused validator in the
    /// accused view, and must genuinely conflict. Anyone, including a light
    /// client, can check this against the validator set, with no trust in the
    /// reporter.
    pub fn verify(&self, validator_keys: &[PublicKey]) -> (ok: bool)
        ensures
            ok == self.valid(validator_keys@),
    {
        self.vote_a.validator == self.validator && self.vote_b.validator == self.validator
            && self.vote_a.view == self.view && self.vote_b.view == self.view
            && self.conflicting() && self.vote_a.verify(validator_keys) && self.vote_b.verify(
            validator_keys,
        )
    }

    /// The two votes disagree (different target block or different approval),
    /// rather than being a harmless rebroadcast of an identical vote.
    fn conflicting(&self) -> (b: bool)
        ensures
            b == disagree(self.vote_a, self.vote_b),
    {
        self.vote_a.block_hash != self.vote_b.block_hash || self.vote_a.approve
            != self.vote_b.approve
    }
}

/// Watches a stream of votes and surfaces [`SlashingEvidence`] the moment a
/// validator casts a second, conflicting vote in a view it has already voted
/// in: one for another block, or one that turns approval into rejection.
/// Deterministic and append-only: feeding the same votes in any order detects
/// the same equivocations (see [`law_detection_ignores_order`]).
#[derive(Debug)]
pub struct EquivocationDetector {
    /// The first vote of each validator in each view.
    seen: BTreeMap<u128, Vote>,
}

/// The number under which the first vote of a validator in a view is kept.
spec fn slot_of(validator: u32, view: u64) -> u128 {
    (validator * 0x1_0000_0000_0000_0000 + view) as u128
}

fn slot(validator: u32, view: u64) -> (s: u128)
    ensures
        s == slot_of(validator, view),
        s == validator * 0x1_0000_0000_0000_0000 + view,
{
    validator as u128 * 0x1_0000_0000_0000_0000 + view as u128
}

impl View for EquivocationDetector {
    type V = Map<(u32, u64), Vote>;

    closed spec fn view(&self) -> Map<(u32, u64), Vote> {
        Map::new(
            |k: (u32, u64)| self.seen@.contains_key(slot_of(k.0, k.1)),
            |k: (u32, u64)| self.seen@[slot_of(k.0, k.1)],
        )
    }
}

/// What a vote is filed under: the validator and the view.
pub open spec fn round_of(vote: Vote) -> (u32, u64) {
    (vote.validator, vote.view)
}

/// What observing a vote adds to the votes seen.
pub open spec fn after_seeing(seen: Map<(u32, u64), Vote>, vote: Vote) -> Map<(u32, u64), Vote> {
    if seen.contains_key(round_of(vote)) {
        seen
    } else {
        seen.insert(round_of(vote), vote)
    }
}

/// The evidence that a vote gives against its validator: it conflicts with the
/// vote seen earlier in the same view.
pub open spec fn evidence_in(
    seen: Map<(u32, u64), Vote>,
    vote: Vote,
) -> Option<SlashingEvidence> {
    if seen.contains_key(round_of(vote)) && disagree(seen[round_of(vote)], vote) {
        Some(
            SlashingEvidence {
                validator: vote.validator,
                view: vote.view,
                vote_a: seen[round_of(vote)],
                vote_b: vote,
            },
        )
    } else {
        None
    }
}

impl Default for EquivocationDetector {
    fn default() -> (d: EquivocationDetector)
        ensures
            d@ == Map::<(u32, u64), Vote>::empty(),
    {
        let d = EquivocationDetector { seen: BTreeMap::new() };
        assert(d@ =~= Map::<(u32, u64), Vote>::empty());
        d
    }
}

impl EquivocationDetector {
    pub fn new() -> (d: EquivocationDetector)
        ensures
            d@ == Map::<(u32, u64), Vote>::empty(),
    {
        EquivocationDetector::default()
    }

    /// Record `vote`. Returns evidence if it conflicts with an earlier vote
    /// from the same validator in the same view; otherwise `None` (and a
    /// rebroadcast of the same decision is ignored).
    pub fn observe(&mut self, vote: Vote) -> (evidence: Option<SlashingEvidence>)
        ensures
            final(self)@ == after_seeing(old(self)@, vote),
            evidence == evidence_in(old(self)@, vote),
    {
        let key: u128 = slot(vote.validator, vote.view);
        let prior: Option<Vote> = match self.seen.get(&key) {
            Some(v) => Some(*v),
            None => None,
        };
        match prior {
            Some(p) => {
                let evidence = SlashingEvidence {
                    validator: vote.validator,
                    view: vote.view,
                    vote_a: p,
                    vote_b: vote,
                };
                if evidence.conflicting() {
                    Some(evidence)
                } else {
                    // The same decision seen again: not a fault.
                    None
                }
            },
            None => {
                self.seen.insert(key, vote);
                proof {
                    assert forall|k: (u32, u64)| slot_of(k.0, k.1) == key implies k == (
                        vote.validator,
                        vote.view,
                    ) by {
                        lemma_slot(k.0, k.1);
                    }
                    assert(self@ =~= old(self)@.insert(round_of(vote), vote));
                }
                None
            },
        }
    }
}

proof fn lemma_slot(validator: u32, view: u64)
    ensures
        slot_of(validator, view) == validator * 0x1_0000_0000_0000_0000 + view,
{
}

/// The votes seen after a whole stream.
pub open spec fn seen_after(votes: Seq<Vote>) -> Map<(u32, u64), Vote>
    decreases votes.len(),
{
    if votes.len() == 0 {
        Map::empty()
    } else {
        after_seeing(seen_after(votes.drop_last()), votes.last())
    }
}

/// Whether a stream of votes surfaces evidence against a validator in a view.
pub open spec fn detects(votes: Seq<Vote>, round: (u32, u64)) -> bool
    decreases votes.len(),
{
    if votes.len() == 0 {
        false
    } else {
        detects(votes.drop_last(), round) || (round_of(votes.last()) == round && evidence_in(
            seen_after(votes.drop_last()),
            votes.last(),
        ) is Some)
    }
}

/// Whether a collection of votes holds two conflicting ones of a validator in
/// a view.
pub open spec fn equivocates(votes: Set<Vote>, round: (u32, u64)) -> bool {
    exists|a: Vote, b: Vote|
        #[trigger] votes.contains(a) && #[trigger] votes.contains(b) && disagree(a, b) && round_of(
            a,
        ) == round && round_of(b) == round
}

proof fn lemma_seen(votes: Seq<Vote>, round: (u32, u64))
    ensures
        seen_after(votes).contains_key(round) <==> exists|i: int|
            0 <= i < votes.len() && round_of(#[trigger] votes[i]) == round,
        seen_after(votes).contains_key(round) ==> votes.contains(seen_after(votes)[round])
            && round_of(seen_after(votes)[round]) == round,
    decreases votes.len(),
{
    if votes.len() > 0 {
        let rest = votes.drop_last();
        lemma_seen(rest, round);
        if exists|i: int| 0 <= i < rest.len() && round_of(#[trigger] rest[i]) == round {
            let i = choose|i: int| 0 <= i < rest.len() && round_of(#[trigger] rest[i]) == round;
            assert(round_of(votes[i]) == round);
            let k = rest.index_of(seen_after(rest)[round]);
            assert(votes[k] == rest[k]);
        }
        if round_of(votes.last()) == round {
            assert(round_of(votes[votes.len() - 1]) == round);
            assert(votes.contains(votes[votes.len() - 1]));
        }
        if exists|i: int| 0 <= i < votes.len() && round_of(#[trigger] votes[i]) == round {
            let i = choose|i: int| 0 <= i < votes.len() && round_of(#[trigger] votes[i]) == round;
            if i < rest.len() {
                assert(round_of(rest[i]) == round);
            }
        }
    }
}

/// A stream of votes surfaces evidence against a validator in a view exactly
/// if it holds two conflicting votes of that validator in that view.
pub proof fn law_detection_is_complete(votes: Seq<Vote>, round: (u32, u64))
    ensures
        detects(votes, round) == equivocates(votes.to_set(), round),
    decreases votes.len(),
{
    if votes.len() == 0 {
        assert(!equivocates(votes.to_set(), round));
    } else {
        let rest = votes.drop_last();
        let last = votes.last();
        law_detection_is_complete(rest, round);
        lemma_seen(rest, round);
        assert(votes.to_set() =~= rest.to_set().insert(last)) by {
            assert forall|v: Vote| votes.contains(v) <==> rest.contains(v) || v == last by {
                if rest.contains(v) {
                    assert(votes[rest.index_of(v)] == v);
                }
                assert(votes[votes.len() - 1] == last);
                if votes.contains(v) {
                    let k = votes.index_of(v);
                    if k < rest.len() {
                        assert(rest[k] == v);
                    }
                }
            }
        }
        let seen = seen_after(rest);
        if detects(votes, round) && !detects(rest, round) {
            let first = seen[round];
            assert(votes.to_set().contains(first) && votes.to_set().contains(last));
        }
        if equivocates(votes.to_set(), round) && !equivocates(rest.to_set(), round) {
            let (a, b) = choose|a: Vote, b: Vote|
                #[trigger] votes.to_set().contains(a) && #[trigger] votes.to_set().contains(b)
                    && disagree(a, b) && round_of(a) == round && round_of(b) == round;
            let other = if a == last {
                b
            } else {
                a
            };
            assert(rest.to_set().contains(other));
            assert(round_of(rest[rest.index_of(other)]) == round);
            assert(seen.contains_key(round));
            if !disagree(seen[round], last) {
                assert(rest.to_set().contains(seen[round]) && rest.to_set().contains(other));
            }
        }
        if equivocates(rest.to_set(), round) {
            let (a, b) = choose|a: Vote, b: Vote|
                #[trigger] rest.to_set().contains(a) && #[trigger] rest.to_set().contains(b)
                    && disagree(a, b) && round_of(a) == round && round_of(b) == round;
            assert(votes.to_set().contains(a) && votes.to_set().contains(b));
        }
    }
}

/// Feeding the same votes in any order, and any number of times, detects the
/// same equivocations.
pub proof fn law_detection_ignores_order(a: Seq<Vote>, b: Seq<Vote>, round: (u32, u64))
    requires
        a.to_set() == b.to_set(),
    ensures
        detects(a, round) == detects(b, round),
{
    law_detection_is_complete(a, round);
    law_detection_is_complete(b, round);
}

/// Whether every vote seen is filed under its own round and validly signed.
pub open spec fn all_genuine(seen: Map<(u32, u64), Vote>, keys: Seq<PublicKey>) -> bool {
    forall|round: (u32, u64)| #[trigger]
        seen.contains_key(round) ==> round_of(seen[round]) == round && seen[round].valid(keys)
}

/// Whatever evidence a detector surfaces verifies, as long as it is fed validly
/// signed votes: anyone can check it against the validator set.
pub proof fn law_evidence_verifies(
    keys: Seq<PublicKey>,
    seen: Map<(u32, u64), Vote>,
    vote: Vote,
)
    requires
        all_genuine(seen, keys),
        vote.valid(keys),
    ensures
        all_genuine(after_seeing(seen, vote), keys),
        evidence_in(seen, vote) matches Some(e) ==> e.valid(keys),
{
}

/// The quorum of `n` validators: strictly more than two thirds.
pub open spec fn quorum_of(n: nat) -> nat {
    n * 2 / 3 + 1
}

/// A quorum is more than two thirds of the validators, and never more than
/// all of them.
pub proof fn law_quorum_is_a_supermajority(n: nat)
    requires
        n > 0,
    ensures
        3 * quorum_of(n) > 2 * n,
        quorum_of(n) <= n,
{
}

proof fn lemma_signer_set(qc: QcView, keys: Seq<PublicKey>, quorum: nat)
    requires
        qc.valid(keys, quorum),
        keys.len() <= u32::MAX,
    ensures
        qc.signers.to_set().finite(),
        qc.signers.to_set().len() >= quorum,
        forall|s: u32| #[trigger] qc.signers.to_set().contains(s) ==> s < keys.len(),
{
    qc.signers.unique_seq_to_set();
    vstd::seq_lib::seq_to_set_is_finite(qc.signers);
    assert forall|s: u32| #[trigger] qc.signers.to_set().contains(s) implies s < keys.len() by {
        let i = qc.signers.index_of(s);
        assert(qc.vote(i).valid(keys));
    }
}

/// The indices below `n`.
spec fn indices(n: nat) -> Set<u32> {
    Set::new(|s: u32| s < n)
}

proof fn lemma_indices(n: nat)
    requires
        n <= u32::MAX,
    ensures
        indices(n).finite(),
        indices(n).len() == n,
    decreases n,
{
    if n == 0 {
        assert(indices(0) =~= Set::<u32>::empty());
    } else {
        let m = (n - 1) as nat;
        lemma_indices(m);
        assert(indices(n) =~= indices(m).insert(m as u32));
    }
}

/// Any two quorums of one validator set share a validator.
pub proof fn law_quorums_intersect(qc_a: QcView, qc_b: QcView, keys: Seq<PublicKey>)
    requires
        keys.len() <= u32::MAX,
        qc_a.valid(keys, quorum_of(keys.len())),
        qc_b.valid(keys, quorum_of(keys.len())),
    ensures
        exists|i: int, j: int|
            0 <= i < qc_a.signers.len() && 0 <= j < qc_b.signers.len()
                && #[trigger] qc_a.signers[i] == #[trigger] qc_b.signers[j],
{
    let n = keys.len();
    let a = qc_a.signers.to_set();
    let b = qc_b.signers.to_set();
    lemma_signer_set(qc_a, keys, quorum_of(n));
    lemma_signer_set(qc_b, keys, quorum_of(n));
    lemma_indices(n);
    assert(a.union(b).subset_of(indices(n)));
    vstd::set_lib::lemma_len_subset(a.union(b), indices(n));
    vstd::set_lib::lemma_set_intersect_union_lens(a, b);
    assert(a.intersect(b).len() > 0);
    let s = a.intersect(b).choose();
    assert(a.intersect(b).contains(s));
    let i = qc_a.signers.index_of(s);
    let j = qc_b.signers.index_of(s);
    assert(qc_a.signers[i] == qc_b.signers[j]);
}

/// Two quorums for different blocks in one view incriminate: some validator
/// signed both, and its two votes are valid slashing evidence.
pub proof fn law_conflicting_quorums_incriminate(
    qc_a: QcView,
    qc_b: QcView,
    keys: Seq<PublicKey>,
)
    requires
        keys.len() <= u32::MAX,
        qc_a.valid(keys, quorum_of(keys.len())),
        qc_b.valid(keys, quorum_of(keys.len())),
        qc_a.view == qc_b.view,
        qc_a.block_hash != qc_b.block_hash,
    ensures
        exists|e: SlashingEvidence| #[trigger]
            e.valid(keys) && e.view == qc_a.view && qc_a.signers.contains(e.validator)
                && qc_b.signers.contains(e.validator),
{
    law_quorums_intersect(qc_a, qc_b, keys);
    let (i, j) = choose|i: int, j: int|
        0 <= i < qc_a.signers.len() && 0 <= j < qc_b.signers.len()
            && #[trigger] qc_a.signers[i] == #[trigger] qc_b.signers[j];
    let e = SlashingEvidence {
        validator: qc_a.signers[i],
        view: qc_a.view,
        vote_a: qc_a.vote(i),
        vote_b: qc_b.vote(j),
    };
    assert(e.valid(keys));
}

/// A quorum is the least number of validators that is more than two thirds.
pub proof fn law_quorum_is_the_least_supermajority(n: nat, q: nat)
    ensures
        q >= quorum_of(n) <==> 3 * q > 2 * n,
{
}

/// A vote is valid exactly if the validator that it names signed what it says:
/// block, height, view and approval.
pub proof fn law_votes_count_for_their_signer(vote: Vote, keys: Seq<PublicKey>)
    ensures
        vote.valid(keys) <==> vote.validator < keys.len() && crypto::verifies(
            keys[vote.validator as int],
            vote_digest(vote.block_hash, vote.height, vote.view, vote.approve)@,
            vote.signature,
        ),
{
}

/// A certificate is valid exactly if it has at least a quorum of signers, no
/// one twice, each with a signature of its own under an approval of this block
/// at this height in this view.
pub proof fn law_certificates_are_made_of_approvals(qc: QcView, keys: Seq<PublicKey>, quorum: nat)
    ensures
        qc.valid(keys, quorum) <==> {
            &&& qc.signers.len() == qc.signatures.len()
            &&& qc.signers.len() >= quorum
            &&& forall|i: int, j: int|
                0 <= i < j < qc.signers.len() ==> #[trigger] qc.signers[i]
                    != #[trigger] qc.signers[j]
            &&& forall|i: int|
                0 <= i < qc.signers.len() ==> #[trigger] qc.signers[i] < keys.len()
                    && crypto::verifies(
                    keys[qc.signers[i] as int],
                    vote_digest(qc.block_hash, qc.height, qc.view, true)@,
                    qc.signatures[i],
                )
        },
{
    if qc.valid(keys, quorum) {
        assert forall|i: int| 0 <= i < qc.signers.len() implies #[trigger] qc.signers[i]
            < keys.len() && crypto::verifies(
            keys[qc.signers[i] as int],
            vote_digest(qc.block_hash, qc.height, qc.view, true)@,
            qc.signatures[i],
        ) by {
            assert(qc.vote(i).valid(keys));
        }
    }
    if {
        &&& qc.signers.len() == qc.signatures.len()
        &&& forall|i: int|
            0 <= i < qc.signers.len() ==> #[trigger] qc.signers[i] < keys.len() && crypto::verifies(
                keys[qc.signers[i] as int],
                vote_digest(qc.block_hash, qc.height, qc.view, true)@,
                qc.signatures[i],
            )
    } {
        assert forall|i: int| 0 <= i < qc.signers.len() implies (#[trigger] qc.vote(i)).valid(
            keys,
        ) by {
            assert(qc.signers[i] < keys.len());
        }
    }
}

/// Evidence is valid exactly if the accused signed two votes in the view, for
/// different blocks or with different approvals.
pub proof fn law_evidence_needs_two_signed_conflicting_votes(
    e: SlashingEvidence,
    keys: Seq<PublicKey>,
)
    ensures
        e.valid(keys) <==> {
            let a = e.vote_a;
            let b = e.vote_b;
            &&& a.validator == e.validator && b.validator == e.validator
            &&& a.view == e.view && b.view == e.view
            &&& a.block_hash != b.block_hash || a.approve != b.approve
            &&& e.validator < keys.len()
            &&& crypto::verifies(
                keys[e.validator as int],
                vote_digest(a.block_hash, a.height, e.view, a.approve)@,
                a.signature,
            )
            &&& crypto::verifies(
                keys[e.validator as int],
                vote_digest(b.block_hash, b.height, e.view, b.approve)@,
                b.signature,
            )
        },
{
}

/// After a first vote of a validator in a view, a second one is evidence if it
/// names another block or another approval, and then the evidence holds both. A
/// vote by someone else, in another view, or to the same effect is none, and the
/// first vote is the one that is kept.
pub proof fn law_second_votes_are_compared_with_the_first(
    seen: Map<(u32, u64), Vote>,
    a: Vote,
    b: Vote,
)
    requires
        !seen.contains_key((a.validator, a.view)),
        !seen.contains_key((b.validator, b.view)),
    ensures
        ({
            let after = after_seeing(seen, a);
            let found = evidence_in(after, b);
            let clash = a.validator == b.validator && a.view == b.view && (a.block_hash
                != b.block_hash || a.approve != b.approve);
            &&& evidence_in(seen, a) is None
            &&& after.contains_key((a.validator, a.view)) && after[(a.validator, a.view)] == a
            &&& found is Some <==> clash
            &&& found matches Some(e) ==> e.validator == a.validator && e.view == a.view
                && e.vote_a == a && e.vote_b == b
            &&& after_seeing(after, b)[(a.validator, a.view)] == a
        }),
{
}

/// Watching one vote says nothing of other validators or other views.
pub proof fn law_votes_are_kept_apart(
    seen: Map<(u32, u64), Vote>,
    vote: Vote,
    validator: u32,
    view: u64,
)
    requires
        validator != vote.validator || view != vote.view,
    ensures
        after_seeing(seen, vote).contains_key((validator, view)) == seen.contains_key(
            (validator, view),
        ),
        seen.contains_key((validator, view)) ==> after_seeing(seen, vote)[(validator, view)]
            == seen[(validator, view)],
{
}

} // verus!
