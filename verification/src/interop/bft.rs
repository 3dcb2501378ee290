//! BFT light client for chains with a validator set.
//!
//! Headers are accepted when a quorum of the foreign chain's validators have
//! signed the header hash, with the same strict Ed25519 verification as
//! everywhere else. The genesis validator set is the trust root; validator-set
//! rotation, unbonding windows and stake weighting are out of scope.

use vstd::prelude::*;

use crate::crypto;
use crate::crypto::PublicKey;
use crate::hash;
use crate::interop::light_client;
use crate::interop::light_client::{
    ClientBox, ConsensusProof, EventProof, ForeignHeader, HeaderChain, InteropError, IntoClientBox,
    LightClient, SignerVote,
};

verus! {

/// Who signed, vote by vote.
pub open spec fn signers(votes: Seq<SignerVote>) -> Seq<u32> {
    Seq::new(votes.len(), |i: int| votes[i].signer)
}

/// Whether no earlier vote claims the same signer.
pub open spec fn first_of_signer(votes: Seq<SignerVote>, i: int) -> bool {
    forall|j: int| 0 <= j < i ==> (#[trigger] votes[j]).signer != votes[i].signer
}

/// Whether a vote holds the signature of the validator that it claims.
pub open spec fn genuine(
    vote: SignerVote,
    validators: Seq<PublicKey>,
    header: ForeignHeader,
) -> bool {
    &&& vote.signer < validators.len()
    &&& crypto::verifies(validators[vote.signer as int], header.digest()@, vote.signature)
}

/// Whether the first vote of every claimed signer is genuine. Further votes of
/// a signer count for nothing and are not looked at.
pub open spec fn all_genuine(
    votes: Seq<SignerVote>,
    validators: Seq<PublicKey>,
    header: ForeignHeader,
) -> bool {
    forall|i: int|
        0 <= i < votes.len() && first_of_signer(votes, i) ==> genuine(
            #[trigger] votes[i],
            validators,
            header,
        )
}

/// How many different signers the votes claim.
pub open spec fn distinct_signers(votes: Seq<SignerVote>) -> nat {
    signers(votes).to_set().len()
}

/// The verdict of a validator set on a header: it comes with signatures, it
/// extends the tip, the signatures are genuine, and enough different
/// validators signed.
pub open spec fn bft_verdict(
    validators: Seq<PublicKey>,
    quorum: usize,
    chain: light_client::ChainView,
    header: ForeignHeader,
    evidence: light_client::ProofView,
) -> Result<(), InteropError> {
    match evidence {
        light_client::ProofView::Pow => Err(InteropError::WrongConsensusProof),
        light_client::ProofView::Bft { votes } => {
            if chain.link(header) is Err {
                chain.link(header)
            } else if !all_genuine(votes, validators, header) {
                Err(InteropError::BadSignature)
            } else if distinct_signers(votes) < quorum {
                Err(
                    InteropError::QuorumNotMet {
                        have: distinct_signers(votes) as usize,
                        need: quorum,
                    },
                )
            } else {
                Ok(())
            }
        },
    }
}

/// The rules of a validator set with a quorum.
pub open spec fn bft_rules(validators: Seq<PublicKey>, quorum: usize) -> light_client::Rules {
    |chain: light_client::ChainView, header: ForeignHeader, evidence: light_client::ProofView|
        bft_verdict(validators, quorum, chain, header, evidence)
}

fn holds(numbers: &Vec<u32>, n: u32) -> (found: bool)
    ensures
        found == numbers@.contains(n),
{
    let mut i: usize = 0;
    while i < numbers.len()
        invariant
            i <= numbers@.len(),
            forall|j: int| 0 <= j < i ==> numbers@[j] != n,
        decreases numbers@.len() - i,
    {
        if numbers[i] == n {
            return true;
        }
        i += 1;
    }
    false
}

/// Counts the distinct signers, so the same validator's signature cannot be
/// replayed to fake a quorum; nothing if a counted signature is not genuine.
fn count_signers(
    votes: &Vec<SignerVote>,
    validators: &Vec<PublicKey>,
    header: &ForeignHeader,
) -> (count: Option<usize>)
    ensures
        count is Some == all_genuine(votes@, validators@, *header),
        count is Some ==> count->0 == distinct_signers(votes@),
{
    let message = header.hash();
    let mut counted: Vec<u32> = Vec::new();
    let mut i: usize = 0;
    assert(signers(votes@).take(0).to_set() =~= Set::<u32>::empty());
    assert(counted@.to_set() =~= Set::<u32>::empty());
    while i < votes.len()
        invariant
            i <= votes@.len(),
            message == header.digest(),
            counted@.no_duplicates(),
            counted@.to_set() == signers(votes@).take(i as int).to_set(),
            forall|j: int|
                0 <= j < i && first_of_signer(votes@, j) ==> genuine(
                    #[trigger] votes@[j],
                    validators@,
                    *header,
                ),
        decreases votes@.len() - i,
    {
        let vote = votes[i];
        let ghost seen = signers(votes@).take(i as int);
        proof {
            let s = signers(votes@);
            assert(s.take(i + 1) =~= seen.push(vote.signer));
            assert(s.take(i + 1).to_set() =~= seen.to_set().insert(vote.signer)) by {
                seen.lemma_push_to_set_commute(vote.signer);
            }
            assert(seen.contains(vote.signer) == !first_of_signer(votes@, i as int)) by {
                if seen.contains(vote.signer) {
                    let j = choose|j: int| 0 <= j < seen.len() && seen[j] == vote.signer;
                    assert(votes@[j].signer == vote.signer);
                }
                if !first_of_signer(votes@, i as int) {
                    let j = choose|j: int|
                        0 <= j < i && (#[trigger] votes@[j]).signer == vote.signer;
                    assert(seen[j] == vote.signer);
                }
            }
            assert(counted@.contains(vote.signer) == counted@.to_set().contains(vote.signer));
            assert(seen.contains(vote.signer) == seen.to_set().contains(vote.signer));
        }
        if !holds(&counted, vote.signer) {
            if vote.signer as usize >= validators.len() {
                assert(!genuine(votes@[i as int], validators@, *header));
                return None;
            }
            if !validators[vote.signer as usize].verify(message.0.as_slice(), &vote.signature) {
                assert(!genuine(votes@[i as int], validators@, *header));
                return None;
            }
            let ghost before = counted@;
            counted.push(vote.signer);
            assert(counted@.to_set() =~= before.to_set().insert(vote.signer)) by {
                before.lemma_push_to_set_commute(vote.signer);
            }
        } else {
            assert(seen.to_set().insert(vote.signer) =~= seen.to_set());
        }
        i += 1;
    }
    proof {
        assert(signers(votes@).take(i as int) =~= signers(votes@));
        counted@.unique_seq_to_set();
    }
    Some(counted.len())
}

/// Light client for a foreign BFT chain with a fixed validator set.
pub struct BftLightClient {
    chain: HeaderChain,
    validators: Vec<PublicKey>,
    quorum: usize,
}

impl BftLightClient {
    /// The foreign validator set.
    pub closed spec fn validators(self) -> Seq<PublicKey> {
        self.validators@
    }

    /// How many of them must sign a header.
    pub closed spec fn quorum(self) -> usize {
        self.quorum
    }

    /// Construct from a trusted genesis header, the foreign validator set, and
    /// the quorum threshold (e.g. `2*n/3 + 1`), which is at least one and at
    /// most the number of validators.
    pub fn new(genesis: &ForeignHeader, validators: Vec<PublicKey>, quorum: usize) -> (c:
        BftLightClient)
        requires
            0 < quorum <= validators@.len(),
        ensures
            c.chain() == light_client::ChainView::genesis(*genesis),
            c.rules() == bft_rules(validators@, quorum),
            c.validators() == validators@,
            c.quorum() == quorum,
    {
        BftLightClient { chain: HeaderChain::genesis(genesis), validators, quorum }
    }
}

impl LightClient for BftLightClient {
    open spec fn name(&self) -> Seq<char> {
        "bft"@
    }

    closed spec fn chain(&self) -> light_client::ChainView {
        self.chain@
    }

    open spec fn rules(&self) -> light_client::Rules {
        bft_rules(self.validators(), self.quorum())
    }

    fn protocol(&self) -> (name: &'static str) {
        "bft"
    }

    fn submit_header(&mut self, header: &ForeignHeader, proof: &ConsensusProof) -> (res: Result<
        (),
        InteropError,
    >)
        ensures
            final(self).validators() == old(self).validators(),
            final(self).quorum() == old(self).quorum(),
    {
        let evidence = proof;
        match evidence {
            ConsensusProof::Pow => Err(InteropError::WrongConsensusProof),
            ConsensusProof::Bft { votes } => {
                match self.chain.check_link(header) {
                    Ok(()) => {},
                    Err(e) => {
                        return Err(e);
                    },
                }
                let have: usize = match count_signers(votes, &self.validators, header) {
                    Some(n) => n,
                    None => {
                        return Err(InteropError::BadSignature);
                    },
                };
                if have < self.quorum {
                    return Err(InteropError::QuorumNotMet { have, need: self.quorum });
                }
                self.chain.append(header);
                Ok(())
            },
        }
    }

    fn tip_height(&self) -> (height: u64) {
        self.chain.tip_height()
    }

    fn verify_event(&self, event_hash: hash::Hash, proof: &EventProof) -> (res: Result<
        (),
        InteropError,
    >) {
        self.chain.verify_event(event_hash, proof)
    }
}

impl IntoClientBox for BftLightClient {
    fn boxed(self) -> (b: ClientBox) {
        ClientBox { client: Box::new(self) }
    }
}

/// Whether a validator's signature over the header is among the votes.
pub open spec fn has_signed(
    validator: u32,
    votes: Seq<SignerVote>,
    validators: Seq<PublicKey>,
    header: ForeignHeader,
) -> bool {
    exists|i: int|
        0 <= i < votes.len() && (#[trigger] votes[i]).signer == validator && genuine(
            votes[i],
            validators,
            header,
        )
}

/// Some vote of every claimed signer is its first.
proof fn lemma_first_vote(votes: Seq<SignerVote>, i: int) -> (first: int)
    requires
        0 <= i < votes.len(),
    ensures
        0 <= first <= i,
        votes[first].signer == votes[i].signer,
        first_of_signer(votes, first),
    decreases i,
{
    if first_of_signer(votes, i) {
        i
    } else {
        let j = choose|j: int| 0 <= j < i && (#[trigger] votes[j]).signer == votes[i].signer;
        lemma_first_vote(votes, j)
    }
}

/// An accepted header extends the trusted tip, and as many different
/// validators as the quorum asks for have signed its hash: signing twice, or
/// in another's name, does not help.
pub proof fn law_accepted_headers_have_a_quorum(
    validators: Seq<PublicKey>,
    quorum: usize,
    chain: light_client::ChainView,
    header: ForeignHeader,
    votes: Seq<SignerVote>,
)
    requires
        bft_rules(validators, quorum)(
            chain,
            header,
            light_client::ProofView::Bft { votes },
        ) is Ok,
    ensures
        chain.link(header) is Ok,
        signers(votes).to_set().len() >= quorum,
        forall|v: u32| #[trigger]
            signers(votes).to_set().contains(v) ==> v < validators.len() && has_signed(
                v,
                votes,
                validators,
                header,
            ),
{
    assert forall|v: u32| #[trigger] signers(votes).to_set().contains(v) implies v
        < validators.len() && has_signed(v, votes, validators, header) by {
        assert(signers(votes).contains(v));
        let i = choose|i: int| 0 <= i < signers(votes).len() && signers(votes)[i] == v;
        let first = lemma_first_vote(votes, i);
        assert(genuine(votes[first], validators, header));
    }
}

/// A header that extends the tip is accepted with any list of votes that holds
/// genuine signatures of as many different validators as the quorum asks for,
/// and no other.
pub proof fn law_a_quorum_suffices(
    validators: Seq<PublicKey>,
    quorum: usize,
    chain: light_client::ChainView,
    header: ForeignHeader,
    votes: Seq<SignerVote>,
)
    requires
        chain.link(header) is Ok,
        signers(votes).no_duplicates(),
        votes.len() >= quorum,
        forall|i: int|
            0 <= i < votes.len() ==> genuine(#[trigger] votes[i], validators, header),
    ensures
        bft_rules(validators, quorum)(
            chain,
            header,
            light_client::ProofView::Bft { votes },
        ) is Ok,
{
    signers(votes).unique_seq_to_set();
}

/// Every signer that counts has signed the hash of the header under its own key.
pub proof fn law_counted_signers_have_signed(
    validators: Seq<PublicKey>,
    quorum: usize,
    chain: light_client::ChainView,
    header: ForeignHeader,
    votes: Seq<SignerVote>,
)
    requires
        bft_rules(validators, quorum)(
            chain,
            header,
            light_client::ProofView::Bft { votes },
        ) is Ok,
    ensures
        header.height == chain.tip_height + 1,
        header.parent == chain.tip_hash,
        exists|set: Set<u32>|
            {
                &&& set.finite() && set.len() >= quorum
                &&& forall|v: u32| #[trigger]
                    set.contains(v) ==> v < validators.len() && exists|i: int|
                        0 <= i < votes.len() && (#[trigger] votes[i]).signer == v
                            && crypto::verifies(
                            validators[v as int],
                            header.digest()@,
                            votes[i].signature,
                        )
            },
{
    let set = signers(votes).to_set();
    vstd::seq_lib::seq_to_set_is_finite(signers(votes));
    assert forall|v: u32| #[trigger] set.contains(v) implies v < validators.len() && exists|i: int|
        0 <= i < votes.len() && (#[trigger] votes[i]).signer == v && crypto::verifies(
            validators[v as int],
            header.digest()@,
            votes[i].signature,
        ) by {
        let i = choose|i: int| 0 <= i < signers(votes).len() && signers(votes)[i] == v;
        let first = lemma_first_vote(votes, i);
        assert(genuine(votes[first], validators, header));
        assert(votes[first].signer == v);
    }
}

/// A header that extends the tip is accepted once enough different validators
/// have signed it, however many more have, and with too few it is refused with
/// the count.
pub proof fn law_signatures_decide(
    validators: Seq<PublicKey>,
    quorum: usize,
    chain: light_client::ChainView,
    header: ForeignHeader,
    votes: Seq<SignerVote>,
)
    requires
        header.height == chain.tip_height + 1,
        header.parent == chain.tip_hash,
        votes.len() <= usize::MAX,
        forall|i: int, j: int|
            0 <= i < j < votes.len() ==> (#[trigger] votes[i]).signer != (
            #[trigger] votes[j]).signer,
        forall|i: int|
            0 <= i < votes.len() ==> (#[trigger] votes[i]).signer < validators.len()
                && crypto::verifies(
                validators[votes[i].signer as int],
                header.digest()@,
                votes[i].signature,
            ),
    ensures
        bft_rules(validators, quorum)(chain, header, light_client::ProofView::Bft { votes }) == (
        if votes.len() >= quorum {
            Ok::<(), InteropError>(())
        } else {
            Err(InteropError::QuorumNotMet { have: votes.len() as usize, need: quorum })
        }),
{
    assert forall|i: int, j: int| 0 <= i < j < signers(votes).len() implies signers(votes)[i]
        != signers(votes)[j] by {
        assert(votes[i].signer != votes[j].signer);
    }
    signers(votes).unique_seq_to_set();
}

/// A vote that is not the signature of the validator it names spoils the list,
/// unless that validator has already been counted; and work is no substitute for
/// signatures.
pub proof fn law_forged_votes_are_refused(
    validators: Seq<PublicKey>,
    quorum: usize,
    chain: light_client::ChainView,
    header: ForeignHeader,
    votes: Seq<SignerVote>,
    i: int,
)
    requires
        header.height == chain.tip_height + 1,
        header.parent == chain.tip_hash,
        0 <= i < votes.len(),
        forall|j: int| 0 <= j < i ==> (#[trigger] votes[j]).signer != votes[i].signer,
        votes[i].signer >= validators.len() || !crypto::verifies(
            validators[votes[i].signer as int],
            header.digest()@,
            votes[i].signature,
        ),
    ensures
        bft_rules(validators, quorum)(chain, header, light_client::ProofView::Bft { votes })
            == Err::<(), InteropError>(InteropError::BadSignature),
        bft_rules(validators, quorum)(chain, header, light_client::ProofView::Pow) == Err::<
            (),
            InteropError,
        >(InteropError::WrongConsensusProof),
{
    assert(!genuine(votes[i], validators, header));
}

} // verus!
