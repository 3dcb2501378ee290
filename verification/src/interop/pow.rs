//! Proof-of-work light client.
//!
//! Headers are accepted when their hash meets a difficulty target. This tracks
//! a single contiguous chain from a trusted checkpoint; retargeting and
//! most-work fork choice are left to a production adapter.

use vstd::prelude::*;

use crate::hash;
use crate::interop::light_client;
use crate::interop::light_client::{
    ClientBox, ConsensusProof, EventProof, ForeignHeader, HeaderChain, InteropError, IntoClientBox,
    LightClient,
};

verus! {

/// The number that a byte string spells, most significant byte first.
pub open spec fn be_value(s: Seq<u8>) -> nat
    decreases s.len(),
{
    if s.len() == 0 {
        0
    } else {
        be_value(s.drop_last()) * 256 + s.last() as nat
    }
}

/// A difference in the leading bytes decides the comparison.
proof fn lemma_be_prefix(a: Seq<u8>, b: Seq<u8>, n: int)
    requires
        a.len() == b.len(),
        0 <= n <= a.len(),
        be_value(a.take(n)) < be_value(b.take(n)),
    ensures
        be_value(a) < be_value(b),
    decreases a.len() - n,
{
    if n == a.len() {
        assert(a.take(n) =~= a);
        assert(b.take(n) =~= b);
    } else {
        assert(a.take(n + 1).drop_last() =~= a.take(n));
        assert(b.take(n + 1).drop_last() =~= b.take(n));
        lemma_be_prefix(a, b, n + 1);
    }
}

/// True if `hash` is numerically at most `target` (both big-endian 32-byte
/// values).
pub fn meets_target(hash: &hash::Hash, target: &[u8; 32]) -> (ok: bool)
    ensures
        ok == (be_value(hash@) <= be_value(target@)),
{
    let mut i: usize = 0;
    while i < 32
        invariant
            i <= 32,
            hash@.take(i as int) == target@.take(i as int),
        decreases 32 - i,
    {
        let h: u8 = hash.0[i];
        let t: u8 = target[i];
        proof {
            assert(hash@.take(i + 1).drop_last() =~= hash@.take(i as int));
            assert(target@.take(i + 1).drop_last() =~= target@.take(i as int));
        }
        if h < t {
            proof {
                lemma_be_prefix(hash@, target@, i + 1);
            }
            return true;
        }
        if h > t {
            proof {
                lemma_be_prefix(target@, hash@, i + 1);
            }
            return false;
        }
        assert(hash@.take(i + 1) =~= target@.take(i + 1));
        i += 1;
    }
    assert(hash@.take(32) =~= hash@);
    assert(target@.take(32) =~= target@);
    true
}

/// Whether a header's hash meets the target.
pub open spec fn worked(header: ForeignHeader, target: Seq<u8>) -> bool {
    be_value(header.digest()@) <= be_value(target)
}

/// The same header with another nonce.
pub open spec fn with_nonce(header: ForeignHeader, nonce: u64) -> ForeignHeader {
    ForeignHeader { nonce, ..header }
}

/// Whether some nonce makes the header meet the target.
pub open spec fn minable(header: ForeignHeader, target: Seq<u8>) -> bool {
    exists|nonce: u64| worked(#[trigger] with_nonce(header, nonce), target)
}

/// Whether `mined` is the header with the least nonce that meets the target.
pub open spec fn is_mined(
    mined: ForeignHeader,
    header: ForeignHeader,
    target: Seq<u8>,
) -> bool {
    &&& mined == with_nonce(header, mined.nonce)
    &&& worked(mined, target)
    &&& forall|n: u64| n < mined.nonce ==> !worked(#[trigger] with_nonce(header, n), target)
}

/// The verdict of proof of work on a header: it comes without signatures, it
/// extends the tip, and its hash meets the target.
pub open spec fn pow_verdict(
    target: Seq<u8>,
    chain: light_client::ChainView,
    header: ForeignHeader,
    evidence: light_client::ProofView,
) -> Result<(), InteropError> {
    if !(evidence is Pow) {
        Err(InteropError::WrongConsensusProof)
    } else if chain.link(header) is Err {
        chain.link(header)
    } else if !worked(header, target) {
        Err(InteropError::InsufficientWork)
    } else {
        Ok(())
    }
}

/// The rules of proof of work under a target.
pub open spec fn pow_rules(target: Seq<u8>) -> light_client::Rules {
    |chain: light_client::ChainView, header: ForeignHeader, evidence: light_client::ProofView|
        pow_verdict(target, chain, header, evidence)
}

/// Header-chain light client: accept the next header iff it links to the tip
/// and its hash meets the target.
pub struct PowLightClient {
    chain: HeaderChain,
    target: [u8; 32],
}

impl PowLightClient {
    /// The largest acceptable header hash.
    pub closed spec fn target(self) -> Seq<u8> {
        self.target@
    }

    /// Construct from a trusted genesis header and a difficulty `target` (max
    /// acceptable header hash). The genesis header is the trust root and is
    /// not itself work-checked.
    pub fn new(genesis: &ForeignHeader, target: [u8; 32]) -> (c: PowLightClient)
        ensures
            c.chain() == light_client::ChainView::genesis(*genesis),
            c.rules() == pow_rules(target@),
            c.target() == target@,
    {
        PowLightClient { chain: HeaderChain::genesis(genesis), target }
    }

    /// Mine a valid `nonce` for a header against this client's target (relayer
    /// helper). Returns the completed header.
    pub fn mine(&self, header: ForeignHeader) -> (mined: ForeignHeader)
        requires
            minable(header, self.target()),
        ensures
            is_mined(mined, header, self.target()),
    {
        let mut candidate = header;
        candidate.nonce = 0;
        let ghost answer = choose|n: u64|
            worked(#[trigger] with_nonce(header, n), self.target@);
        while !meets_target(&candidate.hash(), &self.target)
            invariant
                candidate == with_nonce(header, candidate.nonce),
                candidate.nonce <= answer,
                worked(with_nonce(header, answer), self.target@),
                forall|n: u64|
                    n < candidate.nonce ==> !worked(
                        #[trigger] with_nonce(header, n),
                        self.target@,
                    ),
            decreases answer - candidate.nonce,
        {
            candidate.nonce = candidate.nonce + 1;
        }
        candidate
    }

    /// Mine a header for which it is not known whether any nonce will do:
    /// nothing if none of them meets the target.
    pub fn try_mine(&self, header: ForeignHeader) -> (mined: Option<ForeignHeader>)
        ensures
            mined is Some == minable(header, self.target()),
            mined is Some ==> is_mined(mined->0, header, self.target()),
    {
        let mut candidate = header;
        candidate.nonce = 0;
        loop
            invariant
                candidate == with_nonce(header, candidate.nonce),
                forall|n: u64|
                    n < candidate.nonce ==> !worked(
                        #[trigger] with_nonce(header, n),
                        self.target@,
                    ),
            decreases u64::MAX - candidate.nonce,
        {
            if meets_target(&candidate.hash(), &self.target) {
                assert(worked(with_nonce(header, candidate.nonce), self.target@));
                return Some(self.mine(header));
            }
            if candidate.nonce == u64::MAX {
                return None;
            }
            candidate.nonce = candidate.nonce + 1;
        }
    }
}

impl LightClient for PowLightClient {
    open spec fn name(&self) -> Seq<char> {
        "pow"@
    }

    closed spec fn chain(&self) -> light_client::ChainView {
        self.chain@
    }

    open spec fn rules(&self) -> light_client::Rules {
        pow_rules(self.target())
    }

    fn protocol(&self) -> (name: &'static str) {
        "pow"
    }

    fn submit_header(&mut self, header: &ForeignHeader, proof: &ConsensusProof) -> (res: Result<
        (),
        InteropError,
    >)
        ensures
            final(self).target() == old(self).target(),
    {
        if !matches!(proof, ConsensusProof::Pow) {
            return Err(InteropError::WrongConsensusProof);
        }
        match self.chain.check_link(header) {
            Ok(()) => {},
            Err(e) => {
                return Err(e);
            },
        }
        if !meets_target(&header.hash(), &self.target) {
            return Err(InteropError::InsufficientWork);
        }
        self.chain.append(header);
        Ok(())
    }

    fn tip_height(&self) -> (height: u64) {
        self.chain.tip_height()
    }

    fn verify_event(&self, event_hash: hash::Hash, proof: &EventProof) -> (res: Result<
        (),
        InteropError,
    >) {
        self.chain.verify_event(event_hash, proof)
    }
}

impl IntoClientBox for PowLightClient {
    fn boxed(self) -> (b: ClientBox) {
        ClientBox { client: Box::new(self) }
    }
}

/// A header that extends the tip is accepted by a client once the client has
/// mined it.
pub proof fn law_mined_headers_are_accepted(
    client: PowLightClient,
    header: ForeignHeader,
    mined: ForeignHeader,
)
    requires
        client.chain().link(header) is Ok,
        is_mined(mined, header, client.target()),
    ensures
        (client.rules())(client.chain(), mined, light_client::ProofView::Pow) is Ok,
{
}

/// An accepted header extends the trusted tip and carries the work that the
/// target asks for.
pub proof fn law_accepted_headers_carry_work(
    target: Seq<u8>,
    chain: light_client::ChainView,
    header: ForeignHeader,
    evidence: light_client::ProofView,
)
    requires
        pow_rules(target)(chain, header, evidence) is Ok,
    ensures
        chain.link(header) is Ok,
        be_value(header.digest()@) <= be_value(target),
{
}

/// Numbers are read big-endian: the first byte that differs decides.
pub proof fn law_first_bytes_weigh_most(a: Seq<u8>, b: Seq<u8>, k: int)
    requires
        a.len() == b.len(),
        0 <= k < a.len(),
        a.take(k) == b.take(k),
        a[k] < b[k],
    ensures
        be_value(a) < be_value(b),
    decreases a.len(),
{
    let x = a.drop_last();
    let y = b.drop_last();
    if k == a.len() - 1 {
        assert(x =~= a.take(k));
        assert(y =~= b.take(k));
    } else {
        assert(x.take(k) =~= a.take(k));
        assert(y.take(k) =~= b.take(k));
        law_first_bytes_weigh_most(x, y, k);
    }
}

/// A header is accepted exactly if it comes as proof of work, extends the tip,
/// and its hash, read as a number, is at most the target.
pub proof fn law_work_is_what_counts(
    target: Seq<u8>,
    chain: light_client::ChainView,
    header: ForeignHeader,
    evidence: light_client::ProofView,
)
    ensures
        match pow_rules(target)(chain, header, evidence) {
            Ok(_) => {
                &&& evidence is Pow
                &&& header.height == chain.tip_height + 1 && header.parent == chain.tip_hash
                &&& be_value(header.digest()@) <= be_value(target)
            },
            Err(e) => {
                ||| e is WrongConsensusProof && !(evidence is Pow)
                ||| evidence is Pow && chain.link(header) == Err::<(), InteropError>(e)
                ||| {
                    &&& e is InsufficientWork && evidence is Pow && chain.link(header) is Ok
                    &&& be_value(header.digest()@) > be_value(target)
                }
            },
        },
{
}

/// Mining changes the nonce alone, to the least one that does.
pub proof fn law_mining_finds_the_least_nonce(
    mined: ForeignHeader,
    header: ForeignHeader,
    target: Seq<u8>,
    nonce: u64,
)
    requires
        is_mined(mined, header, target),
    ensures
        mined.height == header.height,
        mined.parent == header.parent,
        mined.event_root == header.event_root,
        be_value(mined.digest()@) <= be_value(target),
        nonce < mined.nonce ==> be_value((ForeignHeader { nonce, ..header }).digest()@) > be_value(
            target,
        ),
        be_value((ForeignHeader { nonce, ..header }).digest()@) <= be_value(target) ==> minable(
            header,
            target,
        ),
{
    assert(with_nonce(header, nonce) == (ForeignHeader { nonce, ..header }));
}

} // verus!
