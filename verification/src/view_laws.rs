//! What the contracts say of a value, they say of the value that is there: every
//! view shows the fields of its type as they are.

use vstd::prelude::*;

use crate::account::{Account, AccountId, AuthPolicy, PolicyView};
use crate::block::Block;
use crate::cli::{ChainCommand, ChainCommandView, Command, CommandView};
use crate::consensus::QuorumCertificate;
use crate::crypto::{PublicKey, Signature};
use crate::engine::{ConsensusEngine, OutcomeView, RoundOutcome, Validator};
use crate::hash;
use crate::interop::light_client::{ConsensusProof, EventProof, ProofView};
use crate::mempool::Mempool;
use crate::merkle::MerkleProof;
use crate::nex;
use crate::node::Node;
use crate::smt::SmtProof;
use crate::transaction;
use crate::transaction::{AccessSet, AuthReveal, Transaction};
use crate::vm::machine::CallContext;

verus! {

/// Hashes, ids, keys and signatures are their bytes.
pub proof fn law_bytes_are_shown(h: hash::Hash, id: AccountId, key: PublicKey, s: Signature)
    ensures
        h@ == h.0@,
        id@ == id.0.0@,
        key@ == key.0@,
        s@ == s.0@,
{
}

/// The fields of a transaction.
pub proof fn law_transactions_are_shown(
    t: Transaction,
    txs: Seq<Transaction>,
    access: AccessSet,
    r: AuthReveal,
    i: int,
)
    ensures
        t@.sender == t.sender,
        t@.nonce == t.nonce,
        t@.chain_id == t.chain_id,
        t@.kind == t.kind,
        t@.access == t.access@,
        t@.max_fee == t.max_fee,
        t@.sponsor == t.sponsor,
        t@.signatures == t.signatures@,
        t.auth_reveal is None ==> t@.auth_reveal is None,
        t.auth_reveal matches Some(x) ==> t@.auth_reveal == Some(x@),
        access@.reads == access.reads@,
        access@.writes == access.writes@,
        r@.policy == r.policy@,
        r@.salt == r.salt,
        transaction::tx_views(txs).len() == txs.len(),
        0 <= i < txs.len() ==> transaction::tx_views(txs)[i] == txs[i]@,
{
}

/// The fields of an account and of its policy.
pub proof fn law_accounts_are_shown(a: Account, p: AuthPolicy)
    ensures
        a@.id == a.id,
        a@.balance == a.balance,
        a@.nonce == a.nonce,
        a@.auth == a.auth@,
        match p {
            AuthPolicy::Open => p@ is Open,
            AuthPolicy::SingleKey(key) => p@ == PolicyView::SingleKey(key),
            AuthPolicy::Threshold { m, keys } => p@ == (PolicyView::Threshold { m, keys: keys@ }),
            AuthPolicy::Unclaimed => p@ is Unclaimed,
        },
{
}

/// Blocks, certificates and proofs.
pub proof fn law_blocks_are_shown(
    b: Block,
    qc: QuorumCertificate,
    m: MerkleProof,
    s: SmtProof,
)
    ensures
        b@.header == b.header,
        b@.transactions == transaction::tx_views(b.transactions@),
        qc@.block_hash == qc.block_hash,
        qc@.height == qc.height,
        qc@.view == qc.view,
        qc@.signers == qc.signers@,
        qc@.signatures == qc.signatures@,
        m@ == m.siblings@,
        s@ == s.siblings@,
{
}

/// Validators, the engine and the outcome of a round.
pub proof fn law_rounds_are_shown(v: Validator, e: ConsensusEngine, o: RoundOutcome, i: int)
    ensures
        v@.index == v.index,
        v@.state == v.state@,
        v@.byzantine == v.byzantine,
        v@.governor == v.governor,
        v@.seed == v.keypair@,
        e@.validators.len() == e.validators@.len(),
        0 <= i < e.validators@.len() ==> e@.validators[i] == e.validators@[i]@,
        e@.height == e.height,
        e@.parent == e.parent,
        e@.chain_id == e.chain_id,
        e@.view == e.view,
        e@.chain.len() == e.chain@.len(),
        0 <= i < e.chain@.len() ==> e@.chain[i] == (e.chain@[i].0@, e.chain@[i].1@),
        e@.evidence == e.slashing_evidence@,
        e@.seen == e.detector@,
        match o {
            RoundOutcome::Committed { block, qc, receipts } => o@ == (OutcomeView::Committed {
                block: block@,
                qc: qc@,
                receipts: receipts@,
            }),
            RoundOutcome::Rejected { proposer, approvals, needed, txs } => o@ == (
            OutcomeView::Rejected {
                proposer,
                approvals: approvals as nat,
                needed: needed as nat,
                txs: transaction::tx_views(txs@),
            }),
        },
{
}

/// The pool and the node.
pub proof fn law_pools_and_nodes_are_shown(p: Mempool, n: Node)
    ensures
        p@.queue == p.lanes@.queue,
        p@.pending == p.lanes@.pending,
        p@.usage == p.lanes@.usage,
        p@.quota_per_window == p.quota_per_window,
        p@.max_pending == p.max_pending,
        n@.state == n.state@,
        n@.height == n.height,
        n@.parent == n.parent,
{
}

/// A call, with its caller, its value and its arguments.
pub proof fn law_calls_are_shown(c: CallContext)
    ensures
        c@.caller == c.caller,
        c@.value == c.value,
        c@.args == c.args@,
{
}

/// What comes from a foreign chain.
pub proof fn law_foreign_proofs_are_shown(p: ConsensusProof, e: EventProof)
    ensures
        match p {
            ConsensusProof::Pow => p@ is Pow,
            ConsensusProof::Bft { votes } => p@ == (ProofView::Bft { votes: votes@ }),
        },
        e@.header_height == e.header_height,
        e@.leaf_index == e.leaf_index,
        e@.leaf_count == e.leaf_count,
        e@.siblings == e.merkle.siblings@,
{
}

/// Commands, with their words and numbers.
pub proof fn law_commands_are_shown(c: Command, k: ChainCommand)
    ensures
        match c {
            Command::Init { chain_id, supply } => c@ == (CommandView::Init { chain_id, supply }),
            Command::Address { label } => c@ == (CommandView::Address { label: label@ }),
            Command::Chain(inner) => c@ == CommandView::Chain(inner@),
            Command::Help => c@ is Help,
        },
        match k {
            ChainCommand::Balance { label } => k@ == (ChainCommandView::Balance { label: label@ }),
            ChainCommand::Fund { label, amount } => k@ == (ChainCommandView::Fund {
                label: label@,
                amount,
            }),
            ChainCommand::Transfer { from, to, amount } => k@ == (ChainCommandView::Transfer {
                from: from@,
                to: to@,
                amount,
            }),
            ChainCommand::State => k@ is State,
        },
{
}

/// The starter chain.
pub proof fn law_starter_values_are_shown(
    id: nex::account::AccountId,
    a: nex::account::Account,
    access: nex::transaction::AccessSet,
    t: nex::transaction::Transaction,
    txs: Seq<nex::transaction::Transaction>,
    b: nex::block::Block,
    v: nex::consensus::Validator,
    e: nex::consensus::ConsensusEngine,
    o: nex::consensus::RoundOutcome,
    i: int,
)
    ensures
        id@ == id.0.0@,
        a@.id == a.id && a@.balance == a.balance && a@.nonce == a.nonce && a@.auth == a.auth@,
        access@.reads == access.reads@ && access@.writes == access.writes@,
        t@.sender == t.sender && t@.nonce == t.nonce && t@.kind == t.kind,
        t@.access == t.access@ && t@.max_fee == t.max_fee && t@.sponsor == t.sponsor,
        nex::transaction::tx_views(txs).len() == txs.len(),
        0 <= i < txs.len() ==> nex::transaction::tx_views(txs)[i] == txs[i]@,
        b@.header == b.header,
        b@.transactions == nex::transaction::tx_views(b.transactions@),
        v@.index == v.index && v@.state == v.state@,
        e@.validators.len() == e.validators@.len(),
        0 <= i < e.validators@.len() ==> e@.validators[i] == e.validators@[i]@,
        e@.height == e.height && e@.parent == e.parent,
        match o {
            nex::consensus::RoundOutcome::Committed(block) => o@
                == nex::consensus::OutcomeView::Committed(block@),
            nex::consensus::RoundOutcome::Rejected { approvals, needed } => o@ == (
            nex::consensus::OutcomeView::Rejected {
                approvals: approvals as nat,
                needed: needed as nat,
            }),
        },
{
}

} // verus!
