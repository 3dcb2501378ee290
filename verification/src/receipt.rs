//! Transaction errors and execution receipts.

use vstd::prelude::*;

use crate::bytes;
use crate::hash;
use crate::merkle;
use crate::text;

verus! {

/// Why a transaction failed validation or execution.
///
/// Two classes with different inclusion semantics (see
/// [`crate::state::State::apply_tx`]): *invalid* transactions (bad nonce,
/// failed auth, undeclared access) never take effect at all, while *runtime*
/// failures (insufficient balance, overflow) consume the sender's nonce so the
/// attempt is recorded and unreplayable.
#[derive(Clone, Copy, Debug, PartialEq, Eq, Structural)]
pub enum TxError {
    UnknownSender,
    BadNonce { expected: u64, got: u64 },
    /// Transaction's `chain_id` does not match this network's. Blocks
    /// cross-chain / cross-instance replay of signed transactions.
    WrongChain { expected: u64, got: u64 },
    /// Structurally oversized (access set, signatures, or revealed key list
    /// beyond protocol limits). Rejected before any signature work so a single
    /// transaction cannot exhaust validator CPU.
    TransactionTooLarge,
    /// The transaction touches state outside its declared access set.
    AccessViolation,
    /// Signatures do not satisfy the sender's auth policy.
    AuthFailed,
    /// A mint from an account that is not this network's issuance authority
    /// (or issuance is frozen). Enforced by the base ledger itself, not only
    /// by the Cargo guard's block audit.
    UnauthorizedIssuance,
    /// First-spend reveal missing, or not matching the account id (or present
    /// on an already-claimed account).
    RevealMismatch,
    InsufficientBalance { have: u64, need: u64 },
    Overflow,
    /// The transaction offers less than the network's base fee.
    FeeTooLow { base_fee: u64, max_fee: u64 },
}

impl TxError {
    /// Whether the failure is a runtime failure.
    pub open spec fn is_runtime(self) -> bool {
        self is InsufficientBalance || self is Overflow
    }

    /// Runtime failures are includable in a block (they consume the nonce);
    /// everything else marks the transaction invalid, as if never sent.
    pub fn consumes_nonce(&self) -> (b: bool)
        ensures
            b == self.is_runtime(),
    {
        match self {
            TxError::InsufficientBalance { .. } | TxError::Overflow => true,
            _ => false,
        }
    }

    /// Variant code and fields.
    pub open spec fn encoded(self) -> Seq<u8> {
        match self {
            TxError::UnknownSender => seq![1u8],
            TxError::BadNonce { expected, got } => seq![2u8] + bytes::le64(expected)
                + bytes::le64(got),
            TxError::AccessViolation => seq![3u8],
            TxError::AuthFailed => seq![4u8],
            TxError::RevealMismatch => seq![5u8],
            TxError::InsufficientBalance { have, need } => seq![6u8] + bytes::le64(have)
                + bytes::le64(need),
            TxError::Overflow => seq![7u8],
            TxError::WrongChain { expected, got } => seq![8u8] + bytes::le64(expected)
                + bytes::le64(got),
            TxError::TransactionTooLarge => seq![9u8],
            TxError::UnauthorizedIssuance => seq![10u8],
            TxError::FeeTooLow { base_fee, max_fee } => seq![11u8] + bytes::le64(base_fee)
                + bytes::le64(max_fee),
        }
    }

    /// The name of the variant, with its fields.
    pub open spec fn text(self) -> Seq<char> {
        match self {
            TxError::UnknownSender => "UnknownSender"@,
            TxError::BadNonce { expected, got } => fields_text(
                "BadNonce { expected: "@,
                expected,
                ", got: "@,
                got,
            ),
            TxError::WrongChain { expected, got } => fields_text(
                "WrongChain { expected: "@,
                expected,
                ", got: "@,
                got,
            ),
            TxError::TransactionTooLarge => "TransactionTooLarge"@,
            TxError::AccessViolation => "AccessViolation"@,
            TxError::AuthFailed => "AuthFailed"@,
            TxError::UnauthorizedIssuance => "UnauthorizedIssuance"@,
            TxError::RevealMismatch => "RevealMismatch"@,
            TxError::InsufficientBalance { have, need } => fields_text(
                "InsufficientBalance { have: "@,
                have,
                ", need: "@,
                need,
            ),
            TxError::Overflow => "Overflow"@,
            TxError::FeeTooLow { base_fee, max_fee } => fields_text(
                "FeeTooLow { base_fee: "@,
                base_fee,
                ", max_fee: "@,
                max_fee,
            ),
        }
    }

    /// The variant's name and fields, for messages.
    pub fn describe(&self) -> (s: String)
        ensures
            s@ == self.text(),
    {
        match self {
            TxError::UnknownSender => "UnknownSender".to_owned(),
            TxError::BadNonce { expected, got } => describe_fields(
                "BadNonce { expected: ",
                *expected,
                ", got: ",
                *got,
            ),
            TxError::WrongChain { expected, got } => describe_fields(
                "WrongChain { expected: ",
                *expected,
                ", got: ",
                *got,
            ),
            TxError::TransactionTooLarge => "TransactionTooLarge".to_owned(),
            TxError::AccessViolation => "AccessViolation".to_owned(),
            TxError::AuthFailed => "AuthFailed".to_owned(),
            TxError::UnauthorizedIssuance => "UnauthorizedIssuance".to_owned(),
            TxError::RevealMismatch => "RevealMismatch".to_owned(),
            TxError::InsufficientBalance { have, need } => describe_fields(
                "InsufficientBalance { have: ",
                *have,
                ", need: ",
                *need,
            ),
            TxError::Overflow => "Overflow".to_owned(),
            TxError::FeeTooLow { base_fee, max_fee } => describe_fields(
                "FeeTooLow { base_fee: ",
                *base_fee,
                ", max_fee: ",
                *max_fee,
            ),
        }
    }

    /// Stable variant code for canonical receipt encoding.
    fn encode(&self) -> (out: Vec<u8>)
        ensures
            out@ == self.encoded(),
    {
        let mut out: Vec<u8> = Vec::new();
        match self {
            TxError::UnknownSender => out.push(1),
            TxError::BadNonce { expected, got } => push_pair(&mut out, 2, *expected, *got),
            TxError::AccessViolation => out.push(3),
            TxError::AuthFailed => out.push(4),
            TxError::RevealMismatch => out.push(5),
            TxError::InsufficientBalance { have, need } => push_pair(&mut out, 6, *have, *need),
            TxError::Overflow => out.push(7),
            TxError::WrongChain { expected, got } => push_pair(&mut out, 8, *expected, *got),
            TxError::TransactionTooLarge => out.push(9),
            TxError::UnauthorizedIssuance => out.push(10),
            TxError::FeeTooLow { base_fee, max_fee } => push_pair(
                &mut out,
                11,
                *base_fee,
                *max_fee,
            ),
        }
        assert(out@ =~= self.encoded());
        out
    }
}

/// Two numbers with what stands before each of them, and a closing brace.
pub open spec fn fields_text(first: Seq<char>, a: u64, second: Seq<char>, b: u64) -> Seq<char> {
    first + text::decimal(a as nat) + second + text::decimal(b as nat) + " }"@
}

fn describe_fields(first: &str, a: u64, second: &str, b: u64) -> (s: String)
    ensures
        s@ == fields_text(first@, a, second@, b),
{
    let mut s = first.to_owned();
    text::push_decimal(&mut s, a as u128);
    s.append(second);
    text::push_decimal(&mut s, b as u128);
    s.append(" }");
    assert(s@ =~= fields_text(first@, a, second@, b));
    s
}

/// Appends a variant code and two numbers.
fn push_pair(out: &mut Vec<u8>, code: u8, a: u64, b: u64)
    ensures
        final(out)@ == old(out)@ + (seq![code] + bytes::le64(a) + bytes::le64(b)),
{
    out.push(code);
    bytes::push_u64(out, a);
    bytes::push_u64(out, b);
    assert(out@ =~= old(out)@ + (seq![code] + bytes::le64(a) + bytes::le64(b)));
}

/// Per-transaction outcome included in execution receipts.
#[derive(Clone, Copy, Debug, PartialEq, Eq)]
pub struct Receipt {
    pub tx_id: hash::Hash,
    pub result: Result<(), TxError>,
    /// Figs burned as inclusion fee.
    pub fee_paid: u64,
}

/// Zero for success, else the error's encoding.
pub open spec fn result_bytes(result: Result<(), TxError>) -> Seq<u8> {
    match result {
        Ok(_) => seq![0u8],
        Err(e) => e.encoded(),
    }
}

impl Receipt {
    /// What is hashed for the canonical receipt hash.
    pub open spec fn hash_input(self) -> Seq<u8> {
        hash::tagged_preimage(
            text::utf8("phi:receipt"@),
            seq![self.tx_id@, result_bytes(self.result)],
        )
    }

    /// The canonical receipt hash.
    pub open spec fn digest(self) -> hash::Hash {
        hash::tagged(text::utf8("phi:receipt"@), seq![self.tx_id@, result_bytes(self.result)])
    }

    /// Canonical receipt hash (leaf of the block's receipts root).
    pub fn hash(&self) -> (h: hash::Hash)
        ensures
            h == self.digest(),
    {
        let mut encoded: Vec<u8> = Vec::new();
        match &self.result {
            Ok(_) => encoded.push(0),
            Err(e) => {
                encoded = e.encode();
            },
        }
        assert(encoded@ =~= result_bytes(self.result));
        let parts: [&[u8]; 2] = [self.tx_id.0.as_slice(), encoded.as_slice()];
        assert(hash::part_views(parts@) =~= seq![self.tx_id@, result_bytes(self.result)]);
        hash::Hash::of_tagged("phi:receipt".as_bytes(), &parts)
    }
}

/// The hashes of a list of receipts.
pub open spec fn receipt_digests(receipts: Seq<Receipt>) -> Seq<hash::Hash> {
    Seq::new(receipts.len(), |i: int| receipts[i].digest())
}

/// The Merkle root that a header commits to for these receipts.
pub open spec fn receipts_root_of(receipts: Seq<Receipt>) -> hash::Hash {
    merkle::root_of(receipt_digests(receipts))
}

/// All that is hashed for the root over a list of receipts, their own hashes
/// included.
pub open spec fn receipts_root_inputs(receipts: Seq<Receipt>) -> Set<Seq<u8>> {
    merkle::root_inputs(receipt_digests(receipts)).union(
        Set::new(
            |x: Seq<u8>|
                exists|i: int|
                    0 <= i < receipts.len() && x == (#[trigger] receipts[i]).hash_input(),
        ),
    )
}

/// Merkle root over a block's receipts, committed in the block header.
pub fn receipts_root(receipts: &[Receipt]) -> (h: hash::Hash)
    ensures
        h == receipts_root_of(receipts@),
{
    let mut leaves: Vec<hash::Hash> = Vec::new();
    let mut i: usize = 0;
    while i < receipts.len()
        invariant
            i <= receipts@.len(),
            leaves@.len() == i,
            forall|j: int| 0 <= j < i ==> #[trigger] leaves@[j] == receipts@[j].digest(),
        decreases receipts@.len() - i,
    {
        leaves.push(receipts[i].hash());
        i += 1;
    }
    assert(leaves@ =~= receipt_digests(receipts@));
    merkle::root(leaves.as_slice())
}

/// The sum of the fees that the receipts record.
pub open spec fn fees_of(receipts: Seq<Receipt>) -> int
    decreases receipts.len(),
{
    if receipts.len() == 0 {
        0
    } else {
        fees_of(receipts.drop_last()) + receipts.last().fee_paid
    }
}

pub proof fn lemma_fees_nonneg(receipts: Seq<Receipt>)
    ensures
        fees_of(receipts) >= 0,
    decreases receipts.len(),
{
    if receipts.len() > 0 {
        lemma_fees_nonneg(receipts.drop_last());
    }
}

proof fn lemma_pair_injective(code: u8, a: u64, b: u64, c: u64, d: u64)
    requires
        seq![code] + bytes::le64(a) + bytes::le64(b) == seq![code] + bytes::le64(c) + bytes::le64(
            d,
        ),
    ensures
        a == c,
        b == d,
{
    broadcast use bytes::lemma_le_bytes_len;

    bytes::lemma_concat_cancel(
        seq![code] + bytes::le64(a),
        bytes::le64(b),
        seq![code] + bytes::le64(c),
        bytes::le64(d),
    );
    bytes::lemma_concat_cancel(seq![code], bytes::le64(a), seq![code], bytes::le64(c));
    bytes::lemma_le64_injective(a, c);
    bytes::lemma_le64_injective(b, d);
}

spec fn result_code(result: Result<(), TxError>) -> u8 {
    match result {
        Ok(_) => 0,
        Err(TxError::UnknownSender) => 1,
        Err(TxError::BadNonce { .. }) => 2,
        Err(TxError::AccessViolation) => 3,
        Err(TxError::AuthFailed) => 4,
        Err(TxError::RevealMismatch) => 5,
        Err(TxError::InsufficientBalance { .. }) => 6,
        Err(TxError::Overflow) => 7,
        Err(TxError::WrongChain { .. }) => 8,
        Err(TxError::TransactionTooLarge) => 9,
        Err(TxError::UnauthorizedIssuance) => 10,
        Err(TxError::FeeTooLow { .. }) => 11,
    }
}

proof fn lemma_result_code(result: Result<(), TxError>)
    ensures
        result_bytes(result).len() <= 17,
        result_bytes(result).len() >= 1,
        result_bytes(result)[0] == result_code(result),
{
    broadcast use bytes::lemma_le_bytes_len;

}

/// Different outcomes have different encodings.
pub proof fn law_result_encoding_injective(a: Result<(), TxError>, b: Result<(), TxError>)
    requires
        result_bytes(a) == result_bytes(b),
    ensures
        a == b,
{
    lemma_result_code(a);
    lemma_result_code(b);
    match (a, b) {
        (
            Err(TxError::BadNonce { expected: p, got: q }),
            Err(TxError::BadNonce { expected: r, got: s }),
        ) => lemma_pair_injective(2, p, q, r, s),
        (
            Err(TxError::InsufficientBalance { have: p, need: q }),
            Err(TxError::InsufficientBalance { have: r, need: s }),
        ) => lemma_pair_injective(6, p, q, r, s),
        (
            Err(TxError::WrongChain { expected: p, got: q }),
            Err(TxError::WrongChain { expected: r, got: s }),
        ) => lemma_pair_injective(8, p, q, r, s),
        (
            Err(TxError::FeeTooLow { base_fee: p, max_fee: q }),
            Err(TxError::FeeTooLow { base_fee: r, max_fee: s }),
        ) => lemma_pair_injective(11, p, q, r, s),
        (Ok(x), Ok(y)) => {
            assert(x == y);
        },
        _ => {},
    }
}

/// A receipts root commits to which transactions ran, in which order, and to
/// the outcome of each, unless two of the hash inputs collide.
pub proof fn law_receipts_root_binds(a: Seq<Receipt>, b: Seq<Receipt>)
    requires
        receipts_root_of(a) == receipts_root_of(b),
    ensures
        hash::collision_in(receipts_root_inputs(a).union(receipts_root_inputs(b))) || (a.len()
            == b.len() && forall|i: int|
            0 <= i < a.len() ==> (#[trigger] a[i]).tx_id == b[i].tx_id && a[i].result
                == b[i].result),
{
    let inputs = receipts_root_inputs(a).union(receipts_root_inputs(b));
    if !hash::collision_in(inputs) {
        assert(merkle::root_inputs(receipt_digests(a)).union(
            merkle::root_inputs(receipt_digests(b)),
        ).subset_of(inputs));
        merkle::law_root_binds_leaves(receipt_digests(a), receipt_digests(b));
        assert(receipt_digests(a).len() == receipt_digests(b).len());
        let tag = text::utf8("phi:receipt"@);
        reveal_strlit("phi:receipt");
        text::lemma_utf8_len("phi:receipt"@);
        assert forall|i: int| 0 <= i < a.len() implies (#[trigger] a[i]).tx_id == b[i].tx_id
            && a[i].result == b[i].result by {
            assert(receipt_digests(a)[i] == receipt_digests(b)[i]);
            assert(receipts_root_inputs(a).contains(a[i].hash_input()));
            assert(receipts_root_inputs(b).contains(b[i].hash_input()));
            lemma_result_code(a[i].result);
            lemma_result_code(b[i].result);
            let p = seq![a[i].tx_id@, result_bytes(a[i].result)];
            let q = seq![b[i].tx_id@, result_bytes(b[i].result)];
            hash::law_tagged_binds(tag, p, tag, q);
            assert(p[0] == q[0] && p[1] == q[1]);
            hash::lemma_hash_ext(a[i].tx_id, b[i].tx_id);
            law_result_encoding_injective(a[i].result, b[i].result);
        }
    }
}

/// Only a lack of funds or of room for the credit shows when a transaction runs,
/// and uses up its nonce.
pub proof fn law_late_failures_use_the_nonce(e: TxError)
    ensures
        e.is_runtime() <==> e is InsufficientBalance || e is Overflow,
{
}

/// An error is shown with its figures, in decimal.
pub proof fn law_errors_show_their_figures(a: u64, b: u64)
    ensures
        (TxError::BadNonce { expected: a, got: b }).text() == "BadNonce { expected: "@
            + text::decimal(a as nat) + ", got: "@ + text::decimal(b as nat) + " }"@,
        (TxError::WrongChain { expected: a, got: b }).text() == "WrongChain { expected: "@
            + text::decimal(a as nat) + ", got: "@ + text::decimal(b as nat) + " }"@,
        (TxError::InsufficientBalance { have: a, need: b }).text()
            == "InsufficientBalance { have: "@ + text::decimal(a as nat) + ", need: "@
            + text::decimal(b as nat) + " }"@,
        (TxError::FeeTooLow { base_fee: a, max_fee: b }).text() == "FeeTooLow { base_fee: "@
            + text::decimal(a as nat) + ", max_fee: "@ + text::decimal(b as nat) + " }"@,
{
}

/// The receipts root is the Merkle root of the receipt hashes, in order.
pub proof fn law_receipts_root_covers_every_receipt(receipts: Seq<Receipt>)
    ensures
        receipts_root_of(receipts) == merkle::root_of(
            Seq::new(receipts.len(), |i: int| receipts[i].digest()),
        ),
{
    assert(receipt_digests(receipts) =~= Seq::new(
        receipts.len(),
        |i: int| receipts[i].digest(),
    ));
}

/// An error without figures is shown by its name.
pub proof fn law_errors_show_their_names()
    ensures
        TxError::UnknownSender.text() == "UnknownSender"@,
        TxError::TransactionTooLarge.text() == "TransactionTooLarge"@,
        TxError::AccessViolation.text() == "AccessViolation"@,
        TxError::AuthFailed.text() == "AuthFailed"@,
        TxError::UnauthorizedIssuance.text() == "UnauthorizedIssuance"@,
        TxError::RevealMismatch.text() == "RevealMismatch"@,
        TxError::Overflow.text() == "Overflow"@,
{
}

} // verus!
