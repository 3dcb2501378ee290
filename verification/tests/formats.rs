//! Digests, keys, texts and the command line, against fixed expected values.

use phi::account::{Account, AccountId, AuthPolicy};
use phi::bytes;
use phi::cli;
use phi::cli::{ChainCommand, Command};
use phi::crypto::{Keypair, PublicKey, Signature};
use phi::node;
use phi::node::{Node, NodeError};
use phi::receipt::TxError;
use phi::state::State;
use phi::text;
use phi::transaction::Transaction;

fn unhex(digits: &str) -> Vec<u8> {
    (0..digits.len() / 2)
        .map(|i| u8::from_str_radix(&digits[2 * i..2 * i + 2], 16).unwrap())
        .collect()
}

fn unhex_32(digits: &str) -> [u8; 32] {
    unhex(digits).try_into().unwrap()
}

fn args(words: &[&str]) -> Vec<String> {
    words.iter().map(|w| w.to_string()).collect()
}

fn usage_of(words: &[&str]) -> String {
    match cli::parse(&args(words)) {
        Err(NodeError::Usage(text)) => text,
        other => panic!("expected a usage error, got {other:?}"),
    }
}

fn number(n: u128) -> String {
    let mut s = String::new();
    text::push_decimal(&mut s, n);
    s
}

#[test]
fn blake3_of_known_inputs() {
    assert_eq!(
        phi::hash::Hash::of(b"").to_hex(),
        "0xaf1349b9f5f9a1a6a0404dea36dcc9499bcb25c9adc112b7cc9a93cae41f3262"
    );
    assert_eq!(
        phi::hash::Hash::of(b"abc").to_hex(),
        "0x6437b3ac38465133ffb63b75273a8db548c558465d79db03fd359c6cd5bd9d85"
    );
    assert_eq!(phi::hash::Hash::of(b"abc").to_short_hex(), "0x6437b3ac38465133…");
}

#[test]
fn tagged_digest_hashes_the_framed_preimage() {
    // tag length, tag, then each part behind its length, all little-endian.
    let mut preimage: Vec<u8> = Vec::new();
    preimage.extend_from_slice(&[3, 0, 0, 0]);
    preimage.extend_from_slice(b"tag");
    preimage.extend_from_slice(&[2, 0, 0, 0]);
    preimage.extend_from_slice(b"ab");
    preimage.extend_from_slice(&[0, 0, 0, 0]);
    assert_eq!(
        phi::hash::Hash::of_tagged(b"tag", &[&b"ab"[..], &b""[..]]),
        phi::hash::Hash::of(&preimage)
    );
}

#[test]
fn ed25519_known_answer() {
    let kp = Keypair::from_seed(unhex_32(
        "9d61b19deffd5a60ba844af492ec2cc44449c5697b326919703bac031cae7f60",
    ));
    assert_eq!(
        kp.public().0,
        unhex_32("d75a980182b10ab7d54bfed3c964073a0ee172f3daa62325af021a68f707511a")
    );
    let signature = kp.sign(b"");
    assert_eq!(
        signature.0.to_vec(),
        unhex(
            "e5564300c360ac729086e2cc806e828a84877f1eb8e5d974d873e06522490155\
             5fb8821590a33bacc61e39701cf9b46bd25bf5f0595bbe24655141438e7a100b"
        )
    );
    assert!(kp.public().verify(b"", &signature));
    assert!(!kp.public().verify(b"x", &signature));
    assert_eq!(kp.public().to_short_hex(), "pk:d75a980182b1…");
    assert_eq!(signature.to_short_hex(), "sig:e5564300c360…");
}

#[test]
fn malformed_keys_verify_nothing() {
    // Not a point of the curve.
    let off_curve = PublicKey([0x02; 32]);
    let signature = Keypair::from_label("signer").sign(b"m");
    assert!(!off_curve.verify(b"m", &signature));
    // The identity point, which strict verification refuses.
    let mut identity = [0u8; 32];
    identity[0] = 1;
    assert!(!PublicKey(identity).verify(b"m", &Signature([0u8; 64])));
}

#[test]
fn numbers_print_in_decimal() {
    assert_eq!(number(0), "0");
    assert_eq!(number(10), "10");
    assert_eq!(number(1_000_000), "1000000");
    assert_eq!(number(u128::MAX), "340282366920938463463374607431768211455");
}

#[test]
fn numbers_parse_like_the_standard_parser() {
    for s in [
        "0", "7", "007", "+7", "+", "-", "", "-1", "1_000", " 1", "1 ", "12a", "++1",
        "18446744073709551615", "18446744073709551616", "99999999999999999999", "٣",
    ] {
        assert_eq!(text::parse_number(s), s.parse::<u64>().ok(), "{s:?}");
    }
}

#[test]
fn little_endian_round_trips() {
    assert_eq!(bytes::u64_bytes(0x0102_0304_0506_0708), vec![8, 7, 6, 5, 4, 3, 2, 1]);
    assert_eq!(bytes::u32_bytes(0x0102_0304), vec![4, 3, 2, 1]);
    let mut out = vec![0xaau8];
    bytes::push_u64(&mut out, u64::MAX - 5);
    assert_eq!(bytes::read_u64(&out, 1), u64::MAX - 5);
    assert!(bytes::bytes_eq(b"ab", b"ab"));
    assert!(!bytes::bytes_eq(b"ab", b"abc"));
}

#[test]
fn policy_encodings_are_tagged() {
    let key = PublicKey([7; 32]);
    assert_eq!(AuthPolicy::Open.encode(), vec![0]);
    assert_eq!(AuthPolicy::SingleKey(key).encode()[0], 1);
    assert_eq!(AuthPolicy::SingleKey(key).encode().len(), 33);
    let threshold = AuthPolicy::Threshold { m: 2, keys: vec![key, key, key] }.encode();
    assert_eq!(&threshold[0..2], &[2, 2]);
    assert_eq!(threshold.len(), 1 + 1 + 4 + 3 * 32);
    assert_eq!(AuthPolicy::Unclaimed.encode(), vec![3]);
}

#[test]
fn account_encoding_lists_id_balance_nonce_policy() {
    let id = AccountId::from_label("alice");
    let mut account = Account::with_auth(id, 258, AuthPolicy::Unclaimed);
    account.nonce = 3;
    let mut expected: Vec<u8> = id.0.as_bytes().to_vec();
    expected.extend_from_slice(&[2, 1, 0, 0, 0, 0, 0, 0]);
    expected.extend_from_slice(&[3, 0, 0, 0, 0, 0, 0, 0]);
    expected.push(3);
    assert_eq!(account.encode(), expected);
}

#[test]
fn error_texts() {
    let cases = [
        (TxError::UnknownSender, "UnknownSender"),
        (TxError::BadNonce { expected: 3, got: 1 }, "BadNonce { expected: 3, got: 1 }"),
        (TxError::WrongChain { expected: 1, got: 9 }, "WrongChain { expected: 1, got: 9 }"),
        (TxError::TransactionTooLarge, "TransactionTooLarge"),
        (TxError::AccessViolation, "AccessViolation"),
        (TxError::AuthFailed, "AuthFailed"),
        (TxError::UnauthorizedIssuance, "UnauthorizedIssuance"),
        (TxError::RevealMismatch, "RevealMismatch"),
        (
            TxError::InsufficientBalance { have: 0, need: 12 },
            "InsufficientBalance { have: 0, need: 12 }",
        ),
        (TxError::Overflow, "Overflow"),
        (TxError::FeeTooLow { base_fee: 5, max_fee: 4 }, "FeeTooLow { base_fee: 5, max_fee: 4 }"),
    ];
    for (error, expected) in cases {
        assert_eq!(error.describe(), expected);
        assert_eq!(format!("{error:?}"), expected);
    }
}

#[test]
fn node_error_messages() {
    assert_eq!(
        NodeError::Rejected(TxError::AuthFailed).message(),
        "transaction rejected: AuthFailed"
    );
    assert_eq!(node::io_err("disk on fire".to_string()).message(), "io error: disk on fire");
    assert_eq!(
        NodeError::BadChainFile("x".to_string()).message(),
        "bad chain file: x"
    );
    assert_eq!(NodeError::Usage("try again".to_string()).message(), "try again");
}

#[test]
fn commands_parse() {
    assert!(matches!(cli::parse(&[]), Ok(Command::Help)));
    assert!(matches!(cli::parse(&args(&["nonsense"])), Ok(Command::Help)));
    assert!(matches!(
        cli::parse(&args(&["init"])),
        Ok(Command::Init { chain_id: 1, supply: 1_000_000 })
    ));
    assert!(matches!(
        cli::parse(&args(&["init", "--supply", "5", "--chain-id", "77"])),
        Ok(Command::Init { chain_id: 77, supply: 5 })
    ));
    // A flag that is no number, or has none behind it, falls back.
    assert!(matches!(
        cli::parse(&args(&["init", "--supply", "many", "--chain-id"])),
        Ok(Command::Init { chain_id: 1, supply: 1_000_000 })
    ));
    match cli::parse(&args(&["transfer", "a", "b", "12"])) {
        Ok(Command::Chain(ChainCommand::Transfer { from, to, amount })) => {
            assert_eq!((from.as_str(), to.as_str(), amount), ("a", "b", 12));
        }
        other => panic!("unexpected {other:?}"),
    }
    match cli::parse(&args(&["fund", "a", "3"])) {
        Ok(Command::Chain(command)) => assert!(command.writes()),
        other => panic!("unexpected {other:?}"),
    }
    match cli::parse(&args(&["state"])) {
        Ok(Command::Chain(command)) => assert!(!command.writes()),
        other => panic!("unexpected {other:?}"),
    }
}

#[test]
fn missing_arguments_are_usage_errors() {
    assert_eq!(usage_of(&["address"]), "usage: phi-node address <label>");
    assert_eq!(usage_of(&["balance"]), "usage: phi-node balance <label>");
    assert_eq!(usage_of(&["fund", "a"]), "usage: phi-node fund <label> <amount>");
    assert_eq!(
        usage_of(&["fund", "a", "lots"]),
        "usage: phi-node fund <label> <amount> (amount must be a number)"
    );
    assert_eq!(
        usage_of(&["transfer", "a", "b"]),
        "usage: phi-node transfer <from> <to> <amount>"
    );
}

#[test]
fn commands_report_what_they_did() {
    let mut chain = Node::init(7, 1_000);
    let fund = ChainCommand::Fund { label: "alice".to_string(), amount: 300 };
    assert_eq!(
        cli::perform(&fund, &mut chain, 5).unwrap(),
        vec!["funded alice with 300 figs (block #1); balance now 300".to_string()]
    );
    let transfer = ChainCommand::Transfer {
        from: "alice".to_string(),
        to: "bob".to_string(),
        amount: 100,
    };
    assert_eq!(
        cli::perform(&transfer, &mut chain, 6).unwrap(),
        vec!["transferred 100 figs alice -> bob (block #2); alice=200, bob=100".to_string()]
    );
    let balance = ChainCommand::Balance { label: "bob".to_string() };
    assert_eq!(cli::perform(&balance, &mut chain, 7).unwrap(), vec!["bob: 100 figs".to_string()]);
    let lines = cli::perform(&ChainCommand::State, &mut chain, 8).unwrap();
    assert_eq!(lines[0], "chain id:   7");
    assert_eq!(lines[1], "height:     2");
    assert_eq!(lines[2], "accounts:   3");
    assert_eq!(lines[3], "supply:     1000 figs");
    assert_eq!(lines[4], format!("state root: {}", chain.state_root().to_hex()));
    assert_eq!(cli::address_line("alice"), Node::address("alice").0.to_hex());
}

#[test]
fn failed_commands_change_nothing() {
    let mut chain = Node::init(1, 10);
    let before = chain.to_bytes();
    let too_much = ChainCommand::Fund { label: "alice".to_string(), amount: 11 };
    assert!(matches!(
        cli::perform(&too_much, &mut chain, 1),
        Err(NodeError::Rejected(TxError::InsufficientBalance { have: 10, need: 11 }))
    ));
    let stranger = ChainCommand::Transfer {
        from: "nobody".to_string(),
        to: "bob".to_string(),
        amount: 1,
    };
    assert!(matches!(cli::perform(&stranger, &mut chain, 1), Err(NodeError::Usage(_))));
    assert_eq!(chain.to_bytes(), before);
}

#[test]
fn init_refuses_an_existing_chain() {
    assert!(matches!(
        node::init_chain(true, "chain.phi", 1, 5),
        Err(NodeError::Usage(_))
    ));
    let fresh = node::init_chain(false, "chain.phi", 3, 5).unwrap();
    assert_eq!(fresh.chain_id(), 3);
    assert_eq!(fresh.total_supply(), 5);
    let lines = cli::init_report(3, 5, "chain.phi", &fresh);
    assert_eq!(lines[0], "initialized chain 3 at chain.phi");
    assert_eq!(lines[2], "treasury funded with 5 figs");
    assert_eq!(lines[3], format!("state root: {}", fresh.state_root().to_hex()));
}

#[test]
fn snapshots_restore_every_kind_of_account() {
    let mut state = State::new();
    state.set_chain_id(11);
    state.set_minter(Some(AccountId::from_label("issuer")));
    state.genesis_account(AccountId::from_label("open"), 1);
    let key = Keypair::from_label("k").public();
    state.genesis_account_with_auth(AccountId::from_label("one"), 2, AuthPolicy::SingleKey(key));
    state.genesis_account_with_auth(
        AccountId::from_label("many"),
        3,
        AuthPolicy::Threshold { m: 1, keys: vec![key, key] },
    );
    state.apply_tx(
        &Transaction::transfer(AccountId::from_label("open"), 0, AccountId::from_label("new"), 1)
            .with_chain_id(11),
    );
    let bytes = state.snapshot();
    let restored = State::from_snapshot(&bytes).unwrap();
    assert_eq!(restored.root(), state.root());
    assert_eq!(restored.chain_id(), 11);
    assert_eq!(restored.minter(), Some(AccountId::from_label("issuer")));
    assert_eq!(restored.account_count(), 4);
    // Canonical: the restored state gives the same bytes.
    assert_eq!(restored.snapshot(), bytes);
    // Cut short, or run long: refused.
    for n in 0..bytes.len() {
        assert!(State::from_snapshot(&bytes[..n]).is_none(), "prefix of {n}");
    }
    let mut longer = bytes.clone();
    longer.push(0);
    assert!(State::from_snapshot(&longer).is_none());
}

#[test]
fn a_restarted_node_goes_on_where_it_stopped() {
    let mut a = Node::init(4, 500);
    a.fund("alice", 50, 1).unwrap();
    let mut b = Node::from_bytes(&a.to_bytes()).unwrap();
    a.transfer("alice", "bob", 20, 2).unwrap();
    b.transfer("alice", "bob", 20, 2).unwrap();
    assert_eq!(a.parent, b.parent);
    assert_eq!(a.to_bytes(), b.to_bytes());
}
