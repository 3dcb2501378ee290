//! The command line of the single-node devnet: what the arguments ask for, what
//! is done to the chain, and what is reported.
//!
//! Reading the arguments, loading and saving the chain file, and printing are
//! the caller's.

use vstd::prelude::*;

use crate::hash;
use crate::node;
use crate::node::{Node, NodeError, NodeView, TREASURY};
use crate::text;

verus! {

/// A command that works on an existing chain.
#[derive(Debug, PartialEq, Eq)]
pub enum ChainCommand {
    /// Show an account balance.
    Balance { label: String },
    /// Move figs from the treasury to an account.
    Fund { label: String, amount: u64 },
    /// Move figs between accounts.
    Transfer { from: String, to: String, amount: u64 },
    /// Show the chain head and state root.
    State,
}

/// What the arguments ask for.
#[derive(Debug, PartialEq, Eq)]
pub enum Command {
    /// Create a new chain.
    Init { chain_id: u64, supply: u64 },
    /// Print an account address.
    Address { label: String },
    /// Work on the existing chain.
    Chain(ChainCommand),
    /// Explain the commands.
    Help,
}

/// The contents of a [`ChainCommand`].
#[verifier::ext_equal]
pub enum ChainCommandView {
    Balance { label: Seq<char> },
    Fund { label: Seq<char>, amount: u64 },
    Transfer { from: Seq<char>, to: Seq<char>, amount: u64 },
    State,
}

/// The contents of a [`Command`].
#[verifier::ext_equal]
pub enum CommandView {
    Init { chain_id: u64, supply: u64 },
    Address { label: Seq<char> },
    Chain(ChainCommandView),
    Help,
}

impl View for ChainCommand {
    type V = ChainCommandView;

    open spec fn view(&self) -> ChainCommandView {
        match self {
            ChainCommand::Balance { label } => ChainCommandView::Balance { label: label@ },
            ChainCommand::Fund { label, amount } => ChainCommandView::Fund {
                label: label@,
                amount: *amount,
            },
            ChainCommand::Transfer { from, to, amount } => ChainCommandView::Transfer {
                from: from@,
                to: to@,
                amount: *amount,
            },
            ChainCommand::State => ChainCommandView::State,
        }
    }
}

impl View for Command {
    type V = CommandView;

    open spec fn view(&self) -> CommandView {
        match self {
            Command::Init { chain_id, supply } => CommandView::Init {
                chain_id: *chain_id,
                supply: *supply,
            },
            Command::Address { label } => CommandView::Address { label: label@ },
            Command::Chain(c) => CommandView::Chain(c@),
            Command::Help => CommandView::Help,
        }
    }
}

/// The contents of a list of texts.
pub open spec fn text_views(texts: Seq<String>) -> Seq<Seq<char>> {
    Seq::new(texts.len(), |i: int| texts[i]@)
}

/// The number that follows the first occurrence of `name`.
pub open spec fn flag_value(args: Seq<Seq<char>>, name: Seq<char>) -> Option<u64>
    decreases args.len(),
{
    if args.len() == 0 {
        None
    } else if args[0] == name {
        if args.len() > 1 {
            text::number(args[1])
        } else {
            None
        }
    } else {
        flag_value(args.drop_first(), name)
    }
}

/// The number that follows a flag, or else the default.
pub open spec fn flag_or(args: Seq<Seq<char>>, name: Seq<char>, default: u64) -> u64 {
    match flag_value(args, name) {
        Some(n) => n,
        None => default,
    }
}

/// The message for a missing argument.
pub open spec fn usage_text(usage: Seq<char>) -> Seq<char> {
    "usage: phi-node "@ + usage
}

/// The message for an amount that is no number.
pub open spec fn bad_amount_text(usage: Seq<char>) -> Seq<char> {
    usage_text(usage) + " (amount must be a number)"@
}

/// The `i`-th argument, or how to use the command.
pub open spec fn positional_value(args: Seq<Seq<char>>, i: int, usage: Seq<char>) -> Result<
    Seq<char>,
    Seq<char>,
> {
    if i < args.len() {
        Ok(args[i])
    } else {
        Err(usage_text(usage))
    }
}

/// The `i`-th argument as a number, or how to use the command.
pub open spec fn amount_value(args: Seq<Seq<char>>, i: int, usage: Seq<char>) -> Result<
    u64,
    Seq<char>,
> {
    match positional_value(args, i, usage) {
        Err(e) => Err(e),
        Ok(s) => match text::number(s) {
            Some(n) => Ok(n),
            None => Err(bad_amount_text(usage)),
        },
    }
}

/// What the arguments ask for, or the message for the user.
pub open spec fn command_of(args: Seq<Seq<char>>) -> Result<CommandView, Seq<char>> {
    if args.len() == 0 {
        Ok(CommandView::Help)
    } else if args[0] == "init"@ {
        Ok(
            CommandView::Init {
                chain_id: flag_or(args, "--chain-id"@, 1),
                supply: flag_or(args, "--supply"@, 1_000_000),
            },
        )
    } else if args[0] == "address"@ {
        match positional_value(args, 1, "address <label>"@) {
            Ok(label) => Ok(CommandView::Address { label }),
            Err(e) => Err(e),
        }
    } else if args[0] == "balance"@ {
        match positional_value(args, 1, "balance <label>"@) {
            Ok(label) => Ok(CommandView::Chain(ChainCommandView::Balance { label })),
            Err(e) => Err(e),
        }
    } else if args[0] == "fund"@ {
        let usage = "fund <label> <amount>"@;
        match (positional_value(args, 1, usage), amount_value(args, 2, usage)) {
            (Err(e), _) => Err(e),
            (_, Err(e)) => Err(e),
            (Ok(label), Ok(amount)) => Ok(
                CommandView::Chain(ChainCommandView::Fund { label, amount }),
            ),
        }
    } else if args[0] == "transfer"@ {
        let usage = "transfer <from> <to> <amount>"@;
        match (
            positional_value(args, 1, usage),
            positional_value(args, 2, usage),
            amount_value(args, 3, usage),
        ) {
            (Err(e), _, _) => Err(e),
            (_, Err(e), _) => Err(e),
            (_, _, Err(e)) => Err(e),
            (Ok(from), Ok(to), Ok(amount)) => Ok(
                CommandView::Chain(ChainCommandView::Transfer { from, to, amount }),
            ),
        }
    } else if args[0] == "state"@ {
        Ok(CommandView::Chain(ChainCommandView::State))
    } else {
        Ok(CommandView::Help)
    }
}

/// Parse `--name <number>` anywhere in `args`.
fn flag(args: &[String], name: &str) -> (n: Option<u64>)
    ensures
        n == flag_value(text_views(args@), name@),
{
    let ghost all = text_views(args@);
    let mut i: usize = 0;
    assert(all.skip(0) =~= all);
    while i < args.len()
        invariant
            i <= args@.len(),
            all == text_views(args@),
            flag_value(all.skip(i as int), name@) == flag_value(all, name@),
        decreases args@.len() - i,
    {
        let ghost rest = all.skip(i as int);
        assert(rest[0] == args@[i as int]@);
        if text::same(args[i].as_str(), name) {
            if i + 1 < args.len() {
                assert(rest[1] == args@[i + 1]@);
                return text::parse_number(args[i + 1].as_str());
            }
            return None;
        }
        assert(rest.drop_first() =~= all.skip(i + 1));
        i += 1;
    }
    None
}

/// Whether an error is a usage error with the given text.
pub open spec fn is_usage(e: NodeError, text: Seq<char>) -> bool {
    e is Usage && e.text() == text
}

/// The `i`-th argument.
fn positional(args: &[String], i: usize, usage: &str) -> (r: Result<String, NodeError>)
    ensures
        match (r, positional_value(text_views(args@), i as int, usage@)) {
            (Ok(s), Ok(t)) => s@ == t,
            (Err(e), Err(t)) => is_usage(e, t),
            _ => false,
        },
{
    if i < args.len() {
        Ok(args[i].as_str().to_owned())
    } else {
        let mut text = "usage: phi-node ".to_owned();
        text.append(usage);
        Err(NodeError::Usage(text))
    }
}

/// The `i`-th argument as a number.
fn amount(args: &[String], i: usize, usage: &str) -> (r: Result<u64, NodeError>)
    ensures
        match (r, amount_value(text_views(args@), i as int, usage@)) {
            (Ok(n), Ok(m)) => n == m,
            (Err(e), Err(t)) => is_usage(e, t),
            _ => false,
        },
{
    match positional(args, i, usage) {
        Err(e) => Err(e),
        Ok(s) => {
            match text::parse_number(s.as_str()) {
                Some(n) => Ok(n),
                None => {
                    let mut text = "usage: phi-node ".to_owned();
                    text.append(usage);
                    text.append(" (amount must be a number)");
                    assert(text@ =~= bad_amount_text(usage@));
                    Err(NodeError::Usage(text))
                },
            }
        },
    }
}

fn number_or(n: Option<u64>, default: u64) -> (r: u64)
    ensures
        r == match n {
            Some(n) => n,
            None => default,
        },
{
    match n {
        Some(n) => n,
        None => default,
    }
}

/// Parse the arguments (without the program's name).
pub fn parse(args: &[String]) -> (r: Result<Command, NodeError>)
    ensures
        match (r, command_of(text_views(args@))) {
            (Ok(c), Ok(v)) => c@ == v,
            (Err(e), Err(t)) => is_usage(e, t),
            _ => false,
        },
{
    if args.len() == 0 {
        return Ok(Command::Help);
    }
    let cmd: &str = args[0].as_str();
    assert(text_views(args@)[0] == cmd@);
    if text::same(cmd, "init") {
        let chain_id: u64 = number_or(flag(args, "--chain-id"), 1);
        let supply: u64 = number_or(flag(args, "--supply"), 1_000_000);
        Ok(Command::Init { chain_id, supply })
    } else if text::same(cmd, "address") {
        match positional(args, 1, "address <label>") {
            Ok(label) => Ok(Command::Address { label }),
            Err(e) => Err(e),
        }
    } else if text::same(cmd, "balance") {
        match positional(args, 1, "balance <label>") {
            Ok(label) => Ok(Command::Chain(ChainCommand::Balance { label })),
            Err(e) => Err(e),
        }
    } else if text::same(cmd, "fund") {
        let usage: &str = "fund <label> <amount>";
        match positional(args, 1, usage) {
            Err(e) => Err(e),
            Ok(label) => match amount(args, 2, usage) {
                Err(e) => Err(e),
                Ok(amount) => Ok(Command::Chain(ChainCommand::Fund { label, amount })),
            },
        }
    } else if text::same(cmd, "transfer") {
        let usage: &str = "transfer <from> <to> <amount>";
        match positional(args, 1, usage) {
            Err(e) => Err(e),
            Ok(from) => match positional(args, 2, usage) {
                Err(e) => Err(e),
                Ok(to) => match amount(args, 3, usage) {
                    Err(e) => Err(e),
                    Ok(amount) => Ok(Command::Chain(ChainCommand::Transfer { from, to, amount })),
                },
            },
        }
    } else if text::same(cmd, "state") {
        Ok(Command::Chain(ChainCommand::State))
    } else {
        Ok(Command::Help)
    }
}

impl ChainCommandView {
    /// Whether the command makes a block.
    pub open spec fn writes(self) -> bool {
        self is Fund || self is Transfer
    }

    /// Whether the chain has room for the block that the command may make.
    pub open spec fn feasible(self, n: NodeView) -> bool {
        match self {
            ChainCommandView::Fund { .. } => n.can_spend(TREASURY@),
            ChainCommandView::Transfer { from, .. } => n.can_spend(from),
            _ => true,
        }
    }
}

/// Whether a transfer between two labels is afforded, and signed by a
/// signature that verifies.
pub open spec fn assured(n: NodeView, from: Seq<char>, to: Seq<char>, amount: u64) -> bool {
    let target = node::label_address(to);
    n.affords(from, target, amount) && n.plainly_signed(from, target, amount)
}

impl ChainCommand {
    /// Whether the command makes a block, so that the chain must be saved.
    pub fn writes(&self) -> (b: bool)
        ensures
            b == self@.writes(),
    {
        match self {
            ChainCommand::Fund { .. } | ChainCommand::Transfer { .. } => true,
            _ => false,
        }
    }

    /// Whether the chain has room for the block that the command may make.
    pub fn feasible(&self, node: &Node) -> (b: bool)
        ensures
            b == self@.feasible(node@),
    {
        match self {
            ChainCommand::Fund { .. } => node.can_spend(TREASURY),
            ChainCommand::Transfer { from, .. } => node.can_spend(from.as_str()),
            _ => true,
        }
    }
}

/// The display form of a hash.
pub open spec fn shown(h: hash::Hash) -> Seq<char> {
    "0x"@ + hash::hex_digits(h@)
}

/// The report of a balance.
pub open spec fn balance_line(label: Seq<char>, balance: u64) -> Seq<char> {
    label + ": "@ + text::decimal(balance as nat) + " figs"@
}

/// The report of a funding.
pub open spec fn fund_line(label: Seq<char>, amount: u64, after: NodeView) -> Seq<char> {
    "funded "@ + label + " with "@ + text::decimal(amount as nat) + " figs (block #"@
        + text::decimal(after.height as nat) + "); balance now "@ + text::decimal(
        after.state.balance(node::label_address(label)) as nat,
    )
}

/// The report of a transfer.
pub open spec fn transfer_line(
    from: Seq<char>,
    to: Seq<char>,
    amount: u64,
    after: NodeView,
) -> Seq<char> {
    "transferred "@ + text::decimal(amount as nat) + " figs "@ + from + " -> "@ + to + " (block #"@
        + text::decimal(after.height as nat) + "); "@ + from + "="@ + text::decimal(
        after.state.balance(node::label_address(from)) as nat,
    ) + ", "@ + to + "="@ + text::decimal(
        after.state.balance(node::label_address(to)) as nat,
    )
}

/// The report of the chain head.
pub open spec fn state_lines(n: NodeView) -> Seq<Seq<char>> {
    seq![
        "chain id:   "@ + text::decimal(n.state.chain_id as nat),
        "height:     "@ + text::decimal(n.height as nat),
        "accounts:   "@ + text::decimal(n.state.accounts.dom().len()),
        "supply:     "@ + text::decimal(n.state.supply() as nat) + " figs"@,
        "state root: "@ + shown(n.state.root()),
    ]
}

/// The report of a new chain.
pub open spec fn init_lines(
    chain_id: u64,
    supply: u64,
    place: Seq<char>,
    n: NodeView,
) -> Seq<Seq<char>> {
    seq![
        "initialized chain "@ + text::decimal(chain_id as nat) + " at "@ + place,
        "treasury address: "@ + shown(node::label_address(TREASURY@).0),
        "treasury funded with "@ + text::decimal(supply as nat) + " figs"@,
        "state root: "@ + shown(n.state.root()),
    ]
}

/// A label and a number.
fn numbered(label: &str, n: u128) -> (s: String)
    ensures
        s@ == label@ + text::decimal(n as nat),
{
    let mut s = label.to_owned();
    text::push_decimal(&mut s, n);
    s
}

/// A label and a hash.
fn hashed(label: &str, h: &hash::Hash) -> (s: String)
    ensures
        s@ == label@ + shown(*h),
{
    let mut s = label.to_owned();
    let hex = h.to_hex();
    s.append(hex.as_str());
    s
}

/// The address of a label, as text.
pub fn address_line(label: &str) -> (s: String)
    ensures
        s@ == shown(node::label_address(label@).0),
{
    Node::address(label).0.to_hex()
}

/// What is reported once a new chain has been saved at `place`.
pub fn init_report(chain_id: u64, supply: u64, place: &str, node: &Node) -> (lines: Vec<String>)
    ensures
        text_views(lines@) == init_lines(chain_id, supply, place@, node@),
{
    let mut lines: Vec<String> = Vec::new();
    let mut first = numbered("initialized chain ", chain_id as u128);
    first.append(" at ");
    first.append(place);
    lines.push(first);
    lines.push(hashed("treasury address: ", &Node::address(TREASURY).0));
    let mut third = numbered("treasury funded with ", supply as u128);
    third.append(" figs");
    lines.push(third);
    lines.push(hashed("state root: ", &node.state_root()));
    assert(text_views(lines@) =~= init_lines(chain_id, supply, place@, node@));
    lines
}

fn fund_report(label: &str, amount: u64, node: &Node) -> (s: String)
    ensures
        s@ == fund_line(label@, amount, node@),
{
    let mut s = "funded ".to_owned();
    s.append(label);
    s.append(" with ");
    text::push_decimal(&mut s, amount as u128);
    s.append(" figs (block #");
    text::push_decimal(&mut s, node.height as u128);
    s.append("); balance now ");
    text::push_decimal(&mut s, node.balance(label) as u128);
    assert(s@ =~= fund_line(label@, amount, node@));
    s
}

fn transfer_report(from: &str, to: &str, amount: u64, node: &Node) -> (s: String)
    ensures
        s@ == transfer_line(from@, to@, amount, node@),
{
    let mut s = "transferred ".to_owned();
    text::push_decimal(&mut s, amount as u128);
    s.append(" figs ");
    s.append(from);
    s.append(" -> ");
    s.append(to);
    s.append(" (block #");
    text::push_decimal(&mut s, node.height as u128);
    s.append("); ");
    s.append(from);
    s.append("=");
    text::push_decimal(&mut s, node.balance(from) as u128);
    s.append(", ");
    s.append(to);
    s.append("=");
    text::push_decimal(&mut s, node.balance(to) as u128);
    assert(s@ =~= transfer_line(from@, to@, amount, node@));
    s
}

fn state_report(node: &Node) -> (lines: Vec<String>)
    ensures
        text_views(lines@) == state_lines(node@),
{
    let mut lines: Vec<String> = Vec::new();
    lines.push(numbered("chain id:   ", node.chain_id() as u128));
    lines.push(numbered("height:     ", node.height as u128));
    lines.push(numbered("accounts:   ", node.account_count() as u128));
    let mut supply = numbered("supply:     ", node.total_supply());
    supply.append(" figs");
    lines.push(supply);
    lines.push(hashed("state root: ", &node.state_root()));
    assert(text_views(lines@) =~= state_lines(node@));
    lines
}

fn one_line(line: String) -> (lines: Vec<String>)
    ensures
        text_views(lines@) == seq![line@],
{
    let mut lines: Vec<String> = Vec::new();
    lines.push(line);
    assert(text_views(lines@) =~= seq![line@]);
    lines
}

/// Whether `r` and `after` are what moving figs gives: the failure of the
/// transfer, or the reported line.
pub open spec fn moves(
    before: NodeView,
    from: Seq<char>,
    to: Seq<char>,
    amount: u64,
    timestamp_ms: u64,
    r: Result<Vec<String>, NodeError>,
    line: Seq<char>,
    after: NodeView,
) -> bool {
    let target = node::label_address(to);
    match r {
        Err(e) => before.transfers(from, target, amount, timestamp_ms, Err(e), after),
        Ok(lines) => {
            &&& before.transfers(
                from,
                target,
                amount,
                timestamp_ms,
                Ok(before.state.receipt(before.transfer_tx(from, target, amount))),
                after,
            )
            &&& text_views(lines@) == seq![line]
        },
    }
}

/// Carry out a command on the chain and report the outcome. A command that
/// fails leaves the chain as it was; one that is assured does not fail.
pub fn perform(command: &ChainCommand, node: &mut Node, timestamp_ms: u64) -> (r: Result<
    Vec<String>,
    NodeError,
>)
    requires
        command@.feasible(old(node)@),
    ensures
        match command@ {
            ChainCommandView::Balance { label } => r is Ok && text_views(r->Ok_0@) == seq![
                balance_line(label, old(node)@.state.balance(node::label_address(label))),
            ] && final(node)@ == old(node)@,
            ChainCommandView::State => r is Ok && text_views(r->Ok_0@) == state_lines(old(node)@)
                && final(node)@ == old(node)@,
            ChainCommandView::Fund { label, amount } => moves(
                old(node)@,
                TREASURY@,
                label,
                amount,
                timestamp_ms,
                r,
                fund_line(label, amount, final(node)@),
                final(node)@,
            ) && (assured(old(node)@, TREASURY@, label, amount) ==> r is Ok),
            ChainCommandView::Transfer { from, to, amount } => moves(
                old(node)@,
                from,
                to,
                amount,
                timestamp_ms,
                r,
                transfer_line(from, to, amount, final(node)@),
                final(node)@,
            ) && (assured(old(node)@, from, to, amount) ==> r is Ok),
        },
{
    match command {
        ChainCommand::Balance { label } => {
            let mut line = label.as_str().to_owned();
            line.append(": ");
            text::push_decimal(&mut line, node.balance(label.as_str()) as u128);
            line.append(" figs");
            Ok(one_line(line))
        },
        ChainCommand::Fund { label, amount } => {
            match node.fund(label.as_str(), *amount, timestamp_ms) {
                Err(e) => Err(e),
                Ok(_) => Ok(one_line(fund_report(label.as_str(), *amount, node))),
            }
        },
        ChainCommand::Transfer { from, to, amount } => {
            match node.transfer(from.as_str(), to.as_str(), *amount, timestamp_ms) {
                Err(e) => Err(e),
                Ok(_) => Ok(
                    one_line(transfer_report(from.as_str(), to.as_str(), *amount, node)),
                ),
            }
        },
        ChainCommand::State => Ok(state_report(node)),
    }
}

/// A command that fails leaves the chain as it was.
pub proof fn law_failed_commands_change_nothing(
    before: NodeView,
    from: Seq<char>,
    to: Seq<char>,
    amount: u64,
    timestamp_ms: u64,
    error: NodeError,
    line: Seq<char>,
    after: NodeView,
)
    requires
        moves(before, from, to, amount, timestamp_ms, Err(error), line, after),
    ensures
        after == before,
{
}

/// The words of the command line differ from each other.
proof fn lemma_words_differ()
    ensures
        "init"@ != "address"@ && "init"@ != "balance"@ && "init"@ != "fund"@ && "init"@
            != "transfer"@ && "init"@ != "state"@,
        "address"@ != "balance"@ && "address"@ != "fund"@ && "address"@ != "transfer"@ && "address"@
            != "state"@,
        "balance"@ != "fund"@ && "balance"@ != "transfer"@ && "balance"@ != "state"@,
        "fund"@ != "transfer"@ && "fund"@ != "state"@,
        "transfer"@ != "state"@,
{
    reveal_strlit("init");
    reveal_strlit("address");
    reveal_strlit("balance");
    reveal_strlit("fund");
    reveal_strlit("transfer");
    reveal_strlit("state");
    assert("init"@[0] == 'i');
    assert("address"@[0] == 'a');
    assert("balance"@[0] == 'b');
    assert("fund"@[0] == 'f');
    assert("transfer"@[0] == 't');
    assert("state"@[0] == 's');
}

/// Funding takes a label and an amount, and moving figs takes two labels and an
/// amount, in that order. What lacks a word, or has no number for an amount, is a
/// usage error.
pub proof fn law_spending_commands_name_who_and_how_much(args: Seq<Seq<char>>)
    requires
        args.len() > 0,
    ensures
        args[0] == "fund"@ ==> match command_of(args) {
            Ok(c) => {
                &&& args.len() >= 3
                &&& c matches CommandView::Chain(ChainCommandView::Fund { label, amount }) && label
                    == args[1] && text::number(args[2]) == Some(amount)
            },
            Err(_) => args.len() < 3 || text::number(args[2]) is None,
        },
        args[0] == "transfer"@ ==> match command_of(args) {
            Ok(c) => {
                &&& args.len() >= 4
                &&& c matches CommandView::Chain(
                    ChainCommandView::Transfer { from, to, amount },
                ) && from == args[1] && to == args[2] && text::number(args[3]) == Some(amount)
            },
            Err(_) => args.len() < 4 || text::number(args[3]) is None,
        },
{
    lemma_words_differ();
}

/// Asking for a balance or an address takes a label; asking for the state takes
/// nothing.
pub proof fn law_asking_commands_name_whom(args: Seq<Seq<char>>)
    requires
        args.len() > 0,
    ensures
        args[0] == "balance"@ ==> match command_of(args) {
            Ok(c) => args.len() >= 2 && c == CommandView::Chain(
                ChainCommandView::Balance { label: args[1] },
            ),
            Err(_) => args.len() < 2,
        },
        args[0] == "address"@ ==> match command_of(args) {
            Ok(c) => args.len() >= 2 && c == (CommandView::Address { label: args[1] }),
            Err(_) => args.len() < 2,
        },
        args[0] == "state"@ ==> command_of(args) == Ok::<CommandView, Seq<char>>(
            CommandView::Chain(ChainCommandView::State),
        ),
{
    lemma_words_differ();
}

/// Nothing, or a word that is no command, asks for help.
pub proof fn law_anything_else_asks_for_help(args: Seq<Seq<char>>)
    requires
        args.len() > 0 ==> args[0] != "init"@ && args[0] != "address"@ && args[0] != "balance"@
            && args[0] != "fund"@ && args[0] != "transfer"@ && args[0] != "state"@,
    ensures
        command_of(args) == Ok::<CommandView, Seq<char>>(CommandView::Help),
{
}

/// A new chain gets the network id and the supply that the flags give, and else
/// network 1 with a million figs.
pub proof fn law_flags_set_up_the_chain(args: Seq<Seq<char>>)
    requires
        args.len() > 0,
        args[0] == "init"@,
    ensures
        command_of(args) matches Ok(CommandView::Init { chain_id, supply }) && {
            &&& chain_id == (if flag_value(args, "--chain-id"@) is Some {
                flag_value(args, "--chain-id"@)->0
            } else {
                1
            })
            &&& supply == (if flag_value(args, "--supply"@) is Some {
                flag_value(args, "--supply"@)->0
            } else {
                1_000_000
            })
        },
{
}

/// The value of a flag is the number behind its first mention.
pub proof fn law_flags_are_followed_by_their_value(
    args: Seq<Seq<char>>,
    name: Seq<char>,
    i: int,
)
    requires
        0 <= i <= args.len(),
        forall|j: int| 0 <= j < i ==> #[trigger] args[j] != name,
        i < args.len() ==> args[i] == name,
    ensures
        flag_value(args, name) == (if i + 1 < args.len() {
            text::number(args[i + 1])
        } else {
            None
        }),
    decreases args.len(),
{
    if i > 0 {
        let rest = args.drop_first();
        assert(args[0] != name);
        assert forall|j: int| 0 <= j < i - 1 implies #[trigger] rest[j] != name by {
            assert(args[j + 1] != name);
        }
        law_flags_are_followed_by_their_value(rest, name, i - 1);
    }
}

/// What the user is told: the balance of the label that was asked for, and after
/// a transfer the block and the balances of those who took part.
pub proof fn law_reports_tell_the_balances(
    from: Seq<char>,
    to: Seq<char>,
    amount: u64,
    after: NodeView,
)
    ensures
        ({
            let held = |label: Seq<char>|
                text::decimal(
                    if after.state.accounts.contains_key(node::label_address(label)) {
                        after.state.accounts[node::label_address(label)].balance as nat
                    } else {
                        0nat
                    },
                );
            &&& balance_line(to, after.state.balance(node::label_address(to))) == to + ": "@ + held(
                to,
            ) + " figs"@
            &&& fund_line(to, amount, after) == "funded "@ + to + " with "@ + text::decimal(
                amount as nat,
            ) + " figs (block #"@ + text::decimal(after.height as nat) + "); balance now "@ + held(
                to,
            )
            &&& transfer_line(from, to, amount, after) == "transferred "@ + text::decimal(
                amount as nat,
            ) + " figs "@ + from + " -> "@ + to + " (block #"@ + text::decimal(
                after.height as nat,
            ) + "); "@ + from + "="@ + held(from) + ", "@ + to + "="@ + held(to)
        }),
{
}

/// The state is told in five lines: network, height, accounts, supply and root.
pub proof fn law_state_reports_are_complete(n: NodeView)
    ensures
        state_lines(n).len() == 5,
        state_lines(n)[0] == "chain id:   "@ + text::decimal(n.state.chain_id as nat),
        state_lines(n)[1] == "height:     "@ + text::decimal(n.height as nat),
        state_lines(n)[2] == "accounts:   "@ + text::decimal(n.state.accounts.dom().len()),
        state_lines(n)[3] == "supply:     "@ + text::decimal(n.state.supply() as nat) + " figs"@,
        state_lines(n)[4] == "state root: "@ + ("0x"@ + hash::hex_digits(n.state.root()@)),
{
}

/// Only funding and moving figs makes a block; a successful one is told in one
/// line, and there is one more block.
pub proof fn law_successful_commands_make_one_block(
    command: ChainCommandView,
    before: NodeView,
    from: Seq<char>,
    to: Seq<char>,
    amount: u64,
    timestamp_ms: u64,
    lines: Vec<String>,
    line: Seq<char>,
    after: NodeView,
)
    requires
        before.can_spend(from),
        moves(before, from, to, amount, timestamp_ms, Ok(lines), line, after),
    ensures
        command.writes() <==> command is Fund || command is Transfer,
        lines@.len() == 1,
        lines@[0]@ == line,
        before.state.accounts.contains_key(node::label_address(from)),
        after.height == before.height + 1,
        node::label_address(to) != node::label_address(from) ==> after.state.balance(
            node::label_address(to),
        ) == before.state.balance(node::label_address(to)) + amount,
{
    let target = node::label_address(to);
    node::law_node_transfers_move_the_amount(
        before,
        from,
        target,
        amount,
        timestamp_ms,
        Ok(before.state.receipt(before.transfer_tx(from, target, amount))),
        after,
        target,
    );
    assert(text_views(lines@).len() == lines@.len());
    assert(text_views(lines@)[0] == line);
    assert(text_views(lines@)[0] == lines@[0]@);
}

/// A usage error shows how the command is used; one about an amount says so.
pub proof fn law_usage_errors_show_the_usage(usage: Seq<char>)
    ensures
        usage_text(usage) == "usage: phi-node "@ + usage,
        bad_amount_text(usage) == "usage: phi-node "@ + usage + " (amount must be a number)"@,
{
}

/// A new chain is reported with its network, its place, the treasury's address,
/// the supply and the root.
pub proof fn law_init_reports_are_complete(
    chain_id: u64,
    supply: u64,
    place: Seq<char>,
    n: NodeView,
)
    ensures
        ({
            let lines = init_lines(chain_id, supply, place, n);
            &&& lines.len() == 4
            &&& lines[0] == "initialized chain "@ + text::decimal(chain_id as nat) + " at "@ + place
            &&& lines[1] == "treasury address: "@ + ("0x"@ + hash::hex_digits(
                node::label_address(TREASURY@).0@,
            ))
            &&& lines[2] == "treasury funded with "@ + text::decimal(supply as nat) + " figs"@
            &&& lines[3] == "state root: "@ + ("0x"@ + hash::hex_digits(n.state.root()@))
        }),
{
}

/// A command that is cut short is answered with its usage, and so is one whose
/// amount is no number, with a remark.
pub proof fn law_incomplete_commands_show_their_usage(args: Seq<Seq<char>>)
    requires
        args.len() > 0,
    ensures
        args[0] == "address"@ && args.len() < 2 ==> command_of(args) == Err::<
            CommandView,
            Seq<char>,
        >("usage: phi-node "@ + "address <label>"@),
        args[0] == "balance"@ && args.len() < 2 ==> command_of(args) == Err::<
            CommandView,
            Seq<char>,
        >("usage: phi-node "@ + "balance <label>"@),
        args[0] == "fund"@ && args.len() < 3 ==> command_of(args) == Err::<CommandView, Seq<char>>(
            "usage: phi-node "@ + "fund <label> <amount>"@,
        ),
        args[0] == "fund"@ && args.len() >= 3 && text::number(args[2]) is None ==> command_of(args)
            == Err::<CommandView, Seq<char>>(
            "usage: phi-node "@ + "fund <label> <amount>"@ + " (amount must be a number)"@,
        ),
        args[0] == "transfer"@ && args.len() < 4 ==> command_of(args) == Err::<
            CommandView,
            Seq<char>,
        >("usage: phi-node "@ + "transfer <from> <to> <amount>"@),
        args[0] == "transfer"@ && args.len() >= 4 && text::number(args[3]) is None ==> command_of(
            args,
        ) == Err::<CommandView, Seq<char>>(
            "usage: phi-node "@ + "transfer <from> <to> <amount>"@ + " (amount must be a number)"@,
        ),
{
    lemma_words_differ();
}

/// A command that makes a block needs room for one, and a nonce of whoever
/// pays: the treasury for a funding, the sender for a transfer. The others need
/// nothing.
pub proof fn law_commands_need_room(c: ChainCommandView, n: NodeView)
    ensures
        c.feasible(n) <==> match c {
            ChainCommandView::Fund { .. } => n.height < u64::MAX && n.state.nonce(
                node::label_address("treasury"@),
            ) < u64::MAX,
            ChainCommandView::Transfer { from, .. } => n.height < u64::MAX && n.state.nonce(
                node::label_address(from),
            ) < u64::MAX,
            ChainCommandView::Balance { .. } => true,
            ChainCommandView::State => true,
        },
{
}

} // verus!
