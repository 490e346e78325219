//! The chat bot's decisions: which messages to learn from and answer, which
//! command was called, what the status line and a reply may hold.
use vstd::prelude::*;
use vstd::string::StringExecFns;

use crate::reply::MAX_REPLY_UNITS;
use crate::text::{chars_of, push_char, utf16_len, utf16_shorter_than};

verus! {

/// What to do with a chat message.
pub struct MessagePlan {
    /// Learn the message's words.
    pub learn: bool,
    /// Try to answer it.
    pub reply: bool,
    /// Answer it as a reply to the message (not to the bot's own).
    pub quote: bool,
}

/// Decides what to do with a message: only ordinary messages posted in a
/// server, and not only visible to one user, are considered; the bot learns
/// from those of others, and answers in its reply channels.
pub fn plan_message(
    is_normal: bool,
    is_ephemeral: bool,
    is_dm: bool,
    is_self: bool,
    in_reply_channel: bool,
) -> (p: MessagePlan)
    ensures
        p.learn == (is_normal && !is_ephemeral && !is_dm && !is_self),
        p.reply == (is_normal && !is_ephemeral && !is_dm && in_reply_channel),
        p.quote == !is_self,
{
    let considered = is_normal && !is_ephemeral && !is_dm;
    MessagePlan { learn: considered && !is_self, reply: considered && in_reply_channel, quote: !is_self }
}

/// The commands the bot answers.
#[derive(Debug, Clone, Copy, PartialEq, Eq)]
pub enum BotCommand {
    Markov,
    Weights,
    Forget,
    DumpChain,
    LoadChain,
}

impl BotCommand {
    /// Whether only an owner of the bot may call the command: forgetting a
    /// word, dumping and loading the brain.
    pub fn owner_only(&self) -> (r: bool)
        ensures
            r == (*self is Forget || *self is DumpChain || *self is LoadChain),
    {
        match self {
            BotCommand::Markov | BotCommand::Weights => false,
            BotCommand::Forget | BotCommand::DumpChain | BotCommand::LoadChain => true,
        }
    }
}

/// Whether `caller` may run `command`: anyone may run the open commands, and
/// only one of `owners` the owner-only ones.
pub fn may_run(command: BotCommand, caller: u64, owners: &Vec<u64>) -> (r: bool)
    ensures
        r == (!(command is Forget || command is DumpChain || command is LoadChain)
            || owners@.contains(caller)),
{
    if !command.owner_only() {
        return true;
    }
    let mut i: usize = 0;
    while i < owners.len()
        invariant
            i <= owners.len(),
            forall|j: int| 0 <= j < i ==> owners@[j] != caller,
        decreases owners.len() - i,
    {
        if owners[i] == caller {
            assert(owners@[i as int] == caller);
            return true;
        }
        i += 1;
    }
    false
}

fn chars_equal(a: &Vec<char>, b: &Vec<char>) -> (r: bool)
    ensures
        r == (a@ == b@),
{
    if a.len() != b.len() {
        return false;
    }
    let mut i: usize = 0;
    while i < a.len()
        invariant
            a.len() == b.len(),
            i <= a.len(),
            forall|j: int| 0 <= j < i ==> a@[j] == b@[j],
        decreases a.len() - i,
    {
        if a[i] != b[i] {
            return false;
        }
        i += 1;
    }
    assert(a@ =~= b@);
    true
}

/// The command called by `name`, if the bot has one of that name.
pub fn command_named(name: &str) -> (c: Option<BotCommand>)
    ensures
        c == if name@ == "markov"@ {
            Some(BotCommand::Markov)
        } else if name@ == "weights"@ {
            Some(BotCommand::Weights)
        } else if name@ == "forget"@ {
            Some(BotCommand::Forget)
        } else if name@ == "dump_chain"@ {
            Some(BotCommand::DumpChain)
        } else if name@ == "load_chain"@ {
            Some(BotCommand::LoadChain)
        } else {
            None
        },
{
    proof {
        reveal_strlit("markov");
        reveal_strlit("weights");
        reveal_strlit("forget");
        reveal_strlit("dump_chain");
        reveal_strlit("load_chain");
    }
    let n = chars_of(name);
    let markov = vec!['m', 'a', 'r', 'k', 'o', 'v'];
    let weights = vec!['w', 'e', 'i', 'g', 'h', 't', 's'];
    let forget = vec!['f', 'o', 'r', 'g', 'e', 't'];
    let dump = vec!['d', 'u', 'm', 'p', '_', 'c', 'h', 'a', 'i', 'n'];
    let load = vec!['l', 'o', 'a', 'd', '_', 'c', 'h', 'a', 'i', 'n'];
    assert(markov@ =~= "markov"@);
    assert(weights@ =~= "weights"@);
    assert(forget@ =~= "forget"@);
    assert(dump@ =~= "dump_chain"@);
    assert(load@ =~= "load_chain"@);
    if chars_equal(&n, &markov) {
        Some(BotCommand::Markov)
    } else if chars_equal(&n, &weights) {
        Some(BotCommand::Weights)
    } else if chars_equal(&n, &forget) {
        Some(BotCommand::Forget)
    } else if chars_equal(&n, &dump) {
        Some(BotCommand::DumpChain)
    } else if chars_equal(&n, &load) {
        Some(BotCommand::LoadChain)
    } else {
        None
    }
}

pub open spec fn digit_char(d: nat) -> char {
    ((48 + d) as u8) as char
}

/// The decimal digits of `n`, without leading zeros.
pub open spec fn decimal(n: nat) -> Seq<char>
    decreases n,
{
    if n < 10 {
        seq![digit_char(n)]
    } else {
        decimal(n / 10) + seq![digit_char(n % 10)]
    }
}

/// Appends the decimal digits of `n`.
fn push_decimal(s: &mut String, n: u64)
    ensures
        final(s)@ == old(s)@ + decimal(n as nat),
    decreases n,
{
    if n >= 10 {
        push_decimal(s, n / 10);
    }
    let d: u8 = (n % 10) as u8;
    let ghost before = s@;
    push_char(s, (48u8 + d) as char);
    assert(s@ =~= old(s)@ + decimal(n as nat));
}

/// The status line: how many words the bot knows.
pub fn status_text(words: usize) -> (s: String)
    ensures
        s@ == "I know "@ + decimal(words as nat) + " words!"@,
{
    let mut s = String::new();
    s.append("I know ");
    assert(s@ =~= "I know "@);
    push_decimal(&mut s, words as u64);
    s.append(" words!");
    s
}

/// Whether a text fits in one chat message (fewer than `MAX_REPLY_UNITS`
/// UTF-16 code units).
pub fn fits_in_message(text: &str) -> (r: bool)
    ensures
        r == (utf16_len(text@) < MAX_REPLY_UNITS),
{
    let chars = chars_of(text);
    utf16_shorter_than(&chars, MAX_REPLY_UNITS)
}

} // verus!
