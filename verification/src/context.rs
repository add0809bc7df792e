//! Context budgeting: which of the newest chat messages are sent to a
//! provider, within a message limit and a token budget.

use vstd::prelude::*;
use vstd::string::*;

use crate::model::{ChatMessage, Settings};

verus! {

/// Estimated tokens of one message: a quarter of its characters, rounded
/// down, and never less than one.
pub open spec fn token_estimate(message: ChatMessage) -> int {
    let quarter = message.content@.len() / 4;
    if quarter < 1 {
        1
    } else {
        quarter as int
    }
}

/// Estimated tokens of the `k` newest messages.
pub open spec fn newest_tokens(messages: Seq<ChatMessage>, k: nat) -> int
    decreases k,
{
    if k == 0 || k > messages.len() {
        0
    } else {
        token_estimate(messages[messages.len() - k]) + newest_tokens(messages, (k - 1) as nat)
    }
}

/// The `k` newest messages fit the budget; the newest message alone always
/// does, however long it is.
pub open spec fn fits_budget(messages: Seq<ChatMessage>, k: nat, budget: u64) -> bool {
    k <= 1 || newest_tokens(messages, k) <= budget
}

/// The number of messages taken into the context: at most `limit` and at most
/// all of them; the newest messages that fit the budget, and no fewer.
pub open spec fn is_context_size(messages: Seq<ChatMessage>, limit: nat, budget: u64, count: nat) -> bool {
    let most = if limit < messages.len() { limit } else { messages.len() };
    &&& count <= most
    &&& fits_budget(messages, count, budget)
    &&& (count == most || !fits_budget(messages, count + 1, budget))
}

/// More of the newest messages never take fewer tokens.
pub proof fn lemma_newest_tokens_monotone(messages: Seq<ChatMessage>, j: nat, k: nat)
    requires
        j <= k <= messages.len(),
    ensures
        newest_tokens(messages, j) <= newest_tokens(messages, k),
    decreases k - j,
{
    if j < k {
        lemma_newest_tokens_monotone(messages, j, (k - 1) as nat);
    }
}

/// The context size is determined by the messages, the limit and the budget:
/// no two sizes meet its definition.
pub proof fn lemma_context_size_unique(
    messages: Seq<ChatMessage>,
    limit: nat,
    budget: u64,
    a: nat,
    b: nat,
)
    requires
        is_context_size(messages, limit, budget, a),
        is_context_size(messages, limit, budget, b),
    ensures
        a == b,
{
    if a < b {
        lemma_newest_tokens_monotone(messages, a + 1, b);
    } else if b < a {
        lemma_newest_tokens_monotone(messages, b + 1, a);
    }
}

/// When there is a message and room for one, the newest message is always
/// sent, whatever its length.
pub proof fn lemma_context_keeps_newest(messages: Seq<ChatMessage>, limit: nat, budget: u64, count: nat)
    requires
        is_context_size(messages, limit, budget, count),
        messages.len() > 0,
        limit > 0,
    ensures
        count >= 1,
{
}

/// Older messages are dropped only when they would exceed the budget or the
/// limit: a context of two or more messages stays within the token budget,
/// and it never holds more messages than the limit.
pub proof fn lemma_context_bounded(messages: Seq<ChatMessage>, limit: nat, budget: u64, count: nat)
    requires
        is_context_size(messages, limit, budget, count),
    ensures
        count <= limit,
        count >= 2 ==> newest_tokens(messages, count) <= budget,
{
}

/// The messages to send: the newest messages that fit the settings' message
/// limit and token budget, oldest first.
pub fn budget_messages(messages: &[ChatMessage], settings: &Settings) -> (selected: Vec<ChatMessage>)
    ensures
        is_context_size(
            messages@,
            settings.context_message_limit as nat,
            settings.context_token_budget,
            selected@.len(),
        ),
        selected@ == messages@.subrange(messages@.len() - selected@.len(), messages@.len() as int),
{
    let n = messages.len();
    let limit = settings.context_message_limit;
    let budget = settings.context_token_budget;
    let most = if limit < n { limit } else { n };
    let mut count: usize = 0;
    let mut estimated: u64 = 0;
    while count < most
        invariant_except_break
            count <= most,
        invariant
            n == messages@.len(),
            most == (if limit < n { limit } else { n }),
            count <= most,
            estimated == newest_tokens(messages@, count as nat),
            fits_budget(messages@, count as nat, budget),
        ensures
            count <= most,
            count == most || !fits_budget(messages@, (count + 1) as nat, budget),
        decreases most - count,
    {
        let message = &messages[n - 1 - count];
        let chars = message.content.as_str().unicode_len();
        let quarter: u64 = (chars / 4) as u64;
        let tokens: u64 = if quarter < 1 { 1 } else { quarter };
        assert(tokens == token_estimate(messages@[n - (count + 1)]));
        assert(newest_tokens(messages@, (count + 1) as nat) == estimated + tokens);
        let over = match estimated.checked_add(tokens) {
            Some(total) => total > budget,
            None => true,
        };
        if over && count > 0 {
            break;
        }
        estimated = estimated + tokens;
        count = count + 1;
    }
    let start = n - count;
    let mut selected: Vec<ChatMessage> = Vec::new();
    let mut i = start;
    while i < n
        invariant
            n == messages@.len(),
            start <= i <= n,
            selected@ == messages@.subrange(start as int, i as int),
        decreases n - i,
    {
        selected.push(messages[i].duplicate());
        i = i + 1;
        assert(selected@ =~= messages@.subrange(start as int, i as int));
    }
    selected
}

} // verus!
