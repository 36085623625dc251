//! LunchFlow fetching: the order of requests and writes for an account.
use crate::util::{in_calendar, is_date_of, unix_to_date_str};
use vstd::prelude::*;

verus! {

/// Parameters of a request for transactions.
#[derive(Debug)]
pub struct TransactionsQuery {
    pub include_pending: bool,
    pub from: Option<String>,
    pub to: Option<String>,
}

/// The dates to ask for in a cycle that covers `[from_ts, now)`, pending
/// transactions among them.
pub fn transactions_query(from_ts: i64, now: i64) -> (r: TransactionsQuery)
    ensures
        r.include_pending,
        r.from matches Some(text) && is_date_of(
            if in_calendar(from_ts as int) {
                from_ts as int
            } else {
                0
            },
            text@,
        ),
        r.to matches Some(text) && is_date_of(
            if in_calendar(now as int) {
                now as int
            } else {
                0
            },
            text@,
        ),
{
    TransactionsQuery {
        include_pending: true,
        from: Some(unix_to_date_str(from_ts)),
        to: Some(unix_to_date_str(now)),
    }
}

/// What to do next for an account.
#[derive(Debug, Clone, Copy, PartialEq, Eq, Structural)]
pub enum LfAction {
    FetchBalance,
    /// Write the account, with or without a balance.
    StoreAccount { with_balance: bool },
    FetchTransactions,
    StoreTransactions,
    FetchHoldings,
    /// Replace all holdings of the account.
    ReplaceHoldings,
    /// The account is done.
    Finish,
    /// The cycle has failed.
    Fail,
}

/// How an action ended.
#[derive(Debug, Clone, Copy, PartialEq, Eq, Structural)]
pub enum LfEvent {
    /// A fetch or a write succeeded.
    Done,
    /// A fetch or a write failed.
    Failed,
    /// The account's provider does not support what was asked for.
    Unsupported,
}

/// The action that follows another. A fetch that fails is skipped, and only a write
/// that fails ends the cycle. Transactions and holdings are fetched for active
/// accounts only.
pub open spec fn action_after(active: bool, action: LfAction, event: LfEvent) -> LfAction {
    let done = event == LfEvent::Done;
    match action {
        LfAction::FetchBalance => LfAction::StoreAccount { with_balance: done },
        LfAction::StoreAccount { .. } => if !done {
            LfAction::Fail
        } else if active {
            LfAction::FetchTransactions
        } else {
            LfAction::Finish
        },
        LfAction::FetchTransactions => if done {
            LfAction::StoreTransactions
        } else {
            LfAction::FetchHoldings
        },
        LfAction::StoreTransactions => if done {
            LfAction::FetchHoldings
        } else {
            LfAction::Fail
        },
        LfAction::FetchHoldings => if done {
            LfAction::ReplaceHoldings
        } else {
            LfAction::Finish
        },
        LfAction::ReplaceHoldings => if done {
            LfAction::Finish
        } else {
            LfAction::Fail
        },
        LfAction::Finish => LfAction::Finish,
        LfAction::Fail => LfAction::Fail,
    }
}

/// The action that follows another.
pub fn next_action(active: bool, action: LfAction, event: LfEvent) -> (r: LfAction)
    ensures
        r == action_after(active, action, event),
{
    let done: bool = event == LfEvent::Done;
    match action {
        LfAction::FetchBalance => LfAction::StoreAccount { with_balance: done },
        LfAction::StoreAccount { .. } => if !done {
            LfAction::Fail
        } else if active {
            LfAction::FetchTransactions
        } else {
            LfAction::Finish
        },
        LfAction::FetchTransactions => if done {
            LfAction::StoreTransactions
        } else {
            LfAction::FetchHoldings
        },
        LfAction::StoreTransactions => if done {
            LfAction::FetchHoldings
        } else {
            LfAction::Fail
        },
        LfAction::FetchHoldings => if done {
            LfAction::ReplaceHoldings
        } else {
            LfAction::Finish
        },
        LfAction::ReplaceHoldings => if done {
            LfAction::Finish
        } else {
            LfAction::Fail
        },
        LfAction::Finish => LfAction::Finish,
        LfAction::Fail => LfAction::Fail,
    }
}

/// Whether the end of an action is worth a warning: it failed, and not because the
/// provider does not support holdings.
pub fn needs_warning(action: LfAction, event: LfEvent) -> (r: bool)
    ensures
        r == (event == LfEvent::Failed || (event == LfEvent::Unsupported && action
            != LfAction::FetchHoldings)),
{
    match event {
        LfEvent::Done => false,
        LfEvent::Failed => true,
        LfEvent::Unsupported => action != LfAction::FetchHoldings,
    }
}

/// The action reached from `FetchBalance` after the first `n` events.
pub open spec fn action_at(active: bool, events: Seq<LfEvent>, n: int) -> LfAction
    decreases n,
{
    if n <= 0 {
        LfAction::FetchBalance
    } else {
        action_after(active, action_at(active, events, n - 1), events[n - 1])
    }
}

/// Whether an action writes.
pub open spec fn is_write(action: LfAction) -> bool {
    action is StoreAccount || action is StoreTransactions || action is ReplaceHoldings
}

/// Every account is done, or has failed, after at most six events.
pub proof fn lemma_account_ends(active: bool, events: Seq<LfEvent>)
    requires
        events.len() >= 6,
    ensures
        action_at(active, events, 6) is Finish || action_at(active, events, 6) is Fail,
{
    reveal_with_fuel(action_at, 7);
}

/// The account itself is always written first, whether or not its balance could be
/// fetched.
pub proof fn lemma_account_stored_first(active: bool, events: Seq<LfEvent>)
    requires
        events.len() >= 1,
    ensures
        action_at(active, events, 1) == (LfAction::StoreAccount {
            with_balance: events[0] == LfEvent::Done,
        }),
{
    reveal_with_fuel(action_at, 2);
}

/// Only a write that does not succeed makes a cycle fail: fetches that fail do not.
pub proof fn lemma_only_writes_fail(active: bool, action: LfAction, event: LfEvent)
    requires
        action_after(active, action, event) is Fail,
    ensures
        action is Fail || (is_write(action) && event != LfEvent::Done),
{
}

/// Nothing is fetched for an account that is not active, beyond its balance.
pub proof fn lemma_inactive_skipped(events: Seq<LfEvent>, n: int)
    requires
        0 <= n <= events.len(),
    ensures
        ({
            let action = action_at(false, events, n);
            action is FetchBalance || action is StoreAccount || action is Finish || action is Fail
        }),
    decreases n,
{
    if n > 0 {
        lemma_inactive_skipped(events, n - 1);
    }
}

/// For an active account whose requests and writes all succeed, balance, account,
/// transactions and holdings are fetched and stored, in that order.
pub proof fn lemma_active_account_order(events: Seq<LfEvent>)
    requires
        events.len() >= 6,
        forall|i: int| 0 <= i < events.len() ==> #[trigger] events[i] == LfEvent::Done,
    ensures
        action_at(true, events, 0) == LfAction::FetchBalance,
        action_at(true, events, 1) == (LfAction::StoreAccount { with_balance: true }),
        action_at(true, events, 2) == LfAction::FetchTransactions,
        action_at(true, events, 3) == LfAction::StoreTransactions,
        action_at(true, events, 4) == LfAction::FetchHoldings,
        action_at(true, events, 5) == LfAction::ReplaceHoldings,
        action_at(true, events, 6) == LfAction::Finish,
{
    reveal_with_fuel(action_at, 7);
}

/// Whatever else of an active account cannot be fetched, its holdings are still asked
/// for; what was fetched is stored, and nothing is stored that was not.
pub proof fn lemma_failed_fetch_skips_its_store(active: bool, event: LfEvent)
    requires
        event != LfEvent::Done,
    ensures
        action_after(active, LfAction::FetchBalance, event) == (LfAction::StoreAccount {
            with_balance: false,
        }),
        action_after(active, LfAction::FetchTransactions, event) == LfAction::FetchHoldings,
        action_after(active, LfAction::FetchHoldings, event) == LfAction::Finish,
        action_after(active, LfAction::FetchBalance, LfEvent::Done) == (LfAction::StoreAccount {
            with_balance: true,
        }),
        action_after(active, LfAction::FetchTransactions, LfEvent::Done)
            == LfAction::StoreTransactions,
        action_after(active, LfAction::FetchHoldings, LfEvent::Done) == LfAction::ReplaceHoldings,
{
}

/// A write that does not succeed ends the cycle at once, whatever was to be written.
pub proof fn lemma_failed_write_ends(active: bool, with_balance: bool, event: LfEvent)
    requires
        event != LfEvent::Done,
    ensures
        action_after(active, LfAction::StoreAccount { with_balance }, event) is Fail,
        action_after(active, LfAction::StoreTransactions, event) is Fail,
        action_after(active, LfAction::ReplaceHoldings, event) is Fail,
{
}

/// A request asks for the days of its range, pending transactions included; only what
/// failed, and is not merely unsupported holdings, is worth a warning.
pub proof fn lemma_transactions_asked_for(
    from_ts: i64,
    now: i64,
    q: TransactionsQuery,
    action: LfAction,
    event: LfEvent,
    warn: bool,
)
    requires
        call_ensures(transactions_query, (from_ts, now), q),
        call_ensures(needs_warning, (action, event), warn),
    ensures
        q.include_pending && q.from is Some && q.to is Some,
        in_calendar(from_ts as int) ==> is_date_of(from_ts as int, q.from->0@),
        in_calendar(now as int) ==> is_date_of(now as int, q.to->0@),
        event is Done ==> !warn,
        event is Failed ==> warn,
        event is Unsupported ==> (warn <==> !(action is FetchHoldings)),
{
}

} // verus!
