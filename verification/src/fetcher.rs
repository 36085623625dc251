//! SimpleFIN fetching: windows, requests and the records a reply leads to.
use crate::amount::Amount;
use crate::db::{stored, upsert_transaction, FetchedHolding, FetchedTransaction, StoredTransaction, Write};
use crate::state::CachedAccount;
use vstd::prelude::*;

verus! {

/// Longest window of a single request. Bridges may reject or return incomplete
/// data for windows longer than 90 days.
pub const MAX_WINDOW_SECS: i64 = 7_776_000;

/// Number of windows that a range takes.
pub open spec fn window_count(start: int, end: int) -> int {
    if start < end {
        (end - start + MAX_WINDOW_SECS - 1) / MAX_WINDOW_SECS as int
    } else {
        0
    }
}

/// End of window `i` of a range.
pub open spec fn window_end(start: int, end: int, i: int) -> int {
    if start + (i + 1) * MAX_WINDOW_SECS < end {
        start + (i + 1) * MAX_WINDOW_SECS
    } else {
        end
    }
}

/// `windows` splits `[start, end)` into windows of `MAX_WINDOW_SECS`, the last
/// one cut off at the end.
pub open spec fn are_windows(start: int, end: int, windows: Seq<(i64, i64)>) -> bool {
    &&& windows.len() == window_count(start, end)
    &&& forall|i: int|
        0 <= i < windows.len() ==> (#[trigger] windows[i]).0 == start + i * MAX_WINDOW_SECS
            && windows[i].1 == window_end(start, end, i)
}

/// Splits `[start, end)` into a sequence of non-overlapping windows, each at most
/// 90 days long.
pub fn batch_windows(start: i64, end: i64) -> (r: Vec<(i64, i64)>)
    ensures
        are_windows(start as int, end as int, r@),
{
    let mut windows: Vec<(i64, i64)> = Vec::new();
    let mut cursor: i64 = start;
    while cursor < end
        invariant
            start < end ==> cursor <= end,
            start >= end ==> cursor == start && windows@.len() == 0,
            start < end ==> (cursor == end && windows@.len() == window_count(
                start as int,
                end as int,
            )) || (cursor < end && cursor == start + windows@.len() * MAX_WINDOW_SECS),
            forall|i: int|
                0 <= i < windows@.len() ==> (#[trigger] windows@[i]).0 == start + i * MAX_WINDOW_SECS
                    && windows@[i].1 == window_end(start as int, end as int, i),
        decreases end - cursor,
    {
        let ghost n = windows@.len() as int;
        let batch_end: i64 = if (end as i128) - (cursor as i128) > MAX_WINDOW_SECS as i128 {
            cursor + MAX_WINDOW_SECS
        } else {
            end
        };
        windows.push((cursor, batch_end));
        proof {
            let m = MAX_WINDOW_SECS as int;
            assert((n + 1) * m == n * m + m) by (nonlinear_arith);
            if batch_end == end {
                assert(n * m < end - start <= n * m + m);
                assert((end - start + m - 1) / m == n + 1) by (nonlinear_arith)
                    requires
                        m > 0,
                        n * m < end - start <= n * m + m,
                ;
            }
        }
        cursor = batch_end;
    }
    windows
}

/// The windows of a range follow one another without a gap, from its start to its
/// end, and none is empty or longer than 90 days.
pub proof fn lemma_windows_follow(start: int, end: int, windows: Seq<(i64, i64)>)
    requires
        are_windows(start, end, windows),
    ensures
        windows.len() == 0 <==> start >= end,
        windows.len() > 0 ==> windows[0].0 == start && windows.last().1 == end,
        forall|i: int|
            0 <= i < windows.len() ==> 0 < (#[trigger] windows[i]).1 - windows[i].0
                <= MAX_WINDOW_SECS,
        forall|i: int, j: int|
            0 <= i && j == i + 1 && j < windows.len() ==> (#[trigger] windows[i]).1 == (
            #[trigger] windows[j]).0,
{
    let m = MAX_WINDOW_SECS as int;
    let n = windows.len() as int;
    if start < end {
        assert(n >= 1 && (n - 1) * m < end - start <= n * m) by (nonlinear_arith)
            requires
                m > 0,
                end > start,
                n == (end - start + m - 1) / m,
        ;
        assert forall|i: int| 0 <= i < n implies {
            &&& 0 < (#[trigger] windows[i]).1 - windows[i].0 <= MAX_WINDOW_SECS
            &&& i < n - 1 ==> windows[i].1 == start + (i + 1) * m
        } by {
            assert((i + 1) * m == i * m + m) by (nonlinear_arith);
            assert(i <= n - 1 ==> i * m <= (n - 1) * m) by (nonlinear_arith)
                requires
                    m > 0,
            ;
            assert(i + 1 <= n - 1 ==> (i + 1) * m <= (n - 1) * m) by (nonlinear_arith)
                requires
                    m > 0,
            ;
        }
        assert(windows[0].0 == start + 0 * m);
        assert(windows[n - 1].1 == end);
    }
}

/// Every moment of a range lies in exactly one of its windows.
pub proof fn lemma_windows_cover(start: int, end: int, windows: Seq<(i64, i64)>, t: int)
    requires
        are_windows(start, end, windows),
        start <= t < end,
    ensures
        exists|i: int|
            0 <= i < windows.len() && (#[trigger] windows[i]).0 <= t < windows[i].1 && forall|j: int|
                0 <= j < windows.len() && j != i ==> !((#[trigger] windows[j]).0 <= t
                    < windows[j].1),
{
    let m = MAX_WINDOW_SECS as int;
    let n = windows.len() as int;
    let i = (t - start) / m;
    assert(i * m <= t - start < i * m + m && 0 <= i) by (nonlinear_arith)
        requires
            m > 0,
            t >= start,
            i == (t - start) / m,
    ;
    assert((i + 1) * m == i * m + m) by (nonlinear_arith);
    assert(end - start <= n * m) by (nonlinear_arith)
        requires
            m > 0,
            end > start,
            n == (end - start + m - 1) / m,
    ;
    assert(i < n) by (nonlinear_arith)
        requires
            m > 0,
            i * m < n * m,
    ;
    assert(windows[i].0 <= t < windows[i].1);
    assert forall|j: int| 0 <= j < n && j != i implies !((#[trigger] windows[j]).0 <= t
        < windows[j].1) by {
        assert((j + 1) * m == j * m + m) by (nonlinear_arith);
        if j < i {
            assert((j + 1) * m <= i * m) by (nonlinear_arith)
                requires
                    m > 0,
                    j + 1 <= i,
            ;
        } else {
            assert((i + 1) * m <= j * m) by (nonlinear_arith)
                requires
                    m > 0,
                    i + 1 <= j,
            ;
        }
    }
}

// ---------------------------------------------------------------------------
// Requests
// ---------------------------------------------------------------------------

/// Parameters of a request for accounts.
#[derive(Debug)]
pub struct AccountsQuery {
    pub start_date: Option<i64>,
    pub end_date: Option<i64>,
    pub pending: bool,
    /// Restricts the request to these accounts; all where empty.
    pub accounts: Vec<String>,
    pub balances_only: bool,
}

/// The request for a window: all accounts with their settled transactions.
pub fn accounts_query(start_ts: i64, end_ts: i64) -> (r: AccountsQuery)
    ensures
        r.start_date == Some(start_ts),
        r.end_date == Some(end_ts),
        !r.pending,
        r.accounts@.len() == 0,
        !r.balances_only,
{
    AccountsQuery {
        start_date: Some(start_ts),
        end_date: Some(end_ts),
        pending: false,
        accounts: Vec::new(),
        balances_only: false,
    }
}

/// How to come by the URL under which the bridge is reached.
#[derive(Debug)]
pub enum AccessPlan {
    /// Use a URL that was claimed before.
    Use(String),
    /// Claim a URL with a setup token.
    Claim(String),
    /// There is neither; the text says what to do.
    Missing(String),
}

/// Decides how to come by the access URL: a stored one is preferred, and a setup
/// token is spent only where none is stored.
pub fn resolve_access_url(stored_url: Option<String>, setup_token: Option<String>) -> (r: AccessPlan)
    ensures
        match (stored_url, setup_token) {
            (Some(url), _) => r == AccessPlan::Use(url),
            (None, Some(token)) => r == AccessPlan::Claim(token),
            (None, None) => r matches AccessPlan::Missing(text) && text@
                == "No access URL in database and SIMPLEFIN_SETUP_TOKEN not set. Set SIMPLEFIN_SETUP_TOKEN to the token from your SimpleFIN bridge."@,
        },
{
    match stored_url {
        Some(url) => AccessPlan::Use(url),
        None => match setup_token {
            Some(token) => AccessPlan::Claim(token),
            None => AccessPlan::Missing(
                "No access URL in database and SIMPLEFIN_SETUP_TOKEN not set. Set SIMPLEFIN_SETUP_TOKEN to the token from your SimpleFIN bridge.".to_owned(),
            ),
        },
    }
}

// ---------------------------------------------------------------------------
// Replies
// ---------------------------------------------------------------------------

/// An account as the SimpleFIN bridge reports it.
#[derive(Debug)]
pub struct FetchedAccount {
    pub id: String,
    pub name: String,
    pub currency: String,
    pub balance: Amount,
    pub balance_date: i64,
    pub available_balance: Option<Amount>,
    pub conn_id: Option<String>,
    pub transactions: Option<Vec<FetchedTransaction>>,
    pub holdings: Vec<FetchedHolding>,
}

/// The snapshot of a reported account.
pub open spec fn cached(account: FetchedAccount) -> CachedAccount {
    CachedAccount {
        id: account.id,
        name: account.name,
        currency: account.currency,
        balance: account.balance,
        balance_date: account.balance_date,
        available_balance: account.available_balance,
        conn_id: account.conn_id,
    }
}

/// The snapshot of a reported account.
pub fn sfin_account_to_cached(account: &FetchedAccount) -> (r: CachedAccount)
    ensures
        r == cached(*account),
{
    CachedAccount {
        id: account.id.clone(),
        name: account.name.clone(),
        currency: account.currency.clone(),
        balance: account.balance.clone(),
        balance_date: account.balance_date,
        available_balance: account.available_balance.clone(),
        conn_id: account.conn_id.clone(),
    }
}

/// What the reply to a request leads to.
#[derive(Debug)]
pub struct Ingest {
    /// Records to write, in order.
    pub writes: Vec<Write>,
    /// The accounts to hold in memory.
    pub accounts: Vec<CachedAccount>,
}

/// The transactions that an account is reported with.
pub open spec fn reported(account: FetchedAccount) -> Seq<FetchedTransaction> {
    match account.transactions {
        Some(list) => list@,
        None => Seq::empty(),
    }
}

/// The records to write for an account: the account, its transactions, its
/// holdings.
pub open spec fn account_writes(account: FetchedAccount) -> Seq<Write> {
    seq![Write::Account(cached(account))] + Seq::new(
        reported(account).len(),
        |i: int| Write::Transaction(stored(account.id, reported(account)[i])),
    ) + Seq::new(
        account.holdings@.len(),
        |i: int| Write::Holding { account_id: account.id, holding: account.holdings@[i] },
    )
}

/// The records to write for the first `n` accounts.
pub open spec fn writes_for(accounts: Seq<FetchedAccount>, n: int) -> Seq<Write>
    decreases n,
{
    if n <= 0 {
        Seq::empty()
    } else {
        writes_for(accounts, n - 1) + account_writes(accounts[n - 1])
    }
}

fn push_account(account: &FetchedAccount, writes: &mut Vec<Write>)
    ensures
        final(writes)@ == old(writes)@ + account_writes(*account),
{
    let ghost before = writes@;
    let ghost id = account.id;
    writes.push(Write::Account(sfin_account_to_cached(account)));
    let ghost head = before + seq![Write::Account(cached(*account))];
    assert(writes@ =~= head);
    let ghost txns = reported(*account);
    let ghost txn_writes = Seq::new(txns.len(), |i: int| Write::Transaction(stored(id, txns[i])));
    match &account.transactions {
        Some(list) => {
            let mut i: usize = 0;
            assert(head =~= head + txn_writes.take(0));
            while i < list.len()
                invariant
                    txns == list@,
                    id == account.id,
                    i <= list@.len(),
                    txn_writes == Seq::new(
                        txns.len(),
                        |i: int| Write::Transaction(stored(id, txns[i])),
                    ),
                    writes@ == head + txn_writes.take(i as int),
                decreases list@.len() - i,
            {
                writes.push(Write::Transaction(upsert_transaction(&account.id, &list[i])));
                i = i + 1;
                assert(writes@ =~= head + txn_writes.take(i as int));
            }
            assert(txn_writes.take(i as int) =~= txn_writes);
        },
        None => {
            assert(head =~= head + txn_writes);
        },
    }
    let ghost body = head + txn_writes;
    let ghost holdings = account.holdings@;
    let ghost holding_writes = Seq::new(
        holdings.len(),
        |i: int| Write::Holding { account_id: id, holding: holdings[i] },
    );
    let mut i: usize = 0;
    assert(body =~= body + holding_writes.take(0));
    while i < account.holdings.len()
        invariant
            holdings == account.holdings@,
            id == account.id,
            i <= holdings.len(),
            holding_writes == Seq::new(
                holdings.len(),
                |i: int| Write::Holding { account_id: id, holding: holdings[i] },
            ),
            writes@ == body + holding_writes.take(i as int),
        decreases holdings.len() - i,
    {
        writes.push(
            Write::Holding { account_id: account.id.clone(), holding: account.holdings[i].clone() },
        );
        i = i + 1;
        assert(writes@ =~= body + holding_writes.take(i as int));
    }
    assert(holding_writes.take(i as int) =~= holding_writes);
    assert(writes@ =~= before + account_writes(*account));
}

/// The records to write for reported accounts, in the order in which they are
/// reported, and the snapshots that replace those in memory.
pub fn ingest(accounts: &Vec<FetchedAccount>) -> (r: Ingest)
    ensures
        r.writes@ == writes_for(accounts@, accounts@.len() as int),
        r.accounts@ == accounts@.map_values(|a: FetchedAccount| cached(a)),
{
    let mut writes: Vec<Write> = Vec::new();
    let mut snapshots: Vec<CachedAccount> = Vec::new();
    let mut i: usize = 0;
    while i < accounts.len()
        invariant
            i <= accounts@.len(),
            writes@ == writes_for(accounts@, i as int),
            snapshots@.len() == i,
            forall|k: int| 0 <= k < i ==> #[trigger] snapshots@[k] == cached(accounts@[k]),
        decreases accounts@.len() - i,
    {
        push_account(&accounts[i], &mut writes);
        snapshots.push(sfin_account_to_cached(&accounts[i]));
        i = i + 1;
    }
    assert(snapshots@ =~= accounts@.map_values(|a: FetchedAccount| cached(a)));
    Ingest { writes, accounts: snapshots }
}

/// Every reported transaction is written, for the account it was reported with.
pub proof fn lemma_transactions_written(accounts: Seq<FetchedAccount>, n: int, a: int, t: int)
    requires
        0 <= a < n <= accounts.len(),
        0 <= t < reported(accounts[a]).len(),
    ensures
        writes_for(accounts, n).contains(
            Write::Transaction(stored(accounts[a].id, reported(accounts[a])[t])),
        ),
    decreases n,
{
    let w = Write::Transaction(stored(accounts[a].id, reported(accounts[a])[t]));
    let before = writes_for(accounts, n - 1);
    let own = account_writes(accounts[n - 1]);
    let all = writes_for(accounts, n);
    if a == n - 1 {
        assert(own[1 + t] == w);
        assert(all[before.len() + 1 + t] == w);
    } else {
        lemma_transactions_written(accounts, n - 1, a, t);
        let i = choose|i: int| 0 <= i < before.len() && before[i] == w;
        assert(all[i] == w);
    }
}

/// What identifies a stored record: its kind and its id.
pub enum RecordKey {
    Account(Seq<char>),
    Transaction(Seq<char>),
    Holding(Seq<char>),
}

/// The key of the record that is written.
pub open spec fn key_of(write: Write) -> RecordKey {
    match write {
        Write::Account(account) => RecordKey::Account(account.id@),
        Write::Transaction(txn) => RecordKey::Transaction(txn.id@),
        Write::Holding { holding, .. } => RecordKey::Holding(holding.id@),
    }
}

/// What is stored where `write` meets a record of the same key: the new values, with
/// the account that the record was first stored for.
pub open spec fn kept(old: Write, write: Write) -> Write {
    match (old, write) {
        (Write::Transaction(before), Write::Transaction(txn)) => Write::Transaction(
            StoredTransaction { account_id: before.account_id, ..txn },
        ),
        (
            Write::Holding { account_id, holding: _ },
            Write::Holding { account_id: _, holding },
        ) => Write::Holding { account_id, holding },
        (_, write) => write,
    }
}

/// Each record is stored under its own key.
pub open spec fn is_keyed(table: Map<RecordKey, Write>) -> bool {
    forall|key: RecordKey| #[trigger] table.dom().contains(key) ==> key_of(table[key]) == key
}

/// The stored records, by key, after one write.
pub open spec fn record_after(table: Map<RecordKey, Write>, write: Write) -> Map<RecordKey, Write> {
    let key = key_of(write);
    if table.dom().contains(key) {
        table.insert(key, kept(table[key], write))
    } else {
        table.insert(key, write)
    }
}

/// The stored records, by key, after the first `n` of a list of writes.
pub open spec fn records_after(
    table: Map<RecordKey, Write>,
    writes: Seq<Write>,
    n: int,
) -> Map<RecordKey, Write>
    decreases n,
{
    if n <= 0 {
        table
    } else {
        record_after(records_after(table, writes, n - 1), writes[n - 1])
    }
}

/// Position of the last of the first `n` writes with the given key, -1 if none has
/// it.
pub open spec fn last_write(writes: Seq<Write>, n: int, key: RecordKey) -> int
    decreases n,
{
    if n <= 0 {
        -1
    } else if key_of(writes[n - 1]) == key {
        n - 1
    } else {
        last_write(writes, n - 1, key)
    }
}

/// After a list of writes there is one record for each key that was stored before or
/// is written, and each still stands under its own key. A written record holds what
/// the last write of its key says; a record that was there before stays with its
/// account, and one that is not written is unchanged.
pub proof fn lemma_records_after(
    table: Map<RecordKey, Write>,
    writes: Seq<Write>,
    n: int,
    key: RecordKey,
)
    requires
        is_keyed(table),
        0 <= n <= writes.len(),
    ensures
        is_keyed(records_after(table, writes, n)),
        ({
            let m = last_write(writes, n, key);
            let after = records_after(table, writes, n);
            &&& -1 <= m < n || n == 0 && m == -1
            &&& after.dom().contains(key) <==> table.dom().contains(key) || 0 <= m
            &&& 0 <= m ==> key_of(writes[m]) == key && kept(after[key], writes[m]) == after[key]
            &&& 0 <= m && table.dom().contains(key) ==> after[key] == kept(table[key], writes[m])
            &&& m == -1 && table.dom().contains(key) ==> after[key] == table[key]
        }),
    decreases n,
{
    if n > 0 {
        lemma_records_after(table, writes, n - 1, key);
        let before = records_after(table, writes, n - 1);
        let write = writes[n - 1];
        lemma_records_after(table, writes, n - 1, key_of(write));
        assert forall|k: RecordKey| #[trigger]
            records_after(table, writes, n).dom().contains(k) implies key_of(
            records_after(table, writes, n)[k],
        ) == k by {
            if k != key_of(write) {
                assert(before.dom().contains(k));
            }
        }
    }
}

/// Writing the same reply again changes nothing, so overlapping windows create no
/// duplicates.
pub proof fn lemma_refetch_changes_nothing(table: Map<RecordKey, Write>, writes: Seq<Write>)
    requires
        is_keyed(table),
    ensures
        ({
            let n = writes.len() as int;
            let once = records_after(table, writes, n);
            records_after(once, writes, n) == once
        }),
{
    let n = writes.len() as int;
    let once = records_after(table, writes, n);
    let twice = records_after(once, writes, n);
    lemma_records_after(table, writes, n, RecordKey::Account(Seq::empty()));
    assert forall|key: RecordKey| twice.dom().contains(key) <==> once.dom().contains(key) by {
        lemma_records_after(table, writes, n, key);
        lemma_records_after(once, writes, n, key);
    }
    assert forall|key: RecordKey| once.dom().contains(key) implies twice[key] == once[key] by {
        lemma_records_after(table, writes, n, key);
        lemma_records_after(once, writes, n, key);
    }
    assert(twice.dom() =~= once.dom());
    assert(twice =~= once);
}

/// The snapshot of an account, which is also what is written for it, holds what was
/// reported.
pub proof fn lemma_snapshot_keeps_report(account: FetchedAccount)
    ensures
        ({
            let r = cached(account);
            &&& r.id@ == account.id@ && r.name@ == account.name@ && r.currency@
                == account.currency@
            &&& r.balance == account.balance && r.balance_date == account.balance_date
            &&& r.available_balance == account.available_balance && r.conn_id == account.conn_id
        }),
        account_writes(account).len() > 0 && account_writes(account)[0] == Write::Account(
            cached(account),
        ),
        account.transactions matches Some(list) ==> reported(account) == list@,
        account.transactions is None ==> reported(account).len() == 0,
{
}

/// Every account and every holding of a reply is written, the holding for the account it
/// was reported with and as it was reported.
pub proof fn lemma_accounts_and_holdings_written(
    accounts: Seq<FetchedAccount>,
    n: int,
    a: int,
    h: int,
)
    requires
        0 <= a < n <= accounts.len(),
    ensures
        writes_for(accounts, n).contains(Write::Account(cached(accounts[a]))),
        0 <= h < accounts[a].holdings@.len() ==> writes_for(accounts, n).contains(
            Write::Holding { account_id: accounts[a].id, holding: accounts[a].holdings@[h] },
        ),
    decreases n,
{
    let w = Write::Account(cached(accounts[a]));
    let x = Write::Holding { account_id: accounts[a].id, holding: accounts[a].holdings@[h] };
    let before = writes_for(accounts, n - 1);
    let own = account_writes(accounts[n - 1]);
    let all = writes_for(accounts, n);
    if a == n - 1 {
        assert(own[0] == w);
        assert(all[before.len() as int] == w);
        if 0 <= h < accounts[a].holdings@.len() {
            let k = 1 + reported(accounts[a]).len() + h;
            assert(own[k] == x);
            assert(all[before.len() + k] == x);
        }
    } else {
        lemma_accounts_and_holdings_written(accounts, n - 1, a, h);
        let i = choose|i: int| 0 <= i < before.len() && before[i] == w;
        assert(all[i] == w);
        if 0 <= h < accounts[a].holdings@.len() {
            let j = choose|j: int| 0 <= j < before.len() && before[j] == x;
            assert(all[j] == x);
        }
    }
}

/// One record is written for each account, transaction and holding of a reply.
pub proof fn lemma_writes_counted(accounts: Seq<FetchedAccount>, n: int)
    requires
        0 < n <= accounts.len(),
    ensures
        writes_for(accounts, n).len() == writes_for(accounts, n - 1).len() + 1 + (
        match accounts[n - 1].transactions {
            Some(list) => list@.len(),
            None => 0,
        }) + accounts[n - 1].holdings@.len(),
        writes_for(accounts, 0).len() == 0,
{
}

/// A record that is written again takes on the new values; a transaction or holding
/// stays with the account it was first stored for.
pub proof fn lemma_rewrite_keeps_account(
    before: StoredTransaction,
    txn: StoredTransaction,
    owner: String,
    old: FetchedHolding,
    other: String,
    holding: FetchedHolding,
    known: CachedAccount,
    account: CachedAccount,
)
    ensures
        kept(Write::Transaction(before), Write::Transaction(txn)) matches Write::Transaction(r)
            && r.account_id == before.account_id && r.id == txn.id && r.posted == txn.posted
            && r.amount == txn.amount && r.description == txn.description && r.payee == txn.payee
            && r.memo == txn.memo && r.transacted_at == txn.transacted_at && r.pending
            == txn.pending && r.extra == txn.extra,
        kept(
            Write::Holding { account_id: owner, holding: old },
            Write::Holding { account_id: other, holding },
        ) == (Write::Holding { account_id: owner, holding }),
        kept(Write::Account(known), Write::Account(account)) == Write::Account(account),
{
}

/// Each window but the last is ninety days long, and none is longer.
pub proof fn lemma_windows_of_ninety_days(start: int, end: int, windows: Seq<(i64, i64)>, i: int)
    requires
        are_windows(start, end, windows),
        0 <= i < windows.len(),
    ensures
        windows[i].1 - windows[i].0 <= 7_776_000,
        i + 1 < windows.len() ==> windows[i].1 - windows[i].0 == 7_776_000,
        windows[i].0 == start + i * 7_776_000,
{
    lemma_windows_follow(start, end, windows);
    if i + 1 < windows.len() {
        assert(windows[i].1 == windows[i + 1].0);
        assert((i + 1) * 7_776_000 == i * 7_776_000 + 7_776_000);
    }
}

/// A request asks for all accounts with the settled transactions of its window. A stored
/// access URL is used before a setup token is spent.
pub proof fn lemma_requests_made(
    start: i64,
    end: i64,
    q: AccountsQuery,
    url: Option<String>,
    token: Option<String>,
    plan: AccessPlan,
)
    requires
        call_ensures(accounts_query, (start, end), q),
        call_ensures(resolve_access_url, (url, token), plan),
    ensures
        q.start_date == Some(start) && q.end_date == Some(end),
        !q.pending && !q.balances_only && q.accounts@.len() == 0,
        url matches Some(u) ==> plan == AccessPlan::Use(u),
        url is None && token is Some ==> plan == AccessPlan::Claim(token->0),
        url is None && token is None ==> plan is Missing,
{
}

/// What is written of a reply, and what is held in memory after it: each reported
/// transaction is written with its reported posting time, under the account it was
/// reported with, and the accounts in memory are those of the reply, in its order.
pub proof fn lemma_reply_ingested(
    accounts: Vec<FetchedAccount>,
    r: Ingest,
    a: int,
    t: int,
) -> (k: int)
    requires
        call_ensures(ingest, (&accounts,), r),
        0 <= a < accounts@.len(),
        accounts@[a].transactions is Some,
        0 <= t < accounts@[a].transactions->0@.len(),
    ensures
        r.accounts@.len() == accounts@.len(),
        r.accounts@[a].id == accounts@[a].id,
        r.accounts@[a].balance == accounts@[a].balance,
        0 <= k < r.writes@.len(),
        r.writes@[k] matches Write::Transaction(record) && ({
            let txn = accounts@[a].transactions->0@[t];
            &&& record.id == txn.id && record.account_id == accounts@[a].id
            &&& record.posted == txn.posted && record.transacted_at == txn.transacted_at
            &&& record.amount == txn.amount && record.description == txn.description
            &&& record.payee == txn.payee && record.memo == txn.memo
            &&& record.pending == 1 <==> txn.pending == Some(true) || txn.posted == 0
        }),
{
    lemma_transactions_written(accounts@, accounts@.len() as int, a, t);
    let w = Write::Transaction(stored(accounts@[a].id, reported(accounts@[a])[t]));
    choose|k: int| 0 <= k < r.writes@.len() && r.writes@[k] == w
}

} // verus!
