//! Stored LunchFlow records.
use crate::double::Double;
use crate::text::{chars, digits, join, lemma_digits_read_back, u64_text};
use crate::util::{in_calendar, is_date_of, unix_to_date_str};
use vstd::prelude::*;

pub use crate::reconciler::db::{
    get_unified_transactions, get_user_account_rules, AccountMatchRow, LfTransactionView,
    SfinTransactionView, UnifiedTransaction, UserAccountRule, UserReconciliationAction,
};

verus! {

/// A LunchFlow transaction row read back from storage.
#[derive(Debug)]
pub struct LfTransactionRow {
    pub id: String,
    pub amount: Double,
    pub date: String,
    pub merchant: Option<String>,
    pub description: Option<String>,
    pub is_pending: bool,
}

/// Full LunchFlow account row, used for building FDX responses.
#[derive(Debug)]
pub struct LfAccountFull {
    pub id: i64,
    pub name: String,
    pub currency: Option<String>,
    pub balance: Option<Double>,
    pub fetched_at: i64,
}

/// `text` is the date of an optional bound: the given date where it is absent,
/// and 1970-01-01 where the calendar does not reach it.
pub open spec fn is_bound_date(bound: Option<i64>, absent: Seq<char>, text: Seq<char>) -> bool {
    match bound {
        Some(ts) => is_date_of(
            if in_calendar(ts as int) {
                ts as int
            } else {
                0
            },
            text,
        ),
        None => text == absent,
    }
}

/// The range of dates that a request asks for, open ends filled in.
pub fn date_bounds(start_ts: Option<i64>, end_ts: Option<i64>) -> (r: (String, String))
    ensures
        is_bound_date(start_ts, "0000-01-01"@, r.0@),
        is_bound_date(end_ts, "9999-12-31"@, r.1@),
{
    let from: String = match start_ts {
        Some(ts) => unix_to_date_str(ts),
        None => "0000-01-01".to_owned(),
    };
    let to: String = match end_ts {
        Some(ts) => unix_to_date_str(ts),
        None => "9999-12-31".to_owned(),
    };
    (from, to)
}

/// The id made up for a transaction that has none.
pub open spec fn pending_id(account_id: nat, date: Seq<char>) -> Seq<char> {
    "lf_pending_"@ + digits(account_id) + "_"@ + date
}

/// The id under which a reported transaction is stored. Pending transactions have
/// no id of their own; one is made up from account and date, so that repeated
/// fetches do not create duplicates.
pub fn stored_id(id: &Option<String>, account_id: u64, date: &str) -> (r: String)
    ensures
        r@ == (match id {
            Some(own) => own@,
            None => pending_id(account_id as nat, date@),
        }),
{
    match id {
        Some(own) => own.clone(),
        None => {
            let number: String = u64_text(account_id);
            let head: String = join("lf_pending_", number.as_str());
            let stem: String = join(head.as_str(), "_");
            join(stem.as_str(), date)
        },
    }
}

/// Ids made up for different accounts or different dates differ.
pub proof fn lemma_pending_ids_distinct(a: nat, d: Seq<char>, b: nat, e: Seq<char>)
    requires
        pending_id(a, d) == pending_id(b, e),
    ensures
        a == b,
        d == e,
{
    reveal_strlit("lf_pending_");
    reveal_strlit("_");
    lemma_digits_read_back(a);
    lemma_digits_read_back(b);
    let x = pending_id(a, d);
    let y = pending_id(b, e);
    let p = "lf_pending_"@.len() as int;
    let m = digits(a).len() as int;
    let n = digits(b).len() as int;
    assert("_"@[0] == '_');
    assert forall|i: int| 0 <= i < m implies x[p + i] == digits(a)[i] by {}
    assert forall|i: int| 0 <= i < n implies y[p + i] == digits(b)[i] by {}
    assert(x[p + m] == '_');
    assert(y[p + n] == '_');
    assert(m == n) by {
        if m < n {
            assert('0' <= digits(b)[m] <= '9');
        } else if n < m {
            assert('0' <= digits(a)[n] <= '9');
        }
    }
    assert(digits(a) =~= digits(b)) by {
        assert forall|i: int| 0 <= i < m implies digits(a)[i] == digits(b)[i] by {
            assert(x[p + i] == y[p + i]);
        }
    }
    assert(x.skip(p + m + 1) =~= d);
    assert(y.skip(p + n + 1) =~= e);
}

// ---------------------------------------------------------------------------
// Writing
// ---------------------------------------------------------------------------

/// A transaction as LunchFlow reports it.
#[derive(Debug)]
pub struct LfFetchedTransaction {
    /// Absent while pending.
    pub id: Option<String>,
    pub amount: Double,
    pub currency: String,
    /// `YYYY-MM-DD`.
    pub date: String,
    pub merchant: Option<String>,
    pub description: Option<String>,
    pub is_pending: bool,
}

/// The transaction record that is written, keyed by `id`. Where one of the same id
/// exists, it takes on the new values and stays with the account it was first stored
/// for.
#[derive(Debug)]
pub struct LfStoredTransaction {
    pub id: String,
    pub lf_account_id: i64,
    pub amount: Double,
    pub currency: String,
    pub date: String,
    pub merchant: Option<String>,
    pub description: Option<String>,
    /// 1 when pending, else 0.
    pub is_pending: i64,
}

/// What a stored transaction says.
pub struct LfRecord {
    pub id: Seq<char>,
    pub lf_account_id: i64,
    pub amount: Double,
    pub currency: Seq<char>,
    pub date: Seq<char>,
    pub merchant: Option<Seq<char>>,
    pub description: Option<Seq<char>>,
    pub is_pending: i64,
}

impl View for LfStoredTransaction {
    type V = LfRecord;

    open spec fn view(&self) -> LfRecord {
        LfRecord {
            id: self.id@,
            lf_account_id: self.lf_account_id,
            amount: self.amount,
            currency: self.currency@,
            date: self.date@,
            merchant: chars(self.merchant),
            description: chars(self.description),
            is_pending: self.is_pending,
        }
    }
}

/// The record of a transaction that is reported for an account.
pub open spec fn lf_record(account_id: u64, txn: LfFetchedTransaction) -> LfRecord {
    LfRecord {
        id: match txn.id {
            Some(own) => own@,
            None => pending_id(account_id as nat, txn.date@),
        },
        lf_account_id: account_id as i64,
        amount: txn.amount,
        currency: txn.currency@,
        date: txn.date@,
        merchant: chars(txn.merchant),
        description: chars(txn.description),
        is_pending: if txn.is_pending {
            1
        } else {
            0
        },
    }
}

/// The records of a reply, in its order.
pub open spec fn lf_records(account_id: u64, txns: Seq<LfFetchedTransaction>) -> Seq<LfRecord> {
    Seq::new(txns.len(), |i: int| lf_record(account_id, txns[i]))
}

/// The records to write for the transactions that are reported for an account.
pub fn upsert_lf_transactions(account_id: u64, txns: &Vec<LfFetchedTransaction>) -> (r: Vec<
    LfStoredTransaction,
>)
    ensures
        r@.len() == txns@.len(),
        forall|i: int|
            0 <= i < r@.len() ==> (#[trigger] r@[i])@ == lf_record(account_id, txns@[i]),
{
    let mut r: Vec<LfStoredTransaction> = Vec::new();
    let mut i: usize = 0;
    while i < txns.len()
        invariant
            i <= txns@.len(),
            r@.len() == i,
            forall|k: int| 0 <= k < i ==> (#[trigger] r@[k])@ == lf_record(account_id, txns@[k]),
        decreases txns@.len() - i,
    {
        let txn: &LfFetchedTransaction = &txns[i];
        r.push(
            LfStoredTransaction {
                id: stored_id(&txn.id, account_id, txn.date.as_str()),
                lf_account_id: account_id as i64,
                amount: txn.amount,
                currency: txn.currency.clone(),
                date: txn.date.clone(),
                merchant: txn.merchant.clone(),
                description: txn.description.clone(),
                is_pending: if txn.is_pending {
                    1
                } else {
                    0
                },
            },
        );
        i = i + 1;
    }
    r
}

/// The stored transactions, by id, after one record is written.
pub open spec fn lf_table_after(table: Map<Seq<char>, LfRecord>, record: LfRecord) -> Map<
    Seq<char>,
    LfRecord,
> {
    if table.dom().contains(record.id) {
        table.insert(
            record.id,
            LfRecord { lf_account_id: table[record.id].lf_account_id, ..record },
        )
    } else {
        table.insert(record.id, record)
    }
}

/// The stored transactions, by id, after the first `n` of a list of records is
/// written.
pub open spec fn lf_stored_after(
    table: Map<Seq<char>, LfRecord>,
    records: Seq<LfRecord>,
    n: int,
) -> Map<Seq<char>, LfRecord>
    decreases n,
{
    if n <= 0 {
        table
    } else {
        lf_table_after(lf_stored_after(table, records, n - 1), records[n - 1])
    }
}

/// Position of the last of the first `n` records with the given id, -1 if none has
/// it.
pub open spec fn last_record(records: Seq<LfRecord>, n: int, id: Seq<char>) -> int
    decreases n,
{
    if n <= 0 {
        -1
    } else if records[n - 1].id == id {
        n - 1
    } else {
        last_record(records, n - 1, id)
    }
}

/// After a list of records is written there is one row for each id that was stored
/// before or is written. A written row holds what the last record of its id says; a
/// row that was there before stays with its account, and one that is not written is
/// unchanged.
pub proof fn lemma_lf_stored(
    table: Map<Seq<char>, LfRecord>,
    records: Seq<LfRecord>,
    n: int,
    id: Seq<char>,
)
    requires
        0 <= n <= records.len(),
    ensures
        ({
            let m = last_record(records, n, id);
            let after = lf_stored_after(table, records, n);
            &&& -1 <= m < n || n == 0 && m == -1
            &&& after.dom().contains(id) <==> table.dom().contains(id) || 0 <= m
            &&& 0 <= m ==> records[m].id == id && after[id] == (LfRecord {
                lf_account_id: after[id].lf_account_id,
                ..records[m]
            })
            &&& table.dom().contains(id) ==> after[id].lf_account_id == table[id].lf_account_id
            &&& m == -1 && table.dom().contains(id) ==> after[id] == table[id]
        }),
    decreases n,
{
    if n > 0 {
        lemma_lf_stored(table, records, n - 1, id);
    }
}

proof fn lemma_last_record(records: Seq<LfRecord>, n: int, i: int)
    requires
        0 <= i < n <= records.len(),
    ensures
        i <= last_record(records, n, records[i].id) < n,
    decreases n,
{
    if records[n - 1].id != records[i].id {
        lemma_last_record(records, n - 1, i);
    }
}

/// Every reported transaction has a row afterwards: under its own id, or while it has
/// none under one made up from account and date.
pub proof fn lemma_lf_transactions_stored(
    table: Map<Seq<char>, LfRecord>,
    account_id: u64,
    txns: Seq<LfFetchedTransaction>,
    i: int,
)
    requires
        0 <= i < txns.len(),
    ensures
        lf_stored_after(table, lf_records(account_id, txns), txns.len() as int).dom().contains(
            match txns[i].id {
                Some(own) => own@,
                None => pending_id(account_id as nat, txns[i].date@),
            },
        ),
{
    let records = lf_records(account_id, txns);
    lemma_last_record(records, txns.len() as int, i);
    lemma_lf_stored(table, records, txns.len() as int, records[i].id);
}

/// Storing the same reply again changes nothing, so repeated fetches create no
/// duplicates.
pub proof fn lemma_lf_refetch_changes_nothing(
    table: Map<Seq<char>, LfRecord>,
    account_id: u64,
    txns: Seq<LfFetchedTransaction>,
)
    ensures
        ({
            let records = lf_records(account_id, txns);
            let n = txns.len() as int;
            let once = lf_stored_after(table, records, n);
            lf_stored_after(once, records, n) == once
        }),
{
    let records = lf_records(account_id, txns);
    let n = txns.len() as int;
    let once = lf_stored_after(table, records, n);
    let twice = lf_stored_after(once, records, n);
    assert forall|id: Seq<char>| twice.dom().contains(id) <==> once.dom().contains(id) by {
        lemma_lf_stored(table, records, n, id);
        lemma_lf_stored(once, records, n, id);
    }
    assert forall|id: Seq<char>| once.dom().contains(id) implies twice[id] == once[id] by {
        lemma_lf_stored(table, records, n, id);
        lemma_lf_stored(once, records, n, id);
    }
    assert(twice.dom() =~= once.dom());
    assert(twice =~= once);
}

/// The record of a transaction holds what was reported, under its own id, or under one
/// made up from account and date where it has none.
pub proof fn lemma_lf_record_keeps_report(account_id: u64, txn: LfFetchedTransaction)
    ensures
        ({
            let r = lf_record(account_id, txn);
            &&& txn.id matches Some(own) ==> r.id == own@
            &&& txn.id is None ==> r.id == "lf_pending_"@ + digits(account_id as nat) + "_"@
                + txn.date@
            &&& r.lf_account_id == account_id as i64
            &&& r.amount == txn.amount && r.currency == txn.currency@ && r.date == txn.date@
            &&& r.merchant is Some <==> txn.merchant is Some
            &&& txn.merchant matches Some(m) ==> r.merchant == Some(m@)
            &&& r.description is Some <==> txn.description is Some
            &&& txn.description matches Some(d) ==> r.description == Some(d@)
            &&& txn.is_pending ==> r.is_pending == 1
            &&& !txn.is_pending ==> r.is_pending == 0
        }),
{
}

/// A bound that is given is the day it falls on, wherever the calendar reaches it.
pub proof fn lemma_bound_date(bound: Option<i64>, absent: Seq<char>, text: Seq<char>)
    requires
        is_bound_date(bound, absent, text),
    ensures
        bound is None ==> text == absent,
        bound matches Some(ts) ==> in_calendar(ts as int) ==> is_date_of(ts as int, text),
{
}

} // verus!
