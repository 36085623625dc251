//! Stored SimpleFIN records and what is written for them.
use crate::amount::Amount;
use crate::state::CachedAccount;
use vstd::prelude::*;

verus! {

/// A transaction row read back from storage.
#[derive(Debug)]
pub struct TransactionRow {
    pub id: String,
    pub posted: i64,
    pub amount: Amount,
    pub description: String,
    pub payee: Option<String>,
    pub memo: Option<String>,
    pub transacted_at: Option<i64>,
    pub pending: bool,
}

/// A holding row read back from storage.
#[derive(Debug)]
pub struct HoldingRow {
    pub id: String,
    pub created: i64,
    pub currency: String,
    pub cost_basis: Option<Amount>,
    pub description: Option<String>,
    pub market_value: Option<Amount>,
    pub purchase_price: Option<Amount>,
    pub shares: Option<Amount>,
    pub symbol: Option<String>,
}

/// A stored flag as a truth value.
pub fn is_set(flag: i64) -> (r: bool)
    ensures
        r == (flag != 0),
{
    flag != 0
}

/// The range of posting times that a request asks for at time `now`: from the epoch
/// where it gives no start, up to `now` where it gives no end.
pub fn posted_bounds(start_ts: Option<i64>, end_ts: Option<i64>, now: i64) -> (r: (i64, i64))
    ensures
        r.0 == start_ts.unwrap_or(0),
        r.1 == end_ts.unwrap_or(now),
{
    (start_ts.unwrap_or(0), end_ts.unwrap_or(now))
}

// ---------------------------------------------------------------------------
// Writing
// ---------------------------------------------------------------------------

/// A transaction as the SimpleFIN bridge reports it.
#[derive(Debug)]
pub struct FetchedTransaction {
    pub id: String,
    /// Unix timestamp; 0 while pending.
    pub posted: i64,
    pub amount: String,
    pub description: String,
    pub payee: Option<String>,
    pub memo: Option<String>,
    pub transacted_at: Option<i64>,
    pub pending: Option<bool>,
    /// Further fields as JSON text.
    pub extra: Option<String>,
}

/// A holding as the SimpleFIN bridge reports it.
#[derive(Debug)]
pub struct FetchedHolding {
    pub id: String,
    pub created: i64,
    pub currency: String,
    pub cost_basis: Option<String>,
    pub description: Option<String>,
    pub market_value: Option<String>,
    pub purchase_price: Option<String>,
    pub shares: Option<String>,
    pub symbol: Option<String>,
}

impl Clone for FetchedHolding {
    fn clone(&self) -> (r: Self)
        ensures
            r == *self,
    {
        FetchedHolding {
            id: self.id.clone(),
            created: self.created,
            currency: self.currency.clone(),
            cost_basis: self.cost_basis.clone(),
            description: self.description.clone(),
            market_value: self.market_value.clone(),
            purchase_price: self.purchase_price.clone(),
            shares: self.shares.clone(),
            symbol: self.symbol.clone(),
        }
    }
}

/// The transaction record that is written, keyed by `id`.
#[derive(Debug)]
pub struct StoredTransaction {
    pub id: String,
    pub account_id: String,
    pub posted: i64,
    pub amount: String,
    pub description: String,
    pub payee: Option<String>,
    pub memo: Option<String>,
    pub transacted_at: Option<i64>,
    /// 1 when pending, else 0.
    pub pending: i64,
    pub extra: Option<String>,
}

/// A record to write. Where one of the same id exists, it takes on the new values;
/// a transaction or holding stays with the account it was first stored for.
#[derive(Debug)]
pub enum Write {
    Account(CachedAccount),
    Transaction(StoredTransaction),
    Holding { account_id: String, holding: FetchedHolding },
}

/// Whether a reported transaction is pending: it says so, or it has no posting
/// time, whatever it says.
pub open spec fn pending_when(pending: Option<bool>, posted: i64) -> bool {
    pending == Some(true) || posted == 0
}

/// Whether a reported transaction is pending.
pub fn is_pending(pending: Option<bool>, posted: i64) -> (r: bool)
    ensures
        r == pending_when(pending, posted),
{
    match pending {
        Some(true) => true,
        _ => posted == 0,
    }
}

/// The record of a reported transaction.
pub open spec fn stored(account_id: String, txn: FetchedTransaction) -> StoredTransaction {
    StoredTransaction {
        id: txn.id,
        account_id,
        posted: txn.posted,
        amount: txn.amount,
        description: txn.description,
        payee: txn.payee,
        memo: txn.memo,
        transacted_at: txn.transacted_at,
        pending: if pending_when(txn.pending, txn.posted) {
            1
        } else {
            0
        },
        extra: txn.extra,
    }
}

/// The record to write for a reported transaction.
pub fn upsert_transaction(account_id: &String, txn: &FetchedTransaction) -> (r: StoredTransaction)
    ensures
        r == stored(*account_id, *txn),
        r.posted == txn.posted,
        r.transacted_at == txn.transacted_at,
        r.pending == 1 <==> txn.pending == Some(true) || txn.posted == 0,
{
    StoredTransaction {
        id: txn.id.clone(),
        account_id: account_id.clone(),
        posted: txn.posted,
        amount: txn.amount.clone(),
        description: txn.description.clone(),
        payee: txn.payee.clone(),
        memo: txn.memo.clone(),
        transacted_at: txn.transacted_at,
        pending: if is_pending(txn.pending, txn.posted) {
            1
        } else {
            0
        },
        extra: txn.extra.clone(),
    }
}

/// The record of a transaction holds what was reported: the posting time is the reported
/// one whatever the time of the transaction is, and the record is pending where the
/// report says so or gives no posting time.
pub proof fn lemma_record_keeps_report(account_id: String, txn: FetchedTransaction)
    ensures
        ({
            let r = stored(account_id, txn);
            &&& r.id@ == txn.id@ && r.account_id@ == account_id@
            &&& r.posted == txn.posted
            &&& r.transacted_at == txn.transacted_at
            &&& r.amount@ == txn.amount@ && r.description@ == txn.description@
            &&& r.payee == txn.payee && r.memo == txn.memo && r.extra == txn.extra
            &&& r.pending == 0 || r.pending == 1
            &&& r.pending == 1 <==> txn.pending == Some(true) || txn.posted == 0
        }),
{
}

/// Reports that differ only in the time of the transaction give records that differ only
/// in that time.
pub proof fn lemma_transaction_time_kept_apart(
    account_id: String,
    txn: FetchedTransaction,
    at: Option<i64>,
)
    ensures
        stored(account_id, FetchedTransaction { transacted_at: at, ..txn }) == (StoredTransaction {
            transacted_at: at,
            ..stored(account_id, txn)
        }),
{
}

} // verus!
