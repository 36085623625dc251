//! Conversion of stored records to FDX responses.
use crate::amount::Amount;
use crate::db::{stored, FetchedTransaction, HoldingRow, TransactionRow};
use crate::double::Double;
use crate::fdx::{FdxAccount, FdxCurrency, FdxHolding, FdxTransaction, LfTransactionExt, SfinTransactionExt};
use crate::lunchflow::db::LfAccountFull;
use crate::reconciler::db::{is_unified_lf, unified_sfin, LfOnlyRow, LfTransactionView, SfinJoinedRow, SfinTransactionView, UnifiedTransaction};
use crate::reconciler::scoring::date_timestamp;
use crate::state::CachedAccount;
use crate::text::{chars, decimal, digits, i64_text, join, same_text};
use crate::util::{chrono_rfc3339, clock_text, date_str_to_unix, date_text, day_number, in_calendar, is_date, is_rfc3339_of, lemma_timestamp_text_unique, padded, parsed_date};
use vstd::prelude::*;

verus! {

// ---------------------------------------------------------------------------
// Timestamps and amounts
// ---------------------------------------------------------------------------

/// `text` is the timestamp `ts` in RFC 3339 form, or that of the epoch where the
/// calendar does not reach `ts`.
pub open spec fn is_timestamp(ts: int, text: Seq<char>) -> bool {
    is_rfc3339_of(
        if in_calendar(ts) {
            ts
        } else {
            0
        },
        text,
    )
}

proof fn lemma_epoch_timestamp()
    ensures
        is_rfc3339_of(0, "1970-01-01T00:00:00+00:00"@),
{
    let text = "1970-01-01T00:00:00+00:00"@;
    reveal_strlit("1970-01-01T00:00:00+00:00");
    reveal_with_fuel(digits, 5);
    assert(digits(1970) =~= seq!['1', '9', '7', '0']);
    assert(digits(1) =~= seq!['1']);
    assert(digits(0) =~= seq!['0']);
    assert(padded(0, 2) =~= seq!['0', '0']);
    assert(clock_text(0) =~= seq!['0', '0', ':', '0', '0', ':', '0', '0']);
    assert(text =~= date_text(1970, 1, 1) + seq!['T'] + clock_text(0) + seq![
        '+',
        '0',
        '0',
        ':',
        '0',
        '0',
    ]);
    assert(is_date(1970, 1, 1) && day_number(1970, 1, 1) == 0);
}

/// Renders a timestamp in RFC 3339 form (UTC), or the epoch for a timestamp that
/// the calendar does not reach.
pub fn unix_to_rfc3339(ts: i64) -> (r: String)
    ensures
        is_timestamp(ts as int, r@),
{
    proof {
        lemma_epoch_timestamp();
    }
    match chrono_rfc3339(ts) {
        Some(text) => text,
        None => "1970-01-01T00:00:00+00:00".to_owned(),
    }
}

/// Renders midnight of a `YYYY-MM-DD` date in RFC 3339 form, or the epoch for a
/// text that is no date.
pub fn date_to_rfc3339(date: &str) -> (r: String)
    ensures
        is_timestamp(date_timestamp(date@) as int, r@),
{
    unix_to_rfc3339(date_str_to_unix(date))
}

/// The value of an amount, 0.0 where its text is no number.
pub open spec fn amount_value(amount: Amount) -> Double {
    match amount.parsed {
        Some(value) => value,
        None => Double { bits: 0 },
    }
}

/// The value of an amount, 0.0 where its text is no number.
pub fn parse_amount(amount: &Amount) -> (r: Double)
    ensures
        r == amount_value(*amount),
{
    match amount.parsed {
        Some(value) => value,
        None => Double::zero(),
    }
}

/// The value of an optional amount.
pub open spec fn amount_value_opt(amount: Option<Amount>) -> Option<Double> {
    match amount {
        Some(a) => Some(amount_value(a)),
        None => None,
    }
}

/// The value of an optional amount; absent where the amount is.
pub fn parse_amount_opt(amount: &Option<Amount>) -> (r: Option<Double>)
    ensures
        r == amount_value_opt(*amount),
{
    match amount {
        Some(a) => Some(parse_amount(a)),
        None => None,
    }
}

/// The memo for an amount.
pub open spec fn memo_of(amount: Double) -> Seq<char> {
    if amount.negative() {
        "DEBIT"@
    } else {
        "CREDIT"@
    }
}

fn debit_or_credit(amount: Double) -> (r: &'static str)
    ensures
        r@ == memo_of(amount),
{
    if amount.is_negative() {
        "DEBIT"
    } else {
        "CREDIT"
    }
}

/// The status of a transaction.
pub open spec fn status_of(pending: bool) -> Seq<char> {
    if pending {
        "PENDING"@
    } else {
        "POSTED"@
    }
}

fn pending_or_posted(pending: bool) -> (r: &'static str)
    ensures
        r@ == status_of(pending),
{
    if pending {
        "PENDING"
    } else {
        "POSTED"
    }
}

// ---------------------------------------------------------------------------
// Accounts
// ---------------------------------------------------------------------------

/// `r` is the FDX account of a SimpleFIN account, under the given id prefix.
pub open spec fn is_cached_account(account: CachedAccount, prefix: Seq<char>, r: FdxAccount) -> bool {
    &&& r.account_id@ == prefix + account.id@
    &&& r.account_type@ == "OTHER"@
    &&& r.display_name == account.name
    &&& r.currency.currency_code == account.currency
    &&& r.current_balance == amount_value(account.balance)
    &&& r.available_balance == amount_value_opt(account.available_balance)
    &&& is_timestamp(account.balance_date as int, r.balance_date@)
    &&& r.simplefin_account_id is None
    &&& r.lunchflow_account_id is None
}

/// Maps a SimpleFIN account to an FDX account. `prefix`, one of `"SIMPLEFIN-"` or
/// `"REC-"`, is put before the account id.
pub fn cached_account_to_fdx(account: &CachedAccount, prefix: &str) -> (r: FdxAccount)
    ensures
        is_cached_account(*account, prefix@, r),
{
    FdxAccount {
        account_id: join(prefix, account.id.as_str()),
        account_type: "OTHER".to_owned(),
        display_name: account.name.clone(),
        currency: FdxCurrency { currency_code: account.currency.clone() },
        current_balance: parse_amount(&account.balance),
        available_balance: parse_amount_opt(&account.available_balance),
        balance_date: unix_to_rfc3339(account.balance_date),
        simplefin_account_id: None,
        lunchflow_account_id: None,
    }
}

/// `r` is the FDX account of a LunchFlow account.
pub open spec fn is_lf_account(account: LfAccountFull, r: FdxAccount) -> bool {
    &&& r.account_id@ == "LUNCHFLOW-"@ + decimal(account.id as int)
    &&& r.account_type@ == "OTHER"@
    &&& r.display_name == account.name
    &&& r.currency.currency_code@ == (match account.currency {
        Some(code) => code@,
        None => "USD"@,
    })
    &&& r.current_balance == account.balance.unwrap_or(Double { bits: 0 })
    &&& r.available_balance is None
    &&& is_timestamp(account.fetched_at as int, r.balance_date@)
    &&& r.simplefin_account_id is None
    &&& r.lunchflow_account_id is None
}

/// Maps a LunchFlow account to an FDX account with a `LUNCHFLOW-` prefix.
pub fn lf_account_to_fdx(account: &LfAccountFull) -> (r: FdxAccount)
    ensures
        is_lf_account(*account, r),
{
    let number: String = i64_text(account.id);
    FdxAccount {
        account_id: join("LUNCHFLOW-", number.as_str()),
        account_type: "OTHER".to_owned(),
        display_name: account.name.clone(),
        currency: FdxCurrency {
            currency_code: match &account.currency {
                Some(code) => code.clone(),
                None => "USD".to_owned(),
            },
        },
        current_balance: account.balance.unwrap_or(Double::zero()),
        available_balance: None,
        balance_date: unix_to_rfc3339(account.fetched_at),
        simplefin_account_id: None,
        lunchflow_account_id: None,
    }
}

// ---------------------------------------------------------------------------
// Transactions
// ---------------------------------------------------------------------------

/// Whether a transaction carries no reconciliation data.
pub open spec fn is_plain(r: FdxTransaction) -> bool {
    &&& r.reconciliation_status is None
    &&& r.match_confidence is None
    &&& r.simplefin_transaction is None
    &&& r.lunchflow_transaction is None
}

/// `r` is the FDX transaction of a SimpleFIN row.
pub open spec fn is_row_transaction(row: TransactionRow, r: FdxTransaction) -> bool {
    &&& r.transaction_id == row.id
    &&& is_timestamp(row.posted as int, r.posted_timestamp@)
    &&& match (row.transacted_at, r.transaction_timestamp) {
        (Some(ts), Some(text)) => is_timestamp(ts as int, text@),
        (None, None) => true,
        _ => false,
    }
    &&& r.amount == amount_value(row.amount)
    &&& r.description == row.description
    &&& r.payee == row.payee
    &&& r.memo == row.memo
    &&& r.status@ == status_of(row.pending)
    &&& r.debit_credit_memo@ == memo_of(r.amount)
    &&& is_plain(r)
}

/// Maps a SimpleFIN transaction row to an FDX transaction.
pub fn transaction_row_to_fdx(row: &TransactionRow) -> (r: FdxTransaction)
    ensures
        is_row_transaction(*row, r),
{
    let amount: Double = parse_amount(&row.amount);
    FdxTransaction {
        transaction_id: row.id.clone(),
        posted_timestamp: unix_to_rfc3339(row.posted),
        transaction_timestamp: match row.transacted_at {
            Some(ts) => Some(unix_to_rfc3339(ts)),
            None => None,
        },
        amount,
        description: row.description.clone(),
        payee: row.payee.clone(),
        memo: row.memo.clone(),
        status: pending_or_posted(row.pending),
        debit_credit_memo: debit_or_credit(amount),
        reconciliation_status: None,
        match_confidence: None,
        simplefin_transaction: None,
        lunchflow_transaction: None,
    }
}

/// What a LunchFlow transaction is described as: its merchant, else its
/// description, else a placeholder.
pub open spec fn lf_label(merchant: Option<Seq<char>>, description: Option<Seq<char>>) -> Seq<char> {
    match (merchant, description) {
        (Some(m), _) => m,
        (None, Some(d)) => d,
        (None, None) => "(no description)"@,
    }
}

/// `r` is the FDX transaction of a LunchFlow transaction at the given timestamp,
/// apart from its reconciliation data.
pub open spec fn is_lf_transaction(
    id: Seq<char>,
    amount: Double,
    posted: int,
    merchant: Option<String>,
    description: Option<String>,
    is_pending: bool,
    r: FdxTransaction,
) -> bool {
    &&& r.transaction_id@ == id
    &&& is_timestamp(posted, r.posted_timestamp@)
    &&& r.transaction_timestamp is None
    &&& r.amount == amount
    &&& r.description@ == lf_label(chars(merchant), chars(description))
    &&& r.payee == merchant
    &&& r.memo == description
    &&& r.status@ == status_of(is_pending)
    &&& r.debit_credit_memo@ == memo_of(amount)
}

/// The FDX transaction of a LunchFlow transaction at the given timestamp.
pub fn lf_transaction_at(
    id: &String,
    amount: Double,
    posted: i64,
    merchant: &Option<String>,
    description: &Option<String>,
    is_pending: bool,
) -> (r: FdxTransaction)
    ensures
        is_lf_transaction(id@, amount, posted as int, *merchant, *description, is_pending, r),
        is_plain(r),
{
    FdxTransaction {
        transaction_id: id.clone(),
        posted_timestamp: unix_to_rfc3339(posted),
        transaction_timestamp: None,
        amount,
        description: match merchant {
            Some(m) => m.clone(),
            None => match description {
                Some(d) => d.clone(),
                None => "(no description)".to_owned(),
            },
        },
        payee: merchant.clone(),
        memo: description.clone(),
        status: pending_or_posted(is_pending),
        debit_credit_memo: debit_or_credit(amount),
        reconciliation_status: None,
        match_confidence: None,
        simplefin_transaction: None,
        lunchflow_transaction: None,
    }
}

/// Maps a LunchFlow transaction to an FDX transaction, for `LUNCHFLOW-` accounts.
pub fn lf_transaction_to_fdx(
    id: &String,
    amount: Double,
    date: &str,
    merchant: &Option<String>,
    description: &Option<String>,
    is_pending: bool,
) -> (r: FdxTransaction)
    ensures
        is_lf_transaction(
            id@,
            amount,
            date_timestamp(date@) as int,
            *merchant,
            *description,
            is_pending,
            r,
        ),
        is_plain(r),
{
    lf_transaction_at(id, amount, date_str_to_unix(date), merchant, description, is_pending)
}

/// A text that is present and not empty.
pub open spec fn unless_empty(text: Option<Seq<char>>) -> Option<Seq<char>> {
    match text {
        Some(t) => if t.len() == 0 {
            None
        } else {
            Some(t)
        },
        None => None,
    }
}

fn drop_empty(text: &Option<String>) -> (r: Option<String>)
    ensures
        chars(r) == unless_empty(chars(*text)),
{
    match text {
        Some(t) => {
            if t.as_str().is_empty() {
                None
            } else {
                Some(t.clone())
            }
        },
        None => None,
    }
}

/// `ext` holds the SimpleFIN side of a matched transaction.
pub open spec fn is_sfin_ext(sfin: SfinTransactionView, ext: SfinTransactionExt) -> bool {
    &&& ext.id == sfin.id
    &&& is_timestamp(sfin.posted as int, ext.posted_timestamp@)
    &&& ext.amount == amount_value(sfin.amount)
    &&& chars(ext.description) == unless_empty(Some(sfin.description@))
    &&& ext.payee == sfin.payee
    &&& chars(ext.memo) == unless_empty(chars(sfin.memo))
}

fn sfin_ext(sfin: &SfinTransactionView) -> (r: SfinTransactionExt)
    ensures
        is_sfin_ext(*sfin, r),
{
    let description: Option<String> = if sfin.description.as_str().is_empty() {
        None
    } else {
        Some(sfin.description.clone())
    };
    SfinTransactionExt {
        id: sfin.id.clone(),
        posted_timestamp: unix_to_rfc3339(sfin.posted),
        amount: parse_amount(&sfin.amount),
        description,
        payee: sfin.payee.clone(),
        memo: drop_empty(&sfin.memo),
    }
}

/// The LunchFlow side of a matched transaction.
pub open spec fn lf_ext_of(lf: LfTransactionView) -> LfTransactionExt {
    LfTransactionExt {
        id: lf.id,
        amount: lf.amount,
        currency: lf.currency,
        date: lf.date,
        merchant: lf.merchant,
        description: lf.description,
        is_pending: lf.is_pending,
    }
}

fn lf_ext(lf: &LfTransactionView) -> (r: LfTransactionExt)
    ensures
        r == lf_ext_of(*lf),
{
    LfTransactionExt {
        id: lf.id.clone(),
        amount: lf.amount,
        currency: lf.currency.clone(),
        date: lf.date.clone(),
        merchant: lf.merchant.clone(),
        description: lf.description.clone(),
        is_pending: lf.is_pending,
    }
}

/// The id of a unified transaction with a SimpleFIN side: `REC-{id}` for a match
/// that has a record, else the SimpleFIN id.
pub open spec fn unified_id(txn: UnifiedTransaction, sfin: SfinTransactionView) -> Seq<char> {
    if txn.status@ == "matched"@ && txn.rec_id is Some {
        "REC-"@ + decimal(txn.rec_id->0 as int)
    } else {
        sfin.id@
    }
}

/// `r` is the FDX transaction of a unified transaction with the SimpleFIN side
/// `sfin`. Both source transactions are attached exactly where they match.
pub open spec fn is_unified_sfin(
    txn: UnifiedTransaction,
    sfin: SfinTransactionView,
    r: FdxTransaction,
) -> bool {
    &&& r.transaction_id@ == unified_id(txn, sfin)
    &&& is_timestamp(sfin.posted as int, r.posted_timestamp@)
    &&& r.transaction_timestamp is None
    &&& r.amount == amount_value(sfin.amount)
    &&& r.description == sfin.description
    &&& r.payee == sfin.payee
    &&& r.memo == sfin.memo
    &&& r.status@ == status_of(sfin.pending)
    &&& r.debit_credit_memo@ == memo_of(r.amount)
    &&& r.reconciliation_status == Some(txn.status)
    &&& r.match_confidence == txn.match_confidence
    &&& if txn.status@ == "matched"@ {
        &&& r.simplefin_transaction matches Some(ext) && is_sfin_ext(sfin, ext)
        &&& r.lunchflow_transaction == (match txn.lunchflow {
            Some(lf) => Some(lf_ext_of(lf)),
            None => None,
        })
    } else {
        r.simplefin_transaction is None && r.lunchflow_transaction is None
    }
}

/// `r` is the FDX transaction of a unified transaction that has neither side.
pub open spec fn is_unified_empty(txn: UnifiedTransaction, r: FdxTransaction) -> bool {
    &&& r.transaction_id@ == Seq::<char>::empty()
    &&& is_timestamp(0, r.posted_timestamp@)
    &&& r.transaction_timestamp is None
    &&& r.amount.bits == 0
    &&& r.description@ == Seq::<char>::empty()
    &&& r.payee is None
    &&& r.memo is None
    &&& r.status@ == "POSTED"@
    &&& r.debit_credit_memo@ == "CREDIT"@
    &&& r.reconciliation_status == Some(txn.status)
    &&& r.match_confidence is None
    &&& r.simplefin_transaction is None
    &&& r.lunchflow_transaction is None
}

/// `r` is the FDX transaction of a unified transaction; `lf_posted` is the
/// timestamp of its LunchFlow date.
pub open spec fn is_unified_transaction(
    txn: UnifiedTransaction,
    lf_posted: int,
    r: FdxTransaction,
) -> bool {
    match (txn.simplefin, txn.lunchflow) {
        (Some(sfin), _) => is_unified_sfin(txn, sfin, r),
        (None, Some(lf)) => {
            &&& is_lf_transaction(
                lf.id@,
                lf.amount,
                lf_posted,
                lf.merchant,
                lf.description,
                lf.is_pending,
                r,
            )
            &&& r.reconciliation_status == Some(txn.status)
            &&& r.match_confidence == txn.match_confidence
            &&& r.simplefin_transaction is None
            &&& r.lunchflow_transaction is None
        },
        (None, None) => is_unified_empty(txn, r),
    }
}

/// The FDX transaction of a unified transaction, given the timestamp of its
/// LunchFlow date.
pub fn unified_transaction_at(txn: &UnifiedTransaction, lf_posted: i64) -> (r: FdxTransaction)
    ensures
        is_unified_transaction(*txn, lf_posted as int, r),
{
    match &txn.simplefin {
        Some(sfin) => {
            let amount: Double = parse_amount(&sfin.amount);
            let matched: bool = same_text(txn.status.as_str(), "matched");
            let transaction_id: String = match txn.rec_id {
                Some(id) => {
                    if matched {
                        let number: String = i64_text(id);
                        join("REC-", number.as_str())
                    } else {
                        sfin.id.clone()
                    }
                },
                None => sfin.id.clone(),
            };
            let simplefin_transaction: Option<SfinTransactionExt> = if matched {
                Some(sfin_ext(sfin))
            } else {
                None
            };
            let lunchflow_transaction: Option<LfTransactionExt> = match &txn.lunchflow {
                Some(lf) => {
                    if matched {
                        Some(lf_ext(lf))
                    } else {
                        None
                    }
                },
                None => None,
            };
            FdxTransaction {
                transaction_id,
                posted_timestamp: unix_to_rfc3339(sfin.posted),
                transaction_timestamp: None,
                amount,
                description: sfin.description.clone(),
                payee: sfin.payee.clone(),
                memo: sfin.memo.clone(),
                status: pending_or_posted(sfin.pending),
                debit_credit_memo: debit_or_credit(amount),
                reconciliation_status: Some(txn.status.clone()),
                match_confidence: txn.match_confidence,
                simplefin_transaction,
                lunchflow_transaction,
            }
        },
        None => match &txn.lunchflow {
            Some(lf) => {
                let mut r: FdxTransaction = lf_transaction_at(
                    &lf.id,
                    lf.amount,
                    lf_posted,
                    &lf.merchant,
                    &lf.description,
                    lf.is_pending,
                );
                r.reconciliation_status = Some(txn.status.clone());
                r.match_confidence = txn.match_confidence;
                r
            },
            None => FdxTransaction {
                transaction_id: String::new(),
                posted_timestamp: unix_to_rfc3339(0),
                transaction_timestamp: None,
                amount: Double::zero(),
                description: String::new(),
                payee: None,
                memo: None,
                status: "POSTED",
                debit_credit_memo: "CREDIT",
                reconciliation_status: Some(txn.status.clone()),
                match_confidence: None,
                simplefin_transaction: None,
                lunchflow_transaction: None,
            },
        },
    }
}

/// The timestamp of the LunchFlow date of a unified transaction, 0 where it has no
/// LunchFlow side.
pub open spec fn lf_posted_of(txn: UnifiedTransaction) -> int {
    match txn.lunchflow {
        Some(lf) => date_timestamp(lf.date@) as int,
        None => 0,
    }
}

/// Maps a unified transaction to an FDX transaction with reconciliation data.
///
/// Matched transactions get a `REC-{id}` transaction id and carry both source
/// transactions. Unmatched ones keep their source id and carry neither.
pub fn unified_transaction_to_fdx(txn: &UnifiedTransaction) -> (r: FdxTransaction)
    ensures
        is_unified_transaction(*txn, lf_posted_of(*txn), r),
{
    let lf_posted: i64 = match &txn.lunchflow {
        Some(lf) => date_str_to_unix(lf.date.as_str()),
        None => 0,
    };
    unified_transaction_at(txn, lf_posted)
}

// ---------------------------------------------------------------------------
// Holdings
// ---------------------------------------------------------------------------

/// `r` is the FDX holding of a row.
pub open spec fn is_holding(row: HoldingRow, r: FdxHolding) -> bool {
    &&& r.holding_id == row.id
    &&& r.currency.currency_code == row.currency
    &&& is_timestamp(row.created as int, r.position_date@)
    &&& r.symbol == row.symbol
    &&& r.description == row.description
    &&& r.market_value == amount_value_opt(row.market_value)
    &&& r.cost_basis == amount_value_opt(row.cost_basis)
    &&& r.purchase_price == amount_value_opt(row.purchase_price)
    &&& r.units == amount_value_opt(row.shares)
}

/// Maps a holding row to an FDX holding.
pub fn holding_row_to_fdx(row: &HoldingRow) -> (r: FdxHolding)
    ensures
        is_holding(*row, r),
{
    FdxHolding {
        holding_id: row.id.clone(),
        currency: FdxCurrency { currency_code: row.currency.clone() },
        position_date: unix_to_rfc3339(row.created),
        symbol: row.symbol.clone(),
        description: row.description.clone(),
        market_value: parse_amount_opt(&row.market_value),
        cost_basis: parse_amount_opt(&row.cost_basis),
        purchase_price: parse_amount_opt(&row.purchase_price),
        units: parse_amount_opt(&row.shares),
    }
}

// ---------------------------------------------------------------------------
// What is served of what was reported
// ---------------------------------------------------------------------------

/// The text of a timestamp is that of the timestamp itself wherever the calendar
/// reaches it, and there is only one such text.
pub proof fn lemma_timestamp_shown(ts: int, text: Seq<char>, other: Seq<char>)
    requires
        is_timestamp(ts, text),
    ensures
        in_calendar(ts) ==> is_rfc3339_of(ts, text),
        !in_calendar(ts) ==> text == "1970-01-01T00:00:00+00:00"@,
        is_timestamp(ts, other) ==> other == text,
{
    lemma_epoch_timestamp();
    lemma_timestamp_text_unique(
        if in_calendar(ts) {
            ts
        } else {
            0
        },
        text,
        other,
    );
    lemma_timestamp_text_unique(0, text, "1970-01-01T00:00:00+00:00"@);
}

/// A transaction that was reported, stored and read back is served with the posting
/// time, the time of the transaction, the texts and the amount that were reported. It
/// is pending where the report said so or gave no posting time.
pub proof fn lemma_reported_transaction_served(
    account_id: String,
    txn: FetchedTransaction,
    row: TransactionRow,
    r: FdxTransaction,
)
    requires
        ({
            let record = stored(account_id, txn);
            &&& row.id == record.id
            &&& row.posted == record.posted
            &&& row.amount.text == record.amount
            &&& row.description == record.description
            &&& row.payee == record.payee
            &&& row.memo == record.memo
            &&& row.transacted_at == record.transacted_at
            &&& row.pending == (record.pending != 0)
        }),
        is_row_transaction(row, r),
    ensures
        r.transaction_id@ == txn.id@,
        in_calendar(txn.posted as int) ==> is_rfc3339_of(txn.posted as int, r.posted_timestamp@),
        r.transaction_timestamp is Some <==> txn.transacted_at is Some,
        txn.transacted_at matches Some(ts) ==> in_calendar(ts as int) ==> is_rfc3339_of(
            ts as int,
            r.transaction_timestamp->0@,
        ),
        row.amount.text@ == txn.amount@,
        row.amount.parsed matches Some(value) ==> r.amount == value,
        row.amount.parsed is None ==> r.amount.bits == 0,
        r.description@ == txn.description@,
        r.payee == txn.payee,
        r.memo == txn.memo,
        txn.pending == Some(true) || txn.posted == 0 ==> r.status@ == "PENDING"@,
        txn.pending != Some(true) && txn.posted != 0 ==> r.status@ == "POSTED"@,
        0x8000_0000_0000_0000 < r.amount.bits <= 0xFFF0_0000_0000_0000 ==> r.debit_credit_memo@
            == "DEBIT"@,
        !(0x8000_0000_0000_0000 < r.amount.bits <= 0xFFF0_0000_0000_0000)
            ==> r.debit_credit_memo@ == "CREDIT"@,
        r.reconciliation_status is None && r.match_confidence is None,
        r.simplefin_transaction is None && r.lunchflow_transaction is None,
{
}

/// A row of a SimpleFIN account that reconciliation joined is served with what the row
/// holds: under the id of its reconciliation record where it is matched and has one,
/// under its own id otherwise. Both sides are attached exactly where it is matched.
pub proof fn lemma_joined_row_served(row: SfinJoinedRow, lf_posted: int, r: FdxTransaction)
    requires
        is_unified_transaction(unified_sfin(row), lf_posted, r),
    ensures
        row.recon_status@ == "matched"@ && row.rec_id is Some ==> r.transaction_id@ == "REC-"@
            + decimal(row.rec_id->0 as int),
        row.recon_status@ != "matched"@ || row.rec_id is None ==> r.transaction_id@ == row.id@,
        in_calendar(row.posted as int) ==> is_rfc3339_of(row.posted as int, r.posted_timestamp@),
        r.transaction_timestamp is None,
        row.amount.parsed matches Some(value) ==> r.amount == value,
        row.amount.parsed is None ==> r.amount.bits == 0,
        r.description@ == row.description@,
        r.payee == row.payee,
        r.memo == row.memo,
        row.pending != 0 ==> r.status@ == "PENDING"@,
        row.pending == 0 ==> r.status@ == "POSTED"@,
        0x8000_0000_0000_0000 < r.amount.bits <= 0xFFF0_0000_0000_0000 ==> r.debit_credit_memo@
            == "DEBIT"@,
        !(0x8000_0000_0000_0000 < r.amount.bits <= 0xFFF0_0000_0000_0000)
            ==> r.debit_credit_memo@ == "CREDIT"@,
        r.reconciliation_status is Some && r.reconciliation_status->0@ == row.recon_status@,
        r.match_confidence == row.match_confidence,
        row.recon_status@ != "matched"@ ==> r.simplefin_transaction is None
            && r.lunchflow_transaction is None,
        row.recon_status@ == "matched"@ ==> {
            &&& r.simplefin_transaction matches Some(ext) && {
                &&& ext.id@ == row.id@
                &&& in_calendar(row.posted as int) ==> is_rfc3339_of(
                    row.posted as int,
                    ext.posted_timestamp@,
                )
                &&& ext.amount == r.amount
                &&& ext.description is Some <==> row.description@.len() > 0
                &&& ext.description is Some ==> ext.description->0@ == row.description@
                &&& ext.payee == row.payee
                &&& ext.memo is Some <==> row.memo is Some && row.memo->0@.len() > 0
                &&& ext.memo is Some ==> ext.memo->0@ == row.memo->0@
            }
            &&& r.lunchflow_transaction is Some <==> row.lunchflow is Some
            &&& row.lunchflow matches Some(lf) ==> {
                let ext = r.lunchflow_transaction->0;
                &&& ext.id == lf.id && ext.amount == lf.amount && ext.currency == lf.currency
                &&& ext.date == lf.date && ext.merchant == lf.merchant
                &&& ext.description == lf.description && ext.is_pending == (lf.is_pending != 0)
            }
        },
{
}

/// A LunchFlow transaction without counterpart is served with what its row holds,
/// under its own id and at midnight of its date.
pub proof fn lemma_lf_only_row_served(row: LfOnlyRow, u: UnifiedTransaction, r: FdxTransaction)
    requires
        is_unified_lf(row, date_timestamp(row.lunchflow.date@), u),
        is_unified_transaction(u, lf_posted_of(u), r),
    ensures
        r.transaction_id@ == row.lunchflow.id@,
        parsed_date(row.lunchflow.date@) matches Some(ts) ==> in_calendar(ts as int)
            ==> is_rfc3339_of(ts as int, r.posted_timestamp@),
        parsed_date(row.lunchflow.date@) is None ==> r.posted_timestamp@
            == "1970-01-01T00:00:00+00:00"@,
        r.transaction_timestamp is None,
        r.amount == row.lunchflow.amount,
        row.lunchflow.merchant is Some ==> r.description@ == row.lunchflow.merchant->0@,
        row.lunchflow.merchant is None && row.lunchflow.description is Some ==> r.description@
            == row.lunchflow.description->0@,
        row.lunchflow.merchant is None && row.lunchflow.description is None ==> r.description@
            == "(no description)"@,
        r.payee == row.lunchflow.merchant,
        r.memo == row.lunchflow.description,
        row.lunchflow.is_pending != 0 ==> r.status@ == "PENDING"@,
        row.lunchflow.is_pending == 0 ==> r.status@ == "POSTED"@,
        0x8000_0000_0000_0000 < r.amount.bits <= 0xFFF0_0000_0000_0000 ==> r.debit_credit_memo@
            == "DEBIT"@,
        !(0x8000_0000_0000_0000 < r.amount.bits <= 0xFFF0_0000_0000_0000)
            ==> r.debit_credit_memo@ == "CREDIT"@,
        r.reconciliation_status is Some && r.reconciliation_status->0@ == "lf_only"@,
        r.match_confidence == row.match_confidence,
        r.simplefin_transaction is None && r.lunchflow_transaction is None,
{
    lemma_epoch_timestamp();
    lemma_timestamp_text_unique(0, r.posted_timestamp@, "1970-01-01T00:00:00+00:00"@);
}

/// A transaction of a LunchFlow account is served with what it was stored with.
pub proof fn lemma_lf_transaction_served(
    id: Seq<char>,
    amount: Double,
    date: Seq<char>,
    merchant: Option<String>,
    description: Option<String>,
    is_pending: bool,
    r: FdxTransaction,
)
    requires
        is_lf_transaction(
            id,
            amount,
            date_timestamp(date) as int,
            merchant,
            description,
            is_pending,
            r,
        ),
    ensures
        r.transaction_id@ == id,
        parsed_date(date) matches Some(ts) ==> in_calendar(ts as int) ==> is_rfc3339_of(
            ts as int,
            r.posted_timestamp@,
        ),
        parsed_date(date) is None ==> r.posted_timestamp@ == "1970-01-01T00:00:00+00:00"@,
        r.amount == amount,
        merchant is Some ==> r.description@ == merchant->0@,
        merchant is None && description is Some ==> r.description@ == description->0@,
        merchant is None && description is None ==> r.description@ == "(no description)"@,
        r.payee == merchant && r.memo == description,
        is_pending ==> r.status@ == "PENDING"@,
        !is_pending ==> r.status@ == "POSTED"@,
        0x8000_0000_0000_0000 < amount.bits <= 0xFFF0_0000_0000_0000 ==> r.debit_credit_memo@
            == "DEBIT"@,
        !(0x8000_0000_0000_0000 < amount.bits <= 0xFFF0_0000_0000_0000) ==> r.debit_credit_memo@
            == "CREDIT"@,
{
    lemma_epoch_timestamp();
    lemma_timestamp_text_unique(0, r.posted_timestamp@, "1970-01-01T00:00:00+00:00"@);
}

/// A LunchFlow account is served with its name, its currency or US dollars, its balance
/// or zero, and the time of its fetch.
pub proof fn lemma_lf_account_served(account: LfAccountFull, r: FdxAccount)
    requires
        is_lf_account(account, r),
    ensures
        r.account_id@ == "LUNCHFLOW-"@ + decimal(account.id as int),
        r.account_type@ == "OTHER"@,
        r.display_name@ == account.name@,
        account.currency is Some ==> r.currency.currency_code@ == account.currency->0@,
        account.currency is None ==> r.currency.currency_code@ == "USD"@,
        account.balance is Some ==> r.current_balance == account.balance->0,
        account.balance is None ==> r.current_balance.bits == 0,
        r.available_balance is None,
        in_calendar(account.fetched_at as int) ==> is_rfc3339_of(
            account.fetched_at as int,
            r.balance_date@,
        ),
        r.simplefin_account_id is None && r.lunchflow_account_id is None,
{
}

/// A SimpleFIN account is served with its name, currency and balances and the date of
/// its balance: the current balance is the value of the stored balance, whether or not
/// there is an available one.
pub proof fn lemma_sfin_account_served(account: CachedAccount, prefix: Seq<char>, r: FdxAccount)
    requires
        is_cached_account(account, prefix, r),
    ensures
        r.account_id@ == prefix + account.id@,
        r.account_type@ == "OTHER"@,
        r.display_name@ == account.name@,
        r.currency.currency_code@ == account.currency@,
        account.balance.parsed matches Some(value) ==> r.current_balance == value,
        account.balance.parsed is None ==> r.current_balance.bits == 0,
        r.available_balance is Some <==> account.available_balance is Some,
        account.available_balance matches Some(a) ==> {
            &&& a.parsed matches Some(value) ==> r.available_balance == Some(value)
            &&& a.parsed is None ==> r.available_balance == Some(Double { bits: 0 })
        },
        in_calendar(account.balance_date as int) ==> is_rfc3339_of(
            account.balance_date as int,
            r.balance_date@,
        ),
        r.simplefin_account_id is None && r.lunchflow_account_id is None,
{
}

/// A holding is served with what its row holds; an amount is present exactly where the
/// row has it.
pub proof fn lemma_holding_served(row: HoldingRow, r: FdxHolding)
    requires
        is_holding(row, r),
    ensures
        r.holding_id@ == row.id@,
        r.currency.currency_code@ == row.currency@,
        in_calendar(row.created as int) ==> is_rfc3339_of(row.created as int, r.position_date@),
        r.symbol == row.symbol && r.description == row.description,
        r.market_value is Some <==> row.market_value is Some,
        r.cost_basis is Some <==> row.cost_basis is Some,
        r.purchase_price is Some <==> row.purchase_price is Some,
        r.units is Some <==> row.shares is Some,
        row.market_value matches Some(a) ==> a.parsed is Some ==> r.market_value == a.parsed,
        row.cost_basis matches Some(a) ==> a.parsed is Some ==> r.cost_basis == a.parsed,
        row.purchase_price matches Some(a) ==> a.parsed is Some ==> r.purchase_price == a.parsed,
        row.shares matches Some(a) ==> a.parsed is Some ==> r.units == a.parsed,
        row.market_value matches Some(a) ==> a.parsed is None ==> r.market_value->0.bits == 0,
        row.cost_basis matches Some(a) ==> a.parsed is None ==> r.cost_basis->0.bits == 0,
        row.purchase_price matches Some(a) ==> a.parsed is None ==> r.purchase_price->0.bits == 0,
        row.shares matches Some(a) ==> a.parsed is None ==> r.units->0.bits == 0,
{
}

/// A unified transaction with neither side is served empty, at the epoch, with its status
/// only.
pub proof fn lemma_sideless_served(txn: UnifiedTransaction, lf_posted: int, r: FdxTransaction)
    requires
        txn.simplefin is None,
        txn.lunchflow is None,
        is_unified_transaction(txn, lf_posted, r),
    ensures
        r.transaction_id@.len() == 0 && r.description@.len() == 0 && r.amount.bits == 0,
        r.posted_timestamp@ == "1970-01-01T00:00:00+00:00"@,
        r.status@ == "POSTED"@ && r.debit_credit_memo@ == "CREDIT"@,
        r.reconciliation_status is Some && r.reconciliation_status->0@ == txn.status@,
        r.payee is None && r.memo is None && r.match_confidence is None,
        r.transaction_timestamp is None,
        r.simplefin_transaction is None && r.lunchflow_transaction is None,
{
    lemma_epoch_timestamp();
    lemma_timestamp_text_unique(0, r.posted_timestamp@, "1970-01-01T00:00:00+00:00"@);
}

/// A unified transaction is served the same whether it is matched or not, but for its id,
/// its status and what is attached to it.
pub proof fn lemma_match_changes_no_values(
    txn: UnifiedTransaction,
    other: UnifiedTransaction,
    p: int,
    a: FdxTransaction,
    b: FdxTransaction,
)
    requires
        txn.simplefin is Some,
        other.simplefin == txn.simplefin,
        is_unified_transaction(txn, p, a),
        is_unified_transaction(other, p, b),
    ensures
        a.amount == b.amount && a.description@ == b.description@ && a.payee == b.payee,
        a.memo == b.memo && a.status@ == b.status@ && a.debit_credit_memo@ == b.debit_credit_memo@,
        a.posted_timestamp@ == b.posted_timestamp@,
{
    lemma_timestamp_shown(
        txn.simplefin->0.posted as int,
        a.posted_timestamp@,
        b.posted_timestamp@,
    );
}

} // verus!
