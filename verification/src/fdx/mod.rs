//! FDX v6 response types.
use crate::double::Double;
use vstd::prelude::*;

pub mod mapping;
pub mod routes;

verus! {

#[derive(Debug)]
pub struct FdxCurrency {
    pub currency_code: String,
}

#[derive(Debug)]
pub struct FdxAccount {
    pub account_id: String,
    pub account_type: String,
    pub display_name: String,
    pub currency: FdxCurrency,
    pub current_balance: Double,
    pub available_balance: Option<Double>,
    pub balance_date: String,
    /// For `REC-` accounts: the `SIMPLEFIN-` account that was reconciled in.
    pub simplefin_account_id: Option<String>,
    /// For `REC-` accounts: the `LUNCHFLOW-` account that was reconciled in.
    pub lunchflow_account_id: Option<String>,
}

#[derive(Debug)]
pub struct FdxPage {
    pub total: usize,
}

#[derive(Debug)]
pub struct FdxAccountList {
    pub accounts: Vec<FdxAccount>,
    pub page: FdxPage,
}

/// SimpleFIN-side data attached to a reconciled FDX transaction.
#[derive(Debug)]
pub struct SfinTransactionExt {
    pub id: String,
    pub posted_timestamp: String,
    pub amount: Double,
    pub description: Option<String>,
    pub payee: Option<String>,
    pub memo: Option<String>,
}

/// LunchFlow-side data attached to a reconciled FDX transaction.
#[derive(Debug)]
pub struct LfTransactionExt {
    pub id: String,
    pub amount: Double,
    pub currency: String,
    pub date: String,
    pub merchant: Option<String>,
    pub description: Option<String>,
    pub is_pending: bool,
}

#[derive(Debug)]
pub struct FdxTransaction {
    pub transaction_id: String,
    pub posted_timestamp: String,
    pub transaction_timestamp: Option<String>,
    pub amount: Double,
    pub description: String,
    pub payee: Option<String>,
    pub memo: Option<String>,
    pub status: &'static str,
    pub debit_credit_memo: &'static str,
    /// Reconciliation status, only present for `REC-` accounts.
    /// One of: `"matched"`, `"sfin_only"`, `"lf_only"`, `"unreconciled"`.
    pub reconciliation_status: Option<String>,
    /// Confidence score (0 to 1) for the reconciliation match.
    pub match_confidence: Option<Double>,
    /// SimpleFIN source transaction, only present when `reconciliation_status` is `"matched"`.
    pub simplefin_transaction: Option<SfinTransactionExt>,
    /// LunchFlow source transaction, only present when `reconciliation_status` is `"matched"`.
    pub lunchflow_transaction: Option<LfTransactionExt>,
}

#[derive(Debug)]
pub struct FdxTransactionList {
    pub transactions: Vec<FdxTransaction>,
    pub page: FdxPage,
}

#[derive(Debug)]
pub struct FdxHolding {
    pub holding_id: String,
    pub currency: FdxCurrency,
    pub position_date: String,
    pub symbol: Option<String>,
    pub description: Option<String>,
    pub market_value: Option<Double>,
    pub cost_basis: Option<Double>,
    pub purchase_price: Option<Double>,
    pub units: Option<Double>,
}

#[derive(Debug)]
pub struct FdxHoldingList {
    pub holdings: Vec<FdxHolding>,
    pub page: FdxPage,
}

#[derive(Debug)]
pub struct HealthResponse {
    pub status: &'static str,
    /// Last successful SimpleFIN fetch (RFC 3339). Absent when SimpleFIN is not configured.
    pub last_fetched: Option<String>,
    pub fetch_error: Option<String>,
    /// Last successful LunchFlow fetch (RFC 3339). Absent when LunchFlow is not configured.
    pub lf_last_fetched: Option<String>,
    pub lf_fetch_error: Option<String>,
}

/// Error body returned on 4xx/5xx responses.
#[derive(Debug)]
pub struct ErrorResponse {
    pub error: String,
}

} // verus!
