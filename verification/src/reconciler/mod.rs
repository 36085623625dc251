//! Reconciliation of SimpleFIN and LunchFlow records.
pub mod accounts;
pub mod db;
pub mod scoring;
pub mod transactions;

pub use db::{
    get_unified_transactions, get_user_account_rules, AccountMatchRow, UnifiedTransaction,
    UserAccountRule, UserReconciliationAction,
};
