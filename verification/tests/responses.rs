use ledger_hub::amount::Amount;
use ledger_hub::config::{Config, Environment};
use ledger_hub::db::{HoldingRow, TransactionRow};
use ledger_hub::double::Double;
use ledger_hub::error::AppError;
use ledger_hub::fdx::mapping::{
    cached_account_to_fdx, date_to_rfc3339, holding_row_to_fdx, lf_account_to_fdx,
    lf_transaction_to_fdx, parse_amount, parse_amount_opt, transaction_row_to_fdx,
    unified_transaction_to_fdx, unix_to_rfc3339,
};
use ledger_hub::fdx::FdxAccountList;
use ledger_hub::fdx::routes::{
    check_account, check_pair, check_ready, create_reconciliation_rule, delete_reconciliation_rule,
    get_account, health, list_accounts, list_holdings, list_transactions, parse_account_source,
    parse_iso8601, set_name_preference, AccountSource, CreateRuleRequest, MatchedAccount,
    MatchedPair, Providers, SetNamePreferenceRequest, StoredAccount, StoredAccounts,
    StoredHoldings, StoredTransactions, TransactionQuery,
};
use ledger_hub::lunchflow::db::{
    LfAccountFull, LfTransactionRow, LfTransactionView, SfinTransactionView, UnifiedTransaction,
    UserReconciliationAction,
};
use ledger_hub::state::{CacheState, CachedAccount};
use ledger_hub::util::{date_str_to_unix, unix_to_date_str};

fn double(x: f64) -> Double {
    Double::from_bits(x.to_bits())
}

fn value(d: Double) -> f64 {
    f64::from_bits(d.to_bits())
}

fn amount(text: &str) -> Amount {
    Amount {
        text: text.to_string(),
        parsed: text.parse::<f64>().ok().map(double),
    }
}

fn sfin_view(id: &str, posted: i64, text: &str, description: &str, pending: bool) -> SfinTransactionView {
    SfinTransactionView {
        id: id.to_string(),
        posted,
        amount: amount(text),
        description: description.to_string(),
        payee: None,
        memo: None,
        pending,
    }
}

fn lf_view(id: &str, amount: f64, date: &str, merchant: Option<&str>) -> LfTransactionView {
    LfTransactionView {
        id: id.to_string(),
        amount: double(amount),
        currency: "USD".to_string(),
        date: date.to_string(),
        merchant: merchant.map(str::to_string),
        description: None,
        is_pending: false,
    }
}

// ---------------------------------------------------------------------------
// unified_transaction_to_fdx
// ---------------------------------------------------------------------------

#[test]
fn matched_transaction_gets_rec_id() {
    let txn = UnifiedTransaction {
        status: "matched".to_string(),
        match_confidence: Some(double(0.85)),
        rec_id: Some(42),
        simplefin: Some(sfin_view(
            "TRN-001",
            1_705_276_800,
            "-311.92",
            "AUTOPAY PAYMENT",
            false,
        )),
        lunchflow: Some(lf_view("lf-001", -311.92, "2024-01-15", Some("Payment"))),
        sort_ts: 1_705_276_800,
    };
    let fdx = unified_transaction_to_fdx(&txn);

    assert_eq!(fdx.transaction_id, "REC-42");
    assert_eq!(value(fdx.amount), -311.92);
    assert_eq!(fdx.status, "POSTED");
    assert_eq!(fdx.debit_credit_memo, "DEBIT");
    assert_eq!(fdx.reconciliation_status.as_deref(), Some("matched"));
    assert_eq!(fdx.match_confidence.map(value), Some(0.85));

    let sfin_ext = fdx
        .simplefin_transaction
        .expect("simplefin_transaction should be present");
    assert_eq!(sfin_ext.id, "TRN-001");
    assert_eq!(value(sfin_ext.amount), -311.92);

    let lf_ext = fdx
        .lunchflow_transaction
        .expect("lunchflow_transaction should be present");
    assert_eq!(lf_ext.id, "lf-001");
    assert_eq!(lf_ext.date, "2024-01-15");
}

#[test]
fn matched_transaction_without_rec_id_falls_back_to_sfin_id() {
    let txn = UnifiedTransaction {
        status: "matched".to_string(),
        match_confidence: Some(double(1.0)),
        rec_id: None,
        simplefin: Some(sfin_view(
            "TRN-002",
            1_705_276_800,
            "-28.11",
            "CLOUD WORKSPACE",
            false,
        )),
        lunchflow: Some(lf_view(
            "lf-002",
            -28.11,
            "2024-01-14",
            Some("Cloud Workspace"),
        )),
        sort_ts: 1_705_276_800,
    };
    let fdx = unified_transaction_to_fdx(&txn);

    assert_eq!(fdx.transaction_id, "TRN-002");
    assert!(fdx.simplefin_transaction.is_some());
}

#[test]
fn sfin_only_keeps_source_id_and_no_nested_refs() {
    let txn = UnifiedTransaction {
        status: "sfin_only".to_string(),
        match_confidence: None,
        rec_id: Some(99),
        simplefin: Some(sfin_view(
            "TRN-LULU",
            1_705_276_800,
            "72.00",
            "LULULEMON RETURN",
            false,
        )),
        lunchflow: None,
        sort_ts: 1_705_276_800,
    };
    let fdx = unified_transaction_to_fdx(&txn);

    assert_eq!(fdx.transaction_id, "TRN-LULU");
    assert_eq!(value(fdx.amount), 72.00);
    assert_eq!(fdx.debit_credit_memo, "CREDIT");
    assert_eq!(fdx.reconciliation_status.as_deref(), Some("sfin_only"));
    assert!(
        fdx.simplefin_transaction.is_none(),
        "no nested ref for sfin_only"
    );
    assert!(fdx.lunchflow_transaction.is_none());
}

#[test]
fn lf_only_keeps_source_id_and_no_nested_refs() {
    let txn = UnifiedTransaction {
        status: "lf_only".to_string(),
        match_confidence: None,
        rec_id: Some(77),
        simplefin: None,
        lunchflow: Some(LfTransactionView {
            id: "lf-jal-001".to_string(),
            amount: double(-242.20),
            currency: "USD".to_string(),
            date: "2024-01-10".to_string(),
            merchant: Some("Japan Airlines".to_string()),
            description: None,
            is_pending: false,
        }),
        sort_ts: 1_704_844_800,
    };
    let fdx = unified_transaction_to_fdx(&txn);

    assert_eq!(fdx.transaction_id, "lf-jal-001");
    assert_eq!(value(fdx.amount), -242.20);
    assert_eq!(fdx.debit_credit_memo, "DEBIT");
    assert_eq!(fdx.description, "Japan Airlines");
    assert_eq!(fdx.reconciliation_status.as_deref(), Some("lf_only"));
    assert!(fdx.simplefin_transaction.is_none());
    assert!(fdx.lunchflow_transaction.is_none());
    assert_eq!(fdx.posted_timestamp, "2024-01-10T00:00:00+00:00");
}

#[test]
fn pending_sfin_transaction_maps_to_pending_status() {
    let txn = UnifiedTransaction {
        status: "matched".to_string(),
        match_confidence: Some(double(0.85)),
        rec_id: Some(55),
        simplefin: Some(sfin_view("TRN-KAGI", 0, "-10.89", "RCH*KAGI.COM", true)),
        lunchflow: Some(LfTransactionView {
            id: "lf-pending-kagi".to_string(),
            amount: double(-10.89),
            currency: "USD".to_string(),
            date: "2024-01-15".to_string(),
            merchant: Some("Kagi".to_string()),
            description: None,
            is_pending: true,
        }),
        sort_ts: 0,
    };
    let fdx = unified_transaction_to_fdx(&txn);

    assert_eq!(fdx.status, "PENDING");
    assert_eq!(fdx.transaction_id, "REC-55");
    assert_eq!(value(fdx.amount), -10.89);
}

#[test]
fn positive_amount_is_credit() {
    let txn = UnifiedTransaction {
        status: "sfin_only".to_string(),
        match_confidence: None,
        rec_id: None,
        simplefin: Some(sfin_view(
            "TRN-REF",
            1_705_276_800,
            "499.00",
            "BENEFIT REIMBURSEMENT",
            false,
        )),
        lunchflow: None,
        sort_ts: 1_705_276_800,
    };
    let fdx = unified_transaction_to_fdx(&txn);
    assert_eq!(fdx.debit_credit_memo, "CREDIT");
    assert_eq!(value(fdx.amount), 499.00);
}

#[test]
fn nested_source_drops_empty_texts() {
    let mut sfin = sfin_view("T", 0, "1", "", false);
    sfin.memo = Some(String::new());
    sfin.payee = Some(String::new());
    let txn = UnifiedTransaction {
        status: "matched".to_string(),
        match_confidence: None,
        rec_id: Some(-7),
        simplefin: Some(sfin),
        lunchflow: None,
        sort_ts: 0,
    };
    let fdx = unified_transaction_to_fdx(&txn);
    assert_eq!(fdx.transaction_id, "REC--7");
    assert_eq!(fdx.memo.as_deref(), Some(""));
    let ext = fdx.simplefin_transaction.expect("attached");
    assert_eq!(ext.description, None);
    assert_eq!(ext.memo, None);
    assert_eq!(ext.payee.as_deref(), Some(""));
    assert!(fdx.lunchflow_transaction.is_none());
}

#[test]
fn a_transaction_without_sides_is_empty() {
    let txn = UnifiedTransaction {
        status: "unreconciled".to_string(),
        match_confidence: Some(double(0.5)),
        rec_id: Some(1),
        simplefin: None,
        lunchflow: None,
        sort_ts: 0,
    };
    let fdx = unified_transaction_to_fdx(&txn);
    assert_eq!(fdx.transaction_id, "");
    assert_eq!(fdx.posted_timestamp, "1970-01-01T00:00:00+00:00");
    assert_eq!((fdx.status, fdx.debit_credit_memo), ("POSTED", "CREDIT"));
    assert_eq!(fdx.match_confidence, None);
    assert_eq!(fdx.reconciliation_status.as_deref(), Some("unreconciled"));
}

// ---------------------------------------------------------------------------
// Other mappings
// ---------------------------------------------------------------------------

#[test]
fn timestamps_are_rendered_in_utc() {
    assert_eq!(unix_to_rfc3339(0), "1970-01-01T00:00:00+00:00");
    assert_eq!(unix_to_rfc3339(1_705_314_605), "2024-01-15T10:30:05+00:00");
    assert_eq!(unix_to_rfc3339(-1), "1969-12-31T23:59:59+00:00");
    assert_eq!(unix_to_rfc3339(i64::MAX), "1970-01-01T00:00:00+00:00");
    assert_eq!(unix_to_rfc3339(i64::MIN), "1970-01-01T00:00:00+00:00");
    assert_eq!(unix_to_rfc3339(951_782_400), "2000-02-29T00:00:00+00:00");
    assert_eq!(date_to_rfc3339("2024-02-29"), "2024-02-29T00:00:00+00:00");
    assert_eq!(date_to_rfc3339("2023-02-29"), "1970-01-01T00:00:00+00:00");
}

#[test]
fn dates_read_back() {
    for ts in [0, 1_705_314_605, -1, -62_167_219_200, 253_402_300_799, 951_782_400] {
        let text = unix_to_date_str(ts);
        assert_eq!(date_str_to_unix(&text), ts.div_euclid(86_400) * 86_400, "{text}");
        assert_eq!(parse_iso8601(&unix_to_rfc3339(ts)), Some(ts));
    }
    assert_eq!(unix_to_date_str(1_705_314_605), "2024-01-15");
    assert_eq!(unix_to_date_str(i64::MAX), "1970-01-01");
    assert_eq!(date_str_to_unix("2024-01-15"), 1_705_276_800);
    assert_eq!(date_str_to_unix("not a date"), 0);
}

#[test]
fn amounts_default_to_zero() {
    assert_eq!(value(parse_amount(&amount("12.50"))), 12.5);
    assert_eq!(value(parse_amount(&amount("twelve"))), 0.0);
    assert_eq!(parse_amount_opt(&None), None);
    assert_eq!(parse_amount_opt(&Some(amount("x"))).map(value), Some(0.0));
    assert_eq!(parse_amount_opt(&Some(amount("-3"))).map(value), Some(-3.0));
}

fn cached(id: &str) -> CachedAccount {
    CachedAccount {
        id: id.to_string(),
        name: format!("Name {id}"),
        currency: "EUR".to_string(),
        balance: amount("1234.56"),
        balance_date: 1_705_276_800,
        available_balance: Some(amount("1200.00")),
        conn_id: None,
    }
}

fn lf_full(id: i64, name: &str, currency: Option<&str>, balance: Option<f64>) -> LfAccountFull {
    LfAccountFull {
        id,
        name: name.to_string(),
        currency: currency.map(str::to_string),
        balance: balance.map(double),
        fetched_at: 1_705_276_800,
    }
}

#[test]
fn accounts_are_mapped() {
    let a = cached_account_to_fdx(&cached("abc"), "SIMPLEFIN-");
    assert_eq!(a.account_id, "SIMPLEFIN-abc");
    assert_eq!(a.account_type, "OTHER");
    assert_eq!(a.display_name, "Name abc");
    assert_eq!(a.currency.currency_code, "EUR");
    assert_eq!(value(a.current_balance), 1234.56);
    assert_eq!(a.available_balance.map(value), Some(1200.0));
    assert_eq!(a.balance_date, "2024-01-15T00:00:00+00:00");
    let l = lf_account_to_fdx(&lf_full(42, "Savings", None, None));
    assert_eq!(l.account_id, "LUNCHFLOW-42");
    assert_eq!(l.currency.currency_code, "USD");
    assert_eq!(value(l.current_balance), 0.0);
    assert_eq!(l.available_balance, None);
    let m = lf_account_to_fdx(&lf_full(-3, "Savings", Some("AUD"), Some(5.5)));
    assert_eq!(m.account_id, "LUNCHFLOW--3");
    assert_eq!(m.currency.currency_code, "AUD");
    assert_eq!(value(m.current_balance), 5.5);
}

#[test]
fn rows_are_mapped() {
    let t = transaction_row_to_fdx(&TransactionRow {
        id: "t".to_string(),
        posted: 1_705_276_800,
        amount: amount("-42.00"),
        description: "Coffee shop".to_string(),
        payee: Some("Blue Bottle Coffee".to_string()),
        memo: None,
        transacted_at: Some(0),
        pending: true,
    });
    assert_eq!(t.transaction_timestamp.as_deref(), Some("1970-01-01T00:00:00+00:00"));
    assert_eq!((t.status, t.debit_credit_memo), ("PENDING", "DEBIT"));
    assert_eq!(t.reconciliation_status, None);
    let l = lf_transaction_to_fdx(
        &"l".to_string(),
        double(-0.0),
        "2024-01-15",
        &None,
        &Some("note".to_string()),
        false,
    );
    assert_eq!(l.description, "note");
    assert_eq!((l.status, l.debit_credit_memo), ("POSTED", "CREDIT"));
    assert_eq!(l.memo.as_deref(), Some("note"));
    let n = lf_transaction_to_fdx(&"l".to_string(), double(1.0), "", &None, &None, true);
    assert_eq!(n.description, "(no description)");
    let h = holding_row_to_fdx(&HoldingRow {
        id: "h".to_string(),
        created: 0,
        currency: "USD".to_string(),
        cost_basis: Some(amount("12000.00")),
        description: None,
        market_value: Some(amount("15234.56")),
        purchase_price: None,
        shares: Some(amount("100.0")),
        symbol: Some("AAPL".to_string()),
    });
    assert_eq!(h.cost_basis.map(value), Some(12000.0));
    assert_eq!(h.market_value.map(value), Some(15234.56));
    assert_eq!(h.purchase_price, None);
    assert_eq!(h.units.map(value), Some(100.0));
    assert_eq!(h.position_date, "1970-01-01T00:00:00+00:00");
}

// ---------------------------------------------------------------------------
// Requests
// ---------------------------------------------------------------------------

const BOTH: Providers = Providers {
    simplefin: true,
    lunchflow: true,
};

fn state(ids: &[&str]) -> CacheState {
    CacheState {
        accounts: ids.iter().map(|id| cached(id)).collect(),
        last_fetched: Some(1_705_276_800),
        fetch_error: None,
        lf_last_fetched: None,
        lf_fetch_error: None,
    }
}

#[test]
fn account_ids_tell_their_source() {
    assert!(matches!(parse_account_source("SIMPLEFIN-a-b"), Ok(AccountSource::SimpleFin(s)) if s == "a-b"));
    assert!(matches!(parse_account_source("SIMPLEFIN-"), Ok(AccountSource::SimpleFin(s)) if s.is_empty()));
    assert!(matches!(parse_account_source("LUNCHFLOW-42"), Ok(AccountSource::LunchFlow(42))));
    assert!(matches!(parse_account_source("REC-x"), Ok(AccountSource::Reconciled(s)) if s == "x"));
    for id in ["LUNCHFLOW-", "LUNCHFLOW-x", "rec-x", "x", "", "SIMPLEFIN"] {
        assert!(matches!(parse_account_source(id), Err(AppError::AccountNotFound)), "{id}");
    }
}

#[test]
fn readiness_needs_data_of_a_configured_provider() {
    let none = CacheState::default();
    assert!(matches!(check_ready(&none, BOTH), Err(AppError::NotReady)));
    let mut sfin = CacheState::default();
    sfin.last_fetched = Some(1);
    assert!(check_ready(&sfin, BOTH).is_ok());
    assert!(matches!(
        check_ready(&sfin, Providers { simplefin: false, lunchflow: true }),
        Err(AppError::NotReady)
    ));
    let mut lf = CacheState::default();
    lf.lf_last_fetched = Some(1);
    assert!(check_ready(&lf, BOTH).is_ok());
    let mut loaded = CacheState::default();
    loaded.accounts.push(cached("a"));
    assert!(check_ready(&loaded, Providers { simplefin: true, lunchflow: false }).is_ok());
    assert!(matches!(
        check_account(&loaded, BOTH, &"b".to_string()),
        Err(AppError::AccountNotFound)
    ));
    assert!(matches!(
        check_account(&none, BOTH, &"b".to_string()),
        Err(AppError::NotReady)
    ));
}

fn pair(sfin: Option<&str>, lf: Option<i64>) -> MatchedPair {
    MatchedPair {
        sfin_account_id: sfin.map(str::to_string),
        lf_account_id: lf,
    }
}

fn stored_accounts() -> StoredAccounts {
    StoredAccounts {
        lf_accounts: vec![lf_full(1, "One", None, None), lf_full(2, "Two", None, None)],
        pairs: vec![
            pair(Some("a"), Some(1)),
            pair(Some("gone"), Some(2)),
            pair(Some("b"), Some(2)),
            pair(None, Some(2)),
            pair(Some("b"), None),
        ],
        lf_name_preferences: vec!["b".to_string()],
    }
}

fn ids(list: &FdxAccountList) -> Vec<&str> {
    list.accounts.iter().map(|a| a.account_id.as_str()).collect()
}

#[test]
fn accounts_and_pairs_are_listed() {
    let list = list_accounts(&state(&["a", "b", "c"]), BOTH, &stored_accounts()).expect("ready");
    assert_eq!(ids(&list), vec!["SIMPLEFIN-c", "REC-a", "REC-b"]);
    assert_eq!(list.page.total, 3);
    assert_eq!(list.accounts[0].simplefin_account_id, None);
    assert_eq!(list.accounts[1].display_name, "Name a");
    assert_eq!(list.accounts[1].simplefin_account_id.as_deref(), Some("SIMPLEFIN-a"));
    assert_eq!(list.accounts[1].lunchflow_account_id.as_deref(), Some("LUNCHFLOW-1"));
    assert_eq!(list.accounts[2].display_name, "Two");

    // Without both providers no pair is listed, and each account stands alone.
    let only = Providers { simplefin: true, lunchflow: false };
    let list = list_accounts(&state(&["a", "b"]), only, &stored_accounts()).expect("ready");
    assert_eq!(ids(&list), vec!["SIMPLEFIN-a", "SIMPLEFIN-b"]);
    assert_eq!(list.page.total, 2);
    let mut lf_state = CacheState::default();
    lf_state.lf_last_fetched = Some(1);
    let only = Providers { simplefin: false, lunchflow: true };
    let list = list_accounts(&lf_state, only, &stored_accounts()).expect("ready");
    assert_eq!(ids(&list), vec!["LUNCHFLOW-1", "LUNCHFLOW-2"]);
    assert_eq!(list.page.total, 2);
    assert!(matches!(
        list_accounts(&CacheState::default(), BOTH, &stored_accounts()),
        Err(AppError::NotReady)
    ));
}

#[test]
fn matched_accounts_are_listed_once() {
    let stored = StoredAccounts {
        lf_accounts: vec![lf_full(1, "One", None, None), lf_full(2, "Two", None, None)],
        pairs: vec![pair(Some("S1"), Some(1))],
        lf_name_preferences: vec![],
    };
    let list = list_accounts(&state(&["S1", "S2"]), BOTH, &stored).expect("ready");
    assert_eq!(ids(&list), vec!["SIMPLEFIN-S2", "LUNCHFLOW-2", "REC-S1"]);
    assert_eq!(list.page.total, 3);
    // A pair whose SimpleFIN account is gone is not listed, its LunchFlow account is.
    let list = list_accounts(&state(&["S2"]), BOTH, &stored).expect("ready");
    assert_eq!(ids(&list), vec!["SIMPLEFIN-S2", "LUNCHFLOW-1", "LUNCHFLOW-2"]);
}

#[test]
fn listed_accounts_are_found() {
    let st = state(&["a", "b", "c"]);
    let list = list_accounts(&st, BOTH, &stored_accounts()).expect("ready");
    for a in &list.accounts {
        let stored = StoredAccount {
            lf_account: Some(lf_full(1, "One", None, None)),
            matched: Some(MatchedAccount {
                lf_account_id: Some(1),
                lf_name: None,
                preferred_source: "simplefin".to_string(),
            }),
        };
        let found = get_account(&a.account_id, &st, BOTH, &stored);
        assert!(found.is_ok(), "{}", a.account_id);
    }
}

#[test]
fn single_accounts_are_found_by_id() {
    let st = state(&["a"]);
    let matched = |lf: Option<i64>, name: Option<&str>, source: &str| StoredAccount {
        lf_account: None,
        matched: Some(MatchedAccount {
            lf_account_id: lf,
            lf_name: name.map(str::to_string),
            preferred_source: source.to_string(),
        }),
    };
    let none = StoredAccount { lf_account: None, matched: None };
    let a = get_account("SIMPLEFIN-a", &st, BOTH, &none).expect("known");
    assert_eq!(a.account_id, "SIMPLEFIN-a");
    let r = get_account("REC-a", &st, BOTH, &matched(Some(7), Some("LF"), "lunchflow")).expect("known");
    assert_eq!(r.display_name, "LF");
    assert_eq!(r.account_id, "REC-a");
    assert_eq!(r.lunchflow_account_id.as_deref(), Some("LUNCHFLOW-7"));
    assert_eq!(r.simplefin_account_id.as_deref(), Some("SIMPLEFIN-a"));
    let r = get_account("REC-a", &st, BOTH, &matched(Some(7), Some("LF"), "simplefin")).expect("known");
    assert_eq!(r.display_name, "Name a");
    let lf = StoredAccount { lf_account: Some(lf_full(9, "Nine", None, None)), matched: None };
    // LunchFlow accounts come from storage, whether or not anything is in memory.
    let l = get_account("LUNCHFLOW-9", &CacheState::default(), BOTH, &lf).expect("stored");
    assert_eq!(l.display_name, "Nine");
    for id in ["SIMPLEFIN-b", "REC-b", "LUNCHFLOW-9", "b"] {
        assert!(matches!(get_account(id, &st, BOTH, &none), Err(AppError::AccountNotFound)), "{id}");
    }
    for id in ["SIMPLEFIN-a", "REC-a", "LUNCHFLOW-9"] {
        assert!(matches!(
            get_account(id, &CacheState::default(), BOTH, &none),
            Err(AppError::NotReady)
        ));
    }
}

#[test]
fn pairs_that_are_not_matched_are_not_found() {
    let st = state(&["a"]);
    let none = StoredAccount { lf_account: None, matched: None };
    let half = StoredAccount {
        lf_account: None,
        matched: Some(MatchedAccount {
            lf_account_id: None,
            lf_name: Some("LF".to_string()),
            preferred_source: "lunchflow".to_string(),
        }),
    };
    for stored in [none, half] {
        assert!(matches!(
            get_account("REC-a", &st, BOTH, &stored),
            Err(AppError::AccountNotFound)
        ));
        assert!(get_account("SIMPLEFIN-a", &st, BOTH, &stored).is_ok());
    }
    let mut txns = stored_transactions(true);
    txns.matched = false;
    assert!(matches!(
        list_transactions("REC-a", &st, BOTH, &txns),
        Err(AppError::AccountNotFound)
    ));
    assert!(list_transactions("SIMPLEFIN-a", &st, BOTH, &txns).is_ok());
    let holdings = StoredHoldings { rows: vec![], lf_account_exists: true, matched: false };
    assert!(matches!(
        list_holdings("REC-a", &st, BOTH, &holdings),
        Err(AppError::AccountNotFound)
    ));
    assert!(list_holdings("SIMPLEFIN-a", &st, BOTH, &holdings).is_ok());
    assert!(matches!(
        check_pair(&CacheState::default(), BOTH, &"a".to_string(), false),
        Err(AppError::NotReady)
    ));
    assert_eq!(check_pair(&st, BOTH, &"a".to_string(), true).ok(), Some(0));
}

fn stored_transactions(exists: bool) -> StoredTransactions {
    StoredTransactions {
        rows: vec![TransactionRow {
            id: "row".to_string(),
            posted: 0,
            amount: amount("1"),
            description: String::new(),
            payee: None,
            memo: None,
            transacted_at: None,
            pending: false,
        }],
        lf_rows: if exists {
            vec![LfTransactionRow {
                id: "lf-row".to_string(),
                amount: double(1.0),
                date: "2024-01-15".to_string(),
                merchant: None,
                description: None,
                is_pending: false,
            }]
        } else {
            vec![]
        },
        lf_account_exists: false,
        matched: true,
        unified: vec![],
    }
}

#[test]
fn transactions_are_listed_by_source() {
    let st = state(&["a"]);
    let list = list_transactions("SIMPLEFIN-a", &st, BOTH, &stored_transactions(true)).expect("known");
    assert_eq!((list.page.total, list.transactions[0].transaction_id.as_str()), (1, "row"));
    let list = list_transactions("LUNCHFLOW-1", &st, BOTH, &stored_transactions(true)).expect("rows");
    assert_eq!(list.transactions[0].posted_timestamp, "2024-01-15T00:00:00+00:00");
    let list = list_transactions("REC-a", &st, BOTH, &stored_transactions(true)).expect("known");
    assert_eq!(list.page.total, 0);
    for id in ["SIMPLEFIN-b", "REC-b", "LUNCHFLOW-1", "?"] {
        assert!(matches!(
            list_transactions(id, &st, BOTH, &stored_transactions(false)),
            Err(AppError::AccountNotFound)
        ));
    }
    let mut empty = stored_transactions(false);
    empty.lf_account_exists = true;
    assert_eq!(list_transactions("LUNCHFLOW-1", &st, BOTH, &empty).expect("exists").page.total, 0);
    for id in ["SIMPLEFIN-a", "REC-a", "LUNCHFLOW-1"] {
        assert!(matches!(
            list_transactions(id, &CacheState::default(), BOTH, &stored_transactions(false)),
            Err(AppError::NotReady)
        ));
    }
}

#[test]
fn holdings_come_from_simplefin() {
    let st = state(&["a"]);
    let stored = |exists: bool| StoredHoldings {
        rows: vec![HoldingRow {
            id: "h".to_string(),
            created: 0,
            currency: "USD".to_string(),
            cost_basis: None,
            description: None,
            market_value: None,
            purchase_price: None,
            shares: None,
            symbol: None,
        }],
        lf_account_exists: exists,
        matched: true,
    };
    for id in ["SIMPLEFIN-a", "REC-a"] {
        assert_eq!(list_holdings(id, &st, BOTH, &stored(false)).expect("known").page.total, 1);
        assert!(matches!(
            list_holdings(id, &CacheState::default(), BOTH, &stored(false)),
            Err(AppError::NotReady)
        ));
    }
    assert_eq!(list_holdings("LUNCHFLOW-1", &st, BOTH, &stored(true)).expect("exists").page.total, 0);
    for id in ["LUNCHFLOW-1", "SIMPLEFIN-z", "nothing"] {
        assert!(matches!(
            list_holdings(id, &st, BOTH, &stored(false)),
            Err(AppError::AccountNotFound)
        ));
    }
    assert!(matches!(
        list_holdings("LUNCHFLOW-1", &CacheState::default(), BOTH, &stored(false)),
        Err(AppError::NotReady)
    ));
}

#[test]
fn health_shows_errors_and_times() {
    let mut st = state(&[]);
    let h = health(&st, BOTH);
    assert_eq!(h.status, "ok");
    assert_eq!(h.last_fetched.as_deref(), Some("2024-01-15T00:00:00+00:00"));
    assert_eq!(h.lf_last_fetched, None);
    st.lf_fetch_error = Some("down".to_string());
    st.lf_last_fetched = Some(0);
    let h = health(&st, Providers { simplefin: false, lunchflow: true });
    assert_eq!(h.status, "degraded");
    assert_eq!(h.last_fetched, None);
    assert_eq!(h.lf_last_fetched.as_deref(), Some("1970-01-01T00:00:00+00:00"));
    assert_eq!(h.lf_fetch_error.as_deref(), Some("down"));
    assert_eq!(h.fetch_error, None);
}

#[test]
fn bounds_of_a_query_are_timestamps() {
    let q = TransactionQuery {
        start_time: Some("2024-01-15T12:30:05+02:00".to_string()),
        end_time: Some("yesterday".to_string()),
    };
    assert_eq!(q.bounds(), (Some(1_705_314_605), None));
    let q = TransactionQuery { start_time: None, end_time: Some("2024-01-15T00:00:00Z".to_string()) };
    assert_eq!(q.bounds(), (None, Some(1_705_276_800)));
}

fn rule(sfin: Option<&str>, lf: Option<i64>, action: UserReconciliationAction) -> CreateRuleRequest {
    CreateRuleRequest {
        sfin_account_id: sfin.map(str::to_string),
        lf_account_id: lf,
        action,
    }
}

#[test]
fn rules_are_checked() {
    let m = UserReconciliationAction::Match;
    let e = UserReconciliationAction::Exclude;
    assert!(create_reconciliation_rule(&rule(Some("a"), Some(1), m)).is_ok());
    assert!(create_reconciliation_rule(&rule(Some("a"), None, e)).is_ok());
    assert!(create_reconciliation_rule(&rule(None, Some(1), e)).is_ok());
    for action in [m, e] {
        match create_reconciliation_rule(&rule(None, None, action)) {
            Err(AppError::BadRequest(text)) => assert_eq!(
                text,
                "At least one of sfin_account_id or lf_account_id must be provided"
            ),
            other => panic!("{other:?}"),
        }
    }
    match create_reconciliation_rule(&rule(Some("a"), None, m)) {
        Err(AppError::BadRequest(text)) => {
            assert_eq!(text, "action 'match' requires both sfin_account_id and lf_account_id")
        }
        other => panic!("{other:?}"),
    }
    assert!(delete_reconciliation_rule(1).is_ok());
    assert!(matches!(delete_reconciliation_rule(0), Err(AppError::AccountNotFound)));
}

#[test]
fn name_preferences_are_checked() {
    let body = |s: &str| SetNamePreferenceRequest { preferred_source: s.to_string() };
    assert!(set_name_preference(&body("simplefin")).is_ok());
    assert!(set_name_preference(&body("lunchflow")).is_ok());
    match set_name_preference(&body("LunchFlow")) {
        Err(AppError::BadRequest(text)) => {
            assert_eq!(text, "preferred_source must be 'simplefin' or 'lunchflow'")
        }
        other => panic!("{other:?}"),
    }
}

// ---------------------------------------------------------------------------
// Errors and configuration
// ---------------------------------------------------------------------------

#[test]
fn errors_have_status_and_text() {
    let cases = [
        (AppError::NotReady, 503, "no data available yet — initial fetch in progress"),
        (AppError::AccountNotFound, 404, "account not found"),
        (AppError::BadRequest("b".to_string()), 400, "b"),
        (AppError::Conflict("c".to_string()), 409, "c"),
        (AppError::Database("d".to_string()), 500, "database error: d"),
        (AppError::Internal("i".to_string()), 500, "internal error: i"),
    ];
    for (e, status, text) in cases {
        assert_eq!(e.status_code(), status);
        assert_eq!(e.message(), text);
    }
    let conflict = AppError::from_storage(true, "UNIQUE".to_string());
    assert_eq!(conflict.status_code(), 409);
    assert_eq!(conflict.message(), "a rule for this account pair already exists");
    assert_eq!(
        AppError::from_storage(false, "locked".to_string()).message(),
        "database error: locked"
    );
    assert_eq!(
        AppError::from_lunchflow("x").message(),
        "internal error: LunchFlow error: x"
    );
    assert_eq!(
        AppError::from_simplefin("x").message(),
        "internal error: SimpleFIN error: x"
    );
    assert_eq!(AppError::from_message("x".to_string()).message(), "internal error: x");
}

#[test]
fn configuration_has_defaults() {
    let empty = || Environment {
        setup_token: None,
        lunchflow_api_key: None,
        fetch_interval_secs: None,
        server_addr: None,
        database_url: None,
        start_date_days_back: None,
    };
    let c = Config::from_env(empty());
    assert_eq!(c.fetch_interval_secs, 3600);
    assert_eq!(c.server_addr, "0.0.0.0:8080");
    assert_eq!(c.database_url, "sqlite://simplefin.db");
    assert_eq!(c.start_date_days_back, 90);
    assert!(!c.simplefin_configured(false) && c.simplefin_configured(true));
    assert!(!c.lunchflow_configured());
    let mut env = empty();
    env.setup_token = Some("t".to_string());
    env.lunchflow_api_key = Some("k".to_string());
    env.fetch_interval_secs = Some("60".to_string());
    env.server_addr = Some("127.0.0.1:1".to_string());
    env.database_url = Some("sqlite::memory:".to_string());
    env.start_date_days_back = Some("-1".to_string());
    let c = Config::from_env(env);
    assert!(c.simplefin_configured(false) && c.lunchflow_configured());
    assert_eq!(c.fetch_interval_secs, 60);
    assert_eq!(c.server_addr, "127.0.0.1:1");
    assert_eq!(c.database_url, "sqlite::memory:");
    assert_eq!(c.start_date_days_back, 90);
}
