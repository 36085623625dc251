use ledger_hub::amount::Amount;
use ledger_hub::db::{is_pending, is_set, posted_bounds, FetchedHolding, FetchedTransaction, Write};
use ledger_hub::fetcher::{
    accounts_query, batch_windows, ingest, resolve_access_url, AccessPlan, FetchedAccount,
    MAX_WINDOW_SECS,
};
use ledger_hub::double::Double;
use ledger_hub::fetcher_loop::{
    check_times, end_cycle, initial_start, next_step, read_timestamp, startup_wait, LoopEvent,
    LoopSettings, LoopStep, StoredSchedule, OVERLAP_SECS,
};
use ledger_hub::lunchflow::db::{
    date_bounds, stored_id, upsert_lf_transactions, LfFetchedTransaction,
};
use ledger_hub::lunchflow::fetcher::{
    needs_warning, next_action, transactions_query, LfAction, LfEvent,
};
use ledger_hub::state::{CacheState, CachedAccount, Provider};

// ---------------------------------------------------------------------------
// Windows
// ---------------------------------------------------------------------------

#[test]
fn batch_windows_single() {
    // Range shorter than 90 days → one window
    let start = 0;
    let end = 30 * 86_400;
    let windows = batch_windows(start, end);
    assert_eq!(windows, vec![(0, end)]);
}

#[test]
fn batch_windows_exact_multiple() {
    // Exactly 180 days → two 90-day windows
    let start = 0;
    let end = 180 * 86_400;
    let windows = batch_windows(start, end);
    assert_eq!(windows.len(), 2);
    assert_eq!(windows[0], (0, 90 * 86_400));
    assert_eq!(windows[1], (90 * 86_400, 180 * 86_400));
}

#[test]
fn batch_windows_remainder() {
    // 100 days → one 90-day window + one 10-day window
    let start = 0;
    let end = 100 * 86_400;
    let windows = batch_windows(start, end);
    assert_eq!(windows.len(), 2);
    assert_eq!(windows[0], (0, 90 * 86_400));
    assert_eq!(windows[1], (90 * 86_400, 100 * 86_400));
}

#[test]
fn batch_windows_empty() {
    // start == end → no windows
    assert!(batch_windows(100, 100).is_empty());
}

#[test]
fn windows_cover_their_range() {
    assert_eq!(MAX_WINDOW_SECS, 90 * 86_400);
    let windows = batch_windows(-5, 3 * MAX_WINDOW_SECS);
    assert_eq!(windows.len(), 4);
    assert_eq!(windows[0].0, -5);
    assert_eq!(windows[3].1, 3 * MAX_WINDOW_SECS);
    for i in 1..windows.len() {
        assert_eq!(windows[i - 1].1, windows[i].0);
    }
    assert!(batch_windows(5, -5).is_empty());
    assert_eq!(
        batch_windows(i64::MAX - 10, i64::MAX),
        vec![(i64::MAX - 10, i64::MAX)]
    );
}

// ---------------------------------------------------------------------------
// Requests
// ---------------------------------------------------------------------------

#[test]
fn a_window_is_asked_for_with_settled_transactions() {
    let q = accounts_query(3, 8);
    assert_eq!(q.start_date, Some(3));
    assert_eq!(q.end_date, Some(8));
    assert!(!q.pending);
    assert!(q.accounts.is_empty());
    assert!(!q.balances_only);
}

#[test]
fn a_stored_url_is_preferred_to_a_token() {
    let url = || Some("https://bridge".to_string());
    let token = || Some("token".to_string());
    assert!(matches!(resolve_access_url(url(), token()), AccessPlan::Use(u) if u == "https://bridge"));
    assert!(matches!(resolve_access_url(url(), None), AccessPlan::Use(_)));
    assert!(matches!(resolve_access_url(None, token()), AccessPlan::Claim(t) if t == "token"));
    match resolve_access_url(None, None) {
        AccessPlan::Missing(text) => assert_eq!(
            text,
            "No access URL in database and SIMPLEFIN_SETUP_TOKEN not set. \
             Set SIMPLEFIN_SETUP_TOKEN to the token from your SimpleFIN bridge."
        ),
        other => panic!("{other:?}"),
    }
}

#[test]
fn lunchflow_dates_span_the_cycle() {
    let q = transactions_query(1_705_276_800, 1_705_276_800 + 3 * 86_400 + 5);
    assert!(q.include_pending);
    assert_eq!(q.from.as_deref(), Some("2024-01-15"));
    assert_eq!(q.to.as_deref(), Some("2024-01-18"));
}

// ---------------------------------------------------------------------------
// Replies
// ---------------------------------------------------------------------------

fn amount(text: &str) -> Amount {
    Amount {
        text: text.to_string(),
        parsed: None,
    }
}

fn transaction(id: &str, posted: i64, pending: Option<bool>) -> FetchedTransaction {
    FetchedTransaction {
        id: id.to_string(),
        posted,
        amount: "-1.00".to_string(),
        description: "desc".to_string(),
        payee: Some("payee".to_string()),
        memo: None,
        transacted_at: Some(7),
        pending,
        extra: Some("{}".to_string()),
    }
}

fn holding(id: &str) -> FetchedHolding {
    FetchedHolding {
        id: id.to_string(),
        created: 4,
        currency: "USD".to_string(),
        cost_basis: None,
        description: None,
        market_value: Some("12.5".to_string()),
        purchase_price: None,
        shares: None,
        symbol: Some("ABC".to_string()),
    }
}

fn account(id: &str, transactions: Option<Vec<FetchedTransaction>>, holdings: Vec<FetchedHolding>) -> FetchedAccount {
    FetchedAccount {
        id: id.to_string(),
        name: format!("name {id}"),
        currency: "USD".to_string(),
        balance: amount("5.00"),
        balance_date: 99,
        available_balance: None,
        conn_id: Some("c".to_string()),
        transactions,
        holdings,
    }
}

#[test]
fn replies_are_written_account_by_account() {
    let accounts = vec![
        account(
            "A",
            Some(vec![transaction("t1", 10, None), transaction("t2", 0, Some(false))]),
            vec![holding("h1")],
        ),
        account("B", None, vec![]),
    ];
    let r = ingest(&accounts);
    assert_eq!(r.accounts.len(), 2);
    assert_eq!(r.accounts[1].id, "B");
    assert_eq!(r.accounts[1].name, "name B");
    let kinds: Vec<String> = r
        .writes
        .iter()
        .map(|w| match w {
            Write::Account(a) => format!("account {}", a.id),
            Write::Transaction(t) => format!("transaction {} {} {}", t.account_id, t.id, t.pending),
            Write::Holding { account_id, holding } => format!("holding {} {}", account_id, holding.id),
        })
        .collect();
    assert_eq!(
        kinds,
        vec![
            "account A",
            "transaction A t1 0",
            "transaction A t2 1",
            "holding A h1",
            "account B",
        ]
    );
}

#[test]
fn a_repeated_reply_is_written_alike() {
    let reply = || vec![account("A", Some(vec![transaction("t1", 10, None)]), vec![holding("h1")])];
    let first = ingest(&reply());
    let again = ingest(&reply());
    assert_eq!(format!("{:?}", first.writes), format!("{:?}", again.writes));
}

#[test]
fn transactions_without_posting_time_are_pending() {
    assert!(is_pending(None, 0));
    assert!(is_pending(Some(false), 0));
    assert!(is_pending(Some(true), 5));
    assert!(!is_pending(Some(false), 5));
    assert!(!is_pending(None, 5));
    assert!(is_set(1) && !is_set(0));
}

#[test]
fn open_bounds_are_filled_in() {
    assert_eq!(posted_bounds(None, None, 77), (0, 77));
    assert_eq!(posted_bounds(Some(-4), Some(4), 77), (-4, 4));
    assert_eq!(
        date_bounds(None, None),
        ("0000-01-01".to_string(), "9999-12-31".to_string())
    );
    assert_eq!(
        date_bounds(Some(0), Some(1_705_363_199)),
        ("1970-01-01".to_string(), "2024-01-15".to_string())
    );
}

#[test]
fn pending_transactions_get_an_id_of_account_and_date() {
    assert_eq!(stored_id(&Some("x".to_string()), 7, "2024-01-15"), "x");
    assert_eq!(stored_id(&None, 7, "2024-01-15"), "lf_pending_7_2024-01-15");
    assert_ne!(stored_id(&None, 7, "2024-01-15"), stored_id(&None, 71, "2024-01-15"));
    assert_eq!(
        stored_id(&None, u64::MAX, ""),
        "lf_pending_18446744073709551615_"
    );
}

// ---------------------------------------------------------------------------
// Schedule
// ---------------------------------------------------------------------------

#[test]
fn a_first_run_goes_back_the_given_days() {
    assert_eq!(initial_start(true, None, None, 10_000_000, 90), 10_000_000 - 90 * 86_400);
    assert_eq!(initial_start(false, None, None, 10_000_000, 1), 10_000_000 - 86_400);
    // A provider that stores its start does not derive it from the last fetch.
    assert_eq!(initial_start(true, None, Some(5), 10_000_000, 0), 10_000_000);
    assert_eq!(initial_start(true, Some(123), Some(5), 10_000_000, 90), 123);
    assert_eq!(initial_start(false, Some(123), Some(500_000), 10_000_000, 90), 413_600);
}

#[test]
fn a_restart_resumes_where_the_last_run_stopped() {
    for stores_start in [false, true] {
        let end = end_cycle(1_000, 2_000_000, true, stores_start);
        assert_eq!(end.from_ts, 2_000_000 - 86_400);
        assert_eq!(end.last_fetched.as_deref(), Some("2000000"));
        assert_eq!(end.next_start.is_some(), stores_start);
        let last_fetched = read_timestamp(&end.last_fetched);
        let next_start = read_timestamp(&end.next_start);
        assert_eq!(last_fetched, Some(2_000_000));
        assert_eq!(
            initial_start(stores_start, next_start, last_fetched, 2_000_100, 90),
            end.from_ts
        );
    }
}

#[test]
fn a_failed_cycle_is_tried_again() {
    let end = end_cycle(1_000, 2_000_000, false, true);
    assert_eq!(end.from_ts, 1_000);
    assert!(end.last_fetched.is_none());
    assert!(end.next_start.is_none());
}

#[test]
fn no_moment_is_left_out_between_cycles() {
    // Cycles ending an hour apart, some of which fail.
    let mut from_ts = 0;
    let mut covered_to = 0;
    for i in 1..200i64 {
        let now = i * 3600;
        let fetched = i % 7 < 3;
        if fetched {
            assert!(from_ts <= covered_to);
            covered_to = now;
        }
        from_ts = end_cycle(from_ts, now, fetched, true).from_ts;
    }
    assert!(covered_to > 0);
}

#[test]
fn a_restart_waits_out_the_interval() {
    assert_eq!(startup_wait(None, 5_000, 3600), 0);
    assert_eq!(startup_wait(Some(4_000), 5_000, 3600), 2_600);
    assert_eq!(startup_wait(Some(1_000), 5_000, 3600), 0);
    assert_eq!(startup_wait(Some(1_400), 5_000, 3600), 0);
    // A last fetch in the future counts as just now.
    assert_eq!(startup_wait(Some(9_000), 5_000, 3600), 3600);
}

#[test]
fn stored_texts_that_are_no_numbers_are_absent() {
    assert_eq!(read_timestamp(&None), None);
    for (text, expected) in [
        ("17", Some(17)),
        ("-17", Some(-17)),
        ("+17", Some(17)),
        ("", None),
        ("-", None),
        ("1 7", None),
        ("9223372036854775807", Some(i64::MAX)),
        ("9223372036854775808", None),
        ("-9223372036854775808", Some(i64::MIN)),
    ] {
        assert_eq!(read_timestamp(&Some(text.to_string())), expected, "{text}");
        assert_eq!(text.parse::<i64>().ok(), expected);
    }
}

// ---------------------------------------------------------------------------
// LunchFlow accounts
// ---------------------------------------------------------------------------

fn actions(active: bool, events: &[LfEvent]) -> Vec<LfAction> {
    let mut action = LfAction::FetchBalance;
    let mut r = vec![action];
    for e in events {
        action = next_action(active, action, *e);
        r.push(action);
    }
    r
}

#[test]
fn an_active_account_is_fetched_in_full() {
    assert_eq!(
        actions(true, &[LfEvent::Done; 6]),
        vec![
            LfAction::FetchBalance,
            LfAction::StoreAccount { with_balance: true },
            LfAction::FetchTransactions,
            LfAction::StoreTransactions,
            LfAction::FetchHoldings,
            LfAction::ReplaceHoldings,
            LfAction::Finish,
        ]
    );
}

#[test]
fn an_inactive_account_is_only_written() {
    assert_eq!(
        actions(false, &[LfEvent::Failed, LfEvent::Done, LfEvent::Done]),
        vec![
            LfAction::FetchBalance,
            LfAction::StoreAccount { with_balance: false },
            LfAction::Finish,
            LfAction::Finish,
        ]
    );
}

#[test]
fn only_failed_writes_end_a_cycle() {
    assert_eq!(
        actions(
            true,
            &[LfEvent::Done, LfEvent::Done, LfEvent::Failed, LfEvent::Unsupported]
        )
        .last(),
        Some(&LfAction::Finish)
    );
    assert_eq!(
        actions(true, &[LfEvent::Done, LfEvent::Failed]).last(),
        Some(&LfAction::Fail)
    );
    assert_eq!(
        next_action(true, LfAction::StoreTransactions, LfEvent::Failed),
        LfAction::Fail
    );
    assert_eq!(
        next_action(true, LfAction::ReplaceHoldings, LfEvent::Failed),
        LfAction::Fail
    );
    assert!(!needs_warning(LfAction::FetchHoldings, LfEvent::Unsupported));
    assert!(needs_warning(LfAction::FetchHoldings, LfEvent::Failed));
    assert!(!needs_warning(LfAction::FetchBalance, LfEvent::Done));
}

// ---------------------------------------------------------------------------
// State
// ---------------------------------------------------------------------------

fn cached(id: &str) -> CachedAccount {
    CachedAccount {
        id: id.to_string(),
        name: "n".to_string(),
        currency: "USD".to_string(),
        balance: amount("1"),
        balance_date: 0,
        available_balance: None,
        conn_id: None,
    }
}

#[test]
fn failures_keep_what_is_served() {
    let mut state = CacheState::default();
    state.preload_accounts(vec![cached("A")]);
    state.preload_accounts(vec![]);
    assert_eq!(state.accounts.len(), 1);
    state.restore_last_fetched(Provider::SimpleFin, 5);
    state.on_failure(Provider::SimpleFin, "down".to_string());
    assert_eq!(state.accounts.len(), 1);
    assert_eq!(state.last_fetched, Some(5));
    assert_eq!(state.fetch_error.as_deref(), Some("down"));
    assert_eq!(state.lf_fetch_error, None);
    state.on_success(Provider::SimpleFin, 9);
    assert_eq!(state.last_fetched, Some(9));
    assert_eq!(state.fetch_error, None);
    state.on_failure(Provider::LunchFlow, "late".to_string());
    assert_eq!(state.lf_fetch_error.as_deref(), Some("late"));
    state.restore_last_fetched(Provider::LunchFlow, 3);
    state.on_success(Provider::LunchFlow, 4);
    assert_eq!(state.lf_last_fetched, Some(4));
    assert_eq!(state.lf_fetch_error, None);
    state.replace_accounts(vec![]);
    assert!(state.accounts.is_empty());
}

// ---------------------------------------------------------------------------
// The loop, step by step
// ---------------------------------------------------------------------------

const SETTINGS: LoopSettings = LoopSettings {
    stores_start: true,
    fetch_interval_secs: 3_600,
    start_date_days_back: 30,
};

const NOW: i64 = 1_705_276_800;

fn text(s: &str) -> Option<String> {
    Some(s.to_string())
}

fn loaded(last_fetched: Option<&str>, next_start: Option<&str>) -> LoopEvent {
    LoopEvent::Loaded(StoredSchedule {
        last_fetched: last_fetched.map(str::to_string),
        next_start: next_start.map(str::to_string),
    })
}

/// Runs a loop from its start and compares its step after each event.
fn assert_steps(settings: LoopSettings, expected: Vec<(LoopEvent, LoopStep)>) {
    let mut step = LoopStep::Startup;
    for (event, then) in expected {
        assert!(check_times(settings, &step, &event));
        step = next_step(settings, step, event);
        assert_eq!(step, then);
    }
}

#[test]
fn loop_starts_afresh() {
    assert_steps(
        SETTINGS,
        vec![
            (LoopEvent::Done, LoopStep::Load),
            (
                loaded(Some("soon"), None),
                LoopStep::Schedule { last_fetched: None, next_start: None },
            ),
            (LoopEvent::Clock { now: NOW }, LoopStep::Fetch { from_ts: NOW - 30 * 86_400 }),
        ],
    );
}

#[test]
fn loop_resumes_what_was_stored() {
    let last = (NOW - 600).to_string();
    let derived = LoopSettings { stores_start: false, ..SETTINGS };
    for (settings, from_ts) in [(SETTINGS, 1_000), (derived, NOW - 600 - OVERLAP_SECS)] {
        assert_steps(
            settings,
            vec![
                (LoopEvent::Done, LoopStep::Load),
                (
                    loaded(Some(&last), Some("1000")),
                    LoopStep::Restore { ts: NOW - 600, next_start: Some(1_000) },
                ),
                (
                    LoopEvent::Done,
                    LoopStep::Schedule { last_fetched: Some(NOW - 600), next_start: Some(1_000) },
                ),
                (LoopEvent::Clock { now: NOW }, LoopStep::Pause { secs: 3_000, from_ts }),
                (LoopEvent::Done, LoopStep::Fetch { from_ts }),
            ],
        );
    }
}

/// A start that leads straight to a fetch from 5.
fn start_at_five() -> Vec<(LoopEvent, LoopStep)> {
    vec![
        (LoopEvent::Done, LoopStep::Load),
        (
            loaded(None, Some("5")),
            LoopStep::Schedule { last_fetched: None, next_start: Some(5) },
        ),
        (LoopEvent::Clock { now: NOW }, LoopStep::Fetch { from_ts: 5 }),
    ]
}

#[test]
fn loop_follows_up_a_success_once() {
    let now = NOW + 1;
    let next = now - OVERLAP_SECS;
    let mut expected = start_at_five();
    expected.push((LoopEvent::Fetched { now }, LoopStep::MarkSuccess { from_ts: 5, now }));
    expected.push((LoopEvent::Done, LoopStep::Record { from_ts: 5, now }));
    expected.push((LoopEvent::Done, LoopStep::FollowUp { now }));
    expected.push((LoopEvent::Done, LoopStep::Pause { secs: 3_600, from_ts: next }));
    expected.push((LoopEvent::Done, LoopStep::Fetch { from_ts: next }));
    assert_steps(SETTINGS, expected);
    // What is recorded is where the loop goes on.
    let end = end_cycle(5, now, true, true);
    assert_eq!((end.from_ts, end.next_start), (next, text(&next.to_string())));
}

#[test]
fn loop_retries_a_failure() {
    let mut expected = start_at_five();
    expected.push((
        LoopEvent::Failed { error: "offline".to_string() },
        LoopStep::MarkFailure { from_ts: 5, error: "offline".to_string() },
    ));
    expected.push((LoopEvent::Done, LoopStep::Pause { secs: 3_600, from_ts: 5 }));
    expected.push((LoopEvent::Done, LoopStep::Fetch { from_ts: 5 }));
    assert_steps(SETTINGS, expected);
}

#[test]
fn loop_checks_its_times() {
    let far = LoopSettings { start_date_days_back: u64::MAX, ..SETTINGS };
    let clock = LoopEvent::Clock { now: NOW };
    let fresh = LoopStep::Schedule { last_fetched: None, next_start: None };
    assert!(check_times(SETTINGS, &fresh, &clock));
    assert!(!check_times(far, &fresh, &clock));
    // Days back do not matter where a start is stored.
    let stored = LoopStep::Schedule { last_fetched: Some(i64::MIN), next_start: Some(0) };
    assert!(check_times(far, &stored, &clock));
    let derived = LoopSettings { stores_start: false, ..SETTINGS };
    assert!(!check_times(derived, &stored, &clock));
    let fetch = LoopStep::Fetch { from_ts: 0 };
    assert!(!check_times(SETTINGS, &fetch, &LoopEvent::Fetched { now: i64::MIN }));
    // A step that does not wait for an event stays.
    assert_eq!(next_step(SETTINGS, fetch, clock), LoopStep::Fetch { from_ts: 0 });
    // A failure needs no room for the overlap.
    assert_eq!(end_cycle(3, i64::MIN, false, true).from_ts, 3);
}

// ---------------------------------------------------------------------------
// LunchFlow records
// ---------------------------------------------------------------------------

fn lf_txn(id: Option<&str>, date: &str, amount: f64, is_pending: bool) -> LfFetchedTransaction {
    LfFetchedTransaction {
        id: id.map(str::to_string),
        amount: Double::from_bits(amount.to_bits()),
        currency: "EUR".to_string(),
        date: date.to_string(),
        merchant: text("Shop"),
        description: None,
        is_pending,
    }
}

#[test]
fn lunchflow_transactions_become_records() {
    let reply = vec![
        lf_txn(Some("t1"), "2024-01-15", -4.5, false),
        lf_txn(None, "2024-01-16", 2.0, true),
    ];
    let records = upsert_lf_transactions(7, &reply);
    assert_eq!(records.len(), 2);
    assert_eq!(records[0].id, "t1");
    assert_eq!(records[0].lf_account_id, 7);
    assert_eq!(f64::from_bits(records[0].amount.to_bits()), -4.5);
    assert_eq!((records[0].currency.as_str(), records[0].date.as_str()), ("EUR", "2024-01-15"));
    assert_eq!((records[0].merchant.clone(), records[0].description.clone()), (text("Shop"), None));
    assert_eq!(records[0].is_pending, 0);
    assert_eq!(records[1].id, "lf_pending_7_2024-01-16");
    assert_eq!(records[1].is_pending, 1);
    assert!(upsert_lf_transactions(7, &vec![]).is_empty());
}

#[test]
fn repeated_lunchflow_replies_leave_the_same_rows() {
    let reply = vec![
        lf_txn(Some("t1"), "2024-01-15", -4.5, false),
        lf_txn(None, "2024-01-16", 2.0, true),
        lf_txn(None, "2024-01-16", 3.0, true),
    ];
    let mut table = std::collections::BTreeMap::new();
    let mut sizes = vec![];
    for _ in 0..2 {
        for r in upsert_lf_transactions(7, &reply) {
            table.insert(r.id, f64::from_bits(r.amount.to_bits()));
        }
        sizes.push(table.len());
    }
    assert_eq!(sizes, vec![2, 2]);
    assert_eq!(table["lf_pending_7_2024-01-16"], 3.0);
}
