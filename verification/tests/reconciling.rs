use ledger_hub::amount::Amount;
use ledger_hub::double::Double;
use ledger_hub::reconciler::accounts::{
    match_accounts, matched_pairs, reconcile_accounts, LfAccount, MatchStatus, ReconciledAccount,
    SfinAccount,
};
use ledger_hub::reconciler::db::{
    get_unified_transactions, get_user_account_rules, unified_bounds, LfOnlyRow,
    LfTransactionColumns, RuleRow, SfinJoinedRow, UnifiedTransaction, UserAccountRule,
    UserReconciliationAction,
};
use ledger_hub::reconciler::scoring::{LfRecent, SfinRecent};
use ledger_hub::reconciler::transactions::{
    match_transactions, reconcile_transactions_for_pair, LfTxnRow, ReconciledTransaction,
    SfinTxnRow,
};

fn double(x: f64) -> Double {
    Double::from_bits(x.to_bits())
}

fn value(d: Double) -> f64 {
    f64::from_bits(d.to_bits())
}

fn amount(text: &str) -> Amount {
    Amount {
        text: text.to_string(),
        parsed: text.parse::<f64>().ok().map(double),
    }
}

fn day(offset: i64) -> i64 {
    1_705_276_800 + offset * 86_400
}

// ---------------------------------------------------------------------------
// Accounts
// ---------------------------------------------------------------------------

fn rule(id: i64, action: UserReconciliationAction, sfin: Option<&str>, lf: Option<i64>) -> UserAccountRule {
    UserAccountRule {
        id,
        sfin_account_id: sfin.map(str::to_string),
        lf_account_id: lf,
        action,
        created_at: 0,
    }
}

fn force(sfin: &str, lf: i64) -> UserAccountRule {
    rule(1, UserReconciliationAction::Match, Some(sfin), Some(lf))
}

fn exclude(sfin: Option<&str>, lf: Option<i64>) -> UserAccountRule {
    rule(1, UserReconciliationAction::Exclude, sfin, lf)
}

fn show(rows: &Vec<ReconciledAccount>) -> Vec<String> {
    rows.iter()
        .map(|r| {
            format!(
                "{} {} {} {}",
                r.sfin_account_id.as_deref().unwrap_or("-"),
                r.lf_account_id.map_or("-".to_string(), |n| n.to_string()),
                value(r.confidence),
                r.status.as_str()
            )
        })
        .collect()
}

fn run(rules: Vec<UserAccountRule>, sfin: &[&str], lf: &[i64], scores: &[&[f64]]) -> Vec<String> {
    let ids: Vec<String> = sfin.iter().map(|s| s.to_string()).collect();
    let grid: Vec<Vec<Double>> = scores
        .iter()
        .map(|row| row.iter().map(|x| double(*x)).collect())
        .collect();
    show(&match_accounts(&rules, &ids, &lf.to_vec(), &grid))
}

#[test]
fn each_account_takes_the_best_that_is_free() {
    assert_eq!(
        run(vec![], &["a", "b"], &[1, 2], &[&[0.7, 0.9], &[0.8, 1.0]]),
        vec!["b 1 0.9 matched", "a 2 0.8 matched"]
    );
    // Equal scores go to the first account.
    assert_eq!(
        run(vec![], &["a", "b"], &[1], &[&[0.7, 0.7]]),
        vec!["a 1 0.7 matched", "b - 0 sfin_only"]
    );
}

#[test]
fn scores_below_the_threshold_leave_accounts_alone() {
    assert_eq!(
        run(vec![], &["a"], &[1], &[&[0.599]]),
        vec!["- 1 0 lf_only", "a - 0 sfin_only"]
    );
    assert_eq!(
        run(vec![], &["a"], &[1], &[&[0.6]]),
        vec!["a 1 0.6 matched"]
    );
    assert_eq!(run(vec![], &[], &[1], &[&[]]), vec!["- 1 0 lf_only"]);
    assert_eq!(run(vec![], &["a"], &[], &[]), vec!["a - 0 sfin_only"]);
}

#[test]
fn rules_take_precedence() {
    assert_eq!(
        run(vec![force("a", 2)], &["a", "b"], &[1, 2], &[&[1.0, 0.9], &[0.0, 1.0]]),
        vec!["a 2 1 matched", "b 1 0.9 matched"]
    );
    // The last rule for an account is the one that counts.
    assert_eq!(
        run(vec![force("a", 1), force("a", 2)], &["a"], &[1, 2], &[&[1.0], &[1.0]]),
        vec!["a 2 1 matched", "- 1 0 lf_only"]
    );
    // A rule on accounts that do not exist is passed over.
    assert_eq!(
        run(vec![force("x", 1), force("a", 9)], &["a"], &[1], &[&[0.8]]),
        vec!["a 1 0.8 matched"]
    );
}

#[test]
fn exclusions_are_respected() {
    let scores: &[&[f64]] = &[&[0.9, 0.8]];
    assert_eq!(
        run(vec![exclude(Some("a"), None)], &["a", "b"], &[1], scores),
        vec!["b 1 0.8 matched", "a - 0 sfin_only"]
    );
    assert_eq!(
        run(vec![exclude(Some("a"), Some(1))], &["a", "b"], &[1], scores),
        vec!["b 1 0.8 matched", "a - 0 sfin_only"]
    );
    assert_eq!(
        run(vec![exclude(None, Some(1))], &["a", "b"], &[1], scores),
        vec!["- 1 0 lf_only", "a - 0 sfin_only", "b - 0 sfin_only"]
    );
    assert_eq!(
        run(vec![exclude(Some("a"), Some(2))], &["a", "b"], &[1], scores),
        vec!["a 1 0.9 matched", "b - 0 sfin_only"]
    );
}

// A simple generator of numbers.
fn numbers(seed: u64, n: usize) -> Vec<u64> {
    let mut x = seed;
    let mut r = Vec::new();
    for _ in 0..n {
        x = x.wrapping_mul(6364136223846793005).wrapping_add(1442695040888963407);
        r.push(x >> 33);
    }
    r
}

#[test]
fn account_links_keep_their_promises() {
    for seed in 0..300u64 {
        let n = numbers(seed, 64);
        let (sfin, lf) = ((n[0] % 5) as usize, (n[1] % 5) as usize);
        let sfin_ids: Vec<String> = (0..sfin).map(|i| format!("s{i}")).collect();
        let lf_ids: Vec<i64> = (0..lf as i64).collect();
        let rules: Vec<UserAccountRule> = (0..(n[2] % 4) as usize)
            .map(|i| {
                let s = format!("s{}", n[3 + 3 * i] % 5);
                let l = (n[4 + 3 * i] % 5) as i64;
                match n[5 + 3 * i] % 4 {
                    0 => force(&s, l),
                    1 => exclude(Some(&s), None),
                    2 => exclude(None, Some(l)),
                    _ => exclude(Some(&s), Some(l)),
                }
            })
            .collect();
        let scores: Vec<Vec<Double>> = (0..lf)
            .map(|l| (0..sfin).map(|s| double((n[20 + 5 * l + s] % 101) as f64 / 100.0)).collect())
            .collect();
        let rows = match_accounts(&rules, &sfin_ids, &lf_ids, &scores);
        let forced: Vec<(String, i64)> = rules
            .iter()
            .filter(|r| r.action == UserReconciliationAction::Match)
            .map(|r| (r.sfin_account_id.clone().unwrap(), r.lf_account_id.unwrap()))
            .collect();

        for id in &sfin_ids {
            assert!(rows.iter().any(|r| r.sfin_account_id.as_ref() == Some(id)));
        }
        for id in &lf_ids {
            assert!(rows.iter().any(|r| r.lf_account_id == Some(*id)));
        }
        for (i, r) in rows.iter().enumerate() {
            match r.status {
                MatchStatus::Matched => {
                    assert!(value(r.confidence) >= 0.6);
                    let pair = (r.sfin_account_id.clone().unwrap(), r.lf_account_id.unwrap());
                    let forbidden = rules.iter().any(|rule| {
                        rule.action == UserReconciliationAction::Exclude
                            && rule.sfin_account_id.as_ref().map_or(true, |s| *s == pair.0)
                            && rule.lf_account_id.map_or(true, |l| l == pair.1)
                    });
                    assert!(forced.contains(&pair) || !forbidden);
                    for other in &rows[i + 1..] {
                        assert_ne!(other.sfin_account_id, r.sfin_account_id);
                        if other.status != MatchStatus::Matched {
                            assert_ne!(other.lf_account_id, r.lf_account_id);
                        }
                    }
                }
                MatchStatus::SfinOnly => assert!(r.lf_account_id.is_none()),
                MatchStatus::LfOnly => assert!(r.sfin_account_id.is_none()),
            }
        }
    }
}

#[test]
fn accounts_left_alone_do_not_match() {
    // Both could match 2; the one that is left scores too low with 1.
    let rows = run(vec![], &["a", "b"], &[1, 2], &[&[0.5, 0.59], &[0.9, 0.8]]);
    assert_eq!(rows, vec!["- 1 0 lf_only", "a 2 0.9 matched", "b - 0 sfin_only"]);
    // Two that are left score enough only where a rule keeps them apart.
    let rows = run(vec![exclude(Some("a"), Some(1))], &["a"], &[1], &[&[0.9]]);
    assert_eq!(rows, vec!["- 1 0 lf_only", "a - 0 sfin_only"]);
}

#[test]
fn accounts_occur_once_unless_rules_share_one() {
    let once = run(
        vec![force("a", 1)],
        &["a", "b", "c"],
        &[1, 2, 3],
        &[&[0.0, 1.0, 1.0], &[1.0, 0.7, 0.2], &[0.1, 0.1, 0.1]],
    );
    assert_eq!(
        once,
        vec!["a 1 1 matched", "b 2 0.7 matched", "- 3 0 lf_only", "c - 0 sfin_only"]
    );
    // Two rules on one LunchFlow account give it two rows.
    let twice = run(vec![force("a", 1), force("b", 1)], &["a", "b"], &[1], &[&[0.0, 0.0]]);
    assert_eq!(twice, vec!["a 1 1 matched", "b 1 1 matched"]);
}

fn sfin_account(id: &str, name: &str, amounts: &[&str]) -> SfinAccount {
    SfinAccount {
        id: id.to_string(),
        name: name.to_string(),
        currency: Some("USD".to_string()),
        recent: amounts
            .iter()
            .map(|a| SfinRecent { posted: day(0), amount: amount(a) })
            .collect(),
    }
}

fn lf_account(id: i64, name: &str, amounts: &[f64]) -> LfAccount {
    LfAccount {
        id,
        name: name.to_string(),
        currency: Some("USD".to_string()),
        recent: amounts
            .iter()
            .map(|a| LfRecent { date: "2024-01-15".to_string(), amount: double(*a) })
            .collect(),
    }
}

#[test]
fn accounts_match_by_transactions_and_name() {
    let sfin = vec![
        sfin_account("A", "Checking", &["-1.00", "-2.00", "-3.00"]),
        sfin_account("B", "Brokerage", &[]),
        sfin_account("C", "Loan", &["-9.00", "-8.00"]),
    ];
    let lf = vec![
        lf_account(1, "BROKERAGE", &[]),
        lf_account(2, "Card", &[1.0, 2.0, 30.0]),
        lf_account(3, "Loan", &[5.0, 6.0]),
    ];
    let rows = reconcile_accounts(&vec![], &sfin, &lf);
    // No transactions: the names decide. Two of three match: the name adds a little.
    let bonus = 0.125_f64 * 0.15;
    assert_eq!(
        show(&rows),
        vec![
            "B 1 1 matched".to_string(),
            format!("A 2 {} matched", 2.0 / 3.0 + bonus),
            "- 3 0 lf_only".to_string(),
            "C - 0 sfin_only".to_string(),
        ]
    );
    assert_eq!(
        matched_pairs(&rows),
        vec![("B".to_string(), 1), ("A".to_string(), 2)]
    );
}

// ---------------------------------------------------------------------------
// Transactions
// ---------------------------------------------------------------------------

fn show_txns(rows: &Vec<ReconciledTransaction>) -> Vec<String> {
    rows.iter()
        .map(|r| {
            format!(
                "{} {} {} {}",
                r.sfin_txn_id.as_deref().unwrap_or("-"),
                r.lf_txn_id.as_deref().unwrap_or("-"),
                value(r.confidence),
                r.status.as_str()
            )
        })
        .collect()
}

#[test]
fn each_transaction_takes_the_best_score() {
    let ids = |list: &[&str]| list.iter().map(|s| s.to_string()).collect::<Vec<String>>();
    let grid: Vec<Vec<Double>> = vec![
        vec![double(0.7), double(0.85), double(0.85)],
        vec![double(0.5), double(0.0), double(0.55)],
        vec![double(0.0), double(0.6), double(0.0)],
    ];
    // Of equal scores the last one is taken.
    assert_eq!(
        show_txns(&match_transactions(&ids(&["a", "b", "c"]), &ids(&["x", "y", "z"]), &grid)),
        vec![
            "c x 0.85 matched",
            "- y 0 lf_only",
            "b z 0.6 matched",
            "a - 0 sfin_only",
        ]
    );
}

#[test]
fn stored_transactions_are_reconciled() {
    let sfin = |id: &str, offset: i64, text: &str, pending: i64| SfinTxnRow {
        id: id.to_string(),
        posted: day(offset),
        amount: amount(text),
        description: "KAGI.COM".to_string(),
        pending,
    };
    let lf = |id: &str, date: &str, x: f64, is_pending: i64| LfTxnRow {
        id: id.to_string(),
        date: date.to_string(),
        amount: double(x),
        merchant: Some("Kagi".to_string()),
        description: None,
        is_pending,
    };
    let rows = reconcile_transactions_for_pair(
        vec![
            sfin("s1", 0, "-10.89", 0),
            sfin("s2", 9, "-5.00", 1),
            sfin("s3", 0, "n/a", 0),
            sfin("s4", 0, "-77.00", 0),
        ],
        vec![
            lf("l1", "2024-01-16", 10.89, 0),
            lf("l2", "2024-01-10", 5.0, 1),
            lf("l3", "2024-01-15", 1.0, 0),
        ],
    );
    assert_eq!(
        show_txns(&rows),
        vec![
            format!("s1 l1 {} matched", 0.4 + 0.25 + 0.15 + 0.05),
            format!("s2 l2 {} matched", 0.4 + 0.3 + 0.15),
            "- l3 0 lf_only".to_string(),
            "s4 - 0 sfin_only".to_string(),
        ]
    );
}

#[test]
fn statuses_have_names() {
    assert_eq!(MatchStatus::Matched.as_str(), "matched");
    assert_eq!(MatchStatus::SfinOnly.as_str(), "sfin_only");
    assert_eq!(MatchStatus::LfOnly.as_str(), "lf_only");
}

// ---------------------------------------------------------------------------
// Unified transactions
// ---------------------------------------------------------------------------

fn joined(id: &str, posted: i64, pending: i64, lunchflow: Option<LfTransactionColumns>) -> SfinJoinedRow {
    SfinJoinedRow {
        recon_status: "sfin_only".to_string(),
        match_confidence: None,
        rec_id: Some(1),
        id: id.to_string(),
        posted,
        amount: amount("1.00"),
        description: String::new(),
        payee: None,
        memo: None,
        pending,
        lunchflow,
    }
}

fn columns(id: &str, date: &str, is_pending: i64) -> LfTransactionColumns {
    LfTransactionColumns {
        id: id.to_string(),
        amount: double(2.0),
        currency: "USD".to_string(),
        date: date.to_string(),
        merchant: None,
        description: None,
        is_pending,
    }
}

fn lf_only(id: &str, date: &str, is_pending: i64) -> LfOnlyRow {
    LfOnlyRow {
        rec_id: Some(2),
        match_confidence: Some(double(0.0)),
        lunchflow: columns(id, date, is_pending),
    }
}

fn ids(list: &Vec<UnifiedTransaction>) -> Vec<String> {
    list.iter()
        .map(|u| match (&u.simplefin, &u.lunchflow) {
            (Some(s), _) => s.id.clone(),
            (None, Some(l)) => l.id.clone(),
            (None, None) => String::new(),
        })
        .collect()
}

#[test]
fn unified_transactions_are_put_in_order() {
    let sfin = || {
        vec![
            joined("s-pending", 0, 1, None),
            joined("s3", day(3), 0, Some(columns("l3", "2024-01-18", 0))),
            joined("s1", day(1), 0, Some(columns("l1", "2024-01-16", 1))),
            joined("s0", day(0), 0, None),
        ]
    };
    let alone = get_unified_transactions(sfin(), None);
    assert_eq!(ids(&alone), vec!["s-pending", "s3", "s1", "s0"]);
    assert_eq!(alone[1].lunchflow.as_ref().map(|l| l.id.as_str()), Some("l3"));
    assert_eq!(alone[1].sort_ts, day(3));

    let merged = get_unified_transactions(
        sfin(),
        Some(vec![
            lf_only("l-old", "2024-01-01", 0),
            lf_only("l-same", "2024-01-18", 0),
            lf_only("l-pending", "2024-01-19", 1),
        ]),
    );
    // A row counts as pending when either side is; equal times keep their order.
    assert_eq!(
        ids(&merged),
        vec!["l-pending", "s1", "s-pending", "s3", "l-same", "s0", "l-old"]
    );
    assert_eq!(merged[0].status, "lf_only");
    assert!(merged[0].is_pending() && merged[1].is_pending() && !merged[3].is_pending());
    assert_eq!(merged[0].rec_id, Some(2));
    assert_eq!(merged[0].match_confidence.map(value), Some(0.0));
}

#[test]
fn long_lists_are_sorted_stably() {
    let rows: Vec<SfinJoinedRow> = (0..500)
        .map(|i| joined(&format!("{i}"), (i * 7919) % 13, (i * 31) % 2, None))
        .collect();
    let mut expected: Vec<(i64, i64, i64)> =
        (0..500).map(|i| (1 - (i * 31) % 2, -((i * 7919) % 13), i)).collect();
    expected.sort();
    let merged = get_unified_transactions(rows, Some(vec![]));
    let order: Vec<String> = expected.iter().map(|e| e.2.to_string()).collect();
    assert_eq!(ids(&merged), order);
}

#[test]
fn unified_bounds_cover_both_sides() {
    let open = unified_bounds(None, None, day(9));
    assert_eq!((open.start, open.end), (0, day(9)));
    assert_eq!((open.lf_from.as_str(), open.lf_to.as_str()), ("0000-01-01", "9999-12-31"));
    let closed = unified_bounds(Some(day(0)), Some(day(2) + 5), day(9));
    assert_eq!((closed.start, closed.end), (day(0), day(2) + 5));
    assert_eq!((closed.lf_from.as_str(), closed.lf_to.as_str()), ("2024-01-15", "2024-01-17"));
}

// ---------------------------------------------------------------------------
// Rules
// ---------------------------------------------------------------------------

#[test]
fn rules_with_unknown_actions_are_left_out() {
    let row = |id: i64, action: &str| RuleRow {
        id,
        sfin_account_id: Some("a".to_string()),
        lf_account_id: Some(4),
        action: action.to_string(),
        created_at: 8,
    };
    let rules = get_user_account_rules(vec![row(1, "match"), row(2, "merge"), row(3, "exclude")]);
    assert_eq!(rules.len(), 2);
    assert_eq!((rules[0].id, rules[0].action), (1, UserReconciliationAction::Match));
    assert_eq!((rules[1].id, rules[1].action), (3, UserReconciliationAction::Exclude));
    assert_eq!(rules[1].created_at, 8);
}

#[test]
fn action_names_read_back() {
    for action in [UserReconciliationAction::Match, UserReconciliationAction::Exclude] {
        assert_eq!(UserReconciliationAction::from_str(action.as_str()), Ok(action));
    }
    assert_eq!(UserReconciliationAction::from_str("Match"), Err(()));
}
