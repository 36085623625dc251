use ledger_hub::amount::Amount;
use ledger_hub::double::{Double, ONE_BITS};
use ledger_hub::reconciler::scoring::{
    account_score, days_between, mentions_text, name_similarity, score_accounts_by_transactions,
    score_described, score_movements, score_transactions, LfRecent, LfTxn, SfinRecent, SfinTxn,
    MATCH_THRESHOLD, TXN_WINDOW, WEIGHT_15,
};

fn double(x: f64) -> Double {
    Double::from_bits(x.to_bits())
}

fn value(d: Double) -> f64 {
    f64::from_bits(d.to_bits())
}

fn threshold() -> f64 {
    f64::from_bits(MATCH_THRESHOLD)
}

fn amount(text: &str) -> Amount {
    Amount {
        text: text.to_string(),
        parsed: text.parse::<f64>().ok().map(double),
    }
}

fn sfin(id: &str, posted: i64, amount: f64, desc: &str, pending: bool) -> SfinTxn {
    SfinTxn {
        id: id.to_string(),
        posted,
        amount: double(amount),
        description: desc.to_string(),
        pending,
    }
}

fn lf(
    id: &str,
    date_ts: i64,
    amount: f64,
    merchant: Option<&str>,
    desc: Option<&str>,
    is_pending: bool,
) -> LfTxn {
    LfTxn {
        id: id.to_string(),
        date: String::new(),
        date_ts,
        amount: double(amount),
        merchant: merchant.map(str::to_string),
        description: desc.map(str::to_string),
        is_pending,
    }
}

// Unix timestamp for a given day offset from a fixed base (2024-01-15 00:00:00 UTC).
fn day(offset: i64) -> i64 {
    1_705_276_800 + offset * 86_400
}

fn score(s: &SfinTxn, l: &LfTxn) -> f64 {
    value(score_transactions(s, l))
}

// ---------------------------------------------------------------------------
// name_similarity
// ---------------------------------------------------------------------------

#[test]
fn name_similarity_exact_match() {
    assert!((value(name_similarity("Checking", "Checking")) - 1.0).abs() < 1e-9);
}

#[test]
fn name_similarity_case_insensitive() {
    assert!((value(name_similarity("SAVINGS", "savings")) - 1.0).abs() < 1e-9);
}

#[test]
fn name_similarity_close_names() {
    let sim = value(name_similarity("Checking Account", "Checking"));
    assert!(
        sim >= 0.5,
        "similar names should score at or above 0.5, got {sim}"
    );
}

#[test]
fn name_similarity_unrelated_names() {
    let sim = value(name_similarity("Savings", "Credit Card"));
    assert!(
        sim < 0.5,
        "unrelated names should score below 0.5, got {sim}"
    );
}

#[test]
fn name_similarity_known_distance() {
    // Three edits over seven characters.
    assert_eq!(
        value(name_similarity("Kitten", "sitting")),
        1.0 - 3.0_f64 / 7.0
    );
    // A name that is cut short: eight edits over sixteen characters.
    assert_eq!(value(name_similarity("Checking Account", "CHECKING")), 0.5);
    // The distance is that of the best way to edit.
    assert_eq!(value(name_similarity("abcdef", "bcdefg")), 1.0 - 2.0_f64 / 6.0);
    assert_eq!(value(name_similarity("ab", "ba")), 0.0);
    assert_eq!(value(name_similarity("", "")), 1.0);
    assert_eq!(value(name_similarity("", "abc")), 0.0);
}

// The least number of edits, by trying every way.
fn edits(a: &[char], b: &[char]) -> usize {
    match (a.split_last(), b.split_last()) {
        (None, _) => b.len(),
        (_, None) => a.len(),
        (Some((x, a1)), Some((y, b1))) => {
            let kept = edits(a1, b1) + usize::from(x != y);
            kept.min(edits(a1, b) + 1).min(edits(a, b1) + 1)
        }
    }
}

#[test]
fn name_similarity_is_the_share_left_unedited() {
    let names = ["", "a", "Ab", "bank", "BANANA", "savings", "saving", "käse", "KASE"];
    for a in names {
        for b in names {
            let x: Vec<char> = a.to_lowercase().chars().collect();
            let y: Vec<char> = b.to_lowercase().chars().collect();
            let longer = x.len().max(y.len());
            let expected = if longer == 0 {
                1.0
            } else {
                1.0 - edits(&x, &y) as f64 / longer as f64
            };
            assert_eq!(name_similarity(a, b).to_bits(), expected.to_bits(), "{a} {b}");
        }
    }
}

#[test]
fn name_similarity_ignores_order_and_case() {
    let names = ["Checking", "checking", "CHECKING ", "Savings", "sav", "", "Ärzte", "ärzte"];
    for a in names {
        for b in names {
            let score = name_similarity(a, b);
            assert_eq!(score, name_similarity(b, a), "{a} {b}");
            assert_eq!(score, name_similarity(&a.to_uppercase(), b), "{a} {b}");
            assert!(value(score) >= 0.0 && value(score) <= 1.0);
            assert_eq!(value(score) == 1.0, a.to_lowercase() == b.to_lowercase(), "{a} {b}");
        }
    }
}

#[test]
fn name_similarity_bonus_cannot_push_zero_txn_score_over_threshold() {
    let max_name_bonus = 1.0_f64 * 0.15;
    assert!(max_name_bonus < threshold());
    assert_eq!(f64::from_bits(WEIGHT_15), 0.15);
    assert_eq!(
        value(account_score(Some(double(0.0)), double(1.0))),
        max_name_bonus
    );
}

// ---------------------------------------------------------------------------
// account_score
// ---------------------------------------------------------------------------

#[test]
fn account_score_combines_both_parts() {
    assert_eq!(value(account_score(None, double(0.75))), 0.75);
    for (ts, name) in [(0.5, 0.5), (0.8, 0.1), (1.0 / 3.0, 0.571428), (0.0, 0.3)] {
        assert_eq!(
            value(account_score(Some(double(ts)), double(name))),
            (ts + name * 0.15).min(1.0)
        );
    }
    assert_eq!(value(account_score(Some(double(1.0)), double(1.0))), 1.0);
    assert_eq!(value(account_score(Some(double(0.9)), double(0.9))), 1.0);
}

// ---------------------------------------------------------------------------
// score_transactions: amount gate
// ---------------------------------------------------------------------------

#[test]
fn amount_mismatch_returns_zero() {
    let s = sfin("s1", day(0), -103.67, "LYFT", false);
    let l = lf("l1", day(0), -103.68, Some("Lyft"), None, false);
    assert_eq!(score(&s, &l), 0.0);
}

#[test]
fn amount_match_ignores_sign() {
    let s = sfin("s1", day(0), -28.11, "CLOUD WORKSPACE", false);
    let l = lf("l1", day(0), 28.11, Some("Cloud Workspace"), None, false);
    let score = score(&s, &l);
    assert!(score >= threshold(), "score was {score}");
}

// ---------------------------------------------------------------------------
// score_transactions: date proximity (posted path)
// ---------------------------------------------------------------------------

#[test]
fn exact_date_match() {
    let s = sfin("s1", day(0), -311.92, "AUTOPAY PAYMENT", false);
    let l = lf("l1", day(0), -311.92, Some("Payment"), None, false);
    let score = score(&s, &l);
    assert!(score >= 0.8, "score was {score}");
}

#[test]
fn one_day_apart() {
    let s = sfin("s1", day(0), -19.99, "DISNEY PLUS", false);
    let l = lf("l1", day(1), -19.99, Some("Disney+"), None, false);
    let score = score(&s, &l);
    assert!(score >= threshold(), "score was {score}");
}

#[test]
fn three_days_apart_matches() {
    let s = sfin("s1", day(0), -27.49, "AMAYSIM MOBILE", false);
    let l = lf("l1", day(3), -27.49, Some("Amaysim"), None, false);
    let score = score(&s, &l);
    assert!(score >= threshold(), "score was {score}");
}

#[test]
fn five_days_apart_is_minimum() {
    let s = sfin("s1", day(0), -466.19, "ALAMO RENT", false);
    let l = lf("l1", day(5), -466.19, Some("Alamo"), None, false);
    let score = score(&s, &l);
    assert!(score > 0.0, "score was {score}");
}

#[test]
fn six_days_apart_returns_zero() {
    let s = sfin("s1", day(0), -50.00, "SOME MERCHANT", false);
    let l = lf("l1", day(6), -50.00, Some("Some Merchant"), None, false);
    assert_eq!(score(&s, &l), 0.0);
}

#[test]
fn description_match_adds_bonus() {
    let s = sfin("s1", day(0), -10.89, "RCH*KAGI.COM", false);
    let l_no_desc = lf("l1", day(0), -10.89, None, None, false);
    let l_with_desc = lf("l2", day(0), -10.89, Some("Kagi"), None, false);
    let score_without = score(&s, &l_no_desc);
    let score_with = score(&s, &l_with_desc);
    assert!(score_with > score_without, "desc match should add bonus");
}

// ---------------------------------------------------------------------------
// score_transactions: pending path
// ---------------------------------------------------------------------------

#[test]
fn both_pending_skips_date() {
    let s = sfin("s1", 0, -10.89, "RCH*KAGI.COM", true);
    let l = lf("l1", day(0), -10.89, Some("Kagi"), None, true);
    let score = score(&s, &l);
    assert!(score >= threshold(), "score was {score}");
}

#[test]
fn mixed_pending_uses_date_path() {
    let s = sfin("s1", 0, -10.89, "RCH*KAGI.COM", true);
    let l = lf("l1", day(0), -10.89, Some("Kagi"), None, false);
    let score = score(&s, &l);
    assert_eq!(score, 0.0, "mixed pending should not match: {score}");
}

// The score as floating point arithmetic computes it.
fn reference_score(days: i64, described: bool, s_pending: bool, l_pending: bool) -> f64 {
    let mut score = 0.4_f64;
    if s_pending && l_pending {
        score += 0.3;
        if described {
            score += 0.15;
        }
        return score.min(1.0);
    }
    score += match days {
        0 => 0.4,
        1 => 0.25,
        2 => 0.15,
        3 => 0.1,
        4 | 5 => 0.05,
        _ => return 0.0,
    };
    if described {
        score += 0.15;
    }
    if s_pending == l_pending {
        score += 0.05;
    }
    score.min(1.0)
}

#[test]
fn scores_equal_floating_point_sums() {
    for days in 0..8i64 {
        for described in [false, true] {
            for s_pending in [false, true] {
                for l_pending in [false, true] {
                    let s = sfin("s", day(days), -5.0, "COFFEE BAR", s_pending);
                    let merchant = if described { Some("Coffee") } else { Some("Tea") };
                    let l = lf("l", day(0), 5.0, merchant, None, l_pending);
                    let expected = reference_score(days, described, s_pending, l_pending);
                    assert_eq!(
                        score_transactions(&s, &l).to_bits(),
                        expected.to_bits(),
                        "{days} {described} {s_pending} {l_pending}"
                    );
                    assert_eq!(
                        score_described(&s, &l, described).to_bits(),
                        expected.to_bits()
                    );
                }
            }
        }
    }
}

#[test]
fn amounts_agree_to_the_cent() {
    for (a, b) in [
        (10.00, 10.01),
        (10.00, 10.02),
        (0.01, 0.0),
        (0.01, 0.02),
        (1.0, 1.01),
        (123456.78, 123456.79),
        (-103.67, 103.66),
        (1e300, 1e300),
        (f64::INFINITY, 1.0),
        (f64::INFINITY, f64::NEG_INFINITY),
        (f64::NAN, 1.0),
        (5e-324, 0.0),
    ] {
        let s = sfin("s", day(0), a, "", false);
        let l = lf("l", day(0), b, None, None, false);
        let differ = (a.abs() - b.abs()).abs() > 0.01;
        assert_eq!(score(&s, &l) == 0.0, differ, "{a} {b}");
        let agree = (a.abs() - b.abs()).abs() < 0.01;
        let m = vec![(day(0), double(a)), (day(0), double(a))];
        let n = vec![(day(5), double(b)), (day(5), double(b))];
        let expected = if agree { 1.0 } else { 0.0 };
        assert_eq!(score_movements(&m, &n).map(value), Some(expected), "{a} {b}");
    }
}

#[test]
fn descriptions_contain_merchant_or_note() {
    assert!(mentions_text("lyft ride", Some("lyft")));
    assert!(mentions_text("lyft ride", Some("ride")));
    assert!(!mentions_text("lyft ride", Some("")));
    assert!(!mentions_text("lyft ride", None));
    assert!(!mentions_text("lyft ride", Some("uber")));
    let s = sfin("s", day(0), 1.0, "STRASSENCAFÉ", false);
    let described = lf("l", day(0), 1.0, None, Some("Straßencafé"), false);
    let accented = lf("l", day(0), 1.0, None, Some("café"), false);
    assert_eq!(score(&s, &described), 0.4 + 0.4 + 0.05);
    assert_eq!(score(&s, &accented), 0.4 + 0.4 + 0.15 + 0.05);
}

#[test]
fn absent_and_empty_texts_match_nothing() {
    let s = sfin("s", day(0), 1.0, "anything", false);
    for merchant in [None, Some("")] {
        for note in [None, Some("")] {
            let l = lf("l", day(0), 1.0, merchant, note, false);
            assert_eq!(score(&s, &l), 0.4 + 0.4 + 0.05);
        }
    }
    let l = lf("l", day(0), 1.0, None, Some("ANY"), false);
    assert_eq!(score(&s, &l), 0.4 + 0.4 + 0.15 + 0.05);
}

#[test]
fn day_gaps_count_whole_days() {
    assert_eq!(days_between(0, 86_399), 0);
    assert_eq!(days_between(86_400, 0), 1);
    assert_eq!(days_between(i64::MIN, i64::MAX), u64::MAX / 86_400);
}

// ---------------------------------------------------------------------------
// score_accounts_by_transactions
// ---------------------------------------------------------------------------

// Newest first, as the store hands recent transactions out.
fn recent(mut rows: Vec<(i64, String)>) -> Vec<SfinRecent> {
    rows.sort_by_key(|r| std::cmp::Reverse(r.0));
    rows.into_iter()
        .take(TXN_WINDOW)
        .map(|(posted, text)| SfinRecent {
            posted,
            amount: amount(&text),
        })
        .collect()
}

fn lf_recent(mut rows: Vec<(String, f64)>) -> Vec<LfRecent> {
    rows.sort_by(|a, b| b.0.cmp(&a.0));
    rows.into_iter()
        .take(TXN_WINDOW)
        .map(|(date, amount)| LfRecent {
            date,
            amount: double(amount),
        })
        .collect()
}

fn score_pair(
    s: &Vec<SfinRecent>,
    l: &Vec<LfRecent>,
    sc: Option<&str>,
    lc: Option<&str>,
) -> Option<f64> {
    score_accounts_by_transactions(s, l, &sc.map(str::to_string), &lc.map(str::to_string)).map(value)
}

#[test]
fn no_transactions_returns_none() {
    let score = score_pair(&vec![], &vec![], Some("USD"), Some("USD"));
    assert_eq!(
        score, None,
        "zero transactions should return None to trigger name-only fallback"
    );
}

#[test]
fn currency_mismatch_returns_zero() {
    let score = score_pair(&vec![], &vec![], Some("USD"), Some("AUD"));
    assert_eq!(score, Some(0.0));
}

#[test]
fn currencies_compare_without_case() {
    assert_eq!(score_pair(&vec![], &vec![], Some("usd"), Some("USD")), None);
    assert_eq!(score_pair(&vec![], &vec![], None, Some("USD")), None);
}

#[test]
fn too_few_transactions_returns_zero() {
    let s = recent((0..1i64).map(|i| (day(i), format!("-{:.2}", 10.0 + i as f64))).collect());
    let l = lf_recent(
        (0..1i64)
            .map(|i| (format!("2024-01-{:02}", 15 + i), -(10.0 + i as f64)))
            .collect(),
    );
    assert_eq!(
        score_pair(&s, &l, Some("USD"), Some("USD")),
        Some(0.0),
        "should return Some(0.0) when min_count > 0 but below MIN_TRANSACTIONS"
    );
}

#[test]
fn matching_transactions_produce_high_score() {
    let amounts = [-311.92, -28.11, -103.67, -19.99, -0.04];
    let s = recent(
        amounts
            .iter()
            .enumerate()
            .map(|(i, a)| (day(i as i64), a.to_string()))
            .collect(),
    );
    let l = lf_recent(
        amounts
            .iter()
            .enumerate()
            .map(|(i, a)| (format!("2024-01-{:02}", 15 + i), *a))
            .collect(),
    );
    let score = score_pair(&s, &l, Some("USD"), Some("USD"))
        .expect("should return Some when transactions exist");
    assert!(score >= threshold(), "expected high score, got {score}");
    assert!(
        (score - 1.0).abs() < 0.01,
        "all txns match, expected 1.0, got {score}"
    );
}

#[test]
fn wrong_account_pair_produces_low_score() {
    let amounts = [-50.0, -75.25, -12.99, -200.00, -8.50];
    let a = recent(
        amounts
            .iter()
            .enumerate()
            .map(|(i, a)| (day(i as i64), a.to_string()))
            .collect(),
    );
    let ten = lf_recent(
        amounts
            .iter()
            .enumerate()
            .map(|(i, a)| (format!("2024-01-{:02}", 15 + i), *a))
            .collect(),
    );
    let eleven = lf_recent(
        (0..5i64)
            .map(|i| (format!("2024-02-{:02}", 1 + i), -(999.0 + i as f64)))
            .collect(),
    );
    let score_correct = score_pair(&a, &ten, Some("USD"), Some("USD"))
        .expect("should return Some when transactions exist");
    let score_wrong = score_pair(&a, &eleven, Some("USD"), Some("USD"))
        .expect("should return Some when transactions exist");
    assert!(
        score_correct >= threshold(),
        "correct pair should match: {score_correct}"
    );
    assert!(
        score_wrong < threshold(),
        "wrong pair should not match: {score_wrong}"
    );
}

#[test]
fn test_two_pointer_algorithm_small() {
    let transactions = [
        (day(0), -10.50, "Coffee Shop"),
        (day(1), -25.75, "Groceries"),
        (day(2), -5.25, "Gas Station"),
    ];
    let s = recent(transactions.iter().map(|t| (t.0, t.1.to_string())).collect());
    let l = lf_recent(
        transactions
            .iter()
            .enumerate()
            .map(|(i, t)| (format!("2024-01-{:02}", 15 + i), t.1))
            .collect(),
    );
    let score = score_pair(&s, &l, Some("USD"), Some("USD"))
        .expect("should return Some when transactions exist");
    assert!(
        score >= threshold(),
        "expected high score for perfect matches, got {score}"
    );
    assert!(
        (score - 1.0).abs() < 0.01,
        "all txns match, expected 1.0, got {score}"
    );
}

#[test]
fn test_two_pointer_algorithm_unsorted_transactions() {
    let transactions = [
        (day(2), -5.25, "Gas Station"),
        (day(0), -10.50, "Coffee Shop"),
        (day(1), -25.75, "Groceries"),
    ];
    let s = recent(transactions.iter().map(|t| (t.0, t.1.to_string())).collect());
    let l = lf_recent(
        transactions
            .iter()
            .enumerate()
            .map(|(i, t)| (format!("2024-01-{:02}", 15 + i), t.1))
            .collect(),
    );
    let score = score_pair(&s, &l, Some("USD"), Some("USD"))
        .expect("should return Some when transactions exist");
    assert!(
        score >= threshold(),
        "expected high score for perfect matches despite order, got {score}"
    );
}

#[test]
fn performance_test_large_transaction_sets() {
    let rows: Vec<(i64, f64)> = (0..50i64).map(|i| (i, -10.0 - (i as f64 * 0.1))).collect();
    let s = recent(rows.iter().map(|r| (day(r.0 % 10), r.1.to_string())).collect());
    let l = lf_recent(
        rows.iter()
            .map(|r| (format!("2024-01-{:02}", 15 + (r.0 % 10) as i32), r.1))
            .collect(),
    );
    let score = score_pair(&s, &l, Some("USD"), Some("USD"))
        .expect("should return Some when transactions exist");
    assert!(
        score >= threshold(),
        "expected high score for many matching transactions, got {score}"
    );
}

#[test]
fn only_the_window_is_compared() {
    // The rows beyond the window would match, those within it do not.
    let mut s: Vec<SfinRecent> = (0..TXN_WINDOW)
        .map(|_| SfinRecent {
            posted: day(0),
            amount: amount("1.00"),
        })
        .collect();
    let mut l: Vec<LfRecent> = (0..TXN_WINDOW)
        .map(|_| LfRecent {
            date: "2024-01-15".to_string(),
            amount: double(2.0),
        })
        .collect();
    s.push(SfinRecent {
        posted: day(0),
        amount: amount("7.00"),
    });
    l.push(LfRecent {
        date: "2024-01-15".to_string(),
        amount: double(7.0),
    });
    assert_eq!(score_pair(&s, &l, None, None), Some(0.0));
}

#[test]
fn partial_matches_give_a_fraction() {
    let s = vec![
        (day(0), double(1.0)),
        (day(0), double(1.0)),
        (day(0), double(3.0)),
    ];
    // Each counterpart is used once only.
    let l = vec![
        (day(1), double(-1.0)),
        (day(5), double(4.0)),
        (day(9), double(3.0)),
        (day(0), double(8.0)),
    ];
    assert_eq!(score_movements(&s, &l).map(value), Some(1.0 / 3.0));
    assert_eq!(score_movements(&s, &s).map(value), Some(1.0));
    assert_eq!(score_movements(&s, &vec![]).map(value), None);
}

#[test]
fn amounts_that_are_no_numbers_are_left_out() {
    let s = vec![
        SfinRecent { posted: day(0), amount: amount("ten") },
        SfinRecent { posted: day(0), amount: amount("1.50") },
    ];
    let l = vec![
        LfRecent { date: "2024-01-15".to_string(), amount: double(1.5) },
        LfRecent { date: "2024-01-15".to_string(), amount: double(2.5) },
    ];
    // One transaction is left, too few to score.
    assert_eq!(score_pair(&s, &l, None, None), Some(0.0));
    let none = vec![SfinRecent { posted: day(0), amount: amount("") }];
    assert_eq!(score_pair(&none, &l, None, None), None);
}

#[test]
fn dates_that_are_no_dates_count_as_the_epoch() {
    let s = vec![
        SfinRecent { posted: 0, amount: amount("1") },
        SfinRecent { posted: 5, amount: amount("2") },
    ];
    let l = vec![
        LfRecent { date: "soon".to_string(), amount: double(1.0) },
        LfRecent { date: "".to_string(), amount: double(2.0) },
    ];
    assert_eq!(score_pair(&s, &l, None, None), Some(1.0));
    assert_eq!(f64::from_bits(ONE_BITS), 1.0);
}

#[test]
fn movements_pair_until_no_pair_is_left() {
    let at = |d: i64, x: f64| (day(d), double(x));
    // The first takes the only partner of the second; one pair is all that is left.
    let s = vec![at(3, 10.0), at(0, 10.0)];
    let l = vec![at(1, 10.0), at(8, 10.0)];
    assert_eq!(score_movements(&s, &l).map(value), Some(0.5));
    // In the other order both find one.
    let s = vec![at(0, 10.0), at(3, 10.0)];
    assert_eq!(score_movements(&s, &l).map(value), Some(1.0));
}
