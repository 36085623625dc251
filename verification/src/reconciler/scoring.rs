//! Scores in `[0.0, 1.0]` for how likely two records of different providers
//! describe the same account or the same transaction.
use crate::amount::Amount;
use crate::double::{lemma_fine_sum, lemma_gap_to_self, lemma_product_bounds, lemma_ratio_whole, lemma_rest_bounds, lemma_sum_zero, lesser, magnitude, magnitude_gap, over_a_cent_apart, rounded_product, rounded_ratio, rounded_rest, rounded_sum, within_a_cent, Double, CENT_BITS, INFINITY_BITS, ONE_BITS};
use crate::text::{contains_text, eq_ignore_ascii_case, lemma_occurs_split, lowercase, occurs_in, same_ignoring_ascii_case, to_lowercase};
use crate::util::{date_str_to_unix, parsed_date};
use vstd::prelude::*;

verus! {

/// Confidence (`0.6`) at and above which two records are considered matched.
pub const MATCH_THRESHOLD: u64 = 0x3FE3_3333_3333_3333;

/// How many recent transactions to compare when scoring account pairs.
pub const TXN_WINDOW: usize = 20;

/// Minimum number of transactions required in the smaller set to score a pair
/// of accounts by its transactions.
pub const MIN_TRANSACTIONS: usize = 2;

/// Seconds in a day.
pub const DAY: u64 = 86_400;

/// Weight (`0.4`) of equal amounts, and of equal days.
pub const WEIGHT_40: u64 = 0x3FD9_9999_9999_999A;

/// Weight (`0.3`) of two pending transactions.
pub const WEIGHT_30: u64 = 0x3FD3_3333_3333_3333;

/// Weight (`0.25`) of dates one day apart.
pub const WEIGHT_25: u64 = 0x3FD0_0000_0000_0000;

/// Weight (`0.15`) of dates two days apart, of a matching description, and of
/// matching account names.
pub const WEIGHT_15: u64 = 0x3FC3_3333_3333_3333;

/// Weight (`0.1`) of dates three days apart.
pub const WEIGHT_10: u64 = 0x3FB9_9999_9999_999A;

/// Weight (`0.05`) of dates four or five days apart, and of an equal pending
/// status.
pub const WEIGHT_05: u64 = 0x3FA9_9999_9999_999A;

/// A SimpleFIN transaction, as transaction matching sees it.
#[derive(Debug)]
pub struct SfinTxn {
    pub id: String,
    /// Unix timestamp.
    pub posted: i64,
    pub amount: Double,
    pub description: String,
    pub pending: bool,
}

/// A LunchFlow transaction, as transaction matching sees it.
#[derive(Debug)]
pub struct LfTxn {
    pub id: String,
    /// `YYYY-MM-DD`.
    pub date: String,
    /// The date as a unix timestamp.
    pub date_ts: i64,
    pub amount: Double,
    pub merchant: Option<String>,
    pub description: Option<String>,
    pub is_pending: bool,
}

/// A recent SimpleFIN transaction of an account.
#[derive(Debug)]
pub struct SfinRecent {
    pub posted: i64,
    pub amount: Amount,
}

/// A recent LunchFlow transaction of an account.
#[derive(Debug)]
pub struct LfRecent {
    /// `YYYY-MM-DD`.
    pub date: String,
    pub amount: Double,
}

/// The double with the given pattern.
pub open spec fn dbl(bits: u64) -> Double {
    Double { bits }
}

// ---------------------------------------------------------------------------
// Names
// ---------------------------------------------------------------------------

/// The least number of insertions, deletions and substitutions of single characters
/// that change one text into the other.
pub open spec fn edit_distance(a: Seq<char>, b: Seq<char>) -> int
    decreases a.len() + b.len(),
{
    if a.len() == 0 {
        b.len() as int
    } else if b.len() == 0 {
        a.len() as int
    } else {
        let kept = edit_distance(a.drop_last(), b.drop_last()) + (if a.last() == b.last() {
            0int
        } else {
            1int
        });
        let deleted = edit_distance(a.drop_last(), b) + 1;
        let inserted = edit_distance(a, b.drop_last()) + 1;
        least(kept, least(deleted, inserted))
    }
}

/// The lesser of two numbers.
pub open spec fn least(x: int, y: int) -> int {
    if x <= y {
        x
    } else {
        y
    }
}

/// The length of the longer of two texts.
pub open spec fn longer_len(a: Seq<char>, b: Seq<char>) -> int {
    if a.len() >= b.len() {
        a.len() as int
    } else {
        b.len() as int
    }
}

/// The similarity of two texts: 1.0 for two empty ones, else 1.0 less the edit
/// distance over the length of the longer text.
pub open spec fn text_similarity(a: Seq<char>, b: Seq<char>) -> Double {
    if a.len() == 0 && b.len() == 0 {
        dbl(ONE_BITS)
    } else {
        rounded_rest(edit_distance(a, b), longer_len(a, b))
    }
}

/// Calls `strsim::normalized_levenshtein`, which gives 1.0 for two empty texts, and
/// otherwise 1.0 less the edit distance of the texts over the number of characters of
/// the longer one, computed in doubles.
#[verifier::external_body]
fn strsim_similarity(a: &str, b: &str) -> (r: Double)
    ensures
        r == text_similarity(a@, b@),
{
    Double { bits: strsim::normalized_levenshtein(a, b).to_bits() }
}

/// The edit distance does not depend on the order of the texts.
pub proof fn lemma_distance_symmetric(a: Seq<char>, b: Seq<char>)
    ensures
        edit_distance(a, b) == edit_distance(b, a),
    decreases a.len() + b.len(),
{
    if a.len() > 0 && b.len() > 0 {
        lemma_distance_symmetric(a.drop_last(), b.drop_last());
        lemma_distance_symmetric(a.drop_last(), b);
        lemma_distance_symmetric(a, b.drop_last());
    }
}

/// The edit distance is no less than the difference of the lengths and no more than
/// the longer length, and is zero only between equal texts.
pub proof fn lemma_distance_bounds(a: Seq<char>, b: Seq<char>)
    ensures
        a.len() - b.len() <= edit_distance(a, b),
        b.len() - a.len() <= edit_distance(a, b),
        0 <= edit_distance(a, b) <= longer_len(a, b),
        edit_distance(a, b) == 0 <==> a == b,
    decreases a.len() + b.len(),
{
    if a.len() > 0 && b.len() > 0 {
        let x = a.drop_last();
        let y = b.drop_last();
        lemma_distance_bounds(x, y);
        lemma_distance_bounds(x, b);
        lemma_distance_bounds(a, y);
        if edit_distance(a, b) == 0 {
            assert(a =~= x.push(a.last()));
            assert(b =~= y.push(b.last()));
        }
    } else if a.len() == 0 && b.len() == 0 {
        assert(a =~= b);
    }
}

/// Characters added at the end of a text cost one edit each.
pub proof fn lemma_distance_to_prefix(a: Seq<char>, end: Seq<char>)
    ensures
        edit_distance(a + end, a) == end.len(),
    decreases end.len(),
{
    lemma_distance_bounds(a + end, a);
    if end.len() == 0 {
        assert(a + end =~= a);
    } else {
        lemma_distance_to_prefix(a, end.drop_last());
        assert((a + end).drop_last() =~= a + end.drop_last());
    }
}

/// Number of characters (2^53) up to which one edit lowers a score below 1.0.
pub const EDIT_SHOWS: u64 = 0x20_0000_0000_0000;

/// The similarity of two texts lies between 0.0 and 1.0 and does not depend on their
/// order. It is 1.0 for equal texts and, up to a length at which rounding hides an
/// edit, for no others; it is 0.0 where just one of the texts is empty.
pub proof fn lemma_text_similarity(a: Seq<char>, b: Seq<char>)
    ensures
        text_similarity(a, b) == text_similarity(b, a),
        text_similarity(a, b).bits <= ONE_BITS,
        a == b ==> text_similarity(a, b).bits == ONE_BITS,
        text_similarity(a, b).bits == ONE_BITS && longer_len(a, b) <= EDIT_SHOWS ==> a == b,
        a.len() == 0 && b.len() > 0 ==> text_similarity(a, b).bits == 0,
{
    lemma_distance_symmetric(a, b);
    lemma_distance_bounds(a, b);
    if a.len() == 0 && b.len() == 0 {
        assert(a =~= b);
    } else {
        lemma_rest_bounds(edit_distance(a, b), longer_len(a, b));
    }
}

/// The similarity of two names.
pub open spec fn name_score(a: Seq<char>, b: Seq<char>) -> Double {
    text_similarity(lowercase(a), lowercase(b))
}

/// Normalised name similarity in `[0.0, 1.0]`, without regard to case: names that
/// differ only in case score the same against any other, the order of the two names
/// does not matter, and only names that differ at most in case score 1.0.
pub fn name_similarity(a: &str, b: &str) -> (r: Double)
    ensures
        r == name_score(a@, b@),
        r == name_score(b@, a@),
        r.bits <= ONE_BITS,
        forall|a2: Seq<char>|
            lowercase(a2) == lowercase(a@) ==> #[trigger] name_score(a2, b@) == r,
        lowercase(a@) == lowercase(b@) ==> r.bits == ONE_BITS,
        r.bits == ONE_BITS && longer_len(lowercase(a@), lowercase(b@)) <= EDIT_SHOWS
            ==> lowercase(a@) == lowercase(b@),
        lowercase(a@).len() == 0 && lowercase(b@).len() > 0 ==> r.bits == 0,
{
    let a: String = to_lowercase(a);
    let b: String = to_lowercase(b);
    proof {
        lemma_text_similarity(a@, b@);
    }
    strsim_similarity(a.as_str(), b.as_str())
}

// ---------------------------------------------------------------------------
// Pairs of transactions
// ---------------------------------------------------------------------------

/// Whole days between two timestamps.
pub open spec fn day_gap(a: int, b: int) -> int {
    if a >= b {
        (a - b) / DAY as int
    } else {
        (b - a) / DAY as int
    }
}

/// Whole days between two timestamps.
pub fn days_between(a: i64, b: i64) -> (r: u64)
    ensures
        r == day_gap(a as int, b as int),
{
    let gap: i128 = if a >= b {
        a as i128 - b as i128
    } else {
        b as i128 - a as i128
    };
    (gap as u64) / DAY
}

/// The weight of dates that lie `days` apart; `None` beyond five days.
pub open spec fn date_weight(days: int) -> Option<Double> {
    if days == 0 {
        Some(dbl(WEIGHT_40))
    } else if days == 1 {
        Some(dbl(WEIGHT_25))
    } else if days == 2 {
        Some(dbl(WEIGHT_15))
    } else if days == 3 {
        Some(dbl(WEIGHT_10))
    } else if days == 4 || days == 5 {
        Some(dbl(WEIGHT_05))
    } else {
        None
    }
}

/// `score`, raised by a weight where `earned`.
pub open spec fn raised(score: Double, earned: bool, weight: u64) -> Double {
    if earned {
        rounded_sum(score, dbl(weight))
    } else {
        score
    }
}

/// Whether two amounts, taken without sign, differ by more than one cent.
pub open spec fn amounts_differ(x: Double, y: Double) -> bool {
    magnitude_gap(x, y) matches Some(gap) && gap > CENT_BITS
}

/// The score of a pair of transactions, given whether their descriptions match.
///
/// Amounts further apart than one cent, and settled dates further apart than
/// five days, score zero. Otherwise equal amounts count 0.4. Two pending
/// transactions count 0.3 more, whatever their dates; any others count by how
/// close their dates are, and 0.05 more for an equal pending status. A matching
/// description counts 0.15.
pub open spec fn transaction_score(s: SfinTxn, l: LfTxn, described: bool) -> Double {
    if amounts_differ(s.amount, l.amount) {
        dbl(0)
    } else if s.pending && l.is_pending {
        let both = rounded_sum(dbl(WEIGHT_40), dbl(WEIGHT_30));
        lesser(raised(both, described, WEIGHT_15), dbl(ONE_BITS))
    } else {
        match date_weight(day_gap(s.posted as int, l.date_ts as int)) {
            Some(weight) => {
                let dated = rounded_sum(dbl(WEIGHT_40), weight);
                let known = raised(dated, described, WEIGHT_15);
                lesser(raised(known, s.pending == l.is_pending, WEIGHT_05), dbl(ONE_BITS))
            },
            None => dbl(0),
        }
    }
}

/// Whether a description contains a text that is present and not empty.
pub open spec fn mentions(description: Seq<char>, text: Option<Seq<char>>) -> bool {
    match text {
        Some(t) => t.len() > 0 && occurs_in(description, t),
        None => false,
    }
}

/// The lower case form of an optional text.
pub open spec fn lowercase_opt(text: Option<String>) -> Option<Seq<char>> {
    match text {
        Some(t) => Some(lowercase(t@)),
        None => None,
    }
}

/// Whether the SimpleFIN description contains the LunchFlow merchant or
/// description, without regard to case. An absent or empty text matches nothing.
pub open spec fn descriptions_match(s: SfinTxn, l: LfTxn) -> bool {
    let description = lowercase(s.description@);
    mentions(description, lowercase_opt(l.merchant)) || mentions(
        description,
        lowercase_opt(l.description),
    )
}

/// Whether a description contains a text that is present and not empty.
pub fn mentions_text(description: &str, text: Option<&str>) -> (r: bool)
    ensures
        r == mentions(
            description@,
            match text {
                Some(t) => Some(t@),
                None => None,
            },
        ),
{
    match text {
        Some(t) => !t.is_empty() && contains_text(description, t),
        None => false,
    }
}

fn mentions_lowered(description: &str, text: &Option<String>) -> (r: bool)
    ensures
        r == mentions(description@, lowercase_opt(*text)),
{
    match text {
        Some(t) => {
            let lowered: String = to_lowercase(t.as_str());
            mentions_text(description, Some(lowered.as_str()))
        },
        None => mentions_text(description, None),
    }
}

/// Scores a pair of transactions, given whether their descriptions match.
pub fn score_described(sfin: &SfinTxn, lf: &LfTxn, described: bool) -> (r: Double)
    ensures
        r == transaction_score(*sfin, *lf, described),
        r.bits <= ONE_BITS,
{
    if over_a_cent_apart(sfin.amount, lf.amount) {
        return Double::zero();
    }
    let base: Double = Double::from_bits(WEIGHT_40);
    if sfin.pending && lf.is_pending {
        // Pending transactions have no reliable posted date.
        let mut score: Double = base.plus(Double::from_bits(WEIGHT_30));
        if described {
            score = score.plus(Double::from_bits(WEIGHT_15));
        }
        return score.at_most(Double::from_bits(ONE_BITS));
    }
    let days: u64 = days_between(sfin.posted, lf.date_ts);
    let weight: u64 = if days == 0 {
        WEIGHT_40
    } else if days == 1 {
        WEIGHT_25
    } else if days == 2 {
        WEIGHT_15
    } else if days == 3 {
        WEIGHT_10
    } else if days == 4 || days == 5 {
        WEIGHT_05
    } else {
        return Double::zero();
    };
    let mut score: Double = base.plus(Double::from_bits(weight));
    if described {
        score = score.plus(Double::from_bits(WEIGHT_15));
    }
    if sfin.pending == lf.is_pending {
        score = score.plus(Double::from_bits(WEIGHT_05));
    }
    score.at_most(Double::from_bits(ONE_BITS))
}

/// Scores how likely a SimpleFIN and a LunchFlow transaction are the same event.
///
/// The signs of the amounts may differ between the providers, so amounts are
/// compared without sign.
pub fn score_transactions(sfin: &SfinTxn, lf: &LfTxn) -> (r: Double)
    ensures
        r == transaction_score(*sfin, *lf, descriptions_match(*sfin, *lf)),
        r.bits <= ONE_BITS,
{
    let description: String = to_lowercase(sfin.description.as_str());
    let described: bool = mentions_lowered(description.as_str(), &lf.merchant)
        || mentions_lowered(description.as_str(), &lf.description);
    score_described(sfin, lf, described)
}

proof fn lemma_weight_sums()
    ensures
        rounded_sum(dbl(WEIGHT_40), dbl(WEIGHT_05)) == dbl(0x3FDC_CCCC_CCCC_CCCD),
        rounded_sum(dbl(WEIGHT_40), dbl(WEIGHT_10)) == dbl(0x3FE0_0000_0000_0000),
        rounded_sum(dbl(WEIGHT_40), dbl(WEIGHT_15)) == dbl(0x3FE1_9999_9999_999A),
        rounded_sum(dbl(WEIGHT_40), dbl(WEIGHT_25)) == dbl(0x3FE4_CCCC_CCCC_CCCD),
        rounded_sum(dbl(WEIGHT_40), dbl(WEIGHT_30)) == dbl(0x3FE6_6666_6666_6666),
        rounded_sum(dbl(WEIGHT_40), dbl(WEIGHT_40)) == dbl(0x3FE9_9999_9999_999A),
        rounded_sum(dbl(0x3FDC_CCCC_CCCC_CCCD), dbl(WEIGHT_05)) == dbl(0x3FE0_0000_0000_0000),
        rounded_sum(dbl(0x3FDC_CCCC_CCCC_CCCD), dbl(WEIGHT_15)) == dbl(MATCH_THRESHOLD),
        rounded_sum(dbl(0x3FE0_0000_0000_0000), dbl(WEIGHT_05)) == dbl(0x3FE1_9999_9999_999A),
        rounded_sum(dbl(0x3FE0_0000_0000_0000), dbl(WEIGHT_15)) == dbl(0x3FE4_CCCC_CCCC_CCCD),
        rounded_sum(dbl(0x3FE1_9999_9999_999A), dbl(WEIGHT_05)) == dbl(0x3FE3_3333_3333_3334),
        rounded_sum(dbl(0x3FE1_9999_9999_999A), dbl(WEIGHT_15)) == dbl(0x3FE6_6666_6666_6667),
        rounded_sum(dbl(MATCH_THRESHOLD), dbl(WEIGHT_05)) == dbl(0x3FE4_CCCC_CCCC_CCCD),
        rounded_sum(dbl(0x3FE4_CCCC_CCCC_CCCD), dbl(WEIGHT_05)) == dbl(0x3FE6_6666_6666_6667),
        rounded_sum(dbl(0x3FE4_CCCC_CCCC_CCCD), dbl(WEIGHT_15)) == dbl(0x3FE9_9999_9999_999A),
        rounded_sum(dbl(0x3FE6_6666_6666_6666), dbl(WEIGHT_15)) == dbl(0x3FEB_3333_3333_3333),
        rounded_sum(dbl(0x3FE6_6666_6666_6667), dbl(WEIGHT_05)) == dbl(0x3FE8_0000_0000_0001),
        rounded_sum(dbl(0x3FE9_9999_9999_999A), dbl(WEIGHT_05)) == dbl(0x3FEB_3333_3333_3334),
        rounded_sum(dbl(0x3FE9_9999_9999_999A), dbl(WEIGHT_15)) == dbl(0x3FEE_6666_6666_6667),
        rounded_sum(dbl(0x3FEE_6666_6666_6667), dbl(WEIGHT_05)) == dbl(ONE_BITS),
{
    lemma_fine_sum(WEIGHT_40, WEIGHT_05, 0x3FDC_CCCC_CCCC_CCCD);
    lemma_fine_sum(WEIGHT_40, WEIGHT_10, 0x3FE0_0000_0000_0000);
    lemma_fine_sum(WEIGHT_40, WEIGHT_15, 0x3FE1_9999_9999_999A);
    lemma_fine_sum(WEIGHT_40, WEIGHT_25, 0x3FE4_CCCC_CCCC_CCCD);
    lemma_fine_sum(WEIGHT_40, WEIGHT_30, 0x3FE6_6666_6666_6666);
    lemma_fine_sum(WEIGHT_40, WEIGHT_40, 0x3FE9_9999_9999_999A);
    lemma_fine_sum(0x3FDC_CCCC_CCCC_CCCD, WEIGHT_05, 0x3FE0_0000_0000_0000);
    lemma_fine_sum(0x3FDC_CCCC_CCCC_CCCD, WEIGHT_15, MATCH_THRESHOLD);
    lemma_fine_sum(0x3FE0_0000_0000_0000, WEIGHT_05, 0x3FE1_9999_9999_999A);
    lemma_fine_sum(0x3FE0_0000_0000_0000, WEIGHT_15, 0x3FE4_CCCC_CCCC_CCCD);
    lemma_fine_sum(0x3FE1_9999_9999_999A, WEIGHT_05, 0x3FE3_3333_3333_3334);
    lemma_fine_sum(0x3FE1_9999_9999_999A, WEIGHT_15, 0x3FE6_6666_6666_6667);
    lemma_fine_sum(MATCH_THRESHOLD, WEIGHT_05, 0x3FE4_CCCC_CCCC_CCCD);
    lemma_fine_sum(0x3FE4_CCCC_CCCC_CCCD, WEIGHT_05, 0x3FE6_6666_6666_6667);
    lemma_fine_sum(0x3FE4_CCCC_CCCC_CCCD, WEIGHT_15, 0x3FE9_9999_9999_999A);
    lemma_fine_sum(0x3FE6_6666_6666_6666, WEIGHT_15, 0x3FEB_3333_3333_3333);
    lemma_fine_sum(0x3FE6_6666_6666_6667, WEIGHT_05, 0x3FE8_0000_0000_0001);
    lemma_fine_sum(0x3FE9_9999_9999_999A, WEIGHT_05, 0x3FEB_3333_3333_3334);
    lemma_fine_sum(0x3FE9_9999_9999_999A, WEIGHT_15, 0x3FEE_6666_6666_6667);
    lemma_fine_sum(0x3FEE_6666_6666_6667, WEIGHT_05, ONE_BITS);
}

/// The score of a pair with equal amounts that is not pending on both sides, by
/// the days between its dates, whether the descriptions match, and whether the
/// pending status is equal.
pub open spec fn dated_score(days: int, described: bool, same_status: bool) -> u64 {
    if days == 0 {
        if described && same_status {
            ONE_BITS
        } else if described {
            0x3FEE_6666_6666_6667
        } else if same_status {
            0x3FEB_3333_3333_3334
        } else {
            0x3FE9_9999_9999_999A
        }
    } else if days == 1 {
        if described && same_status {
            0x3FEB_3333_3333_3334
        } else if described {
            0x3FE9_9999_9999_999A
        } else if same_status {
            0x3FE6_6666_6666_6667
        } else {
            0x3FE4_CCCC_CCCC_CCCD
        }
    } else if days == 2 {
        if described && same_status {
            0x3FE8_0000_0000_0001
        } else if described {
            0x3FE6_6666_6666_6667
        } else if same_status {
            0x3FE3_3333_3333_3334
        } else {
            0x3FE1_9999_9999_999A
        }
    } else if days == 3 {
        if described && same_status {
            0x3FE6_6666_6666_6667
        } else if described {
            0x3FE4_CCCC_CCCC_CCCD
        } else if same_status {
            0x3FE1_9999_9999_999A
        } else {
            0x3FE0_0000_0000_0000
        }
    } else if days == 4 || days == 5 {
        if described && same_status {
            0x3FE4_CCCC_CCCC_CCCD
        } else if described {
            MATCH_THRESHOLD
        } else if same_status {
            0x3FE0_0000_0000_0000
        } else {
            0x3FDC_CCCC_CCCC_CCCD
        }
    } else {
        0
    }
}

/// The score of every pair of transactions, evaluated: 0 for amounts that
/// differ, 0.7 or 0.85 for two pending transactions, and the table of
/// `dated_score` for the rest.
pub proof fn lemma_transaction_score_table(s: SfinTxn, l: LfTxn, described: bool)
    ensures
        transaction_score(s, l, described).bits == (if amounts_differ(s.amount, l.amount) {
            0
        } else if s.pending && l.is_pending {
            if described {
                0x3FEB_3333_3333_3333
            } else {
                0x3FE6_6666_6666_6666
            }
        } else {
            dated_score(
                day_gap(s.posted as int, l.date_ts as int),
                described,
                s.pending == l.is_pending,
            )
        }),
{
    lemma_weight_sums();
}

/// A pair of transactions reaches the match threshold exactly when its amounts
/// agree to the cent, and it is pending on both sides, or its dates lie within
/// five days and also the descriptions match, or the dates lie within one day,
/// or they lie two days apart and the pending status is equal.
pub proof fn lemma_transactions_match_when(s: SfinTxn, l: LfTxn, described: bool)
    ensures
        transaction_score(s, l, described).bits >= MATCH_THRESHOLD <==> {
            let days = day_gap(s.posted as int, l.date_ts as int);
            &&& !amounts_differ(s.amount, l.amount)
            &&& ({
                ||| s.pending && l.is_pending
                ||| days <= 5 && described
                ||| days <= 1
                ||| days == 2 && s.pending == l.is_pending
            })
        },
{
    lemma_transaction_score_table(s, l, described);
    assert(day_gap(s.posted as int, l.date_ts as int) >= 0);
}

/// Settled transactions more than five days apart never match.
pub proof fn lemma_distant_transactions_score_zero(s: SfinTxn, l: LfTxn, described: bool)
    requires
        !(s.pending && l.is_pending),
        day_gap(s.posted as int, l.date_ts as int) > 5,
    ensures
        transaction_score(s, l, described).bits == 0,
{
}

/// A score depends on amounts only through their magnitudes: the signs, which
/// the providers use differently, play no part.
pub proof fn lemma_amount_signs_ignored(s: SfinTxn, l: LfTxn, s2: SfinTxn, l2: LfTxn, described: bool)
    requires
        s2 == (SfinTxn { amount: s2.amount, ..s }),
        l2 == (LfTxn { amount: l2.amount, ..l }),
        magnitude(s.amount) == magnitude(s2.amount),
        magnitude(l.amount) == magnitude(l2.amount),
    ensures
        transaction_score(s, l, described) == transaction_score(s2, l2, described),
{
}

/// A matching description never lowers a score, and raises one that is not zero.
pub proof fn lemma_description_raises_score(s: SfinTxn, l: LfTxn)
    ensures
        transaction_score(s, l, false).bits <= transaction_score(s, l, true).bits,
        transaction_score(s, l, false).bits > 0 ==> transaction_score(s, l, false).bits
            < transaction_score(s, l, true).bits,
{
    lemma_transaction_score_table(s, l, false);
    lemma_transaction_score_table(s, l, true);
}

// ---------------------------------------------------------------------------
// Pairs of accounts
// ---------------------------------------------------------------------------

/// A transaction reduced to its timestamp and amount.
pub type Movement = (i64, Double);

/// Whether two movements may be the same one: their amounts differ by less than
/// one cent and their dates by at most five days.
pub open spec fn same_movement(s: Movement, l: Movement) -> bool {
    &&& magnitude_gap(s.1, l.1) matches Some(gap)
    &&& gap < CENT_BITS
    &&& day_gap(s.0 as int, l.0 as int) <= 5
}

/// The position, from `i` on, of the first movement in `lf` that may be `s`.
pub open spec fn first_partner(s: Movement, lf: Seq<Movement>, i: int) -> Option<int>
    decreases lf.len() - i,
{
    if i < 0 || i >= lf.len() {
        None
    } else if same_movement(s, lf[i]) {
        Some(i)
    } else {
        first_partner(s, lf, i + 1)
    }
}

/// How many movements of `sfin` find a partner when each in turn takes the first
/// one in `lf` that is still free.
pub open spec fn partnered(sfin: Seq<Movement>, lf: Seq<Movement>) -> nat
    decreases sfin.len(),
{
    if sfin.len() == 0 {
        0
    } else {
        match first_partner(sfin[0], lf, 0) {
            Some(i) => 1 + partnered(sfin.drop_first(), lf.remove(i)),
            None => partnered(sfin.drop_first(), lf),
        }
    }
}

/// The score of two lists of movements: `None` when one is empty, 0 when one is
/// too short to tell, and otherwise the partnered fraction of the shorter one.
pub open spec fn movement_score(sfin: Seq<Movement>, lf: Seq<Movement>) -> Option<Double> {
    let shorter = if sfin.len() <= lf.len() {
        sfin.len()
    } else {
        lf.len()
    };
    if shorter == 0 {
        None
    } else if shorter < MIN_TRANSACTIONS {
        Some(dbl(0))
    } else {
        Some(rounded_ratio(partnered(sfin, lf) as int, shorter as int))
    }
}

proof fn lemma_first_partner(s: Movement, lf: Seq<Movement>, i: int)
    requires
        0 <= i,
    ensures
        match first_partner(s, lf, i) {
            Some(j) => i <= j < lf.len() && same_movement(s, lf[j]) && forall|k: int|
                i <= k < j ==> !#[trigger] same_movement(s, lf[k]),
            None => forall|k: int| i <= k < lf.len() ==> !#[trigger] same_movement(s, lf[k]),
        },
    decreases lf.len() - i,
{
    if i < lf.len() && !same_movement(s, lf[i]) {
        lemma_first_partner(s, lf, i + 1);
    }
}

/// No more movements find a partner than either list holds.
pub proof fn lemma_partnered_bounds(sfin: Seq<Movement>, lf: Seq<Movement>)
    ensures
        partnered(sfin, lf) <= sfin.len(),
        partnered(sfin, lf) <= lf.len(),
    decreases sfin.len(),
{
    if sfin.len() > 0 {
        lemma_first_partner(sfin[0], lf, 0);
        match first_partner(sfin[0], lf, 0) {
            Some(i) => lemma_partnered_bounds(sfin.drop_first(), lf.remove(i)),
            None => lemma_partnered_bounds(sfin.drop_first(), lf),
        }
    }
}

/// A one-to-one pairing of movements that may be the same, by their positions.
pub open spec fn is_pairing(
    sfin: Seq<Movement>,
    lf: Seq<Movement>,
    pairs: Seq<(int, int)>,
) -> bool {
    &&& forall|k: int|
        0 <= k < pairs.len() ==> {
            let (i, j) = #[trigger] pairs[k];
            0 <= i < sfin.len() && 0 <= j < lf.len() && same_movement(sfin[i], lf[j])
        }
    &&& forall|k: int, m: int|
        #![trigger pairs[k], pairs[m]]
        0 <= k < m < pairs.len() ==> pairs[k].0 != pairs[m].0 && pairs[k].1 != pairs[m].1
}

/// Whether a pairing holds a movement: the `i`-th of the one list or the `j`-th of the
/// other.
pub open spec fn pairs_either(pairs: Seq<(int, int)>, i: int, j: int) -> bool {
    exists|k: int| 0 <= k < pairs.len() && ((#[trigger] pairs[k]).0 == i || pairs[k].1 == j)
}

/// The movements that find a partner form a one-to-one pairing to which no further
/// pair can be added.
#[verifier::spinoff_prover]
#[verifier::rlimit(60)]
pub proof fn lemma_partnered_pairing(sfin: Seq<Movement>, lf: Seq<Movement>) -> (pairs: Seq<
    (int, int),
>)
    ensures
        is_pairing(sfin, lf, pairs),
        pairs.len() == partnered(sfin, lf),
        forall|i: int, j: int|
            0 <= i < sfin.len() && 0 <= j < lf.len() && #[trigger] same_movement(sfin[i], lf[j])
                ==> pairs_either(pairs, i, j),
    decreases sfin.len(),
{
    if sfin.len() == 0 {
        Seq::empty()
    } else {
        let rest = sfin.drop_first();
        lemma_first_partner(sfin[0], lf, 0);
        match first_partner(sfin[0], lf, 0) {
            None => {
                let found = lemma_partnered_pairing(rest, lf);
                let pairs = Seq::new(found.len(), |k: int| (found[k].0 + 1, found[k].1));
                assert forall|i: int, j: int|
                    0 <= i < sfin.len() && 0 <= j < lf.len() && #[trigger] same_movement(
                        sfin[i],
                        lf[j],
                    ) implies pairs_either(pairs, i, j) by {
                    assert(i > 0);
                    assert(same_movement(rest[i - 1], lf[j]));
                    let k = choose|k: int|
                        0 <= k < found.len() && ((#[trigger] found[k]).0 == i - 1 || found[k].1
                            == j);
                    assert(pairs[k].0 == i || pairs[k].1 == j);
                }
                pairs
            },
            Some(p) => {
                let free = lf.remove(p);
                let found = lemma_partnered_pairing(rest, free);
                let pairs = Seq::new(
                    found.len() + 1,
                    |k: int|
                        if k == 0 {
                            (0int, p)
                        } else {
                            (
                                found[k - 1].0 + 1,
                                if found[k - 1].1 < p {
                                    found[k - 1].1
                                } else {
                                    found[k - 1].1 + 1
                                },
                            )
                        },
                );
                assert forall|k: int| 0 <= k < pairs.len() implies {
                    let (i, j) = #[trigger] pairs[k];
                    0 <= i < sfin.len() && 0 <= j < lf.len() && same_movement(sfin[i], lf[j])
                } by {
                    if k > 0 {
                        let (i, j) = found[k - 1];
                        assert(same_movement(rest[i], free[j]));
                    }
                }
                assert forall|k: int, m: int|
                    #![trigger pairs[k], pairs[m]]
                    0 <= k < m < pairs.len() implies pairs[k].0 != pairs[m].0 && pairs[k].1
                    != pairs[m].1 by {
                    let (i, j) = found[m - 1];
                    assert(0 <= i && 0 <= j);
                    if k > 0 {
                        assert(found[k - 1].0 != found[m - 1].0 && found[k - 1].1 != found[m - 1].1);
                    }
                }
                assert forall|i: int, j: int|
                    0 <= i < sfin.len() && 0 <= j < lf.len() && #[trigger] same_movement(
                        sfin[i],
                        lf[j],
                    ) implies pairs_either(pairs, i, j) by {
                    if i == 0 || j == p {
                        assert(pairs[0].0 == i || pairs[0].1 == j);
                    } else {
                        let q = if j < p {
                            j
                        } else {
                            j - 1
                        };
                        assert(free[q] == lf[j]);
                        assert(same_movement(rest[i - 1], free[q]));
                        let k = choose|k: int|
                            0 <= k < found.len() && ((#[trigger] found[k]).0 == i - 1 || found[k].1
                                == q);
                        assert(pairs[k + 1].0 == i || pairs[k + 1].1 == j);
                    }
                }
                pairs
            },
        }
    }
}

fn find_partner(s: Movement, lf: &Vec<Movement>) -> (r: Option<usize>)
    ensures
        match r {
            Some(i) => first_partner(s, lf@, 0) == Some(i as int) && i < lf@.len(),
            None => first_partner(s, lf@, 0) is None,
        },
{
    let mut i: usize = 0;
    while i < lf.len()
        invariant
            i <= lf@.len(),
            first_partner(s, lf@, 0) == first_partner(s, lf@, i as int),
        decreases lf@.len() - i,
    {
        let l: Movement = lf[i];
        if within_a_cent(s.1, l.1) && days_between(s.0, l.0) <= 5 {
            return Some(i);
        }
        i = i + 1;
    }
    None
}

fn count_partnered(sfin: &Vec<Movement>, lf: &Vec<Movement>) -> (r: usize)
    ensures
        r == partnered(sfin@, lf@),
{
    let mut free: Vec<Movement> = Vec::new();
    let mut k: usize = 0;
    while k < lf.len()
        invariant
            k <= lf@.len(),
            free@ == lf@.take(k as int),
        decreases lf@.len() - k,
    {
        free.push(lf[k]);
        k = k + 1;
        assert(free@ =~= lf@.take(k as int));
    }
    assert(free@ =~= lf@);
    let mut count: usize = 0;
    let mut i: usize = 0;
    assert(sfin@.skip(0) =~= sfin@);
    while i < sfin.len()
        invariant
            i <= sfin@.len(),
            count <= i,
            partnered(sfin@, lf@) == count + partnered(sfin@.skip(i as int), free@),
        decreases sfin@.len() - i,
    {
        let ghost rest = sfin@.skip(i as int);
        assert(rest[0] == sfin@[i as int]);
        assert(rest.drop_first() =~= sfin@.skip(i + 1));
        match find_partner(sfin[i], &free) {
            Some(j) => {
                free.remove(j);
                count = count + 1;
            },
            None => {},
        }
        i = i + 1;
    }
    count
}

/// Scores two lists of movements by the fraction of the shorter list that finds
/// a partner in the other; `None` when one list is empty.
pub fn score_movements(sfin: &Vec<Movement>, lf: &Vec<Movement>) -> (r: Option<Double>)
    requires
        sfin@.len() <= TXN_WINDOW || lf@.len() <= TXN_WINDOW,
    ensures
        r == movement_score(sfin@, lf@),
        r matches Some(score) ==> score.bits <= ONE_BITS,
{
    let shorter: usize = if sfin.len() <= lf.len() {
        sfin.len()
    } else {
        lf.len()
    };
    if shorter == 0 {
        return None;
    }
    if shorter < MIN_TRANSACTIONS {
        return Some(Double::zero());
    }
    let matched: usize = count_partnered(sfin, lf);
    proof {
        lemma_partnered_bounds(sfin@, lf@);
    }
    Some(Double::ratio(matched as u64, shorter as u64))
}

/// The movements of those of the first `n` rows whose amount is a number.
pub open spec fn sfin_movements(rows: Seq<SfinRecent>, n: int) -> Seq<Movement>
    decreases n,
{
    if n <= 0 {
        Seq::empty()
    } else {
        let before = sfin_movements(rows, n - 1);
        match rows[n - 1].amount.parsed {
            Some(amount) => before.push((rows[n - 1].posted, amount)),
            None => before,
        }
    }
}

/// A date as a timestamp, 0 where it is no date.
pub open spec fn date_timestamp(date: Seq<char>) -> i64 {
    match parsed_date(date) {
        Some(ts) => ts,
        None => 0,
    }
}

/// The movements of the first `n` rows.
pub open spec fn lf_movements(rows: Seq<LfRecent>, n: int) -> Seq<Movement> {
    Seq::new(n as nat, |i: int| (date_timestamp(rows[i].date@), rows[i].amount))
}

/// At most the number of rows that are looked at.
pub open spec fn window(len: nat) -> int {
    if len <= TXN_WINDOW {
        len as int
    } else {
        TXN_WINDOW as int
    }
}

/// Whether two currencies are both known and differ.
pub open spec fn currencies_differ(a: Option<String>, b: Option<String>) -> bool {
    match (a, b) {
        (Some(x), Some(y)) => !same_ignoring_ascii_case(x@, y@),
        _ => false,
    }
}

/// The score of a pair of accounts by its recent transactions, newest first.
pub open spec fn recent_score(
    sfin: Seq<SfinRecent>,
    lf: Seq<LfRecent>,
    sfin_currency: Option<String>,
    lf_currency: Option<String>,
) -> Option<Double> {
    if currencies_differ(sfin_currency, lf_currency) {
        Some(dbl(0))
    } else {
        movement_score(
            sfin_movements(sfin, window(sfin.len())),
            lf_movements(lf, window(lf.len())),
        )
    }
}

proof fn lemma_sfin_movements_len(rows: Seq<SfinRecent>, n: int)
    requires
        0 <= n,
    ensures
        sfin_movements(rows, n).len() <= n,
    decreases n,
{
    if n > 0 {
        lemma_sfin_movements_len(rows, n - 1);
    }
}

/// Scores how likely two accounts are the same real-world account by comparing
/// their most recent transactions, which are given newest first.
///
/// Known currencies that differ give `Some(0.0)`. `None` means that one side has
/// no transactions at all. A side with fewer than `MIN_TRANSACTIONS` gives
/// `Some(0.0)`. Otherwise the score is the fraction that could be matched one to
/// one by amount (within one cent) and date (within five days).
pub fn score_accounts_by_transactions(
    sfin: &Vec<SfinRecent>,
    lf: &Vec<LfRecent>,
    sfin_currency: &Option<String>,
    lf_currency: &Option<String>,
) -> (r: Option<Double>)
    ensures
        r == recent_score(sfin@, lf@, *sfin_currency, *lf_currency),
        r matches Some(score) ==> score.bits <= ONE_BITS,
{
    match (sfin_currency, lf_currency) {
        (Some(a), Some(b)) => {
            if !eq_ignore_ascii_case(a.as_str(), b.as_str()) {
                return Some(Double::zero());
            }
        },
        _ => {},
    }
    let mut sfin_txns: Vec<Movement> = Vec::new();
    let mut i: usize = 0;
    while i < sfin.len() && i < TXN_WINDOW
        invariant
            i <= window(sfin@.len()),
            sfin_txns@ == sfin_movements(sfin@, i as int),
        decreases sfin@.len() - i,
    {
        match sfin[i].amount.parsed {
            Some(amount) => sfin_txns.push((sfin[i].posted, amount)),
            None => {},
        }
        i = i + 1;
    }
    let mut lf_txns: Vec<Movement> = Vec::new();
    let mut j: usize = 0;
    while j < lf.len() && j < TXN_WINDOW
        invariant
            j <= window(lf@.len()),
            lf_txns@ == lf_movements(lf@, j as int),
        decreases lf@.len() - j,
    {
        lf_txns.push((date_str_to_unix(lf[j].date.as_str()), lf[j].amount));
        j = j + 1;
        assert(lf_txns@ =~= lf_movements(lf@, j as int));
    }
    proof {
        lemma_sfin_movements_len(sfin@, i as int);
    }
    score_movements(&sfin_txns, &lf_txns)
}

/// The score of a pair of accounts: the similarity of the names alone where
/// there are no transactions to compare, and otherwise the transaction score
/// with a small bonus for similar names.
pub open spec fn combined_score(txn_score: Option<Double>, name_sim: Double) -> Double {
    match txn_score {
        None => name_sim,
        Some(score) => lesser(
            rounded_sum(score, rounded_product(name_sim, dbl(WEIGHT_15))),
            dbl(ONE_BITS),
        ),
    }
}

/// Combines the transaction score of a pair of accounts with the similarity of
/// their names.
pub fn account_score(txn_score: Option<Double>, name_sim: Double) -> (r: Double)
    requires
        name_sim.bits <= ONE_BITS,
        txn_score matches Some(score) ==> score.bits <= ONE_BITS,
    ensures
        r == combined_score(txn_score, name_sim),
        r.bits <= ONE_BITS,
{
    match txn_score {
        None => name_sim,
        Some(score) => {
            let bonus: Double = name_sim.times(Double::from_bits(WEIGHT_15));
            score.plus(bonus).at_most(Double::from_bits(ONE_BITS))
        },
    }
}

/// Similar names alone cannot lift a pair of accounts whose transactions scored
/// zero to the match threshold.
pub proof fn lemma_name_bonus_below_threshold(name_sim: Double)
    requires
        name_sim.bits <= ONE_BITS,
    ensures
        combined_score(Some(dbl(0)), name_sim).bits <= WEIGHT_15,
        WEIGHT_15 < MATCH_THRESHOLD,
{
    lemma_product_bounds(name_sim, dbl(WEIGHT_15));
    lemma_sum_zero(rounded_product(name_sim, dbl(WEIGHT_15)));
}

/// Accounts in different currencies never reach the match threshold, whatever their
/// transactions and names.
pub proof fn lemma_currency_mismatch_disqualifies(
    sfin: Seq<SfinRecent>,
    lf: Seq<LfRecent>,
    sfin_currency: Option<String>,
    lf_currency: Option<String>,
    name_sim: Double,
)
    requires
        currencies_differ(sfin_currency, lf_currency),
        name_sim.bits <= ONE_BITS,
    ensures
        combined_score(recent_score(sfin, lf, sfin_currency, lf_currency), name_sim).bits
            < MATCH_THRESHOLD,
{
    lemma_name_bonus_below_threshold(name_sim);
}

proof fn lemma_identical_partnered(list: Seq<Movement>)
    requires
        forall|i: int| 0 <= i < list.len() ==> magnitude((#[trigger] list[i]).1) < INFINITY_BITS,
    ensures
        partnered(list, list) == list.len(),
    decreases list.len(),
{
    if list.len() > 0 {
        lemma_gap_to_self(list[0].1);
        assert(same_movement(list[0], list[0]));
        assert(first_partner(list[0], list, 0) == Some(0int));
        assert(list.remove(0) =~= list.drop_first());
        assert forall|i: int| 0 <= i < list.drop_first().len() implies magnitude(
            (#[trigger] list.drop_first()[i]).1,
        ) < INFINITY_BITS by {
            assert(list.drop_first()[i] == list[i + 1]);
        }
        lemma_identical_partnered(list.drop_first());
    }
}

/// Two accounts with the same movements, at least `MIN_TRANSACTIONS` of them and
/// all of finite amounts, score 1.0.
pub proof fn lemma_identical_accounts_score_one(list: Seq<Movement>)
    requires
        list.len() >= MIN_TRANSACTIONS,
        forall|i: int| 0 <= i < list.len() ==> magnitude((#[trigger] list[i]).1) < INFINITY_BITS,
    ensures
        movement_score(list, list) == Some(dbl(ONE_BITS)),
{
    lemma_identical_partnered(list);
    lemma_ratio_whole(list.len() as int);
}

// ---------------------------------------------------------------------------
// What the scores are for
// ---------------------------------------------------------------------------

proof fn lemma_all_movements(rows: Seq<SfinRecent>, n: int)
    requires
        0 <= n <= rows.len(),
        forall|i: int| 0 <= i < rows.len() ==> (#[trigger] rows[i]).amount.parsed is Some,
    ensures
        sfin_movements(rows, n).len() == n,
        forall|i: int|
            0 <= i < n ==> #[trigger] sfin_movements(rows, n)[i] == (
                rows[i].posted,
                rows[i].amount.parsed->0,
            ),
    decreases n,
{
    if n > 0 {
        lemma_all_movements(rows, n - 1);
    }
}

proof fn lemma_movements_local(a: Seq<SfinRecent>, b: Seq<SfinRecent>, n: int)
    requires
        0 <= n <= a.len(),
        n <= b.len(),
        forall|i: int| 0 <= i < n ==> #[trigger] a[i] == b[i],
    ensures
        sfin_movements(a, n) == sfin_movements(b, n),
    decreases n,
{
    if n > 0 {
        lemma_movements_local(a, b, n - 1);
        assert(a[n - 1] == b[n - 1]);
    }
}

/// Two accounts in one currency with two to twenty recent transactions each are scored
/// by all of them: the score is the share of the shorter list that stands in a
/// one-to-one pairing of transactions less than a cent and less than six whole days
/// apart, and no two transactions that the pairing leaves out would pair.
pub proof fn lemma_recent_transactions_all_count(
    sfin: Seq<SfinRecent>,
    lf: Seq<LfRecent>,
    sfin_currency: Option<String>,
    lf_currency: Option<String>,
) -> (pairs: Seq<(int, int)>)
    requires
        2 <= sfin.len() <= 20,
        2 <= lf.len() <= 20,
        forall|i: int| 0 <= i < sfin.len() ==> (#[trigger] sfin[i]).amount.parsed is Some,
        sfin_currency is None || lf_currency is None || sfin_currency->0@ == lf_currency->0@,
    ensures
        recent_score(sfin, lf, sfin_currency, lf_currency) == Some(
            rounded_ratio(
                pairs.len() as int,
                if sfin.len() <= lf.len() {
                    sfin.len() as int
                } else {
                    lf.len() as int
                },
            ),
        ),
        forall|k: int|
            0 <= k < pairs.len() ==> {
                let (i, j) = #[trigger] pairs[k];
                &&& 0 <= i < sfin.len() && 0 <= j < lf.len()
                &&& magnitude_gap(sfin[i].amount.parsed->0, lf[j].amount) matches Some(gap)
                &&& gap < 0x3F84_7AE1_47AE_147B
                &&& -518_400 < sfin[i].posted - (match parsed_date(lf[j].date@) {
                    Some(ts) => ts,
                    None => 0,
                }) < 518_400
            },
        forall|k: int, m: int|
            #![trigger pairs[k], pairs[m]]
            0 <= k < m < pairs.len() ==> pairs[k].0 != pairs[m].0 && pairs[k].1 != pairs[m].1,
        forall|i: int, j: int|
            #![trigger sfin[i], lf[j]]
            0 <= i < sfin.len() && 0 <= j < lf.len() && (magnitude_gap(
                sfin[i].amount.parsed->0,
                lf[j].amount,
            ) matches Some(gap) && gap < 0x3F84_7AE1_47AE_147B) && -518_400 < sfin[i].posted - (
            match parsed_date(lf[j].date@) {
                Some(ts) => ts,
                None => 0,
            }) < 518_400 ==> exists|k: int|
                0 <= k < pairs.len() && ((#[trigger] pairs[k]).0 == i || pairs[k].1 == j),
{
    let s = sfin_movements(sfin, sfin.len() as int);
    let l = lf_movements(lf, lf.len() as int);
    lemma_all_movements(sfin, sfin.len() as int);
    let pairs = lemma_partnered_pairing(s, l);
    assert forall|i: int, j: int|
        #![trigger sfin[i], lf[j]]
        0 <= i < sfin.len() && 0 <= j < lf.len() && (magnitude_gap(
            sfin[i].amount.parsed->0,
            lf[j].amount,
        ) matches Some(gap) && gap < 0x3F84_7AE1_47AE_147B) && -518_400 < sfin[i].posted - (
        match parsed_date(lf[j].date@) {
            Some(ts) => ts,
            None => 0,
        }) < 518_400 implies exists|k: int|
            0 <= k < pairs.len() && ((#[trigger] pairs[k]).0 == i || pairs[k].1 == j) by {
        assert(s[i] == (sfin[i].posted, sfin[i].amount.parsed->0));
        assert(same_movement(s[i], l[j]));
        assert(pairs_either(pairs, i, j));
    }
    assert forall|k: int| 0 <= k < pairs.len() implies {
        let (i, j) = #[trigger] pairs[k];
        &&& 0 <= i < sfin.len() && 0 <= j < lf.len()
        &&& magnitude_gap(sfin[i].amount.parsed->0, lf[j].amount) matches Some(gap)
        &&& gap < 0x3F84_7AE1_47AE_147B
        &&& -518_400 < sfin[i].posted - (match parsed_date(lf[j].date@) {
            Some(ts) => ts,
            None => 0,
        }) < 518_400
    } by {
        let (i, j) = pairs[k];
        assert(s[i] == (sfin[i].posted, sfin[i].amount.parsed->0));
        assert(same_movement(s[i], l[j]));
    }
    pairs
}

/// Transactions beyond the twenty newest of a side do not count.
pub proof fn lemma_older_transactions_ignored(
    sfin: Seq<SfinRecent>,
    lf: Seq<LfRecent>,
    sfin_currency: Option<String>,
    lf_currency: Option<String>,
)
    ensures
        20 <= sfin.len() ==> recent_score(sfin, lf, sfin_currency, lf_currency) == recent_score(
            sfin.take(20),
            lf,
            sfin_currency,
            lf_currency,
        ),
        20 <= lf.len() ==> recent_score(sfin, lf, sfin_currency, lf_currency) == recent_score(
            sfin,
            lf.take(20),
            sfin_currency,
            lf_currency,
        ),
{
    if 20 <= sfin.len() {
        lemma_movements_local(sfin, sfin.take(20), 20);
    }
    if 20 <= lf.len() {
        assert(lf_movements(lf, 20) =~= lf_movements(lf.take(20), 20));
    }
}

/// A transaction whose amount is no number does not count.
pub proof fn lemma_unreadable_amount_ignored(
    sfin: Seq<SfinRecent>,
    row: SfinRecent,
    lf: Seq<LfRecent>,
    sfin_currency: Option<String>,
    lf_currency: Option<String>,
)
    requires
        sfin.len() < 20,
        row.amount.parsed is None,
    ensures
        recent_score(sfin.push(row), lf, sfin_currency, lf_currency) == recent_score(
            sfin,
            lf,
            sfin_currency,
            lf_currency,
        ),
{
    lemma_movements_local(sfin.push(row), sfin, sfin.len() as int);
}

/// Without transactions on a side there is nothing to score by, and with a single one
/// there is too little; known currencies that differ score zero whatever the
/// transactions are.
pub proof fn lemma_too_little_to_score(
    sfin: Seq<SfinRecent>,
    lf: Seq<LfRecent>,
    sfin_currency: Option<String>,
    lf_currency: Option<String>,
)
    requires
        forall|i: int| 0 <= i < sfin.len() ==> (#[trigger] sfin[i]).amount.parsed is Some,
    ensures
        sfin_currency is Some && lf_currency is Some && !same_ignoring_ascii_case(
            sfin_currency->0@,
            lf_currency->0@,
        ) ==> recent_score(sfin, lf, sfin_currency, lf_currency) == Some(Double { bits: 0 }),
        sfin_currency is None || lf_currency is None || same_ignoring_ascii_case(
            sfin_currency->0@,
            lf_currency->0@,
        ) ==> {
            let score = recent_score(sfin, lf, sfin_currency, lf_currency);
            &&& score is None <==> sfin.len() == 0 || lf.len() == 0
            &&& sfin.len() > 0 && lf.len() > 0 && (sfin.len() == 1 || lf.len() == 1) ==> score
                == Some(Double { bits: 0 })
        },
{
    lemma_all_movements(sfin, window(sfin.len()));
}

/// The descriptions of a pair of transactions match exactly where the SimpleFIN
/// description, in lower case, holds the LunchFlow description or the LunchFlow
/// merchant, in lower case and not empty: either is enough, whatever the other is.
pub proof fn lemma_either_text_matches(s: SfinTxn, l: LfTxn)
    ensures
        descriptions_match(s, l) <==> {
            ||| l.description is Some && lowercase(l.description->0@).len() > 0
                && exists|before: Seq<char>, after: Seq<char>|
                lowercase(s.description@) == #[trigger] (before + lowercase(l.description->0@)
                    + after)
            ||| l.merchant is Some && lowercase(l.merchant->0@).len() > 0
                && exists|before: Seq<char>, after: Seq<char>|
                lowercase(s.description@) == #[trigger] (before + lowercase(l.merchant->0@)
                    + after)
        },
{
    if l.description is Some {
        lemma_occurs_split(lowercase(s.description@), lowercase(l.description->0@));
    }
    if l.merchant is Some {
        lemma_occurs_split(lowercase(s.description@), lowercase(l.merchant->0@));
    }
}

/// Merchant and description of a LunchFlow transaction count alike: exchanging them
/// does not change a score.
pub proof fn lemma_texts_interchangeable(s: SfinTxn, l: LfTxn, m: LfTxn)
    requires
        m.merchant == l.description,
        m.description == l.merchant,
        m.amount == l.amount,
        m.date_ts == l.date_ts,
        m.is_pending == l.is_pending,
    ensures
        transaction_score(s, m, descriptions_match(s, m)) == transaction_score(
            s,
            l,
            descriptions_match(s, l),
        ),
{
}

/// The sign of an amount does not matter to a score.
pub proof fn lemma_sign_ignored(s: SfinTxn, l: LfTxn, m: LfTxn, described: bool)
    requires
        l.amount.bits < 0x8000_0000_0000_0000,
        m.amount.bits == l.amount.bits + 0x8000_0000_0000_0000,
        m.date_ts == l.date_ts,
        m.is_pending == l.is_pending,
    ensures
        transaction_score(s, m, described) == transaction_score(s, l, described),
{
    let b = l.amount.bits as int;
    vstd::arithmetic::div_mod::lemma_small_mod(b as nat, 0x8000_0000_0000_0000);
    vstd::arithmetic::div_mod::lemma_fundamental_div_mod_converse(
        b + 0x8000_0000_0000_0000,
        0x8000_0000_0000_0000,
        1,
        b,
    );
}

/// The scores in numbers: 0 for amounts over a cent apart; 0.85 or 0.7 for two pending
/// transactions, with and without matching descriptions; otherwise by whole days
/// apart, 0 from the sixth on.
pub proof fn lemma_score_numbers(s: SfinTxn, l: LfTxn, described: bool)
    ensures
        ({
            let score = transaction_score(s, l, described).bits;
            let secs = if s.posted >= l.date_ts {
                s.posted - l.date_ts
            } else {
                l.date_ts - s.posted
            };
            let same = s.pending == l.is_pending;
            if magnitude_gap(s.amount, l.amount) matches Some(gap) && gap > 0x3F84_7AE1_47AE_147B {
                score == 0
            } else if s.pending && l.is_pending {
                score == (if described {
                    0x3FEB_3333_3333_3333u64
                } else {
                    0x3FE6_6666_6666_6666
                })
            } else {
                &&& secs < 86_400 ==> score == (match (described, same) {
                    (true, true) => 0x3FF0_0000_0000_0000u64,
                    (true, false) => 0x3FEE_6666_6666_6667,
                    (false, true) => 0x3FEB_3333_3333_3334,
                    (false, false) => 0x3FE9_9999_9999_999A,
                })
                &&& 86_400 <= secs < 172_800 ==> score == (match (described, same) {
                    (true, true) => 0x3FEB_3333_3333_3334u64,
                    (true, false) => 0x3FE9_9999_9999_999A,
                    (false, true) => 0x3FE6_6666_6666_6667,
                    (false, false) => 0x3FE4_CCCC_CCCC_CCCD,
                })
                &&& 172_800 <= secs < 259_200 ==> score == (match (described, same) {
                    (true, true) => 0x3FE8_0000_0000_0001u64,
                    (true, false) => 0x3FE6_6666_6666_6667,
                    (false, true) => 0x3FE3_3333_3333_3334,
                    (false, false) => 0x3FE1_9999_9999_999A,
                })
                &&& 259_200 <= secs < 345_600 ==> score == (match (described, same) {
                    (true, true) => 0x3FE6_6666_6666_6667u64,
                    (true, false) => 0x3FE4_CCCC_CCCC_CCCD,
                    (false, true) => 0x3FE1_9999_9999_999A,
                    (false, false) => 0x3FE0_0000_0000_0000,
                })
                &&& 345_600 <= secs < 518_400 ==> score == (match (described, same) {
                    (true, true) => 0x3FE4_CCCC_CCCC_CCCDu64,
                    (true, false) => 0x3FE3_3333_3333_3333,
                    (false, true) => 0x3FE0_0000_0000_0000,
                    (false, false) => 0x3FDC_CCCC_CCCC_CCCD,
                })
                &&& 518_400 <= secs ==> score == 0
            }
        }),
{
    lemma_transaction_score_table(s, l, described);
}

} // verus!
