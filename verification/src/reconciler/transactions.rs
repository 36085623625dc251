//! Transaction matching within a matched pair of accounts.
use crate::amount::Amount;
use crate::double::{magnitude_gap, Double, ONE_BITS};
use crate::reconciler::accounts::{table, texts, MatchStatus};
use crate::reconciler::scoring::{amounts_differ, date_timestamp, day_gap, dbl, descriptions_match, lemma_score_numbers, lemma_transactions_match_when, score_transactions, transaction_score, LfTxn, SfinTxn, MATCH_THRESHOLD};
use crate::text::chars;
use crate::util::{date_str_to_unix, parsed_date};
use vstd::prelude::*;

verus! {

/// A stored SimpleFIN transaction.
#[derive(Debug)]
pub struct SfinTxnRow {
    pub id: String,
    pub posted: i64,
    pub amount: Amount,
    pub description: String,
    /// Nonzero when pending.
    pub pending: i64,
}

/// A stored LunchFlow transaction.
#[derive(Debug)]
pub struct LfTxnRow {
    pub id: String,
    pub date: String,
    pub amount: Double,
    pub merchant: Option<String>,
    pub description: Option<String>,
    /// Nonzero when pending.
    pub is_pending: i64,
}

/// The transactions of those among the first `n` rows whose amount is a number.
pub open spec fn sfin_txns(rows: Seq<SfinTxnRow>, n: int) -> Seq<SfinTxn>
    decreases n,
{
    if n <= 0 {
        Seq::empty()
    } else {
        let row = rows[n - 1];
        match row.amount.parsed {
            Some(amount) => sfin_txns(rows, n - 1).push(
                SfinTxn {
                    id: row.id,
                    posted: row.posted,
                    amount,
                    description: row.description,
                    pending: row.pending != 0,
                },
            ),
            None => sfin_txns(rows, n - 1),
        }
    }
}

/// The transaction of a row.
pub open spec fn lf_txn(row: LfTxnRow) -> LfTxn {
    LfTxn {
        id: row.id,
        date: row.date,
        date_ts: date_timestamp(row.date@),
        amount: row.amount,
        merchant: row.merchant,
        description: row.description,
        is_pending: row.is_pending != 0,
    }
}

/// The transactions of stored rows; rows whose amount is no number are left out.
pub fn read_sfin_txns(rows: Vec<SfinTxnRow>) -> (r: Vec<SfinTxn>)
    ensures
        r@ == sfin_txns(rows@, rows@.len() as int),
{
    let ghost all = rows@;
    let mut r: Vec<SfinTxn> = Vec::new();
    for row in it: rows
        invariant
            it.seq() == all,
            r@ == sfin_txns(all, it.index() as int),
    {
        match row.amount.parsed {
            Some(amount) => r.push(
                SfinTxn {
                    id: row.id,
                    posted: row.posted,
                    amount,
                    description: row.description,
                    pending: row.pending != 0,
                },
            ),
            None => {},
        }
    }
    r
}

/// The transactions of stored rows.
pub fn read_lf_txns(rows: Vec<LfTxnRow>) -> (r: Vec<LfTxn>)
    ensures
        r@ == rows@.map_values(|row: LfTxnRow| lf_txn(row)),
{
    let ghost all = rows@;
    let mut r: Vec<LfTxn> = Vec::new();
    for row in it: rows
        invariant
            it.seq() == all,
            r@.len() == it.index(),
            forall|i: int| 0 <= i < r@.len() ==> #[trigger] r@[i] == lf_txn(all[i]),
    {
        let date_ts: i64 = date_str_to_unix(row.date.as_str());
        r.push(
            LfTxn {
                id: row.id,
                date: row.date,
                date_ts,
                amount: row.amount,
                merchant: row.merchant,
                description: row.description,
                is_pending: row.is_pending != 0,
            },
        );
    }
    assert(r@ =~= all.map_values(|row: LfTxnRow| lf_txn(row)));
    r
}

/// What reconciliation records of a transaction or a pair of transactions.
#[derive(Debug)]
pub struct ReconciledTransaction {
    pub sfin_txn_id: Option<String>,
    pub lf_txn_id: Option<String>,
    pub confidence: Double,
    pub status: MatchStatus,
}

/// The content of a reconciled transaction.
pub struct TxnLink {
    pub sfin: Option<Seq<char>>,
    pub lf: Option<Seq<char>>,
    pub confidence: Double,
    pub status: MatchStatus,
}

impl View for ReconciledTransaction {
    type V = TxnLink;

    open spec fn view(&self) -> TxnLink {
        TxnLink {
            sfin: chars(self.sfin_txn_id),
            lf: chars(self.lf_txn_id),
            confidence: self.confidence,
            status: self.status,
        }
    }
}

/// The contents of a list of reconciled transactions.
pub open spec fn txn_links_of(rows: Seq<ReconciledTransaction>) -> Seq<TxnLink> {
    Seq::new(rows.len(), |i: int| rows[i]@)
}

/// Among the first `n` scores, the position of the highest one that reaches the
/// match threshold, the last such position where scores are equal.
pub open spec fn best_score(scores: Seq<Double>, n: int) -> Option<int>
    decreases n,
{
    if n <= 0 {
        None
    } else {
        let best = best_score(scores, n - 1);
        let to_reach = match best {
            Some(k) => scores[k].bits,
            None => MATCH_THRESHOLD,
        };
        if scores[n - 1].bits >= to_reach {
            Some(n - 1)
        } else {
            best
        }
    }
}

/// The link of a LunchFlow transaction: a match with the SimpleFIN transaction of
/// the best score, or none.
pub open spec fn lf_txn_link(sfin: Seq<Seq<char>>, lf: Seq<char>, scores: Seq<Double>) -> TxnLink {
    match best_score(scores, sfin.len() as int) {
        Some(k) => TxnLink {
            sfin: Some(sfin[k]),
            lf: Some(lf),
            confidence: scores[k],
            status: MatchStatus::Matched,
        },
        None => TxnLink {
            sfin: None,
            lf: Some(lf),
            confidence: dbl(0),
            status: MatchStatus::LfOnly,
        },
    }
}

/// The links of all LunchFlow transactions.
pub open spec fn lf_txn_links(
    sfin: Seq<Seq<char>>,
    lf: Seq<Seq<char>>,
    scores: Seq<Seq<Double>>,
) -> Seq<TxnLink> {
    Seq::new(lf.len(), |l: int| lf_txn_link(sfin, lf[l], scores[l]))
}

/// Whether some link matches the given SimpleFIN transaction.
pub open spec fn txn_matched(links: Seq<TxnLink>, sfin: Seq<char>) -> bool {
    exists|i: int|
        0 <= i < links.len() && (#[trigger] links[i]).status == MatchStatus::Matched
            && links[i].sfin == Some(sfin)
}

/// A SimpleFIN transaction without counterpart.
pub open spec fn sfin_txn_alone(sfin: Seq<char>) -> TxnLink {
    TxnLink { sfin: Some(sfin), lf: None, confidence: dbl(0), status: MatchStatus::SfinOnly }
}

/// `links`, followed by those of the first `n` SimpleFIN transactions that none of
/// them matches.
pub open spec fn with_unmatched(links: Seq<TxnLink>, sfin: Seq<Seq<char>>, n: int) -> Seq<TxnLink>
    decreases n,
{
    if n <= 0 {
        links
    } else {
        let before = with_unmatched(links, sfin, n - 1);
        if txn_matched(links, sfin[n - 1]) {
            before
        } else {
            before.push(sfin_txn_alone(sfin[n - 1]))
        }
    }
}

/// All links of a pair of accounts; `scores[l][s]` is the score of LunchFlow
/// transaction `l` with SimpleFIN transaction `s`.
pub open spec fn txn_links(
    sfin: Seq<Seq<char>>,
    lf: Seq<Seq<char>>,
    scores: Seq<Seq<Double>>,
) -> Seq<TxnLink> {
    with_unmatched(lf_txn_links(sfin, lf, scores), sfin, sfin.len() as int)
}

fn find_best_score(scores: &Vec<Double>) -> (r: Option<usize>)
    ensures
        match r {
            Some(k) => k < scores@.len() && best_score(scores@, scores@.len() as int) == Some(
                k as int,
            ),
            None => best_score(scores@, scores@.len() as int) is None,
        },
{
    let mut best: Option<usize> = None;
    let mut to_reach: u64 = MATCH_THRESHOLD;
    let mut i: usize = 0;
    while i < scores.len()
        invariant
            i <= scores@.len(),
            match best {
                Some(k) => k < i && best_score(scores@, i as int) == Some(k as int) && to_reach
                    == scores@[k as int].bits,
                None => best_score(scores@, i as int) is None && to_reach == MATCH_THRESHOLD,
            },
        decreases scores@.len() - i,
    {
        if scores[i].bits >= to_reach {
            best = Some(i);
            to_reach = scores[i].bits;
        }
        i = i + 1;
    }
    best
}

fn is_txn_matched(rows: &Vec<ReconciledTransaction>, upto: usize, sfin: &String) -> (r: bool)
    requires
        upto <= rows@.len(),
    ensures
        r == txn_matched(txn_links_of(rows@).take(upto as int), sfin@),
{
    let ghost links = txn_links_of(rows@).take(upto as int);
    let mut i: usize = 0;
    while i < upto
        invariant
            upto <= rows@.len(),
            links == txn_links_of(rows@).take(upto as int),
            i <= upto,
            forall|j: int|
                0 <= j < i ==> !((#[trigger] links[j]).status == MatchStatus::Matched
                    && links[j].sfin == Some(sfin@)),
        decreases upto - i,
    {
        assert(links[i as int] == rows@[i as int]@);
        let same: bool = match &rows[i].sfin_txn_id {
            Some(id) => *id == *sfin,
            None => false,
        };
        if rows[i].status == MatchStatus::Matched && same {
            return true;
        }
        i = i + 1;
    }
    false
}

/// Matches transactions, given the score of every pair: `scores[l][s]` is the
/// score of LunchFlow transaction `l` with SimpleFIN transaction `s`.
pub fn match_transactions(
    sfin_ids: &Vec<String>,
    lf_ids: &Vec<String>,
    scores: &Vec<Vec<Double>>,
) -> (r: Vec<ReconciledTransaction>)
    requires
        scores@.len() == lf_ids@.len(),
        forall|l: int| 0 <= l < scores@.len() ==> (#[trigger] scores@[l])@.len() == sfin_ids@.len(),
        forall|l: int, s: int|
            0 <= l < scores@.len() && 0 <= s < sfin_ids@.len() ==> (#[trigger] scores@[l]@[s]).bits
                <= ONE_BITS,
    ensures
        txn_links_of(r@) == txn_links(texts(sfin_ids@), texts(lf_ids@), table(scores@)),
{
    let ghost sfin = texts(sfin_ids@);
    let ghost lf = texts(lf_ids@);
    let ghost grid = table(scores@);
    let mut r: Vec<ReconciledTransaction> = Vec::new();
    let mut l: usize = 0;
    while l < lf_ids.len()
        invariant
            sfin == texts(sfin_ids@),
            lf == texts(lf_ids@),
            grid == table(scores@),
            scores@.len() == lf_ids@.len(),
            forall|l: int|
                0 <= l < scores@.len() ==> (#[trigger] scores@[l])@.len() == sfin_ids@.len(),
            l <= lf_ids@.len(),
            r@.len() == l,
            forall|k: int| 0 <= k < l ==> (#[trigger] r@[k])@ == lf_txn_link(sfin, lf[k], grid[k]),
        decreases lf_ids@.len() - l,
    {
        assert(grid[l as int] == scores@[l as int]@);
        match find_best_score(&scores[l]) {
            Some(k) => {
                r.push(
                    ReconciledTransaction {
                        sfin_txn_id: Some(sfin_ids[k].clone()),
                        lf_txn_id: Some(lf_ids[l].clone()),
                        confidence: scores[l][k],
                        status: MatchStatus::Matched,
                    },
                );
            },
            None => {
                r.push(
                    ReconciledTransaction {
                        sfin_txn_id: None,
                        lf_txn_id: Some(lf_ids[l].clone()),
                        confidence: Double::zero(),
                        status: MatchStatus::LfOnly,
                    },
                );
            },
        }
        l = l + 1;
    }
    let ghost links = lf_txn_links(sfin, lf, grid);
    assert(txn_links_of(r@) =~= links);
    let linked: usize = r.len();
    let mut s: usize = 0;
    assert(txn_links_of(r@).take(linked as int) =~= links);
    while s < sfin_ids.len()
        invariant
            sfin == texts(sfin_ids@),
            s <= sfin_ids@.len(),
            linked <= r@.len(),
            txn_links_of(r@).take(linked as int) == links,
            txn_links_of(r@) == with_unmatched(links, sfin, s as int),
        decreases sfin_ids@.len() - s,
    {
        assert(sfin[s as int] == sfin_ids@[s as int]@);
        if !is_txn_matched(&r, linked, &sfin_ids[s]) {
            let ghost before = txn_links_of(r@);
            r.push(
                ReconciledTransaction {
                    sfin_txn_id: Some(sfin_ids[s].clone()),
                    lf_txn_id: None,
                    confidence: Double::zero(),
                    status: MatchStatus::SfinOnly,
                },
            );
            assert(txn_links_of(r@) =~= before.push(sfin_txn_alone(sfin[s as int])));
            assert(txn_links_of(r@).take(linked as int) =~= before.take(linked as int));
        }
        s = s + 1;
    }
    r
}

/// The ids of SimpleFIN transactions.
pub open spec fn sfin_txn_ids(sfin: Seq<SfinTxn>) -> Seq<Seq<char>> {
    Seq::new(sfin.len(), |i: int| sfin[i].id@)
}

/// The ids of LunchFlow transactions.
pub open spec fn lf_txn_ids(lf: Seq<LfTxn>) -> Seq<Seq<char>> {
    Seq::new(lf.len(), |i: int| lf[i].id@)
}

/// The score of every pair of transactions.
pub open spec fn txn_scores(sfin: Seq<SfinTxn>, lf: Seq<LfTxn>) -> Seq<Seq<Double>> {
    Seq::new(
        lf.len(),
        |l: int|
            Seq::new(
                sfin.len(),
                |s: int| transaction_score(sfin[s], lf[l], descriptions_match(sfin[s], lf[l])),
            ),
    )
}

/// Matches the transactions of a pair of accounts.
pub fn reconcile_transactions(sfin: &Vec<SfinTxn>, lf: &Vec<LfTxn>) -> (r: Vec<
    ReconciledTransaction,
>)
    ensures
        txn_links_of(r@) == txn_links(
            sfin_txn_ids(sfin@),
            lf_txn_ids(lf@),
            txn_scores(sfin@, lf@),
        ),
{
    let mut sfin_ids: Vec<String> = Vec::new();
    let mut i: usize = 0;
    while i < sfin.len()
        invariant
            i <= sfin@.len(),
            sfin_ids@.len() == i,
            forall|k: int| 0 <= k < i ==> (#[trigger] sfin_ids@[k])@ == sfin@[k].id@,
        decreases sfin@.len() - i,
    {
        sfin_ids.push(sfin[i].id.clone());
        i = i + 1;
    }
    let mut lf_ids: Vec<String> = Vec::new();
    let mut scores: Vec<Vec<Double>> = Vec::new();
    let mut l: usize = 0;
    while l < lf.len()
        invariant
            l <= lf@.len(),
            lf_ids@.len() == l,
            scores@.len() == l,
            forall|k: int| 0 <= k < l ==> (#[trigger] lf_ids@[k])@ == lf@[k].id@,
            forall|k: int| 0 <= k < l ==> (#[trigger] scores@[k])@.len() == sfin@.len(),
            forall|k: int, m: int|
                0 <= k < l && 0 <= m < sfin@.len() ==> #[trigger] scores@[k]@[m]
                    == transaction_score(sfin@[m], lf@[k], descriptions_match(sfin@[m], lf@[k])),
            forall|k: int, m: int|
                0 <= k < l && 0 <= m < sfin@.len() ==> (#[trigger] scores@[k]@[m]).bits <= ONE_BITS,
        decreases lf@.len() - l,
    {
        let mut row: Vec<Double> = Vec::new();
        let mut s: usize = 0;
        while s < sfin.len()
            invariant
                l < lf@.len(),
                s <= sfin@.len(),
                row@.len() == s,
                forall|m: int|
                    0 <= m < s ==> #[trigger] row@[m] == transaction_score(
                        sfin@[m],
                        lf@[l as int],
                        descriptions_match(sfin@[m], lf@[l as int]),
                    ),
                forall|m: int| 0 <= m < s ==> (#[trigger] row@[m]).bits <= ONE_BITS,
            decreases sfin@.len() - s,
        {
            row.push(score_transactions(&sfin[s], &lf[l]));
            s = s + 1;
        }
        scores.push(row);
        lf_ids.push(lf[l].id.clone());
        l = l + 1;
    }
    proof {
        assert(texts(sfin_ids@) =~= sfin_txn_ids(sfin@));
        assert(texts(lf_ids@) =~= lf_txn_ids(lf@));
        assert(table(scores@) =~= txn_scores(sfin@, lf@)) by {
            assert forall|k: int| 0 <= k < lf@.len() implies table(scores@)[k] == txn_scores(
                sfin@,
                lf@,
            )[k] by {
                assert(scores@[k]@ =~= txn_scores(sfin@, lf@)[k]);
            }
        }
    }
    match_transactions(&sfin_ids, &lf_ids, &scores)
}

/// Matches the stored transactions of a pair of accounts.
pub fn reconcile_transactions_for_pair(sfin_rows: Vec<SfinTxnRow>, lf_rows: Vec<LfTxnRow>) -> (r: Vec<
    ReconciledTransaction,
>)
    ensures
        ({
            let sfin = sfin_txns(sfin_rows@, sfin_rows@.len() as int);
            let lf = lf_rows@.map_values(|row: LfTxnRow| lf_txn(row));
            txn_links_of(r@) == txn_links(sfin_txn_ids(sfin), lf_txn_ids(lf), txn_scores(sfin, lf))
        }),
{
    let sfin: Vec<SfinTxn> = read_sfin_txns(sfin_rows);
    let lf: Vec<LfTxn> = read_lf_txns(lf_rows);
    reconcile_transactions(&sfin, &lf)
}

// ---------------------------------------------------------------------------
// Laws
// ---------------------------------------------------------------------------

/// The best score reaches the threshold, and none is higher. Where there is none,
/// every score is below the threshold.
pub proof fn lemma_best_score(scores: Seq<Double>, n: int)
    requires
        0 <= n <= scores.len(),
    ensures
        match best_score(scores, n) {
            Some(k) => {
                &&& 0 <= k < n
                &&& scores[k].bits >= MATCH_THRESHOLD
                &&& forall|j: int|
                    0 <= j < n ==> (#[trigger] scores[j]).bits <= scores[k].bits && (j > k
                        ==> scores[j].bits < scores[k].bits)
            },
            None => forall|j: int| 0 <= j < n ==> (#[trigger] scores[j]).bits < MATCH_THRESHOLD,
        },
    decreases n,
{
    if n > 0 {
        lemma_best_score(scores, n - 1);
    }
}

proof fn lemma_with_unmatched(links: Seq<TxnLink>, sfin: Seq<Seq<char>>, n: int)
    requires
        0 <= n <= sfin.len(),
    ensures
        ({
            let all = with_unmatched(links, sfin, n);
            &&& links.is_prefix_of(all)
            &&& forall|i: int|
                links.len() <= i < all.len() ==> exists|k: int|
                    0 <= k < n && #[trigger] all[i] == sfin_txn_alone(#[trigger] sfin[k])
                        && !txn_matched(links, sfin[k])
            &&& forall|k: int|
                0 <= k < n && !txn_matched(links, #[trigger] sfin[k]) ==> all.contains(
                    sfin_txn_alone(sfin[k]),
                )
        }),
    decreases n,
{
    if n > 0 {
        lemma_with_unmatched(links, sfin, n - 1);
        let before = with_unmatched(links, sfin, n - 1);
        let all = with_unmatched(links, sfin, n);
        assert forall|i: int| links.len() <= i < all.len() implies exists|k: int|
            0 <= k < n && #[trigger] all[i] == sfin_txn_alone(#[trigger] sfin[k]) && !txn_matched(
                links,
                sfin[k],
            ) by {
            if i < before.len() {
                assert(all[i] == before[i]);
                let k = choose|k: int|
                    0 <= k < n - 1 && before[i] == sfin_txn_alone(#[trigger] sfin[k])
                        && !txn_matched(links, sfin[k]);
                assert(all[i] == sfin_txn_alone(sfin[k]));
            } else {
                assert(all[i] == sfin_txn_alone(sfin[n - 1]));
            }
        }
        assert forall|k: int| 0 <= k < n && !txn_matched(links, #[trigger] sfin[k]) implies all.contains(
            sfin_txn_alone(sfin[k]),
        ) by {
            if k < n - 1 {
                let i = choose|i: int| 0 <= i < before.len() && before[i] == sfin_txn_alone(sfin[k]);
                assert(all[i] == before[i]);
            } else {
                assert(all[all.len() - 1] == sfin_txn_alone(sfin[k]));
            }
        }
    }
}

/// Every LunchFlow transaction has exactly one link, a match only with a score
/// that reaches the threshold and that no other SimpleFIN transaction exceeds.
pub proof fn lemma_lf_txns_linked(
    sfin: Seq<Seq<char>>,
    lf: Seq<Seq<char>>,
    scores: Seq<Seq<Double>>,
)
    requires
        scores.len() == lf.len(),
        forall|l: int| 0 <= l < scores.len() ==> (#[trigger] scores[l]).len() == sfin.len(),
    ensures
        ({
            let links = txn_links(sfin, lf, scores);
            &&& lf.len() <= links.len()
            &&& forall|l: int|
                0 <= l < lf.len() ==> (#[trigger] links[l]).lf == Some(lf[l]) && match links[l].status {
                    MatchStatus::Matched => exists|s: int|
                        0 <= s < sfin.len() && links[l].sfin == Some(#[trigger] sfin[s])
                            && links[l].confidence == scores[l][s] && scores[l][s].bits
                            >= MATCH_THRESHOLD && forall|j: int|
                            0 <= j < sfin.len() ==> (#[trigger] scores[l][j]).bits
                                <= scores[l][s].bits,
                    MatchStatus::LfOnly => forall|j: int|
                        0 <= j < sfin.len() ==> (#[trigger] scores[l][j]).bits < MATCH_THRESHOLD,
                    MatchStatus::SfinOnly => false,
                }
            &&& forall|i: int| lf.len() <= i < links.len() ==> (#[trigger] links[i]).lf is None
        }),
{
    let first = lf_txn_links(sfin, lf, scores);
    let links = txn_links(sfin, lf, scores);
    lemma_with_unmatched(first, sfin, sfin.len() as int);
    assert forall|l: int| 0 <= l < lf.len() implies (#[trigger] links[l]).lf == Some(lf[l]) && match links[l].status {
        MatchStatus::Matched => exists|s: int|
            0 <= s < sfin.len() && links[l].sfin == Some(#[trigger] sfin[s]) && links[l].confidence
                == scores[l][s] && scores[l][s].bits >= MATCH_THRESHOLD && forall|j: int|
                0 <= j < sfin.len() ==> (#[trigger] scores[l][j]).bits <= scores[l][s].bits,
        MatchStatus::LfOnly => forall|j: int|
            0 <= j < sfin.len() ==> (#[trigger] scores[l][j]).bits < MATCH_THRESHOLD,
        MatchStatus::SfinOnly => false,
    } by {
        assert(links[l] == first[l]);
        lemma_best_score(scores[l], sfin.len() as int);
        match best_score(scores[l], sfin.len() as int) {
            Some(s) => {
                assert(links[l].sfin == Some(sfin[s]));
            },
            None => {},
        }
    }
}

/// Every SimpleFIN transaction is either matched or recorded as standing alone,
/// never both.
pub proof fn lemma_sfin_txns_linked(
    sfin: Seq<Seq<char>>,
    lf: Seq<Seq<char>>,
    scores: Seq<Seq<Double>>,
)
    ensures
        ({
            let links = txn_links(sfin, lf, scores);
            forall|s: int|
                0 <= s < sfin.len() ==> (txn_matched(links, #[trigger] sfin[s])
                    <==> !links.contains(sfin_txn_alone(sfin[s])))
        }),
{
    let first = lf_txn_links(sfin, lf, scores);
    let links = txn_links(sfin, lf, scores);
    lemma_with_unmatched(first, sfin, sfin.len() as int);
    assert forall|s: int| 0 <= s < sfin.len() implies (txn_matched(links, #[trigger] sfin[s])
        <==> !links.contains(sfin_txn_alone(sfin[s]))) by {
        let id = sfin[s];
        if txn_matched(first, id) {
            let i = choose|i: int|
                0 <= i < first.len() && (#[trigger] first[i]).status == MatchStatus::Matched
                    && first[i].sfin == Some(id);
            assert(links[i] == first[i]);
            if links.contains(sfin_txn_alone(id)) {
                let j = choose|j: int| 0 <= j < links.len() && links[j] == sfin_txn_alone(id);
                if j < first.len() {
                    assert(links[j] == first[j]);
                    assert(first[j] == lf_txn_link(sfin, lf[j], scores[j]));
                } else {
                    let k = choose|k: int|
                        0 <= k < sfin.len() && links[j] == sfin_txn_alone(#[trigger] sfin[k])
                            && !txn_matched(first, sfin[k]);
                    assert(sfin[k] == id);
                }
            }
        } else if txn_matched(links, id) {
            let i = choose|i: int|
                0 <= i < links.len() && (#[trigger] links[i]).status == MatchStatus::Matched
                    && links[i].sfin == Some(id);
            if i < first.len() {
                assert(first[i] == links[i]);
            } else {
                let k = choose|k: int|
                    0 <= k < sfin.len() && links[i] == sfin_txn_alone(#[trigger] sfin[k])
                        && !txn_matched(first, sfin[k]);
            }
        }
    }
}

/// Matched transactions agree: their amounts do not differ by more than one cent,
/// and both are pending or their dates lie within five days.
pub proof fn lemma_matched_txns_agree(sfin: Seq<SfinTxn>, lf: Seq<LfTxn>, l: int)
    requires
        0 <= l < lf.len(),
    ensures
        ({
            let link = txn_links(sfin_txn_ids(sfin), lf_txn_ids(lf), txn_scores(sfin, lf))[l];
            link.status == MatchStatus::Matched ==> exists|s: int|
                0 <= s < sfin.len() && link.sfin == Some((#[trigger] sfin[s]).id@)
                    && !amounts_differ(sfin[s].amount, lf[l].amount) && ((sfin[s].pending
                    && lf[l].is_pending) || day_gap(sfin[s].posted as int, lf[l].date_ts as int)
                    <= 5)
        }),
{
    let ids = sfin_txn_ids(sfin);
    let scores = txn_scores(sfin, lf);
    let link = txn_links(ids, lf_txn_ids(lf), scores)[l];
    lemma_lf_txns_linked(ids, lf_txn_ids(lf), scores);
    if link.status == MatchStatus::Matched {
        let s = choose|s: int|
            0 <= s < ids.len() && link.sfin == Some(#[trigger] ids[s]) && link.confidence
                == scores[l][s] && scores[l][s].bits >= MATCH_THRESHOLD && forall|j: int|
                0 <= j < ids.len() ==> (#[trigger] scores[l][j]).bits <= scores[l][s].bits;
        lemma_transactions_match_when(sfin[s], lf[l], descriptions_match(sfin[s], lf[l]));
        assert(link.sfin == Some(sfin[s].id@));
    }
}

/// A stored SimpleFIN row whose amount is a number takes part in matching with what it
/// holds, in its place; one whose amount is no number does not.
pub proof fn lemma_sfin_rows_take_part(rows: Seq<SfinTxnRow>, n: int, k: int)
    requires
        0 <= k < n <= rows.len(),
    ensures
        rows[k].amount.parsed is Some ==> {
            let i = sfin_txns(rows, k).len() as int;
            &&& 0 <= i < sfin_txns(rows, n).len()
            &&& sfin_txns(rows, n)[i].id@ == rows[k].id@
            &&& sfin_txns(rows, n)[i].posted == rows[k].posted
            &&& sfin_txns(rows, n)[i].amount == rows[k].amount.parsed->0
            &&& sfin_txns(rows, n)[i].description@ == rows[k].description@
            &&& sfin_txns(rows, n)[i].pending <==> rows[k].pending != 0
            &&& sfin_txns(rows, k + 1).len() == sfin_txns(rows, k).len() + 1
        },
        rows[k].amount.parsed is None ==> sfin_txns(rows, k + 1) == sfin_txns(rows, k),
    decreases n,
{
    if k < n - 1 {
        lemma_sfin_rows_take_part(rows, n - 1, k);
    }
}

/// A stored LunchFlow row takes part in matching with what it holds, at midnight of its
/// date, or at the epoch where that is no date.
pub proof fn lemma_lf_row_takes_part(row: LfTxnRow)
    ensures
        ({
            let t = lf_txn(row);
            &&& t.id@ == row.id@ && t.date@ == row.date@ && t.amount == row.amount
            &&& t.merchant == row.merchant && t.description == row.description
            &&& t.is_pending <==> row.is_pending != 0
            &&& parsed_date(row.date@) matches Some(ts) ==> t.date_ts == ts
            &&& parsed_date(row.date@) is None ==> t.date_ts == 0
        }),
{
}

/// A LunchFlow transaction is matched wherever some SimpleFIN transaction has its amount
/// to the cent and both are pending, or neither is and they are less than three whole
/// days apart, or less than six where the descriptions match. The match is at least as
/// good as that one.
pub proof fn lemma_counterpart_is_matched(sfin: Seq<SfinTxn>, lf: Seq<LfTxn>, l: int, s: int)
    requires
        0 <= l < lf.len(),
        0 <= s < sfin.len(),
        magnitude_gap(sfin[s].amount, lf[l].amount) matches Some(gap) ==> gap
            <= 0x3F84_7AE1_47AE_147B,
        ({
            let secs = sfin[s].posted - lf[l].date_ts;
            ||| sfin[s].pending && lf[l].is_pending
            ||| !sfin[s].pending && !lf[l].is_pending && -259_200 < secs < 259_200
            ||| !sfin[s].pending && !lf[l].is_pending && -518_400 < secs < 518_400
                && descriptions_match(sfin[s], lf[l])
        }),
    ensures
        ({
            let links = txn_links(sfin_txn_ids(sfin), lf_txn_ids(lf), txn_scores(sfin, lf));
            let link = links[l];
            &&& l < links.len()
            &&& link.status == MatchStatus::Matched
            &&& link.lf == Some(lf[l].id@)
            &&& link.confidence.bits >= 0x3FE3_3333_3333_3333
            &&& link.confidence.bits >= transaction_score(
                sfin[s],
                lf[l],
                descriptions_match(sfin[s], lf[l]),
            ).bits
            &&& exists|k: int|
                0 <= k < sfin.len() && link.sfin == Some((#[trigger] sfin[k]).id@)
                    && link.confidence == transaction_score(
                    sfin[k],
                    lf[l],
                    descriptions_match(sfin[k], lf[l]),
                )
        }),
{
    let ids = sfin_txn_ids(sfin);
    let scores = txn_scores(sfin, lf);
    let link = txn_links(ids, lf_txn_ids(lf), scores)[l];
    lemma_lf_txns_linked(ids, lf_txn_ids(lf), scores);
    lemma_score_numbers(sfin[s], lf[l], descriptions_match(sfin[s], lf[l]));
    assert(scores[l][s].bits >= 0x3FE3_3333_3333_3333);
    assert(link.status == MatchStatus::Matched);
    let k = choose|k: int|
        0 <= k < ids.len() && link.sfin == Some(#[trigger] ids[k]) && link.confidence
            == scores[l][k] && scores[l][k].bits >= MATCH_THRESHOLD && forall|j: int|
            0 <= j < ids.len() ==> (#[trigger] scores[l][j]).bits <= scores[l][k].bits;
    assert(link.sfin == Some(sfin[k].id@));
}

/// A match is of transactions at most a cent apart that are both pending, or less than
/// six whole days apart, and its confidence is no less than 0.6.
pub proof fn lemma_matches_are_close(sfin: Seq<SfinTxn>, lf: Seq<LfTxn>, l: int)
    requires
        0 <= l < lf.len(),
    ensures
        ({
            let link = txn_links(sfin_txn_ids(sfin), lf_txn_ids(lf), txn_scores(sfin, lf))[l];
            link.status == MatchStatus::Matched ==> link.confidence.bits >= 0x3FE3_3333_3333_3333
                && exists|s: int|
                0 <= s < sfin.len() && link.sfin == Some((#[trigger] sfin[s]).id@) && (
                magnitude_gap(sfin[s].amount, lf[l].amount) matches Some(gap) ==> gap
                    <= 0x3F84_7AE1_47AE_147B) && ((sfin[s].pending && lf[l].is_pending) || -518_400
                    < sfin[s].posted - lf[l].date_ts < 518_400)
        }),
{
    let ids = sfin_txn_ids(sfin);
    let scores = txn_scores(sfin, lf);
    let link = txn_links(ids, lf_txn_ids(lf), scores)[l];
    lemma_lf_txns_linked(ids, lf_txn_ids(lf), scores);
    if link.status == MatchStatus::Matched {
        let s = choose|s: int|
            0 <= s < ids.len() && link.sfin == Some(#[trigger] ids[s]) && link.confidence
                == scores[l][s] && scores[l][s].bits >= MATCH_THRESHOLD && forall|j: int|
                0 <= j < ids.len() ==> (#[trigger] scores[l][j]).bits <= scores[l][s].bits;
        lemma_score_numbers(sfin[s], lf[l], descriptions_match(sfin[s], lf[l]));
        assert(link.sfin == Some(sfin[s].id@));
    }
}

/// A transaction that stands alone is recorded with its own id only, under the status of
/// its provider and with no confidence.
pub proof fn lemma_txn_alone_recorded(
    sfin: Seq<Seq<char>>,
    lf: Seq<Seq<char>>,
    scores: Seq<Seq<Double>>,
    i: int,
)
    requires
        0 <= i < txn_links(sfin, lf, scores).len(),
    ensures
        ({
            let link = txn_links(sfin, lf, scores)[i];
            &&& link.status == MatchStatus::Matched <==> link.sfin is Some && link.lf is Some
            &&& link.status == MatchStatus::SfinOnly <==> link.sfin is Some && link.lf is None
            &&& link.status == MatchStatus::LfOnly <==> link.sfin is None && link.lf is Some
            &&& link.status != MatchStatus::Matched ==> link.confidence.bits == 0
        }),
{
    let first = lf_txn_links(sfin, lf, scores);
    let links = txn_links(sfin, lf, scores);
    lemma_with_unmatched(first, sfin, sfin.len() as int);
    if i < first.len() {
        assert(links[i] == first[i]);
        assert(first[i] == lf_txn_link(sfin, lf[i], scores[i]));
    } else {
        let k = choose|k: int|
            0 <= k < sfin.len() && links[i] == sfin_txn_alone(#[trigger] sfin[k]) && !txn_matched(
                first,
                sfin[k],
            );
    }
}

/// Every SimpleFIN transaction is accounted for: in a match, or alone where no link
/// matches it.
pub proof fn lemma_sfin_txns_accounted(
    sfin: Seq<Seq<char>>,
    lf: Seq<Seq<char>>,
    scores: Seq<Seq<Double>>,
    s: int,
)
    requires
        0 <= s < sfin.len(),
    ensures
        ({
            let links = txn_links(sfin, lf, scores);
            let matched = exists|i: int|
                0 <= i < links.len() && (#[trigger] links[i]).sfin == Some(sfin[s])
                    && links[i].lf is Some;
            let alone = exists|i: int|
                0 <= i < links.len() && (#[trigger] links[i]).sfin == Some(sfin[s])
                    && links[i].lf is None;
            matched != alone
        }),
{
    let links = txn_links(sfin, lf, scores);
    let id = sfin[s];
    lemma_sfin_txns_linked(sfin, lf, scores);
    assert forall|i: int| 0 <= i < links.len() implies {
        &&& (#[trigger] links[i]).lf is None && links[i].sfin == Some(id) ==> links.contains(
            sfin_txn_alone(id),
        )
        &&& links[i].lf is Some && links[i].sfin == Some(id) ==> txn_matched(links, id)
    } by {
        lemma_txn_alone_recorded(sfin, lf, scores, i);
        if links[i].lf is None && links[i].sfin == Some(id) {
            assert(links[i] == sfin_txn_alone(id));
        }
    }
    if txn_matched(links, id) {
        let i = choose|i: int|
            0 <= i < links.len() && (#[trigger] links[i]).status == MatchStatus::Matched
                && links[i].sfin == Some(id);
        lemma_txn_alone_recorded(sfin, lf, scores, i);
    } else {
        let i = choose|i: int| 0 <= i < links.len() && links[i] == sfin_txn_alone(id);
        assert(links[i].lf is None);
    }
}

} // verus!
