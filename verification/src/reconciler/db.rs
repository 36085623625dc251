//! Reconciled records: unified transactions and the user's account rules.
use crate::amount::Amount;
use crate::db::posted_bounds;
use crate::double::Double;
use crate::lunchflow::db::{date_bounds, is_bound_date};
use crate::reconciler::scoring::date_timestamp;
use crate::text::same_text;
use crate::util::{date_str_to_unix, in_calendar, is_date_of, parsed_date};
use vstd::prelude::*;

verus! {

// ---------------------------------------------------------------------------
// Unified transactions
// ---------------------------------------------------------------------------

/// View of a SimpleFIN transaction for unified display.
#[derive(Debug)]
pub struct SfinTransactionView {
    pub id: String,
    pub posted: i64,
    pub amount: Amount,
    pub description: String,
    pub payee: Option<String>,
    pub memo: Option<String>,
    pub pending: bool,
}

/// View of a LunchFlow transaction for unified display.
#[derive(Debug)]
pub struct LfTransactionView {
    pub id: String,
    pub amount: Double,
    pub currency: String,
    pub date: String,
    pub merchant: Option<String>,
    pub description: Option<String>,
    pub is_pending: bool,
}

/// Unified transaction with reconciliation status from both SimpleFIN and LunchFlow.
#[derive(Debug)]
pub struct UnifiedTransaction {
    /// `"matched"` | `"sfin_only"` | `"lf_only"` | `"unreconciled"`
    pub status: String,
    pub match_confidence: Option<Double>,
    /// Identifier of the reconciliation record, where there is one. Used to mint
    /// the `REC-{id}` transaction id of matched transactions.
    pub rec_id: Option<i64>,
    pub simplefin: Option<SfinTransactionView>,
    pub lunchflow: Option<LfTransactionView>,
    /// Sort key (unix seconds).
    pub sort_ts: i64,
}

impl Clone for SfinTransactionView {
    fn clone(&self) -> (r: Self)
        ensures
            r == *self,
    {
        SfinTransactionView {
            id: self.id.clone(),
            posted: self.posted,
            amount: self.amount.clone(),
            description: self.description.clone(),
            payee: self.payee.clone(),
            memo: self.memo.clone(),
            pending: self.pending,
        }
    }
}

impl Clone for LfTransactionView {
    fn clone(&self) -> (r: Self)
        ensures
            r == *self,
    {
        LfTransactionView {
            id: self.id.clone(),
            amount: self.amount,
            currency: self.currency.clone(),
            date: self.date.clone(),
            merchant: self.merchant.clone(),
            description: self.description.clone(),
            is_pending: self.is_pending,
        }
    }
}

impl Clone for UnifiedTransaction {
    fn clone(&self) -> (r: Self)
        ensures
            r == *self,
    {
        UnifiedTransaction {
            status: self.status.clone(),
            match_confidence: self.match_confidence,
            rec_id: self.rec_id,
            simplefin: self.simplefin.clone(),
            lunchflow: self.lunchflow.clone(),
            sort_ts: self.sort_ts,
        }
    }
}

/// The stored columns of a LunchFlow transaction.
#[derive(Debug)]
pub struct LfTransactionColumns {
    pub id: String,
    pub amount: Double,
    pub currency: String,
    pub date: String,
    pub merchant: Option<String>,
    pub description: Option<String>,
    /// Nonzero when pending.
    pub is_pending: i64,
}

/// A stored SimpleFIN transaction joined with its reconciliation record and the
/// LunchFlow transaction that the record links it to.
#[derive(Debug)]
pub struct SfinJoinedRow {
    pub recon_status: String,
    pub match_confidence: Option<Double>,
    pub rec_id: Option<i64>,
    pub id: String,
    pub posted: i64,
    pub amount: Amount,
    pub description: String,
    pub payee: Option<String>,
    pub memo: Option<String>,
    /// Nonzero when pending.
    pub pending: i64,
    pub lunchflow: Option<LfTransactionColumns>,
}

/// A stored LunchFlow transaction with no SimpleFIN counterpart, joined with its
/// reconciliation record.
#[derive(Debug)]
pub struct LfOnlyRow {
    pub rec_id: Option<i64>,
    pub match_confidence: Option<Double>,
    pub lunchflow: LfTransactionColumns,
}

/// The view of stored columns.
pub open spec fn lf_view(c: LfTransactionColumns) -> LfTransactionView {
    LfTransactionView {
        id: c.id,
        amount: c.amount,
        currency: c.currency,
        date: c.date,
        merchant: c.merchant,
        description: c.description,
        is_pending: c.is_pending != 0,
    }
}

impl LfTransactionColumns {
    /// The view of these columns.
    pub fn into_view(self) -> (r: LfTransactionView)
        ensures
            r == lf_view(self),
    {
        LfTransactionView {
            id: self.id,
            amount: self.amount,
            currency: self.currency,
            date: self.date,
            merchant: self.merchant,
            description: self.description,
            is_pending: self.is_pending != 0,
        }
    }
}

/// The unified transaction of a joined SimpleFIN row: it keeps the row's status
/// and is ordered by the time it was posted.
pub open spec fn unified_sfin(row: SfinJoinedRow) -> UnifiedTransaction {
    UnifiedTransaction {
        status: row.recon_status,
        match_confidence: row.match_confidence,
        rec_id: row.rec_id,
        simplefin: Some(
            SfinTransactionView {
                id: row.id,
                posted: row.posted,
                amount: row.amount,
                description: row.description,
                payee: row.payee,
                memo: row.memo,
                pending: row.pending != 0,
            },
        ),
        lunchflow: match row.lunchflow {
            Some(c) => Some(lf_view(c)),
            None => None,
        },
        sort_ts: row.posted,
    }
}

impl SfinJoinedRow {
    /// The unified transaction of this row.
    pub fn into_unified(self) -> (r: UnifiedTransaction)
        ensures
            r == unified_sfin(self),
    {
        UnifiedTransaction {
            status: self.recon_status,
            match_confidence: self.match_confidence,
            rec_id: self.rec_id,
            simplefin: Some(
                SfinTransactionView {
                    id: self.id,
                    posted: self.posted,
                    amount: self.amount,
                    description: self.description,
                    payee: self.payee,
                    memo: self.memo,
                    pending: self.pending != 0,
                },
            ),
            lunchflow: match self.lunchflow {
                Some(c) => Some(c.into_view()),
                None => None,
            },
            sort_ts: self.posted,
        }
    }
}

/// `u` is the unified transaction of a LunchFlow row without counterpart, dated
/// `sort_ts`.
pub open spec fn is_unified_lf(row: LfOnlyRow, sort_ts: i64, u: UnifiedTransaction) -> bool {
    &&& u.status@ == "lf_only"@
    &&& u.match_confidence == row.match_confidence
    &&& u.rec_id == row.rec_id
    &&& u.simplefin is None
    &&& u.lunchflow == Some(lf_view(row.lunchflow))
    &&& u.sort_ts == sort_ts
}

impl LfOnlyRow {
    /// The unified transaction of this row, ordered by the given time.
    pub fn dated(self, sort_ts: i64) -> (r: UnifiedTransaction)
        ensures
            is_unified_lf(self, sort_ts, r),
    {
        UnifiedTransaction {
            status: "lf_only".to_owned(),
            match_confidence: self.match_confidence,
            rec_id: self.rec_id,
            simplefin: None,
            lunchflow: Some(self.lunchflow.into_view()),
            sort_ts,
        }
    }

    /// The unified transaction of this row, ordered by its date.
    pub fn into_unified(self) -> (r: UnifiedTransaction)
        ensures
            is_unified_lf(self, date_timestamp(self.lunchflow.date@), r),
    {
        let sort_ts: i64 = date_str_to_unix(self.lunchflow.date.as_str());
        self.dated(sort_ts)
    }
}

/// Bounds of a request for unified transactions: timestamps for SimpleFIN, dates
/// for LunchFlow.
#[derive(Debug)]
pub struct UnifiedBounds {
    pub start: i64,
    pub end: i64,
    pub lf_from: String,
    pub lf_to: String,
}

/// Bounds at time `now` for a range of timestamps, each end of which may be open.
pub fn unified_bounds(start_ts: Option<i64>, end_ts: Option<i64>, now: i64) -> (r: UnifiedBounds)
    ensures
        r.start == start_ts.unwrap_or(0),
        r.end == end_ts.unwrap_or(now),
        is_bound_date(start_ts, "0000-01-01"@, r.lf_from@),
        is_bound_date(end_ts, "9999-12-31"@, r.lf_to@),
{
    let (start, end) = posted_bounds(start_ts, end_ts, now);
    let (lf_from, lf_to) = date_bounds(start_ts, end_ts);
    UnifiedBounds { start, end, lf_from, lf_to }
}

impl UnifiedTransaction {
    /// Whether either side is pending.
    pub open spec fn pending(self) -> bool {
        ||| self.simplefin matches Some(s) && s.pending
        ||| self.lunchflow matches Some(l) && l.is_pending
    }

    /// Whether either side is pending.
    pub fn is_pending(&self) -> (r: bool)
        ensures
            r == self.pending(),
    {
        let sfin: bool = match &self.simplefin {
            Some(s) => s.pending,
            None => false,
        };
        let lf: bool = match &self.lunchflow {
            Some(l) => l.is_pending,
            None => false,
        };
        sfin || lf
    }
}

/// Whether entry `a` of a list comes before entry `b` once the list is ordered:
/// pending entries first, then later ones, and equal ones as they stood.
pub open spec fn comes_before(list: Seq<UnifiedTransaction>, a: int, b: int) -> bool {
    if list[a].pending() != list[b].pending() {
        list[a].pending()
    } else if list[a].sort_ts != list[b].sort_ts {
        list[a].sort_ts > list[b].sort_ts
    } else {
        a < b
    }
}

/// `order` lists the positions from `lo` up to `hi`, each once, in the order in
/// which the entries at them come.
pub open spec fn is_order(list: Seq<UnifiedTransaction>, lo: int, hi: int, order: Seq<usize>) -> bool {
    &&& order.len() == hi - lo
    &&& forall|i: int| 0 <= i < order.len() ==> lo <= #[trigger] order[i] < hi
    &&& forall|k: usize| lo <= k < hi ==> #[trigger] order.contains(k)
    &&& forall|i: int, j: int|
        0 <= i < j < order.len() ==> comes_before(
            list,
            (#[trigger] order[i]) as int,
            (#[trigger] order[j]) as int,
        )
}

/// `r` is `list` with its entries put in order.
pub open spec fn is_ordered_form(list: Seq<UnifiedTransaction>, r: Seq<UnifiedTransaction>) -> bool {
    exists|order: Seq<usize>| #[trigger]
        is_order(list, 0, list.len() as int, order) && r == Seq::new(
            list.len(),
            |i: int| list[order[i] as int],
        )
}

fn goes_first(list: &Vec<UnifiedTransaction>, a: usize, b: usize) -> (r: bool)
    requires
        a < list@.len(),
        b < list@.len(),
    ensures
        r == comes_before(list@, a as int, b as int),
{
    let pa: bool = list[a].is_pending();
    let pb: bool = list[b].is_pending();
    if pa != pb {
        pa
    } else if list[a].sort_ts != list[b].sort_ts {
        list[a].sort_ts > list[b].sort_ts
    } else {
        a < b
    }
}

fn merge_positions(
    list: &Vec<UnifiedTransaction>,
    left: &Vec<usize>,
    right: &Vec<usize>,
    Ghost(lo): Ghost<int>,
    Ghost(mid): Ghost<int>,
    Ghost(hi): Ghost<int>,
) -> (out: Vec<usize>)
    requires
        0 <= lo <= mid <= hi <= list@.len(),
        is_order(list@, lo, mid, left@),
        is_order(list@, mid, hi, right@),
    ensures
        is_order(list@, lo, hi, out@),
{
    let mut out: Vec<usize> = Vec::new();
    let mut i: usize = 0;
    let mut j: usize = 0;
    while i < left.len() || j < right.len()
        invariant
            0 <= lo <= mid <= hi <= list@.len(),
            is_order(list@, lo, mid, left@),
            is_order(list@, mid, hi, right@),
            i <= left@.len(),
            j <= right@.len(),
            out@.len() == i + j,
            forall|k: int| 0 <= k < out@.len() ==> lo <= #[trigger] out@[k] < hi,
            forall|k: int| 0 <= k < i ==> out@.contains(#[trigger] left@[k]),
            forall|k: int| 0 <= k < j ==> out@.contains(#[trigger] right@[k]),
            forall|k: int, m: int|
                0 <= k < m < out@.len() ==> comes_before(
                    list@,
                    (#[trigger] out@[k]) as int,
                    (#[trigger] out@[m]) as int,
                ),
            forall|k: int, m: int|
                0 <= k < out@.len() && i <= m < left@.len() ==> comes_before(
                    list@,
                    (#[trigger] out@[k]) as int,
                    (#[trigger] left@[m]) as int,
                ),
            forall|k: int, m: int|
                0 <= k < out@.len() && j <= m < right@.len() ==> comes_before(
                    list@,
                    (#[trigger] out@[k]) as int,
                    (#[trigger] right@[m]) as int,
                ),
        decreases left@.len() - i + right@.len() - j,
    {
        let ghost before = out@;
        let from_left: bool = if i >= left.len() {
            false
        } else if j >= right.len() {
            true
        } else {
            goes_first(list, left[i], right[j])
        };
        if from_left {
            let x: usize = left[i];
            out.push(x);
            i = i + 1;
            proof {
                assert(out@[out@.len() - 1] == x);
                if j < right@.len() {
                    assert(comes_before(list@, x as int, right@[j as int] as int));
                }
            }
        } else {
            let x: usize = right[j];
            out.push(x);
            j = j + 1;
            proof {
                assert(out@[out@.len() - 1] == x);
                if i < left@.len() {
                    assert(comes_before(list@, x as int, left@[i as int] as int));
                }
            }
        }
        assert forall|v: usize| before.contains(v) implies out@.contains(v) by {
            let k = choose|k: int| 0 <= k < before.len() && before[k] == v;
            assert(out@[k] == v);
        }
    }
    assert forall|k: usize| lo <= k < hi implies #[trigger] out@.contains(k) by {
        if k < mid {
            assert(left@.contains(k));
        } else {
            assert(right@.contains(k));
        }
    }
    out
}

fn sorted_positions(list: &Vec<UnifiedTransaction>, lo: usize, hi: usize) -> (r: Vec<usize>)
    requires
        lo <= hi <= list@.len(),
    ensures
        is_order(list@, lo as int, hi as int, r@),
    decreases hi - lo,
{
    if hi - lo <= 1 {
        let mut r: Vec<usize> = Vec::new();
        if hi - lo == 1 {
            r.push(lo);
            assert(r@[0] == lo);
        }
        return r;
    }
    let mid: usize = lo + (hi - lo) / 2;
    let left: Vec<usize> = sorted_positions(list, lo, mid);
    let right: Vec<usize> = sorted_positions(list, mid, hi);
    merge_positions(list, &left, &right, Ghost(lo as int), Ghost(mid as int), Ghost(hi as int))
}

/// Puts unified transactions in order: pending first, then latest first, equal
/// ones as they stood.
pub fn order_unified(list: &Vec<UnifiedTransaction>) -> (r: Vec<UnifiedTransaction>)
    ensures
        is_ordered_form(list@, r@),
{
    let order: Vec<usize> = sorted_positions(list, 0, list.len());
    let mut r: Vec<UnifiedTransaction> = Vec::new();
    let mut i: usize = 0;
    while i < order.len()
        invariant
            is_order(list@, 0, list@.len() as int, order@),
            i <= order@.len(),
            r@ == Seq::new(i as nat, |k: int| list@[order@[k] as int]),
        decreases order@.len() - i,
    {
        r.push(list[order[i]].clone());
        i = i + 1;
        assert(r@ =~= Seq::new(i as nat, |k: int| list@[order@[k] as int]));
    }
    r
}

/// Adds the LunchFlow-only transactions to those of a SimpleFIN account, and puts
/// them all in order.
pub fn merge_unified(sfin: Vec<UnifiedTransaction>, lf_only: Vec<UnifiedTransaction>) -> (r: Vec<
    UnifiedTransaction,
>)
    ensures
        is_ordered_form(sfin@ + lf_only@, r@),
{
    let mut all: Vec<UnifiedTransaction> = sfin;
    let mut more: Vec<UnifiedTransaction> = lf_only;
    all.append(&mut more);
    order_unified(&all)
}

/// `list` holds the unified transactions of the given rows, the SimpleFIN ones
/// first.
pub open spec fn is_unified_list(
    sfin: Seq<SfinJoinedRow>,
    lf_only: Seq<LfOnlyRow>,
    list: Seq<UnifiedTransaction>,
) -> bool {
    &&& list.len() == sfin.len() + lf_only.len()
    &&& forall|i: int| 0 <= i < sfin.len() ==> #[trigger] list[i] == unified_sfin(sfin[i])
    &&& forall|i: int|
        0 <= i < lf_only.len() ==> is_unified_lf(
            lf_only[i],
            date_timestamp(lf_only[i].lunchflow.date@),
            #[trigger] list[sfin.len() + i],
        )
}

/// All unified transactions of a SimpleFIN account.
///
/// `sfin_rows` are the account's transactions, joined with reconciliation status
/// and already in order. `lf_only_rows` are the LunchFlow transactions without
/// counterpart, given where a LunchFlow account is matched to this one; with them
/// the list is put in order again, pending first, then latest first.
pub fn get_unified_transactions(
    sfin_rows: Vec<SfinJoinedRow>,
    lf_only_rows: Option<Vec<LfOnlyRow>>,
) -> (r: Vec<UnifiedTransaction>)
    ensures
        match lf_only_rows {
            None => is_unified_list(sfin_rows@, Seq::empty(), r@),
            Some(lf) => exists|list: Seq<UnifiedTransaction>| #[trigger]
                is_unified_list(sfin_rows@, lf@, list) && is_ordered_form(list, r@),
        },
{
    let ghost rows = sfin_rows@;
    let mut sfin: Vec<UnifiedTransaction> = Vec::new();
    for row in it: sfin_rows
        invariant
            it.seq() == rows,
            sfin@.len() == it.index(),
            forall|i: int| 0 <= i < sfin@.len() ==> #[trigger] sfin@[i] == unified_sfin(rows[i]),
    {
        sfin.push(row.into_unified());
    }
    match lf_only_rows {
        None => sfin,
        Some(lf_rows) => {
            let ghost lf = lf_rows@;
            let mut lf_only: Vec<UnifiedTransaction> = Vec::new();
            for row in it: lf_rows
                invariant
                    it.seq() == lf,
                    lf_only@.len() == it.index(),
                    forall|i: int|
                        0 <= i < lf_only@.len() ==> is_unified_lf(
                            lf[i],
                            date_timestamp(lf[i].lunchflow.date@),
                            #[trigger] lf_only@[i],
                        ),
            {
                lf_only.push(row.into_unified());
            }
            let ghost list = sfin@ + lf_only@;
            assert(is_unified_list(rows, lf, list)) by {
                assert forall|i: int| 0 <= i < lf.len() implies is_unified_lf(
                    lf[i],
                    date_timestamp(lf[i].lunchflow.date@),
                    #[trigger] list[rows.len() + i],
                ) by {
                    assert(list[rows.len() + i] == lf_only@[i]);
                }
            }
            merge_unified(sfin, lf_only)
        },
    }
}

/// A list has one ordered form only.
pub proof fn lemma_ordered_form_unique(
    list: Seq<UnifiedTransaction>,
    a: Seq<UnifiedTransaction>,
    b: Seq<UnifiedTransaction>,
)
    requires
        list.len() <= usize::MAX,
        is_ordered_form(list, a),
        is_ordered_form(list, b),
    ensures
        a == b,
{
    let n = list.len() as int;
    let p = choose|order: Seq<usize>| #[trigger]
        is_order(list, 0, n, order) && a == Seq::new(list.len(), |i: int| list[order[i] as int]);
    let q = choose|order: Seq<usize>| #[trigger]
        is_order(list, 0, n, order) && b == Seq::new(list.len(), |i: int| list[order[i] as int]);
    lemma_order_unique(list, p, q, n);
    assert(a =~= b);
}

proof fn lemma_order_unique(list: Seq<UnifiedTransaction>, p: Seq<usize>, q: Seq<usize>, n: int)
    requires
        is_order(list, 0, list.len() as int, p),
        is_order(list, 0, list.len() as int, q),
        0 <= n <= list.len(),
    ensures
        forall|i: int| 0 <= i < n ==> p[i] == q[i],
    decreases n,
{
    if n > 0 {
        lemma_order_unique(list, p, q, n - 1);
        let x = p[n - 1];
        let y = q[n - 1];
        if x != y {
            assert(q.contains(x));
            assert(p.contains(y));
            let i = choose|i: int| 0 <= i < q.len() && q[i] == x;
            let j = choose|j: int| 0 <= j < p.len() && p[j] == y;
            assert(i > n - 1) by {
                if i < n - 1 {
                    assert(p[i] == x);
                    assert(comes_before(list, p[i] as int, p[n - 1] as int));
                }
            }
            assert(j > n - 1) by {
                if j < n - 1 {
                    assert(q[j] == y);
                    assert(comes_before(list, q[j] as int, q[n - 1] as int));
                }
            }
            assert(comes_before(list, q[n - 1] as int, q[i] as int));
            assert(comes_before(list, p[n - 1] as int, p[j] as int));
        }
    }
}

/// Ordering loses and adds nothing, puts pending transactions first, and within
/// each group puts later ones first.
pub proof fn lemma_ordered_form(list: Seq<UnifiedTransaction>, r: Seq<UnifiedTransaction>)
    requires
        list.len() <= usize::MAX,
        is_ordered_form(list, r),
    ensures
        r.len() == list.len(),
        forall|k: int| 0 <= k < list.len() ==> #[trigger] r.contains(list[k]),
        forall|i: int| 0 <= i < r.len() ==> #[trigger] list.contains(r[i]),
        forall|i: int, j: int|
            #![trigger r[i], r[j]]
            0 <= i < j < r.len() ==> {
                &&& r[j].pending() ==> r[i].pending()
                &&& r[i].pending() == r[j].pending() ==> r[i].sort_ts >= r[j].sort_ts
            },
{
    let order = choose|order: Seq<usize>| #[trigger]
        is_order(list, 0, list.len() as int, order) && r == Seq::new(
            list.len(),
            |i: int| list[order[i] as int],
        );
    assert forall|k: int| 0 <= k < list.len() implies #[trigger] r.contains(list[k]) by {
        assert(order.contains(k as usize));
        let i = choose|i: int| 0 <= i < order.len() && order[i] == k as usize;
        assert(r[i] == list[k]);
    }
    assert forall|i: int, j: int|
        #![trigger r[i], r[j]]
        0 <= i < j < r.len() implies {
        &&& r[j].pending() ==> r[i].pending()
        &&& r[i].pending() == r[j].pending() ==> r[i].sort_ts >= r[j].sort_ts
    } by {
        assert(comes_before(list, order[i] as int, order[j] as int));
    }
}

// ---------------------------------------------------------------------------
// User reconciliation rules
// ---------------------------------------------------------------------------

/// What a user's rule asks for.
#[derive(Debug, Clone, Copy, PartialEq, Eq, Structural)]
pub enum UserReconciliationAction {
    Match,
    Exclude,
}

impl UserReconciliationAction {
    /// The name under which an action is stored.
    pub open spec fn name(self) -> Seq<char> {
        match self {
            UserReconciliationAction::Match => "match"@,
            UserReconciliationAction::Exclude => "exclude"@,
        }
    }

    /// The name under which this action is stored.
    pub fn as_str(&self) -> (r: &'static str)
        ensures
            r@ == self.name(),
    {
        match self {
            UserReconciliationAction::Match => "match",
            UserReconciliationAction::Exclude => "exclude",
        }
    }

    /// Reads the name of an action.
    pub fn from_str(s: &str) -> (r: Result<Self, ()>)
        ensures
            r == action_named(s@),
    {
        if same_text(s, "match") {
            Ok(UserReconciliationAction::Match)
        } else if same_text(s, "exclude") {
            Ok(UserReconciliationAction::Exclude)
        } else {
            Err(())
        }
    }
}

/// The action of the given name.
pub open spec fn action_named(s: Seq<char>) -> Result<UserReconciliationAction, ()> {
    if s == "match"@ {
        Ok(UserReconciliationAction::Match)
    } else if s == "exclude"@ {
        Ok(UserReconciliationAction::Exclude)
    } else {
        Err(())
    }
}

/// The name of an action reads back as that action.
pub proof fn lemma_action_read_back(action: UserReconciliationAction)
    ensures
        action_named(action.name()) == Ok::<UserReconciliationAction, ()>(action),
{
    reveal_strlit("match");
    reveal_strlit("exclude");
    assert("match"@.len() != "exclude"@.len());
}

/// A user's rule on the matching of accounts.
#[derive(Debug)]
pub struct UserAccountRule {
    pub id: i64,
    pub sfin_account_id: Option<String>,
    pub lf_account_id: Option<i64>,
    pub action: UserReconciliationAction,
    pub created_at: i64,
}

/// A stored rule.
#[derive(Debug)]
pub struct RuleRow {
    pub id: i64,
    pub sfin_account_id: Option<String>,
    pub lf_account_id: Option<i64>,
    pub action: String,
    pub created_at: i64,
}

/// The rules of those among the first `n` rows whose action has a known name.
pub open spec fn rules_of(rows: Seq<RuleRow>, n: int) -> Seq<UserAccountRule>
    decreases n,
{
    if n <= 0 {
        Seq::empty()
    } else {
        let row = rows[n - 1];
        match action_named(row.action@) {
            Ok(action) => rules_of(rows, n - 1).push(
                UserAccountRule {
                    id: row.id,
                    sfin_account_id: row.sfin_account_id,
                    lf_account_id: row.lf_account_id,
                    action,
                    created_at: row.created_at,
                },
            ),
            Err(_) => rules_of(rows, n - 1),
        }
    }
}

/// The rules of stored rows; rows with an unknown action are left out.
pub fn get_user_account_rules(rows: Vec<RuleRow>) -> (r: Vec<UserAccountRule>)
    ensures
        r@ == rules_of(rows@, rows@.len() as int),
{
    let ghost all = rows@;
    let mut r: Vec<UserAccountRule> = Vec::new();
    for row in it: rows
        invariant
            it.seq() == all,
            r@ == rules_of(all, it.index() as int),
    {
        match UserReconciliationAction::from_str(row.action.as_str()) {
            Ok(action) => r.push(
                UserAccountRule {
                    id: row.id,
                    sfin_account_id: row.sfin_account_id,
                    lf_account_id: row.lf_account_id,
                    action,
                    created_at: row.created_at,
                },
            ),
            Err(_) => {},
        }
    }
    r
}

/// A reconciled account pair with its names, for the management interface.
#[derive(Debug)]
pub struct AccountMatchRow {
    pub id: i64,
    pub status: String,
    pub match_confidence: Option<Double>,
    pub sfin_account_id: Option<String>,
    pub sfin_name: Option<String>,
    pub lf_account_id: Option<i64>,
    pub lf_name: Option<String>,
    /// `"simplefin"` (default) or `"lunchflow"`. Only meaningful for matched rows.
    pub preferred_name_source: String,
}

/// A row that reconciliation joined keeps its status, confidence, record id and both
/// sides, and is placed by the time it was posted.
pub proof fn lemma_joined_row_kept(row: SfinJoinedRow)
    ensures
        ({
            let u = unified_sfin(row);
            &&& u.status@ == row.recon_status@
            &&& u.match_confidence == row.match_confidence
            &&& u.rec_id == row.rec_id
            &&& u.sort_ts == row.posted
            &&& u.simplefin matches Some(s) && s.id@ == row.id@ && s.posted == row.posted
                && s.amount == row.amount && s.description@ == row.description@ && s.payee
                == row.payee && s.memo == row.memo && (s.pending <==> row.pending != 0)
            &&& u.lunchflow is Some <==> row.lunchflow is Some
            &&& row.lunchflow matches Some(c) ==> {
                let l = u.lunchflow->0;
                &&& l.id@ == c.id@ && l.amount == c.amount && l.currency@ == c.currency@
                &&& l.date@ == c.date@ && l.merchant == c.merchant && l.description
                    == c.description && (l.is_pending <==> c.is_pending != 0)
            }
        }),
{
}

/// A LunchFlow row without counterpart keeps its confidence, record id and columns, has
/// no SimpleFIN side, and is placed by midnight of its date, or by the epoch where that
/// is no date.
pub proof fn lemma_lf_only_row_kept(row: LfOnlyRow, u: UnifiedTransaction)
    requires
        is_unified_lf(row, date_timestamp(row.lunchflow.date@), u),
    ensures
        u.status@ == "lf_only"@,
        u.match_confidence == row.match_confidence,
        u.rec_id == row.rec_id,
        u.simplefin is None,
        parsed_date(row.lunchflow.date@) matches Some(ts) ==> u.sort_ts == ts,
        parsed_date(row.lunchflow.date@) is None ==> u.sort_ts == 0,
        u.lunchflow matches Some(l) && l.id@ == row.lunchflow.id@ && l.amount
            == row.lunchflow.amount && l.currency@ == row.lunchflow.currency@ && l.date@
            == row.lunchflow.date@ && l.merchant == row.lunchflow.merchant && l.description
            == row.lunchflow.description && (l.is_pending <==> row.lunchflow.is_pending != 0),
{
}

/// An ordered list has those with a pending side first, and later ones before earlier
/// ones; two that are alike in both stand as they stood.
pub proof fn lemma_ordered_by_time(
    list: Seq<UnifiedTransaction>,
    order: Seq<usize>,
    i: int,
    j: int,
)
    requires
        is_order(list, 0, list.len() as int, order),
        0 <= i < j < order.len(),
    ensures
        ({
            let a = list[order[i] as int];
            let b = list[order[j] as int];
            let pa = (a.simplefin is Some && a.simplefin->0.pending) || (a.lunchflow is Some
                && a.lunchflow->0.is_pending);
            let pb = (b.simplefin is Some && b.simplefin->0.pending) || (b.lunchflow is Some
                && b.lunchflow->0.is_pending);
            &&& pb ==> pa
            &&& pa == pb ==> a.sort_ts >= b.sort_ts
            &&& pa == pb && a.sort_ts == b.sort_ts ==> order[i] < order[j]
        }),
{
    assert(comes_before(list, order[i] as int, order[j] as int));
}

/// The rules that are read are those of the rows with a known action, in their order and
/// with what the rows hold.
pub proof fn lemma_rules_read(rows: Seq<RuleRow>, n: int, k: int) -> (i: int)
    requires
        0 <= k < n <= rows.len(),
        rows[k].action@ == "match"@ || rows[k].action@ == "exclude"@,
    ensures
        0 <= i < rules_of(rows, n).len(),
        i == rules_of(rows, k).len(),
        ({
            let rule = rules_of(rows, n)[i];
            &&& rule.id == rows[k].id
            &&& rule.sfin_account_id == rows[k].sfin_account_id
            &&& rule.lf_account_id == rows[k].lf_account_id
            &&& rule.created_at == rows[k].created_at
            &&& rows[k].action@ == "match"@ ==> rule.action == UserReconciliationAction::Match
            &&& rows[k].action@ == "exclude"@ ==> rule.action == UserReconciliationAction::Exclude
        }),
    decreases n,
{
    reveal_strlit("match");
    reveal_strlit("exclude");
    assert("match"@.len() != "exclude"@.len());
    if k == n - 1 {
        rules_of(rows, k).len() as int
    } else {
        lemma_rules_read(rows, n - 1, k)
    }
}

/// A row with an unknown action gives no rule.
pub proof fn lemma_unknown_action_skipped(rows: Seq<RuleRow>, n: int)
    requires
        0 < n <= rows.len(),
        rows[n - 1].action@ != "match"@,
        rows[n - 1].action@ != "exclude"@,
    ensures
        rules_of(rows, n) == rules_of(rows, n - 1),
{
}

/// The range that a request asks for: its own ends where it gives them, else everything up
/// to the present.
pub proof fn lemma_range_asked_for(
    start: Option<i64>,
    end: Option<i64>,
    now: i64,
    r: UnifiedBounds,
    p: (i64, i64),
)
    requires
        call_ensures(unified_bounds, (start, end, now), r),
        call_ensures(posted_bounds, (start, end, now), p),
    ensures
        r.start == p.0 && r.end == p.1,
        start matches Some(ts) ==> p.0 == ts,
        start is None ==> p.0 == 0 && r.lf_from@ == "0000-01-01"@,
        end matches Some(ts) ==> p.1 == ts,
        end is None ==> p.1 == now && r.lf_to@ == "9999-12-31"@,
        start matches Some(ts) ==> in_calendar(ts as int) ==> is_date_of(ts as int, r.lf_from@),
        end matches Some(ts) ==> in_calendar(ts as int) ==> is_date_of(ts as int, r.lf_to@),
{
}

/// Without a matched LunchFlow account, the list is that of the rows, one for one and in
/// their order.
pub proof fn lemma_rows_kept_in_order(
    rows: Vec<SfinJoinedRow>,
    r: Vec<UnifiedTransaction>,
    i: int,
)
    requires
        call_ensures(get_unified_transactions, (rows, None::<Vec<LfOnlyRow>>), r),
        0 <= i < rows@.len(),
    ensures
        r@.len() == rows@.len(),
        r@[i].rec_id == rows@[i].rec_id,
        r@[i].status@ == rows@[i].recon_status@,
        r@[i].simplefin is Some && r@[i].simplefin->0.id@ == rows@[i].id@,
{
    assert(r@[i] == unified_sfin(rows@[i]));
}

} // verus!
