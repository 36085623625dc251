//! Account matching: pairs SimpleFIN accounts with LunchFlow accounts.
//!
//! A user's rules come first. Every remaining LunchFlow account then takes the
//! best scoring SimpleFIN account that is still free and not excluded, provided
//! the score reaches the match threshold.
use crate::double::{rounded_product, rounded_sum, Double, ONE_BITS};
use crate::reconciler::db::{UserAccountRule, UserReconciliationAction};
use crate::reconciler::scoring::{account_score, combined_score, currencies_differ, dbl, lemma_currency_mismatch_disqualifies, name_score, name_similarity, recent_score, score_accounts_by_transactions, text_similarity, LfRecent, SfinRecent, MATCH_THRESHOLD};
use crate::text::{chars, lowercase};
use vstd::prelude::*;

verus! {

/// A SimpleFIN account with its recent transactions, newest first.
#[derive(Debug)]
pub struct SfinAccount {
    pub id: String,
    pub name: String,
    pub currency: Option<String>,
    pub recent: Vec<SfinRecent>,
}

/// A LunchFlow account with its recent transactions, newest first.
#[derive(Debug)]
pub struct LfAccount {
    pub id: i64,
    pub name: String,
    pub currency: Option<String>,
    pub recent: Vec<LfRecent>,
}

/// Outcome of reconciliation for one record or one pair of records.
#[derive(Debug, Clone, Copy, PartialEq, Eq, Structural)]
pub enum MatchStatus {
    Matched,
    SfinOnly,
    LfOnly,
}

impl MatchStatus {
    /// The name under which a status is stored.
    pub open spec fn name(self) -> Seq<char> {
        match self {
            MatchStatus::Matched => "matched"@,
            MatchStatus::SfinOnly => "sfin_only"@,
            MatchStatus::LfOnly => "lf_only"@,
        }
    }

    /// The name under which this status is stored.
    pub fn as_str(&self) -> (r: &'static str)
        ensures
            r@ == self.name(),
    {
        match self {
            MatchStatus::Matched => "matched",
            MatchStatus::SfinOnly => "sfin_only",
            MatchStatus::LfOnly => "lf_only",
        }
    }
}

/// What account reconciliation records of an account or a pair of accounts.
#[derive(Debug)]
pub struct ReconciledAccount {
    pub sfin_account_id: Option<String>,
    pub lf_account_id: Option<i64>,
    pub confidence: Double,
    pub status: MatchStatus,
}

/// The content of a reconciled account.
pub struct AccountLink {
    pub sfin: Option<Seq<char>>,
    pub lf: Option<i64>,
    pub confidence: Double,
    pub status: MatchStatus,
}

impl View for ReconciledAccount {
    type V = AccountLink;

    open spec fn view(&self) -> AccountLink {
        AccountLink {
            sfin: chars(self.sfin_account_id),
            lf: self.lf_account_id,
            confidence: self.confidence,
            status: self.status,
        }
    }
}

/// The contents of a list of reconciled accounts.
pub open spec fn links_of(rows: Seq<ReconciledAccount>) -> Seq<AccountLink> {
    Seq::new(rows.len(), |i: int| rows[i]@)
}

// ---------------------------------------------------------------------------
// Rules
// ---------------------------------------------------------------------------

/// Whether a rule has the given action on exactly the given accounts.
pub open spec fn rules_on(
    rule: UserAccountRule,
    action: UserReconciliationAction,
    sfin: Option<Seq<char>>,
    lf: Option<i64>,
) -> bool {
    rule.action == action && chars(rule.sfin_account_id) == sfin && rule.lf_account_id == lf
}

/// Whether a rule keeps a SimpleFIN account standalone.
pub open spec fn excludes_sfin(rules: Seq<UserAccountRule>, sfin: Seq<char>) -> bool {
    exists|i: int|
        0 <= i < rules.len() && rules_on(
            #[trigger] rules[i],
            UserReconciliationAction::Exclude,
            Some(sfin),
            None,
        )
}

/// Whether a rule keeps a LunchFlow account standalone.
pub open spec fn excludes_lf(rules: Seq<UserAccountRule>, lf: i64) -> bool {
    exists|i: int|
        0 <= i < rules.len() && rules_on(
            #[trigger] rules[i],
            UserReconciliationAction::Exclude,
            None,
            Some(lf),
        )
}

/// Whether a rule keeps a pair of accounts apart.
pub open spec fn excludes_pair(rules: Seq<UserAccountRule>, sfin: Seq<char>, lf: i64) -> bool {
    exists|i: int|
        0 <= i < rules.len() && rules_on(
            #[trigger] rules[i],
            UserReconciliationAction::Exclude,
            Some(sfin),
            Some(lf),
        )
}

/// Whether a rule matches a SimpleFIN account with some LunchFlow account.
pub open spec fn matches_sfin(rule: UserAccountRule, sfin: Seq<char>) -> bool {
    &&& rule.action == UserReconciliationAction::Match
    &&& chars(rule.sfin_account_id) == Some(sfin)
    &&& rule.lf_account_id is Some
}

/// Whether rule `i` matches a pair of accounts and no later rule matches the same
/// SimpleFIN account.
pub open spec fn is_effective(rules: Seq<UserAccountRule>, i: int) -> bool {
    &&& rules[i].sfin_account_id matches Some(sfin)
    &&& matches_sfin(rules[i], sfin@)
    &&& forall|j: int| i < j < rules.len() ==> !matches_sfin(#[trigger] rules[j], sfin@)
}

fn has_rule(
    rules: &Vec<UserAccountRule>,
    action: UserReconciliationAction,
    sfin: Option<&String>,
    lf: Option<i64>,
) -> (r: bool)
    ensures
        r == exists|i: int|
            0 <= i < rules@.len() && rules_on(
                #[trigger] rules@[i],
                action,
                match sfin {
                    Some(t) => Some(t@),
                    None => None,
                },
                lf,
            ),
{
    let mut i: usize = 0;
    while i < rules.len()
        invariant
            i <= rules@.len(),
            forall|j: int|
                0 <= j < i ==> !rules_on(
                    #[trigger] rules@[j],
                    action,
                    match sfin {
                        Some(t) => Some(t@),
                        None => None,
                    },
                    lf,
                ),
        decreases rules@.len() - i,
    {
        let same_sfin: bool = match (&rules[i].sfin_account_id, sfin) {
            (Some(a), Some(b)) => *a == *b,
            (None, None) => true,
            _ => false,
        };
        let same_lf: bool = match (rules[i].lf_account_id, lf) {
            (Some(a), Some(b)) => a == b,
            (None, None) => true,
            _ => false,
        };
        if rules[i].action == action && same_sfin && same_lf {
            assert(rules_on(
                rules@[i as int],
                action,
                match sfin {
                    Some(t) => Some(t@),
                    None => None,
                },
                lf,
            ));
            return true;
        }
        i = i + 1;
    }
    false
}

fn rule_in_effect(rules: &Vec<UserAccountRule>, i: usize) -> (r: bool)
    requires
        i < rules@.len(),
    ensures
        r == is_effective(rules@, i as int),
{
    if rules[i].action != UserReconciliationAction::Match || rules[i].lf_account_id.is_none() {
        return false;
    }
    match &rules[i].sfin_account_id {
        None => false,
        Some(sfin) => {
            let total: usize = rules.len();
            let mut j: usize = i + 1;
            while j < total
                invariant
                    total == rules@.len(),
                    i < j <= total,
                    rules@[i as int].sfin_account_id == Some(*sfin),
                    forall|k: int| i < k < j ==> !matches_sfin(#[trigger] rules@[k], sfin@),
                decreases total - j,
            {
                let same: bool = match &rules[j].sfin_account_id {
                    Some(other) => *other == *sfin,
                    None => false,
                };
                if rules[j].action == UserReconciliationAction::Match && same
                    && rules[j].lf_account_id.is_some() {
                    assert(matches_sfin(rules@[j as int], sfin@));
                    return false;
                }
                j = j + 1;
            }
            true
        },
    }
}

// ---------------------------------------------------------------------------
// Matching
// ---------------------------------------------------------------------------

/// A match of two accounts.
pub open spec fn matched_link(sfin: Seq<char>, lf: i64, confidence: Double) -> AccountLink {
    AccountLink { sfin: Some(sfin), lf: Some(lf), confidence, status: MatchStatus::Matched }
}

/// A LunchFlow account that stands alone.
pub open spec fn lf_only_link(lf: i64) -> AccountLink {
    AccountLink { sfin: None, lf: Some(lf), confidence: dbl(0), status: MatchStatus::LfOnly }
}

/// A SimpleFIN account that stands alone.
pub open spec fn sfin_only_link(sfin: Seq<char>) -> AccountLink {
    AccountLink { sfin: Some(sfin), lf: None, confidence: dbl(0), status: MatchStatus::SfinOnly }
}

/// Whether a link matches the given SimpleFIN account.
pub open spec fn takes_sfin(link: AccountLink, sfin: Seq<char>) -> bool {
    link.status == MatchStatus::Matched && link.sfin == Some(sfin)
}

/// Whether a link matches the given LunchFlow account.
pub open spec fn takes_lf(link: AccountLink, lf: i64) -> bool {
    link.status == MatchStatus::Matched && link.lf == Some(lf)
}

/// Whether a SimpleFIN account is matched already.
pub open spec fn sfin_taken(links: Seq<AccountLink>, sfin: Seq<char>) -> bool {
    exists|i: int| 0 <= i < links.len() && takes_sfin(#[trigger] links[i], sfin)
}

/// Whether a LunchFlow account is matched already.
pub open spec fn lf_taken(links: Seq<AccountLink>, lf: i64) -> bool {
    exists|i: int| 0 <= i < links.len() && takes_lf(#[trigger] links[i], lf)
}

/// The matches that the first `n` rules ask for, between accounts that exist.
pub open spec fn forced_links(
    rules: Seq<UserAccountRule>,
    sfin: Seq<Seq<char>>,
    lf: Seq<i64>,
    n: int,
) -> Seq<AccountLink>
    decreases n,
{
    if n <= 0 {
        Seq::empty()
    } else {
        let before = forced_links(rules, sfin, lf, n - 1);
        if is_effective(rules, n - 1) && sfin.contains(rules[n - 1].sfin_account_id->0@)
            && lf.contains(rules[n - 1].lf_account_id->0) {
            before.push(
                matched_link(
                    rules[n - 1].sfin_account_id->0@,
                    rules[n - 1].lf_account_id->0,
                    dbl(ONE_BITS),
                ),
            )
        } else {
            before
        }
    }
}

/// Whether a SimpleFIN account may be matched with a LunchFlow account: it is
/// still free, and no rule keeps it standalone or keeps the pair apart.
pub open spec fn is_candidate(
    rules: Seq<UserAccountRule>,
    links: Seq<AccountLink>,
    sfin: Seq<char>,
    lf: i64,
) -> bool {
    !sfin_taken(links, sfin) && !excludes_sfin(rules, sfin) && !excludes_pair(rules, sfin, lf)
}

/// Among the first `n` SimpleFIN accounts, the candidate of the highest score
/// above zero, the first such one where scores are equal.
pub open spec fn best_candidate(
    rules: Seq<UserAccountRule>,
    links: Seq<AccountLink>,
    sfin: Seq<Seq<char>>,
    lf: i64,
    scores: Seq<Double>,
    n: int,
) -> Option<int>
    decreases n,
{
    if n <= 0 {
        None
    } else {
        let best = best_candidate(rules, links, sfin, lf, scores, n - 1);
        let to_beat = match best {
            Some(k) => scores[k].bits,
            None => 0,
        };
        if is_candidate(rules, links, sfin[n - 1], lf) && scores[n - 1].bits > to_beat {
            Some(n - 1)
        } else {
            best
        }
    }
}

/// The link of a LunchFlow account that no rule matched.
pub open spec fn lf_link(
    rules: Seq<UserAccountRule>,
    links: Seq<AccountLink>,
    sfin: Seq<Seq<char>>,
    lf: i64,
    scores: Seq<Double>,
) -> AccountLink {
    if excludes_lf(rules, lf) {
        lf_only_link(lf)
    } else {
        match best_candidate(rules, links, sfin, lf, scores, sfin.len() as int) {
            Some(k) => if scores[k].bits >= MATCH_THRESHOLD {
                matched_link(sfin[k], lf, scores[k])
            } else {
                lf_only_link(lf)
            },
            None => lf_only_link(lf),
        }
    }
}

/// The links after the rules and the first `n` LunchFlow accounts; `scores[l][s]`
/// is the score of LunchFlow account `l` with SimpleFIN account `s`.
pub open spec fn links_after(
    rules: Seq<UserAccountRule>,
    sfin: Seq<Seq<char>>,
    lf: Seq<i64>,
    scores: Seq<Seq<Double>>,
    n: int,
) -> Seq<AccountLink>
    decreases n,
{
    if n <= 0 {
        forced_links(rules, sfin, lf, rules.len() as int)
    } else {
        let links = links_after(rules, sfin, lf, scores, n - 1);
        if lf_taken(links, lf[n - 1]) {
            links
        } else {
            links.push(lf_link(rules, links, sfin, lf[n - 1], scores[n - 1]))
        }
    }
}

/// `links`, followed by those of the first `n` SimpleFIN accounts that are free.
pub open spec fn with_free_sfin(links: Seq<AccountLink>, sfin: Seq<Seq<char>>, n: int) -> Seq<
    AccountLink,
>
    decreases n,
{
    if n <= 0 {
        links
    } else {
        let before = with_free_sfin(links, sfin, n - 1);
        if sfin_taken(links, sfin[n - 1]) {
            before
        } else {
            before.push(sfin_only_link(sfin[n - 1]))
        }
    }
}

/// All links of a reconciliation run: the matches that rules ask for, then a link
/// for each LunchFlow account left, then one for each SimpleFIN account left.
pub open spec fn account_links(
    rules: Seq<UserAccountRule>,
    sfin: Seq<Seq<char>>,
    lf: Seq<i64>,
    scores: Seq<Seq<Double>>,
) -> Seq<AccountLink> {
    with_free_sfin(
        links_after(rules, sfin, lf, scores, lf.len() as int),
        sfin,
        sfin.len() as int,
    )
}

/// The characters of each text.
pub open spec fn texts(list: Seq<String>) -> Seq<Seq<char>> {
    Seq::new(list.len(), |i: int| list[i]@)
}

/// The rows of a table.
pub open spec fn table(rows: Seq<Vec<Double>>) -> Seq<Seq<Double>> {
    Seq::new(rows.len(), |i: int| rows[i]@)
}

fn is_sfin_taken(rows: &Vec<ReconciledAccount>, upto: usize, sfin: &String) -> (r: bool)
    requires
        upto <= rows@.len(),
    ensures
        r == sfin_taken(links_of(rows@).take(upto as int), sfin@),
{
    let ghost links = links_of(rows@).take(upto as int);
    let mut i: usize = 0;
    while i < upto
        invariant
            upto <= rows@.len(),
            links == links_of(rows@).take(upto as int),
            i <= upto,
            forall|j: int| 0 <= j < i ==> !takes_sfin(#[trigger] links[j], sfin@),
        decreases upto - i,
    {
        assert(links[i as int] == rows@[i as int]@);
        let same: bool = match &rows[i].sfin_account_id {
            Some(id) => *id == *sfin,
            None => false,
        };
        if rows[i].status == MatchStatus::Matched && same {
            assert(takes_sfin(links[i as int], sfin@));
            return true;
        }
        i = i + 1;
    }
    false
}

fn is_lf_taken(rows: &Vec<ReconciledAccount>, lf: i64) -> (r: bool)
    ensures
        r == lf_taken(links_of(rows@), lf),
{
    let ghost links = links_of(rows@);
    let mut i: usize = 0;
    while i < rows.len()
        invariant
            links == links_of(rows@),
            i <= rows@.len(),
            forall|j: int| 0 <= j < i ==> !takes_lf(#[trigger] links[j], lf),
        decreases rows@.len() - i,
    {
        assert(links[i as int] == rows@[i as int]@);
        let same: bool = match rows[i].lf_account_id {
            Some(id) => id == lf,
            None => false,
        };
        if rows[i].status == MatchStatus::Matched && same {
            assert(takes_lf(links[i as int], lf));
            return true;
        }
        i = i + 1;
    }
    false
}

fn has_text(list: &Vec<String>, t: &String) -> (r: bool)
    ensures
        r == texts(list@).contains(t@),
{
    let mut i: usize = 0;
    while i < list.len()
        invariant
            i <= list@.len(),
            forall|j: int| 0 <= j < i ==> (#[trigger] texts(list@)[j]) != t@,
        decreases list@.len() - i,
    {
        if list[i] == *t {
            assert(texts(list@)[i as int] == t@);
            return true;
        }
        i = i + 1;
    }
    false
}

fn has_id(list: &Vec<i64>, id: i64) -> (r: bool)
    ensures
        r == list@.contains(id),
{
    let mut i: usize = 0;
    while i < list.len()
        invariant
            i <= list@.len(),
            forall|j: int| 0 <= j < i ==> list@[j] != id,
        decreases list@.len() - i,
    {
        if list[i] == id {
            assert(list@[i as int] == id);
            return true;
        }
        i = i + 1;
    }
    false
}

fn apply_rules(rules: &Vec<UserAccountRule>, sfin_ids: &Vec<String>, lf_ids: &Vec<i64>) -> (r: Vec<
    ReconciledAccount,
>)
    ensures
        links_of(r@) == forced_links(rules@, texts(sfin_ids@), lf_ids@, rules@.len() as int),
{
    let mut r: Vec<ReconciledAccount> = Vec::new();
    let mut i: usize = 0;
    assert(links_of(r@) =~= Seq::empty());
    while i < rules.len()
        invariant
            i <= rules@.len(),
            links_of(r@) == forced_links(rules@, texts(sfin_ids@), lf_ids@, i as int),
        decreases rules@.len() - i,
    {
        let ghost before = r@;
        if rule_in_effect(rules, i) {
            match (&rules[i].sfin_account_id, rules[i].lf_account_id) {
                (Some(sfin), Some(lf)) => {
                    if has_text(sfin_ids, sfin) && has_id(lf_ids, lf) {
                        r.push(
                            ReconciledAccount {
                                sfin_account_id: Some(sfin.clone()),
                                lf_account_id: Some(lf),
                                confidence: Double::from_bits(ONE_BITS),
                                status: MatchStatus::Matched,
                            },
                        );
                        assert(links_of(r@) =~= links_of(before).push(
                            matched_link(sfin@, lf, dbl(ONE_BITS)),
                        ));
                    }
                },
                _ => {},
            }
        }
        i = i + 1;
    }
    r
}

fn find_best(
    rules: &Vec<UserAccountRule>,
    rows: &Vec<ReconciledAccount>,
    sfin_ids: &Vec<String>,
    lf: i64,
    scores: &Vec<Double>,
) -> (r: Option<usize>)
    requires
        scores@.len() == sfin_ids@.len(),
    ensures
        match r {
            Some(k) => k < sfin_ids@.len() && best_candidate(
                rules@,
                links_of(rows@),
                texts(sfin_ids@),
                lf,
                scores@,
                sfin_ids@.len() as int,
            ) == Some(k as int),
            None => best_candidate(
                rules@,
                links_of(rows@),
                texts(sfin_ids@),
                lf,
                scores@,
                sfin_ids@.len() as int,
            ) is None,
        },
{
    let ghost links = links_of(rows@);
    assert(links.take(rows@.len() as int) =~= links);
    let mut best: Option<usize> = None;
    let mut best_score: u64 = 0;
    let mut i: usize = 0;
    while i < sfin_ids.len()
        invariant
            links == links_of(rows@),
            links.take(rows@.len() as int) == links,
            scores@.len() == sfin_ids@.len(),
            i <= sfin_ids@.len(),
            match best {
                Some(k) => k < i && best_candidate(
                    rules@,
                    links,
                    texts(sfin_ids@),
                    lf,
                    scores@,
                    i as int,
                ) == Some(k as int) && best_score == scores@[k as int].bits,
                None => best_candidate(rules@, links, texts(sfin_ids@), lf, scores@, i as int) is None
                    && best_score == 0,
            },
        decreases sfin_ids@.len() - i,
    {
        let sfin: &String = &sfin_ids[i];
        assert(texts(sfin_ids@)[i as int] == sfin@);
        if !is_sfin_taken(rows, rows.len(), sfin) && !has_rule(
            rules,
            UserReconciliationAction::Exclude,
            Some(sfin),
            None,
        ) && !has_rule(rules, UserReconciliationAction::Exclude, Some(sfin), Some(lf))
            && scores[i].bits > best_score {
            best = Some(i);
            best_score = scores[i].bits;
        }
        i = i + 1;
    }
    best
}

/// Matches accounts, given the score of every pair: `scores[l][s]` is the score
/// of LunchFlow account `l` with SimpleFIN account `s`.
pub fn match_accounts(
    rules: &Vec<UserAccountRule>,
    sfin_ids: &Vec<String>,
    lf_ids: &Vec<i64>,
    scores: &Vec<Vec<Double>>,
) -> (r: Vec<ReconciledAccount>)
    requires
        scores@.len() == lf_ids@.len(),
        forall|l: int| 0 <= l < scores@.len() ==> (#[trigger] scores@[l])@.len() == sfin_ids@.len(),
        forall|l: int, s: int|
            0 <= l < scores@.len() && 0 <= s < sfin_ids@.len() ==> (#[trigger] scores@[l]@[s]).bits
                <= ONE_BITS,
    ensures
        links_of(r@) == account_links(rules@, texts(sfin_ids@), lf_ids@, table(scores@)),
{
    let ghost sfin = texts(sfin_ids@);
    let ghost lf = lf_ids@;
    let ghost grid = table(scores@);
    let mut r: Vec<ReconciledAccount> = apply_rules(rules, sfin_ids, lf_ids);
    let mut l: usize = 0;
    while l < lf_ids.len()
        invariant
            sfin == texts(sfin_ids@),
            lf == lf_ids@,
            grid == table(scores@),
            scores@.len() == lf_ids@.len(),
            forall|l: int|
                0 <= l < scores@.len() ==> (#[trigger] scores@[l])@.len() == sfin_ids@.len(),
            l <= lf_ids@.len(),
            links_of(r@) == links_after(rules@, sfin, lf, grid, l as int),
        decreases lf_ids@.len() - l,
    {
        let id: i64 = lf_ids[l];
        let ghost before = links_of(r@);
        if !is_lf_taken(&r, id) {
            assert(grid[l as int] == scores@[l as int]@);
            let chosen: Option<usize> = if has_rule(
                rules,
                UserReconciliationAction::Exclude,
                None,
                Some(id),
            ) {
                None
            } else {
                match find_best(rules, &r, sfin_ids, id, &scores[l]) {
                    Some(k) => if scores[l][k].bits >= MATCH_THRESHOLD {
                        Some(k)
                    } else {
                        None
                    },
                    None => None,
                }
            };
            match chosen {
                Some(k) => {
                    r.push(
                        ReconciledAccount {
                            sfin_account_id: Some(sfin_ids[k].clone()),
                            lf_account_id: Some(id),
                            confidence: scores[l][k],
                            status: MatchStatus::Matched,
                        },
                    );
                },
                None => {
                    r.push(
                        ReconciledAccount {
                            sfin_account_id: None,
                            lf_account_id: Some(id),
                            confidence: Double::zero(),
                            status: MatchStatus::LfOnly,
                        },
                    );
                },
            }
            assert(links_of(r@) =~= before.push(
                lf_link(rules@, before, sfin, id, grid[l as int]),
            ));
        }
        l = l + 1;
    }
    let ghost links = links_of(r@);
    let matched: usize = r.len();
    let mut s: usize = 0;
    assert(links_of(r@).take(matched as int) =~= links);
    while s < sfin_ids.len()
        invariant
            sfin == texts(sfin_ids@),
            s <= sfin_ids@.len(),
            matched <= r@.len(),
            links_of(r@).take(matched as int) == links,
            links_of(r@) == with_free_sfin(links, sfin, s as int),
        decreases sfin_ids@.len() - s,
    {
        assert(sfin[s as int] == sfin_ids@[s as int]@);
        if !is_sfin_taken(&r, matched, &sfin_ids[s]) {
            let ghost before = links_of(r@);
            r.push(
                ReconciledAccount {
                    sfin_account_id: Some(sfin_ids[s].clone()),
                    lf_account_id: None,
                    confidence: Double::zero(),
                    status: MatchStatus::SfinOnly,
                },
            );
            assert(links_of(r@) =~= before.push(sfin_only_link(sfin[s as int])));
            assert(links_of(r@).take(matched as int) =~= before.take(matched as int));
        }
        s = s + 1;
    }
    r
}

/// The score of a pair of accounts.
pub open spec fn pair_score(s: SfinAccount, l: LfAccount) -> Double {
    combined_score(
        recent_score(s.recent@, l.recent@, s.currency, l.currency),
        name_score(s.name@, l.name@),
    )
}

/// The ids of SimpleFIN accounts.
pub open spec fn sfin_ids(sfin: Seq<SfinAccount>) -> Seq<Seq<char>> {
    Seq::new(sfin.len(), |i: int| sfin[i].id@)
}

/// The ids of LunchFlow accounts.
pub open spec fn lf_ids(lf: Seq<LfAccount>) -> Seq<i64> {
    Seq::new(lf.len(), |i: int| lf[i].id)
}

/// The score of every pair of accounts.
pub open spec fn pair_scores(sfin: Seq<SfinAccount>, lf: Seq<LfAccount>) -> Seq<Seq<Double>> {
    Seq::new(lf.len(), |l: int| Seq::new(sfin.len(), |s: int| pair_score(sfin[s], lf[l])))
}

/// Matches the SimpleFIN accounts with the LunchFlow accounts under the user's
/// rules. Every account occurs in the result, alone or in a match. Accounts in
/// different currencies score below the match threshold.
pub fn reconcile_accounts(
    rules: &Vec<UserAccountRule>,
    sfin: &Vec<SfinAccount>,
    lf: &Vec<LfAccount>,
) -> (r: Vec<ReconciledAccount>)
    ensures
        links_of(r@) == account_links(rules@, sfin_ids(sfin@), lf_ids(lf@), pair_scores(sfin@, lf@)),
        forall|l: int, s: int|
            0 <= l < lf@.len() && 0 <= s < sfin@.len() && currencies_differ(
                sfin@[s].currency,
                lf@[l].currency,
            ) ==> (#[trigger] pair_scores(sfin@, lf@)[l][s]).bits < MATCH_THRESHOLD,
{
    let mut ids: Vec<String> = Vec::new();
    let mut i: usize = 0;
    while i < sfin.len()
        invariant
            i <= sfin@.len(),
            ids@.len() == i,
            forall|k: int| 0 <= k < i ==> (#[trigger] ids@[k])@ == sfin@[k].id@,
        decreases sfin@.len() - i,
    {
        ids.push(sfin[i].id.clone());
        i = i + 1;
    }
    let mut numbers: Vec<i64> = Vec::new();
    let mut scores: Vec<Vec<Double>> = Vec::new();
    let mut l: usize = 0;
    while l < lf.len()
        invariant
            l <= lf@.len(),
            numbers@.len() == l,
            scores@.len() == l,
            forall|k: int| 0 <= k < l ==> #[trigger] numbers@[k] == lf@[k].id,
            forall|k: int| 0 <= k < l ==> (#[trigger] scores@[k])@.len() == sfin@.len(),
            forall|k: int, m: int|
                0 <= k < l && 0 <= m < sfin@.len() ==> #[trigger] scores@[k]@[m] == pair_score(
                    sfin@[m],
                    lf@[k],
                ),
            forall|k: int, m: int|
                0 <= k < l && 0 <= m < sfin@.len() ==> (#[trigger] scores@[k]@[m]).bits <= ONE_BITS,
            forall|k: int, m: int|
                0 <= k < l && 0 <= m < sfin@.len() && currencies_differ(
                    sfin@[m].currency,
                    lf@[k].currency,
                ) ==> (#[trigger] scores@[k]@[m]).bits < MATCH_THRESHOLD,
        decreases lf@.len() - l,
    {
        let mut row: Vec<Double> = Vec::new();
        let mut s: usize = 0;
        while s < sfin.len()
            invariant
                l < lf@.len(),
                s <= sfin@.len(),
                row@.len() == s,
                forall|m: int|
                    0 <= m < s ==> #[trigger] row@[m] == pair_score(sfin@[m], lf@[l as int]),
                forall|m: int| 0 <= m < s ==> (#[trigger] row@[m]).bits <= ONE_BITS,
                forall|m: int|
                    0 <= m < s && currencies_differ(sfin@[m].currency, lf@[l as int].currency)
                        ==> (#[trigger] row@[m]).bits < MATCH_THRESHOLD,
            decreases sfin@.len() - s,
        {
            let txn_score: Option<Double> = score_accounts_by_transactions(
                &sfin[s].recent,
                &lf[l].recent,
                &sfin[s].currency,
                &lf[l].currency,
            );
            let name_sim: Double = name_similarity(sfin[s].name.as_str(), lf[l].name.as_str());
            proof {
                if currencies_differ(sfin@[s as int].currency, lf@[l as int].currency) {
                    lemma_currency_mismatch_disqualifies(
                        sfin@[s as int].recent@,
                        lf@[l as int].recent@,
                        sfin@[s as int].currency,
                        lf@[l as int].currency,
                        name_sim,
                    );
                }
            }
            row.push(account_score(txn_score, name_sim));
            s = s + 1;
        }
        scores.push(row);
        numbers.push(lf[l].id);
        l = l + 1;
    }
    proof {
        assert(texts(ids@) =~= sfin_ids(sfin@));
        assert(numbers@ =~= lf_ids(lf@));
        assert(table(scores@) =~= pair_scores(sfin@, lf@)) by {
            assert forall|k: int| 0 <= k < lf@.len() implies table(scores@)[k] == pair_scores(
                sfin@,
                lf@,
            )[k] by {
                assert(scores@[k]@ =~= pair_scores(sfin@, lf@)[k]);
            }
        }
        assert forall|l: int, s: int|
            0 <= l < lf@.len() && 0 <= s < sfin@.len() && currencies_differ(
                sfin@[s].currency,
                lf@[l].currency,
            ) implies (#[trigger] pair_scores(sfin@, lf@)[l][s]).bits < MATCH_THRESHOLD by {
            assert(scores@[l]@[s] == pair_scores(sfin@, lf@)[l][s]);
        }
    }
    match_accounts(rules, &ids, &numbers, &scores)
}

/// The matched pairs among the first `n` links.
pub open spec fn pairs_among(links: Seq<AccountLink>, n: int) -> Seq<(Seq<char>, i64)>
    decreases n,
{
    if n <= 0 {
        Seq::empty()
    } else {
        let before = pairs_among(links, n - 1);
        match (links[n - 1].status, links[n - 1].sfin, links[n - 1].lf) {
            (MatchStatus::Matched, Some(sfin), Some(lf)) => before.push((sfin, lf)),
            _ => before,
        }
    }
}

/// The matched pairs of a reconciliation run, whose transactions are to be
/// reconciled.
pub fn matched_pairs(rows: &Vec<ReconciledAccount>) -> (r: Vec<(String, i64)>)
    ensures
        Seq::new(r@.len(), |i: int| (r@[i].0@, r@[i].1)) == pairs_among(
            links_of(rows@),
            rows@.len() as int,
        ),
{
    let ghost links = links_of(rows@);
    let mut r: Vec<(String, i64)> = Vec::new();
    let mut i: usize = 0;
    assert(Seq::new(r@.len(), |i: int| (r@[i].0@, r@[i].1)) =~= pairs_among(links, 0));
    while i < rows.len()
        invariant
            links == links_of(rows@),
            i <= rows@.len(),
            Seq::new(r@.len(), |i: int| (r@[i].0@, r@[i].1)) == pairs_among(links, i as int),
        decreases rows@.len() - i,
    {
        let ghost before = r@;
        assert(links[i as int] == rows@[i as int]@);
        if rows[i].status == MatchStatus::Matched {
            match (&rows[i].sfin_account_id, rows[i].lf_account_id) {
                (Some(sfin), Some(lf)) => {
                    r.push((sfin.clone(), lf));
                    assert(Seq::new(r@.len(), |i: int| (r@[i].0@, r@[i].1)) =~= Seq::new(
                        before.len(),
                        |i: int| (before[i].0@, before[i].1),
                    ).push((sfin@, lf)));
                },
                _ => {},
            }
        }
        i = i + 1;
    }
    r
}

// ---------------------------------------------------------------------------
// Laws
// ---------------------------------------------------------------------------

/// The best candidate is a candidate with a score above zero. No candidate scores
/// higher, and none before it scores as high. Where there is no best candidate,
/// every candidate scores zero.
pub proof fn lemma_best_candidate(
    rules: Seq<UserAccountRule>,
    links: Seq<AccountLink>,
    sfin: Seq<Seq<char>>,
    lf: i64,
    scores: Seq<Double>,
    n: int,
)
    requires
        0 <= n <= sfin.len(),
    ensures
        match best_candidate(rules, links, sfin, lf, scores, n) {
            Some(k) => {
                &&& 0 <= k < n
                &&& is_candidate(rules, links, sfin[k], lf)
                &&& scores[k].bits > 0
                &&& forall|j: int|
                    0 <= j < n && is_candidate(rules, links, #[trigger] sfin[j], lf) ==> scores[j].bits
                        <= scores[k].bits && (j < k ==> scores[j].bits < scores[k].bits)
            },
            None => forall|j: int|
                0 <= j < n && is_candidate(rules, links, #[trigger] sfin[j], lf) ==> scores[j].bits
                    == 0,
        },
    decreases n,
{
    if n > 0 {
        lemma_best_candidate(rules, links, sfin, lf, scores, n - 1);
    }
}

/// Whether a rule in effect asks for a match of two accounts.
pub open spec fn is_forced(rules: Seq<UserAccountRule>, sfin: Seq<char>, lf: i64) -> bool {
    exists|i: int|
        0 <= i < rules.len() && #[trigger] is_effective(rules, i)
            && rules[i].sfin_account_id->0@ == sfin && rules[i].lf_account_id == Some(lf)
}

/// Whether a rule forbids a match of two accounts.
pub open spec fn is_forbidden(rules: Seq<UserAccountRule>, sfin: Seq<char>, lf: i64) -> bool {
    excludes_sfin(rules, sfin) || excludes_lf(rules, lf) || excludes_pair(rules, sfin, lf)
}

/// Whether a match rests on its score: the score of its two accounts reaches the
/// threshold, and is its confidence.
pub open spec fn is_scored(
    sfin: Seq<Seq<char>>,
    lf: Seq<i64>,
    scores: Seq<Seq<Double>>,
    link: AccountLink,
) -> bool {
    exists|l: int, s: int|
        0 <= l < lf.len() && 0 <= s < sfin.len() && link.lf == Some(#[trigger] lf[l]) && link.sfin
            == Some(#[trigger] sfin[s]) && link.confidence == scores[l][s] && scores[l][s].bits
            >= MATCH_THRESHOLD
}

/// A link of one of the three kinds, on accounts that exist. A match is one that a
/// rule asks for, with full confidence, or one that no rule forbids and that rests
/// on its score.
pub open spec fn is_sound(
    rules: Seq<UserAccountRule>,
    sfin: Seq<Seq<char>>,
    lf: Seq<i64>,
    scores: Seq<Seq<Double>>,
    link: AccountLink,
) -> bool {
    match link.status {
        MatchStatus::Matched => {
            &&& link.sfin is Some && link.lf is Some
            &&& sfin.contains(link.sfin->0) && lf.contains(link.lf->0)
            &&& ({
                ||| is_forced(rules, link.sfin->0, link.lf->0) && link.confidence.bits == ONE_BITS
                ||| !is_forbidden(rules, link.sfin->0, link.lf->0) && is_scored(
                    sfin,
                    lf,
                    scores,
                    link,
                )
            })
        },
        MatchStatus::LfOnly => link.lf is Some && link == lf_only_link(link.lf->0) && lf.contains(
            link.lf->0,
        ),
        MatchStatus::SfinOnly => link.sfin is Some && link == sfin_only_link(link.sfin->0)
            && sfin.contains(link.sfin->0),
    }
}

/// Whether no two matches share a SimpleFIN account.
pub open spec fn sfin_matched_once(links: Seq<AccountLink>) -> bool {
    forall|i: int, j: int|
        #![trigger links[i], links[j]]
        0 <= i < j < links.len() && links[i].status == MatchStatus::Matched && links[j].status
            == MatchStatus::Matched ==> links[i].sfin != links[j].sfin
}

proof fn lemma_forced_links(
    rules: Seq<UserAccountRule>,
    sfin: Seq<Seq<char>>,
    lf: Seq<i64>,
    scores: Seq<Seq<Double>>,
    n: int,
)
    requires
        0 <= n <= rules.len(),
    ensures
        ({
            let links = forced_links(rules, sfin, lf, n);
            &&& forall|k: int|
                0 <= k < links.len() ==> {
                    &&& (#[trigger] links[k]).status == MatchStatus::Matched
                    &&& is_sound(rules, sfin, lf, scores, links[k])
                    &&& exists|i: int|
                        0 <= i < n && #[trigger] is_effective(rules, i)
                            && rules[i].sfin_account_id->0@ == links[k].sfin->0
                }
            &&& sfin_matched_once(links)
            &&& forall|i: int|
                #![trigger rules[i]]
                0 <= i < n && is_effective(rules, i) && sfin.contains(rules[i].sfin_account_id->0@)
                    && lf.contains(rules[i].lf_account_id->0) ==> links.contains(
                    matched_link(
                        rules[i].sfin_account_id->0@,
                        rules[i].lf_account_id->0,
                        dbl(ONE_BITS),
                    ),
                )
        }),
    decreases n,
{
    if n > 0 {
        lemma_forced_links(rules, sfin, lf, scores, n - 1);
        let before = forced_links(rules, sfin, lf, n - 1);
        let links = forced_links(rules, sfin, lf, n);
        let rule = rules[n - 1];
        if links.len() > before.len() {
            let id = rule.sfin_account_id->0@;
            assert(matches_sfin(rule, id));
            let link = matched_link(id, rule.lf_account_id->0, dbl(ONE_BITS));
            assert(links[links.len() - 1] == link);
            assert(is_forced(rules, id, rule.lf_account_id->0));
            assert(is_sound(rules, sfin, lf, scores, link));
            assert forall|k: int| 0 <= k < before.len() implies (#[trigger] before[k]).sfin != Some(id) by {
                let i = choose|i: int|
                    0 <= i < n - 1 && #[trigger] is_effective(rules, i)
                        && rules[i].sfin_account_id->0@ == before[k].sfin->0;
                if before[k].sfin == Some(id) {
                    assert(!matches_sfin(rules[n - 1], id));
                }
            }
        }
        assert forall|i: int|
            #![trigger rules[i]]
            0 <= i < n && is_effective(rules, i) && sfin.contains(rules[i].sfin_account_id->0@)
                && lf.contains(rules[i].lf_account_id->0) implies links.contains(
            matched_link(
                rules[i].sfin_account_id->0@,
                rules[i].lf_account_id->0,
                dbl(ONE_BITS),
            ),
        ) by {
            let link = matched_link(
                rules[i].sfin_account_id->0@,
                rules[i].lf_account_id->0,
                dbl(ONE_BITS),
            );
            if i < n - 1 {
                let k = choose|k: int| 0 <= k < before.len() && before[k] == link;
                assert(links[k] == link);
            } else {
                assert(links[links.len() - 1] == link);
            }
        }
    }
}

#[verifier::spinoff_prover]
#[verifier::rlimit(30)]
proof fn lemma_links_after(
    rules: Seq<UserAccountRule>,
    sfin: Seq<Seq<char>>,
    lf: Seq<i64>,
    scores: Seq<Seq<Double>>,
    n: int,
)
    requires
        0 <= n <= lf.len(),
    ensures
        ({
            let links = links_after(rules, sfin, lf, scores, n);
            let forced = forced_links(rules, sfin, lf, rules.len() as int);
            &&& forced.is_prefix_of(links)
            &&& forall|i: int|
                0 <= i < links.len() ==> (#[trigger] links[i]).status != MatchStatus::SfinOnly
                    && is_sound(rules, sfin, lf, scores, links[i])
            &&& sfin_matched_once(links)
            &&& forall|k: int|
                0 <= k < n ==> exists|i: int|
                    0 <= i < links.len() && (#[trigger] links[i]).lf == Some(#[trigger] lf[k])
        }),
    decreases n,
{
    lemma_forced_links(rules, sfin, lf, scores, rules.len() as int);
    if n > 0 {
        lemma_links_after(rules, sfin, lf, scores, n - 1);
        let before = links_after(rules, sfin, lf, scores, n - 1);
        let links = links_after(rules, sfin, lf, scores, n);
        let id = lf[n - 1];
        assert(lf.contains(id));
        if lf_taken(before, id) {
            let i = choose|i: int| 0 <= i < before.len() && takes_lf(#[trigger] before[i], id);
            assert(links[i].lf == Some(lf[n - 1]));
        } else {
            let link = lf_link(rules, before, sfin, id, scores[n - 1]);
            assert(links[links.len() - 1] == link);
            lemma_best_candidate(rules, before, sfin, id, scores[n - 1], sfin.len() as int);
            assert(is_sound(rules, sfin, lf, scores, link));
            assert forall|i: int|
                0 <= i < before.len() && (#[trigger] before[i]).status == MatchStatus::Matched
                    && link.status == MatchStatus::Matched implies before[i].sfin != link.sfin by {
                if before[i].sfin == link.sfin {
                    assert(takes_sfin(before[i], link.sfin->0));
                }
            }
            assert forall|k: int| 0 <= k < n implies exists|i: int|
                0 <= i < links.len() && (#[trigger] links[i]).lf == Some(#[trigger] lf[k]) by {
                if k < n - 1 {
                    let i = choose|i: int|
                        0 <= i < before.len() && (#[trigger] before[i]).lf == Some(lf[k]);
                    assert(links[i].lf == Some(lf[k]));
                } else {
                    assert(links[links.len() - 1].lf == Some(lf[k]));
                }
            }
        }
    }
}

#[verifier::spinoff_prover]
#[verifier::rlimit(30)]
proof fn lemma_lf_linked_once(
    rules: Seq<UserAccountRule>,
    sfin: Seq<Seq<char>>,
    lf: Seq<i64>,
    scores: Seq<Seq<Double>>,
    n: int,
)
    requires
        lf.no_duplicates(),
        0 <= n <= lf.len(),
    ensures
        ({
            let links = links_after(rules, sfin, lf, scores, n);
            let forced = forced_links(rules, sfin, lf, rules.len() as int);
            &&& forall|i: int|
                forced.len() <= i < links.len() ==> exists|k: int|
                    0 <= k < n && Some(#[trigger] lf[k]) == (#[trigger] links[i]).lf
            &&& forall|i: int, j: int|
                #![trigger links[i], links[j]]
                0 <= i < j < links.len() && forced.len() <= j ==> links[i].lf != links[j].lf
        }),
    decreases n,
{
    if n > 0 {
        let before = links_after(rules, sfin, lf, scores, n - 1);
        let links = links_after(rules, sfin, lf, scores, n);
        let forced = forced_links(rules, sfin, lf, rules.len() as int);
        let id = lf[n - 1];
        assert(forced.is_prefix_of(before)) by {
            lemma_links_after(rules, sfin, lf, scores, n - 1);
        }
        assert(forall|i: int|
            0 <= i < forced.len() ==> (#[trigger] forced[i]).status == MatchStatus::Matched) by {
            lemma_forced_links(rules, sfin, lf, scores, rules.len() as int);
        }
        lemma_lf_linked_once(rules, sfin, lf, scores, n - 1);
        assert forall|i: int| forced.len() <= i < links.len() implies exists|k: int|
            0 <= k < n && Some(#[trigger] lf[k]) == (#[trigger] links[i]).lf by {
            if i < before.len() {
                assert(links[i] == before[i]);
                let k = choose|k: int| 0 <= k < n - 1 && Some(#[trigger] lf[k]) == before[i].lf;
                assert(Some(lf[k]) == links[i].lf);
            } else {
                assert(Some(lf[n - 1]) == links[i].lf);
            }
        }
        if !lf_taken(before, id) {
            assert forall|i: int| 0 <= i < before.len() implies (#[trigger] before[i]).lf != Some(id) by {
                if i < forced.len() {
                    assert(forced[i] == before[i]);
                    assert(!takes_lf(before[i], id));
                } else {
                    let k = choose|k: int| 0 <= k < n - 1 && Some(#[trigger] lf[k]) == before[i].lf;
                    assert(lf[k] != lf[n - 1]);
                }
            }
        }
    }
}

proof fn lemma_with_free_sfin(links: Seq<AccountLink>, sfin: Seq<Seq<char>>, n: int)
    requires
        0 <= n <= sfin.len(),
    ensures
        ({
            let all = with_free_sfin(links, sfin, n);
            &&& links.is_prefix_of(all)
            &&& forall|i: int|
                links.len() <= i < all.len() ==> exists|k: int|
                    0 <= k < n && #[trigger] all[i] == sfin_only_link(#[trigger] sfin[k])
                        && !sfin_taken(links, sfin[k])
            &&& forall|k: int|
                0 <= k < n && !sfin_taken(links, #[trigger] sfin[k]) ==> all.contains(
                    sfin_only_link(sfin[k]),
                )
        }),
    decreases n,
{
    if n > 0 {
        lemma_with_free_sfin(links, sfin, n - 1);
        let before = with_free_sfin(links, sfin, n - 1);
        let all = with_free_sfin(links, sfin, n);
        assert forall|i: int| links.len() <= i < all.len() implies exists|k: int|
            0 <= k < n && #[trigger] all[i] == sfin_only_link(#[trigger] sfin[k]) && !sfin_taken(
                links,
                sfin[k],
            ) by {
            if i < before.len() {
                assert(all[i] == before[i]);
                let k = choose|k: int|
                    0 <= k < n - 1 && before[i] == sfin_only_link(#[trigger] sfin[k])
                        && !sfin_taken(links, sfin[k]);
                assert(all[i] == sfin_only_link(sfin[k]));
            } else {
                assert(all[i] == sfin_only_link(sfin[n - 1]));
            }
        }
        assert forall|k: int| 0 <= k < n && !sfin_taken(links, #[trigger] sfin[k]) implies all.contains(
            sfin_only_link(sfin[k]),
        ) by {
            if k < n - 1 {
                let i = choose|i: int| 0 <= i < before.len() && before[i] == sfin_only_link(sfin[k]);
                assert(all[i] == before[i]);
            } else {
                assert(all[all.len() - 1] == sfin_only_link(sfin[k]));
            }
        }
    }
}

/// Every link is sound: a match is one that a rule asks for, or one that no rule
/// forbids and whose score reaches the threshold. No two matches share a SimpleFIN
/// account.
pub proof fn lemma_links_sound(
    rules: Seq<UserAccountRule>,
    sfin: Seq<Seq<char>>,
    lf: Seq<i64>,
    scores: Seq<Seq<Double>>,
)
    ensures
        ({
            let links = account_links(rules, sfin, lf, scores);
            &&& forall|i: int|
                0 <= i < links.len() ==> is_sound(rules, sfin, lf, scores, #[trigger] links[i])
            &&& sfin_matched_once(links)
        }),
{
    let before = links_after(rules, sfin, lf, scores, lf.len() as int);
    lemma_links_after(rules, sfin, lf, scores, lf.len() as int);
    lemma_with_free_sfin(before, sfin, sfin.len() as int);
    let links = account_links(rules, sfin, lf, scores);
    assert forall|i: int| 0 <= i < links.len() implies is_sound(rules, sfin, lf, scores, #[trigger] links[i]) by {
        if i < before.len() {
            assert(links[i] == before[i]);
        } else {
            let k = choose|k: int|
                0 <= k < sfin.len() && links[i] == sfin_only_link(#[trigger] sfin[k])
                    && !sfin_taken(before, sfin[k]);
            assert(sfin.contains(sfin[k]));
        }
    }
    assert forall|i: int, j: int|
        #![trigger links[i], links[j]]
        0 <= i < j < links.len() && links[i].status == MatchStatus::Matched && links[j].status
            == MatchStatus::Matched implies links[i].sfin != links[j].sfin by {
        if j < before.len() {
            assert(links[i] == before[i] && links[j] == before[j]);
        }
    }
}

/// A match that a rule in effect asks for stands, with full confidence, whenever
/// both accounts exist.
pub proof fn lemma_rules_prevail(
    rules: Seq<UserAccountRule>,
    sfin: Seq<Seq<char>>,
    lf: Seq<i64>,
    scores: Seq<Seq<Double>>,
    i: int,
)
    requires
        0 <= i < rules.len(),
        is_effective(rules, i),
        sfin.contains(rules[i].sfin_account_id->0@),
        lf.contains(rules[i].lf_account_id->0),
    ensures
        account_links(rules, sfin, lf, scores).contains(
            matched_link(
                rules[i].sfin_account_id->0@,
                rules[i].lf_account_id->0,
                dbl(ONE_BITS),
            ),
        ),
{
    let forced = forced_links(rules, sfin, lf, rules.len() as int);
    let before = links_after(rules, sfin, lf, scores, lf.len() as int);
    let links = account_links(rules, sfin, lf, scores);
    lemma_forced_links(rules, sfin, lf, scores, rules.len() as int);
    lemma_links_after(rules, sfin, lf, scores, lf.len() as int);
    lemma_with_free_sfin(before, sfin, sfin.len() as int);
    let link = matched_link(
        rules[i].sfin_account_id->0@,
        rules[i].lf_account_id->0,
        dbl(ONE_BITS),
    );
    assert(rules[i] == rules[i]);
    let k = choose|k: int| 0 <= k < forced.len() && forced[k] == link;
    assert(before[k] == forced[k]);
    assert(links[k] == before[k]);
}

/// Every account occurs in some link.
pub proof fn lemma_every_account_linked(
    rules: Seq<UserAccountRule>,
    sfin: Seq<Seq<char>>,
    lf: Seq<i64>,
    scores: Seq<Seq<Double>>,
)
    ensures
        ({
            let links = account_links(rules, sfin, lf, scores);
            &&& forall|k: int|
                0 <= k < lf.len() ==> exists|i: int|
                    0 <= i < links.len() && (#[trigger] links[i]).lf == Some(#[trigger] lf[k])
            &&& forall|k: int|
                0 <= k < sfin.len() ==> exists|i: int|
                    0 <= i < links.len() && (#[trigger] links[i]).sfin == Some(#[trigger] sfin[k])
        }),
{
    let before = links_after(rules, sfin, lf, scores, lf.len() as int);
    let links = account_links(rules, sfin, lf, scores);
    lemma_links_after(rules, sfin, lf, scores, lf.len() as int);
    lemma_with_free_sfin(before, sfin, sfin.len() as int);
    assert forall|k: int| 0 <= k < lf.len() implies exists|i: int|
        0 <= i < links.len() && (#[trigger] links[i]).lf == Some(#[trigger] lf[k]) by {
        let i = choose|i: int| 0 <= i < before.len() && (#[trigger] before[i]).lf == Some(lf[k]);
        assert(links[i] == before[i]);
    }
    assert forall|k: int| 0 <= k < sfin.len() implies exists|i: int|
        0 <= i < links.len() && (#[trigger] links[i]).sfin == Some(#[trigger] sfin[k]) by {
        if sfin_taken(before, sfin[k]) {
            let i = choose|i: int| 0 <= i < before.len() && takes_sfin(#[trigger] before[i], sfin[k]);
            assert(links[i] == before[i]);
        } else {
            let i = choose|i: int| 0 <= i < links.len() && links[i] == sfin_only_link(sfin[k]);
            assert(links[i].sfin == Some(sfin[k]));
        }
    }
}

/// An account that is matched is never recorded as standing alone as well.
#[verifier::spinoff_prover]
#[verifier::rlimit(30)]
pub proof fn lemma_matched_not_alone(
    rules: Seq<UserAccountRule>,
    sfin: Seq<Seq<char>>,
    lf: Seq<i64>,
    scores: Seq<Seq<Double>>,
)
    requires
        lf.no_duplicates(),
    ensures
        ({
            let links = account_links(rules, sfin, lf, scores);
            forall|i: int, j: int|
                #![trigger links[i], links[j]]
                0 <= i < links.len() && 0 <= j < links.len() && links[i].status
                    == MatchStatus::Matched ==> {
                    &&& links[j].status == MatchStatus::SfinOnly ==> links[j].sfin != links[i].sfin
                    &&& links[j].status == MatchStatus::LfOnly ==> links[j].lf != links[i].lf
                }
        }),
{
    let n = lf.len() as int;
    let before = links_after(rules, sfin, lf, scores, n);
    let links = account_links(rules, sfin, lf, scores);
    let forced = forced_links(rules, sfin, lf, rules.len() as int);
    lemma_forced_links(rules, sfin, lf, scores, rules.len() as int);
    lemma_links_after(rules, sfin, lf, scores, n);
    lemma_lf_linked_once(rules, sfin, lf, scores, n);
    lemma_with_free_sfin(before, sfin, sfin.len() as int);
    assert forall|i: int, j: int|
        #![trigger links[i], links[j]]
        0 <= i < links.len() && 0 <= j < links.len() && links[i].status == MatchStatus::Matched implies {
        &&& links[j].status == MatchStatus::SfinOnly ==> links[j].sfin != links[i].sfin
        &&& links[j].status == MatchStatus::LfOnly ==> links[j].lf != links[i].lf
    } by {
        if i >= before.len() {
            let k = choose|k: int|
                0 <= k < sfin.len() && links[i] == sfin_only_link(#[trigger] sfin[k])
                    && !sfin_taken(before, sfin[k]);
            assert(links[i].status == MatchStatus::SfinOnly);
        }
        assert(links[i] == before[i]);
        if j >= before.len() {
            let k = choose|k: int|
                0 <= k < sfin.len() && links[j] == sfin_only_link(#[trigger] sfin[k])
                    && !sfin_taken(before, sfin[k]);
            assert(!takes_sfin(before[i], sfin[k]));
        } else {
            assert(links[j] == before[j]);
            if links[j].status == MatchStatus::LfOnly {
                if j < forced.len() {
                    assert(before[j] == forced[j]);
                }
                if i < j {
                    assert(before[i].lf != before[j].lf);
                } else if j < i {
                    assert(before[j].lf != before[i].lf);
                }
            }
        }
    }
}

/// Beyond the matches that rules ask for, a LunchFlow account has one link only.
#[verifier::spinoff_prover]
#[verifier::rlimit(30)]
pub proof fn lemma_lf_matched_once(
    rules: Seq<UserAccountRule>,
    sfin: Seq<Seq<char>>,
    lf: Seq<i64>,
    scores: Seq<Seq<Double>>,
)
    requires
        lf.no_duplicates(),
    ensures
        ({
            let links = account_links(rules, sfin, lf, scores);
            forall|i: int, j: int|
                #![trigger links[i], links[j]]
                0 <= i < j < links.len() && links[i].lf is Some && links[i].lf == links[j].lf
                    ==> is_forced(rules, links[i].sfin->0, links[i].lf->0) && is_forced(
                    rules,
                    links[j].sfin->0,
                    links[j].lf->0,
                )
        }),
{
    let n = lf.len() as int;
    let before = links_after(rules, sfin, lf, scores, n);
    let links = account_links(rules, sfin, lf, scores);
    let forced = forced_links(rules, sfin, lf, rules.len() as int);
    lemma_forced_links(rules, sfin, lf, scores, rules.len() as int);
    lemma_forced_by_rules(rules, sfin, lf, rules.len() as int);
    lemma_links_after(rules, sfin, lf, scores, n);
    lemma_lf_linked_once(rules, sfin, lf, scores, n);
    lemma_with_free_sfin(before, sfin, sfin.len() as int);
    assert forall|i: int, j: int|
        #![trigger links[i], links[j]]
        0 <= i < j < links.len() && links[i].lf is Some && links[i].lf == links[j].lf implies is_forced(
        rules,
        links[i].sfin->0,
        links[i].lf->0,
    ) && is_forced(rules, links[j].sfin->0, links[j].lf->0) by {
        if j >= before.len() {
            let k = choose|k: int|
                0 <= k < sfin.len() && links[j] == sfin_only_link(#[trigger] sfin[k])
                    && !sfin_taken(before, sfin[k]);
            assert(links[j].lf is None);
        }
        assert(links[i] == before[i] && links[j] == before[j]);
        if j < forced.len() {
            assert(before[i] == forced[i] && before[j] == forced[j]);
        } else {
            assert(before[i].lf != before[j].lf);
        }
    }
}

proof fn lemma_forced_by_rules(rules: Seq<UserAccountRule>, sfin: Seq<Seq<char>>, lf: Seq<i64>, n: int)
    requires
        0 <= n <= rules.len(),
    ensures
        forall|k: int|
            0 <= k < forced_links(rules, sfin, lf, n).len() ==> is_forced(
                rules,
                (#[trigger] forced_links(rules, sfin, lf, n)[k]).sfin->0,
                forced_links(rules, sfin, lf, n)[k].lf->0,
            ),
    decreases n,
{
    if n > 0 {
        lemma_forced_by_rules(rules, sfin, lf, n - 1);
        let before = forced_links(rules, sfin, lf, n - 1);
        let links = forced_links(rules, sfin, lf, n);
        assert forall|k: int| 0 <= k < links.len() implies is_forced(
            rules,
            (#[trigger] links[k]).sfin->0,
            links[k].lf->0,
        ) by {
            if k < before.len() {
                assert(links[k] == before[k]);
            } else {
                assert(is_effective(rules, n - 1));
            }
        }
    }
}

proof fn lemma_links_prefix(
    rules: Seq<UserAccountRule>,
    sfin: Seq<Seq<char>>,
    lf: Seq<i64>,
    scores: Seq<Seq<Double>>,
    m: int,
    n: int,
)
    requires
        0 <= m <= n,
    ensures
        links_after(rules, sfin, lf, scores, m).is_prefix_of(
            links_after(rules, sfin, lf, scores, n),
        ),
    decreases n,
{
    if m < n {
        lemma_links_prefix(rules, sfin, lf, scores, m, n - 1);
    }
}

/// No match is left over: two accounts that both stand alone, and that no rule keeps
/// apart, score below the threshold.
#[verifier::spinoff_prover]
#[verifier::rlimit(30)]
pub proof fn lemma_no_match_left(
    rules: Seq<UserAccountRule>,
    sfin: Seq<Seq<char>>,
    lf: Seq<i64>,
    scores: Seq<Seq<Double>>,
    l: int,
    s: int,
)
    requires
        lf.no_duplicates(),
        0 <= l < lf.len(),
        0 <= s < sfin.len(),
        account_links(rules, sfin, lf, scores).contains(lf_only_link(lf[l])),
        account_links(rules, sfin, lf, scores).contains(sfin_only_link(sfin[s])),
        !is_forbidden(rules, sfin[s], lf[l]),
    ensures
        scores[l][s].bits < MATCH_THRESHOLD,
{
    let n = lf.len() as int;
    let links = account_links(rules, sfin, lf, scores);
    let linked = links_after(rules, sfin, lf, scores, n);
    let before = links_after(rules, sfin, lf, scores, l);
    let own = links_after(rules, sfin, lf, scores, l + 1);
    lemma_links_prefix(rules, sfin, lf, scores, l, n);
    lemma_links_prefix(rules, sfin, lf, scores, l + 1, n);
    assert(linked.is_prefix_of(links)) by {
        lemma_with_free_sfin(linked, sfin, sfin.len() as int);
    }
    lemma_matched_not_alone(rules, sfin, lf, scores);
    let i = choose|i: int| 0 <= i < links.len() && links[i] == lf_only_link(lf[l]);
    let j = choose|j: int| 0 <= j < links.len() && links[j] == sfin_only_link(sfin[s]);
    assert(!lf_taken(before, lf[l])) by {
        if lf_taken(before, lf[l]) {
            let k = choose|k: int| 0 <= k < before.len() && takes_lf(#[trigger] before[k], lf[l]);
            assert(links[k] == before[k]);
            assert(links[i].lf != links[k].lf);
        }
    }
    assert(!sfin_taken(before, sfin[s])) by {
        if sfin_taken(before, sfin[s]) {
            let k = choose|k: int|
                0 <= k < before.len() && takes_sfin(#[trigger] before[k], sfin[s]);
            assert(links[k] == before[k]);
            assert(links[j].sfin != links[k].sfin);
        }
    }
    let link = lf_link(rules, before, sfin, lf[l], scores[l]);
    assert(own[before.len() as int] == link);
    assert(links[before.len() as int] == link);
    assert(link.status == MatchStatus::LfOnly) by {
        assert(links[i].status == MatchStatus::LfOnly);
        if link.status == MatchStatus::Matched {
            assert(links[i].lf != links[before.len() as int].lf);
        }
    }
    assert(is_candidate(rules, before, sfin[s], lf[l]));
    lemma_best_candidate(rules, before, sfin, lf[l], scores[l], sfin.len() as int);
}

/// Whether no two rules in effect match the same LunchFlow account.
pub open spec fn lf_ruled_once(rules: Seq<UserAccountRule>) -> bool {
    forall|i: int, j: int|
        0 <= i < j < rules.len() && #[trigger] is_effective(rules, i) && #[trigger] is_effective(
            rules,
            j,
        ) ==> rules[i].lf_account_id != rules[j].lf_account_id
}

/// Whether exactly one link is of the given LunchFlow account.
pub open spec fn has_one_lf_link(links: Seq<AccountLink>, lf: i64) -> bool {
    &&& exists|i: int| 0 <= i < links.len() && (#[trigger] links[i]).lf == Some(lf)
    &&& forall|i: int, j: int|
        #![trigger links[i], links[j]]
        0 <= i < links.len() && 0 <= j < links.len() && links[i].lf == Some(lf) && links[j].lf
            == Some(lf) ==> i == j
}

/// Whether exactly one link is of the given SimpleFIN account.
pub open spec fn has_one_sfin_link(links: Seq<AccountLink>, sfin: Seq<char>) -> bool {
    &&& exists|i: int| 0 <= i < links.len() && (#[trigger] links[i]).sfin == Some(sfin)
    &&& forall|i: int, j: int|
        #![trigger links[i], links[j]]
        0 <= i < links.len() && 0 <= j < links.len() && links[i].sfin == Some(sfin)
            && links[j].sfin == Some(sfin) ==> i == j
}

proof fn lemma_forced_lf_once(rules: Seq<UserAccountRule>, sfin: Seq<Seq<char>>, lf: Seq<i64>, n: int)
    requires
        0 <= n <= rules.len(),
        lf_ruled_once(rules),
    ensures
        ({
            let links = forced_links(rules, sfin, lf, n);
            &&& forall|k: int|
                0 <= k < links.len() ==> exists|i: int|
                    0 <= i < n && #[trigger] is_effective(rules, i) && rules[i].lf_account_id == (
                    #[trigger] links[k]).lf
            &&& forall|i: int, j: int|
                #![trigger links[i], links[j]]
                0 <= i < j < links.len() ==> links[i].lf != links[j].lf
        }),
    decreases n,
{
    if n > 0 {
        lemma_forced_lf_once(rules, sfin, lf, n - 1);
        let before = forced_links(rules, sfin, lf, n - 1);
        let links = forced_links(rules, sfin, lf, n);
        if links.len() > before.len() {
            assert(is_effective(rules, n - 1));
            assert(rules[n - 1].lf_account_id == links[before.len() as int].lf);
        }
        assert forall|k: int| 0 <= k < links.len() implies exists|i: int|
            0 <= i < n && #[trigger] is_effective(rules, i) && rules[i].lf_account_id == (
            #[trigger] links[k]).lf by {
            if k < before.len() {
                assert(links[k] == before[k]);
                let i = choose|i: int|
                    0 <= i < n - 1 && #[trigger] is_effective(rules, i) && rules[i].lf_account_id
                        == before[k].lf;
                assert(is_effective(rules, i));
            }
        }
        assert forall|i: int, j: int|
            #![trigger links[i], links[j]]
            0 <= i < j < links.len() implies links[i].lf != links[j].lf by {
            assert(links[i] == before[i]);
            if j < before.len() {
                assert(links[j] == before[j]);
            } else {
                let k = choose|k: int|
                    0 <= k < n - 1 && #[trigger] is_effective(rules, k) && rules[k].lf_account_id
                        == before[i].lf;
                assert(rules[k].lf_account_id != rules[n - 1].lf_account_id);
            }
        }
    }
}

proof fn lemma_free_sfin_once(links: Seq<AccountLink>, sfin: Seq<Seq<char>>, n: int)
    requires
        sfin.no_duplicates(),
        0 <= n <= sfin.len(),
    ensures
        ({
            let all = with_free_sfin(links, sfin, n);
            forall|i: int, j: int|
                #![trigger all[i], all[j]]
                links.len() <= i < j < all.len() ==> all[i].sfin != all[j].sfin
        }),
    decreases n,
{
    if n > 0 {
        lemma_free_sfin_once(links, sfin, n - 1);
        lemma_with_free_sfin(links, sfin, n - 1);
        let before = with_free_sfin(links, sfin, n - 1);
        let all = with_free_sfin(links, sfin, n);
        assert forall|i: int, j: int|
            #![trigger all[i], all[j]]
            links.len() <= i < j < all.len() implies all[i].sfin != all[j].sfin by {
            assert(all[i] == before[i]);
            if j < before.len() {
                assert(all[j] == before[j]);
            } else {
                let k = choose|k: int|
                    0 <= k < n - 1 && before[i] == sfin_only_link(#[trigger] sfin[k])
                        && !sfin_taken(links, sfin[k]);
                assert(sfin[k] != sfin[n - 1]);
            }
        }
    }
}

#[verifier::spinoff_prover]
#[verifier::rlimit(30)]
proof fn lemma_one_lf_link(
    rules: Seq<UserAccountRule>,
    sfin: Seq<Seq<char>>,
    lf: Seq<i64>,
    scores: Seq<Seq<Double>>,
    k: int,
)
    requires
        lf.no_duplicates(),
        lf_ruled_once(rules),
        0 <= k < lf.len(),
    ensures
        has_one_lf_link(account_links(rules, sfin, lf, scores), lf[k]),
{
    let n = lf.len() as int;
    let linked = links_after(rules, sfin, lf, scores, n);
    let links = account_links(rules, sfin, lf, scores);
    let forced = forced_links(rules, sfin, lf, rules.len() as int);
    assert(exists|i: int| 0 <= i < links.len() && (#[trigger] links[i]).lf == Some(lf[k])) by {
        lemma_every_account_linked(rules, sfin, lf, scores);
    }
    assert(linked.is_prefix_of(links)) by {
        lemma_with_free_sfin(linked, sfin, sfin.len() as int);
    }
    assert(forced.is_prefix_of(linked)) by {
        lemma_links_prefix(rules, sfin, lf, scores, 0, n);
    }
    assert forall|j: int| linked.len() <= j < links.len() implies (#[trigger] links[j]).lf is None by {
        lemma_with_free_sfin(linked, sfin, sfin.len() as int);
        let m = choose|m: int|
            0 <= m < sfin.len() && links[j] == sfin_only_link(#[trigger] sfin[m]) && !sfin_taken(
                linked,
                sfin[m],
            );
    }
    assert forall|i: int, j: int|
        #![trigger linked[i], linked[j]]
        0 <= i < j < linked.len() implies linked[i].lf != linked[j].lf by {
        if j < forced.len() {
            lemma_forced_lf_once(rules, sfin, lf, rules.len() as int);
            assert(forced[i] == linked[i] && forced[j] == linked[j]);
        } else {
            lemma_lf_linked_once(rules, sfin, lf, scores, n);
        }
    }
    assert forall|i: int, j: int|
        #![trigger links[i], links[j]]
        0 <= i < links.len() && 0 <= j < links.len() && links[i].lf == Some(lf[k]) && links[j].lf
            == Some(lf[k]) implies i == j by {
        assert(links[i] == linked[i] && links[j] == linked[j]);
    }
}

#[verifier::spinoff_prover]
#[verifier::rlimit(30)]
proof fn lemma_one_sfin_link(
    rules: Seq<UserAccountRule>,
    sfin: Seq<Seq<char>>,
    lf: Seq<i64>,
    scores: Seq<Seq<Double>>,
    k: int,
)
    requires
        sfin.no_duplicates(),
        lf.no_duplicates(),
        0 <= k < sfin.len(),
    ensures
        has_one_sfin_link(account_links(rules, sfin, lf, scores), sfin[k]),
{
    let linked = links_after(rules, sfin, lf, scores, lf.len() as int);
    let links = account_links(rules, sfin, lf, scores);
    lemma_every_account_linked(rules, sfin, lf, scores);
    lemma_links_sound(rules, sfin, lf, scores);
    lemma_matched_not_alone(rules, sfin, lf, scores);
    lemma_free_sfin_once(linked, sfin, sfin.len() as int);
    assert(linked.is_prefix_of(links)) by {
        lemma_with_free_sfin(linked, sfin, sfin.len() as int);
    }
    assert(forall|i: int|
        0 <= i < linked.len() ==> (#[trigger] linked[i]).status != MatchStatus::SfinOnly) by {
        lemma_links_after(rules, sfin, lf, scores, lf.len() as int);
    }
    assert forall|i: int, j: int|
        #![trigger links[i], links[j]]
        0 <= i < j < links.len() && links[i].sfin is Some implies links[i].sfin != links[j].sfin by {
        assert(is_sound(rules, sfin, lf, scores, links[i]));
        assert(is_sound(rules, sfin, lf, scores, links[j]));
        if i < linked.len() {
            assert(links[i] == linked[i]);
        }
        if j < linked.len() {
            assert(links[j] == linked[j]);
        }
    }
    assert(sfin[k] == sfin[k]);
}

/// Each account is in exactly one link, where no id occurs twice and no two rules in
/// effect match the same LunchFlow account.
pub proof fn lemma_accounts_linked_once(
    rules: Seq<UserAccountRule>,
    sfin: Seq<Seq<char>>,
    lf: Seq<i64>,
    scores: Seq<Seq<Double>>,
)
    requires
        sfin.no_duplicates(),
        lf.no_duplicates(),
        lf_ruled_once(rules),
    ensures
        ({
            let links = account_links(rules, sfin, lf, scores);
            &&& forall|k: int| 0 <= k < lf.len() ==> has_one_lf_link(links, #[trigger] lf[k])
            &&& forall|k: int| 0 <= k < sfin.len() ==> has_one_sfin_link(links, #[trigger] sfin[k])
        }),
{
    let links = account_links(rules, sfin, lf, scores);
    assert forall|k: int| 0 <= k < lf.len() implies has_one_lf_link(links, #[trigger] lf[k]) by {
        lemma_one_lf_link(rules, sfin, lf, scores, k);
    }
    assert forall|k: int| 0 <= k < sfin.len() implies has_one_sfin_link(
        links,
        #[trigger] sfin[k],
    ) by {
        lemma_one_sfin_link(rules, sfin, lf, scores, k);
    }
}

/// What the user's rules ask for: an exclusion of one account keeps it standalone, one of
/// a pair keeps the pair apart, and of several matches of a SimpleFIN account the last
/// counts.
pub proof fn lemma_rules_mean(rules: Seq<UserAccountRule>, i: int, sfin: String, lf: i64)
    requires
        0 <= i < rules.len(),
    ensures
        rules[i].action == UserReconciliationAction::Exclude && rules[i].sfin_account_id == Some(
            sfin,
        ) && rules[i].lf_account_id is None ==> is_forbidden(rules, sfin@, lf),
        rules[i].action == UserReconciliationAction::Exclude && rules[i].sfin_account_id is None
            && rules[i].lf_account_id == Some(lf) ==> is_forbidden(rules, sfin@, lf),
        rules[i].action == UserReconciliationAction::Exclude && rules[i].sfin_account_id == Some(
            sfin,
        ) && rules[i].lf_account_id == Some(lf) ==> is_forbidden(rules, sfin@, lf),
        (forall|k: int|
            0 <= k < rules.len() ==> (#[trigger] rules[k]).action
                == UserReconciliationAction::Match) ==> !is_forbidden(rules, sfin@, lf),
        is_effective(rules, i) <==> {
            &&& rules[i].action == UserReconciliationAction::Match
            &&& rules[i].sfin_account_id is Some && rules[i].lf_account_id is Some
            &&& forall|j: int|
                i < j < rules.len() ==> !((#[trigger] rules[j]).action
                    == UserReconciliationAction::Match && rules[j].lf_account_id is Some
                    && rules[j].sfin_account_id is Some && rules[j].sfin_account_id->0@
                    == rules[i].sfin_account_id->0@)
        },
{
    assert(rules_on(
        rules[i],
        rules[i].action,
        chars(rules[i].sfin_account_id),
        rules[i].lf_account_id,
    ));
}

/// An account that a rule keeps standalone, and a pair that a rule keeps apart, are not
/// matched unless a rule in effect asks for it.
pub proof fn lemma_exclusions_hold(
    rules: Seq<UserAccountRule>,
    sfin: Seq<Seq<char>>,
    lf: Seq<i64>,
    scores: Seq<Seq<Double>>,
    i: int,
    k: int,
)
    requires
        0 <= i < account_links(rules, sfin, lf, scores).len(),
        0 <= k < rules.len(),
        rules[k].action == UserReconciliationAction::Exclude,
        account_links(rules, sfin, lf, scores)[i].status == MatchStatus::Matched,
    ensures
        ({
            let link = account_links(rules, sfin, lf, scores)[i];
            let forced = exists|j: int|
                0 <= j < rules.len() && (#[trigger] rules[j]).action
                    == UserReconciliationAction::Match && rules[j].sfin_account_id is Some
                    && Some(rules[j].sfin_account_id->0@) == link.sfin && rules[j].lf_account_id
                    == link.lf;
            &&& rules[k].sfin_account_id is Some && rules[k].lf_account_id is None && link.sfin
                == Some(rules[k].sfin_account_id->0@) ==> forced
            &&& rules[k].sfin_account_id is None && rules[k].lf_account_id is Some && link.lf
                == rules[k].lf_account_id ==> forced
            &&& rules[k].sfin_account_id is Some && rules[k].lf_account_id is Some && link.sfin
                == Some(rules[k].sfin_account_id->0@) && link.lf == rules[k].lf_account_id
                ==> forced
        }),
{
    let link = account_links(rules, sfin, lf, scores)[i];
    lemma_links_sound(rules, sfin, lf, scores);
    assert(is_sound(rules, sfin, lf, scores, link));
    if is_forced(rules, link.sfin->0, link.lf->0) {
        let j = choose|j: int|
            0 <= j < rules.len() && #[trigger] is_effective(rules, j)
                && rules[j].sfin_account_id->0@ == link.sfin->0 && rules[j].lf_account_id == Some(
                link.lf->0,
            );
        assert(rules[j].action == UserReconciliationAction::Match);
    } else {
        assert(!is_forbidden(rules, link.sfin->0, link.lf->0));
        if rules[k].sfin_account_id is Some {
            lemma_rules_mean(rules, k, rules[k].sfin_account_id->0, link.lf->0);
        }
        assert(rules_on(
            rules[k],
            UserReconciliationAction::Exclude,
            chars(rules[k].sfin_account_id),
            rules[k].lf_account_id,
        ));
    }
}

/// A link with both sides is a match, and one with a single side is of an account that
/// stands alone, with no confidence.
pub proof fn lemma_link_sides(
    rules: Seq<UserAccountRule>,
    sfin: Seq<Seq<char>>,
    lf: Seq<i64>,
    scores: Seq<Seq<Double>>,
    i: int,
)
    requires
        0 <= i < account_links(rules, sfin, lf, scores).len(),
    ensures
        ({
            let link = account_links(rules, sfin, lf, scores)[i];
            &&& link.status == MatchStatus::Matched <==> link.sfin is Some && link.lf is Some
            &&& link.status == MatchStatus::SfinOnly <==> link.sfin is Some && link.lf is None
            &&& link.status == MatchStatus::LfOnly <==> link.sfin is None && link.lf is Some
            &&& link.status != MatchStatus::Matched ==> link.confidence.bits == 0
            &&& link.status == MatchStatus::Matched ==> link.confidence.bits
                == 0x3FF0_0000_0000_0000 || link.confidence.bits >= 0x3FE3_3333_3333_3333
        }),
{
    lemma_links_sound(rules, sfin, lf, scores);
    assert(is_sound(
        rules,
        sfin,
        lf,
        scores,
        account_links(rules, sfin, lf, scores)[i],
    ));
}

/// The pairs whose transactions are reconciled are those of the matches, all of them and
/// no others.
pub proof fn lemma_pairs_are_the_matches(links: Seq<AccountLink>, n: int, a: Seq<char>, b: i64)
    requires
        0 <= n <= links.len(),
    ensures
        pairs_among(links, n).contains((a, b)) <==> exists|i: int|
            0 <= i < n && (#[trigger] links[i]).status == MatchStatus::Matched && links[i].sfin
                == Some(a) && links[i].lf == Some(b),
    decreases n,
{
    if n > 0 {
        lemma_pairs_are_the_matches(links, n - 1, a, b);
        let before = pairs_among(links, n - 1);
        let all = pairs_among(links, n);
        if before.contains((a, b)) {
            let i = choose|i: int| 0 <= i < before.len() && before[i] == (a, b);
            assert(all[i] == (a, b));
        }
        if links[n - 1].status == MatchStatus::Matched && links[n - 1].sfin == Some(a)
            && links[n - 1].lf == Some(b) {
            assert(all[all.len() - 1] == (a, b));
        }
        if all.contains((a, b)) && !before.contains((a, b)) {
            let i = choose|i: int| 0 <= i < all.len() && all[i] == (a, b);
            if i < before.len() {
                assert(before[i] == (a, b));
            }
            assert(links[n - 1].sfin == Some(a) && links[n - 1].lf == Some(b));
        }
    } else {
        assert(pairs_among(links, n).len() == 0);
    }
}

/// A pair of accounts is scored by its own transactions, currencies and names: by the
/// names alone where a side has no transactions, and with at most 0.15 for the names
/// where both have.
pub proof fn lemma_pair_scored_by_its_own(sfin: Seq<SfinAccount>, lf: Seq<LfAccount>, l: int, s: int)
    requires
        0 <= l < lf.len(),
        0 <= s < sfin.len(),
    ensures
        ({
            let score = pair_scores(sfin, lf)[l][s];
            let names = text_similarity(lowercase(sfin[s].name@), lowercase(lf[l].name@));
            match recent_score(
                sfin[s].recent@,
                lf[l].recent@,
                sfin[s].currency,
                lf[l].currency,
            ) {
                None => score == names,
                Some(txns) => {
                    let sum = rounded_sum(
                        txns,
                        rounded_product(names, Double { bits: 0x3FC3_3333_3333_3333 }),
                    );
                    score.bits == (if sum.bits <= 0x3FF0_0000_0000_0000 {
                        sum.bits
                    } else {
                        0x3FF0_0000_0000_0000
                    })
                },
            }
        }),
        sfin_ids(sfin)[s] == sfin[s].id@,
        lf_ids(lf)[l] == lf[l].id,
        sfin_ids(sfin).len() == sfin.len(),
        lf_ids(lf).len() == lf.len(),
{
}

} // verus!
