//! What requests are answered, given the state in memory and what is stored.
use crate::db::{HoldingRow, TransactionRow};
use crate::error::AppError;
use crate::fdx::mapping::{amount_value, amount_value_opt, cached_account_to_fdx, holding_row_to_fdx, is_cached_account, is_holding, is_lf_account, is_lf_transaction, is_plain, is_row_transaction, is_timestamp, is_unified_transaction, lemma_joined_row_served, lemma_lf_only_row_served, lemma_timestamp_shown, lf_account_to_fdx, lf_posted_of, lf_transaction_to_fdx, transaction_row_to_fdx, unified_transaction_to_fdx, unix_to_rfc3339};
use crate::fdx::{FdxAccount, FdxAccountList, FdxHolding, FdxHoldingList, FdxPage, FdxTransaction, FdxTransactionList, HealthResponse};
use crate::lunchflow::db::{LfAccountFull, LfTransactionRow};
use crate::reconciler::db::{get_unified_transactions, is_ordered_form, is_unified_lf, is_unified_list, lemma_ordered_form, unified_sfin, LfOnlyRow, SfinJoinedRow, UnifiedTransaction, UserReconciliationAction};
use crate::reconciler::scoring::date_timestamp;
use crate::state::{after_failure, after_success, CacheState, CachedAccount, Provider};
use crate::text::{chars, decimal, i64_text, i64_value, join, lemma_decimal_read_back, parse_i64, same_text, strip_prefix};
use crate::util::{chrono_parse_rfc3339, in_calendar, in_four_digit_years, is_rfc3339_of, parsed_date, parsed_rfc3339, reads_timestamps};
use vstd::prelude::*;

verus! {

// ---------------------------------------------------------------------------
// Account ids
// ---------------------------------------------------------------------------

/// The source that an account id points to.
#[derive(Debug)]
pub enum AccountSource {
    /// SimpleFIN account id (the part after `SIMPLEFIN-`).
    SimpleFin(String),
    /// LunchFlow account id (the number after `LUNCHFLOW-`).
    LunchFlow(i64),
    /// Reconciled pair, by its SimpleFIN id (the part after `REC-`).
    Reconciled(String),
}

/// The content of an account source.
pub enum Source {
    SimpleFin(Seq<char>),
    LunchFlow(i64),
    Reconciled(Seq<char>),
}

impl View for AccountSource {
    type V = Source;

    open spec fn view(&self) -> Source {
        match self {
            AccountSource::SimpleFin(id) => Source::SimpleFin(id@),
            AccountSource::LunchFlow(id) => Source::LunchFlow(*id),
            AccountSource::Reconciled(id) => Source::Reconciled(id@),
        }
    }
}

/// The source that an account id points to, told by its prefix.
pub open spec fn source_of(id: Seq<char>) -> Option<Source> {
    if "SIMPLEFIN-"@.is_prefix_of(id) {
        Some(Source::SimpleFin(id.skip("SIMPLEFIN-"@.len() as int)))
    } else if "LUNCHFLOW-"@.is_prefix_of(id) {
        match i64_value(id.skip("LUNCHFLOW-"@.len() as int)) {
            Some(n) => Some(Source::LunchFlow(n)),
            None => None,
        }
    } else if "REC-"@.is_prefix_of(id) {
        Some(Source::Reconciled(id.skip("REC-"@.len() as int)))
    } else {
        None
    }
}

proof fn lemma_stripped(id: Seq<char>, prefix: Seq<char>, rest: Seq<char>)
    requires
        id == prefix + rest,
    ensures
        prefix.is_prefix_of(id),
        id.skip(prefix.len() as int) == rest,
{
    assert(id.take(prefix.len() as int) =~= prefix);
    assert(id.skip(prefix.len() as int) =~= rest);
}

/// Reads an account id. Ids without a known prefix, and LunchFlow ids that are no
/// numbers, belong to no account.
pub fn parse_account_source(id: &str) -> (r: Result<AccountSource, AppError>)
    ensures
        match r {
            Ok(source) => source_of(id@) == Some(source@),
            Err(e) => source_of(id@) is None && e == AppError::AccountNotFound,
        },
{
    match strip_prefix(id, "SIMPLEFIN-") {
        Some(rest) => {
            proof {
                lemma_stripped(id@, "SIMPLEFIN-"@, rest@);
            }
            return Ok(AccountSource::SimpleFin(rest));
        },
        None => {},
    }
    match strip_prefix(id, "LUNCHFLOW-") {
        Some(rest) => {
            proof {
                lemma_stripped(id@, "LUNCHFLOW-"@, rest@);
            }
            return match parse_i64(rest.as_str()) {
                Some(n) => Ok(AccountSource::LunchFlow(n)),
                None => Err(AppError::AccountNotFound),
            };
        },
        None => {},
    }
    match strip_prefix(id, "REC-") {
        Some(rest) => {
            proof {
                lemma_stripped(id@, "REC-"@, rest@);
            }
            Ok(AccountSource::Reconciled(rest))
        },
        None => Err(AppError::AccountNotFound),
    }
}

/// Every id that accounts are listed under points back to the account it was made
/// for.
pub proof fn lemma_account_ids_read_back(id: Seq<char>, number: i64)
    ensures
        source_of("SIMPLEFIN-"@ + id) == Some(Source::SimpleFin(id)),
        source_of("LUNCHFLOW-"@ + decimal(number as int)) == Some(Source::LunchFlow(number)),
        source_of("REC-"@ + id) == Some(Source::Reconciled(id)),
{
    reveal_strlit("SIMPLEFIN-");
    reveal_strlit("LUNCHFLOW-");
    reveal_strlit("REC-");
    lemma_stripped("SIMPLEFIN-"@ + id, "SIMPLEFIN-"@, id);
    lemma_decimal_read_back(number as int);
    let lf = "LUNCHFLOW-"@ + decimal(number as int);
    lemma_stripped(lf, "LUNCHFLOW-"@, decimal(number as int));
    assert(lf[0] == 'L' && "SIMPLEFIN-"@[0] == 'S');
    let rec = "REC-"@ + id;
    lemma_stripped(rec, "REC-"@, id);
    assert(rec[0] == 'R' && "LUNCHFLOW-"@[0] == 'L');
}

// ---------------------------------------------------------------------------
// Readiness and lookup
// ---------------------------------------------------------------------------

/// Which providers are configured.
#[derive(Debug, Clone, Copy, PartialEq, Eq, Structural)]
pub struct Providers {
    /// A SimpleFIN access URL is available (token set or previously claimed).
    pub simplefin: bool,
    /// A LunchFlow API key is set.
    pub lunchflow: bool,
}

/// Whether some configured provider has data.
pub open spec fn is_ready(state: CacheState, providers: Providers) -> bool {
    ||| providers.simplefin && (state.last_fetched is Some || state.accounts@.len() > 0)
    ||| providers.lunchflow && state.lf_last_fetched is Some
}

/// `NotReady` while every configured provider has yet to complete its first fetch.
pub fn check_ready(state: &CacheState, providers: Providers) -> (r: Result<(), AppError>)
    ensures
        r == (if is_ready(*state, providers) {
            Ok(())
        } else {
            Err(AppError::NotReady)
        }),
{
    let sfin_ready: bool = providers.simplefin && (state.last_fetched.is_some()
        || state.accounts.len() > 0);
    let lf_ready: bool = providers.lunchflow && state.lf_last_fetched.is_some();
    if sfin_ready || lf_ready {
        Ok(())
    } else {
        Err(AppError::NotReady)
    }
}

/// The position, from `i` on, of the first account with the given id.
pub open spec fn position_of(accounts: Seq<CachedAccount>, id: Seq<char>, i: int) -> Option<int>
    decreases accounts.len() - i,
{
    if i < 0 || i >= accounts.len() {
        None
    } else if accounts[i].id@ == id {
        Some(i)
    } else {
        position_of(accounts, id, i + 1)
    }
}

/// The position of the first account with the given id.
pub fn find_account(accounts: &Vec<CachedAccount>, id: &String) -> (r: Option<usize>)
    ensures
        match r {
            Some(i) => i < accounts@.len() && position_of(accounts@, id@, 0) == Some(i as int)
                && accounts@[i as int].id@ == id@,
            None => position_of(accounts@, id@, 0) is None,
        },
{
    let mut i: usize = 0;
    while i < accounts.len()
        invariant
            i <= accounts@.len(),
            position_of(accounts@, id@, 0) == position_of(accounts@, id@, i as int),
        decreases accounts@.len() - i,
    {
        if accounts[i].id == *id {
            return Some(i);
        }
        i = i + 1;
    }
    None
}

/// Why a request for the data of a SimpleFIN account is refused: there is no data
/// at all, or no such account.
pub open spec fn refusal(state: CacheState, providers: Providers, id: Seq<char>) -> Option<AppError> {
    if !is_ready(state, providers) {
        Some(AppError::NotReady)
    } else if position_of(state.accounts@, id, 0) is None {
        Some(AppError::AccountNotFound)
    } else {
        None
    }
}

/// Why a request for the data of a reconciled pair is refused: its SimpleFIN account
/// is refused, or reconciliation has matched it with no LunchFlow account.
pub open spec fn pair_refusal(
    state: CacheState,
    providers: Providers,
    id: Seq<char>,
    matched: bool,
) -> Option<AppError> {
    match refusal(state, providers, id) {
        Some(e) => Some(e),
        None => if matched {
            None
        } else {
            Some(AppError::AccountNotFound)
        },
    }
}

/// Why a request for the data of an unknown LunchFlow account is refused: there is
/// no data at all, or no such account.
pub open spec fn lf_refusal(state: CacheState, providers: Providers) -> AppError {
    if is_ready(state, providers) {
        AppError::AccountNotFound
    } else {
        AppError::NotReady
    }
}

fn refuse_lf(state: &CacheState, providers: Providers) -> (r: AppError)
    ensures
        r == lf_refusal(*state, providers),
{
    match check_ready(state, providers) {
        Ok(_) => AppError::AccountNotFound,
        Err(e) => e,
    }
}

/// Checks that there is data and that a SimpleFIN account is known; gives its
/// position.
pub fn check_account(state: &CacheState, providers: Providers, id: &String) -> (r: Result<
    usize,
    AppError,
>)
    ensures
        match r {
            Ok(i) => refusal(*state, providers, id@) is None && i < state.accounts@.len()
                && position_of(state.accounts@, id@, 0) == Some(i as int)
                && state.accounts@[i as int].id@ == id@,
            Err(e) => refusal(*state, providers, id@) == Some(e),
        },
{
    match check_ready(state, providers) {
        Ok(_) => {},
        Err(e) => {
            return Err(e);
        },
    }
    match find_account(&state.accounts, id) {
        Some(i) => Ok(i),
        None => Err(AppError::AccountNotFound),
    }
}

/// Checks that there is data, and that an account is known and matched; gives its
/// position.
pub fn check_pair(state: &CacheState, providers: Providers, id: &String, matched: bool) -> (r: Result<
    usize,
    AppError,
>)
    ensures
        match r {
            Ok(i) => pair_refusal(*state, providers, id@, matched) is None && i
                < state.accounts@.len() && position_of(state.accounts@, id@, 0) == Some(i as int)
                && state.accounts@[i as int].id@ == id@,
            Err(e) => pair_refusal(*state, providers, id@, matched) == Some(e),
        },
{
    match check_account(state, providers, id) {
        Ok(i) => {
            if matched {
                Ok(i)
            } else {
                Err(AppError::AccountNotFound)
            }
        },
        Err(e) => Err(e),
    }
}

// ---------------------------------------------------------------------------
// Accounts
// ---------------------------------------------------------------------------

/// `r` is the FDX account of a reconciled pair: that of its SimpleFIN account,
/// with references to both sides, and possibly another name.
pub open spec fn is_reconciled_account(
    account: CachedAccount,
    lf: i64,
    name: Option<Seq<char>>,
    r: FdxAccount,
) -> bool {
    &&& r.account_id@ == "REC-"@ + account.id@
    &&& r.account_type@ == "OTHER"@
    &&& r.display_name@ == (match name {
        Some(n) => n,
        None => account.name@,
    })
    &&& r.currency.currency_code == account.currency
    &&& r.current_balance == amount_value(account.balance)
    &&& r.available_balance == amount_value_opt(account.available_balance)
    &&& is_timestamp(account.balance_date as int, r.balance_date@)
    &&& chars(r.simplefin_account_id) == Some("SIMPLEFIN-"@ + account.id@)
    &&& chars(r.lunchflow_account_id) == Some("LUNCHFLOW-"@ + decimal(lf as int))
}

fn reconciled_account(account: &CachedAccount, lf: i64, name: Option<&String>) -> (r: FdxAccount)
    ensures
        is_reconciled_account(
            *account,
            lf,
            match name {
                Some(n) => Some(n@),
                None => None,
            },
            r,
        ),
{
    let mut r: FdxAccount = cached_account_to_fdx(account, "REC-");
    let number: String = i64_text(lf);
    r.simplefin_account_id = Some(join("SIMPLEFIN-", account.id.as_str()));
    r.lunchflow_account_id = Some(join("LUNCHFLOW-", number.as_str()));
    match name {
        Some(n) => {
            r.display_name = n.clone();
        },
        None => {},
    }
    r
}

/// A pair of accounts that reconciliation matched.
#[derive(Debug)]
pub struct MatchedPair {
    pub sfin_account_id: Option<String>,
    pub lf_account_id: Option<i64>,
}

/// The name of the first LunchFlow account, from `i` on, with the given id.
pub open spec fn lf_name(accounts: Seq<LfAccountFull>, id: i64, i: int) -> Option<Seq<char>>
    decreases accounts.len() - i,
{
    if i < 0 || i >= accounts.len() {
        None
    } else if accounts[i].id == id {
        Some(accounts[i].name@)
    } else {
        lf_name(accounts, id, i + 1)
    }
}

/// Whether a text is among a list of texts.
pub open spec fn lists(list: Seq<String>, text: Seq<char>) -> bool {
    exists|i: int| 0 <= i < list.len() && (#[trigger] list[i])@ == text
}

/// The name that a pair is listed under in place of its SimpleFIN name: that of
/// its LunchFlow account, where the user prefers it and the account exists.
pub open spec fn preferred_name(
    preferences: Seq<String>,
    lf_accounts: Seq<LfAccountFull>,
    sfin: Seq<char>,
    lf: i64,
) -> Option<Seq<char>> {
    if lists(preferences, sfin) {
        lf_name(lf_accounts, lf, 0)
    } else {
        None
    }
}

/// The positions, among the first `n` pairs, of those that have both sides and
/// whose SimpleFIN account is in memory.
pub open spec fn listed_pairs(pairs: Seq<MatchedPair>, accounts: Seq<CachedAccount>, n: int) -> Seq<
    int,
>
    decreases n,
{
    if n <= 0 {
        Seq::empty()
    } else {
        let before = listed_pairs(pairs, accounts, n - 1);
        match (pairs[n - 1].sfin_account_id, pairs[n - 1].lf_account_id) {
            (Some(sfin), Some(_)) => if position_of(accounts, sfin@, 0) is Some {
                before.push(n - 1)
            } else {
                before
            },
            _ => before,
        }
    }
}

/// `r` is the account of a listed pair.
pub open spec fn is_pair_account(
    pair: MatchedPair,
    state: CacheState,
    lf_accounts: Seq<LfAccountFull>,
    preferences: Seq<String>,
    r: FdxAccount,
) -> bool {
    let sfin = pair.sfin_account_id->0@;
    let lf = pair.lf_account_id->0;
    is_reconciled_account(
        state.accounts@[position_of(state.accounts@, sfin, 0)->0],
        lf,
        preferred_name(preferences, lf_accounts, sfin, lf),
        r,
    )
}

fn find_lf_name<'a>(accounts: &'a Vec<LfAccountFull>, id: i64) -> (r: Option<&'a String>)
    ensures
        (match r {
            Some(name) => Some(name@),
            None => None,
        }) == lf_name(accounts@, id, 0),
{
    let mut i: usize = 0;
    while i < accounts.len()
        invariant
            i <= accounts@.len(),
            lf_name(accounts@, id, 0) == lf_name(accounts@, id, i as int),
        decreases accounts@.len() - i,
    {
        if accounts[i].id == id {
            return Some(&accounts[i].name);
        }
        i = i + 1;
    }
    None
}

fn is_listed(list: &Vec<String>, text: &String) -> (r: bool)
    ensures
        r == lists(list@, text@),
{
    let mut i: usize = 0;
    while i < list.len()
        invariant
            i <= list@.len(),
            forall|j: int| 0 <= j < i ==> (#[trigger] list@[j])@ != text@,
        decreases list@.len() - i,
    {
        if list[i] == *text {
            return true;
        }
        i = i + 1;
    }
    false
}

/// What is stored of accounts, beside what is in memory.
#[derive(Debug)]
pub struct StoredAccounts {
    pub lf_accounts: Vec<LfAccountFull>,
    pub pairs: Vec<MatchedPair>,
    /// SimpleFIN ids of pairs that go by their LunchFlow name.
    pub lf_name_preferences: Vec<String>,
}

/// The pairs that are listed: none unless both providers are configured.
pub open spec fn pairs_listed(state: CacheState, providers: Providers, stored: StoredAccounts) -> Seq<
    int,
> {
    if providers.simplefin && providers.lunchflow {
        listed_pairs(stored.pairs@, state.accounts@, stored.pairs@.len() as int)
    } else {
        Seq::empty()
    }
}

/// Whether one of the listed pairs is of the given SimpleFIN account.
pub open spec fn pairs_name_sfin(pairs: Seq<MatchedPair>, listed: Seq<int>, id: Seq<char>) -> bool {
    exists|k: int|
        0 <= k < listed.len() && chars(pairs[#[trigger] listed[k]].sfin_account_id) == Some(id)
}

/// Whether one of the listed pairs is of the given LunchFlow account.
pub open spec fn pairs_name_lf(pairs: Seq<MatchedPair>, listed: Seq<int>, id: i64) -> bool {
    exists|k: int|
        0 <= k < listed.len() && pairs[#[trigger] listed[k]].lf_account_id == Some(id)
}

/// The positions, among the first `n` SimpleFIN accounts, of those that no listed
/// pair names.
pub open spec fn unpaired_sfin(
    accounts: Seq<CachedAccount>,
    pairs: Seq<MatchedPair>,
    listed: Seq<int>,
    n: int,
) -> Seq<int>
    decreases n,
{
    if n <= 0 {
        Seq::empty()
    } else {
        let before = unpaired_sfin(accounts, pairs, listed, n - 1);
        if pairs_name_sfin(pairs, listed, accounts[n - 1].id@) {
            before
        } else {
            before.push(n - 1)
        }
    }
}

/// The positions, among the first `n` LunchFlow accounts, of those that no listed
/// pair names.
pub open spec fn unpaired_lf(
    accounts: Seq<LfAccountFull>,
    pairs: Seq<MatchedPair>,
    listed: Seq<int>,
    n: int,
) -> Seq<int>
    decreases n,
{
    if n <= 0 {
        Seq::empty()
    } else {
        let before = unpaired_lf(accounts, pairs, listed, n - 1);
        if pairs_name_lf(pairs, listed, accounts[n - 1].id) {
            before
        } else {
            before.push(n - 1)
        }
    }
}

/// The SimpleFIN accounts that are listed under their own id.
pub open spec fn sfin_listed(state: CacheState, providers: Providers, stored: StoredAccounts) -> Seq<
    int,
> {
    if providers.simplefin {
        unpaired_sfin(
            state.accounts@,
            stored.pairs@,
            pairs_listed(state, providers, stored),
            state.accounts@.len() as int,
        )
    } else {
        Seq::empty()
    }
}

/// The LunchFlow accounts that are listed under their own id.
pub open spec fn lf_listed(state: CacheState, providers: Providers, stored: StoredAccounts) -> Seq<
    int,
> {
    if providers.lunchflow {
        unpaired_lf(
            stored.lf_accounts@,
            stored.pairs@,
            pairs_listed(state, providers, stored),
            stored.lf_accounts@.len() as int,
        )
    } else {
        Seq::empty()
    }
}

/// `list` holds the SimpleFIN accounts, then the LunchFlow accounts, of configured
/// providers that are in no listed pair, and then the listed pairs.
pub open spec fn is_account_list(
    state: CacheState,
    providers: Providers,
    stored: StoredAccounts,
    list: Seq<FdxAccount>,
) -> bool {
    let sfin = sfin_listed(state, providers, stored);
    let lf = lf_listed(state, providers, stored);
    let pairs = pairs_listed(state, providers, stored);
    let a = sfin.len() as int;
    let b = a + lf.len();
    &&& list.len() == b + pairs.len()
    &&& forall|i: int|
        0 <= i < sfin.len() ==> is_cached_account(
            state.accounts@[sfin[i]],
            "SIMPLEFIN-"@,
            #[trigger] list[i],
        )
    &&& forall|i: int|
        0 <= i < lf.len() ==> is_lf_account(stored.lf_accounts@[lf[i]], #[trigger] list[a + i])
    &&& forall|i: int|
        0 <= i < pairs.len() ==> is_pair_account(
            stored.pairs@[pairs[i]],
            state,
            stored.lf_accounts@,
            stored.lf_name_preferences@,
            #[trigger] list[b + i],
        )
}

/// `found` holds the given positions.
spec fn are_positions(found: Seq<usize>, positions: Seq<int>) -> bool {
    &&& found.len() == positions.len()
    &&& forall|i: int| 0 <= i < found.len() ==> (#[trigger] found[i]) as int == positions[i]
}

fn pairs_to_list(state: &CacheState, providers: Providers, stored: &StoredAccounts) -> (r: Vec<usize>)
    ensures
        are_positions(r@, pairs_listed(*state, providers, *stored)),
{
    let mut r: Vec<usize> = Vec::new();
    if !(providers.simplefin && providers.lunchflow) {
        return r;
    }
    let mut n: usize = 0;
    while n < stored.pairs.len()
        invariant
            n <= stored.pairs@.len(),
            are_positions(r@, listed_pairs(stored.pairs@, state.accounts@, n as int)),
        decreases stored.pairs@.len() - n,
    {
        match (&stored.pairs[n].sfin_account_id, stored.pairs[n].lf_account_id) {
            (Some(sfin), Some(_)) => {
                if find_account(&state.accounts, sfin).is_some() {
                    r.push(n);
                }
            },
            _ => {},
        }
        n = n + 1;
    }
    r
}

fn is_sfin_named(pairs: &Vec<MatchedPair>, listed: &Vec<usize>, id: &String, Ghost(positions): Ghost<
    Seq<int>,
>) -> (r: bool)
    requires
        are_positions(listed@, positions),
        forall|k: int| 0 <= k < positions.len() ==> 0 <= #[trigger] positions[k] < pairs@.len(),
    ensures
        r == pairs_name_sfin(pairs@, positions, id@),
{
    let mut k: usize = 0;
    while k < listed.len()
        invariant
            k <= listed@.len(),
            are_positions(listed@, positions),
            forall|k: int| 0 <= k < positions.len() ==> 0 <= #[trigger] positions[k] < pairs@.len(),
            forall|j: int|
                0 <= j < k ==> chars(pairs@[#[trigger] positions[j]].sfin_account_id) != Some(id@),
        decreases listed@.len() - k,
    {
        assert(listed@[k as int] as int == positions[k as int]);
        match &pairs[listed[k]].sfin_account_id {
            Some(sfin) => {
                if *sfin == *id {
                    return true;
                }
            },
            None => {},
        }
        k = k + 1;
    }
    false
}

fn is_lf_named(pairs: &Vec<MatchedPair>, listed: &Vec<usize>, id: i64, Ghost(positions): Ghost<
    Seq<int>,
>) -> (r: bool)
    requires
        are_positions(listed@, positions),
        forall|k: int| 0 <= k < positions.len() ==> 0 <= #[trigger] positions[k] < pairs@.len(),
    ensures
        r == pairs_name_lf(pairs@, positions, id),
{
    let mut k: usize = 0;
    while k < listed.len()
        invariant
            k <= listed@.len(),
            are_positions(listed@, positions),
            forall|k: int| 0 <= k < positions.len() ==> 0 <= #[trigger] positions[k] < pairs@.len(),
            forall|j: int|
                0 <= j < k ==> pairs@[#[trigger] positions[j]].lf_account_id != Some(id),
        decreases listed@.len() - k,
    {
        assert(listed@[k as int] as int == positions[k as int]);
        match pairs[listed[k]].lf_account_id {
            Some(lf) => {
                if lf == id {
                    return true;
                }
            },
            None => {},
        }
        k = k + 1;
    }
    false
}

fn push_sfin_accounts(
    state: &CacheState,
    providers: Providers,
    stored: &StoredAccounts,
    listed: &Vec<usize>,
    accounts: &mut Vec<FdxAccount>,
)
    requires
        old(accounts)@.len() == 0,
        are_positions(listed@, pairs_listed(*state, providers, *stored)),
    ensures
        ({
            let sfin = sfin_listed(*state, providers, *stored);
            &&& final(accounts)@.len() == sfin.len()
            &&& forall|i: int|
                0 <= i < sfin.len() ==> is_cached_account(
                    state.accounts@[sfin[i]],
                    "SIMPLEFIN-"@,
                    #[trigger] final(accounts)@[i],
                )
        }),
{
    if !providers.simplefin {
        return;
    }
    let ghost pairs = pairs_listed(*state, providers, *stored);
    proof {
        lemma_listed_pairs(stored.pairs@, state.accounts@, stored.pairs@.len() as int);
    }
    let mut n: usize = 0;
    while n < state.accounts.len()
        invariant
            n <= state.accounts@.len(),
            are_positions(listed@, pairs),
            forall|k: int|
                0 <= k < pairs.len() ==> 0 <= #[trigger] pairs[k] < stored.pairs@.len(),
            accounts@.len() == unpaired_sfin(state.accounts@, stored.pairs@, pairs, n as int).len(),
            forall|i: int|
                0 <= i < accounts@.len() ==> is_cached_account(
                    state.accounts@[unpaired_sfin(
                        state.accounts@,
                        stored.pairs@,
                        pairs,
                        n as int,
                    )[i]],
                    "SIMPLEFIN-"@,
                    #[trigger] accounts@[i],
                ),
        decreases state.accounts@.len() - n,
    {
        if !is_sfin_named(&stored.pairs, listed, &state.accounts[n].id, Ghost(pairs)) {
            accounts.push(cached_account_to_fdx(&state.accounts[n], "SIMPLEFIN-"));
        }
        n = n + 1;
    }
}

fn unpaired_lf_accounts(
    state: &CacheState,
    providers: Providers,
    stored: &StoredAccounts,
    listed: &Vec<usize>,
) -> (r: Vec<FdxAccount>)
    requires
        are_positions(listed@, pairs_listed(*state, providers, *stored)),
    ensures
        ({
            let lf = lf_listed(*state, providers, *stored);
            &&& r@.len() == lf.len()
            &&& forall|i: int|
                0 <= i < lf.len() ==> is_lf_account(
                    stored.lf_accounts@[lf[i]],
                    #[trigger] r@[i],
                )
        }),
{
    let mut r: Vec<FdxAccount> = Vec::new();
    if !providers.lunchflow {
        return r;
    }
    let ghost pairs = pairs_listed(*state, providers, *stored);
    proof {
        lemma_listed_pairs(stored.pairs@, state.accounts@, stored.pairs@.len() as int);
    }
    let mut n: usize = 0;
    while n < stored.lf_accounts.len()
        invariant
            n <= stored.lf_accounts@.len(),
            are_positions(listed@, pairs),
            forall|k: int|
                0 <= k < pairs.len() ==> 0 <= #[trigger] pairs[k] < stored.pairs@.len(),
            r@.len() == unpaired_lf(stored.lf_accounts@, stored.pairs@, pairs, n as int).len(),
            forall|i: int|
                0 <= i < r@.len() ==> is_lf_account(
                    stored.lf_accounts@[unpaired_lf(
                        stored.lf_accounts@,
                        stored.pairs@,
                        pairs,
                        n as int,
                    )[i]],
                    #[trigger] r@[i],
                ),
        decreases stored.lf_accounts@.len() - n,
    {
        if !is_lf_named(&stored.pairs, listed, stored.lf_accounts[n].id, Ghost(pairs)) {
            r.push(lf_account_to_fdx(&stored.lf_accounts[n]));
        }
        n = n + 1;
    }
    r
}

fn pair_accounts(
    state: &CacheState,
    providers: Providers,
    stored: &StoredAccounts,
    listed: &Vec<usize>,
) -> (r: Vec<FdxAccount>)
    requires
        are_positions(listed@, pairs_listed(*state, providers, *stored)),
    ensures
        ({
            let pairs = pairs_listed(*state, providers, *stored);
            &&& r@.len() == pairs.len()
            &&& forall|i: int|
                0 <= i < pairs.len() ==> is_pair_account(
                    stored.pairs@[pairs[i]],
                    *state,
                    stored.lf_accounts@,
                    stored.lf_name_preferences@,
                    #[trigger] r@[i],
                )
        }),
{
    let ghost pairs = pairs_listed(*state, providers, *stored);
    proof {
        lemma_listed_pairs(stored.pairs@, state.accounts@, stored.pairs@.len() as int);
    }
    let mut r: Vec<FdxAccount> = Vec::new();
    let mut k: usize = 0;
    while k < listed.len()
        invariant
            k <= listed@.len(),
            are_positions(listed@, pairs),
            forall|i: int|
                0 <= i < pairs.len() ==> {
                    let p = #[trigger] pairs[i];
                    &&& 0 <= p < stored.pairs@.len()
                    &&& stored.pairs@[p].sfin_account_id is Some
                    &&& stored.pairs@[p].lf_account_id is Some
                    &&& position_of(
                        state.accounts@,
                        stored.pairs@[p].sfin_account_id->0@,
                        0,
                    ) is Some
                },
            r@.len() == k,
            forall|i: int|
                0 <= i < k ==> is_pair_account(
                    stored.pairs@[pairs[i]],
                    *state,
                    stored.lf_accounts@,
                    stored.lf_name_preferences@,
                    #[trigger] r@[i],
                ),
        decreases listed@.len() - k,
    {
        assert(listed@[k as int] as int == pairs[k as int]);
        let pair: &MatchedPair = &stored.pairs[listed[k]];
        match (&pair.sfin_account_id, pair.lf_account_id) {
            (Some(sfin), Some(lf)) => {
                match find_account(&state.accounts, sfin) {
                    Some(i) => {
                        let name: Option<&String> = if is_listed(
                            &stored.lf_name_preferences,
                            sfin,
                        ) {
                            find_lf_name(&stored.lf_accounts, lf)
                        } else {
                            None
                        };
                        r.push(reconciled_account(&state.accounts[i], lf, name));
                    },
                    None => {},
                }
            },
            _ => {},
        }
        k = k + 1;
    }
    r
}

/// Lists accounts. The two accounts of a matched pair are listed as one `REC-`
/// account; `SIMPLEFIN-` and `LUNCHFLOW-` entries are for accounts without a match.
pub fn list_accounts(state: &CacheState, providers: Providers, stored: &StoredAccounts) -> (r: Result<
    FdxAccountList,
    AppError,
>)
    ensures
        match r {
            Ok(list) => {
                &&& is_ready(*state, providers)
                &&& is_account_list(*state, providers, *stored, list.accounts@)
                &&& list.page.total == list.accounts@.len()
            },
            Err(e) => !is_ready(*state, providers) && e == AppError::NotReady,
        },
{
    match check_ready(state, providers) {
        Ok(_) => {},
        Err(e) => {
            return Err(e);
        },
    }
    let listed: Vec<usize> = pairs_to_list(state, providers, stored);
    let mut accounts: Vec<FdxAccount> = Vec::new();
    push_sfin_accounts(state, providers, stored, &listed, &mut accounts);
    let mut lf: Vec<FdxAccount> = unpaired_lf_accounts(state, providers, stored, &listed);
    let mut pairs: Vec<FdxAccount> = pair_accounts(state, providers, stored, &listed);
    let ghost first = accounts@;
    let ghost second = lf@;
    let ghost third = pairs@;
    accounts.append(&mut lf);
    accounts.append(&mut pairs);
    proof {
        let a = first.len() as int;
        let b = a + second.len();
        assert(accounts@ =~= first + second + third);
        assert forall|i: int| 0 <= i < second.len() implies is_lf_account(
            stored.lf_accounts@[lf_listed(*state, providers, *stored)[i]],
            #[trigger] accounts@[a + i],
        ) by {
            assert(accounts@[a + i] == second[i]);
        }
        assert forall|i: int| 0 <= i < third.len() implies is_pair_account(
            stored.pairs@[pairs_listed(*state, providers, *stored)[i]],
            *state,
            stored.lf_accounts@,
            stored.lf_name_preferences@,
            #[trigger] accounts@[b + i],
        ) by {
            assert(accounts@[b + i] == third[i]);
        }
        assert forall|i: int| 0 <= i < first.len() implies is_cached_account(
            state.accounts@[sfin_listed(*state, providers, *stored)[i]],
            "SIMPLEFIN-"@,
            #[trigger] accounts@[i],
        ) by {
            assert(accounts@[i] == first[i]);
        }
    }
    let total: usize = accounts.len();
    Ok(FdxAccountList { accounts, page: FdxPage { total } })
}

/// What is stored of the LunchFlow side of a reconciled account.
#[derive(Debug)]
pub struct MatchedAccount {
    pub lf_account_id: Option<i64>,
    pub lf_name: Option<String>,
    /// `"simplefin"` or `"lunchflow"`.
    pub preferred_source: String,
}

/// What is stored of a single account.
#[derive(Debug)]
pub struct StoredAccount {
    /// The LunchFlow account, for a `LUNCHFLOW-` id.
    pub lf_account: Option<LfAccountFull>,
    /// The matched LunchFlow side, for a `REC-` id.
    pub matched: Option<MatchedAccount>,
}

/// The LunchFlow account that a reconciled account is matched with.
pub open spec fn matched_lf(matched: Option<MatchedAccount>) -> Option<i64> {
    match matched {
        Some(m) => m.lf_account_id,
        None => None,
    }
}

/// The name that a reconciled account goes by in place of its SimpleFIN name.
pub open spec fn matched_name(matched: Option<MatchedAccount>) -> Option<Seq<char>> {
    match matched {
        Some(m) => if m.preferred_source@ == "lunchflow"@ {
            chars(m.lf_name)
        } else {
            None
        },
        None => None,
    }
}

/// The account with the given id.
pub fn get_account(
    account_id: &str,
    state: &CacheState,
    providers: Providers,
    stored: &StoredAccount,
) -> (r: Result<FdxAccount, AppError>)
    ensures
        match source_of(account_id@) {
            None => r == Err::<FdxAccount, AppError>(AppError::AccountNotFound),
            Some(Source::LunchFlow(_)) => match (stored.lf_account, r) {
                (Some(account), Ok(fdx)) => is_lf_account(account, fdx),
                (None, Err(e)) => e == lf_refusal(*state, providers),
                _ => false,
            },
            Some(Source::SimpleFin(id)) => match (refusal(*state, providers, id), r) {
                (Some(e), Err(e2)) => e == e2,
                (None, Ok(fdx)) => is_cached_account(
                    state.accounts@[position_of(state.accounts@, id, 0)->0],
                    "SIMPLEFIN-"@,
                    fdx,
                ),
                _ => false,
            },
            Some(Source::Reconciled(id)) => match (
                pair_refusal(*state, providers, id, matched_lf(stored.matched) is Some),
                r,
            ) {
                (Some(e), Err(e2)) => e == e2,
                (None, Ok(fdx)) => is_reconciled_account(
                    state.accounts@[position_of(state.accounts@, id, 0)->0],
                    matched_lf(stored.matched)->0,
                    matched_name(stored.matched),
                    fdx,
                ),
                _ => false,
            },
        },
{
    match parse_account_source(account_id) {
        Err(e) => Err(e),
        Ok(AccountSource::SimpleFin(id)) => match check_account(state, providers, &id) {
            Ok(i) => Ok(cached_account_to_fdx(&state.accounts[i], "SIMPLEFIN-")),
            Err(e) => Err(e),
        },
        Ok(AccountSource::LunchFlow(_)) => match &stored.lf_account {
            Some(account) => Ok(lf_account_to_fdx(account)),
            None => Err(refuse_lf(state, providers)),
        },
        Ok(AccountSource::Reconciled(id)) => {
            let lf: Option<i64> = match &stored.matched {
                Some(m) => m.lf_account_id,
                None => None,
            };
            match (check_pair(state, providers, &id, lf.is_some()), lf, &stored.matched) {
                (Ok(i), Some(lf), Some(m)) => {
                    let name: Option<&String> = if same_text(
                        m.preferred_source.as_str(),
                        "lunchflow",
                    ) {
                        m.lf_name.as_ref()
                    } else {
                        None
                    };
                    Ok(reconciled_account(&state.accounts[i], lf, name))
                },
                (Err(e), _, _) => Err(e),
                _ => Err(AppError::AccountNotFound),
            }
        },
    }
}

// ---------------------------------------------------------------------------
// Transactions
// ---------------------------------------------------------------------------

/// Parameters of a request for transactions.
#[derive(Debug)]
pub struct TransactionQuery {
    /// Include transactions posted on or after this time (RFC 3339).
    pub start_time: Option<String>,
    /// Include transactions posted on or before this time (RFC 3339).
    pub end_time: Option<String>,
}

/// The timestamp of an RFC 3339 text; absent where the text is none.
pub fn parse_iso8601(s: &str) -> (r: Option<i64>)
    ensures
        r == parsed_rfc3339(s@),
        reads_timestamps(s@, r),
{
    chrono_parse_rfc3339(s)
}

/// The timestamp of an optional text.
pub open spec fn time_in(text: Option<String>) -> Option<i64> {
    match text {
        Some(t) => parsed_rfc3339(t@),
        None => None,
    }
}

impl TransactionQuery {
    /// The range of timestamps asked for. A bound that is no timestamp counts as
    /// absent.
    pub fn bounds(&self) -> (r: (Option<i64>, Option<i64>))
        ensures
            r.0 == time_in(self.start_time),
            r.1 == time_in(self.end_time),
            self.start_time matches Some(t) ==> r.0 == parsed_rfc3339(t@),
            self.start_time is None ==> r.0 is None,
            self.end_time matches Some(t) ==> r.1 == parsed_rfc3339(t@),
            self.end_time is None ==> r.1 is None,
    {
        let start: Option<i64> = match &self.start_time {
            Some(t) => parse_iso8601(t.as_str()),
            None => None,
        };
        let end: Option<i64> = match &self.end_time {
            Some(t) => parse_iso8601(t.as_str()),
            None => None,
        };
        (start, end)
    }
}

/// What is stored of the transactions of an account, for the range asked for.
#[derive(Debug)]
pub struct StoredTransactions {
    /// For a `SIMPLEFIN-` id.
    pub rows: Vec<TransactionRow>,
    /// For a `LUNCHFLOW-` id.
    pub lf_rows: Vec<LfTransactionRow>,
    /// Whether the LunchFlow account exists; looked at only where `lf_rows` is empty.
    pub lf_account_exists: bool,
    /// Whether reconciliation matched the account, for a `REC-` id.
    pub matched: bool,
    /// For a `REC-` id.
    pub unified: Vec<UnifiedTransaction>,
}

/// `list` holds the transactions of SimpleFIN rows, in order.
pub open spec fn are_row_transactions(rows: Seq<TransactionRow>, list: FdxTransactionList) -> bool {
    &&& list.transactions@.len() == rows.len()
    &&& list.page.total == rows.len()
    &&& forall|i: int|
        0 <= i < rows.len() ==> is_row_transaction(rows[i], #[trigger] list.transactions@[i])
}

/// `list` holds the transactions of LunchFlow rows, in order.
pub open spec fn are_lf_transactions(rows: Seq<LfTransactionRow>, list: FdxTransactionList) -> bool {
    &&& list.transactions@.len() == rows.len()
    &&& list.page.total == rows.len()
    &&& forall|i: int|
        0 <= i < rows.len() ==> is_lf_transaction(
            rows[i].id@,
            rows[i].amount,
            date_timestamp(rows[i].date@) as int,
            rows[i].merchant,
            rows[i].description,
            rows[i].is_pending,
            #[trigger] list.transactions@[i],
        ) && is_plain(list.transactions@[i])
}

/// `list` holds unified transactions, in order.
pub open spec fn are_unified_transactions(rows: Seq<UnifiedTransaction>, list: FdxTransactionList) -> bool {
    &&& list.transactions@.len() == rows.len()
    &&& list.page.total == rows.len()
    &&& forall|i: int|
        0 <= i < rows.len() ==> is_unified_transaction(
            rows[i],
            lf_posted_of(rows[i]),
            #[trigger] list.transactions@[i],
        )
}

fn transaction_list(transactions: Vec<FdxTransaction>) -> (r: FdxTransactionList)
    ensures
        r.transactions == transactions,
        r.page.total == transactions@.len(),
{
    let total: usize = transactions.len();
    FdxTransactionList { transactions, page: FdxPage { total } }
}

fn row_transactions(rows: &Vec<TransactionRow>) -> (r: FdxTransactionList)
    ensures
        are_row_transactions(rows@, r),
{
    let mut list: Vec<FdxTransaction> = Vec::new();
    let mut i: usize = 0;
    while i < rows.len()
        invariant
            i <= rows@.len(),
            list@.len() == i,
            forall|k: int| 0 <= k < i ==> is_row_transaction(rows@[k], #[trigger] list@[k]),
        decreases rows@.len() - i,
    {
        list.push(transaction_row_to_fdx(&rows[i]));
        i = i + 1;
    }
    transaction_list(list)
}

fn lf_transactions(rows: &Vec<LfTransactionRow>) -> (r: FdxTransactionList)
    ensures
        are_lf_transactions(rows@, r),
{
    let mut list: Vec<FdxTransaction> = Vec::new();
    let mut i: usize = 0;
    while i < rows.len()
        invariant
            i <= rows@.len(),
            list@.len() == i,
            forall|k: int|
                0 <= k < i ==> is_lf_transaction(
                    rows@[k].id@,
                    rows@[k].amount,
                    date_timestamp(rows@[k].date@) as int,
                    rows@[k].merchant,
                    rows@[k].description,
                    rows@[k].is_pending,
                    #[trigger] list@[k],
                ) && is_plain(list@[k]),
        decreases rows@.len() - i,
    {
        list.push(
            lf_transaction_to_fdx(
                &rows[i].id,
                rows[i].amount,
                rows[i].date.as_str(),
                &rows[i].merchant,
                &rows[i].description,
                rows[i].is_pending,
            ),
        );
        i = i + 1;
    }
    transaction_list(list)
}

fn unified_transactions(rows: &Vec<UnifiedTransaction>) -> (r: FdxTransactionList)
    ensures
        are_unified_transactions(rows@, r),
{
    let mut list: Vec<FdxTransaction> = Vec::new();
    let mut i: usize = 0;
    while i < rows.len()
        invariant
            i <= rows@.len(),
            list@.len() == i,
            forall|k: int|
                0 <= k < i ==> is_unified_transaction(
                    rows@[k],
                    lf_posted_of(rows@[k]),
                    #[trigger] list@[k],
                ),
        decreases rows@.len() - i,
    {
        list.push(unified_transaction_to_fdx(&rows[i]));
        i = i + 1;
    }
    transaction_list(list)
}

/// Lists the transactions of an account.
pub fn list_transactions(
    account_id: &str,
    state: &CacheState,
    providers: Providers,
    stored: &StoredTransactions,
) -> (r: Result<FdxTransactionList, AppError>)
    ensures
        match source_of(account_id@) {
            None => r == Err::<FdxTransactionList, AppError>(AppError::AccountNotFound),
            Some(Source::SimpleFin(id)) => match (refusal(*state, providers, id), r) {
                (Some(e), Err(e2)) => e == e2,
                (None, Ok(list)) => are_row_transactions(stored.rows@, list),
                _ => false,
            },
            Some(Source::LunchFlow(_)) => match r {
                Ok(list) => (stored.lf_rows@.len() > 0 || stored.lf_account_exists)
                    && are_lf_transactions(stored.lf_rows@, list),
                Err(e) => stored.lf_rows@.len() == 0 && !stored.lf_account_exists && e
                    == lf_refusal(*state, providers),
            },
            Some(Source::Reconciled(id)) => match (
                pair_refusal(*state, providers, id, stored.matched),
                r,
            ) {
                (Some(e), Err(e2)) => e == e2,
                (None, Ok(list)) => are_unified_transactions(stored.unified@, list),
                _ => false,
            },
        },
{
    match parse_account_source(account_id) {
        Err(e) => Err(e),
        Ok(AccountSource::SimpleFin(id)) => match check_account(state, providers, &id) {
            Ok(_) => Ok(row_transactions(&stored.rows)),
            Err(e) => Err(e),
        },
        Ok(AccountSource::LunchFlow(_)) => {
            if stored.lf_rows.len() == 0 && !stored.lf_account_exists {
                Err(refuse_lf(state, providers))
            } else {
                Ok(lf_transactions(&stored.lf_rows))
            }
        },
        Ok(AccountSource::Reconciled(id)) => match check_pair(
            state,
            providers,
            &id,
            stored.matched,
        ) {
            Ok(_) => Ok(unified_transactions(&stored.unified)),
            Err(e) => Err(e),
        },
    }
}

// ---------------------------------------------------------------------------
// Holdings
// ---------------------------------------------------------------------------

/// What is stored of the holdings of an account.
#[derive(Debug)]
pub struct StoredHoldings {
    /// For a `SIMPLEFIN-` or `REC-` id.
    pub rows: Vec<HoldingRow>,
    /// Whether the LunchFlow account exists, for a `LUNCHFLOW-` id.
    pub lf_account_exists: bool,
    /// Whether reconciliation matched the account, for a `REC-` id.
    pub matched: bool,
}

/// `list` holds the holdings of rows, in order.
pub open spec fn are_holdings(rows: Seq<HoldingRow>, list: FdxHoldingList) -> bool {
    &&& list.holdings@.len() == rows.len()
    &&& list.page.total == rows.len()
    &&& forall|i: int| 0 <= i < rows.len() ==> is_holding(rows[i], #[trigger] list.holdings@[i])
}

fn holding_list(rows: &Vec<HoldingRow>) -> (r: FdxHoldingList)
    ensures
        are_holdings(rows@, r),
{
    let mut list: Vec<FdxHolding> = Vec::new();
    let mut i: usize = 0;
    while i < rows.len()
        invariant
            i <= rows@.len(),
            list@.len() == i,
            forall|k: int| 0 <= k < i ==> is_holding(rows@[k], #[trigger] list@[k]),
        decreases rows@.len() - i,
    {
        list.push(holding_row_to_fdx(&rows[i]));
        i = i + 1;
    }
    let total: usize = list.len();
    FdxHoldingList { holdings: list, page: FdxPage { total } }
}

/// Lists the holdings of an account. Holdings come from SimpleFIN for `SIMPLEFIN-`
/// and `REC-` accounts; `LUNCHFLOW-` accounts have an empty list.
pub fn list_holdings(
    account_id: &str,
    state: &CacheState,
    providers: Providers,
    stored: &StoredHoldings,
) -> (r: Result<FdxHoldingList, AppError>)
    ensures
        match source_of(account_id@) {
            None => r == Err::<FdxHoldingList, AppError>(AppError::AccountNotFound),
            Some(Source::LunchFlow(_)) => match r {
                Ok(list) => stored.lf_account_exists && list.holdings@.len() == 0 && list.page.total
                    == 0,
                Err(e) => !stored.lf_account_exists && e == lf_refusal(*state, providers),
            },
            Some(Source::SimpleFin(id)) => match (refusal(*state, providers, id), r) {
                (Some(e), Err(e2)) => e == e2,
                (None, Ok(list)) => are_holdings(stored.rows@, list),
                _ => false,
            },
            Some(Source::Reconciled(id)) => match (
                pair_refusal(*state, providers, id, stored.matched),
                r,
            ) {
                (Some(e), Err(e2)) => e == e2,
                (None, Ok(list)) => are_holdings(stored.rows@, list),
                _ => false,
            },
        },
{
    match parse_account_source(account_id) {
        Err(e) => Err(e),
        Ok(AccountSource::LunchFlow(_)) => {
            if stored.lf_account_exists {
                Ok(FdxHoldingList { holdings: Vec::new(), page: FdxPage { total: 0 } })
            } else {
                Err(refuse_lf(state, providers))
            }
        },
        Ok(AccountSource::SimpleFin(id)) => match check_account(state, providers, &id) {
            Ok(_) => Ok(holding_list(&stored.rows)),
            Err(e) => Err(e),
        },
        Ok(AccountSource::Reconciled(id)) => match check_pair(
            state,
            providers,
            &id,
            stored.matched,
        ) {
            Ok(_) => Ok(holding_list(&stored.rows)),
            Err(e) => Err(e),
        },
    }
}

// ---------------------------------------------------------------------------
// Health
// ---------------------------------------------------------------------------

/// `text` is the time of a fetch, present exactly where there was one and its
/// provider is configured.
pub open spec fn is_fetch_time(fetched: Option<i64>, configured: bool, text: Option<String>) -> bool {
    match (fetched, text) {
        (Some(ts), Some(t)) => configured && is_timestamp(ts as int, t@),
        (_, None) => fetched is None || !configured,
        (None, Some(_)) => false,
    }
}

fn fetch_time(fetched: Option<i64>, configured: bool) -> (r: Option<String>)
    ensures
        is_fetch_time(fetched, configured, r),
{
    match fetched {
        Some(ts) => {
            if configured {
                Some(unix_to_rfc3339(ts))
            } else {
                None
            }
        },
        None => None,
    }
}

/// The health of the service: degraded while the last fetch of some provider
/// failed.
pub fn health(state: &CacheState, providers: Providers) -> (r: HealthResponse)
    ensures
        r.status@ == (if state.fetch_error is Some || state.lf_fetch_error is Some {
            "degraded"@
        } else {
            "ok"@
        }),
        is_fetch_time(state.last_fetched, providers.simplefin, r.last_fetched),
        r.fetch_error == state.fetch_error,
        is_fetch_time(state.lf_last_fetched, providers.lunchflow, r.lf_last_fetched),
        r.lf_fetch_error == state.lf_fetch_error,
{
    HealthResponse {
        status: if state.fetch_error.is_some() || state.lf_fetch_error.is_some() {
            "degraded"
        } else {
            "ok"
        },
        last_fetched: fetch_time(state.last_fetched, providers.simplefin),
        fetch_error: state.fetch_error.clone(),
        lf_last_fetched: fetch_time(state.lf_last_fetched, providers.lunchflow),
        lf_fetch_error: state.lf_fetch_error.clone(),
    }
}

// ---------------------------------------------------------------------------
// Reconciliation management
// ---------------------------------------------------------------------------

/// A request to create a rule.
#[derive(Debug)]
pub struct CreateRuleRequest {
    pub sfin_account_id: Option<String>,
    pub lf_account_id: Option<i64>,
    pub action: UserReconciliationAction,
}

/// The reply to a request to create a rule.
#[derive(Debug)]
pub struct CreateRuleResponse {
    pub id: i64,
}

/// Whether an error is a bad request with the given text.
pub open spec fn is_bad_request(e: AppError, text: Seq<char>) -> bool {
    e matches AppError::BadRequest(m) && m@ == text
}

/// Checks a request to create a rule: at least one account must be given, and both
/// for a match.
pub fn create_reconciliation_rule(body: &CreateRuleRequest) -> (r: Result<(), AppError>)
    ensures
        match r {
            Ok(_) => {
                &&& body.sfin_account_id is Some || body.lf_account_id is Some
                &&& body.action == UserReconciliationAction::Match ==> body.sfin_account_id is Some
                    && body.lf_account_id is Some
            },
            Err(e) => if body.sfin_account_id is None && body.lf_account_id is None {
                is_bad_request(
                    e,
                    "At least one of sfin_account_id or lf_account_id must be provided"@,
                )
            } else {
                &&& body.action == UserReconciliationAction::Match
                &&& body.sfin_account_id is None || body.lf_account_id is None
                &&& is_bad_request(
                    e,
                    "action 'match' requires both sfin_account_id and lf_account_id"@,
                )
            },
        },
{
    if body.sfin_account_id.is_none() && body.lf_account_id.is_none() {
        return Err(
            AppError::BadRequest(
                "At least one of sfin_account_id or lf_account_id must be provided".to_owned(),
            ),
        );
    }
    if body.action == UserReconciliationAction::Match && (body.sfin_account_id.is_none()
        || body.lf_account_id.is_none()) {
        return Err(
            AppError::BadRequest(
                "action 'match' requires both sfin_account_id and lf_account_id".to_owned(),
            ),
        );
    }
    Ok(())
}

/// The outcome of deleting a rule, given how many records were deleted.
pub fn delete_reconciliation_rule(rows_affected: u64) -> (r: Result<(), AppError>)
    ensures
        r == (if rows_affected > 0 {
            Ok(())
        } else {
            Err(AppError::AccountNotFound)
        }),
{
    if rows_affected > 0 {
        Ok(())
    } else {
        Err(AppError::AccountNotFound)
    }
}

/// A request to set the name that a reconciled account goes by.
#[derive(Debug)]
pub struct SetNamePreferenceRequest {
    /// `"simplefin"` or `"lunchflow"`
    pub preferred_source: String,
}

/// Checks a request to set a name preference.
pub fn set_name_preference(body: &SetNamePreferenceRequest) -> (r: Result<(), AppError>)
    ensures
        match r {
            Ok(_) => body.preferred_source@ == "simplefin"@ || body.preferred_source@
                == "lunchflow"@,
            Err(e) => {
                &&& body.preferred_source@ != "simplefin"@
                &&& body.preferred_source@ != "lunchflow"@
                &&& is_bad_request(e, "preferred_source must be 'simplefin' or 'lunchflow'"@)
            },
        },
{
    if same_text(body.preferred_source.as_str(), "simplefin") || same_text(
        body.preferred_source.as_str(),
        "lunchflow",
    ) {
        Ok(())
    } else {
        Err(
            AppError::BadRequest("preferred_source must be 'simplefin' or 'lunchflow'".to_owned()),
        )
    }
}

// ---------------------------------------------------------------------------
// Laws
// ---------------------------------------------------------------------------

/// A failed fetch changes neither what is served nor what is refused; it shows only
/// in the health of the service.
pub proof fn lemma_failure_serves_stale(
    state: CacheState,
    provider: Provider,
    error: String,
    providers: Providers,
    id: Seq<char>,
)
    ensures
        ({
            let after = after_failure(state, provider, error);
            &&& after.accounts == state.accounts
            &&& is_ready(after, providers) == is_ready(state, providers)
            &&& refusal(after, providers, id) == refusal(state, providers, id)
            &&& after.fetch_error is Some || after.lf_fetch_error is Some
        }),
{
}

/// Once a configured provider has completed a fetch, the service has data.
pub proof fn lemma_success_makes_ready(
    state: CacheState,
    provider: Provider,
    now: i64,
    providers: Providers,
)
    requires
        match provider {
            Provider::SimpleFin => providers.simplefin,
            Provider::LunchFlow => providers.lunchflow,
        },
    ensures
        is_ready(after_success(state, provider, now), providers),
{
}

proof fn lemma_position_found(accounts: Seq<CachedAccount>, k: int, i: int)
    requires
        0 <= i <= k < accounts.len(),
    ensures
        position_of(accounts, accounts[k].id@, i) is Some,
    decreases k - i,
{
    if accounts[i].id@ != accounts[k].id@ {
        lemma_position_found(accounts, k, i + 1);
    }
}

proof fn lemma_position_id(accounts: Seq<CachedAccount>, id: Seq<char>, i: int)
    requires
        0 <= i,
    ensures
        position_of(accounts, id, i) matches Some(k) ==> i <= k < accounts.len()
            && accounts[k].id@ == id,
    decreases accounts.len() - i,
{
    if i < accounts.len() && accounts[i].id@ != id {
        lemma_position_id(accounts, id, i + 1);
    }
}

proof fn lemma_listed_pairs(pairs: Seq<MatchedPair>, accounts: Seq<CachedAccount>, n: int)
    requires
        0 <= n <= pairs.len(),
    ensures
        forall|i: int|
            0 <= i < listed_pairs(pairs, accounts, n).len() ==> {
                let k = #[trigger] listed_pairs(pairs, accounts, n)[i];
                &&& 0 <= k < n
                &&& pairs[k].sfin_account_id is Some
                &&& pairs[k].lf_account_id is Some
                &&& position_of(accounts, pairs[k].sfin_account_id->0@, 0) is Some
            },
    decreases n,
{
    if n > 0 {
        lemma_listed_pairs(pairs, accounts, n - 1);
    }
}

proof fn lemma_unpaired_sfin(
    accounts: Seq<CachedAccount>,
    pairs: Seq<MatchedPair>,
    listed: Seq<int>,
    n: int,
)
    requires
        0 <= n <= accounts.len(),
    ensures
        forall|i: int|
            0 <= i < unpaired_sfin(accounts, pairs, listed, n).len() ==> {
                let k = #[trigger] unpaired_sfin(accounts, pairs, listed, n)[i];
                0 <= k < n && !pairs_name_sfin(pairs, listed, accounts[k].id@)
            },
        forall|k: int|
            0 <= k < n && !pairs_name_sfin(pairs, listed, (#[trigger] accounts[k]).id@)
                ==> unpaired_sfin(accounts, pairs, listed, n).contains(k),
    decreases n,
{
    if n > 0 {
        lemma_unpaired_sfin(accounts, pairs, listed, n - 1);
        let before = unpaired_sfin(accounts, pairs, listed, n - 1);
        let all = unpaired_sfin(accounts, pairs, listed, n);
        assert forall|k: int|
            0 <= k < n && !pairs_name_sfin(pairs, listed, (#[trigger] accounts[k]).id@) implies all.contains(
            k,
        ) by {
            if k < n - 1 {
                let i = choose|i: int| 0 <= i < before.len() && before[i] == k;
                assert(all[i] == k);
            } else {
                assert(all[all.len() - 1] == k);
            }
        }
    }
}

proof fn lemma_unpaired_lf(
    accounts: Seq<LfAccountFull>,
    pairs: Seq<MatchedPair>,
    listed: Seq<int>,
    n: int,
)
    requires
        0 <= n <= accounts.len(),
    ensures
        forall|i: int|
            0 <= i < unpaired_lf(accounts, pairs, listed, n).len() ==> {
                let k = #[trigger] unpaired_lf(accounts, pairs, listed, n)[i];
                0 <= k < n && !pairs_name_lf(pairs, listed, accounts[k].id)
            },
        forall|k: int|
            0 <= k < n && !pairs_name_lf(pairs, listed, (#[trigger] accounts[k]).id)
                ==> unpaired_lf(accounts, pairs, listed, n).contains(k),
    decreases n,
{
    if n > 0 {
        lemma_unpaired_lf(accounts, pairs, listed, n - 1);
        let before = unpaired_lf(accounts, pairs, listed, n - 1);
        let all = unpaired_lf(accounts, pairs, listed, n);
        assert forall|k: int|
            0 <= k < n && !pairs_name_lf(pairs, listed, (#[trigger] accounts[k]).id) implies all.contains(
            k,
        ) by {
            if k < n - 1 {
                let i = choose|i: int| 0 <= i < before.len() && before[i] == k;
                assert(all[i] == k);
            } else {
                assert(all[all.len() - 1] == k);
            }
        }
    }
}

/// Every account that is listed is found again under the id it is listed with: one
/// of its own provider without a match, or a pair that is matched.
pub proof fn lemma_listed_accounts_found(
    state: CacheState,
    providers: Providers,
    stored: StoredAccounts,
    list: Seq<FdxAccount>,
    i: int,
)
    requires
        is_ready(state, providers),
        is_account_list(state, providers, stored, list),
        0 <= i < list.len(),
    ensures
        match source_of(list[i].account_id@) {
            Some(Source::SimpleFin(id)) => refusal(state, providers, id) is None
                && !pairs_name_sfin(stored.pairs@, pairs_listed(state, providers, stored), id),
            Some(Source::Reconciled(id)) => refusal(state, providers, id) is None
                && pairs_name_sfin(stored.pairs@, pairs_listed(state, providers, stored), id),
            Some(Source::LunchFlow(n)) => !pairs_name_lf(
                stored.pairs@,
                pairs_listed(state, providers, stored),
                n,
            ) && exists|k: int|
                0 <= k < stored.lf_accounts@.len() && (#[trigger] stored.lf_accounts@[k]).id == n,
            None => false,
        },
{
    let accounts = state.accounts@;
    let pairs = pairs_listed(state, providers, stored);
    let sfin = sfin_listed(state, providers, stored);
    let lf = lf_listed(state, providers, stored);
    let a = sfin.len() as int;
    let b = a + lf.len();
    lemma_unpaired_sfin(accounts, stored.pairs@, pairs, accounts.len() as int);
    lemma_unpaired_lf(stored.lf_accounts@, stored.pairs@, pairs, stored.lf_accounts@.len() as int);
    if i < a {
        let k = sfin[i];
        lemma_account_ids_read_back(accounts[k].id@, 0);
        lemma_position_found(accounts, k, 0);
    } else if i < b {
        let k = lf[i - a];
        assert(list[a + (i - a)] == list[i]);
        lemma_account_ids_read_back(Seq::empty(), stored.lf_accounts@[k].id);
    } else {
        let k = i - b;
        assert(list[b + k] == list[i]);
        lemma_listed_pairs(stored.pairs@, accounts, stored.pairs@.len() as int);
        let pair = stored.pairs@[pairs[k]];
        let id = pair.sfin_account_id->0@;
        lemma_position_id(accounts, id, 0);
        lemma_account_ids_read_back(id, 0);
    }
}

/// Every SimpleFIN account in memory is listed, as `REC-` where a listed pair names
/// it and as `SIMPLEFIN-` otherwise, never as both.
pub proof fn lemma_sfin_accounts_listed(
    state: CacheState,
    providers: Providers,
    stored: StoredAccounts,
    list: Seq<FdxAccount>,
    k: int,
)
    requires
        providers.simplefin,
        is_ready(state, providers),
        is_account_list(state, providers, stored, list),
        0 <= k < state.accounts@.len(),
    ensures
        ({
            let id = state.accounts@[k].id@;
            let paired = pairs_name_sfin(stored.pairs@, pairs_listed(state, providers, stored), id);
            &&& paired <==> exists|i: int|
                0 <= i < list.len() && (#[trigger] list[i]).account_id@ == "REC-"@ + id
            &&& !paired <==> exists|i: int|
                0 <= i < list.len() && (#[trigger] list[i]).account_id@ == "SIMPLEFIN-"@ + id
        }),
{
    let accounts = state.accounts@;
    let id = accounts[k].id@;
    let pairs = pairs_listed(state, providers, stored);
    let sfin = sfin_listed(state, providers, stored);
    let b = sfin.len() + lf_listed(state, providers, stored).len();
    lemma_unpaired_sfin(accounts, stored.pairs@, pairs, accounts.len() as int);
    lemma_listed_pairs(stored.pairs@, accounts, stored.pairs@.len() as int);
    lemma_account_ids_read_back(id, 0);
    if pairs_name_sfin(stored.pairs@, pairs, id) {
        let j = choose|j: int|
            0 <= j < pairs.len() && chars(stored.pairs@[#[trigger] pairs[j]].sfin_account_id)
                == Some(id);
        lemma_position_id(accounts, id, 0);
        assert(list[b + j].account_id@ == "REC-"@ + id);
    } else {
        assert(sfin.contains(k));
        let j = choose|j: int| 0 <= j < sfin.len() && sfin[j] == k;
        assert(list[j].account_id@ == "SIMPLEFIN-"@ + id);
    }
    assert forall|i: int| 0 <= i < list.len() implies {
        &&& (#[trigger] list[i]).account_id@ == "REC-"@ + id ==> pairs_name_sfin(
            stored.pairs@,
            pairs,
            id,
        )
        &&& list[i].account_id@ == "SIMPLEFIN-"@ + id ==> !pairs_name_sfin(
            stored.pairs@,
            pairs,
            id,
        )
    } by {
        lemma_listed_accounts_found(state, providers, stored, list, i);
    }
}

/// A timestamp of the years 0 to 9999, rendered in a response, reads back as itself
/// when it is given as a bound: `text` is what `unix_to_rfc3339` gives for `ts`, and
/// `back` what `parse_iso8601` gives for `text`.
pub proof fn lemma_timestamp_read_back(ts: int, text: Seq<char>, back: Option<i64>)
    requires
        in_four_digit_years(ts),
        is_timestamp(ts, text),
        reads_timestamps(text, back),
    ensures
        back is Some && back->0 == ts,
{
    assert(in_calendar(ts));
}

/// An account id that points somewhere is a prefix followed by what it points to.
pub proof fn lemma_id_prefixes(id: Seq<char>)
    ensures
        match source_of(id) {
            Some(Source::SimpleFin(rest)) => id == "SIMPLEFIN-"@ + rest,
            Some(Source::LunchFlow(n)) => exists|rest: Seq<char>|
                id == #[trigger] ("LUNCHFLOW-"@ + rest) && i64_value(rest) == Some(n),
            Some(Source::Reconciled(rest)) => id == "REC-"@ + rest,
            None => forall|rest: Seq<char>|
                id != #[trigger] ("SIMPLEFIN-"@ + rest) && id != #[trigger] ("REC-"@ + rest),
        },
{
    reveal_strlit("SIMPLEFIN-");
    reveal_strlit("LUNCHFLOW-");
    reveal_strlit("REC-");
    match source_of(id) {
        Some(Source::SimpleFin(rest)) => {
            assert(id =~= "SIMPLEFIN-"@ + rest);
        },
        Some(Source::LunchFlow(n)) => {
            let rest = id.skip("LUNCHFLOW-"@.len() as int);
            assert(id =~= "LUNCHFLOW-"@ + rest);
        },
        Some(Source::Reconciled(rest)) => {
            assert(id =~= "REC-"@ + rest);
        },
        None => {
            assert forall|rest: Seq<char>|
                id != #[trigger] ("SIMPLEFIN-"@ + rest) && id != #[trigger] ("REC-"@ + rest) by {
                lemma_account_ids_read_back(rest, 0);
            }
        },
    }
}

/// Requests are refused as not ready while no configured provider has data, and as not
/// found where there is data but no account of the id, or no match for a pair; none
/// other is refused.
pub proof fn lemma_refusals(state: CacheState, providers: Providers, id: Seq<char>, matched: bool)
    ensures
        ({
            let data = (providers.simplefin && (state.last_fetched is Some
                || state.accounts@.len() > 0)) || (providers.lunchflow
                && state.lf_last_fetched is Some);
            let known = exists|i: int|
                0 <= i < state.accounts@.len() && (#[trigger] state.accounts@[i]).id@ == id;
            &&& refusal(state, providers, id) == (if !data {
                Some(AppError::NotReady)
            } else if !known {
                Some(AppError::AccountNotFound)
            } else {
                None
            })
            &&& pair_refusal(state, providers, id, matched) == (if !data {
                Some(AppError::NotReady)
            } else if !known || !matched {
                Some(AppError::AccountNotFound)
            } else {
                None
            })
            &&& lf_refusal(state, providers) == (if data {
                AppError::AccountNotFound
            } else {
                AppError::NotReady
            })
        }),
{
    if exists|i: int| 0 <= i < state.accounts@.len() && (#[trigger] state.accounts@[i]).id@ == id {
        let i = choose|i: int|
            0 <= i < state.accounts@.len() && (#[trigger] state.accounts@[i]).id@ == id;
        lemma_position_found(state.accounts@, i, 0);
    }
    if position_of(state.accounts@, id, 0) is Some {
        lemma_position_id(state.accounts@, id, 0);
    }
}

/// A pair is served with the same balances, currency and balance date as its SimpleFIN
/// account alone: the current balance is the value of the stored balance, whether or
/// not there is an available one. It refers to both of its sides.
pub proof fn lemma_pair_agrees_with_sfin_account(
    account: CachedAccount,
    lf: i64,
    name: Option<Seq<char>>,
    alone: FdxAccount,
    pair: FdxAccount,
)
    requires
        is_cached_account(account, "SIMPLEFIN-"@, alone),
        is_reconciled_account(account, lf, name, pair),
    ensures
        pair.current_balance == alone.current_balance,
        account.balance.parsed matches Some(value) ==> pair.current_balance == value,
        account.balance.parsed is None ==> pair.current_balance.bits == 0,
        pair.available_balance == alone.available_balance,
        pair.available_balance is Some <==> account.available_balance is Some,
        account.available_balance matches Some(a) ==> a.parsed is Some ==> pair.available_balance
            == a.parsed,
        pair.currency.currency_code@ == alone.currency.currency_code@,
        pair.currency.currency_code@ == account.currency@,
        pair.balance_date@ == alone.balance_date@,
        in_calendar(account.balance_date as int) ==> is_rfc3339_of(
            account.balance_date as int,
            pair.balance_date@,
        ),
        pair.account_type@ == alone.account_type@,
        name is None ==> pair.display_name@ == alone.display_name@,
        name is Some ==> pair.display_name@ == name->0,
        pair.account_id@ == "REC-"@ + account.id@,
        pair.simplefin_account_id is Some && pair.simplefin_account_id->0@ == alone.account_id@,
        alone.account_id@ == "SIMPLEFIN-"@ + account.id@,
        pair.lunchflow_account_id is Some && pair.lunchflow_account_id->0@ == "LUNCHFLOW-"@
            + decimal(lf as int),
{
    lemma_timestamp_shown(account.balance_date as int, pair.balance_date@, alone.balance_date@);
}

proof fn lemma_lf_name(accounts: Seq<LfAccountFull>, id: i64, i: int, k: int)
    requires
        0 <= i <= k <= accounts.len(),
        forall|j: int| i <= j < k ==> (#[trigger] accounts[j]).id != id,
        k < accounts.len() ==> accounts[k].id == id,
    ensures
        lf_name(accounts, id, i) == (if k < accounts.len() {
            Some(accounts[k].name@)
        } else {
            None
        }),
    decreases k - i,
{
    if i < k {
        lemma_lf_name(accounts, id, i + 1, k);
    }
}

/// A listed pair goes by the name of its LunchFlow account where the user prefers that
/// and the account is stored, and by that of its SimpleFIN account otherwise. `k` is
/// the position of the LunchFlow account, or the number of accounts where there is
/// none.
pub proof fn lemma_listed_pair_name(
    pair: MatchedPair,
    state: CacheState,
    lf_accounts: Seq<LfAccountFull>,
    preferences: Seq<String>,
    r: FdxAccount,
    k: int,
)
    requires
        is_pair_account(pair, state, lf_accounts, preferences, r),
        position_of(state.accounts@, pair.sfin_account_id->0@, 0) is Some,
        0 <= k <= lf_accounts.len(),
        forall|j: int| 0 <= j < k ==> (#[trigger] lf_accounts[j]).id != pair.lf_account_id->0,
        k < lf_accounts.len() ==> lf_accounts[k].id == pair.lf_account_id->0,
    ensures
        r.account_id@ == "REC-"@ + pair.sfin_account_id->0@,
        ({
            let preferred = exists|i: int|
                0 <= i < preferences.len() && (#[trigger] preferences[i])@
                    == pair.sfin_account_id->0@;
            if preferred && k < lf_accounts.len() {
                r.display_name@ == lf_accounts[k].name@
            } else {
                exists|i: int|
                    0 <= i < state.accounts@.len() && (#[trigger] state.accounts@[i]).id@
                        == pair.sfin_account_id->0@ && r.display_name@ == state.accounts@[i].name@
            }
        }),
{
    lemma_position_id(state.accounts@, pair.sfin_account_id->0@, 0);
    lemma_lf_name(lf_accounts, pair.lf_account_id->0, 0, k);
    let i = position_of(state.accounts@, pair.sfin_account_id->0@, 0)->0;
    assert(state.accounts@[i].id@ == pair.sfin_account_id->0@);
}

/// A pair that is looked up goes by the name of its LunchFlow account exactly where that
/// is the preferred source and the account has a name.
pub proof fn lemma_matched_pair_name(matched: MatchedAccount)
    ensures
        matched_lf(Some(matched)) == matched.lf_account_id,
        matched_lf(None) is None,
        matched.preferred_source@ == "lunchflow"@ && matched.lf_name is Some ==> matched_name(
            Some(matched),
        ) == Some(matched.lf_name->0@),
        matched.preferred_source@ != "lunchflow"@ || matched.lf_name is None ==> matched_name(
            Some(matched),
        ) is None,
{
}

/// Every stored LunchFlow account is listed under its own id, unless a listed pair names
/// it.
pub proof fn lemma_lf_accounts_listed(
    state: CacheState,
    providers: Providers,
    stored: StoredAccounts,
    list: Seq<FdxAccount>,
    k: int,
)
    requires
        providers.lunchflow,
        is_ready(state, providers),
        is_account_list(state, providers, stored, list),
        0 <= k < stored.lf_accounts@.len(),
    ensures
        ({
            let id = stored.lf_accounts@[k].id;
            !pairs_name_lf(stored.pairs@, pairs_listed(state, providers, stored), id)
                <==> exists|i: int|
                0 <= i < list.len() && (#[trigger] list[i]).account_id@ == "LUNCHFLOW-"@
                    + decimal(id as int)
        }),
{
    let id = stored.lf_accounts@[k].id;
    let pairs = pairs_listed(state, providers, stored);
    let lf = lf_listed(state, providers, stored);
    let a = sfin_listed(state, providers, stored).len() as int;
    lemma_unpaired_lf(stored.lf_accounts@, stored.pairs@, pairs, stored.lf_accounts@.len() as int);
    lemma_account_ids_read_back(Seq::empty(), id);
    if !pairs_name_lf(stored.pairs@, pairs, id) {
        assert(lf.contains(k));
        let j = choose|j: int| 0 <= j < lf.len() && lf[j] == k;
        assert(list[a + j].account_id@ == "LUNCHFLOW-"@ + decimal(id as int));
    }
    assert forall|i: int|
        0 <= i < list.len() && (#[trigger] list[i]).account_id@ == "LUNCHFLOW-"@ + decimal(
            id as int,
        ) implies !pairs_name_lf(stored.pairs@, pairs, id) by {
        lemma_listed_accounts_found(state, providers, stored, list, i);
    }
}

proof fn lemma_pairs_all_listed(pairs: Seq<MatchedPair>, accounts: Seq<CachedAccount>, n: int, k: int)
    requires
        0 <= k < n <= pairs.len(),
        pairs[k].sfin_account_id is Some,
        pairs[k].lf_account_id is Some,
        position_of(accounts, pairs[k].sfin_account_id->0@, 0) is Some,
    ensures
        listed_pairs(pairs, accounts, n).contains(k),
    decreases n,
{
    let all = listed_pairs(pairs, accounts, n);
    if k == n - 1 {
        assert(all[all.len() - 1] == k);
    } else {
        lemma_pairs_all_listed(pairs, accounts, n - 1, k);
        let before = listed_pairs(pairs, accounts, n - 1);
        let i = choose|i: int| 0 <= i < before.len() && before[i] == k;
        assert(all[i] == k);
    }
}

/// Where both providers are configured, a pair with both sides whose SimpleFIN account
/// is known is listed as one account, and neither side is listed under its own id.
pub proof fn lemma_pair_listed_as_one(
    state: CacheState,
    providers: Providers,
    stored: StoredAccounts,
    list: Seq<FdxAccount>,
    k: int,
    a: int,
)
    requires
        providers.simplefin,
        providers.lunchflow,
        is_ready(state, providers),
        is_account_list(state, providers, stored, list),
        0 <= k < stored.pairs@.len(),
        stored.pairs@[k].sfin_account_id is Some,
        stored.pairs@[k].lf_account_id is Some,
        0 <= a < state.accounts@.len(),
        state.accounts@[a].id@ == stored.pairs@[k].sfin_account_id->0@,
    ensures
        ({
            let sfin = stored.pairs@[k].sfin_account_id->0@;
            let lf = stored.pairs@[k].lf_account_id->0;
            &&& exists|i: int|
                0 <= i < list.len() && (#[trigger] list[i]).account_id@ == "REC-"@ + sfin
            &&& forall|i: int|
                0 <= i < list.len() ==> (#[trigger] list[i]).account_id@ != "SIMPLEFIN-"@ + sfin
                    && list[i].account_id@ != "LUNCHFLOW-"@ + decimal(lf as int)
        }),
{
    let sfin = stored.pairs@[k].sfin_account_id->0@;
    let lf = stored.pairs@[k].lf_account_id->0;
    let pairs = pairs_listed(state, providers, stored);
    lemma_position_found(state.accounts@, a, 0);
    lemma_pairs_all_listed(stored.pairs@, state.accounts@, stored.pairs@.len() as int, k);
    let j = choose|j: int| 0 <= j < pairs.len() && pairs[j] == k;
    assert(chars(stored.pairs@[pairs[j]].sfin_account_id) == Some(sfin));
    assert(pairs_name_sfin(stored.pairs@, pairs, sfin));
    assert(stored.pairs@[pairs[j]].lf_account_id == Some(lf));
    assert(pairs_name_lf(stored.pairs@, pairs, lf));
    lemma_sfin_accounts_listed(state, providers, stored, list, a);
    lemma_account_ids_read_back(sfin, lf);
    assert forall|i: int| 0 <= i < list.len() implies (#[trigger] list[i]).account_id@
        != "SIMPLEFIN-"@ + sfin && list[i].account_id@ != "LUNCHFLOW-"@ + decimal(lf as int) by {
        lemma_listed_accounts_found(state, providers, stored, list, i);
    }
}

/// A row that reconciliation matched under a record is served under the id of that
/// record, and every other row of the account under its own id; with it go the amount,
/// the description and the time of posting of the row.
pub proof fn lemma_joined_rows_listed(
    sfin: Seq<SfinJoinedRow>,
    lf_only: Seq<LfOnlyRow>,
    merged: Seq<UnifiedTransaction>,
    unified: Seq<UnifiedTransaction>,
    list: FdxTransactionList,
    i: int,
) -> (k: int)
    requires
        merged.len() <= usize::MAX,
        is_unified_list(sfin, lf_only, merged),
        is_ordered_form(merged, unified),
        are_unified_transactions(unified, list),
        0 <= i < sfin.len(),
    ensures
        list.transactions@.len() == sfin.len() + lf_only.len(),
        list.page.total == sfin.len() + lf_only.len(),
        0 <= k < list.transactions@.len(),
        ({
            let r = list.transactions@[k];
            let row = sfin[i];
            &&& row.recon_status@ == "matched"@ && row.rec_id is Some ==> r.transaction_id@
                == "REC-"@ + decimal(row.rec_id->0 as int)
            &&& row.recon_status@ != "matched"@ || row.rec_id is None ==> r.transaction_id@
                == row.id@
            &&& row.amount.parsed matches Some(value) ==> r.amount == value
            &&& r.description@ == row.description@
            &&& in_calendar(row.posted as int) ==> is_rfc3339_of(
                row.posted as int,
                r.posted_timestamp@,
            )
            &&& r.reconciliation_status is Some && r.reconciliation_status->0@ == row.recon_status@
        }),
{
    lemma_ordered_form(merged, unified);
    assert(merged[i] == unified_sfin(sfin[i]));
    assert(unified.contains(merged[i]));
    let k = choose|k: int| 0 <= k < unified.len() && unified[k] == merged[i];
    lemma_joined_row_served(sfin[i], lf_posted_of(unified[k]), list.transactions@[k]);
    k
}

/// A LunchFlow transaction without counterpart is listed under its own id, with its
/// amount and at midnight of its date.
pub proof fn lemma_lf_only_rows_listed(
    sfin: Seq<SfinJoinedRow>,
    lf_only: Seq<LfOnlyRow>,
    merged: Seq<UnifiedTransaction>,
    unified: Seq<UnifiedTransaction>,
    list: FdxTransactionList,
    i: int,
) -> (k: int)
    requires
        merged.len() <= usize::MAX,
        is_unified_list(sfin, lf_only, merged),
        is_ordered_form(merged, unified),
        are_unified_transactions(unified, list),
        0 <= i < lf_only.len(),
    ensures
        0 <= k < list.transactions@.len(),
        list.transactions@[k].transaction_id@ == lf_only[i].lunchflow.id@,
        list.transactions@[k].amount == lf_only[i].lunchflow.amount,
        parsed_date(lf_only[i].lunchflow.date@) matches Some(ts) ==> in_calendar(ts as int)
            ==> is_rfc3339_of(ts as int, list.transactions@[k].posted_timestamp@),
        list.transactions@[k].reconciliation_status is Some,
        list.transactions@[k].reconciliation_status->0@ == "lf_only"@,
{
    lemma_ordered_form(merged, unified);
    let u = merged[sfin.len() + i];
    assert(is_unified_lf(lf_only[i], date_timestamp(lf_only[i].lunchflow.date@), u));
    assert(unified.contains(u));
    let k = choose|k: int| 0 <= k < unified.len() && unified[k] == u;
    lemma_lf_only_row_served(lf_only[i], u, list.transactions@[k]);
    k
}

/// Rows of an account are listed one for one and in their order, and counted.
pub proof fn lemma_rows_listed_in_order(
    rows: Seq<TransactionRow>,
    lf_rows: Seq<LfTransactionRow>,
    holdings: Seq<HoldingRow>,
    list: FdxTransactionList,
    lf_list: FdxTransactionList,
    held: FdxHoldingList,
    i: int,
)
    requires
        are_row_transactions(rows, list),
        are_lf_transactions(lf_rows, lf_list),
        are_holdings(holdings, held),
    ensures
        list.transactions@.len() == rows.len() && list.page.total == rows.len(),
        lf_list.transactions@.len() == lf_rows.len() && lf_list.page.total == lf_rows.len(),
        held.holdings@.len() == holdings.len() && held.page.total == holdings.len(),
        0 <= i < rows.len() ==> {
            let r = list.transactions@[i];
            &&& r.transaction_id@ == rows[i].id@
            &&& rows[i].amount.parsed matches Some(value) ==> r.amount == value
            &&& in_calendar(rows[i].posted as int) ==> is_rfc3339_of(
                rows[i].posted as int,
                r.posted_timestamp@,
            )
            &&& r.reconciliation_status is None
        },
        0 <= i < lf_rows.len() ==> {
            let r = lf_list.transactions@[i];
            &&& r.transaction_id@ == lf_rows[i].id@ && r.amount == lf_rows[i].amount
            &&& lf_rows[i].is_pending ==> r.status@ == "PENDING"@
            &&& !lf_rows[i].is_pending ==> r.status@ == "POSTED"@
            &&& r.payee == lf_rows[i].merchant && r.memo == lf_rows[i].description
            &&& r.reconciliation_status is None && r.match_confidence is None
            &&& r.simplefin_transaction is None && r.lunchflow_transaction is None
        },
        0 <= i < holdings.len() ==> held.holdings@[i].holding_id@ == holdings[i].id@,
{
    if 0 <= i < rows.len() {
        assert(is_row_transaction(rows[i], list.transactions@[i]));
    }
    if 0 <= i < lf_rows.len() {
        assert(is_plain(lf_list.transactions@[i]));
    }
    if 0 <= i < holdings.len() {
        assert(is_holding(holdings[i], held.holdings@[i]));
    }
}

/// The health shows the time of a fetch exactly where there was one and its provider is
/// configured.
pub proof fn lemma_fetch_time_shown(fetched: Option<i64>, configured: bool, text: Option<String>)
    requires
        is_fetch_time(fetched, configured, text),
    ensures
        text is Some <==> fetched is Some && configured,
        text is Some && in_calendar(fetched->0 as int) ==> is_rfc3339_of(
            fetched->0 as int,
            text->0@,
        ),
{
}

/// An account is found exactly where one in memory has the id, and the first such one is.
pub proof fn lemma_first_account_found(accounts: Seq<CachedAccount>, id: Seq<char>)
    ensures
        match position_of(accounts, id, 0) {
            Some(k) => 0 <= k < accounts.len() && accounts[k].id@ == id && forall|j: int|
                0 <= j < k ==> (#[trigger] accounts[j]).id@ != id,
            None => forall|j: int| 0 <= j < accounts.len() ==> (#[trigger] accounts[j]).id@ != id,
        },
{
    lemma_first_from(accounts, id, 0);
}

proof fn lemma_first_from(accounts: Seq<CachedAccount>, id: Seq<char>, i: int)
    requires
        0 <= i <= accounts.len(),
    ensures
        match position_of(accounts, id, i) {
            Some(k) => i <= k < accounts.len() && accounts[k].id@ == id && forall|j: int|
                i <= j < k ==> (#[trigger] accounts[j]).id@ != id,
            None => forall|j: int| i <= j < accounts.len() ==> (#[trigger] accounts[j]).id@ != id,
        },
    decreases accounts.len() - i,
{
    if i < accounts.len() {
        lemma_first_from(accounts, id, i + 1);
    }
}

/// The service is degraded exactly while the last fetch of a provider failed, and shows
/// the errors as they are; a failure and a later success of the same provider leave the
/// health as a success alone does.
pub proof fn lemma_health_follows_fetches(
    state: CacheState,
    providers: Providers,
    error: String,
    now: i64,
    failed: HealthResponse,
    recovered: HealthResponse,
)
    requires
        call_ensures(
            health,
            (&after_failure(state, Provider::SimpleFin, error), providers),
            failed,
        ),
        call_ensures(
            health,
            (
                &after_success(
                    after_failure(state, Provider::SimpleFin, error),
                    Provider::SimpleFin,
                    now,
                ),
                providers,
            ),
            recovered,
        ),
    ensures
        failed.status@ == "degraded"@,
        failed.fetch_error == Some(error),
        failed.lf_fetch_error == state.lf_fetch_error,
        failed.last_fetched is Some <==> state.last_fetched is Some && providers.simplefin,
        recovered.fetch_error is None,
        state.lf_fetch_error is None ==> recovered.status@ == "ok"@,
        state.lf_fetch_error is Some ==> recovered.status@ == "degraded"@,
        recovered.last_fetched is Some <==> providers.simplefin,
        recovered.last_fetched is Some && in_calendar(now as int) ==> is_rfc3339_of(
            now as int,
            recovered.last_fetched->0@,
        ),
        recovered.lf_last_fetched is Some <==> state.lf_last_fetched is Some
            && providers.lunchflow,
{
}

/// A rule needs an account, and a match needs both; no other request for a rule is
/// refused. A preference names one of the two providers.
pub proof fn lemma_requests_checked(
    body: CreateRuleRequest,
    r: Result<(), AppError>,
    preference: SetNamePreferenceRequest,
    q: Result<(), AppError>,
    rows_affected: u64,
    d: Result<(), AppError>,
)
    requires
        call_ensures(create_reconciliation_rule, (&body,), r),
        call_ensures(set_name_preference, (&preference,), q),
        call_ensures(delete_reconciliation_rule, (rows_affected,), d),
    ensures
        body.sfin_account_id is Some && body.lf_account_id is Some ==> r is Ok,
        body.sfin_account_id is None && body.lf_account_id is None ==> r is Err,
        (body.sfin_account_id is Some) != (body.lf_account_id is Some) ==> (r is Ok <==> body.action
            == UserReconciliationAction::Exclude),
        r matches Err(e) ==> e is BadRequest,
        q is Ok <==> preference.preferred_source@ == "simplefin"@ || preference.preferred_source@
            == "lunchflow"@,
        q matches Err(e) ==> e is BadRequest,
        d is Ok <==> rows_affected > 0,
        d matches Err(e) ==> e is AccountNotFound,
{
}

/// Looking up a pair and looking up its SimpleFIN account give the same balances, currency
/// and balance date, those of the account in memory with that id.
pub proof fn lemma_lookups_agree(
    sfin_id: &str,
    rec_id: &str,
    id: Seq<char>,
    state: CacheState,
    providers: Providers,
    stored: StoredAccount,
    alone: FdxAccount,
    pair: FdxAccount,
) -> (k: int)
    requires
        sfin_id@ == "SIMPLEFIN-"@ + id,
        rec_id@ == "REC-"@ + id,
        call_ensures(
            get_account,
            (sfin_id, &state, providers, &stored),
            Ok::<FdxAccount, AppError>(alone),
        ),
        call_ensures(
            get_account,
            (rec_id, &state, providers, &stored),
            Ok::<FdxAccount, AppError>(pair),
        ),
    ensures
        0 <= k < state.accounts@.len(),
        state.accounts@[k].id@ == id,
        alone.account_id@ == sfin_id@,
        pair.account_id@ == rec_id@,
        pair.current_balance == alone.current_balance,
        state.accounts@[k].balance.parsed matches Some(value) ==> pair.current_balance == value,
        pair.available_balance == alone.available_balance,
        pair.currency.currency_code@ == alone.currency.currency_code@,
        pair.balance_date@ == alone.balance_date@,
        stored.matched matches Some(m) && m.lf_account_id is Some
            && pair.lunchflow_account_id is Some && pair.lunchflow_account_id->0@ == "LUNCHFLOW-"@
            + decimal(m.lf_account_id->0 as int),
{
    lemma_account_ids_read_back(id, 0);
    lemma_first_account_found(state.accounts@, id);
    let k = position_of(state.accounts@, id, 0)->0;
    lemma_pair_agrees_with_sfin_account(
        state.accounts@[k],
        matched_lf(stored.matched)->0,
        matched_name(stored.matched),
        alone,
        pair,
    );
    k
}

/// Which requests for an account, its transactions and its holdings are answered, and how
/// the others are refused: a SimpleFIN account has to be in memory, a pair has to be
/// matched as well, a LunchFlow account has to be stored.
pub proof fn lemma_requests_answered(
    sfin_id: &str,
    rec_id: &str,
    lf_id: &str,
    id: Seq<char>,
    n: i64,
    state: CacheState,
    providers: Providers,
    txns: StoredTransactions,
    holdings: StoredHoldings,
    t: (
        Result<FdxTransactionList, AppError>,
        Result<FdxTransactionList, AppError>,
        Result<FdxTransactionList, AppError>,
    ),
    h: (
        Result<FdxHoldingList, AppError>,
        Result<FdxHoldingList, AppError>,
        Result<FdxHoldingList, AppError>,
    ),
)
    requires
        sfin_id@ == "SIMPLEFIN-"@ + id,
        rec_id@ == "REC-"@ + id,
        lf_id@ == "LUNCHFLOW-"@ + decimal(n as int),
        call_ensures(list_transactions, (sfin_id, &state, providers, &txns), t.0),
        call_ensures(list_transactions, (rec_id, &state, providers, &txns), t.1),
        call_ensures(list_transactions, (lf_id, &state, providers, &txns), t.2),
        call_ensures(list_holdings, (sfin_id, &state, providers, &holdings), h.0),
        call_ensures(list_holdings, (rec_id, &state, providers, &holdings), h.1),
        call_ensures(list_holdings, (lf_id, &state, providers, &holdings), h.2),
    ensures
        ({
            let data = (providers.simplefin && (state.last_fetched is Some
                || state.accounts@.len() > 0)) || (providers.lunchflow
                && state.lf_last_fetched is Some);
            let known = exists|i: int|
                0 <= i < state.accounts@.len() && (#[trigger] state.accounts@[i]).id@ == id;
            let e = if data {
                AppError::AccountNotFound
            } else {
                AppError::NotReady
            };
            &&& t.0 is Ok <==> data && known
            &&& h.0 is Ok <==> data && known
            &&& t.1 is Ok <==> data && known && txns.matched
            &&& h.1 is Ok <==> data && known && holdings.matched
            &&& t.2 is Ok <==> txns.lf_rows@.len() > 0 || txns.lf_account_exists
            &&& h.2 is Ok <==> holdings.lf_account_exists
            &&& t.0 matches Err(x) ==> x == e
            &&& t.1 matches Err(x) ==> x == e
            &&& t.2 matches Err(x) ==> x == e
            &&& h.0 matches Err(x) ==> x == e
            &&& h.1 matches Err(x) ==> x == e
            &&& h.2 matches Err(x) ==> x == e
        }),
        t.0 matches Ok(list) ==> list.transactions@.len() == txns.rows@.len() && list.page.total
            == txns.rows@.len(),
        t.1 matches Ok(list) ==> list.transactions@.len() == txns.unified@.len()
            && list.page.total == txns.unified@.len(),
        t.2 matches Ok(list) ==> list.transactions@.len() == txns.lf_rows@.len()
            && list.page.total == txns.lf_rows@.len(),
        h.0 matches Ok(list) ==> list.holdings@.len() == holdings.rows@.len() && list.page.total
            == holdings.rows@.len(),
        h.1 matches Ok(list) ==> h.0 is Ok && list.holdings@.len() == h.0->Ok_0.holdings@.len(),
        h.2 matches Ok(list) ==> list.holdings@.len() == 0 && list.page.total == 0,
{
    lemma_account_ids_read_back(id, n);
    lemma_refusals(state, providers, id, txns.matched);
    lemma_refusals(state, providers, id, holdings.matched);
}

/// What is stored of a reconciled account is what is listed for it: each row that
/// reconciliation matched under a record is listed under the id of the record, with the
/// amount and the time of posting of the row.
pub proof fn lemma_matched_rows_get_their_ids(
    rec_id: &str,
    id: Seq<char>,
    state: CacheState,
    providers: Providers,
    stored: StoredTransactions,
    sfin_rows: Vec<SfinJoinedRow>,
    lf_only_rows: Vec<LfOnlyRow>,
    list: FdxTransactionList,
    i: int,
) -> (k: int)
    requires
        rec_id@ == "REC-"@ + id,
        sfin_rows@.len() + lf_only_rows@.len() <= usize::MAX,
        call_ensures(get_unified_transactions, (sfin_rows, Some(lf_only_rows)), stored.unified),
        call_ensures(
            list_transactions,
            (rec_id, &state, providers, &stored),
            Ok::<FdxTransactionList, AppError>(list),
        ),
        0 <= i < sfin_rows@.len(),
        sfin_rows@[i].recon_status@ == "matched"@,
        sfin_rows@[i].rec_id is Some,
    ensures
        list.transactions@.len() == sfin_rows@.len() + lf_only_rows@.len(),
        0 <= k < list.transactions@.len(),
        list.transactions@[k].transaction_id@ == "REC-"@ + decimal(
            sfin_rows@[i].rec_id->0 as int,
        ),
        sfin_rows@[i].amount.parsed matches Some(value) ==> list.transactions@[k].amount == value,
        in_calendar(sfin_rows@[i].posted as int) ==> is_rfc3339_of(
            sfin_rows@[i].posted as int,
            list.transactions@[k].posted_timestamp@,
        ),
{
    lemma_account_ids_read_back(id, 0);
    let merged = choose|merged: Seq<UnifiedTransaction>| #[trigger]
        is_unified_list(sfin_rows@, lf_only_rows@, merged) && is_ordered_form(
            merged,
            stored.unified@,
        );
    lemma_joined_rows_listed(sfin_rows@, lf_only_rows@, merged, stored.unified@, list, i)
}

} // verus!
