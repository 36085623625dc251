//! In-memory state shared between the fetchers and the server.
use crate::amount::Amount;
use vstd::prelude::*;

verus! {

/// A snapshot of a single SimpleFIN account, held in memory so account-list
/// endpoints need no database round-trip.
#[derive(Debug)]
pub struct CachedAccount {
    pub id: String,
    pub name: String,
    pub currency: String,
    pub balance: Amount,
    pub balance_date: i64,
    pub available_balance: Option<Amount>,
    pub conn_id: Option<String>,
}

impl Clone for CachedAccount {
    fn clone(&self) -> (r: Self)
        ensures
            r == *self,
    {
        CachedAccount {
            id: self.id.clone(),
            name: self.name.clone(),
            currency: self.currency.clone(),
            balance: self.balance.clone(),
            balance_date: self.balance_date,
            available_balance: self.available_balance.clone(),
            conn_id: self.conn_id.clone(),
        }
    }
}

/// What the server knows between requests.
#[derive(Debug)]
pub struct CacheState {
    /// SimpleFIN accounts, empty when SimpleFIN is not configured.
    pub accounts: Vec<CachedAccount>,
    /// Unix timestamp of the last successful SimpleFIN fetch.
    pub last_fetched: Option<i64>,
    /// Error from the most recent failed SimpleFIN fetch.
    pub fetch_error: Option<String>,
    /// Unix timestamp of the last successful LunchFlow fetch.
    pub lf_last_fetched: Option<i64>,
    /// Error from the most recent failed LunchFlow fetch.
    pub lf_fetch_error: Option<String>,
}

impl Default for CacheState {
    fn default() -> (r: Self)
        ensures
            r.accounts@.len() == 0,
            r.last_fetched is None,
            r.fetch_error is None,
            r.lf_last_fetched is None,
            r.lf_fetch_error is None,
    {
        CacheState {
            accounts: Vec::new(),
            last_fetched: None,
            fetch_error: None,
            lf_last_fetched: None,
            lf_fetch_error: None,
        }
    }
}

/// A data provider.
#[derive(Debug, Clone, Copy, PartialEq, Eq, Structural)]
pub enum Provider {
    SimpleFin,
    LunchFlow,
}

/// The state after an earlier run's last successful fetch was put in place.
pub open spec fn after_restore(state: CacheState, provider: Provider, ts: i64) -> CacheState {
    match provider {
        Provider::SimpleFin => CacheState { last_fetched: Some(ts), ..state },
        Provider::LunchFlow => CacheState { lf_last_fetched: Some(ts), ..state },
    }
}

/// The state after a successful fetch: its time is recorded and the error cleared.
pub open spec fn after_success(state: CacheState, provider: Provider, now: i64) -> CacheState {
    match provider {
        Provider::SimpleFin => CacheState { last_fetched: Some(now), fetch_error: None, ..state },
        Provider::LunchFlow => CacheState {
            lf_last_fetched: Some(now),
            lf_fetch_error: None,
            ..state
        },
    }
}

/// The state after a failed fetch: only the error changes.
pub open spec fn after_failure(state: CacheState, provider: Provider, error: String) -> CacheState {
    match provider {
        Provider::SimpleFin => CacheState { fetch_error: Some(error), ..state },
        Provider::LunchFlow => CacheState { lf_fetch_error: Some(error), ..state },
    }
}

impl CacheState {
    /// Puts in place the time of the last successful fetch, as known from an
    /// earlier run.
    pub fn restore_last_fetched(&mut self, provider: Provider, ts: i64)
        ensures
            *final(self) == after_restore(*old(self), provider, ts),
    {
        match provider {
            Provider::SimpleFin => {
                self.last_fetched = Some(ts);
            },
            Provider::LunchFlow => {
                self.lf_last_fetched = Some(ts);
            },
        }
    }

    /// Marks a successful fetch.
    pub fn on_success(&mut self, provider: Provider, now: i64)
        ensures
            *final(self) == after_success(*old(self), provider, now),
    {
        match provider {
            Provider::SimpleFin => {
                self.last_fetched = Some(now);
                self.fetch_error = None;
            },
            Provider::LunchFlow => {
                self.lf_last_fetched = Some(now);
                self.lf_fetch_error = None;
            },
        }
    }

    /// Marks a failed fetch; stale data stays served.
    pub fn on_failure(&mut self, provider: Provider, error: String)
        ensures
            *final(self) == after_failure(*old(self), provider, error),
    {
        match provider {
            Provider::SimpleFin => {
                self.fetch_error = Some(error);
            },
            Provider::LunchFlow => {
                self.lf_fetch_error = Some(error);
            },
        }
    }

    /// Replaces the accounts by those of the latest fetch.
    pub fn replace_accounts(&mut self, accounts: Vec<CachedAccount>)
        ensures
            *final(self) == (CacheState { accounts, ..*old(self) }),
    {
        self.accounts = accounts;
    }

    /// Takes over the accounts stored by an earlier run, if there are any.
    pub fn preload_accounts(&mut self, accounts: Vec<CachedAccount>)
        ensures
            *final(self) == (if accounts@.len() == 0 {
                *old(self)
            } else {
                CacheState { accounts, ..*old(self) }
            }),
    {
        if accounts.len() > 0 {
            self.accounts = accounts;
        }
    }
}

/// The outcome of a fetch touches its own provider only: success sets the time and clears
/// the error, failure sets the error and leaves the time, and putting an earlier time in
/// place sets only the time. The accounts and the other provider stay as they were.
pub proof fn lemma_outcomes_kept_apart(state: CacheState, ts: i64, error: String)
    ensures
        ({
            let ok = after_success(state, Provider::SimpleFin, ts);
            let bad = after_failure(state, Provider::SimpleFin, error);
            let again = after_restore(state, Provider::SimpleFin, ts);
            &&& ok.last_fetched == Some(ts) && ok.fetch_error is None
            &&& bad.last_fetched == state.last_fetched && bad.fetch_error == Some(error)
            &&& again.last_fetched == Some(ts) && again.fetch_error == state.fetch_error
            &&& ok.accounts == state.accounts && bad.accounts == state.accounts
            &&& again.accounts == state.accounts
            &&& ok.lf_last_fetched == state.lf_last_fetched && ok.lf_fetch_error
                == state.lf_fetch_error
            &&& bad.lf_last_fetched == state.lf_last_fetched && bad.lf_fetch_error
                == state.lf_fetch_error
            &&& again.lf_last_fetched == state.lf_last_fetched && again.lf_fetch_error
                == state.lf_fetch_error
        }),
        ({
            let ok = after_success(state, Provider::LunchFlow, ts);
            let bad = after_failure(state, Provider::LunchFlow, error);
            let again = after_restore(state, Provider::LunchFlow, ts);
            &&& ok.lf_last_fetched == Some(ts) && ok.lf_fetch_error is None
            &&& bad.lf_last_fetched == state.lf_last_fetched && bad.lf_fetch_error == Some(error)
            &&& again.lf_last_fetched == Some(ts) && again.lf_fetch_error == state.lf_fetch_error
            &&& ok.accounts == state.accounts && bad.accounts == state.accounts
            &&& again.accounts == state.accounts
            &&& ok.last_fetched == state.last_fetched && ok.fetch_error == state.fetch_error
            &&& bad.last_fetched == state.last_fetched && bad.fetch_error == state.fetch_error
            &&& again.last_fetched == state.last_fetched && again.fetch_error
                == state.fetch_error
        }),
{
}

} // verus!
