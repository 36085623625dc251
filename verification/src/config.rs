//! Server configuration.
use crate::text::{parse_u64, u64_value};
use vstd::prelude::*;

verus! {

/// Server configuration.
#[derive(Debug)]
pub struct Config {
    /// One-time setup token from the SimpleFIN bridge. Only needed on first run.
    pub setup_token: Option<String>,
    /// LunchFlow API key. Without it the LunchFlow fetcher is disabled.
    pub lunchflow_api_key: Option<String>,
    /// Seconds between polls of a provider.
    pub fetch_interval_secs: u64,
    /// TCP address to listen on.
    pub server_addr: String,
    /// SQLite connection string, e.g. `sqlite://simplefin.db`.
    pub database_url: String,
    /// Days of transaction history to fetch on the very first run.
    pub start_date_days_back: u64,
}

/// Values of the environment variables that configure the server.
#[derive(Debug)]
pub struct Environment {
    /// `SIMPLEFIN_SETUP_TOKEN`
    pub setup_token: Option<String>,
    /// `LUNCHFLOW_API_KEY`
    pub lunchflow_api_key: Option<String>,
    /// `FETCH_INTERVAL_SECS`
    pub fetch_interval_secs: Option<String>,
    /// `SERVER_ADDR`
    pub server_addr: Option<String>,
    /// `DATABASE_URL`
    pub database_url: Option<String>,
    /// `START_DATE_DAYS_BACK`
    pub start_date_days_back: Option<String>,
}

/// The count that an optional text stands for, or a default.
pub open spec fn count_or(text: Option<String>, default: u64) -> u64 {
    match text {
        Some(t) => match u64_value(t@) {
            Some(v) => v,
            None => default,
        },
        None => default,
    }
}

/// The characters of an optional text, or those of a default.
pub open spec fn text_or(text: Option<String>, default: Seq<char>) -> Seq<char> {
    match text {
        Some(t) => t@,
        None => default,
    }
}

fn read_count(text: &Option<String>, default: u64) -> (r: u64)
    ensures
        r == count_or(*text, default),
{
    match text {
        Some(t) => match parse_u64(t.as_str()) {
            Some(v) => v,
            None => default,
        },
        None => default,
    }
}

impl Config {
    /// The configuration that the environment asks for. Values that are absent,
    /// and counts that are not numbers, take their defaults.
    pub fn from_env(env: Environment) -> (r: Self)
        ensures
            r.setup_token == env.setup_token,
            r.lunchflow_api_key == env.lunchflow_api_key,
            r.fetch_interval_secs == count_or(env.fetch_interval_secs, 3600),
            r.server_addr@ == text_or(env.server_addr, "0.0.0.0:8080"@),
            r.database_url@ == text_or(env.database_url, "sqlite://simplefin.db"@),
            r.start_date_days_back == count_or(env.start_date_days_back, 90),
            env.fetch_interval_secs is None ==> r.fetch_interval_secs == 3600,
            env.start_date_days_back is None ==> r.start_date_days_back == 90,
            env.server_addr matches Some(t) ==> r.server_addr@ == t@,
            env.server_addr is None ==> r.server_addr@ == "0.0.0.0:8080"@,
            env.database_url matches Some(t) ==> r.database_url@ == t@,
            env.database_url is None ==> r.database_url@ == "sqlite://simplefin.db"@,
    {
        Config {
            setup_token: env.setup_token,
            lunchflow_api_key: env.lunchflow_api_key,
            fetch_interval_secs: read_count(&env.fetch_interval_secs, 3600),
            server_addr: match env.server_addr {
                Some(addr) => addr,
                None => "0.0.0.0:8080".to_owned(),
            },
            database_url: match env.database_url {
                Some(url) => url,
                None => "sqlite://simplefin.db".to_owned(),
            },
            start_date_days_back: read_count(&env.start_date_days_back, 90),
        }
    }

    /// Whether SimpleFIN data can be fetched: a setup token is given, or an access
    /// URL was claimed before.
    pub fn simplefin_configured(&self, has_access_url: bool) -> (r: bool)
        ensures
            r == (self.setup_token is Some || has_access_url),
    {
        self.setup_token.is_some() || has_access_url
    }

    /// Whether LunchFlow data can be fetched.
    pub fn lunchflow_configured(&self) -> (r: bool)
        ensures
            r == self.lunchflow_api_key is Some,
    {
        self.lunchflow_api_key.is_some()
    }
}

/// A setting that the environment gives is taken over: a text as it stands, a count
/// where it is a number. Where it gives none, or a count that is no number, the default
/// stands.
pub proof fn lemma_settings_read(text: Option<String>, count: u64, default: Seq<char>)
    ensures
        text matches Some(t) ==> u64_value(t@) is Some ==> count_or(text, count) == u64_value(
            t@,
        )->0,
        text matches Some(t) ==> u64_value(t@) is None ==> count_or(text, count) == count,
        text is None ==> count_or(text, count) == count,
        text matches Some(t) ==> text_or(text, default) == t@,
        text is None ==> text_or(text, default) == default,
{
}

} // verus!
