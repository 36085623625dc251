//! Errors that requests and fetches end in.
use crate::text::join;
use vstd::prelude::*;

verus! {

/// Why a request or a fetch failed.
#[derive(Debug)]
pub enum AppError {
    /// No provider has completed its first fetch.
    NotReady,
    AccountNotFound,
    BadRequest(String),
    Conflict(String),
    /// The text of a storage error.
    Database(String),
    Internal(String),
}

impl AppError {
    /// The HTTP status of an error.
    pub open spec fn status(self) -> u16 {
        match self {
            AppError::NotReady => 503,
            AppError::AccountNotFound => 404,
            AppError::BadRequest(_) => 400,
            AppError::Conflict(_) => 409,
            AppError::Database(_) => 500,
            AppError::Internal(_) => 500,
        }
    }

    /// The text of an error.
    pub open spec fn text(self) -> Seq<char> {
        match self {
            AppError::NotReady => "no data available yet — initial fetch in progress"@,
            AppError::AccountNotFound => "account not found"@,
            AppError::BadRequest(message) => message@,
            AppError::Conflict(message) => message@,
            AppError::Database(message) => "database error: "@ + message@,
            AppError::Internal(message) => "internal error: "@ + message@,
        }
    }

    /// The HTTP status of the response to this error.
    pub fn status_code(&self) -> (r: u16)
        ensures
            r == self.status(),
    {
        match self {
            AppError::NotReady => 503,
            AppError::AccountNotFound => 404,
            AppError::BadRequest(_) => 400,
            AppError::Conflict(_) => 409,
            AppError::Database(_) => 500,
            AppError::Internal(_) => 500,
        }
    }

    /// The text of this error, as the response body carries it.
    pub fn message(&self) -> (r: String)
        ensures
            r@ == self.text(),
    {
        match self {
            AppError::NotReady => "no data available yet — initial fetch in progress".to_owned(),
            AppError::AccountNotFound => "account not found".to_owned(),
            AppError::BadRequest(message) => message.clone(),
            AppError::Conflict(message) => message.clone(),
            AppError::Database(message) => join("database error: ", message.as_str()),
            AppError::Internal(message) => join("internal error: ", message.as_str()),
        }
    }

    /// The error for a storage failure: a violated uniqueness constraint is a
    /// conflict of rules, anything else a database error.
    pub fn from_storage(unique_violation: bool, message: String) -> (r: Self)
        ensures
            unique_violation ==> (r matches AppError::Conflict(m) && m@
                == "a rule for this account pair already exists"@),
            !unique_violation ==> r == AppError::Database(message),
    {
        if unique_violation {
            AppError::Conflict("a rule for this account pair already exists".to_owned())
        } else {
            AppError::Database(message)
        }
    }

    /// The error for a failure of the LunchFlow client.
    pub fn from_lunchflow(message: &str) -> (r: Self)
        ensures
            r matches AppError::Internal(m) && m@ == "LunchFlow error: "@ + message@,
    {
        AppError::Internal(join("LunchFlow error: ", message))
    }

    /// The error for a failure of the SimpleFIN client.
    pub fn from_simplefin(message: &str) -> (r: Self)
        ensures
            r matches AppError::Internal(m) && m@ == "SimpleFIN error: "@ + message@,
    {
        AppError::Internal(join("SimpleFIN error: ", message))
    }

    /// The error for a failure that is known by its text alone.
    pub fn from_message(message: String) -> (r: Self)
        ensures
            r == AppError::Internal(message),
    {
        AppError::Internal(message)
    }
}

/// A request that came too early can be tried again, one for what is not there or that
/// makes no sense is the client's fault, and only failures of the server are answered as
/// such. The text given with a client's fault is passed on as it stands; a failure of
/// the server says what failed before it.
pub proof fn lemma_errors_answered(e: AppError)
    ensures
        e is NotReady <==> e.status() == 503,
        e is AccountNotFound <==> e.status() == 404,
        e is BadRequest <==> e.status() == 400,
        e is Conflict <==> e.status() == 409,
        e is Database || e is Internal <==> e.status() == 500,
        e matches AppError::BadRequest(m) ==> e.text() == m@,
        e matches AppError::Conflict(m) ==> e.text() == m@,
        e matches AppError::Database(m) ==> e.text() == "database error: "@ + m@,
        e matches AppError::Internal(m) ==> e.text() == "internal error: "@ + m@,
        e is AccountNotFound ==> e.text() == "account not found"@,
        e is NotReady ==> e.text() == "no data available yet — initial fetch in progress"@,
{
}

} // verus!
