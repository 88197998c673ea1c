//! Failures, their messages, and the HTTP answer each one receives.
use vstd::prelude::*;
use vstd::string::*;

verus! {

/// Why an operation failed. The variants from `Storage` on carry the text of
/// a failure that the storage engine, the network or the runtime reported.
#[derive(Debug)]
pub enum Error {
    Invalid(String),
    Request(u16, String),
    NotFound(String),
    Conflict(String),
    Busy,
    Limit(String),
    Corrupt(String),
    Config(String),
    Unavailable,
    Timeout,
    Storage(String),
    ObjectStore(String),
    Io(String),
    Encoding(String),
    Http(String),
    Worker(String),
}

/// An error with its texts as character sequences.
pub enum ErrorView {
    Invalid(Seq<char>),
    Request(u16, Seq<char>),
    NotFound(Seq<char>),
    Conflict(Seq<char>),
    Busy,
    Limit(Seq<char>),
    Corrupt(Seq<char>),
    Config(Seq<char>),
    Unavailable,
    Timeout,
    Storage(Seq<char>),
    ObjectStore(Seq<char>),
    Io(Seq<char>),
    Encoding(Seq<char>),
    Http(Seq<char>),
    Worker(Seq<char>),
}

impl View for Error {
    type V = ErrorView;

    open spec fn view(&self) -> ErrorView {
        match self {
            Error::Invalid(m) => ErrorView::Invalid(m@),
            Error::Request(status, m) => ErrorView::Request(*status, m@),
            Error::NotFound(m) => ErrorView::NotFound(m@),
            Error::Conflict(m) => ErrorView::Conflict(m@),
            Error::Busy => ErrorView::Busy,
            Error::Limit(m) => ErrorView::Limit(m@),
            Error::Corrupt(m) => ErrorView::Corrupt(m@),
            Error::Config(m) => ErrorView::Config(m@),
            Error::Unavailable => ErrorView::Unavailable,
            Error::Timeout => ErrorView::Timeout,
            Error::Storage(m) => ErrorView::Storage(m@),
            Error::ObjectStore(m) => ErrorView::ObjectStore(m@),
            Error::Io(m) => ErrorView::Io(m@),
            Error::Encoding(m) => ErrorView::Encoding(m@),
            Error::Http(m) => ErrorView::Http(m@),
            Error::Worker(m) => ErrorView::Worker(m@),
        }
    }
}

pub type Result<T> = std::result::Result<T, Error>;

/// What a check that yields no value decided.
pub type Verdict = std::result::Result<(), ErrorView>;

pub open spec fn verdict(result: std::result::Result<(), Error>) -> Verdict {
    match result {
        Ok(_) => Ok(()),
        Err(e) => Err(e@),
    }
}

impl ErrorView {
    /// The message shown for the error.
    pub open spec fn message(self) -> Seq<char> {
        match self {
            ErrorView::Invalid(m) => m,
            ErrorView::Request(_, m) => m,
            ErrorView::NotFound(m) => m,
            ErrorView::Conflict(m) => m,
            ErrorView::Busy => "too many concurrent queries; retry later"@,
            ErrorView::Limit(m) => m,
            ErrorView::Corrupt(m) => "stored data is corrupt: "@ + m,
            ErrorView::Config(m) => m,
            ErrorView::Unavailable => "no active database owner; retry later"@,
            ErrorView::Timeout => "request deadline exceeded; a write may still commit"@,
            ErrorView::Storage(m) => "storage failure: "@ + m,
            ErrorView::ObjectStore(m) => "object store failure: "@ + m,
            ErrorView::Io(m) => "I/O failure: "@ + m,
            ErrorView::Encoding(m) => "stored data could not be decoded: "@ + m,
            ErrorView::Http(m) => "HTTP request failed: "@ + m,
            ErrorView::Worker(m) => "worker failed: "@ + m,
        }
    }

    /// The HTTP status of the answer.
    pub open spec fn status(self) -> u16 {
        match self {
            ErrorView::Invalid(_) => 400,
            ErrorView::Request(status, _) => status,
            ErrorView::NotFound(_) => 404,
            ErrorView::Conflict(_) => 409,
            ErrorView::Limit(_) => 429,
            ErrorView::Busy | ErrorView::Unavailable | ErrorView::Storage(_)
            | ErrorView::ObjectStore(_) | ErrorView::Http(_) => 503,
            ErrorView::Timeout => 504,
            _ => 500,
        }
    }

    /// The error code of the answer.
    pub open spec fn code(self) -> Seq<char> {
        match self {
            ErrorView::Invalid(_) | ErrorView::Request(_, _) => "invalid_request"@,
            ErrorView::NotFound(_) => "not_found"@,
            ErrorView::Conflict(_) => "conflict"@,
            ErrorView::Busy => "busy"@,
            ErrorView::Limit(_) => "limit_exceeded"@,
            ErrorView::Unavailable | ErrorView::Http(_) => "unavailable"@,
            ErrorView::Timeout => "timeout"@,
            ErrorView::Storage(_) | ErrorView::ObjectStore(_) => "storage_unavailable"@,
            _ => "internal_error"@,
        }
    }

    /// The text of the answer. Failures of the storage engine and internal
    /// failures are described without their details.
    pub open spec fn answer(self) -> Seq<char> {
        match self {
            ErrorView::Storage(_) | ErrorView::ObjectStore(_) =>
                "Storage unavailable; a failed write may still have committed."@,
            ErrorView::Http(_) => ErrorView::Unavailable.message(),
            ErrorView::Corrupt(_) | ErrorView::Config(_) | ErrorView::Io(_) | ErrorView::Encoding(_)
            | ErrorView::Worker(_) => "Internal server error."@,
            _ => self.message(),
        }
    }
}

fn joined(prefix: &str, rest: &String) -> (text: String)
    ensures
        text@ == prefix@ + rest@,
{
    let mut text = prefix.to_string();
    text.append(rest.as_str());
    text
}

impl Error {
    pub fn message(&self) -> (text: String)
        ensures
            text@ == self@.message(),
    {
        match self {
            Error::Invalid(m) => m.clone(),
            Error::Request(_, m) => m.clone(),
            Error::NotFound(m) => m.clone(),
            Error::Conflict(m) => m.clone(),
            Error::Busy => "too many concurrent queries; retry later".to_string(),
            Error::Limit(m) => m.clone(),
            Error::Corrupt(m) => joined("stored data is corrupt: ", m),
            Error::Config(m) => m.clone(),
            Error::Unavailable => "no active database owner; retry later".to_string(),
            Error::Timeout => "request deadline exceeded; a write may still commit".to_string(),
            Error::Storage(m) => joined("storage failure: ", m),
            Error::ObjectStore(m) => joined("object store failure: ", m),
            Error::Io(m) => joined("I/O failure: ", m),
            Error::Encoding(m) => joined("stored data could not be decoded: ", m),
            Error::Http(m) => joined("HTTP request failed: ", m),
            Error::Worker(m) => joined("worker failed: ", m),
        }
    }

    /// Status, code and message of the HTTP answer.
    pub fn into_response(&self) -> (response: (u16, String, String))
        ensures
            response.0 == self@.status(),
            response.1@ == self@.code(),
            response.2@ == self@.answer(),
    {
        match self {
            Error::Invalid(_) => (400, "invalid_request".to_string(), self.message()),
            Error::Request(status, _) => (*status, "invalid_request".to_string(), self.message()),
            Error::NotFound(_) => (404, "not_found".to_string(), self.message()),
            Error::Conflict(_) => (409, "conflict".to_string(), self.message()),
            Error::Busy => (503, "busy".to_string(), self.message()),
            Error::Limit(_) => (429, "limit_exceeded".to_string(), self.message()),
            Error::Unavailable => (503, "unavailable".to_string(), self.message()),
            Error::Http(_) => (503, "unavailable".to_string(), Error::Unavailable.message()),
            Error::Timeout => (504, "timeout".to_string(), self.message()),
            Error::Storage(_) | Error::ObjectStore(_) => (
                503,
                "storage_unavailable".to_string(),
                "Storage unavailable; a failed write may still have committed.".to_string(),
            ),
            _ => (500, "internal_error".to_string(), "Internal server error.".to_string()),
        }
    }
}

pub fn invalid(message: &str) -> (error: Error)
    ensures
        error@ == ErrorView::Invalid(message@),
{
    Error::Invalid(message.to_string())
}

pub fn misconfigured(message: &str) -> (error: Error)
    ensures
        error@ == ErrorView::Config(message@),
{
    Error::Config(message.to_string())
}

pub fn corrupt(message: &str) -> (error: Error)
    ensures
        error@ == ErrorView::Corrupt(message@),
{
    Error::Corrupt(message.to_string())
}

pub fn over_limit(message: &str) -> (error: Error)
    ensures
        error@ == ErrorView::Limit(message@),
{
    Error::Limit(message.to_string())
}

/// Which answer each failure gets. What the caller did wrong is told with its
/// message: 400 and 404 and 409, and 429 beyond a quota; a request error has the
/// status that it carries. Where the database cannot serve, the status is 503, or
/// 504 after the deadline. Everything else is 500.
pub proof fn law_failures_are_answered(message: Seq<char>, status: u16)
    ensures
        ErrorView::Invalid(message).status() == 400,
        ErrorView::Request(status, message).status() == status,
        ErrorView::NotFound(message).status() == 404,
        ErrorView::Conflict(message).status() == 409,
        ErrorView::Limit(message).status() == 429,
        ErrorView::Busy.status() == 503,
        ErrorView::Unavailable.status() == 503,
        ErrorView::Storage(message).status() == 503,
        ErrorView::ObjectStore(message).status() == 503,
        ErrorView::Http(message).status() == 503,
        ErrorView::Timeout.status() == 504,
        ErrorView::Corrupt(message).status() == 500,
        ErrorView::Config(message).status() == 500,
        ErrorView::Io(message).status() == 500,
        ErrorView::Encoding(message).status() == 500,
        ErrorView::Worker(message).status() == 500,
        ErrorView::Invalid(message).answer() == message,
        ErrorView::Request(status, message).answer() == message,
        ErrorView::NotFound(message).answer() == message,
        ErrorView::Conflict(message).answer() == message,
        ErrorView::Limit(message).answer() == message,
        ErrorView::Invalid(message).code() == "invalid_request"@,
        ErrorView::Request(status, message).code() == "invalid_request"@,
        ErrorView::NotFound(message).code() == "not_found"@,
        ErrorView::Conflict(message).code() == "conflict"@,
        ErrorView::Limit(message).code() == "limit_exceeded"@,
        ErrorView::Busy.code() == "busy"@,
        ErrorView::Unavailable.code() == "unavailable"@,
        ErrorView::Http(message).code() == "unavailable"@,
        ErrorView::Timeout.code() == "timeout"@,
        ErrorView::Storage(message).code() == "storage_unavailable"@,
        ErrorView::ObjectStore(message).code() == "storage_unavailable"@,
{
}

/// An answer does not reveal the details of a failure inside: it is the same
/// whatever the storage engine, the network or the runtime reported.
pub proof fn law_details_stay_inside(a: Seq<char>, b: Seq<char>)
    ensures
        ErrorView::Storage(a).answer() == ErrorView::ObjectStore(b).answer(),
        ErrorView::Storage(a).answer()
            == "Storage unavailable; a failed write may still have committed."@,
        ErrorView::Http(a).answer() == ErrorView::Unavailable.answer(),
        ErrorView::Corrupt(a).answer() == ErrorView::Corrupt(b).answer(),
        ErrorView::Config(a).answer() == ErrorView::Corrupt(b).answer(),
        ErrorView::Io(a).answer() == ErrorView::Corrupt(b).answer(),
        ErrorView::Encoding(a).answer() == ErrorView::Corrupt(b).answer(),
        ErrorView::Worker(a).answer() == ErrorView::Corrupt(b).answer(),
        ErrorView::Corrupt(a).answer() == "Internal server error."@,
        ErrorView::Corrupt(a).code() == "internal_error"@,
        ErrorView::Config(a).code() == "internal_error"@,
        ErrorView::Io(a).code() == "internal_error"@,
        ErrorView::Encoding(a).code() == "internal_error"@,
        ErrorView::Worker(a).code() == "internal_error"@,
{
}

/// The message of a failure begins with what failed, and otherwise is what was
/// reported.
pub proof fn law_messages_tell_what_failed(m: Seq<char>, status: u16)
    ensures
        ErrorView::Invalid(m).message() == m,
        ErrorView::Request(status, m).message() == m,
        ErrorView::NotFound(m).message() == m,
        ErrorView::Conflict(m).message() == m,
        ErrorView::Limit(m).message() == m,
        ErrorView::Config(m).message() == m,
        ErrorView::Corrupt(m).message() == "stored data is corrupt: "@ + m,
        ErrorView::Storage(m).message() == "storage failure: "@ + m,
        ErrorView::ObjectStore(m).message() == "object store failure: "@ + m,
        ErrorView::Io(m).message() == "I/O failure: "@ + m,
        ErrorView::Encoding(m).message() == "stored data could not be decoded: "@ + m,
        ErrorView::Http(m).message() == "HTTP request failed: "@ + m,
        ErrorView::Worker(m).message() == "worker failed: "@ + m,
        ErrorView::Busy.message() == "too many concurrent queries; retry later"@,
        ErrorView::Unavailable.message() == "no active database owner; retry later"@,
        ErrorView::Timeout.message() == "request deadline exceeded; a write may still commit"@,
        ErrorView::Busy.answer() == ErrorView::Busy.message(),
        ErrorView::Unavailable.answer() == ErrorView::Unavailable.message(),
        ErrorView::Timeout.answer() == ErrorView::Timeout.message(),
{
}

/// A check succeeds or fails as its result does, and a failure is what it is in the
/// code.
pub proof fn law_failures_show_themselves(error: Error, status: u16, text: String)
    ensures
        verdict(Ok(())) is Ok,
        verdict(Err(error)) == Err::<(), ErrorView>(error@),
        Error::Invalid(text)@ == ErrorView::Invalid(text@),
        Error::Request(status, text)@ == ErrorView::Request(status, text@),
        Error::NotFound(text)@ == ErrorView::NotFound(text@),
        Error::Conflict(text)@ == ErrorView::Conflict(text@),
        Error::Limit(text)@ == ErrorView::Limit(text@),
        Error::Corrupt(text)@ == ErrorView::Corrupt(text@),
        Error::Config(text)@ == ErrorView::Config(text@),
        Error::Storage(text)@ == ErrorView::Storage(text@),
        Error::ObjectStore(text)@ == ErrorView::ObjectStore(text@),
        Error::Io(text)@ == ErrorView::Io(text@),
        Error::Encoding(text)@ == ErrorView::Encoding(text@),
        Error::Http(text)@ == ErrorView::Http(text@),
        Error::Worker(text)@ == ErrorView::Worker(text@),
        Error::Busy@ == ErrorView::Busy,
        Error::Unavailable@ == ErrorView::Unavailable,
        Error::Timeout@ == ErrorView::Timeout,
{
}

} // verus!
