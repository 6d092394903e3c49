//! The SDK's single error type, classified by HTTP semantics.
//!
//! Each variant of [`Error`] stands for one class of failure; callers match on
//! the variant. The API variants carry the server's message and its
//! `X-Request-ID`; local failures (transport, serialisation, parsing) carry the
//! text of what went wrong.

use vstd::prelude::*;
use std::time::Duration;
use crate::text::{concat, decimal, u64_text};

verus! {

/// Every way an SDK operation can fail.
#[derive(Debug)]
pub enum Error {
    /// 401 / 403: authentication or authorisation failed.
    Auth { status: u16, message: String, request_id: Option<String> },
    /// 404: the resource does not exist.
    NotFound { message: String, request_id: Option<String> },
    /// 422: a quota was exceeded.
    Quota { message: String, request_id: Option<String> },
    /// 429: rate limited; `retry_after` comes from the `Retry-After` header.
    RateLimit { message: String, request_id: Option<String>, retry_after: Option<Duration> },
    /// 5xx: the server failed.
    Server { status: u16, message: String, request_id: Option<String> },
    /// Any other non-success status.
    Api { status: u16, message: String, request_id: Option<String> },
    /// The HTTP or WebSocket transport failed; the text describes the failure.
    Network(String),
    /// Waiting for a sandbox state ran past its deadline.
    Timeout { state: String, elapsed: Duration },
    /// A write to a PTY session that is already closed.
    PtyClosed,
    /// The server does not implement the endpoint.
    NotImplemented { message: String },
    /// A request body could not be serialised or a response body could not be
    /// deserialised; the text describes the failure.
    Serde(String),
    /// A human-readable input (such as "4GiB" or "30m") could not be parsed.
    Parse(String),
}

/// The variant that [`Error::from_status`] builds for a status code.
pub open spec fn error_for_status(
    status: u16,
    message: String,
    request_id: Option<String>,
    retry_after: Option<Duration>,
) -> Error {
    if status == 401 || status == 403 {
        Error::Auth { status, message, request_id }
    } else if status == 404 {
        Error::NotFound { message, request_id }
    } else if status == 422 {
        Error::Quota { message, request_id }
    } else if status == 429 {
        Error::RateLimit { message, request_id, retry_after }
    } else if status >= 500 {
        Error::Server { status, message, request_id }
    } else {
        Error::Api { status, message, request_id }
    }
}

/// The HTTP status an error stands for, if it is an API error.
pub open spec fn status_of(e: Error) -> Option<u16> {
    match e {
        Error::Auth { status, .. } => Some(status),
        Error::Server { status, .. } => Some(status),
        Error::Api { status, .. } => Some(status),
        Error::NotFound { .. } => Some(404u16),
        Error::Quota { .. } => Some(422u16),
        Error::RateLimit { .. } => Some(429u16),
        _ => None,
    }
}

/// The request id an error carries, if it is an API error.
pub open spec fn request_id_of(e: Error) -> Option<String> {
    match e {
        Error::Auth { request_id, .. } => request_id,
        Error::NotFound { request_id, .. } => request_id,
        Error::Quota { request_id, .. } => request_id,
        Error::RateLimit { request_id, .. } => request_id,
        Error::Server { request_id, .. } => request_id,
        Error::Api { request_id, .. } => request_id,
        _ => None,
    }
}

/// The server message an API error carries.
pub open spec fn message_of(e: Error) -> Option<String> {
    match e {
        Error::Auth { message, .. } => Some(message),
        Error::NotFound { message, .. } => Some(message),
        Error::Quota { message, .. } => Some(message),
        Error::RateLimit { message, .. } => Some(message),
        Error::Server { message, .. } => Some(message),
        Error::Api { message, .. } => Some(message),
        _ => None,
    }
}

/// The text of `format!("{:?}", d)` for a duration.
pub uninterp spec fn duration_debug_text(d: Duration) -> Seq<char>;

/// The text an error displays.
pub open spec fn display_text(e: Error) -> Seq<char> {
    match e {
        Error::Auth { status, message, .. } => "sandbox API error "@ + decimal(status as nat)
            + ": "@ + message@ + " (auth)"@,
        Error::NotFound { message, .. } => "sandbox API error 404: "@ + message@ + " (not found)"@,
        Error::Quota { message, .. } => "sandbox API error 422: "@ + message@ + " (quota)"@,
        Error::RateLimit { message, .. } => "sandbox API error 429: "@ + message@
            + " (rate limit)"@,
        Error::Server { status, message, .. } => "sandbox API error "@ + decimal(status as nat)
            + ": "@ + message@ + " (server)"@,
        Error::Api { status, message, .. } => "sandbox API error "@ + decimal(status as nat)
            + ": "@ + message@,
        Error::Network(m) => "network error: "@ + m@,
        Error::Timeout { state, elapsed } => "timed out waiting for sandbox state (last state: "@
            + state@ + ", elapsed: "@ + duration_debug_text(elapsed) + ")"@,
        Error::PtyClosed => "PTY session is closed"@,
        Error::NotImplemented { message } => "not implemented by server: "@ + message@,
        Error::Serde(m) => "serialization error: "@ + m@,
        Error::Parse(m) => "parse error: "@ + m@,
    }
}

/// `format!("{:?}", d)`: std's debug rendering of a duration. The contract
/// names the text and says no more of it.
#[verifier::external_body]
fn duration_debug(d: &Duration) -> (s: String)
    ensures
        s@ == duration_debug_text(*d),
{
    format!("{:?}", d)
}

fn join3(a: &str, b: &str, c: &str) -> (s: String)
    ensures
        s@ == a@ + b@ + c@,
{
    let ab = concat(a, b);
    concat(ab.as_str(), c)
}

fn join5(a: &str, b: &str, c: &str, d: &str, e: &str) -> (s: String)
    ensures
        s@ == a@ + b@ + c@ + d@ + e@,
{
    let abc = join3(a, b, c);
    join3(abc.as_str(), d, e)
}

impl Error {
    /// Builds the variant for an HTTP status code, the server's message and
    /// its request id: 401/403 auth, 404 not found, 422 quota, 429 rate
    /// limit, 5xx server, anything else a generic API error.
    pub fn from_status(
        status: u16,
        message: String,
        request_id: Option<String>,
        retry_after: Option<Duration>,
    ) -> (e: Error)
        ensures
            e == error_for_status(status, message, request_id, retry_after),
    {
        if status == 401 || status == 403 {
            Error::Auth { status, message, request_id }
        } else if status == 404 {
            Error::NotFound { message, request_id }
        } else if status == 422 {
            Error::Quota { message, request_id }
        } else if status == 429 {
            Error::RateLimit { message, request_id, retry_after }
        } else if status >= 500 {
            Error::Server { status, message, request_id }
        } else {
            Error::Api { status, message, request_id }
        }
    }

    /// The HTTP status of an API error; `None` for local failures.
    pub fn status(&self) -> (r: Option<u16>)
        ensures
            r == status_of(*self),
    {
        match self {
            Error::Auth { status, .. } => Some(*status),
            Error::Server { status, .. } => Some(*status),
            Error::Api { status, .. } => Some(*status),
            Error::NotFound { .. } => Some(404),
            Error::Quota { .. } => Some(422),
            Error::RateLimit { .. } => Some(429),
            _ => None,
        }
    }

    /// The server's `X-Request-ID` of an API error, when it sent one.
    pub fn request_id(&self) -> (r: Option<&str>)
        ensures
            r is Some <==> request_id_of(*self) is Some,
            r matches Some(s) ==> s@ == request_id_of(*self)->0@,
    {
        let rid = match self {
            Error::Auth { request_id, .. } => request_id,
            Error::NotFound { request_id, .. } => request_id,
            Error::Quota { request_id, .. } => request_id,
            Error::RateLimit { request_id, .. } => request_id,
            Error::Server { request_id, .. } => request_id,
            Error::Api { request_id, .. } => request_id,
            _ => {
                return None;
            },
        };
        match rid {
            Some(s) => Some(s.as_str()),
            None => None,
        }
    }

    /// The text the error displays.
    pub fn describe(&self) -> (s: String)
        ensures
            s@ == display_text(*self),
    {
        match self {
            Error::Auth { status, message, .. } => {
                let code = u64_text(*status as u64);
                join5("sandbox API error ", code.as_str(), ": ", message.as_str(), " (auth)")
            },
            Error::NotFound { message, .. } => join3(
                "sandbox API error 404: ",
                message.as_str(),
                " (not found)",
            ),
            Error::Quota { message, .. } => join3(
                "sandbox API error 422: ",
                message.as_str(),
                " (quota)",
            ),
            Error::RateLimit { message, .. } => join3(
                "sandbox API error 429: ",
                message.as_str(),
                " (rate limit)",
            ),
            Error::Server { status, message, .. } => {
                let code = u64_text(*status as u64);
                join5("sandbox API error ", code.as_str(), ": ", message.as_str(), " (server)")
            },
            Error::Api { status, message, .. } => {
                let code = u64_text(*status as u64);
                let head = join3("sandbox API error ", code.as_str(), ": ");
                concat(head.as_str(), message.as_str())
            },
            Error::Network(m) => concat("network error: ", m.as_str()),
            Error::Timeout { state, elapsed } => {
                let shown = duration_debug(elapsed);
                join5(
                    "timed out waiting for sandbox state (last state: ",
                    state.as_str(),
                    ", elapsed: ",
                    shown.as_str(),
                    ")",
                )
            },
            Error::PtyClosed => String::from_str("PTY session is closed"),
            Error::NotImplemented { message } => concat(
                "not implemented by server: ",
                message.as_str(),
            ),
            Error::Serde(m) => concat("serialization error: ", m.as_str()),
            Error::Parse(m) => concat("parse error: ", m.as_str()),
        }
    }
}

/// The error built for a status reports that status, the request id and the
/// message it was built with.
pub proof fn lemma_from_status_round_trip(
    status: u16,
    message: String,
    request_id: Option<String>,
    retry_after: Option<Duration>,
)
    ensures
        status_of(error_for_status(status, message, request_id, retry_after)) == Some(status),
        request_id_of(error_for_status(status, message, request_id, retry_after)) == request_id,
        message_of(error_for_status(status, message, request_id, retry_after)) == Some(message),
{
}

/// Only API errors have a status, and exactly they have a message.
pub proof fn lemma_status_iff_api(e: Error)
    ensures
        status_of(e) is Some <==> message_of(e) is Some,
{
}

/// How a status is classified: 401 and 403 are authentication failures, 404
/// not found, 422 quota, 429 rate limiting (with the given wait), every
/// status of 500 or more a server failure, and any other an API error; each
/// keeps the status, message and request id it was built with.
pub proof fn lemma_status_classes(
    status: u16,
    message: String,
    request_id: Option<String>,
    retry_after: Option<Duration>,
)
    ensures
        ({
            let e = error_for_status(status, message, request_id, retry_after);
            &&& (status == 401 || status == 403) <==> e == Error::Auth { status, message, request_id }
            &&& status == 404 <==> e == Error::NotFound { message, request_id }
            &&& status == 422 <==> e == Error::Quota { message, request_id }
            &&& status == 429 <==> e == Error::RateLimit { message, request_id, retry_after }
            &&& status >= 500 <==> e == Error::Server { status, message, request_id }
            &&& (status < 500 && status != 401 && status != 403 && status != 404 && status != 422
                && status != 429) <==> e == Error::Api { status, message, request_id }
        }),
{
}

} // verus!
