//! Exposing sandbox ports: the request body, the endpoint paths, and how a
//! failure of these endpoints is reported.
//!
//! A 404 whose message mentions neither "sandbox" nor "port" is the router's
//! own "page not found": the server predates the endpoint, and the failure is
//! reported as [`Error::NotImplemented`]. Other failures of expose and
//! unexpose get the operation and port put in front of their message.

use vstd::prelude::*;
use crate::errors::{Error, message_of, request_id_of, status_of};
use crate::text::{
    concat, contains_text, decimal, first_occurrence, lemma_first_occurrence_absent, lower_ascii_seq,
    occurs_at, u64_text,
};
use crate::types::ExposeOpts;

verus! {

/// The body of `POST /v1/sandboxes/{id}/expose`. Absent fields are left out
/// of the JSON.
#[derive(Debug)]
pub struct ExposeRequest {
    pub port: u16,
    pub sign: Option<bool>,
    pub ttl: Option<String>,
    pub subdomain: Option<String>,
}

pub open spec fn given_text(o: Option<String>) -> Option<Seq<char>> {
    match o {
        Some(s) => if s@.len() > 0 {
            Some(s@)
        } else {
            None
        },
        None => None,
    }
}

pub open spec fn text_of(o: Option<String>) -> Option<Seq<char>> {
    match o {
        Some(s) => Some(s@),
        None => None,
    }
}

fn given_clone(o: &Option<String>) -> (r: Option<String>)
    ensures
        text_of(r) == given_text(*o),
{
    match o {
        Some(s) => if s.as_str().is_empty() {
            None
        } else {
            Some(s.clone())
        },
        None => None,
    }
}

/// The request for exposing `port`: `sign` only when asked for, `ttl`
/// (passed on as text) and `subdomain` only when non-empty.
pub fn expose_request(port: u16, opts: &ExposeOpts) -> (r: ExposeRequest)
    ensures
        r.port == port,
        r.sign == if opts.sign {
            Some(true)
        } else {
            None::<bool>
        },
        text_of(r.ttl) == given_text(opts.ttl),
        text_of(r.subdomain) == given_text(opts.subdomain),
{
    ExposeRequest {
        port,
        sign: if opts.sign {
            Some(true)
        } else {
            None
        },
        ttl: given_clone(&opts.ttl),
        subdomain: given_clone(&opts.subdomain),
    }
}

/// The text `str::to_lowercase` makes of a string (full Unicode case
/// mapping).
pub uninterp spec fn lowercase_text(s: Seq<char>) -> Seq<char>;

/// `str::to_lowercase`. The contract names the text; of text that is all
/// ASCII it adds that only `A`..`Z` change, to `a`..`z`, since the Unicode
/// lower-case mapping of an ASCII letter is its ASCII lower case. What other
/// characters become is left to the name.
#[verifier::external_body]
fn to_lowercase(s: &str) -> (r: String)
    ensures
        r@ == lowercase_text(s@),
        (forall|i: int| 0 <= i < s@.len() ==> (#[trigger] s@[i] as u32) < 128) ==> r@
            == lower_ascii_seq(s@),
{
    s.to_lowercase()
}

/// A lower-cased failure message that names neither a sandbox nor a port.
pub open spec fn names_no_target(t: Seq<char>) -> bool {
    first_occurrence(t, "sandbox"@) < 0 && first_occurrence(t, "port"@) < 0
}

/// The failure says that the server lacks the endpoint: a not-found error
/// whose lower-cased message names neither a sandbox nor a port.
pub open spec fn endpoint_missing(e: Error) -> bool {
    match e {
        Error::NotFound { message, .. } => names_no_target(lowercase_text(message@)),
        _ => false,
    }
}

/// Whether a lower-cased failure message names neither `sandbox` nor
/// `port`.
pub fn names_neither_sandbox_nor_port(t: &str) -> (b: bool)
    ensures
        b == names_no_target(t@),
{
    !contains_text(t, "sandbox") && !contains_text(t, "port")
}

/// Whether a failure means that the server has no expose endpoint.
pub fn is_endpoint_missing(err: &Error) -> (b: bool)
    ensures
        b == endpoint_missing(*err),
{
    match err {
        Error::NotFound { message, .. } => {
            let msg = to_lowercase(message.as_str());
            names_neither_sandbox_nor_port(msg.as_str())
        },
        _ => false,
    }
}

/// `"{op} port {port}: "`.
pub open spec fn port_prefix(op: Seq<char>, port: u16) -> Seq<char> {
    op + " port "@ + decimal(port as nat) + ": "@
}

/// Two errors agree in everything but the message.
pub open spec fn same_but_message(a: Error, b: Error) -> bool {
    match (a, b) {
        (Error::Auth { status: s1, request_id: r1, .. }, Error::Auth { status: s2, request_id: r2, .. }) => s1 == s2 && r1 == r2,
        (Error::NotFound { request_id: r1, .. }, Error::NotFound { request_id: r2, .. }) => r1 == r2,
        (Error::Quota { request_id: r1, .. }, Error::Quota { request_id: r2, .. }) => r1 == r2,
        (
            Error::RateLimit { request_id: r1, retry_after: w1, .. },
            Error::RateLimit { request_id: r2, retry_after: w2, .. },
        ) => r1 == r2 && w1 == w2,
        (Error::Server { status: s1, request_id: r1, .. }, Error::Server { status: s2, request_id: r2, .. }) => s1 == s2 && r1 == r2,
        (Error::Api { status: s1, request_id: r1, .. }, Error::Api { status: s2, request_id: r2, .. }) => s1 == s2 && r1 == r2,
        _ => false,
    }
}

/// An API error with the operation and port put in front of its message;
/// a local error unchanged.
pub open spec fn port_wrapped(err: Error, r: Error, op: Seq<char>, port: u16) -> bool {
    match message_of(err) {
        Some(m) => same_but_message(err, r) && message_of(r) is Some && message_of(r)->0@
            == port_prefix(op, port) + m@,
        None => r == err,
    }
}

/// Puts `"{op} port {port}: "` in front of the message of an API error,
/// keeping its variant and other fields; other errors pass unchanged.
pub fn wrap_port_error(err: Error, op: &str, port: u16) -> (r: Error)
    ensures
        port_wrapped(err, r, op@, port),
{
    let code = u64_text(port as u64);
    let a = concat(op, " port ");
    let b = concat(a.as_str(), code.as_str());
    let prefix = concat(b.as_str(), ": ");
    match err {
        Error::NotFound { message, request_id } => Error::NotFound {
            message: concat(prefix.as_str(), message.as_str()),
            request_id,
        },
        Error::Auth { status, message, request_id } => Error::Auth {
            status,
            message: concat(prefix.as_str(), message.as_str()),
            request_id,
        },
        Error::Quota { message, request_id } => Error::Quota {
            message: concat(prefix.as_str(), message.as_str()),
            request_id,
        },
        Error::RateLimit { message, request_id, retry_after } => Error::RateLimit {
            message: concat(prefix.as_str(), message.as_str()),
            request_id,
            retry_after,
        },
        Error::Server { status, message, request_id } => Error::Server {
            status,
            message: concat(prefix.as_str(), message.as_str()),
            request_id,
        },
        Error::Api { status, message, request_id } => Error::Api {
            status,
            message: concat(prefix.as_str(), message.as_str()),
            request_id,
        },
        other => other,
    }
}

/// The message of the error for a server without the expose endpoints.
pub open spec fn missing_endpoint_text() -> Seq<char> {
    "expose endpoint not yet available on this server"@
}

fn missing_endpoint() -> (e: Error)
    ensures
        e matches Error::NotImplemented { message } && message@ == missing_endpoint_text(),
{
    Error::NotImplemented {
        message: String::from_str("expose endpoint not yet available on this server"),
    }
}

/// How a failure of expose or unexpose of `port` is reported.
pub fn port_failure(err: Error, op: &str, port: u16) -> (r: Error)
    ensures
        endpoint_missing(err) ==> (r matches Error::NotImplemented { message } && message@
            == missing_endpoint_text()),
        !endpoint_missing(err) ==> port_wrapped(err, r, op@, port),
{
    if is_endpoint_missing(&err) {
        missing_endpoint()
    } else {
        wrap_port_error(err, op, port)
    }
}

/// How a failure of listing the exposed ports is reported.
pub fn listing_failure(err: Error) -> (r: Error)
    ensures
        endpoint_missing(err) ==> (r matches Error::NotImplemented { message } && message@
            == missing_endpoint_text()),
        !endpoint_missing(err) ==> r == err,
{
    if is_endpoint_missing(&err) {
        missing_endpoint()
    } else {
        err
    }
}

/// `/v1/sandboxes/{id}/expose`.
pub fn expose_path(sandbox_id: &str) -> (p: String)
    ensures
        p@ == "/v1/sandboxes/"@ + sandbox_id@ + "/expose"@,
{
    let a = concat("/v1/sandboxes/", sandbox_id);
    concat(a.as_str(), "/expose")
}

/// `/v1/sandboxes/{id}/expose/{port}`.
pub fn unexpose_path(sandbox_id: &str, port: u16) -> (p: String)
    ensures
        p@ == "/v1/sandboxes/"@ + sandbox_id@ + "/expose/"@ + decimal(port as nat),
{
    let a = concat("/v1/sandboxes/", sandbox_id);
    let b = concat(a.as_str(), "/expose/");
    let code = u64_text(port as u64);
    concat(b.as_str(), code.as_str())
}

/// Putting the port in front of a message keeps the variant's status and
/// request id.
pub proof fn lemma_port_wrap_keeps_identity(err: Error, r: Error, op: Seq<char>, port: u16)
    requires
        port_wrapped(err, r, op, port),
    ensures
        status_of(r) == status_of(err),
        request_id_of(r) == request_id_of(err),
{
}

/// A lower-cased message names no target exactly when neither `sandbox` nor
/// `port` occurs anywhere in it.
pub proof fn lemma_names_no_target_means(t: Seq<char>)
    ensures
        names_no_target(t) <==> (forall|i: int| !#[trigger] occurs_at(t, "sandbox"@, i)) && (forall|
            i: int,
        | !#[trigger] occurs_at(t, "port"@, i)),
{
    lemma_first_occurrence_absent(t, "sandbox"@, 0);
    lemma_first_occurrence_absent(t, "port"@, 0);
    assert forall|i: int| i < 0 implies !#[trigger] occurs_at(t, "sandbox"@, i) by {}
    assert forall|i: int| i < 0 implies !#[trigger] occurs_at(t, "port"@, i) by {}
}

/// Only a not-found error can mean that the endpoint is missing.
pub proof fn lemma_endpoint_missing_only_not_found(e: Error)
    ensures
        endpoint_missing(e) ==> e is NotFound,
{
}

/// Wrapping a port error keeps its kind and every field but the message,
/// and the message becomes `"{op} port {port}: "` and the old message;
/// errors without a message pass unchanged.
pub proof fn lemma_port_wrap_message(err: Error, r: Error, op: Seq<char>, port: u16)
    requires
        port_wrapped(err, r, op, port),
    ensures
        message_of(err) is Some ==> message_of(r) is Some && message_of(r)->0@ == op + " port "@
            + decimal(port as nat) + ": "@ + message_of(err)->0@,
        message_of(err) is None ==> r == err,
        err is Auth <==> r is Auth,
        err is NotFound <==> r is NotFound,
        err is Quota <==> r is Quota,
        err is RateLimit <==> r is RateLimit,
        err is Server <==> r is Server,
        err is Api <==> r is Api,
        err is RateLimit ==> err->RateLimit_retry_after == r->RateLimit_retry_after,
        status_of(r) == status_of(err),
        request_id_of(r) == request_id_of(err),
{
}

} // verus!
