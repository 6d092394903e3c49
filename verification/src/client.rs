//! Client configuration and the rules of the HTTP exchange: where the API
//! lives, how requests are addressed and authorised, and how a failed
//! response becomes an [`Error`].

use vstd::prelude::*;
use std::time::Duration;
use crate::errors::{Error, error_for_status, message_of};
use crate::parse::{all_digits, digits_value, lemma_unsigned_digits, parse_unsigned, unsigned_literal};
use crate::text::{
    chars_of, concat, first_occurrence, first_occurrence_from, lemma_first_occurrence_absent, occurs_at, replace_first,
    replace_first_text, string_from_chars,
};

verus! {

/// The API server used when neither the caller nor the environment names one.
pub open spec fn default_server_text() -> Seq<char> {
    "http://localhost:18080"@
}

/// Seconds a request may take by default.
pub open spec fn default_timeout_secs() -> u64 {
    30
}

/// The duration `Duration::from_secs(secs)` builds.
pub uninterp spec fn secs_duration(secs: u64) -> Duration;

/// `Duration::from_secs`: the contract names the value it builds.
#[verifier::external_body]
fn duration_from_secs(secs: u64) -> (d: Duration)
    ensures
        d == secs_duration(secs),
{
    Duration::from_secs(secs)
}

/// `s` without its trailing run of `c`.
pub open spec fn strip_trailing(s: Seq<char>, c: char) -> Seq<char>
    decreases s.len(),
{
    if s.len() > 0 && s.last() == c {
        strip_trailing(s.drop_last(), c)
    } else {
        s
    }
}

proof fn lemma_strip_trailing_skip(s: Seq<char>, c: char, j: int)
    requires
        0 <= j <= s.len(),
        forall|k: int| j <= k < s.len() ==> #[trigger] s[k] == c,
    ensures
        strip_trailing(s, c) == strip_trailing(s.subrange(0, j), c),
    decreases s.len() - j,
{
    if j == s.len() {
        assert(s.subrange(0, j) =~= s);
    } else {
        lemma_strip_trailing_skip(s.drop_last(), c, j);
        assert(s.drop_last().subrange(0, j) =~= s.subrange(0, j));
    }
}

/// `s.trim_end_matches('/')`.
pub fn trim_trailing_slash(s: &str) -> (r: String)
    ensures
        r@ == strip_trailing(s@, '/'),
{
    let cs = chars_of(s);
    let mut j = cs.len();
    while j > 0 && cs[j - 1] == '/'
        invariant
            j <= cs@.len(),
            forall|k: int| j <= k < cs@.len() ==> #[trigger] cs@[k] == '/',
        decreases j,
    {
        j = j - 1;
    }
    let mut out: Vec<char> = Vec::new();
    for k in 0..j
        invariant
            j <= cs@.len(),
            out@ == cs@.subrange(0, k as int),
    {
        out.push(cs[k]);
        assert(cs@.subrange(0, k + 1) =~= cs@.subrange(0, k as int).push(cs@[k as int]));
    }
    proof {
        lemma_strip_trailing_skip(cs@, '/', j as int);
        let t = cs@.subrange(0, j as int);
        if t.len() > 0 {
            assert(t.last() == cs@[j - 1]);
        }
    }
    string_from_chars(&out)
}

/// The server an unconfigured client talks to: an explicit non-empty one,
/// else a non-empty `TALON_SANDBOX_SERVER`, else the default; trailing
/// slashes dropped from the first two.
pub open spec fn resolved_server(explicit: Option<Seq<char>>, from_env: Option<Seq<char>>) -> Seq<
    char,
> {
    if explicit matches Some(s) && s.len() > 0 {
        strip_trailing(explicit->0, '/')
    } else if from_env matches Some(s) && s.len() > 0 {
        strip_trailing(from_env->0, '/')
    } else {
        default_server_text()
    }
}

pub open spec fn opt_view(o: Option<&str>) -> Option<Seq<char>> {
    match o {
        Some(s) => Some(s@),
        None => None,
    }
}

pub open spec fn opt_string_view(o: Option<String>) -> Option<Seq<char>> {
    match o {
        Some(s) => Some(s@),
        None => None,
    }
}

/// Resolves the server URL from an explicit value and the value of
/// `TALON_SANDBOX_SERVER` (as read by the caller).
pub fn resolve_server(explicit: Option<&str>, from_env: Option<&str>) -> (r: String)
    ensures
        r@ == resolved_server(opt_view(explicit), opt_view(from_env)),
{
    if let Some(s) = explicit {
        if !s.is_empty() {
            return trim_trailing_slash(s);
        }
    }
    match from_env {
        Some(s) if !s.is_empty() => trim_trailing_slash(s),
        _ => String::from_str("http://localhost:18080"),
    }
}

/// The API key from `TALON_SANDBOX_API_KEY` (as read by the caller), when
/// it is set and non-empty.
pub fn env_api_key(from_env: Option<&str>) -> (r: Option<String>)
    ensures
        opt_string_view(r) == match opt_view(from_env) {
            Some(k) => if k.len() > 0 {
                Some(k)
            } else {
                None
            },
            None => None,
        },
{
    match from_env {
        Some(s) if !s.is_empty() => Some(String::from_str(s)),
        _ => None,
    }
}

/// The URL does not end with `/`.
pub open spec fn no_trailing_slash(s: Seq<char>) -> bool {
    s.len() == 0 || s.last() != '/'
}

/// Builder of the settings a client is made from. Its base URL never ends
/// with `/`, whatever steps made it.
#[derive(Debug)]
pub struct ClientBuilder {
    base_url: String,
    api_key: Option<String>,
    timeout: Duration,
}

impl ClientBuilder {
    #[verifier::type_invariant]
    closed spec fn wf(self) -> bool {
        no_trailing_slash(self.base_url@)
    }

    pub closed spec fn base_url_view(self) -> Seq<char> {
        self.base_url@
    }

    pub closed spec fn api_key_view(self) -> Option<Seq<char>> {
        opt_string_view(self.api_key)
    }

    pub closed spec fn timeout_view(self) -> Duration {
        self.timeout
    }

    /// The defaults: the server and API key taken from the environment
    /// values given (`TALON_SANDBOX_SERVER`, `TALON_SANDBOX_API_KEY`), a
    /// 30 second timeout.
    pub fn from_environment(server_var: Option<&str>, api_key_var: Option<&str>) -> (b:
        ClientBuilder)
        ensures
            b.base_url_view() == resolved_server(None, opt_view(server_var)),
            no_trailing_slash(b.base_url_view()),
            b.api_key_view() == match opt_view(api_key_var) {
                Some(k) => if k.len() > 0 {
                    Some(k)
                } else {
                    None
                },
                None => None,
            },
            b.timeout_view() == secs_duration(default_timeout_secs()),
    {
        let base_url = resolve_server(None, server_var);
        proof {
            if let Some(v) = opt_view(server_var) {
                lemma_trimmed_url_has_no_trailing_slash(v);
            }
            reveal_strlit("http://localhost:18080");
        }
        ClientBuilder { base_url, api_key: env_api_key(api_key_var), timeout: duration_from_secs(30) }
    }

    /// Sets the API server; an empty value leaves the current one. Trailing
    /// slashes are dropped.
    pub fn server(self, server: &str) -> (b: ClientBuilder)
        ensures
            b.base_url_view() == if server@.len() > 0 {
                strip_trailing(server@, '/')
            } else {
                self.base_url_view()
            },
            no_trailing_slash(b.base_url_view()),
            b.api_key_view() == self.api_key_view(),
            b.timeout_view() == self.timeout_view(),
    {
        proof {
            use_type_invariant(&self);
            lemma_trimmed_url_has_no_trailing_slash(server@);
        }
        let ClientBuilder { base_url, api_key, timeout } = self;
        let base_url = if !server.is_empty() {
            trim_trailing_slash(server)
        } else {
            base_url
        };
        ClientBuilder { base_url, api_key, timeout }
    }

    /// Sets the bearer API key.
    pub fn api_key(self, key: &str) -> (b: ClientBuilder)
        ensures
            b.base_url_view() == self.base_url_view(),
            b.api_key_view() == Some(key@),
            b.timeout_view() == self.timeout_view(),
    {
        proof {
            use_type_invariant(&self);
        }
        let ClientBuilder { base_url, api_key: _, timeout } = self;
        ClientBuilder { base_url, api_key: Some(String::from_str(key)), timeout }
    }

    /// Sets the per-request timeout.
    pub fn timeout(self, d: Duration) -> (b: ClientBuilder)
        ensures
            b.base_url_view() == self.base_url_view(),
            b.api_key_view() == self.api_key_view(),
            b.timeout_view() == d,
    {
        proof {
            use_type_invariant(&self);
        }
        let ClientBuilder { base_url, api_key, timeout: _ } = self;
        ClientBuilder { base_url, api_key, timeout: d }
    }

    /// The settings: base URL, API key and timeout. Whatever chain of
    /// steps made the builder, the base URL does not end with `/`.
    pub fn into_parts(self) -> (r: (String, Option<String>, Duration))
        ensures
            r.0@ == self.base_url_view(),
            no_trailing_slash(r.0@),
            opt_string_view(r.1) == self.api_key_view(),
            r.2 == self.timeout_view(),
    {
        proof {
            use_type_invariant(&self);
        }
        let ClientBuilder { base_url, api_key, timeout } = self;
        (base_url, api_key, timeout)
    }
}

/// Process-wide defaults for clients.
#[derive(Debug)]
pub struct Config {
    server: String,
    api_key: Option<String>,
}

impl Config {
    pub closed spec fn server_view(self) -> Seq<char> {
        self.server@
    }

    pub closed spec fn api_key_view(self) -> Option<Seq<char>> {
        opt_string_view(self.api_key)
    }

    /// A configuration for the given server.
    pub fn new(server: &str) -> (c: Config)
        ensures
            c.server_view() == server@,
            c.api_key_view() == None::<Seq<char>>,
    {
        Config { server: String::from_str(server), api_key: None }
    }

    /// Sets the API key.
    pub fn api_key(self, key: &str) -> (c: Config)
        ensures
            c.server_view() == self.server_view(),
            c.api_key_view() == Some(key@),
    {
        Config { server: self.server, api_key: Some(String::from_str(key)) }
    }

    /// The builder this configuration makes from the defaults: its server
    /// when non-empty, and its API key when set.
    pub fn into_builder(self, defaults: ClientBuilder) -> (b: ClientBuilder)
        ensures
            b.base_url_view() == if self.server_view().len() > 0 {
                strip_trailing(self.server_view(), '/')
            } else {
                defaults.base_url_view()
            },
            no_trailing_slash(b.base_url_view()),
            b.api_key_view() == match self.api_key_view() {
                Some(k) => Some(k),
                None => defaults.api_key_view(),
            },
            b.timeout_view() == defaults.timeout_view(),
    {
        let b = defaults.server(self.server.as_str());
        match &self.api_key {
            Some(k) => b.api_key(k.as_str()),
            None => b,
        }
    }
}

/// The URL of an endpoint: the base URL followed by the path.
pub fn request_url(base_url: &str, path: &str) -> (r: String)
    ensures
        r@ == base_url@ + path@,
{
    concat(base_url, path)
}

/// The WebSocket URL of an endpoint: `https://` in the base URL becomes
/// `wss://`, then `http://` becomes `ws://` (first occurrence each), and the
/// path is appended.
pub open spec fn ws_url_text(base_url: Seq<char>, path: Seq<char>) -> Seq<char> {
    replace_first(replace_first(base_url, "https://"@, "wss://"@), "http://"@, "ws://"@) + path
}

pub fn ws_url(base_url: &str, path: &str) -> (r: String)
    ensures
        r@ == ws_url_text(base_url@, path@),
{
    let a = replace_first_text(base_url, "https://", "wss://");
    let b = replace_first_text(a.as_str(), "http://", "ws://");
    concat(b.as_str(), path)
}

/// The `Authorization` header value for an API key: `Bearer <key>`.
pub fn auth_header(api_key: Option<&str>) -> (r: Option<String>)
    ensures
        opt_string_view(r) == match opt_view(api_key) {
            Some(k) => Some("Bearer "@ + k),
            None => None,
        },
{
    match api_key {
        Some(k) => Some(concat("Bearer ", k)),
        None => None,
    }
}

/// The message of a failed response: the body's `error` field when the body
/// parsed as `{"error": ...}` and the field is non-empty, else the raw body.
pub open spec fn response_message(body: Seq<char>, error_field: Option<Seq<char>>) -> Seq<char> {
    match error_field {
        Some(e) => if e.len() > 0 {
            e
        } else {
            body
        },
        None => body,
    }
}

/// The wait that a `Retry-After` header asks for: its value as a whole
/// number of seconds, when it is one that fits in `u64`.
pub open spec fn retry_wait(retry_after: Option<Seq<char>>) -> Option<Duration> {
    match retry_after {
        Some(t) => match unsigned_literal(t) {
            Some(n) => Some(secs_duration(n as u64)),
            None => None,
        },
        None => None,
    }
}

/// The error for a non-success response. `error_field` is the `error` field
/// of the body when the body parsed as an error object; `retry_after` is the
/// `Retry-After` header as text, used when it is a whole number of seconds.
pub fn error_from_response(
    status: u16,
    request_id: Option<String>,
    retry_after: Option<&str>,
    body: String,
    error_field: Option<String>,
) -> (e: Error)
    ensures
        ({
            let message_text = response_message(body@, opt_string_view(error_field));
            let wait = retry_wait(opt_view(retry_after));
            &&& message_of(e) is Some
            &&& message_of(e)->0@ == message_text
            &&& e == error_for_status(status, message_of(e)->0, request_id, wait)
        }),
{
    let message = match error_field {
        Some(f) => if !f.as_str().is_empty() {
            f
        } else {
            body
        },
        None => body,
    };
    let wait = match retry_after {
        Some(t) => match parse_unsigned(t) {
            Some(n) => Some(duration_from_secs(n)),
            None => None,
        },
        None => None,
    };
    let ghost m = message;
    let e = Error::from_status(status, message, request_id, wait);
    assert(e == error_for_status(status, m, request_id, wait));
    e
}

/// A configured base URL never ends with `/`, and trimming it again
/// changes nothing.
pub proof fn lemma_trimmed_url_has_no_trailing_slash(s: Seq<char>)
    ensures
        strip_trailing(s, '/').len() > 0 ==> strip_trailing(s, '/').last() != '/',
        strip_trailing(strip_trailing(s, '/'), '/') == strip_trailing(s, '/'),
    decreases s.len(),
{
    if s.len() > 0 && s.last() == '/' {
        lemma_trimmed_url_has_no_trailing_slash(s.drop_last());
    }
}

/// A WebSocket URL is the HTTP URL with its scheme swapped: for a base URL
/// `https://rest` whose `rest` holds no `https://` or `http://`, the URL is
/// `wss://rest` followed by the path.
pub proof fn lemma_ws_url_of_https(rest: Seq<char>, path: Seq<char>)
    requires
        first_occurrence(rest, "https://"@) < 0,
        first_occurrence(rest, "http://"@) < 0,
    ensures
        ws_url_text("https://"@ + rest, path) == "wss://"@ + rest + path,
{
    reveal_strlit("https://");
    reveal_strlit("http://");
    reveal_strlit("wss://");
    let base = "https://"@ + rest;
    assert(occurs_at(base, "https://"@, 0)) by {
        assert(base.subrange(0, 8) =~= "https://"@);
    }
    assert(first_occurrence(base, "https://"@) == 0);
    assert(base.subrange(0, 0) + "wss://"@ + base.subrange(8, base.len() as int) =~= "wss://"@ + rest);
    let w = "wss://"@ + rest;
    lemma_no_occurrence_after_prefix(w, "http://"@, rest);
}

proof fn lemma_no_occurrence_after_prefix(w: Seq<char>, pat: Seq<char>, rest: Seq<char>)
    requires
        pat == "http://"@,
        w == "wss://"@ + rest,
        first_occurrence(rest, pat) < 0,
    ensures
        first_occurrence(w, pat) < 0,
{
    reveal_strlit("http://");
    reveal_strlit("wss://");
    lemma_absent_from(rest, pat, 0);
    lemma_absent_shift(w, pat, rest, 0);
}

/// `first_occurrence_from` is -1 exactly when no index at or after `i` has an
/// occurrence.
proof fn lemma_absent_from(s: Seq<char>, pat: Seq<char>, i: nat)
    requires
        first_occurrence_from(s, pat, i) < 0,
    ensures
        forall|j: int| i <= j ==> !occurs_at(s, pat, j),
    decreases s.len() + 1 - i,
{
    if i + pat.len() <= s.len() {
        lemma_absent_from(s, pat, i + 1);
    }
}

proof fn lemma_absent_shift(w: Seq<char>, pat: Seq<char>, rest: Seq<char>, i: nat)
    requires
        pat == "http://"@,
        w == "wss://"@ + rest,
        forall|j: int| 0 <= j ==> !occurs_at(rest, pat, j),
    ensures
        first_occurrence_from(w, pat, i) < 0,
    decreases w.len() + 1 - i,
{
    reveal_strlit("http://");
    reveal_strlit("wss://");
    if i + pat.len() <= w.len() {
        if occurs_at(w, pat, i as int) {
            if i >= 6 {
                assert(!occurs_at(rest, pat, i - 6));
                assert(w.subrange(i as int, i as int + 7) =~= rest.subrange(i - 6, i - 6 + 7));
            } else {
                let t = w.subrange(i as int, i as int + 7);
                assert(t[0] == pat[0]);
                assert(t[1] == pat[1]);
                assert(t[2] == pat[2]);
                assert(t[3] == pat[3]);
                assert(w[0] == 'w' && w[1] == 's' && w[2] == 's' && w[3] == ':' && w[4] == '/' && w[5]
                    == '/');
                assert(false);
            }
        }
        lemma_absent_shift(w, pat, rest, i + 1);
    }
}

/// A `Retry-After` of digits is kept as that many seconds whenever the
/// number fits in `u64` (so "300" waits 300 seconds); a larger number, or no
/// header, gives no wait.
pub proof fn lemma_retry_after_whole_seconds(d: Seq<char>)
    requires
        d.len() > 0,
        all_digits(d),
    ensures
        digits_value(d) <= u64::MAX ==> retry_wait(Some(d)) == Some(
            secs_duration(digits_value(d) as u64),
        ),
        digits_value(d) > u64::MAX ==> retry_wait(Some(d)) is None,
        retry_wait(None) is None,
{
    lemma_unsigned_digits(d);
}

/// For a base URL `http://rest` whose `rest` holds no `https://` or
/// `http://`, the WebSocket URL is `ws://rest` followed by the path.
pub proof fn lemma_ws_url_of_http(rest: Seq<char>, path: Seq<char>)
    requires
        first_occurrence(rest, "https://"@) < 0,
        first_occurrence(rest, "http://"@) < 0,
    ensures
        ws_url_text("http://"@ + rest, path) == "ws://"@ + rest + path,
{
    reveal_strlit("https://");
    reveal_strlit("http://");
    reveal_strlit("ws://");
    let secure = "https://"@;
    let base = "http://"@ + rest;
    lemma_first_occurrence_absent(rest, secure, 0);
    assert forall|j: int| 0 <= j implies !#[trigger] occurs_at(base, secure, j) by {
        if occurs_at(base, secure, j) {
            let w = base.subrange(j, j + 8);
            assert(w[0] == base[j]);
            if j == 0 {
                assert(w[4] == base[4]);
            } else if j < 7 {
                assert(base[j] == "http://"@[j]);
            } else {
                assert(rest.subrange(j - 7, j + 1) =~= w);
                assert(occurs_at(rest, secure, j - 7));
            }
        }
    }
    lemma_first_occurrence_absent(base, secure, 0);
    assert(replace_first(base, secure, "wss://"@) == base);
    assert(occurs_at(base, "http://"@, 0)) by {
        assert(base.subrange(0, 7) =~= "http://"@);
    }
    assert(first_occurrence(base, "http://"@) == 0);
    assert(base.subrange(0, 0) + "ws://"@ + base.subrange(7, base.len() as int) =~= "ws://"@ + rest);
}

} // verus!
