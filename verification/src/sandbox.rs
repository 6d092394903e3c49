//! Sandboxes: the body that creates one, the label filter of a listing, and
//! the endpoint paths of a sandbox.

use vstd::prelude::*;
use crate::errors::Error;
use crate::labels::StringMap;
use crate::parse::{duration_value, invalid_message, parse_duration, parse_size, size_value};
use crate::process::nonempty;
use crate::text::{concat, str_eq};
use crate::types::{CreateOpts, SandboxInfo};

verus! {

/// The canonical network policy for a friendly name: "allowlist" is
/// restricted egress, "open" full egress, "sealed" and "deny" offline; any
/// other name is passed on as it is.
pub open spec fn canonical_network(s: Seq<char>) -> Seq<char> {
    if s == "allowlist"@ {
        "restricted-egress"@
    } else if s == "open"@ {
        "full-egress"@
    } else if s == "sealed"@ || s == "deny"@ {
        "offline"@
    } else {
        s
    }
}

pub fn normalize_network(s: &str) -> (r: &str)
    ensures
        r@ == canonical_network(s@),
{
    if str_eq(s, "allowlist") {
        "restricted-egress"
    } else if str_eq(s, "open") {
        "full-egress"
    } else if str_eq(s, "sealed") || str_eq(s, "deny") {
        "offline"
    } else {
        s
    }
}

/// The body of `POST /v1/sandboxes`. Absent fields are left out of the JSON.
#[derive(Debug)]
pub struct CreateBody {
    pub image_id: Option<String>,
    pub network_policy: Option<String>,
    pub network_allowed_hosts: Option<Vec<String>>,
    pub env: Option<StringMap>,
    pub labels: Option<StringMap>,
    pub cpu_millis: Option<i64>,
    pub memory_bytes: Option<i64>,
    pub disk_bytes: Option<i64>,
    pub idle_timeout_seconds: Option<i64>,
    pub ttl_seconds: Option<i64>,
}

/// A text option that was given and is not empty.
pub open spec fn given(o: Option<String>) -> Option<Seq<char>> {
    match o {
        Some(s) => if s@.len() > 0 {
            Some(s@)
        } else {
            None
        },
        None => None,
    }
}

pub open spec fn opt_text(o: Option<String>) -> Option<Seq<char>> {
    match o {
        Some(s) => Some(s@),
        None => None,
    }
}

pub open spec fn opt_int(o: Option<i64>) -> Option<int> {
    match o {
        Some(v) => Some(v as int),
        None => None,
    }
}

/// A map that is sent only when it has entries.
pub open spec fn nonempty_map(m: StringMap) -> Option<StringMap> {
    if m@.dom().len() > 0 {
        Some(m)
    } else {
        None
    }
}

/// The message of the first quantity of the options that does not parse, in
/// the order memory, disk, idle timeout, time to live.
pub open spec fn create_failure(opts: CreateOpts) -> Option<Seq<char>> {
    let memory = given(opts.resources.memory);
    let disk = given(opts.resources.disk);
    let timeout = given(opts.timeout);
    let ttl = given(opts.ttl);
    if memory is Some && size_value(memory->0) is None {
        Some(invalid_message("invalid size: "@, memory->0))
    } else if disk is Some && size_value(disk->0) is None {
        Some(invalid_message("invalid size: "@, disk->0))
    } else if timeout is Some && duration_value(timeout->0) is None {
        Some(invalid_message("invalid duration: "@, timeout->0))
    } else if ttl is Some && duration_value(ttl->0) is None {
        Some(invalid_message("invalid duration: "@, ttl->0))
    } else {
        None
    }
}

pub open spec fn size_field(o: Option<String>) -> Option<int> {
    match given(o) {
        Some(t) => size_value(t),
        None => None,
    }
}

pub open spec fn duration_field(o: Option<String>) -> Option<int> {
    match given(o) {
        Some(t) => duration_value(t),
        None => None,
    }
}

/// The network policy sent for the options: the canonical name, when it is
/// not empty.
pub open spec fn policy_field(o: Option<String>) -> Option<Seq<char>> {
    match o {
        Some(n) => if canonical_network(n@).len() > 0 {
            Some(canonical_network(n@))
        } else {
            None
        },
        None => None,
    }
}

fn quantity_field(o: Option<String>, is_size: bool) -> (r: Result<Option<i64>, Error>)
    ensures
        match given(o) {
            None => r == Ok::<Option<i64>, Error>(None),
            Some(t) => {
                let v = if is_size {
                    size_value(t)
                } else {
                    duration_value(t)
                };
                match r {
                    Ok(x) => x is Some && v == Some(x->0 as int),
                    Err(e) => v is None && (e matches Error::Parse(m) && m@ == invalid_message(
                        if is_size {
                            "invalid size: "@
                        } else {
                            "invalid duration: "@
                        },
                        t,
                    )),
                }
            },
        },
{
    match o {
        Some(t) => {
            if t.as_str().is_empty() {
                Ok(None)
            } else if is_size {
                match parse_size(t.as_str()) {
                    Ok(v) => Ok(Some(v)),
                    Err(e) => Err(e),
                }
            } else {
                match parse_duration(t.as_str()) {
                    Ok(v) => Ok(Some(v)),
                    Err(e) => Err(e),
                }
            }
        },
        None => Ok(None),
    }
}

/// Turns creation options into the request body: the image as `image_id`,
/// the network name made canonical, the allowed hosts, environment and
/// labels when non-empty, CPU in millicores, memory and disk parsed as sizes,
/// idle timeout and time to live parsed as durations. Fails with the parse
/// error of the first of memory, disk, timeout, ttl that does not parse.
pub fn build_create_body(opts: CreateOpts) -> (r: Result<CreateBody, Error>)
    ensures
        match r {
            Ok(b) => {
                &&& create_failure(opts) is None
                &&& opt_text(b.image_id) == given(opts.image)
                &&& opt_text(b.network_policy) == policy_field(opts.network)
                &&& b.network_allowed_hosts == nonempty(opts.network_allowed_hosts)
                &&& b.env == nonempty_map(opts.env)
                &&& b.labels == nonempty_map(opts.labels)
                &&& b.cpu_millis == opts.resources.cpu_millis
                &&& opt_int(b.memory_bytes) == size_field(opts.resources.memory)
                &&& opt_int(b.disk_bytes) == size_field(opts.resources.disk)
                &&& opt_int(b.idle_timeout_seconds) == duration_field(opts.timeout)
                &&& opt_int(b.ttl_seconds) == duration_field(opts.ttl)
            },
            Err(e) => create_failure(opts) is Some && (e matches Error::Parse(m) && m@
                == create_failure(opts)->0),
        },
{
    let ghost o = opts;
    let image_id = match opts.image {
        Some(img) => if img.as_str().is_empty() {
            None
        } else {
            Some(img)
        },
        None => None,
    };
    let network_policy = match &opts.network {
        Some(net) => {
            let canonical = normalize_network(net.as_str());
            if canonical.is_empty() {
                None
            } else {
                Some(String::from_str(canonical))
            }
        },
        None => None,
    };
    let hosts = if opts.network_allowed_hosts.len() > 0 {
        Some(opts.network_allowed_hosts)
    } else {
        None
    };
    let env = if opts.env.is_empty() {
        None
    } else {
        Some(opts.env)
    };
    let labels = if opts.labels.is_empty() {
        None
    } else {
        Some(opts.labels)
    };
    let memory_bytes = match quantity_field(opts.resources.memory, true) {
        Ok(v) => v,
        Err(e) => return Err(e),
    };
    let disk_bytes = match quantity_field(opts.resources.disk, true) {
        Ok(v) => v,
        Err(e) => return Err(e),
    };
    let idle_timeout_seconds = match quantity_field(opts.timeout, false) {
        Ok(v) => v,
        Err(e) => return Err(e),
    };
    let ttl_seconds = match quantity_field(opts.ttl, false) {
        Ok(v) => v,
        Err(e) => return Err(e),
    };
    Ok(
        CreateBody {
            image_id,
            network_policy,
            network_allowed_hosts: hosts,
            env,
            labels,
            cpu_millis: opts.resources.cpu_millis,
            memory_bytes,
            disk_bytes,
            idle_timeout_seconds,
            ttl_seconds,
        },
    )
}

/// `have` carries every label of `want` with the same value.
pub open spec fn labels_match(have: Map<Seq<char>, Seq<char>>, want: Map<Seq<char>, Seq<char>>) -> bool {
    forall|k: Seq<char>| #[trigger] want.dom().contains(k) ==> have.dom().contains(k) && have[k] == want[k]
}

/// Whether the labels `have` include every `k = v` of `want`.
pub fn matches_labels(have: &StringMap, want: &StringMap) -> (b: bool)
    ensures
        b == labels_match(have@, want@),
{
    have.contains_all(want)
}

/// The sandboxes of a listing whose labels include every wanted label, in
/// their order.
pub fn filter_by_labels(infos: Vec<SandboxInfo>, want: &StringMap) -> (r: Vec<SandboxInfo>)
    ensures
        r@ == infos@.filter(|i: SandboxInfo| labels_match(i.labels@, want@)),
{
    let ghost all = infos@;
    let ghost pred = |i: SandboxInfo| labels_match(i.labels@, want@);
    let mut rest = infos;
    let mut kept: Vec<SandboxInfo> = Vec::new();
    let n = rest.len();
    let mut k: usize = 0;
    assert(all.take(0).filter(pred) =~= Seq::<SandboxInfo>::empty()) by {
        reveal_with_fuel(Seq::<_>::filter, 1);
    }
    assert(all.skip(0) =~= all);
    while k < n
        invariant
            k <= n,
            n == all.len(),
            rest@ == all.skip(k as int),
            kept@ == all.take(k as int).filter(pred),
            pred == (|i: SandboxInfo| labels_match(i.labels@, want@)),
        decreases n - k,
    {
        let info = rest.remove(0);
        assert(info == all[k as int]);
        assert(all.take(k + 1).drop_last() =~= all.take(k as int));
        let keep = matches_labels(&info.labels, want);
        if keep {
            kept.push(info);
        }
        assert(kept@ =~= all.take(k + 1).filter(pred)) by {
            reveal_with_fuel(Seq::<_>::filter, 1);
        }
        assert(rest@ =~= all.skip(k + 1));
        k = k + 1;
    }
    assert(all.take(n as int) =~= all);
    kept
}

/// `/v1/sandboxes/{id}`.
pub fn sandbox_path(id: &str) -> (p: String)
    ensures
        p@ == "/v1/sandboxes/"@ + id@,
{
    concat("/v1/sandboxes/", id)
}

/// `/v1/sandboxes/{id}/pause`.
pub fn pause_path(id: &str) -> (p: String)
    ensures
        p@ == "/v1/sandboxes/"@ + id@ + "/pause"@,
{
    concat(sandbox_path(id).as_str(), "/pause")
}

/// `/v1/sandboxes/{id}/resume`.
pub fn resume_path(id: &str) -> (p: String)
    ensures
        p@ == "/v1/sandboxes/"@ + id@ + "/resume"@,
{
    concat(sandbox_path(id).as_str(), "/resume")
}

/// Normalising a network name twice gives what normalising it once gives.
pub proof fn lemma_canonical_network_idempotent(s: Seq<char>)
    ensures
        canonical_network(canonical_network(s)) == canonical_network(s),
{
    reveal_strlit("allowlist");
    reveal_strlit("open");
    reveal_strlit("sealed");
    reveal_strlit("deny");
    reveal_strlit("restricted-egress");
    reveal_strlit("full-egress");
    reveal_strlit("offline");
    let c = canonical_network(s);
    if c != s {
        assert(c == "restricted-egress"@ || c == "full-egress"@ || c == "offline"@);
        assert("restricted-egress"@.len() != "allowlist"@.len());
        assert("restricted-egress"@.len() != "open"@.len());
        assert("restricted-egress"@.len() != "sealed"@.len());
        assert("restricted-egress"@.len() != "deny"@.len());
        assert("full-egress"@.len() != "allowlist"@.len());
        assert("full-egress"@.len() != "open"@.len());
        assert("full-egress"@.len() != "sealed"@.len());
        assert("full-egress"@.len() != "deny"@.len());
        assert("offline"@.len() != "allowlist"@.len());
        assert("offline"@.len() != "open"@.len());
        assert("offline"@.len() != "sealed"@.len());
        assert("offline"@.len() != "deny"@.len());
    }
}

/// Every set of labels includes itself, and every set includes the empty one.
pub proof fn lemma_labels_match_reflexive(m: Map<Seq<char>, Seq<char>>)
    ensures
        labels_match(m, m),
        labels_match(m, Map::empty()),
{
}

/// Including labels is transitive: a sandbox with all labels of `b`, where
/// `b` has all labels of `c`, has all labels of `c`.
pub proof fn lemma_labels_match_transitive(
    a: Map<Seq<char>, Seq<char>>,
    b: Map<Seq<char>, Seq<char>>,
    c: Map<Seq<char>, Seq<char>>,
)
    requires
        labels_match(a, b),
        labels_match(b, c),
    ensures
        labels_match(a, c),
{
    assert forall|k: Seq<char>| #[trigger] c.dom().contains(k) implies a.dom().contains(k) && a[k]
        == c[k] by {
        assert(b.dom().contains(k));
    }
}

/// The network policy sent for a given name: the friendly names become
/// their policy ("allowlist" restricted egress, "open" full egress, "sealed"
/// and "deny" offline), any other non-empty name is sent as it is, and an
/// empty or absent name sends none.
pub proof fn lemma_network_policy_sent(name: String)
    ensures
        name@ == "allowlist"@ ==> policy_field(Some(name)) == Some("restricted-egress"@),
        name@ == "open"@ ==> policy_field(Some(name)) == Some("full-egress"@),
        name@ == "sealed"@ || name@ == "deny"@ ==> policy_field(Some(name)) == Some("offline"@),
        name@ != "allowlist"@ && name@ != "open"@ && name@ != "sealed"@ && name@ != "deny"@
            ==> policy_field(Some(name)) == if name@.len() > 0 {
            Some(name@)
        } else {
            None
        },
        policy_field(Some(name)) is Some <==> name@.len() > 0,
        policy_field(None) is None,
{
    reveal_strlit("allowlist");
    reveal_strlit("open");
    reveal_strlit("sealed");
    reveal_strlit("deny");
    reveal_strlit("restricted-egress");
    reveal_strlit("full-egress");
    reveal_strlit("offline");
    assert("open"@.len() != "allowlist"@.len());
    assert("sealed"@.len() != "allowlist"@.len() && "sealed"@.len() != "open"@.len());
    assert("deny"@.len() != "allowlist"@.len() && "deny"@[0] != "open"@[0]);
}

/// A sandbox without a wanted label, or with another value for it, does not
/// match.
pub proof fn lemma_labels_mismatch(
    have: Map<Seq<char>, Seq<char>>,
    want: Map<Seq<char>, Seq<char>>,
    k: Seq<char>,
)
    requires
        want.dom().contains(k),
        !have.dom().contains(k) || have[k] != want[k],
    ensures
        !labels_match(have, want),
{
}

} // verus!
