//! Environment variables of a sandbox: the body that sets one and the
//! endpoint paths. Setting or unsetting a variable changes the stored value
//! only; processes already running keep what they had.

use vstd::prelude::*;
use crate::text::concat;

verus! {

/// The body of `PUT /v1/sandboxes/{id}/env/{key}`: the key is in the path,
/// the body holds only the value.
#[derive(Debug)]
pub struct EnvSetBody {
    pub value: String,
}

/// The body that sets an environment variable to `value`.
pub fn env_set_body(value: &str) -> (b: EnvSetBody)
    ensures
        b.value@ == value@,
{
    EnvSetBody { value: String::from_str(value) }
}

/// `/v1/sandboxes/{id}/env`.
pub fn env_path(sandbox_id: &str) -> (p: String)
    ensures
        p@ == "/v1/sandboxes/"@ + sandbox_id@ + "/env"@,
{
    let a = concat("/v1/sandboxes/", sandbox_id);
    concat(a.as_str(), "/env")
}

/// `/v1/sandboxes/{id}/env/{key}`.
pub fn env_key_path(sandbox_id: &str, key: &str) -> (p: String)
    ensures
        p@ == "/v1/sandboxes/"@ + sandbox_id@ + "/env/"@ + key@,
{
    let a = concat("/v1/sandboxes/", sandbox_id);
    let b = concat(a.as_str(), "/env/");
    concat(b.as_str(), key)
}

} // verus!
