//! Headless Chromium sessions in a sandbox.

use vstd::prelude::*;
use crate::text::concat;

verus! {

/// A running headless Chromium session.
#[derive(Debug, Clone)]
pub struct BrowserSession {
    /// The sandbox it runs in.
    pub sandbox_id: String,
    /// Its process id.
    pub process_id: String,
    /// The CDP port inside the container (9222).
    pub cdp_port: i32,
    /// The DevTools path, such as `/devtools/browser/abc-def`.
    pub cdp_path: String,
    /// The CDP WebSocket URL for clients, through the API's proxy.
    pub cdp_ws_url: String,
    /// The worker's host port, for diagnosis.
    pub host_port: i32,
}

/// `/v1/sandboxes/{id}/browser`.
pub fn browser_path(sandbox_id: &str) -> (p: String)
    ensures
        p@ == "/v1/sandboxes/"@ + sandbox_id@ + "/browser"@,
{
    let a = concat("/v1/sandboxes/", sandbox_id);
    concat(a.as_str(), "/browser")
}

} // verus!
