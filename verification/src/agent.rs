//! AI agent runs in a sandbox: a natural-language goal driven through a
//! headless browser, synchronously.

use vstd::prelude::*;
use crate::text::concat;

verus! {

/// Options of an agent run.
#[derive(Debug, Clone)]
pub struct AgentRunOpts {
    /// Most steps (20 by default; the server caps it at 100).
    pub max_steps: Option<i32>,
    /// A model hint of the form `provider:model`.
    pub llm_model: Option<String>,
}

/// The body of `POST /v1/sandboxes/{id}/agent/run`. Absent fields are left
/// out of the JSON.
#[derive(Debug)]
pub struct AgentRunRequest {
    pub goal: String,
    pub max_steps: Option<i32>,
    pub llm_model: Option<String>,
}

/// The request of an agent run for `goal`.
pub fn agent_run_request(goal: &str, opts: AgentRunOpts) -> (r: AgentRunRequest)
    ensures
        r.goal@ == goal@,
        r.max_steps == opts.max_steps,
        r.llm_model == opts.llm_model,
{
    AgentRunRequest { goal: String::from_str(goal), max_steps: opts.max_steps, llm_model: opts.llm_model }
}

/// `/v1/sandboxes/{id}/agent/run`.
pub fn agent_run_path(sandbox_id: &str) -> (p: String)
    ensures
        p@ == "/v1/sandboxes/"@ + sandbox_id@ + "/agent/run"@,
{
    let a = concat("/v1/sandboxes/", sandbox_id);
    concat(a.as_str(), "/agent/run")
}

} // verus!
