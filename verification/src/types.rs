//! Request and response types. Inputs use human-readable fields (memory as
//! "4GiB"); responses mirror the server's JSON.

use vstd::prelude::*;
use crate::labels::StringMap;
use crate::text::{lower_ascii, lower_ascii_seq, str_eq};

verus! {

/// Options for creating a sandbox. Every field is optional; an absent or
/// empty one takes the server's default.
#[derive(Debug, Clone)]
pub struct CreateOpts {
    /// Image reference such as "talon-alpine".
    pub image: Option<String>,
    /// Compute resources.
    pub resources: Resources,
    /// Network policy: "allowlist" | "open" | "sealed" (or a canonical name).
    pub network: Option<String>,
    /// Per-sandbox egress allowlist (hosts, IPs, CIDRs); used under
    /// restricted egress, and when non-empty it overrides the worker's list.
    pub network_allowed_hosts: Vec<String>,
    /// Environment variables at start.
    pub env: StringMap,
    /// Idle auto-pause timeout such as "30m".
    pub timeout: Option<String>,
    /// Hard time to live such as "6h".
    pub ttl: Option<String>,
    /// Metadata labels.
    pub labels: StringMap,
}

/// Compute resources.
#[derive(Debug, Clone)]
pub struct Resources {
    /// CPU in thousandths of a core, present when a non-zero core count was
    /// asked for (2 cores = 2000).
    pub cpu_millis: Option<i64>,
    /// Memory such as "4GiB".
    pub memory: Option<String>,
    /// Disk such as "10GiB".
    pub disk: Option<String>,
}

/// Filter for listing sandboxes.
#[derive(Debug, Clone)]
pub struct ListOpts {
    /// Only sandboxes that carry every one of these labels.
    pub labels: StringMap,
}

/// Options for exposing a port.
#[derive(Debug, Clone)]
pub struct ExposeOpts {
    /// Ask for a signed preview URL.
    pub sign: bool,
    /// Lifetime of a signed URL, such as "1h".
    pub ttl: Option<String>,
    /// Custom subdomain prefix (random by default).
    pub subdomain: Option<String>,
}

/// Lifecycle state of a sandbox.
#[derive(Debug, Clone, Copy, PartialEq, Eq, Structural)]
pub enum SandboxState {
    Created,
    Running,
    Paused,
    Stopped,
    Destroyed,
    Killed,
    Lost,
    /// A state this SDK does not know (kept for forward compatibility).
    Unknown,
}

/// The state that a wire name denotes.
pub open spec fn state_of_name(s: Seq<char>) -> SandboxState {
    if s == "created"@ {
        SandboxState::Created
    } else if s == "running"@ {
        SandboxState::Running
    } else if s == "paused"@ {
        SandboxState::Paused
    } else if s == "stopped"@ {
        SandboxState::Stopped
    } else if s == "destroyed"@ {
        SandboxState::Destroyed
    } else if s == "killed"@ {
        SandboxState::Killed
    } else if s == "lost"@ {
        SandboxState::Lost
    } else {
        SandboxState::Unknown
    }
}

/// The wire name of a state.
pub open spec fn name_of_state(st: SandboxState) -> Seq<char> {
    match st {
        SandboxState::Created => "created"@,
        SandboxState::Running => "running"@,
        SandboxState::Paused => "paused"@,
        SandboxState::Stopped => "stopped"@,
        SandboxState::Destroyed => "destroyed"@,
        SandboxState::Killed => "killed"@,
        SandboxState::Lost => "lost"@,
        SandboxState::Unknown => "unknown"@,
    }
}

impl SandboxState {
    /// The state for a lower-case wire name; any other name is `Unknown`.
    pub fn from_name(s: &str) -> (st: SandboxState)
        ensures
            st == state_of_name(s@),
    {
        if str_eq(s, "created") {
            SandboxState::Created
        } else if str_eq(s, "running") {
            SandboxState::Running
        } else if str_eq(s, "paused") {
            SandboxState::Paused
        } else if str_eq(s, "stopped") {
            SandboxState::Stopped
        } else if str_eq(s, "destroyed") {
            SandboxState::Destroyed
        } else if str_eq(s, "killed") {
            SandboxState::Killed
        } else if str_eq(s, "lost") {
            SandboxState::Lost
        } else {
            SandboxState::Unknown
        }
    }

    /// The lower-case wire name of the state.
    pub fn name(&self) -> (s: &'static str)
        ensures
            s@ == name_of_state(*self),
    {
        match self {
            SandboxState::Created => "created",
            SandboxState::Running => "running",
            SandboxState::Paused => "paused",
            SandboxState::Stopped => "stopped",
            SandboxState::Destroyed => "destroyed",
            SandboxState::Killed => "killed",
            SandboxState::Lost => "lost",
            SandboxState::Unknown => "unknown",
        }
    }
}

/// A sandbox as the API reports it.
#[derive(Debug, Clone)]
pub struct SandboxInfo {
    pub id: String,
    pub state: SandboxState,
    pub image: String,
    pub cpu_millis: i64,
    pub memory_bytes: i64,
    pub idle_timeout_seconds: i64,
    pub ttl_seconds: i64,
    pub created_at: i64,
    pub network_policy: String,
    pub labels: StringMap,
}

/// Result of a synchronous run.
#[derive(Debug, Clone)]
pub struct ProcessResult {
    /// The process's exit code.
    pub exit_code: i32,
    /// Combined stdout and stderr, from the process log endpoint.
    pub combined: String,
}

/// A process running in a sandbox.
#[derive(Debug, Clone)]
pub struct ProcessInfo {
    pub id: String,
    pub command: Vec<String>,
    pub pid: i32,
    pub state: String,
    pub exit_code: i32,
}

/// A port that is currently exposed.
#[derive(Debug, Clone)]
pub struct ExposedPort {
    pub port: i32,
    pub url: String,
    pub signed: bool,
    /// "explicit" | "dynamic".
    pub source: String,
}

/// A file or directory.
#[derive(Debug, Clone)]
pub struct FsEntry {
    pub name: String,
    pub size: i64,
    pub mod_time: i64,
    pub is_dir: bool,
}

/// The name of each state's variant, as written in the enum.
pub open spec fn variant_name(st: SandboxState) -> Seq<char> {
    match st {
        SandboxState::Created => "Created"@,
        SandboxState::Running => "Running"@,
        SandboxState::Paused => "Paused"@,
        SandboxState::Stopped => "Stopped"@,
        SandboxState::Destroyed => "Destroyed"@,
        SandboxState::Killed => "Killed"@,
        SandboxState::Lost => "Lost"@,
        SandboxState::Unknown => "Unknown"@,
    }
}

proof fn lemma_lower_first(w: Seq<char>, lw: Seq<char>)
    requires
        w.len() == lw.len(),
        w.len() > 0,
        lw[0] == lower_ascii(w[0]),
        w.drop_first() == lw.drop_first(),
        forall|i: int| 0 <= i < w.drop_first().len() ==> 'a' <= #[trigger] w.drop_first()[i] <= 'z',
    ensures
        lower_ascii_seq(w) == lw,
{
    assert forall|i: int| 0 <= i < w.len() implies #[trigger] lower_ascii_seq(w)[i] == lw[i] by {
        if i > 0 {
            assert(w[i] == w.drop_first()[i - 1]);
            assert(lw[i] == lw.drop_first()[i - 1]);
        }
    }
    assert(lower_ascii_seq(w) =~= lw);
}

/// Each state goes on the wire as its variant's name in lower case, and
/// that name reads back as the same state.
pub proof fn lemma_state_name_is_lowercase_variant(st: SandboxState)
    ensures
        name_of_state(st) == lower_ascii_seq(variant_name(st)),
        state_of_name(lower_ascii_seq(variant_name(st))) == st,
{
    reveal_strlit("Created");
    reveal_strlit("Running");
    reveal_strlit("Paused");
    reveal_strlit("Stopped");
    reveal_strlit("Destroyed");
    reveal_strlit("Killed");
    reveal_strlit("Lost");
    reveal_strlit("Unknown");
    reveal_strlit("created");
    reveal_strlit("running");
    reveal_strlit("paused");
    reveal_strlit("stopped");
    reveal_strlit("destroyed");
    reveal_strlit("killed");
    reveal_strlit("lost");
    reveal_strlit("unknown");
    let w = variant_name(st);
    let lw = name_of_state(st);
    assert(lw.len() == w.len());
    assert(w.drop_first() =~= lw.drop_first());
    assert(lw[0] == lower_ascii(w[0]));
    lemma_lower_first(w, lw);
}

/// A name that reads as a known state is exactly that state's name; every
/// other name reads as `Unknown`.
pub proof fn lemma_state_of_name_reads_back(s: Seq<char>)
    ensures
        state_of_name(s) == SandboxState::Unknown || name_of_state(state_of_name(s)) == s,
{
}

} // verus!
