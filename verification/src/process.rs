//! Running commands in a sandbox: the request bodies, the reading of the
//! process list while waiting for a process to end, and the result of a run.
//!
//! The server has no endpoint for a single process, so waiting reads the
//! whole list again and again; the decisions taken on each reading are here.

use vstd::prelude::*;
use vstd::utf8::{decode_utf8, valid_utf8};
use crate::errors::Error;
use crate::text::{chars_of, concat, is_whitespace, is_ws, str_eq, string_from_chars};
use crate::types::{ProcessInfo, ProcessResult};

verus! {

/// Options of a synchronous run.
#[derive(Debug, Clone)]
pub struct RunOpts {
    /// Working directory inside the sandbox; absent = the image default.
    pub cwd: Option<String>,
    /// Extra environment entries, each `"KEY=value"`.
    pub env: Vec<String>,
}

/// Options of a spawned process.
#[derive(Debug, Clone)]
pub struct SpawnOpts {
    /// Working directory inside the sandbox.
    pub cwd: Option<String>,
    /// Extra environment entries, each `"KEY=value"`.
    pub env: Vec<String>,
    /// Container ports the process serves (e.g. 5173), for the preview proxy.
    pub expose_ports: Vec<i32>,
}

/// The body of `POST /v1/sandboxes/{id}/processes`. Absent fields are left
/// out of the JSON.
#[derive(Debug, Clone)]
pub struct ProcessRequest {
    pub command: Vec<String>,
    pub cwd: Option<String>,
    pub env: Option<Vec<String>>,
    pub expose_ports: Option<Vec<i32>>,
}

pub open spec fn strings_view(v: Seq<String>) -> Seq<Seq<char>> {
    v.map_values(|s: String| s@)
}

/// A list that is sent only when it has entries.
pub open spec fn nonempty<T>(v: Vec<T>) -> Option<Vec<T>> {
    if v@.len() > 0 {
        Some(v)
    } else {
        None
    }
}

/// The request of a synchronous run: the command goes through
/// `/bin/sh -c`, so shell syntax works.
pub fn run_request(command: &str, opts: RunOpts) -> (r: ProcessRequest)
    ensures
        strings_view(r.command@) == seq!["/bin/sh"@, "-c"@, command@],
        r.cwd == opts.cwd,
        r.env == nonempty(opts.env),
        r.expose_ports is None,
{
    let mut command_line: Vec<String> = Vec::new();
    command_line.push(String::from_str("/bin/sh"));
    command_line.push(String::from_str("-c"));
    command_line.push(String::from_str(command));
    assert(strings_view(command_line@) =~= seq!["/bin/sh"@, "-c"@, command@]);
    let env = if opts.env.len() > 0 {
        Some(opts.env)
    } else {
        None
    };
    ProcessRequest { command: command_line, cwd: opts.cwd, env, expose_ports: None }
}

/// The whitespace-separated fields of `s` (`str::split_whitespace`).
pub open spec fn fields(s: Seq<char>) -> Seq<Seq<char>>
    decreases s.len(),
{
    if s.len() == 0 {
        Seq::empty()
    } else {
        let init = fields(s.drop_last());
        let c = s.last();
        if is_ws(c) {
            init
        } else if s.len() >= 2 && !is_ws(s[s.len() - 2]) {
            init.update(init.len() - 1, init.last().push(c))
        } else {
            init.push(seq![c])
        }
    }
}

/// `s.split_whitespace()`, each field as a `String`.
pub fn split_whitespace(s: &str) -> (r: Vec<String>)
    ensures
        strings_view(r@) == fields(s@),
{
    let cs = chars_of(s);
    let n = cs.len();
    let mut parts: Vec<Vec<char>> = Vec::new();
    let mut cur: Vec<char> = Vec::new();
    let mut in_word = false;
    let mut k: usize = 0;
    assert(cs@.subrange(0, 0) =~= Seq::<char>::empty());
    while k < n
        invariant
            k <= n,
            n == cs@.len(),
            in_word == (k > 0 && !is_ws(cs@[k - 1])),
            fields(cs@.subrange(0, k as int)) == if in_word {
                parts@.map_values(|v: Vec<char>| v@).push(cur@)
            } else {
                parts@.map_values(|v: Vec<char>| v@)
            },
        decreases n - k,
    {
        let c = cs[k];
        let ghost prefix = cs@.subrange(0, k + 1);
        assert(prefix.drop_last() =~= cs@.subrange(0, k as int));
        assert(prefix.last() == c);
        if is_whitespace(c) {
            if in_word {
                let mut done: Vec<char> = Vec::new();
                std::mem::swap(&mut done, &mut cur);
                parts.push(done);
                assert(parts@.map_values(|v: Vec<char>| v@) =~= fields(prefix));
            }
            in_word = false;
        } else {
            if in_word {
                let ghost before = parts@.map_values(|v: Vec<char>| v@).push(cur@);
                cur.push(c);
                assert(prefix[k - 1] == cs@[k - 1]);
                assert(parts@.map_values(|v: Vec<char>| v@).push(cur@) =~= before.update(
                    before.len() - 1,
                    before.last().push(c),
                ));
            } else {
                cur = Vec::new();
                cur.push(c);
                if k > 0 {
                    assert(prefix[k - 1] == cs@[k - 1]);
                }
                assert(parts@.map_values(|v: Vec<char>| v@).push(cur@) =~= fields(prefix));
            }
            in_word = true;
        }
        k = k + 1;
    }
    if in_word {
        parts.push(cur);
    }
    assert(cs@.subrange(0, n as int) =~= cs@);
    let ghost words = parts@.map_values(|v: Vec<char>| v@);
    assert(words == fields(s@));
    let m = parts.len();
    let mut out: Vec<String> = Vec::new();
    for j in 0..m
        invariant
            m == parts@.len(),
            words == parts@.map_values(|v: Vec<char>| v@),
            strings_view(out@) == words.subrange(0, j as int),
            out@.len() == j,
    {
        let w = string_from_chars(&parts[j]);
        assert(w@ == words[j as int]);
        let ghost before = out@;
        out.push(w);
        assert(out@ == before.push(w));
        assert forall|i: int| 0 <= i < j + 1 implies #[trigger] strings_view(out@)[i] == words[i] by {
            if i < j {
                assert(out@[i] == before[i]);
                assert(strings_view(before)[i] == words.subrange(0, j as int)[i]);
            }
        }
        assert(strings_view(out@) =~= words.subrange(0, j + 1));
    }
    assert(words.subrange(0, m as int) =~= words);
    out
}

/// The request of a spawned process: the command is split on whitespace
/// (no shell).
pub fn spawn_request(command: &str, opts: SpawnOpts) -> (r: ProcessRequest)
    ensures
        strings_view(r.command@) == fields(command@),
        r.cwd == opts.cwd,
        r.env == nonempty(opts.env),
        r.expose_ports == nonempty(opts.expose_ports),
{
    let args = split_whitespace(command);
    let env = if opts.env.len() > 0 {
        Some(opts.env)
    } else {
        None
    };
    let ports = if opts.expose_ports.len() > 0 {
        Some(opts.expose_ports)
    } else {
        None
    };
    ProcessRequest { command: args, cwd: opts.cwd, env, expose_ports: ports }
}

/// What one reading of the process list says of a process.
#[derive(Debug, Clone, Copy, PartialEq, Eq, Structural)]
pub enum PollOutcome {
    /// It has ended (exited, killed or failed) with this exit code.
    Ended(i32),
    /// It is no longer listed.
    Gone,
    /// It is still running.
    Running,
}

/// A process state in which it has ended.
pub open spec fn is_final_state(s: Seq<char>) -> bool {
    s == "exited"@ || s == "killed"@ || s == "failed"@
}

/// Index of the first listed process with the given id, or the list length.
pub open spec fn first_with_id(ps: Seq<ProcessInfo>, id: Seq<char>) -> int
    decreases ps.len(),
{
    if ps.len() == 0 {
        0
    } else if ps[0].id@ == id {
        0
    } else {
        1 + first_with_id(ps.drop_first(), id)
    }
}

pub open spec fn poll_outcome_of(ps: Seq<ProcessInfo>, id: Seq<char>) -> PollOutcome {
    let i = first_with_id(ps, id);
    if i >= ps.len() {
        PollOutcome::Gone
    } else if is_final_state(ps[i].state@) {
        PollOutcome::Ended(ps[i].exit_code)
    } else {
        PollOutcome::Running
    }
}

proof fn lemma_first_with_id_skip(ps: Seq<ProcessInfo>, id: Seq<char>, i: int)
    requires
        0 <= i <= ps.len(),
        forall|k: int| 0 <= k < i ==> #[trigger] ps[k].id@ != id,
    ensures
        first_with_id(ps, id) == i + first_with_id(ps.subrange(i, ps.len() as int), id),
    decreases i,
{
    if i == 0 {
        assert(ps.subrange(0, ps.len() as int) =~= ps);
    } else {
        lemma_first_with_id_skip(ps.drop_first(), id, i - 1);
        assert(ps.drop_first().subrange(i - 1, ps.drop_first().len() as int) =~= ps.subrange(
            i,
            ps.len() as int,
        ));
    }
}

/// Reads one listing: the first process with the id decides.
pub fn poll_outcome(processes: &Vec<ProcessInfo>, proc_id: &str) -> (r: PollOutcome)
    ensures
        r == poll_outcome_of(processes@, proc_id@),
{
    let n = processes.len();
    let mut i: usize = 0;
    while i < n
        invariant
            i <= n,
            n == processes@.len(),
            forall|k: int| 0 <= k < i ==> #[trigger] processes@[k].id@ != proc_id@,
        decreases n - i,
    {
        let p = &processes[i];
        if str_eq(p.id.as_str(), proc_id) {
            proof {
                lemma_first_with_id_skip(processes@, proc_id@, i as int);
                assert(processes@.subrange(i as int, n as int)[0] == processes@[i as int]);
            }
            let st = p.state.as_str();
            if str_eq(st, "exited") || str_eq(st, "killed") || str_eq(st, "failed") {
                return PollOutcome::Ended(p.exit_code);
            } else {
                return PollOutcome::Running;
            }
        }
        i = i + 1;
    }
    proof {
        lemma_first_with_id_skip(processes@, proc_id@, n as int);
    }
    PollOutcome::Gone
}

/// The text `String::from_utf8_lossy` makes of some bytes.
pub uninterp spec fn lossy_text(bytes: Seq<u8>) -> Seq<char>;

/// `String::from_utf8_lossy(bytes).into_owned()`. Its documentation says
/// that valid UTF-8 comes back unchanged (the contract states that); what
/// replaces invalid sequences is only named.
#[verifier::external_body]
fn utf8_lossy(bytes: &[u8]) -> (s: String)
    ensures
        s@ == lossy_text(bytes@),
        valid_utf8(bytes@) ==> s@ == decode_utf8(bytes@),
{
    String::from_utf8_lossy(bytes).into_owned()
}

/// The outcome of a run whose process ended with `exit_code`, given what
/// fetching its log gave: the log as text, or the fetch error.
pub fn finish_run(exit_code: i32, logs: Result<Vec<u8>, Error>) -> (r: Result<ProcessResult, Error>)
    ensures
        match logs {
            Ok(b) => r matches Ok(p) && p.exit_code == exit_code && p.combined@ == lossy_text(b@),
            Err(e) => r == Err::<ProcessResult, Error>(e),
        },
{
    match logs {
        Ok(bytes) => Ok(ProcessResult { exit_code, combined: utf8_lossy(bytes.as_slice()) }),
        Err(e) => Err(e),
    }
}

/// The outcome of a run whose process left the list before it was seen to
/// end: exit code -1 and whatever log could be fetched.
pub fn vanished_run(logs: Result<Vec<u8>, Error>) -> (p: ProcessResult)
    ensures
        p.exit_code == -1,
        p.combined@ == match logs {
            Ok(b) => lossy_text(b@),
            Err(_) => Seq::<char>::empty(),
        },
{
    match logs {
        Ok(bytes) => ProcessResult { exit_code: -1, combined: utf8_lossy(bytes.as_slice()) },
        Err(_) => ProcessResult { exit_code: -1, combined: String::new() },
    }
}

/// A process started with `spawn`. Its exit code is kept once known.
#[derive(Debug)]
pub struct SpawnedProcess {
    id: String,
    sandbox_id: String,
    exit_code: Option<i32>,
}

impl SpawnedProcess {
    pub closed spec fn id_view(self) -> Seq<char> {
        self.id@
    }

    pub closed spec fn sandbox_id_view(self) -> Seq<char> {
        self.sandbox_id@
    }

    pub closed spec fn exit_code_view(self) -> Option<i32> {
        self.exit_code
    }

    /// A process that has not been seen to end.
    pub fn new(id: String, sandbox_id: String) -> (p: SpawnedProcess)
        ensures
            p.id_view() == id@,
            p.sandbox_id_view() == sandbox_id@,
            p.exit_code_view() is None,
    {
        SpawnedProcess { id, sandbox_id, exit_code: None }
    }

    /// The platform's process id.
    pub fn id(&self) -> (s: &str)
        ensures
            s@ == self.id_view(),
    {
        self.id.as_str()
    }

    /// The id of the sandbox the process runs in.
    pub fn sandbox_id(&self) -> (s: &str)
        ensures
            s@ == self.sandbox_id_view(),
    {
        self.sandbox_id.as_str()
    }

    /// The exit code, once waiting has seen the process end.
    pub fn exit_code(&self) -> (c: Option<i32>)
        ensures
            c == self.exit_code_view(),
    {
        self.exit_code
    }

    /// Takes in one reading of the process list while waiting and returns
    /// the exit code when waiting is over. A code already known is kept and
    /// returned whatever the reading says; otherwise an ended process gives
    /// its exit code, one that left the list gives -1, and a running one
    /// gives nothing.
    pub fn observe(&mut self, outcome: PollOutcome) -> (r: Option<i32>)
        ensures
            final(self).id_view() == old(self).id_view(),
            final(self).sandbox_id_view() == old(self).sandbox_id_view(),
            final(self).exit_code_view() == code_after(old(self).exit_code_view(), outcome),
            r == final(self).exit_code_view(),
    {
        match self.exit_code {
            Some(c) => Some(c),
            None => {
                let code = match outcome {
                    PollOutcome::Ended(c) => Some(c),
                    PollOutcome::Gone => Some(-1i32),
                    PollOutcome::Running => None,
                };
                self.exit_code = code;
                code
            },
        }
    }
}

/// The exit code that a reading of the process list gives, if any.
pub open spec fn outcome_code(outcome: PollOutcome) -> Option<i32> {
    match outcome {
        PollOutcome::Ended(c) => Some(c),
        PollOutcome::Gone => Some(-1i32),
        PollOutcome::Running => None,
    }
}

/// The known exit code after one reading: a known code stays.
pub open spec fn code_after(known: Option<i32>, outcome: PollOutcome) -> Option<i32> {
    match known {
        Some(c) => Some(c),
        None => outcome_code(outcome),
    }
}

/// The known exit code after a run of readings, in order.
pub open spec fn code_after_all(known: Option<i32>, outcomes: Seq<PollOutcome>) -> Option<i32>
    decreases outcomes.len(),
{
    if outcomes.len() == 0 {
        known
    } else {
        code_after(code_after_all(known, outcomes.drop_last()), outcomes.last())
    }
}

/// Once waiting has returned an exit code, it is the process's exit code
/// from then on: no later reading changes it.
pub proof fn lemma_exit_code_settles(code: i32, outcomes: Seq<PollOutcome>)
    ensures
        code_after_all(Some(code), outcomes) == Some(code),
    decreases outcomes.len(),
{
    if outcomes.len() > 0 {
        lemma_exit_code_settles(code, outcomes.drop_last());
    }
}

/// Until a reading shows the process ended or gone, no exit code is known.
pub proof fn lemma_no_code_while_running(outcomes: Seq<PollOutcome>)
    requires
        forall|i: int| 0 <= i < outcomes.len() ==> #[trigger] outcomes[i] == PollOutcome::Running,
    ensures
        code_after_all(None, outcomes) is None,
    decreases outcomes.len(),
{
    if outcomes.len() > 0 {
        let init = outcomes.drop_last();
        assert forall|i: int| 0 <= i < init.len() implies #[trigger] init[i] == PollOutcome::Running by {
            assert(init[i] == outcomes[i]);
        }
        lemma_no_code_while_running(init);
        assert(outcomes.last() == outcomes[outcomes.len() - 1]);
    }
}

/// `/v1/sandboxes/{id}/processes`.
pub fn processes_path(sandbox_id: &str) -> (p: String)
    ensures
        p@ == "/v1/sandboxes/"@ + sandbox_id@ + "/processes"@,
{
    let a = concat("/v1/sandboxes/", sandbox_id);
    concat(a.as_str(), "/processes")
}

/// `/v1/sandboxes/{id}/processes/{pid}`.
pub fn process_path(sandbox_id: &str, proc_id: &str) -> (p: String)
    ensures
        p@ == "/v1/sandboxes/"@ + sandbox_id@ + "/processes/"@ + proc_id@,
{
    let a = concat("/v1/sandboxes/", sandbox_id);
    let b = concat(a.as_str(), "/processes/");
    concat(b.as_str(), proc_id)
}

/// `/v1/sandboxes/{id}/processes/{pid}/logs`.
pub fn process_logs_path(sandbox_id: &str, proc_id: &str) -> (p: String)
    ensures
        p@ == "/v1/sandboxes/"@ + sandbox_id@ + "/processes/"@ + proc_id@ + "/logs"@,
{
    let a = process_path(sandbox_id, proc_id);
    concat(a.as_str(), "/logs")
}

/// How one listing is read: with no process of the id listed the process is
/// gone; otherwise the first listed process with the id decides, ended with
/// its exit code in the states "exited", "killed" and "failed", and still
/// running in any other state.
pub proof fn lemma_poll_outcome_reads_first_match(ps: Seq<ProcessInfo>, id: Seq<char>, i: int)
    requires
        0 <= i <= ps.len(),
        forall|k: int| 0 <= k < i ==> #[trigger] ps[k].id@ != id,
        i == ps.len() || ps[i].id@ == id,
    ensures
        i == ps.len() ==> poll_outcome_of(ps, id) == PollOutcome::Gone,
        i < ps.len() ==> poll_outcome_of(ps, id) == if ps[i].state@ == "exited"@ || ps[i].state@
            == "killed"@ || ps[i].state@ == "failed"@ {
            PollOutcome::Ended(ps[i].exit_code)
        } else {
            PollOutcome::Running
        },
{
    lemma_first_with_id_skip(ps, id, i);
    if i < ps.len() {
        assert(ps.subrange(i, ps.len() as int)[0] == ps[i]);
    } else {
        assert(ps.subrange(i, ps.len() as int).len() == 0);
    }
}

} // verus!
