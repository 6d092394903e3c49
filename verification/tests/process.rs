use talon_sandbox::process::{
    finish_run, process_logs_path, process_path, processes_path, run_request, spawn_request,
    split_whitespace, poll_outcome, vanished_run,
};
use talon_sandbox::{Error, PollOutcome, ProcessInfo, RunOpts, SpawnOpts, SpawnedProcess};

fn proc(id: &str, state: &str, code: i32) -> ProcessInfo {
    ProcessInfo { id: id.into(), command: vec![], pid: 1, state: state.into(), exit_code: code }
}

#[test]
fn run_goes_through_the_shell() {
    let r = run_request("ls | wc -l", RunOpts { cwd: Some("/app".into()), env: vec![] });
    assert_eq!(r.command, vec!["/bin/sh".to_string(), "-c".into(), "ls | wc -l".into()]);
    assert_eq!(r.cwd.as_deref(), Some("/app"));
    assert!(r.env.is_none());
    assert!(r.expose_ports.is_none());
    let r = run_request("true", RunOpts { cwd: None, env: vec!["A=1".into()] });
    assert_eq!(r.env, Some(vec!["A=1".to_string()]));
}

#[test]
fn spawn_splits_on_whitespace() {
    let r = spawn_request(
        "  npm   run\tdev\u{3000}--port 5173 ",
        SpawnOpts { cwd: None, env: vec![], expose_ports: vec![5173] },
    );
    assert_eq!(r.command, vec!["npm", "run", "dev", "--port", "5173"]);
    assert_eq!(r.expose_ports, Some(vec![5173]));
    assert!(r.env.is_none());
    assert!(split_whitespace("").is_empty());
    assert!(split_whitespace(" \n\t ").is_empty());
    assert_eq!(split_whitespace("a"), vec!["a"]);
}

#[test]
fn poll_reads_the_first_matching_process() {
    let list = vec![proc("p1", "running", 0), proc("p2", "exited", 3), proc("p2", "running", 0)];
    assert_eq!(poll_outcome(&list, "p2"), PollOutcome::Ended(3));
    assert_eq!(poll_outcome(&list, "p1"), PollOutcome::Running);
    assert_eq!(poll_outcome(&list, "p9"), PollOutcome::Gone);
    assert_eq!(poll_outcome(&vec![proc("k", "killed", 137)], "k"), PollOutcome::Ended(137));
    assert_eq!(poll_outcome(&vec![proc("f", "failed", -2)], "f"), PollOutcome::Ended(-2));
    assert_eq!(poll_outcome(&vec![], "x"), PollOutcome::Gone);
}

#[test]
fn finished_run_takes_log_text() {
    let r = finish_run(0, Ok(b"hi\n".to_vec())).unwrap();
    assert_eq!(r.exit_code, 0);
    assert_eq!(r.combined, "hi\n");
    let r = finish_run(2, Ok(vec![0x61, 0xff, 0x62])).unwrap();
    assert_eq!(r.combined, "a\u{fffd}b");
    let r = finish_run(1, Ok(vec![])).unwrap();
    assert_eq!(r.combined, "");
    assert!(matches!(finish_run(1, Err(Error::Network("x".into()))), Err(Error::Network(_))));
}

#[test]
fn vanished_run_exits_minus_one() {
    let r = vanished_run(Err(Error::Network("x".into())));
    assert_eq!(r.exit_code, -1);
    assert_eq!(r.combined, "");
    let r = vanished_run(Ok(b"tail".to_vec()));
    assert_eq!(r.combined, "tail");
}

#[test]
fn spawned_process_keeps_its_exit_code() {
    let mut p = SpawnedProcess::new("proc_1".into(), "sb_1".into());
    assert_eq!(p.id(), "proc_1");
    assert_eq!(p.sandbox_id(), "sb_1");
    assert_eq!(p.exit_code(), None);
    assert_eq!(p.observe(PollOutcome::Running), None);
    assert_eq!(p.exit_code(), None);
    assert_eq!(p.observe(PollOutcome::Ended(7)), Some(7));
    assert_eq!(p.exit_code(), Some(7));
    let mut q = SpawnedProcess::new("a".into(), "b".into());
    assert_eq!(q.observe(PollOutcome::Gone), Some(-1));
    assert_eq!(q.exit_code(), Some(-1));
}

#[test]
fn known_exit_code_is_never_overwritten() {
    let mut p = SpawnedProcess::new("proc_2".into(), "sb_1".into());
    assert_eq!(p.observe(PollOutcome::Ended(3)), Some(3));
    assert_eq!(p.observe(PollOutcome::Ended(9)), Some(3));
    assert_eq!(p.observe(PollOutcome::Gone), Some(3));
    assert_eq!(p.observe(PollOutcome::Running), Some(3));
    assert_eq!(p.exit_code(), Some(3));
}

#[test]
fn process_paths() {
    assert_eq!(processes_path("s"), "/v1/sandboxes/s/processes");
    assert_eq!(process_path("s", "p"), "/v1/sandboxes/s/processes/p");
    assert_eq!(process_logs_path("s", "p"), "/v1/sandboxes/s/processes/p/logs");
}
