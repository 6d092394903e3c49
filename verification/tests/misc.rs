use talon_sandbox::agent::{agent_run_path, agent_run_request};
use talon_sandbox::browser::browser_path;
use talon_sandbox::env::{env_key_path, env_path, env_set_body};
use talon_sandbox::terminal::{pty_path, resize_message, Frame, PtyState, RecvStep};
use talon_sandbox::{AgentRunOpts, Error, SandboxState, StringMap};

#[test]
fn sandbox_state_names() {
    assert_eq!(SandboxState::from_name("running"), SandboxState::Running);
    assert_eq!(SandboxState::from_name("lost"), SandboxState::Lost);
    assert_eq!(SandboxState::from_name("hibernating"), SandboxState::Unknown);
    assert_eq!(SandboxState::from_name("Running"), SandboxState::Unknown);
    for st in [
        SandboxState::Created,
        SandboxState::Running,
        SandboxState::Paused,
        SandboxState::Stopped,
        SandboxState::Destroyed,
        SandboxState::Killed,
        SandboxState::Lost,
        SandboxState::Unknown,
    ] {
        assert_eq!(SandboxState::from_name(st.name()), st);
    }
}

#[test]
fn string_map_insert_replaces() {
    let mut m = StringMap::new();
    assert!(m.is_empty());
    m.insert("k".into(), "1".into());
    m.insert("j".into(), "2".into());
    m.insert("k".into(), "3".into());
    assert_eq!(m.len(), 2);
    assert_eq!(m.get("k"), Some("3"));
    assert_eq!(m.get("j"), Some("2"));
    assert_eq!(m.get("x"), None);
    assert_eq!(m.key_at(0), "k");
    assert_eq!(m.value_at(1), "2");
    let c = m.clone();
    assert_eq!(c.get("k"), Some("3"));
    assert!(c.contains_all(&m) && m.contains_all(&c));
}

#[test]
fn pty_state_machine() {
    let mut s = PtyState::new();
    assert!(s.check_open().is_ok());
    assert!(matches!(s.recv_step(Some(Ok(Frame::Binary(vec![1, 2])))), RecvStep::Data(ref d) if d == &vec![1u8, 2]));
    assert!(matches!(s.recv_step(Some(Ok(Frame::Other))), RecvStep::Skip));
    assert!(matches!(s.recv_step(None), RecvStep::Ended));
    assert!(!s.is_closed());
    assert!(matches!(s.recv_step(Some(Err("reset".into()))), RecvStep::Failed(Error::Network(ref m)) if m == "reset"));
    assert!(matches!(s.recv_step(Some(Ok(Frame::Close))), RecvStep::Ended));
    assert!(s.is_closed());
    assert!(matches!(s.check_open(), Err(Error::PtyClosed)));
    let mut t = PtyState::new();
    assert!(t.begin_close());
    assert!(!t.begin_close());
    assert!(matches!(t.check_open(), Err(Error::PtyClosed)));
}

#[test]
fn resize_frame_text() {
    assert_eq!(resize_message(24, 80), "{\"type\":\"resize\",\"rows\":24,\"cols\":80}");
    assert_eq!(resize_message(0, 65535), "{\"type\":\"resize\",\"rows\":0,\"cols\":65535}");
}

#[test]
fn other_paths_and_bodies() {
    assert_eq!(pty_path("s"), "/v1/sandboxes/s/pty");
    assert_eq!(env_path("s"), "/v1/sandboxes/s/env");
    assert_eq!(env_key_path("s", "HOME"), "/v1/sandboxes/s/env/HOME");
    assert_eq!(env_set_body("v").value, "v");
    assert_eq!(browser_path("s"), "/v1/sandboxes/s/browser");
    assert_eq!(agent_run_path("s"), "/v1/sandboxes/s/agent/run");
    let r = agent_run_request("goal", AgentRunOpts { max_steps: Some(10), llm_model: None });
    assert_eq!(r.goal, "goal");
    assert_eq!(r.max_steps, Some(10));
    assert!(r.llm_model.is_none());
}
