use talon_sandbox::sandbox::{
    build_create_body, filter_by_labels, matches_labels, normalize_network, pause_path,
    resume_path, sandbox_path,
};
use talon_sandbox::{CreateOpts, Error, Resources, SandboxInfo, SandboxState, StringMap};

fn map(pairs: &[(&str, &str)]) -> StringMap {
    let mut m = StringMap::new();
    for (k, v) in pairs {
        m.insert(k.to_string(), v.to_string());
    }
    m
}

fn opts() -> CreateOpts {
    CreateOpts {
        image: None,
        resources: Resources { cpu_millis: None, memory: None, disk: None },
        network: None,
        network_allowed_hosts: vec![],
        env: StringMap::new(),
        timeout: None,
        ttl: None,
        labels: StringMap::new(),
    }
}

fn info(id: &str, labels: StringMap) -> SandboxInfo {
    SandboxInfo {
        id: id.into(),
        state: SandboxState::Running,
        image: String::new(),
        cpu_millis: 0,
        memory_bytes: 0,
        idle_timeout_seconds: 0,
        ttl_seconds: 0,
        created_at: 0,
        network_policy: String::new(),
        labels,
    }
}

#[test]
fn network_aliases() {
    assert_eq!(normalize_network("allowlist"), "restricted-egress");
    assert_eq!(normalize_network("open"), "full-egress");
    assert_eq!(normalize_network("sealed"), "offline");
    assert_eq!(normalize_network("deny"), "offline");
    assert_eq!(normalize_network("offline"), "offline");
    assert_eq!(normalize_network("custom"), "custom");
    for s in ["allowlist", "open", "sealed", "deny", "x", ""] {
        assert_eq!(normalize_network(normalize_network(s)), normalize_network(s));
    }
}

#[test]
fn create_body_full() {
    let mut o = opts();
    o.image = Some("talon-alpine".into());
    o.network = Some("allowlist".into());
    o.network_allowed_hosts = vec!["git.example.com".into()];
    o.env = map(&[("A", "1")]);
    o.labels = map(&[("team", "x")]);
    o.resources = Resources { cpu_millis: Some(2000), memory: Some("4GiB".into()), disk: Some("10GB".into()) };
    o.timeout = Some("30m".into());
    o.ttl = Some("6h".into());
    let b = build_create_body(o).unwrap();
    assert_eq!(b.image_id.as_deref(), Some("talon-alpine"));
    assert_eq!(b.network_policy.as_deref(), Some("restricted-egress"));
    assert_eq!(b.network_allowed_hosts, Some(vec!["git.example.com".to_string()]));
    assert_eq!(b.env.unwrap().get("A"), Some("1"));
    assert_eq!(b.labels.unwrap().get("team"), Some("x"));
    assert_eq!(b.cpu_millis, Some(2000));
    assert_eq!(b.memory_bytes, Some(4i64 << 30));
    assert_eq!(b.disk_bytes, Some(10_000_000_000));
    assert_eq!(b.idle_timeout_seconds, Some(1800));
    assert_eq!(b.ttl_seconds, Some(21600));
}

#[test]
fn create_body_empty_fields_are_left_out() {
    let mut o = opts();
    o.image = Some(String::new());
    o.network = Some(String::new());
    o.resources.memory = Some(String::new());
    o.ttl = Some(String::new());
    let b = build_create_body(o).unwrap();
    assert!(b.image_id.is_none());
    assert!(b.network_policy.is_none());
    assert!(b.network_allowed_hosts.is_none());
    assert!(b.env.is_none() && b.labels.is_none());
    assert!(b.cpu_millis.is_none() && b.memory_bytes.is_none() && b.disk_bytes.is_none());
    assert!(b.idle_timeout_seconds.is_none() && b.ttl_seconds.is_none());
}

#[test]
fn create_body_reports_first_bad_field() {
    let mut o = opts();
    o.resources.memory = Some("lots".into());
    o.timeout = Some("later".into());
    match build_create_body(o) {
        Err(Error::Parse(m)) => assert_eq!(m, "invalid size: \"lots\""),
        _ => panic!("expected a parse error"),
    }
    let mut o = opts();
    o.resources.disk = Some("1GiB".into());
    o.ttl = Some("soon".into());
    match build_create_body(o) {
        Err(Error::Parse(m)) => assert_eq!(m, "invalid duration: \"soon\""),
        _ => panic!("expected a parse error"),
    }
}

#[test]
fn labels_filter() {
    let have = map(&[("env", "prod"), ("team", "a")]);
    assert!(matches_labels(&have, &map(&[])));
    assert!(matches_labels(&have, &map(&[("env", "prod")])));
    assert!(matches_labels(&have, &have));
    assert!(!matches_labels(&have, &map(&[("env", "dev")])));
    assert!(!matches_labels(&have, &map(&[("zone", "1")])));
    let infos = vec![
        info("a", map(&[("env", "prod")])),
        info("b", map(&[("env", "dev")])),
        info("c", map(&[("env", "prod"), ("x", "y")])),
    ];
    let kept = filter_by_labels(infos, &map(&[("env", "prod")]));
    let ids: Vec<&str> = kept.iter().map(|i| i.id.as_str()).collect();
    assert_eq!(ids, vec!["a", "c"]);
}

#[test]
fn sandbox_paths() {
    assert_eq!(sandbox_path("sbx_1"), "/v1/sandboxes/sbx_1");
    assert_eq!(pause_path("sbx_1"), "/v1/sandboxes/sbx_1/pause");
    assert_eq!(resume_path("sbx_1"), "/v1/sandboxes/sbx_1/resume");
}
