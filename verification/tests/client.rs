use std::time::Duration;
use talon_sandbox::client::{
    auth_header, env_api_key, error_from_response, request_url, resolve_server,
    trim_trailing_slash, ws_url,
};
use talon_sandbox::{ClientBuilder, Config, Error};

#[test]
fn builder_trims_server_and_keeps_defaults() {
    let b = ClientBuilder::from_environment(None, None)
        .server("https://api.example.com///")
        .api_key("ask_1")
        .timeout(Duration::from_secs(5));
    let (url, key, timeout) = b.into_parts();
    assert_eq!(url, "https://api.example.com");
    assert_eq!(key.as_deref(), Some("ask_1"));
    assert_eq!(timeout, Duration::from_secs(5));
}

#[test]
fn builder_empty_server_keeps_current() {
    let (url, key, timeout) = ClientBuilder::from_environment(Some("http://env:1/"), Some(""))
        .server("")
        .into_parts();
    assert_eq!(url, "http://env:1");
    assert_eq!(key, None);
    assert_eq!(timeout, Duration::from_secs(30));
}

#[test]
fn resolve_server_order() {
    assert_eq!(resolve_server(Some("http://a/"), Some("http://b")), "http://a");
    assert_eq!(resolve_server(Some(""), Some("http://b//")), "http://b");
    assert_eq!(resolve_server(None, Some("")), "http://localhost:18080");
    assert_eq!(resolve_server(None, None), "http://localhost:18080");
    assert_eq!(trim_trailing_slash("x/y/"), "x/y");
    assert_eq!(trim_trailing_slash("///"), "");
}

#[test]
fn env_key_must_be_non_empty() {
    assert_eq!(env_api_key(Some("k")).as_deref(), Some("k"));
    assert_eq!(env_api_key(Some("")), None);
    assert_eq!(env_api_key(None), None);
}

#[test]
fn config_into_builder() {
    let (url, key, _) = Config::new("http://cfg/")
        .api_key("ask_cfg")
        .into_builder(ClientBuilder::from_environment(None, Some("ask_env")))
        .into_parts();
    assert_eq!(url, "http://cfg");
    assert_eq!(key.as_deref(), Some("ask_cfg"));
    let (url, key, _) = Config::new("")
        .into_builder(ClientBuilder::from_environment(Some("http://e"), Some("ask_env")))
        .into_parts();
    assert_eq!(url, "http://e");
    assert_eq!(key.as_deref(), Some("ask_env"));
}

#[test]
fn urls_and_auth() {
    assert_eq!(request_url("http://h:1", "/v1/images"), "http://h:1/v1/images");
    assert_eq!(ws_url("https://api.x", "/v1/sandboxes/s/pty"), "wss://api.x/v1/sandboxes/s/pty");
    assert_eq!(ws_url("http://localhost:18080", "/p"), "ws://localhost:18080/p");
    assert_eq!(ws_url("ftp://x", "/p"), "ftp://x/p");
    assert_eq!(auth_header(Some("ask_1")).as_deref(), Some("Bearer ask_1"));
    assert_eq!(auth_header(None), None);
}

#[test]
fn response_error_prefers_error_field() {
    let e = error_from_response(
        404,
        Some("rq".into()),
        None,
        "{\"error\":\"sandbox not found\"}".into(),
        Some("sandbox not found".into()),
    );
    match e {
        Error::NotFound { message, request_id } => {
            assert_eq!(message, "sandbox not found");
            assert_eq!(request_id.as_deref(), Some("rq"));
        }
        other => panic!("unexpected {:?}", other),
    }
    let e = error_from_response(500, None, None, "plain failure".into(), Some(String::new()));
    assert!(matches!(e, Error::Server { status: 500, ref message, .. } if message == "plain failure"));
    let e = error_from_response(400, None, None, "not json".into(), None);
    assert!(matches!(e, Error::Api { status: 400, ref message, .. } if message == "not json"));
}

#[test]
fn response_error_reads_retry_after() {
    match error_from_response(429, None, Some("5"), String::new(), None) {
        Error::RateLimit { retry_after, .. } => assert_eq!(retry_after, Some(Duration::from_secs(5))),
        other => panic!("unexpected {:?}", other),
    }
    match error_from_response(429, None, Some("soon"), String::new(), None) {
        Error::RateLimit { retry_after, .. } => assert_eq!(retry_after, None),
        other => panic!("unexpected {:?}", other),
    }
    match error_from_response(429, None, Some("-1"), String::new(), None) {
        Error::RateLimit { retry_after, .. } => assert_eq!(retry_after, None),
        other => panic!("unexpected {:?}", other),
    }
}

#[test]
fn base_url_never_ends_with_slash() {
    let chains = [
        ClientBuilder::from_environment(Some("https://api.example.com/"), None).into_parts().0,
        ClientBuilder::from_environment(None, None).server("http://h//").api_key("k").into_parts().0,
        ClientBuilder::from_environment(Some("http://e/"), None)
            .server("")
            .timeout(Duration::from_secs(1))
            .server("/")
            .into_parts()
            .0,
        Config::new("http://cfg///")
            .into_builder(ClientBuilder::from_environment(None, None))
            .into_parts()
            .0,
    ];
    assert_eq!(chains[0], "https://api.example.com");
    assert_eq!(chains[1], "http://h");
    assert_eq!(chains[2], "");
    assert_eq!(chains[3], "http://cfg");
    for url in chains.iter() {
        assert!(!url.ends_with('/'));
    }
}
