use std::time::Duration;
use talon_sandbox::Error;

fn rid(s: &str) -> Option<String> {
    Some(s.to_string())
}

#[test]
fn from_status_classifies_by_http_semantics() {
    assert!(matches!(Error::from_status(401, "a".into(), None, None), Error::Auth { status: 401, .. }));
    assert!(matches!(Error::from_status(403, "a".into(), None, None), Error::Auth { status: 403, .. }));
    assert!(matches!(Error::from_status(404, "a".into(), None, None), Error::NotFound { .. }));
    assert!(matches!(Error::from_status(422, "a".into(), None, None), Error::Quota { .. }));
    match Error::from_status(429, "slow".into(), rid("r1"), Some(Duration::from_secs(7))) {
        Error::RateLimit { message, request_id, retry_after } => {
            assert_eq!(message, "slow");
            assert_eq!(request_id.as_deref(), Some("r1"));
            assert_eq!(retry_after, Some(Duration::from_secs(7)));
        }
        other => panic!("unexpected {:?}", other),
    }
    assert!(matches!(Error::from_status(500, "a".into(), None, None), Error::Server { status: 500, .. }));
    assert!(matches!(Error::from_status(503, "a".into(), None, None), Error::Server { status: 503, .. }));
    assert!(matches!(Error::from_status(400, "a".into(), None, None), Error::Api { status: 400, .. }));
    assert!(matches!(Error::from_status(409, "a".into(), None, None), Error::Api { status: 409, .. }));
    assert!(matches!(Error::from_status(302, "a".into(), None, None), Error::Api { status: 302, .. }));
}

#[test]
fn status_round_trips() {
    for s in [200u16, 302, 400, 401, 403, 404, 409, 422, 429, 500, 502, 599, 600] {
        assert_eq!(Error::from_status(s, "m".into(), None, None).status(), Some(s));
    }
    assert_eq!(Error::PtyClosed.status(), None);
    assert_eq!(Error::Parse("x".into()).status(), None);
    assert_eq!(Error::Network("down".into()).status(), None);
}

#[test]
fn request_id_is_kept() {
    let e = Error::from_status(404, "gone".into(), rid("req-9"), None);
    assert_eq!(e.request_id(), Some("req-9"));
    let e = Error::from_status(500, "boom".into(), None, None);
    assert_eq!(e.request_id(), None);
    assert_eq!(Error::Serde("bad".into()).request_id(), None);
}

#[test]
fn describe_matches_display_texts() {
    assert_eq!(
        Error::from_status(403, "no".into(), None, None).describe(),
        "sandbox API error 403: no (auth)"
    );
    assert_eq!(
        Error::from_status(404, "missing".into(), None, None).describe(),
        "sandbox API error 404: missing (not found)"
    );
    assert_eq!(
        Error::from_status(422, "full".into(), None, None).describe(),
        "sandbox API error 422: full (quota)"
    );
    assert_eq!(
        Error::from_status(429, "wait".into(), None, None).describe(),
        "sandbox API error 429: wait (rate limit)"
    );
    assert_eq!(
        Error::from_status(502, "bad gateway".into(), None, None).describe(),
        "sandbox API error 502: bad gateway (server)"
    );
    assert_eq!(
        Error::from_status(418, "teapot".into(), None, None).describe(),
        "sandbox API error 418: teapot"
    );
    assert_eq!(Error::Network("refused".into()).describe(), "network error: refused");
    assert_eq!(Error::PtyClosed.describe(), "PTY session is closed");
    assert_eq!(
        Error::NotImplemented { message: "x".into() }.describe(),
        "not implemented by server: x"
    );
    assert_eq!(Error::Serde("eof".into()).describe(), "serialization error: eof");
    assert_eq!(Error::Parse("p".into()).describe(), "parse error: p");
    assert_eq!(
        Error::Timeout { state: "paused".into(), elapsed: Duration::from_millis(1500) }.describe(),
        "timed out waiting for sandbox state (last state: paused, elapsed: 1.5s)"
    );
}
