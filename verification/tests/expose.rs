use std::time::Duration;
use talon_sandbox::expose::{
    expose_path, expose_request, is_endpoint_missing, listing_failure, names_neither_sandbox_nor_port,
    port_failure,
    unexpose_path, wrap_port_error,
};
use talon_sandbox::{Error, ExposeOpts};

#[test]
fn expose_body_fields() {
    let r = expose_request(8080, &ExposeOpts { sign: false, ttl: None, subdomain: None });
    assert_eq!(r.port, 8080);
    assert!(r.sign.is_none() && r.ttl.is_none() && r.subdomain.is_none());
    let r = expose_request(
        3000,
        &ExposeOpts { sign: true, ttl: Some("1h".into()), subdomain: Some(String::new()) },
    );
    assert_eq!(r.sign, Some(true));
    assert_eq!(r.ttl.as_deref(), Some("1h"));
    assert!(r.subdomain.is_none());
}

#[test]
fn endpoint_missing_detection() {
    let nf = |m: &str| Error::NotFound { message: m.into(), request_id: None };
    assert!(is_endpoint_missing(&nf("404 page not found")));
    assert!(!is_endpoint_missing(&nf("sandbox not found")));
    assert!(!is_endpoint_missing(&nf("SANDBOX gone")));
    assert!(!is_endpoint_missing(&nf("Port 80 not exposed")));
    assert!(!is_endpoint_missing(&Error::from_status(500, "x".into(), None, None)));
}

#[test]
fn lowered_message_without_target() {
    assert!(names_neither_sandbox_nor_port("404 page not found"));
    assert!(!names_neither_sandbox_nor_port("no such sandbox"));
    assert!(!names_neither_sandbox_nor_port("port 80 not exposed"));
    assert!(names_neither_sandbox_nor_port("PORT in upper case is not looked for"));
    assert!(names_neither_sandbox_nor_port(""));
}

#[test]
fn wrap_prefixes_api_messages() {
    let e = wrap_port_error(Error::from_status(409, "busy".into(), Some("r".into()), None), "expose", 8080);
    match e {
        Error::Api { status, message, request_id } => {
            assert_eq!(status, 409);
            assert_eq!(message, "expose port 8080: busy");
            assert_eq!(request_id.as_deref(), Some("r"));
        }
        other => panic!("unexpected {:?}", other),
    }
    let e = wrap_port_error(
        Error::from_status(429, "slow".into(), None, Some(Duration::from_secs(2))),
        "unexpose",
        1,
    );
    match e {
        Error::RateLimit { message, retry_after, .. } => {
            assert_eq!(message, "unexpose port 1: slow");
            assert_eq!(retry_after, Some(Duration::from_secs(2)));
        }
        other => panic!("unexpected {:?}", other),
    }
    assert!(matches!(wrap_port_error(Error::PtyClosed, "expose", 1), Error::PtyClosed));
}

#[test]
fn failures_of_expose_endpoints() {
    let missing = Error::NotFound { message: "404 page not found".into(), request_id: None };
    match port_failure(missing, "expose", 80) {
        Error::NotImplemented { message } => {
            assert_eq!(message, "expose endpoint not yet available on this server")
        }
        other => panic!("unexpected {:?}", other),
    }
    let real = Error::NotFound { message: "sandbox not found".into(), request_id: None };
    match port_failure(real, "unexpose", 80) {
        Error::NotFound { message, .. } => assert_eq!(message, "unexpose port 80: sandbox not found"),
        other => panic!("unexpected {:?}", other),
    }
    let missing = Error::NotFound { message: "no route".into(), request_id: None };
    assert!(matches!(listing_failure(missing), Error::NotImplemented { .. }));
    let real = Error::NotFound { message: "sandbox gone".into(), request_id: None };
    assert!(matches!(listing_failure(real), Error::NotFound { ref message, .. } if message == "sandbox gone"));
}

#[test]
fn expose_paths() {
    assert_eq!(expose_path("s"), "/v1/sandboxes/s/expose");
    assert_eq!(unexpose_path("s", 65535), "/v1/sandboxes/s/expose/65535");
    assert_eq!(unexpose_path("s", 0), "/v1/sandboxes/s/expose/0");
}
