use talon_sandbox::{parse_duration, parse_size, Error};

#[test]
fn sizes() {
    assert_eq!(parse_size("4GiB").unwrap(), 4i64 << 30);
    assert_eq!(parse_size("512MiB").unwrap(), 512i64 << 20);
    assert_eq!(parse_size("1024").unwrap(), 1024);
    assert_eq!(parse_size("1GB").unwrap(), 1_000_000_000);
    assert_eq!(parse_size("").unwrap(), 0);
}

#[test]
fn durations() {
    assert_eq!(parse_duration("30m").unwrap(), 1800);
    assert_eq!(parse_duration("6h").unwrap(), 21600);
    assert_eq!(parse_duration("90s").unwrap(), 90);
    assert_eq!(parse_duration("1d").unwrap(), 86400);
}

#[test]
fn invalid() {
    assert!(parse_size("abc").is_err());
    assert!(parse_duration("xyz").is_err());
}

#[test]
fn size_units_and_case() {
    assert_eq!(parse_size("1TiB").unwrap(), 1i64 << 40);
    assert_eq!(parse_size("3kib").unwrap(), 3072);
    assert_eq!(parse_size("2TB").unwrap(), 2_000_000_000_000);
    assert_eq!(parse_size("7mb").unwrap(), 7_000_000);
    assert_eq!(parse_size("5Kb").unwrap(), 5000);
    assert_eq!(parse_size("9b").unwrap(), 9);
    assert_eq!(parse_size("  4 GiB  ").unwrap(), 4i64 << 30);
}

#[test]
fn size_fractions_and_signs() {
    assert_eq!(parse_size("1.5GiB").unwrap(), 1610612736);
    assert_eq!(parse_size("0.5KiB").unwrap(), 512);
    assert_eq!(parse_size(".25kb").unwrap(), 250);
    assert_eq!(parse_size("2.kb").unwrap(), 2000);
    assert_eq!(parse_size("+3kb").unwrap(), 3000);
    assert_eq!(parse_size("-1kb").unwrap(), -1000);
    assert_eq!(parse_size("0.0001kb").unwrap(), 0);
    assert_eq!(parse_size("-0.0001kb").unwrap(), 0);
}

#[test]
fn size_saturates() {
    assert_eq!(parse_size("99999999999TiB").unwrap(), i64::MAX);
    assert_eq!(parse_size("-99999999999TiB").unwrap(), i64::MIN);
}

#[test]
fn bare_integers_follow_i64() {
    assert_eq!(parse_size("-42").unwrap(), -42);
    assert_eq!(parse_size("+42").unwrap(), 42);
    assert_eq!(parse_size("9223372036854775807").unwrap(), i64::MAX);
    assert!(parse_size("9223372036854775808").is_err());
    assert_eq!(parse_duration("-9223372036854775808").unwrap(), i64::MIN);
    assert!(parse_size("1.5").is_err());
}

#[test]
fn malformed_numbers() {
    assert!(parse_size("kb").is_err());
    assert!(parse_size(".kb").is_err());
    assert!(parse_size("1.2.3kb").is_err());
    assert!(parse_size("5ib").is_err());
    assert!(parse_duration("1x").is_err());
    assert!(parse_duration("m").is_err());
}

#[test]
fn error_message_quotes_trimmed_input() {
    match parse_size("  abc ") {
        Err(Error::Parse(m)) => assert_eq!(m, "invalid size: \"abc\""),
        _ => panic!("expected a parse error"),
    }
    match parse_duration("x\"y") {
        Err(Error::Parse(m)) => assert_eq!(m, "invalid duration: \"x\\\"y\""),
        _ => panic!("expected a parse error"),
    }
}

#[test]
fn durations_more() {
    assert_eq!(parse_duration("").unwrap(), 0);
    assert_eq!(parse_duration("   ").unwrap(), 0);
    assert_eq!(parse_duration("45").unwrap(), 45);
    assert_eq!(parse_duration("1.5h").unwrap(), 5400);
    assert_eq!(parse_duration("2D").unwrap(), 172800);
    assert_eq!(parse_duration("10 S").unwrap(), 10);
}

#[test]
fn float_syntax_numbers() {
    assert_eq!(parse_size("1e3b").unwrap(), 1000);
    assert_eq!(parse_size("1.5e1kb").unwrap(), 15_000);
    assert_eq!(parse_size("2e-3kb").unwrap(), 2);
    assert_eq!(parse_size("25E-1KiB").unwrap(), 2560);
    assert_eq!(parse_size("1e400b").unwrap(), i64::MAX);
    assert_eq!(parse_size("1e-400kb").unwrap(), 0);
    assert_eq!(parse_size("0e99999999999999999999999b").unwrap(), 0);
    assert_eq!(parse_size("5e-99999999999999999999999b").unwrap(), 0);
    assert_eq!(parse_size("infkb").unwrap(), i64::MAX);
    assert_eq!(parse_size("-INFb").unwrap(), i64::MIN);
    assert_eq!(parse_size("nanmb").unwrap(), 0);
    assert_eq!(parse_duration("Infinityh").unwrap(), i64::MAX);
    assert!(parse_size("1ekb").is_err());
    assert!(parse_size("e3kb").is_err());
    assert!(parse_size("1e+kb").is_err());
    assert!(parse_size("infinitekb").is_err());
}
