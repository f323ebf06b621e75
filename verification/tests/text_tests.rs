use gpiosentry::decimal::{parse_i32, parse_u8};
use gpiosentry::utils::{check_is_url, make_safe_url, plan_action, url_is_valid, Action};

#[test]
fn parse_u8_accepts_plain_and_plus_signed_digits() {
    assert_eq!(parse_u8("18"), Some(18));
    assert_eq!(parse_u8("+7"), Some(7));
    assert_eq!(parse_u8("007"), Some(7));
    assert_eq!(parse_u8("0"), Some(0));
    assert_eq!(parse_u8("255"), Some(255));
}

#[test]
fn parse_u8_refuses_what_std_refuses() {
    assert_eq!(parse_u8("256"), None);
    assert_eq!(parse_u8("-1"), None);
    assert_eq!(parse_u8("-0"), None);
    assert_eq!(parse_u8(""), None);
    assert_eq!(parse_u8("+"), None);
    assert_eq!(parse_u8(" 5"), None);
    assert_eq!(parse_u8("1 "), None);
    assert_eq!(parse_u8("99999999999"), None);
}

#[test]
fn parse_u8_agrees_with_std_on_every_byte_value() {
    for v in 0u32..1000 {
        let text = v.to_string();
        assert_eq!(parse_u8(&text), text.parse::<u8>().ok());
    }
}

#[test]
fn parse_i32_reads_the_whole_range() {
    assert_eq!(parse_i32("-2147483648"), Some(i32::MIN));
    assert_eq!(parse_i32("2147483647"), Some(i32::MAX));
    assert_eq!(parse_i32("+12"), Some(12));
    assert_eq!(parse_i32("-0"), Some(0));
    assert_eq!(parse_i32("1500"), Some(1500));
}

#[test]
fn parse_i32_refuses_what_std_refuses() {
    assert_eq!(parse_i32("2147483648"), None);
    assert_eq!(parse_i32("-2147483649"), None);
    assert_eq!(parse_i32("-"), None);
    assert_eq!(parse_i32(""), None);
    assert_eq!(parse_i32("1a"), None);
    assert_eq!(parse_i32("--1"), None);
    assert_eq!(parse_i32("1.5"), None);
}

#[test]
fn parse_i32_agrees_with_std() {
    let samples = [
        "0", "-1", "+1", "42", "-42", "2147483647", "2147483648", "-2147483648", "-2147483649",
        "00012", "+-3", "", " ", "12 ", "4294967296", "99999999999999999999",
    ];
    for s in samples.iter() {
        assert_eq!(parse_i32(s), s.parse::<i32>().ok(), "input {:?}", s);
    }
}

#[test]
fn check_is_url_looks_for_the_scheme_separator() {
    assert!(check_is_url(&"https://example.com/api".to_string()));
    assert!(check_is_url(&"://".to_string()));
    assert!(!check_is_url(&"/usr/local/bin/door.sh".to_string()));
    assert!(!check_is_url(&"a:/b".to_string()));
    assert!(!check_is_url(&"".to_string()));
    assert!(!check_is_url(&":/".to_string()));
}

#[test]
fn make_safe_url_normalises_the_url() {
    let out = make_safe_url(&"https://example.com".to_string());
    assert_eq!(out, "https://example.com/");
    let out = make_safe_url(&"HTTP://Example.COM/a/../b".to_string());
    assert_eq!(out, "http://example.com/b");
}

#[test]
fn url_is_valid_follows_the_url_parser() {
    assert!(url_is_valid(&"https://example.com/api/lightswitch".to_string()));
    assert!(!url_is_valid(&"http://[::1".to_string()));
    assert!(!url_is_valid(&"no scheme ://".to_string()));
}

#[test]
fn plan_action_maps_each_method() {
    assert_eq!(plan_action(0, "http://a/".to_string(), "x".to_string()), None);
    assert_eq!(
        plan_action(1, "http://a/".to_string(), "x".to_string()),
        Some(Action::HttpGet { url: "http://a/".to_string() })
    );
    assert_eq!(
        plan_action(2, "http://a/".to_string(), "ON".to_string()),
        Some(Action::HttpPost { url: "http://a/".to_string(), body: "ON".to_string() })
    );
    assert_eq!(
        plan_action(3, "/bin/true".to_string(), "x".to_string()),
        Some(Action::RunCommand { program: "/bin/true".to_string() })
    );
}
