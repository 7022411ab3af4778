use tcp_to_http::text::{hex_upper, parse_usize, str_starts_with, trim_str, usize_to_string};

#[test]
fn decimal_numbers() {
    assert_eq!(parse_usize("13"), Some(13));
    assert_eq!(parse_usize("+12"), Some(12));
    assert_eq!(parse_usize("007"), Some(7));
    assert_eq!(parse_usize(""), None);
    assert_eq!(parse_usize("+"), None);
    assert_eq!(parse_usize("-1"), None);
    assert_eq!(parse_usize("1 2"), None);
    assert_eq!(parse_usize("18446744073709551615"), Some(usize::MAX));
    assert_eq!(parse_usize("18446744073709551616"), None);
    assert_eq!(usize_to_string(0), "0");
    assert_eq!(usize_to_string(1234), "1234");
    assert_eq!(usize_to_string(usize::MAX), usize::MAX.to_string());
}

#[test]
fn hexadecimal_numbers() {
    assert_eq!(hex_upper(0), b"0".to_vec());
    assert_eq!(hex_upper(32), b"20".to_vec());
    assert_eq!(hex_upper(255), b"FF".to_vec());
    assert_eq!(hex_upper(4096), b"1000".to_vec());
}

#[test]
fn trimming_and_prefixes() {
    assert_eq!(trim_str("  a b \t"), "a b");
    assert_eq!(trim_str("\u{2000}x\u{85}"), "x");
    assert_eq!(trim_str("   "), "");
    assert!(str_starts_with("/httpbin/x", "/httpbin/"));
    assert!(!str_starts_with("/httpbin", "/httpbin/"));
    assert!(str_starts_with("abc", ""));
}
