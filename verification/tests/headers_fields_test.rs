use tcp_to_http::headers::Headers;

#[test]
fn repeated_fields_combine_in_any_case() {
    let mut h = Headers::new();
    h.set("Accept".to_string(), "text/html".to_string());
    h.set("ACCEPT".to_string(), "application/json".to_string());
    assert_eq!(h.get(&"accept".to_string()).unwrap(), "text/html,application/json");
    assert_eq!(h.get(&"aCcEpT".to_string()).unwrap(), "text/html,application/json");
    assert_eq!(h.fields().len(), 1);
}

#[test]
fn setting_a_field_keeps_the_others() {
    let mut h = Headers::new();
    h.set("A".to_string(), "1".to_string());
    h.set("B".to_string(), "2".to_string());
    assert_eq!(h.get(&"a".to_string()).unwrap(), "1");
    assert_eq!(h.get(&"b".to_string()).unwrap(), "2");
}

#[test]
fn replace_and_delete() {
    let mut h = Headers::default_response_headers(12);
    assert_eq!(h.get(&"Content-Length".to_string()).unwrap(), "12");
    h.replace("Content-Length".to_string(), "7".to_string());
    assert_eq!(h.get(&"content-length".to_string()).unwrap(), "7");
    h.delete("CONTENT-LENGTH".to_string());
    assert!(h.get(&"content-length".to_string()).is_none());
    assert_eq!(h.get(&"connection".to_string()).unwrap(), "close");
}

#[test]
fn parse_only_takes_complete_lines() {
    let mut h = Headers::new();
    assert_eq!(h.parse(b"Host: a\r\nUser"), Ok((9, false)));
    assert_eq!(h.get(&"host".to_string()).unwrap(), "a");
    assert!(h.get(&"user".to_string()).is_none());
    let mut h = Headers::new();
    assert_eq!(h.parse(b"\r\nHost: a\r\n"), Ok((2, true)));
    assert!(h.fields().is_empty());
}

#[test]
fn values_are_trimmed_of_unicode_whitespace() {
    let mut h = Headers::new();
    assert_eq!(h.parse("X: \t\u{a0}v w\u{3000} \r\n\r\n".as_bytes()).map(|r| r.1), Ok(true));
    assert_eq!(h.get(&"x".to_string()).unwrap(), "v w");
}

#[test]
fn field_names_are_tokens() {
    let h = Headers::new();
    assert!(h.is_valid_field_name(&"X-Custom_1!#$%&'*+.^`|~".to_string()));
    assert!(h.is_valid_field_name(&"Größe".to_string()));
    assert!(h.is_valid_field_name(&"".to_string()));
    assert!(!h.is_valid_field_name(&" Host".to_string()));
    assert!(!h.is_valid_field_name(&"Host ".to_string()));
    assert!(!h.is_valid_field_name(&"H@st".to_string()));
    assert!(!h.is_valid_field_name(&"Ho st".to_string()));
}

#[test]
fn writing_fields() {
    let mut h = Headers::new();
    h.set("Content-Type".to_string(), "text/plain".to_string());
    h.set("X".to_string(), "1".to_string());
    assert_eq!(h.write_headers(), b"content-type: text/plain\r\nx: 1\r\n\r\n".to_vec());
    assert_eq!(h.describe(), "Headers:\n- content-type, text/plain\n- x, 1\n");
    assert_eq!(Headers::new().write_headers(), b"\r\n".to_vec());
}

#[test]
fn default_fields() {
    let h = Headers::default_response_headers(0);
    assert_eq!(
        h.write_headers(),
        b"content-length: 0\r\nconnection: close\r\ncontent-type: text/plain\r\n\r\n".to_vec()
    );
}
