use tcp_to_http::error::ParseError;
use tcp_to_http::headers::Headers;
use tcp_to_http::request::request_line::RequestLine;
use tcp_to_http::request::{Request, RequestReader};

fn parse_line(data: &[u8]) -> Result<(RequestLine, usize), ParseError> {
    RequestLine::parse_request_line(data)
}

#[test]
fn invalid_utf8_is_refused() {
    let bad: &[u8] = b"Host: \xff\r\n\r\n";
    let mut h = Headers::new();
    let err = h.parse(bad).unwrap_err();
    assert_eq!(err, ParseError::InvalidUtf8(std::str::from_utf8(bad).unwrap_err().to_string()));
    assert_eq!(err.message(), "invalid utf-8 sequence of 1 bytes from index 6");
    let cut: &[u8] = b"GET / HTTP/1.1\r\n\xc3";
    let err = parse_line(cut).err().unwrap();
    assert_eq!(err, ParseError::InvalidUtf8(std::str::from_utf8(cut).unwrap_err().to_string()));
    assert_eq!(err.message(), "incomplete utf-8 byte sequence from index 16");
}

#[test]
fn request_line_errors() {
    assert_eq!(parse_line(b"/coffee HTTP/1.1\r\n").err(), Some(ParseError::MalformedRequestLine));
    assert_eq!(parse_line(b"GET  / HTTP/1.1\r\n").err(), Some(ParseError::MalformedRequestLine));
    assert_eq!(parse_line(b"GET / HTTP1.1\r\n").err(), Some(ParseError::MalformedHttpVersion));
    assert_eq!(parse_line(b"GET / HTTP/1/1\r\n").err(), Some(ParseError::MalformedHttpVersion));
    assert_eq!(parse_line(b"Get / HTTP/1.1\r\n").err(), Some(ParseError::MalformedMethod));
}

#[test]
fn request_line_without_separator_waits() {
    let (line, n) = parse_line(b"GET / HTTP/1.1").unwrap();
    assert_eq!(n, 0);
    assert_eq!(line.method, "");
    let (line, n) = parse_line(b"PUT /x HTTP/2.0\r\nrest").unwrap();
    assert_eq!(n, 17);
    assert_eq!(line.method, "PUT");
    assert_eq!(line.request_target, "/x");
    assert_eq!(line.http_version, "2.0");
}

#[test]
fn header_errors() {
    let mut h = Headers::new();
    assert_eq!(h.parse(b"Host localhost\r\n\r\n"), Err(ParseError::MalformedHeader));
    let mut h = Headers::new();
    assert_eq!(h.parse(b"H@st: x\r\n\r\n"), Err(ParseError::MalformedFieldName("H@st".to_string())));
    let mut h = Headers::new();
    assert_eq!(h.parse(b"Host : x\r\n\r\n"), Err(ParseError::MalformedFieldName("Host ".to_string())));
}

#[test]
fn content_length_errors() {
    let mut reader = RequestReader::new();
    let r = reader.feed(b"POST / HTTP/1.1\r\nContent-Length: abc\r\n\r\n");
    assert_eq!(r, Err(ParseError::MalformedContentLength));
    let mut req = Request::new();
    let r = req.parse(b"POST / HTTP/1.1\r\nContent-Length: 3\r\n\r\nabcd");
    assert_eq!(r, Err(ParseError::BodyTooLong));
    assert!(req.done());
}

#[test]
fn error_messages() {
    assert_eq!(ParseError::MalformedRequest.message(), "Request is Malformed");
    assert_eq!(ParseError::MalformedHeader.message(), "HEADER is Malformed");
    assert_eq!(
        ParseError::MalformedFieldName("H@st".to_string()).message(),
        "Field value is Malformed Field name: H@st "
    );
    assert_eq!(
        ParseError::MalformedRequestLine.message(),
        "Request line is Malformed: the request was incomplete"
    );
}

#[test]
fn request_error_texts() {
    assert_eq!(ParseError::MalformedRequest.request_message(), "Request is Malformed");
    assert_eq!(
        ParseError::MalformedFieldName("H@st".to_string()).request_message(),
        "Request is in error state: Field value is Malformed Field name: H@st "
    );
}
