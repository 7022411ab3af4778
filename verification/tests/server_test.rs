use tcp_to_http::headers::Headers;
use tcp_to_http::server::response::{Response, StatusCode};
use tcp_to_http::server::{chunked_encoding, encode_response, HandlerError, ServeError};

#[test]
fn status_lines() {
    assert_eq!(StatusCode::OK.status_line(), b"HTTP/1.1 200 OK\r\n".to_vec());
    assert_eq!(StatusCode::BadRequest.status_line(), b"HTTP/1.1 400 Bad Request\r\n".to_vec());
    assert_eq!(
        StatusCode::InternalServerError.status_line(),
        b"HTTP/1.1 500 Internal Server Error\r\n".to_vec()
    );
}

#[test]
fn chunked_bodies() {
    assert_eq!(chunked_encoding(&Vec::new()), b"0\r\n\r\n".to_vec());
    let body: Vec<u8> = (0..40u8).map(|i| b'a' + (i % 26)).collect();
    let mut expected = b"20\r\n".to_vec();
    expected.extend_from_slice(&body[..32]);
    expected.extend_from_slice(b"\r\n8\r\n");
    expected.extend_from_slice(&body[32..]);
    expected.extend_from_slice(b"\r\n0\r\n\r\n");
    assert_eq!(chunked_encoding(&body), expected);
    assert_eq!(chunked_encoding(&b"hi".to_vec()), b"2\r\nhi\r\n0\r\n\r\n".to_vec());
}

#[test]
fn plain_response() {
    let mut headers = Headers::new();
    headers.set("Content-Length".to_string(), "2".to_string());
    let r = Response::new(StatusCode::OK, headers, b"hi".to_vec(), None);
    let (bytes, failure) = encode_response(Ok(r));
    assert_eq!(bytes, b"HTTP/1.1 200 OK\r\ncontent-length: 2\r\n\r\nhi".to_vec());
    assert_eq!(failure, None);
}

#[test]
fn chunked_response() {
    let mut headers = Headers::new();
    headers.set("Transfer-Encoding".to_string(), "chunked".to_string());
    let r = Response::new(StatusCode::OK, headers, b"hi".to_vec(), None);
    let (bytes, failure) = encode_response(Ok(r));
    assert_eq!(bytes, b"HTTP/1.1 200 OK\r\ntransfer-encoding: chunked\r\n\r\n2\r\nhi\r\n0\r\n\r\n".to_vec());
    assert_eq!(failure, None);
}

#[test]
fn unsupported_transfer_coding() {
    let mut headers = Headers::new();
    headers.set("Transfer-Encoding".to_string(), "gzip".to_string());
    let r = Response::new(StatusCode::BadRequest, headers, b"hi".to_vec(), None);
    let (bytes, failure) = encode_response(Ok(r));
    assert_eq!(bytes, b"HTTP/1.1 400 Bad Request\r\ntransfer-encoding: gzip\r\n\r\n".to_vec());
    assert_eq!(failure, Some(ServeError::UnsupportedTransferEncoding));
}

#[test]
fn handler_error_response() {
    let e = HandlerError { status: StatusCode::InternalServerError, message: b"oops".to_vec() };
    let (bytes, failure) = encode_response(Err(e));
    assert_eq!(
        bytes,
        b"HTTP/1.1 500 Internal Server Error\r\ncontent-length: 4\r\nconnection: close\r\ncontent-type: text/plain\r\n\r\noops".to_vec()
    );
    assert_eq!(failure, None);
}
