//! Responses and their status line.

use crate::headers::Headers;
use vstd::prelude::*;
use vstd::utf8::encode_utf8;

verus! {

#[derive(Debug, Clone, Copy, PartialEq, Eq, Structural)]
pub enum StatusCode {
    OK,
    BadRequest,
    InternalServerError,
}

/// The status line that starts a response with status `s`.
pub open spec fn status_line_bytes(s: StatusCode) -> Seq<u8> {
    match s {
        StatusCode::OK => encode_utf8("HTTP/1.1 200 OK\r\n"@),
        StatusCode::BadRequest => encode_utf8("HTTP/1.1 400 Bad Request\r\n"@),
        StatusCode::InternalServerError => encode_utf8("HTTP/1.1 500 Internal Server Error\r\n"@),
    }
}

impl StatusCode {
    /// The status line that starts a response with this status.
    pub fn status_line(&self) -> (r: Vec<u8>)
        ensures
            r@ == status_line_bytes(*self),
    {
        let line = match self {
            StatusCode::OK => "HTTP/1.1 200 OK\r\n".as_bytes(),
            StatusCode::BadRequest => "HTTP/1.1 400 Bad Request\r\n".as_bytes(),
            StatusCode::InternalServerError => "HTTP/1.1 500 Internal Server Error\r\n".as_bytes(),
        };
        vstd::slice::slice_to_vec(line)
    }
}

pub struct Response {
    pub status: StatusCode,
    pub headers: Headers,
    pub body: Vec<u8>,
    pub trailers: Option<Headers>,
}

impl Response {
    pub fn new(status: StatusCode, headers: Headers, body: Vec<u8>, trailers: Option<Headers>) -> (r: Self)
        ensures
            r.status == status,
            r.headers == headers,
            r.body == body,
            r.trailers == trailers,
    {
        Response { status: status, headers: headers, body: body, trailers: trailers }
    }
}

} // verus!
