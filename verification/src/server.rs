//! What an HTTP server writes back for a request.

pub mod request;
pub mod response;

use crate::headers::{default_response_entries, field_lines_bytes, lookup, Headers};
use crate::text::{
    find_crlf, hex_number, hex_upper, hex_upper_bytes, lacks_byte, lemma_crlf_after, lemma_find_crlf,
    lemma_encode_concat, lemma_hex_upper_reads_back,
};
use response::{status_line_bytes, Response, StatusCode};
use vstd::prelude::*;
use vstd::utf8::encode_utf8;

verus! {

/// What a handler answers when it cannot produce a response.
pub struct HandlerError {
    pub status: StatusCode,
    pub message: Vec<u8>,
}

/// How many body bytes go into one chunk.
pub const CHUNK_SIZE: usize = 32;

/// `body` in the chunked transfer coding: chunks of 32 bytes (the last one may be
/// shorter), each preceded by its length in uppercase hexadecimal and "\r\n" and
/// followed by "\r\n", then the last chunk "0\r\n\r\n".
pub open spec fn chunked_bytes(body: Seq<u8>) -> Seq<u8>
    decreases body.len(),
{
    if body.len() == 0 {
        seq![48u8, 13u8, 10u8, 13u8, 10u8]
    } else {
        let n = if body.len() < 32 {
            body.len()
        } else {
            32
        };
        hex_upper_bytes(n) + seq![13u8, 10u8] + body.take(n as int) + seq![13u8, 10u8]
            + chunked_bytes(body.skip(n as int))
    }
}

/// What a client reads out of chunked data (RFC 9112 7.1): a size line in
/// hexadecimal ended by "\r\n", that many bytes, "\r\n", and so on, until a size of
/// 0 followed by the final "\r\n". Nothing when the bytes do not have that form.
pub open spec fn dechunk(s: Seq<u8>) -> Option<Seq<u8>>
    decreases s.len(),
{
    match find_crlf(s) {
        None => None,
        Some(i) => {
            proof {
                lemma_find_crlf(s);
            }
            match hex_number(s.take(i)) {
                None => None,
                Some(n) => {
                    if n == 0 {
                        if s.skip(i + 2) == seq![13u8, 10u8] {
                            Some(Seq::empty())
                        } else {
                            None
                        }
                    } else if i + 4 + n <= s.len() && s.subrange(i + 2 + n, i + 4 + n) == seq![
                        13u8,
                        10u8,
                    ] {
                        match dechunk(s.skip(i + 4 + n)) {
                            Some(rest) => Some(s.subrange(i + 2, i + 2 + n) + rest),
                            None => None,
                        }
                    } else {
                        None
                    }
                },
            }
        },
    }
}

/// A client that reads the chunked coding of a body gets the body back.
pub proof fn lemma_chunked_decodes(body: Seq<u8>)
    ensures
        dechunk(chunked_bytes(body)) == Some(body),
    decreases body.len(),
{
    let s = chunked_bytes(body);
    if body.len() == 0 {
        let zero = seq![48u8];
        assert(lacks_byte(zero, 10u8));
        assert(s =~= zero + seq![13u8, 10u8] + seq![13u8, 10u8]);
        lemma_crlf_after(zero, seq![13u8, 10u8]);
        assert(s.take(1) =~= zero);
        assert(hex_number(zero) == Some(0nat));
        assert(s.skip(3) =~= seq![13u8, 10u8]);
    } else {
        let n: nat = if body.len() < 32 {
            body.len()
        } else {
            32
        };
        let h = hex_upper_bytes(n);
        let rest = chunked_bytes(body.skip(n as int));
        lemma_hex_upper_reads_back(n);
        let tail = body.take(n as int) + seq![13u8, 10u8] + rest;
        assert(s =~= h + seq![13u8, 10u8] + tail);
        lemma_crlf_after(h, tail);
        let i = h.len() as int;
        assert(s.take(i) =~= h);
        assert(s.subrange(i + 2 + n, i + 4 + n) =~= seq![13u8, 10u8]);
        assert(s.skip(i + 4 + n) =~= rest);
        assert(s.subrange(i + 2, i + 2 + n) =~= body.take(n as int));
        lemma_chunked_decodes(body.skip(n as int));
        assert(body.take(n as int) + body.skip(n as int) =~= body);
    }
}

/// The body bytes of a chunked response; see `chunked_bytes`.
pub fn chunked_encoding(body: &Vec<u8>) -> (r: Vec<u8>)
    ensures
        r@ == chunked_bytes(body@),
{
    let mut out: Vec<u8> = Vec::new();
    let len = body.len();
    let mut pos: usize = 0;
    assert(body@.skip(0) =~= body@);
    while pos < len
        invariant
            pos <= len,
            len == body@.len(),
            chunked_bytes(body@) == out@ + chunked_bytes(body@.skip(pos as int)),
        decreases len - pos,
    {
        let n = if len - pos < CHUNK_SIZE {
            len - pos
        } else {
            CHUNK_SIZE
        };
        let ghost rest = body@.skip(pos as int);
        let ghost before = out@;
        let mut size = hex_upper(n);
        out.append(&mut size);
        out.push(13u8);
        out.push(10u8);
        let mut chunk = vstd::slice::slice_to_vec(&body.as_slice()[pos..pos + n]);
        out.append(&mut chunk);
        out.push(13u8);
        out.push(10u8);
        proof {
            assert(rest.take(n as int) =~= body@.subrange(pos as int, pos + n));
            assert(rest.skip(n as int) =~= body@.skip(pos + n));
            assert(out@ =~= before + (hex_upper_bytes(n as nat) + seq![13u8, 10u8] + rest.take(n as int) + seq![13u8, 10u8]));
        }
        pos = pos + n;
    }
    out.push(48u8);
    out.push(13u8);
    out.push(10u8);
    out.push(13u8);
    out.push(10u8);
    out
}

/// Why a response was not written out in full.
#[derive(Debug, Clone, Copy, PartialEq, Eq, Structural)]
pub enum ServeError {
    /// The response names a transfer coding other than "chunked".
    UnsupportedTransferEncoding,
}

/// The status line and field lines of a response.
pub open spec fn head_bytes(status: StatusCode, fields: Seq<(Seq<char>, Seq<char>)>) -> Seq<u8> {
    status_line_bytes(status) + field_lines_bytes(fields) + seq![13u8, 10u8]
}

/// What the server writes for the answer of a handler: the status line, the
/// fields and the body. A body is sent in the chunked coding when the
/// Transfer-Encoding field says "chunked", and as it is when there is no such
/// field; any other transfer coding is refused after the fields were written.
/// A handler's error is sent with its status and its message as a plain-text body.
pub open spec fn response_bytes(outcome: Result<Response, HandlerError>) -> (Seq<u8>, Option<ServeError>) {
    match outcome {
        Ok(response) => {
            let head = head_bytes(response.status, response.headers@);
            match lookup(response.headers@, "transfer-encoding"@) {
                Some(v) => {
                    if v == "chunked"@ {
                        (head + chunked_bytes(response.body@), None)
                    } else {
                        (head, Some(ServeError::UnsupportedTransferEncoding))
                    }
                },
                None => (head + response.body@, None),
            }
        },
        Err(e) => (
            head_bytes(e.status, default_response_entries(e.message@.len())) + e.message@,
            None,
        ),
    }
}

/// The three-digit number of a status.
pub open spec fn status_code_text(s: StatusCode) -> Seq<char> {
    match s {
        StatusCode::OK => "200"@,
        StatusCode::BadRequest => "400"@,
        StatusCode::InternalServerError => "500"@,
    }
}

/// The start of every status line: the version, the number of the status and a space.
pub open spec fn status_prefix(s: StatusCode) -> Seq<u8> {
    encode_utf8("HTTP/1.1 "@ + status_code_text(s) + " "@)
}

/// The status line of a status starts with "HTTP/1.1", that status's number and a space.
pub proof fn lemma_status_line_prefix(s: StatusCode)
    ensures
        status_prefix(s).len() <= status_line_bytes(s).len(),
        status_line_bytes(s).take(status_prefix(s).len() as int) == status_prefix(s),
{
    reveal_strlit("HTTP/1.1 ");
    reveal_strlit(" ");
    reveal_strlit("200");
    reveal_strlit("400");
    reveal_strlit("500");
    reveal_strlit("HTTP/1.1 200 OK\r\n");
    reveal_strlit("HTTP/1.1 400 Bad Request\r\n");
    reveal_strlit("HTTP/1.1 500 Internal Server Error\r\n");
    let line = match s {
        StatusCode::OK => "HTTP/1.1 200 OK\r\n"@,
        StatusCode::BadRequest => "HTTP/1.1 400 Bad Request\r\n"@,
        StatusCode::InternalServerError => "HTTP/1.1 500 Internal Server Error\r\n"@,
    };
    let p = "HTTP/1.1 "@ + status_code_text(s) + " "@;
    assert(line =~= p + line.skip(p.len() as int));
    lemma_encode_concat(p, line.skip(p.len() as int));
    assert(status_line_bytes(s) == encode_utf8(line));
    assert(encode_utf8(line).take(encode_utf8(p).len() as int) =~= encode_utf8(p));
}

/// What the server writes starts with the status line of the status it answers
/// with: for a handler's error, the error's own status, and its message is the
/// body at the end; for a response, the response's status.
pub proof fn lemma_response_status(outcome: Result<Response, HandlerError>)
    ensures
        ({
            let out = response_bytes(outcome).0;
            match outcome {
                Ok(r) => out.take(status_prefix(r.status).len() as int) == status_prefix(r.status)
                    && status_prefix(r.status).len() <= out.len(),
                Err(e) => {
                    &&& status_prefix(e.status).len() <= out.len()
                    &&& out.take(status_prefix(e.status).len() as int) == status_prefix(e.status)
                    &&& response_bytes(outcome).1 is None
                    &&& e.message@.len() <= out.len()
                    &&& out.skip(out.len() - e.message@.len()) == e.message@
                },
            }
        }),
{
    let out = response_bytes(outcome).0;
    match outcome {
        Ok(r) => {
            lemma_status_line_prefix(r.status);
            let line = status_line_bytes(r.status);
            let k = status_prefix(r.status).len() as int;
            assert(out.take(k) =~= line.take(k));
        },
        Err(e) => {
            lemma_status_line_prefix(e.status);
            let line = status_line_bytes(e.status);
            let k = status_prefix(e.status).len() as int;
            assert(out.take(k) =~= line.take(k));
            let head = head_bytes(e.status, default_response_entries(e.message@.len()));
            assert(out.skip(out.len() - e.message@.len()) =~= e.message@);
        },
    }
}

/// The bytes to write for the answer of a handler; see `response_bytes`.
pub fn encode_response(outcome: Result<Response, HandlerError>) -> (r: (Vec<u8>, Option<ServeError>))
    ensures
        (r.0@, r.1) == response_bytes(outcome),
{
    match outcome {
        Ok(response) => {
            let mut out = response.status.status_line();
            let mut fields = response.headers.write_headers();
            out.append(&mut fields);
            let key = "transfer-encoding".to_owned();
            match response.headers.get_lowercase(&key) {
                Some(v) => {
                    let chunked = "chunked".to_owned();
                    if *v == chunked {
                        let mut body = chunked_encoding(&response.body);
                        out.append(&mut body);
                        (out, None)
                    } else {
                        (out, Some(ServeError::UnsupportedTransferEncoding))
                    }
                },
                None => {
                    let mut body = response.body;
                    out.append(&mut body);
                    (out, None)
                },
            }
        },
        Err(e) => {
            let headers = Headers::default_response_headers(e.message.len());
            let mut out = e.status.status_line();
            let mut fields = headers.write_headers();
            out.append(&mut fields);
            let mut message = e.message;
            out.append(&mut message);
            (out, None)
        },
    }
}

} // verus!
