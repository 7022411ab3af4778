//! Parsing an HTTP request as its bytes arrive.

pub mod request_line;

pub use crate::headers;

use crate::error::{failure_of, ParseError, ParseFailure};
use crate::headers::{
    header_lines, lemma_header_lines_append, lemma_header_lines_count, lemma_header_lines_cut,
    lemma_header_lines_zero,
    fields_text, lookup, parse_headers, Headers,
};
use crate::server::request::body::{parse_body_spec, Body};
use crate::text::{
    find_crlf, lemma_find_crlf,
    lemma_find_crlf_append, lemma_valid_crlf_prefix, lemma_valid_cut, lemma_valid_suffix,
    parse_usize, parse_usize_spec,
};
use request_line::{parse_request_line_spec, RequestLine};
use vstd::prelude::*;
use vstd::seq_lib::lemma_flatten_concat;
use vstd::string::StringExecFns;
use vstd::utf8::{valid_utf8, valid_utf8_concat};

verus! {

/// Where a request is in its parsing.
#[derive(Debug, Clone, Copy, PartialEq, Eq, Structural)]
pub enum ParserState {
    /// The request line is awaited.
    StateInit,
    /// Field lines are awaited.
    StateHeaders,
    /// Body bytes are awaited.
    StateBody,
    /// The request is complete.
    StateDone,
    /// The request was refused.
    StateError,
}

/// A request as the parser sees it: its line as (method, target, version), its
/// fields, its state, the body collected so far and the announced body length.
#[verifier::ext_equal]
pub struct RequestModel {
    pub line: (Seq<char>, Seq<char>, Seq<char>),
    pub headers: Seq<(Seq<char>, Seq<char>)>,
    pub state: ParserState,
    pub body: Seq<u8>,
    pub content_length: nat,
}

pub struct Request {
    pub request_line: RequestLine,
    pub headers: Headers,
    pub state: ParserState,
    pub body: Body,
}

impl Request {
    pub open spec fn model(&self) -> RequestModel {
        RequestModel {
            line: self.request_line.view(),
            headers: self.headers@,
            state: self.state,
            body: self.body@.0,
            content_length: self.body@.1,
        }
    }
}

/// Adds `k` to the byte count of a successful outcome.
pub open spec fn shift_outcome(r: Result<int, ParseFailure>, k: int) -> Result<int, ParseFailure> {
    match r {
        Ok(n) => Ok(n + k),
        Err(e) => Err(e),
    }
}

/// The request is complete or refused.
pub open spec fn is_finished(s: ParserState) -> bool {
    s == ParserState::StateDone || s == ParserState::StateError
}

/// The state that follows the empty line after the fields: a request without a
/// Content-Length field is complete; one with a Content-Length that is a decimal
/// `usize` awaits that many body bytes; any other Content-Length is refused.
pub open spec fn after_headers(m: RequestModel) -> (RequestModel, Option<ParseFailure>) {
    match lookup(m.headers, "content-length"@) {
        None => (RequestModel { state: ParserState::StateDone, ..m }, None),
        Some(v) => match parse_usize_spec(v) {
            None => (
                RequestModel { state: ParserState::StateError, ..m },
                Some(ParseFailure::MalformedContentLength),
            ),
            Some(n) => (
                RequestModel { state: ParserState::StateBody, content_length: n as nat, ..m },
                None,
            ),
        },
    }
}

/// What `Request::parse` does with the bytes `data` that are at hand: it reads the
/// request line, then field lines, then the body, as far as `data` goes, and
/// returns the number of bytes it consumed. A line is consumed only when it is
/// complete; body bytes are consumed as they come. Any refusal moves the request
/// into `StateError`.
pub open spec fn parse_request(m: RequestModel, data: Seq<u8>) -> (RequestModel, Result<int, ParseFailure>)
    decreases data.len(),
{
    match m.state {
        ParserState::StateInit => match parse_request_line_spec(data) {
            Err(e) => (RequestModel { state: ParserState::StateError, ..m }, Err(e)),
            Ok((line, n)) => {
                if n == 0 {
                    (m, Ok(0))
                } else {
                    proof {
                        lemma_find_crlf(data);
                    }
                    let (m2, r) = parse_request(
                        RequestModel { line: line, state: ParserState::StateHeaders, ..m },
                        data.skip(n),
                    );
                    (m2, shift_outcome(r, n))
                }
            },
        },
        ParserState::StateHeaders => {
            let (entries, r) = parse_headers(m.headers, data);
            let m1 = RequestModel { headers: entries, ..m };
            match r {
                Err(e) => (RequestModel { state: ParserState::StateError, ..m1 }, Err(e)),
                Ok((n, done)) => {
                    proof {
                        lemma_header_lines_count(m.headers, data);
                    }
                    if n == 0 {
                        (m1, Ok(0))
                    } else if !done {
                        let (m2, r2) = parse_request(m1, data.skip(n));
                        (m2, shift_outcome(r2, n))
                    } else {
                        let (m2, err) = after_headers(m1);
                        match err {
                            Some(e) => (m2, Err(e)),
                            None => {
                                let (m3, r3) = parse_request(m2, data.skip(n));
                                (m3, shift_outcome(r3, n))
                            },
                        }
                    }
                }
            }
        },
        ParserState::StateBody => {
            let m1 = RequestModel { body: m.body + data, ..m };
            match parse_body_spec(m.body, m.content_length, data) {
                Err(e) => (RequestModel { state: ParserState::StateError, ..m1 }, Err(e)),
                Ok((_, done)) => {
                    if done {
                        (RequestModel { state: ParserState::StateDone, ..m1 }, Ok(data.len() as int))
                    } else {
                        (m1, Ok(data.len() as int))
                    }
                },
            }
        },
        _ => (m, Ok(0)),
    }
}

/// An outcome of `Request::parse` with its count as an integer.
pub open spec fn outcome(r: Result<usize, ParseError>) -> Result<int, ParseFailure> {
    match r {
        Ok(n) => Ok(n as int),
        Err(e) => Err(e@),
    }
}

impl Request {
    pub fn new() -> (r: Self)
        ensures
            r.model() == (RequestModel {
                line: (Seq::empty(), Seq::empty(), Seq::empty()),
                headers: Seq::empty(),
                state: ParserState::StateInit,
                body: Seq::empty(),
                content_length: 0,
            }),
    {
        Self {
            request_line: RequestLine::default(),
            headers: Headers::new(),
            state: ParserState::StateInit,
            body: Body::new(),
        }
    }

    /// The request line and the fields as text.
    pub fn describe(&self) -> (r: String)
        ensures
            r@ == "Request line:\n- Method: "@ + self.request_line.method@ + "\n- Target: "@
                + self.request_line.request_target@ + "\n- Version: "@
                + self.request_line.http_version@ + "\n"@ + "Headers:\n"@ + fields_text(self.headers@),
    {
        let mut out = self.request_line.describe();
        out.append("\n");
        let headers = self.headers.describe();
        out.append(headers.as_str());
        out
    }

    /// Whether the request is complete or refused.
    pub fn done(&self) -> (r: bool)
        ensures
            r == is_finished(self.state),
    {
        return self.state == ParserState::StateDone || self.state == ParserState::StateError;
    }

    /// Moves into the state that follows the fields; see `after_headers`.
    fn finish_headers(&mut self) -> (r: Option<ParseError>)
        ensures
            (final(self).model(), (match r {
                Some(e) => Some(e@),
                None => None,
            })) == after_headers(old(self).model()),
    {
        let key = "content-length".to_owned();
        match self.headers.get_lowercase(&key) {
            None => {
                self.state = ParserState::StateDone;
                None
            },
            Some(v) => match parse_usize(v.as_str()) {
                None => {
                    self.state = ParserState::StateError;
                    Some(ParseError::MalformedContentLength)
                },
                Some(n) => {
                    self.body.set_content_length(n);
                    self.state = ParserState::StateBody;
                    None
                },
            },
        }
    }

    /// Parses what `data` holds of the request; see `parse_request`.
    pub fn parse(&mut self, data: &[u8]) -> (r: Result<usize, ParseError>)
        ensures
            (final(self).model(), outcome(r)) == parse_request(old(self).model(), data@),
            r matches Ok(n) ==> n <= data@.len(),
    {
        let mut read: usize = 0;
        let len = data.len();
        assert(data@.skip(0) =~= data@);
        loop
            invariant_except_break
                parse_request(old(self).model(), data@) == ({
                    let (m, r) = parse_request(self.model(), data@.skip(read as int));
                    (m, shift_outcome(r, read as int))
                }),
            invariant
                len == data@.len(),
                read <= len,
            ensures
                read <= len,
                parse_request(old(self).model(), data@) == (self.model(), Ok::<int, ParseFailure>(read as int)),
            decreases len - read,
        {
            let current_data = &data[read..len];
            let ghost m = self.model();
            assert(current_data@ =~= data@.skip(read as int));
            match self.state {
                ParserState::StateInit => {
                    match RequestLine::parse_request_line(current_data) {
                        Ok((line, n)) => {
                            if n == 0 {
                                break;
                            }
                            assert(data@.skip(read as int).skip(n as int) =~= data@.skip(read + n));
                            read += n;
                            self.request_line = line;
                            self.state = ParserState::StateHeaders;
                        },
                        Err(e) => {
                            self.state = ParserState::StateError;
                            return Err(e);
                        },
                    }
                },
                ParserState::StateHeaders => {
                    match self.headers.parse(current_data) {
                        Ok((n, done)) => {
                            if n == 0 {
                                break;
                            }
                            assert(data@.skip(read as int).skip(n as int) =~= data@.skip(read + n));
                            read += n;
                            if done {
                                match self.finish_headers() {
                                    Some(e) => {
                                        return Err(e);
                                    },
                                    None => {},
                                }
                            }
                        },
                        Err(e) => {
                            self.state = ParserState::StateError;
                            return Err(e);
                        },
                    }
                },
                ParserState::StateBody => {
                    match self.body.parse_body(current_data) {
                        Ok((_, done)) => {
                            read += current_data.len();
                            if done {
                                self.state = ParserState::StateDone;
                            }
                            break;
                        },
                        Err(e) => {
                            self.state = ParserState::StateError;
                            return Err(e);
                        },
                    }
                },
                ParserState::StateDone => {
                    break;
                },
                ParserState::StateError => {
                    break;
                },
            }
        }
        Ok(read)
    }
}

/// How many bytes of a request may wait in a reader's buffer.
pub const BUFFER_SIZE: usize = 1024;

/// The request before any byte of it has been read.
pub open spec fn initial_model() -> RequestModel {
    RequestModel {
        line: (Seq::empty(), Seq::empty(), Seq::empty()),
        headers: Seq::empty(),
        state: ParserState::StateInit,
        body: Seq::empty(),
        content_length: 0,
    }
}

/// One round of reading a request from a stream: `chunk` is what the stream gave,
/// added to the bytes still `pending` from earlier rounds. An empty chunk means the
/// stream ended before the request was complete. Otherwise the request parses what it
/// can, the bytes it consumed leave the buffer, and the outcome tells whether the
/// request is complete.
pub open spec fn feed_spec(m: RequestModel, pending: Seq<u8>, chunk: Seq<u8>) -> (
    RequestModel,
    Seq<u8>,
    Result<bool, ParseFailure>,
) {
    if chunk.len() == 0 {
        (m, pending, Err(ParseFailure::MalformedRequest))
    } else {
        let data = pending + chunk;
        let (m2, r) = parse_request(m, data);
        match r {
            Err(e) => (m2, data, Err(e)),
            Ok(n) => (m2, data.skip(n), Ok(is_finished(m2.state))),
        }
    }
}

/// The decisions of reading a request from a stream, one chunk at a time; the caller
/// reads from the stream into at most `space()` bytes and hands over what it got.
pub struct RequestReader {
    request: Request,
    buffer: Vec<u8>,
}

impl RequestReader {
    pub closed spec fn model(&self) -> RequestModel {
        self.request.model()
    }

    /// The bytes read but not yet consumed by the parser.
    pub closed spec fn pending(&self) -> Seq<u8> {
        self.buffer@
    }

    pub fn new() -> (r: Self)
        ensures
            r.model() == initial_model(),
            r.pending() == Seq::<u8>::empty(),
    {
        RequestReader { request: Request::new(), buffer: Vec::new() }
    }

    /// Room left in the buffer for the next read.
    pub fn space(&self) -> (r: usize)
        requires
            self.pending().len() <= BUFFER_SIZE,
        ensures
            r == BUFFER_SIZE - self.pending().len(),
    {
        BUFFER_SIZE - self.buffer.len()
    }

    /// Whether the request is complete (or refused).
    pub fn is_done(&self) -> (r: bool)
        ensures
            r == is_finished(self.model().state),
    {
        self.request.done()
    }

    /// Takes the next chunk of the stream; see `feed_spec`.
    pub fn feed(&mut self, chunk: &[u8]) -> (r: Result<bool, ParseError>)
        requires
            old(self).pending().len() + chunk@.len() <= BUFFER_SIZE,
        ensures
            (final(self).model(), final(self).pending(), failure_of(r)) == feed_spec(
                old(self).model(),
                old(self).pending(),
                chunk@,
            ),
            final(self).pending().len() <= BUFFER_SIZE,
    {
        if chunk.len() == 0 {
            return Err(ParseError::MalformedRequest);
        }
        let mut incoming = vstd::slice::slice_to_vec(chunk);
        self.buffer.append(&mut incoming);
        let len = self.buffer.len();
        match self.request.parse(self.buffer.as_slice()) {
            Err(e) => Err(e),
            Ok(n) => {
                let rest = vstd::slice::slice_to_vec(&self.buffer.as_slice()[n..len]);
                assert(rest@ =~= (old(self).pending() + chunk@).skip(n as int));
                self.buffer = rest;
                Ok(self.request.done())
            },
        }
    }

    pub fn into_request(self) -> (r: Request)
        ensures
            r.model() == self.model(),
    {
        self.request
    }
}

/* Chunking */

proof fn lemma_parse_request_count(m: RequestModel, d: Seq<u8>)
    ensures
        parse_request(m, d).1 matches Ok(n) ==> 0 <= n <= d.len(),
    decreases d.len(),
{
    lemma_find_crlf(d);
    lemma_header_lines_count(m.headers, d);
    match m.state {
        ParserState::StateInit => {
            if let Ok((line, n)) = request_line::parse_request_line_spec(d) {
                if n != 0 {
                    lemma_parse_request_count(
                        RequestModel { line: line, state: ParserState::StateHeaders, ..m },
                        d.skip(n),
                    );
                }
            }
        },
        ParserState::StateHeaders => {
            let (entries, r) = parse_headers(m.headers, d);
            let m1 = RequestModel { headers: entries, ..m };
            if let Ok((n, done)) = r {
                if n != 0 {
                    lemma_parse_request_count(m1, d.skip(n));
                    lemma_parse_request_count(after_headers(m1).0, d.skip(n));
                }
            }
        },
        _ => {},
    }
}

/// What a parse consumes of well-formed UTF-8 is itself well-formed UTF-8.
proof fn lemma_parse_request_cut(m: RequestModel, x: Seq<u8>)
    requires
        valid_utf8(x),
    ensures
        parse_request(m, x).1 matches Ok(n) ==> valid_utf8(x.take(n)),
    decreases x.len(),
{
    lemma_find_crlf(x);
    lemma_parse_request_count(m, x);
    assert(x.take(0) =~= Seq::<u8>::empty());
    assert(x.take(x.len() as int) =~= x);
    match m.state {
        ParserState::StateInit => {
            if let Ok((line, n)) = request_line::parse_request_line_spec(x) {
                if n != 0 {
                    let i = n - 2;
                    lemma_valid_crlf_prefix(x, i);
                    let rest = x.skip(n);
                    assert(x =~= x.take(n) + rest);
                    lemma_valid_suffix(x.take(n), rest);
                    let m1 = RequestModel { line: line, state: ParserState::StateHeaders, ..m };
                    lemma_parse_request_cut(m1, rest);
                    lemma_parse_request_count(m1, rest);
                    if let Ok(k) = parse_request(m1, rest).1 {
                        valid_utf8_concat(x.take(n), rest.take(k));
                        assert(x.take(n + k) =~= x.take(n) + rest.take(k));
                    }
                }
            }
        },
        ParserState::StateHeaders => {
            let (entries, r) = parse_headers(m.headers, x);
            let m1 = RequestModel { headers: entries, ..m };
            lemma_header_lines_cut(m.headers, x);
            lemma_header_lines_count(m.headers, x);
            if let Ok((n, done)) = r {
                if n != 0 {
                    let rest = x.skip(n);
                    assert(x =~= x.take(n) + rest);
                    lemma_valid_suffix(x.take(n), rest);
                    let m2 = if done { after_headers(m1).0 } else { m1 };
                    lemma_parse_request_cut(m2, rest);
                    lemma_parse_request_count(m2, rest);
                    if let Ok(k) = parse_request(m2, rest).1 {
                        valid_utf8_concat(x.take(n), rest.take(k));
                        assert(x.take(n + k) =~= x.take(n) + rest.take(k));
                    }
                }
            }
        },
        _ => {},
    }
}

proof fn lemma_shift_outcome_twice(r: Result<int, ParseFailure>, a: int, b: int)
    ensures
        shift_outcome(shift_outcome(r, a), b) == shift_outcome(r, a + b),
        shift_outcome(r, 0) == r,
{
}

/// Body bytes that leave the body short are simply collected: more bytes later
/// are judged together with them.
proof fn lemma_body_extend(m: RequestModel, x: Seq<u8>, y: Seq<u8>)
    requires
        m.state == ParserState::StateBody,
        parse_request(m, x).1 is Ok,
        !is_finished(parse_request(m, x).0.state),
    ensures
        parse_request(m, x).1 == Ok::<int, ParseFailure>(x.len() as int),
        parse_request(m, x + y) == ({
            let (m2, r2) = parse_request(parse_request(m, x).0, y);
            (m2, shift_outcome(r2, x.len() as int))
        }),
{
    assert(m.body + (x + y) =~= (m.body + x) + y);
}

/// Parsing `x` and then resuming, from where that parse stopped, on what is left of
/// `x` followed by `y`, is parsing `x + y` at once; asked only when the parse of `x`
/// succeeded and left the request unfinished.
pub open spec fn parse_resumes(m: RequestModel, x: Seq<u8>, y: Seq<u8>) -> bool {
    let (m1, r) = parse_request(m, x);
    match r {
        Ok(n) => !is_finished(m1.state) ==> (0 <= n <= x.len() && parse_request(m, x + y) == ({
            let (m2, r2) = parse_request(m1, x.skip(n) + y);
            (m2, shift_outcome(r2, n))
        })),
        Err(_) => true,
    }
}

proof fn lemma_headers_extend(m: RequestModel, x: Seq<u8>, y: Seq<u8>)
    requires
        valid_utf8(x),
        valid_utf8(x + y),
        m.state == ParserState::StateHeaders,
    ensures
        parse_resumes(m, x, y),
{
    let h = m.headers;
    lemma_header_lines_append(h, x, y);
    lemma_header_lines_count(h, x + y);
    lemma_header_lines_zero(h, x);
    let (es, r) = header_lines(h, x);
    let m1 = RequestModel { headers: es, ..m };
    assert(parse_headers(h, x) == (es, r));
    assert(parse_headers(h, x + y) == header_lines(h, x + y));
    if let Ok((k, done)) = r {
        if k == 0 {
            assert(es == h);
            assert(m1 == m);
            assert(parse_request(m, x) == (m, Ok::<int, ParseFailure>(0)));
            assert(x.skip(0) + y =~= x + y);
            let (m2, r2) = parse_request(m, x + y);
            lemma_shift_outcome_twice(r2, 0, 0);
        } else if !done {
            let xs = x.skip(k);
            let z = xs + y;
            assert((x + y).skip(k) =~= z);
            lemma_header_lines_cut(h, x);
            assert(x =~= x.take(k) + xs);
            lemma_valid_suffix(x.take(k), xs);
            lemma_valid_cut(x, k, y);
            assert(header_lines(es, xs) == (es, Ok::<(int, bool), ParseFailure>((0, false))));
            assert(parse_request(m1, xs) == (m1, Ok::<int, ParseFailure>(0)));
            assert(parse_request(m, x) == (m1, Ok::<int, ParseFailure>(k)));
            lemma_header_lines_count(es, z);
            lemma_header_lines_zero(es, z);
            let (e2, r2) = header_lines(es, z);
            assert(parse_headers(es, z) == (e2, r2));
            let m2 = RequestModel { headers: e2, ..m };
            match r2 {
                Err(e) => {
                    let failed = RequestModel { state: ParserState::StateError, ..m2 };
                    assert(parse_request(m1, z) == (failed, Err::<int, ParseFailure>(e)));
                    assert(parse_request(m, x + y) == (failed, Err::<int, ParseFailure>(e)));
                },
                Ok((k2, d2)) => {
                    assert(z.skip(k2) =~= (x + y).skip(k2 + k));
                    if k2 == 0 {
                        assert(e2 == es);
                        assert(parse_request(m1, z) == (m1, Ok::<int, ParseFailure>(0)));
                        assert(parse_request(m, x + y) == (m1, Ok::<int, ParseFailure>(k)));
                    } else if !d2 {
                        let (m3, r3) = parse_request(m2, (x + y).skip(k2 + k));
                        lemma_shift_outcome_twice(r3, k2, k);
                        assert(parse_request(m1, z) == (m3, shift_outcome(r3, k2)));
                        assert(parse_request(m, x + y) == (m3, shift_outcome(r3, k2 + k)));
                    } else {
                        let (m3, err) = after_headers(m2);
                        let (m4, r4) = parse_request(m3, (x + y).skip(k2 + k));
                        lemma_shift_outcome_twice(r4, k2, k);
                    }
                },
            }
        } else {
            let (m2, err) = after_headers(m1);
            if err is None && m2.state == ParserState::StateBody {
                let xs = x.skip(k);
                assert((x + y).skip(k) =~= xs + y);
                let (m3, r3) = parse_request(m2, xs);
                if r3 is Ok && !is_finished(m3.state) {
                    lemma_body_extend(m2, xs, y);
                    assert(x.skip(x.len() as int) + y =~= y);
                    let (m4, r4) = parse_request(m3, y);
                    lemma_shift_outcome_twice(r4, xs.len() as int, k);
                    assert(parse_request(m, x) == (m3, Ok::<int, ParseFailure>(x.len() as int)));
                }
            } else if err is None {
                let xs = x.skip(k);
                assert(parse_request(m2, xs) == (m2, Ok::<int, ParseFailure>(0)));
            }
        }
    }
}

/// Parsing only decides on what is complete: bytes that arrive later continue the
/// parse from where it stopped, as if they had been there from the start.
proof fn lemma_parse_request_extend(m: RequestModel, x: Seq<u8>, y: Seq<u8>)
    requires
        valid_utf8(x),
        valid_utf8(x + y),
    ensures
        parse_resumes(m, x, y),
    decreases x.len(),
{
    assert(x.skip(0) =~= x);
    match m.state {
        ParserState::StateInit => {
            lemma_find_crlf(x);
            lemma_find_crlf_append(x, y);
            match find_crlf(x) {
                None => {
                    assert(x.skip(0) + y =~= x + y);
                    let (m2, r2) = parse_request(m, x + y);
                    lemma_shift_outcome_twice(r2, 0, 0);
                },
                Some(i) => {
                    assert((x + y).take(i) =~= x.take(i));
                    if let Ok((line, n)) = request_line::parse_request_line_spec(x) {
                        let m1 = RequestModel { line: line, state: ParserState::StateHeaders, ..m };
                        let rest = x.skip(n);
                        assert((x + y).skip(n) =~= rest + y);
                        lemma_valid_crlf_prefix(x, i);
                        assert(x =~= x.take(n) + rest);
                        lemma_valid_suffix(x.take(n), rest);
                        lemma_valid_cut(x, n, y);
                        lemma_parse_request_extend(m1, rest, y);
                        let (m2, r2) = parse_request(m1, rest);
                        if let Ok(k) = r2 {
                            if !is_finished(m2.state) {
                                assert(rest.skip(k) =~= x.skip(n + k));
                                let (m3, r3) = parse_request(m2, rest.skip(k) + y);
                                lemma_shift_outcome_twice(r3, k, n);
                            }
                        }
                    }
                },
            }
        },
        ParserState::StateHeaders => {
            lemma_headers_extend(m, x, y);
        },
        ParserState::StateBody => {
            if parse_request(m, x).1 is Ok && !is_finished(parse_request(m, x).0.state) {
                lemma_body_extend(m, x, y);
                assert(x.skip(x.len() as int) + y =~= y);
            }
        },
        _ => {},
    }
}

/// A parse that finished the request on `x` gives the same request when more bytes
/// follow, unless those bytes go beyond a body that `x` completed.
proof fn lemma_parse_request_finish(m: RequestModel, x: Seq<u8>, y: Seq<u8>)
    requires
        valid_utf8(x),
        valid_utf8(x + y),
        parse_request(m, x).1 is Ok,
        is_finished(parse_request(m, x).0.state),
    ensures
        ({
            let (m1, r1) = parse_request(m, x);
            let (m3, r3) = parse_request(m, x + y);
            ||| (m3, r3) == (m1, r1)
            ||| (r3 == Err::<int, ParseFailure>(ParseFailure::BodyTooLong) && y.len() > 0)
        }),
    decreases x.len(),
{
    assert(x.skip(0) =~= x);
    match m.state {
        ParserState::StateInit => {
            lemma_find_crlf(x);
            lemma_find_crlf_append(x, y);
            if let Some(i) = find_crlf(x) {
                assert((x + y).take(i) =~= x.take(i));
                assert(request_line::parse_request_line_spec(x + y)
                    == request_line::parse_request_line_spec(x));
                if let Ok((line, n)) = request_line::parse_request_line_spec(x) {
                    let m1 = RequestModel { line: line, state: ParserState::StateHeaders, ..m };
                    let rest = x.skip(n);
                    assert((x + y).skip(n) =~= rest + y);
                    lemma_valid_crlf_prefix(x, i);
                    assert(x =~= x.take(n) + rest);
                    lemma_valid_suffix(x.take(n), rest);
                    lemma_valid_cut(x, n, y);
                    lemma_parse_request_finish(m1, rest, y);
                    let (ma, ra) = parse_request(m1, rest);
                    let (mb, rb) = parse_request(m1, rest + y);
                    assert(parse_request(m, x) == (ma, shift_outcome(ra, n)));
                    assert(parse_request(m, x + y) == (mb, shift_outcome(rb, n)));
                }
            }
        },
        ParserState::StateHeaders => {
            let h = m.headers;
            lemma_header_lines_append(h, x, y);
            lemma_header_lines_zero(h, x);
            lemma_header_lines_count(h, x);
            let (es, r) = header_lines(h, x);
            assert(parse_headers(h, x) == header_lines(h, x));
            let m1 = RequestModel { headers: es, ..m };
            if let Ok((k, done)) = r {
                if k != 0 {
                    let xs = x.skip(k);
                    assert((x + y).skip(k) =~= xs + y);
                    lemma_header_lines_cut(h, x);
                    assert(x =~= x.take(k) + xs);
                    lemma_valid_suffix(x.take(k), xs);
                    lemma_valid_cut(x, k, y);
                    assert(parse_headers(h, x + y) == header_lines(h, x + y));
                    if !done {
                        assert(header_lines(es, xs) == (es, Ok::<(int, bool), ParseFailure>((0, false))));
                        assert(parse_request(m1, xs) == (m1, Ok::<int, ParseFailure>(0)));
                        assert(!is_finished(parse_request(m, x).0.state));
                    } else {
                        let (m2, err) = after_headers(m1);
                        if err is None {
                            lemma_parse_request_finish(m2, xs, y);
                            let (ma, ra) = parse_request(m2, xs);
                            let (mb, rb) = parse_request(m2, xs + y);
                            assert(parse_request(m, x) == (ma, shift_outcome(ra, k)));
                            assert(parse_request(m, x + y) == (mb, shift_outcome(rb, k)));
                        }
                    }
                }
            }
        },
        ParserState::StateBody => {
            if y.len() == 0 {
                assert(x + y =~= x);
            }
        },
        _ => {},
    }
}

/// A refusal stays a refusal, the same one, when more bytes follow.
proof fn lemma_parse_request_error(m: RequestModel, x: Seq<u8>, y: Seq<u8>)
    requires
        valid_utf8(x),
        valid_utf8(x + y),
        parse_request(m, x).1 is Err,
    ensures
        parse_request(m, x + y).1 == parse_request(m, x).1,
    decreases x.len(),
{
    assert(x.skip(0) =~= x);
    match m.state {
        ParserState::StateInit => {
            lemma_find_crlf(x);
            lemma_find_crlf_append(x, y);
            if let Some(i) = find_crlf(x) {
                assert((x + y).take(i) =~= x.take(i));
                assert(request_line::parse_request_line_spec(x + y)
                    == request_line::parse_request_line_spec(x));
                if let Ok((line, n)) = request_line::parse_request_line_spec(x) {
                    let m1 = RequestModel { line: line, state: ParserState::StateHeaders, ..m };
                    let rest = x.skip(n);
                    assert((x + y).skip(n) =~= rest + y);
                    lemma_valid_crlf_prefix(x, i);
                    assert(x =~= x.take(n) + rest);
                    lemma_valid_suffix(x.take(n), rest);
                    lemma_valid_cut(x, n, y);
                    lemma_parse_request_error(m1, rest, y);
                    let (ma, ra) = parse_request(m1, rest);
                    let (mb, rb) = parse_request(m1, rest + y);
                    assert(parse_request(m, x) == (ma, shift_outcome(ra, n)));
                    assert(parse_request(m, x + y) == (mb, shift_outcome(rb, n)));
                    assert(parse_request(m, x + y).1 == parse_request(m, x).1);
                } else {
                    assert(parse_request(m, x + y).1 == parse_request(m, x).1);
                }
            } else {
                assert(parse_request(m, x).1 is Ok);
            }
        },
        ParserState::StateHeaders => {
            let h = m.headers;
            lemma_header_lines_append(h, x, y);
            lemma_header_lines_zero(h, x);
            lemma_header_lines_count(h, x);
            let (es, r) = header_lines(h, x);
            assert(parse_headers(h, x) == header_lines(h, x));
            let m1 = RequestModel { headers: es, ..m };
            if let Ok((k, done)) = r {
                if k != 0 {
                    let xs = x.skip(k);
                    assert((x + y).skip(k) =~= xs + y);
                    lemma_header_lines_cut(h, x);
                    assert(x =~= x.take(k) + xs);
                    lemma_valid_suffix(x.take(k), xs);
                    lemma_valid_cut(x, k, y);
                    assert(parse_headers(h, x + y) == header_lines(h, x + y));
                    if !done {
                        assert(header_lines(es, xs) == (es, Ok::<(int, bool), ParseFailure>((0, false))));
                        assert(parse_request(m1, xs) == (m1, Ok::<int, ParseFailure>(0)));
                        assert(parse_request(m, x).1 is Ok);
                    } else {
                        let (m2, err) = after_headers(m1);
                        if err is None {
                            lemma_parse_request_error(m2, xs, y);
                            let (ma, ra) = parse_request(m2, xs);
                            let (mb, rb) = parse_request(m2, xs + y);
                            assert(parse_request(m, x) == (ma, shift_outcome(ra, k)));
                            assert(parse_request(m, x + y) == (mb, shift_outcome(rb, k)));
                        }
                    }
                }
            } else {
                assert(header_lines(h, x + y) == (es, r));
            }
            assert(parse_request(m, x + y).1 == parse_request(m, x).1);
        },
        ParserState::StateBody => {
            assert(parse_request(m, x + y).1 == parse_request(m, x).1);
        },
        _ => {
            assert(parse_request(m, x + y).1 == parse_request(m, x).1);
        },
    }
}

/// Parsing `x`, then parsing what it left of `x` followed by `y` from where it stopped,
/// is parsing `x + y` at once. This holds whenever the request is still unfinished
/// after `x`, and whenever both ways succeed. The one way in which they can differ
/// is the request being complete on `x` with a body whose announced length `y`
/// then overruns. A refusal on `x` is the refusal on `x + y`. (The whole buffer is
/// checked as UTF-8, so the cut must not split a character.)
pub proof fn lemma_parse_resumes(m: RequestModel, x: Seq<u8>, y: Seq<u8>)
    requires
        valid_utf8(x),
        valid_utf8(x + y),
    ensures
        ({
            let (m1, r1) = parse_request(m, x);
            let (m3, r3) = parse_request(m, x + y);
            match r1 {
                Ok(n) => {
                    let (m2, r2) = parse_request(m1, x.skip(n) + y);
                    &&& 0 <= n <= x.len()
                    &&& (!is_finished(m1.state) || r3 is Ok) ==> (m3, r3) == (m2, shift_outcome(r2, n))
                    &&& (is_finished(m1.state) && r3 is Err) ==> (r3 == Err::<int, ParseFailure>(
                        ParseFailure::BodyTooLong,
                    ) && y.len() > 0)
                },
                Err(_) => r3 == r1,
            }
        }),
{
    lemma_parse_request_count(m, x);
    lemma_parse_request_extend(m, x, y);
    let (m1, r1) = parse_request(m, x);
    match r1 {
        Ok(n) => {
            if is_finished(m1.state) {
                lemma_parse_request_finish(m, x, y);
            }
        },
        Err(_) => {
            lemma_parse_request_error(m, x, y);
        },
    }
}

/// However a stream is cut into non-empty chunks (no cut splitting a UTF-8
/// character), reading it chunk by chunk and reading it in one piece agree: a
/// refusal is the same refusal, and when both succeed they give the same request
/// and the same outcome. They differ only where the chunks complete a request whose
/// body the remaining bytes would overrun: read in one piece, those bytes are refused.
pub proof fn lemma_chunking_agrees(m: RequestModel, pending: Seq<u8>, chunks: Seq<Seq<u8>>)
    requires
        chunks.len() > 0,
        forall|k: int| 0 <= k < chunks.len() ==> #[trigger] chunks[k].len() > 0,
        forall|k: int|
            1 <= k <= chunks.len() ==> valid_utf8(pending + #[trigger] chunks.take(k).flatten()),
    ensures
        ({
            let (ma, pa, ra) = feed_all(m, pending, chunks);
            let (mb, pb, rb) = feed_spec(m, pending, chunks.flatten());
            &&& ra is Err ==> rb == ra
            &&& (ra is Ok && rb is Ok) ==> (ma == mb && ra == rb)
            &&& (ra is Ok && rb is Err) ==> rb == Err::<bool, ParseFailure>(ParseFailure::BodyTooLong)
        }),
    decreases chunks.len(),
{
    let c0 = chunks[0];
    assert(chunks.take(chunks.len() as int) =~= chunks);
    assert(chunks.take(1).drop_first() =~= Seq::<Seq<u8>>::empty());
    assert(chunks.take(1).drop_first().flatten() =~= Seq::<u8>::empty());
    assert(chunks.take(1).first() == c0);
    assert(chunks.take(1).flatten() =~= c0);
    if chunks.len() == 1 {
        assert(chunks.drop_first() =~= Seq::<Seq<u8>>::empty());
        assert(chunks.flatten() =~= c0);
    } else {
        let rest = chunks.drop_first();
        assert(chunks.flatten() == c0 + rest.flatten());
        let x = pending + c0;
        let y = rest.flatten();
        assert(pending + chunks.flatten() =~= x + y);
        assert(valid_utf8(x));
        assert(valid_utf8(x + y));
        let (m1, p1, r1) = feed_spec(m, pending, c0);
        lemma_parse_request_count(m, x);
        lemma_parse_request_cut(m, x);
        if r1 == Ok::<bool, ParseFailure>(false) {
            lemma_feed_chunking(m, pending, c0, y);
            let n = parse_request(m, x).1->Ok_0;
            assert(p1 == x.skip(n));
            assert forall|k: int| 0 <= k < rest.len() implies #[trigger] rest[k].len() > 0 by {
                assert(rest[k] == chunks[k + 1]);
            }
            assert forall|k: int| 1 <= k <= rest.len() implies valid_utf8(
                p1 + #[trigger] rest.take(k).flatten(),
            ) by {
                let t = chunks.take(k + 1);
                assert(t.drop_first() =~= rest.take(k));
                assert(t.flatten() == c0 + rest.take(k).flatten());
                assert(valid_utf8(pending + t.flatten()));
                assert(pending + t.flatten() =~= x + rest.take(k).flatten());
                lemma_valid_cut(x, n, rest.take(k).flatten());
            }
            lemma_chunking_agrees(m1, p1, rest);
        } else {
            assert(feed_all(m, pending, chunks) == (m1, p1, r1));
            let (m0, r0) = parse_request(m, x);
            match r0 {
                Ok(n) => {
                    lemma_parse_request_finish(m, x, y);
                },
                Err(_) => {
                    lemma_parse_request_error(m, x, y);
                },
            }
        }
    }
}

/// A read chunk by chunk stops after the `k`-th chunk, and, when it succeeded, ends as
/// the first `k` chunks read in one piece end; it reads all chunks unless it finished.
proof fn lemma_feed_all_stop(m: RequestModel, pending: Seq<u8>, chunks: Seq<Seq<u8>>) -> (k: int)
    requires
        chunks.len() > 0,
        forall|i: int| 0 <= i < chunks.len() ==> #[trigger] chunks[i].len() > 0,
        forall|i: int|
            1 <= i <= chunks.len() ==> valid_utf8(pending + #[trigger] chunks.take(i).flatten()),
    ensures
        1 <= k <= chunks.len(),
        ({
            let (ma, pa, ra) = feed_all(m, pending, chunks);
            let (mb, pb, rb) = feed_spec(m, pending, chunks.take(k).flatten());
            ra is Ok ==> {
                &&& ma == mb
                &&& ra == rb
                &&& ra == Ok::<bool, ParseFailure>(false) ==> k == chunks.len()
            }
        }),
    decreases chunks.len(),
{
    let c0 = chunks[0];
    assert(chunks.take(1).drop_first() =~= Seq::<Seq<u8>>::empty());
    assert(chunks.take(1).drop_first().flatten() =~= Seq::<u8>::empty());
    assert(chunks.take(1).first() == c0);
    assert(chunks.take(1).flatten() =~= c0);
    if chunks.len() == 1 {
        assert(chunks.drop_first() =~= Seq::<Seq<u8>>::empty());
        1
    } else {
        let (m1, p1, r1) = feed_spec(m, pending, c0);
        if r1 == Ok::<bool, ParseFailure>(false) {
            let rest = chunks.drop_first();
            let x = pending + c0;
            lemma_parse_request_count(m, x);
            lemma_parse_request_cut(m, x);
            let n = parse_request(m, x).1->Ok_0;
            assert(p1 == x.skip(n));
            assert forall|i: int| 0 <= i < rest.len() implies #[trigger] rest[i].len() > 0 by {
                assert(rest[i] == chunks[i + 1]);
            }
            assert forall|i: int| 1 <= i <= rest.len() implies valid_utf8(
                p1 + #[trigger] rest.take(i).flatten(),
            ) by {
                let t = chunks.take(i + 1);
                assert(t.drop_first() =~= rest.take(i));
                assert(t.flatten() == c0 + rest.take(i).flatten());
                assert(valid_utf8(pending + t.flatten()));
                assert(pending + t.flatten() =~= x + rest.take(i).flatten());
                lemma_valid_cut(x, n, rest.take(i).flatten());
            }
            let k1 = lemma_feed_all_stop(m1, p1, rest);
            let tail = rest.take(k1).flatten();
            let t = chunks.take(k1 + 1);
            assert(t.drop_first() =~= rest.take(k1));
            assert(t.flatten() == c0 + tail);
            assert(valid_utf8(pending + t.flatten()));
            assert(pending + c0 + tail =~= pending + t.flatten());
            assert(rest.take(k1).drop_first().flatten().len() >= 0);
            assert(rest.take(k1)[0] == rest[0]);
            assert(tail == rest[0] + rest.take(k1).drop_first().flatten());
            lemma_feed_chunking(m, pending, c0, tail);
            k1 + 1
        } else {
            1
        }
    }
}

/// Two cuttings of one stream into non-empty chunks (no cut splitting a UTF-8
/// character) read the same request: when both succeed they end with the same
/// request and outcome, and when both are refused it is for the same reason. One
/// can only be refused where the other succeeds because bytes past a body that
/// the other completed arrived together with that body.
pub proof fn lemma_two_chunkings_agree(
    m: RequestModel,
    pending: Seq<u8>,
    chunks1: Seq<Seq<u8>>,
    chunks2: Seq<Seq<u8>>,
)
    requires
        chunks1.len() > 0,
        chunks2.len() > 0,
        chunks1.flatten() == chunks2.flatten(),
        forall|i: int| 0 <= i < chunks1.len() ==> #[trigger] chunks1[i].len() > 0,
        forall|i: int| 0 <= i < chunks2.len() ==> #[trigger] chunks2[i].len() > 0,
        forall|i: int|
            1 <= i <= chunks1.len() ==> valid_utf8(pending + #[trigger] chunks1.take(i).flatten()),
        forall|i: int|
            1 <= i <= chunks2.len() ==> valid_utf8(pending + #[trigger] chunks2.take(i).flatten()),
    ensures
        ({
            let (m1, p1, r1) = feed_all(m, pending, chunks1);
            let (m2, p2, r2) = feed_all(m, pending, chunks2);
            &&& (r1 is Ok && r2 is Ok) ==> (m1 == m2 && r1 == r2)
            &&& (r1 is Err && r2 is Err) ==> r1 == r2
            &&& (r1 is Ok && r2 is Err) ==> r2 == Err::<bool, ParseFailure>(ParseFailure::BodyTooLong)
            &&& (r1 is Err && r2 is Ok) ==> r1 == Err::<bool, ParseFailure>(ParseFailure::BodyTooLong)
        }),
{
    lemma_chunking_agrees(m, pending, chunks1);
    lemma_chunking_agrees(m, pending, chunks2);
    let (ma1, pa1, ra1) = feed_all(m, pending, chunks1);
    let (ma2, pa2, ra2) = feed_all(m, pending, chunks2);
    if ra1 is Ok && ra2 is Ok {
        let k1 = lemma_feed_all_stop(m, pending, chunks1);
        let k2 = lemma_feed_all_stop(m, pending, chunks2);
        let whole = pending + chunks1.flatten();
        let x1 = pending + chunks1.take(k1).flatten();
        let x2 = pending + chunks2.take(k2).flatten();
        lemma_prefix_of_chunks(pending, chunks1, k1);
        lemma_prefix_of_chunks(pending, chunks2, k2);
        assert(chunks1.take(k1).flatten().len() > 0) by {
            assert(chunks1.take(k1)[0] == chunks1[0]);
            assert(chunks1.take(k1).flatten() == chunks1.take(k1)[0] + chunks1.take(k1).drop_first().flatten());
        }
        assert(chunks2.take(k2).flatten().len() > 0) by {
            assert(chunks2.take(k2)[0] == chunks2[0]);
            assert(chunks2.take(k2).flatten() == chunks2.take(k2)[0] + chunks2.take(k2).drop_first().flatten());
        }
        assert(chunks1.take(chunks1.len() as int) =~= chunks1);
        assert(chunks2.take(chunks2.len() as int) =~= chunks2);
        assert(pending + chunks2.flatten() == whole);
        assert(x1 == whole.take(x1.len() as int));
        assert(x2 == whole.take(x2.len() as int));
        if x1.len() <= x2.len() {
            assert forall|i: int| 0 <= i < x1.len() implies #[trigger] x2.take(x1.len() as int)[i] == x1[i] by {
                assert(x2[i] == whole[i]);
                assert(x1[i] == whole[i]);
            }
            assert(x2.take(x1.len() as int) =~= x1);
            lemma_prefix_parses_agree(m, x1, x2);
        } else {
            assert forall|i: int| 0 <= i < x2.len() implies #[trigger] x1.take(x2.len() as int)[i] == x2[i] by {
                assert(x2[i] == whole[i]);
                assert(x1[i] == whole[i]);
            }
            assert(x1.take(x2.len() as int) =~= x2);
            lemma_prefix_parses_agree(m, x2, x1);
        }
    }
}

/// The first `k` chunks, after `pending`, are the start of the whole stream.
proof fn lemma_prefix_of_chunks(pending: Seq<u8>, chunks: Seq<Seq<u8>>, k: int)
    requires
        0 <= k <= chunks.len(),
    ensures
        (pending + chunks.take(k).flatten()).len() <= (pending + chunks.flatten()).len(),
        (pending + chunks.flatten()).take((pending + chunks.take(k).flatten()).len() as int)
            == pending + chunks.take(k).flatten(),
{
    lemma_flatten_concat(chunks.take(k), chunks.skip(k));
    assert(chunks.take(k) + chunks.skip(k) =~= chunks);
    let a = pending + chunks.take(k).flatten();
    assert(pending + chunks.flatten() =~= a + chunks.skip(k).flatten());
    assert((a + chunks.skip(k).flatten()).take(a.len() as int) =~= a);
}

/// Two successful parses of a stream cut at two places end alike, when the parse of
/// the shorter one already finished the request (or the cuts are the same).
proof fn lemma_prefix_parses_agree(m: RequestModel, x1: Seq<u8>, x2: Seq<u8>)
    requires
        valid_utf8(x1),
        valid_utf8(x2),
        x1.len() <= x2.len(),
        x2.take(x1.len() as int) == x1,
        parse_request(m, x1).1 is Ok,
        parse_request(m, x2).1 is Ok,
        x1.len() < x2.len() ==> is_finished(parse_request(m, x1).0.state),
    ensures
        parse_request(m, x1).0 == parse_request(m, x2).0,
{
    if x1.len() == x2.len() {
        assert(x1 =~= x2);
    } else {
        let y = x2.skip(x1.len() as int);
        assert(x1 + y =~= x2);
        lemma_parse_request_finish(m, x1, y);
    }
}

/// Reading a request does not depend on how the stream cuts it into chunks:
/// taking `c1` and then `c2` ends exactly where taking `c1` followed by `c2` in one
/// chunk ends, when the request was not yet complete after `c1` (once it is
/// complete, nothing more is read) and the cut does not split a UTF-8 character
/// (the buffer is checked as UTF-8 each time it is parsed).
pub proof fn lemma_feed_chunking(m: RequestModel, pending: Seq<u8>, c1: Seq<u8>, c2: Seq<u8>)
    requires
        valid_utf8(pending + c1),
        valid_utf8(pending + c1 + c2),
        c1.len() > 0,
        c2.len() > 0,
        feed_spec(m, pending, c1).2 == Ok::<bool, ParseFailure>(false),
    ensures
        ({
            let (m1, p1, _) = feed_spec(m, pending, c1);
            let (ma, pa, ra) = feed_spec(m1, p1, c2);
            let (mb, pb, rb) = feed_spec(m, pending, c1 + c2);
            &&& ma == mb
            &&& ra == rb
            &&& ra is Ok ==> pa == pb
        }),
{
    let x = pending + c1;
    assert(pending + (c1 + c2) =~= x + c2);
    lemma_parse_request_extend(m, x, c2);
    let (m1, r) = parse_request(m, x);
    if let Ok(n) = r {
        let (m2, r2) = parse_request(m1, x.skip(n) + c2);
        lemma_parse_request_count(m1, x.skip(n) + c2);
        if let Ok(k) = r2 {
            assert((x.skip(n) + c2).skip(k) =~= (x + c2).skip(n + k));
        }
    }
}

/// Feeding `chunks` one after the other, as long as the request stays unfinished.
pub open spec fn feed_all(m: RequestModel, pending: Seq<u8>, chunks: Seq<Seq<u8>>) -> (
    RequestModel,
    Seq<u8>,
    Result<bool, ParseFailure>,
)
    decreases chunks.len(),
{
    if chunks.len() == 0 {
        (m, pending, Ok(is_finished(m.state)))
    } else {
        let (m1, p1, r1) = feed_spec(m, pending, chunks[0]);
        if r1 == Ok::<bool, ParseFailure>(false) && chunks.len() > 1 {
            feed_all(m1, p1, chunks.drop_first())
        } else {
            (m1, p1, r1)
        }
    }
}

/// However a stream is cut into non-empty chunks, reading it chunk by chunk gives
/// the request (or the refusal) that reading it in one piece gives, when the request
/// is not finished before its last chunk and no cut splits a UTF-8 character.
pub proof fn lemma_any_chunking(m: RequestModel, pending: Seq<u8>, chunks: Seq<Seq<u8>>)
    requires
        chunks.len() > 0,
        forall|k: int| 0 <= k < chunks.len() ==> #[trigger] chunks[k].len() > 0,
        forall|k: int|
            1 <= k <= chunks.len() ==> valid_utf8(pending + #[trigger] chunks.take(k).flatten()),
        forall|k: int|
            1 <= k < chunks.len() ==> #[trigger] feed_all(m, pending, chunks.take(k)).2
                == Ok::<bool, ParseFailure>(false),
    ensures
        ({
            let (ma, pa, ra) = feed_all(m, pending, chunks);
            let (mb, pb, rb) = feed_spec(m, pending, chunks.flatten());
            &&& ma == mb
            &&& ra == rb
            &&& ra is Ok ==> pa == pb
        }),
    decreases chunks.len(),
{
    let c0 = chunks[0];
    assert(chunks.take(chunks.len() as int) =~= chunks);
    assert(chunks.take(1).drop_first() =~= Seq::<Seq<u8>>::empty());
    assert(chunks.take(1).drop_first().flatten() =~= Seq::<u8>::empty());
    assert(chunks.take(1).first() == c0);
    assert(chunks.take(1).flatten() =~= c0);
    if chunks.len() == 1 {
        assert(chunks.drop_first() =~= Seq::<Seq<u8>>::empty());
        assert(chunks.flatten() =~= c0);
    } else {
        let rest = chunks.drop_first();
        assert(chunks.take(1).drop_first() =~= Seq::<Seq<u8>>::empty());
        assert(feed_all(m, pending, chunks.take(1)).2 == Ok::<bool, ParseFailure>(false));
        assert(chunks.take(1)[0] == c0);
        let (m1, p1, r1) = feed_spec(m, pending, c0);
        assert(r1 == Ok::<bool, ParseFailure>(false));
        assert(chunks.flatten() == c0 + rest.flatten());
        assert(pending + chunks.flatten() =~= pending + c0 + rest.flatten());
        lemma_feed_chunking(m, pending, c0, rest.flatten());
        let x = pending + c0;
        let (m0, r0) = parse_request(m, x);
        let n = r0->Ok_0;
        lemma_parse_request_extend(m, x, rest.flatten());
        assert(p1 == x.skip(n));
        lemma_parse_request_count(m, x);
        lemma_parse_request_cut(m, x);
        assert forall|k: int| 1 <= k <= rest.len() implies valid_utf8(
            p1 + #[trigger] rest.take(k).flatten(),
        ) by {
            let t = chunks.take(k + 1);
            assert(t.drop_first() =~= rest.take(k));
            assert(t.flatten() == c0 + rest.take(k).flatten());
            assert(valid_utf8(pending + t.flatten()));
            assert(pending + t.flatten() =~= x + rest.take(k).flatten());
            lemma_valid_cut(x, n, rest.take(k).flatten());
        }
        assert forall|k: int| 0 <= k < rest.len() implies #[trigger] rest[k].len() > 0 by {
            assert(rest[k] == chunks[k + 1]);
        }
        assert forall|k: int| 1 <= k < rest.len() implies #[trigger] feed_all(m1, p1, rest.take(k)).2
            == Ok::<bool, ParseFailure>(false) by {
            assert(chunks.take(k + 1).drop_first() =~= rest.take(k));
            assert(chunks.take(k + 1)[0] == c0);
            assert(feed_all(m, pending, chunks.take(k + 1)).2 == Ok::<bool, ParseFailure>(false));
        }
        lemma_any_chunking(m1, p1, rest);
    }
}

} // verus!
