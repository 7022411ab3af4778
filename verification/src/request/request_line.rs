//! The request line: method, request target and HTTP version.

use crate::error::{ParseError, ParseFailure};
use crate::text::{
    char_is_uppercase, find_crlf, find_crlf_from, is_crlf_at, join_on, lacks_byte, lemma_crlf_after,
    lemma_split_on_join,
    lemma_find_crlf, lemma_find_crlf_append, lemma_split_join, lemma_split_valid,
    lemma_valid_split_at_ascii, spec_is_uppercase, split_on, split_ranges, spec_utf8_error_text, str_from_utf8,
};
use vstd::prelude::*;
use vstd::string::StringExecFns;
use vstd::utf8::*;

verus! {

/// Every character of `s` is uppercase.
pub open spec fn all_uppercase(s: Seq<char>) -> bool {
    forall|i: int| 0 <= i < s.len() ==> spec_is_uppercase(#[trigger] s[i])
}

/// The request line at the start of `data` (RFC 9112:
/// request-line = method SP request-target SP HTTP-version, and
/// HTTP-version = HTTP-name "/" version): its method, target and version,
/// and the number of bytes it takes with its "\r\n". Without a "\r\n" in `data`
/// the line is not complete: the result is then an empty line and 0.
pub open spec fn parse_request_line_spec(data: Seq<u8>) -> Result<
    ((Seq<char>, Seq<char>, Seq<char>), int),
    ParseFailure,
> {
    if !valid_utf8(data) {
        Err(ParseFailure::InvalidUtf8(spec_utf8_error_text(data)))
    } else {
        match find_crlf(data) {
            None => Ok(((Seq::empty(), Seq::empty(), Seq::empty()), 0)),
            Some(i) => {
                let parts = split_on(data.take(i), 32u8);
                if parts.len() != 3 {
                    Err(ParseFailure::MalformedRequestLine)
                } else {
                    let version_parts = split_on(parts[2], 47u8);
                    if version_parts.len() != 2 {
                        Err(ParseFailure::MalformedHttpVersion)
                    } else if !all_uppercase(decode_utf8(parts[0])) {
                        Err(ParseFailure::MalformedMethod)
                    } else {
                        Ok(
                            (
                                (
                                    decode_utf8(parts[0]),
                                    decode_utf8(parts[1]),
                                    decode_utf8(version_parts[1]),
                                ),
                                i + 2,
                            ),
                        )
                    }
                }
            },
        }
    }
}

/// How an accepted request line is made: the bytes before the first "\r\n" are the
/// method, a space, the target, a space, a name, a '/' and the version, where no
/// part holds a space and neither the name nor the version holds a '/'. What
/// follows the first "\r\n" (`z` in place of the rest) makes no difference.
pub proof fn lemma_request_line_structure(data: Seq<u8>, z: Seq<u8>)
    ensures
        match parse_request_line_spec(data) {
            Ok(((method, target, version), n)) => n > 0 ==> {
            &&& find_crlf(data) == Some(n - 2)
            &&& exists|name: Seq<u8>|
                #![trigger lacks_byte(name, 47u8)]
                {
                    &&& data.take(n - 2) == encode_utf8(method) + seq![32u8] + encode_utf8(target)
                        + seq![32u8] + name + seq![47u8] + encode_utf8(version)
                    &&& lacks_byte(encode_utf8(method), 32u8)
                    &&& lacks_byte(encode_utf8(target), 32u8)
                    &&& lacks_byte(name, 32u8)
                    &&& lacks_byte(encode_utf8(version), 32u8)
                    &&& lacks_byte(name, 47u8)
                    &&& lacks_byte(encode_utf8(version), 47u8)
                }
            &&& valid_utf8(data.take(n) + z) ==> parse_request_line_spec(data.take(n) + z)
                == parse_request_line_spec(data)
            },
            Err(_) => true,
        },
{
    if let Ok(((method, target, version), n)) = parse_request_line_spec(data) {
        if n > 0 {
            lemma_find_crlf(data);
            let i = n - 2;
            let line = data.take(i);
            let parts = split_on(line, 32u8);
            let vparts = split_on(parts[2], 47u8);
            lemma_valid_split_at_ascii(data, i);
            lemma_split_valid(line, 32u8);
            lemma_split_valid(parts[2], 47u8);
            lemma_split_join(line, 32u8);
            lemma_split_join(parts[2], 47u8);
            decode_utf8_encode_utf8(parts[0]);
            decode_utf8_encode_utf8(parts[1]);
            decode_utf8_encode_utf8(vparts[1]);
            let p1 = parts.drop_first();
            assert(p1[0] == parts[1]);
            assert(p1.drop_first()[0] == parts[2]);
            assert(join_on(p1.drop_first(), 32u8) == parts[2]);
            assert(join_on(p1, 32u8) == parts[1] + seq![32u8] + parts[2]);
            assert(vparts.drop_first()[0] == vparts[1]);
            assert(join_on(vparts.drop_first(), 47u8) == vparts[1]);
            assert(join_on(vparts, 47u8) == vparts[0] + seq![47u8] + vparts[1]);
            assert(lacks_byte(parts[2], 32u8));
            assert(lacks_byte(vparts[0], 32u8)) by {
                assert forall|j: int| 0 <= j < vparts[0].len() implies #[trigger] vparts[0][j] != 32u8 by {
                    assert(vparts[0][j] == parts[2][j]);
                }
            }
            assert(lacks_byte(vparts[1], 32u8)) by {
                assert forall|j: int| 0 <= j < vparts[1].len() implies #[trigger] vparts[1][j] != 32u8 by {
                    assert(vparts[1][j] == parts[2][vparts[0].len() + 1 + j]);
                }
            }
            let name = vparts[0];
            assert(lacks_byte(name, 47u8));
            assert(data.take(n - 2) =~= encode_utf8(method) + seq![32u8] + encode_utf8(target)
                + seq![32u8] + name + seq![47u8] + encode_utf8(version));
            let head = data.take(n);
            assert(is_crlf_at(head, i));
            lemma_find_crlf(head);
            assert forall|j: int| j < i implies !#[trigger] is_crlf_at(head, j) by {
                if 0 <= j && is_crlf_at(head, j) {
                    assert(head[j] == data[j] && head[j + 1] == data[j + 1]);
                    assert(is_crlf_at(data, j));
                }
            }
            match find_crlf(head) {
                Some(k) => {
                    if k > i {
                        assert(!is_crlf_at(head, i));
                    }
                },
                None => {},
            }
            lemma_find_crlf_append(head, z);
            assert((head + z).take(i) =~= line);
        }
    }
}

/// The bytes of a request line before its "\r\n": method, space, target, space,
/// HTTP name, '/' and version.
pub open spec fn request_line_text(
    method: Seq<char>,
    target: Seq<char>,
    name: Seq<u8>,
    version: Seq<char>,
) -> Seq<u8> {
    encode_utf8(method) + seq![32u8] + encode_utf8(target) + seq![32u8] + name + seq![47u8]
        + encode_utf8(version)
}

/// Every well-formed request line is accepted, with its parts: a method of uppercase
/// characters, a target and a version without spaces, and a name and version without
/// '/', none holding a line break, followed by "\r\n" and anything (the whole being
/// UTF-8), read as that method, target and version, taking the line and its "\r\n".
pub proof fn lemma_request_line_accepted(
    method: Seq<char>,
    target: Seq<char>,
    name: Seq<u8>,
    version: Seq<char>,
    rest: Seq<u8>,
)
    requires
        all_uppercase(method),
        lacks_byte(encode_utf8(method), 32u8),
        lacks_byte(encode_utf8(method), 10u8),
        lacks_byte(encode_utf8(target), 32u8),
        lacks_byte(encode_utf8(target), 10u8),
        lacks_byte(name, 32u8),
        lacks_byte(name, 47u8),
        lacks_byte(name, 10u8),
        lacks_byte(encode_utf8(version), 32u8),
        lacks_byte(encode_utf8(version), 47u8),
        lacks_byte(encode_utf8(version), 10u8),
        valid_utf8(request_line_text(method, target, name, version) + seq![13u8, 10u8] + rest),
    ensures
        parse_request_line_spec(request_line_text(method, target, name, version) + seq![13u8, 10u8] + rest)
            == Ok::<_, ParseFailure>(
            (
                (method, target, version),
                request_line_text(method, target, name, version).len() as int + 2,
            ),
        ),
{
    let m = encode_utf8(method);
    let t = encode_utf8(target);
    let v = encode_utf8(version);
    let line = request_line_text(method, target, name, version);
    let data = line + seq![13u8, 10u8] + rest;
    let third = name + seq![47u8] + v;
    assert(lacks_byte(third, 32u8)) by {
        assert forall|j: int| 0 <= j < third.len() implies #[trigger] third[j] != 32u8 by {
            if j < name.len() {
                assert(third[j] == name[j]);
            } else if j > name.len() {
                assert(third[j] == v[j - name.len() - 1]);
            }
        }
    }
    assert(lacks_byte(line, 10u8)) by {
        assert forall|j: int| 0 <= j < line.len() implies #[trigger] line[j] != 10u8 by {
            let a = m.len() as int;
            let b = a + 1 + t.len();
            let c = b + 1 + name.len();
            if j < a {
                assert(line[j] == m[j]);
            } else if a < j < b {
                assert(line[j] == t[j - a - 1]);
            } else if b < j < c {
                assert(line[j] == name[j - b - 1]);
            } else if j > c {
                assert(line[j] == v[j - c - 1]);
            }
        }
    }
    lemma_crlf_after(line, rest);
    assert(data.take(line.len() as int) =~= line);
    let parts = seq![m, t, third];
    let p1 = parts.drop_first();
    assert(p1.drop_first() =~= seq![third]);
    assert(p1[0] == t);
    assert(join_on(p1.drop_first(), 32u8) == third);
    assert(join_on(p1, 32u8) == t + seq![32u8] + third);
    assert(join_on(parts, 32u8) =~= line);
    assert forall|k: int| 0 <= k < parts.len() implies lacks_byte(#[trigger] parts[k], 32u8) by {}
    lemma_split_on_join(parts, 32u8);
    let vparts = seq![name, v];
    assert(vparts.drop_first() =~= seq![v]);
    assert(join_on(vparts.drop_first(), 47u8) == v);
    assert(join_on(vparts, 47u8) =~= third);
    assert forall|k: int| 0 <= k < vparts.len() implies lacks_byte(#[trigger] vparts[k], 47u8) by {}
    lemma_split_on_join(vparts, 47u8);
    encode_utf8_decode_utf8(method);
    encode_utf8_decode_utf8(target);
    encode_utf8_decode_utf8(version);
}

pub struct RequestLine {
    pub http_version: String,
    pub request_target: String,
    pub method: String,
}

impl RequestLine {
    /// The line as (method, request target, HTTP version).
    pub open spec fn view(&self) -> (Seq<char>, Seq<char>, Seq<char>) {
        (self.method@, self.request_target@, self.http_version@)
    }
}

impl RequestLine {
    /// The line as text, one part on each line.
    pub fn describe(&self) -> (r: String)
        ensures
            r@ == "Request line:\n- Method: "@ + self.method@ + "\n- Target: "@ + self.request_target@
                + "\n- Version: "@ + self.http_version@,
    {
        let mut out = "Request line:\n- Method: ".to_owned();
        out.append(self.method.as_str());
        out.append("\n- Target: ");
        out.append(self.request_target.as_str());
        out.append("\n- Version: ");
        out.append(self.http_version.as_str());
        out
    }
}

impl Default for RequestLine {
    fn default() -> (r: Self)
        ensures
            r.view() == (Seq::<char>::empty(), Seq::<char>::empty(), Seq::<char>::empty()),
    {
        RequestLine { http_version: String::new(), request_target: String::new(), method: String::new() }
    }
}

fn is_all_uppercase(s: &str) -> (r: bool)
    ensures
        r == all_uppercase(s@),
{
    let n = s.unicode_len();
    let mut i: usize = 0;
    while i < n
        invariant
            i <= n,
            n == s@.len(),
            forall|j: int| 0 <= j < i ==> spec_is_uppercase(#[trigger] s@[j]),
        decreases n - i,
    {
        if !char_is_uppercase(s.get_char(i)) {
            return false;
        }
        i = i + 1;
    }
    true
}

impl RequestLine {
    /// Parses the request line at the start of `bytes`; see `parse_request_line_spec`.
    pub fn parse_request_line(bytes: &[u8]) -> (r: Result<(RequestLine, usize), ParseError>)
        ensures
            match r {
                Ok((line, n)) => parse_request_line_spec(bytes@) == Ok::<_, ParseFailure>((line.view(), n as int)),
                Err(e) => parse_request_line_spec(bytes@) == Err::<((Seq<char>, Seq<char>, Seq<char>), int), _>(e@),
            },
            r matches Ok((_, n)) ==> n <= bytes@.len(),
    {
        if let Err(text) = str_from_utf8(bytes) {
            return Err(ParseError::InvalidUtf8(text));
        }
        proof {
            lemma_find_crlf(bytes@);
            assert(bytes@.skip(0) =~= bytes@);
        }
        let idx = match find_crlf_from(bytes, 0) {
            Some(i) => i,
            None => {
                return Ok((RequestLine::default(), 0));
            },
        };
        let len = bytes.len();
        assert(is_crlf_at(bytes@, idx as int));
        assert(idx + 2 <= len);
        let ghost line = bytes@.take(idx as int);
        assert(bytes@.subrange(0, idx as int) =~= line);
        let parts = split_ranges(bytes, 0, idx, 32u8);
        if parts.len() != 3 {
            return Err(ParseError::MalformedRequestLine);
        }
        let ghost pieces = split_on(line, 32u8);
        let (s0, e0) = parts[0];
        let (s1, e1) = parts[1];
        let (s2, e2) = parts[2];
        assert(bytes@.subrange(s2 as int, e2 as int) == pieces[2]);
        let version_parts = split_ranges(bytes, s2, e2, 47u8);
        if version_parts.len() != 2 {
            return Err(ParseError::MalformedHttpVersion);
        }
        let (v0, v1) = version_parts[1];
        proof {
            lemma_valid_split_at_ascii(bytes@, idx as int);
            lemma_split_valid(line, 32u8);
            assert(valid_utf8(pieces[0]));
            assert(valid_utf8(pieces[1]));
            assert(valid_utf8(pieces[2]));
            lemma_split_valid(pieces[2], 47u8);
            assert(valid_utf8(split_on(pieces[2], 47u8)[1]));
            assert(bytes@.subrange(s0 as int, e0 as int) == pieces[0]);
            assert(bytes@.subrange(s1 as int, e1 as int) == pieces[1]);
            assert(bytes@.subrange(v0 as int, v1 as int) == split_on(pieces[2], 47u8)[1]);
        }
        let method = str_from_utf8(&bytes[s0..e0]).unwrap();
        if !is_all_uppercase(method) {
            return Err(ParseError::MalformedMethod);
        }
        let target = str_from_utf8(&bytes[s1..e1]).unwrap();
        let version = str_from_utf8(&bytes[v0..v1]).unwrap();
        let request_line = RequestLine {
            http_version: version.to_owned(),
            request_target: target.to_owned(),
            method: method.to_owned(),
        };
        Ok((request_line, idx + 2))
    }
}

} // verus!
