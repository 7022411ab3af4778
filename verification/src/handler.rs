//! The routes of the example server: three fixed pages, and a proxy to httpbin.org
//! whose body is sent chunked, with its SHA-256 checksum and length as trailers.

use crate::headers::{default_response_entries, find_key, set_entry, Headers};
use crate::server::response::{Response, StatusCode};
use crate::text::{ascii_chars, decimal_bytes, str_starts_with, usize_to_string};
use sha2::Digest;
use vstd::prelude::*;
use vstd::string::StringExecFns;
use vstd::utf8::encode_utf8;

verus! {

pub const BAD_REQUEST_PAGE: &'static str = "<!DOCTYPE html>
  <head>
    <title>400 Bad Request</title>
  </head>
  <body>
    <h1>Bad Request</h1>
    <p>Your request honestly kinda sucked.</p>
  </body>
</html>";

pub const SERVER_ERROR_PAGE: &'static str = "<!DOCTYPE html>
  <head>
    <title>500 Internal Server Error</title>
  </head>
  <body>
    <h1>Internal Server Error</h1>
    <p>Okay, you know what? This one is on me.</p>
  </body>
</html>";

pub const OK_PAGE: &'static str = "<!DOCTYPE html>
  <head>
    <title>200 OK</title>
  </head>
  <body>
    <h1>Success!</h1>
    <p>Your request was an absolute banger.</p>
  </body>
</html>";

pub fn respond_400() -> (r: Vec<u8>)
    ensures
        r@ == encode_utf8(BAD_REQUEST_PAGE@),
{
    vstd::slice::slice_to_vec(BAD_REQUEST_PAGE.as_bytes())
}

pub fn respond_500() -> (r: Vec<u8>)
    ensures
        r@ == encode_utf8(SERVER_ERROR_PAGE@),
{
    vstd::slice::slice_to_vec(SERVER_ERROR_PAGE.as_bytes())
}

pub fn respond_200() -> (r: Vec<u8>)
    ensures
        r@ == encode_utf8(OK_PAGE@),
{
    vstd::slice::slice_to_vec(OK_PAGE.as_bytes())
}

/// What SHA-256 makes of a byte sequence.
pub uninterp spec fn spec_sha256(data: Seq<u8>) -> Seq<u8>;

/// `sha2::Sha256::digest`: the 32-byte SHA-256 digest of `data`.
#[verifier::external_body]
fn sha256(data: &[u8]) -> (r: Vec<u8>)
    ensures
        r@ == spec_sha256(data@),
        r@.len() == 32,
{
    sha2::Sha256::digest(data).to_vec()
}

pub open spec fn hex_digit_lower(d: u8) -> char {
    if d < 10 {
        ((48 + d) as u8) as char
    } else {
        ((87 + d) as u8) as char
    }
}

/// Two lowercase hexadecimal digits for each byte, high half first.
pub open spec fn hex_lower_chars(data: Seq<u8>) -> Seq<char>
    decreases data.len(),
{
    if data.len() == 0 {
        Seq::empty()
    } else {
        seq![hex_digit_lower(data[0] / 16), hex_digit_lower(data[0] % 16)] + hex_lower_chars(
            data.drop_first(),
        )
    }
}

/// `hex::encode`: two lowercase hexadecimal digits for each byte, high half first.
#[verifier::external_body]
fn hex_encode(data: &[u8]) -> (r: String)
    ensures
        r@ == hex_lower_chars(data@),
{
    hex::encode(data)
}

/// The fields of a response that relays a body fetched from httpbin.org: sent in
/// chunks, with two trailers announced.
pub open spec fn relay_fields() -> Seq<(Seq<char>, Seq<char>)> {
    seq![
        ("connection"@, "close"@),
        ("content-type"@, "text/plain"@),
        ("transfer-encoding"@, "chunked"@),
        ("trailer"@, "X-Content-SHA256"@ + seq![','] + "X-Content-Length"@),
    ]
}

/// The trailers of a relayed body with the SHA-256 digest `digest`: the digest in
/// hexadecimal and the length of the body.
pub open spec fn relay_trailers(body: Seq<u8>, digest: Seq<u8>) -> Seq<(Seq<char>, Seq<char>)> {
    set_entry(
        set_entry(Seq::empty(), "X-Content-SHA256"@, hex_lower_chars(digest)),
        "X-Content-Length"@,
        ascii_chars(decimal_bytes(body.len())),
    )
}

/// What the handler does with a request: answer it at once, or fetch a URL first.
pub enum Handled {
    Respond(Response),
    Fetch(String),
}

pub open spec fn is_page(r: Handled, status: StatusCode, page: Seq<u8>, fields: Seq<(Seq<char>, Seq<char>)>) -> bool {
    &&& r matches Handled::Respond(resp)
    &&& resp.status == status
    &&& resp.body@ == page
    &&& resp.headers@ == fields
    &&& resp.trailers is None
}

/// Routes a request by its target: "/yourproblem" gets the 400 page, "/myproblem"
/// the 500 page, a target under "/httpbin/" is fetched from https://httpbin.org/,
/// and anything else gets the 200 page.
pub fn handle(target: &String) -> (r: Handled)
    ensures
        target@ == "/yourproblem"@ ==> is_page(
            r,
            StatusCode::BadRequest,
            encode_utf8(BAD_REQUEST_PAGE@),
            default_response_entries(encode_utf8(BAD_REQUEST_PAGE@).len()),
        ),
        target@ != "/yourproblem"@ && target@ == "/myproblem"@ ==> is_page(
            r,
            StatusCode::InternalServerError,
            encode_utf8(SERVER_ERROR_PAGE@),
            default_response_entries(encode_utf8(SERVER_ERROR_PAGE@).len()),
        ),
        target@ != "/yourproblem"@ && target@ != "/myproblem"@ ==> {
            let prefix = "/httpbin/"@;
            if prefix.len() <= target@.len() && target@.take(prefix.len() as int) == prefix {
                r matches Handled::Fetch(url) && url@ == "https://httpbin.org/"@ + target@.skip(
                    prefix.len() as int,
                )
            } else {
                is_page(
                    r,
                    StatusCode::OK,
                    encode_utf8(OK_PAGE@),
                    default_response_entries(encode_utf8(OK_PAGE@).len()),
                )
            }
        },
{
    let mut status = StatusCode::OK;
    let mut body = respond_200();
    let mut headers = Headers::default_response_headers(body.len());
    if *target == "/yourproblem".to_owned() {
        status = StatusCode::BadRequest;
        body = respond_400();
        headers.store_lowercase("content-length".to_owned(), usize_to_string(body.len()));
        assert(headers@ =~= default_response_entries(body@.len()));
    } else if *target == "/myproblem".to_owned() {
        status = StatusCode::InternalServerError;
        body = respond_500();
        headers.store_lowercase("content-length".to_owned(), usize_to_string(body.len()));
        assert(headers@ =~= default_response_entries(body@.len()));
    } else if str_starts_with(target.as_str(), "/httpbin/") {
        let prefix_len = "/httpbin/".unicode_len();
        let rest = target.as_str().substring_char(prefix_len, target.as_str().unicode_len());
        let mut url = String::from_str("https://httpbin.org/");
        url.append(rest);
        return Handled::Fetch(url);
    }
    Handled::Respond(Response::new(status, headers, body, None))
}

/// The response that relays `body`, fetched from httpbin.org, whose SHA-256
/// digest is `digest`: status 200, sent chunked, with the digest in hexadecimal
/// and the length of the body as trailers.
pub fn relay_response_with_digest(body: Vec<u8>, digest: &[u8]) -> (r: Response)
    ensures
        r.status == StatusCode::OK,
        r.body == body,
        r.headers@ == relay_fields(),
        r.trailers matches Some(t) && t@ == relay_trailers(body@, digest@),
{
    let page = respond_200();
    let mut headers = Headers::default_response_headers(page.len());
    proof {
        reveal_strlit("content-length");
        reveal_strlit("connection");
        reveal_strlit("content-type");
        reveal_strlit("transfer-encoding");
        reveal_strlit("trailer");
        assert("content-length"@.len() == 14 && "connection"@.len() == 10);
        assert("content-type"@.len() == 12 && "transfer-encoding"@.len() == 17);
        assert("trailer"@.len() == 7);
    }
    let ghost d0 = headers@;
    assert(find_key(d0, "content-length"@) == Some(0int));
    headers.remove_lowercase(&"content-length".to_owned());
    let ghost d1 = seq![("connection"@, "close"@), ("content-type"@, "text/plain"@)];
    assert(headers@ =~= d1);
    assert(d1.drop_first().drop_first() =~= Seq::<(Seq<char>, Seq<char>)>::empty());
    assert("content-type"@ != "transfer-encoding"@);
    assert("connection"@ != "transfer-encoding"@);
    assert(find_key(d1.drop_first().drop_first(), "transfer-encoding"@) is None);
    assert(find_key(d1.drop_first(), "transfer-encoding"@) is None);
    headers.merge_lowercase("transfer-encoding".to_owned(), "chunked".to_owned());
    let ghost d2 = d1.push(("transfer-encoding"@, "chunked"@));
    assert(headers@ =~= d2);
    assert(d2.drop_first().drop_first().drop_first() =~= Seq::<(Seq<char>, Seq<char>)>::empty());
    assert("transfer-encoding"@ != "trailer"@);
    assert("content-type"@ != "trailer"@);
    assert("connection"@ != "trailer"@);
    assert(find_key(d2.drop_first().drop_first().drop_first(), "trailer"@) is None);
    assert(find_key(d2.drop_first().drop_first(), "trailer"@) is None);
    assert(find_key(d2.drop_first(), "trailer"@) is None);
    headers.merge_lowercase("trailer".to_owned(), "X-Content-SHA256".to_owned());
    let ghost d3 = d2.push(("trailer"@, "X-Content-SHA256"@));
    assert(headers@ =~= d3);
    assert(d3.drop_first().drop_first().drop_first()[0].0 == "trailer"@);
    assert(find_key(d3.drop_first().drop_first().drop_first(), "trailer"@) == Some(0int));
    assert(find_key(d3.drop_first().drop_first(), "trailer"@) == Some(1int));
    assert(find_key(d3.drop_first(), "trailer"@) == Some(2int));
    assert(find_key(d3, "trailer"@) == Some(3int));
    headers.merge_lowercase("trailer".to_owned(), "X-Content-Length".to_owned());
    assert(headers@ =~= relay_fields());
    let checksum = hex_encode(digest);
    let mut trailers = Headers::new();
    trailers.set("X-Content-SHA256".to_owned(), checksum);
    trailers.set("X-Content-Length".to_owned(), usize_to_string(body.len()));
    Response::new(StatusCode::OK, headers, body, Some(trailers))
}

/// The response that relays `body`, fetched from httpbin.org; see
/// `relay_response_with_digest`, with the SHA-256 digest of `body`.
pub fn relay_response(body: Vec<u8>) -> (r: Response)
    ensures
        r.status == StatusCode::OK,
        r.body == body,
        r.headers@ == relay_fields(),
        r.trailers matches Some(t) && t@ == relay_trailers(body@, spec_sha256(body@)),
{
    let digest = sha256(body.as_slice());
    relay_response_with_digest(body, digest.as_slice())
}

} // verus!
