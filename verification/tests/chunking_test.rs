use tcp_to_http::error::ParseError;
use tcp_to_http::request::{Request, RequestReader};

fn feed_in_chunks(data: &[u8], size: usize) -> Result<Request, ParseError> {
    let mut reader = RequestReader::new();
    let mut pos = 0;
    while !reader.is_done() {
        let n = size.min(reader.space()).min(data.len() - pos);
        reader.feed(&data[pos..pos + n])?;
        pos += n;
    }
    Ok(reader.into_request())
}

const REQUEST: &[u8] =
    b"POST /coffee HTTP/1.1\r\nHost: localhost:42069\r\nAccept: a\r\naccept: b\r\nContent-Length: 5\r\n\r\nhello";

#[test]
fn chunk_size_does_not_change_the_request() {
    let whole = feed_in_chunks(REQUEST, REQUEST.len()).unwrap();
    for size in 1..REQUEST.len() {
        let req = feed_in_chunks(REQUEST, size).unwrap();
        assert_eq!(req.describe(), whole.describe());
        assert_eq!(req.body.get_body(), whole.body.get_body());
    }
    assert_eq!(whole.body.get_body(), b"hello");
    assert_eq!(whole.headers.get(&"ACCEPT".to_string()).unwrap(), "a,b");
}

#[test]
fn chunk_size_does_not_change_an_error() {
    let data = b"GET / HTTP/1.1\r\nHost: x\r\nBad Name: y\r\n\r\n";
    for size in 1..=data.len() {
        assert_eq!(feed_in_chunks(data, size).err(), Some(ParseError::MalformedFieldName("Bad Name".to_string())));
    }
}

#[test]
fn feeding_keeps_only_incomplete_bytes() {
    let mut reader = RequestReader::new();
    assert_eq!(reader.space(), 1024);
    assert_eq!(reader.feed(b"GET / HTTP/1.1\r\nHo"), Ok(false));
    assert_eq!(reader.space(), 1022);
    assert_eq!(reader.feed(b"st: a\r\n\r\n"), Ok(true));
    let req = reader.into_request();
    assert_eq!(req.headers.get(&"host".to_string()).unwrap(), "a");
}

#[test]
fn end_of_stream_before_the_request_is_complete() {
    let mut reader = RequestReader::new();
    assert_eq!(reader.feed(b"GET / HTTP/1.1\r\n"), Ok(false));
    assert_eq!(reader.feed(b""), Err(ParseError::MalformedRequest));
}

#[test]
fn body_longer_than_announced_is_refused() {
    let mut reader = RequestReader::new();
    let r = reader.feed(b"POST / HTTP/1.1\r\nContent-Length: 2\r\n\r\nabc");
    assert_eq!(r, Err(ParseError::BodyTooLong));
}

#[test]
fn utf8_cut_at_character_boundaries_does_not_change_the_request() {
    let data = "GET / HTTP/1.1\r\nX-Name: caf\u{e9} cr\u{e8}me\r\n\r\n".as_bytes();
    let whole = feed_in_chunks(data, data.len()).unwrap();
    assert_eq!(whole.headers.get(&"x-name".to_string()).unwrap(), "caf\u{e9} cr\u{e8}me");
    let text = std::str::from_utf8(data).unwrap();
    for cut in 1..data.len() {
        if !text.is_char_boundary(cut) {
            continue;
        }
        let mut reader = RequestReader::new();
        assert_eq!(reader.feed(&data[..cut]), Ok(false));
        assert_eq!(reader.feed(&data[cut..]), Ok(true));
        assert_eq!(reader.into_request().describe(), whole.describe());
    }
}

#[test]
fn a_cut_inside_a_utf8_character_is_refused() {
    let data = "GET / HTTP/1.1\r\nX-Name: caf\u{e9}\r\n\r\n".as_bytes();
    let cut = data.iter().position(|&b| b == 0xc3).unwrap() + 1;
    let mut reader = RequestReader::new();
    let text = std::str::from_utf8(&data[..cut]).unwrap_err().to_string();
    assert_eq!(reader.feed(&data[..cut]), Err(ParseError::InvalidUtf8(text)));
}

#[test]
fn bytes_past_a_complete_body_are_refused_only_in_one_piece() {
    let data = b"POST / HTTP/1.1\r\nContent-Length: 2\r\n\r\nabEXTRA";
    let whole = {
        let mut reader = RequestReader::new();
        reader.feed(data)
    };
    assert_eq!(whole, Err(ParseError::BodyTooLong));
    let cut = data.len() - 5;
    let mut reader = RequestReader::new();
    assert_eq!(reader.feed(&data[..cut]), Ok(true));
    assert_eq!(reader.into_request().body.get_body(), b"ab");
}

#[test]
fn resuming_after_a_finished_request_changes_nothing() {
    let a = b"GET / HTTP/1.1\r\nHost: x\r\n\r\n";
    let b = b"more";
    let mut r1 = Request::new();
    let n = r1.parse(a).unwrap();
    assert_eq!(n, a.len());
    let mut rest = a[n..].to_vec();
    rest.extend_from_slice(b);
    assert_eq!(r1.parse(&rest), Ok(0));
    let mut r2 = Request::new();
    let mut all = a.to_vec();
    all.extend_from_slice(b);
    assert_eq!(r2.parse(&all), Ok(n));
    assert_eq!(r1.describe(), r2.describe());
}

#[test]
fn a_refusal_stays_when_more_bytes_follow() {
    let a = b"GET / HTTP/1.1\r\nH@st: x\r\n";
    let mut r1 = Request::new();
    let e1 = r1.parse(a).unwrap_err();
    let mut all = a.to_vec();
    all.extend_from_slice(b"Host: y\r\n\r\n");
    let mut r2 = Request::new();
    assert_eq!(r2.parse(&all).unwrap_err(), e1);
}

#[test]
fn two_cuttings_refuse_alike_and_accept_alike() {
    let bad = b"GET / HTTP/1.1\r\nHost: x\r\nBad Name: y\r\n\r\n";
    let e3 = feed_in_chunks(bad, 3).err();
    let e7 = feed_in_chunks(bad, 7).err();
    assert_eq!(e3, e7);
    let a = feed_in_chunks(REQUEST, 5).unwrap();
    let b = feed_in_chunks(REQUEST, 11).unwrap();
    assert_eq!(a.describe(), b.describe());
    assert_eq!(a.state, b.state);
    assert_eq!(a.body.get_body(), b.body.get_body());
}
