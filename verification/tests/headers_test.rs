use std::io::Read;
use tcp_to_http::error::ParseError;
use tcp_to_http::request::headers;
use tcp_to_http::request::{Request, RequestReader, BUFFER_SIZE};

pub struct SlowReader {
    pub data: Vec<u8>,
    pub pos: usize,
    pub read_size: usize,
}

impl Read for SlowReader {
    fn read(&mut self, buf: &mut [u8]) -> std::io::Result<usize> {
        if self.pos >= self.data.len() {
            return Ok(0);
        }
        if self.read_size > self.data.len() - self.pos {
            self.read_size = self.data.len() - self.pos;
        }
        let n = self.read_size.min(buf.len());
        buf[..n].copy_from_slice(&self.data[self.pos..self.pos + n]);
        self.pos += n;
        Ok(n)
    }
}

fn request_from_reader<R: Read>(mut f: R) -> Result<Request, ParseError> {
    let mut reader = RequestReader::new();
    let mut buffer = [0u8; BUFFER_SIZE];
    while !reader.is_done() {
        let space = reader.space();
        let n = f.read(&mut buffer[..space]).map_err(|_| ParseError::MalformedRequest)?;
        reader.feed(&buffer[..n])?;
    }
    Ok(reader.into_request())
}

#[test]
fn test_header() -> Result<(), ParseError> {
    // Valid Header
    let mut http_headers = headers::Headers::new();
    let data = b"Host: localhost:42069\r\n\r\n";
    let n = http_headers.parse(data)?;
    assert_eq!(25, n.0);
    match http_headers.get(&"Host".to_string()) {
        Some(val) => assert_eq!(*val, "localhost:42069".to_string()),
        None => panic!("Value not found"),
    }
    assert_eq!(n.1, true);

    // Invalid Header with extra whitespaces
    let mut http_headers = headers::Headers::new();
    let data = b"       Host: localhost:42069\r\n\r\n";
    let n = http_headers.parse(data);
    assert!(n.is_err());

    // Valid header with OWS in field value
    let mut http_headers = headers::Headers::new();
    let data = b"Host:    localhost:42069   \r\n\r\n";
    let n = http_headers.parse(data)?;
    assert_eq!(31, n.0);
    match http_headers.get(&"Host".to_string()) {
        Some(val) => assert_eq!(*val, "localhost:42069".to_string()),
        None => panic!("Value not found"),
    }
    assert_eq!(n.1, true);

    // Valid header with multiple header values
    let mut http_headers = headers::Headers::new();
    let data = b"Host: localhost:42069\r\nUser-Agent: curl\r\n\r\n";
    let n = http_headers.parse(data)?;
    assert_eq!(43, n.0);
    match http_headers.get(&"Host".to_string()) {
        Some(val) => assert_eq!(*val, "localhost:42069".to_string()),
        None => panic!("Value not found"),
    }
    match http_headers.get(&"User-Agent".to_string()) {
        Some(val) => assert_eq!(*val, "curl".to_string()),
        None => panic!("Value not found"),
    }
    assert_eq!(n.1, true);

    // Invalid field name
    let mut http_headers = headers::Headers::new();
    let data = b"H@st: localhost:42069\r\n\r\n";
    let n = http_headers.parse(data);
    assert!(n.is_err());

    // Field names with multiple values
    let mut http_headers = headers::Headers::new();
    let data = b"Host:localhost:42069 \r\nHost:localhost:42069  \r\n\r\n";
    let n = http_headers.parse(data)?;
    assert_eq!(49, n.0);
    match http_headers.get(&"Host".to_string()) {
        Some(val) => assert_eq!(*val, "localhost:42069,localhost:42069".to_string()),
        None => panic!("Value not found"),
    }
    assert_eq!(n.1, true);

    // Tests from Request
    // Valid Header
    let mut reader = SlowReader {
        data: b"GET / HTTP/1.1\r\nHost: localhost:42069\r\nUser-Agent: curl/7.81.0\r\nAccept: */*\r\n\r\n".to_vec(),
        pos: 0,
        read_size: 3,
    };

    let req = request_from_reader(&mut reader)?;

    assert_eq!(req.request_line.method, "GET");
    assert_eq!(req.request_line.request_target, "/");
    assert_eq!(req.request_line.http_version, "1.1");
    match req.headers.get(&"Host".to_string()) {
        Some(val) => assert_eq!(val, "localhost:42069"),
        None => panic!("Value not found"),
    }
    match req.headers.get(&"user-agent".to_string()) {
        Some(val) => assert_eq!(val, "curl/7.81.0"),
        None => panic!("Value not found"),
    }
    match req.headers.get(&"accept".to_string()) {
        Some(val) => assert_eq!(val, "*/*"),
        None => panic!("Value not found"),
    }

    // No headers
    let mut reader = SlowReader {
        data: b"GET / HTTP/1.1\r\n\r\n".to_vec(),
        pos: 0,
        read_size: 3,
    };

    let req = request_from_reader(&mut reader)?;

    assert_eq!(req.request_line.method, "GET");
    assert_eq!(req.request_line.request_target, "/");
    assert_eq!(req.request_line.http_version, "1.1");

    assert!(req.headers.get(&"host".to_string()).is_none());

    // Invalid header
    let mut reader = SlowReader {
        data: b"GET / HTTP/1.1\r\nHost localhost:42069\r\n\r\n".to_vec(),
        pos: 0,
        read_size: 3,
    };

    let result = request_from_reader(&mut reader);

    assert!(result.is_err());

    // Multiple values of a header
    let mut reader = SlowReader {
        data: b"GET / HTTP/1.1\r\nAccept: text/html\r\nAccept: application/json\r\n\r\n".to_vec(),
        pos: 0,
        read_size: 3,
    };

    let req = request_from_reader(&mut reader)?;

    match req.headers.get(&"accept".to_string()) {
        Some(val) => assert_eq!(val, "text/html,application/json"),
        None => panic!("Accept not found"),
    }

    // Case insensitive header
    let mut reader = SlowReader {
        data: b"GET / HTTP/1.1\r\nHoSt: localhost:42069\r\nUsEr-AgEnT: curl\r\n\r\n".to_vec(),
        pos: 0,
        read_size: 3,
    };

    let req = request_from_reader(&mut reader)?;

    match req.headers.get(&"host".to_string()) {
        Some(val) => assert_eq!(val, "localhost:42069"),
        None => panic!("Host not found"),
    }

    match req.headers.get(&"user-agent".to_string()) {
        Some(val) => assert_eq!(val, "curl"),
        None => panic!("User-Agent not found"),
    }

    // Invalid ending
    let mut reader = SlowReader {
        data: b"GET / HTTP/1.1\r\nHoSt: localhost:42069\r\nUsEr-AgEnT: curl\r\n".to_vec(),
        pos: 0,
        read_size: 3,
    };

    let req = request_from_reader(&mut reader);
    assert!(req.is_err());

    Ok(())
}
