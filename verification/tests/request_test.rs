use std::io::{Cursor, Read};
use tcp_to_http::error::ParseError;
use tcp_to_http::request::{Request, RequestReader, BUFFER_SIZE};

pub struct SlowReader {
    pub data: Vec<u8>,
    pub pos: usize,
    pub read_size: usize,
}

impl Read for SlowReader {
    fn read(&mut self, buf: &mut [u8]) -> std::io::Result<usize> {
        if self.pos >= self.data.len() {
            return Ok(0);
        }
        if self.read_size > self.data.len() - self.pos {
            self.read_size = self.data.len() - self.pos;
        }
        let n = self.read_size.min(buf.len());
        buf[..n].copy_from_slice(&self.data[self.pos..self.pos + n]);
        self.pos += n;
        Ok(n)
    }
}

fn request_from_reader<R: Read>(mut f: R) -> Result<Request, ParseError> {
    let mut reader = RequestReader::new();
    let mut buffer = [0u8; BUFFER_SIZE];
    while !reader.is_done() {
        let space = reader.space();
        let n = f.read(&mut buffer[..space]).map_err(|_| ParseError::MalformedRequest)?;
        reader.feed(&buffer[..n])?;
    }
    Ok(reader.into_request())
}

#[test]
fn test_request_from_reader() -> Result<(), ParseError> {
    let reader = Cursor::new("GET / HTTP/1.1\r\nHost: localhost:42069\r\nUser-Agent: curl/7.81.0\r\nAccept: */*\r\n\r\n");
    let req = request_from_reader(reader)?;

    assert_eq!(req.request_line.method, "GET");
    assert_eq!(req.request_line.request_target, "/");
    assert_eq!(req.request_line.http_version, "1.1");

    let reader = Cursor::new("GET /coffee HTTP/1.1\r\nHost: localhost:42069\r\nUser-Agent: curl/7.81.0\r\nAccept: */*\r\n\r\n");
    let req = request_from_reader(reader)?;

    assert_eq!(req.request_line.method, "GET");
    assert_eq!(req.request_line.request_target, "/coffee");
    assert_eq!(req.request_line.http_version, "1.1");

    let reader = Cursor::new("/coffee HTTP/1.1\r\nHost: localhost:42069\r\nUser-Agent: curl/7.81.0\r\nAccept: */*\r\n\r\n");
    let req = request_from_reader(reader);
    assert!(req.is_err());

    let reader = SlowReader {
        data: b"GET / HTTP/1.1\r\nHost: localhost:42069\r\nUser-Agent: curl/7.81.0\r\nAccept: */*\r\n\r\n".to_vec(),
        pos: 0,
        read_size: 3,
    };
    println!("{}", reader.data.len());
    let req = request_from_reader(reader)?;

    assert_eq!(req.request_line.method, "GET");
    assert_eq!(req.request_line.request_target, "/");
    assert_eq!(req.request_line.http_version, "1.1");

    let reader = SlowReader {
        data: b"GET /coffee HTTP/1.1\r\nHost: localhost:42069\r\nUser-Agent: curl/7.81.0\r\nAccept: */*\r\n\r\n".to_vec(),
        pos: 0,
        read_size: 1,
    };
    println!("{}", reader.data.len());
    let req = request_from_reader(reader)?;

    assert_eq!(req.request_line.method, "GET");
    assert_eq!(req.request_line.request_target, "/coffee");
    assert_eq!(req.request_line.http_version, "1.1");

    Ok(())
}
