use tcp_to_http::lines::{LineEvent, LineSplitter};

fn line(e: LineEvent) -> Option<String> {
    match e {
        LineEvent::Line(l) => Some(l),
        _ => None,
    }
}

#[test]
fn lines_across_chunks() {
    let mut s = LineSplitter::new();
    assert!(matches!(s.feed(b"ab"), LineEvent::Partial));
    assert_eq!(line(s.feed(b"c\nde\nf")), Some("abc".to_string()));
    assert_eq!(line(s.feed(b"g\n")), Some("de\nfg".to_string()));
    assert!(matches!(s.feed(b"\xff"), LineEvent::NotUtf8));
    assert!(matches!(s.feed(b"tail"), LineEvent::Partial));
    assert_eq!(s.finish(), Some("tail".to_string()));
}

#[test]
fn empty_last_line() {
    let mut s = LineSplitter::new();
    assert_eq!(line(s.feed(b"\n")), Some(String::new()));
    assert_eq!(s.finish(), None);
}
