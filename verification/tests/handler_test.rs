use tcp_to_http::handler::{
    handle, relay_response, respond_200, respond_400, respond_500, Handled, BAD_REQUEST_PAGE,
};
use tcp_to_http::server::response::StatusCode;

#[test]
fn pages() {
    assert_eq!(respond_400(), BAD_REQUEST_PAGE.as_bytes().to_vec());
    assert!(String::from_utf8(respond_500()).unwrap().contains("<h1>Internal Server Error</h1>"));
    assert!(String::from_utf8(respond_200()).unwrap().contains("<title>200 OK</title>"));
}

#[test]
fn routes() {
    match handle(&"/yourproblem".to_string()) {
        Handled::Respond(r) => {
            assert_eq!(r.status, StatusCode::BadRequest);
            assert_eq!(r.body, respond_400());
            assert_eq!(*r.headers.get(&"content-length".to_string()).unwrap(), respond_400().len().to_string());
            assert!(r.trailers.is_none());
        }
        Handled::Fetch(_) => panic!("expected a page"),
    }
    match handle(&"/myproblem".to_string()) {
        Handled::Respond(r) => {
            assert_eq!(r.status, StatusCode::InternalServerError);
            assert_eq!(r.body, respond_500());
            assert_eq!(*r.headers.get(&"content-length".to_string()).unwrap(), respond_500().len().to_string());
        }
        Handled::Fetch(_) => panic!("expected a page"),
    }
    match handle(&"/".to_string()) {
        Handled::Respond(r) => {
            assert_eq!(r.status, StatusCode::OK);
            assert_eq!(r.body, respond_200());
            assert_eq!(*r.headers.get(&"content-type".to_string()).unwrap(), "text/plain");
        }
        Handled::Fetch(_) => panic!("expected a page"),
    }
    match handle(&"/httpbin/stream/10".to_string()) {
        Handled::Fetch(url) => assert_eq!(url, "https://httpbin.org/stream/10"),
        Handled::Respond(_) => panic!("expected a fetch"),
    }
    match handle(&"/httpbin".to_string()) {
        Handled::Respond(r) => assert_eq!(r.status, StatusCode::OK),
        Handled::Fetch(_) => panic!("expected a page"),
    }
}

#[test]
fn relayed_body() {
    let r = relay_response(b"abc".to_vec());
    assert_eq!(r.status, StatusCode::OK);
    assert_eq!(r.body, b"abc".to_vec());
    assert!(r.headers.get(&"content-length".to_string()).is_none());
    assert_eq!(r.headers.get(&"transfer-encoding".to_string()).unwrap(), "chunked");
    assert_eq!(r.headers.get(&"trailer".to_string()).unwrap(), "X-Content-SHA256,X-Content-Length");
    let t = r.trailers.unwrap();
    assert_eq!(
        t.get(&"X-Content-SHA256".to_string()).unwrap(),
        "ba7816bf8f01cfea414140de5dae2223b00361a396177a9cb410ff61f20015ad"
    );
    assert_eq!(t.get(&"x-content-length".to_string()).unwrap(), "3");
}
