use nago_http::Request;

fn text(request: Request<'_>, host: &str) -> String {
    String::from_utf8(request.encode(host)).unwrap()
}

#[test]
fn get_is_encoded_to_the_byte() {
    assert_eq!(
        text(Request::get("/a?b=c"), "example.com"),
        "GET /a?b=c HTTP/1.1\r\nHost: example.com\r\nConnection: close\r\nAccept-Encoding: identity\r\n\r\n"
    );
}

#[test]
fn headers_keep_their_order() {
    assert_eq!(
        text(
            Request::new("DELETE", "/x").header("A", "1").header("B", "2"),
            "h"
        ),
        "DELETE /x HTTP/1.1\r\nHost: h\r\nConnection: close\r\nAccept-Encoding: identity\r\nA: 1\r\nB: 2\r\n\r\n"
    );
}

#[test]
fn body_comes_with_its_type_and_length() {
    let bytes = Request::new("REPORT", "/")
        .body("a/b", b"first")
        .body("application/octet-stream", &[0, 255, 13, 10])
        .encode("h");
    let mut expected = b"REPORT / HTTP/1.1\r\nHost: h\r\nConnection: close\r\nAccept-Encoding: identity\r\nContent-Type: application/octet-stream\r\nContent-Length: 4\r\n\r\n".to_vec();
    expected.extend_from_slice(&[0, 255, 13, 10]);
    assert_eq!(bytes, expected);
}

#[test]
fn long_body_gives_its_length_in_decimal() {
    let body = vec![b'x'; 1203];
    let bytes = Request::post("/").body("t", &body).encode("h");
    let head = String::from_utf8(bytes[..bytes.len() - 1203].to_vec()).unwrap();
    assert!(head.ends_with("Content-Type: t\r\nContent-Length: 1203\r\n\r\n"));
    assert_eq!(&bytes[bytes.len() - 1203..], body.as_slice());
}

#[test]
fn bodyless_requests_that_could_carry_one_say_so() {
    for method in ["POST", "PUT", "PATCH", "post", "Put", "pAtCh"] {
        let text = text(Request::new(method, "/"), "h");
        assert!(text.ends_with("identity\r\nContent-Length: 0\r\n\r\n"), "{text}");
    }
    for method in ["GET", "HEAD", "DELETE", "POSTS", ""] {
        assert!(!text(Request::new(method, "/"), "h").contains("Content-Length"));
    }
}

#[test]
fn head_is_told_in_any_case() {
    assert!(Request::new("HEAD", "/").is_head());
    assert!(Request::new("head", "/").is_head());
    assert!(!Request::get("/").is_head());
    assert!(!Request::new("HEADS", "/").is_head());
}

#[test]
fn request_reads_back_line_by_line() {
    let bytes = Request::post("/p")
        .header("X-Note", "caf\u{e9}")
        .body("text/plain", b"\r\n\r\nbody")
        .encode("api.example.com:8443");
    let end = nago_http::find(&bytes, b"\r\n\r\n").unwrap();
    let head = String::from_utf8(bytes[..end].to_vec()).unwrap();
    let lines: Vec<&str> = head.split("\r\n").collect();
    assert_eq!(
        lines,
        [
            "POST /p HTTP/1.1",
            "Host: api.example.com:8443",
            "Connection: close",
            "Accept-Encoding: identity",
            "X-Note: caf\u{e9}",
            "Content-Type: text/plain",
            "Content-Length: 8",
        ]
    );
    assert_eq!(&bytes[end + 4..], b"\r\n\r\nbody");
}

#[test]
fn copy_of_a_request_is_the_same() {
    let request = Request::post("/p").header("A", "1").header("B", "2").body("t", b"x");
    let copy = request.clone().header("C", "3");
    assert_eq!(request.clone().encode("h"), request.encode("h"));
    assert!(text(copy, "h").contains("A: 1\r\nB: 2\r\nC: 3\r\nContent-Type: t\r\n"));
}
