use nago_http::{parse_response, Request};

#[test]
fn content_length_body_waits_for_every_byte() {
    let partial = b"HTTP/1.1 200 OK\r\nContent-Length: 5\r\n\r\nhel";
    assert!(parse_response(partial, false, false).unwrap().is_none());
    assert!(parse_response(partial, true, false).is_err());

    let full = b"HTTP/1.1 200 OK\r\nContent-Length: 5\r\nX-Id: 7\r\n\r\nhello";
    let response = parse_response(full, false, false).unwrap().unwrap();
    assert_eq!(response.status, 200);
    assert_eq!(response.body, b"hello");
    assert_eq!(response.header("x-id"), Some("7"));
}

#[test]
fn chunked_body_is_reassembled() {
    let raw = b"HTTP/1.1 502 Bad Gateway\r\nTransfer-Encoding: chunked\r\n\r\n4\r\nwiki\r\n5;x=y\r\npedia\r\n0\r\n\r\n";
    let response = parse_response(raw, false, false).unwrap().unwrap();
    assert_eq!(response.status, 502);
    assert!(!response.is_success());
    assert_eq!(response.body, b"wikipedia");

    let unfinished = b"HTTP/1.1 200 OK\r\nTransfer-Encoding: chunked\r\n\r\n4\r\nwiki\r\n";
    assert!(parse_response(unfinished, false, false).unwrap().is_none());
}

#[test]
fn unframed_body_ends_at_eof() {
    let raw = b"HTTP/1.1 200 OK\r\n\r\nall of it";
    assert!(parse_response(raw, false, false).unwrap().is_none());
    assert_eq!(
        parse_response(raw, true, false).unwrap().unwrap().body,
        b"all of it"
    );
}

#[test]
fn request_carries_host_length_and_close() {
    let bytes = Request::post("/x?y=1")
        .header("Authorization", "Bearer t")
        .body("application/json", b"{}")
        .encode("api.example.com:8443");
    let text = String::from_utf8(bytes).unwrap();
    assert!(text.starts_with("POST /x?y=1 HTTP/1.1\r\nHost: api.example.com:8443\r\n"));
    assert!(text.contains("Connection: close\r\n"));
    assert!(text.contains("Authorization: Bearer t\r\n"));
    assert!(text.ends_with("Content-Length: 2\r\n\r\n{}"));
}
