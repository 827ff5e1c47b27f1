use nago_http::{decode_chunked, find, parse_response, Error, Response, MAX_RESPONSE};

fn parsed(raw: &[u8], at_eof: bool, head_request: bool) -> Option<Response> {
    parse_response(raw, at_eof, head_request).unwrap()
}

fn protocol_error(raw: &[u8], at_eof: bool) -> String {
    match parse_response(raw, at_eof, false) {
        Err(Error::Protocol(detail)) => detail,
        other => panic!("{other:?}"),
    }
}

#[test]
fn find_gives_the_first_place() {
    assert_eq!(find(b"abcabc", b"bc"), Some(1));
    assert_eq!(find(b"abcabc", b"cb"), None);
    assert_eq!(find(b"aab", b"ab"), Some(1));
    assert_eq!(find(b"ab", b"abc"), None);
    assert_eq!(find(b"", b"a"), None);
    assert_eq!(find(b"abc", b"abc"), Some(0));
}

#[test]
fn largest_response_is_eight_mebibytes() {
    assert_eq!(MAX_RESPONSE, 8_388_608);
}

#[test]
fn success_is_the_two_hundreds() {
    let with = |status: u16| Response {
        status,
        headers: vec![],
        body: vec![],
    };
    assert!(!with(199).is_success());
    assert!(with(200).is_success());
    assert!(with(299).is_success());
    assert!(!with(300).is_success());
}

#[test]
fn header_is_the_first_of_its_name_in_any_case() {
    let response = Response {
        status: 200,
        headers: vec![
            ("X-A".to_string(), "1".to_string()),
            ("x-b".to_string(), "2".to_string()),
            ("x-a".to_string(), "3".to_string()),
        ],
        body: vec![],
    };
    assert_eq!(response.header("x-A"), Some("1"));
    assert_eq!(response.header("X-B"), Some("2"));
    assert_eq!(response.header("x-c"), None);
    assert_eq!(response.header(""), None);
}

#[test]
fn nothing_is_known_before_the_headers_end() {
    assert!(parsed(b"", false, false).is_none());
    assert!(parsed(b"HTTP/1.1 200 OK\r\nA: b\r\n\r", false, false).is_none());
    assert_eq!(
        protocol_error(b"HTTP/1.1 200 OK\r\nA: b\r\n\r", true),
        "connection closed before the headers ended"
    );
}

#[test]
fn headers_that_are_not_utf8_are_refused() {
    assert_eq!(
        protocol_error(b"HTTP/1.1 200 \xff\r\n\r\n", false),
        "headers are not UTF-8"
    );
    assert_eq!(
        protocol_error(b"HTTP/1.1 200 \xc3\x28\r\n\r\n", false),
        "headers are not UTF-8"
    );
    let response = parsed("HTTP/1.1 200 ok\r\nX: \u{e9}\u{1f600}\r\n\r\n".as_bytes(), true, false)
        .unwrap();
    assert_eq!(response.header("x"), Some("\u{e9}\u{1f600}"));
}

#[test]
fn status_is_the_second_word() {
    for (line, status) in [
        ("HTTP/1.1 200 OK", 200),
        ("HTTP/1.1 404", 404),
        ("x +7 y", 7),
        ("x 0065535", 65535),
    ] {
        let raw = format!("{line}\r\n\r\n");
        assert_eq!(parsed(raw.as_bytes(), true, false).unwrap().status, status);
    }
    for line in [
        "",
        "HTTP/1.1",
        "HTTP/1.1  200",
        "HTTP/1.1 2x0",
        "HTTP/1.1 65536",
        "HTTP/1.1 -1",
        "HTTP/1.1 +",
        "HTTP/1.1 ",
    ] {
        let raw = format!("{line}\r\nA: b\r\n\r\n");
        assert_eq!(
            protocol_error(raw.as_bytes(), false),
            "bad status line"
        );
    }
}

#[test]
fn header_lines_are_split_at_the_first_colon_and_trimmed() {
    let raw = "HTTP/1.1 200 OK\r\nA:b\r\nC : \t d:e \u{a0}\r\nno colon\r\n:empty\r\nF:\r\n\r\n";
    let response = parsed(raw.as_bytes(), true, false).unwrap();
    let headers: Vec<(&str, &str)> = response
        .headers
        .iter()
        .map(|(name, value)| (name.as_str(), value.as_str()))
        .collect();
    assert_eq!(
        headers,
        [("A", "b"), ("C ", "d:e"), ("", "empty"), ("F", "")]
    );
}

#[test]
fn bad_content_length_is_refused() {
    for value in ["", "x", "-1", "5 5", "99999999999999999999999"] {
        let raw = format!("HTTP/1.1 204 No\r\nContent-Length: {value}\r\n\r\n");
        assert_eq!(
            protocol_error(raw.as_bytes(), false),
            "bad Content-Length"
        );
    }
    let two = b"HTTP/1.1 200 OK\r\nContent-Length: a\r\ncontent-length: b\r\n\r\n";
    assert_eq!(protocol_error(two, false), "bad Content-Length");
}

#[test]
fn last_content_length_stands() {
    let raw = b"HTTP/1.1 200 OK\r\nContent-Length: 9\r\nCONTENT-LENGTH: 2\r\n\r\nabc";
    assert_eq!(parsed(raw, false, false).unwrap().body, b"ab");
}

#[test]
fn short_body_at_the_end_is_an_error() {
    let raw = b"HTTP/1.1 200 OK\r\nContent-Length: 5\r\n\r\nhel";
    assert_eq!(
        protocol_error(raw, true),
        "connection closed before the body ended"
    );
    let chunked = b"HTTP/1.1 200 OK\r\nTransfer-Encoding: gzip, CHUNKED\r\n\r\n4\r\nwi";
    assert!(parsed(chunked, false, false).is_none());
    assert_eq!(
        protocol_error(chunked, true),
        "connection closed inside a chunked body"
    );
}

#[test]
fn last_transfer_encoding_stands() {
    let raw = b"HTTP/1.1 200 OK\r\nTransfer-Encoding: chunked\r\ntransfer-encoding: identity\r\nContent-Length: 3\r\n\r\n0\r\n\r\n";
    assert_eq!(parsed(raw, false, false).unwrap().body, b"0\r\n");
}

#[test]
fn chunked_wins_over_length() {
    let raw = b"HTTP/1.1 200 OK\r\nContent-Length: 100\r\nTransfer-Encoding: chunked\r\n\r\n1\r\nx\r\n0\r\n";
    assert_eq!(parsed(raw, false, false).unwrap().body, b"x");
}

#[test]
fn bodiless_responses_have_no_body_whatever_their_headers_say() {
    for status in [100, 101, 199, 204, 304] {
        let raw = format!("HTTP/1.1 {status} x\r\nContent-Length: 5\r\n\r\nhello");
        let response = parsed(raw.as_bytes(), false, false).unwrap();
        assert_eq!(response.status, status);
        assert!(response.body.is_empty());
    }
    for status in [99, 200, 205, 303, 305] {
        let raw = format!("HTTP/1.1 {status} x\r\nContent-Length: 5\r\n\r\nhello");
        assert_eq!(
            parsed(raw.as_bytes(), false, false).unwrap().body,
            b"hello"
        );
    }
    let head = b"HTTP/1.1 200 OK\r\nContent-Length: 5\r\n\r\n";
    assert!(parsed(head, false, true).unwrap().body.is_empty());
    assert!(parsed(head, false, false).is_none());
}

#[test]
fn settled_response_stands_whatever_follows() {
    let raw = b"HTTP/1.1 200 OK\r\nContent-Length: 2\r\n\r\nok".to_vec();
    let mut longer = raw.clone();
    longer.extend_from_slice(b"HTTP/1.1 500 no\r\n\r\n");
    for at_eof in [false, true] {
        assert_eq!(parsed(&longer, at_eof, false).unwrap().body, b"ok");
        assert_eq!(parsed(&longer, at_eof, false).unwrap().status, 200);
    }
    assert_eq!(
        protocol_error(b"nonsense\r\n\r\n and more", true),
        "bad status line"
    );
}

#[test]
fn every_prefix_of_a_response_waits() {
    let raw: &[u8] = b"HTTP/1.1 200 OK\r\nTransfer-Encoding: chunked\r\n\r\n4;a=b\r\nwiki\r\n00A\r\n0123456789\r\n0\r\n";
    for end in 0..raw.len() {
        assert!(parsed(&raw[..end], false, false).is_none(), "{end}");
        assert!(parse_response(&raw[..end], true, false).is_err(), "{end}");
    }
    assert_eq!(
        parsed(raw, false, false).unwrap().body,
        b"wiki0123456789"
    );
}

#[test]
fn chunks_are_put_together() {
    assert_eq!(decode_chunked(b"0\r\n").unwrap().unwrap(), b"");
    assert_eq!(decode_chunked(b"0\r\ntrailer").unwrap().unwrap(), b"");
    assert_eq!(
        decode_chunked(b"3\r\nabc\r\n 2 ;x\r\nde\r\n+1\r\nf\r\n0;end\r\n")
            .unwrap()
            .unwrap(),
        b"abcdef"
    );
    assert_eq!(
        decode_chunked(b"A\r\n0123456789xy0\r\n").unwrap().unwrap(),
        b"0123456789"
    );
    assert!(decode_chunked(b"").unwrap().is_none());
    assert!(decode_chunked(b"4\r").unwrap().is_none());
    assert!(decode_chunked(b"4\r\nwiki\r").unwrap().is_none());
    assert!(decode_chunked(b"4\r\nwiki\r\n").unwrap().is_none());
}

#[test]
fn bad_chunk_sizes_are_refused() {
    for (raw, detail) in [
        (&b"g\r\n"[..], "bad chunk size: g"),
        (&b"\r\n"[..], "bad chunk size: "),
        (&b"-1;x\r\n"[..], "bad chunk size: -1;x"),
        (
            &b"11111111111111111\r\n"[..],
            "bad chunk size: 11111111111111111",
        ),
        (&b"1\xff\r\n"[..], "chunk size is not UTF-8"),
        (&b"1\r\na\r\nz\r\n"[..], "bad chunk size: z"),
    ] {
        match decode_chunked(raw) {
            Err(Error::Protocol(found)) => assert_eq!(found, detail),
            other => panic!("{other:?}"),
        }
    }
}

#[test]
fn largest_chunk_size_waits_for_its_bytes() {
    assert!(decode_chunked(b"ffffffffffffffff\r\nabc\r\n")
        .unwrap()
        .is_none());
    assert!(decode_chunked(b"fffffffffffffffe\r\n").unwrap().is_none());
}

#[test]
fn copy_of_a_response_is_the_same() {
    let raw = b"HTTP/1.1 404 no\r\nA: 1\r\na: 2\r\nContent-Length: 2\r\n\r\nhi";
    let response = parsed(raw, false, false).unwrap();
    let copy = response.clone();
    assert_eq!(copy.status, 404);
    assert_eq!(copy.headers, response.headers);
    assert_eq!(copy.headers.len(), 3);
    assert_eq!(copy.body, b"hi");
}

#[test]
fn errors_quote_nothing_that_the_peer_sent() {
    let echoes: [&[u8]; 4] = [
        b"GET /secret HTTP/1.1\r\nHost: h\r\n\r\n",
        b"HTTP/1.1 200 OK\r\nContent-Length: /secret\r\n\r\n",
        b"HTTP/1.1 200 OK\r\nTransfer-Encoding: chunked\r\n\r\nGET /secret HTTP/1.1\r\n",
        b"HTTP/1.1 200 OK\r\nTransfer-Encoding: chunked\r\n\r\n/secret\xff\r\n",
    ];
    let details = [
        "bad status line",
        "bad Content-Length",
        "bad chunk size",
        "chunk size is not UTF-8",
    ];
    for (raw, detail) in echoes.iter().zip(details) {
        for at_eof in [false, true] {
            assert_eq!(protocol_error(raw, at_eof), detail);
        }
    }
}
