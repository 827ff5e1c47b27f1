use nago_http::tls::{accept_name, name_of};
use nago_http::{Action, Call, Error, Event, Request, Response, Target, MAX_RESPONSE};
use nagoya::reactor::Addr;

fn target(host: &str, port: u16, tls: bool) -> Target {
    Target::resolved(host, port, tls, Ok(vec![Addr::localhost(port)])).unwrap()
}

fn start(target: &Target, request: &Request<'_>) -> Call {
    let (call, action) = Call::new(target, request);
    assert!(matches!(action, Action::Connect));
    call
}

fn step(call: Call, event: Event) -> (Call, Action) {
    assert!(call.awaits(&event));
    call.step(event)
}

/// A plain call that waits for its response.
fn reading(request: &Request<'_>) -> Call {
    let call = start(&target("h", 80, false), request);
    let (call, action) = step(call, Event::Connected(Ok(())));
    assert!(matches!(action, Action::Write(_)));
    let (call, action) = step(call, Event::Written(Ok(())));
    assert!(matches!(action, Action::Read));
    call
}

fn received(bytes: &[u8]) -> Event {
    Event::Received(Ok(bytes.to_vec()))
}

fn finished(action: Action) -> Result<Response, Error> {
    match action {
        Action::Finish(outcome) => outcome,
        other => panic!("{other:?}"),
    }
}

fn failed(action: Action) -> String {
    finished(action).unwrap_err().message()
}

#[test]
fn plain_call_writes_the_request_once_connected() {
    let request = Request::get("/x").header("A", "b");
    let call = start(&target("localhost", 9000, false), &request);
    assert!(!call.awaits(&Event::Written(Ok(()))));
    assert!(!call.awaits(&Event::Closed));
    let (call, action) = step(call, Event::Connected(Ok(())));
    match action {
        Action::Write(bytes) => assert_eq!(bytes, request.encode("localhost:9000")),
        other => panic!("{other:?}"),
    }
    let (call, action) = step(call, Event::Written(Ok(())));
    assert!(matches!(action, Action::Read));
    let (call, action) = step(call, received(b"HTTP/1.1 200 OK\r\nContent-Length: 2\r\n\r\no"));
    assert!(matches!(action, Action::Read));
    let (call, action) = step(call, received(b"k"));
    assert_eq!(finished(action).unwrap().body, b"ok");
    assert!(!call.awaits(&received(b"")));
}

#[test]
fn tls_call_writes_the_request_after_the_handshake_and_closes() {
    let request = Request::get("/x");
    let call = start(&target("example.com", 443, true), &request);
    let (call, action) = step(call, Event::Connected(Ok(())));
    match action {
        Action::Secure(name) => assert_eq!(name.to_str(), "example.com"),
        other => panic!("{other:?}"),
    }
    let (call, action) = step(call, Event::Secured(Ok(())));
    assert!(matches!(action, Action::Handshake));
    let (call, action) = step(call, Event::Handshaken(Ok(())));
    match action {
        Action::Write(bytes) => assert_eq!(bytes, request.encode("example.com")),
        other => panic!("{other:?}"),
    }
    let (call, _) = step(call, Event::Written(Ok(())));
    let (call, action) = step(call, received(b"HTTP/1.1 204 No\r\n\r\n"));
    assert!(matches!(action, Action::Close));
    let (_, action) = step(call, Event::Closed);
    assert_eq!(finished(action).unwrap().status, 204);
}

#[test]
fn failures_say_where_they_happened() {
    let request = Request::get("/secret");
    let no = || Err("no".to_string());
    let plain = target("h", 80, false);
    let secure = target("h", 443, true);

    let (_, action) = step(start(&plain, &request), Event::Connected(no()));
    assert_eq!(failed(action), "TCP connect failed: h: no");

    let (call, _) = step(start(&secure, &request), Event::Connected(Ok(())));
    let (_, action) = step(call, Event::Secured(no()));
    assert_eq!(failed(action), "TLS failed: no");

    let (call, _) = step(start(&secure, &request), Event::Connected(Ok(())));
    let (call, _) = step(call, Event::Secured(Ok(())));
    let (_, action) = step(call, Event::Handshaken(no()));
    assert_eq!(failed(action), "TLS failed: handshake with h: no");

    let (call, _) = step(start(&plain, &request), Event::Connected(Ok(())));
    let (_, action) = step(call, Event::Written(no()));
    assert_eq!(failed(action), "connection failed: writing to h: no");

    let (_, action) = step(reading(&request), Event::Received(Err("no".to_string())));
    assert_eq!(failed(action), "connection failed: reading from h: no");
}

#[test]
fn failed_exchange_over_tls_is_closed_first() {
    let call = start(&target("h", 443, true), &Request::get("/"));
    let (call, _) = step(call, Event::Connected(Ok(())));
    let (call, _) = step(call, Event::Secured(Ok(())));
    let (call, _) = step(call, Event::Handshaken(Ok(())));
    let (call, action) = step(call, Event::Written(Err("gone".to_string())));
    assert!(matches!(action, Action::Close));
    let (_, action) = step(call, Event::Closed);
    assert_eq!(failed(action), "connection failed: writing to h: gone");
}

#[test]
fn host_that_is_no_server_name_is_refused() {
    let call = start(&target("not a name", 443, true), &Request::get("/"));
    let (_, action) = step(call, Event::Connected(Ok(())));
    assert_eq!(failed(action), "TLS failed: invalid server name not a name");
    for host in ["", "-x.com", "a..b", "x/y", "1.2.3"] {
        match name_of(host) {
            Err(Error::Tls(detail)) => assert_eq!(detail, format!("invalid server name {host}")),
            other => panic!("{other:?}"),
        }
    }
    for (host, name) in [("LocalHost", "LocalHost"), ("127.0.0.1", "127.0.0.1"), ("::0:1", "::1")] {
        assert_eq!(name_of(host).unwrap().to_str(), name);
    }
}

#[test]
fn name_is_accepted_where_there_is_one() {
    let name = name_of("example.com").unwrap();
    assert_eq!(accept_name("other", Some(name.clone())).unwrap(), name);
    assert_eq!(
        accept_name("h h", None).unwrap_err().message(),
        "TLS failed: invalid server name h h"
    );
}

#[test]
fn end_of_the_connection_settles_the_response() {
    let call = reading(&Request::get("/"));
    let (call, _) = step(call, received(b"HTTP/1.1 200 OK\r\n\r\nall of"));
    let (call, _) = step(call, received(b" it"));
    let (_, action) = step(call, received(b""));
    assert_eq!(finished(action).unwrap().body, b"all of it");

    let (_, action) = step(reading(&Request::get("/")), received(b""));
    assert_eq!(
        failed(action),
        "malformed response: connection closed before the headers ended"
    );
}

#[test]
fn response_to_head_has_no_body() {
    let call = reading(&Request::new("head", "/"));
    let (_, action) = step(call, received(b"HTTP/1.1 200 OK\r\nContent-Length: 7\r\n\r\n"));
    assert!(finished(action).unwrap().body.is_empty());
}

#[test]
fn malformed_response_ends_the_call() {
    let (_, action) = step(reading(&Request::get("/")), received(b"what\r\n\r\n"));
    assert_eq!(failed(action), "malformed response: bad status line");
}

#[test]
fn response_past_the_limit_is_refused() {
    let head: &[u8] = b"HTTP/1.1 200 OK\r\n\r\n";
    let mut most = head.to_vec();
    most.resize(MAX_RESPONSE, b'x');
    let (call, action) = step(reading(&Request::get("/")), received(&most));
    assert!(matches!(action, Action::Read));
    let (_, action) = step(call, received(b"y"));
    assert!(matches!(finished(action), Err(Error::TooLarge)));

    // Complete or not, it is too large.
    let mut whole = b"HTTP/1.1 200 OK\r\nContent-Length: 1\r\n\r\nx".to_vec();
    whole.resize(MAX_RESPONSE + 1, b'y');
    let (_, action) = step(reading(&Request::get("/")), received(&whole));
    assert_eq!(failed(action), "response exceeded 8388608 bytes");
}

#[test]
fn cutting_the_reads_makes_no_difference() {
    let raw: &[u8] =
        b"HTTP/1.1 200 OK\r\nTransfer-Encoding: chunked\r\n\r\n4\r\nwiki\r\n5\r\npedia\r\n0\r\n";
    for size in 1..raw.len() {
        let mut call = reading(&Request::get("/"));
        let mut outcome = None;
        for chunk in raw.chunks(size) {
            let (next, action) = step(call, received(chunk));
            call = next;
            if let Action::Finish(finished) = action {
                outcome = Some(finished);
                break;
            }
        }
        assert_eq!(outcome.unwrap().unwrap().body, b"wikipedia");
    }
}

#[test]
fn outcome_hides_the_request() {
    let outcome = |request: &Request<'_>| {
        let call = reading(request);
        let (_, action) = step(call, Event::Received(Err("reset".to_string())));
        failed(action)
    };
    assert_eq!(
        outcome(&Request::get("/bot0:x/getMe")),
        outcome(&Request::post("/other").body("a", b"b"))
    );
}

#[test]
fn error_hides_the_path_that_the_peer_echoes() {
    let path = "/bot0:x/getMe";
    for tls in [false, true] {
        let call = start(&target("api.example.com", 80, tls), &Request::get(path));
        let (mut call, mut action) = step(call, Event::Connected(Ok(())));
        if tls {
            call = step(call, Event::Secured(Ok(()))).0;
            (call, action) = step(call, Event::Handshaken(Ok(())));
        }
        let request = match action {
            Action::Write(bytes) => bytes,
            other => panic!("{other:?}"),
        };
        assert!(request.starts_with(b"GET /bot0:x/getMe HTTP/1.1\r\n"));
        let (call, _) = step(call, Event::Written(Ok(())));
        let (mut call, mut action) = step(call, received(&request));
        if tls {
            (call, action) = step(call, Event::Closed);
        }
        assert!(!call.awaits(&Event::Closed));
        let message = failed(action);
        assert_eq!(message, "malformed response: bad status line");
        assert!(!message.contains(path));
    }

    let call = reading(&Request::get(path));
    let (_, action) = step(call, received(b"GET /bot0:x/getMe HTTP/1.1\r\n\r\n"));
    assert!(!failed(action).contains(path));
}

#[test]
fn reads_past_the_limit_are_refused_however_they_are_cut() {
    let mut whole = b"HTTP/1.1 200 OK\r\n\r\n".to_vec();
    whole.resize(MAX_RESPONSE + 3, b'x');
    for size in [MAX_RESPONSE / 2, MAX_RESPONSE, MAX_RESPONSE + 3] {
        let mut call = reading(&Request::get("/"));
        let mut message = None;
        for chunk in whole.chunks(size) {
            let (next, action) = step(call, received(chunk));
            call = next;
            if let Action::Finish(outcome) = action {
                message = Some(outcome.unwrap_err().message());
                break;
            }
        }
        assert_eq!(message.unwrap(), "response exceeded 8388608 bytes");
    }
}
