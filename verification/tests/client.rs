use nago_http::{
    conclude, request_for, timed_out, Error, Request, Response, Target, Targets, Url,
    DEFAULT_TIMEOUT_SECS,
};
use nagoya::reactor::Addr;

#[test]
fn requests_have_thirty_seconds() {
    assert_eq!(DEFAULT_TIMEOUT_SECS, 30);
}

#[test]
fn target_keeps_what_the_lookup_gave() {
    let addrs = vec![Addr::V4([10, 0, 0, 1], 443), Addr::localhost(443)];
    let target = Target::resolved("example.com", 443, true, Ok(addrs.clone())).unwrap();
    assert_eq!(target.host(), "example.com");
    assert_eq!(target.port(), 443);
    assert!(target.is_tls());
    assert_eq!(target.addresses(), addrs.as_slice());
    let copy = target.clone();
    assert_eq!(copy.host(), "example.com");
    assert_eq!(copy.addresses(), addrs.as_slice());
}

#[test]
fn target_without_addresses_is_refused() {
    match Target::resolved("h", 1, false, Ok(vec![])) {
        Err(Error::Resolve(detail)) => assert_eq!(detail, "h has no addresses"),
        other => panic!("{other:?}"),
    }
    match Target::resolved("h", 1, false, Err("getaddrinfo failed (-2)".to_string())) {
        Err(Error::Resolve(detail)) => assert_eq!(detail, "getaddrinfo failed (-2)"),
        other => panic!("{other:?}"),
    }
}

#[test]
fn host_header_brackets_addresses_and_leaves_the_default_port_out() {
    for (host, port, tls, value) in [
        ("example.com", 443, true, "example.com"),
        ("example.com", 80, true, "example.com:80"),
        ("example.com", 80, false, "example.com"),
        ("example.com", 443, false, "example.com:443"),
        ("::1", 443, true, "[::1]"),
        ("::1", 65535, true, "[::1]:65535"),
        ("h", 0, false, "h:0"),
    ] {
        let target = Target::resolved(host, port, tls, Ok(vec![Addr::localhost(port)])).unwrap();
        assert_eq!(target.host_header(), value);
        let scheme = if tls { "https://" } else { "http://" };
        let url = format!("{scheme}{value}/p?q");
        let url = Url::parse(&url).unwrap();
        assert_eq!((url.tls, url.host, url.port), (tls, host, port));
        assert_eq!(url.path_and_query, "/p?q");
    }
}

#[test]
fn host_is_resolved_once() {
    let mut targets = Targets::new();
    let url = Url::parse("https://a.com/x").unwrap();
    let same = Url::parse("https://a.com:443/other?y").unwrap();
    assert!(targets.lookup(&url).is_none());

    let target = targets.record(&url, Ok(vec![Addr::localhost(443)])).unwrap();
    assert_eq!(target.host(), "a.com");
    assert_eq!(targets.lookup(&same).unwrap().addresses(), [Addr::localhost(443)]);

    for other in ["http://a.com:443/", "https://a.com:80/", "https://A.com/", "https://b.com/"] {
        assert!(targets.lookup(&Url::parse(other).unwrap()).is_none());
    }
}

#[test]
fn lookup_concerns_its_own_host_alone() {
    let mut targets = Targets::new();
    let a = Url::parse("http://a/").unwrap();
    let b = Url::parse("http://b/").unwrap();
    targets.record(&a, Ok(vec![Addr::V4([1, 1, 1, 1], 80)])).unwrap();
    targets.record(&b, Ok(vec![Addr::V4([2, 2, 2, 2], 80)])).unwrap();
    targets.record(&a, Ok(vec![Addr::V4([3, 3, 3, 3], 80)])).unwrap();
    assert_eq!(targets.lookup(&a).unwrap().addresses(), [Addr::V4([3, 3, 3, 3], 80)]);
    assert_eq!(targets.lookup(&b).unwrap().addresses(), [Addr::V4([2, 2, 2, 2], 80)]);
    assert_eq!(targets.lookup(&b).unwrap().host(), "b");
}

#[test]
fn failed_lookup_is_not_kept() {
    let mut targets = Targets::new();
    let url = Url::parse("http://a/").unwrap();
    let failed = targets.record(&url, Err("no".to_string()));
    assert_eq!(failed.unwrap_err().message(), "DNS resolution failed: no");
    let empty = targets.record(&url, Ok(vec![]));
    assert_eq!(
        empty.unwrap_err().message(),
        "DNS resolution failed: a has no addresses"
    );
    assert!(targets.lookup(&url).is_none());
}

#[test]
fn request_for_a_url_sends_the_path_as_it_is() {
    let url = Url::parse("https://h/a%20b?c").unwrap();
    let request = request_for("PUT", &url, &[("A", "1"), ("B", "2")], Some(("t/u", b"xyz")));
    let expected = Request::new("PUT", "/a%20b?c")
        .header("A", "1")
        .header("B", "2")
        .body("t/u", b"xyz");
    assert_eq!(request.encode("h"), expected.encode("h"));
    let bare = request_for("GET", &url, &[], None);
    assert_eq!(bare.encode("h"), Request::get("/a%20b?c").encode("h"));
}

#[test]
fn deadline_gives_the_host_and_the_seconds() {
    assert_eq!(
        timed_out("api.example.com", 30).message(),
        "timed out: api.example.com did not answer within 30s"
    );
    let late = conclude("h", 0, None);
    assert_eq!(
        late.unwrap_err().message(),
        "timed out: h did not answer within 0s"
    );
    let response = Response {
        status: 201,
        headers: vec![],
        body: vec![],
    };
    assert_eq!(conclude("h", 1, Some(Ok(response))).unwrap().status, 201);
    assert!(matches!(
        conclude("h", 1, Some(Err(Error::TooLarge))),
        Err(Error::TooLarge)
    ));
}

#[test]
fn errors_read_as_sentences() {
    let detail = || "d".to_string();
    for (error, message) in [
        (Error::Resolve(detail()), "DNS resolution failed: d"),
        (Error::Connect(detail()), "TCP connect failed: d"),
        (Error::Tls(detail()), "TLS failed: d"),
        (Error::Io(detail()), "connection failed: d"),
        (Error::Protocol(detail()), "malformed response: d"),
        (Error::TooLarge, "response exceeded 8388608 bytes"),
        (Error::Timeout(detail()), "timed out: d"),
        (Error::Url(detail()), "unusable URL: d"),
    ] {
        assert_eq!(error.message(), message);
    }
}

#[test]
fn client_errors_hide_the_path() {
    let url = Url::parse("http://h/secret?key").unwrap();
    for error in [
        timed_out(url.host, 30),
        Targets::new().record(&url, Ok(vec![])).unwrap_err(),
        Targets::new().record(&url, Err("no".to_string())).unwrap_err(),
    ] {
        assert!(!error.message().contains('/'));
    }
}

#[test]
fn kept_target_stays_the_same() {
    let mut targets = Targets::new();
    let a = Url::parse("http://a/").unwrap();
    targets.record(&a, Ok(vec![Addr::V4([1, 1, 1, 1], 80)])).unwrap();
    for (url, lookup) in [
        ("https://a/", Ok(vec![Addr::V4([2, 2, 2, 2], 443)])),
        ("http://b/", Ok(vec![Addr::V4([3, 3, 3, 3], 80)])),
        ("http://a/", Ok(vec![])),
        ("http://a/", Err("no".to_string())),
    ] {
        let _ = targets.record(&Url::parse(url).unwrap(), lookup);
        assert_eq!(targets.lookup(&a).unwrap().addresses(), [Addr::V4([1, 1, 1, 1], 80)]);
    }
}
