use nago_http::{parse_port, Error, Url};

fn refused(url: &str) -> String {
    match Url::parse(url) {
        Err(Error::Url(detail)) => detail,
        other => panic!("{other:?}"),
    }
}

fn parts(url: &str) -> (bool, &str, u16, &str) {
    let url = Url::parse(url).unwrap();
    (url.tls, url.host, url.port, url.path_and_query)
}

#[test]
fn url_gives_scheme_host_port_and_path() {
    assert_eq!(
        parts("https://api.example.com/v1/thing?a=b/c?d"),
        (true, "api.example.com", 443, "/v1/thing?a=b/c?d")
    );
    assert_eq!(parts("http://localhost"), (false, "localhost", 80, "/"));
    assert_eq!(parts("http://localhost:9000/"), (false, "localhost", 9000, "/"));
    assert_eq!(parts("https://h:0443/x@y:z"), (true, "h", 443, "/x@y:z"));
    assert_eq!(parts("https://a:b:7"), (true, "a:b", 7, "/"));
    assert_eq!(parts("https://h\u{e9}/\u{fc}"), (true, "h\u{e9}", 443, "/\u{fc}"));
}

#[test]
fn url_takes_an_address_in_brackets() {
    assert_eq!(parts("https://[::1]/x"), (true, "::1", 443, "/x"));
    assert_eq!(parts("http://[fe80::1]:8080"), (false, "fe80::1", 8080, "/"));
}

#[test]
fn url_equality_compares_the_parts() {
    assert_eq!(
        Url::parse("http://h").unwrap(),
        Url {
            tls: false,
            host: "h",
            port: 80,
            path_and_query: "/",
        }
    );
    let url = Url::parse("https://h:1/p").unwrap();
    for other in ["http://h:1/p", "https://i:1/p", "https://h:2/p", "https://h:1/q"] {
        assert_ne!(url, Url::parse(other).unwrap());
    }
}

#[test]
fn url_without_a_known_scheme_is_refused() {
    for url in ["", "h", "ftp://h/", "HTTPS://h/", "https:/h", "http:/", "//h"] {
        assert_eq!(refused(url), "the scheme must be https:// or http://");
    }
}

#[test]
fn url_with_a_query_and_no_path_is_refused() {
    assert_eq!(
        refused("https://h?key=secret"),
        "a query needs a path before it: write /?"
    );
}

#[test]
fn url_with_credentials_is_refused() {
    assert_eq!(
        refused("https://user:pass@h/"),
        "credentials in the URL are not supported"
    );
    assert_eq!(refused("https://@?x"), "a query needs a path before it: write /?");
}

#[test]
fn url_without_a_host_is_refused() {
    for url in ["https://", "https:///x", "http://:80/", "https://[]", "https://[]:1/"] {
        assert_eq!(refused(url), "the URL has no host");
    }
}

#[test]
fn url_with_a_broken_bracket_is_refused() {
    assert_eq!(refused("https://[::1/x"), "unclosed [ in the host");
    assert_eq!(refused("https://[::1]x:1/secret"), "unexpected text after [::1]");
}

#[test]
fn url_with_a_bad_port_is_refused() {
    for port in ["", "x", "65536", "-1", "1 ", "99999999999999999999"] {
        assert_eq!(refused(&format!("https://h:{port}/s")), format!("bad port {port}"));
        assert_eq!(
            refused(&format!("https://[h]:{port}/s")),
            format!("bad port {port}")
        );
        match parse_port(port) {
            Err(Error::Url(detail)) => assert_eq!(detail, format!("bad port {port}")),
            other => panic!("{other:?}"),
        }
    }
    assert_eq!(parse_port("65535").unwrap(), 65535);
    assert_eq!(parse_port("+0").unwrap(), 0);
}

#[test]
fn url_errors_hide_the_path() {
    for before in ["https://h:x", "https://a@b", "http://", "https://[x", "http://[a]b"] {
        assert_eq!(
            refused(&format!("{before}/bot123:SECRET-REDACTED/getMe?token=t")),
            refused(&format!("{before}/other"))
        );
        assert_eq!(refused(&format!("{before}?a")), refused(&format!("{before}?b")));
    }
}

#[test]
fn url_errors_hold_nothing_of_the_path() {
    for before in ["https://h:x", "https://a@b", "http://", "https://[x", "http://[a]b"] {
        let detail = refused(&format!("{before}/secret?key"));
        assert!(!detail.contains('/') && !detail.contains('?'), "{detail}");
    }
}
