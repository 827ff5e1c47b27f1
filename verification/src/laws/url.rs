//! What holds of URLs.

use vstd::prelude::*;

use crate::error::ErrorView;
use crate::number::{decimal, lemma_decimal_holds_digits, lemma_number_text_reads};
use crate::sequence::{
    first_index, is_first, is_last, last_index, lemma_first_index, lemma_last_index,
    lemma_occurs_between, occurs, occurs_at, rsplit_once, split_once, starts_with,
};
use crate::target::TargetView;
use crate::url::{
    authority_len, default_port, host_and_port, lemma_authority_len, url_after_scheme, url_in,
    UrlView,
};

verus! {

/// What a URL starts with.
pub open spec fn scheme(tls: bool) -> Seq<char> {
    if tls {
        "https://"@
    } else {
        "http://"@
    }
}

/// The part of a URL before its path and query; nothing where the scheme is not one of the two.
pub open spec fn before_path(text: Seq<char>) -> Seq<char> {
    if starts_with(text, "https://"@) {
        text.take(8 + authority_len(text.skip(8)) as int)
    } else if starts_with(text, "http://"@) {
        text.take(7 + authority_len(text.skip(7)) as int)
    } else {
        Seq::empty()
    }
}

/// The path and query of a URL: what follows the part before them.
pub open spec fn path_in(text: Seq<char>) -> Seq<char> {
    text.skip(before_path(text).len() as int)
}

/// No more characters stand before the first `/` or `?` than there are, and one of the two follows
/// them where more do.
proof fn lemma_authority_end(text: Seq<char>)
    ensures
        authority_len(text) <= text.len(),
        authority_len(text) < text.len() ==> text[authority_len(text) as int] == '/'
            || text[authority_len(text) as int] == '?',
    decreases text.len(),
{
    if text.len() > 0 && text[0] != '/' && text[0] != '?' {
        lemma_authority_end(text.drop_first());
        if authority_len(text) < text.len() {
            assert(text.drop_first()[authority_len(text.drop_first()) as int]
                == text[authority_len(text) as int]);
        }
    }
}

/// A URL with a known scheme is that scheme, the part up to the path, and the path.
proof fn lemma_url_parts(text: Seq<char>, tls: bool)
    requires
        starts_with(text, scheme(tls)),
        !tls ==> !starts_with(text, "https://"@),
    ensures
        ({
            let rest = text.skip(scheme(tls).len() as int);
            let authority = rest.take(authority_len(rest) as int);
            &&& authority_len(rest) <= rest.len()
            &&& before_path(text) == scheme(tls) + authority
            &&& path_in(text) == rest.skip(authority_len(rest) as int)
            &&& url_in(text) == url_after_scheme(tls, rest)
            &&& text == before_path(text) + path_in(text)
        }),
{
    reveal_strlit("https://");
    reveal_strlit("http://");
    let n = scheme(tls).len() as int;
    let rest = text.skip(n);
    lemma_authority_end(rest);
    let authority = rest.take(authority_len(rest) as int);
    assert(text.subrange(0, n) == scheme(tls));
    assert(before_path(text) =~= text.subrange(0, n) + authority);
    assert(path_in(text) =~= rest.skip(authority_len(rest) as int));
    assert(text =~= before_path(text) + path_in(text));
}

/// The part before the path tells the scheme.
proof fn lemma_scheme_shows(text: Seq<char>)
    ensures
        starts_with(text, "https://"@) ==> before_path(text).len() >= 8 && before_path(text)[4]
            == 's',
        !starts_with(text, "https://"@) && starts_with(text, "http://"@) ==> before_path(text).len()
            >= 7 && before_path(text)[4] == ':',
{
    reveal_strlit("https://");
    reveal_strlit("http://");
    if starts_with(text, "https://"@) {
        lemma_url_parts(text, true);
    } else if starts_with(text, "http://"@) {
        lemma_url_parts(text, false);
    }
}

/// The path and query decide nothing but themselves: two URLs that differ in nothing before them,
/// and that start them alike, are refused with the same error, or stand for the same host and port.
pub proof fn law_url_path_decides_nothing_else(first: Seq<char>, second: Seq<char>)
    requires
        before_path(first) == before_path(second),
        starts_with(path_in(first), seq!['?']) == starts_with(path_in(second), seq!['?']),
    ensures
        match (url_in(first), url_in(second)) {
            (Ok(a), Ok(b)) => a.tls == b.tls && a.host == b.host && a.port == b.port,
            (Err(a), Err(b)) => a == b,
            _ => false,
        },
{
    lemma_scheme_shows(first);
    lemma_scheme_shows(second);
    if starts_with(first, "https://"@) {
        lemma_same_authority(first, second, true);
    } else if starts_with(first, "http://"@) {
        lemma_same_authority(first, second, false);
    }
}

/// The part of a URL before its path is all of that part.
proof fn lemma_before_path_alone(text: Seq<char>)
    ensures
        before_path(before_path(text)) == before_path(text),
        path_in(before_path(text)).len() == 0,
{
    reveal_strlit("https://");
    reveal_strlit("http://");
    let front = before_path(text);
    if starts_with(text, "https://"@) || starts_with(text, "http://"@) {
        let tls = starts_with(text, "https://"@);
        lemma_url_parts(text, tls);
        let n = scheme(tls).len() as int;
        let rest = text.skip(n);
        let authority = rest.take(authority_len(rest) as int);
        lemma_no_path_in_authority(rest);
        lemma_authority_len(authority, Seq::empty());
        assert(authority + Seq::<char>::empty() =~= authority);
        assert(front.subrange(0, n) =~= scheme(tls));
        assert(front.skip(n) =~= authority);
        if !tls && front.len() >= 8 {
            assert(front.subrange(0, 8)[4] == scheme(tls)[4]);
        }
        lemma_url_parts(front, tls);
        assert(front =~= scheme(tls) + authority);
    } else {
        assert(front.len() == 0);
    }
}

/// What stands before the first `/` or `?` holds neither.
proof fn lemma_no_path_in_authority(text: Seq<char>)
    ensures
        forall|i: int|
            0 <= i < authority_len(text) && i < text.len() ==> #[trigger] text[i] != '/' && text[i]
                != '?',
    decreases text.len(),
{
    if text.len() > 0 && text[0] != '/' && text[0] != '?' {
        lemma_no_path_in_authority(text.drop_first());
        assert forall|i: int| 0 <= i < authority_len(text) && i < text.len() implies #[trigger]
            text[i] != '/' && text[i] != '?' by {
            if i > 0 {
                assert(text.drop_first()[i - 1] == text[i]);
            }
        }
    }
}

/// An authority holds neither a slash nor a question mark.
proof fn lemma_authority_holds_no_path(rest: Seq<char>)
    ensures
        !rest.take(authority_len(rest) as int).contains('/'),
        !rest.take(authority_len(rest) as int).contains('?'),
{
    let authority = rest.take(authority_len(rest) as int);
    lemma_authority_end(rest);
    lemma_no_path_in_authority(rest);
    assert forall|i: int| 0 <= i < authority.len() implies #[trigger] authority[i] != '/'
        && authority[i] != '?' by {
        assert(authority[i] == rest[i]);
    }
}

/// Errors never carry the path or query: a URL is refused as the part before them is, or because it
/// has a query and no path.
pub proof fn law_url_error_hides_path(text: Seq<char>)
    ensures
        url_in(text) matches Err(error) ==> {
            ||| error == ErrorView::Url("a query needs a path before it: write /?"@)
            ||| url_in(before_path(text)) == Err::<UrlView, ErrorView>(error)
        },
{
    lemma_before_path_alone(text);
    if starts_with(path_in(text), seq!['?']) {
        if starts_with(text, "https://"@) {
            lemma_url_parts(text, true);
        } else if starts_with(text, "http://"@) {
            lemma_url_parts(text, false);
        } else {
            lemma_scheme_shows(before_path(text));
        }
    } else {
        law_url_path_decides_nothing_else(text, before_path(text));
    }
}

/// The host in an authority holds nothing that the authority does not.
proof fn lemma_host_holds_no_more(authority: Seq<char>, tls: bool, c: char)
    requires
        !authority.contains(c),
    ensures
        host_and_port(authority, tls) matches Ok((host, _)) ==> !host.contains(c),
{
    if starts_with(authority, seq!['[']) {
        assert(!authority.skip(1).contains(c));
        lemma_split_holds_no_more(authority.skip(1), seq![']'], c);
    } else {
        lemma_split_holds_no_more(authority, seq![':'], c);
    }
}

/// What is said against an authority without a slash or a question mark holds none.
proof fn lemma_authority_error_holds_no_more(authority: Seq<char>, tls: bool, c: char)
    requires
        c == '/' || c == '?',
        !authority.contains(c),
    ensures
        host_and_port(authority, tls) matches Err(error) ==> !error.message().contains(c),
{
    reveal_strlit("unusable URL: ");
    reveal_strlit("bad port ");
    reveal_strlit("unexpected text after [");
    reveal_strlit("]");
    reveal_strlit("unclosed [ in the host");
    if starts_with(authority, seq!['[']) {
        let bracketed = authority.skip(1);
        assert(!bracketed.contains(c));
        lemma_split_holds_no_more(bracketed, seq![']'], c);
        if let Some((_, after)) = split_once(bracketed, seq![']']) {
            assert(starts_with(after, seq![':']) ==> !after.skip(1).contains(c));
        }
    } else {
        lemma_split_holds_no_more(authority, seq![':'], c);
    }
}

/// The sides of a split hold nothing that the whole does not.
proof fn lemma_split_holds_no_more(whole: Seq<char>, separator: Seq<char>, c: char)
    requires
        !whole.contains(c),
    ensures
        split_once(whole, separator) matches Some((before, after)) ==> !before.contains(c)
            && !after.contains(c),
        rsplit_once(whole, separator) matches Some((before, after)) ==> !before.contains(c)
            && !after.contains(c),
{
    if let Some(at) = first_index(whole, separator) {
        assert(is_first(whole, separator, at));
        assert(!whole.take(at).contains(c));
        assert(!whole.skip(at + separator.len()).contains(c));
    }
    if let Some(at) = last_index(whole, separator) {
        assert(is_last(whole, separator, at));
        assert(!whole.take(at).contains(c));
        assert(!whole.skip(at + separator.len()).contains(c));
    }
}

/// The error of a URL is one of two fixed texts, or holds neither a slash nor a question mark, and
/// so nothing of a path or query.
pub proof fn law_url_error_holds_no_path(text: Seq<char>)
    ensures
        url_in(text) matches Err(error) ==> {
            ||| error == ErrorView::Url("the scheme must be https:// or http://"@)
            ||| error == ErrorView::Url("a query needs a path before it: write /?"@)
            ||| !error.message().contains('/') && !error.message().contains('?')
        },
{
    if starts_with(text, "https://"@) || starts_with(text, "http://"@) {
        let tls = starts_with(text, "https://"@);
        lemma_url_parts(text, tls);
        let rest = text.skip(scheme(tls).len() as int);
        let authority = rest.take(authority_len(rest) as int);
        lemma_authority_holds_no_path(rest);
        lemma_authority_error_holds_no_more(authority, tls, '/');
        lemma_authority_error_holds_no_more(authority, tls, '?');
        lemma_fixed_errors_hold_no_path();
    }
}

/// Two of the texts that are said against a URL.
proof fn lemma_fixed_errors_hold_no_path()
    ensures
        !ErrorView::Url("the URL has no host"@).message().contains('/'),
        !ErrorView::Url("the URL has no host"@).message().contains('?'),
        !ErrorView::Url("credentials in the URL are not supported"@).message().contains('/'),
        !ErrorView::Url("credentials in the URL are not supported"@).message().contains('?'),
{
    reveal_strlit("unusable URL: ");
    reveal_strlit("the URL has no host");
    reveal_strlit("credentials in the URL are not supported");
}

/// Two URLs that are alike up to the path have the same authority.
proof fn lemma_same_authority(first: Seq<char>, second: Seq<char>, tls: bool)
    requires
        before_path(first) == before_path(second),
        starts_with(first, scheme(tls)) && starts_with(second, scheme(tls)),
        !tls ==> !starts_with(first, "https://"@) && !starts_with(second, "https://"@),
    ensures
        ({
            let a = first.skip(scheme(tls).len() as int);
            let b = second.skip(scheme(tls).len() as int);
            &&& a.take(authority_len(a) as int) == b.take(authority_len(b) as int)
            &&& url_in(first) == url_after_scheme(tls, a)
            &&& url_in(second) == url_after_scheme(tls, b)
            &&& path_in(first) == a.skip(authority_len(a) as int)
            &&& path_in(second) == b.skip(authority_len(b) as int)
        }),
{
    lemma_url_parts(first, tls);
    lemma_url_parts(second, tls);
    let n = scheme(tls).len() as int;
    let a = first.skip(n);
    let b = second.skip(n);
    assert(a.take(authority_len(a) as int) =~= before_path(first).skip(n));
    assert(b.take(authority_len(b) as int) =~= before_path(second).skip(n));
}

/// What a URL that is not refused stands for: TLS exactly where it says `https://`, plain TCP where
/// it says `http://`, a host that is not empty and holds nothing of the path and no credentials, and
/// a path and query that are sent as the URL has them, `/` where it has none.
pub proof fn law_url_says_what_it_has(text: Seq<char>)
    ensures
        url_in(text) matches Ok(url) ==> {
            &&& starts_with(text, scheme(url.tls))
            &&& url.tls == starts_with(text, "https://"@)
            &&& url.host.len() > 0
            &&& !url.host.contains('/')
            &&& !url.host.contains('?')
            &&& !url.host.contains('@')
            &&& url.path_and_query == if path_in(text).len() == 0 {
                seq!['/']
            } else {
                path_in(text)
            }
            &&& url.path_and_query[0] == '/'
        },
{
    reveal_strlit("/");
    assert("/"@ =~= seq!['/']);
    if url_in(text) is Ok {
        let tls = starts_with(text, "https://"@);
        lemma_url_parts(text, tls);
        let rest = text.skip(scheme(tls).len() as int);
        lemma_authority_end(rest);
        let authority = rest.take(authority_len(rest) as int);
        lemma_authority_holds_no_path(rest);
        lemma_host_holds_no_more(authority, tls, '/');
        lemma_host_holds_no_more(authority, tls, '?');
        lemma_char_occurs(authority, '@');
        lemma_host_holds_no_more(authority, tls, '@');
        let path = path_in(text);
        if path.len() > 0 {
            assert(path[0] == rest[authority_len(rest) as int]);
            assert(path.subrange(0, 1) =~= seq![path[0]]);
        }
    }
}

/// A character stands in a text where the text holds it.
pub proof fn lemma_char_occurs(text: Seq<char>, c: char)
    ensures
        occurs(text, seq![c]) == text.contains(c),
        forall|at: int|
            occurs_at(text, seq![c], at) == (0 <= at < text.len() && #[trigger] text[at] == c),
{
    assert forall|at: int|
        occurs_at(text, seq![c], at) == (0 <= at < text.len() && #[trigger] text[at] == c) by {
        if 0 <= at < text.len() {
            assert(text.subrange(at, at + 1) =~= seq![text[at]]);
            assert(text.subrange(at, at + 1)[0] == text[at]);
        }
    }
    if text.contains(c) {
        let at = choose|at: int| 0 <= at < text.len() && text[at] == c;
        assert(occurs_at(text, seq![c], at));
    }
    if occurs(text, seq![c]) {
        let at = choose|at: int| occurs_at(text, seq![c], at);
        assert(text[at] == c);
    }
}

/// `host:port` is read as that host and that port.
proof fn lemma_host_with_port(host: Seq<char>, port: u16, tls: bool)
    requires
        host.len() > 0,
        host[0] != '[',
    ensures
        host_and_port(host + ":"@ + decimal(port as nat), tls) == Ok::<
            (Seq<char>, u16),
            ErrorView,
        >((host, port)),
{
    reveal_strlit(":");
    let colon = seq![':'];
    assert(":"@ =~= colon);
    let digits = decimal(port as nat);
    let text = host + colon + digits;
    lemma_char_occurs(text, '[');
    lemma_char_occurs(text, ':');
    assert(text[0] == host[0]);
    lemma_decimal_holds_digits(port as nat, ':');
    lemma_occurs_between(host, colon, digits);
    assert forall|later: int| host.len() < later implies !occurs_at(text, colon, later) by {
        if occurs_at(text, colon, later) {
            assert(text[later] == ':');
            assert(digits[later - host.len() - 1] == ':');
        }
    }
    lemma_last_index(text, colon, host.len() as int);
    lemma_number_text_reads(port as nat, 10, u16::MAX as nat);
}

/// A host alone is read as that host, at the scheme's port.
proof fn lemma_host_alone(host: Seq<char>, tls: bool)
    requires
        host.len() > 0,
        host[0] != '[',
        !host.contains(':'),
    ensures
        host_and_port(host, tls) == Ok::<(Seq<char>, u16), ErrorView>((host, default_port(tls))),
{
    lemma_char_occurs(host, '[');
    lemma_char_occurs(host, ':');
}

/// `[address]` and `[address]:port` are read as that address, at the scheme's port or at that one.
proof fn lemma_bracketed_host(host: Seq<char>, port: u16, tls: bool)
    requires
        !host.contains(']'),
    ensures
        host_and_port("["@ + host + "]"@, tls) == Ok::<(Seq<char>, u16), ErrorView>(
            (host, default_port(tls)),
        ),
        host_and_port("["@ + host + "]"@ + ":"@ + decimal(port as nat), tls) == Ok::<
            (Seq<char>, u16),
            ErrorView,
        >((host, port)),
{
    reveal_strlit("[");
    reveal_strlit("]");
    reveal_strlit(":");
    assert("["@ =~= seq!['[']);
    assert("]"@ =~= seq![']']);
    assert(":"@ =~= seq![':']);
    let digits = decimal(port as nat);
    lemma_closed_bracket(host, Seq::empty());
    assert(seq!['['] + host + seq![']'] =~= seq!['['] + host + seq![']'] + Seq::<char>::empty());
    lemma_char_occurs(Seq::<char>::empty(), ':');
    let after = seq![':'] + digits;
    lemma_closed_bracket(host, after);
    assert(seq!['['] + host + seq![']'] + seq![':'] + digits =~= seq!['['] + host + seq![']']
        + after);
    lemma_char_occurs(after, ':');
    assert(after[0] == ':');
    assert(after.skip(1) =~= digits);
    lemma_number_text_reads(port as nat, 10, u16::MAX as nat);
}

/// A bracket is closed where the first closing bracket stands.
proof fn lemma_closed_bracket(host: Seq<char>, after: Seq<char>)
    requires
        !host.contains(']'),
    ensures
        ({
            let text = seq!['['] + host + seq![']'] + after;
            &&& starts_with(text, seq!['['])
            &&& split_once(text.skip(1), seq![']']) == Some((host, after))
        }),
{
    let text = seq!['['] + host + seq![']'] + after;
    lemma_char_occurs(text, '[');
    assert(text[0] == '[');
    let inner = host + seq![']'] + after;
    assert(text.skip(1) =~= inner);
    lemma_char_occurs(inner, ']');
    lemma_occurs_between(host, seq![']'], after);
    assert forall|earlier: int| 0 <= earlier < host.len() implies !occurs_at(
        inner,
        seq![']'],
        earlier,
    ) by {
        if occurs_at(inner, seq![']'], earlier) {
            assert(inner[earlier] == ']');
            assert(host[earlier] == ']');
        }
    }
    lemma_first_index(inner, seq![']'], host.len() as int);
}

/// The `Host` header names the host and the port of the target, and nothing else: it is read as
/// them in a URL of the same scheme.
pub proof fn law_host_header_names_target(target: TargetView)
    requires
        target.host.len() > 0,
        target.host.contains(':') ==> !target.host.contains(']'),
        !target.host.contains(':') ==> target.host[0] != '[',
    ensures
        host_and_port(target.host_header(), target.tls) == Ok::<(Seq<char>, u16), ErrorView>(
            (target.host, target.port),
        ),
{
    lemma_char_occurs(target.host, ':');
    if target.host.contains(':') {
        lemma_bracketed_host(target.host, target.port, target.tls);
    } else if target.port == default_port(target.tls) {
        lemma_host_alone(target.host, target.tls);
    } else {
        lemma_host_with_port(target.host, target.port, target.tls);
    }
}

/// An authority that a URL can hold: none of the characters that end it, and no credentials.
pub open spec fn is_authority(text: Seq<char>) -> bool {
    !text.contains('/') && !text.contains('?') && !text.contains('@')
}

/// A URL made of a scheme, a host with its port as a `Host` header gives them, and a path is read as
/// just those.
pub proof fn law_url_reads_back(target: TargetView, path: Seq<char>)
    requires
        target.host.len() > 0,
        target.host.contains(':') ==> !target.host.contains(']'),
        !target.host.contains(':') ==> target.host[0] != '[',
        is_authority(target.host),
        path.len() > 0,
        path[0] == '/',
    ensures
        url_in(scheme(target.tls) + target.host_header() + path) == Ok::<UrlView, ErrorView>(
            UrlView {
                tls: target.tls,
                host: target.host,
                port: target.port,
                path_and_query: path,
            },
        ),
{
    law_host_header_names_target(target);
    let authority = target.host_header();
    lemma_header_is_authority(target);
    lemma_url_of_parts(target.tls, authority, path);
}

/// The `Host` header of a host that a URL can hold is one itself.
proof fn lemma_header_is_authority(target: TargetView)
    requires
        is_authority(target.host),
    ensures
        is_authority(target.host_header()),
{
    reveal_strlit("[");
    reveal_strlit("]");
    reveal_strlit(":");
    let digits = decimal(target.port as nat);
    lemma_decimal_holds_digits(target.port as nat, '/');
    lemma_decimal_holds_digits(target.port as nat, '?');
    lemma_decimal_holds_digits(target.port as nat, '@');
    let bracketed = "["@ + target.host + "]"@;
    assert(is_authority(bracketed));
    assert(is_authority(bracketed + ":"@ + digits));
    assert(is_authority(target.host + ":"@ + digits));
}

/// A URL made of a scheme, an authority and a path is read by its authority.
proof fn lemma_url_of_parts(tls: bool, authority: Seq<char>, path: Seq<char>)
    requires
        is_authority(authority),
        path.len() > 0,
        path[0] == '/',
    ensures
        url_in(scheme(tls) + authority + path) == match host_and_port(authority, tls) {
            Ok((host, port)) => if host.len() == 0 {
                Err(ErrorView::Url("the URL has no host"@))
            } else {
                Ok(UrlView { tls, host, port, path_and_query: path })
            },
            Err(error) => Err(error),
        },
{
    reveal_strlit("https://");
    reveal_strlit("http://");
    let text = scheme(tls) + authority + path;
    let n = scheme(tls).len() as int;
    assert(text.subrange(0, n) =~= scheme(tls));
    if !tls {
        assert(text.subrange(0, 8)[4] == ':');
    }
    let rest = authority + path;
    assert(text.skip(n) =~= rest);
    lemma_authority_len(authority, path);
    assert(rest.take(authority.len() as int) =~= authority);
    assert(rest.skip(authority.len() as int) =~= path);
    lemma_char_occurs(path, '?');
    lemma_char_occurs(authority, '@');
}

} // verus!
