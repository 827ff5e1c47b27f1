//! What a URL says, part by part.

use vstd::prelude::*;

use crate::error::ErrorView;
use crate::laws::number::{
    law_decimal_counts, law_no_number_is_not_read, law_number_is_read, stands_for,
};
use crate::laws::sequence::{
    law_part_is_found_where_it_stands, lemma_no_split_without_element, lemma_rsplit_at_element,
    lemma_split_at_element, stands,
};
use crate::laws::url::lemma_char_occurs;
use crate::number::decimal;
use crate::sequence::starts_with;
use crate::target::TargetView;
use crate::url::{host_and_port, lemma_authority_len, port_in, url_after_scheme, url_in, UrlView};

verus! {

/// What is written before the host.
pub open spec fn prefix(tls: bool) -> Seq<char> {
    if tls {
        seq!['h', 't', 't', 'p', 's', ':', '/', '/']
    } else {
        seq!['h', 't', 't', 'p', ':', '/', '/']
    }
}

/// The port where none is written.
pub open spec fn usual_port(tls: bool) -> u16 {
    if tls {
        443
    } else {
        80
    }
}

/// The part of a URL after the prefix and before the path: it holds nothing that starts a path or a
/// query, and nothing that marks credentials.
pub open spec fn is_clean(text: Seq<char>) -> bool {
    !text.contains('/') && !text.contains('?') && !text.contains('@')
}

/// A path and query, or nothing.
pub open spec fn is_tail(text: Seq<char>) -> bool {
    text.len() > 0 ==> text[0] == '/'
}

/// The text is this port.
pub open spec fn is_port(text: Seq<char>, port: u16) -> bool {
    stands_for(text, 10, port as nat)
}

/// The URL is refused.
pub open spec fn refused(detail: Seq<char>) -> Result<UrlView, ErrorView> {
    Err(ErrorView::Url(detail))
}

/// The URL is taken as these parts, the path and query as they are and a slash where there are none;
/// but not without a host.
pub open spec fn taken(tls: bool, host: Seq<char>, port: u16, tail: Seq<char>) -> Result<
    UrlView,
    ErrorView,
> {
    if host.len() == 0 {
        refused("the URL has no host"@)
    } else {
        Ok(
            UrlView {
                tls,
                host,
                port,
                path_and_query: if tail.len() == 0 {
                    seq!['/']
                } else {
                    tail
                },
            },
        )
    }
}

/// A text without either prefix is refused.
pub proof fn law_other_schemes_are_refused(text: Seq<char>)
    requires
        !stands(text, prefix(true), 0),
        !stands(text, prefix(false), 0),
    ensures
        url_in(text) == refused("the scheme must be https:// or http://"@),
{
    reveal_strlit("https://");
    reveal_strlit("http://");
    assert("https://"@ =~= prefix(true));
    assert("http://"@ =~= prefix(false));
    law_part_is_found_where_it_stands(text, prefix(true));
    law_part_is_found_where_it_stands(text, prefix(false));
}

/// What follows the prefix is read by itself.
proof fn lemma_after_prefix(tls: bool, rest: Seq<char>)
    ensures
        url_in(prefix(tls) + rest) == url_after_scheme(tls, rest),
{
    reveal_strlit("https://");
    reveal_strlit("http://");
    assert("https://"@ =~= prefix(true));
    assert("http://"@ =~= prefix(false));
    let text = prefix(tls) + rest;
    law_part_is_found_where_it_stands(text, prefix(true));
    law_part_is_found_where_it_stands(text, prefix(false));
    assert(stands(text, prefix(tls), 0));
    if !tls {
        if stands(text, prefix(true), 0) {
            assert(text[4] == prefix(true)[4]);
        }
    }
    assert(text.skip(prefix(tls).len() as int) =~= rest);
}

/// The part before the path and the path are read by themselves.
proof fn lemma_parts(tls: bool, authority: Seq<char>, tail: Seq<char>)
    requires
        is_clean(authority),
        is_tail(tail),
    ensures
        url_in(prefix(tls) + authority + tail) == match host_and_port(authority, tls) {
            Ok((host, port)) => taken(tls, host, port, tail),
            Err(error) => Err(error),
        },
{
    reveal_strlit("/");
    let rest = authority + tail;
    assert(prefix(tls) + authority + tail =~= prefix(tls) + rest);
    lemma_after_prefix(tls, rest);
    lemma_authority_len(authority, tail);
    assert(rest.take(authority.len() as int) =~= authority);
    assert(rest.skip(authority.len() as int) =~= tail);
    lemma_char_occurs(tail, '?');
    lemma_char_occurs(authority, '@');
    assert("/"@ =~= seq!['/']);
}

/// The port that a text is.
proof fn lemma_port(text: Seq<char>, port: u16)
    requires
        is_port(text, port),
    ensures
        port_in(text) == Ok::<u16, ErrorView>(port),
{
    law_number_is_read(text, 10, u16::MAX as nat, port as nat);
}

/// A text that is no port.
proof fn lemma_no_port(text: Seq<char>)
    requires
        forall|port: u16| !is_port(text, port),
    ensures
        port_in(text) == Err::<u16, ErrorView>(ErrorView::Url("bad port "@ + text)),
{
    law_no_number_is_not_read(text, 10, u16::MAX as nat);
    assert forall|number: nat| number <= u16::MAX implies !stands_for(text, 10, number) by {
        assert(!is_port(text, number as u16));
    }
}

/// A query without a path before it is refused, whatever stands before it.
pub proof fn law_bare_query_is_refused(tls: bool, authority: Seq<char>, query: Seq<char>)
    requires
        !authority.contains('/'),
        !authority.contains('?'),
    ensures
        url_in(prefix(tls) + authority + (seq!['?'] + query)) == refused(
            "a query needs a path before it: write /?"@,
        ),
{
    let tail = seq!['?'] + query;
    let rest = authority + tail;
    assert(prefix(tls) + authority + tail =~= prefix(tls) + rest);
    lemma_after_prefix(tls, rest);
    lemma_authority_len(authority, tail);
    assert(rest.skip(authority.len() as int) =~= tail);
    lemma_char_occurs(tail, '?');
    assert(tail[0] == '?');
}

/// Credentials are refused, whatever else stands before the path.
pub proof fn law_credentials_are_refused(tls: bool, authority: Seq<char>, tail: Seq<char>)
    requires
        !authority.contains('/'),
        !authority.contains('?'),
        authority.contains('@'),
        is_tail(tail),
    ensures
        url_in(prefix(tls) + authority + tail) == refused(
            "credentials in the URL are not supported"@,
        ),
{
    let rest = authority + tail;
    assert(prefix(tls) + authority + tail =~= prefix(tls) + rest);
    lemma_after_prefix(tls, rest);
    lemma_authority_len(authority, tail);
    assert(rest.take(authority.len() as int) =~= authority);
    assert(rest.skip(authority.len() as int) =~= tail);
    lemma_char_occurs(tail, '?');
    lemma_char_occurs(authority, '@');
}

/// A host alone is taken as it is, at the port of the scheme.
pub proof fn law_host_is_taken(tls: bool, host: Seq<char>, tail: Seq<char>)
    requires
        is_clean(host),
        !host.contains(':'),
        host.len() > 0 ==> host[0] != '[',
        is_tail(tail),
    ensures
        url_in(prefix(tls) + host + tail) == taken(tls, host, usual_port(tls), tail),
{
    lemma_parts(tls, host, tail);
    lemma_char_occurs(host, '[');
    lemma_no_split_without_element(host, ':');
}

/// A host and a port are taken as they are. The port is what stands after the last colon; what is no
/// port is refused.
pub proof fn law_host_and_port_are_taken(
    tls: bool,
    host: Seq<char>,
    port_text: Seq<char>,
    tail: Seq<char>,
)
    requires
        is_clean(host),
        is_clean(port_text),
        !port_text.contains(':'),
        host.len() > 0 ==> host[0] != '[',
        is_tail(tail),
    ensures
        forall|port: u16| #[trigger]
            is_port(port_text, port) ==> url_in(
                prefix(tls) + (host + seq![':'] + port_text) + tail,
            ) == taken(tls, host, port, tail),
        (forall|port: u16| !is_port(port_text, port)) ==> url_in(
            prefix(tls) + (host + seq![':'] + port_text) + tail,
        ) == refused("bad port "@ + port_text),
{
    let authority = host + seq![':'] + port_text;
    lemma_clean_concat(host, seq![':']);
    lemma_clean_concat(host + seq![':'], port_text);
    lemma_parts(tls, authority, tail);
    lemma_char_occurs(authority, '[');
    assert(authority[0] != '[');
    lemma_rsplit_at_element(host, ':', port_text);
    assert forall|port: u16| #[trigger] is_port(port_text, port) implies port_in(port_text) == Ok::<
        u16,
        ErrorView,
    >(port) by {
        lemma_port(port_text, port);
    }
    if forall|port: u16| !is_port(port_text, port) {
        lemma_no_port(port_text);
    }
}

/// Clean texts make a clean text.
proof fn lemma_clean_concat(a: Seq<char>, b: Seq<char>)
    ensures
        is_clean(a) && is_clean(b) ==> is_clean(a + b),
        is_clean(seq![':']),
        is_clean(seq!['[']),
        is_clean(seq![']']),
{
}

/// A bracket and what follows it is read by itself.
proof fn lemma_bracket(tls: bool, inner: Seq<char>, tail: Seq<char>)
    requires
        is_clean(inner),
        is_tail(tail),
    ensures
        ({
            let authority = seq!['['] + inner;
            &&& starts_with(authority, seq!['['])
            &&& authority.skip(1) == inner
            &&& url_in(prefix(tls) + authority + tail) == match host_and_port(authority, tls) {
                Ok((host, port)) => taken(tls, host, port, tail),
                Err(error) => Err(error),
            }
        }),
{
    let authority = seq!['['] + inner;
    lemma_clean_concat(seq!['['], inner);
    lemma_parts(tls, authority, tail);
    lemma_char_occurs(authority, '[');
    assert(authority[0] == '[');
    assert(authority.skip(1) =~= inner);
}

/// An address in brackets is taken without them, at the port of the scheme or at the one after a
/// colon; anything else after the bracket is refused, and so is a bracket that is not closed.
pub proof fn law_bracketed_address_is_taken(
    tls: bool,
    host: Seq<char>,
    after: Seq<char>,
    tail: Seq<char>,
)
    requires
        is_clean(host),
        is_clean(after),
        !host.contains(']'),
        is_tail(tail),
    ensures
        ({
            let url = url_in(prefix(tls) + (seq!['['] + (host + seq![']'] + after)) + tail);
            &&& after.len() == 0 ==> url == taken(tls, host, usual_port(tls), tail)
            &&& after.len() > 0 && after[0] == ':' ==> {
                &&& forall|port: u16| #[trigger]
                    is_port(after.skip(1), port) ==> url == taken(tls, host, port, tail)
                &&& (forall|port: u16| !is_port(after.skip(1), port)) ==> url == refused(
                    "bad port "@ + after.skip(1),
                )
            }
            &&& after.len() > 0 && after[0] != ':' ==> url == refused(
                "unexpected text after ["@ + host + "]"@,
            )
        }),
        url_in(prefix(tls) + (seq!['['] + host) + tail) == refused("unclosed [ in the host"@),
{
    let inner = host + seq![']'] + after;
    lemma_clean_concat(host, seq![']']);
    lemma_clean_concat(host + seq![']'], after);
    lemma_bracket(tls, inner, tail);
    lemma_split_at_element(host, ']', after);
    lemma_char_occurs(after, ':');
    if after.len() > 0 && after[0] == ':' {
        let text = after.skip(1);
        assert forall|port: u16| #[trigger] is_port(text, port) implies port_in(text) == Ok::<
            u16,
            ErrorView,
        >(port) by {
            lemma_port(text, port);
        }
        if forall|port: u16| !is_port(text, port) {
            lemma_no_port(text);
        }
    }
    lemma_bracket(tls, host, tail);
    lemma_no_split_without_element(host, ']');
}

/// A text is read as a port exactly where it is one, and named in the error where it is none.
pub proof fn law_port_is_read(text: Seq<char>)
    ensures
        forall|port: u16| #[trigger]
            is_port(text, port) ==> port_in(text) == Ok::<u16, ErrorView>(port),
        (forall|port: u16| !is_port(text, port)) ==> port_in(text) == Err::<u16, ErrorView>(
            ErrorView::Url("bad port "@ + text),
        ),
{
    assert forall|port: u16| #[trigger] is_port(text, port) implies port_in(text) == Ok::<
        u16,
        ErrorView,
    >(port) by {
        lemma_port(text, port);
    }
    if forall|port: u16| !is_port(text, port) {
        lemma_no_port(text);
    }
}

/// The `Host` header is the host, in brackets exactly where it holds a colon, and after a colon the
/// port, exactly where it is not that of the scheme.
pub proof fn law_host_header_is_written(target: TargetView)
    ensures
        ({
            let host = if target.host.contains(':') {
                seq!['['] + target.host + seq![']']
            } else {
                target.host
            };
            target.host_header() == if target.port == usual_port(target.tls) {
                host
            } else {
                host + seq![':'] + decimal(target.port as nat)
            }
        }),
        is_port(decimal(target.port as nat), target.port),
{
    reveal_strlit("[");
    reveal_strlit("]");
    reveal_strlit(":");
    assert("["@ =~= seq!['[']);
    assert("]"@ =~= seq![']']);
    assert(":"@ =~= seq![':']);
    lemma_char_occurs(target.host, ':');
    law_decimal_counts(target.port as nat);
}

} // verus!
