//! The URLs that a client takes.

use vstd::prelude::*;
use vstd::string::StringExecFns;
use vstd::utf8::*;

use crate::encoding::{
    lemma_ascii_char_in_bytes, lemma_boundary_before_ascii, lemma_encode_concat,
    lemma_encode_injective, lemma_encode_len, lemma_first_char_from_ascii,
};
use crate::error::{Error, ErrorView};
use crate::number::{parse_number, read_number};
use crate::sequence::{occurs, rsplit_once, split_once, starts_with};
use crate::text::{contains_text, equal_text, join, join3, rsplit_text, split_text, strip_text};

verus! {

/// The parts of a URL a request needs.
#[derive(Debug)]
pub struct Url<'a> {
    pub tls: bool,
    pub host: &'a str,
    pub port: u16,
    pub path_and_query: &'a str,
}

/// A [`Url`] with its parts as characters.
pub struct UrlView {
    pub tls: bool,
    pub host: Seq<char>,
    pub port: u16,
    pub path_and_query: Seq<char>,
}

impl<'a> View for Url<'a> {
    type V = UrlView;

    open spec fn view(&self) -> UrlView {
        UrlView {
            tls: self.tls,
            host: self.host@,
            port: self.port,
            path_and_query: self.path_and_query@,
        }
    }
}

impl<'a> PartialEq for Url<'a> {
    fn eq(&self, other: &Self) -> (equal: bool) {
        self.tls == other.tls && equal_text(self.host, other.host) && self.port == other.port
            && equal_text(self.path_and_query, other.path_and_query)
    }
}

impl<'a> vstd::std_specs::cmp::PartialEqSpecImpl for Url<'a> {
    open spec fn obeys_eq_spec() -> bool {
        true
    }

    open spec fn eq_spec(&self, other: &Self) -> bool {
        self@ == other@
    }
}

impl<'a> Eq for Url<'a> {

}

/// How many characters of `text` stand before the first `/` or `?`.
pub open spec fn authority_len(text: Seq<char>) -> nat
    decreases text.len(),
{
    if text.len() == 0 || text[0] == '/' || text[0] == '?' {
        0
    } else {
        1 + authority_len(text.drop_first())
    }
}

/// The port of a scheme: 443 over TLS, 80 in plain.
pub open spec fn default_port(tls: bool) -> u16 {
    if tls {
        443
    } else {
        80
    }
}

/// The port that a text stands for.
pub open spec fn port_in(text: Seq<char>) -> Result<u16, ErrorView> {
    match parse_number(text, 10, u16::MAX as nat) {
        Some(port) => Ok(port as u16),
        None => Err(ErrorView::Url("bad port "@ + text)),
    }
}

/// The host and the port in an authority: `host`, `host:port`, `[address]` or `[address]:port`.
pub open spec fn host_and_port(authority: Seq<char>, tls: bool) -> Result<
    (Seq<char>, u16),
    ErrorView,
> {
    if starts_with(authority, seq!['[']) {
        match split_once(authority.skip(1), seq![']']) {
            Some((host, after)) => if starts_with(after, seq![':']) {
                match port_in(after.skip(1)) {
                    Ok(port) => Ok((host, port)),
                    Err(error) => Err(error),
                }
            } else if after.len() == 0 {
                Ok((host, default_port(tls)))
            } else {
                Err(ErrorView::Url("unexpected text after ["@ + host + "]"@))
            },
            None => Err(ErrorView::Url("unclosed [ in the host"@)),
        }
    } else {
        match rsplit_once(authority, seq![':']) {
            Some((host, port)) => match port_in(port) {
                Ok(port) => Ok((host, port)),
                Err(error) => Err(error),
            },
            None => Ok((authority, default_port(tls))),
        }
    }
}

/// What a URL says after its scheme.
pub open spec fn url_after_scheme(tls: bool, rest: Seq<char>) -> Result<UrlView, ErrorView> {
    let authority = rest.take(authority_len(rest) as int);
    let tail = rest.skip(authority_len(rest) as int);
    if starts_with(tail, seq!['?']) {
        Err(ErrorView::Url("a query needs a path before it: write /?"@))
    } else if occurs(authority, seq!['@']) {
        Err(ErrorView::Url("credentials in the URL are not supported"@))
    } else {
        match host_and_port(authority, tls) {
            Ok((host, port)) => if host.len() == 0 {
                Err(ErrorView::Url("the URL has no host"@))
            } else {
                Ok(
                    UrlView {
                        tls,
                        host,
                        port,
                        path_and_query: if tail.len() == 0 {
                            "/"@
                        } else {
                            tail
                        },
                    },
                )
            },
            Err(error) => Err(error),
        }
    }
}

/// What a URL says.
pub open spec fn url_in(text: Seq<char>) -> Result<UrlView, ErrorView> {
    if starts_with(text, "https://"@) {
        url_after_scheme(true, text.skip(8))
    } else if starts_with(text, "http://"@) {
        url_after_scheme(false, text.skip(7))
    } else {
        Err(ErrorView::Url("the scheme must be https:// or http://"@))
    }
}

/// A front without `/` and `?`, followed by one of them or by nothing, is what stands before.
pub proof fn lemma_authority_len(front: Seq<char>, back: Seq<char>)
    requires
        forall|i: int| 0 <= i < front.len() ==> #[trigger] front[i] != '/' && front[i] != '?',
        back.len() > 0 ==> back[0] == '/' || back[0] == '?',
    ensures
        authority_len(front + back) == front.len(),
    decreases front.len(),
{
    if front.len() == 0 {
        assert(front + back =~= back);
    } else {
        assert(front[0] != '/' && front[0] != '?');
        assert forall|i: int| 0 <= i < front.drop_first().len() implies #[trigger]
            front.drop_first()[i] != '/' && front.drop_first()[i] != '?' by {
            assert(front.drop_first()[i] == front[i + 1]);
        }
        lemma_authority_len(front.drop_first(), back);
        assert((front + back).drop_first() =~= front.drop_first() + back);
    }
}

/// Cuts `text` before its first `/` or `?`.
fn split_authority<'a>(text: &'a str) -> (split: (&'a str, &'a str))
    ensures
        split.0@ == text@.take(authority_len(text@) as int),
        split.1@ == text@.skip(authority_len(text@) as int),
{
    let bytes = text.as_bytes();
    let mut at: usize = 0;
    while at < bytes.len() && bytes[at] != 0x2f && bytes[at] != 0x3f
        invariant
            at <= bytes@.len(),
            forall|i: int| 0 <= i < at ==> #[trigger] bytes@[i] != 0x2f && bytes@[i] != 0x3f,
        decreases bytes@.len() - at,
    {
        at = at + 1;
    }
    proof {
        encode_utf8_valid_utf8(text@);
        if at < bytes@.len() {
            lemma_boundary_before_ascii(bytes@, at as int);
        } else {
            is_char_boundary_start_end_of_seq(bytes@);
        }
    }
    let (front, back) = text.split_at(at);
    proof {
        assert(encode_utf8(front@) + encode_utf8(back@) =~= encode_utf8(text@));
        lemma_encode_concat(front@, back@);
        lemma_encode_injective(front@ + back@, text@);
        assert forall|i: int| 0 <= i < front@.len() implies #[trigger] front@[i] != '/' && front@[i]
            != '?' by {
            if front@[i] == '/' || front@[i] == '?' {
                lemma_ascii_char_in_bytes(front@, i);
                let k = encode_utf8(front@.take(i)).len() as int;
                assert(encode_utf8(front@)[k] == bytes@[k]);
            }
        }
        if back@.len() > 0 {
            lemma_encode_len(back@);
            assert(encode_utf8(back@)[0] == bytes@[at as int]);
            lemma_first_char_from_ascii(back@);
        }
        lemma_authority_len(front@, back@);
        assert(text@.take(front@.len() as int) =~= front@);
        assert(text@.skip(front@.len() as int) =~= back@);
    }
    (front, back)
}

/// An error in a URL.
fn unusable(detail: &str) -> (error: Error)
    ensures
        error@ == ErrorView::Url(detail@),
{
    Error::Url(String::from_str(detail))
}

/// Reads a port.
pub fn parse_port(port: &str) -> (parsed: Result<u16, Error>)
    ensures
        match parsed {
            Ok(value) => port_in(port@) == Ok::<u16, ErrorView>(value),
            Err(error) => port_in(port@) == Err::<u16, ErrorView>(error@),
        },
{
    match read_number(port, 10, u16::MAX as u64) {
        Some(value) => Ok(value as u16),
        None => Err(Error::Url(join("bad port ", port))),
    }
}

/// Reads the host and the port in an authority.
fn parse_authority<'a>(authority: &'a str, tls: bool) -> (parsed: Result<(&'a str, u16), Error>)
    ensures
        match parsed {
            Ok((host, port)) => host_and_port(authority@, tls) == Ok::<(Seq<char>, u16), ErrorView>(
                (host@, port),
            ),
            Err(error) => host_and_port(authority@, tls) == Err::<(Seq<char>, u16), ErrorView>(
                error@,
            ),
        },
{
    proof {
        reveal_strlit("[");
        reveal_strlit("]");
        reveal_strlit(":");
        assert("["@ =~= seq!['[']);
        assert("]"@ =~= seq![']']);
        assert(":"@ =~= seq![':']);
    }
    let default_port: u16 = if tls {
        443
    } else {
        80
    };
    if let Some(bracketed) = strip_text(authority, "[") {
        // IPv6: [addr] or [addr]:port
        let (host, after) = match split_text(bracketed, "]") {
            Some((host, after)) => (host, after),
            None => return Err(unusable("unclosed [ in the host")),
        };
        match strip_text(after, ":") {
            Some(port) => match parse_port(port) {
                Ok(port) => Ok((host, port)),
                Err(error) => Err(error),
            },
            None => if after.is_empty() {
                Ok((host, default_port))
            } else {
                Err(Error::Url(join3("unexpected text after [", host, "]")))
            },
        }
    } else {
        match rsplit_text(authority, ":") {
            Some((host, port)) => match parse_port(port) {
                Ok(port) => Ok((host, port)),
                Err(error) => Err(error),
            },
            None => Ok((authority, default_port)),
        }
    }
}

impl<'a> Url<'a> {
    /// Reads a URL. Only the scheme and host are named in errors: the path and query can carry
    /// credentials.
    pub fn parse(url: &'a str) -> (parsed: Result<Url<'a>, Error>)
        ensures
            match parsed {
                Ok(parsed) => url_in(url@) == Ok::<UrlView, ErrorView>(parsed@),
                Err(error) => url_in(url@) == Err::<UrlView, ErrorView>(error@),
            },
    {
        proof {
            reveal_strlit("https://");
            reveal_strlit("http://");
            reveal_strlit("?");
            reveal_strlit("@");
            assert("?"@ =~= seq!['?']);
            assert("@"@ =~= seq!['@']);
        }
        let (tls, rest) = if let Some(rest) = strip_text(url, "https://") {
            (true, rest)
        } else if let Some(rest) = strip_text(url, "http://") {
            (false, rest)
        } else {
            return Err(unusable("the scheme must be https:// or http://"));
        };
        let (authority, tail) = split_authority(rest);
        if strip_text(tail, "?").is_some() {
            return Err(unusable("a query needs a path before it: write /?"));
        }
        let path_and_query = if tail.is_empty() {
            "/"
        } else {
            tail
        };
        if contains_text(authority, "@") {
            return Err(unusable("credentials in the URL are not supported"));
        }
        let (host, port) = match parse_authority(authority, tls) {
            Ok((host, port)) => (host, port),
            Err(error) => return Err(error),
        };
        if host.is_empty() {
            return Err(unusable("the URL has no host"));
        }
        Ok(Url { tls, host, port, path_and_query })
    }
}

} // verus!
