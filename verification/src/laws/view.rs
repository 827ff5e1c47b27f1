//! What the values that go in and come out stand for: every part of them, as it is.

use nago_rustls::rustls_pki_types::ServerName;
use nagoya::reactor::Addr;
use vstd::prelude::*;
use vstd::std_specs::cmp::PartialEqSpec;

use crate::call::{done_view, outcome_view, Action, ActionView, Event, EventView};
use crate::client::{body_parts, late};
use crate::error::{Error, ErrorView};
use crate::laws::number::{counts, law_decimal_counts};
use crate::number::decimal;
use crate::request::pairs_view;
use crate::response::{headers_view, parsed_view, Response, ResponseView};
use crate::target::{lookup_view, target_from, TargetView};
use crate::text::pair_view;
use crate::tls::{name_for, name_view};
use crate::url::Url;

verus! {

/// An error stands for its kind and all of its detail.
pub proof fn law_error_stands_for_itself(detail: String)
    ensures
        Error::Resolve(detail)@ == ErrorView::Resolve(detail@),
        Error::Connect(detail)@ == ErrorView::Connect(detail@),
        Error::Tls(detail)@ == ErrorView::Tls(detail@),
        Error::Io(detail)@ == ErrorView::Io(detail@),
        Error::Protocol(detail)@ == ErrorView::Protocol(detail@),
        Error::TooLarge@ == ErrorView::TooLarge,
        Error::Timeout(detail)@ == ErrorView::Timeout(detail@),
        Error::Url(detail)@ == ErrorView::Url(detail@),
{
}

/// The sentence of an error is what its kind says, and then all of its detail.
pub proof fn law_message_ends_with_the_detail(detail: Seq<char>)
    ensures
        ErrorView::Resolve(detail).message() == "DNS resolution failed: "@ + detail,
        ErrorView::Connect(detail).message() == "TCP connect failed: "@ + detail,
        ErrorView::Tls(detail).message() == "TLS failed: "@ + detail,
        ErrorView::Io(detail).message() == "connection failed: "@ + detail,
        ErrorView::Protocol(detail).message() == "malformed response: "@ + detail,
        ErrorView::Timeout(detail).message() == "timed out: "@ + detail,
        ErrorView::Url(detail).message() == "unusable URL: "@ + detail,
        ErrorView::TooLarge.message() == "response exceeded "@ + decimal(8388608) + " bytes"@,
        counts(decimal(8388608), 10, 8388608),
{
    law_decimal_counts(8388608);
}

/// Pairs stand for their names and values, one for one.
pub proof fn law_pairs_stand_one_for_one(
    pairs: Seq<(&str, &str)>,
    headers: Seq<(String, String)>,
    i: int,
)
    ensures
        pairs_view(pairs).len() == pairs.len(),
        0 <= i < pairs.len() ==> pairs_view(pairs)[i] == (pairs[i].0@, pairs[i].1@),
        headers_view(headers).len() == headers.len(),
        0 <= i < headers.len() ==> headers_view(headers)[i] == (headers[i].0@, headers[i].1@),
{
}

/// A response stands for its status, all of its headers and all of its body.
pub proof fn law_response_stands_for_itself(response: Response, error: Error, i: int)
    ensures
        response@.status == response.status,
        response@.body == response.body@,
        response@.headers.len() == response.headers@.len(),
        0 <= i < response.headers@.len() ==> response@.headers[i] == (
            response.headers@[i].0@,
            response.headers@[i].1@,
        ),
        parsed_view(Ok(Some(response))) == Ok::<Option<ResponseView>, ErrorView>(Some(response@)),
        parsed_view(Ok(None)) == Ok::<Option<ResponseView>, ErrorView>(None),
        parsed_view(Err(error)) == Err::<Option<ResponseView>, ErrorView>(error@),
        outcome_view(Ok(response)) == Ok::<ResponseView, ErrorView>(response@),
        outcome_view(Err(error)) == Err::<ResponseView, ErrorView>(error@),
{
}

/// A URL stands for its parts, and equals another exactly where each part does.
pub proof fn law_url_stands_for_itself(url: Url<'_>, other: Url<'_>)
    ensures
        url.eq_spec(&other) <==> url.tls == other.tls && url.host@ == other.host@ && url.port
            == other.port && url.path_and_query@ == other.path_and_query@,
        url@.tls == url.tls,
        url@.host == url.host@,
        url@.port == url.port,
        url@.path_and_query == url.path_and_query@,
{
}

/// The two sides of a split stand for themselves.
pub proof fn law_sides_stand_for_themselves(before: &str, after: &str)
    ensures
        pair_view(Some((before, after))) == Some((before@, after@)),
        pair_view(None) is None,
{
}

/// A body is its type and its bytes.
pub proof fn law_body_stands_for_itself(content_type: &str, body: &[u8])
    ensures
        body_parts(Some((content_type, body))) == Some((content_type@, body@)),
        body_parts(None) is None,
{
}

/// An event stands for what came of an action, with all of its bytes or all of its detail.
pub proof fn law_event_stands_for_itself(bytes: Vec<u8>, detail: String)
    ensures
        Event::Connected(Ok(()))@ == EventView::Connected(Ok(())),
        Event::Connected(Err(detail))@ == EventView::Connected(Err(detail@)),
        Event::Secured(Ok(()))@ == EventView::Secured(Ok(())),
        Event::Secured(Err(detail))@ == EventView::Secured(Err(detail@)),
        Event::Handshaken(Ok(()))@ == EventView::Handshaken(Ok(())),
        Event::Handshaken(Err(detail))@ == EventView::Handshaken(Err(detail@)),
        Event::Written(Ok(()))@ == EventView::Written(Ok(())),
        Event::Written(Err(detail))@ == EventView::Written(Err(detail@)),
        Event::Received(Ok(bytes))@ == EventView::Received(Ok(bytes@)),
        Event::Received(Err(detail))@ == EventView::Received(Err(detail@)),
        Event::Closed@ == EventView::Closed,
{
    assert(done_view(Ok(())) == Ok::<(), Seq<char>>(()));
}

/// An action stands for what to do, with all that it is to be done with.
pub proof fn law_action_stands_for_itself(
    name: ServerName<'static>,
    bytes: Vec<u8>,
    response: Response,
    error: Error,
)
    ensures
        Action::Connect@ == ActionView::Connect,
        Action::Secure(name)@ == ActionView::Secure(name),
        Action::Handshake@ == ActionView::Handshake,
        Action::Write(bytes)@ == ActionView::Write(bytes@),
        Action::Read@ == ActionView::Read,
        Action::Close@ == ActionView::Close,
        Action::Finish(Ok(response))@ == ActionView::Finish(Ok(response@)),
        Action::Finish(Err(error))@ == ActionView::Finish(Err(error@)),
{
}

/// A name that was made of a host is the one to verify, and a host of which none was made is named in
/// the error.
pub proof fn law_name_is_the_one_made(host: Seq<char>, name: ServerName<'static>, error: Error)
    ensures
        name_for(host, Some(name)) == Ok::<ServerName<'static>, ErrorView>(name),
        name_for(host, None) == Err::<ServerName<'static>, ErrorView>(
            ErrorView::Tls("invalid server name "@ + host),
        ),
        name_view(Ok(name)) == Ok::<ServerName<'static>, ErrorView>(name),
        name_view(Err(error)) == Err::<ServerName<'static>, ErrorView>(error@),
{
}

/// A lookup that gave addresses makes a target of the host and the port that were asked for, with all
/// of those addresses in their order; one that gave none, or failed, is told.
pub proof fn law_lookup_makes_the_target(
    host: Seq<char>,
    port: u16,
    tls: bool,
    addrs: Vec<Addr>,
    detail: String,
)
    ensures
        addrs@.len() > 0 ==> target_from(host, port, tls, lookup_view(Ok(addrs))) == Ok::<
            TargetView,
            ErrorView,
        >(TargetView { host, port, addrs: addrs@, tls }),
        addrs@.len() == 0 ==> target_from(host, port, tls, lookup_view(Ok(addrs))) == Err::<
            TargetView,
            ErrorView,
        >(ErrorView::Resolve(host + " has no addresses"@)),
        target_from(host, port, tls, lookup_view(Err(detail))) == Err::<TargetView, ErrorView>(
            ErrorView::Resolve(detail@),
        ),
{
}

/// The error of a host that did not answer in time names the host and the seconds.
pub proof fn law_late_names_host_and_seconds(host: Seq<char>, seconds: u64)
    ensures
        late(host, seconds) == ErrorView::Timeout(
            host + " did not answer within "@ + decimal(seconds as nat) + "s"@,
        ),
        counts(decimal(seconds as nat), 10, seconds as nat),
{
    law_decimal_counts(seconds as nat);
}

} // verus!
