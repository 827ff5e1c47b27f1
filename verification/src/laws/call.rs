//! What holds of calls.

use vstd::prelude::*;

use crate::call::{new_call, ActionView, CallView, EventView, OutcomeView, PhaseView};
use crate::error::ErrorView;
use crate::laws::response::{
    law_end_settles, law_errors_quote_nothing, law_settled_response_stands,
    lemma_fixed_texts_hold_no_slash, quotes_nothing,
};
use crate::number::lemma_decimal_holds_digits;
use crate::request::RequestView;
use crate::response::{response_in, ResponseView, MAX_RESPONSE};
use crate::sequence::{occurs, occurs_at};
use crate::target::TargetView;
use crate::text::same_ignoring_case;

verus! {

/// While a call reads, it holds no more than the largest response, and what it holds is not enough
/// to settle the response. Only a call to a TLS target sets a session up, shakes hands or closes.
pub open spec fn is_sound(call: CallView) -> bool {
    match call.phase {
        PhaseView::Reading(buffer) => {
            &&& buffer.len() <= MAX_RESPONSE
            &&& response_in(buffer, false, call.head_request) == Ok::<
                Option<ResponseView>,
                ErrorView,
            >(None)
        },
        PhaseView::Securing | PhaseView::Handshaking | PhaseView::Closing(_) => call.tls,
        _ => true,
    }
}

/// A call is sound from the start.
pub proof fn law_call_starts_sound(target: TargetView, request: RequestView)
    ensures
        is_sound(new_call(target, request)),
{
}

/// Every event keeps a call sound.
pub proof fn law_call_stays_sound(call: CallView, event: EventView)
    requires
        is_sound(call),
    ensures
        is_sound(call.next(event).0),
{
}

/// A response that grows past the largest one that is buffered is refused as too large, whatever it
/// holds.
pub proof fn law_too_large_is_refused(call: CallView, buffer: Seq<u8>, bytes: Seq<u8>)
    requires
        call.phase == PhaseView::Reading(buffer),
        bytes.len() > 0,
        buffer.len() + bytes.len() > MAX_RESPONSE,
    ensures
        call.next(EventView::Received(Ok(bytes))) == call.exchanged(Err(ErrorView::TooLarge)),
{
}

/// The request leaves a call to a TLS target only after a handshake that succeeded.
pub proof fn law_request_waits_for_handshake(call: CallView, event: EventView)
    requires
        call.tls,
        call.awaits(event),
        call.next(event).1 is Write,
    ensures
        call.phase is Handshaking,
        event matches EventView::Handshaken(done) && done is Ok,
        call.next(event).1 == ActionView::Write(call.request),
{
}

/// A call to a plain target sets no TLS session up, and so has none to shake hands over or to close.
pub proof fn law_plain_call_needs_no_session(call: CallView, event: EventView)
    requires
        is_sound(call),
        !call.tls,
    ensures
        !(call.next(event).1 is Secure),
        !(call.next(event).1 is Handshake),
        !(call.next(event).1 is Close),
        !call.next(event).0.tls,
{
}

/// A session that was opened is closed before the outcome of the exchange is told, and closing it
/// does not change that outcome.
pub proof fn law_close_keeps_outcome(call: CallView, outcome: OutcomeView)
    requires
        call.tls,
    ensures
        call.exchanged(outcome).1 is Close,
        call.exchanged(outcome).0.next(EventView::Closed) == call.finished(outcome),
{
}

/// Two calls that differ in nothing but the bytes that carry their requests.
pub open spec fn same_but_request(first: CallView, second: CallView) -> bool {
    &&& first.host == second.host
    &&& first.tls == second.tls
    &&& first.head_request == second.head_request
    &&& first.phase == second.phase
}

/// Two actions that differ in nothing but the bytes that are written.
pub open spec fn same_but_written(first: ActionView, second: ActionView) -> bool {
    first == second || (first is Write && second is Write)
}

/// A call after a row of events.
pub open spec fn after_events(call: CallView, events: Seq<EventView>) -> CallView
    decreases events.len(),
{
    if events.len() == 0 {
        call
    } else {
        after_events(call.next(events[0]).0, events.drop_first())
    }
}

/// Nothing that a call does or tells depends on its request, but for the bytes that it writes.
proof fn lemma_same_but_request(first: CallView, second: CallView, events: Seq<EventView>)
    requires
        same_but_request(first, second),
    ensures
        same_but_request(after_events(first, events), after_events(second, events)),
    decreases events.len(),
{
    if events.len() > 0 {
        assert(same_but_request(first.next(events[0]).0, second.next(events[0]).0));
        lemma_same_but_request(
            first.next(events[0]).0,
            second.next(events[0]).0,
            events.drop_first(),
        );
    }
}

/// What a call tells never carries the request: whatever the path, the headers and the body, the
/// same events lead to the same outcome.
pub proof fn law_outcome_hides_request(
    target: TargetView,
    first: RequestView,
    second: RequestView,
    events: Seq<EventView>,
    last: EventView,
)
    requires
        same_ignoring_case(first.method, "HEAD"@) == same_ignoring_case(second.method, "HEAD"@),
    ensures
        ({
            let a = after_events(new_call(target, first), events).next(last).1;
            let b = after_events(new_call(target, second), events).next(last).1;
            &&& same_but_written(a, b)
            &&& a is Finish ==> a == b
        }),
{
    lemma_same_but_request(new_call(target, first), new_call(target, second), events);
}

/// A path starts with a slash, so a text without one does not hold it.
pub proof fn lemma_no_path_without_slash(text: Seq<char>, path: Seq<char>)
    requires
        path.len() > 0,
        path[0] == '/',
        !text.contains('/'),
    ensures
        !occurs(text, path),
{
    assert forall|at: int| !occurs_at(text, path, at) by {
        if occurs_at(text, path, at) {
            assert(text.subrange(at, at + path.len())[0] == text[at]);
        }
    }
}

/// What a malformed response came to, where that is still to be told, quotes nothing.
spec fn closes_without_quoting(call: CallView) -> bool {
    call.phase matches PhaseView::Closing(Err(error)) ==> (error is Protocol ==> quotes_nothing(
        error,
    ))
}

/// A step quotes nothing of a malformed response.
proof fn lemma_step_quotes_nothing(call: CallView, event: EventView)
    requires
        closes_without_quoting(call),
    ensures
        closes_without_quoting(call.next(event).0),
        call.next(event).1 matches ActionView::Finish(Err(error)) ==> (error is Protocol
            ==> quotes_nothing(error)),
{
    if let (PhaseView::Reading(buffer), EventView::Received(Ok(bytes))) = (call.phase, event) {
        law_end_settles(buffer, call.head_request);
        law_errors_quote_nothing(buffer, true, call.head_request);
        law_errors_quote_nothing(buffer + bytes, false, call.head_request);
    }
}

/// Steps quote nothing of a malformed response.
proof fn lemma_steps_quote_nothing(call: CallView, events: Seq<EventView>)
    requires
        closes_without_quoting(call),
    ensures
        closes_without_quoting(after_events(call, events)),
    decreases events.len(),
{
    if events.len() > 0 {
        lemma_step_quotes_nothing(call, events[0]);
        lemma_steps_quote_nothing(call.next(events[0]).0, events.drop_first());
    }
}

/// An error in a response never carries the request path, not even where the peer answers with the
/// request that it was sent.
pub proof fn law_error_hides_path(
    target: TargetView,
    request: RequestView,
    events: Seq<EventView>,
    last: EventView,
)
    requires
        request.path.len() > 0,
        request.path[0] == '/',
    ensures
        after_events(new_call(target, request), events).next(last).1 matches ActionView::Finish(
            Err(error),
        ) ==> (error is Protocol ==> !occurs(error.message(), request.path)),
{
    let call = after_events(new_call(target, request), events);
    lemma_steps_quote_nothing(new_call(target, request), events);
    lemma_step_quotes_nothing(call, last);
    if let ActionView::Finish(Err(error)) = call.next(last).1 {
        if error is Protocol {
            lemma_fixed_texts_hold_no_slash(error);
            lemma_no_path_without_slash(error.message(), request.path);
        }
    }
}

/// The detail with which an event says that an action failed; nothing where it did not.
pub open spec fn detail_in(event: EventView) -> Seq<char> {
    match event {
        EventView::Connected(Err(detail)) => detail,
        EventView::Secured(Err(detail)) => detail,
        EventView::Handshaken(Err(detail)) => detail,
        EventView::Written(Err(detail)) => detail,
        EventView::Received(Err(detail)) => detail,
        _ => Seq::empty(),
    }
}

/// What a call came to, where that is still to be told, holds no slash if it is an error.
spec fn closes_without_slash(call: CallView) -> bool {
    call.phase matches PhaseView::Closing(Err(error)) ==> !error.message().contains('/')
}

/// The name of a host, a detail or both make an error without a slash where they hold none.
proof fn lemma_errors_hold_no_slash(host: Seq<char>, detail: Seq<char>)
    requires
        !host.contains('/'),
        !detail.contains('/'),
    ensures
        !ErrorView::Connect(host + ": "@ + detail).message().contains('/'),
        !ErrorView::Tls("invalid server name "@ + host).message().contains('/'),
        !ErrorView::Tls(detail).message().contains('/'),
        !ErrorView::Tls("handshake with "@ + host + ": "@ + detail).message().contains('/'),
        !ErrorView::Io("writing to "@ + host + ": "@ + detail).message().contains('/'),
        !ErrorView::Io("reading from "@ + host + ": "@ + detail).message().contains('/'),
        !ErrorView::TooLarge.message().contains('/'),
{
    reveal_strlit(": ");
    reveal_strlit("TCP connect failed: ");
    reveal_strlit("TLS failed: ");
    reveal_strlit("connection failed: ");
    reveal_strlit("invalid server name ");
    reveal_strlit("handshake with ");
    reveal_strlit("writing to ");
    reveal_strlit("reading from ");
    reveal_strlit("response exceeded ");
    reveal_strlit(" bytes");
    lemma_decimal_holds_digits(MAX_RESPONSE as nat, '/');
}

/// A step puts a slash into an error only where the host or a detail holds one.
proof fn lemma_step_holds_no_slash(call: CallView, event: EventView)
    requires
        closes_without_slash(call),
        !call.host.contains('/'),
        !detail_in(event).contains('/'),
    ensures
        closes_without_slash(call.next(event).0),
        call.next(event).0.host == call.host,
        call.next(event).1 matches ActionView::Finish(Err(error)) ==> !error.message().contains(
            '/',
        ),
{
    lemma_errors_hold_no_slash(call.host, detail_in(event));
    if let (PhaseView::Reading(buffer), EventView::Received(Ok(bytes))) = (call.phase, event) {
        law_end_settles(buffer, call.head_request);
        law_errors_quote_nothing(buffer, true, call.head_request);
        law_errors_quote_nothing(buffer + bytes, false, call.head_request);
        if let Err(error) = response_in(buffer, true, call.head_request) {
            lemma_fixed_texts_hold_no_slash(error);
        }
        if let Err(error) = response_in(buffer + bytes, false, call.head_request) {
            lemma_fixed_texts_hold_no_slash(error);
        }
    }
}

/// Steps put a slash into an error only where the host or a detail holds one.
proof fn lemma_steps_hold_no_slash(call: CallView, events: Seq<EventView>)
    requires
        closes_without_slash(call),
        !call.host.contains('/'),
        forall|i: int| 0 <= i < events.len() ==> !detail_in(#[trigger] events[i]).contains('/'),
    ensures
        closes_without_slash(after_events(call, events)),
        after_events(call, events).host == call.host,
    decreases events.len(),
{
    if events.len() > 0 {
        assert(!detail_in(events[0]).contains('/'));
        lemma_step_holds_no_slash(call, events[0]);
        assert forall|i: int| 0 <= i < events.drop_first().len() implies !detail_in(
            #[trigger] events.drop_first()[i],
        ).contains('/') by {
            assert(events.drop_first()[i] == events[i + 1]);
        }
        lemma_steps_hold_no_slash(call.next(events[0]).0, events.drop_first());
    }
}

/// No error of any kind carries the request path, unless the host itself holds a slash, or the system
/// put one into the detail of a failure.
pub proof fn law_no_error_carries_path(
    target: TargetView,
    request: RequestView,
    events: Seq<EventView>,
    last: EventView,
)
    requires
        request.path.len() > 0,
        request.path[0] == '/',
        !target.host.contains('/'),
        forall|i: int| 0 <= i < events.len() ==> !detail_in(#[trigger] events[i]).contains('/'),
        !detail_in(last).contains('/'),
    ensures
        after_events(new_call(target, request), events).next(last).1 matches ActionView::Finish(
            Err(error),
        ) ==> !occurs(error.message(), request.path),
{
    let call = after_events(new_call(target, request), events);
    lemma_steps_hold_no_slash(new_call(target, request), events);
    lemma_step_holds_no_slash(call, last);
    if let ActionView::Finish(Err(error)) = call.next(last).1 {
        lemma_no_path_without_slash(error.message(), request.path);
    }
}

/// A call after a row of reads, and what it does then: it stops reading once the response is
/// settled.
pub open spec fn after_reads(call: CallView, reads: Seq<Seq<u8>>) -> (CallView, ActionView)
    decreases reads.len(),
{
    if reads.len() == 0 {
        (call, ActionView::Read)
    } else {
        let (next, action) = call.next(EventView::Received(Ok(reads[0])));
        if next.phase is Reading {
            after_reads(next, reads.drop_first())
        } else {
            (next, action)
        }
    }
}

/// The bytes of a row of reads.
pub open spec fn read_bytes(reads: Seq<Seq<u8>>) -> Seq<u8>
    decreases reads.len(),
{
    if reads.len() == 0 {
        Seq::empty()
    } else {
        reads[0] + read_bytes(reads.drop_first())
    }
}

/// How the bytes of a response are cut into reads makes no difference: the outcome is what the
/// whole of them says.
pub proof fn law_reads_make_no_difference(
    call: CallView,
    buffer: Seq<u8>,
    reads: Seq<Seq<u8>>,
    outcome: OutcomeView,
)
    requires
        is_sound(call),
        call.phase == PhaseView::Reading(buffer),
        forall|i: int| 0 <= i < reads.len() ==> (#[trigger] reads[i]).len() > 0,
        buffer.len() + read_bytes(reads).len() <= MAX_RESPONSE,
        response_in(buffer + read_bytes(reads), true, call.head_request) == match outcome {
            Ok(response) => Ok::<Option<ResponseView>, ErrorView>(Some(response)),
            Err(error) => Err(error),
        },
    ensures
        after_reads(call, reads.push(Seq::empty())) == call.exchanged(outcome),
    decreases reads.len(),
{
    let all = reads.push(Seq::empty());
    if reads.len() == 0 {
        assert(buffer + read_bytes(reads) =~= buffer);
        assert(all[0].len() == 0);
    } else {
        let bytes = reads[0];
        let later = read_bytes(reads.drop_first());
        let held = buffer + bytes;
        assert(all[0] == bytes);
        assert(bytes.len() > 0);
        assert(buffer + read_bytes(reads) =~= held + later);
        assert(all.drop_first() =~= reads.drop_first().push(Seq::empty()));
        if response_in(held, false, call.head_request) == Ok::<Option<ResponseView>, ErrorView>(
            None,
        ) {
            let next = call.at(PhaseView::Reading(held));
            law_reads_make_no_difference(next, held, reads.drop_first(), outcome);
        } else {
            law_settled_response_stands(held, later, true, call.head_request);
        }
    }
}

/// A response that the largest number of bytes does not settle is refused as too large once more
/// arrive, however they are cut into reads.
pub proof fn law_reads_past_limit_are_refused(call: CallView, buffer: Seq<u8>, reads: Seq<Seq<u8>>)
    requires
        call.phase == PhaseView::Reading(buffer),
        buffer.len() <= MAX_RESPONSE,
        forall|i: int| 0 <= i < reads.len() ==> (#[trigger] reads[i]).len() > 0,
        (buffer + read_bytes(reads)).len() > MAX_RESPONSE,
        response_in(
            (buffer + read_bytes(reads)).take(MAX_RESPONSE as int),
            false,
            call.head_request,
        ) == Ok::<Option<ResponseView>, ErrorView>(None),
    ensures
        after_reads(call, reads.push(Seq::empty())) == call.exchanged(Err(ErrorView::TooLarge)),
    decreases reads.len(),
{
    if reads.len() > 0 {
        let all = reads.push(Seq::empty());
        let bytes = reads[0];
        let held = buffer + bytes;
        let later = read_bytes(reads.drop_first());
        assert(all[0] == bytes);
        assert(bytes.len() > 0);
        assert(buffer + read_bytes(reads) =~= held + later);
        assert(all.drop_first() =~= reads.drop_first().push(Seq::empty()));
        if held.len() <= MAX_RESPONSE {
            let most = (held + later).take(MAX_RESPONSE as int);
            let more = later.take(MAX_RESPONSE - held.len());
            assert(most =~= held + more);
            if response_in(held, false, call.head_request) != Ok::<Option<ResponseView>, ErrorView>(
                None,
            ) {
                law_settled_response_stands(held, more, false, call.head_request);
            }
            law_reads_past_limit_are_refused(
                call.at(PhaseView::Reading(held)),
                held,
                reads.drop_first(),
            );
        }
    }
}

} // verus!
