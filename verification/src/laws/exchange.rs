//! What a call does, from its start to what it tells.

use vstd::prelude::*;

use crate::call::{new_call, ActionView, CallView, EventView, OutcomeView, PhaseView};
use crate::error::ErrorView;
use crate::laws::response::law_end_settles;
use crate::laws::text::{alike, law_case_makes_no_other_difference};
use crate::laws::wire::{is_good_head, law_no_body_is_read, told, wire, HeadLine, StatusLine};
use crate::request::RequestView;
use crate::response::{response_in, ResponseView};
use crate::target::TargetView;
use crate::tls::server_name;

verus! {

/// The call tells this outcome, and waits for nothing more.
pub open spec fn tells_now(step: (CallView, ActionView), outcome: OutcomeView) -> bool {
    &&& step.1 == ActionView::Finish(outcome)
    &&& forall|event: EventView| !#[trigger] step.0.awaits(event)
}

/// The call tells this outcome: at once over plain TCP, and over TLS after it has had the session
/// closed.
pub open spec fn tells(tls: bool, step: (CallView, ActionView), outcome: OutcomeView) -> bool {
    if tls {
        &&& step.1 == ActionView::Close
        &&& step.0.awaits(EventView::Closed)
        &&& tells_now(step.0.next(EventView::Closed), outcome)
    } else {
        tells_now(step, outcome)
    }
}

/// A call waits for what comes of the action that it asked for, whether that succeeded or not, and for
/// nothing else.
pub proof fn law_call_awaits_what_it_asked_for(
    call: CallView,
    done: Result<(), Seq<char>>,
    read: Result<Seq<u8>, Seq<char>>,
)
    ensures
        call.awaits(EventView::Connected(done)) <==> call.phase is Connecting,
        call.awaits(EventView::Secured(done)) <==> call.phase is Securing,
        call.awaits(EventView::Handshaken(done)) <==> call.phase is Handshaking,
        call.awaits(EventView::Written(done)) <==> call.phase is Writing,
        call.awaits(EventView::Received(read)) <==> call.phase is Reading,
        call.awaits(EventView::Closed) <==> call.phase is Closing,
{
}

/// The step after the connection was made.
pub open spec fn connected(target: TargetView, request: RequestView) -> (CallView, ActionView) {
    new_call(target, request).next(EventView::Connected(Ok(())))
}

/// The step after which the request is written: over TLS the session is set up first.
pub open spec fn ready(target: TargetView, request: RequestView) -> (CallView, ActionView) {
    if target.tls {
        connected(target, request).0.next(EventView::Secured(Ok(()))).0.next(
            EventView::Handshaken(Ok(())),
        )
    } else {
        connected(target, request)
    }
}

/// The step after the request was written.
pub open spec fn written(target: TargetView, request: RequestView) -> (CallView, ActionView) {
    ready(target, request).0.next(EventView::Written(Ok(())))
}

/// A call connects, sets up a session that verifies the host's name where the target is reached over
/// TLS, writes the request with the target's `Host` header, and reads. The response is read as one to
/// HEAD exactly where the method is HEAD, in any case and over any kind of connection.
pub proof fn law_call_opens(target: TargetView, request: RequestView)
    requires
        target.tls ==> server_name(target.host) is Some,
    ensures
        new_call(target, request).awaits(EventView::Connected(Ok(()))),
        target.tls ==> {
            let secured = connected(target, request).0.next(EventView::Secured(Ok(())));
            &&& connected(target, request).1 == ActionView::Secure(server_name(target.host)->0)
            &&& connected(target, request).0.awaits(EventView::Secured(Ok(())))
            &&& secured.1 == ActionView::Handshake
            &&& secured.0.awaits(EventView::Handshaken(Ok(())))
        },
        ready(target, request).1 == ActionView::Write(request.encoded(target.host_header())),
        ready(target, request).0.awaits(EventView::Written(Ok(()))),
        written(target, request).1 == ActionView::Read,
        written(target, request).0.phase == PhaseView::Reading(Seq::empty()),
        written(target, request).0.host == target.host,
        written(target, request).0.tls == target.tls,
        written(target, request).0.head_request <==> alike(request.method, "HEAD"@),
{
    law_case_makes_no_other_difference(request.method, "HEAD"@);
}

/// A call that cannot go on before the exchange tells why, and names the host.
pub proof fn law_call_that_does_not_open_tells_why(
    target: TargetView,
    request: RequestView,
    detail: Seq<char>,
)
    ensures
        tells_now(
            new_call(target, request).next(EventView::Connected(Err(detail))),
            Err(ErrorView::Connect(target.host + ": "@ + detail)),
        ),
        target.tls && server_name(target.host) is None ==> tells_now(
            connected(target, request),
            Err(ErrorView::Tls("invalid server name "@ + target.host)),
        ),
        target.tls && server_name(target.host) is Some ==> {
            let call = connected(target, request).0;
            &&& tells_now(call.next(EventView::Secured(Err(detail))), Err(ErrorView::Tls(detail)))
            &&& tells_now(
                call.next(EventView::Secured(Ok(()))).0.next(EventView::Handshaken(Err(detail))),
                Err(ErrorView::Tls("handshake with "@ + target.host + ": "@ + detail)),
            )
        },
        !target.tls || server_name(target.host) is Some ==> tells(
            target.tls,
            ready(target, request).0.next(EventView::Written(Err(detail))),
            Err(ErrorView::Io("writing to "@ + target.host + ": "@ + detail)),
        ),
{
}

/// What was read is put after what was read before. The call tells the response or the error in it as
/// soon as it holds one, refuses what is larger than eight mebibytes, and reads on otherwise; where the
/// peer has closed it tells what there is.
pub proof fn law_read_decides(
    call: CallView,
    buffer: Seq<u8>,
    bytes: Seq<u8>,
    detail: Seq<char>,
)
    requires
        call.phase == PhaseView::Reading(buffer),
    ensures
        call.awaits(EventView::Received(Ok(bytes))),
        bytes.len() > 0 && buffer.len() + bytes.len() <= 8388608 ==> {
            let step = call.next(EventView::Received(Ok(bytes)));
            match response_in(buffer + bytes, false, call.head_request) {
                Ok(Some(response)) => tells(call.tls, step, Ok(response)),
                Ok(None) => {
                    &&& step.1 == ActionView::Read
                    &&& step.0 == (CallView { phase: PhaseView::Reading(buffer + bytes), ..call })
                },
                Err(error) => tells(call.tls, step, Err(error)),
            }
        },
        bytes.len() > 0 && buffer.len() + bytes.len() > 8388608 ==> tells(
            call.tls,
            call.next(EventView::Received(Ok(bytes))),
            Err(ErrorView::TooLarge),
        ),
        match response_in(buffer, true, call.head_request) {
            Ok(Some(response)) => tells(
                call.tls,
                call.next(EventView::Received(Ok(Seq::empty()))),
                Ok(response),
            ),
            Ok(None) => false,
            Err(error) => tells(
                call.tls,
                call.next(EventView::Received(Ok(Seq::empty()))),
                Err(error),
            ),
        },
        tells(
            call.tls,
            call.next(EventView::Received(Err(detail))),
            Err(ErrorView::Io("reading from "@ + call.host + ": "@ + detail)),
        ),
{
    law_end_settles(buffer, call.head_request);
}

/// An exchange that is over is told, after the session has been closed where there is one.
pub proof fn law_exchange_is_told(call: CallView, outcome: OutcomeView)
    ensures
        tells(call.tls, call.exchanged(outcome), outcome),
        tells_now(call.finished(outcome), outcome),
{
}

/// A call by HEAD, over TLS or plain, has its whole response with the head of it: the body is empty,
/// whatever the headers say and whatever follows them.
pub proof fn law_call_by_head_has_no_body(
    target: TargetView,
    request: RequestView,
    first: StatusLine,
    lines: Seq<HeadLine>,
    status: nat,
    rest: Seq<u8>,
)
    requires
        target.tls ==> server_name(target.host) is Some,
        alike(request.method, "HEAD"@),
        is_good_head(first, lines, status),
        0 < wire(first.text(), lines, rest).len() <= 8388608,
    ensures
        tells(
            target.tls,
            written(target, request).0.next(
                EventView::Received(Ok(wire(first.text(), lines, rest))),
            ),
            Ok(ResponseView { status: status as u16, headers: told(lines), body: Seq::empty() }),
        ),
{
    let bytes = wire(first.text(), lines, rest);
    let empty = Seq::<u8>::empty();
    law_call_opens(target, request);
    law_read_decides(written(target, request).0, empty, bytes, Seq::empty());
    assert(empty + bytes =~= bytes);
    law_no_body_is_read(first, lines, status, rest, false, true);
}

/// A call by any other method, over TLS or plain, tells the response that the bytes are without regard
/// to the method.
pub proof fn law_call_tells_the_response(
    target: TargetView,
    request: RequestView,
    bytes: Seq<u8>,
    outcome: OutcomeView,
)
    requires
        target.tls ==> server_name(target.host) is Some,
        !alike(request.method, "HEAD"@),
        0 < bytes.len() <= 8388608,
        response_in(bytes, false, false) == match outcome {
            Ok(response) => Ok::<Option<ResponseView>, ErrorView>(Some(response)),
            Err(error) => Err(error),
        },
    ensures
        tells(
            target.tls,
            written(target, request).0.next(EventView::Received(Ok(bytes))),
            outcome,
        ),
{
    let empty = Seq::<u8>::empty();
    law_call_opens(target, request);
    law_read_decides(written(target, request).0, empty, bytes, Seq::empty());
    assert(empty + bytes =~= bytes);
}

} // verus!
