//! The course that a request takes, step by step.

use vstd::prelude::*;

use crate::exchange;
use crate::exchange::{Action, Event, Exchange, Phase};
use crate::request::Refusal;
use crate::upstream::Write;

verus! {

/// What is done at an event.
pub open spec fn does(s: Exchange, e: Event, a: Action) -> bool {
    exchange::transition(s, e).1 == a
}

/// Where an event leads.
pub open spec fn next(s: Exchange, e: Event) -> Exchange {
    exchange::transition(s, e).0
}

/// A request that is admitted, is fit to be forwarded and is not in the cache goes to a chosen
/// backend: over a new connection its head is sent, its body passed through, and the response read,
/// examined and passed back.
#[verifier::spinoff_prover]
pub proof fn law_request_is_forwarded_and_answered(
    s: Exchange,
    has_length: bool,
    upgrade: bool,
    lookup: bool,
    n: usize,
    whole: bool,
)
    requires
        s.phase == Phase::Head,
        0 < n <= 16384,
    ensures
        ({
            let admitted = Event::Admitted { read_body: false, has_length, upgrade };
            let s1 = next(s, admitted);
            let s2 = next(s1, Event::Forward { lookup });
            let s3 = if lookup {
                next(s2, Event::CacheMiss)
            } else {
                s2
            };
            let s4 = next(s3, Event::Chosen { kept: false });
            let s5 = next(s4, Event::Connected);
            let s6 = next(s5, Event::Written(Write::Done));
            let s7 = next(s6, Event::BodyPassed);
            let s8 = next(s7, Event::Received { n });
            let s9 = next(s8, Event::Response { whole });
            &&& does(s, admitted, Action::Judge)
            &&& lookup ==> does(s1, Event::Forward { lookup }, Action::LookUp)
            &&& lookup ==> does(s2, Event::CacheMiss, Action::Choose)
            &&& !lookup ==> does(s1, Event::Forward { lookup }, Action::Choose)
            &&& does(s3, Event::Chosen { kept: false }, Action::Connect)
            &&& does(s4, Event::Connected, Action::Send)
            &&& does(s5, Event::Written(Write::Done), Action::PassBody)
            &&& does(s6, Event::BodyPassed, Action::ReadResponse)
            &&& does(s7, Event::Received { n }, Action::Examine)
            &&& s8.wait.pos == n
            &&& whole ==> does(s8, Event::Response { whole }, Action::AnswerWhole)
            &&& whole ==> does(s9, Event::Written(Write::Done), Action::Finish)
            &&& !whole ==> does(s8, Event::Response { whole }, Action::Answer)
            &&& !whole ==> does(s9, Event::Written(Write::Done), Action::PassBack)
            &&& !whole ==> does(
                next(s9, Event::Written(Write::Done)),
                Event::ResponsePassed,
                Action::Finish,
            )
        }),
{
}

/// A body that its route judges is read before the request is judged, and sent from what was read:
/// with the head where they go together, otherwise behind it.
#[verifier::spinoff_prover]
pub proof fn law_judged_body_is_sent_as_read(s: Exchange, has_length: bool, upgrade: bool)
    requires
        s.phase == Phase::Head,
    ensures
        ({
            let admitted = Event::Admitted { read_body: true, has_length, upgrade };
            let s1 = next(s, admitted);
            let s2 = next(s1, Event::BodyRead);
            let s3 = next(s2, Event::Forward { lookup: false });
            let s4 = next(s3, Event::Chosen { kept: true });
            let s5 = next(s4, Event::Written(Write::Done));
            &&& does(s, admitted, Action::ReadBody)
            &&& does(s1, Event::BodyRead, Action::Judge)
            &&& does(s2, Event::Forward { lookup: false }, Action::Choose)
            &&& does(s3, Event::Chosen { kept: true }, Action::Send)
            &&& s.combined ==> does(s4, Event::Written(Write::Done), Action::ReadResponse)
            &&& !s.combined ==> does(s4, Event::Written(Write::Done), Action::SendBody)
            &&& !s.combined ==> does(s5, Event::Written(Write::Done), Action::ReadResponse)
        }),
{
}

/// An answer from the cache is served, and no backend is asked.
#[verifier::spinoff_prover]
pub proof fn law_hit_is_served(s: Exchange)
    requires
        s.phase == Phase::Lookup,
    ensures
        does(s, Event::CacheHit, Action::ServeHit),
        does(next(s, Event::CacheHit), Event::Written(Write::Done), Action::Finish),
        does(next(s, Event::CacheHit), Event::Written(Write::Failed), Action::Close),
{
}

/// A refusal, whatever it is, is what the client is told; a rule that answers does so itself.
#[verifier::spinoff_prover]
pub proof fn law_refusals_are_told(s: Exchange, r: Refusal)
    requires
        s.phase == Phase::Head || s.phase == Phase::Judged,
    ensures
        does(s, Event::Refused(r), Action::Refuse(r)),
        next(s, Event::Refused(r)).phase == Phase::Done,
        s.phase == Phase::Judged ==> does(s, Event::RuleAnswered, Action::AnswerByRule),
        s.phase == Phase::Head ==> does(s, Event::HeadPartial, Action::ReadHead),
{
}

/// A backend that cannot be connected to is followed by another, up to three in all; after that, and
/// where there is none, the client is told of a bad gateway.
#[verifier::spinoff_prover]
pub proof fn law_failed_connections(s: Exchange)
    requires
        s.phase == Phase::Connecting,
        s.failed < 3,
    ensures
        s.failed < 2 ==> does(s, Event::ConnectFailed, Action::Choose) && next(
            s,
            Event::ConnectFailed,
        ).failed == s.failed + 1 && next(s, Event::ConnectFailed).phase == Phase::Selecting,
        s.failed == 2 ==> does(s, Event::ConnectFailed, Action::Refuse(Refusal::BadGateway)),
        does(
            (Exchange { phase: Phase::Selecting, ..s }),
            Event::NoBackend,
            Action::Refuse(Refusal::BadGateway),
        ),
{
}

/// A body that turns out too large is told as such; one that breaks off ends the connection.
#[verifier::spinoff_prover]
pub proof fn law_bodies_that_fail(s: Exchange)
    requires
        s.phase == Phase::PassingBody,
    ensures
        does(s, Event::BodyTooLarge, Action::Refuse(Refusal::TooLarge)),
        does(s, Event::BodyBroken, Action::Close),
{
}

/// A kept connection that fails is replaced: at once where the write fails, and, where the backend
/// closes it before any answer, if the request can be sent again and was not yet. A connection that
/// was new, or closes a second time, is told as a bad gateway; one that closes within an answer ends
/// the client's.
#[verifier::spinoff_prover]
pub proof fn law_stale_connections(s: Exchange)
    ensures
        s.phase == Phase::Sending && s.wait.kept ==> does(
            s,
            Event::Written(Write::Failed),
            Action::Connect,
        ),
        s.phase == Phase::Sending && !s.wait.kept ==> does(
            s,
            Event::Written(Write::Failed),
            Action::Refuse(Refusal::BadGateway),
        ),
        s.phase == Phase::Waiting && s.wait.pos > 0 ==> does(s, Event::Closed, Action::Close),
        s.phase == Phase::Waiting && s.wait.pos == 0 && s.wait.kept && !s.wait.retried && !s.upgrade
            && (!s.has_length || s.body_kept) ==> does(s, Event::Closed, Action::Connect) && next(
            s,
            Event::Closed,
        ).phase == Phase::ResendConnecting,
        s.phase == Phase::Waiting && s.wait.pos == 0 && (!s.wait.kept || s.wait.retried || s.upgrade
            || (s.has_length && !s.body_kept)) ==> does(
            s,
            Event::Closed,
            Action::Refuse(Refusal::BadGateway),
        ),
        s.phase == Phase::ResendConnecting ==> does(s, Event::Connected, Action::ResendHead),
        s.phase == Phase::ResendingHead && s.body_kept ==> does(
            s,
            Event::Written(Write::Done),
            Action::ResendBody,
        ),
        s.phase == Phase::ResendingHead && !s.body_kept ==> does(
            s,
            Event::Written(Write::Done),
            Action::ReadResponse,
        ),
        s.phase == Phase::ResendingBody ==> does(
            s,
            Event::Written(Write::Done),
            Action::ReadResponse,
        ),
{
}

/// While a response is awaited: an interim one is passed on and the rest examined anew; an
/// incomplete one is read on; one that switches protocols becomes a tunnel; and a backend that takes
/// too long ends the connection.
#[verifier::spinoff_prover]
pub proof fn law_while_a_response_is_awaited(s: Exchange, n: usize)
    ensures
        s.phase == Phase::Examining && n <= s.wait.pos ==> does(
            s,
            Event::Interim { n },
            Action::PassInterim { n },
        ) && next(s, Event::Interim { n }).wait.pos == s.wait.pos - n && does(
            next(s, Event::Interim { n }),
            Event::Written(Write::Done),
            Action::Examine,
        ),
        s.phase == Phase::Examining && s.wait.pos < 16384 ==> does(
            s,
            Event::ResponsePartial,
            Action::ReadResponse,
        ),
        s.phase == Phase::Examining && s.wait.pos == 16384 ==> does(
            s,
            Event::ResponsePartial,
            Action::Close,
        ),
        s.phase == Phase::Examining ==> does(s, Event::Switch, Action::PassSwitch) && does(
            next(s, Event::Switch),
            Event::Written(Write::Done),
            Action::Tunnel,
        ),
        s.phase == Phase::Waiting ==> does(s, Event::TimedOut, Action::Close),
        s.phase == Phase::PassingBack ==> does(s, Event::ResponseBroken, Action::Close),
{
}

/// A write that fails towards the client ends the connection, whatever was being passed on, and so does
/// a request that is lost on its way.
#[verifier::spinoff_prover]
pub proof fn law_broken_writes(s: Exchange, w: Write)
    requires
        w != Write::Done,
        s.phase == Phase::PassingInterim || s.phase == Phase::Switching || s.phase
            == Phase::AnsweringWhole || s.phase == Phase::Answering || s.phase == Phase::Hit || ((
        s.phase == Phase::Sending || s.phase == Phase::SendingAgain) && w == Write::Lost),
    ensures
        does(s, Event::Written(w), Action::Close),
        next(s, Event::Written(w)).phase == Phase::Done,
{
}

/// A second attempt is the last: where it cannot connect, or cannot write, the client is told of a bad
/// gateway.
#[verifier::spinoff_prover]
pub proof fn law_second_attempts(s: Exchange)
    ensures
        s.phase == Phase::Reconnecting || s.phase == Phase::ResendConnecting ==> does(
            s,
            Event::ConnectFailed,
            Action::Refuse(Refusal::BadGateway),
        ),
        s.phase == Phase::SendingAgain || s.phase == Phase::ResendingHead || s.phase
            == Phase::ResendingBody ==> does(
            s,
            Event::Written(Write::Failed),
            Action::Refuse(Refusal::BadGateway),
        ),
        s.phase == Phase::Reconnecting ==> does(s, Event::Connected, Action::Send) && next(
            s,
            Event::Connected,
        ).phase == Phase::SendingAgain,
        s.phase == Phase::SendingAgain && !s.body_kept ==> does(
            s,
            Event::Written(Write::Done),
            Action::PassBody,
        ),
        s.phase == Phase::SendingAgain && s.body_kept && !s.combined ==> does(
            s,
            Event::Written(Write::Done),
            Action::SendBody,
        ),
        s.phase == Phase::SendingAgain && s.body_kept && s.combined ==> does(
            s,
            Event::Written(Write::Done),
            Action::ReadResponse,
        ),
{
}

/// A body that was written is waited upon whatever became of the write, and is still there unless it
/// was lost.
#[verifier::spinoff_prover]
pub proof fn law_written_body(s: Exchange, w: Write)
    requires
        s.phase == Phase::SendingBody,
    ensures
        does(s, Event::Written(w), Action::ReadResponse),
        next(s, Event::Written(w)).phase == Phase::Waiting,
        next(s, Event::Written(w)).body_kept <==> w != Write::Lost,
{
}

/// What is known of a connection: whether it was kept, that nothing has come over it yet, and, of one
/// that replaces another, that there was another.
#[verifier::spinoff_prover]
pub proof fn law_what_is_known_of_a_connection(s: Exchange)
    ensures
        s.phase == Phase::Selecting ==> {
            let t = next(s, Event::Chosen { kept: true });
            t.wait.kept && !t.wait.retried && t.wait.pos == 0 && t.phase == Phase::Sending
        },
        s.phase == Phase::Connecting ==> {
            let t = next(s, Event::Connected);
            !t.wait.kept && !t.wait.retried && t.wait.pos == 0 && t.phase == Phase::Sending
        },
        s.phase == Phase::Waiting && next(s, Event::Closed).phase == Phase::ResendConnecting ==> {
            let t = next(s, Event::Closed);
            !t.wait.kept && t.wait.retried && t.wait.pos == 0
        },
{
}

/// The head that is read, the body that is announced and the protocol that is asked for are noted as
/// they are.
#[verifier::spinoff_prover]
pub proof fn law_what_is_noted_of_a_request(
    s: Exchange,
    read_body: bool,
    has_length: bool,
    upgrade: bool,
)
    requires
        s.phase == Phase::Head,
    ensures
        ({
            let t = next(s, Event::Admitted { read_body, has_length, upgrade });
            &&& t.has_length == has_length
            &&& t.upgrade == upgrade
            &&& t.body_kept == read_body
            &&& t.combined == s.combined
            &&& t.failed == s.failed
            &&& t.phase == if read_body {
                Phase::Body
            } else {
                Phase::Judged
            }
        }),
{
}

/// What does not fit ends the connection: a response that overflows its buffer, an interim response
/// longer than what came, and any event in an exchange that is over.
#[verifier::spinoff_prover]
pub proof fn law_what_does_not_fit(s: Exchange, e: Event, n: usize)
    ensures
        s.phase == Phase::Done ==> does(s, e, Action::Close),
        s.phase == Phase::Waiting && (n == 0 || s.wait.pos + n > 16384) ==> does(
            s,
            Event::Received { n },
            Action::Close,
        ),
        s.phase == Phase::Examining && n > s.wait.pos ==> does(s, Event::Interim { n }, Action::Close),
        s.phase == Phase::Waiting && 0 < n && s.wait.pos + n <= 16384 ==> next(
            s,
            Event::Received { n },
        ).wait.pos == s.wait.pos + n,
{
}

} // verus!
