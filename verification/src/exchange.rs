//! The course of one request on a connection, from its head to the end of its response: what is
//! done next, by what has happened.

use vstd::prelude::*;

use crate::buf_pool::BUF_SIZE;
use crate::request::Refusal;
use crate::upstream;
use crate::upstream::{after_write, replayable, AfterClose, AfterWrite, ResponseWait, Write};
use crate::upstream::MAX_BACKEND_TRIES;

verus! {

/// Where a request stands.
#[derive(Clone, Copy, PartialEq, Eq, Structural, Debug)]
pub enum Phase {
    /// Its head is read and judged.
    Head,
    /// Its body is read, because the route judges it.
    Body,
    /// It is judged with its body.
    Judged,
    /// It is looked up in the cache.
    Lookup,
    /// An answer from the cache is written.
    Hit,
    /// A backend is chosen.
    Selecting,
    /// The chosen backend is connected to.
    Connecting,
    /// The request is written, on a connection that may have gone stale.
    Sending,
    /// The backend is connected to anew.
    Reconnecting,
    /// The request is written on the new connection.
    SendingAgain,
    /// A body that was read already is written.
    SendingBody,
    /// A body is passed through.
    PassingBody,
    /// The response head is awaited.
    Waiting,
    /// The backend is connected to anew, to send the whole request once more.
    ResendConnecting,
    /// The head is sent once more.
    ResendingHead,
    /// The body is sent once more.
    ResendingBody,
    /// What came of the response is examined.
    Examining,
    /// An interim response is passed on.
    PassingInterim,
    /// The answer that switches protocols is passed on.
    Switching,
    /// The whole response is written.
    AnsweringWhole,
    /// The response head is written.
    Answering,
    /// The body of the response is passed on.
    PassingBack,
    /// Nothing more is done for this request.
    Done,
}

/// What has happened.
#[derive(Clone, Copy, PartialEq, Eq, Structural, Debug)]
pub enum Event {
    /// The head has not ended, and there is room for more.
    HeadPartial,
    /// The request is refused.
    Refused(Refusal),
    /// A rule of the route answers the request.
    RuleAnswered,
    /// The head passed its checks. It says whether the body is read first, and whether there is one.
    Admitted { read_body: bool, has_length: bool, upgrade: bool },
    /// The body that is judged was read.
    BodyRead,
    /// The request is to be forwarded. It says whether it is looked up in the cache first.
    Forward { lookup: bool },
    /// The cache has an answer.
    CacheHit,
    /// The cache has none.
    CacheMiss,
    /// A backend was chosen. It says whether a connection to it was kept.
    Chosen { kept: bool },
    /// There is no backend.
    NoBackend,
    /// The backend was connected to.
    Connected,
    /// It was not.
    ConnectFailed,
    /// A write ended.
    Written(Write),
    /// The client's body was passed through.
    BodyPassed,
    /// It turned out too large.
    BodyTooLarge,
    /// It broke off.
    BodyBroken,
    /// Bytes of the response came.
    Received { n: usize },
    /// The backend closed the connection.
    Closed,
    /// The backend took too long.
    TimedOut,
    /// The response begins with an interim one of the given length.
    Interim { n: usize },
    /// The response head has not ended.
    ResponsePartial,
    /// The response switches protocols.
    Switch,
    /// The response head is there. It says whether the whole response is, and fits one write.
    Response { whole: bool },
    /// The body of the response was passed on.
    ResponsePassed,
    /// It broke off.
    ResponseBroken,
}

/// What is to be done.
#[derive(Clone, Copy, PartialEq, Eq, Structural, Debug)]
pub enum Action {
    /// Read more of the head and judge it again.
    ReadHead,
    /// Read the body.
    ReadBody,
    /// Judge the request with its body.
    Judge,
    /// Look the request up in the cache.
    LookUp,
    /// Write the answer from the cache.
    ServeHit,
    /// Choose a backend, other than those that failed.
    Choose,
    /// Connect to the chosen backend.
    Connect,
    /// Write the request: its head, with the body where both fit one write.
    Send,
    /// Write the body that was read already, where it is not part of that write.
    SendBody,
    /// Pass the client's body through.
    PassBody,
    /// Read from the backend.
    ReadResponse,
    /// Write the head of the request once more.
    ResendHead,
    /// Write its body once more.
    ResendBody,
    /// Examine what came of the response.
    Examine,
    /// Pass the given number of bytes on, as an interim response.
    PassInterim { n: usize },
    /// Pass on what came of the answer that switches protocols.
    PassSwitch,
    /// Tie both connections together.
    Tunnel,
    /// Write the whole response.
    AnswerWhole,
    /// Write the response head.
    Answer,
    /// Pass the body of the response on.
    PassBack,
    /// Keep what is kept of the exchange, and go on with the next request or close.
    Finish,
    /// Answer with a refusal and close.
    Refuse(Refusal),
    /// Answer with the fixed response of a rule and close.
    AnswerByRule,
    /// Close without an answer.
    Close,
}

/// The course of one request.
#[derive(Clone, Copy, PartialEq, Eq, Structural, Debug)]
pub struct Exchange {
    pub phase: Phase,
    /// Backends that could not be reached.
    pub failed: usize,
    /// Whether the request has a body, of declared length or chunked.
    pub has_length: bool,
    /// Whether the body was read and is still there.
    pub body_kept: bool,
    /// Whether the body is part of the write of the head.
    pub combined: bool,
    /// Whether the client asks for another protocol.
    pub upgrade: bool,
    /// How far the response head has come.
    pub wait: ResponseWait,
}

/// The end: nothing more is done.
pub open spec fn ended(s: Exchange, a: Action) -> (Exchange, Action) {
    (Exchange { phase: Phase::Done, ..s }, a)
}

/// The next phase and what is done in it.
pub open spec fn go(s: Exchange, phase: Phase, a: Action) -> (Exchange, Action) {
    (Exchange { phase, ..s }, a)
}

/// What follows the write of the request: the body, in one way or the other.
pub open spec fn send_rest(s: Exchange) -> (Exchange, Action) {
    if s.body_kept && s.combined {
        go(s, Phase::Waiting, Action::ReadResponse)
    } else if s.body_kept {
        go(s, Phase::SendingBody, Action::SendBody)
    } else {
        go(s, Phase::PassingBody, Action::PassBody)
    }
}

/// What follows what has happened. What does not fit the phase ends the connection.
pub open spec fn transition(s: Exchange, e: Event) -> (Exchange, Action) {
    match (s.phase, e) {
        // Judging the request.
        (Phase::Head, Event::HeadPartial) => go(s, Phase::Head, Action::ReadHead),
        (Phase::Head, Event::Refused(r)) => ended(s, Action::Refuse(r)),
        (Phase::Head, Event::Admitted { read_body, has_length, upgrade }) => {
            let t = Exchange { has_length, upgrade, body_kept: read_body, ..s };
            if read_body {
                go(t, Phase::Body, Action::ReadBody)
            } else {
                go(t, Phase::Judged, Action::Judge)
            }
        },
        (Phase::Body, Event::BodyRead) => go(s, Phase::Judged, Action::Judge),
        (Phase::Judged, Event::Refused(r)) => ended(s, Action::Refuse(r)),
        (Phase::Judged, Event::RuleAnswered) => ended(s, Action::AnswerByRule),
        (Phase::Judged, Event::Forward { lookup }) => if lookup {
            go(s, Phase::Lookup, Action::LookUp)
        } else {
            go(s, Phase::Selecting, Action::Choose)
        },
        (Phase::Lookup, Event::CacheHit) => go(s, Phase::Hit, Action::ServeHit),
        (Phase::Lookup, Event::CacheMiss) => go(s, Phase::Selecting, Action::Choose),
        (Phase::Hit, Event::Written(w)) => ended(
            s,
            if w == Write::Done {
                Action::Finish
            } else {
                Action::Close
            },
        ),
        // Reaching a backend.
        (Phase::Selecting, Event::NoBackend) => ended(s, Action::Refuse(Refusal::BadGateway)),
        (Phase::Selecting, Event::Chosen { kept }) => if kept {
            go(
                Exchange { wait: ResponseWait { pos: 0, kept: true, retried: false }, ..s },
                Phase::Sending,
                Action::Send,
            )
        } else {
            go(s, Phase::Connecting, Action::Connect)
        },
        (Phase::Connecting, Event::Connected) => go(
            Exchange { wait: ResponseWait { pos: 0, kept: false, retried: false }, ..s },
            Phase::Sending,
            Action::Send,
        ),
        (Phase::Connecting, Event::ConnectFailed) => if s.failed + 1 < MAX_BACKEND_TRIES {
            go(
                Exchange { failed: (s.failed + 1) as usize, ..s },
                Phase::Selecting,
                Action::Choose,
            )
        } else {
            ended(s, Action::Refuse(Refusal::BadGateway))
        },
        // Sending the request.
        (Phase::Sending, Event::Written(w)) => match w {
            Write::Done => send_rest(s),
            Write::Lost => ended(s, Action::Close),
            Write::Failed => if s.wait.kept {
                go(s, Phase::Reconnecting, Action::Connect)
            } else {
                ended(s, Action::Refuse(Refusal::BadGateway))
            },
        },
        (Phase::Reconnecting, Event::Connected) => go(s, Phase::SendingAgain, Action::Send),
        (Phase::Reconnecting, Event::ConnectFailed) => ended(
            s,
            Action::Refuse(Refusal::BadGateway),
        ),
        (Phase::SendingAgain, Event::Written(w)) => match w {
            Write::Done => send_rest(s),
            Write::Lost => ended(s, Action::Close),
            Write::Failed => ended(s, Action::Refuse(Refusal::BadGateway)),
        },
        (Phase::SendingBody, Event::Written(w)) => go(
            Exchange { body_kept: w != Write::Lost, ..s },
            Phase::Waiting,
            Action::ReadResponse,
        ),
        (Phase::PassingBody, Event::BodyPassed) => go(s, Phase::Waiting, Action::ReadResponse),
        (Phase::PassingBody, Event::BodyTooLarge) => ended(s, Action::Refuse(Refusal::TooLarge)),
        (Phase::PassingBody, Event::BodyBroken) => ended(s, Action::Close),
        // Awaiting the response.
        (Phase::Waiting, Event::TimedOut) => ended(s, Action::Close),
        (Phase::Waiting, Event::Received { n }) => if n > 0 && s.wait.pos + n <= BUF_SIZE {
            go(
                Exchange {
                    wait: ResponseWait { pos: (s.wait.pos + n) as usize, ..s.wait },
                    ..s
                },
                Phase::Examining,
                Action::Examine,
            )
        } else {
            ended(s, Action::Close)
        },
        (Phase::Waiting, Event::Closed) => {
            let can_replay = !s.upgrade && (!s.has_length || s.body_kept);
            let (answer, wait) = upstream::close_step(s.wait, can_replay);
            match answer {
                AfterClose::Resend => go(
                    Exchange { wait, ..s },
                    Phase::ResendConnecting,
                    Action::Connect,
                ),
                AfterClose::Refuse(r) => ended(s, Action::Refuse(r)),
                AfterClose::Drop => ended(s, Action::Close),
            }
        },
        (Phase::ResendConnecting, Event::Connected) => go(
            s,
            Phase::ResendingHead,
            Action::ResendHead,
        ),
        (Phase::ResendConnecting, Event::ConnectFailed) => ended(
            s,
            Action::Refuse(Refusal::BadGateway),
        ),
        (Phase::ResendingHead, Event::Written(w)) => if w != Write::Done {
            ended(s, Action::Refuse(Refusal::BadGateway))
        } else if s.body_kept {
            go(s, Phase::ResendingBody, Action::ResendBody)
        } else {
            go(s, Phase::Waiting, Action::ReadResponse)
        },
        (Phase::ResendingBody, Event::Written(w)) => if w == Write::Done {
            go(s, Phase::Waiting, Action::ReadResponse)
        } else {
            ended(s, Action::Refuse(Refusal::BadGateway))
        },
        // Passing the response on.
        (Phase::Examining, Event::Interim { n }) => if n <= s.wait.pos {
            go(
                Exchange { wait: ResponseWait { pos: (s.wait.pos - n) as usize, ..s.wait }, ..s },
                Phase::PassingInterim,
                Action::PassInterim { n },
            )
        } else {
            ended(s, Action::Close)
        },
        (Phase::PassingInterim, Event::Written(w)) => if w == Write::Done {
            go(s, Phase::Examining, Action::Examine)
        } else {
            ended(s, Action::Close)
        },
        (Phase::Examining, Event::ResponsePartial) => if s.wait.pos == BUF_SIZE {
            ended(s, Action::Close)
        } else {
            go(s, Phase::Waiting, Action::ReadResponse)
        },
        (Phase::Examining, Event::Switch) => go(s, Phase::Switching, Action::PassSwitch),
        (Phase::Switching, Event::Written(w)) => ended(
            s,
            if w == Write::Done {
                Action::Tunnel
            } else {
                Action::Close
            },
        ),
        (Phase::Examining, Event::Response { whole }) => if whole {
            go(s, Phase::AnsweringWhole, Action::AnswerWhole)
        } else {
            go(s, Phase::Answering, Action::Answer)
        },
        (Phase::AnsweringWhole, Event::Written(w)) => ended(
            s,
            if w == Write::Done {
                Action::Finish
            } else {
                Action::Close
            },
        ),
        (Phase::Answering, Event::Written(w)) => if w == Write::Done {
            go(s, Phase::PassingBack, Action::PassBack)
        } else {
            ended(s, Action::Close)
        },
        (Phase::PassingBack, Event::ResponsePassed) => ended(s, Action::Finish),
        (Phase::PassingBack, Event::ResponseBroken) => ended(s, Action::Close),
        _ => ended(s, Action::Close),
    }
}

/// Before anything has happened.
pub open spec fn start() -> Exchange {
    Exchange {
        phase: Phase::Head,
        failed: 0,
        has_length: false,
        body_kept: false,
        combined: false,
        upgrade: false,
        wait: ResponseWait { pos: 0, kept: false, retried: false },
    }
}

impl Exchange {
    /// Before anything has happened.
    pub fn new() -> (r: Exchange)
        ensures
            r == start(),
    {
        Exchange {
            phase: Phase::Head,
            failed: 0,
            has_length: false,
            body_kept: false,
            combined: false,
            upgrade: false,
            wait: ResponseWait::new(false),
        }
    }

    /// Notes whether the body is part of the write of the head.
    pub fn set_combined(&mut self, combined: bool)
        ensures
            *final(self) == (Exchange { combined, ..*old(self) }),
    {
        self.combined = combined;
    }

    fn go(&mut self, phase: Phase, a: Action) -> (r: Action)
        ensures
            (*final(self), r) == go(*old(self), phase, a),
    {
        self.phase = phase;
        a
    }

    fn end(&mut self, a: Action) -> (r: Action)
        ensures
            (*final(self), r) == ended(*old(self), a),
    {
        self.phase = Phase::Done;
        a
    }

    fn send_rest(&mut self) -> (r: Action)
        ensures
            (*final(self), r) == send_rest(*old(self)),
    {
        if self.body_kept && self.combined {
            self.go(Phase::Waiting, Action::ReadResponse)
        } else if self.body_kept {
            self.go(Phase::SendingBody, Action::SendBody)
        } else {
            self.go(Phase::PassingBody, Action::PassBody)
        }
    }

    fn sent(&mut self, w: Write, kept: bool) -> (r: Action)
        ensures
            (*final(self), r) == (match w {
                Write::Done => send_rest(*old(self)),
                Write::Lost => ended(*old(self), Action::Close),
                Write::Failed => if kept {
                    go(*old(self), Phase::Reconnecting, Action::Connect)
                } else {
                    ended(*old(self), Action::Refuse(Refusal::BadGateway))
                },
            }),
    {
        match after_write(w, kept) {
            AfterWrite::Sent => self.send_rest(),
            AfterWrite::Reconnect => self.go(Phase::Reconnecting, Action::Connect),
            AfterWrite::Refuse(x) => self.end(Action::Refuse(x)),
            AfterWrite::Drop => self.end(Action::Close),
        }
    }

    fn backend_closed(&mut self) -> (r: Action)
        requires
            old(self).phase == Phase::Waiting,
        ensures
            (*final(self), r) == transition(*old(self), Event::Closed),
    {
        let n: usize = if self.has_length {
            1
        } else {
            0
        };
        let can_replay = replayable(self.upgrade, n, false, self.body_kept);
        let mut wait = self.wait;
        match wait.closed(can_replay) {
            AfterClose::Resend => {
                self.wait = wait;
                self.go(Phase::ResendConnecting, Action::Connect)
            },
            AfterClose::Refuse(x) => self.end(Action::Refuse(x)),
            AfterClose::Drop => self.end(Action::Close),
        }
    }

    /// Says what is done next, by what has happened.
    #[verifier::spinoff_prover]
    #[verifier::rlimit(60)]
    pub fn step(&mut self, e: Event) -> (r: Action)
        ensures
            (*final(self), r) == transition(*old(self), e),
    {
        match (self.phase, e) {
            (Phase::Head, Event::HeadPartial) => self.go(Phase::Head, Action::ReadHead),
            (Phase::Head, Event::Refused(x)) => self.end(Action::Refuse(x)),
            (Phase::Head, Event::Admitted { read_body, has_length, upgrade }) => {
                self.has_length = has_length;
                self.upgrade = upgrade;
                self.body_kept = read_body;
                if read_body {
                    self.go(Phase::Body, Action::ReadBody)
                } else {
                    self.go(Phase::Judged, Action::Judge)
                }
            },
            (Phase::Body, Event::BodyRead) => self.go(Phase::Judged, Action::Judge),
            (Phase::Judged, Event::Refused(x)) => self.end(Action::Refuse(x)),
            (Phase::Judged, Event::RuleAnswered) => self.end(Action::AnswerByRule),
            (Phase::Judged, Event::Forward { lookup }) => if lookup {
                self.go(Phase::Lookup, Action::LookUp)
            } else {
                self.go(Phase::Selecting, Action::Choose)
            },
            (Phase::Lookup, Event::CacheHit) => self.go(Phase::Hit, Action::ServeHit),
            (Phase::Lookup, Event::CacheMiss) => self.go(Phase::Selecting, Action::Choose),
            (Phase::Hit, Event::Written(w)) => match w {
                Write::Done => self.end(Action::Finish),
                _ => self.end(Action::Close),
            },
            (Phase::Selecting, Event::NoBackend) => self.end(Action::Refuse(Refusal::BadGateway)),
            (Phase::Selecting, Event::Chosen { kept }) => if kept {
                self.wait = ResponseWait::new(true);
                self.go(Phase::Sending, Action::Send)
            } else {
                self.go(Phase::Connecting, Action::Connect)
            },
            (Phase::Connecting, Event::Connected) => {
                self.wait = ResponseWait::new(false);
                self.go(Phase::Sending, Action::Send)
            },
            (Phase::Connecting, Event::ConnectFailed) => if self.failed < MAX_BACKEND_TRIES - 1 {
                self.failed = self.failed + 1;
                self.go(Phase::Selecting, Action::Choose)
            } else {
                self.end(Action::Refuse(Refusal::BadGateway))
            },
            (Phase::Sending, Event::Written(w)) => {
                let kept = self.wait.kept;
                self.sent(w, kept)
            },
            (Phase::Reconnecting, Event::Connected) => self.go(Phase::SendingAgain, Action::Send),
            (Phase::Reconnecting, Event::ConnectFailed) => self.end(
                Action::Refuse(Refusal::BadGateway),
            ),
            (Phase::SendingAgain, Event::Written(w)) => self.sent(w, false),
            (Phase::SendingBody, Event::Written(w)) => {
                self.body_kept = match w {
                    Write::Lost => false,
                    _ => true,
                };
                self.go(Phase::Waiting, Action::ReadResponse)
            },
            (Phase::PassingBody, Event::BodyPassed) => self.go(
                Phase::Waiting,
                Action::ReadResponse,
            ),
            (Phase::PassingBody, Event::BodyTooLarge) => self.end(
                Action::Refuse(Refusal::TooLarge),
            ),
            (Phase::PassingBody, Event::BodyBroken) => self.end(Action::Close),
            (Phase::Waiting, Event::TimedOut) => self.end(Action::Close),
            (Phase::Waiting, Event::Received { n }) => if n > 0 && self.wait.pos <= BUF_SIZE && n
                <= BUF_SIZE - self.wait.pos {
                self.wait.received(n);
                self.go(Phase::Examining, Action::Examine)
            } else {
                self.end(Action::Close)
            },
            (Phase::Waiting, Event::Closed) => self.backend_closed(),
            (Phase::ResendConnecting, Event::Connected) => self.go(
                Phase::ResendingHead,
                Action::ResendHead,
            ),
            (Phase::ResendConnecting, Event::ConnectFailed) => self.end(
                Action::Refuse(Refusal::BadGateway),
            ),
            (Phase::ResendingHead, Event::Written(w)) => match w {
                Write::Done => if self.body_kept {
                    self.go(Phase::ResendingBody, Action::ResendBody)
                } else {
                    self.go(Phase::Waiting, Action::ReadResponse)
                },
                _ => self.end(Action::Refuse(Refusal::BadGateway)),
            },
            (Phase::ResendingBody, Event::Written(w)) => match w {
                Write::Done => self.go(Phase::Waiting, Action::ReadResponse),
                _ => self.end(Action::Refuse(Refusal::BadGateway)),
            },
            (Phase::Examining, Event::Interim { n }) => if n <= self.wait.pos {
                self.wait.passed_interim(n);
                self.go(Phase::PassingInterim, Action::PassInterim { n })
            } else {
                self.end(Action::Close)
            },
            (Phase::PassingInterim, Event::Written(w)) => match w {
                Write::Done => self.go(Phase::Examining, Action::Examine),
                _ => self.end(Action::Close),
            },
            (Phase::Examining, Event::ResponsePartial) => if self.wait.is_full() {
                self.end(Action::Close)
            } else {
                self.go(Phase::Waiting, Action::ReadResponse)
            },
            (Phase::Examining, Event::Switch) => self.go(Phase::Switching, Action::PassSwitch),
            (Phase::Switching, Event::Written(w)) => match w {
                Write::Done => self.end(Action::Tunnel),
                _ => self.end(Action::Close),
            },
            (Phase::Examining, Event::Response { whole }) => if whole {
                self.go(Phase::AnsweringWhole, Action::AnswerWhole)
            } else {
                self.go(Phase::Answering, Action::Answer)
            },
            (Phase::AnsweringWhole, Event::Written(w)) => match w {
                Write::Done => self.end(Action::Finish),
                _ => self.end(Action::Close),
            },
            (Phase::Answering, Event::Written(w)) => match w {
                Write::Done => self.go(Phase::PassingBack, Action::PassBack),
                _ => self.end(Action::Close),
            },
            (Phase::PassingBack, Event::ResponsePassed) => self.end(Action::Finish),
            (Phase::PassingBack, Event::ResponseBroken) => self.end(Action::Close),
            _ => self.end(Action::Close),
        }
    }
}

// ---------------------------------------------------------------------------
// Laws
// ---------------------------------------------------------------------------

/// Where a request stands after some events. The body may become part of the write of the head at
/// any time; `combined` says whether it did.
pub open spec fn after(es: Seq<Event>, combined: bool) -> Exchange
    decreases es.len(),
{
    if es.len() == 0 {
        Exchange { combined, ..start() }
    } else {
        transition(after(es.drop_last(), combined), es.last()).0
    }
}

/// What is done after the last of some events.
pub open spec fn last_action(es: Seq<Event>, combined: bool) -> Action {
    transition(after(es.drop_last(), combined), es.last()).1
}

/// Whether a phase lies behind all checks: the request is on its way to a backend, or its response
/// on its way back.
pub open spec fn on_its_way(p: Phase) -> bool {
    !(p is Head || p is Body || p is Judged || p is Lookup || p is Hit || p is Done)
}

/// Whether an action reaches a backend.
pub open spec fn reaches_backend(a: Action) -> bool {
    ||| a is Choose
    ||| a is Connect
    ||| a is Send
    ||| a is SendBody
    ||| a is PassBody
    ||| a is ResendHead
    ||| a is ResendBody
}

/// Whether a request was admitted and judged fit to be forwarded.
pub open spec fn checked(es: Seq<Event>) -> bool {
    exists|i: int, j: int|
        0 <= i < j < es.len() && (#[trigger] es[i]) is Admitted && (#[trigger] es[j]) is Forward
}

/// Whether a request was admitted.
pub open spec fn was_admitted(es: Seq<Event>) -> bool {
    exists|i: int| 0 <= i < es.len() && (#[trigger] es[i]) is Admitted
}

proof fn lemma_checked(es: Seq<Event>, combined: bool)
    ensures
        ({
            let p = after(es, combined).phase;
            &&& p is Body || p is Judged ==> was_admitted(es)
            &&& p is Lookup || p is Hit || on_its_way(p) ==> checked(es)
        }),
    decreases es.len(),
{
    if es.len() > 0 {
        let t = es.drop_last();
        lemma_checked(t, combined);
        let s = after(t, combined);
        if was_admitted(t) {
            let i = choose|i: int| 0 <= i < t.len() && (#[trigger] t[i]) is Admitted;
            assert(es[i] is Admitted);
        }
        if checked(t) {
            let (i, j) = choose|i: int, j: int|
                0 <= i < j < t.len() && (#[trigger] t[i]) is Admitted && (#[trigger] t[j])
                    is Forward;
            assert(es[i] is Admitted && es[j] is Forward);
        }
        let last = es.len() - 1;
        if es.last() is Admitted {
            assert(es[last] is Admitted);
        }
        if es.last() is Forward && s.phase is Judged {
            let i = choose|i: int| 0 <= i < t.len() && (#[trigger] t[i]) is Admitted;
            assert(es[i] is Admitted && es[last] is Forward);
        }
    }
}

proof fn lemma_reaching(s: Exchange, e: Event)
    requires
        reaches_backend(transition(s, e).1),
    ensures
        on_its_way(transition(s, e).0.phase),
{
}

/// Nothing reaches a backend of a request that was not admitted by its head, and then judged fit to
/// be forwarded.
#[verifier::spinoff_prover]
#[verifier::rlimit(60)]
pub proof fn law_nothing_unchecked_goes_upstream(es: Seq<Event>, combined: bool)
    requires
        es.len() > 0,
        reaches_backend(last_action(es, combined)),
    ensures
        checked(es),
{
    lemma_reaching(after(es.drop_last(), combined), es.last());
    lemma_checked(es, combined);
}

/// Whether an action ends the exchange.
pub open spec fn is_end(a: Action) -> bool {
    a is Finish || a is Refuse || a is AnswerByRule || a is Close || a is Tunnel
}

/// An exchange ends once: with one of the actions that end it, after which nothing is done but
/// closing.
#[verifier::spinoff_prover]
#[verifier::rlimit(60)]
pub proof fn law_exchange_ends_once(s: Exchange, e: Event, next: Event)
    ensures
        is_end(transition(s, e).1) <==> transition(s, e).0.phase is Done,
        transition(s, e).0.phase is Done ==> transition(transition(s, e).0, next) == (
            transition(s, e).0,
            Action::Close,
        ),
{
}

/// A client that was sent the head of its response, or part of it, is not sent a refusal on top.
#[verifier::spinoff_prover]
#[verifier::rlimit(60)]
pub proof fn law_no_refusal_after_an_answer(s: Exchange, e: Event)
    requires
        transition(s, e).1 is Refuse || transition(s, e).1 is AnswerByRule,
    ensures
        !(s.phase is Answering || s.phase is AnsweringWhole || s.phase is PassingBack || s.phase
            is Switching || s.phase is Hit || s.phase is Done),
{
}

/// A body that was passed through is not sent again, and no request is sent again that asks for
/// another protocol, or twice.
#[verifier::spinoff_prover]
#[verifier::rlimit(60)]
pub proof fn law_only_replayable_requests_are_resent(s: Exchange, e: Event)
    requires
        transition(s, e).0.phase is ResendConnecting,
    ensures
        !s.upgrade,
        !s.has_length || s.body_kept,
        s.wait.kept && !s.wait.retried && s.wait.pos == 0,
        transition(s, e).0.wait.retried,
{
}

/// Backends that a request has failed to reach when it is given up, and after each event.
#[verifier::spinoff_prover]
#[verifier::rlimit(60)]
pub proof fn law_tries_are_bounded(es: Seq<Event>, combined: bool)
    ensures
        after(es, combined).failed < MAX_BACKEND_TRIES,
        after(es, combined).wait.pos <= BUF_SIZE,
    decreases es.len(),
{
    if es.len() > 0 {
        law_tries_are_bounded(es.drop_last(), combined);
    }
}

} // verus!
