//! The way of a request to a backend and back.

use rproxy::balancer::BalancerState;
use rproxy::buf_pool::BUF_SIZE;
use rproxy::config::{Backend, BackendList, Balance, RouteCache};
use rproxy::exchange::{Action, Event, Exchange, Phase};
use rproxy::http::{parse_response, Parsed};
use rproxy::net::IpAddr;
use rproxy::request::Refusal;
use rproxy::shared::SharedMemory;
use rproxy::upstream::{
    after_write, analyze, answers_whole, begin_copy, body_buffered, cache_entry, examine,
    interim_len, interim_status, keep_connection, replayable, AfterClose, AfterWrite, Analysis,
    Examined, Failover, ResponseWait, Write, MAX_BACKEND_TRIES,
};

fn backend(shm: &SharedMemory, id: usize) -> Backend {
    Backend {
        id,
        host: format!("h{}", id),
        port: 80,
        addr: format!("h{}:80", id),
        weight: 1,
        connect_to: 5,
        response_to: 10,
        tls: false,
        tls_skip_verify: false,
        state: shm.get_state(id),
    }
}

#[test]
fn failover_goes_from_one_backend_to_another() {
    let shm = SharedMemory::new(3);
    let mut list = BalancerState {
        list: BackendList {
            backends: (0..3).map(|i| backend(&shm, i)).collect(),
            balance: Balance::RoundRobin,
        },
        rr_index: 0,
    };
    let ip = IpAddr::v4(1, 1, 1, 1);
    let mut f = Failover::new();
    let mut seen: Vec<usize> = vec![];
    for _ in 0..MAX_BACKEND_TRIES {
        assert!(list.weights_fit(f.skip_ids(), &shm));
        let id = f.next(&mut list, &ip, "/", &shm).unwrap().id;
        assert!(!seen.contains(&id));
        seen.push(id);
        f.record(id);
    }
    assert_eq!(f.skip_ids(), &seen[..]);
    assert!(f.next(&mut list, &ip, "/", &shm).is_none());
}

#[test]
fn what_follows_a_write() {
    assert_eq!(after_write(Write::Done, true), AfterWrite::Sent);
    assert_eq!(after_write(Write::Failed, true), AfterWrite::Reconnect);
    assert_eq!(
        after_write(Write::Failed, false),
        AfterWrite::Refuse(Refusal::BadGateway)
    );
    assert_eq!(after_write(Write::Lost, true), AfterWrite::Drop);
    assert!(replayable(false, 0, false, false));
    assert!(!replayable(true, 0, false, false));
    assert!(!replayable(false, 3, false, false));
    assert!(!replayable(false, 0, true, false));
    assert!(replayable(false, 3, false, true));
}

#[test]
fn a_kept_connection_may_have_gone_stale_once() {
    let mut w = ResponseWait::new(true);
    assert_eq!(w.closed(true), AfterClose::Resend);
    assert_eq!(w.closed(true), AfterClose::Refuse(Refusal::BadGateway));
    let mut w = ResponseWait::new(false);
    assert_eq!(w.closed(true), AfterClose::Refuse(Refusal::BadGateway));
    let mut w = ResponseWait::new(true);
    w.received(5);
    assert_eq!(w.closed(true), AfterClose::Drop);
    let mut w = ResponseWait::new(true);
    assert_ne!(w.closed(false), AfterClose::Resend);
    let mut w = ResponseWait::new(false);
    w.received(BUF_SIZE);
    assert!(w.is_full());
    w.passed_interim(1);
    assert!(!w.is_full());
}

#[test]
fn interim_responses_are_measured() {
    let cont: &[u8] = b"HTTP/1.1 100 Continue\r\n\r\n";
    assert_eq!(interim_len(cont), Some(cont.len()));
    let mut both = cont.to_vec();
    both.extend_from_slice(b"HTTP/1.1 200 OK\r\nContent-Length: 0\r\n\r\n");
    assert_eq!(interim_len(&both), Some(cont.len()));
    assert_eq!(interim_len(&both[cont.len()..]), None);
    assert_eq!(interim_len(b"HTTP/1.1 103 Early Hints\r\nLink: x\r\n"), None);
    assert_eq!(interim_len(b"HTTP/1.1 101 Switching Protocols\r\n\r\n"), None);
    assert_eq!(interim_len(b"HTTP/1"), None);
    assert!(interim_status(Some(103)));
    assert!(!interim_status(Some(101)));
    assert!(!interim_status(Some(200)));
    assert!(!interim_status(None));
}

fn analysis(raw: &str, store: Option<RouteCache>, keep: bool, draining: bool) -> Analysis {
    match parse_response(raw.as_bytes()) {
        Parsed::Complete(h, _) => analyze(&h, store, keep, draining),
        _ => panic!("a whole head"),
    }
}

fn stored() -> Option<RouteCache> {
    Some(RouteCache {
        ttl: 60,
        max_size: 1000,
        respect_headers: true,
    })
}

fn ok(extra: &str) -> String {
    format!("HTTP/1.1 200 OK\r\nContent-Length: 3\r\n{extra}\r\n")
}

#[test]
fn how_a_response_is_framed() {
    let a = analysis(&ok(""), None, true, false);
    assert_eq!(a.code, 200);
    assert_eq!(a.clen, Some(3));
    assert!(!a.chunked);
    assert!(!a.eof_body);
    assert!(a.client_keep_alive);
    assert!(a.backend_keep_alive);
    assert!(a.keep.is_none());
    let a = analysis("HTTP/1.1 200 OK\r\n\r\n", None, true, false);
    assert!(a.eof_body);
    assert!(!a.client_keep_alive);
    let a = analysis("HTTP/1.1 304 Not Modified\r\n\r\n", None, true, false);
    assert!(!a.eof_body);
    assert!(a.client_keep_alive);
    let a = analysis(
        "HTTP/1.1 200 OK\r\nTransfer-Encoding: chunked\r\n\r\n",
        None,
        true,
        true,
    );
    assert!(a.chunked);
    assert!(!a.eof_body);
    assert!(!a.client_keep_alive);
    assert!(!analysis(&ok("Connection: close\r\n"), None, true, false).backend_keep_alive);
}

#[test]
fn chunked_wins_over_length() {
    for extra in ["Transfer-Encoding: chunked\r\n", "Transfer-Encoding: gzip, Chunked\r\n"] {
        let a = analysis(&ok(extra), stored(), true, false);
        assert!(a.chunked);
        assert_eq!(a.clen, None);
        assert!(!a.eof_body);
        assert!(a.client_keep_alive);
        assert!(a.keep.is_some());
        assert!(!answers_whole(a.clen, 1000, 10, 10, 1000));
    }
    let a = analysis(&ok("Transfer-Encoding: identity\r\n"), stored(), true, false);
    assert!(!a.chunked);
    assert_eq!(a.clen, Some(3));
}

#[test]
fn which_responses_are_stored() {
    let kept = |extra: &str| analysis(&ok(extra), stored(), true, false).keep;
    let k = kept("ETag: \"a\"\r\nLast-Modified: now\r\n").unwrap();
    assert_eq!(k.ttl, 60);
    assert_eq!(k.max_size, 1000);
    assert_eq!(k.etag.as_deref(), Some("\"a\""));
    assert_eq!(k.last_modified.as_deref(), Some("now"));
    assert_eq!(kept("Cache-Control: public, max-age=5, x\r\n").unwrap().ttl, 5);
    assert_eq!(kept("Cache-Control: MAX-AGE=7\r\n").unwrap().ttl, 7);
    assert_eq!(kept("Cache-Control: max-age=x\r\n").unwrap().ttl, 60);
    assert!(kept("Vary: accept-encoding\r\n").is_some());
    assert!(kept("Vary: accept-encoding, cookie\r\n").is_none());
    assert!(kept("Vary: *\r\n").is_none());
    assert!(kept("Set-Cookie: a=b\r\n").is_none());
    assert!(kept("Cache-Control: private\r\n").is_none());
    assert!(kept("Cache-Control: No-Store\r\n").is_none());
    assert!(kept("Cache-Control: no-cache\r\n").is_none());
    let missing = "HTTP/1.1 404 Not Found\r\nContent-Length: 0\r\n\r\n";
    assert!(analysis(missing, stored(), true, false).keep.is_none());
    assert!(analysis("HTTP/1.1 200 OK\r\n\r\n", stored(), true, false)
        .keep
        .is_none());
}

#[test]
fn copies_for_the_cache() {
    assert_eq!(begin_copy(b"head", 4), Some(b"head".to_vec()));
    assert_eq!(begin_copy(b"head", 3), None);
    let keep = analysis(&ok("ETag: t\r\n"), stored(), true, false)
        .keep
        .unwrap();
    let e = cache_entry(b"abc".to_vec(), keep, 5);
    assert_eq!(e.data, b"abc");
    assert_eq!(e.expires_at, 60_000_000_005);
    assert_eq!(e.etag.as_deref(), Some("t"));
    assert!(body_buffered(Some(3), 10, 7));
    assert!(!body_buffered(Some(4), 10, 7));
    assert!(!body_buffered(None, 10, 7));
    assert!(keep_connection(2, 1, true, false));
    assert!(!keep_connection(2, 2, true, false));
    assert!(!keep_connection(2, 1, false, false));
    assert!(!keep_connection(2, 1, true, true));
}

fn steps(x: &mut Exchange, events: &[Event]) -> Vec<Action> {
    events.iter().map(|e| x.step(*e)).collect()
}

const PLAIN: Event = Event::Admitted {
    read_body: false,
    has_length: false,
    upgrade: false,
};

#[test]
fn a_plain_request() {
    let mut x = Exchange::new();
    let done = steps(
        &mut x,
        &[
            Event::HeadPartial,
            PLAIN,
            Event::Forward { lookup: false },
            Event::Chosen { kept: false },
            Event::Connected,
            Event::Written(Write::Done),
            Event::BodyPassed,
            Event::Received { n: 10 },
            Event::ResponsePartial,
            Event::Received { n: 30 },
            Event::Response { whole: false },
            Event::Written(Write::Done),
            Event::ResponsePassed,
        ],
    );
    assert_eq!(
        done,
        vec![
            Action::ReadHead,
            Action::Judge,
            Action::Choose,
            Action::Connect,
            Action::Send,
            Action::PassBody,
            Action::ReadResponse,
            Action::Examine,
            Action::ReadResponse,
            Action::Examine,
            Action::Answer,
            Action::PassBack,
            Action::Finish,
        ]
    );
    assert_eq!(x.phase, Phase::Done);
    assert_eq!(x.step(PLAIN), Action::Close);
}

#[test]
fn an_answer_from_the_cache() {
    let mut x = Exchange::new();
    let done = steps(
        &mut x,
        &[
            PLAIN,
            Event::Forward { lookup: true },
            Event::CacheHit,
            Event::Written(Write::Done),
        ],
    );
    assert_eq!(
        done,
        vec![Action::Judge, Action::LookUp, Action::ServeHit, Action::Finish]
    );
}

#[test]
fn refused_requests_reach_no_backend() {
    for r in [Refusal::BadRequest, Refusal::Forbidden, Refusal::RateLimited] {
        let mut x = Exchange::new();
        assert_eq!(x.step(Event::Refused(r)), Action::Refuse(r));
        assert_eq!(x.phase, Phase::Done);
        let mut x = Exchange::new();
        x.step(PLAIN);
        assert_eq!(x.step(Event::Refused(r)), Action::Refuse(r));
    }
    let mut x = Exchange::new();
    x.step(PLAIN);
    assert_eq!(x.step(Event::RuleAnswered), Action::AnswerByRule);
}

#[test]
fn backends_are_tried_three_times() {
    let mut x = Exchange::new();
    x.step(PLAIN);
    x.step(Event::Forward { lookup: false });
    for _ in 0..2 {
        assert_eq!(x.step(Event::Chosen { kept: false }), Action::Connect);
        assert_eq!(x.step(Event::ConnectFailed), Action::Choose);
    }
    assert_eq!(x.step(Event::Chosen { kept: false }), Action::Connect);
    assert_eq!(
        x.step(Event::ConnectFailed),
        Action::Refuse(Refusal::BadGateway)
    );
    let mut x = Exchange::new();
    x.step(PLAIN);
    x.step(Event::Forward { lookup: false });
    assert_eq!(
        x.step(Event::NoBackend),
        Action::Refuse(Refusal::BadGateway)
    );
}

#[test]
fn a_stale_connection_is_replaced_once() {
    let mut x = Exchange::new();
    x.step(PLAIN);
    x.step(Event::Forward { lookup: false });
    let done = steps(
        &mut x,
        &[
            Event::Chosen { kept: true },
            Event::Written(Write::Done),
            Event::BodyPassed,
            Event::Closed,
            Event::Connected,
            Event::Written(Write::Done),
            Event::Closed,
        ],
    );
    assert_eq!(
        done,
        vec![
            Action::Send,
            Action::PassBody,
            Action::ReadResponse,
            Action::Connect,
            Action::ResendHead,
            Action::ReadResponse,
            Action::Refuse(Refusal::BadGateway),
        ]
    );
}

#[test]
fn a_body_that_is_gone_is_not_sent_again() {
    let mut x = Exchange::new();
    x.step(Event::Admitted {
        read_body: false,
        has_length: true,
        upgrade: false,
    });
    x.step(Event::Forward { lookup: false });
    x.step(Event::Chosen { kept: true });
    x.step(Event::Written(Write::Done));
    assert_eq!(x.step(Event::BodyPassed), Action::ReadResponse);
    assert_ne!(x.step(Event::Closed), Action::Connect);
    assert_eq!(x.phase, Phase::Done);
}

#[test]
fn a_body_that_was_judged_is_sent_and_may_be_sent_again() {
    let mut x = Exchange::new();
    let done = steps(
        &mut x,
        &[
            Event::Admitted {
                read_body: true,
                has_length: true,
                upgrade: false,
            },
            Event::BodyRead,
            Event::Forward { lookup: false },
            Event::Chosen { kept: true },
            Event::Written(Write::Failed),
            Event::Connected,
            Event::Written(Write::Done),
            Event::Written(Write::Done),
        ],
    );
    assert_eq!(
        done,
        vec![
            Action::ReadBody,
            Action::Judge,
            Action::Choose,
            Action::Send,
            Action::Connect,
            Action::Send,
            Action::SendBody,
            Action::ReadResponse,
        ]
    );
    let mut x = Exchange::new();
    x.step(Event::Admitted {
        read_body: true,
        has_length: true,
        upgrade: false,
    });
    x.step(Event::BodyRead);
    x.step(Event::Forward { lookup: false });
    x.step(Event::Chosen { kept: true });
    x.set_combined(true);
    assert_eq!(x.step(Event::Written(Write::Done)), Action::ReadResponse);
    assert_eq!(x.step(Event::Closed), Action::Connect);
    assert_eq!(x.step(Event::Connected), Action::ResendHead);
    assert_eq!(x.step(Event::Written(Write::Done)), Action::ResendBody);
    assert_eq!(x.step(Event::Written(Write::Done)), Action::ReadResponse);
}

fn waiting(upgrade: bool) -> Exchange {
    let mut x = Exchange::new();
    x.step(Event::Admitted {
        read_body: false,
        has_length: false,
        upgrade,
    });
    x.step(Event::Forward { lookup: false });
    x.step(Event::Chosen { kept: false });
    x.step(Event::Connected);
    x.step(Event::Written(Write::Done));
    assert_eq!(x.step(Event::BodyPassed), Action::ReadResponse);
    x
}

#[test]
fn interim_responses_are_passed_on() {
    let mut x = waiting(false);
    x.step(Event::Received { n: 60 });
    assert_eq!(
        x.step(Event::Interim { n: 25 }),
        Action::PassInterim { n: 25 }
    );
    assert_eq!(x.step(Event::Written(Write::Done)), Action::Examine);
    assert_eq!(x.step(Event::Response { whole: true }), Action::AnswerWhole);
    assert_eq!(x.step(Event::Written(Write::Done)), Action::Finish);
}

#[test]
fn protocols_are_switched() {
    let mut x = waiting(true);
    x.step(Event::Received { n: 60 });
    assert_eq!(x.step(Event::Switch), Action::PassSwitch);
    assert_eq!(x.step(Event::Written(Write::Done)), Action::Tunnel);
}

#[test]
fn broken_exchanges_close() {
    let mut x = waiting(false);
    assert_eq!(x.step(Event::TimedOut), Action::Close);
    let mut x = waiting(false);
    x.step(Event::Received { n: BUF_SIZE });
    assert_eq!(x.step(Event::ResponsePartial), Action::Close);
    let mut x = waiting(false);
    x.step(Event::Received { n: 5 });
    x.step(Event::Response { whole: false });
    assert_eq!(x.step(Event::Written(Write::Failed)), Action::Close);
    let mut x = waiting(false);
    x.step(Event::Received { n: 5 });
    x.step(Event::Response { whole: false });
    x.step(Event::Written(Write::Done));
    assert_eq!(x.step(Event::ResponseBroken), Action::Close);
}

#[test]
fn a_body_that_grows_too_large_is_refused() {
    let mut x = Exchange::new();
    x.step(Event::Admitted {
        read_body: false,
        has_length: true,
        upgrade: false,
    });
    x.step(Event::Forward { lookup: false });
    x.step(Event::Chosen { kept: true });
    x.step(Event::Written(Write::Done));
    assert_eq!(
        x.step(Event::BodyTooLarge),
        Action::Refuse(Refusal::TooLarge)
    );
}

#[test]
fn what_came_from_a_backend_is_examined() {
    let sort = |raw: &str| match examine(raw.as_bytes(), None, true, false) {
        Examined::Interim(n) => format!("interim {n}"),
        Examined::Incomplete => "incomplete".to_string(),
        Examined::Switch => "switch".to_string(),
        Examined::Final(head, n, a) => format!("{:?} {n} {}", head.code, a.code),
    };
    let interim = "HTTP/1.1 103 Early Hints\r\n\r\n";
    assert_eq!(sort(&format!("{interim}{}", ok(""))), format!("interim {}", interim.len()));
    assert_eq!(sort("HTTP/1.1 200 OK\r\n"), "incomplete");
    assert_eq!(sort("not a response at all"), "incomplete");
    assert_eq!(sort("HTTP/1.1 101 Switching Protocols\r\n\r\nrest"), "switch");
    assert_eq!(sort(&ok("")), format!("Some(200) {} 200", ok("").len()));
    assert!(answers_whole(Some(3), 10, 7, 5, 8));
    assert!(!answers_whole(Some(3), 10, 7, 6, 8));
    assert!(!answers_whole(Some(4), 10, 7, 0, 100));
    assert!(!answers_whole(None, 10, 7, 0, 100));
}
