use telltale_pf::correlator::{Assembler, Emitted};
use telltale_pf::observation::{Direction, Endpoint, IpAddr, Observation, Transport};
use telltale_pf::report::Revision;
use telltale_pf::session::{Session, SessionKey, SessionState, Stage};
use telltale_pf::time::{Duration, Timestamp};

fn host(last: u8, port: u16) -> Endpoint {
    Endpoint {
        addr: IpAddr::v4(10, 0, 0, last),
        port,
    }
}

fn segment(from_port: u16, stage_hint: Option<Stage>, payload: &[u8]) -> Observation {
    let (source, destination) = if from_port == 80 {
        (host(1, 80), host(7, 50905))
    } else {
        (host(7, 50905), host(1, 80))
    };
    Observation {
        at: Timestamp::epoch(),
        source,
        destination,
        transport: Transport::Tcp,
        ttl: None,
        header: None,
        payload: payload.to_vec(),
        stage_hint,
        tcp: None,
    }
}

fn at(mut observation: Observation, secs: u64) -> Observation {
    observation.at = Timestamp::after_epoch(secs, 0);
    observation
}

fn stage_after(segments: Vec<Observation>) -> Stage {
    let mut assembler = Assembler::new(Duration::from_secs(30));
    let mut key = None;
    for segment in segments {
        key = Some(match assembler.ingest(segment) {
            Emitted::Opened(key) | Emitted::Updated(key) => key,
            Emitted::Finished(_) => unreachable!("nothing finishes mid-ingest here"),
        });
    }
    assembler.get(&key.unwrap()).unwrap().stage
}

#[test]
fn a_handshake_alone_is_established_not_app_data() {
    let stage = stage_after(vec![
        segment(50905, Some(Stage::Connect), b""),
        segment(80, Some(Stage::Established), b""),
        segment(50905, Some(Stage::Established), b""),
    ]);
    assert_eq!(stage, Stage::Established);
}

/// What `banner` waits for: before this, no session ever reached
/// `app-data` until it timed out.
#[test]
fn an_http_request_reaches_app_data() {
    let stage = stage_after(vec![
        segment(50905, Some(Stage::Connect), b""),
        segment(80, Some(Stage::Established), b""),
        segment(
            50905,
            Some(Stage::Established),
            b"GET / HTTP/1.1\r\nHost: x\r\nUser-Agent: curl/8.5.0\r\n\r\n",
        ),
    ]);
    assert_eq!(stage, Stage::AppData);
}

#[test]
fn a_tls_client_hello_reaches_its_own_stage() {
    let client_hello = [0x16, 0x03, 0x01, 0x00, 0xa5, 0x01, 0x00, 0x00, 0xa1];
    let stage = stage_after(vec![
        segment(50905, Some(Stage::Connect), b""),
        segment(50905, Some(Stage::Established), &client_hello),
    ]);
    assert_eq!(stage, Stage::TlsClientHello);
}

#[test]
fn both_directions_make_one_session() {
    let mut assembler = Assembler::new(Duration::from_secs(30));
    assert!(assembler.is_empty());
    assert!(matches!(assembler.ingest(segment(50905, None, b"")), Emitted::Opened(_)));
    assert!(matches!(assembler.ingest(segment(80, None, b"")), Emitted::Updated(_)));
    assert_eq!(assembler.len(), 1);
    let key = SessionKey::new(host(1, 80), host(7, 50905), Transport::Tcp);
    assert_eq!(key, SessionKey::new(host(7, 50905), host(1, 80), Transport::Tcp));
    let session = assembler.get(&key).unwrap();
    assert_eq!(session.observations.len(), 2);
    assert_eq!(session.initiator, host(7, 50905));
    assert_eq!(session.from_initiator().len(), 1);
    assert_eq!(session.direction_of(&session.observations[0]), Direction::ToResponder);
    assert_eq!(session.direction_of(&session.observations[1]), Direction::ToInitiator);
}

#[test]
fn the_timeout_closes_quiet_sessions_only() {
    let mut assembler = Assembler::new(Duration::from_secs(30));
    assembler.ingest(at(segment(50905, None, b""), 0));
    let mut other = at(segment(50905, None, b""), 20);
    other.transport = Transport::Udp;
    assembler.ingest(other);

    assert!(assembler.expire(Timestamp::after_epoch(30, 0)).is_empty());
    let gone = assembler.expire(Timestamp::after_epoch(30, 1));
    assert_eq!(gone.len(), 1);
    assert_eq!(gone[0].state, SessionState::TimedOut);
    assert_eq!(gone[0].stage, Stage::Closed);
    assert_eq!(gone[0].key.transport, Transport::Tcp);
    assert_eq!(assembler.len(), 1);

    let rest = assembler.drain();
    assert_eq!(rest.len(), 1);
    assert_eq!(rest[0].state, SessionState::Closed);
    assert_eq!(rest[0].stage, Stage::Closed);
    assert!(assembler.is_empty());
}

#[test]
fn a_clock_that_runs_backwards_ends_nothing() {
    let session = Session::open(at(segment(50905, None, b""), 100));
    assert!(!session.is_idle_at(Timestamp::after_epoch(10, 0), Duration::from_secs(0)));
    assert!(session.is_idle_at(Timestamp::after_epoch(100, 0), Duration::from_secs(0)));
    assert!(!session.is_overdue_at(Timestamp::after_epoch(100, 0), Duration::from_secs(0)));
    assert!(session.is_overdue_at(Timestamp::after_epoch(100, 1), Duration::from_secs(0)));
}

#[test]
fn stages_never_go_back() {
    let mut session = Session::open(segment(50905, Some(Stage::AppData), b""));
    assert!(!session.push(segment(50905, Some(Stage::Established), b"")));
    assert!(!session.advance(Stage::AppData));
    assert_eq!(session.stage, Stage::AppData);
    assert!(session.reached(Stage::TlsClientHello));
    assert!(!session.reached(Stage::Closed));
    assert!(session.advance(Stage::Closed));
}

#[test]
fn a_session_keeps_its_identity() {
    let mut session = Session::open(at(segment(50905, None, b""), 5));
    let id = session.id();
    session.push(at(segment(80, Some(Stage::AppData), b"x"), 9));
    session.advance(Stage::Closed);
    assert_eq!(session.id(), id);
    assert_eq!(session.initiator, host(7, 50905));
    assert_eq!(session.last_seen_at, Timestamp::after_epoch(9, 0));
}

#[test]
fn the_final_pass_is_newer_than_any_that_saw_no_more() {
    let session = Session::open(segment(50905, None, b""));
    let guess = Revision::of(&session, false);
    let last = Revision::of(&session, true);
    assert_eq!(guess.observations, 1);
    assert!(guess.is_older_than(&last));
    assert!(!last.is_older_than(&guess));
    assert!(guess < last);
    let more = Revision { observations: 2, is_final: false };
    assert!(last.is_older_than(&more));
    assert!(last < more);
}
