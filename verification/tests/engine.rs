use telltale_pf::engine::{Done, Engine, Step};
use telltale_pf::observation::{Endpoint, IpAddr, Observation, TcpHeader, Transport};
use telltale_pf::result::{FieldDeclaration, FieldType, FieldValue, Fields};
use telltale_pf::session::{Session, SessionState};
use telltale_pf::time::{Duration, Timestamp};
use telltale_pf::trigger::TriggerEvent;
use telltale_pf::update::Update;

/// Runs methods that count their calls and report how many results the session
/// already held. What they report is taken in before the next packet.
struct Driver {
    engine: Engine,
    names: Vec<&'static str>,
    calls: Vec<usize>,
    done: Vec<Done>,
    updates: Vec<Update>,
}

impl Driver {
    fn new(probes: &[(&'static str, TriggerEvent)], timeout: u64) -> Driver {
        let listeners = probes.iter().map(|(_, trigger)| vec![*trigger]).collect();
        Driver {
            engine: Engine::new(listeners, Duration::from_secs(timeout)),
            names: probes.iter().map(|(name, _)| *name).collect(),
            calls: vec![0; probes.len()],
            done: Vec::new(),
            updates: Vec::new(),
        }
    }

    fn run(&mut self, step: Step) {
        for firing in &step.firings {
            for &method in &firing.methods {
                self.calls[method] += 1;
                let mut fields = Fields::new();
                let seen = firing.session.results.len() as i64;
                fields.insert("seen".to_string(), FieldValue::from(seen));
                self.done.push(Done {
                    session: firing.session.id(),
                    results: firing.entries(self.names[method], &schema(), vec![fields]),
                });
            }
        }
        self.updates.extend(step.updates);
    }

    fn collect(&mut self) {
        while !self.done.is_empty() {
            let done = self.done.remove(0);
            let step = self.engine.complete(done);
            self.run(step);
        }
    }

    fn ingest(&mut self, observation: Observation) {
        self.collect();
        let step = self.engine.ingest(observation);
        self.run(step);
    }

    fn finish(mut self) -> (Vec<usize>, Vec<Update>) {
        let step = self.engine.finish();
        self.run(step);
        self.collect();
        assert!(!self.engine.is_closing());
        assert!(self.engine.abandon().is_empty());
        (self.calls, self.updates)
    }
}

fn schema() -> Vec<FieldDeclaration> {
    vec![FieldDeclaration { field: "seen".to_string(), field_type: FieldType::Integer }]
}

const CLIENT: u16 = 40000;
const SERVER: u16 = 443;

fn packet(secs: u64, client_port: u16, to_server: bool, flags: u8, payload: &[u8]) -> Observation {
    let endpoint = |port| Endpoint {
        addr: IpAddr::v4(10, 0, 0, if port == SERVER { 1 } else { 9 }),
        port,
    };
    let (source, destination) = if to_server {
        (endpoint(client_port), endpoint(SERVER))
    } else {
        (endpoint(SERVER), endpoint(client_port))
    };
    Observation {
        at: Timestamp::after_epoch(secs, 0),
        source,
        destination,
        transport: Transport::Tcp,
        ttl: Some(64),
        header: Some(TcpHeader {
            flags,
            window: 29200,
            options: Vec::new(),
        }),
        payload: payload.to_vec(),
        stage_hint: None,
        tcp: None,
    }
}

fn finalized(updates: Vec<Update>) -> Vec<Session> {
    updates
        .into_iter()
        .filter_map(|update| match update {
            Update::Finalized(session) => Some(session),
            Update::Result { .. } => None,
        })
        .collect()
}

const SYN: u8 = TcpHeader::SYN;
const SYN_ACK: u8 = TcpHeader::SYN | TcpHeader::ACK;
const ACK: u8 = TcpHeader::ACK;
const PSH_ACK: u8 = TcpHeader::PSH | TcpHeader::ACK;
const CLIENT_HELLO: &[u8] = &[0x16, 0x03, 0x01, 0x00, 0x40, 0x01, 0x00];

/// The point of event triggers: the SYN method runs on the SYN and is not
/// run again because a ClientHello arrives later in the same session.
#[test]
fn each_method_runs_once_per_event_it_listens_for() {
    let mut driver = Driver::new(
        &[("syn", TriggerEvent::TcpSyn), ("tls", TriggerEvent::TlsClientHello)],
        30,
    );

    driver.ingest(packet(0, CLIENT, true, SYN, b""));
    driver.ingest(packet(0, CLIENT, false, SYN_ACK, b""));
    driver.ingest(packet(0, CLIENT, true, ACK, b""));
    driver.ingest(packet(1, CLIENT, true, PSH_ACK, CLIENT_HELLO));
    driver.ingest(packet(1, CLIENT, false, PSH_ACK, b"server bytes"));
    let (calls, updates) = driver.finish();

    assert_eq!(calls, [1, 1]);
    let sessions = finalized(updates);
    assert_eq!(sessions.len(), 1);
    let mut methods: Vec<&str> = sessions[0].results.iter().map(|r| r.method.as_str()).collect();
    methods.sort();
    assert_eq!(methods, ["syn", "tls"]);
}

/// Session-end methods wait for everything else the session fired, so a
/// fusion method always reads the complete result list.
#[test]
fn session_end_methods_see_every_earlier_result() {
    let mut driver = Driver::new(
        &[
            ("syn", TriggerEvent::TcpSyn),
            ("tls", TriggerEvent::TlsClientHello),
            ("end", TriggerEvent::SessionEnd),
        ],
        30,
    );

    driver.ingest(packet(0, CLIENT, true, SYN, b""));
    driver.ingest(packet(1, CLIENT, true, PSH_ACK, CLIENT_HELLO));
    let (calls, updates) = driver.finish();

    assert_eq!(calls[2], 1);
    let session = &finalized(updates)[0];
    let end_entry = session.results.last().expect("end reported");
    assert_eq!(end_entry.method, "end");
    assert_eq!(end_entry.fields.get("seen"), Some(&FieldValue::Integer(2)));
    assert_eq!(session.results.len(), 3);
}

#[test]
fn a_quiet_session_times_out_and_the_same_flow_later_starts_a_new_one() {
    let mut driver = Driver::new(&[("syn", TriggerEvent::TcpSyn)], 30);

    driver.ingest(packet(0, CLIENT, true, SYN, b""));
    // Another flow, 100 s later, moves the clock past the first one's timeout.
    driver.ingest(packet(100, CLIENT + 1, true, SYN, b""));
    // The first flow again: a new session under the same key.
    driver.ingest(packet(101, CLIENT, true, SYN, b""));
    let (calls, updates) = driver.finish();

    assert_eq!(calls[0], 3);
    let sessions = finalized(updates);
    assert_eq!(sessions.len(), 3);
    let timed_out = sessions
        .iter()
        .filter(|s| s.state == SessionState::TimedOut)
        .count();
    assert_eq!(timed_out, 1);
    assert!(sessions.iter().all(|s| s.results.len() == 1));
}

#[test]
fn every_result_is_published_as_it_is_appended() {
    let mut driver = Driver::new(
        &[("syn", TriggerEvent::TcpSyn), ("end", TriggerEvent::SessionEnd)],
        30,
    );

    driver.ingest(packet(0, CLIENT, true, SYN, b""));
    let (_, updates) = driver.finish();

    let kinds: Vec<&str> = updates
        .into_iter()
        .map(|update| match update {
            Update::Result { .. } => "result",
            Update::Finalized(_) => "finalized",
        })
        .collect();
    assert_eq!(kinds, ["result", "result", "finalized"]);
}

#[test]
fn a_session_that_times_out_waits_for_its_methods() {
    let mut engine = Engine::new(
        vec![vec![TriggerEvent::TcpSyn], vec![TriggerEvent::SessionEnd]],
        Duration::from_secs(30),
    );
    let first = engine.ingest(packet(0, CLIENT, true, SYN, b""));
    assert_eq!(first.firings.len(), 1);
    assert_eq!(first.firings[0].methods, [0]);
    assert_eq!(first.firings[0].packet, Some(0));
    let id = first.firings[0].session.id();

    // The first session is over, but its method has not reported yet.
    let second = engine.ingest(packet(60, CLIENT + 1, true, ACK, b""));
    assert!(second.firings.is_empty());
    assert!(second.updates.is_empty());
    assert!(engine.is_closing());

    let reported = engine.complete(Done { session: id, results: Vec::new() });
    assert!(reported.updates.is_empty());
    assert_eq!(reported.firings.len(), 1);
    assert_eq!(reported.firings[0].trigger, TriggerEvent::SessionEnd);
    assert_eq!(reported.firings[0].packet, None);
    assert_eq!(reported.firings[0].session.state, SessionState::TimedOut);

    let ended = engine.complete(Done { session: id, results: Vec::new() });
    assert!(ended.firings.is_empty());
    assert_eq!(finalized(ended.updates).len(), 1);
    assert!(!engine.is_closing());
}

#[test]
fn a_session_whose_methods_never_report_is_published_as_it_is() {
    let mut engine = Engine::new(vec![vec![TriggerEvent::TcpSyn]], Duration::from_secs(30));
    engine.ingest(packet(0, CLIENT, true, SYN, b""));
    let step = engine.finish();
    assert!(step.updates.is_empty());
    assert!(engine.is_closing());
    let left = finalized(engine.abandon());
    assert_eq!(left.len(), 1);
    assert_eq!(left[0].state, SessionState::Closed);
}

#[test]
fn results_of_a_session_nobody_knows_are_published_all_the_same() {
    let mut engine = Engine::new(vec![vec![TriggerEvent::TcpSyn]], Duration::from_secs(30));
    let firing = engine.ingest(packet(3, CLIENT, true, SYN, b"")).firings.remove(0);
    let mut id = firing.session.id();
    id.started_at = Timestamp::after_epoch(99, 0);
    let results = firing.entries("syn", &schema(), vec![Fields::new()]);
    assert_eq!(results[0].timestamp, Timestamp::after_epoch(3, 0));
    let step = engine.complete(Done { session: id, results });
    match &step.updates[0] {
        Update::Result { initiator, .. } => assert_eq!(*initiator, id.key.low),
        Update::Finalized(_) => unreachable!(),
    }
}

#[test]
fn field_values_tell_their_type_and_their_text() {
    assert_eq!(FieldValue::from(true).display(), Some("true".to_string()));
    assert_eq!(FieldValue::from(-12i64).display(), Some("-12".to_string()));
    assert_eq!(
        FieldValue::from(i64::MIN).display(),
        Some("-9223372036854775808".to_string())
    );
    assert_eq!(FieldValue::from("x".to_string()).display(), Some("x".to_string()));
    assert_eq!(FieldValue::Float(0).display(), None);
    let mut fields = Fields::new();
    fields.insert("a".to_string(), FieldValue::from(1i64));
    fields.insert("a".to_string(), FieldValue::from(2i64));
    assert_eq!(fields.get("a"), Some(&FieldValue::Integer(2)));
    assert_eq!(fields.get("b"), None);
}

#[test]
fn fields_that_are_not_declared_are_dropped() {
    let mut engine = Engine::new(vec![vec![TriggerEvent::TcpSyn]], Duration::from_secs(30));
    let firing = engine.ingest(packet(3, CLIENT, true, SYN, b"")).firings.remove(0);
    let mut good = Fields::new();
    good.insert("seen".to_string(), FieldValue::from(1i64));
    good.insert("unheard-of".to_string(), FieldValue::from(1i64));
    let mut mistyped = Fields::new();
    mistyped.insert("seen".to_string(), FieldValue::from(true));
    let entries = firing.entries("syn", &schema(), vec![good, mistyped]);
    assert_eq!(entries.len(), 2);
    assert_eq!(entries[0].fields.get("seen"), Some(&FieldValue::Integer(1)));
    assert_eq!(entries[0].fields.get("unheard-of"), None);
    assert_eq!(entries[1].fields.get("seen"), None);
}

#[test]
fn a_packet_does_not_revive_a_session_that_is_over() {
    let mut driver = Driver::new(&[("syn", TriggerEvent::TcpSyn)], 30);
    driver.ingest(packet(0, CLIENT, true, SYN, b""));
    // The same flow, and nothing in between that moves the clock.
    driver.ingest(packet(100, CLIENT, true, SYN, b""));
    let (calls, updates) = driver.finish();

    assert_eq!(calls[0], 2);
    let sessions = finalized(updates);
    assert_eq!(sessions.len(), 2);
    assert_eq!(sessions[0].state, SessionState::TimedOut);
    assert_eq!(sessions[0].observations.len(), 1);
    assert_eq!(sessions[0].started_at, Timestamp::after_epoch(0, 0));
    assert_eq!(sessions[1].state, SessionState::Closed);
    assert_eq!(sessions[1].observations.len(), 1);
    assert_eq!(sessions[1].started_at, Timestamp::after_epoch(100, 0));
}

#[test]
fn fields_do_not_depend_on_the_order_they_came_in() {
    let mut forwards = Fields::new();
    let mut backwards = Fields::new();
    let names = ["b", "", "ba", "a", "c"];
    for (i, name) in names.iter().enumerate() {
        forwards.insert(name.to_string(), FieldValue::from(i as i64));
    }
    for (i, name) in names.iter().enumerate().rev() {
        backwards.insert(name.to_string(), FieldValue::from(i as i64));
    }
    assert_eq!(forwards, backwards);
    assert_eq!(forwards.clone(), backwards);
    for (i, name) in names.iter().enumerate() {
        assert_eq!(forwards.get(name), Some(&FieldValue::Integer(i as i64)));
    }
    backwards.insert("ba".to_string(), FieldValue::from("other"));
    assert_ne!(forwards, backwards);
    assert_eq!(backwards.get("ba"), Some(&FieldValue::String("other".to_string())));
}
