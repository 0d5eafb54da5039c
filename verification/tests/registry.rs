use telltale_pf::adapters::Adapter;
use telltale_pf::banner::{Banner, BannerDb, BannerRule};
use telltale_pf::config::OutputMode;
use telltale_pf::error::Error;
use telltale_pf::evidence::Evidence;
use telltale_pf::f0p::format::{parse, P0fDb};
use telltale_pf::f0p::F0p;
use telltale_pf::fusion::Fusion;
use telltale_pf::ja4::Ja4;
use telltale_pf::manifest::{
    default_budget_ms, default_true, FieldSpec, Invocation, ManifestView, MethodManifest,
    OutputSchema, Trigger,
};
use telltale_pf::method::{
    Context, Method, Outcome, OutcomeView, SessionContext, SessionContextView, SessionMethod,
};
use telltale_pf::observation::{
    Endpoint, IpAddr, Observation, TcpFeatures, TcpOptionKind, Transport,
};
use telltale_pf::pipeline::Pipeline;
use telltale_pf::registry::{adapter_for, AdapterKind, Registry};
use telltale_pf::session::{Session, SessionState, Stage};
use telltale_pf::tcp_syn::TcpSyn;
use telltale_pf::time::{Duration, Timestamp};
use telltale_pf::trigger::TriggerEvent;

fn manifest(name: &str, stage: Stage, trigger: Trigger, priority: i32, keys: &[&str]) -> MethodManifest {
    MethodManifest {
        name: name.to_string(),
        description: String::new(),
        enabled: default_true(),
        required_stage: stage,
        triggers: Vec::new(),
        invocation: Invocation { trigger, priority, budget_ms: default_budget_ms() },
        database: None,
        output: OutputSchema {
            fields: keys
                .iter()
                .map(|key| FieldSpec { name: key.to_string(), description: String::new() })
                .collect(),
        },
    }
}

fn f0p() -> Adapter {
    Adapter::F0p(F0p {
        manifest: manifest(
            "f0p",
            Stage::Connect,
            Trigger::EveryObservation,
            100,
            &["signature", "distance", "os", "stack", "client"],
        ),
        db: parse(
            "[tcp:request]\n\
             label = s:unix:Linux:3.11 and newer\n\
             sig   = *:64:0:*:mss*44,7:mss,sok,ts,nop,ws:df,id+:0\n",
        ),
        min_score: 800_000,
    })
}

fn banner() -> Adapter {
    Adapter::Banner(Banner {
        manifest: manifest(
            "banner",
            Stage::AppData,
            Trigger::StageReached,
            50,
            &["client", "category", "version"],
        ),
        db: BannerDb {
            rules: vec![BannerRule {
                client: "curl".to_string(),
                category: "library".to_string(),
                exact: vec![],
                prefix: vec!["curl/".to_string()],
                contains: vec![],
            }],
        },
        max_bytes: 4096,
    })
}

fn fusion() -> Adapter {
    Adapter::Fusion(Fusion {
        manifest: manifest("fusion", Stage::Connect, Trigger::SessionEnd, 0, &["verdict"]),
        threshold: 700_000,
    })
}

fn registry() -> Registry<Adapter> {
    Registry::prioritized(vec![fusion(), banner(), f0p()])
}

fn syn_then_curl() -> Session {
    let client = Endpoint {
        addr: IpAddr::v4(10, 0, 0, 10),
        port: 47236,
    };
    let server = Endpoint {
        addr: IpAddr::v4(10, 0, 0, 8),
        port: 5173,
    };
    let segment = |stage: Stage, payload: &[u8], tcp: Option<TcpFeatures>| Observation {
        at: Timestamp::epoch(),
        source: client,
        destination: server,
        transport: Transport::Tcp,
        ttl: None,
        header: None,
        payload: payload.to_vec(),
        stage_hint: Some(stage),
        tcp,
    };
    let syn = TcpFeatures {
        ttl: 64,
        df: true,
        window: 64240,
        mss: Some(1460),
        window_scale: Some(7),
        sack_permitted: true,
        timestamp: true,
        option_order: vec![
            TcpOptionKind::Mss,
            TcpOptionKind::SackPermitted,
            TcpOptionKind::Timestamp,
            TcpOptionKind::Nop,
            TcpOptionKind::WindowScale,
        ],
        eol_padding: None,
    };

    let mut session = Session::open(segment(Stage::Connect, b"", Some(syn)));
    session.push(segment(
        Stage::Established,
        b"GET / HTTP/1.1\r\nHost: 10.0.0.8:5173\r\nUser-Agent: curl/8.5.0\r\nAccept: */*\r\n\r\n",
        None,
    ));
    session.advance(Stage::AppData);
    session
}

fn methods_of(batches: &[Vec<Evidence>]) -> Vec<&str> {
    batches.iter().map(|batch| batch[0].method.as_str()).collect()
}

/// A SYN then a curl request: `f0p` and `banner` both have something to
/// say, and each says it in its own emit, in priority order, rather than
/// the two arriving together at the end of the pass.
#[test]
fn each_method_reports_in_its_own_emit() {
    let session = syn_then_curl();
    let emits = registry().analyze_each(&session, false, false);
    assert_eq!(methods_of(&emits), ["f0p", "banner"]);
    for emit in &emits {
        assert!(
            emit.iter().all(|e| e.method == emit[0].method),
            "one emit mixed methods: {emit:?}"
        );
    }
}

/// Fusion must come last so the evidence it combines already exists.
#[test]
fn fusion_runs_last() {
    let registry = registry();
    let order: Vec<&str> = registry.names();
    assert_eq!(order.last(), Some(&"fusion"), "order was {order:?}");
    assert_eq!(order, ["f0p", "banner", "fusion"]);
    assert_eq!(registry.len(), 3);
    assert!(!registry.is_empty());
}

#[test]
fn the_batches_of_a_pass_make_the_pass() {
    let session = syn_then_curl();
    let registry = registry();
    let emits = registry.analyze_each(&session, true, false);
    assert_eq!(methods_of(&emits), ["f0p", "banner", "fusion"]);
    let batched: Vec<(String, String, String)> = emits
        .into_iter()
        .flatten()
        .map(|e| (e.method, e.key, e.value))
        .collect();
    let whole: Vec<(String, String, String)> = registry
        .analyze(&session, true, false)
        .into_iter()
        .map(|e| (e.method, e.key, e.value))
        .collect();
    assert_eq!(batched, whole);
    assert_eq!(
        whole.last().unwrap(),
        &("fusion".to_string(), "verdict".to_string(), "unknown".to_string())
    );
    assert!(whole.contains(&("f0p".into(), "os".into(), "Linux 3.11 and newer".into())));
    assert!(whole.contains(&("f0p".into(), "distance".into(), "0".into())));
    assert!(whole.contains(&("banner".into(), "version".into(), "8.5.0".into())));
}

#[test]
fn guesses_are_provisional_until_the_last_pass() {
    let session = syn_then_curl();
    let early = registry().analyze(&session, false, false);
    assert!(early.iter().filter(|e| e.method == "f0p").all(|e| e.provisional));
    assert!(early.iter().filter(|e| e.method == "banner").all(|e| !e.provisional));
    let last = registry().analyze(&session, true, false);
    assert!(last.iter().all(|e| !e.provisional));
}

#[test]
fn keys_that_are_not_declared_are_dropped() {
    let mut method = f0p();
    if let Adapter::F0p(f0p) = &mut method {
        f0p.manifest.output.fields.retain(|field| field.name != "os");
    }
    let found = Registry::new(vec![method]).analyze(&syn_then_curl(), true, false);
    assert!(found.iter().all(|e| e.key != "os"));
    assert!(found.iter().any(|e| e.key == "signature"));
}

#[test]
fn a_method_waits_for_its_stage() {
    let mut session = syn_then_curl();
    session.stage = Stage::Established;
    let emits = registry().analyze_each(&session, false, false);
    assert_eq!(methods_of(&emits), ["f0p"]);
    let alone = registry().run_one(1, &session, &Vec::new(), false, false);
    assert!(alone.is_empty());
}

#[test]
fn a_method_that_has_settled_is_not_run_again() {
    let registry = registry();
    let whole = syn_then_curl();
    let mut silent = Session::open(whole.observations[0].clone());
    silent.advance(Stage::AppData);

    // `banner` is run once its stage is reached, finds nothing to scan, and is done.
    let mut memory = registry.fresh_memory();
    let first = registry.analyze_again(&mut memory, &silent, false, false);
    assert_eq!(methods_of(&first), ["f0p"]);
    let second = registry.analyze_again(&mut memory, &whole, false, false);
    assert_eq!(methods_of(&second), ["f0p"]);

    // What it has found is used again.
    let mut memory = registry.fresh_memory();
    let first = registry.analyze_again(&mut memory, &whole, false, false);
    assert_eq!(methods_of(&first), ["f0p", "banner"]);
    let second = registry.analyze_again(&mut memory, &silent, true, false);
    assert_eq!(methods_of(&second), ["f0p", "banner", "fusion"]);
    assert_eq!(second[1].len(), first[1].len());

    // Before its stage is reached it waits.
    let mut memory = registry.fresh_memory();
    let early = Session::open(whole.observations[0].clone());
    registry.analyze_again(&mut memory, &early, false, false);
    let later = registry.analyze_again(&mut memory, &whole, false, false);
    assert_eq!(methods_of(&later), ["f0p", "banner"]);
}

/// A method that fails on every session.
struct Broken(MethodManifest);

impl SessionMethod for Broken {
    fn declared(&self) -> ManifestView {
        unreachable!()
    }

    fn outcome(&self, _ctx: SessionContextView) -> Option<OutcomeView> {
        unreachable!()
    }

    fn manifest(&self) -> &MethodManifest {
        &self.0
    }

    fn extract(&self, _ctx: &SessionContext<'_>) -> Result<Outcome, Error> {
        Err(Error::Capture("broken".to_string()))
    }
}

/// Either a method that works or one that fails.
enum Either {
    Works(Adapter),
    Fails(Broken),
}

impl SessionMethod for Either {
    fn declared(&self) -> ManifestView {
        unreachable!()
    }

    fn outcome(&self, _ctx: SessionContextView) -> Option<OutcomeView> {
        unreachable!()
    }

    fn manifest(&self) -> &MethodManifest {
        match self {
            Either::Works(method) => method.manifest(),
            Either::Fails(method) => method.manifest(),
        }
    }

    fn extract(&self, ctx: &SessionContext<'_>) -> Result<Outcome, Error> {
        match self {
            Either::Works(method) => method.extract(ctx),
            Either::Fails(method) => method.extract(ctx),
        }
    }
}

#[test]
fn a_method_that_fails_does_not_sink_the_session() {
    let broken = manifest("broken", Stage::Connect, Trigger::StageReached, 75, &["os"]);
    let registry = Registry::prioritized(vec![
        Either::Works(f0p()),
        Either::Fails(Broken(broken)),
        Either::Works(banner()),
        Either::Works(fusion()),
    ]);
    assert_eq!(registry.names(), ["f0p", "broken", "banner", "fusion"]);
    let emits = registry.analyze_each(&syn_then_curl(), true, false);
    assert_eq!(methods_of(&emits), ["f0p", "banner", "fusion"]);
}

#[test]
fn equal_priorities_keep_their_order() {
    let named = |name: &str, priority: i32| {
        Adapter::TcpSyn(TcpSyn {
            manifest: manifest(name, Stage::Connect, Trigger::StageReached, priority, &[]),
            min_score: 0,
        })
    };
    let registry = Registry::prioritized(vec![
        named("d", -5),
        named("a", 9),
        named("e", -5),
        named("b", 7),
    ]);
    assert_eq!(registry.names(), ["a", "b", "d", "e"]);
}

#[test]
fn manifests_find_their_adapters() {
    let kind = |name: &str| {
        adapter_for(&manifest(name, Stage::Connect, Trigger::StageReached, 0, &[]))
    };
    assert_eq!(kind("f0p").unwrap(), Some(AdapterKind::F0p));
    assert_eq!(kind("ja4").unwrap(), Some(AdapterKind::Ja4));
    assert_eq!(kind("banner").unwrap(), Some(AdapterKind::Banner));
    assert_eq!(kind("fusion").unwrap(), Some(AdapterKind::Fusion));
    match kind("nonesuch") {
        Err(error @ Error::UnknownMethod(_)) => {
            assert_eq!(error.message(), "no adapter registered for method `nonesuch`")
        }
        other => panic!("{other:?}"),
    }
    let mut off = manifest("nonesuch", Stage::Connect, Trigger::StageReached, 0, &[]);
    off.enabled = false;
    assert_eq!(adapter_for(&off).unwrap(), None);
    assert_eq!(default_budget_ms(), 250);
}

#[test]
fn methods_that_match_nothing_yet() {
    let session = syn_then_curl();
    let evidence: Vec<Evidence> = Vec::new();
    let ctx = SessionContext {
        session: &session,
        evidence: &evidence,
        is_final: true,
        both_directions: false,
    };
    let tcp_syn = TcpSyn {
        manifest: manifest("tcp-syn", Stage::Connect, Trigger::StageReached, 0, &[]),
        min_score: 800_000,
    };
    assert!(matches!(tcp_syn.extract(&ctx).unwrap(), Outcome::NoMatch));
    let fusion = Fusion {
        manifest: manifest("fusion", Stage::Connect, Trigger::SessionEnd, 0, &[]),
        threshold: 0,
    };
    assert!(matches!(fusion.extract(&ctx).unwrap(), Outcome::NoMatch));
    let f0p = F0p {
        manifest: manifest("f0p", Stage::Connect, Trigger::SessionEnd, 0, &[]),
        db: P0fDb::default(),
        min_score: 800_000,
    };
    assert!(matches!(f0p.extract(&ctx).unwrap(), Outcome::Complete(_)));
    let ja4 = Ja4 { manifest: manifest("ja4", Stage::Connect, Trigger::SessionEnd, 0, &[]) };
    let fired = Context {
        trigger: TriggerEvent::TlsClientHello,
        packet: Some(&session.observations[0]),
        session: &session,
    };
    assert!(ja4.extract(&fired).unwrap().is_empty());
    assert_eq!(ja4.manifest().name, "ja4");
    assert_eq!(ja4.name(), "ja4");
    assert!(ja4.triggers().is_empty());
    let mut listening = manifest("ja4", Stage::Connect, Trigger::SessionEnd, 0, &[]);
    listening.triggers = vec![TriggerEvent::TlsClientHello, TriggerEvent::SessionEnd];
    assert_eq!(
        Ja4 { manifest: listening }.triggers(),
        [TriggerEvent::TlsClientHello, TriggerEvent::SessionEnd]
    );
}

#[test]
fn sessions_are_analysed_as_they_grow_or_once_they_end() {
    let session = syn_then_curl();
    let mut guessing = Pipeline::new(Duration::from_secs(30), OutputMode::InferenceTime);
    let mut waiting = Pipeline::new(Duration::from_secs(30), OutputMode::PerSession);
    for observation in &session.observations {
        let jobs = guessing.ingest(observation.clone());
        assert_eq!(jobs.len(), 1);
        assert!(!jobs[0].is_final);
        assert!(waiting.ingest(observation.clone()).is_empty());
    }
    for mut pipeline in [guessing, waiting] {
        let mut late = session.observations[0].clone();
        late.at = Timestamp::after_epoch(31, 0);
        late.source.port = 1;
        // Sessions that are over come first.
        let jobs = pipeline.ingest(late);
        assert!(jobs[0].is_final);
        assert_eq!(jobs[0].session.observations.len(), 2);
        assert!(jobs.iter().skip(1).all(|job| !job.is_final));
        let rest = pipeline.finish();
        assert_eq!(rest.len(), 1);
        assert!(rest[0].is_final);
    }
}

#[test]
fn an_observation_does_not_revive_a_session_that_is_over() {
    let mut pipeline = Pipeline::new(Duration::from_secs(30), OutputMode::InferenceTime);
    let first = syn_then_curl().observations[0].clone();
    let mut late = first.clone();
    late.at = Timestamp::after_epoch(100, 0);
    assert_eq!(pipeline.ingest(first.clone()).len(), 1);
    let jobs = pipeline.ingest(late);
    assert_eq!(jobs.len(), 2);
    assert!(jobs[0].is_final);
    assert_eq!(jobs[0].session.state, SessionState::TimedOut);
    assert_eq!(jobs[0].session.observations.len(), 1);
    assert_eq!(jobs[0].session.started_at, first.at);
    assert!(!jobs[1].is_final);
    assert_eq!(jobs[1].session.observations.len(), 1);
    assert_eq!(jobs[1].session.started_at, Timestamp::after_epoch(100, 0));
    assert_eq!(pipeline.finish().len(), 1);
}

#[test]
fn a_pipeline_that_has_finished_goes_on_as_before() {
    for (mode, guesses) in [(OutputMode::InferenceTime, 1), (OutputMode::PerSession, 0)] {
        let mut pipeline = Pipeline::new(Duration::from_secs(30), mode);
        let first = syn_then_curl().observations[0].clone();
        assert_eq!(pipeline.ingest(first.clone()).len(), guesses);
        assert_eq!(pipeline.finish().len(), 1);
        assert!(pipeline.finish().is_empty());
        assert_eq!(pipeline.ingest(first.clone()).len(), guesses);
        let mut late = first.clone();
        late.at = Timestamp::after_epoch(31, 0);
        assert_eq!(pipeline.ingest(late).len(), 1 + guesses);
    }
}
