use telltale_pf::banner::{extract_version, find_rule, Banner, BannerDb, BannerRule};
use telltale_pf::evidence::Evidence;
use telltale_pf::http::http_user_agent;
use telltale_pf::manifest::{Invocation, MethodManifest, OutputSchema, Trigger};
use telltale_pf::method::{Outcome, SessionContext, SessionMethod};
use telltale_pf::observation::{Endpoint, IpAddr, Observation, Transport};
use telltale_pf::session::{Session, Stage};
use telltale_pf::time::Timestamp;

fn strings(list: &[&str]) -> Vec<String> {
    list.iter().map(|s| s.to_string()).collect()
}

fn rule(client: &str, category: &str, exact: &[&str], prefix: &[&str], contains: &[&str]) -> BannerRule {
    BannerRule {
        client: client.to_string(),
        category: category.to_string(),
        exact: strings(exact),
        prefix: strings(prefix),
        contains: strings(contains),
    }
}

fn db() -> BannerDb {
    BannerDb {
        rules: vec![
            rule("(no user-agent)", "malformed", &[""], &[], &[]),
            rule("bare Mozilla", "malformed", &["mozilla/5.0"], &[], &[]),
            rule("Nmap", "scanner", &[], &[], &["nmap scripting engine"]),
            rule("Shodan", "crawler", &[], &[], &["shodan"]),
            rule("curl", "library", &[], &["curl/"], &[]),
            rule("Go net/http", "library", &[], &["go-http-client/"], &[]),
        ],
    }
}

fn request(user_agent: &str) -> Vec<u8> {
    format!("GET / HTTP/1.1\r\nHost: honeypot\r\nUser-Agent: {user_agent}\r\nAccept: */*\r\n\r\n")
        .into_bytes()
}

fn identify<'a>(db: &'a BannerDb, user_agent: &str) -> Option<&'a BannerRule> {
    let ua_lower = user_agent.to_ascii_lowercase();
    find_rule(&db.rules, &ua_lower)
}

#[test]
fn curl_is_identified_as_a_library_with_its_version() {
    let db = db();
    let rule = identify(&db, "curl/8.4.0").expect("curl should match");
    assert_eq!(rule.client, "curl");
    assert_eq!(rule.category, "library");
    assert_eq!(
        extract_version("curl/8.4.0", "curl/8.4.0", rule),
        Some("8.4.0".to_string())
    );
}

#[test]
fn nmap_nse_is_identified_as_a_scanner() {
    let db = db();
    let rule = identify(
        &db,
        "Mozilla/5.0 (compatible; Nmap Scripting Engine; https://nmap.org/book/nse.html)",
    )
    .expect("Nmap NSE UA should match");
    assert_eq!(rule.client, "Nmap");
    assert_eq!(rule.category, "scanner");
}

#[test]
fn shodan_is_identified_as_a_crawler() {
    let db = db();
    let rule = identify(&db, "Mozilla/5.0 (compatible; Shodan/1.1)").expect("Shodan should match");
    assert_eq!(rule.category, "crawler");
}

#[test]
fn a_bare_go_http_client_is_a_library_not_flagged_as_malformed() {
    // Suspicious-in-context is fusion's job (os-client-mismatch), not
    // banner's — banner only identifies.
    let db = db();
    let rule = identify(&db, "Go-http-client/1.1").expect("Go-http-client should match");
    assert_eq!(rule.category, "library");
}

#[test]
fn an_empty_user_agent_header_and_a_missing_one_are_the_same_rule() {
    let db = db();
    let present_but_empty = identify(&db, "").expect("empty UA should match");
    assert_eq!(present_but_empty.category, "malformed");
    assert_eq!(present_but_empty.client, "(no user-agent)");
}

#[test]
fn a_bare_mozilla_five_oh_is_flagged_malformed() {
    let db = db();
    let rule = identify(&db, "Mozilla/5.0").expect("bare Mozilla/5.0 should match");
    assert_eq!(rule.category, "malformed");
}

#[test]
fn http_user_agent_distinguishes_missing_header_from_non_http_payload() {
    assert_eq!(
        http_user_agent(&request("sqlmap/1.7#stable")),
        Some("sqlmap/1.7#stable".to_string())
    );
    assert_eq!(
        http_user_agent(b"GET / HTTP/1.1\r\nHost: honeypot\r\n\r\n"),
        Some(String::new())
    );
    assert_eq!(http_user_agent(b"\x16\x03\x01\x00\xa5"), None);
}

#[test]
fn only_an_http_1_request_has_a_user_agent() {
    assert_eq!(http_user_agent(b"GET / HTTP/2.0\r\n\r\n"), None);
    assert_eq!(http_user_agent(b"GET /\r\nUser-Agent: x\r\n\r\n"), None);
    assert_eq!(http_user_agent(b"GET / HTTP/1.0\r\n\r\n"), Some(String::new()));
    assert_eq!(
        http_user_agent(b"GET / HTTP/1.1\r\nUSER-AGENT: x\r\n\r\n"),
        Some("x".to_string())
    );
    // The version need not be the third word: targets hold spaces, and lines end in them.
    assert_eq!(
        http_user_agent(b"GET /a b HTTP/1.1\r\nUser-Agent: x\r\n\r\n"),
        Some("x".to_string())
    );
    assert_eq!(http_user_agent(b"GET /a b HTTP/1.1\r\n\r\n"), Some(String::new()));
    assert_eq!(http_user_agent(b"GET / HTTP/1.1 \r\n\r\n"), Some(String::new()));
    assert_eq!(http_user_agent(b"GET  / HTTP/1.0\r\n\r\n"), Some(String::new()));
    assert_eq!(http_user_agent(b"GET /a b HTTP/2.0\r\n\r\n"), None);
}

fn banner(max_bytes: usize) -> Banner {
    Banner {
        manifest: MethodManifest {
            name: "banner".to_string(),
            description: String::new(),
            enabled: true,
            required_stage: Stage::AppData,
            triggers: Vec::new(),
            invocation: Invocation { trigger: Trigger::StageReached, priority: 20, budget_ms: 50 },
            database: None,
            output: OutputSchema { fields: Vec::new() },
        },
        db: db(),
        max_bytes,
    }
}

fn look_at(method: &Banner, payload: &[u8]) -> Outcome {
    look_at_all(method, &[payload])
}

fn look_at_all(method: &Banner, payloads: &[&[u8]]) -> Outcome {
    let endpoint = |last, port| Endpoint { addr: IpAddr::v4(10, 0, 0, last), port };
    let segment = |payload: &[u8]| Observation {
        at: Timestamp::epoch(),
        source: endpoint(7, 50726),
        destination: endpoint(1, 80),
        transport: Transport::Tcp,
        ttl: None,
        header: None,
        payload: payload.to_vec(),
        stage_hint: None,
        tcp: None,
    };
    let mut session = Session::open(segment(payloads[0]));
    for payload in &payloads[1..] {
        session.push(segment(payload));
    }
    let evidence: Vec<Evidence> = Vec::new();
    let ctx = SessionContext {
        session: &session,
        evidence: &evidence,
        is_final: false,
        both_directions: false,
    };
    method.extract(&ctx).unwrap()
}

#[test]
fn scanning_stops_at_the_cap() {
    let request = request("curl/8.5.0");
    let method = banner(request.len() + 3);
    assert!(matches!(look_at_all(&method, &[b"", b"abc", &request]), Outcome::Complete(_)));
    assert!(matches!(look_at_all(&method, &[b"ab", b"cd", &request]), Outcome::NoMatch));
    assert!(matches!(look_at_all(&banner(3), &[b"", &request]), Outcome::NotApplicable));
}

#[test]
fn a_match_is_a_settled_claim_with_its_version() {
    let found = match look_at(&banner(4096), &request("curl/8.5.0")) {
        Outcome::Complete(found) => found,
        other => panic!("{other:?}"),
    };
    let claims: Vec<(&str, &str)> =
        found.iter().map(|e| (e.key.as_str(), e.value.as_str())).collect();
    assert_eq!(claims, [("client", "curl"), ("category", "library"), ("version", "8.5.0")]);
}

#[test]
fn nothing_to_scan_and_nothing_that_matches_are_told_apart() {
    assert!(matches!(look_at(&banner(4096), b""), Outcome::NotApplicable));
    assert!(matches!(look_at(&banner(8), &request("curl/8.5.0")), Outcome::NotApplicable));
    assert!(matches!(look_at(&banner(4096), b"\x16\x03\x01"), Outcome::NoMatch));
    assert!(matches!(look_at(&banner(4096), &request("unheard-of")), Outcome::NoMatch));
}

#[test]
fn a_user_agent_is_matched_whatever_its_case() {
    let db = db();
    let rule = identify(&db, "CURL/7.1").unwrap();
    assert_eq!(rule.client, "curl");
    assert_eq!(extract_version("CURL/7.1", "curl/7.1", rule), Some("7.1".to_string()));
    assert!(identify(&db, "wget").is_none());
}
