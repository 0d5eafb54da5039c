use telltale_pf::evidence::Confidence;
use telltale_pf::f0p::format::{parse, P0fDb, TcpSignature};
use telltale_pf::f0p::http::{best_http_match, header_order_matches};
use telltale_pf::f0p::score::{confidence_for, Score};
use telltale_pf::f0p::tcp::{
    best_tcp_match, nearest_initial_ttl, nearest_tcp_signature, option_layout_text, raw_signature,
    score_tcp,
};
use telltale_pf::http::{http_user_agent, ObservedHttpRequest};
use telltale_pf::observation::{TcpFeatures, TcpOptionKind};

const MIN_SCORE: i64 = 800_000;

fn value(score: Score) -> f64 {
    score.matches as f64 / score.checks as f64
}

fn linux_syn() -> TcpFeatures {
    TcpFeatures {
        ttl: 64,
        df: true,
        window: 1460 * 20,
        mss: Some(1460),
        window_scale: Some(7),
        sack_permitted: true,
        timestamp: true,
        option_order: vec![
            TcpOptionKind::Mss,
            TcpOptionKind::SackPermitted,
            TcpOptionKind::Timestamp,
            TcpOptionKind::Nop,
            TcpOptionKind::WindowScale,
        ],
        eol_padding: None,
    }
}

/// A real iPhone SYN, captured live:
/// `4:64+0:?:1460:65535,6:mss,nop,ws,nop,nop,ts,sok,eol+1:df:0`.
fn iphone_syn() -> TcpFeatures {
    TcpFeatures {
        ttl: 64,
        df: true,
        window: 65535,
        mss: Some(1460),
        window_scale: Some(6),
        sack_permitted: true,
        timestamp: true,
        option_order: vec![
            TcpOptionKind::Mss,
            TcpOptionKind::Nop,
            TcpOptionKind::WindowScale,
            TcpOptionKind::Nop,
            TcpOptionKind::Nop,
            TcpOptionKind::Timestamp,
            TcpOptionKind::SackPermitted,
            TcpOptionKind::Eol,
        ],
        eol_padding: Some(1),
    }
}

/// The Apple entries of the p0f database, and the FreeBSD entry that is closest.
fn apple_and_freebsd() -> P0fDb {
    parse(
        "[tcp:request]\n\
         label = s:unix:Mac OS X:10.x\n\
         sig   = *:64:0:*:65535,1:mss,nop,ws,nop,nop,ts,sok,eol+1:df,id+:0\n\
         sig   = *:64:0:*:65535,3:mss,nop,ws,nop,nop,ts,sok,eol+1:df,id+:0\n\
         label = s:unix:MacOS X:10.9 or newer (sometimes iPhone or iPad)\n\
         sig   = *:64:0:*:65535,4:mss,nop,ws,nop,nop,ts,sok,eol+1:df,id+:0\n\
         label = g:unix:Mac OS X:\n\
         sig   = *:64:0:*:65535,*:mss,nop,ws,nop,nop,ts,sok,eol+1:df,id+:0\n\
         label = s:unix:FreeBSD:9.x or newer\n\
         sig   = *:64:0:*:65535,6:mss,nop,ws,sok,ts:df,id+:0\n",
    )
}

fn linux_signature() -> TcpSignature {
    parse(
        "[tcp:request]\n\
         label = s:unix:Linux:3.11 and newer\n\
         sig   = *:64:0:*:mss*20,7:mss,sok,ts,nop,ws:df,id+:0\n",
    )
    .tcp_request
    .remove(0)
}

#[test]
fn the_observed_syn_renders_in_p0f_raw_sig_notation() {
    let mut observed = linux_syn();
    observed.ttl = 61;
    assert_eq!(
        raw_signature(&observed, true, 4),
        "4:64+3:?:1460:mss*20,7:mss,sok,ts,nop,ws:df:0"
    );
}

#[test]
fn eol_padding_renders_as_a_byte_count() {
    assert_eq!(
        raw_signature(&iphone_syn(), true, 4),
        "4:64+0:?:1460:65535,6:mss,nop,ws,nop,nop,ts,sok,eol+1:df:0"
    );
}

/// The bug this guards: the observed layout ended `eol,eol` while the
/// database's `eol+1` parsed to a single `eol`, so no Apple signature
/// could ever pass the layout check.
#[test]
fn an_apple_syn_passes_the_layout_check_of_the_apple_signatures() {
    let db = apple_and_freebsd();
    let generic_mac = db
        .tcp_request
        .iter()
        .find(|sig| !sig.specific && sig.label.starts_with("Mac OS X"))
        .expect("the db has a generic Mac OS X entry");
    assert_eq!(value(score_tcp(&iphone_syn(), true, 4, generic_mac)), 1.0);
}

/// Only guards against the old answer. Which Apple entry wins is still
/// decided by a tie among near-misses (every specific Apple signature has
/// the wrong window scale for this phone), so it is not asserted here.
#[test]
fn an_iphone_is_no_longer_taken_for_freebsd() {
    let db = apple_and_freebsd();
    let (sig, _) = best_tcp_match(&db.tcp_request, &iphone_syn(), true, 4, MIN_SCORE)
        .expect("an Apple signature should match");
    assert!(!sig.label.starts_with("FreeBSD"), "matched {}", sig.label);
}

#[test]
fn a_window_that_is_a_whole_number_of_segments_renders_as_mss_multiple() {
    let mut observed = linux_syn();
    observed.mss = Some(1440);
    observed.window = 1440 * 45;
    assert!(raw_signature(&observed, true, 4).contains(":1440:mss*45,7:"));
}

#[test]
fn a_different_padding_length_is_a_different_layout() {
    let db = apple_and_freebsd();
    let generic_mac = db
        .tcp_request
        .iter()
        .find(|sig| !sig.specific && sig.label.starts_with("Mac OS X"))
        .unwrap();
    let mut observed = iphone_syn();
    observed.eol_padding = Some(3);
    assert!(value(score_tcp(&observed, true, 4, generic_mac)) < 1.0);
}

#[test]
fn a_full_match_against_the_real_grammar_scores_one() {
    assert_eq!(value(score_tcp(&linux_syn(), true, 4, &linux_signature())), 1.0);
}

#[test]
fn a_hop_away_still_matches_via_the_signatures_own_initial_ttl() {
    let mut observed = linux_syn();
    observed.ttl = 59; // 5 hops between attacker and honeypot
    assert_eq!(value(score_tcp(&observed, true, 4, &linux_signature())), 1.0);
}

#[test]
fn a_windows_ttl_does_not_match_a_linux_signature() {
    let mut observed = linux_syn();
    observed.ttl = 128;
    assert!(value(score_tcp(&observed, true, 4, &linux_signature())) < 1.0);
}

#[test]
fn an_empty_option_layout_is_a_real_check_not_a_wildcard() {
    let sig = parse(
        "[tcp:request]\n\
         label = s:!:masscan:bare SYN\n\
         sig   = *:64:0:1460:1024,0:::0\n",
    )
    .tcp_request
    .remove(0);
    let mut observed = linux_syn();
    observed.option_order = vec![];
    observed.window = 1024;
    observed.mss = Some(1460);
    assert_eq!(value(score_tcp(&observed, true, 4, &sig)), 1.0);

    let mut with_options = observed.clone();
    with_options.option_order = vec![TcpOptionKind::Mss];
    assert!(value(score_tcp(&with_options, true, 4, &sig)) < 1.0);
}

#[test]
fn http_request_parsing_extracts_headers_in_wire_order() {
    let payload =
        b"GET / HTTP/1.1\r\nHost: honeypot\r\nUser-Agent: curl/8.4.0\r\nAccept: */*\r\n\r\n";
    let request = ObservedHttpRequest::parse(payload).expect("a GET should parse");
    assert_eq!(request.minor_version, Some(1));
    assert_eq!(request.header_value("user-agent"), Some("curl/8.4.0"));
    assert_eq!(
        request.headers.iter().map(|(n, _)| n.as_str()).collect::<Vec<_>>(),
        vec!["host", "user-agent", "accept"]
    );
}

#[test]
fn non_http_payload_does_not_parse() {
    assert!(ObservedHttpRequest::parse(b"\x16\x03\x01\x00\xa5").is_none());
}

#[test]
fn curl_matches_its_real_signature() {
    let db = parse(
        "[http:request]\n\
         label = s:!:curl:\n\
         sig   = 1:User-Agent,Host,Accept=[*/*]:Connection,Accept-Encoding,Accept-Language,Accept-Charset:curl/\n",
    );
    let request = ObservedHttpRequest::parse(
        b"GET / HTTP/1.1\r\nUser-Agent: curl/8.4.0\r\nHost: honeypot\r\nAccept: */*\r\n\r\n",
    )
    .unwrap();
    let (sig, score) =
        best_http_match(&db.http_request, &request, MIN_SCORE).expect("curl should match");
    assert_eq!(sig.label, "curl");
    assert_eq!(value(score), 1.0);
}

#[test]
fn a_required_header_out_of_order_fails_the_match() {
    let db = parse(
        "[http:request]\n\
         label = s:!:curl:\n\
         sig   = 1:User-Agent,Host,Accept=[*/*]::curl/\n",
    );
    // Host before User-Agent: wrong order for this signature.
    let request = ObservedHttpRequest::parse(
        b"GET / HTTP/1.1\r\nHost: honeypot\r\nUser-Agent: curl/8.4.0\r\nAccept: */*\r\n\r\n",
    )
    .unwrap();
    assert!(!header_order_matches(&request, &db.http_request[0].header_order));
}

#[test]
fn an_optional_header_may_be_missing_but_not_misplaced() {
    let db = parse(
        "[http:request]\n\
         label = s:!:Example:\n\
         sig   = *:Host,?Referer,User-Agent::\n",
    );
    let order = &db.http_request[0].header_order;
    let without = ObservedHttpRequest::parse(b"GET / HTTP/1.1\r\nHost: a\r\nUser-Agent: b\r\n\r\n");
    assert!(header_order_matches(&without.unwrap(), order));
    let misplaced = ObservedHttpRequest::parse(
        b"GET / HTTP/1.1\r\nReferer: c\r\nHost: a\r\nUser-Agent: b\r\n\r\n",
    );
    assert!(!header_order_matches(&misplaced.unwrap(), order));
}

#[test]
fn a_header_taken_once_may_be_expected_again_as_optional() {
    let db = parse("[http:request]\nlabel = s:!:X:\nsig = *:Host,?Host,User-Agent::\n");
    let order = &db.http_request[0].header_order;
    let once = ObservedHttpRequest::parse(b"GET / HTTP/1.1\r\nHost: a\r\nUser-Agent: b\r\n\r\n");
    assert!(header_order_matches(&once.unwrap(), order));

    let db = parse("[http:request]\nlabel = s:!:X:\nsig = *:A,B,?A::\n");
    let order = &db.http_request[0].header_order;
    let one = ObservedHttpRequest::parse(b"GET / HTTP/1.1\r\nA: 1\r\nB: 2\r\n\r\n").unwrap();
    assert!(header_order_matches(&one, order));
    let two =
        ObservedHttpRequest::parse(b"GET / HTTP/1.1\r\nA: 1\r\nA: 2\r\nB: 3\r\n\r\n").unwrap();
    assert!(!header_order_matches(&two, order));
}

#[test]
fn other_headers_in_between_do_not_matter() {
    let db = parse("[http:request]\nlabel = s:!:Example:\nsig = *:Host,User-Agent::\n");
    let order = &db.http_request[0].header_order;
    let request = ObservedHttpRequest::parse(
        b"GET / HTTP/1.1\r\nX-A: 1\r\nHost: a\r\nX-B: 2\r\nUser-Agent: b\r\nX-C: 3\r\n\r\n",
    );
    assert!(header_order_matches(&request.unwrap(), order));
}

#[test]
fn a_specific_signature_wins_over_a_generic_one() {
    let db = parse(
        "[http:request]\n\
         label = g:!:generic:\n\
         sig   = *:Host::\n\
         label = s:!:specific:\n\
         sig   = *:Host::other/\n",
    );
    let request =
        ObservedHttpRequest::parse(b"GET / HTTP/1.1\r\nHost: a\r\nUser-Agent: b\r\n\r\n").unwrap();
    let (sig, score) = best_http_match(&db.http_request, &request, 0).unwrap();
    assert_eq!(sig.label, "specific");
    assert!(!score.is_full());

    let tcp = parse(
        "[tcp:request]\n\
         label = g:unix:generic:\n\
         sig   = *:64:0:*:*,*:mss,sok,ts,nop,ws:df:0\n\
         label = s:unix:Linux:3.11 and newer\n\
         sig   = *:64:0:*:mss*20,7:mss,sok,ts,nop,ws:df,id+:0\n",
    );
    let (sig, _) = best_tcp_match(&tcp.tcp_request, &linux_syn(), true, 4, MIN_SCORE).unwrap();
    assert_eq!(sig.label, "Linux 3.11 and newer");
}

#[test]
fn nothing_scores_enough_against_an_impossible_threshold() {
    let signatures = vec![linux_signature()];
    assert!(best_tcp_match(&signatures, &linux_syn(), true, 4, 1_000_001).is_none());
    assert!(best_tcp_match(&signatures, &linux_syn(), true, 4, 1_000_000).is_some());
    let (nearest, score) = nearest_tcp_signature(&signatures, &iphone_syn(), true, 4).unwrap();
    assert_eq!(nearest.label, "Linux 3.11 and newer");
    assert!(!score.is_full());
    assert!(nearest_tcp_signature(&Vec::new(), &iphone_syn(), true, 4).is_none());
}

#[test]
fn scores_compare_as_fractions() {
    let half = Score { matches: 1, checks: 2 };
    let also_half = Score { matches: 3, checks: 6 };
    let more = Score { matches: 5, checks: 7 };
    assert!(more.is_better_than(&half));
    assert!(!half.is_better_than(&also_half));
    assert!(!also_half.is_better_than(&half));
    assert!(half.is_at_least(500_000));
    assert!(!half.is_at_least(500_001));
    assert_eq!(confidence_for(Score { matches: 19, checks: 20 }), Confidence::Strong);
    assert_eq!(confidence_for(Score { matches: 17, checks: 20 }), Confidence::Likely);
    assert_eq!(confidence_for(Score { matches: 16, checks: 20 }), Confidence::Weak);
    let tallied = Score::tally(&vec![true, false, true]);
    assert_eq!((tallied.matches, tallied.checks), (2, 3));
}

#[test]
fn initial_ttls_are_the_common_ones() {
    let pairs = [(1, 32), (32, 32), (33, 64), (64, 64), (65, 128), (128, 128), (129, 255), (255, 255)];
    for (observed, initial) in pairs {
        assert_eq!(nearest_initial_ttl(observed), initial);
    }
}

#[test]
fn layouts_are_written_as_they_are_read() {
    let sig = linux_signature();
    assert_eq!(option_layout_text(&sig.option_layout, sig.eol_padding), "mss,sok,ts,nop,ws");
    let syn = iphone_syn();
    assert_eq!(
        option_layout_text(&syn.option_order, syn.eol_padding),
        "mss,nop,ws,nop,nop,ts,sok,eol+1"
    );
    assert_eq!(
        option_layout_text(&vec![TcpOptionKind::Sack, TcpOptionKind::Other(34)], None),
        "sack,?34"
    );
    assert_eq!(option_layout_text(&vec![], None), "");
}

#[test]
fn a_request_that_is_no_utf8_does_not_parse() {
    assert!(ObservedHttpRequest::parse(b"GET / HTTP/1.1\r\nHost: \xff\xfe\r\n\r\n").is_none());
    assert_eq!(http_user_agent(b"GET / HTTP/1.1\r\nUser-Agent: \xc3\r\n\r\n"), None);
    let accented = ObservedHttpRequest::parse("GET / HTTP/1.0\r\nHost: h\u{f6}st\r\n\r\n".as_bytes());
    let accented = accented.unwrap();
    assert_eq!(accented.minor_version, Some(0));
    assert_eq!(accented.header_value("host"), Some("h\u{f6}st"));
    assert_eq!(accented.header_value("accept"), None);
}
