use telltale_pf::f0p::format::{
    parse, parse_label, parse_option_token, parse_window, split_top_level, PayloadClass, WindowSpec,
};
use telltale_pf::observation::TcpOptionKind;

fn chars(text: &str) -> Vec<char> {
    text.chars().collect()
}

#[test]
fn parses_a_specific_linux_tcp_signature() {
    let text = "\
[tcp:request]

label = s:unix:Linux:3.11 and newer
sig   = *:64:0:*:mss*20,10:mss,sok,ts,nop,ws:df,id+:0
";
    let db = parse(text);
    assert_eq!(db.tcp_request.len(), 1);
    let sig = &db.tcp_request[0];
    assert!(sig.specific);
    assert_eq!(sig.class, "unix");
    assert_eq!(sig.label, "Linux 3.11 and newer");
    assert_eq!(sig.ip_version, None);
    assert_eq!(sig.initial_ttl, 64);
    assert!(!sig.ittl_is_ceiling);
    assert_eq!(sig.mss, None);
    assert_eq!(sig.window, WindowSpec::MssMultiple(20));
    assert_eq!(sig.window_scale, Some(10));
    assert_eq!(
        sig.option_layout,
        vec![
            TcpOptionKind::Mss,
            TcpOptionKind::SackPermitted,
            TcpOptionKind::Timestamp,
            TcpOptionKind::Nop,
            TcpOptionKind::WindowScale,
        ]
    );
    assert_eq!(sig.eol_padding, None);
    assert_eq!(sig.quirks, vec!["df", "id+"]);
    assert_eq!(sig.payload_class, PayloadClass::Zero);
}

#[test]
fn eol_padding_is_parsed_into_its_own_count() {
    let text = "\
[tcp:request]

label = g:unix:Mac OS X:
sig   = *:64:0:*:65535,*:mss,nop,ws,nop,nop,ts,sok,eol+1:df,id+:0
";
    let sig = &parse(text).tcp_request[0];
    assert_eq!(sig.option_layout.last(), Some(&TcpOptionKind::Eol));
    assert_eq!(sig.option_layout.len(), 8);
    assert_eq!(sig.eol_padding, Some(1));
}

#[test]
fn a_ceiling_ttl_keeps_its_trailing_dash() {
    let text = "\
[tcp:request]

label = s:!:NMap:SYN scan
sig   = *:64-:0:1460:1024,0:mss::0
";
    let sig = &parse(text).tcp_request[0];
    assert_eq!(sig.class, "!");
    assert_eq!(sig.initial_ttl, 64);
    assert!(sig.ittl_is_ceiling);
}

#[test]
fn other_sections_and_directives_are_skipped_not_misparsed() {
    let text = "\
classes = win,unix,other

[mtu]
label = Ethernet or modem
sig   = 1500

[tcp:response]
label = s:unix:Linux:should not appear
sig   = *:64:0:*:mss*20,7:mss,sok,ts,nop,ws:df,id+:0

[tcp:request]
label = s:unix:Linux:should appear
sig   = *:64:0:*:mss*20,7:mss,sok,ts,nop,ws:df,id+:0
";
    let db = parse(text);
    assert_eq!(db.tcp_request.len(), 1);
    assert_eq!(db.tcp_request[0].label, "Linux should appear");
}

#[test]
fn parses_curl_http_signature() {
    let text = "\
[http:request]

label = s:!:curl:
sig   = 1:User-Agent,Host,Accept=[*/*]:Connection,Accept-Encoding,Accept-Language,Accept-Charset:curl/
";
    let sig = &parse(text).http_request[0];
    assert_eq!(sig.label, "curl");
    assert_eq!(sig.http_minor_version, Some(1));
    assert_eq!(sig.header_order.len(), 3);
    assert_eq!(sig.header_order[0].name, "user-agent");
    assert_eq!(sig.header_order[2].name, "accept");
    assert_eq!(sig.header_order[2].value_contains.as_deref(), Some("*/*"));
    assert_eq!(
        sig.header_absent,
        vec!["connection", "accept-encoding", "accept-language", "accept-charset"]
    );
    assert_eq!(sig.expected_software.as_deref(), Some("curl/"));
}

#[test]
fn a_bracketed_value_with_a_comma_does_not_split_the_header_list() {
    let text = "\
[http:request]

label = s:!:Example:1.x
sig   = *:Host,Accept-Encoding=[gzip, deflate],User-Agent::
";
    let sig = &parse(text).http_request[0];
    assert_eq!(sig.header_order.len(), 3);
    assert_eq!(sig.header_order[1].name, "accept-encoding");
    assert_eq!(
        sig.header_order[1].value_contains.as_deref(),
        Some("gzip, deflate")
    );
}

#[test]
fn an_optional_header_is_marked_not_required() {
    let text = "\
[http:request]

label = s:!:Example:1.x
sig   = *:Host,?Referer,User-Agent::
";
    let sig = &parse(text).http_request[0];
    assert!(sig.header_order[1].optional);
    assert_eq!(sig.header_order[1].name, "referer");
}

#[test]
fn every_window_form_is_read() {
    assert_eq!(parse_window(&chars("*")), Some(WindowSpec::Any));
    assert_eq!(parse_window(&chars("mss*44")), Some(WindowSpec::MssMultiple(44)));
    assert_eq!(parse_window(&chars("mtu*4")), Some(WindowSpec::MtuMultiple(4)));
    assert_eq!(parse_window(&chars("%8192")), Some(WindowSpec::Modulo(8192)));
    assert_eq!(parse_window(&chars("65535")), Some(WindowSpec::Fixed(65535)));
}

#[test]
fn a_window_that_cannot_be_read_is_none() {
    for token in ["", "abc", "mss*", "mss*x", "mtu*-1", "%", "65536"] {
        assert_eq!(parse_window(&chars(token)), None, "{token:?}");
    }
}

#[test]
fn an_unreadable_field_drops_the_signature() {
    let kept = |sig: &str| {
        let text = format!("[tcp:request]\nlabel = s:unix:X:1\nsig = {sig}\n");
        parse(&text).tcp_request.len()
    };
    assert_eq!(kept("*:64:0:*:*,*:mss::0"), 1);
    let unreadable = [
        "5:64:0:*:*,*:mss::0",
        "*:x:0:*:*,*:mss::0",
        "*:64:0:abc:*,*:mss::0",
        "*:64:0:65536:*,*:mss::0",
        "*:64:0:*:abc,*:mss::0",
        "*:64:0:*:mss*x,*:mss::0",
        "*:64:0:*:*,abc:mss::0",
        "*:64:0:*:*:mss::0",
        "*:64:0:*:*,*:mss,unheard-of::0",
        "*:64:0:*:*,*:?x::0",
        "*:64:0:*:*,*:mss,eol+x::0",
        "*:64:0:*:*,*:mss,eolian::0",
        "*:64:0:*:*,*:mss::x",
    ];
    for sig in unreadable {
        assert_eq!(kept(sig), 0, "{sig}");
    }

    let http = |ver: &str| {
        let text = format!("[http:request]\nlabel = s:!:X:1\nsig = {ver}:Host::\n");
        parse(&text).http_request.len()
    };
    assert_eq!(http("*") + http("0") + http("1"), 3);
    assert_eq!(http("2") + http("x") + http(""), 0);
}

#[test]
fn an_eol_without_a_count_has_no_padding() {
    let db = parse("[tcp:request]\nlabel = s:unix:X:1\nsig = *:64:0:*:*,*:mss,eol::*\n");
    assert_eq!(db.tcp_request[0].eol_padding, Some(0));
    assert_eq!(db.tcp_request[0].payload_class, PayloadClass::Any);
}

#[test]
fn option_tokens_are_read() {
    for token in ["", "?", "?x", "?256", "mss2", "eolian"] {
        assert_eq!(parse_option_token(&chars(token)), None, "{token:?}");
    }
    assert_eq!(parse_option_token(&chars("sack")), Some(TcpOptionKind::Sack));
    assert_eq!(parse_option_token(&chars("?34")), Some(TcpOptionKind::Other(34)));
    assert_eq!(parse_option_token(&chars("eol+7")), Some(TcpOptionKind::Eol));
}

#[test]
fn a_label_of_too_few_fields_is_none() {
    assert!(parse_label(&chars("s")).is_none());
    assert_eq!(parse_label(&chars("s:unix: Linux ")).unwrap().label, "Linux");
    let label = parse_label(&chars("g:win:Windows:NT:kernel")).unwrap();
    assert!(!label.specific);
    assert_eq!(label.class, "win");
    assert_eq!(label.label, "Windows NT:kernel");
}

#[test]
fn delimiters_within_brackets_do_not_split() {
    let text = chars("a,b=[c,d],,e");
    let pieces: Vec<String> = split_top_level(&text, ',')
        .into_iter()
        .map(|piece| piece.iter().collect())
        .collect();
    assert_eq!(pieces, ["a", "b=[c,d]", "", "e"]);
}

#[test]
fn signatures_of_two_texts_add_up() {
    let one = "[tcp:request]\nlabel = s:unix:A:1\nsig = *:64:0:*:*,*:mss::0\n";
    let two = "label = s:unix:B:2\nsig = *:64:0:*:*,*:mss::0\nsig = *:128:0:*:*,*:mss::+\n";
    let db = parse(&format!("{one}{two}"));
    let labels: Vec<&str> = db.tcp_request.iter().map(|s| s.label.as_str()).collect();
    assert_eq!(labels, ["A 1", "B 2", "B 2"]);
    assert_eq!(db.tcp_request[2].payload_class, PayloadClass::NonZero);
}

#[test]
fn comments_and_malformed_signatures_are_passed_over() {
    let db = parse("[tcp:request]\n; a note\nlabel = s:unix:A:1\nsig = *:64:0\nsig = *:64:0:*:*,*:mss::0\n");
    assert_eq!(db.tcp_request.len(), 1);
    assert!(parse("").tcp_request.is_empty());
}
