use telltale_pf::classifier::classify;
use telltale_pf::observation::{Endpoint, IpAddr, Observation, TcpHeader, Transport};
use telltale_pf::time::Timestamp;
use telltale_pf::trigger::TriggerEvent;

fn packet(tcp: Option<u8>, payload: &[u8]) -> Observation {
    let endpoint = |port| Endpoint {
        addr: IpAddr::v4(127, 0, 0, 1),
        port,
    };
    Observation {
        at: Timestamp::epoch(),
        source: endpoint(40000),
        destination: endpoint(443),
        transport: if tcp.is_some() { Transport::Tcp } else { Transport::Udp },
        ttl: Some(64),
        header: tcp.map(|flags| TcpHeader {
            flags,
            window: 0,
            options: Vec::new(),
        }),
        payload: payload.to_vec(),
        stage_hint: None,
        tcp: None,
    }
}

const ACK: u8 = TcpHeader::ACK;
const PSH_ACK: u8 = TcpHeader::PSH | TcpHeader::ACK;

#[test]
fn syn_and_syn_ack_are_told_apart() {
    assert_eq!(classify(&packet(Some(TcpHeader::SYN), b"")), [TriggerEvent::TcpSyn]);
    assert_eq!(
        classify(&packet(Some(TcpHeader::SYN | ACK), b"")),
        [TriggerEvent::TcpSynAck]
    );
}

#[test]
fn a_bare_ack_raises_nothing() {
    assert!(classify(&packet(Some(ACK), b"")).is_empty());
    assert!(classify(&packet(Some(TcpHeader::RST), b"")).is_empty());
}

#[test]
fn tls_hellos_are_recognised_by_record_and_handshake_type() {
    let hello = |kind| [0x16, 0x03, 0x01, 0x02, 0x00, kind, 0x00];
    assert_eq!(classify(&packet(Some(PSH_ACK), &hello(1))), [TriggerEvent::TlsClientHello]);
    assert_eq!(classify(&packet(Some(PSH_ACK), &hello(2))), [TriggerEvent::TlsServerHello]);
    // Certificate, not a hello.
    assert!(classify(&packet(Some(PSH_ACK), &hello(11))).is_empty());
}

#[test]
fn application_banners_are_recognised() {
    let cases: [(&[u8], TriggerEvent); 4] = [
        (b"SSH-2.0-OpenSSH_9.6\r\n", TriggerEvent::SshBanner),
        (b"GET / HTTP/1.1\r\n", TriggerEvent::HttpRequest),
        (b"OPTIONS * HTTP/1.1\r\n", TriggerEvent::HttpRequest),
        (b"HTTP/1.1 200 OK\r\n", TriggerEvent::HttpResponse),
    ];
    for (payload, event) in cases {
        assert_eq!(classify(&packet(Some(PSH_ACK), payload)), [event]);
    }
}

#[test]
fn a_method_name_without_its_space_is_not_a_request() {
    assert!(classify(&packet(Some(PSH_ACK), b"GETTER")).is_empty());
}

#[test]
fn a_syn_carrying_data_raises_both() {
    assert_eq!(
        classify(&packet(Some(TcpHeader::SYN), b"GET / HTTP/1.1\r\n")),
        [TriggerEvent::TcpSyn, TriggerEvent::HttpRequest]
    );
}

#[test]
fn non_tcp_raises_nothing_yet() {
    assert!(classify(&packet(None, b"GET / HTTP/1.1\r\n")).is_empty());
}

#[test]
fn every_request_method_is_known() {
    let methods: [&[u8]; 9] = [
        b"GET ", b"POST ", b"HEAD ", b"PUT ", b"DELETE ", b"OPTIONS ", b"PATCH ", b"CONNECT ",
        b"TRACE ",
    ];
    for method in methods {
        assert_eq!(classify(&packet(Some(PSH_ACK), method)), [TriggerEvent::HttpRequest]);
        let cut = &method[..method.len() - 1];
        assert!(classify(&packet(Some(PSH_ACK), cut)).is_empty());
    }
}

#[test]
fn a_record_too_short_to_tell_its_message_is_no_hello() {
    assert!(classify(&packet(Some(PSH_ACK), &[0x16, 0x03, 0x01, 0x00, 0x40])).is_empty());
}

#[test]
fn only_the_end_of_a_session_is_a_session_event() {
    assert!(TriggerEvent::SessionEnd.is_session_event());
    assert!(!TriggerEvent::TcpSyn.is_session_event());
    assert!(!TriggerEvent::HttpRequest.is_session_event());
    let raised = classify(&packet(Some(TcpHeader::SYN), b"SSH-2.0-x"));
    assert_eq!(raised, [TriggerEvent::TcpSyn, TriggerEvent::SshBanner]);
    assert!(raised.iter().all(|event| !event.is_session_event()));
}
