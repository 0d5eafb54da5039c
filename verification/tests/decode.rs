use telltale_pf::decode::{ethernet_frame, ip_packet, tcp_features};
use telltale_pf::observation::{IpAddr, Observation, TcpHeader, TcpOptionKind, Transport};
use telltale_pf::time::Timestamp;

const ETHERNET_HEADER_LEN: usize = 14;
const IPV4_MIN_HEADER_LEN: usize = 20;
const TCP_MIN_HEADER_LEN: usize = 20;
const UDP_HEADER_LEN: usize = 8;

const SRC: [u8; 4] = [10, 0, 0, 9];
const DST: [u8; 4] = [10, 0, 0, 1];

fn address(octets: [u8; 4]) -> IpAddr {
    IpAddr::v4(octets[0], octets[1], octets[2], octets[3])
}

fn ethernet(ethertype: u16, payload: &[u8]) -> Vec<u8> {
    let mut frame = vec![0xff; 12];
    frame.extend_from_slice(&ethertype.to_be_bytes());
    frame.extend_from_slice(payload);
    frame
}

fn ipv4(protocol: u8, payload: &[u8]) -> Vec<u8> {
    let mut packet = vec![0x45, 0x00];
    packet.extend_from_slice(&((IPV4_MIN_HEADER_LEN + payload.len()) as u16).to_be_bytes());
    packet.extend_from_slice(&[0, 0, 0x40, 0, 64, protocol, 0, 0]);
    packet.extend_from_slice(&SRC);
    packet.extend_from_slice(&DST);
    packet.extend_from_slice(payload);
    packet
}

fn ipv6(next_header: u8, payload: &[u8]) -> Vec<u8> {
    let mut packet = vec![0x60, 0, 0, 0];
    packet.extend_from_slice(&(payload.len() as u16).to_be_bytes());
    packet.extend_from_slice(&[next_header, 57]);
    packet.extend_from_slice(&[0x20, 0x01, 0x0d, 0xb8, 0, 0, 0, 0, 0, 0, 0, 0, 0, 0, 0, 1]);
    packet.extend_from_slice(&[0xfe, 0x80, 0, 0, 0, 0, 0, 0, 0, 0, 0, 0, 0, 0, 0, 2]);
    packet.extend_from_slice(payload);
    packet
}

fn tcp(source: u16, destination: u16, flags: u8, payload: &[u8]) -> Vec<u8> {
    tcp_with_options(source, destination, flags, &[], payload)
}

/// `options` must be a multiple of 4 bytes, as on the wire.
fn tcp_with_options(
    source: u16,
    destination: u16,
    flags: u8,
    options: &[u8],
    payload: &[u8],
) -> Vec<u8> {
    let words = (TCP_MIN_HEADER_LEN + options.len()) / 4;
    let mut segment = Vec::new();
    segment.extend_from_slice(&source.to_be_bytes());
    segment.extend_from_slice(&destination.to_be_bytes());
    segment.extend_from_slice(&[0; 8]); // seq + ack
    segment.extend_from_slice(&[(words as u8) << 4, flags]); // data offset, flags
    segment.extend_from_slice(&29200u16.to_be_bytes()); // window
    segment.extend_from_slice(&[0; 4]); // checksum + urgent
    segment.extend_from_slice(options);
    segment.extend_from_slice(payload);
    segment
}

fn udp(source: u16, destination: u16, payload: &[u8]) -> Vec<u8> {
    let mut datagram = Vec::new();
    datagram.extend_from_slice(&source.to_be_bytes());
    datagram.extend_from_slice(&destination.to_be_bytes());
    datagram.extend_from_slice(&((UDP_HEADER_LEN + payload.len()) as u16).to_be_bytes());
    datagram.extend_from_slice(&[0, 0]); // checksum
    datagram.extend_from_slice(payload);
    datagram
}

fn decoded(frame: &[u8]) -> Observation {
    ethernet_frame(frame, Timestamp::epoch()).unwrap()
}

#[test]
fn decodes_a_tcp_syn() {
    let frame = ethernet(0x0800, &ipv4(6, &tcp(51234, 22, TcpHeader::SYN, &[])));
    let observation = ethernet_frame(&frame, Timestamp::epoch()).unwrap();

    assert_eq!(observation.source.addr, address(SRC));
    assert_eq!(observation.source.port, 51234);
    assert_eq!(observation.destination.addr, address(DST));
    assert_eq!(observation.destination.port, 22);
    assert_eq!(observation.transport, Transport::Tcp);
    assert_eq!(observation.ttl, Some(64));
    let tcp = observation.header.expect("a TCP packet has a TCP header");
    assert_eq!(tcp.flags, TcpHeader::SYN);
    assert_eq!(tcp.window, 29200);
    assert!(observation.payload.is_empty());
}

/// Option order is a fingerprint, so the block must come through byte for
/// byte and must not be mistaken for payload.
#[test]
fn tcp_options_are_kept_verbatim_and_apart_from_the_payload() {
    let options = [0x02, 0x04, 0x05, 0xb4, 0x01, 0x03, 0x03, 0x07]; // MSS 1460, NOP, WS 7
    let frame = ethernet(
        0x0800,
        &ipv4(6, &tcp_with_options(51234, 22, TcpHeader::SYN, &options, b"data")),
    );
    let observation = ethernet_frame(&frame, Timestamp::epoch()).unwrap();

    assert_eq!(observation.header.unwrap().options, options);
    assert_eq!(observation.payload, b"data");
}

#[test]
fn udp_has_no_tcp_header() {
    let frame = ethernet(0x0800, &ipv4(17, &udp(51234, 53, b"query")));
    let observation = ethernet_frame(&frame, Timestamp::epoch()).unwrap();
    assert!(observation.header.is_none());
    assert!(observation.tcp.is_none());
}

#[test]
fn unwraps_a_vlan_tag() {
    let tagged = {
        let mut payload = vec![0x00, 0x2a]; // priority + VLAN id 42
        payload.extend_from_slice(&0x0800u16.to_be_bytes());
        payload.extend_from_slice(&ipv4(6, &tcp(51234, 443, TcpHeader::SYN, &[])));
        ethernet(0x8100, &payload)
    };

    let observation = ethernet_frame(&tagged, Timestamp::epoch()).unwrap();
    assert_eq!(observation.destination.port, 443);
}

#[test]
fn udp_payload_stops_at_the_length_field() {
    // Frame padded to the 60-byte Ethernet minimum: the trailing zeros are
    // not payload and must not reach the methods.
    let mut frame = ethernet(0x0800, &ipv4(17, &udp(51234, 53, b"query")));
    frame.resize(60, 0);

    let observation = ethernet_frame(&frame, Timestamp::epoch()).unwrap();
    assert_eq!(observation.transport, Transport::Udp);
    assert_eq!(observation.payload, b"query");
}

#[test]
fn non_ip_frames_are_skipped() {
    let arp = ethernet(0x0806, &[0; 28]);
    assert!(ethernet_frame(&arp, Timestamp::epoch()).is_none());
}

#[test]
fn a_lying_header_length_is_rejected_not_trusted() {
    let mut frame = ethernet(0x0800, &ipv4(6, &tcp(51234, 22, TcpHeader::SYN, &[])));
    frame[ETHERNET_HEADER_LEN] = 0x4f; // IHL 15 words, past the end
    assert!(ethernet_frame(&frame, Timestamp::epoch()).is_none());
}

#[test]
fn non_initial_fragments_are_dropped() {
    let mut frame = ethernet(0x0800, &ipv4(6, &tcp(51234, 22, TcpHeader::SYN, &[])));
    frame[ETHERNET_HEADER_LEN + 6] = 0x00;
    frame[ETHERNET_HEADER_LEN + 7] = 0xb9; // fragment offset != 0
    assert!(ethernet_frame(&frame, Timestamp::epoch()).is_none());
}

#[test]
fn other_protocols_keep_the_flow_without_ports() {
    let frame = ethernet(0x0800, &ipv4(1, &[8, 0, 0, 0, 0, 0, 0, 0])); // ICMP echo
    let observation = ethernet_frame(&frame, Timestamp::epoch()).unwrap();

    assert_eq!(observation.transport, Transport::Other(1));
    assert_eq!(observation.source.port, 0);
    assert_eq!(observation.payload.len(), 8);
}

#[test]
fn an_ipv6_datagram_is_read_field_by_field() {
    let packet = ipv6(17, &udp(5353, 53, b"mdns"));
    let observation = ip_packet(&packet, Timestamp::after_epoch(5, 7)).unwrap();
    assert_eq!(
        observation.source.addr,
        IpAddr::V6(0x2001_0db8_0000_0000_0000_0000_0000_0001)
    );
    assert_eq!(
        observation.destination.addr,
        IpAddr::V6(0xfe80_0000_0000_0000_0000_0000_0000_0002)
    );
    assert_eq!(observation.source.port, 5353);
    assert_eq!(observation.destination.port, 53);
    assert_eq!(observation.ttl, Some(57));
    assert_eq!(observation.payload, b"mdns");
    assert_eq!(observation.at, Timestamp::after_epoch(5, 7));
}

#[test]
fn ipv6_padding_behind_the_payload_is_dropped() {
    let mut packet = ipv6(17, &udp(1, 2, b"abc"));
    packet.extend_from_slice(&[0; 9]);
    assert_eq!(ip_packet(&packet, Timestamp::epoch()).unwrap().payload, b"abc");
}

#[test]
fn a_third_vlan_tag_is_too_many() {
    let inner = ipv4(6, &tcp(1, 2, TcpHeader::SYN, &[]));
    let mut payload = Vec::new();
    for next in [0x88a8u16, 0x9100] {
        payload.extend_from_slice(&[0, 1]);
        payload.extend_from_slice(&next.to_be_bytes());
    }
    payload.extend_from_slice(&[0, 1, 0x08, 0x00]);
    payload.extend_from_slice(&inner);
    assert!(ethernet_frame(&ethernet(0x8100, &payload), Timestamp::epoch()).is_none());

    let two = &payload[4..];
    assert!(ethernet_frame(&ethernet(0x8100, two), Timestamp::epoch()).is_some());
}

#[test]
fn a_vlan_tag_cut_short_gives_nothing() {
    assert!(ethernet_frame(&ethernet(0x8100, &[0, 1, 8]), Timestamp::epoch()).is_none());
}

#[test]
fn short_headers_give_nothing() {
    let at = Timestamp::epoch();
    assert!(ethernet_frame(&[0; 13], at).is_none());
    assert!(ip_packet(&[], at).is_none());
    assert!(ip_packet(&[0x45; 19], at).is_none());
    assert!(ip_packet(&[0x60; 39], at).is_none());
    assert!(ip_packet(&[0x55; 60], at).is_none());
    assert!(ethernet_frame(&ethernet(0x0800, &ipv4(6, &[0; 19])), at).is_none());
    assert!(ethernet_frame(&ethernet(0x0800, &ipv4(17, &[0; 7])), at).is_none());
    // A TCP data offset of four words is less than the fixed header.
    let mut segment = tcp(1, 2, 0, &[]);
    segment[12] = 0x40;
    assert!(ethernet_frame(&ethernet(0x0800, &ipv4(6, &segment)), at).is_none());
}

#[test]
fn a_truncated_packet_ends_where_it_was_cut() {
    let mut packet = ipv4(17, &udp(1, 2, b"0123456789"));
    packet.truncate(packet.len() - 4);
    assert_eq!(ip_packet(&packet, Timestamp::epoch()).unwrap().payload, b"012345");
}

#[test]
fn stack_characteristics_are_read_off_the_options() {
    // MSS 1460, NOP, WS 6, NOP, NOP, TS, SACK permitted, EOL and one byte of padding.
    let options = [
        2, 4, 0x05, 0xb4, 1, 3, 3, 6, 1, 1, 8, 10, 0, 0, 0, 0, 0, 0, 0, 0, 4, 2, 0, 0,
    ];
    let frame = ethernet(
        0x0800,
        &ipv4(6, &tcp_with_options(51234, 443, TcpHeader::SYN, &options, b"")),
    );
    let features = decoded(&frame).tcp.unwrap();
    assert_eq!(features.ttl, 64);
    assert!(features.df);
    assert_eq!(features.window, 29200);
    assert_eq!(features.mss, Some(1460));
    assert_eq!(features.window_scale, Some(6));
    assert!(features.sack_permitted);
    assert!(features.timestamp);
    assert_eq!(
        features.option_order,
        vec![
            TcpOptionKind::Mss,
            TcpOptionKind::Nop,
            TcpOptionKind::WindowScale,
            TcpOptionKind::Nop,
            TcpOptionKind::Nop,
            TcpOptionKind::Timestamp,
            TcpOptionKind::SackPermitted,
            TcpOptionKind::Eol,
        ]
    );
    assert_eq!(features.eol_padding, Some(1));
}

#[test]
fn options_that_do_not_add_up_show_no_characteristics() {
    assert!(tcp_features(64, true, 1, &[2]).is_none());
    assert!(tcp_features(64, true, 1, &[2, 1]).is_none());
    assert!(tcp_features(64, true, 1, &[2, 4, 5]).is_none());
    assert!(tcp_features(64, true, 1, &[2, 3, 5]).is_none());
    let other = tcp_features(64, false, 1, &[5, 2, 34, 2]).unwrap();
    assert_eq!(other.option_order, vec![TcpOptionKind::Sack, TcpOptionKind::Other(34)]);
    assert_eq!(other.eol_padding, None);
    assert!(!other.df);
}
