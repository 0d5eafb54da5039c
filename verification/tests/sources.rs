use pcap_file::pcap::{PcapPacket, PcapReader, PcapWriter};
use pcap_file::DataLink;
use telltale_pf::address::addr_string;
use telltale_pf::error::Error;
use telltale_pf::observation::{IpAddr, Observation, TcpHeader, Transport};
use telltale_pf::source::{
    decode_on, is_retryable, open_failed, Device, Failure, HoneypotLogSource, InterfaceInfo, Link,
    LiveSource, Opened, PcapFileSource, TcpdumpSource,
};
use telltale_pf::time::Timestamp;

fn device(name: &str, addresses: Vec<IpAddr>, point_to_point: bool) -> Device {
    Device {
        info: InterfaceInfo {
            name: name.to_string(),
            description: String::new(),
            addresses,
        },
        point_to_point,
    }
}

fn devices() -> Vec<Device> {
    vec![
        device("lo", vec![IpAddr::v4(127, 0, 0, 1)], false),
        device("tun0", vec![], true),
    ]
}

fn open_error(interface: &str, filter: Option<String>) -> Error {
    match LiveSource::open(interface, filter, &devices()) {
        Err(error) => error,
        Ok(source) => panic!("expected `{}` to fail to open", source.describe()),
    }
}

#[test]
fn a_filter_is_refused_rather_than_ignored() {
    let error = open_error("lo", Some("tcp port 22".into()));
    assert!(error.message().contains("refusing"), "{error:?}");
}

#[test]
fn an_unknown_interface_lists_the_real_ones() {
    let error = open_error("definitely-not-an-interface", None);
    assert!(error.message().contains("no interface"), "{error:?}");
    assert!(error.message().ends_with("this host has: lo, tun0"), "{error:?}");
}

fn make_ethernet_ip_tcp(src_port: u16, dst_port: u16) -> Vec<u8> {
    let mut frame = vec![0xff; 12];
    frame.extend_from_slice(&0x0800u16.to_be_bytes()); // IPv4
    let tcp_seg = {
        let mut s = Vec::new();
        s.extend_from_slice(&src_port.to_be_bytes());
        s.extend_from_slice(&dst_port.to_be_bytes());
        s.extend_from_slice(&[0; 8]); // seq + ack
        s.extend_from_slice(&[0x50, 0x02]); // 5 words, SYN flag
        s.extend_from_slice(&[0; 6]);
        s
    };
    let ip_pkt = {
        let mut p = vec![0x45, 0x00];
        p.extend_from_slice(&((20 + tcp_seg.len()) as u16).to_be_bytes());
        p.extend_from_slice(&[0, 0, 0x40, 0, 64, 6, 0, 0]);
        p.extend_from_slice(&[192, 168, 1, 100]); // src IP
        p.extend_from_slice(&[192, 168, 1, 1]); // dst IP
        p.extend_from_slice(&tcp_seg);
        p
    };
    frame.extend_from_slice(&ip_pkt);
    frame
}

fn make_tcp_syn_frame(src_ip: [u8; 4], dst_ip: [u8; 4], src_port: u16, dst_port: u16) -> Vec<u8> {
    let mut frame = vec![0xff; 12];
    frame.extend_from_slice(&0x0800u16.to_be_bytes()); // IPv4

    let tcp_seg = {
        let mut s = Vec::new();
        s.extend_from_slice(&src_port.to_be_bytes());
        s.extend_from_slice(&dst_port.to_be_bytes());
        s.extend_from_slice(&1u32.to_be_bytes()); // seq
        s.extend_from_slice(&0u32.to_be_bytes()); // ack
        s.extend_from_slice(&[0x50, 0x02]); // 5 words, SYN
        s.extend_from_slice(&[0x72, 0x10]); // window 29200
        s.extend_from_slice(&[0, 0, 0, 0]); // checksum + urgent
        s
    };

    let ip_pkt = {
        let mut p = vec![0x45, 0x00];
        p.extend_from_slice(&((20 + tcp_seg.len()) as u16).to_be_bytes());
        p.extend_from_slice(&[0x12, 0x34, 0x40, 0, 64, 6, 0, 0]);
        p.extend_from_slice(&src_ip);
        p.extend_from_slice(&dst_ip);
        p.extend_from_slice(&tcp_seg);
        p
    };

    frame.extend_from_slice(&ip_pkt);
    frame
}

/// Writes a capture file, in memory.
fn captured(packets: &[(u64, Vec<u8>)]) -> Vec<u8> {
    let mut writer = PcapWriter::new(Vec::new()).expect("failed to init pcap writer");
    for (secs, frame) in packets {
        let timestamp = std::time::Duration::from_secs(*secs);
        writer
            .write_packet(&PcapPacket::new(timestamp, frame.len() as u32, frame))
            .expect("failed to write packet");
    }
    writer.into_writer()
}

/// Replays a capture file that was read into memory.
fn replay(path: &str, file: &[u8]) -> (PcapFileSource, Vec<Observation>) {
    let mut reader = PcapReader::new(file).unwrap();
    let link = Link::numbered(u32::from(reader.header().datalink));
    let source = PcapFileSource::open(path, Opened::Ready(link)).unwrap();
    let mut observed = Vec::new();
    while let Some(packet) = reader.next_packet() {
        let packet = packet.unwrap();
        let at = Timestamp::after_epoch(packet.timestamp.as_secs(), packet.timestamp.subsec_nanos());
        observed.extend(source.accept(&packet.data, at));
    }
    (source, observed)
}

#[test]
fn replays_pcap_packets() {
    let frame1 = make_ethernet_ip_tcp(45678, 80);
    let frame2 = make_ethernet_ip_tcp(45678, 443);
    let file = captured(&[(100, frame1), (102, frame2)]);

    let (source, observed) = replay("test_replay.pcap", &file);
    assert_eq!(source.describe(), format!("pcap:{}", "test_replay.pcap"));

    let obs1 = &observed[0];
    assert_eq!(obs1.at, Timestamp::after_epoch(100, 0));
    assert_eq!(obs1.source.port, 45678);
    assert_eq!(obs1.destination.port, 80);
    assert_eq!(obs1.transport, Transport::Tcp);
    assert_eq!(obs1.header.as_ref().map(|t| t.flags), Some(TcpHeader::SYN));

    let obs2 = &observed[1];
    assert_eq!(obs2.at, Timestamp::after_epoch(102, 0));
    assert_eq!(obs2.source.port, 45678);
    assert_eq!(obs2.destination.port, 443);

    assert_eq!(observed.len(), 2);
}

#[test]
fn test_pcap_replay_full_flow() {
    let src = [198, 51, 100, 42];
    let dst = [192, 168, 1, 10];
    let ports = [80, 443, 22, 8080];

    let mut packets = Vec::new();
    for (i, &port) in ports.iter().enumerate() {
        let frame = make_tcp_syn_frame(src, dst, 54321 + i as u16, port);
        packets.push((1700000000 + (i as u64 * 5), frame));
    }
    let (_, observed) = replay("fixture.pcap", &captured(&packets));

    let mut observed_ports = Vec::new();
    let mut timestamps = Vec::new();
    for obs in observed {
        assert_eq!(addr_string(obs.source.addr), "198.51.100.42");
        assert_eq!(addr_string(obs.destination.addr), "192.168.1.10");
        assert_eq!(obs.transport, Transport::Tcp);
        assert_eq!(obs.header.as_ref().map(|t| t.flags), Some(TcpHeader::SYN));
        observed_ports.push(obs.destination.port);
        timestamps.push(obs.at);
    }

    assert_eq!(observed_ports, vec![80, 443, 22, 8080]);
    assert_eq!(timestamps[0], Timestamp::after_epoch(1700000000, 0));
    assert_eq!(timestamps[3], Timestamp::after_epoch(1700000015, 0));
}

#[test]
fn test_fixture_generation_and_replay() {
    let src = [198, 51, 100, 42];
    let dst = [192, 168, 1, 10];
    let ports = [22, 80, 443, 3389, 8080];

    let mut packets = Vec::new();
    for (i, &port) in ports.iter().enumerate() {
        let frame = make_tcp_syn_frame(src, dst, 54000 + i as u16, port);
        packets.push((1700000000 + (i as u64 * 2), frame));
    }
    let (_, observed) = replay("sample_syn_scan.pcap", &captured(&packets));

    let mut count = 0;
    for obs in observed {
        assert_eq!(addr_string(obs.source.addr), "198.51.100.42");
        assert_eq!(obs.destination.port, ports[count]);
        count += 1;
    }
    assert_eq!(count, 5);
}

#[test]
fn a_capture_file_that_does_not_open_says_why() {
    let message = |opened| PcapFileSource::open("a.pcap", opened).unwrap_err().message();
    assert_eq!(message(Opened::Missing), "capture source failed: no such file: a.pcap");
    assert_eq!(
        message(Opened::Refused("no".to_string())),
        "capture source failed: failed to open `a.pcap`: no"
    );
    assert_eq!(
        message(Opened::Malformed("bad".to_string())),
        "capture source failed: failed to parse pcap header in `a.pcap`: bad"
    );
    let source = PcapFileSource::open("a.pcap", Opened::Ready(Link::Other)).unwrap();
    assert_eq!(
        source.read_failed("cut").message(),
        "capture source failed: error reading packet from `a.pcap`: cut"
    );
}

#[test]
fn links_go_by_their_numbers() {
    let links = [
        (DataLink::ETHERNET, Link::Ethernet),
        (DataLink::RAW, Link::RawIp),
        (DataLink::IPV4, Link::RawIp),
        (DataLink::IPV6, Link::RawIp),
        (DataLink::LINUX_SLL, Link::LinuxSll),
        (DataLink::LINUX_SLL2, Link::LinuxSll2),
        (DataLink::NULL, Link::Other),
    ];
    for (datalink, link) in links {
        assert_eq!(Link::numbered(u32::from(datalink)), link);
    }
}

#[test]
fn each_link_type_has_its_own_framing() {
    let frame = make_ethernet_ip_tcp(1, 2);
    let ip = &frame[14..];
    let cooked = |n: usize| {
        let mut data = vec![0; n];
        data.extend_from_slice(ip);
        data
    };
    let at = Timestamp::epoch();
    assert!(decode_on(Link::Ethernet, &frame, at).is_some());
    assert!(decode_on(Link::RawIp, ip, at).is_some());
    assert!(decode_on(Link::LinuxSll, &cooked(16), at).is_some());
    assert!(decode_on(Link::LinuxSll2, &cooked(20), at).is_some());
    assert!(decode_on(Link::Other, &frame, at).is_some());
    assert!(decode_on(Link::Other, ip, at).is_some());
    assert!(decode_on(Link::LinuxSll, &[0; 16], at).is_none());
    assert!(decode_on(Link::RawIp, &frame, at).is_none());
}

#[test]
fn incoming_only_drops_what_this_host_sent() {
    let at = Timestamp::epoch();
    let frame = make_ethernet_ip_tcp(1, 2);
    let mine = vec![device("eth0", vec![IpAddr::v4(192, 168, 1, 100)], false)];
    let both = LiveSource::open("eth0", None, &mine).unwrap();
    assert!(both.accept(&frame, at).is_some());
    assert!(both.dropped_sources().is_empty());
    assert_eq!(both.filter(), None);
    let incoming = both.incoming_only().unwrap();
    assert!(incoming.accept(&frame, at).is_none());
    assert_eq!(*incoming.dropped_sources(), vec![IpAddr::v4(192, 168, 1, 100)]);
    assert_eq!(incoming.interface(), "eth0");
    assert_eq!(incoming.describe(), "live:eth0");

    let tun = LiveSource::open("tun0", None, &devices()).unwrap();
    assert!(tun.accept(&frame[14..], at).is_some());
    assert_eq!(
        tun.read_failed("gone").message(),
        "capture source failed: read from `tun0` failed: gone"
    );
    assert!(tun.wrong_channel().message().contains("channel type"));
    assert!(tun.incoming_only().unwrap_err().message().contains("no IP address"));
}

#[test]
fn failures_to_open_say_what_is_needed() {
    let needed = open_failed("eth0", Failure::PermissionDenied, "denied", false).message();
    assert!(needed.contains("CAP_NET_RAW"), "{needed}");
    let needed = open_failed("eth0", Failure::PermissionDenied, "denied", true).message();
    assert!(needed.contains("Npcap"), "{needed}");
    assert_eq!(
        open_failed("eth0", Failure::Other, "busy", false).message(),
        "capture source failed: cannot capture on `eth0`: busy"
    );
    assert!(is_retryable(Failure::TimedOut));
    assert!(is_retryable(Failure::WouldBlock));
    assert!(is_retryable(Failure::Interrupted));
    assert!(!is_retryable(Failure::PermissionDenied));
    assert!(!is_retryable(Failure::Other));
}

#[test]
fn sources_that_are_not_read_yet_say_so() {
    let mut log = HoneypotLogSource::open("a.log", "cowrie", true).unwrap();
    assert_eq!(log.describe(), "honeypot:cowrie:a.log");
    assert!(log.next_observation().unwrap_err().message().contains("`cowrie` is not implemented"));
    assert!(HoneypotLogSource::open("a.log", "cowrie", false).is_err());
    let mut tcpdump = TcpdumpSource::spawn("tcpdump -w -").unwrap();
    assert_eq!(tcpdump.describe(), "tcpdump:tcpdump -w -");
    assert!(tcpdump.next_observation().is_err());
}
