//! Packet headers as they lie on the wire.
//!
//! The headers are read by the `pnet` packet types. Each function here hands a
//! buffer to one of them and gives back the fields as plain numbers; a buffer too
//! short for the fixed part of the header gives nothing.

use vstd::prelude::*;

use pnet::packet::ethernet::EthernetPacket;
use pnet::packet::ipv4::Ipv4Packet;
use pnet::packet::ipv6::Ipv6Packet;
use pnet::packet::tcp::TcpPacket;
use pnet::packet::udp::UdpPacket;

verus! {

/// The number that bytes write, the most significant first.
pub open spec fn big_endian(bytes: Seq<u8>) -> nat
    decreases bytes.len(),
{
    if bytes.len() == 0 {
        0
    } else {
        big_endian(bytes.drop_last()) * 256 + bytes.last() as nat
    }
}

/// The two bytes at `i`, as a number.
pub open spec fn u16_at(bytes: Seq<u8>, i: int) -> u16 {
    (bytes[i] * 256 + bytes[i + 1]) as u16
}

/// The type that an Ethernet header gives for what it carries.
pub open spec fn ethernet_type(frame: Seq<u8>) -> u16 {
    u16_at(frame, 12)
}

/// `EthernetPacket::new` and `get_ethertype` of `pnet`: of at least 14 bytes, the
/// two at 12, the most significant first.
#[verifier::external_body]
pub(crate) fn read_ethernet(frame: &[u8]) -> (r: Option<u16>)
    ensures
        match r {
            Some(ethertype) => frame@.len() >= 14 && ethertype == ethernet_type(frame@),
            None => frame@.len() < 14,
        },
{
    let packet = EthernetPacket::new(frame)?;
    Some(packet.get_ethertype().0)
}

/// The fields of an IPv4 header that decoding looks at.
#[derive(Debug, Clone, Copy, PartialEq, Eq, Structural)]
pub struct Ipv4Fields {
    /// In words of four bytes.
    pub header_length: u8,
    pub total_length: u16,
    /// The reserved bit, Don't Fragment and More Fragments.
    pub flags: u8,
    pub fragment_offset: u16,
    pub ttl: u8,
    pub protocol: u8,
    pub source: u32,
    pub destination: u32,
}

pub open spec fn ipv4_fields(packet: Seq<u8>) -> Ipv4Fields {
    Ipv4Fields {
        header_length: packet[0] % 16,
        total_length: u16_at(packet, 2),
        flags: packet[6] / 32,
        fragment_offset: ((packet[6] % 32) * 256 + packet[7]) as u16,
        ttl: packet[8],
        protocol: packet[9],
        source: big_endian(packet.subrange(12, 16)) as u32,
        destination: big_endian(packet.subrange(16, 20)) as u32,
    }
}

/// `Ipv4Packet::new` and its accessors, of `pnet`: of at least 20 bytes, the
/// header length in the low half of the first, the total length at 2, three bits
/// of flags and thirteen of fragment offset at 6, the TTL at 8, the protocol at 9
/// and the addresses at 12 and 16, all with the most significant byte first.
#[verifier::external_body]
pub(crate) fn read_ipv4(packet: &[u8]) -> (r: Option<Ipv4Fields>)
    ensures
        match r {
            Some(fields) => packet@.len() >= 20 && fields == ipv4_fields(packet@),
            None => packet@.len() < 20,
        },
{
    let ip = Ipv4Packet::new(packet)?;
    Some(Ipv4Fields {
        header_length: ip.get_header_length(),
        total_length: ip.get_total_length(),
        flags: ip.get_flags(),
        fragment_offset: ip.get_fragment_offset(),
        ttl: ip.get_ttl(),
        protocol: ip.get_next_level_protocol().0,
        source: u32::from(ip.get_source()),
        destination: u32::from(ip.get_destination()),
    })
}

/// The fields of an IPv6 header that decoding looks at.
#[derive(Debug, Clone, Copy, PartialEq, Eq, Structural)]
pub struct Ipv6Fields {
    pub payload_length: u16,
    pub next_header: u8,
    pub hop_limit: u8,
    pub source: u128,
    pub destination: u128,
}

pub open spec fn ipv6_fields(packet: Seq<u8>) -> Ipv6Fields {
    Ipv6Fields {
        payload_length: u16_at(packet, 4),
        next_header: packet[6],
        hop_limit: packet[7],
        source: big_endian(packet.subrange(8, 24)) as u128,
        destination: big_endian(packet.subrange(24, 40)) as u128,
    }
}

/// `Ipv6Packet::new` and its accessors, of `pnet`: of at least 40 bytes, the
/// payload length at 4, the next header at 6, the hop limit at 7 and the addresses
/// at 8 and 24, all with the most significant byte first.
#[verifier::external_body]
pub(crate) fn read_ipv6(packet: &[u8]) -> (r: Option<Ipv6Fields>)
    ensures
        match r {
            Some(fields) => packet@.len() >= 40 && fields == ipv6_fields(packet@),
            None => packet@.len() < 40,
        },
{
    let ip = Ipv6Packet::new(packet)?;
    Some(Ipv6Fields {
        payload_length: ip.get_payload_length(),
        next_header: ip.get_next_header().0,
        hop_limit: ip.get_hop_limit(),
        source: u128::from(ip.get_source()),
        destination: u128::from(ip.get_destination()),
    })
}

/// The fields of a TCP header that decoding looks at.
#[derive(Debug, Clone, Copy, PartialEq, Eq, Structural)]
pub struct TcpFields {
    pub source: u16,
    pub destination: u16,
    /// In words of four bytes.
    pub data_offset: u8,
    pub flags: u8,
    pub window: u16,
}

pub open spec fn tcp_fields(segment: Seq<u8>) -> TcpFields {
    TcpFields {
        source: u16_at(segment, 0),
        destination: u16_at(segment, 2),
        data_offset: segment[12] / 16,
        flags: segment[13],
        window: u16_at(segment, 14),
    }
}

/// `TcpPacket::new` and its accessors, of `pnet`: of at least 20 bytes, the ports
/// at 0 and 2, the data offset in the high half of the byte at 12, the flags at 13
/// and the window at 14, all with the most significant byte first.
#[verifier::external_body]
pub(crate) fn read_tcp(segment: &[u8]) -> (r: Option<TcpFields>)
    ensures
        match r {
            Some(fields) => segment@.len() >= 20 && fields == tcp_fields(segment@),
            None => segment@.len() < 20,
        },
{
    let tcp = TcpPacket::new(segment)?;
    Some(TcpFields {
        source: tcp.get_source(),
        destination: tcp.get_destination(),
        data_offset: tcp.get_data_offset(),
        flags: tcp.get_flags(),
        window: tcp.get_window(),
    })
}

/// The fields of a UDP header that decoding looks at.
#[derive(Debug, Clone, Copy, PartialEq, Eq, Structural)]
pub struct UdpFields {
    pub source: u16,
    pub destination: u16,
    /// Of the header and what it carries.
    pub length: u16,
}

pub open spec fn udp_fields(datagram: Seq<u8>) -> UdpFields {
    UdpFields {
        source: u16_at(datagram, 0),
        destination: u16_at(datagram, 2),
        length: u16_at(datagram, 4),
    }
}

/// `UdpPacket::new` and its accessors, of `pnet`: of at least 8 bytes, the ports
/// at 0 and 2 and the length at 4, all with the most significant byte first.
#[verifier::external_body]
pub(crate) fn read_udp(datagram: &[u8]) -> (r: Option<UdpFields>)
    ensures
        match r {
            Some(fields) => datagram@.len() >= 8 && fields == udp_fields(datagram@),
            None => datagram@.len() < 8,
        },
{
    let udp = UdpPacket::new(datagram)?;
    Some(UdpFields {
        source: udp.get_source(),
        destination: udp.get_destination(),
        length: udp.get_length(),
    })
}

} // verus!
