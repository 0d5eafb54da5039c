//! From the bytes of a frame to an [`Observation`].
//!
//! No length field is trusted on its own: each is held against the bytes that
//! arrived, and a frame that does not add up gives `None` rather than a guess.

use vstd::prelude::*;
use vstd::slice::slice_subrange;

use crate::observation::{
    Endpoint, IpAddr, Observation, ObservationView, TcpFeatures, TcpFeaturesView, TcpHeader,
    TcpHeaderView, TcpOptionKind, Transport,
};
use crate::time::Timestamp;
use crate::wire;
use crate::wire::{ethernet_type, ipv4_fields, ipv6_fields, tcp_fields, u16_at, udp_fields};
use crate::wire::big_endian;

verus! {

pub const ETHERNET_HEADER_LEN: usize = 14;

pub const VLAN_TAG_LEN: usize = 4;

pub const IPV4_MIN_HEADER_LEN: usize = 20;

pub const IPV6_HEADER_LEN: usize = 40;

pub const TCP_MIN_HEADER_LEN: usize = 20;

pub const UDP_HEADER_LEN: usize = 8;

/// How many stacked VLAN tags are unwrapped before giving up.
pub const MAX_VLAN_TAGS: usize = 2;

pub const ETHERTYPE_IPV4: u16 = 0x0800;

pub const ETHERTYPE_IPV6: u16 = 0x86dd;

pub const PROTOCOL_TCP: u8 = 6;

pub const PROTOCOL_UDP: u8 = 17;

/// `x`, or the nearer end of the range where it lies outside.
pub open spec fn clamp(x: int, low: int, high: int) -> int {
    if x < low {
        low
    } else if x > high {
        high
    } else {
        x
    }
}

fn clamped(x: usize, low: usize, high: usize) -> (r: usize)
    ensures
        r == clamp(x as int, low as int, high as int),
{
    if x < low {
        low
    } else if x > high {
        high
    } else {
        x
    }
}

fn bytes_of(s: &[u8]) -> (r: Vec<u8>)
    ensures
        r@ == s@,
{
    let mut out: Vec<u8> = Vec::new();
    let mut i: usize = 0;
    while i < s.len()
        invariant
            i <= s@.len(),
            out@ == s@.take(i as int),
        decreases s@.len() - i,
    {
        out.push(s[i]);
        i = i + 1;
    }
    assert(s@.take(i as int) =~= s@);
    out
}

// ---------------------------------------------------------------------------
// TCP options

/// What the options of a TCP header say, as far as they have been read.
pub ghost struct OptionsView {
    pub mss: Option<u16>,
    pub window_scale: Option<u8>,
    pub sack_permitted: bool,
    pub timestamp: bool,
    pub order: Seq<TcpOptionKind>,
    pub eol_padding: Option<u8>,
}

pub open spec fn no_options() -> OptionsView {
    OptionsView {
        mss: None,
        window_scale: None,
        sack_permitted: false,
        timestamp: false,
        order: Seq::empty(),
        eol_padding: None,
    }
}

/// The kind that a number stands for.
pub open spec fn option_kind(kind: u8) -> TcpOptionKind {
    if kind == 0 {
        TcpOptionKind::Eol
    } else if kind == 1 {
        TcpOptionKind::Nop
    } else if kind == 2 {
        TcpOptionKind::Mss
    } else if kind == 3 {
        TcpOptionKind::WindowScale
    } else if kind == 4 {
        TcpOptionKind::SackPermitted
    } else if kind == 5 {
        TcpOptionKind::Sack
    } else if kind == 8 {
        TcpOptionKind::Timestamp
    } else {
        TcpOptionKind::Other(kind)
    }
}

/// The length that an option of this kind must have, where it is fixed.
pub open spec fn fixed_length(kind: u8) -> Option<u8> {
    if kind == 2 {
        Some(4)
    } else if kind == 3 {
        Some(3)
    } else if kind == 4 {
        Some(2)
    } else if kind == 8 {
        Some(10)
    } else {
        None
    }
}

/// What one option with a length adds.
pub open spec fn with_option(seen: OptionsView, option: Seq<u8>) -> OptionsView {
    let kind = option[0];
    let order = seen.order.push(option_kind(kind));
    if kind == 2 {
        OptionsView { mss: Some(u16_at(option, 2)), order, ..seen }
    } else if kind == 3 {
        OptionsView { window_scale: Some(option[2]), order, ..seen }
    } else if kind == 4 {
        OptionsView { sack_permitted: true, order, ..seen }
    } else if kind == 8 {
        OptionsView { timestamp: true, order, ..seen }
    } else {
        OptionsView { order, ..seen }
    }
}

/// What the rest of an options area adds: each option in order, up to its end or
/// to the EOL option, whose padding is what follows it. `None` where an option's
/// length does not fit.
pub open spec fn read_options(area: Seq<u8>, seen: OptionsView) -> Option<OptionsView>
    decreases area.len(),
{
    if area.len() == 0 {
        Some(seen)
    } else if area[0] == 0 {
        Some(
            OptionsView {
                order: seen.order.push(TcpOptionKind::Eol),
                eol_padding: Some((area.len() - 1) as u8),
                ..seen
            },
        )
    } else if area[0] == 1 {
        read_options(
            area.skip(1),
            OptionsView { order: seen.order.push(TcpOptionKind::Nop), ..seen },
        )
    } else if area.len() < 2 || area[1] < 2 || area[1] > area.len() {
        None
    } else if fixed_length(area[0]) is Some && fixed_length(area[0]) != Some(area[1]) {
        None
    } else {
        read_options(
            area.skip(area[1] as int),
            with_option(seen, area.take(area[1] as int)),
        )
    }
}

/// The stack characteristics that a segment shows; `None` where its options do not
/// add up.
pub open spec fn features_of(ttl: u8, df: bool, window: u16, options: Seq<u8>) -> Option<
    TcpFeaturesView,
> {
    match read_options(options, no_options()) {
        Some(seen) => Some(
            TcpFeaturesView {
                ttl,
                df,
                window,
                mss: seen.mss,
                window_scale: seen.window_scale,
                sack_permitted: seen.sack_permitted,
                timestamp: seen.timestamp,
                option_order: seen.order,
                eol_padding: seen.eol_padding,
            },
        ),
        None => None,
    }
}

fn kind_of(kind: u8) -> (r: TcpOptionKind)
    ensures
        r == option_kind(kind),
{
    if kind == 0 {
        TcpOptionKind::Eol
    } else if kind == 1 {
        TcpOptionKind::Nop
    } else if kind == 2 {
        TcpOptionKind::Mss
    } else if kind == 3 {
        TcpOptionKind::WindowScale
    } else if kind == 4 {
        TcpOptionKind::SackPermitted
    } else if kind == 5 {
        TcpOptionKind::Sack
    } else if kind == 8 {
        TcpOptionKind::Timestamp
    } else {
        TcpOptionKind::Other(kind)
    }
}

fn has_right_length(kind: u8, length: u8) -> (r: bool)
    ensures
        r == !(fixed_length(kind) is Some && fixed_length(kind) != Some(length)),
{
    if kind == 2 {
        length == 4
    } else if kind == 3 {
        length == 3
    } else if kind == 4 {
        length == 2
    } else if kind == 8 {
        length == 10
    } else {
        true
    }
}

spec fn seen_so_far(features: TcpFeatures) -> OptionsView {
    OptionsView {
        mss: features.mss,
        window_scale: features.window_scale,
        sack_permitted: features.sack_permitted,
        timestamp: features.timestamp,
        order: features.option_order@,
        eol_padding: features.eol_padding,
    }
}

/// Reads the stack characteristics of a segment. An options area is at most 40
/// bytes long.
pub fn tcp_features(ttl: u8, df: bool, window: u16, options: &[u8]) -> (r: Option<TcpFeatures>)
    requires
        options@.len() <= 40,
    ensures
        match r {
            Some(features) => features_of(ttl, df, window, options@) == Some(features@),
            None => features_of(ttl, df, window, options@) is None,
        },
{
    let mut features = TcpFeatures {
        ttl,
        df,
        window,
        mss: None,
        window_scale: None,
        sack_permitted: false,
        timestamp: false,
        option_order: Vec::new(),
        eol_padding: None,
    };
    let mut i: usize = 0;
    assert(seen_so_far(features).order =~= Seq::empty());
    assert(options@.skip(0) =~= options@);
    while i < options.len()
        invariant
            i <= options@.len() <= 40,
            features.ttl == ttl,
            features.df == df,
            features.window == window,
            read_options(options@, no_options()) == read_options(
                options@.skip(i as int),
                seen_so_far(features),
            ),
        decreases options@.len() - i,
    {
        let ghost area = options@.skip(i as int);
        let ghost seen = seen_so_far(features);
        let kind: u8 = options[i];
        assert(area[0] == kind);
        if kind == 0 {
            features.option_order.push(TcpOptionKind::Eol);
            features.eol_padding = Some((options.len() - i - 1) as u8);
            return Some(features);
        }
        if kind == 1 {
            features.option_order.push(TcpOptionKind::Nop);
            assert(area.skip(1) =~= options@.skip(i + 1));
            i = i + 1;
            continue ;
        }
        if options.len() - i < 2 {
            return None;
        }
        let length: u8 = options[i + 1];
        assert(area[1] == length);
        if length < 2 || length as usize > options.len() - i || !has_right_length(kind, length) {
            return None;
        }
        let ghost option = area.take(length as int);
        if kind == 2 {
            assert(option[2] == options@[i + 2] && option[3] == options@[i + 3]);
            features.mss = Some(options[i + 2] as u16 * 256 + options[i + 3] as u16);
        } else if kind == 3 {
            assert(option[2] == options@[i + 2]);
            features.window_scale = Some(options[i + 2]);
        } else if kind == 4 {
            features.sack_permitted = true;
        } else if kind == 8 {
            features.timestamp = true;
        }
        features.option_order.push(kind_of(kind));
        proof {
            assert(option[0] == kind);
            assert(seen_so_far(features) == with_option(seen, option));
            assert(area.skip(length as int) =~= options@.skip(i + length));
        }
        i = i + length as usize;
    }
    Some(features)
}

// ---------------------------------------------------------------------------
// Transports

/// What lies above IP: where it came from, how, and what it carries. `None` for a
/// TCP or UDP header that does not add up; what is neither is kept as it is, with
/// no ports.
pub open spec fn decoded_transport(
    protocol: u8,
    source: IpAddr,
    destination: IpAddr,
    ttl: u8,
    df: bool,
    segment: Seq<u8>,
    at: Timestamp,
) -> Option<ObservationView> {
    if protocol == PROTOCOL_TCP {
        let fields = tcp_fields(segment);
        let header_len = fields.data_offset * 4;
        if segment.len() < TCP_MIN_HEADER_LEN || header_len < TCP_MIN_HEADER_LEN || header_len
            > segment.len() {
            None
        } else {
            let options = segment.subrange(TCP_MIN_HEADER_LEN as int, header_len);
            Some(
                ObservationView {
                    at,
                    source: Endpoint { addr: source, port: fields.source },
                    destination: Endpoint { addr: destination, port: fields.destination },
                    transport: Transport::Tcp,
                    ttl: Some(ttl),
                    header: Some(
                        TcpHeaderView { flags: fields.flags, window: fields.window, options },
                    ),
                    payload: segment.skip(header_len),
                    stage_hint: None,
                    tcp: features_of(ttl, df, fields.window, options),
                },
            )
        }
    } else if protocol == PROTOCOL_UDP {
        let fields = udp_fields(segment);
        if segment.len() < UDP_HEADER_LEN {
            None
        } else {
            let end = clamp(fields.length as int, UDP_HEADER_LEN as int, segment.len() as int);
            Some(
                ObservationView {
                    at,
                    source: Endpoint { addr: source, port: fields.source },
                    destination: Endpoint { addr: destination, port: fields.destination },
                    transport: Transport::Udp,
                    ttl: Some(ttl),
                    header: None,
                    payload: segment.subrange(UDP_HEADER_LEN as int, end),
                    stage_hint: None,
                    tcp: None,
                },
            )
        }
    } else {
        Some(
            ObservationView {
                at,
                source: Endpoint { addr: source, port: 0 },
                destination: Endpoint { addr: destination, port: 0 },
                transport: Transport::Other(protocol),
                ttl: Some(ttl),
                header: None,
                payload: segment,
                stage_hint: None,
                tcp: None,
            },
        )
    }
}

/// What a decoder found.
pub open spec fn found(r: Option<Observation>) -> Option<ObservationView> {
    match r {
        Some(observation) => Some(observation@),
        None => None,
    }
}

fn transport(
    protocol: u8,
    source: IpAddr,
    destination: IpAddr,
    ttl: u8,
    df: bool,
    segment: &[u8],
    at: Timestamp,
) -> (r: Option<Observation>)
    ensures
        found(r) == decoded_transport(protocol, source, destination, ttl, df, segment@, at),
{
    if protocol == PROTOCOL_TCP {
        let fields = match wire::read_tcp(segment) {
            Some(fields) => fields,
            None => {
                return None;
            },
        };
        let header_len: usize = fields.data_offset as usize * 4;
        if header_len < TCP_MIN_HEADER_LEN || header_len > segment.len() {
            return None;
        }
        let options = slice_subrange(segment, TCP_MIN_HEADER_LEN, header_len);
        let payload = slice_subrange(segment, header_len, segment.len());
        assert(payload@ =~= segment@.skip(header_len as int));
        let header = TcpHeader {
            flags: fields.flags,
            window: fields.window,
            options: bytes_of(options),
        };
        let tcp = tcp_features(ttl, df, fields.window, options);
        Some(
            Observation {
                at,
                source: Endpoint { addr: source, port: fields.source },
                destination: Endpoint { addr: destination, port: fields.destination },
                transport: Transport::Tcp,
                ttl: Some(ttl),
                header: Some(header),
                payload: bytes_of(payload),
                stage_hint: None,
                tcp,
            },
        )
    } else if protocol == PROTOCOL_UDP {
        let fields = match wire::read_udp(segment) {
            Some(fields) => fields,
            None => {
                return None;
            },
        };
        let end = clamped(fields.length as usize, UDP_HEADER_LEN, segment.len());
        let payload = slice_subrange(segment, UDP_HEADER_LEN, end);
        Some(
            Observation {
                at,
                source: Endpoint { addr: source, port: fields.source },
                destination: Endpoint { addr: destination, port: fields.destination },
                transport: Transport::Udp,
                ttl: Some(ttl),
                header: None,
                payload: bytes_of(payload),
                stage_hint: None,
                tcp: None,
            },
        )
    } else {
        Some(
            Observation {
                at,
                source: Endpoint { addr: source, port: 0 },
                destination: Endpoint { addr: destination, port: 0 },
                transport: Transport::Other(protocol),
                ttl: Some(ttl),
                header: None,
                payload: bytes_of(segment),
                stage_hint: None,
                tcp: None,
            },
        )
    }
}

// ---------------------------------------------------------------------------
// IP

/// The Don't Fragment bit among the three flags of an IPv4 header.
pub open spec fn dont_fragment(flags: u8) -> bool {
    (flags / 2) % 2 == 1
}

/// An IPv4 packet: what follows its header, up to the length it claims or to the
/// end of what arrived. `None` where the header does not fit, and for any fragment
/// but the first.
pub open spec fn decoded_ipv4(packet: Seq<u8>, at: Timestamp) -> Option<ObservationView> {
    let fields = ipv4_fields(packet);
    let header_len = fields.header_length * 4;
    if packet.len() < IPV4_MIN_HEADER_LEN || header_len < IPV4_MIN_HEADER_LEN || header_len
        > packet.len() || fields.fragment_offset != 0 {
        None
    } else {
        let end = clamp(fields.total_length as int, header_len, packet.len() as int);
        decoded_transport(
            fields.protocol,
            IpAddr::V4(fields.source),
            IpAddr::V4(fields.destination),
            fields.ttl,
            dont_fragment(fields.flags),
            packet.subrange(header_len, end),
            at,
        )
    }
}

/// An IPv6 packet: what follows its fixed header, up to the length it claims or to
/// the end of what arrived.
pub open spec fn decoded_ipv6(packet: Seq<u8>, at: Timestamp) -> Option<ObservationView> {
    let fields = ipv6_fields(packet);
    if packet.len() < IPV6_HEADER_LEN {
        None
    } else {
        let end = clamp(
            IPV6_HEADER_LEN + fields.payload_length,
            IPV6_HEADER_LEN as int,
            packet.len() as int,
        );
        decoded_transport(
            fields.next_header,
            IpAddr::V6(fields.source),
            IpAddr::V6(fields.destination),
            fields.hop_limit,
            true,
            packet.subrange(IPV6_HEADER_LEN as int, end),
            at,
        )
    }
}

/// A packet of either version, which its first four bits give.
pub open spec fn decoded_ip(packet: Seq<u8>, at: Timestamp) -> Option<ObservationView> {
    if packet.len() == 0 {
        None
    } else if packet[0] / 16 == 4 {
        decoded_ipv4(packet, at)
    } else if packet[0] / 16 == 6 {
        decoded_ipv6(packet, at)
    } else {
        None
    }
}

fn ipv4(packet: &[u8], at: Timestamp) -> (r: Option<Observation>)
    ensures
        found(r) == decoded_ipv4(packet@, at),
{
    let fields = match wire::read_ipv4(packet) {
        Some(fields) => fields,
        None => {
            return None;
        },
    };
    let header_len: usize = fields.header_length as usize * 4;
    if header_len < IPV4_MIN_HEADER_LEN || header_len > packet.len() {
        return None;
    }
    let end = clamped(fields.total_length as usize, header_len, packet.len());
    if fields.fragment_offset != 0 {
        return None;
    }
    transport(
        fields.protocol,
        IpAddr::V4(fields.source),
        IpAddr::V4(fields.destination),
        fields.ttl,
        (fields.flags / 2) % 2 == 1,
        slice_subrange(packet, header_len, end),
        at,
    )
}

fn ipv6(packet: &[u8], at: Timestamp) -> (r: Option<Observation>)
    ensures
        found(r) == decoded_ipv6(packet@, at),
{
    let fields = match wire::read_ipv6(packet) {
        Some(fields) => fields,
        None => {
            return None;
        },
    };
    let end = clamped(
        IPV6_HEADER_LEN + fields.payload_length as usize,
        IPV6_HEADER_LEN,
        packet.len(),
    );
    transport(
        fields.next_header,
        IpAddr::V6(fields.source),
        IpAddr::V6(fields.destination),
        fields.hop_limit,
        true,
        slice_subrange(packet, IPV6_HEADER_LEN, end),
        at,
    )
}

/// Decodes a bare IP packet, with no link-layer header in front of it.
pub fn ip_packet(packet: &[u8], at: Timestamp) -> (r: Option<Observation>)
    ensures
        found(r) == decoded_ip(packet@, at),
{
    if packet.len() == 0 {
        return None;
    }
    let version: u8 = packet[0] / 16;
    if version == 4 {
        ipv4(packet, at)
    } else if version == 6 {
        ipv6(packet, at)
    } else {
        None
    }
}

// ---------------------------------------------------------------------------
// Ethernet

pub open spec fn is_vlan_type(ethertype: u16) -> bool {
    ethertype == 0x8100 || ethertype == 0x88a8 || ethertype == 0x9100
}

fn is_vlan(ethertype: u16) -> (r: bool)
    ensures
        r == is_vlan_type(ethertype),
{
    ethertype == 0x8100 || ethertype == 0x88a8 || ethertype == 0x9100
}

/// What a payload of that type carries once up to `tags` VLAN tags are taken off;
/// `None` where a tag is cut short.
pub open spec fn untagged(ethertype: u16, payload: Seq<u8>, tags: nat) -> Option<(u16, Seq<u8>)>
    decreases tags,
{
    if tags == 0 || !is_vlan_type(ethertype) {
        Some((ethertype, payload))
    } else if payload.len() < VLAN_TAG_LEN {
        None
    } else {
        untagged(u16_at(payload, 2), payload.skip(VLAN_TAG_LEN as int), (tags - 1) as nat)
    }
}

/// An Ethernet frame: the IP packet it carries, under at most two VLAN tags.
/// `None` for a frame cut short, and for one that carries anything else.
pub open spec fn decoded_frame(frame: Seq<u8>, at: Timestamp) -> Option<ObservationView> {
    if frame.len() < ETHERNET_HEADER_LEN {
        None
    } else {
        match untagged(
            ethernet_type(frame),
            frame.skip(ETHERNET_HEADER_LEN as int),
            MAX_VLAN_TAGS as nat,
        ) {
            Some((ethertype, payload)) => if ethertype == ETHERTYPE_IPV4 || ethertype
                == ETHERTYPE_IPV6 {
                decoded_ip(payload, at)
            } else {
                None
            },
            None => None,
        }
    }
}

/// Decodes an Ethernet frame that was captured at `at`. `None` for anything that
/// is not IP, and for headers that do not add up.
pub fn ethernet_frame(frame: &[u8], at: Timestamp) -> (r: Option<Observation>)
    ensures
        found(r) == decoded_frame(frame@, at),
{
    let mut ethertype: u16 = match wire::read_ethernet(frame) {
        Some(ethertype) => ethertype,
        None => {
            return None;
        },
    };
    let mut payload = slice_subrange(frame, ETHERNET_HEADER_LEN, frame.len());
    assert(payload@ =~= frame@.skip(ETHERNET_HEADER_LEN as int));
    let ghost whole = untagged(ethertype, payload@, MAX_VLAN_TAGS as nat);
    let mut tags: usize = MAX_VLAN_TAGS;
    while tags > 0 && is_vlan(ethertype)
        invariant
            whole == untagged(ethertype, payload@, tags as nat),
            frame@.len() >= ETHERNET_HEADER_LEN,
            whole == untagged(
                ethernet_type(frame@),
                frame@.skip(ETHERNET_HEADER_LEN as int),
                MAX_VLAN_TAGS as nat,
            ),
        decreases tags,
    {
        if payload.len() < VLAN_TAG_LEN {
            return None;
        }
        ethertype = payload[2] as u16 * 256 + payload[3] as u16;
        let rest = slice_subrange(payload, VLAN_TAG_LEN, payload.len());
        assert(rest@ =~= payload@.skip(VLAN_TAG_LEN as int));
        payload = rest;
        tags = tags - 1;
    }
    if ethertype == ETHERTYPE_IPV4 || ethertype == ETHERTYPE_IPV6 {
        ip_packet(payload, at)
    } else {
        None
    }
}

// ---------------------------------------------------------------------------
// Laws

/// Bytes behind the length that an IPv4 packet claims are not part of it: a padded
/// frame decodes as the frame without the padding.
pub proof fn padding_is_not_payload(packet: Seq<u8>, padding: Seq<u8>, at: Timestamp)
    requires
        packet.len() >= IPV4_MIN_HEADER_LEN,
        ipv4_fields(packet).header_length * 4 <= packet.len(),
        ipv4_fields(packet).total_length <= packet.len(),
    ensures
        decoded_ipv4(packet + padding, at) == decoded_ipv4(packet, at),
{
    let padded = packet + padding;
    assert(padded.subrange(12, 16) =~= packet.subrange(12, 16));
    assert(padded.subrange(16, 20) =~= packet.subrange(16, 20));
    assert(ipv4_fields(padded) == ipv4_fields(packet));
    let fields = ipv4_fields(packet);
    let header_len = fields.header_length * 4;
    let end = clamp(fields.total_length as int, header_len, packet.len() as int);
    assert(end == clamp(fields.total_length as int, header_len, padded.len() as int));
    assert(padded.subrange(header_len, end) =~= packet.subrange(header_len, end));
}

/// The same of IPv6.
pub proof fn ipv6_padding_is_not_payload(packet: Seq<u8>, padding: Seq<u8>, at: Timestamp)
    requires
        packet.len() >= IPV6_HEADER_LEN,
        IPV6_HEADER_LEN + ipv6_fields(packet).payload_length <= packet.len(),
    ensures
        decoded_ipv6(packet + padding, at) == decoded_ipv6(packet, at),
{
    let padded = packet + padding;
    assert(padded.subrange(8, 24) =~= packet.subrange(8, 24));
    assert(padded.subrange(24, 40) =~= packet.subrange(24, 40));
    assert(ipv6_fields(padded) == ipv6_fields(packet));
    let end = IPV6_HEADER_LEN + ipv6_fields(packet).payload_length;
    assert(padded.subrange(IPV6_HEADER_LEN as int, end) =~= packet.subrange(
        IPV6_HEADER_LEN as int,
        end,
    ));
}

/// What is decoded of a packet is what arrived: its payload is a run of the packet's own
/// bytes, whatever lengths its headers claim.
pub proof fn payloads_are_what_arrived(packet: Seq<u8>, at: Timestamp) -> (r: (int, int))
    requires
        decoded_ip(packet, at) is Some,
    ensures
        0 <= r.0 <= r.1 <= packet.len(),
        decoded_ip(packet, at)->0.payload == packet.subrange(r.0, r.1),
        decoded_ip(packet, at)->0.at == at,
{
    let (start, end) = if packet[0] / 16 == 4 {
        let fields = ipv4_fields(packet);
        let header_len = fields.header_length * 4;
        (header_len, clamp(fields.total_length as int, header_len, packet.len() as int))
    } else {
        let claimed = IPV6_HEADER_LEN + ipv6_fields(packet).payload_length;
        (
            IPV6_HEADER_LEN as int,
            clamp(claimed, IPV6_HEADER_LEN as int, packet.len() as int),
        )
    };
    let protocol = if packet[0] / 16 == 4 {
        ipv4_fields(packet).protocol
    } else {
        ipv6_fields(packet).next_header
    };
    let segment = packet.subrange(start, end);
    if protocol == PROTOCOL_TCP {
        let header_len = tcp_fields(segment).data_offset * 4;
        assert(segment.skip(header_len) =~= packet.subrange(start + header_len, end));
        (start + header_len, end)
    } else if protocol == PROTOCOL_UDP {
        let stop = clamp(
            udp_fields(segment).length as int,
            UDP_HEADER_LEN as int,
            segment.len() as int,
        );
        assert(segment.subrange(UDP_HEADER_LEN as int, stop) =~= packet.subrange(
            start + UDP_HEADER_LEN,
            start + stop,
        ));
        (start + UDP_HEADER_LEN, start + stop)
    } else {
        (start, end)
    }
}

/// A VLAN tag carries nothing that decoding uses: a tagged frame decodes as the
/// frame without the tag, as long as no more than one other tag is inside.
pub proof fn vlan_tags_are_transparent(
    addresses: Seq<u8>,
    tag: Seq<u8>,
    rest: Seq<u8>,
    at: Timestamp,
)
    requires
        addresses.len() == 12,
        tag.len() == 4,
        is_vlan_type(u16_at(tag, 0)),
        rest.len() >= 2,
        untagged(u16_at(rest, 0), rest.skip(2), 1) == untagged(u16_at(rest, 0), rest.skip(2), 2),
    ensures
        decoded_frame(addresses + tag + rest, at) == decoded_frame(addresses + rest, at),
{
    let plain = addresses + rest;
    let tagged = addresses + tag + rest;
    assert(plain.skip(14) =~= rest.skip(2));
    assert(tagged.skip(14).skip(4) =~= rest.skip(2));
    assert(ethernet_type(plain) == u16_at(rest, 0));
    assert(ethernet_type(tagged) == u16_at(tag, 0));
    assert(u16_at(tagged.skip(14), 2) == u16_at(rest, 0));
    reveal_with_fuel(untagged, 2);
}

// ---------------------------------------------------------------------------
// What lies where

proof fn lemma_four_bytes(b: Seq<u8>)
    requires
        b.len() == 4,
    ensures
        big_endian(b) == b[0] * 0x100_0000 + b[1] * 0x1_0000 + b[2] * 0x100 + b[3],
{
    reveal_with_fuel(big_endian, 5);
    let three = b.drop_last();
    let two = three.drop_last();
    let one = two.drop_last();
    assert(one.drop_last().len() == 0);
    assert(three.last() == b[2] && two.last() == b[1] && one.last() == b[0]);
}

/// Numbers on the wire have their most significant byte first.
pub proof fn the_first_byte_weighs_most(bytes: Seq<u8>, b: u8)
    ensures
        big_endian(Seq::empty()) == 0,
        big_endian(bytes.push(b)) == 256 * big_endian(bytes) + b,
        bytes.len() >= 2 ==> u16_at(bytes, 0) == 256 * bytes[0] + bytes[1],
{
    assert(bytes.push(b).drop_last() =~= bytes);
}

/// An IPv4 packet is read where its header has it: the header length in the low half of
/// the first byte, the length of the whole at 2, Don't Fragment as the bit 0x40 of the
/// byte at 6, the TTL at 8, the protocol at 9 and the addresses at 12 and 16. A header
/// that does not fit, and a fragment with an offset, is not read. What is carried ends at
/// the length that is claimed, or where the packet does.
pub proof fn ipv4_packets_by_their_bytes(packet: Seq<u8>, at: Timestamp)
    ensures
        packet.len() < 20 ==> decoded_ipv4(packet, at) is None,
        packet.len() >= 20 ==> ({
            let h = (packet[0] as int % 16) * 4;
            let claimed = 256 * packet[2] + packet[3];
            let end = if claimed < h {
                h
            } else if claimed > packet.len() {
                packet.len() as int
            } else {
                claimed
            };
            let source = packet[12] * 0x100_0000 + packet[13] * 0x1_0000 + packet[14] * 0x100
                + packet[15];
            let destination = packet[16] * 0x100_0000 + packet[17] * 0x1_0000 + packet[18] * 0x100
                + packet[19];
            if h < 20 || h > packet.len() || packet[6] as int % 32 != 0 || packet[7] != 0 {
                decoded_ipv4(packet, at) is None
            } else {
                decoded_ipv4(packet, at) == decoded_transport(
                    packet[9],
                    IpAddr::V4(source as u32),
                    IpAddr::V4(destination as u32),
                    packet[8],
                    packet[6] & 0x40 != 0,
                    packet.subrange(h, end),
                    at,
                )
            }
        }),
{
    if packet.len() >= 20 {
        lemma_four_bytes(packet.subrange(12, 16));
        lemma_four_bytes(packet.subrange(16, 20));
        let b = packet[6];
        assert(((b / 32) / 2) % 2 == 1 <==> b & 0x40 != 0) by (bit_vector);
        assert(dont_fragment(ipv4_fields(packet).flags) == (packet[6] & 0x40 != 0));
    }
}

/// Of an IPv4 packet the Don't Fragment bit is what was sent.
pub proof fn df_is_the_bit_that_was_sent(packet: Seq<u8>, at: Timestamp)
    requires
        decoded_ipv4(packet, at) is Some,
    ensures
        decoded_ipv4(packet, at)->0.tcp matches Some(features) ==> features.df == (packet[6] & 0x40
            != 0) && features.ttl == packet[8],
        decoded_ipv4(packet, at)->0.ttl == Some(packet[8]),
{
    ipv4_packets_by_their_bytes(packet, at);
}

/// An IPv6 packet is read where its header has it: the length of what it carries at 4,
/// the protocol at 6, the hop limit at 7 and the addresses at 8 and 24. It counts as not
/// to be fragmented.
pub proof fn ipv6_packets_by_their_bytes(packet: Seq<u8>, at: Timestamp)
    ensures
        packet.len() < 40 ==> decoded_ipv6(packet, at) is None,
        packet.len() >= 40 ==> ({
            let claimed = 40 + 256 * packet[4] + packet[5];
            let end = if claimed > packet.len() {
                packet.len() as int
            } else {
                claimed
            };
            decoded_ipv6(packet, at) == decoded_transport(
                packet[6],
                IpAddr::V6(big_endian(packet.subrange(8, 24)) as u128),
                IpAddr::V6(big_endian(packet.subrange(24, 40)) as u128),
                packet[7],
                true,
                packet.subrange(40, end),
                at,
            )
        }),
{
}

/// A packet is of the version that its first four bits say, and of neither where they
/// say anything but four or six.
pub proof fn the_first_bits_say_the_version(packet: Seq<u8>, at: Timestamp)
    ensures
        packet.len() == 0 ==> decoded_ip(packet, at) is None,
        packet.len() > 0 && 0x40 <= packet[0] <= 0x4f ==> decoded_ip(packet, at) == decoded_ipv4(
            packet,
            at,
        ),
        packet.len() > 0 && 0x60 <= packet[0] <= 0x6f ==> decoded_ip(packet, at) == decoded_ipv6(
            packet,
            at,
        ),
        packet.len() > 0 && !(0x40 <= packet[0] <= 0x4f) && !(0x60 <= packet[0] <= 0x6f)
            ==> decoded_ip(packet, at) is None,
{
}

/// A TCP segment is read where its header has it: the ports at 0 and 2, the header length
/// in the high half of the byte at 12, the flags at 13 and the window at 14, then the
/// options up to that length and the payload behind it. One whose length does not fit is
/// not read.
pub proof fn tcp_segments_by_their_bytes(
    source: IpAddr,
    destination: IpAddr,
    ttl: u8,
    df: bool,
    segment: Seq<u8>,
    at: Timestamp,
)
    ensures
        ({
            let decoded = decoded_transport(6, source, destination, ttl, df, segment, at);
            let h = (segment[12] as int / 16) * 4;
            if segment.len() < 20 || h < 20 || h > segment.len() {
                decoded is None
            } else {
                let options = segment.subrange(20, h);
                let window = 256 * segment[14] + segment[15];
                &&& decoded matches Some(o)
                &&& o.at == at
                &&& o.transport == Transport::Tcp
                &&& o.source.addr == source && o.source.port == 256 * segment[0] + segment[1]
                &&& o.destination.addr == destination && o.destination.port == 256 * segment[2]
                    + segment[3]
                &&& o.ttl == Some(ttl)
                &&& o.header matches Some(header)
                &&& header.flags == segment[13]
                &&& header.window == window
                &&& header.options == options
                &&& o.payload == segment.subrange(h, segment.len() as int)
                &&& o.stage_hint is None
                &&& o.tcp == features_of(ttl, df, window as u16, options)
            }
        }),
{
    let h = (segment[12] as int / 16) * 4;
    if segment.len() >= 20 && 20 <= h <= segment.len() {
        assert(segment.skip(h) =~= segment.subrange(h, segment.len() as int));
    }
}

/// A UDP datagram is read where its header has it: the ports at 0 and 2, and the payload
/// from 8 up to the length at 4, or to where the datagram ends.
pub proof fn udp_datagrams_by_their_bytes(
    source: IpAddr,
    destination: IpAddr,
    ttl: u8,
    df: bool,
    segment: Seq<u8>,
    at: Timestamp,
)
    ensures
        ({
            let decoded = decoded_transport(17, source, destination, ttl, df, segment, at);
            if segment.len() < 8 {
                decoded is None
            } else {
                let claimed = 256 * segment[4] + segment[5];
                let end = if claimed < 8 {
                    8
                } else if claimed > segment.len() {
                    segment.len() as int
                } else {
                    claimed
                };
                &&& decoded matches Some(o)
                &&& o.at == at
                &&& o.transport == Transport::Udp
                &&& o.source.addr == source && o.source.port == 256 * segment[0] + segment[1]
                &&& o.destination.addr == destination && o.destination.port == 256 * segment[2]
                    + segment[3]
                &&& o.ttl == Some(ttl)
                &&& o.payload == segment.subrange(8, end)
                &&& o.header is None && o.tcp is None && o.stage_hint is None
            }
        }),
{
}

/// What is neither TCP nor UDP is kept whole, under its protocol and without ports.
pub proof fn other_protocols_are_kept_whole(
    protocol: u8,
    source: IpAddr,
    destination: IpAddr,
    ttl: u8,
    df: bool,
    segment: Seq<u8>,
    at: Timestamp,
)
    requires
        protocol != 6,
        protocol != 17,
    ensures
        decoded_transport(protocol, source, destination, ttl, df, segment, at) matches Some(o) && {
            &&& o.at == at
            &&& o.transport == Transport::Other(protocol)
            &&& o.source.addr == source && o.source.port == 0
            &&& o.destination.addr == destination && o.destination.port == 0
            &&& o.ttl == Some(ttl)
            &&& o.payload == segment
            &&& o.header is None && o.tcp is None && o.stage_hint is None
        },
{
}

/// A frame carries IP where the two bytes behind its addresses are 08 00 or 86 dd, and
/// what carries anything else is not read. A tag of type 81 00, 88 a8 or 91 00 is passed
/// over with its four bytes, and a second one too, but no third.
pub proof fn frames_by_their_types(frame: Seq<u8>, at: Timestamp)
    ensures
        frame.len() < 14 ==> decoded_frame(frame, at) is None,
        frame.len() >= 14 && carries_ip(frame, 12) ==> decoded_frame(frame, at) == decoded_ip(
            frame.subrange(14, frame.len() as int),
            at,
        ),
        frame.len() >= 14 && !carries_ip(frame, 12) && !is_tagged(frame, 12) ==> decoded_frame(
            frame,
            at,
        ) is None,
        14 <= frame.len() < 18 && is_tagged(frame, 12) ==> decoded_frame(frame, at) is None,
        frame.len() >= 18 && is_tagged(frame, 12) && carries_ip(frame, 16) ==> decoded_frame(
            frame,
            at,
        ) == decoded_ip(frame.subrange(18, frame.len() as int), at),
        frame.len() >= 18 && is_tagged(frame, 12) && !carries_ip(frame, 16) && !is_tagged(
            frame,
            16,
        ) ==> decoded_frame(frame, at) is None,
        18 <= frame.len() < 22 && is_tagged(frame, 12) && is_tagged(frame, 16) ==> decoded_frame(
            frame,
            at,
        ) is None,
        frame.len() >= 22 && is_tagged(frame, 12) && is_tagged(frame, 16) && carries_ip(frame, 20)
            ==> decoded_frame(frame, at) == decoded_ip(
            frame.subrange(22, frame.len() as int),
            at,
        ),
        frame.len() >= 22 && is_tagged(frame, 12) && is_tagged(frame, 16) && !carries_ip(frame, 20)
            ==> decoded_frame(frame, at) is None,
{
    reveal_with_fuel(untagged, 4);
    if frame.len() >= 14 {
        let plain = frame.skip(14);
        assert(plain =~= frame.subrange(14, frame.len() as int));
        if frame.len() >= 18 {
            assert(u16_at(plain, 2) == u16_at(frame, 16));
            assert(plain.skip(4) =~= frame.subrange(18, frame.len() as int));
            if frame.len() >= 22 {
                assert(u16_at(plain.skip(4), 2) == u16_at(frame, 20));
                assert(plain.skip(4).skip(4) =~= frame.subrange(22, frame.len() as int));
            }
        }
    }
}

/// Whether the type at `i` is one of IP.
pub open spec fn carries_ip(frame: Seq<u8>, i: int) -> bool {
    (frame[i] == 0x08 && frame[i + 1] == 0x00) || (frame[i] == 0x86 && frame[i + 1] == 0xdd)
}

/// Whether the type at `i` is one of a VLAN tag.
pub open spec fn is_tagged(frame: Seq<u8>, i: int) -> bool {
    (frame[i] == 0x81 && frame[i + 1] == 0x00) || (frame[i] == 0x88 && frame[i + 1] == 0xa8) || (
    frame[i] == 0x91 && frame[i + 1] == 0x00)
}

// ---------------------------------------------------------------------------
// What options say

/// What was seen first, with what was seen later added to it.
spec fn merged(first: OptionsView, later: OptionsView) -> OptionsView {
    OptionsView {
        mss: if later.mss is Some {
            later.mss
        } else {
            first.mss
        },
        window_scale: if later.window_scale is Some {
            later.window_scale
        } else {
            first.window_scale
        },
        sack_permitted: first.sack_permitted || later.sack_permitted,
        timestamp: first.timestamp || later.timestamp,
        order: first.order + later.order,
        eol_padding: if later.eol_padding is Some {
            later.eol_padding
        } else {
            first.eol_padding
        },
    }
}

proof fn lemma_merged_twice(a: OptionsView, b: OptionsView, c: OptionsView)
    ensures
        merged(merged(a, b), c) == merged(a, merged(b, c)),
        merged(no_options(), c) == c,
        merged(a, no_options()) == a,
{
    assert(a.order + b.order + c.order =~= a.order + (b.order + c.order));
    assert(Seq::<TcpOptionKind>::empty() + c.order =~= c.order);
    assert(a.order + Seq::<TcpOptionKind>::empty() =~= a.order);
}

proof fn lemma_options_add_up(area: Seq<u8>, seen: OptionsView)
    ensures
        read_options(area, seen) == (match read_options(area, no_options()) {
            Some(later) => Some(merged(seen, later)),
            None => None,
        }),
    decreases area.len(),
{
    let none = no_options();
    lemma_merged_twice(seen, none, none);
    if area.len() == 0 {
    } else if area[0] == 0 {
        let end = read_options(area, none)->0;
        assert(none.order.push(TcpOptionKind::Eol) =~= seq![TcpOptionKind::Eol]);
        assert(seen.order + end.order =~= seen.order.push(TcpOptionKind::Eol));
    } else if area[0] == 1 {
        let one = OptionsView { order: none.order.push(TcpOptionKind::Nop), ..none };
        let more = OptionsView { order: seen.order.push(TcpOptionKind::Nop), ..seen };
        assert(merged(seen, one).order =~= more.order);
        assert(merged(seen, one) == more);
        lemma_options_add_up(area.skip(1), more);
        lemma_options_add_up(area.skip(1), one);
        if let Some(later) = read_options(area.skip(1), none) {
            lemma_merged_twice(seen, one, later);
        }
    } else if area.len() < 2 || area[1] < 2 || area[1] > area.len() {
    } else if fixed_length(area[0]) is Some && fixed_length(area[0]) != Some(area[1]) {
    } else {
        let option = area.take(area[1] as int);
        let one = with_option(none, option);
        let more = with_option(seen, option);
        assert(merged(seen, one).order =~= more.order);
        assert(merged(seen, one) == more);
        lemma_options_add_up(area.skip(area[1] as int), more);
        lemma_options_add_up(area.skip(area[1] as int), one);
        if let Some(later) = read_options(area.skip(area[1] as int), none) {
            lemma_merged_twice(seen, one, later);
        }
    }
}

/// Options are read from the front, one by one. Without any there is nothing to say; a
/// one is padding; a zero ends them, with what follows as its padding.
pub proof fn options_without_a_length(ttl: u8, df: bool, window: u16, rest: Seq<u8>)
    requires
        rest.len() < 256,
    ensures
        features_of(ttl, df, window, Seq::empty()) matches Some(f) && {
            &&& f.ttl == ttl && f.df == df && f.window == window
            &&& f.mss is None && f.window_scale is None && f.eol_padding is None
            &&& !f.sack_permitted && !f.timestamp
            &&& f.option_order.len() == 0
        },
        features_of(ttl, df, window, seq![0u8] + rest) matches Some(f) && {
            &&& f.ttl == ttl && f.df == df && f.window == window
            &&& f.mss is None && f.window_scale is None
            &&& !f.sack_permitted && !f.timestamp
            &&& f.option_order == seq![TcpOptionKind::Eol]
            &&& f.eol_padding matches Some(padding) && padding == rest.len()
        },
        match (
            features_of(ttl, df, window, seq![1u8] + rest),
            features_of(ttl, df, window, rest),
        ) {
            (Some(more), Some(f)) => more == (TcpFeaturesView {
                option_order: seq![TcpOptionKind::Nop] + f.option_order,
                ..f
            }),
            (None, None) => true,
            _ => false,
        },
{
    assert(no_options().order.push(TcpOptionKind::Eol) =~= seq![TcpOptionKind::Eol]);
    assert(no_options().order.push(TcpOptionKind::Nop) =~= seq![TcpOptionKind::Nop]);
    assert((seq![1u8] + rest).skip(1) =~= rest);
    lemma_options_add_up(
        rest,
        OptionsView { order: no_options().order.push(TcpOptionKind::Nop), ..no_options() },
    );
}

/// Any other option has its length in its second byte. It adds its kind in front of what
/// follows: 2 the MSS in the two bytes behind the length, 3 the window scale in the one,
/// 4 that selective acknowledgements are permitted, 5 such an acknowledgement, 8 a
/// timestamp. A value that comes again is the later one.
pub proof fn options_with_a_length(
    ttl: u8,
    df: bool,
    window: u16,
    option: Seq<u8>,
    rest: Seq<u8>,
)
    requires
        2 <= option.len() < 256,
        option[0] > 1,
        option[1] == option.len(),
        option[0] == 2 ==> option.len() == 4,
        option[0] == 3 ==> option.len() == 3,
        option[0] == 4 ==> option.len() == 2,
        option[0] == 8 ==> option.len() == 10,
    ensures
        match (
            features_of(ttl, df, window, option + rest),
            features_of(ttl, df, window, rest),
        ) {
            (Some(more), Some(f)) => {
                let kind = option[0];
                &&& more.ttl == ttl && more.df == df && more.window == window
                &&& f.ttl == ttl && f.df == df && f.window == window
                &&& more.option_order.len() == f.option_order.len() + 1
                &&& more.option_order.skip(1) == f.option_order
                &&& kind == 2 ==> more.option_order[0] == TcpOptionKind::Mss
                &&& kind == 3 ==> more.option_order[0] == TcpOptionKind::WindowScale
                &&& kind == 4 ==> more.option_order[0] == TcpOptionKind::SackPermitted
                &&& kind == 5 ==> more.option_order[0] == TcpOptionKind::Sack
                &&& kind == 8 ==> more.option_order[0] == TcpOptionKind::Timestamp
                &&& kind == 6 || kind == 7 || kind > 8 ==> more.option_order[0]
                    == TcpOptionKind::Other(kind)
                &&& kind == 2 && f.mss is None ==> (more.mss matches Some(mss) && mss == 256
                    * option[2] + option[3])
                &&& kind != 2 || f.mss is Some ==> more.mss == f.mss
                &&& kind == 3 && f.window_scale is None ==> more.window_scale == Some(option[2])
                &&& kind != 3 || f.window_scale is Some ==> more.window_scale == f.window_scale
                &&& more.sack_permitted == (kind == 4 || f.sack_permitted)
                &&& more.timestamp == (kind == 8 || f.timestamp)
                &&& more.eol_padding == f.eol_padding
            },
            (None, None) => true,
            _ => false,
        },
{
    let area = option + rest;
    assert(area.take(area[1] as int) =~= option);
    assert(area.skip(area[1] as int) =~= rest);
    let one = with_option(no_options(), option);
    lemma_options_add_up(rest, one);
    assert(one.order =~= seq![option_kind(option[0])]);
    if let Some(later) = read_options(rest, no_options()) {
        assert((one.order + later.order).skip(1) =~= later.order);
    }
}

/// Options that do not add up say nothing at all: one whose length is cut off, less than
/// two, more than there is, or not the one that its kind has.
pub proof fn options_that_do_not_add_up(ttl: u8, df: bool, window: u16, area: Seq<u8>)
    requires
        area.len() > 0,
        area[0] > 1,
        area.len() == 1 || area[1] < 2 || area[1] > area.len() || (area[0] == 2 && area[1] != 4)
            || (area[0] == 3 && area[1] != 3) || (area[0] == 4 && area[1] != 2) || (area[0] == 8
            && area[1] != 10),
    ensures
        features_of(ttl, df, window, area) is None,
{
}

} // verus!
