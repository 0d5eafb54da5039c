//! What a capture source hands over: one record per packet.

use vstd::prelude::*;

use crate::session::Stage;
use crate::table::Key;
use crate::time::Timestamp;

verus! {

/// An IP address, as the number its octets write in network order.
#[derive(Debug, Clone, Copy, PartialEq, Eq, Structural, PartialOrd, Ord, Hash)]
pub enum IpAddr {
    V4(u32),
    V6(u128),
}

impl IpAddr {
    /// The address `a.b.c.d`.
    pub fn v4(a: u8, b: u8, c: u8, d: u8) -> (r: Self)
        ensures
            r == IpAddr::V4((((a * 256 + b) * 256 + c) * 256 + d) as u32),
    {
        IpAddr::V4(((a as u32 * 256 + b as u32) * 256 + c as u32) * 256 + d as u32)
    }

    /// Addresses of version 4 come before those of version 6; within a version
    /// they are ordered by their octets.
    pub open spec fn before(self, other: IpAddr) -> bool {
        match (self, other) {
            (IpAddr::V4(a), IpAddr::V4(b)) => a < b,
            (IpAddr::V4(_), IpAddr::V6(_)) => true,
            (IpAddr::V6(_), IpAddr::V4(_)) => false,
            (IpAddr::V6(a), IpAddr::V6(b)) => a < b,
        }
    }

    pub fn is_before(&self, other: &IpAddr) -> (r: bool)
        ensures
            r == self.before(*other),
    {
        match (*self, *other) {
            (IpAddr::V4(a), IpAddr::V4(b)) => a < b,
            (IpAddr::V4(_), IpAddr::V6(_)) => true,
            (IpAddr::V6(_), IpAddr::V4(_)) => false,
            (IpAddr::V6(a), IpAddr::V6(b)) => a < b,
        }
    }
}

/// One end of a conversation.
#[derive(Debug, Clone, Copy, PartialEq, Eq, Structural, PartialOrd, Ord, Hash)]
pub struct Endpoint {
    pub addr: IpAddr,
    pub port: u16,
}

impl Endpoint {
    /// Ordered by address, then by port.
    pub open spec fn before(self, other: Endpoint) -> bool {
        self.addr.before(other.addr) || (self.addr == other.addr && self.port < other.port)
    }

    pub fn is_before(&self, other: &Endpoint) -> (r: bool)
        ensures
            r == self.before(*other),
    {
        self.addr.is_before(&other.addr) || (self.addr == other.addr && self.port < other.port)
    }
}

impl View for Endpoint {
    type V = Endpoint;

    open spec fn view(&self) -> Endpoint {
        *self
    }
}

impl Key for Endpoint {
    fn same(&self, other: &Self) -> (r: bool) {
        self.addr == other.addr && self.port == other.port
    }
}

/// Endpoints are totally ordered.
pub proof fn endpoints_are_ordered(a: Endpoint, b: Endpoint, c: Endpoint)
    ensures
        !a.before(a),
        a.before(b) || a == b || b.before(a),
        a.before(b) ==> !b.before(a),
        a.before(b) && b.before(c) ==> a.before(c),
{
}

#[derive(Debug, Clone, Copy, PartialEq, Eq, Structural, PartialOrd, Ord, Hash)]
pub enum Transport {
    Tcp,
    Udp,
    Quic,
    /// Anything else, by its IP protocol number.
    Other(u8),
}

/// Which way an observation travelled relative to the session initiator.
#[derive(Debug, Clone, Copy, PartialEq, Eq, Structural)]
pub enum Direction {
    /// Initiator to responder.
    ToResponder,
    ToInitiator,
}

#[derive(Debug, Clone, Copy, PartialEq, Eq, Structural)]
pub enum TcpOptionKind {
    Eol,
    Nop,
    Mss,
    WindowScale,
    SackPermitted,
    Sack,
    Timestamp,
    Other(u8),
}

/// The header-level detail one TCP segment carries, in the order and shape that
/// passive stack fingerprinting keys on.
#[derive(Debug, PartialEq, Eq)]
pub struct TcpFeatures {
    /// IP TTL or hop limit as received: already less one for each hop crossed.
    pub ttl: u8,
    /// IPv4 Don't Fragment bit. Always true for IPv6, which has no such flag.
    pub df: bool,
    pub window: u16,
    pub mss: Option<u16>,
    pub window_scale: Option<u8>,
    pub sack_permitted: bool,
    pub timestamp: bool,
    /// Option kinds in wire order, with repeats and padding NOPs. Ends at the
    /// EOL option, if there is one.
    pub option_order: Vec<TcpOptionKind>,
    /// Bytes after the EOL option that fill the options area. `None` when no
    /// EOL was sent.
    pub eol_padding: Option<u8>,
}

/// What [`TcpFeatures`] holds.
pub ghost struct TcpFeaturesView {
    pub ttl: u8,
    pub df: bool,
    pub window: u16,
    pub mss: Option<u16>,
    pub window_scale: Option<u8>,
    pub sack_permitted: bool,
    pub timestamp: bool,
    pub option_order: Seq<TcpOptionKind>,
    pub eol_padding: Option<u8>,
}

impl View for TcpFeatures {
    type V = TcpFeaturesView;

    open spec fn view(&self) -> TcpFeaturesView {
        TcpFeaturesView {
            ttl: self.ttl,
            df: self.df,
            window: self.window,
            mss: self.mss,
            window_scale: self.window_scale,
            sack_permitted: self.sack_permitted,
            timestamp: self.timestamp,
            option_order: self.option_order@,
            eol_padding: self.eol_padding,
        }
    }
}

impl Clone for TcpFeatures {
    fn clone(&self) -> (r: Self)
        ensures
            r@ == self@,
    {
        let option_order = self.option_order.clone();
        assert(option_order@ =~= self.option_order@);
        TcpFeatures {
            ttl: self.ttl,
            df: self.df,
            window: self.window,
            mss: self.mss,
            window_scale: self.window_scale,
            sack_permitted: self.sack_permitted,
            timestamp: self.timestamp,
            option_order,
            eol_padding: self.eol_padding,
        }
    }
}

/// The parts of a TCP header that are kept as they came off the wire.
#[derive(Debug, PartialEq, Eq)]
pub struct TcpHeader {
    pub flags: u8,
    pub window: u16,
    /// The options area, byte for byte.
    pub options: Vec<u8>,
}

impl TcpHeader {
    pub const FIN: u8 = 0x01;

    pub const SYN: u8 = 0x02;

    pub const RST: u8 = 0x04;

    pub const PSH: u8 = 0x08;

    pub const ACK: u8 = 0x10;

    /// Whether every bit of `flag` is set.
    pub fn has(&self, flag: u8) -> (r: bool)
        ensures
            r == self@.carries(flag),
    {
        self.flags & flag == flag
    }
}

/// What a [`TcpHeader`] holds.
pub ghost struct TcpHeaderView {
    pub flags: u8,
    pub window: u16,
    pub options: Seq<u8>,
}

impl View for TcpHeader {
    type V = TcpHeaderView;

    open spec fn view(&self) -> TcpHeaderView {
        TcpHeaderView { flags: self.flags, window: self.window, options: self.options@ }
    }
}

impl TcpHeaderView {
    /// Whether every bit of `flag` is set.
    pub open spec fn carries(self, flag: u8) -> bool {
        self.flags & flag == flag
    }
}

impl Clone for TcpHeader {
    fn clone(&self) -> (r: Self)
        ensures
            r@ == self@,
    {
        let options = self.options.clone();
        assert(options@ =~= self.options@);
        TcpHeader { flags: self.flags, window: self.window, options }
    }
}

/// One normalized record out of a capture source.
///
/// A source that cannot fill a field leaves it empty rather than inventing one.
#[derive(Debug)]
pub struct Observation {
    pub at: Timestamp,
    pub source: Endpoint,
    pub destination: Endpoint,
    pub transport: Transport,
    /// IP TTL or hop limit, if the source sees it.
    pub ttl: Option<u8>,
    /// The TCP header, if there is one and the source sees it.
    pub header: Option<TcpHeader>,
    /// Bytes above the transport header, if the source has them.
    pub payload: Vec<u8>,
    /// A source that already knows what it is looking at can say so.
    pub stage_hint: Option<Stage>,
    /// Stack characteristics for methods that fingerprint from them.
    pub tcp: Option<TcpFeatures>,
}

/// What an [`Observation`] holds.
pub ghost struct ObservationView {
    pub at: Timestamp,
    pub source: Endpoint,
    pub destination: Endpoint,
    pub transport: Transport,
    pub ttl: Option<u8>,
    pub header: Option<TcpHeaderView>,
    pub payload: Seq<u8>,
    pub stage_hint: Option<Stage>,
    pub tcp: Option<TcpFeaturesView>,
}

impl View for Observation {
    type V = ObservationView;

    open spec fn view(&self) -> ObservationView {
        ObservationView {
            at: self.at,
            source: self.source,
            destination: self.destination,
            transport: self.transport,
            ttl: self.ttl,
            header: match self.header {
                Some(header) => Some(header@),
                None => None,
            },
            payload: self.payload@,
            stage_hint: self.stage_hint,
            tcp: match self.tcp {
                Some(tcp) => Some(tcp@),
                None => None,
            },
        }
    }
}

impl Clone for Observation {
    fn clone(&self) -> (r: Self)
        ensures
            r@ == self@,
    {
        let payload = self.payload.clone();
        assert(payload@ =~= self.payload@);
        Observation {
            at: self.at,
            source: self.source,
            destination: self.destination,
            transport: self.transport,
            ttl: self.ttl,
            header: match &self.header {
                Some(header) => Some(header.clone()),
                None => None,
            },
            payload,
            stage_hint: self.stage_hint,
            tcp: match &self.tcp {
                Some(tcp) => Some(tcp.clone()),
                None => None,
            },
        }
    }
}

/// Addresses of version 4 come before those of version 6, and smaller ones before larger
/// ones; endpoints go by their address first, and by their port where that is the same.
pub proof fn endpoints_go_by_address_and_port(a: u32, b: u32, c: u128, d: u128, p: u16, q: u16)
    ensures
        IpAddr::V4(a).before(IpAddr::V6(c)),
        !IpAddr::V6(c).before(IpAddr::V4(a)),
        IpAddr::V4(a).before(IpAddr::V4(b)) <==> a < b,
        IpAddr::V6(c).before(IpAddr::V6(d)) <==> c < d,
        (Endpoint { addr: IpAddr::V4(a), port: p }).before(
            Endpoint { addr: IpAddr::V6(c), port: q },
        ),
        a < b ==> (Endpoint { addr: IpAddr::V4(a), port: p }).before(
            Endpoint { addr: IpAddr::V4(b), port: q },
        ),
        (Endpoint { addr: IpAddr::V4(a), port: p }).before(
            Endpoint { addr: IpAddr::V4(a), port: q },
        ) <==> p < q,
{
}

/// A header carries a flag where that bit is set, whatever the others are.
pub proof fn flags_are_bits(header: TcpHeaderView, flag: u8)
    requires
        flag == 0x01 || flag == 0x02 || flag == 0x04 || flag == 0x08 || flag == 0x10 || flag
            == 0x20 || flag == 0x40 || flag == 0x80,
    ensures
        header.carries(flag) <==> header.flags & flag != 0,
{
    let flags = header.flags;
    assert(flags & flag == flag <==> flags & flag != 0) by (bit_vector)
        requires
            flag == 0x01 || flag == 0x02 || flag == 0x04 || flag == 0x08 || flag == 0x10 || flag
                == 0x20 || flag == 0x40 || flag == 0x80,
    ;
}

} // verus!
