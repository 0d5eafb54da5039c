//! Where observations come from: what a capture source decides about what it opens
//! and what it reads.
//!
//! The sources here hold no handles. Whoever reads a device or a file tells them
//! what came of it, and hands them the bytes.

use vstd::prelude::*;
use vstd::slice::slice_subrange;

use crate::decode::{decoded_frame, decoded_ip, ethernet_frame, found, ip_packet};
use crate::error::Error;
use crate::observation::{IpAddr, Observation, ObservationView};
use crate::text;
use crate::text::{begins, join, strings};
use crate::time::Timestamp;

verus! {

/// Whether an error is one of capturing, for that reason.
pub open spec fn capture_error(error: Error, reason: Seq<char>) -> bool {
    error matches Error::Capture(r) && r@ == reason
}

// ---------------------------------------------------------------------------
// Links

/// How packets are framed.
#[derive(Debug, Clone, Copy, PartialEq, Eq, Structural)]
pub enum Link {
    Ethernet,
    /// Bare IP packets.
    RawIp,
    /// Linux cooked capture, version 1: sixteen bytes before the IP packet.
    LinuxSll,
    /// Linux cooked capture, version 2: twenty bytes before the IP packet.
    LinuxSll2,
    /// Anything else: tried as Ethernet, then as bare IP.
    Other,
}

impl Link {
    /// The link that goes by a number in the header of a capture file: Ethernet, raw IP
    /// of either version or of both, and the two cooked captures have one each.
    pub open spec fn with_number(number: u32) -> Link {
        if number == 1 {
            Link::Ethernet
        } else if number == 101 || number == 228 || number == 229 {
            Link::RawIp
        } else if number == 113 {
            Link::LinuxSll
        } else if number == 276 {
            Link::LinuxSll2
        } else {
            Link::Other
        }
    }

    /// Finds the link of a capture file by its number.
    pub fn numbered(number: u32) -> (r: Link)
        ensures
            r == Link::with_number(number),
    {
        match number {
            1 => Link::Ethernet,
            101 | 228 | 229 => Link::RawIp,
            113 => Link::LinuxSll,
            276 => Link::LinuxSll2,
            _ => Link::Other,
        }
    }
}

/// What follows a header of that many bytes, as an IP packet.
pub open spec fn decoded_behind(data: Seq<u8>, header: int, at: Timestamp) -> Option<
    ObservationView,
> {
    if data.len() > header {
        decoded_ip(data.skip(header), at)
    } else {
        None
    }
}

/// What a packet on a link holds.
pub open spec fn decoded_on(link: Link, data: Seq<u8>, at: Timestamp) -> Option<ObservationView> {
    match link {
        Link::Ethernet => decoded_frame(data, at),
        Link::RawIp => decoded_ip(data, at),
        Link::LinuxSll => decoded_behind(data, 16, at),
        Link::LinuxSll2 => decoded_behind(data, 20, at),
        Link::Other => match decoded_frame(data, at) {
            Some(observation) => Some(observation),
            None => decoded_ip(data, at),
        },
    }
}

fn decode_behind(data: &[u8], header: usize, at: Timestamp) -> (r: Option<Observation>)
    ensures
        found(r) == decoded_behind(data@, header as int, at),
{
    if data.len() > header {
        let rest = slice_subrange(data, header, data.len());
        assert(rest@ =~= data@.skip(header as int));
        ip_packet(rest, at)
    } else {
        None
    }
}

/// Decodes a packet that came over a link.
pub fn decode_on(link: Link, data: &[u8], at: Timestamp) -> (r: Option<Observation>)
    ensures
        found(r) == decoded_on(link, data@, at),
{
    match link {
        Link::Ethernet => ethernet_frame(data, at),
        Link::RawIp => ip_packet(data, at),
        Link::LinuxSll => decode_behind(data, 16, at),
        Link::LinuxSll2 => decode_behind(data, 20, at),
        Link::Other => {
            let framed = ethernet_frame(data, at);
            if framed.is_some() {
                framed
            } else {
                ip_packet(data, at)
            }
        },
    }
}

// ---------------------------------------------------------------------------
// Live capture

/// A capture interface, described for a person choosing one.
#[derive(Debug)]
pub struct InterfaceInfo {
    pub name: String,
    /// The adapter's readable name; often empty.
    pub description: String,
    pub addresses: Vec<IpAddr>,
}

/// An interface of this host.
#[derive(Debug)]
pub struct Device {
    pub info: InterfaceInfo,
    /// A point-to-point link delivers bare IP packets.
    pub point_to_point: bool,
}

impl InterfaceInfo {
    /// The name, and the description in brackets where there is one.
    pub open spec fn text(self) -> Seq<char> {
        if self.description@.len() == 0 {
            self.name@
        } else {
            self.name@ + " ("@ + self.description@ + ")"@
        }
    }

    pub fn display(&self) -> (r: String)
        ensures
            r@ == self.text(),
    {
        let mut out = text::copy_of(self.name.as_str());
        if !text::same_str(self.description.as_str(), "") {
            proof {
                reveal_strlit("");
                assert(self.description@.len() > 0) by {
                    if self.description@.len() == 0 {
                        assert(self.description@ =~= ""@);
                    }
                }
            }
            out.append(" (");
            out.append(self.description.as_str());
            out.append(")");
        } else {
            proof {
                reveal_strlit("");
            }
        }
        out
    }
}

/// The texts of a list of devices.
pub open spec fn device_texts(devices: Seq<Device>) -> Seq<Seq<char>> {
    Seq::new(devices.len(), |i: int| devices[i].info.text())
}

/// The texts of a list of interfaces.
pub open spec fn interface_texts(interfaces: Seq<InterfaceInfo>) -> Seq<Seq<char>> {
    Seq::new(interfaces.len(), |i: int| interfaces[i].text())
}

/// The first device of that name.
pub open spec fn device_named(devices: Seq<Device>, name: Seq<char>) -> Option<int>
    decreases devices.len(),
{
    if devices.len() == 0 {
        None
    } else {
        match device_named(devices.drop_last(), name) {
            Some(i) => Some(i),
            None => if devices.last().info.name@ == name {
                Some(devices.len() - 1)
            } else {
                None
            },
        }
    }
}

/// A live capture from an interface.
#[derive(Debug)]
pub struct LiveSource {
    interface: String,
    filter: Option<String>,
    /// The interface's own addresses.
    addresses: Vec<IpAddr>,
    /// Packets from any of these are dropped.
    drop_sources: Vec<IpAddr>,
    link: Link,
}

/// What a [`LiveSource`] holds.
pub ghost struct LiveView {
    pub interface: Seq<char>,
    pub filter: Option<Seq<char>>,
    pub addresses: Seq<IpAddr>,
    pub drop_sources: Seq<IpAddr>,
    pub link: Link,
}

impl View for LiveSource {
    type V = LiveView;

    closed spec fn view(&self) -> LiveView {
        LiveView {
            interface: self.interface@,
            filter: match self.filter {
                Some(filter) => Some(filter@),
                None => None,
            },
            addresses: self.addresses@,
            drop_sources: self.drop_sources@,
            link: self.link,
        }
    }
}

pub open spec fn filter_refused(filter: Seq<char>) -> Seq<char> {
    "filter `"@ + filter
        + "` cannot be applied yet; refusing rather than capturing unfiltered"@
}

pub open spec fn no_such_interface(name: Seq<char>, devices: Seq<Device>) -> Seq<char> {
    "no interface `"@ + name + "`; this host has: "@ + join(device_texts(devices), ", "@)
}

pub open spec fn no_address(interface: Seq<char>) -> Seq<char> {
    "`"@ + interface
        + "` has no IP address to tell incoming traffic apart by; pick another interface or pass --both-directions"@
}

fn copied_addresses(list: &Vec<IpAddr>) -> (r: Vec<IpAddr>)
    ensures
        r@ == list@,
{
    let mut out: Vec<IpAddr> = Vec::new();
    let mut i: usize = 0;
    while i < list.len()
        invariant
            i <= list@.len(),
            out@ == list@.take(i as int),
        decreases list@.len() - i,
    {
        out.push(list[i]);
        i = i + 1;
    }
    assert(list@.take(i as int) =~= list@);
    out
}

fn find_device(devices: &Vec<Device>, name: &str) -> (r: Option<usize>)
    ensures
        match r {
            Some(i) => device_named(devices@, name@) == Some(i as int) && i < devices@.len(),
            None => device_named(devices@, name@) is None,
        },
{
    let mut first: Option<usize> = None;
    let mut i: usize = 0;
    while i < devices.len()
        invariant
            i <= devices@.len(),
            match first {
                Some(f) => device_named(devices@.take(i as int), name@) == Some(f as int) && f
                    < devices@.len(),
                None => device_named(devices@.take(i as int), name@) is None,
            },
        decreases devices@.len() - i,
    {
        proof {
            assert(devices@.take(i + 1).drop_last() =~= devices@.take(i as int));
            assert(devices@.take(i + 1).last() == devices@[i as int]);
        }
        if first.is_none() && text::same_str(devices[i].info.name.as_str(), name) {
            first = Some(i);
        }
        i = i + 1;
    }
    assert(devices@.take(i as int) =~= devices@);
    first
}

fn texts_of_devices(devices: &Vec<Device>) -> (r: Vec<String>)
    ensures
        strings(r@) == device_texts(devices@),
{
    let mut out: Vec<String> = Vec::new();
    let ghost all = device_texts(devices@);
    let mut i: usize = 0;
    assert(strings(out@) =~= all.take(0));
    while i < devices.len()
        invariant
            i <= devices@.len(),
            all == device_texts(devices@),
            strings(out@) == all.take(i as int),
        decreases devices@.len() - i,
    {
        let ghost before = strings(out@);
        let shown = devices[i].info.display();
        out.push(shown);
        assert(strings(out@) =~= before.push(shown@));
        assert(strings(out@) =~= all.take(i + 1));
        i = i + 1;
    }
    assert(all.take(i as int) =~= all);
    out
}

impl LiveSource {
    /// The interface of that name, among those of this host. A filter is refused: it
    /// could not be applied, and to capture without it would be worse.
    pub fn open(interface: &str, filter: Option<String>, devices: &Vec<Device>) -> (r: Result<
        Self,
        Error,
    >)
        ensures
            match (filter, device_named(devices@, interface@), r) {
                (Some(filter), _, Err(error)) => capture_error(error, filter_refused(filter@)),
                (None, Some(i), Ok(source)) => {
                    &&& source@.interface == interface@
                    &&& source@.filter is None
                    &&& source@.addresses == devices@[i].info.addresses@
                    &&& source@.drop_sources.len() == 0
                    &&& source@.link == (if devices@[i].point_to_point {
                        Link::RawIp
                    } else {
                        Link::Ethernet
                    })
                },
                (None, None, Err(error)) => capture_error(
                    error,
                    no_such_interface(interface@, devices@),
                ),
                _ => false,
            },
    {
        if let Some(filter) = &filter {
            let mut reason = text::copy_of("filter `");
            reason.append(filter.as_str());
            reason.append("` cannot be applied yet; refusing rather than capturing unfiltered");
            return Err(Error::Capture(reason));
        }
        match find_device(devices, interface) {
            Some(i) => Ok(
                LiveSource {
                    interface: text::copy_of(interface),
                    filter: None,
                    addresses: copied_addresses(&devices[i].info.addresses),
                    drop_sources: Vec::new(),
                    link: if devices[i].point_to_point {
                        Link::RawIp
                    } else {
                        Link::Ethernet
                    },
                },
            ),
            None => {
                let mut reason = text::copy_of("no interface `");
                reason.append(interface);
                reason.append("`; this host has: ");
                let available = texts_of_devices(devices);
                let list = text::joined_by(&available, ", ");
                reason.append(list.as_str());
                Err(Error::Capture(reason))
            },
        }
    }

    /// Keeps only what arrives at this host: packets from the interface's own
    /// addresses are dropped. Fails where it has none.
    pub fn incoming_only(self) -> (r: Result<Self, Error>)
        ensures
            match r {
                Ok(source) => self@.addresses.len() > 0 && source@ == (LiveView {
                    drop_sources: self@.addresses,
                    ..self@
                }),
                Err(error) => self@.addresses.len() == 0 && capture_error(
                    error,
                    no_address(self@.interface),
                ),
            },
    {
        if self.addresses.len() == 0 {
            let mut reason = text::copy_of("`");
            reason.append(self.interface.as_str());
            reason.append(
                "` has no IP address to tell incoming traffic apart by; pick another interface or pass --both-directions",
            );
            return Err(Error::Capture(reason));
        }
        let drop_sources = copied_addresses(&self.addresses);
        Ok(
            LiveSource {
                interface: self.interface,
                filter: self.filter,
                addresses: self.addresses,
                drop_sources,
                link: self.link,
            },
        )
    }

    /// The addresses whose packets are dropped.
    pub fn dropped_sources(&self) -> (r: &Vec<IpAddr>)
        ensures
            r@ == self@.drop_sources,
    {
        &self.drop_sources
    }

    pub fn interface(&self) -> (r: &str)
        ensures
            r@ == self@.interface,
    {
        self.interface.as_str()
    }

    /// The filter in force: none is ever accepted.
    pub fn filter(&self) -> (r: Option<&str>)
        ensures
            match r {
                Some(filter) => self@.filter == Some(filter@),
                None => self@.filter is None,
            },
    {
        match &self.filter {
            Some(filter) => Some(filter.as_str()),
            None => None,
        }
    }

    pub fn describe(&self) -> (r: String)
        ensures
            r@ == "live:"@ + self@.interface,
    {
        let mut out = text::copy_of("live:");
        out.append(self.interface.as_str());
        out
    }

    /// What a frame that was read holds: nothing where it cannot be decoded, or comes
    /// from an address that is dropped.
    pub fn accept(&self, frame: &[u8], at: Timestamp) -> (r: Option<Observation>)
        ensures
            found(r) == (match decoded_on(self@.link, frame@, at) {
                Some(observation) => if self@.drop_sources.contains(observation.source.addr) {
                    None
                } else {
                    Some(observation)
                },
                None => None,
            }),
    {
        match decode_on(self.link, frame, at) {
            Some(observation) => {
                let addr = observation.source.addr;
                let mut i: usize = 0;
                while i < self.drop_sources.len()
                    invariant
                        i <= self.drop_sources@.len(),
                        decoded_on(self@.link, frame@, at) == Some(observation@),
                        addr == observation.source.addr,
                        forall|j: int| 0 <= j < i ==> self.drop_sources@[j] != addr,
                    decreases self.drop_sources@.len() - i,
                {
                    if self.drop_sources[i] == addr {
                        return None;
                    }
                    i = i + 1;
                }
                Some(observation)
            },
            None => None,
        }
    }

    /// A read that failed for good.
    pub fn read_failed(&self, source: &str) -> (r: Error)
        ensures
            capture_error(r, "read from `"@ + self@.interface + "` failed: "@ + source@),
    {
        let mut reason = text::copy_of("read from `");
        reason.append(self.interface.as_str());
        reason.append("` failed: ");
        reason.append(source);
        Error::Capture(reason)
    }

    /// A device that hands over a kind of channel that is not handled.
    pub fn wrong_channel(&self) -> (r: Error)
        ensures
            capture_error(
                r,
                "`"@ + self@.interface + "` returned a channel type this build does not handle"@,
            ),
    {
        let mut reason = text::copy_of("`");
        reason.append(self.interface.as_str());
        reason.append("` returned a channel type this build does not handle");
        Error::Capture(reason)
    }
}

/// The ways in which reading or opening a device fails, as far as they matter.
#[derive(Debug, Clone, Copy, PartialEq, Eq, Structural)]
pub enum Failure {
    TimedOut,
    WouldBlock,
    Interrupted,
    PermissionDenied,
    Other,
}

/// Whether to read again: nothing came in time, or a signal cut the read short.
pub fn is_retryable(failure: Failure) -> (r: bool)
    ensures
        r == (failure == Failure::TimedOut || failure == Failure::WouldBlock || failure
            == Failure::Interrupted),
{
    match failure {
        Failure::TimedOut | Failure::WouldBlock | Failure::Interrupted => true,
        _ => false,
    }
}

/// Why an interface could not be opened: what is missing where that is a permission,
/// and the system's own words otherwise.
pub open spec fn not_opened(
    interface: Seq<char>,
    failure: Failure,
    source: Seq<char>,
    windows: bool,
) -> Seq<char> {
    "cannot capture on `"@ + interface + "`: "@ + (if failure == Failure::PermissionDenied {
        if windows {
            "Npcap was installed with access restricted to Administrators; run from an elevated prompt, or reinstall Npcap without that option"@
        } else {
            "needs CAP_NET_RAW (`sudo setcap cap_net_raw,cap_net_admin+eip <binary>`) or root"@
        }
    } else {
        source
    })
}

/// An interface that could not be opened.
pub fn open_failed(interface: &str, failure: Failure, source: &str, windows: bool) -> (r: Error)
    ensures
        capture_error(r, not_opened(interface@, failure, source@, windows)),
{
    let mut reason = text::copy_of("cannot capture on `");
    reason.append(interface);
    reason.append("`: ");
    let needs = if failure == Failure::PermissionDenied {
        if windows {
            "Npcap was installed with access restricted to Administrators; run from an elevated prompt, or reinstall Npcap without that option"
        } else {
            "needs CAP_NET_RAW (`sudo setcap cap_net_raw,cap_net_admin+eip <binary>`) or root"
        }
    } else {
        source
    };
    reason.append(needs);
    Error::Capture(reason)
}

// ---------------------------------------------------------------------------
// Capture files

/// What came of opening a capture file.
#[derive(Debug)]
pub enum Opened {
    /// There is no such file.
    Missing,
    /// The file could not be opened, in the system's words.
    Refused(String),
    /// What is in it is no capture file, in the reader's words.
    Malformed(String),
    Ready(Link),
}

pub open spec fn no_such_file(path: Seq<char>) -> Seq<char> {
    "no such file: "@ + path
}

/// A capture file that is replayed.
#[derive(Debug)]
pub struct PcapFileSource {
    path: String,
    link: Link,
}

impl PcapFileSource {
    pub closed spec fn path_text(&self) -> Seq<char> {
        self.path@
    }

    pub closed spec fn framing(&self) -> Link {
        self.link
    }

    pub fn open(path: &str, opened: Opened) -> (r: Result<Self, Error>)
        ensures
            match (opened, r) {
                (Opened::Ready(link), Ok(source)) => source.path_text() == path@
                    && source.framing() == link,
                (Opened::Missing, Err(error)) => capture_error(error, no_such_file(path@)),
                (Opened::Refused(e), Err(error)) => capture_error(
                    error,
                    "failed to open `"@ + path@ + "`: "@ + e@,
                ),
                (Opened::Malformed(e), Err(error)) => capture_error(
                    error,
                    "failed to parse pcap header in `"@ + path@ + "`: "@ + e@,
                ),
                _ => false,
            },
    {
        match opened {
            Opened::Ready(link) => Ok(PcapFileSource { path: text::copy_of(path), link }),
            Opened::Missing => Err(missing_file(path)),
            Opened::Refused(e) => {
                let mut reason = text::copy_of("failed to open `");
                reason.append(path);
                reason.append("`: ");
                reason.append(e.as_str());
                Err(Error::Capture(reason))
            },
            Opened::Malformed(e) => {
                let mut reason = text::copy_of("failed to parse pcap header in `");
                reason.append(path);
                reason.append("`: ");
                reason.append(e.as_str());
                Err(Error::Capture(reason))
            },
        }
    }

    pub fn describe(&self) -> (r: String)
        ensures
            r@ == "pcap:"@ + self.path_text(),
    {
        let mut out = text::copy_of("pcap:");
        out.append(self.path.as_str());
        out
    }

    /// What a packet that was read holds, at the time that the file gives for it.
    pub fn accept(&self, data: &[u8], at: Timestamp) -> (r: Option<Observation>)
        ensures
            found(r) == decoded_on(self.framing(), data@, at),
    {
        decode_on(self.link, data, at)
    }

    /// A packet that could not be read.
    pub fn read_failed(&self, source: &str) -> (r: Error)
        ensures
            capture_error(
                r,
                "error reading packet from `"@ + self.path_text() + "`: "@ + source@,
            ),
    {
        let mut reason = text::copy_of("error reading packet from `");
        reason.append(self.path.as_str());
        reason.append("`: ");
        reason.append(source);
        Error::Capture(reason)
    }
}

fn missing_file(path: &str) -> (r: Error)
    ensures
        capture_error(r, no_such_file(path@)),
{
    let mut reason = text::copy_of("no such file: ");
    reason.append(path);
    Error::Capture(reason)
}

// ---------------------------------------------------------------------------
// Logs and other tools

/// A honeypot's log. None of their formats is read yet.
#[derive(Debug)]
pub struct HoneypotLogSource {
    pub path: String,
    /// Which honeypot wrote it.
    pub format: String,
}

impl HoneypotLogSource {
    pub fn open(path: &str, format: &str, exists: bool) -> (r: Result<Self, Error>)
        ensures
            match r {
                Ok(source) => exists && source.path@ == path@ && source.format@ == format@,
                Err(error) => !exists && capture_error(error, no_such_file(path@)),
            },
    {
        if !exists {
            return Err(missing_file(path));
        }
        Ok(HoneypotLogSource { path: text::copy_of(path), format: text::copy_of(format) })
    }

    pub fn describe(&self) -> (r: String)
        ensures
            r@ == "honeypot:"@ + self.format@ + ":"@ + self.path@,
    {
        let mut out = text::copy_of("honeypot:");
        out.append(self.format.as_str());
        out.append(":");
        out.append(self.path.as_str());
        out
    }

    pub fn next_observation(&mut self) -> (r: Result<Option<Observation>, Error>)
        ensures
            *final(self) == *old(self),
            r matches Err(error) && capture_error(
                error,
                "honeypot log format `"@ + old(self).format@ + "` is not implemented yet"@,
            ),
    {
        let mut reason = text::copy_of("honeypot log format `");
        reason.append(self.format.as_str());
        reason.append("` is not implemented yet");
        Err(Error::Capture(reason))
    }
}

/// The output of tcpdump. It is not read yet.
#[derive(Debug)]
pub struct TcpdumpSource {
    pub command: String,
}

impl TcpdumpSource {
    pub fn spawn(command: &str) -> (r: Result<Self, Error>)
        ensures
            r matches Ok(source) && source.command@ == command@,
    {
        Ok(TcpdumpSource { command: text::copy_of(command) })
    }

    pub fn describe(&self) -> (r: String)
        ensures
            r@ == "tcpdump:"@ + self.command@,
    {
        let mut out = text::copy_of("tcpdump:");
        out.append(self.command.as_str());
        out
    }

    pub fn next_observation(&mut self) -> (r: Result<Option<Observation>, Error>)
        ensures
            *final(self) == *old(self),
            r matches Err(error) && capture_error(
                error,
                "tcpdump ingestion is not implemented yet"@,
            ),
    {
        Err(Error::Capture(text::copy_of("tcpdump ingestion is not implemented yet")))
    }
}

/// Each kind of framing has its numbers, and every other number is no kind.
pub proof fn links_go_by_their_numbers(number: u32)
    ensures
        Link::with_number(number) == Link::Ethernet <==> number == 1,
        Link::with_number(number) == Link::RawIp <==> number == 101 || number == 228 || number
            == 229,
        Link::with_number(number) == Link::LinuxSll <==> number == 113,
        Link::with_number(number) == Link::LinuxSll2 <==> number == 276,
{
}

/// A cooked capture is the same packet behind a header that is not looked at: of sixteen
/// bytes, or of twenty. Where no more than the header is there, nothing is.
pub proof fn cooked_headers_are_not_looked_at(header: Seq<u8>, packet: Seq<u8>, at: Timestamp)
    ensures
        header.len() == 16 && packet.len() > 0 ==> decoded_on(Link::LinuxSll, header + packet, at)
            == decoded_on(Link::RawIp, packet, at),
        header.len() == 20 && packet.len() > 0 ==> decoded_on(Link::LinuxSll2, header + packet, at)
            == decoded_on(Link::RawIp, packet, at),
        header.len() <= 16 ==> decoded_on(Link::LinuxSll, header, at) is None,
        header.len() <= 20 ==> decoded_on(Link::LinuxSll2, header, at) is None,
{
    if header.len() == 16 || header.len() == 20 {
        assert((header + packet).skip(header.len() as int) =~= packet);
    }
}

/// Frames are read as frames and packets as packets. What comes on another link is read
/// as a frame where it can be, and as a packet where it cannot.
pub proof fn unknown_links_are_tried(data: Seq<u8>, at: Timestamp)
    ensures
        decoded_on(Link::Ethernet, data, at) == decoded_frame(data, at),
        decoded_on(Link::RawIp, data, at) == decoded_ip(data, at),
        decoded_frame(data, at) is Some ==> decoded_on(Link::Other, data, at) == decoded_frame(
            data,
            at,
        ),
        decoded_frame(data, at) is None ==> decoded_on(Link::Other, data, at) == decoded_ip(
            data,
            at,
        ),
{
}

/// The device of a name is the first that has it; there is none only where none has it.
pub proof fn the_first_device_counts(devices: Seq<Device>, name: Seq<char>)
    ensures
        match device_named(devices, name) {
            Some(i) => 0 <= i < devices.len() && devices[i].info.name@ == name && forall|j: int|
                0 <= j < i ==> (#[trigger] devices[j]).info.name@ != name,
            None => forall|j: int|
                0 <= j < devices.len() ==> (#[trigger] devices[j]).info.name@ != name,
        },
    decreases devices.len(),
{
    if devices.len() > 0 {
        let head = devices.drop_last();
        the_first_device_counts(head, name);
        assert forall|j: int| 0 <= j < head.len() implies head[j] == #[trigger] devices[j] by {
        }
    }
}

/// A packet that a live capture hands on was read from the frame and is from no address
/// that is dropped; and every other one is handed on.
pub proof fn only_dropped_sources_are_missing(
    source: &LiveSource,
    frame: &[u8],
    at: Timestamp,
    r: Option<Observation>,
)
    requires
        call_ensures(LiveSource::accept, (source, frame, at), r),
    ensures
        r matches Some(observation) ==> {
            &&& decoded_on(source@.link, frame@, at) == Some(observation@)
            &&& forall|i: int|
                0 <= i < source@.drop_sources.len() ==> #[trigger] source@.drop_sources[i]
                    != observation@.source.addr
        },
        r is None ==> (decoded_on(source@.link, frame@, at) matches Some(observation)
            ==> exists|i: int|
            0 <= i < source@.drop_sources.len() && #[trigger] source@.drop_sources[i]
                == observation.source.addr),
{
}

/// An interface is told by its name, with its description behind it in brackets where it
/// has one.
pub proof fn interfaces_are_told_by_name(interface: InterfaceInfo)
    ensures
        interface.description@.len() == 0 ==> interface.text() == interface.name@,
        interface.description@.len() > 0 ==> interface.text() == interface.name@ + seq![' ', '(']
            + interface.description@ + seq![')'],
{
    reveal_strlit(" (");
    reveal_strlit(")");
    assert(" ("@ =~= seq![' ', '(']);
    assert(")"@ =~= seq![')']);
}

/// Where an interface cannot be opened, the system's own words are passed on, unless a
/// permission is missing: then what would give it is said, which the host's system
/// decides.
pub proof fn missing_permissions_are_explained(
    interface: Seq<char>,
    failure: Failure,
    source: Seq<char>,
    other: Seq<char>,
    windows: bool,
)
    ensures
        ({
            let told = not_opened(interface, failure, source, windows);
            &&& failure != Failure::PermissionDenied ==> told.skip(told.len() - source.len())
                == source
            &&& failure == Failure::PermissionDenied ==> told == not_opened(
                interface,
                failure,
                other,
                windows,
            )
            &&& failure == Failure::PermissionDenied && !windows ==> begins(
                told.skip(interface.len() + 22int),
                "needs CAP_NET_RAW"@,
            )
            &&& failure == Failure::PermissionDenied && windows ==> begins(
                told.skip(interface.len() + 22int),
                "Npcap"@,
            )
        }),
{
    reveal_strlit("cannot capture on `");
    reveal_strlit("`: ");
    let head = "cannot capture on `"@ + interface + "`: "@;
    let told = not_opened(interface, failure, source, windows);
    if failure != Failure::PermissionDenied {
        assert(told.skip(told.len() - source.len()) =~= source);
    } else if windows {
        reveal_strlit("Npcap");
        reveal_strlit("Npcap was installed with access restricted to Administrators; run from an elevated prompt, or reinstall Npcap without that option");
        assert(told.skip(head.len() as int).take("Npcap"@.len() as int) =~= "Npcap"@);
    } else {
        reveal_strlit("needs CAP_NET_RAW");
        reveal_strlit("needs CAP_NET_RAW (`sudo setcap cap_net_raw,cap_net_admin+eip <binary>`) or root");
        assert(told.skip(head.len() as int).take("needs CAP_NET_RAW"@.len() as int)
            =~= "needs CAP_NET_RAW"@);
    }
}

/// A read is tried again where nothing came in time or it was cut short, and given up
/// where it failed for another reason.
pub proof fn passing_failures_are_tried_again(failure: Failure, r: bool)
    requires
        call_ensures(is_retryable, (failure,), r),
    ensures
        match failure {
            Failure::TimedOut => r,
            Failure::WouldBlock => r,
            Failure::Interrupted => r,
            Failure::PermissionDenied => !r,
            Failure::Other => !r,
        },
{
}

/// A capture of what arrives drops every address of its interface and no other, and is
/// the same in all else; there is one wherever the interface has an address.
pub proof fn incoming_captures_drop_their_own(source: LiveSource, r: Result<LiveSource, Error>)
    requires
        call_ensures(LiveSource::incoming_only, (source,), r),
    ensures
        r is Ok <==> source@.addresses.len() > 0,
        r matches Ok(kept) ==> {
            &&& forall|addr: IpAddr| #[trigger]
                kept@.drop_sources.contains(addr) <==> source@.addresses.contains(addr)
            &&& kept@.interface == source@.interface
            &&& kept@.addresses == source@.addresses
            &&& kept@.filter == source@.filter
            &&& kept@.link == source@.link
        },
{
}

} // verus!
