//! From a packet to the events it raises.
//!
//! Only the flags and the first bytes of the payload are looked at: enough to
//! tell which methods to run, not to parse anything.

use vstd::prelude::*;

use crate::observation::{Observation, ObservationView, TcpHeader};
use crate::trigger::TriggerEvent;

verus! {

/// Whether `payload` begins with `prefix`.
pub open spec fn starts(payload: Seq<u8>, prefix: Seq<u8>) -> bool {
    prefix.is_prefix_of(payload)
}

/// A TLS handshake record that is long enough to tell its message: type 22, major
/// version 3, and after the five bytes of the record header the message's type.
pub open spec fn tls_handshake(payload: Seq<u8>) -> bool {
    payload.len() >= 6 && payload[0] == 0x16 && payload[1] == 0x03
}

/// Whether a payload begins with the method of an HTTP/1.x request, with the
/// space behind it.
pub open spec fn http_request_line(payload: Seq<u8>) -> bool {
    ||| starts(payload, seq![0x47u8, 0x45, 0x54, 0x20])  // GET
    ||| starts(payload, seq![0x50u8, 0x4f, 0x53, 0x54, 0x20])  // POST
    ||| starts(payload, seq![0x48u8, 0x45, 0x41, 0x44, 0x20])  // HEAD
    ||| starts(payload, seq![0x50u8, 0x55, 0x54, 0x20])  // PUT
    ||| starts(payload, seq![0x44u8, 0x45, 0x4c, 0x45, 0x54, 0x45, 0x20])  // DELETE
    ||| starts(payload, seq![0x4fu8, 0x50, 0x54, 0x49, 0x4f, 0x4e, 0x53, 0x20])  // OPTIONS
    ||| starts(payload, seq![0x50u8, 0x41, 0x54, 0x43, 0x48, 0x20])  // PATCH
    ||| starts(payload, seq![0x43u8, 0x4f, 0x4e, 0x4e, 0x45, 0x43, 0x54, 0x20])  // CONNECT
    ||| starts(payload, seq![0x54u8, 0x52, 0x41, 0x43, 0x45, 0x20])  // TRACE
}

/// The event that the beginning of a payload raises.
pub open spec fn event_of_payload(payload: Seq<u8>) -> Option<TriggerEvent> {
    if tls_handshake(payload) {
        if payload[5] == 0x01 {
            Some(TriggerEvent::TlsClientHello)
        } else if payload[5] == 0x02 {
            Some(TriggerEvent::TlsServerHello)
        } else {
            None
        }
    } else if starts(payload, seq![0x53u8, 0x53, 0x48, 0x2d]) {  // SSH-
        Some(TriggerEvent::SshBanner)
    } else if starts(payload, seq![0x48u8, 0x54, 0x54, 0x50, 0x2f, 0x31, 0x2e]) {  // HTTP/1.
        Some(TriggerEvent::HttpResponse)
    } else if http_request_line(payload) {
        Some(TriggerEvent::HttpRequest)
    } else {
        None
    }
}

/// The events that a packet raises: of a TCP segment, that of its SYN flag and
/// that of its payload, in this order; of anything else none.
pub open spec fn events_of(observation: ObservationView) -> Seq<TriggerEvent> {
    match observation.header {
        Some(header) => {
            let of_flags = if header.carries(TcpHeader::SYN) {
                if header.carries(TcpHeader::ACK) {
                    seq![TriggerEvent::TcpSynAck]
                } else {
                    seq![TriggerEvent::TcpSyn]
                }
            } else {
                Seq::empty()
            };
            match event_of_payload(observation.payload) {
                Some(event) => of_flags.push(event),
                None => of_flags,
            }
        },
        None => Seq::empty(),
    }
}

fn starts_with(payload: &Vec<u8>, prefix: &[u8]) -> (r: bool)
    ensures
        r == starts(payload@, prefix@),
{
    if payload.len() < prefix.len() {
        return false;
    }
    let mut i: usize = 0;
    while i < prefix.len()
        invariant
            i <= prefix@.len() <= payload@.len(),
            forall|j: int| 0 <= j < i ==> payload@[j] == prefix@[j],
        decreases prefix@.len() - i,
    {
        if payload[i] != prefix[i] {
            assert(prefix@[i as int] != payload@.subrange(0, prefix@.len() as int)[i as int]);
            return false;
        }
        i = i + 1;
    }
    assert(prefix@ =~= payload@.subrange(0, prefix@.len() as int));
    true
}

fn is_request_line(payload: &Vec<u8>) -> (r: bool)
    ensures
        r == http_request_line(payload@),
{
    starts_with(payload, &[0x47u8, 0x45, 0x54, 0x20]) || starts_with(
        payload,
        &[0x50u8, 0x4f, 0x53, 0x54, 0x20],
    ) || starts_with(payload, &[0x48u8, 0x45, 0x41, 0x44, 0x20]) || starts_with(
        payload,
        &[0x50u8, 0x55, 0x54, 0x20],
    ) || starts_with(payload, &[0x44u8, 0x45, 0x4c, 0x45, 0x54, 0x45, 0x20]) || starts_with(
        payload,
        &[0x4fu8, 0x50, 0x54, 0x49, 0x4f, 0x4e, 0x53, 0x20],
    ) || starts_with(payload, &[0x50u8, 0x41, 0x54, 0x43, 0x48, 0x20]) || starts_with(
        payload,
        &[0x43u8, 0x4f, 0x4e, 0x4e, 0x45, 0x43, 0x54, 0x20],
    ) || starts_with(payload, &[0x54u8, 0x52, 0x41, 0x43, 0x45, 0x20])
}

fn payload_event(payload: &Vec<u8>) -> (r: Option<TriggerEvent>)
    ensures
        r == event_of_payload(payload@),
{
    if payload.len() >= 6 && payload[0] == 0x16 && payload[1] == 0x03 {
        return if payload[5] == 0x01 {
            Some(TriggerEvent::TlsClientHello)
        } else if payload[5] == 0x02 {
            Some(TriggerEvent::TlsServerHello)
        } else {
            None
        };
    }
    if starts_with(payload, &[0x53u8, 0x53, 0x48, 0x2d]) {
        return Some(TriggerEvent::SshBanner);
    }
    if starts_with(payload, &[0x48u8, 0x54, 0x54, 0x50, 0x2f, 0x31, 0x2e]) {
        return Some(TriggerEvent::HttpResponse);
    }
    if is_request_line(payload) {
        return Some(TriggerEvent::HttpRequest);
    }
    None
}

/// The events that a packet raises.
pub fn classify(observation: &Observation) -> (r: Vec<TriggerEvent>)
    ensures
        r@ == events_of(observation@),
{
    let mut events: Vec<TriggerEvent> = Vec::new();
    let header = match &observation.header {
        Some(header) => header,
        None => {
            assert(events@ =~= Seq::empty());
            return events;
        },
    };
    if header.has(TcpHeader::SYN) {
        events.push(
            if header.has(TcpHeader::ACK) {
                TriggerEvent::TcpSynAck
            } else {
                TriggerEvent::TcpSyn
            },
        );
    }
    let ghost of_flags = events@;
    if let Some(event) = payload_event(&observation.payload) {
        events.push(event);
    }
    assert(events@ =~= events_of(observation@));
    events
}

/// A packet raises no session event, and no event twice.
pub proof fn packets_raise_packet_events(observation: ObservationView)
    ensures
        !events_of(observation).contains(TriggerEvent::SessionEnd),
        events_of(observation).no_duplicates(),
        events_of(observation).len() <= 2,
{
}

/// Which events a packet raises, by its bytes. Without a TCP header it raises none. A SYN
/// flag (0x02) is a connection attempt without an ACK flag (0x10) and an acceptance with
/// it. A payload is a TLS handshake where it has six bytes, of which the first is 0x16 and
/// the second 3, and the sixth tells which; an SSH banner behind `SSH-`; a response behind
/// `HTTP/1.`; and a request behind a method and a space.
pub proof fn events_by_their_bytes(observation: ObservationView)
    ensures
        ({
            let events = events_of(observation);
            let p = observation.payload;
            let seen = observation.header is Some;
            let flags = observation.header->0.flags;
            &&& !seen ==> events.len() == 0
            &&& seen ==> {
                &&& events.contains(TriggerEvent::TcpSyn) <==> flags & 0x02 != 0 && flags & 0x10
                    == 0
                &&& events.contains(TriggerEvent::TcpSynAck) <==> flags & 0x02 != 0 && flags & 0x10
                    != 0
                &&& events.contains(TriggerEvent::TlsClientHello) <==> p.len() >= 6 && p[0] == 0x16
                    && p[1] == 3 && p[5] == 1
                &&& events.contains(TriggerEvent::TlsServerHello) <==> p.len() >= 6 && p[0] == 0x16
                    && p[1] == 3 && p[5] == 2
                &&& events.contains(TriggerEvent::SshBanner) <==> p.len() >= 4 && p.take(4) == seq![
                    0x53u8,
                    0x53,
                    0x48,
                    0x2d,
                ]
                &&& events.contains(TriggerEvent::HttpResponse) <==> p.len() >= 7 && p.take(7)
                    == seq![0x48u8, 0x54, 0x54, 0x50, 0x2f, 0x31, 0x2e]
                &&& events.contains(TriggerEvent::HttpRequest) <==> {
                    ||| p.len() >= 4 && p.take(4) == seq![0x47u8, 0x45, 0x54, 0x20]
                    ||| p.len() >= 4 && p.take(4) == seq![0x50u8, 0x55, 0x54, 0x20]
                    ||| p.len() >= 5 && p.take(5) == seq![0x50u8, 0x4f, 0x53, 0x54, 0x20]
                    ||| p.len() >= 5 && p.take(5) == seq![0x48u8, 0x45, 0x41, 0x44, 0x20]
                    ||| p.len() >= 6 && p.take(6) == seq![0x50u8, 0x41, 0x54, 0x43, 0x48, 0x20]
                    ||| p.len() >= 6 && p.take(6) == seq![0x54u8, 0x52, 0x41, 0x43, 0x45, 0x20]
                    ||| p.len() >= 7 && p.take(7) == seq![
                        0x44u8,
                        0x45,
                        0x4c,
                        0x45,
                        0x54,
                        0x45,
                        0x20,
                    ]
                    ||| p.len() >= 8 && p.take(8) == seq![
                        0x4fu8,
                        0x50,
                        0x54,
                        0x49,
                        0x4f,
                        0x4e,
                        0x53,
                        0x20,
                    ]
                    ||| p.len() >= 8 && p.take(8) == seq![
                        0x43u8,
                        0x4f,
                        0x4e,
                        0x4e,
                        0x45,
                        0x43,
                        0x54,
                        0x20,
                    ]
                }
                &&& flags & 0x02 != 0 ==> events[0] == TriggerEvent::TcpSyn || events[0]
                    == TriggerEvent::TcpSynAck
            }
        }),
{
    if observation.header is Some {
        let flags = observation.header->0.flags;
        let p = observation.payload;
        assert(flags & 0x02 == 0x02 <==> flags & 0x02 != 0) by (bit_vector);
        assert(flags & 0x10 == 0x10 <==> flags & 0x10 != 0) by (bit_vector);
        assert forall|prefix: Seq<u8>| #[trigger] starts(p, prefix) <==> p.len() >= prefix.len()
            && p.take(prefix.len() as int) == prefix by {
            if starts(p, prefix) {
                assert(p.take(prefix.len() as int) =~= prefix);
            }
        }
        let of_flags = if flags & 0x02 == 0x02 {
            if flags & 0x10 == 0x10 {
                seq![TriggerEvent::TcpSynAck]
            } else {
                seq![TriggerEvent::TcpSyn]
            }
        } else {
            Seq::empty()
        };
        let events = events_of(observation);
        lemma_first_bytes(p);
        match event_of_payload(p) {
            Some(event) => {
                assert(events =~= of_flags.push(event));
                assert(events[of_flags.len() as int] == event);
                if of_flags.len() > 0 {
                    assert(events[0] == of_flags[0]);
                }
            },
            None => {
                assert(events =~= of_flags);
                if of_flags.len() > 0 {
                    assert(events[0] == of_flags[0]);
                }
            },
        }
    }
}

/// No payload is of two kinds.
proof fn lemma_first_bytes(p: Seq<u8>)
    ensures
        starts(p, seq![0x53u8, 0x53, 0x48, 0x2d]) ==> p[0] == 0x53,
        starts(p, seq![0x48u8, 0x54, 0x54, 0x50, 0x2f, 0x31, 0x2e]) ==> p[0] == 0x48 && p[1]
            == 0x54,
        http_request_line(p) ==> p[0] != 0x16 && p[0] != 0x53 && (p[0] == 0x48 ==> p[1] == 0x45),
{
    let ssh = seq![0x53u8, 0x53, 0x48, 0x2d];
    let http = seq![0x48u8, 0x54, 0x54, 0x50, 0x2f, 0x31, 0x2e];
    assert(ssh[0] == 0x53 && http[0] == 0x48 && http[1] == 0x54);
    let get = seq![0x47u8, 0x45, 0x54, 0x20];
    let post = seq![0x50u8, 0x4f, 0x53, 0x54, 0x20];
    let head = seq![0x48u8, 0x45, 0x41, 0x44, 0x20];
    let put = seq![0x50u8, 0x55, 0x54, 0x20];
    let delete = seq![0x44u8, 0x45, 0x4c, 0x45, 0x54, 0x45, 0x20];
    let options = seq![0x4fu8, 0x50, 0x54, 0x49, 0x4f, 0x4e, 0x53, 0x20];
    let patch = seq![0x50u8, 0x41, 0x54, 0x43, 0x48, 0x20];
    let connect = seq![0x43u8, 0x4f, 0x4e, 0x4e, 0x45, 0x43, 0x54, 0x20];
    let trace = seq![0x54u8, 0x52, 0x41, 0x43, 0x45, 0x20];
    assert(get[0] == 0x47 && post[0] == 0x50 && head[0] == 0x48 && head[1] == 0x45 && put[0] == 0x50
        && delete[0] == 0x44 && options[0] == 0x4f && patch[0] == 0x50 && connect[0] == 0x43
        && trace[0] == 0x54);
}

} // verus!
