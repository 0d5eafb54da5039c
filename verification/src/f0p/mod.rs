//! `f0p`: passive TCP/IP stack fingerprinting from the SYN, matched against the
//! p0f fingerprint database.
//!
//! The SYN alone is enough for a guess at the operating system or the stack.
//! Where the session goes on to an HTTP request, a guess at the client is added
//! from the order of its headers and its User-Agent.

pub mod format;
pub mod http;
pub mod score;
pub mod tcp;

use vstd::prelude::*;

use crate::error::Error;
use crate::evidence::{claim, evidence_views, Confidence, Evidence, EvidenceView};
use crate::f0p::format::{http_views, tcp_views, HttpSignatureView, P0fDb, TcpSignatureView};
use crate::f0p::http::{best_http, best_http_match, http_score};
use crate::f0p::score::{confidence_for, confidence_of, MinScore};
use crate::f0p::tcp::{
    best_tcp, best_tcp_match, likely_initial_ttl, nearest_initial_ttl, raw_signature,
    signature_text, tcp_score,
};
use crate::http::{read_request, ObservedHttpRequest, RequestView};
use crate::manifest::{ManifestView, MethodManifest};
use crate::method::{Outcome, OutcomeView, SessionContext, SessionContextView, SessionMethod};
use crate::observation::{
    Endpoint, IpAddr, Observation, ObservationView, TcpFeatures, TcpFeaturesView, Transport,
};
use crate::session::observation_views;
use crate::text;
use crate::text::decimal;

verus! {

/// The method, with its database.
#[derive(Debug)]
pub struct F0p {
    pub manifest: MethodManifest,
    pub db: P0fDb,
    /// A signature that scores less is no match.
    pub min_score: MinScore,
}

/// The stack characteristics of the first observation that has any, and whether
/// that observation has no payload.
pub open spec fn syn_in(observations: Seq<ObservationView>) -> Option<(TcpFeaturesView, bool)>
    decreases observations.len(),
{
    if observations.len() == 0 {
        None
    } else {
        match observations[0].tcp {
            Some(tcp) => Some((tcp, observations[0].payload.len() == 0)),
            None => syn_in(observations.skip(1)),
        }
    }
}

/// The first observation that is an HTTP request.
pub open spec fn first_request(observations: Seq<ObservationView>) -> Option<RequestView>
    decreases observations.len(),
{
    if observations.len() == 0 {
        None
    } else {
        match read_request(observations[0].payload) {
            Some(request) => Some(request),
            None => first_request(observations.skip(1)),
        }
    }
}

pub open spec fn ip_version(addr: IpAddr) -> u8 {
    match addr {
        IpAddr::V4(_) => 4,
        IpAddr::V6(_) => 6,
    }
}

/// How many hops away the sender is: from the initial TTL of the signature, or
/// from the likeliest one where there is none.
pub open spec fn distance(ttl: u8, sig: Option<TcpSignatureView>) -> nat {
    let initial = match sig {
        Some(sig) => sig.initial_ttl,
        None => likely_initial_ttl(ttl),
    };
    if initial >= ttl {
        (initial - ttl) as nat
    } else {
        0
    }
}

/// What the SYN tells: its signature, the distance, and the operating system of
/// the signature it matches, or the stack where that is one of a tool.
pub open spec fn tcp_claims(
    name: Seq<char>,
    subject: Endpoint,
    syn: TcpFeaturesView,
    payload_empty: bool,
    signatures: Seq<TcpSignatureView>,
    min: int,
) -> Seq<EvidenceView> {
    let version = ip_version(subject.addr);
    let best = match best_tcp(signatures, syn, payload_empty, version, min) {
        Some(i) => Some(signatures[i]),
        None => None,
    };
    let first = seq![
        claim(
            name,
            subject,
            "signature"@,
            signature_text(syn, payload_empty, version),
            Confidence::Weak,
        ),
        claim(name, subject, "distance"@, decimal(distance(syn.ttl, best)), Confidence::Weak),
    ];
    match best {
        Some(sig) => first.push(
            claim(
                name,
                subject,
                if sig.class == "!"@ {
                    "stack"@
                } else {
                    "os"@
                },
                sig.label,
                confidence_of(tcp_score(syn, payload_empty, version, sig)),
            ),
        ),
        None => first,
    }
}

/// What a request tells: the client of the signature it matches.
pub open spec fn http_claims(
    name: Seq<char>,
    subject: Endpoint,
    request: Option<RequestView>,
    signatures: Seq<HttpSignatureView>,
    min: int,
) -> Seq<EvidenceView> {
    match request {
        Some(request) => match best_http(signatures, request, min) {
            Some(i) => seq![
                claim(
                    name,
                    subject,
                    "client"@,
                    signatures[i].label,
                    confidence_of(http_score(request, signatures[i])),
                ),
            ],
            None => Seq::empty(),
        },
        None => Seq::empty(),
    }
}

/// What the method makes of a session. There is nothing to say without a TCP
/// segment whose header was seen.
pub open spec fn fingerprint(
    name: Seq<char>,
    tcp: Seq<TcpSignatureView>,
    http: Seq<HttpSignatureView>,
    min: int,
    ctx: SessionContextView,
) -> OutcomeView {
    let subject = ctx.session.initiator;
    match syn_in(ctx.observations()) {
        Some((syn, payload_empty)) if ctx.session.key.transport == Transport::Tcp => {
            let evidence = tcp_claims(name, subject, syn, payload_empty, tcp, min) + http_claims(
                name,
                subject,
                first_request(ctx.observations()),
                http,
                min,
            );
            if ctx.is_final {
                OutcomeView::Complete(evidence)
            } else {
                OutcomeView::Partial(evidence)
            }
        },
        _ => OutcomeView::NotApplicable,
    }
}

fn find_syn<'a>(observations: &Vec<&'a Observation>) -> (r: Option<(&'a TcpFeatures, bool)>)
    ensures
        match r {
            Some((tcp, empty)) => syn_in(observation_views(observations@.unref())) == Some(
                (tcp@, empty),
            ),
            None => syn_in(observation_views(observations@.unref())) is None,
        },
{
    let ghost all = observation_views(observations@.unref());
    let mut i: usize = 0;
    assert(all.skip(0) =~= all);
    while i < observations.len()
        invariant
            i <= observations@.len(),
            all == observation_views(observations@.unref()),
            syn_in(all) == syn_in(all.skip(i as int)),
        decreases observations@.len() - i,
    {
        let observation: &'a Observation = observations[i];
        proof {
            assert(all[i as int] == observation@);
            assert(all.skip(i as int)[0] == observation@);
            assert(all.skip(i as int).skip(1) =~= all.skip(i + 1));
        }
        if let Some(tcp) = &observation.tcp {
            return Some((tcp, observation.payload.len() == 0));
        }
        i = i + 1;
    }
    None
}

fn find_request(observations: &Vec<&Observation>) -> (r: Option<ObservedHttpRequest>)
    ensures
        match r {
            Some(request) => first_request(observation_views(observations@.unref())) == Some(
                request@,
            ),
            None => first_request(observation_views(observations@.unref())) is None,
        },
{
    let ghost all = observation_views(observations@.unref());
    let mut i: usize = 0;
    assert(all.skip(0) =~= all);
    while i < observations.len()
        invariant
            i <= observations@.len(),
            all == observation_views(observations@.unref()),
            first_request(all) == first_request(all.skip(i as int)),
        decreases observations@.len() - i,
    {
        proof {
            assert(all[i as int] == observations@[i as int]@);
            assert(all.skip(i as int)[0] == observations@[i as int]@);
            assert(all.skip(i as int).skip(1) =~= all.skip(i + 1));
        }
        let found = ObservedHttpRequest::parse(observations[i].payload.as_slice());
        if found.is_some() {
            return found;
        }
        i = i + 1;
    }
    None
}

impl F0p {
    fn claims_of_syn(
        &self,
        subject: Endpoint,
        syn: &TcpFeatures,
        payload_empty: bool,
    ) -> (r: Vec<Evidence>)
        ensures
            evidence_views(r@) == tcp_claims(
                self.manifest.name@,
                subject,
                syn@,
                payload_empty,
                tcp_views(self.db.tcp_request@),
                self.min_score as int,
            ),
    {
        let name = self.manifest.name.as_str();
        let version: u8 = match subject.addr {
            IpAddr::V4(_) => 4,
            IpAddr::V6(_) => 6,
        };
        let best = best_tcp_match(
            &self.db.tcp_request,
            syn,
            payload_empty,
            version,
            self.min_score,
        );
        let mut evidence: Vec<Evidence> = Vec::new();

        let observed = raw_signature(syn, payload_empty, version);
        let signature = Evidence::new(
            name,
            subject,
            "signature",
            observed.as_str(),
            Confidence::Weak,
        );
        evidence.push(signature);

        let initial: u8 = match best {
            Some((sig, _)) => sig.initial_ttl,
            None => nearest_initial_ttl(syn.ttl),
        };
        let hops: u8 = if initial >= syn.ttl {
            initial - syn.ttl
        } else {
            0
        };
        let hops = text::decimal_string(hops as u64);
        let away = Evidence::new(name, subject, "distance", hops.as_str(), Confidence::Weak);
        evidence.push(away);
        assert(evidence_views(evidence@) =~= seq![signature@, away@]);

        if let Some((sig, score)) = best {
            let key = if text::same_str(sig.class.as_str(), "!") {
                "stack"
            } else {
                "os"
            };
            let matched = Evidence::new(
                name,
                subject,
                key,
                sig.label.as_str(),
                confidence_for(score),
            );
            evidence.push(matched);
            assert(evidence_views(evidence@) =~= seq![signature@, away@].push(matched@));
        }
        evidence
    }
}

impl SessionMethod for F0p {
    open spec fn declared(&self) -> ManifestView {
        self.manifest@
    }

    open spec fn outcome(&self, ctx: SessionContextView) -> Option<OutcomeView> {
        Some(
            fingerprint(
                self.manifest.name@,
                tcp_views(self.db.tcp_request@),
                http_views(self.db.http_request@),
                self.min_score as int,
                ctx,
            ),
        )
    }

    fn manifest(&self) -> (r: &MethodManifest) {
        &self.manifest
    }

    fn extract(&self, ctx: &SessionContext<'_>) -> (r: Result<Outcome, Error>) {
        if ctx.session.key.transport != Transport::Tcp {
            return Ok(Outcome::NotApplicable);
        }
        let observations = ctx.observations();
        let (syn, payload_empty) = match find_syn(&observations) {
            Some(found) => found,
            None => {
                return Ok(Outcome::NotApplicable);
            },
        };
        let subject = ctx.session.initiator;
        let mut evidence = self.claims_of_syn(subject, syn, payload_empty);
        let ghost of_syn = evidence_views(evidence@);

        if let Some(request) = find_request(&observations) {
            if let Some((sig, score)) = best_http_match(
                &self.db.http_request,
                &request,
                self.min_score,
            ) {
                let client = Evidence::new(
                    self.manifest.name.as_str(),
                    subject,
                    "client",
                    sig.label.as_str(),
                    confidence_for(score),
                );
                evidence.push(client);
                assert(evidence_views(evidence@) =~= of_syn + seq![client@]);
            }
        }
        assert(evidence_views(evidence@) =~= of_syn + http_claims(
            self.manifest.name@,
            subject,
            first_request(ctx@.observations()),
            http_views(self.db.http_request@),
            self.min_score as int,
        ));
        Ok(Outcome::settled_if(ctx.is_final, evidence))
    }
}

// ---------------------------------------------------------------------------
// Laws

/// The segment that is fingerprinted is the first whose stack characteristics were seen,
/// and where there is none, nothing is.
pub proof fn the_first_syn_counts(observations: Seq<ObservationView>, i: int)
    requires
        0 <= i <= observations.len(),
        forall|j: int| 0 <= j < i ==> (#[trigger] observations[j]).tcp is None,
        i < observations.len() ==> observations[i].tcp is Some,
    ensures
        i == observations.len() ==> syn_in(observations) is None,
        i < observations.len() ==> syn_in(observations) == Some(
            (observations[i].tcp->0, observations[i].payload == Seq::<u8>::empty()),
        ),
    decreases i,
{
    if i > 0 {
        let rest = observations.skip(1);
        assert forall|j: int| 0 <= j < i - 1 implies (#[trigger] rest[j]).tcp is None by {
            assert(rest[j] == observations[j + 1]);
        }
        assert(observations[0].tcp is None);
        the_first_syn_counts(rest, i - 1);
    }
    if i < observations.len() {
        assert((observations[i].payload.len() == 0) == (observations[i].payload
            =~= Seq::<u8>::empty()));
    }
}

/// The request that is matched is the first that is one.
pub proof fn the_first_request_counts(observations: Seq<ObservationView>, i: int)
    requires
        0 <= i <= observations.len(),
        forall|j: int| 0 <= j < i ==> read_request((#[trigger] observations[j]).payload) is None,
        i < observations.len() ==> read_request(observations[i].payload) is Some,
    ensures
        i == observations.len() ==> first_request(observations) is None,
        i < observations.len() ==> first_request(observations) == read_request(
            observations[i].payload,
        ),
    decreases i,
{
    if i > 0 {
        let rest = observations.skip(1);
        assert forall|j: int| 0 <= j < i - 1 implies read_request(
            (#[trigger] rest[j]).payload,
        ) is None by {
            assert(rest[j] == observations[j + 1]);
        }
        assert(read_request(observations[0].payload) is None);
        the_first_request_counts(rest, i - 1);
    }
}

/// The distance makes up for the hops: with the observed TTL it gives the TTL that the
/// segment was sent with, which is that of the signature that matches, or else the
/// smallest of 32, 64, 128 and 255 that is not below the observed one. A TTL above the
/// signature's is no distance away.
pub proof fn distance_and_ttl_make_the_initial_ttl(
    name: Seq<char>,
    subject: Endpoint,
    syn: TcpFeaturesView,
    payload_empty: bool,
    signatures: Seq<TcpSignatureView>,
    min: int,
) -> (d: nat)
    ensures
        ({
            let claims = tcp_claims(name, subject, syn, payload_empty, signatures, min);
            let version: u8 = if subject.addr is V4 {
                4
            } else {
                6
            };
            &&& claims.len() >= 2
            &&& claims[1].key == "distance"@
            &&& claims[1].value == decimal(d)
            &&& match best_tcp(signatures, syn, payload_empty, version, min) {
                Some(i) => if syn.ttl <= signatures[i].initial_ttl {
                    syn.ttl + d == signatures[i].initial_ttl
                } else {
                    d == 0
                },
                None => {
                    let initial = syn.ttl + d;
                    &&& initial == 32 || initial == 64 || initial == 128 || initial == 255
                    &&& syn.ttl > 32 ==> initial > 32
                    &&& syn.ttl > 64 ==> initial > 64
                    &&& syn.ttl > 128 ==> initial > 128
                    &&& syn.ttl <= 32 ==> initial == 32
                    &&& syn.ttl <= 64 ==> initial <= 64
                    &&& syn.ttl <= 128 ==> initial <= 128
                },
            }
        }),
{
    let best = match best_tcp(signatures, syn, payload_empty, ip_version(subject.addr), min) {
        Some(i) => Some(signatures[i]),
        None => None,
    };
    distance(syn.ttl, best)
}

/// What the SYN tells comes in order: its signature, the distance, and, where a
/// signature matches, what that signature names: the stack where its class is `!`, and
/// else the operating system, by the signature's label, as sure as its score makes it.
pub proof fn syns_tell_what_they_match(
    name: Seq<char>,
    subject: Endpoint,
    syn: TcpFeaturesView,
    payload_empty: bool,
    signatures: Seq<TcpSignatureView>,
    min: int,
)
    ensures
        ({
            let claims = tcp_claims(name, subject, syn, payload_empty, signatures, min);
            let version: u8 = if subject.addr is V4 {
                4
            } else {
                6
            };
            &&& claims[0].key == "signature"@
            &&& claims[0].value == signature_text(syn, payload_empty, version)
            &&& claims[0].confidence == Confidence::Weak
            &&& claims[1].confidence == Confidence::Weak
            &&& match best_tcp(signatures, syn, payload_empty, version, min) {
                Some(i) => {
                    let score = tcp_score(syn, payload_empty, version, signatures[i]);
                    &&& claims.len() == 3
                    &&& signatures[i].class == "!"@ ==> claims[2].key == "stack"@
                    &&& signatures[i].class != "!"@ ==> claims[2].key == "os"@
                    &&& claims[2].value == signatures[i].label
                    &&& claims[2].confidence == Confidence::Strong <==> 100 * score.matches >= 95
                        * score.checks
                    &&& claims[2].confidence == Confidence::Weak <==> 100 * score.matches < 85
                        * score.checks
                },
                None => claims.len() == 2,
            }
        }),
{
}

/// A request tells the client that the best signature names, and nothing where none
/// matches or there is no request.
pub proof fn requests_tell_the_client(
    name: Seq<char>,
    subject: Endpoint,
    request: RequestView,
    signatures: Seq<HttpSignatureView>,
    min: int,
)
    ensures
        http_claims(name, subject, None, signatures, min).len() == 0,
        ({
            let claims = http_claims(name, subject, Some(request), signatures, min);
            match best_http(signatures, request, min) {
                Some(i) => {
                    let score = http_score(request, signatures[i]);
                    &&& claims.len() == 1
                    &&& claims[0].key == "client"@
                    &&& claims[0].value == signatures[i].label
                    &&& claims[0].confidence == Confidence::Strong <==> 100 * score.matches >= 95
                        * score.checks
                    &&& claims[0].confidence == Confidence::Weak <==> 100 * score.matches < 85
                        * score.checks
                },
                None => claims.len() == 0,
            }
        }),
{
}

/// The method speaks of TCP sessions with a segment whose header was seen, and of no
/// others; it settles once the session is over, and not before. Everything it claims it
/// claims in its own name, of the endpoint that opened the session: first what the SYN
/// tells, and then what the request does.
pub proof fn fingerprints_are_of_the_initiator(
    name: Seq<char>,
    tcp: Seq<TcpSignatureView>,
    http: Seq<HttpSignatureView>,
    min: int,
    ctx: SessionContextView,
)
    ensures
        ({
            let outcome = fingerprint(name, tcp, http, min, ctx);
            let seen = exists|i: int|
                0 <= i < ctx.observations().len() && (
                #[trigger] ctx.observations()[i]).tcp is Some;
            let speaks = ctx.session.key.transport == Transport::Tcp && seen;
            let evidence = outcome.evidence();
            &&& outcome is NotApplicable <==> !speaks
            &&& outcome is Complete <==> speaks && ctx.is_final
            &&& outcome is Partial <==> speaks && !ctx.is_final
            &&& forall|k: int|
                0 <= k < evidence.len() ==> {
                    &&& (#[trigger] evidence[k]).method == name
                    &&& evidence[k].subject == ctx.session.initiator
                    &&& !evidence[k].provisional
                }
            &&& speaks ==> {
                let (syn, empty) = syn_in(ctx.observations())->0;
                evidence == tcp_claims(name, ctx.session.initiator, syn, empty, tcp, min)
                    + http_claims(
                    name,
                    ctx.session.initiator,
                    first_request(ctx.observations()),
                    http,
                    min,
                )
            }
        }),
{
    let all = ctx.observations();
    if exists|i: int| 0 <= i < all.len() && (#[trigger] all[i]).tcp is Some {
        let i = choose|i: int| 0 <= i < all.len() && (#[trigger] all[i]).tcp is Some;
        lemma_some_syn(all, i);
    } else {
        the_first_syn_counts(all, all.len() as int);
    }
}

proof fn lemma_some_syn(observations: Seq<ObservationView>, i: int)
    requires
        0 <= i < observations.len(),
        observations[i].tcp is Some,
    ensures
        syn_in(observations) is Some,
    decreases observations.len(),
{
    if observations[0].tcp is None {
        assert(observations.skip(1)[i - 1] == observations[i]);
        lemma_some_syn(observations.skip(1), i - 1);
    }
}

} // verus!
