//! Sessions: the observations of one conversation, and what methods made of
//! them.

use vstd::prelude::*;

use crate::observation::{Direction, Endpoint, Observation, ObservationView, Transport};
use crate::result::{ResultEntry, ResultView};
use crate::table::Key;
use crate::time::{Duration, Timestamp};

verus! {

/// How far a session has progressed. Later stages come later in the list, and
/// a stage is reached when the session stands at it or beyond it.
#[derive(Debug, Clone, Copy, PartialEq, Eq, Structural, PartialOrd, Ord)]
pub enum Stage {
    /// First packet seen; for TCP that is the SYN.
    Connect,
    /// Transport handshake complete.
    Established,
    /// TLS ClientHello observed.
    TlsClientHello,
    /// Application bytes flowing in either direction.
    AppData,
    /// Peer closed, or the timeout fired.
    Closed,
}

impl Stage {
    /// The stage's place in the list of stages.
    pub open spec fn rank(self) -> nat {
        match self {
            Stage::Connect => 0,
            Stage::Established => 1,
            Stage::TlsClientHello => 2,
            Stage::AppData => 3,
            Stage::Closed => 4,
        }
    }

    /// The later of two stages.
    pub open spec fn later_of(self, other: Stage) -> Stage {
        if other.rank() > self.rank() {
            other
        } else {
            self
        }
    }

    fn place(self) -> (r: u8)
        ensures
            r == self.rank(),
    {
        match self {
            Stage::Connect => 0,
            Stage::Established => 1,
            Stage::TlsClientHello => 2,
            Stage::AppData => 3,
            Stage::Closed => 4,
        }
    }
}

/// Canonical, direction-independent identity of a flow: the two endpoints are
/// sorted, so that both directions of a conversation have the same key.
#[derive(Debug, Clone, Copy, PartialEq, Eq, Structural, Hash)]
pub struct SessionKey {
    pub low: Endpoint,
    pub high: Endpoint,
    pub transport: Transport,
}

impl SessionKey {
    /// The key of the flow between `a` and `b`.
    pub open spec fn between(a: Endpoint, b: Endpoint, transport: Transport) -> SessionKey {
        if b.before(a) {
            SessionKey { low: b, high: a, transport }
        } else {
            SessionKey { low: a, high: b, transport }
        }
    }

    /// The key of the flow that an observation belongs to.
    pub open spec fn of_observation(observation: ObservationView) -> SessionKey {
        SessionKey::between(observation.source, observation.destination, observation.transport)
    }

    pub fn new(a: Endpoint, b: Endpoint, transport: Transport) -> (r: Self)
        ensures
            r == SessionKey::between(a, b, transport),
            !r.high.before(r.low),
    {
        proof {
            crate::observation::endpoints_are_ordered(a, b, a);
        }
        if b.is_before(&a) {
            SessionKey { low: b, high: a, transport }
        } else {
            SessionKey { low: a, high: b, transport }
        }
    }
}

/// Both directions of a conversation have the same key.
pub proof fn key_ignores_direction(a: Endpoint, b: Endpoint, transport: Transport)
    ensures
        SessionKey::between(a, b, transport) == SessionKey::between(b, a, transport),
{
    crate::observation::endpoints_are_ordered(a, b, a);
}

/// Two flows have the same key only when they run between the same endpoints
/// over the same transport.
pub proof fn key_identifies_the_flow(
    a: Endpoint,
    b: Endpoint,
    transport: Transport,
    c: Endpoint,
    d: Endpoint,
    other: Transport,
)
    requires
        SessionKey::between(a, b, transport) == SessionKey::between(c, d, other),
    ensures
        transport == other,
        (a == c && b == d) || (a == d && b == c),
{
}

/// Identity of one session over time. Once a session times out, the same flow
/// can open a new session under the same key; the time it opened tells the two
/// apart.
#[derive(Debug, Clone, Copy, PartialEq, Eq, Structural, Hash)]
pub struct SessionId {
    pub key: SessionKey,
    pub started_at: Timestamp,
}

impl View for SessionId {
    type V = SessionId;

    open spec fn view(&self) -> SessionId {
        *self
    }
}

impl Key for SessionId {
    fn same(&self, other: &Self) -> (r: bool) {
        self.key == other.key && self.started_at == other.started_at
    }
}

#[derive(Debug, Clone, Copy, PartialEq, Eq, Structural)]
pub enum SessionState {
    Active,
    /// Closed cleanly by a peer, or by the source running out.
    Closed,
    /// The inactivity timeout fired.
    TimedOut,
}

/// The unit of work handed to methods.
#[derive(Debug)]
pub struct Session {
    pub key: SessionKey,
    /// Whoever sent the first observation.
    pub initiator: Endpoint,
    pub started_at: Timestamp,
    pub last_seen_at: Timestamp,
    pub state: SessionState,
    /// Furthest stage reached; it never goes back.
    pub stage: Stage,
    /// Observations in arrival order.
    pub observations: Vec<Observation>,
    /// What methods reported, in the order in which they did. Append-only.
    pub results: Vec<ResultEntry>,
}

/// What a [`Session`] holds.
pub ghost struct SessionView {
    pub key: SessionKey,
    pub initiator: Endpoint,
    pub started_at: Timestamp,
    pub last_seen_at: Timestamp,
    pub state: SessionState,
    pub stage: Stage,
    pub observations: Seq<ObservationView>,
    pub results: Seq<ResultView>,
}

/// What a list of observations holds.
pub open spec fn observation_views(observations: Seq<Observation>) -> Seq<ObservationView> {
    Seq::new(observations.len(), |i: int| observations[i]@)
}

/// What a list of results holds.
pub open spec fn result_views(results: Seq<ResultEntry>) -> Seq<ResultView> {
    Seq::new(results.len(), |i: int| results[i]@)
}

impl View for Session {
    type V = SessionView;

    open spec fn view(&self) -> SessionView {
        SessionView {
            key: self.key,
            initiator: self.initiator,
            started_at: self.started_at,
            last_seen_at: self.last_seen_at,
            state: self.state,
            stage: self.stage,
            observations: observation_views(self.observations@),
            results: result_views(self.results@),
        }
    }
}

impl SessionView {
    /// A session that has seen one observation.
    pub open spec fn opened(first: ObservationView) -> SessionView {
        SessionView {
            key: SessionKey::of_observation(first),
            initiator: first.source,
            started_at: first.at,
            last_seen_at: first.at,
            state: SessionState::Active,
            stage: match first.stage_hint {
                Some(hint) => hint,
                None => Stage::Connect,
            },
            observations: seq![first],
            results: Seq::empty(),
        }
    }

    pub open spec fn id(self) -> SessionId {
        SessionId { key: self.key, started_at: self.started_at }
    }

    /// The session at `stage`, or where it was if that is further on.
    pub open spec fn advanced(self, stage: Stage) -> SessionView {
        SessionView { stage: self.stage.later_of(stage), ..self }
    }

    /// The session with one more observation.
    pub open spec fn grown(self, observation: ObservationView) -> SessionView {
        SessionView {
            last_seen_at: observation.at,
            stage: match observation.stage_hint {
                Some(hint) => self.stage.later_of(hint),
                None => self.stage,
            },
            observations: self.observations.push(observation),
            ..self
        }
    }

    /// The session with one more result.
    pub open spec fn reported(self, entry: ResultView) -> SessionView {
        SessionView { results: self.results.push(entry), ..self }
    }

    /// The session with more results.
    pub open spec fn reported_all(self, entries: Seq<ResultView>) -> SessionView {
        SessionView { results: self.results + entries, ..self }
    }

    /// Whether nothing has been seen of the session for `timeout` at `now`.
    pub open spec fn idle(self, now: Timestamp, timeout: Duration) -> bool {
        match now.since(self.last_seen_at) {
            Some(idle) => idle.nanos >= timeout.nanos,
            None => false,
        }
    }

    /// Whether nothing has been seen of the session for longer than `timeout` at `now`.
    pub open spec fn overdue(self, now: Timestamp, timeout: Duration) -> bool {
        match now.since(self.last_seen_at) {
            Some(idle) => idle.nanos > timeout.nanos,
            None => false,
        }
    }

    /// The observations that the initiator sent.
    pub open spec fn by_initiator(self) -> Seq<ObservationView> {
        self.observations.filter(|o: ObservationView| o.source == self.initiator)
    }
}

impl Session {
    /// A session that begins with `observation`.
    pub fn open(observation: Observation) -> (r: Self)
        ensures
            r@ == SessionView::opened(observation@),
            r.observations@ == seq![observation],
    {
        let key = SessionKey::new(
            observation.source,
            observation.destination,
            observation.transport,
        );
        let stage = match observation.stage_hint {
            Some(hint) => hint,
            None => Stage::Connect,
        };
        let initiator = observation.source;
        let at = observation.at;
        let mut observations: Vec<Observation> = Vec::new();
        observations.push(observation);
        let r = Session {
            key,
            initiator,
            started_at: at,
            last_seen_at: at,
            state: SessionState::Active,
            stage,
            observations,
            results: Vec::new(),
        };
        assert(r@.observations =~= seq![observation@]);
        assert(r@.results =~= Seq::empty());
        r
    }

    pub fn id(&self) -> (r: SessionId)
        ensures
            r == self@.id(),
    {
        SessionId { key: self.key, started_at: self.started_at }
    }

    /// Appends an observation. Returns whether it moved the session to a new
    /// stage.
    pub fn push(&mut self, observation: Observation) -> (r: bool)
        ensures
            final(self)@ == old(self)@.grown(observation@),
            final(self).observations@ == old(self).observations@.push(observation),
            final(self).results == old(self).results,
            r == (final(self).stage != old(self).stage),
    {
        self.last_seen_at = observation.at;
        let advanced = match observation.stage_hint {
            Some(hint) => self.advance(hint),
            None => false,
        };
        self.observations.push(observation);
        assert(self@.observations =~= old(self)@.observations.push(observation@));
        advanced
    }

    /// Moves the session forward to `stage`; stages never go back. Returns
    /// whether it moved.
    pub fn advance(&mut self, stage: Stage) -> (r: bool)
        ensures
            final(self)@ == old(self)@.advanced(stage),
            final(self).observations == old(self).observations,
            final(self).results == old(self).results,
            r == (stage.rank() > old(self).stage.rank()),
    {
        if stage.place() > self.stage.place() {
            self.stage = stage;
            true
        } else {
            false
        }
    }

    /// Whether the session stands at `stage` or beyond it.
    pub fn reached(&self, stage: Stage) -> (r: bool)
        ensures
            r == (self.stage.rank() >= stage.rank()),
    {
        self.stage.place() >= stage.place()
    }

    pub fn direction_of(&self, observation: &Observation) -> (r: Direction)
        ensures
            r == (if observation.source == self.initiator {
                Direction::ToResponder
            } else {
                Direction::ToInitiator
            }),
    {
        if observation.source == self.initiator {
            Direction::ToResponder
        } else {
            Direction::ToInitiator
        }
    }

    /// The observations that the initiator sent, in order.
    pub fn from_initiator(&self) -> (r: Vec<&Observation>)
        ensures
            observation_views(r@.unref()) == self@.by_initiator(),
    {
        let mut out: Vec<&Observation> = Vec::new();
        let mut i: usize = 0;
        let ghost sent = |o: ObservationView| o.source == self.initiator;
        assert(observation_views(out@.unref()) =~= self@.observations.take(0).filter(sent));
        while i < self.observations.len()
            invariant
                i <= self.observations@.len(),
                sent == (|o: ObservationView| o.source == self.initiator),
                observation_views(out@.unref()) == self@.observations.take(i as int).filter(sent),
            decreases self.observations@.len() - i,
        {
            let ghost before = self@.observations.take(i as int);
            assert(self@.observations.take(i + 1) =~= before.push(self.observations@[i as int]@));
            let ghost kept = out@;
            proof {
                before.lemma_filter_push(self.observations@[i as int]@, sent);
            }
            if self.observations[i].source == self.initiator {
                out.push(&self.observations[i]);
                assert(observation_views(out@.unref()) =~= observation_views(kept.unref()).push(
                    self.observations@[i as int]@,
                ));
            }
            i = i + 1;
        }
        assert(self@.observations.take(i as int) =~= self@.observations);
        out
    }

    /// Whether nothing has been seen of the session for `timeout` at `now`. A
    /// clock that ran backwards makes no session idle.
    pub fn is_idle_at(&self, now: Timestamp, timeout: Duration) -> (r: bool)
        ensures
            r == self@.idle(now, timeout),
    {
        match now.duration_since(self.last_seen_at) {
            Some(idle) => idle.nanos >= timeout.nanos,
            None => false,
        }
    }

    /// Whether nothing has been seen of the session for longer than `timeout` at `now`.
    pub fn is_overdue_at(&self, now: Timestamp, timeout: Duration) -> (r: bool)
        ensures
            r == self@.overdue(now, timeout),
    {
        match now.duration_since(self.last_seen_at) {
            Some(idle) => idle.nanos > timeout.nanos,
            None => false,
        }
    }

    /// Appends a result. Results are never edited or removed.
    pub fn append(&mut self, entry: ResultEntry)
        ensures
            final(self)@ == old(self)@.reported(entry@),
            final(self).results@ == old(self).results@.push(entry),
            final(self).observations == old(self).observations,
    {
        self.results.push(entry);
        assert(self@.results =~= old(self)@.results.push(entry@));
    }
}

impl Session {
    /// Appends results, in order.
    pub fn append_all(&mut self, entries: &Vec<ResultEntry>)
        ensures
            final(self)@ == old(self)@.reported_all(result_views(entries@)),
    {
        let ghost all = result_views(entries@);
        let mut i: usize = 0;
        assert(self@.results =~= old(self)@.results + all.take(0));
        while i < entries.len()
            invariant
                i <= entries@.len(),
                all == result_views(entries@),
                self@ == old(self)@.reported_all(all.take(i as int)),
            decreases entries@.len() - i,
        {
            let ghost before = self@.results;
            self.append(entries[i].clone());
            assert(self@.results =~= old(self)@.results + all.take(i + 1));
            i = i + 1;
        }
        assert(all.take(i as int) =~= all);
    }
}

impl Clone for Session {
    fn clone(&self) -> (r: Self)
        ensures
            r@ == self@,
    {
        let mut observations: Vec<Observation> = Vec::new();
        let mut i: usize = 0;
        while i < self.observations.len()
            invariant
                i <= self.observations@.len(),
                observation_views(observations@) == observation_views(
                    self.observations@,
                ).take(i as int),
            decreases self.observations@.len() - i,
        {
            let ghost before = observations@;
            observations.push(self.observations[i].clone());
            assert(observation_views(observations@) =~= observation_views(before).push(
                self.observations@[i as int]@,
            ));
            i = i + 1;
        }
        let mut results: Vec<ResultEntry> = Vec::new();
        let mut k: usize = 0;
        while k < self.results.len()
            invariant
                k <= self.results@.len(),
                result_views(results@) == result_views(self.results@).take(k as int),
            decreases self.results@.len() - k,
        {
            let ghost before = results@;
            results.push(self.results[k].clone());
            assert(result_views(results@) =~= result_views(before).push(self.results@[k as int]@));
            k = k + 1;
        }
        let r = Session {
            key: self.key,
            initiator: self.initiator,
            started_at: self.started_at,
            last_seen_at: self.last_seen_at,
            state: self.state,
            stage: self.stage,
            observations,
            results,
        };
        assert(r@.observations =~= self@.observations);
        assert(r@.results =~= self@.results);
        r
    }
}

/// Whatever is done to a session, its stage never goes back.
pub proof fn stages_only_move_forward(
    session: SessionView,
    stage: Stage,
    observation: ObservationView,
    entry: ResultView,
)
    ensures
        session.advanced(stage).stage.rank() >= session.stage.rank(),
        session.advanced(stage).stage.rank() >= stage.rank(),
        session.grown(observation).stage.rank() >= session.stage.rank(),
        session.reported(entry).stage == session.stage,
{
}

/// Whatever is done to a session, the results it had stay where they were.
pub proof fn results_are_append_only(
    session: SessionView,
    stage: Stage,
    observation: ObservationView,
    entry: ResultView,
)
    ensures
        session.advanced(stage).results == session.results,
        session.grown(observation).results == session.results,
        session.reported(entry).results.drop_last() == session.results,
        session.reported(entry).results.last() == entry,
{
    assert(session.reported(entry).results.drop_last() =~= session.results);
}

/// A session keeps its identity and its initiator for as long as it lives.
pub proof fn identity_is_kept(
    session: SessionView,
    stage: Stage,
    observation: ObservationView,
    entry: ResultView,
)
    ensures
        session.advanced(stage).id() == session.id(),
        session.grown(observation).id() == session.id(),
        session.reported(entry).id() == session.id(),
        session.advanced(stage).initiator == session.initiator,
        session.grown(observation).initiator == session.initiator,
        session.reported(entry).initiator == session.initiator,
{
}

/// A session that is idle stays idle until something is seen of it again, and is
/// overdue as soon as any more time has passed.
pub proof fn idleness_lasts(
    session: SessionView,
    now: Timestamp,
    later: Timestamp,
    timeout: Duration,
)
    requires
        session.idle(now, timeout),
        later.nanos >= now.nanos,
    ensures
        session.idle(later, timeout),
        later.nanos > now.nanos ==> session.overdue(later, timeout),
        session.overdue(now, timeout) ==> session.overdue(later, timeout),
{
}

/// Stages come in this order: connected, established, a TLS ClientHello, application data,
/// closed.
pub proof fn stages_come_in_order(stage: Stage)
    ensures
        Stage::Connect.rank() < Stage::Established.rank() < Stage::TlsClientHello.rank()
            < Stage::AppData.rank() < Stage::Closed.rank(),
        stage.rank() <= Stage::Closed.rank(),
{
}

/// A key has the smaller of its two endpoints first.
pub proof fn keys_have_the_smaller_endpoint_first(a: Endpoint, b: Endpoint, transport: Transport)
    ensures
        ({
            let key = SessionKey::between(a, b, transport);
            &&& key.transport == transport
            &&& a.before(b) ==> key.low == a && key.high == b
            &&& b.before(a) ==> key.low == b && key.high == a
            &&& a == b ==> key.low == a && key.high == a
        }),
{
    crate::observation::endpoints_are_ordered(a, b, a);
}

/// A session begins with its first observation: that opens it, at that time, by whoever
/// sent it, at the stage that the source hints at.
pub proof fn sessions_begin_with_their_first_observation(first: ObservationView)
    ensures
        ({
            let s = SessionView::opened(first);
            &&& s.key == SessionKey::between(first.source, first.destination, first.transport)
            &&& s.initiator == first.source
            &&& s.started_at == first.at
            &&& s.last_seen_at == first.at
            &&& s.state == SessionState::Active
            &&& first.stage_hint is None ==> s.stage == Stage::Connect
            &&& first.stage_hint matches Some(hint) ==> s.stage == hint
            &&& s.observations == seq![first]
            &&& s.results.len() == 0
            &&& s.id().key == s.key && s.id().started_at == first.at
        }),
{
}

/// An observation adds itself at the end, moves the time that the session was last seen,
/// and may move its stage forward to the one hinted at; nothing else changes.
pub proof fn observations_add_themselves(session: SessionView, observation: ObservationView)
    ensures
        ({
            let s = session.grown(observation);
            &&& s.observations.len() == session.observations.len() + 1
            &&& s.observations.last() == observation
            &&& s.observations.drop_last() == session.observations
            &&& s.last_seen_at == observation.at
            &&& s.started_at == session.started_at
            &&& s.key == session.key
            &&& s.initiator == session.initiator
            &&& s.state == session.state
            &&& s.results == session.results
            &&& observation.stage_hint is None ==> s.stage == session.stage
            &&& observation.stage_hint matches Some(hint) ==> {
                &&& hint.rank() > session.stage.rank() ==> s.stage == hint
                &&& hint.rank() <= session.stage.rank() ==> s.stage == session.stage
            }
        }),
{
    assert(session.grown(observation).observations.drop_last() =~= session.observations);
}

/// Advancing a session moves it to the stage where that is later, and changes nothing
/// else.
pub proof fn advancing_moves_the_stage_only(session: SessionView, stage: Stage)
    ensures
        ({
            let s = session.advanced(stage);
            &&& stage.rank() > session.stage.rank() ==> s.stage == stage
            &&& stage.rank() <= session.stage.rank() ==> s == session
            &&& s == (SessionView { stage: s.stage, ..session })
        }),
{
}

/// A session is idle from the moment on that its timeout has passed since it was last
/// seen, and overdue from the next. Before it was seen it is neither.
pub proof fn idleness_is_counted_from_the_last_sight(
    session: SessionView,
    now: Timestamp,
    timeout: Duration,
)
    ensures
        session.idle(now, timeout) <==> now.nanos >= session.last_seen_at.nanos + timeout.nanos,
        session.overdue(now, timeout) <==> now.nanos > session.last_seen_at.nanos + timeout.nanos,
{
}

/// What the initiator sent is every observation with its endpoint as the source, in order,
/// and no other.
pub proof fn the_initiator_is_told_by_its_endpoint(
    session: SessionView,
    observation: ObservationView,
    first: ObservationView,
)
    ensures
        SessionView::opened(first).by_initiator() == seq![first],
        observation.source == session.initiator ==> session.grown(observation).by_initiator()
            == session.by_initiator().push(observation),
        observation.source != session.initiator ==> session.grown(observation).by_initiator()
            == session.by_initiator(),
{
    let sent = |o: ObservationView| o.source == session.initiator;
    session.observations.lemma_filter_push(observation, sent);
    let none = Seq::<ObservationView>::empty();
    let opened = |o: ObservationView| o.source == first.source;
    none.lemma_filter_push(first, opened);
    assert(none.filter(opened) =~= none) by {
        reveal(Seq::filter);
    }
    assert(none.push(first) =~= seq![first]);
    assert(none.push(first) =~= SessionView::opened(first).observations);
}

} // verus!
