//! The dispatch engine: packets in, results out.
//!
//! Every packet joins its session and is classified into events, and each method
//! that listens for one of them is fired. As methods report, their results are
//! appended to the session and published. When a session ends, the engine first
//! waits for every method it still has out, then fires those that listen for the
//! end, and only once these have reported too does it publish the session.
//!
//! The engine decides; whoever drives it runs the methods. Each call gives back a
//! [`Step`]: the methods to run now, and what to publish.

use vstd::prelude::*;

use crate::classifier::{classify, events_of};
use crate::correlator::{
    distinct_keys, ended, ingested, keys_stay_distinct, lemma_place, lemma_still_open_distinct,
    moved_by, open_session, overdue_sessions_are_not_revived, session_at, session_views,
    still_open, timed_out, timed_out_at, Assembler,
};
use crate::observation::{Endpoint, Observation, ObservationView};
use crate::result::{declared_only, FieldDeclaration, Fields, ResultEntry, ResultView};
use crate::session::{result_views, Session, SessionId, SessionKey, SessionView};
use crate::table::{lemma_map_values, map_of, viewed, Table};
use crate::text::copy_of;
use crate::time::{Duration, Timestamp};
use crate::trigger::TriggerEvent;
use crate::update::{update_views, Update, UpdateView};
use crate::correlator::{lemma_place_unique, observations_join_their_flow};

verus! {

// ---------------------------------------------------------------------------
// What the engine asks for

/// Methods to run on one event.
#[derive(Debug)]
pub struct Firing {
    pub trigger: TriggerEvent,
    /// By their place in the list of methods.
    pub methods: Vec<usize>,
    /// The session as it is now.
    pub session: Session,
    /// The packet that raised the event, by its place in the session. `None` for
    /// session events.
    pub packet: Option<usize>,
}

/// What a [`Firing`] holds.
pub ghost struct FiringView {
    pub trigger: TriggerEvent,
    pub methods: Seq<usize>,
    pub session: SessionView,
    pub packet: Option<usize>,
}

impl View for Firing {
    type V = FiringView;

    open spec fn view(&self) -> FiringView {
        FiringView {
            trigger: self.trigger,
            methods: self.methods@,
            session: self.session@,
            packet: self.packet,
        }
    }
}

impl FiringView {
    /// When a result of this firing is dated: at the packet that raised the event, or
    /// at the session's last packet for a session event.
    pub open spec fn at(self) -> Timestamp {
        match self.packet {
            Some(i) => self.session.observations[i as int].at,
            None => self.session.last_seen_at,
        }
    }
}

impl Firing {
    /// The results of one of the methods: an entry for each set of fields that it
    /// found, without those that it does not declare.
    pub fn entries(
        &self,
        method: &str,
        schema: &Vec<FieldDeclaration>,
        found: Vec<Fields>,
    ) -> (r: Vec<ResultEntry>)
        requires
            self.packet matches Some(i) ==> i < self@.session.observations.len(),
        ensures
            r@.len() == found@.len(),
            forall|i: int|
                0 <= i < r@.len() ==> {
                    &&& (#[trigger] r@[i]).method@ == method@
                    &&& r@[i].trigger == self.trigger
                    &&& r@[i].timestamp == self@.at()
                    &&& r@[i].fields@ == declared_only(schema@, found@[i]@)
                },
    {
        let at = match self.packet {
            Some(i) => {
                assert(self@.session.observations[i as int] == self.session.observations@[i as int]@);
                self.session.observations[i].at
            },
            None => self.session.last_seen_at,
        };
        let ghost given = found@;
        let mut out: Vec<ResultEntry> = Vec::new();
        for fields in it: found.into_iter()
            invariant
                it.seq() == given,
                out@.len() == it.index(),
                at == self@.at(),
                forall|i: int|
                    0 <= i < out@.len() ==> {
                        &&& (#[trigger] out@[i]).method@ == method@
                        &&& out@[i].trigger == self.trigger
                        &&& out@[i].timestamp == self@.at()
                        &&& out@[i].fields@ == declared_only(schema@, given[i]@)
                    },
        {
            out.push(
                ResultEntry {
                    method: copy_of(method),
                    trigger: self.trigger,
                    timestamp: at,
                    fields: fields.declared_in(schema),
                },
            );
        }
        out
    }
}

pub open spec fn firing_views(list: Seq<Firing>) -> Seq<FiringView> {
    Seq::new(list.len(), |i: int| list[i]@)
}

/// What is to be done now: the methods to run, and what to publish, each in order.
#[derive(Debug)]
pub struct Step {
    pub firings: Vec<Firing>,
    pub updates: Vec<Update>,
}

/// What a [`Step`] holds.
pub ghost struct StepView {
    pub firings: Seq<FiringView>,
    pub updates: Seq<UpdateView>,
}

impl View for Step {
    type V = StepView;

    open spec fn view(&self) -> StepView {
        StepView {
            firings: firing_views(self.firings@),
            updates: update_views(self.updates@),
        }
    }
}

impl StepView {
    pub open spec fn nothing() -> StepView {
        StepView { firings: Seq::empty(), updates: Seq::empty() }
    }

    pub open spec fn followed_by(self, more: StepView) -> StepView {
        StepView { firings: self.firings + more.firings, updates: self.updates + more.updates }
    }
}

impl Step {
    fn nothing() -> (r: Self)
        ensures
            r@ == StepView::nothing(),
    {
        let r = Step { firings: Vec::new(), updates: Vec::new() };
        assert(r@.firings =~= Seq::empty());
        assert(r@.updates =~= Seq::empty());
        r
    }
}

/// A method that was run has reported.
#[derive(Debug)]
pub struct Done {
    pub session: SessionId,
    pub results: Vec<ResultEntry>,
}

// ---------------------------------------------------------------------------
// The engine's state

/// A session that is over but not yet published.
#[derive(Debug)]
pub struct Closing {
    pub session: Session,
    /// The methods that listen for its end have been fired.
    pub ended: bool,
}

/// What a [`Closing`] holds.
pub ghost struct ClosingView {
    pub session: SessionView,
    pub ended: bool,
}

impl View for Closing {
    type V = ClosingView;

    open spec fn view(&self) -> ClosingView {
        ClosingView { session: self.session@, ended: self.ended }
    }
}

/// What an [`Engine`] holds.
pub ghost struct EngineView {
    /// The events that each method listens for.
    pub listeners: Seq<Seq<TriggerEvent>>,
    /// How long a session may be quiet.
    pub timeout: Duration,
    /// The sessions that are open.
    pub sessions: Seq<SessionView>,
    /// How many methods have yet to report, for each session that has any.
    pub in_flight: Map<SessionId, nat>,
    /// The sessions that are over but not yet published.
    pub closing: Map<SessionId, ClosingView>,
}

/// The first `n` methods that listen for an event.
pub open spec fn listening_among(
    listeners: Seq<Seq<TriggerEvent>>,
    trigger: TriggerEvent,
    n: int,
) -> Seq<usize>
    decreases n,
{
    if n <= 0 {
        Seq::empty()
    } else if listeners[n - 1].contains(trigger) {
        listening_among(listeners, trigger, n - 1).push((n - 1) as usize)
    } else {
        listening_among(listeners, trigger, n - 1)
    }
}

impl EngineView {
    /// The methods that listen for an event, in order.
    pub open spec fn listening(self, trigger: TriggerEvent) -> Seq<usize> {
        listening_among(self.listeners, trigger, self.listeners.len() as int)
    }

    /// How many methods a session waits for.
    pub open spec fn outstanding(self, id: SessionId) -> nat {
        if self.in_flight.contains_key(id) {
            self.in_flight[id]
        } else {
            0
        }
    }

    /// Fires every method that listens for `trigger`.
    pub open spec fn fire(
        self,
        trigger: TriggerEvent,
        session: SessionView,
        packet: Option<usize>,
    ) -> (EngineView, StepView) {
        let methods = self.listening(trigger);
        if methods.len() == 0 {
            (self, StepView::nothing())
        } else {
            (
                EngineView {
                    in_flight: self.in_flight.insert(
                        session.id(),
                        self.outstanding(session.id()) + methods.len(),
                    ),
                    ..self
                },
                StepView {
                    firings: seq![FiringView { trigger, methods, session, packet }],
                    updates: Seq::empty(),
                },
            )
        }
    }

    /// Fires the methods for several events, one after the other.
    pub open spec fn fire_all(
        self,
        events: Seq<TriggerEvent>,
        session: SessionView,
        packet: Option<usize>,
    ) -> (EngineView, StepView)
        decreases events.len(),
    {
        if events.len() == 0 {
            (self, StepView::nothing())
        } else {
            let (before, step) = self.fire_all(events.drop_last(), session, packet);
            let (after, more) = before.fire(events.last(), session, packet);
            (after, step.followed_by(more))
        }
    }

    /// Brings a closing session as far as it can go: while methods are out, it
    /// waits; once none is, those that listen for its end are fired; and once
    /// there are no such methods left to wait for, it is published.
    pub open spec fn try_finalize(self, id: SessionId) -> (EngineView, StepView) {
        if self.in_flight.contains_key(id) || !self.closing.contains_key(id) {
            (self, StepView::nothing())
        } else {
            let closing = self.closing[id];
            if !closing.ended && self.listening(TriggerEvent::SessionEnd).len() > 0 {
                EngineView {
                    closing: self.closing.insert(id, ClosingView { ended: true, ..closing }),
                    ..self
                }.fire(TriggerEvent::SessionEnd, closing.session, None)
            } else {
                (
                    EngineView { closing: self.closing.remove(id), ..self },
                    StepView {
                        firings: Seq::empty(),
                        updates: seq![UpdateView::Finalized(closing.session)],
                    },
                )
            }
        }
    }

    /// Takes a session that is over.
    pub open spec fn close(self, session: SessionView) -> (EngineView, StepView) {
        EngineView {
            closing: self.closing.insert(session.id(), ClosingView { session, ended: false }),
            ..self
        }.try_finalize(session.id())
    }

    pub open spec fn close_all(self, sessions: Seq<SessionView>) -> (EngineView, StepView)
        decreases sessions.len(),
    {
        if sessions.len() == 0 {
            (self, StepView::nothing())
        } else {
            let (before, step) = self.close_all(sessions.drop_last());
            let (after, more) = before.close(sessions.last());
            (after, step.followed_by(more))
        }
    }

    /// Takes in a packet. The sessions that are overdue at its time end first, so that
    /// it joins none of them.
    pub open spec fn ingest(self, observation: ObservationView) -> (EngineView, StepView) {
        let now = observation.at;
        let left = still_open(self.sessions, now, self.timeout);
        let (closed, step) = EngineView { sessions: left, ..self }.close_all(
            timed_out_at(self.sessions, now, self.timeout),
        );
        let sessions = ingested(left, observation);
        let session = session_at(sessions, SessionKey::of_observation(observation))->0;
        let (after, more) = EngineView { sessions, ..closed }.fire_all(
            events_of(observation),
            session,
            Some((session.observations.len() - 1) as usize),
        );
        (after, step.followed_by(more))
    }

    /// Ends every session.
    pub open spec fn finish(self) -> (EngineView, StepView) {
        EngineView { sessions: Seq::empty(), ..self }.close_all(
            self.sessions.map_values(|s: SessionView| ended(s)),
        )
    }

    /// One method less to wait for.
    pub open spec fn one_less(self, id: SessionId) -> EngineView {
        if !self.in_flight.contains_key(id) {
            self
        } else if self.in_flight[id] <= 1 {
            EngineView { in_flight: self.in_flight.remove(id), ..self }
        } else {
            EngineView {
                in_flight: self.in_flight.insert(id, (self.in_flight[id] - 1) as nat),
                ..self
            }
        }
    }

    /// Results appended to the session of that identity: one that is closing, or
    /// else an open one.
    pub open spec fn appended(self, id: SessionId, results: Seq<ResultView>) -> EngineView {
        if self.closing.contains_key(id) {
            let closing = self.closing[id];
            EngineView {
                closing: self.closing.insert(
                    id,
                    ClosingView { session: closing.session.reported_all(results), ..closing },
                ),
                ..self
            }
        } else {
            match open_session(self.sessions, id) {
                Some(i) => EngineView {
                    sessions: self.sessions.update(i, self.sessions[i].reported_all(results)),
                    ..self
                },
                None => self,
            }
        }
    }

    /// Who opened the session of that identity; the lower end of its flow where it
    /// is not known.
    pub open spec fn initiator_of(self, id: SessionId) -> Endpoint {
        if self.closing.contains_key(id) {
            self.closing[id].session.initiator
        } else {
            match open_session(self.sessions, id) {
                Some(i) => self.sessions[i].initiator,
                None => id.key.low,
            }
        }
    }

    /// Takes in what a method reported.
    pub open spec fn complete(self, id: SessionId, results: Seq<ResultView>) -> (
        EngineView,
        StepView,
    ) {
        let initiator = self.initiator_of(id);
        let published = StepView {
            firings: Seq::empty(),
            updates: results.map_values(
                |entry: ResultView| UpdateView::Result { session: id, initiator, entry },
            ),
        };
        let (after, more) = self.one_less(id).appended(id, results).try_finalize(id);
        (after, published.followed_by(more))
    }

    /// What holds between any two steps, with an exception for one session: open
    /// sessions have distinct keys, a session that is waited for has methods out,
    /// and a session that is over waits for some method.
    pub open spec fn sound_but(self, exception: Option<SessionId>) -> bool {
        &&& distinct_keys(self.sessions)
        &&& forall|id: SessionId| #[trigger]
            self.in_flight.contains_key(id) ==> self.in_flight[id] > 0
        &&& forall|id: SessionId| #[trigger]
            self.closing.contains_key(id) ==> self.closing[id].session.id() == id && (
            self.in_flight.contains_key(id) || exception == Some(id))
    }

    pub open spec fn sound(self) -> bool {
        self.sound_but(None)
    }
}

// ---------------------------------------------------------------------------
// What every step keeps

proof fn lemma_fire_keeps(
    e: EngineView,
    trigger: TriggerEvent,
    session: SessionView,
    packet: Option<usize>,
    exception: Option<SessionId>,
)
    requires
        e.sound_but(exception),
    ensures
        e.fire(trigger, session, packet).0.sound_but(exception),
        e.fire(trigger, session, packet).0.sessions == e.sessions,
        e.fire(trigger, session, packet).0.closing == e.closing,
        e.fire(trigger, session, packet).0.listeners == e.listeners,
        e.fire(trigger, session, packet).0.timeout == e.timeout,
        exception == Some(session.id()) && e.listening(trigger).len() > 0 ==> e.fire(
            trigger,
            session,
            packet,
        ).0.sound(),
{
    let after = e.fire(trigger, session, packet).0;
    assert forall|id: SessionId| #[trigger] after.in_flight.contains_key(id) implies
        after.in_flight[id] > 0 by {
        if id != session.id() {
            assert(e.in_flight.contains_key(id));
        }
    }
    assert forall|id: SessionId| #[trigger] after.closing.contains_key(id) implies {
        &&& after.closing[id].session.id() == id
        &&& after.in_flight.contains_key(id) || exception == Some(id)
    } by {
        assert(e.closing.contains_key(id));
    }
}

proof fn lemma_fire_all_keeps(
    e: EngineView,
    events: Seq<TriggerEvent>,
    session: SessionView,
    packet: Option<usize>,
)
    requires
        e.sound(),
    ensures
        e.fire_all(events, session, packet).0.sound(),
        e.fire_all(events, session, packet).0.sessions == e.sessions,
        e.fire_all(events, session, packet).0.closing == e.closing,
        e.fire_all(events, session, packet).0.listeners == e.listeners,
        e.fire_all(events, session, packet).0.timeout == e.timeout,
    decreases events.len(),
{
    if events.len() > 0 {
        lemma_fire_all_keeps(e, events.drop_last(), session, packet);
        let before = e.fire_all(events.drop_last(), session, packet).0;
        lemma_fire_keeps(before, events.last(), session, packet, None);
    }
}

proof fn lemma_finalize_keeps(e: EngineView, id: SessionId)
    requires
        e.sound_but(Some(id)),
    ensures
        e.try_finalize(id).0.sound(),
        e.try_finalize(id).0.sessions == e.sessions,
        e.try_finalize(id).0.listeners == e.listeners,
        e.try_finalize(id).0.timeout == e.timeout,
{
    let after = e.try_finalize(id).0;
    if e.in_flight.contains_key(id) || !e.closing.contains_key(id) {
        assert forall|i: SessionId| #[trigger] after.closing.contains_key(i) implies
            after.in_flight.contains_key(i) by {
            assert(e.closing.contains_key(i));
        }
    } else {
        let closing = e.closing[id];
        if !closing.ended && e.listening(TriggerEvent::SessionEnd).len() > 0 {
            let marked = EngineView {
                closing: e.closing.insert(id, ClosingView { ended: true, ..closing }),
                ..e
            };
            assert forall|i: SessionId| #[trigger] marked.closing.contains_key(i) implies {
                &&& marked.closing[i].session.id() == i
                &&& marked.in_flight.contains_key(i) || i == id
            } by {
                assert(e.closing.contains_key(i));
            }
            lemma_fire_keeps(
                marked,
                TriggerEvent::SessionEnd,
                closing.session,
                None,
                Some(id),
            );
        } else {
            assert forall|i: SessionId| #[trigger] after.closing.contains_key(i) implies {
                &&& after.closing[i].session.id() == i
                &&& after.in_flight.contains_key(i)
            } by {
                assert(e.closing.contains_key(i));
            }
        }
    }
}

proof fn lemma_close_keeps(e: EngineView, session: SessionView)
    requires
        e.sound(),
    ensures
        e.close(session).0.sound(),
        e.close(session).0.sessions == e.sessions,
        e.close(session).0.listeners == e.listeners,
        e.close(session).0.timeout == e.timeout,
{
    let id = session.id();
    let taken = EngineView {
        closing: e.closing.insert(id, ClosingView { session, ended: false }),
        ..e
    };
    assert forall|i: SessionId| #[trigger] taken.closing.contains_key(i) implies {
        &&& taken.closing[i].session.id() == i
        &&& taken.in_flight.contains_key(i) || i == id
    } by {
        if i != id {
            assert(e.closing.contains_key(i));
        }
    }
    lemma_finalize_keeps(taken, id);
}

proof fn lemma_close_all_keeps(e: EngineView, sessions: Seq<SessionView>)
    requires
        e.sound(),
    ensures
        e.close_all(sessions).0.sound(),
        e.close_all(sessions).0.sessions == e.sessions,
        e.close_all(sessions).0.listeners == e.listeners,
        e.close_all(sessions).0.timeout == e.timeout,
    decreases sessions.len(),
{
    if sessions.len() > 0 {
        lemma_close_all_keeps(e, sessions.drop_last());
        lemma_close_keeps(e.close_all(sessions.drop_last()).0, sessions.last());
    }
}

/// Taking in a packet keeps the engine sound.
pub proof fn ingest_keeps_sound(e: EngineView, observation: ObservationView)
    requires
        e.sound(),
    ensures
        e.ingest(observation).0.sound(),
        e.ingest(observation).0.sessions == ingested(
            still_open(e.sessions, observation.at, e.timeout),
            observation,
        ),
{
    let now = observation.at;
    let left = still_open(e.sessions, now, e.timeout);
    let quiet = timed_out_at(e.sessions, now, e.timeout);
    lemma_still_open_distinct(e.sessions, now, e.timeout);
    keys_stay_distinct(left, observation);
    let kept = EngineView { sessions: left, ..e };
    assert(kept.sound());
    lemma_close_all_keeps(kept, quiet);
    let sessions = ingested(left, observation);
    let session = session_at(sessions, SessionKey::of_observation(observation))->0;
    let packet = Some((session.observations.len() - 1) as usize);
    let grown = EngineView { sessions, ..kept.close_all(quiet).0 };
    assert(grown.sound());
    lemma_fire_all_keeps(grown, events_of(observation), session, packet);
}

/// Taking in what a method reported keeps the engine sound.
pub proof fn complete_keeps_sound(e: EngineView, id: SessionId, results: Seq<ResultView>)
    requires
        e.sound(),
    ensures
        e.complete(id, results).0.sound(),
{
    let less = e.one_less(id);
    assert(less.sound_but(Some(id))) by {
        assert forall|i: SessionId| #[trigger] less.in_flight.contains_key(i) implies
            less.in_flight[i] > 0 by {
            assert(e.in_flight.contains_key(i));
        }
        assert forall|i: SessionId| #[trigger] less.closing.contains_key(i) implies {
            &&& less.closing[i].session.id() == i
            &&& less.in_flight.contains_key(i) || i == id
        } by {
            assert(e.closing.contains_key(i));
            assert(e.in_flight.contains_key(i));
        }
    }
    let told = less.appended(id, results);
    lemma_place(less.sessions, id.key);
    assert(told.sound_but(Some(id))) by {
        assert forall|i: SessionId| #[trigger] told.closing.contains_key(i) implies {
            &&& told.closing[i].session.id() == i
            &&& told.in_flight.contains_key(i) || i == id
        } by {
            assert(less.closing.contains_key(i));
        }
        assert forall|a: int, b: int| 0 <= a < b < told.sessions.len() implies (
        #[trigger] told.sessions[a]).key != (#[trigger] told.sessions[b]).key by {
            assert(less.sessions[a].key != less.sessions[b].key);
        }
    }
    lemma_finalize_keeps(told, id);
}

/// Ending every session keeps the engine sound.
pub proof fn finish_keeps_sound(e: EngineView)
    requires
        e.sound(),
    ensures
        e.finish().0.sound(),
        e.finish().0.sessions.len() == 0,
{
    lemma_close_all_keeps(
        EngineView { sessions: Seq::empty(), ..e },
        e.sessions.map_values(|s: SessionView| ended(s)),
    );
}

// ---------------------------------------------------------------------------
// Laws

/// A packet never joins a session that is overdue at its time: it opens a new one under
/// the same key, and the old one is over, as timed out.
pub proof fn packets_revive_no_session(e: EngineView, observation: ObservationView)
    requires
        e.sound(),
        session_at(e.sessions, SessionKey::of_observation(observation)) matches Some(known)
            && known.overdue(observation.at, e.timeout),
    ensures
        ({
            let key = SessionKey::of_observation(observation);
            let known = session_at(e.sessions, key)->0;
            &&& session_at(e.ingest(observation).0.sessions, key) == Some(
                moved_by(SessionView::opened(observation), observation.payload),
            )
            &&& timed_out_at(e.sessions, observation.at, e.timeout).contains(timed_out(known))
        }),
{
    ingest_keeps_sound(e, observation);
    overdue_sessions_are_not_revived(e.sessions, observation, e.timeout);
}

/// The calls of a step that are given a packet.
pub open spec fn on_packets(firings: Seq<FiringView>) -> Seq<FiringView> {
    firings.filter(|firing: FiringView| firing.packet is Some)
}

/// One call for each event that methods listen for, in order.
pub open spec fn calls_for(
    listeners: Seq<Seq<TriggerEvent>>,
    events: Seq<TriggerEvent>,
    session: SessionView,
    packet: Option<usize>,
) -> Seq<FiringView> {
    events.filter(
        |trigger: TriggerEvent|
            listening_among(listeners, trigger, listeners.len() as int).len() > 0,
    ).map_values(
        |trigger: TriggerEvent|
            FiringView {
                trigger,
                methods: listening_among(listeners, trigger, listeners.len() as int),
                session,
                packet,
            },
    )
}

proof fn lemma_fire_all_calls(
    e: EngineView,
    events: Seq<TriggerEvent>,
    session: SessionView,
    packet: Option<usize>,
)
    ensures
        e.fire_all(events, session, packet).0.listeners == e.listeners,
        e.fire_all(events, session, packet).1.firings == calls_for(
            e.listeners,
            events,
            session,
            packet,
        ),
    decreases events.len(),
{
    let heard = |trigger: TriggerEvent|
        listening_among(e.listeners, trigger, e.listeners.len() as int).len() > 0;
    let calls = calls_for(e.listeners, events, session, packet);
    if events.len() == 0 {
        reveal(Seq::filter);
        assert(calls =~= Seq::empty());
    } else {
        let (head, last) = (events.drop_last(), events.last());
        lemma_fire_all_calls(e, head, session, packet);
        assert(events =~= head.push(last));
        head.lemma_filter_push(last, heard);
        let before = e.fire_all(head, session, packet).0;
        assert(calls =~= calls_for(e.listeners, head, session, packet)
            + before.fire(last, session, packet).1.firings);
    }
}

/// The end of a session hands out no packet.
proof fn lemma_close_all_calls(e: EngineView, sessions: Seq<SessionView>)
    ensures
        e.close_all(sessions).0.listeners == e.listeners,
        forall|k: int|
            0 <= k < e.close_all(sessions).1.firings.len() ==> (
            #[trigger] e.close_all(sessions).1.firings[k]).packet is None,
    decreases sessions.len(),
{
    if sessions.len() > 0 {
        lemma_close_all_calls(e, sessions.drop_last());
    }
}

proof fn lemma_on_packets(firings: Seq<FiringView>)
    ensures
        (forall|k: int| 0 <= k < firings.len() ==> (#[trigger] firings[k]).packet is None)
            ==> on_packets(firings).len() == 0,
        (forall|k: int| 0 <= k < firings.len() ==> (#[trigger] firings[k]).packet is Some)
            ==> on_packets(firings) == firings,
    decreases firings.len(),
{
    if firings.len() == 0 {
        reveal(Seq::filter);
        assert(on_packets(firings) =~= firings);
    } else {
        let (head, last) = (firings.drop_last(), firings.last());
        lemma_on_packets(head);
        assert(firings =~= head.push(last));
        head.lemma_filter_push(last, |firing: FiringView| firing.packet is Some);
        assert(forall|k: int| 0 <= k < head.len() ==> (#[trigger] head[k]) == firings[k]);
        assert(last == firings[firings.len() - 1]);
    }
}

/// Ends, and then the calls for one packet.
proof fn lemma_calls_after_ends(
    ends: Seq<FiringView>,
    listeners: Seq<Seq<TriggerEvent>>,
    events: Seq<TriggerEvent>,
    session: SessionView,
    packet: usize,
)
    requires
        forall|k: int| 0 <= k < ends.len() ==> (#[trigger] ends[k]).packet is None,
    ensures
        on_packets(ends + calls_for(listeners, events, session, Some(packet))) == calls_for(
            listeners,
            events,
            session,
            Some(packet),
        ),
{
    let calls = calls_for(listeners, events, session, Some(packet));
    lemma_on_packets(ends);
    lemma_on_packets(calls);
    Seq::filter_distributes_over_add(ends, calls, |firing: FiringView| firing.packet is Some);
    assert(on_packets(ends) + calls =~= calls);
}

/// What was reported hands out no packet.
proof fn lemma_complete_calls(e: EngineView, id: SessionId, results: Seq<ResultView>)
    ensures
        on_packets(e.complete(id, results).1.firings).len() == 0,
{
    let told = e.one_less(id).appended(id, results);
    let firings = told.try_finalize(id).1.firings;
    assert(e.complete(id, results).1.firings =~= firings);
    assert forall|k: int| 0 <= k < firings.len() implies (#[trigger] firings[k]).packet is None by {}
    lemma_on_packets(firings);
}

/// A packet is handed out in the step that takes it in and in no other: once for each
/// event that it raises and that methods listen for, to all of these methods, as the
/// newest packet of its session. So no method is run again on a packet that it has seen.
pub proof fn packets_are_seen_once(
    e: EngineView,
    observation: ObservationView,
    id: SessionId,
    results: Seq<ResultView>,
)
    requires
        e.sound(),
    ensures
        ({
            let key = SessionKey::of_observation(observation);
            let session = session_at(e.ingest(observation).0.sessions, key)->0;
            on_packets(e.ingest(observation).1.firings) == calls_for(
                e.listeners,
                events_of(observation),
                session,
                Some((session.observations.len() - 1) as usize),
            )
        }),
        on_packets(e.complete(id, results).1.firings).len() == 0,
        on_packets(e.finish().1.firings).len() == 0,
{
    let now = observation.at;
    let left = still_open(e.sessions, now, e.timeout);
    let quiet = timed_out_at(e.sessions, now, e.timeout);
    let kept = EngineView { sessions: left, ..e };
    let sessions = ingested(left, observation);
    let session = session_at(sessions, SessionKey::of_observation(observation))->0;
    let packet = (session.observations.len() - 1) as usize;
    let grown = EngineView { sessions, ..kept.close_all(quiet).0 };
    let events = events_of(observation);
    let ends = kept.close_all(quiet).1.firings;
    let calls = calls_for(e.listeners, events, session, Some(packet));
    assert(e.ingest(observation).0.sessions == sessions) by {
        ingest_keeps_sound(e, observation);
    }
    assert(on_packets(e.ingest(observation).1.firings) == calls) by {
        lemma_close_all_calls(kept, quiet);
        lemma_fire_all_calls(grown, events, session, Some(packet));
        assert(e.ingest(observation).1.firings == ends + calls);
        lemma_calls_after_ends(ends, e.listeners, events, session, packet);
    }
    lemma_complete_calls(e, id, results);
    assert(on_packets(e.finish().1.firings).len() == 0) by {
        lemma_close_all_calls(
            EngineView { sessions: Seq::empty(), ..e },
            e.sessions.map_values(|s: SessionView| ended(s)),
        );
        lemma_on_packets(e.finish().1.firings);
    }
}

/// A session that is over and not yet published has methods out.
pub proof fn sessions_wait_for_their_methods(e: EngineView, id: SessionId)
    requires
        e.sound(),
        e.closing.contains_key(id),
    ensures
        e.outstanding(id) > 0,
{
}

/// Once no method is out, every session that is over has been published.
pub proof fn nothing_is_left_waiting(e: EngineView)
    requires
        e.sound(),
        e.in_flight == Map::<SessionId, nat>::empty(),
    ensures
        e.closing == Map::<SessionId, ClosingView>::empty(),
{
    assert forall|id: SessionId| !#[trigger] e.closing.contains_key(id) by {
        if e.closing.contains_key(id) {
            assert(e.in_flight.contains_key(id));
        }
    }
    assert(e.closing =~= Map::empty());
}

/// A session is published only when none of its methods is out, with every result
/// it has, and once; and the methods that listen for its end are fired only when
/// none of its methods is out, on every result it has, and once.
pub proof fn the_end_waits(e: EngineView, id: SessionId)
    requires
        e.sound_but(Some(id)),
    ensures
        e.try_finalize(id).1.updates.len() > 0 ==> {
            &&& e.outstanding(id) == 0
            &&& e.try_finalize(id).1.updates == seq![UpdateView::Finalized(e.closing[id].session)]
            &&& !e.try_finalize(id).0.closing.contains_key(id)
        },
        e.try_finalize(id).1.firings.len() > 0 ==> {
            &&& e.outstanding(id) == 0
            &&& !e.closing[id].ended
            &&& e.try_finalize(id).1.firings == seq![
                FiringView {
                    trigger: TriggerEvent::SessionEnd,
                    methods: e.listening(TriggerEvent::SessionEnd),
                    session: e.closing[id].session,
                    packet: None,
                },
            ]
            &&& e.try_finalize(id).0.closing[id].ended
        },
        e.closing.contains_key(id) && e.closing[id].ended ==> e.try_finalize(id).1.firings.len()
            == 0,
{
}

/// Results are published in the order in which they are appended, and before the
/// session they belong to.
pub proof fn results_are_published_as_appended(
    e: EngineView,
    id: SessionId,
    results: Seq<ResultView>,
    i: int,
)
    requires
        0 <= i < results.len(),
    ensures
        e.complete(id, results).1.updates.len() >= results.len(),
        e.complete(id, results).1.updates[i] == (UpdateView::Result {
            session: id,
            initiator: e.initiator_of(id),
            entry: results[i],
        }),
        e.closing.contains_key(id) ==> e.one_less(id).appended(
            id,
            results,
        ).closing[id].session.results == e.closing[id].session.results + results,
        !e.closing.contains_key(id) ==> (open_session(e.sessions, id) matches Some(k) ==> e.complete(
            id,
            results,
        ).0.sessions == e.sessions.update(k, e.sessions[k].reported_all(results))),
{
}

/// A method runs once for each event that it listens for, and for no other.
pub proof fn listeners_fire_once(
    listeners: Seq<Seq<TriggerEvent>>,
    trigger: TriggerEvent,
    n: int,
    i: int,
)
    requires
        0 <= i < n <= listeners.len() <= usize::MAX,
    ensures
        listening_among(listeners, trigger, n).contains(i as usize) <==> listeners[i].contains(
            trigger,
        ),
        listening_among(listeners, trigger, n).no_duplicates(),
        forall|k: int|
            0 <= k < listening_among(listeners, trigger, n).len() ==> (#[trigger] listening_among(
                listeners,
                trigger,
                n,
            )[k]) < n,
    decreases n,
{
    let all = listening_among(listeners, trigger, n);
    let before = listening_among(listeners, trigger, n - 1);
    if n == 1 {
        assert(before =~= Seq::empty());
    } else {
        listeners_fire_once(
            listeners,
            trigger,
            n - 1,
            if i < n - 1 {
                i
            } else {
                0
            },
        );
    }
    if listeners[n - 1].contains(trigger) {
        assert(all[all.len() - 1] == (n - 1) as usize);
        if before.contains(i as usize) {
            let k = choose|k: int| 0 <= k < before.len() && before[k] == i as usize;
            assert(all[k] == i as usize);
        }
    }
    if all.contains(i as usize) && i < n - 1 {
        let k = choose|k: int| 0 <= k < all.len() && all[k] == i as usize;
        assert(k < before.len() ==> before[k] == i as usize);
    }
}

// ---------------------------------------------------------------------------
// The engine

/// The engine, on its own thread and the only one to touch sessions.
#[derive(Debug)]
pub struct Engine {
    listeners: Vec<Vec<TriggerEvent>>,
    assembler: Assembler,
    /// The methods that have yet to report.
    in_flight: Table<SessionId, Vec<usize>>,
    closing: Table<SessionId, Closing>,
}

spec fn listener_views(listeners: Seq<Vec<TriggerEvent>>) -> Seq<Seq<TriggerEvent>> {
    Seq::new(listeners.len(), |i: int| listeners[i]@)
}

spec fn counts(in_flight: Map<SessionId, Vec<usize>>) -> Map<SessionId, nat> {
    in_flight.map_values(|methods: Vec<usize>| methods@.len())
}

spec fn closing_views(closing: Map<SessionId, Closing>) -> Map<SessionId, ClosingView> {
    closing.map_values(|c: Closing| c@)
}

impl View for Engine {
    type V = EngineView;

    closed spec fn view(&self) -> EngineView {
        EngineView {
            listeners: listener_views(self.listeners@),
            timeout: self.assembler.patience(),
            sessions: self.assembler@,
            in_flight: counts(self.in_flight@),
            closing: closing_views(self.closing@),
        }
    }
}

impl Engine {
    pub closed spec fn parts_wf(&self) -> bool {
        self.assembler.wf() && self.in_flight.wf() && self.closing.wf()
    }

    pub open spec fn wf(&self) -> bool {
        self.parts_wf() && self@.sound()
    }

    /// An engine for methods that listen for these events.
    pub fn new(listeners: Vec<Vec<TriggerEvent>>, session_timeout: Duration) -> (r: Self)
        ensures
            r.wf(),
            r@.listeners == Seq::new(listeners@.len(), |i: int| listeners@[i]@),
            r@.timeout == session_timeout,
            r@.sessions.len() == 0,
            r@.in_flight == Map::<SessionId, nat>::empty(),
            r@.closing == Map::<SessionId, ClosingView>::empty(),
    {
        let r = Engine {
            listeners,
            assembler: Assembler::new(session_timeout),
            in_flight: Table::new(),
            closing: Table::new(),
        };
        assert(r@.in_flight =~= Map::empty());
        assert(r@.closing =~= Map::empty());
        r
    }

    fn listening(&self, trigger: TriggerEvent) -> (r: Vec<usize>)
        ensures
            r@ == self@.listening(trigger),
    {
        let mut out: Vec<usize> = Vec::new();
        let ghost all = listener_views(self.listeners@);
        let mut i: usize = 0;
        while i < self.listeners.len()
            invariant
                i <= self.listeners@.len(),
                all == listener_views(self.listeners@),
                out@ == listening_among(all, trigger, i as int),
            decreases self.listeners@.len() - i,
        {
            assert(all[i as int] == self.listeners@[i as int]@);
            if listens(&self.listeners[i], trigger) {
                out.push(i);
            }
            i = i + 1;
        }
        out
    }

    fn fire(
        &mut self,
        trigger: TriggerEvent,
        session: &Session,
        packet: Option<usize>,
        step: &mut Step,
    )
        requires
            old(self).parts_wf(),
        ensures
            final(self).parts_wf(),
            final(self)@ == old(self)@.fire(trigger, session@, packet).0,
            final(step)@ == old(step)@.followed_by(old(self)@.fire(trigger, session@, packet).1),
    {
        let methods = self.listening(trigger);
        let ghost wanted = old(self)@.fire(trigger, session@, packet);
        if methods.len() == 0 {
            assert(step@.firings =~= old(step)@.firings + Seq::empty());
            assert(step@.updates =~= old(step)@.updates + Seq::empty());
            return ;
        }
        self.await_methods(session.id(), &methods);
        let firing = Firing { trigger, methods, session: session.clone(), packet };
        step.firings.push(firing);
        assert(step@.firings =~= old(step)@.firings + seq![firing@]);
        assert(step@.updates =~= old(step)@.updates + Seq::empty());
    }

    fn await_methods(&mut self, id: SessionId, methods: &Vec<usize>)
        requires
            old(self).parts_wf(),
        ensures
            final(self).parts_wf(),
            final(self)@ == (EngineView {
                in_flight: old(self)@.in_flight.insert(
                    id,
                    old(self)@.outstanding(id) + methods@.len(),
                ),
                ..old(self)@
            }),
    {
        let mut waiting: Vec<usize> = match self.in_flight.remove(&id) {
            Some(waiting) => waiting,
            None => Vec::new(),
        };
        let ghost already = waiting@.len();
        assert(already == old(self)@.outstanding(id));
        let mut i: usize = 0;
        while i < methods.len()
            invariant
                i <= methods@.len(),
                waiting@.len() == already + i,
            decreases methods@.len() - i,
        {
            waiting.push(methods[i]);
            i = i + 1;
        }
        let ghost now_out = waiting;
        self.in_flight.insert(id, waiting);
        proof {
            assert(self.in_flight@ == old(self).in_flight@.remove(id).insert(id, now_out));
            assert(counts(self.in_flight@) =~= counts(old(self).in_flight@).insert(
                id,
                now_out@.len(),
            ));
        }
    }

    fn try_finalize(&mut self, id: SessionId, step: &mut Step)
        requires
            old(self).parts_wf(),
            old(self)@.sound_but(Some(id)),
        ensures
            final(self).parts_wf(),
            final(self)@ == old(self)@.try_finalize(id).0,
            final(step)@ == old(step)@.followed_by(old(self)@.try_finalize(id).1),
    {
        if self.in_flight.contains(&id) {
            assert(step@.firings =~= old(step)@.firings + Seq::empty());
            assert(step@.updates =~= old(step)@.updates + Seq::empty());
            return ;
        }
        let closing = match self.closing.remove(&id) {
            Some(closing) => closing,
            None => {
                assert(self.closing@ =~= old(self).closing@);
                assert(step@.firings =~= old(step)@.firings + Seq::empty());
                assert(step@.updates =~= old(step)@.updates + Seq::empty());
                return ;
            },
        };
        let ghost was = closing@;
        assert(old(self)@.closing.contains_key(id) && old(self)@.closing[id] == was);
        if !closing.ended {
            let listening = self.listening(TriggerEvent::SessionEnd);
            if listening.len() > 0 {
                let snapshot = closing.session.clone();
                let marked = Closing { session: closing.session, ended: true };
                self.closing.insert(id, marked);
                assert(closing_views(self.closing@) =~= closing_views(old(self).closing@).insert(
                    id,
                    ClosingView { ended: true, ..was },
                ));
                self.fire(TriggerEvent::SessionEnd, &snapshot, None, step);
                return ;
            }
        }
        let update = Update::Finalized(closing.session);
        step.updates.push(update);
        proof {
            assert(closing_views(self.closing@) =~= closing_views(old(self).closing@).remove(id));
            assert(step@.firings =~= old(step)@.firings + Seq::empty());
            assert(step@.updates =~= old(step)@.updates + seq![update@]);
        }
    }

    fn close(&mut self, session: Session, step: &mut Step)
        requires
            old(self).parts_wf(),
            old(self)@.sound(),
        ensures
            final(self).parts_wf(),
            final(self)@.sound(),
            final(self)@ == old(self)@.close(session@).0,
            final(step)@ == old(step)@.followed_by(old(self)@.close(session@).1),
    {
        let id = session.id();
        let ghost taken = EngineView {
            closing: old(self)@.closing.insert(
                id,
                ClosingView { session: session@, ended: false },
            ),
            ..old(self)@
        };
        proof {
            lemma_close_keeps(old(self)@, session@);
            assert forall|i: SessionId| #[trigger] taken.closing.contains_key(i) implies {
                &&& taken.closing[i].session.id() == i
                &&& taken.in_flight.contains_key(i) || i == id
            } by {
                if i != id {
                    assert(old(self)@.closing.contains_key(i));
                }
            }
        }
        let closing = Closing { session, ended: false };
        self.closing.insert(id, closing);
        assert(closing_views(self.closing@) =~= taken.closing);
        self.try_finalize(id, step);
    }

    fn close_each(&mut self, sessions: Vec<Session>, step: &mut Step)
        requires
            old(self).parts_wf(),
            old(self)@.sound(),
        ensures
            final(self).parts_wf(),
            final(self)@.sound(),
            final(self)@ == old(self)@.close_all(session_views(sessions@)).0,
            final(step)@ == old(step)@.followed_by(
                old(self)@.close_all(session_views(sessions@)).1,
            ),
    {
        let ghost held = sessions@;
        let ghost all = session_views(sessions@);
        assert(step@.firings =~= old(step)@.firings + Seq::empty());
        assert(step@.updates =~= old(step)@.updates + Seq::empty());
        for session in it: sessions.into_iter()
            invariant
                it.seq() == held,
                all == session_views(held),
                self.parts_wf(),
                self@.sound(),
                self@ == old(self)@.close_all(all.take(it.index() as int)).0,
                step@ == old(step)@.followed_by(
                    old(self)@.close_all(all.take(it.index() as int)).1,
                ),
        {
            let ghost k = it.index() as int;
            let ghost before = step@;
            let ghost so_far = old(self)@.close_all(all.take(k)).1;
            let ghost more = self@.close(session@).1;
            self.close(session, step);
            proof {
                assert(all.take(k + 1).drop_last() =~= all.take(k));
                assert(all.take(k + 1).last() == session@);
                assert(step@.firings =~= old(step)@.firings + (so_far.firings + more.firings));
                assert(step@.updates =~= old(step)@.updates + (so_far.updates + more.updates));
            }
        }
        assert(all.take(all.len() as int) =~= all);
    }

    /// Takes in a packet.
    pub fn ingest(&mut self, observation: Observation) -> (r: Step)
        requires
            old(self).wf(),
        ensures
            final(self).wf(),
            final(self)@ == old(self)@.ingest(observation@).0,
            r@ == old(self)@.ingest(observation@).1,
    {
        let mut step = Step::nothing();
        let ghost seen = observation@;
        let now = observation.at;
        let events = classify(&observation);
        let key = SessionKey::new(
            observation.source,
            observation.destination,
            observation.transport,
        );
        let ghost left = still_open(self@.sessions, now, self@.timeout);
        let ghost kept = EngineView { sessions: left, ..self@ };
        proof {
            ingest_keeps_sound(self@, seen);
            lemma_still_open_distinct(self@.sessions, now, self@.timeout);
            crate::correlator::observations_join_their_flow(left, seen, key);
            keys_stay_distinct(left, seen);
        }
        let quiet = self.assembler.expire(now);
        let ghost quiet_views = session_views(quiet@);
        assert(self@ == kept);
        assert(kept.sound());
        self.close_each(quiet, &mut step);
        let ghost closed = kept.close_all(quiet_views);
        proof {
            lemma_close_all_keeps(kept, quiet_views);
            assert(step@.firings =~= closed.1.firings);
            assert(step@.updates =~= closed.1.updates);
        }
        self.assembler.ingest(observation);
        let ghost grown = EngineView { sessions: ingested(left, seen), ..closed.0 };
        assert(self@ == grown);
        assert(grown.sound());
        self.fire_events(events, key, &mut step);
        step
    }

    /// Fires the methods for the events of the last packet of a session.
    fn fire_events(&mut self, events: Vec<TriggerEvent>, key: SessionKey, step: &mut Step)
        requires
            old(self).wf(),
            session_at(old(self)@.sessions, key) matches Some(session)
                && session.observations.len() > 0,
        ensures
            final(self).wf(),
            ({
                let session = session_at(old(self)@.sessions, key)->0;
                let packet = Some((session.observations.len() - 1) as usize);
                let fired = old(self)@.fire_all(events@, session, packet);
                final(self)@ == fired.0 && final(step)@ == old(step)@.followed_by(fired.1)
            }),
    {
        let ghost grown = self@;
        let ghost before = step@;
        let ghost session = session_at(grown.sessions, key)->0;
        let ghost packet = Some((session.observations.len() - 1) as usize);
        proof {
            lemma_fire_all_keeps(grown, events@, session, packet);
            assert(before.firings =~= before.firings + Seq::empty());
            assert(before.updates =~= before.updates + Seq::empty());
        }
        if events.len() == 0 {
            assert(events@ =~= Seq::empty());
            return ;
        }
        let snapshot = match self.assembler.get(&key) {
            Some(session) => session.clone(),
            None => {
                return ;
            },
        };
        assert(snapshot@.observations.len() == snapshot.observations@.len());
        let last: usize = snapshot.observations.len() - 1;
        let mut i: usize = 0;
        while i < events.len()
            invariant
                i <= events@.len(),
                self.parts_wf(),
                snapshot@ == session,
                packet == Some(last),
                self@ == grown.fire_all(events@.take(i as int), session, packet).0,
                step@ == before.followed_by(
                    grown.fire_all(events@.take(i as int), session, packet).1,
                ),
            decreases events@.len() - i,
        {
            let ghost so_far = grown.fire_all(events@.take(i as int), session, packet).1;
            let ghost more = self@.fire(events@[i as int], session, packet).1;
            self.fire(events[i], &snapshot, Some(last), step);
            proof {
                assert(events@.take(i + 1).drop_last() =~= events@.take(i as int));
                assert(events@.take(i + 1).last() == events@[i as int]);
                assert(step@.firings =~= before.firings + (so_far.firings + more.firings));
                assert(step@.updates =~= before.updates + (so_far.updates + more.updates));
            }
            i = i + 1;
        }
        assert(events@.take(i as int) =~= events@);
    }

    /// There is nothing more to come: ends every session. The methods that are
    /// fired here and those still out have yet to report.
    pub fn finish(&mut self) -> (r: Step)
        requires
            old(self).wf(),
        ensures
            final(self).wf(),
            final(self)@ == old(self)@.finish().0,
            r@ == old(self)@.finish().1,
    {
        let mut step = Step::nothing();
        proof {
            finish_keeps_sound(self@);
        }
        let sessions = self.assembler.drain();
        let ghost emptied = EngineView { sessions: Seq::empty(), ..old(self)@ };
        assert(self@ == emptied);
        assert(self@.sound());
        self.close_each(sessions, &mut step);
        assert(step@.firings =~= old(self)@.finish().1.firings);
        assert(step@.updates =~= old(self)@.finish().1.updates);
        step
    }

    /// Takes in what a method reported.
    pub fn complete(&mut self, done: Done) -> (r: Step)
        requires
            old(self).wf(),
        ensures
            final(self).wf(),
            final(self)@ == old(self)@.complete(done.session, result_views(done.results@)).0,
            r@ == old(self)@.complete(done.session, result_views(done.results@)).1,
    {
        let id = done.session;
        let ghost results = result_views(done.results@);
        let mut step = Step::nothing();
        proof {
            complete_keeps_sound(self@, id, results);
        }
        self.report_one(id);
        let ghost less = old(self)@.one_less(id);
        let initiator = self.append(id, &done.results);
        let ghost told = less.appended(id, results);
        let ghost list = done.results@;
        for entry in it: done.results.into_iter()
            invariant
                it.seq() == list,
                results == result_views(list),
                step@.firings == Seq::<FiringView>::empty(),
                step@.updates == results.take(it.index() as int).map_values(
                    |entry: ResultView| UpdateView::Result { session: id, initiator, entry },
                ),
        {
            let ghost k = it.index() as int;
            let ghost before = step@.updates;
            let update = Update::Result { session: id, initiator, entry };
            step.updates.push(update);
            proof {
                assert(step@.updates =~= before.push(update@));
                assert(step@.firings =~= Seq::empty());
                assert(results.take(k + 1) =~= results.take(k).push(results[k]));
                assert(step@.updates =~= results.take(k + 1).map_values(
                    |entry: ResultView| UpdateView::Result { session: id, initiator, entry },
                ));
            }
        }
        assert(results.take(results.len() as int) =~= results);
        self.try_finalize(id, &mut step);
        step
    }

    fn report_one(&mut self, id: SessionId)
        requires
            old(self).parts_wf(),
            old(self)@.sound(),
        ensures
            final(self).parts_wf(),
            final(self)@ == old(self)@.one_less(id),
            final(self).closing == old(self).closing,
            final(self).assembler == old(self).assembler,
    {
        let ghost before = counts(self.in_flight@);
        if let Some(waiting) = self.in_flight.remove(&id) {
            let mut waiting = waiting;
            let ghost count = waiting@.len();
            assert(old(self)@.in_flight.contains_key(id) && before[id] == count);
            waiting.pop();
            if waiting.len() > 0 {
                let ghost left = waiting;
                self.in_flight.insert(id, waiting);
                assert(counts(self.in_flight@) =~= before.insert(id, left@.len()));
            } else {
                assert(counts(self.in_flight@) =~= before.remove(id));
            }
        } else {
            assert(counts(self.in_flight@) =~= before);
        }
    }

    fn append(&mut self, id: SessionId, results: &Vec<ResultEntry>) -> (r: Endpoint)
        requires
            old(self).parts_wf(),
        ensures
            final(self).parts_wf(),
            final(self)@ == old(self)@.appended(id, result_views(results@)),
            r == old(self)@.initiator_of(id),
    {
        let ghost before = closing_views(self.closing@);
        match self.closing.remove(&id) {
            Some(closing) => {
                let mut session = closing.session;
                let initiator = session.initiator;
                session.append_all(results);
                let told = Closing { session, ended: closing.ended };
                self.closing.insert(id, told);
                assert(closing_views(self.closing@) =~= before.insert(id, told@));
                initiator
            },
            None => {
                assert(closing_views(self.closing@) =~= before);
                match self.assembler.report(&id, results) {
                    Some(initiator) => initiator,
                    None => id.key.low,
                }
            },
        }
    }

    /// Whether any session is over and not yet published.
    pub fn is_closing(&self) -> (r: bool)
        requires
            self.wf(),
        ensures
            r == (self@.closing != Map::<SessionId, ClosingView>::empty()),
    {
        let none = self.closing.is_empty();
        proof {
            if none {
                assert(self@.closing =~= Map::empty());
            } else {
                let (key, _) = self.closing.pairs()[0];
                crate::table::lemma_index_of_key(self.closing.pairs(), key);
                assert(self@.closing.contains_key(key));
            }
        }
        !none
    }

    /// The sessions that are over and not yet published, in the order in which they
    /// would be given up.
    pub closed spec fn waiting(&self) -> Seq<(SessionId, ClosingView)> {
        viewed(self.closing.pairs(), |c: Closing| c@)
    }

    /// No method will report any more: publishes what is left as it is.
    pub fn abandon(self) -> (r: Vec<Update>)
        requires
            self.wf(),
        ensures
            map_of(self.waiting()) == self@.closing,
            update_views(r@) == self.waiting().map_values(
                |entry: (SessionId, ClosingView)| UpdateView::Finalized(entry.1.session),
            ),
    {
        proof {
            lemma_map_values(self.closing.pairs(), |c: Closing| c@);
        }
        let ghost waiting = self.waiting();
        let ghost finalize = |entry: (SessionId, ClosingView)| UpdateView::Finalized(
            entry.1.session,
        );
        let entries = self.closing.into_entries();
        let ghost list = entries@;
        let mut out: Vec<Update> = Vec::new();
        for entry in it: entries.into_iter()
            invariant
                it.seq() == list,
                waiting.len() == list.len(),
                forall|i: int| 0 <= i < list.len() ==> (#[trigger] waiting[i]).1 == list[i].1@,
                finalize == (|entry: (SessionId, ClosingView)| UpdateView::Finalized(
                    entry.1.session,
                )),
                update_views(out@) == waiting.take(it.index() as int).map_values(finalize),
        {
            let ghost k = it.index() as int;
            let ghost before = update_views(out@);
            let (_, closing) = entry;
            let update = Update::Finalized(closing.session);
            out.push(update);
            proof {
                assert(waiting[k].1 == list[k].1@);
                assert(update_views(out@) =~= before.push(update@));
                assert(update_views(out@) =~= waiting.take(k + 1).map_values(finalize));
            }
        }
        assert(waiting.take(waiting.len() as int) =~= waiting);
        out
    }
}

fn listens(events: &Vec<TriggerEvent>, trigger: TriggerEvent) -> (r: bool)
    ensures
        r == events@.contains(trigger),
{
    let mut i: usize = 0;
    while i < events.len()
        invariant
            i <= events@.len(),
            forall|j: int| 0 <= j < i ==> events@[j] != trigger,
        decreases events@.len() - i,
    {
        if events[i] == trigger {
            return true;
        }
        i = i + 1;
    }
    false
}

// ---------------------------------------------------------------------------
// What every step does

/// A report makes its session wait for one method less, and no other session. A session
/// that waits for no method is forgotten.
pub proof fn reports_count_down(e: EngineView, id: SessionId, other: SessionId)
    ensures
        ({
            let after = e.one_less(id);
            &&& after.in_flight.contains_key(id) <==> e.in_flight.contains_key(id)
                && e.in_flight[id] > 1
            &&& after.in_flight.contains_key(id) ==> after.in_flight[id] + 1 == e.in_flight[id]
            &&& other != id ==> after.in_flight.contains_key(other) == e.in_flight.contains_key(
                other,
            )
            &&& other != id && e.in_flight.contains_key(other) ==> after.in_flight[other]
                == e.in_flight[other]
            &&& after.sessions == e.sessions
            &&& after.closing == e.closing
            &&& after.listeners == e.listeners
            &&& after.timeout == e.timeout
        }),
{
}

/// An event sends out every method that listens for it, and its session then waits for
/// that many more; the others wait for as many as before.
pub proof fn events_send_methods_out(
    e: EngineView,
    trigger: TriggerEvent,
    session: SessionView,
    packet: Option<usize>,
    other: SessionId,
)
    ensures
        ({
            let (after, step) = e.fire(trigger, session, packet);
            let sent = e.listening(trigger).len();
            let waits = e.in_flight.contains_key(session.id());
            &&& sent > 0 && waits ==> after.in_flight[session.id()] == e.in_flight[session.id()]
                + sent
            &&& sent > 0 && !waits ==> after.in_flight[session.id()] == sent
            &&& after.in_flight.contains_key(session.id()) <==> waits || sent > 0
            &&& other != session.id() ==> after.in_flight.contains_key(other)
                == e.in_flight.contains_key(other)
            &&& other != session.id() && e.in_flight.contains_key(other)
                ==> after.in_flight[other] == e.in_flight[other]
            &&& step.updates.len() == 0
            &&& step.firings.len() == (if sent > 0 {
                1int
            } else {
                0
            })
            &&& sent > 0 ==> step.firings[0].trigger == trigger && step.firings[0].session
                == session && step.firings[0].packet == packet && step.firings[0].methods
                == e.listening(trigger)
            &&& after.sessions == e.sessions
            &&& after.closing == e.closing
        }),
{
}

/// Methods are sent out in the order in which they were registered.
pub proof fn methods_go_in_their_order(
    listeners: Seq<Seq<TriggerEvent>>,
    trigger: TriggerEvent,
    n: int,
    i: int,
    j: int,
)
    requires
        n <= listeners.len() <= usize::MAX,
        0 <= i < j < listening_among(listeners, trigger, n).len(),
    ensures
        listening_among(listeners, trigger, n)[i] < listening_among(listeners, trigger, n)[j],
    decreases n,
{
    let before = listening_among(listeners, trigger, n - 1);
    if j < before.len() {
        methods_go_in_their_order(listeners, trigger, n - 1, i, j);
    } else {
        listeners_fire_once(listeners, trigger, n - 1, 0);
        assert(before[i] < n - 1);
    }
}

/// Whether a method listens for the end of sessions.
pub proof fn ends_are_listened_for(e: EngineView)
    requires
        e.listeners.len() <= usize::MAX,
    ensures
        e.listening(TriggerEvent::SessionEnd).len() > 0 <==> exists|i: int|
            0 <= i < e.listeners.len() && (#[trigger] e.listeners[i]).contains(
                TriggerEvent::SessionEnd,
            ),
{
    let n = e.listeners.len() as int;
    let heard = e.listening(TriggerEvent::SessionEnd);
    if heard.len() > 0 {
        listeners_fire_once(e.listeners, TriggerEvent::SessionEnd, n, 0);
        let i = heard[0] as int;
        assert(heard.contains(i as usize));
        listeners_fire_once(e.listeners, TriggerEvent::SessionEnd, n, i);
        assert(e.listeners[i].contains(TriggerEvent::SessionEnd));
    }
    if exists|i: int|
        0 <= i < n && (#[trigger] e.listeners[i]).contains(TriggerEvent::SessionEnd) {
        let i = choose|i: int|
            0 <= i < n && (#[trigger] e.listeners[i]).contains(TriggerEvent::SessionEnd);
        listeners_fire_once(e.listeners, TriggerEvent::SessionEnd, n, i);
    }
}

/// A session that is over waits while a method is out. Once none is, those that listen
/// for its end are sent out, if it has not been tried before; and it is published where
/// there are none or they have been sent out.
pub proof fn sessions_end_when_nothing_is_out(e: EngineView, session: SessionView)
    ensures
        ({
            let id = session.id();
            let (after, step) = e.close(session);
            let heard = e.listening(TriggerEvent::SessionEnd).len() > 0;
            &&& e.in_flight.contains_key(id) ==> {
                &&& step == StepView::nothing()
                &&& after.closing == e.closing.insert(id, ClosingView { session, ended: false })
                &&& after.in_flight == e.in_flight
            }
            &&& !e.in_flight.contains_key(id) && heard ==> {
                &&& step.updates.len() == 0
                &&& step.firings.len() == 1
                &&& step.firings[0].trigger == TriggerEvent::SessionEnd
                &&& step.firings[0].session == session
                &&& step.firings[0].packet is None
                &&& after.closing.contains_key(id) && after.closing[id].session == session
                &&& after.closing[id].ended
            }
            &&& !e.in_flight.contains_key(id) && !heard ==> {
                &&& step.updates == seq![UpdateView::Finalized(session)]
                &&& step.firings.len() == 0
                &&& !after.closing.contains_key(id)
            }
        }),
        ({
            let id = session.id();
            let (after, step) = e.try_finalize(id);
            e.closing.contains_key(id) && e.closing[id].ended && !e.in_flight.contains_key(id) ==> {
                &&& step.updates == seq![UpdateView::Finalized(e.closing[id].session)]
                &&& !after.closing.contains_key(id)
            }
        }),
{
}

/// Where no method is out and none listens for the end of sessions, finishing publishes
/// every open session, in order, and leaves none.
pub proof fn finishing_publishes_every_session(e: EngineView, i: int)
    requires
        0 <= i < e.sessions.len(),
        e.listening(TriggerEvent::SessionEnd).len() == 0,
        e.in_flight == Map::<SessionId, nat>::empty(),
    ensures
        e.finish().1.updates.len() == e.sessions.len(),
        e.finish().1.updates[i] == UpdateView::Finalized(ended(e.sessions[i])),
        e.finish().1.firings.len() == 0,
        e.finish().0.sessions.len() == 0,
{
    let all = e.sessions.map_values(|s: SessionView| ended(s));
    lemma_closing_publishes(EngineView { sessions: Seq::empty(), ..e }, all);
    assert(all[i] == ended(e.sessions[i]));
}

proof fn lemma_closing_publishes(e: EngineView, sessions: Seq<SessionView>)
    requires
        e.listening(TriggerEvent::SessionEnd).len() == 0,
        e.in_flight == Map::<SessionId, nat>::empty(),
    ensures
        e.close_all(sessions).1.updates == sessions.map_values(
            |s: SessionView| UpdateView::Finalized(s),
        ),
        e.close_all(sessions).1.firings.len() == 0,
        e.close_all(sessions).0.in_flight == e.in_flight,
        e.close_all(sessions).0.listeners == e.listeners,
        e.close_all(sessions).0.sessions == e.sessions,
    decreases sessions.len(),
{
    let wanted = sessions.map_values(|s: SessionView| UpdateView::Finalized(s));
    if sessions.len() == 0 {
        assert(wanted =~= Seq::empty());
    } else {
        let head = sessions.drop_last();
        lemma_closing_publishes(e, head);
        assert(wanted =~= head.map_values(|s: SessionView| UpdateView::Finalized(s)).push(
            UpdateView::Finalized(sessions.last()),
        ));
        assert(e.close_all(sessions).1.updates =~= wanted);
    }
}

/// What a packet leads to is dated at that packet, and what the end of a session leads
/// to at the session's last packet.
pub proof fn results_are_dated_by_their_packets(
    e: EngineView,
    observation: ObservationView,
    k: int,
    last: FiringView,
)
    requires
        e.sound(),
        0 <= k < on_packets(e.ingest(observation).1.firings).len(),
        on_packets(e.ingest(observation).1.firings)[k].session.observations.len() <= usize::MAX,
        last.packet is None,
    ensures
        on_packets(e.ingest(observation).1.firings)[k].at() == observation.at,
        on_packets(e.ingest(observation).1.firings)[k].session.observations.last() == observation,
        last.at() == last.session.last_seen_at,
{
    packets_are_seen_once(e, observation, arbitrary(), Seq::empty());
    ingest_keeps_sound(e, observation);
    lemma_still_open_distinct(e.sessions, observation.at, e.timeout);
    let key = SessionKey::of_observation(observation);
    observations_join_their_flow(
        still_open(e.sessions, observation.at, e.timeout),
        observation,
        key,
    );
}

/// Results are about the endpoint that opened their session.
pub proof fn results_name_the_initiator(e: EngineView, id: SessionId, i: int)
    requires
        distinct_keys(e.sessions),
    ensures
        e.closing.contains_key(id) ==> e.initiator_of(id) == e.closing[id].session.initiator,
        !e.closing.contains_key(id) && 0 <= i < e.sessions.len() && e.sessions[i].key == id.key
            && e.sessions[i].started_at == id.started_at ==> e.initiator_of(id)
            == e.sessions[i].initiator,
{
    if 0 <= i < e.sessions.len() && e.sessions[i].key == id.key {
        lemma_place_unique(e.sessions, i);
    }
}

} // verus!
