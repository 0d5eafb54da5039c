//! Session correlation: each observation joins the session of its flow, and a
//! session that has been quiet for long enough is over.

use vstd::prelude::*;

use crate::observation::{Endpoint, Observation, ObservationView};
use crate::result::ResultEntry;
use crate::session::{
    result_views, Session, SessionId, SessionKey, SessionState, SessionView, Stage,
};
use crate::time::{Duration, Timestamp};

verus! {

/// What taking in one observation led to.
#[derive(Debug)]
pub enum Emitted {
    /// A new session appeared.
    Opened(SessionKey),
    /// An existing session grew.
    Updated(SessionKey),
    /// A session is finished and will not change again.
    Finished(Session),
}

/// The stage that a payload proves its session to have reached: that of a TLS
/// ClientHello where it is one, and that of application data for any other bytes.
pub open spec fn stage_of_payload(payload: Seq<u8>) -> Option<Stage> {
    if payload.len() == 0 {
        None
    } else if payload.len() > 5 && payload[0] == 0x16 && payload[1] == 0x03 && payload[5] == 0x01 {
        Some(Stage::TlsClientHello)
    } else {
        Some(Stage::AppData)
    }
}

fn payload_stage(payload: &Vec<u8>) -> (r: Option<Stage>)
    ensures
        r == stage_of_payload(payload@),
{
    if payload.len() == 0 {
        return None;
    }
    let client_hello = payload.len() > 5 && payload[0] == 0x16 && payload[1] == 0x03 && payload[5]
        == 0x01;
    Some(
        if client_hello {
            Stage::TlsClientHello
        } else {
            Stage::AppData
        },
    )
}

/// A session once it is known what its last payload proves.
pub open spec fn moved_by(session: SessionView, payload: Seq<u8>) -> SessionView {
    match stage_of_payload(payload) {
        Some(stage) => session.advanced(stage),
        None => session,
    }
}

/// A session whose timeout fired.
pub open spec fn timed_out(session: SessionView) -> SessionView {
    SessionView { state: SessionState::TimedOut, ..session }.advanced(Stage::Closed)
}

/// A session that ends because there is nothing more to come.
pub open spec fn ended(session: SessionView) -> SessionView {
    SessionView {
        state: if session.state == SessionState::Active {
            SessionState::Closed
        } else {
            session.state
        },
        ..session
    }.advanced(Stage::Closed)
}

// ---------------------------------------------------------------------------
// Sets of sessions

/// What a list of sessions holds.
pub open spec fn session_views(list: Seq<Session>) -> Seq<SessionView> {
    Seq::new(list.len(), |i: int| list[i]@)
}

/// No two sessions have the same key.
pub open spec fn distinct_keys(sessions: Seq<SessionView>) -> bool {
    forall|i: int, j: int|
        0 <= i < j < sessions.len() ==> (#[trigger] sessions[i]).key != (
        #[trigger] sessions[j]).key
}

/// Where the session of a key stands.
pub open spec fn place(sessions: Seq<SessionView>, key: SessionKey) -> Option<int>
    decreases sessions.len(),
{
    if sessions.len() == 0 {
        None
    } else if sessions.last().key == key {
        Some(sessions.len() - 1)
    } else {
        place(sessions.drop_last(), key)
    }
}

/// The session of a key.
pub open spec fn session_at(sessions: Seq<SessionView>, key: SessionKey) -> Option<SessionView> {
    match place(sessions, key) {
        Some(i) => Some(sessions[i]),
        None => None,
    }
}

/// Where the open session of that identity stands.
pub open spec fn open_session(sessions: Seq<SessionView>, id: SessionId) -> Option<int> {
    match place(sessions, id.key) {
        Some(i) => if sessions[i].started_at == id.started_at {
            Some(i)
        } else {
            None
        },
        None => None,
    }
}

pub proof fn lemma_place(sessions: Seq<SessionView>, key: SessionKey)
    ensures
        match place(sessions, key) {
            Some(i) => 0 <= i < sessions.len() && sessions[i].key == key,
            None => forall|i: int| 0 <= i < sessions.len() ==> (#[trigger] sessions[i]).key != key,
        },
    decreases sessions.len(),
{
    if sessions.len() > 0 && sessions.last().key != key {
        let head = sessions.drop_last();
        lemma_place(head, key);
        assert forall|i: int| place(sessions, key) is None && 0 <= i < sessions.len() implies (
        #[trigger] sessions[i]).key != key by {
            if i < head.len() {
                assert(head[i] == sessions[i]);
            }
        }
    }
}

pub proof fn lemma_place_unique(sessions: Seq<SessionView>, i: int)
    requires
        distinct_keys(sessions),
        0 <= i < sessions.len(),
    ensures
        place(sessions, sessions[i].key) == Some(i),
{
    lemma_place(sessions, sessions[i].key);
    let j = place(sessions, sessions[i].key)->0;
    if i < j {
        assert(sessions[i].key != sessions[j].key);
    } else if j < i {
        assert(sessions[j].key != sessions[i].key);
    }
}

/// The sessions once an observation was taken in.
pub open spec fn ingested(sessions: Seq<SessionView>, observation: ObservationView) -> Seq<
    SessionView,
> {
    match place(sessions, SessionKey::of_observation(observation)) {
        Some(i) => sessions.update(
            i,
            moved_by(sessions[i].grown(observation), observation.payload),
        ),
        None => sessions.push(moved_by(SessionView::opened(observation), observation.payload)),
    }
}

/// The sessions that have not been quiet for longer than the timeout at `now`.
pub open spec fn still_open(
    sessions: Seq<SessionView>,
    now: Timestamp,
    timeout: Duration,
) -> Seq<SessionView> {
    sessions.filter(|s: SessionView| !s.overdue(now, timeout))
}

/// The sessions that have been quiet for longer, as finished.
pub open spec fn timed_out_at(
    sessions: Seq<SessionView>,
    now: Timestamp,
    timeout: Duration,
) -> Seq<SessionView> {
    sessions.filter(|s: SessionView| s.overdue(now, timeout)).map_values(
        |s: SessionView| timed_out(s),
    )
}

/// Correlates observations into sessions, by flow and by time.
#[derive(Debug)]
pub struct Assembler {
    timeout: Duration,
    sessions: Vec<Session>,
}

/// Another name for it.
pub type SessionCorrelator = Assembler;

impl View for Assembler {
    type V = Seq<SessionView>;

    /// The sessions that are open, in the order in which they were opened.
    closed spec fn view(&self) -> Seq<SessionView> {
        session_views(self.sessions@)
    }
}

impl Assembler {
    /// Every open session has a key of its own.
    pub open spec fn wf(&self) -> bool {
        distinct_keys(self@)
    }

    /// How long a session may be quiet.
    pub closed spec fn patience(&self) -> Duration {
        self.timeout
    }

    pub fn new(timeout: Duration) -> (r: Self)
        ensures
            r.wf(),
            r@ == Seq::<SessionView>::empty(),
            r.patience() == timeout,
    {
        let r = Assembler { timeout, sessions: Vec::new() };
        assert(r@ =~= Seq::empty());
        r
    }

    fn find(&self, key: &SessionKey) -> (r: Option<usize>)
        requires
            self.wf(),
        ensures
            match r {
                Some(i) => place(self@, *key) == Some(i as int) && i < self.sessions@.len(),
                None => place(self@, *key) is None,
            },
    {
        let mut i: usize = 0;
        while i < self.sessions.len()
            invariant
                i <= self.sessions@.len(),
                self.wf(),
                forall|j: int| 0 <= j < i ==> (#[trigger] self@[j]).key != key,
            decreases self.sessions@.len() - i,
        {
            assert(self@[i as int] == self.sessions@[i as int]@);
            if self.sessions[i].key == *key {
                proof {
                    lemma_place_unique(self@, i as int);
                }
                return Some(i);
            }
            i = i + 1;
        }
        proof {
            lemma_place(self@, *key);
        }
        None
    }

    /// The open session of a key.
    pub fn get(&self, key: &SessionKey) -> (r: Option<&Session>)
        requires
            self.wf(),
        ensures
            match r {
                Some(session) => session_at(self@, *key) == Some(session@),
                None => session_at(self@, *key) is None,
            },
    {
        match self.find(key) {
            Some(i) => {
                assert(self@[i as int] == self.sessions@[i as int]@);
                Some(&self.sessions[i])
            },
            None => None,
        }
    }

    /// Takes in an observation: its session grows, or opens with it.
    pub fn ingest(&mut self, observation: Observation) -> (r: Emitted)
        requires
            old(self).wf(),
        ensures
            final(self).wf(),
            final(self)@ == ingested(old(self)@, observation@),
            final(self).patience() == old(self).patience(),
            r == (if place(old(self)@, SessionKey::of_observation(observation@)) is Some {
                Emitted::Updated(SessionKey::of_observation(observation@))
            } else {
                Emitted::Opened(SessionKey::of_observation(observation@))
            }),
    {
        let key = SessionKey::new(
            observation.source,
            observation.destination,
            observation.transport,
        );
        let stage = payload_stage(&observation.payload);
        let ghost before = self@;
        let ghost seen = observation@;
        proof {
            keys_stay_distinct(before, seen);
        }
        match self.find(&key) {
            Some(i) => {
                let ghost held = self.sessions@;
                assert(before[i as int] == held[i as int]@);
                let session = &mut self.sessions[i];
                session.push(observation);
                if let Some(stage) = stage {
                    session.advance(stage);
                }
                proof {
                    let now = self.sessions@[i as int]@;
                    assert(now == moved_by(before[i as int].grown(seen), seen.payload));
                    assert(self@ =~= before.update(i as int, now));
                }
                Emitted::Updated(key)
            },
            None => {
                let mut session = Session::open(observation);
                if let Some(stage) = stage {
                    session.advance(stage);
                }
                self.sessions.push(session);
                assert(self@ =~= before.push(session@));
                Emitted::Opened(key)
            },
        }
    }

    /// Appends results to the open session of that identity. Returns who opened it;
    /// `None` where no such session is open.
    pub fn report(&mut self, id: &SessionId, entries: &Vec<ResultEntry>) -> (r: Option<Endpoint>)
        requires
            old(self).wf(),
        ensures
            final(self).wf(),
            final(self).patience() == old(self).patience(),
            match open_session(old(self)@, *id) {
                Some(i) => {
                    &&& r == Some(old(self)@[i].initiator)
                    &&& final(self)@ == old(self)@.update(
                        i,
                        old(self)@[i].reported_all(result_views(entries@)),
                    )
                },
                None => r is None && final(self)@ == old(self)@,
            },
    {
        let ghost before = self@;
        match self.find(&id.key) {
            Some(i) => {
                assert(before[i as int] == self.sessions@[i as int]@);
                if self.sessions[i].started_at != id.started_at {
                    return None;
                }
                let initiator = self.sessions[i].initiator;
                let session = &mut self.sessions[i];
                session.append_all(entries);
                proof {
                    let now = self.sessions@[i as int]@;
                    assert(self@ =~= before.update(i as int, now));
                    assert forall|a: int, b: int| 0 <= a < b < self@.len() implies (
                    #[trigger] self@[a]).key != (#[trigger] self@[b]).key by {
                        assert(before[a].key != before[b].key);
                    }
                }
                Some(initiator)
            },
            None => None,
        }
    }

    /// Takes out every session that has been quiet for longer than the timeout at
    /// `now`, as finished.
    pub fn expire(&mut self, now: Timestamp) -> (r: Vec<Session>)
        requires
            old(self).wf(),
        ensures
            final(self).wf(),
            final(self).patience() == old(self).patience(),
            final(self)@ == still_open(old(self)@, now, old(self).patience()),
            session_views(r@) == timed_out_at(old(self)@, now, old(self).patience()),
    {
        let mut all: Vec<Session> = Vec::new();
        std::mem::swap(&mut all, &mut self.sessions);
        let mut gone: Vec<Session> = Vec::new();
        let timeout = self.timeout;
        let ghost views = session_views(all@);
        let ghost held = all@;
        let ghost idle = |s: SessionView| s.overdue(now, timeout);
        let ghost busy = |s: SessionView| !s.overdue(now, timeout);
        let ghost finish = |s: SessionView| timed_out(s);
        assert(views =~= old(self)@);
        assert(self@ =~= views.take(0).filter(busy));
        assert(session_views(gone@) =~= views.take(0).filter(idle).map_values(finish));
        for session in it: all.into_iter()
            invariant
                it.seq() == held,
                views == session_views(held),
                idle == (|s: SessionView| s.overdue(now, timeout)),
                busy == (|s: SessionView| !s.overdue(now, timeout)),
                finish == (|s: SessionView| timed_out(s)),
                self.timeout == timeout,
                timeout == old(self).patience(),
                self@ == views.take(it.index() as int).filter(busy),
                session_views(gone@) == views.take(it.index() as int).filter(idle).map_values(
                    finish,
                ),
        {
            let ghost k = it.index() as int;
            let ghost kept = self@;
            let ghost out = session_views(gone@);
            proof {
                assert(views.take(k + 1) =~= views.take(k).push(session@));
                views.take(k).lemma_filter_push(session@, busy);
                views.take(k).lemma_filter_push(session@, idle);
            }
            if session.is_overdue_at(now, timeout) {
                let mut session = session;
                let ghost was = session@;
                session.state = SessionState::TimedOut;
                session.advance(Stage::Closed);
                gone.push(session);
                assert(session@ == timed_out(was));
                assert(session_views(gone@) =~= out.push(session@));
                assert(session_views(gone@) =~= views.take(k + 1).filter(idle).map_values(finish));
            } else {
                self.sessions.push(session);
                assert(self@ =~= kept.push(session@));
            }
        }
        proof {
            assert(views.take(views.len() as int) =~= views);
            lemma_filter_distinct(views, busy);
        }
        gone
    }

    /// Takes out every session, as finished. For when there is nothing more to come.
    pub fn drain(&mut self) -> (r: Vec<Session>)
        requires
            old(self).wf(),
        ensures
            final(self).wf(),
            final(self).patience() == old(self).patience(),
            final(self)@ == Seq::<SessionView>::empty(),
            session_views(r@) == old(self)@.map_values(|s: SessionView| ended(s)),
    {
        let mut all: Vec<Session> = Vec::new();
        std::mem::swap(&mut all, &mut self.sessions);
        let mut gone: Vec<Session> = Vec::new();
        let ghost views = session_views(all@);
        let ghost held = all@;
        let ghost finish = |s: SessionView| ended(s);
        assert(views =~= old(self)@);
        assert(self@ =~= Seq::empty());
        for session in it: all.into_iter()
            invariant
                it.seq() == held,
                views == session_views(held),
                finish == (|s: SessionView| ended(s)),
                session_views(gone@) == views.take(it.index() as int).map_values(finish),
        {
            let ghost k = it.index() as int;
            let ghost out = session_views(gone@);
            let mut session = session;
            let ghost was = session@;
            if session.state == SessionState::Active {
                session.state = SessionState::Closed;
            }
            session.advance(Stage::Closed);
            gone.push(session);
            assert(session@ == ended(was));
            assert(session_views(gone@) =~= out.push(session@));
            assert(session_views(gone@) =~= views.take(k + 1).map_values(finish));
        }
        assert(views.take(views.len() as int) =~= views);
        gone
    }

    /// How many sessions are open.
    pub fn len(&self) -> (r: usize)
        ensures
            r == self@.len(),
    {
        self.sessions.len()
    }

    pub fn is_empty(&self) -> (r: bool)
        ensures
            r == (self@.len() == 0),
    {
        self.sessions.len() == 0
    }
}

// ---------------------------------------------------------------------------
// Laws

/// Keeping some of the sessions gives no two the same key.
pub proof fn lemma_filter_distinct(sessions: Seq<SessionView>, keep: spec_fn(SessionView) -> bool)
    requires
        distinct_keys(sessions),
    ensures
        distinct_keys(sessions.filter(keep)),
        forall|i: int|
            0 <= i < sessions.filter(keep).len() ==> sessions.contains(
                #[trigger] sessions.filter(keep)[i],
            ),
    decreases sessions.len(),
{
    reveal(Seq::filter);
    if sessions.len() > 0 {
        let head = sessions.drop_last();
        assert(distinct_keys(head)) by {
            assert forall|i: int, j: int| 0 <= i < j < head.len() implies (
            #[trigger] head[i]).key != (#[trigger] head[j]).key by {
                assert(sessions[i].key != sessions[j].key);
            }
        }
        lemma_filter_distinct(head, keep);
        let kept = head.filter(keep);
        let all = sessions.filter(keep);
        assert forall|i: int| 0 <= i < kept.len() implies {
            &&& sessions.contains(#[trigger] kept[i])
            &&& kept[i].key != sessions.last().key
        } by {
            assert(head.contains(kept[i]));
            let j = choose|j: int| 0 <= j < head.len() && head[j] == kept[i];
            assert(sessions[j] == kept[i]);
            assert(sessions[j].key != sessions[sessions.len() - 1].key);
        }
        assert forall|i: int| 0 <= i < all.len() implies sessions.contains(#[trigger] all[i]) by {
            if i < kept.len() {
                assert(all[i] == kept[i]);
            } else {
                assert(all[i] == sessions[sessions.len() - 1]);
            }
        }
    }
}

/// Taking in an observation gives no two sessions the same key.
pub proof fn keys_stay_distinct(sessions: Seq<SessionView>, observation: ObservationView)
    requires
        distinct_keys(sessions),
    ensures
        distinct_keys(ingested(sessions, observation)),
{
    lemma_place(sessions, SessionKey::of_observation(observation));
    let after = ingested(sessions, observation);
    assert forall|i: int, j: int| 0 <= i < j < after.len() implies (#[trigger] after[i]).key != (
    #[trigger] after[j]).key by {
        if j < sessions.len() {
            assert(sessions[i].key != sessions[j].key);
            assert(after[i].key == sessions[i].key);
            assert(after[j].key == sessions[j].key);
        } else {
            assert(after[i] == sessions[i]);
        }
    }
}

/// An observation joins the session of its flow and no other: that session ends
/// with it, and every other is as it was.
pub proof fn observations_join_their_flow(
    sessions: Seq<SessionView>,
    observation: ObservationView,
    other: SessionKey,
)
    requires
        distinct_keys(sessions),
    ensures
        session_at(ingested(sessions, observation), SessionKey::of_observation(observation))
            matches Some(session) && session.observations.last() == observation
            && session.observations.len() > 0,
        other != SessionKey::of_observation(observation) ==> session_at(
            ingested(sessions, observation),
            other,
        ) == session_at(sessions, other),
{
    let key = SessionKey::of_observation(observation);
    let after = ingested(sessions, observation);
    keys_stay_distinct(sessions, observation);
    lemma_place(sessions, key);
    lemma_place(sessions, other);
    lemma_place(after, other);
    match place(sessions, key) {
        Some(i) => {
            lemma_place_unique(after, i);
        },
        None => {
            lemma_place_unique(after, sessions.len() as int);
        },
    }
    if other != key {
        if let Some(i) = place(sessions, other) {
            assert(after[i] == sessions[i]);
            lemma_place_unique(after, i);
        } else if let Some(j) = place(after, other) {
            assert(after[j].key == other);
            if j < sessions.len() {
                assert(sessions[j].key != other);
            }
        }
    }
}

/// Both directions of a conversation make one session: the answer to an
/// observation grows the session that the observation is in.
pub proof fn answers_join_the_session(
    sessions: Seq<SessionView>,
    observation: ObservationView,
    answer: ObservationView,
)
    requires
        distinct_keys(sessions),
        answer.source == observation.destination,
        answer.destination == observation.source,
        answer.transport == observation.transport,
    ensures
        SessionKey::of_observation(answer) == SessionKey::of_observation(observation),
        session_at(
            ingested(sessions, observation),
            SessionKey::of_observation(observation),
        ) matches Some(session) && session_at(
            ingested(ingested(sessions, observation), answer),
            SessionKey::of_observation(observation),
        ) == Some(moved_by(session.grown(answer), answer.payload)),
{
    let key = SessionKey::of_observation(observation);
    crate::session::key_ignores_direction(
        observation.source,
        observation.destination,
        observation.transport,
    );
    let once = ingested(sessions, observation);
    observations_join_their_flow(sessions, observation, key);
    keys_stay_distinct(sessions, observation);
    keys_stay_distinct(once, answer);
    lemma_place(once, key);
    lemma_place_unique(ingested(once, answer), place(once, key)->0);
}

/// The timeout always wins: once the quiet sessions are taken out, none of those
/// that are left is quiet, and each that went out is closed as timed out.
pub proof fn the_timeout_wins(
    sessions: Seq<SessionView>,
    now: Timestamp,
    timeout: Duration,
    session: SessionView,
)
    ensures
        still_open(sessions, now, timeout).contains(session) <==> sessions.contains(session)
            && !session.overdue(now, timeout),
        sessions.contains(session) && session.overdue(now, timeout) ==> timed_out_at(
            sessions,
            now,
            timeout,
        ).contains(timed_out(session)),
        timed_out(session).state == SessionState::TimedOut,
        timed_out(session).stage == Stage::Closed,
        timed_out(session).results == session.results,
        timed_out(session).observations == session.observations,
        still_open(sessions, now, timeout).len() + timed_out_at(sessions, now, timeout).len()
            == sessions.len(),
{
    let busy = |s: SessionView| !s.overdue(now, timeout);
    let idle = |s: SessionView| s.overdue(now, timeout);
    lemma_parts(sessions, now, timeout);
    if still_open(sessions, now, timeout).contains(session) {
        sessions.lemma_filter_contains_rev(busy, session);
        let i = choose|i: int|
            0 <= i < sessions.filter(busy).len() && sessions.filter(busy)[i] == session;
        sessions.lemma_filter_pred(busy, i);
    }
    if sessions.contains(session) {
        let i = choose|i: int| 0 <= i < sessions.len() && sessions[i] == session;
        if session.overdue(now, timeout) {
            sessions.lemma_filter_contains(idle, i);
            let j = choose|j: int|
                0 <= j < sessions.filter(idle).len() && sessions.filter(idle)[j] == session;
            assert(timed_out_at(sessions, now, timeout)[j] == timed_out(session));
        } else {
            sessions.lemma_filter_contains(busy, i);
        }
    }
}

proof fn lemma_parts(sessions: Seq<SessionView>, now: Timestamp, timeout: Duration)
    ensures
        still_open(sessions, now, timeout).len() + timed_out_at(sessions, now, timeout).len()
            == sessions.len(),
    decreases sessions.len(),
{
    reveal(Seq::filter);
    if sessions.len() > 0 {
        lemma_parts(sessions.drop_last(), now, timeout);
    }
}

/// Taking out the quiet sessions gives no two the same key.
pub proof fn lemma_still_open_distinct(
    sessions: Seq<SessionView>,
    now: Timestamp,
    timeout: Duration,
)
    requires
        distinct_keys(sessions),
    ensures
        distinct_keys(still_open(sessions, now, timeout)),
{
    lemma_filter_distinct(sessions, |s: SessionView| !s.overdue(now, timeout));
}

/// An observation never joins a session that is overdue at its time: such a session has
/// ended as timed out, with what was seen of it before, and the observation opens a new
/// one under the same key. Any other session of the flow grows by it.
pub proof fn overdue_sessions_are_not_revived(
    sessions: Seq<SessionView>,
    observation: ObservationView,
    timeout: Duration,
)
    requires
        distinct_keys(sessions),
    ensures
        ({
            let key = SessionKey::of_observation(observation);
            let now = observation.at;
            let left = still_open(sessions, now, timeout);
            let joined = session_at(ingested(left, observation), key);
            let fresh = moved_by(SessionView::opened(observation), observation.payload);
            match session_at(sessions, key) {
                Some(known) => if known.overdue(now, timeout) {
                    &&& joined == Some(fresh)
                    &&& timed_out_at(sessions, now, timeout).contains(timed_out(known))
                } else {
                    joined == Some(moved_by(known.grown(observation), observation.payload))
                },
                None => joined == Some(fresh),
            }
        }),
{
    let key = SessionKey::of_observation(observation);
    let now = observation.at;
    let left = still_open(sessions, now, timeout);
    let after = ingested(left, observation);
    lemma_still_open_distinct(sessions, now, timeout);
    keys_stay_distinct(left, observation);
    lemma_place(sessions, key);
    lemma_place(left, key);
    match place(left, key) {
        Some(i) => {
            the_timeout_wins(sessions, now, timeout, left[i]);
            assert(left.contains(left[i]));
            let j = choose|j: int| 0 <= j < sessions.len() && sessions[j] == left[i];
            lemma_place_unique(sessions, j);
            lemma_place_unique(after, i);
        },
        None => {
            lemma_place_unique(after, left.len() as int);
            if let Some(i) = place(sessions, key) {
                the_timeout_wins(sessions, now, timeout, sessions[i]);
                assert(sessions.contains(sessions[i]));
                if !sessions[i].overdue(now, timeout) {
                    let j = choose|j: int| 0 <= j < left.len() && left[j] == sessions[i];
                    assert(left[j].key == key);
                }
            }
        },
    }
}

/// Bytes prove that application data flows, but for a TLS ClientHello: a handshake record
/// (0x16, 3) whose sixth byte is one. No bytes prove nothing.
pub proof fn payloads_prove_stages(payload: Seq<u8>)
    ensures
        payload.len() == 0 ==> stage_of_payload(payload) is None,
        payload.len() > 0 ==> (stage_of_payload(payload) == Some(Stage::TlsClientHello)
            || stage_of_payload(payload) == Some(Stage::AppData)),
        stage_of_payload(payload) == Some(Stage::TlsClientHello) <==> payload.len() >= 6
            && payload[0] == 0x16 && payload[1] == 3 && payload[5] == 1,
{
}

/// A session that is over is closed: as timed out where the timeout ended it, as closed
/// where the source did. What it has seen and what was reported of it stays.
pub proof fn endings_are_told_apart(session: SessionView)
    ensures
        ({
            let quiet = timed_out(session);
            let last = ended(session);
            &&& quiet.state == SessionState::TimedOut
            &&& quiet.stage == Stage::Closed
            &&& quiet == (SessionView { state: quiet.state, stage: quiet.stage, ..session })
            &&& session.state == SessionState::Active ==> last.state == SessionState::Closed
            &&& session.state != SessionState::Active ==> last.state == session.state
            &&& last.stage == Stage::Closed
            &&& last == (SessionView { state: last.state, stage: last.stage, ..session })
        }),
{
}

/// An observation changes one session. Where its flow has none, it opens one, behind the
/// others; where it has one, that one grows by it, and moves on where the payload proves
/// it. The others stay as they are.
pub proof fn one_observation_changes_one_session(
    sessions: Seq<SessionView>,
    observation: ObservationView,
    k: int,
)
    requires
        distinct_keys(sessions),
        0 <= k < sessions.len(),
    ensures
        ({
            let after = ingested(sessions, observation);
            let flow = SessionKey::between(
                observation.source,
                observation.destination,
                observation.transport,
            );
            let proves = stage_of_payload(observation.payload);
            let known = exists|i: int|
                0 <= i < sessions.len() && (#[trigger] sessions[i]).key == flow;
            &&& sessions[k].key != flow ==> after[k] == sessions[k]
            &&& known ==> after.len() == sessions.len()
            &&& sessions[k].key == flow ==> {
                let s = after[k];
                let grown = sessions[k].grown(observation);
                &&& s.observations == sessions[k].observations.push(observation)
                &&& s.last_seen_at == observation.at
                &&& s.id() == sessions[k].id()
                &&& s == (SessionView { stage: s.stage, ..grown })
                &&& proves is None ==> s.stage == grown.stage
                &&& proves matches Some(stage) ==> s.stage == (if stage.rank()
                    > grown.stage.rank() {
                    stage
                } else {
                    grown.stage
                })
            }
            &&& !known ==> {
                let s = after.last();
                let opened = SessionView::opened(observation);
                &&& after.len() == sessions.len() + 1
                &&& s.observations == seq![observation]
                &&& s.initiator == observation.source
                &&& s.key == flow
                &&& s == (SessionView { stage: s.stage, ..opened })
                &&& proves is None ==> s.stage == opened.stage
                &&& proves matches Some(stage) ==> s.stage == (if stage.rank()
                    > opened.stage.rank() {
                    stage
                } else {
                    opened.stage
                })
            }
        }),
{
    let flow = SessionKey::of_observation(observation);
    lemma_place(sessions, flow);
    if sessions[k].key == flow {
        lemma_place_unique(sessions, k);
    }
}

/// What is taken out at a time is what has not been seen for longer than the timeout, and
/// the rest stays as it is, in order.
pub proof fn sessions_are_taken_out_by_time(
    sessions: Seq<SessionView>,
    session: SessionView,
    now: Timestamp,
    timeout: Duration,
)
    ensures
        still_open(Seq::empty(), now, timeout).len() == 0,
        timed_out_at(Seq::empty(), now, timeout).len() == 0,
        now.nanos <= session.last_seen_at.nanos + timeout.nanos ==> {
            &&& still_open(sessions.push(session), now, timeout) == still_open(
                sessions,
                now,
                timeout,
            ).push(session)
            &&& timed_out_at(sessions.push(session), now, timeout) == timed_out_at(
                sessions,
                now,
                timeout,
            )
        },
        now.nanos > session.last_seen_at.nanos + timeout.nanos ==> {
            &&& still_open(sessions.push(session), now, timeout) == still_open(
                sessions,
                now,
                timeout,
            )
            &&& timed_out_at(sessions.push(session), now, timeout) == timed_out_at(
                sessions,
                now,
                timeout,
            ).push(timed_out(session))
        },
{
    let stays = |s: SessionView| !s.overdue(now, timeout);
    let goes = |s: SessionView| s.overdue(now, timeout);
    sessions.lemma_filter_push(session, stays);
    sessions.lemma_filter_push(session, goes);
    let none = Seq::<SessionView>::empty();
    assert(none.filter(stays) =~= none && none.filter(goes) =~= none) by {
        reveal(Seq::filter);
    }
    assert(timed_out_at(sessions.push(session), now, timeout) =~= (if session.overdue(
        now,
        timeout,
    ) {
        timed_out_at(sessions, now, timeout).push(timed_out(session))
    } else {
        timed_out_at(sessions, now, timeout)
    }));
}

/// A session is known by its flow and by when it started: a later session of the same
/// flow is another one.
pub proof fn sessions_are_known_by_flow_and_start(
    sessions: Seq<SessionView>,
    id: SessionId,
    i: int,
)
    requires
        distinct_keys(sessions),
        0 <= i < sessions.len(),
        sessions[i].key == id.key,
    ensures
        sessions[i].started_at == id.started_at ==> open_session(sessions, id) == Some(i),
        sessions[i].started_at != id.started_at ==> open_session(sessions, id) is None,
{
    lemma_place_unique(sessions, i);
}

} // verus!
