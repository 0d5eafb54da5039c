//! Which sessions are analysed, and when.
//!
//! Whoever drives the pipeline feeds it observations and analyses each session that
//! it hands back.

use vstd::prelude::*;

use crate::config::OutputMode;
use crate::correlator::{
    distinct_keys, ended, ingested, lemma_still_open_distinct, moved_by,
    observations_join_their_flow, overdue_sessions_are_not_revived, session_at, session_views,
    still_open, the_timeout_wins, timed_out, timed_out_at, Assembler, Emitted,
};
use crate::observation::{Observation, ObservationView};
use crate::session::{Session, SessionKey, SessionView};
use crate::time::Duration;

verus! {

/// One unit of work.
#[derive(Debug)]
pub struct Job {
    pub session: Session,
    /// The session is closed or timed out; this is its last pass.
    pub is_final: bool,
}

/// What a [`Job`] holds.
pub ghost struct JobView {
    pub session: SessionView,
    pub is_final: bool,
}

impl View for Job {
    type V = JobView;

    open spec fn view(&self) -> JobView {
        JobView { session: self.session@, is_final: self.is_final }
    }
}

/// What a list of jobs holds.
pub open spec fn job_views(list: Seq<Job>) -> Seq<JobView> {
    Seq::new(list.len(), |i: int| list[i]@)
}

/// The last passes over sessions that are over.
pub open spec fn final_jobs(sessions: Seq<SessionView>) -> Seq<JobView> {
    sessions.map_values(|session: SessionView| JobView { session, is_final: true })
}

#[derive(Debug)]
pub struct Pipeline {
    assembler: Assembler,
    output: OutputMode,
}

/// What a [`Pipeline`] holds.
pub ghost struct PipelineView {
    pub sessions: Seq<SessionView>,
    pub timeout: Duration,
    pub output: OutputMode,
}

impl View for Pipeline {
    type V = PipelineView;

    closed spec fn view(&self) -> PipelineView {
        PipelineView {
            sessions: self.assembler@,
            timeout: self.assembler.patience(),
            output: self.output,
        }
    }
}

impl PipelineView {
    /// What an observation leads to. Every session that has been quiet for longer than
    /// the timeout is analysed for the last time; and where guesses are made as data
    /// arrives, the session that the observation joined is analysed as it is.
    pub open spec fn jobs(self, observation: ObservationView) -> Seq<JobView> {
        let now = observation.at;
        let sessions = ingested(still_open(self.sessions, now, self.timeout), observation);
        let guess = if self.output == OutputMode::InferenceTime {
            seq![
                JobView {
                    session: session_at(sessions, SessionKey::of_observation(observation))->0,
                    is_final: false,
                },
            ]
        } else {
            Seq::empty()
        };
        final_jobs(timed_out_at(self.sessions, now, self.timeout)) + guess
    }

    /// The sessions that are still open after it. Those that are overdue at its time end
    /// first, so that it joins none of them.
    pub open spec fn after(self, observation: ObservationView) -> PipelineView {
        PipelineView {
            sessions: ingested(
                still_open(self.sessions, observation.at, self.timeout),
                observation,
            ),
            ..self
        }
    }
}

fn push_final(jobs: &mut Vec<Job>, sessions: Vec<Session>)
    ensures
        job_views(final(jobs)@) == job_views(old(jobs)@) + final_jobs(session_views(sessions@)),
{
    let ghost given = sessions@;
    let ghost all = session_views(given);
    assert(job_views(jobs@) =~= job_views(old(jobs)@) + final_jobs(all.take(0)));
    for session in it: sessions.into_iter()
        invariant
            it.seq() == given,
            all == session_views(given),
            job_views(jobs@) == job_views(old(jobs)@) + final_jobs(all.take(it.index() as int)),
    {
        let ghost k = it.index() as int;
        let ghost before = job_views(jobs@);
        let job = Job { session, is_final: true };
        jobs.push(job);
        proof {
            assert(job_views(jobs@) =~= before.push(job@));
            assert(job_views(jobs@) =~= job_views(old(jobs)@) + final_jobs(all.take(k + 1)));
        }
    }
    assert(all.take(all.len() as int) =~= all);
}

impl Pipeline {
    pub closed spec fn wf(&self) -> bool {
        self.assembler.wf()
    }

    pub fn new(timeout: Duration, output: OutputMode) -> (r: Self)
        ensures
            r.wf(),
            r@.sessions.len() == 0,
            r@.timeout == timeout,
            r@.output == output,
    {
        Pipeline { assembler: Assembler::new(timeout), output }
    }

    /// Takes in an observation.
    pub fn ingest(&mut self, observation: Observation) -> (r: Vec<Job>)
        requires
            old(self).wf(),
        ensures
            final(self).wf(),
            final(self)@ == old(self)@.after(observation@),
            job_views(r@) == old(self)@.jobs(observation@),
    {
        let now = observation.at;
        let ghost seen = observation@;
        let ghost left = still_open(self@.sessions, now, self@.timeout);
        let mut jobs: Vec<Job> = Vec::new();
        assert(job_views(jobs@) =~= Seq::empty());
        proof {
            lemma_still_open_distinct(self.assembler@, now, self@.timeout);
            observations_join_their_flow(left, seen, SessionKey::of_observation(seen));
        }
        let quiet = self.assembler.expire(now);
        push_final(&mut jobs, quiet);
        let ghost finals = job_views(jobs@);
        assert(finals =~= final_jobs(timed_out_at(old(self)@.sessions, now, old(self)@.timeout)));
        match self.assembler.ingest(observation) {
            Emitted::Opened(key) | Emitted::Updated(key) => {
                if self.output == OutputMode::InferenceTime {
                    if let Some(session) = self.assembler.get(&key) {
                        let job = Job { session: session.clone(), is_final: false };
                        jobs.push(job);
                        assert(job_views(jobs@) =~= finals + seq![job@]);
                    }
                }
            },
            Emitted::Finished(_) => {},
        }
        assert(old(self)@.output != OutputMode::InferenceTime ==> job_views(jobs@) =~= finals
            + Seq::empty());
        jobs
    }

    /// There is nothing more to come: every session is analysed for the last time.
    pub fn finish(&mut self) -> (r: Vec<Job>)
        requires
            old(self).wf(),
        ensures
            final(self).wf(),
            final(self)@ == (PipelineView { sessions: Seq::empty(), ..old(self)@ }),
            job_views(r@) == final_jobs(
                old(self)@.sessions.map_values(|s: SessionView| ended(s)),
            ),
    {
        let sessions = self.assembler.drain();
        let mut jobs: Vec<Job> = Vec::new();
        let ghost none = job_views(jobs@);
        push_final(&mut jobs, sessions);
        assert(job_views(jobs@) =~= final_jobs(session_views(sessions@)));
        jobs
    }
}

/// Every session gets exactly one last pass: it leaves with it, and what is left is what
/// the observation may join.
pub proof fn last_passes_leave(p: PipelineView, observation: ObservationView)
    ensures
        still_open(p.sessions, observation.at, p.timeout).len() + p.jobs(observation).len()
            == p.sessions.len() + (if p.output == OutputMode::InferenceTime {
            1int
        } else {
            0
        }),
        p.after(observation).sessions == ingested(
            still_open(p.sessions, observation.at, p.timeout),
            observation,
        ),
{
    the_timeout_wins(
        p.sessions,
        observation.at,
        p.timeout,
        SessionView::opened(observation),
    );
}

/// An observation never joins a session that is overdue at its time: that session gets
/// its last pass as it was, and the observation opens a new one.
pub proof fn observations_revive_no_session(p: PipelineView, observation: ObservationView)
    requires
        distinct_keys(p.sessions),
        session_at(p.sessions, SessionKey::of_observation(observation)) matches Some(known)
            && known.overdue(observation.at, p.timeout),
    ensures
        ({
            let key = SessionKey::of_observation(observation);
            let known = session_at(p.sessions, key)->0;
            &&& session_at(p.after(observation).sessions, key) == Some(
                moved_by(SessionView::opened(observation), observation.payload),
            )
            &&& p.jobs(observation).contains(
                JobView { session: timed_out(known), is_final: true },
            )
        }),
{
    overdue_sessions_are_not_revived(p.sessions, observation, p.timeout);
    let known = session_at(p.sessions, SessionKey::of_observation(observation))->0;
    let gone = timed_out_at(p.sessions, observation.at, p.timeout);
    let i = choose|i: int| 0 <= i < gone.len() && gone[i] == timed_out(known);
    assert(p.jobs(observation)[i] == (JobView { session: timed_out(known), is_final: true }));
}

/// Sessions that are over get a last pass each, in order. Where guesses are made as data
/// arrives, one more pass follows, over the session that the observation has joined; it
/// is not the last one. Otherwise there are no others.
pub proof fn guesses_come_after_last_passes(p: PipelineView, observation: ObservationView, i: int)
    requires
        distinct_keys(p.sessions),
        0 <= i < p.jobs(observation).len(),
    ensures
        ({
            let over = timed_out_at(p.sessions, observation.at, p.timeout);
            let job = p.jobs(observation)[i];
            let joined = session_at(
                p.after(observation).sessions,
                SessionKey::of_observation(observation),
            );
            &&& p.output == OutputMode::PerSession ==> p.jobs(observation).len() == over.len()
            &&& p.output == OutputMode::InferenceTime ==> p.jobs(observation).len() == over.len()
                + 1
            &&& i < over.len() ==> job.is_final && job.session == over[i]
            &&& i == over.len() ==> !job.is_final && Some(job.session) == joined
                && job.session.observations.last() == observation
        }),
        p.after(observation).timeout == p.timeout,
        p.after(observation).output == p.output,
{
    lemma_still_open_distinct(p.sessions, observation.at, p.timeout);
    observations_join_their_flow(
        still_open(p.sessions, observation.at, p.timeout),
        observation,
        SessionKey::of_observation(observation),
    );
}

/// The last pass over a session is over that session, and marked as the last.
pub proof fn last_passes_are_marked(sessions: Seq<SessionView>, i: int)
    requires
        0 <= i < sessions.len(),
    ensures
        final_jobs(sessions).len() == sessions.len(),
        final_jobs(sessions)[i].session == sessions[i],
        final_jobs(sessions)[i].is_final,
{
}

} // verus!
