//! What a method is, what it is given, and what it gives back.

use vstd::prelude::*;

use crate::error::Error;
use crate::evidence::{evidence_views, Evidence, EvidenceView};
use crate::manifest::{ManifestView, MethodManifest};
use crate::observation::{Observation, ObservationView};
use crate::result::Fields;
use crate::session::{observation_views, Session, SessionView};
use crate::trigger::TriggerEvent;

verus! {

// ---------------------------------------------------------------------------
// Methods that an event fires

/// What a method is given for one event.
pub struct Context<'a> {
    /// The event that fired this call.
    pub trigger: TriggerEvent,
    /// The packet that raised the event. `None` for session events.
    pub packet: Option<&'a Observation>,
    /// Every packet seen so far in this flow, and every result already appended.
    pub session: &'a Session,
}

/// A technique that runs once per event that its manifest lists. Each [`Fields`]
/// it gives back becomes one result.
pub trait Method {
    /// The manifest of the method.
    spec fn declared(&self) -> ManifestView;

    fn manifest(&self) -> (r: &MethodManifest)
        ensures
            r@ == self.declared(),
    ;

    fn name(&self) -> (r: &str)
        ensures
            r@ == self.declared().name,
    {
        self.manifest().name.as_str()
    }

    /// The events that fire the method.
    fn triggers(&self) -> (r: &[TriggerEvent])
        ensures
            r@ == self.declared().triggers,
    {
        self.manifest().triggers.as_slice()
    }

    /// What the method finds is open: it is the method's own affair.
    fn extract(&self, ctx: &Context<'_>) -> Result<Vec<Fields>, Error>;
}

// ---------------------------------------------------------------------------
// Methods that look at a whole session

/// What a method is given for one pass over a session.
pub struct SessionContext<'a> {
    pub session: &'a Session,
    /// What the methods before this one claimed in the same pass.
    pub evidence: &'a Vec<Evidence>,
    /// The session is over.
    pub is_final: bool,
    /// Show both sides of the conversation rather than the initiator's alone.
    pub both_directions: bool,
}

/// What a [`SessionContext`] holds.
pub ghost struct SessionContextView {
    pub session: SessionView,
    pub evidence: Seq<EvidenceView>,
    pub is_final: bool,
    pub both_directions: bool,
}

impl<'a> View for SessionContext<'a> {
    type V = SessionContextView;

    open spec fn view(&self) -> SessionContextView {
        SessionContextView {
            session: self.session@,
            evidence: evidence_views(self.evidence@),
            is_final: self.is_final,
            both_directions: self.both_directions,
        }
    }
}

impl SessionContextView {
    /// The observations that a method may look at.
    pub open spec fn observations(self) -> Seq<ObservationView> {
        if self.both_directions {
            self.session.observations
        } else {
            self.session.by_initiator()
        }
    }
}

fn references(list: &Vec<Observation>) -> (r: Vec<&Observation>)
    ensures
        observation_views(r@.unref()) == observation_views(list@),
{
    let mut out: Vec<&Observation> = Vec::new();
    let mut i: usize = 0;
    while i < list.len()
        invariant
            i <= list@.len(),
            out@.unref() == list@.take(i as int),
        decreases list@.len() - i,
    {
        let ghost before = out@.unref();
        out.push(&list[i]);
        assert(out@.unref() =~= before.push(list@[i as int]));
        i = i + 1;
    }
    assert(list@.take(i as int) =~= list@);
    out
}

impl<'a> SessionContext<'a> {
    /// The observations that a method may look at, in order: those of the
    /// initiator, unless both directions are asked for.
    pub fn observations(&self) -> (r: Vec<&'a Observation>)
        ensures
            observation_views(r@.unref()) == self@.observations(),
    {
        if self.both_directions {
            references(&self.session.observations)
        } else {
            self.session.from_initiator()
        }
    }
}

/// What a method makes of a session.
#[derive(Debug)]
pub enum Outcome {
    /// Claims that more of the session would not change.
    Complete(Vec<Evidence>),
    /// Claims that more of the session may change.
    Partial(Vec<Evidence>),
    /// There was something to look at, and it matched nothing.
    NoMatch,
    /// There was nothing to look at.
    NotApplicable,
}

/// What an [`Outcome`] holds.
pub ghost enum OutcomeView {
    Complete(Seq<EvidenceView>),
    Partial(Seq<EvidenceView>),
    NoMatch,
    NotApplicable,
}

impl View for Outcome {
    type V = OutcomeView;

    open spec fn view(&self) -> OutcomeView {
        match self {
            Outcome::Complete(evidence) => OutcomeView::Complete(evidence_views(evidence@)),
            Outcome::Partial(evidence) => OutcomeView::Partial(evidence_views(evidence@)),
            Outcome::NoMatch => OutcomeView::NoMatch,
            Outcome::NotApplicable => OutcomeView::NotApplicable,
        }
    }
}

impl OutcomeView {
    /// The claims of an outcome.
    pub open spec fn evidence(self) -> Seq<EvidenceView> {
        match self {
            OutcomeView::Complete(evidence) => evidence,
            OutcomeView::Partial(evidence) => evidence,
            _ => Seq::empty(),
        }
    }
}

impl Outcome {
    /// Claims that are settled once the session is over.
    pub fn settled_if(is_final: bool, evidence: Vec<Evidence>) -> (r: Self)
        ensures
            r@ == (if is_final {
                OutcomeView::Complete(evidence_views(evidence@))
            } else {
                OutcomeView::Partial(evidence_views(evidence@))
            }),
    {
        if is_final {
            Outcome::Complete(evidence)
        } else {
            Outcome::Partial(evidence)
        }
    }

    pub fn is_partial(&self) -> (r: bool)
        ensures
            r == (self@ is Partial),
    {
        match self {
            Outcome::Partial(_) => true,
            _ => false,
        }
    }

    /// The claims of the outcome.
    pub fn into_evidence(self) -> (r: Vec<Evidence>)
        ensures
            evidence_views(r@) == self@.evidence(),
    {
        match self {
            Outcome::Complete(evidence) => evidence,
            Outcome::Partial(evidence) => evidence,
            _ => {
                let none: Vec<Evidence> = Vec::new();
                assert(evidence_views(none@) =~= Seq::empty());
                none
            },
        }
    }
}

/// A technique that looks at a session as a whole. It is pure: what it makes of a
/// session depends on what it is given and on nothing else.
pub trait SessionMethod {
    /// The manifest of the method.
    spec fn declared(&self) -> ManifestView;

    /// What the method makes of a session; `None` where it fails.
    spec fn outcome(&self, ctx: SessionContextView) -> Option<OutcomeView>;

    fn manifest(&self) -> (r: &MethodManifest)
        ensures
            r@ == self.declared(),
    ;

    fn extract(&self, ctx: &SessionContext<'_>) -> (r: Result<Outcome, Error>)
        ensures
            match r {
                Ok(outcome) => self.outcome(ctx@) == Some(outcome@),
                Err(_) => self.outcome(ctx@) is None,
            },
    ;
}

/// A method is shown everything where both directions are asked for, and else what the
/// initiator sent.
pub proof fn methods_see_one_direction_or_both(ctx: SessionContextView, i: int)
    ensures
        ctx.both_directions ==> ctx.observations() == ctx.session.observations,
        !ctx.both_directions ==> ctx.observations() == ctx.session.by_initiator(),
        !ctx.both_directions && 0 <= i < ctx.observations().len() ==> ctx.observations()[i].source
            == ctx.session.initiator,
{
    if !ctx.both_directions && 0 <= i < ctx.observations().len() {
        let sent = |o: ObservationView| o.source == ctx.session.initiator;
        ctx.session.observations.lemma_filter_pred(sent, i);
    }
}

} // verus!
