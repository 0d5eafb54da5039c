//! What one pass over one session concluded.

use vstd::prelude::*;

use crate::evidence::Evidence;
use crate::session::{Session, SessionId};

verus! {

/// How far into its session a pass looked. Passes of one session can finish in any
/// order; this tells which result is current.
#[derive(Debug, Clone, Copy, PartialEq, Eq, Structural, PartialOrd, Ord)]
pub struct Revision {
    pub observations: usize,
    pub is_final: bool,
}

impl Revision {
    /// Whether `self` looked less far than `other`: at fewer observations, or at as
    /// many without the session being over.
    pub open spec fn older_than(self, other: Revision) -> bool {
        self.observations < other.observations || (self.observations == other.observations
            && !self.is_final && other.is_final)
    }

    /// How far a pass over a session looks.
    pub fn of(session: &Session, is_final: bool) -> (r: Self)
        ensures
            r.observations == session@.observations.len(),
            r.is_final == is_final,
    {
        Revision { observations: session.observations.len(), is_final }
    }

    pub fn is_older_than(&self, other: &Revision) -> (r: bool)
        ensures
            r == self.older_than(*other),
    {
        self.observations < other.observations || (self.observations == other.observations
            && !self.is_final && other.is_final)
    }
}

/// Everything one pass over one session concluded. A newer report for the same
/// session takes the place of an older one.
#[derive(Debug)]
pub struct Report {
    pub session: SessionId,
    pub revision: Revision,
    pub evidence: Vec<Evidence>,
}

/// Revisions are totally ordered, and the final pass is newer than any that saw no
/// more observations.
pub proof fn the_final_pass_wins(a: Revision, b: Revision, c: Revision)
    ensures
        !a.older_than(a),
        a.older_than(b) || b.older_than(a) || a == b,
        a.older_than(b) && b.older_than(c) ==> a.older_than(c),
        b.is_final && !a.is_final && a.observations <= b.observations ==> a.older_than(b),
{
}

/// A pass over more observations is newer, whether or not the session was over.
pub proof fn more_observations_are_newer(a: Revision, b: Revision)
    ensures
        a.observations < b.observations ==> a.older_than(b) && !b.older_than(a),
        a.observations == b.observations ==> (a.older_than(b) <==> !a.is_final && b.is_final),
{
}

} // verus!
