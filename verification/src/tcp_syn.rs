//! `tcp-syn`: looks at the first packet of a TCP session. It matches nothing yet.

use vstd::prelude::*;

use crate::error::Error;
use crate::f0p::score::MinScore;
use crate::manifest::{ManifestView, MethodManifest};
use crate::method::{Outcome, OutcomeView, SessionContext, SessionContextView, SessionMethod};
use crate::observation::Transport;
use crate::session::observation_views;

verus! {

#[derive(Debug)]
pub struct TcpSyn {
    pub manifest: MethodManifest,
    /// How close a signature would have to be, in millionths.
    pub min_score: MinScore,
}

/// What the method makes of a session: there is nothing to look at in one that is
/// not TCP or shows no packet, and nothing matches in any other.
pub open spec fn looked_at(ctx: SessionContextView) -> OutcomeView {
    if ctx.session.key.transport != Transport::Tcp || ctx.observations().len() == 0 {
        OutcomeView::NotApplicable
    } else {
        OutcomeView::NoMatch
    }
}

impl SessionMethod for TcpSyn {
    open spec fn declared(&self) -> ManifestView {
        self.manifest@
    }

    open spec fn outcome(&self, ctx: SessionContextView) -> Option<OutcomeView> {
        Some(looked_at(ctx))
    }

    fn manifest(&self) -> (r: &MethodManifest) {
        &self.manifest
    }

    fn extract(&self, ctx: &SessionContext<'_>) -> (r: Result<Outcome, Error>) {
        if ctx.session.key.transport != Transport::Tcp {
            return Ok(Outcome::NotApplicable);
        }
        let observations = ctx.observations();
        assert(observation_views(observations@.unref()).len() == observations@.len());
        if observations.len() == 0 {
            return Ok(Outcome::NotApplicable);
        }
        Ok(Outcome::NoMatch)
    }
}

/// The method matches nothing yet, and looks at nothing but TCP sessions that show a
/// packet.
pub proof fn nothing_matches_yet(ctx: SessionContextView)
    ensures
        looked_at(ctx) is NoMatch <==> ctx.session.key.transport == Transport::Tcp
            && ctx.observations().len() > 0,
        looked_at(ctx) is NotApplicable <==> !(looked_at(ctx) is NoMatch),
{
}

} // verus!
