//! `fusion`: combines what the other methods claim into a verdict.
//!
//! It runs at the lowest priority, so that the claims it reads are there.

use vstd::prelude::*;

use crate::error::Error;
use crate::evidence::{claim, evidence_views, Confidence, Evidence};
use crate::f0p::score::MinScore;
use crate::manifest::{ManifestView, MethodManifest};
use crate::method::{Outcome, OutcomeView, SessionContext, SessionContextView, SessionMethod};
use crate::profile::Verdict;

verus! {

#[derive(Debug)]
pub struct Fusion {
    pub manifest: MethodManifest,
    /// The score, in millionths, from which on an endpoint is called a scanner.
    pub threshold: MinScore,
}

/// The score that a session is given. No signal is weighed yet, so it is always
/// zero.
pub const SCORE: i64 = 0;

/// What a score makes of an endpoint.
pub open spec fn verdict_of(score: int, threshold: int) -> Verdict {
    if score >= threshold {
        Verdict::Scanner
    } else {
        Verdict::Unknown
    }
}

/// What the method makes of a session: a verdict wherever any claim was made,
/// settled once the session is over.
pub open spec fn fused(name: Seq<char>, threshold: int, ctx: SessionContextView) -> OutcomeView {
    if ctx.evidence.len() == 0 {
        OutcomeView::NoMatch
    } else {
        let verdict = claim(
            name,
            ctx.session.initiator,
            "verdict"@,
            verdict_of(SCORE as int, threshold).word(),
            Confidence::Weak,
        );
        if ctx.is_final {
            OutcomeView::Complete(seq![verdict])
        } else {
            OutcomeView::Partial(seq![verdict])
        }
    }
}

impl SessionMethod for Fusion {
    open spec fn declared(&self) -> ManifestView {
        self.manifest@
    }

    open spec fn outcome(&self, ctx: SessionContextView) -> Option<OutcomeView> {
        Some(fused(self.manifest.name@, self.threshold as int, ctx))
    }

    fn manifest(&self) -> (r: &MethodManifest) {
        &self.manifest
    }

    fn extract(&self, ctx: &SessionContext<'_>) -> (r: Result<Outcome, Error>) {
        if ctx.evidence.len() == 0 {
            return Ok(Outcome::NoMatch);
        }
        let verdict = if SCORE >= self.threshold {
            Verdict::Scanner
        } else {
            Verdict::Unknown
        };
        let told = Evidence::new(
            self.manifest.name.as_str(),
            ctx.session.initiator,
            "verdict",
            verdict.name(),
            Confidence::Weak,
        );
        let mut evidence: Vec<Evidence> = Vec::new();
        evidence.push(told);
        assert(evidence_views(evidence@) =~= seq![told@]);
        Ok(Outcome::settled_if(ctx.is_final, evidence))
    }
}

/// The verdict is one weak claim about the endpoint that opened the session, wherever any
/// method claimed anything: that it is a scanner where the score of nothing is enough for
/// the threshold, and that it is not known otherwise. It is settled once the session is
/// over.
pub proof fn verdicts_wait_for_claims(name: Seq<char>, threshold: int, ctx: SessionContextView)
    ensures
        ({
            let outcome = fused(name, threshold, ctx);
            let evidence = outcome.evidence();
            &&& outcome is NoMatch <==> ctx.evidence.len() == 0
            &&& outcome is Complete <==> ctx.evidence.len() > 0 && ctx.is_final
            &&& outcome is Partial <==> ctx.evidence.len() > 0 && !ctx.is_final
            &&& ctx.evidence.len() > 0 ==> {
                &&& evidence.len() == 1
                &&& evidence[0].method == name
                &&& evidence[0].subject == ctx.session.initiator
                &&& evidence[0].key == "verdict"@
                &&& evidence[0].confidence == Confidence::Weak
                &&& !evidence[0].provisional
                &&& threshold <= 0 ==> evidence[0].value == "scanner"@
                &&& threshold > 0 ==> evidence[0].value == "unknown"@
            }
        }),
{
}

} // verus!
