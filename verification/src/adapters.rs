//! The methods that look at whole sessions, under one type.

use vstd::prelude::*;

use crate::banner::Banner;
use crate::error::Error;
use crate::f0p::F0p;
use crate::fusion::Fusion;
use crate::manifest::{ManifestView, MethodManifest};
use crate::method::{Outcome, OutcomeView, SessionContext, SessionContextView, SessionMethod};
use crate::tcp_syn::TcpSyn;

verus! {

#[derive(Debug)]
pub enum Adapter {
    F0p(F0p),
    Banner(Banner),
    Fusion(Fusion),
    TcpSyn(TcpSyn),
}

impl SessionMethod for Adapter {
    open spec fn declared(&self) -> ManifestView {
        match self {
            Adapter::F0p(method) => method.declared(),
            Adapter::Banner(method) => method.declared(),
            Adapter::Fusion(method) => method.declared(),
            Adapter::TcpSyn(method) => method.declared(),
        }
    }

    open spec fn outcome(&self, ctx: SessionContextView) -> Option<OutcomeView> {
        match self {
            Adapter::F0p(method) => method.outcome(ctx),
            Adapter::Banner(method) => method.outcome(ctx),
            Adapter::Fusion(method) => method.outcome(ctx),
            Adapter::TcpSyn(method) => method.outcome(ctx),
        }
    }

    fn manifest(&self) -> (r: &MethodManifest) {
        match self {
            Adapter::F0p(method) => method.manifest(),
            Adapter::Banner(method) => method.manifest(),
            Adapter::Fusion(method) => method.manifest(),
            Adapter::TcpSyn(method) => method.manifest(),
        }
    }

    fn extract(&self, ctx: &SessionContext<'_>) -> (r: Result<Outcome, Error>) {
        match self {
            Adapter::F0p(method) => method.extract(ctx),
            Adapter::Banner(method) => method.extract(ctx),
            Adapter::Fusion(method) => method.extract(ctx),
            Adapter::TcpSyn(method) => method.extract(ctx),
        }
    }
}

} // verus!
