//! `ja4`: fired by a TLS ClientHello. It computes no hash yet, so it has nothing to
//! report.

use vstd::prelude::*;

use crate::error::Error;
use crate::manifest::{ManifestView, MethodManifest};
use crate::method::{Context, Method};
use crate::result::Fields;

verus! {

#[derive(Debug)]
pub struct Ja4 {
    pub manifest: MethodManifest,
}

impl Method for Ja4 {
    open spec fn declared(&self) -> ManifestView {
        self.manifest@
    }

    fn manifest(&self) -> (r: &MethodManifest)
        ensures
            *r == self.manifest,
    {
        &self.manifest
    }

    fn extract(&self, ctx: &Context<'_>) -> (r: Result<Vec<Fields>, Error>)
        ensures
            r matches Ok(found) && found@.len() == 0,
    {
        Ok(Vec::new())
    }
}

} // verus!
