//! What methods claim about endpoints.

use vstd::prelude::*;

use crate::observation::Endpoint;
use crate::text::copy_of;

verus! {

/// How sure a method is of a claim.
#[derive(Debug, Clone, Copy, PartialEq, Eq, Structural, PartialOrd, Ord)]
pub enum Confidence {
    Weak,
    Likely,
    Strong,
}

impl Confidence {
    /// The place of a confidence among the others, the weakest first.
    pub open spec fn rank(self) -> int {
        match self {
            Confidence::Weak => 0,
            Confidence::Likely => 1,
            Confidence::Strong => 2,
        }
    }

    /// Whether `self` is surer than `other`.
    pub fn exceeds(self, other: Confidence) -> (r: bool)
        ensures
            r == (self.rank() > other.rank()),
    {
        match (self, other) {
            (Confidence::Likely, Confidence::Weak) => true,
            (Confidence::Strong, Confidence::Weak) => true,
            (Confidence::Strong, Confidence::Likely) => true,
            _ => false,
        }
    }
}

/// A single claim a method makes about an endpoint.
#[derive(Debug, PartialEq, Eq)]
pub struct Evidence {
    /// The name of the method that makes it.
    pub method: String,
    pub subject: Endpoint,
    pub key: String,
    pub value: String,
    pub confidence: Confidence,
    /// Made before the session finished, so a later claim may supersede it.
    pub provisional: bool,
}

/// What an [`Evidence`] holds.
pub ghost struct EvidenceView {
    pub method: Seq<char>,
    pub subject: Endpoint,
    pub key: Seq<char>,
    pub value: Seq<char>,
    pub confidence: Confidence,
    pub provisional: bool,
}

impl View for Evidence {
    type V = EvidenceView;

    open spec fn view(&self) -> EvidenceView {
        EvidenceView {
            method: self.method@,
            subject: self.subject,
            key: self.key@,
            value: self.value@,
            confidence: self.confidence,
            provisional: self.provisional,
        }
    }
}

/// A settled claim.
pub open spec fn claim(
    method: Seq<char>,
    subject: Endpoint,
    key: Seq<char>,
    value: Seq<char>,
    confidence: Confidence,
) -> EvidenceView {
    EvidenceView { method, subject, key, value, confidence, provisional: false }
}

/// What a list of claims holds.
pub open spec fn evidence_views(list: Seq<Evidence>) -> Seq<EvidenceView> {
    Seq::new(list.len(), |i: int| list[i]@)
}

impl Evidence {
    pub fn new(
        method: &str,
        subject: Endpoint,
        key: &str,
        value: &str,
        confidence: Confidence,
    ) -> (r: Self)
        ensures
            r@ == claim(method@, subject, key@, value@, confidence),
    {
        Evidence {
            method: copy_of(method),
            subject,
            key: copy_of(key),
            value: copy_of(value),
            confidence,
            provisional: false,
        }
    }

    /// The same claim, marked as one that may be superseded.
    pub fn provisional(self) -> (r: Self)
        ensures
            r@ == (EvidenceView { provisional: true, ..self@ }),
    {
        self.marked(true)
    }

    pub fn marked(self, provisional: bool) -> (r: Self)
        ensures
            r@ == (EvidenceView { provisional, ..self@ }),
    {
        Evidence {
            method: self.method,
            subject: self.subject,
            key: self.key,
            value: self.value,
            confidence: self.confidence,
            provisional,
        }
    }
}

impl Clone for Evidence {
    fn clone(&self) -> (r: Self)
        ensures
            r@ == self@,
    {
        Evidence {
            method: self.method.clone(),
            subject: self.subject,
            key: self.key.clone(),
            value: self.value.clone(),
            confidence: self.confidence,
            provisional: self.provisional,
        }
    }
}

/// Copies a list of claims.
pub fn copied(list: &Vec<Evidence>) -> (r: Vec<Evidence>)
    ensures
        evidence_views(r@) == evidence_views(list@),
{
    let mut out: Vec<Evidence> = Vec::new();
    let mut i: usize = 0;
    while i < list.len()
        invariant
            i <= list@.len(),
            evidence_views(out@) == evidence_views(list@).take(i as int),
        decreases list@.len() - i,
    {
        let ghost before = evidence_views(out@);
        let item = list[i].clone();
        out.push(item);
        assert(evidence_views(out@) =~= before.push(item@));
        assert(evidence_views(out@) =~= evidence_views(list@).take(i + 1));
        i = i + 1;
    }
    assert(evidence_views(list@).take(i as int) =~= evidence_views(list@));
    out
}

/// A strong claim is surer than a likely one, and that than a weak one.
pub proof fn confidences_come_in_order()
    ensures
        Confidence::Weak.rank() < Confidence::Likely.rank() < Confidence::Strong.rank(),
{
}

} // verus!
