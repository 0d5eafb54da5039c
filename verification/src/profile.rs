//! What is believed about each endpoint.

use vstd::prelude::*;

use crate::evidence::{evidence_views, Confidence, Evidence, EvidenceView};
use crate::observation::Endpoint;
use crate::table::{
    distinct, lemma_index_of_key, lemma_index_unique, lemma_map_values, map_of, viewed, Table,
};
use crate::text;

verus! {

/// What an endpoint is taken for.
#[derive(Debug, Clone, Copy, PartialEq, Eq, Structural)]
pub enum Verdict {
    Unknown,
    Benign,
    /// An automated scanner.
    Scanner,
}

impl Verdict {
    /// The verdict in one word.
    pub open spec fn word(self) -> Seq<char> {
        match self {
            Verdict::Unknown => "unknown"@,
            Verdict::Benign => "benign"@,
            Verdict::Scanner => "scanner"@,
        }
    }

    pub fn name(self) -> (r: &'static str)
        ensures
            r@ == self.word(),
    {
        match self {
            Verdict::Unknown => "unknown",
            Verdict::Benign => "benign",
            Verdict::Scanner => "scanner",
        }
    }
}

impl Default for Verdict {
    fn default() -> (r: Self)
        ensures
            r == Verdict::Unknown,
    {
        Verdict::Unknown
    }
}

/// One thing believed about an endpoint.
#[derive(Debug)]
pub struct Attribute {
    pub value: String,
    pub confidence: Confidence,
    /// The method that claims it.
    pub method: String,
    /// More of the session may change it.
    pub provisional: bool,
}

/// What an [`Attribute`] holds.
pub ghost struct AttributeView {
    pub value: Seq<char>,
    pub confidence: Confidence,
    pub method: Seq<char>,
    pub provisional: bool,
}

impl View for Attribute {
    type V = AttributeView;

    open spec fn view(&self) -> AttributeView {
        AttributeView {
            value: self.value@,
            confidence: self.confidence,
            method: self.method@,
            provisional: self.provisional,
        }
    }
}

/// The name that an attribute is kept and shown under: `<method>.<key>`.
pub open spec fn attribute_name(method: Seq<char>, key: Seq<char>) -> Seq<char> {
    method.push('.') + key
}

/// Writes the name of an attribute.
pub fn attribute_key(method: &str, key: &str) -> (r: String)
    ensures
        r@ == attribute_name(method@, key@),
{
    let mut out = text::copy_of(method);
    out.push('.');
    out.append(key);
    out
}

/// Everything believed about one endpoint.
#[derive(Debug)]
pub struct Profile {
    pub verdict: Verdict,
    /// By their names, so that the claims of each method stay visible side by side.
    pub attributes: Table<String, Attribute>,
    /// Every claim ever made, in order.
    pub evidence: Vec<Evidence>,
}

/// What a [`Profile`] holds.
pub ghost struct ProfileView {
    pub verdict: Verdict,
    pub attributes: Map<Seq<char>, AttributeView>,
    pub evidence: Seq<EvidenceView>,
}

pub open spec fn attribute_views(attributes: Map<Seq<char>, Attribute>) -> Map<
    Seq<char>,
    AttributeView,
> {
    attributes.map_values(|a: Attribute| a@)
}

impl View for Profile {
    type V = ProfileView;

    open spec fn view(&self) -> ProfileView {
        ProfileView {
            verdict: self.verdict,
            attributes: attribute_views(self.attributes@),
            evidence: evidence_views(self.evidence@),
        }
    }
}

impl ProfileView {
    /// Nothing is believed yet.
    pub open spec fn blank() -> ProfileView {
        ProfileView {
            verdict: Verdict::Unknown,
            attributes: Map::empty(),
            evidence: Seq::empty(),
        }
    }

    /// The profile with one more claim. A claim takes the place of the one that the
    /// same method made under the same key before, unless that one was stronger.
    pub open spec fn with_claim(self, evidence: EvidenceView) -> ProfileView {
        let name = attribute_name(evidence.method, evidence.key);
        let keeps = self.attributes.contains_key(name) && self.attributes[name].confidence.rank()
            > evidence.confidence.rank();
        ProfileView {
            attributes: if keeps {
                self.attributes
            } else {
                self.attributes.insert(
                    name,
                    AttributeView {
                        value: evidence.value,
                        confidence: evidence.confidence,
                        method: evidence.method,
                        provisional: evidence.provisional,
                    },
                )
            },
            evidence: self.evidence.push(evidence),
            ..self
        }
    }
}

impl Default for Profile {
    fn default() -> (r: Self)
        ensures
            r@ == ProfileView::blank(),
            r.attributes.wf(),
    {
        let r = Profile {
            verdict: Verdict::Unknown,
            attributes: Table::new(),
            evidence: Vec::new(),
        };
        assert(r@.attributes =~= Map::empty());
        assert(r@.evidence =~= Seq::empty());
        r
    }
}

impl Profile {
    /// Takes in a claim.
    pub fn record(&mut self, evidence: Evidence)
        requires
            old(self).attributes.wf(),
        ensures
            final(self).attributes.wf(),
            final(self)@ == old(self)@.with_claim(evidence@),
    {
        let key = attribute_key(evidence.method.as_str(), evidence.key.as_str());
        let keep_existing = match self.attributes.get(&key) {
            Some(existing) => existing.confidence.exceeds(evidence.confidence),
            None => false,
        };
        let ghost before = attribute_views(self.attributes@);
        if !keep_existing {
            let attribute = Attribute {
                value: evidence.value.clone(),
                confidence: evidence.confidence,
                method: evidence.method.clone(),
                provisional: evidence.provisional,
            };
            let ghost name = key@;
            self.attributes.insert(key, attribute);
            assert(attribute_views(self.attributes@) =~= before.insert(name, attribute@));
        }
        self.evidence.push(evidence);
        assert(self@.evidence =~= old(self)@.evidence.push(evidence@));
    }
}

/// What is believed about all endpoints.
#[derive(Debug)]
pub struct ProfileStore {
    profiles: Table<Endpoint, Profile>,
}

/// The profile of an endpoint, blank where there is none.
pub open spec fn profile_of(store: Map<Endpoint, ProfileView>, subject: Endpoint) -> ProfileView {
    if store.contains_key(subject) {
        store[subject]
    } else {
        ProfileView::blank()
    }
}

/// The store with one more claim, about its subject.
pub open spec fn recorded(store: Map<Endpoint, ProfileView>, evidence: EvidenceView) -> Map<
    Endpoint,
    ProfileView,
> {
    store.insert(
        evidence.subject,
        profile_of(store, evidence.subject).with_claim(evidence),
    )
}

/// The store with a list of claims, taken in in order.
pub open spec fn recorded_all(
    store: Map<Endpoint, ProfileView>,
    evidence: Seq<EvidenceView>,
) -> Map<Endpoint, ProfileView>
    decreases evidence.len(),
{
    if evidence.len() == 0 {
        store
    } else {
        recorded(recorded_all(store, evidence.drop_last()), evidence.last())
    }
}

spec fn profile_views(profiles: Map<Endpoint, Profile>) -> Map<Endpoint, ProfileView> {
    profiles.map_values(|p: Profile| p@)
}

impl View for ProfileStore {
    type V = Map<Endpoint, ProfileView>;

    closed spec fn view(&self) -> Map<Endpoint, ProfileView> {
        profile_views(self.profiles@)
    }
}

/// Endpoints and what is believed about each.
pub open spec fn rows_of(list: Seq<(&Endpoint, &Profile)>) -> Seq<(Endpoint, ProfileView)> {
    Seq::new(list.len(), |i: int| (*list[i].0, list[i].1@))
}

impl ProfileStore {
    pub closed spec fn wf(&self) -> bool {
        &&& self.profiles.wf()
        &&& forall|subject: Endpoint| #[trigger]
            self.profiles@.contains_key(subject) ==> self.profiles@[subject].attributes.wf()
    }

    pub fn new() -> (r: Self)
        ensures
            r.wf(),
            r@ == Map::<Endpoint, ProfileView>::empty(),
    {
        let r = ProfileStore { profiles: Table::new() };
        assert(r@ =~= Map::empty());
        r
    }

    /// Makes sure that there is a profile of an endpoint.
    fn touch(&mut self, subject: Endpoint)
        requires
            old(self).wf(),
        ensures
            final(self).wf(),
            final(self)@ == old(self)@.insert(subject, profile_of(old(self)@, subject)),
            final(self).profiles@.contains_key(subject),
    {
        if !self.profiles.contains(&subject) {
            let blank = Profile::default();
            self.profiles.insert(subject, blank);
            assert forall|s: Endpoint| #[trigger] self.profiles@.contains_key(s) implies
                self.profiles@[s].attributes.wf() by {
                if s != subject {
                    assert(old(self).profiles@.contains_key(s));
                }
            }
        }
        assert(self@ =~= old(self)@.insert(subject, profile_of(old(self)@, subject)));
    }

    /// Takes in a claim about its subject.
    pub fn record(&mut self, evidence: Evidence)
        requires
            old(self).wf(),
        ensures
            final(self).wf(),
            final(self)@ == recorded(old(self)@, evidence@),
    {
        let subject = evidence.subject;
        self.touch(subject);
        let ghost touched = self@;
        let ghost held = self.profiles@;
        if let Some(profile) = self.profiles.get_mut(&subject) {
            assert(held.contains_key(subject));
            profile.record(evidence);
        }
        proof {
            assert forall|s: Endpoint| #[trigger] self.profiles@.contains_key(s) implies
                self.profiles@[s].attributes.wf() by {
                assert(held.contains_key(s));
            }
            assert(touched[subject] == held[subject]@);
            assert(self.profiles@ == held.insert(subject, self.profiles@[subject]));
            assert(self.profiles@[subject]@ == touched[subject].with_claim(evidence@));
            assert(self@ =~= touched.insert(subject, self.profiles@[subject]@));
            assert(self@ =~= recorded(old(self)@, evidence@));
        }
    }

    /// Settles what an endpoint is taken for.
    pub fn set_verdict(&mut self, subject: Endpoint, verdict: Verdict)
        requires
            old(self).wf(),
        ensures
            final(self).wf(),
            final(self)@ == old(self)@.insert(
                subject,
                ProfileView { verdict, ..profile_of(old(self)@, subject) },
            ),
    {
        self.touch(subject);
        let ghost touched = self@;
        let ghost held = self.profiles@;
        if let Some(profile) = self.profiles.get_mut(&subject) {
            assert(held.contains_key(subject));
            profile.verdict = verdict;
        }
        proof {
            assert forall|s: Endpoint| #[trigger] self.profiles@.contains_key(s) implies
                self.profiles@[s].attributes.wf() by {
                assert(held.contains_key(s));
            }
            assert(touched[subject] == held[subject]@);
            assert(self.profiles@ == held.insert(subject, self.profiles@[subject]));
            assert(self.profiles@[subject]@ == (ProfileView { verdict, ..touched[subject] }));
            assert(self@ =~= touched.insert(subject, self.profiles@[subject]@));
            assert(self@ =~= old(self)@.insert(
                subject,
                ProfileView { verdict, ..profile_of(old(self)@, subject) },
            ));
        }
    }

    /// The profile of an endpoint.
    pub fn get(&self, subject: &Endpoint) -> (r: Option<&Profile>)
        requires
            self.wf(),
        ensures
            match r {
                Some(profile) => self@.contains_key(*subject) && self@[*subject] == profile@
                    && profile.attributes.wf(),
                None => !self@.contains_key(*subject),
            },
    {
        self.profiles.get(subject)
    }

    /// The endpoints and their profiles, in the order in which the endpoints first
    /// came up.
    pub closed spec fn rows(&self) -> Seq<(Endpoint, ProfileView)> {
        viewed(self.profiles.pairs(), |p: Profile| p@)
    }

    /// Every endpoint with its profile.
    pub fn iter(&self) -> (r: Vec<(&Endpoint, &Profile)>)
        requires
            self.wf(),
        ensures
            rows_of(r@) == self.rows(),
            distinct(self.rows()),
            map_of(self.rows()) == self@,
            forall|i: int| 0 <= i < r@.len() ==> (#[trigger] r@[i]).1.attributes.wf(),
    {
        let mut out: Vec<(&Endpoint, &Profile)> = Vec::new();
        let ghost pairs = self.profiles.pairs();
        proof {
            lemma_map_values(pairs, |p: Profile| p@);
        }
        let mut i: usize = 0;
        while i < self.profiles.len()
            invariant
                self.wf(),
                pairs == self.profiles.pairs(),
                i <= pairs.len(),
                rows_of(out@) == self.rows().take(i as int),
                forall|j: int| 0 <= j < out@.len() ==> (#[trigger] out@[j]).1.attributes.wf(),
            decreases pairs.len() - i,
        {
            let ghost before = rows_of(out@);
            let entry = self.profiles.at(i);
            proof {
                lemma_index_of_key(pairs, pairs[i as int].0);
                lemma_index_unique(pairs, i as int);
                assert(self.profiles@.contains_key(pairs[i as int].0));
            }
            out.push(entry);
            assert(rows_of(out@) =~= before.push((*entry.0, entry.1@)));
            assert(rows_of(out@) =~= self.rows().take(i + 1));
            i = i + 1;
        }
        assert(self.rows().take(i as int) =~= self.rows());
        out
    }
}

// ---------------------------------------------------------------------------
// Laws

/// What two methods say under the same key is kept apart: the name of an attribute
/// tells its method, as long as no method's name has a dot in it.
pub proof fn methods_are_kept_apart(
    method: Seq<char>,
    key: Seq<char>,
    other: Seq<char>,
    other_key: Seq<char>,
)
    requires
        !method.contains('.'),
        !other.contains('.'),
        attribute_name(method, key) == attribute_name(other, other_key),
    ensures
        method == other,
        key == other_key,
{
    let name = attribute_name(method, key);
    assert(name[method.len() as int] == '.');
    assert(name[other.len() as int] == '.');
    assert forall|i: int| 0 <= i < method.len() implies name[i] != '.' by {
        assert(name[i] == method[i]);
    }
    assert forall|i: int| 0 <= i < other.len() implies name[i] != '.' by {
        assert(name[i] == other[i]);
    }
    text::lemma_position_unique(name, '.', method.len() as int);
    text::lemma_position_unique(name, '.', other.len() as int);
    assert(method =~= name.take(method.len() as int));
    assert(other =~= name.take(other.len() as int));
    assert(key =~= name.skip(method.len() as int + 1));
    assert(other_key =~= name.skip(other.len() as int + 1));
}

/// A claim never makes an attribute weaker, and an equal or a stronger one replaces
/// it.
pub proof fn stronger_claims_stay(profile: ProfileView, evidence: EvidenceView)
    ensures
        ({
            let name = attribute_name(evidence.method, evidence.key);
            let after = profile.with_claim(evidence);
            &&& after.attributes.contains_key(name)
            &&& after.attributes[name].confidence.rank() >= evidence.confidence.rank()
            &&& profile.attributes.contains_key(name) ==> after.attributes[name].confidence.rank()
                >= profile.attributes[name].confidence.rank()
            &&& profile.attributes.contains_key(name) && profile.attributes[name].confidence.rank()
                > evidence.confidence.rank() ==> after.attributes[name] == profile.attributes[name]
            &&& !(profile.attributes.contains_key(name)
                && profile.attributes[name].confidence.rank() > evidence.confidence.rank())
                ==> after.attributes[name].value == evidence.value
        }),
{
}

/// A claim touches nothing but the profile of its subject, and there nothing but
/// the attribute of its own name; and no claim is ever lost.
pub proof fn claims_touch_their_subject_only(
    store: Map<Endpoint, ProfileView>,
    evidence: EvidenceView,
    other: Endpoint,
    name: Seq<char>,
)
    ensures
        other != evidence.subject ==> profile_of(recorded(store, evidence), other) == profile_of(
            store,
            other,
        ),
        name != attribute_name(evidence.method, evidence.key) ==> {
            let before = profile_of(store, evidence.subject).attributes;
            let after = profile_of(recorded(store, evidence), evidence.subject).attributes;
            &&& before.contains_key(name) == after.contains_key(name)
            &&& before.contains_key(name) ==> before[name] == after[name]
        },
        profile_of(recorded(store, evidence), evidence.subject).evidence == profile_of(
            store,
            evidence.subject,
        ).evidence.push(evidence),
        profile_of(recorded(store, evidence), evidence.subject).verdict == profile_of(
            store,
            evidence.subject,
        ).verdict,
{
}

/// The name of an attribute is its method's, a dot, and its key.
pub proof fn names_tell_method_and_key(method: Seq<char>, key: Seq<char>)
    ensures
        ({
            let name = attribute_name(method, key);
            let dot = method.len() as int;
            &&& name.len() == method.len() + 1 + key.len()
            &&& name.take(dot) == method
            &&& name[dot] == '.'
            &&& name.skip(dot + 1) == key
        }),
{
    let name = attribute_name(method, key);
    assert(name.take(method.len() as int) =~= method);
    assert(name.skip(method.len() as int + 1) =~= key);
}

/// A claim stands as it was made, unless the method has made a stronger one before: a
/// strong one against any that is not, or a likely one against a weak one. Claims never
/// settle the verdict.
pub proof fn claims_stand_unless_outdone(profile: ProfileView, evidence: EvidenceView)
    ensures
        ({
            let name = attribute_name(evidence.method, evidence.key);
            let after = profile.with_claim(evidence);
            let known = profile.attributes.contains_key(name);
            let outdone = known && match profile.attributes[name].confidence {
                Confidence::Strong => evidence.confidence != Confidence::Strong,
                Confidence::Likely => evidence.confidence == Confidence::Weak,
                Confidence::Weak => false,
            };
            &&& after.attributes.contains_key(name)
            &&& outdone ==> after.attributes == profile.attributes
            &&& !outdone ==> {
                &&& after.attributes[name].value == evidence.value
                &&& after.attributes[name].confidence == evidence.confidence
                &&& after.attributes[name].method == evidence.method
                &&& after.attributes[name].provisional == evidence.provisional
                &&& after.attributes.remove(name) == profile.attributes.remove(name)
            }
            &&& after.evidence.len() == profile.evidence.len() + 1
            &&& after.evidence.last() == evidence
            &&& after.evidence.drop_last() == profile.evidence
            &&& after.verdict == profile.verdict
        }),
{
    let name = attribute_name(evidence.method, evidence.key);
    let after = profile.with_claim(evidence);
    assert(after.evidence.drop_last() =~= profile.evidence);
    assert(profile.attributes.insert(name, after.attributes[name]).remove(name)
        =~= profile.attributes.remove(name));
}

/// Of an endpoint that has not come up nothing is believed; and the first claim about
/// it is taken in as it is.
pub proof fn endpoints_start_unknown(store: Map<Endpoint, ProfileView>, evidence: EvidenceView)
    requires
        !store.contains_key(evidence.subject),
    ensures
        ({
            let after = recorded(store, evidence);
            let name = attribute_name(evidence.method, evidence.key);
            &&& after.contains_key(evidence.subject)
            &&& after[evidence.subject].verdict == Verdict::Unknown
            &&& after[evidence.subject].evidence == seq![evidence]
            &&& after[evidence.subject].attributes.dom() == set![name]
            &&& after[evidence.subject].attributes[name].value == evidence.value
            &&& after.remove(evidence.subject) == store
        }),
{
    let after = recorded(store, evidence);
    let name = attribute_name(evidence.method, evidence.key);
    assert(after[evidence.subject].evidence =~= seq![evidence]);
    assert(after[evidence.subject].attributes.dom() =~= set![name]);
    assert(after.remove(evidence.subject) =~= store);
}

/// Claims are taken in one after the other.
pub proof fn claims_are_taken_in_in_order(
    store: Map<Endpoint, ProfileView>,
    first: Seq<EvidenceView>,
    more: Seq<EvidenceView>,
)
    ensures
        recorded_all(store, first + more) == recorded_all(recorded_all(store, first), more),
        forall|one: EvidenceView| #[trigger]
            recorded_all(store, seq![one]) == recorded(store, one),
    decreases more.len(),
{
    assert forall|one: EvidenceView| #[trigger]
        recorded_all(store, seq![one]) == recorded(store, one) by {
        assert(seq![one].drop_last() =~= Seq::<EvidenceView>::empty());
        assert(recorded_all(store, Seq::empty()) == store);
    }
    if more.len() == 0 {
        assert(first + more =~= first);
    } else {
        claims_are_taken_in_in_order(store, first, more.drop_last());
        assert((first + more).drop_last() =~= first + more.drop_last());
    }
}

} // verus!
