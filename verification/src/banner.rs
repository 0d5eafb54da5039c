//! `banner`: client software from the HTTP `User-Agent`, matched against a list of
//! known libraries, scanners and crawlers.

use vstd::prelude::*;
use vstd::slice::slice_subrange;

use crate::error::Error;
use crate::evidence::{claim, evidence_views, Confidence, Evidence, EvidenceView};
use crate::http::{http_user_agent, user_agent_in};
use crate::manifest::{ManifestView, MethodManifest};
use crate::method::{Outcome, OutcomeView, SessionContext, SessionContextView, SessionMethod};
use crate::observation::{Endpoint, Observation, ObservationView};
use crate::session::observation_views;
use crate::text;
use crate::text::{begins, lower, occurs, strings, white_space};

verus! {

/// One kind of client, and how it is told: the User-Agent fits any one of the
/// patterns, whatever the case of either.
#[derive(Debug)]
pub struct BannerRule {
    pub client: String,
    /// `library`, `scanner`, `crawler` or `malformed`.
    pub category: String,
    /// The User-Agent is one of these.
    pub exact: Vec<String>,
    /// The User-Agent begins with one of these. A version can be read behind it.
    pub prefix: Vec<String>,
    /// One of these occurs in the User-Agent.
    pub contains: Vec<String>,
}

/// What a [`BannerRule`] holds.
pub ghost struct RuleView {
    pub client: Seq<char>,
    pub category: Seq<char>,
    pub exact: Seq<Seq<char>>,
    pub prefix: Seq<Seq<char>>,
    pub contains: Seq<Seq<char>>,
}

impl View for BannerRule {
    type V = RuleView;

    open spec fn view(&self) -> RuleView {
        RuleView {
            client: self.client@,
            category: self.category@,
            exact: strings(self.exact@),
            prefix: strings(self.prefix@),
            contains: strings(self.contains@),
        }
    }
}

/// What a list of rules holds.
pub open spec fn rule_views(list: Seq<BannerRule>) -> Seq<RuleView> {
    Seq::new(list.len(), |i: int| list[i]@)
}

#[derive(Debug)]
pub struct BannerDb {
    pub rules: Vec<BannerRule>,
}

impl Default for BannerDb {
    fn default() -> (r: Self)
        ensures
            r.rules@.len() == 0,
    {
        BannerDb { rules: Vec::new() }
    }
}

/// Whether a text in lower case is one of the patterns.
pub open spec fn is_one_of(agent: Seq<char>, patterns: Seq<Seq<char>>) -> bool {
    exists|i: int| 0 <= i < patterns.len() && agent == lower(#[trigger] patterns[i])
}

/// Whether a text in lower case begins with one of the patterns.
pub open spec fn begins_with_one_of(agent: Seq<char>, patterns: Seq<Seq<char>>) -> bool {
    exists|i: int| 0 <= i < patterns.len() && begins(agent, lower(#[trigger] patterns[i]))
}

/// Whether one of the patterns occurs in a text in lower case.
pub open spec fn holds_one_of(agent: Seq<char>, patterns: Seq<Seq<char>>) -> bool {
    exists|i: int| 0 <= i < patterns.len() && occurs(agent, lower(#[trigger] patterns[i]))
}

impl RuleView {
    /// Whether the rule fits a User-Agent, which is given in lower case.
    pub open spec fn fits(self, agent: Seq<char>) -> bool {
        is_one_of(agent, self.exact) || begins_with_one_of(agent, self.prefix) || holds_one_of(
            agent,
            self.contains,
        )
    }
}

/// The first prefix that fits, in lower case.
pub open spec fn fitting_prefix(prefixes: Seq<Seq<char>>, agent: Seq<char>) -> Option<Seq<char>>
    decreases prefixes.len(),
{
    if prefixes.len() == 0 {
        None
    } else if begins(agent, lower(prefixes[0])) {
        Some(lower(prefixes[0]))
    } else {
        fitting_prefix(prefixes.skip(1), agent)
    }
}

/// What a version ends at.
pub open spec fn ends_version(c: char) -> bool {
    white_space(c) || c == ')' || c == ';'
}

/// The beginning of a text, up to where a version ends.
pub open spec fn version_in(s: Seq<char>) -> Seq<char>
    decreases s.len(),
{
    if s.len() == 0 || ends_version(s[0]) {
        Seq::empty()
    } else {
        seq![s[0]] + version_in(s.skip(1))
    }
}

/// What follows a fitting prefix, up to white space, a closing bracket or a
/// semicolon; `None` where no prefix fits or nothing follows.
pub open spec fn version_of(agent: Seq<char>, prefixes: Seq<Seq<char>>) -> Option<Seq<char>> {
    match fitting_prefix(prefixes, lower(agent)) {
        Some(prefix) => {
            let version = version_in(agent.skip(prefix.len() as int));
            if version.len() == 0 {
                None
            } else {
                Some(version)
            }
        },
        None => None,
    }
}

fn small(s: &str) -> (r: Vec<char>)
    ensures
        r@ == lower(s@),
{
    let chars = text::chars_of(s);
    text::to_lower(chars.as_slice())
}

fn any_is(list: &Vec<String>, agent: &[char]) -> (r: bool)
    ensures
        r == is_one_of(agent@, strings(list@)),
{
    let ghost all = strings(list@);
    let mut i: usize = 0;
    while i < list.len()
        invariant
            i <= list@.len(),
            all == strings(list@),
            forall|j: int| 0 <= j < i ==> agent@ != lower(#[trigger] all[j]),
        decreases list@.len() - i,
    {
        let pattern = small(list[i].as_str());
        assert(pattern@ == lower(all[i as int]));
        if text::same(agent, pattern.as_slice()) {
            return true;
        }
        i = i + 1;
    }
    false
}

fn any_begins(list: &Vec<String>, agent: &[char]) -> (r: bool)
    ensures
        r == begins_with_one_of(agent@, strings(list@)),
{
    let ghost all = strings(list@);
    let mut i: usize = 0;
    while i < list.len()
        invariant
            i <= list@.len(),
            all == strings(list@),
            forall|j: int| 0 <= j < i ==> !begins(agent@, lower(#[trigger] all[j])),
        decreases list@.len() - i,
    {
        let pattern = small(list[i].as_str());
        assert(pattern@ == lower(all[i as int]));
        if text::begins_with(agent, pattern.as_slice()) {
            return true;
        }
        i = i + 1;
    }
    false
}

fn any_occurs(list: &Vec<String>, agent: &[char]) -> (r: bool)
    ensures
        r == holds_one_of(agent@, strings(list@)),
{
    let ghost all = strings(list@);
    let mut i: usize = 0;
    while i < list.len()
        invariant
            i <= list@.len(),
            all == strings(list@),
            forall|j: int| 0 <= j < i ==> !occurs(agent@, lower(#[trigger] all[j])),
        decreases list@.len() - i,
    {
        let pattern = small(list[i].as_str());
        assert(pattern@ == lower(all[i as int]));
        if text::contains(agent, pattern.as_slice()) {
            return true;
        }
        i = i + 1;
    }
    false
}

impl BannerRule {
    /// Whether the rule fits a User-Agent, which is given in lower case.
    pub fn matches(&self, ua_lower: &str) -> (r: bool)
        ensures
            r == self@.fits(ua_lower@),
    {
        let agent = text::chars_of(ua_lower);
        any_is(&self.exact, agent.as_slice()) || any_begins(&self.prefix, agent.as_slice())
            || any_occurs(&self.contains, agent.as_slice())
    }
}

/// Reads the version out of a User-Agent that a rule fits. The User-Agent is given
/// as it came and in lower case.
pub fn extract_version(user_agent: &str, ua_lower: &str, rule: &BannerRule) -> (r: Option<String>)
    requires
        ua_lower@ == lower(user_agent@),
    ensures
        match r {
            Some(version) => version_of(user_agent@, rule@.prefix) == Some(version@),
            None => version_of(user_agent@, rule@.prefix) is None,
        },
{
    let agent = text::chars_of(user_agent);
    let lowered = text::chars_of(ua_lower);
    let ghost all = strings(rule.prefix@);
    let mut i: usize = 0;
    assert(all.skip(0) =~= all);
    while i < rule.prefix.len()
        invariant
            i <= rule.prefix@.len(),
            all == strings(rule.prefix@),
            agent@ == user_agent@,
            lowered@ == lower(agent@),
            fitting_prefix(all, lowered@) == fitting_prefix(all.skip(i as int), lowered@),
        decreases rule.prefix@.len() - i,
    {
        let prefix = small(rule.prefix[i].as_str());
        proof {
            assert(all.skip(i as int)[0] == all[i as int]);
            assert(prefix@ == lower(all[i as int]));
            assert(all.skip(i as int).skip(1) =~= all.skip(i + 1));
        }
        if text::begins_with(lowered.as_slice(), prefix.as_slice()) {
            assert(lowered@.len() == agent@.len());
            let rest = slice_subrange(agent.as_slice(), prefix.len(), agent.len());
            assert(rest@ =~= agent@.skip(prefix@.len() as int));
            let version = leading_version(rest);
            return if version.len() == 0 {
                None
            } else {
                Some(text::string_of(version))
            };
        }
        i = i + 1;
    }
    None
}

fn leading_version<'a>(s: &'a [char]) -> (r: &'a [char])
    ensures
        r@ == version_in(s@),
{
    let mut i: usize = 0;
    assert(s@.skip(0) =~= s@);
    assert(s@.take(0) + version_in(s@.skip(0)) =~= version_in(s@));
    while i < s.len() && !(text::is_white_space(s[i]) || s[i] == ')' || s[i] == ';')
        invariant
            i <= s@.len(),
            version_in(s@) == s@.take(i as int) + version_in(s@.skip(i as int)),
        decreases s@.len() - i,
    {
        proof {
            assert(s@.skip(i as int)[0] == s@[i as int]);
            assert(s@.skip(i as int).skip(1) =~= s@.skip(i + 1));
            assert(s@.take(i as int) + (seq![s@[i as int]] + version_in(s@.skip(i + 1)))
                =~= s@.take(i + 1) + version_in(s@.skip(i + 1)));
        }
        i = i + 1;
    }
    let r = slice_subrange(s, 0, i);
    proof {
        if i < s@.len() {
            assert(s@.skip(i as int)[0] == s@[i as int]);
        }
        assert(version_in(s@.skip(i as int)) =~= Seq::empty());
        assert(r@ =~= version_in(s@));
    }
    r
}

// ---------------------------------------------------------------------------
// The method

/// The method, with its rules.
#[derive(Debug)]
pub struct Banner {
    pub manifest: MethodManifest,
    pub db: BannerDb,
    /// How many bytes of a session are scanned at most.
    pub max_bytes: usize,
}

/// The observations that are scanned: the first ones, as long as their payloads stay
/// within the budget together.
pub open spec fn scanned(observations: Seq<ObservationView>, budget: int) -> Seq<ObservationView>
    decreases observations.len(),
{
    if observations.len() == 0 || observations[0].payload.len() > budget {
        Seq::empty()
    } else {
        seq![observations[0]] + scanned(
            observations.skip(1),
            budget - observations[0].payload.len(),
        )
    }
}

/// How many bytes of payload there are.
pub open spec fn payload_bytes(observations: Seq<ObservationView>) -> nat
    decreases observations.len(),
{
    if observations.len() == 0 {
        0
    } else {
        observations[0].payload.len() + payload_bytes(observations.skip(1))
    }
}

/// No more bytes are scanned than the budget allows, however long the session is.
pub proof fn scanning_is_capped(observations: Seq<ObservationView>, budget: int)
    requires
        budget >= 0,
    ensures
        payload_bytes(scanned(observations, budget)) <= budget,
    decreases observations.len(),
{
    if observations.len() > 0 && observations[0].payload.len() <= budget {
        let rest = scanned(observations.skip(1), budget - observations[0].payload.len());
        scanning_is_capped(observations.skip(1), budget - observations[0].payload.len());
        assert((seq![observations[0]] + rest).skip(1) =~= rest);
    }
}

/// The User-Agent of the first observation that is a request.
pub open spec fn first_agent(observations: Seq<ObservationView>) -> Option<Seq<char>>
    decreases observations.len(),
{
    if observations.len() == 0 {
        None
    } else {
        match user_agent_in(observations[0].payload) {
            Some(agent) => Some(agent),
            None => first_agent(observations.skip(1)),
        }
    }
}

/// The first rule that fits.
pub open spec fn first_rule(rules: Seq<RuleView>, agent: Seq<char>) -> Option<RuleView>
    decreases rules.len(),
{
    if rules.len() == 0 {
        None
    } else if rules[0].fits(agent) {
        Some(rules[0])
    } else {
        first_rule(rules.skip(1), agent)
    }
}

/// What a rule that fits tells: the client, its category, and its version where
/// one can be read.
pub open spec fn banner_claims(
    name: Seq<char>,
    subject: Endpoint,
    rule: RuleView,
    agent: Seq<char>,
) -> Seq<EvidenceView> {
    let first = seq![
        claim(name, subject, "client"@, rule.client, Confidence::Strong),
        claim(name, subject, "category"@, rule.category, Confidence::Strong),
    ];
    match version_of(agent, rule.prefix) {
        Some(version) => first.push(
            claim(name, subject, "version"@, version, Confidence::Strong),
        ),
        None => first,
    }
}

/// What the method makes of a session. A User-Agent is a settled claim: more of
/// the session would not change it.
pub open spec fn identify(
    name: Seq<char>,
    rules: Seq<RuleView>,
    max_bytes: usize,
    ctx: SessionContextView,
) -> OutcomeView {
    let scope = scanned(ctx.observations(), max_bytes as int);
    if payload_bytes(scope) == 0 {
        OutcomeView::NotApplicable
    } else {
        match first_agent(scope) {
            Some(agent) => match first_rule(rules, lower(agent)) {
                Some(rule) => OutcomeView::Complete(
                    banner_claims(name, ctx.session.initiator, rule, agent),
                ),
                None => OutcomeView::NoMatch,
            },
            None => OutcomeView::NoMatch,
        }
    }
}

/// How many observations are scanned, and whether they hold any bytes.
fn scope_of(observations: &Vec<&Observation>, max_bytes: usize) -> (r: (usize, bool))
    ensures
        r.0 <= observations@.len(),
        scanned(observation_views(observations@.unref()), max_bytes as int) == observation_views(
            observations@.unref(),
        ).take(r.0 as int),
        r.1 == (payload_bytes(
            scanned(observation_views(observations@.unref()), max_bytes as int),
        ) > 0),
{
    let ghost all = observation_views(observations@.unref());
    let ghost whole = scanned(all, max_bytes as int);
    let mut left: usize = max_bytes;
    let mut any = false;
    let mut i: usize = 0;
    assert(all.skip(0) =~= all);
    assert(whole =~= all.take(0) + whole);
    while i < observations.len() && observations[i].payload.len() <= left
        invariant
            i <= observations@.len(),
            all == observation_views(observations@.unref()),
            all.len() == observations@.len(),
            whole == scanned(all, max_bytes as int),
            whole == all.take(i as int) + scanned(all.skip(i as int), left as int),
            any == (payload_bytes(all.take(i as int)) > 0),
        decreases observations@.len() - i,
    {
        let len: usize = observations[i].payload.len();
        proof {
            let rest = all.skip(i as int);
            assert(all[i as int] == observations@[i as int]@);
            assert(rest[0] == observations@[i as int]@);
            assert(rest.skip(1) =~= all.skip(i + 1));
            assert(whole =~= all.take(i + 1) + scanned(all.skip(i + 1), left - len));
            assert(all.take(i + 1) =~= all.take(i as int).push(all[i as int]));
            lemma_bytes_push(all.take(i as int), all[i as int]);
        }
        left = left - len;
        any = any || len > 0;
        i = i + 1;
    }
    proof {
        if i < all.len() {
            assert(all[i as int] == observations@[i as int]@);
            assert(all.skip(i as int)[0] == observations@[i as int]@);
        }
        assert(whole =~= all.take(i as int));
    }
    (i, any)
}

proof fn lemma_bytes_push(observations: Seq<ObservationView>, more: ObservationView)
    ensures
        payload_bytes(observations.push(more)) == payload_bytes(observations) + more.payload.len(),
    decreases observations.len(),
{
    reveal_with_fuel(payload_bytes, 2);
    if observations.len() > 0 {
        lemma_bytes_push(observations.skip(1), more);
        assert(observations.push(more).skip(1) =~= observations.skip(1).push(more));
    }
}

/// The User-Agent of the first request among the first `count` observations.
fn find_agent(observations: &Vec<&Observation>, count: usize) -> (r: Option<String>)
    requires
        count <= observations@.len(),
    ensures
        match r {
            Some(agent) => first_agent(
                observation_views(observations@.unref()).take(count as int),
            ) == Some(agent@),
            None => first_agent(
                observation_views(observations@.unref()).take(count as int),
            ) is None,
        },
{
    let ghost all = observation_views(observations@.unref()).take(count as int);
    let mut i: usize = 0;
    assert(all.skip(0) =~= all);
    while i < count
        invariant
            i <= count <= observations@.len(),
            all == observation_views(observations@.unref()).take(count as int),
            first_agent(all) == first_agent(all.skip(i as int)),
        decreases count - i,
    {
        proof {
            assert(all[i as int] == observations@[i as int]@);
            assert(all.skip(i as int)[0] == observations@[i as int]@);
            assert(all.skip(i as int).skip(1) =~= all.skip(i + 1));
        }
        let found = http_user_agent(observations[i].payload.as_slice());
        if found.is_some() {
            return found;
        }
        i = i + 1;
    }
    None
}

/// Finds the first rule that fits a User-Agent, which is given in lower case.
pub fn find_rule<'a>(rules: &'a Vec<BannerRule>, ua_lower: &str) -> (r: Option<&'a BannerRule>)
    ensures
        match r {
            Some(rule) => first_rule(rule_views(rules@), ua_lower@) == Some(rule@),
            None => first_rule(rule_views(rules@), ua_lower@) is None,
        },
{
    let ghost all = rule_views(rules@);
    let mut i: usize = 0;
    assert(all.skip(0) =~= all);
    while i < rules.len()
        invariant
            i <= rules@.len(),
            all == rule_views(rules@),
            first_rule(all, ua_lower@) == first_rule(all.skip(i as int), ua_lower@),
        decreases rules@.len() - i,
    {
        proof {
            assert(all.skip(i as int)[0] == rules@[i as int]@);
            assert(all.skip(i as int).skip(1) =~= all.skip(i + 1));
        }
        if rules[i].matches(ua_lower) {
            return Some(&rules[i]);
        }
        i = i + 1;
    }
    None
}

impl SessionMethod for Banner {
    open spec fn declared(&self) -> ManifestView {
        self.manifest@
    }

    open spec fn outcome(&self, ctx: SessionContextView) -> Option<OutcomeView> {
        Some(
            identify(self.manifest.name@, rule_views(self.db.rules@), self.max_bytes, ctx),
        )
    }

    fn manifest(&self) -> (r: &MethodManifest) {
        &self.manifest
    }

    fn extract(&self, ctx: &SessionContext<'_>) -> (r: Result<Outcome, Error>) {
        let observations = ctx.observations();
        let (count, any) = scope_of(&observations, self.max_bytes);
        if !any {
            return Ok(Outcome::NotApplicable);
        }
        let user_agent = match find_agent(&observations, count) {
            Some(user_agent) => user_agent,
            None => {
                return Ok(Outcome::NoMatch);
            },
        };
        let chars = small(user_agent.as_str());
        let ua_lower = text::string_of(chars.as_slice());
        let rule = match find_rule(&self.db.rules, ua_lower.as_str()) {
            Some(rule) => rule,
            None => {
                return Ok(Outcome::NoMatch);
            },
        };
        let name = self.manifest.name.as_str();
        let subject = ctx.session.initiator;
        let client = Evidence::new(
            name,
            subject,
            "client",
            rule.client.as_str(),
            Confidence::Strong,
        );
        let category = Evidence::new(
            name,
            subject,
            "category",
            rule.category.as_str(),
            Confidence::Strong,
        );
        let mut evidence: Vec<Evidence> = Vec::new();
        evidence.push(client);
        evidence.push(category);
        assert(evidence_views(evidence@) =~= seq![client@, category@]);
        if let Some(version) = extract_version(user_agent.as_str(), ua_lower.as_str(), rule) {
            let version = Evidence::new(
                name,
                subject,
                "version",
                version.as_str(),
                Confidence::Strong,
            );
            evidence.push(version);
            assert(evidence_views(evidence@) =~= seq![client@, category@].push(version@));
        }
        Ok(Outcome::Complete(evidence))
    }
}

// ---------------------------------------------------------------------------
// Laws

/// A version holds no white space, no closing bracket and no semicolon, and it is the
/// longest beginning of a text that holds none: the text ends with it or goes on with one
/// of these.
pub proof fn versions_end_where_they_must(s: Seq<char>) -> (n: int)
    ensures
        0 <= n <= s.len(),
        version_in(s) == s.take(n),
        forall|i: int|
            0 <= i < n ==> !white_space(#[trigger] s[i]) && s[i] != ')' && s[i] != ';',
        n < s.len() ==> white_space(s[n]) || s[n] == ')' || s[n] == ';',
    decreases s.len(),
{
    if s.len() == 0 || ends_version(s[0]) {
        assert(s.take(0) =~= Seq::empty());
        0
    } else {
        let rest = s.skip(1);
        let n = versions_end_where_they_must(rest);
        assert(s.take(n + 1) =~= seq![s[0]] + rest.take(n));
        assert forall|i: int| 0 <= i < n + 1 implies !white_space(#[trigger] s[i]) && s[i] != ')'
            && s[i] != ';' by {
            if i > 0 {
                assert(rest[i - 1] == s[i]);
            }
        }
        if n + 1 < s.len() {
            assert(rest[n] == s[n + 1]);
        }
        n + 1
    }
}

/// White space ends a version whatever stands behind it.
pub proof fn white_space_ends_a_version(version: Seq<char>, space: char, rest: Seq<char>)
    requires
        space == ' ' || space == '\t' || space == ')' || space == ';',
        forall|i: int|
            0 <= i < version.len() ==> !white_space(#[trigger] version[i]) && version[i] != ')'
                && version[i] != ';',
    ensures
        version_in(version + seq![space] + rest) == version,
        version_in(version) == version,
{
    let whole = version + seq![space] + rest;
    let n = versions_end_where_they_must(whole);
    assert(whole[version.len() as int] == space);
    if n < version.len() {
        assert(whole[n] == version[n]);
    }
    assert(n == version.len());
    assert(whole.take(n) =~= version);
    let m = versions_end_where_they_must(version);
    assert(version.take(m) =~= version);
}

proof fn lemma_fitting(prefixes: Seq<Seq<char>>, agent: Seq<char>, i: int)
    requires
        0 <= i <= prefixes.len(),
        forall|j: int| 0 <= j < i ==> !begins(agent, lower(#[trigger] prefixes[j])),
        i < prefixes.len() ==> begins(agent, lower(prefixes[i])),
    ensures
        fitting_prefix(prefixes, agent) == (if i < prefixes.len() {
            Some(lower(prefixes[i]))
        } else {
            None
        }),
    decreases i,
{
    if i > 0 {
        let rest = prefixes.skip(1);
        assert(!begins(agent, lower(prefixes[0])));
        assert forall|j: int| 0 <= j < i - 1 implies !begins(agent, lower(#[trigger] rest[j])) by {
            assert(rest[j] == prefixes[j + 1]);
        }
        lemma_fitting(rest, agent, i - 1);
    }
}

/// A version is read behind the first prefix that the User-Agent begins with, as it was
/// sent; without such a prefix, or with nothing behind it, there is none.
pub proof fn versions_stand_behind_the_first_prefix(
    agent: Seq<char>,
    prefixes: Seq<Seq<char>>,
    i: int,
)
    requires
        0 <= i <= prefixes.len(),
        forall|j: int| 0 <= j < i ==> !begins(lower(agent), lower(#[trigger] prefixes[j])),
        i < prefixes.len() ==> begins(lower(agent), lower(prefixes[i])),
    ensures
        i == prefixes.len() ==> version_of(agent, prefixes) is None,
        i < prefixes.len() ==> match version_of(agent, prefixes) {
            Some(version) => {
                let rest = agent.skip(prefixes[i].len() as int);
                &&& 0 < version.len() <= rest.len()
                &&& rest.take(version.len() as int) == version
                &&& forall|k: int|
                    0 <= k < version.len() ==> !white_space(#[trigger] version[k]) && version[k]
                        != ')' && version[k] != ';'
                &&& version.len() < rest.len() ==> white_space(rest[version.len() as int])
                    || rest[version.len() as int] == ')' || rest[version.len() as int] == ';'
            },
            None => {
                let rest = agent.skip(prefixes[i].len() as int);
                rest.len() == 0 || white_space(rest[0]) || rest[0] == ')' || rest[0] == ';'
            },
        },
{
    lemma_fitting(prefixes, lower(agent), i);
    if i < prefixes.len() {
        let rest = agent.skip(prefixes[i].len() as int);
        assert(lower(prefixes[i]).len() == prefixes[i].len());
        let n = versions_end_where_they_must(rest);
        assert(version_in(rest).len() == n);
        assert forall|k: int| 0 <= k < n implies !white_space(#[trigger] version_in(rest)[k])
            && version_in(rest)[k] != ')' && version_in(rest)[k] != ';' by {
            assert(version_in(rest)[k] == rest[k]);
        }
    }
}

/// A rule fits a User-Agent exactly where one of its patterns is it, begins it or stands
/// in it, as the pattern's kind has it, whatever the case of the pattern.
pub proof fn rules_fit_by_any_pattern(rule: RuleView, agent: Seq<char>)
    ensures
        rule.fits(agent) <==> {
            ||| exists|i: int| 0 <= i < rule.exact.len() && lower(#[trigger] rule.exact[i]) == agent
            ||| exists|i: int|
                0 <= i < rule.prefix.len() && begins(agent, lower(#[trigger] rule.prefix[i]))
            ||| exists|i: int|
                0 <= i < rule.contains.len() && occurs(agent, lower(#[trigger] rule.contains[i]))
        },
        forall|i: int|
            0 <= i < rule.exact.len() ==> rule.fits(lower(#[trigger] rule.exact[i])),
        forall|i: int, rest: Seq<char>|
            0 <= i < rule.prefix.len() ==> #[trigger] rule.fits(
                lower(#[trigger] rule.prefix[i]) + rest,
            ),
        forall|i: int, a: Seq<char>, b: Seq<char>|
            0 <= i < rule.contains.len() ==> #[trigger] rule.fits(
                a + lower(#[trigger] rule.contains[i]) + b,
            ),
        rule.exact.len() == 0 && rule.prefix.len() == 0 && rule.contains.len() == 0
            ==> !rule.fits(agent),
{
    assert forall|i: int, rest: Seq<char>|
        0 <= i < rule.prefix.len() implies #[trigger] rule.fits(
        lower(#[trigger] rule.prefix[i]) + rest,
    ) by {
        text::beginnings_can_be_taken_off(
            lower(rule.prefix[i]) + rest,
            lower(rule.prefix[i]),
            rest,
        );
    }
    assert forall|i: int, a: Seq<char>, b: Seq<char>|
        0 <= i < rule.contains.len() implies #[trigger] rule.fits(
        a + lower(#[trigger] rule.contains[i]) + b,
    ) by {
        text::occurrences_stand_inside(a, lower(rule.contains[i]), b, Seq::empty());
    }
}

/// The rule that counts is the first that fits.
pub proof fn the_first_rule_counts(rules: Seq<RuleView>, agent: Seq<char>, i: int)
    requires
        0 <= i <= rules.len(),
        forall|j: int| 0 <= j < i ==> !(#[trigger] rules[j]).fits(agent),
        i < rules.len() ==> rules[i].fits(agent),
    ensures
        i == rules.len() ==> first_rule(rules, agent) is None,
        i < rules.len() ==> first_rule(rules, agent) == Some(rules[i]),
    decreases i,
{
    if i > 0 {
        let rest = rules.skip(1);
        assert(!rules[0].fits(agent));
        assert forall|j: int| 0 <= j < i - 1 implies !(#[trigger] rest[j]).fits(agent) by {
            assert(rest[j] == rules[j + 1]);
        }
        the_first_rule_counts(rest, agent, i - 1);
    }
}

/// The User-Agent that counts is that of the first observation that has one.
pub proof fn the_first_agent_counts(observations: Seq<ObservationView>, i: int)
    requires
        0 <= i <= observations.len(),
        forall|j: int| 0 <= j < i ==> user_agent_in((#[trigger] observations[j]).payload) is None,
        i < observations.len() ==> user_agent_in(observations[i].payload) is Some,
    ensures
        i == observations.len() ==> first_agent(observations) is None,
        i < observations.len() ==> first_agent(observations) == user_agent_in(
            observations[i].payload,
        ),
    decreases i,
{
    if i > 0 {
        let rest = observations.skip(1);
        assert(user_agent_in(observations[0].payload) is None);
        assert forall|j: int| 0 <= j < i - 1 implies user_agent_in(
            (#[trigger] rest[j]).payload,
        ) is None by {
            assert(rest[j] == observations[j + 1]);
        }
        the_first_agent_counts(rest, i - 1);
    }
}

/// What is scanned is the beginning of a session, as much of it as stays within the
/// budget: all of it, or one observation more would be too much.
pub proof fn scanning_goes_as_far_as_it_may(
    observations: Seq<ObservationView>,
    budget: int,
) -> (n: int)
    requires
        budget >= 0,
    ensures
        0 <= n <= observations.len(),
        scanned(observations, budget) == observations.take(n),
        payload_bytes(observations.take(n)) <= budget,
        n < observations.len() ==> payload_bytes(observations.take(n + 1)) > budget,
    decreases observations.len(),
{
    if observations.len() == 0 || observations[0].payload.len() > budget {
        assert(observations.take(0) =~= Seq::empty());
        if observations.len() > 0 {
            let one = observations.take(1);
            assert(one.skip(1) =~= Seq::empty());
            assert(one[0] == observations[0]);
            assert(payload_bytes(one.skip(1)) == 0);
        }
        0
    } else {
        let rest = observations.skip(1);
        let left = budget - observations[0].payload.len();
        let n = scanning_goes_as_far_as_it_may(rest, left);
        assert(observations.take(n + 1) =~= seq![observations[0]] + rest.take(n));
        assert(observations.take(n + 1).skip(1) =~= rest.take(n));
        if n < rest.len() {
            assert(observations.take(n + 2).skip(1) =~= rest.take(n + 1));
            assert(observations.take(n + 2)[0] == observations[0]);
        }
        assert(observations.take(n + 1)[0] == observations[0]);
        n + 1
    }
}

/// Bytes of payload are counted observation by observation.
pub proof fn payload_bytes_add_up(observations: Seq<ObservationView>, one: ObservationView)
    ensures
        payload_bytes(Seq::empty()) == 0,
        payload_bytes(observations.push(one)) == payload_bytes(observations) + one.payload.len(),
    decreases observations.len(),
{
    let more = observations.push(one);
    if observations.len() == 0 {
        assert(more.skip(1) =~= Seq::empty());
        assert(payload_bytes(more.skip(1)) == 0);
    } else {
        payload_bytes_add_up(observations.skip(1), one);
        assert(more.skip(1) =~= observations.skip(1).push(one));
    }
}

/// What the method makes of a session: nothing to look at without a byte of payload in
/// what is scanned; else a match where the first User-Agent in it fits a rule. The match
/// is settled, and names the rule's client and category, and the version where there is
/// one, all as strong claims about the endpoint that opened the session.
pub proof fn banners_name_the_client(
    name: Seq<char>,
    rules: Seq<RuleView>,
    max_bytes: usize,
    ctx: SessionContextView,
)
    ensures
        ({
            let outcome = identify(name, rules, max_bytes, ctx);
            let scope = scanned(ctx.observations(), max_bytes as int);
            let evidence = outcome.evidence();
            &&& outcome is NotApplicable <==> payload_bytes(scope) == 0
            &&& !(outcome is Partial)
            &&& outcome is Complete <==> payload_bytes(scope) > 0 && (first_agent(
                scope,
            ) matches Some(agent) && first_rule(rules, lower(agent)) is Some)
            &&& forall|k: int|
                0 <= k < evidence.len() ==> {
                    &&& (#[trigger] evidence[k]).method == name
                    &&& evidence[k].subject == ctx.session.initiator
                    &&& evidence[k].confidence == Confidence::Strong
                    &&& !evidence[k].provisional
                }
            &&& outcome is Complete ==> {
                let agent = first_agent(scope)->0;
                let rule = first_rule(rules, lower(agent))->0;
                &&& evidence.len() == (if version_of(agent, rule.prefix) is Some {
                    3int
                } else {
                    2
                })
                &&& evidence[0].key == "client"@ && evidence[0].value == rule.client
                &&& evidence[1].key == "category"@ && evidence[1].value == rule.category
                &&& version_of(agent, rule.prefix) matches Some(version) ==> evidence[2].key
                    == "version"@ && evidence[2].value == version
            }
        }),
{
}

} // verus!
