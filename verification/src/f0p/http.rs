//! Matching a request against the `[http:request]` signatures.

use vstd::prelude::*;

use crate::f0p::format::{
    header_views, http_views, HeaderView, HttpHeaderExpectation, HttpSignature, HttpSignatureView,
};
use crate::f0p::score::{
    all_valid, best_exists, last_best, lemma_passed, passed, pick_last_best, MinScore, Score,
};
use crate::f0p::tcp::{check_if, lemma_check_if, push_check};
use crate::http::{
    find_header, header_texts, lemma_next_named, next_named, value_of, HeaderText,
    ObservedHttpRequest, RequestView,
};
use crate::text;
use crate::text::{lower, occurs, strings};
use crate::f0p::score::lemma_passed_parts;
use crate::f0p::tcp::one_if;

verus! {

// ---------------------------------------------------------------------------
// Header order

/// Whether a value holds a text, whatever the case of either.
pub open spec fn holds(value: Seq<char>, needle: Seq<char>) -> bool {
    occurs(lower(value), lower(needle))
}

pub open spec fn value_fits(value: Seq<char>, needle: Option<Seq<char>>) -> bool {
    match needle {
        Some(needle) => holds(value, needle),
        None => true,
    }
}

/// Whether the request has a header of that name that has not been taken.
pub open spec fn misplaced(headers: Seq<HeaderText>, taken: Seq<bool>, name: Seq<char>) -> bool {
    exists|j: int| 0 <= j < headers.len() && #[trigger] headers[j].0 == name && !taken[j]
}

/// Whether the expected headers stand in the request from `cursor` on, in that
/// order, each with the value it asks for, and with other headers between them or
/// not. An optional one may be missing: it may not stand before the cursor, unless the
/// header there was taken for an expected one already.
pub open spec fn order_fits(
    headers: Seq<HeaderText>,
    cursor: int,
    taken: Seq<bool>,
    expected: Seq<HeaderView>,
) -> bool
    decreases expected.len(),
{
    if expected.len() == 0 {
        true
    } else {
        let first = expected[0];
        match next_named(headers, cursor, first.name) {
            Some(i) => value_fits(headers[i].1, first.value_contains) && order_fits(
                headers,
                i + 1,
                taken.update(i, true),
                expected.skip(1),
            ),
            None => first.optional && !misplaced(headers, taken, first.name) && order_fits(
                headers,
                cursor,
                taken,
                expected.skip(1),
            ),
        }
    }
}

/// None of that many headers has been taken.
pub open spec fn none_taken(count: nat) -> Seq<bool> {
    Seq::new(count, |i: int| false)
}

/// Whether the headers of a request are those that are expected, in that order.
pub open spec fn headers_fit(headers: Seq<HeaderText>, expected: Seq<HeaderView>) -> bool {
    order_fits(headers, 0, none_taken(headers.len()), expected)
}

fn holds_text(value: &str, needle: &str) -> (r: bool)
    ensures
        r == holds(value@, needle@),
{
    let value = text::chars_of(value);
    let needle = text::chars_of(needle);
    let value = text::to_lower(value.as_slice());
    let needle = text::to_lower(needle.as_slice());
    text::contains(value.as_slice(), needle.as_slice())
}

fn is_misplaced(headers: &Vec<(String, String)>, taken: &Vec<bool>, name: &str) -> (r: bool)
    requires
        taken@.len() == headers@.len(),
    ensures
        r == misplaced(header_texts(headers@), taken@, name@),
{
    let ghost all = header_texts(headers@);
    let mut j: usize = 0;
    while j < headers.len()
        invariant
            j <= headers@.len(),
            all == header_texts(headers@),
            taken@.len() == headers@.len(),
            forall|i: int| 0 <= i < j ==> !((#[trigger] all[i]).0 == name@ && !taken@[i]),
        decreases headers@.len() - j,
    {
        assert(all[j as int].0 == headers@[j as int].0@);
        if !taken[j] && text::same_str(headers[j].0.as_str(), name) {
            return true;
        }
        j = j + 1;
    }
    false
}

/// Checks the order of a request's headers.
pub fn header_order_matches(
    observed: &ObservedHttpRequest,
    expected: &Vec<HttpHeaderExpectation>,
) -> (r: bool)
    ensures
        r == headers_fit(observed@.headers, header_views(expected@)),
{
    let ghost headers = observed@.headers;
    let ghost all = header_views(expected@);
    let count: usize = observed.headers.len();
    let mut taken: Vec<bool> = Vec::new();
    while taken.len() < count
        invariant
            taken@.len() <= count,
            taken@ == none_taken(taken@.len()),
        decreases count - taken@.len(),
    {
        taken.push(false);
        assert(taken@ =~= none_taken(taken@.len()));
    }
    let mut cursor: usize = 0;
    let mut k: usize = 0;
    assert(all.skip(0) =~= all);
    while k < expected.len()
        invariant
            k <= expected@.len(),
            cursor <= observed.headers@.len() == count,
            taken@.len() == count,
            headers == observed@.headers,
            headers.len() == count,
            all == header_views(expected@),
            headers_fit(headers, all) == order_fits(
                headers,
                cursor as int,
                taken@,
                all.skip(k as int),
            ),
        decreases expected@.len() - k,
    {
        let header = &expected[k];
        proof {
            assert(all.skip(k as int)[0] == header@);
            assert(all.skip(k as int).skip(1) =~= all.skip(k + 1));
        }
        match find_header(&observed.headers, cursor, header.name.as_str()) {
            Some(i) => {
                if let Some(needle) = &header.value_contains {
                    if !holds_text(observed.headers[i].1.as_str(), needle.as_str()) {
                        return false;
                    }
                }
                taken.set(i, true);
                cursor = i + 1;
            },
            None => {
                if !header.optional {
                    return false;
                }
                if is_misplaced(&observed.headers, &taken, header.name.as_str()) {
                    return false;
                }
            },
        }
        k = k + 1;
    }
    true
}

// ---------------------------------------------------------------------------
// Scoring

pub open spec fn all_missing(headers: Seq<HeaderText>, names: Seq<Seq<char>>) -> bool {
    forall|i: int| 0 <= i < names.len() ==> value_of(headers, #[trigger] names[i]) is None
}

/// The checks that decide whether a signature matches: the version where the
/// signature names one, the order of the headers, and the headers that must be
/// missing.
pub open spec fn http_gate_checks(observed: RequestView, sig: HttpSignatureView) -> Seq<bool> {
    check_if(
        sig.http_minor_version is Some,
        observed.minor_version == sig.http_minor_version,
    ) + check_if(true, headers_fit(observed.headers, sig.header_order)) + check_if(
        sig.header_absent.len() > 0,
        all_missing(observed.headers, sig.header_absent),
    )
}

/// Whether the User-Agent holds the software that the signature expects.
pub open spec fn software_fits(observed: RequestView, software: Seq<char>) -> bool {
    holds(
        match value_of(observed.headers, "user-agent"@) {
            Some(agent) => agent,
            None => Seq::empty(),
        },
        software,
    )
}

/// Those checks, and the one of the User-Agent where the signature expects some
/// software.
pub open spec fn http_checks(observed: RequestView, sig: HttpSignatureView) -> Seq<bool> {
    http_gate_checks(observed, sig) + check_if(
        sig.expected_software is Some,
        software_fits(observed, sig.expected_software->0),
    )
}

/// How well a request fits a signature.
pub open spec fn http_score(observed: RequestView, sig: HttpSignatureView) -> Score {
    Score::of(http_checks(observed, sig))
}

/// How well it fits whatever software it claims to be.
pub open spec fn http_gate_score(observed: RequestView, sig: HttpSignatureView) -> Score {
    Score::of(http_gate_checks(observed, sig))
}

proof fn lemma_http_scores_valid(observed: RequestView, sig: HttpSignatureView)
    ensures
        1 <= http_gate_checks(observed, sig).len() <= 3,
        1 <= http_checks(observed, sig).len() <= 4,
        http_score(observed, sig).valid(),
        http_gate_score(observed, sig).valid(),
{
    let gate = http_gate_checks(observed, sig);
    let checks = http_checks(observed, sig);
    assert(1 <= gate.len() <= 3 && 1 <= checks.len() <= 4) by {
        lemma_check_if();
    }
    lemma_passed(gate);
    lemma_passed(checks);
}

fn none_present(observed: &ObservedHttpRequest, names: &Vec<String>) -> (r: bool)
    ensures
        r == all_missing(observed@.headers, strings(names@)),
{
    let mut i: usize = 0;
    let ghost all = strings(names@);
    while i < names.len()
        invariant
            i <= names@.len(),
            all == strings(names@),
            forall|j: int|
                0 <= j < i ==> value_of(observed@.headers, #[trigger] all[j]) is None,
        decreases names@.len() - i,
    {
        assert(all[i as int] == names@[i as int]@);
        if observed.header_value(names[i].as_str()).is_some() {
            return false;
        }
        i = i + 1;
    }
    true
}

fn gate_checks(observed: &ObservedHttpRequest, sig: &HttpSignature) -> (r: Vec<bool>)
    ensures
        r@ == http_gate_checks(observed@, sig@),
{
    let mut checks: Vec<bool> = Vec::new();
    push_check(
        &mut checks,
        sig.http_minor_version.is_some(),
        observed.minor_version == sig.http_minor_version,
    );
    assert(checks@ =~= check_if(
        sig@.http_minor_version is Some,
        observed@.minor_version == sig@.http_minor_version,
    ));
    push_check(&mut checks, true, header_order_matches(observed, &sig.header_order));
    push_check(
        &mut checks,
        sig.header_absent.len() > 0,
        none_present(observed, &sig.header_absent),
    );
    checks
}

/// Scores a request against a signature without regard to its User-Agent.
pub fn gate_score_http(observed: &ObservedHttpRequest, sig: &HttpSignature) -> (r: Score)
    ensures
        r == http_gate_score(observed@, sig@),
        r.valid(),
{
    let checks = gate_checks(observed, sig);
    proof {
        lemma_http_scores_valid(observed@, sig@);
    }
    Score::tally(&checks)
}

/// Scores a request against a signature.
pub fn score_http(observed: &ObservedHttpRequest, sig: &HttpSignature) -> (r: Score)
    ensures
        r == http_score(observed@, sig@),
        r.valid(),
{
    let mut checks = gate_checks(observed, sig);
    match &sig.expected_software {
        Some(software) => {
            let agent = match observed.header_value("user-agent") {
                Some(agent) => agent,
                None => {
                    proof {
                        reveal_strlit("");
                        assert(""@ =~= Seq::<char>::empty());
                    }
                    ""
                },
            };
            push_check(&mut checks, true, holds_text(agent, software.as_str()));
        },
        None => {
            push_check(&mut checks, false, false);
            reveal(check_if);
        },
    }
    proof {
        lemma_http_scores_valid(observed@, sig@);
    }
    Score::tally(&checks)
}

// ---------------------------------------------------------------------------
// The best signature

/// The scores of the signatures of the wanted kind that match: those that reach
/// `min` whatever the User-Agent says.
pub open spec fn http_candidates(
    signatures: Seq<HttpSignatureView>,
    observed: RequestView,
    min: int,
    specific: bool,
) -> Seq<Option<Score>> {
    Seq::new(
        signatures.len(),
        |i: int|
            if signatures[i].specific == specific && http_gate_score(
                observed,
                signatures[i],
            ).reaches(min) {
                Some(http_score(observed, signatures[i]))
            } else {
                None
            },
    )
}

/// The signature that fits best of those that match, the last of equals. A
/// generic one counts only where no specific one does.
pub open spec fn best_http(
    signatures: Seq<HttpSignatureView>,
    observed: RequestView,
    min: int,
) -> Option<int> {
    let specific = last_best(http_candidates(signatures, observed, min, true));
    if specific is Some {
        specific
    } else {
        last_best(http_candidates(signatures, observed, min, false))
    }
}

fn http_candidate_scores(
    signatures: &Vec<HttpSignature>,
    observed: &ObservedHttpRequest,
    min_score: MinScore,
    specific: bool,
) -> (r: Vec<Option<Score>>)
    ensures
        r@ == http_candidates(http_views(signatures@), observed@, min_score as int, specific),
        all_valid(r@),
{
    let mut out: Vec<Option<Score>> = Vec::new();
    let ghost wanted = http_candidates(
        http_views(signatures@),
        observed@,
        min_score as int,
        specific,
    );
    let mut i: usize = 0;
    while i < signatures.len()
        invariant
            i <= signatures@.len(),
            wanted == http_candidates(
                http_views(signatures@),
                observed@,
                min_score as int,
                specific,
            ),
            out@ == wanted.take(i as int),
            all_valid(out@),
        decreases signatures@.len() - i,
    {
        let sig = &signatures[i];
        if sig.specific == specific && gate_score_http(observed, sig).is_at_least(min_score) {
            out.push(Some(score_http(observed, sig)));
        } else {
            out.push(None);
        }
        assert(out@ =~= wanted.take(i + 1));
        i = i + 1;
    }
    assert(wanted.take(i as int) =~= wanted);
    out
}

/// Finds the signature that fits best.
pub fn best_http_match<'a>(
    signatures: &'a Vec<HttpSignature>,
    observed: &ObservedHttpRequest,
    min_score: MinScore,
) -> (r: Option<(&'a HttpSignature, Score)>)
    ensures
        match (r, best_http(http_views(signatures@), observed@, min_score as int)) {
            (Some((sig, score)), Some(i)) => {
                &&& 0 <= i < signatures@.len()
                &&& *sig == signatures@[i]
                &&& score == http_score(observed@, sig@)
                &&& score.valid()
            },
            (None, None) => true,
            _ => false,
        },
{
    let specific = http_candidate_scores(signatures, observed, min_score, true);
    if let Some(i) = pick_last_best(&specific) {
        if let Some(score) = specific[i] {
            return Some((&signatures[i], score));
        }
    }
    let generic = http_candidate_scores(signatures, observed, min_score, false);
    if let Some(i) = pick_last_best(&generic) {
        if let Some(score) = generic[i] {
            return Some((&signatures[i], score));
        }
    }
    None
}

// ---------------------------------------------------------------------------
// Laws

/// A generic signature is chosen only if no specific one matches.
pub proof fn specific_requests_come_first(
    signatures: Seq<HttpSignatureView>,
    observed: RequestView,
    min: int,
    k: int,
)
    requires
        0 <= k < signatures.len(),
        signatures[k].specific,
        http_gate_score(observed, signatures[k]).reaches(min),
    ensures
        best_http(signatures, observed, min) matches Some(i) && 0 <= i < signatures.len()
            && signatures[i].specific,
{
    let candidates = http_candidates(signatures, observed, min, true);
    assert forall|i: int| 0 <= i < candidates.len() implies (#[trigger] candidates[i] matches Some(
        s,
    ) ==> s.valid()) by {
        lemma_http_scores_valid(observed, signatures[i]);
    }
    assert(candidates[k] is Some);
    best_exists(candidates, k);
}

/// The User-Agent does not decide whether a signature matches: one that disagrees
/// with the expected software only makes for a lower score than one that agrees.
pub proof fn software_lowers_the_score_only(
    observed: RequestView,
    other: RequestView,
    sig: HttpSignatureView,
)
    requires
        http_gate_checks(observed, sig) == http_gate_checks(other, sig),
        sig.expected_software matches Some(software) && software_fits(observed, software)
            && !software_fits(other, software),
    ensures
        http_gate_score(observed, sig) == http_gate_score(other, sig),
        http_score(observed, sig).beats(http_score(other, sig)),
{
    let gate = http_gate_checks(observed, sig);
    lemma_http_scores_valid(observed, sig);
    lemma_http_scores_valid(other, sig);
    assert(http_checks(observed, sig) =~= gate.push(true)) by {
        reveal(check_if);
    }
    assert(http_checks(other, sig) =~= gate.push(false)) by {
        reveal(check_if);
    }
    gate.lemma_filter_push(true, |ok: bool| ok);
    gate.lemma_filter_push(false, |ok: bool| ok);
    lemma_passed(gate);
    let m = passed(gate) as int;
    let n = gate.len() as int;
    assert((m + 1) * (n + 1) > m * (n + 1)) by (nonlinear_arith)
        requires
            n >= 0,
    ;
}

/// Where the header at `i` stands once another was put in at `k`.
spec fn shifted(i: int, k: int) -> int {
    if i < k {
        i
    } else {
        i + 1
    }
}

/// Where to go on from `cursor` once another header was put in at `k`.
spec fn moved(cursor: int, k: int) -> int {
    if cursor <= k {
        cursor
    } else {
        cursor + 1
    }
}

proof fn lemma_named_with_extra(
    headers: Seq<HeaderText>,
    k: int,
    extra: HeaderText,
    from: int,
    name: Seq<char>,
)
    requires
        0 <= k <= headers.len(),
        0 <= from <= headers.len(),
        name != extra.0,
    ensures
        next_named(headers.insert(k, extra), moved(from, k), name) == (match next_named(
            headers,
            from,
            name,
        ) {
            Some(i) => Some(shifted(i, k)),
            None => None,
        }),
    decreases headers.len() - from,
{
    let more = headers.insert(k, extra);
    reveal_with_fuel(next_named, 2);
    if from < headers.len() {
        assert(more[shifted(from, k)] == headers[from]);
        if headers[from].0 != name {
            lemma_named_with_extra(headers, k, extra, from + 1, name);
        }
    }
}

proof fn lemma_misplaced_with_extra(
    headers: Seq<HeaderText>,
    taken: Seq<bool>,
    k: int,
    extra: HeaderText,
    name: Seq<char>,
)
    requires
        0 <= k <= headers.len(),
        taken.len() == headers.len(),
        name != extra.0,
    ensures
        misplaced(headers.insert(k, extra), taken.insert(k, false), name) == misplaced(
            headers,
            taken,
            name,
        ),
{
    let more = headers.insert(k, extra);
    let marks = taken.insert(k, false);
    if misplaced(headers, taken, name) {
        let j = choose|j: int|
            0 <= j < headers.len() && #[trigger] headers[j].0 == name && !taken[j];
        assert(more[shifted(j, k)] == headers[j] && marks[shifted(j, k)] == taken[j]);
    }
    if misplaced(more, marks, name) {
        let j = choose|j: int| 0 <= j < more.len() && #[trigger] more[j].0 == name && !marks[j];
        let i = if j < k {
            j
        } else {
            j - 1
        };
        assert(j != k);
        assert(headers[i] == more[j] && taken[i] == marks[j]);
    }
}

proof fn lemma_extra_header(
    headers: Seq<HeaderText>,
    k: int,
    extra: HeaderText,
    cursor: int,
    taken: Seq<bool>,
    expected: Seq<HeaderView>,
)
    requires
        0 <= k <= headers.len(),
        0 <= cursor <= headers.len(),
        taken.len() == headers.len(),
        forall|i: int| 0 <= i < expected.len() ==> (#[trigger] expected[i]).name != extra.0,
    ensures
        order_fits(
            headers.insert(k, extra),
            moved(cursor, k),
            taken.insert(k, false),
            expected,
        ) == order_fits(headers, cursor, taken, expected),
    decreases expected.len(),
{
    if expected.len() > 0 {
        let more = headers.insert(k, extra);
        let rest = expected.skip(1);
        let name = expected[0].name;
        assert forall|i: int| 0 <= i < rest.len() implies (#[trigger] rest[i]).name != extra.0 by {
            assert(rest[i] == expected[i + 1]);
        }
        lemma_named_with_extra(headers, k, extra, cursor, name);
        lemma_misplaced_with_extra(headers, taken, k, extra, name);
        lemma_next_named(headers, cursor, name);
        match next_named(headers, cursor, name) {
            Some(i) => {
                assert(more[shifted(i, k)] == headers[i]);
                assert(moved(i + 1, k) == shifted(i, k) + 1);
                assert(taken.insert(k, false).update(shifted(i, k), true) =~= taken.update(
                    i,
                    true,
                ).insert(k, false));
                lemma_extra_header(headers, k, extra, i + 1, taken.update(i, true), rest);
            },
            None => {
                lemma_extra_header(headers, k, extra, cursor, taken, rest);
            },
        }
    }
}

/// A header that the signature does not name changes nothing, wherever it stands.
pub proof fn other_headers_do_not_matter(
    headers: Seq<HeaderText>,
    k: int,
    extra: HeaderText,
    expected: Seq<HeaderView>,
)
    requires
        0 <= k <= headers.len(),
        forall|i: int| 0 <= i < expected.len() ==> (#[trigger] expected[i]).name != extra.0,
    ensures
        headers_fit(headers.insert(k, extra), expected) == headers_fit(headers, expected),
{
    assert(none_taken(headers.len()).insert(k, false) =~= none_taken(headers.len() + 1));
    lemma_extra_header(headers, k, extra, 0, none_taken(headers.len()), expected);
}

/// A required header that the request does not have fails the match.
pub proof fn required_headers_are_required(
    headers: Seq<HeaderText>,
    expected: Seq<HeaderView>,
    k: int,
)
    requires
        0 <= k < expected.len(),
        !expected[k].optional,
        next_named(headers, 0, expected[k].name) is None,
    ensures
        !headers_fit(headers, expected),
{
    lemma_required(headers, 0, none_taken(headers.len()), expected, k);
}

proof fn lemma_required(
    headers: Seq<HeaderText>,
    cursor: int,
    taken: Seq<bool>,
    expected: Seq<HeaderView>,
    k: int,
)
    requires
        0 <= cursor <= headers.len(),
        0 <= k < expected.len(),
        !expected[k].optional,
        next_named(headers, 0, expected[k].name) is None,
    ensures
        !order_fits(headers, cursor, taken, expected),
    decreases expected.len(),
{
    let first = expected[0];
    lemma_next_named(headers, cursor, first.name);
    lemma_next_named(headers, 0, expected[k].name);
    if k > 0 {
        let rest = expected.skip(1);
        assert(rest[k - 1] == expected[k]);
        lemma_required(headers, cursor, taken, rest, k - 1);
        if let Some(i) = next_named(headers, cursor, first.name) {
            lemma_required(headers, i + 1, taken.update(i, true), rest, k - 1);
        }
    }
}

// ---------------------------------------------------------------------------
// What a score says

/// Whether two characters are the same but for the case of ASCII letters.
pub open spec fn same_letter(a: char, b: char) -> bool {
    ||| a == b
    ||| 65 <= a as int <= 90 && b as int == a as int + 32
    ||| 65 <= b as int <= 90 && a as int == b as int + 32
}

/// Whether a text stands in a value from `i` on, letter by letter, whatever the case.
pub open spec fn stands_from(value: Seq<char>, needle: Seq<char>, i: int) -> bool {
    &&& 0 <= i <= value.len() - needle.len()
    &&& forall|j: int| 0 <= j < needle.len() ==> same_letter(value[i + j], #[trigger] needle[j])
}

/// A value holds a text where that stands in it letter by letter, whatever the case.
pub proof fn values_are_searched_without_case(value: Seq<char>, needle: Seq<char>)
    ensures
        holds(value, needle) <==> exists|i: int| stands_from(value, needle, i),
{
    let (low, small) = (lower(value), lower(needle));
    if holds(value, needle) {
        let i = choose|i: int| 0 <= i <= low.len() && #[trigger] text::begins(low.skip(i), small);
        lemma_stands(value, needle, i);
    }
    if exists|i: int| stands_from(value, needle, i) {
        let i = choose|i: int| stands_from(value, needle, i);
        lemma_stands(value, needle, i);
    }
}

proof fn lemma_stands(value: Seq<char>, needle: Seq<char>, i: int)
    requires
        0 <= i <= value.len(),
    ensures
        text::begins(lower(value).skip(i), lower(needle)) <==> stands_from(value, needle, i),
{
    let rest = lower(value).skip(i);
    let small = lower(needle);
    if needle.len() <= value.len() - i {
        assert forall|j: int| 0 <= j < needle.len() implies (same_letter(value[i + j], needle[j])
            <==> rest[j] == #[trigger] small[j]) by {
            lemma_same_letter(value[i + j], needle[j]);
        }
        if text::begins(rest, small) {
            assert forall|j: int| 0 <= j < needle.len() implies same_letter(
                value[i + j],
                #[trigger] needle[j],
            ) by {
                assert(rest.take(small.len() as int)[j] == small[j]);
            }
        }
        if stands_from(value, needle, i) {
            assert forall|j: int| 0 <= j < needle.len() implies rest.take(small.len() as int)[j]
                == #[trigger] small[j] by {
                assert(same_letter(value[i + j], needle[j]));
            }
            assert(rest.take(small.len() as int) =~= small);
        }
    }
}

proof fn lemma_same_letter(a: char, b: char)
    ensures
        same_letter(a, b) <==> text::lower_char(a) == text::lower_char(b),
{
}

/// In what a request is not as a signature asks.
pub ghost struct Unlike {
    pub version: bool,
    pub order: bool,
    pub absent: bool,
    pub software: bool,
}

/// The version differs where the signature names another; the order where the expected
/// headers do not stand in it; the absent headers where the request has any of them; and
/// the software where the User-Agent does not hold it.
#[verifier::opaque]
pub open spec fn unlike(observed: RequestView, sig: HttpSignatureView) -> Unlike {
    Unlike {
        version: sig.http_minor_version matches Some(minor) && observed.minor_version != Some(
            minor,
        ),
        order: !headers_fit(observed.headers, sig.header_order),
        absent: exists|k: int, j: int|
            0 <= k < sig.header_absent.len() && 0 <= j < observed.headers.len() && (
            #[trigger] observed.headers[j]).0 == #[trigger] sig.header_absent[k],
        software: sig.expected_software matches Some(software) && !software_fits(
            observed,
            software,
        ),
    }
}

proof fn lemma_if(made: bool, ok: bool)
    ensures
        check_if(made, ok).len() == one_if(made),
        check_if(made, ok).len() - passed(check_if(made, ok)) == one_if(made && !ok),
{
    reveal(check_if);
    reveal(one_if);
    reveal(Seq::filter);
    assert(seq![ok].drop_last() =~= Seq::empty());
    assert(passed(Seq::<bool>::empty()) == 0);
}

/// A request has none of the headers that a signature wants missing exactly where no
/// header of it has one of their names.
pub proof fn absent_headers_are_absent(headers: Seq<HeaderText>, names: Seq<Seq<char>>)
    ensures
        all_missing(headers, names) <==> forall|k: int, j: int|
            0 <= k < names.len() && 0 <= j < headers.len() ==> (#[trigger] headers[j]).0
                != #[trigger] names[k],
{
    assert forall|k: int| 0 <= k < names.len() implies ((value_of(
        headers,
        #[trigger] names[k],
    ) is None) <==> (forall|j: int| 0 <= j < headers.len() ==> (#[trigger] headers[j]).0
        != names[k])) by {
        lemma_next_named(headers, 0, names[k]);
    }
}

/// A score counts one check for the order of the headers and one for each other thing
/// that a signature asks for, and is one match less for each of these in which the
/// request is not as it asks. Without the User-Agent the same holds of the first three.
pub proof fn request_scores_count_disagreements(observed: RequestView, sig: HttpSignatureView)
    ensures
        ({
            let score = http_score(observed, sig);
            let gate = http_gate_score(observed, sig);
            let d = unlike(observed, sig);
            &&& gate.checks == 1 + one_if(sig.http_minor_version is Some) + one_if(
                sig.header_absent.len() > 0,
            )
            &&& gate.checks - gate.matches == one_if(d.version) + one_if(d.order) + one_if(d.absent)
            &&& score.checks == gate.checks + one_if(sig.expected_software is Some)
            &&& score.checks - score.matches == gate.checks - gate.matches + one_if(d.software)
        }),
{
    let d = unlike(observed, sig);
    let c1 = check_if(
        sig.http_minor_version is Some,
        observed.minor_version == sig.http_minor_version,
    );
    let c2 = check_if(true, headers_fit(observed.headers, sig.header_order));
    let missing = all_missing(observed.headers, sig.header_absent);
    let c3 = check_if(sig.header_absent.len() > 0, missing);
    let fits = software_fits(observed, sig.expected_software->0);
    let c4 = check_if(sig.expected_software is Some, fits);
    lemma_http_scores_valid(observed, sig);
    lemma_if(
        sig.http_minor_version is Some,
        observed.minor_version == sig.http_minor_version,
    );
    lemma_if(true, headers_fit(observed.headers, sig.header_order));
    lemma_if(sig.header_absent.len() > 0, missing);
    lemma_if(sig.expected_software is Some, fits);
    assert(one_if(true) == 1) by {
        reveal(one_if);
    }
    assert({
        &&& d.version == (sig.http_minor_version is Some && observed.minor_version
            != sig.http_minor_version)
        &&& d.order == (true && !headers_fit(observed.headers, sig.header_order))
        &&& d.absent == (sig.header_absent.len() > 0 && !missing)
        &&& d.software == (sig.expected_software is Some && !fits)
    }) by {
        reveal(unlike);
        absent_headers_are_absent(observed.headers, sig.header_absent);
    }
    lemma_passed_parts(c1, c2);
    lemma_passed_parts(c1 + c2, c3);
    lemma_passed_parts(c1 + c2 + c3, c4);
    lemma_passed(c1 + c2 + c3);
    lemma_passed(c1 + c2 + c3 + c4);
}

/// A request matches a signature in full exactly where it does everything that the
/// signature asks for: no header that must be missing is there, and the User-Agent holds
/// the expected software. The User-Agent aside, the same decides the match.
pub proof fn full_requests_agree_in_everything(observed: RequestView, sig: HttpSignatureView)
    ensures
        ({
            let score = http_score(observed, sig);
            let gate = http_gate_score(observed, sig);
            &&& gate.matches == gate.checks <==> {
                &&& sig.http_minor_version is None || sig.http_minor_version
                    == observed.minor_version
                &&& headers_fit(observed.headers, sig.header_order)
                &&& forall|k: int, j: int|
                    0 <= k < sig.header_absent.len() && 0 <= j < observed.headers.len() ==> (
                    #[trigger] observed.headers[j]).0 != #[trigger] sig.header_absent[k]
            }
            &&& score.matches == score.checks <==> gate.matches == gate.checks && (
            sig.expected_software matches Some(software) ==> holds(
                match value_of(observed.headers, "user-agent"@) {
                    Some(agent) => agent,
                    None => Seq::empty(),
                },
                software,
            ))
        }),
{
    request_scores_count_disagreements(observed, sig);
    reveal(unlike);
    reveal(one_if);
}

/// A header that a signature wants missing costs a match, in the score and in what
/// decides the match.
pub proof fn unwanted_headers_cost_a_match(
    observed: RequestView,
    sig: HttpSignatureView,
    k: int,
    j: int,
)
    requires
        0 <= k < sig.header_absent.len(),
        0 <= j < observed.headers.len(),
        observed.headers[j].0 == sig.header_absent[k],
    ensures
        http_score(observed, sig).matches < http_score(observed, sig).checks,
        http_gate_score(observed, sig).matches < http_gate_score(observed, sig).checks,
{
    full_requests_agree_in_everything(observed, sig);
    lemma_http_scores_valid(observed, sig);
}

/// The signature that is chosen reaches the minimum whatever the User-Agent says; of
/// those of its kind that do, none is a larger share and none behind it as large a one.
/// A generic one is chosen only where no specific one reaches the minimum, and nothing
/// only where none does at all.
pub proof fn the_best_client_is_found(
    signatures: Seq<HttpSignatureView>,
    observed: RequestView,
    min: int,
    j: int,
)
    requires
        0 <= j < signatures.len(),
    ensures
        ({
            let other = http_score(observed, signatures[j]);
            let gate = http_gate_score(observed, signatures[j]);
            let counts = 1_000_000 * gate.matches >= min * gate.checks;
            match best_http(signatures, observed, min) {
                Some(i) => {
                    let best = http_score(observed, signatures[i]);
                    let own = http_gate_score(observed, signatures[i]);
                    &&& 0 <= i < signatures.len()
                    &&& 1_000_000 * own.matches >= min * own.checks
                    &&& counts && signatures[j].specific ==> signatures[i].specific
                    &&& counts && signatures[j].specific == signatures[i].specific
                        ==> other.matches * best.checks <= best.matches * other.checks
                    &&& counts && signatures[j].specific == signatures[i].specific && j > i
                        ==> other.matches * best.checks < best.matches * other.checks
                },
                None => !counts,
            }
        }),
{
    let specific = http_candidates(signatures, observed, min, true);
    let generic = http_candidates(signatures, observed, min, false);
    assert forall|i: int| 0 <= i < specific.len() implies (#[trigger] specific[i] matches Some(s)
        ==> s.valid()) by {
        lemma_http_scores_valid(observed, signatures[i]);
    }
    assert forall|i: int| 0 <= i < generic.len() implies (#[trigger] generic[i] matches Some(s)
        ==> s.valid()) by {
        lemma_http_scores_valid(observed, signatures[i]);
    }
    if specific[j] is Some {
        best_exists(specific, j);
    }
    if generic[j] is Some {
        best_exists(generic, j);
    }
}

// ---------------------------------------------------------------------------
// What an order of headers says

/// Whether `places` says where the expected headers stand: each at a header of its name
/// with the value it asks for, one behind the other, and with none at all for an optional
/// one that is missing.
pub open spec fn stand_at(
    headers: Seq<HeaderText>,
    expected: Seq<HeaderView>,
    places: Seq<Option<int>>,
) -> bool {
    &&& places.len() == expected.len()
    &&& forall|k: int|
        0 <= k < expected.len() ==> match #[trigger] places[k] {
            Some(i) => {
                &&& 0 <= i < headers.len()
                &&& headers[i].0 == expected[k].name
                &&& expected[k].value_contains matches Some(needle) ==> holds(
                    headers[i].1,
                    needle,
                )
            },
            None => expected[k].optional,
        }
    &&& forall|a: int, b: int|
        0 <= a < b < expected.len() ==> (#[trigger] places[a] matches Some(i) ==> (
        #[trigger] places[b] matches Some(j) ==> i < j))
}

proof fn lemma_places(
    headers: Seq<HeaderText>,
    cursor: int,
    taken: Seq<bool>,
    expected: Seq<HeaderView>,
) -> (places: Seq<Option<int>>)
    requires
        0 <= cursor <= headers.len(),
        taken.len() == headers.len(),
        order_fits(headers, cursor, taken, expected),
    ensures
        stand_at(headers, expected, places),
        forall|k: int|
            0 <= k < places.len() ==> (#[trigger] places[k] matches Some(i) ==> i >= cursor),
        forall|k: int, j: int|
            0 <= k < places.len() && places[k] is None && 0 <= j < headers.len()
                && headers[j].0 == expected[k].name && !taken[j] ==> #[trigger] was_taken(
                places,
                k,
                j,
            ),
    decreases expected.len(),
{
    if expected.len() == 0 {
        Seq::empty()
    } else {
        let first = expected[0];
        let rest = expected.skip(1);
        lemma_next_named(headers, cursor, first.name);
        match next_named(headers, cursor, first.name) {
            Some(i) => {
                let marks = taken.update(i, true);
                let later = lemma_places(headers, i + 1, marks, rest);
                let places = seq![Some(i)] + later;
                lemma_prepended(headers, expected, Some(i), later);
                assert forall|k: int| 0 <= k < places.len() implies (
                #[trigger] places[k] matches Some(n) ==> n >= cursor) by {
                    if k > 0 {
                        assert(places[k] == later[k - 1]);
                    }
                }
                assert forall|k: int, j: int|
                    0 <= k < places.len() && places[k] is None && 0 <= j < headers.len()
                        && headers[j].0 == expected[k].name && !taken[j] implies #[trigger] was_taken(
                    places,
                    k,
                    j,
                ) by {
                    assert(k > 0);
                    assert(places[k] == later[k - 1]);
                    assert(rest[k - 1] == expected[k]);
                    if j == i {
                        assert(places[0] == Some(j));
                    } else {
                        assert(was_taken(later, k - 1, j));
                        let n = choose|n: int| 0 <= n < k - 1 && #[trigger] later[n] == Some(j);
                        assert(places[n + 1] == Some(j));
                    }
                }
                places
            },
            None => {
                let later = lemma_places(headers, cursor, taken, rest);
                let places = seq![None::<int>] + later;
                lemma_prepended(headers, expected, None, later);
                assert forall|k: int| 0 <= k < places.len() implies (
                #[trigger] places[k] matches Some(n) ==> n >= cursor) by {
                    if k > 0 {
                        assert(places[k] == later[k - 1]);
                    }
                }
                assert forall|k: int, j: int|
                    0 <= k < places.len() && places[k] is None && 0 <= j < headers.len()
                        && headers[j].0 == expected[k].name && !taken[j] implies #[trigger] was_taken(
                    places,
                    k,
                    j,
                ) by {
                    assert(headers[j].0 == expected[k].name);
                    if k > 0 {
                        assert(places[k] == later[k - 1]);
                        assert(rest[k - 1] == expected[k]);
                        assert(was_taken(later, k - 1, j));
                        let n = choose|n: int| 0 <= n < k - 1 && #[trigger] later[n] == Some(j);
                        assert(places[n + 1] == Some(j));
                    }
                }
                places
            },
        }
    }
}

/// Whether the header at `j` stands for one that is expected before the one at `k`.
pub open spec fn was_taken(places: Seq<Option<int>>, k: int, j: int) -> bool {
    exists|n: int| 0 <= n < k && #[trigger] places[n] == Some(j)
}

proof fn lemma_prepended(
    headers: Seq<HeaderText>,
    expected: Seq<HeaderView>,
    first: Option<int>,
    later: Seq<Option<int>>,
)
    requires
        expected.len() > 0,
        stand_at(headers, expected.skip(1), later),
        match first {
            Some(i) => {
                &&& 0 <= i < headers.len()
                &&& headers[i].0 == expected[0].name
                &&& expected[0].value_contains matches Some(needle) ==> holds(
                    headers[i].1,
                    needle,
                )
                &&& forall|k: int|
                    0 <= k < later.len() ==> (#[trigger] later[k] matches Some(j) ==> j > i)
            },
            None => expected[0].optional,
        },
    ensures
        stand_at(headers, expected, seq![first] + later),
{
    let places = seq![first] + later;
    let rest = expected.skip(1);
    assert forall|k: int| 0 <= k < expected.len() implies match #[trigger] places[k] {
        Some(i) => {
            &&& 0 <= i < headers.len()
            &&& headers[i].0 == expected[k].name
            &&& expected[k].value_contains matches Some(needle) ==> holds(headers[i].1, needle)
        },
        None => expected[k].optional,
    } by {
        if k > 0 {
            assert(places[k] == later[k - 1]);
            assert(rest[k - 1] == expected[k]);
        }
    }
    assert forall|a: int, b: int| 0 <= a < b < expected.len() implies (
    #[trigger] places[a] matches Some(i) ==> (#[trigger] places[b] matches Some(j) ==> i < j)) by {
        assert(places[b] == later[b - 1]);
        if a > 0 {
            assert(places[a] == later[a - 1]);
        }
    }
}

/// Where the headers fit, each required one stands in the request with the value it asks
/// for, in the expected order; and one that does not stand there is optional, and not in
/// the request at all but for headers that stand for an expected one before it.
pub proof fn fitting_headers_stand_in_order(
    headers: Seq<HeaderText>,
    expected: Seq<HeaderView>,
) -> (places: Seq<Option<int>>)
    requires
        headers_fit(headers, expected),
    ensures
        stand_at(headers, expected, places),
        forall|k: int, j: int|
            0 <= k < places.len() && places[k] is None && 0 <= j < headers.len()
                && headers[j].0 == expected[k].name ==> #[trigger] was_taken(places, k, j),
{
    lemma_places(headers, 0, none_taken(headers.len()), expected)
}

proof fn lemma_fits(
    headers: Seq<HeaderText>,
    cursor: int,
    taken: Seq<bool>,
    expected: Seq<HeaderView>,
    places: Seq<Option<int>>,
)
    requires
        0 <= cursor <= headers.len(),
        taken.len() == headers.len(),
        forall|a: int, b: int|
            0 <= a < b < headers.len() ==> (#[trigger] headers[a]).0 != (
            #[trigger] headers[b]).0,
        stand_at(headers, expected, places),
        forall|k: int|
            0 <= k < places.len() ==> (#[trigger] places[k] matches Some(i) ==> i >= cursor),
        forall|k: int, j: int|
            0 <= k < places.len() && #[trigger] places[k] is None && 0 <= j < headers.len() ==> (
            #[trigger] headers[j]).0 != expected[k].name,
    ensures
        order_fits(headers, cursor, taken, expected),
    decreases expected.len(),
{
    if expected.len() > 0 {
        let first = expected[0];
        let rest = expected.skip(1);
        let later = places.skip(1);
        lemma_next_named(headers, cursor, first.name);
        assert forall|k: int| 0 <= k < rest.len() implies match #[trigger] later[k] {
            Some(i) => {
                &&& 0 <= i < headers.len()
                &&& headers[i].0 == rest[k].name
                &&& rest[k].value_contains matches Some(needle) ==> holds(headers[i].1, needle)
            },
            None => rest[k].optional,
        } by {
            assert(later[k] == places[k + 1]);
            assert(rest[k] == expected[k + 1]);
        }
        assert forall|a: int, b: int| 0 <= a < b < rest.len() implies (
        #[trigger] later[a] matches Some(i) ==> (#[trigger] later[b] matches Some(j) ==> i < j)) by {
            assert(later[a] == places[a + 1]);
            assert(later[b] == places[b + 1]);
        }
        assert forall|k: int, j: int|
            0 <= k < later.len() && #[trigger] later[k] is None && 0 <= j < headers.len() implies (
        #[trigger] headers[j]).0 != rest[k].name by {
            assert(later[k] == places[k + 1]);
            assert(rest[k] == expected[k + 1]);
        }
        match places[0] {
            Some(i) => {
                assert(headers[i].0 == first.name);
                assert(next_named(headers, cursor, first.name) == Some(i));
                assert forall|k: int| 0 <= k < later.len() implies (
                #[trigger] later[k] matches Some(n) ==> n >= i + 1) by {
                    assert(later[k] == places[k + 1]);
                    assert(places[0] is Some);
                }
                lemma_fits(headers, i + 1, taken.update(i, true), rest, later);
            },
            None => {
                assert forall|k: int| 0 <= k < later.len() implies (
                #[trigger] later[k] matches Some(n) ==> n >= cursor) by {
                    assert(later[k] == places[k + 1]);
                }
                lemma_fits(headers, cursor, taken, rest, later);
            },
        }
    }
}

/// Of a request that has no header twice: its headers fit where each that is expected
/// stands in it with the value it asks for, one behind the other, and where those that do
/// not stand there are optional and not in the request.
pub proof fn headers_in_order_fit(
    headers: Seq<HeaderText>,
    expected: Seq<HeaderView>,
    places: Seq<Option<int>>,
)
    requires
        forall|a: int, b: int|
            0 <= a < b < headers.len() ==> (#[trigger] headers[a]).0 != (
            #[trigger] headers[b]).0,
        stand_at(headers, expected, places),
        forall|k: int, j: int|
            0 <= k < places.len() && #[trigger] places[k] is None && 0 <= j < headers.len() ==> (
            #[trigger] headers[j]).0 != expected[k].name,
    ensures
        headers_fit(headers, expected),
{
    lemma_fits(headers, 0, none_taken(headers.len()), expected, places);
}

} // verus!
