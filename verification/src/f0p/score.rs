//! How well a signature fits what was observed: the share of its checks that
//! passed, as an exact fraction, and the choice of the best of several.

use vstd::prelude::*;

use crate::evidence::Confidence;

verus! {

/// A minimum score in millionths: `800_000` asks for four checks out of five.
pub type MinScore = i64;

/// `matches` out of `checks`.
#[derive(Debug, Clone, Copy, PartialEq, Eq, Structural)]
pub struct Score {
    pub matches: u8,
    pub checks: u8,
}

/// How many checks passed.
pub open spec fn passed(checks: Seq<bool>) -> nat {
    checks.filter(|ok: bool| ok).len()
}

/// No more checks pass than are made.
pub proof fn lemma_passed(checks: Seq<bool>)
    ensures
        passed(checks) <= checks.len(),
    decreases checks.len(),
{
    reveal(Seq::filter);
    if checks.len() > 0 {
        lemma_passed(checks.drop_last());
    }
}

impl Score {
    /// At least one check was made, and no more passed than were made.
    pub open spec fn valid(self) -> bool {
        self.matches <= self.checks && self.checks > 0
    }

    /// The score of a list of checks.
    pub open spec fn of(checks: Seq<bool>) -> Score {
        Score { matches: passed(checks) as u8, checks: checks.len() as u8 }
    }

    /// Whether `self` is the larger fraction.
    pub open spec fn beats(self, other: Score) -> bool {
        self.matches * other.checks > other.matches * self.checks
    }

    /// Whether `self` is at least `min` millionths.
    pub open spec fn reaches(self, min: int) -> bool {
        self.matches * 1_000_000 >= min * self.checks
    }

    /// Counts the checks that passed.
    pub fn tally(checks: &Vec<bool>) -> (r: Score)
        requires
            1 <= checks@.len() <= u8::MAX,
        ensures
            r == Score::of(checks@),
            r.valid(),
            r.checks == checks@.len(),
            r.matches == passed(checks@),
    {
        let mut matches: u8 = 0;
        let mut i: usize = 0;
        assert(checks@.take(0) =~= Seq::<bool>::empty());
        while i < checks.len()
            invariant
                i <= checks@.len() <= u8::MAX,
                matches == passed(checks@.take(i as int)),
                matches <= i,
            decreases checks@.len() - i,
        {
            proof {
                assert(checks@.take(i + 1) =~= checks@.take(i as int).push(checks@[i as int]));
                checks@.take(i as int).lemma_filter_push(checks@[i as int], |ok: bool| ok);
            }
            if checks[i] {
                matches = matches + 1;
            }
            i = i + 1;
        }
        assert(checks@.take(i as int) =~= checks@);
        Score { matches, checks: checks.len() as u8 }
    }

    /// Whether every check passed.
    pub fn is_full(&self) -> (r: bool)
        ensures
            r == (self.matches == self.checks),
    {
        self.matches == self.checks
    }

    pub fn is_better_than(&self, other: &Score) -> (r: bool)
        ensures
            r == self.beats(*other),
    {
        proof {
            lemma_product(self.matches, other.checks);
            lemma_product(other.matches, self.checks);
        }
        self.matches as u16 * other.checks as u16 > other.matches as u16 * self.checks as u16
    }

    pub fn is_at_least(&self, min: MinScore) -> (r: bool)
        ensures
            r == self.reaches(min as int),
    {
        assert(-0x8000_0000_0000_0000 * 255 <= min * self.checks <= 0x7fff_ffff_ffff_ffff * 255)
            by (nonlinear_arith)
            requires
                -0x8000_0000_0000_0000 <= min <= 0x7fff_ffff_ffff_ffff,
                0 <= self.checks <= 255,
        ;
        self.matches as i128 * 1_000_000 >= min as i128 * self.checks as i128
    }
}

proof fn lemma_product(a: u8, b: u8)
    ensures
        0 <= a * b <= 255 * 255,
{
    assert(0 <= a * b <= 255 * 255) by (nonlinear_arith)
        requires
            0 <= a <= 255,
            0 <= b <= 255,
    ;
}

/// A score of at least 19 in 20 makes a strong claim, one of at least 17 in 20 a
/// likely one, and any other a weak one.
pub open spec fn confidence_of(score: Score) -> Confidence {
    if score.matches * 20 >= 19 * score.checks {
        Confidence::Strong
    } else if score.matches * 20 >= 17 * score.checks {
        Confidence::Likely
    } else {
        Confidence::Weak
    }
}

/// How sure a match of this score is.
pub fn confidence_for(score: Score) -> (r: Confidence)
    ensures
        r == confidence_of(score),
{
    let matches: u16 = score.matches as u16 * 20;
    if matches >= score.checks as u16 * 19 {
        Confidence::Strong
    } else if matches >= score.checks as u16 * 17 {
        Confidence::Likely
    } else {
        Confidence::Weak
    }
}

// ---------------------------------------------------------------------------
// The best of several

/// The scores of a list of candidates; `None` for one that is out.
pub open spec fn all_valid(candidates: Seq<Option<Score>>) -> bool {
    forall|i: int| 0 <= i < candidates.len() ==> (#[trigger] candidates[i] matches Some(s)
        ==> s.valid())
}

pub open spec fn none_in(candidates: Seq<Option<Score>>) -> bool {
    forall|i: int| 0 <= i < candidates.len() ==> #[trigger] candidates[i] is None
}

/// Whether no candidate beats the one at `i`, and `i` beats all before it.
pub open spec fn is_first_best(candidates: Seq<Option<Score>>, i: int) -> bool {
    &&& 0 <= i < candidates.len()
    &&& candidates[i] is Some
    &&& forall|j: int|
        0 <= j < candidates.len() ==> (#[trigger] candidates[j] matches Some(s) ==> {
            &&& !s.beats(candidates[i]->0)
            &&& j < i ==> (candidates[i]->0).beats(s)
        })
}

/// Whether no candidate beats the one at `i`, and `i` beats all after it.
pub open spec fn is_last_best(candidates: Seq<Option<Score>>, i: int) -> bool {
    &&& 0 <= i < candidates.len()
    &&& candidates[i] is Some
    &&& forall|j: int|
        0 <= j < candidates.len() ==> (#[trigger] candidates[j] matches Some(s) ==> {
            &&& !s.beats(candidates[i]->0)
            &&& j > i ==> (candidates[i]->0).beats(s)
        })
}

/// The best candidate, the first of equals.
pub open spec fn first_best(candidates: Seq<Option<Score>>) -> Option<int> {
    if exists|i: int| is_first_best(candidates, i) {
        Some(choose|i: int| is_first_best(candidates, i))
    } else {
        None
    }
}

/// The best candidate, the last of equals.
pub open spec fn last_best(candidates: Seq<Option<Score>>) -> Option<int> {
    if exists|i: int| is_last_best(candidates, i) {
        Some(choose|i: int| is_last_best(candidates, i))
    } else {
        None
    }
}

/// The order of the fractions: what is no better than one that is beaten is
/// beaten too.
pub proof fn scores_are_ordered(a: Score, b: Score, c: Score)
    requires
        a.valid(),
        b.valid(),
        c.valid(),
    ensures
        !a.beats(a),
        a.beats(b) ==> !b.beats(a),
        a.beats(b) && !c.beats(b) ==> a.beats(c),
        !b.beats(a) && b.beats(c) ==> a.beats(c),
        !b.beats(a) && !c.beats(b) ==> !c.beats(a),
{
    let (am, ac) = (a.matches as int, a.checks as int);
    let (bm, bc) = (b.matches as int, b.checks as int);
    let (cm, cc) = (c.matches as int, c.checks as int);
    if a.beats(b) && !c.beats(b) {
        assert(am * cc > cm * ac) by (nonlinear_arith)
            requires
                am * bc > bm * ac,
                cm * bc <= bm * cc,
                ac > 0,
                bc > 0,
                cc > 0,
        {
            assert((am * bc) * cc > (bm * ac) * cc);
            assert((bm * cc) * ac >= (cm * bc) * ac);
            assert((am * bc) * cc == bc * (am * cc));
            assert((bm * ac) * cc == (bm * cc) * ac);
            assert((cm * bc) * ac == bc * (cm * ac));
            assert(bc * (am * cc) > bc * (cm * ac));
        }
    }
    if !b.beats(a) && b.beats(c) {
        assert(am * cc > cm * ac) by (nonlinear_arith)
            requires
                bm * ac <= am * bc,
                bm * cc > cm * bc,
                ac > 0,
                bc > 0,
                cc > 0,
        {
            assert((am * bc) * cc >= (bm * ac) * cc);
            assert((bm * cc) * ac > (cm * bc) * ac);
            assert((am * bc) * cc == bc * (am * cc));
            assert((bm * ac) * cc == (bm * cc) * ac);
            assert((cm * bc) * ac == bc * (cm * ac));
            assert(bc * (am * cc) > bc * (cm * ac));
        }
    }
    if !b.beats(a) && !c.beats(b) {
        assert(cm * ac <= am * cc) by (nonlinear_arith)
            requires
                bm * ac <= am * bc,
                cm * bc <= bm * cc,
                ac > 0,
                bc > 0,
                cc > 0,
        {
            assert((am * bc) * cc >= (bm * ac) * cc);
            assert((bm * cc) * ac >= (cm * bc) * ac);
            assert((am * bc) * cc == bc * (am * cc));
            assert((bm * ac) * cc == (bm * cc) * ac);
            assert((cm * bc) * ac == bc * (cm * ac));
            assert(bc * (am * cc) >= bc * (cm * ac));
        }
    }
}

/// There is at most one first best and at most one last best.
pub proof fn best_is_unique(candidates: Seq<Option<Score>>, i: int, j: int)
    ensures
        is_first_best(candidates, i) && is_first_best(candidates, j) ==> i == j,
        is_last_best(candidates, i) && is_last_best(candidates, j) ==> i == j,
{
}

/// Of any candidates at all there is a first best and a last best.
pub proof fn best_exists(candidates: Seq<Option<Score>>, k: int)
    requires
        all_valid(candidates),
        0 <= k < candidates.len(),
        candidates[k] is Some,
    ensures
        first_best(candidates) matches Some(i) && is_first_best(candidates, i),
        last_best(candidates) matches Some(i) && is_last_best(candidates, i),
{
    let (a, b) = lemma_bests(candidates, candidates.len() as int, k);
    assert(candidates.take(candidates.len() as int) =~= candidates);
    assert(is_first_best(candidates, a));
    assert(is_last_best(candidates, b));
}

proof fn lemma_bests(candidates: Seq<Option<Score>>, n: int, k: int) -> (r: (int, int))
    requires
        all_valid(candidates),
        0 <= k < n <= candidates.len(),
        candidates[k] is Some,
    ensures
        is_first_best(candidates.take(n), r.0),
        is_last_best(candidates.take(n), r.1),
    decreases n,
{
    let before = candidates.take(n - 1);
    let after = candidates.take(n);
    assert(after =~= before.push(candidates[n - 1]));
    assert forall|j: int| 0 <= j < n - 1 implies before[j] == #[trigger] after[j] by {}
    if exists|j: int| 0 <= j < n - 1 && candidates[j] is Some {
        let j = choose|j: int| 0 <= j < n - 1 && candidates[j] is Some;
        let (a, b) = lemma_bests(candidates, n - 1, j);
        assert(before[a] == after[a] && before[b] == after[b]);
        if after[n - 1] is Some {
            let new = after[n - 1]->0;
            assert forall|i: int| 0 <= i < n - 1 && #[trigger] after[i] is Some implies {
                &&& new.beats(after[a]->0) ==> new.beats(after[i]->0) && !(after[i]->0).beats(new)
                &&& !(after[b]->0).beats(new) ==> !(after[i]->0).beats(new)
            } by {
                assert(before[i] == after[i]);
                scores_are_ordered(new, after[a]->0, after[i]->0);
                scores_are_ordered(new, after[i]->0, after[i]->0);
                scores_are_ordered(new, after[b]->0, after[i]->0);
            }
            scores_are_ordered(new, new, new);
            scores_are_ordered(after[a]->0, new, new);
            scores_are_ordered(after[b]->0, new, new);
            (
                if new.beats(after[a]->0) {
                    n - 1
                } else {
                    a
                },
                if (after[b]->0).beats(new) {
                    b
                } else {
                    n - 1
                },
            )
        } else {
            (a, b)
        }
    } else {
        assert(k == n - 1);
        scores_are_ordered(candidates[k]->0, candidates[k]->0, candidates[k]->0);
        assert forall|i: int| 0 <= i < n - 1 implies #[trigger] after[i] is None by {
            assert(candidates[i] is None);
        }
        (k, k)
    }
}

/// Picks the best candidate, the first of equals.
pub fn pick_first_best(candidates: &Vec<Option<Score>>) -> (r: Option<usize>)
    requires
        all_valid(candidates@),
    ensures
        match r {
            Some(i) => is_first_best(candidates@, i as int) && first_best(candidates@) == Some(
                i as int,
            ),
            None => none_in(candidates@) && first_best(candidates@) is None,
        },
{
    let mut best: Option<usize> = None;
    let mut i: usize = 0;
    while i < candidates.len()
        invariant
            i <= candidates@.len(),
            all_valid(candidates@),
            match best {
                Some(b) => is_first_best(candidates@.take(i as int), b as int),
                None => none_in(candidates@.take(i as int)),
            },
        decreases candidates@.len() - i,
    {
        let ghost before = candidates@.take(i as int);
        let ghost after = candidates@.take(i + 1);
        proof {
            assert(after =~= before.push(candidates@[i as int]));
        }
        if let Some(score) = &candidates[i] {
            let better = match best {
                Some(b) => match &candidates[b] {
                    Some(held) => score.is_better_than(held),
                    None => true,
                },
                None => true,
            };
            proof {
                assert forall|j: int| 0 <= j < i && candidates@[j] is Some && best is Some implies {
                    &&& better ==> score.beats(#[trigger] candidates@[j]->0) && !(
                    candidates@[j]->0).beats(*score)
                } by {
                    let b = best->0 as int;
                    assert(before[j] == candidates@[j] && before[b] == candidates@[b]);
                    scores_are_ordered(*score, before[b]->0, before[j]->0);
                    scores_are_ordered(*score, before[j]->0, before[j]->0);
                }
                assert forall|j: int| 0 <= j < i implies before[j] == #[trigger] after[j] by {}
                scores_are_ordered(*score, *score, *score);
                if best is Some {
                    let b = best->0 as int;
                    assert(before[b] == after[b]);
                }
            }
            if better {
                best = Some(i);
            }
        }
        i = i + 1;
    }
    assert(candidates@.take(i as int) =~= candidates@);
    proof {
        if best is Some {
            best_is_unique(candidates@, best->0 as int, choose|k: int| is_first_best(candidates@, k));
        }
    }
    best
}

/// Picks the best candidate, the last of equals.
pub fn pick_last_best(candidates: &Vec<Option<Score>>) -> (r: Option<usize>)
    requires
        all_valid(candidates@),
    ensures
        match r {
            Some(i) => is_last_best(candidates@, i as int) && last_best(candidates@) == Some(
                i as int,
            ),
            None => none_in(candidates@) && last_best(candidates@) is None,
        },
{
    let mut best: Option<usize> = None;
    let mut i: usize = 0;
    while i < candidates.len()
        invariant
            i <= candidates@.len(),
            all_valid(candidates@),
            match best {
                Some(b) => is_last_best(candidates@.take(i as int), b as int),
                None => none_in(candidates@.take(i as int)),
            },
        decreases candidates@.len() - i,
    {
        let ghost before = candidates@.take(i as int);
        let ghost after = candidates@.take(i + 1);
        proof {
            assert(after =~= before.push(candidates@[i as int]));
        }
        if let Some(score) = &candidates[i] {
            let worse = match best {
                Some(b) => match &candidates[b] {
                    Some(held) => held.is_better_than(score),
                    None => false,
                },
                None => false,
            };
            proof {
                assert forall|j: int| 0 <= j < i && candidates@[j] is Some && best is Some implies {
                    &&& !worse ==> !(#[trigger] candidates@[j]->0).beats(*score)
                } by {
                    let b = best->0 as int;
                    assert(before[j] == candidates@[j] && before[b] == candidates@[b]);
                    scores_are_ordered(*score, before[b]->0, before[j]->0);
                }
                assert forall|j: int| 0 <= j < i implies before[j] == #[trigger] after[j] by {}
                scores_are_ordered(*score, *score, *score);
                if best is Some {
                    let b = best->0 as int;
                    assert(before[b] == after[b]);
                    scores_are_ordered(before[b]->0, *score, *score);
                }
            }
            if !worse {
                best = Some(i);
            }
        }
        i = i + 1;
    }
    assert(candidates@.take(i as int) =~= candidates@);
    proof {
        if best is Some {
            best_is_unique(candidates@, best->0 as int, choose|k: int| is_last_best(candidates@, k));
        }
    }
    best
}

// ---------------------------------------------------------------------------
// Laws

/// A score counts every check once, and as passed exactly where it passed.
pub proof fn every_check_counts_once(checks: Seq<bool>, ok: bool)
    requires
        checks.len() < 255,
    ensures
        Score::of(Seq::<bool>::empty()).checks == 0,
        Score::of(Seq::<bool>::empty()).matches == 0,
        Score::of(checks.push(ok)).checks == Score::of(checks).checks + 1,
        ok ==> Score::of(checks.push(ok)).matches == Score::of(checks).matches + 1,
        !ok ==> Score::of(checks.push(ok)).matches == Score::of(checks).matches,
{
    reveal(Seq::filter);
    checks.lemma_filter_push(ok, |ok: bool| ok);
    lemma_passed(checks);
}

/// Scores are compared as fractions: of the same number of checks the one with more
/// passed is better, a full score is better than any that is not, and what is the same
/// share is no better.
pub proof fn the_larger_share_is_better(a: Score, b: Score)
    requires
        a.valid(),
        b.valid(),
    ensures
        a.checks == b.checks ==> (a.beats(b) <==> a.matches > b.matches),
        a.matches == a.checks && b.matches < b.checks ==> a.beats(b),
        a.matches * b.checks > b.matches * a.checks <==> a.beats(b),
        a.matches * b.checks == b.matches * a.checks ==> !a.beats(b) && !b.beats(a),
{
    let (am, ac) = (a.matches as int, a.checks as int);
    let (bm, bc) = (b.matches as int, b.checks as int);
    if ac == bc {
        assert(am * bc > bm * ac <==> am > bm) by (nonlinear_arith)
            requires
                ac == bc,
                ac > 0,
        ;
    }
    if am == ac && bm < bc {
        assert(am * bc > bm * ac) by (nonlinear_arith)
            requires
                am == ac,
                bm < bc,
                ac > 0,
        ;
    }
}

/// A minimum is a share in millionths: everything reaches nothing, only a full score
/// reaches the whole, a score that reaches a minimum reaches every lower one, and a
/// better score reaches what a worse one reaches.
pub proof fn minimums_are_shares(a: Score, b: Score, min: int, lower: int)
    requires
        a.valid(),
        b.valid(),
        lower <= min,
    ensures
        a.reaches(0),
        a.reaches(1_000_000) <==> a.matches == a.checks,
        a.reaches(min) <==> 1_000_000 * a.matches >= a.checks * min,
        a.reaches(min) ==> a.reaches(lower),
        b.reaches(min) && !b.beats(a) ==> a.reaches(min),
{
    let (am, ac) = (a.matches as int, a.checks as int);
    let (bm, bc) = (b.matches as int, b.checks as int);
    assert(ac * min == min * ac) by (nonlinear_arith);
    assert(lower * ac <= min * ac) by (nonlinear_arith)
        requires
            lower <= min,
            ac > 0,
    ;
    if b.reaches(min) && !b.beats(a) {
        assert(am * 1_000_000 >= min * ac) by (nonlinear_arith)
            requires
                bm * 1_000_000 >= min * bc,
                bm * ac <= am * bc,
                ac > 0,
                bc > 0,
        {
            assert((bm * 1_000_000) * ac >= (min * bc) * ac);
            assert((bm * 1_000_000) * ac == (bm * ac) * 1_000_000);
            assert((am * bc) * 1_000_000 >= (bm * ac) * 1_000_000);
            assert((am * bc) * 1_000_000 == bc * (am * 1_000_000));
            assert((min * bc) * ac == bc * (min * ac));
            assert(bc * (am * 1_000_000) >= bc * (min * ac));
        }
    }
}

/// How sure a claim is follows its score: a full score is a strong claim, at least 95
/// in a hundred makes a strong one and at least 85 a likely one, and a better score
/// never makes a weaker claim.
pub proof fn confidence_follows_the_score(a: Score, b: Score)
    requires
        a.valid(),
        b.valid(),
    ensures
        a.matches == a.checks ==> confidence_of(a) == Confidence::Strong,
        confidence_of(a) == Confidence::Strong <==> 100 * a.matches >= 95 * a.checks,
        confidence_of(a) == Confidence::Weak <==> 100 * a.matches < 85 * a.checks,
        !b.beats(a) && confidence_of(b) == Confidence::Strong ==> confidence_of(a)
            == Confidence::Strong,
        !b.beats(a) && confidence_of(b) == Confidence::Likely ==> confidence_of(a)
            != Confidence::Weak,
{
    let (am, ac) = (a.matches as int, a.checks as int);
    let (bm, bc) = (b.matches as int, b.checks as int);
    if !b.beats(a) {
        assert forall|k: int| 0 <= k <= 20 && bm * 20 >= k * bc implies am * 20 >= #[trigger] (k
            * ac) by {
            assert(am * 20 >= k * ac) by (nonlinear_arith)
                requires
                    bm * 20 >= k * bc,
                    bm * ac <= am * bc,
                    ac > 0,
                    bc > 0,
            {
                assert((bm * 20) * ac >= (k * bc) * ac);
                assert((bm * 20) * ac == (bm * ac) * 20);
                assert((am * bc) * 20 >= (bm * ac) * 20);
                assert((am * bc) * 20 == bc * (am * 20));
                assert((k * bc) * ac == bc * (k * ac));
                assert(bc * (am * 20) >= bc * (k * ac));
            }
        }
        assert(am * 20 >= 19 * ac || bm * 20 < 19 * bc);
        assert(am * 20 >= 17 * ac || bm * 20 < 17 * bc);
    }
}

/// Splits the count of a list of checks.
pub proof fn lemma_passed_parts(a: Seq<bool>, b: Seq<bool>)
    ensures
        passed(a + b) == passed(a) + passed(b),
{
    Seq::filter_distributes_over_add(a, b, |ok: bool| ok);
}

} // verus!
