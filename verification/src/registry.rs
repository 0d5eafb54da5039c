//! The methods of a run, in the order in which they look at a session.

use vstd::prelude::*;

use crate::error::Error;
use crate::evidence::{copied, evidence_views, Evidence, EvidenceView};
use crate::manifest::{ManifestView, MethodManifest, Trigger};
use crate::method::{OutcomeView, SessionContext, SessionContextView, SessionMethod};
use crate::order::{lemma_placed, sort, sorted, sorting_sorts, Ranked};
use crate::session::{Session, SessionView};
use crate::text;

verus! {

// ---------------------------------------------------------------------------
// Adapters

/// The adapters there are.
#[derive(Debug, Clone, Copy, PartialEq, Eq, Structural)]
pub enum AdapterKind {
    F0p,
    Ja4,
    Banner,
    Fusion,
}

/// The adapter that goes by a name.
pub open spec fn adapter_named(name: Seq<char>) -> Option<AdapterKind> {
    if name == "f0p"@ {
        Some(AdapterKind::F0p)
    } else if name == "ja4"@ {
        Some(AdapterKind::Ja4)
    } else if name == "banner"@ {
        Some(AdapterKind::Banner)
    } else if name == "fusion"@ {
        Some(AdapterKind::Fusion)
    } else {
        None
    }
}

/// Finds the adapter for a manifest: none where the manifest turns its method off,
/// and an error where no adapter goes by its name, rather than passing it over in
/// silence.
pub fn adapter_for(manifest: &MethodManifest) -> (r: Result<Option<AdapterKind>, Error>)
    ensures
        match r {
            Ok(None) => !manifest.enabled,
            Ok(Some(kind)) => manifest.enabled && adapter_named(manifest.name@) == Some(kind),
            Err(error) => manifest.enabled && adapter_named(manifest.name@) is None && (
            error matches Error::UnknownMethod(name) && name@ == manifest.name@),
        },
{
    if !manifest.enabled {
        return Ok(None);
    }
    let name = manifest.name.as_str();
    if text::same_str(name, "f0p") {
        Ok(Some(AdapterKind::F0p))
    } else if text::same_str(name, "ja4") {
        Ok(Some(AdapterKind::Ja4))
    } else if text::same_str(name, "banner") {
        Ok(Some(AdapterKind::Banner))
    } else if text::same_str(name, "fusion") {
        Ok(Some(AdapterKind::Fusion))
    } else {
        Err(Error::UnknownMethod(text::copy_of(name)))
    }
}

// ---------------------------------------------------------------------------
// Priorities

impl<M: SessionMethod> Ranked for M {
    /// The higher priority comes first.
    open spec fn precedes(self, other: Self) -> bool {
        self.declared().priority > other.declared().priority
    }

    proof fn ranks(a: Self, b: Self, c: Self) {
    }

    fn is_before(&self, other: &Self) -> (r: bool) {
        self.manifest().invocation.priority > other.manifest().invocation.priority
    }
}

/// The method of the lowest priority runs last, so that it sees what all the others
/// claim.
pub proof fn the_lowest_priority_runs_last<M: SessionMethod>(methods: Seq<M>, lowest: int)
    requires
        0 <= lowest < methods.len(),
        forall|i: int|
            0 <= i < methods.len() && i != lowest ==> (
            #[trigger] methods[i]).declared().priority > methods[lowest].declared().priority,
    ensures
        sorted(methods).last() == methods[lowest],
    decreases methods.len(),
{
    let head = methods.drop_last();
    let others = sorted(head);
    sorting_sorts(head);
    lemma_placed(others, methods.last());
    if lowest == methods.len() - 1 {
        if others.len() > 0 {
            assert(others.to_multiset().contains(others.last())) by {
                broadcast use vstd::seq_lib::group_to_multiset_ensures;

                assert(others.contains(others[others.len() - 1]));
            }
            assert(head.contains(others.last())) by {
                broadcast use vstd::seq_lib::group_to_multiset_ensures;

            }
            let k = choose|k: int| 0 <= k < head.len() && head[k] == others.last();
            assert(methods[k].declared().priority > methods[lowest].declared().priority);
        }
    } else {
        assert(head[lowest] == methods[lowest]);
        assert forall|i: int| 0 <= i < head.len() && i != lowest implies (
        #[trigger] head[i]).declared().priority > head[lowest].declared().priority by {
            assert(methods[i].declared().priority > methods[lowest].declared().priority);
        }
        the_lowest_priority_runs_last(head, lowest);
        assert(methods[methods.len() - 1].declared().priority
            > methods[lowest].declared().priority);
    }
}

// ---------------------------------------------------------------------------
// One pass over a session

/// Whether a method runs: one that waits for the end runs once the session is over,
/// and any other once the session has reached its stage.
pub open spec fn should_run(manifest: ManifestView, session: SessionView, final_pass: bool) -> bool {
    match manifest.trigger {
        Trigger::SessionEnd => final_pass,
        Trigger::StageReached | Trigger::EveryObservation => session.stage.rank()
            >= manifest.required_stage.rank(),
    }
}

/// What becomes of a claim: one under a key that the manifest does not declare is
/// dropped, and one that more of the session may change is marked.
pub open spec fn accepted(
    evidence: Seq<EvidenceView>,
    fields: Seq<Seq<char>>,
    provisional: bool,
) -> Seq<EvidenceView> {
    evidence.filter(|e: EvidenceView| fields.contains(e.key)).map_values(
        |e: EvidenceView| EvidenceView { provisional, ..e },
    )
}

/// What a method adds to a pass. One that does not run or fails adds nothing.
pub open spec fn produced<M: SessionMethod>(method: M, ctx: SessionContextView) -> Seq<
    EvidenceView,
> {
    if !should_run(method.declared(), ctx.session, ctx.is_final) {
        Seq::empty()
    } else {
        match method.outcome(ctx) {
            Some(outcome) => accepted(
                outcome.evidence(),
                method.declared().fields,
                !ctx.is_final && outcome is Partial,
            ),
            None => Seq::empty(),
        }
    }
}

/// Whether what a method adds is settled: it was to run on reaching its stage, it ran,
/// and it did not ask for more of the session.
pub open spec fn settles<M: SessionMethod>(method: M, ctx: SessionContextView) -> bool {
    &&& method.declared().trigger == Trigger::StageReached
    &&& should_run(method.declared(), ctx.session, ctx.is_final)
    &&& !(method.outcome(ctx) matches Some(OutcomeView::Partial(_)))
}

/// What a method is given in a pass.
pub open spec fn pass_context(
    session: SessionView,
    evidence: Seq<EvidenceView>,
    final_pass: bool,
    both_directions: bool,
) -> SessionContextView {
    SessionContextView { session, evidence, is_final: final_pass, both_directions }
}

/// What the first `n` methods claim, each given what those before it claimed.
pub open spec fn pass<M: SessionMethod>(
    methods: Seq<M>,
    n: int,
    session: SessionView,
    final_pass: bool,
    both_directions: bool,
) -> Seq<EvidenceView>
    decreases n,
{
    if n <= 0 {
        Seq::empty()
    } else {
        let before = pass(methods, n - 1, session, final_pass, both_directions);
        before + produced(
            methods[n - 1],
            pass_context(session, before, final_pass, both_directions),
        )
    }
}

/// The same, with the claims of each method that makes any by themselves.
pub open spec fn batches<M: SessionMethod>(
    methods: Seq<M>,
    n: int,
    session: SessionView,
    final_pass: bool,
    both_directions: bool,
) -> Seq<Seq<EvidenceView>>
    decreases n,
{
    if n <= 0 {
        Seq::empty()
    } else {
        let before = batches(methods, n - 1, session, final_pass, both_directions);
        let own = produced(
            methods[n - 1],
            pass_context(
                session,
                pass(methods, n - 1, session, final_pass, both_directions),
                final_pass,
                both_directions,
            ),
        );
        if own.len() == 0 {
            before
        } else {
            before.push(own)
        }
    }
}

/// What a list of batches holds.
pub open spec fn batch_views(list: Seq<Vec<Evidence>>) -> Seq<Seq<EvidenceView>> {
    Seq::new(list.len(), |i: int| evidence_views(list[i]@))
}

/// The batches put together are the whole pass, and no batch is empty.
pub proof fn batches_make_the_pass<M: SessionMethod>(
    methods: Seq<M>,
    n: int,
    session: SessionView,
    final_pass: bool,
    both_directions: bool,
)
    requires
        0 <= n <= methods.len(),
    ensures
        batches(methods, n, session, final_pass, both_directions).flatten() == pass(
            methods,
            n,
            session,
            final_pass,
            both_directions,
        ),
        forall|i: int|
            0 <= i < batches(methods, n, session, final_pass, both_directions).len() ==> (
            #[trigger] batches(methods, n, session, final_pass, both_directions)[i]).len() > 0,
    decreases n,
{
    if n > 0 {
        batches_make_the_pass(methods, n - 1, session, final_pass, both_directions);
        let before = batches(methods, n - 1, session, final_pass, both_directions);
        let earlier = pass(methods, n - 1, session, final_pass, both_directions);
        let own = produced(
            methods[n - 1],
            pass_context(session, earlier, final_pass, both_directions),
        );
        if own.len() == 0 {
            assert(earlier + own =~= earlier);
        } else {
            lemma_flatten_push(before, own);
        }
    } else {
        assert(batches(methods, n, session, final_pass, both_directions).flatten() =~= Seq::empty());
    }
}

pub proof fn lemma_flatten_push(list: Seq<Seq<EvidenceView>>, more: Seq<EvidenceView>)
    ensures
        list.push(more).flatten() == list.flatten() + more,
    decreases list.len(),
{
    reveal_with_fuel(Seq::flatten, 2);
    if list.len() == 0 {
        assert(list.push(more).drop_first() =~= Seq::empty());
        assert(list.push(more).flatten() =~= list.flatten() + more);
    } else {
        lemma_flatten_push(list.drop_first(), more);
        assert(list.push(more).drop_first() =~= list.drop_first().push(more));
        assert(list.push(more).first() == list.first());
        assert(list.push(more).flatten() =~= list.flatten() + more);
    }
}

/// A method that fails adds nothing, and the methods around it claim what they would
/// claim without it.
pub proof fn a_failure_adds_nothing<M: SessionMethod>(
    methods: Seq<M>,
    n: int,
    session: SessionView,
    final_pass: bool,
    both_directions: bool,
)
    requires
        0 < n <= methods.len(),
        methods[n - 1].outcome(
            pass_context(
                session,
                pass(methods, n - 1, session, final_pass, both_directions),
                final_pass,
                both_directions,
            ),
        ) is None,
    ensures
        pass(methods, n, session, final_pass, both_directions) == pass(
            methods,
            n - 1,
            session,
            final_pass,
            both_directions,
        ),
        pass(methods, methods.len() as int, session, final_pass, both_directions) == pass(
            methods.remove(n - 1),
            methods.len() - 1,
            session,
            final_pass,
            both_directions,
        ),
{
    let before = pass(methods, n - 1, session, final_pass, both_directions);
    assert(pass(methods, n, session, final_pass, both_directions) =~= before);
    lemma_same_pass(methods, methods.remove(n - 1), n - 1, session, final_pass, both_directions);
    lemma_pass_without(methods, n, methods.len() as int, session, final_pass, both_directions);
}

/// A pass depends on the methods that took part in it alone.
proof fn lemma_same_pass<M: SessionMethod>(
    a: Seq<M>,
    b: Seq<M>,
    n: int,
    session: SessionView,
    final_pass: bool,
    both_directions: bool,
)
    requires
        0 <= n <= a.len(),
        n <= b.len(),
        forall|i: int| 0 <= i < n ==> a[i] == b[i],
    ensures
        pass(a, n, session, final_pass, both_directions) == pass(
            b,
            n,
            session,
            final_pass,
            both_directions,
        ),
    decreases n,
{
    if n > 0 {
        lemma_same_pass(a, b, n - 1, session, final_pass, both_directions);
    }
}

proof fn lemma_pass_without<M: SessionMethod>(
    methods: Seq<M>,
    n: int,
    m: int,
    session: SessionView,
    final_pass: bool,
    both_directions: bool,
)
    requires
        0 < n <= m <= methods.len(),
        pass(methods, n, session, final_pass, both_directions) == pass(
            methods.remove(n - 1),
            n - 1,
            session,
            final_pass,
            both_directions,
        ),
    ensures
        pass(methods, m, session, final_pass, both_directions) == pass(
            methods.remove(n - 1),
            m - 1,
            session,
            final_pass,
            both_directions,
        ),
    decreases m,
{
    if m > n {
        lemma_pass_without(methods, n, m - 1, session, final_pass, both_directions);
        assert(methods.remove(n - 1)[m - 2] == methods[m - 1]);
    }
}

/// Every claim that comes out of a pass is under a key that its method's manifest
/// declares, and none is provisional once the session is over.
pub proof fn claims_are_declared<M: SessionMethod>(method: M, ctx: SessionContextView, i: int)
    requires
        0 <= i < produced(method, ctx).len(),
    ensures
        method.declared().fields.contains(produced(method, ctx)[i].key),
        ctx.is_final ==> !produced(method, ctx)[i].provisional,
{
    let outcome = method.outcome(ctx)->0;
    let fields = method.declared().fields;
    lemma_kept_are_declared(outcome.evidence(), fields, i);
}

proof fn lemma_kept_are_declared(evidence: Seq<EvidenceView>, fields: Seq<Seq<char>>, i: int)
    requires
        0 <= i < evidence.filter(|e: EvidenceView| fields.contains(e.key)).len(),
    ensures
        fields.contains(evidence.filter(|e: EvidenceView| fields.contains(e.key))[i].key),
    decreases evidence.len(),
{
    reveal(Seq::filter);
    let head = evidence.drop_last();
    if i < head.filter(|e: EvidenceView| fields.contains(e.key)).len() {
        lemma_kept_are_declared(head, fields, i);
    }
}

/// The methods of a run.
#[derive(Debug)]
pub struct Registry<M> {
    pub methods: Vec<M>,
}

impl<M: SessionMethod> Registry<M> {
    /// The methods as they are given.
    pub fn new(methods: Vec<M>) -> (r: Self)
        ensures
            r.methods == methods,
    {
        Registry { methods }
    }

    /// The methods in the order of their priorities.
    pub fn prioritized(methods: Vec<M>) -> (r: Self)
        ensures
            r.methods@ == sorted(methods@),
    {
        Registry { methods: sort(methods) }
    }

    /// The names of the methods, in order.
    pub fn names(&self) -> (r: Vec<&str>)
        ensures
            r@.len() == self.methods@.len(),
            forall|i: int|
                0 <= i < r@.len() ==> (#[trigger] r@[i])@ == self.methods@[i].declared().name,
    {
        let mut out: Vec<&str> = Vec::new();
        let mut i: usize = 0;
        while i < self.methods.len()
            invariant
                i <= self.methods@.len(),
                out@.len() == i,
                forall|j: int|
                    0 <= j < i ==> (#[trigger] out@[j])@ == self.methods@[j].declared().name,
            decreases self.methods@.len() - i,
        {
            out.push(self.methods[i].manifest().name.as_str());
            i = i + 1;
        }
        out
    }

    pub fn len(&self) -> (r: usize)
        ensures
            r == self.methods@.len(),
    {
        self.methods.len()
    }

    pub fn is_empty(&self) -> (r: bool)
        ensures
            r == (self.methods@.len() == 0),
    {
        self.methods.len() == 0
    }

    /// Runs one method of a pass, given what those before it claimed. What it claims
    /// is handed back on its own.
    pub fn run_one(
        &self,
        index: usize,
        session: &Session,
        evidence: &Vec<Evidence>,
        final_pass: bool,
        both_directions: bool,
    ) -> (r: Vec<Evidence>)
        requires
            index < self.methods@.len(),
        ensures
            evidence_views(r@) == produced(
                self.methods@[index as int],
                pass_context(session@, evidence_views(evidence@), final_pass, both_directions),
            ),
    {
        self.run_settling(index, session, evidence, final_pass, both_directions).0
    }

    /// Runs one method of a pass, and tells whether what it claims is settled.
    pub fn run_settling(
        &self,
        index: usize,
        session: &Session,
        evidence: &Vec<Evidence>,
        final_pass: bool,
        both_directions: bool,
    ) -> (r: (Vec<Evidence>, bool))
        requires
            index < self.methods@.len(),
        ensures
            evidence_views(r.0@) == produced(
                self.methods@[index as int],
                pass_context(session@, evidence_views(evidence@), final_pass, both_directions),
            ),
            r.1 == settles(
                self.methods@[index as int],
                pass_context(session@, evidence_views(evidence@), final_pass, both_directions),
            ),
    {
        let method = &self.methods[index];
        let manifest = method.manifest();
        let ctx = SessionContext { session, evidence, is_final: final_pass, both_directions };
        let should = match manifest.invocation.trigger {
            Trigger::SessionEnd => final_pass,
            Trigger::StageReached | Trigger::EveryObservation => session.reached(
                manifest.required_stage,
            ),
        };
        let once = match manifest.invocation.trigger {
            Trigger::StageReached => true,
            Trigger::SessionEnd | Trigger::EveryObservation => false,
        };
        let none: Vec<Evidence> = Vec::new();
        assert(evidence_views(none@) =~= Seq::empty());
        if !should {
            return (none, false);
        }
        let outcome = match method.extract(&ctx) {
            Ok(outcome) => outcome,
            Err(_) => {
                return (none, once);
            },
        };
        let partial = outcome.is_partial();
        (declared_only(outcome.into_evidence(), manifest, !final_pass && partial), once && !partial)
    }

    /// Looks at a session with every method, in order, each given what those before
    /// it claimed. The claims of each method that makes any are a batch of their own.
    pub fn analyze_each(
        &self,
        session: &Session,
        final_pass: bool,
        both_directions: bool,
    ) -> (r: Vec<Vec<Evidence>>)
        ensures
            batch_views(r@) == batches(
                self.methods@,
                self.methods@.len() as int,
                session@,
                final_pass,
                both_directions,
            ),
    {
        let mut out: Vec<Vec<Evidence>> = Vec::new();
        let mut evidence: Vec<Evidence> = Vec::new();
        let mut i: usize = 0;
        assert(evidence_views(evidence@) =~= Seq::empty());
        assert(batch_views(out@) =~= Seq::empty());
        while i < self.methods.len()
            invariant
                i <= self.methods@.len(),
                evidence_views(evidence@) == pass(
                    self.methods@,
                    i as int,
                    session@,
                    final_pass,
                    both_directions,
                ),
                batch_views(out@) == batches(
                    self.methods@,
                    i as int,
                    session@,
                    final_pass,
                    both_directions,
                ),
            decreases self.methods@.len() - i,
        {
            let ghost earlier = evidence_views(evidence@);
            let ghost before = batch_views(out@);
            let own = self.run_one(i, session, &evidence, final_pass, both_directions);
            let ghost new = evidence_views(own@);
            assert(new.len() == own@.len());
            let mut again = copied(&own);
            let ghost copy = again@;
            evidence.append(&mut again);
            assert(evidence_views(evidence@) =~= earlier + evidence_views(copy));
            if own.len() > 0 {
                out.push(own);
                assert(batch_views(out@) =~= before.push(new));
            }
            i = i + 1;
        }
        out
    }

    /// The claims of all methods, in order.
    pub fn analyze(&self, session: &Session, final_pass: bool, both_directions: bool) -> (r: Vec<
        Evidence,
    >)
        ensures
            evidence_views(r@) == pass(
                self.methods@,
                self.methods@.len() as int,
                session@,
                final_pass,
                both_directions,
            ),
    {
        let mut evidence: Vec<Evidence> = Vec::new();
        let mut i: usize = 0;
        assert(evidence_views(evidence@) =~= Seq::empty());
        while i < self.methods.len()
            invariant
                i <= self.methods@.len(),
                evidence_views(evidence@) == pass(
                    self.methods@,
                    i as int,
                    session@,
                    final_pass,
                    both_directions,
                ),
            decreases self.methods@.len() - i,
        {
            let ghost earlier = evidence_views(evidence@);
            let mut own = self.run_one(i, session, &evidence, final_pass, both_directions);
            let ghost new = own@;
            evidence.append(&mut own);
            assert(evidence_views(evidence@) =~= earlier + evidence_views(new));
            i = i + 1;
        }
        evidence
    }
}

fn declared_only(evidence: Vec<Evidence>, manifest: &MethodManifest, provisional: bool) -> (r: Vec<
    Evidence,
>)
    ensures
        evidence_views(r@) == accepted(evidence_views(evidence@), manifest@.fields, provisional),
{
    let ghost given = evidence@;
    let ghost all = evidence_views(given);
    let ghost fields = manifest@.fields;
    let ghost declared = |e: EvidenceView| fields.contains(e.key);
    let ghost mark = |e: EvidenceView| EvidenceView { provisional, ..e };
    let mut out: Vec<Evidence> = Vec::new();
    assert(evidence_views(out@) =~= all.take(0).filter(declared).map_values(mark));
    for item in it: evidence.into_iter()
        invariant
            it.seq() == given,
            all == evidence_views(given),
            fields == manifest@.fields,
            declared == (|e: EvidenceView| fields.contains(e.key)),
            mark == (|e: EvidenceView| EvidenceView { provisional, ..e }),
            evidence_views(out@) == all.take(it.index() as int).filter(declared).map_values(mark),
    {
        let ghost k = it.index() as int;
        let ghost before = evidence_views(out@);
        let ghost seen = item@;
        proof {
            assert(all.take(k + 1) =~= all.take(k).push(seen));
            all.take(k).lemma_filter_push(seen, declared);
        }
        if manifest.output.declares(item.key.as_str()) {
            let marked = item.marked(provisional);
            out.push(marked);
            assert(evidence_views(out@) =~= before.push(marked@));
        }
        assert(evidence_views(out@) =~= all.take(k + 1).filter(declared).map_values(mark));
    }
    assert(all.take(all.len() as int) =~= all);
    out
}

/// When a method runs: one for the end of a session only once that is over, and any other
/// as soon as the session has come to its stage.
pub proof fn methods_run_when_their_time_has_come(
    manifest: ManifestView,
    session: SessionView,
    final_pass: bool,
)
    ensures
        manifest.trigger == Trigger::SessionEnd ==> should_run(manifest, session, final_pass)
            == final_pass,
        manifest.trigger != Trigger::SessionEnd ==> (should_run(manifest, session, final_pass)
            <==> manifest.required_stage.rank() <= session.stage.rank()),
{
}

/// These are the adapters that manifests can name.
pub proof fn adapters_go_by_name(name: Seq<char>)
    ensures
        adapter_named("f0p"@) == Some(AdapterKind::F0p),
        adapter_named("ja4"@) == Some(AdapterKind::Ja4),
        adapter_named("banner"@) == Some(AdapterKind::Banner),
        adapter_named("fusion"@) == Some(AdapterKind::Fusion),
        adapter_named(name) is Some ==> name == "f0p"@ || name == "ja4"@ || name == "banner"@
            || name == "fusion"@,
{
    reveal_strlit("f0p");
    reveal_strlit("ja4");
    reveal_strlit("banner");
    reveal_strlit("fusion");
    assert("f0p"@[0] == 'f' && "ja4"@[0] == 'j' && "banner"@[0] == 'b' && "fusion"@[1] == 'u'
        && "banner"@[1] == 'a');
    assert("f0p"@.len() == 3 && "fusion"@.len() == 6);
}

/// Claims are taken one by one and in order: one under a declared key is kept as it is but
/// for its mark, and one under any other is dropped.
pub proof fn claims_are_taken_by_key(
    evidence: Seq<EvidenceView>,
    one: EvidenceView,
    fields: Seq<Seq<char>>,
    provisional: bool,
)
    ensures
        accepted(Seq::empty(), fields, provisional).len() == 0,
        fields.contains(one.key) ==> accepted(evidence.push(one), fields, provisional) == accepted(
            evidence,
            fields,
            provisional,
        ).push(EvidenceView { provisional, ..one }),
        !fields.contains(one.key) ==> accepted(evidence.push(one), fields, provisional) == accepted(
            evidence,
            fields,
            provisional,
        ),
{
    let keep = |e: EvidenceView| fields.contains(e.key);
    evidence.lemma_filter_push(one, keep);
    assert(Seq::<EvidenceView>::empty().filter(keep) =~= Seq::empty()) by {
        reveal(Seq::filter);
    }
    assert(accepted(evidence.push(one), fields, provisional) =~= (if fields.contains(one.key) {
        accepted(evidence, fields, provisional).push(EvidenceView { provisional, ..one })
    } else {
        accepted(evidence, fields, provisional)
    }));
}

/// A claim is provisional exactly where its method asked for more of a session that is not
/// over; one that does not run, or fails, claims nothing.
pub proof fn guesses_are_marked<M: SessionMethod>(method: M, ctx: SessionContextView, i: int)
    ensures
        !should_run(method.declared(), ctx.session, ctx.is_final) ==> produced(method, ctx).len()
            == 0,
        method.outcome(ctx) is None ==> produced(method, ctx).len() == 0,
        0 <= i < produced(method, ctx).len() ==> produced(method, ctx)[i].provisional == (
        !ctx.is_final && (method.outcome(ctx) matches Some(OutcomeView::Partial(_)))),
        should_run(method.declared(), ctx.session, ctx.is_final) && method.outcome(ctx) is Some
            ==> produced(method, ctx) == accepted(
            method.outcome(ctx)->0.evidence(),
            method.declared().fields,
            !ctx.is_final && method.outcome(ctx)->0 is Partial,
        ),
{
}

/// A pass goes method by method: each is given the session and what those before it
/// claimed, and adds what it claims behind that.
pub proof fn passes_go_method_by_method<M: SessionMethod>(
    methods: Seq<M>,
    n: int,
    session: SessionView,
    final_pass: bool,
    both_directions: bool,
)
    requires
        0 <= n < methods.len(),
    ensures
        ({
            let before = pass(methods, n, session, final_pass, both_directions);
            let after = pass(methods, n + 1, session, final_pass, both_directions);
            let ctx = SessionContextView {
                session,
                evidence: before,
                is_final: final_pass,
                both_directions,
            };
            let parts = batches(methods, n, session, final_pass, both_directions);
            let more = batches(methods, n + 1, session, final_pass, both_directions);
            &&& after == before + produced(methods[n], ctx)
            &&& produced(methods[n], ctx).len() == 0 ==> more == parts
            &&& produced(methods[n], ctx).len() > 0 ==> more == parts.push(
                produced(methods[n], ctx),
            )
        }),
        pass(methods, 0, session, final_pass, both_directions).len() == 0,
        batches(methods, 0, session, final_pass, both_directions).len() == 0,
{
}

/// Methods run by priority, the higher one first.
pub proof fn methods_run_by_priority<M: SessionMethod>(methods: Seq<M>, i: int, j: int)
    requires
        0 <= i < j < methods.len(),
    ensures
        sorted(methods).len() == methods.len(),
        sorted(methods)[i].declared().priority >= sorted(methods)[j].declared().priority,
{
    sorting_sorts(methods);
    assert(sorted(methods).len() == methods.len()) by {
        broadcast use vstd::seq_lib::group_to_multiset_ensures;

    }
}

/// What a method says is settled where it runs on reaching its stage, the session has
/// reached it, and the method asked for no more; a method that runs on every observation
/// or at the end settles nothing.
pub proof fn full_answers_at_their_stage_settle<M: SessionMethod>(
    method: M,
    ctx: SessionContextView,
)
    ensures
        method.declared().trigger == Trigger::EveryObservation ==> !settles(method, ctx),
        method.declared().trigger == Trigger::SessionEnd ==> !settles(method, ctx),
        ctx.session.stage.rank() < method.declared().required_stage.rank() ==> !settles(
            method,
            ctx,
        ),
        method.outcome(ctx) matches Some(OutcomeView::Partial(_)) ==> !settles(method, ctx),
        method.declared().trigger == Trigger::StageReached
            && method.declared().required_stage.rank() <= ctx.session.stage.rank()
            && !(method.outcome(ctx) matches Some(OutcomeView::Partial(_))) ==> settles(
            method,
            ctx,
        ),
{
}

} // verus!
