//! What the methods have settled about a session, kept while the session lasts.
//!
//! A method that is to run on reaching its stage runs once: what it claimed then is
//! used again in every later pass over the session. It runs again only where it asked
//! for more of the session.

use vstd::prelude::*;

use crate::evidence::{copied, evidence_views, Evidence, EvidenceView};
use crate::method::{SessionContextView, SessionMethod};
use crate::registry::{batch_views, batches, pass, pass_context, produced, settles, Registry};
use crate::session::{Session, SessionView};
use crate::manifest::Trigger;
use crate::method::OutcomeView;

verus! {

/// The settled claims of each method, by its place in the registry.
#[derive(Debug)]
pub struct Memory {
    settled: Vec<Option<Vec<Evidence>>>,
}

/// What is kept of one method.
pub open spec fn kept_view(kept: Option<Vec<Evidence>>) -> Option<Seq<EvidenceView>> {
    match kept {
        Some(evidence) => Some(evidence_views(evidence@)),
        None => None,
    }
}

impl View for Memory {
    type V = Seq<Option<Seq<EvidenceView>>>;

    closed spec fn view(&self) -> Seq<Option<Seq<EvidenceView>>> {
        Seq::new(self.settled@.len(), |i: int| kept_view(self.settled@[i]))
    }
}

/// Nothing is kept of any of that many methods.
pub open spec fn nothing_kept(count: nat) -> Seq<Option<Seq<EvidenceView>>> {
    Seq::new(count, |i: int| None)
}

/// What a method adds to a pass: its settled claims where there are any, and what it
/// finds now otherwise.
pub open spec fn recalled<M: SessionMethod>(
    method: M,
    kept: Option<Seq<EvidenceView>>,
    ctx: SessionContextView,
) -> Seq<EvidenceView> {
    match kept {
        Some(evidence) => evidence,
        None => produced(method, ctx),
    }
}

/// What is kept of a method after a pass.
pub open spec fn kept_after<M: SessionMethod>(
    method: M,
    kept: Option<Seq<EvidenceView>>,
    ctx: SessionContextView,
) -> Option<Seq<EvidenceView>> {
    if kept is None && settles(method, ctx) {
        Some(produced(method, ctx))
    } else {
        kept
    }
}

/// What the first `n` methods add to a pass, each given what those before it claimed.
pub open spec fn recalled_pass<M: SessionMethod>(
    methods: Seq<M>,
    n: int,
    memory: Seq<Option<Seq<EvidenceView>>>,
    session: SessionView,
    final_pass: bool,
    both_directions: bool,
) -> Seq<EvidenceView>
    decreases n,
{
    if n <= 0 {
        Seq::empty()
    } else {
        let before = recalled_pass(methods, n - 1, memory, session, final_pass, both_directions);
        before + recalled(
            methods[n - 1],
            memory[n - 1],
            pass_context(session, before, final_pass, both_directions),
        )
    }
}

/// What the method at that place is given in a pass.
pub open spec fn context_of<M: SessionMethod>(
    methods: Seq<M>,
    i: int,
    memory: Seq<Option<Seq<EvidenceView>>>,
    session: SessionView,
    final_pass: bool,
    both_directions: bool,
) -> SessionContextView {
    pass_context(
        session,
        recalled_pass(methods, i, memory, session, final_pass, both_directions),
        final_pass,
        both_directions,
    )
}

/// The same as [`recalled_pass`], with the claims of each method that makes any by
/// themselves.
pub open spec fn recalled_batches<M: SessionMethod>(
    methods: Seq<M>,
    n: int,
    memory: Seq<Option<Seq<EvidenceView>>>,
    session: SessionView,
    final_pass: bool,
    both_directions: bool,
) -> Seq<Seq<EvidenceView>>
    decreases n,
{
    if n <= 0 {
        Seq::empty()
    } else {
        let before = recalled_batches(
            methods,
            n - 1,
            memory,
            session,
            final_pass,
            both_directions,
        );
        let own = recalled(
            methods[n - 1],
            memory[n - 1],
            context_of(methods, n - 1, memory, session, final_pass, both_directions),
        );
        if own.len() == 0 {
            before
        } else {
            before.push(own)
        }
    }
}

/// What is kept after a pass.
pub open spec fn memory_after<M: SessionMethod>(
    methods: Seq<M>,
    memory: Seq<Option<Seq<EvidenceView>>>,
    session: SessionView,
    final_pass: bool,
    both_directions: bool,
) -> Seq<Option<Seq<EvidenceView>>> {
    Seq::new(
        methods.len(),
        |i: int|
            kept_after(
                methods[i],
                memory[i],
                context_of(methods, i, memory, session, final_pass, both_directions),
            ),
    )
}

// ---------------------------------------------------------------------------
// Laws

/// The first pass over a session is a plain one.
pub proof fn the_first_pass_is_plain<M: SessionMethod>(
    methods: Seq<M>,
    n: int,
    session: SessionView,
    final_pass: bool,
    both_directions: bool,
)
    requires
        0 <= n <= methods.len(),
    ensures
        recalled_pass(
            methods,
            n,
            nothing_kept(methods.len()),
            session,
            final_pass,
            both_directions,
        ) == pass(methods, n, session, final_pass, both_directions),
        recalled_batches(
            methods,
            n,
            nothing_kept(methods.len()),
            session,
            final_pass,
            both_directions,
        ) == batches(methods, n, session, final_pass, both_directions),
    decreases n,
{
    if n > 0 {
        the_first_pass_is_plain(methods, n - 1, session, final_pass, both_directions);
    }
}

/// Once a method that runs on reaching its stage has run without asking for more, every
/// later pass uses what it claimed then, whatever has become of the session.
pub proof fn settled_claims_are_used_again<M: SessionMethod>(
    methods: Seq<M>,
    i: int,
    memory: Seq<Option<Seq<EvidenceView>>>,
    session: SessionView,
    final_pass: bool,
    both_directions: bool,
    later: SessionContextView,
)
    requires
        memory.len() == methods.len(),
        0 <= i < methods.len(),
        settles(
            methods[i],
            context_of(methods, i, memory, session, final_pass, both_directions),
        ),
    ensures
        ({
            let then = context_of(methods, i, memory, session, final_pass, both_directions);
            let kept = memory_after(methods, memory, session, final_pass, both_directions)[i];
            &&& recalled(methods[i], kept, later) == recalled(methods[i], memory[i], then)
            &&& kept_after(methods[i], kept, later) == kept
        }),
{
}

/// A method that asks for more of the session, and one that has not reached its stage
/// or does not run on reaching it, looks at the session afresh in every pass.
pub proof fn unsettled_methods_run_again<M: SessionMethod>(
    methods: Seq<M>,
    i: int,
    memory: Seq<Option<Seq<EvidenceView>>>,
    session: SessionView,
    final_pass: bool,
    both_directions: bool,
    later: SessionContextView,
)
    requires
        memory.len() == methods.len(),
        0 <= i < methods.len(),
        memory[i] is None,
        !settles(
            methods[i],
            context_of(methods, i, memory, session, final_pass, both_directions),
        ),
    ensures
        recalled(
            methods[i],
            memory_after(methods, memory, session, final_pass, both_directions)[i],
            later,
        ) == produced(methods[i], later),
{
}

// ---------------------------------------------------------------------------
// Passes

impl<M: SessionMethod> Registry<M> {
    /// What is kept of a session that has not been looked at.
    pub fn fresh_memory(&self) -> (r: Memory)
        ensures
            r@ == nothing_kept(self.methods@.len()),
    {
        let mut settled: Vec<Option<Vec<Evidence>>> = Vec::new();
        let mut i: usize = 0;
        while i < self.methods.len()
            invariant
                i <= self.methods@.len(),
                settled@.len() == i,
                forall|j: int| 0 <= j < i ==> (#[trigger] settled@[j]) is None,
            decreases self.methods@.len() - i,
        {
            settled.push(None);
            i = i + 1;
        }
        let memory = Memory { settled };
        assert(memory@ =~= nothing_kept(self.methods@.len()));
        memory
    }

    /// Looks at a session with every method, in order, as [`Registry::analyze_each`]
    /// does, but uses again what has been settled about it.
    pub fn analyze_again(
        &self,
        memory: &mut Memory,
        session: &Session,
        final_pass: bool,
        both_directions: bool,
    ) -> (r: Vec<Vec<Evidence>>)
        requires
            old(memory)@.len() == self.methods@.len(),
        ensures
            batch_views(r@) == recalled_batches(
                self.methods@,
                self.methods@.len() as int,
                old(memory)@,
                session@,
                final_pass,
                both_directions,
            ),
            final(memory)@ == memory_after(
                self.methods@,
                old(memory)@,
                session@,
                final_pass,
                both_directions,
            ),
    {
        let ghost methods = self.methods@;
        let ghost kept = memory@;
        let ghost wanted = memory_after(methods, kept, session@, final_pass, both_directions);
        let mut out: Vec<Vec<Evidence>> = Vec::new();
        let mut evidence: Vec<Evidence> = Vec::new();
        let mut i: usize = 0;
        assert(evidence_views(evidence@) =~= Seq::empty());
        assert(batch_views(out@) =~= Seq::empty());
        while i < self.methods.len()
            invariant
                i <= methods.len(),
                methods == self.methods@,
                kept.len() == methods.len(),
                wanted == memory_after(methods, kept, session@, final_pass, both_directions),
                memory@.len() == methods.len(),
                forall|j: int| 0 <= j < i ==> (#[trigger] memory@[j]) == wanted[j],
                forall|j: int| i <= j < methods.len() ==> (#[trigger] memory@[j]) == kept[j],
                evidence_views(evidence@) == recalled_pass(
                    methods,
                    i as int,
                    kept,
                    session@,
                    final_pass,
                    both_directions,
                ),
                batch_views(out@) == recalled_batches(
                    methods,
                    i as int,
                    kept,
                    session@,
                    final_pass,
                    both_directions,
                ),
            decreases methods.len() - i,
        {
            let ghost earlier = evidence_views(evidence@);
            let ghost before = batch_views(out@);
            let own = self.recall(memory, i, session, &evidence, final_pass, both_directions);
            let ghost new = evidence_views(own@);
            assert(new.len() == own@.len());
            let mut again = copied(&own);
            let ghost copy = again@;
            evidence.append(&mut again);
            assert(evidence_views(evidence@) =~= earlier + evidence_views(copy));
            if own.len() > 0 {
                out.push(own);
                assert(batch_views(out@) =~= before.push(new));
            }
            i = i + 1;
        }
        assert(memory@ =~= wanted);
        out
    }

    /// The part of one method in such a pass, given what those before it claimed.
    pub fn recall(
        &self,
        memory: &mut Memory,
        index: usize,
        session: &Session,
        evidence: &Vec<Evidence>,
        final_pass: bool,
        both_directions: bool,
    ) -> (r: Vec<Evidence>)
        requires
            old(memory)@.len() == self.methods@.len(),
            index < self.methods@.len(),
        ensures
            ({
                let method = self.methods@[index as int];
                let kept = old(memory)@[index as int];
                let ctx = pass_context(
                    session@,
                    evidence_views(evidence@),
                    final_pass,
                    both_directions,
                );
                &&& evidence_views(r@) == recalled(method, kept, ctx)
                &&& final(memory)@ == old(memory)@.update(
                    index as int,
                    kept_after(method, kept, ctx),
                )
            }),
    {
        if let Some(kept) = &memory.settled[index] {
            let own = copied(kept);
            assert(memory@ =~= memory@.update(index as int, memory@[index as int]));
            return own;
        }
        let (own, settled) = self.run_settling(
            index,
            session,
            evidence,
            final_pass,
            both_directions,
        );
        if settled {
            let ghost before = memory@;
            let kept = copied(&own);
            memory.settled.set(index, Some(kept));
            assert(memory@ =~= before.update(index as int, Some(evidence_views(own@))));
        } else {
            assert(memory@ =~= memory@.update(index as int, memory@[index as int]));
        }
        own
    }
}

/// What is kept of a method: nothing but what one that runs on reaching its stage claimed
/// when it ran and did not ask for more; and what is kept stays.
pub proof fn memory_keeps_what_is_settled<M: SessionMethod>(
    method: M,
    ctx: SessionContextView,
    evidence: Seq<EvidenceView>,
)
    ensures
        kept_after(method, Some(evidence), ctx) == Some(evidence),
        recalled(method, Some(evidence), ctx) == evidence,
        recalled(method, None, ctx) == produced(method, ctx),
        kept_after(method, None, ctx) is Some <==> {
            &&& method.declared().trigger == Trigger::StageReached
            &&& method.declared().required_stage.rank() <= ctx.session.stage.rank()
            &&& !(method.outcome(ctx) matches Some(OutcomeView::Partial(_)))
        },
        kept_after(method, None, ctx) matches Some(kept) ==> kept == produced(method, ctx),
{
}

} // verus!
