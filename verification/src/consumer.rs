//! Taking claims into a store: all at once, or as they come.

use vstd::prelude::*;

use crate::evidence::{evidence_views, Evidence, EvidenceView};
use crate::observation::Endpoint;
use crate::profile::{profile_of, recorded_all, ProfileStore, ProfileView};
use crate::registry::batch_views;

verus! {

/// Takes in claims once the sessions are over.
#[derive(Debug)]
pub struct BatchConsumer;

/// Takes in claims as they come.
#[derive(Debug)]
pub struct InferenceConsumer;

/// The store with several batches of claims, taken in in order.
pub open spec fn recorded_batches(
    store: Map<Endpoint, ProfileView>,
    batches: Seq<Seq<EvidenceView>>,
) -> Map<Endpoint, ProfileView>
    decreases batches.len(),
{
    if batches.len() == 0 {
        store
    } else {
        recorded_all(recorded_batches(store, batches.drop_last()), batches.last())
    }
}

impl BatchConsumer {
    /// Collects batches of claims into a store.
    pub fn consume(results: Vec<Vec<Evidence>>) -> (r: ProfileStore)
        ensures
            r.wf(),
            r@ == recorded_batches(Map::empty(), batch_views(results@)),
    {
        let mut store = ProfileStore::new();
        let ghost given = results@;
        let ghost all = batch_views(given);
        for batch in it: results.into_iter()
            invariant
                it.seq() == given,
                all == batch_views(given),
                store.wf(),
                store@ == recorded_batches(Map::empty(), all.take(it.index() as int)),
        {
            let ghost k = it.index() as int;
            proof {
                assert(all.take(k + 1).drop_last() =~= all.take(k));
                assert(all.take(k + 1).last() == evidence_views(batch@));
            }
            InferenceConsumer::consume_streaming(&mut store, &batch);
        }
        assert(all.take(all.len() as int) =~= all);
        store
    }
}

impl InferenceConsumer {
    /// Takes one update into a store: what one method claimed in one pass, whole.
    pub fn consume_streaming(store: &mut ProfileStore, update: &Vec<Evidence>)
        requires
            old(store).wf(),
        ensures
            final(store).wf(),
            final(store)@ == recorded_all(old(store)@, evidence_views(update@)),
    {
        let ghost all = evidence_views(update@);
        let mut i: usize = 0;
        while i < update.len()
            invariant
                i <= update@.len(),
                all == evidence_views(update@),
                store.wf(),
                store@ == recorded_all(old(store)@, all.take(i as int)),
            decreases update@.len() - i,
        {
            proof {
                assert(all.take(i + 1).drop_last() =~= all.take(i as int));
                assert(all.take(i + 1).last() == update@[i as int]@);
            }
            store.record(update[i].clone());
            i = i + 1;
        }
        assert(all.take(i as int) =~= all);
    }
}

/// Taking in claims in two goes comes to the same as taking them in at once.
pub proof fn claims_can_come_in_parts(
    store: Map<Endpoint, ProfileView>,
    first: Seq<EvidenceView>,
    second: Seq<EvidenceView>,
)
    ensures
        recorded_all(store, first + second) == recorded_all(recorded_all(store, first), second),
    decreases second.len(),
{
    if second.len() == 0 {
        assert(first + second =~= first);
    } else {
        claims_can_come_in_parts(store, first, second.drop_last());
        assert((first + second).drop_last() =~= first + second.drop_last());
        assert((first + second).last() == second.last());
    }
}

/// Both consumers read the same stream: taking the updates in one by one makes the
/// store that taking them in all at once makes, which is the store of all their
/// claims in order.
pub proof fn consumers_agree(store: Map<Endpoint, ProfileView>, batches: Seq<Seq<EvidenceView>>)
    ensures
        recorded_batches(store, batches) == recorded_all(store, batches.flatten()),
    decreases batches.len(),
{
    if batches.len() > 0 {
        let head = batches.drop_last();
        consumers_agree(store, head);
        crate::registry::lemma_flatten_push(head, batches.last());
        assert(head.push(batches.last()) =~= batches);
        claims_can_come_in_parts(store, head.flatten(), batches.last());
    } else {
        assert(batches.flatten() =~= Seq::empty());
    }
}

/// The store after the first `n` updates of a stream, taken in one by one.
pub open spec fn streamed(updates: Seq<Seq<EvidenceView>>, n: nat) -> Map<Endpoint, ProfileView>
    decreases n,
{
    if n == 0 {
        Map::empty()
    } else {
        recorded_all(streamed(updates, (n - 1) as nat), updates[n - 1])
    }
}

/// The claims about one endpoint.
pub open spec fn about(claims: Seq<EvidenceView>, subject: Endpoint) -> Seq<EvidenceView> {
    claims.filter(|evidence: EvidenceView| evidence.subject == subject)
}

/// The evidence of a profile is the claims about its subject, in the order in which
/// they were taken in.
proof fn lemma_evidence_kept(claims: Seq<EvidenceView>, subject: Endpoint)
    ensures
        profile_of(recorded_all(Map::empty(), claims), subject).evidence == about(claims, subject),
        recorded_all(Map::empty(), claims).contains_key(subject) == (about(claims, subject).len()
            > 0),
    decreases claims.len(),
{
    let is_about = |evidence: EvidenceView| evidence.subject == subject;
    if claims.len() == 0 {
        assert(about(claims, subject) =~= Seq::empty()) by {
            reveal(Seq::filter);
        }
    } else {
        let (head, last) = (claims.drop_last(), claims.last());
        lemma_evidence_kept(head, subject);
        assert(claims =~= head.push(last));
        head.lemma_filter_push(last, is_about);
    }
}

/// While updates come in, the store holds the claims of those that came, in order, and
/// nothing of those to come: after `n` updates it is what the first `n` make when they
/// are taken in all at once, and the evidence of every profile is what they claim about
/// its subject. After the last update it is what [`BatchConsumer::consume`] makes of the
/// whole stream.
pub proof fn the_store_follows_the_stream(updates: Seq<Seq<EvidenceView>>, n: nat)
    requires
        n <= updates.len(),
    ensures
        streamed(updates, n) == recorded_batches(Map::empty(), updates.take(n as int)),
        streamed(updates, n) == recorded_all(Map::empty(), updates.take(n as int).flatten()),
        forall|subject: Endpoint| #[trigger]
            profile_of(streamed(updates, n), subject).evidence == about(
                updates.take(n as int).flatten(),
                subject,
            ),
        forall|subject: Endpoint| #[trigger]
            streamed(updates, n).contains_key(subject) == (about(
                updates.take(n as int).flatten(),
                subject,
            ).len() > 0),
        n == updates.len() ==> streamed(updates, n) == recorded_batches(Map::empty(), updates),
    decreases n,
{
    let seen = updates.take(n as int);
    if n > 0 {
        the_store_follows_the_stream(updates, (n - 1) as nat);
        assert(seen.drop_last() =~= updates.take(n - 1));
        assert(seen.last() == updates[n - 1]);
    }
    consumers_agree(Map::empty(), seen);
    assert forall|subject: Endpoint| #[trigger]
        profile_of(streamed(updates, n), subject).evidence == about(seen.flatten(), subject) by {
        lemma_evidence_kept(seen.flatten(), subject);
    }
    assert forall|subject: Endpoint| #[trigger]
        streamed(updates, n).contains_key(subject) == (about(seen.flatten(), subject).len()
            > 0) by {
        lemma_evidence_kept(seen.flatten(), subject);
    }
    if n == updates.len() {
        assert(seen =~= updates);
    }
}

} // verus!
