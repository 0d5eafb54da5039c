//! Sorting that keeps the order of equals.

use vstd::prelude::*;

verus! {

/// What can be put in order.
pub trait Ranked: Sized {
    /// Whether `self` comes before `other`.
    spec fn precedes(self, other: Self) -> bool;

    /// Nothing comes before itself, of two at most one comes before the other, and
    /// what comes no earlier than something that comes no earlier than a third comes
    /// no earlier than that.
    proof fn ranks(a: Self, b: Self, c: Self)
        ensures
            !a.precedes(a),
            a.precedes(b) ==> !b.precedes(a),
            !b.precedes(a) && !c.precedes(b) ==> !c.precedes(a),
    ;

    fn is_before(&self, other: &Self) -> (r: bool)
        ensures
            r == self.precedes(*other),
    ;
}

/// A list with one more item, behind all that it does not come before.
pub open spec fn placed<T: Ranked>(list: Seq<T>, item: T) -> Seq<T>
    decreases list.len(),
{
    if list.len() == 0 || !item.precedes(list.last()) {
        list.push(item)
    } else {
        placed(list.drop_last(), item).push(list.last())
    }
}

/// The items in order, equals in the order in which they came.
pub open spec fn sorted<T: Ranked>(list: Seq<T>) -> Seq<T>
    decreases list.len(),
{
    if list.len() == 0 {
        Seq::empty()
    } else {
        placed(sorted(list.drop_last()), list.last())
    }
}

/// Whether nothing comes after what it should come before.
pub open spec fn in_order<T: Ranked>(list: Seq<T>) -> bool {
    forall|i: int, j: int|
        0 <= i <= j < list.len() ==> !(#[trigger] list[j]).precedes(#[trigger] list[i])
}

pub proof fn lemma_placed<T: Ranked>(list: Seq<T>, item: T)
    requires
        in_order(list),
    ensures
        in_order(placed(list, item)),
        placed(list, item).len() == list.len() + 1,
        placed(list, item).to_multiset() == list.to_multiset().insert(item),
        placed(list, item).last() == (if list.len() == 0 || !item.precedes(list.last()) {
            item
        } else {
            list.last()
        }),
    decreases list.len(),
{
    broadcast use vstd::seq_lib::group_to_multiset_ensures;

    if list.len() > 0 && item.precedes(list.last()) {
        let head = list.drop_last();
        let last = list.last();
        assert(in_order(head)) by {
            assert forall|i: int, j: int| 0 <= i <= j < head.len() implies !(
            #[trigger] head[j]).precedes(#[trigger] head[i]) by {
                assert(!list[j].precedes(list[i]));
            }
        }
        lemma_placed(head, item);
        let inner = placed(head, item);
        let after = inner.push(last);
        assert(list =~= head.push(last));
        assert(after.to_multiset() =~= list.to_multiset().insert(item));
        assert forall|i: int, j: int| 0 <= i <= j < after.len() implies !(
        #[trigger] after[j]).precedes(#[trigger] after[i]) by {
            if j == inner.len() && i < inner.len() {
                T::ranks(item, last, last);
                let end = inner[inner.len() - 1];
                assert(!end.precedes(inner[i]));
                assert(!last.precedes(end)) by {
                    if head.len() > 0 {
                        assert(!list[list.len() - 1].precedes(list[head.len() - 1]));
                    }
                }
                T::ranks(inner[i], end, last);
            } else if j == inner.len() {
                T::ranks(last, last, last);
            } else {
                assert(!inner[j].precedes(inner[i]));
            }
        }
    } else {
        let after = list.push(item);
        assert forall|i: int, j: int| 0 <= i <= j < after.len() implies !(
        #[trigger] after[j]).precedes(#[trigger] after[i]) by {
            if j == list.len() && i < list.len() {
                let end = list[list.len() - 1];
                assert(!end.precedes(list[i]));
                T::ranks(list[i], end, item);
            } else if j == list.len() {
                T::ranks(item, item, item);
            } else {
                assert(!list[j].precedes(list[i]));
            }
        }
    }
}

/// Sorting loses nothing and makes nothing up, and puts everything in order.
pub proof fn sorting_sorts<T: Ranked>(list: Seq<T>)
    ensures
        in_order(sorted(list)),
        sorted(list).to_multiset() == list.to_multiset(),
        sorted(list).len() == list.len(),
    decreases list.len(),
{
    broadcast use vstd::seq_lib::group_to_multiset_ensures;

    if list.len() > 0 {
        sorting_sorts(list.drop_last());
        lemma_placed(sorted(list.drop_last()), list.last());
        assert(list =~= list.drop_last().push(list.last()));
    }
}

/// Sorting leaves a list that is in order as it is, equals and all.
pub proof fn order_is_kept<T: Ranked>(list: Seq<T>)
    requires
        in_order(list),
    ensures
        sorted(list) == list,
    decreases list.len(),
{
    if list.len() > 0 {
        let head = list.drop_last();
        assert(in_order(head)) by {
            assert forall|i: int, j: int| 0 <= i <= j < head.len() implies !(
            #[trigger] head[j]).precedes(#[trigger] head[i]) by {
                assert(!list[j].precedes(list[i]));
            }
        }
        order_is_kept(head);
        if head.len() > 0 {
            assert(!list[list.len() - 1].precedes(list[head.len() - 1]));
        }
        assert(head.push(list.last()) =~= list);
    } else {
        assert(sorted(list) =~= list);
    }
}

/// Sorts a list.
pub fn sort<T: Ranked>(list: Vec<T>) -> (r: Vec<T>)
    ensures
        r@ == sorted(list@),
{
    let ghost given = list@;
    let mut out: Vec<T> = Vec::new();
    assert(out@ =~= sorted(given.take(0)));
    for item in it: list.into_iter()
        invariant
            it.seq() == given,
            out@ == sorted(given.take(it.index() as int)),
    {
        let ghost k = it.index() as int;
        let ghost before = out@;
        proof {
            assert(given.take(k + 1).drop_last() =~= given.take(k));
            assert(given.take(k + 1).last() == item);
        }
        let mut at: usize = out.len();
        assert(before.take(at as int) =~= before);
        assert(before.skip(at as int) =~= Seq::empty());
        assert(placed(before, item) =~= placed(before.take(at as int), item) + before.skip(
            at as int,
        ));
        while at > 0 && item.is_before(&out[at - 1])
            invariant
                at <= out@.len(),
                out@ == before,
                placed(before, item) == placed(before.take(at as int), item) + before.skip(
                    at as int,
                ),
            decreases at,
        {
            proof {
                let front = before.take(at as int);
                assert(front.last() == before[at - 1]);
                assert(front.drop_last() =~= before.take(at - 1));
                assert(placed(front.drop_last(), item).push(front.last()) + before.skip(at as int)
                    =~= placed(before.take(at - 1), item) + before.skip(at - 1));
            }
            at = at - 1;
        }
        out.insert(at, item);
        proof {
            let front = before.take(at as int);
            if at > 0 {
                assert(front.last() == before[at - 1]);
            }
            assert(placed(front, item) == front.push(item));
            assert(out@ =~= front.push(item) + before.skip(at as int));
        }
    }
    assert(given.take(given.len() as int) =~= given);
    out
}

proof fn lemma_placed_items<T: Ranked, K>(list: Seq<T>, item: T, key: spec_fn(T) -> K)
    requires
        forall|i: int, j: int|
            0 <= i < j < list.len() ==> key(#[trigger] list[i]) != key(#[trigger] list[j]),
        forall|i: int| 0 <= i < list.len() ==> key(#[trigger] list[i]) != key(item),
    ensures
        forall|x: T| #[trigger] placed(list, item).contains(x) <==> list.contains(x) || x == item,
        forall|i: int, j: int|
            0 <= i < j < placed(list, item).len() ==> key(#[trigger] placed(list, item)[i]) != key(
                #[trigger] placed(list, item)[j],
            ),
        placed(list, item).len() == list.len() + 1,
    decreases list.len(),
{
    let after = placed(list, item);
    if list.len() == 0 || !item.precedes(list.last()) {
        assert forall|x: T| #[trigger] after.contains(x) <==> list.contains(x) || x == item by {
            assert(after[list.len() as int] == item);
            if list.contains(x) {
                let i = choose|i: int| 0 <= i < list.len() && list[i] == x;
                assert(after[i] == x);
            }
            if after.contains(x) {
                let i = choose|i: int| 0 <= i < after.len() && after[i] == x;
                assert(i < list.len() ==> list[i] == x);
            }
        }
    } else {
        let head = list.drop_last();
        assert forall|i: int, j: int| 0 <= i < j < head.len() implies key(#[trigger] head[i])
            != key(#[trigger] head[j]) by {
            assert(key(list[i]) != key(list[j]));
        }
        assert forall|i: int| 0 <= i < head.len() implies key(#[trigger] head[i]) != key(item) by {
            assert(key(list[i]) != key(item));
        }
        lemma_placed_items(head, item, key);
        let inner = placed(head, item);
        assert(list =~= head.push(list.last()));
        assert forall|x: T| #[trigger] after.contains(x) <==> list.contains(x) || x == item by {
            assert(after[inner.len() as int] == list.last());
            assert(list[head.len() as int] == list.last());
            if inner.contains(x) {
                let i = choose|i: int| 0 <= i < inner.len() && inner[i] == x;
                assert(after[i] == x);
            }
            if after.contains(x) {
                let i = choose|i: int| 0 <= i < after.len() && after[i] == x;
                assert(i < inner.len() ==> inner[i] == x);
            }
            if head.contains(x) {
                let i = choose|i: int| 0 <= i < head.len() && head[i] == x;
                assert(list[i] == x);
            }
            if list.contains(x) {
                let i = choose|i: int| 0 <= i < list.len() && list[i] == x;
                assert(i < head.len() ==> head[i] == x);
            }
            assert(inner.contains(x) <==> head.contains(x) || x == item);
        }
        assert forall|i: int, j: int| 0 <= i < j < after.len() implies key(#[trigger] after[i])
            != key(#[trigger] after[j]) by {
            if j < inner.len() {
                assert(key(inner[i]) != key(inner[j]));
            } else {
                assert(inner.contains(inner[i]));
                if head.contains(inner[i]) {
                    let k = choose|k: int| 0 <= k < head.len() && head[k] == inner[i];
                    assert(key(list[k]) != key(list[list.len() - 1]));
                } else {
                    assert(inner[i] == item);
                    assert(key(list[list.len() - 1]) != key(item));
                }
            }
        }
    }
}

/// Sorting keeps the items, and keeps distinct what is distinct.
pub proof fn lemma_sorted_items<T: Ranked, K>(list: Seq<T>, key: spec_fn(T) -> K)
    requires
        forall|i: int, j: int|
            0 <= i < j < list.len() ==> key(#[trigger] list[i]) != key(#[trigger] list[j]),
    ensures
        forall|x: T| #[trigger] sorted(list).contains(x) <==> list.contains(x),
        forall|i: int, j: int|
            0 <= i < j < sorted(list).len() ==> key(#[trigger] sorted(list)[i]) != key(
                #[trigger] sorted(list)[j],
            ),
        sorted(list).len() == list.len(),
    decreases list.len(),
{
    if list.len() > 0 {
        let head = list.drop_last();
        assert forall|i: int, j: int| 0 <= i < j < head.len() implies key(#[trigger] head[i])
            != key(#[trigger] head[j]) by {
            assert(key(list[i]) != key(list[j]));
        }
        lemma_sorted_items(head, key);
        let before = sorted(head);
        assert forall|i: int| 0 <= i < before.len() implies key(#[trigger] before[i]) != key(
            list.last(),
        ) by {
            assert(before.contains(before[i]));
            let k = choose|k: int| 0 <= k < head.len() && head[k] == before[i];
            assert(key(list[k]) != key(list[list.len() - 1]));
        }
        lemma_placed_items(before, list.last(), key);
        assert forall|x: T| #[trigger] sorted(list).contains(x) <==> list.contains(x) by {
            assert(before.contains(x) <==> head.contains(x));
            if head.contains(x) {
                let i = choose|i: int| 0 <= i < head.len() && head[i] == x;
                assert(list[i] == x);
            }
            assert(list[list.len() - 1] == list.last());
            if list.contains(x) {
                let i = choose|i: int| 0 <= i < list.len() && list[i] == x;
                assert(i < head.len() ==> head[i] == x);
            }
        }
    } else {
        assert(sorted(list) =~= list);
    }
}

} // verus!
