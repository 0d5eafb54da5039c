//! A map that keeps its entries in the order in which their keys first came.

use vstd::prelude::*;

verus! {

/// What a [`Table`] can be keyed by: two keys are the same where their views are.
pub trait Key: View + Sized {
    fn same(&self, other: &Self) -> (r: bool)
        ensures
            r == (self@ == other@),
    ;
}

impl Key for String {
    fn same(&self, other: &Self) -> (r: bool) {
        crate::text::same_str(self.as_str(), other.as_str())
    }
}

/// A list of keys and values.
pub open spec fn pair_views<K: View, V>(entries: Seq<(K, V)>) -> Seq<(K::V, V)> {
    Seq::new(entries.len(), |i: int| (entries[i].0@, entries[i].1))
}

/// No key occurs twice.
pub open spec fn distinct<K, V>(pairs: Seq<(K, V)>) -> bool {
    forall|i: int, j: int|
        0 <= i < j < pairs.len() ==> (#[trigger] pairs[i]).0 != (#[trigger] pairs[j]).0
}

/// Where a key stands.
pub open spec fn index_of_key<K, V>(pairs: Seq<(K, V)>, key: K) -> Option<int>
    decreases pairs.len(),
{
    if pairs.len() == 0 {
        None
    } else if pairs.last().0 == key {
        Some(pairs.len() - 1)
    } else {
        index_of_key(pairs.drop_last(), key)
    }
}

/// What a list of keys and values maps each key to.
pub open spec fn map_of<K, V>(pairs: Seq<(K, V)>) -> Map<K, V>
    decreases pairs.len(),
{
    if pairs.len() == 0 {
        Map::empty()
    } else {
        map_of(pairs.drop_last()).insert(pairs.last().0, pairs.last().1)
    }
}

pub proof fn lemma_index_of_key<K, V>(pairs: Seq<(K, V)>, key: K)
    requires
        distinct(pairs),
    ensures
        match index_of_key(pairs, key) {
            Some(i) => {
                &&& 0 <= i < pairs.len()
                &&& pairs[i].0 == key
                &&& map_of(pairs).contains_key(key)
                &&& map_of(pairs)[key] == pairs[i].1
            },
            None => {
                &&& !map_of(pairs).contains_key(key)
                &&& forall|i: int| 0 <= i < pairs.len() ==> (#[trigger] pairs[i]).0 != key
            },
        },
    decreases pairs.len(),
{
    if pairs.len() > 0 {
        let head = pairs.drop_last();
        assert(distinct(head)) by {
            assert forall|i: int, j: int| 0 <= i < j < head.len() implies (
            #[trigger] head[i]).0 != (#[trigger] head[j]).0 by {
                assert(pairs[i].0 != pairs[j].0);
            }
        }
        lemma_index_of_key(head, key);
        if pairs.last().0 != key {
            if index_of_key(head, key) is None {
                assert forall|i: int| 0 <= i < pairs.len() implies (#[trigger] pairs[i]).0 != key by {
                    if i < head.len() {
                        assert(head[i] == pairs[i]);
                    }
                }
            }
        }
    }
}

pub proof fn lemma_index_unique<K, V>(pairs: Seq<(K, V)>, i: int)
    requires
        distinct(pairs),
        0 <= i < pairs.len(),
    ensures
        index_of_key(pairs, pairs[i].0) == Some(i),
{
    lemma_index_of_key(pairs, pairs[i].0);
    let j = index_of_key(pairs, pairs[i].0)->0;
    if i < j {
        assert(pairs[i].0 != pairs[j].0);
    } else if j < i {
        assert(pairs[j].0 != pairs[i].0);
    }
}

pub proof fn lemma_map_update<K, V>(pairs: Seq<(K, V)>, i: int, value: V)
    requires
        distinct(pairs),
        0 <= i < pairs.len(),
    ensures
        map_of(pairs.update(i, (pairs[i].0, value))) == map_of(pairs).insert(pairs[i].0, value),
        distinct(pairs.update(i, (pairs[i].0, value))),
{
    let key = pairs[i].0;
    let after = pairs.update(i, (key, value));
    assert forall|a: int, b: int| 0 <= a < b < after.len() implies (#[trigger] after[a]).0 != (
    #[trigger] after[b]).0 by {
        assert(pairs[a].0 != pairs[b].0);
    }
    let (left, right) = (map_of(after), map_of(pairs).insert(key, value));
    assert forall|k: K| #[trigger] agree_at(left, right, k) by {
        lemma_index_of_key(after, k);
        lemma_index_of_key(pairs, k);
        if let Some(j) = index_of_key(pairs, k) {
            assert(after[j].0 == k);
            lemma_index_unique(after, j);
        } else if let Some(j) = index_of_key(after, k) {
            assert(after[j].0 == pairs[j].0);
        }
    }
    lemma_same_map(left, right);
}

/// An entry of a new key adds itself to the map, wherever it is put in.
pub proof fn lemma_map_insert<K, V>(pairs: Seq<(K, V)>, i: int, key: K, value: V)
    requires
        distinct(pairs),
        0 <= i <= pairs.len(),
        forall|j: int| 0 <= j < pairs.len() ==> (#[trigger] pairs[j]).0 != key,
    ensures
        map_of(pairs.insert(i, (key, value))) == map_of(pairs).insert(key, value),
        distinct(pairs.insert(i, (key, value))),
{
    let after = pairs.insert(i, (key, value));
    assert forall|a: int, b: int| 0 <= a < b < after.len() implies (#[trigger] after[a]).0 != (
    #[trigger] after[b]).0 by {
        if a == i {
            assert(after[b] == pairs[b - 1]);
        } else if b == i {
            assert(after[a] == pairs[a]);
        } else {
            let a0 = if a < i {
                a
            } else {
                a - 1
            };
            let b0 = if b < i {
                b
            } else {
                b - 1
            };
            assert(pairs[a0].0 != pairs[b0].0);
        }
    }
    let (left, right) = (map_of(after), map_of(pairs).insert(key, value));
    assert forall|k: K| #[trigger] agree_at(left, right, k) by {
        lemma_index_of_key(after, k);
        lemma_index_of_key(pairs, k);
        assert(after[i] == (key, value));
        lemma_index_unique(after, i);
        if k != key {
            if let Some(j) = index_of_key(pairs, k) {
                let j1 = if j < i {
                    j
                } else {
                    j + 1
                };
                assert(after[j1] == pairs[j]);
                lemma_index_unique(after, j1);
            } else if let Some(j) = index_of_key(after, k) {
                let j0 = if j < i {
                    j
                } else {
                    j - 1
                };
                assert(after[j] == pairs[j0]);
            }
        }
    }
    lemma_same_map(left, right);
}

spec fn agree_at<K, V>(left: Map<K, V>, right: Map<K, V>, k: K) -> bool {
    &&& left.contains_key(k) == right.contains_key(k)
    &&& left.contains_key(k) ==> left[k] == right[k]
}

proof fn lemma_same_map<K, V>(left: Map<K, V>, right: Map<K, V>)
    requires
        forall|k: K| #[trigger] agree_at(left, right, k),
    ensures
        left == right,
{
    assert(left.dom() =~= right.dom()) by {
        assert forall|k: K| #[trigger] left.dom().contains(k) == right.dom().contains(k) by {
            assert(agree_at(left, right, k));
        }
    }
    assert forall|k: K| #[trigger] left.dom().contains(k) implies left[k] == right[k] by {
        assert(agree_at(left, right, k));
    }
    assert(left =~= right);
}

proof fn lemma_map_remove<K, V>(pairs: Seq<(K, V)>, i: int)
    requires
        distinct(pairs),
        0 <= i < pairs.len(),
    ensures
        map_of(pairs.remove(i)) == map_of(pairs).remove(pairs[i].0),
        distinct(pairs.remove(i)),
{
    let key = pairs[i].0;
    let after = pairs.remove(i);
    assert forall|a: int, b: int| 0 <= a < b < after.len() implies (#[trigger] after[a]).0 != (
    #[trigger] after[b]).0 by {
        let a0 = if a < i {
            a
        } else {
            a + 1
        };
        let b0 = if b < i {
            b
        } else {
            b + 1
        };
        assert(pairs[a0].0 != pairs[b0].0);
    }
    let (left, right) = (map_of(after), map_of(pairs).remove(key));
    assert forall|k: K| #[trigger] agree_at(left, right, k) by {
        lemma_index_of_key(after, k);
        lemma_index_of_key(pairs, k);
        lemma_index_unique(pairs, i);
        if let Some(j) = index_of_key(pairs, k) {
            if j < i {
                assert(after[j] == pairs[j]);
                lemma_index_unique(after, j);
            } else if j > i {
                assert(after[j - 1] == pairs[j]);
                lemma_index_unique(after, j - 1);
            } else if let Some(m) = index_of_key(after, k) {
                let m0 = if m < i {
                    m
                } else {
                    m + 1
                };
                assert(after[m] == pairs[m0]);
                if m0 < i {
                    assert(pairs[m0].0 != pairs[i].0);
                } else {
                    assert(pairs[i].0 != pairs[m0].0);
                }
            }
        } else if let Some(m) = index_of_key(after, k) {
            let m0 = if m < i {
                m
            } else {
                m + 1
            };
            assert(after[m] == pairs[m0]);
        }
    }
    lemma_same_map(left, right);
}

/// A list of keys and values, with the values looked at through `f`.
pub open spec fn viewed<K, V, W>(pairs: Seq<(K, V)>, f: spec_fn(V) -> W) -> Seq<(K, W)> {
    Seq::new(pairs.len(), |i: int| (pairs[i].0, f(pairs[i].1)))
}

/// Such a list makes the map with its values looked at in the same way.
pub proof fn lemma_map_values<K, V, W>(pairs: Seq<(K, V)>, f: spec_fn(V) -> W)
    requires
        distinct(pairs),
    ensures
        distinct(viewed(pairs, f)),
        map_of(viewed(pairs, f)) == map_of(pairs).map_values(f),
    decreases pairs.len(),
{
    let views = viewed(pairs, f);
    assert forall|a: int, b: int| 0 <= a < b < views.len() implies (#[trigger] views[a]).0 != (
    #[trigger] views[b]).0 by {
        assert(pairs[a].0 != pairs[b].0);
    }
    if pairs.len() > 0 {
        let head = pairs.drop_last();
        assert forall|a: int, b: int| 0 <= a < b < head.len() implies (#[trigger] head[a]).0 != (
        #[trigger] head[b]).0 by {
            assert(pairs[a].0 != pairs[b].0);
        }
        lemma_map_values(head, f);
        assert(views.drop_last() =~= viewed(head, f));
        assert(map_of(pairs).map_values(f) =~= map_of(head).map_values(f).insert(
            pairs.last().0,
            f(pairs.last().1),
        ));
    } else {
        assert(map_of(pairs).map_values(f) =~= Map::empty());
    }
}

/// A map holds what the list holds.
pub proof fn lemma_map_holds<K, V>(pairs: Seq<(K, V)>, key: K, value: V)
    requires
        distinct(pairs),
    ensures
        map_of(pairs).contains_key(key) && map_of(pairs)[key] == value <==> pairs.contains(
            (key, value),
        ),
{
    lemma_index_of_key(pairs, key);
    if pairs.contains((key, value)) {
        let i = choose|i: int| 0 <= i < pairs.len() && pairs[i] == (key, value);
        lemma_index_unique(pairs, i);
    }
}

/// Two lists with the same entries make the same map.
pub proof fn lemma_same_entries<K, V>(a: Seq<(K, V)>, b: Seq<(K, V)>)
    requires
        distinct(a),
        distinct(b),
        forall|entry: (K, V)| #[trigger] a.contains(entry) <==> b.contains(entry),
    ensures
        map_of(a) == map_of(b),
{
    let (left, right) = (map_of(a), map_of(b));
    assert forall|k: K| #[trigger] agree_at(left, right, k) by {
        if left.contains_key(k) {
            lemma_map_holds(a, k, left[k]);
            lemma_map_holds(b, k, left[k]);
            assert(a.contains((k, left[k])));
        }
        if right.contains_key(k) {
            lemma_map_holds(a, k, right[k]);
            lemma_map_holds(b, k, right[k]);
            assert(b.contains((k, right[k])));
            assert(a.contains((k, right[k])));
        }
    }
    lemma_same_map(left, right);
}

// ---------------------------------------------------------------------------
// Listings

/// Whether a list holds the entries of a map, each once, in order.
pub open spec fn is_listing<K, V>(
    list: Seq<(K, V)>,
    map: Map<K, V>,
    before: spec_fn((K, V), (K, V)) -> bool,
) -> bool {
    &&& distinct(list)
    &&& map_of(list) == map
    &&& forall|i: int, j: int|
        0 <= i < j < list.len() ==> before(#[trigger] list[i], #[trigger] list[j])
}

/// The entries of a map, in order.
pub open spec fn listing<K, V>(
    map: Map<K, V>,
    before: spec_fn((K, V), (K, V)) -> bool,
) -> Seq<(K, V)> {
    choose|list: Seq<(K, V)>| is_listing(list, map, before)
}

/// There is only one way to list a map in order.
pub proof fn listings_are_unique<K, V>(
    a: Seq<(K, V)>,
    b: Seq<(K, V)>,
    map: Map<K, V>,
    before: spec_fn((K, V), (K, V)) -> bool,
)
    requires
        is_listing(a, map, before),
        is_listing(b, map, before),
        forall|x: (K, V), y: (K, V)| #[trigger] before(x, y) ==> !before(y, x),
    ensures
        a == b,
    decreases a.len(),
{
    if a.len() > 0 {
        let x = a.last();
        lemma_map_holds(a, x.0, x.1);
        lemma_map_holds(b, x.0, x.1);
        assert(a[a.len() - 1] == x);
        assert(a.contains(x));
        let j = choose|j: int| 0 <= j < b.len() && b[j] == x;
        let y = b.last();
        lemma_map_holds(b, y.0, y.1);
        lemma_map_holds(a, y.0, y.1);
        assert(b[b.len() - 1] == y);
        assert(b.contains(y));
        let i = choose|i: int| 0 <= i < a.len() && a[i] == y;
        if j < b.len() - 1 {
            assert(before(b[j], b[b.len() - 1]));
            if i < a.len() - 1 {
                assert(before(a[i], a[a.len() - 1]));
            }
        }
        assert(x == y);
        let (a0, b0) = (a.drop_last(), b.drop_last());
        let rest = map.remove(x.0);
        lemma_map_remove(a, a.len() - 1);
        lemma_map_remove(b, b.len() - 1);
        assert(a.remove(a.len() - 1) =~= a0);
        assert(b.remove(b.len() - 1) =~= b0);
        assert forall|p: int, q: int| 0 <= p < q < a0.len() implies before(
            #[trigger] a0[p],
            #[trigger] a0[q],
        ) by {
            assert(before(a[p], a[q]));
        }
        assert forall|p: int, q: int| 0 <= p < q < b0.len() implies before(
            #[trigger] b0[p],
            #[trigger] b0[q],
        ) by {
            assert(before(b[p], b[q]));
        }
        listings_are_unique(a0, b0, rest, before);
        assert(a =~= a0.push(x));
        assert(b =~= b0.push(y));
    } else if b.len() > 0 {
        let y = b[0];
        lemma_map_holds(b, y.0, y.1);
        lemma_map_holds(a, y.0, y.1);
        assert(b.contains(y));
    } else {
        assert(a =~= b);
    }
}

/// Whether `before` puts entries of different keys into one order.
pub open spec fn is_order<K, V>(before: spec_fn((K, V), (K, V)) -> bool) -> bool {
    &&& forall|x: (K, V), y: (K, V)| #[trigger] before(x, y) ==> !before(y, x)
    &&& forall|x: (K, V), y: (K, V), z: (K, V)| #[trigger]
        before(x, y) && #[trigger] before(y, z) ==> before(x, z)
    &&& forall|x: (K, V), y: (K, V)| x.0 != y.0 ==> #[trigger] before(x, y) || before(y, x)
}

/// Whether entries stand in order.
spec fn stands<K, V>(list: Seq<(K, V)>, before: spec_fn((K, V), (K, V)) -> bool) -> bool {
    forall|i: int, j: int|
        0 <= i < j < list.len() ==> before(#[trigger] list[i], #[trigger] list[j])
}

/// A list with one more entry, in its place.
spec fn inserted<K, V>(
    list: Seq<(K, V)>,
    entry: (K, V),
    before: spec_fn((K, V), (K, V)) -> bool,
) -> Seq<(K, V)>
    decreases list.len(),
{
    if list.len() == 0 || before(list.last(), entry) {
        list.push(entry)
    } else {
        inserted(list.drop_last(), entry, before).push(list.last())
    }
}

proof fn lemma_inserted<K, V>(
    list: Seq<(K, V)>,
    entry: (K, V),
    before: spec_fn((K, V), (K, V)) -> bool,
)
    requires
        is_order(before),
        stands(list, before),
        forall|i: int| 0 <= i < list.len() ==> (#[trigger] list[i]).0 != entry.0,
    ensures
        stands(inserted(list, entry, before), before),
        forall|x: (K, V)| #[trigger]
            inserted(list, entry, before).contains(x) <==> x == entry || list.contains(x),
    decreases list.len(),
{
    let out = inserted(list, entry, before);
    if list.len() == 0 || before(list.last(), entry) {
        assert forall|i: int, j: int| 0 <= i < j < out.len() implies before(
            #[trigger] out[i],
            #[trigger] out[j],
        ) by {
            if j < list.len() {
                assert(before(list[i], list[j]));
            } else if i < list.len() - 1 {
                assert(before(list[i], list[list.len() - 1]));
            }
        }
        assert forall|x: (K, V)| #[trigger] out.contains(x) <==> x == entry || list.contains(
            x,
        ) by {
            assert(out[list.len() as int] == entry);
            if list.contains(x) {
                let i = choose|i: int| 0 <= i < list.len() && list[i] == x;
                assert(out[i] == x);
            }
        }
    } else {
        let head = list.drop_last();
        let last = list.last();
        assert(stands(head, before)) by {
            assert forall|i: int, j: int| 0 <= i < j < head.len() implies before(
                #[trigger] head[i],
                #[trigger] head[j],
            ) by {
                assert(before(list[i], list[j]));
            }
        }
        assert forall|i: int| 0 <= i < head.len() implies (#[trigger] head[i]).0 != entry.0 by {
            assert(list[i].0 != entry.0);
        }
        lemma_inserted(head, entry, before);
        let rest = inserted(head, entry, before);
        assert(list[list.len() - 1].0 != entry.0);
        assert(before(entry, last) || before(last, entry));
        assert forall|i: int, j: int| 0 <= i < j < out.len() implies before(
            #[trigger] out[i],
            #[trigger] out[j],
        ) by {
            if j < rest.len() {
                assert(before(rest[i], rest[j]));
            } else {
                assert(rest.contains(rest[i]));
                if rest[i] != entry {
                    let k = choose|k: int| 0 <= k < head.len() && head[k] == rest[i];
                    assert(before(list[k], list[list.len() - 1]));
                }
            }
        }
        assert forall|x: (K, V)| #[trigger] out.contains(x) <==> x == entry || list.contains(
            x,
        ) by {
            if out.contains(x) {
                let i = choose|i: int| 0 <= i < out.len() && out[i] == x;
                if i < rest.len() {
                    assert(rest.contains(x));
                    if x != entry {
                        let k = choose|k: int| 0 <= k < head.len() && head[k] == x;
                        assert(list[k] == x);
                    }
                } else {
                    assert(list[list.len() - 1] == x);
                }
            }
            if x == entry || list.contains(x) {
                if x == last {
                    assert(out[rest.len() as int] == x);
                } else {
                    if x != entry {
                        let k = choose|k: int| 0 <= k < list.len() && list[k] == x;
                        assert(head[k] == x);
                    }
                    assert(rest.contains(x));
                    let i = choose|i: int| 0 <= i < rest.len() && rest[i] == x;
                    assert(out[i] == x);
                }
            }
        }
    }
}

proof fn lemma_listing_exists<K, V>(map: Map<K, V>, before: spec_fn((K, V), (K, V)) -> bool) -> (r:
    Seq<(K, V)>)
    requires
        map.dom().finite(),
        is_order(before),
    ensures
        is_listing(r, map, before),
    decreases map.dom().len(),
{
    if map.dom().len() == 0 {
        let none = Seq::<(K, V)>::empty();
        assert(map =~= Map::empty());
        assert(map_of(none) == map);
        none
    } else {
        let k = map.dom().choose();
        let entry = (k, map[k]);
        let rest = map.remove(k);
        assert(map.dom().contains(k));
        let list = lemma_listing_exists(rest, before);
        assert forall|i: int| 0 <= i < list.len() implies (#[trigger] list[i]).0 != k by {
            assert(list.contains(list[i]));
            lemma_map_holds(list, list[i].0, list[i].1);
        }
        lemma_inserted(list, entry, before);
        let out = inserted(list, entry, before);
        assert(distinct(out)) by {
            assert forall|i: int, j: int| 0 <= i < j < out.len() implies (#[trigger] out[i]).0 != (
            #[trigger] out[j]).0 by {
                assert(before(out[i], out[j]));
                assert(out.contains(out[i]) && out.contains(out[j]));
                if out[i].0 == out[j].0 {
                    if out[i] == entry || out[j] == entry {
                        assert(out[i] == entry && out[j] == entry);
                    } else {
                        let a = choose|a: int| 0 <= a < list.len() && list[a] == out[i];
                        let b = choose|b: int| 0 <= b < list.len() && list[b] == out[j];
                        if a < b {
                            assert(list[a].0 != list[b].0);
                        } else if b < a {
                            assert(list[b].0 != list[a].0);
                        }
                    }
                }
            }
        }
        assert forall|x: K| #[trigger] agree_at(map_of(out), map, x) by {
            if map.contains_key(x) {
                lemma_map_holds(out, x, map[x]);
                if x != k {
                    lemma_map_holds(list, x, map[x]);
                }
                assert(out.contains((x, map[x])));
            }
            if map_of(out).contains_key(x) {
                let value = map_of(out)[x];
                lemma_map_holds(out, x, value);
                assert(out.contains((x, value)));
                if (x, value) != entry {
                    lemma_map_holds(list, x, value);
                }
            }
        }
        lemma_same_map(map_of(out), map);
        out
    }
}

/// A finite map can be listed in order.
pub proof fn lemma_listing_lists<K, V>(map: Map<K, V>, before: spec_fn((K, V), (K, V)) -> bool)
    requires
        map.dom().finite(),
        is_order(before),
    ensures
        is_listing(listing(map, before), map, before),
{
    let list = lemma_listing_exists(map, before);
    assert(is_listing(list, map, before));
}

/// Another value for a key that stands in the same place changes that place of the
/// listing alone.
pub proof fn lemma_listing_update<K, V>(
    map: Map<K, V>,
    before: spec_fn((K, V), (K, V)) -> bool,
    key: K,
    value: V,
) -> (i: int)
    requires
        map.dom().finite(),
        is_order(before),
        map.contains_key(key),
        forall|x: (K, V)|
            (#[trigger] before((key, value), x) <==> before((key, map[key]), x)) && (
            #[trigger] before(x, (key, value)) <==> before(x, (key, map[key]))),
    ensures
        0 <= i < listing(map, before).len(),
        listing(map, before)[i] == (key, map[key]),
        listing(map.insert(key, value), before) == listing(map, before).update(i, (key, value)),
{
    let list = listing(map, before);
    lemma_listing_lists(map, before);
    lemma_map_holds(list, key, map[key]);
    let i = choose|i: int| 0 <= i < list.len() && list[i] == (key, map[key]);
    lemma_map_update(list, i, value);
    let out = list.update(i, (key, value));
    assert forall|a: int, b: int| 0 <= a < b < out.len() implies before(
        #[trigger] out[a],
        #[trigger] out[b],
    ) by {
        assert(before(list[a], list[b]));
        if a == i {
            assert(before((key, value), list[b]));
        } else if b == i {
            assert(before(list[a], (key, value)));
        }
    }
    let changed = map.insert(key, value);
    assert(is_listing(out, changed, before));
    lemma_listing_lists(changed, before);
    listings_are_unique(out, listing(changed, before), changed, before);
    i
}

/// A map from keys to values.
#[derive(Debug)]
pub struct Table<K, V> {
    entries: Vec<(K, V)>,
}

impl<K: Key, V> View for Table<K, V> {
    type V = Map<K::V, V>;

    closed spec fn view(&self) -> Map<K::V, V> {
        map_of(self.pairs())
    }
}

impl<K: Key, V> Table<K, V> {
    /// The keys and values, in the order in which the keys first came.
    pub closed spec fn pairs(&self) -> Seq<(K::V, V)> {
        pair_views(self.entries@)
    }

    pub open spec fn wf(&self) -> bool {
        distinct(self.pairs()) && self@ == map_of(self.pairs())
    }

    pub fn new() -> (r: Self)
        ensures
            r.wf(),
            r.pairs() == Seq::<(K::V, V)>::empty(),
            r@ == Map::<K::V, V>::empty(),
    {
        let r = Table { entries: Vec::new() };
        assert(r.pairs() =~= Seq::<(K::V, V)>::empty());
        r
    }

    fn find(&self, key: &K) -> (r: Option<usize>)
        requires
            self.wf(),
        ensures
            match r {
                Some(i) => index_of_key(self.pairs(), key@) == Some(i as int) && i
                    < self.entries@.len() && self@.contains_key(key@) && self@[key@]
                    == self.entries@[i as int].1,
                None => index_of_key(self.pairs(), key@) is None && !self@.contains_key(key@),
            },
    {
        proof {
            lemma_index_of_key(self.pairs(), key@);
        }
        let mut i: usize = 0;
        while i < self.entries.len()
            invariant
                i <= self.entries@.len(),
                self.wf(),
                forall|j: int| 0 <= j < i ==> (#[trigger] self.pairs()[j]).0 != key@,
            decreases self.entries@.len() - i,
        {
            assert(self.pairs()[i as int].0 == self.entries@[i as int].0@);
            if self.entries[i].0.same(key) {
                proof {
                    lemma_index_unique(self.pairs(), i as int);
                    lemma_index_of_key(self.pairs(), key@);
                }
                return Some(i);
            }
            i = i + 1;
        }
        proof {
            lemma_index_of_key(self.pairs(), key@);
        }
        None
    }

    pub fn contains(&self, key: &K) -> (r: bool)
        requires
            self.wf(),
        ensures
            r == self@.contains_key(key@),
    {
        self.find(key).is_some()
    }

    pub fn get(&self, key: &K) -> (r: Option<&V>)
        requires
            self.wf(),
        ensures
            match r {
                Some(value) => self@.contains_key(key@) && *value == self@[key@],
                None => !self@.contains_key(key@),
            },
    {
        match self.find(key) {
            Some(i) => Some(&self.entries[i].1),
            None => None,
        }
    }

    /// The value of a key, to be changed in its place.
    pub fn get_mut(&mut self, key: &K) -> (r: Option<&mut V>)
        requires
            old(self).wf(),
        ensures
            match r {
                Some(value) => {
                    &&& old(self)@.contains_key(key@)
                    &&& *value == old(self)@[key@]
                    &&& final(self).wf()
                    &&& final(self)@ == old(self)@.insert(key@, *final(value))
                    &&& final(self).pairs() == old(self).pairs().update(
                        index_of_key(old(self).pairs(), key@)->0,
                        (key@, *final(value)),
                    )
                },
                None => !old(self)@.contains_key(key@) && *final(self) == *old(self),
            },
    {
        match self.find(key) {
            Some(i) => {
                let ghost before = self.pairs();
                let ghost held = self.entries@;
                proof {
                    lemma_index_of_key(before, key@);
                    assert forall|value: V|
                        {
                            &&& #[trigger] pair_views(held.update(i as int, (held[i as int].0, value)))
                                == before.update(i as int, (key@, value))
                            &&& distinct(before.update(i as int, (key@, value)))
                            &&& map_of(before.update(i as int, (key@, value))) == map_of(
                                before,
                            ).insert(key@, value)
                        } by {
                        lemma_map_update(before, i as int, value);
                        assert(pair_views(held.update(i as int, (held[i as int].0, value)))
                            =~= before.update(i as int, (key@, value)));
                    }
                }
                let entry = &mut self.entries[i];
                Some(&mut entry.1)
            },
            None => None,
        }
    }

    /// Maps `key` to `value`: a key that is there keeps its place, a new one comes
    /// last.
    pub fn insert(&mut self, key: K, value: V)
        requires
            old(self).wf(),
        ensures
            final(self).wf(),
            final(self)@ == old(self)@.insert(key@, value),
            final(self).pairs() == (match index_of_key(old(self).pairs(), key@) {
                Some(i) => old(self).pairs().update(i, (key@, value)),
                None => old(self).pairs().push((key@, value)),
            }),
    {
        let ghost before = self.pairs();
        match self.find(&key) {
            Some(i) => {
                proof {
                    lemma_index_of_key(before, key@);
                    lemma_map_update(before, i as int, value);
                }
                self.entries.set(i, (key, value));
                assert(self.pairs() =~= before.update(i as int, (key@, value)));
            },
            None => {
                proof {
                    lemma_index_of_key(before, key@);
                }
                self.entries.push((key, value));
                assert(self.pairs() =~= before.push((key@, value)));
                assert(self.pairs().drop_last() =~= before);
                assert forall|a: int, b: int| 0 <= a < b < self.pairs().len() implies (
                #[trigger] self.pairs()[a]).0 != (#[trigger] self.pairs()[b]).0 by {
                    assert(self.pairs()[a] == before[a]);
                    if b < before.len() {
                        assert(self.pairs()[b] == before[b]);
                    }
                }
            },
        }
    }

    /// Takes a key out.
    pub fn remove(&mut self, key: &K) -> (r: Option<V>)
        requires
            old(self).wf(),
        ensures
            final(self).wf(),
            final(self)@ == old(self)@.remove(key@),
            match r {
                Some(value) => old(self)@.contains_key(key@) && value == old(self)@[key@],
                None => !old(self)@.contains_key(key@),
            },
            final(self).pairs() == (match index_of_key(old(self).pairs(), key@) {
                Some(i) => old(self).pairs().remove(i),
                None => old(self).pairs(),
            }),
    {
        let ghost before = self.pairs();
        match self.find(key) {
            Some(i) => {
                proof {
                    lemma_index_of_key(before, key@);
                    lemma_map_remove(before, i as int);
                }
                let (_, value) = self.entries.remove(i);
                assert(self.pairs() =~= before.remove(i as int));
                Some(value)
            },
            None => {
                assert(self@ =~= old(self)@.remove(key@));
                None
            },
        }
    }

    pub fn len(&self) -> (r: usize)
        ensures
            r == self.pairs().len(),
    {
        self.entries.len()
    }

    pub fn is_empty(&self) -> (r: bool)
        requires
            self.wf(),
        ensures
            r == (self.pairs().len() == 0),
            r ==> self@ == Map::<K::V, V>::empty(),
    {
        self.entries.len() == 0
    }

    /// The entry at a place.
    pub fn at(&self, i: usize) -> (r: (&K, &V))
        requires
            i < self.pairs().len(),
        ensures
            (r.0@, *r.1) == self.pairs()[i as int],
    {
        let entry = &self.entries[i];
        (&entry.0, &entry.1)
    }

    /// Gives the entries away, in order.
    pub fn into_entries(self) -> (r: Vec<(K, V)>)
        ensures
            pair_views(r@) == self.pairs(),
    {
        self.entries
    }
}

} // verus!
