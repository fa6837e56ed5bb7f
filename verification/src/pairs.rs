//! The mathematical model of an ordered collection of key-value pairs with
//! unique keys: a sequence of pairs, searched from the front.
use vstd::prelude::*;

verus! {

/// The views of the pairs in `data`, in the same order.
pub open spec fn pairs_of<K: View, V: View>(data: Seq<(K, V)>) -> Seq<(K::V, V::V)> {
    Seq::new(data.len(), |i: int| (data[i].0@, data[i].1@))
}

/// Index of the first pair at or after position `from` whose key is `k`.
pub open spec fn find_from<A, B>(pairs: Seq<(A, B)>, k: A, from: int) -> Option<int>
    decreases pairs.len() - from,
{
    if from < 0 || from >= pairs.len() {
        None
    } else if pairs[from].0 == k {
        Some(from)
    } else {
        find_from(pairs, k, from + 1)
    }
}

/// Index of the first pair whose key is `k`.
pub open spec fn find<A, B>(pairs: Seq<(A, B)>, k: A) -> Option<int> {
    find_from(pairs, k, 0)
}

/// Whether some pair has the key `k`.
pub open spec fn has_key<A, B>(pairs: Seq<(A, B)>, k: A) -> bool {
    find(pairs, k) is Some
}

/// The value stored under `k`, if any.
pub open spec fn lookup<A, B>(pairs: Seq<(A, B)>, k: A) -> Option<B> {
    match find(pairs, k) {
        Some(i) => Some(pairs[i].1),
        None => None,
    }
}

/// No two positions hold the same key.
pub open spec fn unique_keys<A, B>(pairs: Seq<(A, B)>) -> bool {
    forall|i: int, j: int|
        0 <= i < pairs.len() && 0 <= j < pairs.len() && i != j ==> pairs[i].0 != pairs[j].0
}

/// The pairs after storing `v` under `k`: an existing pair keeps its place and
/// takes the new value, a new key goes to the end.
pub open spec fn inserted<A, B>(pairs: Seq<(A, B)>, k: A, v: B) -> Seq<(A, B)> {
    match find(pairs, k) {
        Some(i) => pairs.update(i, (k, v)),
        None => pairs.push((k, v)),
    }
}

/// The pairs after deleting the pair stored under `k`, if there is one.
pub open spec fn removed<A, B>(pairs: Seq<(A, B)>, k: A) -> Seq<(A, B)> {
    match find(pairs, k) {
        Some(i) => pairs.remove(i),
        None => pairs,
    }
}

/// The pairs after storing each pair of `more` into `pairs`, from the first
/// to the last.
pub open spec fn stored<A, B>(pairs: Seq<(A, B)>, more: Seq<(A, B)>) -> Seq<(A, B)>
    decreases more.len(),
{
    if more.len() == 0 {
        pairs
    } else {
        stored(inserted(pairs, more[0].0, more[0].1), more.skip(1))
    }
}

/// `find_from` returns the least matching index at or after `from`.
pub proof fn lemma_find_from<A, B>(pairs: Seq<(A, B)>, k: A, from: int)
    requires
        0 <= from,
    ensures
        match find_from(pairs, k, from) {
            Some(i) => from <= i < pairs.len() && pairs[i].0 == k && forall|j: int|
                from <= j < i ==> pairs[j].0 != k,
            None => forall|j: int| from <= j < pairs.len() ==> pairs[j].0 != k,
        },
    decreases pairs.len() - from,
{
    if from < pairs.len() && pairs[from].0 != k {
        lemma_find_from(pairs, k, from + 1);
    }
}

/// `find` returns the least index that holds `k`, and `None` only when no
/// index does.
pub proof fn lemma_find<A, B>(pairs: Seq<(A, B)>, k: A)
    ensures
        match find(pairs, k) {
            Some(i) => 0 <= i < pairs.len() && pairs[i].0 == k && forall|j: int|
                0 <= j < i ==> pairs[j].0 != k,
            None => forall|j: int| 0 <= j < pairs.len() ==> pairs[j].0 != k,
        },
{
    lemma_find_from(pairs, k, 0);
}

/// Storing a value keeps the keys unique.
pub proof fn lemma_inserted_unique<A, B>(pairs: Seq<(A, B)>, k: A, v: B)
    requires
        unique_keys(pairs),
    ensures
        unique_keys(inserted(pairs, k, v)),
{
    lemma_find(pairs, k);
}

/// Deleting a key keeps the keys unique.
pub proof fn lemma_removed_unique<A, B>(pairs: Seq<(A, B)>, k: A)
    requires
        unique_keys(pairs),
    ensures
        unique_keys(removed(pairs, k)),
{
    lemma_find(pairs, k);
    let r = removed(pairs, k);
    match find(pairs, k) {
        Some(p) => {
            assert forall|i: int, j: int| 0 <= i < r.len() && 0 <= j < r.len() && i != j implies r[i].0
                != r[j].0 by {
                let i0 = if i < p { i } else { i + 1 };
                let j0 = if j < p { j } else { j + 1 };
                assert(r[i] == pairs[i0]);
                assert(r[j] == pairs[j0]);
            }
        },
        None => {},
    }
}

/// After storing `v` under `k`, a lookup of `k` gives `v` and every other key
/// is found as before.
pub proof fn lemma_lookup_inserted<A, B>(pairs: Seq<(A, B)>, k: A, v: B, q: A)
    ensures
        lookup(inserted(pairs, k, v), q) == if q == k {
            Some(v)
        } else {
            lookup(pairs, q)
        },
{
    let r = inserted(pairs, k, v);
    lemma_find(pairs, k);
    lemma_find(pairs, q);
    lemma_find(r, q);
    match find(pairs, k) {
        Some(p) => {
            assert(forall|j: int| 0 <= j < r.len() ==> r[j].0 == pairs[j].0);
        },
        None => {
            assert(r[pairs.len() as int].0 == k);
            assert(forall|j: int| 0 <= j < pairs.len() ==> r[j] == pairs[j]);
        },
    }
}

/// After deleting `k`, a lookup of `k` finds nothing and every other key is
/// found as before.
pub proof fn lemma_lookup_removed<A, B>(pairs: Seq<(A, B)>, k: A, q: A)
    requires
        unique_keys(pairs),
    ensures
        lookup(removed(pairs, k), q) == if q == k {
            None
        } else {
            lookup(pairs, q)
        },
{
    let r = removed(pairs, k);
    lemma_find(pairs, k);
    lemma_find(pairs, q);
    lemma_find(r, q);
    match find(pairs, k) {
        Some(p) => {
            assert(forall|j: int| 0 <= j < p ==> r[j] == pairs[j]);
            assert(forall|j: int| p <= j < r.len() ==> r[j] == pairs[j + 1]);
            if q != k {
                match find(pairs, q) {
                    Some(i) => {
                        let i1 = if i < p { i } else { i - 1 };
                        assert(r[i1] == pairs[i]);
                        match find(r, q) {
                            Some(m) => {
                                let m0 = if m < p { m } else { m + 1 };
                                assert(r[m] == pairs[m0]);
                            },
                            None => {},
                        }
                    },
                    None => {
                        match find(r, q) {
                            Some(m) => {
                                let m0 = if m < p { m } else { m + 1 };
                                assert(r[m] == pairs[m0]);
                            },
                            None => {},
                        }
                    },
                }
            } else {
                match find(r, q) {
                    Some(m) => {
                        let m0 = if m < p { m } else { m + 1 };
                        assert(r[m] == pairs[m0]);
                    },
                    None => {},
                }
            }
        },
        None => {},
    }
}

/// One change to a collection of pairs.
pub ghost enum Change<A, B> {
    /// A value is stored under a key.
    Insert(A, B),
    /// A key is deleted.
    Remove(A),
}

/// The key that a change touches.
pub open spec fn key_of<A, B>(change: Change<A, B>) -> A {
    match change {
        Change::Insert(k, _) => k,
        Change::Remove(k) => k,
    }
}

/// The pairs after one change.
pub open spec fn changed<A, B>(pairs: Seq<(A, B)>, change: Change<A, B>) -> Seq<(A, B)> {
    match change {
        Change::Insert(k, v) => inserted(pairs, k, v),
        Change::Remove(k) => removed(pairs, k),
    }
}

/// The pairs after a sequence of changes, made from the first to the last.
pub open spec fn changed_by<A, B>(pairs: Seq<(A, B)>, changes: Seq<Change<A, B>>) -> Seq<(A, B)>
    decreases changes.len(),
{
    if changes.len() == 0 {
        pairs
    } else {
        changed(changed_by(pairs, changes.drop_last()), changes.last())
    }
}

/// The last of the changes that touches the key `k`, if any does.
pub open spec fn last_change_of<A, B>(changes: Seq<Change<A, B>>, k: A) -> Option<Change<A, B>>
    decreases changes.len(),
{
    if changes.len() == 0 {
        None
    } else if key_of(changes.last()) == k {
        Some(changes.last())
    } else {
        last_change_of(changes.drop_last(), k)
    }
}

/// After any sequence of insertions and removals, a lookup of a key shows the
/// last change that touched it: the value that was stored last, nothing
/// where the key was deleted last, and what was there before where no change
/// touched the key. The keys stay unique throughout.
pub proof fn lemma_lookup_after_changes<A, B>(pairs: Seq<(A, B)>, changes: Seq<Change<A, B>>, k: A)
    requires
        unique_keys(pairs),
    ensures
        unique_keys(changed_by(pairs, changes)),
        lookup(changed_by(pairs, changes), k) == match last_change_of(changes, k) {
            Some(Change::Insert(_, v)) => Some(v),
            Some(Change::Remove(_)) => None,
            None => lookup(pairs, k),
        },
    decreases changes.len(),
{
    if changes.len() > 0 {
        let before = changed_by(pairs, changes.drop_last());
        lemma_lookup_after_changes(pairs, changes.drop_last(), k);
        match changes.last() {
            Change::Insert(key, v) => {
                lemma_inserted_unique(before, key, v);
                lemma_lookup_inserted(before, key, v, k);
            },
            Change::Remove(key) => {
                lemma_removed_unique(before, key);
                lemma_lookup_removed(before, key, k);
            },
        }
    }
}

/// Deleting a key that is absent changes nothing, so deleting a key twice is
/// deleting it once.
pub proof fn lemma_removed_absent<A, B>(pairs: Seq<(A, B)>, k: A)
    requires
        unique_keys(pairs),
    ensures
        !has_key(pairs, k) ==> removed(pairs, k) == pairs,
        !has_key(removed(pairs, k), k),
        removed(removed(pairs, k), k) == removed(pairs, k),
{
    lemma_lookup_removed(pairs, k, k);
}

/// Storing pairs whose keys are new and differ from one another appends them.
pub proof fn lemma_stored_unique<A, B>(pairs: Seq<(A, B)>, more: Seq<(A, B)>)
    requires
        unique_keys(pairs + more),
    ensures
        stored(pairs, more) == pairs + more,
    decreases more.len(),
{
    let all = pairs + more;
    if more.len() == 0 {
        assert(all =~= pairs);
    } else {
        let k = more[0].0;
        let v = more[0].1;
        lemma_find(pairs, k);
        assert(all[pairs.len() as int] == more[0]);
        assert forall|j: int| 0 <= j < pairs.len() implies pairs[j].0 != k by {
            assert(all[j] == pairs[j]);
        }
        assert(inserted(pairs, k, v) == pairs.push(more[0]));
        assert(pairs.push(more[0]) + more.skip(1) =~= all);
        lemma_stored_unique(pairs.push(more[0]), more.skip(1));
    }
}

} // verus!
