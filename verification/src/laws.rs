use crate::atoms::Key;
use crate::iter::Iter;
use crate::map::with_prefix;
use crate::order::enumerates;
use vstd::prelude::*;

verus! {

/// The entries that a map holds once each pair of `pairs` has been inserted into
/// `start`, the first pair first.
pub open spec fn insert_all<V>(start: Map<Seq<Key>, V>, pairs: Seq<(Seq<Key>, V)>) -> Map<
    Seq<Key>,
    V,
>
    decreases pairs.len(),
{
    if pairs.len() == 0 {
        start
    } else {
        insert_all(start, pairs.drop_last()).insert(pairs.last().0, pairs.last().1)
    }
}

/// After a run of insertions, a lookup of any inserted key gives the value of the last
/// pair that named it. Where no two pairs name one key, that is the value the key
/// came with.
pub proof fn law_round_trip<V>(start: Map<Seq<Key>, V>, pairs: Seq<(Seq<Key>, V)>, i: int)
    requires
        0 <= i < pairs.len(),
        forall|j: int| i < j < pairs.len() ==> pairs[j].0 != pairs[i].0,
    ensures
        insert_all(start, pairs).get(pairs[i].0) == Some(pairs[i].1),
    decreases pairs.len(),
{
    if i < pairs.len() - 1 {
        let front = pairs.drop_last();
        assert(front[i] == pairs[i]);
        assert forall|j: int| i < j < front.len() implies front[j].0 != front[i].0 by {
            assert(front[j] == pairs[j]);
        }
        law_round_trip(start, front, i);
    }
}

/// Inserting under a key that is present hands back the value it had and leaves the
/// set of keys as it was, so that a full walk meets as many values after as before.
pub proof fn law_overwrite<V>(
    before: Map<Seq<Key>, V>,
    key: Seq<Key>,
    val: V,
    walk_before: Seq<Seq<Key>>,
    walk_after: Seq<Seq<Key>>,
)
    requires
        before.contains_key(key),
        enumerates(walk_before, before),
        enumerates(walk_after, before.insert(key, val)),
    ensures
        before.get(key) == Some(before[key]),
        before.insert(key, val).dom() == before.dom(),
        walk_after.len() == walk_before.len(),
{
    assert(before.insert(key, val).dom() =~= before.dom());
    walk_before.unique_seq_to_set();
    walk_after.unique_seq_to_set();
}

/// A walk from a stored key meets the value of that key and of every stored key that
/// goes on from it, and of no other key.
pub proof fn law_prefix_inclusive<V>(entries: Map<Seq<Key>, V>, stored: Seq<Key>, other: Seq<Key>)
    requires
        entries.contains_key(stored),
    ensures
        with_prefix(entries, stored).get(stored) == Some(entries[stored]),
        entries.contains_key(other) && stored.is_prefix_of(other) ==> with_prefix(
            entries,
            stored,
        ).get(other) == Some(entries[other]),
        !stored.is_prefix_of(other) ==> !with_prefix(entries, stored).contains_key(other),
        !entries.contains_key(other) ==> !with_prefix(entries, stored).contains_key(other),
{
    assert(stored.is_prefix_of(stored)) by {
        assert(stored =~= stored.subrange(0, stored.len() as int));
    }
}

/// A walk from a prefix that no stored key begins with meets nothing, however long
/// the prefix is.
pub proof fn law_prefix_miss<V>(entries: Map<Seq<Key>, V>, prefix: Seq<Key>)
    requires
        forall|k: Seq<Key>| entries.contains_key(k) ==> !prefix.is_prefix_of(k),
    ensures
        with_prefix(entries, prefix) == Map::<Seq<Key>, V>::empty(),
{
    assert(with_prefix(entries, prefix) =~= Map::<Seq<Key>, V>::empty());
}

/// What is written through a lent value is what a later lookup of its key finds, and
/// the lookups of all other keys find what they found before.
pub proof fn law_written_is_read<V>(
    before: Map<Seq<Key>, V>,
    key: Seq<Key>,
    written: V,
    other: Seq<Key>,
)
    requires
        before.contains_key(key),
    ensures
        before.insert(key, written).get(key) == Some(written),
        other != key ==> before.insert(key, written).get(other) == before.get(other),
        before.insert(key, written).dom() == before.dom(),
{
    assert(before.insert(key, written).dom() =~= before.dom());
}

/// A map that was cleared holds no key, and answers every later run of insertions as
/// a map that was never used does.
pub proof fn law_clear_resets<V>(
    cleared: Map<Seq<Key>, V>,
    fresh: Map<Seq<Key>, V>,
    pairs: Seq<(Seq<Key>, V)>,
    key: Seq<Key>,
)
    requires
        cleared == Map::<Seq<Key>, V>::empty(),
        fresh == Map::<Seq<Key>, V>::empty(),
    ensures
        !cleared.contains_key(key),
        with_prefix(cleared, key) == Map::<Seq<Key>, V>::empty(),
        insert_all(cleared, pairs) == insert_all(fresh, pairs),
{
    assert(with_prefix(cleared, key) =~= Map::<Seq<Key>, V>::empty());
}

/// An element put into a set that lacked it is new, put in once more it is not, and
/// a full walk then meets it at one place only.
pub proof fn law_set_dedup<T>(
    before: Map<Seq<Key>, T>,
    atoms: Seq<Key>,
    first: T,
    second: T,
    keys: Seq<Seq<Key>>,
)
    requires
        !before.contains_key(atoms),
        enumerates(keys, before.insert(atoms, first).insert(atoms, second)),
    ensures
        before.insert(atoms, first).contains_key(atoms),
        before.insert(atoms, first).insert(atoms, second).dom() == before.insert(
            atoms,
            first,
        ).dom(),
        exists|i: int| 0 <= i < keys.len() && keys[i] == atoms,
        forall|i: int, j: int|
            0 <= i < keys.len() && 0 <= j < keys.len() && keys[i] == atoms && keys[j] == atoms
                ==> i == j,
{
    let once = before.insert(atoms, first);
    let twice = once.insert(atoms, second);
    assert(twice.dom() =~= once.dom());
    assert(keys.to_set().contains(atoms));
}

/// Two walks that have the same keys before them, in the same order, over the same
/// entries hand out the same values in the same order. As long as a map is not changed,
/// then, every walk of it from one prefix gives the same.
pub proof fn law_walk_repeats<'a, V>(
    one: Iter<'a, V>,
    other: Iter<'a, V>,
    first: Seq<&'a V>,
    second: Seq<&'a V>,
)
    requires
        one@ == other@,
        one.order() == other.order(),
        first.len() == one.order().len(),
        forall|i: int| 0 <= i < first.len() ==> *first[i] == one@[#[trigger] one.order()[i]],
        second.len() == other.order().len(),
        forall|i: int| 0 <= i < second.len() ==> *second[i] == other@[#[trigger] other.order()[i]],
    ensures
        first == second,
{
    assert forall|i: int| 0 <= i < first.len() implies first[i] == second[i] by {
        assert(*first[i] == one@[one.order()[i]]);
        assert(*second[i] == other@[other.order()[i]]);
    }
    assert(first =~= second);
}

} // verus!
