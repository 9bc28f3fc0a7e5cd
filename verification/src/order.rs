use crate::atoms::Key;
use crate::keys::all_forked;
use crate::keys::forked;
use crate::keys::lemma_prefix_chain;
use crate::keys::lemma_prefix_of_push;
use crate::keys::lemma_prefix_self;
use crate::keys::lemma_push_prefix;
use crate::keys::lemma_tail_prefix;
use vstd::prelude::*;

verus! {

/// `keys` names every key of `entries`, each once.
pub open spec fn enumerates<V>(keys: Seq<Seq<Key>>, entries: Map<Seq<Key>, V>) -> bool {
    keys.no_duplicates() && keys.to_set() == entries.dom()
}

/// No key of `keys` stands behind a key that goes on from it.
pub open spec fn parents_first(keys: Seq<Seq<Key>>) -> bool {
    forall|a: int, b: int|
        0 <= a < b < keys.len() ==> !(#[trigger] keys[b]).is_prefix_of(#[trigger] keys[a])
}

/// The keys of `keys` that begin with any one prefix stand in one run: between two of
/// them there is no key that begins otherwise.
pub open spec fn in_turn(keys: Seq<Seq<Key>>) -> bool {
    forall|a: int, b: int, c: int, p: Seq<Key>|
        #![trigger p.is_prefix_of(keys[a]), p.is_prefix_of(keys[c]), keys[b]]
        0 <= a < b < c < keys.len() && p.is_prefix_of(keys[a]) && p.is_prefix_of(keys[c])
            ==> p.is_prefix_of(keys[b])
}

/// The subtrees at `paths`, the last of which is walked first, wait in an order that
/// lets a walk go on in turn after the keys `keys` that it has met: the subtrees under
/// any one prefix lie together, those under a prefix of a key already met lie on top,
/// no subtree holds a key already met, and none lies under a prefix that the walk has
/// left.
pub(crate) open spec fn orderly(paths: Seq<Seq<Key>>, keys: Seq<Seq<Key>>) -> bool {
    &&& in_turn(keys)
    &&& forall|i: int, j: int, l: int, p: Seq<Key>|
        #![trigger p.is_prefix_of(paths[i]), p.is_prefix_of(paths[l]), paths[j]]
        0 <= i < j < l < paths.len() && p.is_prefix_of(paths[i]) && p.is_prefix_of(paths[l])
            ==> p.is_prefix_of(paths[j])
    &&& forall|i: int, j: int, a: int, p: Seq<Key>|
        0 <= i < j < paths.len() && 0 <= a < keys.len() && #[trigger] p.is_prefix_of(keys[a])
            && #[trigger] p.is_prefix_of(paths[i]) ==> p.is_prefix_of(#[trigger] paths[j])
    &&& forall|i: int, a: int|
        0 <= i < paths.len() && 0 <= a < keys.len() ==> !(#[trigger] paths[i]).is_prefix_of(
            #[trigger] keys[a],
        )
    &&& forall|a: int, b: int, i: int, p: Seq<Key>|
        0 <= a < b < keys.len() && 0 <= i < paths.len() && #[trigger] p.is_prefix_of(keys[a])
            && !p.is_prefix_of(#[trigger] keys[b]) ==> !#[trigger] p.is_prefix_of(paths[i])
}

/// `next` holds the keys of `base` and, on top of them, keys that go on from `top` by
/// one atom.
pub(crate) open spec fn opened(base: Seq<Seq<Key>>, top: Seq<Key>, next: Seq<Seq<Key>>) -> bool {
    &&& next.len() >= base.len()
    &&& forall|i: int| 0 <= i < base.len() ==> #[trigger] next[i] == base[i]
    &&& forall|i: int|
        base.len() <= i < next.len() ==> (#[trigger] next[i]).len() == top.len() + 1
            && next[i].drop_last() == top
}

/// Where the subtree on top makes way for its children, the subtrees still wait in an
/// order that lets the walk go on in turn.
pub(crate) proof fn lemma_orderly_open(
    base: Seq<Seq<Key>>,
    top: Seq<Key>,
    next: Seq<Seq<Key>>,
    keys: Seq<Seq<Key>>,
)
    requires
        orderly(base.push(top), keys),
        all_forked(base.push(top)),
        opened(base, top, next),
        all_forked(next),
    ensures
        orderly(next, keys),
{
    let before = base.push(top);
    let n = base.len() as int;
    assert(before[n] == top);
    assert forall|i: int| 0 <= i < n implies before[i] == next[i] && forked(next[i], top) by {
        assert(forked(before[i], before[n]));
    }
    assert forall|i: int| n <= i < next.len() implies top.is_prefix_of(#[trigger] next[i])
        && next[i] == top.push(next[i].last()) by {
        assert(next[i] =~= top.push(next[i].last()));
        lemma_push_prefix(top, next[i].last(), next[i]);
        lemma_prefix_self(next[i]);
    }
    assert forall|i: int, a: int| 0 <= i < next.len() && 0 <= a < keys.len() implies !(
    #[trigger] next[i]).is_prefix_of(#[trigger] keys[a]) by {
        if i < n {
            assert(!before[i].is_prefix_of(keys[a]));
        } else if next[i].is_prefix_of(keys[a]) {
            lemma_prefix_chain(top, next[i], keys[a]);
            assert(!before[n].is_prefix_of(keys[a]));
        }
    }
    assert forall|i: int, j: int, l: int, p: Seq<Key>|
        #![trigger p.is_prefix_of(next[i]), p.is_prefix_of(next[l]), next[j]]
        0 <= i < j < l < next.len() && p.is_prefix_of(next[i]) && p.is_prefix_of(next[l])
            implies p.is_prefix_of(next[j]) by {
        if l < n {
            assert(p.is_prefix_of(before[i]) && p.is_prefix_of(before[l]));
            assert(p.is_prefix_of(before[j]));
        } else {
            lemma_prefix_of_push(p, top, next[l].last());
            if p == next[l] {
                if i < n {
                    lemma_prefix_chain(top, next[l], next[i]);
                } else {
                    assert(forked(next[l], next[i]));
                }
            } else if j < n {
                assert(p.is_prefix_of(before[i]) && p.is_prefix_of(before[n]));
                assert(p.is_prefix_of(before[j]));
            } else {
                lemma_prefix_chain(p, top, next[j]);
            }
        }
    }
    assert forall|i: int, j: int, a: int, p: Seq<Key>|
        0 <= i < j < next.len() && 0 <= a < keys.len() && #[trigger] p.is_prefix_of(keys[a])
            && #[trigger] p.is_prefix_of(next[i]) implies p.is_prefix_of(#[trigger] next[j]) by {
        if j < n {
            assert(p.is_prefix_of(before[i]));
            assert(p.is_prefix_of(before[j]));
        } else {
            if i < n {
                assert(p.is_prefix_of(before[i]));
                assert(p.is_prefix_of(before[n]));
            } else {
                lemma_prefix_of_push(p, top, next[i].last());
                assert(!next[i].is_prefix_of(keys[a]));
            }
            lemma_prefix_chain(p, top, next[j]);
        }
    }
    assert forall|a: int, b: int, i: int, p: Seq<Key>|
        0 <= a < b < keys.len() && 0 <= i < next.len() && #[trigger] p.is_prefix_of(keys[a])
            && !p.is_prefix_of(#[trigger] keys[b]) implies !#[trigger] p.is_prefix_of(next[i]) by {
        if i < n {
            assert(!p.is_prefix_of(before[i]));
        } else if p.is_prefix_of(next[i]) {
            lemma_prefix_of_push(p, top, next[i].last());
            assert(!next[i].is_prefix_of(keys[a]));
            assert(!p.is_prefix_of(before[n]));
        }
    }
}

/// Where the walk meets the key of the subtree that has just made way for its children,
/// the keys met are still in turn, and the subtrees wait in an order that lets the walk
/// go on so.
pub(crate) proof fn lemma_orderly_met(
    base: Seq<Seq<Key>>,
    top: Seq<Key>,
    next: Seq<Seq<Key>>,
    keys: Seq<Seq<Key>>,
)
    requires
        orderly(base.push(top), keys),
        all_forked(base.push(top)),
        opened(base, top, next),
        orderly(next, keys),
    ensures
        orderly(next, keys.push(top)),
{
    let before = base.push(top);
    let met = keys.push(top);
    let n = base.len() as int;
    let m = keys.len() as int;
    assert(before[n] == top);
    assert(met[m] == top);
    assert forall|a: int| 0 <= a < m implies met[a] == keys[a] by {}
    assert forall|i: int| 0 <= i < n implies before[i] == next[i] && forked(next[i], top) by {
        assert(forked(before[i], before[n]));
    }
    assert forall|i: int| n <= i < next.len() implies top.is_prefix_of(#[trigger] next[i])
        && next[i] == top.push(next[i].last()) by {
        assert(next[i] =~= top.push(next[i].last()));
        lemma_push_prefix(top, next[i].last(), next[i]);
        lemma_prefix_self(next[i]);
    }
    assert(in_turn(met)) by {
        assert forall|a: int, b: int, c: int, p: Seq<Key>|
            #![trigger p.is_prefix_of(met[a]), p.is_prefix_of(met[c]), met[b]]
            0 <= a < b < c < met.len() && p.is_prefix_of(met[a]) && p.is_prefix_of(met[c])
                implies p.is_prefix_of(met[b]) by {
            if c < m {
                assert(p.is_prefix_of(keys[a]) && p.is_prefix_of(keys[c]));
                assert(p.is_prefix_of(keys[b]));
            } else {
                assert(p.is_prefix_of(keys[a]));
                assert(p.is_prefix_of(before[n]));
                if !p.is_prefix_of(keys[b]) {
                    assert(!p.is_prefix_of(before[n]));
                }
            }
        }
    }
    assert forall|i: int, j: int, a: int, p: Seq<Key>|
        0 <= i < j < next.len() && 0 <= a < met.len() && #[trigger] p.is_prefix_of(met[a])
            && #[trigger] p.is_prefix_of(next[i]) implies p.is_prefix_of(#[trigger] next[j]) by {
        if a < m {
            assert(p.is_prefix_of(keys[a]));
        } else if j < n {
            assert(p.is_prefix_of(before[i]) && p.is_prefix_of(before[n]));
            assert(p.is_prefix_of(before[j]));
        } else {
            lemma_prefix_chain(p, top, next[j]);
        }
    }
    assert forall|i: int, a: int| 0 <= i < next.len() && 0 <= a < met.len() implies !(
    #[trigger] next[i]).is_prefix_of(#[trigger] met[a]) by {
        if a < m {
            assert(!next[i].is_prefix_of(keys[a]));
        }
    }
    assert forall|a: int, b: int, i: int, p: Seq<Key>|
        0 <= a < b < met.len() && 0 <= i < next.len() && #[trigger] p.is_prefix_of(met[a])
            && !p.is_prefix_of(#[trigger] met[b]) implies !#[trigger] p.is_prefix_of(next[i]) by {
        assert(p.is_prefix_of(keys[a]));
        if b < m {
            assert(!p.is_prefix_of(keys[b]));
        } else if p.is_prefix_of(next[i]) {
            if i < n {
                assert(p.is_prefix_of(before[i]));
                assert(p.is_prefix_of(before[n]));
            } else {
                lemma_prefix_of_push(p, top, next[i].last());
                assert(!next[i].is_prefix_of(keys[a]));
            }
        }
    }
}

/// Keys in turn stay in turn when one atom is put before each of them.
pub(crate) proof fn lemma_in_turn_cons(tails: Seq<Seq<Key>>, atom: Key, keys: Seq<Seq<Key>>)
    requires
        in_turn(tails),
        keys.len() == tails.len(),
        forall|i: int|
            0 <= i < keys.len() ==> (#[trigger] keys[i]).len() > 0 && keys[i][0] == atom
                && keys[i].drop_first() == tails[i],
    ensures
        in_turn(keys),
{
    assert forall|a: int, b: int, c: int, p: Seq<Key>|
        #![trigger p.is_prefix_of(keys[a]), p.is_prefix_of(keys[c]), keys[b]]
        0 <= a < b < c < keys.len() && p.is_prefix_of(keys[a]) && p.is_prefix_of(keys[c])
            implies p.is_prefix_of(keys[b]) by {
        if p.len() == 0 {
            assert(p =~= keys[b].subrange(0, 0));
        } else {
            assert(p[0] == keys[a].subrange(0, p.len() as int)[0]);
            lemma_tail_prefix(p, keys[a]);
            lemma_tail_prefix(p, keys[b]);
            lemma_tail_prefix(p, keys[c]);
            assert(p.drop_first().is_prefix_of(tails[a]));
            assert(p.drop_first().is_prefix_of(tails[c]));
            assert(p.drop_first().is_prefix_of(tails[b]));
        }
    }
}

/// Keys in turn stay in turn when a run of keys that all begin with one atom, itself
/// in turn, is put behind them, if none of them begins with that atom.
pub(crate) proof fn lemma_in_turn_append(done: Seq<Seq<Key>>, more: Seq<Seq<Key>>, atom: Key)
    requires
        in_turn(done),
        in_turn(more),
        forall|i: int| 0 <= i < more.len() ==> (#[trigger] more[i]).len() > 0 && more[i][0] == atom,
        forall|i: int|
            0 <= i < done.len() ==> (#[trigger] done[i]).len() == 0 || done[i][0] != atom,
    ensures
        in_turn(done + more),
{
    let keys = done + more;
    let n = done.len() as int;
    assert forall|a: int, b: int, c: int, p: Seq<Key>|
        #![trigger p.is_prefix_of(keys[a]), p.is_prefix_of(keys[c]), keys[b]]
        0 <= a < b < c < keys.len() && p.is_prefix_of(keys[a]) && p.is_prefix_of(keys[c])
            implies p.is_prefix_of(keys[b]) by {
        if p.len() == 0 {
            assert(p =~= keys[b].subrange(0, 0));
        } else {
            assert(p[0] == keys[a].subrange(0, p.len() as int)[0]);
            assert(p[0] == keys[c].subrange(0, p.len() as int)[0]);
            if c < n {
                assert(keys[a] == done[a] && keys[b] == done[b] && keys[c] == done[c]);
            } else {
                assert(keys[c] == more[c - n]);
                if a < n {
                    assert(keys[a] == done[a]);
                } else {
                    assert(keys[a] == more[a - n] && keys[b] == more[b - n]);
                }
            }
        }
    }
}

} // verus!
