use crate::atoms::Key;
use vstd::prelude::*;

verus! {

/// Neither key is a prefix of the other.
pub(crate) open spec fn forked(p: Seq<Key>, q: Seq<Key>) -> bool {
    !p.is_prefix_of(q) && !q.is_prefix_of(p)
}

/// No two keys of `paths` are a prefix one of the other.
pub(crate) open spec fn all_forked(paths: Seq<Seq<Key>>) -> bool {
    forall|i: int, j: int|
        0 <= i < paths.len() && 0 <= j < paths.len() && i != j ==> forked(
            #[trigger] paths[i],
            #[trigger] paths[j],
        )
}

/// The key that begins with `atom` and goes on as `rest`.
pub(crate) open spec fn cons(atom: Key, rest: Seq<Key>) -> Seq<Key> {
    seq![atom] + rest
}

/// The parts of a key that was put together are the parts it was made of.
pub(crate) proof fn lemma_cons(atom: Key, rest: Seq<Key>)
    ensures
        cons(atom, rest).len() == rest.len() + 1,
        cons(atom, rest)[0] == atom,
        cons(atom, rest).drop_first() == rest,
{
    assert(cons(atom, rest).drop_first() =~= rest);
}

/// A key that is not empty is its first atom put before its tail.
pub(crate) proof fn lemma_uncons(key: Seq<Key>)
    requires
        key.len() > 0,
    ensures
        key == cons(key[0], key.drop_first()),
{
    assert(key =~= cons(key[0], key.drop_first()));
}

/// Two non-empty keys with the same first atom are equal exactly when their tails are.
pub(crate) proof fn lemma_same_head(a: Seq<Key>, b: Seq<Key>)
    requires
        a.len() > 0,
        b.len() > 0,
        a[0] == b[0],
    ensures
        a == b <==> a.drop_first() == b.drop_first(),
{
    if a.drop_first() == b.drop_first() {
        assert(a =~= seq![a[0]] + a.drop_first());
        assert(b =~= seq![b[0]] + b.drop_first());
    }
}

/// Every key begins itself.
pub(crate) proof fn lemma_prefix_self(p: Seq<Key>)
    ensures
        p.is_prefix_of(p),
        p.is_prefix_of(p.push(0)),
{
    assert(p =~= p.subrange(0, p.len() as int));
    assert(p =~= p.push(0).subrange(0, p.len() as int));
}

/// Two prefixes of one key are never forked.
pub(crate) proof fn lemma_prefixes_meet(p: Seq<Key>, q: Seq<Key>, key: Seq<Key>)
    requires
        p.is_prefix_of(key),
        q.is_prefix_of(key),
    ensures
        !forked(p, q),
{
    if p.len() <= q.len() {
        assert(p =~= q.subrange(0, p.len() as int));
    } else {
        assert(q =~= p.subrange(0, q.len() as int));
    }
}

/// What begins a prefix of a key begins the key.
pub(crate) proof fn lemma_prefix_chain(p: Seq<Key>, q: Seq<Key>, key: Seq<Key>)
    requires
        p.is_prefix_of(q),
        q.is_prefix_of(key),
    ensures
        p.is_prefix_of(key),
{
    assert(p =~= key.subrange(0, p.len() as int)) by {
        assert forall|i: int| 0 <= i < p.len() implies p[i] == key[i] by {
            assert(p[i] == q.subrange(0, p.len() as int)[i]);
            assert(q[i] == key.subrange(0, q.len() as int)[i]);
        }
    }
}

/// A key that begins with `prefix` begins with each shorter cut of `prefix`, and goes
/// on with the atom of `prefix` that follows the cut.
pub(crate) proof fn lemma_step_prefix(prefix: Seq<Key>, i: int, key: Seq<Key>)
    requires
        0 <= i < prefix.len(),
        prefix.is_prefix_of(key),
    ensures
        prefix.subrange(0, i).is_prefix_of(key),
        key.skip(i).len() > 0,
        key.skip(i)[0] == prefix[i],
{
    assert(prefix.subrange(0, i) =~= key.subrange(0, i));
    assert(prefix[i] == key.subrange(0, prefix.len() as int)[i]);
}

/// A key that begins with the first atom of `prefix` begins with `prefix` exactly when
/// its tail begins with the tail of `prefix`.
pub(crate) proof fn lemma_tail_prefix(prefix: Seq<Key>, key: Seq<Key>)
    requires
        prefix.len() > 0,
        key.len() > 0,
        prefix[0] == key[0],
    ensures
        prefix.is_prefix_of(key) <==> prefix.drop_first().is_prefix_of(key.drop_first()),
{
    let p = prefix.drop_first();
    let k = key.drop_first();
    if prefix.is_prefix_of(key) {
        assert(p =~= k.subrange(0, p.len() as int)) by {
            assert forall|i: int| 0 <= i < p.len() implies p[i] == k[i] by {
                assert(prefix[i + 1] == key.subrange(0, prefix.len() as int)[i + 1]);
            }
        }
    }
    if p.is_prefix_of(k) {
        assert(prefix =~= key.subrange(0, prefix.len() as int)) by {
            assert forall|i: int| 0 <= i < prefix.len() implies prefix[i] == key[i] by {
                if i > 0 {
                    assert(p[i - 1] == k.subrange(0, p.len() as int)[i - 1]);
                }
            }
        }
    }
}

/// A key begins with `p` and then `atom` exactly when it begins with `p` and has `atom`
/// next; its rest after `p` and `atom` is then the tail of its rest after `p`.
pub(crate) proof fn lemma_push_prefix(p: Seq<Key>, atom: Key, key: Seq<Key>)
    ensures
        p.push(atom).is_prefix_of(key) <==> p.is_prefix_of(key) && key.len() > p.len()
            && key[p.len() as int] == atom,
        p.push(atom).is_prefix_of(key) ==> key.skip(p.len() as int).drop_first() == key.skip(
            p.len() as int + 1,
        ),
{
    let e = p.push(atom);
    if e.is_prefix_of(key) {
        assert(e[p.len() as int] == key.subrange(0, e.len() as int)[p.len() as int]);
        assert(p =~= key.subrange(0, p.len() as int));
        assert(key.skip(p.len() as int).drop_first() =~= key.skip(p.len() as int + 1));
    }
    if p.is_prefix_of(key) && key.len() > p.len() && key[p.len() as int] == atom {
        assert(e =~= key.subrange(0, e.len() as int));
    }
}

/// What begins `q` followed by one atom begins `q` or is all of it.
pub(crate) proof fn lemma_prefix_of_push(p: Seq<Key>, q: Seq<Key>, atom: Key)
    requires
        p.is_prefix_of(q.push(atom)),
    ensures
        p.is_prefix_of(q) || p == q.push(atom),
{
    let e = q.push(atom);
    if p.len() <= q.len() {
        assert(p =~= q.subrange(0, p.len() as int));
    } else {
        assert(p =~= e);
    }
}

/// A key forked from `p` is forked from every extension of `p` by one atom.
pub(crate) proof fn lemma_forked_push(q: Seq<Key>, p: Seq<Key>, atom: Key)
    requires
        forked(q, p),
    ensures
        forked(q, p.push(atom)),
{
    if q.is_prefix_of(p.push(atom)) {
        lemma_prefix_of_push(q, p, atom);
        lemma_prefix_self(p);
        lemma_push_prefix(p, atom, q);
    }
    if p.push(atom).is_prefix_of(q) {
        lemma_push_prefix(p, atom, q);
    }
}

/// Extensions of one key by different atoms are forked.
pub(crate) proof fn lemma_siblings_forked(p: Seq<Key>, a: Key, b: Key)
    requires
        a != b,
    ensures
        forked(p.push(a), p.push(b)),
{
    lemma_push_prefix(p, a, p.push(b));
    lemma_push_prefix(p, b, p.push(a));
}

} // verus!
