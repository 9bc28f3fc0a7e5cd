use crate::atoms::Key;
use crate::keys::cons;
use crate::keys::lemma_cons;
use crate::keys::lemma_same_head;
use crate::keys::lemma_tail_prefix;
use crate::keys::lemma_uncons;
use crate::node::Node;
use crate::order::in_turn;
use crate::order::lemma_in_turn_append;
use crate::order::lemma_in_turn_cons;
use crate::order::parents_first;
use std::collections::HashMap;
use vstd::prelude::*;
use vstd::std_specs::hash::*;

verus! {

broadcast use vstd::std_specs::hash::group_hash_axioms;

/// `HashMap::get_mut` on a map keyed by atoms: the reference handed out points at the
/// value stored under `atom`, and whatever is written through it is what the map holds
/// under `atom` afterwards; nothing else in the map changes. Without such a key the map
/// is left as it was.
#[verifier::external_body]
pub(crate) fn child_mut<'a, T>(children: &'a mut HashMap<Key, T>, atom: Key) -> (r: Option<
    &'a mut T,
>)
    ensures
        match r {
            Some(child) => {
                &&& old(children)@.contains_key(atom)
                &&& *child == old(children)@[atom]
                &&& final(children)@ == old(children)@.insert(atom, *final(child))
            },
            None => {
                &&& !old(children)@.contains_key(atom)
                &&& final(children)@ == old(children)@
            },
        },
{
    children.get_mut(&atom)
}

/// `HashMap::iter_mut` on a map keyed by atoms, its items handed out as a vector: every
/// entry of the map comes once, as its atom and a reference to its value, and whatever is
/// written through a reference is what the map holds under that atom afterwards. The map
/// gains and loses no key.
#[verifier::external_body]
pub(crate) fn children_mut<'a, T>(children: &'a mut HashMap<Key, T>) -> (out: Vec<
    (Key, &'a mut T),
>)
    ensures
        forall|i: int, j: int| 0 <= i < j < out.len() ==> out[i].0 != out[j].0,
        forall|i: int|
            0 <= i < out.len() ==> old(children)@.contains_key(#[trigger] out[i].0) && *out[i].1
                == old(children)@[out[i].0],
        forall|atom: Key|
            old(children)@.contains_key(atom) ==> exists|i: int|
                0 <= i < out.len() && #[trigger] out[i].0 == atom,
        final(children)@.dom() == old(children)@.dom(),
        forall|i: int|
            0 <= i < out.len() ==> final(children)@[#[trigger] out[i].0] == *final(out[i].1),
{
    children.iter_mut().map(|(atom, child)| (*atom, child)).collect()
}

/// A node keeps its shape where all but one of its children stay and that one keeps
/// its shape.
pub(crate) proof fn lemma_same_shape<V>(node: Node<V>, end: Node<V>, atom: Key)
    requires
        node.children@.contains_key(atom),
        end.children@.dom() =~= node.children@.dom(),
        forall|other: Key|
            node.children@.contains_key(other) && other != atom ==> end.children@[other]
                == node.children@[other],
        forall|p: Seq<Key>|
            #![trigger end.children@[atom].descend(p)]
            end.children@[atom].descend(p) is Some <==> node.children@[atom].descend(p) is Some,
    ensures
        forall|p: Seq<Key>|
            #![trigger end.descend(p)]
            end.descend(p) is Some <==> node.descend(p) is Some,
{
    assert forall|p: Seq<Key>|
        #![trigger end.descend(p)]
        end.descend(p) is Some <==> node.descend(p) is Some by {
        if p.len() > 0 {
            assert(end.children@.contains_key(p[0]) == node.children@.contains_key(p[0]));
            if p[0] == atom {
                assert(end.descend(p) == end.children@[atom].descend(p.drop_first()));
            }
        }
    }
}

/// `keys` lists, parents first and in turn, the keys below `node` that begin with
/// `prefix` and have a value; `vals` holds their values, and `ends` holds their values
/// in `end`, which is `node` but for these values.
#[verifier::opaque]
pub(crate) open spec fn listed<V>(
    node: Node<V>,
    end: Node<V>,
    prefix: Seq<Key>,
    keys: Seq<Seq<Key>>,
    vals: Seq<V>,
    ends: Seq<V>,
) -> bool {
    &&& vals.len() == keys.len()
    &&& ends.len() == keys.len()
    &&& keys.no_duplicates()
    &&& parents_first(keys)
    &&& in_turn(keys)
    &&& forall|k: Seq<Key>|
        #![trigger keys.contains(k)]
        keys.contains(k) <==> prefix.is_prefix_of(k) && node.lookup(k) is Some
    &&& forall|i: int| 0 <= i < keys.len() ==> node.lookup(#[trigger] keys[i]) == Some(vals[i])
    &&& forall|i: int| 0 <= i < keys.len() ==> end.lookup(#[trigger] keys[i]) == Some(ends[i])
    &&& forall|k: Seq<Key>| !keys.contains(k) ==> #[trigger] end.lookup(k) == node.lookup(k)
    &&& forall|p: Seq<Key>|
        #![trigger end.descend(p)]
        end.descend(p) is Some <==> node.descend(p) is Some
}

/// As `listed` with no prefix, for the part of `node` that lies at its root and below
/// the children whose atom is in `seen`.
#[verifier::opaque]
pub(crate) open spec fn gathered<V>(
    node: Node<V>,
    end: Node<V>,
    seen: Set<Key>,
    keys: Seq<Seq<Key>>,
    vals: Seq<V>,
    ends: Seq<V>,
) -> bool {
    &&& vals.len() == keys.len()
    &&& ends.len() == keys.len()
    &&& keys.no_duplicates()
    &&& parents_first(keys)
    &&& in_turn(keys)
    &&& forall|k: Seq<Key>|
        #![trigger keys.contains(k)]
        keys.contains(k) <==> node.lookup(k) is Some && (k.len() == 0 || seen.contains(k[0]))
    &&& forall|i: int| 0 <= i < keys.len() ==> node.lookup(#[trigger] keys[i]) == Some(vals[i])
    &&& forall|i: int| 0 <= i < keys.len() ==> end.lookup(#[trigger] keys[i]) == Some(ends[i])
    &&& forall|k: Seq<Key>|
        !keys.contains(k) && (k.len() == 0 || seen.contains(k[0])) ==> #[trigger] end.lookup(k)
            == node.lookup(k)
    &&& forall|p: Seq<Key>|
        #![trigger end.descend(p)]
        p.len() == 0 || seen.contains(p[0]) ==> (end.descend(p) is Some <==> node.descend(
            p,
        ) is Some)
}

/// What is listed below a child is listed below its parent, the atom of the child put
/// before each key.
pub(crate) proof fn lemma_listed_below<V>(
    node: Node<V>,
    end: Node<V>,
    key: Seq<Key>,
    sub: Seq<Seq<Key>>,
    vals: Seq<V>,
    ends: Seq<V>,
)
    requires
        key.len() > 0,
        node.children@.contains_key(key[0]),
        end.value == node.value,
        end.children@.dom() == node.children@.dom(),
        forall|atom: Key|
            node.children@.contains_key(atom) && atom != key[0] ==> end.children@[atom]
                == node.children@[atom],
        listed(
            node.children@[key[0]],
            end.children@[key[0]],
            key.drop_first(),
            sub,
            vals,
            ends,
        ),
    ensures
        listed(node, end, key, sub.map_values(|k: Seq<Key>| cons(key[0], k)), vals, ends),
{
    reveal(listed);
    let atom = key[0];
    let below = node.children@[atom];
    let below_end = end.children@[atom];
    let keys = sub.map_values(|k: Seq<Key>| cons(atom, k));
    assert forall|i: int| 0 <= i < keys.len() implies {
        &&& (#[trigger] keys[i]).len() > 0
        &&& keys[i][0] == atom
        &&& keys[i].drop_first() == sub[i]
    } by {
        lemma_cons(atom, sub[i]);
    }
    assert forall|k: Seq<Key>| k.len() > 0 && k[0] == atom implies (keys.contains(k)
        <==> sub.contains(k.drop_first())) by {
        lemma_uncons(k);
        if sub.contains(k.drop_first()) {
            let i = choose|i: int| 0 <= i < sub.len() && sub[i] == k.drop_first();
            assert(keys[i] == k);
        }
    }
    assert(keys.no_duplicates()) by {
        assert forall|i: int, j: int|
            0 <= i < keys.len() && 0 <= j < keys.len() && i != j implies keys[i] != keys[j] by {
            assert(keys[i].drop_first() != keys[j].drop_first());
        }
    }
    assert(parents_first(keys)) by {
        assert forall|a: int, b: int| 0 <= a < b < keys.len() implies !(
        #[trigger] keys[b]).is_prefix_of(#[trigger] keys[a]) by {
            lemma_tail_prefix(keys[b], keys[a]);
        }
    }
    lemma_in_turn_cons(sub, atom, keys);
    lemma_same_shape(node, end, atom);
    assert forall|k: Seq<Key>|
        #![trigger keys.contains(k)]
        keys.contains(k) <==> key.is_prefix_of(k) && node.lookup(k) is Some by {
        if k.len() > 0 && k[0] == atom {
            lemma_tail_prefix(key, k);
        } else if key.is_prefix_of(k) {
            assert(key[0] == k.subrange(0, key.len() as int)[0]);
        }
    }
    assert forall|i: int| 0 <= i < keys.len() implies node.lookup(#[trigger] keys[i]) == Some(
        vals[i],
    ) by {
        assert(node.lookup(keys[i]) == below.lookup(sub[i]));
    }
    assert forall|i: int| 0 <= i < keys.len() implies end.lookup(#[trigger] keys[i]) == Some(
        ends[i],
    ) by {
        assert(end.lookup(keys[i]) == below_end.lookup(sub[i]));
    }
    assert forall|k: Seq<Key>| !keys.contains(k) implies #[trigger] end.lookup(k) == node.lookup(
        k,
    ) by {
        if k.len() > 0 && k[0] == atom {
            assert(end.lookup(k) == below_end.lookup(k.drop_first()));
            assert(node.lookup(k) == below.lookup(k.drop_first()));
        } else if k.len() > 0 {
            assert(end.children@.contains_key(k[0]) == node.children@.contains_key(k[0]));
        }
    }
}

/// Where the walk leaves the tree nothing is listed.
pub(crate) proof fn lemma_listed_nothing<V>(node: Node<V>, end: Node<V>, key: Seq<Key>)
    requires
        key.len() > 0,
        !node.children@.contains_key(key[0]),
        end.value == node.value,
        end.children@ == node.children@,
    ensures
        listed(node, end, key, Seq::empty(), Seq::empty(), Seq::empty()),
{
    reveal(listed);
    let keys = Seq::<Seq<Key>>::empty();
    assert forall|k: Seq<Key>| #[trigger] end.lookup(k) == node.lookup(k) by {}
    assert forall|k: Seq<Key>| key.is_prefix_of(k) implies node.lookup(k) is None by {
        assert(key[0] == k.subrange(0, key.len() as int)[0]);
    }
}

/// The value at the root of a node, if it has one, is all that is gathered before any
/// child is seen.
pub(crate) proof fn lemma_gathered_root<V>(
    node: Node<V>,
    end: Node<V>,
    keys: Seq<Seq<Key>>,
    vals: Seq<V>,
    ends: Seq<V>,
)
    requires
        match node.value {
            Some(v) => {
                &&& keys.len() == 1
                &&& keys[0].len() == 0
                &&& vals.len() == 1
                &&& vals[0] == v
                &&& ends.len() == 1
                &&& end.value == Some(ends[0])
            },
            None => keys.len() == 0 && vals.len() == 0 && ends.len() == 0 && end.value is None,
        },
    ensures
        gathered(node, end, Set::empty(), keys, vals, ends),
{
    reveal(gathered);
    assert forall|k: Seq<Key>|
        #![trigger keys.contains(k)]
        keys.contains(k) <==> node.lookup(k) is Some && k.len() == 0 by {
        if k.len() == 0 {
            assert(k =~= Seq::<Key>::empty());
            if node.value is Some {
                assert(keys[0] == k);
            }
        }
    }
}

/// What is listed below a child that was not yet seen joins what was gathered.
pub(crate) proof fn lemma_gathered_more<V>(
    node: Node<V>,
    end: Node<V>,
    seen: Set<Key>,
    atom: Key,
    done: Seq<Seq<Key>>,
    done_vals: Seq<V>,
    done_ends: Seq<V>,
    sub: Seq<Seq<Key>>,
    sub_vals: Seq<V>,
    sub_ends: Seq<V>,
)
    requires
        !seen.contains(atom),
        node.children@.contains_key(atom),
        end.children@.contains_key(atom),
        gathered(node, end, seen, done, done_vals, done_ends),
        listed(
            node.children@[atom],
            end.children@[atom],
            Seq::empty(),
            sub,
            sub_vals,
            sub_ends,
        ),
    ensures
        gathered(
            node,
            end,
            seen.insert(atom),
            done + sub.map_values(|k: Seq<Key>| cons(atom, k)),
            done_vals + sub_vals,
            done_ends + sub_ends,
        ),
{
    reveal(listed);
    reveal(gathered);
    let below = node.children@[atom];
    let below_end = end.children@[atom];
    let more = sub.map_values(|k: Seq<Key>| cons(atom, k));
    let keys = done + more;
    let vals = done_vals + sub_vals;
    let ends = done_ends + sub_ends;
    let none = Seq::<Key>::empty();
    assert forall|k: Seq<Key>| none.is_prefix_of(k) by {
        assert(none =~= k.subrange(0, 0));
    }
    assert forall|i: int| 0 <= i < more.len() implies {
        &&& (#[trigger] more[i]).len() > 0
        &&& more[i][0] == atom
        &&& more[i].drop_first() == sub[i]
    } by {
        lemma_cons(atom, sub[i]);
    }
    assert forall|k: Seq<Key>| k.len() > 0 && k[0] == atom implies (more.contains(k)
        <==> sub.contains(k.drop_first())) by {
        lemma_uncons(k);
        if sub.contains(k.drop_first()) {
            let i = choose|i: int| 0 <= i < sub.len() && sub[i] == k.drop_first();
            assert(more[i] == k);
        }
    }
    assert forall|k: Seq<Key>| keys.contains(k) <==> done.contains(k) || more.contains(k) by {
        if done.contains(k) {
            let i = choose|i: int| 0 <= i < done.len() && done[i] == k;
            assert(keys[i] == k);
        }
        if more.contains(k) {
            let i = choose|i: int| 0 <= i < more.len() && more[i] == k;
            assert(keys[done.len() + i] == k);
        }
    }
    assert forall|i: int| 0 <= i < done.len() implies (#[trigger] done[i]).len() == 0
        || done[i][0] != atom by {
        assert(done.contains(done[i]));
    }
    assert(in_turn(keys)) by {
        lemma_in_turn_cons(sub, atom, more);
        lemma_in_turn_append(done, more, atom);
    }
    assert(parents_first(keys)) by {
        assert forall|a: int, b: int| 0 <= a < b < keys.len() implies !(
        #[trigger] keys[b]).is_prefix_of(#[trigger] keys[a]) by {
            if a >= done.len() {
                lemma_tail_prefix(more[b - done.len()], more[a - done.len()]);
            } else if b >= done.len() {
                if keys[b].is_prefix_of(keys[a]) {
                    assert(keys[b][0] == keys[a].subrange(0, keys[b].len() as int)[0]);
                }
            }
        }
    }
    assert(keys.no_duplicates()) by {
        assert forall|i: int, j: int|
            0 <= i < keys.len() && 0 <= j < keys.len() && i != j implies keys[i] != keys[j] by {
            if i >= done.len() && j >= done.len() {
                assert(more[i - done.len()].drop_first() != more[j - done.len()].drop_first());
            }
        }
    }
    assert forall|k: Seq<Key>|
        #![trigger keys.contains(k)]
        keys.contains(k) <==> node.lookup(k) is Some && (k.len() == 0 || seen.insert(
            atom,
        ).contains(k[0])) by {
        if k.len() > 0 && k[0] == atom {
            assert(node.lookup(k) == below.lookup(k.drop_first()));
            assert(!done.contains(k));
        } else {
            assert(!more.contains(k));
        }
    }
    assert forall|i: int| 0 <= i < keys.len() implies node.lookup(#[trigger] keys[i]) == Some(
        vals[i],
    ) by {
        if i >= done.len() {
            let s = i - done.len();
            assert(keys[i] == more[s]);
            assert(node.lookup(more[s]) == below.lookup(sub[s]));
        } else {
            assert(keys[i] == done[i]);
        }
    }
    assert forall|i: int| 0 <= i < keys.len() implies end.lookup(#[trigger] keys[i]) == Some(
        ends[i],
    ) by {
        if i >= done.len() {
            let s = i - done.len();
            assert(keys[i] == more[s]);
            assert(end.lookup(more[s]) == below_end.lookup(sub[s]));
        } else {
            assert(keys[i] == done[i]);
        }
    }
    assert forall|p: Seq<Key>|
        #![trigger end.descend(p)]
        p.len() == 0 || seen.insert(atom).contains(p[0]) implies (end.descend(p) is Some
        <==> node.descend(p) is Some) by {
        if p.len() > 0 && p[0] == atom {
            assert(end.descend(p) == below_end.descend(p.drop_first()));
            assert(node.descend(p) == below.descend(p.drop_first()));
        }
    }
    assert forall|k: Seq<Key>|
        !keys.contains(k) && (k.len() == 0 || seen.insert(atom).contains(
            k[0],
        )) implies #[trigger] end.lookup(k) == node.lookup(k) by {
        assert(!done.contains(k));
        if k.len() > 0 && k[0] == atom {
            assert(end.lookup(k) == below_end.lookup(k.drop_first()));
            assert(node.lookup(k) == below.lookup(k.drop_first()));
            assert(!sub.contains(k.drop_first()));
        }
    }
}

/// Once every child has been seen, what was gathered lists the whole subtree.
pub(crate) proof fn lemma_gathered_all<V>(
    node: Node<V>,
    end: Node<V>,
    seen: Set<Key>,
    keys: Seq<Seq<Key>>,
    vals: Seq<V>,
    ends: Seq<V>,
)
    requires
        gathered(node, end, seen, keys, vals, ends),
        end.children@.dom() == node.children@.dom(),
        forall|atom: Key| node.children@.contains_key(atom) ==> seen.contains(atom),
    ensures
        listed(node, end, Seq::empty(), keys, vals, ends),
{
    reveal(listed);
    reveal(gathered);
    let none = Seq::<Key>::empty();
    assert forall|k: Seq<Key>| none.is_prefix_of(k) by {
        assert(none =~= k.subrange(0, 0));
    }
    assert forall|k: Seq<Key>| !keys.contains(k) implies #[trigger] end.lookup(k) == node.lookup(
        k,
    ) by {
        if k.len() > 0 && !seen.contains(k[0]) {
            assert(!node.children@.contains_key(k[0]));
            assert(!end.children@.contains_key(k[0]));
        }
    }
}

impl<V> Node<V> {
    /// Walks `key` down from this node and lends the value at its end for writing.
    pub(crate) fn get_mut_helper(&mut self, key: &[Key]) -> (r: Option<&mut V>)
        ensures
            match r {
                Some(v) => {
                    &&& old(self).lookup(key@) == Some(*v)
                    &&& forall|k: Seq<Key>|
                        #![trigger final(self).lookup(k)]
                        final(self).lookup(k) == if k == key@ {
                            Some(*final(v))
                        } else {
                            old(self).lookup(k)
                        }
                },
                None => {
                    &&& old(self).lookup(key@) is None
                    &&& forall|k: Seq<Key>|
                        #![trigger final(self).lookup(k)]
                        final(self).lookup(k) == old(self).lookup(k)
                },
            },
            forall|p: Seq<Key>|
                #![trigger final(self).descend(p)]
                final(self).descend(p) is Some <==> old(self).descend(p) is Some,
        decreases key@.len(),
    {
        let ghost end = *final(self);
        if key.len() == 0 {
            let r = self.value.as_mut();
            proof {
                assert forall|p: Seq<Key>|
                    #![trigger end.descend(p)]
                    end.descend(p) is Some <==> old(self).descend(p) is Some by {}
                assert(end.lookup(key@) == end.value);
                assert forall|k: Seq<Key>| k != key@ implies #[trigger] end.lookup(k) == old(
                    self,
                ).lookup(k) by {
                    if k.len() == 0 {
                        assert(k =~= key@);
                    }
                }
            }
            r
        } else {
            let rest = &key[1..key.len()];
            assert(rest@ == key@.drop_first());
            match child_mut(&mut self.children, key[0]) {
                Some(child) => {
                    let r = child.get_mut_helper(rest);
                    proof {
                        lemma_same_shape(*old(self), end, key@[0]);
                        assert(end.lookup(key@) == end.children@[key@[0]].lookup(rest@));
                        assert(old(self).lookup(key@) == old(self).children@[key@[0]].lookup(
                            rest@,
                        ));
                        assert forall|k: Seq<Key>| k != key@ implies #[trigger] end.lookup(k)
                            == old(self).lookup(k) by {
                            if k.len() > 0 && k[0] == key@[0] {
                                lemma_same_head(k, key@);
                                assert(end.children@[k[0]].lookup(k.drop_first()) == end.lookup(k));
                            } else if k.len() > 0 {
                                assert(end.children@.contains_key(k[0]) == old(
                                    self,
                                ).children@.contains_key(k[0]));
                            }
                        }
                    }
                    r
                },
                None => {
                    proof {
                        assert forall|p: Seq<Key>|
                            #![trigger end.descend(p)]
                            end.descend(p) is Some <==> old(self).descend(p) is Some by {}
                        assert forall|k: Seq<Key>| #[trigger] end.lookup(k) == old(self).lookup(
                            k,
                        ) by {
                            if k.len() > 0 {
                                assert(end.children@.contains_key(k[0]) == old(
                                    self,
                                ).children@.contains_key(k[0]));
                            }
                        }
                    }
                    None
                },
            }
        }
    }

    /// Walks `key` down from this node and appends to `out`, for writing, every value at
    /// or below the node where the walk ends, the value of a key before the values of
    /// the keys that go on from it. The keys of those values, as read from this node,
    /// are returned in the order of the references.
    pub(crate) fn iter_mut_helper<'a>(
        &'a mut self,
        key: &[Key],
        out: &mut Vec<&'a mut V>,
    ) -> (keys: Ghost<Seq<Seq<Key>>>)
        ensures
            final(out)@.len() == old(out)@.len() + keys@.len(),
            forall|i: int| 0 <= i < old(out)@.len() ==> final(out)@[i] == old(out)@[i],
            listed(
                *old(self),
                *final(self),
                key@,
                keys@,
                Seq::new(keys@.len(), |i: int| *final(out)@[old(out)@.len() + i]),
                Seq::new(keys@.len(), |i: int| *final(final(out)@[old(out)@.len() + i])),
            ),
        decreases key@.len(), *old(self),
    {
        let ghost end = *final(self);
        let ghost n0 = out@.len();
        if key.len() > 0 {
            let rest = &key[1..key.len()];
            assert(rest@ == key@.drop_first());
            match child_mut(&mut self.children, key[0]) {
                Some(child) => {
                    let sub = child.iter_mut_helper(rest, out);
                    let ghost keys = sub@.map_values(|k: Seq<Key>| cons(key@[0], k));
                    proof {
                        let vals = Seq::new(sub@.len(), |i: int| *out@[n0 + i]);
                        let ends = Seq::new(sub@.len(), |i: int| *final(out@[n0 + i]));
                        assert(end.children@.dom() =~= old(self).children@.dom());
                        lemma_listed_below(*old(self), end, key@, sub@, vals, ends);
                        assert(Seq::new(keys.len(), |i: int| *out@[n0 + i]) =~= vals);
                        assert(Seq::new(keys.len(), |i: int| *final(out@[n0 + i])) =~= ends);
                    }
                    Ghost(keys)
                },
                None => {
                    proof {
                        lemma_listed_nothing(*old(self), end, key@);
                        assert(Seq::new(0, |i: int| *out@[n0 + i]) =~= Seq::<V>::empty());
                        assert(Seq::new(0, |i: int| *final(out@[n0 + i])) =~= Seq::<V>::empty());
                    }
                    Ghost(Seq::empty())
                },
            }
        } else {
            let ghost mut keys = Seq::<Seq<Key>>::empty();
            let ghost mut seen = Set::<Key>::empty();
            let Node { value, children } = self;
            match value.as_mut() {
                Some(v) => {
                    out.push(v);
                    proof {
                        keys = keys.push(Seq::empty());
                    }
                },
                None => {},
            }
            let mut kids = children_mut(children);
            let ghost all = kids@;
            proof {
                lemma_gathered_root(
                    *old(self),
                    end,
                    keys,
                    Seq::new(keys.len(), |i: int| *out@[n0 + i]),
                    Seq::new(keys.len(), |i: int| *final(out@[n0 + i])),
                );
            }
            while kids.len() > 0
                invariant
                    key@.len() == 0,
                    n0 == old(out)@.len(),
                    out@.len() == n0 + keys.len(),
                    forall|i: int| 0 <= i < n0 ==> out@[i] == old(out)@[i],
                    kids@.len() <= all.len(),
                    forall|i: int| 0 <= i < kids@.len() ==> kids@[i] == all[i],
                    forall|i: int, j: int| 0 <= i < j < all.len() ==> all[i].0 != all[j].0,
                    forall|i: int|
                        0 <= i < all.len() ==> old(self).children@.contains_key(
                            #[trigger] all[i].0,
                        ) && *all[i].1 == old(self).children@[all[i].0],
                    forall|atom: Key|
                        old(self).children@.contains_key(atom) ==> exists|i: int|
                            0 <= i < all.len() && #[trigger] all[i].0 == atom,
                    end.children@.dom() == old(self).children@.dom(),
                    forall|i: int|
                        0 <= i < all.len() ==> end.children@[#[trigger] all[i].0] == *final(
                            all[i].1
                        ),
                    forall|atom: Key|
                        seen.contains(atom) <==> exists|j: int|
                            kids@.len() <= j < all.len() && #[trigger] all[j].0 == atom,
                    gathered(
                        *old(self),
                        end,
                        seen,
                        keys,
                        Seq::new(keys.len(), |i: int| *out@[n0 + i]),
                        Seq::new(keys.len(), |i: int| *final(out@[n0 + i])),
                    ),
                decreases kids.len(),
            {
                let ghost done = keys;
                let ghost filled = out@;
                let (atom, child) = kids.pop().unwrap();
                let ghost at = kids@.len() as int;
                assert(all[at].0 == atom && all[at].1 == child);
                proof {
                    assert(decreases_to!(*old(self) => old(self).children));
                    assert(decreases_to!(old(self).children => old(self).children@));
                    assert(decreases_to!(old(self).children@ => old(self).children@[atom]));
                }
                let sub = child.iter_mut_helper(key, out);
                proof {
                    assert(!seen.contains(atom)) by {
                        if seen.contains(atom) {
                            let j = choose|j: int|
                                at + 1 <= j < all.len() && #[trigger] all[j].0 == atom;
                            assert(all[at].0 != all[j].0);
                        }
                    }
                    let done_vals = Seq::new(done.len(), |i: int| *filled[n0 + i]);
                    let done_ends = Seq::new(done.len(), |i: int| *final(filled[n0 + i]));
                    let sub_vals = Seq::new(sub@.len(), |i: int| *out@[filled.len() + i]);
                    let sub_ends = Seq::new(sub@.len(), |i: int| *final(out@[filled.len() + i]));
                    assert(key@ =~= Seq::<Key>::empty());
                    lemma_gathered_more(
                        *old(self),
                        end,
                        seen,
                        atom,
                        done,
                        done_vals,
                        done_ends,
                        sub@,
                        sub_vals,
                        sub_ends,
                    );
                    keys = done + sub@.map_values(|k: Seq<Key>| cons(atom, k));
                    assert(Seq::new(keys.len(), |i: int| *out@[n0 + i]) =~= done_vals + sub_vals);
                    assert(Seq::new(keys.len(), |i: int| *final(out@[n0 + i])) =~= done_ends
                        + sub_ends);
                    let before = seen;
                    seen = seen.insert(atom);
                    assert forall|a: Key|
                        seen.contains(a) <==> exists|j: int|
                            kids@.len() <= j < all.len() && #[trigger] all[j].0 == a by {
                        if before.contains(a) {
                            let j = choose|j: int|
                                at + 1 <= j < all.len() && #[trigger] all[j].0 == a;
                            assert(kids@.len() <= j);
                        }
                        if exists|j: int| kids@.len() <= j < all.len() && #[trigger] all[j].0 == a {
                            let j = choose|j: int|
                                kids@.len() <= j < all.len() && #[trigger] all[j].0 == a;
                            if j != at {
                                assert(at + 1 <= j);
                            }
                        }
                    }
                }
            }
            proof {
                assert forall|atom: Key|
                    old(self).children@.contains_key(atom) implies seen.contains(atom) by {
                    let j = choose|j: int| 0 <= j < all.len() && #[trigger] all[j].0 == atom;
                }
                lemma_gathered_all(
                    *old(self),
                    end,
                    seen,
                    keys,
                    Seq::new(keys.len(), |i: int| *out@[n0 + i]),
                    Seq::new(keys.len(), |i: int| *final(out@[n0 + i])),
                );
                assert(key@ =~= Seq::<Key>::empty());
            }
            Ghost(keys)
        }
    }
}

} // verus!
