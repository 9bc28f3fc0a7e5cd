use crate::atoms::Key;
use crate::iter::Iter;
use crate::keys::cons;
use crate::keys::lemma_cons;
use crate::keys::lemma_same_head;
use crate::keys::lemma_step_prefix;
use crate::keys::lemma_tail_prefix;
use crate::keys::lemma_uncons;
use std::collections::hash_map::Entry;
use std::collections::HashMap;
use vstd::prelude::*;
use vstd::set_lib::lemma_set_subset_finite;
use vstd::std_specs::hash::*;

verus! {

broadcast use vstd::std_specs::hash::group_hash_axioms;

/// A node of the tree: the value of the key that ends here, if there is one, and one
/// child for each atom by which a longer key continues.
pub(crate) struct Node<V> {
    pub(crate) value: Option<V>,
    pub(crate) children: HashMap<Key, Node<V>>,
}

impl<V> Node<V> {
    /// The value found by walking `key` down from this node.
    pub(crate) open spec fn lookup(self, key: Seq<Key>) -> Option<V>
        decreases key.len(),
    {
        if key.len() == 0 {
            self.value
        } else if self.children@.contains_key(key[0]) {
            self.children@[key[0]].lookup(key.drop_first())
        } else {
            None
        }
    }

    /// The value that this node, standing at `path`, holds for the full key `key`.
    pub(crate) open spec fn find(self, path: Seq<Key>, key: Seq<Key>) -> Option<V> {
        if path.is_prefix_of(key) {
            self.lookup(key.skip(path.len() as int))
        } else {
            None
        }
    }

    /// The node reached by walking `key` down from this node.
    pub(crate) open spec fn descend(self, key: Seq<Key>) -> Option<Node<V>>
        decreases key.len(),
    {
        if key.len() == 0 {
            Some(self)
        } else if self.children@.contains_key(key[0]) {
            self.children@[key[0]].descend(key.drop_first())
        } else {
            None
        }
    }

    /// The keys below this node that begin with `prefix` and have a value, in the order
    /// in which a walk from `prefix` meets them.
    pub(crate) open spec fn walk(self, prefix: Seq<Key>) -> Seq<Seq<Key>> {
        match self.descend(prefix) {
            Some(node) => node.flat(prefix),
            None => seq![],
        }
    }

    /// The children of this node, each with its atom, in the order in which the node
    /// hands them out.
    pub(crate) open spec fn kids(self) -> Seq<(Key, Node<V>)> {
        into_iter(spec_hash_map_iter(&self.children))
    }

    /// The keys that have a value in this subtree, which stands at `path`, in the order
    /// in which a walk meets them: the key of the node itself first, then the keys below
    /// the child handed out last, and so on to those below the child handed out first.
    pub(crate) open spec fn flat(self, path: Seq<Key>) -> Seq<Seq<Key>>
        decreases self, self.kids().len() + 1,
    {
        let head = if self.value is Some {
            seq![path]
        } else {
            seq![]
        };
        head + self.flat_kids(path, self.kids().len())
    }

    /// The part of `flat` that lies below the first `n` children handed out.
    pub(crate) open spec fn flat_kids(self, path: Seq<Key>, n: nat) -> Seq<Seq<Key>>
        decreases self, n,
    {
        if n == 0 {
            seq![]
        } else {
            let atom = self.kids()[n - 1].0;
            let rest = self.flat_kids(path, (n - 1) as nat);
            if self.children@.contains_key(atom) {
                self.children@[atom].flat(path.push(atom)) + rest
            } else {
                rest
            }
        }
    }

    /// The number of nodes in this subtree.
    pub(crate) open spec fn count(self) -> nat
        decreases self, 257nat,
    {
        1 + self.weight(Set::empty(), 256)
    }

    /// The number of nodes below the children whose atom is under `bound` and not in `done`.
    pub(crate) open spec fn weight(self, done: Set<Key>, bound: nat) -> nat
        decreases self, bound,
    {
        if bound == 0 {
            0
        } else {
            let atom = (bound - 1) as Key;
            let rest = self.weight(done, (bound - 1) as nat);
            if self.children@.contains_key(atom) && !done.contains(atom) {
                rest + self.children@[atom].count()
            } else {
                rest
            }
        }
    }

    /// A node stands wherever a value does, and at every prefix of a path at which a
    /// node stands.
    pub(crate) proof fn lemma_nodes(self, key: Seq<Key>, prefix: Seq<Key>)
        ensures
            self.lookup(key) is Some ==> self.descend(key) is Some,
            self.descend(key) is Some && prefix.is_prefix_of(key) ==> self.descend(prefix) is Some,
        decreases key.len(),
    {
        if key.len() > 0 && self.children@.contains_key(key[0]) {
            if prefix.len() > 0 && prefix.is_prefix_of(key) {
                assert(prefix[0] == key.subrange(0, prefix.len() as int)[0]);
                lemma_tail_prefix(prefix, key);
            }
            self.children@[key[0]].lemma_nodes(key.drop_first(), prefix.drop_first());
        }
    }

    /// The keys that have a value below this node.
    pub(crate) open spec fn stored(self) -> Set<Seq<Key>> {
        Set::new(|k: Seq<Key>| self.lookup(k) is Some)
    }

    /// The keys that have a value below the children of this node whose atom is under
    /// `bound`.
    pub(crate) open spec fn stored_under(self, bound: nat) -> Set<Seq<Key>> {
        Set::new(|k: Seq<Key>| k.len() > 0 && k[0] < bound && self.lookup(k) is Some)
    }

    /// A node holds values for finitely many keys.
    pub(crate) proof fn lemma_stored_finite(self)
        ensures
            self.stored().finite(),
        decreases self, 257nat,
    {
        self.lemma_stored_under_finite(256);
        let all = self.stored_under(256).insert(Seq::empty());
        assert(self.stored().subset_of(all)) by {
            assert forall|k: Seq<Key>| self.stored().contains(k) implies all.contains(k) by {
                if k.len() == 0 {
                    assert(k =~= Seq::<Key>::empty());
                }
            }
        }
        lemma_set_subset_finite(all, self.stored());
    }

    /// The children of a node whose atom is under `bound` hold values for finitely many
    /// keys.
    pub(crate) proof fn lemma_stored_under_finite(self, bound: nat)
        requires
            bound <= 256,
        ensures
            self.stored_under(bound).finite(),
        decreases self, bound,
    {
        if bound == 0 {
            assert(self.stored_under(bound) =~= Set::<Seq<Key>>::empty());
        } else {
            let atom = (bound - 1) as Key;
            let rest = self.stored_under((bound - 1) as nat);
            self.lemma_stored_under_finite((bound - 1) as nat);
            if self.children@.contains_key(atom) {
                let child = self.children@[atom];
                let tails = child.stored();
                let put = |k: Seq<Key>| cons(atom, k);
                child.lemma_stored_finite();
                tails.lemma_map_finite(put);
                assert(self.stored_under(bound) =~= rest.union(tails.map(put))) by {
                    assert forall|k: Seq<Key>|
                        self.stored_under(bound).contains(k) <==> rest.contains(k) || tails.map(
                            put,
                        ).contains(k) by {
                        if k.len() > 0 && k[0] == atom {
                            lemma_uncons(k);
                            assert(self.lookup(k) == child.lookup(k.drop_first()));
                            if self.lookup(k) is Some {
                                assert(tails.contains(k.drop_first()));
                            }
                        }
                        if tails.map(put).contains(k) {
                            let tail = choose|tail: Seq<Key>| tails.contains(tail) && k == put(tail);
                            lemma_cons(atom, tail);
                        }
                    }
                }
            } else {
                assert(self.stored_under(bound) =~= rest);
            }
        }
    }

    /// A node with no value and no child.
    pub(crate) fn new() -> (node: Self)
        ensures
            forall|k: Seq<Key>| node.lookup(k) is None,
            forall|p: Seq<Key>| node.descend(p) is Some <==> p.len() == 0,
    {
        Node { value: None, children: HashMap::new() }
    }

    /// Walks `key` down from this node and returns the value at its end.
    pub(crate) fn get_helper(&self, key: &[Key]) -> (r: Option<&V>)
        ensures
            r == match self.lookup(key@) {
                Some(v) => Some(&v),
                None => None,
            },
        decreases key@.len(),
    {
        if key.len() == 0 {
            self.value.as_ref()
        } else {
            match self.children.get(&key[0]) {
                Some(child) => {
                    let rest = &key[1..key.len()];
                    assert(rest@ == key@.drop_first());
                    child.get_helper(rest)
                },
                None => None,
            }
        }
    }

    /// Walks `key` down from this node and starts a walk over the values at or below
    /// the node where it ends. A key that leaves the tree gives a walk with no values.
    pub(crate) fn iter_helper<'a>(&'a self, key: &[Key]) -> (it: Iter<'a, V>)
        ensures
            forall|k: Seq<Key>|
                #![trigger it@.contains_key(k)]
                it@.contains_key(k) <==> key@.is_prefix_of(k) && self.lookup(k) is Some,
            forall|k: Seq<Key>|
                #![trigger it@[k]]
                it@.contains_key(k) ==> it@[k] == self.lookup(k)->0,
            it.order() == self.walk(key@),
    {
        let mut node = self;
        let mut i: usize = 0;
        proof {
            assert forall|k: Seq<Key>| #[trigger] k.skip(0) == k by {
                assert(k.skip(0) =~= k);
            }
        }
        while i < key.len()
            invariant
                i <= key.len(),
                self.descend(key@) == node.descend(key@.skip(i as int)),
                forall|k: Seq<Key>|
                    key@.subrange(0, i as int).is_prefix_of(k) ==> self.lookup(k) == node.lookup(
                        #[trigger] k.skip(i as int),
                    ),
            decreases key.len() - i,
        {
            let ghost upper = *node;
            match node.children.get(&key[i]) {
                Some(child) => {
                    node = child;
                },
                None => {
                    proof {
                        assert forall|k: Seq<Key>| key@.is_prefix_of(k) implies self.lookup(
                            k,
                        ) is None by {
                            lemma_step_prefix(key@, i as int, k);
                        }
                    }
                    return Iter::empty();
                },
            }
            proof {
                assert(key@.skip(i as int).drop_first() =~= key@.skip(i + 1));
                assert forall|k: Seq<Key>|
                    key@.subrange(0, i + 1).is_prefix_of(k) implies self.lookup(k) == node.lookup(
                    #[trigger] k.skip(i + 1),
                ) by {
                    lemma_step_prefix(key@.subrange(0, i + 1), i as int, k);
                    assert(key@.subrange(0, i + 1).subrange(0, i as int) =~= key@.subrange(
                        0,
                        i as int,
                    ));
                    assert(k.skip(i as int).drop_first() =~= k.skip(i + 1));
                    assert(self.lookup(k) == upper.lookup(k.skip(i as int)));
                }
            }
            i += 1;
        }
        proof {
            assert(key@.subrange(0, i as int) =~= key@);
            assert(key@.skip(i as int) =~= Seq::<Key>::empty());
        }
        Iter::rooted(node, Ghost(key@))
    }

    /// Walks `key` down from this node, linking an empty node wherever a child is
    /// missing, and lends the value slot of the node at its end.
    pub(crate) fn slot(&mut self, key: &[Key]) -> (slot: &mut Option<V>)
        ensures
            *slot == old(self).lookup(key@),
            forall|k: Seq<Key>|
                #![trigger final(self).lookup(k)]
                final(self).lookup(k) == if k == key@ {
                    *final(slot)
                } else {
                    old(self).lookup(k)
                },
            forall|p: Seq<Key>|
                #![trigger final(self).descend(p)]
                final(self).descend(p) is Some <==> old(self).descend(p) is Some
                    || p.is_prefix_of(key@),
        decreases key@.len(),
    {
        let ghost end = *final(self);
        if key.len() == 0 {
            let slot = &mut self.value;
            proof {
                assert forall|p: Seq<Key>|
                    #![trigger end.descend(p)]
                    end.descend(p) is Some <==> old(self).descend(p) is Some || p.is_prefix_of(
                        key@,
                    ) by {
                    if p.len() == 0 {
                        assert(p =~= key@.subrange(0, 0));
                    }
                }
                assert(end.lookup(key@) == end.value);
                assert forall|k: Seq<Key>| k != key@ implies #[trigger] end.lookup(k) == old(
                    self,
                ).lookup(k) by {
                    if k.len() == 0 {
                        assert(k =~= key@);
                    }
                }
            }
            slot
        } else {
            let rest = &key[1..key.len()];
            assert(rest@ == key@.drop_first());
            let child = match self.children.entry(key[0]) {
                Entry::Occupied(entry) => entry.into_mut(),
                Entry::Vacant(entry) => entry.insert(Node::new()),
            };
            let slot = child.slot(rest);
            proof {
                assert forall|p: Seq<Key>|
                    #![trigger end.descend(p)]
                    end.descend(p) is Some <==> old(self).descend(p) is Some || p.is_prefix_of(
                        key@,
                    ) by {
                    if p.len() == 0 {
                        assert(p =~= key@.subrange(0, 0));
                    } else if p[0] == key@[0] {
                        lemma_tail_prefix(p, key@);
                        assert(end.descend(p) == end.children@[p[0]].descend(p.drop_first()));
                        if !old(self).children@.contains_key(p[0]) && p.len() == 1 {
                            assert(p.drop_first() =~= rest@.subrange(0, 0));
                        }
                    } else {
                        assert(end.children@.contains_key(p[0]) == old(
                            self,
                        ).children@.contains_key(p[0]));
                        if p.is_prefix_of(key@) {
                            assert(p[0] == key@.subrange(0, p.len() as int)[0]);
                        }
                    }
                }
                assert(end.lookup(key@) == end.children@[key@[0]].lookup(rest@));
                assert forall|k: Seq<Key>| k != key@ implies #[trigger] end.lookup(k) == old(
                    self,
                ).lookup(k) by {
                    if k.len() > 0 && k[0] == key@[0] {
                        lemma_same_head(k, key@);
                        assert(end.children@[k[0]].lookup(k.drop_first()) == end.lookup(k));
                    } else if k.len() > 0 {
                        assert(end.children@.contains_key(k[0]) == old(
                            self,
                        ).children@.contains_key(k[0]));
                    }
                }
            }
            slot
        }
    }

    /// Stores `val` under `key` below this node and returns the value it displaces.
    pub(crate) fn insert_helper(&mut self, key: &[Key], val: V) -> (prior: Option<V>)
        ensures
            prior == old(self).lookup(key@),
            forall|k: Seq<Key>|
                #![trigger final(self).lookup(k)]
                final(self).lookup(k) == if k == key@ {
                    Some(val)
                } else {
                    old(self).lookup(k)
                },
            forall|p: Seq<Key>|
                #![trigger final(self).descend(p)]
                final(self).descend(p) is Some <==> old(self).descend(p) is Some
                    || p.is_prefix_of(key@),
    {
        let slot = self.slot(key);
        let prior = slot.take();
        *slot = Some(val);
        prior
    }
}

} // verus!
