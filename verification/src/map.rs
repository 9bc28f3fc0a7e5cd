use crate::atoms::Atoms;
use crate::atoms::Key;
use crate::iter::Iter;
use crate::iter::IterMut;
use crate::lend::listed;
use crate::node::Node;
use crate::order::enumerates;
use crate::order::in_turn;
use crate::order::parents_first;
use std::borrow::Borrow;
use std::marker::PhantomData;
use vstd::prelude::*;

verus! {

/// The entries of `entries` whose key begins with `prefix`.
pub open spec fn with_prefix<V>(entries: Map<Seq<Key>, V>, prefix: Seq<Key>) -> Map<Seq<Key>, V> {
    entries.restrict(Set::new(|k: Seq<Key>| prefix.is_prefix_of(k)))
}

/// A map from keys, read as sequences of atoms, to values, kept as a prefix tree.
///
/// `K` is the type of key that the map is meant for; a key is handed in as anything
/// that `K` can be borrowed as and that spells atoms. The empty key is a key like any
/// other.
pub struct TrieMap<K, V> {
    root: Node<V>,
    key: PhantomData<K>,
}

impl<K, V> View for TrieMap<K, V> {
    type V = Map<Seq<Key>, V>;

    /// The entries of the map, each under the atoms of its key.
    closed spec fn view(&self) -> Map<Seq<Key>, V> {
        Map::new(|k: Seq<Key>| self.root.lookup(k) is Some, |k: Seq<Key>| self.root.lookup(k)->0)
    }
}

impl<K, V> TrieMap<K, V> {
    /// The keys that begin with `prefix`, in the order in which a walk from `prefix`
    /// meets their values. The order is settled by the map as it stands: as long as the
    /// map is not changed, every walk from `prefix` goes this way.
    pub closed spec fn walk(&self, prefix: Seq<Key>) -> Seq<Seq<Key>> {
        self.root.walk(prefix)
    }

    /// Whether a node of the tree stands at `path`. A node stands at the empty path, and
    /// at every prefix of every key that was stored since the map was last empty; a
    /// node is made for each atom of a key and is taken away only when the map is
    /// cleared.
    pub closed spec fn has_node(&self, path: Seq<Key>) -> bool {
        self.root.descend(path) is Some
    }

    /// A node stands at the empty path, wherever a key has its value, and at every prefix
    /// of a path at which a node stands.
    pub proof fn lemma_nodes(&self, key: Seq<Key>, prefix: Seq<Key>)
        ensures
            self.has_node(Seq::empty()),
            self@.contains_key(key) ==> self.has_node(key),
            self.has_node(key) && prefix.is_prefix_of(key) ==> self.has_node(prefix),
    {
        self.root.lemma_nodes(key, prefix);
    }

    /// The map has finitely many entries.
    pub proof fn lemma_finite(&self)
        ensures
            self@.dom().finite(),
    {
        self.root.lemma_stored_finite();
        assert(self@.dom() =~= self.root.stored());
    }

    /// An empty map.
    pub fn new() -> (trie: Self)
        ensures
            trie@ == Map::<Seq<Key>, V>::empty(),
            forall|p: Seq<Key>| #[trigger] trie.has_node(p) <==> p.len() == 0,
    {
        TrieMap { root: Node::new(), key: PhantomData }
    }

    /// Removes every entry.
    pub fn clear(&mut self)
        ensures
            final(self)@ == Map::<Seq<Key>, V>::empty(),
            forall|p: Seq<Key>| #[trigger] final(self).has_node(p) <==> p.len() == 0,
    {
        self.root = Node::new();
    }

    /// Whether `key` has a value.
    pub fn contains<T: Atoms + ?Sized>(&self, key: &T) -> (r: bool) where K: Borrow<T>
        ensures
            r == self@.contains_key(key.atoms()),
    {
        self.get(key).is_some()
    }

    /// Stores `val` under `key` and returns the value that `key` had before, if any.
    pub fn insert<T: Atoms + ?Sized>(&mut self, key: &T, val: V) -> (prior: Option<V>) where
        K: Borrow<T>,

        ensures
            prior == old(self)@.get(key.atoms()),
            final(self)@ == old(self)@.insert(key.atoms(), val),
            forall|p: Seq<Key>|
                #![trigger final(self).has_node(p)]
                final(self).has_node(p) <==> old(self).has_node(p) || p.is_prefix_of(
                    key.atoms(),
                ),
    {
        self.root.insert_helper(key.as_atoms(), val)
    }

    /// Lends the place where the value of `key` stands, making room for it in the tree
    /// if `key` has none: what is left there is the value of `key` afterwards.
    pub(crate) fn slot<T: Atoms + ?Sized>(&mut self, key: &T) -> (slot: &mut Option<V>)
        ensures
            *slot == old(self)@.get(key.atoms()),
            final(self)@ == match *final(slot) {
                Some(v) => old(self)@.insert(key.atoms(), v),
                None => old(self)@.remove(key.atoms()),
            },
            forall|p: Seq<Key>|
                #![trigger final(self).has_node(p)]
                final(self).has_node(p) <==> old(self).has_node(p) || p.is_prefix_of(
                    key.atoms(),
                ),
    {
        self.root.slot(key.as_atoms())
    }

    /// The value of `key`, if it has one.
    pub fn get<T: Atoms + ?Sized>(&self, key: &T) -> (r: Option<&V>) where K: Borrow<T>
        ensures
            r == match self@.get(key.atoms()) {
                Some(v) => Some(&v),
                None => None,
            },
    {
        self.root.get_helper(key.as_atoms())
    }

    /// The value of `key`, if it has one, lent for writing: what is written is the
    /// value of `key` afterwards.
    pub fn get_mut<T: Atoms + ?Sized>(&mut self, key: &T) -> (r: Option<&mut V>) where
        K: Borrow<T>,

        ensures
            match r {
                Some(v) => {
                    &&& old(self)@.contains_key(key.atoms())
                    &&& *v == old(self)@[key.atoms()]
                    &&& final(self)@ == old(self)@.insert(key.atoms(), *final(v))
                },
                None => {
                    &&& !old(self)@.contains_key(key.atoms())
                    &&& final(self)@ == old(self)@
                },
            },
            forall|p: Seq<Key>| #[trigger] final(self).has_node(p) <==> old(self).has_node(p),
    {
        self.root.get_mut_helper(key.as_atoms())
    }

    /// The value of `key`, which must have one.
    pub fn index<T: Atoms + ?Sized>(&self, key: &T) -> (r: &V) where K: Borrow<T>
        requires
            self@.contains_key(key.atoms()),
        ensures
            *r == self@[key.atoms()],
    {
        self.get(key).unwrap()
    }

    /// The value of `key`, which must have one, lent for writing: what is written is
    /// the value of `key` afterwards.
    pub fn index_mut<T: Atoms + ?Sized>(&mut self, key: &T) -> (r: &mut V) where K: Borrow<T>
        requires
            old(self)@.contains_key(key.atoms()),
        ensures
            *r == old(self)@[key.atoms()],
            final(self)@ == old(self)@.insert(key.atoms(), *final(r)),
            forall|p: Seq<Key>| #[trigger] final(self).has_node(p) <==> old(self).has_node(p),
    {
        self.get_mut(key).unwrap()
    }

    /// A walk over every value of the map.
    pub fn iter(&self) -> (it: Iter<'_, V>)
        ensures
            it@ == self@,
            it.order() == self.walk(Seq::empty()),
    {
        let none: [Key; 0] = [];
        let it = self.root.iter_helper(none.as_slice());
        proof {
            assert forall|k: Seq<Key>| none@.is_prefix_of(k) by {
                assert(none@ =~= k.subrange(0, 0));
            }
            assert(it@ =~= self@);
            assert(none@ =~= Seq::<Key>::empty());
        }
        it
    }

    /// Every value of the map, lent for writing: what is written through a reference
    /// is the value of its key afterwards. The references come in the order of a walk:
    /// that of a key before those of the keys that go on from it, and those of the keys
    /// that begin alike one after another.
    pub fn iter_mut(&mut self) -> (out: IterMut<'_, V>)
        ensures
            final(self)@.dom() == old(self)@.dom(),
            forall|p: Seq<Key>| #[trigger] final(self).has_node(p) <==> old(self).has_node(p),
            exists|keys: Seq<Seq<Key>>|
                {
                    &&& #[trigger] enumerates(keys, old(self)@)
                    &&& parents_first(keys)
                    &&& in_turn(keys)
                    &&& out@.len() == keys.len()
                    &&& forall|i: int|
                        0 <= i < keys.len() ==> *out@[i] == old(self)@[keys[i]] && *final(out@[i])
                            == final(self)@[keys[i]]
                },
    {
        let none: [Key; 0] = [];
        proof {
            assert(with_prefix(self@, none@) =~= self@) by {
                assert forall|k: Seq<Key>| none@.is_prefix_of(k) by {
                    assert(none@ =~= k.subrange(0, 0));
                }
            }
        }
        self.lend(none.as_slice())
    }

    /// A walk over the values of the keys that begin with `prefix`, `prefix` itself
    /// among them if it is a key.
    pub fn iter_prefix<T: Atoms + ?Sized>(&self, prefix: &T) -> (it: Iter<'_, V>) where
        K: Borrow<T>,

        ensures
            it@ == with_prefix(self@, prefix.atoms()),
            it.order() == self.walk(prefix.atoms()),
    {
        let it = self.root.iter_helper(prefix.as_atoms());
        proof {
            assert(it@ =~= with_prefix(self@, prefix.atoms()));
        }
        it
    }

    /// The values of the keys that begin with `prefix`, lent for writing: what is
    /// written through a reference is the value of its key afterwards, and the values
    /// of all other keys stay. The references come in the order of a walk.
    pub fn iter_prefix_mut<T: Atoms + ?Sized>(&mut self, prefix: &T) -> (out: IterMut<'_, V>) where
        K: Borrow<T>,

        ensures
            final(self)@.dom() == old(self)@.dom(),
            forall|p: Seq<Key>| #[trigger] final(self).has_node(p) <==> old(self).has_node(p),
            exists|keys: Seq<Seq<Key>>|
                {
                    &&& #[trigger] enumerates(keys, with_prefix(old(self)@, prefix.atoms()))
                    &&& parents_first(keys)
                    &&& in_turn(keys)
                    &&& out@.len() == keys.len()
                    &&& forall|i: int|
                        0 <= i < keys.len() ==> *out@[i] == old(self)@[keys[i]] && *final(out@[i])
                            == final(self)@[keys[i]]
                    &&& forall|k: Seq<Key>|
                        old(self)@.contains_key(k) && !keys.contains(k) ==> final(self)@[k] == old(
                            self,
                        )@[k]
                },
    {
        self.lend(prefix.as_atoms())
    }

    /// Gathers the references that `iter_mut` and `iter_prefix_mut` hand out.
    fn lend(&mut self, prefix: &[Key]) -> (out: IterMut<'_, V>)
        ensures
            final(self)@.dom() == old(self)@.dom(),
            forall|p: Seq<Key>| #[trigger] final(self).has_node(p) <==> old(self).has_node(p),
            exists|keys: Seq<Seq<Key>>|
                {
                    &&& #[trigger] enumerates(keys, with_prefix(old(self)@, prefix@))
                    &&& parents_first(keys)
                    &&& in_turn(keys)
                    &&& out@.len() == keys.len()
                    &&& forall|i: int|
                        0 <= i < keys.len() ==> *out@[i] == old(self)@[keys[i]] && *final(out@[i])
                            == final(self)@[keys[i]]
                    &&& forall|k: Seq<Key>|
                        old(self)@.contains_key(k) && !keys.contains(k) ==> final(self)@[k] == old(
                            self,
                        )@[k]
                },
    {
        let ghost end = *final(self);
        let mut out = Vec::new();
        let keys = self.root.iter_mut_helper(prefix, &mut out);
        proof {
            reveal(listed);
            let part = with_prefix(old(self)@, prefix@);
            assert forall|i: int| 0 <= i < keys@.len() implies old(self).root.lookup(
                #[trigger] keys@[i],
            ) == Some(*out@[i]) && end.root.lookup(keys@[i]) == Some(*final(out@[i])) by {
                assert(Seq::new(keys@.len(), |j: int| *out@[0 + j])[i] == *out@[i]);
                assert(Seq::new(keys@.len(), |j: int| *final(out@[0 + j]))[i] == *final(out@[i]));
            }
            assert forall|k: Seq<Key>| end@.contains_key(k) <==> old(self)@.contains_key(k) by {
                if keys@.contains(k) {
                    let i = choose|i: int| 0 <= i < keys@.len() && keys@[i] == k;
                    assert(end.root.lookup(keys@[i]) is Some);
                } else {
                    assert(end.root.lookup(k) == old(self).root.lookup(k));
                }
            }
            assert(end@.dom() =~= old(self)@.dom());
            assert(keys@.to_set() =~= part.dom());
            assert(enumerates(keys@, part));
            assert forall|k: Seq<Key>|
                old(self)@.contains_key(k) && !keys@.contains(k) implies end@[k] == old(
                self,
            )@[k] by {
                assert(end.root.lookup(k) == old(self).root.lookup(k));
            }
        }
        out
    }

    /// The number of entries.
    pub fn len(&self) -> (n: usize)
        ensures
            self@.dom().finite(),
            n == self@.dom().len(),
    {
        let all = self.iter().collect();
        proof {
            self.walk(Seq::empty()).unique_seq_to_set();
        }
        all.len()
    }

    /// Whether the map has no entry.
    pub fn is_empty(&self) -> (r: bool)
        ensures
            r == (self@ == Map::<Seq<Key>, V>::empty()),
    {
        let mut it = self.iter();
        let first = it.next();
        proof {
            if first is Some {
                assert(self@.contains_key(self.walk(Seq::empty())[0]));
            }
        }
        first.is_none()
    }
}

impl<K, V> Default for TrieMap<K, V> {
    fn default() -> (trie: Self)
        ensures
            trie@ == Map::<Seq<Key>, V>::empty(),
    {
        TrieMap::new()
    }
}

} // verus!
