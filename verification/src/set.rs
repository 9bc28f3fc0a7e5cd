use crate::atoms::Atoms;
use crate::atoms::Key;
use crate::iter::Iter;
use crate::map::TrieMap;
use crate::map::with_prefix;
use std::borrow::Borrow;
use vstd::prelude::*;

verus! {

/// A set of elements, each told from the others by the atoms it spells, kept as a
/// prefix tree.
///
/// An element that spells the atoms of one already in the set takes its place.
pub struct TrieSet<T: Atoms>(TrieMap<T, T>);

impl<T: Atoms> View for TrieSet<T> {
    type V = Map<Seq<Key>, T>;

    /// The elements of the set, each under the atoms it spells.
    closed spec fn view(&self) -> Map<Seq<Key>, T> {
        self.0@
    }
}

impl<T: Atoms> TrieSet<T> {
    #[verifier::type_invariant]
    spec fn inv(self) -> bool {
        forall|k: Seq<Key>| #[trigger] self.0@.contains_key(k) ==> self.0@[k].atoms() == k
    }

    /// The atoms of the elements that begin with `prefix`, in the order in which a walk
    /// from `prefix` meets the elements. The order is settled by the set as it stands:
    /// as long as the set is not changed, every walk from `prefix` goes this way.
    pub closed spec fn walk(&self, prefix: Seq<Key>) -> Seq<Seq<Key>> {
        self.0.walk(prefix)
    }

    /// Whether a node of the tree stands at `path`. A node stands at the empty path, and
    /// at every prefix of the atoms of every element that was put in since the set was
    /// last empty.
    pub closed spec fn has_node(&self, path: Seq<Key>) -> bool {
        self.0.has_node(path)
    }

    /// The set has finitely many elements.
    pub proof fn lemma_finite(&self)
        ensures
            self@.dom().finite(),
    {
        self.0.lemma_finite();
    }

    /// An empty set.
    pub fn new() -> (set: Self)
        ensures
            set@ == Map::<Seq<Key>, T>::empty(),
            forall|p: Seq<Key>| #[trigger] set.has_node(p) <==> p.len() == 0,
    {
        TrieSet(TrieMap::new())
    }

    /// Removes every element.
    pub fn clear(&mut self)
        ensures
            final(self)@ == Map::<Seq<Key>, T>::empty(),
            forall|p: Seq<Key>| #[trigger] final(self).has_node(p) <==> p.len() == 0,
    {
        self.0 = TrieMap::new();
    }

    /// Whether the set has an element that spells the atoms of `elem`.
    pub fn contains<S: Atoms + ?Sized>(&self, elem: &S) -> (r: bool) where T: Borrow<S>
        ensures
            r == self@.contains_key(elem.atoms()),
    {
        self.0.contains(elem)
    }

    /// Puts `elem` into the set and says whether the set had no such element before.
    pub fn insert(&mut self, elem: T) -> (fresh: bool)
        ensures
            fresh == !old(self)@.contains_key(elem.atoms()),
            final(self)@ == old(self)@.insert(elem.atoms(), elem),
            forall|p: Seq<Key>|
                #![trigger final(self).has_node(p)]
                final(self).has_node(p) <==> old(self).has_node(p) || p.is_prefix_of(
                    elem.atoms(),
                ),
    {
        proof {
            use_type_invariant(&*self);
        }
        let mut map = TrieMap::new();
        std::mem::swap(&mut map, &mut self.0);
        let slot = map.slot(&elem);
        let fresh = slot.is_none();
        *slot = Some(elem);
        self.0 = map;
        fresh
    }

    /// A walk over every element of the set.
    pub fn iter(&self) -> (it: Iter<'_, T>)
        ensures
            it@ == self@,
            it.order() == self.walk(Seq::empty()),
            forall|k: Seq<Key>| #[trigger] it@.contains_key(k) ==> it@[k].atoms() == k,
    {
        proof {
            use_type_invariant(self);
        }
        self.0.iter()
    }

    /// A walk over the elements that begin with the atoms of `prefix`.
    pub fn iter_prefix<S: Atoms + ?Sized>(&self, prefix: &S) -> (it: Iter<'_, T>) where
        T: Borrow<S>,

        ensures
            it@ == with_prefix(self@, prefix.atoms()),
            it.order() == self.walk(prefix.atoms()),
            forall|k: Seq<Key>| #[trigger] it@.contains_key(k) ==> it@[k].atoms() == k,
    {
        proof {
            use_type_invariant(self);
        }
        self.0.iter_prefix(prefix)
    }

    /// The number of elements.
    pub fn len(&self) -> (n: usize)
        ensures
            self@.dom().finite(),
            n == self@.dom().len(),
    {
        self.0.len()
    }

    /// Whether the set has no element.
    pub fn is_empty(&self) -> (r: bool)
        ensures
            r == (self@ == Map::<Seq<Key>, T>::empty()),
    {
        self.0.is_empty()
    }
}

impl<T: Atoms> Default for TrieSet<T> {
    fn default() -> (set: Self)
        ensures
            set@ == Map::<Seq<Key>, T>::empty(),
    {
        TrieSet::new()
    }
}

} // verus!
