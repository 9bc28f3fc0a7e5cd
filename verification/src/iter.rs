use crate::atoms::Key;
use crate::keys::all_forked;
use crate::keys::forked;
use crate::keys::lemma_forked_push;
use crate::keys::lemma_prefix_chain;
use crate::keys::lemma_prefixes_meet;
use crate::keys::lemma_push_prefix;
use crate::keys::lemma_siblings_forked;
use crate::node::Node;
use crate::order::enumerates;
use crate::order::in_turn;
use crate::order::lemma_orderly_met;
use crate::order::lemma_orderly_open;
use crate::order::opened;
use crate::order::orderly;
use crate::order::parents_first;
use vstd::prelude::*;
use vstd::std_specs::hash::*;

verus! {

broadcast use vstd::std_specs::hash::group_hash_axioms;

/// A subtree that waits to be walked: its root and, in ghost, the key that leads to it.
pub(crate) struct Frame<'a, V> {
    pub(crate) node: &'a Node<V>,
    pub(crate) path: Ghost<Seq<Key>>,
}

/// The value that the waiting subtrees hold for `key`, the last subtree asked first.
pub(crate) open spec fn covered<'a, V>(frames: Seq<Frame<'a, V>>, key: Seq<Key>) -> Option<V>
    decreases frames.len(),
{
    if frames.len() == 0 {
        None
    } else {
        match frames.last().node.find(frames.last().path@, key) {
            Some(v) => Some(v),
            None => covered(frames.drop_last(), key),
        }
    }
}

/// The keys that have a value in the waiting subtrees, in the order in which the walk
/// will meet them: those of the last subtree first.
pub(crate) open spec fn queue<'a, V>(frames: Seq<Frame<'a, V>>) -> Seq<Seq<Key>>
    decreases frames.len(),
{
    if frames.len() == 0 {
        seq![]
    } else {
        frames.last().node.flat(frames.last().path@) + queue(frames.drop_last())
    }
}

/// The number of nodes in the waiting subtrees.
pub(crate) open spec fn work<'a, V>(frames: Seq<Frame<'a, V>>) -> nat
    decreases frames.len(),
{
    if frames.len() == 0 {
        0
    } else {
        work(frames.drop_last()) + frames.last().node.count()
    }
}

/// The keys at which the waiting subtrees stand.
pub(crate) open spec fn paths_of<'a, V>(frames: Seq<Frame<'a, V>>) -> Seq<Seq<Key>> {
    Seq::new(frames.len(), |i: int| frames[i].path@)
}

/// No waiting subtree lies inside another.
pub(crate) open spec fn apart<'a, V>(frames: Seq<Frame<'a, V>>) -> bool {
    forall|i: int, j: int|
        0 <= i < frames.len() && 0 <= j < frames.len() && i != j ==> forked(
            #[trigger] frames[i].path@,
            #[trigger] frames[j].path@,
        )
}

/// What the subtree of `node`, standing at `path`, holds for `key` below those of its
/// children whose atom is in `pushed`.
pub(crate) open spec fn below<V>(
    node: Node<V>,
    path: Seq<Key>,
    pushed: Set<Key>,
    key: Seq<Key>,
) -> Option<V> {
    if path.is_prefix_of(key) && key.len() > path.len() && pushed.contains(key[path.len() as int]) {
        node.lookup(key.skip(path.len() as int))
    } else {
        None
    }
}

/// What the waiting subtrees hold with one more subtree on top.
pub(crate) proof fn lemma_covered_push<'a, V>(
    frames: Seq<Frame<'a, V>>,
    top: Frame<'a, V>,
    key: Seq<Key>,
)
    ensures
        covered(frames.push(top), key) == match top.node.find(top.path@, key) {
            Some(v) => Some(v),
            None => covered(frames, key),
        },
{
    assert(frames.push(top).drop_last() =~= frames);
}

/// The keys before the walk with one more subtree on top.
pub(crate) proof fn lemma_queue_push<'a, V>(frames: Seq<Frame<'a, V>>, top: Frame<'a, V>)
    ensures
        queue(frames.push(top)) == top.node.flat(top.path@) + queue(frames),
{
    assert(frames.push(top).drop_last() =~= frames);
}

/// The number of nodes that wait with one more subtree on top.
pub(crate) proof fn lemma_work_push<'a, V>(frames: Seq<Frame<'a, V>>, top: Frame<'a, V>)
    ensures
        work(frames.push(top)) == work(frames) + top.node.count(),
{
    assert(frames.push(top).drop_last() =~= frames);
}

/// Subtrees forked from `path` hold nothing for a key that begins with `path`.
pub(crate) proof fn lemma_uncovered<'a, V>(
    frames: Seq<Frame<'a, V>>,
    path: Seq<Key>,
    key: Seq<Key>,
)
    requires
        forall|i: int| 0 <= i < frames.len() ==> forked(#[trigger] frames[i].path@, path),
        path.is_prefix_of(key),
    ensures
        covered(frames, key) is None,
    decreases frames.len(),
{
    if frames.len() > 0 {
        let top = frames.last();
        if top.path@.is_prefix_of(key) {
            lemma_prefixes_meet(top.path@, path, key);
        }
        lemma_uncovered(frames.drop_last(), path, key);
    }
}

/// A value that the waiting subtrees hold for `key` lies in a subtree whose path begins
/// `key`.
pub(crate) proof fn lemma_covered_under<'a, V>(frames: Seq<Frame<'a, V>>, key: Seq<Key>)
    requires
        covered(frames, key) is Some,
    ensures
        exists|i: int| 0 <= i < frames.len() && (#[trigger] frames[i].path@).is_prefix_of(key),
    decreases frames.len(),
{
    let top = frames.last();
    if top.node.find(top.path@, key) is Some {
        assert(frames[frames.len() - 1].path@.is_prefix_of(key));
    } else {
        let rest = frames.drop_last();
        lemma_covered_under(rest, key);
        let i = choose|i: int| 0 <= i < rest.len() && (#[trigger] rest[i].path@).is_prefix_of(key);
        assert(frames[i].path@.is_prefix_of(key));
    }
}

/// Marking one more child as done takes its nodes off the weight.
pub(crate) proof fn lemma_weight_step<V>(node: Node<V>, done: Set<Key>, atom: Key, bound: nat)
    requires
        node.children@.contains_key(atom),
        !done.contains(atom),
        bound <= 256,
    ensures
        node.weight(done, bound) == node.weight(done.insert(atom), bound) + if atom < bound {
            node.children@[atom].count()
        } else {
            0
        },
    decreases bound,
{
    if bound > 0 {
        lemma_weight_step(node, done, atom, (bound - 1) as nat);
    }
}

/// With every child done nothing is left of the weight.
pub(crate) proof fn lemma_weight_done<V>(node: Node<V>, done: Set<Key>, bound: nat)
    requires
        forall|atom: Key| node.children@.contains_key(atom) ==> done.contains(atom),
    ensures
        node.weight(done, bound) == 0,
    decreases bound,
{
    if bound > 0 {
        lemma_weight_done(node, done, (bound - 1) as nat);
    }
}

/// What the children of a node hold, once all of them wait in place of the node, is
/// what the node held, but for the value at its own key.
pub(crate) proof fn lemma_below_all<V>(
    node: Node<V>,
    path: Seq<Key>,
    pushed: Set<Key>,
    key: Seq<Key>,
)
    requires
        forall|atom: Key| node.children@.contains_key(atom) ==> pushed.contains(atom),
    ensures
        below(node, path, pushed, key) == if key == path {
            None
        } else {
            node.find(path, key)
        },
        node.find(path, path) == node.value,
{
    if path.is_prefix_of(key) && key.len() == path.len() {
        assert(key =~= path);
    }
    assert(path.skip(path.len() as int) =~= Seq::<Key>::empty());
    assert(path.is_prefix_of(path)) by {
        assert(path =~= path.subrange(0, path.len() as int));
    }
}

/// The values of a walk, lent for writing all at once, in the order of the walk.
pub type IterMut<'a, V> = Vec<&'a mut V>;

/// A walk over the values of a subtree, one value for each call of `next`.
///
/// The walk keeps the subtrees it has yet to enter on a stack and enters one only when
/// its turn has come, so that a walk that is given up early has done no more than it
/// was asked for.
pub struct Iter<'a, V> {
    stack: Vec<Frame<'a, V>>,
}

impl<'a, V> View for Iter<'a, V> {
    type V = Map<Seq<Key>, V>;

    /// The entries that the walk has not yet reached, each under its full key.
    closed spec fn view(&self) -> Map<Seq<Key>, V> {
        Map::new(
            |k: Seq<Key>| covered(self.stack@, k) is Some,
            |k: Seq<Key>| covered(self.stack@, k)->0,
        )
    }
}

impl<'a, V> Iter<'a, V> {
    #[verifier::type_invariant]
    spec fn inv(self) -> bool {
        apart(self.stack@) && orderly(paths_of(self.stack@), Seq::empty())
    }

    /// The keys whose values the walk has not yet reached, in the order in which it
    /// will reach them.
    pub closed spec fn order(&self) -> Seq<Seq<Key>> {
        queue(self.stack@)
    }

    /// A walk that has nothing to visit.
    pub(crate) fn empty() -> (it: Self)
        ensures
            it@ == Map::<Seq<Key>, V>::empty(),
            it.order() == Seq::<Seq<Key>>::empty(),
    {
        let it = Iter { stack: Vec::new() };
        assert(it@ =~= Map::<Seq<Key>, V>::empty());
        it
    }

    /// A walk over the subtree of `node`, which stands at `path`.
    pub(crate) fn rooted(node: &'a Node<V>, path: Ghost<Seq<Key>>) -> (it: Self)
        ensures
            forall|k: Seq<Key>|
                #![trigger it@.contains_key(k)]
                it@.contains_key(k) <==> node.find(path@, k) is Some,
            forall|k: Seq<Key>|
                #![trigger it@[k]]
                it@.contains_key(k) ==> it@[k] == node.find(path@, k)->0,
            it.order() == node.flat(path@),
    {
        let mut stack = Vec::new();
        stack.push(Frame { node, path });
        let it = Iter { stack };
        proof {
            let none = Seq::<Frame<'a, V>>::empty();
            assert(it.stack@ =~= none.push(it.stack@[0]));
            lemma_queue_push(none, it.stack@[0]);
            assert(it.order() =~= node.flat(path@));
            assert forall|k: Seq<Key>| covered(it.stack@, k) == node.find(path@, k) by {
                lemma_covered_push(none, it.stack@[0], k);
            }
        }
        it
    }

    /// Moves to the next value of the walk and returns it, or `None` once every value
    /// has been returned. The value of a key is returned before the value of any key
    /// that goes on from it.
    pub fn next(&mut self) -> (r: Option<&'a V>)
        ensures
            match r {
                Some(v) => {
                    &&& old(self).order().len() > 0
                    &&& old(self)@.contains_key(old(self).order()[0])
                    &&& old(self)@[old(self).order()[0]] == *v
                    &&& final(self)@ == old(self)@.remove(old(self).order()[0])
                    &&& final(self).order() == old(self).order().drop_first()
                    &&& forall|k: Seq<Key>|
                        old(self)@.contains_key(k) && #[trigger] k.is_prefix_of(
                            old(self).order()[0],
                        ) ==> k == old(self).order()[0]
                },
                None => {
                    &&& old(self).order().len() == 0
                    &&& old(self)@ == Map::<Seq<Key>, V>::empty()
                    &&& final(self)@ == old(self)@
                    &&& final(self).order() == old(self).order()
                },
            },
    {
        proof {
            use_type_invariant(&*self);
        }
        let mut stack = Vec::new();
        std::mem::swap(&mut stack, &mut self.stack);
        let (r, at) = advance(&mut stack, Ghost(Seq::empty()));
        self.stack = stack;
        proof {
            if r is Some {
                assert(old(self).order()[0] == at@);
                assert(self.order() =~= old(self).order().drop_first());
                assert(old(self)@.contains_key(at@));
                assert(self@ =~= old(self)@.remove(at@));
            } else {
                assert(self@ =~= Map::<Seq<Key>, V>::empty());
                assert(old(self)@ =~= Map::<Seq<Key>, V>::empty());
            }
        }
        r
    }

    /// Runs the walk to its end and returns the values it meets, in the order met: each
    /// value that is left once, the value of a key before the values of the keys that
    /// go on from it, and the values of the keys that begin alike one after another.
    pub fn collect(self) -> (out: Vec<&'a V>)
        ensures
            enumerates(self.order(), self@),
            parents_first(self.order()),
            in_turn(self.order()),
            out@.len() == self.order().len(),
            forall|i: int| 0 <= i < out@.len() ==> *out@[i] == self@[#[trigger] self.order()[i]],
    {
        proof {
            use_type_invariant(&self);
        }
        let ghost start = self@;
        let ghost all = self.order();
        let mut stack = self.stack;
        let mut out: Vec<&'a V> = Vec::new();
        let ghost mut keys = Seq::<Seq<Key>>::empty();
        loop
            invariant
                start == self@,
                all == self.order(),
                all == keys + queue(stack@),
                apart(stack@),
                orderly(paths_of(stack@), keys),
                keys.no_duplicates(),
                parents_first(keys),
                out@.len() == keys.len(),
                forall|i: int|
                    0 <= i < keys.len() ==> start.contains_key(#[trigger] keys[i]) && *out@[i]
                        == start[keys[i]],
                forall|k: Seq<Key>|
                    #![trigger covered(stack@, k)]
                    covered(stack@, k) == if start.contains_key(k) && !keys.contains(k) {
                        Some(start[k])
                    } else {
                        None
                    },
                forall|i: int, k: Seq<Key>|
                    #![trigger k.is_prefix_of(keys[i])]
                    0 <= i < keys.len() && covered(stack@, k) is Some ==> !k.is_prefix_of(keys[i]),
            decreases queue(stack@).len(),
        {
            let ghost waiting = stack@;
            let ghost held = keys;
            let (r, at) = advance(&mut stack, Ghost(keys));
            match r {
                Some(v) => {
                    proof {
                        keys = held.push(at@);
                        lemma_one_more(held, at@);
                        assert(all =~= keys + queue(stack@));
                        assert forall|i: int, k: Seq<Key>|
                            #![trigger k.is_prefix_of(keys[i])]
                            0 <= i < keys.len() && covered(stack@, k) is Some implies
                            !k.is_prefix_of(keys[i]) by {
                            assert(covered(waiting, k) is Some);
                            if i < held.len() {
                                assert(keys[i] == held[i]);
                            }
                        }
                        assert(parents_first(keys)) by {
                            assert forall|a: int, b: int| 0 <= a < b < keys.len() implies !(
                            #[trigger] keys[b]).is_prefix_of(#[trigger] keys[a]) by {
                                assert(keys[a] == held[a]);
                                if b < held.len() {
                                    assert(keys[b] == held[b]);
                                }
                            }
                        }
                    }
                    out.push(v);
                },
                None => {
                    proof {
                        assert(all =~= keys);
                        assert forall|k: Seq<Key>|
                            keys.to_set().contains(k) <==> start.dom().contains(k) by {
                            if keys.contains(k) {
                                let i = choose|i: int| 0 <= i < keys.len() && keys[i] == k;
                                assert(start.contains_key(keys[i]));
                            }
                            if start.contains_key(k) {
                                assert(covered(stack@, k) is None);
                            }
                        }
                        assert(keys.to_set() =~= start.dom());
                    }
                    return out;
                },
            }
        }
    }
}

/// A key pushed behind keys that lack it is the one key they gain.
pub(crate) proof fn lemma_one_more(held: Seq<Seq<Key>>, key: Seq<Key>)
    requires
        held.no_duplicates(),
        !held.contains(key),
    ensures
        held.push(key).no_duplicates(),
        forall|k: Seq<Key>|
            #![trigger held.push(key).contains(k)]
            held.push(key).contains(k) <==> held.contains(k) || k == key,
{
    let keys = held.push(key);
    assert forall|k: Seq<Key>|
        #![trigger keys.contains(k)]
        keys.contains(k) <==> held.contains(k) || k == key by {
        if held.contains(k) {
            let i = choose|i: int| 0 <= i < held.len() && held[i] == k;
            assert(keys[i] == k);
        }
        if k == key {
            assert(keys[held.len() as int] == k);
        }
    }
}

/// Takes subtrees off `stack`, each making way for its children, until one is found
/// that holds a value at its root. That value is returned, with its key in ghost.
/// `met` holds the keys that the walk has met before.
fn advance<'a, V>(stack: &mut Vec<Frame<'a, V>>, Ghost(met): Ghost<Seq<Seq<Key>>>) -> (r: (
    Option<&'a V>,
    Ghost<Seq<Key>>,
))
    requires
        apart(old(stack)@),
        orderly(paths_of(old(stack)@), met),
    ensures
        apart(final(stack)@),
        orderly(
            paths_of(final(stack)@),
            if r.0 is Some {
                met.push(r.1@)
            } else {
                met
            },
        ),
        match r.0 {
            Some(v) => {
                &&& queue(old(stack)@) == seq![r.1@] + queue(final(stack)@)
                &&& covered(old(stack)@, r.1@) == Some(*v)
                &&& forall|k: Seq<Key>|
                    #![trigger covered(final(stack)@, k)]
                    covered(final(stack)@, k) == if k == r.1@ {
                        None
                    } else {
                        covered(old(stack)@, k)
                    }
                &&& forall|k: Seq<Key>|
                    covered(old(stack)@, k) is Some && #[trigger] k.is_prefix_of(r.1@) ==> k
                        == r.1@
            },
            None => {
                &&& queue(old(stack)@) == Seq::<Seq<Key>>::empty()
                &&& queue(final(stack)@) == Seq::<Seq<Key>>::empty()
                &&& forall|k: Seq<Key>|
                    #![trigger covered(old(stack)@, k)]
                    #![trigger covered(final(stack)@, k)]
                    covered(old(stack)@, k) is None && covered(final(stack)@, k) is None
            },
        },
{
    loop
        invariant
            apart(stack@),
            orderly(paths_of(stack@), met),
            forall|k: Seq<Key>| covered(stack@, k) == covered(old(stack)@, k),
            queue(stack@) == queue(old(stack)@),
        decreases work(stack@),
    {
        let ghost before = stack@;
        let frame = match stack.pop() {
            Some(frame) => frame,
            None => {
                return (None, Ghost(Seq::empty()));
            },
        };
        let node = frame.node;
        let ghost path = frame.path@;
        let ghost base = stack@;
        proof {
            assert(before =~= base.push(frame));
            assert forall|i: int| 0 <= i < base.len() implies forked(
                #[trigger] base[i].path@,
                path,
            ) by {
                assert(before[i] == base[i]);
                assert(forked(before[i].path@, before[base.len() as int].path@));
            }
            lemma_work_push(base, frame);
            lemma_queue_push(base, frame);
        }
        let pushed = expand(stack, node, Ghost(path));
        proof {
            assert(paths_of(before) =~= paths_of(base).push(path));
            assert(all_forked(paths_of(before)));
            assert(all_forked(paths_of(stack@)));
            lemma_orderly_open(paths_of(base), path, paths_of(stack@), met);
            if node.value is Some {
                lemma_orderly_met(paths_of(base), path, paths_of(stack@), met);
            }
            assert(queue(before) =~= if node.value is Some {
                seq![path] + queue(stack@)
            } else {
                queue(stack@)
            });
            assert forall|k: Seq<Key>| covered(stack@, k) == if k == path {
                None
            } else {
                covered(before, k)
            } by {
                lemma_covered_push(base, frame, k);
                lemma_below_all(*node, path, pushed@, k);
                if path.is_prefix_of(k) {
                    lemma_uncovered(base, path, k);
                }
            }
            assert(covered(before, path) == node.value) by {
                lemma_covered_push(base, frame, path);
                lemma_below_all(*node, path, pushed@, path);
                lemma_uncovered(base, path, path);
            }
            assert forall|k: Seq<Key>|
                covered(before, k) is Some && #[trigger] k.is_prefix_of(path) implies k == path by {
                lemma_covered_push(base, frame, k);
                if path.is_prefix_of(k) {
                    assert(k =~= path);
                } else {
                    lemma_covered_under(base, k);
                    let i = choose|i: int|
                        0 <= i < base.len() && (#[trigger] base[i].path@).is_prefix_of(k);
                    lemma_prefix_chain(base[i].path@, k, path);
                }
            }
        }
        match &node.value {
            Some(v) => {
                return (Some(v), Ghost(path));
            },
            None => {},
        }
    }
}

/// Pushes the children of `node`, which stood at `path` and has just left `stack`, in
/// the order in which `node` hands them out. The atoms of the children are returned
/// in ghost.
fn expand<'a, V>(stack: &mut Vec<Frame<'a, V>>, node: &'a Node<V>, Ghost(path): Ghost<
    Seq<Key>,
>) -> (pushed: Ghost<Set<Key>>)
    requires
        apart(old(stack)@.push(Frame { node, path: Ghost(path) })),
    ensures
        apart(final(stack)@),
        opened(paths_of(old(stack)@), path, paths_of(final(stack)@)),
        forall|atom: Key| node.children@.contains_key(atom) ==> pushed@.contains(atom),
        forall|k: Seq<Key>|
            #![trigger covered(final(stack)@, k)]
            covered(final(stack)@, k) == match below(*node, path, pushed@, k) {
                Some(v) => Some(v),
                None => covered(old(stack)@, k),
            },
        queue(final(stack)@) == node.flat_kids(path, node.kids().len()) + queue(old(stack)@),
        work(final(stack)@) + 1 == work(old(stack)@) + node.count(),
{
    let ghost base = stack@;
    let ghost mut pushed = Set::<Key>::empty();
    proof {
        let whole = base.push(Frame { node, path: Ghost(path) });
        assert forall|i: int| 0 <= i < base.len() implies forked(
            #[trigger] base[i].path@,
            path,
        ) by {
            assert(whole[i] == base[i]);
            assert(forked(whole[i].path@, whole[base.len() as int].path@));
        }
        assert(apart(base)) by {
            assert forall|i: int, j: int|
                0 <= i < base.len() && 0 <= j < base.len() && i != j implies forked(
                #[trigger] base[i].path@,
                #[trigger] base[j].path@,
            ) by {
                assert(forked(whole[i].path@, whole[j].path@));
            }
        }
    }
    for pair in kids: node.children.iter()
        invariant
            apart(stack@),
            stack@.len() >= base.len(),
            forall|i: int| 0 <= i < base.len() ==> stack@[i] == base[i],
            forall|i: int| 0 <= i < base.len() ==> forked(#[trigger] base[i].path@, path),
            forall|i: int|
                base.len() <= i < stack@.len() ==> {
                    let q = #[trigger] stack@[i].path@;
                    q.len() == path.len() + 1 && q.drop_last() == path && pushed.contains(q.last())
                },
            kids.seq().unref() == node.kids(),
            kids.seq().no_duplicates(),
            forall|j: int|
                0 <= j < kids.seq().len() ==> {
                    let pair = #[trigger] kids.seq()[j];
                    node.children@.contains_key(*pair.0) && node.children@[*pair.0] == *pair.1
                },
            forall|atom: Key|
                node.children@.contains_key(atom) ==> exists|j: int|
                    0 <= j < kids.seq().len() && *(#[trigger] kids.seq()[j]).0 == atom,
            forall|atom: Key|
                pushed.contains(atom) <==> exists|j: int|
                    0 <= j < kids.index() && *(#[trigger] kids.seq()[j]).0 == atom,
            forall|k: Seq<Key>|
                #![trigger covered(stack@, k)]
                covered(stack@, k) == match below(*node, path, pushed, k) {
                    Some(v) => Some(v),
                    None => covered(base, k),
                },
            queue(stack@) == node.flat_kids(path, kids.index() as nat) + queue(base),
            work(stack@) + node.weight(pushed, 256) == work(base) + node.weight(Set::empty(), 256),
    {
        let (atom, child) = pair;
        let ghost prev = stack@;
        let top = Frame { node: child, path: Ghost(path.push(*atom)) };
        proof {
            assert(node.children@.contains_key(*atom) && node.children@[*atom] == *child);
            assert(!pushed.contains(*atom)) by {
                if pushed.contains(*atom) {
                    let j = choose|j: int|
                        0 <= j < kids.index() && *(#[trigger] kids.seq()[j]).0 == *atom;
                    assert(kids.seq()[j] == kids.seq()[kids.index()]);
                }
            }
            lemma_weight_step(*node, pushed, *atom, 256);
            lemma_work_push(prev, top);
            lemma_queue_push(prev, top);
            assert(node.kids()[kids.index()] == (*atom, *child));
            assert(queue(prev.push(top)) =~= node.flat_kids(path, (kids.index() + 1) as nat)
                + queue(base));
            assert forall|i: int| 0 <= i < prev.len() implies forked(
                #[trigger] prev[i].path@,
                top.path@,
            ) by {
                if i < base.len() {
                    lemma_forked_push(base[i].path@, path, *atom);
                } else {
                    let q = prev[i].path@;
                    assert(q =~= path.push(q.last()));
                    lemma_siblings_forked(path, q.last(), *atom);
                }
            }
            assert forall|k: Seq<Key>|
                #![trigger covered(prev.push(top), k)]
                covered(prev.push(top), k) == match below(*node, path, pushed.insert(*atom), k) {
                    Some(v) => Some(v),
                    None => covered(base, k),
                } by {
                lemma_covered_push(prev, top, k);
                lemma_push_prefix(path, *atom, k);
                if path.is_prefix_of(k) {
                    lemma_uncovered(base, path, k);
                }
            }
            pushed = pushed.insert(*atom);
        }
        stack.push(top);
    }
    proof {
        lemma_weight_done(*node, pushed, 256);
    }
    Ghost(pushed)
}

} // verus!
