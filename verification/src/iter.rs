use crate::ranks::{
    lemma_ranked_drop_first, lemma_ranked_drop_last, lemma_ranked_first, lemma_ranked_last,
    lemma_ranked_len, lemma_ranked_none, lemma_ranked_one, lemma_ranked_push,
    lemma_ranked_push_front, ranked, within,
};
use crate::tree::Node;
use std::collections::VecDeque;
use vstd::prelude::*;

verus! {

/// A handle on a subtree that can be taken apart into its left subtree, the
/// element at its root and its right subtree.
pub trait Split: Sized {
    /// What a traversal hands out for one entry.
    type ET;

    /// What an entry is: the key with the value.
    type Entry;

    /// The entries of the subtree, ascending.
    spec fn entries(&self) -> Seq<Self::Entry>;

    /// The entry that an element shows.
    spec fn entry(e: &Self::ET) -> Self::Entry;

    /// The number of levels of the subtree.
    spec fn depth(&self) -> nat;

    /// Takes the subtree apart. The three parts hold its entries in their
    /// order, and the two subtrees among them have fewer levels than it has.
    fn split(self) -> (r: (Option<Self>, Self::ET, Option<Self>))
        ensures
            self.entries() == (match r.0 {
                Some(l) => l.entries(),
                None => Seq::empty(),
            }) + seq![Self::entry(&r.1)] + (match r.2 {
                Some(r) => r.entries(),
                None => Seq::empty(),
            }),
            match r.0 {
                Some(l) => l.depth() < self.depth(),
                None => true,
            },
            match r.2 {
                Some(r) => r.depth() < self.depth(),
                None => true,
            },
    ;
}

/// The entries of a subtree that may be absent.
pub open spec fn entries_of<NT: Split>(h: Option<NT>) -> Seq<NT::Entry> {
    match h {
        None => Seq::empty(),
        Some(n) => n.entries(),
    }
}

/// The number of levels of a subtree that may be absent.
pub open spec fn depth_of<NT: Split>(h: Option<NT>) -> nat {
    match h {
        None => 0,
        Some(n) => n.depth(),
    }
}

/// The subtree that a borrowed handle stands for.
pub open spec fn unboxed<K: Ord, V>(h: Option<&Box<Node<K, V>>>) -> Option<Box<Node<K, V>>> {
    match h {
        Some(n) => Some(*n),
        None => None,
    }
}

/// A node that is owned: taking it apart moves its entry and its subtrees
/// out.
impl<K: Ord, V> Split for Box<Node<K, V>> {
    type ET = (K, V);

    type Entry = (K, V);

    closed spec fn entries(&self) -> Seq<(K, V)> {
        Node::entries(**self)
    }

    closed spec fn depth(&self) -> nat {
        Node::depth(**self)
    }

    open spec fn entry(e: &(K, V)) -> (K, V) {
        *e
    }

    fn split(self) -> (r: (Option<Self>, Self::ET, Option<Self>))
        ensures
            r == self.parts(),
    {
        proof {
            self.lemma_parts();
            self.lemma_open();
        }
        (self.left, (self.key, self.value), self.right)
    }
}

/// A node that is borrowed for reading: taking it apart lends out its key,
/// its value and its subtrees.
impl<'a, K: Ord, V> Split for &'a Box<Node<K, V>> {
    type ET = (&'a K, &'a V);

    type Entry = (K, V);

    closed spec fn entries(&self) -> Seq<(K, V)> {
        Node::entries(***self)
    }

    closed spec fn depth(&self) -> nat {
        Node::depth(***self)
    }

    open spec fn entry(e: &(&'a K, &'a V)) -> (K, V) {
        (*e.0, *e.1)
    }

    fn split(self) -> (r: (Option<Self>, Self::ET, Option<Self>))
        ensures
            unboxed(r.0) == self.parts().0,
            (*r.1.0, *r.1.1) == self.parts().1,
            unboxed(r.2) == self.parts().2,
    {
        proof {
            self.lemma_parts();
            self.lemma_open();
        }
        (self.left.as_ref(), (&self.key, &self.value), self.right.as_ref())
    }
}

/// A node that is borrowed for writing: taking it apart lends out its key for
/// reading, and its value and its subtrees for writing. What the borrowers
/// leave in them is what the node then holds, under the same key and with the
/// same recorded height.
impl<'a, K: Ord, V> Split for &'a mut Box<Node<K, V>> {
    type ET = (&'a K, &'a mut V);

    type Entry = (K, V);

    closed spec fn entries(&self) -> Seq<(K, V)> {
        Node::entries(***self)
    }

    closed spec fn depth(&self) -> nat {
        Node::depth(***self)
    }

    open spec fn entry(e: &(&'a K, &'a mut V)) -> (K, V) {
        (*e.0, *e.1)
    }

    fn split(self) -> (r: (Option<Self>, Self::ET, Option<Self>))
        ensures
            (match r.0 {
                Some(l) => Some(*l),
                None => None,
            }) == old(self).parts().0,
            (*r.1.0, *r.1.1) == old(self).parts().1,
            (match r.2 {
                Some(l) => Some(*l),
                None => None,
            }) == old(self).parts().2,
            **final(self) == old(self).refilled(
                match r.0 {
                    Some(l) => Some(*final(l)),
                    None => None,
                },
                *final(r.1.1),
                match r.2 {
                    Some(l) => Some(*final(l)),
                    None => None,
                },
            ),
    {
        proof {
            self.lemma_parts();
            self.lemma_open();
        }
        (self.left.as_mut(), (&self.key, &mut self.value), self.right.as_mut())
    }
}

/// A handle on a node that may be absent has the entries of the subtree under
/// that node, whether it owns the node or has borrowed it.
pub(crate) proof fn lemma_handles<K: Ord, V>(root: Option<Box<Node<K, V>>>)
    ensures
        entries_of::<Box<Node<K, V>>>(root) == Node::entries_of(root),
        depth_of::<Box<Node<K, V>>>(root) == Node::depth_of(root),
        forall|h: Option<&Box<Node<K, V>>>|
            (match h {
                Some(n) => root == Some(*n),
                None => root is None,
            }) ==> #[trigger] entries_of::<&Box<Node<K, V>>>(h) == Node::entries_of(root)
                && depth_of::<&Box<Node<K, V>>>(h) == Node::depth_of(root),
        forall|h: Option<&mut Box<Node<K, V>>>|
            (match h {
                Some(n) => root == Some(*n),
                None => root is None,
            }) ==> #[trigger] entries_of::<&mut Box<Node<K, V>>>(h) == Node::entries_of(root)
                && depth_of::<&mut Box<Node<K, V>>>(h) == Node::depth_of(root),
{
}

/// What waits on a traversal's stack: a subtree that has not been taken
/// apart yet, or an element that has been lifted out of one.
pub enum StackElem<NT: Split> {
    N(NT),
    V(NT::ET),
}

impl<NT: Split> StackElem<NT> {
    /// The entries that this item still has to give, ascending.
    pub open spec fn entries(self) -> Seq<NT::Entry> {
        match self {
            StackElem::N(n) => n.entries(),
            StackElem::V(e) => seq![NT::entry(&e)],
        }
    }

    /// The least rank that the item can do with.
    pub open spec fn floor(self) -> nat {
        match self {
            StackElem::N(n) => 2 * n.depth() + 1,
            StackElem::V(e) => 0,
        }
    }

    /// A measure that falls whenever a subtree on the stack is taken apart.
    pub open spec fn weight(self) -> nat {
        match self {
            StackElem::N(n) => 3 * n.entries().len() + 1,
            StackElem::V(e) => 1,
        }
    }
}

/// The entries that a stack still has to give, ascending: those of its back
/// come first.
pub open spec fn flat<NT: Split>(d: Seq<StackElem<NT>>) -> Seq<NT::Entry>
    decreases d.len(),
{
    if d.len() == 0 {
        Seq::empty()
    } else {
        d.last().entries() + flat(d.drop_last())
    }
}

/// The weights of a stack's items, summed.
pub open spec fn weight<NT: Split>(d: Seq<StackElem<NT>>) -> nat
    decreases d.len(),
{
    if d.len() == 0 {
        0
    } else {
        d.last().weight() + weight(d.drop_last())
    }
}

/// An item more at the back of a stack comes first in what the stack gives.
pub proof fn lemma_flat_push<NT: Split>(d: Seq<StackElem<NT>>, x: StackElem<NT>)
    ensures
        flat(d.push(x)) == x.entries() + flat(d),
        weight(d.push(x)) == x.weight() + weight(d),
{
    assert(d.push(x).drop_last() =~= d);
}

/// An item more at the front of a stack comes last in what the stack gives.
pub proof fn lemma_flat_front<NT: Split>(x: StackElem<NT>, d: Seq<StackElem<NT>>)
    ensures
        flat(seq![x] + d) == flat(d) + x.entries(),
        weight(seq![x] + d) == weight(d) + x.weight(),
    decreases d.len(),
{
    let s = seq![x] + d;
    if d.len() == 0 {
        assert(s.drop_last() =~= d);
        assert(flat(s) =~= flat(d) + x.entries());
    } else {
        assert(s.drop_last() =~= seq![x] + d.drop_last());
        assert(s.last() == d.last());
        lemma_flat_front(x, d.drop_last());
        assert(flat(s) =~= flat(d) + x.entries());
    }
}

/// The least rank that an item of the stack can do with: a subtree needs
/// room for two items for each of its levels, and one more.
pub open spec fn floors<NT: Split>(d: Seq<StackElem<NT>>) -> Seq<nat> {
    Seq::new(d.len(), |i: int| d[i].floor())
}

/// A traversal of a tree in the order of its keys, which can be pulled from
/// both ends and knows how many entries are left.
pub struct AvlMapIter<NT: Split> {
    /// What is left of the tree: the back holds what comes first.
    deque: VecDeque<StackElem<NT>>,
    /// The number of entries that are left.
    remain: usize,
    /// The number of levels of the tree at the start.
    levels: Ghost<nat>,
    /// A rank for each item of the stack, which shows that the stack is short.
    ranks: Ghost<Seq<nat>>,
    /// Where the ranks are highest.
    peak: Ghost<int>,
}

impl<NT: Split> View for AvlMapIter<NT> {
    type V = Seq<NT::Entry>;

    /// The entries that are left, ascending.
    closed spec fn view(&self) -> Seq<NT::Entry> {
        flat(self.deque@)
    }
}

impl<NT: Split> AvlMapIter<NT> {
    /// The number of levels of the tree that the traversal was made for.
    pub closed spec fn levels(&self) -> nat {
        self.levels@
    }

    /// The number of items that wait on the stack.
    pub closed spec fn pending(&self) -> nat {
        self.deque@.len()
    }

    /// The count that the traversal keeps is the number of entries left, and
    /// the items on its stack have ranks that rise to a peak and fall again,
    /// none above twice the number of levels and one.
    pub closed spec fn wf(&self) -> bool {
        &&& self.remain == self@.len()
        &&& ranked(floors(self.deque@), self.ranks@, self.peak@, 2 * self.levels@ + 1)
    }

    /// The stack of a traversal is short where the tree is shallow: it never
    /// holds more than four items for each level of the tree, and three.
    pub proof fn lemma_pending(&self)
        requires
            self.wf(),
        ensures
            self.pending() <= 4 * self.levels() + 3,
    {
        lemma_ranked_len(floors(self.deque@), self.ranks@, self.peak@, 2 * self.levels@ + 1);
        reveal(within);
    }

    /// A traversal of the subtree under `root`, which holds `remain` entries.
    pub(crate) fn new(root: Option<NT>, remain: usize) -> (it: Self)
        requires
            remain == entries_of(root).len(),
        ensures
            it.wf(),
            it@ == entries_of(root),
            it.levels() == depth_of(root),
    {
        let mut deque = VecDeque::new();
        let ghost levels = depth_of(root);
        let ghost mut ranks = Seq::<nat>::empty();
        match root {
            None => {
                proof {
                    lemma_ranked_none(0, 2 * levels + 1);
                    assert(floors(deque@) =~= Seq::<nat>::empty());
                }
            },
            Some(n) => {
                proof {
                    lemma_flat_push(deque@, StackElem::N(n));
                    ranks = seq![2 * levels + 1];
                    lemma_ranked_one(2 * levels + 1, 2 * levels + 1, 2 * levels + 1);
                    assert(floors(deque@.push(StackElem::N(n))) =~= seq![2 * levels + 1]);
                }
                deque.push_back(StackElem::N(n));
            },
        }
        AvlMapIter { deque, remain, levels: Ghost(levels), ranks: Ghost(ranks), peak: Ghost(0) }
    }

    /// Takes subtrees apart at the back of the stack until an element lies
    /// there, and hands that element out.
    fn walk_l(&mut self) -> (r: Option<NT::ET>)
        requires
            old(self).wf(),
        ensures
            final(self).wf(),
            final(self).levels() == old(self).levels(),
            match r {
                Some(e) => {
                    &&& old(self)@.len() > 0
                    &&& NT::entry(&e) == old(self)@[0]
                    &&& final(self)@ == old(self)@.drop_first()
                },
                None => old(self)@.len() == 0 && final(self)@ == old(self)@,
            },
        decreases weight(old(self).deque@),
    {
        let ghost d0 = self.deque@;
        let ghost r0 = self.ranks@;
        let ghost p0 = self.peak@;
        let ghost limit = 2 * self.levels@ + 1;
        match self.deque.pop_back() {
            None => None,
            Some(elem) => {
                let ghost d1 = self.deque@;
                proof {
                    assert(d1 =~= d0.drop_last());
                    assert(elem == d0.last());
                    reveal(within);
                    assert(floors(d0).len() == r0.len());
                    assert(floors(d0)[d0.len() - 1] <= r0[d0.len() - 1]);
                }
                match elem {
                    StackElem::V(value) => {
                        proof {
                            assert(flat(d0).drop_first() =~= flat(d1));
                            lemma_ranked_drop_last(floors(d0), r0, p0, limit);
                            assert(floors(d1) =~= floors(d0).drop_last());
                            self.ranks@ = r0.drop_last();
                            self.peak@ = if p0 == r0.len() - 1 {
                                p0 - 1
                            } else {
                                p0
                            };
                        }
                        self.remain -= 1;
                        Some(value)
                    },
                    StackElem::N(node) => {
                        let ghost top = r0.last();
                        let (left, value, right) = node.split();
                        let ghost mut ranks = r0;
                        let ghost mut first = true;
                        if let Some(n) = right {
                            proof {
                                lemma_flat_push(self.deque@, StackElem::N(n));
                                lemma_ranked_last(floors(d0), r0, p0, limit, StackElem::N(n).floor());
                                assert(floors(d1.push(StackElem::N(n))) =~= floors(
                                    d0,
                                ).drop_last().push(StackElem::N(n).floor()));
                                first = false;
                            }
                            self.deque.push_back(StackElem::N(n))
                        };
                        proof {
                            let e = StackElem::<NT>::V(value);
                            lemma_flat_push(self.deque@, e);
                            if first {
                                lemma_ranked_last(floors(d0), r0, p0, limit, e.floor());
                                assert(floors(d1.push(e)) =~= floors(d0).drop_last().push(
                                    e.floor(),
                                ));
                            } else {
                                lemma_ranked_push(
                                    floors(self.deque@),
                                    ranks,
                                    p0,
                                    limit,
                                    e.floor(),
                                    (top - 1) as nat,
                                );
                                assert(floors(self.deque@.push(e)) =~= floors(self.deque@).push(
                                    e.floor(),
                                ));
                                ranks = ranks.push((top - 1) as nat);
                            }
                        }
                        self.deque.push_back(StackElem::V(value));
                        if let Some(n) = left {
                            proof {
                                let e = StackElem::N(n);
                                let rank = (ranks.last() - 1) as nat;
                                lemma_flat_push(self.deque@, e);
                                lemma_ranked_push(
                                    floors(self.deque@),
                                    ranks,
                                    p0,
                                    limit,
                                    e.floor(),
                                    rank,
                                );
                                assert(floors(self.deque@.push(e)) =~= floors(self.deque@).push(
                                    e.floor(),
                                ));
                                ranks = ranks.push(rank);
                            }
                            self.deque.push_back(StackElem::N(n))
                        };
                        proof {
                            assert(flat(self.deque@) =~= flat(d0));
                            self.ranks@ = ranks;
                        }
                        self.walk_l()
                    },
                }
            },
        }
    }

    /// Takes subtrees apart at the front of the stack until an element lies
    /// there, and hands that element out.
    fn walk_r(&mut self) -> (r: Option<NT::ET>)
        requires
            old(self).wf(),
        ensures
            final(self).wf(),
            final(self).levels() == old(self).levels(),
            match r {
                Some(e) => {
                    &&& old(self)@.len() > 0
                    &&& NT::entry(&e) == old(self)@.last()
                    &&& final(self)@ == old(self)@.drop_last()
                },
                None => old(self)@.len() == 0 && final(self)@ == old(self)@,
            },
        decreases weight(old(self).deque@),
    {
        let ghost d0 = self.deque@;
        let ghost r0 = self.ranks@;
        let ghost p0 = self.peak@;
        let ghost limit = 2 * self.levels@ + 1;
        match self.deque.pop_front() {
            None => None,
            Some(elem) => {
                let ghost d1 = self.deque@;
                proof {
                    assert(d0 =~= seq![elem] + d1);
                    assert(d1 =~= d0.drop_first());
                    lemma_flat_front(elem, d1);
                    reveal(within);
                    assert(floors(d0).len() == r0.len());
                    assert(floors(d0)[0] <= r0[0]);
                }
                match elem {
                    StackElem::V(value) => {
                        proof {
                            assert(flat(d0).drop_last() =~= flat(d1));
                            lemma_ranked_drop_first(floors(d0), r0, p0, limit);
                            assert(floors(d1) =~= floors(d0).drop_first());
                            self.ranks@ = r0.drop_first();
                            self.peak@ = if p0 == 0 {
                                0
                            } else {
                                p0 - 1
                            };
                        }
                        self.remain -= 1;
                        Some(value)
                    },
                    StackElem::N(node) => {
                        let ghost top = r0[0];
                        let (right, value, left) = node.split();
                        let ghost mut ranks = r0;
                        let ghost mut peak = p0;
                        let ghost mut first = true;
                        if let Some(n) = right {
                            proof {
                                let e = StackElem::N(n);
                                lemma_flat_front(e, self.deque@);
                                lemma_ranked_first(floors(d0), r0, p0, limit, e.floor());
                                assert(floors(seq![e] + d1) =~= seq![e.floor()] + floors(
                                    d0,
                                ).drop_first());
                                first = false;
                            }
                            self.deque.push_front(StackElem::N(n))
                        };
                        proof {
                            let e = StackElem::<NT>::V(value);
                            lemma_flat_front(e, self.deque@);
                            if first {
                                lemma_ranked_first(floors(d0), r0, p0, limit, e.floor());
                                assert(floors(seq![e] + d1) =~= seq![e.floor()] + floors(
                                    d0,
                                ).drop_first());
                            } else {
                                lemma_ranked_push_front(
                                    floors(self.deque@),
                                    ranks,
                                    peak,
                                    limit,
                                    e.floor(),
                                    (top - 1) as nat,
                                );
                                assert(floors(seq![e] + self.deque@) =~= seq![e.floor()] + floors(
                                    self.deque@,
                                ));
                                ranks = seq![(top - 1) as nat] + ranks;
                                peak = peak + 1;
                            }
                        }
                        self.deque.push_front(StackElem::V(value));
                        if let Some(n) = left {
                            proof {
                                let e = StackElem::N(n);
                                let rank = (ranks[0] - 1) as nat;
                                lemma_flat_front(e, self.deque@);
                                lemma_ranked_push_front(
                                    floors(self.deque@),
                                    ranks,
                                    peak,
                                    limit,
                                    e.floor(),
                                    rank,
                                );
                                assert(floors(seq![e] + self.deque@) =~= seq![e.floor()] + floors(
                                    self.deque@,
                                ));
                                ranks = seq![rank] + ranks;
                                peak = peak + 1;
                            }
                            self.deque.push_front(StackElem::N(n))
                        };
                        proof {
                            assert(flat(self.deque@) =~= flat(d0));
                            self.ranks@ = ranks;
                            self.peak@ = peak;
                        }
                        self.walk_r()
                    },
                }
            },
        }
    }

    /// Hands out the entry with the least key that is left.
    pub fn next(&mut self) -> (r: Option<NT::ET>)
        requires
            old(self).wf(),
        ensures
            final(self).wf(),
            final(self).levels() == old(self).levels(),
            match r {
                Some(e) => {
                    &&& old(self)@.len() > 0
                    &&& NT::entry(&e) == old(self)@[0]
                    &&& final(self)@ == old(self)@.drop_first()
                },
                None => old(self)@.len() == 0 && final(self)@ == old(self)@,
            },
    {
        self.walk_l()
    }

    /// Hands out the entry with the greatest key that is left.
    pub fn next_back(&mut self) -> (r: Option<NT::ET>)
        requires
            old(self).wf(),
        ensures
            final(self).wf(),
            final(self).levels() == old(self).levels(),
            match r {
                Some(e) => {
                    &&& old(self)@.len() > 0
                    &&& NT::entry(&e) == old(self)@.last()
                    &&& final(self)@ == old(self)@.drop_last()
                },
                None => old(self)@.len() == 0 && final(self)@ == old(self)@,
            },
    {
        self.walk_r()
    }

    /// The number of entries that are left, as the lower and the upper bound.
    pub fn size_hint(&self) -> (r: (usize, Option<usize>))
        requires
            self.wf(),
        ensures
            r.0 == self@.len(),
            r.1 == Some(r.0),
    {
        (self.remain, Some(self.remain))
    }

    /// The number of entries that are left.
    pub fn len(&self) -> (n: usize)
        requires
            self.wf(),
        ensures
            n == self@.len(),
    {
        self.remain
    }
}

} // verus!
