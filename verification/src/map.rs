use crate::entries::{as_map, cut, has_key, lemma_nothing, put, set_value, sorted};
use crate::laws::{
    lemma_cut_map, lemma_map_len, lemma_put_map, lemma_put_sorted, lemma_set_value_put,
};
use crate::iter::{lemma_handles, AvlMapIter};
use crate::order::lawful;
use crate::tree::{least, Node};
use vstd::prelude::*;

verus! {

/// A map from keys to values that keeps its entries in a balanced search
/// tree, in the order of their keys.
pub struct AvlMap<K: Ord, V> {
    pub(crate) root: Option<Box<Node<K, V>>>,
    pub(crate) size: usize,
}

impl<K: Ord, V> View for AvlMap<K, V> {
    type V = Map<K, V>;

    /// The entries as a map from key to value.
    open spec fn view(&self) -> Map<K, V> {
        as_map(self.entries())
    }
}

impl<K: Ord, V> AvlMap<K, V> {
    /// The entries in the order in which a traversal meets them.
    pub closed spec fn entries(&self) -> Seq<(K, V)> {
        Node::entries_of(self.root)
    }

    /// The number of levels of the tree; none where the map has no root.
    pub closed spec fn depth(&self) -> nat {
        Node::depth_of(self.root)
    }

    /// At every node of the tree the depths of the two subtrees differ by one
    /// at most, and the height that the node has recorded is its depth.
    pub closed spec fn balanced(&self) -> bool {
        Node::balanced_of(self.root)
    }

    /// The count that the map keeps.
    pub closed spec fn spec_len(&self) -> usize {
        self.size
    }

    /// The tree is a balanced search tree: the keys ascend strictly along
    /// `entries` and every node is balanced; and the count that the map keeps
    /// is the number of its entries.
    pub open spec fn wf(&self) -> bool {
        &&& sorted(self.entries())
        &&& self.balanced()
        &&& self.spec_len() == self.entries().len()
    }

    /// The view of a well-formed map has as many keys as the map counts
    /// entries.
    pub proof fn lemma_counted(&self)
        requires
            lawful::<K>(),
            self.wf(),
        ensures
            self@.dom().finite(),
            self@.len() == self.len(),
    {
        lemma_map_len(self.entries());
    }

    /// The tree of a well-formed map is no deeper than a balanced tree with
    /// that many entries can be: a tree of its depth has at least
    /// `least(depth)` entries, and it never has more than 127 levels.
    pub proof fn lemma_shallow(&self)
        requires
            self.wf(),
        ensures
            least(self.depth()) <= self.len(),
            self.depth() <= 127,
    {
        Node::lemma_count(self.root);
        Node::lemma_shallow(self.root);
    }

    /// A well-formed map counts no entries exactly when it has no root.
    pub proof fn lemma_empty(&self)
        requires
            self.wf(),
        ensures
            self.len() == 0 <==> self.depth() == 0,
            self.len() == 0 <==> self.entries() == Seq::<(K, V)>::empty(),
    {
        if let Some(n) = self.root {
            n.lemma_open();
        }
    }

    /// A map without entries.
    pub fn new() -> (m: Self)
        ensures
            m.wf(),
            m.entries() == Seq::<(K, V)>::empty(),
            m@ == Map::<K, V>::empty(),
            m.len() == 0,
            m.depth() == 0,
    {
        proof {
            reveal(sorted);
            assert(as_map(Seq::<(K, V)>::empty()) =~= Map::<K, V>::empty());
        }
        AvlMap { root: None, size: 0 }
    }

    /// The number of entries.
    #[verifier::when_used_as_spec(spec_len)]
    pub fn len(&self) -> (n: usize)
        ensures
            n == self.len(),
            self.wf() ==> n == self.entries().len(),
    {
        self.size
    }

    /// Lends the value under `key` out for reading, if the map holds one.
    pub fn get(&self, key: &K) -> (r: Option<&V>)
        requires
            lawful::<K>(),
            self.wf(),
        ensures
            match r {
                Some(v) => self@.contains_key(*key) && *v == self@[*key],
                None => !self@.contains_key(*key),
            },
    {
        Node::find(&self.root, key)
    }

    /// Lends the value under `key` out for writing, if the map holds one.
    /// What the borrower leaves there is the value that the map then holds
    /// under `key`.
    pub fn get_mut(&mut self, key: &K) -> (r: Option<&mut V>)
        requires
            lawful::<K>(),
            old(self).wf(),
        ensures
            match r {
                Some(v) => {
                    &&& old(self)@.contains_key(*key)
                    &&& *v == old(self)@[*key]
                    &&& final(self).wf()
                    &&& final(self).entries() == set_value(old(self).entries(), *key, *final(v))
                    &&& final(self)@ == old(self)@.insert(*key, *final(v))
                    &&& final(self).depth() == old(self).depth()
                    &&& final(self).len() == old(self).len()
                },
                None => !old(self)@.contains_key(*key) && *final(self) == *old(self),
            },
    {
        proof {
            let s = self.entries();
            if has_key(s, *key) {
                assert forall|x: V| #[trigger] set_value(s, *key, x) == put(s, *key, x) by {
                    lemma_set_value_put(s, *key, x);
                }
                assert forall|x: V|
                    sorted(#[trigger] put(s, *key, x)) && as_map(put(s, *key, x)) == as_map(
                        s,
                    ).insert(*key, x) by {
                    lemma_put_sorted(s, *key, x);
                    lemma_put_map(s, *key, x);
                }
            }
        }
        Node::find_mut(&mut self.root, key)
    }

    /// Puts the entry `(key, value)` into the map and hands back the value
    /// that the map held under `key` before, if it held one.
    pub fn insert(&mut self, key: K, value: V) -> (r: Option<V>)
        requires
            lawful::<K>(),
            old(self).wf(),
            old(self).len() < usize::MAX || old(self)@.contains_key(key),
        ensures
            final(self).wf(),
            final(self).entries() == put(old(self).entries(), key, value),
            final(self)@ == old(self)@.insert(key, value),
            r == if old(self)@.contains_key(key) {
                Some(old(self)@[key])
            } else {
                None
            },
            final(self).len() == old(self).len() + if old(self)@.contains_key(key) {
                0int
            } else {
                1int
            },
            final(self).depth() == old(self).depth() || final(self).depth() == old(self).depth()
                + 1,
            old(self)@.contains_key(key) ==> final(self).depth() == old(self).depth(),
    {
        proof {
            lemma_put_map(self.entries(), key, value);
            lemma_nothing::<K, V>(key);
            Node::<K, V>::lemma_leaf(key, value);
        }
        let res = match self.root.take() {
            None => (Box::new(Node::new(key, value)), None),
            Some(n) => n.insert(key, value),
        };
        if res.1.is_none() {
            self.size += 1;
        }
        self.root = Some(res.0);
        res.1
    }

    /// Takes the entry under `key` out of the map, if there is one.
    pub fn remove(&mut self, key: &K)
        requires
            lawful::<K>(),
            old(self).wf(),
        ensures
            final(self).wf(),
            final(self).entries() == cut(old(self).entries(), *key),
            final(self)@ == old(self)@.remove(*key),
            final(self).len() + if old(self)@.contains_key(*key) {
                1int
            } else {
                0int
            } == old(self).len(),
            !old(self)@.contains_key(*key) ==> *final(self) == *old(self),
            final(self).depth() == old(self).depth() || final(self).depth() + 1 == old(
                self,
            ).depth(),
    {
        proof {
            lemma_cut_map(self.entries(), *key);
            lemma_nothing::<K, V>(*key);
        }
        if let Some(n) = self.root.take() {
            let res = n.remove(key);
            self.root = res.0;
            if res.1.is_some() {
                self.size -= 1;
            }
        }
    }

    /// Takes the entry under `key` out of the map, if there is one, and hands
    /// back its value.
    pub fn pop(&mut self, key: &K) -> (r: Option<V>)
        requires
            lawful::<K>(),
            old(self).wf(),
        ensures
            final(self).wf(),
            final(self).entries() == cut(old(self).entries(), *key),
            final(self)@ == old(self)@.remove(*key),
            r == if old(self)@.contains_key(*key) {
                Some(old(self)@[*key])
            } else {
                None
            },
            final(self).len() + if old(self)@.contains_key(*key) {
                1int
            } else {
                0int
            } == old(self).len(),
            !old(self)@.contains_key(*key) ==> *final(self) == *old(self),
            final(self).depth() == old(self).depth() || final(self).depth() + 1 == old(
                self,
            ).depth(),
    {
        proof {
            lemma_cut_map(self.entries(), *key);
            lemma_nothing::<K, V>(*key);
        }
        match self.root.take() {
            None => None,
            Some(n) => {
                let res = n.remove(key);
                if res.1.is_some() {
                    self.size -= 1;
                }
                self.root = res.0;
                res.1
            },
        }
    }

    /// A traversal that lends out each key and each value for reading.
    pub fn iter(&self) -> (it: AvlMapIter<&Box<Node<K, V>>>)
        requires
            self.wf(),
        ensures
            it.wf(),
            it@ == self.entries(),
            it.levels() == self.depth(),
    {
        proof {
            lemma_handles(self.root);
        }
        AvlMapIter::new(self.root.as_ref(), self.size)
    }

    /// A traversal that lends out each key for reading and each value for
    /// writing. It starts from the entries as they are; the count of the map
    /// stays as it is, and so does a map without entries.
    pub fn iter_mut(&mut self) -> (it: AvlMapIter<&mut Box<Node<K, V>>>)
        requires
            old(self).wf(),
        ensures
            it.wf(),
            it@ == old(self).entries(),
            it.levels() == old(self).depth(),
            final(self).len() == old(self).len(),
            old(self).depth() == 0 ==> *final(self) == *old(self),
    {
        proof {
            lemma_handles(self.root);
            if self.root is Some {
                self.root.unwrap().lemma_open();
            }
        }
        AvlMapIter::new(self.root.as_mut(), self.size)
    }

    /// A traversal that hands out each entry and uses the map up.
    pub fn into_iter(self) -> (it: AvlMapIter<Box<Node<K, V>>>)
        requires
            self.wf(),
        ensures
            it.wf(),
            it@ == self.entries(),
            it.levels() == self.depth(),
    {
        proof {
            lemma_handles(self.root);
        }
        AvlMapIter::new(self.root, self.size)
    }
}

} // verus!
