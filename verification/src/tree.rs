use crate::entries::{
    all_above, all_below, as_map, cut, has_key, lemma_cut_within, lemma_key_here, lemma_key_left, lemma_key_right,
    lemma_nothing, lemma_parts_left, lemma_parts_right, lemma_put_above, lemma_put_below,
    lemma_set_value_here, lemma_set_value_left, lemma_set_value_right, lemma_sorted_join,
    lemma_sorted_parts, lemma_sorted_rest, lemma_sorted_without, put, set_value, sorted,
};
use crate::order::{lawful, lemma_three_way};
use core::cmp::Ordering;
use vstd::arithmetic::power2::{lemma2_to64, lemma2_to64_rest, lemma_pow2_unfold, pow2};
use vstd::prelude::*;

verus! {

/// The fewest entries that a balanced tree of depth `h` can hold.
pub open spec fn least(h: nat) -> nat
    decreases h,
{
    if h == 0 {
        0
    } else if h == 1 {
        1
    } else {
        1 + least((h - 1) as nat) + least((h - 2) as nat)
    }
}

/// A deeper balanced tree cannot do with fewer entries.
pub proof fn lemma_least_grows(a: nat, b: nat)
    requires
        a <= b,
    ensures
        least(a) <= least(b),
    decreases b,
{
    if a < b {
        lemma_least_grows(a, (b - 1) as nat);
    }
}

/// Two more levels at least double the fewest entries: a balanced tree of
/// depth `2 * k` holds `2^k` entries or more.
pub proof fn lemma_least_doubles(k: nat)
    requires
        k >= 1,
    ensures
        least(2 * k) >= pow2(k),
    decreases k,
{
    if k == 1 {
        lemma2_to64();
        assert(least(2) == 1 + least(1) + least(0));
    } else {
        lemma_least_doubles((k - 1) as nat);
        lemma_pow2_unfold(k);
        let h = 2 * k;
        assert(least(h) == 1 + least((h - 1) as nat) + least((h - 2) as nat));
        lemma_least_grows((h - 2) as nat, (h - 1) as nat);
    }
}

/// No balanced tree whose entries can be counted in a `usize` is deeper than
/// 127 levels.
pub proof fn lemma_least_deep(h: nat)
    requires
        least(h) <= usize::MAX,
    ensures
        h <= 127,
{
    if h >= 128 {
        lemma_least_grows(128, h);
        lemma_least_doubles(64);
        lemma2_to64_rest();
    }
}

/// One node of the tree: an entry, the height of the subtree below it, and
/// the two subtrees it owns.
pub struct Node<K: Ord, V> {
    pub(crate) key: K,
    pub(crate) value: V,
    pub(crate) height: u8,
    pub(crate) left: Option<Box<Node<K, V>>>,
    pub(crate) right: Option<Box<Node<K, V>>>,
}

impl<K: Ord, V> Node<K, V> {
    /// The entries of the subtree, left to right.
    #[verifier::opaque]
    pub(crate) open spec fn entries(self) -> Seq<(K, V)>
        decreases self,
    {
        (match self.left {
            None => Seq::empty(),
            Some(n) => n.entries(),
        }) + seq![(self.key, self.value)] + (match self.right {
            None => Seq::empty(),
            Some(n) => n.entries(),
        })
    }

    /// The entries of a subtree that may be absent.
    pub(crate) open spec fn entries_of(link: Option<Box<Self>>) -> Seq<(K, V)> {
        match link {
            None => Seq::empty(),
            Some(n) => n.entries(),
        }
    }

    /// The number of nodes on the longest path from this node down.
    #[verifier::opaque]
    pub(crate) open spec fn depth(self) -> nat
        decreases self,
    {
        let l: nat = match self.left {
            None => 0,
            Some(n) => n.depth(),
        };
        let r: nat = match self.right {
            None => 0,
            Some(n) => n.depth(),
        };
        1 + if l > r { l } else { r }
    }

    /// The depth of a subtree that may be absent: none for an absent one.
    pub(crate) open spec fn depth_of(link: Option<Box<Self>>) -> nat {
        match link {
            None => 0,
            Some(n) => n.depth(),
        }
    }

    /// The height that a subtree's root has recorded; none for an absent one.
    pub(crate) open spec fn height_of(link: Option<Box<Self>>) -> nat {
        match link {
            None => 0,
            Some(n) => n.height as nat,
        }
    }

    /// At every node of the subtree the recorded height is the depth, and the
    /// depths of the two children differ by one at most.
    #[verifier::opaque]
    pub(crate) open spec fn balanced(self) -> bool
        decreases self,
    {
        &&& match self.left {
            None => true,
            Some(n) => n.balanced(),
        }
        &&& match self.right {
            None => true,
            Some(n) => n.balanced(),
        }
        &&& self.height == self.depth()
        &&& Self::level(self.left, self.right)
    }

    /// The depths of two subtrees differ by one at most.
    pub(crate) open spec fn level(left: Option<Box<Self>>, right: Option<Box<Self>>) -> bool {
        &&& Self::depth_of(left) <= Self::depth_of(right) + 1
        &&& Self::depth_of(right) <= Self::depth_of(left) + 1
    }

    /// `balanced` for a subtree that may be absent.
    pub(crate) open spec fn balanced_of(link: Option<Box<Self>>) -> bool {
        match link {
            None => true,
            Some(n) => n.balanced(),
        }
    }

    /// The subtree is a balanced search tree: its entries ascend by key and
    /// every node is balanced.
    pub(crate) open spec fn wf(self) -> bool {
        sorted(self.entries()) && self.balanced()
    }

    /// `wf` for a subtree that may be absent.
    pub(crate) open spec fn wf_of(link: Option<Box<Self>>) -> bool {
        sorted(Self::entries_of(link)) && Self::balanced_of(link)
    }

    /// What the node is made of: its left subtree, its entry and its right
    /// subtree.
    pub closed spec fn parts(self) -> (Option<Box<Self>>, (K, V), Option<Box<Self>>) {
        (self.left, (self.key, self.value), self.right)
    }

    /// The node with another value and other subtrees, its key and its
    /// recorded height as they are.
    pub closed spec fn refilled(
        self,
        left: Option<Box<Self>>,
        value: V,
        right: Option<Box<Self>>,
    ) -> Self {
        Node { key: self.key, value, height: self.height, left, right }
    }

    /// `parts` and `refilled` in terms of the node's fields.
    pub(crate) proof fn lemma_parts(self)
        ensures
            self.parts() == (self.left, (self.key, self.value), self.right),
            forall|left: Option<Box<Self>>, value: V, right: Option<Box<Self>>|
                #[trigger] self.refilled(left, value, right) == (Node {
                    key: self.key,
                    value,
                    height: self.height,
                    left,
                    right,
                }),
    {
    }

    /// The node that holds `key` and `value` above `left` and `right`, with
    /// the height that the heights recorded in the two children give.
    pub(crate) open spec fn above(
        key: K,
        value: V,
        left: Option<Box<Self>>,
        right: Option<Box<Self>>,
    ) -> Self {
        let l = Self::height_of(left);
        let r = Self::height_of(right);
        Node { key, value, height: (1 + if l > r { l } else { r }) as u8, left, right }
    }

    /// The subtree after a rotation to the right: the left child stands in
    /// the node's place, the node is its right child, and the left child's
    /// right subtree has become the node's left one.
    pub(crate) open spec fn turned_right(self) -> Self
        recommends
            self.left is Some,
    {
        let l = self.left.unwrap();
        Self::above(
            l.key,
            l.value,
            l.left,
            Some(Box::new(Self::above(self.key, self.value, l.right, self.right))),
        )
    }

    /// The subtree after a rotation to the left, the mirror image of
    /// `turned_right`.
    pub(crate) open spec fn turned_left(self) -> Self
        recommends
            self.right is Some,
    {
        let r = self.right.unwrap();
        Self::above(
            r.key,
            r.value,
            Some(Box::new(Self::above(self.key, self.value, self.left, r.left))),
            r.right,
        )
    }

    /// A node above two balanced search trees, the left one below its key and
    /// the right one above it, holds a sorted sequence of entries; where the
    /// entries can be counted in a `usize`, neither subtree is deeper than 127
    /// levels.
    pub(crate) proof fn lemma_joined(self)
        requires
            lawful::<K>(),
            Self::wf_of(self.left),
            Self::wf_of(self.right),
            all_below(Self::entries_of(self.left), self.key),
            all_above(Self::entries_of(self.right), self.key),
            Self::entries_of(self.left).len() + 1 + Self::entries_of(self.right).len()
                <= usize::MAX,
        ensures
            sorted(self.entries()),
            self.entries() == Self::entries_of(self.left) + seq![(self.key, self.value)]
                + Self::entries_of(self.right),
            Self::depth_of(self.left) <= 127,
            Self::depth_of(self.right) <= 127,
            self.depth() == 1 + if Self::depth_of(self.left) > Self::depth_of(self.right) {
                Self::depth_of(self.left)
            } else {
                Self::depth_of(self.right)
            },
    {
        self.lemma_open();
        lemma_sorted_join(
            Self::entries_of(self.left),
            (self.key, self.value),
            Self::entries_of(self.right),
        );
        Self::lemma_shallow(self.left);
        Self::lemma_shallow(self.right);
    }

    /// What a node's entries, depth and balance are in terms of its subtrees.
    pub(crate) proof fn lemma_open(self)
        ensures
            self.entries() == Self::entries_of(self.left) + seq![(self.key, self.value)]
                + Self::entries_of(self.right),
            self.entries().len() == Self::entries_of(self.left).len() + 1 + Self::entries_of(
                self.right,
            ).len(),
            self.depth() == 1 + if Self::depth_of(self.left) > Self::depth_of(self.right) {
                Self::depth_of(self.left)
            } else {
                Self::depth_of(self.right)
            },
            self.balanced() == {
                &&& Self::balanced_of(self.left)
                &&& Self::balanced_of(self.right)
                &&& self.height == self.depth()
                &&& Self::level(self.left, self.right)
            },
    {
        reveal(Node::entries);
        reveal(Node::depth);
        reveal(Node::balanced);
    }

    /// In a balanced subtree the root has recorded the depth.
    pub(crate) proof fn lemma_recorded(link: Option<Box<Self>>)
        requires
            Self::balanced_of(link),
        ensures
            Self::height_of(link) == Self::depth_of(link),
    {
        if let Some(n) = link {
            n.lemma_open();
        }
    }

    /// What `balanced` says of a node, one level down.
    pub(crate) proof fn lemma_node(self)
        requires
            self.balanced(),
        ensures
            Self::balanced_of(self.left),
            Self::balanced_of(self.right),
            Self::level(self.left, self.right),
            self.height == self.depth(),
            Self::height_of(self.left) == Self::depth_of(self.left),
            Self::height_of(self.right) == Self::depth_of(self.right),
            self.depth() == 1 + if Self::depth_of(self.left) > Self::depth_of(self.right) {
                Self::depth_of(self.left)
            } else {
                Self::depth_of(self.right)
            },
    {
        self.lemma_open();
        Self::lemma_recorded(self.left);
        Self::lemma_recorded(self.right);
    }

    /// A node set above two balanced subtrees that are level is balanced.
    pub(crate) proof fn lemma_above(
        key: K,
        value: V,
        left: Option<Box<Self>>,
        right: Option<Box<Self>>,
    )
        requires
            Self::balanced_of(left),
            Self::balanced_of(right),
            Self::level(left, right),
            Self::depth_of(left) < 255,
            Self::depth_of(right) < 255,
        ensures
            Self::above(key, value, left, right).balanced(),
            Self::above(key, value, left, right).depth() == 1 + if Self::depth_of(left)
                > Self::depth_of(right) {
                Self::depth_of(left)
            } else {
                Self::depth_of(right)
            },
    {
        Self::above(key, value, left, right).lemma_open();
        Self::lemma_recorded(left);
        Self::lemma_recorded(right);
    }

    /// A node whose right subtree is deeper by two, and leans to the right or
    /// to neither side, is balanced after one rotation to the left.
    proof fn lemma_turn_left(self)
        requires
            self.right is Some,
            Self::balanced_of(self.left),
            Self::balanced_of(self.right),
            Self::depth_of(self.right) == Self::depth_of(self.left) + 2,
            Self::depth_of(self.right) <= 127,
            Self::depth_of(self.right.unwrap().left) <= Self::depth_of(self.right.unwrap().right),
        ensures
            self.turned_left().balanced(),
            self.turned_left().depth() == self.depth() || self.turned_left().depth() + 1
                == self.depth(),
    {
        let t = self.right.unwrap();
        self.lemma_open();
        t.lemma_node();
        Self::lemma_above(self.key, self.value, self.left, t.left);
        let q = Self::above(self.key, self.value, self.left, t.left);
        Self::lemma_above(t.key, t.value, Some(Box::new(q)), t.right);
    }

    /// The mirror image of `lemma_turn_left`.
    proof fn lemma_turn_right(self)
        requires
            self.left is Some,
            Self::balanced_of(self.left),
            Self::balanced_of(self.right),
            Self::depth_of(self.left) == Self::depth_of(self.right) + 2,
            Self::depth_of(self.left) <= 127,
            Self::depth_of(self.left.unwrap().right) <= Self::depth_of(self.left.unwrap().left),
        ensures
            self.turned_right().balanced(),
            self.turned_right().depth() == self.depth() || self.turned_right().depth() + 1
                == self.depth(),
    {
        let t = self.left.unwrap();
        self.lemma_open();
        t.lemma_node();
        Self::lemma_above(self.key, self.value, t.right, self.right);
        let q = Self::above(self.key, self.value, t.right, self.right);
        Self::lemma_above(t.key, t.value, t.left, Some(Box::new(q)));
    }

    /// A node whose right subtree is deeper by two and leans to the left is
    /// balanced after that subtree is rotated to the right and the node then
    /// to the left; it has lost one level.
    proof fn lemma_turn_right_left(self)
        requires
            self.right is Some,
            Self::balanced_of(self.left),
            Self::balanced_of(self.right),
            Self::depth_of(self.right) == Self::depth_of(self.left) + 2,
            Self::depth_of(self.right) <= 127,
            Self::depth_of(self.right.unwrap().left) > Self::depth_of(self.right.unwrap().right),
        ensures
            self.right.unwrap().left is Some,
            Self::above(
                self.key,
                self.value,
                self.left,
                Some(Box::new(self.right.unwrap().turned_right())),
            ).turned_left().balanced(),
            Self::above(
                self.key,
                self.value,
                self.left,
                Some(Box::new(self.right.unwrap().turned_right())),
            ).turned_left().depth() + 1 == self.depth(),
    {
        let t = self.right.unwrap();
        self.lemma_open();
        t.lemma_node();
        let u = t.left.unwrap();
        u.lemma_node();
        Self::lemma_above(self.key, self.value, self.left, u.left);
        Self::lemma_above(t.key, t.value, u.right, t.right);
        let a = Self::above(self.key, self.value, self.left, u.left);
        let b = Self::above(t.key, t.value, u.right, t.right);
        Self::lemma_above(u.key, u.value, Some(Box::new(a)), Some(Box::new(b)));
    }

    /// The mirror image of `lemma_turn_right_left`.
    proof fn lemma_turn_left_right(self)
        requires
            self.left is Some,
            Self::balanced_of(self.left),
            Self::balanced_of(self.right),
            Self::depth_of(self.left) == Self::depth_of(self.right) + 2,
            Self::depth_of(self.left) <= 127,
            Self::depth_of(self.left.unwrap().right) > Self::depth_of(self.left.unwrap().left),
        ensures
            self.left.unwrap().right is Some,
            Self::above(
                self.key,
                self.value,
                Some(Box::new(self.left.unwrap().turned_left())),
                self.right,
            ).turned_right().balanced(),
            Self::above(
                self.key,
                self.value,
                Some(Box::new(self.left.unwrap().turned_left())),
                self.right,
            ).turned_right().depth() + 1 == self.depth(),
    {
        let t = self.left.unwrap();
        self.lemma_open();
        t.lemma_node();
        let u = t.right.unwrap();
        u.lemma_node();
        Self::lemma_above(self.key, self.value, u.right, self.right);
        Self::lemma_above(t.key, t.value, t.left, u.left);
        let a = Self::above(t.key, t.value, t.left, u.left);
        let b = Self::above(self.key, self.value, u.right, self.right);
        Self::lemma_above(u.key, u.value, Some(Box::new(a)), Some(Box::new(b)));
    }

    /// A balanced subtree holds at least the fewest entries that its depth
    /// allows.
    pub(crate) proof fn lemma_count(link: Option<Box<Self>>)
        requires
            Self::balanced_of(link),
        ensures
            Self::entries_of(link).len() >= least(Self::depth_of(link)),
        decreases link,
    {
        if let Some(n) = link {
            n.lemma_open();
            Self::lemma_count(n.left);
            Self::lemma_count(n.right);
            let l = Self::depth_of(n.left);
            let r = Self::depth_of(n.right);
            let h = n.depth();
            n.lemma_node();
            if h >= 2 {
                if l >= r {
                    lemma_least_grows((h - 2) as nat, r);
                } else {
                    lemma_least_grows((h - 2) as nat, l);
                }
            }
        }
    }

    /// A balanced subtree whose entries can be counted in a `usize` is at
    /// most 127 levels deep.
    pub(crate) proof fn lemma_shallow(link: Option<Box<Self>>)
        requires
            Self::balanced_of(link),
            Self::entries_of(link).len() <= usize::MAX,
        ensures
            Self::depth_of(link) <= 127,
    {
        Self::lemma_count(link);
        lemma_least_deep(Self::depth_of(link));
    }

    pub(crate) fn new(key: K, value: V) -> (n: Self)
        ensures
            n == Self::above(key, value, None, None),
    {
        Node { key, value, height: 1, left: None, right: None }
    }

    #[inline]
    fn get_height(node: &Option<Box<Self>>) -> (h: u8)
        ensures
            h == Self::height_of(*node),
    {
        match node {
            Some(n) => n.height,
            None => 0,
        }
    }

    #[inline]
    fn bfactor(&self) -> (f: i8)
        requires
            Self::height_of(self.left) <= 127,
            Self::height_of(self.right) <= 127,
        ensures
            f == Self::height_of(self.right) - Self::height_of(self.left),
    {
        Self::get_height(&self.right) as i8 - Self::get_height(&self.left) as i8
    }

    #[inline]
    fn fix_height(&mut self)
        requires
            Self::height_of(old(self).left) < 255,
            Self::height_of(old(self).right) < 255,
        ensures
            *final(self) == Self::above(
                old(self).key,
                old(self).value,
                old(self).left,
                old(self).right,
            ),
    {
        let hl = Self::get_height(&self.left);
        let hr = Self::get_height(&self.right);
        self.height = if hl > hr { hl } else { hr } + 1;
    }

    #[inline]
    fn rotate_right(self: Box<Self>) -> (r: Box<Self>)
        requires
            self.left is Some,
            Self::height_of(self.left.unwrap().left) < 254,
            Self::height_of(self.left.unwrap().right) < 254,
            Self::height_of(self.right) < 254,
        ensures
            *r == self.turned_right(),
            r.entries() == self.entries(),
    {
        let mut p = self;
        let mut q = p.left.unwrap();
        p.left = q.right;
        p.fix_height();
        q.right = Some(p);
        q.fix_height();
        proof {
            let l = self.left.unwrap();
            let a = Self::entries_of(l.left);
            let b = Self::entries_of(l.right);
            let c = Self::entries_of(self.right);
            self.lemma_open();
            l.lemma_open();
            q.lemma_open();
            q.right.unwrap().lemma_open();
            assert(Self::entries_of(self.left) == a + seq![(l.key, l.value)] + b);
            assert(Self::entries_of(q.right) == b + seq![(self.key, self.value)] + c);
            assert(q.entries() == a + seq![(l.key, l.value)] + Self::entries_of(q.right));
            assert(q.entries() =~= self.entries());
        }
        q
    }

    #[inline]
    fn rotate_left(self: Box<Self>) -> (r: Box<Self>)
        requires
            self.right is Some,
            Self::height_of(self.right.unwrap().left) < 254,
            Self::height_of(self.right.unwrap().right) < 254,
            Self::height_of(self.left) < 254,
        ensures
            *r == self.turned_left(),
            r.entries() == self.entries(),
    {
        let mut q = self;
        let mut p = q.right.unwrap();
        q.right = p.left;
        q.fix_height();
        p.left = Some(q);
        p.fix_height();
        proof {
            let t = self.right.unwrap();
            let a = Self::entries_of(self.left);
            let b = Self::entries_of(t.left);
            let c = Self::entries_of(t.right);
            self.lemma_open();
            t.lemma_open();
            p.lemma_open();
            p.left.unwrap().lemma_open();
            assert(Self::entries_of(self.right) == b + seq![(t.key, t.value)] + c);
            assert(Self::entries_of(p.left) == a + seq![(self.key, self.value)] + b);
            assert(p.entries() == Self::entries_of(p.left) + seq![(t.key, t.value)] + c);
            assert(p.entries() =~= self.entries());
        }
        p
    }

    /// Restores the balance of a node whose children are balanced and differ
    /// in depth by two at most, by one rotation or two where they differ by
    /// two, and records its height.
    #[inline]
    fn balance(mut self: Box<Self>) -> (r: Box<Self>)
        requires
            Self::balanced_of(self.left),
            Self::balanced_of(self.right),
            Self::depth_of(self.left) <= Self::depth_of(self.right) + 2,
            Self::depth_of(self.right) <= Self::depth_of(self.left) + 2,
            Self::depth_of(self.left) <= 127,
            Self::depth_of(self.right) <= 127,
        ensures
            r.balanced(),
            r.entries() == self.entries(),
            Self::level(self.left, self.right) ==> *r == Self::above(
                self.key,
                self.value,
                self.left,
                self.right,
            ),
            r.depth() == self.depth() || (r.depth() + 1 == self.depth() && !Self::level(
                self.left,
                self.right,
            )),
    {
        let ghost s0 = *self;
        proof {
            Self::lemma_recorded(self.left);
            Self::lemma_recorded(self.right);
        }
        self.fix_height();
        proof {
            s0.lemma_open();
            self.lemma_open();
        }
        if self.bfactor() == 2 {
            proof {
                s0.right.unwrap().lemma_node();
            }
            if self.right.as_ref().unwrap().bfactor() < 0 {
                proof {
                    s0.lemma_turn_right_left();
                    s0.right.unwrap().left.unwrap().lemma_node();
                }
                self.right = Some(self.right.unwrap().rotate_right());
                proof {
                    self.lemma_open();
                }
                return self.rotate_left();
            }
            proof {
                s0.lemma_turn_left();
            }
            return self.rotate_left();
        }
        if self.bfactor() == -2 {
            proof {
                s0.left.unwrap().lemma_node();
            }
            if self.left.as_ref().unwrap().bfactor() > 0 {
                proof {
                    s0.lemma_turn_left_right();
                    s0.left.unwrap().right.unwrap().lemma_node();
                }
                self.left = Some(self.left.unwrap().rotate_left());
                proof {
                    self.lemma_open();
                }
                return self.rotate_right();
            }
            proof {
                s0.lemma_turn_right();
            }
            return self.rotate_right();
        }
        proof {
            Self::lemma_above(s0.key, s0.value, s0.left, s0.right);
        }
        self
    }

    /// A node without children holds its one entry, which is what putting
    /// that entry into nothing gives, and is a balanced search tree.
    pub(crate) proof fn lemma_leaf(key: K, value: V)
        requires
            lawful::<K>(),
        ensures
            Self::above(key, value, None, None).wf(),
            Self::above(key, value, None, None).depth() == 1,
            Self::above(key, value, None, None).entries() == put(
                Seq::<(K, V)>::empty(),
                key,
                value,
            ),
            Self::above(key, value, None, None).entries() == seq![(key, value)],
    {
        let n = Self::above(key, value, None, None);
        let none = Seq::<(K, V)>::empty();
        n.lemma_open();
        reveal(sorted);
        Self::lemma_above(key, value, None, None);
        lemma_nothing::<K, V>(key);
        assert(n.entries() =~= seq![(key, value)]);
        assert(put(none, key, value) =~= seq![(key, value)]);
    }

    /// Puts the entry `(key, value)` into the subtree and hands back the
    /// subtree, balanced again, with the value that `key` had before.
    pub(crate) fn insert(mut self: Box<Self>, key: K, value: V) -> (r: (Box<Self>, Option<V>))
        requires
            lawful::<K>(),
            self.wf(),
            self.entries().len() <= usize::MAX,
            self.entries().len() < usize::MAX || has_key(self.entries(), key),
        ensures
            r.0.wf(),
            r.0.entries() == put(self.entries(), key, value),
            r.1 == if has_key(self.entries(), key) {
                Some(as_map(self.entries())[key])
            } else {
                None
            },
            r.0.entries().len() == self.entries().len() + if has_key(self.entries(), key) {
                0int
            } else {
                1int
            },
            r.0.depth() == self.depth() || r.0.depth() == self.depth() + 1,
            has_key(self.entries(), key) ==> r.0.depth() == self.depth(),
        decreases self,
    {
        let ghost a = Self::entries_of(self.left);
        let ghost b = Self::entries_of(self.right);
        let ghost e = (self.key, self.value);
        proof {
            self.lemma_open();
            lemma_three_way::<K>();
            lemma_sorted_parts(a, e, b);
            self.lemma_node();
        }
        match key.cmp(&self.key) {
            Ordering::Less => {
                proof {
                    lemma_key_left(a, e, b, key);
                    lemma_parts_left(a, e, b, key);
                    Self::lemma_leaf(key, value);
                }
                let res = match self.left {
                    Some(n) => n.insert(key, value),
                    None => (Box::new(Node::new(key, value)), None),
                };
                self.left = Some(res.0);
                proof {
                    lemma_put_below(a, key, value, e.0);
                    self.lemma_joined();
                }
                (self.balance(), res.1)
            },
            Ordering::Greater => {
                proof {
                    lemma_key_right(a, e, b, key);
                    lemma_parts_right(a, e, b, key);
                    Self::lemma_leaf(key, value);
                }
                let res = match self.right {
                    Some(n) => n.insert(key, value),
                    None => (Box::new(Node::new(key, value)), None),
                };
                self.right = Some(res.0);
                proof {
                    lemma_put_above(b, key, value, e.0);
                    self.lemma_joined();
                }
                (self.balance(), res.1)
            },
            Ordering::Equal => {
                let tmp = Some(self.value);
                self.value = value;
                proof {
                    self.lemma_open();
                    lemma_key_here(a, e, b);
                    lemma_sorted_join(a, (key, value), b);
                }
                (self, tmp)
            },
        }
    }

    /// Takes the node with the least key out of the subtree: hands back what
    /// is left, balanced again, and that node, which has no children.
    fn find_remove_min(mut self: Box<Self>) -> (r: (Option<Box<Self>>, Box<Self>))
        requires
            lawful::<K>(),
            self.wf(),
            self.entries().len() <= usize::MAX,
        ensures
            r.1.left is None,
            r.1.right is None,
            (r.1.key, r.1.value) == self.entries()[0],
            Self::entries_of(r.0) == self.entries().drop_first(),
            Self::wf_of(r.0),
            Self::depth_of(r.0) == self.depth() || Self::depth_of(r.0) + 1 == self.depth(),
        decreases self,
    {
        let ghost a = Self::entries_of(self.left);
        let ghost b = Self::entries_of(self.right);
        let ghost e = (self.key, self.value);
        let ghost s0 = *self;
        proof {
            self.lemma_open();
            lemma_sorted_parts(a, e, b);
            self.lemma_node();
        }
        match self.left {
            None => {
                proof {
                    assert(self.entries().drop_first() =~= b);
                }
                (self.right.take(), self)
            },
            Some(n) => {
                proof {
                    n.lemma_open();
                }
                let res = n.find_remove_min();
                self.left = res.0;
                proof {
                    let a2 = a.drop_first();
                    self.lemma_open();
                    assert(a2 + seq![e] + b =~= s0.entries().drop_first());
                    lemma_sorted_rest(s0.entries());
                    Self::lemma_shallow(self.left);
                    Self::lemma_shallow(self.right);
                }
                (Some(self.balance()), res.1)
            },
        }
    }

    /// Takes the entry under `key` out of the subtree, if there is one, and
    /// hands back what is left, balanced again, with the value that `key`
    /// had. A subtree without `key` comes back as it was.
    pub(crate) fn remove(mut self: Box<Self>, key: &K) -> (r: (Option<Box<Self>>, Option<V>))
        requires
            lawful::<K>(),
            self.wf(),
            self.entries().len() <= usize::MAX,
        ensures
            Self::wf_of(r.0),
            Self::entries_of(r.0) == cut(self.entries(), *key),
            r.1 == if has_key(self.entries(), *key) {
                Some(as_map(self.entries())[*key])
            } else {
                None
            },
            Self::entries_of(r.0).len() + if has_key(self.entries(), *key) {
                1int
            } else {
                0int
            } == self.entries().len(),
            Self::depth_of(r.0) == self.depth() || Self::depth_of(r.0) + 1 == self.depth(),
            !has_key(self.entries(), *key) ==> r.0 == Some(self),
        decreases self,
    {
        let ghost a = Self::entries_of(self.left);
        let ghost b = Self::entries_of(self.right);
        let ghost e = (self.key, self.value);
        proof {
            self.lemma_open();
            lemma_three_way::<K>();
            lemma_sorted_parts(a, e, b);
            self.lemma_node();
            lemma_nothing::<K, V>(*key);
        }
        let mut value = None;
        match key.cmp(&self.key) {
            Ordering::Less => {
                proof {
                    lemma_key_left(a, e, b, *key);
                    lemma_parts_left(a, e, b, *key);
                }
                if let Some(n) = self.left {
                    let (res, v) = n.remove(key);
                    self.left = res;
                    value = v;
                }
                proof {
                    lemma_cut_within(a, *key, e.0);
                    self.lemma_joined();
                }
                (Some(self.balance()), value)
            },
            Ordering::Greater => {
                proof {
                    lemma_key_right(a, e, b, *key);
                    lemma_parts_right(a, e, b, *key);
                }
                if let Some(n) = self.right {
                    let (res, v) = n.remove(key);
                    self.right = res;
                    value = v;
                }
                proof {
                    lemma_cut_within(b, *key, e.0);
                    self.lemma_joined();
                }
                (Some(self.balance()), value)
            },
            Ordering::Equal => {
                proof {
                    lemma_key_here(a, e, b);
                    lemma_sorted_without(a, e, b);
                }
                let q = self.left.take();
                let r = self.right.take();
                let v = self.value;
                match r {
                    None => {
                        proof {
                            assert(a + b =~= a);
                        }
                        (q, Some(v))
                    },
                    Some(n) => {
                        proof {
                            n.lemma_open();
                        }
                        let (r, mut min) = n.find_remove_min();
                        min.right = r;
                        min.left = q;
                        proof {
                            let m = (min.key, min.value);
                            min.lemma_open();
                            assert(a + seq![m] + b.drop_first() =~= a + b);
                            Self::lemma_shallow(min.left);
                            Self::lemma_shallow(min.right);
                        }
                        (Some(min.balance()), Some(v))
                    },
                }
            },
        }
    }

    /// Looks `key` up in a subtree that may be absent.
    pub(crate) fn find<'a>(node: &'a Option<Box<Self>>, key: &K) -> (r: Option<&'a V>)
        requires
            lawful::<K>(),
            sorted(Self::entries_of(*node)),
        ensures
            match r {
                Some(v) => has_key(Self::entries_of(*node), *key) && *v == as_map(
                    Self::entries_of(*node),
                )[*key],
                None => !has_key(Self::entries_of(*node), *key),
            },
        decreases *node,
    {
        match node {
            None => None,
            Some(n) => {
                let ghost a = Self::entries_of(n.left);
                let ghost b = Self::entries_of(n.right);
                let ghost e = (n.key, n.value);
                proof {
                    n.lemma_open();
                    lemma_three_way::<K>();
                    lemma_sorted_parts(a, e, b);
                }
                match key.cmp(&n.key) {
                    Ordering::Less => {
                        proof {
                            lemma_key_left(a, e, b, *key);
                        }
                        Self::find(&n.left, key)
                    },
                    Ordering::Greater => {
                        proof {
                            lemma_key_right(a, e, b, *key);
                        }
                        Self::find(&n.right, key)
                    },
                    Ordering::Equal => {
                        proof {
                            lemma_key_here(a, e, b);
                        }
                        Some(&n.value)
                    },
                }
            },
        }
    }

    /// Looks `key` up in a subtree that may be absent and lends its value out
    /// for writing. What the borrower leaves in the value is what the subtree
    /// then holds under `key`; nothing else changes.
    pub(crate) fn find_mut<'a>(node: &'a mut Option<Box<Self>>, key: &K) -> (r: Option<&'a mut V>)
        requires
            lawful::<K>(),
            sorted(Self::entries_of(*old(node))),
        ensures
            match r {
                Some(v) => {
                    &&& has_key(Self::entries_of(*old(node)), *key)
                    &&& *v == as_map(Self::entries_of(*old(node)))[*key]
                    &&& Self::entries_of(*final(node)) == set_value(
                        Self::entries_of(*old(node)),
                        *key,
                        *final(v),
                    )
                    &&& Self::depth_of(*final(node)) == Self::depth_of(*old(node))
                    &&& Self::height_of(*final(node)) == Self::height_of(*old(node))
                    &&& Self::balanced_of(*old(node)) ==> Self::balanced_of(*final(node))
                },
                None => !has_key(Self::entries_of(*old(node)), *key) && *final(node) == *old(
                    node,
                ),
            },
        decreases *old(node),
    {
        match node {
            None => None,
            Some(n) => {
                let ghost a = Self::entries_of(n.left);
                let ghost b = Self::entries_of(n.right);
                let ghost e = (n.key, n.value);
                proof {
                    reveal(Node::entries);
                    reveal(Node::depth);
                    reveal(Node::balanced);
                    lemma_three_way::<K>();
                    lemma_sorted_parts(a, e, b);
                }
                match key.cmp(&n.key) {
                    Ordering::Less => {
                        proof {
                            lemma_key_left(a, e, b, *key);
                            assert forall|x: V| #[trigger]
                                set_value(a + seq![e] + b, *key, x) == set_value(a, *key, x)
                                    + seq![e] + b by {
                                lemma_set_value_left(a, e, b, *key, x);
                            }
                        }
                        Self::find_mut(&mut n.left, key)
                    },
                    Ordering::Greater => {
                        proof {
                            lemma_key_right(a, e, b, *key);
                            assert forall|x: V| #[trigger]
                                set_value(a + seq![e] + b, *key, x) == a + seq![e] + set_value(
                                    b,
                                    *key,
                                    x,
                                ) by {
                                lemma_set_value_right(a, e, b, *key, x);
                            }
                        }
                        Self::find_mut(&mut n.right, key)
                    },
                    Ordering::Equal => {
                        proof {
                            lemma_key_here(a, e, b);
                            assert forall|x: V| #[trigger]
                                set_value(a + seq![e] + b, e.0, x) == a + seq![(e.0, x)] + b by {
                                lemma_set_value_here(a, e, b, x);
                            }
                        }
                        Some(&mut n.value)
                    },
                }
            },
        }
    }
}

} // verus!
