use crate::utils::order::{
    duplicate, faithful_clone, greater, key_type, lemma_trichotomy, less, lt, same, total_order,
};
use crate::utils::sorted::{
    lemma_insert_sorted_contains,
    insert_all, insert_sorted, lemma_insert_sorted_keeps_sorted, lemma_insert_sorted_keeps_strict,
    lemma_insert_sorted_left, lemma_insert_sorted_right, lemma_remove_value_absent,
    lemma_remove_value_left, lemma_remove_value_middle, lemma_remove_value_right,
    lemma_sorted_parts, lemma_sorted_sides, sorted, strictly_sorted, upper_bound,
};
use crate::utils::traversal::{keys_of, lemma_reverse_join, reversed};
use std::fmt::{Debug, Display};
use std::mem::swap;
use vstd::prelude::*;

verus! {

/// A binary search tree without balancing: a node holds its key and its two
/// subtrees.
pub enum BST<T: PartialOrd + Clone + Debug + Display> {
    Node(T, Box<BST<T>>, Box<BST<T>>),
    Empty,
}

impl<T: PartialOrd + Clone + Debug + Display> View for BST<T> {
    type V = Seq<T>;

    /// The keys from left to right.
    open spec fn view(&self) -> Seq<T> {
        self.in_order_seq()
    }
}

impl<T: PartialOrd + Clone + Debug + Display> BST<T> {
    /// Left subtree, the node's key, right subtree.
    pub open spec fn in_order_seq(self) -> Seq<T>
        decreases self,
    {
        match self {
            BST::Empty => Seq::empty(),
            BST::Node(v, l, r) => l.in_order_seq() + seq![v] + r.in_order_seq(),
        }
    }

    /// The node's key, left subtree, right subtree.
    pub open spec fn pre_order_seq(self) -> Seq<T>
        decreases self,
    {
        match self {
            BST::Empty => Seq::empty(),
            BST::Node(v, l, r) => seq![v] + l.pre_order_seq() + r.pre_order_seq(),
        }
    }

    /// Left subtree, right subtree, the node's key.
    pub open spec fn post_order_seq(self) -> Seq<T>
        decreases self,
    {
        match self {
            BST::Empty => Seq::empty(),
            BST::Node(v, l, r) => l.post_order_seq() + r.post_order_seq() + seq![v],
        }
    }

    /// The node's key, right subtree, left subtree: the post-order read
    /// backwards.
    pub open spec fn mirrored_pre_order_seq(self) -> Seq<T>
        decreases self,
    {
        match self {
            BST::Empty => Seq::empty(),
            BST::Node(v, l, r) => seq![v] + r.mirrored_pre_order_seq()
                + l.mirrored_pre_order_seq(),
        }
    }

    /// The number of nodes on the longest way down from here.
    pub open spec fn spec_depth(self) -> nat
        decreases self,
    {
        match self {
            BST::Empty => 0,
            BST::Node(_, l, r) => if l.spec_depth() >= r.spec_depth() {
                1 + l.spec_depth()
            } else {
                1 + r.spec_depth()
            },
        }
    }

    /// The number of nodes.
    spec fn size(self) -> nat
        decreases self,
    {
        match self {
            BST::Empty => 0,
            BST::Node(_, l, r) => 1 + l.size() + r.size(),
        }
    }

    /// The left subtree; that of the empty tree is empty.
    pub open spec fn spec_left(self) -> Self {
        match self {
            BST::Empty => BST::Empty,
            BST::Node(_, l, _) => *l,
        }
    }

    /// The right subtree; that of the empty tree is empty.
    pub open spec fn spec_right(self) -> Self {
        match self {
            BST::Empty => BST::Empty,
            BST::Node(_, _, r) => *r,
        }
    }

    /// The key at the root, if the tree has one.
    pub open spec fn spec_value(self) -> Option<T> {
        match self {
            BST::Empty => None,
            BST::Node(v, _, _) => Some(v),
        }
    }

    /// The validity of a tree: the keys ascend from left to right (equal keys
    /// may follow one another).
    pub open spec fn wf(self) -> bool {
        sorted(self@)
    }

    /// The nodes of all the trees on a stack.
    spec fn stack_size(stack: Seq<&Self>) -> nat
        decreases stack.len(),
    {
        if stack.len() == 0 {
            0
        } else {
            stack.last().size() + Self::stack_size(stack.drop_last())
        }
    }

    /// The pre-orders of the trees on a stack, from the top down.
    spec fn stack_pre_order(stack: Seq<&Self>) -> Seq<T>
        decreases stack.len(),
    {
        if stack.len() == 0 {
            Seq::empty()
        } else {
            stack.last().pre_order_seq() + Self::stack_pre_order(stack.drop_last())
        }
    }

    /// The mirrored pre-orders of the trees on a stack, from the top down.
    spec fn stack_mirrored(stack: Seq<&Self>) -> Seq<T>
        decreases stack.len(),
    {
        if stack.len() == 0 {
            Seq::empty()
        } else {
            stack.last().mirrored_pre_order_seq() + Self::stack_mirrored(stack.drop_last())
        }
    }

    /// For each tree on a stack, from the top down, its root's key and then
    /// the keys of its right subtree in order.
    spec fn stack_in_order(stack: Seq<&Self>) -> Seq<T>
        decreases stack.len(),
    {
        if stack.len() == 0 {
            Seq::empty()
        } else {
            seq![stack.last()->0] + stack.last().spec_right().in_order_seq()
                + Self::stack_in_order(stack.drop_last())
        }
    }

    /// For each tree on a stack, one and the nodes of its right subtree.
    spec fn stack_rest_size(stack: Seq<&Self>) -> nat
        decreases stack.len(),
    {
        if stack.len() == 0 {
            0
        } else {
            1 + stack.last().spec_right().size() + Self::stack_rest_size(stack.drop_last())
        }
    }

    /// The tree that holds `v` alone.
    pub open spec fn leaf(v: T) -> Self {
        BST::Node(v, Box::new(BST::Empty), Box::new(BST::Empty))
    }

    /// The tree after `v` was put in: `v` goes down to the left of the keys
    /// that it comes before and to the right of the others, and takes the
    /// first empty place.
    pub open spec fn inserted(self, v: T) -> Self
        decreases self,
    {
        match self {
            BST::Empty => Self::leaf(v),
            BST::Node(k, l, r) => if lt(v, k) {
                BST::Node(k, Box::new(l.inserted(v)), r)
            } else {
                BST::Node(k, l, Box::new(r.inserted(v)))
            },
        }
    }

    /// The tree after one `v` was taken out. The way goes down to the left
    /// of the keys that `v` comes before and to the right of those it comes
    /// behind. A node with `v` that has no subtree goes; one with a single
    /// subtree gives way to it; one with two takes the first key of its right
    /// subtree, which is then taken out there.
    pub open spec fn removed(self, v: T) -> Self
        decreases self,
    {
        match self {
            BST::Empty => BST::Empty,
            BST::Node(k, l, r) => if lt(v, k) {
                BST::Node(k, Box::new(l.removed(v)), r)
            } else if lt(k, v) {
                BST::Node(k, l, Box::new(r.removed(v)))
            } else if *l is Empty && *r is Empty {
                BST::Empty
            } else if *l is Node && *r is Node {
                BST::Node(r@.first(), l, Box::new(r.removed(r@.first())))
            } else if *l is Node {
                *l
            } else {
                *r
            },
        }
    }

    /// The empty tree.
    pub fn new() -> (t: BST<T>)
        ensures
            t is Empty,
            t.wf(),
            t@ == Seq::<T>::empty(),
    {
        BST::Empty
    }

    /// The number of nodes on the longest way from the root down. It must fit
    /// in `usize`.
    pub fn depth(&self) -> (d: usize)
        requires
            self.spec_depth() <= usize::MAX,
        ensures
            d == self.spec_depth(),
        decreases self,
    {
        match self {
            BST::Empty => 0,
            BST::Node(_, l, r) => {
                let dl = l.depth();
                let dr = r.depth();
                if dl >= dr {
                    1 + dl
                } else {
                    1 + dr
                }
            },
        }
    }

    /// Puts `value` into the tree, behind the keys that are not above it. A
    /// key that is already there is put in once more.
    pub fn insert(&mut self, value: T) -> (ret: &mut Self)
        requires
            key_type::<T>(),
            old(self).wf(),
        ensures
            *final(self) == *final(ret),
            *ret == old(self).inserted(value),
            ret.wf(),
            ret@ == insert_sorted(old(self)@, value),
            forall|x: T| #[trigger] ret@.contains(x) <==> x == value || old(self)@.contains(x),
            strictly_sorted(old(self)@) && !old(self)@.contains(value) ==> strictly_sorted(ret@),
        decreases *old(self),
    {
        let ghost t0 = *self;
        let ghost v = value;
        proof {
            if t0 is Node {
                lemma_sorted_parts(t0.spec_left()@, t0->0, t0.spec_right()@);
            }
        }
        match self {
            BST::Empty => *self = BST::Node(value, Box::new(BST::Empty), Box::new(BST::Empty)),
            BST::Node(old_value, l, r) => {
                if less(&value, old_value) {
                    l.insert(value);
                } else {
                    r.insert(value);
                }
            },
        }
        proof {
            let t1 = *self;
            lemma_insert_sorted_keeps_sorted(t0@, v);
            lemma_insert_sorted_contains(t0@, v);
            if strictly_sorted(t0@) && !t0@.contains(v) {
                lemma_insert_sorted_keeps_strict(t0@, v);
            }
            match t0 {
                BST::Empty => {
                    assert(upper_bound(t0@, v) == 0);
                    assert(t1@ =~= insert_sorted(t0@, v));
                },
                BST::Node(k, l, r) => {
                    if lt(v, k) {
                        lemma_insert_sorted_left(l@, k, r@, v);
                    } else {
                        lemma_insert_sorted_right(l@, k, r@, v);
                    }
                    assert(t1@ =~= insert_sorted(t0@, v));
                },
            }
        }
        self
    }

    /// Takes one `value` out of the tree, if it holds one.
    pub fn remove(&mut self, value: T) -> (ret: &mut Self)
        requires
            key_type::<T>(),
            old(self).wf(),
        ensures
            *final(self) == *final(ret),
            *ret == old(self).removed(value),
            ret.wf(),
            ret@ == old(self)@.remove_value(value),
        decreases *old(self),
    {
        let ghost t0 = *self;
        let ghost gv = value;
        proof {
            t0.lemma_view_len();
            if t0 is Node {
                lemma_trichotomy(gv, t0->0);
                lemma_sorted_sides(t0.spec_left()@, t0->0, t0.spec_right()@, gv);
                t0.spec_left().lemma_view_len();
                t0.spec_right().lemma_view_len();
            }
        }
        let child_num = self.get_child_num();
        let mut node = BST::Empty;
        let mut is_swapped = false;
        let is_leaf = self.is_leaf();
        match self {
            BST::Empty => {},
            BST::Node(v, l, r) => {
                if less(&value, v) {
                    l.remove(value);
                } else if greater(&value, v) {
                    r.remove(value);
                } else {
                    if is_leaf && same(v, &value) {
                        // a leaf node
                        is_swapped = true;
                    } else if child_num == 2 {
                        // two children: put the min of the right branch as the current value,
                        // then remove it from right branch
                        *v = r.find_min().unwrap();
                        r.remove(duplicate(v));
                    } else {
                        if !l.is_empty() {
                            is_swapped = true;
                            swap(&mut node, &mut **l);
                        } else if !r.is_empty() {
                            is_swapped = true;
                            swap(&mut node, &mut **r);
                        } else {
                            // will not be reached.
                        }
                    }
                }
            },
        }
        if is_swapped {
            *self = node;
        }
        proof {
            Self::lemma_removed(t0, *self, gv);
        }

        self
    }

    /// The left subtree, unless the tree is empty.
    fn left(&self) -> (res: Option<&Self>)
        ensures
            res == (if self is Empty {
                None
            } else {
                Some(&self.spec_left())
            }),
    {
        match self {
            BST::Empty => None,
            BST::Node(_, l, _) => Some(l),
        }
    }

    /// The right subtree, unless the tree is empty.
    fn right(&self) -> (res: Option<&Self>)
        ensures
            res == (if self is Empty {
                None
            } else {
                Some(&self.spec_right())
            }),
    {
        match self {
            BST::Empty => None,
            BST::Node(_, _, r) => Some(r),
        }
    }

    /// A copy of the key at the root, if the tree has one.
    pub fn get_value(&self) -> (res: Option<T>)
        requires
            faithful_clone::<T>(),
        ensures
            res == self.spec_value(),
    {
        match self {
            BST::Empty => None,
            BST::Node(v, _, _) => Some(duplicate(v)),
        }
    }

    /// The key at the root, if the tree has one.
    fn value(&self) -> (res: Option<&T>)
        ensures
            res == (match self.spec_value() {
                Some(v) => Some(&v),
                None => None,
            }),
    {
        match self {
            BST::Empty => None,
            BST::Node(v, _, _) => Some(v),
        }
    }

    /// Whether the tree holds no key.
    pub fn is_empty(&self) -> (b: bool)
        ensures
            b == (self is Empty),
    {
        match self {
            BST::Empty => true,
            _ => false,
        }
    }

    /// How many of the two subtrees of the root are not empty.
    pub fn get_child_num(&self) -> (num: usize)
        ensures
            num == (if self.spec_left() is Node {
                1int
            } else {
                0int
            }) + (if self.spec_right() is Node {
                1int
            } else {
                0int
            }),
    {
        let mut num: usize = 0;
        match self {
            BST::Empty => num = 0,
            BST::Node(_, l, r) => {
                if !l.is_empty() {
                    num += 1;
                }
                if !r.is_empty() {
                    num += 1;
                }
            },
        }
        num
    }

    /// Whether the root has no left subtree; the empty tree has none.
    pub fn is_left_empty(&self) -> (b: bool)
        ensures
            b == (self.spec_left() is Empty),
    {
        match self {
            BST::Empty => true,
            BST::Node(_, l, _) => l.is_empty(),
        }
    }

    /// Whether the root has no right subtree; the empty tree has none.
    pub fn is_right_empty(&self) -> (b: bool)
        ensures
            b == (self.spec_right() is Empty),
    {
        match self {
            BST::Empty => true,
            BST::Node(_, _, r) => r.is_empty(),
        }
    }

    /// Whether the tree is a single node.
    pub fn is_leaf(&self) -> (b: bool)
        ensures
            b == (self is Node && self.spec_left() is Empty && self.spec_right() is Empty),
    {
        match self {
            BST::Empty => false,
            _ => self.get_child_num() == 0,
        }
    }

    /// The leftmost key; in a valid tree no key comes before it.
    pub fn find_min(&self) -> (res: Option<T>)
        requires
            faithful_clone::<T>(),
        ensures
            res == (if self is Empty {
                None
            } else {
                Some(self@.first())
            }),
        decreases self,
    {
        proof {
            self.lemma_view_len();
        }
        match self {
            BST::Empty => None,
            BST::Node(v, l, _) => {
                if l.is_empty() {
                    Some(duplicate(v))
                } else {
                    l.find_min()
                }
            },
        }
    }

    /// The rightmost key; in a valid tree no key comes behind it.
    pub fn find_max(&self) -> (res: Option<T>)
        requires
            faithful_clone::<T>(),
        ensures
            res == (if self is Empty {
                None
            } else {
                Some(self@.last())
            }),
        decreases self,
    {
        proof {
            self.lemma_view_len();
        }
        match self {
            BST::Empty => None,
            BST::Node(v, _, r) => {
                if r.is_empty() {
                    Some(duplicate(v))
                } else {
                    r.find_max()
                }
            },
        }
    }

    /// Whether the tree holds `value`.
    pub fn contains(&self, value: T) -> (b: bool)
        requires
            key_type::<T>(),
            self.wf(),
        ensures
            b == self@.contains(value),
        decreases self,
    {
        match self {
            BST::Empty => {
                assert(self@.len() == 0);
                false
            },
            BST::Node(v, l, r) => {
                proof {
                    lemma_sorted_sides(l@, *v, r@, value);
                    lemma_trichotomy(value, *v);
                }
                if same(&value, v) {
                    true
                } else if greater(&value, v) {
                    r.contains(value)
                } else {
                    l.contains(value)
                }
            },
        }
    }

    /// The keys with each node before its subtrees, the left one first;
    /// `None` for the empty tree.
    pub fn pre_order(&self) -> (res: Option<Vec<&T>>)
        ensures
            res is None <==> self is Empty,
            res matches Some(keys) ==> keys_of(keys@) == self.pre_order_seq(),
    {
        if self.is_empty() {
            return None;
        }
        let mut tmp: Vec<&BST<T>> = Vec::new();
        tmp.push(self);
        let mut nodes: Vec<&T> = Vec::new();
        proof {
            Self::lemma_stack_push(Seq::empty(), self);
            assert(Self::stack_pre_order(Seq::empty()) =~= Seq::empty());
            assert(keys_of(nodes@) + Self::stack_pre_order(tmp@) =~= self.pre_order_seq());
        }
        loop
            invariant
                forall|i: int| 0 <= i < tmp.len() ==> *tmp@[i] is Node,
                keys_of(nodes@) + Self::stack_pre_order(tmp@) == self.pre_order_seq(),
            ensures
                keys_of(nodes@) == self.pre_order_seq(),
            decreases Self::stack_size(tmp@),
        {
            if tmp.is_empty() {
                proof {
                    assert(keys_of(nodes@) + Self::stack_pre_order(tmp@) =~= keys_of(nodes@));
                }
                break;
            }
            let ghost stack0 = tmp@;
            let ghost nodes0 = nodes@;

            // stack first in last out
            let n = tmp.pop().unwrap();
            nodes.push(n.value().unwrap());
            let ghost rest = tmp@;
            proof {
                assert(rest =~= stack0.drop_last());
            }

            // right is popped first
            if !n.is_right_empty() {
                proof {
                    Self::lemma_stack_push(tmp@, &n.spec_right());
                }
                tmp.push(n.right().unwrap())
            }
            if !n.is_left_empty() {
                proof {
                    Self::lemma_stack_push(tmp@, &n.spec_left());
                }
                tmp.push(n.left().unwrap())
            }
            proof {
                let l = n.spec_left();
                let r = n.spec_right();
                assert(keys_of(nodes@) =~= keys_of(nodes0).push(n->0));
                assert(Self::stack_pre_order(tmp@) =~= l.pre_order_seq() + r.pre_order_seq()
                    + Self::stack_pre_order(rest));
                assert(Self::stack_size(tmp@) == l.size() + r.size() + Self::stack_size(rest));
                assert(keys_of(nodes@) + Self::stack_pre_order(tmp@) =~= keys_of(nodes0)
                    + Self::stack_pre_order(stack0));
            }
        }

        Some(nodes)
    }

    /// The keys from left to right; `None` for the empty tree.
    pub fn in_order(&self) -> (res: Option<Vec<&T>>)
        ensures
            res is None <==> self is Empty,
            res matches Some(keys) ==> keys_of(keys@) == self@,
    {
        if self.is_empty() {
            return None;
        }
        let mut tmp: Vec<&BST<T>> = Vec::new();
        let mut nodes: Vec<&T> = Vec::new();

        let mut p = self;
        proof {
            assert(keys_of(nodes@) + p.in_order_seq() + Self::stack_in_order(tmp@)
                =~= self.in_order_seq());
        }
        loop
            invariant
                forall|i: int| 0 <= i < tmp.len() ==> *tmp@[i] is Node,
                keys_of(nodes@) + p.in_order_seq() + Self::stack_in_order(tmp@)
                    == self.in_order_seq(),
            ensures
                keys_of(nodes@) == self.in_order_seq(),
            decreases p.size() + Self::stack_rest_size(tmp@),
        {
            if p.is_empty() && tmp.is_empty() {
                proof {
                    assert(keys_of(nodes@) + p.in_order_seq() + Self::stack_in_order(tmp@)
                        =~= keys_of(nodes@));
                }
                break;
            }
            let ghost origin = p;
            let ghost stack0 = tmp@;

            // push left branch
            loop
                invariant
                    forall|i: int| 0 <= i < tmp.len() ==> *tmp@[i] is Node,
                    p.in_order_seq() + Self::stack_in_order(tmp@) == origin.in_order_seq()
                        + Self::stack_in_order(stack0),
                    p.size() + Self::stack_rest_size(tmp@) == origin.size() + Self::stack_rest_size(
                        stack0,
                    ),
                    tmp.len() >= stack0.len(),
                    *origin is Node || stack0.len() > 0,
                    *origin is Node ==> *p is Node || tmp.len() > 0,
                ensures
                    *p is Empty,
                    tmp.len() > 0,
                decreases p.size(),
            {
                if p.is_empty() {
                    break;
                }
                proof {
                    Self::lemma_stack_push(tmp@, p);
                    assert(p.in_order_seq() + Self::stack_in_order(tmp@)
                        =~= p.spec_left().in_order_seq() + Self::stack_in_order(tmp@.push(p)));
                }
                tmp.push(p);
                p = p.left().unwrap();
            }
            let ghost stack1 = tmp@;
            let ghost nodes1 = nodes@;

            p = tmp.pop().unwrap();
            nodes.push(p.value().unwrap());  // left, current, right
            proof {
                assert(tmp@ =~= stack1.drop_last());
                assert(keys_of(nodes@) =~= keys_of(nodes1).push(p->0));
                assert(keys_of(nodes@) + p.spec_right().in_order_seq() + Self::stack_in_order(tmp@)
                    =~= keys_of(nodes1) + (Seq::<T>::empty() + Self::stack_in_order(stack1)));
                assert(Seq::<T>::empty() + Self::stack_in_order(stack1) =~= origin.in_order_seq()
                    + Self::stack_in_order(stack0));
                assert(keys_of(nodes1) + (origin.in_order_seq() + Self::stack_in_order(stack0))
                    =~= keys_of(nodes1) + origin.in_order_seq() + Self::stack_in_order(stack0));
            }
            p = p.right().unwrap();
        }

        Some(nodes)
    }

    /// The keys with each node behind its subtrees, the left one first;
    /// `None` for the empty tree.
    pub fn post_order(&self) -> (res: Option<Vec<&T>>)
        ensures
            res is None <==> self is Empty,
            res matches Some(keys) ==> keys_of(keys@) == self.post_order_seq(),
    {
        if self.is_empty() {
            return None;
        }
        let mut tmp: Vec<&BST<T>> = Vec::new();
        let mut nodes: Vec<&T> = Vec::new();

        tmp.push(self);
        proof {
            Self::lemma_stack_push(Seq::empty(), self);
            assert(Self::stack_mirrored(Seq::empty()) =~= Seq::empty());
            assert(keys_of(nodes@) + Self::stack_mirrored(tmp@) =~= self.mirrored_pre_order_seq());
        }
        loop
            invariant
                forall|i: int| 0 <= i < tmp.len() ==> *tmp@[i] is Node,
                keys_of(nodes@) + Self::stack_mirrored(tmp@) == self.mirrored_pre_order_seq(),
            ensures
                keys_of(nodes@) == self.mirrored_pre_order_seq(),
            decreases Self::stack_size(tmp@),
        {
            let ghost stack0 = tmp@;
            let ghost nodes0 = nodes@;
            // 2. current > right > left
            let p = tmp.pop();
            if p.is_none() {
                proof {
                    assert(keys_of(nodes@) + Self::stack_mirrored(tmp@) =~= keys_of(nodes@));
                }
                break;
            }
            // 1. current > left > right

            let p = p.unwrap();
            nodes.push(p.value().unwrap());
            let ghost rest = tmp@;
            proof {
                assert(rest =~= stack0.drop_last());
            }

            if !p.is_left_empty() {
                proof {
                    Self::lemma_stack_push(tmp@, &p.spec_left());
                }
                tmp.push(p.left().unwrap());
            }
            if !p.is_right_empty() {
                proof {
                    Self::lemma_stack_push(tmp@, &p.spec_right());
                }
                tmp.push(p.right().unwrap());
            }
            proof {
                let l = p.spec_left();
                let r = p.spec_right();
                assert(keys_of(nodes@) =~= keys_of(nodes0).push(p->0));
                assert(Self::stack_mirrored(tmp@) =~= r.mirrored_pre_order_seq()
                    + l.mirrored_pre_order_seq() + Self::stack_mirrored(rest));
                assert(Self::stack_size(tmp@) == l.size() + r.size() + Self::stack_size(rest));
                assert(keys_of(nodes@) + Self::stack_mirrored(tmp@) =~= keys_of(nodes0)
                    + Self::stack_mirrored(stack0));
            }
        }

        // 3. left > right > current
        proof {
            self.lemma_mirrored_reverse();
        }
        Some(reversed(&nodes))
    }

    /// What `remove` makes of a valid tree `t0`: a tree `t1` that holds the
    /// keys of `t0` but for one `v`.
    proof fn lemma_removed(t0: Self, t1: Self, v: T)
        requires
            total_order::<T>(),
            t0.wf(),
            match t0 {
                BST::Empty => t1 is Empty,
                BST::Node(k, l, r) => if lt(v, k) {
                    &&& t1 matches BST::Node(k1, l1, r1)
                    &&& k1 == k && r1 == r
                    &&& l1@ == l@.remove_value(v)
                } else if lt(k, v) {
                    &&& t1 matches BST::Node(k1, l1, r1)
                    &&& k1 == k && l1 == l
                    &&& r1@ == r@.remove_value(v)
                } else if *l is Empty && *r is Empty {
                    t1 is Empty
                } else if *l is Node && *r is Node {
                    &&& t1 matches BST::Node(k1, l1, r1)
                    &&& k1 == r@.first() && l1 == l
                    &&& r1@ == r@.remove_value(r@.first())
                } else if *l is Node {
                    t1 == *l
                } else {
                    t1 == *r
                },
            },
        ensures
            t1@ == t0@.remove_value(v),
            sorted(t1@),
    {
        t0.lemma_view_len();
        match t0 {
            BST::Empty => {
                lemma_remove_value_absent(t0@, v);
            },
            BST::Node(k, l, r) => {
                l.lemma_view_len();
                r.lemma_view_len();
                if lt(v, k) {
                    lemma_remove_value_left(l@, k, r@, v);
                } else if lt(k, v) {
                    lemma_remove_value_right(l@, k, r@, v);
                } else {
                    lemma_trichotomy(v, k);
                    lemma_remove_value_middle(l@, k, r@);
                    if *l is Empty && *r is Empty {
                        assert(t1@ =~= l@ + r@);
                    } else if *l is Node && *r is Node {
                    } else if *l is Node {
                        assert(t1@ =~= l@ + r@);
                    } else {
                        assert(t1@ =~= l@ + r@);
                    }
                }
            },
        }
    }

    /// The tree holds a key exactly where it is not empty; its first key is
    /// the leftmost and its last the rightmost.
    pub proof fn lemma_view_len(self)
        ensures
            self is Empty <==> self@.len() == 0,
            self is Node ==> self@.first() == (if self.spec_left() is Node {
                self.spec_left()@.first()
            } else {
                self->0
            }),
            self is Node ==> self@.last() == (if self.spec_right() is Node {
                self.spec_right()@.last()
            } else {
                self->0
            }),
        decreases self,
    {
        match self {
            BST::Empty => {},
            BST::Node(v, l, r) => {
                l.lemma_view_len();
                r.lemma_view_len();
            },
        }
    }

    /// Each of the three orders holds the keys of the tree, each key as often
    /// as the others hold it.
    pub proof fn lemma_orders_hold_same_keys(self)
        ensures
            self.pre_order_seq().to_multiset() =~= self@.to_multiset(),
            self.post_order_seq().to_multiset() =~= self@.to_multiset(),
        decreases self,
    {
        match self {
            BST::Empty => {},
            BST::Node(v, l, r) => {
                l.lemma_orders_hold_same_keys();
                r.lemma_orders_hold_same_keys();
                let k = seq![v];
                vstd::seq_lib::lemma_multiset_commutative(l@, k);
                vstd::seq_lib::lemma_multiset_commutative(l@ + k, r@);
                vstd::seq_lib::lemma_multiset_commutative(k, l.pre_order_seq());
                vstd::seq_lib::lemma_multiset_commutative(k + l.pre_order_seq(), r.pre_order_seq());
                vstd::seq_lib::lemma_multiset_commutative(l.post_order_seq(), r.post_order_seq());
                vstd::seq_lib::lemma_multiset_commutative(
                    l.post_order_seq() + r.post_order_seq(),
                    k,
                );
            },
        }
    }

    /// The keys of a valid tree in pre-order, put one after another into an
    /// empty tree, make a tree with the same keys from left to right: the
    /// shape may differ, the order of the keys does not.
    pub proof fn lemma_rebuilt_from_pre_order(self)
        requires
            total_order::<T>(),
            sorted(self@),
        ensures
            insert_all(self.pre_order_seq()) == self@,
    {
        self.lemma_orders_hold_same_keys();
        crate::utils::sorted::lemma_insert_all_restores(self.pre_order_seq(), self@);
    }

    /// What the functions over a stack make of a stack with one more tree on
    /// it.
    proof fn lemma_stack_push(stack: Seq<&Self>, t: &Self)
        ensures
            Self::stack_size(stack.push(t)) == t.size() + Self::stack_size(stack),
            Self::stack_pre_order(stack.push(t)) == t.pre_order_seq() + Self::stack_pre_order(
                stack,
            ),
            Self::stack_mirrored(stack.push(t)) == t.mirrored_pre_order_seq()
                + Self::stack_mirrored(stack),
            Self::stack_in_order(stack.push(t)) == seq![t->0] + t.spec_right().in_order_seq()
                + Self::stack_in_order(stack),
            Self::stack_rest_size(stack.push(t)) == 1 + t.spec_right().size()
                + Self::stack_rest_size(stack),
    {
        assert(stack.push(t).drop_last() =~= stack);
        assert(stack.push(t).last() == t);
    }

    /// The post-order is the mirrored pre-order read backwards.
    pub proof fn lemma_mirrored_reverse(self)
        ensures
            self.mirrored_pre_order_seq().reverse() =~= self.post_order_seq(),
        decreases self,
    {
        match self {
            BST::Empty => {},
            BST::Node(v, l, r) => {
                l.lemma_mirrored_reverse();
                r.lemma_mirrored_reverse();
                lemma_reverse_join(seq![v] + r.mirrored_pre_order_seq(), l.mirrored_pre_order_seq());
                lemma_reverse_join(seq![v], r.mirrored_pre_order_seq());
                assert(seq![v].reverse() =~= seq![v]);
            },
        }
    }
}

} // verus!
