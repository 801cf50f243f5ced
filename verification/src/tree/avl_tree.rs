use crate::utils::order::{
    duplicate, faithful_clone, greater, key_type, lemma_order_laws, lemma_trichotomy, less, lt,
    same, total_order,
};
use crate::utils::sorted::{
    insert_all_new, insert_new, insert_sorted, lemma_contains_after, lemma_insert_all_new_strict,
    lemma_insert_all_restores, lemma_insert_all_strict, lemma_insert_sorted_keeps_strict,
    lemma_insert_sorted_left, lemma_insert_sorted_right, lemma_remove_value_absent,
    lemma_remove_value_left, lemma_remove_value_middle, lemma_remove_value_right,
    lemma_sorted_sides, lemma_strict_is_sorted, lemma_strict_no_duplicates, lemma_strict_parts,
    sorted, strictly_sorted, upper_bound,
};
use crate::utils::traversal::{keys_of, lemma_reverse_join, reversed};
use std::fmt::{Debug, Display};
use std::mem::swap;
use vstd::prelude::*;

verus! {

/// By how much the heights of the two subtrees of a node may differ.
const ALLOWED_IMBALANCE: isize = 1;

/// The rotation that `balance` takes.
enum RotateCase {
    RotateLeftChild,  // LL
    RotateRightChild,  // RR
    DoubleLeftChild,  // LR
    DoubleRightChild,  // RL
    Unknown,
}

/// An AVL tree: a node holds its key, the height of the tree below it
/// (a leaf has height 1), and its two subtrees.
pub enum AVLTree<T: PartialOrd + Clone + Debug + Display> {
    // value, height, left, right
    Node(T, isize, Box<AVLTree<T>>, Box<AVLTree<T>>),
    Empty,
}

impl<T: PartialOrd + Clone + Debug + Display> View for AVLTree<T> {
    type V = Seq<T>;

    /// The keys from left to right.
    open spec fn view(&self) -> Seq<T> {
        self.in_order_seq()
    }
}

impl<T: PartialOrd + Clone + Debug + Display> AVLTree<T> {
    /// Left subtree, the node's key, right subtree.
    pub open spec fn in_order_seq(self) -> Seq<T>
        decreases self,
    {
        match self {
            AVLTree::Empty => Seq::empty(),
            AVLTree::Node(v, _, l, r) => l.in_order_seq() + seq![v] + r.in_order_seq(),
        }
    }

    /// The node's key, left subtree, right subtree.
    pub open spec fn pre_order_seq(self) -> Seq<T>
        decreases self,
    {
        match self {
            AVLTree::Empty => Seq::empty(),
            AVLTree::Node(v, _, l, r) => seq![v] + l.pre_order_seq() + r.pre_order_seq(),
        }
    }

    /// Left subtree, right subtree, the node's key.
    pub open spec fn post_order_seq(self) -> Seq<T>
        decreases self,
    {
        match self {
            AVLTree::Empty => Seq::empty(),
            AVLTree::Node(v, _, l, r) => l.post_order_seq() + r.post_order_seq() + seq![v],
        }
    }

    /// The number of nodes on the longest way down from here.
    pub open spec fn spec_depth(self) -> nat
        decreases self,
    {
        match self {
            AVLTree::Empty => 0,
            AVLTree::Node(_, _, l, r) => if l.spec_depth() >= r.spec_depth() {
                1 + l.spec_depth()
            } else {
                1 + r.spec_depth()
            },
        }
    }

    /// The height that the root holds; 0 for the empty tree.
    pub open spec fn spec_height(self) -> int {
        match self {
            AVLTree::Empty => 0,
            AVLTree::Node(_, h, _, _) => h as int,
        }
    }

    /// The left subtree; that of the empty tree is empty.
    pub open spec fn spec_left(self) -> Self {
        match self {
            AVLTree::Empty => AVLTree::Empty,
            AVLTree::Node(_, _, l, _) => *l,
        }
    }

    /// The right subtree; that of the empty tree is empty.
    pub open spec fn spec_right(self) -> Self {
        match self {
            AVLTree::Empty => AVLTree::Empty,
            AVLTree::Node(_, _, _, r) => *r,
        }
    }

    /// The key at the root, if the tree has one.
    pub open spec fn spec_value(self) -> Option<T> {
        match self {
            AVLTree::Empty => None,
            AVLTree::Node(v, _, _, _) => Some(v),
        }
    }

    /// Every node holds the depth of the tree below it.
    pub open spec fn heights_cached(self) -> bool
        decreases self,
    {
        match self {
            AVLTree::Empty => true,
            AVLTree::Node(_, h, l, r) => {
                &&& l.heights_cached()
                &&& r.heights_cached()
                &&& h as int == self.spec_depth()
            },
        }
    }

    /// Every node below the root holds the depth of the tree below it.
    pub open spec fn children_cached(self) -> bool {
        self.spec_left().heights_cached() && self.spec_right().heights_cached()
    }

    /// The validity of a tree: heights are cached and the keys ascend from
    /// left to right, each above the one before it.
    pub open spec fn wf(self) -> bool {
        self.heights_cached() && strictly_sorted(self@)
    }

    /// At every node the two subtrees differ in depth by at most one.
    pub open spec fn balanced(self) -> bool
        decreases self,
    {
        match self {
            AVLTree::Empty => true,
            AVLTree::Node(_, _, l, r) => {
                &&& l.balanced()
                &&& r.balanced()
                &&& l.spec_depth() <= r.spec_depth() + 1
                &&& r.spec_depth() <= l.spec_depth() + 1
            },
        }
    }

    /// A node over `l` and `r` that holds the height computed from theirs.
    pub open spec fn node(v: T, l: Self, r: Self) -> Self {
        let h = if l.spec_height() >= r.spec_height() {
            l.spec_height() + 1
        } else {
            r.spec_height() + 1
        };
        AVLTree::Node(v, h as isize, Box::new(l), Box::new(r))
    }

    /// The tree with the root's height computed anew from its subtrees.
    pub open spec fn height_updated(self) -> Self {
        match self {
            AVLTree::Empty => AVLTree::Empty,
            AVLTree::Node(v, _, l, r) => Self::node(v, *l, *r),
        }
    }

    /// The left child takes the root's place; the root becomes its right child
    /// and takes over the left child's right subtree.
    pub open spec fn left_child_rotated(self) -> Self {
        match self {
            AVLTree::Node(k2, _, l, z) => match *l {
                AVLTree::Node(k1, _, x, y) => Self::node(k1, *x, Self::node(k2, *y, *z)),
                AVLTree::Empty => self,
            },
            AVLTree::Empty => self,
        }
    }

    /// The right child takes the root's place; the root becomes its left child
    /// and takes over the right child's left subtree.
    pub open spec fn right_child_rotated(self) -> Self {
        match self {
            AVLTree::Node(k1, _, x, r) => match *r {
                AVLTree::Node(k2, _, y, z) => Self::node(k2, Self::node(k1, *x, *y), *z),
                AVLTree::Empty => self,
            },
            AVLTree::Empty => self,
        }
    }

    /// The left child rotated to the left, then the tree to the right.
    pub open spec fn left_child_doubled(self) -> Self {
        match self {
            AVLTree::Node(v, h, l, r) => AVLTree::Node(
                v,
                h,
                Box::new(l.right_child_rotated()),
                r,
            ).left_child_rotated(),
            AVLTree::Empty => self,
        }
    }

    /// The right child rotated to the right, then the tree to the left.
    pub open spec fn right_child_doubled(self) -> Self {
        match self {
            AVLTree::Node(v, h, l, r) => AVLTree::Node(
                v,
                h,
                l,
                Box::new(r.left_child_rotated()),
            ).right_child_rotated(),
            AVLTree::Empty => self,
        }
    }

    /// The tree after the rotation that the heights of its subtrees call for,
    /// with the root's height computed anew.
    pub open spec fn rebalanced(self) -> Self {
        let l = self.spec_left();
        let r = self.spec_right();
        if l.spec_height() - r.spec_height() > 1 {
            if l.spec_left().spec_height() >= l.spec_right().spec_height() {
                self.left_child_rotated().height_updated()
            } else {
                self.left_child_doubled().height_updated()
            }
        } else if r.spec_height() - l.spec_height() > 1 {
            if r.spec_right().spec_height() >= r.spec_left().spec_height() {
                self.right_child_rotated().height_updated()
            } else {
                self.right_child_doubled().height_updated()
            }
        } else {
            self.height_updated()
        }
    }

    /// The tree that holds `v` alone.
    pub open spec fn leaf(v: T) -> Self {
        AVLTree::Node(v, 1, Box::new(AVLTree::Empty), Box::new(AVLTree::Empty))
    }

    /// The tree grown by `v`: `v` goes down to the left of the keys that it
    /// comes before and to the right of the others, takes the first empty
    /// place, and every node on its way is balanced anew.
    pub open spec fn grown(self, v: T) -> Self
        decreases self,
    {
        match self {
            AVLTree::Empty => Self::leaf(v),
            AVLTree::Node(k, h, l, r) => if lt(v, k) {
                AVLTree::Node(k, h, Box::new(l.grown(v)), r).rebalanced()
            } else {
                AVLTree::Node(k, h, l, Box::new(r.grown(v))).rebalanced()
            },
        }
    }

    /// The tree after `insert` of `v`: the tree as it is where it holds `v`,
    /// and the tree grown by `v` where it does not.
    pub open spec fn inserted(self, v: T) -> Self {
        if self@.contains(v) {
            self
        } else {
            self.grown(v)
        }
    }

    /// The tree that holds the keys of `xs`, put one after another into the
    /// empty tree, each but those that the tree holds by then.
    pub open spec fn built(xs: Seq<T>) -> Self
        decreases xs.len(),
    {
        if xs.len() == 0 {
            AVLTree::Empty
        } else {
            Self::built(xs.drop_last()).inserted(xs.last())
        }
    }

    /// The tree after one `v` was taken out. The way goes down to the left
    /// of the keys that `v` comes before and to the right of those it comes
    /// behind. A node with `v` that has no subtree goes; one with a single
    /// subtree gives way to it; one with two takes the first key of its right
    /// subtree, which is then taken out there. Every node on the way is
    /// balanced anew.
    pub open spec fn removed(self, v: T) -> Self
        decreases self,
    {
        match self {
            AVLTree::Empty => AVLTree::Empty,
            AVLTree::Node(k, h, l, r) => (if lt(v, k) {
                AVLTree::Node(k, h, Box::new(l.removed(v)), r)
            } else if lt(k, v) {
                AVLTree::Node(k, h, l, Box::new(r.removed(v)))
            } else if *l is Empty && *r is Empty {
                AVLTree::Empty
            } else if *l is Node && *r is Node {
                AVLTree::Node(r@.first(), h, l, Box::new(r.removed(r@.first())))
            } else if *l is Node {
                *l
            } else {
                *r
            }).rebalanced(),
        }
    }

    /// The height that `node` computes over `l` and `r`, before it is cut to
    /// `isize`.
    spec fn node_height(l: Self, r: Self) -> int {
        if l.spec_height() >= r.spec_height() {
            l.spec_height() + 1
        } else {
            r.spec_height() + 1
        }
    }

    /// `rotate_left_child` can run: there is a left child, and the heights
    /// of the two nodes that it builds fit in `isize`.
    spec fn left_rotation_fits(self) -> bool {
        match self {
            AVLTree::Node(_, _, l, z) => match *l {
                AVLTree::Node(_, _, x, y) => {
                    &&& x.spec_height() < isize::MAX
                    &&& Self::node_height(*y, *z) < isize::MAX
                },
                AVLTree::Empty => false,
            },
            AVLTree::Empty => true,
        }
    }

    /// `rotate_right_child` can run: there is a right child, and the heights
    /// of the two nodes that it builds fit in `isize`.
    spec fn right_rotation_fits(self) -> bool {
        match self {
            AVLTree::Node(_, _, x, r) => match *r {
                AVLTree::Node(_, _, y, z) => {
                    &&& Self::node_height(*x, *y) < isize::MAX
                    &&& z.spec_height() < isize::MAX
                },
                AVLTree::Empty => false,
            },
            AVLTree::Empty => true,
        }
    }

    /// `double_left_child` can run.
    spec fn left_double_fits(self) -> bool {
        match self {
            AVLTree::Node(v, h, l, r) => l.right_rotation_fits() && AVLTree::Node(
                v,
                h,
                Box::new(l.right_child_rotated()),
                r,
            ).left_rotation_fits(),
            AVLTree::Empty => true,
        }
    }

    /// `double_right_child` can run.
    spec fn right_double_fits(self) -> bool {
        match self {
            AVLTree::Node(v, h, l, r) => r.left_rotation_fits() && AVLTree::Node(
                v,
                h,
                l,
                Box::new(r.left_child_rotated()),
            ).right_rotation_fits(),
            AVLTree::Empty => true,
        }
    }

    /// The larger of two depths.
    pub open spec fn deeper(a: nat, b: nat) -> nat {
        if a >= b {
            a
        } else {
            b
        }
    }

    /// The least number of nodes that a balanced tree of depth `d` holds.
    pub open spec fn least_size(d: nat) -> nat
        decreases d,
    {
        if d == 0 {
            0
        } else if d == 1 {
            1
        } else {
            1 + Self::least_size((d - 1) as nat) + Self::least_size((d - 2) as nat)
        }
    }

    /// The number of nodes.
    pub open spec fn size(self) -> nat
        decreases self,
    {
        match self {
            AVLTree::Empty => 0,
            AVLTree::Node(_, _, l, r) => 1 + l.size() + r.size(),
        }
    }

    /// The node's key, right subtree, left subtree: the post-order read
    /// backwards.
    pub open spec fn mirrored_pre_order_seq(self) -> Seq<T>
        decreases self,
    {
        match self {
            AVLTree::Empty => Seq::empty(),
            AVLTree::Node(v, _, l, r) => seq![v] + r.mirrored_pre_order_seq()
                + l.mirrored_pre_order_seq(),
        }
    }

    /// The nodes of all the trees on a stack.
    spec fn stack_size(stack: Seq<&Self>) -> nat
        decreases stack.len(),
    {
        if stack.len() == 0 {
            0
        } else {
            stack.last().size() + Self::stack_size(stack.drop_last())
        }
    }

    /// The pre-orders of the trees on a stack, from the top down.
    spec fn stack_pre_order(stack: Seq<&Self>) -> Seq<T>
        decreases stack.len(),
    {
        if stack.len() == 0 {
            Seq::empty()
        } else {
            stack.last().pre_order_seq() + Self::stack_pre_order(stack.drop_last())
        }
    }

    /// The mirrored pre-orders of the trees on a stack, from the top down.
    spec fn stack_mirrored(stack: Seq<&Self>) -> Seq<T>
        decreases stack.len(),
    {
        if stack.len() == 0 {
            Seq::empty()
        } else {
            stack.last().mirrored_pre_order_seq() + Self::stack_mirrored(stack.drop_last())
        }
    }

    /// For each tree on a stack, from the top down, its root's key and then
    /// the keys of its right subtree in order.
    spec fn stack_in_order(stack: Seq<&Self>) -> Seq<T>
        decreases stack.len(),
    {
        if stack.len() == 0 {
            Seq::empty()
        } else {
            seq![stack.last()->0] + stack.last().spec_right().in_order_seq()
                + Self::stack_in_order(stack.drop_last())
        }
    }

    /// For each tree on a stack, one and the nodes of its right subtree.
    spec fn stack_rest_size(stack: Seq<&Self>) -> nat
        decreases stack.len(),
    {
        if stack.len() == 0 {
            0
        } else {
            1 + stack.last().spec_right().size() + Self::stack_rest_size(stack.drop_last())
        }
    }

    /// The empty tree.
    pub fn new() -> (t: AVLTree<T>)
        ensures
            t is Empty,
            t.wf(),
            t.balanced(),
            t@ == Seq::<T>::empty(),
    {
        AVLTree::Empty
    }

    /// The number of nodes on the longest way from the root down. It must fit
    /// in `usize`.
    pub fn depth(&self) -> (d: usize)
        requires
            self.spec_depth() <= usize::MAX,
        ensures
            d == self.spec_depth(),
        decreases self,
    {
        match self {
            AVLTree::Empty => 0,
            AVLTree::Node(_, _, l, r) => {
                let dl = l.depth();
                let dr = r.depth();
                if dl >= dr {
                    1 + dl
                } else {
                    1 + dr
                }
            },
        }
    }

    /// The height that the root holds; in a valid tree the depth of the tree.
    pub fn height(&self) -> (h: isize)
        ensures
            h == self.spec_height(),
            self.heights_cached() ==> h == self.spec_depth(),
    {
        match self {
            AVLTree::Empty => 0,
            AVLTree::Node(_, h, _, _) => *h,
        }
    }

    /// The left subtree, unless the tree is empty.
    fn left(&self) -> (res: Option<&Self>)
        ensures
            res == (if self is Empty {
                None
            } else {
                Some(&self.spec_left())
            }),
    {
        match self {
            AVLTree::Empty => None,
            AVLTree::Node(_, _, l, _) => Some(l),
        }
    }

    /// The right subtree, unless the tree is empty.
    fn right(&self) -> (res: Option<&Self>)
        ensures
            res == (if self is Empty {
                None
            } else {
                Some(&self.spec_right())
            }),
    {
        match self {
            AVLTree::Empty => None,
            AVLTree::Node(_, _, _, r) => Some(r),
        }
    }

    /// The left subtree, to be changed in its place, unless the tree is empty.
    fn left_mut(&mut self) -> (res: Option<&mut Self>)
        ensures
            *old(self) is Empty ==> res is None && *final(self) is Empty,
            *old(self) is Node ==> res is Some && *res.unwrap() == old(self).spec_left()
                && *final(self) == AVLTree::Node(
                (*old(self))->0,
                (*old(self))->1,
                Box::new(*final(res.unwrap())),
                Box::new(old(self).spec_right()),
            ),
    {
        match self {
            AVLTree::Empty => None,
            AVLTree::Node(_, _, l, _) => Some(l),
        }
    }

    /// The right subtree, to be changed in its place, unless the tree is empty.
    fn right_mut(&mut self) -> (res: Option<&mut Self>)
        ensures
            *old(self) is Empty ==> res is None && *final(self) is Empty,
            *old(self) is Node ==> res is Some && *res.unwrap() == old(self).spec_right()
                && *final(self) == AVLTree::Node(
                (*old(self))->0,
                (*old(self))->1,
                Box::new(old(self).spec_left()),
                Box::new(*final(res.unwrap())),
            ),
    {
        match self {
            AVLTree::Empty => None,
            AVLTree::Node(_, _, _, r) => Some(r),
        }
    }

    /// A copy of the key at the root, if the tree has one.
    pub fn get_value(&self) -> (res: Option<T>)
        requires
            faithful_clone::<T>(),
        ensures
            res == self.spec_value(),
    {
        match self {
            AVLTree::Empty => None,
            AVLTree::Node(v, _, _, _) => Some(duplicate(v)),
        }
    }

    /// The key at the root, if the tree has one.
    fn value(&self) -> (res: Option<&T>)
        ensures
            res == (match self.spec_value() {
                Some(v) => Some(&v),
                None => None,
            }),
    {
        match self {
            AVLTree::Empty => None,
            AVLTree::Node(v, _, _, _) => Some(v),
        }
    }

    /// Computes the height of the root anew from the heights that its
    /// subtrees hold.
    fn update_height(&mut self) -> (ret: &mut Self)
        requires
            old(self).spec_left().spec_height() < isize::MAX,
            old(self).spec_right().spec_height() < isize::MAX,
        ensures
            *ret == old(self).height_updated(),
            *final(self) == *final(ret),
    {
        match self {
            AVLTree::Empty => {},
            AVLTree::Node(_, h, l, r) => {
                let hl = l.height();
                let hr = r.height();
                *h = if hl >= hr {
                    hl + 1
                } else {
                    hr + 1
                };
            },
        }
        self
    }

    /// Where one subtree is higher than the other by more than one, turns the
    /// tree towards the lower side: by one rotation where the outer subtree of
    /// the higher child is high enough, by two rotations where it is not. Then
    /// computes the height of the root anew.
    fn balance(&mut self)
        requires
            faithful_clone::<T>(),
            old(self).children_cached(),
            old(self).spec_depth() <= isize::MAX,
        ensures
            *final(self) == old(self).rebalanced(),
    {
        let mut rotate_case = RotateCase::Unknown;
        match self {
            AVLTree::Empty => return,
            AVLTree::Node(_, _, l, r) => {
                if (l.height() - r.height()) > ALLOWED_IMBALANCE {
                    let ll = l.left().unwrap();
                    let lr = l.right().unwrap();
                    if ll.height() >= lr.height() {
                        rotate_case = RotateCase::RotateLeftChild;
                    } else {
                        rotate_case = RotateCase::DoubleLeftChild;
                    }
                } else if r.height() - l.height() > ALLOWED_IMBALANCE {
                    let rr = r.right().unwrap();
                    let rl = r.left().unwrap();
                    if rr.height() >= rl.height() {
                        rotate_case = RotateCase::RotateRightChild;
                    } else {
                        rotate_case = RotateCase::DoubleRightChild;
                    }
                } else {
                    // the tree is already balanced
                }
            },
        }

        proof {
            self.lemma_rotations_fit();
        }
        match rotate_case {
            RotateCase::RotateLeftChild => self.rotate_left_child(),
            RotateCase::DoubleLeftChild => self.double_left_child(),
            RotateCase::RotateRightChild => self.rotate_right_child(),
            RotateCase::DoubleRightChild => self.double_right_child(),
            _ => {},
        }
        self.update_height();
    }

    /// Rotates the tree to the right: the left child takes the root's place.
    /// That child must be there, and the heights of the two nodes that are
    /// built must fit in `isize`.
    fn rotate_left_child(&mut self)
        requires
            faithful_clone::<T>(),
            old(self).left_rotation_fits(),
        ensures
            *final(self) == old(self).left_child_rotated(),
    {
        let mut x: AVLTree<T> = AVLTree::Empty;
        let mut y: AVLTree<T> = AVLTree::Empty;
        let mut z: AVLTree<T> = AVLTree::Empty;
        let k1_v: T;
        let k2_v: T;

        match self {
            AVLTree::Empty => return,
            AVLTree::Node(v, _, l, r) => {
                k1_v = l.get_value().unwrap();
                k2_v = duplicate(v);
                swap(l.left_mut().unwrap(), &mut x);
                swap(l.right_mut().unwrap(), &mut y);
                swap(&mut **r, &mut z);
            },
        }

        // generate lower k2 node
        let mut k2 = AVLTree::Node(k2_v, 0, Box::new(y), Box::new(z));
        k2.update_height();

        // generate k1 node
        let mut k1 = AVLTree::Node(k1_v, 0, Box::new(x), Box::new(k2));
        k1.update_height();

        *self = k1;
    }

    /// Rotates the tree to the left: the right child takes the root's place.
    /// That child must be there, and the heights of the two nodes that are
    /// built must fit in `isize`.
    fn rotate_right_child(&mut self)
        requires
            faithful_clone::<T>(),
            old(self).right_rotation_fits(),
        ensures
            *final(self) == old(self).right_child_rotated(),
    {
        let mut x: AVLTree<T> = AVLTree::Empty;
        let mut y: AVLTree<T> = AVLTree::Empty;
        let mut z: AVLTree<T> = AVLTree::Empty;
        let k1_v: T;
        let k2_v: T;

        match self {
            AVLTree::Empty => return,
            AVLTree::Node(v, _, l, r) => {
                k2_v = r.get_value().unwrap();
                k1_v = duplicate(v);
                swap(r.left_mut().unwrap(), &mut y);
                swap(r.right_mut().unwrap(), &mut z);
                swap(&mut **l, &mut x);
            },
        }

        // generate lower k1 node
        let mut k1 = AVLTree::Node(k1_v, 0, Box::new(x), Box::new(y));
        k1.update_height();

        // generate k2 node
        let mut k2 = AVLTree::Node(k2_v, 0, Box::new(k1), Box::new(z));
        k2.update_height();

        *self = k2;
    }

    /// Rotates the left child to the left, then the tree to the right.
    fn double_left_child(&mut self)
        requires
            faithful_clone::<T>(),
            old(self).left_double_fits(),
        ensures
            *final(self) == old(self).left_child_doubled(),
    {
        match self {
            AVLTree::Empty => return,
            AVLTree::Node(_, _, l, _) => {
                l.rotate_right_child();
            },
        }
        self.rotate_left_child();
    }

    /// Rotates the right child to the right, then the tree to the left.
    fn double_right_child(&mut self)
        requires
            faithful_clone::<T>(),
            old(self).right_double_fits(),
        ensures
            *final(self) == old(self).right_child_doubled(),
    {
        match self {
            AVLTree::Empty => return,
            AVLTree::Node(_, _, _, r) => {
                r.rotate_left_child();
            },
        }
        self.rotate_right_child();
    }

    /// Puts `value` into the tree unless the tree holds it, and restores the
    /// balance on the way back up. A key that is already there leaves the
    /// tree as it is.
    pub fn insert(&mut self, value: T) -> (ret: &mut Self)
        requires
            key_type::<T>(),
            old(self).wf(),
            old(self).spec_depth() < isize::MAX,
        ensures
            *final(self) == *final(ret),
            *ret == old(self).inserted(value),
            ret.wf(),
            ret@ == insert_new(old(self)@, value),
            forall|x: T| #[trigger] ret@.contains(x) <==> x == value || old(self)@.contains(x),
            ret.spec_depth() <= old(self).spec_depth() + 1,
            old(self).balanced() ==> ret.balanced() && ret.spec_depth() >= old(self).spec_depth(),
    {
        proof {
            lemma_contains_after(self@, value);
        }
        if self.contains(duplicate(&value)) {
            return self;
        }
        self.grow(value)
    }

    /// Puts `value`, which the tree does not hold, into the tree, and
    /// restores the balance on the way back up.
    fn grow(&mut self, value: T) -> (ret: &mut Self)
        requires
            key_type::<T>(),
            old(self).wf(),
            !old(self)@.contains(value),
            old(self).spec_depth() < isize::MAX,
        ensures
            *final(self) == *final(ret),
            *ret == old(self).grown(value),
            ret.wf(),
            ret@ == insert_sorted(old(self)@, value),
            ret.spec_depth() <= old(self).spec_depth() + 1,
            old(self).balanced() ==> {
                &&& ret.balanced()
                &&& ret.spec_depth() >= old(self).spec_depth()
                &&& ret.spec_depth() == old(self).spec_depth() + 1 ==> ret.spec_depth() == 1
                    || ret.spec_left().spec_depth() != ret.spec_right().spec_depth()
            },
        decreases *old(self),
    {
        let ghost t0 = *self;
        let ghost v = value;
        proof {
            t0.lemma_height_is_depth();
            if t0 is Node {
                lemma_strict_parts(t0.spec_left()@, t0->0, t0.spec_right()@);
            }
        }
        match self {
            AVLTree::Empty => {
                *self = AVLTree::Node(
                    value,
                    1,
                    Box::new(AVLTree::Empty),
                    Box::new(AVLTree::Empty),
                )
            },
            AVLTree::Node(old_value, _, l, r) => {
                if less(&value, old_value) {
                    l.grow(value);
                } else {
                    r.grow(value);
                }
            },
        }
        let ghost t1 = *self;
        proof {
            t1.lemma_rotations_keep_order();
            t1.lemma_rebalanced_cached();
            lemma_insert_sorted_keeps_strict(t0@, v);
            match t0 {
                AVLTree::Empty => {
                    assert(upper_bound(t0@, v) == 0);
                    assert(t1@ =~= insert_sorted(t0@, v));
                },
                AVLTree::Node(k, _, l, r) => {
                    if lt(v, k) {
                        lemma_insert_sorted_left(l@, k, r@, v);
                    } else {
                        lemma_insert_sorted_right(l@, k, r@, v);
                    }
                    assert(t1@ =~= insert_sorted(t0@, v));
                },
            }
            if t0.balanced() {
                t1.lemma_rebalanced_balanced();
                t1.height_updated().lemma_depth_of_parts();
            }
        }
        self.balance(); // balance the tree

        self
    }

    /// Takes one `value` out of the tree, if it holds one, and runs `balance`
    /// on the way back up. A balanced tree stays balanced and loses at most
    /// one level.
    pub fn remove(&mut self, value: T) -> (ret: &mut Self)
        requires
            key_type::<T>(),
            old(self).wf(),
        ensures
            *final(self) == *final(ret),
            *ret == old(self).removed(value),
            ret.wf(),
            ret@ == old(self)@.remove_value(value),
            forall|x: T| #[trigger] ret@.contains(x) <==> x != value && old(self)@.contains(x),
            ret.spec_depth() <= old(self).spec_depth(),
            old(self).balanced() ==> ret.balanced() && ret.spec_depth() + 1 >= old(
                self,
            ).spec_depth(),
        decreases *old(self),
    {
        let ghost t0 = *self;
        let ghost gv = value;
        proof {
            lemma_contains_after(t0@, gv);
            t0.lemma_height_is_depth();
            t0.lemma_view_len();
            if t0 is Node {
                lemma_trichotomy(gv, t0->0);
                lemma_strict_parts(t0.spec_left()@, t0->0, t0.spec_right()@);
                lemma_sorted_sides(t0.spec_left()@, t0->0, t0.spec_right()@, gv);
                t0.spec_left().lemma_view_len();
                t0.spec_right().lemma_view_len();
            }
        }
        let child_num = self.get_child_num();
        let mut node = AVLTree::Empty;
        let mut is_swapped = false;
        let is_leaf = self.is_leaf();
        match self {
            AVLTree::Empty => {},
            AVLTree::Node(v, _, l, r) => {
                if less(&value, v) {
                    l.remove(value);
                } else if greater(&value, v) {
                    r.remove(value);
                } else {
                    if is_leaf && same(v, &value) {
                        // a leaf node
                        is_swapped = true;
                    } else if child_num == 2 {
                        // two children: put the min of the right branch as the current value,
                        // then remove it from right branch
                        *v = r.find_min().unwrap();
                        r.remove(duplicate(v));
                    } else {
                        if !l.is_empty() {
                            is_swapped = true;
                            swap(&mut node, &mut **l);
                        } else if !r.is_empty() {
                            is_swapped = true;
                            swap(&mut node, &mut **r);
                        } else {
                            // will not be reached.
                        }
                    }
                }
            },
        }
        if is_swapped {
            *self = node;
        }
        let ghost t1 = *self;
        proof {
            Self::lemma_removed(t0, t1, gv);
            t1.lemma_rotations_keep_order();
            t1.lemma_rebalanced_cached();
            if t0.balanced() {
                t0.lemma_balanced_of_parts();
                t0.lemma_depth_of_parts();
                t1.lemma_depth_of_parts();
                t1.lemma_balanced_of_parts();
                t1.lemma_rebalanced_balanced();
            }
        }
        self.balance();

        self
    }

    /// Whether the tree holds no key.
    pub fn is_empty(&self) -> (b: bool)
        ensures
            b == (self is Empty),
    {
        match self {
            AVLTree::Empty => true,
            _ => false,
        }
    }

    /// How many of the two subtrees of the root are not empty.
    pub fn get_child_num(&self) -> (num: usize)
        ensures
            num == (if self.spec_left() is Node {
                1int
            } else {
                0int
            }) + (if self.spec_right() is Node {
                1int
            } else {
                0int
            }),
    {
        let mut num: usize = 0;
        match self {
            AVLTree::Empty => num = 0,
            AVLTree::Node(_, _, l, r) => {
                if !l.is_empty() {
                    num += 1;
                }
                if !r.is_empty() {
                    num += 1;
                }
            },
        }
        num
    }

    /// Whether the root has no left subtree; the empty tree has none.
    pub fn is_left_empty(&self) -> (b: bool)
        ensures
            b == (self.spec_left() is Empty),
    {
        match self {
            AVLTree::Empty => true,
            AVLTree::Node(_, _, l, _) => l.is_empty(),
        }
    }

    /// Whether the root has no right subtree; the empty tree has none.
    pub fn is_right_empty(&self) -> (b: bool)
        ensures
            b == (self.spec_right() is Empty),
    {
        match self {
            AVLTree::Empty => true,
            AVLTree::Node(_, _, _, r) => r.is_empty(),
        }
    }

    /// Whether the tree is a single node.
    pub fn is_leaf(&self) -> (b: bool)
        ensures
            b == (self is Node && self.spec_left() is Empty && self.spec_right() is Empty),
    {
        match self {
            AVLTree::Empty => false,
            _ => self.get_child_num() == 0,
        }
    }

    /// The leftmost key; in a valid tree no key comes before it.
    pub fn find_min(&self) -> (res: Option<T>)
        requires
            faithful_clone::<T>(),
        ensures
            res == (if self is Empty {
                None
            } else {
                Some(self@.first())
            }),
        decreases self,
    {
        proof {
            self.lemma_view_len();
        }
        match self {
            AVLTree::Empty => None,
            AVLTree::Node(v, _, l, _) => {
                if l.is_empty() {
                    Some(duplicate(v))
                } else {
                    l.find_min()
                }
            },
        }
    }

    /// The rightmost key; in a valid tree no key comes behind it.
    pub fn find_max(&self) -> (res: Option<T>)
        requires
            faithful_clone::<T>(),
        ensures
            res == (if self is Empty {
                None
            } else {
                Some(self@.last())
            }),
        decreases self,
    {
        proof {
            self.lemma_view_len();
        }
        match self {
            AVLTree::Empty => None,
            AVLTree::Node(v, _, _, r) => {
                if r.is_empty() {
                    Some(duplicate(v))
                } else {
                    r.find_max()
                }
            },
        }
    }

    /// Whether the tree holds `value`.
    pub fn contains(&self, value: T) -> (b: bool)
        requires
            key_type::<T>(),
            self.wf(),
        ensures
            b == self@.contains(value),
        decreases self,
    {
        match self {
            AVLTree::Empty => {
                assert(self@.len() == 0);
                false
            },
            AVLTree::Node(v, _, l, r) => {
                proof {
                    lemma_order_laws::<T>();
                    self.lemma_height_is_depth();
                    lemma_strict_parts(l@, *v, r@);
                    lemma_sorted_sides(l@, *v, r@, value);
                }
                if same(&value, v) {
                    true
                } else if greater(&value, v) {
                    r.contains(value)
                } else {
                    l.contains(value)
                }
            },
        }
    }

    /// The keys with each node before its subtrees, the left one first;
    /// `None` for the empty tree.
    pub fn pre_order(&self) -> (res: Option<Vec<&T>>)
        ensures
            res is None <==> self is Empty,
            res matches Some(keys) ==> keys_of(keys@) == self.pre_order_seq(),
    {
        if self.is_empty() {
            return None;
        }
        let mut tmp: Vec<&AVLTree<T>> = Vec::new();
        tmp.push(self);
        let mut nodes: Vec<&T> = Vec::new();
        proof {
            Self::lemma_stack_push(Seq::empty(), self);
            assert(Self::stack_pre_order(Seq::empty()) =~= Seq::empty());
            assert(keys_of(nodes@) + Self::stack_pre_order(tmp@) =~= self.pre_order_seq());
        }
        loop
            invariant
                forall|i: int| 0 <= i < tmp.len() ==> *tmp@[i] is Node,
                keys_of(nodes@) + Self::stack_pre_order(tmp@) == self.pre_order_seq(),
            ensures
                keys_of(nodes@) == self.pre_order_seq(),
            decreases Self::stack_size(tmp@),
        {
            if tmp.is_empty() {
                proof {
                    assert(keys_of(nodes@) + Self::stack_pre_order(tmp@) =~= keys_of(nodes@));
                }
                break;
            }
            let ghost stack0 = tmp@;
            let ghost nodes0 = nodes@;

            // stack first in last out
            let n = tmp.pop().unwrap();
            nodes.push(n.value().unwrap());
            let ghost rest = tmp@;
            proof {
                assert(rest =~= stack0.drop_last());
            }

            // right is popped first
            if !n.is_right_empty() {
                proof {
                    Self::lemma_stack_push(tmp@, &n.spec_right());
                }
                tmp.push(n.right().unwrap())
            }
            if !n.is_left_empty() {
                proof {
                    Self::lemma_stack_push(tmp@, &n.spec_left());
                }
                tmp.push(n.left().unwrap())
            }
            proof {
                let l = n.spec_left();
                let r = n.spec_right();
                assert(keys_of(nodes@) =~= keys_of(nodes0).push(n->0));
                assert(Self::stack_pre_order(tmp@) =~= l.pre_order_seq() + r.pre_order_seq()
                    + Self::stack_pre_order(rest));
                assert(Self::stack_size(tmp@) == l.size() + r.size() + Self::stack_size(rest));
                assert(keys_of(nodes@) + Self::stack_pre_order(tmp@) =~= keys_of(nodes0)
                    + Self::stack_pre_order(stack0));
            }
        }

        Some(nodes)
    }

    /// The keys from left to right; `None` for the empty tree.
    pub fn in_order(&self) -> (res: Option<Vec<&T>>)
        ensures
            res is None <==> self is Empty,
            res matches Some(keys) ==> keys_of(keys@) == self@,
    {
        if self.is_empty() {
            return None;
        }
        let mut tmp: Vec<&AVLTree<T>> = Vec::new();
        let mut nodes: Vec<&T> = Vec::new();

        let mut p = self;
        proof {
            assert(keys_of(nodes@) + p.in_order_seq() + Self::stack_in_order(tmp@)
                =~= self.in_order_seq());
        }
        loop
            invariant
                forall|i: int| 0 <= i < tmp.len() ==> *tmp@[i] is Node,
                keys_of(nodes@) + p.in_order_seq() + Self::stack_in_order(tmp@)
                    == self.in_order_seq(),
            ensures
                keys_of(nodes@) == self.in_order_seq(),
            decreases p.size() + Self::stack_rest_size(tmp@),
        {
            if p.is_empty() && tmp.is_empty() {
                proof {
                    assert(keys_of(nodes@) + p.in_order_seq() + Self::stack_in_order(tmp@)
                        =~= keys_of(nodes@));
                }
                break;
            }
            let ghost origin = p;
            let ghost stack0 = tmp@;

            // push left branch
            loop
                invariant
                    forall|i: int| 0 <= i < tmp.len() ==> *tmp@[i] is Node,
                    p.in_order_seq() + Self::stack_in_order(tmp@) == origin.in_order_seq()
                        + Self::stack_in_order(stack0),
                    p.size() + Self::stack_rest_size(tmp@) == origin.size() + Self::stack_rest_size(
                        stack0,
                    ),
                    tmp.len() >= stack0.len(),
                    *origin is Node || stack0.len() > 0,
                    *origin is Node ==> *p is Node || tmp.len() > 0,
                ensures
                    *p is Empty,
                    tmp.len() > 0,
                decreases p.size(),
            {
                if p.is_empty() {
                    break;
                }
                proof {
                    Self::lemma_stack_push(tmp@, p);
                    assert(p.in_order_seq() + Self::stack_in_order(tmp@)
                        =~= p.spec_left().in_order_seq() + Self::stack_in_order(tmp@.push(p)));
                }
                tmp.push(p);
                p = p.left().unwrap();
            }
            let ghost stack1 = tmp@;
            let ghost nodes1 = nodes@;

            p = tmp.pop().unwrap();
            nodes.push(p.value().unwrap());  // left, current, right
            proof {
                assert(tmp@ =~= stack1.drop_last());
                assert(keys_of(nodes@) =~= keys_of(nodes1).push(p->0));
                assert(keys_of(nodes@) + p.spec_right().in_order_seq() + Self::stack_in_order(tmp@)
                    =~= keys_of(nodes1) + (Seq::<T>::empty() + Self::stack_in_order(stack1)));
                assert(Seq::<T>::empty() + Self::stack_in_order(stack1) =~= origin.in_order_seq()
                    + Self::stack_in_order(stack0));
                assert(keys_of(nodes1) + (origin.in_order_seq() + Self::stack_in_order(stack0))
                    =~= keys_of(nodes1) + origin.in_order_seq() + Self::stack_in_order(stack0));
            }
            p = p.right().unwrap();
        }

        Some(nodes)
    }

    /// The keys with each node behind its subtrees, the left one first;
    /// `None` for the empty tree.
    pub fn post_order(&self) -> (res: Option<Vec<&T>>)
        ensures
            res is None <==> self is Empty,
            res matches Some(keys) ==> keys_of(keys@) == self.post_order_seq(),
    {
        if self.is_empty() {
            return None;
        }
        let mut tmp: Vec<&AVLTree<T>> = Vec::new();
        let mut nodes: Vec<&T> = Vec::new();

        tmp.push(self);
        proof {
            Self::lemma_stack_push(Seq::empty(), self);
            assert(Self::stack_mirrored(Seq::empty()) =~= Seq::empty());
            assert(keys_of(nodes@) + Self::stack_mirrored(tmp@) =~= self.mirrored_pre_order_seq());
        }
        loop
            invariant
                forall|i: int| 0 <= i < tmp.len() ==> *tmp@[i] is Node,
                keys_of(nodes@) + Self::stack_mirrored(tmp@) == self.mirrored_pre_order_seq(),
            ensures
                keys_of(nodes@) == self.mirrored_pre_order_seq(),
            decreases Self::stack_size(tmp@),
        {
            let ghost stack0 = tmp@;
            let ghost nodes0 = nodes@;
            // 2. current > right > left
            let p = tmp.pop();
            if p.is_none() {
                proof {
                    assert(keys_of(nodes@) + Self::stack_mirrored(tmp@) =~= keys_of(nodes@));
                }
                break;
            }
            // 1. current > left > right

            let p = p.unwrap();
            nodes.push(p.value().unwrap());
            let ghost rest = tmp@;
            proof {
                assert(rest =~= stack0.drop_last());
            }

            if !p.is_left_empty() {
                proof {
                    Self::lemma_stack_push(tmp@, &p.spec_left());
                }
                tmp.push(p.left().unwrap());
            }
            if !p.is_right_empty() {
                proof {
                    Self::lemma_stack_push(tmp@, &p.spec_right());
                }
                tmp.push(p.right().unwrap());
            }
            proof {
                let l = p.spec_left();
                let r = p.spec_right();
                assert(keys_of(nodes@) =~= keys_of(nodes0).push(p->0));
                assert(Self::stack_mirrored(tmp@) =~= r.mirrored_pre_order_seq()
                    + l.mirrored_pre_order_seq() + Self::stack_mirrored(rest));
                assert(Self::stack_size(tmp@) == l.size() + r.size() + Self::stack_size(rest));
                assert(keys_of(nodes@) + Self::stack_mirrored(tmp@) =~= keys_of(nodes0)
                    + Self::stack_mirrored(stack0));
            }
        }

        // 3. left > right > current
        proof {
            self.lemma_mirrored_reverse();
        }
        Some(reversed(&nodes))
    }

    /// In a tree with cached heights the root holds the depth, and so do the
    /// roots of the two subtrees.
    pub proof fn lemma_height_is_depth(self)
        requires
            self.heights_cached(),
        ensures
            self.spec_height() == self.spec_depth(),
            self.spec_left().heights_cached(),
            self.spec_right().heights_cached(),
            self is Node ==> self.spec_depth() == 1 + (if self.spec_left().spec_depth()
                >= self.spec_right().spec_depth() {
                self.spec_left().spec_depth()
            } else {
                self.spec_right().spec_depth()
            }),
            self is Empty <==> self.spec_depth() == 0,
    {
    }

    /// Where the heights are cached and the depth fits in `isize`, the
    /// rotation that `balance` picks can run.
    proof fn lemma_rotations_fit(self)
        requires
            self.children_cached(),
            self.spec_depth() <= isize::MAX,
        ensures
            self.spec_left().spec_height() - self.spec_right().spec_height() > 1 ==> (if self.spec_left().spec_left().spec_height()
                >= self.spec_left().spec_right().spec_height() {
                self.left_rotation_fits()
            } else {
                self.left_double_fits()
            }),
            self.spec_right().spec_height() - self.spec_left().spec_height() > 1 ==> (if self.spec_right().spec_right().spec_height()
                >= self.spec_right().spec_left().spec_height() {
                self.right_rotation_fits()
            } else {
                self.right_double_fits()
            }),
    {
        let l = self.spec_left();
        let r = self.spec_right();
        l.lemma_height_is_depth();
        r.lemma_height_is_depth();
        l.spec_left().lemma_height_is_depth();
        l.spec_right().lemma_height_is_depth();
        r.spec_left().lemma_height_is_depth();
        r.spec_right().lemma_height_is_depth();
        l.spec_right().spec_left().lemma_height_is_depth();
        l.spec_right().spec_right().lemma_height_is_depth();
        r.spec_left().spec_left().lemma_height_is_depth();
        r.spec_left().spec_right().lemma_height_is_depth();
    }

    /// The rotations keep the keys in their order from left to right.
    pub proof fn lemma_rotations_keep_order(self)
        ensures
            self.left_child_rotated()@ =~= self@,
            self.right_child_rotated()@ =~= self@,
            self.left_child_doubled()@ =~= self@,
            self.right_child_doubled()@ =~= self@,
            self.height_updated()@ =~= self@,
            self.rebalanced()@ =~= self@,
    {
        match self {
            AVLTree::Empty => {},
            AVLTree::Node(v, h, l, r) => {
                l.lemma_single_rotations_keep_order();
                r.lemma_single_rotations_keep_order();
                let t1 = AVLTree::Node(v, h, Box::new(l.right_child_rotated()), r);
                let t2 = AVLTree::Node(v, h, l, Box::new(r.left_child_rotated()));
                t1.lemma_single_rotations_keep_order();
                t2.lemma_single_rotations_keep_order();
                self.lemma_single_rotations_keep_order();
                assert(t1@ =~= self@);
                assert(t2@ =~= self@);
                self.left_child_rotated().lemma_single_rotations_keep_order();
                self.left_child_doubled().lemma_single_rotations_keep_order();
                self.right_child_rotated().lemma_single_rotations_keep_order();
                self.right_child_doubled().lemma_single_rotations_keep_order();
            },
        }
    }

    /// One rotation keeps the keys in their order from left to right.
    proof fn lemma_single_rotations_keep_order(self)
        ensures
            self.left_child_rotated()@ =~= self@,
            self.right_child_rotated()@ =~= self@,
            self.height_updated()@ =~= self@,
    {
        match self {
            AVLTree::Empty => {
                assert(self.left_child_rotated() == self);
                assert(self.right_child_rotated() == self);
            },
            AVLTree::Node(v, h, l, r) => {
                assert(self.height_updated()@ =~= l@ + seq![v] + r@);
                match *l {
                    AVLTree::Empty => {
                        assert(self.left_child_rotated() == self);
                    },
                    AVLTree::Node(k1, _, x, y) => {
                        assert(Self::node(v, *y, *r)@ =~= y@ + seq![v] + r@);
                        assert(self.left_child_rotated()@ =~= x@ + seq![k1] + (y@ + seq![v] + r@));
                        assert(l@ =~= x@ + seq![k1] + y@);
                    },
                }
                match *r {
                    AVLTree::Empty => {
                        assert(self.right_child_rotated() == self);
                    },
                    AVLTree::Node(k2, _, y, z) => {
                        assert(Self::node(v, *l, *y)@ =~= l@ + seq![v] + y@);
                        assert(self.right_child_rotated()@ =~= (l@ + seq![v] + y@) + seq![k2] + z@);
                        assert(r@ =~= y@ + seq![k2] + z@);
                    },
                }
            },
        }
    }

    /// A node built over two trees with cached heights has its own height
    /// cached.
    proof fn lemma_node_cached(v: T, l: Self, r: Self)
        requires
            l.heights_cached(),
            r.heights_cached(),
            l.spec_depth() < isize::MAX,
            r.spec_depth() < isize::MAX,
        ensures
            Self::node(v, l, r).heights_cached(),
            Self::node(v, l, r).spec_depth() == 1 + (if l.spec_depth() >= r.spec_depth() {
                l.spec_depth()
            } else {
                r.spec_depth()
            }),
    {
        l.lemma_height_is_depth();
        r.lemma_height_is_depth();
    }

    /// After a rotation to the right every height is cached, and the parts of
    /// the tree stand in their new places.
    proof fn lemma_left_rotated_cached(self)
        requires
            self.children_cached(),
            self is Node,
            self.left_rotation_fits(),
        ensures
            self.left_child_rotated().heights_cached(),
            self.left_child_rotated() is Node,
            self.left_child_rotated().spec_left() == self.spec_left().spec_left(),
            self.left_child_rotated().spec_right().spec_left() == self.spec_left().spec_right(),
            self.left_child_rotated().spec_right().spec_right() == self.spec_right(),
            self.left_child_rotated().spec_right() is Node,
            self.left_child_rotated().spec_right().spec_depth() == 1 + Self::deeper(
                self.spec_left().spec_right().spec_depth(),
                self.spec_right().spec_depth(),
            ),
            self.left_child_rotated().spec_depth() == 1 + Self::deeper(
                self.spec_left().spec_left().spec_depth(),
                self.left_child_rotated().spec_right().spec_depth(),
            ),
    {
        match self {
            AVLTree::Empty => {},
            AVLTree::Node(k2, _, l, z) => {
                l.lemma_height_is_depth();
                z.lemma_height_is_depth();
                match *l {
                    AVLTree::Empty => {},
                    AVLTree::Node(k1, _, x, y) => {
                        x.lemma_height_is_depth();
                        y.lemma_height_is_depth();
                        Self::lemma_node_cached(k2, *y, *z);
                        Self::lemma_node_cached(k1, *x, Self::node(k2, *y, *z));
                    },
                }
            },
        }
    }

    /// After a rotation to the left every height is cached, and the parts of
    /// the tree stand in their new places.
    proof fn lemma_right_rotated_cached(self)
        requires
            self.children_cached(),
            self is Node,
            self.right_rotation_fits(),
        ensures
            self.right_child_rotated().heights_cached(),
            self.right_child_rotated() is Node,
            self.right_child_rotated().spec_right() == self.spec_right().spec_right(),
            self.right_child_rotated().spec_left().spec_left() == self.spec_left(),
            self.right_child_rotated().spec_left().spec_right() == self.spec_right().spec_left(),
            self.right_child_rotated().spec_left() is Node,
            self.right_child_rotated().spec_left().spec_depth() == 1 + Self::deeper(
                self.spec_left().spec_depth(),
                self.spec_right().spec_left().spec_depth(),
            ),
            self.right_child_rotated().spec_depth() == 1 + Self::deeper(
                self.right_child_rotated().spec_left().spec_depth(),
                self.spec_right().spec_right().spec_depth(),
            ),
    {
        match self {
            AVLTree::Empty => {},
            AVLTree::Node(k1, _, x, r) => {
                r.lemma_height_is_depth();
                x.lemma_height_is_depth();
                match *r {
                    AVLTree::Empty => {},
                    AVLTree::Node(k2, _, y, z) => {
                        y.lemma_height_is_depth();
                        z.lemma_height_is_depth();
                        Self::lemma_node_cached(k1, *x, *y);
                        Self::lemma_node_cached(k2, Self::node(k1, *x, *y), *z);
                    },
                }
            },
        }
    }

    /// What `balance` leaves of a tree whose left subtree is deeper by more
    /// than one: the parts of the tree, in their new places.
    proof fn lemma_rebalanced_left(self)
        requires
            self.children_cached(),
            self.spec_depth() <= isize::MAX,
            self.spec_left().spec_depth() > self.spec_right().spec_depth() + 1,
        ensures
            self.rebalanced().heights_cached(),
            self.rebalanced() is Node,
            self.rebalanced().spec_left() is Node || self.spec_left().spec_left().spec_depth()
                >= self.spec_left().spec_right().spec_depth(),
            self.rebalanced().spec_right() is Node,
            self.spec_left().spec_left().spec_depth() >= self.spec_left().spec_right().spec_depth()
                ==> {
                &&& self.rebalanced().spec_left() == self.spec_left().spec_left()
                &&& self.rebalanced().spec_right().spec_left() == self.spec_left().spec_right()
                &&& self.rebalanced().spec_right().spec_right() == self.spec_right()
            },
            self.spec_left().spec_left().spec_depth() < self.spec_left().spec_right().spec_depth()
                ==> {
                &&& self.rebalanced().spec_left().spec_left() == self.spec_left().spec_left()
                &&& self.rebalanced().spec_left().spec_right()
                    == self.spec_left().spec_right().spec_left()
                &&& self.rebalanced().spec_right().spec_left()
                    == self.spec_left().spec_right().spec_right()
                &&& self.rebalanced().spec_right().spec_right() == self.spec_right()
            },
    {
        self.lemma_rotations_fit();
        match self {
            AVLTree::Empty => {},
            AVLTree::Node(v, h, l, r) => {
                l.lemma_height_is_depth();
                r.lemma_height_is_depth();
                l.spec_left().lemma_height_is_depth();
                l.spec_right().lemma_height_is_depth();
                if l.spec_left().spec_height() >= l.spec_right().spec_height() {
                    self.lemma_left_rotated_cached();
                    self.left_child_rotated().lemma_updated_is_same();
                } else {
                    l.lemma_right_rotated_cached();
                    let t1 = AVLTree::Node(v, h, Box::new(l.right_child_rotated()), r);
                    t1.lemma_left_rotated_cached();
                    t1.left_child_rotated().lemma_updated_is_same();
                }
            },
        }
    }

    /// What `balance` leaves of a tree whose right subtree is deeper by more
    /// than one: the parts of the tree, in their new places.
    proof fn lemma_rebalanced_right(self)
        requires
            self.children_cached(),
            self.spec_depth() <= isize::MAX,
            self.spec_right().spec_depth() > self.spec_left().spec_depth() + 1,
        ensures
            self.rebalanced().heights_cached(),
            self.rebalanced() is Node,
            self.rebalanced().spec_left() is Node,
            self.rebalanced().spec_right() is Node || self.spec_right().spec_right().spec_depth()
                >= self.spec_right().spec_left().spec_depth(),
            self.spec_right().spec_right().spec_depth() >= self.spec_right().spec_left().spec_depth()
                ==> {
                &&& self.rebalanced().spec_right() == self.spec_right().spec_right()
                &&& self.rebalanced().spec_left().spec_right() == self.spec_right().spec_left()
                &&& self.rebalanced().spec_left().spec_left() == self.spec_left()
            },
            self.spec_right().spec_right().spec_depth() < self.spec_right().spec_left().spec_depth()
                ==> {
                &&& self.rebalanced().spec_right().spec_right() == self.spec_right().spec_right()
                &&& self.rebalanced().spec_right().spec_left()
                    == self.spec_right().spec_left().spec_right()
                &&& self.rebalanced().spec_left().spec_right()
                    == self.spec_right().spec_left().spec_left()
                &&& self.rebalanced().spec_left().spec_left() == self.spec_left()
            },
    {
        self.lemma_rotations_fit();
        match self {
            AVLTree::Empty => {},
            AVLTree::Node(v, h, l, r) => {
                l.lemma_height_is_depth();
                r.lemma_height_is_depth();
                r.spec_left().lemma_height_is_depth();
                r.spec_right().lemma_height_is_depth();
                if r.spec_right().spec_height() >= r.spec_left().spec_height() {
                    self.lemma_right_rotated_cached();
                    self.right_child_rotated().lemma_updated_is_same();
                } else {
                    r.lemma_left_rotated_cached();
                    let t1 = AVLTree::Node(v, h, l, Box::new(r.left_child_rotated()));
                    t1.lemma_right_rotated_cached();
                    t1.right_child_rotated().lemma_updated_is_same();
                }
            },
        }
    }

    /// To compute the height anew changes nothing where it was cached.
    proof fn lemma_updated_is_same(self)
        requires
            self.heights_cached(),
        ensures
            self.height_updated() == self,
    {
        self.lemma_height_is_depth();
        self.spec_left().lemma_height_is_depth();
        self.spec_right().lemma_height_is_depth();
    }

    /// After `balance` every height is cached again, and the tree is no
    /// deeper than before.
    pub proof fn lemma_rebalanced_cached(self)
        requires
            self.children_cached(),
            self.spec_depth() <= isize::MAX,
        ensures
            self.rebalanced().heights_cached(),
            self.rebalanced().spec_depth() <= self.spec_depth(),
            self is Node ==> self.rebalanced() is Node,
    {
        let l = self.spec_left();
        let r = self.spec_right();
        l.lemma_height_is_depth();
        r.lemma_height_is_depth();
        if l.spec_depth() > r.spec_depth() + 1 {
            self.lemma_rebalanced_left();
            self.rebalanced().lemma_depth_of_parts();
            self.lemma_depth_of_parts();
        } else if r.spec_depth() > l.spec_depth() + 1 {
            self.lemma_rebalanced_right();
            self.rebalanced().lemma_depth_of_parts();
            self.lemma_depth_of_parts();
        } else {
        }
    }

    /// The depth of a tree, from the depths of the trees two levels down.
    proof fn lemma_depth_of_parts(self)
        ensures
            self.spec_depth() == (if self is Node {
                1 + Self::deeper(self.spec_left().spec_depth(), self.spec_right().spec_depth())
            } else {
                0
            }),
            self.spec_left().spec_depth() == (if self.spec_left() is Node {
                1 + Self::deeper(
                    self.spec_left().spec_left().spec_depth(),
                    self.spec_left().spec_right().spec_depth(),
                )
            } else {
                0
            }),
            self.spec_right().spec_depth() == (if self.spec_right() is Node {
                1 + Self::deeper(
                    self.spec_right().spec_left().spec_depth(),
                    self.spec_right().spec_right().spec_depth(),
                )
            } else {
                0
            }),
            self.spec_left().spec_left().spec_depth() == (if self.spec_left().spec_left() is Node {
                1 + Self::deeper(
                    self.spec_left().spec_left().spec_left().spec_depth(),
                    self.spec_left().spec_left().spec_right().spec_depth(),
                )
            } else {
                0
            }),
            self.spec_left().spec_right().spec_depth() == (if self.spec_left().spec_right() is Node {
                1 + Self::deeper(
                    self.spec_left().spec_right().spec_left().spec_depth(),
                    self.spec_left().spec_right().spec_right().spec_depth(),
                )
            } else {
                0
            }),
            self.spec_right().spec_left().spec_depth() == (if self.spec_right().spec_left() is Node {
                1 + Self::deeper(
                    self.spec_right().spec_left().spec_left().spec_depth(),
                    self.spec_right().spec_left().spec_right().spec_depth(),
                )
            } else {
                0
            }),
            self.spec_right().spec_right().spec_depth() == (if self.spec_right().spec_right() is Node {
                1 + Self::deeper(
                    self.spec_right().spec_right().spec_left().spec_depth(),
                    self.spec_right().spec_right().spec_right().spec_depth(),
                )
            } else {
                0
            }),
    {
        let l = self.spec_left();
        let r = self.spec_right();
        assert(l.spec_left().spec_depth() == (if l.spec_left() is Node {
            1 + Self::deeper(
                l.spec_left().spec_left().spec_depth(),
                l.spec_left().spec_right().spec_depth(),
            )
        } else {
            0
        }));
        assert(l.spec_right().spec_depth() == (if l.spec_right() is Node {
            1 + Self::deeper(
                l.spec_right().spec_left().spec_depth(),
                l.spec_right().spec_right().spec_depth(),
            )
        } else {
            0
        }));
        assert(r.spec_left().spec_depth() == (if r.spec_left() is Node {
            1 + Self::deeper(
                r.spec_left().spec_left().spec_depth(),
                r.spec_left().spec_right().spec_depth(),
            )
        } else {
            0
        }));
        assert(r.spec_right().spec_depth() == (if r.spec_right() is Node {
            1 + Self::deeper(
                r.spec_right().spec_left().spec_depth(),
                r.spec_right().spec_right().spec_depth(),
            )
        } else {
            0
        }));
    }

    /// A tree is balanced where its two subtrees are and they differ in
    /// depth by at most one.
    proof fn lemma_balanced_of_parts(self)
        ensures
            self.balanced() <==> (self is Empty || {
                &&& self.spec_left().balanced()
                &&& self.spec_right().balanced()
                &&& self.spec_left().spec_depth() <= self.spec_right().spec_depth() + 1
                &&& self.spec_right().spec_depth() <= self.spec_left().spec_depth() + 1
            }),
    {
    }

    /// `balance` restores the balance of a tree whose subtrees are balanced
    /// and differ in depth by at most two. The tree loses at most one level,
    /// and it loses one where the deeper one of two subtrees that differ by
    /// two has itself subtrees of different depths.
    pub proof fn lemma_rebalanced_balanced(self)
        requires
            self.children_cached(),
            self.spec_depth() <= isize::MAX,
            self.spec_left().balanced(),
            self.spec_right().balanced(),
            self.spec_left().spec_depth() <= self.spec_right().spec_depth() + 2,
            self.spec_right().spec_depth() <= self.spec_left().spec_depth() + 2,
        ensures
            self.rebalanced().balanced(),
            self.rebalanced().spec_depth() <= self.spec_depth(),
            self.rebalanced().spec_depth() + 1 >= self.spec_depth(),
            self.spec_left().spec_depth() == self.spec_right().spec_depth() + 2
                && self.spec_left().spec_left().spec_depth()
                != self.spec_left().spec_right().spec_depth()
                ==> self.rebalanced().spec_depth() + 1 == self.spec_depth(),
            self.spec_right().spec_depth() == self.spec_left().spec_depth() + 2
                && self.spec_right().spec_left().spec_depth()
                != self.spec_right().spec_right().spec_depth()
                ==> self.rebalanced().spec_depth() + 1 == self.spec_depth(),
            self.spec_left().spec_depth() <= self.spec_right().spec_depth() + 1
                && self.spec_right().spec_depth() <= self.spec_left().spec_depth() + 1
                ==> self.rebalanced() == self.height_updated(),
    {
        let l = self.spec_left();
        let r = self.spec_right();
        let t = self.rebalanced();
        l.lemma_height_is_depth();
        r.lemma_height_is_depth();
        self.lemma_depth_of_parts();
        l.lemma_balanced_of_parts();
        r.lemma_balanced_of_parts();
        l.spec_left().lemma_balanced_of_parts();
        l.spec_right().lemma_balanced_of_parts();
        r.spec_left().lemma_balanced_of_parts();
        r.spec_right().lemma_balanced_of_parts();
        t.lemma_balanced_of_parts();
        t.spec_left().lemma_balanced_of_parts();
        t.spec_right().lemma_balanced_of_parts();
        if l.spec_depth() > r.spec_depth() + 1 {
            self.lemma_rebalanced_left();
            t.lemma_depth_of_parts();
        } else if r.spec_depth() > l.spec_depth() + 1 {
            self.lemma_rebalanced_right();
            t.lemma_depth_of_parts();
        } else {
            self.height_updated().lemma_balanced_of_parts();
        }
    }

    /// The keys that `remove` leaves at a node before it runs `balance`: `t1`
    /// is the node with what has come back from the subtree that the way led
    /// into, or what has taken the place of the node; it holds the keys of
    /// `t0` but for `v`.
    proof fn lemma_removed_keys_step(t0: Self, t1: Self, v: T)
        requires
            total_order::<T>(),
            strictly_sorted(t0@),
            match t0 {
                AVLTree::Empty => t1 is Empty,
                AVLTree::Node(k, h, l, r) => if lt(v, k) {
                    &&& t1 matches AVLTree::Node(k1, h1, l1, r1)
                    &&& k1 == k && r1 == r
                    &&& l1@ == l@.remove_value(v)
                } else if lt(k, v) {
                    &&& t1 matches AVLTree::Node(k1, h1, l1, r1)
                    &&& k1 == k && l1 == l
                    &&& r1@ == r@.remove_value(v)
                } else if *l is Empty && *r is Empty {
                    t1 is Empty
                } else if *l is Node && *r is Node {
                    &&& t1 matches AVLTree::Node(k1, h1, l1, r1)
                    &&& k1 == r@.first() && l1 == l
                    &&& r1@ == r@.remove_value(r@.first())
                } else if *l is Node {
                    t1 == *l
                } else {
                    t1 == *r
                },
            },
        ensures
            t1@ == t0@.remove_value(v),
            strictly_sorted(t1@),
    {
        t0.lemma_view_len();
        lemma_strict_is_sorted(t0@);
        lemma_contains_after(t0@, v);
        match t0 {
            AVLTree::Empty => {
                lemma_remove_value_absent(t0@, v);
            },
            AVLTree::Node(k, h, l, r) => {
                l.lemma_view_len();
                r.lemma_view_len();
                if lt(v, k) {
                    lemma_remove_value_left(l@, k, r@, v);
                } else if lt(k, v) {
                    lemma_remove_value_right(l@, k, r@, v);
                } else {
                    lemma_trichotomy(v, k);
                    lemma_remove_value_middle(l@, k, r@);
                    if *l is Empty && *r is Empty {
                        assert(t1@ =~= l@ + r@);
                    } else if *l is Node && *r is Node {
                    } else if *l is Node {
                        assert(t1@ =~= l@ + r@);
                    } else {
                        assert(t1@ =~= l@ + r@);
                    }
                }
            },
        }
    }

    /// What `remove` has made of a valid tree `t0` before it runs `balance`:
    /// a tree `t1` that holds the keys of `t0` but for `v`, with cached
    /// heights below its root, and no deeper.
    proof fn lemma_removed(t0: Self, t1: Self, v: T)
        requires
            total_order::<T>(),
            t0.wf(),
            match t0 {
                AVLTree::Empty => t1 is Empty,
                AVLTree::Node(k, h, l, r) => if lt(v, k) {
                    &&& t1 matches AVLTree::Node(k1, h1, l1, r1)
                    &&& k1 == k && r1 == r
                    &&& l1.wf()
                    &&& l1@ == l@.remove_value(v)
                    &&& l1.spec_depth() <= l.spec_depth()
                } else if lt(k, v) {
                    &&& t1 matches AVLTree::Node(k1, h1, l1, r1)
                    &&& k1 == k && l1 == l
                    &&& r1.wf()
                    &&& r1@ == r@.remove_value(v)
                    &&& r1.spec_depth() <= r.spec_depth()
                } else if *l is Empty && *r is Empty {
                    t1 is Empty
                } else if *l is Node && *r is Node {
                    &&& t1 matches AVLTree::Node(k1, h1, l1, r1)
                    &&& k1 == r@.first() && l1 == l
                    &&& r1.wf()
                    &&& r1@ == r@.remove_value(r@.first())
                    &&& r1.spec_depth() <= r.spec_depth()
                } else if *l is Node {
                    t1 == *l
                } else {
                    t1 == *r
                },
            },
        ensures
            t1.children_cached(),
            t1.spec_depth() <= t0.spec_depth(),
            t1.spec_depth() <= isize::MAX,
            t1@ == t0@.remove_value(v),
            strictly_sorted(t1@),
    {
        Self::lemma_removed_keys_step(t0, t1, v);
        t0.lemma_height_is_depth();
        match t0 {
            AVLTree::Empty => {},
            AVLTree::Node(k, h, l, r) => {
                l.lemma_height_is_depth();
                r.lemma_height_is_depth();
                t1.lemma_depth_of_parts();
                t0.lemma_depth_of_parts();
            },
        }
    }

    /// The tree holds a key exactly where it is not empty.
    pub proof fn lemma_view_len(self)
        ensures
            self is Empty <==> self@.len() == 0,
            self is Node ==> self@.first() == (if self.spec_left() is Node {
                self.spec_left()@.first()
            } else {
                self->0
            }),
            self is Node ==> self@.last() == (if self.spec_right() is Node {
                self.spec_right()@.last()
            } else {
                self->0
            }),
        decreases self,
    {
        match self {
            AVLTree::Empty => {},
            AVLTree::Node(v, _, l, r) => {
                l.lemma_view_len();
                r.lemma_view_len();
            },
        }
    }

    /// A balanced tree holds at least the least number of nodes for its
    /// depth, and as many nodes as keys.
    pub proof fn lemma_balanced_size(self)
        requires
            self.balanced(),
        ensures
            self.size() >= Self::least_size(self.spec_depth()),
            self.size() == self@.len(),
        decreases self,
    {
        match self {
            AVLTree::Empty => {},
            AVLTree::Node(_, _, l, r) => {
                l.lemma_balanced_size();
                r.lemma_balanced_size();
                self.lemma_size_is_len();
                let dl = l.spec_depth();
                let dr = r.spec_depth();
                let d = self.spec_depth();
                if dl >= 1 {
                    Self::lemma_least_size_grows((dl - 1) as nat);
                }
                if dr >= 1 {
                    Self::lemma_least_size_grows((dr - 1) as nat);
                }
                if d >= 2 {
                    assert(Self::least_size(d) == 1 + Self::least_size((d - 1) as nat)
                        + Self::least_size((d - 2) as nat));
                }
            },
        }
    }

    /// A tree has as many nodes as keys.
    pub proof fn lemma_size_is_len(self)
        ensures
            self.size() == self@.len(),
        decreases self,
    {
        match self {
            AVLTree::Empty => {},
            AVLTree::Node(_, _, l, r) => {
                l.lemma_size_is_len();
                r.lemma_size_is_len();
            },
        }
    }

    /// The least number of nodes grows with the depth, and two more levels
    /// more than double it: the depth of a balanced tree grows with the
    /// logarithm of its size.
    pub proof fn lemma_least_size_grows(d: nat)
        ensures
            Self::least_size(d) <= Self::least_size(d + 1),
            Self::least_size(d + 2) >= 2 * Self::least_size(d) + 1,
        decreases d,
    {
        if d >= 1 {
            Self::lemma_least_size_grows((d - 1) as nat);
        }
        assert(Self::least_size(d + 2) == 1 + Self::least_size(d + 1) + Self::least_size(d));
    }

    /// The keys after `insert`, whatever the heights: the keys that were
    /// there and `v`, each once, in strictly ascending order.
    pub proof fn lemma_inserted_keys(self, v: T)
        requires
            total_order::<T>(),
            strictly_sorted(self@),
        ensures
            self.inserted(v)@ == insert_new(self@, v),
            strictly_sorted(self.inserted(v)@),
            forall|x: T| #[trigger] self.inserted(v)@.contains(x) <==> x == v || self@.contains(x),
    {
        lemma_contains_after(self@, v);
        if !self@.contains(v) {
            self.lemma_grown_keys(v);
        }
    }

    /// The keys of the tree that is grown by a key that it does not hold.
    proof fn lemma_grown_keys(self, v: T)
        requires
            total_order::<T>(),
            strictly_sorted(self@),
            !self@.contains(v),
        ensures
            self.grown(v)@ == insert_sorted(self@, v),
            strictly_sorted(self.grown(v)@),
        decreases self,
    {
        lemma_insert_sorted_keeps_strict(self@, v);
        match self {
            AVLTree::Empty => {
                assert(upper_bound(self@, v) == 0);
                assert(Self::leaf(v)@ =~= insert_sorted(self@, v));
            },
            AVLTree::Node(k, h, l, r) => {
                lemma_strict_parts(l@, k, r@);
                let t1 = if lt(v, k) {
                    l.lemma_grown_keys(v);
                    lemma_insert_sorted_left(l@, k, r@, v);
                    AVLTree::Node(k, h, Box::new(l.grown(v)), r)
                } else {
                    r.lemma_grown_keys(v);
                    lemma_insert_sorted_right(l@, k, r@, v);
                    AVLTree::Node(k, h, l, Box::new(r.grown(v)))
                };
                t1.lemma_rotations_keep_order();
                assert(t1@ =~= insert_sorted(self@, v));
            },
        }
    }

    /// The keys after `remove`, whatever the heights: the keys that were
    /// there but for `v`, in strictly ascending order.
    pub proof fn lemma_removed_keys(self, v: T)
        requires
            total_order::<T>(),
            strictly_sorted(self@),
        ensures
            self.removed(v)@ == self@.remove_value(v),
            strictly_sorted(self.removed(v)@),
            forall|x: T| #[trigger] self.removed(v)@.contains(x) <==> x != v && self@.contains(x),
        decreases self,
    {
        lemma_contains_after(self@, v);
        let t1 = match self {
            AVLTree::Empty => AVLTree::Empty,
            AVLTree::Node(k, h, l, r) => {
                lemma_strict_parts(l@, k, r@);
                if lt(v, k) {
                    l.lemma_removed_keys(v);
                    AVLTree::Node(k, h, Box::new(l.removed(v)), r)
                } else if lt(k, v) {
                    r.lemma_removed_keys(v);
                    AVLTree::Node(k, h, l, Box::new(r.removed(v)))
                } else if *l is Empty && *r is Empty {
                    AVLTree::Empty
                } else if *l is Node && *r is Node {
                    r.lemma_removed_keys(r@.first());
                    AVLTree::Node(r@.first(), h, l, Box::new(r.removed(r@.first())))
                } else if *l is Node {
                    *l
                } else {
                    *r
                }
            },
        };
        Self::lemma_removed_keys_step(self, t1, v);
        t1.lemma_rotations_keep_order();
    }

    /// Whatever keys are put into the empty tree, in whatever order and
    /// however many: the tree holds each of them once, in strictly ascending
    /// order.
    pub proof fn lemma_built_keys(xs: Seq<T>)
        requires
            total_order::<T>(),
        ensures
            Self::built(xs)@ == insert_all_new(xs),
            strictly_sorted(Self::built(xs)@),
            forall|x: T| #[trigger] Self::built(xs)@.contains(x) <==> xs.contains(x),
        decreases xs.len(),
    {
        if xs.len() > 0 {
            Self::lemma_built_keys(xs.drop_last());
            Self::built(xs.drop_last()).lemma_inserted_keys(xs.last());
        }
        lemma_insert_all_new_strict(xs);
    }

    /// What `insert` makes of a valid tree that is not as deep as `isize`
    /// can count: a valid tree that holds the key, once, in its place among
    /// the others, at most one level deeper, and balanced and no less deep
    /// if the tree was balanced.
    pub proof fn lemma_inserted(self, v: T)
        requires
            total_order::<T>(),
            self.wf(),
            self.spec_depth() < isize::MAX,
        ensures
            self.inserted(v).wf(),
            self.inserted(v)@ == insert_new(self@, v),
            forall|x: T| #[trigger] self.inserted(v)@.contains(x) <==> x == v || self@.contains(x),
            self.inserted(v).spec_depth() <= self.spec_depth() + 1,
            self.balanced() ==> self.inserted(v).balanced() && self.inserted(v).spec_depth()
                >= self.spec_depth(),
    {
        lemma_contains_after(self@, v);
        if !self@.contains(v) {
            self.lemma_grown(v);
        }
    }

    /// What a key that a valid tree does not hold makes of the tree that is
    /// grown by it.
    proof fn lemma_grown(self, v: T)
        requires
            total_order::<T>(),
            self.wf(),
            !self@.contains(v),
            self.spec_depth() < isize::MAX,
        ensures
            self.grown(v).wf(),
            self.grown(v)@ == insert_sorted(self@, v),
            self.grown(v).spec_depth() <= self.spec_depth() + 1,
            self.grown(v) is Node,
            self.balanced() ==> {
                &&& self.grown(v).balanced()
                &&& self.grown(v).spec_depth() >= self.spec_depth()
                &&& self.grown(v).spec_depth() == self.spec_depth() + 1 ==> self.grown(
                    v,
                ).spec_depth() == 1 || self.grown(v).spec_left().spec_depth() != self.grown(
                    v,
                ).spec_right().spec_depth()
            },
        decreases self,
    {
        self.lemma_height_is_depth();
        lemma_insert_sorted_keeps_strict(self@, v);
        match self {
            AVLTree::Empty => {
                assert(upper_bound(self@, v) == 0);
                assert(Self::leaf(v)@ =~= insert_sorted(self@, v));
            },
            AVLTree::Node(k, h, l, r) => {
                lemma_strict_parts(l@, k, r@);
                let t1 = if lt(v, k) {
                    l.lemma_grown(v);
                    lemma_insert_sorted_left(l@, k, r@, v);
                    AVLTree::Node(k, h, Box::new(l.grown(v)), r)
                } else {
                    r.lemma_grown(v);
                    lemma_insert_sorted_right(l@, k, r@, v);
                    AVLTree::Node(k, h, l, Box::new(r.grown(v)))
                };
                t1.lemma_rotations_keep_order();
                t1.lemma_rebalanced_cached();
                assert(t1@ =~= insert_sorted(self@, v));
                if self.balanced() {
                    t1.lemma_rebalanced_balanced();
                    t1.height_updated().lemma_depth_of_parts();
                }
            },
        }
    }

    /// What `remove` makes of a valid tree: a valid tree without the key
    /// `v`, no deeper and at most one level less deep if the tree was
    /// balanced, and then balanced again.
    pub proof fn lemma_removed_valid(self, v: T)
        requires
            total_order::<T>(),
            self.wf(),
        ensures
            self.removed(v).wf(),
            self.removed(v)@ == self@.remove_value(v),
            forall|x: T| #[trigger] self.removed(v)@.contains(x) <==> x != v && self@.contains(x),
            self.removed(v).spec_depth() <= self.spec_depth(),
            self.balanced() ==> self.removed(v).balanced() && self.removed(v).spec_depth() + 1
                >= self.spec_depth(),
        decreases self,
    {
        self.lemma_height_is_depth();
        self.lemma_view_len();
        lemma_contains_after(self@, v);
        let t1 = match self {
            AVLTree::Empty => AVLTree::Empty,
            AVLTree::Node(k, h, l, r) => {
                lemma_strict_parts(l@, k, r@);
                l.lemma_view_len();
                r.lemma_view_len();
                if lt(v, k) {
                    l.lemma_removed_valid(v);
                    AVLTree::Node(k, h, Box::new(l.removed(v)), r)
                } else if lt(k, v) {
                    r.lemma_removed_valid(v);
                    AVLTree::Node(k, h, l, Box::new(r.removed(v)))
                } else if *l is Empty && *r is Empty {
                    AVLTree::Empty
                } else if *l is Node && *r is Node {
                    r.lemma_removed_valid(r@.first());
                    AVLTree::Node(r@.first(), h, l, Box::new(r.removed(r@.first())))
                } else if *l is Node {
                    *l
                } else {
                    *r
                }
            },
        };
        Self::lemma_removed(self, t1, v);
        t1.lemma_rotations_keep_order();
        t1.lemma_rebalanced_cached();
        if self.balanced() {
            self.lemma_balanced_of_parts();
            self.lemma_depth_of_parts();
            t1.lemma_depth_of_parts();
            t1.lemma_balanced_of_parts();
            t1.lemma_rebalanced_balanced();
        }
    }

    /// Whatever keys are put into the empty tree, in whatever order, fewer
    /// of them than `isize` can count: the tree is valid and balanced, and
    /// it is no deeper than there are keys.
    pub proof fn lemma_built(xs: Seq<T>)
        requires
            total_order::<T>(),
            xs.len() < isize::MAX,
        ensures
            Self::built(xs).wf(),
            Self::built(xs).balanced(),
            Self::built(xs).spec_depth() <= xs.len(),
        decreases xs.len(),
    {
        if xs.len() > 0 {
            Self::lemma_built(xs.drop_last());
            Self::built(xs.drop_last()).lemma_inserted(xs.last());
        }
    }

    /// A key that is there, taken out and put in again, leaves the keys of
    /// the tree as they were from left to right.
    pub proof fn lemma_remove_then_insert(self, k: T)
        requires
            total_order::<T>(),
            strictly_sorted(self@),
            self@.contains(k),
        ensures
            self.removed(k).inserted(k)@ == self@,
    {
        self.lemma_removed_keys(k);
        self.removed(k).lemma_inserted_keys(k);
        lemma_strict_is_sorted(self@);
        crate::utils::sorted::lemma_remove_then_insert(self@, k);
    }

    /// The keys of a tree in pre-order, put one after another into the empty
    /// tree, make a tree with the same keys from left to right; its shape
    /// may be another.
    pub proof fn lemma_built_from_pre_order(self)
        requires
            total_order::<T>(),
            strictly_sorted(self@),
        ensures
            Self::built(self.pre_order_seq())@ == self@,
    {
        Self::lemma_built_keys(self.pre_order_seq());
        self.lemma_rebuilt_from_pre_order();
    }

    /// Each of the three orders holds the keys of the tree, each key as often
    /// as the others hold it.
    pub proof fn lemma_orders_hold_same_keys(self)
        ensures
            self.pre_order_seq().to_multiset() =~= self@.to_multiset(),
            self.post_order_seq().to_multiset() =~= self@.to_multiset(),
        decreases self,
    {
        match self {
            AVLTree::Empty => {},
            AVLTree::Node(v, _, l, r) => {
                l.lemma_orders_hold_same_keys();
                r.lemma_orders_hold_same_keys();
                let k = seq![v];
                vstd::seq_lib::lemma_multiset_commutative(l@, k);
                vstd::seq_lib::lemma_multiset_commutative(l@ + k, r@);
                vstd::seq_lib::lemma_multiset_commutative(k, l.pre_order_seq());
                vstd::seq_lib::lemma_multiset_commutative(k + l.pre_order_seq(), r.pre_order_seq());
                vstd::seq_lib::lemma_multiset_commutative(l.post_order_seq(), r.post_order_seq());
                vstd::seq_lib::lemma_multiset_commutative(
                    l.post_order_seq() + r.post_order_seq(),
                    k,
                );
            },
        }
    }

    /// The keys of a valid tree in pre-order, put one after another into an
    /// empty tree, make a tree with the same keys from left to right: the
    /// shape may differ, the order of the keys does not.
    pub proof fn lemma_rebuilt_from_pre_order(self)
        requires
            total_order::<T>(),
            strictly_sorted(self@),
        ensures
            insert_all_new(self.pre_order_seq()) == self@,
    {
        self.lemma_orders_hold_same_keys();
        lemma_strict_is_sorted(self@);
        lemma_strict_no_duplicates(self@, self.pre_order_seq());
        lemma_insert_all_strict(self.pre_order_seq());
        lemma_insert_all_restores(self.pre_order_seq(), self@);
    }

    /// What the functions over a stack make of a stack with one more tree on
    /// it.
    proof fn lemma_stack_push(stack: Seq<&Self>, t: &Self)
        ensures
            Self::stack_size(stack.push(t)) == t.size() + Self::stack_size(stack),
            Self::stack_pre_order(stack.push(t)) == t.pre_order_seq() + Self::stack_pre_order(
                stack,
            ),
            Self::stack_mirrored(stack.push(t)) == t.mirrored_pre_order_seq()
                + Self::stack_mirrored(stack),
            Self::stack_in_order(stack.push(t)) == seq![t->0] + t.spec_right().in_order_seq()
                + Self::stack_in_order(stack),
            Self::stack_rest_size(stack.push(t)) == 1 + t.spec_right().size()
                + Self::stack_rest_size(stack),
    {
        assert(stack.push(t).drop_last() =~= stack);
        assert(stack.push(t).last() == t);
    }

    /// The post-order is the mirrored pre-order read backwards.
    pub proof fn lemma_mirrored_reverse(self)
        ensures
            self.mirrored_pre_order_seq().reverse() =~= self.post_order_seq(),
        decreases self,
    {
        match self {
            AVLTree::Empty => {},
            AVLTree::Node(v, _, l, r) => {
                l.lemma_mirrored_reverse();
                r.lemma_mirrored_reverse();
                lemma_reverse_join(seq![v] + r.mirrored_pre_order_seq(), l.mirrored_pre_order_seq());
                lemma_reverse_join(seq![v], r.mirrored_pre_order_seq());
                assert(seq![v].reverse() =~= seq![v]);
            },
        }
    }
}

impl<T: PartialOrd + Clone + Debug + Display> Clone for AVLTree<T> {
    /// A tree of the same shape; where `clone` on `T` is faithful, the same
    /// tree.
    fn clone(&self) -> (res: Self)
        ensures
            faithful_clone::<T>() ==> res == *self,
        decreases self,
    {
        match self {
            AVLTree::Empty => AVLTree::Empty,
            AVLTree::Node(v, h, l, r) => {
                let v2 = v.clone();
                proof {
                    reveal(faithful_clone);
                    assert(cloned::<T>(*v, v2));
                }
                AVLTree::Node(v2, *h, Box::new((&**l).clone()), Box::new((&**r).clone()))
            },
        }
    }
}

} // verus!
