use crate::utils::order::{
    duplicate, faithful_clone, greater, key_type, lemma_lt_transitive, lemma_order_laws,
    lemma_trichotomy, less, lt, same, total_order,
};
use crate::utils::sorted::{
    lemma_contains_after,
    insert_all_new, insert_new, insert_sorted, 
    lemma_insert_all_restores, lemma_insert_all_strict,
    lemma_insert_sorted_keeps_strict, lemma_insert_sorted_left, lemma_insert_sorted_right,
    lemma_prefix_strict, lemma_remove_value_absent, lemma_remove_value_left,
    lemma_remove_value_middle, lemma_remove_value_right, lemma_sorted_parts, lemma_sorted_sides,
    lemma_strict_is_sorted, lemma_strict_no_duplicates, lemma_strict_parts, lemma_suffix_strict,
    strictly_sorted, upper_bound,
};
use crate::utils::traversal::{keys_of, lemma_reverse_join, reversed};
use std::fmt::{Debug, Display};
use std::mem::swap;
use vstd::prelude::*;

verus! {

/// The color of a link between a node and its parent.
#[derive(Clone, Copy, PartialEq, Eq, Debug, Structural)]
pub enum Color {
    Red,
    Black,
}

/// A node of a red-black tree with the tree below it, or the empty tree.
pub enum RBNode<T: PartialOrd + Clone + Debug + Display> {
    /// Color means the color of incoming link of the node,
    /// NOT the color of node itself.
    ///
    /// //      |   <----- color means the color of this incoming link
    /// //      a
    /// //     / \
    /// //    b   c
    ///
    // value, color, left, right
    Node(T, Color, Box<RBNode<T>>, Box<RBNode<T>>),
    Empty,
}

impl<T: PartialOrd + Clone + Debug + Display> View for RBNode<T> {
    type V = Seq<T>;

    /// The keys from left to right.
    open spec fn view(&self) -> Seq<T> {
        self.in_order_seq()
    }
}

impl<T: PartialOrd + Clone + Debug + Display> RBNode<T> {
    /// Left subtree, the node's key, right subtree.
    pub open spec fn in_order_seq(self) -> Seq<T>
        decreases self,
    {
        match self {
            RBNode::Empty => Seq::empty(),
            RBNode::Node(v, _, l, r) => l.in_order_seq() + seq![v] + r.in_order_seq(),
        }
    }

    /// The number of nodes on the longest way down from here.
    pub open spec fn spec_depth(self) -> nat
        decreases self,
    {
        match self {
            RBNode::Empty => 0,
            RBNode::Node(_, _, l, r) => if l.spec_depth() >= r.spec_depth() {
                1 + l.spec_depth()
            } else {
                1 + r.spec_depth()
            },
        }
    }

    /// The left subtree; that of the empty tree is empty.
    pub open spec fn spec_left(self) -> Self {
        match self {
            RBNode::Empty => RBNode::Empty,
            RBNode::Node(_, _, l, _) => *l,
        }
    }

    /// The right subtree; that of the empty tree is empty.
    pub open spec fn spec_right(self) -> Self {
        match self {
            RBNode::Empty => RBNode::Empty,
            RBNode::Node(_, _, _, r) => *r,
        }
    }

    /// The key at the root, if the tree has one.
    pub open spec fn spec_value(self) -> Option<T> {
        match self {
            RBNode::Empty => None,
            RBNode::Node(v, _, _, _) => Some(v),
        }
    }

    /// The color of the link that leads to this node; the link to an empty
    /// tree is black.
    pub open spec fn spec_color(self) -> Color {
        match self {
            RBNode::Empty => Color::Black,
            RBNode::Node(_, c, _, _) => c,
        }
    }

    /// A red link leads to this node.
    pub open spec fn red(self) -> bool {
        self.spec_color() == Color::Red
    }

    /// The tree with the color `c` on the link to its root; nothing changes
    /// in an empty tree.
    pub open spec fn with_color(self, c: Color) -> Self {
        match self {
            RBNode::Empty => RBNode::Empty,
            RBNode::Node(v, _, l, r) => RBNode::Node(v, c, l, r),
        }
    }

    /// The tree with the other color on the link to its root.
    pub open spec fn color_flipped(self) -> Self {
        self.with_color(
            if self.red() {
                Color::Black
            } else {
                Color::Red
            },
        )
    }

    /// The tree with the other color on the link to its root and on the
    /// links to its two subtrees.
    pub open spec fn colors_flipped(self) -> Self {
        match self {
            RBNode::Empty => RBNode::Empty,
            RBNode::Node(v, c, l, r) => RBNode::Node(
                v,
                if c == Color::Red {
                    Color::Black
                } else {
                    Color::Red
                },
                Box::new(l.color_flipped()),
                Box::new(r.color_flipped()),
            ),
        }
    }

    /// The left child takes the root's place and its color; the root becomes
    /// its right child behind a red link.
    pub open spec fn rotated_right(self) -> Self {
        match self {
            RBNode::Node(k2, c2, l, z) => match *l {
                RBNode::Node(k1, _, x, y) => RBNode::Node(
                    k1,
                    c2,
                    x,
                    Box::new(RBNode::Node(k2, Color::Red, y, z)),
                ),
                RBNode::Empty => self,
            },
            RBNode::Empty => self,
        }
    }

    /// The right child takes the root's place and its color; the root
    /// becomes its left child behind a red link.
    pub open spec fn rotated_left(self) -> Self {
        match self {
            RBNode::Node(k1, c1, x, r) => match *r {
                RBNode::Node(k2, _, y, z) => RBNode::Node(
                    k2,
                    c1,
                    Box::new(RBNode::Node(k1, Color::Red, x, y)),
                    z,
                ),
                RBNode::Empty => self,
            },
            RBNode::Empty => self,
        }
    }

    /// The first step of `balance`: a red right link beside a left link that
    /// is not red turns the tree to the left.
    pub open spec fn leaned_left(self) -> Self {
        if self.spec_right().red() && !self.spec_left().red() {
            self.rotated_left()
        } else {
            self
        }
    }

    /// The second step of `balance`: two red links in a row on the left turn
    /// the tree to the right.
    pub open spec fn straightened(self) -> Self {
        if self.spec_left().red() && self.spec_left().spec_left().red() {
            self.rotated_right()
        } else {
            self
        }
    }

    /// The third step of `balance`: two red links below the root flip the
    /// colors.
    pub open spec fn split(self) -> Self {
        if self.spec_left().red() && self.spec_right().red() {
            self.colors_flipped()
        } else {
            self
        }
    }

    /// What `balance` makes of the tree: its three steps, one after another,
    /// each on what the step before has left.
    pub open spec fn rebalanced(self) -> Self {
        self.leaned_left().straightened().split()
    }

    /// The number of black links on the way from above this node down its
    /// left side to the empty tree.
    pub open spec fn black_height(self) -> nat
        decreases self,
    {
        match self {
            RBNode::Empty => 0,
            RBNode::Node(_, c, l, _) => l.black_height() + (if c == Color::Black {
                1nat
            } else {
                0nat
            }),
        }
    }

    /// Every way from a node down to an empty tree passes as many black
    /// links as every other way from that node.
    pub open spec fn black_balanced(self) -> bool
        decreases self,
    {
        match self {
            RBNode::Empty => true,
            RBNode::Node(_, _, l, r) => {
                &&& l.black_balanced()
                &&& r.black_balanced()
                &&& l.black_height() == r.black_height()
            },
        }
    }

    /// No red link leads to a node from which a red link leads on.
    pub open spec fn no_red_red(self) -> bool
        decreases self,
    {
        match self {
            RBNode::Empty => true,
            RBNode::Node(_, c, l, r) => {
                &&& l.no_red_red()
                &&& r.no_red_red()
                &&& c == Color::Red ==> !l.red() && !r.red()
            },
        }
    }

    /// A red link leads to the right only from a node from which a red link
    /// leads to the left as well.
    pub open spec fn left_leaning(self) -> bool
        decreases self,
    {
        match self {
            RBNode::Empty => true,
            RBNode::Node(_, _, l, r) => {
                &&& l.left_leaning()
                &&& r.left_leaning()
                &&& r.red() ==> l.red()
            },
        }
    }

    /// No red link leads to the right: no node has two red links below it.
    pub open spec fn two_three(self) -> bool
        decreases self,
    {
        match self {
            RBNode::Empty => true,
            RBNode::Node(_, _, l, r) => {
                &&& l.two_three()
                &&& r.two_three()
                &&& !r.red()
            },
        }
    }

    /// The three conditions on the colors of a tree, whatever the color of
    /// the link to its root.
    pub open spec fn red_black(self) -> bool {
        self.black_balanced() && self.no_red_red() && self.left_leaning()
    }

    /// The conditions on the colors but for one thing: the link to the root
    /// and the link to its left child may both be red.
    spec fn nearly_red_black(self) -> bool {
        &&& self.black_balanced()
        &&& self.left_leaning()
        &&& self.spec_left().no_red_red()
        &&& self.spec_right().no_red_red()
        &&& !self.spec_right().red()
    }

    /// What `insert` has done to a tree `self` whose colors were in order
    /// and in which no red link led to the right: the result `t` has the
    /// black height of `self` and no red link to the right; where the link to
    /// the root was red it is red again and may now be followed by a red link
    /// to the left.
    spec fn grown_to(self, t: Self) -> bool {
        &&& t is Node
        &&& t.black_height() == self.black_height()
        &&& t.two_three()
        &&& if self.red() {
            t.red() && t.nearly_red_black()
        } else {
            t.red_black()
        }
    }

    /// What `move_red_left` makes of the tree: the colors at the root are
    /// flipped; where the right child then has a red link to its left, that
    /// link is brought over to the left side by two rotations, and the colors
    /// are flipped back.
    pub open spec fn red_moved_left(self) -> Self {
        if self is Empty || self.spec_left() is Empty || self.spec_right() is Empty {
            self
        } else {
            let t = self.colors_flipped();
            if t.spec_right().spec_left().red() {
                RBNode::Node(
                    t->0,
                    t->1,
                    Box::new(t.spec_left()),
                    Box::new(t.spec_right().rotated_right()),
                ).rotated_left().colors_flipped()
            } else {
                t
            }
        }
    }

    /// What `move_red_right` makes of the tree: the colors at the root are
    /// flipped; where the left child then has a red link to its left, the
    /// tree is turned to the right and the colors are flipped back.
    pub open spec fn red_moved_right(self) -> Self {
        if self is Empty || self.spec_left() is Empty || self.spec_right() is Empty {
            self
        } else {
            let t = self.colors_flipped();
            if t.spec_left().spec_left().red() {
                t.rotated_right().colors_flipped()
            } else {
                t
            }
        }
    }

    /// The colors are in order, no red link leads to the right, and a red
    /// link leads to the root or to its left child: the state in which the
    /// removing functions take a tree so as to have a red link to give away
    /// on the way down.
    spec fn removable(self) -> bool {
        &&& self.red_black()
        &&& self.two_three()
        &&& self.red() || self.spec_left().red()
    }

    /// What a removing function has made of a removable tree `self`: in the
    /// result `t` the colors are in order again and no red link leads to the
    /// right, the black height is the same, and a black link to the root has
    /// stayed black.
    spec fn shrunk_to(self, t: Self) -> bool {
        &&& t.red_black()
        &&& t.two_three()
        &&& t.black_height() == self.black_height()
        &&& !self.red() ==> !t.red()
    }

    /// A node behind a black link whose only red link leads to the right,
    /// over two subtrees whose colors are in order: what `move_red_right`
    /// leaves as the right child when it has turned the tree.
    spec fn right_heavy(self) -> bool {
        &&& self is Node
        &&& !self.red()
        &&& !self.spec_left().red()
        &&& self.spec_right().red()
        &&& self.spec_left().red_black()
        &&& self.spec_left().two_three()
        &&& self.spec_right().red_black()
        &&& self.spec_right().two_three()
        &&& self.spec_left().black_height() == self.spec_right().black_height()
    }

    /// The state in which `remove` takes a tree from which `v` is to go: it
    /// is removable, or it is right-heavy and `v` is not before its root.
    spec fn ready_for(self, v: T) -> bool {
        self.removable() || (self.right_heavy() && !lt(v, self->0))
    }

    /// The tree with `l` in the place of its left subtree.
    pub open spec fn with_left(self, l: Self) -> Self {
        match self {
            RBNode::Empty => RBNode::Empty,
            RBNode::Node(v, c, _, r) => RBNode::Node(v, c, Box::new(l), r),
        }
    }

    /// The tree with `r` in the place of its right subtree.
    pub open spec fn with_right(self, r: Self) -> Self {
        match self {
            RBNode::Empty => RBNode::Empty,
            RBNode::Node(v, c, l, _) => RBNode::Node(v, c, l, Box::new(r)),
        }
    }

    /// The tree as `remove_min` has it when it goes down to the left.
    pub open spec fn readied_left(self) -> Self {
        if !self.spec_left().red() && !self.spec_left().spec_left().red() {
            self.red_moved_left()
        } else {
            self
        }
    }

    /// The tree turned to the right where a red link leads to its left
    /// child: the first step of the removing functions on the way down to
    /// the right.
    pub open spec fn leaned_right(self) -> Self {
        if self.spec_left().red() {
            self.rotated_right()
        } else {
            self
        }
    }

    /// The tree as `remove_max` has it when it goes down to the right.
    pub open spec fn readied_right(self) -> Self {
        let t = self.leaned_right();
        if !t.spec_right().red() && !t.spec_right().spec_left().red() {
            t.red_moved_right()
        } else {
            t
        }
    }

    /// The tree that holds `v` alone, behind a red link.
    pub open spec fn leaf(v: T) -> Self {
        RBNode::Node(v, Color::Red, Box::new(RBNode::Empty), Box::new(RBNode::Empty))
    }

    /// The tree after `v` was put in: `v` goes down to the left of the keys
    /// that it comes before and to the right of the others, takes the first
    /// empty place behind a red link, and `balance` runs at every node on
    /// its way.
    pub open spec fn inserted(self, v: T) -> Self
        decreases self,
    {
        match self {
            RBNode::Empty => Self::leaf(v),
            RBNode::Node(k, c, l, r) => if lt(v, k) {
                self.with_left(l.inserted(v)).rebalanced()
            } else {
                self.with_right(r.inserted(v)).rebalanced()
            },
        }
    }

    /// The tree after `remove_min`: a node without a left subtree goes, and
    /// its right subtree takes its place; before any other the way down is
    /// readied, the left subtree is treated alike, and `balance` runs on the
    /// way back.
    pub open spec fn min_removed(self) -> Self
        decreases self@.len(),
    {
        if self is Empty {
            self
        } else if self.spec_left() is Empty {
            self.spec_right()
        } else {
            proof {
                self.lemma_readied_left();
            }
            let t = self.readied_left();
            t.with_left(t.spec_left().min_removed()).rebalanced()
        }
    }

    /// The tree after `remove_max`: the tree is leaned to the right; if it
    /// then has no right subtree, its root goes and its left subtree takes
    /// its place; else the way down is readied, the right subtree is treated
    /// alike, and `balance` runs on the way back.
    pub open spec fn max_removed(self) -> Self
        decreases self@.len(),
    {
        if self is Empty {
            self
        } else if self.leaned_right().spec_right() is Empty {
            self.leaned_right().spec_left()
        } else {
            proof {
                self.lemma_readied_right();
            }
            let t = self.readied_right();
            t.with_right(t.spec_right().max_removed()).rebalanced()
        }
    }

    /// The tree with the key `m` at its root.
    pub open spec fn with_value(self, m: T) -> Self {
        match self {
            RBNode::Empty => RBNode::Empty,
            RBNode::Node(_, c, l, r) => RBNode::Node(m, c, l, r),
        }
    }

    /// The tree after `remove` of `v`. Before a root that `v` comes before,
    /// the way down to the left is readied and goes on in the left subtree.
    /// Else the tree is leaned to the right; a root with `v` and without a
    /// right subtree goes, and its left subtree takes its place; else the
    /// way down to the right is readied, and a root with `v` takes the first
    /// key of its right subtree, which is taken out there, while any other
    /// root sends the way on into its right subtree. `balance` runs on the
    /// way back.
    pub open spec fn removed(self, v: T) -> Self
        decreases self@.len(),
    {
        if self is Empty {
            self
        } else if lt(v, self->0) {
            proof {
                self.lemma_readied_left();
            }
            let t = self.readied_left();
            t.with_left(t.spec_left().removed(v)).rebalanced()
        } else if v == self.leaned_right()->0 && self.leaned_right().spec_right() is Empty {
            self.leaned_right().spec_left()
        } else {
            proof {
                self.lemma_readied_right();
            }
            let t = self.readied_right();
            if v == t->0 {
                t.with_value(t.spec_right()@.first()).with_right(
                    t.spec_right().min_removed(),
                ).rebalanced()
            } else {
                t.with_right(t.spec_right().removed(v)).rebalanced()
            }
        }
    }

    /// The tree as the removing functions of the tree take it: where no red
    /// link leads on from the root, the link to the root is made red.
    pub open spec fn prepared(self) -> Self {
        if !self.spec_left().red() && !self.spec_right().red() {
            self.with_color(Color::Red)
        } else {
            self
        }
    }

    /// The conditions on the colors at the root, in terms of the subtrees.
    spec fn color_parts(self) -> bool {
        &&& self is Node ==> {
            &&& self.black_height() == self.spec_left().black_height() + (if self.red() {
                0nat
            } else {
                1nat
            })
            &&& self.black_balanced() == (self.spec_left().black_balanced()
                && self.spec_right().black_balanced() && self.spec_left().black_height()
                == self.spec_right().black_height())
            &&& self.no_red_red() == (self.spec_left().no_red_red()
                && self.spec_right().no_red_red() && (self.red() ==> !self.spec_left().red()
                && !self.spec_right().red()))
            &&& self.left_leaning() == (self.spec_left().left_leaning()
                && self.spec_right().left_leaning() && (self.spec_right().red()
                ==> self.spec_left().red()))
            &&& self.two_three() == (self.spec_left().two_three() && self.spec_right().two_three()
                && !self.spec_right().red())
        }
        &&& self is Empty ==> {
            &&& self.black_height() == 0
            &&& self.black_balanced()
            &&& self.no_red_red()
            &&& self.left_leaning()
            &&& self.two_three()
            &&& !self.red()
        }
        &&& self.red() ==> self is Node
    }

    /// The conditions on the colors at the root under either color of the
    /// link to it, and at its children and their children.
    spec fn color_family(self) -> bool {
        let l = self.spec_left();
        let r = self.spec_right();
        &&& self.color_parts()
        &&& self.with_color(Color::Red).color_parts()
        &&& self.with_color(Color::Black).color_parts()
        &&& l.color_parts()
        &&& l.with_color(Color::Red).color_parts()
        &&& l.with_color(Color::Black).color_parts()
        &&& r.color_parts()
        &&& r.with_color(Color::Red).color_parts()
        &&& r.with_color(Color::Black).color_parts()
        &&& l.spec_left().color_parts()
        &&& l.spec_right().color_parts()
        &&& r.spec_left().color_parts()
        &&& r.spec_right().color_parts()
    }

    /// The node's key, left subtree, right subtree.
    pub open spec fn pre_order_seq(self) -> Seq<T>
        decreases self,
    {
        match self {
            RBNode::Empty => Seq::empty(),
            RBNode::Node(v, _, l, r) => seq![v] + l.pre_order_seq() + r.pre_order_seq(),
        }
    }

    /// The pre-order, each key with the color of the link to its node.
    pub open spec fn pre_order_info_seq(self) -> Seq<RBNodeInfo<T>>
        decreases self,
    {
        match self {
            RBNode::Empty => Seq::empty(),
            RBNode::Node(v, c, l, r) => seq![RBNodeInfo { value: v, color: c }]
                + l.pre_order_info_seq() + r.pre_order_info_seq(),
        }
    }

    /// Left subtree, right subtree, the node's key.
    pub open spec fn post_order_seq(self) -> Seq<T>
        decreases self,
    {
        match self {
            RBNode::Empty => Seq::empty(),
            RBNode::Node(v, _, l, r) => l.post_order_seq() + r.post_order_seq() + seq![v],
        }
    }

    /// The colored pre-orders of the trees on a stack, from the top down.
    spec fn stack_pre_order_info(stack: Seq<&Self>) -> Seq<RBNodeInfo<T>>
        decreases stack.len(),
    {
        if stack.len() == 0 {
            Seq::empty()
        } else {
            stack.last().pre_order_info_seq() + Self::stack_pre_order_info(stack.drop_last())
        }
    }

    /// The number of nodes.
    pub open spec fn size(self) -> nat
        decreases self,
    {
        match self {
            RBNode::Empty => 0,
            RBNode::Node(_, _, l, r) => 1 + l.size() + r.size(),
        }
    }

    /// The node's key, right subtree, left subtree: the post-order read
    /// backwards.
    pub open spec fn mirrored_pre_order_seq(self) -> Seq<T>
        decreases self,
    {
        match self {
            RBNode::Empty => Seq::empty(),
            RBNode::Node(v, _, l, r) => seq![v] + r.mirrored_pre_order_seq()
                + l.mirrored_pre_order_seq(),
        }
    }

    /// The nodes of all the trees on a stack.
    spec fn stack_size(stack: Seq<&Self>) -> nat
        decreases stack.len(),
    {
        if stack.len() == 0 {
            0
        } else {
            stack.last().size() + Self::stack_size(stack.drop_last())
        }
    }

    /// The pre-orders of the trees on a stack, from the top down.
    spec fn stack_pre_order(stack: Seq<&Self>) -> Seq<T>
        decreases stack.len(),
    {
        if stack.len() == 0 {
            Seq::empty()
        } else {
            stack.last().pre_order_seq() + Self::stack_pre_order(stack.drop_last())
        }
    }

    /// The mirrored pre-orders of the trees on a stack, from the top down.
    spec fn stack_mirrored(stack: Seq<&Self>) -> Seq<T>
        decreases stack.len(),
    {
        if stack.len() == 0 {
            Seq::empty()
        } else {
            stack.last().mirrored_pre_order_seq() + Self::stack_mirrored(stack.drop_last())
        }
    }

    /// For each tree on a stack, from the top down, its root's key and then
    /// the keys of its right subtree in order.
    spec fn stack_in_order(stack: Seq<&Self>) -> Seq<T>
        decreases stack.len(),
    {
        if stack.len() == 0 {
            Seq::empty()
        } else {
            seq![stack.last()->0] + stack.last().spec_right().in_order_seq()
                + Self::stack_in_order(stack.drop_last())
        }
    }

    /// For each tree on a stack, one and the nodes of its right subtree.
    spec fn stack_rest_size(stack: Seq<&Self>) -> nat
        decreases stack.len(),
    {
        if stack.len() == 0 {
            0
        } else {
            1 + stack.last().spec_right().size() + Self::stack_rest_size(stack.drop_last())
        }
    }

    /// The empty tree.
    pub fn new() -> (t: RBNode<T>)
        ensures
            t is Empty,
    {
        RBNode::Empty
    }

    /// The number of nodes on the longest way from the root down. It must fit
    /// in `usize`.
    pub fn depth(&self) -> (d: usize)
        requires
            self.spec_depth() <= usize::MAX,
        ensures
            d == self.spec_depth(),
        decreases self,
    {
        match self {
            RBNode::Empty => 0,
            RBNode::Node(_, _, l, r) => {
                let dl = l.depth();
                let dr = r.depth();
                if dl >= dr {
                    1 + dl
                } else {
                    1 + dr
                }
            },
        }
    }

    /// The left subtree, unless the tree is empty.
    fn left(&self) -> (res: Option<&Self>)
        ensures
            res == (if self is Empty {
                None
            } else {
                Some(&self.spec_left())
            }),
    {
        match self {
            RBNode::Empty => None,
            RBNode::Node(_, _, l, _) => Some(l),
        }
    }

    /// The right subtree, unless the tree is empty.
    fn right(&self) -> (res: Option<&Self>)
        ensures
            res == (if self is Empty {
                None
            } else {
                Some(&self.spec_right())
            }),
    {
        match self {
            RBNode::Empty => None,
            RBNode::Node(_, _, _, r) => Some(r),
        }
    }

    /// The left subtree, to be changed in its place, unless the tree is empty.
    fn left_mut(&mut self) -> (res: Option<&mut Self>)
        ensures
            *old(self) is Empty ==> res is None && *final(self) is Empty,
            *old(self) is Node ==> res is Some && *res.unwrap() == old(self).spec_left()
                && *final(self) == RBNode::Node(
                (*old(self))->0,
                (*old(self))->1,
                Box::new(*final(res.unwrap())),
                Box::new(old(self).spec_right()),
            ),
    {
        match self {
            RBNode::Empty => None,
            RBNode::Node(_, _, l, _) => Some(l),
        }
    }

    /// The right subtree, to be changed in its place, unless the tree is empty.
    fn right_mut(&mut self) -> (res: Option<&mut Self>)
        ensures
            *old(self) is Empty ==> res is None && *final(self) is Empty,
            *old(self) is Node ==> res is Some && *res.unwrap() == old(self).spec_right()
                && *final(self) == RBNode::Node(
                (*old(self))->0,
                (*old(self))->1,
                Box::new(old(self).spec_left()),
                Box::new(*final(res.unwrap())),
            ),
    {
        match self {
            RBNode::Empty => None,
            RBNode::Node(_, _, _, r) => Some(r),
        }
    }

    /// Whether a red link leads to this node.
    fn is_red(&self) -> (b: bool)
        ensures
            b == self.red(),
    {
        match self {
            RBNode::Empty => false,
            RBNode::Node(_, c, _, _) => *c == Color::Red,
        }
    }

    /// Whether a red link leads to the left child.
    fn is_left_red(&self) -> (b: bool)
        ensures
            b == self.spec_left().red(),
    {
        match self {
            RBNode::Empty => false,
            RBNode::Node(_, _, l, _) => l.color() == Color::Red,
        }
    }

    /// Whether a red link leads to the right child.
    fn is_right_red(&self) -> (b: bool)
        ensures
            b == self.spec_right().red(),
    {
        match self {
            RBNode::Empty => false,
            RBNode::Node(_, _, _, r) => r.color() == Color::Red,
        }
    }

    /// The color of the link that leads to this node; black for the empty
    /// tree.
    fn color(&self) -> (c: Color)
        ensures
            c == self.spec_color(),
    {
        match self {
            RBNode::Empty => Color::Black,
            RBNode::Node(_, c, _, _) => c.clone(),
        }
    }

    /// Set color of node (expecially means the incoming link of the node)
    ///
    /// //      |   <----- color means the color of this incoming link
    /// //      a
    /// //     / \
    /// //    b   c
    fn set_color(&mut self, c: Color)
        ensures
            *final(self) == old(self).with_color(c),
    {
        match self {
            RBNode::Node(_, color, _, _) => {
                *color = c;
            },
            _ => {},
        }
    }

    /// Gives the link to this node the other color.
    fn flip_color(&mut self)
        ensures
            *final(self) == old(self).color_flipped(),
    {
        if self.is_empty() {
            return;
        }
        let c = self.color();
        self.set_color(
            if c == Color::Red {
                Color::Black
            } else {
                Color::Red
            },
        );
    }

    /// Gives the link to this node and the links to its two children the
    /// other color.
    fn flip_colors(&mut self)
        ensures
            *final(self) == old(self).colors_flipped(),
    {
        // flip both outcoming link color and the incoming link color
        // flip root
        self.flip_color();
        // flip left
        if self.left_mut().is_some() {
            self.left_mut().unwrap().flip_color();
        }
        // flip right

        if self.right_mut().is_some() {
            self.right_mut().unwrap().flip_color();
        }
    }

    /// A copy of the key at the root, if the tree has one.
    fn get_value(&self) -> (res: Option<T>)
        requires
            faithful_clone::<T>(),
        ensures
            res == self.spec_value(),
    {
        match self {
            RBNode::Empty => None,
            RBNode::Node(v, _, _, _) => Some(duplicate(v)),
        }
    }

    /// The key at the root, if the tree has one.
    fn value(&self) -> (res: Option<&T>)
        ensures
            res == (match self.spec_value() {
                Some(v) => Some(&v),
                None => None,
            }),
    {
        match self {
            RBNode::Empty => None,
            RBNode::Node(v, _, _, _) => Some(v),
        }
    }

    /// Puts `value` at the root; nothing changes in the empty tree.
    fn set_value(&mut self, value: T)
        ensures
            *final(self) == old(self).with_value(value),
    {
        match self {
            RBNode::Empty => {},
            RBNode::Node(v, _, _, _) => {
                *v = value;
            },
        }
    }

    /// The number of nodes on the longest way from the root down. It must fit
    /// in `usize`.
    fn height(&self) -> (h: usize)
        requires
            self.spec_depth() <= usize::MAX,
        ensures
            h == self.spec_depth(),
        decreases self,
    {
        match self {
            RBNode::Empty => 0,
            RBNode::Node(_, _, l, r) => {
                let hl = l.height();
                let hr = r.height();
                if hl >= hr {
                    hl + 1
                } else {
                    hr + 1
                }
            },
        }
    }

    /// Whether the tree holds no key.
    fn is_empty(&self) -> (b: bool)
        ensures
            b == (self is Empty),
    {
        match self {
            RBNode::Empty => true,
            _ => false,
        }
    }

    /// Whether the root has no left subtree; the empty tree has none.
    fn is_left_empty(&self) -> (b: bool)
        ensures
            b == (self.spec_left() is Empty),
    {
        match self {
            RBNode::Empty => true,
            RBNode::Node(_, _, l, _) => l.is_empty(),
        }
    }

    /// Whether the root has no right subtree; the empty tree has none.
    fn is_right_empty(&self) -> (b: bool)
        ensures
            b == (self.spec_right() is Empty),
    {
        match self {
            RBNode::Empty => true,
            RBNode::Node(_, _, _, r) => r.is_empty(),
        }
    }

    /// Right rotate tree (view from new root, rotate happened on the right hand)
    /// //      k2                                    k1
    /// //     /  \          left rotate             /  \
    /// //    k1   z        ------------->          x    k2
    /// //   /  \                                       /  \
    /// //  x    y                                     y    z
    ///
    fn rotate_right(&mut self)
        requires
            faithful_clone::<T>(),
            *old(self) is Node ==> old(self).spec_left() is Node,
        ensures
            *final(self) == old(self).rotated_right(),
    {
        let mut x: RBNode<T> = RBNode::Empty;
        let mut y: RBNode<T> = RBNode::Empty;
        let mut z: RBNode<T> = RBNode::Empty;
        let k1_v: T;
        let k2_v: T;
        let k2_c: Color;

        match self {
            RBNode::Empty => return,
            RBNode::Node(v, c, l, r) => {
                k1_v = l.get_value().unwrap();

                k2_v = duplicate(v);
                k2_c = c.clone();

                swap(l.left_mut().unwrap(), &mut x);
                swap(l.right_mut().unwrap(), &mut y);
                swap(&mut **r, &mut z);
            },
        }

        // generate lower k2 node
        let k2 = RBNode::Node(k2_v, Color::Red, Box::new(y), Box::new(z));

        // generate k1 node
        let k1 = RBNode::Node(k1_v, k2_c, Box::new(x), Box::new(k2));

        *self = k1;
    }

    /// rotate left tree (RR)
    /// //    k1                                      k2
    /// //   /  \          right rotate              /  \
    /// //  x   k2        ------------->            k1   z
    /// //      / \                                /  \
    /// //     y   z                              x    y
    fn rotate_left(&mut self)
        requires
            faithful_clone::<T>(),
            *old(self) is Node ==> old(self).spec_right() is Node,
        ensures
            *final(self) == old(self).rotated_left(),
    {
        let mut x: RBNode<T> = RBNode::Empty;
        let mut y: RBNode<T> = RBNode::Empty;
        let mut z: RBNode<T> = RBNode::Empty;
        let k1_v: T;
        let k2_v: T;
        let k1_c: Color;

        match self {
            RBNode::Empty => return,
            RBNode::Node(v, c, l, r) => {
                k2_v = r.get_value().unwrap();

                k1_v = duplicate(v);
                k1_c = c.clone();

                swap(r.left_mut().unwrap(), &mut y);
                swap(r.right_mut().unwrap(), &mut z);
                swap(&mut **l, &mut x);
            },
        }

        // generate lower k1 node
        let k1 = RBNode::Node(k1_v, Color::Red, Box::new(x), Box::new(y));

        // generate k2 node
        let k2 = RBNode::Node(k2_v, k1_c, Box::new(k1), Box::new(z));

        *self = k2;
    }

    /// Puts `value`, which the tree does not hold, into the tree behind a red
    /// link, and runs `balance` on the way back up.
    fn insert(&mut self, value: T) -> (ret: &mut Self)
        requires
            key_type::<T>(),
            strictly_sorted(old(self)@),
            !old(self)@.contains(value),
        ensures
            *final(self) == *final(ret),
            *ret == old(self).inserted(value),
            *ret is Node,
            ret@ == insert_sorted(old(self)@, value),
            strictly_sorted(ret@),
            old(self).red_black() && old(self).two_three() ==> old(self).grown_to(*ret),
        decreases *old(self),
    {
        let ghost t0 = *self;
        let ghost v = value;
        proof {
            if t0 is Node {
                lemma_strict_parts(t0.spec_left()@, t0->0, t0.spec_right()@);
            }
            t0.lemma_color_parts();
        }
        match self {
            RBNode::Empty => {
                *self = RBNode::Node(
                    value,
                    Color::Red,
                    Box::new(RBNode::Empty),
                    Box::new(RBNode::Empty),
                )
            },
            RBNode::Node(old_value, _, l, r) => {
                if less(&value, old_value) {
                    l.insert(value);
                } else {
                    r.insert(value);
                }
            },
        }
        let ghost t1 = *self;
        proof {
            t1.lemma_steps_keep_order();
            lemma_insert_sorted_keeps_strict(t0@, v);
            match t0 {
                RBNode::Empty => {
                    assert(upper_bound(t0@, v) == 0);
                    assert(t1@ =~= insert_sorted(t0@, v));
                    t1.lemma_color_family();
                    assert(t1.rebalanced() == t1);
                    RBNode::<T>::Empty.lemma_color_parts();
                },
                RBNode::Node(k, _, l, r) => {
                    if lt(v, k) {
                        lemma_insert_sorted_left(l@, k, r@, v);
                    } else {
                        lemma_sorted_parts(l@, k, r@);
                        lemma_insert_sorted_right(l@, k, r@, v);
                    }
                    assert(t1@ =~= insert_sorted(t0@, v));
                    if t0.red_black() && t0.two_three() {
                        Self::lemma_insert_step(t0, t1);
                    }
                    t1.lemma_rebalanced_is_node();
                },
            }
        }

        self.balance();

        self
    }

    /// Readies the way down to the left by bringing a red link to the left
    /// child.
    fn move_red_left(&mut self)
        requires
            faithful_clone::<T>(),
        ensures
            *final(self) == old(self).red_moved_left(),
    {
        if self.is_empty() || self.is_left_empty() || self.is_right_empty() {
            return;
        }
        // There are two cases on the way down to the left.
        // 1) The right child is a 2-node: to flip the colors makes a 4-node.
        //
        //                  |   <-- RED
        //                  a
        //     BLACK -->   / \  <-- BLACK
        //                b   c
        //
        // 2) The right child is a 3-node (the red link of its left child):
        //    a. flip the colors
        //    b. turn the right child to the right
        //    c. turn the root to the left
        //    d. flip the colors of the new root
        //
        //                      |   <-- RED
        //                      a
        //        BLACK -->    / \  <-- BLACK
        //                    b   c
        //                       /  <-- RED
        //                      d

        self.flip_colors();
        if self.right().unwrap().left().unwrap().is_red() {
            self.right_mut().unwrap().rotate_right();
            self.rotate_left();
            self.flip_colors();
        }
    }

    /// Readies the way down to the right by bringing a red link to the right
    /// child.
    fn move_red_right(&mut self)
        requires
            faithful_clone::<T>(),
        ensures
            *final(self) == old(self).red_moved_right(),
    {
        if self.is_empty() || self.is_left_empty() || self.is_right_empty() {
            return;
        }
        // 1) both children are 2-nodes: one flip is enough
        // 2) the left child is a 3-node, the right one a 2-node: after the
        //    flip the tree is turned to the right and flipped again

        self.flip_colors();

        //      | BLACK
        //      a
        // RED / \ RED
        //    b   c
        if self.left().unwrap().left().unwrap().is_red() {
            self.rotate_right();
            self.flip_colors();
        }
    }

    /// Takes the first key out of the tree.
    fn remove_min(&mut self) -> (ret: &mut Self)
        requires
            faithful_clone::<T>(),
        ensures
            *final(self) == *final(ret),
            *ret == old(self).min_removed(),
            *old(self) is Node ==> ret@ == old(self)@.drop_first(),
            *old(self) is Empty ==> *ret is Empty,
            old(self).removable() ==> old(self).shrunk_to(*ret),
        decreases old(self)@.len(),
    {
        let ghost t0 = *self;
        proof {
            t0.lemma_view_len();
            t0.lemma_readied_left();
        }
        // an empty tree stays as it is
        if self.is_empty() {
            return self;
        }
        // a node without a left subtree is the first one: it goes, and its
        // right subtree takes its place
        if self.is_left_empty() {
            proof {
                t0.lemma_first_node();
            }
            let mut rest: RBNode<T> = RBNode::Empty;
            swap(self.right_mut().unwrap(), &mut rest);
            *self = rest;
            return self;
        }
        // on the way down, see to it that the left child is no 2-node

        if !self.left().unwrap().is_red() && !self.left().unwrap().left().unwrap().is_red() {
            self.move_red_left();
        }
        let ghost t1 = *self;

        // go on to the left
        self.left_mut().unwrap().remove_min();
        let ghost t2 = *self;

        // on the way up, take the 4-nodes apart again
        proof {
            t2.lemma_steps_keep_order();
            let l1 = t1.spec_left();
            let l2 = t2.spec_left();
            let rest = seq![t1->0] + t1.spec_right()@;
            l1.lemma_view_len();
            assert(t1@ =~= l1@ + rest);
            assert(t2@ =~= l2@ + rest);
            assert(t2@ =~= t1@.drop_first());
            if t0.removable() {
                Self::lemma_remove_left_step(t0, t2);
            }
        }
        self.balance();

        self
    }

    /// Takes the last key out of the tree.
    fn remove_max(&mut self) -> (ret: &mut Self)
        requires
            faithful_clone::<T>(),
        ensures
            *final(self) == *final(ret),
            *ret == old(self).max_removed(),
            *old(self) is Node ==> ret@ == old(self)@.drop_last(),
            *old(self) is Empty ==> *ret is Empty,
            old(self).removable() || old(self).right_heavy() ==> old(self).shrunk_to(*ret),
        decreases old(self)@.len(),
    {
        let ghost t0 = *self;
        proof {
            t0.lemma_view_len();
            t0.lemma_readied_right();
        }
        // as `remove_min`, but to the right
        if self.is_empty() {
            return self;
        }
        if self.left().unwrap().is_red() {
            self.rotate_right();
        }
        // a node without a right subtree is the last one: it goes, and its
        // left subtree takes its place
        if self.is_right_empty() {
            proof {
                t0.lemma_last_node();
            }
            let mut rest: RBNode<T> = RBNode::Empty;
            swap(self.left_mut().unwrap(), &mut rest);
            *self = rest;
            return self;
        }
        // see to it that the right child is no 2-node

        if !self.right().unwrap().is_red() && !self.right().unwrap().left().unwrap().is_red() {
            self.move_red_right();
        }
        let ghost t1 = *self;

        self.right_mut().unwrap().remove_max();
        let ghost t2 = *self;

        proof {
            t2.lemma_steps_keep_order();
            let r1 = t1.spec_right();
            let r2 = t2.spec_right();
            let rest = t1.spec_left()@ + seq![t1->0];
            r1.lemma_view_len();
            assert(t1@ =~= rest + r1@);
            assert(t2@ =~= rest + r2@);
            assert(t2@ =~= t1@.drop_last());
            if t0.removable() || t0.right_heavy() {
                Self::lemma_remove_right_step(t0, t2);
            }
        }
        self.balance();

        self
    }

    /// Takes `value` out of the tree.
    fn remove(&mut self, value: &T) -> (ret: &mut Self)
        requires
            key_type::<T>(),
            strictly_sorted(old(self)@),
        ensures
            *final(self) == *final(ret),
            *ret == old(self).removed(*value),
            ret@ == old(self)@.remove_value(*value),
            strictly_sorted(ret@),
            old(self)@.contains(*value) && old(self).ready_for(*value) ==> old(self).shrunk_to(
                *ret,
            ),
        decreases old(self)@.len(),
    {
        let ghost t0 = *self;
        let ghost v = *value;
        proof {
            lemma_contains_after(t0@, v);
        }
        if self.is_empty() {
            proof {
                assert(t0@.len() == 0);
                lemma_remove_value_absent(t0@, v);
            }
            return self;
        }
        proof {
            t0.lemma_view_len();
            t0.lemma_readied_left();
            t0.lemma_readied_right();
            lemma_strict_parts(t0.spec_left()@, t0->0, t0.spec_right()@);
            lemma_sorted_sides(t0.spec_left()@, t0->0, t0.spec_right()@, v);
            lemma_trichotomy(v, t0->0);
        }

        if less(value, &self.get_value().unwrap()) {
            // to the left
            if !self.left().unwrap().is_red() && !(self.left().unwrap().left().is_some()
                && self.left().unwrap().left().unwrap().is_red()) {
                self.move_red_left();
            }
            let ghost t1 = *self;
            proof {
                Self::lemma_left_key(t0, v);
                lemma_strict_parts(t1.spec_left()@, t1->0, t1.spec_right()@);
                lemma_sorted_sides(t1.spec_left()@, t1->0, t1.spec_right()@, v);
            }
            self.left_mut().unwrap().remove(value);
            let ghost t2 = *self;
            proof {
                lemma_remove_value_left(t1.spec_left()@, t1->0, t1.spec_right()@, v);
                if t0@.contains(v) && t0.ready_for(v) {
                    t1.spec_left().lemma_view_len();
                    Self::lemma_remove_left_step(t0, t2);
                }
            }
        } else {
            // to the right
            if self.left().unwrap().is_red() {
                self.rotate_right();
            }
            let ghost ta = *self;
            proof {
                Self::lemma_right_key(t0, v);
                lemma_strict_parts(ta.spec_left()@, ta->0, ta.spec_right()@);
            }
            // after the turn, see whether the end of the right side is
            // reached: the root goes, and its left subtree takes its place
            //          |   RED
            //          a

            if same(value, &self.get_value().unwrap()) && self.is_right_empty() {
                proof {
                    t0.lemma_last_node();
                    lemma_remove_value_middle(ta.spec_left()@, v, Seq::<T>::empty());
                    assert(ta@ =~= ta.spec_left()@ + seq![v] + Seq::<T>::empty());
                    assert(ta.spec_left()@ + Seq::<T>::empty() =~= ta.spec_left()@);
                }
                let mut rest: RBNode<T> = RBNode::Empty;
                swap(self.left_mut().unwrap(), &mut rest);
                *self = rest;
                return self;
            }
            // where there is more on the right: see to it that the right
            // child is no 2-node

            if !self.right().unwrap().is_red() && !(self.right().unwrap().left().is_some()
                && self.right().unwrap().left().unwrap().is_red()) {
                self.move_red_right();
            }
            let ghost t1 = *self;
            proof {
                lemma_strict_parts(t1.spec_left()@, t1->0, t1.spec_right()@);
                lemma_sorted_sides(t1.spec_left()@, t1->0, t1.spec_right()@, v);
                lemma_trichotomy(v, t1->0);
                t1.spec_right().lemma_view_len();
            }

            if same(value, &self.get_value().unwrap()) {
                // put the first key of the right subtree in the place of
                // the one that goes
                {
                    let min_v: T;
                    {
                        let min = self.right().unwrap().min().unwrap();
                        min_v = min.get_value().unwrap();
                    }
                    self.set_value(min_v);
                }

                // and take it out of the right subtree
                self.right_mut().unwrap().remove_min();
                let ghost t2 = *self;
                proof {
                    lemma_remove_value_middle(t1.spec_left()@, t1->0, t1.spec_right()@);
                    if t0@.contains(v) && t0.ready_for(v) {
                        Self::lemma_remove_right_step(t0, t2);
                    }
                }
            } else {
                // go on to the right
                self.right_mut().unwrap().remove(value);
                let ghost t2 = *self;
                proof {
                    lemma_remove_value_right(t1.spec_left()@, t1->0, t1.spec_right()@, v);
                    if t0@.contains(v) && t0.ready_for(v) {
                        Self::lemma_remove_right_step(t0, t2);
                    }
                }
            }
        }
        proof {
            self.lemma_steps_keep_order();
        }

        self.balance();

        self
    }

    /// Takes the steps that the colors below the root call for, one after
    /// another: a turn to the left, a turn to the right, a flip of the
    /// colors. Each step looks at what the step before has left.
    fn balance(&mut self)
        requires
            faithful_clone::<T>(),
        ensures
            *final(self) == old(self).rebalanced(),
    {
        // a red link on the right beside a left link that is not red: turn
        // it to the left
        if self.is_right_red() && !self.is_left_red() {
            self.rotate_left();
        }
        // two red links in a row on the left: turn the upper one to the
        // right

        if self.is_left_red() && self.left().unwrap().is_left_red() {
            self.rotate_right();
        }
        // both links red: flip the colors

        if self.is_left_red() && self.is_right_red() {
            self.flip_colors();
        }
    }

    /// The keys with each node before its subtrees, the left one first;
    /// `None` for the empty tree.
    fn pre_order(&self) -> (res: Option<Vec<&T>>)
        ensures
            res is None <==> self is Empty,
            res matches Some(keys) ==> keys_of(keys@) == self.pre_order_seq(),
    {
        if self.is_empty() {
            return None;
        }
        let mut tmp: Vec<&RBNode<T>> = Vec::new();
        tmp.push(self);
        let mut nodes: Vec<&T> = Vec::new();
        proof {
            Self::lemma_stack_push(Seq::empty(), self);
            assert(Self::stack_pre_order(Seq::empty()) =~= Seq::empty());
            assert(keys_of(nodes@) + Self::stack_pre_order(tmp@) =~= self.pre_order_seq());
        }
        loop
            invariant
                forall|i: int| 0 <= i < tmp.len() ==> *tmp@[i] is Node,
                keys_of(nodes@) + Self::stack_pre_order(tmp@) == self.pre_order_seq(),
            ensures
                keys_of(nodes@) == self.pre_order_seq(),
            decreases Self::stack_size(tmp@),
        {
            if tmp.is_empty() {
                proof {
                    assert(keys_of(nodes@) + Self::stack_pre_order(tmp@) =~= keys_of(nodes@));
                }
                break;
            }
            let ghost stack0 = tmp@;
            let ghost nodes0 = nodes@;

            // stack first in last out
            let n = tmp.pop().unwrap();
            nodes.push(n.value().unwrap());
            let ghost rest = tmp@;
            proof {
                assert(rest =~= stack0.drop_last());
            }

            // right is popped first
            if !n.is_right_empty() {
                proof {
                    Self::lemma_stack_push(tmp@, &n.spec_right());
                }
                tmp.push(n.right().unwrap())
            }
            if !n.is_left_empty() {
                proof {
                    Self::lemma_stack_push(tmp@, &n.spec_left());
                }
                tmp.push(n.left().unwrap())
            }
            proof {
                let l = n.spec_left();
                let r = n.spec_right();
                assert(keys_of(nodes@) =~= keys_of(nodes0).push(n->0));
                assert(Self::stack_pre_order(tmp@) =~= l.pre_order_seq() + r.pre_order_seq()
                    + Self::stack_pre_order(rest));
                assert(Self::stack_size(tmp@) == l.size() + r.size() + Self::stack_size(rest));
                assert(keys_of(nodes@) + Self::stack_pre_order(tmp@) =~= keys_of(nodes0)
                    + Self::stack_pre_order(stack0));
            }
        }

        Some(nodes)
    }

    /// The keys from left to right; `None` for the empty tree.
    fn in_order(&self) -> (res: Option<Vec<&T>>)
        ensures
            res is None <==> self is Empty,
            res matches Some(keys) ==> keys_of(keys@) == self@,
    {
        if self.is_empty() {
            return None;
        }
        let mut tmp: Vec<&RBNode<T>> = Vec::new();
        let mut nodes: Vec<&T> = Vec::new();

        let mut p = self;
        proof {
            assert(keys_of(nodes@) + p.in_order_seq() + Self::stack_in_order(tmp@)
                =~= self.in_order_seq());
        }
        loop
            invariant
                forall|i: int| 0 <= i < tmp.len() ==> *tmp@[i] is Node,
                keys_of(nodes@) + p.in_order_seq() + Self::stack_in_order(tmp@)
                    == self.in_order_seq(),
            ensures
                keys_of(nodes@) == self.in_order_seq(),
            decreases p.size() + Self::stack_rest_size(tmp@),
        {
            if p.is_empty() && tmp.is_empty() {
                proof {
                    assert(keys_of(nodes@) + p.in_order_seq() + Self::stack_in_order(tmp@)
                        =~= keys_of(nodes@));
                }
                break;
            }
            let ghost origin = p;
            let ghost stack0 = tmp@;

            // push left branch
            loop
                invariant
                    forall|i: int| 0 <= i < tmp.len() ==> *tmp@[i] is Node,
                    p.in_order_seq() + Self::stack_in_order(tmp@) == origin.in_order_seq()
                        + Self::stack_in_order(stack0),
                    p.size() + Self::stack_rest_size(tmp@) == origin.size() + Self::stack_rest_size(
                        stack0,
                    ),
                    tmp.len() >= stack0.len(),
                    *origin is Node || stack0.len() > 0,
                    *origin is Node ==> *p is Node || tmp.len() > 0,
                ensures
                    *p is Empty,
                    tmp.len() > 0,
                decreases p.size(),
            {
                if p.is_empty() {
                    break;
                }
                proof {
                    Self::lemma_stack_push(tmp@, p);
                    assert(p.in_order_seq() + Self::stack_in_order(tmp@)
                        =~= p.spec_left().in_order_seq() + Self::stack_in_order(tmp@.push(p)));
                }
                tmp.push(p);
                p = p.left().unwrap();
            }
            let ghost stack1 = tmp@;
            let ghost nodes1 = nodes@;

            p = tmp.pop().unwrap();
            nodes.push(p.value().unwrap());  // left, current, right
            proof {
                assert(tmp@ =~= stack1.drop_last());
                assert(keys_of(nodes@) =~= keys_of(nodes1).push(p->0));
                assert(keys_of(nodes@) + p.spec_right().in_order_seq() + Self::stack_in_order(tmp@)
                    =~= keys_of(nodes1) + (Seq::<T>::empty() + Self::stack_in_order(stack1)));
                assert(Seq::<T>::empty() + Self::stack_in_order(stack1) =~= origin.in_order_seq()
                    + Self::stack_in_order(stack0));
                assert(keys_of(nodes1) + (origin.in_order_seq() + Self::stack_in_order(stack0))
                    =~= keys_of(nodes1) + origin.in_order_seq() + Self::stack_in_order(stack0));
            }
            p = p.right().unwrap();
        }

        Some(nodes)
    }

    /// The keys with each node behind its subtrees, the left one first;
    /// `None` for the empty tree.
    fn post_order(&self) -> (res: Option<Vec<&T>>)
        ensures
            res is None <==> self is Empty,
            res matches Some(keys) ==> keys_of(keys@) == self.post_order_seq(),
    {
        if self.is_empty() {
            return None;
        }
        let mut tmp: Vec<&RBNode<T>> = Vec::new();
        let mut nodes: Vec<&T> = Vec::new();

        tmp.push(self);
        proof {
            Self::lemma_stack_push(Seq::empty(), self);
            assert(Self::stack_mirrored(Seq::empty()) =~= Seq::empty());
            assert(keys_of(nodes@) + Self::stack_mirrored(tmp@) =~= self.mirrored_pre_order_seq());
        }
        loop
            invariant
                forall|i: int| 0 <= i < tmp.len() ==> *tmp@[i] is Node,
                keys_of(nodes@) + Self::stack_mirrored(tmp@) == self.mirrored_pre_order_seq(),
            ensures
                keys_of(nodes@) == self.mirrored_pre_order_seq(),
            decreases Self::stack_size(tmp@),
        {
            let ghost stack0 = tmp@;
            let ghost nodes0 = nodes@;
            // 2. current > right > left
            let p = tmp.pop();
            if p.is_none() {
                proof {
                    assert(keys_of(nodes@) + Self::stack_mirrored(tmp@) =~= keys_of(nodes@));
                }
                break;
            }
            // 1. current > left > right

            let p = p.unwrap();
            nodes.push(p.value().unwrap());
            let ghost rest = tmp@;
            proof {
                assert(rest =~= stack0.drop_last());
            }

            if !p.is_left_empty() {
                proof {
                    Self::lemma_stack_push(tmp@, &p.spec_left());
                }
                tmp.push(p.left().unwrap());
            }
            if !p.is_right_empty() {
                proof {
                    Self::lemma_stack_push(tmp@, &p.spec_right());
                }
                tmp.push(p.right().unwrap());
            }
            proof {
                let l = p.spec_left();
                let r = p.spec_right();
                assert(keys_of(nodes@) =~= keys_of(nodes0).push(p->0));
                assert(Self::stack_mirrored(tmp@) =~= r.mirrored_pre_order_seq()
                    + l.mirrored_pre_order_seq() + Self::stack_mirrored(rest));
                assert(Self::stack_size(tmp@) == l.size() + r.size() + Self::stack_size(rest));
                assert(keys_of(nodes@) + Self::stack_mirrored(tmp@) =~= keys_of(nodes0)
                    + Self::stack_mirrored(stack0));
            }
        }

        // 3. left > right > current
        proof {
            self.lemma_mirrored_reverse();
        }
        Some(reversed(&nodes))
    }

    /// The leftmost node.
    fn min(&self) -> (res: Option<&Self>)
        ensures
            res is None <==> self is Empty,
            res matches Some(n) ==> *n is Node && n.spec_value() == Some(self@.first()),
        decreases self,
    {
        proof {
            self.lemma_view_len();
        }
        match self {
            RBNode::Empty => return None,
            RBNode::Node(_, _, l, _) => {
                if !l.is_empty() {
                    return l.min();
                }
            },
        }
        Some(self)
    }

    /// The rightmost node.
    fn max(&self) -> (res: Option<&Self>)
        ensures
            res is None <==> self is Empty,
            res matches Some(n) ==> *n is Node && n.spec_value() == Some(self@.last()),
        decreases self,
    {
        proof {
            self.lemma_view_len();
        }
        match self {
            RBNode::Empty => return None,
            RBNode::Node(_, _, _, r) => {
                if !r.is_empty() {
                    return r.max();
                }
            },
        }
        Some(self)
    }

    /// Whether the tree holds `value`.
    fn contains(&self, value: &T) -> (b: bool)
        requires
            key_type::<T>(),
            strictly_sorted(self@),
        ensures
            b == self@.contains(*value),
        decreases self,
    {
        match self {
            RBNode::Empty => {
                assert(self@.len() == 0);
                false
            },
            RBNode::Node(v, _, l, r) => {
                proof {
                    lemma_strict_parts(l@, *v, r@);
                    lemma_sorted_sides(l@, *v, r@, *value);
                    lemma_trichotomy(*value, *v);
                }
                if same(value, v) {
                    true
                } else if greater(value, v) {
                    r.contains(&value)
                } else {
                    l.contains(&value)
                }
            },
        }
    }

    /// The pre-order, each key with the color of the link to its node;
    /// `None` for the empty tree.
    fn pre_order_with_color(&self) -> (res: Option<Vec<RBNodeInfo<T>>>)
        requires
            faithful_clone::<T>(),
        ensures
            res is None <==> self is Empty,
            res matches Some(infos) ==> infos@ == self.pre_order_info_seq(),
    {
        if self.is_empty() {
            return None;
        }
        let mut tmp: Vec<&RBNode<T>> = Vec::new();
        tmp.push(self);
        let mut nodes: Vec<RBNodeInfo<T>> = Vec::new();
        proof {
            Self::lemma_stack_push_info(Seq::empty(), self);
            assert(Self::stack_pre_order_info(Seq::empty()) =~= Seq::empty());
            assert(nodes@ + Self::stack_pre_order_info(tmp@) =~= self.pre_order_info_seq());
        }
        loop
            invariant
                faithful_clone::<T>(),
                forall|i: int| 0 <= i < tmp.len() ==> *tmp@[i] is Node,
                nodes@ + Self::stack_pre_order_info(tmp@) == self.pre_order_info_seq(),
            ensures
                nodes@ == self.pre_order_info_seq(),
            decreases Self::stack_size(tmp@),
        {
            if tmp.is_empty() {
                proof {
                    assert(nodes@ + Self::stack_pre_order_info(tmp@) =~= nodes@);
                }
                break;
            }
            let ghost stack0 = tmp@;
            let ghost nodes0 = nodes@;

            // stack first in last out
            let n = tmp.pop().unwrap();
            nodes.push(RBNodeInfo { value: duplicate(n.value().unwrap()), color: n.color() });
            let ghost rest = tmp@;
            proof {
                assert(rest =~= stack0.drop_last());
            }

            // right is popped first
            if !n.is_right_empty() {
                proof {
                    Self::lemma_stack_push(tmp@, &n.spec_right());
                    Self::lemma_stack_push_info(tmp@, &n.spec_right());
                }
                tmp.push(n.right().unwrap())
            }
            if !n.is_left_empty() {
                proof {
                    Self::lemma_stack_push(tmp@, &n.spec_left());
                    Self::lemma_stack_push_info(tmp@, &n.spec_left());
                }
                tmp.push(n.left().unwrap())
            }
            proof {
                let l = n.spec_left();
                let r = n.spec_right();
                assert(Self::stack_pre_order_info(tmp@) =~= l.pre_order_info_seq()
                    + r.pre_order_info_seq() + Self::stack_pre_order_info(rest));
                assert(Self::stack_size(tmp@) == l.size() + r.size() + Self::stack_size(rest));
                assert(nodes@ + Self::stack_pre_order_info(tmp@) =~= nodes0
                    + Self::stack_pre_order_info(stack0));
            }
        }

        Some(nodes)
    }

    /// `balance` leaves a node where there was one.
    proof fn lemma_rebalanced_is_node(self)
        ensures
            self is Node ==> self.rebalanced() is Node,
            self is Empty ==> self.rebalanced() is Empty,
    {
        let a = self.leaned_left();
        let b = a.straightened();
        assert(self is Node ==> a is Node);
        assert(a is Node ==> b is Node);
        assert(b is Node ==> b.split() is Node);
    }

    /// A tree holds the key of its root and the keys of its subtrees.
    proof fn lemma_root_key(self)
        ensures
            self is Node ==> self@.contains(self->0),
            forall|x: T| #[trigger] self.spec_left()@.contains(x) ==> self@.contains(x),
            forall|x: T| #[trigger] self.spec_right()@.contains(x) ==> self@.contains(x),
    {
        match self {
            RBNode::Empty => {
                assert(self.spec_left()@.len() == 0);
            },
            RBNode::Node(k, _, l, r) => {
                assert(self@[l@.len() as int] == k);
                assert forall|x: T| #[trigger] l@.contains(x) implies self@.contains(x) by {
                    let i = choose|i: int| 0 <= i < l@.len() && l@[i] == x;
                    assert(self@[i] == x);
                }
                assert forall|x: T| #[trigger] r@.contains(x) implies self@.contains(x) by {
                    let i = choose|i: int| 0 <= i < r@.len() && r@[i] == x;
                    assert(self@[l@.len() + 1 + i] == x);
                }
            },
        }
    }

    /// On the way down to the left the keys stay in their order, and the
    /// left subtree stays a node.
    pub proof fn lemma_readied_left(self)
        ensures
            self.red_moved_left()@ =~= self@,
            self.readied_left()@ =~= self@,
            self is Node ==> self.red_moved_left() is Node && self.readied_left() is Node,
            self.spec_left() is Node ==> self.red_moved_left().spec_left() is Node
                && self.readied_left().spec_left() is Node,
            self is Node ==> self.readied_left()->0 == self->0 || self.spec_right()@.contains(
                self.readied_left()->0,
            ),
    {
        if self is Empty || self.spec_left() is Empty || self.spec_right() is Empty {
        } else {
            let r = self.spec_right();
            r.spec_left().lemma_root_key();
            r.lemma_root_key();
            let t = self.colors_flipped();
            self.lemma_steps_keep_order();
            self.spec_left().lemma_with_color(Color::Red);
            self.spec_right().lemma_with_color(Color::Red);
            if t.spec_right().spec_left().red() {
                let r2 = t.spec_right().rotated_right();
                t.spec_right().lemma_steps_keep_order();
                let t2 = RBNode::Node(t->0, t->1, Box::new(t.spec_left()), Box::new(r2));
                assert(t2@ =~= t@);
                t2.lemma_steps_keep_order();
                t2.rotated_left().lemma_steps_keep_order();
                t2.rotated_left().spec_left().lemma_with_color(Color::Red);
                t2.rotated_left().spec_left().lemma_with_color(Color::Black);
            }
        }
    }

    /// A node without a left subtree: the keys that follow the first one are
    /// those of its right subtree, and a removable node has none.
    proof fn lemma_first_node(self)
        requires
            self is Node,
            self.spec_left() is Empty,
        ensures
            self@.drop_first() =~= self.spec_right()@,
            self.removable() ==> self.spec_right() is Empty && self.shrunk_to(self.spec_right()),
    {
        self.lemma_color_family();
        RBNode::<T>::Empty.lemma_color_parts();
        self.spec_left().lemma_view_len();
        assert(self@ =~= seq![self->0] + self.spec_right()@);
    }

    /// A node that has no right subtree after it was leaned to the right had
    /// no red link to its left: the keys before the last one are those of its
    /// left subtree, and a removable node has none.
    proof fn lemma_last_node(self)
        requires
            self is Node,
            self.leaned_right().spec_right() is Empty,
        ensures
            self.leaned_right() == self,
            self@.drop_last() =~= self.spec_left()@,
            !self.right_heavy(),
            self.removable() ==> self.spec_left() is Empty && self.shrunk_to(self.spec_left()),
    {
        self.lemma_color_family();
        RBNode::<T>::Empty.lemma_color_parts();
        self.spec_right().lemma_view_len();
        assert(self@ =~= self.spec_left()@ + seq![self->0]);
    }

    /// What the removing functions leave at a removable node with a left
    /// subtree when they have gone down to the left: `t2` is the node after
    /// the way down with what has come back in the place of its left
    /// subtree, whatever its key.
    proof fn lemma_remove_left_step(t0: Self, t2: Self)
        requires
            t0.removable(),
            t0.spec_left() is Node,
            t2 is Node,
            t2.spec_color() == t0.readied_left().spec_color(),
            t2.spec_right() == t0.readied_left().spec_right(),
            t0.readied_left().spec_left().removable() ==> t0.readied_left().spec_left().shrunk_to(
                t2.spec_left(),
            ),
        ensures
            t0.readied_left().spec_left().removable(),
            t0.shrunk_to(t2.rebalanced()),
    {
        let t1 = t0.readied_left();
        let l2 = t2.spec_left();
        let t = t2.rebalanced();
        t0.lemma_color_family();
        t0.spec_right().lemma_color_family();
        t0.spec_right().spec_left().lemma_color_family();
        t1.lemma_color_family();
        t1.spec_left().lemma_color_family();
        t1.spec_right().lemma_color_family();
        l2.lemma_color_family();
        t2.lemma_color_family();
        t.lemma_color_family();
        t.spec_left().lemma_color_family();
    }

    /// On the way down to the right the keys stay in their order, and the
    /// right subtree stays a node.
    pub proof fn lemma_readied_right(self)
        ensures
            self.leaned_right()@ =~= self@,
            self.red_moved_right()@ =~= self@,
            self.readied_right()@ =~= self@,
            self is Node ==> self.leaned_right() is Node && self.red_moved_right() is Node
                && self.readied_right() is Node,
            self.spec_right() is Node ==> self.red_moved_right().spec_right() is Node,
            self.spec_left().red() ==> self.leaned_right().spec_right() is Node,
            self.leaned_right().spec_right() is Node ==> self.readied_right().spec_right() is Node,
            self.leaned_right().spec_right() is Empty ==> self.readied_right()
                == self.leaned_right(),
            self is Node ==> self.leaned_right()->0 == self->0 || self.spec_left()@.contains(
                self.leaned_right()->0,
            ),
            self is Node ==> self.readied_right()->0 == self.leaned_right()->0
                || self.leaned_right().spec_left()@.contains(self.readied_right()->0),
    {
        self.spec_left().lemma_root_key();
        self.leaned_right().spec_left().lemma_root_key();
        self.lemma_steps_keep_order();
        self.lemma_color_parts();
        self.spec_left().lemma_color_parts();
        self.lemma_moved_right();
        self.leaned_right().lemma_moved_right();
    }

    /// `move_red_right` keeps the keys in their order and the right subtree
    /// a node; the key at the root stays or gives way to one from the left
    /// subtree.
    proof fn lemma_moved_right(self)
        ensures
            self.red_moved_right()@ =~= self@,
            self is Node ==> self.red_moved_right() is Node,
            self.spec_right() is Node ==> self.red_moved_right().spec_right() is Node,
            self.spec_right() is Empty ==> self.red_moved_right() == self,
            self is Node ==> self.red_moved_right()->0 == self->0 || self.spec_left()@.contains(
                self.red_moved_right()->0,
            ),
    {
        if self is Empty || self.spec_left() is Empty || self.spec_right() is Empty {
        } else {
            self.spec_left().lemma_root_key();
            let t = self.colors_flipped();
            self.lemma_steps_keep_order();
            self.spec_left().lemma_with_color(Color::Red);
            self.spec_right().lemma_with_color(Color::Red);
            self.spec_left().lemma_with_color(Color::Black);
            self.spec_right().lemma_with_color(Color::Black);
            if t.spec_left().spec_left().red() {
                t.lemma_steps_keep_order();
                t.rotated_right().lemma_steps_keep_order();
                t.rotated_right().spec_right().lemma_with_color(Color::Red);
                t.rotated_right().spec_right().lemma_with_color(Color::Black);
            }
        }
    }

    /// What the removing functions leave at a node with a right subtree
    /// when they have gone down to the right: `t2` is the node after the way
    /// down with what has come back in the place of its right subtree,
    /// whatever its key.
    proof fn lemma_remove_right_step(t0: Self, t2: Self)
        requires
            t0.removable() || t0.right_heavy(),
            t0.leaned_right().spec_right() is Node,
            t2 is Node,
            t2.spec_color() == t0.readied_right().spec_color(),
            t2.spec_left() == t0.readied_right().spec_left(),
            ({
                let r1 = t0.readied_right().spec_right();
                r1.removable() || r1.right_heavy() ==> r1.shrunk_to(t2.spec_right())
            }),
        ensures
            ({
                let r1 = t0.readied_right().spec_right();
                &&& r1.removable() || r1.right_heavy()
                &&& r1.right_heavy() ==> r1->0 == t0.leaned_right()->0
                    && t0.leaned_right().spec_left() is Node && t0.readied_right()->0
                    == t0.leaned_right().spec_left()->0
            }),
            t0.shrunk_to(t2.rebalanced()),
    {
        let ta = t0.leaned_right();
        let t1 = t0.readied_right();
        let r1 = t1.spec_right();
        let r2 = t2.spec_right();
        let t = t2.rebalanced();
        t0.lemma_color_family();
        ta.lemma_color_family();
        t1.lemma_color_family();
        r1.lemma_color_family();
        r2.lemma_color_family();
        if t0.spec_left().red() {
            assert(t1 == ta);
            assert(r1.removable());
            t2.lemma_color_family();
            t.lemma_color_family();
        } else if t0.right_heavy() {
            assert(t1 == t0);
            assert(r1.removable());
            t2.lemma_color_family();
            t.lemma_color_family();
        } else if ta.spec_right().red() || ta.spec_right().spec_left().red() {
            assert(t1 == t0);
            t2.lemma_color_family();
            t.lemma_color_family();
        } else {
            let tf = ta.colors_flipped();
            tf.lemma_color_family();
            if tf.spec_left().spec_left().red() {
                let tr = tf.rotated_right();
                tr.lemma_color_family();
                assert(t1 == tr.colors_flipped());
                assert(r1.right_heavy());
                t2.lemma_color_family();
                t.lemma_color_family();
            } else {
                assert(t1 == tf);
                assert(r1.removable());
                t2.lemma_color_family();
                t.lemma_color_family();
            }
        }
    }

    /// On the way down to the left the key that is looked for stays before
    /// the root.
    proof fn lemma_left_key(t0: Self, v: T)
        requires
            total_order::<T>(),
            t0 is Node,
            strictly_sorted(t0@),
            lt(v, t0->0),
        ensures
            lt(v, t0.readied_left()->0),
            !t0.right_heavy() || !t0.ready_for(v),
    {
        t0.lemma_readied_left();
        lemma_strict_parts(t0.spec_left()@, t0->0, t0.spec_right()@);
        let k1 = t0.readied_left()->0;
        if k1 != t0->0 {
            let r = t0.spec_right()@;
            let i = choose|i: int| 0 <= i < r.len() && r[i] == k1;
            assert(lt(t0->0, r[i]));
            lemma_lt_transitive(v, t0->0, k1);
        }
    }

    /// On the way down to the right the key that is looked for does not come
    /// before the root; where it is the root's, the right child is not a
    /// right-heavy node.
    proof fn lemma_right_key(t0: Self, v: T)
        requires
            total_order::<T>(),
            t0 is Node,
            strictly_sorted(t0@),
            !lt(v, t0->0),
        ensures
            !lt(v, t0.leaned_right()->0),
            !lt(v, t0.readied_right()->0),
            t0.leaned_right().spec_left() is Node && t0.readied_right()->0
                == t0.leaned_right().spec_left()->0 ==> v != t0.readied_right()->0,
            t0.spec_left() is Node && t0.readied_right()->0 == t0.spec_left()->0 ==> v
                != t0.readied_right()->0,
    {
        lemma_order_laws::<T>();
        t0.lemma_readied_right();
        lemma_strict_parts(t0.spec_left()@, t0->0, t0.spec_right()@);
        let ta = t0.leaned_right();
        let ka = ta->0;
        if ka != t0->0 {
            let l = t0.spec_left()@;
            let i = choose|i: int| 0 <= i < l.len() && l[i] == ka;
            assert(lt(l[i], t0->0));
        }
        assert(!lt(v, ka));
        lemma_strict_parts(ta.spec_left()@, ka, ta.spec_right()@);
        let k1 = t0.readied_right()->0;
        if k1 != ka {
            let l = ta.spec_left()@;
            let i = choose|i: int| 0 <= i < l.len() && l[i] == k1;
            assert(lt(l[i], ka));
        }
        if ta.spec_left() is Node {
            ta.spec_left().lemma_root_key();
            let l = ta.spec_left()@;
            let kl = ta.spec_left()->0;
            let i = choose|i: int| 0 <= i < l.len() && l[i] == kl;
            assert(lt(l[i], ka));
        }
        if t0.spec_left() is Node {
            t0.spec_left().lemma_root_key();
            let l = t0.spec_left()@;
            let kl = t0.spec_left()->0;
            let i = choose|i: int| 0 <= i < l.len() && l[i] == kl;
            assert(lt(l[i], t0->0));
        }
    }

    /// Where no red link leads to the right, none leads to the right beside
    /// a left link that is not red.
    proof fn lemma_two_three_leans(self)
        ensures
            self.two_three() ==> self.left_leaning(),
        decreases self,
    {
        match self {
            RBNode::Empty => {},
            RBNode::Node(_, _, l, r) => {
                l.lemma_two_three_leans();
                r.lemma_two_three_leans();
            },
        }
    }

    /// The conditions on the colors unfold at the root.
    proof fn lemma_color_parts(self)
        ensures
            self.color_parts(),
    {
    }

    /// The conditions on the colors unfold at the root, at its children and
    /// at their children.
    proof fn lemma_color_family(self)
        ensures
            self.color_family(),
    {
        let l = self.spec_left();
        let r = self.spec_right();
        self.lemma_color_parts();
        self.with_color(Color::Red).lemma_color_parts();
        self.with_color(Color::Black).lemma_color_parts();
        l.lemma_color_parts();
        r.lemma_color_parts();
        l.with_color(Color::Red).lemma_color_parts();
        l.with_color(Color::Black).lemma_color_parts();
        r.with_color(Color::Red).lemma_color_parts();
        r.with_color(Color::Black).lemma_color_parts();
        l.spec_left().lemma_color_parts();
        l.spec_right().lemma_color_parts();
        r.spec_left().lemma_color_parts();
        r.spec_right().lemma_color_parts();
    }

    /// To change the color of the link to the root changes nothing below it.
    proof fn lemma_with_color(self, c: Color)
        ensures
            self.with_color(c)@ == self@,
            self.with_color(c).spec_left() == self.spec_left(),
            self.with_color(c).spec_right() == self.spec_right(),
            self is Node ==> self.with_color(c).spec_color() == c,
            self is Node ==> self.with_color(c) is Node,
            self is Empty ==> self.with_color(c) is Empty,
            self.color_flipped()@ == self@,
            self.color_flipped().spec_left() == self.spec_left(),
            self.color_flipped().spec_right() == self.spec_right(),
            self is Node ==> self.color_flipped().red() == !self.red(),
            self is Node ==> self.color_flipped() is Node,
            self is Empty ==> self.color_flipped() is Empty,
    {
    }

    /// The steps of `balance`, and `balance` itself, keep the keys in their
    /// order from left to right.
    pub proof fn lemma_steps_keep_order(self)
        ensures
            self.colors_flipped()@ =~= self@,
            self.rotated_left()@ =~= self@,
            self.rotated_right()@ =~= self@,
            self.rebalanced()@ =~= self@,
    {
        self.lemma_turns_keep_order();
        self.leaned_left().lemma_turns_keep_order();
        self.leaned_left().straightened().lemma_turns_keep_order();
    }

    /// A turn to either side and a flip of the colors keep the keys in their
    /// order from left to right.
    proof fn lemma_turns_keep_order(self)
        ensures
            self.colors_flipped()@ =~= self@,
            self.rotated_left()@ =~= self@,
            self.rotated_right()@ =~= self@,
    {
        match self {
            RBNode::Empty => {
                assert(self.rotated_left() == self);
                assert(self.rotated_right() == self);
            },
            RBNode::Node(v, c, l, r) => {
                l.lemma_with_color(Color::Red);
                l.lemma_with_color(Color::Black);
                r.lemma_with_color(Color::Red);
                r.lemma_with_color(Color::Black);
                assert(self.colors_flipped()@ =~= l@ + seq![v] + r@);
                match *l {
                    RBNode::Empty => {
                        assert(self.rotated_right() == self);
                    },
                    RBNode::Node(k1, _, x, y) => {
                        assert(RBNode::Node(v, Color::Red, y, r)@ =~= y@ + seq![v] + r@);
                        assert(self.rotated_right()@ =~= x@ + seq![k1] + (y@ + seq![v] + r@));
                        assert(l@ =~= x@ + seq![k1] + y@);
                    },
                }
                match *r {
                    RBNode::Empty => {
                        assert(self.rotated_left() == self);
                    },
                    RBNode::Node(k2, _, y, z) => {
                        assert(RBNode::Node(v, Color::Red, l, y)@ =~= l@ + seq![v] + y@);
                        assert(self.rotated_left()@ =~= (l@ + seq![v] + y@) + seq![k2] + z@);
                        assert(r@ =~= y@ + seq![k2] + z@);
                    },
                }
            },
        }
    }

    /// What `insert` leaves at a node whose colors were in order and from
    /// which no red link led to the right, after it has put the key into one
    /// of the two subtrees and run `balance`.
    proof fn lemma_insert_step(t0: Self, t1: Self)
        requires
            t0 is Node,
            t1 is Node,
            t0.red_black(),
            t0.two_three(),
            t1->0 == t0->0,
            t1->1 == t0->1,
            ({
                &&& t1.spec_right() == t0.spec_right()
                &&& t0.spec_left().grown_to(t1.spec_left())
            }) || ({
                &&& t1.spec_left() == t0.spec_left()
                &&& t0.spec_right().grown_to(t1.spec_right())
            }),
        ensures
            t0.grown_to(t1.rebalanced()),
    {
        let a = t1.leaned_left();
        let b = a.straightened();
        let t = b.split();
        t0.lemma_color_family();
        t1.lemma_color_family();
        a.lemma_color_family();
        a.spec_left().lemma_color_family();
        b.lemma_color_family();
        b.spec_right().lemma_color_family();
        t.lemma_color_family();
    }

    /// In a tree whose black heights agree and in which no red link follows
    /// a red link, the longest way down passes at most twice as many links as
    /// black ones, and one more where the link to the root is red; and the
    /// tree holds at least `2^h - 1` keys for its black height `h`: the depth
    /// grows with the logarithm of the size.
    pub proof fn lemma_depth_is_logarithmic(self)
        requires
            self.black_balanced(),
            self.no_red_red(),
        ensures
            self.spec_depth() <= 2 * self.black_height() + (if self.red() {
                1nat
            } else {
                0nat
            }),
            self@.len() + 1 >= vstd::arithmetic::power2::pow2(self.black_height()),
        decreases self,
    {
        match self {
            RBNode::Empty => {
                vstd::arithmetic::power2::lemma2_to64();
            },
            RBNode::Node(_, c, l, r) => {
                l.lemma_depth_is_logarithmic();
                r.lemma_depth_is_logarithmic();
                l.lemma_color_parts();
                r.lemma_color_parts();
                if c == Color::Black {
                    vstd::arithmetic::power2::lemma_pow2_unfold(self.black_height());
                }
            },
        }
    }

    /// Each of the three orders holds the keys of the tree, each key as often
    /// as the others hold it.
    pub proof fn lemma_orders_hold_same_keys(self)
        ensures
            self.pre_order_seq().to_multiset() =~= self@.to_multiset(),
            self.post_order_seq().to_multiset() =~= self@.to_multiset(),
        decreases self,
    {
        match self {
            RBNode::Empty => {},
            RBNode::Node(v, _, l, r) => {
                l.lemma_orders_hold_same_keys();
                r.lemma_orders_hold_same_keys();
                let k = seq![v];
                vstd::seq_lib::lemma_multiset_commutative(l@, k);
                vstd::seq_lib::lemma_multiset_commutative(l@ + k, r@);
                vstd::seq_lib::lemma_multiset_commutative(k, l.pre_order_seq());
                vstd::seq_lib::lemma_multiset_commutative(k + l.pre_order_seq(), r.pre_order_seq());
                vstd::seq_lib::lemma_multiset_commutative(l.post_order_seq(), r.post_order_seq());
                vstd::seq_lib::lemma_multiset_commutative(
                    l.post_order_seq() + r.post_order_seq(),
                    k,
                );
            },
        }
    }

    /// The keys of a strictly sorted tree in pre-order, put one after another
    /// into an empty tree, make a tree with the same keys from left to
    /// right: the shape may differ, the order of the keys does not.
    pub proof fn lemma_rebuilt_from_pre_order(self)
        requires
            total_order::<T>(),
            strictly_sorted(self@),
        ensures
            insert_all_new(self.pre_order_seq()) == self@,
    {
        self.lemma_orders_hold_same_keys();
        lemma_strict_is_sorted(self@);
        lemma_strict_no_duplicates(self@, self.pre_order_seq());
        lemma_insert_all_strict(self.pre_order_seq());
        lemma_insert_all_restores(self.pre_order_seq(), self@);
    }

    /// What the functions over a stack make of a stack with one more tree on
    /// it.
    proof fn lemma_stack_push(stack: Seq<&Self>, t: &Self)
        ensures
            Self::stack_size(stack.push(t)) == t.size() + Self::stack_size(stack),
            Self::stack_pre_order(stack.push(t)) == t.pre_order_seq() + Self::stack_pre_order(
                stack,
            ),
            Self::stack_mirrored(stack.push(t)) == t.mirrored_pre_order_seq()
                + Self::stack_mirrored(stack),
            Self::stack_in_order(stack.push(t)) == seq![t->0] + t.spec_right().in_order_seq()
                + Self::stack_in_order(stack),
            Self::stack_rest_size(stack.push(t)) == 1 + t.spec_right().size()
                + Self::stack_rest_size(stack),
    {
        assert(stack.push(t).drop_last() =~= stack);
        assert(stack.push(t).last() == t);
    }

    /// The post-order is the mirrored pre-order read backwards.
    pub proof fn lemma_mirrored_reverse(self)
        ensures
            self.mirrored_pre_order_seq().reverse() =~= self.post_order_seq(),
        decreases self,
    {
        match self {
            RBNode::Empty => {},
            RBNode::Node(v, _, l, r) => {
                l.lemma_mirrored_reverse();
                r.lemma_mirrored_reverse();
                lemma_reverse_join(seq![v] + r.mirrored_pre_order_seq(), l.mirrored_pre_order_seq());
                lemma_reverse_join(seq![v], r.mirrored_pre_order_seq());
                assert(seq![v].reverse() =~= seq![v]);
            },
        }
    }

    /// The tree holds a key exactly where it is not empty; its first key is
    /// the leftmost and its last the rightmost.
    pub proof fn lemma_view_len(self)
        ensures
            self is Empty <==> self@.len() == 0,
            self is Node ==> self@.first() == (if self.spec_left() is Node {
                self.spec_left()@.first()
            } else {
                self->0
            }),
            self is Node ==> self@.last() == (if self.spec_right() is Node {
                self.spec_right()@.last()
            } else {
                self->0
            }),
        decreases self,
    {
        match self {
            RBNode::Empty => {},
            RBNode::Node(v, _, l, r) => {
                l.lemma_view_len();
                r.lemma_view_len();
            },
        }
    }

    /// What the colored pre-order over a stack makes of a stack with one more
    /// tree on it.
    proof fn lemma_stack_push_info(stack: Seq<&Self>, t: &Self)
        ensures
            Self::stack_pre_order_info(stack.push(t)) == t.pre_order_info_seq()
                + Self::stack_pre_order_info(stack),
    {
        assert(stack.push(t).drop_last() =~= stack);
        assert(stack.push(t).last() == t);
    }
}

impl<T: PartialOrd + Clone + Debug + Display> Clone for RBNode<T> {
    /// A tree of the same shape and colors; where `clone` on `T` is
    /// faithful, the same tree.
    fn clone(&self) -> (res: Self)
        ensures
            faithful_clone::<T>() ==> res == *self,
        decreases self,
    {
        match self {
            RBNode::Empty => RBNode::Empty,
            RBNode::Node(v, c, l, r) => {
                let v2 = v.clone();
                proof {
                    reveal(faithful_clone);
                    assert(cloned::<T>(*v, v2));
                }
                RBNode::Node(v2, *c, Box::new((&**l).clone()), Box::new((&**r).clone()))
            },
        }
    }
}

// ---------------------------------------------------------------------------------
//                                  Node Info
// ---------------------------------------------------------------------------------
/// A key with the color of the link that leads to its node.
#[derive(Debug, PartialEq)]
pub struct RBNodeInfo<T: Debug> {
    pub value: T,
    pub color: Color,
}

/// A left-leaning red-black tree of keys without repetition. It keeps the
/// link to its root black.
pub struct RBTree<T: PartialOrd + Clone + Debug + Display> {
    root: RBNode<T>,
}

impl<T: PartialOrd + Clone + Debug + Display> View for RBTree<T> {
    type V = Seq<T>;

    /// The keys from left to right.
    open spec fn view(&self) -> Seq<T> {
        self.node()@
    }
}

impl<T: PartialOrd + Clone + Debug + Display> RBTree<T> {
    /// The nodes of the tree.
    pub closed spec fn node(&self) -> RBNode<T> {
        self.root
    }

    /// The validity of a tree: the keys ascend strictly from left to right,
    /// and the link to the root is black.
    pub open spec fn wf(&self) -> bool {
        strictly_sorted(self@) && !self.node().red()
    }

    /// The conditions on the colors: every way down passes as many black
    /// links as every other, no two red links follow one another, and no red
    /// link leads to the right.
    pub open spec fn is_red_black(&self) -> bool {
        &&& self.node().black_balanced()
        &&& self.node().no_red_red()
        &&& self.node().two_three()
    }

    /// The empty tree.
    pub fn new() -> (t: Self)
        ensures
            t.wf(),
            t@ == Seq::<T>::empty(),
            t.node() is Empty,
            t.is_red_black(),
    {
        RBTree { root: RBNode::new() }
    }

    /// Puts `value` into the tree unless the tree holds it, and makes the
    /// link to the root black. The colors stay in order.
    pub fn insert(&mut self, value: T) -> (ret: &mut Self)
        requires
            key_type::<T>(),
            old(self).wf(),
        ensures
            *final(self) == *final(ret),
            ret.wf(),
            ret.node() == (if old(self)@.contains(value) {
                old(self).node()
            } else {
                old(self).node().inserted(value).with_color(Color::Black)
            }),
            ret@ == insert_new(old(self)@, value),
            forall|x: T| #[trigger] ret@.contains(x) <==> x == value || old(self)@.contains(x),
            old(self).is_red_black() ==> ret.is_red_black(),
    {
        proof {
            lemma_contains_after(self.root@, value);
            self.root.lemma_two_three_leans();
        }
        if self.root.contains(&value) {
            return self;
        }
        let ghost t0 = self.root;
        self.root.insert(value);
        let ghost t1 = self.root;
        self.root.set_color(Color::Black);
        proof {
            t1.lemma_with_color(Color::Black);
            t1.lemma_color_parts();
            t1.with_color(Color::Black).lemma_color_parts();
            t0.lemma_color_parts();
        }
        self
    }

    /// Takes the first key out of the tree. The colors stay in order.
    pub fn remove_min(&mut self) -> (ret: &mut Self)
        requires
            key_type::<T>(),
            old(self).wf(),
        ensures
            *final(self) == *final(ret),
            ret.node() == old(self).node().prepared().min_removed().with_color(Color::Black),
            ret.wf(),
            old(self)@.len() > 0 ==> ret@ == old(self)@.drop_first(),
            old(self)@.len() == 0 ==> ret@.len() == 0,
            old(self).is_red_black() ==> ret.is_red_black(),
    {
        let ghost t0 = self.root;
        proof {
            t0.lemma_view_len();
            t0.lemma_two_three_leans();
        }
        if self.root.is_empty() {
            return self;
        }
        // The removing functions take a tree with a red link to its root or
        // below it. Where both links below the root are black, the link to
        // the root is made red for the time being.

        if !self.root.is_left_red() && !self.root.is_right_red() {
            self.root.set_color(Color::Red);
        }
        let ghost t1 = self.root;
        proof {
            t0.lemma_color_family();
            t1.lemma_color_family();
        }

        self.root.remove_min();
        let ghost t2 = self.root;
        // the link to the root is black again
        self.root.set_color(Color::Black);
        proof {
            t2.lemma_color_family();
            assert(t2@ =~= t0@.subrange(1, t0@.len() as int));
            lemma_suffix_strict(t2@, t0@);
        }
        self
    }

    /// Takes the last key out of the tree. The colors stay in order.
    pub fn remove_max(&mut self) -> (ret: &mut Self)
        requires
            key_type::<T>(),
            old(self).wf(),
        ensures
            *final(self) == *final(ret),
            ret.node() == old(self).node().prepared().max_removed().with_color(Color::Black),
            ret.wf(),
            old(self)@.len() > 0 ==> ret@ == old(self)@.drop_last(),
            old(self)@.len() == 0 ==> ret@.len() == 0,
            old(self).is_red_black() ==> ret.is_red_black(),
    {
        let ghost t0 = self.root;
        if !self.root.is_left_red() && !self.root.is_right_red() {
            self.root.set_color(Color::Red);
        }
        let ghost t1 = self.root;
        proof {
            t0.lemma_view_len();
            t0.lemma_two_three_leans();
            t0.lemma_color_family();
            t1.lemma_color_family();
        }

        self.root.remove_max();
        let ghost t2 = self.root;
        self.root.set_color(Color::Black);
        proof {
            t2.lemma_color_family();
            if t0 is Node {
                assert(t2@ =~= t0@.subrange(0, t0@.len() - 1));
            } else {
                assert(t2@ =~= t0@.subrange(0, 0));
            }
            lemma_prefix_strict(t2@, t0@);
        }

        self
    }

    /// Takes `value` out of the tree, and nothing else. The colors stay in
    /// order.
    pub fn remove(&mut self, value: &T) -> (ret: &mut Self)
        requires
            key_type::<T>(),
            old(self).wf(),
        ensures
            *final(self) == *final(ret),
            ret.node() == (if old(self)@.contains(*value) {
                old(self).node().prepared().removed(*value).with_color(Color::Black)
            } else {
                old(self).node()
            }),
            ret.wf(),
            ret@ == old(self)@.remove_value(*value),
            forall|x: T| #[trigger] ret@.contains(x) <==> old(self)@.contains(x) && x != *value,
            old(self).is_red_black() ==> ret.is_red_black(),
    {
        let ghost t0 = self.root;
        proof {
            lemma_contains_after(t0@, *value);
            t0.lemma_two_three_leans();
        }
        if !self.root.contains(value) {
            proof {
                lemma_remove_value_absent(t0@, *value);
            }
            return self;
        }
        if !self.root.is_left_red() && !self.root.is_right_red() {
            self.root.set_color(Color::Red);
        }
        let ghost t1 = self.root;
        proof {
            t0.lemma_color_family();
            t1.lemma_color_family();
        }

        self.root.remove(value);
        let ghost t2 = self.root;
        self.root.set_color(Color::Black);
        proof {
            t2.lemma_color_family();
        }

        self
    }

    /// The pre-order, each key with the color of the link to its node; `None`
    /// for the empty tree.
    pub fn pre_order_with_color(&self) -> (res: Option<Vec<RBNodeInfo<T>>>)
        requires
            faithful_clone::<T>(),
        ensures
            res is None <==> self@.len() == 0,
            res matches Some(infos) ==> infos@ == self.node().pre_order_info_seq(),
    {
        proof {
            self.root.lemma_view_len();
        }
        self.root.pre_order_with_color()
    }

    /// The number of nodes on the longest way from the root down. It must fit
    /// in `usize`.
    pub fn height(&self) -> (h: usize)
        requires
            self.node().spec_depth() <= usize::MAX,
        ensures
            h == self.node().spec_depth(),
    {
        self.root.height()
    }

    /// The last key, the one that no key comes behind.
    pub fn max(&self) -> (res: Option<T>)
        requires
            faithful_clone::<T>(),
        ensures
            res == (if self@.len() == 0 {
                None
            } else {
                Some(self@.last())
            }),
    {
        proof {
            self.root.lemma_view_len();
        }
        if let Some(max) = self.root.max() {
            max.get_value()
        } else {
            None
        }
    }

    /// The first key, the one that no key comes before.
    pub fn min(&self) -> (res: Option<T>)
        requires
            faithful_clone::<T>(),
        ensures
            res == (if self@.len() == 0 {
                None
            } else {
                Some(self@.first())
            }),
    {
        proof {
            self.root.lemma_view_len();
        }
        if let Some(min) = self.root.min() {
            min.get_value()
        } else {
            None
        }
    }

    /// Whether the tree holds `value`.
    pub fn contains(&self, value: &T) -> (b: bool)
        requires
            key_type::<T>(),
            self.wf(),
        ensures
            b == self@.contains(*value),
    {
        self.root.contains(value)
    }

    /// The keys with each node before its subtrees, the left one first;
    /// `None` for the empty tree.
    pub fn pre_order(&self) -> (res: Option<Vec<&T>>)
        ensures
            res is None <==> self@.len() == 0,
            res matches Some(keys) ==> keys_of(keys@) == self.node().pre_order_seq(),
    {
        proof {
            self.root.lemma_view_len();
        }
        self.root.pre_order()
    }

    /// The keys from left to right; `None` for the empty tree.
    pub fn in_order(&self) -> (res: Option<Vec<&T>>)
        ensures
            res is None <==> self@.len() == 0,
            res matches Some(keys) ==> keys_of(keys@) == self@,
    {
        proof {
            self.root.lemma_view_len();
        }
        self.root.in_order()
    }

    /// The keys with each node behind its subtrees, the left one first;
    /// `None` for the empty tree.
    pub fn post_order(&self) -> (res: Option<Vec<&T>>)
        ensures
            res is None <==> self@.len() == 0,
            res matches Some(keys) ==> keys_of(keys@) == self.node().post_order_seq(),
    {
        proof {
            self.root.lemma_view_len();
        }
        self.root.post_order()
    }

    /// The keys of a valid tree in pre-order, put one after another into an
    /// empty tree, make a tree with the same keys from left to right.
    pub proof fn lemma_rebuilt_from_pre_order(&self)
        requires
            total_order::<T>(),
            self.wf(),
        ensures
            insert_all_new(self.node().pre_order_seq()) == self@,
    {
        self.node().lemma_rebuilt_from_pre_order();
    }
}

} // verus!
