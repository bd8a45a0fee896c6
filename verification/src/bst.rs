//! A binary search tree of integers and its four traversals: pre-order,
//! in-order, post-order, and level order (top to bottom, left to right).
//! Values equal to a node go to its right subtree, so duplicates are kept.

use vstd::multiset::Multiset;
use vstd::prelude::*;

verus! {

/// One of the four traversal orders.
#[derive(PartialEq, Eq, Structural)]
pub enum Order {
    Pre,
    In,
    Post,
    Level,
}

/// A tree: empty, or a root node.
pub struct Tree {
    pub node: Option<Box<Node>>,
}

/// One node: a value and two subtrees.
pub struct Node {
    pub value: i32,
    pub left: Tree,
    pub right: Tree,
}

/// Every value in the tree, with multiplicity.
pub open spec fn tree_ms(t: Tree) -> Multiset<i32>
    decreases t,
{
    match t.node {
        Option::None => Multiset::empty(),
        Option::Some(n) => tree_ms(n.left).add(tree_ms(n.right)).insert(n.value),
    }
}

/// The pre-order traversal: node, left subtree, right subtree.
pub open spec fn pre_seq(t: Tree) -> Seq<i32>
    decreases t,
{
    match t.node {
        Option::None => Seq::empty(),
        Option::Some(n) => seq![n.value] + pre_seq(n.left) + pre_seq(n.right),
    }
}

/// The in-order traversal: left subtree, node, right subtree.
pub open spec fn in_seq(t: Tree) -> Seq<i32>
    decreases t,
{
    match t.node {
        Option::None => Seq::empty(),
        Option::Some(n) => in_seq(n.left) + seq![n.value] + in_seq(n.right),
    }
}

/// The post-order traversal: left subtree, right subtree, node.
pub open spec fn post_seq(t: Tree) -> Seq<i32>
    decreases t,
{
    match t.node {
        Option::None => Seq::empty(),
        Option::Some(n) => post_seq(n.left) + post_seq(n.right) + seq![n.value],
    }
}

/// The number of levels in the tree.
pub open spec fn spec_height(t: Tree) -> nat
    decreases t,
{
    match t.node {
        Option::None => 0,
        Option::Some(n) => 1 + if spec_height(n.left) >= spec_height(n.right) {
            spec_height(n.left)
        } else {
            spec_height(n.right)
        },
    }
}

/// The values at depth `d`, left to right (the root is at depth 0).
pub open spec fn level_seq(t: Tree, d: nat) -> Seq<i32>
    decreases d, t,
{
    match t.node {
        Option::None => Seq::empty(),
        Option::Some(n) => if d == 0 {
            seq![n.value]
        } else {
            level_seq(n.left, (d - 1) as nat) + level_seq(n.right, (d - 1) as nat)
        },
    }
}

/// The levels up to depth `d`, concatenated top to bottom.
pub open spec fn levels_below(t: Tree, d: nat) -> Seq<i32>
    decreases d,
{
    if d == 0 {
        Seq::empty()
    } else {
        levels_below(t, (d - 1) as nat) + level_seq(t, (d - 1) as nat)
    }
}

/// The level-order traversal: every level, top to bottom, each left to
/// right.
pub open spec fn spec_levels(t: Tree) -> Seq<i32> {
    levels_below(t, spec_height(t))
}

impl Tree {
    /// The empty tree.
    pub fn new() -> (r: Tree)
        ensures
            r.node is None,
            tree_ms(r) =~= Multiset::empty(),
    {
        Tree { node: None }
    }

    /// Inserts `value` at its search position: strictly smaller values go
    /// left, others right. The tree gains exactly one copy of `value`.
    pub fn insert(&mut self, value: i32)
        ensures
            tree_ms(*final(self)) =~= tree_ms(*old(self)).insert(value),
            spec_height(*final(self)) <= spec_height(*old(self)) + 1,
        decreases *old(self),
    {
        match self.node.take() {
            None => {
                self.node = Some(
                    Box::new(Node { value, left: Tree { node: None }, right: Tree { node: None } }),
                );
            },
            Some(mut boxed) => {
                (&mut *boxed).insert(value);
                self.node = Some(boxed);
            },
        }
    }

    /// The traversal of the tree in the given order.
    pub fn order(&self, order: &Order) -> (r: Vec<i32>)
        requires
            spec_height(*self) <= usize::MAX,
        ensures
            *order == Order::Pre ==> r@ == pre_seq(*self),
            *order == Order::In ==> r@ == in_seq(*self),
            *order == Order::Post ==> r@ == post_seq(*self),
            *order == Order::Level ==> r@ == spec_levels(*self),
        decreases *self, 1int,
    {
        match *order {
            Order::Pre | Order::In | Order::Post => self.pip_order(order),
            Order::Level => self.level_order(),
        }
    }

    /// The recursive traversal shared by the pre-, in- and post-orders: the
    /// node's value is emitted before, between, or after its subtrees.
    pub fn pip_order(&self, order: &Order) -> (r: Vec<i32>)
        requires
            *order != Order::Level,
            spec_height(*self) <= usize::MAX,
        ensures
            *order == Order::Pre ==> r@ == pre_seq(*self),
            *order == Order::In ==> r@ == in_seq(*self),
            *order == Order::Post ==> r@ == post_seq(*self),
        decreases *self, 0int,
    {
        let mut result: Vec<i32> = Vec::new();
        if let Some(node) = &self.node {
            proof {
                assert(spec_height(node.left) <= spec_height(*self));
                assert(spec_height(node.right) <= spec_height(*self));
            }
            if *order == Order::Pre {
                result.push(node.value);
            }
            let mut sub = node.left.order(order);
            result.append(&mut sub);
            if *order == Order::In {
                result.push(node.value);
            }
            let mut sub = node.right.order(order);
            result.append(&mut sub);
            if *order == Order::Post {
                result.push(node.value);
            }
            proof {
                if *order == Order::Pre {
                    assert(result@ =~= pre_seq(*self));
                }
                if *order == Order::In {
                    assert(result@ =~= in_seq(*self));
                }
                if *order == Order::Post {
                    assert(result@ =~= post_seq(*self));
                }
            }
        }
        result
    }

    /// The number of levels in the tree.
    pub fn height(&self) -> (r: usize)
        requires
            spec_height(*self) <= usize::MAX,
        ensures
            r == spec_height(*self),
        decreases *self,
    {
        match &self.node {
            None => 0,
            Some(n) => {
                let lh = n.left.height();
                let rh = n.right.height();
                1 + if lh >= rh {
                    lh
                } else {
                    rh
                }
            },
        }
    }

    /// Appends the values at depth `d` to `out`, left to right.
    fn collect_level(&self, d: usize, out: &mut Vec<i32>)
        ensures
            final(out)@ == old(out)@ + level_seq(*self, d as nat),
        decreases d, *self,
    {
        if let Some(node) = &self.node {
            if d == 0 {
                out.push(node.value);
            } else {
                node.left.collect_level(d - 1, out);
                node.right.collect_level(d - 1, out);
                proof {
                    assert(old(out)@ + level_seq(*self, d as nat) =~= old(out)@ + (level_seq(
                        node.left,
                        (d - 1) as nat,
                    ) + level_seq(node.right, (d - 1) as nat)));
                }
            }
        } else {
            proof {
                assert(out@ =~= old(out)@ + level_seq(*self, d as nat));
            }
        }
    }

    /// The level-order traversal: visits each level in full before the
    /// next, left to right within a level.
    pub fn level_order(&self) -> (r: Vec<i32>)
        requires
            spec_height(*self) <= usize::MAX,
        ensures
            r@ == spec_levels(*self),
    {
        let h = self.height();
        let mut out: Vec<i32> = Vec::new();
        let mut d: usize = 0;
        while d < h
            invariant
                h == spec_height(*self),
                d <= h,
                out@ == levels_below(*self, d as nat),
            decreases h - d,
        {
            self.collect_level(d, &mut out);
            d += 1;
        }
        out
    }
}

impl Node {
    /// A leaf node holding `value`.
    pub fn new(value: i32) -> (r: Node)
        ensures
            r.value == value,
            r.left.node is None,
            r.right.node is None,
    {
        Node { value, left: Tree::new(), right: Tree::new() }
    }

    /// Inserts `value` below this node: strictly smaller values go left,
    /// others right.
    pub fn insert(&mut self, value: i32)
        ensures
            final(self).value == old(self).value,
            tree_ms(final(self).left).add(tree_ms(final(self).right)).insert(final(self).value)
                =~= tree_ms(old(self).left).add(tree_ms(old(self).right)).insert(
                old(self).value,
            ).insert(value),
            spec_height(final(self).left) <= spec_height(old(self).left) + 1,
            spec_height(final(self).right) <= spec_height(old(self).right) + 1,
        decreases *old(self),
    {
        if value < self.value {
            self.left.insert(value);
        } else {
            self.right.insert(value);
        }
    }
}

} // verus!
