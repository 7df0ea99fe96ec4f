use vstd::prelude::*;
use vstd::string::*;

use crate::parse::{lemma_fields_nonempty, parse_list, parse_values, ParseError};

verus! {

/// A node of an unbalanced binary search tree of `i32` keys.
///
/// `childs` counts the insertions that have passed through this node on
/// their way down (saturating at `u64::MAX`); a renderer uses it to spread
/// the two subtrees apart.
pub struct Node {
    pub value: i32,
    pub childs: u64,
    pub left: Option<Box<Node>>,
    pub right: Option<Box<Node>>,
}

/// One more on a counter that stops at its largest value.
pub open spec fn bumped(c: u64) -> u64 {
    if c < u64::MAX {
        (c + 1) as u64
    } else {
        c
    }
}

/// The tree that inserting `vals[1..]` one by one into a leaf holding
/// `vals[0]` builds.
pub open spec fn built(vals: Seq<i32>) -> Node
    decreases vals.len(),
{
    if vals.len() <= 1 {
        Node::leaf(vals[0])
    } else {
        built(vals.drop_last()).inserted(vals.last())
    }
}

impl Node {
    /// A childless node holding `value`.
    pub open spec fn leaf(value: i32) -> Node {
        Node { value, childs: 0, left: None, right: None }
    }

    pub open spec fn opt_values(o: Option<Box<Node>>) -> Set<i32>
        decreases o,
    {
        match o {
            None => Set::empty(),
            Some(n) => n.values(),
        }
    }

    /// The keys held by this subtree.
    pub open spec fn values(self) -> Set<i32>
        decreases self,
    {
        Node::opt_values(self.left).union(Node::opt_values(self.right)).insert(self.value)
    }

    pub open spec fn opt_is_bst(o: Option<Box<Node>>) -> bool
        decreases o,
    {
        match o {
            None => true,
            Some(n) => n.is_bst(),
        }
    }

    /// Every key on the left is below the node's key, every key on the
    /// right above it, at every node.
    pub open spec fn is_bst(self) -> bool
        decreases self,
    {
        &&& forall|x: i32| Node::opt_values(self.left).contains(x) ==> x < self.value
        &&& forall|x: i32| Node::opt_values(self.right).contains(x) ==> x > self.value
        &&& Node::opt_is_bst(self.left)
        &&& Node::opt_is_bst(self.right)
    }

    pub open spec fn opt_size(o: Option<Box<Node>>) -> nat
        decreases o,
    {
        match o {
            None => 0,
            Some(n) => n.size(),
        }
    }

    /// The number of nodes in this subtree.
    pub open spec fn size(self) -> nat
        decreases self,
    {
        1 + Node::opt_size(self.left) + Node::opt_size(self.right)
    }

    pub open spec fn opt_same_shape(a: Option<Box<Node>>, b: Option<Box<Node>>) -> bool
        decreases a,
    {
        match (a, b) {
            (None, None) => true,
            (Some(x), Some(y)) => x.same_shape(*y),
            _ => false,
        }
    }

    /// The two trees have the same nodes with the same keys in the same
    /// places; only the insertion counters may differ.
    pub open spec fn same_shape(self, other: Node) -> bool
        decreases self,
    {
        &&& self.value == other.value
        &&& Node::opt_same_shape(self.left, other.left)
        &&& Node::opt_same_shape(self.right, other.right)
    }

    pub open spec fn opt_inserted(o: Option<Box<Node>>, v: i32) -> Option<Box<Node>>
        decreases o,
    {
        match o {
            None => Some(Box::new(Node::leaf(v))),
            Some(n) => Some(Box::new(n.inserted(v))),
        }
    }

    /// The tree after `insert(v)`: `v` goes down by comparison, bumping the
    /// counter of each node it passes, and becomes a new leaf where it finds
    /// no child; an equal key stops it with no change at that node.
    pub open spec fn inserted(self, v: i32) -> Node
        decreases self,
    {
        if v > self.value {
            Node {
                value: self.value,
                childs: bumped(self.childs),
                left: self.left,
                right: Node::opt_inserted(self.right, v),
            }
        } else if v < self.value {
            Node {
                value: self.value,
                childs: bumped(self.childs),
                left: Node::opt_inserted(self.left, v),
                right: self.right,
            }
        } else {
            self
        }
    }

    pub open spec fn opt_preorder(o: Option<Box<Node>>) -> Seq<i32>
        decreases o,
    {
        match o {
            None => Seq::empty(),
            Some(n) => n.preorder(),
        }
    }

    /// Keys in node, left, right order.
    pub open spec fn preorder(self) -> Seq<i32>
        decreases self,
    {
        seq![self.value] + Node::opt_preorder(self.left) + Node::opt_preorder(self.right)
    }

    pub open spec fn opt_inorder(o: Option<Box<Node>>) -> Seq<i32>
        decreases o,
    {
        match o {
            None => Seq::empty(),
            Some(n) => n.inorder(),
        }
    }

    /// Keys in left, node, right order.
    pub open spec fn inorder(self) -> Seq<i32>
        decreases self,
    {
        Node::opt_inorder(self.left) + seq![self.value] + Node::opt_inorder(self.right)
    }

    pub open spec fn opt_postorder(o: Option<Box<Node>>) -> Seq<i32>
        decreases o,
    {
        match o {
            None => Seq::empty(),
            Some(n) => n.postorder(),
        }
    }

    /// Keys in left, right, node order.
    pub open spec fn postorder(self) -> Seq<i32>
        decreases self,
    {
        Node::opt_postorder(self.left) + Node::opt_postorder(self.right) + seq![self.value]
    }

    pub fn new(value: i32) -> (r: Node)
        ensures
            r == Node::leaf(value),
    {
        Node { value, childs: 0, left: None, right: None }
    }

    /// Builds a tree from a comma-separated list of `i32` numerals: the first
    /// is the root, the others are inserted in order. Empty text gives a
    /// single node holding 0.
    pub fn import(tree_nodes: &str) -> (r: Result<Node, ParseError>)
        ensures
            tree_nodes@.len() == 0 ==> r == Ok::<Node, ParseError>(Node::leaf(0)),
            tree_nodes@.len() > 0 ==> match parse_list(tree_nodes@) {
                Some(vals) => r == Ok::<Node, ParseError>(built(vals)),
                None => r == Err::<Node, ParseError>(ParseError),
            },
    {
        if tree_nodes.unicode_len() == 0 {
            return Ok(Node::new(0));
        }
        let vals = match parse_values(tree_nodes) {
            Ok(v) => v,
            Err(e) => {
                return Err(e);
            },
        };
        proof {
            lemma_fields_nonempty(tree_nodes@);
        }
        let mut root = Node::new(vals[0]);
        let mut k: usize = 1;
        assert(vals@.take(1).drop_last() =~= Seq::<i32>::empty());
        while k < vals.len()
            invariant
                1 <= k <= vals.len(),
                root == built(vals@.take(k as int)),
            decreases vals.len() - k,
        {
            root.insert(vals[k]);
            k = k + 1;
            assert(vals@.take(k as int).drop_last() =~= vals@.take(k - 1));
        }
        assert(vals@.take(k as int) =~= vals@);
        Ok(root)
    }

    /// How far apart, in steps, a renderer places this node's two children:
    /// the insertion count divided by three, rounded up.
    pub fn spread(&self) -> (r: u64)
        ensures
            r as int == (self.childs as int + 2) / 3,
    {
        let q = self.childs / 3;
        if self.childs % 3 == 0 {
            q
        } else {
            q + 1
        }
    }

    fn insert_into(child: &mut Option<Box<Node>>, value: i32)
        ensures
            *final(child) == Node::opt_inserted(*old(child), value),
        decreases *old(child),
    {
        match child.take() {
            None => {
                *child = Some(Box::new(Node::new(value)));
            },
            Some(mut n) => {
                n.insert(value);
                *child = Some(n);
            },
        }
    }

    /// Adds `value` below this node unless it meets an equal key on its way.
    pub fn insert(&mut self, value: i32)
        ensures
            *final(self) == old(self).inserted(value),
        decreases *old(self),
    {
        if value > self.value {
            if self.childs < u64::MAX {
                self.childs = self.childs + 1;
            }
            Node::insert_into(&mut self.right, value);
        } else if value < self.value {
            if self.childs < u64::MAX {
                self.childs = self.childs + 1;
            }
            Node::insert_into(&mut self.left, value);
        }
    }

    /// Whether some node of this subtree holds `value`. Both subtrees are
    /// looked at, so the answer does not depend on the ordering of keys.
    pub fn search(&self, value: i32) -> (r: bool)
        ensures
            r == self.values().contains(value),
        decreases *self,
    {
        if self.value == value {
            return true;
        }
        let mut found = false;
        if let Some(l) = &self.left {
            found = l.search(value);
        }
        if !found {
            if let Some(rt) = &self.right {
                found = rt.search(value);
            }
        }
        found
    }
}

impl Default for Node {
    /// A single node holding 0, the tree that stands for an empty one.
    fn default() -> (r: Node)
        ensures
            r == Node::leaf(0),
    {
        Node::new(0)
    }
}

} // verus!
