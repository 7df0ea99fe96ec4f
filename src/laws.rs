use vstd::prelude::*;

use crate::node::{built, Node};

verus! {

/// Inserting adds exactly the inserted key to the keys of the tree, whatever
/// the tree.
pub proof fn lemma_insert_values(n: Node, v: i32)
    ensures
        n.inserted(v).values() == n.values().insert(v),
    decreases n,
{
    if v > n.value {
        lemma_opt_insert_values(n.right, v);
    } else if v < n.value {
        lemma_opt_insert_values(n.left, v);
    }
    assert(n.inserted(v).values() =~= n.values().insert(v));
}

proof fn lemma_opt_insert_values(o: Option<Box<Node>>, v: i32)
    ensures
        Node::opt_values(Node::opt_inserted(o, v)) == Node::opt_values(o).insert(v),
    decreases o,
{
    match o {
        None => {
            assert(Node::leaf(v).values() =~= Set::empty().insert(v));
        },
        Some(c) => {
            lemma_insert_values(*c, v);
        },
    }
}

/// Inserting into a search tree gives a search tree.
pub proof fn lemma_insert_keeps_bst(n: Node, v: i32)
    requires
        n.is_bst(),
    ensures
        n.inserted(v).is_bst(),
    decreases n,
{
    if v > n.value {
        lemma_opt_insert_keeps_bst(n.right, v);
        lemma_opt_insert_values(n.right, v);
    } else if v < n.value {
        lemma_opt_insert_keeps_bst(n.left, v);
        lemma_opt_insert_values(n.left, v);
    }
}

proof fn lemma_opt_insert_keeps_bst(o: Option<Box<Node>>, v: i32)
    requires
        Node::opt_is_bst(o),
    ensures
        Node::opt_is_bst(Node::opt_inserted(o, v)),
    decreases o,
{
    match o {
        None => {
            assert(Node::opt_values(Node::leaf(v).left) =~= Set::empty());
        },
        Some(c) => {
            lemma_insert_keeps_bst(*c, v);
        },
    }
}

/// The inorder sequence holds exactly the keys of the tree.
pub proof fn lemma_inorder_holds_values(n: Node)
    ensures
        n.inorder().to_set() == n.values(),
    decreases n,
{
    lemma_opt_inorder_holds_values(n.left);
    lemma_opt_inorder_holds_values(n.right);
    let l = Node::opt_inorder(n.left);
    let r = Node::opt_inorder(n.right);
    assert forall|x: i32| n.inorder().to_set().contains(x) <==> n.values().contains(x) by {
        if n.inorder().to_set().contains(x) {
            let i = choose|i: int| 0 <= i < n.inorder().len() && n.inorder()[i] == x;
            if i < l.len() {
                assert(l.contains(x));
            } else if i > l.len() {
                assert(r[i - l.len() - 1] == x);
                assert(r.contains(x));
            }
        }
        if n.values().contains(x) {
            if Node::opt_values(n.left).contains(x) {
                let i = choose|i: int| 0 <= i < l.len() && l[i] == x;
                assert(n.inorder()[i] == x);
            } else if Node::opt_values(n.right).contains(x) {
                let i = choose|i: int| 0 <= i < r.len() && r[i] == x;
                assert(n.inorder()[l.len() + 1 + i] == x);
            } else {
                assert(n.inorder()[l.len() as int] == x);
            }
        }
    }
    assert(n.inorder().to_set() =~= n.values());
}

proof fn lemma_opt_inorder_holds_values(o: Option<Box<Node>>)
    ensures
        Node::opt_inorder(o).to_set() == Node::opt_values(o),
    decreases o,
{
    match o {
        None => {
            assert(Seq::<i32>::empty().to_set() =~= Set::empty());
        },
        Some(c) => {
            lemma_inorder_holds_values(*c);
        },
    }
}

/// The keys of a sequence climb strictly from first to last.
pub open spec fn strictly_ascending(s: Seq<i32>) -> bool {
    forall|i: int, j: int| 0 <= i < j < s.len() ==> s[i] < s[j]
}

/// The inorder sequence of a search tree climbs strictly and holds exactly
/// the keys of the tree.
pub proof fn lemma_inorder_ascending(n: Node)
    requires
        n.is_bst(),
    ensures
        strictly_ascending(n.inorder()),
        n.inorder().to_set() == n.values(),
    decreases n,
{
    lemma_opt_inorder_ascending(n.left);
    lemma_opt_inorder_ascending(n.right);
    lemma_inorder_holds_values(n);
    let l = Node::opt_inorder(n.left);
    let r = Node::opt_inorder(n.right);
    let s = n.inorder();
    assert forall|i: int, j: int| 0 <= i < j < s.len() implies s[i] < s[j] by {
        if i < l.len() {
            assert(l.to_set().contains(l[i]));
        }
        if j > l.len() {
            assert(r.to_set().contains(r[j - l.len() - 1]));
            assert(s[j] == r[j - l.len() - 1]);
        }
    }
}

proof fn lemma_opt_inorder_ascending(o: Option<Box<Node>>)
    requires
        Node::opt_is_bst(o),
    ensures
        strictly_ascending(Node::opt_inorder(o)),
        Node::opt_inorder(o).to_set() == Node::opt_values(o),
    decreases o,
{
    match o {
        None => {
            assert(Seq::<i32>::empty().to_set() =~= Set::empty());
        },
        Some(c) => {
            lemma_inorder_ascending(*c);
        },
    }
}

/// Trees of the same shape have the same keys, size and traversals.
pub proof fn lemma_same_shape_traversals(a: Node, b: Node)
    requires
        a.same_shape(b),
    ensures
        a.values() == b.values(),
        a.size() == b.size(),
        a.preorder() == b.preorder(),
        a.inorder() == b.inorder(),
        a.postorder() == b.postorder(),
    decreases a,
{
    lemma_opt_same_shape_traversals(a.left, b.left);
    lemma_opt_same_shape_traversals(a.right, b.right);
}

proof fn lemma_opt_same_shape_traversals(a: Option<Box<Node>>, b: Option<Box<Node>>)
    requires
        Node::opt_same_shape(a, b),
    ensures
        Node::opt_values(a) == Node::opt_values(b),
        Node::opt_size(a) == Node::opt_size(b),
        Node::opt_preorder(a) == Node::opt_preorder(b),
        Node::opt_inorder(a) == Node::opt_inorder(b),
        Node::opt_postorder(a) == Node::opt_postorder(b),
    decreases a,
{
    match (a, b) {
        (Some(x), Some(y)) => {
            lemma_same_shape_traversals(*x, *y);
        },
        _ => {},
    }
}

/// Inserting a key that a search tree already holds changes no node and no
/// key: only insertion counters along the way move. Its size and its
/// traversals stay as they were.
pub proof fn lemma_insert_present(n: Node, v: i32)
    requires
        n.is_bst(),
        n.values().contains(v),
    ensures
        n.inserted(v).same_shape(n),
        n.inserted(v).size() == n.size(),
        n.inserted(v).values() == n.values(),
        n.inserted(v).preorder() == n.preorder(),
        n.inserted(v).inorder() == n.inorder(),
        n.inserted(v).postorder() == n.postorder(),
    decreases n,
{
    if v > n.value {
        assert(!Node::opt_values(n.left).contains(v));
        assert(Node::opt_values(n.right).contains(v));
        if let Some(c) = n.right {
            lemma_insert_present(*c, v);
        }
        lemma_same_shape_refl_opt(n.left);
    } else if v < n.value {
        assert(!Node::opt_values(n.right).contains(v));
        assert(Node::opt_values(n.left).contains(v));
        if let Some(c) = n.left {
            lemma_insert_present(*c, v);
        }
        lemma_same_shape_refl_opt(n.right);
    } else {
        lemma_same_shape_refl(n);
    }
    lemma_same_shape_traversals(n.inserted(v), n);
}

proof fn lemma_same_shape_refl(n: Node)
    ensures
        n.same_shape(n),
    decreases n,
{
    lemma_same_shape_refl_opt(n.left);
    lemma_same_shape_refl_opt(n.right);
}

proof fn lemma_same_shape_refl_opt(o: Option<Box<Node>>)
    ensures
        Node::opt_same_shape(o, o),
    decreases o,
{
    if let Some(c) = o {
        lemma_same_shape_refl(*c);
    }
}

/// A tree built by inserting a list of keys, in any order and with any
/// repeats, is a search tree.
pub proof fn lemma_built_is_bst(vals: Seq<i32>)
    requires
        vals.len() >= 1,
    ensures
        built(vals).is_bst(),
    decreases vals.len(),
{
    if vals.len() > 1 {
        lemma_built_is_bst(vals.drop_last());
        lemma_insert_keeps_bst(built(vals.drop_last()), vals.last());
    } else {
        assert(Node::opt_values(Node::leaf(vals[0]).left) =~= Set::empty());
    }
}

/// The keys of a built tree are exactly the listed keys, so searching it
/// finds a key if and only if the list holds it.
pub proof fn lemma_built_values(vals: Seq<i32>)
    requires
        vals.len() >= 1,
    ensures
        built(vals).values() == vals.to_set(),
        forall|v: i32| built(vals).values().contains(v) <==> vals.contains(v),
    decreases vals.len(),
{
    if vals.len() > 1 {
        lemma_built_values(vals.drop_last());
        lemma_insert_values(built(vals.drop_last()), vals.last());
        assert(vals =~= vals.drop_last().push(vals.last()));
        vals.drop_last().lemma_push_to_set_commute(vals.last());
    } else {
        assert(vals.to_set() =~= set![vals[0]]) by {
            assert forall|x: i32| vals.to_set().contains(x) <==> x == vals[0] by {
                if x == vals[0] {
                    assert(vals.contains(x));
                }
            }
        }
        assert(built(vals).values() =~= set![vals[0]]);
    }
}

/// The inorder sequence of a built tree is the listed keys, each once, in
/// strictly ascending order.
pub proof fn lemma_built_inorder(vals: Seq<i32>)
    requires
        vals.len() >= 1,
    ensures
        strictly_ascending(built(vals).inorder()),
        built(vals).inorder().to_set() == vals.to_set(),
{
    lemma_built_is_bst(vals);
    lemma_built_values(vals);
    lemma_inorder_ascending(built(vals));
}

/// Listing a key again adds nothing: the tree keeps its shape, size, keys
/// and traversals.
pub proof fn lemma_built_repeat(vals: Seq<i32>, v: i32)
    requires
        vals.len() >= 1,
        vals.contains(v),
    ensures
        built(vals.push(v)).same_shape(built(vals)),
        built(vals.push(v)).size() == built(vals).size(),
        built(vals.push(v)).preorder() == built(vals).preorder(),
        built(vals.push(v)).inorder() == built(vals).inorder(),
        built(vals.push(v)).postorder() == built(vals).postorder(),
{
    assert(vals.push(v).drop_last() =~= vals);
    lemma_built_is_bst(vals);
    lemma_built_values(vals);
    lemma_insert_present(built(vals), v);
}

} // verus!
