use vstd::prelude::*;

use crate::node::Node;
use crate::text::{lemma_list_text_concat, lemma_list_text_single, list_text, push_item};

verus! {

fn preorder_into(node: &Node, out: &mut String)
    ensures
        final(out)@ == old(out)@ + list_text(node.preorder()),
    decreases *node,
{
    proof {
        lemma_list_text_concat(seq![node.value], Node::opt_preorder(node.left));
        lemma_list_text_concat(
            seq![node.value] + Node::opt_preorder(node.left),
            Node::opt_preorder(node.right),
        );
        lemma_list_text_single(node.value);
    }
    let ghost start = out@;
    push_item(out, node.value);
    if let Some(l) = &node.left {
        preorder_into(l, out);
    }
    if let Some(r) = &node.right {
        preorder_into(r, out);
    }
    assert(out@ =~= start + list_text(node.preorder()));
}

fn inorder_into(node: &Node, out: &mut String)
    ensures
        final(out)@ == old(out)@ + list_text(node.inorder()),
    decreases *node,
{
    proof {
        lemma_list_text_concat(Node::opt_inorder(node.left), seq![node.value]);
        lemma_list_text_concat(
            Node::opt_inorder(node.left) + seq![node.value],
            Node::opt_inorder(node.right),
        );
        lemma_list_text_single(node.value);
    }
    let ghost start = out@;
    if let Some(l) = &node.left {
        inorder_into(l, out);
    }
    push_item(out, node.value);
    if let Some(r) = &node.right {
        inorder_into(r, out);
    }
    assert(out@ =~= start + list_text(node.inorder()));
}

fn postorder_into(node: &Node, out: &mut String)
    ensures
        final(out)@ == old(out)@ + list_text(node.postorder()),
    decreases *node,
{
    proof {
        lemma_list_text_concat(Node::opt_postorder(node.left), Node::opt_postorder(node.right));
        lemma_list_text_concat(
            Node::opt_postorder(node.left) + Node::opt_postorder(node.right),
            seq![node.value],
        );
        lemma_list_text_single(node.value);
    }
    let ghost start = out@;
    if let Some(l) = &node.left {
        postorder_into(l, out);
    }
    if let Some(r) = &node.right {
        postorder_into(r, out);
    }
    push_item(out, node.value);
    assert(out@ =~= start + list_text(node.postorder()));
}

/// The keys in node, left, right order, each followed by a comma.
pub fn preorder_traversal(node: &Node) -> (r: String)
    ensures
        r@ == list_text(node.preorder()),
{
    let mut out = String::new();
    preorder_into(node, &mut out);
    assert(out@ =~= list_text(node.preorder()));
    out
}

/// The keys in left, node, right order, each followed by a comma.
pub fn inorder_traversal(node: &Node) -> (r: String)
    ensures
        r@ == list_text(node.inorder()),
{
    let mut out = String::new();
    inorder_into(node, &mut out);
    assert(out@ =~= list_text(node.inorder()));
    out
}

/// The keys in left, right, node order, each followed by a comma.
pub fn postorder_traversal(node: &Node) -> (r: String)
    ensures
        r@ == list_text(node.postorder()),
{
    let mut out = String::new();
    postorder_into(node, &mut out);
    assert(out@ =~= list_text(node.postorder()));
    out
}

} // verus!
