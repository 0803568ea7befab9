//! The mathematical value of an AST node: a tree whose children are
//! sequences, so that specifications can build and compare whole trees.
use crate::ast::{same_node, Chomping, CustomNode, NodeMeta, ScalarStyle};
use crate::node_eq::{eq_key_index, items_eq_from, meta_matches, node_eq, pairs_eq_from};
use vstd::prelude::*;

verus! {

/// A node as a mathematical value.
pub enum Tree {
    Scalar { value: Seq<char>, style: ScalarStyle, chomping: Chomping, meta: NodeMeta },
    Mapping { pairs: Seq<(Tree, Tree)>, flow: bool, meta: NodeMeta },
    Sequence { items: Seq<Tree>, flow: bool, meta: NodeMeta },
    Null { meta: NodeMeta },
    Alias { name: Seq<char> },
}

/// The tree of a node.
pub open spec fn tree_of(n: CustomNode) -> Tree
    decreases n, 1int,
{
    match n {
        CustomNode::Scalar { value, style, chomping, meta } => Tree::Scalar {
            value: value@,
            style,
            chomping,
            meta,
        },
        CustomNode::Mapping { pairs, flow_style, meta } => Tree::Mapping {
            pairs: pairs_tree(pairs@),
            flow: flow_style,
            meta,
        },
        CustomNode::Sequence { items, flow_style, meta } => Tree::Sequence {
            items: items_tree(items@),
            flow: flow_style,
            meta,
        },
        CustomNode::Null { meta } => Tree::Null { meta },
        CustomNode::Alias { name } => Tree::Alias { name: name@ },
    }
}

/// The trees of a list of pairs.
pub open spec fn pairs_tree(ps: Seq<(CustomNode, CustomNode)>) -> Seq<(Tree, Tree)>
    decreases ps, 0int,
{
    Seq::new(
        ps.len(),
        |k: int|
            if 0 <= k < ps.len() {
                (tree_of(ps[k].0), tree_of(ps[k].1))
            } else {
                (Tree::Alias { name: Seq::empty() }, Tree::Alias { name: Seq::empty() })
            },
    )
}

/// The trees of a list of items.
pub open spec fn items_tree(xs: Seq<CustomNode>) -> Seq<Tree>
    decreases xs, 0int,
{
    Seq::new(
        xs.len(),
        |k: int|
            if 0 <= k < xs.len() {
                tree_of(xs[k])
            } else {
                Tree::Alias { name: Seq::empty() }
            },
    )
}

/// Tree equality, as node equality (`node_eq`) on the nodes they come from.
pub open spec fn tree_eq(a: Tree, b: Tree) -> bool
    decreases a, 0int, 0int, 0int,
{
    match a {
        Tree::Scalar { value, style, chomping, meta } => match b {
            Tree::Scalar { value: v2, style: s2, chomping: c2, meta: m2 } => {
                &&& value == v2
                &&& style == s2
                &&& chomping == c2
                &&& meta_matches(meta, m2)
            },
            _ => false,
        },
        Tree::Mapping { pairs, flow, meta } => match b {
            Tree::Mapping { pairs: p2, flow: f2, meta: m2 } => {
                &&& pairs.len() == p2.len()
                &&& tree_pairs_eq_from(pairs, p2, 0)
                &&& flow == f2
                &&& meta_matches(meta, m2)
            },
            _ => false,
        },
        Tree::Sequence { items, flow, meta } => match b {
            Tree::Sequence { items: i2, flow: f2, meta: m2 } => {
                &&& items.len() == i2.len()
                &&& tree_items_eq_from(items, i2, 0)
                &&& flow == f2
                &&& meta_matches(meta, m2)
            },
            _ => false,
        },
        Tree::Null { meta } => match b {
            Tree::Null { meta: m2 } => meta_matches(meta, m2),
            _ => false,
        },
        Tree::Alias { name } => match b {
            Tree::Alias { name: n2 } => name == n2,
            _ => false,
        },
    }
}

/// Every pair of `ap` from index `i` on finds its key in `bp`, with an equal
/// value under the first such key.
pub open spec fn tree_pairs_eq_from(ap: Seq<(Tree, Tree)>, bp: Seq<(Tree, Tree)>, i: int) -> bool
    decreases ap, ap.len() - i, 1int, 0int,
{
    if i < 0 || i >= ap.len() {
        true
    } else {
        &&& match tree_key_index(ap, bp, i, 0) {
            Some(j) => 0 <= j < bp.len() && tree_eq(ap[i].1, bp[j].1),
            None => false,
        }
        &&& tree_pairs_eq_from(ap, bp, i + 1)
    }
}

/// The first index at or after `j` where `bp` has a key equal to the key of
/// pair `i` of `ap`.
pub open spec fn tree_key_index(ap: Seq<(Tree, Tree)>, bp: Seq<(Tree, Tree)>, i: int, j: int) -> Option<
    int,
>
    decreases ap, ap.len() - i, 0int, bp.len() - j,
{
    if i < 0 || i >= ap.len() || j < 0 || j >= bp.len() {
        None
    } else if tree_eq(ap[i].0, bp[j].0) {
        Some(j)
    } else {
        tree_key_index(ap, bp, i, j + 1)
    }
}

/// Items of `ai` from index `i` on equal the items of `bi` at the same
/// positions.
pub open spec fn tree_items_eq_from(ai: Seq<Tree>, bi: Seq<Tree>, i: int) -> bool
    decreases ai, ai.len() - i, 0int, 0int,
{
    if i < 0 || i >= ai.len() {
        true
    } else {
        tree_eq(ai[i], bi[i]) && tree_items_eq_from(ai, bi, i + 1)
    }
}

/// Node equality is tree equality of the nodes' trees.
pub proof fn lemma_node_eq_tree(a: CustomNode, b: CustomNode)
    ensures
        node_eq(a, b) == tree_eq(tree_of(a), tree_of(b)),
    decreases a, 0int, 0int, 0int,
{
    match a {
        CustomNode::Mapping { pairs, .. } => match b {
            CustomNode::Mapping { pairs: p2, .. } => {
                if pairs@.len() == p2@.len() {
                    lemma_pairs_eq_tree(pairs@, p2@, 0);
                }
            },
            _ => {},
        },
        CustomNode::Sequence { items, .. } => match b {
            CustomNode::Sequence { items: i2, .. } => {
                if items@.len() == i2@.len() {
                    lemma_items_eq_tree(items@, i2@, 0);
                }
            },
            _ => {},
        },
        _ => {},
    }
}

proof fn lemma_pairs_eq_tree(ap: Seq<(CustomNode, CustomNode)>, bp: Seq<(CustomNode, CustomNode)>, i: int)
    requires
        ap.len() == bp.len(),
    ensures
        pairs_eq_from(ap, bp, i) == tree_pairs_eq_from(pairs_tree(ap), pairs_tree(bp), i),
    decreases ap, ap.len() - i, 1int, 0int,
{
    if 0 <= i < ap.len() {
        lemma_key_index_tree(ap, bp, i, 0);
        match eq_key_index(ap, bp, i, 0) {
            Some(j) => {
                if 0 <= j < bp.len() {
                    lemma_node_eq_tree(ap[i].1, bp[j].1);
                }
            },
            None => {},
        }
        lemma_pairs_eq_tree(ap, bp, i + 1);
    }
}

proof fn lemma_key_index_tree(
    ap: Seq<(CustomNode, CustomNode)>,
    bp: Seq<(CustomNode, CustomNode)>,
    i: int,
    j: int,
)
    ensures
        eq_key_index(ap, bp, i, j) == tree_key_index(pairs_tree(ap), pairs_tree(bp), i, j),
    decreases ap, ap.len() - i, 0int, bp.len() - j,
{
    if 0 <= i < ap.len() && 0 <= j < bp.len() {
        lemma_node_eq_tree(ap[i].0, bp[j].0);
        lemma_key_index_tree(ap, bp, i, j + 1);
    }
}

proof fn lemma_items_eq_tree(ai: Seq<CustomNode>, bi: Seq<CustomNode>, i: int)
    requires
        ai.len() == bi.len(),
    ensures
        items_eq_from(ai, bi, i) == tree_items_eq_from(items_tree(ai), items_tree(bi), i),
    decreases ai, ai.len() - i, 0int, 0int,
{
    if 0 <= i < ai.len() {
        lemma_node_eq_tree(ai[i], bi[i]);
        lemma_items_eq_tree(ai, bi, i + 1);
    }
}

/// Nodes that are the same tree (as a clone gives) have the same tree.
pub proof fn lemma_same_node_tree(a: CustomNode, b: CustomNode)
    requires
        same_node(a, b),
    ensures
        tree_of(a) == tree_of(b),
    decreases a,
{
    match a {
        CustomNode::Mapping { pairs, .. } => match b {
            CustomNode::Mapping { pairs: p2, .. } => {
                assert forall|i: int| 0 <= i < pairs@.len() implies pairs_tree(pairs@)[i] == pairs_tree(
                    p2@,
                )[i] by {
                    lemma_same_node_tree(pairs@[i].0, p2@[i].0);
                    lemma_same_node_tree(pairs@[i].1, p2@[i].1);
                }
                assert(pairs_tree(pairs@) =~= pairs_tree(p2@));
            },
            _ => {},
        },
        CustomNode::Sequence { items, .. } => match b {
            CustomNode::Sequence { items: i2, .. } => {
                assert forall|i: int| 0 <= i < items@.len() implies items_tree(items@)[i] == items_tree(
                    i2@,
                )[i] by {
                    lemma_same_node_tree(items@[i], i2@[i]);
                }
                assert(items_tree(items@) =~= items_tree(i2@));
            },
            _ => {},
        },
        _ => {},
    }
}

} // verus!
