//! Merge keys (`<<`): a mapping's `<<: *alias` (or `<<: [*a, *b]`) entry is
//! replaced by the pairs of the anchored mappings that it does not already
//! have.
use crate::ast::{Chomping, CustomNode, NodeMeta, ScalarStyle};
use crate::node_eq::nodes_equal;
use crate::tree::{items_tree, lemma_node_eq_tree, pairs_tree, tree_eq, tree_of, Tree};
use vstd::prelude::*;

verus! {

/// The merge key `<<`, a plain scalar without metadata.
pub open spec fn merge_key() -> Tree {
    Tree::Scalar {
        value: "<<"@,
        style: ScalarStyle::Plain,
        chomping: Chomping::Clip,
        meta: NodeMeta::empty(),
    }
}

/// The first index at or after `j` where `ps` holds a key equal to `q`.
pub open spec fn key_index(ps: Seq<(Tree, Tree)>, q: Tree, j: int) -> Option<int>
    decreases ps.len() - j,
{
    if j < 0 || j >= ps.len() {
        None
    } else if tree_eq(q, ps[j].0) {
        Some(j)
    } else {
        key_index(ps, q, j + 1)
    }
}

/// The index found by `key_index` lies in range.
pub proof fn lemma_key_index_range(ps: Seq<(Tree, Tree)>, q: Tree, j: int)
    ensures
        key_index(ps, q, j) matches Some(k) ==> j <= k < ps.len(),
    decreases ps.len() - j,
{
    if 0 <= j < ps.len() && !tree_eq(q, ps[j].0) {
        lemma_key_index_range(ps, q, j + 1);
    }
}

/// Whether a mapping anywhere in the tree has a merge key.
pub open spec fn has_merge(t: Tree) -> bool
    decreases t, 1int, 0int,
{
    match t {
        Tree::Mapping { pairs, .. } => key_index(pairs, merge_key(), 0) is Some || values_have_merge(
            pairs,
            0,
        ),
        Tree::Sequence { items, .. } => items_have_merge(items, 0),
        _ => false,
    }
}

/// Whether a value of `ps` from index `i` on has a merge key.
pub open spec fn values_have_merge(ps: Seq<(Tree, Tree)>, i: int) -> bool
    decreases ps, 0int, ps.len() - i,
{
    if i < 0 || i >= ps.len() {
        false
    } else {
        has_merge(ps[i].1) || values_have_merge(ps, i + 1)
    }
}

/// Whether an item of `xs` from index `i` on has a merge key.
pub open spec fn items_have_merge(xs: Seq<Tree>, i: int) -> bool
    decreases xs, 0int, xs.len() - i,
{
    if i < 0 || i >= xs.len() {
        false
    } else {
        has_merge(xs[i]) || items_have_merge(xs, i + 1)
    }
}

/// The anchored mappings of a tree in pre-order: each mapping with an anchor
/// gives its name and pairs, before those inside its values.
pub open spec fn anchors_of(t: Tree) -> Seq<(Seq<char>, Seq<(Tree, Tree)>)>
    decreases t, 1int, 0int,
{
    match t {
        Tree::Mapping { pairs, meta, .. } => match meta.anchor {
            Some(name) => seq![(name@, pairs)] + anchors_of_values(pairs, 0),
            None => anchors_of_values(pairs, 0),
        },
        Tree::Sequence { items, .. } => anchors_of_items(items, 0),
        _ => Seq::empty(),
    }
}

/// The anchored mappings inside the values of `ps` from index `i` on.
pub open spec fn anchors_of_values(ps: Seq<(Tree, Tree)>, i: int) -> Seq<
    (Seq<char>, Seq<(Tree, Tree)>),
>
    decreases ps, 0int, ps.len() - i,
{
    if i < 0 || i >= ps.len() {
        Seq::empty()
    } else {
        anchors_of(ps[i].1) + anchors_of_values(ps, i + 1)
    }
}

/// The anchored mappings inside the items of `xs` from index `i` on.
pub open spec fn anchors_of_items(xs: Seq<Tree>, i: int) -> Seq<(Seq<char>, Seq<(Tree, Tree)>)>
    decreases xs, 0int, xs.len() - i,
{
    if i < 0 || i >= xs.len() {
        Seq::empty()
    } else {
        anchors_of(xs[i]) + anchors_of_items(xs, i + 1)
    }
}

/// The pairs registered last under `name` among the first `n` entries of the
/// table.
pub open spec fn lookup(table: Seq<(Seq<char>, Seq<(Tree, Tree)>)>, name: Seq<char>, n: int) -> Option<
    Seq<(Tree, Tree)>,
>
    decreases n,
{
    if n <= 0 || n > table.len() {
        None
    } else if table[n - 1].0 == name {
        Some(table[n - 1].1)
    } else {
        lookup(table, name, n - 1)
    }
}

/// A copy without byte provenance: the node's own range and, below it, the
/// ranges of values and items (keys of nested mappings keep theirs).
pub open spec fn cleared(t: Tree) -> Tree
    decreases t,
{
    match t {
        Tree::Scalar { value, style, chomping, meta } => Tree::Scalar {
            value,
            style,
            chomping,
            meta: NodeMeta { source_range: None, ..meta },
        },
        Tree::Mapping { pairs, flow, meta } => Tree::Mapping {
            pairs: Seq::new(
                pairs.len(),
                |k: int|
                    if 0 <= k < pairs.len() {
                        (pairs[k].0, cleared(pairs[k].1))
                    } else {
                        (Tree::Alias { name: Seq::empty() }, Tree::Alias { name: Seq::empty() })
                    },
            ),
            flow,
            meta: NodeMeta { source_range: None, ..meta },
        },
        Tree::Sequence { items, flow, meta } => Tree::Sequence {
            items: Seq::new(
                items.len(),
                |k: int|
                    if 0 <= k < items.len() {
                        cleared(items[k])
                    } else {
                        Tree::Alias { name: Seq::empty() }
                    },
            ),
            flow,
            meta: NodeMeta { source_range: None, ..meta },
        },
        Tree::Null { meta } => Tree::Null { meta: NodeMeta { source_range: None, ..meta } },
        Tree::Alias { name } => t,
    }
}

/// The pairs of `ms` from index `i` on whose key `pairs` lacks, cleared.
pub open spec fn picked(ms: Seq<(Tree, Tree)>, pairs: Seq<(Tree, Tree)>, i: int) -> Seq<(Tree, Tree)>
    decreases ms.len() - i,
{
    if i < 0 || i >= ms.len() {
        Seq::empty()
    } else if key_index(pairs, ms[i].0, 0) is Some {
        picked(ms, pairs, i + 1)
    } else {
        seq![(cleared(ms[i].0), cleared(ms[i].1))] + picked(ms, pairs, i + 1)
    }
}

/// What one alias contributes: the pairs of the mapping anchored under
/// `name` that `pairs` lacks.
pub open spec fn from_anchor(
    name: Seq<char>,
    pairs: Seq<(Tree, Tree)>,
    table: Seq<(Seq<char>, Seq<(Tree, Tree)>)>,
) -> Seq<(Tree, Tree)> {
    match lookup(table, name, table.len() as int) {
        Some(ms) => picked(ms, pairs, 0),
        None => Seq::empty(),
    }
}

/// What the aliases among `xs` from index `i` on contribute, in order.
pub open spec fn from_aliases(
    xs: Seq<Tree>,
    i: int,
    pairs: Seq<(Tree, Tree)>,
    table: Seq<(Seq<char>, Seq<(Tree, Tree)>)>,
) -> Seq<(Tree, Tree)>
    decreases xs.len() - i,
{
    if i < 0 || i >= xs.len() {
        Seq::empty()
    } else {
        match xs[i] {
            Tree::Alias { name } => from_anchor(name, pairs, table) + from_aliases(xs, i + 1, pairs, table),
            _ => from_aliases(xs, i + 1, pairs, table),
        }
    }
}

/// The pairs a merge value brings: those of one alias, or of the aliases of
/// a sequence; nothing for anything else.
pub open spec fn merge_data(
    v: Tree,
    pairs: Seq<(Tree, Tree)>,
    table: Seq<(Seq<char>, Seq<(Tree, Tree)>)>,
) -> Seq<(Tree, Tree)> {
    match v {
        Tree::Alias { name } => from_anchor(name, pairs, table),
        Tree::Sequence { items, .. } => from_aliases(items, 0, pairs, table),
        _ => Seq::empty(),
    }
}

/// Put a pair first. When an equal key is already there, that entry moves
/// to the front, keeping its key and taking the new value.
pub open spec fn shift_front(ps: Seq<(Tree, Tree)>, k: Tree, v: Tree) -> Seq<(Tree, Tree)> {
    match key_index(ps, k, 0) {
        Some(p) => seq![(ps[p].0, v)] + ps.remove(p),
        None => seq![(k, v)] + ps,
    }
}

/// Put the pairs of `ms` in front of `ps`, the last one first, so that they
/// end up in order.
pub open spec fn put_front(ps: Seq<(Tree, Tree)>, ms: Seq<(Tree, Tree)>) -> Seq<(Tree, Tree)>
    decreases ms.len(),
{
    if ms.len() == 0 {
        ps
    } else {
        put_front(shift_front(ps, ms.last().0, ms.last().1), ms.drop_last())
    }
}

/// The pairs of a mapping once its merge key, if any, is resolved: the
/// merge key goes, and the pairs it brings come first.
pub open spec fn merged_pairs(pairs: Seq<(Tree, Tree)>, table: Seq<(Seq<char>, Seq<(Tree, Tree)>)>) -> Seq<
    (Tree, Tree),
> {
    match key_index(pairs, merge_key(), 0) {
        None => pairs,
        Some(j) => {
            let ms = merge_data(pairs[j].1, pairs, table);
            if ms.len() == 0 {
                pairs
            } else {
                put_front(pairs.remove(j), ms)
            }
        },
    }
}

/// A tree with every merge key resolved, mappings first and then their
/// values (keys are left as they are); `None` when `fuel` runs out first.
pub open spec fn resolved(t: Tree, table: Seq<(Seq<char>, Seq<(Tree, Tree)>)>, fuel: nat) -> Option<Tree>
    decreases fuel, 0int, 0int,
{
    if fuel == 0 {
        None
    } else {
        match t {
            Tree::Mapping { pairs, flow, meta } => match resolved_values(
                merged_pairs(pairs, table),
                0,
                table,
                (fuel - 1) as nat,
            ) {
                Some(ps) => Some(Tree::Mapping { pairs: ps, flow, meta }),
                None => None,
            },
            Tree::Sequence { items, flow, meta } => match resolved_items(
                items,
                0,
                table,
                (fuel - 1) as nat,
            ) {
                Some(xs) => Some(Tree::Sequence { items: xs, flow, meta }),
                None => None,
            },
            _ => Some(t),
        }
    }
}

/// The pairs of `ps` from index `i` on with their values resolved.
pub open spec fn resolved_values(
    ps: Seq<(Tree, Tree)>,
    i: int,
    table: Seq<(Seq<char>, Seq<(Tree, Tree)>)>,
    fuel: nat,
) -> Option<Seq<(Tree, Tree)>>
    decreases fuel, 1int, ps.len() - i,
{
    if i < 0 || i >= ps.len() {
        Some(Seq::empty())
    } else {
        match resolved(ps[i].1, table, fuel) {
            Some(v) => match resolved_values(ps, i + 1, table, fuel) {
                Some(rest) => Some(seq![(ps[i].0, v)] + rest),
                None => None,
            },
            None => None,
        }
    }
}

/// The items of `xs` from index `i` on, resolved.
pub open spec fn resolved_items(
    xs: Seq<Tree>,
    i: int,
    table: Seq<(Seq<char>, Seq<(Tree, Tree)>)>,
    fuel: nat,
) -> Option<Seq<Tree>>
    decreases fuel, 1int, xs.len() - i,
{
    if i < 0 || i >= xs.len() {
        Some(Seq::empty())
    } else {
        match resolved(xs[i], table, fuel) {
            Some(x) => match resolved_items(xs, i + 1, table, fuel) {
                Some(rest) => Some(seq![x] + rest),
                None => None,
            },
            None => None,
        }
    }
}

/// Resolution of a tree against its own anchors ends (merged-in pairs may
/// bring further merge keys; a mapping that merges its own ancestor does
/// not end).
pub open spec fn resolution_ends(t: Tree) -> bool {
    exists|fuel: nat| #[trigger] resolved(t, anchors_of(t), fuel) is Some
}

/// The tree of one pair.
pub open spec fn pair_tree(p: (CustomNode, CustomNode)) -> (Tree, Tree) {
    (tree_of(p.0), tree_of(p.1))
}

/// The trees of the pairs of `ps`, element by element.
proof fn lemma_pairs_tree_index(ps: Seq<(CustomNode, CustomNode)>, k: int)
    requires
        0 <= k < ps.len(),
    ensures
        pairs_tree(ps).len() == ps.len(),
        pairs_tree(ps)[k] == pair_tree(ps[k]),
{
}

proof fn lemma_pairs_tree_push(ps: Seq<(CustomNode, CustomNode)>, x: (CustomNode, CustomNode))
    ensures
        pairs_tree(ps.push(x)) == pairs_tree(ps).push(pair_tree(x)),
{
    assert(pairs_tree(ps.push(x)) =~= pairs_tree(ps).push(pair_tree(x)));
}

proof fn lemma_pairs_tree_remove(ps: Seq<(CustomNode, CustomNode)>, j: int)
    requires
        0 <= j < ps.len(),
    ensures
        pairs_tree(ps.remove(j)) == pairs_tree(ps).remove(j),
{
    assert(pairs_tree(ps.remove(j)) =~= pairs_tree(ps).remove(j));
}

proof fn lemma_pairs_tree_front(ps: Seq<(CustomNode, CustomNode)>, x: (CustomNode, CustomNode))
    ensures
        pairs_tree(ps.insert(0, x)) == seq![pair_tree(x)] + pairs_tree(ps),
{
    assert(pairs_tree(ps.insert(0, x)) =~= seq![pair_tree(x)] + pairs_tree(ps));
}

proof fn lemma_pairs_tree_drop_last(ps: Seq<(CustomNode, CustomNode)>)
    requires
        ps.len() > 0,
    ensures
        pairs_tree(ps.drop_last()) == pairs_tree(ps).drop_last(),
        pairs_tree(ps).last() == pair_tree(ps.last()),
{
    assert(pairs_tree(ps.drop_last()) =~= pairs_tree(ps).drop_last());
}

/// A copy of `n`; with `clear`, without byte provenance (see `cleared`).
#[verifier::loop_isolation(false)]
fn copy_node(n: &CustomNode, clear: bool) -> (res: CustomNode)
    ensures
        tree_of(res) == (if clear {
            cleared(tree_of(*n))
        } else {
            tree_of(*n)
        }),
    decreases n,
{
    match n {
        CustomNode::Scalar { value, style, chomping, meta } => CustomNode::Scalar {
            value: value.clone(),
            style: *style,
            chomping: *chomping,
            meta: if clear {
                meta.without_range()
            } else {
                meta.clone()
            },
        },
        CustomNode::Mapping { pairs, flow_style, meta } => {
            let mut out: Vec<(CustomNode, CustomNode)> = Vec::new();
            let mut i: usize = 0;
            while i < pairs.len()
                invariant
                    0 <= i <= pairs@.len(),
                    out@.len() == i,
                    forall|k: int|
                        0 <= k < i ==> #[trigger] tree_of(out@[k].0) == tree_of(pairs@[k].0) && tree_of(
                            out@[k].1,
                        ) == (if clear {
                            cleared(tree_of(pairs@[k].1))
                        } else {
                            tree_of(pairs@[k].1)
                        }),
                decreases pairs@.len() - i,
            {
                let k = copy_node(&pairs[i].0, false);
                let v = copy_node(&pairs[i].1, clear);
                out.push((k, v));
                i = i + 1;
            }
            let m = if clear {
                meta.without_range()
            } else {
                meta.clone()
            };
            let res = CustomNode::Mapping { pairs: out, flow_style: *flow_style, meta: m };
            proof {
                let t = tree_of(*n);
                if clear {
                    assert(tree_of(res) == cleared(t)) by {
                        assert forall|k: int| 0 <= k < out@.len() implies #[trigger] pairs_tree(out@)[k]
                            == cleared(t)->pairs[k] by {
                            lemma_pairs_tree_index(out@, k);
                            lemma_pairs_tree_index(pairs@, k);
                        }
                        assert(pairs_tree(out@) =~= cleared(t)->pairs);
                    }
                } else {
                    assert forall|k: int| 0 <= k < out@.len() implies #[trigger] pairs_tree(out@)[k]
                        == pairs_tree(pairs@)[k] by {
                        lemma_pairs_tree_index(out@, k);
                        lemma_pairs_tree_index(pairs@, k);
                    }
                    assert(pairs_tree(out@) =~= pairs_tree(pairs@));
                }
            }
            res
        },
        CustomNode::Sequence { items, flow_style, meta } => {
            let mut out: Vec<CustomNode> = Vec::new();
            let mut i: usize = 0;
            while i < items.len()
                invariant
                    0 <= i <= items@.len(),
                    out@.len() == i,
                    forall|k: int|
                        0 <= k < i ==> #[trigger] tree_of(out@[k]) == (if clear {
                            cleared(tree_of(items@[k]))
                        } else {
                            tree_of(items@[k])
                        }),
                decreases items@.len() - i,
            {
                let x = copy_node(&items[i], clear);
                out.push(x);
                i = i + 1;
            }
            let m = if clear {
                meta.without_range()
            } else {
                meta.clone()
            };
            let res = CustomNode::Sequence { items: out, flow_style: *flow_style, meta: m };
            proof {
                let t = tree_of(*n);
                if clear {
                    assert(tree_of(res) == cleared(t)) by {
                        assert forall|k: int| 0 <= k < out@.len() implies #[trigger] items_tree(out@)[k]
                            == cleared(t)->items[k] by {
                            assert(items_tree(out@)[k] == tree_of(out@[k]));
                            assert(items_tree(items@)[k] == tree_of(items@[k]));
                        }
                        assert(items_tree(out@) =~= cleared(t)->items);
                    }
                } else {
                    assert forall|k: int| 0 <= k < out@.len() implies #[trigger] items_tree(out@)[k]
                        == items_tree(items@)[k] by {
                        assert(items_tree(out@)[k] == tree_of(out@[k]));
                        assert(items_tree(items@)[k] == tree_of(items@[k]));
                    }
                    assert(items_tree(out@) =~= items_tree(items@));
                }
            }
            res
        },
        CustomNode::Null { meta } => CustomNode::Null {
            meta: if clear {
                meta.without_range()
            } else {
                meta.clone()
            },
        },
        CustomNode::Alias { name } => CustomNode::Alias { name: name.clone() },
    }
}

/// Copies of all pairs.
fn copy_pairs(pairs: &Vec<(CustomNode, CustomNode)>) -> (res: Vec<(CustomNode, CustomNode)>)
    ensures
        pairs_tree(res@) == pairs_tree(pairs@),
{
    let mut out: Vec<(CustomNode, CustomNode)> = Vec::new();
    let mut i: usize = 0;
    while i < pairs.len()
        invariant
            0 <= i <= pairs@.len(),
            out@.len() == i,
            forall|k: int| 0 <= k < i ==> #[trigger] pair_tree(out@[k]) == pair_tree(pairs@[k]),
        decreases pairs@.len() - i,
    {
        let k = copy_node(&pairs[i].0, false);
        let v = copy_node(&pairs[i].1, false);
        out.push((k, v));
        i = i + 1;
    }
    assert forall|k: int| 0 <= k < out@.len() implies #[trigger] pairs_tree(out@)[k] == pairs_tree(
        pairs@,
    )[k] by {
        lemma_pairs_tree_index(out@, k);
        lemma_pairs_tree_index(pairs@, k);
    }
    assert(pairs_tree(out@) =~= pairs_tree(pairs@));
    out
}

/// Position of the first key of `pairs` equal to `q`.
fn find_key(pairs: &Vec<(CustomNode, CustomNode)>, q: &CustomNode) -> (res: Option<usize>)
    ensures
        match res {
            Some(j) => key_index(pairs_tree(pairs@), tree_of(*q), 0) == Some(j as int) && j < pairs@.len(),
            None => key_index(pairs_tree(pairs@), tree_of(*q), 0) is None,
        },
{
    let ghost pt = pairs_tree(pairs@);
    proof {
        lemma_key_index_range(pt, tree_of(*q), 0);
    }
    let mut j: usize = 0;
    while j < pairs.len()
        invariant
            0 <= j <= pairs@.len(),
            pt == pairs_tree(pairs@),
            key_index(pt, tree_of(*q), 0) == key_index(pt, tree_of(*q), j as int),
        decreases pairs@.len() - j,
    {
        let eq = nodes_equal(q, &pairs[j].0);
        proof {
            lemma_node_eq_tree(*q, pairs@[j as int].0);
        }
        if eq {
            return Some(j);
        }
        j = j + 1;
    }
    None
}

/// Whether a mapping anywhere in the tree has a merge key.
#[verifier::loop_isolation(false)]
fn has_merge_key(node: &CustomNode) -> (res: bool)
    ensures
        res == has_merge(tree_of(*node)),
    decreases node,
{
    match node {
        CustomNode::Mapping { pairs, .. } => {
            let merge_key_node = CustomNode::plain_scalar("<<");
            if find_key(pairs, &merge_key_node).is_some() {
                return true;
            }
            let ghost pt = pairs_tree(pairs@);
            let mut i: usize = 0;
            while i < pairs.len()
                invariant
                    0 <= i <= pairs@.len(),
                    pt == pairs_tree(pairs@),
                    values_have_merge(pt, 0) == values_have_merge(pt, i as int),
                decreases pairs@.len() - i,
            {
                if has_merge_key(&pairs[i].1) {
                    return true;
                }
                i = i + 1;
            }
            false
        },
        CustomNode::Sequence { items, .. } => {
            let ghost xt = items_tree(items@);
            let mut i: usize = 0;
            while i < items.len()
                invariant
                    0 <= i <= items@.len(),
                    xt == items_tree(items@),
                    items_have_merge(xt, 0) == items_have_merge(xt, i as int),
                decreases items@.len() - i,
            {
                if has_merge_key(&items[i]) {
                    return true;
                }
                i = i + 1;
            }
            false
        },
        _ => false,
    }
}

/// The view of an anchor table.
pub open spec fn table_view(t: Seq<(&String, &Vec<(CustomNode, CustomNode)>)>) -> Seq<
    (Seq<char>, Seq<(Tree, Tree)>),
> {
    t.map_values(|e: (&String, &Vec<(CustomNode, CustomNode)>)| (e.0@, pairs_tree(e.1@)))
}

/// Register the anchored mappings of `node`, in pre-order.
#[verifier::loop_isolation(false)]
fn collect_anchor_mappings<'a>(
    node: &'a CustomNode,
    table: &mut Vec<(&'a String, &'a Vec<(CustomNode, CustomNode)>)>,
)
    ensures
        table_view(final(table)@) == table_view(old(table)@) + anchors_of(tree_of(*node)),
    decreases node,
{
    match node {
        CustomNode::Mapping { pairs, meta, .. } => {
            let ghost pt = pairs_tree(pairs@);
            let ghost start = table_view(table@);
            if let Some(name) = &meta.anchor {
                table.push((name, pairs));
                proof {
                    assert(table_view(table@) =~= start + seq![(name@, pt)]);
                }
            }
            let ghost first = table_view(table@);
            let mut i: usize = 0;
            while i < pairs.len()
                invariant
                    0 <= i <= pairs@.len(),
                    pt == pairs_tree(pairs@),
                    first + anchors_of_values(pt, 0) == table_view(table@) + anchors_of_values(pt, i as int),
                decreases pairs@.len() - i,
            {
                let ghost before = table_view(table@);
                collect_anchor_mappings(&pairs[i].1, table);
                proof {
                    assert(anchors_of_values(pt, i as int) == anchors_of(tree_of(pairs@[i as int].1))
                        + anchors_of_values(pt, i + 1));
                    assert(before + anchors_of_values(pt, i as int) =~= table_view(table@)
                        + anchors_of_values(pt, i + 1));
                }
                i = i + 1;
            }
            proof {
                assert(table_view(table@) + anchors_of_values(pt, i as int) =~= table_view(table@));
                if meta.anchor is Some {
                    let n = meta.anchor.unwrap();
                    assert(start + (seq![(n@, pt)] + anchors_of_values(pt, 0)) =~= first
                        + anchors_of_values(pt, 0));
                }
            }
        },
        CustomNode::Sequence { items, .. } => {
            let ghost xt = items_tree(items@);
            let ghost first = table_view(table@);
            let mut i: usize = 0;
            while i < items.len()
                invariant
                    0 <= i <= items@.len(),
                    xt == items_tree(items@),
                    first + anchors_of_items(xt, 0) == table_view(table@) + anchors_of_items(xt, i as int),
                decreases items@.len() - i,
            {
                let ghost before = table_view(table@);
                collect_anchor_mappings(&items[i], table);
                proof {
                    assert(before + anchors_of_items(xt, i as int) =~= table_view(table@)
                        + anchors_of_items(xt, i + 1));
                }
                i = i + 1;
            }
            proof {
                assert(table_view(table@) + anchors_of_items(xt, i as int) =~= table_view(table@));
            }
        },
        _ => {
            assert(table_view(table@) =~= table_view(old(table)@) + anchors_of(tree_of(*node)));
        },
    }
}

/// The pairs registered last under `name`.
fn lookup_anchor<'a>(table: &Vec<(&'a String, &'a Vec<(CustomNode, CustomNode)>)>, name: &String) -> (res:
    Option<&'a Vec<(CustomNode, CustomNode)>>)
    ensures
        match lookup(table_view(table@), name@, table@.len() as int) {
            Some(ms) => res matches Some(v) && pairs_tree(v@) == ms,
            None => res is None,
        },
{
    let ghost tv = table_view(table@);
    let mut n = table.len();
    while n > 0
        invariant
            0 <= n <= table@.len(),
            tv == table_view(table@),
            lookup(tv, name@, table@.len() as int) == lookup(tv, name@, n as int),
        decreases n,
    {
        let entry = table[n - 1];
        if crate::text::str_equals(entry.0.as_str(), name.as_str()) {
            return Some(entry.1);
        }
        n = n - 1;
    }
    None
}

/// Append to `out` cleared copies of the pairs of `ms` whose key `pairs`
/// lacks.
fn push_picked(
    ms: &Vec<(CustomNode, CustomNode)>,
    pairs: &Vec<(CustomNode, CustomNode)>,
    out: &mut Vec<(CustomNode, CustomNode)>,
)
    ensures
        pairs_tree(final(out)@) == pairs_tree(old(out)@) + picked(pairs_tree(ms@), pairs_tree(pairs@), 0),
{
    let ghost mt = pairs_tree(ms@);
    let ghost pt = pairs_tree(pairs@);
    let mut i: usize = 0;
    while i < ms.len()
        invariant
            0 <= i <= ms@.len(),
            mt == pairs_tree(ms@),
            pt == pairs_tree(pairs@),
            pairs_tree(out@) + picked(mt, pt, i as int) == pairs_tree(old(out)@) + picked(mt, pt, 0),
        decreases ms@.len() - i,
    {
        proof {
            lemma_pairs_tree_index(ms@, i as int);
        }
        if find_key(pairs, &ms[i].0).is_none() {
            let k = copy_node(&ms[i].0, true);
            let v = copy_node(&ms[i].1, true);
            let ghost before = out@;
            out.push((k, v));
            proof {
                lemma_pairs_tree_push(before, (k, v));
                assert(pairs_tree(before) + picked(mt, pt, i as int) =~= pairs_tree(out@) + picked(
                    mt,
                    pt,
                    i + 1,
                ));
            }
        }
        i = i + 1;
    }
    assert(pairs_tree(out@) + picked(mt, pt, i as int) =~= pairs_tree(out@));
}

/// Append what the alias `name` brings to a mapping with `pairs`.
fn push_from_anchor(
    name: &String,
    pairs: &Vec<(CustomNode, CustomNode)>,
    table: &Vec<(&String, &Vec<(CustomNode, CustomNode)>)>,
    out: &mut Vec<(CustomNode, CustomNode)>,
)
    ensures
        pairs_tree(final(out)@) == pairs_tree(old(out)@) + from_anchor(name@, pairs_tree(pairs@), table_view(table@)),
{
    match lookup_anchor(table, name) {
        Some(ms) => push_picked(ms, pairs, out),
        None => {
            assert(pairs_tree(out@) + Seq::<(Tree, Tree)>::empty() =~= pairs_tree(out@));
        },
    }
}

/// The pairs that the merge value `v` of a mapping with `pairs` brings.
fn collect_merge_data(
    v: &CustomNode,
    pairs: &Vec<(CustomNode, CustomNode)>,
    table: &Vec<(&String, &Vec<(CustomNode, CustomNode)>)>,
) -> (res: Vec<(CustomNode, CustomNode)>)
    ensures
        pairs_tree(res@) == merge_data(tree_of(*v), pairs_tree(pairs@), table_view(table@)),
{
    let mut out: Vec<(CustomNode, CustomNode)> = Vec::new();
    let ghost pt = pairs_tree(pairs@);
    let ghost tv = table_view(table@);
    proof {
        assert(pairs_tree(out@) =~= Seq::<(Tree, Tree)>::empty());
    }
    match v {
        CustomNode::Alias { name } => {
            push_from_anchor(name, pairs, table, &mut out);
            assert(pairs_tree(out@) =~= merge_data(tree_of(*v), pt, tv));
        },
        CustomNode::Sequence { items, .. } => {
            let ghost xt = items_tree(items@);
            let mut i: usize = 0;
            while i < items.len()
                invariant
                    0 <= i <= items@.len(),
                    xt == items_tree(items@),
                    pt == pairs_tree(pairs@),
                    tv == table_view(table@),
                    pairs_tree(out@) + from_aliases(xt, i as int, pt, tv) == from_aliases(xt, 0, pt, tv),
                decreases items@.len() - i,
            {
                assert(xt[i as int] == tree_of(items@[i as int]));
                match &items[i] {
                    CustomNode::Alias { name } => {
                        let ghost before = pairs_tree(out@);
                        push_from_anchor(name, pairs, table, &mut out);
                        assert(before + from_aliases(xt, i as int, pt, tv) =~= pairs_tree(out@)
                            + from_aliases(xt, i + 1, pt, tv));
                    },
                    _ => {},
                }
                i = i + 1;
            }
            assert(pairs_tree(out@) + from_aliases(xt, i as int, pt, tv) =~= pairs_tree(out@));
        },
        _ => {},
    }
    out
}

/// Put the pair `(k, v)` first (see `shift_front`).
fn shift_front_pair(ps: &mut Vec<(CustomNode, CustomNode)>, k: CustomNode, v: CustomNode)
    ensures
        pairs_tree(final(ps)@) == shift_front(pairs_tree(old(ps)@), tree_of(k), tree_of(v)),
{
    let ghost pt = pairs_tree(ps@);
    match find_key(ps, &k) {
        Some(p) => {
            proof {
                lemma_pairs_tree_index(ps@, p as int);
            }
            let (sk, _old_value) = ps.remove(p);
            proof {
                lemma_pairs_tree_remove(old(ps)@, p as int);
            }
            let ghost mid = ps@;
            ps.insert(0, (sk, v));
            proof {
                lemma_pairs_tree_front(mid, (sk, v));
                assert(tree_of(sk) == pt[p as int].0);
                assert(pairs_tree(mid) == pt.remove(p as int));
                assert(pairs_tree(ps@) == seq![(pt[p as int].0, tree_of(v))] + pt.remove(p as int));
            }
        },
        None => {
            let ghost mid = ps@;
            ps.insert(0, (k, v));
            proof {
                lemma_pairs_tree_front(mid, (k, v));
            }
        },
    }
}

/// The pairs of a mapping with its merge key resolved (see `merged_pairs`).
fn merge_mapping_pairs(
    pairs: &Vec<(CustomNode, CustomNode)>,
    table: &Vec<(&String, &Vec<(CustomNode, CustomNode)>)>,
) -> (res: Vec<(CustomNode, CustomNode)>)
    ensures
        pairs_tree(res@) == merged_pairs(pairs_tree(pairs@), table_view(table@)),
{
    let merge_key_node = CustomNode::plain_scalar("<<");
    assert(tree_of(merge_key_node) == merge_key());
    match find_key(pairs, &merge_key_node) {
        None => copy_pairs(pairs),
        Some(j) => {
            proof {
                lemma_pairs_tree_index(pairs@, j as int);
            }
            let mut ms = collect_merge_data(&pairs[j].1, pairs, table);
            if ms.len() == 0 {
                assert(pairs_tree(ms@).len() == 0);
                assert(pairs_tree(pairs@)[j as int].1 == tree_of(pairs@[j as int].1));
                return copy_pairs(pairs);
            }
            let mut rest = copy_pairs(pairs);
            let ghost rest0 = rest@;
            assert(pairs_tree(rest0).len() == rest0.len() && pairs_tree(pairs@).len() == pairs@.len());
            let _merge_entry = rest.remove(j);
            proof {
                lemma_pairs_tree_remove(rest0, j as int);
            }
            let ghost target = merged_pairs(pairs_tree(pairs@), table_view(table@));
            while ms.len() > 0
                invariant
                    put_front(pairs_tree(rest@), pairs_tree(ms@)) == target,
                decreases ms@.len(),
            {
                proof {
                    lemma_pairs_tree_drop_last(ms@);
                }
                let ghost r0 = pairs_tree(rest@);
                let ghost m0 = pairs_tree(ms@);
                let (k, v) = ms.pop().unwrap();
                shift_front_pair(&mut rest, k, v);
                assert(put_front(r0, m0) == put_front(shift_front(r0, m0.last().0, m0.last().1), m0.drop_last()));
            }
            rest
        },
    }
}

/// `n` with every merge key resolved (see `resolved`).
#[verifier::loop_isolation(false)]
fn resolve_node(
    n: &CustomNode,
    table: &Vec<(&String, &Vec<(CustomNode, CustomNode)>)>,
    Ghost(fuel): Ghost<nat>,
) -> (res: CustomNode)
    requires
        resolved(tree_of(*n), table_view(table@), fuel) is Some,
    ensures
        tree_of(res) == resolved(tree_of(*n), table_view(table@), fuel).unwrap(),
    decreases fuel,
{
    let ghost tv = table_view(table@);
    match n {
        CustomNode::Mapping { pairs, flow_style, meta } => {
            let np = merge_mapping_pairs(pairs, table);
            let ghost nt = pairs_tree(np@);
            let ghost f = (fuel - 1) as nat;
            let ghost all = resolved_values(nt, 0, tv, f).unwrap();
            let mut out: Vec<(CustomNode, CustomNode)> = Vec::new();
            let mut i: usize = 0;
            while i < np.len()
                invariant
                    0 <= i <= np@.len(),
                    nt == pairs_tree(np@),
                    resolved_values(nt, i as int, tv, f) is Some,
                    pairs_tree(out@) + resolved_values(nt, i as int, tv, f).unwrap() == all,
                decreases np@.len() - i,
            {
                proof {
                    lemma_pairs_tree_index(np@, i as int);
                }
                let k = copy_node(&np[i].0, false);
                let v = resolve_node(&np[i].1, table, Ghost(f));
                let ghost before = out@;
                out.push((k, v));
                proof {
                    lemma_pairs_tree_push(before, (k, v));
                    assert(pairs_tree(before) + resolved_values(nt, i as int, tv, f).unwrap()
                        =~= pairs_tree(out@) + resolved_values(nt, i + 1, tv, f).unwrap());
                }
                i = i + 1;
            }
            assert(pairs_tree(out@) + resolved_values(nt, i as int, tv, f).unwrap() =~= pairs_tree(out@));
            CustomNode::Mapping { pairs: out, flow_style: *flow_style, meta: meta.clone() }
        },
        CustomNode::Sequence { items, flow_style, meta } => {
            let ghost xt = items_tree(items@);
            let ghost f = (fuel - 1) as nat;
            let ghost all = resolved_items(xt, 0, tv, f).unwrap();
            let mut out: Vec<CustomNode> = Vec::new();
            let mut i: usize = 0;
            while i < items.len()
                invariant
                    0 <= i <= items@.len(),
                    xt == items_tree(items@),
                    resolved_items(xt, i as int, tv, f) is Some,
                    items_tree(out@) + resolved_items(xt, i as int, tv, f).unwrap() == all,
                decreases items@.len() - i,
            {
                assert(xt[i as int] == tree_of(items@[i as int]));
                let x = resolve_node(&items[i], table, Ghost(f));
                let ghost before = out@;
                out.push(x);
                proof {
                    assert(items_tree(out@) =~= items_tree(before).push(tree_of(x)));
                    assert(items_tree(before) + resolved_items(xt, i as int, tv, f).unwrap() =~= items_tree(
                        out@,
                    ) + resolved_items(xt, i + 1, tv, f).unwrap());
                }
                i = i + 1;
            }
            assert(items_tree(out@) + resolved_items(xt, i as int, tv, f).unwrap() =~= items_tree(out@));
            CustomNode::Sequence { items: out, flow_style: *flow_style, meta: meta.clone() }
        },
        _ => copy_node(n, false),
    }
}

/// `n` with every merge key resolved within `fuel` rounds (see `resolved`):
/// `None` where the fuel runs out.
#[verifier::loop_isolation(false)]
fn resolve_node_within(
    n: &CustomNode,
    table: &Vec<(&String, &Vec<(CustomNode, CustomNode)>)>,
    fuel: u64,
) -> (res: Option<CustomNode>)
    ensures
        match resolved(tree_of(*n), table_view(table@), fuel as nat) {
            Some(t) => res matches Some(r) && tree_of(r) == t,
            None => res is None,
        },
    decreases fuel,
{
    if fuel == 0 {
        return None;
    }
    let ghost tv = table_view(table@);
    let f: u64 = fuel - 1;
    match n {
        CustomNode::Mapping { pairs, flow_style, meta } => {
            let np = merge_mapping_pairs(pairs, table);
            let ghost nt = pairs_tree(np@);
            let ghost all = resolved_values(nt, 0, tv, f as nat);
            let mut out: Vec<(CustomNode, CustomNode)> = Vec::new();
            let mut i: usize = 0;
            assert(pairs_tree(out@) =~= Seq::<(Tree, Tree)>::empty());
            while i < np.len()
                invariant
                    0 <= i <= np@.len(),
                    nt == pairs_tree(np@),
                    all == match resolved_values(nt, i as int, tv, f as nat) {
                        Some(r) => Some(pairs_tree(out@) + r),
                        None => None::<Seq<(Tree, Tree)>>,
                    },
                decreases np@.len() - i,
            {
                proof {
                    lemma_pairs_tree_index(np@, i as int);
                }
                let k = copy_node(&np[i].0, false);
                match resolve_node_within(&np[i].1, table, f) {
                    None => {
                        return None;
                    },
                    Some(v) => {
                        let ghost before = out@;
                        out.push((k, v));
                        proof {
                            lemma_pairs_tree_push(before, (k, v));
                            if let Some(rest) = resolved_values(nt, i + 1, tv, f as nat) {
                                assert(pairs_tree(before) + (seq![(nt[i as int].0, tree_of(v))] + rest)
                                    =~= pairs_tree(out@) + rest);
                            }
                        }
                    },
                }
                i = i + 1;
            }
            assert(pairs_tree(out@) + Seq::<(Tree, Tree)>::empty() =~= pairs_tree(out@));
            Some(CustomNode::Mapping { pairs: out, flow_style: *flow_style, meta: meta.clone() })
        },
        CustomNode::Sequence { items, flow_style, meta } => {
            let ghost xt = items_tree(items@);
            let ghost all = resolved_items(xt, 0, tv, f as nat);
            let mut out: Vec<CustomNode> = Vec::new();
            let mut i: usize = 0;
            assert(items_tree(out@) =~= Seq::<Tree>::empty());
            while i < items.len()
                invariant
                    0 <= i <= items@.len(),
                    xt == items_tree(items@),
                    all == match resolved_items(xt, i as int, tv, f as nat) {
                        Some(r) => Some(items_tree(out@) + r),
                        None => None::<Seq<Tree>>,
                    },
                decreases items@.len() - i,
            {
                assert(xt[i as int] == tree_of(items@[i as int]));
                match resolve_node_within(&items[i], table, f) {
                    None => {
                        return None;
                    },
                    Some(x) => {
                        let ghost before = out@;
                        out.push(x);
                        proof {
                            assert(items_tree(out@) =~= items_tree(before).push(tree_of(x)));
                            if let Some(rest) = resolved_items(xt, i + 1, tv, f as nat) {
                                assert(items_tree(before) + (seq![tree_of(x)] + rest) =~= items_tree(out@) + rest);
                            }
                        }
                    },
                }
                i = i + 1;
            }
            assert(items_tree(out@) + Seq::<Tree>::empty() =~= items_tree(out@));
            Some(CustomNode::Sequence { items: out, flow_style: *flow_style, meta: meta.clone() })
        },
        _ => Some(copy_node(n, false)),
    }
}

/// Resolve merge keys as `resolve_merge_keys` does, where the resolution
/// ends within `fuel` rounds; where it does not (a merge that refers back to
/// itself never ends), the tree is left as it was and `false` comes back.
pub fn resolve_merge_keys_within(node: &mut CustomNode, fuel: u64) -> (res: bool)
    ensures
        !has_merge(tree_of(*old(node))) ==> res && *final(node) == *old(node),
        has_merge(tree_of(*old(node))) ==> res == (resolved(
            tree_of(*old(node)),
            anchors_of(tree_of(*old(node))),
            fuel as nat,
        ) is Some),
        res && has_merge(tree_of(*old(node))) ==> resolved(
            tree_of(*old(node)),
            anchors_of(tree_of(*old(node))),
            fuel as nat,
        ) == Some(tree_of(*final(node))),
        !res ==> *final(node) == *old(node),
{
    if !has_merge_key(node) {
        return true;
    }
    let mut table: Vec<(&String, &Vec<(CustomNode, CustomNode)>)> = Vec::new();
    collect_anchor_mappings(node, &mut table);
    proof {
        assert(table_view(table@) =~= anchors_of(tree_of(*node)));
    }
    match resolve_node_within(node, &table, fuel) {
        Some(r) => {
            *node = r;
            true
        },
        None => false,
    }
}

/// More fuel gives the same resolution.
pub proof fn lemma_resolved_more_fuel(t: Tree, table: Seq<(Seq<char>, Seq<(Tree, Tree)>)>, fuel: nat)
    requires
        resolved(t, table, fuel) is Some,
    ensures
        resolved(t, table, fuel + 1) == resolved(t, table, fuel),
    decreases fuel, 0int, 0int,
{
    match t {
        Tree::Mapping { pairs, .. } => {
            lemma_values_more_fuel(merged_pairs(pairs, table), 0, table, (fuel - 1) as nat);
        },
        Tree::Sequence { items, .. } => {
            lemma_items_more_fuel(items, 0, table, (fuel - 1) as nat);
        },
        _ => {},
    }
}

proof fn lemma_values_more_fuel(
    ps: Seq<(Tree, Tree)>,
    i: int,
    table: Seq<(Seq<char>, Seq<(Tree, Tree)>)>,
    fuel: nat,
)
    requires
        resolved_values(ps, i, table, fuel) is Some,
    ensures
        resolved_values(ps, i, table, fuel + 1) == resolved_values(ps, i, table, fuel),
    decreases fuel, 1int, ps.len() - i,
{
    if 0 <= i < ps.len() {
        lemma_resolved_more_fuel(ps[i].1, table, fuel);
        lemma_values_more_fuel(ps, i + 1, table, fuel);
    }
}

proof fn lemma_items_more_fuel(xs: Seq<Tree>, i: int, table: Seq<(Seq<char>, Seq<(Tree, Tree)>)>, fuel: nat)
    requires
        resolved_items(xs, i, table, fuel) is Some,
    ensures
        resolved_items(xs, i, table, fuel + 1) == resolved_items(xs, i, table, fuel),
    decreases fuel, 1int, xs.len() - i,
{
    if 0 <= i < xs.len() {
        lemma_resolved_more_fuel(xs[i], table, fuel);
        lemma_items_more_fuel(xs, i + 1, table, fuel);
    }
}

/// Any two fuels that both suffice give the same resolution.
pub proof fn lemma_resolved_unique(t: Tree, table: Seq<(Seq<char>, Seq<(Tree, Tree)>)>, f1: nat, f2: nat)
    requires
        resolved(t, table, f1) is Some,
        resolved(t, table, f2) is Some,
    ensures
        resolved(t, table, f1) == resolved(t, table, f2),
    decreases if f1 <= f2 {
        f2 - f1
    } else {
        f1 - f2
    },
{
    if f1 < f2 {
        lemma_resolved_more_fuel(t, table, f1);
        lemma_resolved_unique(t, table, f1 + 1, f2);
    } else if f2 < f1 {
        lemma_resolved_more_fuel(t, table, f2);
        lemma_resolved_unique(t, table, f1, f2 + 1);
    }
}

/// Resolve merge keys (`<<`) in a YAML AST: every `<<: *alias` entry (or
/// `<<: [*a, *b]`) is replaced by the pairs of the anchored mappings that
/// the mapping does not already have, placed first, earlier aliases winning;
/// merged-in pairs lose their byte provenance. A tree without merge keys is
/// left untouched. The resolution must end (see `resolve_merge_keys_within`
/// for a variant that checks this within a given number of rounds).
pub fn resolve_merge_keys(node: &mut CustomNode)
    requires
        has_merge(tree_of(*old(node))) ==> resolution_ends(tree_of(*old(node))),
    ensures
        !has_merge(tree_of(*old(node))) ==> *final(node) == *old(node),
        has_merge(tree_of(*old(node))) ==> forall|fuel: nat|
            #[trigger] resolved(tree_of(*old(node)), anchors_of(tree_of(*old(node))), fuel) is Some
                ==> resolved(tree_of(*old(node)), anchors_of(tree_of(*old(node))), fuel) == Some(
                tree_of(*final(node)),
            ),
{
    if !has_merge_key(node) {
        return ;
    }
    let ghost t = tree_of(*node);
    let mut table: Vec<(&String, &Vec<(CustomNode, CustomNode)>)> = Vec::new();
    collect_anchor_mappings(node, &mut table);
    proof {
        assert(table_view(table@) =~= anchors_of(t));
    }
    let ghost fuel = choose|f: nat| #[trigger] resolved(t, anchors_of(t), f) is Some;
    let r = resolve_node(node, &table, Ghost(fuel));
    *node = r;
    proof {
        assert forall|f: nat| #[trigger] resolved(t, anchors_of(t), f) is Some implies resolved(
            t,
            anchors_of(t),
            f,
        ) == Some(tree_of(*node)) by {
            lemma_resolved_unique(t, anchors_of(t), f, fuel);
        }
    }
}

/// The index found by `key_index` holds a key equal to the query.
proof fn lemma_key_index_found(ps: Seq<(Tree, Tree)>, q: Tree, j: int)
    ensures
        key_index(ps, q, j) matches Some(k) ==> j <= k < ps.len() && tree_eq(q, ps[k].0),
        0 <= j && key_index(ps, q, j) is None ==> forall|k: int| j <= k < ps.len() ==> !tree_eq(q, #[trigger] ps[k].0),
    decreases ps.len() - j,
{
    if 0 <= j < ps.len() && !tree_eq(q, ps[j].0) {
        lemma_key_index_found(ps, q, j + 1);
    }
}

/// Clearing byte provenance does not change equality.
proof fn lemma_cleared_eq(a: Tree, b: Tree)
    ensures
        tree_eq(cleared(a), b) == tree_eq(a, b),
    decreases a, 0int, 0int, 0int,
{
    match a {
        Tree::Mapping { pairs, .. } => match b {
            Tree::Mapping { pairs: p2, .. } => {
                let cp = cleared(a)->pairs;
                assert(cp.len() == pairs.len());
                if pairs.len() == p2.len() {
                    lemma_cleared_pairs_eq(pairs, cp, p2, 0);
                }
            },
            _ => {},
        },
        Tree::Sequence { items, .. } => match b {
            Tree::Sequence { items: i2, .. } => {
                let ci = cleared(a)->items;
                if items.len() == i2.len() {
                    lemma_cleared_items_eq(items, ci, i2, 0);
                }
            },
            _ => {},
        },
        _ => {},
    }
}

proof fn lemma_cleared_pairs_eq(ap: Seq<(Tree, Tree)>, cp: Seq<(Tree, Tree)>, bp: Seq<(Tree, Tree)>, i: int)
    requires
        cp.len() == ap.len(),
        forall|k: int| 0 <= k < ap.len() ==> #[trigger] cp[k] == (ap[k].0, cleared(ap[k].1)),
    ensures
        crate::tree::tree_pairs_eq_from(cp, bp, i) == crate::tree::tree_pairs_eq_from(ap, bp, i),
    decreases ap, ap.len() - i, 1int, 0int,
{
    if 0 <= i < ap.len() {
        lemma_cleared_key_index(ap, cp, bp, i, 0);
        match crate::tree::tree_key_index(ap, bp, i, 0) {
            Some(j) => {
                if 0 <= j < bp.len() {
                    lemma_cleared_eq(ap[i].1, bp[j].1);
                }
            },
            None => {},
        }
        lemma_cleared_pairs_eq(ap, cp, bp, i + 1);
    }
}

proof fn lemma_cleared_key_index(
    ap: Seq<(Tree, Tree)>,
    cp: Seq<(Tree, Tree)>,
    bp: Seq<(Tree, Tree)>,
    i: int,
    j: int,
)
    requires
        cp.len() == ap.len(),
        forall|k: int| 0 <= k < ap.len() ==> #[trigger] cp[k] == (ap[k].0, cleared(ap[k].1)),
    ensures
        crate::tree::tree_key_index(cp, bp, i, j) == crate::tree::tree_key_index(ap, bp, i, j),
    decreases bp.len() - j,
{
    if 0 <= i < ap.len() && 0 <= j < bp.len() {
        assert(cp[i] == (ap[i].0, cleared(ap[i].1)));
        lemma_cleared_key_index(ap, cp, bp, i, j + 1);
    }
}

proof fn lemma_cleared_items_eq(ai: Seq<Tree>, ci: Seq<Tree>, bi: Seq<Tree>, i: int)
    requires
        ci.len() == ai.len(),
        forall|k: int| 0 <= k < ai.len() ==> #[trigger] ci[k] == cleared(ai[k]),
    ensures
        crate::tree::tree_items_eq_from(ci, bi, i) == crate::tree::tree_items_eq_from(ai, bi, i),
    decreases ai, ai.len() - i, 0int, 0int,
{
    if 0 <= i < ai.len() {
        assert(ci[i] == cleared(ai[i]));
        lemma_cleared_eq(ai[i], bi[i]);
        lemma_cleared_items_eq(ai, ci, bi, i + 1);
    }
}

/// No key of `ms` equals a key of `rest`.
pub open spec fn keys_apart(ms: Seq<(Tree, Tree)>, rest: Seq<(Tree, Tree)>) -> bool {
    forall|a: int, b: int| 0 <= a < ms.len() && 0 <= b < rest.len() ==> !tree_eq(#[trigger] ms[a].0, #[trigger] rest[b].0)
}

/// Putting pairs whose keys `rest` lacks in front of `front + rest` leaves
/// `rest` in place at the end.
proof fn lemma_put_front_keeps_rest(front: Seq<(Tree, Tree)>, rest: Seq<(Tree, Tree)>, ms: Seq<(Tree, Tree)>)
    requires
        keys_apart(ms, rest),
    ensures
        exists|f: Seq<(Tree, Tree)>| #[trigger] put_front(front + rest, ms) == f + rest,
    decreases ms.len(),
{
    if ms.len() == 0 {
        assert(put_front(front + rest, ms) == front + rest);
    } else {
        let (k, v) = ms.last();
        let ps = front + rest;
        lemma_key_index_found(ps, k, 0);
        let next_front = match key_index(ps, k, 0) {
            Some(p) => {
                if p >= front.len() {
                    assert(ps[p] == rest[p - front.len()]);
                    assert(ms[ms.len() - 1] == ms.last());
                    assert(!tree_eq(ms[ms.len() - 1].0, rest[p - front.len()].0));
                }
                assert(seq![(ps[p].0, v)] + ps.remove(p) =~= (seq![(front[p].0, v)] + front.remove(p)) + rest);
                seq![(front[p].0, v)] + front.remove(p)
            },
            None => {
                assert(seq![(k, v)] + ps =~= (seq![(k, v)] + front) + rest);
                seq![(k, v)] + front
            },
        };
        assert(shift_front(ps, k, v) == next_front + rest);
        let smaller = ms.drop_last();
        assert(keys_apart(smaller, rest)) by {
            assert forall|a: int, b: int| 0 <= a < smaller.len() && 0 <= b < rest.len() implies !tree_eq(
                #[trigger] smaller[a].0,
                #[trigger] rest[b].0,
            ) by {
                assert(smaller[a] == ms[a]);
            }
        }
        lemma_put_front_keeps_rest(next_front, rest, smaller);
    }
}

/// Every pair `picked` yields has a key that `pairs` lacks.
proof fn lemma_picked_apart(ms: Seq<(Tree, Tree)>, pairs: Seq<(Tree, Tree)>, i: int)
    ensures
        forall|a: int, b: int|
            0 <= a < picked(ms, pairs, i).len() && 0 <= b < pairs.len() ==> !tree_eq(
                #[trigger] picked(ms, pairs, i)[a].0,
                #[trigger] pairs[b].0,
            ),
    decreases ms.len() - i,
{
    if 0 <= i < ms.len() {
        lemma_picked_apart(ms, pairs, i + 1);
        if key_index(pairs, ms[i].0, 0) is None {
            lemma_key_index_found(pairs, ms[i].0, 0);
            let rest = picked(ms, pairs, i + 1);
            let all = picked(ms, pairs, i);
            assert forall|a: int, b: int| 0 <= a < all.len() && 0 <= b < pairs.len() implies !tree_eq(
                #[trigger] all[a].0,
                #[trigger] pairs[b].0,
            ) by {
                if a == 0 {
                    lemma_cleared_eq(ms[i].0, pairs[b].0);
                    assert(!tree_eq(ms[i].0, pairs[b].0));
                } else {
                    assert(all[a] == rest[a - 1]);
                }
            }
        } else {
            assert(picked(ms, pairs, i) == picked(ms, pairs, i + 1));
        }
    }
}

proof fn lemma_aliases_apart(
    xs: Seq<Tree>,
    i: int,
    pairs: Seq<(Tree, Tree)>,
    table: Seq<(Seq<char>, Seq<(Tree, Tree)>)>,
)
    ensures
        forall|a: int, b: int|
            0 <= a < from_aliases(xs, i, pairs, table).len() && 0 <= b < pairs.len() ==> !tree_eq(
                #[trigger] from_aliases(xs, i, pairs, table)[a].0,
                #[trigger] pairs[b].0,
            ),
    decreases xs.len() - i,
{
    if 0 <= i < xs.len() {
        lemma_aliases_apart(xs, i + 1, pairs, table);
        match xs[i] {
            Tree::Alias { name } => {
                let here = from_anchor(name, pairs, table);
                match lookup(table, name, table.len() as int) {
                    Some(ms) => lemma_picked_apart(ms, pairs, 0),
                    None => {},
                }
                let rest = from_aliases(xs, i + 1, pairs, table);
                let all = from_aliases(xs, i, pairs, table);
                assert forall|a: int, b: int| 0 <= a < all.len() && 0 <= b < pairs.len() implies !tree_eq(
                    #[trigger] all[a].0,
                    #[trigger] pairs[b].0,
                ) by {
                    if a < here.len() {
                        assert(all[a] == here[a]);
                    } else {
                        assert(all[a] == rest[a - here.len()]);
                    }
                }
            },
            _ => {
                assert(from_aliases(xs, i, pairs, table) == from_aliases(xs, i + 1, pairs, table));
            },
        }
    }
}

/// Local keys win: resolving a merge key that brings pairs keeps every
/// other pair of the mapping, unchanged and in order, after the pairs it
/// brings, which never replace a key the mapping already has.
pub proof fn law_merge_keeps_local_pairs(
    pairs: Seq<(Tree, Tree)>,
    table: Seq<(Seq<char>, Seq<(Tree, Tree)>)>,
    j: int,
)
    requires
        key_index(pairs, merge_key(), 0) == Some(j),
        merge_data(pairs[j].1, pairs, table).len() > 0,
    ensures
        exists|f: Seq<(Tree, Tree)>| #[trigger] merged_pairs(pairs, table) == f + pairs.remove(j),
{
    lemma_key_index_range(pairs, merge_key(), 0);
    let ms = merge_data(pairs[j].1, pairs, table);
    let rest = pairs.remove(j);
    match pairs[j].1 {
        Tree::Alias { name } => match lookup(table, name, table.len() as int) {
            Some(m) => lemma_picked_apart(m, pairs, 0),
            None => {},
        },
        Tree::Sequence { items, .. } => lemma_aliases_apart(items, 0, pairs, table),
        _ => {},
    }
    assert(keys_apart(ms, rest)) by {
        assert forall|a: int, b: int| 0 <= a < ms.len() && 0 <= b < rest.len() implies !tree_eq(
            #[trigger] ms[a].0,
            #[trigger] rest[b].0,
        ) by {
            if b < j {
                assert(rest[b] == pairs[b]);
            } else {
                assert(rest[b] == pairs[b + 1]);
            }
        }
    }
    assert(Seq::<(Tree, Tree)>::empty() + rest =~= rest);
    lemma_put_front_keeps_rest(Seq::empty(), rest, ms);
}

} // verus!
