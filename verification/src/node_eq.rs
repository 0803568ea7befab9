//! Structural equality of AST nodes: byte provenance (`source_range`) is left
//! out, so that built nodes match parsed ones; mappings compare as maps,
//! whatever the order of their pairs.
use crate::ast::{Comment, CustomNode, NodeMeta, Tag};
use crate::text::str_equals;
use vstd::prelude::*;
use vstd::std_specs::cmp::PartialEqSpecImpl;

verus! {

/// The view of an optional comment.
pub open spec fn comment_view(c: Option<Comment>) -> Option<(Seq<char>, bool)> {
    match c {
        Some(x) => Some((x.text@, x.standalone)),
        None => None,
    }
}

/// The view of an optional name.
pub open spec fn name_view(c: Option<String>) -> Option<Seq<char>> {
    match c {
        Some(x) => Some(x@),
        None => None,
    }
}

/// The view of an optional tag.
pub open spec fn tag_view(c: Option<Tag>) -> Option<(Seq<char>, Seq<char>)> {
    match c {
        Some(x) => Some((x.handle@, x.suffix@)),
        None => None,
    }
}

/// Two metadata records agree on comment, anchor and tag.
pub open spec fn meta_matches(a: NodeMeta, b: NodeMeta) -> bool {
    &&& comment_view(a.comment) == comment_view(b.comment)
    &&& name_view(a.anchor) == name_view(b.anchor)
    &&& tag_view(a.tag) == tag_view(b.tag)
}

/// Node equality: same variant, same text, style, chomping, flow style,
/// comment, anchor and tag; sequences item by item; mappings of the same
/// size where every pair of the first finds its key in the second (the first
/// equal key there) with an equal value.
pub open spec fn node_eq(a: CustomNode, b: CustomNode) -> bool
    decreases a, 0int, 0int, 0int,
{
    match a {
        CustomNode::Scalar { value, style, chomping, meta } => match b {
            CustomNode::Scalar { value: v2, style: s2, chomping: c2, meta: m2 } => {
                &&& value@ == v2@
                &&& style == s2
                &&& chomping == c2
                &&& meta_matches(meta, m2)
            },
            _ => false,
        },
        CustomNode::Mapping { pairs, flow_style, meta } => match b {
            CustomNode::Mapping { pairs: p2, flow_style: f2, meta: m2 } => {
                &&& pairs@.len() == p2@.len()
                &&& pairs_eq_from(pairs@, p2@, 0)
                &&& flow_style == f2
                &&& meta_matches(meta, m2)
            },
            _ => false,
        },
        CustomNode::Sequence { items, flow_style, meta } => match b {
            CustomNode::Sequence { items: i2, flow_style: f2, meta: m2 } => {
                &&& items@.len() == i2@.len()
                &&& items_eq_from(items@, i2@, 0)
                &&& flow_style == f2
                &&& meta_matches(meta, m2)
            },
            _ => false,
        },
        CustomNode::Null { meta } => match b {
            CustomNode::Null { meta: m2 } => meta_matches(meta, m2),
            _ => false,
        },
        CustomNode::Alias { name } => match b {
            CustomNode::Alias { name: n2 } => name@ == n2@,
            _ => false,
        },
    }
}

/// Every pair of `ap` from index `i` on finds its key in `bp`, and the value
/// under the first such key equals its own.
pub open spec fn pairs_eq_from(
    ap: Seq<(CustomNode, CustomNode)>,
    bp: Seq<(CustomNode, CustomNode)>,
    i: int,
) -> bool
    decreases ap, ap.len() - i, 1int, 0int,
{
    if i < 0 || i >= ap.len() {
        true
    } else {
        &&& match eq_key_index(ap, bp, i, 0) {
            Some(j) => 0 <= j < bp.len() && node_eq(ap[i].1, bp[j].1),
            None => false,
        }
        &&& pairs_eq_from(ap, bp, i + 1)
    }
}

/// The first index at or after `j` where `bp` has a key equal to the key of
/// pair `i` of `ap`.
pub open spec fn eq_key_index(
    ap: Seq<(CustomNode, CustomNode)>,
    bp: Seq<(CustomNode, CustomNode)>,
    i: int,
    j: int,
) -> Option<int>
    decreases ap, ap.len() - i, 0int, bp.len() - j,
{
    if i < 0 || i >= ap.len() || j < 0 || j >= bp.len() {
        None
    } else if node_eq(ap[i].0, bp[j].0) {
        Some(j)
    } else {
        eq_key_index(ap, bp, i, j + 1)
    }
}

/// Items of `ai` from index `i` on equal the items of `bi` at the same
/// positions.
pub open spec fn items_eq_from(ai: Seq<CustomNode>, bi: Seq<CustomNode>, i: int) -> bool
    decreases ai, ai.len() - i, 0int, 0int,
{
    if i < 0 || i >= ai.len() {
        true
    } else {
        node_eq(ai[i], bi[i]) && items_eq_from(ai, bi, i + 1)
    }
}

/// The index found by `eq_key_index` lies in range.
proof fn lemma_eq_key_index_range(
    ap: Seq<(CustomNode, CustomNode)>,
    bp: Seq<(CustomNode, CustomNode)>,
    i: int,
    j: int,
)
    ensures
        eq_key_index(ap, bp, i, j) matches Some(k) ==> j <= k < bp.len(),
    decreases bp.len() - j,
{
    if 0 <= i < ap.len() && 0 <= j < bp.len() && !node_eq(ap[i].0, bp[j].0) {
        lemma_eq_key_index_range(ap, bp, i, j + 1);
    }
}

fn comment_eq(a: &Option<Comment>, b: &Option<Comment>) -> (res: bool)
    ensures
        res == (comment_view(*a) == comment_view(*b)),
{
    match (a, b) {
        (Some(x), Some(y)) => str_equals(x.text.as_str(), y.text.as_str()) && x.standalone == y.standalone,
        (None, None) => true,
        _ => false,
    }
}

fn name_eq(a: &Option<String>, b: &Option<String>) -> (res: bool)
    ensures
        res == (name_view(*a) == name_view(*b)),
{
    match (a, b) {
        (Some(x), Some(y)) => str_equals(x.as_str(), y.as_str()),
        (None, None) => true,
        _ => false,
    }
}

fn tag_eq(a: &Option<Tag>, b: &Option<Tag>) -> (res: bool)
    ensures
        res == (tag_view(*a) == tag_view(*b)),
{
    match (a, b) {
        (Some(x), Some(y)) => str_equals(x.handle.as_str(), y.handle.as_str()) && str_equals(
            x.suffix.as_str(),
            y.suffix.as_str(),
        ),
        (None, None) => true,
        _ => false,
    }
}

/// Whether two metadata records agree on comment, anchor and tag.
pub fn meta_eq(a: &NodeMeta, b: &NodeMeta) -> (res: bool)
    ensures
        res == meta_matches(*a, *b),
{
    comment_eq(&a.comment, &b.comment) && name_eq(&a.anchor, &b.anchor) && tag_eq(&a.tag, &b.tag)
}

/// Position of the first key of `bp` equal to the key of pair `i` of `ap`.
fn find_eq_key(ap: &Vec<(CustomNode, CustomNode)>, bp: &Vec<(CustomNode, CustomNode)>, i: usize) -> (res:
    Option<usize>)
    requires
        i < ap@.len(),
    ensures
        match eq_key_index(ap@, bp@, i as int, 0) {
            Some(k) => res == Some(k as usize),
            None => res is None,
        },
    decreases ap@[i as int].0, 1int, 0int, 0int,
{
    let mut j: usize = 0;
    while j < bp.len()
        invariant
            i < ap@.len(),
            0 <= j <= bp@.len(),
            eq_key_index(ap@, bp@, i as int, 0) == eq_key_index(ap@, bp@, i as int, j as int),
        decreases bp@.len() - j,
    {
        if nodes_equal(&ap[i].0, &bp[j].0) {
            return Some(j);
        }
        j = j + 1;
    }
    None
}

/// Whether two nodes are equal (see `node_eq`).
#[verifier::loop_isolation(false)]
pub fn nodes_equal(a: &CustomNode, b: &CustomNode) -> (res: bool)
    ensures
        res == node_eq(*a, *b),
    decreases a, 0int, 0int, 0int,
{
    match (a, b) {
        (
            CustomNode::Scalar { value, style, chomping, meta },
            CustomNode::Scalar { value: v2, style: s2, chomping: c2, meta: m2 },
        ) => str_equals(value.as_str(), v2.as_str()) && *style == *s2 && *chomping == *c2 && meta_eq(
            meta,
            m2,
        ),
        (
            CustomNode::Mapping { pairs: ap, flow_style, meta },
            CustomNode::Mapping { pairs: bp, flow_style: f2, meta: m2 },
        ) => {
            if ap.len() != bp.len() || *flow_style != *f2 || !meta_eq(meta, m2) {
                return false;
            }
            let mut i: usize = 0;
            while i < ap.len()
                invariant
                    0 <= i <= ap@.len(),
                    ap@.len() == bp@.len(),
                    pairs_eq_from(ap@, bp@, 0) == pairs_eq_from(ap@, bp@, i as int),
                decreases ap@.len() - i,
            {
                match find_eq_key(ap, bp, i) {
                    Some(j) => {
                        proof {
                            lemma_eq_key_index_range(ap@, bp@, i as int, 0);
                        }
                        if !nodes_equal(&ap[i].1, &bp[j].1) {
                            return false;
                        }
                    },
                    None => {
                        return false;
                    },
                }
                i = i + 1;
            }
            true
        },
        (
            CustomNode::Sequence { items: ai, flow_style, meta },
            CustomNode::Sequence { items: bi, flow_style: f2, meta: m2 },
        ) => {
            if ai.len() != bi.len() || *flow_style != *f2 || !meta_eq(meta, m2) {
                return false;
            }
            let mut i: usize = 0;
            while i < ai.len()
                invariant
                    0 <= i <= ai@.len(),
                    ai@.len() == bi@.len(),
                    items_eq_from(ai@, bi@, 0) == items_eq_from(ai@, bi@, i as int),
                decreases ai@.len() - i,
            {
                if !nodes_equal(&ai[i], &bi[i]) {
                    return false;
                }
                i = i + 1;
            }
            true
        },
        (CustomNode::Null { meta }, CustomNode::Null { meta: m2 }) => meta_eq(meta, m2),
        (CustomNode::Alias { name }, CustomNode::Alias { name: n2 }) => str_equals(
            name.as_str(),
            n2.as_str(),
        ),
        _ => false,
    }
}

impl PartialEq for CustomNode {
    fn eq(&self, other: &Self) -> (res: bool) {
        nodes_equal(self, other)
    }
}

impl PartialEqSpecImpl for CustomNode {
    open spec fn obeys_eq_spec() -> bool {
        true
    }

    open spec fn eq_spec(&self, other: &CustomNode) -> bool {
        node_eq(*self, *other)
    }
}

/// No two keys of any mapping in the tree are equal.
pub open spec fn keys_distinct(n: CustomNode) -> bool
    decreases n, 0int, 0int,
{
    match n {
        CustomNode::Mapping { pairs, .. } => {
            &&& forall|i: int, j: int|
                0 <= j < i < pairs@.len() ==> !node_eq(#[trigger] pairs@[i].0, #[trigger] pairs@[j].0)
            &&& pairs_distinct(pairs@, 0)
        },
        CustomNode::Sequence { items, .. } => items_distinct(items@, 0),
        _ => true,
    }
}

/// Keys and values of `ps` from index `i` on have distinct keys throughout.
pub open spec fn pairs_distinct(ps: Seq<(CustomNode, CustomNode)>, i: int) -> bool
    decreases ps, ps.len() - i, 0int,
{
    if i < 0 || i >= ps.len() {
        true
    } else {
        keys_distinct(ps[i].0) && keys_distinct(ps[i].1) && pairs_distinct(ps, i + 1)
    }
}

/// Items of `xs` from index `i` on have distinct keys throughout.
pub open spec fn items_distinct(xs: Seq<CustomNode>, i: int) -> bool
    decreases xs, xs.len() - i, 0int,
{
    if i < 0 || i >= xs.len() {
        true
    } else {
        keys_distinct(xs[i]) && items_distinct(xs, i + 1)
    }
}

/// Equality is reflexive on trees whose mappings have distinct keys.
pub proof fn law_node_eq_reflexive(n: CustomNode)
    requires
        keys_distinct(n),
    ensures
        node_eq(n, n),
    decreases n, 0int, 0int, 0int,
{
    match n {
        CustomNode::Mapping { pairs, .. } => {
            lemma_pairs_reflexive(pairs@, 0);
        },
        CustomNode::Sequence { items, .. } => {
            lemma_items_reflexive(items@, 0);
        },
        _ => {},
    }
}

proof fn lemma_pairs_reflexive(ps: Seq<(CustomNode, CustomNode)>, i: int)
    requires
        pairs_distinct(ps, i),
        forall|a: int, b: int| 0 <= b < a < ps.len() ==> !node_eq(#[trigger] ps[a].0, #[trigger] ps[b].0),
    ensures
        pairs_eq_from(ps, ps, i),
    decreases ps, ps.len() - i, 1int, 0int,
{
    if 0 <= i < ps.len() {
        law_node_eq_reflexive(ps[i].0);
        law_node_eq_reflexive(ps[i].1);
        lemma_finds_itself(ps, i, 0);
        lemma_pairs_reflexive(ps, i + 1);
    }
}

proof fn lemma_finds_itself(ps: Seq<(CustomNode, CustomNode)>, i: int, j: int)
    requires
        0 <= j <= i < ps.len(),
        node_eq(ps[i].0, ps[i].0),
        forall|a: int, b: int| 0 <= b < a < ps.len() ==> !node_eq(#[trigger] ps[a].0, #[trigger] ps[b].0),
    ensures
        eq_key_index(ps, ps, i, j) == Some(i),
    decreases i - j,
{
    if j < i {
        assert(!node_eq(ps[i].0, ps[j].0));
        lemma_finds_itself(ps, i, j + 1);
    }
}

proof fn lemma_items_reflexive(xs: Seq<CustomNode>, i: int)
    requires
        items_distinct(xs, i),
    ensures
        items_eq_from(xs, xs, i),
    decreases xs, xs.len() - i, 0int, 0int,
{
    if 0 <= i < xs.len() {
        law_node_eq_reflexive(xs[i]);
        lemma_items_reflexive(xs, i + 1);
    }
}

/// Equality leaves byte provenance out: a node equals itself with another
/// source range (on trees whose mappings have distinct keys).
pub proof fn law_node_eq_ignores_source_range(n: CustomNode, r: Option<std::ops::Range<usize>>)
    requires
        keys_distinct(n),
    ensures
        n.meta_of() matches Some(m) ==> node_eq(n.with_meta(NodeMeta { source_range: r, ..m }), n),
{
    law_node_eq_reflexive(n);
}

} // verus!
