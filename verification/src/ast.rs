//! AST node types with full metadata for round-trip support.
use std::ops::Range;
use crate::text::{string_from, str_equals};
use vstd::prelude::*;

verus! {

/// Scalar style preservation for round-trip support.
#[derive(Debug, Clone, Copy, PartialEq, Eq, Structural, Hash)]
pub enum ScalarStyle {
    /// Plain scalar (no quotes)
    Plain,
    /// Single-quoted scalar
    SingleQuoted,
    /// Double-quoted scalar
    DoubleQuoted,
    /// Literal block scalar (|)
    Literal,
    /// Folded block scalar (>)
    Folded,
}

/// Chomping indicator for block scalars (YAML 1.2).
#[derive(Debug, Clone, Copy, PartialEq, Eq, Structural, Hash)]
pub enum Chomping {
    /// Strip chomping (-): final newline is stripped
    Strip,
    /// Clip chomping (default): single final newline kept
    Clip,
    /// Keep chomping (+): all newlines preserved
    Keep,
}

impl Default for Chomping {
    fn default() -> (res: Self)
        ensures
            res == Chomping::Clip,
    {
        Chomping::Clip
    }
}

/// Comment attached to a node.
#[derive(Debug, PartialEq, Eq, Hash)]
pub struct Comment {
    /// The comment text (without `#` prefix)
    pub text: String,
    /// Whether this is a standalone line comment (true) or line-end comment (false)
    pub standalone: bool,
}

impl Clone for Comment {
    fn clone(&self) -> (res: Self)
        ensures
            res == *self,
    {
        Comment { text: self.text.clone(), standalone: self.standalone }
    }
}

/// YAML tag (e.g. `!!str`, `!!int`, `!custom`).
#[derive(Debug, PartialEq, Eq, Hash)]
pub struct Tag {
    /// The handle (`"!!"` or `"!"`); empty for verbatim tags
    pub handle: String,
    /// The suffix (e.g. `"str"`, `"int"`, `"null"`)
    pub suffix: String,
}

impl Clone for Tag {
    fn clone(&self) -> (res: Self)
        ensures
            res == *self,
    {
        Tag { handle: self.handle.clone(), suffix: self.suffix.clone() }
    }
}

/// How a tag is written: `!` for the bare local tag, `!!suffix`, `!suffix`,
/// `!<suffix>` for a verbatim tag, otherwise handle then suffix.
pub open spec fn tag_text(handle: Seq<char>, suffix: Seq<char>) -> Seq<char> {
    if handle == "!"@ && suffix.len() == 0 {
        "!"@
    } else if handle == "!!"@ {
        "!!"@ + suffix
    } else if handle == "!"@ {
        "!"@ + suffix
    } else if handle.len() == 0 && suffix != "!"@ {
        "!<"@ + suffix + ">"@
    } else {
        handle + suffix
    }
}

impl Tag {
    /// Create a local tag (`!suffix`).
    pub fn local(suffix: &str) -> (res: Self)
        ensures
            res.handle@ == "!"@,
            res.suffix@ == suffix@,
    {
        Tag { handle: string_from("!"), suffix: string_from(suffix) }
    }

    /// Create a primary tag (`!!suffix`).
    pub fn primary(suffix: &str) -> (res: Self)
        ensures
            res.handle@ == "!!"@,
            res.suffix@ == suffix@,
    {
        Tag { handle: string_from("!!"), suffix: string_from(suffix) }
    }

    /// Create a verbatim tag (`!<suffix>`).
    pub fn verbatim(suffix: &str) -> (res: Self)
        ensures
            res.handle@.len() == 0,
            res.suffix@ == suffix@,
    {
        Tag { handle: String::new(), suffix: string_from(suffix) }
    }

    /// The tag as written in YAML.
    pub fn to_tag_string(&self) -> (res: String)
        ensures
            res@ == tag_text(self.handle@, self.suffix@),
    {
        let h = self.handle.as_str();
        let sfx = self.suffix.as_str();
        let mut out;
        if str_equals(h, "!") && sfx.is_empty() {
            out = string_from("!");
        } else if str_equals(h, "!!") {
            out = string_from("!!");
            out.append(sfx);
        } else if str_equals(h, "!") {
            out = string_from("!");
            out.append(sfx);
        } else if h.is_empty() && !str_equals(sfx, "!") {
            out = string_from("!<");
            out.append(sfx);
            out.append(">");
        } else {
            out = string_from(h);
            out.append(sfx);
        }
        out
    }
}

/// Metadata shared by all content-bearing node variants (not Alias).
#[derive(Debug, PartialEq, Eq)]
pub struct NodeMeta {
    /// Comment attached to the node.
    pub comment: Option<Comment>,
    /// Anchor name for this node.
    pub anchor: Option<String>,
    /// YAML tag.
    pub tag: Option<Tag>,
    /// Byte range of this node in the original source text.
    pub source_range: Option<Range<usize>>,
}

/// A copy of an optional value whose clone is exact.
fn clone_comment(c: &Option<Comment>) -> (res: Option<Comment>)
    ensures
        res == *c,
{
    match c {
        Some(x) => Some(x.clone()),
        None => None,
    }
}

fn clone_string(c: &Option<String>) -> (res: Option<String>)
    ensures
        res == *c,
{
    match c {
        Some(x) => Some(x.clone()),
        None => None,
    }
}

fn clone_tag(c: &Option<Tag>) -> (res: Option<Tag>)
    ensures
        res == *c,
{
    match c {
        Some(x) => Some(x.clone()),
        None => None,
    }
}

impl Clone for NodeMeta {
    fn clone(&self) -> (res: Self)
        ensures
            res == *self,
    {
        NodeMeta {
            comment: clone_comment(&self.comment),
            anchor: clone_string(&self.anchor),
            tag: clone_tag(&self.tag),
            source_range: match &self.source_range {
                Some(r) => Some(r.start..r.end),
                None => None,
            },
        }
    }
}

impl Default for NodeMeta {
    fn default() -> (res: Self)
        ensures
            res == NodeMeta::empty(),
    {
        NodeMeta { comment: None, anchor: None, tag: None, source_range: None }
    }
}

impl NodeMeta {
    /// Metadata with nothing set.
    pub open spec fn empty() -> NodeMeta {
        NodeMeta { comment: None, anchor: None, tag: None, source_range: None }
    }

    /// A copy of the comment, anchor and tag, without a source range.
    pub fn without_range(&self) -> (res: NodeMeta)
        ensures
            res == (NodeMeta { source_range: None, ..*self }),
    {
        NodeMeta {
            comment: clone_comment(&self.comment),
            anchor: clone_string(&self.anchor),
            tag: clone_tag(&self.tag),
            source_range: None,
        }
    }
}

/// AST node with full metadata for round-trip support. A mapping keeps its
/// pairs in document order.
#[derive(Debug)]
pub enum CustomNode {
    Scalar {
        value: String,
        style: ScalarStyle,
        /// Chomping indicator for block scalars (`|+`, `|-`, `>+`, `>-`)
        chomping: Chomping,
        meta: NodeMeta,
    },
    Mapping {
        pairs: Vec<(CustomNode, CustomNode)>,
        /// Whether this mapping uses flow style (`{key: value}`)
        flow_style: bool,
        meta: NodeMeta,
    },
    Sequence {
        items: Vec<CustomNode>,
        /// Whether this sequence uses flow style (`[item]`)
        flow_style: bool,
        meta: NodeMeta,
    },
    Null { meta: NodeMeta },
    /// Alias reference (`*alias`)
    Alias { name: String },
}

/// Two nodes are the same tree: equal leaves, and containers with the same
/// style, metadata and pairwise-same children.
pub open spec fn same_node(a: CustomNode, b: CustomNode) -> bool
    decreases a,
{
    match a {
        CustomNode::Mapping { pairs, flow_style, meta } => match b {
            CustomNode::Mapping { pairs: p2, flow_style: f2, meta: m2 } => {
                &&& flow_style == f2
                &&& meta == m2
                &&& pairs@.len() == p2@.len()
                &&& forall|i: int|
                    0 <= i < pairs@.len() ==> same_node(#[trigger] pairs@[i].0, p2@[i].0)
                        && same_node(pairs@[i].1, p2@[i].1)
            },
            _ => false,
        },
        CustomNode::Sequence { items, flow_style, meta } => match b {
            CustomNode::Sequence { items: i2, flow_style: f2, meta: m2 } => {
                &&& flow_style == f2
                &&& meta == m2
                &&& items@.len() == i2@.len()
                &&& forall|i: int| 0 <= i < items@.len() ==> same_node(#[trigger] items@[i], i2@[i])
            },
            _ => false,
        },
        _ => a == b,
    }
}

impl Clone for CustomNode {
    #[verifier::loop_isolation(false)]
    fn clone(&self) -> (res: Self)
        ensures
            same_node(res, *self),
        decreases self,
    {
        match self {
            CustomNode::Scalar { value, style, chomping, meta } => CustomNode::Scalar {
                value: value.clone(),
                style: *style,
                chomping: *chomping,
                meta: meta.clone(),
            },
            CustomNode::Mapping { pairs, flow_style, meta } => {
                let mut out: Vec<(CustomNode, CustomNode)> = Vec::new();
                let mut i: usize = 0;
                while i < pairs.len()
                    invariant
                        0 <= i <= pairs@.len(),
                        out@.len() == i,
                        forall|j: int|
                            0 <= j < i ==> same_node(#[trigger] out@[j].0, pairs@[j].0) && same_node(
                                out@[j].1,
                                pairs@[j].1,
                            ),
                    decreases pairs@.len() - i,
                {
                    let k = pairs[i].0.clone();
                    let v = pairs[i].1.clone();
                    out.push((k, v));
                    i = i + 1;
                }
                CustomNode::Mapping { pairs: out, flow_style: *flow_style, meta: meta.clone() }
            },
            CustomNode::Sequence { items, flow_style, meta } => {
                let mut out: Vec<CustomNode> = Vec::new();
                let mut i: usize = 0;
                while i < items.len()
                    invariant
                        0 <= i <= items@.len(),
                        out@.len() == i,
                        forall|j: int| 0 <= j < i ==> same_node(#[trigger] out@[j], items@[j]),
                    decreases items@.len() - i,
                {
                    out.push(items[i].clone());
                    i = i + 1;
                }
                CustomNode::Sequence { items: out, flow_style: *flow_style, meta: meta.clone() }
            },
            CustomNode::Null { meta } => CustomNode::Null { meta: meta.clone() },
            CustomNode::Alias { name } => CustomNode::Alias { name: name.clone() },
        }
    }
}

impl CustomNode {
    /// The shared metadata of a content-bearing node; `None` for an alias.
    pub open spec fn meta_of(self) -> Option<NodeMeta> {
        match self {
            CustomNode::Scalar { meta, .. } => Some(meta),
            CustomNode::Mapping { meta, .. } => Some(meta),
            CustomNode::Sequence { meta, .. } => Some(meta),
            CustomNode::Null { meta } => Some(meta),
            CustomNode::Alias { .. } => None,
        }
    }

    /// The node with its metadata replaced (an alias is left as it is).
    pub open spec fn with_meta(self, m: NodeMeta) -> CustomNode {
        match self {
            CustomNode::Scalar { value, style, chomping, .. } => CustomNode::Scalar {
                value,
                style,
                chomping,
                meta: m,
            },
            CustomNode::Mapping { pairs, flow_style, .. } => CustomNode::Mapping {
                pairs,
                flow_style,
                meta: m,
            },
            CustomNode::Sequence { items, flow_style, .. } => CustomNode::Sequence {
                items,
                flow_style,
                meta: m,
            },
            CustomNode::Null { .. } => CustomNode::Null { meta: m },
            CustomNode::Alias { name } => CustomNode::Alias { name },
        }
    }

    /// A plain scalar without metadata.
    pub fn plain_scalar(value: &str) -> (res: Self)
        ensures
            res matches CustomNode::Scalar { value: v, style, chomping, meta } && v@ == value@
                && style == ScalarStyle::Plain && chomping == Chomping::Clip && meta
                == NodeMeta::empty(),
    {
        CustomNode::Scalar {
            value: string_from(value),
            style: ScalarStyle::Plain,
            chomping: Chomping::Clip,
            meta: NodeMeta::default(),
        }
    }

    /// A single-quoted scalar without metadata.
    pub fn quoted_scalar(value: &str) -> (res: Self)
        ensures
            res matches CustomNode::Scalar { value: v, style, chomping, meta } && v@ == value@
                && style == ScalarStyle::SingleQuoted && chomping == Chomping::Clip && meta
                == NodeMeta::empty(),
    {
        CustomNode::Scalar {
            value: string_from(value),
            style: ScalarStyle::SingleQuoted,
            chomping: Chomping::Clip,
            meta: NodeMeta::default(),
        }
    }

    /// A double-quoted scalar without metadata.
    pub fn double_quoted_scalar(value: &str) -> (res: Self)
        ensures
            res matches CustomNode::Scalar { value: v, style, chomping, meta } && v@ == value@
                && style == ScalarStyle::DoubleQuoted && chomping == Chomping::Clip && meta
                == NodeMeta::empty(),
    {
        CustomNode::Scalar {
            value: string_from(value),
            style: ScalarStyle::DoubleQuoted,
            chomping: Chomping::Clip,
            meta: NodeMeta::default(),
        }
    }

    /// A block mapping without metadata.
    pub fn plain_mapping(pairs: Vec<(CustomNode, CustomNode)>) -> (res: Self)
        ensures
            res == (CustomNode::Mapping { pairs, flow_style: false, meta: NodeMeta::empty() }),
    {
        CustomNode::Mapping { pairs, flow_style: false, meta: NodeMeta::default() }
    }

    /// A block sequence without metadata.
    pub fn plain_sequence(items: Vec<CustomNode>) -> (res: Self)
        ensures
            res == (CustomNode::Sequence { items, flow_style: false, meta: NodeMeta::empty() }),
    {
        CustomNode::Sequence { items, flow_style: false, meta: NodeMeta::default() }
    }

    /// A null node without metadata.
    pub fn plain_null() -> (res: Self)
        ensures
            res == (CustomNode::Null { meta: NodeMeta::empty() }),
    {
        CustomNode::Null { meta: NodeMeta::default() }
    }

    /// The node's metadata; `None` for an alias.
    pub fn meta(&self) -> (res: Option<&NodeMeta>)
        ensures
            match self.meta_of() {
                Some(m) => res == Some(&m),
                None => res is None,
            },
    {
        match self {
            CustomNode::Scalar { meta, .. } => Some(meta),
            CustomNode::Mapping { meta, .. } => Some(meta),
            CustomNode::Sequence { meta, .. } => Some(meta),
            CustomNode::Null { meta } => Some(meta),
            CustomNode::Alias { .. } => None,
        }
    }

    /// The comment attached to the node; `None` for an alias.
    pub fn comment(&self) -> (res: Option<&Comment>)
        ensures
            res == match self.meta_of() {
                Some(m) => match m.comment {
                    Some(c) => Some(&c),
                    None => None,
                },
                None => None,
            },
    {
        match self.meta() {
            Some(m) => match &m.comment {
                Some(c) => Some(c),
                None => None,
            },
            None => None,
        }
    }

    /// The node's byte range in the original source; `None` when unknown.
    pub fn source_range(&self) -> (res: Option<&Range<usize>>)
        ensures
            res == match self.meta_of() {
                Some(m) => match m.source_range {
                    Some(r) => Some(&r),
                    None => None,
                },
                None => None,
            },
    {
        match self.meta() {
            Some(m) => match &m.source_range {
                Some(r) => Some(r),
                None => None,
            },
            None => None,
        }
    }

    /// The node's anchor name; `None` for an alias.
    pub fn anchor(&self) -> (res: Option<&str>)
        ensures
            match self.meta_of() {
                Some(m) => match m.anchor {
                    Some(a) => res matches Some(r) && r@ == a@,
                    None => res is None,
                },
                None => res is None,
            },
    {
        match self.meta() {
            Some(m) => match &m.anchor {
                Some(a) => Some(a.as_str()),
                None => None,
            },
            None => None,
        }
    }

    /// The node's tag; `None` for an alias.
    pub fn tag(&self) -> (res: Option<&Tag>)
        ensures
            res == match self.meta_of() {
                Some(m) => match m.tag {
                    Some(t) => Some(&t),
                    None => None,
                },
                None => None,
            },
    {
        match self.meta() {
            Some(m) => match &m.tag {
                Some(t) => Some(t),
                None => None,
            },
            None => None,
        }
    }

    /// Replace the metadata of a content-bearing node (no-op on an alias).
    fn update_meta(&mut self, m: NodeMeta)
        ensures
            *final(self) == old(self).with_meta(m),
    {
        match self {
            CustomNode::Scalar { meta, .. } => {
                *meta = m;
            },
            CustomNode::Mapping { meta, .. } => {
                *meta = m;
            },
            CustomNode::Sequence { meta, .. } => {
                *meta = m;
            },
            CustomNode::Null { meta } => {
                *meta = m;
            },
            CustomNode::Alias { .. } => {},
        }
    }

    /// Attach a comment (no-op on an alias).
    pub fn set_comment(&mut self, new_comment: Comment)
        ensures
            *final(self) == match old(self).meta_of() {
                Some(m) => old(self).with_meta(NodeMeta { comment: Some(new_comment), ..m }),
                None => *old(self),
            },
    {
        if let Some(m) = self.meta() {
            let mut nm = m.clone();
            nm.comment = Some(new_comment);
            self.update_meta(nm);
        }
    }

    /// Record the node's source byte range (no-op on an alias).
    pub fn set_source_range(&mut self, r: Range<usize>)
        ensures
            *final(self) == match old(self).meta_of() {
                Some(m) => old(self).with_meta(NodeMeta { source_range: Some(r), ..m }),
                None => *old(self),
            },
    {
        if let Some(m) = self.meta() {
            let mut nm = m.clone();
            nm.source_range = Some(r);
            self.update_meta(nm);
        }
    }

    /// Set the node's anchor name (no-op on an alias).
    pub fn set_anchor(&mut self, name: &str)
        ensures
            match old(self).meta_of() {
                Some(m) => final(self).meta_of() matches Some(nm) && nm.anchor matches Some(a) && a@
                    == name@ && *final(self) == old(self).with_meta(NodeMeta { anchor: nm.anchor, ..m }),
                None => *final(self) == *old(self),
            },
    {
        if let Some(m) = self.meta() {
            let mut nm = m.clone();
            nm.anchor = Some(string_from(name));
            self.update_meta(nm);
        }
    }

    /// Remove the node's anchor (no-op on an alias).
    pub fn remove_anchor(&mut self)
        ensures
            *final(self) == match old(self).meta_of() {
                Some(m) => old(self).with_meta(NodeMeta { anchor: None, ..m }),
                None => *old(self),
            },
    {
        if let Some(m) = self.meta() {
            let mut nm = m.clone();
            nm.anchor = None;
            self.update_meta(nm);
        }
    }

    /// Remove the node's comment (no-op on an alias).
    pub fn remove_comment(&mut self)
        ensures
            *final(self) == match old(self).meta_of() {
                Some(m) => old(self).with_meta(NodeMeta { comment: None, ..m }),
                None => *old(self),
            },
    {
        if let Some(m) = self.meta() {
            let mut nm = m.clone();
            nm.comment = None;
            self.update_meta(nm);
        }
    }

    /// Remove the node's tag (no-op on an alias).
    pub fn remove_tag(&mut self)
        ensures
            *final(self) == match old(self).meta_of() {
                Some(m) => old(self).with_meta(NodeMeta { tag: None, ..m }),
                None => *old(self),
            },
    {
        if let Some(m) = self.meta() {
            let mut nm = m.clone();
            nm.tag = None;
            self.update_meta(nm);
        }
    }

    /// Set the node's tag (no-op on an alias).
    pub fn set_tag(&mut self, new_tag: Tag)
        ensures
            *final(self) == match old(self).meta_of() {
                Some(m) => old(self).with_meta(NodeMeta { tag: Some(new_tag), ..m }),
                None => *old(self),
            },
    {
        if let Some(m) = self.meta() {
            let mut nm = m.clone();
            nm.tag = Some(new_tag);
            self.update_meta(nm);
        }
    }
}

/// The nodes of a tree in depth-first pre-order (mapping values and sequence
/// items, not mapping keys); with `leaves_only`, only scalars and nulls.
pub open spec fn preorder(n: CustomNode, leaves_only: bool) -> Seq<CustomNode>
    decreases n, 0int, 0int,
{
    let me = if !leaves_only || n is Scalar || n is Null {
        seq![n]
    } else {
        Seq::empty()
    };
    match n {
        CustomNode::Mapping { pairs, .. } => me + preorder_values(pairs@, 0, leaves_only),
        CustomNode::Sequence { items, .. } => me + preorder_items(items@, 0, leaves_only),
        _ => me,
    }
}

/// The pre-order of the values of `ps` from index `i` on.
pub open spec fn preorder_values(ps: Seq<(CustomNode, CustomNode)>, i: int, leaves_only: bool) -> Seq<
    CustomNode,
>
    decreases ps, ps.len() - i, 0int,
{
    if i < 0 || i >= ps.len() {
        Seq::empty()
    } else {
        preorder(ps[i].1, leaves_only) + preorder_values(ps, i + 1, leaves_only)
    }
}

/// The pre-order of the items of `xs` from index `i` on.
pub open spec fn preorder_items(xs: Seq<CustomNode>, i: int, leaves_only: bool) -> Seq<CustomNode>
    decreases xs, xs.len() - i, 0int,
{
    if i < 0 || i >= xs.len() {
        Seq::empty()
    } else {
        preorder(xs[i], leaves_only) + preorder_items(xs, i + 1, leaves_only)
    }
}

/// `p` is the path holding just `n`.
pub open spec fn holds_one(p: Vec<&CustomNode>, n: CustomNode) -> bool {
    p@.len() == 1 && *p@[0] == n
}

/// Each path of `paths` holds just the node at the same place in `nodes`.
pub open spec fn single_paths(paths: Seq<Vec<&CustomNode>>, nodes: Seq<CustomNode>) -> bool {
    &&& paths.len() == nodes.len()
    &&& forall|i: int| 0 <= i < nodes.len() ==> #[trigger] holds_one(paths[i], nodes[i])
}

/// Append the one-node paths of the pre-order of `node` to `out`.
fn collect<'a>(node: &'a CustomNode, leaves_only: bool, out: &mut Vec<Vec<&'a CustomNode>>)
    ensures
        final(out)@.len() == old(out)@.len() + preorder(*node, leaves_only).len(),
        forall|k: int| 0 <= k < old(out)@.len() ==> #[trigger] final(out)@[k] == old(out)@[k],
        forall|k: int|
            0 <= k < preorder(*node, leaves_only).len() ==> #[trigger] holds_one(final(out)@[old(out)@.len() + k], preorder(*node, leaves_only)[k]),
    decreases node, 0int, 0int,
{
    let ghost start = out@.len() as int;
    let ghost out0 = out@;
    let listed = match node {
        CustomNode::Scalar { .. } => true,
        CustomNode::Null { .. } => true,
        _ => !leaves_only,
    };
    if listed {
        let mut path: Vec<&'a CustomNode> = Vec::new();
        path.push(node);
        out.push(path);
    }
    let ghost me: Seq<CustomNode> = if listed {
        seq![*node]
    } else {
        Seq::empty()
    };
    let ghost mut done: Seq<CustomNode> = me;
    match node {
        CustomNode::Mapping { pairs, .. } => {
            let mut i: usize = 0;
            assert(preorder(*node, leaves_only) == done + preorder_values(pairs@, 0, leaves_only));
            while i < pairs.len()
                invariant
                    0 <= i <= pairs@.len(),
                    *node matches CustomNode::Mapping { pairs: p, .. } && p == *pairs,
                    preorder(*node, leaves_only) == done + preorder_values(pairs@, i as int, leaves_only),
                    out@.len() == start + done.len(),
                    start == out0.len(),
                    forall|k: int| 0 <= k < start ==> #[trigger] out@[k] == out0[k],
                    forall|k: int| 0 <= k < done.len() ==> #[trigger] holds_one(out@[start + k], done[k]),
                decreases pairs@.len() - i,
            {
                let ghost before = out@;
                collect(&pairs[i].1, leaves_only, out);
                proof {
                    let sub = preorder(pairs@[i as int].1, leaves_only);
                    assert(preorder_values(pairs@, i as int, leaves_only) == sub + preorder_values(
                        pairs@,
                        i + 1,
                        leaves_only,
                    ));
                    assert(done + (sub + preorder_values(pairs@, i + 1, leaves_only)) =~= (done + sub)
                        + preorder_values(pairs@, i + 1, leaves_only));
                    assert forall|k: int| 0 <= k < done.len() + sub.len() implies #[trigger] holds_one(out@[start
                        + k], (done + sub)[k]) by {
                        if k < done.len() {
                            assert(0 <= start + k < before.len());
                            assert(out@[start + k] == before[start + k]);
                        } else {
                            assert(holds_one(out@[before.len() + (k - done.len())], sub[k - done.len()]));
                        }
                    }
                    done = done + sub;
                }
                i = i + 1;
            }
            assert(preorder_values(pairs@, i as int, leaves_only) =~= Seq::empty());
            assert(done + Seq::<CustomNode>::empty() =~= done);
        },
        CustomNode::Sequence { items, .. } => {
            let mut i: usize = 0;
            assert(preorder(*node, leaves_only) == done + preorder_items(items@, 0, leaves_only));
            while i < items.len()
                invariant
                    0 <= i <= items@.len(),
                    *node matches CustomNode::Sequence { items: p, .. } && p == *items,
                    preorder(*node, leaves_only) == done + preorder_items(items@, i as int, leaves_only),
                    out@.len() == start + done.len(),
                    start == out0.len(),
                    forall|k: int| 0 <= k < start ==> #[trigger] out@[k] == out0[k],
                    forall|k: int| 0 <= k < done.len() ==> #[trigger] holds_one(out@[start + k], done[k]),
                decreases items@.len() - i,
            {
                let ghost before = out@;
                collect(&items[i], leaves_only, out);
                proof {
                    let sub = preorder(items@[i as int], leaves_only);
                    assert(preorder_items(items@, i as int, leaves_only) == sub + preorder_items(
                        items@,
                        i + 1,
                        leaves_only,
                    ));
                    assert(done + (sub + preorder_items(items@, i + 1, leaves_only)) =~= (done + sub)
                        + preorder_items(items@, i + 1, leaves_only));
                    assert forall|k: int| 0 <= k < done.len() + sub.len() implies #[trigger] holds_one(out@[start
                        + k], (done + sub)[k]) by {
                        if k < done.len() {
                            assert(0 <= start + k < before.len());
                            assert(out@[start + k] == before[start + k]);
                        } else {
                            assert(holds_one(out@[before.len() + (k - done.len())], sub[k - done.len()]));
                        }
                    }
                    done = done + sub;
                }
                i = i + 1;
            }
            assert(preorder_items(items@, i as int, leaves_only) =~= Seq::empty());
            assert(done + Seq::<CustomNode>::empty() =~= done);
        },
        _ => {
            assert(preorder(*node, leaves_only) == done);
        },
    }
}

/// Depth-first pre-order traversal yielding one path per node, each holding
/// that node.
pub fn walk(node: &CustomNode) -> (res: Vec<Vec<&CustomNode>>)
    ensures
        single_paths(res@, preorder(*node, false)),
{
    let mut out: Vec<Vec<&CustomNode>> = Vec::new();
    collect(node, false, &mut out);
    proof {
        assert forall|i: int| 0 <= i < preorder(*node, false).len() implies #[trigger] holds_one(out@[i], preorder(*node, false)[i]) by {
            assert(holds_one(out@[0 + i], preorder(*node, false)[i]));
        }
    }
    out
}

/// Depth-first pre-order traversal yielding one path per scalar or null node,
/// each holding that node.
pub fn scalars(node: &CustomNode) -> (res: Vec<Vec<&CustomNode>>)
    ensures
        single_paths(res@, preorder(*node, true)),
{
    let mut out: Vec<Vec<&CustomNode>> = Vec::new();
    collect(node, true, &mut out);
    proof {
        assert forall|i: int| 0 <= i < preorder(*node, true).len() implies #[trigger] holds_one(out@[i], preorder(*node, true)[i]) by {
            assert(holds_one(out@[0 + i], preorder(*node, true)[i]));
        }
    }
    out
}

} // verus!
