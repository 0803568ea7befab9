//! Serialization of a node tree back to YAML text.
//!
//! The text a tree gives is stated by `node_out`: an `Emit` that is the
//! text, or `TooDeep` when the nesting reaches the configured maximum depth
//! (an error for the caller), or `Stops` on the inputs on which the
//! formatter cannot proceed (a fold that would cut a character's UTF-8
//! encoding, or indentation beyond the machine word).
use crate::ast::{tag_text, Chomping, Comment, CustomNode, NodeMeta, ScalarStyle, Tag};
use crate::error::SerializeError;
use crate::scalar_fmt::{
    block_scalar, double_quoted, is_short_alphanumeric, plain_text, push_spaces,
    single_quoted, spaces, write_base_indent, write_double_quoted_scalar, write_plain_scalar,
    write_single_quoted_scalar,
};
use crate::text::push_char;
use vstd::prelude::*;
use vstd::string::*;

verus! {

/// Serialization options.
#[derive(Debug, Clone, Copy, PartialEq)]
pub struct SerializeOptions {
    pub indent_size: usize,
    pub explicit_start: bool,
    pub explicit_end: bool,
    pub sort_keys: bool,
    pub max_depth: usize,
    pub width: usize,
    pub indent_mapping: usize,
    pub indent_sequence: usize,
    pub indent_offset: usize,
}

impl Default for SerializeOptions {
    fn default() -> (res: Self)
        ensures
            res == SerializeOptions::spec_default(),
    {
        SerializeOptions {
            indent_size: 2,
            explicit_start: false,
            explicit_end: false,
            sort_keys: false,
            max_depth: 1000,
            width: 80,
            indent_mapping: 2,
            indent_sequence: 2,
            indent_offset: 0,
        }
    }
}

impl SerializeOptions {
    /// The default options: indent 2, no document markers, keys in
    /// document order, maximum depth 1000, width 80.
    pub open spec fn spec_default() -> SerializeOptions {
        SerializeOptions {
            indent_size: 2,
            explicit_start: false,
            explicit_end: false,
            sort_keys: false,
            max_depth: 1000,
            width: 80,
            indent_mapping: 2,
            indent_sequence: 2,
            indent_offset: 0,
        }
    }
}

/// What serializing a part of the tree gives.
pub enum Emit {
    /// The text.
    Text(Seq<char>),
    /// The nesting reached the maximum depth.
    TooDeep,
    /// An input on which the formatter cannot proceed.
    Stops,
}

/// `a` followed by `b`: the first failure wins.
pub open spec fn then(a: Emit, b: Emit) -> Emit {
    match a {
        Emit::Text(x) => match b {
            Emit::Text(y) => Emit::Text(x + y),
            other => other,
        },
        other => other,
    }
}

/// A text, or `Stops` where there is none.
pub open spec fn opt_emit(o: Option<Seq<char>>) -> Emit {
    match o {
        Some(t) => Emit::Text(t),
        None => Emit::Stops,
    }
}


pub proof fn lemma_then_empty(e: Emit)
    ensures
        then(Emit::Text(seq![]), e) == e,
        then(e, Emit::Text(seq![])) == e,
{
    match e {
        Emit::Text(x) => {
            assert(Seq::<char>::empty() + x =~= x);
            assert(x + Seq::<char>::empty() =~= x);
        },
        _ => {},
    }
}

/// `&anchor ` and `tag ` before a node's content.
pub open spec fn at_text(anchor: Option<String>, tag: Option<Tag>) -> Seq<char> {
    (match anchor {
        Some(a) => seq!['&'] + a@ + seq![' '],
        None => seq![],
    }) + (match tag {
        Some(t) => tag_text(t.handle@, t.suffix@) + seq![' '],
        None => seq![],
    })
}

/// A line-end comment after a node's content.
pub open spec fn inline_comment(meta: NodeMeta) -> Seq<char> {
    match meta.comment {
        Some(c) => if !c.standalone {
            "  # "@ + c.text@
        } else {
            seq![]
        },
        None => seq![],
    }
}

/// A line-end comment of a block container, written on its own line after
/// the contents.
pub open spec fn trailing_comment(meta: NodeMeta, indent: nat) -> Seq<char> {
    match meta.comment {
        Some(c) => if !c.standalone {
            spaces(indent) + "# "@ + c.text@ + seq!['\n']
        } else {
            seq![]
        },
        None => seq![],
    }
}

/// The comment of a node, if it has metadata and a comment.
pub open spec fn comment_of(n: CustomNode) -> Option<Comment> {
    match n.meta_of() {
        Some(m) => m.comment,
        None => None,
    }
}

/// A standalone comment line before a node.
pub open spec fn standalone_line(c: Option<Comment>, indent: nat) -> Seq<char> {
    match c {
        Some(c) => if c.standalone {
            spaces(indent) + "# "@ + c.text@ + seq!['\n']
        } else {
            seq![]
        },
        None => seq![],
    }
}

/// The text of a scalar in a given style; `remaining` is the room left on
/// the line for plain folding (0: no folding).
pub open spec fn scalar_text(
    value: Seq<char>,
    style: ScalarStyle,
    chomping: Chomping,
    remaining: nat,
    o: SerializeOptions,
) -> Option<Seq<char>> {
    match style {
        ScalarStyle::Plain => plain_text(value, remaining, o.width as nat),
        ScalarStyle::SingleQuoted => Some(single_quoted(value)),
        ScalarStyle::DoubleQuoted => Some(double_quoted(value)),
        ScalarStyle::Literal => Some(block_scalar('|', value, chomping, o.indent_size as nat)),
        ScalarStyle::Folded => Some(block_scalar('>', value, chomping, o.indent_size as nat)),
    }
}

/// A node written as a mapping key: a scalar in its style without folding,
/// anything else as `null`.
pub open spec fn key_text(n: CustomNode, o: SerializeOptions) -> Option<Seq<char>> {
    match n {
        CustomNode::Scalar { value, style, chomping, .. } => scalar_text(
            value@,
            style,
            chomping,
            0,
            o,
        ),
        _ => Some("null"@),
    }
}

/// A block (not flow) mapping or sequence.
pub open spec fn is_block_container(n: CustomNode) -> bool {
    match n {
        CustomNode::Mapping { flow_style, .. } => !flow_style,
        CustomNode::Sequence { flow_style, .. } => !flow_style,
        _ => false,
    }
}

/// A node that fits on the line of a key: scalars, nulls, aliases and flow
/// containers.
pub open spec fn inlineable(n: CustomNode) -> bool {
    match n {
        CustomNode::Mapping { flow_style, .. } => flow_style,
        CustomNode::Sequence { flow_style, .. } => flow_style,
        _ => true,
    }
}

/// A block mapping that can be written in the compact `- key: value`
/// sequence-item form: no comment, anchor or tag, not empty, no container
/// key, every value inlineable.
pub open spec fn compact_item(n: CustomNode) -> bool {
    match n {
        CustomNode::Mapping { pairs, flow_style, meta } => {
            &&& !flow_style
            &&& meta.comment is None
            &&& meta.anchor is None
            &&& meta.tag is None
            &&& pairs@.len() > 0
            &&& forall|i: int|
                0 <= i < pairs@.len() ==> !(#[trigger] pairs@[i].0 is Mapping) && !(
                pairs@[i].0 is Sequence) && inlineable(pairs@[i].1)
        },
        _ => false,
    }
}

/// ` &anchor` and ` tag` written after the colon of a block value.
pub open spec fn after_colon(v: CustomNode) -> Seq<char> {
    match v.meta_of() {
        Some(m) => (match m.anchor {
            Some(a) => " &"@ + a@,
            None => seq![],
        }) + (match m.tag {
            Some(t) => seq![' '] + tag_text(t.handle@, t.suffix@),
            None => seq![],
        }),
        None => seq![],
    }
}

/// The sort key of a mapping key: a scalar's text, else empty.
pub open spec fn sort_key(n: CustomNode) -> Seq<char> {
    match n {
        CustomNode::Scalar { value, .. } => value@,
        _ => seq![],
    }
}

/// Lexicographic order of texts by code point (the byte order of their
/// UTF-8 encodings).
pub open spec fn lex_le(a: Seq<char>, b: Seq<char>) -> bool
    decreases a.len(),
{
    if a.len() == 0 {
        true
    } else if b.len() == 0 {
        false
    } else if a[0] != b[0] {
        (a[0] as u32) < (b[0] as u32)
    } else {
        lex_le(a.drop_first(), b.drop_first())
    }
}

/// Number of leading entries of `order` whose key is at most `keys[i]`.
pub open spec fn insert_pos(keys: Seq<Seq<char>>, order: Seq<int>, i: int) -> nat
    decreases order.len(),
{
    if order.len() > 0 && lex_le(keys[order[0]], keys[i]) {
        1 + insert_pos(keys, order.drop_first(), i)
    } else {
        0
    }
}

/// Stable sort of positions `0..n` by their keys (each position inserted
/// after every earlier one whose key is not greater).
pub open spec fn sort_order(keys: Seq<Seq<char>>, n: nat) -> Seq<int>
    decreases n,
{
    if n == 0 {
        seq![]
    } else {
        let prev = sort_order(keys, (n - 1) as nat);
        prev.insert(insert_pos(keys, prev, n - 1) as int, n - 1)
    }
}

/// The sort keys of a mapping's pairs.
pub open spec fn pair_keys(ps: Seq<(CustomNode, CustomNode)>) -> Seq<Seq<char>> {
    ps.map_values(|p: (CustomNode, CustomNode)| sort_key(p.0))
}

/// The order in which a block mapping's pairs are written.
pub open spec fn pair_order(ps: Seq<(CustomNode, CustomNode)>, o: SerializeOptions) -> Seq<int> {
    if o.sort_keys {
        sort_order(pair_keys(ps), ps.len())
    } else {
        Seq::new(ps.len(), |i: int| i)
    }
}

/// A key and a value as a pair.
pub open spec fn pair_of(key: CustomNode, value: CustomNode) -> (CustomNode, CustomNode) {
    (key, value)
}

/// Whether a sum stays within the machine word.
pub open spec fn fits(a: nat, b: nat) -> bool {
    a + b <= usize::MAX
}

/// A scalar node at block position.
pub open spec fn scalar_node_out(
    value: Seq<char>,
    style: ScalarStyle,
    chomping: Chomping,
    meta: NodeMeta,
    indent: nat,
    o: SerializeOptions,
) -> Emit {
    match scalar_text(value, style, chomping, o.width as nat, o) {
        Some(t) => Emit::Text(
            spaces(indent) + at_text(meta.anchor, meta.tag) + t + inline_comment(meta) + seq!['\n'],
        ),
        None => Emit::Stops,
    }
}

/// A null node at block position.
pub open spec fn null_node_out(meta: NodeMeta, indent: nat) -> Seq<char> {
    spaces(indent) + at_text(meta.anchor, meta.tag) + "null"@ + inline_comment(meta) + seq!['\n']
}

/// An alias node at block position.
pub open spec fn alias_node_out(name: Seq<char>, indent: nat) -> Seq<char> {
    spaces(indent) + seq!['*'] + name + seq!['\n']
}

/// The anchor and tag line of a block container that is not a value.
pub open spec fn container_header(meta: NodeMeta, indent: nat, in_value: bool) -> Seq<char> {
    if !in_value && (meta.anchor is Some || meta.tag is Some) {
        spaces(indent) + at_text(meta.anchor, meta.tag) + seq!['\n']
    } else {
        seq![]
    }
}

/// A node at block position: its standalone comment, then its content at
/// `indent`; `in_value` when it is the value of a mapping pair (its anchor
/// and tag were written already).
pub open spec fn node_out(
    n: CustomNode,
    indent: nat,
    in_value: bool,
    depth: nat,
    o: SerializeOptions,
) -> Emit
    decreases n, 0int, 1int,
{
    if depth >= o.max_depth {
        Emit::TooDeep
    } else {
        then(
            Emit::Text(standalone_line(comment_of(n), indent)),
            node_body_out(n, indent, in_value, depth, o),
        )
    }
}

/// The content of a node at block position.
pub open spec fn node_body_out(
    n: CustomNode,
    indent: nat,
    in_value: bool,
    depth: nat,
    o: SerializeOptions,
) -> Emit
    decreases n, 0int, 0int,
{
    match n {
        CustomNode::Scalar { value, style, chomping, meta } => scalar_node_out(
            value@,
            style,
            chomping,
            meta,
            indent,
            o,
        ),
        CustomNode::Mapping { pairs, flow_style, meta } => mapping_node_out(
            pairs@,
            meta,
            flow_style,
            indent,
            depth,
            in_value,
            o,
        ),
        CustomNode::Sequence { items, flow_style, meta } => sequence_node_out(
            items@,
            meta,
            flow_style,
            indent,
            depth,
            in_value,
            o,
        ),
        CustomNode::Null { meta } => Emit::Text(null_node_out(meta, indent)),
        CustomNode::Alias { name } => Emit::Text(alias_node_out(name@, indent)),
    }
}

/// A mapping node at block position: flow style on one line, or the block
/// pairs in their order (see `pair_order`), `{}` when empty.
pub open spec fn mapping_node_out(
    ps: Seq<(CustomNode, CustomNode)>,
    meta: NodeMeta,
    flow_style: bool,
    indent: nat,
    depth: nat,
    in_value: bool,
    o: SerializeOptions,
) -> Emit
    decreases ps, ps.len() + 1, 0int,
{
    if flow_style {
        then(
            Emit::Text(seq!['{']),
            then(
                flow_pairs(ps, 0, depth + 1, o),
                Emit::Text(seq!['}'] + inline_comment(meta) + seq!['\n']),
            ),
        )
    } else if ps.len() == 0 {
        Emit::Text(container_header(meta, indent, in_value) + spaces(indent) + "{}\n"@)
    } else {
        then(
            Emit::Text(container_header(meta, indent, in_value)),
            then(
                block_pairs(ps, pair_order(ps, o), 0, indent, depth, o),
                Emit::Text(trailing_comment(meta, indent)),
            ),
        )
    }
}

/// A sequence node at block position: flow style on one line, or the block
/// items, `[]` when empty.
pub open spec fn sequence_node_out(
    items: Seq<CustomNode>,
    meta: NodeMeta,
    flow_style: bool,
    indent: nat,
    depth: nat,
    in_value: bool,
    o: SerializeOptions,
) -> Emit
    decreases items, items.len() + 1, 0int,
{
    if flow_style {
        then(
            Emit::Text(seq!['[']),
            then(
                flow_items(items, 0, depth + 1, o),
                Emit::Text(seq![']'] + inline_comment(meta) + seq!['\n']),
            ),
        )
    } else if items.len() == 0 {
        Emit::Text(container_header(meta, indent, in_value) + spaces(indent) + "[]\n"@)
    } else {
        then(
            Emit::Text(container_header(meta, indent, in_value)),
            then(block_items(items, 0, indent, depth, o), Emit::Text(trailing_comment(meta, indent))),
        )
    }
}

/// The pairs of a block mapping from position `k` of `order` on.
pub open spec fn block_pairs(
    ps: Seq<(CustomNode, CustomNode)>,
    order: Seq<int>,
    k: int,
    indent: nat,
    depth: nat,
    o: SerializeOptions,
) -> Emit
    decreases ps, ps.len() - k, 0int,
{
    if k < 0 || k >= order.len() || k >= ps.len() || !(0 <= order[k] < ps.len()) {
        Emit::Text(seq![])
    } else {
        then(
            pair_out(ps[order[k]], indent, depth, o),
            block_pairs(ps, order, k + 1, indent, depth, o),
        )
    }
}

/// One `key: value` pair of a block mapping.
pub open spec fn pair_out(
    p: (CustomNode, CustomNode),
    indent: nat,
    depth: nat,
    o: SerializeOptions,
) -> Emit
    decreases p, 0int, 0int,
{
    then(
        pair_key_out(p.0, indent, depth, o),
        then(
            Emit::Text(seq![':']),
            pair_value_out(p.0 is Mapping || p.0 is Sequence, p.1, indent, depth, o),
        ),
    )
}

/// The key of a block mapping pair: a container key after `? `, else its
/// standalone comment and the key text.
pub open spec fn pair_key_out(key: CustomNode, indent: nat, depth: nat, o: SerializeOptions) -> Emit
    decreases key, 0int, 2int,
{
    if key is Mapping || key is Sequence {
        then(Emit::Text(spaces(indent) + "? "@), node_out(key, indent, false, depth + 1, o))
    } else {
        then(
            Emit::Text(standalone_line(comment_of(key), indent) + spaces(indent)),
            opt_emit(key_text(key, o)),
        )
    }
}

/// The value of a block mapping pair, after the colon: a block container
/// (or the value of a container key) on the next lines, indented by
/// `indent_mapping`; anything else after a space.
pub open spec fn pair_value_out(
    complex_key: bool,
    value: CustomNode,
    indent: nat,
    depth: nat,
    o: SerializeOptions,
) -> Emit
    decreases value, 0int, 2int,
{
    if is_block_container(value) || complex_key {
        if !fits(indent, o.indent_mapping as nat) {
            Emit::Stops
        } else {
            then(
                Emit::Text(after_colon(value) + seq!['\n']),
                node_out(value, indent + o.indent_mapping as nat, true, depth + 1, o),
            )
        }
    } else {
        then(Emit::Text(seq![' ']), node_out(value, 0, true, depth + 1, o))
    }
}

/// The items of a block sequence from position `k` on.
pub open spec fn block_items(
    items: Seq<CustomNode>,
    k: int,
    indent: nat,
    depth: nat,
    o: SerializeOptions,
) -> Emit
    decreases items, items.len() - k, 0int,
{
    if k < 0 || k >= items.len() {
        Emit::Text(seq![])
    } else {
        then(item_out(items[k], indent, depth, o), block_items(items, k + 1, indent, depth, o))
    }
}

/// One `- ` item of a block sequence.
pub open spec fn item_out(item: CustomNode, indent: nat, depth: nat, o: SerializeOptions) -> Emit
    decreases item, 0int, 2int,
{
    then(
        Emit::Text(spaces(indent) + "- "@),
        if compact_item(item) {
            match item {
                CustomNode::Mapping { pairs, .. } => compact_pairs(pairs@, 0, indent, depth, o),
                _ => Emit::Text(seq![]),
            }
        } else if is_block_container(item) {
            if !fits(indent, o.indent_sequence as nat) {
                Emit::Stops
            } else {
                then(
                    Emit::Text(seq!['\n']),
                    node_out(item, indent + o.indent_sequence as nat, false, depth + 1, o),
                )
            }
        } else {
            node_out(item, 0, false, depth + 1, o)
        },
    )
}

/// The pairs of a compact sequence item from position `i` on: the first on
/// the dash line, the others aligned under it.
pub open spec fn compact_pairs(
    ps: Seq<(CustomNode, CustomNode)>,
    i: int,
    indent: nat,
    depth: nat,
    o: SerializeOptions,
) -> Emit
    decreases ps, ps.len() - i, 0int,
{
    if i < 0 || i >= ps.len() {
        Emit::Text(seq![])
    } else if i > 0 && !fits(indent, o.indent_sequence as nat) {
        Emit::Stops
    } else {
        then(
            Emit::Text(
                if i > 0 {
                    spaces(indent + o.indent_sequence as nat)
                } else {
                    seq![]
                },
            ),
            then(
                opt_emit(key_text(ps[i].0, o)),
                then(
                    Emit::Text(": "@),
                    then(
                        node_out(ps[i].1, 0, true, depth + 1, o),
                        compact_pairs(ps, i + 1, indent, depth, o),
                    ),
                ),
            ),
        )
    }
}

/// A node in flow context at depth `d`: no line ends, no comments.
pub open spec fn flow_value(n: CustomNode, d: nat, o: SerializeOptions) -> Emit
    decreases n, 0int,
{
    if d >= o.max_depth {
        Emit::TooDeep
    } else {
        match n {
            CustomNode::Scalar { value, style, meta, .. } => then(
                Emit::Text(at_text(meta.anchor, meta.tag)),
                opt_emit(scalar_text(value@, style, Chomping::Clip, o.width as nat, o)),
            ),
            CustomNode::Null { meta } => Emit::Text(at_text(meta.anchor, meta.tag) + "null"@),
            CustomNode::Mapping { pairs, meta, .. } => then(
                Emit::Text(at_text(meta.anchor, meta.tag) + seq!['{']),
                then(flow_pairs(pairs@, 0, d + 1, o), Emit::Text(seq!['}'])),
            ),
            CustomNode::Sequence { items, meta, .. } => then(
                Emit::Text(at_text(meta.anchor, meta.tag) + seq!['[']),
                then(flow_items(items@, 0, d + 1, o), Emit::Text(seq![']'])),
            ),
            CustomNode::Alias { name } => Emit::Text(seq!['*'] + name@),
        }
    }
}

/// The pairs of a flow mapping from position `i` on, values at depth `d`.
pub open spec fn flow_pairs(
    ps: Seq<(CustomNode, CustomNode)>,
    i: int,
    d: nat,
    o: SerializeOptions,
) -> Emit
    decreases ps, ps.len() - i,
{
    if i < 0 || i >= ps.len() {
        Emit::Text(seq![])
    } else {
        then(
            Emit::Text(
                if i > 0 {
                    ", "@
                } else {
                    seq![]
                },
            ),
            then(
                opt_emit(key_text(ps[i].0, o)),
                then(
                    Emit::Text(": "@),
                    then(flow_value(ps[i].1, d, o), flow_pairs(ps, i + 1, d, o)),
                ),
            ),
        )
    }
}

/// The items of a flow sequence from position `i` on, at depth `d`.
pub open spec fn flow_items(items: Seq<CustomNode>, i: int, d: nat, o: SerializeOptions) -> Emit
    decreases items, items.len() - i,
{
    if i < 0 || i >= items.len() {
        Emit::Text(seq![])
    } else {
        then(
            Emit::Text(
                if i > 0 {
                    ", "@
                } else {
                    seq![]
                },
            ),
            then(flow_value(items[i], d, o), flow_items(items, i + 1, d, o)),
        )
    }
}

/// A whole document: the optional `---` line, the root node at the
/// configured offset, the optional `...` line.
pub open spec fn document_out(n: CustomNode, o: SerializeOptions) -> Emit {
    then(
        Emit::Text(
            if o.explicit_start {
                "---\n"@
            } else {
                seq![]
            },
        ),
        then(
            node_out(n, o.indent_offset as nat, false, 0, o),
            Emit::Text(
                if o.explicit_end {
                    "...\n"@
                } else {
                    seq![]
                },
            ),
        ),
    )
}

/// `res` is what an emission says: the text appended to the output, or the
/// depth error.
pub open spec fn emitted(
    before: Seq<char>,
    after: Seq<char>,
    e: Emit,
    res: Result<(), SerializeError>,
    max_depth: usize,
) -> bool {
    match e {
        Emit::Text(t) => res is Ok && after == before + t,
        Emit::TooDeep => res == Err::<(), SerializeError>(SerializeError::MaxDepthExceeded(max_depth)),
        Emit::Stops => false,
    }
}

/// Whether a node can be serialized inline on the same line as a mapping
/// key's colon.
fn inlineable_value(v: &CustomNode) -> (res: bool)
    ensures
        res == inlineable(*v),
{
    match v {
        CustomNode::Mapping { flow_style, .. } => *flow_style,
        CustomNode::Sequence { flow_style, .. } => *flow_style,
        _ => true,
    }
}

/// Whether a block mapping can be emitted in the compact `- key: value`
/// sequence-item form.
#[verifier::loop_isolation(false)]
pub fn is_compact_item(node: &CustomNode) -> (res: bool)
    ensures
        res == compact_item(*node),
{
    match node {
        CustomNode::Mapping { pairs, flow_style, meta } => {
            if *flow_style || meta.comment.is_some() || meta.anchor.is_some() || meta.tag.is_some()
                || pairs.len() == 0 {
                return false;
            }
            let mut i: usize = 0;
            while i < pairs.len()
                invariant
                    0 <= i <= pairs@.len(),
                    forall|j: int|
                        0 <= j < i ==> !(#[trigger] pairs@[j].0 is Mapping) && !(
                        pairs@[j].0 is Sequence) && inlineable(pairs@[j].1),
                decreases pairs@.len() - i,
            {
                let k = &pairs[i].0;
                let container_key = match k {
                    CustomNode::Mapping { .. } => true,
                    CustomNode::Sequence { .. } => true,
                    _ => false,
                };
                if container_key || !inlineable_value(&pairs[i].1) {
                    assert(!(!(pairs@[i as int].0 is Mapping) && !(pairs@[i as int].0 is Sequence)
                        && inlineable(pairs@[i as int].1)));
                    return false;
                }
                i = i + 1;
            }
            true
        },
        _ => false,
    }
}

/// The writer state of one serialization.
struct Serializer {
    output: String,
    opts: SerializeOptions,
}

/// The comment of a node, if it has metadata and a comment.
fn node_comment(node: &CustomNode) -> (res: Option<&Comment>)
    ensures
        match comment_of(*node) {
            Some(c) => res == Some(&c),
            None => res is None,
        },
{
    match node {
        CustomNode::Scalar { meta, .. } => meta.comment.as_ref(),
        CustomNode::Mapping { meta, .. } => meta.comment.as_ref(),
        CustomNode::Sequence { meta, .. } => meta.comment.as_ref(),
        CustomNode::Null { meta } => meta.comment.as_ref(),
        CustomNode::Alias { .. } => None,
    }
}

impl Serializer {
    fn new(options: &SerializeOptions) -> (res: Self)
        ensures
            res.output@ == Seq::<char>::empty(),
            res.opts == *options,
    {
        Serializer { output: String::new(), opts: *options }
    }

    /// Write `width` spaces.
    fn write_indent(&mut self, width: usize)
        ensures
            final(self).output@ == old(self).output@ + spaces(width as nat),
            final(self).opts == old(self).opts,
    {
        push_spaces(&mut self.output, width);
    }

    /// Write the anchor (`&name `) and tag (`!!type `) prefix.
    fn write_anchor_tag(&mut self, anchor: &Option<String>, tag: &Option<Tag>)
        ensures
            final(self).output@ == old(self).output@ + at_text(*anchor, *tag),
            final(self).opts == old(self).opts,
    {
        let ghost start = self.output@;
        if let Some(a) = anchor {
            push_char(&mut self.output, '&');
            self.output.append(a.as_str());
            push_char(&mut self.output, ' ');
        }
        let ghost mid = self.output@;
        if let Some(t) = tag {
            let text = t.to_tag_string();
            self.output.append(text.as_str());
            push_char(&mut self.output, ' ');
        }
        proof {
            let a_part = match anchor {
                Some(a) => seq!['&'] + a@ + seq![' '],
                None => Seq::<char>::empty(),
            };
            let t_part = match tag {
                Some(t) => tag_text(t.handle@, t.suffix@) + seq![' '],
                None => Seq::<char>::empty(),
            };
            assert(mid =~= start + a_part);
            assert(self.output@ =~= mid + t_part);
            assert(self.output@ =~= start + at_text(*anchor, *tag));
        }
    }

    /// Write a plain scalar, quoting if necessary.
    fn write_plain_scalar(&mut self, value: &str, remaining: usize)
        requires
            plain_text(value@, remaining as nat, old(self).opts.width as nat) is Some,
        ensures
            final(self).output@ == old(self).output@ + plain_text(
                value@,
                remaining as nat,
                old(self).opts.width as nat,
            )->0,
            final(self).opts == old(self).opts,
    {
        let w = self.opts.width;
        write_plain_scalar(&mut self.output, value, remaining, w);
    }

    /// Write a single-quoted scalar.
    fn write_single_quoted_scalar(&mut self, value: &str)
        ensures
            final(self).output@ == old(self).output@ + single_quoted(value@),
            final(self).opts == old(self).opts,
    {
        write_single_quoted_scalar(&mut self.output, value);
    }

    /// Write a double-quoted scalar with escape sequences.
    fn write_double_quoted_scalar(&mut self, value: &str)
        ensures
            final(self).output@ == old(self).output@ + double_quoted(value@),
            final(self).opts == old(self).opts,
    {
        write_double_quoted_scalar(&mut self.output, value);
    }

    /// Write the lines of a block scalar body with the base indentation.
    fn write_base_indent(&mut self, value: &str)
        ensures
            final(self).output@ == old(self).output@ + crate::scalar_fmt::block_lines(
                crate::comment::lines_of(value@),
                spaces(old(self).opts.indent_size as nat),
            ),
            final(self).opts == old(self).opts,
    {
        let n = self.opts.indent_size;
        write_base_indent(&mut self.output, value, n);
    }

    /// Write a block scalar (`lead` is `|` or `>`) with its chomping mark.
    fn write_block_scalar(&mut self, lead: char, value: &str, chomping: &Chomping)
        ensures
            final(self).output@ == old(self).output@ + block_scalar(
                lead,
                value@,
                *chomping,
                old(self).opts.indent_size as nat,
            ),
            final(self).opts == old(self).opts,
    {
        let ghost start = self.output@;
        push_char(&mut self.output, lead);
        match chomping {
            Chomping::Strip => push_char(&mut self.output, '-'),
            Chomping::Clip => {},
            Chomping::Keep => push_char(&mut self.output, '+'),
        }
        push_char(&mut self.output, '\n');
        let ghost mid = self.output@;
        assert(mid =~= start + crate::scalar_fmt::chomp_indicator(lead, *chomping) + seq!['\n']);
        self.write_base_indent(value);
        assert(self.output@ =~= start + block_scalar(
            lead,
            value@,
            *chomping,
            self.opts.indent_size as nat,
        ));
    }

    /// Write a literal block scalar (`|`) with chomping indicator.
    fn write_literal_scalar(&mut self, value: &str, chomping: &Chomping)
        ensures
            final(self).output@ == old(self).output@ + block_scalar(
                '|',
                value@,
                *chomping,
                old(self).opts.indent_size as nat,
            ),
            final(self).opts == old(self).opts,
    {
        self.write_block_scalar('|', value, chomping);
    }

    /// Write a folded block scalar (`>`) with chomping indicator.
    fn write_folded_scalar(&mut self, value: &str, chomping: &Chomping)
        ensures
            final(self).output@ == old(self).output@ + block_scalar(
                '>',
                value@,
                *chomping,
                old(self).opts.indent_size as nat,
            ),
            final(self).opts == old(self).opts,
    {
        self.write_block_scalar('>', value, chomping);
    }

    /// Write a scalar in its style; `remaining` is the room left on the
    /// line (0: no folding).
    fn write_scalar(&mut self, value: &str, style: &ScalarStyle, chomping: &Chomping, remaining: usize)
        requires
            scalar_text(value@, *style, *chomping, remaining as nat, old(self).opts) is Some,
        ensures
            final(self).output@ == old(self).output@ + scalar_text(
                value@,
                *style,
                *chomping,
                remaining as nat,
                old(self).opts,
            )->0,
            final(self).opts == old(self).opts,
    {
        match style {
            ScalarStyle::Plain => self.write_plain_scalar(value, remaining),
            ScalarStyle::SingleQuoted => self.write_single_quoted_scalar(value),
            ScalarStyle::DoubleQuoted => self.write_double_quoted_scalar(value),
            ScalarStyle::Literal => self.write_literal_scalar(value, chomping),
            ScalarStyle::Folded => self.write_folded_scalar(value, chomping),
        }
    }

    /// Write a node as a mapping key.
    fn write_scalar_for_key(&mut self, node: &CustomNode)
        requires
            key_text(*node, old(self).opts) is Some,
        ensures
            final(self).output@ == old(self).output@ + key_text(*node, old(self).opts)->0,
            final(self).opts == old(self).opts,
    {
        match node {
            CustomNode::Scalar { value, style: ScalarStyle::Plain, .. } => {
                if value.as_str().unicode_len() > 0 && is_short_alphanumeric(value.as_str()) {
                    self.output.append(value.as_str());
                } else {
                    self.write_plain_scalar(value.as_str(), 0);
                }
            },
            CustomNode::Scalar { value, style, chomping, .. } => {
                self.write_scalar(value.as_str(), style, chomping, 0);
            },
            _ => {
                self.output.append("null");
            },
        }
    }

    /// Write a standalone comment line.
    fn write_standalone(&mut self, c: &Comment, indent_width: usize)
        requires
            c.standalone,
        ensures
            final(self).output@ == old(self).output@ + standalone_line(Some(*c), indent_width as nat),
            final(self).opts == old(self).opts,
    {
        let ghost start = self.output@;
        self.write_indent(indent_width);
        self.output.append("# ");
        self.output.append(c.text.as_str());
        push_char(&mut self.output, '\n');
        assert(self.output@ =~= start + standalone_line(Some(*c), indent_width as nat));
    }

    /// Write a line-end comment, if the metadata has one.
    fn write_inline_comment(&mut self, meta: &NodeMeta)
        ensures
            final(self).output@ == old(self).output@ + inline_comment(*meta),
            final(self).opts == old(self).opts,
    {
        let ghost start = self.output@;
        if let Some(c) = &meta.comment {
            if !c.standalone {
                self.output.append("  # ");
                self.output.append(c.text.as_str());
                assert(self.output@ =~= start + inline_comment(*meta));
                return;
            }
        }
        assert(self.output@ =~= start + inline_comment(*meta));
    }

    /// Write a block container's line-end comment on its own line.
    fn write_trailing_comment(&mut self, meta: &NodeMeta, indent_width: usize)
        ensures
            final(self).output@ == old(self).output@ + trailing_comment(*meta, indent_width as nat),
            final(self).opts == old(self).opts,
    {
        let ghost start = self.output@;
        if let Some(c) = &meta.comment {
            if !c.standalone {
                self.write_indent(indent_width);
                self.output.append("# ");
                self.output.append(c.text.as_str());
                push_char(&mut self.output, '\n');
                assert(self.output@ =~= start + trailing_comment(*meta, indent_width as nat));
                return;
            }
        }
        assert(self.output@ =~= start + trailing_comment(*meta, indent_width as nat));
    }
}

/// Text followed by an emission, then more: the text joins the emission's
/// text, or the emission's failure stands.
pub proof fn lemma_step(acc: Seq<char>, p: Emit, rest: Emit)
    ensures
        then(Emit::Text(acc), then(p, rest)) == match p {
            Emit::Text(t) => then(Emit::Text(acc + t), rest),
            other => other,
        },
{
    match p {
        Emit::Text(t) => {
            match rest {
                Emit::Text(r) => {
                    assert(acc + (t + r) =~= acc + t + r);
                },
                _ => {},
            }
        },
        _ => {},
    }
}

/// Positions as integers.
pub open spec fn as_ints(v: Seq<usize>) -> Seq<int> {
    v.map_values(|x: usize| x as int)
}

proof fn lemma_insert_pos_le(keys: Seq<Seq<char>>, order: Seq<int>, i: int)
    ensures
        insert_pos(keys, order, i) <= order.len(),
    decreases order.len(),
{
    if order.len() > 0 && lex_le(keys[order[0]], keys[i]) {
        lemma_insert_pos_le(keys, order.drop_first(), i);
    }
}

/// `sort_order` lists positions below `n`, `n` of them.
pub proof fn lemma_sort_order_bounds(keys: Seq<Seq<char>>, n: nat)
    ensures
        sort_order(keys, n).len() == n,
        forall|k: int| 0 <= k < n ==> 0 <= #[trigger] sort_order(keys, n)[k] < n,
    decreases n,
{
    if n > 0 {
        let prev = sort_order(keys, (n - 1) as nat);
        lemma_sort_order_bounds(keys, (n - 1) as nat);
        lemma_insert_pos_le(keys, prev, n - 1);
        let p = insert_pos(keys, prev, n - 1) as int;
        let cur = prev.insert(p, n - 1);
        assert forall|k: int| 0 <= k < n implies 0 <= #[trigger] cur[k] < n by {
            if k < p {
                assert(cur[k] == prev[k]);
            } else if k > p {
                assert(cur[k] == prev[k - 1]);
            }
        }
    }
}

/// Code point order is total.
pub proof fn lemma_lex_total(a: Seq<char>, b: Seq<char>)
    ensures
        lex_le(a, b) || lex_le(b, a),
    decreases a.len(),
{
    if a.len() > 0 && b.len() > 0 {
        if a[0] == b[0] {
            lemma_lex_total(a.drop_first(), b.drop_first());
        } else {
            vstd::utf8::char_u32_cast(a[0], a[0] as u32);
            vstd::utf8::char_u32_cast(b[0], b[0] as u32);
        }
    }
}

/// Code point order is transitive.
pub proof fn lemma_lex_trans(a: Seq<char>, b: Seq<char>, c: Seq<char>)
    requires
        lex_le(a, b),
        lex_le(b, c),
    ensures
        lex_le(a, c),
    decreases a.len(),
{
    if a.len() > 0 && b.len() > 0 && c.len() > 0 && a[0] == b[0] && b[0] == c[0] {
        lemma_lex_trans(a.drop_first(), b.drop_first(), c.drop_first());
    }
}

/// The entries before the insertion point have keys at most `keys[i]`; the
/// entry at it (if any) has a greater key.
proof fn lemma_insert_pos_split(keys: Seq<Seq<char>>, order: Seq<int>, i: int)
    ensures
        forall|x: int| 0 <= x < insert_pos(keys, order, i) ==> lex_le(#[trigger] keys[order[x]], keys[i]),
        insert_pos(keys, order, i) < order.len() ==> !lex_le(keys[order[insert_pos(keys, order, i) as int]], keys[i]),
    decreases order.len(),
{
    lemma_insert_pos_le(keys, order, i);
    if order.len() > 0 && lex_le(keys[order[0]], keys[i]) {
        let rest = order.drop_first();
        lemma_insert_pos_split(keys, rest, i);
        assert forall|x: int| 0 <= x < insert_pos(keys, order, i) implies lex_le(#[trigger] keys[order[x]], keys[i]) by {
            if x > 0 {
                assert(order[x] == rest[x - 1]);
            }
        }
    }
}

/// With `sort_keys`, pairs are written in key order, and pairs with equal
/// keys keep their order in the mapping.
pub proof fn law_sorted_pairs_ordered(keys: Seq<Seq<char>>, n: nat)
    ensures
        forall|a: int, b: int|
            0 <= a < b < n ==> lex_le(#[trigger] keys[sort_order(keys, n)[a]], #[trigger] keys[sort_order(keys, n)[b]]),
        forall|a: int, b: int|
            0 <= a < b < n && lex_le(keys[sort_order(keys, n)[b]], keys[sort_order(keys, n)[a]])
                ==> #[trigger] sort_order(keys, n)[a] < #[trigger] sort_order(keys, n)[b],
    decreases n,
{
    lemma_sort_order_bounds(keys, n);
    if n > 0 {
        let prev = sort_order(keys, (n - 1) as nat);
        law_sorted_pairs_ordered(keys, (n - 1) as nat);
        lemma_sort_order_bounds(keys, (n - 1) as nat);
        lemma_insert_pos_le(keys, prev, n - 1);
        lemma_insert_pos_split(keys, prev, n - 1);
        let p = insert_pos(keys, prev, n - 1) as int;
        let cur = prev.insert(p, n - 1);
        let ki = keys[n - 1];
        assert(cur == sort_order(keys, n));
        assert forall|a: int, b: int| 0 <= a < b < n implies lex_le(#[trigger] keys[cur[a]], #[trigger] keys[cur[b]]) by {
            if b < p {
                assert(cur[a] == prev[a] && cur[b] == prev[b]);
            } else if b == p {
                assert(cur[a] == prev[a]);
            } else if a > p {
                assert(cur[a] == prev[a - 1] && cur[b] == prev[b - 1]);
            } else if a == p {
                assert(cur[b] == prev[b - 1]);
                lemma_lex_total(keys[prev[p]], ki);
                if b - 1 > p {
                    lemma_lex_trans(ki, keys[prev[p]], keys[prev[b - 1]]);
                }
            } else {
                assert(cur[a] == prev[a] && cur[b] == prev[b - 1]);
            }
        }
        assert forall|a: int, b: int|
            0 <= a < b < n && lex_le(keys[cur[b]], keys[cur[a]]) implies #[trigger] cur[a] < #[trigger] cur[b] by {
            if b < p {
                assert(cur[a] == prev[a] && cur[b] == prev[b]);
            } else if b == p {
                assert(cur[a] == prev[a]);
            } else if a > p {
                assert(cur[a] == prev[a - 1] && cur[b] == prev[b - 1]);
            } else if a == p {
                assert(cur[b] == prev[b - 1]);
                lemma_lex_total(keys[prev[p]], ki);
                if b - 1 > p {
                    lemma_lex_trans(keys[prev[p]], keys[prev[b - 1]], ki);
                }
            } else {
                assert(cur[a] == prev[a] && cur[b] == prev[b - 1]);
            }
        }
    }
}

/// Whether `a` comes before or equals `b` in code point order.
fn lex_le_of(a: &Vec<char>, b: &Vec<char>) -> (res: bool)
    ensures
        res == lex_le(a@, b@),
{
    let mut i: usize = 0;
    assert(a@.skip(0) =~= a@);
    assert(b@.skip(0) =~= b@);
    while i < a.len() && i < b.len() && a[i] == b[i]
        invariant
            0 <= i <= a@.len(),
            i <= b@.len(),
            lex_le(a@, b@) == lex_le(a@.skip(i as int), b@.skip(i as int)),
        decreases a@.len() - i,
    {
        assert(a@.skip(i as int).drop_first() =~= a@.skip(i + 1));
        assert(b@.skip(i as int).drop_first() =~= b@.skip(i + 1));
        i = i + 1;
    }
    if i == a.len() {
        true
    } else if i == b.len() {
        false
    } else {
        assert(a@.skip(i as int)[0] == a@[i as int]);
        assert(b@.skip(i as int)[0] == b@[i as int]);
        (a[i] as u32) < (b[i] as u32)
    }
}

/// The order in which a block mapping's pairs are written.
fn pair_order_of(pairs: &Vec<(CustomNode, CustomNode)>, sort_keys: bool) -> (res: Vec<usize>)
    ensures
        as_ints(res@) == if sort_keys {
            sort_order(pair_keys(pairs@), pairs@.len())
        } else {
            Seq::new(pairs@.len(), |i: int| i)
        },
        res@.len() == pairs@.len(),
        forall|k: int| 0 <= k < res@.len() ==> #[trigger] res@[k] < pairs@.len(),
{
    let n = pairs.len();
    let mut order: Vec<usize> = Vec::new();
    if !sort_keys {
        let mut i: usize = 0;
        while i < n
            invariant
                0 <= i <= n,
                n == pairs@.len(),
                order@.len() == i,
                forall|k: int| 0 <= k < i ==> #[trigger] order@[k] == k,
            decreases n - i,
        {
            order.push(i);
            i = i + 1;
        }
        assert(as_ints(order@) =~= Seq::new(pairs@.len(), |i: int| i));
        return order;
    }
    let ghost keys_spec = pair_keys(pairs@);
    let mut keys: Vec<Vec<char>> = Vec::new();
    let mut i: usize = 0;
    while i < n
        invariant
            0 <= i <= n,
            n == pairs@.len(),
            keys_spec == pair_keys(pairs@),
            keys@.len() == i,
            forall|j: int| 0 <= j < i ==> #[trigger] keys@[j]@ == keys_spec[j],
        decreases n - i,
    {
        let k = match &pairs[i].0 {
            CustomNode::Scalar { value, .. } => crate::text::chars_of(value.as_str()),
            _ => Vec::new(),
        };
        keys.push(k);
        i = i + 1;
    }
    let mut i: usize = 0;
    assert(as_ints(order@) =~= sort_order(keys_spec, 0));
    while i < n
        invariant
            0 <= i <= n,
            n == pairs@.len(),
            keys_spec == pair_keys(pairs@),
            keys@.len() == n,
            forall|j: int| 0 <= j < n ==> #[trigger] keys@[j]@ == keys_spec[j],
            as_ints(order@) == sort_order(keys_spec, i as nat),
            order@.len() == i,
            forall|k: int| 0 <= k < i ==> #[trigger] order@[k] < i,
        decreases n - i,
    {
        let ghost prev = as_ints(order@);
        let mut pos: usize = 0;
        assert(prev.skip(0) =~= prev);
        while pos < order.len() && lex_le_of(&keys[order[pos]], &keys[i])
            invariant
                0 <= pos <= order@.len(),
                order@.len() == i,
                i < n,
                keys@.len() == n,
                forall|j: int| 0 <= j < n ==> #[trigger] keys@[j]@ == keys_spec[j],
                forall|k: int| 0 <= k < i ==> #[trigger] order@[k] < i,
                prev == as_ints(order@),
                insert_pos(keys_spec, prev, i as int) == pos + insert_pos(
                    keys_spec,
                    prev.skip(pos as int),
                    i as int,
                ),
            decreases order@.len() - pos,
        {
            proof {
                assert(prev.skip(pos as int)[0] == order@[pos as int] as int);
                assert(prev.skip(pos as int).drop_first() =~= prev.skip(pos + 1));
            }
            pos = pos + 1;
        }
        proof {
            if pos < order@.len() {
                assert(prev.skip(pos as int)[0] == order@[pos as int] as int);
            }
        }
        let ghost old_o = order@;
        order.insert(pos, i);
        proof {
            assert(as_ints(order@) =~= prev.insert(pos as int, i as int));
            assert forall|k: int| 0 <= k < i + 1 implies #[trigger] order@[k] < i + 1 by {
                if k < pos {
                    assert(order@[k] == old_o[k]);
                } else if k > pos {
                    assert(order@[k] == old_o[k - 1]);
                }
            }
        }
        i = i + 1;
    }
    order
}

impl Serializer {
    /// Write a scalar node (plain, quoted or block) with its anchor, tag and
    /// line-end comment.
    fn write_scalar_node(
        &mut self,
        value: &str,
        style: &ScalarStyle,
        meta: &NodeMeta,
        chomping: &Chomping,
        indent_width: usize,
    ) -> (res: Result<(), SerializeError>)
        requires
            !(scalar_node_out(value@, *style, *chomping, *meta, indent_width as nat, old(self).opts) is Stops),
        ensures
            final(self).opts == old(self).opts,
            emitted(
                old(self).output@,
                final(self).output@,
                scalar_node_out(value@, *style, *chomping, *meta, indent_width as nat, old(self).opts),
                res,
                old(self).opts.max_depth,
            ),
    {
        let ghost start = self.output@;
        self.write_indent(indent_width);
        if meta.anchor.is_some() || meta.tag.is_some() {
            self.write_anchor_tag(&meta.anchor, &meta.tag);
        } else {
            assert(self.output@ =~= self.output@ + at_text(meta.anchor, meta.tag));
        }
        let w = self.opts.width;
        self.write_scalar(value, style, chomping, w);
        self.write_inline_comment(meta);
        push_char(&mut self.output, '\n');
        let ghost t = scalar_text(value@, *style, *chomping, w as nat, self.opts)->0;
        assert(self.output@ =~= start + (spaces(indent_width as nat) + at_text(meta.anchor, meta.tag)
            + t + inline_comment(*meta) + seq!['\n']));
        Ok(())
    }

    /// Write a null node with its anchor, tag and line-end comment.
    fn write_null_node(&mut self, meta: &NodeMeta, indent_width: usize) -> (res: Result<(), SerializeError>)
        ensures
            final(self).opts == old(self).opts,
            res is Ok,
            final(self).output@ == old(self).output@ + null_node_out(*meta, indent_width as nat),
    {
        let ghost start = self.output@;
        self.write_indent(indent_width);
        if meta.anchor.is_some() || meta.tag.is_some() {
            self.write_anchor_tag(&meta.anchor, &meta.tag);
        } else {
            assert(self.output@ =~= self.output@ + at_text(meta.anchor, meta.tag));
        }
        self.output.append("null");
        self.write_inline_comment(meta);
        push_char(&mut self.output, '\n');
        assert(self.output@ =~= start + null_node_out(*meta, indent_width as nat));
        Ok(())
    }

    /// Write an alias node (`*name`).
    fn write_alias_node(&mut self, name: &str, indent_width: usize) -> (res: Result<(), SerializeError>)
        ensures
            final(self).opts == old(self).opts,
            res is Ok,
            final(self).output@ == old(self).output@ + alias_node_out(name@, indent_width as nat),
    {
        let ghost start = self.output@;
        self.write_indent(indent_width);
        push_char(&mut self.output, '*');
        self.output.append(name);
        push_char(&mut self.output, '\n');
        assert(self.output@ =~= start + alias_node_out(name@, indent_width as nat));
        Ok(())
    }

    /// Write the anchor/tag line of a block container that is not a value.
    fn write_container_header(&mut self, meta: &NodeMeta, indent_width: usize, in_value_context: bool)
        ensures
            final(self).opts == old(self).opts,
            final(self).output@ == old(self).output@ + container_header(
                *meta,
                indent_width as nat,
                in_value_context,
            ),
    {
        let ghost start = self.output@;
        if !in_value_context && (meta.anchor.is_some() || meta.tag.is_some()) {
            self.write_indent(indent_width);
            self.write_anchor_tag(&meta.anchor, &meta.tag);
            push_char(&mut self.output, '\n');
            assert(self.output@ =~= start + container_header(
                *meta,
                indent_width as nat,
                in_value_context,
            ));
        } else {
            assert(self.output@ =~= start + container_header(
                *meta,
                indent_width as nat,
                in_value_context,
            ));
        }
    }

    /// Serialize a value in flow context (no line end).
    fn serialize_flow_value(&mut self, node: &CustomNode, depth: usize) -> (res: Result<(), SerializeError>)
        requires
            !(flow_value(*node, depth as nat, old(self).opts) is Stops),
        ensures
            final(self).opts == old(self).opts,
            emitted(
                old(self).output@,
                final(self).output@,
                flow_value(*node, depth as nat, old(self).opts),
                res,
                old(self).opts.max_depth,
            ),
        decreases *node,
    {
        if depth >= self.opts.max_depth {
            return Err(SerializeError::MaxDepthExceeded(self.opts.max_depth));
        }
        let ghost start = self.output@;
        let ghost o = self.opts;
        match node {
            CustomNode::Scalar { value, style, meta, .. } => {
                if meta.anchor.is_some() || meta.tag.is_some() {
                    self.write_anchor_tag(&meta.anchor, &meta.tag);
                } else {
                    assert(self.output@ =~= self.output@ + at_text(meta.anchor, meta.tag));
                }
                let w = self.opts.width;
                self.write_scalar(value.as_str(), style, &Chomping::Clip, w);
                assert(self.output@ =~= start + (at_text(meta.anchor, meta.tag) + scalar_text(
                    value@,
                    *style,
                    Chomping::Clip,
                    w as nat,
                    o,
                )->0));
                Ok(())
            },
            CustomNode::Null { meta } => {
                if meta.anchor.is_some() || meta.tag.is_some() {
                    self.write_anchor_tag(&meta.anchor, &meta.tag);
                } else {
                    assert(self.output@ =~= self.output@ + at_text(meta.anchor, meta.tag));
                }
                self.output.append("null");
                assert(self.output@ =~= start + (at_text(meta.anchor, meta.tag) + "null"@));
                Ok(())
            },
            CustomNode::Mapping { pairs, meta, .. } => {
                if meta.anchor.is_some() || meta.tag.is_some() {
                    self.write_anchor_tag(&meta.anchor, &meta.tag);
                } else {
                    assert(self.output@ =~= self.output@ + at_text(meta.anchor, meta.tag));
                }
                push_char(&mut self.output, '{');
                let ghost head = at_text(meta.anchor, meta.tag) + seq!['{'];
                assert(self.output@ =~= start + head);
                let r = self.write_flow_pairs(pairs, depth + 1);
                match r {
                    Ok(()) => {},
                    Err(e) => {
                        proof {
                            lemma_step(head, flow_pairs(pairs@, 0, (depth + 1) as nat, o), Emit::Text(seq!['}']));
                        }
                        return Err(e);
                    },
                }
                push_char(&mut self.output, '}');
                proof {
                    lemma_step(head, flow_pairs(pairs@, 0, (depth + 1) as nat, o), Emit::Text(seq!['}']));
                    let t = flow_pairs(pairs@, 0, (depth + 1) as nat, o)->Text_0;
                    assert(self.output@ =~= start + (head + t + seq!['}']));
                }
                Ok(())
            },
            CustomNode::Sequence { items, meta, .. } => {
                if meta.anchor.is_some() || meta.tag.is_some() {
                    self.write_anchor_tag(&meta.anchor, &meta.tag);
                } else {
                    assert(self.output@ =~= self.output@ + at_text(meta.anchor, meta.tag));
                }
                push_char(&mut self.output, '[');
                let ghost head = at_text(meta.anchor, meta.tag) + seq!['['];
                assert(self.output@ =~= start + head);
                let r = self.write_flow_items(items, depth + 1);
                match r {
                    Ok(()) => {},
                    Err(e) => {
                        proof {
                            lemma_step(head, flow_items(items@, 0, (depth + 1) as nat, o), Emit::Text(seq![']']));
                        }
                        return Err(e);
                    },
                }
                push_char(&mut self.output, ']');
                proof {
                    lemma_step(head, flow_items(items@, 0, (depth + 1) as nat, o), Emit::Text(seq![']']));
                    let t = flow_items(items@, 0, (depth + 1) as nat, o)->Text_0;
                    assert(self.output@ =~= start + (head + t + seq![']']));
                }
                Ok(())
            },
            CustomNode::Alias { name } => {
                push_char(&mut self.output, '*');
                self.output.append(name.as_str());
                assert(self.output@ =~= start + (seq!['*'] + name@));
                Ok(())
            },
        }
    }

    /// The pairs of a flow mapping, values at depth `d`.
    fn write_flow_pairs(&mut self, pairs: &Vec<(CustomNode, CustomNode)>, d: usize) -> (res: Result<(), SerializeError>)
        requires
            !(flow_pairs(pairs@, 0, d as nat, old(self).opts) is Stops),
        ensures
            final(self).opts == old(self).opts,
            emitted(
                old(self).output@,
                final(self).output@,
                flow_pairs(pairs@, 0, d as nat, old(self).opts),
                res,
                old(self).opts.max_depth,
            ),
        decreases pairs@, 1int,
    {
        let ghost start = self.output@;
        let ghost o = self.opts;
        let ghost total = flow_pairs(pairs@, 0, d as nat, o);
        let mut i: usize = 0;
        proof {
            lemma_then_empty(total);
        }
        while i < pairs.len()
            invariant
                0 <= i <= pairs@.len(),
                self.opts == o,
                start == old(self).output@,
                o == old(self).opts,
                total == flow_pairs(pairs@, 0, d as nat, o),
                !(total is Stops),
                self.output@.len() >= start.len(),
                self.output@ == start + self.output@.skip(start.len() as int),
                then(Emit::Text(self.output@.skip(start.len() as int)), flow_pairs(pairs@, i as int, d as nat, o)) == total,
            decreases pairs@.len() - i,
        {
            let ghost acc = self.output@.skip(start.len() as int);
            let ghost sep = if i > 0 { ", "@ } else { Seq::<char>::empty() };
            let ghost key = key_text(pairs@[i as int].0, o);
            let ghost rest = then(Emit::Text(": "@), then(flow_value(pairs@[i as int].1, d as nat, o), flow_pairs(pairs@, i + 1, d as nat, o)));
            proof {
                lemma_step(acc, Emit::Text(sep), then(opt_emit(key), rest));
                lemma_step(acc + sep, opt_emit(key), rest);
            }
            if i > 0 {
                self.output.append(", ");
            }
            assert(key is Some);
            self.write_scalar_for_key(&pairs[i].0);
            self.output.append(": ");
            let ghost acc2 = acc + sep + key->0 + ": "@;
            proof {
                lemma_step(acc + sep + key->0, Emit::Text(": "@), then(flow_value(pairs@[i as int].1, d as nat, o), flow_pairs(pairs@, i + 1, d as nat, o)));
                lemma_step(acc2, flow_value(pairs@[i as int].1, d as nat, o), flow_pairs(pairs@, i + 1, d as nat, o));
                assert(self.output@ =~= start + acc2);
            }
            match self.serialize_flow_value(&pairs[i].1, d) {
                Ok(()) => {},
                Err(e) => {
                    return Err(e);
                },
            }
            proof {
                let t = flow_value(pairs@[i as int].1, d as nat, o)->Text_0;
                assert(self.output@ =~= start + (acc2 + t));
                assert(self.output@.skip(start.len() as int) =~= acc2 + t);
            }
            i = i + 1;
        }
        proof {
            let acc = self.output@.skip(start.len() as int);
            lemma_then_empty(Emit::Text(acc));
            assert(acc + Seq::<char>::empty() =~= acc);
        }
        Ok(())
    }

    /// The items of a flow sequence at depth `d`.
    fn write_flow_items(&mut self, items: &Vec<CustomNode>, d: usize) -> (res: Result<(), SerializeError>)
        requires
            !(flow_items(items@, 0, d as nat, old(self).opts) is Stops),
        ensures
            final(self).opts == old(self).opts,
            emitted(
                old(self).output@,
                final(self).output@,
                flow_items(items@, 0, d as nat, old(self).opts),
                res,
                old(self).opts.max_depth,
            ),
        decreases items@, 1int,
    {
        let ghost start = self.output@;
        let ghost o = self.opts;
        let ghost total = flow_items(items@, 0, d as nat, o);
        let mut i: usize = 0;
        proof {
            lemma_then_empty(total);
            assert(self.output@.skip(start.len() as int) =~= Seq::<char>::empty());
        }
        while i < items.len()
            invariant
                0 <= i <= items@.len(),
                self.opts == o,
                start == old(self).output@,
                o == old(self).opts,
                total == flow_items(items@, 0, d as nat, o),
                !(total is Stops),
                self.output@.len() >= start.len(),
                self.output@ == start + self.output@.skip(start.len() as int),
                then(Emit::Text(self.output@.skip(start.len() as int)), flow_items(items@, i as int, d as nat, o)) == total,
            decreases items@.len() - i,
        {
            let ghost acc = self.output@.skip(start.len() as int);
            let ghost sep = if i > 0 { ", "@ } else { Seq::<char>::empty() };
            proof {
                lemma_step(acc, Emit::Text(sep), then(flow_value(items@[i as int], d as nat, o), flow_items(items@, i + 1, d as nat, o)));
                lemma_step(acc + sep, flow_value(items@[i as int], d as nat, o), flow_items(items@, i + 1, d as nat, o));
            }
            if i > 0 {
                self.output.append(", ");
            }
            assert(self.output@ =~= start + (acc + sep));
            match self.serialize_flow_value(&items[i], d) {
                Ok(()) => {},
                Err(e) => {
                    return Err(e);
                },
            }
            proof {
                let t = flow_value(items@[i as int], d as nat, o)->Text_0;
                assert(self.output@ =~= start + (acc + sep + t));
                assert(self.output@.skip(start.len() as int) =~= acc + sep + t);
            }
            i = i + 1;
        }
        proof {
            let acc = self.output@.skip(start.len() as int);
            assert(acc + Seq::<char>::empty() =~= acc);
        }
        Ok(())
    }
}

proof fn lemma_node_out(n: CustomNode, indent: nat, in_value: bool, depth: nat, o: SerializeOptions)
    ensures
        node_out(n, indent, in_value, depth, o) == if depth >= o.max_depth {
            Emit::TooDeep
        } else {
            then(
                Emit::Text(standalone_line(comment_of(n), indent)),
                node_body_out(n, indent, in_value, depth, o),
            )
        },
{
}

proof fn lemma_node_body(n: CustomNode, indent: nat, in_value: bool, depth: nat, o: SerializeOptions)
    ensures
        node_body_out(n, indent, in_value, depth, o) == match n {
            CustomNode::Scalar { value, style, chomping, meta } => scalar_node_out(
                value@,
                style,
                chomping,
                meta,
                indent,
                o,
            ),
            CustomNode::Mapping { pairs, flow_style, meta } => mapping_node_out(
                pairs@,
                meta,
                flow_style,
                indent,
                depth,
                in_value,
                o,
            ),
            CustomNode::Sequence { items, flow_style, meta } => sequence_node_out(
                items@,
                meta,
                flow_style,
                indent,
                depth,
                in_value,
                o,
            ),
            CustomNode::Null { meta } => Emit::Text(null_node_out(meta, indent)),
            CustomNode::Alias { name } => Emit::Text(alias_node_out(name@, indent)),
        },
{
}

proof fn lemma_mapping_node(
    ps: Seq<(CustomNode, CustomNode)>,
    meta: NodeMeta,
    flow_style: bool,
    indent: nat,
    depth: nat,
    in_value: bool,
    o: SerializeOptions,
)
    ensures
        mapping_node_out(ps, meta, flow_style, indent, depth, in_value, o) == if flow_style {
            then(
                Emit::Text(seq!['{']),
                then(
                    flow_pairs(ps, 0, depth + 1, o),
                    Emit::Text(seq!['}'] + inline_comment(meta) + seq!['\n']),
                ),
            )
        } else if ps.len() == 0 {
            Emit::Text(container_header(meta, indent, in_value) + spaces(indent) + "{}\n"@)
        } else {
            then(
                Emit::Text(container_header(meta, indent, in_value)),
                then(
                    block_pairs(ps, pair_order(ps, o), 0, indent, depth, o),
                    Emit::Text(trailing_comment(meta, indent)),
                ),
            )
        },
{
}

proof fn lemma_sequence_node(
    items: Seq<CustomNode>,
    meta: NodeMeta,
    flow_style: bool,
    indent: nat,
    depth: nat,
    in_value: bool,
    o: SerializeOptions,
)
    ensures
        sequence_node_out(items, meta, flow_style, indent, depth, in_value, o) == if flow_style {
            then(
                Emit::Text(seq!['[']),
                then(
                    flow_items(items, 0, depth + 1, o),
                    Emit::Text(seq![']'] + inline_comment(meta) + seq!['\n']),
                ),
            )
        } else if items.len() == 0 {
            Emit::Text(container_header(meta, indent, in_value) + spaces(indent) + "[]\n"@)
        } else {
            then(
                Emit::Text(container_header(meta, indent, in_value)),
                then(
                    block_items(items, 0, indent, depth, o),
                    Emit::Text(trailing_comment(meta, indent)),
                ),
            )
        },
{
}

proof fn lemma_block_pairs(
    ps: Seq<(CustomNode, CustomNode)>,
    order: Seq<int>,
    k: int,
    indent: nat,
    depth: nat,
    o: SerializeOptions,
)
    ensures
        block_pairs(ps, order, k, indent, depth, o) == if k < 0 || k >= order.len() || k >= ps.len()
            || !(0 <= order[k] < ps.len()) {
            Emit::Text(seq![])
        } else {
            then(
                pair_out(ps[order[k]], indent, depth, o),
                block_pairs(ps, order, k + 1, indent, depth, o),
            )
        },
{
}

proof fn lemma_pair_out(p: (CustomNode, CustomNode), indent: nat, depth: nat, o: SerializeOptions)
    ensures
        pair_out(p, indent, depth, o) == then(
            pair_key_out(p.0, indent, depth, o),
            then(
                Emit::Text(seq![':']),
                pair_value_out(p.0 is Mapping || p.0 is Sequence, p.1, indent, depth, o),
            ),
        ),
{
}

proof fn lemma_pair_key(key: CustomNode, indent: nat, depth: nat, o: SerializeOptions)
    ensures
        pair_key_out(key, indent, depth, o) == if key is Mapping || key is Sequence {
            then(Emit::Text(spaces(indent) + "? "@), node_out(key, indent, false, depth + 1, o))
        } else {
            then(
                Emit::Text(standalone_line(comment_of(key), indent) + spaces(indent)),
                opt_emit(key_text(key, o)),
            )
        },
{
}

proof fn lemma_pair_value(
    complex_key: bool,
    value: CustomNode,
    indent: nat,
    depth: nat,
    o: SerializeOptions,
)
    ensures
        pair_value_out(complex_key, value, indent, depth, o) == if is_block_container(value)
            || complex_key {
            if !fits(indent, o.indent_mapping as nat) {
                Emit::Stops
            } else {
                then(
                    Emit::Text(after_colon(value) + seq!['\n']),
                    node_out(value, indent + o.indent_mapping as nat, true, depth + 1, o),
                )
            }
        } else {
            then(Emit::Text(seq![' ']), node_out(value, 0, true, depth + 1, o))
        },
{
}

proof fn lemma_block_items(items: Seq<CustomNode>, k: int, indent: nat, depth: nat, o: SerializeOptions)
    ensures
        block_items(items, k, indent, depth, o) == if k < 0 || k >= items.len() {
            Emit::Text(seq![])
        } else {
            then(item_out(items[k], indent, depth, o), block_items(items, k + 1, indent, depth, o))
        },
{
}

proof fn lemma_item_out(item: CustomNode, indent: nat, depth: nat, o: SerializeOptions)
    ensures
        item_out(item, indent, depth, o) == then(
            Emit::Text(spaces(indent) + "- "@),
            if compact_item(item) {
                match item {
                    CustomNode::Mapping { pairs, .. } => compact_pairs(pairs@, 0, indent, depth, o),
                    _ => Emit::Text(seq![]),
                }
            } else if is_block_container(item) {
                if !fits(indent, o.indent_sequence as nat) {
                    Emit::Stops
                } else {
                    then(
                        Emit::Text(seq!['\n']),
                        node_out(item, indent + o.indent_sequence as nat, false, depth + 1, o),
                    )
                }
            } else {
                node_out(item, 0, false, depth + 1, o)
            },
        ),
{
}

proof fn lemma_compact_pairs(
    ps: Seq<(CustomNode, CustomNode)>,
    i: int,
    indent: nat,
    depth: nat,
    o: SerializeOptions,
)
    ensures
        compact_pairs(ps, i, indent, depth, o) == if i < 0 || i >= ps.len() {
            Emit::Text(seq![])
        } else if i > 0 && !fits(indent, o.indent_sequence as nat) {
            Emit::Stops
        } else {
            then(
                Emit::Text(
                    if i > 0 {
                        spaces(indent + o.indent_sequence as nat)
                    } else {
                        seq![]
                    },
                ),
                then(
                    opt_emit(key_text(ps[i].0, o)),
                    then(
                        Emit::Text(": "@),
                        then(
                            node_out(ps[i].1, 0, true, depth + 1, o),
                            compact_pairs(ps, i + 1, indent, depth, o),
                        ),
                    ),
                ),
            )
        },
{
}

impl Serializer {
    /// Serialize a node at block position: its standalone comment, then its
    /// content.
    fn serialize_node_internal(
        &mut self,
        node: &CustomNode,
        indent_width: usize,
        in_value_context: bool,
        depth: usize,
    ) -> (res: Result<(), SerializeError>)
        requires
            !(node_out(*node, indent_width as nat, in_value_context, depth as nat, old(self).opts) is Stops),
        ensures
            final(self).opts == old(self).opts,
            emitted(
                old(self).output@,
                final(self).output@,
                node_out(*node, indent_width as nat, in_value_context, depth as nat, old(self).opts),
                res,
                old(self).opts.max_depth,
            ),
        decreases *node, 0int, 1int,
    {
        let ghost o = self.opts;
        proof {
            lemma_node_out(*node, indent_width as nat, in_value_context, depth as nat, o);
        }
        if depth >= self.opts.max_depth {
            return Err(SerializeError::MaxDepthExceeded(self.opts.max_depth));
        }
        let ghost start = self.output@;
        let ghost sl = standalone_line(comment_of(*node), indent_width as nat);
        let ghost body = node_body_out(*node, indent_width as nat, in_value_context, depth as nat, o);
        match node_comment(node) {
            Some(c) => {
                if c.standalone {
                    self.write_standalone(c, indent_width);
                }
            },
            None => {},
        }
        assert(self.output@ =~= start + sl);
        proof {
            lemma_step(sl, body, Emit::Text(seq![]));
            lemma_then_empty(body);
        }
        let r = self.write_node_body(node, indent_width, in_value_context, depth);
        proof {
            if r is Ok {
                let t = body->Text_0;
                assert(self.output@ =~= start + (sl + t));
            }
        }
        r
    }

    /// Serialize the content of a node at block position.
    fn write_node_body(
        &mut self,
        node: &CustomNode,
        indent_width: usize,
        in_value_context: bool,
        depth: usize,
    ) -> (res: Result<(), SerializeError>)
        requires
            depth < old(self).opts.max_depth,
            !(node_body_out(*node, indent_width as nat, in_value_context, depth as nat, old(self).opts) is Stops),
        ensures
            final(self).opts == old(self).opts,
            emitted(
                old(self).output@,
                final(self).output@,
                node_body_out(*node, indent_width as nat, in_value_context, depth as nat, old(self).opts),
                res,
                old(self).opts.max_depth,
            ),
        decreases *node, 0int, 0int,
    {
        proof {
            lemma_node_body(*node, indent_width as nat, in_value_context, depth as nat, self.opts);
        }
        match node {
            CustomNode::Scalar { value, style, chomping, meta } => self.write_scalar_node(
                value.as_str(),
                style,
                meta,
                chomping,
                indent_width,
            ),
            CustomNode::Mapping { pairs, flow_style, meta } => self.write_mapping_node(
                pairs,
                meta,
                *flow_style,
                indent_width,
                depth,
                in_value_context,
            ),
            CustomNode::Sequence { items, flow_style, meta } => self.write_sequence_node(
                items,
                meta,
                *flow_style,
                indent_width,
                depth,
                in_value_context,
            ),
            CustomNode::Null { meta } => self.write_null_node(meta, indent_width),
            CustomNode::Alias { name } => self.write_alias_node(name.as_str(), indent_width),
        }
    }

    /// Serialize a mapping node in flow or block style.
    fn write_mapping_node(
        &mut self,
        pairs: &Vec<(CustomNode, CustomNode)>,
        meta: &NodeMeta,
        flow_style: bool,
        indent_width: usize,
        depth: usize,
        in_value_context: bool,
    ) -> (res: Result<(), SerializeError>)
        requires
            depth < old(self).opts.max_depth,
            !(mapping_node_out(pairs@, *meta, flow_style, indent_width as nat, depth as nat, in_value_context, old(self).opts) is Stops),
        ensures
            final(self).opts == old(self).opts,
            emitted(
                old(self).output@,
                final(self).output@,
                mapping_node_out(pairs@, *meta, flow_style, indent_width as nat, depth as nat, in_value_context, old(self).opts),
                res,
                old(self).opts.max_depth,
            ),
        decreases pairs@, pairs@.len() + 1, 0int,
    {
        let ghost start = self.output@;
        let ghost o = self.opts;
        proof {
            lemma_mapping_node(pairs@, *meta, flow_style, indent_width as nat, depth as nat, in_value_context, o);
        }
        if flow_style {
            push_char(&mut self.output, '{');
            let ghost tail = Emit::Text(seq!['}'] + inline_comment(*meta) + seq!['\n']);
            proof {
                lemma_step(seq!['{'], flow_pairs(pairs@, 0, (depth + 1) as nat, o), tail);
            }
            match self.write_flow_pairs(pairs, depth + 1) {
                Ok(()) => {},
                Err(e) => {
                    return Err(e);
                },
            }
            let ghost t = flow_pairs(pairs@, 0, (depth + 1) as nat, o)->Text_0;
            push_char(&mut self.output, '}');
            self.write_inline_comment(meta);
            push_char(&mut self.output, '\n');
            assert(self.output@ =~= start + (seq!['{'] + t + (seq!['}'] + inline_comment(*meta) + seq!['\n'])));
            return Ok(());
        }
        self.write_container_header(meta, indent_width, in_value_context);
        let ghost header = container_header(*meta, indent_width as nat, in_value_context);
        if pairs.len() == 0 {
            self.write_indent(indent_width);
            self.output.append("{}\n");
            assert(self.output@ =~= start + (header + spaces(indent_width as nat) + "{}\n"@));
            return Ok(());
        }
        let order = pair_order_of(pairs, self.opts.sort_keys);
        let ghost ord = as_ints(order@);
        let ghost bp = block_pairs(pairs@, ord, 0, indent_width as nat, depth as nat, o);
        let ghost tail = Emit::Text(trailing_comment(*meta, indent_width as nat));
        proof {
            lemma_step(header, bp, tail);
        }
        let ghost mid = self.output@;
        match self.write_block_pairs(pairs, &order, indent_width, depth) {
            Ok(()) => {},
            Err(e) => {
                return Err(e);
            },
        }
        let ghost t = bp->Text_0;
        self.write_trailing_comment(meta, indent_width);
        assert(self.output@ =~= start + (header + t + trailing_comment(*meta, indent_width as nat)));
        Ok(())
    }

    /// Write the pairs of a block mapping in the given order.
    fn write_block_pairs(
        &mut self,
        pairs: &Vec<(CustomNode, CustomNode)>,
        order: &Vec<usize>,
        indent_width: usize,
        depth: usize,
    ) -> (res: Result<(), SerializeError>)
        requires
            depth < old(self).opts.max_depth,
            order@.len() == pairs@.len(),
            forall|j: int| 0 <= j < order@.len() ==> #[trigger] order@[j] < pairs@.len(),
            !(block_pairs(pairs@, as_ints(order@), 0, indent_width as nat, depth as nat, old(self).opts) is Stops),
        ensures
            final(self).opts == old(self).opts,
            emitted(
                old(self).output@,
                final(self).output@,
                block_pairs(pairs@, as_ints(order@), 0, indent_width as nat, depth as nat, old(self).opts),
                res,
                old(self).opts.max_depth,
            ),
        decreases pairs@, pairs@.len(), 1int,
    {
        let ghost start = self.output@;
        let ghost o = self.opts;
        let ghost ord = as_ints(order@);
        let ghost total = block_pairs(pairs@, ord, 0, indent_width as nat, depth as nat, o);
        proof {
            lemma_then_empty(total);
            assert(start.skip(start.len() as int) =~= Seq::<char>::empty());
        }
        let mut k: usize = 0;
        while k < order.len()
            invariant
                0 <= k <= order@.len(),
                order@.len() == pairs@.len(),
                forall|j: int| 0 <= j < order@.len() ==> #[trigger] order@[j] < pairs@.len(),
                ord == as_ints(order@),
                self.opts == o,
                o == old(self).opts,
                start == old(self).output@,
                depth < o.max_depth,
                start.len() <= self.output@.len(),
                self.output@ == start + self.output@.skip(start.len() as int),
                total == block_pairs(pairs@, ord, 0, indent_width as nat, depth as nat, o),
                !(total is Stops),
                then(Emit::Text(self.output@.skip(start.len() as int)), block_pairs(pairs@, ord, k as int, indent_width as nat, depth as nat, o)) == total,
            decreases order@.len() - k,
        {
            let j = order[k];
            let ghost acc = self.output@.skip(start.len() as int);
            let ghost rest = block_pairs(pairs@, ord, k + 1, indent_width as nat, depth as nat, o);
            proof {
                lemma_block_pairs(pairs@, ord, k as int, indent_width as nat, depth as nat, o);
                assert(ord[k as int] == j as int);
                assert(pair_of(pairs@[j as int].0, pairs@[j as int].1) == pairs@[j as int]);
                lemma_step(acc, pair_out(pairs@[j as int], indent_width as nat, depth as nat, o), rest);
            }
            match self.write_mapping_pair(&pairs[j].0, &pairs[j].1, indent_width, depth) {
                Ok(()) => {},
                Err(e) => {
                    return Err(e);
                },
            }
            proof {
                let t = pair_out(pairs@[j as int], indent_width as nat, depth as nat, o)->Text_0;
                assert(self.output@ =~= start + (acc + t));
                assert(self.output@.skip(start.len() as int) =~= acc + t);
            }
            k = k + 1;
        }
        proof {
            lemma_block_pairs(pairs@, ord, k as int, indent_width as nat, depth as nat, o);
            let acc = self.output@.skip(start.len() as int);
            assert(acc + Seq::<char>::empty() =~= acc);
        }
        Ok(())
    }

    /// Write one `key: value` pair of a block mapping.
    fn write_mapping_pair(
        &mut self,
        key: &CustomNode,
        value: &CustomNode,
        indent_width: usize,
        depth: usize,
    ) -> (res: Result<(), SerializeError>)
        requires
            depth < usize::MAX,
            !(pair_out(pair_of(*key, *value), indent_width as nat, depth as nat, old(self).opts) is Stops),
        ensures
            final(self).opts == old(self).opts,
            emitted(
                old(self).output@,
                final(self).output@,
                pair_out(pair_of(*key, *value), indent_width as nat, depth as nat, old(self).opts),
                res,
                old(self).opts.max_depth,
            ),
        decreases pair_of(*key, *value), 0int, 0int,
    {
        let ghost start = self.output@;
        let ghost o = self.opts;
        let ghost complex_spec = key is Mapping || key is Sequence;
        let ghost kp = pair_key_out(*key, indent_width as nat, depth as nat, o);
        let ghost vp = pair_value_out(complex_spec, *value, indent_width as nat, depth as nat, o);
        proof {
            lemma_pair_out(pair_of(*key, *value), indent_width as nat, depth as nat, o);
            lemma_then_empty(pair_out(pair_of(*key, *value), indent_width as nat, depth as nat, o));
            lemma_step(seq![], kp, then(Emit::Text(seq![':']), vp));
        }
        let complex = match key {
            CustomNode::Mapping { .. } => true,
            CustomNode::Sequence { .. } => true,
            _ => false,
        };
        match self.write_pair_key(key, indent_width, depth) {
            Ok(()) => {},
            Err(e) => {
                return Err(e);
            },
        }
        let ghost kt = kp->Text_0;
        assert(self.output@ =~= start + kt);
        push_char(&mut self.output, ':');
        proof {
            assert(Seq::<char>::empty() + kt =~= kt);
            lemma_step(kt, Emit::Text(seq![':']), vp);
            lemma_step(kt + seq![':'], vp, Emit::Text(seq![]));
            lemma_then_empty(vp);
        }
        assert(self.output@ =~= start + (kt + seq![':']));
        match self.write_pair_value(complex, value, indent_width, depth) {
            Ok(()) => {},
            Err(e) => {
                return Err(e);
            },
        }
        proof {
            let vt = vp->Text_0;
            assert(self.output@ =~= start + (kt + seq![':'] + vt));
            assert(kt + seq![':'] + vt + Seq::<char>::empty() =~= kt + seq![':'] + vt);
        }
        Ok(())
    }

    /// Write the key of a block mapping pair.
    fn write_pair_key(&mut self, key: &CustomNode, indent_width: usize, depth: usize) -> (res: Result<(), SerializeError>)
        requires
            depth < usize::MAX,
            !(pair_key_out(*key, indent_width as nat, depth as nat, old(self).opts) is Stops),
        ensures
            final(self).opts == old(self).opts,
            emitted(
                old(self).output@,
                final(self).output@,
                pair_key_out(*key, indent_width as nat, depth as nat, old(self).opts),
                res,
                old(self).opts.max_depth,
            ),
        decreases *key, 0int, 2int,
    {
        let ghost start = self.output@;
        let ghost o = self.opts;
        proof {
            lemma_pair_key(*key, indent_width as nat, depth as nat, o);
        }
        let complex = match key {
            CustomNode::Mapping { .. } => true,
            CustomNode::Sequence { .. } => true,
            _ => false,
        };
        if complex {
            self.write_indent(indent_width);
            self.output.append("? ");
            let ghost head = spaces(indent_width as nat) + "? "@;
            let ghost ko = node_out(*key, indent_width as nat, false, (depth + 1) as nat, o);
            proof {
                lemma_step(head, ko, Emit::Text(seq![]));
                lemma_then_empty(ko);
            }
            assert(self.output@ =~= start + head);
            match self.serialize_node_internal(key, indent_width, false, depth + 1) {
                Ok(()) => {},
                Err(e) => {
                    return Err(e);
                },
            }
            proof {
                assert(self.output@ =~= start + (head + ko->Text_0));
            }
            Ok(())
        } else {
            match node_comment(key) {
                Some(c) => {
                    if c.standalone {
                        self.write_standalone(c, indent_width);
                    }
                },
                None => {},
            }
            self.write_indent(indent_width);
            let ghost head = standalone_line(comment_of(*key), indent_width as nat) + spaces(indent_width as nat);
            assert(self.output@ =~= start + head);
            self.write_scalar_for_key(key);
            assert(self.output@ =~= start + (head + key_text(*key, o)->0));
            Ok(())
        }
    }

    /// Write the value of a block mapping pair, after the colon.
    fn write_pair_value(
        &mut self,
        complex_key: bool,
        value: &CustomNode,
        indent_width: usize,
        depth: usize,
    ) -> (res: Result<(), SerializeError>)
        requires
            depth < usize::MAX,
            !(pair_value_out(complex_key, *value, indent_width as nat, depth as nat, old(self).opts) is Stops),
        ensures
            final(self).opts == old(self).opts,
            emitted(
                old(self).output@,
                final(self).output@,
                pair_value_out(complex_key, *value, indent_width as nat, depth as nat, old(self).opts),
                res,
                old(self).opts.max_depth,
            ),
        decreases *value, 0int, 2int,
    {
        let ghost start = self.output@;
        let ghost o = self.opts;
        let ghost d1 = (depth + 1) as nat;
        proof {
            lemma_pair_value(complex_key, *value, indent_width as nat, depth as nat, o);
        }
        let block_value = match value {
            CustomNode::Mapping { flow_style, .. } => !*flow_style,
            CustomNode::Sequence { flow_style, .. } => !*flow_style,
            _ => false,
        };
        if block_value || complex_key {
            self.write_after_colon_of(value);
            push_char(&mut self.output, '\n');
            let ghost head = after_colon(*value) + seq!['\n'];
            assert(self.output@ =~= start + head);
            let ind2 = indent_width + self.opts.indent_mapping;
            let ghost vo = node_out(*value, ind2 as nat, true, d1, o);
            proof {
                lemma_step(head, vo, Emit::Text(seq![]));
                lemma_then_empty(vo);
            }
            match self.serialize_node_internal(value, ind2, true, depth + 1) {
                Ok(()) => {},
                Err(e) => {
                    return Err(e);
                },
            }
            proof {
                assert(self.output@ =~= start + (head + vo->Text_0));
            }
            Ok(())
        } else {
            push_char(&mut self.output, ' ');
            let ghost vo = node_out(*value, 0, true, d1, o);
            proof {
                lemma_step(seq![' '], vo, Emit::Text(seq![]));
                lemma_then_empty(vo);
            }
            assert(self.output@ =~= start + seq![' ']);
            match self.serialize_node_internal(value, 0, true, depth + 1) {
                Ok(()) => {},
                Err(e) => {
                    return Err(e);
                },
            }
            proof {
                assert(self.output@ =~= start + (seq![' '] + vo->Text_0));
            }
            Ok(())
        }
    }

    /// Write the anchor and tag of a block value after the colon.
    fn write_after_colon_of(&mut self, value: &CustomNode)
        ensures
            final(self).opts == old(self).opts,
            final(self).output@ == old(self).output@ + after_colon(*value),
    {
        match value {
            CustomNode::Alias { .. } => {
                assert(self.output@ =~= self.output@ + after_colon(*value));
            },
            CustomNode::Scalar { meta, .. } => {
                self.write_after_colon(meta);
            },
            CustomNode::Mapping { meta, .. } => {
                self.write_after_colon(meta);
            },
            CustomNode::Sequence { meta, .. } => {
                self.write_after_colon(meta);
            },
            CustomNode::Null { meta } => {
                self.write_after_colon(meta);
            },
        }
    }

    /// Write ` &anchor` and ` tag` after the colon of a block value.
    fn write_after_colon(&mut self, meta: &NodeMeta)
        ensures
            final(self).opts == old(self).opts,
            final(self).output@ == old(self).output@ + (match meta.anchor {
                Some(a) => " &"@ + a@,
                None => Seq::<char>::empty(),
            }) + (match meta.tag {
                Some(t) => seq![' '] + tag_text(t.handle@, t.suffix@),
                None => Seq::<char>::empty(),
            }),
    {
        let ghost start = self.output@;
        if let Some(a) = &meta.anchor {
            self.output.append(" &");
            self.output.append(a.as_str());
        }
        let ghost mid = self.output@;
        if let Some(t) = &meta.tag {
            push_char(&mut self.output, ' ');
            let text = t.to_tag_string();
            self.output.append(text.as_str());
        }
        proof {
            let a_part = match &meta.anchor {
                Some(a) => " &"@ + a@,
                None => Seq::<char>::empty(),
            };
            let t_part = match &meta.tag {
                Some(t) => seq![' '] + tag_text(t.handle@, t.suffix@),
                None => Seq::<char>::empty(),
            };
            assert(mid =~= start + a_part);
            assert(self.output@ =~= start + a_part + t_part);
        }
    }
}

impl Serializer {
    /// Serialize a sequence node in flow or block style.
    fn write_sequence_node(
        &mut self,
        items: &Vec<CustomNode>,
        meta: &NodeMeta,
        flow_style: bool,
        indent_width: usize,
        depth: usize,
        in_value_context: bool,
    ) -> (res: Result<(), SerializeError>)
        requires
            depth < old(self).opts.max_depth,
            !(sequence_node_out(items@, *meta, flow_style, indent_width as nat, depth as nat, in_value_context, old(self).opts) is Stops),
        ensures
            final(self).opts == old(self).opts,
            emitted(
                old(self).output@,
                final(self).output@,
                sequence_node_out(items@, *meta, flow_style, indent_width as nat, depth as nat, in_value_context, old(self).opts),
                res,
                old(self).opts.max_depth,
            ),
        decreases items@, items@.len() + 1, 0int,
    {
        let ghost start = self.output@;
        let ghost o = self.opts;
        proof {
            lemma_sequence_node(items@, *meta, flow_style, indent_width as nat, depth as nat, in_value_context, o);
        }
        if flow_style {
            push_char(&mut self.output, '[');
            let ghost tail = Emit::Text(seq![']'] + inline_comment(*meta) + seq!['\n']);
            proof {
                lemma_step(seq!['['], flow_items(items@, 0, (depth + 1) as nat, o), tail);
            }
            match self.write_flow_items(items, depth + 1) {
                Ok(()) => {},
                Err(e) => {
                    return Err(e);
                },
            }
            let ghost t = flow_items(items@, 0, (depth + 1) as nat, o)->Text_0;
            push_char(&mut self.output, ']');
            self.write_inline_comment(meta);
            push_char(&mut self.output, '\n');
            assert(self.output@ =~= start + (seq!['['] + t + (seq![']'] + inline_comment(*meta) + seq!['\n'])));
            return Ok(());
        }
        self.write_container_header(meta, indent_width, in_value_context);
        let ghost header = container_header(*meta, indent_width as nat, in_value_context);
        if items.len() == 0 {
            self.write_indent(indent_width);
            self.output.append("[]\n");
            assert(self.output@ =~= start + (header + spaces(indent_width as nat) + "[]\n"@));
            return Ok(());
        }
        let ghost bi = block_items(items@, 0, indent_width as nat, depth as nat, o);
        let ghost tail = Emit::Text(trailing_comment(*meta, indent_width as nat));
        proof {
            lemma_step(header, bi, tail);
        }
        match self.write_block_items(items, indent_width, depth) {
            Ok(()) => {},
            Err(e) => {
                return Err(e);
            },
        }
        let ghost t = bi->Text_0;
        self.write_trailing_comment(meta, indent_width);
        assert(self.output@ =~= start + (header + t + trailing_comment(*meta, indent_width as nat)));
        Ok(())
    }

    /// Write the items of a block sequence.
    fn write_block_items(&mut self, items: &Vec<CustomNode>, indent_width: usize, depth: usize) -> (res: Result<(), SerializeError>)
        requires
            depth < old(self).opts.max_depth,
            !(block_items(items@, 0, indent_width as nat, depth as nat, old(self).opts) is Stops),
        ensures
            final(self).opts == old(self).opts,
            emitted(
                old(self).output@,
                final(self).output@,
                block_items(items@, 0, indent_width as nat, depth as nat, old(self).opts),
                res,
                old(self).opts.max_depth,
            ),
        decreases items@, items@.len(), 1int,
    {
        let ghost start = self.output@;
        let ghost o = self.opts;
        let ghost total = block_items(items@, 0, indent_width as nat, depth as nat, o);
        proof {
            lemma_then_empty(total);
            assert(start.skip(start.len() as int) =~= Seq::<char>::empty());
        }
        let mut k: usize = 0;
        while k < items.len()
            invariant
                0 <= k <= items@.len(),
                self.opts == o,
                o == old(self).opts,
                start == old(self).output@,
                depth < o.max_depth,
                start.len() <= self.output@.len(),
                self.output@ == start + self.output@.skip(start.len() as int),
                total == block_items(items@, 0, indent_width as nat, depth as nat, o),
                !(total is Stops),
                then(Emit::Text(self.output@.skip(start.len() as int)), block_items(items@, k as int, indent_width as nat, depth as nat, o)) == total,
            decreases items@.len() - k,
        {
            let ghost acc = self.output@.skip(start.len() as int);
            let ghost rest = block_items(items@, k + 1, indent_width as nat, depth as nat, o);
            proof {
                lemma_block_items(items@, k as int, indent_width as nat, depth as nat, o);
                lemma_step(acc, item_out(items@[k as int], indent_width as nat, depth as nat, o), rest);
            }
            match self.write_sequence_item(&items[k], indent_width, depth) {
                Ok(()) => {},
                Err(e) => {
                    return Err(e);
                },
            }
            proof {
                let t = item_out(items@[k as int], indent_width as nat, depth as nat, o)->Text_0;
                assert(self.output@ =~= start + (acc + t));
                assert(self.output@.skip(start.len() as int) =~= acc + t);
            }
            k = k + 1;
        }
        proof {
            lemma_block_items(items@, k as int, indent_width as nat, depth as nat, o);
            let acc = self.output@.skip(start.len() as int);
            assert(acc + Seq::<char>::empty() =~= acc);
        }
        Ok(())
    }

    /// Write one `- ` item of a block sequence, keeping the compact inline
    /// form for plain mappings on the dash line.
    fn write_sequence_item(&mut self, item: &CustomNode, indent_width: usize, depth: usize) -> (res: Result<(), SerializeError>)
        requires
            depth < usize::MAX,
            !(item_out(*item, indent_width as nat, depth as nat, old(self).opts) is Stops),
        ensures
            final(self).opts == old(self).opts,
            emitted(
                old(self).output@,
                final(self).output@,
                item_out(*item, indent_width as nat, depth as nat, old(self).opts),
                res,
                old(self).opts.max_depth,
            ),
        decreases *item, 0int, 2int,
    {
        let ghost start = self.output@;
        let ghost o = self.opts;
        let ghost d1 = (depth + 1) as nat;
        proof {
            lemma_item_out(*item, indent_width as nat, depth as nat, o);
        }
        self.write_indent(indent_width);
        self.output.append("- ");
        let ghost head = spaces(indent_width as nat) + "- "@;
        assert(self.output@ =~= start + head);
        if is_compact_item(item) {
            match item {
                CustomNode::Mapping { pairs, .. } => {
                    let ghost cp = compact_pairs(pairs@, 0, indent_width as nat, depth as nat, o);
                    proof {
                        lemma_step(head, cp, Emit::Text(seq![]));
                        lemma_then_empty(cp);
                    }
                    match self.write_compact_pairs(pairs, indent_width, depth) {
                        Ok(()) => {},
                        Err(e) => {
                            return Err(e);
                        },
                    }
                    proof {
                        assert(self.output@ =~= start + (head + cp->Text_0));
                    }
                    Ok(())
                },
                _ => {
                    assert(false);
                    Ok(())
                },
            }
        } else {
            let block = match item {
                CustomNode::Mapping { flow_style, .. } => !*flow_style,
                CustomNode::Sequence { flow_style, .. } => !*flow_style,
                _ => false,
            };
            if block {
                push_char(&mut self.output, '\n');
                let ind2 = indent_width + self.opts.indent_sequence;
                let ghost vo = node_out(*item, ind2 as nat, false, d1, o);
                proof {
                    lemma_step(head, Emit::Text(seq!['\n']), vo);
                    lemma_step(head + seq!['\n'], vo, Emit::Text(seq![]));
                    lemma_then_empty(vo);
                }
                assert(self.output@ =~= start + (head + seq!['\n']));
                match self.serialize_node_internal(item, ind2, false, depth + 1) {
                    Ok(()) => {},
                    Err(e) => {
                        return Err(e);
                    },
                }
                proof {
                    assert(self.output@ =~= start + (head + seq!['\n'] + vo->Text_0));
                }
                Ok(())
            } else {
                let ghost vo = node_out(*item, 0, false, d1, o);
                proof {
                    lemma_step(head, vo, Emit::Text(seq![]));
                    lemma_then_empty(vo);
                }
                match self.serialize_node_internal(item, 0, false, depth + 1) {
                    Ok(()) => {},
                    Err(e) => {
                        return Err(e);
                    },
                }
                proof {
                    assert(self.output@ =~= start + (head + vo->Text_0));
                }
                Ok(())
            }
        }
    }

    /// Write the pairs of a compact sequence item.
    fn write_compact_pairs(
        &mut self,
        pairs: &Vec<(CustomNode, CustomNode)>,
        indent_width: usize,
        depth: usize,
    ) -> (res: Result<(), SerializeError>)
        requires
            depth < usize::MAX,
            !(compact_pairs(pairs@, 0, indent_width as nat, depth as nat, old(self).opts) is Stops),
        ensures
            final(self).opts == old(self).opts,
            emitted(
                old(self).output@,
                final(self).output@,
                compact_pairs(pairs@, 0, indent_width as nat, depth as nat, old(self).opts),
                res,
                old(self).opts.max_depth,
            ),
        decreases pairs@, pairs@.len() + 1, 0int,
    {
        let ghost start = self.output@;
        let ghost o = self.opts;
        let ghost d1 = (depth + 1) as nat;
        let ghost total = compact_pairs(pairs@, 0, indent_width as nat, depth as nat, o);
        proof {
            lemma_then_empty(total);
            assert(start.skip(start.len() as int) =~= Seq::<char>::empty());
        }
        let mut i: usize = 0;
        while i < pairs.len()
            invariant
                0 <= i <= pairs@.len(),
                self.opts == o,
                o == old(self).opts,
                start == old(self).output@,
                depth < usize::MAX,
                d1 == depth + 1,
                start.len() <= self.output@.len(),
                self.output@ == start + self.output@.skip(start.len() as int),
                total == compact_pairs(pairs@, 0, indent_width as nat, depth as nat, o),
                !(total is Stops),
                then(Emit::Text(self.output@.skip(start.len() as int)), compact_pairs(pairs@, i as int, indent_width as nat, depth as nat, o)) == total,
            decreases pairs@.len() - i,
        {
            let ghost acc = self.output@.skip(start.len() as int);
            let ghost pre = if i > 0 {
                spaces(indent_width as nat + o.indent_sequence as nat)
            } else {
                Seq::<char>::empty()
            };
            let ghost key = key_text(pairs@[i as int].0, o);
            let ghost vo = node_out(pairs@[i as int].1, 0, true, d1, o);
            let ghost rest = compact_pairs(pairs@, i + 1, indent_width as nat, depth as nat, o);
            proof {
                lemma_compact_pairs(pairs@, i as int, indent_width as nat, depth as nat, o);
                if i > 0 && !fits(indent_width as nat, o.indent_sequence as nat) {
                    assert(then(Emit::Text(acc), Emit::Stops) is Stops);
                }
                lemma_step(acc, Emit::Text(pre), then(opt_emit(key), then(Emit::Text(": "@), then(vo, rest))));
                lemma_step(acc + pre, opt_emit(key), then(Emit::Text(": "@), then(vo, rest)));
            }
            if i > 0 {
                self.write_indent(indent_width + self.opts.indent_sequence);
            }
            assert(self.output@ =~= start + (acc + pre));
            self.write_scalar_for_key(&pairs[i].0);
            self.output.append(": ");
            let ghost acc2 = acc + pre + key->0 + ": "@;
            proof {
                lemma_step(acc + pre + key->0, Emit::Text(": "@), then(vo, rest));
                lemma_step(acc2, vo, rest);
                assert(self.output@ =~= start + acc2);
            }
            match self.serialize_node_internal(&pairs[i].1, 0, true, depth + 1) {
                Ok(()) => {},
                Err(e) => {
                    return Err(e);
                },
            }
            proof {
                let t = vo->Text_0;
                assert(self.output@ =~= start + (acc2 + t));
                assert(self.output@.skip(start.len() as int) =~= acc2 + t);
            }
            i = i + 1;
        }
        proof {
            lemma_compact_pairs(pairs@, i as int, indent_width as nat, depth as nat, o);
            let acc = self.output@.skip(start.len() as int);
            assert(acc + Seq::<char>::empty() =~= acc);
        }
        Ok(())
    }
}

/// What a document serialization returns for an emission.
pub open spec fn result_of(e: Emit, max_depth: usize, res: Result<String, SerializeError>) -> bool {
    match e {
        Emit::Text(t) => res is Ok && res->Ok_0@ == t,
        Emit::TooDeep => res == Err::<String, SerializeError>(SerializeError::MaxDepthExceeded(max_depth)),
        Emit::Stops => false,
    }
}

/// Serialization fails only for depth: whatever error comes back is the
/// depth error naming the configured maximum.
pub proof fn law_serialize_fails_only_on_depth(node: CustomNode, o: SerializeOptions, res: Result<String, SerializeError>)
    requires
        result_of(document_out(node, o), o.max_depth, res),
    ensures
        res is Err ==> res == Err::<String, SerializeError>(SerializeError::MaxDepthExceeded(o.max_depth)),
{
}

/// Serialize a node tree to YAML text with the given options: `---` first
/// when `explicit_start`, the root at `indent_offset`, `...` last when
/// `explicit_end`; the depth error when the nesting reaches `max_depth`.
pub fn to_yaml_with_options(node: &CustomNode, options: &SerializeOptions) -> (res: Result<String, SerializeError>)
    requires
        !(document_out(*node, *options) is Stops),
    ensures
        result_of(document_out(*node, *options), options.max_depth, res),
{
    let mut s = Serializer::new(options);
    let ghost o = *options;
    let ghost head = if o.explicit_start { "---\n"@ } else { Seq::<char>::empty() };
    let ghost tail = Emit::Text(if o.explicit_end { "...\n"@ } else { Seq::<char>::empty() });
    let ghost body = node_out(*node, o.indent_offset as nat, false, 0, o);
    proof {
        lemma_step(head, body, tail);
    }
    if options.explicit_start {
        s.output.append("---\n");
    }
    assert(s.output@ =~= head);
    match s.serialize_node_internal(node, options.indent_offset, false, 0) {
        Ok(()) => {},
        Err(e) => {
            return Err(e);
        },
    }
    if options.explicit_end {
        s.output.append("...\n");
    }
    assert(s.output@ =~= head + body->Text_0 + tail->Text_0);
    Ok(s.output)
}

/// Serialize a node tree to YAML text with the default options.
pub fn to_yaml(node: &CustomNode) -> (res: String)
    requires
        document_out(*node, SerializeOptions::spec_default()) is Text,
    ensures
        res@ == document_out(*node, SerializeOptions::spec_default())->Text_0,
{
    let opts = SerializeOptions::default();
    match to_yaml_with_options(node, &opts) {
        Ok(s) => s,
        Err(_) => {
            assert(false);
            String::new()
        },
    }
}

/// Serialize one block-mapping pair with the default options, producing
/// the text a regeneration of that pair splices in.
pub fn pair_to_string(
    key: &CustomNode,
    value: &CustomNode,
    indent_width: usize,
    depth: usize,
) -> (res: Result<String, SerializeError>)
    requires
        depth < usize::MAX,
        !(pair_out(pair_of(*key, *value), indent_width as nat, depth as nat, SerializeOptions::spec_default()) is Stops),
    ensures
        result_of(
            pair_out(pair_of(*key, *value), indent_width as nat, depth as nat, SerializeOptions::spec_default()),
            1000,
            res,
        ),
{
    let mut s = Serializer::new(&SerializeOptions::default());
    match s.write_mapping_pair(key, value, indent_width, depth) {
        Ok(()) => {},
        Err(e) => {
            return Err(e);
        },
    }
    assert(s.output@ =~= Seq::<char>::empty() + s.output@);
    Ok(s.output)
}

/// Serialize one block-sequence item with the default options.
pub fn item_to_string(item: &CustomNode, indent_width: usize, depth: usize) -> (res: Result<String, SerializeError>)
    requires
        depth < usize::MAX,
        !(item_out(*item, indent_width as nat, depth as nat, SerializeOptions::spec_default()) is Stops),
    ensures
        result_of(
            item_out(*item, indent_width as nat, depth as nat, SerializeOptions::spec_default()),
            1000,
            res,
        ),
{
    let mut s = Serializer::new(&SerializeOptions::default());
    match s.write_sequence_item(item, indent_width, depth) {
        Ok(()) => {},
        Err(e) => {
            return Err(e);
        },
    }
    Ok(s.output)
}

} // verus!
