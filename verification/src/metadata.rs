//! Metadata preservation when an edited node replaces an existing one.
use crate::ast::{same_node, CustomNode, NodeMeta, ScalarStyle};
use crate::text::{chars_of, is_whitespace, is_ws};
use vstd::prelude::*;

verus! {

/// A character that forces quoting of a plain value: whitespace or one of
/// `:{}[],&#*!|>`.
pub open spec fn quote_trigger(c: char) -> bool {
    is_ws(c) || c == ':' || c == '{' || c == '}' || c == '[' || c == ']' || c == ',' || c == '&'
        || c == '#' || c == '*' || c == '!' || c == '|' || c == '>'
}

/// A value needs quoting when it is empty or holds a quote-triggering character.
pub open spec fn needs_quoting_spec(v: Seq<char>) -> bool {
    v.len() == 0 || exists|i: int| 0 <= i < v.len() && #[trigger] quote_trigger(v[i])
}

/// Whether a replacement value must keep a quoted style rather than be
/// emitted plain.
pub fn needs_quoting(value: &str) -> (res: bool)
    ensures
        res == needs_quoting_spec(value@),
{
    let v = chars_of(value);
    if v.len() == 0 {
        return true;
    }
    let mut i: usize = 0;
    while i < v.len()
        invariant
            v@ == value@,
            0 <= i <= v@.len(),
            forall|j: int| 0 <= j < i ==> !#[trigger] quote_trigger(v@[j]),
        decreases v@.len() - i,
    {
        let c = v[i];
        if is_whitespace(c) || c == ':' || c == '{' || c == '}' || c == '[' || c == ']' || c == ','
            || c == '&' || c == '#' || c == '*' || c == '!' || c == '|' || c == '>' {
            assert(quote_trigger(value@[i as int]));
            return true;
        }
        i = i + 1;
    }
    false
}

/// The node `with_metadata_from` builds: the target's content with the
/// source's comment, anchor and tag (no source range). A plain target scalar
/// takes the source's quoted style when its value does not need quoting, and
/// the source's chomping; a container is in flow style when either is.
/// Nodes of different kinds leave the target as it is.
pub open spec fn with_metadata_spec(target: CustomNode, src: CustomNode) -> CustomNode {
    match (target, src) {
        (
            CustomNode::Scalar { value, style, .. },
            CustomNode::Scalar { style: src_style, meta: src_meta, chomping, .. },
        ) => CustomNode::Scalar {
            value,
            style: if style == ScalarStyle::Plain && src_style != ScalarStyle::Plain
                && !needs_quoting_spec(value@) {
                src_style
            } else {
                style
            },
            meta: NodeMeta { source_range: None, ..src_meta },
            chomping,
        },
        (
            CustomNode::Mapping { pairs, flow_style, .. },
            CustomNode::Mapping { meta: src_meta, flow_style: src_flow, .. },
        ) => CustomNode::Mapping {
            pairs,
            meta: NodeMeta { source_range: None, ..src_meta },
            flow_style: flow_style || src_flow,
        },
        (
            CustomNode::Sequence { items, flow_style, .. },
            CustomNode::Sequence { meta: src_meta, flow_style: src_flow, .. },
        ) => CustomNode::Sequence {
            items,
            meta: NodeMeta { source_range: None, ..src_meta },
            flow_style: flow_style || src_flow,
        },
        (CustomNode::Null { .. }, CustomNode::Null { meta: src_meta }) => CustomNode::Null {
            meta: NodeMeta { source_range: None, ..src_meta },
        },
        _ => target,
    }
}

/// A copy of `target` carrying `src`'s comment, anchor and tag (see
/// `with_metadata_spec`).
pub fn with_metadata_from(target: &CustomNode, src: &CustomNode) -> (res: CustomNode)
    ensures
        same_node(res, with_metadata_spec(*target, *src)),
{
    match (target, src) {
        (
            CustomNode::Scalar { value, style, .. },
            CustomNode::Scalar { style: src_style, meta: src_meta, chomping, .. },
        ) => {
            let new_style = if *style == ScalarStyle::Plain && *src_style != ScalarStyle::Plain
                && !needs_quoting(value.as_str()) {
                *src_style
            } else {
                *style
            };
            CustomNode::Scalar {
                value: value.clone(),
                style: new_style,
                meta: src_meta.without_range(),
                chomping: *chomping,
            }
        },
        (
            CustomNode::Mapping { flow_style, .. },
            CustomNode::Mapping { meta: src_meta, flow_style: src_flow, .. },
        ) => {
            let copy = target.clone();
            match copy {
                CustomNode::Mapping { pairs, .. } => CustomNode::Mapping {
                    pairs,
                    meta: src_meta.without_range(),
                    flow_style: *flow_style || *src_flow,
                },
                _ => {
                    proof {
                        assert(false);
                    }
                    copy
                },
            }
        },
        (
            CustomNode::Sequence { flow_style, .. },
            CustomNode::Sequence { meta: src_meta, flow_style: src_flow, .. },
        ) => {
            let copy = target.clone();
            match copy {
                CustomNode::Sequence { items, .. } => CustomNode::Sequence {
                    items,
                    meta: src_meta.without_range(),
                    flow_style: *flow_style || *src_flow,
                },
                _ => {
                    proof {
                        assert(false);
                    }
                    copy
                },
            }
        },
        (CustomNode::Null { .. }, CustomNode::Null { meta: src_meta }) => CustomNode::Null {
            meta: src_meta.without_range(),
        },
        _ => target.clone(),
    }
}

} // verus!
