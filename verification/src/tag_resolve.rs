//! Applying registered tag handlers to the tagged scalars of a tree.
//!
//! The handlers of a tag run in ascending priority order on the scalar's
//! value: the first that returns a text replaces the value, one that skips
//! passes control to the next, and one that returns something other than a
//! text, or fails, stops the resolution with an error.
use crate::ast::{tag_text, CustomNode, NodeMeta};
use crate::handlers::TagRegistry;
use crate::registry::entry_index;
use crate::text::string_from;
use vstd::prelude::*;

verus! {

/// What a tag handler made of a scalar's value.
pub enum HandlerOutcome {
    /// The new value.
    Text(String),
    /// Pass control to the next handler.
    Skip,
    /// A result that is not a text.
    NotText,
    /// The handler failed, with this detail.
    Failed(String),
}

/// A handler for the scalars of one tag, supplied by the library's user.
pub trait TagHandler {
    /// Transform the value of a scalar carrying the handler's tag.
    fn handle(&self, value: &str) -> HandlerOutcome;
}

/// Why tag resolution stopped.
#[derive(Debug, PartialEq, Eq, Clone)]
pub enum TagError {
    /// A handler of `tag` returned something other than a text.
    NotText { tag: String },
    /// A handler of `tag` failed with `detail`.
    Failed { tag: String, detail: String },
}

/// What to do after one handler ran.
pub enum ChainStep {
    /// Replace the value and stop.
    Replace(String),
    /// Run the next handler.
    Next,
    /// Stop with an error.
    Fail(TagError),
}

/// The step after a handler of `tag` gave `outcome`.
pub fn chain_step(tag: &str, outcome: HandlerOutcome) -> (res: ChainStep)
    ensures
        match outcome {
            HandlerOutcome::Text(s) => res matches ChainStep::Replace(r) && r == s,
            HandlerOutcome::Skip => res is Next,
            HandlerOutcome::NotText => res matches ChainStep::Fail(TagError::NotText { tag: t }) && t@ == tag@,
            HandlerOutcome::Failed(d) => res matches ChainStep::Fail(TagError::Failed { tag: t, detail })
                && t@ == tag@ && detail == d,
        },
{
    match outcome {
        HandlerOutcome::Text(s) => ChainStep::Replace(s),
        HandlerOutcome::Skip => ChainStep::Next,
        HandlerOutcome::NotText => ChainStep::Fail(TagError::NotText { tag: string_from(tag) }),
        HandlerOutcome::Failed(d) => ChainStep::Fail(TagError::Failed { tag: string_from(tag), detail: d }),
    }
}

/// The tag names that have handlers.
pub open spec fn handled_names<H>(entries: Seq<(Seq<char>, Seq<(u32, H)>)>) -> Set<Seq<char>> {
    Set::new(|n: Seq<char>| entry_index(entries, n) is Some)
}

/// Whether a node's metadata carries a tag that has handlers.
pub open spec fn tag_handled(meta: NodeMeta, names: Set<Seq<char>>) -> bool {
    meta.tag matches Some(t) && names.contains(tag_text(t.handle@, t.suffix@))
}

/// `b` is `a` with at most the values of scalars whose tag has handlers
/// changed: the same shape, styles, metadata and mapping keys, and the same
/// value in every other scalar. Mapping keys are left as they are.
pub open spec fn tags_only(a: CustomNode, b: CustomNode, names: Set<Seq<char>>) -> bool
    decreases a, 0int, 0int,
{
    match a {
        CustomNode::Scalar { value, style, chomping, meta } => match b {
            CustomNode::Scalar { value: v2, style: s2, chomping: c2, meta: m2 } => {
                &&& style == s2
                &&& chomping == c2
                &&& meta == m2
                &&& (v2@ == value@ || tag_handled(meta, names))
            },
            _ => false,
        },
        CustomNode::Mapping { pairs, flow_style, meta } => match b {
            CustomNode::Mapping { pairs: p2, flow_style: f2, meta: m2 } => {
                &&& flow_style == f2
                &&& meta == m2
                &&& pairs@.len() == p2@.len()
                &&& pairs_tags_only(pairs@, p2@, 0, names)
            },
            _ => false,
        },
        CustomNode::Sequence { items, flow_style, meta } => match b {
            CustomNode::Sequence { items: i2, flow_style: f2, meta: m2 } => {
                &&& flow_style == f2
                &&& meta == m2
                &&& items@.len() == i2@.len()
                &&& items_tags_only(items@, i2@, 0, names)
            },
            _ => false,
        },
        _ => a == b,
    }
}

/// Pairs from index `i` on: the same keys, values related by `tags_only`.
pub open spec fn pairs_tags_only(
    ps: Seq<(CustomNode, CustomNode)>,
    qs: Seq<(CustomNode, CustomNode)>,
    i: int,
    names: Set<Seq<char>>,
) -> bool
    decreases ps, ps.len() - i, 0int,
{
    if i < 0 || i >= ps.len() {
        true
    } else {
        &&& ps[i].0 == qs[i].0
        &&& tags_only(ps[i].1, qs[i].1, names)
        &&& pairs_tags_only(ps, qs, i + 1, names)
    }
}

/// Items from index `i` on, related by `tags_only`.
pub open spec fn items_tags_only(xs: Seq<CustomNode>, ys: Seq<CustomNode>, i: int, names: Set<Seq<char>>) -> bool
    decreases xs, xs.len() - i, 0int,
{
    if i < 0 || i >= xs.len() {
        true
    } else {
        tags_only(xs[i], ys[i], names) && items_tags_only(xs, ys, i + 1, names)
    }
}

/// Every node is related to itself.
proof fn lemma_tags_only_refl(a: CustomNode, names: Set<Seq<char>>)
    ensures
        tags_only(a, a, names),
    decreases a, 0int, 0int,
{
    match a {
        CustomNode::Mapping { pairs, .. } => {
            lemma_pairs_refl(pairs@, 0, names);
        },
        CustomNode::Sequence { items, .. } => {
            lemma_items_refl(items@, 0, names);
        },
        _ => {},
    }
}

proof fn lemma_pairs_refl(ps: Seq<(CustomNode, CustomNode)>, i: int, names: Set<Seq<char>>)
    ensures
        pairs_tags_only(ps, ps, i, names),
    decreases ps, ps.len() - i, 0int,
{
    if 0 <= i < ps.len() {
        lemma_tags_only_refl(ps[i].1, names);
        lemma_pairs_refl(ps, i + 1, names);
    }
}

proof fn lemma_items_refl(xs: Seq<CustomNode>, i: int, names: Set<Seq<char>>)
    ensures
        items_tags_only(xs, xs, i, names),
    decreases xs, xs.len() - i, 0int,
{
    if 0 <= i < xs.len() {
        lemma_tags_only_refl(xs[i], names);
        lemma_items_refl(xs, i + 1, names);
    }
}

/// The position-wise form of `pairs_tags_only`.
proof fn lemma_pairs_from_forall(
    ps: Seq<(CustomNode, CustomNode)>,
    qs: Seq<(CustomNode, CustomNode)>,
    i: int,
    names: Set<Seq<char>>,
)
    requires
        0 <= i,
        ps.len() == qs.len(),
        forall|j: int| #![trigger qs[j]] i <= j < ps.len() ==> qs[j].0 == ps[j].0 && tags_only(ps[j].1, qs[j].1, names),
    ensures
        pairs_tags_only(ps, qs, i, names),
    decreases ps.len() - i,
{
    if i < ps.len() {
        lemma_pairs_from_forall(ps, qs, i + 1, names);
    }
}

/// The position-wise form of `items_tags_only`.
proof fn lemma_items_from_forall(xs: Seq<CustomNode>, ys: Seq<CustomNode>, i: int, names: Set<Seq<char>>)
    requires
        0 <= i,
        xs.len() == ys.len(),
        forall|j: int| i <= j < xs.len() ==> tags_only(#[trigger] xs[j], ys[j], names),
    ensures
        items_tags_only(xs, ys, i, names),
    decreases xs.len() - i,
{
    if i < xs.len() {
        lemma_items_from_forall(xs, ys, i + 1, names);
    }
}

/// The value of pair `p`, to be changed in place.
fn value_of_pair<'a>(pairs: &'a mut Vec<(CustomNode, CustomNode)>, p: usize) -> (r: &'a mut CustomNode)
    requires
        p < old(pairs)@.len(),
    ensures
        *r == old(pairs)@[p as int].1,
        final(pairs)@ == old(pairs)@.update(p as int, (old(pairs)@[p as int].0, *final(r))),
{
    let entry = &mut pairs[p];
    &mut entry.1
}

/// The item at `p`, to be changed in place.
fn item_at<'a>(items: &'a mut Vec<CustomNode>, p: usize) -> (r: &'a mut CustomNode)
    requires
        p < old(items)@.len(),
    ensures
        *r == old(items)@[p as int],
        final(items)@ == old(items)@.update(p as int, *final(r)),
{
    &mut items[p]
}

/// The tag an error names.
pub open spec fn error_tag(e: TagError) -> Seq<char> {
    match e {
        TagError::NotText { tag } => tag@,
        TagError::Failed { tag, .. } => tag@,
    }
}

/// Run the handlers of the scalar's tag on its value.
fn resolve_scalar<H: TagHandler + Clone>(
    value: &mut String,
    meta: &NodeMeta,
    registry: &TagRegistry<H>,
) -> (res: Result<(), TagError>)
    requires
        registry.wf(),
    ensures
        final(value)@ == old(value)@ || tag_handled(*meta, handled_names(registry.entries())),
        !tag_handled(*meta, handled_names(registry.entries())) ==> res is Ok,
        res is Err ==> final(value)@ == old(value)@,
        res matches Err(e) ==> (meta.tag matches Some(t) && error_tag(e) == tag_text(t.handle@, t.suffix@)),
{
    let t = match &meta.tag {
        Some(t) => t,
        None => {
            return Ok(());
        },
    };
    let name = t.to_tag_string();
    let handlers = match registry.get_handlers(name.as_str()) {
        Some(h) => h,
        None => {
            return Ok(());
        },
    };
    assert(handled_names(registry.entries()).contains(name@));
    let mut i: usize = 0;
    while i < handlers.len()
        invariant
            0 <= i <= handlers@.len(),
            value@ == old(value)@,
            tag_handled(*meta, handled_names(registry.entries())),
            meta.tag == Some(*t),
            name@ == tag_text(t.handle@, t.suffix@),
        decreases handlers@.len() - i,
    {
        let outcome = handlers[i].1.handle(value.as_str());
        match chain_step(name.as_str(), outcome) {
            ChainStep::Replace(s) => {
                *value = s;
                return Ok(());
            },
            ChainStep::Next => {},
            ChainStep::Fail(e) => {
                return Err(e);
            },
        }
        i = i + 1;
    }
    Ok(())
}

/// Resolve the tagged scalars under `node` (mapping values and sequence
/// items, depth first), stopping at the first handler error.
fn resolve_node<H: TagHandler + Clone>(node: &mut CustomNode, registry: &TagRegistry<H>) -> (res: Result<
    (),
    TagError,
>)
    requires
        registry.wf(),
    ensures
        tags_only(*old(node), *final(node), handled_names(registry.entries())),
    decreases *old(node),
{
    let ghost names = handled_names(registry.entries());
    match node {
        CustomNode::Scalar { value, meta, .. } => resolve_scalar(value, meta, registry),
        CustomNode::Mapping { pairs, .. } => {
            let ghost p0 = pairs@;
            let mut result: Result<(), TagError> = Ok(());
            let mut i: usize = 0;
            while i < pairs.len() && result.is_ok()
                invariant
                    0 <= i <= pairs@.len(),
                    pairs@.len() == p0.len(),
                    registry.wf(),
                    names == handled_names(registry.entries()),
                    forall|j: int| #![trigger pairs@[j]] 0 <= j < i ==> pairs@[j].0 == p0[j].0,
                    forall|j: int| #![trigger pairs@[j]] 0 <= j < i ==> tags_only(p0[j].1, pairs@[j].1, names),
                    forall|j: int| i <= j < p0.len() ==> #[trigger] pairs@[j] == p0[j],
                    *old(node) matches CustomNode::Mapping { pairs: pp, .. } && pp@ == p0,
                decreases pairs@.len() - i,
            {
                let ghost before = pairs@;
                proof {
                    assert(pairs@[i as int] == p0[i as int]);
                    assert(decreases_to!(*old(node) => p0[i as int].1));
                }
                let v = value_of_pair(pairs, i);
                result = resolve_node(v, registry);
                proof {
                    assert(pairs@[i as int].0 == p0[i as int].0);
                    assert(tags_only(p0[i as int].1, pairs@[i as int].1, names));
                    assert forall|j: int| i < j < p0.len() implies #[trigger] pairs@[j] == p0[j] by {
                        assert(pairs@[j] == before[j]);
                    }
                    assert forall|j: int| 0 <= j < i implies #[trigger] pairs@[j] == before[j] by {}
                }
                i = i + 1;
            }
            proof {
                assert forall|j: int| #![trigger pairs@[j]] 0 <= j < p0.len() implies pairs@[j].0 == p0[j].0
                    && tags_only(p0[j].1, pairs@[j].1, names) by {
                    if j >= i {
                        lemma_tags_only_refl(p0[j].1, names);
                    }
                }
                lemma_pairs_from_forall(p0, pairs@, 0, names);
            }
            result
        },
        CustomNode::Sequence { items, .. } => {
            let ghost x0 = items@;
            let mut result: Result<(), TagError> = Ok(());
            let mut i: usize = 0;
            while i < items.len() && result.is_ok()
                invariant
                    0 <= i <= items@.len(),
                    items@.len() == x0.len(),
                    registry.wf(),
                    names == handled_names(registry.entries()),
                    forall|j: int| 0 <= j < i ==> tags_only(#[trigger] x0[j], items@[j], names),
                    forall|j: int| i <= j < x0.len() ==> #[trigger] items@[j] == x0[j],
                    *old(node) matches CustomNode::Sequence { items: xx, .. } && xx@ == x0,
                decreases items@.len() - i,
            {
                let ghost before = items@;
                proof {
                    assert(items@[i as int] == x0[i as int]);
                    assert(decreases_to!(*old(node) => x0[i as int]));
                }
                let it = item_at(items, i);
                result = resolve_node(it, registry);
                proof {
                    assert(tags_only(x0[i as int], items@[i as int], names));
                    assert forall|j: int| i < j < x0.len() implies #[trigger] items@[j] == x0[j] by {
                        assert(items@[j] == before[j]);
                    }
                    assert forall|j: int| 0 <= j < i implies tags_only(#[trigger] x0[j], items@[j], names) by {
                        assert(items@[j] == before[j]);
                    }
                }
                i = i + 1;
            }
            proof {
                assert forall|j: int| 0 <= j < x0.len() implies tags_only(#[trigger] x0[j], items@[j], names) by {
                    if j >= i {
                        lemma_tags_only_refl(x0[j], names);
                    }
                }
                lemma_items_from_forall(x0, items@, 0, names);
            }
            result
        },
        _ => {
            proof {
                lemma_tags_only_refl(*node, names);
            }
            Ok(())
        },
    }
}

/// Run the registered handlers over the tagged scalars of the tree (mapping
/// values and sequence items, depth first; mapping keys are left alone),
/// stopping at the first handler error. Only the values of scalars whose
/// tag has handlers can change, whatever the handlers do; with no handlers
/// registered nothing changes.
pub fn resolve_tags<H: TagHandler + Clone>(node: &mut CustomNode, registry: &TagRegistry<H>) -> (res: Result<
    (),
    TagError,
>)
    requires
        registry.wf(),
    ensures
        tags_only(*old(node), *final(node), handled_names(registry.entries())),
        registry.entries().len() == 0 ==> res is Ok && *final(node) == *old(node),
{
    if registry.is_empty() {
        proof {
            lemma_tags_only_refl(*node, handled_names(registry.entries()));
        }
        return Ok(());
    }
    resolve_node(node, registry)
}

} // verus!
