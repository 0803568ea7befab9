//! The text units of path edits: what the splice layer is handed so that an
//! edit changes the source text in place. A unit has a shape (an insertion
//! point, a replaced range with its indentation, or a deleted range), a text
//! made by the serializer, and whether it may be spliced at all; an
//! ineligible unit makes the document fall back to serializing the tree.
use crate::ast::CustomNode;
use crate::dirty::{DirtyKind, DirtyUnit};
use crate::error::{EditError, SerializeError};
use crate::navigate::{navigate, navigate_spec, segment_views, Segment, SegmentView};
use crate::region::{
    extend_back, extend_delete_over_comments, lemma_extend_back_bounds, lemma_line_end_bounds,
    lemma_line_start_bounds, line_end, line_end_spec, line_indent, line_indent_spec, line_start,
    line_start_spec, starts_its_line, starts_line,
};
use crate::serializer::{
    document_out, item_out, item_to_string, pair_of, pair_out, pair_to_string, to_yaml_with_options, Emit,
    SerializeOptions,
};
use crate::tree::{tree_of, Tree};
use crate::validate::node_range;
use vstd::prelude::*;
use vstd::string::*;

verus! {

/// The shape of a unit, its text aside.
pub enum UnitShape {
    Insert { at: int },
    Region { start: int, end: int, indent: int },
    Delete { start: int, end: int },
}

/// What a unit's text is made of.
pub enum TextPlan {
    /// A block-mapping pair with a key and a value of these trees.
    Pair { key: Tree, value: Tree, indent: int, depth: int },
    /// A block-sequence item of this tree.
    Item { value: Tree, indent: int, depth: int },
    /// A whole document holding this node.
    Document { node: CustomNode },
    /// No text.
    Nothing,
}

/// A unit as the edit plans it: its shape, whether it may be spliced, its
/// text, and whether the tree is changed before the text is made (so that
/// a text that cannot be made leaves the edited tree).
pub struct UnitPlan {
    pub shape: UnitShape,
    pub eligible: bool,
    pub text: TextPlan,
    pub edited_first: bool,
}

/// Whether serializing a pair with a key of tree `kt` and a value of tree
/// `vt` gives `e`.
pub open spec fn pair_emits(kt: Tree, vt: Tree, indent: int, depth: int, e: Emit) -> bool {
    exists|k: CustomNode, v: CustomNode|
        #![trigger pair_out(pair_of(k, v), indent as nat, depth as nat, SerializeOptions::spec_default())]
        tree_of(k) == kt && tree_of(v) == vt && pair_out(
            pair_of(k, v),
            indent as nat,
            depth as nat,
            SerializeOptions::spec_default(),
        ) == e
}

/// Whether serializing an item of tree `vt` gives `e`.
pub open spec fn item_emits(vt: Tree, indent: int, depth: int, e: Emit) -> bool {
    exists|v: CustomNode|
        #![trigger item_out(v, indent as nat, depth as nat, SerializeOptions::spec_default())]
        tree_of(v) == vt && item_out(v, indent as nat, depth as nat, SerializeOptions::spec_default()) == e
}

/// Whether a text plan gives `e`.
pub open spec fn plan_emits(p: TextPlan, e: Emit) -> bool {
    match p {
        TextPlan::Pair { key, value, indent, depth } => pair_emits(key, value, indent, depth, e),
        TextPlan::Item { value, indent, depth } => item_emits(value, indent, depth, e),
        TextPlan::Document { node } => document_out(node, SerializeOptions::spec_default()) == e,
        TextPlan::Nothing => e == Emit::Text(Seq::<char>::empty()),
    }
}

/// The text of a unit.
pub open spec fn unit_text(u: DirtyUnit) -> Seq<char> {
    match u.kind {
        DirtyKind::Insert { text, .. } => text@,
        DirtyKind::Region { text, .. } => text@,
        DirtyKind::Delete { .. } => Seq::empty(),
    }
}

/// Whether a unit has a shape and eligibility.
pub open spec fn unit_fits(u: DirtyUnit, shape: UnitShape, eligible: bool) -> bool {
    u.eligible == eligible && match (u.kind, shape) {
        (DirtyKind::Insert { at, .. }, UnitShape::Insert { at: a }) => at == a,
        (DirtyKind::Region { range, indent, .. }, UnitShape::Region { start, end, indent: i }) => range.start
            == start && range.end == end && indent == i,
        (DirtyKind::Delete { range }, UnitShape::Delete { start, end }) => range.start == start && range.end == end,
        _ => false,
    }
}

/// The error of a text deeper than the serializer's default limit.
pub open spec fn depth_error() -> EditError {
    EditError::Serialize(SerializeError::MaxDepthExceeded(1000))
}

/// How the making of a planned unit came out: the unit, or the depth error
/// where its text is too deep.
pub open spec fn plan_made(p: UnitPlan, res: Result<DirtyUnit, EditError>) -> bool {
    match res {
        Ok(u) => unit_fits(u, p.shape, p.eligible) && plan_emits(p.text, Emit::Text(unit_text(u))),
        Err(e) => e == depth_error() && plan_emits(p.text, Emit::TooDeep),
    }
}

/// How an edit whose tree comes out as `t` ended: with its unit and tree `t`,
/// or with the depth error and the tree as it stood when the text was made.
pub open spec fn unit_result(p: UnitPlan, t: Tree, before: Tree, res: Result<DirtyUnit, EditError>, after: Tree) -> bool {
    plan_made(p, res) && after == match res {
        Ok(_) => t,
        Err(_) => if p.edited_first {
            t
        } else {
            before
        },
    }
}

/// The length of a text as the machine holds it.
pub open spec fn text_len(b: Seq<u8>) -> int {
    b.len() as usize as int
}

/// The start of a node's source range, or `d`.
pub open spec fn start_or(n: CustomNode, d: int) -> int {
    match node_range(n) {
        Some(r) => r.0,
        None => d,
    }
}

/// The end of a node's source range, or `d`.
pub open spec fn end_or(n: CustomNode, d: int) -> int {
    match node_range(n) {
        Some(r) => r.1,
        None => d,
    }
}

/// Whether a container is written in flow style.
pub open spec fn is_flow(n: CustomNode) -> bool {
    match n {
        CustomNode::Mapping { flow_style, .. } => flow_style,
        CustomNode::Sequence { flow_style, .. } => flow_style,
        _ => false,
    }
}

/// Whether every container met along `segs` from `n` (`n` and the last one
/// reached included) is in block style.
pub open spec fn block_path(n: CustomNode, segs: Seq<SegmentView>) -> bool {
    forall|k: int|
        0 <= k <= segs.len() ==> (#[trigger] navigate_spec(n, segs.take(k)) matches Ok(m) ==> !is_flow(m))
}

/// Whether a mapping's keys start their lines (it is not written compactly
/// after a sequence dash), as far as its first key shows.
pub open spec fn keys_start_lines(b: Seq<u8>, offs: Seq<usize>, pairs: Seq<(CustomNode, CustomNode)>) -> bool {
    &&& pairs.len() > 0
    &&& node_range(pairs[0].0) matches Some(r) && starts_its_line(b, offs, r.0)
}

/// Replacing the lines of pair `old` by a pair of trees `kt`, `vt`, indented
/// as the old key's line.
pub open spec fn pair_region_plan(
    b: Seq<u8>,
    offs: Seq<usize>,
    old: (CustomNode, CustomNode),
    kt: Tree,
    vt: Tree,
    depth: int,
    ok: bool,
) -> UnitPlan {
    let ks = start_or(old.0, 0);
    let ve = end_or(old.1, ks);
    let indent = line_indent_spec(b, offs, ks) as int;
    UnitPlan {
        shape: UnitShape::Region {
            start: line_start_spec(offs, ks),
            end: line_end_spec(offs, ve, text_len(b)),
            indent,
        },
        eligible: ok && node_range(old.0) is Some && node_range(old.1) is Some,
        text: TextPlan::Pair { key: kt, value: vt, indent, depth },
        edited_first: true,
    }
}

/// Inserting a new pair of trees `kt`, `vt` at the end of the line where the
/// last pair ends, indented as the last key's line (never spliced into a
/// mapping without pairs).
pub open spec fn pair_insert_plan(
    b: Seq<u8>,
    offs: Seq<usize>,
    pairs: Seq<(CustomNode, CustomNode)>,
    kt: Tree,
    vt: Tree,
    depth: int,
    ok: bool,
) -> UnitPlan {
    if pairs.len() == 0 {
        UnitPlan {
            shape: UnitShape::Insert { at: 0 },
            eligible: false,
            text: TextPlan::Pair { key: kt, value: vt, indent: 0, depth },
            edited_first: false,
        }
    } else {
        let l = pairs.last();
        let ks = start_or(l.0, 0);
        let ve = end_or(l.1, ks);
        let indent = line_indent_spec(b, offs, ks) as int;
        UnitPlan {
            shape: UnitShape::Insert { at: line_end_spec(offs, ve, text_len(b)) },
            eligible: ok && node_range(l.0) is Some && node_range(l.1) is Some,
            text: TextPlan::Pair { key: kt, value: vt, indent, depth },
            edited_first: false,
        }
    }
}

/// Replacing the lines of item `old` by an item of tree `vt`, indented as
/// its line.
pub open spec fn item_region_plan(b: Seq<u8>, offs: Seq<usize>, old: CustomNode, vt: Tree, depth: int, ok: bool) -> UnitPlan {
    let s = start_or(old, 0);
    let e = end_or(old, 0);
    let indent = line_indent_spec(b, offs, s) as int;
    UnitPlan {
        shape: UnitShape::Region {
            start: line_start_spec(offs, s),
            end: line_end_spec(offs, e, text_len(b)),
            indent,
        },
        eligible: ok && node_range(old) is Some,
        text: TextPlan::Item { value: vt, indent, depth },
        edited_first: true,
    }
}

/// Inserting an item of tree `vt` at position `p` of `items`: at the start
/// of the line of the item now there, or at the end of the line of the last
/// item, indented as that item's line. Into a sequence without items an
/// empty text goes at 0, never spliced.
pub open spec fn item_insert_plan(
    b: Seq<u8>,
    offs: Seq<usize>,
    items: Seq<CustomNode>,
    p: int,
    vt: Tree,
    depth: int,
    ok: bool,
) -> UnitPlan {
    if items.len() == 0 {
        UnitPlan { shape: UnitShape::Insert { at: 0 }, eligible: false, text: TextPlan::Nothing, edited_first: false }
    } else if p < items.len() {
        let s = start_or(items[p], 0);
        let indent = line_indent_spec(b, offs, s) as int;
        UnitPlan {
            shape: UnitShape::Insert { at: line_start_spec(offs, s) },
            eligible: ok && node_range(items[p]) is Some,
            text: TextPlan::Item { value: vt, indent, depth },
            edited_first: false,
        }
    } else {
        let l = items.last();
        let indent = line_indent_spec(b, offs, start_or(l, 0)) as int;
        UnitPlan {
            shape: UnitShape::Insert { at: line_end_spec(offs, end_or(l, 0), text_len(b)) },
            eligible: ok && node_range(l) is Some,
            text: TextPlan::Item { value: vt, indent, depth },
            edited_first: false,
        }
    }
}

/// Deleting the lines from `s` to `e`, with the comment lines right above.
pub open spec fn delete_plan(b: Seq<u8>, offs: Seq<usize>, s: int, e: int, ok: bool) -> UnitPlan {
    UnitPlan {
        shape: UnitShape::Delete {
            start: extend_back(b, offs, line_start_spec(offs, s)),
            end: line_end_spec(offs, e, text_len(b)),
        },
        eligible: ok,
        text: TextPlan::Nothing,
        edited_first: true,
    }
}

/// Replacing the whole text by a document holding `v`.
pub open spec fn document_plan(b: Seq<u8>, v: CustomNode) -> UnitPlan {
    UnitPlan {
        shape: UnitShape::Region { start: 0, end: text_len(b), indent: 0 },
        eligible: true,
        text: TextPlan::Document { node: v },
        edited_first: true,
    }
}

/// The start of a node's source range, or `d`.
pub fn range_start_or(n: &CustomNode, d: usize) -> (res: usize)
    ensures
        res == start_or(*n, d as int),
{
    match n.source_range() {
        Some(r) => r.start,
        None => d,
    }
}

/// The end of a node's source range, or `d`.
pub fn range_end_or(n: &CustomNode, d: usize) -> (res: usize)
    ensures
        res == end_or(*n, d as int),
{
    match n.source_range() {
        Some(r) => r.end,
        None => d,
    }
}

/// Whether a node has a source range.
pub fn has_range(n: &CustomNode) -> (res: bool)
    ensures
        res == (node_range(*n) is Some),
{
    n.source_range().is_some()
}

/// Whether a container is written in flow style.
pub fn node_is_flow(n: &CustomNode) -> (res: bool)
    ensures
        res == is_flow(*n),
{
    match n {
        CustomNode::Mapping { flow_style, .. } => *flow_style,
        CustomNode::Sequence { flow_style, .. } => *flow_style,
        _ => false,
    }
}

/// Whether a mapping's keys start their lines (see `keys_start_lines`).
pub fn mapping_keys_start_lines(pairs: &Vec<(CustomNode, CustomNode)>, offs: &[usize], source: &str) -> (res: bool)
    ensures
        res == keys_start_lines(source.spec_bytes(), offs@, pairs@),
{
    if pairs.len() == 0 {
        return false;
    }
    match pairs[0].0.source_range() {
        Some(r) => starts_line(offs, source, r.start),
        None => false,
    }
}

/// The first `n` segments.
fn first_segments(segs: &[Segment], n: usize) -> (res: Vec<Segment>)
    requires
        n <= segs@.len(),
    ensures
        segment_views(res@) == segment_views(segs@).take(n as int),
{
    let mut out: Vec<Segment> = Vec::new();
    let mut i: usize = 0;
    while i < n
        invariant
            0 <= i <= n,
            n <= segs@.len(),
            segment_views(out@) == segment_views(segs@).take(i as int),
        decreases n - i,
    {
        let c = match &segs[i] {
            Segment::Key(k) => Segment::Key(k.clone()),
            Segment::Index(x) => Segment::Index(*x),
        };
        let ghost before = out@;
        out.push(c);
        assert(segment_views(out@) =~= segment_views(before).push(c@));
        assert(segment_views(segs@).take(i + 1) =~= segment_views(segs@).take(i as int).push(segs@[i as int]@));
        i = i + 1;
    }
    out
}

/// Whether the first `n` segments of `segs` keep to block style from `root`
/// (see `block_path`).
pub fn path_is_block(root: &CustomNode, segs: &[Segment], n: usize) -> (res: bool)
    requires
        n <= segs@.len(),
    ensures
        res == block_path(*root, segment_views(segs@).take(n as int)),
{
    let ghost sv = segment_views(segs@).take(n as int);
    let mut k: usize = 0;
    while k <= n
        invariant
            0 <= k <= n + 1,
            n <= segs@.len(),
            sv == segment_views(segs@).take(n as int),
            forall|j: int|
                0 <= j < k ==> (#[trigger] navigate_spec(*root, sv.take(j)) matches Ok(m) ==> !is_flow(m)),
        decreases n + 1 - k,
    {
        let pre = first_segments(segs, k);
        assert(sv.take(k as int) =~= segment_views(segs@).take(k as int));
        match navigate(root, pre.as_slice()) {
            Ok(m) => {
                if node_is_flow(m) {
                    return false;
                }
            },
            Err(_) => {},
        }
        if k == n {
            return true;
        }
        k = k + 1;
    }
    true
}

/// Make a planned unit from its shape and text.
fn make_unit(shape_kind: u8, a: usize, b: usize, indent: usize, text: String, eligible: bool) -> (res: DirtyUnit)
    ensures
        shape_kind == 0 ==> res.kind == (DirtyKind::Insert { at: a, text }),
        shape_kind == 1 ==> res.kind == (DirtyKind::Region { range: a..b, indent, text }),
        shape_kind >= 2 ==> res.kind == (DirtyKind::Delete { range: a..b }),
        res.eligible == eligible,
{
    let kind = if shape_kind == 0 {
        DirtyKind::Insert { at: a, text }
    } else if shape_kind == 1 {
        DirtyKind::Region { range: a..b, indent, text }
    } else {
        DirtyKind::Delete { range: a..b }
    };
    DirtyUnit { kind, eligible }
}

/// The text of a pair (see `pair_emits`).
fn pair_text(k: &CustomNode, v: &CustomNode, indent: usize, depth: usize) -> (res: Result<String, EditError>)
    requires
        depth < usize::MAX,
        !pair_emits(tree_of(*k), tree_of(*v), indent as int, depth as int, Emit::Stops),
    ensures
        match res {
            Ok(s) => pair_emits(tree_of(*k), tree_of(*v), indent as int, depth as int, Emit::Text(s@)),
            Err(e) => e == depth_error() && pair_emits(tree_of(*k), tree_of(*v), indent as int, depth as int, Emit::TooDeep),
        },
{
    let ghost e = pair_out(pair_of(*k, *v), indent as nat, depth as nat, SerializeOptions::spec_default());
    assert(!(e is Stops));
    match pair_to_string(k, v, indent, depth) {
        Ok(s) => Ok(s),
        Err(err) => Err(EditError::Serialize(err)),
    }
}

/// The text of an item (see `item_emits`).
fn item_text(v: &CustomNode, indent: usize, depth: usize) -> (res: Result<String, EditError>)
    requires
        depth < usize::MAX,
        !item_emits(tree_of(*v), indent as int, depth as int, Emit::Stops),
    ensures
        match res {
            Ok(s) => item_emits(tree_of(*v), indent as int, depth as int, Emit::Text(s@)),
            Err(e) => e == depth_error() && item_emits(tree_of(*v), indent as int, depth as int, Emit::TooDeep),
        },
{
    let ghost e = item_out(*v, indent as nat, depth as nat, SerializeOptions::spec_default());
    assert(!(e is Stops));
    match item_to_string(v, indent, depth) {
        Ok(s) => Ok(s),
        Err(err) => Err(EditError::Serialize(err)),
    }
}

/// The unit replacing the whole text by a document holding `v`.
pub fn document_unit(source: &str, v: &CustomNode) -> (res: Result<DirtyUnit, EditError>)
    requires
        !(document_out(*v, SerializeOptions::spec_default()) is Stops),
    ensures
        plan_made(document_plan(source.spec_bytes(), *v), res),
{
    let opts = SerializeOptions::default();
    match to_yaml_with_options(v, &opts) {
        Ok(text) => Ok(make_unit(1, 0, source.len(), 0, text, true)),
        Err(err) => Err(EditError::Serialize(err)),
    }
}

/// The unit replacing pair `(old_key, old_value)` by the pair `(k, v)` (see
/// `pair_region_plan`).
pub fn pair_region_unit(
    source: &str,
    offs: &[usize],
    old_key: &CustomNode,
    old_value: &CustomNode,
    k: &CustomNode,
    v: &CustomNode,
    depth: usize,
    ok: bool,
) -> (res: Result<DirtyUnit, EditError>)
    requires
        depth < usize::MAX,
        !plan_emits(
            pair_region_plan(source.spec_bytes(), offs@, (*old_key, *old_value), tree_of(*k), tree_of(*v), depth as int, ok).text,
            Emit::Stops,
        ),
    ensures
        plan_made(
            pair_region_plan(source.spec_bytes(), offs@, (*old_key, *old_value), tree_of(*k), tree_of(*v), depth as int, ok),
            res,
        ),
{
    let ks = range_start_or(old_key, 0);
    let ve = range_end_or(old_value, ks);
    let indent = line_indent(offs, source, ks);
    let eligible = ok && has_range(old_key) && has_range(old_value);
    let start = line_start(offs, ks);
    let end = line_end(offs, ve, source.len());
    match pair_text(k, v, indent, depth) {
        Ok(text) => Ok(make_unit(1, start, end, indent, text, eligible)),
        Err(e) => Err(e),
    }
}

/// The unit inserting the pair `(k, v)` after the last of `pairs` (see
/// `pair_insert_plan`).
pub fn pair_insert_unit(
    source: &str,
    offs: &[usize],
    pairs: &Vec<(CustomNode, CustomNode)>,
    k: &CustomNode,
    v: &CustomNode,
    depth: usize,
    ok: bool,
) -> (res: Result<DirtyUnit, EditError>)
    requires
        depth < usize::MAX,
        !plan_emits(pair_insert_plan(source.spec_bytes(), offs@, pairs@, tree_of(*k), tree_of(*v), depth as int, ok).text, Emit::Stops),
    ensures
        plan_made(pair_insert_plan(source.spec_bytes(), offs@, pairs@, tree_of(*k), tree_of(*v), depth as int, ok), res),
{
    if pairs.len() == 0 {
        return match pair_text(k, v, 0, depth) {
            Ok(text) => Ok(make_unit(0, 0, 0, 0, text, false)),
            Err(e) => Err(e),
        };
    }
    let l = &pairs[pairs.len() - 1];
    let ks = range_start_or(&l.0, 0);
    let ve = range_end_or(&l.1, ks);
    let indent = line_indent(offs, source, ks);
    let eligible = ok && has_range(&l.0) && has_range(&l.1);
    let at = line_end(offs, ve, source.len());
    match pair_text(k, v, indent, depth) {
        Ok(text) => Ok(make_unit(0, at, 0, 0, text, eligible)),
        Err(e) => Err(e),
    }
}

/// The unit replacing item `old` by `v` (see `item_region_plan`).
pub fn item_region_unit(source: &str, offs: &[usize], old: &CustomNode, v: &CustomNode, depth: usize, ok: bool) -> (res: Result<
    DirtyUnit,
    EditError,
>)
    requires
        depth < usize::MAX,
        !plan_emits(item_region_plan(source.spec_bytes(), offs@, *old, tree_of(*v), depth as int, ok).text, Emit::Stops),
    ensures
        plan_made(item_region_plan(source.spec_bytes(), offs@, *old, tree_of(*v), depth as int, ok), res),
{
    let s = range_start_or(old, 0);
    let e = range_end_or(old, 0);
    let indent = line_indent(offs, source, s);
    let eligible = ok && has_range(old);
    let start = line_start(offs, s);
    let end = line_end(offs, e, source.len());
    match item_text(v, indent, depth) {
        Ok(text) => Ok(make_unit(1, start, end, indent, text, eligible)),
        Err(err) => Err(err),
    }
}

/// The unit inserting item `v` at position `p` of `items` (see
/// `item_insert_plan`).
pub fn item_insert_unit(
    source: &str,
    offs: &[usize],
    items: &Vec<CustomNode>,
    p: usize,
    v: &CustomNode,
    depth: usize,
    ok: bool,
) -> (res: Result<DirtyUnit, EditError>)
    requires
        depth < usize::MAX,
        p <= items@.len(),
        !plan_emits(item_insert_plan(source.spec_bytes(), offs@, items@, p as int, tree_of(*v), depth as int, ok).text, Emit::Stops),
    ensures
        plan_made(item_insert_plan(source.spec_bytes(), offs@, items@, p as int, tree_of(*v), depth as int, ok), res),
{
    if items.len() == 0 {
        let ghost empty = Seq::<char>::empty();
        let u = make_unit(0, 0, 0, 0, String::new(), false);
        assert(unit_text(u) =~= empty);
        return Ok(u);
    }
    let (at, indent, eligible) = if p < items.len() {
        let s = range_start_or(&items[p], 0);
        (line_start(offs, s), line_indent(offs, source, s), ok && has_range(&items[p]))
    } else {
        let l = &items[items.len() - 1];
        let s = range_start_or(l, 0);
        let e = range_end_or(l, 0);
        (line_end(offs, e, source.len()), line_indent(offs, source, s), ok && has_range(l))
    };
    match item_text(v, indent, depth) {
        Ok(text) => Ok(make_unit(0, at, 0, 0, text, eligible)),
        Err(err) => Err(err),
    }
}

/// The unit deleting the lines from `s` to `e` with the comment lines right
/// above (see `delete_plan`).
pub fn delete_unit(source: &str, offs: &[usize], s: usize, e: usize, ok: bool) -> (res: DirtyUnit)
    ensures
        plan_made(delete_plan(source.spec_bytes(), offs@, s as int, e as int, ok), Ok(res)),
{
    let start = extend_delete_over_comments(line_start(offs, s), offs, source);
    let end = line_end(offs, e, source.len());
    let u = make_unit(2, start, end, 0, String::new(), ok);
    assert(u.kind matches DirtyKind::Delete { range } && range.start == start && range.end == end);
    assert(unit_fits(u, delete_plan(source.spec_bytes(), offs@, s as int, e as int, ok).shape, ok));
    assert(unit_text(u) =~= Seq::<char>::empty());
    u
}

} // verus!
