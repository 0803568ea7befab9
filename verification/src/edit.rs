//! Editing a tree in place along a path: set, insert, append, delete and
//! rename. Each edit names the node to change by the path of its parent and
//! a last segment; a failed edit leaves the tree as it was (but for a null
//! root that a set first turns into an empty mapping).
use crate::ast::{Chomping, CustomNode, NodeMeta, ScalarStyle};
use crate::error::{EditError, NavigateError};
use crate::metadata::{with_metadata_from, with_metadata_spec};
use crate::navigate::{
    find_scalar_key, lemma_key_pos_tree, lemma_key_pos_update, lemma_nav_tree, lemma_tree_read_back, nav_path, navigate,
    navigate_mut, navigate_spec, normalize_index, normalize_index_spec, put_at, scalar_key_index, segment_text,
    segment_views, tree_key_pos, tree_nav, NavigateErrorView, Segment, SegmentView,
};
use crate::tree::{items_tree, lemma_same_node_tree, pairs_tree, tree_of, Tree};
use crate::comment::{compute_line_offsets, line_offsets_with_end};
use crate::dirty::DirtyUnit;
use crate::serializer::Emit;
use crate::unit_plan::{
    block_path, delete_plan, delete_unit, document_plan, document_unit, end_or, item_insert_plan, item_insert_unit,
    item_region_plan, item_region_unit, keys_start_lines, mapping_keys_start_lines, pair_insert_plan, pair_insert_unit,
    pair_region_plan, pair_region_unit, path_is_block, plan_emits, range_end_or, range_start_or, start_or, unit_result,
    TextPlan, UnitPlan, UnitShape,
};
use vstd::prelude::*;
use vstd::string::*;

verus! {

/// Why an edit failed, as a value.
pub enum EditFailure {
    /// Navigation to the parent failed.
    Nav(NavigateErrorView),
    CannotEditAlias,
    CreateNeedsMapping,
    NotASequence,
    IndexOutOfRange,
    MissingKey,
    CannotRenameRoot,
    CannotRenameComplexKey,
    RenameKeyExists,
    Generic,
}

/// The value of an edit error.
pub open spec fn failure_of(e: EditError) -> EditFailure {
    match e {
        EditError::MissingPath(s) => EditFailure::Nav(NavigateErrorView::Missing(s@)),
        EditError::CannotDescendIntoScalar(s) => EditFailure::Nav(NavigateErrorView::CannotDescend(s@)),
        EditError::CreateNeedsMapping => EditFailure::CreateNeedsMapping,
        EditError::CannotEditAlias => EditFailure::CannotEditAlias,
        EditError::NotASequence => EditFailure::NotASequence,
        EditError::IndexOutOfRange => EditFailure::IndexOutOfRange,
        EditError::MissingKey => EditFailure::MissingKey,
        EditError::CannotRenameRoot => EditFailure::CannotRenameRoot,
        EditError::CannotRenameComplexKey => EditFailure::CannotRenameComplexKey,
        EditError::RenameKeyExists => EditFailure::RenameKeyExists,
        _ => EditFailure::Generic,
    }
}

/// The failure of a navigation error: a missing container is asked of a
/// mapping.
pub open spec fn nav_failure(e: NavigateErrorView) -> EditFailure {
    match e {
        NavigateErrorView::NotContainer => EditFailure::CreateNeedsMapping,
        _ => EditFailure::Nav(e),
    }
}

/// The tree after an edit at `segs`: the parent (reached by all but the
/// last segment) is replaced by what `edit` makes of it with the last
/// segment; an empty path or a failed navigation or edit is a failure.
pub open spec fn at_parent(
    root: CustomNode,
    segs: Seq<SegmentView>,
    empty: EditFailure,
    edit: spec_fn(CustomNode, SegmentView) -> Result<Tree, EditFailure>,
) -> Result<Tree, EditFailure> {
    if segs.len() == 0 {
        Err(empty)
    } else {
        let ps = segs.drop_last();
        match navigate_spec(root, ps) {
            Err(e) => Err(nav_failure(e)),
            Ok(parent) => match edit(parent, segs.last()) {
                Ok(t) => Ok(put_at(tree_of(root), nav_path(root, ps), t)),
                Err(f) => Err(f),
            },
        }
    }
}

/// How the exec result meets a spec outcome: the same success or failure,
/// and the tree changed only on success.
pub open spec fn edit_result(
    spec: Result<Tree, EditFailure>,
    res: Result<(), EditError>,
    before: CustomNode,
    after: CustomNode,
) -> bool {
    match spec {
        Ok(t) => res is Ok && tree_of(after) == t,
        Err(f) => res matches Err(e) && failure_of(e) == f && tree_of(after) == tree_of(before),
    }
}

/// The tree of a plain key scalar.
pub open spec fn plain_key_tree(k: Seq<char>) -> Tree {
    Tree::Scalar { value: k, style: ScalarStyle::Plain, chomping: Chomping::Clip, meta: NodeMeta::empty() }
}

/// Deleting the child named by `last` from `parent`: the pair whose key is
/// the scalar `last`, or the item at the (possibly negative) index.
pub open spec fn delete_child(parent: CustomNode, last: SegmentView) -> Result<Tree, EditFailure> {
    match (parent, last) {
        (CustomNode::Mapping { pairs, flow_style, meta }, SegmentView::Key(k)) => match scalar_key_index(
            pairs@,
            k,
            0,
        ) {
            Some(i) => Ok(Tree::Mapping { pairs: pairs_tree(pairs@).remove(i), flow: flow_style, meta }),
            None => Err(EditFailure::MissingKey),
        },
        (CustomNode::Sequence { items, flow_style, meta }, SegmentView::Index(i)) => match normalize_index_spec(
            i,
            items@.len() as int,
        ) {
            Some(j) => Ok(Tree::Sequence { items: items_tree(items@).remove(j), flow: flow_style, meta }),
            None => Err(EditFailure::IndexOutOfRange),
        },
        (CustomNode::Alias { .. }, _) => Err(EditFailure::CannotEditAlias),
        _ => Err(EditFailure::MissingKey),
    }
}

/// Renaming the key named by `last` of a mapping `parent` to `new_key`.
pub open spec fn rename_child(parent: CustomNode, last: SegmentView, new_key: Seq<char>) -> Result<
    Tree,
    EditFailure,
> {
    match (parent, last) {
        (CustomNode::Mapping { pairs, flow_style, meta }, SegmentView::Key(k)) => match scalar_key_index(
            pairs@,
            k,
            0,
        ) {
            Some(i) => if new_key != k && scalar_key_index(pairs@, new_key, 0) is Some {
                Err(EditFailure::RenameKeyExists)
            } else {
                Ok(
                    Tree::Mapping {
                        pairs: pairs_tree(pairs@).update(i, (plain_key_tree(new_key), tree_of(pairs@[i].1))),
                        flow: flow_style,
                        meta,
                    },
                )
            },
            None => Err(EditFailure::MissingKey),
        },
        (CustomNode::Alias { .. }, _) => Err(EditFailure::CannotEditAlias),
        _ => Err(EditFailure::CannotRenameComplexKey),
    }
}

/// The value stored over `old`: `v`, carrying `old`'s metadata when
/// `preserve`.
pub open spec fn stored_value(v: CustomNode, old: CustomNode, preserve: bool) -> Tree {
    if preserve {
        tree_of(with_metadata_spec(v, old))
    } else {
        tree_of(v)
    }
}

/// Setting the child named by `last` of `parent` to `v`: an existing key's
/// value is replaced, a new key is added at the end, an existing item is
/// replaced.
pub open spec fn set_child(parent: CustomNode, last: SegmentView, v: CustomNode, preserve: bool) -> Result<
    Tree,
    EditFailure,
> {
    match (parent, last) {
        (CustomNode::Alias { .. }, _) => Err(EditFailure::CannotEditAlias),
        (CustomNode::Mapping { pairs, flow_style, meta }, SegmentView::Key(k)) => match scalar_key_index(
            pairs@,
            k,
            0,
        ) {
            Some(i) => Ok(
                Tree::Mapping {
                    pairs: pairs_tree(pairs@).update(
                        i,
                        (tree_of(pairs@[i].0), stored_value(v, pairs@[i].1, preserve)),
                    ),
                    flow: flow_style,
                    meta,
                },
            ),
            None => Ok(
                Tree::Mapping {
                    pairs: pairs_tree(pairs@).push((plain_key_tree(k), tree_of(v))),
                    flow: flow_style,
                    meta,
                },
            ),
        },
        (CustomNode::Sequence { items, flow_style, meta }, SegmentView::Index(i)) => match normalize_index_spec(
            i,
            items@.len() as int,
        ) {
            Some(j) => Ok(
                Tree::Sequence {
                    items: items_tree(items@).update(j, stored_value(v, items@[j], preserve)),
                    flow: flow_style,
                    meta,
                },
            ),
            None => Err(EditFailure::IndexOutOfRange),
        },
        _ => Err(EditFailure::CreateNeedsMapping),
    }
}

/// The tree of the empty block mapping a set makes of a null root.
pub open spec fn empty_mapping_tree() -> Tree {
    Tree::Mapping { pairs: Seq::empty(), flow: false, meta: NodeMeta::empty() }
}

/// The tree a set works on: a null root becomes an empty mapping.
pub open spec fn set_root_tree(root: CustomNode) -> Tree {
    if root is Null {
        empty_mapping_tree()
    } else {
        tree_of(root)
    }
}

/// Whether every segment is a key.
pub open spec fn all_keys(segs: Seq<SegmentView>) -> bool {
    forall|m: int| 0 <= m < segs.len() ==> #[trigger] segs[m] is Key
}

/// The value `v` nested in fresh block mappings, one per key of `keys`
/// (the first key outermost).
pub open spec fn nested_tree(keys: Seq<SegmentView>, v: CustomNode) -> Tree
    decreases keys.len(),
{
    if keys.len() == 0 {
        tree_of(v)
    } else {
        Tree::Mapping {
            pairs: seq![(plain_key_tree(keys[0]->Key_0), nested_tree(keys.drop_first(), v))],
            flow: false,
            meta: NodeMeta::empty(),
        }
    }
}

/// How many leading segments of `segs` already lead somewhere from `n`: the
/// walk stops at the first key a mapping lacks; an index out of range, an
/// alias, or a segment that does not fit its node is a failure.
pub open spec fn existing_depth(n: CustomNode, segs: Seq<SegmentView>) -> Result<nat, EditFailure>
    decreases segs.len(),
{
    if segs.len() == 0 {
        Ok(0)
    } else {
        let rest = segs.drop_first();
        match (n, segs[0]) {
            (CustomNode::Mapping { pairs, .. }, SegmentView::Key(k)) => match scalar_key_index(pairs@, k, 0) {
                Some(i) => match existing_depth(pairs@[i].1, rest) {
                    Ok(c) => Ok(c + 1),
                    Err(f) => Err(f),
                },
                None => Ok(0),
            },
            (CustomNode::Sequence { items, .. }, SegmentView::Index(ix)) => match normalize_index_spec(
                ix,
                items@.len() as int,
            ) {
                Some(j) => match existing_depth(items@[j], rest) {
                    Ok(c) => Ok(c + 1),
                    Err(f) => Err(f),
                },
                None => Err(EditFailure::IndexOutOfRange),
            },
            (CustomNode::Alias { .. }, _) => Err(EditFailure::CannotEditAlias),
            _ => Err(EditFailure::CreateNeedsMapping),
        }
    }
}

/// Setting with missing mappings created: past the part of the path that
/// exists, the remaining segments (keys only) become nested mappings, added
/// as one new pair at the end of the deepest existing mapping.
pub open spec fn create_spec(root: CustomNode, segs: Seq<SegmentView>, v: CustomNode) -> Result<Tree, EditFailure> {
    match existing_depth(root, segs) {
        Err(f) => Err(f),
        Ok(c) => if c >= segs.len() || !all_keys(segs.skip(c as int)) {
            Err(EditFailure::CreateNeedsMapping)
        } else {
            let tail = segs.skip(c as int);
            let prefix = segs.take(c as int);
            match navigate_spec(root, prefix) {
                Err(e) => Err(nav_failure(e)),
                Ok(CustomNode::Mapping { pairs, flow_style, meta }) => Ok(
                    put_at(
                        tree_of(root),
                        nav_path(root, prefix),
                        Tree::Mapping {
                            pairs: pairs_tree(pairs@).push(
                                (plain_key_tree(tail[0]->Key_0), nested_tree(tail.drop_first(), v)),
                            ),
                            flow: flow_style,
                            meta,
                        },
                    ),
                ),
                Ok(_) => Err(EditFailure::CreateNeedsMapping),
            }
        },
    }
}

/// Setting along a non-empty path on an empty mapping: one key segment adds
/// that key; a longer path fails where its first segment finds nothing,
/// unless missing mappings are created (keys only).
pub open spec fn set_on_empty(segs: Seq<SegmentView>, v: CustomNode, create_missing: bool) -> Result<
    Tree,
    EditFailure,
> {
    if segs.len() == 1 {
        match segs[0] {
            SegmentView::Key(k) => Ok(
                Tree::Mapping { pairs: seq![(plain_key_tree(k), tree_of(v))], flow: false, meta: NodeMeta::empty() },
            ),
            SegmentView::Index(_) => Err(EditFailure::CreateNeedsMapping),
        }
    } else {
        match segs[0] {
            SegmentView::Key(k) => if !create_missing {
                Err(EditFailure::Nav(NavigateErrorView::Missing(k)))
            } else if all_keys(segs) {
                Ok(
                    Tree::Mapping {
                        pairs: seq![(plain_key_tree(k), nested_tree(segs.drop_first(), v))],
                        flow: false,
                        meta: NodeMeta::empty(),
                    },
                )
            } else {
                Err(EditFailure::CreateNeedsMapping)
            },
            SegmentView::Index(i) => Err(
                EditFailure::Nav(NavigateErrorView::CannotDescend(segment_text(SegmentView::Index(i)))),
            ),
        }
    }
}

/// Setting the node at `segs` to `v`: an empty path replaces the whole
/// tree; otherwise a null root first becomes an empty mapping and the
/// parent's child is set (see `set_child`); where the parent is missing and
/// `create_missing`, the missing mappings are made (see `create_spec`).
pub open spec fn set_spec(
    root: CustomNode,
    segs: Seq<SegmentView>,
    v: CustomNode,
    preserve: bool,
    create_missing: bool,
) -> Result<Tree, EditFailure> {
    if segs.len() == 0 {
        Ok(tree_of(v))
    } else if root is Null {
        set_on_empty(segs, v, create_missing)
    } else if create_missing && navigate_spec(root, segs.drop_last()) matches Err(
        NavigateErrorView::Missing(_),
    ) {
        create_spec(root, segs, v)
    } else {
        at_parent(root, segs, EditFailure::Generic, |p: CustomNode, l: SegmentView| set_child(p, l, v, preserve))
    }
}

/// The position an insertion at `index` takes in a sequence of length
/// `len`: a negative index counts from the end; `None` outside `0..=len`.
pub open spec fn insert_position(index: int, len: int) -> Option<int> {
    if index < 0 {
        if len > i64::MAX || len + index < 0 {
            None
        } else {
            Some(len + index)
        }
    } else if index > len {
        None
    } else {
        Some(index)
    }
}

/// Adding `v` to the sequence at `segs`, at `pos` of its items (`None`:
/// at the end).
pub open spec fn add_item_spec(root: CustomNode, segs: Seq<SegmentView>, index: Option<int>, v: CustomNode) -> Result<
    Tree,
    EditFailure,
> {
    match navigate_spec(root, segs) {
        Err(e) => Err(nav_failure(e)),
        Ok(n) => match n {
            CustomNode::Sequence { items, flow_style, meta } => {
                let len = items@.len() as int;
                let pos = match index {
                    Some(i) => insert_position(i, len),
                    None => Some(len),
                };
                match pos {
                    Some(p) => Ok(
                        put_at(
                            tree_of(root),
                            nav_path(root, segs),
                            Tree::Sequence { items: items_tree(items@).insert(p, tree_of(v)), flow: flow_style, meta },
                        ),
                    ),
                    None => Err(EditFailure::IndexOutOfRange),
                }
            },
            CustomNode::Alias { .. } => Err(EditFailure::CannotEditAlias),
            _ => Err(EditFailure::NotASequence),
        },
    }
}

/// The line offsets an edit works with: those given, or those of the text.
pub open spec fn offsets_of(source: &str, lo: Option<&[usize]>) -> Seq<usize> {
    match lo {
        Some(o) => o@,
        None => line_offsets_with_end(source.spec_bytes()),
    }
}

/// The plan of an edit that fails (no unit is made).
pub open spec fn no_plan() -> UnitPlan {
    UnitPlan { shape: UnitShape::Insert { at: 0 }, eligible: false, text: TextPlan::Nothing, edited_first: false }
}

/// How an edit with tree outcome `spec` and unit plan `plan` ended: on
/// success as the plan says (see `unit_result`); on failure with its error
/// and the tree unchanged.
pub open spec fn edit_unit_result(
    spec: Result<Tree, EditFailure>,
    plan: UnitPlan,
    res: Result<DirtyUnit, EditError>,
    before: Tree,
    after: Tree,
) -> bool {
    match spec {
        Ok(t) => unit_result(plan, t, before, res, after),
        Err(f) => res matches Err(e) && failure_of(e) == f && after == before,
    }
}

/// The unit of a delete of the child `last` of `parent` (see `delete_child`):
/// the lines of the pair or item, with the comment lines right above.
pub open spec fn delete_child_plan(parent: CustomNode, last: SegmentView, b: Seq<u8>, offs: Seq<usize>, ok: bool) -> UnitPlan {
    match (parent, last) {
        (CustomNode::Mapping { pairs, .. }, SegmentView::Key(k)) => match scalar_key_index(pairs@, k, 0) {
            Some(i) => {
                let ks = start_or(pairs@[i].0, 0);
                delete_plan(b, offs, ks, end_or(pairs@[i].1, ks), ok && keys_start_lines(b, offs, pairs@))
            },
            None => no_plan(),
        },
        (CustomNode::Sequence { items, .. }, SegmentView::Index(ix)) => match normalize_index_spec(
            ix,
            items@.len() as int,
        ) {
            Some(j) => delete_plan(b, offs, start_or(items@[j], 0), end_or(items@[j], 0), ok),
            None => no_plan(),
        },
        _ => no_plan(),
    }
}

/// The unit of a rename (see `rename_child`): the pair's lines, written
/// again with the new key.
pub open spec fn rename_child_plan(
    parent: CustomNode,
    last: SegmentView,
    new_key: Seq<char>,
    b: Seq<u8>,
    offs: Seq<usize>,
    depth: int,
    ok: bool,
) -> UnitPlan {
    match (parent, last) {
        (CustomNode::Mapping { pairs, .. }, SegmentView::Key(k)) => match scalar_key_index(pairs@, k, 0) {
            Some(i) => pair_region_plan(
                b,
                offs,
                pairs@[i],
                plain_key_tree(new_key),
                tree_of(pairs@[i].1),
                depth,
                ok && keys_start_lines(b, offs, pairs@),
            ),
            None => no_plan(),
        },
        _ => no_plan(),
    }
}

/// The unit of a set of the child `last` of `parent` (see `set_child`): an
/// existing pair's or item's lines written again with the stored value, or
/// a new pair inserted after the last one.
pub open spec fn set_child_plan(
    parent: CustomNode,
    last: SegmentView,
    v: CustomNode,
    preserve: bool,
    b: Seq<u8>,
    offs: Seq<usize>,
    depth: int,
    ok: bool,
) -> UnitPlan {
    match (parent, last) {
        (CustomNode::Mapping { pairs, .. }, SegmentView::Key(k)) => match scalar_key_index(pairs@, k, 0) {
            Some(i) => pair_region_plan(
                b,
                offs,
                pairs@[i],
                tree_of(pairs@[i].0),
                stored_value(v, pairs@[i].1, preserve),
                depth,
                ok && keys_start_lines(b, offs, pairs@),
            ),
            None => pair_insert_plan(b, offs, pairs@, plain_key_tree(k), tree_of(v), depth, ok && keys_start_lines(b, offs, pairs@)),
        },
        (CustomNode::Sequence { items, .. }, SegmentView::Index(ix)) => match normalize_index_spec(
            ix,
            items@.len() as int,
        ) {
            Some(j) => item_region_plan(b, offs, items@[j], stored_value(v, items@[j], preserve), depth, ok),
            None => no_plan(),
        },
        _ => no_plan(),
    }
}

/// The unit of a set that makes missing mappings (see `create_spec`): the
/// new nested pair inserted after the last pair of the deepest existing
/// mapping.
pub open spec fn create_plan(root: CustomNode, segs: Seq<SegmentView>, v: CustomNode, b: Seq<u8>, offs: Seq<usize>) -> UnitPlan {
    let c = existing_depth(root, segs)->Ok_0 as int;
    let tail = segs.skip(c);
    match navigate_spec(root, segs.take(c)) {
        Ok(CustomNode::Mapping { pairs, .. }) => pair_insert_plan(
            b,
            offs,
            pairs@,
            plain_key_tree(tail[0]->Key_0),
            nested_tree(tail.drop_first(), v),
            c,
            block_path(root, segs.take(c)) && keys_start_lines(b, offs, pairs@),
        ),
        _ => no_plan(),
    }
}

/// The unit of a set at `segs` (see `set_spec`): the whole text for an
/// empty path; on a null root, the new pair at 0 (never spliced); else as
/// the parent's child (see `set_child_plan`) or as made mappings (see
/// `create_plan`), spliced only along block containers.
pub open spec fn set_plan(
    root: CustomNode,
    segs: Seq<SegmentView>,
    v: CustomNode,
    preserve: bool,
    create_missing: bool,
    b: Seq<u8>,
    offs: Seq<usize>,
) -> UnitPlan {
    if segs.len() == 0 {
        document_plan(b, v)
    } else if root is Null {
        pair_insert_plan(
            b,
            offs,
            Seq::empty(),
            plain_key_tree(segs[0]->Key_0),
            if segs.len() == 1 {
                tree_of(v)
            } else {
                nested_tree(segs.drop_first(), v)
            },
            0,
            false,
        )
    } else if create_missing && navigate_spec(root, segs.drop_last()) matches Err(
        NavigateErrorView::Missing(_),
    ) {
        create_plan(root, segs, v, b, offs)
    } else {
        set_child_plan(
            navigate_spec(root, segs.drop_last())->Ok_0,
            segs.last(),
            v,
            preserve,
            b,
            offs,
            segs.len() - 1,
            block_path(root, segs.drop_last()),
        )
    }
}

/// The unit of adding `v` to the sequence `node` (see `add_item_child`).
pub open spec fn add_item_child_plan(
    node: CustomNode,
    index: Option<int>,
    v: CustomNode,
    b: Seq<u8>,
    offs: Seq<usize>,
    depth: int,
    ok: bool,
) -> UnitPlan {
    match node {
        CustomNode::Sequence { items, .. } => {
            let len = items@.len() as int;
            let pos = match index {
                Some(i) => insert_position(i, len),
                None => Some(len),
            };
            item_insert_plan(b, offs, items@, pos->0, tree_of(v), depth, ok)
        },
        _ => no_plan(),
    }
}

/// The depth an item added under `segs` is written at.
pub open spec fn item_depth(segs: Seq<SegmentView>) -> int {
    if segs.len() == 0 {
        0
    } else {
        segs.len() - 1
    }
}

/// The unit of adding `v` to the sequence at `segs` (see `add_item_spec`).
pub open spec fn add_item_plan(
    root: CustomNode,
    segs: Seq<SegmentView>,
    index: Option<int>,
    v: CustomNode,
    b: Seq<u8>,
    offs: Seq<usize>,
) -> UnitPlan {
    add_item_child_plan(navigate_spec(root, segs)->Ok_0, index, v, b, offs, item_depth(segs), block_path(root, segs))
}

/// Views of the segment list `segs` without its last segment.
proof fn lemma_views_drop_last(segs: Seq<Segment>)
    requires
        segs.len() > 0,
    ensures
        segment_views(segs.drop_last()) == segment_views(segs).drop_last(),
        segment_views(segs).last() == segs.last()@,
{
    assert(segment_views(segs.drop_last()) =~= segment_views(segs).drop_last());
}

proof fn lemma_scalar_key_index_range(pairs: Seq<(CustomNode, CustomNode)>, k: Seq<char>, i: int)
    requires
        0 <= i,
    ensures
        scalar_key_index(pairs, k, i) matches Some(j) ==> i <= j < pairs.len(),
    decreases pairs.len() - i,
{
    if i < pairs.len() {
        lemma_scalar_key_index_range(pairs, k, i + 1);
    }
}

/// Putting back the subtree that navigation finds changes nothing.
proof fn lemma_put_found(n: CustomNode, segs: Seq<SegmentView>)
    requires
        navigate_spec(n, segs) is Ok,
    ensures
        put_at(tree_of(n), nav_path(n, segs), tree_of(navigate_spec(n, segs)->Ok_0)) == tree_of(n),
    decreases segs.len(),
{
    if segs.len() > 0 {
        let rest = segs.drop_first();
        match (n, segs[0]) {
            (CustomNode::Mapping { pairs, .. }, SegmentView::Key(k)) => {
                let i = scalar_key_index(pairs@, k, 0)->0;
                lemma_scalar_key_index_range(pairs@, k, 0);
                lemma_put_found(pairs@[i].1, rest);
                let p = seq![i] + nav_path(pairs@[i].1, rest);
                assert(p[0] == i);
                assert(p.drop_first() =~= nav_path(pairs@[i].1, rest));
                assert(pairs_tree(pairs@)[i] == (tree_of(pairs@[i].0), tree_of(pairs@[i].1)));
                assert(pairs_tree(pairs@).update(i, (pairs_tree(pairs@)[i].0, tree_of(pairs@[i].1)))
                    =~= pairs_tree(pairs@));
            },
            (CustomNode::Sequence { items, .. }, SegmentView::Index(ix)) => {
                let j = normalize_index_spec(ix, items@.len() as int)->0;
                lemma_put_found(items@[j], rest);
                let p = seq![j] + nav_path(items@[j], rest);
                assert(p[0] == j);
                assert(p.drop_first() =~= nav_path(items@[j], rest));
                assert(items_tree(items@)[j] == tree_of(items@[j]));
                assert(items_tree(items@).update(j, tree_of(items@[j])) =~= items_tree(items@));
            },
            _ => {},
        }
    }
}

/// On the empty mapping a null root becomes, creating missing mappings
/// along a path that starts with a key is what `set_on_empty` says.
proof fn lemma_create_on_empty(r0: CustomNode, sv: Seq<SegmentView>, v: CustomNode, b: Seq<u8>, offs: Seq<usize>)
    requires
        r0 matches CustomNode::Mapping { pairs, flow_style, meta } && pairs@.len() == 0 && !flow_style && meta
            == NodeMeta::empty(),
        sv.len() > 1,
        sv[0] is Key,
    ensures
        create_spec(r0, sv, v) == set_on_empty(sv, v, true),
        create_plan(r0, sv, v, b, offs) == pair_insert_plan(
            b,
            offs,
            Seq::empty(),
            plain_key_tree(sv[0]->Key_0),
            nested_tree(sv.drop_first(), v),
            0,
            false,
        ),
{
    if let CustomNode::Mapping { pairs, .. } = r0 {
        assert(existing_depth(r0, sv) == Ok::<nat, EditFailure>(0));
        assert(sv.skip(0) =~= sv);
        assert(sv.take(0) =~= Seq::<SegmentView>::empty());
        assert(pairs_tree(pairs@) =~= Seq::<(Tree, Tree)>::empty());
        assert(pairs@ =~= Seq::<(CustomNode, CustomNode)>::empty());
        assert(pairs_tree(pairs@).push((plain_key_tree(sv[0]->Key_0), nested_tree(sv.drop_first(), v))) =~= seq![
            (plain_key_tree(sv[0]->Key_0), nested_tree(sv.drop_first(), v)),
        ]);
    }
}

/// Navigating `a` then `b` on a tree is navigating `a + b`.
proof fn lemma_tree_nav_concat(t: Tree, a: Seq<SegmentView>, b: Seq<SegmentView>)
    ensures
        tree_nav(t, a + b) == match tree_nav(t, a) {
            Ok(x) => tree_nav(x, b),
            Err(e) => Err(e),
        },
    decreases a.len(),
{
    if a.len() == 0 {
        assert(a + b =~= b);
    } else {
        let ab = a + b;
        assert(ab[0] == a[0]);
        assert(ab.drop_first() =~= a.drop_first() + b);
        match (t, a[0]) {
            (Tree::Mapping { pairs, .. }, SegmentView::Key(k)) => match tree_key_pos(pairs, k, 0) {
                Some(i) => lemma_tree_nav_concat(pairs[i].1, a.drop_first(), b),
                None => {},
            },
            (Tree::Sequence { items, .. }, SegmentView::Index(i)) => match normalize_index_spec(i, items.len() as int) {
                Some(p) => lemma_tree_nav_concat(items[p], a.drop_first(), b),
                None => {},
            },
            _ => {},
        }
    }
}

/// A key absent from `ps` is found at the end of `ps` with a pair of that key pushed.
proof fn lemma_key_pos_push(ps: Seq<(Tree, Tree)>, k: Seq<char>, i: int, x: (Tree, Tree))
    requires
        0 <= i <= ps.len(),
        tree_key_pos(ps, k, i) is None,
        x.0 == plain_key_tree(k),
    ensures
        tree_key_pos(ps.push(x), k, i) == Some(ps.len() as int),
    decreases ps.len() - i,
{
    if i < ps.len() {
        assert(ps.push(x)[i] == ps[i]);
        lemma_key_pos_push(ps, k, i + 1, x);
    } else {
        assert(ps.push(x)[i] == x);
    }
}

/// Following the keys of a nested value leads to the value.
proof fn lemma_nested_read(keys: Seq<SegmentView>, v: CustomNode)
    requires
        all_keys(keys),
    ensures
        tree_nav(nested_tree(keys, v), keys) == Ok::<Tree, NavigateErrorView>(tree_of(v)),
    decreases keys.len(),
{
    if keys.len() > 0 {
        let rest = keys.drop_first();
        assert(keys[0] is Key);
        assert(all_keys(rest)) by {
            assert forall|m: int| 0 <= m < rest.len() implies #[trigger] rest[m] is Key by {
                assert(rest[m] == keys[m + 1]);
            }
        }
        let ps = seq![(plain_key_tree(keys[0]->Key_0), nested_tree(rest, v))];
        assert(tree_key_pos(ps, keys[0]->Key_0, 0) == Some(0int));
        lemma_nested_read(rest, v);
    }
}

/// Where the existing part of a path ends short of its end, it ends at a
/// mapping that lacks the next key.
proof fn lemma_existing_depth_stop(n: CustomNode, segs: Seq<SegmentView>)
    requires
        existing_depth(n, segs) matches Ok(c) && c < segs.len(),
    ensures
        ({
            let c = existing_depth(n, segs)->Ok_0 as int;
            navigate_spec(n, segs.take(c)) matches Ok(CustomNode::Mapping { pairs, .. }) && segs[c] matches SegmentView::Key(
                k,
            ) && scalar_key_index(pairs@, k, 0) is None
        }),
    decreases segs.len(),
{
    let c = existing_depth(n, segs)->Ok_0 as int;
    let rest = segs.drop_first();
    match (n, segs[0]) {
        (CustomNode::Mapping { pairs, .. }, SegmentView::Key(k)) => match scalar_key_index(pairs@, k, 0) {
            Some(i) => {
                lemma_existing_depth_stop(pairs@[i].1, rest);
                assert(segs.take(c)[0] == segs[0]);
                assert(segs.take(c).drop_first() =~= rest.take(c - 1));
                assert(segs[c] == rest[c - 1]);
            },
            None => {
                assert(segs.take(0).len() == 0);
            },
        },
        (CustomNode::Sequence { items, .. }, SegmentView::Index(ix)) => match normalize_index_spec(ix, items@.len() as int) {
            Some(j) => {
                lemma_existing_depth_stop(items@[j], rest);
                assert(segs.take(c)[0] == segs[0]);
                assert(segs.take(c).drop_first() =~= rest.take(c - 1));
                assert(segs[c] == rest[c - 1]);
            },
            None => {},
        },
        _ => {},
    }
}

/// The value a set stores at `segs` of `root`: `v`, carrying the replaced
/// node's comment, anchor and tag when `preserve` and a node was there.
pub open spec fn value_set(root: CustomNode, segs: Seq<SegmentView>, v: CustomNode, preserve: bool) -> Tree {
    if preserve && segs.len() > 0 && navigate_spec(root, segs) is Ok {
        stored_value(v, navigate_spec(root, segs)->Ok_0, true)
    } else {
        tree_of(v)
    }
}

/// Navigating `a` then `b` from a node is navigating `a + b`.
proof fn lemma_nav_concat(n: CustomNode, a: Seq<SegmentView>, b: Seq<SegmentView>)
    ensures
        navigate_spec(n, a + b) == match navigate_spec(n, a) {
            Ok(x) => navigate_spec(x, b),
            Err(e) => Err(e),
        },
    decreases a.len(),
{
    if a.len() == 0 {
        assert(a + b =~= b);
    } else {
        let ab = a + b;
        assert(ab[0] == a[0]);
        assert(ab.drop_first() =~= a.drop_first() + b);
        match (n, a[0]) {
            (CustomNode::Mapping { pairs, .. }, SegmentView::Key(k)) => match scalar_key_index(pairs@, k, 0) {
                Some(i) => lemma_nav_concat(pairs@[i].1, a.drop_first(), b),
                None => {},
            },
            (CustomNode::Sequence { items, .. }, SegmentView::Index(i)) => match normalize_index_spec(
                i,
                items@.len() as int,
            ) {
                Some(p) => lemma_nav_concat(items@[p], a.drop_first(), b),
                None => {},
            },
            _ => {},
        }
    }
}

/// The child a set makes is found again by its last segment.
proof fn lemma_set_child_read(parent: CustomNode, last: SegmentView, v: CustomNode, preserve: bool)
    requires
        set_child(parent, last, v, preserve) is Ok,
    ensures
        tree_nav(set_child(parent, last, v, preserve)->Ok_0, seq![last]) == Ok::<Tree, NavigateErrorView>(
            value_set(parent, seq![last], v, preserve),
        ),
{
    let one = seq![last];
    assert(one.drop_first() =~= Seq::<SegmentView>::empty());
    assert(one[0] == last);
    match (parent, last) {
        (CustomNode::Mapping { pairs, .. }, SegmentView::Key(k)) => {
            lemma_key_pos_tree(pairs@, k, 0);
            match scalar_key_index(pairs@, k, 0) {
                Some(i) => {
                    let sv = stored_value(v, pairs@[i].1, preserve);
                    assert(tree_nav(sv, Seq::<SegmentView>::empty()) == Ok::<Tree, NavigateErrorView>(sv));
                    assert(navigate_spec(pairs@[i].1, Seq::<SegmentView>::empty()) == Ok::<CustomNode, NavigateErrorView>(pairs@[i].1));
                    lemma_key_pos_update(pairs_tree(pairs@), k, 0, i, sv);
                    assert(pairs_tree(pairs@)[i].0 == tree_of(pairs@[i].0));
                    let ps2 = pairs_tree(pairs@).update(i, (tree_of(pairs@[i].0), sv));
                    assert(tree_key_pos(ps2, k, 0) == Some(i));
                    assert(ps2[i].1 == sv);
                },
                None => {
                    assert(tree_nav(tree_of(v), Seq::<SegmentView>::empty()) == Ok::<Tree, NavigateErrorView>(tree_of(v)));
                    lemma_key_pos_push(pairs_tree(pairs@), k, 0, (plain_key_tree(k), tree_of(v)));
                    let ps2 = pairs_tree(pairs@).push((plain_key_tree(k), tree_of(v)));
                    assert(ps2[pairs_tree(pairs@).len() as int].1 == tree_of(v));
                },
            }
        },
        (CustomNode::Sequence { items, .. }, SegmentView::Index(ix)) => {
            assert(items_tree(items@).len() == items@.len());
            let j = normalize_index_spec(ix, items@.len() as int)->0;
            let sv = stored_value(v, items@[j], preserve);
            assert(tree_nav(sv, Seq::<SegmentView>::empty()) == Ok::<Tree, NavigateErrorView>(sv));
            assert(navigate_spec(items@[j], Seq::<SegmentView>::empty()) == Ok::<CustomNode, NavigateErrorView>(items@[j]));
            assert(items_tree(items@).update(j, sv)[j] == sv);
        },
        _ => {},
    }
}

/// Setting a value and then reading the same path gives the value back
/// (with the replaced node's comment, anchor and tag when `preserve` and a
/// node was there): whether the key or item existed, the parent was missing
/// and mappings were made for it, or the root was null.
pub proof fn law_set_then_read(
    root: CustomNode,
    segs: Seq<SegmentView>,
    v: CustomNode,
    preserve: bool,
    create_missing: bool,
    new_root: CustomNode,
)
    requires
        set_spec(root, segs, v, preserve, create_missing) matches Ok(t) && tree_of(new_root) == t,
    ensures
        navigate_spec(new_root, segs) matches Ok(m) && tree_of(m) == value_set(root, segs, v, preserve),
{
    let t = set_spec(root, segs, v, preserve, create_missing)->Ok_0;
    if segs.len() == 0 {
        assert(tree_nav(t, segs) == Ok::<Tree, NavigateErrorView>(value_set(root, segs, v, preserve)));
    } else if root is Null {
        let k = segs[0]->Key_0;
        if segs.len() == 1 {
            let ps = seq![(plain_key_tree(k), tree_of(v))];
            assert(segs[0] is Key);
            assert(t == Tree::Mapping { pairs: ps, flow: false, meta: NodeMeta::empty() });
            assert(tree_key_pos(ps, k, 0) == Some(0int));
            assert(segs.drop_first() =~= Seq::<SegmentView>::empty());
            assert(tree_nav(tree_of(v), Seq::<SegmentView>::empty()) == Ok::<Tree, NavigateErrorView>(tree_of(v)));
        } else {
            let rest = segs.drop_first();
            let ps = seq![(plain_key_tree(k), nested_tree(rest, v))];
            assert(segs[0] is Key && create_missing && all_keys(segs));
            assert(t == Tree::Mapping { pairs: ps, flow: false, meta: NodeMeta::empty() });
            assert(tree_key_pos(ps, k, 0) == Some(0int));
            assert(all_keys(rest)) by {
                assert forall|m: int| 0 <= m < rest.len() implies #[trigger] rest[m] is Key by {
                    assert(rest[m] == segs[m + 1]);
                }
            }
            lemma_nested_read(rest, v);
        }
        assert(tree_nav(t, segs) == Ok::<Tree, NavigateErrorView>(value_set(root, segs, v, preserve)));
    } else if create_missing && navigate_spec(root, segs.drop_last()) matches Err(NavigateErrorView::Missing(_)) {
        assert(segs.drop_last() + seq![segs.last()] =~= segs);
        lemma_nav_concat(root, segs.drop_last(), seq![segs.last()]);
        let c = existing_depth(root, segs)->Ok_0 as int;
        let prefix = segs.take(c);
        let tail = segs.skip(c);
        lemma_existing_depth_stop(root, segs);
        let parent = navigate_spec(root, prefix)->Ok_0;
        if let CustomNode::Mapping { pairs, flow_style, meta } = parent {
            let k = tail[0]->Key_0;
            assert(tail[0] == segs[c]);
            let m = Tree::Mapping {
                pairs: pairs_tree(pairs@).push((plain_key_tree(k), nested_tree(tail.drop_first(), v))),
                flow: flow_style,
                meta,
            };
            lemma_nav_tree(root, prefix);
            lemma_tree_read_back(tree_of(root), prefix, m);
            assert(prefix + tail =~= segs);
            lemma_tree_nav_concat(t, prefix, tail);
            lemma_key_pos_tree(pairs@, k, 0);
            lemma_key_pos_push(pairs_tree(pairs@), k, 0, (plain_key_tree(k), nested_tree(tail.drop_first(), v)));
            assert(all_keys(tail.drop_first())) by {
                assert forall|j: int| 0 <= j < tail.drop_first().len() implies #[trigger] tail.drop_first()[j] is Key by {
                    assert(tail.drop_first()[j] == tail[j + 1]);
                }
            }
            lemma_nested_read(tail.drop_first(), v);
            assert(tree_nav(t, segs) == Ok::<Tree, NavigateErrorView>(value_set(root, segs, v, preserve)));
        }
    } else {
        let ps = segs.drop_last();
        let parent = navigate_spec(root, ps)->Ok_0;
        let c = set_child(parent, segs.last(), v, preserve)->Ok_0;
        lemma_nav_tree(root, ps);
        lemma_tree_read_back(tree_of(root), ps, c);
        assert(ps + seq![segs.last()] =~= segs);
        lemma_tree_nav_concat(t, ps, seq![segs.last()]);
        lemma_nav_concat(root, ps, seq![segs.last()]);
        lemma_set_child_read(parent, segs.last(), v, preserve);
        assert(value_set(root, segs, v, preserve) == value_set(parent, seq![segs.last()], v, preserve));
        assert(tree_nav(t, segs) == Ok::<Tree, NavigateErrorView>(value_set(root, segs, v, preserve)));
    }
    lemma_nav_tree(new_root, segs);
}

/// Adding an item at a position and then reading the sequence at that
/// position gives the item back; appending puts it last, where index -1
/// reads it.
pub proof fn law_add_item_then_read(
    root: CustomNode,
    segs: Seq<SegmentView>,
    index: Option<int>,
    v: CustomNode,
    new_root: CustomNode,
)
    requires
        add_item_spec(root, segs, index, v) matches Ok(t) && tree_of(new_root) == t,
    ensures
        ({
            let n = navigate_spec(root, segs)->Ok_0->Sequence_items@.len() as int;
            let at = match index {
                Some(i) => insert_position(i, n)->0,
                None => n,
            };
            &&& navigate_spec(new_root, segs.push(SegmentView::Index(at))) matches Ok(m) && tree_of(m) == tree_of(v)
            &&& index is None && n < i64::MAX ==> (navigate_spec(new_root, segs.push(SegmentView::Index(-1))) matches Ok(
                m,
            ) && tree_of(m) == tree_of(v))
        }),
{
    let t = add_item_spec(root, segs, index, v)->Ok_0;
    let node = navigate_spec(root, segs)->Ok_0;
    if let CustomNode::Sequence { items, flow_style, meta } = node {
        let n = items@.len() as int;
        let at = match index {
            Some(i) => insert_position(i, n)->0,
            None => n,
        };
        let xs = items_tree(items@).insert(at, tree_of(v));
        let sub = Tree::Sequence { items: xs, flow: flow_style, meta };
        assert(items_tree(items@).len() == n);
        assert(xs[at] == tree_of(v));
        lemma_nav_tree(root, segs);
        lemma_tree_read_back(tree_of(root), segs, sub);
        assert(t == put_at(tree_of(root), nav_path(root, segs), sub));
        assert(tree_nav(t, segs) == Ok::<Tree, NavigateErrorView>(sub));
        assert(0 <= at <= n);
        assert(xs.len() == n + 1);
        assert(tree_nav(tree_of(v), Seq::<SegmentView>::empty()) == Ok::<Tree, NavigateErrorView>(tree_of(v)));
        let one = seq![SegmentView::Index(at)];
        assert(one.drop_first() =~= Seq::<SegmentView>::empty());
        assert(one[0] == SegmentView::Index(at));
        assert(normalize_index_spec(at, xs.len() as int) == Some(at));
        assert(tree_nav(sub, one) == Ok::<Tree, NavigateErrorView>(tree_of(v)));
        assert(segs + one =~= segs.push(SegmentView::Index(at)));
        lemma_tree_nav_concat(t, segs, one);
        lemma_nav_tree(new_root, segs.push(SegmentView::Index(at)));
        if index is None {
            let last = seq![SegmentView::Index(-1)];
            assert(last.drop_first() =~= Seq::<SegmentView>::empty());
            assert(last[0] == SegmentView::Index(-1));
            assert(segs + last =~= segs.push(SegmentView::Index(-1)));
            lemma_tree_nav_concat(t, segs, last);
            lemma_nav_tree(new_root, segs.push(SegmentView::Index(-1)));
        }
    }
}

/// A renamed key is found at its old position, where no earlier pair has
/// the new name.
proof fn lemma_key_pos_rename(ps: Seq<(Tree, Tree)>, nk: Seq<char>, j: int, i: int, x: (Tree, Tree))
    requires
        0 <= j <= i < ps.len(),
        x.0 == plain_key_tree(nk),
        tree_key_pos(ps, nk, j) is None || tree_key_pos(ps, nk, j) == Some(i),
    ensures
        tree_key_pos(ps.update(i, x), nk, j) == Some(i),
    decreases i - j,
{
    if j < i {
        assert(ps.update(i, x)[j] == ps[j]);
        lemma_key_pos_rename(ps, nk, j + 1, i, x);
    } else {
        assert(ps.update(i, x)[i] == x);
    }
}

/// After a rename, the new key at the same parent leads to the value the
/// old key led to.
pub proof fn law_rename_then_read(root: CustomNode, segs: Seq<SegmentView>, new_key: Seq<char>, new_root: CustomNode)
    requires
        at_parent(root, segs, EditFailure::CannotRenameRoot, |p: CustomNode, l: SegmentView| rename_child(p, l, new_key))
            matches Ok(t) && tree_of(new_root) == t,
    ensures
        navigate_spec(root, segs) matches Ok(old_value) && navigate_spec(
            new_root,
            segs.drop_last().push(SegmentView::Key(new_key)),
        ) matches Ok(m) && tree_of(m) == tree_of(old_value),
{
    let t = at_parent(root, segs, EditFailure::CannotRenameRoot, |p: CustomNode, l: SegmentView| rename_child(p, l, new_key))->Ok_0;
    let ps = segs.drop_last();
    let parent = navigate_spec(root, ps)->Ok_0;
    if let (CustomNode::Mapping { pairs, flow_style, meta }, SegmentView::Key(k)) = (parent, segs.last()) {
        lemma_key_pos_tree(pairs@, k, 0);
        lemma_key_pos_tree(pairs@, new_key, 0);
        let i = scalar_key_index(pairs@, k, 0)->0;
        let val = tree_of(pairs@[i].1);
        let x = (plain_key_tree(new_key), val);
        let sub = Tree::Mapping { pairs: pairs_tree(pairs@).update(i, x), flow: flow_style, meta };
        assert(pairs_tree(pairs@)[i].1 == val);
        lemma_key_pos_rename(pairs_tree(pairs@), new_key, 0, i, x);
        assert(tree_nav(val, Seq::<SegmentView>::empty()) == Ok::<Tree, NavigateErrorView>(val));
        // The new key reads the value in the new tree.
        lemma_nav_tree(root, ps);
        lemma_tree_read_back(tree_of(root), ps, sub);
        let one = seq![SegmentView::Key(new_key)];
        assert(one.drop_first() =~= Seq::<SegmentView>::empty());
        assert(one[0] == SegmentView::Key(new_key));
        assert(ps + one =~= ps.push(SegmentView::Key(new_key)));
        lemma_tree_nav_concat(t, ps, one);
        lemma_nav_tree(new_root, ps.push(SegmentView::Key(new_key)));
        // The old key read the value in the old tree.
        let old_one = seq![segs.last()];
        assert(old_one.drop_first() =~= Seq::<SegmentView>::empty());
        assert(old_one[0] == segs.last());
        assert(ps + old_one =~= segs);
        lemma_tree_nav_concat(tree_of(root), ps, old_one);
        lemma_nav_tree(root, segs);
    }
}

/// After an edit at the parent of `segs` (a delete, a rename or a set of
/// an existing parent's child), reading the parent's path gives the parent
/// as the edit made it: for a delete, without the child and with the other
/// children in order.
pub proof fn law_parent_read_back(
    root: CustomNode,
    segs: Seq<SegmentView>,
    empty: EditFailure,
    edit: spec_fn(CustomNode, SegmentView) -> Result<Tree, EditFailure>,
    new_root: CustomNode,
)
    requires
        at_parent(root, segs, empty, edit) matches Ok(t) && tree_of(new_root) == t,
    ensures
        navigate_spec(root, segs.drop_last()) matches Ok(parent) && navigate_spec(new_root, segs.drop_last()) matches Ok(
            p,
        ) && edit(parent, segs.last()) == Ok::<Tree, EditFailure>(tree_of(p)),
{
    let ps = segs.drop_last();
    let parent = navigate_spec(root, ps)->Ok_0;
    let sub = edit(parent, segs.last())->Ok_0;
    lemma_nav_tree(root, ps);
    lemma_tree_read_back(tree_of(root), ps, sub);
    lemma_nav_tree(new_root, ps);
}

/// Whether two keys are scalars with the same text (as path edits match keys).
pub open spec fn same_scalar_key(a: Tree, b: Tree) -> bool {
    &&& a matches Tree::Scalar { value: x, .. }
    &&& b matches Tree::Scalar { value: y, .. }
    &&& a->Scalar_value == b->Scalar_value
}

/// Whether no two pairs of `ps` have scalar keys with the same text.
pub open spec fn scalar_keys_unique(ps: Seq<(Tree, Tree)>) -> bool {
    forall|i: int, j: int| 0 <= i < j < ps.len() ==> !same_scalar_key(#[trigger] ps[i].0, #[trigger] ps[j].0)
}

/// A text that `tree_key_pos` does not find from `i` is no scalar key there.
proof fn lemma_key_pos_none(ps: Seq<(Tree, Tree)>, k: Seq<char>, i: int)
    requires
        0 <= i,
        tree_key_pos(ps, k, i) is None,
    ensures
        forall|j: int| i <= j < ps.len() ==> !same_scalar_key(#[trigger] ps[j].0, plain_key_tree(k)),
    decreases ps.len() - i,
{
    if i < ps.len() {
        lemma_key_pos_none(ps, k, i + 1);
    }
}

/// Where `tree_key_pos` finds `k` at `p`, no earlier key is the scalar `k`.
proof fn lemma_key_pos_first(ps: Seq<(Tree, Tree)>, k: Seq<char>, i: int)
    requires
        0 <= i,
    ensures
        tree_key_pos(ps, k, i) matches Some(p) ==> (i <= p < ps.len() && same_scalar_key(ps[p].0, plain_key_tree(k))
            && forall|j: int| i <= j < p ==> !same_scalar_key(#[trigger] ps[j].0, plain_key_tree(k))),
    decreases ps.len() - i,
{
    if i < ps.len() {
        lemma_key_pos_first(ps, k, i + 1);
    }
}

/// Path edits keep the scalar keys of a mapping unique: a set replaces a
/// value or adds a key that was not there, a rename refuses a name that is
/// taken, and a delete removes a pair.
pub proof fn law_edits_keep_keys_unique(
    parent: CustomNode,
    last: SegmentView,
    v: CustomNode,
    preserve: bool,
    new_key: Seq<char>,
)
    requires
        parent matches CustomNode::Mapping { pairs, .. } && scalar_keys_unique(pairs_tree(pairs@)),
    ensures
        set_child(parent, last, v, preserve) matches Ok(Tree::Mapping { pairs: p2, .. }) ==> scalar_keys_unique(p2),
        rename_child(parent, last, new_key) matches Ok(Tree::Mapping { pairs: p2, .. }) ==> scalar_keys_unique(p2),
        delete_child(parent, last) matches Ok(Tree::Mapping { pairs: p2, .. }) ==> scalar_keys_unique(p2),
{
    if let (CustomNode::Mapping { pairs, .. }, SegmentView::Key(k)) = (parent, last) {
        let ps = pairs_tree(pairs@);
        lemma_key_pos_tree(pairs@, k, 0);
        lemma_key_pos_tree(pairs@, new_key, 0);
        match scalar_key_index(pairs@, k, 0) {
            Some(i) => {
                assert(ps[i].0 == tree_of(pairs@[i].0));
                let s2 = ps.update(i, (ps[i].0, stored_value(v, pairs@[i].1, preserve)));
                assert(scalar_keys_unique(s2)) by {
                    assert forall|a: int, b: int| 0 <= a < b < s2.len() implies !same_scalar_key(
                        #[trigger] s2[a].0,
                        #[trigger] s2[b].0,
                    ) by {
                        assert(s2[a].0 == ps[a].0 && s2[b].0 == ps[b].0);
                    }
                }
                let x = (plain_key_tree(new_key), tree_of(pairs@[i].1));
                let r2 = ps.update(i, x);
                if new_key != k && scalar_key_index(pairs@, new_key, 0) is Some {
                } else {
                    lemma_key_pos_first(ps, k, 0);
                    if new_key != k {
                        lemma_key_pos_none(ps, new_key, 0);
                    }
                    assert(scalar_keys_unique(r2)) by {
                        assert forall|a: int, b: int| 0 <= a < b < r2.len() implies !same_scalar_key(
                            #[trigger] r2[a].0,
                            #[trigger] r2[b].0,
                        ) by {
                            if a != i && b != i {
                                assert(r2[a].0 == ps[a].0 && r2[b].0 == ps[b].0);
                            } else if a == i {
                                assert(r2[b].0 == ps[b].0);
                                if new_key == k {
                                    assert(!same_scalar_key(ps[a].0, ps[b].0));
                                }
                            } else {
                                assert(r2[a].0 == ps[a].0);
                                if new_key == k {
                                    assert(!same_scalar_key(ps[a].0, ps[b].0));
                                }
                            }
                        }
                    }
                }
                let d2 = ps.remove(i);
                assert(scalar_keys_unique(d2)) by {
                    assert forall|a: int, b: int| 0 <= a < b < d2.len() implies !same_scalar_key(
                        #[trigger] d2[a].0,
                        #[trigger] d2[b].0,
                    ) by {
                        let a0 = if a < i { a } else { a + 1 };
                        let b0 = if b < i { b } else { b + 1 };
                        assert(d2[a].0 == ps[a0].0 && d2[b].0 == ps[b0].0);
                    }
                }
            },
            None => {
                lemma_key_pos_none(ps, k, 0);
                let s2 = ps.push((plain_key_tree(k), tree_of(v)));
                assert(scalar_keys_unique(s2)) by {
                    assert forall|a: int, b: int| 0 <= a < b < s2.len() implies !same_scalar_key(
                        #[trigger] s2[a].0,
                        #[trigger] s2[b].0,
                    ) by {
                        assert(s2[a].0 == ps[a].0);
                        if b < ps.len() {
                            assert(s2[b].0 == ps[b].0);
                        } else {
                            assert(!same_scalar_key(ps[a].0, plain_key_tree(k)));
                        }
                    }
                }
            },
        }
    }
}

/// A copy of a segment.
fn copy_segment(s: &Segment) -> (res: Segment)
    ensures
        res@ == s@,
{
    match s {
        Segment::Key(k) => Segment::Key(k.clone()),
        Segment::Index(i) => Segment::Index(*i),
    }
}

/// The first `n` segments.
fn prefix_segments(segs: &[Segment], n: usize) -> (res: Vec<Segment>)
    requires
        n <= segs@.len(),
    ensures
        segment_views(res@) == segment_views(segs@).take(n as int),
{
    let mut out: Vec<Segment> = Vec::new();
    let mut i: usize = 0;
    while i < n
        invariant
            0 <= i <= n,
            n <= segs@.len(),
            segment_views(out@) == segment_views(segs@).take(i as int),
        decreases n - i,
    {
        let c = copy_segment(&segs[i]);
        let ghost before = out@;
        out.push(c);
        assert(segment_views(out@) =~= segment_views(before).push(c@));
        assert(segment_views(segs@).take(i + 1) =~= segment_views(segs@).take(i as int).push(segs@[i as int]@));
        i = i + 1;
    }
    out
}

/// The segments without the last one.
fn parent_segments(segs: &[Segment]) -> (res: Vec<Segment>)
    requires
        segs@.len() > 0,
    ensures
        segment_views(res@) == segment_views(segs@).drop_last(),
{
    let out = prefix_segments(segs, segs.len() - 1);
    assert(segment_views(segs@).take(segs@.len() - 1) =~= segment_views(segs@).drop_last());
    out
}

/// The length of the part of `segs` from `i` on that exists below `n`,
/// counted from the start of `segs` (see `existing_depth`).
fn walk_from(n: &CustomNode, segs: &[Segment], i: usize) -> (res: Result<usize, EditError>)
    requires
        i <= segs@.len(),
    ensures
        match existing_depth(*n, segment_views(segs@).skip(i as int)) {
            Ok(c) => res matches Ok(r) && r == i + c,
            Err(f) => res matches Err(e) && failure_of(e) == f,
        },
    decreases segs@.len() - i,
{
    let ghost sv = segment_views(segs@);
    if i >= segs.len() {
        assert(sv.skip(i as int).len() == 0);
        return Ok(i);
    }
    assert(sv.skip(i as int)[0] == segs@[i as int]@);
    assert(sv.skip(i as int).drop_first() =~= sv.skip(i + 1));
    match (n, &segs[i]) {
        (CustomNode::Mapping { pairs, .. }, Segment::Key(k)) => match find_scalar_key(pairs, k) {
            Some(j) => walk_from(&pairs[j].1, segs, i + 1),
            None => Ok(i),
        },
        (CustomNode::Sequence { items, .. }, Segment::Index(ix)) => match normalize_index(*ix, items.len()) {
            Some(j) => walk_from(&items[j], segs, i + 1),
            None => Err(EditError::IndexOutOfRange),
        },
        (CustomNode::Alias { .. }, _) => Err(EditError::CannotEditAlias),
        _ => Err(EditError::CreateNeedsMapping),
    }
}

/// `v` nested in fresh mappings, one per segment after `from` (all keys).
fn nest_value(segs: &[Segment], from: usize, v: CustomNode) -> (res: Result<CustomNode, EditError>)
    requires
        from < segs@.len(),
    ensures
        ({
            let t = segment_views(segs@).subrange(from + 1, segs@.len() as int);
            match res {
                Ok(n) => all_keys(t) && tree_of(n) == nested_tree(t, v),
                Err(e) => !all_keys(t) && e == EditError::CreateNeedsMapping,
            }
        }),
{
    let ghost sv = segment_views(segs@);
    let ghost len = segs@.len() as int;
    let mut nested = v;
    let mut j: usize = segs.len();
    assert(sv.subrange(len, len).len() == 0);
    while j > from + 1
        invariant
            from + 1 <= j <= segs@.len(),
            sv == segment_views(segs@),
            len == segs@.len(),
            all_keys(sv.subrange(j as int, len)),
            tree_of(nested) == nested_tree(sv.subrange(j as int, len), v),
        decreases j,
    {
        assert(sv.subrange(j - 1, len)[0] == sv[j - 1]);
        assert(sv[j - 1] == segs@[j - 1]@);
        match &segs[j - 1] {
            Segment::Key(k) => {
                let key = CustomNode::plain_scalar(k.as_str());
                let ghost inner = nested;
                let mut pairs: Vec<(CustomNode, CustomNode)> = Vec::new();
                pairs.push((key, nested));
                nested = CustomNode::plain_mapping(pairs);
                proof {
                    assert(sv.subrange(j - 1, len).drop_first() =~= sv.subrange(j as int, len));
                    assert(pairs_tree(seq![(key, inner)]) =~= seq![(plain_key_tree(k@), tree_of(inner))]);
                    assert forall|m: int| 0 <= m < sv.subrange(j - 1, len).len() implies #[trigger] sv.subrange(
                        j - 1,
                        len,
                    )[m] is Key by {
                        if m > 0 {
                            assert(sv.subrange(j - 1, len)[m] == sv.subrange(j as int, len)[m - 1]);
                        }
                    }
                }
            },
            Segment::Index(_) => {
                proof {
                    let t = sv.subrange(from + 1, len);
                    assert(t[j - 1 - (from + 1)] == sv[j - 1]);
                }
                return Err(EditError::CreateNeedsMapping);
            },
        }
        j = j - 1;
    }
    Ok(nested)
}

/// Set `v` at `segs`, making the missing mappings (see `create_spec`).
fn create_in(root: &mut CustomNode, segs: &[Segment], v: CustomNode, source: &str, offs: &[usize]) -> (res: Result<
    DirtyUnit,
    EditError,
>)
    requires
        create_spec(*old(root), segment_views(segs@), v) is Ok ==> !plan_emits(
            create_plan(*old(root), segment_views(segs@), v, source.spec_bytes(), offs@).text,
            Emit::Stops,
        ),
    ensures
        edit_unit_result(
            create_spec(*old(root), segment_views(segs@), v),
            create_plan(*old(root), segment_views(segs@), v, source.spec_bytes(), offs@),
            res,
            tree_of(*old(root)),
            tree_of(*final(root)),
        ),
{
    let ghost r0 = *root;
    let ghost sv = segment_views(segs@);
    assert(sv.skip(0) =~= sv);
    let c = match walk_from(root, segs, 0) {
        Ok(c) => c,
        Err(e) => return Err(e),
    };
    if c >= segs.len() {
        return Err(EditError::CreateNeedsMapping);
    }
    let ghost tail = sv.skip(c as int);
    assert(tail.drop_first() =~= sv.subrange(c + 1, sv.len() as int));
    assert(tail[0] == segs@[c as int]@);
    let nested = match nest_value(segs, c, v) {
        Ok(n) => n,
        Err(e) => {
            assert(!all_keys(tail)) by {
                let t = sv.subrange(c + 1, sv.len() as int);
                let m = choose|m: int| 0 <= m < t.len() && !(#[trigger] t[m] is Key);
                assert(tail[m + 1] == t[m]);
            }
            return Err(e);
        },
    };
    let k = match &segs[c] {
        Segment::Key(k) => k,
        Segment::Index(_) => {
            assert(!(tail[0] is Key));
            return Err(EditError::CreateNeedsMapping);
        },
    };
    assert(all_keys(tail)) by {
        assert forall|m: int| 0 <= m < tail.len() implies #[trigger] tail[m] is Key by {
            if m > 0 {
                assert(tail[m] == sv.subrange(c + 1, sv.len() as int)[m - 1]);
            }
        }
    }
    let prefix = prefix_segments(segs, c);
    let ok = path_is_block(root, segs, c);
    proof {
        if navigate_spec(r0, segment_views(prefix@)) is Ok {
            lemma_put_found(r0, segment_views(prefix@));
        }
    }
    match navigate_mut(root, prefix.as_slice()) {
        Err(e) => Err(nav_error(e)),
        Ok(parent) => match parent {
            CustomNode::Mapping { pairs, .. } => {
                let ghost p0 = pairs@;
                let ok2 = ok && mapping_keys_start_lines(pairs, offs, source);
                let key = CustomNode::plain_scalar(k.as_str());
                match pair_insert_unit(source, offs, pairs, &key, &nested, c, ok2) {
                    Ok(u) => {
                        pairs.push((key, nested));
                        assert(pairs_tree(pairs@) =~= pairs_tree(p0).push((plain_key_tree(k@), tree_of(nested))));
                        Ok(u)
                    },
                    Err(e) => Err(e),
                }
            },
            _ => Err(EditError::CreateNeedsMapping),
        },
    }
}

/// The edit error of a navigation error.
fn nav_error(e: NavigateError) -> (res: EditError)
    ensures
        failure_of(res) == nav_failure(e@),
{
    EditError::from_navigate(e)
}

/// Delete the child named by `last` of `parent` (see `delete_child`).
fn delete_in(parent: &mut CustomNode, last: &Segment, source: &str, offs: &[usize], ok: bool) -> (res: Result<
    DirtyUnit,
    EditError,
>)
    ensures
        edit_unit_result(
            delete_child(*old(parent), last@),
            delete_child_plan(*old(parent), last@, source.spec_bytes(), offs@, ok),
            res,
            tree_of(*old(parent)),
            tree_of(*final(parent)),
        ),
{
    match (parent, last) {
        (CustomNode::Mapping { pairs, .. }, Segment::Key(k)) => match find_scalar_key(pairs, k) {
            Some(i) => {
                let ghost p0 = pairs@;
                let ok2 = ok && mapping_keys_start_lines(pairs, offs, source);
                let ks = range_start_or(&pairs[i].0, 0);
                let ve = range_end_or(&pairs[i].1, ks);
                let u = delete_unit(source, offs, ks, ve, ok2);
                pairs.remove(i);
                assert(pairs_tree(pairs@) =~= pairs_tree(p0).remove(i as int));
                Ok(u)
            },
            None => Err(EditError::MissingKey),
        },
        (CustomNode::Sequence { items, .. }, Segment::Index(ix)) => match normalize_index(*ix, items.len()) {
            Some(j) => {
                let ghost x0 = items@;
                let s = range_start_or(&items[j], 0);
                let e = range_end_or(&items[j], 0);
                let u = delete_unit(source, offs, s, e, ok);
                items.remove(j);
                assert(items_tree(items@) =~= items_tree(x0).remove(j as int));
                Ok(u)
            },
            None => Err(EditError::IndexOutOfRange),
        },
        (CustomNode::Alias { .. }, _) => Err(EditError::CannotEditAlias),
        _ => Err(EditError::MissingKey),
    }
}

/// Rename the key named by `last` of `parent` (see `rename_child`).
fn rename_in(
    parent: &mut CustomNode,
    last: &Segment,
    new_key: &str,
    source: &str,
    offs: &[usize],
    depth: usize,
    ok: bool,
) -> (res: Result<DirtyUnit, EditError>)
    requires
        depth < usize::MAX,
        rename_child(*old(parent), last@, new_key@) is Ok ==> !plan_emits(
            rename_child_plan(*old(parent), last@, new_key@, source.spec_bytes(), offs@, depth as int, ok).text,
            Emit::Stops,
        ),
    ensures
        edit_unit_result(
            rename_child(*old(parent), last@, new_key@),
            rename_child_plan(*old(parent), last@, new_key@, source.spec_bytes(), offs@, depth as int, ok),
            res,
            tree_of(*old(parent)),
            tree_of(*final(parent)),
        ),
{
    match (parent, last) {
        (CustomNode::Mapping { pairs, .. }, Segment::Key(k)) => match find_scalar_key(pairs, k) {
            Some(i) => {
                let nk = crate::text::string_from(new_key);
                if !crate::text::str_equals(new_key, k.as_str()) && find_scalar_key(pairs, &nk).is_some() {
                    return Err(EditError::RenameKeyExists);
                }
                let ghost p0 = pairs@;
                let ok2 = ok && mapping_keys_start_lines(pairs, offs, source);
                let key = CustomNode::plain_scalar(new_key);
                let u = pair_region_unit(source, offs, &pairs[i].0, &pairs[i].1, &key, &pairs[i].1, depth, ok2);
                let entry = &mut pairs[i];
                entry.0 = key;
                assert(pairs@ == p0.update(i as int, (key, p0[i as int].1)));
                assert(pairs_tree(pairs@) =~= pairs_tree(p0).update(
                    i as int,
                    (plain_key_tree(new_key@), tree_of(p0[i as int].1)),
                ));
                u
            },
            None => Err(EditError::MissingKey),
        },
        (CustomNode::Alias { .. }, _) => Err(EditError::CannotEditAlias),
        _ => Err(EditError::CannotRenameComplexKey),
    }
}

/// The value to store over `old`.
fn stored(v: CustomNode, old: &CustomNode, preserve: bool) -> (res: CustomNode)
    ensures
        tree_of(res) == stored_value(v, *old, preserve),
{
    if preserve {
        let r = with_metadata_from(&v, old);
        proof {
            lemma_same_node_tree(r, with_metadata_spec(v, *old));
        }
        r
    } else {
        v
    }
}

/// Set the child named by `last` of `parent` (see `set_child`).
fn set_in(
    parent: &mut CustomNode,
    last: &Segment,
    v: CustomNode,
    preserve: bool,
    source: &str,
    offs: &[usize],
    depth: usize,
    ok: bool,
) -> (res: Result<DirtyUnit, EditError>)
    requires
        depth < usize::MAX,
        set_child(*old(parent), last@, v, preserve) is Ok ==> !plan_emits(
            set_child_plan(*old(parent), last@, v, preserve, source.spec_bytes(), offs@, depth as int, ok).text,
            Emit::Stops,
        ),
    ensures
        edit_unit_result(
            set_child(*old(parent), last@, v, preserve),
            set_child_plan(*old(parent), last@, v, preserve, source.spec_bytes(), offs@, depth as int, ok),
            res,
            tree_of(*old(parent)),
            tree_of(*final(parent)),
        ),
{
    match (parent, last) {
        (CustomNode::Alias { .. }, _) => Err(EditError::CannotEditAlias),
        (CustomNode::Mapping { pairs, .. }, Segment::Key(k)) => {
            let ok2 = ok && mapping_keys_start_lines(pairs, offs, source);
            match find_scalar_key(pairs, k) {
                Some(i) => {
                    let ghost p0 = pairs@;
                    let nv = stored(v, &pairs[i].1, preserve);
                    let u = pair_region_unit(source, offs, &pairs[i].0, &pairs[i].1, &pairs[i].0, &nv, depth, ok2);
                    let entry = &mut pairs[i];
                    entry.1 = nv;
                    assert(pairs_tree(pairs@) =~= pairs_tree(p0).update(
                        i as int,
                        (tree_of(p0[i as int].0), stored_value(v, p0[i as int].1, preserve)),
                    ));
                    u
                },
                None => {
                    let ghost p0 = pairs@;
                    let key = CustomNode::plain_scalar(k.as_str());
                    match pair_insert_unit(source, offs, pairs, &key, &v, depth, ok2) {
                        Ok(u) => {
                            pairs.push((key, v));
                            assert(pairs_tree(pairs@) =~= pairs_tree(p0).push((plain_key_tree(k@), tree_of(v))));
                            Ok(u)
                        },
                        Err(e) => Err(e),
                    }
                },
            }
        },
        (CustomNode::Sequence { items, .. }, Segment::Index(ix)) => match normalize_index(*ix, items.len()) {
            Some(j) => {
                let ghost x0 = items@;
                let nv = stored(v, &items[j], preserve);
                let u = item_region_unit(source, offs, &items[j], &nv, depth, ok);
                items.set(j, nv);
                assert(items_tree(items@) =~= items_tree(x0).update(j as int, stored_value(v, x0[j as int], preserve)));
                u
            },
            None => Err(EditError::IndexOutOfRange),
        },
        _ => Err(EditError::CreateNeedsMapping),
    }
}

/// A copy of the line offsets an edit works with (see `offsets_of`).
fn offsets_for(source: &str, lo: Option<&[usize]>) -> (res: Vec<usize>)
    ensures
        res@ == offsets_of(source, lo),
{
    match lo {
        Some(o) => {
            let mut v: Vec<usize> = Vec::new();
            let mut i: usize = 0;
            while i < o.len()
                invariant
                    0 <= i <= o@.len(),
                    v@ == o@.take(i as int),
                decreases o@.len() - i,
            {
                v.push(o[i]);
                assert(o@.take(i + 1) =~= o@.take(i as int).push(o@[i as int]));
                i = i + 1;
            }
            assert(o@.take(o@.len() as int) =~= o@);
            v
        },
        None => compute_line_offsets(source),
    }
}

/// An index as an integer.
pub open spec fn opt_index(index: Option<i64>) -> Option<int> {
    match index {
        Some(i) => Some(i as int),
        None => None,
    }
}

/// Delete the node at `segs`: a pair of a mapping (by scalar key) or an
/// item of a sequence (negative indices count from the end). The unit
/// deletes its lines from `source` (see `delete_child_plan`); `line_offsets`
/// are those of `source` when given, else computed.
pub fn delete_path(root: &mut CustomNode, segs: &[Segment], source: &str, line_offsets: Option<&[usize]>) -> (res: Result<
    DirtyUnit,
    EditError,
>)
    ensures
        edit_unit_result(
            at_parent(*old(root), segment_views(segs@), EditFailure::Generic, |p: CustomNode, l: SegmentView| delete_child(p, l)),
            delete_child_plan(
                navigate_spec(*old(root), segment_views(segs@).drop_last())->Ok_0,
                segment_views(segs@).last(),
                source.spec_bytes(),
                offsets_of(source, line_offsets),
                block_path(*old(root), segment_views(segs@).drop_last()),
            ),
            res,
            tree_of(*old(root)),
            tree_of(*final(root)),
        ),
{
    if segs.len() == 0 {
        return Err(EditError::Generic);
    }
    let offs_v = offsets_for(source, line_offsets);
    let offs = offs_v.as_slice();
    let ghost r0 = *root;
    let ps = parent_segments(segs);
    let last = &segs[segs.len() - 1];
    let ok = path_is_block(root, segs, segs.len() - 1);
    proof {
        lemma_views_drop_last(segs@);
        assert(segment_views(segs@).take(segs@.len() - 1) =~= segment_views(segs@).drop_last());
        if navigate_spec(r0, segment_views(ps@)) is Ok {
            lemma_put_found(r0, segment_views(ps@));
        }
    }
    match navigate_mut(root, ps.as_slice()) {
        Err(e) => Err(nav_error(e)),
        Ok(parent) => delete_in(parent, last, source, offs, ok),
    }
}

/// Rename the key at `segs` (of a mapping) to `new_key`, keeping its value
/// and position; refused when another key already has that name. The unit
/// writes the pair's lines again (see `rename_child_plan`).
pub fn rename_path(
    root: &mut CustomNode,
    segs: &[Segment],
    new_key: &str,
    source: &str,
    line_offsets: Option<&[usize]>,
) -> (res: Result<DirtyUnit, EditError>)
    requires
        at_parent(
            *old(root),
            segment_views(segs@),
            EditFailure::CannotRenameRoot,
            |p: CustomNode, l: SegmentView| rename_child(p, l, new_key@),
        ) is Ok ==> !plan_emits(
            rename_child_plan(
                navigate_spec(*old(root), segment_views(segs@).drop_last())->Ok_0,
                segment_views(segs@).last(),
                new_key@,
                source.spec_bytes(),
                offsets_of(source, line_offsets),
                segs@.len() - 1,
                block_path(*old(root), segment_views(segs@).drop_last()),
            ).text,
            Emit::Stops,
        ),
    ensures
        edit_unit_result(
            at_parent(
                *old(root),
                segment_views(segs@),
                EditFailure::CannotRenameRoot,
                |p: CustomNode, l: SegmentView| rename_child(p, l, new_key@),
            ),
            rename_child_plan(
                navigate_spec(*old(root), segment_views(segs@).drop_last())->Ok_0,
                segment_views(segs@).last(),
                new_key@,
                source.spec_bytes(),
                offsets_of(source, line_offsets),
                segs@.len() - 1,
                block_path(*old(root), segment_views(segs@).drop_last()),
            ),
            res,
            tree_of(*old(root)),
            tree_of(*final(root)),
        ),
{
    if segs.len() == 0 {
        return Err(EditError::CannotRenameRoot);
    }
    let offs_v = offsets_for(source, line_offsets);
    let offs = offs_v.as_slice();
    let ghost r0 = *root;
    let ps = parent_segments(segs);
    let last = &segs[segs.len() - 1];
    let ok = path_is_block(root, segs, segs.len() - 1);
    proof {
        lemma_views_drop_last(segs@);
        assert(segment_views(segs@).take(segs@.len() - 1) =~= segment_views(segs@).drop_last());
        if navigate_spec(r0, segment_views(ps@)) is Ok {
            lemma_put_found(r0, segment_views(ps@));
        }
    }
    match navigate_mut(root, ps.as_slice()) {
        Err(e) => Err(nav_error(e)),
        Ok(parent) => rename_in(parent, last, new_key, source, offs, segs.len() - 1, ok),
    }
}

/// Set the node at `segs` to `v` (see `set_spec`), carrying the replaced
/// node's comment, anchor and tag when `preserve`, and making missing
/// mappings when `create_missing`. On failure the tree is as it was, but
/// for a null root, which has become an empty mapping. The unit says how
/// `source` changes with it (see `set_plan`); `line_offsets` are those of
/// `source` when given, else computed.
pub fn set_path(
    root: &mut CustomNode,
    segs: &[Segment],
    v: CustomNode,
    preserve: bool,
    source: &str,
    line_offsets: Option<&[usize]>,
    create_missing: bool,
) -> (res: Result<DirtyUnit, EditError>)
    requires
        set_spec(*old(root), segment_views(segs@), v, preserve, create_missing) is Ok ==> !plan_emits(
            set_plan(
                *old(root),
                segment_views(segs@),
                v,
                preserve,
                create_missing,
                source.spec_bytes(),
                offsets_of(source, line_offsets),
            ).text,
            Emit::Stops,
        ),
    ensures
        match set_spec(*old(root), segment_views(segs@), v, preserve, create_missing) {
            Ok(t) => unit_result(
                set_plan(
                    *old(root),
                    segment_views(segs@),
                    v,
                    preserve,
                    create_missing,
                    source.spec_bytes(),
                    offsets_of(source, line_offsets),
                ),
                t,
                set_root_tree(*old(root)),
                res,
                tree_of(*final(root)),
            ),
            Err(f) => res matches Err(e) && failure_of(e) == f && tree_of(*final(root)) == set_root_tree(*old(root)),
        },
{
    let offs_v = offsets_for(source, line_offsets);
    let offs = offs_v.as_slice();
    if segs.len() == 0 {
        let u = document_unit(source, &v);
        *root = v;
        return u;
    }
    let ghost old_root = *root;
    if matches!(root, CustomNode::Null { .. }) {
        *root = CustomNode::plain_mapping(Vec::new());
    }
    let ghost r0 = *root;
    assert(tree_of(r0) == set_root_tree(old_root)) by {
        if old_root is Null {
            assert(pairs_tree(Seq::<(CustomNode, CustomNode)>::empty()) =~= Seq::<(Tree, Tree)>::empty());
        }
    }
    let ps = parent_segments(segs);
    let last = &segs[segs.len() - 1];
    proof {
        let sv = segment_views(segs@);
        lemma_views_drop_last(segs@);
        assert(sv.take(segs@.len() - 1) =~= sv.drop_last());
        if navigate_spec(r0, segment_views(ps@)) is Ok {
            lemma_put_found(r0, segment_views(ps@));
        }
        if old_root is Null {
            if sv.len() > 1 {
                assert(segment_views(ps@)[0] == sv[0]);
                if create_missing && sv[0] is Key {
                    lemma_create_on_empty(r0, sv, v, source.spec_bytes(), offs@);
                }
            } else {
                assert(segment_views(ps@).len() == 0);
                assert(sv[0] == sv.last());
                assert(pairs_tree(Seq::<(CustomNode, CustomNode)>::empty()).push((plain_key_tree(sv[0]->Key_0), tree_of(v)))
                    =~= seq![(plain_key_tree(sv[0]->Key_0), tree_of(v))]) by {
                    assert(pairs_tree(Seq::<(CustomNode, CustomNode)>::empty()) =~= Seq::<(Tree, Tree)>::empty());
                }
            }
        }
    }
    if create_missing {
        let missing = match navigate(root, ps.as_slice()) {
            Err(NavigateError::Missing(_)) => true,
            _ => false,
        };
        if missing {
            return create_in(root, segs, v, source, offs);
        }
    }
    let ok = path_is_block(root, segs, segs.len() - 1);
    match navigate_mut(root, ps.as_slice()) {
        Err(e) => Err(nav_error(e)),
        Ok(parent) => set_in(parent, last, v, preserve, source, offs, segs.len() - 1, ok),
    }
}

/// Add `v` to the sequence at `segs`, before the item at `index` (negative
/// counts from the end; the length appends). The unit inserts its lines
/// into `source` (see `add_item_plan`).
pub fn insert_path(
    root: &mut CustomNode,
    segs: &[Segment],
    index: i64,
    v: CustomNode,
    source: &str,
    line_offsets: Option<&[usize]>,
) -> (res: Result<DirtyUnit, EditError>)
    requires
        add_item_spec(*old(root), segment_views(segs@), Some(index as int), v) is Ok ==> !plan_emits(
            add_item_plan(*old(root), segment_views(segs@), Some(index as int), v, source.spec_bytes(), offsets_of(source, line_offsets)).text,
            Emit::Stops,
        ),
    ensures
        edit_unit_result(
            add_item_spec(*old(root), segment_views(segs@), Some(index as int), v),
            add_item_plan(*old(root), segment_views(segs@), Some(index as int), v, source.spec_bytes(), offsets_of(source, line_offsets)),
            res,
            tree_of(*old(root)),
            tree_of(*final(root)),
        ),
{
    add_item(root, segs, Some(index), v, source, line_offsets)
}

/// Append `v` to the sequence at `segs` (see `insert_path`).
pub fn append_path(root: &mut CustomNode, segs: &[Segment], v: CustomNode, source: &str, line_offsets: Option<&[usize]>) -> (res:
    Result<DirtyUnit, EditError>)
    requires
        add_item_spec(*old(root), segment_views(segs@), None, v) is Ok ==> !plan_emits(
            add_item_plan(*old(root), segment_views(segs@), None, v, source.spec_bytes(), offsets_of(source, line_offsets)).text,
            Emit::Stops,
        ),
    ensures
        edit_unit_result(
            add_item_spec(*old(root), segment_views(segs@), None, v),
            add_item_plan(*old(root), segment_views(segs@), None, v, source.spec_bytes(), offsets_of(source, line_offsets)),
            res,
            tree_of(*old(root)),
            tree_of(*final(root)),
        ),
{
    add_item(root, segs, None, v, source, line_offsets)
}

fn add_item(
    root: &mut CustomNode,
    segs: &[Segment],
    index: Option<i64>,
    v: CustomNode,
    source: &str,
    line_offsets: Option<&[usize]>,
) -> (res: Result<DirtyUnit, EditError>)
    requires
        add_item_spec(*old(root), segment_views(segs@), opt_index(index), v) is Ok ==> !plan_emits(
            add_item_plan(*old(root), segment_views(segs@), opt_index(index), v, source.spec_bytes(), offsets_of(source, line_offsets)).text,
            Emit::Stops,
        ),
    ensures
        edit_unit_result(
            add_item_spec(*old(root), segment_views(segs@), opt_index(index), v),
            add_item_plan(*old(root), segment_views(segs@), opt_index(index), v, source.spec_bytes(), offsets_of(source, line_offsets)),
            res,
            tree_of(*old(root)),
            tree_of(*final(root)),
        ),
{
    let offs_v = offsets_for(source, line_offsets);
    let offs = offs_v.as_slice();
    let ghost r0 = *root;
    proof {
        assert(segment_views(segs@).take(segs@.len() as int) =~= segment_views(segs@));
        if navigate_spec(r0, segment_views(segs@)) is Ok {
            lemma_put_found(r0, segment_views(segs@));
        }
    }
    let ok = path_is_block(root, segs, segs.len());
    let depth: usize = if segs.len() == 0 {
        0
    } else {
        segs.len() - 1
    };
    match navigate_mut(root, segs) {
        Err(e) => Err(nav_error(e)),
        Ok(node) => add_item_in(node, index, v, source, offs, depth, ok),
    }
}

/// What adding `v` to `node` gives (see `add_item_spec`).
pub open spec fn add_item_child(node: CustomNode, index: Option<int>, v: CustomNode) -> Result<Tree, EditFailure> {
    match node {
        CustomNode::Sequence { items, flow_style, meta } => {
            let len = items@.len() as int;
            let pos = match index {
                Some(i) => insert_position(i, len),
                None => Some(len),
            };
            match pos {
                Some(p) => Ok(Tree::Sequence { items: items_tree(items@).insert(p, tree_of(v)), flow: flow_style, meta }),
                None => Err(EditFailure::IndexOutOfRange),
            }
        },
        CustomNode::Alias { .. } => Err(EditFailure::CannotEditAlias),
        _ => Err(EditFailure::NotASequence),
    }
}

fn add_item_in(
    node: &mut CustomNode,
    index: Option<i64>,
    v: CustomNode,
    source: &str,
    offs: &[usize],
    depth: usize,
    ok: bool,
) -> (res: Result<DirtyUnit, EditError>)
    requires
        depth < usize::MAX,
        add_item_child(*old(node), opt_index(index), v) is Ok ==> !plan_emits(
            add_item_child_plan(*old(node), opt_index(index), v, source.spec_bytes(), offs@, depth as int, ok).text,
            Emit::Stops,
        ),
    ensures
        edit_unit_result(
            add_item_child(*old(node), opt_index(index), v),
            add_item_child_plan(*old(node), opt_index(index), v, source.spec_bytes(), offs@, depth as int, ok),
            res,
            tree_of(*old(node)),
            tree_of(*final(node)),
        ),
{
    match node {
        CustomNode::Sequence { items, .. } => {
            let len = items.len();
            let pos: usize = match index {
                None => len,
                Some(i) => {
                    if i < 0 {
                        if (len as u64) > (i64::MAX as u64) {
                            return Err(EditError::IndexOutOfRange);
                        }
                        let p = (len as i64) + i;
                        if p < 0 {
                            return Err(EditError::IndexOutOfRange);
                        }
                        p as usize
                    } else {
                        if (i as u64) > (len as u64) {
                            return Err(EditError::IndexOutOfRange);
                        }
                        i as usize
                    }
                },
            };
            let ghost x0 = items@;
            match item_insert_unit(source, offs, items, pos, &v, depth, ok) {
                Ok(u) => {
                    items.insert(pos, v);
                    assert(items_tree(items@) =~= items_tree(x0).insert(pos as int, tree_of(v)));
                    Ok(u)
                },
                Err(e) => Err(e),
            }
        },
        CustomNode::Alias { .. } => Err(EditError::CannotEditAlias),
        _ => Err(EditError::NotASequence),
    }
}

} // verus!
