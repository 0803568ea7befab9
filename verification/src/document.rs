//! A parsed document that tracks its edits: the tree, the source text it
//! was read from, a splice state that replays edits against that source,
//! a revision counter, and a stack of transaction snapshots.
//!
//! `enter` saves the state; `exit` drops the saved state when the scope
//! ends cleanly, keeping the edits, and restores it when the scope failed.
use crate::ast::CustomNode;
use crate::dirty::DirtyUnit;
use crate::error::SerializeError;
use crate::node_eq::{meta_matches, nodes_equal};
use crate::registry::{Schema, SchemaKind};
use crate::serializer::{document_out, to_yaml_with_options, Emit, SerializeOptions};
use crate::splice::{
    all_borrowed_ok, apply_spec, assembled, byte_len, law_apply_keeps_segments_sliceable,
    law_fresh_state_reassembles_base, offsets_view, unit_on_boundaries, SourceSegment, SpliceState,
};
use crate::text::{string_from, utf8_len};
use crate::tree::{lemma_same_node_tree, tree_of, Tree};
use vstd::prelude::*;

verus! {

/// The mathematical value of a splice state.
pub struct SpliceView {
    pub segments: Seq<SourceSegment>,
    pub base: Seq<char>,
    pub offsets: Option<Seq<usize>>,
}

/// The value of an optional splice state.
pub open spec fn splice_view(o: Option<SpliceState>) -> Option<SpliceView> {
    match o {
        Some(s) => Some(SpliceView { segments: s.segments@, base: s.base@, offsets: offsets_view(s.offsets) }),
        None => None,
    }
}

/// The value of an optional string.
pub open spec fn text_view(o: Option<String>) -> Option<Seq<char>> {
    match o {
        Some(s) => Some(s@),
        None => None,
    }
}

/// The part of a document that a transaction saves and restores.
pub struct DocState {
    pub tree: Tree,
    pub splice: Option<SpliceView>,
    pub source: Option<Seq<char>>,
    pub revision: u64,
    pub source_dirty: bool,
    pub splice_checked: bool,
}

/// A splice state that can be reassembled: every borrowed segment is a
/// well-formed slice of the base.
pub open spec fn splice_ok(o: Option<SpliceView>) -> bool {
    o matches Some(s) ==> all_borrowed_ok(s.segments, s.base)
}

/// The revision after one more edit (wrapping).
pub open spec fn next_revision(r: u64) -> u64 {
    if r == u64::MAX {
        0
    } else {
        (r + 1) as u64
    }
}

/// The state after an edit that left the tree as `tree` and produced `unit`:
/// the unit is folded into the splice state, which is dropped when the unit
/// cannot be spliced; the revision advances and the source is stale.
pub open spec fn edit_spec(st: DocState, tree: Tree, unit: DirtyUnit) -> DocState {
    DocState {
        tree,
        splice: match st.splice {
            Some(s) => if unit.eligible {
                match apply_spec(s.segments, byte_len(s.base) as int, unit.kind) {
                    Some(r) => Some(SpliceView { segments: r, ..s }),
                    None => None,
                }
            } else {
                None
            },
            None => None,
        },
        revision: next_revision(st.revision),
        source_dirty: true,
        ..st
    }
}

/// The state after the splice state is first asked for: once per document,
/// a fresh state over the source when the source is laid out in the default
/// style.
pub open spec fn ensure_splice_spec(st: DocState, default_layout: bool) -> DocState {
    if st.splice_checked || st.splice is Some {
        st
    } else {
        DocState {
            splice_checked: true,
            splice: match st.source {
                Some(src) => if default_layout {
                    Some(
                        SpliceView {
                            segments: SpliceState::fresh_segments(src),
                            base: src,
                            offsets: None,
                        },
                    )
                } else {
                    None
                },
                None => None,
            },
            ..st
        }
    }
}

/// The state and snapshot stack after leaving a transaction scope: the top
/// snapshot is dropped, and restored when the scope failed. Without an open
/// scope nothing changes.
pub open spec fn exit_spec(st: DocState, stack: Seq<DocState>, failed: bool) -> (DocState, Seq<DocState>) {
    if stack.len() == 0 {
        (st, stack)
    } else if failed {
        (stack.last(), stack.drop_last())
    } else {
        (st, stack.drop_last())
    }
}

/// A saved document state.
pub struct DocumentSnapshot {
    ast: CustomNode,
    splice: Option<SpliceState>,
    source: Option<String>,
    revision: u64,
    source_dirty: bool,
    splice_checked: bool,
}

/// The value of a snapshot.
pub closed spec fn snap_state(s: DocumentSnapshot) -> DocState {
    DocState {
        tree: tree_of(s.ast),
        splice: splice_view(s.splice),
        source: text_view(s.source),
        revision: s.revision,
        source_dirty: s.source_dirty,
        splice_checked: s.splice_checked,
    }
}

/// What a subscript names: a mapping key, a sequence index, or something
/// that is neither.
pub enum ItemKey {
    Key(String),
    Index(usize),
    Other,
}

/// Why a subscript has no value.
#[derive(PartialEq, Eq, Structural, Clone, Copy, Debug)]
pub enum ItemError {
    /// The mapping has no such key.
    KeyNotFound,
    /// The key of a mapping subscript is not a string.
    KeyNotString,
    /// The sequence index is past the end.
    IndexOutOfRange,
    /// The index of a sequence subscript is not an integer.
    IndexNotInteger,
    /// The root is neither a mapping nor a sequence.
    NotSubscriptable,
}

/// Whether `n` equals the plain scalar `key` without metadata (the node a
/// top-level lookup builds for its key).
pub open spec fn is_key_for(n: CustomNode, key: Seq<char>) -> bool {
    n matches CustomNode::Scalar { value, style, chomping, meta } && value@ == key && style
        == crate::ast::ScalarStyle::Plain && chomping == crate::ast::Chomping::Clip && meta_matches(
        meta,
        crate::ast::NodeMeta::empty(),
    )
}

/// The position of the first key of `pairs` from `i` on that is `key`.
pub open spec fn key_position(pairs: Seq<(CustomNode, CustomNode)>, key: Seq<char>, i: int) -> Option<int>
    decreases pairs.len() - i,
{
    if i < 0 || i >= pairs.len() {
        None
    } else if is_key_for(pairs[i].0, key) {
        Some(i)
    } else {
        key_position(pairs, key, i + 1)
    }
}

proof fn lemma_key_position_range(pairs: Seq<(CustomNode, CustomNode)>, key: Seq<char>, i: int)
    requires
        0 <= i,
    ensures
        key_position(pairs, key, i) matches Some(j) ==> i <= j < pairs.len() && is_key_for(pairs[j].0, key),
    decreases pairs.len() - i,
{
    if i < pairs.len() && !is_key_for(pairs[i].0, key) {
        lemma_key_position_range(pairs, key, i + 1);
    }
}

/// Position of the first key of `pairs` that is the plain scalar `key`.
fn key_node_index(pairs: &Vec<(CustomNode, CustomNode)>, key: &str) -> (res: Option<usize>)
    ensures
        match res {
            Some(i) => key_position(pairs@, key@, 0) == Some(i as int) && i < pairs@.len(),
            None => key_position(pairs@, key@, 0) is None,
        },
{
    proof {
        lemma_key_position_range(pairs@, key@, 0);
    }
    let probe = CustomNode::plain_scalar(key);
    let mut i: usize = 0;
    while i < pairs.len()
        invariant
            0 <= i <= pairs@.len(),
            key_position(pairs@, key@, 0) == key_position(pairs@, key@, i as int),
            probe matches CustomNode::Scalar { value, style, chomping, meta } && value@ == key@ && style
                == crate::ast::ScalarStyle::Plain && chomping == crate::ast::Chomping::Clip && meta
                == crate::ast::NodeMeta::empty(),
        decreases pairs@.len() - i,
    {
        if nodes_equal(&pairs[i].0, &probe) {
            assert(is_key_for(pairs@[i as int].0, key@));
            return Some(i);
        }
        i = i + 1;
    }
    None
}

/// The value under top-level key `key` of a root node: the value of the
/// first pair whose key is the plain scalar `key`.
pub open spec fn lookup_spec(root: CustomNode, key: Seq<char>) -> Option<CustomNode> {
    match root {
        CustomNode::Mapping { pairs, .. } => match key_position(pairs@, key, 0) {
            Some(i) => Some(pairs@[i].1),
            None => None,
        },
        _ => None,
    }
}

/// A parsed document with edit tracking and transactions.
pub struct YamlDocument<R> {
    ast: CustomNode,
    schema: Schema<R>,
    source: Option<String>,
    version: String,
    revision: u64,
    source_dirty: bool,
    splice: Option<SpliceState>,
    splice_checked: bool,
    snapshot: Vec<DocumentSnapshot>,
}

impl<R> YamlDocument<R> {
    /// The current state.
    pub closed spec fn state(&self) -> DocState {
        DocState {
            tree: tree_of(self.ast),
            splice: splice_view(self.splice),
            source: text_view(self.source),
            revision: self.revision,
            source_dirty: self.source_dirty,
            splice_checked: self.splice_checked,
        }
    }

    /// The saved states, innermost scope last.
    pub closed spec fn snapshots(&self) -> Seq<DocState> {
        Seq::new(self.snapshot@.len(), |i: int| snap_state(self.snapshot@[i]))
    }

    /// The root node.
    pub closed spec fn root(&self) -> CustomNode {
        self.ast
    }

    /// The kind of the document's schema.
    pub closed spec fn schema_kind(&self) -> SchemaKind {
        self.schema.kind()
    }

    /// The YAML version text.
    pub closed spec fn version_text(&self) -> Seq<char> {
        self.version@
    }

    /// Every splice state, current or saved, can be reassembled.
    pub open spec fn wf(&self) -> bool {
        &&& splice_ok(self.state().splice)
        &&& forall|i: int| 0 <= i < self.snapshots().len() ==> splice_ok(#[trigger] self.snapshots()[i].splice)
        &&& tree_of(self.root()) == self.state().tree
    }

    /// A freshly parsed document: revision 0, source current, splice
    /// eligibility not yet computed, no open transaction.
    pub fn new(ast: CustomNode, schema: Schema<R>, source: String) -> (res: Self)
        ensures
            res.wf(),
            res.root() == ast,
            res.schema_kind() == schema.kind(),
            res.version_text() == "1.2"@,
            res.state() == (DocState {
                tree: tree_of(ast),
                splice: None,
                source: Some(source@),
                revision: 0,
                source_dirty: false,
                splice_checked: false,
            }),
            res.snapshots() == Seq::<DocState>::empty(),
    {
        let res = YamlDocument {
            ast,
            schema,
            source: Some(source),
            version: string_from("1.2"),
            revision: 0,
            source_dirty: false,
            splice: None,
            splice_checked: false,
            snapshot: Vec::new(),
        };
        assert(res.snapshots() =~= Seq::<DocState>::empty());
        res
    }

    /// A document under the Core schema.
    pub fn from_ast(ast: CustomNode, source: String) -> (res: Self)
        ensures
            res.wf(),
            res.root() == ast,
            res.schema_kind() == SchemaKind::Core,
            res.version_text() == "1.2"@,
            res.state() == (DocState {
                tree: tree_of(ast),
                splice: None,
                source: Some(source@),
                revision: 0,
                source_dirty: false,
                splice_checked: false,
            }),
            res.snapshots() == Seq::<DocState>::empty(),
    {
        Self::new(ast, Schema::Core, source)
    }

    /// The root node.
    pub fn ast(&self) -> (res: &CustomNode)
        ensures
            *res == self.root(),
    {
        &self.ast
    }

    /// The document's schema.
    pub fn schema(&self) -> (res: &Schema<R>)
        ensures
            res.kind() == self.schema_kind(),
    {
        &self.schema
    }

    /// The revision: the number of edits so far, wrapping.
    pub fn revision(&self) -> (res: u64)
        ensures
            res == self.state().revision,
    {
        self.revision
    }

    /// The YAML version text.
    pub fn version(&self) -> (res: &str)
        ensures
            res@ == self.version_text(),
    {
        self.version.as_str()
    }

    /// Whether the source text is behind the tree.
    pub fn is_source_dirty(&self) -> (res: bool)
        ensures
            res == self.state().source_dirty,
    {
        self.source_dirty
    }

    /// Whether edits are being replayed against the source.
    pub fn has_splice(&self) -> (res: bool)
        ensures
            res == self.state().splice is Some,
    {
        self.splice.is_some()
    }

    /// The kind of the root node: `scalar`, `mapping`, `sequence`, `null` or
    /// `alias`.
    pub fn root_type(&self) -> (res: &'static str)
        ensures
            res@ == match self.root() {
                CustomNode::Scalar { .. } => "scalar"@,
                CustomNode::Mapping { .. } => "mapping"@,
                CustomNode::Sequence { .. } => "sequence"@,
                CustomNode::Null { .. } => "null"@,
                CustomNode::Alias { .. } => "alias"@,
            },
    {
        match &self.ast {
            CustomNode::Scalar { .. } => "scalar",
            CustomNode::Mapping { .. } => "mapping",
            CustomNode::Sequence { .. } => "sequence",
            CustomNode::Null { .. } => "null",
            CustomNode::Alias { .. } => "alias",
        }
    }

    /// The number of entries of a mapping root or items of a sequence root;
    /// 0 for any other root.
    pub fn len(&self) -> (res: usize)
        ensures
            res == match self.root() {
                CustomNode::Mapping { pairs, .. } => pairs@.len(),
                CustomNode::Sequence { items, .. } => items@.len(),
                _ => 0,
            },
    {
        match &self.ast {
            CustomNode::Mapping { pairs, .. } => pairs.len(),
            CustomNode::Sequence { items, .. } => items.len(),
            _ => 0,
        }
    }

    /// The value under top-level key `key`, if the root is a mapping with a
    /// key equal to the plain scalar `key`.
    pub fn get(&self, key: &str) -> (res: Option<&CustomNode>)
        ensures
            match res {
                Some(v) => lookup_spec(self.root(), key@) == Some(*v),
                None => lookup_spec(self.root(), key@) is None,
            },
    {
        match &self.ast {
            CustomNode::Mapping { pairs, .. } => match key_node_index(pairs, key) {
                Some(i) => Some(&pairs[i].1),
                None => None,
            },
            _ => None,
        }
    }

    /// Whether the root is a mapping holding top-level key `key`.
    pub fn contains_key(&self, key: &str) -> (res: bool)
        ensures
            res == lookup_spec(self.root(), key@) is Some,
    {
        self.get(key).is_some()
    }

    /// The child named by a subscript: a key of a mapping root or an index
    /// of a sequence root.
    pub fn item(&self, key: &ItemKey) -> (res: Result<&CustomNode, ItemError>)
        ensures
            match self.root() {
                CustomNode::Mapping { .. } => match key {
                    ItemKey::Key(k) => match lookup_spec(self.root(), k@) {
                        Some(v) => res == Ok::<&CustomNode, ItemError>(&v),
                        None => res == Err::<&CustomNode, ItemError>(ItemError::KeyNotFound),
                    },
                    _ => res == Err::<&CustomNode, ItemError>(ItemError::KeyNotString),
                },
                CustomNode::Sequence { items, .. } => match key {
                    ItemKey::Index(i) => if i < items@.len() {
                        res == Ok::<&CustomNode, ItemError>(&items@[i as int])
                    } else {
                        res == Err::<&CustomNode, ItemError>(ItemError::IndexOutOfRange)
                    },
                    _ => res == Err::<&CustomNode, ItemError>(ItemError::IndexNotInteger),
                },
                _ => res == Err::<&CustomNode, ItemError>(ItemError::NotSubscriptable),
            },
    {
        match &self.ast {
            CustomNode::Mapping { .. } => match key {
                ItemKey::Key(k) => match self.get(k.as_str()) {
                    Some(v) => Ok(v),
                    None => Err(ItemError::KeyNotFound),
                },
                _ => Err(ItemError::KeyNotString),
            },
            CustomNode::Sequence { items, .. } => match key {
                ItemKey::Index(i) => {
                    if *i < items.len() {
                        Ok(&items[*i])
                    } else {
                        Err(ItemError::IndexOutOfRange)
                    }
                },
                _ => Err(ItemError::IndexNotInteger),
            },
            _ => Err(ItemError::NotSubscriptable),
        }
    }

    /// Save the current state: the start of a transaction scope.
    pub fn enter(&mut self)
        requires
            old(self).wf(),
        ensures
            final(self).wf(),
            final(self).state() == old(self).state(),
            final(self).root() == old(self).root(),
            final(self).snapshots() == old(self).snapshots().push(old(self).state()),
    {
        let ast = self.ast.clone();
        proof {
            lemma_same_node_tree(ast, self.ast);
        }
        let splice = match &self.splice {
            Some(s) => Some(s.clone()),
            None => None,
        };
        let source = match &self.source {
            Some(s) => Some(s.clone()),
            None => None,
        };
        let snap = DocumentSnapshot {
            ast,
            splice,
            source,
            revision: self.revision,
            source_dirty: self.source_dirty,
            splice_checked: self.splice_checked,
        };
        assert(snap_state(snap) == self.state());
        let ghost before = self.snapshots();
        self.snapshot.push(snap);
        assert(self.snapshots() =~= before.push(snap_state(snap)));
    }

    /// Leave a transaction scope. When `failed`, the state saved at the
    /// matching `enter` comes back; otherwise the edits made in the scope
    /// stay. Returns `false`: a failure is never swallowed.
    pub fn exit(&mut self, failed: bool) -> (res: bool)
        requires
            old(self).wf(),
        ensures
            !res,
            final(self).wf(),
            (final(self).state(), final(self).snapshots()) == exit_spec(
                old(self).state(),
                old(self).snapshots(),
                failed,
            ),
            !(failed && old(self).snapshots().len() > 0) ==> final(self).root() == old(self).root(),
    {
        let ghost stack = self.snapshots();
        if self.snapshot.len() == 0 {
            return false;
        }
        let snap = self.snapshot.pop().unwrap();
        proof {
            assert(self.snapshots() =~= stack.drop_last());
            assert(snap_state(snap) == stack.last());
        }
        if failed {
            self.ast = snap.ast;
            self.splice = snap.splice;
            self.source = snap.source;
            self.revision = snap.revision;
            self.source_dirty = snap.source_dirty;
            self.splice_checked = snap.splice_checked;
        }
        false
    }

    /// On the first edit, compute whether edits can be replayed against
    /// the source: `default_layout` says whether the source is laid out in
    /// the serializer's default style.
    pub fn ensure_splice(&mut self, default_layout: bool)
        requires
            old(self).wf(),
            old(self).state().source matches Some(s) ==> utf8_len(s) <= usize::MAX,
        ensures
            final(self).wf(),
            final(self).root() == old(self).root(),
            final(self).state() == ensure_splice_spec(old(self).state(), default_layout),
            final(self).snapshots() == old(self).snapshots(),
    {
        if self.splice_checked || self.splice.is_some() {
            return;
        }
        self.splice_checked = true;
        if default_layout {
            match &self.source {
                Some(src) => {
                    proof {
                        law_fresh_state_reassembles_base(src@);
                    }
                    self.splice = Some(SpliceState::new(src.clone()));
                },
                None => {},
            }
        }
    }

    /// Record an edit: the tree becomes `ast`, and the text unit the edit
    /// produced is folded into the splice state, which is dropped when the
    /// unit cannot be spliced. The revision advances and the source is
    /// marked stale.
    pub fn apply_edit(&mut self, ast: CustomNode, unit: &DirtyUnit)
        requires
            old(self).wf(),
            old(self).state().splice matches Some(s) ==> unit_on_boundaries(unit.kind, s.base),
        ensures
            final(self).wf(),
            final(self).root() == ast,
            final(self).state() == edit_spec(old(self).state(), tree_of(ast), *unit),
            final(self).snapshots() == old(self).snapshots(),
    {
        self.ast = ast;
        let mut drop_splice = false;
        match &mut self.splice {
            Some(state) => {
                proof {
                    law_apply_keeps_segments_sliceable(state.segments@, state.base@, unit.kind);
                }
                if state.apply(unit).is_err() {
                    drop_splice = true;
                }
            },
            None => {},
        }
        if drop_splice {
            self.splice = None;
        }
        self.revision = if self.revision == u64::MAX {
            0
        } else {
            self.revision + 1
        };
        self.source_dirty = true;
    }

    /// Bring the source text up to date with the tree, if it is stale: the
    /// spliced text when the splice state still holds segments, else the
    /// whole tree serialized with the default options. Either way the
    /// splice state is spent. On a serialization error nothing changes.
    pub fn flush_source(&mut self) -> (res: Result<(), SerializeError>)
        requires
            old(self).wf(),
            old(self).state().source_dirty ==> !(flushed_text(old(self).state(), old(self).root()) is Stops),
        ensures
            final(self).wf(),
            final(self).root() == old(self).root(),
            final(self).snapshots() == old(self).snapshots(),
            !old(self).state().source_dirty ==> res is Ok && final(self).state() == old(self).state(),
            old(self).state().source_dirty ==> match flushed_text(old(self).state(), old(self).root()) {
                Emit::Text(t) => res is Ok && final(self).state() == (DocState {
                    source: Some(t),
                    splice: None,
                    source_dirty: false,
                    ..old(self).state()
                }),
                _ => res == Err::<(), SerializeError>(SerializeError::MaxDepthExceeded(1000))
                    && final(self).state() == old(self).state(),
            },
    {
        if !self.source_dirty {
            return Ok(());
        }
        let spliced = match &self.splice {
            Some(s) => s.materialize(),
            None => None,
        };
        let text = match spliced {
            Some(t) => t,
            None => {
                let opts = SerializeOptions::default();
                match to_yaml_with_options(&self.ast, &opts) {
                    Ok(t) => t,
                    Err(e) => {
                        return Err(e);
                    },
                }
            },
        };
        self.source = Some(text);
        self.splice = None;
        self.source_dirty = false;
        Ok(())
    }

    /// The current source text (empty when there is none), brought up to
    /// date first.
    pub fn source_text(&mut self) -> (res: Result<String, SerializeError>)
        requires
            old(self).wf(),
            old(self).state().source_dirty ==> !(flushed_text(old(self).state(), old(self).root()) is Stops),
        ensures
            final(self).wf(),
            final(self).root() == old(self).root(),
            final(self).snapshots() == old(self).snapshots(),
            !old(self).state().source_dirty ==> res is Ok && res->Ok_0@ == match old(self).state().source {
                Some(s) => s,
                None => Seq::<char>::empty(),
            },
            old(self).state().source_dirty ==> match flushed_text(old(self).state(), old(self).root()) {
                Emit::Text(t) => res is Ok && res->Ok_0@ == t,
                _ => res == Err::<String, SerializeError>(SerializeError::MaxDepthExceeded(1000)),
            },
    {
        match self.flush_source() {
            Ok(()) => {},
            Err(e) => {
                return Err(e);
            },
        }
        match &self.source {
            Some(s) => Ok(s.clone()),
            None => Ok(String::new()),
        }
    }

    /// Bring the source up to date, then serialize the tree with `options`.
    pub fn to_yaml_with_options(&mut self, options: &SerializeOptions) -> (res: Result<String, SerializeError>)
        requires
            old(self).wf(),
            old(self).state().source_dirty ==> !(flushed_text(old(self).state(), old(self).root()) is Stops),
            !(document_out(old(self).root(), *options) is Stops),
        ensures
            final(self).wf(),
            final(self).root() == old(self).root(),
            final(self).snapshots() == old(self).snapshots(),
            old(self).state().source_dirty && !(flushed_text(old(self).state(), old(self).root()) is Text)
                ==> res == Err::<String, SerializeError>(SerializeError::MaxDepthExceeded(1000)),
            !(old(self).state().source_dirty && !(flushed_text(old(self).state(), old(self).root()) is Text))
                ==> crate::serializer::result_of(document_out(old(self).root(), *options), options.max_depth, res),
    {
        match self.flush_source() {
            Ok(()) => {},
            Err(e) => {
                return Err(e);
            },
        }
        to_yaml_with_options(&self.ast, options)
    }
    /// The source to parse again, brought up to date first; `Ok(None)` when
    /// the document has no source.
    pub fn source_for_reparse(&mut self) -> (res: Result<Option<String>, SerializeError>)
        requires
            old(self).wf(),
            old(self).state().source_dirty ==> !(flushed_text(old(self).state(), old(self).root()) is Stops),
        ensures
            final(self).wf(),
            final(self).root() == old(self).root(),
            final(self).snapshots() == old(self).snapshots(),
            !old(self).state().source_dirty ==> res is Ok && text_view(res->Ok_0) == old(self).state().source,
            old(self).state().source_dirty ==> match flushed_text(old(self).state(), old(self).root()) {
                Emit::Text(t) => res is Ok && text_view(res->Ok_0) == Some(t),
                _ => res == Err::<Option<String>, SerializeError>(SerializeError::MaxDepthExceeded(1000)),
            },
    {
        match self.flush_source() {
            Ok(()) => {},
            Err(e) => {
                return Err(e);
            },
        }
        match &self.source {
            Some(s) => Ok(Some(s.clone())),
            None => Ok(None),
        }
    }

    /// Install the tree parsed again from the source, under `schema`: the
    /// splice state is dropped and computed afresh on the next edit.
    pub fn install_reparsed(&mut self, ast: CustomNode, schema: Schema<R>)
        requires
            old(self).wf(),
        ensures
            final(self).wf(),
            final(self).root() == ast,
            final(self).schema_kind() == schema.kind(),
            final(self).state() == (DocState {
                tree: tree_of(ast),
                splice: None,
                splice_checked: false,
                ..old(self).state()
            }),
            final(self).snapshots() == old(self).snapshots(),
    {
        self.ast = ast;
        self.schema = schema;
        self.splice = None;
        self.splice_checked = false;
    }
}

/// The text a stale source is replaced with: the spliced text when the
/// splice state holds segments, else the tree serialized with the default
/// options.
pub open spec fn flushed_text(st: DocState, root: CustomNode) -> Emit {
    match st.splice {
        Some(s) => if s.segments.len() > 0 {
            Emit::Text(assembled(s.segments, s.base))
        } else {
            document_out(root, SerializeOptions::spec_default())
        },
        None => document_out(root, SerializeOptions::spec_default()),
    }
}

/// Leaving a scope that failed brings back the state saved when it was
/// entered, and the saved states of the enclosing scopes, whatever the
/// scope did in between (as long as it left the enclosing saved states
/// alone).
pub proof fn law_failed_scope_restores(entered: DocState, outer: Seq<DocState>, current: DocState)
    ensures
        exit_spec(current, outer.push(entered), true) == (entered, outer),
{
    assert(outer.push(entered).drop_last() =~= outer);
}

/// Leaving a scope cleanly keeps its edits and drops only its own saved
/// state.
pub proof fn law_clean_scope_keeps_edits(entered: DocState, outer: Seq<DocState>, current: DocState)
    ensures
        exit_spec(current, outer.push(entered), false) == (current, outer),
{
    assert(outer.push(entered).drop_last() =~= outer);
}

/// The splice state is computed once: asking again changes nothing.
pub proof fn law_ensure_splice_once(st: DocState, a: bool, b: bool)
    ensures
        ensure_splice_spec(ensure_splice_spec(st, a), b) == ensure_splice_spec(st, a),
{
}

/// An edit always leaves the source stale and advances the revision;
/// flushing then gives a current source.
pub proof fn law_edit_marks_stale(st: DocState, tree: Tree, unit: DirtyUnit)
    ensures
        edit_spec(st, tree, unit).source_dirty,
        edit_spec(st, tree, unit).revision == next_revision(st.revision),
        edit_spec(st, tree, unit).tree == tree,
        edit_spec(st, tree, unit).source == st.source,
{
}

} // verus!
