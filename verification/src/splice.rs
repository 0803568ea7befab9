//! Segment-based splice assembly: edits are folded into a list of segments
//! over an immutable original source, and the document is reassembled on
//! demand by splicing regenerated text between untouched byte ranges.
//!
//! Segments are expressed in ORIGINAL byte coordinates. A zero-width `Owned`
//! segment is an insertion point; `Borrowed` segments are untouched slices of
//! the base text.
use crate::comment::{compute_line_offsets, line_offsets_with_end};
use crate::dirty::{DirtyKind, DirtyUnit};
use std::ops::Range;
use vstd::prelude::*;
use vstd::string::*;
use vstd::utf8::*;

verus! {

/// One contiguous piece of the reassembled document.
#[derive(Debug, PartialEq)]
pub enum SourceSegment {
    /// Slice of the untouched original: `base[start..end]` (original coordinates).
    Borrowed { start: usize, end: usize },
    /// Regenerated text replacing ORIGINAL bytes `start..end`; a zero-width
    /// segment (`start == end`) is an insertion point.
    Owned { start: usize, end: usize, text: String },
}

impl Clone for SourceSegment {
    fn clone(&self) -> (res: Self)
        ensures
            res == *self,
    {
        match self {
            SourceSegment::Borrowed { start, end } => SourceSegment::Borrowed {
                start: *start,
                end: *end,
            },
            SourceSegment::Owned { start, end, text } => SourceSegment::Owned {
                start: *start,
                end: *end,
                text: text.clone(),
            },
        }
    }
}

impl SourceSegment {
    /// First original byte covered by the segment.
    pub open spec fn seg_start(self) -> usize {
        match self {
            SourceSegment::Borrowed { start, .. } => start,
            SourceSegment::Owned { start, .. } => start,
        }
    }

    /// One past the last original byte covered by the segment.
    pub open spec fn seg_end(self) -> usize {
        match self {
            SourceSegment::Borrowed { end, .. } => end,
            SourceSegment::Owned { end, .. } => end,
        }
    }
}

/// Marker error for a rejected splice unit. The state is left unchanged.
#[derive(Debug)]
pub struct SpliceReject;

/// Accumulates edits against an immutable base until `materialize`
/// reassembles the full text.
#[derive(Debug)]
pub struct SpliceState {
    pub segments: Vec<SourceSegment>,
    pub base: String,
    pub offsets: Option<Vec<usize>>,
}

/// The offsets of a state, as a sequence.
pub open spec fn offsets_view(o: Option<Vec<usize>>) -> Option<Seq<usize>> {
    match o {
        Some(v) => Some(v@),
        None => None,
    }
}

impl Clone for SpliceState {
    fn clone(&self) -> (res: Self)
        ensures
            res.segments@ == self.segments@,
            res.base == self.base,
            offsets_view(res.offsets) == offsets_view(self.offsets),
    {
        let mut segments: Vec<SourceSegment> = Vec::new();
        let mut i: usize = 0;
        while i < self.segments.len()
            invariant
                0 <= i <= self.segments@.len(),
                segments@ == self.segments@.take(i as int),
            decreases self.segments@.len() - i,
        {
            segments.push(self.segments[i].clone());
            assert(self.segments@.take(i + 1) =~= self.segments@.take(i as int).push(self.segments@[i as int]));
            i = i + 1;
        }
        assert(self.segments@.take(self.segments@.len() as int) =~= self.segments@);
        let offsets = match &self.offsets {
            Some(o) => {
                let mut c: Vec<usize> = Vec::new();
                let mut j: usize = 0;
                while j < o.len()
                    invariant
                        0 <= j <= o@.len(),
                        c@ == o@.take(j as int),
                    decreases o@.len() - j,
                {
                    c.push(o[j]);
                    assert(o@.take(j + 1) =~= o@.take(j as int).push(o@[j as int]));
                    j = j + 1;
                }
                assert(o@.take(o@.len() as int) =~= o@);
                Some(c)
            },
            None => None,
        };
        SpliceState { segments, base: self.base.clone(), offsets }
    }
}

/// The UTF-8 byte length of a text.
pub open spec fn byte_len(s: Seq<char>) -> usize {
    encode_utf8(s).len() as usize
}

/// A regenerated segment covering `start..end`.
pub open spec fn owned_seg(start: usize, end: usize, text: String) -> SourceSegment {
    SourceSegment::Owned { start, end, text }
}

/// Prefix a (possibly failed) segment list with `p`.
pub open spec fn prepend_segs(
    p: Seq<SourceSegment>,
    r: Option<Seq<SourceSegment>>,
) -> Option<Seq<SourceSegment>> {
    match r {
        Some(s) => Some(p + s),
        None => None,
    }
}

/// The segment list after inserting `text` as an insertion point at original
/// offset `at`; `None` when `at` falls strictly inside a regenerated segment.
/// The point goes before the first segment starting at or after `at` (a
/// borrowed segment strictly containing `at` is split around it); when no such
/// segment exists it is appended.
pub open spec fn insert_point(segs: Seq<SourceSegment>, at: usize, text: String) -> Option<
    Seq<SourceSegment>,
>
    decreases segs.len(),
{
    let pt = owned_seg(at, at, text);
    if segs.len() == 0 {
        Some(seq![pt])
    } else {
        match segs[0] {
            SourceSegment::Borrowed { start, end } => {
                if at <= start {
                    Some(seq![pt] + segs)
                } else if at < end {
                    Some(
                        seq![
                            SourceSegment::Borrowed { start, end: at },
                            pt,
                            SourceSegment::Borrowed { start: at, end },
                        ] + segs.drop_first(),
                    )
                } else {
                    prepend_segs(seq![segs[0]], insert_point(segs.drop_first(), at, text))
                }
            },
            SourceSegment::Owned { start, end, .. } => {
                if at > start && at < end {
                    None
                } else if at == start {
                    Some(seq![pt] + segs)
                } else {
                    prepend_segs(seq![segs[0]], insert_point(segs.drop_first(), at, text))
                }
            },
        }
    }
}

/// The replacement segment, if any, still to be placed.
pub open spec fn pending_text(
    start: usize,
    end: usize,
    text: Option<String>,
    placed: bool,
) -> Seq<SourceSegment> {
    if !placed {
        match text {
            Some(t) => seq![owned_seg(start, end, t)],
            None => seq![],
        }
    } else {
        seq![]
    }
}

/// The segment list after replacing original bytes `start..end` with `text`
/// (deleting them when `text` is `None`). `placed` records whether the
/// replacement has already been emitted. Segments wholly inside the range are
/// dropped, borrowed segments partly inside are trimmed (an empty range inside
/// a borrowed segment splits it), and the replacement
/// is emitted at the first segment the range reaches (or at the end). `None`
/// when the range cuts through the interior of a regenerated segment.
pub open spec fn replace_segs(
    segs: Seq<SourceSegment>,
    start: usize,
    end: usize,
    text: Option<String>,
    placed: bool,
) -> Option<Seq<SourceSegment>>
    decreases segs.len(),
{
    if segs.len() == 0 {
        Some(pending_text(start, end, text, placed))
    } else {
        let seg = segs[0];
        let rest = segs.drop_first();
        let pend = pending_text(start, end, text, placed);
        match seg {
            SourceSegment::Borrowed { start: s, end: e } => {
                if e <= start {
                    prepend_segs(seq![seg], replace_segs(rest, start, end, text, placed))
                } else if s >= end {
                    prepend_segs(pend + seq![seg], replace_segs(rest, start, end, text, true))
                } else if s >= start && e <= end {
                    prepend_segs(pend, replace_segs(rest, start, end, text, true))
                } else {
                    let s2 = if start >= s {
                        start
                    } else {
                        s
                    };
                    let e2 = if end <= e {
                        end
                    } else {
                        e
                    };
                    if s2 > e2 {
                        prepend_segs(seq![seg], replace_segs(rest, start, end, text, placed))
                    } else {
                        let left = if s < start {
                            seq![SourceSegment::Borrowed { start: s, end: start }]
                        } else {
                            seq![]
                        };
                        let right = if end < e {
                            seq![SourceSegment::Borrowed { start: end, end: e }]
                        } else {
                            seq![]
                        };
                        prepend_segs(left + pend + right, replace_segs(rest, start, end, text, true))
                    }
                }
            },
            SourceSegment::Owned { start: s, end: e, .. } => {
                if s >= start && e <= end {
                    prepend_segs(pend, replace_segs(rest, start, end, text, true))
                } else if s < start && start < e {
                    None
                } else if s < end && end < e {
                    None
                } else {
                    prepend_segs(seq![seg], replace_segs(rest, start, end, text, placed))
                }
            },
        }
    }
}

/// The segment list an eligible unit produces from `segs`, or `None` when the
/// unit is rejected.
pub open spec fn apply_spec(segs: Seq<SourceSegment>, base_len: int, kind: DirtyKind) -> Option<
    Seq<SourceSegment>,
> {
    match kind {
        DirtyKind::Insert { at, text } => {
            if at > base_len {
                None
            } else {
                insert_point(segs, at, text)
            }
        },
        DirtyKind::Delete { range } => replace_segs(segs, range.start, range.end, None, false),
        DirtyKind::Region { range, text, .. } => replace_segs(
            segs,
            range.start,
            range.end,
            Some(text),
            false,
        ),
    }
}

/// The characters a segment contributes to the reassembled document.
pub open spec fn segment_text(seg: SourceSegment, base: Seq<char>) -> Seq<char> {
    match seg {
        SourceSegment::Borrowed { start, end } => decode_utf8(
            encode_utf8(base).subrange(start as int, end as int),
        ),
        SourceSegment::Owned { text, .. } => text@,
    }
}

/// The concatenation of all segments' texts.
pub open spec fn assembled(segs: Seq<SourceSegment>, base: Seq<char>) -> Seq<char>
    decreases segs.len(),
{
    if segs.len() == 0 {
        seq![]
    } else {
        assembled(segs.drop_last(), base) + segment_text(segs.last(), base)
    }
}

/// A borrowed segment is a well-formed slice of the base: in bounds and on
/// character boundaries.
pub open spec fn borrowed_ok(seg: SourceSegment, base: Seq<char>) -> bool {
    match seg {
        SourceSegment::Borrowed { start, end } => {
            &&& start <= end <= byte_len(base)
            &&& is_char_boundary(encode_utf8(base), start as int)
            &&& is_char_boundary(encode_utf8(base), end as int)
        },
        SourceSegment::Owned { .. } => true,
    }
}

/// Every borrowed segment can be sliced out of the base.
pub open spec fn all_borrowed_ok(segs: Seq<SourceSegment>, base: Seq<char>) -> bool {
    forall|i: int| 0 <= i < segs.len() ==> #[trigger] borrowed_ok(segs[i], base)
}

/// Segments are ordered and non-overlapping in original coordinates.
pub open spec fn ordered(segs: Seq<SourceSegment>) -> bool {
    &&& forall|i: int| 0 <= i < segs.len() ==> (#[trigger] segs[i]).seg_start() <= segs[i].seg_end()
    &&& forall|i: int, j: int|
        0 <= i < j < segs.len() ==> (#[trigger] segs[i]).seg_end() <= (#[trigger] segs[j]).seg_start()
}

proof fn lemma_prefix_char_boundary(b: Seq<u8>, s: int, e: int)
    requires
        valid_utf8(b),
        0 <= s <= e <= b.len(),
        is_char_boundary(b, s),
        is_char_boundary(b, e),
    ensures
        is_char_boundary(b.subrange(0, e), s),
{
    valid_utf8_split(b, e);
    let p = b.subrange(0, e);
    if s == e {
        is_char_boundary_start_end_of_seq(p);
    } else if s == 0 {
    } else {
        is_char_boundary_iff_not_is_continuation_byte(b, s);
        is_char_boundary_iff_not_is_continuation_byte(p, s);
    }
}

/// The endpoints a unit introduces fall on character boundaries of the base
/// whenever they lie within it.
pub open spec fn unit_on_boundaries(kind: DirtyKind, base: Seq<char>) -> bool {
    let b = encode_utf8(base);
    match kind {
        DirtyKind::Insert { at, .. } => at <= b.len() ==> is_char_boundary(b, at as int),
        DirtyKind::Delete { range } | DirtyKind::Region { range, .. } => {
            &&& range.start <= b.len() ==> is_char_boundary(b, range.start as int)
            &&& range.end <= b.len() ==> is_char_boundary(b, range.end as int)
        },
    }
}

/// The text of `base` between two byte offsets.
pub open spec fn base_slice(base: Seq<char>, start: int, end: int) -> Seq<char> {
    decode_utf8(encode_utf8(base).subrange(start, end))
}

proof fn lemma_insert_point_ok(segs: Seq<SourceSegment>, at: usize, text: String, base: Seq<char>)
    requires
        all_borrowed_ok(segs, base),
        at <= byte_len(base) ==> is_char_boundary(encode_utf8(base), at as int),
    ensures
        insert_point(segs, at, text) matches Some(r) ==> all_borrowed_ok(r, base),
    decreases segs.len(),
{
    if segs.len() > 0 {
        assert(borrowed_ok(segs[0], base));
        let rest = segs.drop_first();
        assert(all_borrowed_ok(rest, base)) by {
            assert forall|i: int| 0 <= i < rest.len() implies #[trigger] borrowed_ok(rest[i], base) by {
                assert(rest[i] == segs[i + 1]);
                assert(borrowed_ok(segs[i + 1], base));
            }
        }
        lemma_insert_point_ok(rest, at, text, base);
        match insert_point(segs, at, text) {
            Some(r) => {
                assert forall|i: int| 0 <= i < r.len() implies #[trigger] borrowed_ok(r[i], base) by {
                    match segs[0] {
                        SourceSegment::Borrowed { start, end } => {
                            if at <= start {
                                if i > 0 {
                                    assert(r[i] == segs[i - 1]);
                                }
                            } else if at < end {
                                if i > 2 {
                                    assert(r[i] == rest[i - 3]);
                                }
                            } else {
                                if i > 0 {
                                    assert(r[i] == insert_point(rest, at, text)->0[i - 1]);
                                }
                            }
                        },
                        SourceSegment::Owned { start, .. } => {
                            if at == start {
                                if i > 0 {
                                    assert(r[i] == segs[i - 1]);
                                }
                            } else if i > 0 {
                                assert(r[i] == insert_point(rest, at, text)->0[i - 1]);
                            }
                        },
                    }
                }
            },
            None => {},
        }
    }
}

proof fn lemma_replace_segs_ok(
    segs: Seq<SourceSegment>,
    start: usize,
    end: usize,
    text: Option<String>,
    placed: bool,
    base: Seq<char>,
)
    requires
        all_borrowed_ok(segs, base),
        start <= byte_len(base) ==> is_char_boundary(encode_utf8(base), start as int),
        end <= byte_len(base) ==> is_char_boundary(encode_utf8(base), end as int),
    ensures
        replace_segs(segs, start, end, text, placed) matches Some(r) ==> all_borrowed_ok(r, base),
    decreases segs.len(),
{
    if segs.len() > 0 {
        assert(borrowed_ok(segs[0], base));
        let rest = segs.drop_first();
        assert(all_borrowed_ok(rest, base)) by {
            assert forall|i: int| 0 <= i < rest.len() implies #[trigger] borrowed_ok(rest[i], base) by {
                assert(rest[i] == segs[i + 1]);
                assert(borrowed_ok(segs[i + 1], base));
            }
        }
        lemma_replace_segs_ok(rest, start, end, text, placed, base);
        lemma_replace_segs_ok(rest, start, end, text, true, base);
        match replace_segs(segs, start, end, text, placed) {
            Some(r) => {
                let pend = pending_text(start, end, text, placed);
                let seg = segs[0];
                let p: Seq<SourceSegment> = match seg {
                    SourceSegment::Borrowed { start: s, end: e } => {
                        if e <= start {
                            seq![seg]
                        } else if s >= end {
                            pend + seq![seg]
                        } else if s >= start && e <= end {
                            pend
                        } else {
                            let s2 = if start >= s { start } else { s };
                            let e2 = if end <= e { end } else { e };
                            if s2 > e2 {
                                seq![seg]
                            } else {
                                let left = if s < start {
                                    seq![SourceSegment::Borrowed { start: s, end: start }]
                                } else {
                                    seq![]
                                };
                                let right = if end < e {
                                    seq![SourceSegment::Borrowed { start: end, end: e }]
                                } else {
                                    seq![]
                                };
                                left + pend + right
                            }
                        }
                    },
                    SourceSegment::Owned { start: s, end: e, .. } => {
                        if s >= start && e <= end {
                            pend
                        } else {
                            seq![seg]
                        }
                    },
                };
                let tail = r.subrange(p.len() as int, r.len() as int);
                assert(r =~= p + tail);
                assert(all_borrowed_ok(p, base)) by {
                    assert forall|i: int| 0 <= i < p.len() implies #[trigger] borrowed_ok(p[i], base) by {
                    }
                }
                assert forall|i: int| 0 <= i < r.len() implies #[trigger] borrowed_ok(r[i], base) by {
                    if i >= p.len() {
                        assert(r[i] == tail[i - p.len()]);
                    } else {
                        assert(r[i] == p[i]);
                    }
                }
            },
            None => {},
        }
    }
}

/// Applying a unit whose endpoints fall on character boundaries keeps every
/// borrowed segment sliceable, so the state can still be materialized.
pub proof fn law_apply_keeps_segments_sliceable(
    segs: Seq<SourceSegment>,
    base: Seq<char>,
    kind: DirtyKind,
)
    requires
        all_borrowed_ok(segs, base),
        unit_on_boundaries(kind, base),
    ensures
        apply_spec(segs, byte_len(base) as int, kind) matches Some(r) ==> all_borrowed_ok(r, base),
{
    match kind {
        DirtyKind::Insert { at, text } => {
            lemma_insert_point_ok(segs, at, text, base);
        },
        DirtyKind::Delete { range } => {
            lemma_replace_segs_ok(segs, range.start, range.end, None, false, base);
        },
        DirtyKind::Region { range, text, .. } => {
            lemma_replace_segs_ok(segs, range.start, range.end, Some(text), false, base);
        },
    }
}

/// A fresh state reassembles to exactly its base text, and it can be
/// materialized.
pub proof fn law_fresh_state_reassembles_base(base: Seq<char>)
    requires
        encode_utf8(base).len() <= usize::MAX,
    ensures
        all_borrowed_ok(SpliceState::fresh_segments(base), base),
        assembled(SpliceState::fresh_segments(base), base) == base,
{
    let b = encode_utf8(base);
    encode_utf8_valid_utf8(base);
    is_char_boundary_start_end_of_seq(b);
    encode_utf8_decode_utf8(base);
    let segs = SpliceState::fresh_segments(base);
    assert(borrowed_ok(segs[0], base));
    assert(b.subrange(0, b.len() as int) =~= b);
    reveal_with_fuel(assembled, 2);
    assert(segs.drop_last() =~= Seq::<SourceSegment>::empty());
    assert(assembled(segs, base) =~= base);
}

/// On a fresh state, a region replacing a range `start..end` of the base (on
/// character boundaries; an empty range is a point) is accepted, and the
/// document becomes the text before the range, the new text, then the text
/// after it.
pub proof fn law_region_on_fresh_state(base: Seq<char>, range: Range<usize>, indent: usize, text: String)
    requires
        encode_utf8(base).len() <= usize::MAX,
        range.start <= range.end <= encode_utf8(base).len(),
        is_char_boundary(encode_utf8(base), range.start as int),
        is_char_boundary(encode_utf8(base), range.end as int),
    ensures
        apply_spec(
            SpliceState::fresh_segments(base),
            byte_len(base) as int,
            DirtyKind::Region { range, indent, text },
        ) matches Some(r) && all_borrowed_ok(r, base) && assembled(r, base) == base_slice(base, 0, range.start as int)
            + text@ + base_slice(base, range.end as int, encode_utf8(base).len() as int),
{
    let b = encode_utf8(base);
    let len = b.len() as int;
    let segs = SpliceState::fresh_segments(base);
    law_fresh_state_reassembles_base(base);
    law_apply_keeps_segments_sliceable(segs, base, DirtyKind::Region { range, indent, text });
    let s = range.start;
    let e = range.end;
    assert(segs.drop_first() =~= Seq::<SourceSegment>::empty());
    reveal_with_fuel(replace_segs, 2);
    reveal_with_fuel(assembled, 4);
    let r = replace_segs(segs, s, e, Some(text), false)->0;
    let empty = Seq::<char>::empty();
    assert(decode_utf8(b.subrange(0, 0)) =~= empty) by {
        assert(b.subrange(0, 0) =~= Seq::<u8>::empty());
    }
    assert(decode_utf8(b.subrange(len, len)) =~= empty) by {
        assert(b.subrange(len, len) =~= Seq::<u8>::empty());
    }
    if s > 0 && (e as int) < len {
        assert(r =~= seq![
            SourceSegment::Borrowed { start: 0, end: s },
            owned_seg(s, e, text),
            SourceSegment::Borrowed { start: e, end: len as usize },
        ]);
        assert(r.drop_last().drop_last().drop_last() =~= Seq::<SourceSegment>::empty());
        assert(r.drop_last().drop_last() =~= seq![SourceSegment::Borrowed { start: 0, end: s }]);
        assert(r.drop_last() =~= seq![SourceSegment::Borrowed { start: 0, end: s }, owned_seg(s, e, text)]);
    } else if s > 0 {
        assert(r =~= seq![SourceSegment::Borrowed { start: 0, end: s }, owned_seg(s, e, text)]);
        assert(r.drop_last().drop_last() =~= Seq::<SourceSegment>::empty());
        assert(r.drop_last() =~= seq![SourceSegment::Borrowed { start: 0, end: s }]);
    } else if (e as int) < len {
        assert(r =~= seq![owned_seg(s, e, text), SourceSegment::Borrowed { start: e, end: len as usize }]);
        assert(r.drop_last().drop_last() =~= Seq::<SourceSegment>::empty());
        assert(r.drop_last() =~= seq![owned_seg(s, e, text)]);
    } else if s < e {
        assert(r =~= seq![owned_seg(s, e, text)]);
        assert(r.drop_last() =~= Seq::<SourceSegment>::empty());
    } else {
        assert(r =~= seq![SourceSegment::Borrowed { start: 0, end: 0 }, owned_seg(s, e, text)]);
        assert(r.drop_last().drop_last() =~= Seq::<SourceSegment>::empty());
        assert(r.drop_last() =~= seq![SourceSegment::Borrowed { start: 0, end: 0 }]);
    }
    assert(assembled(r, base) =~= base_slice(base, 0, s as int) + text@ + base_slice(base, e as int, len));
}

/// On a fresh state, inserting at an offset of the base (on a character
/// boundary) is accepted, and the document becomes the text before the
/// offset, the inserted text, then the rest of the base.
pub proof fn law_insert_on_fresh_state(base: Seq<char>, at: usize, text: String)
    requires
        encode_utf8(base).len() <= usize::MAX,
        at <= encode_utf8(base).len(),
        is_char_boundary(encode_utf8(base), at as int),
    ensures
        apply_spec(
            SpliceState::fresh_segments(base),
            byte_len(base) as int,
            DirtyKind::Insert { at, text },
        ) matches Some(r) && all_borrowed_ok(r, base) && assembled(r, base) == base_slice(base, 0, at as int)
            + text@ + base_slice(base, at as int, encode_utf8(base).len() as int),
{
    let b = encode_utf8(base);
    let len = b.len() as int;
    let segs = SpliceState::fresh_segments(base);
    law_fresh_state_reassembles_base(base);
    law_apply_keeps_segments_sliceable(segs, base, DirtyKind::Insert { at, text });
    assert(segs.drop_first() =~= Seq::<SourceSegment>::empty());
    reveal_with_fuel(insert_point, 2);
    reveal_with_fuel(assembled, 4);
    let r = insert_point(segs, at, text)->0;
    let empty = Seq::<char>::empty();
    assert(decode_utf8(b.subrange(0, 0)) =~= empty) by {
        assert(b.subrange(0, 0) =~= Seq::<u8>::empty());
    }
    assert(decode_utf8(b.subrange(len, len)) =~= empty) by {
        assert(b.subrange(len, len) =~= Seq::<u8>::empty());
    }
    if at == 0 {
        assert(r =~= seq![owned_seg(at, at, text), SourceSegment::Borrowed { start: 0, end: len as usize }]);
        assert(r.drop_last().drop_last() =~= Seq::<SourceSegment>::empty());
        assert(r.drop_last() =~= seq![owned_seg(at, at, text)]);
    } else if (at as int) < len {
        assert(r =~= seq![
            SourceSegment::Borrowed { start: 0, end: at },
            owned_seg(at, at, text),
            SourceSegment::Borrowed { start: at, end: len as usize },
        ]);
        assert(r.drop_last().drop_last().drop_last() =~= Seq::<SourceSegment>::empty());
        assert(r.drop_last().drop_last() =~= seq![SourceSegment::Borrowed { start: 0, end: at }]);
        assert(r.drop_last() =~= seq![SourceSegment::Borrowed { start: 0, end: at }, owned_seg(at, at, text)]);
    } else {
        assert(r =~= seq![SourceSegment::Borrowed { start: 0, end: len as usize }, owned_seg(at, at, text)]);
        assert(r.drop_last().drop_last() =~= Seq::<SourceSegment>::empty());
        assert(r.drop_last() =~= seq![SourceSegment::Borrowed { start: 0, end: len as usize }]);
    }
    assert(assembled(r, base) =~= base_slice(base, 0, at as int) + text@ + base_slice(base, at as int, len));
}

/// On a fresh state, deleting a range `start..end` of the base (on character
/// boundaries) is accepted and removes exactly those bytes (none for an empty
/// range); deleting the whole of a non-empty base leaves no segment at all.
pub proof fn law_delete_on_fresh_state(base: Seq<char>, range: Range<usize>)
    requires
        encode_utf8(base).len() <= usize::MAX,
        range.start <= range.end <= encode_utf8(base).len(),
        is_char_boundary(encode_utf8(base), range.start as int),
        is_char_boundary(encode_utf8(base), range.end as int),
    ensures
        apply_spec(
            SpliceState::fresh_segments(base),
            byte_len(base) as int,
            DirtyKind::Delete { range },
        ) matches Some(r) && all_borrowed_ok(r, base) && assembled(r, base) == base_slice(base, 0, range.start as int)
            + base_slice(base, range.end as int, encode_utf8(base).len() as int)
            && (r.len() == 0 <==> (range.start == 0 && range.end == encode_utf8(base).len() && range.start < range.end)),
{
    let b = encode_utf8(base);
    let len = b.len() as int;
    let segs = SpliceState::fresh_segments(base);
    law_fresh_state_reassembles_base(base);
    law_apply_keeps_segments_sliceable(segs, base, DirtyKind::Delete { range });
    let s = range.start;
    let e = range.end;
    assert(segs.drop_first() =~= Seq::<SourceSegment>::empty());
    reveal_with_fuel(replace_segs, 2);
    reveal_with_fuel(assembled, 3);
    let r = replace_segs(segs, s, e, None, false)->0;
    let empty = Seq::<char>::empty();
    assert(decode_utf8(b.subrange(0, 0)) =~= empty) by {
        assert(b.subrange(0, 0) =~= Seq::<u8>::empty());
    }
    assert(decode_utf8(b.subrange(len, len)) =~= empty) by {
        assert(b.subrange(len, len) =~= Seq::<u8>::empty());
    }
    if s > 0 && (e as int) < len {
        assert(r =~= seq![
            SourceSegment::Borrowed { start: 0, end: s },
            SourceSegment::Borrowed { start: e, end: len as usize },
        ]);
        assert(r.drop_last().drop_last() =~= Seq::<SourceSegment>::empty());
        assert(r.drop_last() =~= seq![SourceSegment::Borrowed { start: 0, end: s }]);
    } else if s > 0 {
        assert(r =~= seq![SourceSegment::Borrowed { start: 0, end: s }]);
        assert(r.drop_last() =~= Seq::<SourceSegment>::empty());
    } else if (e as int) < len {
        assert(r =~= seq![SourceSegment::Borrowed { start: e, end: len as usize }]);
        assert(r.drop_last() =~= Seq::<SourceSegment>::empty());
    } else if s < e {
        assert(r =~= Seq::<SourceSegment>::empty());
    } else {
        assert(r =~= seq![SourceSegment::Borrowed { start: 0, end: 0 }]);
        assert(r.drop_last() =~= Seq::<SourceSegment>::empty());
    }
    assert(assembled(r, base) =~= base_slice(base, 0, s as int) + base_slice(base, e as int, len));
}

impl SpliceState {
    /// The segment list of a fresh state: the whole base, borrowed.
    pub open spec fn fresh_segments(base: Seq<char>) -> Seq<SourceSegment> {
        seq![SourceSegment::Borrowed { start: 0, end: byte_len(base) }]
    }

    /// Byte length of the base text.
    pub open spec fn base_len(self) -> int {
        byte_len(self.base@) as int
    }

    /// A fresh state borrowing the whole base as a single segment.
    pub fn new(base: String) -> (res: Self)
        ensures
            res.base == base,
            res.segments@ == Self::fresh_segments(base@),
            res.offsets is None,
    {
        let len = base.as_str().len();
        let mut segments = Vec::new();
        segments.push(SourceSegment::Borrowed { start: 0, end: len });
        SpliceState { segments, base, offsets: None }
    }

    /// Return the line offsets of the base, computing them on first use: the
    /// offsets already held are returned as they are. The offsets are in
    /// original coordinates, so they stay valid across an edit burst.
    pub fn line_offsets(&mut self) -> (res: &[usize])
        ensures
            old(self).offsets matches Some(o) ==> res@ == o@,
            old(self).offsets is None ==> res@ == line_offsets_with_end(encode_utf8(old(self).base@)),
            final(self).segments == old(self).segments,
            final(self).base == old(self).base,
            final(self).offsets matches Some(o) && o@ == res@,
            old(self).offsets is Some ==> final(self).offsets == old(self).offsets,
    {
        if self.offsets.is_none() {
            self.offsets = Some(compute_line_offsets(self.base.as_str()));
        }
        match &self.offsets {
            Some(o) => o.as_slice(),
            None => {
                proof {
                    assert(false);
                }
                &[]
            },
        }
    }

    /// Fold one edit unit into the segment list. `Err` means the unit cannot
    /// be spliced (it is ineligible, it inserts past the end of the base, or
    /// it would cut through previously regenerated text) and the state is
    /// unchanged.
    pub fn apply(&mut self, unit: &DirtyUnit) -> (res: Result<(), SpliceReject>)
        ensures
            final(self).base == old(self).base,
            final(self).offsets == old(self).offsets,
            !unit.eligible ==> res is Err,
            res is Err ==> final(self).segments@ == old(self).segments@,
            unit.eligible ==> match apply_spec(
                old(self).segments@,
                old(self).base_len(),
                unit.kind,
            ) {
                Some(s) => res is Ok && final(self).segments@ == s,
                None => res is Err,
            },
    {
        if !unit.eligible {
            return Err(SpliceReject);
        }
        match &unit.kind {
            DirtyKind::Insert { at, text } => self.insert(*at, text),
            DirtyKind::Delete { range } => self.replace_range(range, None),
            DirtyKind::Region { range, text, .. } => self.replace_range(range, Some(text)),
        }
    }

    /// Insert `text` at original-space offset `at` (a zero-width Owned point).
    fn insert(&mut self, at: usize, text: &String) -> (res: Result<(), SpliceReject>)
        ensures
            final(self).base == old(self).base,
            final(self).offsets == old(self).offsets,
            res is Err ==> final(self).segments@ == old(self).segments@,
            at > old(self).base_len() ==> res is Err,
            at <= old(self).base_len() ==> match insert_point(old(self).segments@, at, *text) {
                Some(s) => res is Ok && final(self).segments@ == s,
                None => res is Err,
            },
    {
        if at > self.base.as_str().len() {
            return Err(SpliceReject);
        }
        let ghost segs = self.segments@;
        let n = self.segments.len();
        let mut out: Vec<SourceSegment> = Vec::new();
        let mut inserted = false;
        let mut i: usize = 0;
        assert(segs.skip(0) =~= segs);
        assert(out@ =~= segs.take(0));
        while i < n
            invariant
                n == self.segments.len(),
                segs == self.segments@,
                0 <= i <= n,
                !inserted ==> out@ == segs.take(i as int),
                !inserted ==> insert_point(segs, at, *text) == prepend_segs(
                    out@,
                    insert_point(segs.skip(i as int), at, *text),
                ),
                inserted ==> insert_point(segs, at, *text) == Some(out@ + segs.skip(i as int)),
            decreases n - i,
        {
            let ghost rest = segs.skip(i as int);
            assert(rest[0] == segs[i as int]);
            assert(rest.drop_first() =~= segs.skip(i + 1));
            let seg = &self.segments[i];
            let ghost prev = out@;
            if inserted {
                out.push(seg.clone());
                assert(out@ + segs.skip(i + 1) =~= prev + segs.skip(i as int)) by {
                    assert(segs.skip(i as int) =~= seq![segs[i as int]] + segs.skip(i + 1));
                }
                i = i + 1;
                continue;
            }
            match seg {
                SourceSegment::Borrowed { start, end } => {
                    if at <= *start {
                        out.push(SourceSegment::Owned { start: at, end: at, text: text.clone() });
                        out.push(seg.clone());
                        inserted = true;
                        assert(out@ + segs.skip(i + 1) =~= prev + (seq![
                            owned_seg(at, at, *text),
                        ] + rest));
                    } else if at < *end {
                        out.push(SourceSegment::Borrowed { start: *start, end: at });
                        out.push(SourceSegment::Owned { start: at, end: at, text: text.clone() });
                        out.push(SourceSegment::Borrowed { start: at, end: *end });
                        inserted = true;
                        assert(out@ + segs.skip(i + 1) =~= prev + (seq![
                            SourceSegment::Borrowed { start: *start, end: at },
                            owned_seg(at, at, *text),
                            SourceSegment::Borrowed { start: at, end: *end },
                        ] + rest.drop_first()));
                    } else {
                        out.push(seg.clone());
                        assert(out@ =~= segs.take(i + 1));
                        assert(prepend_segs(prev, prepend_segs(seq![segs[i as int]], insert_point(segs.skip(i + 1), at, *text)))
                            == prepend_segs(out@, insert_point(segs.skip(i + 1), at, *text))) by {
                            match insert_point(segs.skip(i + 1), at, *text) {
                                Some(r) => {
                                    assert(prev + (seq![segs[i as int]] + r) =~= out@ + r);
                                },
                                None => {},
                            }
                        }
                    }
                },
                SourceSegment::Owned { start, end, .. } => {
                    if at > *start && at < *end {
                        return Err(SpliceReject);
                    }
                    if at == *start {
                        out.push(SourceSegment::Owned { start: at, end: at, text: text.clone() });
                        out.push(seg.clone());
                        inserted = true;
                        assert(out@ + segs.skip(i + 1) =~= prev + (seq![
                            owned_seg(at, at, *text),
                        ] + rest));
                    } else {
                        out.push(seg.clone());
                        assert(out@ =~= segs.take(i + 1));
                        assert(prepend_segs(prev, prepend_segs(seq![segs[i as int]], insert_point(segs.skip(i + 1), at, *text)))
                            == prepend_segs(out@, insert_point(segs.skip(i + 1), at, *text))) by {
                            match insert_point(segs.skip(i + 1), at, *text) {
                                Some(r) => {
                                    assert(prev + (seq![segs[i as int]] + r) =~= out@ + r);
                                },
                                None => {},
                            }
                        }
                    }
                },
            }
            i = i + 1;
        }
        if !inserted {
            out.push(SourceSegment::Owned { start: at, end: at, text: text.clone() });
            assert(segs.skip(n as int) =~= Seq::<SourceSegment>::empty());
        } else {
            assert(out@ + segs.skip(n as int) =~= out@);
        }
        self.segments = out;
        Ok(())
    }

    /// Replace (or, with `text == None`, delete) original bytes `range` with
    /// regenerated text. Fully-overlapped segments are discarded; a range
    /// crossing a previously-Owned segment's interior is rejected.
    fn replace_range(&mut self, range: &Range<usize>, text: Option<&String>) -> (res: Result<
        (),
        SpliceReject,
    >)
        ensures
            final(self).base == old(self).base,
            final(self).offsets == old(self).offsets,
            res is Err ==> final(self).segments@ == old(self).segments@,
            match replace_segs(
                old(self).segments@,
                range.start,
                range.end,
                match text {
                    Some(t) => Some(*t),
                    None => None,
                },
                false,
            ) {
                Some(s) => res is Ok && final(self).segments@ == s,
                None => res is Err,
            },
    {
        let ghost segs = self.segments@;
        let ghost topt: Option<String> = match text {
            Some(t) => Some(*t),
            None => None,
        };
        let rs = range.start;
        let re = range.end;
        let n = self.segments.len();
        let mut out: Vec<SourceSegment> = Vec::new();
        let mut inserted = false;
        let mut i: usize = 0;
        assert(segs.skip(0) =~= segs);
        assert(out@ + segs =~= segs);
        while i < n
            invariant
                n == self.segments.len(),
                segs == self.segments@,
                rs == range.start,
                re == range.end,
                0 <= i <= n,
                topt == match text {
                    Some(t) => Some(*t),
                    None => None::<String>,
                },
                replace_segs(segs, rs, re, topt, false) == prepend_segs(
                    out@,
                    replace_segs(segs.skip(i as int), rs, re, topt, inserted),
                ),
            decreases n - i,
        {
            let ghost rest = segs.skip(i as int);
            let ghost old_out = out@;
            let ghost old_ins = inserted;
            assert(rest[0] == segs[i as int]);
            assert(rest.drop_first() =~= segs.skip(i + 1));
            let ghost pend = pending_text(rs, re, topt, old_ins);
            let seg = &self.segments[i];
            match seg {
                SourceSegment::Borrowed { start, end } => {
                    if *end <= rs {
                        out.push(seg.clone());
                        proof {
                            Self::lemma_prepend_step(old_out, seq![segs[i as int]], replace_segs(segs.skip(i + 1), rs, re, topt, old_ins));
                        }
                    } else if *start >= re {
                        if !inserted {
                            if let Some(t) = text {
                                out.push(SourceSegment::Owned { start: rs, end: re, text: t.clone() });
                            }
                            inserted = true;
                        }
                        out.push(seg.clone());
                        proof {
                            assert(out@ =~= old_out + (pend + seq![segs[i as int]]));
                            Self::lemma_prepend_step(old_out, pend + seq![segs[i as int]], replace_segs(segs.skip(i + 1), rs, re, topt, true));
                        }
                    } else if *start >= rs && *end <= re {
                        if !inserted {
                            if let Some(t) = text {
                                out.push(SourceSegment::Owned { start: rs, end: re, text: t.clone() });
                            }
                            inserted = true;
                        }
                        proof {
                            assert(out@ =~= old_out + pend);
                            Self::lemma_prepend_step(old_out, pend, replace_segs(segs.skip(i + 1), rs, re, topt, true));
                        }
                    } else {
                        let s2 = if rs >= *start { rs } else { *start };
                        let e2 = if re <= *end { re } else { *end };
                        if s2 > e2 {
                            out.push(seg.clone());
                            proof {
                                Self::lemma_prepend_step(old_out, seq![segs[i as int]], replace_segs(segs.skip(i + 1), rs, re, topt, old_ins));
                            }
                        } else {
                            let ghost left = if *start < rs {
                                seq![SourceSegment::Borrowed { start: *start, end: rs }]
                            } else {
                                Seq::<SourceSegment>::empty()
                            };
                            let ghost right = if re < *end {
                                seq![SourceSegment::Borrowed { start: re, end: *end }]
                            } else {
                                Seq::<SourceSegment>::empty()
                            };
                            if *start < rs {
                                out.push(SourceSegment::Borrowed { start: *start, end: rs });
                            }
                            if !inserted {
                                if let Some(t) = text {
                                    out.push(SourceSegment::Owned { start: rs, end: re, text: t.clone() });
                                }
                                inserted = true;
                            }
                            if re < *end {
                                out.push(SourceSegment::Borrowed { start: re, end: *end });
                            }
                            proof {
                                assert(out@ =~= old_out + (left + pend + right));
                                Self::lemma_prepend_step(old_out, left + pend + right, replace_segs(segs.skip(i + 1), rs, re, topt, true));
                            }
                        }
                    }
                },
                SourceSegment::Owned { start, end, .. } => {
                    if *start >= rs && *end <= re {
                        if !inserted {
                            if let Some(t) = text {
                                out.push(SourceSegment::Owned { start: rs, end: re, text: t.clone() });
                            }
                            inserted = true;
                        }
                        proof {
                            assert(out@ =~= old_out + pend);
                            Self::lemma_prepend_step(old_out, pend, replace_segs(segs.skip(i + 1), rs, re, topt, true));
                        }
                        i = i + 1;
                        continue;
                    }
                    if *start < rs && rs < *end {
                        return Err(SpliceReject);
                    }
                    if *start < re && re < *end {
                        return Err(SpliceReject);
                    }
                    out.push(seg.clone());
                    proof {
                        Self::lemma_prepend_step(old_out, seq![segs[i as int]], replace_segs(segs.skip(i + 1), rs, re, topt, old_ins));
                    }
                },
            }
            i = i + 1;
        }
        assert(segs.skip(n as int) =~= Seq::<SourceSegment>::empty());
        let ghost pend = pending_text(rs, re, topt, inserted);
        let ghost before = out@;
        if !inserted {
            if let Some(t) = text {
                out.push(SourceSegment::Owned { start: rs, end: re, text: t.clone() });
            }
        }
        assert(out@ =~= before + pend);
        self.segments = out;
        Ok(())
    }

    proof fn lemma_prepend_step(
        a: Seq<SourceSegment>,
        b: Seq<SourceSegment>,
        r: Option<Seq<SourceSegment>>,
    )
        ensures
            prepend_segs(a, prepend_segs(b, r)) == prepend_segs(a + b, r),
    {
        match r {
            Some(s) => {
                assert(a + (b + s) =~= (a + b) + s);
            },
            None => {},
        }
    }

    /// Reassemble the full document. `None` when every segment was deleted.
    pub fn materialize(&self) -> (res: Option<String>)
        requires
            all_borrowed_ok(self.segments@, self.base@),
        ensures
            self.segments@.len() == 0 <==> res is None,
            res matches Some(s) ==> s@ == assembled(self.segments@, self.base@),
    {
        if self.segments.len() == 0 {
            return None;
        }
        let base = self.base.as_str();
        let ghost bytes = encode_utf8(self.base@);
        proof {
            encode_utf8_valid_utf8(self.base@);
        }
        let mut out = String::new();
        let n = self.segments.len();
        let mut i: usize = 0;
        while i < n
            invariant
                n == self.segments.len(),
                0 <= i <= n,
                base@ == self.base@,
                bytes == encode_utf8(self.base@),
                valid_utf8(bytes),
                all_borrowed_ok(self.segments@, self.base@),
                out@ == assembled(self.segments@.take(i as int), self.base@),
            decreases n - i,
        {
            assert(self.segments@.take(i + 1).drop_last() =~= self.segments@.take(i as int));
            match &self.segments[i] {
                SourceSegment::Borrowed { start, end } => {
                    assert(borrowed_ok(self.segments@[i as int], self.base@));
                    proof {
                        lemma_prefix_char_boundary(bytes, *start as int, *end as int);
                    }
                    let (head, _) = base.split_at(*end);
                    let (_, piece) = head.split_at(*start);
                    proof {
                        encode_utf8_decode_utf8(piece@);
                        assert(piece.spec_bytes() =~= bytes.subrange(*start as int, *end as int));
                    }
                    out.append(piece);
                },
                SourceSegment::Owned { text, .. } => {
                    out.append(text.as_str());
                },
            }
            i = i + 1;
        }
        assert(self.segments@.take(n as int) =~= self.segments@);
        Some(out)
    }
}

} // verus!
