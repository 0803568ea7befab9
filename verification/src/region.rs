//! Line geometry of a source text, for the text units that path edits hand
//! to the splice layer: where a line starts and ends, how far it is
//! indented, line-aligned ranges, and deletions that take the comment lines
//! above them along.
//!
//! Lines are known through a list of line offsets (the byte offsets at
//! which lines start, and the text's length last, as `compute_line_offsets`
//! gives); every function here is defined for any list.
use vstd::prelude::*;
use vstd::string::*;

verus! {

/// The start of the line holding byte `pos`: the greatest offset that is at
/// most `pos` (0 when there is none).
pub open spec fn line_start_spec(offs: Seq<usize>, pos: int) -> int
    decreases offs.len(),
{
    if offs.len() == 0 {
        0
    } else {
        let r = line_start_spec(offs.drop_last(), pos);
        let o = offs.last() as int;
        if o <= pos && o > r {
            o
        } else {
            r
        }
    }
}

/// The end of the line that a text ending at `pos` ends on: the least
/// offset that is at least `pos`, or `len` when that is less.
pub open spec fn line_end_spec(offs: Seq<usize>, pos: int, len: int) -> int
    decreases offs.len(),
{
    if offs.len() == 0 {
        len
    } else {
        let r = line_end_spec(offs.drop_last(), pos, len);
        let o = offs.last() as int;
        if pos <= o && o < r {
            o
        } else {
            r
        }
    }
}

/// The number of spaces in `b` from `i` on.
pub open spec fn spaces_from(b: Seq<u8>, i: int) -> nat
    decreases b.len() - i,
{
    if 0 <= i < b.len() && b[i] == 32u8 {
        1 + spaces_from(b, i + 1)
    } else {
        0
    }
}

/// The indentation of the line holding byte `pos`: its leading spaces.
pub open spec fn line_indent_spec(b: Seq<u8>, offs: Seq<usize>, pos: int) -> nat {
    spaces_from(b, line_start_spec(offs, pos))
}

/// Whether byte `pos` is the first byte after its line's indentation.
pub open spec fn starts_its_line(b: Seq<u8>, offs: Seq<usize>, pos: int) -> bool {
    pos == line_start_spec(offs, pos) + line_indent_spec(b, offs, pos)
}

/// Whether the line from `p` is a comment line: `#` after its indentation,
/// before `q`.
pub open spec fn comment_line(b: Seq<u8>, p: int, q: int) -> bool {
    let h = p + spaces_from(b, p);
    h < q && 0 <= h < b.len() && b[h] == 35u8
}

/// A deletion from `start`, moved back over the comment lines right above.
pub open spec fn extend_back(b: Seq<u8>, offs: Seq<usize>, start: int) -> int
    decreases start,
{
    if start <= 0 {
        start
    } else {
        let p = line_start_spec(offs, start - 1);
        if 0 <= p < start && comment_line(b, p, start) {
            extend_back(b, offs, p)
        } else {
            start
        }
    }
}

pub proof fn lemma_line_start_bounds(offs: Seq<usize>, pos: int)
    requires
        pos >= 0,
    ensures
        0 <= line_start_spec(offs, pos) <= pos,
    decreases offs.len(),
{
    if offs.len() > 0 {
        lemma_line_start_bounds(offs.drop_last(), pos);
    }
}

pub proof fn lemma_line_end_bounds(offs: Seq<usize>, pos: int, len: int)
    requires
        pos <= len,
    ensures
        pos <= line_end_spec(offs, pos, len) <= len,
    decreases offs.len(),
{
    if offs.len() > 0 {
        lemma_line_end_bounds(offs.drop_last(), pos, len);
    }
}

pub proof fn lemma_extend_back_bounds(b: Seq<u8>, offs: Seq<usize>, start: int)
    requires
        start >= 0,
    ensures
        0 <= extend_back(b, offs, start) <= start,
    decreases start,
{
    if start > 0 {
        let p = line_start_spec(offs, start - 1);
        if 0 <= p < start && comment_line(b, p, start) {
            lemma_extend_back_bounds(b, offs, p);
        }
    }
}

/// The start of the line holding byte `pos` (see `line_start_spec`).
pub fn line_start(offs: &[usize], pos: usize) -> (res: usize)
    ensures
        res == line_start_spec(offs@, pos as int),
{
    let mut r: usize = 0;
    let mut i: usize = 0;
    while i < offs.len()
        invariant
            0 <= i <= offs@.len(),
            r == line_start_spec(offs@.take(i as int), pos as int),
        decreases offs@.len() - i,
    {
        assert(offs@.take(i + 1).drop_last() =~= offs@.take(i as int));
        let o = offs[i];
        if o <= pos && o > r {
            r = o;
        }
        i = i + 1;
    }
    assert(offs@.take(offs@.len() as int) =~= offs@);
    r
}

/// The end of the line a text ending at `pos` ends on (see `line_end_spec`).
pub fn line_end(offs: &[usize], pos: usize, len: usize) -> (res: usize)
    ensures
        res == line_end_spec(offs@, pos as int, len as int),
{
    let mut r: usize = len;
    let mut i: usize = 0;
    while i < offs.len()
        invariant
            0 <= i <= offs@.len(),
            r == line_end_spec(offs@.take(i as int), pos as int, len as int),
        decreases offs@.len() - i,
    {
        assert(offs@.take(i + 1).drop_last() =~= offs@.take(i as int));
        let o = offs[i];
        if pos <= o && o < r {
            r = o;
        }
        i = i + 1;
    }
    assert(offs@.take(offs@.len() as int) =~= offs@);
    r
}

/// The spaces of `b` from `i` on.
fn count_spaces(b: &[u8], i: usize) -> (res: usize)
    ensures
        res == spaces_from(b@, i as int),
        i <= b@.len() ==> i + res <= b@.len(),
{
    let mut j: usize = i;
    while j < b.len() && b[j] == 32u8
        invariant
            i <= j,
            i <= b@.len() ==> j <= b@.len(),
            j > b@.len() ==> j == i,
            spaces_from(b@, i as int) == (j - i) + spaces_from(b@, j as int),
        decreases b@.len() - j,
    {
        j = j + 1;
    }
    j - i
}

/// The indentation of the line holding byte `pos` (see `line_indent_spec`).
pub fn line_indent(offs: &[usize], source: &str, pos: usize) -> (res: usize)
    ensures
        res == line_indent_spec(source.spec_bytes(), offs@, pos as int),
{
    let s = line_start(offs, pos);
    count_spaces(source.as_bytes(), s)
}

/// Whether byte `pos` is the first byte after its line's indentation.
pub fn starts_line(offs: &[usize], source: &str, pos: usize) -> (res: bool)
    ensures
        res == starts_its_line(source.spec_bytes(), offs@, pos as int),
{
    let s = line_start(offs, pos);
    let k = count_spaces(source.as_bytes(), s);
    proof {
        lemma_line_start_bounds(offs@, pos as int);
    }
    if s > pos || k > pos - s {
        false
    } else {
        pos == s + k
    }
}

/// The range `start..end` widened to whole lines.
pub fn line_aligned(start: usize, end: usize, offs: &[usize], len: usize) -> (res: (usize, usize))
    ensures
        res.0 == line_start_spec(offs@, start as int),
        res.1 == line_end_spec(offs@, end as int, len as int),
{
    (line_start(offs, start), line_end(offs, end, len))
}

/// A deletion from `start`, moved back over the comment lines right above
/// it (see `extend_back`).
pub fn extend_delete_over_comments(start: usize, offs: &[usize], source: &str) -> (res: usize)
    ensures
        res == extend_back(source.spec_bytes(), offs@, start as int),
{
    let b = source.as_bytes();
    let ghost bs = source.spec_bytes();
    let mut s: usize = start;
    while s > 0
        invariant
            b@ == bs,
            bs == source.spec_bytes(),
            extend_back(bs, offs@, s as int) == extend_back(bs, offs@, start as int),
        decreases s,
    {
        let p = line_start(offs, s - 1);
        proof {
            lemma_line_start_bounds(offs@, s - 1);
        }
        let k = count_spaces(b, p);
        let is_comment = if p < b.len() && k < b.len() - p {
            let h = p + k;
            h < s && b[h] == 35u8
        } else {
            false
        };
        proof {
            if p < b.len() && p + k < b.len() {
                assert(is_comment == comment_line(bs, p as int, s as int));
            } else {
                assert(!comment_line(bs, p as int, s as int));
            }
        }
        if p < s && is_comment {
            s = p;
        } else {
            assert(extend_back(bs, offs@, s as int) == s as int);
            return s;
        }
    }
    s
}

} // verus!
