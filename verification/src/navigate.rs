//! Edit-path parsing and AST navigation.
use crate::ast::CustomNode;
use crate::tree::{pairs_tree, items_tree, tree_of, Tree};
use crate::error::{NavigateError, PathError};
use crate::schema::lemma_decimal_digits;
use crate::text::{chars_of, decimal, i64_to_string, push_char, signed_decimal, str_equals, string_of};
use vstd::prelude::*;

verus! {

/// A path segment for navigating into a YAML AST.
#[derive(Debug, Clone, PartialEq)]
pub enum Segment {
    /// Mapping key lookup.
    Key(String),
    /// Sequence index lookup.
    Index(i64),
}

/// What a segment denotes: a key text or an index.
pub enum SegmentView {
    Key(Seq<char>),
    Index(int),
}

impl View for Segment {
    type V = SegmentView;

    open spec fn view(&self) -> SegmentView {
        match self {
            Segment::Key(k) => SegmentView::Key(k@),
            Segment::Index(i) => SegmentView::Index(*i as int),
        }
    }
}

/// What a path error denotes.
pub enum PathErrorView {
    WildcardOrDeepScan,
    InvalidIndex(Seq<char>),
    InvalidPath,
}

impl View for PathError {
    type V = PathErrorView;

    open spec fn view(&self) -> PathErrorView {
        match self {
            PathError::WildcardOrDeepScan => PathErrorView::WildcardOrDeepScan,
            PathError::InvalidIndex(s) => PathErrorView::InvalidIndex(s@),
            PathError::InvalidPath => PathErrorView::InvalidPath,
        }
    }
}

/// The position `index` denotes in a sequence of length `len`: negative
/// indices count from the end; `None` when out of range (or when `len` does
/// not fit in an `i64` and `index` is negative).
pub open spec fn normalize_index_spec(index: int, len: int) -> Option<int> {
    if index < 0 {
        if len > i64::MAX {
            None
        } else if 0 <= len + index {
            Some(len + index)
        } else {
            None
        }
    } else if index < len {
        Some(index)
    } else {
        None
    }
}

/// Resolve a possibly negative index against a length.
pub fn normalize_index(index: i64, len: usize) -> (res: Option<usize>)
    ensures
        match normalize_index_spec(index as int, len as int) {
            Some(i) => res == Some(i as usize),
            None => res is None,
        },
{
    if index < 0 {
        if (len as u64) > (i64::MAX as u64) {
            return None;
        }
        let l = len as i64;
        let n = l + index;
        if n >= 0 {
            Some(n as usize)
        } else {
            None
        }
    } else if (index as u64) < (len as u64) {
        Some(index as usize)
    } else {
        None
    }
}

/// ASCII decimal digit.
pub open spec fn is_digit(c: char) -> bool {
    '0' <= c && c <= '9'
}

/// Number of leading ASCII digits of `s`.
pub open spec fn digit_run(s: Seq<char>) -> nat
    decreases s.len(),
{
    if s.len() > 0 && is_digit(s[0]) {
        1 + digit_run(s.drop_first())
    } else {
        0
    }
}

/// The value of a string of ASCII digits.
pub open spec fn digits_value(s: Seq<char>) -> int
    decreases s.len(),
{
    if s.len() == 0 {
        0
    } else {
        digits_value(s.drop_last()) * 10 + (s.last() as int - '0' as int)
    }
}

/// A character that ends a key segment.
pub open spec fn ends_key(c: char) -> bool {
    c == '.' || c == '[' || c == '*' || c == '$'
}

/// Number of leading characters of `s` that belong to a key.
pub open spec fn key_run(s: Seq<char>) -> nat
    decreases s.len(),
{
    if s.len() > 0 && !ends_key(s[0]) {
        1 + key_run(s.drop_first())
    } else {
        0
    }
}

/// Prefix a successful parse with one segment.
pub open spec fn cons_seg(
    seg: SegmentView,
    r: Result<Seq<SegmentView>, PathErrorView>,
) -> Result<Seq<SegmentView>, PathErrorView> {
    match r {
        Ok(s) => Ok(seq![seg] + s),
        Err(e) => Err(e),
    }
}

/// Reading an index segment `[n]` at the start of `s` (which begins with
/// `[`): an optional `-`, decimal digits, then `]`. Gives the value and the
/// number of characters consumed; the index text read so far is reported when
/// the segment is malformed or the value does not fit an `i64`.
pub open spec fn index_step(s: Seq<char>) -> Result<(int, int), PathErrorView> {
    let a = s.drop_first();
    let neg = a.len() > 0 && a[0] == '-';
    let b = if neg {
        a.drop_first()
    } else {
        a
    };
    let d = digit_run(b);
    let num = if neg {
        seq!['-'] + b.take(d as int)
    } else {
        b.take(d as int)
    };
    let after = b.skip(d as int);
    let value = if neg {
        -digits_value(b.take(d as int))
    } else {
        digits_value(b.take(d as int))
    };
    if after.len() == 0 || after[0] != ']' || d == 0 {
        Err(PathErrorView::InvalidIndex(num))
    } else if value < i64::MIN || value > i64::MAX {
        Err(PathErrorView::InvalidIndex(num))
    } else {
        Ok((value, 2 + d + if neg { 1int } else { 0int }))
    }
}

pub proof fn lemma_index_step(s: Seq<char>)
    requires
        s.len() > 0,
    ensures
        index_step(s) matches Ok((v, n)) ==> 1 <= n <= s.len(),
{
    let a = s.drop_first();
    let neg = a.len() > 0 && a[0] == '-';
    let b = if neg { a.drop_first() } else { a };
    lemma_digit_run(b);
}

pub proof fn lemma_key_run(s: Seq<char>)
    ensures
        key_run(s) <= s.len(),
    decreases s.len(),
{
    if s.len() > 0 && !ends_key(s[0]) {
        lemma_key_run(s.drop_first());
    }
}

/// Parse the segments of a path body: `.` separators, `[n]` indices (an
/// optional `-` and decimal digits fitting an `i64`), and keys running up to
/// the next `.`, `[`, `*` or `$`. A `*` selector (also as `[*]`) is refused,
/// as is a key that would be
/// empty (a `$` inside the path).
pub open spec fn parse_segments_spec(s: Seq<char>) -> Result<Seq<SegmentView>, PathErrorView>
    decreases s.len(),
{
    if s.len() == 0 {
        Ok(seq![])
    } else if s[0] == '.' {
        parse_segments_spec(s.drop_first())
    } else if s[0] == '[' && s.len() > 1 && s[1] == '*' {
        Err(PathErrorView::WildcardOrDeepScan)
    } else if s[0] == '[' {
        proof {
            lemma_index_step(s);
        }
        match index_step(s) {
            Err(e) => Err(e),
            Ok((value, n)) => cons_seg(SegmentView::Index(value), parse_segments_spec(s.skip(n))),
        }
    } else if s[0] == '*' {
        Err(PathErrorView::WildcardOrDeepScan)
    } else {
        proof {
            lemma_key_run(s);
        }
        let k = key_run(s);
        if k == 0 {
            Err(PathErrorView::InvalidPath)
        } else {
            cons_seg(SegmentView::Key(s.take(k as int)), parse_segments_spec(s.skip(k as int)))
        }
    }
}

/// The body of a path: without a leading `$`, then without a leading `.`.
pub open spec fn path_body(path: Seq<char>) -> Seq<char> {
    let r0 = if path.len() > 0 && path[0] == '$' {
        path.drop_first()
    } else {
        path
    };
    if r0.len() > 0 && r0[0] == '.' {
        r0.drop_first()
    } else {
        r0
    }
}

/// Parse a JSONPath-style edit path such as `$.a.b[0]`: a second leading `.`
/// (deep scan) is refused, the body is parsed by `parse_segments_spec`.
pub open spec fn parse_path_spec(path: Seq<char>) -> Result<Seq<SegmentView>, PathErrorView> {
    let body = path_body(path);
    if body.len() > 0 && body[0] == '.' {
        Err(PathErrorView::WildcardOrDeepScan)
    } else {
        parse_segments_spec(body)
    }
}

pub proof fn lemma_digit_run(s: Seq<char>)
    ensures
        digit_run(s) <= s.len(),
        forall|i: int| 0 <= i < digit_run(s) ==> #[trigger] is_digit(s[i]),
        digit_run(s) < s.len() ==> !is_digit(s[digit_run(s) as int]),
    decreases s.len(),
{
    if s.len() > 0 && is_digit(s[0]) {
        lemma_digit_run(s.drop_first());
        assert forall|i: int| 0 <= i < digit_run(s) implies #[trigger] is_digit(s[i]) by {
            if i > 0 {
                assert(s[i] == s.drop_first()[i - 1]);
            }
        }
    }
}

proof fn lemma_digit_run_at(s: Seq<char>, k: int)
    requires
        0 <= k <= s.len(),
        forall|i: int| 0 <= i < k ==> #[trigger] is_digit(s[i]),
        k < s.len() ==> !is_digit(s[k]),
    ensures
        digit_run(s) == k,
    decreases s.len(),
{
    if k > 0 {
        assert(is_digit(s[0]));
        assert forall|i: int| 0 <= i < k - 1 implies #[trigger] is_digit(s.drop_first()[i]) by {
            assert(s.drop_first()[i] == s[i + 1]);
        }
        if k - 1 < s.len() - 1 {
            assert(s.drop_first()[k - 1] == s[k]);
        }
        lemma_digit_run_at(s.drop_first(), k - 1);
    }
}

proof fn lemma_key_run_at(s: Seq<char>, k: int)
    requires
        0 <= k <= s.len(),
        forall|i: int| 0 <= i < k ==> !ends_key(#[trigger] s[i]),
        k < s.len() ==> ends_key(s[k]),
    ensures
        key_run(s) == k,
    decreases s.len(),
{
    if k > 0 {
        assert(!ends_key(s[0]));
        assert forall|i: int| 0 <= i < k - 1 implies !ends_key(#[trigger] s.drop_first()[i]) by {
            assert(s.drop_first()[i] == s[i + 1]);
        }
        if k - 1 < s.len() - 1 {
            assert(s.drop_first()[k - 1] == s[k]);
        }
        lemma_key_run_at(s.drop_first(), k - 1);
    }
}

/// Accumulate decimal digits `v[from..to]` into a value, checking bounds of
/// `i64` (as a positive or negated magnitude).
fn digits_to_i64(v: &Vec<char>, from: usize, to: usize, neg: bool) -> (res: Option<i64>)
    requires
        from <= to <= v@.len(),
        forall|i: int| from <= i < to ==> #[trigger] is_digit(v@[i]),
    ensures
        ({
            let val = if neg {
                -digits_value(v@.subrange(from as int, to as int))
            } else {
                digits_value(v@.subrange(from as int, to as int))
            };
            if i64::MIN <= val <= i64::MAX {
                res == Some(val as i64)
            } else {
                res is None
            }
        }),
{
    let mut acc: u64 = 0;
    let mut i = from;
    let limit: u64 = if neg { 9223372036854775808u64 } else { 9223372036854775807u64 };
    while i < to
        invariant
            from <= i <= to <= v@.len(),
            forall|j: int| from <= j < to ==> #[trigger] is_digit(v@[j]),
            acc == digits_value(v@.subrange(from as int, i as int)),
            acc <= limit,
            limit == if neg { 9223372036854775808u64 } else { 9223372036854775807u64 },
        decreases to - i,
    {
        let c = v[i];
        assert(is_digit(v@[i as int]));
        let d = (c as u32 - '0' as u32) as u64;
        assert(v@.subrange(from as int, i + 1).drop_last() =~= v@.subrange(from as int, i as int));
        if acc > (limit - d) / 10 {
            proof {
                let rest = v@.subrange(from as int, to as int);
                lemma_digits_value_grows(v@, from as int, i + 1, to as int);
                assert(digits_value(v@.subrange(from as int, i + 1)) == acc * 10 + d);
                assert(acc * 10 + d > limit) by (nonlinear_arith)
                    requires
                        acc > (limit - d) / 10,
                        d <= 9,
                        limit >= 9,
                ;
            }
            return None;
        }
        assert(acc * 10 + d <= limit) by (nonlinear_arith)
            requires
                acc <= (limit - d) / 10,
                d <= 9,
                limit >= 9,
        ;
        acc = acc * 10 + d;
        i = i + 1;
    }
    if neg {
        if acc == 9223372036854775808u64 {
            Some(i64::MIN)
        } else {
            Some(-(acc as i64))
        }
    } else {
        Some(acc as i64)
    }
}

proof fn lemma_digits_value_nonneg(s: Seq<char>)
    requires
        forall|i: int| 0 <= i < s.len() ==> #[trigger] is_digit(s[i]),
    ensures
        digits_value(s) >= 0,
    decreases s.len(),
{
    if s.len() > 0 {
        assert forall|i: int| 0 <= i < s.drop_last().len() implies #[trigger] is_digit(s.drop_last()[i]) by {
            assert(s.drop_last()[i] == s[i]);
        }
        lemma_digits_value_nonneg(s.drop_last());
        assert(is_digit(s[s.len() - 1]));
    }
}

proof fn lemma_digits_value_grows(v: Seq<char>, from: int, i: int, to: int)
    requires
        0 <= from <= i <= to <= v.len(),
        forall|j: int| from <= j < to ==> #[trigger] is_digit(v[j]),
    ensures
        digits_value(v.subrange(from, i)) <= digits_value(v.subrange(from, to)),
    decreases to - i,
{
    if i < to {
        lemma_digits_value_grows(v, from, i + 1, to);
        let s = v.subrange(from, i + 1);
        assert(s.drop_last() =~= v.subrange(from, i));
        assert forall|j: int| 0 <= j < v.subrange(from, i).len() implies #[trigger] is_digit(v.subrange(from, i)[j]) by {
            assert(v.subrange(from, i)[j] == v[from + j]);
        }
        lemma_digits_value_nonneg(v.subrange(from, i));
        assert(is_digit(v[i]));
        assert(s.last() == v[i]);
        assert(digits_value(v.subrange(from, i)) * 10 >= digits_value(v.subrange(from, i))) by (nonlinear_arith)
            requires
                digits_value(v.subrange(from, i)) >= 0,
        ;
    }
}

/// Read the index segment starting at `v[i] == '['`.
fn scan_index(v: &Vec<char>, i: usize) -> (res: Result<(i64, usize), PathError>)
    requires
        i < v@.len(),
        v@[i as int] == '[',
    ensures
        match index_step(v@.skip(i as int)) {
            Ok((val, len)) => res == Ok::<(i64, usize), PathError>((val as i64, (i + len) as usize)),
            Err(e) => res matches Err(err) && err@ == e,
        },
{
    let ghost s = v@.skip(i as int);
    let n = v.len();
    let mut j = i + 1;
    let neg = j < n && v[j] == '-';
    if neg {
        j = j + 1;
    }
    let ds = j;
    while j < n && '0' <= v[j] && v[j] <= '9'
        invariant
            ds <= j <= n,
            n == v@.len(),
            forall|k: int| ds <= k < j ==> #[trigger] is_digit(v@[k]),
        decreases n - j,
    {
        j = j + 1;
    }
    let ghost a = s.drop_first();
    let ghost b = if neg { a.drop_first() } else { a };
    proof {
        assert(a =~= v@.skip(i + 1));
        if neg {
            assert(a[0] == v@[i + 1]);
        }
        assert(b =~= v@.skip(ds as int));
        assert forall|k: int| 0 <= k < j - ds implies #[trigger] is_digit(b[k]) by {
            assert(b[k] == v@[ds + k]);
        }
        if j < n {
            assert(b[j - ds] == v@[j as int]);
        }
        lemma_digit_run_at(b, j - ds);
        assert(b.take(j - ds) =~= v@.subrange(ds as int, j as int));
        assert(b.skip(j - ds) =~= v@.skip(j as int));
    }
    let mut num = String::new();
    if neg {
        push_char(&mut num, '-');
    }
    let digits = string_of(v, ds, j);
    num.append(digits.as_str());
    proof {
        if neg {
            assert(num@ =~= seq!['-'] + b.take(j - ds));
        } else {
            assert(num@ =~= b.take(j - ds));
        }
    }
    if j >= n || v[j] != ']' || j == ds {
        proof {
            if j < n {
                assert(b.skip(j - ds)[0] == v@[j as int]);
            }
        }
        return Err(PathError::InvalidIndex(num));
    }
    assert(b.skip(j - ds)[0] == v@[j as int]);
    match digits_to_i64(v, ds, j, neg) {
        None => Err(PathError::InvalidIndex(num)),
        Some(idx) => Ok((idx, j + 1)),
    }
}

/// Parse a JSONPath-style edit path (`$.a.b[0]`, `a[-1].c`) into segments.
/// Wildcards and deep scans are refused, as are malformed indices and empty
/// keys.
#[verifier::rlimit(40)]
#[verifier::spinoff_prover]
pub fn parse_path_segments(path: &str) -> (res: Result<Vec<Segment>, PathError>)
    ensures
        match parse_path_spec(path@) {
            Ok(segs) => res matches Ok(v) && v@.map_values(|s: Segment| s@) == segs,
            Err(e) => res matches Err(err) && err@ == e,
        },
{
    let v = chars_of(path);
    let n = v.len();
    let mut i: usize = 0;
    if i < n && v[i] == '$' {
        i = i + 1;
    }
    if i < n && v[i] == '.' {
        i = i + 1;
    }
    proof {
        let p = path@;
        let r0 = if p.len() > 0 && p[0] == '$' { p.drop_first() } else { p };
        if p.len() > 0 && p[0] == '$' {
            if r0.len() > 0 && r0[0] == '.' {
                assert(path_body(p) =~= p.skip(2));
            } else {
                assert(path_body(p) =~= p.skip(1));
            }
        } else if p.len() > 0 && p[0] == '.' {
            assert(path_body(p) =~= p.skip(1));
        } else {
            assert(path_body(p) =~= p.skip(0));
        }
        assert(path_body(p) =~= v@.skip(i as int));
    }
    if i < n && v[i] == '.' {
        return Err(PathError::WildcardOrDeepScan);
    }
    let mut segments: Vec<Segment> = Vec::new();
    let ghost mapf = |s: Segment| s@;
    let ghost whole = parse_segments_spec(v@.skip(i as int));
    assert(segments@.map_values(mapf) =~= Seq::<SegmentView>::empty());
    while i < n
        invariant
            v@ == path@,
            n == v@.len(),
            0 <= i <= n,
            mapf == (|s: Segment| s@),
            parse_path_spec(path@) == whole,
            whole == match parse_segments_spec(v@.skip(i as int)) {
                Ok(rest) => Ok(segments@.map_values(mapf) + rest),
                Err(e) => Err(e),
            },
        decreases n - i,
    {
        let ghost s = v@.skip(i as int);
        let ghost before = segments@.map_values(mapf);
        assert(s[0] == v@[i as int]);
        let c = v[i];
        if c == '.' {
            assert(s.drop_first() =~= v@.skip(i + 1));
            i = i + 1;
        } else if c == '[' && i + 1 < n && v[i + 1] == '*' {
            assert(s[1] == v@[i + 1]);
            return Err(PathError::WildcardOrDeepScan);
        } else if c == '[' {
            proof {
                if s.len() > 1 {
                    assert(s[1] == v@[i + 1]);
                }
            }
            let (idx, next) = scan_index(&v, i)?;
            segments.push(Segment::Index(idx));
            proof {
                lemma_index_step(s);
                let (val, len) = index_step(s)->Ok_0;
                assert(s.skip(len) =~= v@.skip(next as int));
                assert(segments@.map_values(mapf) =~= before.push(SegmentView::Index(idx as int)));
                match parse_segments_spec(v@.skip(next as int)) {
                    Ok(rest) => {
                        assert(before + (seq![SegmentView::Index(idx as int)] + rest) =~= segments@.map_values(mapf) + rest);
                    },
                    Err(e) => {},
                }
            }
            i = next;
        } else if c == '*' {
            return Err(PathError::WildcardOrDeepScan);
        } else {
            let mut j = i;
            while j < n && v[j] != '.' && v[j] != '[' && v[j] != '*' && v[j] != '$'
                invariant
                    i <= j <= n,
                    n == v@.len(),
                    forall|k: int| i <= k < j ==> !ends_key(#[trigger] v@[k]),
                decreases n - j,
            {
                j = j + 1;
            }
            proof {
                assert forall|k: int| 0 <= k < j - i implies !ends_key(#[trigger] s[k]) by {
                    assert(s[k] == v@[i + k]);
                }
                if j < n {
                    assert(s[j - i] == v@[j as int]);
                }
                lemma_key_run_at(s, j - i);
            }
            if j == i {
                return Err(PathError::InvalidPath);
            }
            let key = string_of(&v, i, j);
            segments.push(Segment::Key(key));
            proof {
                assert(s.take(j - i) =~= v@.subrange(i as int, j as int));
                assert(s.skip(j - i) =~= v@.skip(j as int));
                assert(segments@.map_values(mapf) =~= before.push(SegmentView::Key(s.take(j - i))));
                match parse_segments_spec(v@.skip(j as int)) {
                    Ok(rest) => {
                        assert(before + (seq![SegmentView::Key(s.take(j - i))] + rest) =~= segments@.map_values(mapf) + rest);
                    },
                    Err(e) => {},
                }
            }
            i = j;
        }
    }
    proof {
        assert(v@.skip(n as int) =~= Seq::<char>::empty());
        assert(segments@.map_values(mapf) + Seq::<SegmentView>::empty() =~= segments@.map_values(mapf));
    }
    Ok(segments)
}

/// Structural key equality: scalars compare by text, nulls are equal,
/// mappings have the same size and every pair of one matches some pair of
/// the other, sequences match element-wise. Styles and metadata are ignored.
pub open spec fn key_equiv(a: CustomNode, b: CustomNode) -> bool
    decreases a, 0int, 0int, 0int,
{
    match a {
        CustomNode::Scalar { value: av, .. } => match b {
            CustomNode::Scalar { value: bv, .. } => av@ == bv@,
            _ => false,
        },
        CustomNode::Null { .. } => b is Null,
        CustomNode::Mapping { pairs: ap, .. } => match b {
            CustomNode::Mapping { pairs: bp, .. } => ap@.len() == bp@.len() && pairs_covered(
                ap@,
                bp@,
                0,
            ),
            _ => false,
        },
        CustomNode::Sequence { items: ai, .. } => match b {
            CustomNode::Sequence { items: bi, .. } => ai@.len() == bi@.len() && items_match(
                ai@,
                bi@,
                0,
            ),
            _ => false,
        },
        CustomNode::Alias { .. } => false,
    }
}

/// Every pair of `ap` from index `i` on matches some pair of `bp`.
pub open spec fn pairs_covered(
    ap: Seq<(CustomNode, CustomNode)>,
    bp: Seq<(CustomNode, CustomNode)>,
    i: int,
) -> bool
    decreases ap, ap.len() - i, 1int, 0int,
{
    if i < 0 || i >= ap.len() {
        true
    } else {
        pair_found(ap, bp, i, 0) && pairs_covered(ap, bp, i + 1)
    }
}

/// Pair `i` of `ap` matches (key and value) some pair of `bp` at index `j` or later.
pub open spec fn pair_found(
    ap: Seq<(CustomNode, CustomNode)>,
    bp: Seq<(CustomNode, CustomNode)>,
    i: int,
    j: int,
) -> bool
    decreases ap, ap.len() - i, 0int, bp.len() - j,
{
    if i < 0 || i >= ap.len() || j < 0 || j >= bp.len() {
        false
    } else {
        (key_equiv(ap[i].0, bp[j].0) && key_equiv(ap[i].1, bp[j].1)) || pair_found(ap, bp, i, j + 1)
    }
}

/// Items of `ai` from index `i` on match the items of `bi` at the same positions.
pub open spec fn items_match(ai: Seq<CustomNode>, bi: Seq<CustomNode>, i: int) -> bool
    decreases ai, ai.len() - i, 0int, 0int,
{
    if i < 0 || i >= ai.len() {
        true
    } else {
        key_equiv(ai[i], bi[i]) && items_match(ai, bi, i + 1)
    }
}

/// Whether two nodes are equal as mapping keys (see `key_equiv`).
#[verifier::loop_isolation(false)]
pub fn key_eq(a: &CustomNode, b: &CustomNode) -> (res: bool)
    ensures
        res == key_equiv(*a, *b),
    decreases a, 0int, 0int, 0int,
{
    match (a, b) {
        (CustomNode::Scalar { value: av, .. }, CustomNode::Scalar { value: bv, .. }) => str_equals(
            av.as_str(),
            bv.as_str(),
        ),
        (CustomNode::Null { .. }, CustomNode::Null { .. }) => true,
        (CustomNode::Mapping { pairs: ap, .. }, CustomNode::Mapping { pairs: bp, .. }) => {
            if ap.len() != bp.len() {
                return false;
            }
            let mut i: usize = 0;
            while i < ap.len()
                invariant
                    0 <= i <= ap@.len(),
                    ap@.len() == bp@.len(),
                    pairs_covered(ap@, bp@, 0) == pairs_covered(ap@, bp@, i as int),
                decreases ap@.len() - i,
            {
                let mut found = false;
                let mut j: usize = 0;
                while j < bp.len()
                    invariant
                        0 <= i < ap@.len(),
                        0 <= j <= bp@.len(),
                        found ==> pair_found(ap@, bp@, i as int, 0),
                        !found ==> pair_found(ap@, bp@, i as int, 0) == pair_found(ap@, bp@, i as int, j as int),
                    decreases bp@.len() - j,
                {
                    if !found && key_eq(&ap[i].0, &bp[j].0) && key_eq(&ap[i].1, &bp[j].1) {
                        found = true;
                    }
                    j = j + 1;
                }
                if !found {
                    return false;
                }
                i = i + 1;
            }
            true
        },
        (CustomNode::Sequence { items: ai, .. }, CustomNode::Sequence { items: bi, .. }) => {
            if ai.len() != bi.len() {
                return false;
            }
            let mut i: usize = 0;
            while i < ai.len()
                invariant
                    0 <= i <= ai@.len(),
                    ai@.len() == bi@.len(),
                    items_match(ai@, bi@, 0) == items_match(ai@, bi@, i as int),
                decreases ai@.len() - i,
            {
                if !key_eq(&ai[i], &bi[i]) {
                    return false;
                }
                i = i + 1;
            }
            true
        },
        _ => false,
    }
}

/// Index of the first pair whose key equals `key` (by `key_equiv`).
pub open spec fn key_index_from(pairs: Seq<(CustomNode, CustomNode)>, key: CustomNode, i: int) -> Option<int>
    decreases pairs.len() - i,
{
    if i >= pairs.len() || i < 0 {
        None
    } else if key_equiv(pairs[i].0, key) {
        Some(i)
    } else {
        key_index_from(pairs, key, i + 1)
    }
}

/// Position of `key` among the keys of a mapping's pairs.
pub fn mapping_key_index(pairs: &Vec<(CustomNode, CustomNode)>, key: &CustomNode) -> (res: Option<usize>)
    ensures
        match res {
            Some(i) => key_index_from(pairs@, *key, 0) == Some(i as int) && i < pairs@.len(),
            None => key_index_from(pairs@, *key, 0) is None,
        },
{
    proof {
        lemma_key_index_from_range(pairs@, *key, 0);
    }
    let mut i: usize = 0;
    while i < pairs.len()
        invariant
            0 <= i <= pairs@.len(),
            key_index_from(pairs@, *key, 0) == key_index_from(pairs@, *key, i as int),
        decreases pairs@.len() - i,
    {
        if key_eq(&pairs[i].0, key) {
            return Some(i);
        }
        i = i + 1;
    }
    None
}

/// What a navigation error denotes.
pub enum NavigateErrorView {
    Missing(Seq<char>),
    CannotDescend(Seq<char>),
    NotContainer,
}

impl View for NavigateError {
    type V = NavigateErrorView;

    open spec fn view(&self) -> NavigateErrorView {
        match self {
            NavigateError::Missing(s) => NavigateErrorView::Missing(s@),
            NavigateError::CannotDescend(s) => NavigateErrorView::CannotDescend(s@),
            NavigateError::NotContainer => NavigateErrorView::NotContainer,
        }
    }
}

/// The text naming a segment in error messages.
pub open spec fn segment_text(seg: SegmentView) -> Seq<char> {
    match seg {
        SegmentView::Key(k) => k,
        SegmentView::Index(i) => signed_decimal(i),
    }
}

/// Index of the first pair whose key is a scalar with text `k`.
pub open spec fn scalar_key_index(pairs: Seq<(CustomNode, CustomNode)>, k: Seq<char>, i: int) -> Option<int>
    decreases pairs.len() - i,
{
    if i >= pairs.len() || i < 0 {
        None
    } else if pairs[i].0 matches CustomNode::Scalar { value, .. } && value@ == k {
        Some(i)
    } else {
        scalar_key_index(pairs, k, i + 1)
    }
}

/// The node reached from `node` by following `segs`: a key selects the value
/// of the first pair whose key is a scalar with that text, an index selects a
/// sequence element (negative indices count from the end). A missing key or
/// index, or a segment applied to the wrong kind of node, is an error naming
/// the segment.
pub open spec fn navigate_spec(node: CustomNode, segs: Seq<SegmentView>) -> Result<CustomNode, NavigateErrorView>
    decreases segs.len(),
{
    if segs.len() == 0 {
        Ok(node)
    } else {
        let rest = segs.drop_first();
        match (node, segs[0]) {
            (CustomNode::Mapping { pairs, .. }, SegmentView::Key(k)) => match scalar_key_index(pairs@, k, 0) {
                Some(i) => navigate_spec(pairs@[i].1, rest),
                None => Err(NavigateErrorView::Missing(k)),
            },
            (CustomNode::Sequence { items, .. }, SegmentView::Index(i)) => match normalize_index_spec(i, items@.len() as int) {
                Some(p) => navigate_spec(items@[p], rest),
                None => Err(NavigateErrorView::Missing(signed_decimal(i))),
            },
            (_, seg) => Err(NavigateErrorView::CannotDescend(segment_text(seg))),
        }
    }
}

/// Views of a list of segments.
pub open spec fn segment_views(segs: Seq<Segment>) -> Seq<SegmentView> {
    segs.map_values(|s: Segment| s@)
}

/// Follow `segments` from `node` (see `navigate_spec`).
pub fn navigate<'a>(node: &'a CustomNode, segments: &[Segment]) -> (res: Result<&'a CustomNode, NavigateError>)
    ensures
        match navigate_spec(*node, segment_views(segments@)) {
            Ok(n) => res matches Ok(r) && *r == n,
            Err(e) => res matches Err(err) && err@ == e,
        },
{
    let ghost segs = segment_views(segments@);
    let mut cur = node;
    let mut i: usize = 0;
    assert(segs.skip(0) =~= segs);
    while i < segments.len()
        invariant
            0 <= i <= segments@.len(),
            segs == segment_views(segments@),
            navigate_spec(*node, segs) == navigate_spec(*cur, segs.skip(i as int)),
        decreases segments@.len() - i,
    {
        let ghost rest = segs.skip(i as int);
        assert(rest[0] == segments@[i as int]@);
        assert(rest.drop_first() =~= segs.skip(i + 1));
        let seg = &segments[i];
        match (cur, seg) {
            (CustomNode::Mapping { pairs, .. }, Segment::Key(k)) => {
                let key_node = CustomNode::plain_scalar(k.as_str());
                let mut j: usize = 0;
                let mut found: Option<usize> = None;
                while j < pairs.len()
                    invariant_except_break
                        0 <= j <= pairs@.len(),
                        found is None,
                        key_node matches CustomNode::Scalar { value, .. } && value@ == k@,
                        scalar_key_index(pairs@, k@, 0) == scalar_key_index(pairs@, k@, j as int),
                    ensures
                        found matches Some(p) ==> p < pairs@.len() && scalar_key_index(pairs@, k@, 0) == Some(p as int),
                        found is None ==> scalar_key_index(pairs@, k@, 0) is None,
                    decreases pairs@.len() - j,
                {
                    if key_eq(&pairs[j].0, &key_node) {
                        found = Some(j);
                        break;
                    }
                    j = j + 1;
                }
                match found {
                    Some(p) => {
                        assert(scalar_key_index(pairs@, k@, 0) == Some(p as int));
                        cur = &pairs[p].1;
                    },
                    None => {
                        return Err(NavigateError::Missing(k.clone()));
                    },
                }
            },
            (CustomNode::Sequence { items, .. }, Segment::Index(idx)) => {
                match normalize_index(*idx, items.len()) {
                    Some(p) => {
                        cur = &items[p];
                    },
                    None => {
                        return Err(NavigateError::Missing(i64_to_string(*idx)));
                    },
                }
            },
            (_, Segment::Key(k)) => {
                return Err(NavigateError::CannotDescend(k.clone()));
            },
            (_, Segment::Index(idx)) => {
                return Err(NavigateError::CannotDescend(i64_to_string(*idx)));
            },
        }
        i = i + 1;
    }
    assert(segs.skip(segments@.len() as int) =~= Seq::<SegmentView>::empty());
    Ok(cur)
}

/// The positions `navigate` passes through: for a key the index of its pair,
/// for an index the item's position; it stops where navigation fails.
pub open spec fn nav_path(node: CustomNode, segs: Seq<SegmentView>) -> Seq<int>
    decreases segs.len(),
{
    if segs.len() == 0 {
        Seq::empty()
    } else {
        let rest = segs.drop_first();
        match (node, segs[0]) {
            (CustomNode::Mapping { pairs, .. }, SegmentView::Key(k)) => match scalar_key_index(pairs@, k, 0) {
                Some(i) => seq![i] + nav_path(pairs@[i].1, rest),
                None => Seq::empty(),
            },
            (CustomNode::Sequence { items, .. }, SegmentView::Index(i)) => match normalize_index_spec(
                i,
                items@.len() as int,
            ) {
                Some(p) => seq![p] + nav_path(items@[p], rest),
                None => Seq::empty(),
            },
            _ => Seq::empty(),
        }
    }
}

/// The tree `t` with the subtree at `path` (pair values and items) replaced
/// by `sub`.
pub open spec fn put_at(t: Tree, path: Seq<int>, sub: Tree) -> Tree
    decreases path.len(),
{
    if path.len() == 0 {
        sub
    } else {
        let p = path[0];
        match t {
            Tree::Mapping { pairs, flow, meta } => if 0 <= p < pairs.len() {
                Tree::Mapping {
                    pairs: pairs.update(p, (pairs[p].0, put_at(pairs[p].1, path.drop_first(), sub))),
                    flow,
                    meta,
                }
            } else {
                t
            },
            Tree::Sequence { items, flow, meta } => if 0 <= p < items.len() {
                Tree::Sequence {
                    items: items.update(p, put_at(items[p], path.drop_first(), sub)),
                    flow,
                    meta,
                }
            } else {
                t
            },
            _ => t,
        }
    }
}

proof fn lemma_pairs_tree_update(ps: Seq<(CustomNode, CustomNode)>, i: int, x: (CustomNode, CustomNode))
    requires
        0 <= i < ps.len(),
    ensures
        pairs_tree(ps.update(i, x)) == pairs_tree(ps).update(i, (tree_of(x.0), tree_of(x.1))),
{
    assert(pairs_tree(ps.update(i, x)) =~= pairs_tree(ps).update(i, (tree_of(x.0), tree_of(x.1))));
}

proof fn lemma_items_tree_update(xs: Seq<CustomNode>, i: int, x: CustomNode)
    requires
        0 <= i < xs.len(),
    ensures
        items_tree(xs.update(i, x)) == items_tree(xs).update(i, tree_of(x)),
{
    assert(items_tree(xs.update(i, x)) =~= items_tree(xs).update(i, tree_of(x)));
}

/// Position of the first pair whose key is a scalar with text `k`.
pub(crate) fn find_scalar_key(pairs: &Vec<(CustomNode, CustomNode)>, k: &String) -> (res: Option<usize>)
    ensures
        match res {
            Some(p) => p < pairs@.len() && scalar_key_index(pairs@, k@, 0) == Some(p as int),
            None => scalar_key_index(pairs@, k@, 0) is None,
        },
{
    let key_node = CustomNode::plain_scalar(k.as_str());
    let mut j: usize = 0;
    while j < pairs.len()
        invariant
            0 <= j <= pairs@.len(),
            key_node matches CustomNode::Scalar { value, .. } && value@ == k@,
            scalar_key_index(pairs@, k@, 0) == scalar_key_index(pairs@, k@, j as int),
        decreases pairs@.len() - j,
    {
        if key_eq(&pairs[j].0, &key_node) {
            return Some(j);
        }
        j = j + 1;
    }
    None
}

/// The value of the first pair whose key equals `key` (by `key_eq`), to be
/// changed in place.
pub fn mapping_get_mut<'a>(pairs: &'a mut Vec<(CustomNode, CustomNode)>, key: &CustomNode) -> (res: Option<
    &'a mut CustomNode,
>)
    ensures
        match key_index_from(old(pairs)@, *key, 0) {
            Some(i) => res matches Some(r) && *r == old(pairs)@[i].1 && 0 <= i < old(pairs)@.len()
                && final(pairs)@ == old(pairs)@.update(i, (old(pairs)@[i].0, *final(r))),
            None => res is None && final(pairs)@ == old(pairs)@,
        },
{
    match mapping_key_index(pairs, key) {
        Some(i) => {
            proof {
                lemma_key_index_from_range(old(pairs)@, *key, 0);
            }
            assert(key_index_from(old(pairs)@, *key, 0) == Some(i as int));
            let entry = &mut pairs[i];
            assert(*entry == old(pairs)@[i as int]);
            let r = &mut entry.1;
            assert(*r == old(pairs)@[i as int].1);
            Some(r)
        },
        None => None,
    }
}

/// The index found by `key_index_from` lies in range.
proof fn lemma_key_index_from_range(pairs: Seq<(CustomNode, CustomNode)>, key: CustomNode, i: int)
    ensures
        key_index_from(pairs, key, i) matches Some(k) ==> i <= k < pairs.len(),
    decreases pairs.len() - i,
{
    if 0 <= i < pairs.len() && !key_equiv(pairs[i].0, key) {
        lemma_key_index_from_range(pairs, key, i + 1);
    }
}

/// The value of pair `p`, to be changed in place.
fn pair_value_at<'a>(pairs: &'a mut Vec<(CustomNode, CustomNode)>, p: usize) -> (r: &'a mut CustomNode)
    requires
        p < old(pairs)@.len(),
    ensures
        *r == old(pairs)@[p as int].1,
        final(pairs)@ == old(pairs)@.update(p as int, (old(pairs)@[p as int].0, *final(r))),
{
    let entry = &mut pairs[p];
    &mut entry.1
}

/// Where one segment leads from `node`: the pair or item position, if any.
fn step_index(node: &CustomNode, seg: &Segment) -> (res: Option<usize>)
    ensures
        match (*node, seg@) {
            (CustomNode::Mapping { pairs, .. }, SegmentView::Key(k)) => match res {
                Some(p) => p < pairs@.len() && scalar_key_index(pairs@, k, 0) == Some(p as int),
                None => scalar_key_index(pairs@, k, 0) is None,
            },
            (CustomNode::Sequence { items, .. }, SegmentView::Index(i)) => match res {
                Some(p) => p < items@.len() && normalize_index_spec(i, items@.len() as int) == Some(p as int),
                None => normalize_index_spec(i, items@.len() as int) is None,
            },
            _ => res is None,
        },
{
    match (node, seg) {
        (CustomNode::Mapping { pairs, .. }, Segment::Key(k)) => find_scalar_key(pairs, k),
        (CustomNode::Sequence { items, .. }, Segment::Index(idx)) => normalize_index(*idx, items.len()),
        _ => None,
    }
}

fn nav_mut_from<'a>(node: &'a mut CustomNode, segments: &[Segment], i: usize) -> (res: Result<
    &'a mut CustomNode,
    NavigateError,
>)
    requires
        i <= segments@.len(),
    ensures
        match navigate_spec(*old(node), segment_views(segments@).skip(i as int)) {
            Ok(n) => res matches Ok(r) && *r == n,
            Err(e) => res matches Err(err) && err@ == e,
        },
        res matches Ok(r) ==> tree_of(*final(node)) == put_at(
                tree_of(*old(node)),
                nav_path(*old(node), segment_views(segments@).skip(i as int)),
                tree_of(*final(r)),
            ),
        res is Err ==> tree_of(*final(node)) == tree_of(*old(node)),
    decreases segments@.len() - i,
{
    let ghost segs = segment_views(segments@).skip(i as int);
    if i >= segments.len() {
        assert(segs.len() == 0);
        return Ok(node);
    }
    assert(segs[0] == segments@[i as int]@);
    assert(segs.drop_first() =~= segment_views(segments@).skip(i + 1));
    let seg = &segments[i];
    let ghost n0 = *node;
    let ghost rest = segs.drop_first();
    match step_index(node, seg) {
        None => {
            return match (&*node, seg) {
                (CustomNode::Mapping { .. }, Segment::Key(k)) => Err(NavigateError::Missing(k.clone())),
                (CustomNode::Sequence { .. }, Segment::Index(idx)) => Err(
                    NavigateError::Missing(i64_to_string(*idx)),
                ),
                (_, Segment::Key(k)) => Err(NavigateError::CannotDescend(k.clone())),
                (_, Segment::Index(idx)) => Err(NavigateError::CannotDescend(i64_to_string(*idx))),
            };
        },
        Some(p) => match node {
            CustomNode::Mapping { pairs, .. } => {
                let ghost op = pairs@;
                let child = pair_value_at(pairs, p);
                proof {
                    lemma_pairs_tree_update(op, p as int, (op[p as int].0, *final(child)));
                    let tail = nav_path(op[p as int].1, rest);
                    assert(nav_path(n0, segs) == seq![p as int] + tail);
                    assert((seq![p as int] + tail).drop_first() =~= tail);
                    assert((seq![p as int] + tail)[0] == p);
                    assert(pairs_tree(op)[p as int] == (tree_of(op[p as int].0), tree_of(op[p as int].1)));
                    assert forall|x: Tree| x == tree_of(op[p as int].1) implies #[trigger] pairs_tree(op).update(
                        p as int,
                        (tree_of(op[p as int].0), x),
                    ) == pairs_tree(op) by {
                        assert(pairs_tree(op).update(p as int, (tree_of(op[p as int].0), x)) =~= pairs_tree(op));
                    }
                }
                nav_mut_from(child, segments, i + 1)
            },
            CustomNode::Sequence { items, .. } => {
                let ghost oi = items@;
                let child = &mut items[p];
                proof {
                    lemma_items_tree_update(oi, p as int, *final(child));
                    let tail = nav_path(oi[p as int], rest);
                    assert(nav_path(n0, segs) == seq![p as int] + tail);
                    assert((seq![p as int] + tail).drop_first() =~= tail);
                    assert((seq![p as int] + tail)[0] == p);
                    assert(items_tree(oi)[p as int] == tree_of(oi[p as int]));
                    assert forall|x: Tree| x == tree_of(oi[p as int]) implies #[trigger] items_tree(oi).update(
                        p as int,
                        x,
                    ) == items_tree(oi) by {
                        assert(items_tree(oi).update(p as int, x) =~= items_tree(oi));
                    }
                }
                nav_mut_from(child, segments, i + 1)
            },
            _ => Err(NavigateError::NotContainer),
        },
    }
}

/// Follow `segments` from `node` like `navigate`, handing out the node found
/// to be changed in place; what is written there shows up at that place of
/// the tree, and nothing else changes.
pub fn navigate_mut<'a>(node: &'a mut CustomNode, segments: &[Segment]) -> (res: Result<
    &'a mut CustomNode,
    NavigateError,
>)
    ensures
        match navigate_spec(*old(node), segment_views(segments@)) {
            Ok(n) => res matches Ok(r) && *r == n && tree_of(*final(node)) == put_at(
                tree_of(*old(node)),
                nav_path(*old(node), segment_views(segments@)),
                tree_of(*final(r)),
            ),
            Err(e) => res matches Err(err) && err@ == e && tree_of(*final(node)) == tree_of(*old(node)),
        },
{
    assert(segment_views(segments@).skip(0) =~= segment_views(segments@));
    nav_mut_from(node, segments, 0)
}

/// Position of the first pair whose key is a scalar tree with text `k`.
pub open spec fn tree_key_pos(ps: Seq<(Tree, Tree)>, k: Seq<char>, i: int) -> Option<int>
    decreases ps.len() - i,
{
    if i < 0 || i >= ps.len() {
        None
    } else if ps[i].0 matches Tree::Scalar { value, .. } && value == k {
        Some(i)
    } else {
        tree_key_pos(ps, k, i + 1)
    }
}

/// `navigate_spec` on trees.
pub open spec fn tree_nav(t: Tree, segs: Seq<SegmentView>) -> Result<Tree, NavigateErrorView>
    decreases segs.len(),
{
    if segs.len() == 0 {
        Ok(t)
    } else {
        let rest = segs.drop_first();
        match (t, segs[0]) {
            (Tree::Mapping { pairs, .. }, SegmentView::Key(k)) => match tree_key_pos(pairs, k, 0) {
                Some(i) => tree_nav(pairs[i].1, rest),
                None => Err(NavigateErrorView::Missing(k)),
            },
            (Tree::Sequence { items, .. }, SegmentView::Index(i)) => match normalize_index_spec(
                i,
                items.len() as int,
            ) {
                Some(p) => tree_nav(items[p], rest),
                None => Err(NavigateErrorView::Missing(signed_decimal(i))),
            },
            (_, seg) => Err(NavigateErrorView::CannotDescend(segment_text(seg))),
        }
    }
}

/// `nav_path` on trees.
pub open spec fn tree_nav_path(t: Tree, segs: Seq<SegmentView>) -> Seq<int>
    decreases segs.len(),
{
    if segs.len() == 0 {
        Seq::empty()
    } else {
        let rest = segs.drop_first();
        match (t, segs[0]) {
            (Tree::Mapping { pairs, .. }, SegmentView::Key(k)) => match tree_key_pos(pairs, k, 0) {
                Some(i) => seq![i] + tree_nav_path(pairs[i].1, rest),
                None => Seq::empty(),
            },
            (Tree::Sequence { items, .. }, SegmentView::Index(i)) => match normalize_index_spec(
                i,
                items.len() as int,
            ) {
                Some(p) => seq![p] + tree_nav_path(items[p], rest),
                None => Seq::empty(),
            },
            _ => Seq::empty(),
        }
    }
}

pub(crate) proof fn lemma_key_pos_tree(ps: Seq<(CustomNode, CustomNode)>, k: Seq<char>, i: int)
    ensures
        scalar_key_index(ps, k, i) == tree_key_pos(pairs_tree(ps), k, i),
        scalar_key_index(ps, k, i) matches Some(j) ==> i <= j < ps.len(),
    decreases ps.len() - i,
{
    if 0 <= i < ps.len() {
        assert(pairs_tree(ps)[i] == (tree_of(ps[i].0), tree_of(ps[i].1)));
        lemma_key_pos_tree(ps, k, i + 1);
    }
}

/// Navigation on a node and on its tree agree.
pub(crate) proof fn lemma_nav_tree(n: CustomNode, segs: Seq<SegmentView>)
    ensures
        match navigate_spec(n, segs) {
            Ok(m) => tree_nav(tree_of(n), segs) == Ok::<Tree, NavigateErrorView>(tree_of(m)),
            Err(e) => tree_nav(tree_of(n), segs) == Err::<Tree, NavigateErrorView>(e),
        },
        nav_path(n, segs) == tree_nav_path(tree_of(n), segs),
    decreases segs.len(),
{
    if segs.len() > 0 {
        let rest = segs.drop_first();
        match (n, segs[0]) {
            (CustomNode::Mapping { pairs, .. }, SegmentView::Key(k)) => {
                lemma_key_pos_tree(pairs@, k, 0);
                match scalar_key_index(pairs@, k, 0) {
                    Some(i) => {
                        assert(pairs_tree(pairs@)[i] == (tree_of(pairs@[i].0), tree_of(pairs@[i].1)));
                        lemma_nav_tree(pairs@[i].1, rest);
                    },
                    None => {},
                }
            },
            (CustomNode::Sequence { items, .. }, SegmentView::Index(i)) => {
                match normalize_index_spec(i, items@.len() as int) {
                    Some(p) => {
                        if 0 <= p < items@.len() {
                            assert(items_tree(items@)[p] == tree_of(items@[p]));
                        }
                        lemma_nav_tree(items@[p], rest);
                    },
                    None => {},
                }
            },
            _ => {},
        }
    }
}

pub(crate) proof fn lemma_key_pos_update(ps: Seq<(Tree, Tree)>, k: Seq<char>, i: int, j: int, v: Tree)
    requires
        0 <= j < ps.len(),
    ensures
        tree_key_pos(ps.update(j, (ps[j].0, v)), k, i) == tree_key_pos(ps, k, i),
    decreases ps.len() - i,
{
    if 0 <= i < ps.len() {
        lemma_key_pos_update(ps, k, i + 1, j, v);
    }
}

proof fn lemma_key_pos_range(ps: Seq<(Tree, Tree)>, k: Seq<char>, i: int)
    ensures
        tree_key_pos(ps, k, i) matches Some(j) ==> i <= j < ps.len(),
    decreases ps.len() - i,
{
    if 0 <= i < ps.len() {
        lemma_key_pos_range(ps, k, i + 1);
    }
}

/// On trees: writing at the place navigation reaches, then navigating
/// again, finds what was written.
pub(crate) proof fn lemma_tree_read_back(t: Tree, segs: Seq<SegmentView>, sub: Tree)
    requires
        tree_nav(t, segs) is Ok,
    ensures
        tree_nav(put_at(t, tree_nav_path(t, segs), sub), segs) == Ok::<Tree, NavigateErrorView>(sub),
    decreases segs.len(),
{
    if segs.len() > 0 {
        let rest = segs.drop_first();
        match (t, segs[0]) {
            (Tree::Mapping { pairs, flow, meta }, SegmentView::Key(k)) => {
                lemma_key_pos_range(pairs, k, 0);
                let i = tree_key_pos(pairs, k, 0)->0;
                let tail = tree_nav_path(pairs[i].1, rest);
                let path = seq![i] + tail;
                assert(path.drop_first() =~= tail);
                assert(path[0] == i);
                let newv = put_at(pairs[i].1, tail, sub);
                lemma_key_pos_update(pairs, k, 0, i, newv);
                lemma_tree_read_back(pairs[i].1, rest, sub);
            },
            (Tree::Sequence { items, flow, meta }, SegmentView::Index(i)) => {
                let p = normalize_index_spec(i, items.len() as int)->0;
                let tail = tree_nav_path(items[p], rest);
                let path = seq![p] + tail;
                assert(path.drop_first() =~= tail);
                assert(path[0] == p);
                lemma_tree_read_back(items[p], rest, sub);
            },
            _ => {},
        }
    }
}

/// What is written through `navigate_mut` is what `navigate` then finds on
/// the same path.
pub proof fn law_navigate_mut_read_back(old_node: CustomNode, segs: Seq<SegmentView>, written: CustomNode, new_node: CustomNode)
    requires
        navigate_spec(old_node, segs) is Ok,
        tree_of(new_node) == put_at(tree_of(old_node), nav_path(old_node, segs), tree_of(written)),
    ensures
        navigate_spec(new_node, segs) matches Ok(m) && tree_of(m) == tree_of(written),
{
    lemma_nav_tree(old_node, segs);
    lemma_tree_read_back(tree_of(old_node), segs, tree_of(written));
    lemma_nav_tree(new_node, segs);
}

/// Whether no character of `k` ends a key.
pub open spec fn plain_key(k: Seq<char>) -> bool {
    forall|i: int| 0 <= i < k.len() ==> #[trigger] k[i] != '.' && k[i] != '[' && k[i] != '*' && k[i] != '$'
}

proof fn lemma_key_run_plain(k: Seq<char>, r: Seq<char>)
    requires
        plain_key(k),
        r.len() == 0 || ends_key(r[0]),
    ensures
        key_run(k + r) == k.len(),
    decreases k.len(),
{
    if k.len() > 0 {
        assert((k + r)[0] == k[0]);
        assert((k + r).drop_first() =~= k.drop_first() + r);
        lemma_key_run_plain(k.drop_first(), r);
    } else {
        assert(k + r =~= r);
    }
}

proof fn lemma_parse_plain_key(k: Seq<char>, r: Seq<char>)
    requires
        k.len() > 0,
        plain_key(k),
        r.len() == 0 || ends_key(r[0]),
    ensures
        parse_segments_spec(k + r) == cons_seg(SegmentView::Key(k), parse_segments_spec(r)),
{
    lemma_key_run_plain(k, r);
    let s = k + r;
    assert(s[0] == k[0]);
    assert(s.take(k.len() as int) =~= k);
    assert(s.skip(k.len() as int) =~= r);
}

/// A key runs up to the next `.`, `[`, `*` or `$` only: a non-empty key `k`
/// free of those four characters parses, after `$.` or on its own, to
/// exactly that key, and `$.k.k2` to the two keys in order.
pub proof fn law_plain_key_path(k: Seq<char>, k2: Seq<char>)
    requires
        k.len() > 0,
        plain_key(k),
        k2.len() > 0,
        plain_key(k2),
    ensures
        parse_path_spec(seq!['$', '.'] + k) == Ok::<Seq<SegmentView>, PathErrorView>(seq![SegmentView::Key(k)]),
        parse_path_spec(k) == Ok::<Seq<SegmentView>, PathErrorView>(seq![SegmentView::Key(k)]),
        parse_path_spec(seq!['$', '.'] + k + seq!['.'] + k2) == Ok::<Seq<SegmentView>, PathErrorView>(seq![SegmentView::Key(k), SegmentView::Key(k2)]),
{
    let e = Seq::<char>::empty();
    assert(parse_segments_spec(e) == Ok::<Seq<SegmentView>, PathErrorView>(Seq::<SegmentView>::empty()));
    lemma_parse_plain_key(k, e);
    assert(k + e =~= k);
    assert(seq![SegmentView::Key(k)] + Seq::<SegmentView>::empty() =~= seq![SegmentView::Key(k)]);
    let p1 = seq!['$', '.'] + k;
    assert(k[0] != '.' && k[0] != '$');
    assert(path_body(p1) =~= k);
    assert(path_body(k) =~= k);
    lemma_parse_plain_key(k2, e);
    assert(k2 + e =~= k2);
    let r = seq!['.'] + k2;
    assert(r.drop_first() =~= k2);
    assert(parse_segments_spec(r) == parse_segments_spec(k2));
    lemma_parse_plain_key(k, r);
    let p2 = seq!['$', '.'] + k + seq!['.'] + k2;
    assert(path_body(p2) =~= k + r);
    assert(seq![SegmentView::Key(k)] + seq![SegmentView::Key(k2)] =~= seq![SegmentView::Key(k), SegmentView::Key(k2)]);
}

proof fn lemma_digit_run_of(ds: Seq<char>, r: Seq<char>)
    requires
        forall|i: int| 0 <= i < ds.len() ==> '0' <= #[trigger] ds[i] <= '9',
        r.len() == 0 || !is_digit(r[0]),
    ensures
        digit_run(ds + r) == ds.len(),
    decreases ds.len(),
{
    if ds.len() > 0 {
        assert((ds + r)[0] == ds[0]);
        assert((ds + r).drop_first() =~= ds.drop_first() + r);
        assert forall|i: int| 0 <= i < ds.drop_first().len() implies '0' <= #[trigger] ds.drop_first()[i] <= '9' by {
            assert(ds.drop_first()[i] == ds[i + 1]);
        }
        lemma_digit_run_of(ds.drop_first(), r);
    } else {
        assert(ds + r =~= r);
    }
}

proof fn lemma_digit_char_offset(d: nat)
    requires
        d < 10,
    ensures
        crate::text::digit_char(d) as int - '0' as int == d,
{
}

proof fn lemma_decimal_value(n: nat)
    ensures
        digits_value(decimal(n)) == n,
    decreases n,
{
    lemma_decimal_digits(n);
    lemma_digit_char_offset(n % 10);
    let d = decimal(n);
    if n >= 10 {
        lemma_decimal_value(n / 10);
        assert(d.drop_last() =~= decimal(n / 10));
        assert(d.last() == crate::text::digit_char(n % 10));
        vstd::arithmetic::div_mod::lemma_fundamental_div_mod(n as int, 10);
        assert(digits_value(d) == digits_value(d.drop_last()) * 10 + (d.last() as int - '0' as int));
    } else {
        assert(d.drop_last() =~= Seq::<char>::empty());
        assert(d.last() == crate::text::digit_char(n));
        assert(n % 10 == n);
        assert(digits_value(d) == digits_value(d.drop_last()) * 10 + (d.last() as int - '0' as int));
    }
}

/// `[n]` on its own parses to index `n`.
proof fn lemma_index_segment(n: int)
    requires
        i64::MIN <= n <= i64::MAX,
    ensures
        parse_segments_spec(seq!['['] + signed_decimal(n) + seq![']']) == Ok::<Seq<SegmentView>, PathErrorView>(
            seq![SegmentView::Index(n)],
        ),
{
    let m: nat = if n < 0 { (-n) as nat } else { n as nat };
    let d = decimal(m);
    lemma_decimal_digits(m);
    lemma_decimal_value(m);
    let r = seq!['['] + signed_decimal(n) + seq![']'];
    let a = r.drop_first();
    assert(a =~= signed_decimal(n) + seq![']']);
    let b = d + seq![']'];
    if n < 0 {
        assert(a[0] == '-');
        assert(a.drop_first() =~= b);
    } else {
        assert(a =~= b);
        assert('0' <= a[0] <= '9');
    }
    lemma_digit_run_of(d, seq![']']);
    assert(b.take(d.len() as int) =~= d);
    assert(b.skip(d.len() as int) =~= seq![']']);
    assert(index_step(r) == Ok::<(int, int), PathErrorView>((n, 2 + d.len() + if n < 0 { 1int } else { 0int })));
    assert(r.len() == 2 + d.len() + if n < 0 { 1int } else { 0int });
    assert(r.skip(r.len() as int) =~= Seq::<char>::empty());
    assert(r[1] != '*');
    assert(parse_segments_spec(Seq::<char>::empty()) == Ok::<Seq<SegmentView>, PathErrorView>(
        Seq::<SegmentView>::empty(),
    ));
    assert(seq![SegmentView::Index(n)] + Seq::<SegmentView>::empty() =~= seq![SegmentView::Index(n)]);
}

/// An index segment is `[`, the decimal spelling of an `i64` (a `-` before
/// the digits of a negative one), and `]`: after a key `k`, `$.k[n]` parses
/// to the key, then index `n`.
pub proof fn law_index_path(k: Seq<char>, n: int)
    requires
        k.len() > 0,
        plain_key(k),
        i64::MIN <= n <= i64::MAX,
    ensures
        parse_path_spec(seq!['$', '.'] + k + seq!['['] + signed_decimal(n) + seq![']']) == Ok::<
            Seq<SegmentView>,
            PathErrorView,
        >(seq![SegmentView::Key(k), SegmentView::Index(n)]),
{
    let r = seq!['['] + signed_decimal(n) + seq![']'];
    lemma_index_segment(n);
    lemma_parse_plain_key(k, r);
    let p = seq!['$', '.'] + k + seq!['['] + signed_decimal(n) + seq![']'];
    assert(k[0] != '.' && k[0] != '$');
    assert(path_body(p) =~= k + r);
    assert(seq![SegmentView::Key(k)] + seq![SegmentView::Index(n)] =~= seq![SegmentView::Key(k), SegmentView::Index(n)]);
}

} // verus!
