//! Structural validation of a document tree against schema rules: which
//! paths must exist, and which types scalars, sequence elements and mapping
//! values must resolve to.
use crate::ast::CustomNode;
use crate::comment::{lines_of, newline_from};
use crate::navigate::{navigate, navigate_spec, segment_views, Segment, SegmentView};
use crate::scalar_fmt::{
    chars_within, chars_within_of, lemma_chars_within, lemma_lines_of_step, lemma_utf8_take,
    lemma_utf8_take_le, line_end_at, next_line_at,
};
use crate::schema::{parse_i64_radix, parse_i64_spec};
use crate::registry::{SchemaKind, SchemaResolver};
use crate::schema::{YamlType, YamlTypeView};
use crate::schema_language::{RuleResolver, YamlTypeKind};
use crate::text::{decimal, usize_to_string};
use crate::text::{chars_of, push_char, string_from, string_of, utf8_len};
use std::ops::Range;
use vstd::prelude::*;
use vstd::string::*;

verus! {

/// The kind of structural validation a [`ValidateRule`] performs.
#[derive(Debug, Clone, Copy, PartialEq, Eq, Structural)]
pub enum ValidateKind {
    /// Scalar value at this path must resolve to the given type.
    Type(YamlTypeKind),
    /// Sequence at this path must contain only elements of the given type.
    SequenceOf(YamlTypeKind),
    /// Mapping at this path must have values of the given type.
    MappingOf(YamlTypeKind),
    /// Path must exist (non-null).
    Required,
}

/// A structural validation rule: applies to a specific path (or to every
/// node if `path` is `None`) and checks type or structure.
#[derive(Debug)]
pub struct ValidateRule {
    /// Path such as `$.port` or `$.tags[*]`; `None` applies everywhere.
    pub path: Option<String>,
    pub kind: ValidateKind,
    /// When `true`, the path must hold a non-null value.
    pub required: bool,
}

impl Clone for ValidateRule {
    fn clone(&self) -> (res: Self)
        ensures
            res == *self,
    {
        ValidateRule {
            path: match &self.path {
                Some(p) => Some(p.clone()),
                None => None,
            },
            kind: self.kind,
            required: self.required,
        }
    }
}

impl ValidateRule {
    /// A rule for `path` (or every node) of the given kind, not required.
    pub fn new(path: Option<&str>, kind: ValidateKind) -> (res: Self)
        ensures
            match path {
                Some(p) => res.path matches Some(q) && q@ == p@,
                None => res.path is None,
            },
            res.kind == kind,
            !res.required,
    {
        ValidateRule {
            path: match path {
                Some(p) => Some(string_from(p)),
                None => None,
            },
            kind,
            required: false,
        }
    }

    /// The same rule with `required` set as given.
    pub fn with_required(self, required: bool) -> (res: Self)
        ensures
            res.path == self.path,
            res.kind == self.kind,
            res.required == required,
    {
        let mut r = self;
        r.required = required;
        r
    }
}

/// Index of the first `[*]` of `s` at or after `i`, or `s.len()`.
pub open spec fn find_star(s: Seq<char>, i: int) -> int
    decreases s.len() - i,
{
    if i < 0 || i + 3 > s.len() {
        s.len() as int
    } else if s[i] == '[' && s[i + 1] == '*' && s[i + 2] == ']' {
        i
    } else {
        find_star(s, i + 1)
    }
}

pub proof fn lemma_find_star(s: Seq<char>, i: int)
    requires
        0 <= i,
    ensures
        i <= find_star(s, i) <= s.len() || find_star(s, i) == s.len(),
        find_star(s, i) < s.len() ==> find_star(s, i) + 3 <= s.len(),
    decreases s.len() - i,
{
    if !(i + 3 > s.len()) && !(s[i] == '[' && s[i + 1] == '*' && s[i + 2] == ']') {
        lemma_find_star(s, i + 1);
    }
}

/// Whether a rule's path pattern applies to a concrete path: no pattern
/// applies everywhere; otherwise the texts are equal, or the pattern has
/// exactly one `[*]` and the path starts with the text before it, ends with
/// the text after it, and has something in between.
pub open spec fn path_matches_spec(pattern: Option<Seq<char>>, actual: Seq<char>) -> bool {
    match pattern {
        None => true,
        Some(p) => p == actual || {
            let f = find_star(p, 0);
            &&& f < p.len()
            &&& find_star(p, f + 3) == p.len()
            &&& {
                let prefix = p.take(f);
                let suffix = p.skip(f + 3);
                &&& prefix.len() <= actual.len()
                &&& actual.take(prefix.len() as int) == prefix
                &&& suffix.len() <= actual.len()
                &&& actual.skip(actual.len() - suffix.len()) == suffix
                &&& actual.len() > prefix.len() + suffix.len()
            }
        },
    }
}

/// Index of the first `[*]` of `v` at or after `i`.
fn find_star_of(v: &Vec<char>, i: usize) -> (res: usize)
    requires
        i <= v@.len(),
    ensures
        res == find_star(v@, i as int),
{
    let mut j = i;
    while v.len() - j >= 3 && !(v[j] == '[' && v[j + 1] == '*' && v[j + 2] == ']')
        invariant
            i <= j <= v@.len(),
            find_star(v@, i as int) == find_star(v@, j as int),
        decreases v@.len() - j,
    {
        j = j + 1;
    }
    if v.len() - j >= 3 {
        j
    } else {
        v.len()
    }
}

/// Whether `a[0..k]` equals `b[lo..lo + k]`.
fn same_chars(a: &Vec<char>, b: &Vec<char>, lo: usize, k: usize) -> (res: bool)
    requires
        k <= a@.len(),
        lo + k <= b@.len(),
    ensures
        res == (a@.take(k as int) == b@.subrange(lo as int, lo + k)),
{
    let mut i: usize = 0;
    while i < k
        invariant
            0 <= i <= k,
            k <= a@.len(),
            lo + k <= b.len(),
            forall|j: int| 0 <= j < i ==> a@[j] == b@[lo + j],
        decreases k - i,
    {
        if a[i] != b[lo + i] {
            assert(a@.take(k as int)[i as int] != b@.subrange(lo as int, lo + k)[i as int]);
            return false;
        }
        i = i + 1;
    }
    assert(a@.take(k as int) =~= b@.subrange(lo as int, lo + k));
    true
}

/// Whether a concrete path (e.g. `$.tags[0]`) matches a pattern path
/// (e.g. `$.tags[*]`); no pattern matches everything.
pub fn path_matches(pattern: Option<&str>, actual: &str) -> (res: bool)
    ensures
        res == path_matches_spec(
            match pattern {
                Some(p) => Some(p@),
                None => None,
            },
            actual@,
        ),
{
    let pat = match pattern {
        Some(p) => p,
        None => {
            return true;
        },
    };
    if crate::text::str_equals(pat, actual) {
        return true;
    }
    let p = chars_of(pat);
    let a = chars_of(actual);
    let f = find_star_of(&p, 0);
    proof {
        lemma_find_star(p@, 0);
    }
    if f >= p.len() {
        return false;
    }
    proof {
        lemma_find_star(p@, f + 3);
    }
    if find_star_of(&p, f + 3) != p.len() {
        return false;
    }
    let plen = f;
    let slen = p.len() - (f + 3);
    if plen > a.len() || slen > a.len() {
        return false;
    }
    let ok_prefix = same_chars(&p, &a, 0, plen);
    let suffix = {
        let mut t: Vec<char> = Vec::new();
        let mut k = f + 3;
        while k < p.len()
            invariant
                f + 3 <= k <= p@.len(),
                t@ == p@.subrange(f + 3, k as int),
            decreases p@.len() - k,
        {
            t.push(p[k]);
            assert(t@ =~= p@.subrange(f + 3, k + 1));
            k = k + 1;
        }
        t
    };
    let ok_suffix = same_chars(&suffix, &a, a.len() - slen, slen);
    proof {
        assert(p@.take(f as int) =~= p@.take(plen as int));
        assert(a@.subrange(0, plen as int) =~= a@.take(plen as int));
        assert(suffix@ =~= p@.skip(f + 3));
        assert(suffix@.take(slen as int) =~= suffix@);
        assert(a@.subrange(a@.len() - slen, a@.len() - slen + slen) =~= a@.skip(a@.len() - slen));
    }
    ok_prefix && ok_suffix && a.len() > plen + slen
}

/// The result of reading a rule path into navigation segments.
pub enum RulePath {
    /// The segments of the path.
    Segs(Seq<SegmentView>),
    /// Not a navigable path (no `$.` start, a `[*]`, or a bad index).
    NoPath,
}

/// The segments so far, with the pending key added when not empty.
pub open spec fn flush_key(acc: Seq<SegmentView>, cur: Seq<char>) -> Seq<SegmentView> {
    if cur.len() > 0 {
        acc.push(SegmentView::Key(cur))
    } else {
        acc
    }
}

/// Index of the first `]` of `s` after `i`, if any.
pub open spec fn close_after(s: Seq<char>, i: int) -> Option<int>
    decreases s.len() - i,
{
    if i < 0 || i >= s.len() {
        None
    } else if s[i] == ']' {
        Some(i)
    } else {
        close_after(s, i + 1)
    }
}

pub proof fn lemma_close_after(s: Seq<char>, i: int)
    requires
        0 <= i,
    ensures
        match close_after(s, i) {
            Some(c) => i <= c < s.len() && s[c] == ']',
            None => true,
        },
    decreases s.len() - i,
{
    if 0 <= i < s.len() && s[i] != ']' {
        lemma_close_after(s, i + 1);
    }
}

/// Reading the rest of a rule path from position `i`: `.` ends a key, `[n]`
/// is an index, other characters build a key.
pub open spec fn scan_rule_path(rest: Seq<char>, i: int, cur: Seq<char>, acc: Seq<SegmentView>) -> RulePath
    decreases rest.len() - i,
{
    if i < 0 || i >= rest.len() {
        RulePath::Segs(flush_key(acc, cur))
    } else {
        let c = rest[i];
        if c == '.' {
            scan_rule_path(rest, i + 1, seq![], flush_key(acc, cur))
        } else if c == '[' {
            match close_after(rest, i + 1) {
                None => RulePath::NoPath,
                Some(close) => {
                    let inner = rest.subrange(i + 1, close);
                    if inner == seq!['*'] {
                        RulePath::NoPath
                    } else {
                        match parse_i64_spec(inner, 10) {
                            None => RulePath::NoPath,
                            Some(n) => {
                                proof {
                                    lemma_close_after(rest, i + 1);
                                }
                                scan_rule_path(
                                    rest,
                                    close + 1,
                                    seq![],
                                    flush_key(acc, cur).push(SegmentView::Index(n)),
                                )
                            },
                        }
                    }
                },
            }
        } else {
            scan_rule_path(rest, i + 1, cur.push(c), acc)
        }
    }
}

/// A rule path `$.a.b[0]` as navigation segments.
pub open spec fn rule_path_spec(path: Seq<char>) -> RulePath {
    if path.len() < 2 || path[0] != '$' || path[1] != '.' {
        RulePath::NoPath
    } else if path.len() == 2 {
        RulePath::Segs(seq![])
    } else {
        scan_rule_path(path.skip(2), 0, seq![], seq![])
    }
}

/// Parse a `$.a.b[0]` rule path into navigation segments; `None` where the
/// path does not start with `$.`, holds a `[*]` wildcard or a malformed
/// index.
pub fn rule_path_to_segments(path: &str) -> (res: Option<Vec<Segment>>)
    ensures
        match rule_path_spec(path@) {
            RulePath::Segs(s) => res matches Some(v) && segment_views(v@) == s,
            _ => res is None,
        },
{
    let v = chars_of(path);
    let n = v.len();
    if n < 2 || v[0] != '$' || v[1] != '.' {
        return None;
    }
    if n == 2 {
        let segs: Vec<Segment> = Vec::new();
        assert(segment_views(segs@) =~= Seq::<SegmentView>::empty());
        return Some(segs);
    }
    let ghost rest = path@.skip(2);
    let mut segs: Vec<Segment> = Vec::new();
    let mut cur: Vec<char> = Vec::new();
    let mut i: usize = 2;
    assert(segment_views(segs@) =~= Seq::<SegmentView>::empty());
    while i < n
        invariant
            2 <= i <= n,
            n == v@.len(),
            v@ == path@,
            rest == path@.skip(2),
            rule_path_spec(path@) == scan_rule_path(rest, i - 2, cur@, segment_views(segs@)),
        decreases n - i,
    {
        let c = v[i];
        let ghost before_segs = segment_views(segs@);
        let ghost cur_before = cur@;
        assert(rest[i - 2] == c);
        if c == '.' || c == '[' {
            if cur.len() > 0 {
                let k = string_of(&cur, 0, cur.len());
                assert(cur@.subrange(0, cur@.len() as int) =~= cur@);
                segs.push(Segment::Key(k));
            }
            assert(segment_views(segs@) =~= flush_key(before_segs, cur_before));
            cur = Vec::new();
            assert(cur@ =~= Seq::<char>::empty());
            if c == '.' {
                i = i + 1;
            } else {
                let mut close = i + 1;
                while close < n && v[close] != ']'
                    invariant
                        2 <= i < n,
                        i + 1 <= close <= n,
                        n == v@.len(),
                        v@ == path@,
                        rest == path@.skip(2),
                        close_after(rest, i - 1) == close_after(rest, close - 2),
                    decreases n - close,
                {
                    assert(rest[close - 2] == v@[close as int]);
                    close = close + 1;
                }
                proof {
                    if close < n {
                        assert(rest[close - 2] == v@[close as int]);
                    }
                }
                if close >= n {
                    return None;
                }
                let ghost inner = rest.subrange(i - 1, close - 2);
                assert(inner =~= v@.subrange(i + 1, close as int));
                if close == i + 2 && v[i + 1] == '*' {
                    assert(inner =~= seq!['*']);
                    return None;
                }
                proof {
                    if inner == seq!['*'] {
                        assert(inner.len() == 1 && inner[0] == v@[i + 1]);
                    }
                }
                match parse_i64_radix(&v, i + 1, close, 10) {
                    None => {
                        return None;
                    },
                    Some(idx) => {
                        let ghost before2 = segment_views(segs@);
                        segs.push(Segment::Index(idx));
                        assert(segment_views(segs@) =~= before2.push(SegmentView::Index(idx as int)));
                        i = close + 1;
                    },
                }
            }
        } else {
            cur.push(c);
            i = i + 1;
        }
    }
    let ghost before_segs = segment_views(segs@);
    if cur.len() > 0 {
        let k = string_of(&cur, 0, cur.len());
        assert(cur@.subrange(0, cur@.len() as int) =~= cur@);
        segs.push(Segment::Key(k));
    }
    assert(segment_views(segs@) =~= flush_key(before_segs, cur@));
    Some(segs)
}

/// A validation error: the path, what was expected, and where the node is
/// in the source when known.
#[derive(Debug, PartialEq)]
pub struct SchemaValidationError {
    pub path: String,
    pub message: String,
    /// Line number (1-based) in the source document, if available.
    pub line: Option<usize>,
    /// Column number (1-based, in bytes) in the source document, if available.
    pub column: Option<usize>,
}

impl Clone for SchemaValidationError {
    fn clone(&self) -> (res: Self)
        ensures
            res == *self,
    {
        SchemaValidationError {
            path: self.path.clone(),
            message: self.message.clone(),
            line: self.line,
            column: self.column,
        }
    }
}

/// The characters of `s` before byte offset `b`.
pub open spec fn byte_prefix(s: Seq<char>, b: int) -> Seq<char> {
    s.take(chars_within(s, b) as int)
}

/// Byte offset `b` falls between characters of `s` (within it).
pub open spec fn on_char_boundary(s: Seq<char>, b: int) -> bool {
    b >= 0 && utf8_len(byte_prefix(s, b)) == b
}

/// Index of the last newline of `s`.
pub open spec fn last_newline(s: Seq<char>) -> Option<int>
    decreases s.len(),
{
    if s.len() == 0 {
        None
    } else if s.last() == '\n' {
        Some(s.len() - 1)
    } else {
        last_newline(s.drop_last())
    }
}

/// Number of newlines in `s`.
pub open spec fn newline_count(s: Seq<char>) -> nat
    decreases s.len(),
{
    if s.len() == 0 {
        0
    } else {
        newline_count(s.drop_last()) + if s.last() == '\n' {
            1nat
        } else {
            0nat
        }
    }
}

/// The 1-based line and byte column of byte offset `b` of `s`: the line is
/// one more than the number of newlines before `b`, the column counts the
/// bytes since the last newline before `b`, plus one.
pub open spec fn location_of(s: Seq<char>, b: int) -> (int, int) {
    let before = byte_prefix(s, b);
    let line_start = match last_newline(before) {
        Some(k) => utf8_len(before.take(k + 1)),
        None => 0,
    };
    (newline_count(before) + 1int, b - line_start + 1)
}

/// A text holds no more newlines than bytes.
proof fn lemma_newline_count_le(s: Seq<char>)
    ensures
        newline_count(s) <= utf8_len(s),
    decreases s.len(),
{
    if s.len() > 0 {
        lemma_newline_count_le(s.drop_last());
        crate::text::lemma_utf8_len_push(s.drop_last(), s.last());
        assert(s.drop_last().push(s.last()) =~= s);
    } else {
        assert(utf8_len(s) >= 0);
    }
}

/// Number of newlines in `w`.
fn count_newlines(w: &Vec<char>) -> (res: usize)
    requires
        utf8_len(w@) < usize::MAX,
    ensures
        res == newline_count(w@),
{
    let mut i: usize = 0;
    let mut count: usize = 0;
    assert(w@.take(0) =~= Seq::<char>::empty());
    while i < w.len()
        invariant
            0 <= i <= w@.len(),
            count == newline_count(w@.take(i as int)),
            utf8_len(w@) < usize::MAX,
        decreases w@.len() - i,
    {
        assert(w@.take(i + 1).drop_last() =~= w@.take(i as int));
        proof {
            lemma_newline_count_le(w@.take(i + 1));
            crate::scalar_fmt::lemma_utf8_take_le(w@, i + 1);
        }
        if w[i] == '\n' {
            count = count + 1;
        }
        i = i + 1;
    }
    assert(w@.take(w@.len() as int) =~= w@);
    count
}

proof fn lemma_last_newline(s: Seq<char>)
    ensures
        match last_newline(s) {
            Some(k) => 0 <= k < s.len() && s[k] == '\n',
            None => true,
        },
    decreases s.len(),
{
    if s.len() > 0 && s.last() != '\n' {
        lemma_last_newline(s.drop_last());
    }
}

/// Byte length of `v[0..j]`, which fits the bound `b`.
fn prefix_bytes(v: &Vec<char>, j: usize, b: usize) -> (res: usize)
    requires
        j <= v@.len(),
        utf8_len(v@.take(j as int)) <= b,
    ensures
        res == utf8_len(v@.take(j as int)),
{
    let mut i: usize = 0;
    let mut acc: usize = 0;
    assert(v@.take(0) =~= Seq::<char>::empty());
    assert(crate::text::utf8_len(Seq::<char>::empty()) == 0);
    while i < j
        invariant
            0 <= i <= j <= v@.len(),
            acc == utf8_len(v@.take(i as int)),
            utf8_len(v@.take(j as int)) <= b,
        decreases j - i,
    {
        proof {
            lemma_utf8_take(v@, i as int);
            assert(v@.take(j as int).take(i + 1) =~= v@.take(i + 1));
            lemma_utf8_take_le(v@.take(j as int), i + 1);
        }
        acc = acc + crate::text::width_of(v[i]);
        i = i + 1;
    }
    acc
}

impl SchemaValidationError {
    /// An error at `path` with `message`, without a source location.
    pub fn new(path: &str, message: &str) -> (res: Self)
        ensures
            res.path@ == path@,
            res.message@ == message@,
            res.line is None,
            res.column is None,
    {
        SchemaValidationError {
            path: string_from(path),
            message: string_from(message),
            line: None,
            column: None,
        }
    }

    /// How the error reads: `line:column: message` when located (column 1
    /// when unknown), else `path: message`.
    pub open spec fn display_spec(self) -> Seq<char> {
        match self.line {
            Some(l) => decimal(l as nat) + seq![':'] + decimal(
                match self.column {
                    Some(c) => c as nat,
                    None => 1,
                },
            ) + ": "@ + self.message@,
            None => self.path@ + ": "@ + self.message@,
        }
    }

    /// The error as text (see `display_spec`).
    pub fn to_display_string(&self) -> (res: String)
        ensures
            res@ == self.display_spec(),
    {
        let mut out = String::new();
        match self.line {
            Some(l) => {
                crate::text::push_decimal(&mut out, l as u64);
                push_char(&mut out, ':');
                let c = match self.column {
                    Some(c) => c,
                    None => 1,
                };
                crate::text::push_decimal(&mut out, c as u64);
                out.append(": ");
            },
            None => {
                out.append(self.path.as_str());
                out.append(": ");
            },
        }
        out.append(self.message.as_str());
        proof {
            assert(out@ =~= self.display_spec());
        }
        out
    }

    /// Set the line and column from the start of a source byte range.
    pub fn with_location(self, source: &str, range: Option<&Range<usize>>) -> (res: Self)
        requires
            match range {
                Some(r) => on_char_boundary(source@, r.start as int) && r.start < usize::MAX,
                None => true,
            },
        ensures
            res.path == self.path,
            res.message == self.message,
            match range {
                Some(r) => res.line == Some(location_of(source@, r.start as int).0 as usize)
                    && res.column == Some(location_of(source@, r.start as int).1 as usize),
                None => res.line == self.line && res.column == self.column,
            },
    {
        let r = match range {
            Some(r) => r,
            None => {
                return self;
            },
        };
        let start = r.start;
        let v = chars_of(source);
        let n = v.len();
        let (k, kb) = chars_within_of(&v, 0, n, start);
        proof {
            assert(v@.subrange(0, n as int) =~= source@);
            lemma_chars_within(source@, start as int);
        }
        let mut before: Vec<char> = Vec::new();
        let mut i: usize = 0;
        while i < k
            invariant
                0 <= i <= k <= v@.len(),
                before@ == v@.take(i as int),
            decreases k - i,
        {
            before.push(v[i]);
            assert(before@ =~= v@.take(i + 1));
            i = i + 1;
        }
        let ghost bs = byte_prefix(source@, start as int);
        assert(before@ =~= bs);
        proof {
            lemma_newline_count_le(before@);
        }
        let line = count_newlines(&before) + 1;
        let mut j = before.len();
        assert(before@.take(j as int) =~= before@);
        while j > 0 && before[j - 1] != '\n'
            invariant
                0 <= j <= before@.len(),
                last_newline(before@) == last_newline(before@.take(j as int)),
            decreases j,
        {
            assert(before@.take(j as int).drop_last() =~= before@.take(j - 1));
            j = j - 1;
        }
        proof {
            if j > 0 {
                assert(before@.take(j as int).last() == before@[j - 1]);
            } else {
                assert(before@.take(0) =~= Seq::<char>::empty());
            }
            lemma_utf8_take_le(before@, j as int);
        }
        let line_start = prefix_bytes(&before, j, start);
        proof {
            assert(before@.take(before@.len() as int) =~= before@);
            lemma_utf8_take_le(before@, j as int);
            if j > 0 {
                assert(before@.take(j as int) =~= before@.take((j - 1) + 1));
            } else {
                assert(before@.take(0) =~= Seq::<char>::empty());
                assert(crate::text::utf8_len(Seq::<char>::empty()) == 0);
            }
        }
        let mut out = self;
        out.line = Some(line);
        out.column = Some(start - line_start + 1);
        out
    }
}

/// Where a type mismatch was found.
#[derive(Debug, Clone, Copy, PartialEq, Eq, Structural)]
pub enum MismatchContext {
    /// The scalar at the rule's path.
    Scalar,
    /// An element of the sequence at the rule's path.
    SequenceElement,
    /// A value of the mapping at the rule's path.
    MappingValue,
}

/// A failed validation check.
#[derive(Debug)]
pub enum Violation {
    /// A required path is absent from the document.
    RequiredMissing { path: String },
    /// A path with a required rule holds null.
    RequiredNull { path: String },
    /// A `required` rule without a type found null at its path.
    RequiredKindNull { path: String, range: Option<Range<usize>> },
    /// A scalar resolved to another type than the rule expects.
    TypeMismatch {
        path: String,
        context: MismatchContext,
        expected: YamlTypeKind,
        resolved: YamlType,
        range: Option<Range<usize>>,
    },
}

/// What a violation denotes.
pub enum ViolationView {
    RequiredMissing(Seq<char>),
    RequiredNull(Seq<char>),
    RequiredKindNull(Seq<char>, Option<(int, int)>),
    TypeMismatch(Seq<char>, MismatchContext, YamlTypeKind, YamlTypeView, Option<(int, int)>),
}

/// A byte range as a pair.
pub open spec fn range_view(r: Option<Range<usize>>) -> Option<(int, int)> {
    match r {
        Some(x) => Some((x.start as int, x.end as int)),
        None => None,
    }
}

impl View for Violation {
    type V = ViolationView;

    open spec fn view(&self) -> ViolationView {
        match self {
            Violation::RequiredMissing { path } => ViolationView::RequiredMissing(path@),
            Violation::RequiredNull { path } => ViolationView::RequiredNull(path@),
            Violation::RequiredKindNull { path, range } => ViolationView::RequiredKindNull(
                path@,
                range_view(*range),
            ),
            Violation::TypeMismatch { path, context, expected, resolved, range } => ViolationView::TypeMismatch(
                path@,
                *context,
                *expected,
                resolved@,
                range_view(*range),
            ),
        }
    }
}

/// The views of a list of violations.
pub open spec fn violation_views(v: Seq<Violation>) -> Seq<ViolationView> {
    v.map_values(|x: Violation| x@)
}

/// The source range of a node, when it has one.
pub open spec fn node_range(n: CustomNode) -> Option<(int, int)> {
    match n.meta_of() {
        Some(m) => range_view(m.source_range),
        None => None,
    }
}

/// Whether a resolved type is of the expected kind.
pub open spec fn type_matches(t: YamlTypeView, k: YamlTypeKind) -> bool {
    match t {
        YamlTypeView::Null => k == YamlTypeKind::Null,
        YamlTypeView::Bool(_) => k == YamlTypeKind::Bool,
        YamlTypeView::Int(_) => k == YamlTypeKind::Int,
        YamlTypeView::Float(_) => k == YamlTypeKind::Float,
        YamlTypeView::Str(_) => k == YamlTypeKind::Str,
    }
}

/// The resolver's fallback is not a custom schema, so its resolution is
/// known.
pub open spec fn known_resolution<R>(rr: RuleResolver<R>) -> bool {
    rr.fallback_kind() != Some(SchemaKind::Custom)
}

/// What the resolver makes of a scalar (see `RuleResolver::resolves_to`).
pub open spec fn resolved<R>(rr: RuleResolver<R>, v: Seq<char>) -> YamlTypeView {
    rr.resolves_to(v)->0
}

/// The label of a mapping key in a path: a scalar's text, else
/// `(complex)`.
pub open spec fn key_label(k: CustomNode) -> Seq<char> {
    match k {
        CustomNode::Scalar { value, .. } => value@,
        _ => "(complex)"@,
    }
}

/// The path of a mapping value.
pub open spec fn key_path(path: Seq<char>, label: Seq<char>) -> Seq<char> {
    path + seq!['.'] + label
}

/// The path of a sequence element.
pub open spec fn index_path(path: Seq<char>, i: int) -> Seq<char> {
    path + seq!['['] + decimal(i as nat) + seq![']']
}

/// A check the walk over the tree records: a violation found, or a scalar
/// whose type the resolver is to be asked for (value, path, where, the
/// expected kind, and the scalar's source range).
pub enum CheckView {
    Found(ViolationView),
    Scalar(Seq<char>, Seq<char>, MismatchContext, YamlTypeKind, Option<(int, int)>),
}

/// What a check gives once the resolver has answered `t` for it: a found
/// violation as it is; a mismatch where `t` is not of the expected kind.
pub open spec fn check_outcome(c: CheckView, t: YamlTypeView) -> Seq<ViolationView> {
    match c {
        CheckView::Found(v) => seq![v],
        CheckView::Scalar(_, path, ctx, e, range) => if type_matches(t, e) {
            seq![]
        } else {
            seq![ViolationView::TypeMismatch(path, ctx, e, t, range)]
        },
    }
}

/// What the checks `cs` give with the answers `ans` (one per check, in
/// order; only those of scalar checks are read).
pub open spec fn outcome(cs: Seq<CheckView>, ans: Seq<YamlTypeView>) -> Seq<ViolationView>
    decreases cs.len(),
{
    if cs.len() == 0 {
        seq![]
    } else {
        outcome(cs.drop_last(), ans) + check_outcome(cs.last(), ans[cs.len() - 1])
    }
}

/// Whether an answer fits a check: where the resolver's answer is known
/// (a rule's pattern matches, or the fallback is not custom), it is that.
pub open spec fn answer_fits<R>(c: CheckView, t: YamlTypeView, rr: RuleResolver<R>) -> bool {
    match c {
        CheckView::Scalar(v, ..) => rr.resolves_to(v) matches Some(k) ==> t == k,
        CheckView::Found(_) => true,
    }
}

/// Whether answers fit the checks one by one.
pub open spec fn answers_fit<R>(cs: Seq<CheckView>, ans: Seq<YamlTypeView>, rr: RuleResolver<R>) -> bool {
    &&& ans.len() == cs.len()
    &&& forall|i: int| 0 <= i < cs.len() ==> answer_fits(#[trigger] cs[i], ans[i], rr)
}

/// The answers a resolver with a known resolution gives.
pub open spec fn known_answers<R>(cs: Seq<CheckView>, rr: RuleResolver<R>) -> Seq<YamlTypeView> {
    Seq::new(
        cs.len(),
        |i: int|
            match cs[i] {
                CheckView::Scalar(v, ..) => resolved(rr, v),
                CheckView::Found(_) => YamlTypeView::Null,
            },
    )
}

/// Whether a violation is something other than a type mismatch.
pub open spec fn not_mismatch(v: ViolationView) -> bool {
    !(v is TypeMismatch)
}

/// The violations the checks found on their own, in order (none for the
/// scalars whose type the resolver is asked for).
pub open spec fn found_violations(cs: Seq<CheckView>) -> Seq<ViolationView>
    decreases cs.len(),
{
    if cs.len() == 0 {
        seq![]
    } else {
        found_violations(cs.drop_last()) + match cs.last() {
            CheckView::Found(v) => seq![v],
            CheckView::Scalar(..) => seq![],
        }
    }
}

/// Whatever types the resolver answers, the violations other than type
/// mismatches are the same: those the checks found on their own.
pub proof fn law_other_violations_ignore_answers(cs: Seq<CheckView>, ans: Seq<YamlTypeView>)
    ensures
        outcome(cs, ans).filter(|v: ViolationView| not_mismatch(v)) == found_violations(cs).filter(
            |v: ViolationView| not_mismatch(v),
        ),
    decreases cs.len(),
{
    let f = |v: ViolationView| not_mismatch(v);
    if cs.len() > 0 {
        law_other_violations_ignore_answers(cs.drop_last(), ans);
        let last = check_outcome(cs.last(), ans[cs.len() - 1]);
        let flast = match cs.last() {
            CheckView::Found(v) => seq![v],
            CheckView::Scalar(..) => Seq::<ViolationView>::empty(),
        };
        Seq::filter_distributes_over_add(outcome(cs.drop_last(), ans), last, f);
        Seq::filter_distributes_over_add(found_violations(cs.drop_last()), flast, f);
        reveal_with_fuel(Seq::filter, 2);
        assert(last.filter(f) =~= flast.filter(f));
    } else {
        reveal_with_fuel(Seq::filter, 1);
    }
}

/// The check of a scalar child's type (nothing for other nodes).
pub open spec fn child_mismatch<R>(
    n: CustomNode,
    path: Seq<char>,
    ctx: MismatchContext,
    e: YamlTypeKind,
    rr: RuleResolver<R>,
) -> Seq<CheckView> {
    match n {
        CustomNode::Scalar { value, .. } => seq![CheckView::Scalar(value@, path, ctx, e, node_range(n))],
        _ => seq![],
    }
}

/// Mismatches among the elements `items[i..]` of a sequence.
pub open spec fn element_checks<R>(
    items: Seq<CustomNode>,
    i: int,
    path: Seq<char>,
    e: YamlTypeKind,
    rr: RuleResolver<R>,
) -> Seq<CheckView>
    decreases items.len() - i,
{
    if i < 0 || i >= items.len() {
        seq![]
    } else {
        child_mismatch(items[i], index_path(path, i), MismatchContext::SequenceElement, e, rr)
            + element_checks(items, i + 1, path, e, rr)
    }
}

/// Mismatches among the values of pairs `ps[i..]` of a mapping.
pub open spec fn value_checks<R>(
    ps: Seq<(CustomNode, CustomNode)>,
    i: int,
    path: Seq<char>,
    e: YamlTypeKind,
    rr: RuleResolver<R>,
) -> Seq<CheckView>
    decreases ps.len() - i,
{
    if i < 0 || i >= ps.len() {
        seq![]
    } else {
        child_mismatch(
            ps[i].1,
            key_path(path, key_label(ps[i].0)),
            MismatchContext::MappingValue,
            e,
            rr,
        ) + value_checks(ps, i + 1, path, e, rr)
    }
}

/// The path pattern of a rule, as text.
pub open spec fn rule_path(rule: ValidateRule) -> Option<Seq<char>> {
    match rule.path {
        Some(p) => Some(p@),
        None => None,
    }
}

/// What one rule finds at a node: nothing where its path does not apply;
/// a required rule on null; else what its kind checks.
pub open spec fn rule_check<R>(rule: ValidateRule, n: CustomNode, path: Seq<char>, rr: RuleResolver<R>) -> Seq<CheckView> {
    if !path_matches_spec(rule_path(rule), path) {
        seq![]
    } else if rule.required && n is Null {
        seq![CheckView::Found(ViolationView::RequiredNull(path))]
    } else {
        match rule.kind {
            ValidateKind::Required => if n is Null {
                seq![CheckView::Found(ViolationView::RequiredKindNull(path, node_range(n)))]
            } else {
                seq![]
            },
            ValidateKind::Type(e) => child_mismatch(n, path, MismatchContext::Scalar, e, rr),
            ValidateKind::SequenceOf(e) => match n {
                CustomNode::Sequence { items, .. } => element_checks(items@, 0, path, e, rr),
                _ => seq![],
            },
            ValidateKind::MappingOf(e) => match n {
                CustomNode::Mapping { pairs, .. } => value_checks(pairs@, 0, path, e, rr),
                _ => seq![],
            },
        }
    }
}

/// What the rules `rules[k..]` find at a node.
pub open spec fn rules_check<R>(
    rules: Seq<ValidateRule>,
    k: int,
    n: CustomNode,
    path: Seq<char>,
    rr: RuleResolver<R>,
) -> Seq<CheckView>
    decreases rules.len() - k,
{
    if k < 0 || k >= rules.len() {
        seq![]
    } else {
        rule_check(rules[k], n, path, rr) + rules_check(rules, k + 1, n, path, rr)
    }
}

/// What validation finds in the tree at `n` (whose path is `path`): the
/// rules at the node, then each child in document order.
pub open spec fn node_checks<R>(n: CustomNode, path: Seq<char>, rr: RuleResolver<R>) -> Seq<CheckView>
    decreases n, 0int,
{
    rules_check(rr.validate_views(), 0, n, path, rr) + match n {
        CustomNode::Mapping { pairs, .. } => pair_children(pairs@, 0, path, rr),
        CustomNode::Sequence { items, .. } => item_children(items@, 0, path, rr),
        _ => seq![],
    }
}

/// What validation finds under the values of pairs `ps[i..]`.
pub open spec fn pair_children<R>(
    ps: Seq<(CustomNode, CustomNode)>,
    i: int,
    path: Seq<char>,
    rr: RuleResolver<R>,
) -> Seq<CheckView>
    decreases ps, ps.len() - i,
{
    if i < 0 || i >= ps.len() {
        seq![]
    } else {
        node_checks(ps[i].1, key_path(path, key_label(ps[i].0)), rr) + pair_children(
            ps,
            i + 1,
            path,
            rr,
        )
    }
}

/// What validation finds under the elements `items[i..]`.
pub open spec fn item_children<R>(
    items: Seq<CustomNode>,
    i: int,
    path: Seq<char>,
    rr: RuleResolver<R>,
) -> Seq<CheckView>
    decreases items, items.len() - i,
{
    if i < 0 || i >= items.len() {
        seq![]
    } else {
        node_checks(items[i], index_path(path, i), rr) + item_children(items, i + 1, path, rr)
    }
}

/// Whether a rule path is present in the tree: a path that does not read
/// as segments counts as present.
pub open spec fn contains_spec(ast: CustomNode, path: Seq<char>) -> bool {
    match rule_path_spec(path) {
        RulePath::Segs(s) => navigate_spec(ast, s) is Ok,
        _ => true,
    }
}

/// The required paths among `rules[k..]` that are absent from the tree.
pub open spec fn missing_required(rules: Seq<ValidateRule>, k: int, ast: CustomNode) -> Seq<CheckView>
    decreases rules.len() - k,
{
    if k < 0 || k >= rules.len() {
        seq![]
    } else {
        (match rule_path(rules[k]) {
            Some(p) => if rules[k].required && !contains_spec(ast, p) {
                seq![CheckView::Found(ViolationView::RequiredMissing(p))]
            } else {
                seq![]
            },
            None => seq![],
        }) + missing_required(rules, k + 1, ast)
    }
}

/// A check the walk over the tree records (see `CheckView`).
pub enum Check {
    Found(Violation),
    Scalar {
        value: String,
        path: String,
        context: MismatchContext,
        expected: YamlTypeKind,
        range: Option<Range<usize>>,
    },
}

impl View for Check {
    type V = CheckView;

    open spec fn view(&self) -> CheckView {
        match self {
            Check::Found(v) => CheckView::Found(v@),
            Check::Scalar { value, path, context, expected, range } => CheckView::Scalar(
                value@,
                path@,
                *context,
                *expected,
                range_view(*range),
            ),
        }
    }
}

/// The views of a list of checks.
pub open spec fn check_views(v: Seq<Check>) -> Seq<CheckView> {
    v.map_values(|x: Check| x@)
}

proof fn lemma_checks_push(v: Seq<Check>, x: Check)
    ensures
        check_views(v.push(x)) == check_views(v) + seq![x@],
{
    assert(check_views(v.push(x)) =~= check_views(v) + seq![x@]);
}

proof fn lemma_views_push(v: Seq<Violation>, x: Violation)
    ensures
        violation_views(v.push(x)) == violation_views(v) + seq![x@],
{
    assert(violation_views(v.push(x)) =~= violation_views(v) + seq![x@]);
}

/// The source range of a node, copied.
fn node_range_of(n: &CustomNode) -> (res: Option<Range<usize>>)
    ensures
        range_view(res) == node_range(*n),
{
    let m = match n {
        CustomNode::Scalar { meta, .. } => meta,
        CustomNode::Mapping { meta, .. } => meta,
        CustomNode::Sequence { meta, .. } => meta,
        CustomNode::Null { meta } => meta,
        CustomNode::Alias { .. } => {
            return None;
        },
    };
    match &m.source_range {
        Some(r) => Some(r.start..r.end),
        None => None,
    }
}

/// Whether a resolved type is of the expected kind.
fn yaml_type_matches(t: &YamlType, k: YamlTypeKind) -> (res: bool)
    ensures
        res == type_matches(t@, k),
{
    match t {
        YamlType::Null => k == YamlTypeKind::Null,
        YamlType::Bool(_) => k == YamlTypeKind::Bool,
        YamlType::Int(_) => k == YamlTypeKind::Int,
        YamlType::Float(_) => k == YamlTypeKind::Float,
        YamlType::Str(_) => k == YamlTypeKind::Str,
    }
}

/// The path of the value of `key` under `path`.
fn key_path_of(path: &str, key: &CustomNode) -> (res: String)
    ensures
        res@ == key_path(path@, key_label(*key)),
{
    let mut s = string_from(path);
    push_char(&mut s, '.');
    match key {
        CustomNode::Scalar { value, .. } => s.append(value.as_str()),
        _ => s.append("(complex)"),
    }
    s
}

/// The path of element `i` under `path`.
fn index_path_of(path: &str, i: usize) -> (res: String)
    ensures
        res@ == index_path(path@, i as int),
{
    let mut s = string_from(path);
    push_char(&mut s, '[');
    let d = usize_to_string(i);
    s.append(d.as_str());
    push_char(&mut s, ']');
    s
}

/// Record the type check of a scalar child, if it is one.
fn push_child_mismatch<R: SchemaResolver>(
    n: &CustomNode,
    path: String,
    ctx: MismatchContext,
    e: YamlTypeKind,
    rr: &RuleResolver<R>,
    out: &mut Vec<Check>,
)
    ensures
        old(out)@.is_prefix_of(final(out)@),
        check_views(final(out)@) == check_views(old(out)@) + child_mismatch(
            *n,
            path@,
            ctx,
            e,
            *rr,
        ),
{
    match n {
        CustomNode::Scalar { value, .. } => {
            let range = node_range_of(n);
            let ghost before = out@;
            let v = Check::Scalar { value: value.clone(), path, context: ctx, expected: e, range };
            out.push(v);
            proof {
                lemma_checks_push(before, v);
            }
        },
        _ => {
            assert(check_views(out@) =~= check_views(out@) + Seq::<CheckView>::empty());
        },
    }
}

/// Apply one rule at a node.
fn check_rule<R: SchemaResolver>(
    rule: &ValidateRule,
    node: &CustomNode,
    path: &str,
    rr: &RuleResolver<R>,
    out: &mut Vec<Check>,
)
    ensures
        old(out)@.is_prefix_of(final(out)@),
        check_views(final(out)@) == check_views(old(out)@) + rule_check(*rule, *node, path@, *rr),
{
    let ghost start = check_views(out@);
    let ghost out0 = out@;
    let pat = match &rule.path {
        Some(p) => Some(p.as_str()),
        None => None,
    };
    if !path_matches(pat, path) {
        assert(start =~= start + Seq::<CheckView>::empty());
        return;
    }
    let is_null = match node {
        CustomNode::Null { .. } => true,
        _ => false,
    };
    if rule.required && is_null {
        let ghost before = out@;
        let v = Check::Found(Violation::RequiredNull { path: string_from(path) });
        out.push(v);
        proof {
            lemma_checks_push(before, v);
        }
        return;
    }
    match rule.kind {
        ValidateKind::Required => {
            if is_null {
                let ghost before = out@;
                let v = Check::Found(Violation::RequiredKindNull { path: string_from(path), range: node_range_of(node) });
                out.push(v);
                proof {
                    lemma_checks_push(before, v);
                }
            } else {
                assert(start =~= start + Seq::<CheckView>::empty());
            }
        },
        ValidateKind::Type(e) => {
            push_child_mismatch(node, string_from(path), MismatchContext::Scalar, e, rr, out);
        },
        ValidateKind::SequenceOf(e) => {
            match node {
                CustomNode::Sequence { items, .. } => {
                    let mut i: usize = 0;
                    assert(start =~= start + Seq::<CheckView>::empty());
                    while i < items.len()
                        invariant
                            0 <= i <= items@.len(),
                            out0.is_prefix_of(out@),
                            start + element_checks(items@, 0, path@, e, *rr) == check_views(out@)
                                + element_checks(items@, i as int, path@, e, *rr),
                        decreases items@.len() - i,
                    {
                        let ghost before = check_views(out@);
                        let p = index_path_of(path, i);
                        push_child_mismatch(&items[i], p, MismatchContext::SequenceElement, e, rr, out);
                        proof {
                            let c = child_mismatch(items@[i as int], index_path(path@, i as int), MismatchContext::SequenceElement, e, *rr);
                            assert(before + element_checks(items@, i as int, path@, e, *rr) =~= (before + c) + element_checks(items@, i + 1, path@, e, *rr));
                        }
                        i = i + 1;
                    }
                    assert(check_views(out@) + Seq::<CheckView>::empty() =~= check_views(out@));
                },
                _ => {
                    assert(start =~= start + Seq::<CheckView>::empty());
                },
            }
        },
        ValidateKind::MappingOf(e) => {
            match node {
                CustomNode::Mapping { pairs, .. } => {
                    let mut i: usize = 0;
                    assert(start =~= start + Seq::<CheckView>::empty());
                    while i < pairs.len()
                        invariant
                            0 <= i <= pairs@.len(),
                            out0.is_prefix_of(out@),
                            start + value_checks(pairs@, 0, path@, e, *rr) == check_views(out@)
                                + value_checks(pairs@, i as int, path@, e, *rr),
                        decreases pairs@.len() - i,
                    {
                        let ghost before = check_views(out@);
                        let p = key_path_of(path, &pairs[i].0);
                        push_child_mismatch(&pairs[i].1, p, MismatchContext::MappingValue, e, rr, out);
                        proof {
                            let c = child_mismatch(pairs@[i as int].1, key_path(path@, key_label(pairs@[i as int].0)), MismatchContext::MappingValue, e, *rr);
                            assert(before + value_checks(pairs@, i as int, path@, e, *rr) =~= (before + c) + value_checks(pairs@, i + 1, path@, e, *rr));
                        }
                        i = i + 1;
                    }
                    assert(check_views(out@) + Seq::<CheckView>::empty() =~= check_views(out@));
                },
                _ => {
                    assert(start =~= start + Seq::<CheckView>::empty());
                },
            }
        },
    }
}

/// Validate the tree at `node`, whose path is `path`, appending what the
/// rules find (see `node_checks`).
fn validate_recursive<R: SchemaResolver>(
    node: &CustomNode,
    path: &str,
    rr: &RuleResolver<R>,
    out: &mut Vec<Check>,
)
    ensures
        old(out)@.is_prefix_of(final(out)@),
        check_views(final(out)@) == check_views(old(out)@) + node_checks(*node, path@, *rr),
    decreases *node,
{
    let ghost start = check_views(out@);
    let ghost out0 = out@;
    let rules = rr.validate_rules();
    let mut k: usize = 0;
    assert(start =~= start + Seq::<CheckView>::empty());
    while k < rules.len()
        invariant
            0 <= k <= rules@.len(),
            rules@ == rr.validate_views(),
            out0.is_prefix_of(out@),
            start + rules_check(rules@, 0, *node, path@, *rr) == check_views(out@) + rules_check(
                rules@,
                k as int,
                *node,
                path@,
                *rr,
            ),
        decreases rules@.len() - k,
    {
        let ghost before = check_views(out@);
        check_rule(&rules[k], node, path, rr, out);
        proof {
            let c = rule_check(rules@[k as int], *node, path@, *rr);
            assert(before + rules_check(rules@, k as int, *node, path@, *rr) =~= (before + c) + rules_check(rules@, k + 1, *node, path@, *rr));
        }
        k = k + 1;
    }
    let ghost mid = check_views(out@);
    assert(mid + Seq::<CheckView>::empty() =~= mid);
    match node {
        CustomNode::Mapping { pairs, .. } => {
            let mut i: usize = 0;
            assert(mid =~= mid + Seq::<CheckView>::empty());
            while i < pairs.len()
                invariant
                    0 <= i <= pairs@.len(),
                    *node matches CustomNode::Mapping { pairs: ps, .. } && ps@ == pairs@,
                    out0.is_prefix_of(out@),
                    mid + pair_children(pairs@, 0, path@, *rr) == check_views(out@) + pair_children(
                        pairs@,
                        i as int,
                        path@,
                        *rr,
                    ),
                decreases pairs@.len() - i,
            {
                let ghost before = check_views(out@);
                let p = key_path_of(path, &pairs[i].0);
                validate_recursive(&pairs[i].1, p.as_str(), rr, out);
                proof {
                    let c = node_checks(pairs@[i as int].1, key_path(path@, key_label(pairs@[i as int].0)), *rr);
                    assert(before + pair_children(pairs@, i as int, path@, *rr) =~= (before + c) + pair_children(pairs@, i + 1, path@, *rr));
                }
                i = i + 1;
            }
            assert(check_views(out@) + Seq::<CheckView>::empty() =~= check_views(out@));
        },
        CustomNode::Sequence { items, .. } => {
            let mut i: usize = 0;
            assert(mid =~= mid + Seq::<CheckView>::empty());
            while i < items.len()
                invariant
                    0 <= i <= items@.len(),
                    *node matches CustomNode::Sequence { items: it, .. } && it@ == items@,
                    out0.is_prefix_of(out@),
                    mid + item_children(items@, 0, path@, *rr) == check_views(out@) + item_children(
                        items@,
                        i as int,
                        path@,
                        *rr,
                    ),
                decreases items@.len() - i,
            {
                let ghost before = check_views(out@);
                let p = index_path_of(path, i);
                validate_recursive(&items[i], p.as_str(), rr, out);
                proof {
                    let c = node_checks(items@[i as int], index_path(path@, i as int), *rr);
                    assert(before + item_children(items@, i as int, path@, *rr) =~= (before + c) + item_children(items@, i + 1, path@, *rr));
                }
                i = i + 1;
            }
            assert(check_views(out@) + Seq::<CheckView>::empty() =~= check_views(out@));
        },
        _ => {},
    }
    proof {
        let rc = rules_check(rr.validate_views(), 0, *node, path@, *rr);
        assert(mid == start + rc);
    }
}

/// Whether a rule path is present in the tree (see `contains_spec`).
fn contains_path(ast: &CustomNode, path: &str) -> (res: bool)
    ensures
        res == contains_spec(*ast, path@),
{
    match rule_path_to_segments(path) {
        None => true,
        Some(segs) => navigate(ast, segs.as_slice()).is_ok(),
    }
}

/// The outcome of checks depends only on the answers to them.
proof fn lemma_outcome_answers(cs: Seq<CheckView>, a: Seq<YamlTypeView>, b: Seq<YamlTypeView>)
    requires
        a.len() >= cs.len(),
        b.len() >= cs.len(),
        forall|i: int| 0 <= i < cs.len() ==> a[i] == b[i],
    ensures
        outcome(cs, a) == outcome(cs, b),
    decreases cs.len(),
{
    if cs.len() > 0 {
        lemma_outcome_answers(cs.drop_last(), a, b);
    }
}

/// Under a known resolution, the only answers that fit are the resolver's.
pub proof fn lemma_known_answers<R>(cs: Seq<CheckView>, ans: Seq<YamlTypeView>, rr: RuleResolver<R>)
    requires
        known_resolution(rr),
        answers_fit(cs, ans, rr),
    ensures
        outcome(cs, ans) == outcome(cs, known_answers(cs, rr)),
{
    let k = known_answers(cs, rr);
    assert forall|i: int| 0 <= i < cs.len() implies check_outcome(cs[i], ans[i]) == check_outcome(cs[i], k[i]) by {
        assert(answer_fits(cs[i], ans[i], rr));
        if let CheckView::Scalar(v, ..) = cs[i] {
            assert(rr.resolves_to(v) is Some);
        }
    }
    lemma_outcome_same_parts(cs, ans, k);
}

proof fn lemma_outcome_same_parts(cs: Seq<CheckView>, a: Seq<YamlTypeView>, b: Seq<YamlTypeView>)
    requires
        a.len() >= cs.len(),
        b.len() >= cs.len(),
        forall|i: int| 0 <= i < cs.len() ==> check_outcome(#[trigger] cs[i], a[i]) == check_outcome(cs[i], b[i]),
    ensures
        outcome(cs, a) == outcome(cs, b),
    decreases cs.len(),
{
    if cs.len() > 0 {
        let d = cs.drop_last();
        assert forall|i: int| 0 <= i < d.len() implies check_outcome(#[trigger] d[i], a[i]) == check_outcome(d[i], b[i]) by {
            assert(d[i] == cs[i]);
        }
        lemma_outcome_same_parts(d, a, b);
        assert(check_outcome(cs[cs.len() - 1], a[cs.len() - 1]) == check_outcome(cs[cs.len() - 1], b[cs.len() - 1]));
    }
}

/// Ask the resolver for the type of each scalar check, in order, and give
/// what the checks find with its answers (see `outcome`); where the answer
/// is known (see `answer_fits`), it is that answer.
fn finish<R: SchemaResolver>(checks: Vec<Check>, rr: &RuleResolver<R>) -> (res: Vec<Violation>)
    ensures
        exists|ans: Seq<YamlTypeView>|
            answers_fit(check_views(checks@), ans, *rr) && violation_views(res@) == outcome(check_views(checks@), ans),
{
    let ghost cs = check_views(checks@);
    let ghost mut ans: Seq<YamlTypeView> = Seq::empty();
    let mut out: Vec<Violation> = Vec::new();
    assert(violation_views(out@) =~= Seq::<ViolationView>::empty());
    for c in it: checks
        invariant
            cs == check_views(it.seq()),
            ans.len() == it.index(),
            answers_fit(cs.take(it.index() as int), ans, *rr),
            violation_views(out@) == outcome(cs.take(it.index() as int), ans),
    {
        let ghost i = it.index() as int;
        let ghost before = out@;
        let ghost prev = ans;
        assert(cs[i] == c@);
        assert(cs.take(i + 1).drop_last() =~= cs.take(i));
        assert(cs.take(i + 1).last() == c@);
        match c {
            Check::Found(v) => {
                proof {
                    ans = ans.push(YamlTypeView::Null);
                }
                out.push(v);
                proof {
                    lemma_views_push(before, v);
                }
            },
            Check::Scalar { value, path, context, expected, range } => {
                let t = rr.resolve_value(value.as_str());
                proof {
                    ans = ans.push(t@);
                }
                if !yaml_type_matches(&t, expected) {
                    let v = Violation::TypeMismatch { path, context, expected, resolved: t, range };
                    out.push(v);
                    proof {
                        lemma_views_push(before, v);
                    }
                } else {
                    assert(violation_views(out@) =~= violation_views(out@) + Seq::<ViolationView>::empty());
                }
            },
        }
        proof {
            lemma_outcome_answers(cs.take(i), prev, ans);
            assert forall|j: int| 0 <= j < i + 1 implies answer_fits(#[trigger] cs.take(i + 1)[j], ans[j], *rr) by {
                if j < i {
                    assert(cs.take(i + 1)[j] == cs.take(i)[j]);
                    assert(answer_fits(cs.take(i)[j], prev[j], *rr));
                }
            }
        }
    }
    assert(cs.take(cs.len() as int) =~= cs);
    out
}

/// Validate a tree against a resolver's validation rules: the required
/// paths that are absent, then what the rules find node by node (see
/// `missing_required` and `node_checks`), with the type of each checked
/// scalar as the resolver answers it. Where the answer is known (a rule's
/// pattern matches the scalar, or the fallback schema is not custom) it is
/// that answer; only a custom fallback's answers are the user's, and they
/// bear on type mismatches alone.
pub fn validate_violations<R: SchemaResolver>(ast: &CustomNode, rr: &RuleResolver<R>) -> (res: Vec<Violation>)
    ensures
        exists|ans: Seq<YamlTypeView>|
            answers_fit(missing_required(rr.validate_views(), 0, *ast) + node_checks(*ast, "$"@, *rr), ans, *rr)
                && violation_views(res@) == outcome(
                missing_required(rr.validate_views(), 0, *ast) + node_checks(*ast, "$"@, *rr),
                ans,
            ),
        known_resolution(*rr) ==> violation_views(res@) == outcome(
            missing_required(rr.validate_views(), 0, *ast) + node_checks(*ast, "$"@, *rr),
            known_answers(missing_required(rr.validate_views(), 0, *ast) + node_checks(*ast, "$"@, *rr), *rr),
        ),
        violation_views(res@).filter(|v: ViolationView| not_mismatch(v)) == found_violations(
            missing_required(rr.validate_views(), 0, *ast) + node_checks(*ast, "$"@, *rr),
        ).filter(|v: ViolationView| not_mismatch(v)),
{
    let mut out: Vec<Check> = Vec::new();
    let rules = rr.validate_rules();
    let mut k: usize = 0;
    assert(check_views(out@) =~= Seq::<CheckView>::empty());
    assert(missing_required(rules@, 0, *ast) =~= Seq::<CheckView>::empty() + missing_required(rules@, 0, *ast));
    while k < rules.len()
        invariant
            0 <= k <= rules@.len(),
            rules@ == rr.validate_views(),
            missing_required(rules@, 0, *ast) == check_views(out@) + missing_required(rules@, k as int, *ast),
        decreases rules@.len() - k,
    {
        let ghost before = out@;
        let rule = &rules[k];
        let ghost m = match rule_path(*rule) {
            Some(p) => if rule.required && !contains_spec(*ast, p) {
                seq![CheckView::Found(ViolationView::RequiredMissing(p))]
            } else {
                Seq::<CheckView>::empty()
            },
            None => Seq::<CheckView>::empty(),
        };
        if rule.required {
            match &rule.path {
                Some(p) => {
                    if !contains_path(ast, p.as_str()) {
                        let v = Check::Found(Violation::RequiredMissing { path: p.clone() });
                        out.push(v);
                        proof {
                            lemma_checks_push(before, v);
                        }
                    }
                },
                None => {},
            }
        }
        proof {
            assert(check_views(out@) == check_views(before) + m);
            assert(check_views(before) + missing_required(rules@, k as int, *ast) =~= (check_views(before) + m)
                + missing_required(rules@, k + 1, *ast));
        }
        k = k + 1;
    }
    assert(check_views(out@) + Seq::<CheckView>::empty() =~= check_views(out@));
    let root = string_from("$");
    validate_recursive(ast, root.as_str(), rr, &mut out);
    let ghost cs = check_views(out@);
    let res = finish(out, rr);
    proof {
        let ans = choose|ans: Seq<YamlTypeView>| answers_fit(cs, ans, *rr) && violation_views(res@) == outcome(cs, ans);
        law_other_violations_ignore_answers(cs, ans);
        if known_resolution(*rr) {
            lemma_known_answers(cs, ans, *rr);
        }
    }
    res
}

/// The path a violation reports.
pub open spec fn violation_path(v: ViolationView) -> Seq<char> {
    match v {
        ViolationView::RequiredMissing(p) => p,
        ViolationView::RequiredNull(p) => p,
        ViolationView::RequiredKindNull(p, _) => p,
        ViolationView::TypeMismatch(p, _, _, _, _) => p,
    }
}

/// The paths of the nodes of a tree whose root has path `path`: the root,
/// then mapping values and sequence elements, as validation names them.
pub open spec fn node_path_set(n: CustomNode, path: Seq<char>) -> Set<Seq<char>>
    decreases n, 0int,
{
    set![path].union(
        match n {
            CustomNode::Mapping { pairs, .. } => pair_path_set(pairs@, 0, path),
            CustomNode::Sequence { items, .. } => item_path_set(items@, 0, path),
            _ => Set::empty(),
        },
    )
}

/// The node paths under the values of pairs `ps[i..]`.
pub open spec fn pair_path_set(ps: Seq<(CustomNode, CustomNode)>, i: int, path: Seq<char>) -> Set<Seq<char>>
    decreases ps, ps.len() - i,
{
    if i < 0 || i >= ps.len() {
        Set::empty()
    } else {
        node_path_set(ps[i].1, key_path(path, key_label(ps[i].0))).union(pair_path_set(ps, i + 1, path))
    }
}

/// The node paths under the elements `items[i..]`.
pub open spec fn item_path_set(items: Seq<CustomNode>, i: int, path: Seq<char>) -> Set<Seq<char>>
    decreases items, items.len() - i,
{
    if i < 0 || i >= items.len() {
        Set::empty()
    } else {
        node_path_set(items[i], index_path(path, i)).union(item_path_set(items, i + 1, path))
    }
}

/// The path a check reports.
pub open spec fn check_path(c: CheckView) -> Seq<char> {
    match c {
        CheckView::Found(v) => violation_path(v),
        CheckView::Scalar(_, p, ..) => p,
    }
}

/// Every check of `vs` names a path of `paths`.
pub open spec fn paths_within(vs: Seq<CheckView>, paths: Set<Seq<char>>) -> bool {
    forall|k: int| 0 <= k < vs.len() ==> paths.contains(#[trigger] check_path(vs[k]))
}

/// Every violation of `vs` names a path of `paths`.
pub open spec fn violation_paths_within(vs: Seq<ViolationView>, paths: Set<Seq<char>>) -> bool {
    forall|k: int| 0 <= k < vs.len() ==> paths.contains(#[trigger] violation_path(vs[k]))
}

/// The violations of checks name the checks' paths, whatever the answers.
proof fn lemma_outcome_paths(cs: Seq<CheckView>, ans: Seq<YamlTypeView>, paths: Set<Seq<char>>)
    requires
        paths_within(cs, paths),
    ensures
        violation_paths_within(outcome(cs, ans), paths),
    decreases cs.len(),
{
    if cs.len() > 0 {
        let d = cs.drop_last();
        assert forall|k: int| 0 <= k < d.len() implies paths.contains(#[trigger] check_path(d[k])) by {
            assert(d[k] == cs[k]);
        }
        lemma_outcome_paths(d, ans, paths);
        let a = outcome(d, ans);
        let b = check_outcome(cs.last(), ans[cs.len() - 1]);
        assert(paths.contains(check_path(cs[cs.len() - 1])));
        assert forall|k: int| 0 <= k < (a + b).len() implies paths.contains(#[trigger] violation_path((a + b)[k])) by {
            if k < a.len() {
                assert((a + b)[k] == a[k]);
            } else {
                assert((a + b)[k] == b[k - a.len()]);
            }
        }
    }
}

proof fn lemma_within_concat(a: Seq<CheckView>, b: Seq<CheckView>, paths: Set<Seq<char>>)
    requires
        paths_within(a, paths),
        paths_within(b, paths),
    ensures
        paths_within(a + b, paths),
{
    assert forall|k: int| 0 <= k < (a + b).len() implies paths.contains(#[trigger] check_path((a + b)[k])) by {
        if k < a.len() {
            assert((a + b)[k] == a[k]);
        } else {
            assert((a + b)[k] == b[k - a.len()]);
        }
    }
}

proof fn lemma_within_grow(a: Seq<CheckView>, small: Set<Seq<char>>, big: Set<Seq<char>>)
    requires
        paths_within(a, small),
        small.subset_of(big),
    ensures
        paths_within(a, big),
{
    assert forall|k: int| 0 <= k < a.len() implies big.contains(#[trigger] check_path(a[k])) by {
        assert(small.contains(check_path(a[k])));
    }
}

proof fn lemma_element_check_paths<R>(items: Seq<CustomNode>, i: int, path: Seq<char>, e: YamlTypeKind, rr: RuleResolver<R>)
    ensures
        paths_within(element_checks(items, i, path, e, rr), item_path_set(items, i, path)),
    decreases items.len() - i,
{
    if 0 <= i < items.len() {
        lemma_element_check_paths(items, i + 1, path, e, rr);
        let here = child_mismatch(items[i], index_path(path, i), MismatchContext::SequenceElement, e, rr);
        let all = item_path_set(items, i, path);
        assert(node_path_set(items[i], index_path(path, i)).contains(index_path(path, i)));
        assert(paths_within(here, all));
        lemma_within_grow(element_checks(items, i + 1, path, e, rr), item_path_set(items, i + 1, path), all);
        lemma_within_concat(here, element_checks(items, i + 1, path, e, rr), all);
    }
}

proof fn lemma_value_check_paths<R>(ps: Seq<(CustomNode, CustomNode)>, i: int, path: Seq<char>, e: YamlTypeKind, rr: RuleResolver<R>)
    ensures
        paths_within(value_checks(ps, i, path, e, rr), pair_path_set(ps, i, path)),
    decreases ps.len() - i,
{
    if 0 <= i < ps.len() {
        lemma_value_check_paths(ps, i + 1, path, e, rr);
        let cp = key_path(path, key_label(ps[i].0));
        let here = child_mismatch(ps[i].1, cp, MismatchContext::MappingValue, e, rr);
        let all = pair_path_set(ps, i, path);
        assert(node_path_set(ps[i].1, cp).contains(cp));
        assert(paths_within(here, all));
        lemma_within_grow(value_checks(ps, i + 1, path, e, rr), pair_path_set(ps, i + 1, path), all);
        lemma_within_concat(here, value_checks(ps, i + 1, path, e, rr), all);
    }
}

proof fn lemma_rules_check_paths<R>(rules: Seq<ValidateRule>, k: int, n: CustomNode, path: Seq<char>, rr: RuleResolver<R>)
    ensures
        paths_within(rules_check(rules, k, n, path, rr), node_path_set(n, path)),
    decreases rules.len() - k,
{
    if 0 <= k < rules.len() {
        lemma_rules_check_paths(rules, k + 1, n, path, rr);
        let all = node_path_set(n, path);
        assert(all.contains(path));
        let here = rule_check(rules[k], n, path, rr);
        match n {
            CustomNode::Sequence { items, .. } => {
                match rules[k].kind {
                    ValidateKind::SequenceOf(e) => {
                        lemma_element_check_paths(items@, 0, path, e, rr);
                        lemma_within_grow(element_checks(items@, 0, path, e, rr), item_path_set(items@, 0, path), all);
                    },
                    _ => {},
                }
            },
            CustomNode::Mapping { pairs, .. } => {
                match rules[k].kind {
                    ValidateKind::MappingOf(e) => {
                        lemma_value_check_paths(pairs@, 0, path, e, rr);
                        lemma_within_grow(value_checks(pairs@, 0, path, e, rr), pair_path_set(pairs@, 0, path), all);
                    },
                    _ => {},
                }
            },
            _ => {},
        }
        assert(paths_within(here, all));
        lemma_within_concat(here, rules_check(rules, k + 1, n, path, rr), all);
    }
}

/// The checks of a walk name only paths of nodes in the tree.
proof fn lemma_check_paths_exist<R>(n: CustomNode, path: Seq<char>, rr: RuleResolver<R>)
    ensures
        paths_within(node_checks(n, path, rr), node_path_set(n, path)),
    decreases n, 0int,
{
    let all = node_path_set(n, path);
    lemma_rules_check_paths(rr.validate_views(), 0, n, path, rr);
    match n {
        CustomNode::Mapping { pairs, .. } => {
            lemma_pair_children_paths(pairs@, 0, path, rr);
            lemma_within_grow(pair_children(pairs@, 0, path, rr), pair_path_set(pairs@, 0, path), all);
            lemma_within_concat(rules_check(rr.validate_views(), 0, n, path, rr), pair_children(pairs@, 0, path, rr), all);
        },
        CustomNode::Sequence { items, .. } => {
            lemma_item_children_paths(items@, 0, path, rr);
            lemma_within_grow(item_children(items@, 0, path, rr), item_path_set(items@, 0, path), all);
            lemma_within_concat(rules_check(rr.validate_views(), 0, n, path, rr), item_children(items@, 0, path, rr), all);
        },
        _ => {
            assert(node_checks(n, path, rr) =~= rules_check(rr.validate_views(), 0, n, path, rr));
        },
    }
}

proof fn lemma_pair_children_paths<R>(ps: Seq<(CustomNode, CustomNode)>, i: int, path: Seq<char>, rr: RuleResolver<R>)
    ensures
        paths_within(pair_children(ps, i, path, rr), pair_path_set(ps, i, path)),
    decreases ps, ps.len() - i,
{
    if 0 <= i < ps.len() {
        let cp = key_path(path, key_label(ps[i].0));
        let all = pair_path_set(ps, i, path);
        lemma_check_paths_exist(ps[i].1, cp, rr);
        lemma_pair_children_paths(ps, i + 1, path, rr);
        lemma_within_grow(node_checks(ps[i].1, cp, rr), node_path_set(ps[i].1, cp), all);
        lemma_within_grow(pair_children(ps, i + 1, path, rr), pair_path_set(ps, i + 1, path), all);
        lemma_within_concat(node_checks(ps[i].1, cp, rr), pair_children(ps, i + 1, path, rr), all);
    }
}

proof fn lemma_item_children_paths<R>(items: Seq<CustomNode>, i: int, path: Seq<char>, rr: RuleResolver<R>)
    ensures
        paths_within(item_children(items, i, path, rr), item_path_set(items, i, path)),
    decreases items, items.len() - i,
{
    if 0 <= i < items.len() {
        let cp = index_path(path, i);
        let all = item_path_set(items, i, path);
        lemma_check_paths_exist(items[i], cp, rr);
        lemma_item_children_paths(items, i + 1, path, rr);
        lemma_within_grow(node_checks(items[i], cp, rr), node_path_set(items[i], cp), all);
        lemma_within_grow(item_children(items, i + 1, path, rr), item_path_set(items, i + 1, path), all);
        lemma_within_concat(node_checks(items[i], cp, rr), item_children(items, i + 1, path, rr), all);
    }
}

/// Validation only reports paths of nodes that are in the tree, whatever
/// the resolver answers.
pub proof fn law_violation_paths_exist<R>(n: CustomNode, path: Seq<char>, rr: RuleResolver<R>, ans: Seq<YamlTypeView>)
    ensures
        violation_paths_within(outcome(node_checks(n, path, rr), ans), node_path_set(n, path)),
{
    lemma_check_paths_exist(n, path, rr);
    lemma_outcome_paths(node_checks(n, path, rr), ans, node_path_set(n, path));
}

/// Where a range may locate an error: it starts on a character boundary of
/// the source (and below the largest offset).
pub open spec fn locatable(source: Seq<char>, range: Option<Range<usize>>) -> bool {
    match range {
        Some(r) => on_char_boundary(source, r.start as int) && r.start < usize::MAX,
        None => true,
    }
}

/// An error at `path` with `message`, located by `range` when there is one.
pub open spec fn located_error(
    e: SchemaValidationError,
    source: Seq<char>,
    path: Seq<char>,
    message: Seq<char>,
    range: Option<Range<usize>>,
) -> bool {
    &&& e.path@ == path
    &&& e.message@ == message
    &&& match range {
        Some(r) => e.line == Some(location_of(source, r.start as int).0 as usize) && e.column == Some(
            location_of(source, r.start as int).1 as usize,
        ),
        None => e.line is None && e.column is None,
    }
}

/// The words naming where a mismatch was found, before the expected type.
pub open spec fn context_words(c: MismatchContext) -> Seq<char> {
    match c {
        MismatchContext::Scalar => ""@,
        MismatchContext::SequenceElement => "sequence element "@,
        MismatchContext::MappingValue => "mapping value "@,
    }
}

/// The message of a type mismatch, given how the resolved type reads.
pub open spec fn mismatch_message(c: MismatchContext, expected: YamlTypeKind, got: Seq<char>) -> Seq<char> {
    "expected "@ + context_words(c) + crate::schema_language::kind_text(expected) + " but got "@ + got
}

/// An error at `path` with `message`, located from `range` when given.
fn error_at(path: &str, message: &str, source: &str, range: Option<&Range<usize>>) -> (res: SchemaValidationError)
    requires
        match range {
            Some(r) => on_char_boundary(source@, r.start as int) && r.start < usize::MAX,
            None => true,
        },
    ensures
        located_error(
            res,
            source@,
            path@,
            message@,
            match range {
                Some(r) => Some(*r),
                None => None,
            },
        ),
{
    let e = SchemaValidationError::new(path, message);
    match range {
        Some(r) => e.with_location(source, Some(r)),
        None => e,
    }
}

/// The error reporting a violation that is not a type mismatch: the path,
/// its message, and for a null found by a `required` rule without a type,
/// the location of the null. `None` for a type mismatch, whose message
/// needs the resolved type's text (see `mismatch_error`).
pub fn violation_error(v: &Violation, source: &str) -> (res: Option<SchemaValidationError>)
    requires
        *v matches Violation::RequiredKindNull { range, .. } ==> locatable(source@, range),
    ensures
        match *v {
            Violation::RequiredMissing { path } => res matches Some(e) && located_error(
                e,
                source@,
                path@,
                "required path is missing"@,
                None,
            ),
            Violation::RequiredNull { path } => res matches Some(e) && located_error(
                e,
                source@,
                path@,
                "required value is null or missing"@,
                None,
            ),
            Violation::RequiredKindNull { path, range } => res matches Some(e) && located_error(
                e,
                source@,
                path@,
                "required path is null or missing"@,
                range,
            ),
            Violation::TypeMismatch { .. } => res is None,
        },
{
    match v {
        Violation::RequiredMissing { path } => Some(error_at(path.as_str(), "required path is missing", source, None)),
        Violation::RequiredNull { path } => Some(
            error_at(path.as_str(), "required value is null or missing", source, None),
        ),
        Violation::RequiredKindNull { path, range } => Some(
            error_at(path.as_str(), "required path is null or missing", source, range.as_ref()),
        ),
        Violation::TypeMismatch { .. } => None,
    }
}

/// The error reporting a type mismatch at `path`: `expected <where><type>
/// but got <got>`, where `got` is how the resolved type reads, located from
/// `range` when given.
pub fn mismatch_error(
    path: &str,
    context: MismatchContext,
    expected: YamlTypeKind,
    got: &str,
    source: &str,
    range: Option<&Range<usize>>,
) -> (res: SchemaValidationError)
    requires
        locatable(
            source@,
            match range {
                Some(r) => Some(*r),
                None => None,
            },
        ),
    ensures
        located_error(
            res,
            source@,
            path@,
            mismatch_message(context, expected, got@),
            match range {
                Some(r) => Some(*r),
                None => None,
            },
        ),
{
    let mut m = string_from("expected ");
    match context {
        MismatchContext::Scalar => {},
        MismatchContext::SequenceElement => m.append("sequence element "),
        MismatchContext::MappingValue => m.append("mapping value "),
    }
    m.append(expected.name());
    m.append(" but got ");
    m.append(got);
    proof {
        reveal_strlit("");
        assert(m@ =~= mismatch_message(context, expected, got@));
    }
    error_at(path, m.as_str(), source, range)
}

/// Whether `e` is the error a violation is reported as, with `got` the
/// text of the resolved type of a mismatch.
pub open spec fn error_for(e: SchemaValidationError, v: Violation, got: Seq<char>, source: Seq<char>) -> bool {
    match v {
        Violation::RequiredMissing { path } => located_error(e, source, path@, "required path is missing"@, None),
        Violation::RequiredNull { path } => located_error(e, source, path@, "required value is null or missing"@, None),
        Violation::RequiredKindNull { path, range } => located_error(
            e,
            source,
            path@,
            "required path is null or missing"@,
            range,
        ),
        Violation::TypeMismatch { path, context, expected, range, .. } => located_error(
            e,
            source,
            path@,
            mismatch_message(context, expected, got),
            range,
        ),
    }
}

/// The range a violation is located by.
pub open spec fn violation_range(v: Violation) -> Option<Range<usize>> {
    match v {
        Violation::RequiredKindNull { range, .. } => range,
        Violation::TypeMismatch { range, .. } => range,
        _ => None,
    }
}

/// The errors of violations, one each, in order: `got[i]` is how the
/// resolved type of the `i`-th violation reads where it is a mismatch (it is
/// not read otherwise).
pub fn violation_errors(vs: &Vec<Violation>, got: &Vec<String>, source: &str) -> (res: Vec<SchemaValidationError>)
    requires
        got@.len() == vs@.len(),
        forall|i: int| 0 <= i < vs@.len() ==> locatable(source@, violation_range(#[trigger] vs@[i])),
    ensures
        res@.len() == vs@.len(),
        forall|i: int| 0 <= i < vs@.len() ==> error_for(#[trigger] res@[i], vs@[i], got@[i]@, source@),
{
    let mut out: Vec<SchemaValidationError> = Vec::new();
    let mut i: usize = 0;
    while i < vs.len()
        invariant
            0 <= i <= vs@.len(),
            got@.len() == vs@.len(),
            out@.len() == i,
            forall|j: int| 0 <= j < vs@.len() ==> locatable(source@, violation_range(#[trigger] vs@[j])),
            forall|j: int| 0 <= j < i ==> error_for(#[trigger] out@[j], vs@[j], got@[j]@, source@),
        decreases vs@.len() - i,
    {
        assert(locatable(source@, violation_range(vs@[i as int])));
        let e = match &vs[i] {
            Violation::TypeMismatch { path, context, expected, range, .. } => mismatch_error(
                path.as_str(),
                *context,
                *expected,
                got[i].as_str(),
                source,
                range.as_ref(),
            ),
            v => match violation_error(v, source) {
                Some(e) => e,
                None => {
                    assert(false);
                    mismatch_error("", MismatchContext::Scalar, YamlTypeKind::Null, "", source, None)
                },
            },
        };
        out.push(e);
        i = i + 1;
    }
    out
}

/// Whether `[*]` stands at index `i` of `s`.
pub open spec fn star_at(s: Seq<char>, i: int) -> bool {
    0 <= i && i + 3 <= s.len() && s[i] == '[' && s[i + 1] == '*' && s[i + 2] == ']'
}

/// Whether `s` holds no `[*]`.
pub open spec fn star_free(s: Seq<char>) -> bool {
    forall|i: int| !#[trigger] star_at(s, i)
}

proof fn lemma_find_star_first(t: Seq<char>, j: int, f: int)
    requires
        0 <= j <= f,
        f == t.len() || star_at(t, f),
        forall|i: int| j <= i < f ==> !#[trigger] star_at(t, i),
    ensures
        find_star(t, j) == f,
    decreases f - j,
{
    if j < f {
        assert(!star_at(t, j));
        lemma_find_star_first(t, j + 1, f);
    } else if f == t.len() {
    }
}

/// A pattern with one `[*]` applies to a path exactly when the path is the
/// pattern itself, or starts with the text before `[*]`, ends with the text
/// after it, and has something in between.
pub proof fn law_wildcard_pattern(p: Seq<char>, s: Seq<char>, a: Seq<char>)
    requires
        star_free(p),
        star_free(s),
    ensures
        path_matches_spec(Some(p + "[*]"@ + s), a) <==> (a == p + "[*]"@ + s || (a.len() > p.len() + s.len() && a.take(
            p.len() as int,
        ) == p && a.skip(a.len() - s.len()) == s)),
{
    reveal_strlit("[*]");
    let t = p + "[*]"@ + s;
    let f = p.len() as int;
    assert(star_at(t, f));
    assert forall|i: int| 0 <= i < f implies !#[trigger] star_at(t, i) by {
        if i + 3 <= p.len() {
            assert(!star_at(p, i));
            assert(t[i] == p[i] && t[i + 1] == p[i + 1] && t[i + 2] == p[i + 2]);
        } else if i == f - 1 {
            assert(t[i + 1] == '[');
        } else if i == f - 2 {
            assert(t[i + 2] == '[');
        }
    }
    lemma_find_star_first(t, 0, f);
    assert forall|i: int| f + 3 <= i < t.len() implies !#[trigger] star_at(t, i) by {
        assert(!star_at(s, i - f - 3));
        if i + 3 <= t.len() {
            assert(t[i] == s[i - f - 3] && t[i + 1] == s[i - f - 2] && t[i + 2] == s[i - f - 1]);
        }
    }
    lemma_find_star_first(t, f + 3, t.len() as int);
    assert(t.take(f) =~= p);
    assert(t.skip(f + 3) =~= s);
}

/// A pattern without `[*]` applies to that very path only, and no pattern
/// applies to every path.
pub proof fn law_exact_pattern(p: Seq<char>, a: Seq<char>)
    requires
        star_free(p),
    ensures
        path_matches_spec(Some(p), a) <==> a == p,
        path_matches_spec(None, a),
{
    lemma_find_star_first(p, 0, p.len() as int);
}

} // verus!
