//! Raw-text scanning: line offsets, marker presence, and extraction of
//! comments and anchor definitions from YAML source text.
use crate::ast::Comment;
use crate::text::{chars_of, lemma_encode_utf8_concat, is_whitespace, is_ws, lemma_utf8_len_push, string_of, trim, trim_bounds, utf8_len, width_of};
use vstd::prelude::*;
use vstd::string::*;

verus! {

/// Byte offsets of the start of each line of `b`: `0`, then one past every
/// `\n` byte, in order.
pub open spec fn line_offsets_spec(b: Seq<u8>) -> Seq<usize>
    decreases b.len(),
{
    if b.len() == 0 {
        seq![0usize]
    } else {
        let prev = line_offsets_spec(b.drop_last());
        if b.last() == 10u8 {
            prev.push(b.len() as usize)
        } else {
            prev
        }
    }
}

/// Result of a single full-text scan over the input.
#[derive(Debug)]
pub struct YamlScan {
    /// Byte offset of the start of each line (`len = lines + 1`).
    pub line_offsets: Vec<usize>,
    /// Whether the text contains a `#` (possible comment).
    pub has_hash: bool,
    /// Whether the text contains an `&` (possible anchor).
    pub has_amp: bool,
    /// Whether the text is entirely ASCII.
    pub is_ascii: bool,
}

/// Single pass over `yaml` collecting line offsets and marker presence.
pub fn scan_yaml(yaml: &str) -> (res: YamlScan)
    ensures
        res.line_offsets@ == line_offsets_spec(yaml.spec_bytes()),
        res.has_hash == yaml.spec_bytes().contains(35u8),
        res.has_amp == yaml.spec_bytes().contains(38u8),
        res.is_ascii == (forall|i: int|
            0 <= i < yaml.spec_bytes().len() ==> #[trigger] yaml.spec_bytes()[i] < 128u8),
{
    let bytes = yaml.as_bytes();
    let ghost b = yaml.spec_bytes();
    let mut offsets: Vec<usize> = Vec::new();
    offsets.push(0);
    let mut has_hash = false;
    let mut has_amp = false;
    let mut is_ascii = true;
    let n = bytes.len();
    let mut i: usize = 0;
    while i < n
        invariant
            bytes@ == b,
            n == b.len(),
            0 <= i <= n,
            offsets@ == line_offsets_spec(b.take(i as int)),
            has_hash == b.take(i as int).contains(35u8),
            has_amp == b.take(i as int).contains(38u8),
            is_ascii == (forall|j: int| 0 <= j < i ==> #[trigger] b[j] < 128u8),
        decreases n - i,
    {
        let byte = bytes[i];
        proof {
            assert(b.take(i + 1).drop_last() =~= b.take(i as int));
            assert(b.take(i + 1).last() == b[i as int]);
        }
        if byte == 10u8 {
            offsets.push(i + 1);
        } else if byte == 35u8 {
            has_hash = true;
        } else if byte == 38u8 {
            has_amp = true;
        } else if byte >= 128u8 {
            is_ascii = false;
        }
        proof {
            assert(b.take(i + 1) =~= b.take(i as int).push(byte));
            if b.take(i as int).contains(35u8) {
                let k = choose|k: int| 0 <= k < i && b.take(i as int)[k] == 35u8;
                assert(b.take(i + 1)[k] == 35u8);
            }
            if b.take(i as int).contains(38u8) {
                let k = choose|k: int| 0 <= k < i && b.take(i as int)[k] == 38u8;
                assert(b.take(i + 1)[k] == 38u8);
            }
            if byte == 35u8 {
                assert(b.take(i + 1)[i as int] == 35u8);
            }
            if byte == 38u8 {
                assert(b.take(i + 1)[i as int] == 38u8);
            }
        }
        i = i + 1;
    }
    assert(b.take(n as int) =~= b);
    YamlScan { line_offsets: offsets, has_hash, has_amp, is_ascii }
}

/// The offsets of `line_offsets_spec`, ended by the offset just past the
/// last byte when that is not already the last entry: one start offset per
/// line, plus the end.
pub open spec fn line_offsets_with_end(b: Seq<u8>) -> Seq<usize> {
    let s = line_offsets_spec(b);
    if s.last() == b.len() as usize {
        s
    } else {
        s.push(b.len() as usize)
    }
}

/// Byte offset of the start of each line of `yaml`, followed by the offset
/// past the final character: `number_of_lines + 1` entries.
pub fn compute_line_offsets(yaml: &str) -> (res: Vec<usize>)
    ensures
        res@ == line_offsets_with_end(yaml.spec_bytes()),
{
    let mut v = scan_yaml(yaml).line_offsets;
    proof {
        lemma_line_offsets_nonempty(yaml.spec_bytes());
    }
    let n = yaml.len();
    if v[v.len() - 1] != n {
        v.push(n);
    }
    v
}

proof fn lemma_line_offsets_nonempty(b: Seq<u8>)
    ensures
        line_offsets_spec(b).len() >= 1,
    decreases b.len(),
{
    if b.len() > 0 {
        lemma_line_offsets_nonempty(b.drop_last());
    }
}


/// Index of the first `\n` of `s` at or after `i`, or `s.len()`.
pub open spec fn newline_from(s: Seq<char>, i: int) -> int
    decreases s.len() - i,
{
    if i >= s.len() {
        s.len() as int
    } else if s[i] == '\n' {
        i
    } else {
        newline_from(s, i + 1)
    }
}

pub proof fn lemma_newline_from(s: Seq<char>, i: int)
    requires
        0 <= i <= s.len(),
    ensures
        i <= newline_from(s, i) <= s.len(),
        newline_from(s, i) < s.len() ==> s[newline_from(s, i)] == '\n',
        forall|j: int| i <= j < newline_from(s, i) ==> s[j] != '\n',
    decreases s.len() - i,
{
    if i < s.len() && s[i] != '\n' {
        lemma_newline_from(s, i + 1);
    }
}

/// The lines of `s` as `str::lines` yields them: split at `\n`, a `\r`
/// directly before a `\n` removed, no empty line after a final `\n`.
pub open spec fn lines_of(s: Seq<char>) -> Seq<Seq<char>>
    decreases s.len(),
{
    if s.len() == 0 {
        seq![]
    } else {
        proof {
            lemma_newline_from(s, 0);
        }
        let e = newline_from(s, 0);
        let raw = s.take(e);
        let line = if e < s.len() && e > 0 && raw.last() == '\r' {
            raw.drop_last()
        } else {
            raw
        };
        let next = if e < s.len() {
            e + 1
        } else {
            s.len() as int
        };
        seq![line] + lines_of(s.skip(next))
    }
}

/// One step of the quote/escape automaton over `(in_single, in_double, escaped)`.
pub open spec fn quote_step(st: (bool, bool, bool), ch: char) -> (bool, bool, bool) {
    if st.2 {
        (st.0, st.1, false)
    } else if ch == '\\' && (st.0 || st.1) {
        (st.0, st.1, true)
    } else if ch == '\'' && !st.1 {
        (!st.0, st.1, false)
    } else if ch == '"' && !st.0 {
        (st.0, !st.1, false)
    } else {
        st
    }
}

/// Quote/escape state of `line` just before character `k`.
pub open spec fn quote_state(line: Seq<char>, k: int) -> (bool, bool, bool)
    decreases k,
{
    if k <= 0 {
        (false, false, false)
    } else {
        quote_step(quote_state(line, k - 1), line[k - 1])
    }
}

/// Character `k` of `line` lies outside single and double quotes.
pub open spec fn unquoted(line: Seq<char>, k: int) -> bool {
    !quote_state(line, k).0 && !quote_state(line, k).1
}

/// Character `k` of `line` is an unquoted `#`.
pub open spec fn is_comment_start(line: Seq<char>, k: int) -> bool {
    0 <= k < line.len() && unquoted(line, k) && line[k] == '#'
}

/// The first unquoted `#` of `line` at or after `k`.
pub open spec fn comment_start_from(line: Seq<char>, k: int) -> Option<int>
    decreases line.len() - k,
{
    if k >= line.len() || k < 0 {
        None
    } else if is_comment_start(line, k) {
        Some(k)
    } else {
        comment_start_from(line, k + 1)
    }
}

/// Where the comment of `line` starts, if it has one.
pub open spec fn comment_start(line: Seq<char>) -> Option<int> {
    comment_start_from(line, 0)
}

/// The comment of a line: byte column of `#`, trimmed text after it, and
/// whether only whitespace precedes it.
pub open spec fn line_comment(line: Seq<char>) -> Option<(int, Seq<char>, bool)> {
    match comment_start(line) {
        Some(k) => Some(
            (utf8_len(line.take(k)), trim(line.skip(k + 1)), trim(line.take(k)).len() == 0),
        ),
        None => None,
    }
}

/// A character that can appear in an unquoted anchor name: anything but
/// whitespace and the flow indicators `{}[],`.
pub open spec fn anchor_char(c: char) -> bool {
    !is_ws(c) && c != '{' && c != '}' && c != '[' && c != ']' && c != ','
}

/// Index of the first `"` of `s` at or after `i`, or `s.len()`.
pub open spec fn quote_from(s: Seq<char>, i: int) -> int
    decreases s.len() - i,
{
    if i >= s.len() {
        s.len() as int
    } else if s[i] == '"' {
        i
    } else {
        quote_from(s, i + 1)
    }
}

/// Index of the first non-anchor character of `s` at or after `i`, or `s.len()`.
pub open spec fn anchor_run_from(s: Seq<char>, i: int) -> int
    decreases s.len() - i,
{
    if i >= s.len() {
        s.len() as int
    } else if !anchor_char(s[i]) {
        i
    } else {
        anchor_run_from(s, i + 1)
    }
}

/// The anchor name that follows an `&`: either `"..."` (up to the next quote
/// or the end) or a run of anchor characters; `None` when empty.
pub open spec fn anchor_name(rest: Seq<char>) -> Option<Seq<char>> {
    if rest.len() == 0 {
        None
    } else if rest[0] == '"' {
        let name = rest.subrange(1, quote_from(rest, 1));
        if name.len() == 0 {
            None
        } else {
            Some(name)
        }
    } else if anchor_char(rest[0]) {
        Some(rest.take(anchor_run_from(rest, 0)))
    } else {
        None
    }
}

/// Character `k` of `line` introduces an anchor definition.
pub open spec fn is_anchor_at(line: Seq<char>, k: int) -> bool {
    0 <= k < line.len() && unquoted(line, k) && line[k] == '&' && anchor_name(
        line.skip(k + 1),
    ) is Some
}

/// Anchor definitions `(byte column, name)` among the first `k` characters of `line`.
pub open spec fn anchors_before(line: Seq<char>, k: int) -> Seq<(int, Seq<char>)>
    decreases k,
{
    if k <= 0 {
        seq![]
    } else if is_anchor_at(line, k - 1) {
        anchors_before(line, k - 1).push(
            (utf8_len(line.take(k - 1)), anchor_name(line.skip(k))->0),
        )
    } else {
        anchors_before(line, k - 1)
    }
}

/// Anchor definitions of a line, up to its comment.
pub open spec fn line_anchors(line: Seq<char>) -> Seq<(int, Seq<char>)> {
    match comment_start(line) {
        Some(k) => anchors_before(line, k),
        None => anchors_before(line, line.len() as int),
    }
}

/// Comments `(line, column, text, standalone)` of a sequence of lines.
pub open spec fn comments_of_lines(lines: Seq<Seq<char>>) -> Seq<(int, int, Seq<char>, bool)>
    decreases lines.len(),
{
    if lines.len() == 0 {
        seq![]
    } else {
        let prev = comments_of_lines(lines.drop_last());
        match line_comment(lines.last()) {
            Some((col, text, standalone)) => prev.push(
                ((lines.len() - 1) as int, col, text, standalone),
            ),
            None => prev,
        }
    }
}

/// Anchor definitions `(line, column, name)` of a sequence of lines.
pub open spec fn anchors_of_lines(lines: Seq<Seq<char>>) -> Seq<(int, int, Seq<char>)>
    decreases lines.len(),
{
    if lines.len() == 0 {
        seq![]
    } else {
        let idx = (lines.len() - 1) as int;
        anchors_of_lines(lines.drop_last()) + line_anchors(lines.last()).map_values(
            |a: (int, Seq<char>)| (idx, a.0, a.1),
        )
    }
}

/// A comment found in the raw YAML text.
#[derive(Debug, Clone)]
pub struct RawComment {
    /// Line of the comment (0-based)
    pub line: usize,
    /// Byte column of the `#` (0-based)
    pub col: usize,
    /// Comment text, without the `#` and surrounding whitespace
    pub text: String,
    /// `true` for a comment alone on its line, `false` for a line-end comment
    pub standalone: bool,
}

impl View for RawComment {
    type V = (int, int, Seq<char>, bool);

    open spec fn view(&self) -> (int, int, Seq<char>, bool) {
        (self.line as int, self.col as int, self.text@, self.standalone)
    }
}

/// An anchor definition found in the raw YAML text.
#[derive(Debug, Clone)]
pub struct RawAnchor {
    /// Line of the anchor (0-based)
    pub line: usize,
    /// Byte column of the `&` (0-based)
    pub col: usize,
    /// Anchor name, without the `&`
    pub name: String,
}

impl View for RawAnchor {
    type V = (int, int, Seq<char>);

    open spec fn view(&self) -> (int, int, Seq<char>) {
        (self.line as int, self.col as int, self.name@)
    }
}

/// Views of a list of comments.
pub open spec fn comment_views(v: Seq<RawComment>) -> Seq<(int, int, Seq<char>, bool)> {
    v.map_values(|c: RawComment| c@)
}

/// Views of a list of anchors.
pub open spec fn anchor_views(v: Seq<RawAnchor>) -> Seq<(int, int, Seq<char>)> {
    v.map_values(|a: RawAnchor| a@)
}

/// Whether `c` may appear in an unquoted anchor name.
fn is_valid_anchor_char(c: char) -> (res: bool)
    ensures
        res == anchor_char(c),
{
    !is_whitespace(c) && c != '{' && c != '}' && c != '[' && c != ']' && c != ','
}

/// Advance the quote/escape state machine over one character; `true` when
/// the character was consumed (quote toggle or escape).
fn is_string_char(
    in_single_quote: &mut bool,
    in_double_quote: &mut bool,
    escaped: &mut bool,
    ch: char,
) -> (res: bool)
    ensures
        (*final(in_single_quote), *final(in_double_quote), *final(escaped)) == quote_step(
            (*old(in_single_quote), *old(in_double_quote), *old(escaped)),
            ch,
        ),
        res == (quote_step((*old(in_single_quote), *old(in_double_quote), *old(escaped)), ch)
            != (*old(in_single_quote), *old(in_double_quote), *old(escaped))),
{
    if *escaped {
        *escaped = false;
        return true;
    }
    if ch == '\\' && (*in_single_quote || *in_double_quote) {
        *escaped = true;
        return true;
    }
    if ch == '\'' && !*in_double_quote {
        *in_single_quote = !*in_single_quote;
        return true;
    }
    if ch == '"' && !*in_single_quote {
        *in_double_quote = !*in_double_quote;
        return true;
    }
    false
}

/// Scan an anchor name from `v[from..to]`, the text after an `&`.
fn scan_anchor_name(v: &Vec<char>, from: usize, to: usize) -> (res: Option<String>)
    requires
        from <= to <= v@.len(),
    ensures
        match anchor_name(v@.subrange(from as int, to as int)) {
            Some(n) => res matches Some(s) && s@ == n,
            None => res is None,
        },
{
    let ghost rest = v@.subrange(from as int, to as int);
    if from >= to {
        return None;
    }
    let first = v[from];
    if first == '"' {
        let mut q = from + 1;
        while q < to && v[q] != '"'
            invariant
                from + 1 <= q <= to <= v@.len(),
                rest == v@.subrange(from as int, to as int),
                quote_from(rest, 1) == quote_from(rest, q - from),
            decreases to - q,
        {
            assert(rest[q - from] == v@[q as int]);
            q = q + 1;
        }
        if q == from + 1 {
            return None;
        }
        let name = string_of(v, from + 1, q);
        assert(name@ =~= rest.subrange(1, quote_from(rest, 1)));
        Some(name)
    } else if is_valid_anchor_char(first) {
        let mut q = from + 1;
        while q < to && is_valid_anchor_char(v[q])
            invariant
                from + 1 <= q <= to <= v@.len(),
                rest == v@.subrange(from as int, to as int),
                anchor_run_from(rest, 0) == anchor_run_from(rest, q - from),
            decreases to - q,
        {
            assert(rest[q - from] == v@[q as int]);
            q = q + 1;
        }
        let name = string_of(v, from, q);
        assert(name@ =~= rest.take(anchor_run_from(rest, 0)));
        Some(name)
    } else {
        None
    }
}

proof fn lemma_comment_start_first(line: Seq<char>, k0: int, k: int)
    requires
        0 <= k0 <= k,
        forall|j: int| k0 <= j < k ==> !#[trigger] is_comment_start(line, j),
        k < line.len() ==> is_comment_start(line, k),
        k <= line.len(),
    ensures
        comment_start_from(line, k0) == if k < line.len() {
            Some(k)
        } else {
            None::<int>
        },
    decreases k - k0,
{
    if k0 < k {
        lemma_comment_start_first(line, k0 + 1, k);
    }
}

proof fn lemma_utf8_len_prefix(s: Seq<char>, k: int)
    requires
        0 <= k <= s.len(),
    ensures
        utf8_len(s.take(k)) <= utf8_len(s),
{
    lemma_encode_utf8_concat(s.take(k), s.skip(k));
    assert(s.take(k) + s.skip(k) =~= s);
}

pub proof fn lemma_utf8_len_sub(s: Seq<char>, a: int, b: int)
    requires
        0 <= a <= b <= s.len(),
    ensures
        utf8_len(s.subrange(a, b)) <= utf8_len(s),
{
    lemma_encode_utf8_concat(s.take(a), s.skip(a));
    assert(s.take(a) + s.skip(a) =~= s);
    lemma_utf8_len_prefix(s.skip(a), b - a);
    assert(s.skip(a).take(b - a) =~= s.subrange(a, b));
}

/// Scan one line `v[ls..le]` for its comment and anchor definitions.
fn scan_line(
    v: &Vec<char>,
    ls: usize,
    le: usize,
    line_idx: usize,
    comments: &mut Vec<RawComment>,
    anchors: &mut Vec<RawAnchor>,
)
    requires
        ls <= le <= v@.len(),
        utf8_len(v@.subrange(ls as int, le as int)) <= usize::MAX,
    ensures
        comment_views(final(comments)@) == comment_views(old(comments)@) + match line_comment(
            v@.subrange(ls as int, le as int),
        ) {
            Some((col, text, standalone)) => seq![(line_idx as int, col, text, standalone)],
            None => seq![],
        },
        anchor_views(final(anchors)@) == anchor_views(old(anchors)@) + line_anchors(
            v@.subrange(ls as int, le as int),
        ).map_values(|a: (int, Seq<char>)| (line_idx as int, a.0, a.1)),
{
    let ghost line = v@.subrange(ls as int, le as int);
    let ghost c0 = comment_views(comments@);
    let ghost a0 = anchor_views(anchors@);
    let mut in_single = false;
    let mut in_double = false;
    let mut escaped = false;
    let mut col: usize = 0;
    let mut j = ls;
    let ghost mapf = |a: (int, Seq<char>)| (line_idx as int, a.0, a.1);
    assert(anchors_before(line, 0).map_values(mapf) =~= Seq::<(int, int, Seq<char>)>::empty());
    assert(a0 + Seq::<(int, int, Seq<char>)>::empty() =~= a0);
    while j < le
        invariant
            ls <= j <= le <= v@.len(),
            line == v@.subrange(ls as int, le as int),
            (in_single, in_double, escaped) == quote_state(line, j - ls),
            col == utf8_len(line.take(j - ls)),
            utf8_len(line) <= usize::MAX,
            forall|k: int| 0 <= k < j - ls ==> !#[trigger] is_comment_start(line, k),
            comment_views(comments@) == c0,
            c0 == comment_views(old(comments)@),
            a0 == anchor_views(old(anchors)@),
            anchor_views(anchors@) == a0 + anchors_before(line, j - ls).map_values(mapf),
            mapf == (|a: (int, Seq<char>)| (line_idx as int, a.0, a.1)),
        decreases le - j,
    {
        let ch = v[j];
        let ghost k = j - ls;
        assert(line[k] == ch);
        if !in_single && !in_double && ch == '#' {
            let (ta, tb) = trim_bounds(v, j + 1, le);
            let (pa, pb) = trim_bounds(v, ls, j);
            let text = string_of(v, ta, tb);
            comments.push(RawComment { line: line_idx, col, text, standalone: pa == pb });
            proof {
                assert(is_comment_start(line, k));
                lemma_comment_start_first(line, 0, k);
                assert(v@.subrange(j + 1, le as int) =~= line.skip(k + 1));
                assert(v@.subrange(ls as int, j as int) =~= line.take(k));
                assert(comment_start(line) == Some(k));
                assert(line_comment(line) == Some((col as int, text@, pa == pb)));
                assert(line_anchors(line) == anchors_before(line, k));
                assert(anchor_views(anchors@) == a0 + line_anchors(line).map_values(mapf));
                assert(comment_views(comments@) =~= c0 + seq![(line_idx as int, col as int, text@, pa == pb)]);
            }
            return;
        }
        let ghost a_before = anchor_views(anchors@);
        if !in_single && !in_double && ch == '&' {
            let name = scan_anchor_name(v, j + 1, le);
            proof {
                assert(v@.subrange(j + 1, le as int) =~= line.skip(k + 1));
            }
            if let Some(anchor_name) = name {
                let ghost nv = anchor_name@;
                anchors.push(RawAnchor { line: line_idx, col, name: anchor_name });
                proof {
                    assert(is_anchor_at(line, k));
                    assert(anchor_views(anchors@) =~= a_before.push((line_idx as int, col as int, nv)));
                }
            } else {
                assert(!is_anchor_at(line, k));
                assert(anchor_views(anchors@) =~= a_before);
            }
        } else {
            assert(!is_anchor_at(line, k));
            assert(anchor_views(anchors@) =~= a_before);
        }
        let _ = is_string_char(&mut in_single, &mut in_double, &mut escaped, ch);
        proof {
            assert(!is_comment_start(line, k));
            assert(line.take(k + 1) =~= line.take(k).push(ch));
            lemma_utf8_len_push(line.take(k), ch);
            lemma_utf8_len_prefix(line, k + 1);
            if is_anchor_at(line, k) {
                assert(anchors_before(line, k + 1) == anchors_before(line, k).push(
                    (utf8_len(line.take(k)), anchor_name(line.skip(k + 1))->0),
                ));
                assert(anchors_before(line, k + 1).map_values(mapf) =~= anchors_before(line, k).map_values(mapf).push(
                    mapf((utf8_len(line.take(k)), anchor_name(line.skip(k + 1))->0)),
                ));
                assert(anchor_views(anchors@) =~= a0 + anchors_before(line, k + 1).map_values(mapf));
            } else {
                assert(anchor_views(anchors@) =~= a0 + anchors_before(line, k + 1).map_values(mapf));
            }
        }
        let w = width_of(ch);
        col = col + w;
        j = j + 1;
    }
    proof {
        let n = (le - ls) as int;
        assert(line.len() == n);
        lemma_comment_start_first(line, 0, n);
        assert(comment_views(comments@) =~= c0 + Seq::<(int, int, Seq<char>, bool)>::empty());
    }
}

/// Single pass extracting both comments and anchor definitions, line by line.
/// A `#` or `&` inside single or double quotes is part of the string.
pub fn extract_comments_and_anchors(yaml: &str) -> (res: (Vec<RawComment>, Vec<RawAnchor>))
    requires
        utf8_len(yaml@) <= usize::MAX,
    ensures
        comment_views(res.0@) == comments_of_lines(lines_of(yaml@)),
        anchor_views(res.1@) == anchors_of_lines(lines_of(yaml@)),
{
    let v = chars_of(yaml);
    let ghost s = yaml@;
    let mut comments: Vec<RawComment> = Vec::new();
    let mut anchors: Vec<RawAnchor> = Vec::new();
    let n = v.len();
    let mut ls: usize = 0;
    let mut line_idx: usize = 0;
    let ghost mut done: Seq<Seq<char>> = seq![];
    assert(s.skip(0) =~= s);
    assert(comment_views(comments@) =~= Seq::<(int, int, Seq<char>, bool)>::empty());
    assert(anchor_views(anchors@) =~= Seq::<(int, int, Seq<char>)>::empty());
    while ls < n
        invariant
            v@ == s,
            n == s.len(),
            0 <= ls <= n,
            line_idx == done.len(),
            line_idx <= ls,
            lines_of(s) == done + lines_of(s.skip(ls as int)),
            utf8_len(s) <= usize::MAX,
            comment_views(comments@) == comments_of_lines(done),
            anchor_views(anchors@) == anchors_of_lines(done),
        decreases n - ls,
    {
        let ghost t = s.skip(ls as int);
        let mut e = ls;
        while e < n && v[e] != '\n'
            invariant
                ls <= e <= n,
                v@ == s,
                n == s.len(),
                t == s.skip(ls as int),
                newline_from(t, 0) == newline_from(t, e - ls),
            decreases n - e,
        {
            e = e + 1;
        }
        assert(newline_from(t, e - ls) == e - ls);
        let le = if e < n && e > ls && v[e - 1] == '\r' { e - 1 } else { e };
        let ghost line = v@.subrange(ls as int, le as int);
        proof {
            let raw = t.take(e - ls);
            assert(raw =~= s.subrange(ls as int, e as int));
            if e < n && e > ls && v@[e - 1] == '\r' {
                assert(raw.last() == '\r');
                assert(line =~= raw.drop_last());
            } else {
                assert(line =~= raw);
            }
            let next = if e < n { e + 1 } else { n as int };
            assert(t.skip(next - ls) =~= s.skip(next));
            assert(lines_of(t) == seq![line] + lines_of(t.skip(next - ls)));
        }
        proof {
            lemma_utf8_len_sub(s, ls as int, le as int);
        }
        scan_line(&v, ls, le, line_idx, &mut comments, &mut anchors);
        proof {
            let nd = done.push(line);
            assert(nd.drop_last() =~= done);
            assert(nd.last() == line);
            let next = if e < n { e + 1 } else { n as int };
            assert(done + lines_of(t) =~= nd + lines_of(s.skip(next)));
            done = nd;
        }
        line_idx = line_idx + 1;
        ls = if e < n { e + 1 } else { n };
    }
    proof {
        assert(s.skip(n as int) =~= Seq::<char>::empty());
        assert(done + Seq::<Seq<char>>::empty() =~= done);
    }
    (comments, anchors)
}

/// All comments of the raw text, in line order.
pub fn extract_comments(yaml: &str) -> (res: Vec<RawComment>)
    requires
        utf8_len(yaml@) <= usize::MAX,
    ensures
        comment_views(res@) == comments_of_lines(lines_of(yaml@)),
{
    let (comments, _) = extract_comments_and_anchors(yaml);
    comments
}

/// All anchor definitions (`&name`) of the raw text, in order of appearance.
pub fn extract_anchors(yaml: &str) -> (res: Vec<RawAnchor>)
    requires
        utf8_len(yaml@) <= usize::MAX,
    ensures
        anchor_views(res@) == anchors_of_lines(lines_of(yaml@)),
{
    let (_, anchors) = extract_comments_and_anchors(yaml);
    anchors
}

/// Position of the first line-end comment on `line` at or after byte column
/// `after`, searching from index `i` of `cs` and skipping earlier lines; the
/// search stops at the first comment of a later line.
pub open spec fn inline_from(cs: Seq<(int, int, Seq<char>, bool)>, i: int, line: int, after: int) -> Option<int>
    decreases cs.len() - i,
{
    if i >= cs.len() || i < 0 {
        None
    } else if cs[i].0 > line {
        None
    } else if cs[i].0 < line {
        inline_from(cs, i + 1, line, after)
    } else if cs[i].1 >= after && !cs[i].3 {
        Some(i)
    } else {
        inline_from(cs, i + 1, line, after)
    }
}

/// Scanning `cs` from index `i` over the comments of lines before `line`:
/// the index where the scan stops, and the last standalone comment passed.
pub open spec fn standalone_scan(cs: Seq<(int, int, Seq<char>, bool)>, i: int, line: int) -> (int, Option<int>)
    decreases cs.len() - i,
{
    if i >= cs.len() || i < 0 || cs[i].0 >= line {
        (i, None)
    } else {
        let (e, last) = standalone_scan(cs, i + 1, line);
        (e, if last is Some { last } else if cs[i].3 { Some(i) } else { None })
    }
}

/// Cursor over extracted comments and anchors, consumed in document order
/// while the AST or event stream is built.
#[derive(Debug)]
pub struct CommentAnchorTracker {
    raw_comments: Vec<RawComment>,
    raw_anchors: Vec<RawAnchor>,
    comment_idx: usize,
    next_anchor_name: usize,
}

impl CommentAnchorTracker {
    /// The comments the tracker walks over.
    pub closed spec fn comments(self) -> Seq<(int, int, Seq<char>, bool)> {
        comment_views(self.raw_comments@)
    }

    /// The anchors the tracker hands out.
    pub closed spec fn anchors(self) -> Seq<(int, int, Seq<char>)> {
        anchor_views(self.raw_anchors@)
    }

    /// Index of the next comment not yet passed.
    pub closed spec fn comment_pos(self) -> int {
        self.comment_idx as int
    }

    /// Index of the next anchor to hand out.
    pub closed spec fn anchor_pos(self) -> int {
        self.next_anchor_name as int
    }

    pub fn new(raw_comments: Vec<RawComment>, raw_anchors: Vec<RawAnchor>) -> (res: Self)
        ensures
            res.comments() == comment_views(raw_comments@),
            res.anchors() == anchor_views(raw_anchors@),
            res.comment_pos() == 0,
            res.anchor_pos() == 0,
    {
        CommentAnchorTracker { raw_comments, raw_anchors, comment_idx: 0, next_anchor_name: 0 }
    }

    /// Find a line-end comment on `line` starting at or after byte column
    /// `after_col`. The cursor moves to it when found and stays put otherwise.
    pub fn find_inline_comment(&mut self, line: usize, after_col: usize) -> (res: Option<Comment>)
        ensures
            final(self).comments() == old(self).comments(),
            final(self).anchors() == old(self).anchors(),
            final(self).anchor_pos() == old(self).anchor_pos(),
            match inline_from(old(self).comments(), old(self).comment_pos(), line as int, after_col as int) {
                Some(k) => res matches Some(c) && c.text@ == old(self).comments()[k].2 && !c.standalone
                    && final(self).comment_pos() == k,
                None => res is None && final(self).comment_pos() == old(self).comment_pos(),
            },
    {
        let saved_idx = self.comment_idx;
        let ghost cs = self.comments();
        let ghost start = self.comment_idx as int;
        while self.comment_idx < self.raw_comments.len()
            invariant
                cs == comment_views(self.raw_comments@),
                saved_idx == start,
                self.anchors() == old(self).anchors(),
                self.next_anchor_name == old(self).next_anchor_name,
                old(self).comments() == cs,
                old(self).comment_pos() == start,
                start <= self.comment_idx,
                inline_from(cs, start, line as int, after_col as int) == inline_from(
                    cs,
                    self.comment_idx as int,
                    line as int,
                    after_col as int,
                ),
            ensures
                inline_from(cs, start, line as int, after_col as int) is None,
            decreases self.raw_comments.len() - self.comment_idx,
        {
            let c = &self.raw_comments[self.comment_idx];
            assert(cs[self.comment_idx as int] == c@);
            if c.line > line {
                break;
            }
            if c.line < line {
                self.comment_idx += 1;
                continue;
            }
            if c.col >= after_col && !c.standalone {
                let comment = Comment { text: c.text.clone(), standalone: false };
                return Some(comment);
            }
            self.comment_idx += 1;
        }
        self.comment_idx = saved_idx;
        None
    }

    /// Pass every comment of a line before `line` and return the last
    /// standalone one among them.
    pub fn find_standalone_before_line(&mut self, line: usize) -> (res: Option<Comment>)
        ensures
            final(self).comments() == old(self).comments(),
            final(self).anchors() == old(self).anchors(),
            final(self).anchor_pos() == old(self).anchor_pos(),
            final(self).comment_pos() == standalone_scan(old(self).comments(), old(self).comment_pos(), line as int).0,
            match standalone_scan(old(self).comments(), old(self).comment_pos(), line as int).1 {
                Some(k) => res matches Some(c) && c.text@ == old(self).comments()[k].2 && c.standalone,
                None => res is None,
            },
    {
        let mut result: Option<Comment> = None;
        let ghost cs = self.comments();
        let ghost start = self.comment_idx as int;
        let ghost mut last: Option<int> = None;
        while self.comment_idx < self.raw_comments.len()
            invariant_except_break
                cs == comment_views(self.raw_comments@),
                self.anchors() == old(self).anchors(),
                self.next_anchor_name == old(self).next_anchor_name,
                old(self).comments() == cs,
                old(self).comment_pos() == start,
                start <= self.comment_idx,
                standalone_scan(cs, start, line as int).0 == standalone_scan(cs, self.comment_idx as int, line as int).0,
                standalone_scan(cs, start, line as int).1 == if standalone_scan(cs, self.comment_idx as int, line as int).1 is Some {
                    standalone_scan(cs, self.comment_idx as int, line as int).1
                } else {
                    last
                },
                match last {
                    Some(k) => result matches Some(c) && c.text@ == cs[k].2 && c.standalone,
                    None => result is None,
                },
            ensures
                cs == comment_views(self.raw_comments@),
                self.anchors() == old(self).anchors(),
                self.next_anchor_name == old(self).next_anchor_name,
                old(self).comments() == cs,
                old(self).comment_pos() == start,
                standalone_scan(cs, start, line as int).0 == self.comment_idx as int,
                standalone_scan(cs, start, line as int).1 == last,
                match last {
                    Some(k) => result matches Some(c) && c.text@ == cs[k].2 && c.standalone,
                    None => result is None,
                },
            decreases self.raw_comments.len() - self.comment_idx,
        {
            let c = &self.raw_comments[self.comment_idx];
            assert(cs[self.comment_idx as int] == c@);
            if c.line >= line {
                break;
            }
            if c.standalone {
                result = Some(Comment { text: c.text.clone(), standalone: true });
                proof {
                    last = Some(self.comment_idx as int);
                }
            }
            self.comment_idx += 1;
        }
        result
    }

    /// The next anchor name in document order, if any remain.
    pub fn next_anchor_name(&mut self) -> (res: Option<String>)
        ensures
            final(self).comments() == old(self).comments(),
            final(self).anchors() == old(self).anchors(),
            final(self).comment_pos() == old(self).comment_pos(),
            0 <= old(self).anchor_pos() < old(self).anchors().len() ==> (res matches Some(n) && n@
                == old(self).anchors()[old(self).anchor_pos()].2 && final(self).anchor_pos()
                == old(self).anchor_pos() + 1),
            !(0 <= old(self).anchor_pos() < old(self).anchors().len()) ==> res is None
                && final(self).anchor_pos() == old(self).anchor_pos(),
    {
        if self.next_anchor_name < self.raw_anchors.len() {
            let name = self.raw_anchors[self.next_anchor_name].name.clone();
            assert(self.anchors()[self.next_anchor_name as int] == self.raw_anchors@[self.next_anchor_name as int]@);
            self.next_anchor_name += 1;
            Some(name)
        } else {
            None
        }
    }
}

/// One call of `next_anchor_name`: from anchor position `p` it gives `r`
/// and moves to `q` (as its contract states).
pub open spec fn anchor_call(anchors: Seq<(int, int, Seq<char>)>, p: int, r: Option<Seq<char>>, q: int) -> bool {
    &&& 0 <= p < anchors.len() ==> r == Some(anchors[p].2) && q == p + 1
    &&& !(0 <= p < anchors.len()) ==> r is None && q == p
}

proof fn lemma_anchor_positions(
    anchors: Seq<(int, int, Seq<char>)>,
    pos: Seq<int>,
    results: Seq<Option<Seq<char>>>,
    k: int,
)
    requires
        pos.len() == results.len() + 1,
        pos[0] == 0,
        forall|i: int| 0 <= i < results.len() ==> anchor_call(anchors, pos[i], #[trigger] results[i], pos[i + 1]),
        0 <= k <= results.len(),
    ensures
        pos[k] == if k < anchors.len() { k } else { anchors.len() as int },
    decreases k,
{
    if k > 0 {
        lemma_anchor_positions(anchors, pos, results, k - 1);
        assert(anchor_call(anchors, pos[k - 1], results[k - 1], pos[k]));
    }
}

/// Anchor names come out in document order: after a fresh tracker and `k`
/// earlier calls, a call of `next_anchor_name` gives the `k`-th anchor's
/// name, or `None` once they are used up. `pos` are the tracker's anchor
/// positions before each call and after the last; `results` what the
/// calls gave.
pub proof fn law_anchor_names_in_order(
    anchors: Seq<(int, int, Seq<char>)>,
    pos: Seq<int>,
    results: Seq<Option<Seq<char>>>,
)
    requires
        pos.len() == results.len() + 1,
        pos[0] == 0,
        forall|i: int| 0 <= i < results.len() ==> anchor_call(anchors, pos[i], #[trigger] results[i], pos[i + 1]),
    ensures
        forall|k: int|
            0 <= k < results.len() ==> #[trigger] results[k] == if k < anchors.len() {
                Some(anchors[k].2)
            } else {
                None
            },
{
    assert forall|k: int| 0 <= k < results.len() implies #[trigger] results[k] == if k < anchors.len() {
        Some(anchors[k].2)
    } else {
        None
    } by {
        lemma_anchor_positions(anchors, pos, results, k);
        assert(anchor_call(anchors, pos[k], results[k], pos[k + 1]));
    }
}

/// One call of `next_anchor_name` taking tracker `t` to `u` and giving
/// `r`, as its contract states.
pub open spec fn next_anchor_call(t: CommentAnchorTracker, r: Option<String>, u: CommentAnchorTracker) -> bool {
    &&& u.comments() == t.comments()
    &&& u.anchors() == t.anchors()
    &&& u.comment_pos() == t.comment_pos()
    &&& anchor_call(
        t.anchors(),
        t.anchor_pos(),
        match r {
            Some(n) => Some(n@),
            None => None,
        },
        u.anchor_pos(),
    )
}

/// After `CommentAnchorTracker::new` and `k` earlier calls of
/// `next_anchor_name`, the next call gives the `k`-th anchor's name, or
/// `None` once the anchors are used up. `ts` are the trackers before each
/// call and after the last (`ts[0]` as `new` made it); `results` what the
/// calls gave.
pub proof fn law_next_anchor_name_after_calls(ts: Seq<CommentAnchorTracker>, results: Seq<Option<String>>)
    requires
        ts.len() == results.len() + 1,
        ts[0].anchor_pos() == 0,
        forall|i: int| 0 <= i < results.len() ==> next_anchor_call(ts[i], #[trigger] results[i], ts[i + 1]),
    ensures
        forall|k: int|
            0 <= k < results.len() ==> (if k < ts[0].anchors().len() {
                #[trigger] results[k] matches Some(n) && n@ == ts[0].anchors()[k].2
            } else {
                results[k] is None
            }),
{
    let an = ts[0].anchors();
    let pos = Seq::new(ts.len(), |i: int| ts[i].anchor_pos());
    let rs = Seq::new(
        results.len(),
        |i: int|
            match results[i] {
                Some(n) => Some(n@),
                None => None,
            },
    );
    assert forall|i: int| 0 <= i < ts.len() implies #[trigger] ts[i].anchors() == an by {
        lemma_tracker_anchors_kept(ts, results, i);
    }
    assert forall|i: int| 0 <= i < rs.len() implies anchor_call(an, pos[i], #[trigger] rs[i], pos[i + 1]) by {
        assert(next_anchor_call(ts[i], results[i], ts[i + 1]));
        assert(ts[i].anchors() == an);
    }
    law_anchor_names_in_order(an, pos, rs);
    assert forall|k: int| 0 <= k < results.len() implies (if k < ts[0].anchors().len() {
        #[trigger] results[k] matches Some(n) && n@ == ts[0].anchors()[k].2
    } else {
        results[k] is None
    }) by {
        assert(rs[k] == if k < an.len() { Some(an[k].2) } else { None::<Seq<char>> });
    }
}

proof fn lemma_tracker_anchors_kept(ts: Seq<CommentAnchorTracker>, results: Seq<Option<String>>, i: int)
    requires
        ts.len() == results.len() + 1,
        forall|j: int| 0 <= j < results.len() ==> next_anchor_call(ts[j], #[trigger] results[j], ts[j + 1]),
        0 <= i < ts.len(),
    ensures
        ts[i].anchors() == ts[0].anchors(),
    decreases i,
{
    if i > 0 {
        lemma_tracker_anchors_kept(ts, results, i - 1);
        assert(next_anchor_call(ts[i - 1], results[i - 1], ts[i]));
    }
}

} // verus!
