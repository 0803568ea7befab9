//! Formatting of scalar values as YAML text: single- and double-quoted
//! forms, plain emission with quoting when needed and line folding, and the
//! bodies of block scalars.
//!
//! Widths are counted in UTF-8 bytes, as in the text the formatter writes.
use crate::ast::Chomping;
use crate::comment::{lines_of, newline_from};
use crate::schema::{core_type_is_non_string, resolve_core_spec};
use crate::text::{
    char_width, chars_of, digit, digit_char, is_ascii_alnum, is_control, is_ctrl,
    lemma_encode_utf8_concat, lemma_trim_len, lemma_utf8_len_push, push_char, push_chars,
    string_of, trim, trim_bounds, utf8_len, width_of,
};
use vstd::prelude::*;
use vstd::string::*;

verus! {

/// `n` spaces.
pub open spec fn spaces(n: nat) -> Seq<char> {
    Seq::new(n, |i: int| ' ')
}

/// Append `n` spaces.
pub fn push_spaces(out: &mut String, n: usize)
    ensures
        final(out)@ == old(out)@ + spaces(n as nat),
{
    let ghost start = out@;
    let mut i: usize = 0;
    while i < n
        invariant
            0 <= i <= n,
            out@ == start + spaces(i as nat),
        decreases n - i,
    {
        push_char(out, ' ');
        assert(spaces((i + 1) as nat) =~= spaces(i as nat).push(' '));
        assert(start + spaces((i + 1) as nat) =~= (start + spaces(i as nat)).push(' '));
        i = i + 1;
    }
}

/// One character inside single quotes: a quote is doubled.
pub open spec fn sq_char(c: char) -> Seq<char> {
    if c == '\'' {
        seq!['\'', '\'']
    } else {
        seq![c]
    }
}

/// The characters of `v` inside single quotes.
pub open spec fn sq_body(v: Seq<char>) -> Seq<char>
    decreases v.len(),
{
    if v.len() == 0 {
        seq![]
    } else {
        sq_body(v.drop_last()) + sq_char(v.last())
    }
}

/// `v` as a single-quoted scalar.
pub open spec fn single_quoted(v: Seq<char>) -> Seq<char> {
    seq!['\''] + sq_body(v) + seq!['\'']
}

/// Append `value` to `out` as a single-quoted YAML scalar (quotes doubled).
pub fn write_single_quoted_scalar(out: &mut String, value: &str)
    ensures
        final(out)@ == old(out)@ + single_quoted(value@),
{
    let ghost start = out@;
    push_char(out, '\'');
    let v = chars_of(value);
    let mut i: usize = 0;
    while i < v.len()
        invariant
            0 <= i <= v@.len(),
            v@ == value@,
            out@ == start + seq!['\''] + sq_body(v@.take(i as int)),
        decreases v@.len() - i,
    {
        let c = v[i];
        let ghost before = out@;
        assert(v@.take(i + 1).drop_last() =~= v@.take(i as int));
        assert(v@.take(i + 1).last() == c);
        if c == '\'' {
            push_char(out, '\'');
            push_char(out, '\'');
            assert(out@ =~= before + sq_char(c));
        } else {
            push_char(out, c);
            assert(out@ =~= before + sq_char(c));
        }
        assert(out@ =~= start + seq!['\''] + sq_body(v@.take(i + 1)));
        i = i + 1;
    }
    assert(v@.take(i as int) =~= value@);
    push_char(out, '\'');
    assert(out@ =~= start + single_quoted(value@));
}

/// Lowercase hexadecimal digit of `d < 16`.
pub open spec fn hex_digit(d: nat) -> char {
    if d < 10 {
        digit_char(d)
    } else if d == 10 {
        'a'
    } else if d == 11 {
        'b'
    } else if d == 12 {
        'c'
    } else if d == 13 {
        'd'
    } else if d == 14 {
        'e'
    } else {
        'f'
    }
}

/// Four lowercase hexadecimal digits of `n < 0x10000`.
pub open spec fn hex4(n: nat) -> Seq<char> {
    seq![
        hex_digit((n / 4096) % 16),
        hex_digit((n / 256) % 16),
        hex_digit((n / 16) % 16),
        hex_digit(n % 16),
    ]
}

fn hex_digit_of(d: u32) -> (res: char)
    requires
        d < 16,
    ensures
        res == hex_digit(d as nat),
{
    if d < 10 {
        digit(d as u64)
    } else if d == 10 {
        'a'
    } else if d == 11 {
        'b'
    } else if d == 12 {
        'c'
    } else if d == 13 {
        'd'
    } else if d == 14 {
        'e'
    } else {
        'f'
    }
}

/// One character inside double quotes: backslash escapes for `\`, `"`,
/// `/`, newline, carriage return, tab, NUL, backspace, form feed and
/// escape; `\uXXXX` for other control characters.
pub open spec fn dq_char(c: char) -> Seq<char> {
    if c == '\\' {
        "\\\\"@
    } else if c == '"' {
        "\\\""@
    } else if c == '\n' {
        "\\n"@
    } else if c == '\r' {
        "\\r"@
    } else if c == '\t' {
        "\\t"@
    } else if c == '\0' {
        "\\0"@
    } else if c == '\x08' {
        "\\b"@
    } else if c == '\x0C' {
        "\\f"@
    } else if c == '\x1B' {
        "\\e"@
    } else if c == '/' {
        "\\/"@
    } else if is_ctrl(c) {
        "\\u"@ + hex4(c as nat)
    } else {
        seq![c]
    }
}

/// The characters of `v` inside double quotes.
pub open spec fn dq_body(v: Seq<char>) -> Seq<char>
    decreases v.len(),
{
    if v.len() == 0 {
        seq![]
    } else {
        dq_body(v.drop_last()) + dq_char(v.last())
    }
}

/// `v` as a double-quoted scalar.
pub open spec fn double_quoted(v: Seq<char>) -> Seq<char> {
    seq!['"'] + dq_body(v) + seq!['"']
}

fn push_dq_char(out: &mut String, c: char)
    ensures
        final(out)@ == old(out)@ + dq_char(c),
{
    if c == '\\' {
        out.append("\\\\");
    } else if c == '"' {
        out.append("\\\"");
    } else if c == '\n' {
        out.append("\\n");
    } else if c == '\r' {
        out.append("\\r");
    } else if c == '\t' {
        out.append("\\t");
    } else if c == '\0' {
        out.append("\\0");
    } else if c == '\x08' {
        out.append("\\b");
    } else if c == '\x0C' {
        out.append("\\f");
    } else if c == '\x1B' {
        out.append("\\e");
    } else if c == '/' {
        out.append("\\/");
    } else if is_control(c) {
        let ghost before = out@;
        out.append("\\u");
        let n = c as u32;
        assert(n <= 0x9F);
        push_char(out, hex_digit_of((n / 4096) % 16));
        push_char(out, hex_digit_of((n / 256) % 16));
        push_char(out, hex_digit_of((n / 16) % 16));
        push_char(out, hex_digit_of(n % 16));
        assert(out@ =~= before + ("\\u"@ + hex4(c as nat)));
    } else {
        push_char(out, c);
        assert(old(out)@.push(c) =~= old(out)@ + seq![c]);
    }
}

/// Append `value` to `out` as a double-quoted YAML scalar, escaping control
/// and special characters.
pub fn write_double_quoted_scalar(out: &mut String, value: &str)
    ensures
        final(out)@ == old(out)@ + double_quoted(value@),
{
    let ghost start = out@;
    push_char(out, '"');
    let v = chars_of(value);
    let mut i: usize = 0;
    while i < v.len()
        invariant
            0 <= i <= v@.len(),
            v@ == value@,
            out@ == start + seq!['"'] + dq_body(v@.take(i as int)),
        decreases v@.len() - i,
    {
        let c = v[i];
        assert(v@.take(i + 1).drop_last() =~= v@.take(i as int));
        assert(v@.take(i + 1).last() == c);
        push_dq_char(out, c);
        assert(out@ =~= start + seq!['"'] + dq_body(v@.take(i + 1)));
        i = i + 1;
    }
    assert(v@.take(i as int) =~= value@);
    push_char(out, '"');
    assert(out@ =~= start + double_quoted(value@));
}

/// A short (at most 8 characters) purely ASCII-alphanumeric token.
pub open spec fn short_alnum(v: Seq<char>) -> bool {
    v.len() <= 8 && forall|i: int| 0 <= i < v.len() ==> #[trigger] is_ascii_alnum(v[i])
}

/// Whether a key or scalar value is a short, purely alphanumeric token that
/// can be emitted without any quoting or wrapping.
pub fn is_short_alphanumeric(value: &str) -> (res: bool)
    ensures
        res == short_alnum(value@),
{
    let v = chars_of(value);
    if v.len() > 8 {
        return false;
    }
    let mut i: usize = 0;
    while i < v.len()
        invariant
            0 <= i <= v@.len(),
            v@ == value@,
            forall|j: int| 0 <= j < i ==> #[trigger] is_ascii_alnum(v@[j]),
        decreases v@.len() - i,
    {
        let c = v[i];
        if !(('0' <= c && c <= '9') || ('a' <= c && c <= 'z') || ('A' <= c && c <= 'Z')) {
            assert(!is_ascii_alnum(value@[i as int]));
            return false;
        }
        i = i + 1;
    }
    true
}

/// A character that cannot start a plain scalar.
pub open spec fn is_lead_indicator(c: char) -> bool {
    c == '-' || c == '{' || c == '}' || c == '[' || c == ']' || c == '*' || c == '&' || c == '!'
        || c == '?' || c == '%' || c == '@' || c == '`' || c == '\'' || c == '"' || c == '|' || c
        == '>' || c == ','
}

/// A plain scalar must be double-quoted: it is empty, or it is a genuine
/// string (not resolving to another type under the core schema) holding a
/// `:`, `#` or newline, or starting with an indicator character.
pub open spec fn needs_dq_spec(v: Seq<char>) -> bool {
    v.len() == 0 || (resolve_core_spec(v) is Str && (v.contains(':') || v.contains('#')
        || v.contains('\n') || is_lead_indicator(v[0])))
}

/// Whether `c` occurs in `v`.
pub fn contains_char(v: &Vec<char>, c: char) -> (res: bool)
    ensures
        res == v@.contains(c),
{
    let mut i: usize = 0;
    while i < v.len()
        invariant
            0 <= i <= v@.len(),
            forall|j: int| 0 <= j < i ==> v@[j] != c,
        decreases v@.len() - i,
    {
        if v[i] == c {
            assert(v@[i as int] == c);
            return true;
        }
        i = i + 1;
    }
    false
}

/// Whether a plain scalar must be rendered double-quoted because it would be
/// ambiguous or invalid as an unquoted token.
pub fn needs_double_quoted(value: &str) -> (res: bool)
    ensures
        res == needs_dq_spec(value@),
{
    let v = chars_of(value);
    if v.len() == 0 {
        return true;
    }
    if core_type_is_non_string(value) {
        return false;
    }
    let c = v[0];
    contains_char(&v, ':') || contains_char(&v, '#') || contains_char(&v, '\n') || c == '-' || c
        == '{' || c == '}' || c == '[' || c == ']' || c == '*' || c == '&' || c == '!' || c == '?'
        || c == '%' || c == '@' || c == '`' || c == '\'' || c == '"' || c == '|' || c == '>' || c
        == ','
}

/// Number of leading characters of `v` whose UTF-8 encoding fits in `b`
/// bytes.
pub open spec fn chars_within(v: Seq<char>, b: int) -> nat
    decreases v.len(),
{
    if v.len() > 0 && char_width(v[0]) <= b {
        1 + chars_within(v.drop_first(), b - char_width(v[0]))
    } else {
        0
    }
}

/// Byte length of a prefix grows by the width of the next character.
pub proof fn lemma_utf8_take(v: Seq<char>, k: int)
    requires
        0 <= k < v.len(),
    ensures
        utf8_len(v.take(k + 1)) == utf8_len(v.take(k)) + char_width(v[k]),
{
    assert(v.take(k + 1) =~= v.take(k).push(v[k]));
    lemma_utf8_len_push(v.take(k), v[k]);
}

/// Byte length of a prefix is at most that of the whole.
pub proof fn lemma_utf8_take_le(v: Seq<char>, k: int)
    requires
        0 <= k <= v.len(),
    ensures
        utf8_len(v.take(k)) <= utf8_len(v),
{
    assert(v =~= v.take(k) + v.skip(k));
    lemma_encode_utf8_concat(v.take(k), v.skip(k));
}

pub proof fn lemma_chars_within(v: Seq<char>, b: int)
    requires
        b >= 0,
    ensures
        chars_within(v, b) <= v.len(),
        utf8_len(v.take(chars_within(v, b) as int)) <= b,
        chars_within(v, b) < v.len() ==> utf8_len(v.take(chars_within(v, b) as int + 1)) > b,
        chars_within(v, b) == v.len() <==> utf8_len(v) <= b,
    decreases v.len(),
{
    let k = chars_within(v, b) as int;
    if v.len() > 0 && char_width(v[0]) <= b {
        let w = char_width(v[0]);
        let t = v.drop_first();
        lemma_chars_within(t, b - w);
        assert forall|j: int| 0 <= j <= t.len() implies utf8_len(v.take(j + 1)) == w + utf8_len(
            t.take(j),
        ) by {
            assert(v.take(j + 1) =~= seq![v[0]] + t.take(j));
            lemma_encode_utf8_concat(seq![v[0]], t.take(j));
            assert(seq![v[0]] =~= Seq::<char>::empty().push(v[0]));
            lemma_utf8_len_push(Seq::<char>::empty(), v[0]);
            assert(utf8_len(Seq::<char>::empty()) == 0);
        }
        assert(v.take(k) == v.take((k - 1) + 1));
        if k < v.len() {
            assert(v.take(k + 1) == v.take(k - 1 + 1 + 1));
        }
        assert(t.take(t.len() as int) =~= t);
        assert(v.take(v.len() as int) =~= v);
        if k < v.len() {
            lemma_utf8_take_le(v, k + 1);
        }
    } else {
        assert(v.take(0) =~= Seq::<char>::empty());
        assert(utf8_len(Seq::<char>::empty()) == 0);
        if v.len() > 0 {
            assert(v.take(1) =~= Seq::<char>::empty().push(v[0]));
            lemma_utf8_len_push(Seq::<char>::empty(), v[0]);
            lemma_utf8_take_le(v, 1);
        } else {
            assert(v =~= Seq::<char>::empty());
        }
    }
}

/// `chars_within(v[lo..hi], b)` and the byte length of that prefix.
pub(crate) fn chars_within_of(v: &Vec<char>, lo: usize, hi: usize, b: usize) -> (res: (usize, usize))
    requires
        lo <= hi <= v@.len(),
    ensures
        res.0 == chars_within(v@.subrange(lo as int, hi as int), b as int),
        res.1 == utf8_len(v@.subrange(lo as int, hi as int).take(res.0 as int)),
        res.0 <= hi - lo,
{
    let ghost sub = v@.subrange(lo as int, hi as int);
    let mut i = lo;
    let mut acc: usize = 0;
    proof {
        assert(sub.take(0) =~= Seq::<char>::empty());
        assert(utf8_len(Seq::<char>::empty()) == 0);
        assert(v@.subrange(i as int, hi as int) =~= sub);
    }
    while i < hi && width_of(v[i]) <= b - acc
        invariant
            lo <= i <= hi <= v@.len(),
            sub == v@.subrange(lo as int, hi as int),
            acc <= b,
            acc == utf8_len(sub.take(i - lo)),
            chars_within(sub, b as int) == (i - lo) + chars_within(
                v@.subrange(i as int, hi as int),
                b - acc,
            ),
        decreases hi - i,
    {
        let w = width_of(v[i]);
        proof {
            let r = v@.subrange(i as int, hi as int);
            assert(r[0] == v@[i as int]);
            assert(r.drop_first() =~= v@.subrange(i + 1, hi as int));
            assert(sub[i - lo] == v@[i as int]);
            lemma_utf8_take(sub, i - lo);
        }
        acc = acc + w;
        i = i + 1;
    }
    proof {
        let r = v@.subrange(i as int, hi as int);
        if i < hi {
            assert(r[0] == v@[i as int]);
        }
    }
    (i - lo, acc)
}

/// Index of the last space of `v`.
pub open spec fn last_space(v: Seq<char>) -> Option<int>
    decreases v.len(),
{
    if v.len() == 0 {
        None
    } else if v.last() == ' ' {
        Some(v.len() - 1)
    } else {
        last_space(v.drop_last())
    }
}

pub proof fn lemma_last_space(v: Seq<char>)
    ensures
        match last_space(v) {
            Some(s) => 0 <= s < v.len() && v[s] == ' ',
            None => forall|j: int| 0 <= j < v.len() ==> v[j] != ' ',
        },
    decreases v.len(),
{
    if v.len() > 0 && v.last() != ' ' {
        lemma_last_space(v.drop_last());
        assert forall|j: int| 0 <= j < v.len() - 1 implies v.drop_last()[j] == v[j] by {}
    }
}

/// `last_space(v[lo..hi])`.
fn last_space_of(v: &Vec<char>, lo: usize, hi: usize) -> (res: Option<usize>)
    requires
        lo <= hi <= v@.len(),
    ensures
        match last_space(v@.subrange(lo as int, hi as int)) {
            Some(s) => res == Some(s as usize),
            None => res is None,
        },
{
    let mut j = hi;
    while j > lo
        invariant
            lo <= j <= hi <= v@.len(),
            last_space(v@.subrange(lo as int, hi as int)) == last_space(
                v@.subrange(lo as int, j as int),
            ),
        decreases j - lo,
    {
        let ghost sub = v@.subrange(lo as int, j as int);
        assert(sub.last() == v@[j - 1]);
        if v[j - 1] == ' ' {
            return Some(j - 1 - lo);
        }
        assert(sub.drop_last() =~= v@.subrange(lo as int, j - 1));
        j = j - 1;
    }
    None
}

/// Width left after the 2-space continuation indent.
pub open spec fn avail_of(width: nat) -> nat {
    if width >= 2 {
        (width - 2) as nat
    } else {
        0
    }
}

/// Folding of the rest of an overflowing plain scalar into continuation
/// lines of `width` bytes, each indented by two spaces: a line breaks at
/// the last space that fits, the text after it trimmed; a rest with no
/// space to break at stays on one line. `None` where the fold would cut a
/// character's UTF-8 encoding, an input on which the formatter stops.
pub open spec fn wrap_text(rest: Seq<char>, width: nat) -> Option<Seq<char>>
    decreases rest.len(),
{
    if rest.len() == 0 {
        Some(seq![])
    } else {
        let avail = avail_of(width);
        if utf8_len(rest) <= avail || avail == 0 {
            Some("  "@ + rest)
        } else {
            let k = chars_within(rest, avail as int);
            if utf8_len(rest.take(k as int)) != avail {
                None
            } else {
                match last_space(rest.take(k as int)) {
                    Some(s) => {
                        proof {
                            lemma_chars_within(rest, avail as int);
                            lemma_last_space(rest.take(k as int));
                            assert(rest.skip(s)[0] == ' ');
                            lemma_trim_len(rest.skip(s));
                        }
                        match wrap_text(trim(rest.skip(s)), width) {
                            Some(t) => Some("  "@ + rest.take(s) + seq!['\n'] + t),
                            None => None,
                        }
                    },
                    None => Some("  "@ + rest),
                }
            }
        }
    }
}

/// Wrap `value` to `width` with a fixed 2-space continuation indent. Used by
/// [`write_plain_scalar`] when a value overflows the current line.
pub fn wrap_plain_scalar(out: &mut String, value: &str, width: usize)
    requires
        wrap_text(value@, width as nat) is Some,
    ensures
        final(out)@ == old(out)@ + wrap_text(value@, width as nat)->0,
{
    let v = chars_of(value);
    let ghost start = out@;
    let avail: usize = if width >= 2 {
        width - 2
    } else {
        0
    };
    let mut lo: usize = 0;
    let mut hi: usize = v.len();
    assert(v@.subrange(0, v@.len() as int) =~= value@);
    assert(out@ + wrap_text(value@, width as nat)->0 == start + wrap_text(value@, width as nat)->0);
    loop
        invariant
            v@ == value@,
            start == old(out)@,
            lo <= hi <= v@.len(),
            avail == avail_of(width as nat),
            wrap_text(v@.subrange(lo as int, hi as int), width as nat) is Some,
            start + wrap_text(value@, width as nat)->0 == out@ + wrap_text(
                v@.subrange(lo as int, hi as int),
                width as nat,
            )->0,
        decreases hi - lo,
    {
        let ghost rest = v@.subrange(lo as int, hi as int);
        let ghost before = out@;
        if lo >= hi {
            assert(rest.len() == 0);
            assert(wrap_text(rest, width as nat) == Some(Seq::<char>::empty()));
            assert(out@ + Seq::<char>::empty() =~= out@);
            return;
        }
        out.append("  ");
        let (k, kb) = chars_within_of(&v, lo, hi, avail);
        proof {
            lemma_chars_within(rest, avail as int);
        }
        if k == hi - lo || avail == 0 {
            assert(wrap_text(rest, width as nat) == Some("  "@ + rest));
            push_chars(out, &v, lo, hi);
            assert(out@ =~= before + ("  "@ + rest));
            return;
        }
        assert(utf8_len(rest.take(k as int)) == avail);
        proof {
            lemma_last_space(rest.take(k as int));
        }
        match last_space_of(&v, lo, lo + k) {
            Some(s) => {
                proof {
                    assert(v@.subrange(lo as int, lo + k) =~= rest.take(k as int));
                }
                push_chars(out, &v, lo, lo + s);
                push_char(out, '\n');
                let (a, b) = trim_bounds(&v, lo + s, hi);
                proof {
                    assert(v@.subrange(lo as int, lo + s) =~= rest.take(s as int));
                    assert(v@.subrange(lo + s, hi as int) =~= rest.skip(s as int));
                    assert(rest.skip(s as int)[0] == ' ');
                    lemma_trim_len(rest.skip(s as int));
                    let t = wrap_text(v@.subrange(a as int, b as int), width as nat)->0;
                    assert(out@ =~= before + ("  "@ + rest.take(s as int) + seq!['\n']));
                    assert(before + ("  "@ + rest.take(s as int) + seq!['\n'] + t) =~= out@ + t);
                }
                lo = a;
                hi = b;
            },
            None => {
                proof {
                    assert(v@.subrange(lo as int, lo + k) =~= rest.take(k as int));
                    assert(wrap_text(rest, width as nat) == Some("  "@ + rest));
                }
                push_chars(out, &v, lo, hi);
                assert(out@ =~= before + ("  "@ + rest));
                return;
            },
        }
    }
}

/// Plain emission of a scalar: a short, non-empty alphanumeric token as it
/// is; the empty value double-quoted (an empty plain token reads back as
/// null); a value
/// that needs quoting single-quoted when it holds a backslash and no
/// newline, else double-quoted; a value longer than `remaining` bytes
/// (when `remaining` is not 0) broken at its last space within
/// `remaining`, the trimmed rest folded by `wrap_text`, or left whole when
/// there is no such space; any other value as it is.
pub open spec fn plain_text(v: Seq<char>, remaining: nat, width: nat) -> Option<Seq<char>> {
    if v.len() > 0 && short_alnum(v) {
        Some(v)
    } else if needs_dq_spec(v) {
        if v.contains('\\') && !v.contains('\n') {
            Some(single_quoted(v))
        } else {
            Some(double_quoted(v))
        }
    } else if remaining > 0 && utf8_len(v) > remaining {
        let k = chars_within(v, remaining as int);
        match last_space(v.take(k as int)) {
            Some(s) => {
                let rest = trim(v.skip(s));
                if rest.len() > 0 {
                    match wrap_text(rest, width) {
                        Some(w) => Some(v.take(s) + seq!['\n'] + w),
                        None => None,
                    }
                } else {
                    Some(v.take(s))
                }
            },
            None => Some(v),
        }
    } else {
        Some(v)
    }
}

/// Append `value` to `out` as a plain scalar, double-quoting it if required
/// and wrapping to `width` when it overflows `remaining`.
pub fn write_plain_scalar(out: &mut String, value: &str, remaining: usize, width: usize)
    requires
        plain_text(value@, remaining as nat, width as nat) is Some,
    ensures
        final(out)@ == old(out)@ + plain_text(value@, remaining as nat, width as nat)->0,
{
    let v = chars_of(value);
    if v.len() > 0 && is_short_alphanumeric(value) {
        out.append(value);
        return;
    }
    if needs_double_quoted(value) {
        if contains_char(&v, '\\') && !contains_char(&v, '\n') {
            write_single_quoted_scalar(out, value);
        } else {
            write_double_quoted_scalar(out, value);
        }
        return;
    }
    let n = v.len();
    if remaining > 0 {
        let (k, kb) = chars_within_of(&v, 0, n, remaining);
        proof {
            assert(v@.subrange(0, n as int) =~= value@);
            lemma_chars_within(value@, remaining as int);
        }
        if k < n {
            proof {
                assert(v@.subrange(0, k as int) =~= value@.take(k as int));
                lemma_last_space(value@.take(k as int));
            }
            match last_space_of(&v, 0, k) {
                Some(s) => {
                    let ghost before = out@;
                    push_chars(out, &v, 0, s);
                    let (a, b) = trim_bounds(&v, s, n);
                    proof {
                        assert(v@.subrange(0, s as int) =~= value@.take(s as int));
                        assert(v@.subrange(s as int, n as int) =~= value@.skip(s as int));
                    }
                    if a < b {
                        push_char(out, '\n');
                        let rest = string_of(&v, a, b);
                        wrap_plain_scalar(out, rest.as_str(), width);
                        assert(out@ =~= before + plain_text(
                            value@,
                            remaining as nat,
                            width as nat,
                        )->0);
                    }
                },
                None => {
                    out.append(value);
                },
            }
            return;
        }
    }
    out.append(value);
}

/// The indicator line of a block scalar: `lead` then the chomping mark.
pub open spec fn chomp_indicator(lead: char, ch: Chomping) -> Seq<char> {
    match ch {
        Chomping::Strip => seq![lead, '-'],
        Chomping::Clip => seq![lead],
        Chomping::Keep => seq![lead, '+'],
    }
}

/// The lines of a block scalar body joined by newlines, each non-empty line
/// prefixed with `indent`.
pub open spec fn block_lines(lines: Seq<Seq<char>>, indent: Seq<char>) -> Seq<char>
    decreases lines.len(),
{
    if lines.len() == 0 {
        seq![]
    } else {
        let sep = if lines.len() > 1 {
            seq!['\n']
        } else {
            seq![]
        };
        let line = lines.last();
        block_lines(lines.drop_last(), indent) + sep + if line.len() > 0 {
            indent + line
        } else {
            seq![]
        }
    }
}

/// A block scalar (`lead` is `|` or `>`): its indicator, a newline, then the
/// lines of `v` indented by `indent_size` spaces.
pub open spec fn block_scalar(lead: char, v: Seq<char>, ch: Chomping, indent_size: nat) -> Seq<char> {
    chomp_indicator(lead, ch) + seq!['\n'] + block_lines(lines_of(v), spaces(indent_size))
}

/// End (exclusive) of the line of `s` that starts at `ls` and whose `\n`
/// (or the end of `s`) is at `e`, a `\r` before the `\n` left out.
pub open spec fn line_end_at(s: Seq<char>, ls: int, e: int) -> int {
    if e < s.len() && e > ls && s[e - 1] == '\r' {
        e - 1
    } else {
        e
    }
}

/// Start of the line after the one ending at `e`.
pub open spec fn next_line_at(s: Seq<char>, e: int) -> int {
    if e < s.len() {
        e + 1
    } else {
        s.len() as int
    }
}

/// One step of `lines_of` from position `ls`.
pub proof fn lemma_lines_of_step(s: Seq<char>, ls: int, e: int)
    requires
        0 <= ls < s.len(),
        ls <= e <= s.len(),
        newline_from(s.skip(ls), 0) == e - ls,
    ensures
        lines_of(s.skip(ls)) == seq![s.subrange(ls, line_end_at(s, ls, e))] + lines_of(
            s.skip(next_line_at(s, e)),
        ),
{
    let t = s.skip(ls);
    let raw = t.take(e - ls);
    let line = s.subrange(ls, line_end_at(s, ls, e));
    assert(raw =~= s.subrange(ls, e));
    if e < s.len() && e > ls && s[e - 1] == '\r' {
        assert(raw.last() == '\r');
        assert(line =~= raw.drop_last());
    } else {
        assert(line =~= raw);
    }
    assert(t.skip(next_line_at(s, e) - ls) =~= s.skip(next_line_at(s, e)));
}

proof fn lemma_block_lines_push(done: Seq<Seq<char>>, line: Seq<char>, ind: Seq<char>)
    ensures
        block_lines(done.push(line), ind) == block_lines(done, ind) + (if done.len() > 0 {
            seq!['\n']
        } else {
            Seq::<char>::empty()
        }) + (if line.len() > 0 {
            ind + line
        } else {
            Seq::<char>::empty()
        }),
{
    let nd = done.push(line);
    assert(nd.drop_last() =~= done);
    assert(nd.last() == line);
}

/// Append the lines of `value`, each non-empty line indented by
/// `indent_size` spaces, joined by newlines.
#[verifier::spinoff_prover]
#[verifier::rlimit(40)]
pub fn write_base_indent(out: &mut String, value: &str, indent_size: usize)
    ensures
        final(out)@ == old(out)@ + block_lines(lines_of(value@), spaces(indent_size as nat)),
{
    let v = chars_of(value);
    let ghost s = value@;
    let ghost start = out@;
    let ghost ind = spaces(indent_size as nat);
    let n = v.len();
    let mut ls: usize = 0;
    let mut first = true;
    let ghost mut done: Seq<Seq<char>> = seq![];
    assert(s.skip(0) =~= s);
    assert(out@ =~= start + block_lines(done, ind));
    while ls < n
        invariant
            v@ == s,
            n == s.len(),
            0 <= ls <= n,
            first == (done.len() == 0),
            lines_of(s) == done + lines_of(s.skip(ls as int)),
            out@ == start + block_lines(done, ind),
            ind == spaces(indent_size as nat),
        decreases n - ls,
    {
        let ghost t = s.skip(ls as int);
        let mut e = ls;
        while e < n && v[e] != '\n'
            invariant
                ls <= e <= n,
                v@ == s,
                n == s.len(),
                t == s.skip(ls as int),
                newline_from(t, 0) == newline_from(t, e - ls),
            decreases n - e,
        {
            e = e + 1;
        }
        assert(newline_from(t, e - ls) == e - ls);
        let le = if e < n && e > ls && v[e - 1] == '\r' {
            e - 1
        } else {
            e
        };
        let ghost line = v@.subrange(ls as int, le as int);
        proof {
            lemma_lines_of_step(s, ls as int, e as int);
            assert(le == line_end_at(s, ls as int, e as int));
        }
        let ghost before = out@;
        if !first {
            push_char(out, '\n');
        }
        if le > ls {
            push_spaces(out, indent_size);
            push_chars(out, &v, ls, le);
        }
        proof {
            let nd = done.push(line);
            lemma_block_lines_push(done, line, ind);
            let sep = if done.len() > 0 {
                seq!['\n']
            } else {
                Seq::<char>::empty()
            };
            let body = if line.len() > 0 {
                ind + line
            } else {
                Seq::<char>::empty()
            };
            assert(out@ =~= before + sep + body);
            assert(done + lines_of(t) =~= nd + lines_of(s.skip(next_line_at(s, e as int))));
            done = nd;
        }
        first = false;
        ls = if e < n {
            e + 1
        } else {
            n
        };
    }
    proof {
        assert(s.skip(n as int) =~= Seq::<char>::empty());
        assert(done + Seq::<Seq<char>>::empty() =~= done);
    }
}

/// A plain scalar that could not be read back as the same string is emitted
/// quoted: the empty text, and every genuine string (one the core schema
/// resolves to a string) that holds a `:`, a `#` (where a comment could
/// start) or a line break, or that starts with an indicator character. The
/// text written is then enclosed in double or single quotes.
pub proof fn law_ambiguous_strings_are_quoted(v: Seq<char>, remaining: nat, width: nat)
    requires
        v.len() == 0 || (resolve_core_spec(v) is Str && (v.contains(':') || v.contains('#') || v.contains('\n')
            || is_lead_indicator(v[0]))),
    ensures
        plain_text(v, remaining, width) matches Some(t) && t.len() >= 2 && (t[0] == '"' || t[0] == '\'') && t[t.len()
            - 1] == t[0],
{
    if v.len() > 0 {
        assert(!short_alnum(v)) by {
            if v.contains(':') {
                let i = choose|i: int| 0 <= i < v.len() && v[i] == ':';
                assert(!is_ascii_alnum(v[i]));
            } else if v.contains('#') {
                let i = choose|i: int| 0 <= i < v.len() && v[i] == '#';
                assert(!is_ascii_alnum(v[i]));
            } else if v.contains('\n') {
                let i = choose|i: int| 0 <= i < v.len() && v[i] == '\n';
                assert(!is_ascii_alnum(v[i]));
            } else {
                assert(!is_ascii_alnum(v[0]));
            }
        }
    }
    assert(needs_dq_spec(v));
}

/// A non-empty plain scalar that the core schema resolves to another type
/// than string (an integer, a float, a boolean or null) is written as it
/// is, unquoted, where it fits the room left: quoting it would read it back
/// as a string.
pub proof fn law_typed_scalars_stay_plain(v: Seq<char>, remaining: nat, width: nat)
    requires
        v.len() > 0,
        !(resolve_core_spec(v) is Str),
        remaining == 0 || utf8_len(v) <= remaining,
    ensures
        plain_text(v, remaining, width) == Some(v),
{
}

} // verus!
