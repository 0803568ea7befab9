//! Parse error reports that quote the offending source line with a caret
//! under the error column, and the choice of report for each parse error.
use crate::comment::{lemma_newline_from, lemma_utf8_len_sub, lines_of, newline_from};
use crate::error::ParseError;
use crate::scalar_fmt::{push_spaces, spaces};
use crate::text::{chars_of, decimal, push_char, push_decimal, string_of, utf8_len};
use vstd::prelude::*;
use vstd::string::*;

verus! {

/// `n` copies of `c`.
pub open spec fn repeat_char(c: char, n: nat) -> Seq<char>
    decreases n,
{
    if n == 0 {
        seq![]
    } else {
        repeat_char(c, (n - 1) as nat).push(c)
    }
}

/// `t` right-aligned in a field of 4 characters.
pub open spec fn right4(t: Seq<char>) -> Seq<char> {
    if t.len() < 4 {
        spaces((4 - t.len()) as nat) + t
    } else {
        t
    }
}

/// The source line a report quotes: line `line` (1-based; `0` counts as the
/// first), or nothing past the end.
pub open spec fn quoted_line(source: Seq<char>, line: nat) -> Seq<char> {
    let idx = if line >= 1 {
        line - 1
    } else {
        0
    };
    if idx < lines_of(source).len() {
        lines_of(source)[idx]
    } else {
        seq![]
    }
}

/// The caret line of a report: up to five carets from byte column `col`,
/// within the line's bytes, then the message; just the message when no
/// caret fits.
pub open spec fn caret_line(src_line: Seq<char>, col: nat, message: Seq<char>) -> Seq<char> {
    let room = if utf8_len(src_line) > col {
        utf8_len(src_line) - col
    } else {
        0
    };
    let width = if room < 5 {
        room
    } else {
        5
    };
    if width > 0 {
        spaces(col) + repeat_char('^', width as nat) + seq![' '] + message
    } else {
        message
    }
}

/// A parse error report:
///
/// ```text
/// YAML parse error at line 5, col 12: unexpected mapping value
///     |
///    5 | key: value: extra
///     |            ^^^^^ unexpected mapping value
/// ```
pub open spec fn snippet_spec(source: Seq<char>, line: nat, col: nat, message: Seq<char>) -> Seq<char> {
    let src_line = quoted_line(source, line);
    "YAML parse error at line "@ + decimal(line) + ", col "@ + decimal(col) + ": "@ + message
        + "\n    |\n"@ + right4(decimal(line)) + " | "@ + src_line + "\n    | "@ + caret_line(
        src_line,
        col,
        message,
    ) + seq!['\n']
}

/// Bounds `[a, b)` of line `target` of `v`, if it has one.
fn nth_line(v: &Vec<char>, target: usize) -> (res: Option<(usize, usize)>)
    ensures
        match res {
            Some((a, b)) => a <= b <= v@.len() && target < lines_of(v@).len() && v@.subrange(a as int, b as int)
                == lines_of(v@)[target as int],
            None => target >= lines_of(v@).len(),
        },
{
    let ghost s = v@;
    let n = v.len();
    let mut ls: usize = 0;
    let mut count: usize = 0;
    let ghost mut done: Seq<Seq<char>> = seq![];
    assert(s.skip(0) =~= s);
    while ls < n
        invariant
            v@ == s,
            n == s.len(),
            0 <= ls <= n,
            count == done.len(),
            count <= target,
            lines_of(s) == done + lines_of(s.skip(ls as int)),
        decreases n - ls,
    {
        let ghost t = s.skip(ls as int);
        let mut e = ls;
        while e < n && v[e] != '\n'
            invariant
                ls <= e <= n,
                v@ == s,
                n == s.len(),
                t == s.skip(ls as int),
                newline_from(t, 0) == newline_from(t, e - ls),
            decreases n - e,
        {
            e = e + 1;
        }
        assert(newline_from(t, e - ls) == e - ls);
        let le = if e < n && e > ls && v[e - 1] == '\r' {
            e - 1
        } else {
            e
        };
        let ghost line = s.subrange(ls as int, le as int);
        proof {
            lemma_newline_from(t, 0);
            let raw = t.take(e - ls);
            assert(raw =~= s.subrange(ls as int, e as int));
            if e < n && e > ls && s[e - 1] == '\r' {
                assert(raw.last() == '\r');
                assert(line =~= raw.drop_last());
            } else {
                assert(line =~= raw);
            }
            let next = if e < n {
                e + 1
            } else {
                n as int
            };
            assert(t.skip(next - ls) =~= s.skip(next));
            assert(lines_of(t) == seq![line] + lines_of(t.skip(next - ls)));
            assert(done + lines_of(t) =~= done.push(line) + lines_of(s.skip(next)));
        }
        if count == target {
            proof {
                assert((done + lines_of(t))[count as int] == line);
            }
            return Some((ls, le));
        }
        proof {
            done = done.push(line);
        }
        count = count + 1;
        ls = if e < n {
            e + 1
        } else {
            n
        };
    }
    proof {
        assert(s.skip(n as int) =~= Seq::<char>::empty());
        assert(done + Seq::<Seq<char>>::empty() =~= done);
    }
    None
}

/// Number of decimal digits of `n`, as far as the report's padding needs it.
proof fn lemma_decimal_len(n: nat)
    ensures
        n < 10 ==> decimal(n).len() == 1,
        10 <= n < 100 ==> decimal(n).len() == 2,
        100 <= n < 1000 ==> decimal(n).len() == 3,
        1000 <= n ==> decimal(n).len() >= 4,
    decreases n,
{
    if n >= 10 {
        lemma_decimal_len(n / 10);
    }
}

/// Append `n` copies of `c`.
fn push_repeat(out: &mut String, c: char, n: usize)
    ensures
        final(out)@ == old(out)@ + repeat_char(c, n as nat),
{
    let mut i: usize = 0;
    while i < n
        invariant
            0 <= i <= n,
            out@ == old(out)@ + repeat_char(c, i as nat),
        decreases n - i,
    {
        push_char(out, c);
        assert(repeat_char(c, (i + 1) as nat) == repeat_char(c, i as nat).push(c));
        i = i + 1;
    }
}

/// Format a YAML parse error with the source line and a caret marker (see
/// `snippet_spec`).
pub fn format_source_snippet(source: &str, line: usize, col: usize, message: &str) -> (res: String)
    requires
        utf8_len(source@) <= usize::MAX,
    ensures
        res@ == snippet_spec(source@, line as nat, col as nat, message@),
{
    let v = chars_of(source);
    let idx = line.saturating_sub(1);
    let src_line = match nth_line(&v, idx) {
        Some((a, b)) => {
            proof {
                lemma_utf8_len_sub(v@, a as int, b as int);
            }
            string_of(&v, a, b)
        },
        None => String::new(),
    };
    let ghost sl = src_line@;
    assert(sl == quoted_line(source@, line as nat));
    assert(utf8_len(sl) <= usize::MAX);
    let blen = src_line.as_str().len();
    assert(blen as int == utf8_len(sl));
    let room = blen.saturating_sub(col);
    let width = if room < 5 {
        room
    } else {
        5
    };
    let mut out = String::new();
    out.append("YAML parse error at line ");
    push_decimal(&mut out, line as u64);
    out.append(", col ");
    push_decimal(&mut out, col as u64);
    out.append(": ");
    out.append(message);
    out.append("\n    |\n");
    proof {
        lemma_decimal_len(line as nat);
    }
    if line < 10 {
        push_spaces(&mut out, 3);
    } else if line < 100 {
        push_spaces(&mut out, 2);
    } else if line < 1000 {
        push_spaces(&mut out, 1);
    }
    push_decimal(&mut out, line as u64);
    out.append(" | ");
    out.append(src_line.as_str());
    out.append("\n    | ");
    if width > 0 {
        push_spaces(&mut out, col);
        push_repeat(&mut out, '^', width);
        push_char(&mut out, ' ');
        out.append(message);
    } else {
        out.append(message);
    }
    push_char(&mut out, '\n');
    proof {
        assert(out@ =~= snippet_spec(source@, line as nat, col as nat, message@));
    }
    out
}

/// How a parse failure is reported.
#[derive(Debug, PartialEq, Eq, Clone)]
pub enum ParseReport {
    /// A duplicate mapping key, named.
    DuplicateKey(String),
    /// Nesting beyond the configured maximum depth, which is named.
    MaxDepth(usize),
    /// A syntax error with a source position: the full report quoting the
    /// source line.
    Snippet(String),
    /// A syntax error without a source position: its message.
    Syntax(String),
}

/// The report of a parse error on `source` parsed with `max_depth`: a
/// syntax error with a line (1-based) quotes the source; a depth error names
/// the configured maximum.
pub fn parse_error_report(e: &ParseError, source: &str, max_depth: usize) -> (res: ParseReport)
    requires
        utf8_len(source@) <= usize::MAX,
    ensures
        match e {
            ParseError::DuplicateKey(k) => res matches ParseReport::DuplicateKey(r) && r@ == k@,
            ParseError::MaxDepthExceeded(_) => res == ParseReport::MaxDepth(max_depth),
            ParseError::Syntax { message, line, col } => if *line > 0 {
                res matches ParseReport::Snippet(r) && r@ == snippet_spec(
                    source@,
                    *line as nat,
                    *col as nat,
                    message@,
                )
            } else {
                res matches ParseReport::Syntax(r) && r@ == message@
            },
        },
{
    match e {
        ParseError::DuplicateKey(k) => ParseReport::DuplicateKey(k.clone()),
        ParseError::MaxDepthExceeded(_) => ParseReport::MaxDepth(max_depth),
        ParseError::Syntax { message, line, col } => {
            if *line > 0 {
                ParseReport::Snippet(format_source_snippet(source, *line, *col, message.as_str()))
            } else {
                ParseReport::Syntax(message.clone())
            }
        },
    }
}

} // verus!
