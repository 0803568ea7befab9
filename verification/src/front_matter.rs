//! Splitting a Markdown text into its YAML front matter and its body.
use crate::text::{chars_of, is_whitespace, is_ws, lemma_leading_ws_unique, string_of, trim, trim_bounds, trim_start};
use vstd::prelude::*;

verus! {

/// Whether `s` holds `---` at `i`.
pub open spec fn dashes_at(s: Seq<char>, i: int) -> bool {
    0 <= i && i + 3 <= s.len() && s[i] == '-' && s[i + 1] == '-' && s[i + 2] == '-'
}

/// The first index at or after `from` at which `s` holds `---`.
pub open spec fn find_dashes(s: Seq<char>, from: int) -> Option<int>
    decreases s.len() - from,
{
    if from < 0 || from + 3 > s.len() {
        None
    } else if dashes_at(s, from) {
        Some(from)
    } else {
        find_dashes(s, from + 1)
    }
}

/// The front matter and body of a Markdown text. The text, without its
/// leading whitespace, must open with `---` and hold another `---` after
/// it; the front matter is what lies between the two, trimmed, and the body
/// what follows the second, trimmed. Where there is no such pair, or the
/// front matter is blank, there is no front matter and the body is the text
/// without its leading whitespace.
pub open spec fn front_matter_spec(content: Seq<char>) -> (Option<Seq<char>>, Seq<char>) {
    let t = trim_start(content);
    if dashes_at(t, 0) {
        let rest = t.skip(3);
        match find_dashes(rest, 0) {
            Some(e) => {
                let fm = trim(rest.take(e));
                if fm.len() > 0 {
                    (Some(fm), trim(rest.skip(e + 3)))
                } else {
                    (None, t)
                }
            },
            None => (None, t),
        }
    } else {
        (None, t)
    }
}

/// The view of an optional string.
pub open spec fn opt_view(o: Option<String>) -> Option<Seq<char>> {
    match o {
        Some(s) => Some(s@),
        None => None,
    }
}

/// Split `content` into its front matter, if it has one, and its body (see
/// `front_matter_spec`).
pub fn split_front_matter(content: &str) -> (res: (Option<String>, String))
    ensures
        (opt_view(res.0), res.1@) == front_matter_spec(content@),
{
    let v = chars_of(content);
    let n = v.len();
    let mut a: usize = 0;
    while a < n && is_whitespace(v[a])
        invariant
            a <= n == v@.len(),
            forall|i: int| 0 <= i < a ==> #[trigger] is_ws(v@[i]),
        decreases n - a,
    {
        a = a + 1;
    }
    proof {
        if a < n {
            assert(!is_ws(v@[a as int]));
        }
        lemma_leading_ws_unique(v@, a as int);
    }
    let ghost t = trim_start(content@);
    assert(t =~= v@.subrange(a as int, n as int));
    if n - a >= 3 && v[a] == '-' && v[a + 1] == '-' && v[a + 2] == '-' {
        let s = a + 3;
        let ghost rest = t.skip(3);
        assert(rest =~= v@.subrange(s as int, n as int));
        let mut j = s;
        while n - j >= 3 && !(v[j] == '-' && v[j + 1] == '-' && v[j + 2] == '-')
            invariant
                s <= j <= n,
                n == v@.len(),
                rest == v@.subrange(s as int, n as int),
                find_dashes(rest, 0) == find_dashes(rest, j - s),
            decreases n - j,
        {
            j = j + 1;
        }
        if n - j >= 3 {
            assert(find_dashes(rest, 0) == Some(j - s));
            let (fa, fb) = trim_bounds(&v, s, j);
            assert(v@.subrange(s as int, j as int) =~= rest.take(j - s));
            if fa < fb {
                let (ba, bb) = trim_bounds(&v, j + 3, n);
                assert(v@.subrange(j + 3, n as int) =~= rest.skip(j - s + 3));
                let fm = string_of(&v, fa, fb);
                let body = string_of(&v, ba, bb);
                return (Some(fm), body);
            }
        } else {
            assert(find_dashes(rest, j - s) is None);
        }
    }
    (None, string_of(&v, a, n))
}

} // verus!
