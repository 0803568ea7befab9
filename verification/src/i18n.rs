//! Language selection for localized messages: the supported languages,
//! BCP 47 negotiation (RFC 4647 basic filtering), parsing of language lists
//! as found in locale environment variables, and message templating.
use crate::text::{chars_of, lowercase, str_equals, string_of, to_lowercase, trim, trim_bounds};
use crate::comment::{lines_of, newline_from};
use vstd::prelude::*;

verus! {

/// The supported languages, in order.
pub open spec fn supported_languages() -> Seq<Seq<char>> {
    seq!["en"@, "zh-CN"@, "ja-JP"@, "ko-KR"@]
}

/// `l` is one of the supported languages.
pub open spec fn is_supported(l: Seq<char>) -> bool {
    l == "en"@ || l == "zh-CN"@ || l == "ja-JP"@ || l == "ko-KR"@
}

/// `p` is a prefix of `s`.
pub open spec fn starts_with(s: Seq<char>, p: Seq<char>) -> bool {
    p.len() <= s.len() && s.take(p.len() as int) == p
}

/// Number of leading characters of `s` before the first `-`.
pub open spec fn dash_run(s: Seq<char>) -> nat
    decreases s.len(),
{
    if s.len() > 0 && s[0] != '-' {
        1 + dash_run(s.drop_first())
    } else {
        0
    }
}

/// The primary language subtag: the text before the first `-`.
pub open spec fn primary_subtag(l: Seq<char>) -> Seq<char> {
    l.take(dash_run(l) as int)
}

/// The first supported language that starts with `p`.
pub open spec fn prefix_match(p: Seq<char>) -> Option<Seq<char>> {
    if starts_with("en"@, p) {
        Some("en"@)
    } else if starts_with("zh-CN"@, p) {
        Some("zh-CN"@)
    } else if starts_with("ja-JP"@, p) {
        Some("ja-JP"@)
    } else if starts_with("ko-KR"@, p) {
        Some("ko-KR"@)
    } else {
        None
    }
}

/// Language negotiation over the user's preference list: for each locale in
/// order, an exact match, else the first supported language that starts with
/// its primary subtag; when none matches, `default` if it is supported, else
/// `en`.
pub open spec fn negotiate_spec(locales: Seq<Seq<char>>, default: Seq<char>) -> Seq<char>
    decreases locales.len(),
{
    if locales.len() == 0 {
        if is_supported(default) {
            default
        } else {
            "en"@
        }
    } else if is_supported(locales[0]) {
        locales[0]
    } else if prefix_match(primary_subtag(locales[0])) is Some {
        prefix_match(primary_subtag(locales[0]))->0
    } else {
        negotiate_spec(locales.drop_first(), default)
    }
}

/// Negotiation always settles on a supported language, whatever the user's
/// list and the default.
pub proof fn law_negotiated_is_supported(locales: Seq<Seq<char>>, default: Seq<char>)
    ensures
        is_supported(negotiate_spec(locales, default)),
    decreases locales.len(),
{
    if locales.len() > 0 {
        law_negotiated_is_supported(locales.drop_first(), default);
    }
}


/// The texts of a slice of string slices.
pub open spec fn texts_of(v: Seq<&str>) -> Seq<Seq<char>> {
    v.map_values(|s: &str| s@)
}

/// What `rust_i18n::replace_patterns` makes of a template: each `%{name}`
/// whose name is among `patterns` becomes the value at the same position.
pub uninterp spec fn replaced_patterns(input: Seq<char>, patterns: Seq<Seq<char>>, values: Seq<Seq<char>>) -> Seq<
    char,
>;

/// The texts of a list of string slices.
pub open spec fn str_views(v: Seq<&str>) -> Seq<Seq<char>> {
    v.map_values(|s: &str| s@)
}

/// The texts of a list of strings.
pub open spec fn string_views(v: Seq<String>) -> Seq<Seq<char>> {
    v.map_values(|s: String| s@)
}

/// Whether every `{` and `}` of `t` either opens the text or follows an
/// ASCII character.
pub open spec fn braces_follow_ascii(t: Seq<char>) -> bool {
    forall|k: int| 1 <= k < t.len() && (t[k] == '{' || t[k] == '}') ==> (#[trigger] t[k - 1] as u32) < 0x80
}

/// Runtime placeholder substitution by `rust_i18n::replace_patterns`; its
/// result is named by `replaced_patterns` over the texts of the arguments.
/// The function cuts its input one byte before each `{` or `}` it records
/// and builds the result without checking it is UTF-8; when every brace
/// follows an ASCII character, each cut falls between characters, so the
/// result is a well-formed text. On other inputs it can cut a character
/// apart, which is why they are ruled out. What it makes of unmatched or
/// nested braces is left to the name and not stated here.
#[verifier::external_body]
fn replace_patterns(input: &str, patterns: &Vec<&str>, values: &Vec<String>) -> (res: String)
    requires
        braces_follow_ascii(input@),
    ensures
        res@ == replaced_patterns(input@, str_views(patterns@), string_views(values@)),
{
    rust_i18n::replace_patterns(input, patterns, values)
}

/// The names of a list of arguments.
pub open spec fn arg_names(args: Seq<(&str, &str)>) -> Seq<Seq<char>> {
    args.map_values(|a: (&str, &str)| a.0@)
}

/// The values of a list of arguments.
pub open spec fn arg_values(args: Seq<(&str, &str)>) -> Seq<Seq<char>> {
    args.map_values(|a: (&str, &str)| a.1@)
}

/// Fill a message template: without arguments the template itself,
/// otherwise each `%{name}` placeholder replaced by its argument's value.
/// Every brace of the template must follow an ASCII character (or open it).
pub fn format_template(template: &str, args: &[(&str, &str)]) -> (res: String)
    requires
        args@.len() > 0 ==> braces_follow_ascii(template@),
    ensures
        args@.len() == 0 ==> res@ == template@,
        args@.len() > 0 ==> res@ == replaced_patterns(template@, arg_names(args@), arg_values(args@)),
{
    if args.len() == 0 {
        return template.to_string();
    }
    let mut patterns: Vec<&str> = Vec::new();
    let mut values: Vec<String> = Vec::new();
    let mut i: usize = 0;
    while i < args.len()
        invariant
            0 <= i <= args@.len(),
            str_views(patterns@) == arg_names(args@).take(i as int),
            string_views(values@) == arg_values(args@).take(i as int),
        decreases args@.len() - i,
    {
        let (k, v) = args[i];
        assert(args@[i as int] == (k, v));
        let ghost p0 = patterns@;
        let ghost v0 = values@;
        patterns.push(k);
        let vs = v.to_string();
        assert(vs@ == v@);
        values.push(vs);
        proof {
            assert(str_views(patterns@) =~= str_views(p0).push(k@));
            assert(string_views(values@) =~= string_views(v0).push(v@));
            assert(arg_names(args@).take(i + 1) =~= arg_names(args@).take(i as int).push(k@));
            assert(arg_values(args@).take(i + 1) =~= arg_values(args@).take(i as int).push(v@));
            assert(str_views(patterns@) =~= arg_names(args@).take(i + 1));
            assert(string_views(values@) =~= arg_values(args@).take(i + 1));
        }
        i = i + 1;
    }
    proof {
        assert(arg_names(args@).take(i as int) =~= arg_names(args@));
        assert(arg_values(args@).take(i as int) =~= arg_values(args@));
    }
    replace_patterns(template, &patterns, &values)
}

/// List all supported languages.
pub fn list_languages() -> (res: Vec<&'static str>)
    ensures
        texts_of(res@) == supported_languages(),
{
    let v = vec!["en", "zh-CN", "ja-JP", "ko-KR"];
    assert(texts_of(v@) =~= supported_languages());
    v
}

/// The supported language spelled `l`, if any.
fn supported_match(l: &str) -> (res: Option<&'static str>)
    ensures
        is_supported(l@) <==> res is Some,
        res is Some ==> res->0@ == l@,
{
    if str_equals(l, "en") {
        Some("en")
    } else if str_equals(l, "zh-CN") {
        Some("zh-CN")
    } else if str_equals(l, "ja-JP") {
        Some("ja-JP")
    } else if str_equals(l, "ko-KR") {
        Some("ko-KR")
    } else {
        None
    }
}

/// Whether `v[0..k]` is a prefix of `lit`.
fn prefix_of(v: &Vec<char>, k: usize, lit: &str) -> (res: bool)
    requires
        k <= v@.len(),
    ensures
        res == starts_with(lit@, v@.take(k as int)),
{
    let w = chars_of(lit);
    if k > w.len() {
        return false;
    }
    let mut i: usize = 0;
    while i < k
        invariant
            k <= v@.len(),
            k <= w@.len(),
            w@ == lit@,
            0 <= i <= k,
            forall|j: int| 0 <= j < i ==> v@[j] == w@[j],
        decreases k - i,
    {
        if v[i] != w[i] {
            assert(lit@.take(k as int)[i as int] != v@.take(k as int)[i as int]);
            return false;
        }
        i = i + 1;
    }
    assert(lit@.take(k as int) =~= v@.take(k as int));
    true
}

/// The first supported language starting with `v[0..k]`.
fn prefix_match_of(v: &Vec<char>, k: usize) -> (res: Option<&'static str>)
    requires
        k <= v@.len(),
    ensures
        match prefix_match(v@.take(k as int)) {
            Some(s) => res is Some && res->0@ == s,
            None => res is None,
        },
{
    if prefix_of(v, k, "en") {
        Some("en")
    } else if prefix_of(v, k, "zh-CN") {
        Some("zh-CN")
    } else if prefix_of(v, k, "ja-JP") {
        Some("ja-JP")
    } else if prefix_of(v, k, "ko-KR") {
        Some("ko-KR")
    } else {
        None
    }
}

/// Length of the primary subtag of `v`.
fn dash_run_of(v: &Vec<char>) -> (res: usize)
    ensures
        res == dash_run(v@),
        res <= v@.len(),
{
    let mut i: usize = 0;
    assert(v@.skip(0) =~= v@);
    while i < v.len() && v[i] != '-'
        invariant
            0 <= i <= v@.len(),
            dash_run(v@) == i + dash_run(v@.skip(i as int)),
        decreases v@.len() - i,
    {
        assert(v@.skip(i as int).drop_first() =~= v@.skip(i + 1));
        i = i + 1;
    }
    if i < v.len() {
        assert(v@.skip(i as int)[0] == v@[i as int]);
    }
    i
}

/// BCP 47 language negotiation (RFC 4647 basic filtering): the best
/// supported language for the user's preference list, else the default.
pub fn negotiate_language<'a>(user_locales: &[&'a str], default: &'a str) -> (res: &'a str)
    ensures
        res@ == negotiate_spec(texts_of(user_locales@), default@),
{
    let ghost all = texts_of(user_locales@);
    let mut i: usize = 0;
    assert(all.skip(0) =~= all);
    while i < user_locales.len()
        invariant
            0 <= i <= user_locales@.len(),
            all == texts_of(user_locales@),
            negotiate_spec(all, default@) == negotiate_spec(all.skip(i as int), default@),
        decreases user_locales@.len() - i,
    {
        let loc: &'a str = user_locales[i];
        proof {
            assert(all.skip(i as int)[0] == loc@);
            assert(all.skip(i as int).drop_first() =~= all.skip(i + 1));
        }
        if supported_match(loc).is_some() {
            return loc;
        }
        let v = chars_of(loc);
        let k = dash_run_of(&v);
        match prefix_match_of(&v, k) {
            Some(s) => {
                return s;
            },
            None => {},
        }
        i = i + 1;
    }
    assert(all.skip(i as int).len() == 0);
    if supported_match(default).is_some() {
        default
    } else {
        "en"
    }
}

/// A separator of language lists.
pub open spec fn is_list_sep(c: char) -> bool {
    c == ':' || c == ','
}

/// Number of leading characters of `s` before the first separator.
pub open spec fn sep_run(s: Seq<char>) -> nat
    decreases s.len(),
{
    if s.len() > 0 && !is_list_sep(s[0]) {
        1 + sep_run(s.drop_first())
    } else {
        0
    }
}

/// The entries of a language list: the text split at `:` and `,`, each
/// piece trimmed and lowercased, empty entries dropped.
pub open spec fn language_list(s: Seq<char>) -> Seq<Seq<char>>
    decreases s.len(),
{
    let r = sep_run(s);
    let item = lowercase(trim(s.take(r as int)));
    let head = if item.len() > 0 {
        seq![item]
    } else {
        Seq::empty()
    };
    if r >= s.len() {
        head
    } else {
        head + language_list(s.skip(r as int + 1))
    }
}

/// The texts of a vector of strings.
pub open spec fn strings_of(v: Seq<String>) -> Seq<Seq<char>> {
    v.map_values(|s: String| s@)
}

/// Parse a language list such as `"zh-CN:zh,en"` into its entries.
pub fn parse_language_list(input: &str) -> (res: Vec<String>)
    ensures
        strings_of(res@) == language_list(input@),
{
    let v = chars_of(input);
    let mut out: Vec<String> = Vec::new();
    let mut start: usize = 0;
    assert(v@.skip(0) =~= v@);
    assert(strings_of(out@) + language_list(v@) =~= language_list(v@));
    loop
        invariant
            v@ == input@,
            0 <= start <= v@.len(),
            language_list(input@) == strings_of(out@) + language_list(v@.skip(start as int)),
        decreases v@.len() - start,
    {
        let ghost rest = v@.skip(start as int);
        let mut e = start;
        while e < v.len() && v[e] != ':' && v[e] != ','
            invariant
                start <= e <= v@.len(),
                rest == v@.skip(start as int),
                sep_run(rest) == (e - start) + sep_run(v@.skip(e as int)),
            decreases v@.len() - e,
        {
            assert(v@.skip(e as int).drop_first() =~= v@.skip(e + 1));
            e = e + 1;
        }
        if e < v.len() {
            assert(v@.skip(e as int)[0] == v@[e as int]);
        }
        let (a, b) = trim_bounds(&v, start, e);
        let piece = string_of(&v, a, b);
        let low = to_lowercase(piece.as_str());
        assert(rest.take((e - start) as int) =~= v@.subrange(start as int, e as int));
        let ghost before = strings_of(out@);
        let ghost head = if low@.len() > 0 {
            seq![low@]
        } else {
            Seq::<Seq<char>>::empty()
        };
        if !low.as_str().is_empty() {
            out.push(low);
        }
        assert(strings_of(out@) =~= before + head);
        if e >= v.len() {
            assert(language_list(rest) == head);
            assert(strings_of(out@) + Seq::<Seq<char>>::empty() =~= strings_of(out@));
            return out;
        }
        assert(rest.skip(e - start + 1) =~= v@.skip(e + 1));
        assert(language_list(rest) == head + language_list(v@.skip(e + 1)));
        assert(before + (head + language_list(v@.skip(e + 1))) =~= (before + head) + language_list(
            v@.skip(e + 1),
        ));
        start = e + 1;
    }
}

/// The current message language. It always holds a supported language.
pub struct LanguageState {
    current: String,
}

impl LanguageState {
    /// The current language.
    pub closed spec fn language(&self) -> Seq<char> {
        self.current@
    }

    /// The language set at start: English.
    pub fn new() -> (res: Self)
        ensures
            res.language() == "en"@,
    {
        LanguageState { current: "en".to_string() }
    }

    /// Set the current language; refused unless it is supported.
    pub fn set_language(&mut self, lang: &str) -> (res: Result<(), &'static str>)
        ensures
            res is Ok <==> is_supported(lang@),
            res is Ok ==> final(self).language() == lang@,
            res is Err ==> final(self).language() == old(self).language() && res->Err_0@
                == "Unsupported language"@,
    {
        if supported_match(lang).is_none() {
            return Err("Unsupported language");
        }
        self.current = lang.to_string();
        Ok(())
    }

    /// The current language.
    pub fn get_language(&self) -> (res: String)
        ensures
            res@ == self.language(),
    {
        self.current.clone()
    }

    /// The current language as a static text (English when the current
    /// one is not a supported language).
    pub fn get_language_static(&self) -> (res: &'static str)
        ensures
            res@ == if is_supported(self.language()) {
                self.language()
            } else {
                "en"@
            },
    {
        match supported_match(self.current.as_str()) {
            Some(s) => s,
            None => "en",
        }
    }
}

/// The language negotiated from one locale variable's value.
pub open spec fn from_variable(val: Seq<char>) -> Seq<char> {
    negotiate_spec(language_list(val), "en"@)
}

/// A variable that is set and not empty.
pub open spec fn set_var(v: Option<Seq<char>>) -> bool {
    v is Some && v->0.len() > 0
}

/// Language detection from the locale variables, in priority order
/// `PYI18N`, `LANGUAGE`, `LC_ALL` (unless `C` or `POSIX`), `LC_MESSAGES`,
/// `LANG`: the first one that is set and not empty decides; English when
/// none is.
pub open spec fn detect_spec(
    pyi18n: Option<Seq<char>>,
    language: Option<Seq<char>>,
    lc_all: Option<Seq<char>>,
    lc_messages: Option<Seq<char>>,
    lang: Option<Seq<char>>,
) -> Seq<char> {
    if set_var(pyi18n) {
        from_variable(pyi18n->0)
    } else if set_var(language) {
        from_variable(language->0)
    } else if set_var(lc_all) && lc_all->0 != "C"@ && lc_all->0 != "POSIX"@ {
        from_variable(lc_all->0)
    } else if set_var(lc_messages) {
        from_variable(lc_messages->0)
    } else if set_var(lang) {
        from_variable(lang->0)
    } else {
        "en"@
    }
}

/// The text of an optional string slice.
pub open spec fn opt_text(v: Option<&str>) -> Option<Seq<char>> {
    match v {
        Some(s) => Some(s@),
        None => None,
    }
}

/// The language negotiated from one variable's value.
fn negotiate_variable(val: &str) -> (res: String)
    ensures
        res@ == from_variable(val@),
{
    let locales = parse_language_list(val);
    let mut refs: Vec<&str> = Vec::new();
    let mut i: usize = 0;
    while i < locales.len()
        invariant
            0 <= i <= locales@.len(),
            refs@.len() == i,
            texts_of(refs@) == strings_of(locales@).take(i as int),
        decreases locales@.len() - i,
    {
        let r = locales[i].as_str();
        let ghost old_refs = refs@;
        refs.push(r);
        assert(refs@ == old_refs.push(r));
        assert(r@ == strings_of(locales@)[i as int]);
        assert(old_refs.len() == i);
        assert(texts_of(refs@).len() == i + 1);
        assert(texts_of(refs@)[i as int] == r@);
        assert forall|j: int| 0 <= j < i + 1 implies texts_of(refs@)[j] == strings_of(
            locales@,
        ).take(i + 1)[j] by {
            if j < i {
                assert(refs@[j] == old_refs[j]);
                assert(texts_of(old_refs)[j] == strings_of(locales@).take(i as int)[j]);
            }
        }
        assert(texts_of(refs@) =~= strings_of(locales@).take(i + 1));
        i = i + 1;
    }
    assert(strings_of(locales@).take(i as int) =~= strings_of(locales@));
    negotiate_language(refs.as_slice(), "en").to_string()
}

/// Detect the preferred language from the values of the locale variables
/// (`None` for a variable that is not set).
pub fn detect_language_from(
    pyi18n: Option<&str>,
    language: Option<&str>,
    lc_all: Option<&str>,
    lc_messages: Option<&str>,
    lang: Option<&str>,
) -> (res: String)
    ensures
        res@ == detect_spec(
            opt_text(pyi18n),
            opt_text(language),
            opt_text(lc_all),
            opt_text(lc_messages),
            opt_text(lang),
        ),
{
    if let Some(v) = pyi18n {
        if !v.is_empty() {
            return negotiate_variable(v);
        }
    }
    if let Some(v) = language {
        if !v.is_empty() {
            return negotiate_variable(v);
        }
    }
    if let Some(v) = lc_all {
        if !v.is_empty() && !str_equals(v, "C") && !str_equals(v, "POSIX") {
            return negotiate_variable(v);
        }
    }
    if let Some(v) = lc_messages {
        if !v.is_empty() {
            return negotiate_variable(v);
        }
    }
    if let Some(v) = lang {
        if !v.is_empty() {
            return negotiate_variable(v);
        }
    }
    "en".to_string()
}

/// The position of the first `:` of `line` from `i` on (its length when
/// there is none).
pub open spec fn colon_from(line: Seq<char>, i: int) -> int
    decreases line.len() - i,
{
    if i >= line.len() || i < 0 {
        line.len() as int
    } else if line[i] == ':' {
        i
    } else {
        colon_from(line, i + 1)
    }
}

/// The key a line of a message catalogue defines: the text before its
/// first `:`, trimmed; none for a blank line, a line starting with `#`, or
/// an empty key.
pub open spec fn catalog_key(line: Seq<char>) -> Option<Seq<char>> {
    if trim(line).len() == 0 || (line.len() > 0 && line[0] == '#') {
        None
    } else {
        let k = trim(line.take(colon_from(line, 0)));
        if k.len() == 0 {
            None
        } else {
            Some(k)
        }
    }
}

/// The keys the lines define, in order.
pub open spec fn catalog_keys_of(lines: Seq<Seq<char>>) -> Seq<Seq<char>>
    decreases lines.len(),
{
    if lines.len() == 0 {
        seq![]
    } else {
        catalog_keys_of(lines.drop_last()) + match catalog_key(lines.last()) {
            Some(k) => seq![k],
            None => seq![],
        }
    }
}

/// The keys of `en` (in order) that `other` lacks.
pub open spec fn missing_of(en: Seq<Seq<char>>, other: Seq<Seq<char>>) -> Seq<Seq<char>>
    decreases en.len(),
{
    if en.len() == 0 {
        seq![]
    } else {
        missing_of(en.drop_last(), other) + if other.contains(en.last()) {
            seq![]
        } else {
            seq![en.last()]
        }
    }
}

/// The key of the line `v[ls..le]` (see `catalog_key`).
fn line_key(v: &Vec<char>, ls: usize, le: usize) -> (res: Option<String>)
    requires
        ls <= le <= v@.len(),
    ensures
        match catalog_key(v@.subrange(ls as int, le as int)) {
            Some(k) => res matches Some(r) && r@ == k,
            None => res is None,
        },
{
    let ghost line = v@.subrange(ls as int, le as int);
    let (a, b) = trim_bounds(v, ls, le);
    if a == b {
        return None;
    }
    if le > ls && v[ls] == '#' {
        return None;
    }
    let mut c = ls;
    while c < le && v[c] != ':'
        invariant
            ls <= c <= le <= v@.len(),
            line == v@.subrange(ls as int, le as int),
            colon_from(line, 0) == colon_from(line, c - ls),
        decreases le - c,
    {
        c = c + 1;
    }
    assert(colon_from(line, c - ls) == c - ls);
    assert(line.take(c - ls) =~= v@.subrange(ls as int, c as int));
    let (ka, kb) = trim_bounds(v, ls, c);
    if ka == kb {
        None
    } else {
        Some(string_of(v, ka, kb))
    }
}

/// The keys a message catalogue defines, line by line (see
/// `catalog_key`).
pub fn catalog_keys(content: &str) -> (res: Vec<String>)
    ensures
        string_views(res@) == catalog_keys_of(lines_of(content@)),
{
    let v = chars_of(content);
    let ghost s = content@;
    let mut keys: Vec<String> = Vec::new();
    let n = v.len();
    let mut ls: usize = 0;
    let ghost mut done: Seq<Seq<char>> = seq![];
    assert(s.skip(0) =~= s);
    assert(string_views(keys@) =~= Seq::<Seq<char>>::empty());
    while ls < n
        invariant
            v@ == s,
            n == s.len(),
            0 <= ls <= n,
            lines_of(s) == done + lines_of(s.skip(ls as int)),
            string_views(keys@) == catalog_keys_of(done),
        decreases n - ls,
    {
        let ghost t = s.skip(ls as int);
        let mut e = ls;
        while e < n && v[e] != '\n'
            invariant
                ls <= e <= n,
                v@ == s,
                n == s.len(),
                t == s.skip(ls as int),
                newline_from(t, 0) == newline_from(t, e - ls),
            decreases n - e,
        {
            e = e + 1;
        }
        assert(newline_from(t, e - ls) == e - ls);
        let le = if e < n && e > ls && v[e - 1] == '\r' {
            e - 1
        } else {
            e
        };
        let ghost line = v@.subrange(ls as int, le as int);
        proof {
            let raw = t.take(e - ls);
            assert(raw =~= s.subrange(ls as int, e as int));
            if e < n && e > ls && v@[e - 1] == '\r' {
                assert(raw.last() == '\r');
                assert(line =~= raw.drop_last());
            } else {
                assert(line =~= raw);
            }
            let next = if e < n {
                e + 1
            } else {
                n as int
            };
            assert(t.skip(next - ls) =~= s.skip(next));
            assert(lines_of(t) == seq![line] + lines_of(t.skip(next - ls)));
        }
        let ghost before = keys@;
        match line_key(&v, ls, le) {
            Some(k) => {
                keys.push(k);
                assert(string_views(keys@) =~= string_views(before).push(k@));
            },
            None => {},
        }
        proof {
            let nd = done.push(line);
            assert(nd.drop_last() =~= done);
            assert(nd.last() == line);
            let next = if e < n {
                e + 1
            } else {
                n as int
            };
            assert(done + lines_of(t) =~= nd + lines_of(s.skip(next)));
            done = nd;
        }
        ls = if e < n {
            e + 1
        } else {
            n
        };
    }
    proof {
        assert(s.skip(n as int) =~= Seq::<char>::empty());
        assert(done + Seq::<Seq<char>>::empty() =~= done);
    }
    keys
}

/// The keys of `en`, in order, that `other` lacks.
pub fn missing_keys(en: &Vec<String>, other: &Vec<String>) -> (res: Vec<String>)
    ensures
        string_views(res@) == missing_of(string_views(en@), string_views(other@)),
{
    let ghost ev = string_views(en@);
    let ghost ov = string_views(other@);
    let mut out: Vec<String> = Vec::new();
    let mut i: usize = 0;
    assert(string_views(out@) =~= Seq::<Seq<char>>::empty());
    assert(ev.take(0) =~= Seq::<Seq<char>>::empty());
    while i < en.len()
        invariant
            0 <= i <= en@.len(),
            ev == string_views(en@),
            ov == string_views(other@),
            string_views(out@) == missing_of(ev.take(i as int), ov),
        decreases en@.len() - i,
    {
        let mut found = false;
        let mut j: usize = 0;
        while j < other.len()
            invariant
                0 <= j <= other@.len(),
                ov == string_views(other@),
                ev == string_views(en@),
                0 <= i < en@.len(),
                found == (exists|m: int| 0 <= m < j && ov[m] == ev[i as int]),
            decreases other@.len() - j,
        {
            if str_equals(other[j].as_str(), en[i].as_str()) {
                found = true;
            }
            proof {
                if found && !(exists|m: int| 0 <= m < j && ov[m] == ev[i as int]) {
                    assert(ov[j as int] == ev[i as int]);
                }
            }
            j = j + 1;
        }
        proof {
            assert(ev.take(i + 1).drop_last() =~= ev.take(i as int));
            assert(ev.take(i + 1).last() == ev[i as int]);
            if found {
                let m = choose|m: int| 0 <= m < other@.len() && ov[m] == ev[i as int];
                assert(ov.contains(ev[i as int]));
            } else {
                assert(!ov.contains(ev[i as int]));
            }
        }
        if !found {
            let ghost before = out@;
            out.push(en[i].clone());
            assert(string_views(out@) =~= string_views(before).push(en@[i as int]@));
        }
        i = i + 1;
    }
    assert(ev.take(en@.len() as int) =~= ev);
    out
}

} // verus!
