//! Writing a stream of serialized documents to a sink in chunks.
//!
//! The decisions of a streaming dump live here; the caller pulls the
//! documents, serializes them and hands each resulting text to
//! [`DumpWriter::document`], then writes out every chunk it gets back.
//! Separator policy: `---\n` before every document after the first,
//! `explicit_start` adds a leading `---\n`, `explicit_end` a trailing
//! `...\n`; an empty stream writes nothing.
use crate::serializer::SerializeOptions;
use crate::text::{push_char, utf8_len};
use vstd::prelude::*;
use vstd::string::*;

verus! {

/// `s` without its trailing newlines.
pub open spec fn trim_newlines_end(s: Seq<char>) -> Seq<char>
    decreases s.len(),
{
    if s.len() > 0 && s.last() == '\n' {
        trim_newlines_end(s.drop_last())
    } else {
        s
    }
}

/// A document text ending with exactly one newline.
pub open spec fn normalized(s: Seq<char>) -> Seq<char> {
    trim_newlines_end(s).push('\n')
}

/// Strip the trailing newlines of `text` and end it with exactly one.
pub fn normalize_doc(text: &str) -> (res: String)
    ensures
        res@ == normalized(text@),
{
    let v = crate::text::chars_of(text);
    let mut e = v.len();
    assert(v@.take(v@.len() as int) =~= v@);
    while e > 0 && v[e - 1] == '\n'
        invariant
            e <= v@.len(),
            trim_newlines_end(v@) == trim_newlines_end(v@.take(e as int)),
        decreases e,
    {
        assert(v@.take(e as int).drop_last() =~= v@.take(e - 1));
        e = e - 1;
    }
    assert(v@.take(v@.len() as int) =~= v@);
    let mut out = crate::text::string_of(&v, 0, e);
    assert(v@.subrange(0, e as int) =~= v@.take(e as int));
    push_char(&mut out, '\n');
    out
}

/// The serializer options of a streaming dump: two-space indentation, no
/// document markers (the writer places them), `sort_keys` as given.
pub fn dump_options(sort_keys: bool) -> (res: SerializeOptions)
    ensures
        res == (SerializeOptions {
            indent_size: 2,
            explicit_start: false,
            explicit_end: false,
            sort_keys,
            max_depth: 1000,
            width: 80,
            indent_mapping: 2,
            indent_sequence: 2,
            indent_offset: 0,
        }),
{
    SerializeOptions {
        indent_size: 2,
        explicit_start: false,
        explicit_end: false,
        sort_keys,
        max_depth: 1000,
        width: 80,
        indent_mapping: 2,
        indent_sequence: 2,
        indent_offset: 0,
    }
}

/// What precedes a document: a separator unless it is the first one of a
/// stream without an explicit start.
pub open spec fn separator(first: bool, explicit_start: bool) -> Seq<char> {
    if !first || explicit_start {
        "---\n"@
    } else {
        seq![]
    }
}

/// The text one document adds to the stream.
pub open spec fn doc_piece(first: bool, explicit_start: bool, yaml: Seq<char>) -> Seq<char> {
    separator(first, explicit_start) + normalized(yaml)
}

/// The text that closes the stream: the end marker after at least one
/// document when `explicit_end` is set.
pub open spec fn end_piece(first: bool, explicit_end: bool) -> Seq<char> {
    if explicit_end && !first {
        "...\n"@
    } else {
        seq![]
    }
}

/// The pieces of `docs`, the first of them counted as first when `first`.
pub open spec fn docs_text(docs: Seq<Seq<char>>, first: bool, explicit_start: bool) -> Seq<char>
    decreases docs.len(),
{
    if docs.len() == 0 {
        seq![]
    } else {
        doc_piece(first, explicit_start, docs[0]) + docs_text(docs.drop_first(), false, explicit_start)
    }
}

/// The whole output of a stream of documents.
pub open spec fn stream_text(docs: Seq<Seq<char>>, explicit_start: bool, explicit_end: bool) -> Seq<char> {
    docs_text(docs, true, explicit_start) + end_piece(docs.len() == 0, explicit_end)
}

/// The chunks `cs` joined.
pub open spec fn joined(cs: Seq<Seq<char>>) -> Seq<char>
    decreases cs.len(),
{
    if cs.len() == 0 {
        seq![]
    } else {
        joined(cs.drop_last()) + cs.last()
    }
}

/// The chunk lists `outs` joined, list after list.
pub open spec fn joined_all(outs: Seq<Seq<Seq<char>>>) -> Seq<char>
    decreases outs.len(),
{
    if outs.len() == 0 {
        seq![]
    } else {
        joined_all(outs.drop_last()) + joined(outs.last())
    }
}

/// The views of a list of strings.
pub open spec fn views(v: Seq<String>) -> Seq<Seq<char>> {
    v.map_values(|s: String| s@)
}

/// Buffers the output of a streaming dump and hands it out in chunks of at
/// least `chunk_size` bytes (the last one may be shorter).
pub struct DumpWriter {
    pending: String,
    chunk_size: usize,
    first: bool,
    explicit_start: bool,
    explicit_end: bool,
}

impl DumpWriter {
    /// Text written but not yet handed out.
    pub closed spec fn pending_text(&self) -> Seq<char> {
        self.pending@
    }

    /// Whether no document has been written yet.
    pub closed spec fn at_start(&self) -> bool {
        self.first
    }

    pub closed spec fn chunk_size_spec(&self) -> usize {
        self.chunk_size
    }

    pub closed spec fn explicit_start_spec(&self) -> bool {
        self.explicit_start
    }

    pub closed spec fn explicit_end_spec(&self) -> bool {
        self.explicit_end
    }

    /// Same settings and start flag as `other`.
    pub open spec fn same_settings(&self, other: &Self) -> bool {
        &&& self.chunk_size_spec() == other.chunk_size_spec()
        &&& self.explicit_start_spec() == other.explicit_start_spec()
        &&& self.explicit_end_spec() == other.explicit_end_spec()
    }

    /// A writer with nothing buffered and no document written.
    pub fn new(chunk_size: usize, explicit_start: bool, explicit_end: bool) -> (res: Self)
        ensures
            res.pending_text() == Seq::<char>::empty(),
            res.at_start(),
            res.chunk_size_spec() == chunk_size,
            res.explicit_start_spec() == explicit_start,
            res.explicit_end_spec() == explicit_end,
    {
        DumpWriter { pending: String::new(), chunk_size, first: true, explicit_start, explicit_end }
    }

    /// Byte length of the buffered text.
    pub fn pending_len(&self) -> (res: usize)
        ensures
            res == utf8_len(self.pending_text()) as usize,
    {
        self.pending.as_str().len()
    }

    /// Hand out the buffered text, if there is any.
    pub fn flush(&mut self) -> (res: Option<String>)
        ensures
            final(self).pending_text() == Seq::<char>::empty(),
            final(self).at_start() == old(self).at_start(),
            final(self).same_settings(old(self)),
            match res {
                Some(c) => c@ == old(self).pending_text() && c@.len() > 0,
                None => old(self).pending_text().len() == 0,
            },
    {
        if self.pending.as_str().unicode_len() == 0 {
            return None;
        }
        let mut out = String::new();
        std::mem::swap(&mut out, &mut self.pending);
        Some(out)
    }

    /// Buffer `text`; hand out the buffer once it holds at least
    /// `chunk_size` bytes.
    pub fn write(&mut self, text: &str) -> (res: Option<String>)
        requires
            utf8_len(old(self).pending_text() + text@) <= usize::MAX,
        ensures
            final(self).at_start() == old(self).at_start(),
            final(self).same_settings(old(self)),
            utf8_len(old(self).pending_text() + text@) >= old(self).chunk_size_spec() ==> {
                &&& res matches Some(c) && c@ == old(self).pending_text() + text@
                &&& final(self).pending_text() == Seq::<char>::empty()
            },
            utf8_len(old(self).pending_text() + text@) < old(self).chunk_size_spec() ==> {
                &&& res is None
                &&& final(self).pending_text() == old(self).pending_text() + text@
            },
    {
        self.pending.append(text);
        let n = self.pending.as_str().len();
        if n >= self.chunk_size {
            let mut out = String::new();
            std::mem::swap(&mut out, &mut self.pending);
            Some(out)
        } else {
            None
        }
    }

    /// Add one serialized document, with its separator, and return the
    /// chunks that became ready, in order.
    pub fn document(&mut self, yaml: &str) -> (res: Vec<String>)
        requires
            utf8_len(old(self).pending_text() + doc_piece(old(self).at_start(), old(self).explicit_start_spec(), yaml@))
                <= usize::MAX,
        ensures
            !final(self).at_start(),
            final(self).same_settings(old(self)),
            joined(views(res@)) + final(self).pending_text() == old(self).pending_text() + doc_piece(
                old(self).at_start(),
                old(self).explicit_start_spec(),
                yaml@,
            ),
            forall|i: int| 0 <= i < res@.len() ==> utf8_len(#[trigger] res@[i]@) >= old(self).chunk_size_spec(),
    {
        let ghost p0 = self.pending@;
        let ghost sep = separator(self.first, self.explicit_start);
        let ghost body = normalized(yaml@);
        let mut chunks: Vec<String> = Vec::new();
        if !self.first || self.explicit_start {
            proof {
                reveal_strlit("---\n");
                lemma_utf8_prefix_le(p0 + sep, body);
                assert(p0 + sep + body =~= p0 + (sep + body));
            }
            if let Some(c) = self.write("---\n") {
                chunks.push(c);
                proof {
                    assert(views(chunks@).drop_last() =~= Seq::<Seq<char>>::empty());
                    assert(views(chunks@).last() == c@);
                    assert(joined(Seq::<Seq<char>>::empty()) == Seq::<char>::empty());
                    assert(joined(views(chunks@)) + self.pending@ =~= p0 + sep);
                }
            } else {
                assert(views(chunks@) =~= Seq::<Seq<char>>::empty());
                assert(joined(views(chunks@)) + self.pending@ =~= p0 + sep);
            }
        } else {
            assert(p0 + sep =~= p0);
            assert(views(chunks@) =~= Seq::<Seq<char>>::empty());
            assert(joined(views(chunks@)) + self.pending@ =~= p0 + sep);
        }
        let d = normalize_doc(yaml);
        proof {
            assert(utf8_len(self.pending@ + d@) <= utf8_len(joined(views(chunks@)) + self.pending@ + d@)) by {
                lemma_utf8_suffix_le(joined(views(chunks@)), self.pending@ + d@);
                assert(joined(views(chunks@)) + self.pending@ + d@ =~= joined(views(chunks@)) + (self.pending@ + d@));
            }
            assert(joined(views(chunks@)) + self.pending@ + d@ =~= p0 + (sep + body));
        }
        let ghost before = chunks@;
        let ghost pb = self.pending@;
        if let Some(c) = self.write(d.as_str()) {
            chunks.push(c);
            proof {
                assert(views(chunks@).drop_last() =~= views(before));
                assert(views(chunks@).last() == c@);
                assert(joined(views(chunks@)) == joined(views(before)) + (pb + d@));
            }
        }
        self.first = false;
        proof {
            assert(joined(views(chunks@)) + self.pending@ =~= p0 + (sep + body));
        }
        chunks
    }

    /// Close the stream: add the end marker where it is due and hand out
    /// everything still buffered.
    pub fn finish(&mut self) -> (res: Option<String>)
        requires
            utf8_len(old(self).pending_text() + end_piece(old(self).at_start(), old(self).explicit_end_spec()))
                <= usize::MAX,
        ensures
            final(self).pending_text() == Seq::<char>::empty(),
            final(self).at_start() == old(self).at_start(),
            final(self).same_settings(old(self)),
            match res {
                Some(c) => c@ == old(self).pending_text() + end_piece(
                    old(self).at_start(),
                    old(self).explicit_end_spec(),
                ),
                None => old(self).pending_text() + end_piece(old(self).at_start(), old(self).explicit_end_spec())
                    == Seq::<char>::empty(),
            },
    {
        let ghost p0 = self.pending@;
        if self.explicit_end && !self.first {
            proof {
                reveal_strlit("...\n");
            }
            self.pending.append("...\n");
        } else {
            assert(p0 + end_piece(self.first, self.explicit_end) =~= p0);
        }
        self.flush()
    }
}

/// UTF-8 length grows under appending.
proof fn lemma_utf8_prefix_le(a: Seq<char>, b: Seq<char>)
    ensures
        utf8_len(a) <= utf8_len(a + b),
{
    crate::text::lemma_encode_utf8_concat(a, b);
}

/// UTF-8 length grows under prepending.
proof fn lemma_utf8_suffix_le(a: Seq<char>, b: Seq<char>)
    ensures
        utf8_len(b) <= utf8_len(a + b),
{
    crate::text::lemma_encode_utf8_concat(a, b);
}

/// Whatever the chunking, the text handed out over a whole stream is the
/// stream's text under the separator policy: when each call to `document`
/// hands out chunks `outs[i]` leaving `pend[i + 1]` buffered (starting from
/// an empty buffer), and `finish` hands out `fin`, the chunks joined in
/// order followed by `fin` are `stream_text(docs, ..)`.
pub proof fn law_dump_writes_stream_text(
    docs: Seq<Seq<char>>,
    explicit_start: bool,
    explicit_end: bool,
    outs: Seq<Seq<Seq<char>>>,
    pend: Seq<Seq<char>>,
    fin: Seq<char>,
)
    requires
        outs.len() == docs.len(),
        pend.len() == docs.len() + 1,
        pend[0] == Seq::<char>::empty(),
        forall|i: int|
            0 <= i < docs.len() ==> joined(#[trigger] outs[i]) + pend[i + 1] == pend[i] + doc_piece(
                i == 0,
                explicit_start,
                docs[i],
            ),
        fin == pend[docs.len() as int] + end_piece(docs.len() == 0, explicit_end),
    ensures
        joined_all(outs) + fin == stream_text(
            docs,
            explicit_start,
            explicit_end,
        ),
{
    let n = docs.len() as int;
    lemma_prefix_text(docs, explicit_start, outs, pend, n);
    assert(outs.take(n) =~= outs);
    assert(docs.take(n) =~= docs);
    assert(joined_all(outs) + fin =~= docs_text(docs, true, explicit_start) + end_piece(
        n == 0,
        explicit_end,
    ));
}

/// The pieces of `docs[..k + 1]` are those of `docs[..k]` followed by the
/// piece of `docs[k]`.
proof fn lemma_docs_text_snoc(docs: Seq<Seq<char>>, first: bool, es: bool, k: int)
    requires
        0 <= k < docs.len(),
    ensures
        docs_text(docs.take(k + 1), first, es) == docs_text(docs.take(k), first, es) + doc_piece(
            first && k == 0,
            es,
            docs[k],
        ),
    decreases k,
{
    if k == 0 {
        assert(docs.take(1).drop_first() =~= Seq::<Seq<char>>::empty());
        assert(docs.take(0) =~= Seq::<Seq<char>>::empty());
        assert(docs_text(docs.take(1).drop_first(), false, es) == Seq::<char>::empty());
        assert(docs_text(docs.take(1), first, es) =~= doc_piece(first, es, docs[0]) + Seq::<char>::empty());
        assert(Seq::<char>::empty() + doc_piece(first, es, docs[0]) =~= doc_piece(first, es, docs[0]));
    } else {
        let rest = docs.drop_first();
        lemma_docs_text_snoc(rest, false, es, k - 1);
        assert(docs.take(k + 1).drop_first() =~= rest.take(k));
        assert(docs.take(k).drop_first() =~= rest.take(k - 1));
        assert(docs.take(k + 1)[0] == docs[0]);
        assert(docs.take(k)[0] == docs[0]);
        assert(rest[k - 1] == docs[k]);
        assert(docs_text(docs.take(k + 1), first, es) =~= doc_piece(first, es, docs[0]) + (docs_text(
            rest.take(k - 1),
            false,
            es,
        ) + doc_piece(false, es, docs[k])));
    }
}

proof fn lemma_prefix_text(
    docs: Seq<Seq<char>>,
    es: bool,
    outs: Seq<Seq<Seq<char>>>,
    pend: Seq<Seq<char>>,
    k: int,
)
    requires
        outs.len() == docs.len(),
        pend.len() == docs.len() + 1,
        pend[0] == Seq::<char>::empty(),
        forall|i: int|
            0 <= i < docs.len() ==> joined(#[trigger] outs[i]) + pend[i + 1] == pend[i] + doc_piece(
                i == 0,
                es,
                docs[i],
            ),
        0 <= k <= docs.len(),
    ensures
        joined_all(outs.take(k)) + pend[k] == docs_text(
            docs.take(k),
            true,
            es,
        ),
    decreases k,
{
    if k == 0 {
        assert(outs.take(0) =~= Seq::<Seq<Seq<char>>>::empty());
        assert(docs.take(0) =~= Seq::<Seq<char>>::empty());
        assert(Seq::<char>::empty() + Seq::<char>::empty() =~= Seq::<char>::empty());
    } else {
        lemma_prefix_text(docs, es, outs, pend, k - 1);
        assert(outs.take(k).drop_last() =~= outs.take(k - 1));
        lemma_docs_text_snoc(docs, true, es, k - 1);
        let a = joined_all(outs.take(k - 1));
        assert(joined(outs[k - 1]) + pend[k] == pend[k - 1] + doc_piece(k - 1 == 0, es, docs[k - 1]));
        assert(a + joined(outs[k - 1]) + pend[k] =~= a + (joined(outs[k - 1]) + pend[k]));
        assert(a + (pend[k - 1] + doc_piece(k - 1 == 0, es, docs[k - 1])) =~= (a + pend[k - 1]) + doc_piece(
            k - 1 == 0,
            es,
            docs[k - 1],
        ));
    }
}

} // verus!
