use pyrs_yaml_core::stream_dump::{dump_options, normalize_doc, DumpWriter};

fn run(docs: &[&str], explicit_start: bool, explicit_end: bool, chunk: usize) -> (Vec<String>, String) {
    let mut w = DumpWriter::new(chunk, explicit_start, explicit_end);
    let mut chunks = Vec::new();
    for d in docs {
        chunks.extend(w.document(d));
    }
    if let Some(last) = w.finish() {
        chunks.push(last);
    }
    let all = chunks.concat();
    (chunks, all)
}

#[test]
fn normalize_doc_ends_with_one_newline() {
    assert_eq!(normalize_doc("a: 1"), "a: 1\n");
    assert_eq!(normalize_doc("a: 1\n\n\n"), "a: 1\n");
    assert_eq!(normalize_doc("a: 1\n"), "a: 1\n");
    assert_eq!(normalize_doc(""), "\n");
    assert_eq!(normalize_doc("\n\n"), "\n");
    assert_eq!(normalize_doc("x\n y\n"), "x\n y\n");
}

#[test]
fn dump_options_fixed_shape() {
    let o = dump_options(true);
    assert_eq!(o.indent_size, 2);
    assert!(!o.explicit_start);
    assert!(!o.explicit_end);
    assert!(o.sort_keys);
    assert_eq!(o.max_depth, 1000);
    assert_eq!(o.width, 80);
    assert_eq!(o.indent_mapping, 2);
    assert_eq!(o.indent_sequence, 2);
    assert_eq!(o.indent_offset, 0);
    assert!(!dump_options(false).sort_keys);
}

#[test]
fn separators_between_documents_only() {
    let (chunks, all) = run(&["a: 1\n", "b: 2"], false, false, 64 * 1024);
    assert_eq!(all, "a: 1\n---\nb: 2\n");
    assert_eq!(chunks.len(), 1);
}

#[test]
fn explicit_start_and_end_markers() {
    let (_, all) = run(&["a: 1", "b: 2\n\n"], true, true, 64 * 1024);
    assert_eq!(all, "---\na: 1\n---\nb: 2\n...\n");
}

#[test]
fn empty_stream_writes_nothing() {
    let (chunks, all) = run(&[], true, true, 64 * 1024);
    assert!(chunks.is_empty());
    assert_eq!(all, "");
}

#[test]
fn small_chunks_hand_out_each_write() {
    let mut w = DumpWriter::new(1, true, false);
    let c = w.document("x");
    assert_eq!(c, vec!["---\n".to_string(), "x\n".to_string()]);
    assert_eq!(w.pending_len(), 0);
    assert_eq!(w.finish(), None);
}

#[test]
fn chunking_does_not_change_the_text() {
    let docs = ["k: v\n", "- 1\n- 2\n", "z"];
    let (_, whole) = run(&docs, false, true, 1 << 20);
    for chunk in [1usize, 3, 7, 12] {
        let (chunks, all) = run(&docs, false, true, chunk);
        assert_eq!(all, whole);
        for c in &chunks[..chunks.len() - 1] {
            assert!(c.len() >= chunk);
        }
    }
    assert_eq!(whole, "k: v\n---\n- 1\n- 2\n---\nz\n...\n");
}

#[test]
fn write_buffers_below_chunk_size() {
    let mut w = DumpWriter::new(10, false, false);
    assert_eq!(w.write("abc"), None);
    assert_eq!(w.pending_len(), 3);
    assert_eq!(w.write("defghij"), Some("abcdefghij".to_string()));
    assert_eq!(w.pending_len(), 0);
    assert_eq!(w.flush(), None);
    assert_eq!(w.write("é"), None);
    assert_eq!(w.pending_len(), 2);
    assert_eq!(w.flush(), Some("é".to_string()));
}
