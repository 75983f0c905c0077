use coderlm::annotations::{apply_annotations, collect_annotations, load_annotations, save_annotations, AnnotationData};
use coderlm::filetree::FileTree;
use coderlm::chunker::{semantic_chunks, simple_chunks};
use coderlm::content::{chunk_indices, grep_files, peek, GrepScope};
use coderlm::repl::ReplState;
use coderlm::symbol::{Language, Symbol, SymbolKind};
use coderlm::symtab::SymbolTable;

fn sym(file: &str, name: &str, start: usize, end: usize) -> Symbol {
    Symbol {
        name: name.to_string(),
        kind: SymbolKind::Function,
        file: file.to_string(),
        byte_range: (start, end),
        line_range: (1, 1),
        language: Language::Markdown,
        signature: String::new(),
        definition: None,
        parent: None,
    }
}

#[test]
fn semantic_chunks_isolate_oversize_symbol() {
    // one 120-byte symbol at [50, 170), budget 100 bytes
    let mut table = SymbolTable::new();
    table.insert(sym("a.md", "big", 50, 170));
    let source = vec![b'x'; 200];
    let chunks = semantic_chunks(&source, &table, "a.md", 100);
    assert_eq!(chunks.len(), 3);
    assert_eq!((chunks[0].byte_start, chunks[0].byte_end), (0, 50));
    assert!(chunks[0].symbols.is_empty());
    assert_eq!((chunks[1].byte_start, chunks[1].byte_end), (50, 170));
    assert_eq!(chunks[1].symbols, vec!["big".to_string()]);
    assert_eq!((chunks[2].byte_start, chunks[2].byte_end), (170, 200));
}

#[test]
fn semantic_chunks_are_contiguous_and_ascending() {
    let mut table = SymbolTable::new();
    table.insert(sym("a.md", "f1", 0, 40));
    table.insert(sym("a.md", "f2", 40, 90));
    table.insert(sym("a.md", "f3", 90, 130));
    let source = vec![b'y'; 150];
    let chunks = semantic_chunks(&source, &table, "a.md", 64);
    assert!(!chunks.is_empty());
    assert_eq!(chunks[0].byte_start, 0);
    for w in chunks.windows(2) {
        assert_eq!(w[1].byte_start, w[0].byte_end);
        assert!(w[0].byte_start < w[1].byte_start);
    }
    assert_eq!(chunks.last().unwrap().byte_end, 150);
    for (i, c) in chunks.iter().enumerate() {
        assert_eq!(c.index, i);
        assert!(c.byte_end <= 150);
    }
}

#[test]
fn simple_chunks_break_at_newlines_and_cover_file() {
    let text = b"alpha\nbeta\ngamma delta epsilon\nzeta\n";
    let chunks = simple_chunks(text, 12);
    assert_eq!(chunks[0].byte_start, 0);
    assert_eq!(chunks.last().unwrap().byte_end, text.len());
    for w in chunks.windows(2) {
        assert_eq!(w[1].byte_start, w[0].byte_end);
    }
    // a window that is not the last breaks right after a newline
    assert_eq!(text[chunks[0].byte_end - 1], b'\n');
}

#[test]
fn chunk_windows_never_split_characters() {
    // multi-byte characters across window edges
    let s = "héllo wörld ünïcode çharacters ééé øøø".repeat(4);
    let windows = chunk_indices(s.as_bytes(), 10, 3);
    assert!(!windows.is_empty());
    for w in &windows {
        assert!(s.is_char_boundary(w.byte_start));
        assert!(s.is_char_boundary(w.byte_end));
        assert!(w.byte_start < w.byte_end);
        assert!(w.byte_end <= s.len());
    }
    assert_eq!(windows[0].byte_start, 0);
}

#[test]
fn chunk_windows_advance_by_size_minus_overlap() {
    let s = "abcdefghijklmnopqrstuvwxyz";
    let windows = chunk_indices(s.as_bytes(), 10, 4);
    assert_eq!((windows[0].byte_start, windows[0].byte_end), (0, 10));
    assert_eq!((windows[1].byte_start, windows[1].byte_end), (6, 16));
    // final window is truncated at end of file
    assert!(windows.last().unwrap().byte_end == s.len());
}

#[test]
fn simple_chunks_never_split_characters_without_newlines() {
    let s = "éøüñéøüñéøüñéøüñéøüñ";
    let chunks = simple_chunks(s.as_bytes(), 7);
    assert_eq!(chunks[0].byte_start, 0);
    assert_eq!(chunks.last().unwrap().byte_end, s.len());
    for c in &chunks {
        assert!(s.is_char_boundary(c.byte_start));
        assert!(s.is_char_boundary(c.byte_end));
    }
    for w in chunks.windows(2) {
        assert_eq!(w[1].byte_start, w[0].byte_end);
    }
    // budget of at least four bytes: no window exceeds it
    for c in &chunks {
        assert!(c.byte_end - c.byte_start <= 7);
    }
}

#[test]
fn grep_context_zero_returns_only_matching_lines() {
    let files = vec![
        ("a.txt".to_string(), b"one\ntwo needle\nthree\nneedle four\n".to_vec()),
        ("b.txt".to_string(), b"no match here\n".to_vec()),
    ];
    let hits = grep_files(&files, "needle", 50, 0, GrepScope::All, &Vec::new()).unwrap();
    assert_eq!(hits.len(), 2);
    for h in &hits {
        assert!(h.before.is_empty());
        assert!(h.after.is_empty());
        assert_eq!(h.file, "a.txt");
    }
    assert_eq!(hits[0].line_number, 2);
    assert_eq!(hits[0].line, b"two needle".to_vec());
    assert_eq!(hits[1].line_number, 4);
}

#[test]
fn grep_zero_budget_returns_nothing() {
    let files = vec![("a.txt".to_string(), b"needle\n".to_vec())];
    let hits = grep_files(&files, "needle", 0, 2, GrepScope::All, &Vec::new()).unwrap();
    assert!(hits.is_empty());
}

#[test]
fn grep_budget_caps_hit_count() {
    let files = vec![("a.txt".to_string(), b"x\nx\nx\nx\n".to_vec())];
    let hits = grep_files(&files, "x", 2, 0, GrepScope::All, &Vec::new()).unwrap();
    assert_eq!(hits.len(), 2);
    assert_eq!(hits[0].line_number, 1);
    assert_eq!(hits[1].line_number, 2);
}

#[test]
fn grep_finds_every_hit_under_budget() {
    let files = vec![
        ("a.txt".to_string(), b"k\nno\nk\n".to_vec()),
        ("b.txt".to_string(), b"k\n".to_vec()),
    ];
    let hits = grep_files(&files, "k", 50, 0, GrepScope::All, &Vec::new()).unwrap();
    assert_eq!(hits.len(), 3);
    assert_eq!((hits[0].file.as_str(), hits[0].line_number), ("a.txt", 1));
    assert_eq!((hits[1].file.as_str(), hits[1].line_number), ("a.txt", 3));
    assert_eq!((hits[2].file.as_str(), hits[2].line_number), ("b.txt", 1));
}

#[test]
fn grep_code_scope_skips_masked_lines() {
    let files = vec![("a.txt".to_string(), b"hit\nhit\nhit\n".to_vec())];
    // line 2 is classified away by the caller (say, a comment)
    let masks = vec![vec![2usize]];
    let hits = grep_files(&files, "hit", 50, 0, GrepScope::Code, &masks).unwrap();
    assert_eq!(hits.len(), 2);
    assert_eq!(hits[0].line_number, 1);
    assert_eq!(hits[1].line_number, 3);
    // the same scan in `all` scope ignores the mask
    let all = grep_files(&files, "hit", 50, 0, GrepScope::All, &masks).unwrap();
    assert_eq!(all.len(), 3);
    assert_eq!(GrepScope::from_str("code"), Some(GrepScope::Code));
    assert_eq!(GrepScope::from_str("everything"), None);
}

#[test]
fn grep_matches_regular_expressions() {
    let files = vec![(
        "a.rs".to_string(),
        b"fn alpha() {}
let x = 1;
fn beta_2(y: u8) {}
".to_vec(),
    )];
    let hits =
        grep_files(&files, r"fn \w+", 50, 0, GrepScope::All, &Vec::new()).unwrap();
    assert_eq!(hits.len(), 2);
    assert_eq!(hits[0].line_number, 1);
    assert_eq!(hits[1].line_number, 3);
    let anchored =
        grep_files(&files, r"^let", 50, 0, GrepScope::All, &Vec::new()).unwrap();
    assert_eq!(anchored.len(), 1);
    assert_eq!(anchored[0].line_number, 2);
}

#[test]
fn grep_rejects_invalid_patterns() {
    let files = vec![("a.txt".to_string(), b"text
".to_vec())];
    assert!(grep_files(&files, r"fn \w+(", 50, 0, GrepScope::All, &Vec::new()).is_err());
}

#[test]
fn grep_context_lines_surround_match() {
    let files = vec![("a.txt".to_string(), b"l1\nl2\nhit\nl4\nl5\n".to_vec())];
    let hits = grep_files(&files, "hit", 10, 1, GrepScope::All, &Vec::new()).unwrap();
    assert_eq!(hits.len(), 1);
    assert_eq!(hits[0].before, vec![b"l2".to_vec()]);
    assert_eq!(hits[0].after, vec![b"l4".to_vec()]);
}

#[test]
fn peek_clamps_line_range() {
    let src = b"a\nb\nc\nd\n";
    let r = peek(src, 1, 3);
    assert_eq!(r.total_lines, 4);
    assert_eq!(r.content, b"b\nc".to_vec());
    let over = peek(src, 2, 100);
    assert_eq!(over.content, b"c\nd".to_vec());
    let reversed = peek(src, 5, 3);
    assert!(reversed.content.is_empty());
}

#[test]
fn buffer_from_file_matches_line_slice() {
    let src = b"zero\none\ntwo\nthree\nfour";
    let mut repl = ReplState::new();
    let info = repl.buffer_from_file(src, "b", "a.md", 1, 4, 7);
    assert_eq!(info.size_bytes, "one\ntwo\nthree".len());
    // peeking the whole buffer returns exactly the joined line slice
    let got = repl.buffer_peek("b", 0, 10_000).unwrap();
    assert_eq!(got, b"one\ntwo\nthree".to_vec());
}

#[test]
fn buffer_from_file_reversed_range_is_empty() {
    // start = 5, end = 3: clamps to an empty slice, size 0
    let src = b"l0\nl1\nl2\nl3\nl4\nl5\nl6\n";
    let mut repl = ReplState::new();
    let info = repl.buffer_from_file(src, "b", "a.x", 5, 3, 7);
    assert_eq!(info.size_bytes, 0);
    assert_eq!(repl.buffer_peek("b", 0, 100).unwrap(), Vec::<u8>::new());
}

#[test]
fn buffer_peek_clamps_byte_range() {
    let mut repl = ReplState::new();
    repl.buffer_create("b", b"hello world".to_vec(), "greeting", 1);
    assert_eq!(repl.buffer_peek("b", 6, 11).unwrap(), b"world".to_vec());
    assert_eq!(repl.buffer_peek("b", 6, 999).unwrap(), b"world".to_vec());
    assert!(repl.buffer_peek("missing", 0, 1).is_err());
}

#[test]
fn buffer_create_replaces_and_delete_removes() {
    let mut repl = ReplState::new();
    repl.buffer_create("b", b"first".to_vec(), "", 1);
    repl.buffer_create("b", b"second".to_vec(), "", 2);
    assert_eq!(repl.buffer_list().len(), 1);
    assert_eq!(repl.buffer_peek("b", 0, 100).unwrap(), b"second".to_vec());
    assert!(repl.buffer_delete("b"));
    assert!(!repl.buffer_delete("b"));
    assert!(repl.buffer_info("b").is_err());
}

#[test]
fn buffer_info_preview_truncates_with_ellipsis() {
    let mut repl = ReplState::new();
    let content = vec![b'a'; 300];
    let info = repl.buffer_create("b", content, "", 1);
    assert_eq!(info.size_bytes, 300);
    let meta = repl.buffer_info("b").unwrap();
    assert_eq!(meta.preview.len(), 203);
    assert_eq!(&meta.preview[200..], b"...");
}

#[test]
fn buffer_from_symbol_stores_definition_slice() {
    let mut table = SymbolTable::new();
    table.insert(sym("a.md", "foo", 3, 8));
    let mut repl = ReplState::new();
    let src = b"0123456789";
    let info = repl.buffer_from_symbol(&table, src, "b", "foo", "a.md", 1).unwrap();
    assert_eq!(info.size_bytes, 5);
    assert_eq!(repl.buffer_peek("b", 0, 100).unwrap(), b"34567".to_vec());
    assert!(repl.buffer_from_symbol(&table, src, "b", "ghost", "a.md", 1).is_err());
}

#[test]
fn variables_and_final_marker() {
    let mut repl = ReplState::new();
    repl.var_set("x", "{\"k\":1}".to_string());
    repl.var_set("x", "2".to_string());
    assert_eq!(repl.var_get_text("x").unwrap(), "2");
    assert!(repl.var_get_text("y").is_err());
    assert_eq!(repl.var_list().len(), 1);
    assert!(repl.check_final().is_none());
    repl.var_set("Final", "\"done\"".to_string());
    assert_eq!(repl.check_final().unwrap(), "\"done\"");
    assert!(repl.var_delete("x"));
    assert!(!repl.var_delete("x"));
}

#[test]
fn subcall_results_append_and_clear() {
    let mut repl = ReplState::new();
    repl.add_subcall_result(coderlm::repl::SubcallResult {
        chunk_id: "c1".to_string(),
        query: "q".to_string(),
        findings: Vec::new(),
        suggested_queries: Vec::new(),
        answer_if_complete: None,
        created_at: 1,
    });
    assert_eq!(repl.list_subcall_results().len(), 1);
    repl.clear_subcall_results();
    assert!(repl.list_subcall_results().is_empty());
}

#[test]
fn context_budget_sums_bytes() {
    let mut repl = ReplState::new();
    repl.buffer_create("b1", vec![b'x'; 40], "", 1);
    repl.buffer_create("b2", vec![b'y'; 60], "", 1);
    repl.var_set("v", "12345678".to_string());
    let b = repl.context_budget();
    assert_eq!(b.buffer_count, 2);
    assert_eq!(b.buffer_bytes, 100);
    assert_eq!(b.variable_count, 1);
    assert_eq!(b.variable_bytes, 8);
    assert_eq!(b.subcall_count, 0);
    assert_eq!(b.total_bytes, 108);
    assert_eq!(b.estimated_tokens, 27);
}

#[test]
fn annotations_round_trip_exactly() {
    let data = AnnotationData {
        file_definitions: vec![
            ("src/a.md".to_string(), "entry\tpoint\nof it all".to_string()),
            ("b.md".to_string(), "back\\slash".to_string()),
        ],
        file_marks: vec![("src/a.md".to_string(), "reviewed ünïcode".to_string())],
        symbol_definitions: vec![(
            "src/a.md".to_string(),
            "foo".to_string(),
            "does\nthings".to_string(),
        )],
    };
    let bytes = save_annotations(&data);
    let back = load_annotations(&bytes).unwrap();
    assert_eq!(back.file_definitions, data.file_definitions);
    assert_eq!(back.file_marks, data.file_marks);
    assert_eq!(back.symbol_definitions, data.symbol_definitions);
}

#[test]
fn annotations_persist_through_tree_and_table() {
    let mut tree = FileTree::new();
    tree.upsert("a.md", Language::Markdown);
    let mut table = SymbolTable::new();
    table.insert(sym("a.md", "foo", 0, 4));
    tree.define("a.md", "the readme").unwrap();
    tree.mark("a.md", "reviewed").unwrap();
    table.define_symbol("a.md", "foo", "entry point").unwrap();

    let bytes = save_annotations(&collect_annotations(&tree, &table));

    // a freshly indexed copy of the same project, without annotations
    let mut tree2 = FileTree::new();
    tree2.upsert("a.md", Language::Markdown);
    let mut table2 = SymbolTable::new();
    table2.insert(sym("a.md", "foo", 0, 4));
    let loaded = load_annotations(&bytes).unwrap();
    apply_annotations(&mut tree2, &mut table2, &loaded);

    let e = tree2.get("a.md").unwrap();
    assert_eq!(e.definition, Some("the readme".to_string()));
    assert_eq!(e.mark, Some("reviewed".to_string()));
    assert_eq!(
        table2.get(&"a.md".to_string(), &"foo".to_string()).unwrap().definition,
        Some("entry point".to_string())
    );
}

#[test]
fn annotations_apply_keeps_last_record_per_name() {
    let mut tree = FileTree::new();
    tree.upsert("a.md", Language::Markdown);
    let mut table = SymbolTable::new();
    let data = AnnotationData {
        file_definitions: vec![
            ("a.md".to_string(), "first".to_string()),
            ("ghost.md".to_string(), "skipped".to_string()),
            ("a.md".to_string(), "second".to_string()),
        ],
        file_marks: Vec::new(),
        symbol_definitions: Vec::new(),
    };
    apply_annotations(&mut tree, &mut table, &data);
    assert_eq!(tree.get("a.md").unwrap().definition, Some("second".to_string()));
    assert!(tree.get("ghost.md").is_none());
}

#[test]
fn annotations_empty_and_malformed() {
    let empty = load_annotations(b"").unwrap();
    assert!(empty.file_definitions.is_empty());
    assert!(empty.file_marks.is_empty());
    assert!(empty.symbol_definitions.is_empty());
    assert!(load_annotations(b"garbage line").is_none());
}
