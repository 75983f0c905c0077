use coderlm::extract::{
    call_sites_from_matches, extract_symbols_from_source, record_extraction, symbols_from_matches,
    variable_names, RawCapture,
};
use coderlm::filetree::FileTree;
use coderlm::symbol::{Language, SymbolKind};
use coderlm::symtab::SymbolTable;
use coderlm::text::split_lines;
use coderlm::trusted::{to_lower, trim};

fn cap(name: &str, text: &str, sb: usize, eb: usize, sr: usize, er: usize) -> RawCapture {
    RawCapture {
        name: name.to_string(),
        text: text.to_string(),
        start_byte: sb,
        end_byte: eb,
        start_row: sr,
        end_row: er,
    }
}

#[test]
fn markdown_headings_become_module_symbols() {
    // the only indexed file of the project holds one heading: extraction
    // yields a symbol for it with a 1-indexed starting line
    let source = "# Overview\n\nSome text.\n\n## Usage\n\nMore text.\n";
    let syms = extract_symbols_from_source(source, "README.md", Language::Markdown);
    assert!(!syms.is_empty());
    assert_eq!(syms[0].name, "Overview");
    assert_eq!(syms[0].kind, SymbolKind::Module);
    assert_eq!(syms[0].file, "README.md");
    assert_eq!(syms[0].line_range.0, 1);
    assert!(syms.iter().any(|s| s.name == "Usage"));
}

#[test]
fn unsupported_language_extracts_nothing() {
    let syms = extract_symbols_from_source("def foo := 1\n", "a.lean", Language::Lean);
    assert!(syms.is_empty());
    let none = extract_symbols_from_source("plain text", "notes.txt", Language::Text);
    assert!(none.is_empty());
}

#[test]
fn rerunning_extraction_keeps_key_set() {
    let source = "# One\n\n## Two\n";
    let mut table = SymbolTable::new();
    let mut tree = FileTree::new();
    tree.upsert("n.md", Language::Markdown);
    let s1 = extract_symbols_from_source(source, "n.md", Language::Markdown);
    record_extraction(&mut table, &mut tree, "n.md", s1);
    let first_len = table.len();
    assert!(first_len >= 1);
    let s2 = extract_symbols_from_source(source, "n.md", Language::Markdown);
    record_extraction(&mut table, &mut tree, "n.md", s2);
    assert_eq!(table.len(), first_len);
    assert!(tree.get("n.md").unwrap().symbols_extracted);
}

#[test]
fn capture_runs_assemble_symbols() {
    // a match with name, def and an impl.type seen earlier: the method
    // inherits the running parent type
    let matches = vec![
        vec![cap("impl.type", "Widget", 0, 6, 0, 0)],
        vec![
            cap("method.name", "draw", 10, 14, 2, 2),
            cap("method.def", "fn draw() {\n  body\n}", 10, 30, 2, 4),
        ],
        vec![
            cap("function.name", "main", 40, 44, 6, 6),
            cap("function.def", "fn main() {}", 40, 52, 6, 6),
        ],
        // incomplete match: no definition node captured, nothing is emitted
        vec![cap("struct.name", "Lost", 60, 64, 8, 8)],
    ];
    let syms = symbols_from_matches(&matches, "w.md", Language::Markdown);
    assert_eq!(syms.len(), 2);
    assert_eq!(syms[0].name, "draw");
    assert_eq!(syms[0].kind, SymbolKind::Method);
    assert_eq!(syms[0].parent, Some("Widget".to_string()));
    assert_eq!(syms[0].signature, "fn draw() {");
    assert_eq!(syms[0].byte_range, (10, 30));
    assert_eq!(syms[0].line_range, (3, 5));
    assert_eq!(syms[1].name, "main");
    assert_eq!(syms[1].kind, SymbolKind::Function);
    assert_eq!(syms[1].parent, None);
    assert_eq!(syms[1].signature, "fn main() {}");
}

#[test]
fn call_sites_carry_trimmed_line_text() {
    // a call of foo on line 3 yields {line: 3, text: "foo()"}
    let source = b"fn caller() {\n    let x = 1;\n    foo()\n}\n";
    let lines = split_lines(source);
    let matches = vec![vec![cap("callee", "foo", 0, 0, 2, 2)]];
    let sites = call_sites_from_matches(&matches, &lines);
    assert_eq!(sites.len(), 1);
    assert_eq!(sites[0].callee, "foo");
    assert_eq!(sites[0].line, 3);
    assert_eq!(sites[0].text, "foo()");
}

#[test]
fn call_sites_skip_empty_callee_text() {
    let lines = split_lines(b"a\nb\n");
    let matches = vec![vec![cap("callee", "", 0, 0, 0, 0), cap("callee", "g", 0, 0, 1, 1)]];
    let sites = call_sites_from_matches(&matches, &lines);
    assert_eq!(sites.len(), 1);
    assert_eq!(sites[0].callee, "g");
}

#[test]
fn call_graph_lookup_after_extraction() {
    // record sites into the table and query the reverse call graph
    let source = b"x\n\nfoo()\n";
    let lines = split_lines(source);
    let matches = vec![vec![cap("callee", "foo", 0, 0, 2, 2)]];
    let sites = call_sites_from_matches(&matches, &lines);
    let mut table = SymbolTable::new();
    for s in &sites {
        table.add_caller(&s.callee, "caller.x", s.line, &s.text);
    }
    let callers = table.get_callers("foo").unwrap();
    assert_eq!(callers.len(), 1);
    assert_eq!(callers[0].file, "caller.x");
    assert_eq!(callers[0].line, 3);
    assert_eq!(callers[0].text, "foo()");
}

#[test]
fn variable_captures_filtered_by_range() {
    let matches = vec![vec![
        cap("var.name", "inside", 15, 20, 1, 1),
        cap("var.name", "outside", 80, 85, 7, 7),
        cap("other", "skip", 16, 17, 1, 1),
    ]];
    let vars = variable_names(&matches, 10, 50);
    assert_eq!(vars, vec!["inside".to_string()]);
}

#[test]
fn lowercase_wrapper_folds_case() {
    assert_eq!(to_lower("MiXeD"), "mixed");
    assert_eq!(to_lower(""), "");
}

#[test]
fn trim_wrapper_strips_whitespace() {
    assert_eq!(trim("  padded \t"), "padded");
    assert_eq!(trim(""), "");
}
