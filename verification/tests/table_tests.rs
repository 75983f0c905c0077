use coderlm::extract::record_extraction;
use coderlm::filetree::{FileTree, TreeError};
use coderlm::registry::{Project, ProjectRegistry};
use coderlm::symbol::{Language, Symbol, SymbolKind};
use coderlm::symtab::SymbolTable;

fn sym(file: &str, name: &str, start: usize, end: usize) -> Symbol {
    Symbol {
        name: name.to_string(),
        kind: SymbolKind::Function,
        file: file.to_string(),
        byte_range: (start, end),
        line_range: (1, 1),
        language: Language::Markdown,
        signature: String::new(),
        definition: None,
        parent: None,
    }
}

#[test]
fn insert_and_get() {
    let mut t = SymbolTable::new();
    t.insert(sym("a.md", "foo", 0, 10));
    assert_eq!(t.len(), 1);
    let got = t.get(&"a.md".to_string(), &"foo".to_string()).unwrap();
    assert_eq!(got.name, "foo");
    assert_eq!(got.byte_range, (0, 10));
    assert!(t.get(&"a.md".to_string(), &"bar".to_string()).is_none());
}

#[test]
fn insert_same_key_replaces() {
    let mut t = SymbolTable::new();
    t.insert(sym("a.md", "foo", 0, 10));
    t.insert(sym("a.md", "foo", 5, 25));
    assert_eq!(t.len(), 1);
    let got = t.get(&"a.md".to_string(), &"foo".to_string()).unwrap();
    assert_eq!(got.byte_range, (5, 25));
}

#[test]
fn make_key_format() {
    assert_eq!(SymbolTable::make_key("src/a.md", "foo"), "src/a.md::foo");
}

#[test]
fn remove_file_erases_symbols_indices_and_callers() {
    let mut t = SymbolTable::new();
    t.insert(sym("a.md", "foo", 0, 10));
    t.insert(sym("a.md", "bar", 10, 20));
    t.insert(sym("b.md", "foo", 0, 10));
    t.add_caller("foo", "a.md", 3, "foo()");
    t.add_caller("foo", "b.md", 4, "foo()");
    t.add_caller("bar", "a.md", 8, "bar()");

    t.remove_file("a.md");

    assert!(t.get(&"a.md".to_string(), &"foo".to_string()).is_none());
    assert!(t.get(&"a.md".to_string(), &"bar".to_string()).is_none());
    assert!(t.get(&"b.md".to_string(), &"foo".to_string()).is_some());
    assert_eq!(t.len(), 1);
    assert!(t.list_by_file("a.md").is_empty());
    // caller references from a.md are gone; the one from b.md survives
    let foo_callers = t.get_callers("foo").unwrap();
    assert_eq!(foo_callers.len(), 1);
    assert_eq!(foo_callers[0].file, "b.md");
    // bar's only caller came from a.md, so its entry is dropped entirely
    assert!(t.get_callers("bar").is_none());
}

#[test]
fn callers_preserve_insertion_order() {
    let mut t = SymbolTable::new();
    t.add_caller("f", "x.md", 1, "f(1)");
    t.add_caller("f", "y.md", 2, "f(2)");
    t.add_caller("f", "x.md", 9, "f(3)");
    let cs = t.get_callers("f").unwrap();
    assert_eq!(cs.len(), 3);
    assert_eq!(cs[0].text, "f(1)");
    assert_eq!(cs[1].text, "f(2)");
    assert_eq!(cs[2].text, "f(3)");
    assert_eq!(cs[2].line, 9);
    // absence is distinct from empty
    assert!(t.get_callers("g").is_none());
}

#[test]
fn search_is_case_insensitive_substring() {
    let mut t = SymbolTable::new();
    t.insert(sym("a.md", "HandleRequest", 0, 1));
    t.insert(sym("a.md", "parse_header", 1, 2));
    t.insert(sym("b.md", "Requeue", 2, 3));
    let r = t.search("REQUE", 10);
    let names: Vec<&str> = r.iter().map(|s| s.name.as_str()).collect();
    assert!(names.contains(&"HandleRequest"));
    assert!(names.contains(&"Requeue"));
    assert_eq!(r.len(), 2);
    let capped = t.search("e", 1);
    assert_eq!(capped.len(), 1);
    let none = t.search("e", 0);
    assert!(none.is_empty());
}

#[test]
fn search_folds_unicode_case() {
    let mut t = SymbolTable::new();
    t.insert(sym("a.md", "ÜberWidget", 0, 1));
    let r = t.search("über", 10);
    assert_eq!(r.len(), 1);
    assert_eq!(r[0].name, "ÜberWidget");
}

#[test]
fn list_symbols_filters_by_kind_and_file() {
    let mut t = SymbolTable::new();
    t.insert(sym("a.md", "foo", 0, 1));
    t.insert(Symbol { kind: SymbolKind::Module, ..sym("a.md", "Intro", 1, 2) });
    t.insert(sym("b.md", "bar", 0, 1));
    let mods = t.list_symbols(Some(SymbolKind::Module), None, 10);
    assert_eq!(mods.len(), 1);
    assert_eq!(mods[0].name, "Intro");
    let in_a = t.list_symbols(None, Some(&"a.md".to_string()), 10);
    assert_eq!(in_a.len(), 2);
    let capped = t.list_symbols(None, None, 2);
    assert_eq!(capped.len(), 2);
}

#[test]
fn list_by_file_returns_each_symbol_once() {
    let mut t = SymbolTable::new();
    t.insert(sym("a.md", "foo", 0, 10));
    t.insert(sym("a.md", "bar", 10, 20));
    t.insert(sym("b.md", "baz", 0, 5));
    let mut names: Vec<String> = t.list_by_file("a.md").iter().map(|s| s.name.clone()).collect();
    names.sort();
    assert_eq!(names, vec!["bar".to_string(), "foo".to_string()]);
}

#[test]
fn symbol_annotations() {
    let mut t = SymbolTable::new();
    t.insert(sym("a.md", "foo", 0, 10));
    assert!(t.define_symbol("a.md", "foo", "the entry point").is_ok());
    // define refuses to overwrite
    assert!(t.define_symbol("a.md", "foo", "other").is_err());
    assert_eq!(
        t.get(&"a.md".to_string(), &"foo".to_string()).unwrap().definition,
        Some("the entry point".to_string())
    );
    assert!(t.redefine_symbol("a.md", "foo", "replacement").is_ok());
    assert_eq!(
        t.get(&"a.md".to_string(), &"foo".to_string()).unwrap().definition,
        Some("replacement".to_string())
    );
    assert!(t.define_symbol("ghost.md", "nope", "x").is_err());
}

#[test]
fn file_tree_upsert_get_remove() {
    let mut ft = FileTree::new();
    ft.upsert("src/a.md", Language::Markdown);
    ft.upsert("doc.pdf", Language::Pdf);
    assert_eq!(ft.len(), 2);
    let e = ft.get("src/a.md").unwrap();
    assert_eq!(e.language, Language::Markdown);
    assert!(!e.symbols_extracted);
    assert!(ft.remove("doc.pdf"));
    assert!(!ft.remove("doc.pdf"));
    assert!(ft.get("doc.pdf").is_none());
}

#[test]
fn file_tree_define_mark_rules() {
    let mut ft = FileTree::new();
    ft.upsert("a.md", Language::Markdown);
    assert_eq!(ft.define("missing.md", "d"), Err(TreeError::NotFound));
    assert_eq!(ft.define("a.md", "first"), Ok(()));
    assert_eq!(ft.define("a.md", "second"), Err(TreeError::AlreadyDefined));
    assert_eq!(ft.get("a.md").unwrap().definition, Some("first".to_string()));
    assert_eq!(ft.redefine("a.md", "second"), Ok(()));
    assert_eq!(ft.get("a.md").unwrap().definition, Some("second".to_string()));
    assert_eq!(ft.mark("a.md", "reviewed"), Ok(()));
    assert_eq!(ft.get("a.md").unwrap().mark, Some("reviewed".to_string()));
}

#[test]
fn extraction_flag_set_exactly_by_recording() {
    let mut t = SymbolTable::new();
    let mut ft = FileTree::new();
    ft.upsert("a.md", Language::Markdown);
    assert!(!ft.get("a.md").unwrap().symbols_extracted);
    // recording with zero symbols still marks the file extracted
    record_extraction(&mut t, &mut ft, "a.md", Vec::new());
    assert!(ft.get("a.md").unwrap().symbols_extracted);
    assert_eq!(t.len(), 0);
}

#[test]
fn reextraction_keeps_key_set() {
    let mut t = SymbolTable::new();
    let mut ft = FileTree::new();
    ft.upsert("a.md", Language::Markdown);
    let syms = vec![sym("a.md", "foo", 0, 10), sym("a.md", "bar", 10, 20)];
    record_extraction(&mut t, &mut ft, "a.md", syms.clone());
    assert_eq!(t.len(), 2);
    record_extraction(&mut t, &mut ft, "a.md", syms);
    assert_eq!(t.len(), 2);
    assert!(t.get(&"a.md".to_string(), &"foo".to_string()).is_some());
    assert!(t.get(&"a.md".to_string(), &"bar".to_string()).is_some());
}

#[test]
fn unknown_symbol_leaves_registry_untouched() {
    let mut reg = ProjectRegistry::new(4);
    let mut table = SymbolTable::new();
    table.insert(sym("a.md", "foo", 0, 10));
    reg.insert_project(
        Project { root: "/proj".to_string(), tree: FileTree::new(), table, last_active: 1 },
        &Vec::new(),
    )
    .unwrap();
    assert_eq!(reg.len(), 1);
    let i = reg.find("/proj").unwrap();
    // asking for a symbol of an unindexed file is a plain NotFound
    assert!(reg.projects[i].table.get(&"ghost.x".to_string(), &"bar".to_string()).is_none());
    assert_eq!(reg.len(), 1);
}

#[test]
fn registry_evicts_least_recently_active_unreferenced_project() {
    let mut reg = ProjectRegistry::new(2);
    for (root, at) in [("/p1", 10), ("/p2", 20)] {
        reg.insert_project(
            Project {
                root: root.to_string(),
                tree: FileTree::new(),
                table: SymbolTable::new(),
                last_active: at,
            },
            &Vec::new(),
        )
        .unwrap();
    }
    // all projects referenced by live sessions: the insertion is refused
    let live_all = vec!["/p1".to_string(), "/p2".to_string()];
    let p3 = || Project {
        root: "/p3".to_string(),
        tree: FileTree::new(),
        table: SymbolTable::new(),
        last_active: 30,
    };
    assert!(reg.insert_project(p3(), &live_all).is_err());
    assert_eq!(reg.len(), 2);
    // only /p2 is referenced: /p1 (older) is evicted
    let live_p2 = vec!["/p2".to_string()];
    assert!(reg.insert_project(p3(), &live_p2).is_ok());
    assert!(reg.find("/p1").is_none());
    assert!(reg.find("/p2").is_some());
    assert!(reg.find("/p3").is_some());
}

#[test]
fn touch_project_updates_activity() {
    let mut reg = ProjectRegistry::new(2);
    reg.insert_project(
        Project {
            root: "/p".to_string(),
            tree: FileTree::new(),
            table: SymbolTable::new(),
            last_active: 1,
        },
        &Vec::new(),
    )
    .unwrap();
    assert!(reg.touch("/p", 99));
    let i = reg.find("/p").unwrap();
    assert_eq!(reg.projects[i].last_active, 99);
    assert!(!reg.touch("/ghost", 1));
}
