use coderlm::history::{compact_history, recent_history, HistoryEntry};
use coderlm::pdfcache::{cache_is_fresh, cache_path};
use coderlm::sessions::{Session, SessionRegistry};
use coderlm::symbol::SymbolKind;
use coderlm::text::dec_string;

fn entry(method: &str, path: &str, preview: &str) -> HistoryEntry {
    HistoryEntry {
        timestamp: 7,
        method: method.to_string(),
        path: path.to_string(),
        response_preview: preview.to_string(),
    }
}

#[test]
fn compact_groups_consecutive_same_path() {
    // history [GET /p/a, GET /p/a, GET /p/a, POST /q], keep_recent = 1
    let mut h = vec![
        entry("GET", "/p/a", "one"),
        entry("GET", "/p/a", "two"),
        entry("GET", "/p/a", "three"),
        entry("POST", "/q", "four"),
    ];
    let r = compact_history(&mut h, 1);
    assert_eq!(r.original_count, 4);
    assert_eq!(r.compacted_count, 2);
    assert_eq!(r.removed, 2);
    assert_eq!(h.len(), 2);
    assert_eq!(h[0].response_preview, "[3 calls compacted]");
    assert_eq!(h[0].method, "GET");
    assert_eq!(h[0].path, "/p/a");
    assert_eq!(h[1].response_preview, "four");
}

#[test]
fn compact_keeps_singleton_groups_unchanged() {
    let mut h = vec![
        entry("GET", "/a", "pa"),
        entry("GET", "/b", "pb"),
        entry("GET", "/c", "pc"),
    ];
    let r = compact_history(&mut h, 0);
    assert_eq!(r.original_count, 3);
    assert_eq!(r.compacted_count, 3);
    assert_eq!(r.removed, 0);
    assert_eq!(h[0].response_preview, "pa");
    assert_eq!(h[2].response_preview, "pc");
}

#[test]
fn compact_short_history_is_identity() {
    let mut h = vec![entry("GET", "/a", "pa")];
    let r = compact_history(&mut h, 5);
    assert_eq!(r.original_count, 1);
    assert_eq!(r.compacted_count, 1);
    assert_eq!(r.removed, 0);
    assert_eq!(h.len(), 1);
}

#[test]
fn compact_count_equation_holds() {
    let mut h = vec![
        entry("GET", "/a", "1"),
        entry("GET", "/a", "2"),
        entry("POST", "/b", "3"),
        entry("POST", "/b", "4"),
        entry("GET", "/a", "5"),
    ];
    let r = compact_history(&mut h, 0);
    assert_eq!(r.removed, r.original_count - r.compacted_count);
    assert_eq!(h.len(), r.compacted_count);
    assert_eq!(h.len(), 3);
    assert_eq!(h[0].response_preview, "[2 calls compacted]");
    assert_eq!(h[1].response_preview, "[2 calls compacted]");
    assert_eq!(h[2].response_preview, "5");
}

#[test]
fn recent_history_returns_tail() {
    let h = vec![entry("GET", "/a", "1"), entry("GET", "/b", "2"), entry("GET", "/c", "3")];
    let r = recent_history(&h, 2);
    assert_eq!(r.len(), 2);
    assert_eq!(r[0].response_preview, "2");
    assert_eq!(r[1].response_preview, "3");
    let all = recent_history(&h, 10);
    assert_eq!(all.len(), 3);
}

#[test]
fn record_grows_history_by_one() {
    let mut s = Session::new("id-1".to_string(), "/tmp/proj".to_string(), 5);
    assert_eq!(s.history.len(), 0);
    s.record("GET", "/health", "ok", 6);
    assert_eq!(s.history.len(), 1);
    s.record("GET", "/symbols", "2 symbols", 7);
    assert_eq!(s.history.len(), 2);
    assert_eq!(s.last_active, 7);
    assert_eq!(s.history[0].method, "GET");
    assert_eq!(s.history[0].path, "/health");
    assert_eq!(s.history[0].response_preview, "ok");
}

#[test]
fn record_truncates_long_previews_to_200_bytes() {
    let mut s = Session::new("id-2".to_string(), "/tmp/proj".to_string(), 5);
    let long = "x".repeat(450);
    s.record("GET", "/peek", &long, 6);
    assert_eq!(s.history[0].response_preview.len(), 200);
}

#[test]
fn record_truncation_never_splits_characters() {
    let mut s = Session::new("id-3".to_string(), "/tmp/proj".to_string(), 5);
    // multi-byte characters around the 200-byte cut
    let long = "é".repeat(150);
    s.record("GET", "/peek", &long, 6);
    let p = &s.history[0].response_preview;
    assert!(p.len() <= 200);
    assert!(p.chars().all(|c| c == 'é'));
    assert_eq!(p.len(), 200);
}

#[test]
fn session_registry_lifecycle() {
    let mut reg = SessionRegistry::new();
    reg.add(Session::new("a".to_string(), "/p1".to_string(), 1));
    reg.add(Session::new("b".to_string(), "/p2".to_string(), 2));
    assert!(reg.find("a").is_some());
    assert!(reg.find("missing").is_none());
    assert!(reg.record_for("a", "GET", "/x", "p", 9));
    assert!(!reg.record_for("zzz", "GET", "/x", "p", 9));
    assert!(reg.touch("b", 50));
    let metas = reg.list_metas();
    assert_eq!(metas.len(), 2);
    // most recently active first
    assert_eq!(metas[0].session_id, "b");
    assert!(reg.remove("a"));
    assert!(!reg.remove("a"));
    assert_eq!(reg.sessions.len(), 1);
}

#[test]
fn registry_compacts_session_history() {
    let mut reg = SessionRegistry::new();
    reg.add(Session::new("s".to_string(), "/p".to_string(), 1));
    for _ in 0..3 {
        reg.record_for("s", "GET", "/p/a", "r", 2);
    }
    reg.record_for("s", "POST", "/q", "r", 3);
    let c = reg.compact_history("s", 1).unwrap();
    assert_eq!(c.original_count, 4);
    assert_eq!(c.compacted_count, 2);
    assert_eq!(c.removed, 2);
    assert!(reg.compact_history("nope", 1).is_err());
}

#[test]
fn pdf_cache_path_layout() {
    assert_eq!(
        cache_path("/home/u/proj", "docs/paper.pdf"),
        "/home/u/proj/.coderlm/converted/docs/paper.pdf.md"
    );
}

#[test]
fn pdf_cache_freshness_rule() {
    // reused iff cache mtime >= source mtime
    assert!(cache_is_fresh(10, 10));
    assert!(cache_is_fresh(11, 10));
    assert!(!cache_is_fresh(9, 10));
}

#[test]
fn decimal_rendering() {
    assert_eq!(dec_string(0), "0");
    assert_eq!(dec_string(7), "7");
    assert_eq!(dec_string(42), "42");
    assert_eq!(dec_string(90017), "90017");
}

#[test]
fn symbol_kind_labels_round_trip() {
    let kinds = [
        SymbolKind::Function,
        SymbolKind::Method,
        SymbolKind::Struct,
        SymbolKind::Enum,
        SymbolKind::Trait,
        SymbolKind::Class,
        SymbolKind::Interface,
        SymbolKind::Type,
        SymbolKind::Constant,
        SymbolKind::Module,
    ];
    for k in kinds {
        assert_eq!(SymbolKind::from_str(k.as_str()), Some(k));
    }
    assert_eq!(SymbolKind::as_str(&SymbolKind::Function), "function");
    assert_eq!(SymbolKind::from_str("widget"), None);
}
