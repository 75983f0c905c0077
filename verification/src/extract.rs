//! Symbol extraction: the tree-sitter query pipeline sits behind trusted
//! wrappers that return plain capture records; turning those captures into
//! symbol records, call sites and variable names is verified here.
//!
//! A capture is recognized by its conventional name: `<kind>.name` yields
//! the identifier, `<kind>.def` the enclosing node, and the pseudo-capture
//! `impl.type` sets the running parent type picked up by later method
//! captures. A symbol is emitted only when name, kind and definition node
//! were all captured within one match.

use tree_sitter::StreamingIterator;
use vstd::prelude::*;
use vstd::utf8::{decode_utf8, encode_utf8, valid_utf8};
use crate::filetree::{ft_has, FileTree};
use crate::symbol::{str_eq, Language, Symbol, SymbolKind, SymbolV};
use crate::symtab::{prim_has, skey, sviews, SymbolTable, SymKeyV};
use crate::text::{strip_cr, NL, CR};

verus! {

use vstd::string::StringExecFns;
use vstd::string::StringSliceAdditionalSpecFns;

broadcast use vstd::utf8::group_utf8_lib;

/// The symbols query for the markdown grammar: each section's heading
/// names a module-like symbol.
pub const MD_SYMBOLS_QUERY: &'static str = "(section (atx_heading heading_content: (inline) @mod.name) @mod.def)\n(section (setext_heading heading_content: (paragraph) @mod.name) @mod.def)\n";

/// One query capture, reduced to plain values: the capture's name, the
/// captured node's text, and its byte and row ranges.
pub struct RawCapture {
    pub name: String,
    pub text: String,
    pub start_byte: usize,
    pub end_byte: usize,
    pub start_row: usize,
    pub end_row: usize,
}

pub struct RawCaptureV {
    pub name: Seq<char>,
    pub text: Seq<char>,
    pub start_byte: int,
    pub end_byte: int,
    pub start_row: int,
    pub end_row: int,
}

impl View for RawCapture {
    type V = RawCaptureV;

    open spec fn view(&self) -> RawCaptureV {
        RawCaptureV {
            name: self.name@,
            text: self.text@,
            start_byte: self.start_byte as int,
            end_byte: self.end_byte as int,
            start_row: self.start_row as int,
            end_row: self.end_row as int,
        }
    }
}

impl DeepView for RawCapture {
    type V = RawCaptureV;

    open spec fn deep_view(&self) -> RawCaptureV {
        self@
    }
}

impl Clone for RawCapture {
    fn clone(&self) -> (r: Self)
        ensures
            r@ == self@,
    {
        RawCapture {
            name: self.name.clone(),
            text: self.text.clone(),
            start_byte: self.start_byte,
            end_byte: self.end_byte,
            start_row: self.start_row,
            end_row: self.end_row,
        }
    }
}

#[verifier::external_type_specification]
#[verifier::external_body]
pub struct ExQueryCapture<'a>(tree_sitter::QueryCapture<'a>);

#[verifier::external_type_specification]
#[verifier::external_body]
pub struct ExTsTree(tree_sitter::Tree);

#[verifier::external_type_specification]
#[verifier::external_body]
pub struct ExTsQuery(tree_sitter::Query);

/// Relies on tree_sitter::QueryCapture and tree_sitter::Node accessors:
/// copies one capture's name, node text and node ranges into plain values.
/// `md_raw_matches` is specified as a whole; nothing is assumed of this
/// converter itself.
#[verifier::external_body]
fn cap_record<'t>(names: &Vec<String>, c: &tree_sitter::QueryCapture<'t>, src: &[u8]) -> (r:
    RawCapture)
{
    RawCapture {
        name: names[c.index as usize].clone(),
        text: c.node.utf8_text(src).unwrap_or("").to_string(),
        start_byte: c.node.start_byte(),
        end_byte: c.node.end_byte(),
        start_row: c.node.start_position().row,
        end_row: c.node.end_position().row,
    }
}

/// Relies on tree_sitter::Parser with the grammar of tree_sitter_md:
/// parses the source into a syntax tree, or nothing on failure.
#[verifier::external_body]
fn md_parse(source: &str) -> (r: Option<tree_sitter::Tree>) {
    let mut parser = tree_sitter::Parser::new();
    if parser.set_language(&tree_sitter_md::LANGUAGE.into()).is_err() {
        return None;
    }
    parser.parse(source, None)
}

/// Relies on tree_sitter::Query::new with the grammar of tree_sitter_md:
/// compiles a query, or nothing when the query text is rejected.
#[verifier::external_body]
fn md_query(query_src: &str) -> (r: Option<tree_sitter::Query>) {
    tree_sitter::Query::new(&tree_sitter_md::LANGUAGE.into(), query_src).ok()
}

/// Relies on tree_sitter::QueryCursor::matches: drains the streaming
/// match iterator, converting each match's captures to plain records.
/// `md_raw_matches` is specified as a whole.
#[verifier::external_body]
fn ts_collect(query: &tree_sitter::Query, tree: &tree_sitter::Tree, source: &str) -> (r: Vec<
    Vec<RawCapture>,
>) {
    let names: Vec<String> = query.capture_names().iter().map(|s| s.to_string()).collect();
    let mut cursor = tree_sitter::QueryCursor::new();
    let mut ms = cursor.matches(query, tree.root_node(), source.as_bytes());
    let mut out = Vec::new();
    while let Some(m) = ms.next() {
        out.push(m.captures().iter().map(|c| cap_record(&names, c, source.as_bytes())).collect());
    }
    out
}

/// What running `query` of the markdown grammar over `source` captures:
/// the result depends on the two texts alone. Parse or query failures
/// yield the empty sequence.
pub uninterp spec fn md_captures_of(query: Seq<char>, source: Seq<char>) -> Seq<
    Seq<RawCaptureV>,
>;

/// Every capture's byte range lies inside a source of `src_len` bytes
/// and is ordered, and its row range is ordered.
pub open spec fn caps_sane(ms: Seq<Seq<RawCaptureV>>, src_len: int) -> bool {
    forall|m: int, c: int|
        0 <= m < ms.len() && 0 <= c < ms[m].len() ==> {
            let cap = #[trigger] ms[m][c];
            &&& 0 <= cap.start_byte <= cap.end_byte <= src_len
            &&& 0 <= cap.start_row <= cap.end_row
        }
}

/// Relies on tree_sitter (through `md_parse`, `md_query` and
/// `ts_collect`): parses `source` with the markdown grammar, runs
/// `query_src`, and returns every match's captures in order. The result
/// is a function of the query and source texts alone; failures degrade to
/// no matches. Node ranges are positions into the parsed source, so every
/// capture's byte range lies inside it and byte and row ranges are
/// ordered.
#[verifier::external_body]
fn md_raw_matches(query_src: &str, source: &str) -> (r: Vec<Vec<RawCapture>>)
    ensures
        r.deep_view() == md_captures_of(query_src@, source@),
        caps_sane(r.deep_view(), encode_utf8(source@).len() as int),
{
    let tree = match md_parse(source) {
        Some(t) => t,
        None => return Vec::new(),
    };
    let query = match md_query(query_src) {
        Some(q) => q,
        None => return Vec::new(),
    };
    ts_collect(&query, &tree, source)
}

/// Index just before the first newline byte of `b`, or the length when
/// there is none.
pub open spec fn first_line_end(b: Seq<u8>) -> int
    decreases b.len(),
{
    if b.len() == 0 {
        0
    } else if b.first() == NL {
        0
    } else {
        1 + first_line_end(b.drop_first())
    }
}

pub proof fn lemma_first_line_end(b: Seq<u8>)
    ensures
        0 <= first_line_end(b) <= b.len(),
        first_line_end(b) < b.len() ==> b[first_line_end(b)] == NL,
        forall|t: int| 0 <= t < first_line_end(b) ==> b[t] != NL,
    decreases b.len(),
{
    if b.len() > 0 && b.first() != NL {
        lemma_first_line_end(b.drop_first());
        assert forall|t: int| 0 <= t < first_line_end(b) implies b[t] != NL by {
            if t > 0 {
                assert(b.drop_first()[t - 1] != NL);
            }
        }
    }
}

/// The first line of a byte text, as `str::lines().next()` yields it: up
/// to the first newline, with a carriage return before that newline
/// stripped; without a newline the whole text.
pub open spec fn sig_bytes(b: Seq<u8>) -> Seq<u8> {
    if first_line_end(b) < b.len() {
        strip_cr(b.take(first_line_end(b)))
    } else {
        b
    }
}

/// The first line of a definition's text; UTF-8 cuts at a newline are
/// character boundaries, so the result decodes exactly.
pub open spec fn sig_chars(t: Seq<char>) -> Seq<char> {
    decode_utf8(sig_bytes(encode_utf8(t)))
}

/// First line of `s`, with a carriage return before the newline stripped.
pub fn first_line(s: &str) -> (r: String)
    ensures
        r@ == sig_chars(s@),
{
    let b = s.as_bytes();
    let ghost bs = s.spec_bytes();
    proof {
        lemma_first_line_end(bs);
    }
    let n = b.len();
    let mut i: usize = 0;
    while i < n && b[i] != NL
        invariant
            i <= n == bs.len(),
            b@ == bs,
            forall|t: int| 0 <= t < i ==> bs[t] != NL,
        decreases n - i,
    {
        i = i + 1;
    }
    proof {
        assert(i == first_line_end(bs)) by {
            let fe = first_line_end(bs);
            if fe < i {
                assert(bs[fe] != NL);
                assert(bs[fe] == NL);
            }
            if i < fe {
                assert(bs[i as int] != NL);
            }
        }
    }
    if i >= n {
        proof {
            assert(sig_bytes(bs) == bs);
            assert(decode_utf8(encode_utf8(s@)) == s@);
        }
        return s.to_owned();
    }
    proof {
        vstd::utf8::is_char_boundary_iff_not_is_continuation_byte(bs, i as int);
        assert(!vstd::utf8::is_continuation_byte(bs[i as int]));
    }
    let (head, _) = s.split_at(i);
    let ghost hb = head.spec_bytes();
    proof {
        assert(hb =~= bs.take(i as int));
    }
    if head.len() > 0 {
        let hbs = head.as_bytes();
        if hbs[head.len() - 1] == CR {
            proof {
                vstd::utf8::is_char_boundary_iff_not_is_continuation_byte(hb, hb.len() - 1);
                assert(!vstd::utf8::is_continuation_byte(hb[hb.len() - 1]));
            }
            let (head2, _) = head.split_at(head.len() - 1);
            proof {
                assert(head2.spec_bytes() =~= strip_cr(bs.take(i as int)));
                assert(sig_bytes(bs) == head2.spec_bytes());
                assert(decode_utf8(encode_utf8(head2@)) == head2@);
            }
            return head2.to_owned();
        }
    }
    proof {
        assert(sig_bytes(bs) =~= hb);
        assert(decode_utf8(encode_utf8(head@)) == head@);
    }
    head.to_owned()
}

/// The partially assembled symbol of one query match.
pub struct PartialSymV {
    pub name: Option<Seq<char>>,
    pub kind: Option<SymbolKind>,
    pub def: Option<RawCaptureV>,
    pub parent: Option<Seq<char>>,
}

pub open spec fn empty_partial() -> PartialSymV {
    PartialSymV { name: None, kind: None, def: None, parent: None }
}

/// The capture names that set a symbol's identifier, and the kind each
/// one implies.
pub open spec fn name_cap_kind(n: Seq<char>) -> Option<SymbolKind> {
    if n == "function.name"@ {
        Some(SymbolKind::Function)
    } else if n == "method.name"@ {
        Some(SymbolKind::Method)
    } else if n == "struct.name"@ {
        Some(SymbolKind::Struct)
    } else if n == "enum.name"@ {
        Some(SymbolKind::Enum)
    } else if n == "trait.name"@ {
        Some(SymbolKind::Trait)
    } else if n == "class.name"@ {
        Some(SymbolKind::Class)
    } else if n == "interface.name"@ {
        Some(SymbolKind::Interface)
    } else if n == "type.name"@ {
        Some(SymbolKind::Type)
    } else if n == "const.name"@ {
        Some(SymbolKind::Constant)
    } else if n == "static.name"@ {
        Some(SymbolKind::Constant)
    } else if n == "mod.name"@ {
        Some(SymbolKind::Module)
    } else {
        None
    }
}

/// Whether a capture name marks a definition node.
pub open spec fn is_def_cap(n: Seq<char>) -> bool {
    ||| n == "function.def"@
    ||| n == "method.def"@
    ||| n == "struct.def"@
    ||| n == "enum.def"@
    ||| n == "trait.def"@
    ||| n == "class.def"@
    ||| n == "interface.def"@
    ||| n == "type.def"@
    ||| n == "const.def"@
    ||| n == "static.def"@
    ||| n == "mod.def"@
}

/// Process one capture: identifiers set name and kind (methods also take
/// the running parent type), definition captures set the node, and
/// `impl.type` updates the running parent type.
pub open spec fn step_cap(ps: PartialSymV, cur: Option<Seq<char>>, c: RawCaptureV) -> (
    PartialSymV,
    Option<Seq<char>>,
) {
    if c.name == "impl.type"@ {
        (ps, Some(c.text))
    } else if c.name == "method.name"@ {
        (
            PartialSymV {
                name: Some(c.text),
                kind: Some(SymbolKind::Method),
                parent: cur,
                ..ps
            },
            cur,
        )
    } else {
        match name_cap_kind(c.name) {
            Some(k) => (PartialSymV { name: Some(c.text), kind: Some(k), ..ps }, cur),
            None => {
                if is_def_cap(c.name) {
                    (PartialSymV { def: Some(c), ..ps }, cur)
                } else {
                    (ps, cur)
                }
            },
        }
    }
}

pub open spec fn scan_caps(caps: Seq<RawCaptureV>, ps: PartialSymV, cur: Option<Seq<char>>) -> (
    PartialSymV,
    Option<Seq<char>>,
)
    decreases caps.len(),
{
    if caps.len() == 0 {
        (ps, cur)
    } else {
        let r = step_cap(ps, cur, caps.first());
        scan_caps(caps.drop_first(), r.0, r.1)
    }
}

/// A 1-indexed line number from a 0-indexed row, saturating at the
/// integer limit.
pub open spec fn line_of_row(r: int) -> int {
    if r + 1 <= usize::MAX {
        r + 1
    } else {
        r
    }
}

/// The symbol a finished match yields, when its name, kind and definition
/// node were all captured.
pub open spec fn emit_sym(ps: PartialSymV, rel: Seq<char>, lang: Language) -> Option<SymbolV> {
    match (ps.name, ps.kind, ps.def) {
        (Some(n), Some(k), Some(d)) => Some(
            SymbolV {
                name: n,
                kind: k,
                file: rel,
                byte_start: d.start_byte,
                byte_end: d.end_byte,
                line_start: line_of_row(d.start_row),
                line_end: line_of_row(d.end_row),
                language: lang,
                signature: sig_chars(d.text),
                definition: None,
                parent: ps.parent,
            },
        ),
        _ => None,
    }
}

/// The symbols of a capture run, threading the running parent type
/// through the matches in order.
pub open spec fn extract_rec(
    ms: Seq<Seq<RawCaptureV>>,
    cur: Option<Seq<char>>,
    rel: Seq<char>,
    lang: Language,
) -> Seq<SymbolV>
    decreases ms.len(),
{
    if ms.len() == 0 {
        Seq::empty()
    } else {
        let r = scan_caps(ms.first(), empty_partial(), cur);
        let rest = extract_rec(ms.drop_first(), r.1, rel, lang);
        match emit_sym(r.0, rel, lang) {
            Some(s) => seq![s] + rest,
            None => rest,
        }
    }
}

pub open spec fn extract_spec(
    ms: Seq<Seq<RawCaptureV>>,
    rel: Seq<char>,
    lang: Language,
) -> Seq<SymbolV> {
    extract_rec(ms, None, rel, lang)
}

/// A symbol's ranges are sane for a source of `src_len` bytes: the byte
/// range is ordered and inside the source, and the 1-indexed line range
/// is ordered and starts at one or later.
pub open spec fn sym_sane(s: SymbolV, src_len: int) -> bool {
    &&& 0 <= s.byte_start <= s.byte_end <= src_len
    &&& 1 <= s.line_start <= s.line_end
}

/// The definition node a capture scan ends with is the one it started
/// with or one of the scanned captures.
proof fn lemma_scan_def_from(caps: Seq<RawCaptureV>, ps: PartialSymV, cur: Option<Seq<char>>)
    ensures
        ({
            let r = scan_caps(caps, ps, cur);
            r.0.def == ps.def || exists|c: int|
                0 <= c < caps.len() && r.0.def == Some(#[trigger] caps[c])
        }),
    decreases caps.len(),
{
    if caps.len() > 0 {
        let st = step_cap(ps, cur, caps.first());
        lemma_scan_def_from(caps.drop_first(), st.0, st.1);
        let r = scan_caps(caps, ps, cur);
        if r.0.def != ps.def {
            if r.0.def == st.0.def && st.0.def != ps.def {
                assert(st.0.def == Some(caps[0]));
            } else {
                let c = choose|c: int|
                    0 <= c < caps.drop_first().len() && r.0.def == Some(
                        #[trigger] caps.drop_first()[c],
                    );
                assert(r.0.def == Some(caps[c + 1]));
            }
        }
    }
}

/// Law: when every capture range is sane for the source, so is every
/// extracted symbol's byte and line range.
pub proof fn lemma_extract_spec_sane(
    ms: Seq<Seq<RawCaptureV>>,
    cur: Option<Seq<char>>,
    rel: Seq<char>,
    lang: Language,
    src_len: int,
)
    requires
        caps_sane(ms, src_len),
    ensures
        forall|t: int|
            0 <= t < extract_rec(ms, cur, rel, lang).len() ==> sym_sane(
                #[trigger] extract_rec(ms, cur, rel, lang)[t],
                src_len,
            ),
    decreases ms.len(),
{
    if ms.len() > 0 {
        let r = scan_caps(ms.first(), empty_partial(), cur);
        assert(caps_sane(ms.drop_first(), src_len)) by {
            assert forall|m: int, c: int|
                0 <= m < ms.drop_first().len() && 0 <= c < ms.drop_first()[m].len() implies {
                let cap = #[trigger] ms.drop_first()[m][c];
                &&& 0 <= cap.start_byte <= cap.end_byte <= src_len
                &&& 0 <= cap.start_row <= cap.end_row
            } by {
                assert(ms.drop_first()[m] == ms[m + 1]);
                assert(ms[m + 1][c] == ms.drop_first()[m][c]);
            }
        }
        lemma_extract_spec_sane(ms.drop_first(), r.1, rel, lang, src_len);
        match emit_sym(r.0, rel, lang) {
            Some(sy) => {
                lemma_scan_def_from(ms.first(), empty_partial(), cur);
                let c = choose|c: int|
                    0 <= c < ms.first().len() && r.0.def == Some(#[trigger] ms.first()[c]);
                assert(ms[0][c] == ms.first()[c]);
                assert(sym_sane(sy, src_len));
                assert(extract_rec(ms, cur, rel, lang) == seq![sy] + extract_rec(
                    ms.drop_first(),
                    r.1,
                    rel,
                    lang,
                ));
            },
            None => {},
        }
    }
}

fn step_cap_exec(
    name: &mut Option<String>,
    kind: &mut Option<SymbolKind>,
    def: &mut Option<RawCapture>,
    parent: &mut Option<String>,
    cur: &mut Option<String>,
    c: &RawCapture,
)
    ensures
        ({
            let ps0 = PartialSymV {
                name: crate::symbol::opt_view(*old(name)),
                kind: *old(kind),
                def: match *old(def) {
                    Some(d) => Some(d@),
                    None => None,
                },
                parent: crate::symbol::opt_view(*old(parent)),
            };
            let st = step_cap(ps0, crate::symbol::opt_view(*old(cur)), c@);
            &&& crate::symbol::opt_view(*final(name)) == st.0.name
            &&& *final(kind) == st.0.kind
            &&& (match *final(def) {
                Some(d) => Some(d@),
                None => None,
            }) == st.0.def
            &&& crate::symbol::opt_view(*final(parent)) == st.0.parent
            &&& crate::symbol::opt_view(*final(cur)) == st.1
        }),
{
    if str_eq(c.name.as_str(), "impl.type") {
        *cur = Some(c.text.clone());
    } else if str_eq(c.name.as_str(), "method.name") {
        *name = Some(c.text.clone());
        *kind = Some(SymbolKind::Method);
        *parent = crate::symbol::clone_opt(cur);
    } else if str_eq(c.name.as_str(), "function.name") {
        *name = Some(c.text.clone());
        *kind = Some(SymbolKind::Function);
    } else if str_eq(c.name.as_str(), "struct.name") {
        *name = Some(c.text.clone());
        *kind = Some(SymbolKind::Struct);
    } else if str_eq(c.name.as_str(), "enum.name") {
        *name = Some(c.text.clone());
        *kind = Some(SymbolKind::Enum);
    } else if str_eq(c.name.as_str(), "trait.name") {
        *name = Some(c.text.clone());
        *kind = Some(SymbolKind::Trait);
    } else if str_eq(c.name.as_str(), "class.name") {
        *name = Some(c.text.clone());
        *kind = Some(SymbolKind::Class);
    } else if str_eq(c.name.as_str(), "interface.name") {
        *name = Some(c.text.clone());
        *kind = Some(SymbolKind::Interface);
    } else if str_eq(c.name.as_str(), "type.name") {
        *name = Some(c.text.clone());
        *kind = Some(SymbolKind::Type);
    } else if str_eq(c.name.as_str(), "const.name") {
        *name = Some(c.text.clone());
        *kind = Some(SymbolKind::Constant);
    } else if str_eq(c.name.as_str(), "static.name") {
        *name = Some(c.text.clone());
        *kind = Some(SymbolKind::Constant);
    } else if str_eq(c.name.as_str(), "mod.name") {
        *name = Some(c.text.clone());
        *kind = Some(SymbolKind::Module);
    } else if str_eq(c.name.as_str(), "function.def") || str_eq(c.name.as_str(), "method.def")
        || str_eq(c.name.as_str(), "struct.def") || str_eq(c.name.as_str(), "enum.def")
        || str_eq(c.name.as_str(), "trait.def") || str_eq(c.name.as_str(), "class.def")
        || str_eq(c.name.as_str(), "interface.def") || str_eq(c.name.as_str(), "type.def")
        || str_eq(c.name.as_str(), "const.def") || str_eq(c.name.as_str(), "static.def")
        || str_eq(c.name.as_str(), "mod.def") {
        *def = Some(c.clone());
    }
}

/// Assemble symbol records from the capture runs of the symbols query.
pub fn symbols_from_matches(
    matches: &Vec<Vec<RawCapture>>,
    rel_path: &str,
    language: Language,
) -> (r: Vec<Symbol>)
    ensures
        sviews(r@) == extract_spec(matches.deep_view(), rel_path@, language),
{
    let ghost mv = matches.deep_view();
    let mut out: Vec<Symbol> = Vec::new();
    let mut cur: Option<String> = None;
    let mut i: usize = 0;
    proof {
        assert(mv.skip(0) =~= mv);
        assert(sviews(out@) =~= Seq::<SymbolV>::empty());
        assert(Seq::<SymbolV>::empty() + extract_rec(mv, None, rel_path@, language)
            =~= extract_rec(mv, None, rel_path@, language));
    }
    while i < matches.len()
        invariant
            i <= matches@.len(),
            mv == matches.deep_view(),
            mv.len() == matches@.len(),
            extract_spec(mv, rel_path@, language) == sviews(out@) + extract_rec(
                mv.skip(i as int),
                crate::symbol::opt_view(cur),
                rel_path@,
                language,
            ),
        decreases matches@.len() - i,
    {
        let ghost rest = mv.skip(i as int);
        let ghost cur0 = crate::symbol::opt_view(cur);
        proof {
            assert(rest.len() > 0);
            assert(rest.first() == mv[i as int]);
            assert(rest.drop_first() =~= mv.skip(i + 1));
            assert(mv[i as int] == matches@[i as int].deep_view());
        }
        let caps = &matches[i];
        let ghost cv = caps.deep_view();
        let mut name: Option<String> = None;
        let mut kind: Option<SymbolKind> = None;
        let mut def: Option<RawCapture> = None;
        let mut parent: Option<String> = None;
        let mut j: usize = 0;
        proof {
            assert(cv.skip(0) =~= cv);
        }
        while j < caps.len()
            invariant
                j <= caps@.len(),
                cv == caps.deep_view(),
                cv.len() == caps@.len(),
                scan_caps(cv, empty_partial(), cur0) == scan_caps(
                    cv.skip(j as int),
                    PartialSymV {
                        name: crate::symbol::opt_view(name),
                        kind: kind,
                        def: match def {
                            Some(d) => Some(d@),
                            None => None,
                        },
                        parent: crate::symbol::opt_view(parent),
                    },
                    crate::symbol::opt_view(cur),
                ),
            decreases caps@.len() - j,
        {
            let ghost crest = cv.skip(j as int);
            proof {
                assert(crest.len() > 0);
                assert(crest.first() == cv[j as int]);
                assert(crest.drop_first() =~= cv.skip(j + 1));
                assert(cv[j as int] == caps@[j as int]@);
            }
            step_cap_exec(&mut name, &mut kind, &mut def, &mut parent, &mut cur, &caps[j]);
            j = j + 1;
        }
        proof {
            assert(cv.skip(cv.len() as int) =~= Seq::<Seq<RawCaptureV>>::empty().map_values(
                |x: Seq<RawCaptureV>| x,
            ).flatten() + Seq::<RawCaptureV>::empty());
            assert(cv.skip(cv.len() as int) =~= Seq::<RawCaptureV>::empty());
        }
        let ghost scanned = scan_caps(cv, empty_partial(), cur0);
        match (name, kind, def) {
            (Some(n), Some(k), Some(d)) => {
                let line_start = if d.start_row < usize::MAX {
                    d.start_row + 1
                } else {
                    d.start_row
                };
                let line_end = if d.end_row < usize::MAX {
                    d.end_row + 1
                } else {
                    d.end_row
                };
                let signature = first_line(d.text.as_str());
                let sym = Symbol {
                    name: n,
                    kind: k,
                    file: rel_path.to_owned(),
                    byte_range: (d.start_byte, d.end_byte),
                    line_range: (line_start, line_end),
                    language,
                    signature,
                    definition: None,
                    parent,
                };
                let ghost o0 = out@;
                proof {
                    assert(emit_sym(scanned.0, rel_path@, language) == Some(sym@));
                }
                out.push(sym);
                proof {
                    assert(sviews(out@) =~= sviews(o0).push(
                        emit_sym(scanned.0, rel_path@, language).unwrap(),
                    ));
                    assert(sviews(o0) + (seq![
                        emit_sym(scanned.0, rel_path@, language).unwrap(),
                    ] + extract_rec(mv.skip(i + 1), scanned.1, rel_path@, language))
                        =~= sviews(out@) + extract_rec(
                        mv.skip(i + 1),
                        scanned.1,
                        rel_path@,
                        language,
                    ));
                }
            },
            _ => {
                proof {
                    assert(emit_sym(scanned.0, rel_path@, language) is None);
                }
            },
        }
        i = i + 1;
    }
    proof {
        assert(mv.skip(mv.len() as int) =~= Seq::<Seq<RawCaptureV>>::empty());
        assert(sviews(out@) + Seq::<SymbolV>::empty() =~= sviews(out@));
    }
    out
}

/// Extract the symbols of one file's source text. Files whose language
/// has no parser registered yield no symbols; markdown and converted PDF
/// text run the markdown symbols query.
pub fn extract_symbols_from_source(source: &str, rel_path: &str, language: Language) -> (r: Vec<
    Symbol,
>)
    ensures
        (language == Language::Markdown || language == Language::Pdf) ==> sviews(r@)
            == extract_spec(
            md_captures_of(MD_SYMBOLS_QUERY@, source@),
            rel_path@,
            language,
        ),
        !(language == Language::Markdown || language == Language::Pdf) ==> r@.len() == 0,
        forall|t: int|
            0 <= t < r@.len() ==> sym_sane(
                #[trigger] sviews(r@)[t],
                encode_utf8(source@).len() as int,
            ),
{
    if !language.has_tree_sitter_support() {
        return Vec::new();
    }
    let ms = md_raw_matches(MD_SYMBOLS_QUERY, source);
    let out = symbols_from_matches(&ms, rel_path, language);
    proof {
        lemma_extract_spec_sane(
            ms.deep_view(),
            None,
            rel_path@,
            language,
            encode_utf8(source@).len() as int,
        );
    }
    out
}

/// Whether `k` is the (file, name) key of one of the records.
pub open spec fn in_keys(ss: Seq<SymbolV>, k: SymKeyV) -> bool {
    exists|i: int| 0 <= i < ss.len() && #[trigger] skey(ss[i]) == k
}

/// Insert a file's extracted symbols into the table and mark the file as
/// extracted. Afterwards the table holds exactly its old keys plus the
/// keys of the new records, and the file's `symbols_extracted` flag is
/// set; the flag is set by this recording step alone, also when the
/// extractor produced no symbols.
pub fn record_extraction(
    table: &mut SymbolTable,
    tree: &mut FileTree,
    rel_path: &str,
    symbols: Vec<Symbol>,
)
    requires
        old(table).wf(),
        old(tree).wf(),
    ensures
        final(table).wf(),
        final(tree).wf(),
        forall|k: SymKeyV|
            #[trigger] prim_has(final(table).prim(), k) <==> (prim_has(old(table).prim(), k)
                || in_keys(sviews(symbols@), k)),
        final(table).graph() == old(table).graph(),
        ft_has(old(tree).files(), rel_path@) ==> ft_has(final(tree).files(), rel_path@)
            && crate::filetree::ft_get(final(tree).files(), rel_path@).symbols_extracted,
        forall|p: Seq<char>|
            #[trigger] ft_has(final(tree).files(), p) <==> ft_has(old(tree).files(), p),
        forall|p: Seq<char>|
            p != rel_path@ && ft_has(old(tree).files(), p) ==> #[trigger] crate::filetree::ft_get(
                final(tree).files(),
                p,
            ) == crate::filetree::ft_get(old(tree).files(), p),
{
    let ghost p0 = table.prim();
    let ghost ss = sviews(symbols@);
    let mut symbols = symbols;
    let mut i: usize = 0;
    proof {
        assert(ss.take(0) =~= Seq::<SymbolV>::empty());
    }
    while i < symbols.len()
        invariant
            i <= symbols@.len(),
            ss == sviews(symbols@),
            table.wf(),
            table.graph() == old(table).graph(),
            forall|k: SymKeyV|
                #[trigger] prim_has(table.prim(), k) <==> (prim_has(p0, k) || in_keys(
                    ss.take(i as int),
                    k,
                )),
        decreases symbols@.len() - i,
    {
        let ghost pj = table.prim();
        let sym = symbols[i].clone();
        proof {
            assert(sym@ == ss[i as int]);
            assert forall|k: SymKeyV|
                #[trigger] in_keys(ss.take(i + 1), k) <==> (in_keys(ss.take(i as int), k) || k
                == skey(ss[i as int])) by {
                if in_keys(ss.take(i + 1), k) {
                    let t = choose|t: int|
                        0 <= t < ss.take(i + 1).len() && #[trigger] skey(
                            ss.take(i + 1)[t],
                        ) == k;
                    if t < i {
                        assert(skey(ss.take(i as int)[t]) == k);
                    }
                }
                if in_keys(ss.take(i as int), k) {
                    let t = choose|t: int|
                        0 <= t < ss.take(i as int).len() && #[trigger] skey(
                            ss.take(i as int)[t],
                        ) == k;
                    assert(skey(ss.take(i + 1)[t]) == k);
                }
                if k == skey(ss[i as int]) {
                    assert(skey(ss.take(i + 1)[i as int]) == k);
                }
            }
        }
        table.insert(sym);
        i = i + 1;
    }
    proof {
        assert(ss.take(ss.len() as int) =~= ss);
    }
    tree.set_extracted(rel_path);
}

/// Law: recording the same extraction result twice leaves the key set of
/// the primary store unchanged — re-running the extractor on an unchanged
/// file keeps the same keys.
pub proof fn lemma_reextraction_fixed_keys(
    p0: Seq<SymbolV>,
    p1: Seq<SymbolV>,
    p2: Seq<SymbolV>,
    ss: Seq<SymbolV>,
)
    requires
        forall|k: SymKeyV| #[trigger] prim_has(p1, k) <==> (prim_has(p0, k) || in_keys(ss, k)),
        forall|k: SymKeyV| #[trigger] prim_has(p2, k) <==> (prim_has(p1, k) || in_keys(ss, k)),
    ensures
        forall|k: SymKeyV| #[trigger] prim_has(p2, k) <==> prim_has(p1, k),
{
}

/// The callers query for the markdown grammar: markdown has no call
/// expressions, so the query is empty and matches nothing.
pub const MD_CALLERS_QUERY: &'static str = "";

/// One observed call site: the callee identifier, the 1-indexed line it
/// was seen on, and the trimmed text of that line.
pub struct CallSite {
    pub callee: String,
    pub line: usize,
    pub text: String,
}

/// The `(callee text, row)` pairs of one match: every non-empty `callee`
/// capture, in order.
pub open spec fn match_sites(caps: Seq<RawCaptureV>) -> Seq<(Seq<char>, int)>
    decreases caps.len(),
{
    if caps.len() == 0 {
        Seq::empty()
    } else {
        (if caps.first().name == "callee"@ && caps.first().text.len() > 0 {
            seq![(caps.first().text, caps.first().start_row)]
        } else {
            Seq::empty()
        }) + match_sites(caps.drop_first())
    }
}

/// All `(callee text, row)` pairs of a capture run.
pub open spec fn sites_rec(ms: Seq<Seq<RawCaptureV>>) -> Seq<(Seq<char>, int)>
    decreases ms.len(),
{
    if ms.len() == 0 {
        Seq::empty()
    } else {
        match_sites(ms.first()) + sites_rec(ms.drop_first())
    }
}

/// Collect call sites from the capture runs of the callers query. `lines`
/// are the file's lines; each site's text is its line, trimmed.
pub fn call_sites_from_matches(matches: &Vec<Vec<RawCapture>>, lines: &Vec<Vec<u8>>) -> (r: Vec<
    CallSite,
>)
    ensures
        r@.len() == sites_rec(matches.deep_view()).len(),
        forall|t: int|
            0 <= t < r@.len() ==> {
                let s = sites_rec(matches.deep_view())[t];
                &&& (#[trigger] r@[t]).callee@ == s.0
                &&& r@[t].line == line_of_row(s.1)
                &&& (0 <= s.1 < lines.deep_view().len() && valid_utf8(
                    lines.deep_view()[s.1],
                ) ==> r@[t].text@ == crate::trusted::trim_of(
                    decode_utf8(lines.deep_view()[s.1]),
                ))
                &&& (!(0 <= s.1 < lines.deep_view().len()) ==> r@[t].text@.len() == 0)
            },
{
    let ghost mv = matches.deep_view();
    let ghost lv = lines.deep_view();
    let mut out: Vec<CallSite> = Vec::new();
    let ghost mut done: Seq<(Seq<char>, int)> = Seq::empty();
    let mut i: usize = 0;
    proof {
        assert(mv.skip(0) =~= mv);
        assert(done + sites_rec(mv) =~= sites_rec(mv));
    }
    while i < matches.len()
        invariant
            i <= matches@.len(),
            mv == matches.deep_view(),
            lv == lines.deep_view(),
            mv.len() == matches@.len(),
            out@.len() == done.len(),
            sites_rec(mv) == done + sites_rec(mv.skip(i as int)),
            forall|t: int|
                0 <= t < out@.len() ==> {
                    let s = done[t];
                    &&& (#[trigger] out@[t]).callee@ == s.0
                    &&& out@[t].line == line_of_row(s.1)
                    &&& (0 <= s.1 < lv.len() && valid_utf8(lv[s.1]) ==> out@[t].text@
                        == crate::trusted::trim_of(decode_utf8(lv[s.1])))
                    &&& (!(0 <= s.1 < lv.len()) ==> out@[t].text@.len() == 0)
                },
        decreases matches@.len() - i,
    {
        let ghost rest = mv.skip(i as int);
        proof {
            assert(rest.len() > 0);
            assert(rest.first() == mv[i as int]);
            assert(rest.drop_first() =~= mv.skip(i + 1));
            assert(mv[i as int] == matches@[i as int].deep_view());
        }
        let caps = &matches[i];
        let ghost cv = caps.deep_view();
        let mut j: usize = 0;
        proof {
            assert(cv.skip(0) =~= cv);
            assert(done + (match_sites(cv) + sites_rec(mv.skip(i + 1))) =~= sites_rec(mv));
        }
        while j < caps.len()
            invariant
                j <= caps@.len(),
                i < matches@.len(),
                mv == matches.deep_view(),
                lv == lines.deep_view(),
                cv == caps.deep_view(),
                cv.len() == caps@.len(),
                out@.len() == done.len(),
                sites_rec(mv) == done + (match_sites(cv.skip(j as int)) + sites_rec(
                    mv.skip(i + 1),
                )),
                forall|t: int|
                    0 <= t < out@.len() ==> {
                        let s = done[t];
                        &&& (#[trigger] out@[t]).callee@ == s.0
                        &&& out@[t].line == line_of_row(s.1)
                        &&& (0 <= s.1 < lv.len() && valid_utf8(lv[s.1]) ==> out@[t].text@
                            == crate::trusted::trim_of(decode_utf8(lv[s.1])))
                        &&& (!(0 <= s.1 < lv.len()) ==> out@[t].text@.len() == 0)
                    },
            decreases caps@.len() - j,
        {
            let ghost crest = cv.skip(j as int);
            proof {
                assert(crest.len() > 0);
                assert(crest.first() == cv[j as int]);
                assert(crest.drop_first() =~= cv.skip(j + 1));
                assert(cv[j as int] == caps@[j as int]@);
            }
            let c = &caps[j];
            if str_eq(c.name.as_str(), "callee") && !c.text.as_str().is_empty() {
                let row = c.start_row;
                let line = if row < usize::MAX {
                    row + 1
                } else {
                    row
                };
                let text = if row < lines.len() {
                    let ls = crate::trusted::bytes_to_string(lines[row].as_slice());
                    proof {
                        assert(lv[row as int] =~= lines@[row as int]@);
                    }
                    crate::trusted::trim(ls.as_str())
                } else {
                    let empty_text = "".to_owned();
                    proof {
                        reveal_strlit("");
                    }
                    empty_text
                };
                let site = CallSite { callee: c.text.clone(), line, text };
                let ghost o0 = out@;
                let ghost d0 = done;
                out.push(site);
                proof {
                    let sp = (cv[j as int].text, cv[j as int].start_row);
                    assert(match_sites(crest) =~= seq![sp] + match_sites(cv.skip(j + 1)));
                    done = done + seq![sp];
                    assert(done + (match_sites(cv.skip(j + 1)) + sites_rec(mv.skip(i + 1)))
                        =~= sites_rec(mv));
                    assert(forall|t: int| 0 <= t < o0.len() ==> out@[t] == o0[t]);
                    assert(forall|t: int| 0 <= t < d0.len() ==> done[t] == d0[t]);
                    assert(out@[o0.len() as int] == site);
                    assert(done[d0.len() as int] == sp);
                    assert(site.callee@ == sp.0);
                    assert(site.line == line_of_row(sp.1));
                    assert(0 <= sp.1 < lv.len() && valid_utf8(lv[sp.1])
                        ==> site.text@ == crate::trusted::trim_of(decode_utf8(lv[sp.1])));
                    assert(!(0 <= sp.1 < lv.len()) ==> site.text@.len() == 0);
                }
            } else {
                proof {
                    assert(match_sites(crest) =~= match_sites(cv.skip(j + 1)));
                    assert(done + (match_sites(cv.skip(j + 1)) + sites_rec(mv.skip(i + 1)))
                        =~= sites_rec(mv));
                }
            }
            j = j + 1;
        }
        proof {
            assert(cv.skip(cv.len() as int) =~= Seq::<RawCaptureV>::empty());
            assert(match_sites(Seq::<RawCaptureV>::empty()) =~= Seq::<(Seq<char>, int)>::empty());
            assert(done + sites_rec(mv.skip(i + 1)) =~= sites_rec(mv));
        }
        i = i + 1;
    }
    proof {
        assert(mv.skip(mv.len() as int) =~= Seq::<Seq<RawCaptureV>>::empty());
        assert(done + Seq::<(Seq<char>, int)>::empty() =~= done);
        assert(done =~= sites_rec(mv));
    }
    out
}

/// Extract the call sites of one file's source text: run the callers
/// query and collect every `callee` capture with its trimmed source line.
pub fn extract_call_sites_from_source(source: &str, language: Language) -> (r: Vec<CallSite>)
    ensures
        !(language == Language::Markdown || language == Language::Pdf) ==> r@.len() == 0,
        (language == Language::Markdown || language == Language::Pdf) ==> {
            let ms = md_captures_of(MD_CALLERS_QUERY@, source@);
            let ls = crate::text::spec_lines(encode_utf8(source@));
            &&& r@.len() == sites_rec(ms).len()
            &&& forall|t: int|
                0 <= t < r@.len() ==> {
                    let site = sites_rec(ms)[t];
                    &&& (#[trigger] r@[t]).callee@ == site.0
                    &&& r@[t].line == line_of_row(site.1)
                    &&& (0 <= site.1 < ls.len() && valid_utf8(ls[site.1]) ==> r@[t].text@
                        == crate::trusted::trim_of(decode_utf8(ls[site.1])))
                    &&& (!(0 <= site.1 < ls.len()) ==> r@[t].text@.len() == 0)
                }
        },
{
    if !language.has_tree_sitter_support() {
        return Vec::new();
    }
    let ms = md_raw_matches(MD_CALLERS_QUERY, source);
    let lines = crate::text::split_lines(source.as_bytes());
    call_sites_from_matches(&ms, &lines)
}

/// The `var.name` capture texts whose nodes lie inside `[lo, hi)`: the
/// local variables of the symbol spanning that byte range.
pub open spec fn var_sites(ms: Seq<Seq<RawCaptureV>>, lo: int, hi: int) -> Seq<Seq<char>>
    decreases ms.len(),
{
    if ms.len() == 0 {
        Seq::empty()
    } else {
        match_vars(ms.first(), lo, hi) + var_sites(ms.drop_first(), lo, hi)
    }
}

pub open spec fn match_vars(caps: Seq<RawCaptureV>, lo: int, hi: int) -> Seq<Seq<char>>
    decreases caps.len(),
{
    if caps.len() == 0 {
        Seq::empty()
    } else {
        (if caps.first().name == "var.name"@ && lo <= caps.first().start_byte
            && caps.first().end_byte <= hi {
            seq![caps.first().text]
        } else {
            Seq::empty()
        }) + match_vars(caps.drop_first(), lo, hi)
    }
}

/// Collect the variable names captured inside the byte range `[lo, hi)`.
pub fn variable_names(matches: &Vec<Vec<RawCapture>>, lo: usize, hi: usize) -> (r: Vec<String>)
    ensures
        crate::symtab::strviews(r@) == var_sites(matches.deep_view(), lo as int, hi as int),
{
    let ghost mv = matches.deep_view();
    let mut out: Vec<String> = Vec::new();
    let mut i: usize = 0;
    proof {
        assert(mv.skip(0) =~= mv);
        assert(crate::symtab::strviews(out@) =~= Seq::<Seq<char>>::empty());
        assert(Seq::<Seq<char>>::empty() + var_sites(mv, lo as int, hi as int) =~= var_sites(
            mv,
            lo as int,
            hi as int,
        ));
    }
    while i < matches.len()
        invariant
            i <= matches@.len(),
            mv == matches.deep_view(),
            mv.len() == matches@.len(),
            var_sites(mv, lo as int, hi as int) == crate::symtab::strviews(out@) + var_sites(
                mv.skip(i as int),
                lo as int,
                hi as int,
            ),
        decreases matches@.len() - i,
    {
        let ghost rest = mv.skip(i as int);
        proof {
            assert(rest.len() > 0);
            assert(rest.first() == mv[i as int]);
            assert(rest.drop_first() =~= mv.skip(i + 1));
            assert(mv[i as int] == matches@[i as int].deep_view());
        }
        let caps = &matches[i];
        let ghost cv = caps.deep_view();
        let mut j: usize = 0;
        proof {
            assert(cv.skip(0) =~= cv);
            assert(crate::symtab::strviews(out@) + (match_vars(cv, lo as int, hi as int)
                + var_sites(mv.skip(i + 1), lo as int, hi as int)) =~= var_sites(
                mv,
                lo as int,
                hi as int,
            ));
        }
        while j < caps.len()
            invariant
                j <= caps@.len(),
                i < matches@.len(),
                mv == matches.deep_view(),
                cv == caps.deep_view(),
                cv.len() == caps@.len(),
                var_sites(mv, lo as int, hi as int) == crate::symtab::strviews(out@) + (
                match_vars(cv.skip(j as int), lo as int, hi as int) + var_sites(
                    mv.skip(i + 1),
                    lo as int,
                    hi as int,
                )),
            decreases caps@.len() - j,
        {
            let ghost crest = cv.skip(j as int);
            proof {
                assert(crest.len() > 0);
                assert(crest.first() == cv[j as int]);
                assert(crest.drop_first() =~= cv.skip(j + 1));
                assert(cv[j as int] == caps@[j as int]@);
            }
            let c = &caps[j];
            if str_eq(c.name.as_str(), "var.name") && lo <= c.start_byte && c.end_byte <= hi {
                let ghost o0 = out@;
                out.push(c.text.clone());
                proof {
                    assert(crate::symtab::strviews(out@) =~= crate::symtab::strviews(
                        o0,
                    ).push(cv[j as int].text));
                    assert(match_vars(crest, lo as int, hi as int) =~= seq![
                        cv[j as int].text,
                    ] + match_vars(cv.skip(j + 1), lo as int, hi as int));
                    assert(crate::symtab::strviews(o0) + (match_vars(
                        crest,
                        lo as int,
                        hi as int,
                    ) + var_sites(mv.skip(i + 1), lo as int, hi as int))
                        =~= crate::symtab::strviews(out@) + (match_vars(
                        cv.skip(j + 1),
                        lo as int,
                        hi as int,
                    ) + var_sites(mv.skip(i + 1), lo as int, hi as int)));
                }
            } else {
                proof {
                    assert(match_vars(crest, lo as int, hi as int) =~= match_vars(
                        cv.skip(j + 1),
                        lo as int,
                        hi as int,
                    ));
                }
            }
            j = j + 1;
        }
        proof {
            assert(cv.skip(cv.len() as int) =~= Seq::<RawCaptureV>::empty());
            assert(crate::symtab::strviews(out@) + var_sites(
                mv.skip(i + 1),
                lo as int,
                hi as int,
            ) =~= var_sites(mv, lo as int, hi as int));
        }
        i = i + 1;
    }
    proof {
        assert(mv.skip(mv.len() as int) =~= Seq::<Seq<RawCaptureV>>::empty());
        assert(crate::symtab::strviews(out@) + Seq::<Seq<char>>::empty()
            =~= crate::symtab::strviews(out@));
    }
    out
}

/// The variables query for the markdown grammar: markdown has no local
/// variables, so the query is empty and matches nothing.
pub const MD_VARIABLES_QUERY: &'static str = "";

/// The local variable names of one file's source text inside the byte
/// range `[lo, hi)`: run the variables query and keep the `var.name`
/// captures whose nodes lie inside the range.
pub fn extract_variables_from_source(source: &str, language: Language, lo: usize, hi: usize) -> (r:
    Vec<String>)
    ensures
        (language == Language::Markdown || language == Language::Pdf)
            ==> crate::symtab::strviews(r@) == var_sites(
            md_captures_of(MD_VARIABLES_QUERY@, source@),
            lo as int,
            hi as int,
        ),
        !(language == Language::Markdown || language == Language::Pdf) ==> r@.len() == 0,
{
    if !language.has_tree_sitter_support() {
        return Vec::new();
    }
    let ms = md_raw_matches(MD_VARIABLES_QUERY, source);
    variable_names(&ms, lo, hi)
}

} // verus!
