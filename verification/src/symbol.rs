//! Symbol records extracted from source files, the closed enumerations for
//! symbol kinds and language tags, and caller references for the reverse
//! call graph.

use vstd::prelude::*;

verus! {

use vstd::string::StringExecFns;

/// Compare two string slices by contents.
pub fn str_eq(a: &str, b: &str) -> (r: bool)
    ensures
        r == (a@ == b@),
{
    a.to_owned() == b.to_owned()
}

/// What sort of entity a symbol is.
#[derive(Clone, Copy, PartialEq, Eq, Structural, Debug)]
pub enum SymbolKind {
    Function,
    Method,
    Struct,
    Enum,
    Trait,
    Class,
    Interface,
    Type,
    Constant,
    Module,
}

/// The snake-case tag under which a kind is serialized.
pub open spec fn kind_label(k: SymbolKind) -> Seq<char> {
    match k {
        SymbolKind::Function => "function"@,
        SymbolKind::Method => "method"@,
        SymbolKind::Struct => "struct"@,
        SymbolKind::Enum => "enum"@,
        SymbolKind::Trait => "trait"@,
        SymbolKind::Class => "class"@,
        SymbolKind::Interface => "interface"@,
        SymbolKind::Type => "type"@,
        SymbolKind::Constant => "constant"@,
        SymbolKind::Module => "module"@,
    }
}

impl SymbolKind {
    pub fn as_str(&self) -> (r: &'static str)
        ensures
            r@ == kind_label(*self),
    {
        match self {
            SymbolKind::Function => "function",
            SymbolKind::Method => "method",
            SymbolKind::Struct => "struct",
            SymbolKind::Enum => "enum",
            SymbolKind::Trait => "trait",
            SymbolKind::Class => "class",
            SymbolKind::Interface => "interface",
            SymbolKind::Type => "type",
            SymbolKind::Constant => "constant",
            SymbolKind::Module => "module",
        }
    }

    pub fn from_str(s: &str) -> (r: Option<SymbolKind>)
        ensures
            match r {
                Some(k) => s@ == kind_label(k),
                None => forall|k: SymbolKind| s@ != kind_label(k),
            },
    {
        let all = [
            SymbolKind::Function,
            SymbolKind::Method,
            SymbolKind::Struct,
            SymbolKind::Enum,
            SymbolKind::Trait,
            SymbolKind::Class,
            SymbolKind::Interface,
            SymbolKind::Type,
            SymbolKind::Constant,
            SymbolKind::Module,
        ];
        let mut i: usize = 0;
        while i < 10
            invariant
                i <= 10,
                all@ =~= seq![
                    SymbolKind::Function,
                    SymbolKind::Method,
                    SymbolKind::Struct,
                    SymbolKind::Enum,
                    SymbolKind::Trait,
                    SymbolKind::Class,
                    SymbolKind::Interface,
                    SymbolKind::Type,
                    SymbolKind::Constant,
                    SymbolKind::Module,
                ],
                forall|j: int| 0 <= j < i ==> s@ != kind_label(all@[j]),
            decreases 10 - i,
        {
            let k = all[i];
            if str_eq(s, k.as_str()) {
                return Some(k);
            }
            i = i + 1;
        }
        proof {
            assert forall|k: SymbolKind| s@ != kind_label(k) by {
                let a = all@;
                match k {
                    SymbolKind::Function => assert(a[0] == k),
                    SymbolKind::Method => assert(a[1] == k),
                    SymbolKind::Struct => assert(a[2] == k),
                    SymbolKind::Enum => assert(a[3] == k),
                    SymbolKind::Trait => assert(a[4] == k),
                    SymbolKind::Class => assert(a[5] == k),
                    SymbolKind::Interface => assert(a[6] == k),
                    SymbolKind::Type => assert(a[7] == k),
                    SymbolKind::Constant => assert(a[8] == k),
                    SymbolKind::Module => assert(a[9] == k),
                }
            }
        }
        None
    }
}

/// Syntactic family of an indexed file. `Pdf` files are converted to
/// markdown by an external adapter before parsing; `Text` files are opaque
/// to the extractor.
#[derive(Clone, Copy, PartialEq, Eq, Structural, Debug)]
pub enum Language {
    Lean,
    Markdown,
    Pdf,
    Text,
}

impl Language {
    /// Whether the extractor has queries registered for this language.
    /// `Pdf` is parsed with the markdown grammar after conversion; no
    /// grammar for `Lean` could be registered, so those files are skipped.
    pub fn has_tree_sitter_support(&self) -> (r: bool)
        ensures
            r == (*self == Language::Markdown || *self == Language::Pdf),
    {
        match self {
            Language::Markdown => true,
            Language::Pdf => true,
            _ => false,
        }
    }
}

/// One extracted symbol. Byte and line ranges refer to the definition node
/// in the file the symbol came from; line numbers are 1-indexed and
/// inclusive.
pub struct Symbol {
    pub name: String,
    pub kind: SymbolKind,
    pub file: String,
    pub byte_range: (usize, usize),
    pub line_range: (usize, usize),
    pub language: Language,
    pub signature: String,
    pub definition: Option<String>,
    pub parent: Option<String>,
}

/// Mathematical image of a `Symbol`.
pub struct SymbolV {
    pub name: Seq<char>,
    pub kind: SymbolKind,
    pub file: Seq<char>,
    pub byte_start: int,
    pub byte_end: int,
    pub line_start: int,
    pub line_end: int,
    pub language: Language,
    pub signature: Seq<char>,
    pub definition: Option<Seq<char>>,
    pub parent: Option<Seq<char>>,
}

pub open spec fn opt_view(o: Option<String>) -> Option<Seq<char>> {
    match o {
        Some(s) => Some(s@),
        None => None,
    }
}

impl View for Symbol {
    type V = SymbolV;

    open spec fn view(&self) -> SymbolV {
        SymbolV {
            name: self.name@,
            kind: self.kind,
            file: self.file@,
            byte_start: self.byte_range.0 as int,
            byte_end: self.byte_range.1 as int,
            line_start: self.line_range.0 as int,
            line_end: self.line_range.1 as int,
            language: self.language,
            signature: self.signature@,
            definition: opt_view(self.definition),
            parent: opt_view(self.parent),
        }
    }
}

pub fn clone_opt(o: &Option<String>) -> (r: Option<String>)
    ensures
        opt_view(r) == opt_view(*o),
{
    match o {
        Some(s) => Some(s.clone()),
        None => None,
    }
}

impl Clone for Symbol {
    fn clone(&self) -> (r: Self)
        ensures
            r@ == self@,
    {
        Symbol {
            name: self.name.clone(),
            kind: self.kind,
            file: self.file.clone(),
            byte_range: (self.byte_range.0, self.byte_range.1),
            line_range: (self.line_range.0, self.line_range.1),
            language: self.language,
            signature: self.signature.clone(),
            definition: clone_opt(&self.definition),
            parent: clone_opt(&self.parent),
        }
    }
}

/// One observed call site of a symbol: the file and 1-indexed line it was
/// seen on, and the trimmed text of that line.
pub struct CallerRef {
    pub file: String,
    pub line: usize,
    pub text: String,
}

pub struct CallerRefV {
    pub file: Seq<char>,
    pub line: int,
    pub text: Seq<char>,
}

impl View for CallerRef {
    type V = CallerRefV;

    open spec fn view(&self) -> CallerRefV {
        CallerRefV { file: self.file@, line: self.line as int, text: self.text@ }
    }
}

impl Clone for CallerRef {
    fn clone(&self) -> (r: Self)
        ensures
            r@ == self@,
    {
        CallerRef { file: self.file.clone(), line: self.line, text: self.text.clone() }
    }
}

} // verus!
