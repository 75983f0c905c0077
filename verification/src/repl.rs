//! Per-session scratch state: named buffers, JSON variables held in their
//! serialized text form, and the append-only list of subcall results.

use vstd::prelude::*;
use crate::symbol::Symbol;
use crate::symtab::{prim_get, prim_has, strviews, SymbolTable};
use crate::text;
use crate::text::{join_nl, spec_lines};
use crate::content;

verus! {

/// Where a buffer's content came from.
pub enum BufferSource {
    File { path: String, start_line: usize, end_line: usize },
    Symbol { name: String, file: String },
    Grep { pattern: String },
    SubLmResult { query: String },
    Computed { description: String },
}

pub enum BufferSourceV {
    File { path: Seq<char>, start_line: int, end_line: int },
    Symbol { name: Seq<char>, file: Seq<char> },
    Grep { pattern: Seq<char> },
    SubLmResult { query: Seq<char> },
    Computed { description: Seq<char> },
}

impl View for BufferSource {
    type V = BufferSourceV;

    open spec fn view(&self) -> BufferSourceV {
        match self {
            BufferSource::File { path, start_line, end_line } => BufferSourceV::File {
                path: path@,
                start_line: *start_line as int,
                end_line: *end_line as int,
            },
            BufferSource::Symbol { name, file } => BufferSourceV::Symbol {
                name: name@,
                file: file@,
            },
            BufferSource::Grep { pattern } => BufferSourceV::Grep { pattern: pattern@ },
            BufferSource::SubLmResult { query } => BufferSourceV::SubLmResult {
                query: query@,
            },
            BufferSource::Computed { description } => BufferSourceV::Computed {
                description: description@,
            },
        }
    }
}

impl Clone for BufferSource {
    fn clone(&self) -> (r: Self)
        ensures
            r@ == self@,
    {
        match self {
            BufferSource::File { path, start_line, end_line } => BufferSource::File {
                path: path.clone(),
                start_line: *start_line,
                end_line: *end_line,
            },
            BufferSource::Symbol { name, file } => BufferSource::Symbol {
                name: name.clone(),
                file: file.clone(),
            },
            BufferSource::Grep { pattern } => BufferSource::Grep { pattern: pattern.clone() },
            BufferSource::SubLmResult { query } => BufferSource::SubLmResult {
                query: query.clone(),
            },
            BufferSource::Computed { description } => BufferSource::Computed {
                description: description.clone(),
            },
        }
    }
}

/// A named scratch buffer; content is immutable once stored.
pub struct Buffer {
    pub name: String,
    pub content: Vec<u8>,
    pub source: BufferSource,
    pub created_at: i64,
}

pub struct BufferV {
    pub name: Seq<char>,
    pub content: Seq<u8>,
    pub source: BufferSourceV,
    pub created_at: int,
}

impl View for Buffer {
    type V = BufferV;

    open spec fn view(&self) -> BufferV {
        BufferV {
            name: self.name@,
            content: self.content@,
            source: self.source@,
            created_at: self.created_at as int,
        }
    }
}

/// Metadata-only image of a buffer; never the full content.
pub struct BufferInfo {
    pub name: String,
    pub size_bytes: usize,
    pub line_count: usize,
    pub source: BufferSource,
    pub preview: Vec<u8>,
    pub created_at: i64,
}

impl BufferInfo {
    /// The metadata record of a buffer: byte size, line count, and a
    /// preview of at most 200 bytes clamped to a character cut.
    pub fn from_buffer(buf: &Buffer) -> (r: BufferInfo)
        ensures
            r.name@ == buf@.name,
            r.size_bytes == buf@.content.len(),
            r.line_count == text::line_count(buf@.content),
            r.source@ == buf@.source,
            r.preview@ == crate::chunker::preview_of(buf@.content),
            r.created_at == buf@.created_at,
    {
        let size_bytes = buf.content.len();
        let line_count = text::count_lines_upto(buf.content.as_slice(), size_bytes);
        proof {
            assert(buf@.content.take(buf@.content.len() as int) =~= buf@.content);
        }
        let mut preview: Vec<u8> = Vec::new();
        if size_bytes > 200 {
            let t = text::floor_cut(buf.content.as_slice(), 200);
            preview.extend_from_slice(&buf.content.as_slice()[0..t]);
            preview.push(crate::chunker::DOT);
            preview.push(crate::chunker::DOT);
            preview.push(crate::chunker::DOT);
            proof {
                assert(buf@.content.subrange(0, t as int) =~= buf@.content.take(t as int));
                assert(preview@ =~= buf@.content.take(t as int) + seq![
                    crate::chunker::DOT,
                    crate::chunker::DOT,
                    crate::chunker::DOT,
                ]);
            }
        } else {
            preview.extend_from_slice(buf.content.as_slice());
            proof {
                assert(preview@ =~= buf@.content);
            }
        }
        BufferInfo {
            name: buf.name.clone(),
            size_bytes,
            line_count,
            source: buf.source.clone(),
            preview,
            created_at: buf.created_at,
        }
    }
}

/// One stored variable: its name and the serialized text of its JSON
/// value.
pub struct VarEntry {
    pub name: String,
    pub value: String,
}

/// One finding inside a subcall result.
pub struct Finding {
    pub point: String,
    pub evidence: String,
    pub confidence: String,
}

impl Clone for Finding {
    fn clone(&self) -> (r: Self)
        ensures
            r.point@ == self.point@,
            r.evidence@ == self.evidence@,
            r.confidence@ == self.confidence@,
    {
        Finding {
            point: self.point.clone(),
            evidence: self.evidence.clone(),
            confidence: self.confidence.clone(),
        }
    }
}

/// The stored outcome of one delegated subcall.
pub struct SubcallResult {
    pub chunk_id: String,
    pub query: String,
    pub findings: Vec<Finding>,
    pub suggested_queries: Vec<String>,
    pub answer_if_complete: Option<String>,
    pub created_at: i64,
}

/// Two findings carry the same texts.
pub open spec fn finding_matches(a: Finding, b: Finding) -> bool {
    a.point@ == b.point@ && a.evidence@ == b.evidence@ && a.confidence@ == b.confidence@
}

/// Two subcall results carry the same values, field by field.
pub open spec fn sub_matches(a: SubcallResult, b: SubcallResult) -> bool {
    &&& a.chunk_id@ == b.chunk_id@
    &&& a.query@ == b.query@
    &&& a.findings@.len() == b.findings@.len()
    &&& forall|k: int|
        0 <= k < a.findings@.len() ==> finding_matches(
            #[trigger] a.findings@[k],
            b.findings@[k],
        )
    &&& strviews(a.suggested_queries@) == strviews(b.suggested_queries@)
    &&& crate::symbol::opt_view(a.answer_if_complete) == crate::symbol::opt_view(
        b.answer_if_complete,
    )
    &&& a.created_at == b.created_at
}

impl Clone for SubcallResult {
    fn clone(&self) -> (r: Self)
        ensures
            sub_matches(r, *self),
    {
        let mut findings: Vec<Finding> = Vec::new();
        let mut i: usize = 0;
        while i < self.findings.len()
            invariant
                i <= self.findings@.len(),
                findings@.len() == i,
                forall|k: int|
                    0 <= k < i ==> finding_matches(
                        #[trigger] findings@[k],
                        self.findings@[k],
                    ),
            decreases self.findings@.len() - i,
        {
            let ghost f0 = findings@;
            findings.push(self.findings[i].clone());
            proof {
                assert(forall|k: int| 0 <= k < f0.len() ==> findings@[k] == f0[k]);
            }
            i = i + 1;
        }
        let mut suggested: Vec<String> = Vec::new();
        let mut j: usize = 0;
        proof {
            assert(strviews(suggested@) =~= strviews(self.suggested_queries@).take(0));
        }
        while j < self.suggested_queries.len()
            invariant
                j <= self.suggested_queries@.len(),
                strviews(suggested@) =~= strviews(self.suggested_queries@).take(j as int),
            decreases self.suggested_queries@.len() - j,
        {
            let ghost s0 = suggested@;
            suggested.push(self.suggested_queries[j].clone());
            proof {
                assert(strviews(suggested@) =~= strviews(s0).push(
                    strviews(self.suggested_queries@)[j as int],
                ));
                assert(strviews(self.suggested_queries@).take(j + 1) =~= strviews(
                    self.suggested_queries@,
                ).take(j as int).push(strviews(self.suggested_queries@)[j as int]));
            }
            j = j + 1;
        }
        proof {
            assert(strviews(self.suggested_queries@).take(
                self.suggested_queries@.len() as int,
            ) =~= strviews(self.suggested_queries@));
        }
        let answer = match &self.answer_if_complete {
            Some(a) => Some(a.clone()),
            None => None,
        };
        SubcallResult {
            chunk_id: self.chunk_id.clone(),
            query: self.query.clone(),
            findings,
            suggested_queries: suggested,
            answer_if_complete: answer,
            created_at: self.created_at,
        }
    }
}

pub open spec fn bviews(s: Seq<Buffer>) -> Seq<BufferV> {
    s.map_values(|b: Buffer| b@)
}

pub open spec fn vviews(s: Seq<VarEntry>) -> Seq<(Seq<char>, Seq<char>)> {
    s.map_values(|v: VarEntry| (v.name@, v.value@))
}

pub open spec fn buf_has(bs: Seq<BufferV>, n: Seq<char>) -> bool {
    exists|i: int| 0 <= i < bs.len() && (#[trigger] bs[i]).name == n
}

pub open spec fn buf_idx(bs: Seq<BufferV>, n: Seq<char>) -> int {
    choose|i: int| 0 <= i < bs.len() && (#[trigger] bs[i]).name == n
}

/// The buffer stored under name `n`.
pub open spec fn buf_get(bs: Seq<BufferV>, n: Seq<char>) -> BufferV {
    bs[buf_idx(bs, n)]
}

pub open spec fn buf_unique(bs: Seq<BufferV>) -> bool {
    forall|i: int, j: int|
        0 <= i < j < bs.len() ==> (#[trigger] bs[i]).name != (#[trigger] bs[j]).name
}

pub proof fn lemma_buf_get_at(bs: Seq<BufferV>, i: int)
    requires
        buf_unique(bs),
        0 <= i < bs.len(),
    ensures
        buf_has(bs, bs[i].name),
        buf_get(bs, bs[i].name) == bs[i],
{
    assert(buf_has(bs, bs[i].name));
    let j = buf_idx(bs, bs[i].name);
    if i != j {
        assert(bs[i].name != bs[j].name);
    }
}

pub open spec fn var_has(vs: Seq<(Seq<char>, Seq<char>)>, n: Seq<char>) -> bool {
    exists|i: int| 0 <= i < vs.len() && (#[trigger] vs[i]).0 == n
}

pub open spec fn var_idx(vs: Seq<(Seq<char>, Seq<char>)>, n: Seq<char>) -> int {
    choose|i: int| 0 <= i < vs.len() && (#[trigger] vs[i]).0 == n
}

/// The serialized value stored under variable name `n`.
pub open spec fn var_get(vs: Seq<(Seq<char>, Seq<char>)>, n: Seq<char>) -> Seq<char> {
    vs[var_idx(vs, n)].1
}

pub open spec fn var_unique(vs: Seq<(Seq<char>, Seq<char>)>) -> bool {
    forall|i: int, j: int|
        0 <= i < j < vs.len() ==> (#[trigger] vs[i]).0 != (#[trigger] vs[j]).0
}

pub proof fn lemma_var_get_at(vs: Seq<(Seq<char>, Seq<char>)>, i: int)
    requires
        var_unique(vs),
        0 <= i < vs.len(),
    ensures
        var_has(vs, vs[i].0),
        var_get(vs, vs[i].0) == vs[i].1,
{
    assert(var_has(vs, vs[i].0));
    let j = var_idx(vs, vs[i].0);
    if i != j {
        assert(vs[i].0 != vs[j].0);
    }
}

/// The byte slice `[start, end)` of `content`, with `end` clamped to the
/// length and `start` clamped to the clamped end.
pub open spec fn byte_slice(content: Seq<u8>, start: int, end: int) -> Seq<u8> {
    let e = if end <= content.len() {
        end
    } else {
        content.len() as int
    };
    let s = if start <= e {
        start
    } else {
        e
    };
    content.subrange(s, e)
}

/// The clamped line slice of a file, joined with newlines: what a buffer
/// loaded from that file holds.
pub open spec fn file_slice(src: Seq<u8>, start: int, end: int) -> Seq<u8> {
    let ls = spec_lines(src);
    let e = if end <= ls.len() {
        end
    } else {
        ls.len() as int
    };
    let s = if start <= e {
        start
    } else {
        e
    };
    join_nl(ls.subrange(s, e))
}

/// The definition bytes of a symbol inside its file's contents: the
/// symbol's byte range, clamped into the file.
pub fn symbol_slice(source: &[u8], sym: &Symbol) -> (r: Vec<u8>)
    ensures
        r@ == byte_slice(source@, sym@.byte_start, sym@.byte_end),
{
    let n = source.len();
    let e = if sym.byte_range.1 <= n {
        sym.byte_range.1
    } else {
        n
    };
    let s = if sym.byte_range.0 <= e {
        sym.byte_range.0
    } else {
        e
    };
    let r = content::copy_bytes(&source[s..e]);
    proof {
        assert(r@ =~= byte_slice(source@, sym@.byte_start, sym@.byte_end));
    }
    r
}

/// Scratch state of one session.
pub struct ReplState {
    pub buffers: Vec<Buffer>,
    pub variables: Vec<VarEntry>,
    pub subcall_results: Vec<SubcallResult>,
}

impl ReplState {
    pub open spec fn bufs(self) -> Seq<BufferV> {
        bviews(self.buffers@)
    }

    pub open spec fn vars(self) -> Seq<(Seq<char>, Seq<char>)> {
        vviews(self.variables@)
    }

    /// Buffer names and variable names are unique.
    pub open spec fn wf(self) -> bool {
        buf_unique(self.bufs()) && var_unique(self.vars())
    }

    pub fn new() -> (r: ReplState)
        ensures
            r.wf(),
            r.bufs() =~= Seq::<BufferV>::empty(),
            r.vars() =~= Seq::<(Seq<char>, Seq<char>)>::empty(),
            r.subcall_results@ =~= Seq::<SubcallResult>::empty(),
    {
        let r = ReplState { buffers: Vec::new(), variables: Vec::new(), subcall_results: Vec::new() };
        proof {
            assert(r.bufs() =~= Seq::<BufferV>::empty());
            assert(r.vars() =~= Seq::<(Seq<char>, Seq<char>)>::empty());
        }
        r
    }

    fn buf_find(&self, name: &str) -> (r: Option<usize>)
        ensures
            match r {
                Some(i) => i < self.bufs().len() && self.bufs()[i as int].name == name@,
                None => !buf_has(self.bufs(), name@),
            },
    {
        let mut i: usize = 0;
        while i < self.buffers.len()
            invariant
                i <= self.buffers@.len(),
                forall|t: int| 0 <= t < i ==> (#[trigger] self.bufs()[t]).name != name@,
            decreases self.buffers@.len() - i,
        {
            if crate::symbol::str_eq(self.buffers[i].name.as_str(), name) {
                return Some(i);
            }
            i = i + 1;
        }
        proof {
            if buf_has(self.bufs(), name@) {
                let t = buf_idx(self.bufs(), name@);
                assert(self.bufs()[t].name != name@);
            }
        }
        None
    }

    /// Store a buffer, replacing any existing buffer of the same name.
    fn buf_store(&mut self, buf: Buffer)
        requires
            old(self).wf(),
        ensures
            final(self).wf(),
            buf_has(final(self).bufs(), buf@.name),
            buf_get(final(self).bufs(), buf@.name) == buf@,
            forall|n: Seq<char>|
                n != buf@.name ==> (#[trigger] buf_has(final(self).bufs(), n) <==> buf_has(
                    old(self).bufs(),
                    n,
                )),
            forall|n: Seq<char>|
                n != buf@.name && buf_has(old(self).bufs(), n) ==> #[trigger] buf_get(
                    final(self).bufs(),
                    n,
                ) == buf_get(old(self).bufs(), n),
            final(self).vars() == old(self).vars(),
            final(self).subcall_results@ == old(self).subcall_results@,
    {
        let ghost b0 = self.bufs();
        let found = self.buf_find(buf.name.as_str());
        match found {
            Some(i) => {
                self.buffers.remove(i);
                self.buffers.insert(i, buf);
                proof {
                    let b1 = self.bufs();
                    assert(b1.len() == b0.len());
                    assert(forall|t: int| 0 <= t < b0.len() && t != i ==> b1[t] == b0[t]);
                    assert(b1[i as int].name == b0[i as int].name);
                    assert(buf_unique(b1)) by {
                        assert forall|a: int, b: int|
                            0 <= a < b < b1.len() implies (#[trigger] b1[a]).name
                            != (#[trigger] b1[b]).name by {
                            assert(b0[a].name != b0[b].name);
                        }
                    }
                    lemma_buf_get_at(b1, i as int);
                    assert forall|n: Seq<char>|
                        n != b1[i as int].name implies (#[trigger] buf_has(b1, n) <==> buf_has(
                        b0,
                        n,
                    )) by {
                        if buf_has(b1, n) {
                            let t = buf_idx(b1, n);
                            assert(b0[t].name == n);
                        }
                        if buf_has(b0, n) {
                            let t = buf_idx(b0, n);
                            assert(b1[t].name == n);
                        }
                    }
                    assert forall|n: Seq<char>|
                        n != b1[i as int].name && buf_has(b0, n) implies #[trigger] buf_get(
                        b1,
                        n,
                    ) == buf_get(b0, n) by {
                        let t = buf_idx(b0, n);
                        assert(b0[t].name == n);
                        lemma_buf_get_at(b0, t);
                        lemma_buf_get_at(b1, t);
                    }
                }
            },
            None => {
                self.buffers.push(buf);
                proof {
                    let b1 = self.bufs();
                    assert(b1 =~= b0.push(b1[b0.len() as int]));
                    assert(buf_unique(b1)) by {
                        assert forall|a: int, b: int|
                            0 <= a < b < b1.len() implies (#[trigger] b1[a]).name
                            != (#[trigger] b1[b]).name by {
                            if b == b0.len() {
                                assert(buf_has(b0, b0[a].name));
                            } else {
                                assert(b0[a].name != b0[b].name);
                            }
                        }
                    }
                    lemma_buf_get_at(b1, b0.len() as int);
                    assert forall|n: Seq<char>|
                        n != b1[b0.len() as int].name implies (#[trigger] buf_has(b1, n)
                        <==> buf_has(b0, n)) by {
                        if buf_has(b1, n) {
                            let t = buf_idx(b1, n);
                            assert(t < b0.len());
                            assert(b0[t].name == n);
                        }
                        if buf_has(b0, n) {
                            let t = buf_idx(b0, n);
                            assert(b1[t].name == n);
                        }
                    }
                    assert forall|n: Seq<char>|
                        n != b1[b0.len() as int].name && buf_has(b0, n) implies
                        #[trigger] buf_get(b1, n) == buf_get(b0, n) by {
                        let t = buf_idx(b0, n);
                        assert(b0[t].name == n);
                        lemma_buf_get_at(b0, t);
                        lemma_buf_get_at(b1, t);
                    }
                }
            },
        }
    }

    /// Create a buffer with explicit content; its source is recorded as
    /// computed with the given description.
    pub fn buffer_create(
        &mut self,
        name: &str,
        content: Vec<u8>,
        description: &str,
        now: i64,
    ) -> (r: BufferInfo)
        requires
            old(self).wf(),
        ensures
            final(self).wf(),
            buf_has(final(self).bufs(), name@),
            buf_get(final(self).bufs(), name@) == (BufferV {
                name: name@,
                content: content@,
                source: BufferSourceV::Computed { description: description@ },
                created_at: now as int,
            }),
            forall|n: Seq<char>|
                n != name@ ==> (#[trigger] buf_has(final(self).bufs(), n) <==> buf_has(
                    old(self).bufs(),
                    n,
                )),
            forall|n: Seq<char>|
                n != name@ && buf_has(old(self).bufs(), n) ==> #[trigger] buf_get(
                    final(self).bufs(),
                    n,
                ) == buf_get(old(self).bufs(), n),
            r.name@ == name@,
            r.size_bytes == content@.len(),
            final(self).vars() == old(self).vars(),
            final(self).subcall_results@ == old(self).subcall_results@,
    {
        let buf = Buffer {
            name: name.to_owned(),
            content,
            source: BufferSource::Computed { description: description.to_owned() },
            created_at: now,
        };
        let info = BufferInfo::from_buffer(&buf);
        self.buf_store(buf);
        info
    }

    /// Create a buffer from lines `[start, end)` of a file's contents,
    /// both bounds clamped; the stored content is the clamped line slice
    /// joined with newlines.
    pub fn buffer_from_file(
        &mut self,
        src: &[u8],
        name: &str,
        file: &str,
        start: usize,
        end: usize,
        now: i64,
    ) -> (r: BufferInfo)
        requires
            old(self).wf(),
        ensures
            final(self).wf(),
            buf_has(final(self).bufs(), name@),
            buf_get(final(self).bufs(), name@).content == file_slice(
                src@,
                start as int,
                end as int,
            ),
            buf_get(final(self).bufs(), name@).name == name@,
            buf_get(final(self).bufs(), name@).created_at == now,
            buf_get(final(self).bufs(), name@).source == (BufferSourceV::File {
                path: file@,
                start_line: ({
                    let nl = spec_lines(src@).len() as int;
                    let e = if end <= nl { end as int } else { nl };
                    if start <= e { start as int } else { e }
                }),
                end_line: ({
                    let nl = spec_lines(src@).len() as int;
                    if end <= nl { end as int } else { nl }
                }),
            }),
            forall|n: Seq<char>|
                n != name@ ==> (#[trigger] buf_has(final(self).bufs(), n) <==> buf_has(
                    old(self).bufs(),
                    n,
                )),
            forall|n: Seq<char>|
                n != name@ && buf_has(old(self).bufs(), n) ==> #[trigger] buf_get(
                    final(self).bufs(),
                    n,
                ) == buf_get(old(self).bufs(), n),
            r.size_bytes == file_slice(src@, start as int, end as int).len(),
            final(self).vars() == old(self).vars(),
            final(self).subcall_results@ == old(self).subcall_results@,
    {
        let pk = content::peek(src, start, end);
        let buf = Buffer {
            name: name.to_owned(),
            content: pk.content,
            source: BufferSource::File {
                path: file.to_owned(),
                start_line: pk.start_line,
                end_line: pk.end_line,
            },
            created_at: now,
        };
        let info = BufferInfo::from_buffer(&buf);
        self.buf_store(buf);
        info
    }

    /// Create a buffer holding the definition bytes of a symbol: the byte
    /// range of the symbol's record, clamped into the file.
    pub fn buffer_from_symbol(
        &mut self,
        table: &SymbolTable,
        src: &[u8],
        name: &str,
        symbol_name: &str,
        file: &str,
        now: i64,
    ) -> (r: Result<BufferInfo, ()>)
        requires
            old(self).wf(),
            table.wf(),
        ensures
            r is Ok <==> prim_has(table.prim(), (file@, symbol_name@)),
            r is Err ==> *final(self) == *old(self),
            r is Ok ==> {
                let sym = prim_get(table.prim(), (file@, symbol_name@));
                &&& final(self).wf()
                &&& buf_has(final(self).bufs(), name@)
                &&& buf_get(final(self).bufs(), name@).content == byte_slice(
                    src@,
                    sym.byte_start,
                    sym.byte_end,
                )
                &&& buf_get(final(self).bufs(), name@).source == (BufferSourceV::Symbol {
                    name: symbol_name@,
                    file: file@,
                })
                &&& buf_get(final(self).bufs(), name@).created_at == now
                &&& forall|n: Seq<char>|
                    n != name@ ==> (#[trigger] buf_has(final(self).bufs(), n) <==> buf_has(
                        old(self).bufs(),
                        n,
                    ))
            },
            final(self).vars() == old(self).vars(),
            final(self).subcall_results@ == old(self).subcall_results@,
    {
        let file_s = file.to_owned();
        let symbol_s = symbol_name.to_owned();
        let sym = match table.get(&file_s, &symbol_s) {
            Some(s) => s,
            None => {
                return Err(());
            },
        };
        let n = src.len();
        let e = if sym.byte_range.1 <= n {
            sym.byte_range.1
        } else {
            n
        };
        let s = if sym.byte_range.0 <= e {
            sym.byte_range.0
        } else {
            e
        };
        let content = content::copy_bytes(&src[s..e]);
        proof {
            assert(content@ =~= byte_slice(
                src@,
                sym@.byte_start,
                sym@.byte_end,
            ));
        }
        let buf = Buffer {
            name: name.to_owned(),
            content,
            source: BufferSource::Symbol { name: symbol_s, file: file_s },
            created_at: now,
        };
        let info = BufferInfo::from_buffer(&buf);
        self.buf_store(buf);
        Ok(info)
    }

    /// The byte slice `[start, end)` of a buffer's content, clamped.
    pub fn buffer_peek(&self, name: &str, start: usize, end: usize) -> (r: Result<Vec<u8>, ()>)
        requires
            self.wf(),
        ensures
            r is Ok <==> buf_has(self.bufs(), name@),
            r matches Ok(v) ==> v@ == byte_slice(
                buf_get(self.bufs(), name@).content,
                start as int,
                end as int,
            ),
    {
        match self.buf_find(name) {
            Some(i) => {
                proof {
                    lemma_buf_get_at(self.bufs(), i as int);
                }
                let content = &self.buffers[i].content;
                let n = content.len();
                let e = if end <= n {
                    end
                } else {
                    n
                };
                let s = if start <= e {
                    start
                } else {
                    e
                };
                let v = content::copy_bytes(&content.as_slice()[s..e]);
                proof {
                    assert(v@ =~= byte_slice(
                        buf_get(self.bufs(), name@).content,
                        start as int,
                        end as int,
                    ));
                }
                Ok(v)
            },
            None => Err(()),
        }
    }

    /// Metadata for one buffer.
    pub fn buffer_info(&self, name: &str) -> (r: Result<BufferInfo, ()>)
        requires
            self.wf(),
        ensures
            r is Ok <==> buf_has(self.bufs(), name@),
            r matches Ok(info) ==> info.name@ == name@ && info.size_bytes == buf_get(
                self.bufs(),
                name@,
            ).content.len(),
    {
        match self.buf_find(name) {
            Some(i) => {
                proof {
                    lemma_buf_get_at(self.bufs(), i as int);
                }
                Ok(BufferInfo::from_buffer(&self.buffers[i]))
            },
            None => Err(()),
        }
    }

    /// Metadata for every buffer, in store order.
    pub fn buffer_list(&self) -> (r: Vec<BufferInfo>)
        ensures
            r@.len() == self.bufs().len(),
            forall|t: int|
                0 <= t < r@.len() ==> (#[trigger] r@[t]).name@ == self.bufs()[t].name && r@[
                t].size_bytes == self.bufs()[t].content.len(),
    {
        let mut out: Vec<BufferInfo> = Vec::new();
        let mut i: usize = 0;
        while i < self.buffers.len()
            invariant
                i <= self.buffers@.len(),
                out@.len() == i,
                forall|t: int|
                    0 <= t < i ==> (#[trigger] out@[t]).name@ == self.bufs()[t].name && out@[
                    t].size_bytes == self.bufs()[t].content.len(),
            decreases self.buffers@.len() - i,
        {
            let ghost o0 = out@;
            out.push(BufferInfo::from_buffer(&self.buffers[i]));
            proof {
                assert(forall|t: int| 0 <= t < o0.len() ==> out@[t] == o0[t]);
            }
            i = i + 1;
        }
        out
    }

    /// Delete a buffer; reports whether it existed.
    pub fn buffer_delete(&mut self, name: &str) -> (r: bool)
        requires
            old(self).wf(),
        ensures
            final(self).wf(),
            r == buf_has(old(self).bufs(), name@),
            !buf_has(final(self).bufs(), name@),
            forall|n: Seq<char>|
                n != name@ ==> (#[trigger] buf_has(final(self).bufs(), n) <==> buf_has(
                    old(self).bufs(),
                    n,
                )),
            forall|n: Seq<char>|
                n != name@ && buf_has(old(self).bufs(), n) ==> #[trigger] buf_get(
                    final(self).bufs(),
                    n,
                ) == buf_get(old(self).bufs(), n),
            final(self).vars() == old(self).vars(),
            final(self).subcall_results@ == old(self).subcall_results@,
    {
        let ghost b0 = self.bufs();
        match self.buf_find(name) {
            Some(i) => {
                self.buffers.remove(i);
                proof {
                    let b1 = self.bufs();
                    assert(b1 =~= b0.remove(i as int));
                    assert(forall|t: int| 0 <= t < i ==> b1[t] == b0[t]);
                    assert(forall|t: int| i <= t < b1.len() ==> b1[t] == b0[t + 1]);
                    assert(buf_unique(b1)) by {
                        assert forall|a: int, b: int|
                            0 <= a < b < b1.len() implies (#[trigger] b1[a]).name
                            != (#[trigger] b1[b]).name by {
                            let a0: int = if a < i { a } else { a + 1 };
                            let b2: int = if b < i { b } else { b + 1 };
                            assert(b0[a0].name != b0[b2].name);
                        }
                    }
                    assert(!buf_has(b1, name@)) by {
                        if buf_has(b1, name@) {
                            let t = buf_idx(b1, name@);
                            let t0: int = if t < i { t } else { t + 1 };
                            assert(b0[t0].name == name@);
                            assert(t0 != i);
                            assert(b0[t0].name != b0[i as int].name);
                        }
                    }
                    assert forall|n: Seq<char>|
                        n != name@ implies (#[trigger] buf_has(b1, n) <==> buf_has(
                        b0,
                        n,
                    )) by {
                        if buf_has(b1, n) {
                            let t = buf_idx(b1, n);
                            let t0: int = if t < i { t } else { t + 1 };
                            assert(b0[t0].name == n);
                        }
                        if buf_has(b0, n) {
                            let t = buf_idx(b0, n);
                            assert(t != i);
                            let t1: int = if t < i { t } else { t - 1 };
                            assert(b1[t1].name == n);
                        }
                    }
                    assert forall|n: Seq<char>|
                        n != name@ && buf_has(b0, n) implies #[trigger] buf_get(b1, n)
                        == buf_get(b0, n) by {
                        let t = buf_idx(b0, n);
                        assert(b0[t].name == n);
                        assert(t != i);
                        let t1: int = if t < i { t } else { t - 1 };
                        assert(b1[t1] == b0[t]);
                        assert(b1[t1].name == n);
                        lemma_buf_get_at(b0, t);
                        lemma_buf_get_at(b1, t1);
                    }
                }
                true
            },
            None => false,
        }
    }

    fn var_find(&self, name: &str) -> (r: Option<usize>)
        ensures
            match r {
                Some(i) => i < self.vars().len() && self.vars()[i as int].0 == name@,
                None => !var_has(self.vars(), name@),
            },
    {
        let mut i: usize = 0;
        while i < self.variables.len()
            invariant
                i <= self.variables@.len(),
                forall|t: int| 0 <= t < i ==> (#[trigger] self.vars()[t]).0 != name@,
            decreases self.variables@.len() - i,
        {
            if crate::symbol::str_eq(self.variables[i].name.as_str(), name) {
                return Some(i);
            }
            i = i + 1;
        }
        proof {
            if var_has(self.vars(), name@) {
                let t = var_idx(self.vars(), name@);
                assert(self.vars()[t].0 != name@);
            }
        }
        None
    }

    /// Set a variable to the serialized text of its value, replacing any
    /// prior binding of the same name.
    pub fn var_set(&mut self, name: &str, value: String)
        requires
            old(self).wf(),
        ensures
            final(self).wf(),
            var_has(final(self).vars(), name@),
            var_get(final(self).vars(), name@) == value@,
            forall|n: Seq<char>|
                n != name@ ==> (#[trigger] var_has(final(self).vars(), n) <==> var_has(
                    old(self).vars(),
                    n,
                )),
            forall|n: Seq<char>|
                n != name@ && var_has(old(self).vars(), n) ==> #[trigger] var_get(
                    final(self).vars(),
                    n,
                ) == var_get(old(self).vars(), n),
            final(self).bufs() == old(self).bufs(),
            final(self).subcall_results@ == old(self).subcall_results@,
    {
        let ghost v0 = self.vars();
        let entry = VarEntry { name: name.to_owned(), value };
        match self.var_find(name) {
            Some(i) => {
                self.variables.remove(i);
                self.variables.insert(i, entry);
                proof {
                    let v1 = self.vars();
                    assert(v1.len() == v0.len());
                    assert(forall|t: int| 0 <= t < v0.len() && t != i ==> v1[t] == v0[t]);
                    assert(v1[i as int].0 == v0[i as int].0);
                    assert(var_unique(v1)) by {
                        assert forall|a: int, b: int|
                            0 <= a < b < v1.len() implies (#[trigger] v1[a]).0
                            != (#[trigger] v1[b]).0 by {
                            assert(v0[a].0 != v0[b].0);
                        }
                    }
                    lemma_var_get_at(v1, i as int);
                    assert forall|n: Seq<char>|
                        n != name@ implies (#[trigger] var_has(v1, n) <==> var_has(
                        v0,
                        n,
                    )) by {
                        if var_has(v1, n) {
                            let t = var_idx(v1, n);
                            assert(v0[t].0 == n);
                        }
                        if var_has(v0, n) {
                            let t = var_idx(v0, n);
                            assert(v1[t].0 == n);
                        }
                    }
                    assert forall|n: Seq<char>|
                        n != name@ && var_has(v0, n) implies #[trigger] var_get(v1, n)
                        == var_get(v0, n) by {
                        let t = var_idx(v0, n);
                        assert(v0[t].0 == n);
                        lemma_var_get_at(v0, t);
                        lemma_var_get_at(v1, t);
                    }
                }
            },
            None => {
                self.variables.push(entry);
                proof {
                    let v1 = self.vars();
                    assert(v1 =~= v0.push((name@, v1[v0.len() as int].1)));
                    assert(var_unique(v1)) by {
                        assert forall|a: int, b: int|
                            0 <= a < b < v1.len() implies (#[trigger] v1[a]).0
                            != (#[trigger] v1[b]).0 by {
                            if b == v0.len() {
                                assert(var_has(v0, v0[a].0));
                            } else {
                                assert(v0[a].0 != v0[b].0);
                            }
                        }
                    }
                    lemma_var_get_at(v1, v0.len() as int);
                    assert forall|n: Seq<char>|
                        n != name@ implies (#[trigger] var_has(v1, n) <==> var_has(
                        v0,
                        n,
                    )) by {
                        if var_has(v1, n) {
                            let t = var_idx(v1, n);
                            assert(t < v0.len());
                            assert(v0[t].0 == n);
                        }
                        if var_has(v0, n) {
                            let t = var_idx(v0, n);
                            assert(v1[t].0 == n);
                        }
                    }
                    assert forall|n: Seq<char>|
                        n != name@ && var_has(v0, n) implies #[trigger] var_get(v1, n)
                        == var_get(v0, n) by {
                        let t = var_idx(v0, n);
                        assert(v0[t].0 == n);
                        lemma_var_get_at(v0, t);
                        lemma_var_get_at(v1, t);
                    }
                }
            },
        }
    }

    /// The serialized value of a variable.
    pub fn var_get_text(&self, name: &str) -> (r: Result<String, ()>)
        requires
            self.wf(),
        ensures
            r is Ok <==> var_has(self.vars(), name@),
            r matches Ok(v) ==> v@ == var_get(self.vars(), name@),
    {
        match self.var_find(name) {
            Some(i) => {
                proof {
                    lemma_var_get_at(self.vars(), i as int);
                }
                Ok(self.variables[i].value.clone())
            },
            None => Err(()),
        }
    }

    /// All variables as (name, serialized value) pairs, in store order.
    pub fn var_list(&self) -> (r: Vec<(String, String)>)
        ensures
            r@.map_values(|p: (String, String)| (p.0@, p.1@)) == self.vars(),
    {
        let mut out: Vec<(String, String)> = Vec::new();
        let mut i: usize = 0;
        proof {
            assert(out@.map_values(|p: (String, String)| (p.0@, p.1@)) =~= self.vars().take(
                0,
            ));
        }
        while i < self.variables.len()
            invariant
                i <= self.variables@.len(),
                out@.map_values(|p: (String, String)| (p.0@, p.1@)) =~= self.vars().take(
                    i as int,
                ),
            decreases self.variables@.len() - i,
        {
            let ghost o0 = out@;
            out.push((self.variables[i].name.clone(), self.variables[i].value.clone()));
            proof {
                let f = |p: (String, String)| (p.0@, p.1@);
                assert(out@.map_values(f) =~= o0.map_values(f).push(self.vars()[i as int]));
                assert(self.vars().take(i + 1) =~= self.vars().take(i as int).push(
                    self.vars()[i as int],
                ));
            }
            i = i + 1;
        }
        proof {
            assert(self.vars().take(self.variables@.len() as int) =~= self.vars());
        }
        out
    }

    /// Delete a variable; reports whether it existed.
    pub fn var_delete(&mut self, name: &str) -> (r: bool)
        requires
            old(self).wf(),
        ensures
            final(self).wf(),
            r == var_has(old(self).vars(), name@),
            !var_has(final(self).vars(), name@),
            forall|n: Seq<char>|
                n != name@ ==> (#[trigger] var_has(final(self).vars(), n) <==> var_has(
                    old(self).vars(),
                    n,
                )),
    {
        let ghost v0 = self.vars();
        match self.var_find(name) {
            Some(i) => {
                self.variables.remove(i);
                proof {
                    let v1 = self.vars();
                    assert(v1 =~= v0.remove(i as int));
                    assert(forall|t: int| 0 <= t < i ==> v1[t] == v0[t]);
                    assert(forall|t: int| i <= t < v1.len() ==> v1[t] == v0[t + 1]);
                    assert(var_unique(v1)) by {
                        assert forall|a: int, b: int|
                            0 <= a < b < v1.len() implies (#[trigger] v1[a]).0
                            != (#[trigger] v1[b]).0 by {
                            let a0: int = if a < i { a } else { a + 1 };
                            let b2: int = if b < i { b } else { b + 1 };
                            assert(v0[a0].0 != v0[b2].0);
                        }
                    }
                    assert(!var_has(v1, name@)) by {
                        if var_has(v1, name@) {
                            let t = var_idx(v1, name@);
                            let t0: int = if t < i { t } else { t + 1 };
                            assert(v0[t0].0 == name@);
                            assert(t0 != i);
                            assert(v0[t0].0 != v0[i as int].0);
                        }
                    }
                    assert forall|n: Seq<char>|
                        n != name@ implies (#[trigger] var_has(v1, n) <==> var_has(
                        v0,
                        n,
                    )) by {
                        if var_has(v1, n) {
                            let t = var_idx(v1, n);
                            let t0: int = if t < i { t } else { t + 1 };
                            assert(v0[t0].0 == n);
                        }
                        if var_has(v0, n) {
                            let t = var_idx(v0, n);
                            assert(t != i);
                            let t1: int = if t < i { t } else { t - 1 };
                            assert(v1[t1].0 == n);
                        }
                    }
                }
                true
            },
            None => false,
        }
    }

    /// The value of the reserved `Final` variable, when set.
    pub fn check_final(&self) -> (r: Option<String>)
        requires
            self.wf(),
        ensures
            r is Some <==> var_has(self.vars(), "Final"@),
            r matches Some(v) ==> v@ == var_get(self.vars(), "Final"@),
    {
        match self.var_get_text("Final") {
            Ok(v) => Some(v),
            Err(()) => None,
        }
    }

    /// Append a subcall result; earlier entries are untouched.
    pub fn add_subcall_result(&mut self, result: SubcallResult)
        ensures
            final(self).subcall_results@ == old(self).subcall_results@.push(result),
            final(self).bufs() == old(self).bufs(),
            final(self).vars() == old(self).vars(),
            final(self).wf() == old(self).wf(),
    {
        self.subcall_results.push(result);
    }

    /// A snapshot of all subcall results, oldest first: one record per
    /// stored result with the same values, and the stored list untouched.
    pub fn list_subcall_results(&self) -> (r: Vec<SubcallResult>)
        ensures
            r@.len() == self.subcall_results@.len(),
            forall|t: int|
                0 <= t < r@.len() ==> sub_matches(
                    #[trigger] r@[t],
                    self.subcall_results@[t],
                ),
    {
        let mut out: Vec<SubcallResult> = Vec::new();
        let mut i: usize = 0;
        while i < self.subcall_results.len()
            invariant
                i <= self.subcall_results@.len(),
                out@.len() == i,
                forall|t: int|
                    0 <= t < i ==> sub_matches(
                        #[trigger] out@[t],
                        self.subcall_results@[t],
                    ),
            decreases self.subcall_results@.len() - i,
        {
            let ghost o0 = out@;
            out.push(self.subcall_results[i].clone());
            proof {
                assert(forall|t: int| 0 <= t < o0.len() ==> out@[t] == o0[t]);
            }
            i = i + 1;
        }
        out
    }

    /// Drop all subcall results.
    pub fn clear_subcall_results(&mut self)
        ensures
            final(self).subcall_results@.len() == 0,
            final(self).bufs() == old(self).bufs(),
            final(self).vars() == old(self).vars(),
            final(self).wf() == old(self).wf(),
    {
        self.subcall_results.clear();
    }
}

/// Total bytes held in buffer contents.
pub open spec fn buffer_bytes_of(bs: Seq<BufferV>) -> int
    decreases bs.len(),
{
    if bs.len() == 0 {
        0
    } else {
        buffer_bytes_of(bs.drop_last()) + bs.last().content.len()
    }
}

/// Total bytes held in serialized variable values, counted in their
/// UTF-8 encoding.
pub open spec fn var_bytes_of(vs: Seq<(Seq<char>, Seq<char>)>) -> int
    decreases vs.len(),
{
    if vs.len() == 0 {
        0
    } else {
        var_bytes_of(vs.drop_last()) + (vstd::utf8::encode_utf8(vs.last().1).len() as usize)
    }
}

/// Aggregate size of a session's scratch state, and a rough token count.
pub struct ContextBudget {
    pub buffer_count: usize,
    pub buffer_bytes: u64,
    pub variable_count: usize,
    pub variable_bytes: u64,
    pub subcall_count: usize,
    pub total_bytes: u64,
    pub estimated_tokens: u64,
}

impl ReplState {
    /// Sizes of everything the session holds; the token estimate divides
    /// total bytes by four. Sums saturate at the integer limit.
    pub fn context_budget(&self) -> (r: ContextBudget)
        ensures
            r.buffer_count == self.bufs().len(),
            r.variable_count == self.vars().len(),
            r.subcall_count == self.subcall_results@.len(),
            buffer_bytes_of(self.bufs()) <= u64::MAX ==> r.buffer_bytes == buffer_bytes_of(
                self.bufs(),
            ),
            var_bytes_of(self.vars()) <= u64::MAX ==> r.variable_bytes == var_bytes_of(
                self.vars(),
            ),
            r.buffer_bytes <= u64::MAX - r.variable_bytes ==> r.total_bytes == r.buffer_bytes
                + r.variable_bytes,
            r.estimated_tokens == r.total_bytes / 4,
    {
        let mut buffer_bytes: u64 = 0;
        let mut i: usize = 0;
        while i < self.buffers.len()
            invariant
                i <= self.buffers@.len(),
                buffer_bytes_of(self.bufs().take(i as int)) <= u64::MAX ==> buffer_bytes
                    == buffer_bytes_of(self.bufs().take(i as int)),
                buffer_bytes <= buffer_bytes_of(self.bufs().take(i as int)),
                0 <= buffer_bytes_of(self.bufs().take(i as int)),
            decreases self.buffers@.len() - i,
        {
            proof {
                assert(self.bufs().take(i + 1).drop_last() =~= self.bufs().take(i as int));
                assert(self.bufs().take(i + 1).last() == self.bufs()[i as int]);
            }
            let sz = self.buffers[i].content.len() as u64;
            if buffer_bytes <= u64::MAX - sz {
                buffer_bytes = buffer_bytes + sz;
            } else {
                buffer_bytes = u64::MAX;
            }
            i = i + 1;
        }
        proof {
            assert(self.bufs().take(self.buffers@.len() as int) =~= self.bufs());
        }
        let mut variable_bytes: u64 = 0;
        let mut j: usize = 0;
        while j < self.variables.len()
            invariant
                j <= self.variables@.len(),
                var_bytes_of(self.vars().take(j as int)) <= u64::MAX ==> variable_bytes
                    == var_bytes_of(self.vars().take(j as int)),
                variable_bytes <= var_bytes_of(self.vars().take(j as int)),
                0 <= var_bytes_of(self.vars().take(j as int)),
            decreases self.variables@.len() - j,
        {
            proof {
                assert(self.vars().take(j + 1).drop_last() =~= self.vars().take(j as int));
                assert(self.vars().take(j + 1).last() == self.vars()[j as int]);
            }
            let sz = self.variables[j].value.as_str().len() as u64;
            if variable_bytes <= u64::MAX - sz {
                variable_bytes = variable_bytes + sz;
            } else {
                variable_bytes = u64::MAX;
            }
            j = j + 1;
        }
        proof {
            assert(self.vars().take(self.variables@.len() as int) =~= self.vars());
        }
        let total_bytes = if buffer_bytes <= u64::MAX - variable_bytes {
            buffer_bytes + variable_bytes
        } else {
            u64::MAX
        };
        ContextBudget {
            buffer_count: self.buffers.len(),
            buffer_bytes,
            variable_count: self.variables.len(),
            variable_bytes,
            subcall_count: self.subcall_results.len(),
            total_bytes,
            estimated_tokens: total_bytes / 4,
        }
    }
}

/// Law: loading a buffer from a file and then peeking its whole content
/// returns exactly the clamped line slice of the file, joined with
/// newlines.
pub proof fn lemma_file_buffer_peek(
    repl: ReplState,
    src: Seq<u8>,
    name: Seq<char>,
    start: int,
    end: int,
    peek_end: int,
)
    requires
        buf_has(repl.bufs(), name),
        buf_get(repl.bufs(), name).content == file_slice(src, start, end),
        peek_end >= buf_get(repl.bufs(), name).content.len(),
    ensures
        byte_slice(buf_get(repl.bufs(), name).content, 0, peek_end) == file_slice(
            src,
            start,
            end,
        ),
{
    let c = buf_get(repl.bufs(), name).content;
    assert(byte_slice(c, 0, peek_end) =~= c);
}

} // verus!
