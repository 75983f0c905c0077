//! Chunking of file contents: semantic chunks aligned to symbol
//! boundaries under a byte budget, and the plain byte-window fallback used
//! when a file has no symbols.
//!
//! Chunk ranges are contiguous and cover the file from start to end; every
//! cut made by the fallback lands on a UTF-8 character boundary or just
//! after a newline.

use vstd::prelude::*;
use vstd::multiset::Multiset;
use crate::symbol::{Symbol, SymbolV};
use crate::symtab::{prim_get, prim_has, strviews, sviews, SymbolTable};
use crate::text;
use crate::text::{ceil_spec, cut_ok, floor_spec, line_count, nl_break, NL};

verus! {

/// The byte `'.'`, used to mark a truncated preview.
pub const DOT: u8 = 46;

/// One chunk of a file: a contiguous byte range, its 0-indexed line span,
/// the names of the symbols it covers, and a bounded preview of its bytes.
pub struct SemanticChunk {
    pub index: usize,
    pub byte_start: usize,
    pub byte_end: usize,
    pub line_start: usize,
    pub line_end: usize,
    pub symbols: Vec<String>,
    pub preview: Vec<u8>,
}

pub struct ChunkV {
    pub index: int,
    pub byte_start: int,
    pub byte_end: int,
    pub line_start: int,
    pub line_end: int,
    pub symbols: Seq<Seq<char>>,
    pub preview: Seq<u8>,
}

impl View for SemanticChunk {
    type V = ChunkV;

    open spec fn view(&self) -> ChunkV {
        ChunkV {
            index: self.index as int,
            byte_start: self.byte_start as int,
            byte_end: self.byte_end as int,
            line_start: self.line_start as int,
            line_end: self.line_end as int,
            symbols: strviews(self.symbols@),
            preview: self.preview@,
        }
    }
}

/// The preview of a chunk's bytes: the whole chunk when it is short, else
/// the first 200 bytes clamped back to a character cut and an ellipsis.
pub open spec fn preview_of(chunk: Seq<u8>) -> Seq<u8> {
    if chunk.len() > 200 {
        chunk.take(floor_spec(chunk, 200)) + seq![DOT, DOT, DOT]
    } else {
        chunk
    }
}

/// A chunk is well formed for `src` when its range lies inside the file
/// and is non-empty, and its line numbers and preview are derived from
/// that range as specified.
#[verifier::opaque]
pub open spec fn chunk_wf(c: ChunkV, src: Seq<u8>) -> bool {
    &&& 0 <= c.byte_start < c.byte_end <= src.len()
    &&& c.line_start == line_count(src.take(c.byte_start))
    &&& c.line_end == line_count(src.take(c.byte_end))
    &&& c.preview == preview_of(src.subrange(c.byte_start, c.byte_end))
}

/// The chunk list is contiguous: it starts at byte 0, each chunk starts
/// where the previous one ended, and the last chunk ends at the end of the
/// file.
pub open spec fn chunks_contiguous(cs: Seq<ChunkV>, src: Seq<u8>) -> bool {
    &&& (cs.len() > 0 <==> src.len() > 0)
    &&& (cs.len() > 0 ==> cs[0].byte_start == 0 && cs[cs.len() - 1].byte_end == src.len())
    &&& forall|t: int| 0 < t < cs.len() ==> (#[trigger] cs[t]).byte_start == cs[t - 1].byte_end
}

/// Build the record for the chunk `[byte_start, byte_end)` of `source`.
pub fn make_chunk(
    source: &[u8],
    index: usize,
    byte_start: usize,
    byte_end: usize,
    symbols: Vec<String>,
) -> (r: SemanticChunk)
    requires
        byte_start <= byte_end <= source@.len(),
    ensures
        r@.index == index,
        r@.byte_start == byte_start,
        r@.byte_end == byte_end,
        r@.line_start == line_count(source@.take(byte_start as int)),
        r@.line_end == line_count(source@.take(byte_end as int)),
        r@.symbols == strviews(symbols@),
        r@.preview == preview_of(source@.subrange(byte_start as int, byte_end as int)),
        byte_start < byte_end ==> chunk_wf(r@, source@),
{
    let line_start = text::count_lines_upto(source, byte_start);
    let line_end = text::count_lines_upto(source, byte_end);
    let chunk = &source[byte_start..byte_end];
    let mut preview: Vec<u8> = Vec::new();
    if chunk.len() > 200 {
        let t = text::floor_cut(chunk, 200);
        preview.extend_from_slice(&chunk[0..t]);
        preview.push(DOT);
        preview.push(DOT);
        preview.push(DOT);
        proof {
            assert(chunk@.subrange(0, t as int) =~= chunk@.take(t as int));
            assert(preview@ =~= chunk@.take(t as int) + seq![DOT, DOT, DOT]);
        }
    } else {
        preview.extend_from_slice(chunk);
        proof {
            assert(preview@ =~= chunk@);
        }
    }
    let r = SemanticChunk { index, byte_start, byte_end, line_start, line_end, symbols, preview };
    proof {
        reveal(chunk_wf);
    }
    r
}

/// Where one fallback window ends: the byte budget cut pulled back to a
/// character cut, then back to just after the last newline inside the
/// window when one exists; a window that could not fit a whole character
/// is extended to the next character cut instead.
pub open spec fn simple_end(src: Seq<u8>, start: int, max: int) -> int {
    let n = src.len() as int;
    let cap = if max > n - start {
        n
    } else {
        start + max
    };
    let e0 = floor_spec(src, cap);
    let e1 = if e0 < n && e0 > start {
        let nb = nl_break(src, start, e0);
        if nb > start {
            nb
        } else {
            e0
        }
    } else {
        e0
    };
    if e1 <= start {
        ceil_spec(src, start + 1)
    } else {
        e1
    }
}

/// Fixed-budget chunks for a file with no symbols: each window is cut at
/// the byte budget, pulled back to the last newline when one exists inside
/// the window, and never splits a UTF-8 character; a window that could not
/// fit a whole character is extended to the next character cut instead.
/// Each window's end is exactly `simple_end` of its start, and on valid
/// UTF-8 with a budget of at least four bytes (room for any single
/// character) no window exceeds the budget.
#[verifier::rlimit(60)]
pub fn simple_chunks(source: &[u8], max_chunk_bytes: usize) -> (r: Vec<SemanticChunk>)
    ensures
        chunks_contiguous(r@.map_values(|c: SemanticChunk| c@), source@),
        forall|t: int| 0 <= t < r@.len() ==> chunk_wf((#[trigger] r@[t])@, source@),
        forall|t: int| 0 <= t < r@.len() ==> (#[trigger] r@[t])@.index == t,
        forall|t: int| 0 <= t < r@.len() ==> (#[trigger] r@[t])@.symbols =~= Seq::<Seq<char>>::empty(),
        forall|t: int|
            0 <= t < r@.len() ==> cut_ok(source@, (#[trigger] r@[t])@.byte_end)
                || source@[(r@[t])@.byte_end - 1] == NL,
        forall|t: int|
            0 <= t < r@.len() ==> (#[trigger] r@[t])@.byte_end == simple_end(
                source@,
                r@[t]@.byte_start,
                max_chunk_bytes as int,
            ),
        vstd::utf8::valid_utf8(source@) && max_chunk_bytes >= 4 ==> forall|t: int|
            0 <= t < r@.len() ==> (#[trigger] r@[t])@.byte_end - r@[t]@.byte_start
                <= max_chunk_bytes,
{
    let n = source.len();
    let mut out: Vec<SemanticChunk> = Vec::new();
    let mut start: usize = 0;
    proof {
        if vstd::utf8::valid_utf8(source@) {
            vstd::utf8::is_char_boundary_start_end_of_seq(source@);
        }
    }
    while start < n
        invariant
            start <= n == source@.len(),
            out@.len() <= start,
            out@.len() > 0 ==> out@[out@.len() - 1]@.byte_end == start,
            out@.len() > 0 ==> out@[0]@.byte_start == 0,
            out@.len() == 0 ==> start == 0,
            vstd::utf8::valid_utf8(source@) && max_chunk_bytes >= 4
                ==> vstd::utf8::is_char_boundary(source@, start as int),
            forall|t: int|
                0 < t < out@.len() ==> (#[trigger] out@[t])@.byte_start == out@[t
                    - 1]@.byte_end,
            forall|t: int| 0 <= t < out@.len() ==> chunk_wf((#[trigger] out@[t])@, source@),
            forall|t: int| 0 <= t < out@.len() ==> (#[trigger] out@[t])@.index == t,
            forall|t: int|
                0 <= t < out@.len() ==> (#[trigger] out@[t])@.symbols =~= Seq::<
                    Seq<char>,
                >::empty(),
            forall|t: int|
                0 <= t < out@.len() ==> cut_ok(source@, (#[trigger] out@[t])@.byte_end)
                    || source@[(out@[t])@.byte_end - 1] == NL,
            forall|t: int|
                0 <= t < out@.len() ==> (#[trigger] out@[t])@.byte_end == simple_end(
                    source@,
                    out@[t]@.byte_start,
                    max_chunk_bytes as int,
                ),
            vstd::utf8::valid_utf8(source@) && max_chunk_bytes >= 4 ==> forall|t: int|
                0 <= t < out@.len() ==> (#[trigger] out@[t])@.byte_end
                    - out@[t]@.byte_start <= max_chunk_bytes,
        decreases n - start,
    {
        let cap = if max_chunk_bytes > n - start {
            n
        } else {
            start + max_chunk_bytes
        };
        let mut end = text::floor_cut(source, cap);
        if end < n && end > start {
            let nb = text::find_nl_break(source, start, end);
            if nb > start {
                end = nb;
            }
        }
        if end <= start {
            end = text::ceil_cut(source, start + 1);
        }
        proof {
            assert(end > start);
            assert(end <= n);
            assert(cut_ok(source@, end as int) || source@[end - 1] == NL);
            assert(end == simple_end(source@, start as int, max_chunk_bytes as int));
            if vstd::utf8::valid_utf8(source@) && max_chunk_bytes >= 4 {
                let b = text::lemma_next_boundary_within_four(source@, start as int);
                text::lemma_floor_spec_ge(source@, b, cap as int);
                assert(end - start <= max_chunk_bytes);
                if cut_ok(source@, end as int) {
                    text::lemma_cut_ok_is_char_boundary(source@, end as int);
                } else {
                    text::lemma_after_nl_is_boundary(source@, end as int);
                }
            }
        }
        let ghost o0 = out@;
        let idx = out.len();
        let c = make_chunk(source, idx, start, end, Vec::new());
        out.push(c);
        proof {
            assert(out@[out@.len() - 1]@.symbols =~= Seq::<Seq<char>>::empty());
            assert(forall|t: int| 0 <= t < o0.len() ==> out@[t] == o0[t]);
        }
        start = end;
    }
    proof {
        let cs = out@.map_values(|c: SemanticChunk| c@);
        assert(cs.len() == out@.len());
        assert(forall|t: int| 0 <= t < cs.len() ==> cs[t] == out@[t]@);
        if out@.len() > 0 {
            assert(cs[0].byte_start == 0);
            assert(cs[cs.len() - 1].byte_end == source@.len());
        }
        assert forall|t: int|
            0 < t < cs.len() implies (#[trigger] cs[t]).byte_start == cs[t - 1].byte_end by {
            assert(out@[t]@.byte_start == out@[t - 1]@.byte_end);
        }
    }
    out
}

/// Sort symbols by the start of their byte range, keeping exactly the same
/// records.
pub fn sorted_by_start(input: Vec<Symbol>) -> (r: Vec<Symbol>)
    ensures
        r@.len() == input@.len(),
        sviews(r@).to_multiset() == sviews(input@).to_multiset(),
        forall|a: int, b: int|
            0 <= a < b < r@.len() ==> (#[trigger] r@[a])@.byte_start
                <= (#[trigger] r@[b])@.byte_start,
{
    broadcast use vstd::seq_lib::group_seq_lib_default;


    let mut work = input;
    let mut out: Vec<Symbol> = Vec::new();
    proof {
        assert(sviews(out@) =~= Seq::<SymbolV>::empty());
        Seq::to_multiset_ensures(sviews(out@));
        assert(sviews(out@).to_multiset() =~= Multiset::<SymbolV>::empty());
        assert(sviews(out@).to_multiset().add(sviews(work@).to_multiset()) =~= sviews(
            work@,
        ).to_multiset());
    }
    while work.len() > 0
        invariant
            input@.len() >= 0,
            out@.len() + work@.len() == input@.len(),
            sviews(out@).to_multiset().add(sviews(work@).to_multiset()) == sviews(
                input@,
            ).to_multiset(),
            forall|a: int, b: int|
                0 <= a < b < out@.len() ==> (#[trigger] out@[a])@.byte_start
                    <= (#[trigger] out@[b])@.byte_start,
            forall|a: int, b: int|
                0 <= a < out@.len() && 0 <= b < work@.len() ==> (#[trigger] out@[a])@.byte_start
                    <= (#[trigger] work@[b])@.byte_start,
        decreases work@.len(),
    {
        proof {
            Seq::to_multiset_ensures(sviews(work@));
        }
        let mut m: usize = 0;
        let mut t: usize = 1;
        while t < work.len()
            invariant
                m < t <= work@.len(),
                forall|u: int|
                    0 <= u < t ==> (#[trigger] work@[u])@.byte_start
                        >= work@[m as int]@.byte_start,
            decreases work@.len() - t,
        {
            if work[t].byte_range.0 < work[m].byte_range.0 {
                m = t;
            }
            t = t + 1;
        }
        let ghost w0 = work@;
        let ghost o0 = out@;
        let x = work.remove(m);
        out.push(x);
        proof {
            Seq::to_multiset_ensures(sviews(w0));
            Seq::to_multiset_ensures(sviews(o0));
            assert(sviews(work@) =~= sviews(w0).remove(m as int));
            assert(sviews(out@) =~= sviews(o0).push(sviews(w0)[m as int]));
            assert(sviews(w0).remove(m as int).to_multiset() =~= sviews(w0).to_multiset()
                .remove(sviews(w0)[m as int]));
            assert(sviews(o0).push(sviews(w0)[m as int]).to_multiset() =~= sviews(
                o0,
            ).to_multiset().insert(sviews(w0)[m as int]));
            assert(sviews(out@).to_multiset().add(sviews(work@).to_multiset()) =~= sviews(
                input@,
            ).to_multiset());
            assert forall|a: int, b: int|
                0 <= a < out@.len() && 0 <= b < work@.len() implies (#[trigger] out@[
                a])@.byte_start <= (#[trigger] work@[b])@.byte_start by {
                let b0: int = if b < m { b } else { b + 1 };
                assert(work@[b] == w0[b0]);
                if a < o0.len() {
                    assert(out@[a] == o0[a]);
                } else {
                    assert(out@[a] == w0[m as int]);
                    assert(w0[b0]@.byte_start >= w0[m as int]@.byte_start);
                }
            }
        }
    }
    proof {
        Seq::to_multiset_ensures(sviews(work@));
        assert(sviews(work@) =~= Seq::<SymbolV>::empty());
        assert(sviews(work@).to_multiset().len() == 0);
        assert(sviews(work@).to_multiset() =~= Multiset::<SymbolV>::empty());
        assert(sviews(out@).to_multiset().add(Multiset::<SymbolV>::empty()) =~= sviews(
            out@,
        ).to_multiset());
    }
    out
}

/// An element of a sequence with the same multiset occurs in the other
/// sequence as well.
proof fn lemma_same_multiset_membership(a: Seq<SymbolV>, b: Seq<SymbolV>, i: int)
    requires
        a.to_multiset() == b.to_multiset(),
        0 <= i < a.len(),
    ensures
        exists|j: int| 0 <= j < b.len() && b[j] == a[i],
{
    Seq::to_multiset_ensures(a);
    Seq::to_multiset_ensures(b);
    assert(a.contains(a[i]));
    assert(a.to_multiset().count(a[i]) > 0);
    assert(b.contains(a[i]));
}

/// A value sitting at two positions counts at least twice in the
/// multiset.
proof fn lemma_multiset_dup(s: Seq<SymbolV>, a: int, b: int)
    requires
        0 <= a < b < s.len(),
        s[a] == s[b],
    ensures
        s.to_multiset().count(s[a]) >= 2,
{
    broadcast use vstd::seq_lib::group_seq_lib_default;

    Seq::to_multiset_ensures(s);
    let s2 = s.remove(a);
    Seq::to_multiset_ensures(s2);
    assert(s2.to_multiset() =~= s.to_multiset().remove(s[a]));
    assert(s2[b - 1] == s[b]);
    assert(s2.contains(s[a]));
    assert(s2.to_multiset().count(s[a]) > 0);
}

/// A value counting at least twice sits at two positions.
proof fn lemma_count_two_positions(s: Seq<SymbolV>, x: SymbolV)
    requires
        s.to_multiset().count(x) >= 2,
    ensures
        exists|a: int, b: int|
            0 <= a < b < s.len() && #[trigger] s[a] == x && #[trigger] s[b] == x,
{
    broadcast use vstd::seq_lib::group_seq_lib_default;

    Seq::to_multiset_ensures(s);
    assert(s.to_multiset().count(x) > 0);
    assert(s.contains(x));
    let a = choose|a: int| 0 <= a < s.len() && s[a] == x;
    let s2 = s.remove(a);
    Seq::to_multiset_ensures(s2);
    assert(s2.to_multiset() =~= s.to_multiset().remove(s[a]));
    assert(s2.to_multiset().count(x) > 0);
    assert(s2.contains(x));
    let b2 = choose|b2: int| 0 <= b2 < s2.len() && s2[b2] == x;
    if b2 < a {
        assert(s[b2] == x);
        assert(s[b2] == x && s[a] == x && b2 < a);
    } else {
        assert(s[b2 + 1] == x);
        assert(s[a] == x && s[b2 + 1] == x && a < b2 + 1);
    }
}

/// The chunk triples (byte range and symbol names) of a chunk list.
pub open spec fn chunk_triples(cs: Seq<SemanticChunk>) -> Seq<(int, int, Seq<Seq<char>>)> {
    cs.map_values(|c: SemanticChunk| (c@.byte_start, c@.byte_end, c@.symbols))
}

/// The chunks produced from symbols sorted by byte start, as triples of
/// byte range and carried symbol names. Symbols accumulate into the open
/// chunk; when the next symbol would push the open chunk past the budget
/// the chunk is closed at that symbol's start; a symbol larger than the
/// budget stands alone, preceded by whatever the open chunk held; the
/// remainder of the file closes the last chunk. Symbol ranges are clamped
/// into the file and never move backwards.
pub open spec fn sem_rec(
    syms: Seq<SymbolV>,
    chunk_start: int,
    cur: Seq<Seq<char>>,
    n: int,
    max: int,
) -> Seq<(int, int, Seq<Seq<char>>)>
    decreases syms.len(),
{
    if syms.len() == 0 {
        if chunk_start < n {
            seq![(chunk_start, n, cur)]
        } else {
            Seq::empty()
        }
    } else {
        let sym = syms.first();
        let rest = syms.drop_first();
        let s_start = if sym.byte_start < chunk_start {
            chunk_start
        } else if sym.byte_start > n {
            n
        } else {
            sym.byte_start
        };
        let s_end = if sym.byte_end < s_start {
            s_start
        } else if sym.byte_end > n {
            n
        } else {
            sym.byte_end
        };
        if chunk_start < s_start && s_end - chunk_start > max && cur.len() > 0 {
            if s_end > s_start && s_end - s_start > max {
                seq![(chunk_start, s_start, cur), (s_start, s_end, seq![sym.name])]
                    + sem_rec(rest, s_end, Seq::empty(), n, max)
            } else {
                seq![(chunk_start, s_start, cur)] + sem_rec(
                    rest,
                    s_start,
                    seq![sym.name],
                    n,
                    max,
                )
            }
        } else {
            if s_end > s_start && s_end - s_start > max && cur.len() == 0 {
                (if chunk_start < s_start {
                    seq![(chunk_start, s_start, Seq::<Seq<char>>::empty())]
                } else {
                    Seq::empty()
                }) + seq![(s_start, s_end, seq![sym.name])] + sem_rec(
                    rest,
                    s_end,
                    Seq::empty(),
                    n,
                    max,
                )
            } else {
                sem_rec(rest, chunk_start, cur.push(sym.name), n, max)
            }
        }
    }
}

/// Chunks for `file` aligned to its symbols: symbols accumulate into the
/// current chunk until the byte budget would be exceeded, a symbol larger
/// than the budget stands in a chunk of its own, and the remainder of the
/// file closes the last chunk. Ranges are clamped into the file and never
/// move backwards, so the chunks tile the file contiguously.
#[verifier::rlimit(60)]
pub fn semantic_chunks(
    source: &[u8],
    table: &SymbolTable,
    file: &str,
    max_chunk_bytes: usize,
) -> (r: Vec<SemanticChunk>)
    requires
        table.wf(),
    ensures
        chunks_contiguous(r@.map_values(|c: SemanticChunk| c@), source@),
        forall|t: int| 0 <= t < r@.len() ==> chunk_wf((#[trigger] r@[t])@, source@),
        forall|t: int| 0 <= t < r@.len() ==> (#[trigger] r@[t])@.index == t,
        forall|t: int, u: int|
            0 <= t < r@.len() && 0 <= u < r@[t]@.symbols.len() ==> prim_has(
                table.prim(),
                (file@, #[trigger] r@[t]@.symbols[u]),
            ),
        (exists|nm: Seq<char>| #[trigger] prim_has(table.prim(), (file@, nm))) ==> exists|
            ss: Seq<SymbolV>,
        |
            {
                &&& forall|a: int, b: int|
                    0 <= a < b < ss.len() ==> (#[trigger] ss[a]).byte_start
                        <= (#[trigger] ss[b]).byte_start
                &&& forall|k: int|
                    0 <= k < ss.len() ==> (#[trigger] ss[k]).file == file@ && prim_has(
                        table.prim(),
                        (file@, ss[k].name),
                    ) && ss[k] == prim_get(table.prim(), (file@, ss[k].name))
                &&& forall|a: int, b: int|
                    0 <= a < b < ss.len() ==> (#[trigger] ss[a]).name
                        != (#[trigger] ss[b]).name
                &&& forall|nm: Seq<char>|
                    prim_has(table.prim(), (file@, nm)) ==> exists|k: int|
                        0 <= k < ss.len() && (#[trigger] ss[k]).name == nm
                &&& chunk_triples(r@) == sem_rec(
                    ss,
                    0,
                    Seq::empty(),
                    source@.len() as int,
                    max_chunk_bytes as int,
                )
            },
        (forall|nm: Seq<char>| !(#[trigger] prim_has(table.prim(), (file@, nm)))) ==> forall|
            t: int,
        |
            0 <= t < r@.len() ==> (#[trigger] r@[t])@.byte_end == simple_end(
                source@,
                r@[t]@.byte_start,
                max_chunk_bytes as int,
            ) && r@[t]@.symbols.len() == 0,
{
    let listed = table.list_by_file(file);
    let ghost lv0 = sviews(listed@);
    let syms = sorted_by_start(listed);
    let ghost p = table.prim();
    if syms.len() == 0 {
        let r0 = simple_chunks(source, max_chunk_bytes);
        proof {
            assert forall|nm: Seq<char>|
                !(#[trigger] prim_has(p, (file@, nm))) by {
                if prim_has(p, (file@, nm)) {
                    let k = choose|k: int|
                        0 <= k < lv0.len() && (#[trigger] lv0[k]).name == nm;
                    assert(lv0.len() > 0);
                }
            }
        }
        return r0;
    }
    let ghost ssv = sviews(syms@);
    proof {
        assert forall|k: int|
            0 <= k < ssv.len() implies (#[trigger] ssv[k]).file == file@ && prim_has(
            p,
            (file@, ssv[k].name),
        ) && ssv[k] == prim_get(p, (file@, ssv[k].name)) by {
            lemma_same_multiset_membership(ssv, lv0, k);
            let j = choose|j: int| 0 <= j < lv0.len() && lv0[j] == ssv[k];
            assert(lv0[j].file == file@);
            assert(prim_has(p, (file@, lv0[j].name)));
            assert(lv0[j] == prim_get(p, (file@, lv0[j].name)));
        }
        assert forall|a: int, b: int|
            0 <= a < b < ssv.len() implies (#[trigger] ssv[a]).name
            != (#[trigger] ssv[b]).name by {
            if ssv[a].name == ssv[b].name {
                if ssv[a] == ssv[b] {
                    lemma_multiset_dup(ssv, a, b);
                    assert(lv0.to_multiset().count(ssv[a]) >= 2);
                    lemma_count_two_positions(lv0, ssv[a]);
                    let (u, v) = choose|u: int, v: int|
                        0 <= u < v < lv0.len() && #[trigger] lv0[u] == ssv[a]
                            && #[trigger] lv0[v] == ssv[a];
                    assert(lv0[u].name != lv0[v].name);
                } else {
                    lemma_same_multiset_membership(ssv, lv0, a);
                    lemma_same_multiset_membership(ssv, lv0, b);
                    let u = choose|u: int| 0 <= u < lv0.len() && lv0[u] == ssv[a];
                    let v = choose|v: int| 0 <= v < lv0.len() && lv0[v] == ssv[b];
                    assert(u != v);
                    if u < v {
                        assert(lv0[u].name != lv0[v].name);
                    } else {
                        assert(lv0[v].name != lv0[u].name);
                    }
                }
            }
        }
        assert forall|nm: Seq<char>|
            prim_has(p, (file@, nm)) implies exists|k: int|
                0 <= k < ssv.len() && (#[trigger] ssv[k]).name == nm by {
            let j = choose|j: int| 0 <= j < lv0.len() && (#[trigger] lv0[j]).name == nm;
            lemma_same_multiset_membership(lv0, ssv, j);
            let k = choose|k: int| 0 <= k < ssv.len() && ssv[k] == lv0[j];
            assert(ssv[k].name == nm);
        }
    }
    let out = semantic_chunks_of(source, &syms, max_chunk_bytes);
    proof {
        assert forall|t: int, u: int|
            0 <= t < out@.len() && 0 <= u < out@[t]@.symbols.len() implies prim_has(
            p,
            (file@, #[trigger] out@[t]@.symbols[u]),
        ) by {
            let k = choose|k: int|
                0 <= k < ssv.len() && ssv[k].name == #[trigger] out@[t]@.symbols[u];
            assert(prim_has(p, (file@, ssv[k].name)));
        }
        assert(prim_has(p, (file@, ssv[0].name)));
    }
    out
}

/// Chunks for a file from its symbols, which must be sorted by byte
/// start: the resulting byte ranges and symbol lists are exactly
/// `sem_rec` of the symbol records, so symbols accumulate into chunks up
/// to the byte budget, an oversize symbol stands alone, and the chunks
/// tile the file contiguously.
#[verifier::rlimit(60)]
pub fn semantic_chunks_of(source: &[u8], syms: &Vec<Symbol>, max_chunk_bytes: usize) -> (r: Vec<
    SemanticChunk,
>)
    requires
        syms@.len() > 0,
    ensures
        chunks_contiguous(r@.map_values(|c: SemanticChunk| c@), source@),
        forall|t: int| 0 <= t < r@.len() ==> chunk_wf((#[trigger] r@[t])@, source@),
        forall|t: int| 0 <= t < r@.len() ==> (#[trigger] r@[t])@.index == t,
        chunk_triples(r@) == sem_rec(
            sviews(syms@),
            0,
            Seq::empty(),
            source@.len() as int,
            max_chunk_bytes as int,
        ),
        forall|t: int, u: int|
            0 <= t < r@.len() && 0 <= u < r@[t]@.symbols.len() ==> exists|k: int|
                0 <= k < syms@.len() && sviews(syms@)[k].name == #[trigger] r@[
                t]@.symbols[u],
{
    let ghost ssv = sviews(syms@);
    let n = source.len();
    let ghost gmax = max_chunk_bytes as int;
    let mut out: Vec<SemanticChunk> = Vec::new();
    let mut chunk_start: usize = 0;
    let mut chunk_syms: Vec<String> = Vec::new();
    let mut i: usize = 0;
    proof {
        assert(ssv.skip(0) =~= ssv);
        assert(chunk_triples(out@) =~= Seq::<(int, int, Seq<Seq<char>>)>::empty());
        assert(strviews(chunk_syms@) =~= Seq::<Seq<char>>::empty());
        assert(Seq::<(int, int, Seq<Seq<char>>)>::empty() + sem_rec(
            ssv,
            0,
            Seq::empty(),
            n as int,
            gmax,
        ) =~= sem_rec(ssv, 0, Seq::empty(), n as int, gmax));
    }
    while i < syms.len()
        invariant
            i <= syms@.len(),
            chunk_start <= n == source@.len(),
            ssv == sviews(syms@),
            gmax == max_chunk_bytes as int,
            out@.len() <= chunk_start,
            out@.len() > 0 ==> out@[out@.len() - 1]@.byte_end == chunk_start,
            out@.len() > 0 ==> out@[0]@.byte_start == 0,
            out@.len() == 0 ==> chunk_start == 0,
            forall|t: int|
                0 < t < out@.len() ==> (#[trigger] out@[t])@.byte_start == out@[t
                    - 1]@.byte_end,
            forall|t: int| 0 <= t < out@.len() ==> chunk_wf((#[trigger] out@[t])@, source@),
            forall|t: int| 0 <= t < out@.len() ==> (#[trigger] out@[t])@.index == t,
            sem_rec(ssv, 0, Seq::empty(), n as int, gmax) == chunk_triples(out@) + sem_rec(
                ssv.skip(i as int),
                chunk_start as int,
                strviews(chunk_syms@),
                n as int,
                gmax,
            ),
            forall|u: int|
                0 <= u < strviews(chunk_syms@).len() ==> exists|k: int|
                    0 <= k < ssv.len() && ssv[k].name == #[trigger] strviews(
                        chunk_syms@,
                    )[u],
            forall|t: int, u: int|
                0 <= t < out@.len() && 0 <= u < out@[t]@.symbols.len() ==> exists|k: int|
                    0 <= k < ssv.len() && ssv[k].name == #[trigger] out@[t]@.symbols[u],
        decreases syms@.len() - i,
    {
        let ghost rest = ssv.skip(i as int);
        let ghost cur0 = strviews(chunk_syms@);
        let ghost cs0 = chunk_start as int;
        proof {
            assert(rest.len() > 0);
            assert(rest.first() == ssv[i as int]);
            assert(rest.drop_first() =~= ssv.skip(i + 1));
        }
        let raw_start = syms[i].byte_range.0;
        let raw_end = syms[i].byte_range.1;
        let s_start = if raw_start < chunk_start {
            chunk_start
        } else if raw_start > n {
            n
        } else {
            raw_start
        };
        let s_end = if raw_end < s_start {
            s_start
        } else if raw_end > n {
            n
        } else {
            raw_end
        };
        let fired_close = chunk_start < s_start && s_end - chunk_start > max_chunk_bytes
            && chunk_syms.len() > 0;
        if fired_close {
            let moved = chunk_syms;
            chunk_syms = Vec::new();
            let ghost o0 = out@;
            let idx = out.len();
            let c = make_chunk(source, idx, chunk_start, s_start, moved);
            out.push(c);
            proof {
                assert(forall|t: int| 0 <= t < o0.len() ==> out@[t] == o0[t]);
                assert(out@[o0.len() as int]@.symbols == cur0);
                assert(strviews(chunk_syms@) =~= Seq::<Seq<char>>::empty());
                assert(chunk_triples(out@) =~~= chunk_triples(o0).push(
                    (cs0, s_start as int, cur0),
                ));
            }
            chunk_start = s_start;
        }
        proof {
            let sv = ssv[i as int];
            assert(sv.byte_start == raw_start as int);
            assert(sv.byte_end == raw_end as int);
        }
        if s_end > s_start && s_end - s_start > max_chunk_bytes && chunk_syms.len() == 0 {
            if chunk_start < s_start {
                let ghost o0 = out@;
                let idx = out.len();
                let c = make_chunk(source, idx, chunk_start, s_start, Vec::new());
                out.push(c);
                proof {
                    assert(forall|t: int| 0 <= t < o0.len() ==> out@[t] == o0[t]);
                    assert(out@[o0.len() as int]@.symbols.len() == 0);
                    assert(out@[o0.len() as int]@.symbols =~= Seq::<Seq<char>>::empty());
                    assert(chunk_triples(out@) =~~= chunk_triples(o0).push(
                        (chunk_start as int, s_start as int, Seq::<Seq<char>>::empty()),
                    ));
                }
                chunk_start = s_start;
            }
            let mut one: Vec<String> = Vec::new();
            one.push(syms[i].name.clone());
            proof {
                assert(strviews(one@) =~= seq![ssv[i as int].name]);
            }
            let ghost o0 = out@;
            let idx = out.len();
            let c = make_chunk(source, idx, s_start, s_end, one);
            out.push(c);
            proof {
                assert(forall|t: int| 0 <= t < o0.len() ==> out@[t] == o0[t]);
                assert(out@[o0.len() as int]@.symbols =~= seq![ssv[i as int].name]);
                assert(chunk_triples(out@) =~~= chunk_triples(o0).push(
                    (s_start as int, s_end as int, seq![ssv[i as int].name]),
                ));
            }
            chunk_start = s_end;
            proof {
                let sv = ssv[i as int];
                if fired_close {
                    assert(sem_rec(rest, cs0, cur0, n as int, gmax) == seq![
                        (cs0, s_start as int, cur0),
                        (s_start as int, s_end as int, seq![sv.name]),
                    ] + sem_rec(ssv.skip(i + 1), s_end as int, Seq::empty(), n as int, gmax));
                } else {
                    assert(sem_rec(rest, cs0, cur0, n as int, gmax) == (if cs0
                        < s_start as int {
                        seq![(cs0, s_start as int, Seq::<Seq<char>>::empty())]
                    } else {
                        Seq::<(int, int, Seq<Seq<char>>)>::empty()
                    }) + seq![(s_start as int, s_end as int, seq![sv.name])] + sem_rec(
                        ssv.skip(i + 1),
                        s_end as int,
                        Seq::empty(),
                        n as int,
                        gmax,
                    ));
                }
                assert(strviews(chunk_syms@) =~= Seq::<Seq<char>>::empty());
                assert(sem_rec(ssv, 0, Seq::empty(), n as int, gmax) =~~= chunk_triples(
                    out@,
                ) + sem_rec(
                    ssv.skip(i + 1),
                    chunk_start as int,
                    strviews(chunk_syms@),
                    n as int,
                    gmax,
                ));
            }
        } else {
            let ghost csb = strviews(chunk_syms@);
            chunk_syms.push(syms[i].name.clone());
            proof {
                let sv = ssv[i as int];
                assert(strviews(chunk_syms@) =~= csb.push(sv.name));
                if fired_close {
                    assert(csb =~= Seq::<Seq<char>>::empty());
                    assert(strviews(chunk_syms@) =~= seq![sv.name]);
                    assert(sem_rec(rest, cs0, cur0, n as int, gmax) == seq![
                        (cs0, s_start as int, cur0),
                    ] + sem_rec(
                        ssv.skip(i + 1),
                        s_start as int,
                        seq![sv.name],
                        n as int,
                        gmax,
                    ));
                } else {
                    assert(csb == cur0);
                    assert(sem_rec(rest, cs0, cur0, n as int, gmax) == sem_rec(
                        ssv.skip(i + 1),
                        cs0,
                        cur0.push(sv.name),
                        n as int,
                        gmax,
                    ));
                }
                assert(sem_rec(ssv, 0, Seq::empty(), n as int, gmax) =~~= chunk_triples(
                    out@,
                ) + sem_rec(
                    ssv.skip(i + 1),
                    chunk_start as int,
                    strviews(chunk_syms@),
                    n as int,
                    gmax,
                ));
            }
        }
        i = i + 1;
    }
    if chunk_start < n {
        let ghost cs0 = strviews(chunk_syms@);
        let ghost o0 = out@;
        let idx = out.len();
        let c = make_chunk(source, idx, chunk_start, n, chunk_syms);
        out.push(c);
        proof {
            assert(forall|t: int| 0 <= t < o0.len() ==> out@[t] == o0[t]);
            assert(out@[o0.len() as int]@.symbols == cs0);
            assert(chunk_triples(out@) =~~= chunk_triples(o0).push(
                (chunk_start as int, n as int, cs0),
            ));
            assert(ssv.skip(ssv.len() as int) =~= Seq::<SymbolV>::empty());
            assert(chunk_triples(out@) =~= chunk_triples(o0) + sem_rec(
                Seq::<SymbolV>::empty(),
                chunk_start as int,
                cs0,
                n as int,
                gmax,
            ));
        }
    } else {
        proof {
            assert(ssv.skip(ssv.len() as int) =~= Seq::<SymbolV>::empty());
            assert(chunk_triples(out@) + sem_rec(
                Seq::<SymbolV>::empty(),
                chunk_start as int,
                strviews(chunk_syms@),
                n as int,
                gmax,
            ) =~= chunk_triples(out@));
        }
    }
    proof {
        let cs = out@.map_values(|c: SemanticChunk| c@);
        assert(cs.len() == out@.len());
        assert(forall|t: int| 0 <= t < cs.len() ==> cs[t] == out@[t]@);
        if out@.len() > 0 {
            assert(cs[0].byte_start == 0);
            assert(cs[cs.len() - 1].byte_end == source@.len());
        }
        assert forall|t: int|
            0 < t < cs.len() implies (#[trigger] cs[t]).byte_start == cs[t - 1].byte_end by {
            assert(out@[t]@.byte_start == out@[t - 1]@.byte_end);
        }
    }
    out
}

} // verus!
