//! Content navigation over file bytes: peeking a line range, fixed-size
//! byte windows with overlap, and a regular-expression grep over many
//! files with line context.

use vstd::prelude::*;
use crate::text;
use crate::text::{ceil_spec, cut_ok, join_nl, spec_lines};

verus! {

/// Copy a byte slice into an owned vector.
pub fn copy_bytes(v: &[u8]) -> (r: Vec<u8>)
    ensures
        r@ == v@,
{
    let mut out: Vec<u8> = Vec::new();
    out.extend_from_slice(v);
    proof {
        assert(out@ =~= v@);
    }
    out
}

/// A peeked line range of a file.
pub struct PeekResult {
    pub content: Vec<u8>,
    pub start_line: usize,
    pub end_line: usize,
    pub total_lines: usize,
}

/// Lines `[start, end)` of `source`, both bounds clamped to the line
/// count (and `start` to the clamped end, so a reversed range yields the
/// empty slice), joined with newlines.
pub fn peek(source: &[u8], start: usize, end: usize) -> (r: PeekResult)
    ensures
        r.total_lines == spec_lines(source@).len(),
        r.end_line == (if end <= r.total_lines {
            end as int
        } else {
            r.total_lines as int
        }),
        r.start_line == (if start <= r.end_line {
            start as int
        } else {
            r.end_line as int
        }),
        r.content@ == join_nl(
            spec_lines(source@).subrange(r.start_line as int, r.end_line as int),
        ),
{
    let lines = text::split_lines(source);
    let total = lines.len();
    let e = if end <= total {
        end
    } else {
        total
    };
    let s = if start <= e {
        start
    } else {
        e
    };
    let mut slice: Vec<Vec<u8>> = Vec::new();
    let mut k: usize = s;
    proof {
        assert(slice.deep_view() =~= lines.deep_view().subrange(s as int, s as int));
    }
    while k < e
        invariant
            s <= k <= e <= lines@.len(),
            lines.deep_view() == spec_lines(source@),
            slice.deep_view() =~= lines.deep_view().subrange(s as int, k as int),
        decreases e - k,
    {
        let ghost sl0 = slice.deep_view();
        let row = copy_bytes(lines[k].as_slice());
        slice.push(row);
        proof {
            assert(slice.deep_view() =~~= sl0.push(lines.deep_view()[k as int]));
            assert(lines.deep_view().subrange(s as int, k + 1) =~= lines.deep_view().subrange(
                s as int,
                k as int,
            ).push(lines.deep_view()[k as int]));
        }
        k = k + 1;
    }
    let content = text::join_lines(&slice);
    PeekResult { content, start_line: s, end_line: e, total_lines: total }
}

/// One byte window of a file.
pub struct ChunkWindow {
    pub index: usize,
    pub byte_start: usize,
    pub byte_end: usize,
}

/// The windows of `src` for a byte budget of `size`, advancing by `step`
/// bytes each time, with both edges moved forward to the next character
/// cut and the last window truncated at the end of the file.
pub open spec fn windows_spec(src: Seq<u8>, size: int, step: int, start: int) -> Seq<(int, int)>
    recommends
        step >= 1,
        0 <= start,
    decreases src.len() - start,
    when step >= 1 && start >= 0
{
    if start >= src.len() {
        Seq::empty()
    } else {
        let end = if start + size >= src.len() {
            src.len() as int
        } else {
            ceil_spec(src, start + size)
        };
        let nxt0 = if start + step >= src.len() {
            src.len() as int
        } else {
            ceil_spec(src, start + step)
        };
        let nxt1 = if nxt0 <= start {
            start + 1
        } else {
            nxt0
        };
        let nxt = if nxt1 > src.len() {
            src.len() as int
        } else {
            nxt1
        };
        seq![(start, end)] + windows_spec(src, size, step, nxt)
    }
}

/// Fixed-size windows with overlap: windows advance by `size - overlap`
/// bytes, edges never split a UTF-8 character, and the last window is
/// truncated at the end of the file.
pub fn chunk_indices(source: &[u8], size: usize, overlap: usize) -> (r: Vec<ChunkWindow>)
    requires
        overlap < size,
    ensures
        r@.map_values(|w: ChunkWindow| (w.byte_start as int, w.byte_end as int))
            == windows_spec(source@, size as int, size - overlap, 0),
        forall|t: int| 0 <= t < r@.len() ==> (#[trigger] r@[t]).index == t,
        forall|t: int|
            0 <= t < r@.len() ==> cut_ok(source@, (#[trigger] r@[t]).byte_start as int)
                && cut_ok(source@, r@[t].byte_end as int),
        forall|t: int|
            0 <= t < r@.len() ==> (#[trigger] r@[t]).byte_start < r@[t].byte_end
                <= source@.len(),
{
    let n = source.len();
    let step = size - overlap;
    let mut out: Vec<ChunkWindow> = Vec::new();
    let mut start: usize = 0;
    proof {
        assert(out@.map_values(|w: ChunkWindow| (w.byte_start as int, w.byte_end as int))
            =~= Seq::<(int, int)>::empty());
    }
    while start < n
        invariant
            start <= n == source@.len(),
            step == size - overlap,
            step >= 1,
            cut_ok(source@, start as int),
            out@.len() <= start,
            windows_spec(source@, size as int, step as int, 0) =~= out@.map_values(
                |w: ChunkWindow| (w.byte_start as int, w.byte_end as int),
            ) + windows_spec(source@, size as int, step as int, start as int),
            forall|t: int| 0 <= t < out@.len() ==> (#[trigger] out@[t]).index == t,
            forall|t: int|
                0 <= t < out@.len() ==> cut_ok(source@, (#[trigger] out@[t]).byte_start as int)
                    && cut_ok(source@, out@[t].byte_end as int),
            forall|t: int|
                0 <= t < out@.len() ==> (#[trigger] out@[t]).byte_start < out@[t].byte_end
                    <= source@.len(),
        decreases n - start,
    {
        let end = if size >= n - start {
            n
        } else {
            text::ceil_cut(source, start + size)
        };
        let nxt0 = if step >= n - start {
            n
        } else {
            text::ceil_cut(source, start + step)
        };
        let nxt = if nxt0 <= start {
            start + 1
        } else {
            nxt0
        };
        let ghost o0 = out@;
        let w = ChunkWindow { index: out.len(), byte_start: start, byte_end: end };
        out.push(w);
        proof {
            let f = |w: ChunkWindow| (w.byte_start as int, w.byte_end as int);
            assert(out@.map_values(f) =~= o0.map_values(f).push(
                (start as int, end as int),
            ));
            assert(windows_spec(source@, size as int, step as int, start as int) == seq![
                (start as int, end as int),
            ] + windows_spec(source@, size as int, step as int, nxt as int));
            assert(o0.map_values(f).push((start as int, end as int)) + windows_spec(
                source@,
                size as int,
                step as int,
                nxt as int,
            ) =~= o0.map_values(f) + windows_spec(
                source@,
                size as int,
                step as int,
                start as int,
            ));
            assert(end > start) by {
                if size < n - start {
                    text::lemma_ceil_spec_ok(source@, start + size);
                }
            }
            text::lemma_ceil_spec_ok(source@, start + step);
            if nxt < n {
                assert(cut_ok(source@, nxt as int));
            }
        }
        start = nxt;
    }
    proof {
        assert(windows_spec(source@, size as int, step as int, start as int)
            =~= Seq::<(int, int)>::empty());
        assert(out@.map_values(|w: ChunkWindow| (w.byte_start as int, w.byte_end as int))
            + Seq::<(int, int)>::empty() =~= out@.map_values(
            |w: ChunkWindow| (w.byte_start as int, w.byte_end as int),
        ));
    }
    out
}

/// One grep hit: the file, the 1-indexed line number, the matching line,
/// and the surrounding context lines.
pub struct GrepMatch {
    pub file: String,
    pub line_number: usize,
    pub line: Vec<u8>,
    pub before: Vec<Vec<u8>>,
    pub after: Vec<Vec<u8>>,
}

/// Scope of a grep scan: `All` matches anywhere; `Code` additionally
/// skips lines the caller has classified as comment or string text.
#[derive(Clone, Copy, PartialEq, Eq, Structural, Debug)]
pub enum GrepScope {
    All,
    Code,
}

pub open spec fn scope_label(s: GrepScope) -> Seq<char> {
    match s {
        GrepScope::All => "all"@,
        GrepScope::Code => "code"@,
    }
}

impl GrepScope {
    pub fn as_str(&self) -> (r: &'static str)
        ensures
            r@ == scope_label(*self),
    {
        match self {
            GrepScope::All => "all",
            GrepScope::Code => "code",
        }
    }

    pub fn from_str(s: &str) -> (r: Option<GrepScope>)
        ensures
            match r {
                Some(sc) => s@ == scope_label(sc),
                None => s@ != scope_label(GrepScope::All) && s@ != scope_label(
                    GrepScope::Code,
                ),
            },
    {
        if crate::symbol::str_eq(s, "all") {
            Some(GrepScope::All)
        } else if crate::symbol::str_eq(s, "code") {
            Some(GrepScope::Code)
        } else {
            None
        }
    }
}

/// Whether `pattern` is a valid regular expression in the regex crate's
/// syntax; validity depends on the pattern text alone.
pub uninterp spec fn regex_ok(pattern: Seq<char>) -> bool;

/// Whether the regular expression denoted by `pattern` matches anywhere
/// inside `line`; meaningful when the pattern is valid, and a function of
/// the two values alone.
pub uninterp spec fn is_match_of(pattern: Seq<char>, line: Seq<u8>) -> bool;

/// Relies on regex::bytes::Regex, `new` and `is_match`: compiles the
/// pattern and tests whether it matches anywhere in the line's bytes.
/// Both are functions of the pattern and line texts alone; an invalid
/// pattern yields nothing. The two calls share one wrapper because no
/// contract can tie a compiled pattern object back to its source text.
#[verifier::external_body]
fn regex_line_match(pattern: &str, line: &[u8]) -> (r: Option<bool>)
    ensures
        r is Some <==> regex_ok(pattern@),
        r matches Some(b) ==> b == is_match_of(pattern@, line@),
{
    match regex::bytes::Regex::new(pattern) {
        Ok(re) => Some(re.is_match(line)),
        Err(_) => None,
    }
}

/// Whether 1-indexed line `line_no` of file `f` is among the caller's
/// masked lines.
pub open spec fn line_masked(masks: Seq<Seq<usize>>, f: int, line_no: int) -> bool {
    0 <= f < masks.len() && exists|k: int|
        0 <= k < masks[f].len() && #[trigger] masks[f][k] as int == line_no
}

/// The 0-indexed line `ln` of file `f` is a grep hit: the regular
/// expression matches somewhere in the line, and in `Code` scope the
/// line is not masked.
pub open spec fn is_hit(
    files: Seq<(Seq<char>, Seq<u8>)>,
    masks: Seq<Seq<usize>>,
    scope: GrepScope,
    pattern: Seq<char>,
    f: int,
    ln: int,
) -> bool {
    &&& 0 <= f < files.len()
    &&& 0 <= ln < spec_lines(files[f].1).len()
    &&& is_match_of(pattern, spec_lines(files[f].1)[ln])
    &&& (scope == GrepScope::Code ==> !line_masked(masks, f, ln + 1))
}

/// Number of hits among the first `upto` lines of file `f`.
pub open spec fn hits_in_file_upto(
    files: Seq<(Seq<char>, Seq<u8>)>,
    masks: Seq<Seq<usize>>,
    scope: GrepScope,
    pattern: Seq<char>,
    f: int,
    upto: int,
) -> nat
    decreases upto,
{
    if upto <= 0 {
        0
    } else {
        hits_in_file_upto(files, masks, scope, pattern, f, upto - 1) + (if is_hit(
            files,
            masks,
            scope,
            pattern,
            f,
            upto - 1,
        ) {
            1nat
        } else {
            0nat
        })
    }
}

/// Number of hits in the first `uptof` files.
pub open spec fn hits_upto(
    files: Seq<(Seq<char>, Seq<u8>)>,
    masks: Seq<Seq<usize>>,
    scope: GrepScope,
    pattern: Seq<char>,
    uptof: int,
) -> nat
    decreases uptof,
{
    if uptof <= 0 {
        0
    } else {
        hits_upto(files, masks, scope, pattern, uptof - 1) + hits_in_file_upto(
            files,
            masks,
            scope,
            pattern,
            uptof - 1,
            spec_lines(files[uptof - 1].1).len() as int,
        )
    }
}

/// All hits over all files.
pub open spec fn total_hits(
    files: Seq<(Seq<char>, Seq<u8>)>,
    masks: Seq<Seq<usize>>,
    scope: GrepScope,
    pattern: Seq<char>,
) -> nat {
    hits_upto(files, masks, scope, pattern, files.len() as int)
}

proof fn lemma_hits_in_file_mono(
    files: Seq<(Seq<char>, Seq<u8>)>,
    masks: Seq<Seq<usize>>,
    scope: GrepScope,
    pattern: Seq<char>,
    f: int,
    a: int,
    b: int,
)
    requires
        a <= b,
    ensures
        hits_in_file_upto(files, masks, scope, pattern, f, a) <= hits_in_file_upto(
            files,
            masks,
            scope,
            pattern,
            f,
            b,
        ),
    decreases b - a,
{
    if a < b {
        lemma_hits_in_file_mono(files, masks, scope, pattern, f, a, b - 1);
    }
}

proof fn lemma_hits_upto_mono(
    files: Seq<(Seq<char>, Seq<u8>)>,
    masks: Seq<Seq<usize>>,
    scope: GrepScope,
    pattern: Seq<char>,
    a: int,
    b: int,
)
    requires
        a <= b,
    ensures
        hits_upto(files, masks, scope, pattern, a) <= hits_upto(
            files,
            masks,
            scope,
            pattern,
            b,
        ),
    decreases b - a,
{
    if a < b {
        lemma_hits_upto_mono(files, masks, scope, pattern, a, b - 1);
    }
}

/// A grep hit is sound when its file is one of the scanned files, its
/// line number points at a hit line of that file under the scan's scope,
/// and the context is exactly the `ctx` surrounding lines.
pub open spec fn match_sound(
    m: GrepMatch,
    files: Seq<(Seq<char>, Seq<u8>)>,
    masks: Seq<Seq<usize>>,
    scope: GrepScope,
    pattern: Seq<char>,
    ctx: int,
) -> bool {
    exists|f: int|
        0 <= f < files.len() && (#[trigger] files[f]).0 == m.file@ && {
            let ls = spec_lines(files[f].1);
            &&& 1 <= m.line_number <= ls.len()
            &&& m.line@ == ls[m.line_number - 1]
            &&& is_hit(files, masks, scope, pattern, f, m.line_number - 1)
            &&& m.before.deep_view() == ls.subrange(
                if m.line_number - 1 >= ctx {
                    m.line_number - 1 - ctx
                } else {
                    0
                },
                m.line_number - 1,
            )
            &&& m.after.deep_view() == ls.subrange(
                m.line_number as int,
                if m.line_number + ctx <= ls.len() {
                    m.line_number + ctx
                } else {
                    ls.len() as int
                },
            )
        }
}

pub open spec fn fviews(files: Seq<(String, Vec<u8>)>) -> Seq<(Seq<char>, Seq<u8>)> {
    files.map_values(|f: (String, Vec<u8>)| (f.0@, f.1@))
}

/// Test a 1-indexed line number against the caller's mask for file `f`.
fn line_is_masked(masks: &Vec<Vec<usize>>, f: usize, line_no: usize) -> (r: bool)
    ensures
        r == line_masked(masks.deep_view(), f as int, line_no as int),
{
    if f >= masks.len() {
        return false;
    }
    let m = &masks[f];
    let mut k: usize = 0;
    while k < m.len()
        invariant
            k <= m@.len(),
            f < masks@.len(),
            m@ == masks@[f as int]@,
            forall|t: int| 0 <= t < k ==> masks.deep_view()[f as int][t] as int != line_no,
        decreases m@.len() - k,
    {
        if m[k] == line_no {
            proof {
                assert(masks.deep_view()[f as int][k as int] as int == line_no);
            }
            return true;
        }
        k = k + 1;
    }
    proof {
        if line_masked(masks.deep_view(), f as int, line_no as int) {
            let t = choose|t: int|
                0 <= t < masks.deep_view()[f as int].len()
                    && #[trigger] masks.deep_view()[f as int][t] as int == line_no;
            assert(masks.deep_view()[f as int][t] as int != line_no);
        }
    }
    false
}

/// Copy lines `[from, to)` of `lines`.
fn copy_line_range(lines: &Vec<Vec<u8>>, from: usize, to: usize) -> (r: Vec<Vec<u8>>)
    requires
        from <= to <= lines@.len(),
    ensures
        r.deep_view() == lines.deep_view().subrange(from as int, to as int),
{
    let mut out: Vec<Vec<u8>> = Vec::new();
    let mut k: usize = from;
    proof {
        assert(out.deep_view() =~= lines.deep_view().subrange(from as int, from as int));
    }
    while k < to
        invariant
            from <= k <= to <= lines@.len(),
            out.deep_view() =~= lines.deep_view().subrange(from as int, k as int),
        decreases to - k,
    {
        let ghost o0 = out.deep_view();
        out.push(copy_bytes(lines[k].as_slice()));
        proof {
            assert(out.deep_view() =~~= o0.push(lines.deep_view()[k as int]));
            assert(lines.deep_view().subrange(from as int, k + 1) =~= lines.deep_view()
                .subrange(from as int, k as int).push(lines.deep_view()[k as int]));
        }
        k = k + 1;
    }
    out
}

/// Scan `files` line by line for the regular expression `pattern`. An
/// invalid pattern is refused. Otherwise exactly the hits that exist come
/// back, in scan order, up to `max_matches`: the result length is the
/// smaller of the hit count and the budget, and whenever the budget is
/// not exhausted every hit line is represented. Each hit carries
/// `context_lines` lines of context; with a context of zero only the
/// matching lines themselves come back, and a budget of zero yields no
/// hits at all. In `Code` scope, lines listed in `masks` (1-indexed,
/// parallel to `files`) are skipped.
#[verifier::rlimit(60)]
pub fn grep_files(
    files: &Vec<(String, Vec<u8>)>,
    pattern: &str,
    max_matches: usize,
    context_lines: usize,
    scope: GrepScope,
    masks: &Vec<Vec<usize>>,
) -> (res: Result<Vec<GrepMatch>, ()>)
    ensures
        res is Ok <==> regex_ok(pattern@),
        res matches Ok(r) ==> {
            &&& r@.len() == (if total_hits(fviews(files@), masks.deep_view(), scope, pattern@)
                <= max_matches {
                total_hits(fviews(files@), masks.deep_view(), scope, pattern@) as int
            } else {
                max_matches as int
            })
            &&& (max_matches == 0 ==> r@.len() == 0)
            &&& forall|t: int|
                0 <= t < r@.len() ==> match_sound(
                    #[trigger] r@[t],
                    fviews(files@),
                    masks.deep_view(),
                    scope,
                    pattern@,
                    context_lines as int,
                )
            &&& (r@.len() < max_matches ==> forall|f: int, ln: int|
                #[trigger] is_hit(fviews(files@), masks.deep_view(), scope, pattern@, f, ln)
                    ==> exists|t: int|
                    0 <= t < r@.len() && (#[trigger] r@[t]).file@ == fviews(files@)[f].0
                        && r@[t].line_number == ln + 1)
            &&& (context_lines == 0 ==> forall|t: int|
                0 <= t < r@.len() ==> (#[trigger] r@[t]).before@.len() == 0
                    && r@[t].after@.len() == 0)
        },
{
    let probe: Vec<u8> = Vec::new();
    if regex_line_match(pattern, probe.as_slice()).is_none() {
        return Err(());
    }
    let ghost fv = fviews(files@);
    let ghost mv = masks.deep_view();
    let ghost pv = pattern@;
    let mut out: Vec<GrepMatch> = Vec::new();
    let mut f: usize = 0;
    while f < files.len() && out.len() < max_matches
        invariant
            f <= files@.len(),
            fv == fviews(files@),
            mv == masks.deep_view(),
            pv == pattern@,
            regex_ok(pv),
            out@.len() == (if hits_upto(fv, mv, scope, pv, f as int) <= max_matches {
                hits_upto(fv, mv, scope, pv, f as int) as int
            } else {
                max_matches as int
            }),
            out@.len() < max_matches ==> forall|f2: int, ln2: int|
                f2 < f && #[trigger] is_hit(fv, mv, scope, pv, f2, ln2) ==> exists|t: int|
                    0 <= t < out@.len() && (#[trigger] out@[t]).file@ == fv[f2].0 && out@[
                    t].line_number == ln2 + 1,
            forall|t: int|
                0 <= t < out@.len() ==> match_sound(
                    #[trigger] out@[t],
                    fv,
                    mv,
                    scope,
                    pv,
                    context_lines as int,
                ),
            context_lines == 0 ==> forall|t: int|
                0 <= t < out@.len() ==> (#[trigger] out@[t]).before@.len() == 0
                    && out@[t].after@.len() == 0,
        decreases files@.len() - f,
    {
        let lines = text::split_lines(files[f].1.as_slice());
        let total = lines.len();
        let ghost flen = spec_lines(fv[f as int].1).len() as int;
        let mut ln: usize = 0;
        while ln < total && out.len() < max_matches
            invariant
                f < files@.len(),
                ln <= total == lines@.len(),
                fv == fviews(files@),
                mv == masks.deep_view(),
                pv == pattern@,
                regex_ok(pv),
                lines.deep_view() == spec_lines(fv[f as int].1),
                flen == spec_lines(fv[f as int].1).len() as int,
                total == flen,
                out@.len() == (if hits_upto(fv, mv, scope, pv, f as int) + hits_in_file_upto(
                    fv,
                    mv,
                    scope,
                    pv,
                    f as int,
                    ln as int,
                ) <= max_matches {
                    hits_upto(fv, mv, scope, pv, f as int) + hits_in_file_upto(
                        fv,
                        mv,
                        scope,
                        pv,
                        f as int,
                        ln as int,
                    ) as int
                } else {
                    max_matches as int
                }),
                out@.len() < max_matches ==> forall|f2: int, ln2: int|
                    (f2 < f || (f2 == f && ln2 < ln)) && #[trigger] is_hit(
                        fv,
                        mv,
                        scope,
                        pv,
                        f2,
                        ln2,
                    ) ==> exists|t: int|
                        0 <= t < out@.len() && (#[trigger] out@[t]).file@ == fv[f2].0
                            && out@[t].line_number == ln2 + 1,
                forall|t: int|
                    0 <= t < out@.len() ==> match_sound(
                        #[trigger] out@[t],
                        fv,
                        mv,
                        scope,
                        pv,
                        context_lines as int,
                    ),
                context_lines == 0 ==> forall|t: int|
                    0 <= t < out@.len() ==> (#[trigger] out@[t]).before@.len() == 0
                        && out@[t].after@.len() == 0,
            decreases total - ln,
        {
            let in_scope = match scope {
                GrepScope::All => true,
                GrepScope::Code => !line_is_masked(masks, f, ln + 1),
            };
            let matched = match regex_line_match(pattern, lines[ln].as_slice()) {
                Some(b) => b,
                None => {
                    proof {
                        assert(false);
                    }
                    false
                },
            };
            let hit = in_scope && matched;
            proof {
                assert(lines.deep_view()[ln as int] == lines@[ln as int]@);
                assert(hit == is_hit(fv, mv, scope, pv, f as int, ln as int));
            }
            if hit {
                let from = if ln >= context_lines {
                    ln - context_lines
                } else {
                    0
                };
                let to = if context_lines <= total - ln - 1 {
                    ln + 1 + context_lines
                } else {
                    total
                };
                let before = copy_line_range(&lines, from, ln);
                let after = copy_line_range(&lines, ln + 1, to);
                let m = GrepMatch {
                    file: files[f].0.clone(),
                    line_number: ln + 1,
                    line: copy_bytes(lines[ln].as_slice()),
                    before,
                    after,
                };
                proof {
                    assert(fv[f as int].0 == m.file@);
                    assert(match_sound(m, fv, mv, scope, pv, context_lines as int)) by {
                        let ls = spec_lines(fv[f as int].1);
                        assert(m.line@ == ls[ln as int]);
                        assert(m.before.deep_view() == ls.subrange(from as int, ln as int));
                        assert(m.after.deep_view() == ls.subrange(ln + 1, to as int));
                    }
                    if context_lines == 0 {
                        assert(m.before.deep_view().len() == 0);
                        assert(m.before@.len() == m.before.deep_view().len());
                        assert(m.after.deep_view().len() == 0);
                        assert(m.after@.len() == m.after.deep_view().len());
                    }
                }
                let ghost o0 = out@;
                out.push(m);
                proof {
                    assert(forall|t: int| 0 <= t < o0.len() ==> out@[t] == o0[t]);
                    assert(out@[o0.len() as int].file@ == fv[f as int].0);
                    assert(out@[o0.len() as int].line_number == ln + 1);
                    assert forall|f2: int, ln2: int|
                        (f2 < f || (f2 == f && ln2 < ln + 1)) && #[trigger] is_hit(
                            fv,
                            mv,
                            scope,
                            pv,
                            f2,
                            ln2,
                        ) && out@.len() < max_matches implies exists|t: int|
                            0 <= t < out@.len() && (#[trigger] out@[t]).file@ == fv[f2].0
                                && out@[t].line_number == ln2 + 1 by {
                        if f2 == f && ln2 == ln {
                            assert(out@[o0.len() as int].file@ == fv[f2].0 && out@[
                            o0.len() as int].line_number == ln2 + 1);
                        } else {
                            let t0 = choose|t0: int|
                                0 <= t0 < o0.len() && (#[trigger] o0[t0]).file@ == fv[f2].0
                                    && o0[t0].line_number == ln2 + 1;
                            assert(out@[t0].file@ == fv[f2].0 && out@[t0].line_number == ln2
                                + 1);
                        }
                    }
                }
            }
            ln = ln + 1;
        }
        proof {
            lemma_hits_in_file_mono(fv, mv, scope, pv, f as int, ln as int, flen);
            assert(hits_upto(fv, mv, scope, pv, f + 1) == hits_upto(fv, mv, scope, pv, f as int)
                + hits_in_file_upto(fv, mv, scope, pv, f as int, flen));
            if ln < total {
                assert(out@.len() == max_matches);
            } else {
                assert(hits_in_file_upto(fv, mv, scope, pv, f as int, ln as int)
                    == hits_in_file_upto(fv, mv, scope, pv, f as int, flen));
                if out@.len() < max_matches {
                    assert forall|f2: int, ln2: int|
                        f2 < f + 1 && #[trigger] is_hit(fv, mv, scope, pv, f2, ln2) implies
                        exists|t: int|
                            0 <= t < out@.len() && (#[trigger] out@[t]).file@ == fv[f2].0
                                && out@[t].line_number == ln2 + 1 by {
                        if f2 == f {
                            assert(ln2 < flen);
                        }
                    }
                }
            }
        }
        f = f + 1;
    }
    proof {
        if f < files@.len() {
            assert(out@.len() == max_matches);
            lemma_hits_upto_mono(fv, mv, scope, pv, f as int, fv.len() as int);
        }
    }
    Ok(out)
}

} // verus!
