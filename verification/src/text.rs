//! Byte-level text utilities shared by the content operations: UTF-8
//! character boundaries, line splitting with the semantics of `str::lines`,
//! newline counting, substring search, and decimal rendering.
//!
//! File contents are handled as bytes throughout the crate; these helpers
//! carry the specifications that relate byte indices back to characters
//! and lines.

use vstd::prelude::*;

verus! {

use vstd::string::StringExecFns;

broadcast use vstd::utf8::group_utf8_lib;

pub const NL: u8 = 10;

pub const CR: u8 = 13;

/// A cut position that does not fall inside a multi-byte character:
/// either an end of the buffer or a non-continuation byte.
pub open spec fn cut_ok(s: Seq<u8>, i: int) -> bool {
    i == 0 || i == s.len() || (0 < i < s.len() && !vstd::utf8::is_continuation_byte(s[i]))
}

/// On valid UTF-8, a cut position in the sense of `cut_ok` is exactly a
/// character boundary.
pub proof fn lemma_cut_ok_is_char_boundary(s: Seq<u8>, i: int)
    requires
        vstd::utf8::valid_utf8(s),
        0 <= i <= s.len(),
        cut_ok(s, i),
    ensures
        vstd::utf8::is_char_boundary(s, i),
{
}

/// Exec test matching `vstd::utf8::is_continuation_byte`.
pub fn is_cont(b: u8) -> (r: bool)
    ensures
        r == vstd::utf8::is_continuation_byte(b),
{
    0x80 <= b && b <= 0xbf
}

/// Largest cut position at or below `i` (clamped to the length).
pub open spec fn floor_spec(s: Seq<u8>, i: int) -> int
    decreases i,
{
    if i <= 0 {
        0
    } else if i >= s.len() {
        s.len() as int
    } else if !vstd::utf8::is_continuation_byte(s[i]) {
        i
    } else {
        floor_spec(s, i - 1)
    }
}

pub proof fn lemma_floor_spec_ok(s: Seq<u8>, i: int)
    requires
        0 <= i,
    ensures
        0 <= floor_spec(s, i) <= i || floor_spec(s, i) == s.len(),
        floor_spec(s, i) <= s.len(),
        cut_ok(s, floor_spec(s, i)),
    decreases i,
{
    if 0 < i < s.len() && vstd::utf8::is_continuation_byte(s[i]) {
        lemma_floor_spec_ok(s, i - 1);
    }
}

pub fn floor_cut(v: &[u8], i: usize) -> (r: usize)
    ensures
        r == floor_spec(v@, i as int),
        r <= i || r == v@.len(),
        r <= v@.len(),
        cut_ok(v@, r as int),
        i < v@.len() ==> r <= i && forall|k: int|
            r < k <= i ==> vstd::utf8::is_continuation_byte(#[trigger] v@[k]),
{
    proof {
        lemma_floor_spec_ok(v@, i as int);
    }
    let n = v.len();
    if i >= n {
        return n;
    }
    let mut j = i;
    while j > 0 && is_cont(v[j])
        invariant
            j <= i < n == v@.len(),
            floor_spec(v@, i as int) == floor_spec(v@, j as int),
            forall|k: int| j < k <= i ==> vstd::utf8::is_continuation_byte(#[trigger] v@[k]),
        decreases j,
    {
        j = j - 1;
    }
    j
}

/// Smallest cut position at or above `i` (clamped to the length).
pub open spec fn ceil_spec(s: Seq<u8>, i: int) -> int
    decreases s.len() - i,
{
    if i <= 0 {
        0
    } else if i >= s.len() {
        s.len() as int
    } else if !vstd::utf8::is_continuation_byte(s[i]) {
        i
    } else {
        ceil_spec(s, i + 1)
    }
}

pub proof fn lemma_ceil_spec_ok(s: Seq<u8>, i: int)
    requires
        0 <= i,
    ensures
        ceil_spec(s, i) >= i || ceil_spec(s, i) == s.len(),
        i <= s.len() ==> ceil_spec(s, i) >= i,
        ceil_spec(s, i) <= s.len(),
        cut_ok(s, ceil_spec(s, i)),
    decreases s.len() - i,
{
    if 0 < i < s.len() && vstd::utf8::is_continuation_byte(s[i]) {
        lemma_ceil_spec_ok(s, i + 1);
    }
}

pub fn ceil_cut(v: &[u8], i: usize) -> (r: usize)
    ensures
        r == ceil_spec(v@, i as int),
        i <= v@.len() ==> r >= i,
        r <= v@.len(),
        cut_ok(v@, r as int),
{
    proof {
        lemma_ceil_spec_ok(v@, i as int);
    }
    let n = v.len();
    if i >= n {
        return n;
    }
    if i == 0 {
        return 0;
    }
    let mut j = i;
    while j < n && is_cont(v[j])
        invariant
            1 <= i <= j <= n == v@.len(),
            ceil_spec(v@, i as int) == ceil_spec(v@, j as int),
        decreases n - j,
    {
        j = j + 1;
    }
    j
}

/// A cut position at or below `i` bounds `floor_spec` from below.
pub proof fn lemma_floor_spec_ge(s: Seq<u8>, b: int, i: int)
    requires
        0 <= b <= i,
        b <= s.len(),
        cut_ok(s, b),
    ensures
        floor_spec(s, i) >= b,
    decreases i,
{
    if i <= 0 {
    } else if i >= s.len() {
    } else if !vstd::utf8::is_continuation_byte(s[i]) {
    } else {
        if b == i {
            assert(cut_ok(s, b) && 0 < b < s.len());
            assert(false);
        }
        lemma_floor_spec_ge(s, b, i - 1);
    }
}

/// On valid UTF-8, a character boundary below the end is followed by
/// another boundary at most four bytes later: the next character's
/// encoding takes one to four bytes.
pub proof fn lemma_next_boundary_within_four(s: Seq<u8>, start: int) -> (b: int)
    requires
        vstd::utf8::valid_utf8(s),
        0 <= start < s.len(),
        vstd::utf8::is_char_boundary(s, start),
    ensures
        start < b <= start + 4,
        b <= s.len(),
        vstd::utf8::is_char_boundary(s, b),
        cut_ok(s, b),
{
    let s2 = s.subrange(start, s.len() as int);
    assert(vstd::utf8::valid_utf8(s2));
    assert(s2.len() > 0);
    assert(vstd::utf8::valid_first_scalar(s2));
    let w = vstd::utf8::length_of_first_scalar(s2);
    assert(1 <= w <= 4);
    assert(w <= s2.len()) by {
        assert(vstd::utf8::valid_leading_and_continuation_bytes_first_codepoint(s2));
    }
    let b = start + w;
    if b == s.len() {
        assert(vstd::utf8::is_char_boundary(s, b));
        assert(cut_ok(s, b));
    } else {
        let s3 = vstd::utf8::pop_first_scalar(s2);
        assert(vstd::utf8::valid_utf8(s3));
        assert(s3.len() > 0);
        assert(s3[0] == s[b]);
        assert(vstd::utf8::valid_first_scalar(s3));
        assert(!vstd::utf8::is_continuation_byte(s3[0])) by {
            if vstd::utf8::is_continuation_byte(s3[0]) {
                assert(!vstd::utf8::is_leading_byte_width_1(s3[0]));
                assert(!vstd::utf8::is_leading_byte_width_2(s3[0]));
                assert(!vstd::utf8::is_leading_byte_width_3(s3[0]));
                assert(!vstd::utf8::is_leading_byte_width_4(s3[0]));
            }
        }
        vstd::utf8::is_char_boundary_iff_not_is_continuation_byte(s, b);
        assert(cut_ok(s, b));
    }
    b
}

/// On valid UTF-8, the position just after a newline byte is a character
/// boundary.
pub proof fn lemma_after_nl_is_boundary(s: Seq<u8>, i: int)
    requires
        vstd::utf8::valid_utf8(s),
        0 < i <= s.len(),
        s[i - 1] == NL,
    ensures
        vstd::utf8::is_char_boundary(s, i),
{
    if i == s.len() {
    } else {
        vstd::utf8::is_char_boundary_iff_not_is_continuation_byte(s, i - 1);
        assert(!vstd::utf8::is_continuation_byte(s[i - 1]));
        assert(vstd::utf8::is_char_boundary(s, i - 1));
        vstd::utf8::is_char_boundary_iff_not_is_continuation_byte(s, i);
        let s2 = s.subrange(i - 1, s.len() as int);
        assert(vstd::utf8::valid_utf8(s2));
        assert(s2[0] == NL);
        assert(vstd::utf8::valid_first_scalar(s2));
        assert(vstd::utf8::is_leading_byte_width_1(s2[0]));
        assert(vstd::utf8::length_of_first_scalar(s2) == 1);
        let s3 = vstd::utf8::pop_first_scalar(s2);
        assert(vstd::utf8::valid_utf8(s3));
        assert(s3.len() > 0);
        assert(s3[0] == s[i]);
        assert(vstd::utf8::valid_first_scalar(s3));
        assert(!vstd::utf8::is_continuation_byte(s3[0])) by {
            if vstd::utf8::is_continuation_byte(s3[0]) {
                assert(!vstd::utf8::is_leading_byte_width_1(s3[0]));
                assert(!vstd::utf8::is_leading_byte_width_2(s3[0]));
                assert(!vstd::utf8::is_leading_byte_width_3(s3[0]));
                assert(!vstd::utf8::is_leading_byte_width_4(s3[0]));
            }
        }
    }
}

/// Index just after the last newline in `s[from..to)`, or `from` when the
/// range has none.
pub open spec fn nl_break(s: Seq<u8>, from: int, to: int) -> int
    decreases to - from,
{
    if to <= from {
        from
    } else if s[to - 1] == NL {
        to
    } else {
        nl_break(s, from, to - 1)
    }
}

pub proof fn lemma_nl_break_ok(s: Seq<u8>, from: int, to: int)
    requires
        0 <= from <= to <= s.len(),
    ensures
        from <= nl_break(s, from, to) <= to,
        nl_break(s, from, to) > from ==> s[nl_break(s, from, to) - 1] == NL,
    decreases to - from,
{
    if to > from && s[to - 1] != NL {
        lemma_nl_break_ok(s, from, to - 1);
    }
}

/// Scan backwards for a newline in `v[from..to)`, returning the position
/// just after it.
pub fn find_nl_break(v: &[u8], from: usize, to: usize) -> (r: usize)
    requires
        from <= to <= v@.len(),
    ensures
        r == nl_break(v@, from as int, to as int),
        from <= r <= to,
        r > from ==> v@[r - 1] == NL,
{
    proof {
        lemma_nl_break_ok(v@, from as int, to as int);
    }
    let mut j = to;
    while j > from && v[j - 1] != NL
        invariant
            from <= j <= to <= v@.len(),
            nl_break(v@, from as int, to as int) == nl_break(v@, from as int, j as int),
        decreases j,
    {
        j = j - 1;
    }
    j
}

/// Number of newline bytes in `s`.
pub open spec fn nl_count(s: Seq<u8>) -> nat
    decreases s.len(),
{
    if s.len() == 0 {
        0
    } else {
        nl_count(s.drop_last()) + (if s.last() == NL {
            1nat
        } else {
            0nat
        })
    }
}

/// Number of lines in `s`, with the counting convention of `str::lines`:
/// the empty text has no lines, and a trailing newline does not open a
/// final empty line.
pub open spec fn line_count(s: Seq<u8>) -> nat {
    if s.len() == 0 {
        0
    } else if s.last() == NL {
        nl_count(s)
    } else {
        nl_count(s) + 1
    }
}

pub proof fn lemma_nl_count_le(s: Seq<u8>)
    ensures
        nl_count(s) <= s.len(),
    decreases s.len(),
{
    if s.len() > 0 {
        lemma_nl_count_le(s.drop_last());
    }
}

/// Count the lines of the prefix `v[..upto]`, as `line_count` specifies.
pub fn count_lines_upto(v: &[u8], upto: usize) -> (r: usize)
    requires
        upto <= v@.len(),
    ensures
        r == line_count(v@.take(upto as int)),
{
    if upto == 0 {
        return 0;
    }
    let mut nl: usize = 0;
    let mut i: usize = 0;
    while i < upto
        invariant
            i <= upto <= v@.len(),
            nl == nl_count(v@.take(i as int)),
            nl <= i,
        decreases upto - i,
    {
        proof {
            assert(v@.take(i + 1).drop_last() =~= v@.take(i as int));
        }
        if v[i] == NL {
            nl = nl + 1;
        }
        i = i + 1;
    }
    if v[upto - 1] == NL {
        nl
    } else {
        proof {
            let p = v@.take(upto as int);
            lemma_nl_count_le(p.drop_last());
            assert(p.last() == v@[upto - 1]);
            assert(nl_count(p) == nl_count(p.drop_last()));
        }
        nl + 1
    }
}

/// The line `l` with one trailing carriage return removed, as `str::lines`
/// does.
pub open spec fn strip_cr(l: Seq<u8>) -> Seq<u8> {
    if l.len() > 0 && l.last() == CR {
        l.drop_last()
    } else {
        l
    }
}

/// The lines of `s` under the semantics of `str::lines`: split at newline
/// bytes, drop a carriage return directly before each newline, and do not
/// produce a final empty line after a trailing newline. `cur` is the
/// partial line accumulated so far.
pub open spec fn lines_rec(s: Seq<u8>, cur: Seq<u8>) -> Seq<Seq<u8>>
    decreases s.len(),
{
    if s.len() == 0 {
        if cur.len() == 0 {
            Seq::empty()
        } else {
            seq![cur]
        }
    } else if s.first() == NL {
        seq![strip_cr(cur)] + lines_rec(s.drop_first(), Seq::empty())
    } else {
        lines_rec(s.drop_first(), cur.push(s.first()))
    }
}

pub open spec fn spec_lines(s: Seq<u8>) -> Seq<Seq<u8>> {
    lines_rec(s, Seq::empty())
}

/// Split `v` into its lines.
pub fn split_lines(v: &[u8]) -> (r: Vec<Vec<u8>>)
    ensures
        r.deep_view() == spec_lines(v@),
{
    let mut out: Vec<Vec<u8>> = Vec::new();
    let mut cur: Vec<u8> = Vec::new();
    let mut i: usize = 0;
    proof {
        assert(v@.skip(0) =~= v@);
        assert(out.deep_view() =~= Seq::<Seq<u8>>::empty());
        assert(Seq::<Seq<u8>>::empty() + lines_rec(v@, Seq::empty()) =~= lines_rec(
            v@,
            Seq::empty(),
        ));
    }
    while i < v.len()
        invariant
            i <= v@.len(),
            spec_lines(v@) == out.deep_view() + lines_rec(v@.skip(i as int), cur@),
        decreases v@.len() - i,
    {
        let ghost rest = v@.skip(i as int);
        let ghost cur0 = cur@;
        let ghost out0 = out.deep_view();
        proof {
            assert(rest.len() > 0);
            assert(rest.drop_first() =~= v@.skip(i + 1));
            assert(rest.first() == v@[i as int]);
        }
        let b = v[i];
        if b == NL {
            let mut line = cur;
            cur = Vec::new();
            if line.len() > 0 && line[line.len() - 1] == CR {
                line.pop();
            }
            proof {
                assert(line@ =~= strip_cr(cur0));
            }
            out.push(line);
            proof {
                assert(out.deep_view() =~~= out0.push(strip_cr(cur0)));
                assert(lines_rec(rest, cur0) =~= seq![strip_cr(cur0)] + lines_rec(
                    rest.drop_first(),
                    Seq::empty(),
                ));
                assert(out0.push(strip_cr(cur0)) + lines_rec(v@.skip(i + 1), Seq::empty())
                    =~= out0 + lines_rec(rest, cur0));
            }
        } else {
            cur.push(b);
            proof {
                assert(lines_rec(rest, cur0) == lines_rec(rest.drop_first(), cur0.push(b)));
            }
        }
        i = i + 1;
    }
    let ghost curf = cur@;
    let ghost outf = out.deep_view();
    proof {
        assert(v@.skip(v@.len() as int) =~= Seq::<u8>::empty());
    }
    if cur.len() > 0 {
        out.push(cur);
        proof {
            assert(out.deep_view() =~~= outf.push(curf));
            assert(lines_rec(Seq::<u8>::empty(), curf) =~= seq![curf]);
            assert(outf + lines_rec(Seq::<u8>::empty(), curf) =~= outf.push(curf));
        }
    } else {
        proof {
            assert(outf + lines_rec(Seq::<u8>::empty(), curf) =~= outf);
        }
    }
    out
}

/// The lines joined with single newline bytes (no trailing newline).
pub open spec fn join_nl(lines: Seq<Seq<u8>>) -> Seq<u8>
    decreases lines.len(),
{
    if lines.len() == 0 {
        Seq::empty()
    } else if lines.len() == 1 {
        lines[0]
    } else {
        join_nl(lines.drop_last()) + seq![NL] + lines.last()
    }
}

/// Join byte lines with newline separators.
pub fn join_lines(lines: &Vec<Vec<u8>>) -> (r: Vec<u8>)
    ensures
        r@ == join_nl(lines.deep_view()),
{
    let mut out: Vec<u8> = Vec::new();
    let mut i: usize = 0;
    while i < lines.len()
        invariant
            i <= lines@.len(),
            out@ == join_nl(lines.deep_view().take(i as int)),
        decreases lines@.len() - i,
    {
        if i > 0 {
            out.push(NL);
        }
        let mut k: usize = 0;
        while k < lines[i].len()
            invariant
                i < lines@.len(),
                k <= lines@[i as int]@.len(),
                out@ == join_nl(lines.deep_view().take(i as int)) + (if i > 0 {
                    seq![NL]
                } else {
                    Seq::<u8>::empty()
                }) + lines@[i as int]@.take(k as int),
            decreases lines@[i as int]@.len() - k,
        {
            let b = lines[i][k];
            out.push(b);
            proof {
                assert(lines@[i as int]@.take(k + 1) =~= lines@[i as int]@.take(k as int).push(
                    b,
                ));
            }
            k = k + 1;
        }
        proof {
            let dv = lines.deep_view();
            assert(lines@[i as int]@.take(lines@[i as int]@.len() as int) =~= dv[i as int]);
            assert(dv.take(i + 1).drop_last() =~= dv.take(i as int));
            assert(dv.take(i + 1).last() == dv[i as int]);
            if i > 0 {
                assert(out@ =~= join_nl(dv.take(i + 1)));
            } else {
                assert(dv.take(1).len() == 1);
                assert(out@ =~= join_nl(dv.take(1)));
            }
        }
        i = i + 1;
    }
    proof {
        assert(lines.deep_view().take(lines@.len() as int) =~= lines.deep_view());
    }
    out
}

/// `needle` occurs as a contiguous run inside `hay`.
pub open spec fn has_run(hay: Seq<u8>, needle: Seq<u8>) -> bool {
    exists|k: int|
        0 <= k && k + needle.len() <= hay.len() && #[trigger] hay.subrange(
            k,
            k + needle.len() as int,
        ) =~= needle
}

/// Whether `needle` occurs at position `k` of `hay`.
fn run_at(hay: &[u8], needle: &[u8], k: usize) -> (r: bool)
    requires
        k + needle@.len() <= hay@.len(),
    ensures
        r == (hay@.subrange(k as int, k + needle@.len() as int) =~= needle@),
{
    let hn = hay.len();
    let mut j: usize = 0;
    while j < needle.len()
        invariant
            j <= needle@.len(),
            k + needle@.len() <= hay@.len(),
            hn == hay@.len(),
            forall|t: int| 0 <= t < j ==> hay@[k + t] == needle@[t],
        decreases needle@.len() - j,
    {
        if hay[k + j] != needle[j] {
            proof {
                assert(hay@.subrange(k as int, k + needle@.len() as int)[j as int] == hay@[k
                    + j]);
            }
            return false;
        }
        j = j + 1;
    }
    proof {
        assert(hay@.subrange(k as int, k + needle@.len() as int) =~= needle@);
    }
    true
}

/// Naive substring search over bytes.
pub fn contains_run(hay: &[u8], needle: &[u8]) -> (r: bool)
    ensures
        r == has_run(hay@, needle@),
{
    if needle.len() > hay.len() {
        proof {
            assert(!has_run(hay@, needle@));
        }
        return false;
    }
    if needle.len() == 0 {
        proof {
            assert(hay@.subrange(0, 0 + needle@.len() as int) =~= needle@);
        }
        return true;
    }
    let mut k: usize = 0;
    let last = hay.len() - needle.len();
    while k <= last
        invariant
            1 <= needle@.len() <= hay@.len(),
            last == hay@.len() - needle@.len(),
            k <= last + 1,
            last < usize::MAX,
            forall|t: int|
                0 <= t < k ==> !(#[trigger] hay@.subrange(t, t + needle@.len() as int)
                    =~= needle@),
        decreases last + 1 - k,
    {
        if run_at(hay, needle, k) {
            return true;
        }
        k = k + 1;
    }
    proof {
        assert(!has_run(hay@, needle@));
    }
    false
}

/// The decimal digit characters of `n`, most significant first.
pub open spec fn dec_digits(n: nat) -> Seq<char>
    decreases n,
{
    if n < 10 {
        seq![digit_char(n)]
    } else {
        dec_digits(n / 10).push(digit_char(n % 10))
    }
}

pub open spec fn digit_char(d: nat) -> char {
    if d == 0 {
        '0'
    } else if d == 1 {
        '1'
    } else if d == 2 {
        '2'
    } else if d == 3 {
        '3'
    } else if d == 4 {
        '4'
    } else if d == 5 {
        '5'
    } else if d == 6 {
        '6'
    } else if d == 7 {
        '7'
    } else if d == 8 {
        '8'
    } else {
        '9'
    }
}

fn digit_str(d: u64) -> (r: &'static str)
    requires
        d < 10,
    ensures
        r@ =~= seq![digit_char(d as nat)],
{
    let r = if d == 0 {
        "0"
    } else if d == 1 {
        "1"
    } else if d == 2 {
        "2"
    } else if d == 3 {
        "3"
    } else if d == 4 {
        "4"
    } else if d == 5 {
        "5"
    } else if d == 6 {
        "6"
    } else if d == 7 {
        "7"
    } else if d == 8 {
        "8"
    } else {
        "9"
    };
    proof {
        reveal_strlit("0");
        reveal_strlit("1");
        reveal_strlit("2");
        reveal_strlit("3");
        reveal_strlit("4");
        reveal_strlit("5");
        reveal_strlit("6");
        reveal_strlit("7");
        reveal_strlit("8");
        reveal_strlit("9");
    }
    r
}

/// Render `n` in decimal.
pub fn dec_string(n: u64) -> (r: String)
    ensures
        r@ == dec_digits(n as nat),
    decreases n,
{
    if n < 10 {
        digit_str(n).to_owned()
    } else {
        let mut s = dec_string(n / 10);
        s.append(digit_str(n % 10));
        proof {
            assert(dec_digits((n / 10) as nat).push(digit_char((n % 10) as nat)) =~= dec_digits(
                (n / 10) as nat,
            ) + seq![digit_char((n % 10) as nat)]);
        }
        s
    }
}

} // verus!
