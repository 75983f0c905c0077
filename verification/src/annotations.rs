//! Persistence of annotations: file definitions, file marks and symbol
//! definitions are serialized to a line-based byte format and read back.
//!
//! The format is one record per line. A record is tab-separated fields,
//! the first being a one-byte tag (`D` file definition, `M` file mark,
//! `S` symbol definition); every value field is escaped so that it
//! contains neither tabs nor newlines. Decoding what was encoded yields
//! the records back exactly.

use vstd::prelude::*;
use vstd::utf8::{decode_utf8, encode_utf8, valid_utf8};
use crate::filetree::{ft_get, ft_has, FileTree};
use crate::symtab::{prim_get, prim_has, SymbolTable};
use crate::text::NL;

verus! {

use vstd::string::StringExecFns;
use vstd::string::StringSliceAdditionalSpecFns;

broadcast use vstd::utf8::group_utf8_lib;

pub const TAB: u8 = 9;

pub const BSL: u8 = 92;

pub const TAG_DEF: u8 = 68;

pub const TAG_MARK: u8 = 77;

pub const TAG_SYM: u8 = 83;

/// Escaping of one byte: backslash, newline and tab become two-byte
/// escapes; everything else stands for itself.
pub open spec fn esc_byte(b: u8) -> Seq<u8> {
    if b == BSL {
        seq![BSL, BSL]
    } else if b == NL {
        seq![BSL, 110]
    } else if b == TAB {
        seq![BSL, 116]
    } else {
        seq![b]
    }
}

pub open spec fn escape(s: Seq<u8>) -> Seq<u8>
    decreases s.len(),
{
    if s.len() == 0 {
        Seq::empty()
    } else {
        esc_byte(s.first()) + escape(s.drop_first())
    }
}

pub open spec fn un_pair(b: u8) -> u8 {
    if b == 110 {
        NL
    } else if b == 116 {
        TAB
    } else {
        b
    }
}

pub open spec fn unescape(s: Seq<u8>) -> Seq<u8>
    decreases s.len(),
{
    if s.len() == 0 {
        Seq::empty()
    } else if s.first() == BSL && s.len() >= 2 {
        seq![un_pair(s[1])] + unescape(s.skip(2))
    } else {
        seq![s.first()] + unescape(s.skip(1))
    }
}

/// Law: unescaping undoes escaping.
pub proof fn lemma_unescape_escape(s: Seq<u8>)
    ensures
        unescape(escape(s)) == s,
    decreases s.len(),
{
    if s.len() == 0 {
        assert(unescape(escape(s)) =~= s);
    } else {
        let e = esc_byte(s.first());
        let rest = escape(s.drop_first());
        assert(escape(s) == e + rest);
        lemma_unescape_escape(s.drop_first());
        if s.first() == BSL || s.first() == NL || s.first() == TAB {
            assert(escape(s).len() >= 2);
            assert(escape(s)[0] == BSL);
            assert(escape(s)[1] == e[1]);
            assert(escape(s).skip(2) =~= rest);
            assert(un_pair(e[1]) == s.first());
            assert(unescape(escape(s)) =~= s);
        } else {
            assert(escape(s)[0] == s.first());
            assert(escape(s)[0] != BSL);
            assert(escape(s).skip(1) =~= rest);
            assert(unescape(escape(s)) =~= s);
        }
    }
}

/// Escaped text contains neither separator.
pub proof fn lemma_escape_sep_free(s: Seq<u8>)
    ensures
        forall|i: int| 0 <= i < escape(s).len() ==> escape(s)[i] != NL && escape(s)[i] != TAB,
    decreases s.len(),
{
    if s.len() > 0 {
        lemma_escape_sep_free(s.drop_first());
        let e = esc_byte(s.first());
        assert forall|i: int|
            0 <= i < escape(s).len() implies escape(s)[i] != NL && escape(s)[i] != TAB by {
            if i < e.len() {
                assert(escape(s)[i] == e[i]);
            } else {
                assert(escape(s)[i] == escape(s.drop_first())[i - e.len()]);
            }
        }
    }
}

/// Escape a byte text.
pub fn escape_bytes(v: &[u8]) -> (r: Vec<u8>)
    ensures
        r@ == escape(v@),
{
    let mut out: Vec<u8> = Vec::new();
    let mut i: usize = 0;
    proof {
        assert(v@.skip(0) =~= v@);
        assert(out@ + escape(v@) =~= escape(v@));
    }
    while i < v.len()
        invariant
            i <= v@.len(),
            escape(v@) == out@ + escape(v@.skip(i as int)),
        decreases v@.len() - i,
    {
        let ghost rest = v@.skip(i as int);
        proof {
            assert(rest.first() == v@[i as int]);
            assert(rest.drop_first() =~= v@.skip(i + 1));
        }
        let b = v[i];
        let ghost o0 = out@;
        if b == BSL {
            out.push(BSL);
            out.push(BSL);
        } else if b == NL {
            out.push(BSL);
            out.push(110);
        } else if b == TAB {
            out.push(BSL);
            out.push(116);
        } else {
            out.push(b);
        }
        proof {
            assert(out@ =~= o0 + esc_byte(v@[i as int]));
            assert(o0 + (esc_byte(rest.first()) + escape(rest.drop_first())) =~= out@
                + escape(v@.skip(i + 1)));
        }
        i = i + 1;
    }
    proof {
        assert(v@.skip(v@.len() as int) =~= Seq::<u8>::empty());
        assert(out@ + Seq::<u8>::empty() =~= out@);
    }
    out
}

/// Unescape a byte text.
pub fn unescape_bytes(v: &[u8]) -> (r: Vec<u8>)
    ensures
        r@ == unescape(v@),
{
    let mut out: Vec<u8> = Vec::new();
    let mut i: usize = 0;
    proof {
        assert(v@.skip(0) =~= v@);
        assert(out@ + unescape(v@) =~= unescape(v@));
    }
    while i < v.len()
        invariant
            i <= v@.len(),
            unescape(v@) == out@ + unescape(v@.skip(i as int)),
        decreases v@.len() - i,
    {
        let ghost rest = v@.skip(i as int);
        proof {
            assert(rest.first() == v@[i as int]);
            assert(rest.skip(1) =~= v@.skip(i + 1));
            if rest.len() >= 2 {
                assert(rest[1] == v@[i + 1]);
                assert(rest.skip(2) =~= v@.skip(i + 2));
            }
        }
        let b = v[i];
        let ghost o0 = out@;
        if b == BSL && i + 1 < v.len() {
            let c = v[i + 1];
            if c == 110 {
                out.push(NL);
            } else if c == 116 {
                out.push(TAB);
            } else {
                out.push(c);
            }
            proof {
                assert(out@ =~= o0 + seq![un_pair(v@[i + 1])]);
                assert(o0 + (seq![un_pair(rest[1])] + unescape(rest.skip(2))) =~= out@
                    + unescape(v@.skip(i + 2)));
            }
            i = i + 2;
        } else {
            out.push(b);
            proof {
                assert(out@ =~= o0 + seq![rest.first()]);
                if b == BSL {
                    assert(rest.len() < 2);
                }
                assert(o0 + (seq![rest.first()] + unescape(rest.skip(1))) =~= out@
                    + unescape(v@.skip(i + 1)));
            }
            i = i + 1;
        }
    }
    proof {
        assert(v@.skip(v@.len() as int) =~= Seq::<u8>::empty());
        assert(out@ + Seq::<u8>::empty() =~= out@);
    }
    out
}

/// Fields joined with a separator byte, front-recursively.
pub open spec fn join_sep(fs: Seq<Seq<u8>>, sep: u8) -> Seq<u8>
    decreases fs.len(),
{
    if fs.len() == 0 {
        Seq::empty()
    } else if fs.len() == 1 {
        fs.first()
    } else {
        fs.first() + seq![sep] + join_sep(fs.drop_first(), sep)
    }
}

/// Splitting at a separator: always yields one more field than there are
/// separators; `cur` is the partial field accumulated so far.
pub open spec fn split_rec(s: Seq<u8>, cur: Seq<u8>, sep: u8) -> Seq<Seq<u8>>
    decreases s.len(),
{
    if s.len() == 0 {
        seq![cur]
    } else if s.first() == sep {
        seq![cur] + split_rec(s.drop_first(), Seq::empty(), sep)
    } else {
        split_rec(s.drop_first(), cur.push(s.first()), sep)
    }
}

pub open spec fn split_sep(s: Seq<u8>, sep: u8) -> Seq<Seq<u8>> {
    split_rec(s, Seq::empty(), sep)
}

/// A field is free of the separator.
pub open spec fn sep_free(f: Seq<u8>, sep: u8) -> bool {
    forall|i: int| 0 <= i < f.len() ==> f[i] != sep
}

proof fn lemma_split_shift(w: Seq<u8>, rest: Seq<u8>, cur: Seq<u8>, sep: u8)
    requires
        sep_free(w, sep),
    ensures
        split_rec(w + rest, cur, sep) == split_rec(rest, cur + w, sep),
    decreases w.len(),
{
    if w.len() == 0 {
        assert(w + rest =~= rest);
        assert(cur + w =~= cur);
    } else {
        let s = w + rest;
        assert(s.first() == w.first());
        assert(s.first() != sep);
        assert(s.drop_first() =~= w.drop_first() + rest);
        lemma_split_shift(w.drop_first(), rest, cur.push(w.first()), sep);
        assert(cur.push(w.first()) + w.drop_first() =~= cur + w);
    }
}

/// Law: splitting undoes joining when every field is separator-free.
pub proof fn lemma_split_join(fs: Seq<Seq<u8>>, sep: u8)
    requires
        fs.len() >= 1,
        forall|t: int| 0 <= t < fs.len() ==> sep_free(#[trigger] fs[t], sep),
    ensures
        split_sep(join_sep(fs, sep), sep) == fs,
    decreases fs.len(),
{
    if fs.len() == 1 {
        lemma_split_shift(fs.first(), Seq::empty(), Seq::empty(), sep);
        assert(fs.first() + Seq::<u8>::empty() =~= fs.first());
        assert(Seq::<u8>::empty() + fs.first() =~= fs.first());
        assert(split_rec(Seq::<u8>::empty(), fs.first(), sep) =~= seq![fs.first()]);
        assert(seq![fs.first()] =~= fs);
    } else {
        let j = join_sep(fs, sep);
        assert(j == fs.first() + seq![sep] + join_sep(fs.drop_first(), sep));
        assert(j =~= fs.first() + (seq![sep] + join_sep(fs.drop_first(), sep)));
        lemma_split_shift(
            fs.first(),
            seq![sep] + join_sep(fs.drop_first(), sep),
            Seq::empty(),
            sep,
        );
        let mid = seq![sep] + join_sep(fs.drop_first(), sep);
        assert(mid.first() == sep);
        assert(mid.drop_first() =~= join_sep(fs.drop_first(), sep));
        assert(Seq::<u8>::empty() + fs.first() =~= fs.first());
        assert(split_rec(mid, fs.first(), sep) == seq![fs.first()] + split_rec(
            join_sep(fs.drop_first(), sep),
            Seq::empty(),
            sep,
        ));
        assert forall|t: int|
            0 <= t < fs.drop_first().len() implies sep_free(
            #[trigger] fs.drop_first()[t],
            sep,
        ) by {
            assert(fs.drop_first()[t] == fs[t + 1]);
        }
        lemma_split_join(fs.drop_first(), sep);
        assert(seq![fs.first()] + fs.drop_first() =~= fs);
    }
}

/// Split a byte text at a separator.
pub fn split_bytes(v: &[u8], sep: u8) -> (r: Vec<Vec<u8>>)
    ensures
        r.deep_view() == split_sep(v@, sep),
{
    let mut out: Vec<Vec<u8>> = Vec::new();
    let mut cur: Vec<u8> = Vec::new();
    let mut i: usize = 0;
    proof {
        assert(v@.skip(0) =~= v@);
        assert(out.deep_view() =~= Seq::<Seq<u8>>::empty());
        assert(Seq::<Seq<u8>>::empty() + split_rec(v@, Seq::empty(), sep) =~= split_rec(
            v@,
            Seq::empty(),
            sep,
        ));
    }
    while i < v.len()
        invariant
            i <= v@.len(),
            split_sep(v@, sep) == out.deep_view() + split_rec(v@.skip(i as int), cur@, sep),
        decreases v@.len() - i,
    {
        let ghost rest = v@.skip(i as int);
        let ghost cur0 = cur@;
        let ghost out0 = out.deep_view();
        proof {
            assert(rest.first() == v@[i as int]);
            assert(rest.drop_first() =~= v@.skip(i + 1));
        }
        let b = v[i];
        if b == sep {
            let line = cur;
            cur = Vec::new();
            out.push(line);
            proof {
                assert(out.deep_view() =~~= out0.push(cur0));
                assert(split_rec(rest, cur0, sep) =~= seq![cur0] + split_rec(
                    rest.drop_first(),
                    Seq::empty(),
                    sep,
                ));
                assert(out0.push(cur0) + split_rec(v@.skip(i + 1), Seq::empty(), sep)
                    =~= out0 + split_rec(rest, cur0, sep));
            }
        } else {
            cur.push(b);
            proof {
                assert(split_rec(rest, cur0, sep) == split_rec(
                    rest.drop_first(),
                    cur0.push(b),
                    sep,
                ));
            }
        }
        i = i + 1;
    }
    let ghost curf = cur@;
    let ghost outf = out.deep_view();
    out.push(cur);
    proof {
        assert(v@.skip(v@.len() as int) =~= Seq::<u8>::empty());
        assert(out.deep_view() =~~= outf.push(curf));
        assert(split_rec(Seq::<u8>::empty(), curf, sep) =~= seq![curf]);
        assert(outf + split_rec(Seq::<u8>::empty(), curf, sep) =~= outf.push(curf));
    }
    out
}

/// Join byte fields with a separator.
pub fn join_bytes(fs: &Vec<Vec<u8>>, sep: u8) -> (r: Vec<u8>)
    requires
        fs@.len() >= 1,
    ensures
        r@ == join_sep(fs.deep_view(), sep),
{
    let mut out: Vec<u8> = Vec::new();
    let mut i: usize = 0;
    proof {
        assert(fs.deep_view().skip(0) =~= fs.deep_view());
    }
    while i < fs.len()
        invariant
            i <= fs@.len(),
            fs@.len() >= 1,
            i < fs@.len() ==> join_sep(fs.deep_view(), sep) == out@ + join_sep(
                fs.deep_view().skip(i as int),
                sep,
            ),
            i == fs@.len() ==> join_sep(fs.deep_view(), sep) == out@,
        decreases fs@.len() - i,
    {
        let ghost rest = fs.deep_view().skip(i as int);
        proof {
            assert(rest.first() == fs.deep_view()[i as int]);
            assert(rest.drop_first() =~= fs.deep_view().skip(i + 1));
            assert(fs.deep_view()[i as int] == fs@[i as int]@);
        }
        let ghost o0 = out@;
        out.extend_from_slice(fs[i].as_slice());
        proof {
            assert(out@ =~= o0 + rest.first());
        }
        if i + 1 < fs.len() {
            out.push(sep);
            proof {
                assert(rest.len() >= 2);
                assert(join_sep(rest, sep) == rest.first() + seq![sep] + join_sep(
                    rest.drop_first(),
                    sep,
                ));
                assert(o0 + (rest.first() + seq![sep] + join_sep(rest.drop_first(), sep))
                    =~= out@ + join_sep(fs.deep_view().skip(i + 1), sep));
            }
        } else {
            proof {
                assert(rest.len() == 1);
                assert(join_sep(rest, sep) == rest.first());
                assert(o0 + rest.first() =~= out@);
            }
        }
        i = i + 1;
    }
    out
}

/// The annotations of a project, as plain values: file definitions, file
/// marks, and symbol definitions keyed by (file, symbol name).
pub struct AnnotationData {
    pub file_definitions: Vec<(String, String)>,
    pub file_marks: Vec<(String, String)>,
    pub symbol_definitions: Vec<(String, String, String)>,
}

pub open spec fn pviews(s: Seq<(String, String)>) -> Seq<(Seq<u8>, Seq<u8>)> {
    s.map_values(|p: (String, String)| (encode_utf8(p.0@), encode_utf8(p.1@)))
}

pub open spec fn tviews(s: Seq<(String, String, String)>) -> Seq<(Seq<u8>, Seq<u8>, Seq<u8>)> {
    s.map_values(
        |p: (String, String, String)|
            (encode_utf8(p.0@), encode_utf8(p.1@), encode_utf8(p.2@)),
    )
}

pub open spec fn d_line(p: (Seq<u8>, Seq<u8>)) -> Seq<u8> {
    join_sep(seq![seq![TAG_DEF], escape(p.0), escape(p.1)], TAB)
}

pub open spec fn m_line(p: (Seq<u8>, Seq<u8>)) -> Seq<u8> {
    join_sep(seq![seq![TAG_MARK], escape(p.0), escape(p.1)], TAB)
}

pub open spec fn s_line(p: (Seq<u8>, Seq<u8>, Seq<u8>)) -> Seq<u8> {
    join_sep(seq![seq![TAG_SYM], escape(p.0), escape(p.1), escape(p.2)], TAB)
}

pub open spec fn all_lines(
    d: Seq<(Seq<u8>, Seq<u8>)>,
    m: Seq<(Seq<u8>, Seq<u8>)>,
    s: Seq<(Seq<u8>, Seq<u8>, Seq<u8>)>,
) -> Seq<Seq<u8>> {
    d.map_values(|p: (Seq<u8>, Seq<u8>)| d_line(p)) + m.map_values(
        |p: (Seq<u8>, Seq<u8>)| m_line(p),
    ) + s.map_values(|p: (Seq<u8>, Seq<u8>, Seq<u8>)| s_line(p))
}

/// The serialized form of annotation records.
pub open spec fn encode_spec(
    d: Seq<(Seq<u8>, Seq<u8>)>,
    m: Seq<(Seq<u8>, Seq<u8>)>,
    s: Seq<(Seq<u8>, Seq<u8>, Seq<u8>)>,
) -> Seq<u8> {
    if all_lines(d, m, s).len() == 0 {
        Seq::empty()
    } else {
        join_sep(all_lines(d, m, s), NL)
    }
}

/// A parsed record.
pub enum RecV {
    FileDef((Seq<u8>, Seq<u8>)),
    FileMark((Seq<u8>, Seq<u8>)),
    SymDef((Seq<u8>, Seq<u8>, Seq<u8>)),
}

pub open spec fn parse_line(l: Seq<u8>) -> Option<RecV> {
    let fs = split_sep(l, TAB);
    if fs.len() == 3 && fs[0] == seq![TAG_DEF] {
        Some(RecV::FileDef((unescape(fs[1]), unescape(fs[2]))))
    } else if fs.len() == 3 && fs[0] == seq![TAG_MARK] {
        Some(RecV::FileMark((unescape(fs[1]), unescape(fs[2]))))
    } else if fs.len() == 4 && fs[0] == seq![TAG_SYM] {
        Some(RecV::SymDef((unescape(fs[1]), unescape(fs[2]), unescape(fs[3]))))
    } else {
        None
    }
}

pub open spec fn parse_lines(
    ls: Seq<Seq<u8>>,
    ad: Seq<(Seq<u8>, Seq<u8>)>,
    am: Seq<(Seq<u8>, Seq<u8>)>,
    asym: Seq<(Seq<u8>, Seq<u8>, Seq<u8>)>,
) -> Option<(Seq<(Seq<u8>, Seq<u8>)>, Seq<(Seq<u8>, Seq<u8>)>, Seq<(Seq<u8>, Seq<u8>, Seq<u8>)>)>
    decreases ls.len(),
{
    if ls.len() == 0 {
        Some((ad, am, asym))
    } else {
        match parse_line(ls.first()) {
            None => None,
            Some(RecV::FileDef(p)) => parse_lines(ls.drop_first(), ad.push(p), am, asym),
            Some(RecV::FileMark(p)) => parse_lines(ls.drop_first(), ad, am.push(p), asym),
            Some(RecV::SymDef(p)) => parse_lines(ls.drop_first(), ad, am, asym.push(p)),
        }
    }
}

/// The records read back from a serialized form, or nothing when the
/// bytes are not in the format.
pub open spec fn parse_spec(bytes: Seq<u8>) -> Option<
    (Seq<(Seq<u8>, Seq<u8>)>, Seq<(Seq<u8>, Seq<u8>)>, Seq<(Seq<u8>, Seq<u8>, Seq<u8>)>),
> {
    if bytes.len() == 0 {
        Some((Seq::empty(), Seq::empty(), Seq::empty()))
    } else {
        parse_lines(split_sep(bytes, NL), Seq::empty(), Seq::empty(), Seq::empty())
    }
}

proof fn lemma_join_tab_nl_free(fs: Seq<Seq<u8>>)
    requires
        forall|t: int| 0 <= t < fs.len() ==> sep_free(#[trigger] fs[t], NL),
    ensures
        sep_free(join_sep(fs, TAB), NL),
    decreases fs.len(),
{
    if fs.len() == 0 {
    } else if fs.len() == 1 {
        assert(sep_free(fs[0], NL));
    } else {
        assert forall|t: int|
            0 <= t < fs.drop_first().len() implies sep_free(
            #[trigger] fs.drop_first()[t],
            NL,
        ) by {
            assert(fs.drop_first()[t] == fs[t + 1]);
        }
        lemma_join_tab_nl_free(fs.drop_first());
        let j = join_sep(fs, TAB);
        assert(j == fs.first() + seq![TAB] + join_sep(fs.drop_first(), TAB));
        assert forall|i: int| 0 <= i < j.len() implies j[i] != NL by {
            if i < fs.first().len() {
                assert(j[i] == fs.first()[i]);
            } else if i == fs.first().len() {
                assert(j[i] == TAB);
            } else {
                assert(j[i] == join_sep(fs.drop_first(), TAB)[i - fs.first().len() - 1]);
            }
        }
    }
}

proof fn lemma_escape_tab_free(s: Seq<u8>)
    ensures
        sep_free(escape(s), TAB),
        sep_free(escape(s), NL),
{
    lemma_escape_sep_free(s);
}

proof fn lemma_d_line_roundtrip(p: (Seq<u8>, Seq<u8>))
    ensures
        parse_line(d_line(p)) == Some(RecV::FileDef(p)),
        sep_free(d_line(p), NL),
{
    let fs = seq![seq![TAG_DEF], escape(p.0), escape(p.1)];
    lemma_escape_tab_free(p.0);
    lemma_escape_tab_free(p.1);
    assert forall|t: int| 0 <= t < fs.len() implies sep_free(#[trigger] fs[t], TAB) by {
        if t == 0 {
            assert(fs[0] == seq![TAG_DEF]);
            assert(forall|i: int| 0 <= i < 1 ==> seq![TAG_DEF][i] != TAB);
        }
    }
    lemma_split_join(fs, TAB);
    lemma_unescape_escape(p.0);
    lemma_unescape_escape(p.1);
    assert(parse_line(d_line(p)) == Some(RecV::FileDef(p)));
    assert forall|t: int| 0 <= t < fs.len() implies sep_free(#[trigger] fs[t], NL) by {
        if t == 0 {
            assert(forall|i: int| 0 <= i < 1 ==> seq![TAG_DEF][i] != NL);
        }
    }
    lemma_join_tab_nl_free(fs);
}

proof fn lemma_m_line_roundtrip(p: (Seq<u8>, Seq<u8>))
    ensures
        parse_line(m_line(p)) == Some(RecV::FileMark(p)),
        sep_free(m_line(p), NL),
{
    let fs = seq![seq![TAG_MARK], escape(p.0), escape(p.1)];
    lemma_escape_tab_free(p.0);
    lemma_escape_tab_free(p.1);
    assert forall|t: int| 0 <= t < fs.len() implies sep_free(#[trigger] fs[t], TAB) by {
        if t == 0 {
            assert(forall|i: int| 0 <= i < 1 ==> seq![TAG_MARK][i] != TAB);
        }
    }
    lemma_split_join(fs, TAB);
    lemma_unescape_escape(p.0);
    lemma_unescape_escape(p.1);
    assert(split_sep(m_line(p), TAB)[0] == seq![TAG_MARK]);
    assert(seq![TAG_MARK] != seq![TAG_DEF]) by {
        assert(seq![TAG_MARK][0] != seq![TAG_DEF][0]);
    }
    assert(parse_line(m_line(p)) == Some(RecV::FileMark(p)));
    assert forall|t: int| 0 <= t < fs.len() implies sep_free(#[trigger] fs[t], NL) by {
        if t == 0 {
            assert(forall|i: int| 0 <= i < 1 ==> seq![TAG_MARK][i] != NL);
        }
    }
    lemma_join_tab_nl_free(fs);
}

proof fn lemma_s_line_roundtrip(p: (Seq<u8>, Seq<u8>, Seq<u8>))
    ensures
        parse_line(s_line(p)) == Some(RecV::SymDef(p)),
        sep_free(s_line(p), NL),
{
    let fs = seq![seq![TAG_SYM], escape(p.0), escape(p.1), escape(p.2)];
    lemma_escape_tab_free(p.0);
    lemma_escape_tab_free(p.1);
    lemma_escape_tab_free(p.2);
    assert forall|t: int| 0 <= t < fs.len() implies sep_free(#[trigger] fs[t], TAB) by {
        if t == 0 {
            assert(forall|i: int| 0 <= i < 1 ==> seq![TAG_SYM][i] != TAB);
        }
    }
    lemma_split_join(fs, TAB);
    lemma_unescape_escape(p.0);
    lemma_unescape_escape(p.1);
    lemma_unescape_escape(p.2);
    assert(parse_line(s_line(p)) == Some(RecV::SymDef(p)));
    assert forall|t: int| 0 <= t < fs.len() implies sep_free(#[trigger] fs[t], NL) by {
        if t == 0 {
            assert(forall|i: int| 0 <= i < 1 ==> seq![TAG_SYM][i] != NL);
        }
    }
    lemma_join_tab_nl_free(fs);
}

proof fn lemma_parse_d_segment(
    ps: Seq<(Seq<u8>, Seq<u8>)>,
    rest: Seq<Seq<u8>>,
    ad: Seq<(Seq<u8>, Seq<u8>)>,
    am: Seq<(Seq<u8>, Seq<u8>)>,
    asym: Seq<(Seq<u8>, Seq<u8>, Seq<u8>)>,
)
    ensures
        parse_lines(ps.map_values(|p: (Seq<u8>, Seq<u8>)| d_line(p)) + rest, ad, am, asym)
            == parse_lines(rest, ad + ps, am, asym),
    decreases ps.len(),
{
    let ls = ps.map_values(|p: (Seq<u8>, Seq<u8>)| d_line(p));
    if ps.len() == 0 {
        assert(ls + rest =~= rest);
        assert(ad + ps =~= ad);
    } else {
        assert((ls + rest).first() == d_line(ps[0]));
        assert((ls + rest).drop_first() =~= ps.drop_first().map_values(
            |p: (Seq<u8>, Seq<u8>)| d_line(p),
        ) + rest);
        lemma_d_line_roundtrip(ps[0]);
        lemma_parse_d_segment(ps.drop_first(), rest, ad.push(ps[0]), am, asym);
        assert(ad.push(ps[0]) + ps.drop_first() =~= ad + ps);
    }
}

proof fn lemma_parse_m_segment(
    ps: Seq<(Seq<u8>, Seq<u8>)>,
    rest: Seq<Seq<u8>>,
    ad: Seq<(Seq<u8>, Seq<u8>)>,
    am: Seq<(Seq<u8>, Seq<u8>)>,
    asym: Seq<(Seq<u8>, Seq<u8>, Seq<u8>)>,
)
    ensures
        parse_lines(ps.map_values(|p: (Seq<u8>, Seq<u8>)| m_line(p)) + rest, ad, am, asym)
            == parse_lines(rest, ad, am + ps, asym),
    decreases ps.len(),
{
    let ls = ps.map_values(|p: (Seq<u8>, Seq<u8>)| m_line(p));
    if ps.len() == 0 {
        assert(ls + rest =~= rest);
        assert(am + ps =~= am);
    } else {
        assert((ls + rest).first() == m_line(ps[0]));
        assert((ls + rest).drop_first() =~= ps.drop_first().map_values(
            |p: (Seq<u8>, Seq<u8>)| m_line(p),
        ) + rest);
        lemma_m_line_roundtrip(ps[0]);
        lemma_parse_m_segment(ps.drop_first(), rest, ad, am.push(ps[0]), asym);
        assert(am.push(ps[0]) + ps.drop_first() =~= am + ps);
    }
}

proof fn lemma_parse_s_segment(
    ps: Seq<(Seq<u8>, Seq<u8>, Seq<u8>)>,
    rest: Seq<Seq<u8>>,
    ad: Seq<(Seq<u8>, Seq<u8>)>,
    am: Seq<(Seq<u8>, Seq<u8>)>,
    asym: Seq<(Seq<u8>, Seq<u8>, Seq<u8>)>,
)
    ensures
        parse_lines(
            ps.map_values(|p: (Seq<u8>, Seq<u8>, Seq<u8>)| s_line(p)) + rest,
            ad,
            am,
            asym,
        ) == parse_lines(rest, ad, am, asym + ps),
    decreases ps.len(),
{
    let ls = ps.map_values(|p: (Seq<u8>, Seq<u8>, Seq<u8>)| s_line(p));
    if ps.len() == 0 {
        assert(ls + rest =~= rest);
        assert(asym + ps =~= asym);
    } else {
        assert((ls + rest).first() == s_line(ps[0]));
        assert((ls + rest).drop_first() =~= ps.drop_first().map_values(
            |p: (Seq<u8>, Seq<u8>, Seq<u8>)| s_line(p),
        ) + rest);
        lemma_s_line_roundtrip(ps[0]);
        lemma_parse_s_segment(ps.drop_first(), rest, ad, am, asym.push(ps[0]));
        assert(asym.push(ps[0]) + ps.drop_first() =~= asym + ps);
    }
}

/// Law: decoding what was encoded yields the annotation records back
/// exactly.
pub proof fn lemma_annotations_roundtrip(
    d: Seq<(Seq<u8>, Seq<u8>)>,
    m: Seq<(Seq<u8>, Seq<u8>)>,
    s: Seq<(Seq<u8>, Seq<u8>, Seq<u8>)>,
)
    ensures
        parse_spec(encode_spec(d, m, s)) == Some((d, m, s)),
{
    let ls = all_lines(d, m, s);
    if ls.len() == 0 {
        assert(d =~= Seq::<(Seq<u8>, Seq<u8>)>::empty());
        assert(m =~= Seq::<(Seq<u8>, Seq<u8>)>::empty());
        assert(s =~= Seq::<(Seq<u8>, Seq<u8>, Seq<u8>)>::empty());
    } else {
        assert forall|t: int| 0 <= t < ls.len() implies sep_free(#[trigger] ls[t], NL) by {
            let dl = d.map_values(|p: (Seq<u8>, Seq<u8>)| d_line(p));
            let ml = m.map_values(|p: (Seq<u8>, Seq<u8>)| m_line(p));
            if t < dl.len() {
                assert(ls[t] == d_line(d[t]));
                lemma_d_line_roundtrip(d[t]);
            } else if t < dl.len() + ml.len() {
                assert(ls[t] == m_line(m[t - dl.len()]));
                lemma_m_line_roundtrip(m[t - dl.len()]);
            } else {
                assert(ls[t] == s_line(s[t - dl.len() - ml.len()]));
                lemma_s_line_roundtrip(s[t - dl.len() - ml.len()]);
            }
        }
        lemma_split_join(ls, NL);
        assert(encode_spec(d, m, s).len() > 0) by {
            let j = join_sep(ls, NL);
            if j.len() == 0 {
                assert(split_sep(j, NL) =~= seq![Seq::<u8>::empty()]);
                assert(ls.len() == 1);
                assert(ls[0].len() == 0);
                let dl = d.map_values(|p: (Seq<u8>, Seq<u8>)| d_line(p));
                let ml = m.map_values(|p: (Seq<u8>, Seq<u8>)| m_line(p));
                if dl.len() > 0 {
                    lemma_d_line_roundtrip(d[0]);
                    assert(parse_line(ls[0]) is Some);
                    assert(split_sep(ls[0], TAB).len() == 3);
                    assert(split_sep(Seq::<u8>::empty(), TAB) =~= seq![Seq::<u8>::empty()]);
                } else if ml.len() > 0 {
                    lemma_m_line_roundtrip(m[0]);
                    assert(split_sep(ls[0], TAB).len() == 3);
                    assert(split_sep(Seq::<u8>::empty(), TAB) =~= seq![Seq::<u8>::empty()]);
                } else {
                    lemma_s_line_roundtrip(s[0]);
                    assert(split_sep(ls[0], TAB).len() == 4);
                    assert(split_sep(Seq::<u8>::empty(), TAB) =~= seq![Seq::<u8>::empty()]);
                }
            }
        }
        let dl = d.map_values(|p: (Seq<u8>, Seq<u8>)| d_line(p));
        let ml = m.map_values(|p: (Seq<u8>, Seq<u8>)| m_line(p));
        let sl = s.map_values(|p: (Seq<u8>, Seq<u8>, Seq<u8>)| s_line(p));
        assert(ls =~= dl + (ml + sl));
        lemma_parse_d_segment(
            d,
            ml + sl,
            Seq::empty(),
            Seq::empty(),
            Seq::empty(),
        );
        assert(Seq::<(Seq<u8>, Seq<u8>)>::empty() + d =~= d);
        lemma_parse_m_segment(m, sl, d, Seq::empty(), Seq::empty());
        assert(Seq::<(Seq<u8>, Seq<u8>)>::empty() + m =~= m);
        lemma_parse_s_segment(
            s,
            Seq::empty(),
            d,
            m,
            Seq::empty(),
        );
        assert(Seq::<(Seq<u8>, Seq<u8>, Seq<u8>)>::empty() + s =~= s);
        assert(parse_lines(Seq::<Seq<u8>>::empty(), d, m, s) == Some((d, m, s)));
    }
}

fn push_pair_lines(
    lines: &mut Vec<Vec<u8>>,
    recs: &Vec<(String, String)>,
    tag: u8,
)
    requires
        tag == TAG_DEF || tag == TAG_MARK,
    ensures
        final(lines).deep_view() == old(lines).deep_view() + (if tag == TAG_DEF {
            pviews(recs@).map_values(|p: (Seq<u8>, Seq<u8>)| d_line(p))
        } else {
            pviews(recs@).map_values(|p: (Seq<u8>, Seq<u8>)| m_line(p))
        }),
{
    let ghost l0 = lines.deep_view();
    let ghost pv = pviews(recs@);
    let mut i: usize = 0;
    proof {
        assert(l0 + (if tag == TAG_DEF {
            pv.take(0).map_values(|p: (Seq<u8>, Seq<u8>)| d_line(p))
        } else {
            pv.take(0).map_values(|p: (Seq<u8>, Seq<u8>)| m_line(p))
        }) =~= l0);
    }
    while i < recs.len()
        invariant
            i <= recs@.len(),
            pv == pviews(recs@),
            tag == TAG_DEF || tag == TAG_MARK,
            lines.deep_view() =~= l0 + (if tag == TAG_DEF {
                pv.take(i as int).map_values(|p: (Seq<u8>, Seq<u8>)| d_line(p))
            } else {
                pv.take(i as int).map_values(|p: (Seq<u8>, Seq<u8>)| m_line(p))
            }),
        decreases recs@.len() - i,
    {
        let mut fields: Vec<Vec<u8>> = Vec::new();
        let mut tagv: Vec<u8> = Vec::new();
        tagv.push(tag);
        fields.push(tagv);
        fields.push(escape_bytes(recs[i].0.as_str().as_bytes()));
        fields.push(escape_bytes(recs[i].1.as_str().as_bytes()));
        proof {
            assert(fields.deep_view() =~~= seq![
                seq![tag],
                escape(pv[i as int].0),
                escape(pv[i as int].1),
            ]);
        }
        let line = join_bytes(&fields, TAB);
        let ghost ld = lines.deep_view();
        lines.push(line);
        proof {
            if tag == TAG_DEF {
                assert(line@ == d_line(pv[i as int]));
                assert(lines.deep_view() =~~= ld.push(d_line(pv[i as int])));
                assert(pv.take(i + 1).map_values(|p: (Seq<u8>, Seq<u8>)| d_line(p))
                    =~= pv.take(i as int).map_values(|p: (Seq<u8>, Seq<u8>)| d_line(p)).push(
                    d_line(pv[i as int]),
                ));
                assert(lines.deep_view() =~= l0 + pv.take(i + 1).map_values(
                    |p: (Seq<u8>, Seq<u8>)| d_line(p),
                ));
            } else {
                assert(line@ == m_line(pv[i as int]));
                assert(lines.deep_view() =~~= ld.push(m_line(pv[i as int])));
                assert(pv.take(i + 1).map_values(|p: (Seq<u8>, Seq<u8>)| m_line(p))
                    =~= pv.take(i as int).map_values(|p: (Seq<u8>, Seq<u8>)| m_line(p)).push(
                    m_line(pv[i as int]),
                ));
                assert(lines.deep_view() =~= l0 + pv.take(i + 1).map_values(
                    |p: (Seq<u8>, Seq<u8>)| m_line(p),
                ));
            }
        }
        i = i + 1;
    }
    proof {
        assert(pv.take(pv.len() as int) =~= pv);
    }
}

/// Serialize annotation records.
pub fn save_annotations(data: &AnnotationData) -> (r: Vec<u8>)
    ensures
        r@ == encode_spec(
            pviews(data.file_definitions@),
            pviews(data.file_marks@),
            tviews(data.symbol_definitions@),
        ),
{
    let ghost dv = pviews(data.file_definitions@);
    let ghost mv = pviews(data.file_marks@);
    let ghost sv = tviews(data.symbol_definitions@);
    let mut lines: Vec<Vec<u8>> = Vec::new();
    proof {
        assert(lines.deep_view() =~= Seq::<Seq<u8>>::empty());
    }
    push_pair_lines(&mut lines, &data.file_definitions, TAG_DEF);
    proof {
        assert(Seq::<Seq<u8>>::empty() + dv.map_values(|p: (Seq<u8>, Seq<u8>)| d_line(p))
            =~= dv.map_values(|p: (Seq<u8>, Seq<u8>)| d_line(p)));
    }
    push_pair_lines(&mut lines, &data.file_marks, TAG_MARK);
    let ghost sv0 = lines.deep_view();
    let mut i: usize = 0;
    proof {
        assert(sv0 + sv.take(0).map_values(|p: (Seq<u8>, Seq<u8>, Seq<u8>)| s_line(p))
            =~= sv0);
    }
    while i < data.symbol_definitions.len()
        invariant
            i <= data.symbol_definitions@.len(),
            sv == tviews(data.symbol_definitions@),
            lines.deep_view() =~= sv0 + sv.take(i as int).map_values(
                |p: (Seq<u8>, Seq<u8>, Seq<u8>)| s_line(p),
            ),
        decreases data.symbol_definitions@.len() - i,
    {
        let mut fields: Vec<Vec<u8>> = Vec::new();
        let mut tagv: Vec<u8> = Vec::new();
        tagv.push(TAG_SYM);
        fields.push(tagv);
        fields.push(escape_bytes(data.symbol_definitions[i].0.as_str().as_bytes()));
        fields.push(escape_bytes(data.symbol_definitions[i].1.as_str().as_bytes()));
        fields.push(escape_bytes(data.symbol_definitions[i].2.as_str().as_bytes()));
        proof {
            assert(fields.deep_view() =~~= seq![
                seq![TAG_SYM],
                escape(sv[i as int].0),
                escape(sv[i as int].1),
                escape(sv[i as int].2),
            ]);
        }
        let line = join_bytes(&fields, TAB);
        let ghost ld = lines.deep_view();
        lines.push(line);
        proof {
            assert(line@ == s_line(sv[i as int]));
            assert(lines.deep_view() =~~= ld.push(s_line(sv[i as int])));
            assert(sv.take(i + 1).map_values(|p: (Seq<u8>, Seq<u8>, Seq<u8>)| s_line(p))
                =~= sv.take(i as int).map_values(
                |p: (Seq<u8>, Seq<u8>, Seq<u8>)| s_line(p),
            ).push(s_line(sv[i as int])));
            assert(lines.deep_view() =~= sv0 + sv.take(i + 1).map_values(
                |p: (Seq<u8>, Seq<u8>, Seq<u8>)| s_line(p),
            ));
        }
        i = i + 1;
    }
    proof {
        assert(sv.take(sv.len() as int) =~= sv);
        assert(lines.deep_view() =~= all_lines(dv, mv, sv));
    }
    if lines.len() == 0 {
        let r: Vec<u8> = Vec::new();
        proof {
            assert(r@ =~= Seq::<u8>::empty());
        }
        r
    } else {
        join_bytes(&lines, NL)
    }
}

/// Parse serialized annotations; malformed input yields nothing, and a
/// missing (empty) input yields empty records.
pub fn load_annotations(bytes: &[u8]) -> (r: Option<AnnotationData>)
    ensures
        r is Some <==> parse_spec(bytes@) is Some,
        parse_spec(bytes@) matches Some(tr) ==> (r matches Some(data) && {
            &&& data.file_definitions@.len() == tr.0.len()
            &&& data.file_marks@.len() == tr.1.len()
            &&& data.symbol_definitions@.len() == tr.2.len()
            &&& forall|t: int|
                0 <= t < tr.0.len() ==> (valid_utf8((#[trigger] tr.0[t]).0)
                    ==> data.file_definitions@[t].0@ == decode_utf8(tr.0[t].0)) && (
                valid_utf8(tr.0[t].1) ==> data.file_definitions@[t].1@ == decode_utf8(
                    tr.0[t].1,
                ))
            &&& forall|t: int|
                0 <= t < tr.1.len() ==> (valid_utf8((#[trigger] tr.1[t]).0)
                    ==> data.file_marks@[t].0@ == decode_utf8(tr.1[t].0)) && (valid_utf8(
                    tr.1[t].1,
                ) ==> data.file_marks@[t].1@ == decode_utf8(tr.1[t].1))
            &&& forall|t: int|
                0 <= t < tr.2.len() ==> (valid_utf8((#[trigger] tr.2[t]).0)
                    ==> data.symbol_definitions@[t].0@ == decode_utf8(tr.2[t].0)) && (
                valid_utf8(tr.2[t].1) ==> data.symbol_definitions@[t].1@ == decode_utf8(
                    tr.2[t].1,
                )) && (valid_utf8(tr.2[t].2) ==> data.symbol_definitions@[t].2@
                    == decode_utf8(tr.2[t].2))
        }),
{
    if bytes.len() == 0 {
        return Some(
            AnnotationData {
                file_definitions: Vec::new(),
                file_marks: Vec::new(),
                symbol_definitions: Vec::new(),
            },
        );
    }
    let lines = split_bytes(bytes, NL);
    let ghost lv = lines.deep_view();
    let mut fd: Vec<(String, String)> = Vec::new();
    let mut fm: Vec<(String, String)> = Vec::new();
    let mut sd: Vec<(String, String, String)> = Vec::new();
    let ghost mut gd: Seq<(Seq<u8>, Seq<u8>)> = Seq::empty();
    let ghost mut gm: Seq<(Seq<u8>, Seq<u8>)> = Seq::empty();
    let ghost mut gs: Seq<(Seq<u8>, Seq<u8>, Seq<u8>)> = Seq::empty();
    let mut i: usize = 0;
    proof {
        assert(lv.skip(0) =~= lv);
    }
    while i < lines.len()
        invariant
            i <= lines@.len(),
            lv == lines.deep_view(),
            lv.len() == lines@.len(),
            bytes@.len() > 0,
            lv == split_sep(bytes@, NL),
            parse_lines(lv, Seq::empty(), Seq::empty(), Seq::empty()) == parse_lines(
                lv.skip(i as int),
                gd,
                gm,
                gs,
            ),
            fd@.len() == gd.len(),
            fm@.len() == gm.len(),
            sd@.len() == gs.len(),
            forall|t: int|
                0 <= t < gd.len() ==> (valid_utf8((#[trigger] gd[t]).0) ==> fd@[t].0@
                    == decode_utf8(gd[t].0)) && (valid_utf8(gd[t].1) ==> fd@[t].1@
                    == decode_utf8(gd[t].1)),
            forall|t: int|
                0 <= t < gm.len() ==> (valid_utf8((#[trigger] gm[t]).0) ==> fm@[t].0@
                    == decode_utf8(gm[t].0)) && (valid_utf8(gm[t].1) ==> fm@[t].1@
                    == decode_utf8(gm[t].1)),
            forall|t: int|
                0 <= t < gs.len() ==> (valid_utf8((#[trigger] gs[t]).0) ==> sd@[t].0@
                    == decode_utf8(gs[t].0)) && (valid_utf8(gs[t].1) ==> sd@[t].1@
                    == decode_utf8(gs[t].1)) && (valid_utf8(gs[t].2) ==> sd@[t].2@
                    == decode_utf8(gs[t].2)),
        decreases lines@.len() - i,
    {
        let ghost rest = lv.skip(i as int);
        proof {
            assert(rest.len() > 0);
            assert(rest.first() == lv[i as int]);
            assert(rest.drop_first() =~= lv.skip(i + 1));
            assert(lv[i as int] == lines@[i as int]@);
        }
        let fields = split_bytes(lines[i].as_slice(), TAB);
        let ghost fv = fields.deep_view();
        proof {
            assert(fv == split_sep(lv[i as int], TAB));
            assert(forall|t: int| 0 <= t < fv.len() ==> fv[t] == fields@[t]@);
        }
        if fields.len() == 3 && fields[0].len() == 1 && fields[0][0] == TAG_DEF {
            proof {
                assert(fv[0] =~= seq![TAG_DEF]);
            }
            let a = unescape_bytes(fields[1].as_slice());
            let b = unescape_bytes(fields[2].as_slice());
            let sa = crate::trusted::bytes_to_string(a.as_slice());
            let sb = crate::trusted::bytes_to_string(b.as_slice());
            let ghost pa = (unescape(fv[1]), unescape(fv[2]));
            fd.push((sa, sb));
            proof {
                assert(parse_line(rest.first()) == Some(RecV::FileDef(pa)));
                gd = gd.push(pa);
                assert(forall|t: int| 0 <= t < gd.len() - 1 ==> gd[t] == gd.drop_last()[t]);
            }
        } else if fields.len() == 3 && fields[0].len() == 1 && fields[0][0] == TAG_MARK {
            proof {
                assert(fv[0] =~= seq![TAG_MARK]);
                assert(fv[0] != seq![TAG_DEF]) by {
                    assert(fv[0][0] == TAG_MARK);
                }
            }
            let a = unescape_bytes(fields[1].as_slice());
            let b = unescape_bytes(fields[2].as_slice());
            let sa = crate::trusted::bytes_to_string(a.as_slice());
            let sb = crate::trusted::bytes_to_string(b.as_slice());
            let ghost pa = (unescape(fv[1]), unescape(fv[2]));
            fm.push((sa, sb));
            proof {
                assert(parse_line(rest.first()) == Some(RecV::FileMark(pa)));
                gm = gm.push(pa);
            }
        } else if fields.len() == 4 && fields[0].len() == 1 && fields[0][0] == TAG_SYM {
            proof {
                assert(fv[0] =~= seq![TAG_SYM]);
            }
            let a = unescape_bytes(fields[1].as_slice());
            let b = unescape_bytes(fields[2].as_slice());
            let c = unescape_bytes(fields[3].as_slice());
            let sa = crate::trusted::bytes_to_string(a.as_slice());
            let sb = crate::trusted::bytes_to_string(b.as_slice());
            let sc = crate::trusted::bytes_to_string(c.as_slice());
            let ghost pa = (unescape(fv[1]), unescape(fv[2]), unescape(fv[3]));
            sd.push((sa, sb, sc));
            proof {
                assert(parse_line(rest.first()) == Some(RecV::SymDef(pa)));
                gs = gs.push(pa);
            }
        } else {
            proof {
                if fv.len() == 3 && fv[0] == seq![TAG_DEF] {
                    assert(fields@[0]@ == fv[0]);
                    assert(fields@[0]@.len() == 1);
                    assert(fields@[0]@[0] == TAG_DEF);
                    assert(false);
                } else if fv.len() == 3 && fv[0] == seq![TAG_MARK] {
                    assert(fields@[0]@ == fv[0]);
                    assert(fields@[0]@.len() == 1);
                    assert(fields@[0]@[0] == TAG_MARK);
                    assert(false);
                } else if fv.len() == 4 && fv[0] == seq![TAG_SYM] {
                    assert(fields@[0]@ == fv[0]);
                    assert(fields@[0]@.len() == 1);
                    assert(fields@[0]@[0] == TAG_SYM);
                    assert(false);
                }
                assert(parse_line(rest.first()) is None);
                assert(parse_lines(rest, gd, gm, gs) is None);
            }
            return None;
        }
        i = i + 1;
    }
    proof {
        assert(lv.skip(lv.len() as int) =~= Seq::<Seq<u8>>::empty());
    }
    Some(AnnotationData { file_definitions: fd, file_marks: fm, symbol_definitions: sd })
}

/// Gather the annotations of a project: every file definition and mark in
/// the tree, and every symbol definition in the table, in store order.
pub fn collect_annotations(tree: &FileTree, table: &SymbolTable) -> (r: AnnotationData)
    requires
        tree.wf(),
        table.wf(),
    ensures
        forall|t: int|
            0 <= t < r.file_definitions@.len() ==> ft_has(
                tree.files(),
                (#[trigger] r.file_definitions@[t]).0@,
            ) && ft_get(tree.files(), r.file_definitions@[t].0@).definition == Some(
                r.file_definitions@[t].1@,
            ),
        forall|t: int|
            0 <= t < r.file_marks@.len() ==> ft_has(
                tree.files(),
                (#[trigger] r.file_marks@[t]).0@,
            ) && ft_get(tree.files(), r.file_marks@[t].0@).mark == Some(
                r.file_marks@[t].1@,
            ),
        forall|t: int|
            0 <= t < r.symbol_definitions@.len() ==> prim_has(
                table.prim(),
                ((#[trigger] r.symbol_definitions@[t]).0@, r.symbol_definitions@[t].1@),
            ) && prim_get(
                table.prim(),
                (r.symbol_definitions@[t].0@, r.symbol_definitions@[t].1@),
            ).definition == Some(r.symbol_definitions@[t].2@),
        forall|i: int|
            0 <= i < tree.files().len() && (#[trigger] tree.files()[i]).definition is Some
                ==> exists|t: int|
                0 <= t < r.file_definitions@.len() && (#[trigger] r.file_definitions@[
                t]).0@ == tree.files()[i].path,
        forall|i: int|
            0 <= i < tree.files().len() && (#[trigger] tree.files()[i]).mark is Some
                ==> exists|t: int|
                0 <= t < r.file_marks@.len() && (#[trigger] r.file_marks@[t]).0@
                    == tree.files()[i].path,
        forall|i: int|
            0 <= i < table.prim().len() && (#[trigger] table.prim()[i]).definition is Some
                ==> exists|t: int|
                0 <= t < r.symbol_definitions@.len() && (#[trigger] r.symbol_definitions@[
                t]).0@ == table.prim()[i].file && r.symbol_definitions@[t].1@
                    == table.prim()[i].name,
{
    let mut fd: Vec<(String, String)> = Vec::new();
    let mut fm: Vec<(String, String)> = Vec::new();
    let mut sd: Vec<(String, String, String)> = Vec::new();
    let mut i: usize = 0;
    while i < tree.entries.len()
        invariant
            i <= tree.entries@.len(),
            tree.wf(),
            forall|t: int|
                0 <= t < fd@.len() ==> ft_has(tree.files(), (#[trigger] fd@[t]).0@)
                    && ft_get(tree.files(), fd@[t].0@).definition == Some(fd@[t].1@),
            forall|t: int|
                0 <= t < fm@.len() ==> ft_has(tree.files(), (#[trigger] fm@[t]).0@)
                    && ft_get(tree.files(), fm@[t].0@).mark == Some(fm@[t].1@),
            forall|u: int|
                0 <= u < i && (#[trigger] tree.files()[u]).definition is Some ==> exists|
                    t: int,
                |
                    0 <= t < fd@.len() && (#[trigger] fd@[t]).0@ == tree.files()[u].path,
            forall|u: int|
                0 <= u < i && (#[trigger] tree.files()[u]).mark is Some ==> exists|t: int|
                    0 <= t < fm@.len() && (#[trigger] fm@[t]).0@ == tree.files()[u].path,
        decreases tree.entries@.len() - i,
    {
        proof {
            crate::filetree::lemma_ft_get_at(tree.files(), i as int);
        }
        let e = &tree.entries[i];
        match &e.definition {
            Some(d) => {
                let ghost f0 = fd@;
                fd.push((e.path.clone(), d.clone()));
                proof {
                    assert(forall|t: int| 0 <= t < f0.len() ==> fd@[t] == f0[t]);
                    assert(fd@[f0.len() as int].0@ == tree.files()[i as int].path);
                }
            },
            None => {},
        }
        match &e.mark {
            Some(m) => {
                let ghost m0 = fm@;
                fm.push((e.path.clone(), m.clone()));
                proof {
                    assert(forall|t: int| 0 <= t < m0.len() ==> fm@[t] == m0[t]);
                    assert(fm@[m0.len() as int].0@ == tree.files()[i as int].path);
                }
            },
            None => {},
        }
        i = i + 1;
    }
    let mut j: usize = 0;
    while j < table.symbols.len()
        invariant
            j <= table.symbols@.len(),
            table.wf(),
            forall|t: int|
                0 <= t < sd@.len() ==> prim_has(
                    table.prim(),
                    ((#[trigger] sd@[t]).0@, sd@[t].1@),
                ) && prim_get(table.prim(), (sd@[t].0@, sd@[t].1@)).definition == Some(
                    sd@[t].2@,
                ),
            forall|u: int|
                0 <= u < j && (#[trigger] table.prim()[u]).definition is Some ==> exists|
                    t: int,
                |
                    0 <= t < sd@.len() && (#[trigger] sd@[t]).0@ == table.prim()[u].file
                        && sd@[t].1@ == table.prim()[u].name,
        decreases table.symbols@.len() - j,
    {
        proof {
            crate::symtab::lemma_prim_get_at(table.prim(), j as int);
        }
        let sym = &table.symbols[j];
        match &sym.definition {
            Some(d) => {
                let ghost s0 = sd@;
                sd.push((sym.file.clone(), sym.name.clone(), d.clone()));
                proof {
                    assert(forall|t: int| 0 <= t < s0.len() ==> sd@[t] == s0[t]);
                    assert(sd@[s0.len() as int].0@ == table.prim()[j as int].file);
                    assert(sd@[s0.len() as int].1@ == table.prim()[j as int].name);
                }
            },
            None => {},
        }
        j = j + 1;
    }
    AnnotationData { file_definitions: fd, file_marks: fm, symbol_definitions: sd }
}

/// A record index is decisive when no later record in the list names the
/// same file: the last record for a file is the one that sticks.
pub open spec fn last_for_file(recs: Seq<(String, String)>, t: int) -> bool {
    forall|u: int| t < u < recs.len() ==> (#[trigger] recs[u]).0@ != recs[t].0@
}

/// Likewise for symbol records, keyed by (file, name).
pub open spec fn last_for_symbol(recs: Seq<(String, String, String)>, t: int) -> bool {
    forall|u: int|
        t < u < recs.len() ==> ((#[trigger] recs[u]).0@, recs[u].1@) != (
            recs[t].0@,
            recs[t].1@,
        )
}

/// Apply loaded annotations: definitions and marks overwrite those of the
/// named files and symbols; names that are not indexed are skipped. The
/// sets of indexed files and stored symbol keys do not change, and for
/// every indexed name the last record in the list is what the tree and
/// table hold afterwards.
pub fn apply_annotations(tree: &mut FileTree, table: &mut SymbolTable, data: &AnnotationData)
    requires
        old(tree).wf(),
        old(table).wf(),
    ensures
        final(tree).wf(),
        final(table).wf(),
        forall|pth: Seq<char>|
            #[trigger] ft_has(final(tree).files(), pth) <==> ft_has(old(tree).files(), pth),
        forall|k: crate::symtab::SymKeyV|
            #[trigger] prim_has(final(table).prim(), k) <==> prim_has(old(table).prim(), k),
        forall|t: int|
            0 <= t < data.file_definitions@.len() && ft_has(
                old(tree).files(),
                (#[trigger] data.file_definitions@[t]).0@,
            ) && last_for_file(data.file_definitions@, t) ==> ft_get(
                final(tree).files(),
                data.file_definitions@[t].0@,
            ).definition == Some(data.file_definitions@[t].1@),
        forall|t: int|
            0 <= t < data.file_marks@.len() && ft_has(
                old(tree).files(),
                (#[trigger] data.file_marks@[t]).0@,
            ) && last_for_file(data.file_marks@, t) ==> ft_get(
                final(tree).files(),
                data.file_marks@[t].0@,
            ).mark == Some(data.file_marks@[t].1@),
        forall|t: int|
            0 <= t < data.symbol_definitions@.len() && prim_has(
                old(table).prim(),
                ((#[trigger] data.symbol_definitions@[t]).0@, data.symbol_definitions@[t].1@),
            ) && last_for_symbol(data.symbol_definitions@, t) ==> prim_get(
                final(table).prim(),
                (data.symbol_definitions@[t].0@, data.symbol_definitions@[t].1@),
            ).definition == Some(data.symbol_definitions@[t].2@),
{
    let ghost dv = data.file_definitions@;
    let ghost mv = data.file_marks@;
    let ghost sv = data.symbol_definitions@;
    let mut i: usize = 0;
    while i < data.file_definitions.len()
        invariant
            tree.wf(),
            dv == data.file_definitions@,
            i <= dv.len(),
            forall|pth: Seq<char>|
                #[trigger] ft_has(tree.files(), pth) <==> ft_has(old(tree).files(), pth),
            forall|t: int|
                0 <= t < i && ft_has(old(tree).files(), (#[trigger] dv[t]).0@) && (forall|
                    u: int,
                |
                    t < u < i ==> (#[trigger] dv[u]).0@ != dv[t].0@) ==> ft_get(
                    tree.files(),
                    dv[t].0@,
                ).definition == Some(dv[t].1@),
        decreases data.file_definitions@.len() - i,
    {
        let r = tree.redefine(
            data.file_definitions[i].0.as_str(),
            data.file_definitions[i].1.as_str(),
        );
        proof {
            if r is Err {
                assert(!ft_has(old(tree).files(), dv[i as int].0@));
            }
        }
        i = i + 1;
    }
    let mut j: usize = 0;
    while j < data.file_marks.len()
        invariant
            tree.wf(),
            dv == data.file_definitions@,
            mv == data.file_marks@,
            j <= mv.len(),
            forall|pth: Seq<char>|
                #[trigger] ft_has(tree.files(), pth) <==> ft_has(old(tree).files(), pth),
            forall|t: int|
                0 <= t < dv.len() && ft_has(old(tree).files(), (#[trigger] dv[t]).0@)
                    && last_for_file(dv, t) ==> ft_get(tree.files(), dv[t].0@).definition
                    == Some(dv[t].1@),
            forall|t: int|
                0 <= t < j && ft_has(old(tree).files(), (#[trigger] mv[t]).0@) && (forall|
                    u: int,
                |
                    t < u < j ==> (#[trigger] mv[u]).0@ != mv[t].0@) ==> ft_get(
                    tree.files(),
                    mv[t].0@,
                ).mark == Some(mv[t].1@),
        decreases data.file_marks@.len() - j,
    {
        let r = tree.mark(data.file_marks[j].0.as_str(), data.file_marks[j].1.as_str());
        proof {
            if r is Err {
                assert(!ft_has(old(tree).files(), mv[j as int].0@));
            }
        }
        j = j + 1;
    }
    let mut k: usize = 0;
    while k < data.symbol_definitions.len()
        invariant
            table.wf(),
            sv == data.symbol_definitions@,
            k <= sv.len(),
            forall|k2: crate::symtab::SymKeyV|
                #[trigger] prim_has(table.prim(), k2) <==> prim_has(old(table).prim(), k2),
            forall|t: int|
                0 <= t < k && prim_has(
                    old(table).prim(),
                    ((#[trigger] sv[t]).0@, sv[t].1@),
                ) && (forall|u: int|
                    t < u < k ==> ((#[trigger] sv[u]).0@, sv[u].1@) != (sv[t].0@, sv[t].1@))
                    ==> prim_get(table.prim(), (sv[t].0@, sv[t].1@)).definition == Some(
                    sv[t].2@,
                ),
        decreases data.symbol_definitions@.len() - k,
    {
        let r = table.redefine_symbol(
            data.symbol_definitions[k].0.as_str(),
            data.symbol_definitions[k].1.as_str(),
            data.symbol_definitions[k].2.as_str(),
        );
        proof {
            if r is Err {
                assert(!prim_has(old(table).prim(), (sv[k as int].0@, sv[k as int].1@)));
            }
        }
        k = k + 1;
    }
}

} // verus!
