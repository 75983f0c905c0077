//! The symbol table: a primary store keyed by (file, name), two secondary
//! indices (by name and by file), and the reverse call graph.
//!
//! The well-formedness predicate `wf` captures the index invariant: every
//! record in the primary store is covered by both secondary indices, and no
//! index entry points at a key that is absent from the primary store.

use vstd::prelude::*;
use crate::symbol::{CallerRef, CallerRefV, Symbol, SymbolV};

verus! {

use vstd::string::StringExecFns;

/// A primary key of the table: the (file, name) pair as character
/// sequences.
pub type SymKeyV = (Seq<char>, Seq<char>);

pub open spec fn sviews(s: Seq<Symbol>) -> Seq<SymbolV> {
    s.map_values(|x: Symbol| x@)
}

pub open spec fn strviews(s: Seq<String>) -> Seq<Seq<char>> {
    s.map_values(|x: String| x@)
}

pub open spec fn skey(s: SymbolV) -> SymKeyV {
    (s.file, s.name)
}

/// The primary store holds a record under key `k`.
pub open spec fn prim_has(p: Seq<SymbolV>, k: SymKeyV) -> bool {
    exists|i: int| 0 <= i < p.len() && #[trigger] skey(p[i]) == k
}

pub open spec fn prim_idx(p: Seq<SymbolV>, k: SymKeyV) -> int {
    choose|i: int| 0 <= i < p.len() && #[trigger] skey(p[i]) == k
}

/// The record stored under key `k` (meaningful when `prim_has` holds and
/// keys are unique).
pub open spec fn prim_get(p: Seq<SymbolV>, k: SymKeyV) -> SymbolV {
    p[prim_idx(p, k)]
}

pub open spec fn prim_unique(p: Seq<SymbolV>) -> bool {
    forall|i: int, j: int|
        0 <= i < j < p.len() ==> #[trigger] skey(p[i]) != #[trigger] skey(p[j])
}

/// Under unique keys, any position holding key `k` is the position
/// `prim_get` reads.
pub proof fn lemma_prim_get_at(p: Seq<SymbolV>, i: int)
    requires
        prim_unique(p),
        0 <= i < p.len(),
    ensures
        prim_has(p, skey(p[i])),
        prim_get(p, skey(p[i])) == p[i],
{
    assert(prim_has(p, skey(p[i])));
    let j = prim_idx(p, skey(p[i]));
    if i != j {
        assert(skey(p[i]) != skey(p[j]));
    }
}

/// One secondary-index entry: an outer key and the complementary halves of
/// the primary keys filed under it (files for the by-name index, names for
/// the by-file index).
pub struct IndexEntry {
    pub key: String,
    pub items: Vec<String>,
}

pub open spec fn ie_views(s: Seq<IndexEntry>) -> Seq<(Seq<char>, Seq<Seq<char>>)> {
    s.map_values(|e: IndexEntry| (e.key@, strviews(e.items@)))
}

/// The index holds `item` under `outer`.
pub open spec fn idx_has(v: Seq<(Seq<char>, Seq<Seq<char>>)>, outer: Seq<char>, item: Seq<char>) -> bool {
    exists|i: int| 0 <= i < v.len() && (#[trigger] v[i]).0 == outer && v[i].1.contains(item)
}

pub open spec fn outer_unique(v: Seq<(Seq<char>, Seq<Seq<char>>)>) -> bool {
    forall|i: int, j: int| 0 <= i < j < v.len() ==> (#[trigger] v[i]).0 != (#[trigger] v[j]).0
}

pub open spec fn items_unique(v: Seq<(Seq<char>, Seq<Seq<char>>)>) -> bool {
    forall|i: int, a: int, b: int|
        0 <= i < v.len() && 0 <= a < b < v[i].1.len() ==> #[trigger] v[i].1[a]
            != #[trigger] v[i].1[b]
}

/// One reverse-call-graph entry: callee name and the call sites seen for
/// it, in insertion order.
pub struct CallerEntry {
    pub key: String,
    pub refs: Vec<CallerRef>,
}

pub open spec fn crviews(s: Seq<CallerRef>) -> Seq<CallerRefV> {
    s.map_values(|x: CallerRef| x@)
}

pub open spec fn ce_views(s: Seq<CallerEntry>) -> Seq<(Seq<char>, Seq<CallerRefV>)> {
    s.map_values(|e: CallerEntry| (e.key@, crviews(e.refs@)))
}

pub open spec fn c_has(v: Seq<(Seq<char>, Seq<CallerRefV>)>, n: Seq<char>) -> bool {
    exists|i: int| 0 <= i < v.len() && (#[trigger] v[i]).0 == n
}

pub open spec fn c_idx(v: Seq<(Seq<char>, Seq<CallerRefV>)>, n: Seq<char>) -> int {
    choose|i: int| 0 <= i < v.len() && (#[trigger] v[i]).0 == n
}

/// The call sites recorded for callee `n`.
pub open spec fn c_get(v: Seq<(Seq<char>, Seq<CallerRefV>)>, n: Seq<char>) -> Seq<CallerRefV> {
    v[c_idx(v, n)].1
}

pub open spec fn c_unique(v: Seq<(Seq<char>, Seq<CallerRefV>)>) -> bool {
    forall|i: int, j: int| 0 <= i < j < v.len() ==> (#[trigger] v[i]).0 != (#[trigger] v[j]).0
}

pub proof fn lemma_c_get_at(v: Seq<(Seq<char>, Seq<CallerRefV>)>, i: int)
    requires
        c_unique(v),
        0 <= i < v.len(),
    ensures
        c_has(v, v[i].0),
        c_get(v, v[i].0) == v[i].1,
{
    assert(c_has(v, v[i].0));
    let j = c_idx(v, v[i].0);
    if i != j {
        assert(v[i].0 != v[j].0);
    }
}

/// Whether a symbol name matches a search query: the lowercased name
/// contains the lowercased query as a byte substring.
pub open spec fn name_matches(name: Seq<char>, q: Seq<char>) -> bool {
    crate::text::has_run(
        vstd::utf8::encode_utf8(crate::trusted::lower_of(name)),
        vstd::utf8::encode_utf8(crate::trusted::lower_of(q)),
    )
}

/// The first `limit` matching symbols of `p`, in order.
pub open spec fn search_spec(p: Seq<SymbolV>, q: Seq<char>, limit: nat) -> Seq<SymbolV>
    decreases p.len(),
{
    if limit == 0 || p.len() == 0 {
        Seq::empty()
    } else if name_matches(p[0].name, q) {
        seq![p[0]] + search_spec(p.drop_first(), q, (limit - 1) as nat)
    } else {
        search_spec(p.drop_first(), q, limit)
    }
}

/// Keep a caller reference when it does not originate from file `f`.
pub open spec fn keeps_file(f: Seq<char>) -> spec_fn(CallerRefV) -> bool {
    |r: CallerRefV| r.file != f
}

/// Whether a symbol passes the optional kind and file filters of a
/// listing request.
pub open spec fn listing_matches(
    s: SymbolV,
    kind: Option<crate::symbol::SymbolKind>,
    file: Option<Seq<char>>,
) -> bool {
    &&& (match kind {
        Some(k) => s.kind == k,
        None => true,
    })
    &&& (match file {
        Some(f) => s.file == f,
        None => true,
    })
}

/// The first `limit` symbols of `p` passing the filters, in order.
pub open spec fn listing_spec(
    p: Seq<SymbolV>,
    kind: Option<crate::symbol::SymbolKind>,
    file: Option<Seq<char>>,
    limit: nat,
) -> Seq<SymbolV>
    decreases p.len(),
{
    if limit == 0 || p.len() == 0 {
        Seq::empty()
    } else if listing_matches(p[0], kind, file) {
        seq![p[0]] + listing_spec(p.drop_first(), kind, file, (limit - 1) as nat)
    } else {
        listing_spec(p.drop_first(), kind, file, limit)
    }
}

/// Thread-unaware core of the symbol table; the application shares it
/// behind its own lock.
pub struct SymbolTable {
    pub symbols: Vec<Symbol>,
    pub by_name: Vec<IndexEntry>,
    pub by_file: Vec<IndexEntry>,
    pub callers: Vec<CallerEntry>,
}

impl SymbolTable {
    pub open spec fn prim(self) -> Seq<SymbolV> {
        sviews(self.symbols@)
    }

    pub open spec fn names_idx(self) -> Seq<(Seq<char>, Seq<Seq<char>>)> {
        ie_views(self.by_name@)
    }

    pub open spec fn files_idx(self) -> Seq<(Seq<char>, Seq<Seq<char>>)> {
        ie_views(self.by_file@)
    }

    pub open spec fn graph(self) -> Seq<(Seq<char>, Seq<CallerRefV>)> {
        ce_views(self.callers@)
    }

    /// The table invariant: unique primary keys, unique index keys, and the
    /// two secondary indices sound (every index entry backs a stored
    /// record) and complete (every stored record is indexed under its name
    /// and under its file).
    pub open spec fn wf(self) -> bool {
        let p = self.prim();
        let bn = self.names_idx();
        let bf = self.files_idx();
        &&& prim_unique(p)
        &&& outer_unique(bn)
        &&& outer_unique(bf)
        &&& items_unique(bn)
        &&& items_unique(bf)
        &&& c_unique(self.graph())
        &&& forall|i: int, j: int|
            0 <= i < bn.len() && 0 <= j < bn[i].1.len() ==> prim_has(
                p,
                ((#[trigger] bn[i].1[j]), bn[i].0),
            )
        &&& forall|i: int, j: int|
            0 <= i < bf.len() && 0 <= j < bf[i].1.len() ==> prim_has(
                p,
                (bf[i].0, (#[trigger] bf[i].1[j])),
            )
        &&& forall|t: int|
            0 <= t < p.len() ==> idx_has(bn, (#[trigger] p[t]).name, p[t].file)
        &&& forall|t: int|
            0 <= t < p.len() ==> idx_has(bf, (#[trigger] p[t]).file, p[t].name)
    }

    /// Every key of the primary store is covered by both secondary
    /// indices, and the indices point only at stored keys.
    pub proof fn lemma_indices_consistent(self)
        requires
            self.wf(),
        ensures
            forall|t: int|
                0 <= t < self.prim().len() ==> idx_has(
                    self.names_idx(),
                    (#[trigger] self.prim()[t]).name,
                    self.prim()[t].file,
                ),
            forall|t: int|
                0 <= t < self.prim().len() ==> idx_has(
                    self.files_idx(),
                    (#[trigger] self.prim()[t]).file,
                    self.prim()[t].name,
                ),
            forall|i: int, j: int|
                0 <= i < self.names_idx().len() && 0 <= j < self.names_idx()[i].1.len()
                    ==> prim_has(
                    self.prim(),
                    ((#[trigger] self.names_idx()[i].1[j]), self.names_idx()[i].0),
                ),
            forall|i: int, j: int|
                0 <= i < self.files_idx().len() && 0 <= j < self.files_idx()[i].1.len()
                    ==> prim_has(
                    self.prim(),
                    (self.files_idx()[i].0, (#[trigger] self.files_idx()[i].1[j])),
                ),
    {
    }

    pub fn new() -> (r: SymbolTable)
        ensures
            r.wf(),
            r.prim() =~= Seq::<SymbolV>::empty(),
            r.graph() =~= Seq::<(Seq<char>, Seq<CallerRefV>)>::empty(),
    {
        let r = SymbolTable {
            symbols: Vec::new(),
            by_name: Vec::new(),
            by_file: Vec::new(),
            callers: Vec::new(),
        };
        proof {
            assert(r.prim() =~= Seq::<SymbolV>::empty());
            assert(r.names_idx() =~= Seq::<(Seq<char>, Seq<Seq<char>>)>::empty());
            assert(r.files_idx() =~= Seq::<(Seq<char>, Seq<Seq<char>>)>::empty());
            assert(r.graph() =~= Seq::<(Seq<char>, Seq<CallerRefV>)>::empty());
        }
        r
    }

    /// The display form of a primary key, `file::name`.
    pub fn make_key(file: &str, name: &str) -> (r: String)
        ensures
            r@ == file@ + "::"@ + name@,
    {
        let mut s = file.to_owned();
        s.append("::");
        s.append(name);
        s
    }

    pub fn len(&self) -> (r: usize)
        ensures
            r == self.prim().len(),
    {
        self.symbols.len()
    }

    /// All records of the primary store, in store order.
    pub fn all_symbols(&self) -> (r: Vec<Symbol>)
        ensures
            sviews(r@) == self.prim(),
    {
        let mut out: Vec<Symbol> = Vec::new();
        let mut i: usize = 0;
        proof {
            assert(sviews(out@) =~= self.prim().take(0));
        }
        while i < self.symbols.len()
            invariant
                i <= self.symbols@.len(),
                sviews(out@) =~= self.prim().take(i as int),
            decreases self.symbols@.len() - i,
        {
            let ghost o0 = out@;
            out.push(self.symbols[i].clone());
            proof {
                assert(sviews(out@) =~= sviews(o0).push(self.prim()[i as int]));
                assert(self.prim().take(i + 1) =~= self.prim().take(i as int).push(
                    self.prim()[i as int],
                ));
            }
            i = i + 1;
        }
        proof {
            assert(self.prim().take(self.prim().len() as int) =~= self.prim());
        }
        out
    }

    fn prim_find(&self, file: &String, name: &String) -> (r: Option<usize>)
        ensures
            match r {
                Some(i) => i < self.prim().len() && skey(self.prim()[i as int]) == (
                    file@,
                    name@,
                ),
                None => !prim_has(self.prim(), (file@, name@)),
            },
    {
        let mut i: usize = 0;
        while i < self.symbols.len()
            invariant
                i <= self.symbols@.len(),
                forall|t: int|
                    0 <= t < i ==> #[trigger] skey(self.prim()[t]) != (file@, name@),
            decreases self.symbols@.len() - i,
        {
            if crate::symbol::str_eq(self.symbols[i].file.as_str(), file.as_str())
                && crate::symbol::str_eq(self.symbols[i].name.as_str(), name.as_str()) {
                proof {
                    assert(skey(self.prim()[i as int]) == (file@, name@));
                }
                return Some(i);
            }
            i = i + 1;
        }
        None
    }

    /// Fetch the record stored under `(file, name)`.
    pub fn get(&self, file: &String, name: &String) -> (r: Option<Symbol>)
        requires
            self.wf(),
        ensures
            match r {
                Some(s) => prim_has(self.prim(), (file@, name@)) && s@ == prim_get(
                    self.prim(),
                    (file@, name@),
                ),
                None => !prim_has(self.prim(), (file@, name@)),
            },
    {
        match self.prim_find(file, name) {
            Some(i) => {
                let s = self.symbols[i].clone();
                proof {
                    lemma_prim_get_at(self.prim(), i as int);
                }
                Some(s)
            },
            None => None,
        }
    }

    fn idx_find(idx: &Vec<IndexEntry>, key: &String) -> (r: Option<usize>)
        ensures
            match r {
                Some(i) => i < ie_views(idx@).len() && ie_views(idx@)[i as int].0 == key@,
                None => forall|t: int|
                    0 <= t < ie_views(idx@).len() ==> (#[trigger] ie_views(idx@)[t]).0 != key@,
            },
    {
        let mut i: usize = 0;
        while i < idx.len()
            invariant
                i <= idx@.len(),
                forall|t: int| 0 <= t < i ==> (#[trigger] ie_views(idx@)[t]).0 != key@,
            decreases idx@.len() - i,
        {
            if crate::symbol::str_eq(idx[i].key.as_str(), key.as_str()) {
                return Some(i);
            }
            i = i + 1;
        }
        None
    }

    fn items_contain(items: &Vec<String>, item: &String) -> (r: bool)
        ensures
            r == strviews(items@).contains(item@),
    {
        let mut i: usize = 0;
        while i < items.len()
            invariant
                i <= items@.len(),
                forall|t: int| 0 <= t < i ==> strviews(items@)[t] != item@,
            decreases items@.len() - i,
        {
            if crate::symbol::str_eq(items[i].as_str(), item.as_str()) {
                proof {
                    assert(strviews(items@)[i as int] == item@);
                }
                return true;
            }
            i = i + 1;
        }
        proof {
            if strviews(items@).contains(item@) {
                let t = choose|t: int|
                    0 <= t < strviews(items@).len() && strviews(items@)[t] == item@;
                assert(strviews(items@)[t] != item@);
            }
        }
        false
    }

    /// Record `item` under `outer` in a secondary index, keeping outer keys
    /// and per-entry items free of duplicates.
    fn idx_add(idx: &mut Vec<IndexEntry>, outer: &String, item: &String)
        requires
            outer_unique(ie_views(old(idx)@)),
            items_unique(ie_views(old(idx)@)),
        ensures
            outer_unique(ie_views(final(idx)@)),
            items_unique(ie_views(final(idx)@)),
            idx_has(ie_views(final(idx)@), outer@, item@),
            forall|o: Seq<char>, it: Seq<char>|
                #[trigger] idx_has(ie_views(final(idx)@), o, it) <==> (idx_has(
                    ie_views(old(idx)@),
                    o,
                    it,
                ) || (o == outer@ && it == item@)),
    {
        let ghost v0 = ie_views(idx@);
        match Self::idx_find(idx, outer) {
            Some(i) => {
                let mut e = idx.remove(i);
                let ghost items0 = strviews(e.items@);
                if !Self::items_contain(&e.items, item) {
                    e.items.push(item.clone());
                }
                let ghost items1 = strviews(e.items@);
                proof {
                    if items0.contains(item@) {
                        assert(items1 =~= items0);
                    } else {
                        assert(items1 =~= items0.push(item@));
                        assert(items1[items1.len() - 1] == item@);
                    }
                    assert(items1.contains(item@));
                    assert(forall|a: int, b: int|
                        0 <= a < b < items1.len() ==> #[trigger] items1[a]
                            != #[trigger] items1[b]) by {
                        assert forall|a: int, b: int|
                            0 <= a < b < items1.len() implies #[trigger] items1[a]
                            != #[trigger] items1[b] by {
                            if b < items0.len() {
                                assert(v0[i as int].1[a] != v0[i as int].1[b]);
                            } else {
                                assert(items1[b] == item@);
                                assert(items1[a] == items0[a]);
                                assert(!items0.contains(item@));
                            }
                        }
                    }
                }
                idx.insert(i, e);
                proof {
                    let v1 = ie_views(idx@);
                    assert(v1.len() == v0.len());
                    assert forall|t: int|
                        0 <= t < v0.len() && t != i implies v1[t] == v0[t] by {
                        assert(idx@[t] == old(idx)@[t]);
                    }
                    assert(v1[i as int].0 == v0[i as int].0);
                    assert(v1[i as int].1 == items1);
                    assert(v0[i as int].1 == items0);
                    assert(v1[i as int].1.contains(item@));
                    assert(idx_has(v1, outer@, item@));
                    assert forall|o: Seq<char>, it: Seq<char>|
                        #[trigger] idx_has(v1, o, it) <==> (idx_has(v0, o, it) || (o == outer@
                        && it == item@)) by {
                        if idx_has(v1, o, it) {
                            let t = choose|t: int|
                                0 <= t < v1.len() && (#[trigger] v1[t]).0 == o
                                    && v1[t].1.contains(it);
                            if t != i {
                                assert(v0[t].0 == o && v0[t].1.contains(it));
                                assert(idx_has(v0, o, it));
                            } else if it == item@ && o == outer@ {
                            } else {
                                assert(items1.contains(it));
                                let a = choose|a: int|
                                    0 <= a < items1.len() && items1[a] == it;
                                if a < items0.len() {
                                    assert(items0[a] == it);
                                    assert(v0[t].0 == o && v0[t].1.contains(it));
                                    assert(idx_has(v0, o, it));
                                } else {
                                    assert(it == item@);
                                    assert(o == v1[t].0 && v1[t].0 == v0[i as int].0);
                                    assert(o == outer@);
                                }
                            }
                        }
                        if idx_has(v0, o, it) {
                            let t = choose|t: int|
                                0 <= t < v0.len() && (#[trigger] v0[t]).0 == o
                                    && v0[t].1.contains(it);
                            if t == i {
                                let a = choose|a: int|
                                    0 <= a < items0.len() && items0[a] == it;
                                assert(items1.contains(it)) by {
                                    if !items0.contains(item@) {
                                        assert(items1[a] == it);
                                    }
                                }
                                assert(v1[t].0 == o && v1[t].1.contains(it));
                            } else {
                                assert(v1[t].0 == o && v1[t].1.contains(it));
                            }
                            assert(idx_has(v1, o, it));
                        }
                        if o == outer@ && it == item@ {
                            assert(idx_has(v1, o, it));
                        }
                    }
                }
            },
            None => {
                let mut items: Vec<String> = Vec::new();
                items.push(item.clone());
                let e = IndexEntry { key: outer.clone(), items };
                idx.push(e);
                proof {
                    let v1 = ie_views(idx@);
                    let n = v0.len() as int;
                    assert(v1 =~~= v0.push((outer@, seq![item@])));
                    assert(v1[n].0 == outer@);
                    assert(v1[n].1.contains(item@)) by {
                        assert(v1[n].1[0] == item@);
                    }
                    assert(idx_has(v1, outer@, item@));
                    assert(outer_unique(v1)) by {
                        assert forall|a: int, b: int|
                            0 <= a < b < v1.len() implies (#[trigger] v1[a]).0
                            != (#[trigger] v1[b]).0 by {
                            if b == n {
                                assert(v1[a].0 == v0[a].0);
                            }
                        }
                    }
                    assert forall|o: Seq<char>, it: Seq<char>|
                        #[trigger] idx_has(v1, o, it) <==> (idx_has(v0, o, it) || (o == outer@
                        && it == item@)) by {
                        if idx_has(v1, o, it) {
                            let t = choose|t: int|
                                0 <= t < v1.len() && (#[trigger] v1[t]).0 == o
                                    && v1[t].1.contains(it);
                            if t < n {
                                assert(v0[t].0 == o && v0[t].1.contains(it));
                                assert(idx_has(v0, o, it));
                            } else {
                                let a = choose|a: int|
                                    0 <= a < v1[t].1.len() && v1[t].1[a] == it;
                                assert(seq![item@][a] == it);
                                assert(it == item@);
                            }
                        }
                        if idx_has(v0, o, it) {
                            let t = choose|t: int|
                                0 <= t < v0.len() && (#[trigger] v0[t]).0 == o
                                    && v0[t].1.contains(it);
                            assert(v1[t].0 == o && v1[t].1.contains(it));
                            assert(idx_has(v1, o, it));
                        }
                        if o == outer@ && it == item@ {
                            assert(idx_has(v1, o, it));
                        }
                    }
                }
            },
        }
    }

    /// Store a symbol. An existing record under the same (file, name) key
    /// is replaced; the secondary indices cover the key afterwards either
    /// way.
    pub fn insert(&mut self, symbol: Symbol)
        requires
            old(self).wf(),
        ensures
            final(self).wf(),
            prim_has(final(self).prim(), skey(symbol@)),
            prim_get(final(self).prim(), skey(symbol@)) == symbol@,
            forall|k: SymKeyV|
                #[trigger] prim_has(final(self).prim(), k) <==> (prim_has(old(self).prim(), k)
                    || k == skey(symbol@)),
            forall|k: SymKeyV|
                k != skey(symbol@) && prim_has(old(self).prim(), k) ==> prim_get(
                    final(self).prim(),
                    k,
                ) == prim_get(old(self).prim(), k),
            final(self).graph() == old(self).graph(),
    {
        let ghost p0 = self.prim();
        Self::idx_add(&mut self.by_name, &symbol.name, &symbol.file);
        Self::idx_add(&mut self.by_file, &symbol.file, &symbol.name);
        let found = self.prim_find(&symbol.file, &symbol.name);
        let ghost symv = symbol@;
        match found {
            Some(i) => {
                self.symbols.remove(i);
                self.symbols.insert(i, symbol);
                proof {
                    let p1 = self.prim();
                    assert(p1.len() == p0.len());
                    assert(forall|t: int| 0 <= t < p0.len() && t != i ==> p1[t] == p0[t]);
                    assert(p1[i as int] == symv);
                    assert(skey(p0[i as int]) == skey(symv));
                    assert(prim_unique(p1)) by {
                        assert forall|a: int, b: int|
                            0 <= a < b < p1.len() implies #[trigger] skey(p1[a])
                            != #[trigger] skey(p1[b]) by {
                            assert(skey(p0[a]) != skey(p0[b]));
                        }
                    }
                    assert forall|k: SymKeyV| #[trigger]
                        prim_has(p1, k) implies (prim_has(p0, k) || k == skey(symv)) by {
                        let t = prim_idx(p1, k);
                        if t != i {
                            assert(skey(p0[t]) == k);
                        }
                    }
                    assert forall|k: SymKeyV|
                        (prim_has(p0, k) || k == skey(symv)) implies #[trigger] prim_has(
                        p1,
                        k,
                    ) by {
                        if k == skey(symv) {
                            assert(skey(p1[i as int]) == k);
                        } else {
                            let t = prim_idx(p0, k);
                            assert(skey(p0[t]) == k);
                            assert(t != i);
                            assert(skey(p1[t]) == k);
                        }
                    }
                    assert(prim_has(p1, skey(symv)) && prim_get(p1, skey(symv)) == symv) by {
                        lemma_prim_get_at(p1, i as int);
                    }
                    assert forall|k: SymKeyV|
                        k != skey(symv) && prim_has(p0, k) implies prim_get(p1, k) == prim_get(
                        p0,
                        k,
                    ) by {
                        let t = prim_idx(p0, k);
                        assert(skey(p0[t]) == k);
                        assert(t != i);
                        lemma_prim_get_at(p0, t);
                        lemma_prim_get_at(p1, t);
                    }
                }
            },
            None => {
                self.symbols.push(symbol);
                proof {
                    let p1 = self.prim();
                    assert(p1 =~= p0.push(symv));
                    assert(prim_unique(p1)) by {
                        assert forall|a: int, b: int|
                            0 <= a < b < p1.len() implies #[trigger] skey(p1[a])
                            != #[trigger] skey(p1[b]) by {
                            if b == p0.len() {
                                assert(skey(p1[a]) == skey(p0[a]));
                                assert(prim_has(p0, skey(p0[a])));
                            } else {
                                assert(skey(p0[a]) != skey(p0[b]));
                            }
                        }
                    }
                    assert forall|k: SymKeyV| #[trigger]
                        prim_has(p1, k) implies (prim_has(p0, k) || k == skey(symv)) by {
                        let t = prim_idx(p1, k);
                        if t < p0.len() {
                            assert(skey(p0[t]) == k);
                        }
                    }
                    assert forall|k: SymKeyV|
                        (prim_has(p0, k) || k == skey(symv)) implies #[trigger] prim_has(
                        p1,
                        k,
                    ) by {
                        if k == skey(symv) {
                            assert(skey(p1[p0.len() as int]) == k);
                        } else {
                            let t = prim_idx(p0, k);
                            assert(skey(p1[t]) == k);
                        }
                    }
                    assert(prim_get(p1, skey(symv)) == symv) by {
                        lemma_prim_get_at(p1, p0.len() as int);
                    }
                    assert forall|k: SymKeyV|
                        k != skey(symv) && prim_has(p0, k) implies prim_get(p1, k) == prim_get(
                        p0,
                        k,
                    ) by {
                        let t = prim_idx(p0, k);
                        assert(skey(p0[t]) == k);
                        lemma_prim_get_at(p0, t);
                        lemma_prim_get_at(p1, t);
                    }
                }
            },
        }
        proof {
            let p1 = self.prim();
            let bn = self.names_idx();
            let bf = self.files_idx();
            assert forall|i: int, j: int|
                0 <= i < bn.len() && 0 <= j < bn[i].1.len() implies prim_has(
                p1,
                ((#[trigger] bn[i].1[j]), bn[i].0),
            ) by {
                assert(idx_has(bn, bn[i].0, bn[i].1[j]));
            }
            assert forall|i: int, j: int|
                0 <= i < bf.len() && 0 <= j < bf[i].1.len() implies prim_has(
                p1,
                (bf[i].0, (#[trigger] bf[i].1[j])),
            ) by {
                assert(idx_has(bf, bf[i].0, bf[i].1[j]));
            }
            assert forall|t: int|
                0 <= t < p1.len() implies idx_has(bn, (#[trigger] p1[t]).name, p1[t].file) by {
                assert(prim_has(p1, skey(p1[t])));
                if skey(p1[t]) == skey(symv) {
                    assert(p1[t] == prim_get(p1, skey(symv)));
                } else {
                    assert(prim_has(p0, skey(p1[t])));
                    let u = prim_idx(p0, skey(p1[t]));
                    assert(idx_has(ie_views(old(self).by_name@), p0[u].name, p0[u].file));
                }
            }
            assert forall|t: int|
                0 <= t < p1.len() implies idx_has(bf, (#[trigger] p1[t]).file, p1[t].name) by {
                assert(prim_has(p1, skey(p1[t])));
                if skey(p1[t]) == skey(symv) {
                    assert(p1[t] == prim_get(p1, skey(symv)));
                } else {
                    assert(prim_has(p0, skey(p1[t])));
                    let u = prim_idx(p0, skey(p1[t]));
                    assert(idx_has(ie_views(old(self).by_file@), p0[u].file, p0[u].name));
                }
            }
        }
    }

    fn c_find(&self, name: &String) -> (r: Option<usize>)
        ensures
            match r {
                Some(i) => i < self.graph().len() && self.graph()[i as int].0 == name@,
                None => !c_has(self.graph(), name@),
            },
    {
        let mut i: usize = 0;
        while i < self.callers.len()
            invariant
                i <= self.callers@.len(),
                forall|t: int| 0 <= t < i ==> (#[trigger] self.graph()[t]).0 != name@,
            decreases self.callers@.len() - i,
        {
            if crate::symbol::str_eq(self.callers[i].key.as_str(), name.as_str()) {
                return Some(i);
            }
            i = i + 1;
        }
        proof {
            if c_has(self.graph(), name@) {
                let t = choose|t: int|
                    0 <= t < self.graph().len() && (#[trigger] self.graph()[t]).0 == name@;
                assert(self.graph()[t].0 != name@);
            }
        }
        None
    }

    /// Record that `callee_name` is called from `file` at `line`; the new
    /// site is appended to the callee's list, which is created if absent.
    pub fn add_caller(&mut self, callee_name: &str, file: &str, line: usize, text: &str)
        requires
            old(self).wf(),
        ensures
            final(self).wf(),
            final(self).prim() == old(self).prim(),
            final(self).names_idx() == old(self).names_idx(),
            final(self).files_idx() == old(self).files_idx(),
            c_has(final(self).graph(), callee_name@),
            c_get(final(self).graph(), callee_name@) == (if c_has(
                old(self).graph(),
                callee_name@,
            ) {
                c_get(old(self).graph(), callee_name@)
            } else {
                Seq::<CallerRefV>::empty()
            }).push(CallerRefV { file: file@, line: line as int, text: text@ }),
            forall|n: Seq<char>|
                n != callee_name@ ==> (#[trigger] c_has(final(self).graph(), n) <==> c_has(
                    old(self).graph(),
                    n,
                )),
            forall|n: Seq<char>|
                n != callee_name@ && c_has(old(self).graph(), n) ==> #[trigger] c_get(
                    final(self).graph(),
                    n,
                ) == c_get(old(self).graph(), n),
    {
        let ghost g0 = self.graph();
        let ghost rv = CallerRefV { file: file@, line: line as int, text: text@ };
        let key = callee_name.to_owned();
        let site = CallerRef { file: file.to_owned(), line, text: text.to_owned() };
        let found = self.c_find(&key);
        match found {
            Some(i) => {
                let mut e = self.callers.remove(i);
                let ghost refs0 = crviews(e.refs@);
                e.refs.push(site);
                proof {
                    assert(crviews(e.refs@) =~= refs0.push(rv));
                }
                self.callers.insert(i, e);
                proof {
                    let g1 = self.graph();
                    assert(g1.len() == g0.len());
                    assert forall|t: int|
                        0 <= t < g0.len() && t != i implies g1[t] == g0[t] by {
                        assert(self.callers@[t] == old(self).callers@[t]);
                    }
                    assert(g1[i as int].0 == g0[i as int].0);
                    assert(g1[i as int].1 == refs0.push(rv));
                    lemma_c_get_at(g0, i as int);
                    assert(c_unique(g1)) by {
                        assert forall|a: int, b: int|
                            0 <= a < b < g1.len() implies (#[trigger] g1[a]).0
                            != (#[trigger] g1[b]).0 by {
                            assert(g0[a].0 != g0[b].0);
                        }
                    }
                    lemma_c_get_at(g1, i as int);
                    assert forall|n: Seq<char>|
                        n != callee_name@ implies (#[trigger] c_has(g1, n) <==> c_has(
                        g0,
                        n,
                    )) by {
                        if c_has(g1, n) {
                            let t = c_idx(g1, n);
                            assert(g1[t].0 == n);
                            assert(t != i);
                            assert(g0[t].0 == n);
                            assert(c_has(g0, n));
                        }
                        if c_has(g0, n) {
                            let t = c_idx(g0, n);
                            assert(g0[t].0 == n);
                            assert(t != i);
                            assert(g1[t].0 == n);
                            assert(c_has(g1, n));
                        }
                    }
                    assert forall|n: Seq<char>|
                        n != callee_name@ && c_has(g0, n) implies #[trigger] c_get(g1, n)
                        == c_get(g0, n) by {
                        let t = c_idx(g0, n);
                        assert(g0[t].0 == n);
                        assert(t != i);
                        lemma_c_get_at(g0, t);
                        lemma_c_get_at(g1, t);
                    }
                }
            },
            None => {
                let mut refs: Vec<CallerRef> = Vec::new();
                refs.push(site);
                let e = CallerEntry { key, refs };
                self.callers.push(e);
                proof {
                    let g1 = self.graph();
                    let n0 = g0.len() as int;
                    assert(g1 =~~= g0.push((callee_name@, seq![rv])));
                    assert(c_unique(g1)) by {
                        assert forall|a: int, b: int|
                            0 <= a < b < g1.len() implies (#[trigger] g1[a]).0
                            != (#[trigger] g1[b]).0 by {
                            if b == n0 {
                                assert(g1[a].0 == g0[a].0);
                                assert(!c_has(g0, callee_name@));
                                assert(c_has(g0, g0[a].0));
                            } else {
                                assert(g0[a].0 != g0[b].0);
                            }
                        }
                    }
                    lemma_c_get_at(g1, n0);
                    assert(g1[n0].1 =~= Seq::<CallerRefV>::empty().push(rv));
                    assert forall|n: Seq<char>|
                        n != callee_name@ implies (#[trigger] c_has(g1, n) <==> c_has(
                        g0,
                        n,
                    )) by {
                        if c_has(g1, n) {
                            let t = c_idx(g1, n);
                            assert(g1[t].0 == n);
                            assert(t != n0);
                            assert(c_has(g0, n));
                        }
                        if c_has(g0, n) {
                            let t = c_idx(g0, n);
                            assert(g1[t].0 == n);
                            assert(c_has(g1, n));
                        }
                    }
                    assert forall|n: Seq<char>|
                        n != callee_name@ && c_has(g0, n) implies #[trigger] c_get(g1, n)
                        == c_get(g0, n) by {
                        let t = c_idx(g0, n);
                        assert(g0[t].0 == n);
                        lemma_c_get_at(g0, t);
                        lemma_c_get_at(g1, t);
                    }
                }
            },
        }
    }

    /// The recorded call sites of `name`; `None` when the callee has never
    /// been seen, as distinct from an empty list.
    pub fn get_callers(&self, name: &str) -> (r: Option<Vec<CallerRef>>)
        requires
            self.wf(),
        ensures
            match r {
                Some(v) => c_has(self.graph(), name@) && crviews(v@) == c_get(
                    self.graph(),
                    name@,
                ),
                None => !c_has(self.graph(), name@),
            },
    {
        let key = name.to_owned();
        match self.c_find(&key) {
            Some(i) => {
                let refs = &self.callers[i].refs;
                let mut out: Vec<CallerRef> = Vec::new();
                let mut j: usize = 0;
                proof {
                    assert(crviews(out@) =~= crviews(refs@).take(0));
                }
                while j < refs.len()
                    invariant
                        j <= refs@.len(),
                        crviews(out@) =~= crviews(refs@).take(j as int),
                    decreases refs@.len() - j,
                {
                    let ghost o0 = out@;
                    out.push(refs[j].clone());
                    proof {
                        assert(crviews(out@) =~= crviews(o0).push(crviews(refs@)[j as int]));
                        assert(crviews(refs@).take(j + 1) =~= crviews(refs@).take(
                            j as int,
                        ).push(crviews(refs@)[j as int]));
                    }
                    j = j + 1;
                }
                proof {
                    assert(crviews(refs@).take(refs@.len() as int) =~= crviews(refs@));
                    lemma_c_get_at(self.graph(), i as int);
                }
                Some(out)
            },
            None => None,
        }
    }

    /// The symbols matching a search query, in store order, capped at
    /// `limit`: the query matches a symbol when its lowercased name
    /// contains the lowercased query as a substring.
    pub fn search(&self, q: &str, limit: usize) -> (r: Vec<Symbol>)
        ensures
            sviews(r@) == search_spec(self.prim(), q@, limit as nat),
            r@.len() <= limit,
    {
        let qlow = crate::trusted::to_lower(q);
        let ghost p = self.prim();
        let mut out: Vec<Symbol> = Vec::new();
        let mut i: usize = 0;
        proof {
            assert(p.skip(0) =~= p);
            assert(sviews(out@) =~= Seq::<SymbolV>::empty());
            assert(Seq::<SymbolV>::empty() + search_spec(p, q@, limit as nat) =~= search_spec(
                p,
                q@,
                limit as nat,
            ));
        }
        while i < self.symbols.len() && out.len() < limit
            invariant
                i <= self.symbols@.len(),
                p == self.prim(),
                out@.len() <= limit,
                qlow@ == crate::trusted::lower_of(q@),
                search_spec(p, q@, limit as nat) == sviews(out@) + search_spec(
                    p.skip(i as int),
                    q@,
                    (limit - out@.len()) as nat,
                ),
            decreases self.symbols@.len() - i,
        {
            let ghost s = p.skip(i as int);
            let ghost lim = (limit - out@.len()) as nat;
            proof {
                assert(s.len() > 0);
                assert(s[0] == p[i as int]);
                assert(s.drop_first() =~= p.skip(i + 1));
            }
            let nlow = crate::trusted::to_lower(self.symbols[i].name.as_str());
            let m = crate::text::contains_run(nlow.as_str().as_bytes(), qlow.as_str().as_bytes());
            proof {
                assert(m == name_matches(p[i as int].name, q@));
            }
            if m {
                let ghost o0 = out@;
                out.push(self.symbols[i].clone());
                proof {
                    assert(sviews(out@) =~= sviews(o0).push(s[0]));
                    assert(search_spec(s, q@, lim) == seq![s[0]] + search_spec(
                        s.drop_first(),
                        q@,
                        (lim - 1) as nat,
                    ));
                    assert(sviews(o0) + search_spec(s, q@, lim) =~= sviews(out@)
                        + search_spec(p.skip(i + 1), q@, (limit - out@.len()) as nat));
                }
            } else {
                proof {
                    assert(search_spec(s, q@, lim) == search_spec(
                        s.drop_first(),
                        q@,
                        lim,
                    ));
                }
            }
            i = i + 1;
        }
        proof {
            if out@.len() < limit {
                assert(p.skip(i as int).len() == 0);
                assert(search_spec(p.skip(i as int), q@, (limit - out@.len()) as nat)
                    =~= Seq::<SymbolV>::empty());
            } else {
                assert(search_spec(p.skip(i as int), q@, (limit - out@.len()) as nat)
                    =~= Seq::<SymbolV>::empty());
            }
            assert(sviews(out@) + Seq::<SymbolV>::empty() =~= sviews(out@));
        }
        out
    }

    /// All symbols recorded for `file`, one per stored key, read off the
    /// by-file index.
    pub fn list_by_file(&self, file: &str) -> (r: Vec<Symbol>)
        requires
            self.wf(),
        ensures
            forall|t: int|
                0 <= t < r@.len() ==> (#[trigger] sviews(r@)[t]).file == file@ && prim_has(
                    self.prim(),
                    (file@, sviews(r@)[t].name),
                ) && sviews(r@)[t] == prim_get(self.prim(), (file@, sviews(r@)[t].name)),
            forall|a: int, b: int|
                0 <= a < b < r@.len() ==> (#[trigger] sviews(r@)[a]).name
                    != (#[trigger] sviews(r@)[b]).name,
            forall|n: Seq<char>|
                prim_has(self.prim(), (file@, n)) ==> exists|t: int|
                    0 <= t < r@.len() && (#[trigger] sviews(r@)[t]).name == n,
    {
        let ghost p = self.prim();
        let ghost bf = self.files_idx();
        let key = file.to_owned();
        let found = Self::idx_find(&self.by_file, &key);
        match found {
            Some(i) => {
                let items = &self.by_file[i].items;
                let mut out: Vec<Symbol> = Vec::new();
                let mut j: usize = 0;
                while j < items.len()
                    invariant
                        j <= items@.len(),
                        self.wf(),
                        p == self.prim(),
                        bf == self.files_idx(),
                        i < bf.len(),
                        bf[i as int].0 == file@,
                        bf[i as int].1 == strviews(items@),
                        key@ == file@,
                        out@.len() == j,
                        forall|t: int|
                            0 <= t < j ==> (#[trigger] sviews(out@)[t]).name == strviews(
                                items@,
                            )[t] && sviews(out@)[t] == prim_get(
                                p,
                                (file@, strviews(items@)[t]),
                            ) && sviews(out@)[t].file == file@,
                    decreases items@.len() - j,
                {
                    proof {
                        assert(bf[i as int].1[j as int] == strviews(items@)[j as int]);
                        assert(prim_has(p, (bf[i as int].0, bf[i as int].1[j as int])));
                        assert(prim_has(p, (file@, strviews(items@)[j as int])));
                    }
                    let found_sym = self.prim_find(&key, &items[j]);
                    let ghost o0 = out@;
                    match found_sym {
                        Some(t) => {
                            out.push(self.symbols[t].clone());
                            proof {
                                lemma_prim_get_at(p, t as int);
                                assert(sviews(out@) =~= sviews(o0).push(p[t as int]));
                            }
                        },
                        None => {
                            proof {
                                assert(prim_has(p, (file@, strviews(items@)[j as int])));
                                assert(false);
                            }
                        },
                    }
                    j = j + 1;
                }
                proof {
                    assert forall|a: int, b: int|
                        0 <= a < b < out@.len() implies (#[trigger] sviews(out@)[a]).name
                        != (#[trigger] sviews(out@)[b]).name by {
                        assert(bf[i as int].1[a] != bf[i as int].1[b]);
                    }
                    assert forall|n: Seq<char>|
                        prim_has(p, (file@, n)) implies exists|t: int|
                            0 <= t < out@.len() && (#[trigger] sviews(out@)[t]).name == n by {
                        let u = prim_idx(p, (file@, n));
                        assert(skey(p[u]) == (file@, n));
                        assert(idx_has(bf, p[u].file, p[u].name));
                        let w = choose|w: int|
                            0 <= w < bf.len() && (#[trigger] bf[w]).0 == file@
                                && bf[w].1.contains(n);
                        assert(w == i) by {
                            if w != i {
                                assert(bf[w].0 != bf[i as int].0);
                            }
                        }
                        let a = choose|a: int|
                            0 <= a < bf[i as int].1.len() && bf[i as int].1[a] == n;
                        assert(sviews(out@)[a].name == n);
                    }
                }
                out
            },
            None => {
                let out: Vec<Symbol> = Vec::new();
                proof {
                    assert(sviews(out@) =~= Seq::<SymbolV>::empty());
                    assert forall|n: Seq<char>|
                        prim_has(p, (file@, n)) implies exists|t: int|
                            0 <= t < out@.len() && (#[trigger] sviews(out@)[t]).name == n by {
                        let u = prim_idx(p, (file@, n));
                        assert(skey(p[u]) == (file@, n));
                        assert(idx_has(bf, p[u].file, p[u].name));
                        let w = choose|w: int|
                            0 <= w < bf.len() && (#[trigger] bf[w]).0 == file@
                                && bf[w].1.contains(n);
                        assert(bf[w].0 != file@);
                    }
                }
                out
            },
        }
    }

    /// Delete the record under `(file, name)` from the primary store, if
    /// present.
    fn prim_remove(symbols: &mut Vec<Symbol>, file: &String, name: &String)
        requires
            prim_unique(sviews(old(symbols)@)),
        ensures
            prim_unique(sviews(final(symbols)@)),
            forall|k: SymKeyV|
                #[trigger] prim_has(sviews(final(symbols)@), k) <==> (prim_has(
                    sviews(old(symbols)@),
                    k,
                ) && k != (file@, name@)),
            forall|k: SymKeyV|
                prim_has(sviews(final(symbols)@), k) ==> #[trigger] prim_get(
                    sviews(final(symbols)@),
                    k,
                ) == prim_get(sviews(old(symbols)@), k),
    {
        let ghost p0 = sviews(symbols@);
        let mut i: usize = 0;
        let mut found: Option<usize> = None;
        while i < symbols.len()
            invariant
                i <= symbols@.len(),
                p0 == sviews(symbols@),
                match found {
                    Some(t) => t < i && skey(p0[t as int]) == (file@, name@),
                    None => forall|t: int|
                        0 <= t < i ==> #[trigger] skey(p0[t]) != (file@, name@),
                },
            decreases symbols@.len() - i,
        {
            if found.is_none() && crate::symbol::str_eq(symbols[i].file.as_str(), file.as_str())
                && crate::symbol::str_eq(symbols[i].name.as_str(), name.as_str()) {
                proof {
                    assert(skey(p0[i as int]) == (file@, name@));
                }
                found = Some(i);
            }
            i = i + 1;
        }
        match found {
            Some(t) => {
                symbols.remove(t);
                proof {
                    let p1 = sviews(symbols@);
                    assert(p1 =~= p0.remove(t as int));
                    assert(forall|u: int| 0 <= u < t ==> p1[u] == p0[u]);
                    assert(forall|u: int|
                        t <= u < p1.len() ==> p1[u] == p0[u + 1]);
                    assert(prim_unique(p1)) by {
                        assert forall|a: int, b: int|
                            0 <= a < b < p1.len() implies #[trigger] skey(p1[a])
                            != #[trigger] skey(p1[b]) by {
                            let a0: int = if a < t { a } else { a + 1 };
                            let b0: int = if b < t { b } else { b + 1 };
                            assert(skey(p0[a0]) != skey(p0[b0]));
                        }
                    }
                    assert forall|k: SymKeyV| #[trigger]
                        prim_has(p1, k) implies (prim_has(p0, k) && k != (file@, name@)) by {
                        let u = prim_idx(p1, k);
                        let u0: int = if u < t { u } else { u + 1 };
                        assert(skey(p0[u0]) == k);
                        assert(prim_has(p0, k));
                        if k == (file@, name@) {
                            assert(skey(p0[t as int]) == k);
                            assert(u0 != t);
                            assert(skey(p0[u0]) != skey(p0[t as int]));
                        }
                    }
                    assert forall|k: SymKeyV|
                        (prim_has(p0, k) && k != (file@, name@)) implies #[trigger] prim_has(
                        p1,
                        k,
                    ) by {
                        let u = prim_idx(p0, k);
                        assert(skey(p0[u]) == k);
                        assert(u != t);
                        let u1: int = if u < t { u } else { u - 1 };
                        assert(skey(p1[u1]) == k);
                    }
                    assert forall|k: SymKeyV|
                        prim_has(p1, k) implies #[trigger] prim_get(p1, k) == prim_get(
                        p0,
                        k,
                    ) by {
                        let u = prim_idx(p1, k);
                        assert(skey(p1[u]) == k);
                        let u0: int = if u < t { u } else { u + 1 };
                        assert(skey(p0[u0]) == k);
                        lemma_prim_get_at(p1, u);
                        lemma_prim_get_at(p0, u0);
                    }
                }
            },
            None => {
                proof {
                    if prim_has(p0, (file@, name@)) {
                        let u = prim_idx(p0, (file@, name@));
                        assert(skey(p0[u]) != (file@, name@));
                    }
                }
            },
        }
    }

    /// Delete `item` from the entry under `outer` in a secondary index,
    /// dropping the entry when it becomes empty.
    fn idx_remove_item(idx: &mut Vec<IndexEntry>, outer: &String, item: &String)
        requires
            outer_unique(ie_views(old(idx)@)),
            items_unique(ie_views(old(idx)@)),
        ensures
            outer_unique(ie_views(final(idx)@)),
            items_unique(ie_views(final(idx)@)),
            forall|o: Seq<char>, it: Seq<char>|
                #[trigger] idx_has(ie_views(final(idx)@), o, it) <==> (idx_has(
                    ie_views(old(idx)@),
                    o,
                    it,
                ) && !(o == outer@ && it == item@)),
    {
        let ghost v0 = ie_views(idx@);
        let found = Self::idx_find(idx, outer);
        match found {
            Some(i) => {
                let mut e = idx.remove(i);
                let ghost items0 = strviews(e.items@);
                let ghost vr = ie_views(idx@);
                proof {
                    assert(vr =~= v0.remove(i as int));
                    assert(forall|u: int| 0 <= u < i ==> vr[u] == v0[u]);
                    assert(forall|u: int| i <= u < vr.len() ==> vr[u] == v0[u + 1]);
                    assert(items0 =~= v0[i as int].1);
                    assert forall|a: int, b: int|
                        0 <= a < b < items0.len() implies items0[a] != items0[b] by {
                        assert(v0[i as int].1[a] != v0[i as int].1[b]);
                    }
                }
                let mut pos: Option<usize> = None;
                let mut j: usize = 0;
                while j < e.items.len()
                    invariant
                        j <= e.items@.len(),
                        items0 == strviews(e.items@),
                        match pos {
                            Some(t) => t < j && items0[t as int] == item@,
                            None => forall|t: int| 0 <= t < j ==> items0[t] != item@,
                        },
                    decreases e.items@.len() - j,
                {
                    if pos.is_none() && crate::symbol::str_eq(
                        e.items[j].as_str(),
                        item.as_str(),
                    ) {
                        pos = Some(j);
                    }
                    j = j + 1;
                }
                match pos {
                    Some(t) => {
                        e.items.remove(t);
                        let ghost items1 = strviews(e.items@);
                        proof {
                            assert(items1 =~= items0.remove(t as int));
                            assert(forall|u: int| 0 <= u < t ==> items1[u] == items0[u]);
                            assert(forall|u: int|
                                t <= u < items1.len() ==> items1[u] == items0[u + 1]);
                            assert forall|it: Seq<char>|
                                #[trigger] items1.contains(it) <==> (items0.contains(it) && it
                                != item@) by {
                                if items1.contains(it) {
                                    let u = choose|u: int|
                                        0 <= u < items1.len() && items1[u] == it;
                                    let u0: int = if u < t { u } else { u + 1 };
                                    assert(items0[u0] == it);
                                    assert(items0.contains(it));
                                    if it == item@ {
                                        assert(items0[u0] == items0[t as int]);
                                        assert(u0 != t);
                                    }
                                }
                                if items0.contains(it) && it != item@ {
                                    let u = choose|u: int|
                                        0 <= u < items0.len() && items0[u] == it;
                                    assert(u != t);
                                    let u1: int = if u < t { u } else { u - 1 };
                                    assert(items1[u1] == it);
                                }
                            }
                        }
                        if e.items.len() > 0 {
                            idx.insert(i, e);
                            proof {
                                let v1 = ie_views(idx@);
                                assert(v1.len() == v0.len());
                                assert forall|u: int|
                                    0 <= u < v0.len() && u != i implies v1[u] == v0[u] by {
                                    if u < i {
                                        assert(v1[u] == vr.insert(i as int, v1[i as int])[u]);
                                    }
                                }
                                assert(v1[i as int].0 == v0[i as int].0);
                                assert(v1[i as int].1 == items1);
                                assert forall|o: Seq<char>, it: Seq<char>|
                                    #[trigger] idx_has(v1, o, it) <==> (idx_has(v0, o, it)
                                    && !(o == outer@ && it == item@)) by {
                                    if idx_has(v1, o, it) {
                                        let w = choose|w: int|
                                            0 <= w < v1.len() && (#[trigger] v1[w]).0 == o
                                                && v1[w].1.contains(it);
                                        if w == i {
                                            assert(items1.contains(it));
                                            assert(items0.contains(it) && it != item@);
                                            assert(v0[w].0 == o && v0[w].1.contains(it));
                                        } else {
                                            assert(v0[w].0 == o && v0[w].1.contains(it));
                                            if o == outer@ {
                                                assert(v0[w].0 != v0[i as int].0);
                                            }
                                        }
                                        assert(idx_has(v0, o, it));
                                    }
                                    if idx_has(v0, o, it) && !(o == outer@ && it == item@) {
                                        let w = choose|w: int|
                                            0 <= w < v0.len() && (#[trigger] v0[w]).0 == o
                                                && v0[w].1.contains(it);
                                        if w == i {
                                            assert(o == outer@);
                                            assert(it != item@);
                                            assert(items1.contains(it));
                                            assert(v1[w].0 == o && v1[w].1.contains(it));
                                        } else {
                                            assert(v1[w].0 == o && v1[w].1.contains(it));
                                        }
                                        assert(idx_has(v1, o, it));
                                    }
                                }
                            }
                        } else {
                            proof {
                                let v1 = ie_views(idx@);
                                assert(v1 =~= vr);
                                assert(items1.len() == 0);
                                assert(outer_unique(v1)) by {
                                    assert forall|a: int, b: int|
                                        0 <= a < b < v1.len() implies (#[trigger] v1[a]).0
                                        != (#[trigger] v1[b]).0 by {
                                        let a0: int = if a < i { a } else { a + 1 };
                                        let b0: int = if b < i { b } else { b + 1 };
                                        assert(v0[a0].0 != v0[b0].0);
                                    }
                                }
                                assert(items_unique(v1)) by {
                                    assert forall|w: int, a: int, b: int|
                                        0 <= w < v1.len() && 0 <= a < b < v1[w].1.len() implies
                                        #[trigger] v1[w].1[a] != #[trigger] v1[w].1[b] by {
                                        let w0: int = if w < i { w } else { w + 1 };
                                        assert(v0[w0].1[a] != v0[w0].1[b]);
                                    }
                                }
                                assert forall|o: Seq<char>, it: Seq<char>|
                                    #[trigger] idx_has(v1, o, it) <==> (idx_has(v0, o, it)
                                    && !(o == outer@ && it == item@)) by {
                                    if idx_has(v1, o, it) {
                                        let w = choose|w: int|
                                            0 <= w < v1.len() && (#[trigger] v1[w]).0 == o
                                                && v1[w].1.contains(it);
                                        let w0: int = if w < i { w } else { w + 1 };
                                        assert(v0[w0].0 == o && v0[w0].1.contains(it));
                                        assert(idx_has(v0, o, it));
                                        if o == outer@ {
                                            assert(v0[w0].0 != v0[i as int].0);
                                        }
                                    }
                                    if idx_has(v0, o, it) && !(o == outer@ && it == item@) {
                                        let w = choose|w: int|
                                            0 <= w < v0.len() && (#[trigger] v0[w]).0 == o
                                                && v0[w].1.contains(it);
                                        if w == i {
                                            assert(o == outer@);
                                            assert(items0.contains(it) && it != item@);
                                            assert(items1.contains(it));
                                            assert(false);
                                        } else {
                                            let w1: int = if w < i { w } else { w - 1 };
                                            assert(v1[w1].0 == o && v1[w1].1.contains(it));
                                            assert(idx_has(v1, o, it));
                                        }
                                    }
                                }
                            }
                        }
                    },
                    None => {
                        idx.insert(i, e);
                        proof {
                            let v1 = ie_views(idx@);
                            assert(v1 =~~= v0);
                            assert forall|o: Seq<char>, it: Seq<char>|
                                #[trigger] idx_has(v1, o, it) <==> (idx_has(v0, o, it) && !(o
                                == outer@ && it == item@)) by {
                                if idx_has(v0, o, it) && o == outer@ && it == item@ {
                                    let w = choose|w: int|
                                        0 <= w < v0.len() && (#[trigger] v0[w]).0 == o
                                            && v0[w].1.contains(it);
                                    assert(w == i) by {
                                        if w != i {
                                            assert(v0[w].0 != v0[i as int].0);
                                        }
                                    }
                                    let a = choose|a: int|
                                        0 <= a < items0.len() && items0[a] == it;
                                    assert(items0[a] != item@);
                                }
                            }
                        }
                    },
                }
            },
            None => {
                proof {
                    assert forall|o: Seq<char>, it: Seq<char>|
                        #[trigger] idx_has(ie_views(idx@), o, it) <==> (idx_has(v0, o, it)
                        && !(o == outer@ && it == item@)) by {
                        if idx_has(v0, o, it) && o == outer@ {
                            let w = choose|w: int|
                                0 <= w < v0.len() && (#[trigger] v0[w]).0 == o
                                    && v0[w].1.contains(it);
                            assert(v0[w].0 != outer@);
                        }
                    }
                }
            },
        }
    }

    /// Drop every call site recorded from `file`; callee entries left with
    /// no sites are removed entirely.
    pub fn remove_callers_from_file(&mut self, file: &str)
        requires
            old(self).wf(),
        ensures
            final(self).wf(),
            final(self).prim() == old(self).prim(),
            final(self).names_idx() == old(self).names_idx(),
            final(self).files_idx() == old(self).files_idx(),
            forall|n: Seq<char>|
                #[trigger] c_has(final(self).graph(), n) <==> (c_has(old(self).graph(), n)
                    && c_get(old(self).graph(), n).filter(keeps_file(file@)).len() > 0),
            forall|n: Seq<char>|
                c_has(final(self).graph(), n) ==> #[trigger] c_get(final(self).graph(), n)
                    == c_get(old(self).graph(), n).filter(keeps_file(file@)),
    {
        let ghost g0 = self.graph();
        let ghost kf = keeps_file(file@);
        let mut acc: Vec<CallerEntry> = Vec::new();
        let mut u: usize = 0;
        let n = self.callers.len();
        proof {
            assert(ce_views(acc@) =~= Seq::<(Seq<char>, Seq<CallerRefV>)>::empty());
        }
        while u < n
            invariant
                u <= n == self.callers@.len(),
                g0 == self.graph(),
                self.wf(),
                kf == keeps_file(file@),
                c_unique(ce_views(acc@)),
                forall|n2: Seq<char>|
                    #[trigger] c_has(ce_views(acc@), n2) <==> exists|w: int|
                        0 <= w < u && (#[trigger] g0[w]).0 == n2 && g0[w].1.filter(kf).len()
                            > 0,
                forall|t: int|
                    0 <= t < ce_views(acc@).len() ==> exists|w: int|
                        0 <= w < u && (#[trigger] g0[w]).0 == (#[trigger] ce_views(
                            acc@,
                        )[t]).0 && ce_views(acc@)[t].1 == g0[w].1.filter(kf),
            decreases n - u,
        {
            let refs = &self.callers[u].refs;
            let ghost rv = crviews(refs@);
            proof {
                assert(g0[u as int].1 == rv);
            }
            let mut fr: Vec<CallerRef> = Vec::new();
            let mut k: usize = 0;
            proof {
                assert(crviews(fr@) =~= rv.take(0).filter(kf));
            }
            while k < refs.len()
                invariant
                    k <= refs@.len(),
                    rv == crviews(refs@),
                    kf == keeps_file(file@),
                    crviews(fr@) =~= rv.take(k as int).filter(kf),
                decreases refs@.len() - k,
            {
                let ghost f0 = fr@;
                let keep = !crate::symbol::str_eq(refs[k].file.as_str(), file);
                proof {
                    reveal_with_fuel(Seq::<_>::filter, 2);
                    let tk1 = rv.take(k + 1);
                    assert(tk1.drop_last() =~= rv.take(k as int));
                    assert(tk1.last() == rv[k as int]);
                    assert(tk1.len() > 0);
                    assert(tk1.filter(kf) == if kf(rv[k as int]) {
                        rv.take(k as int).filter(kf).push(rv[k as int])
                    } else {
                        rv.take(k as int).filter(kf)
                    });
                    assert(kf(rv[k as int]) == (rv[k as int].file != file@));
                }
                if keep {
                    fr.push(refs[k].clone());
                    proof {
                        assert(crviews(fr@) =~= crviews(f0).push(rv[k as int]));
                    }
                }
                k = k + 1;
            }
            proof {
                assert(rv.take(rv.len() as int) =~= rv);
                assert(crviews(fr@) =~= rv.filter(kf));
            }
            let ghost av = ce_views(acc@);
            if fr.len() > 0 {
                let e = CallerEntry { key: self.callers[u].key.clone(), refs: fr };
                acc.push(e);
                proof {
                    let av1 = ce_views(acc@);
                    assert(av1 =~~= av.push((g0[u as int].0, rv.filter(kf))));
                    assert(!c_has(av, g0[u as int].0)) by {
                        if c_has(av, g0[u as int].0) {
                            let w = choose|w: int|
                                0 <= w < u && (#[trigger] g0[w]).0 == g0[u as int].0
                                    && g0[w].1.filter(kf).len() > 0;
                            assert(g0[w].0 != g0[u as int].0);
                        }
                    }
                    assert(c_unique(av1)) by {
                        assert forall|a: int, b: int|
                            0 <= a < b < av1.len() implies (#[trigger] av1[a]).0
                            != (#[trigger] av1[b]).0 by {
                            if b == av.len() {
                                assert(c_has(av, av[a].0));
                            }
                        }
                    }
                    assert forall|n2: Seq<char>|
                        #[trigger] c_has(av1, n2) <==> exists|w: int|
                            0 <= w < u + 1 && (#[trigger] g0[w]).0 == n2 && g0[w].1.filter(
                                kf,
                            ).len() > 0 by {
                        if c_has(av1, n2) {
                            let t = choose|t: int|
                                0 <= t < av1.len() && (#[trigger] av1[t]).0 == n2;
                            if t < av.len() {
                                assert(c_has(av, n2));
                            } else {
                                assert(g0[u as int].0 == n2 && g0[u as int].1.filter(
                                    kf,
                                ).len() > 0);
                            }
                        }
                        if exists|w: int|
                            0 <= w < u + 1 && (#[trigger] g0[w]).0 == n2 && g0[w].1.filter(
                                kf,
                            ).len() > 0 {
                            let w = choose|w: int|
                                0 <= w < u + 1 && (#[trigger] g0[w]).0 == n2 && g0[w].1.filter(
                                    kf,
                                ).len() > 0;
                            if w < u {
                                assert(c_has(av, n2));
                                let t = c_idx(av, n2);
                                assert(av1[t].0 == n2);
                                assert(c_has(av1, n2));
                            } else {
                                assert(av1[av.len() as int].0 == n2);
                                assert(c_has(av1, n2));
                            }
                        }
                    }
                    assert forall|t: int|
                        0 <= t < av1.len() implies exists|w: int|
                            0 <= w < u + 1 && (#[trigger] g0[w]).0 == (#[trigger] av1[t]).0
                                && av1[t].1 == g0[w].1.filter(kf) by {
                        if t < av.len() {
                            assert(av1[t] == av[t]);
                            let w = choose|w: int|
                                0 <= w < u && (#[trigger] g0[w]).0 == av[t].0 && av[t].1
                                    == g0[w].1.filter(kf);
                            assert(0 <= w < u + 1 && g0[w].0 == av1[t].0 && av1[t].1 == g0[
                                w].1.filter(kf));
                        } else {
                            assert((g0[u as int]).0 == av1[t].0 && av1[t].1 == g0[
                                u as int].1.filter(kf));
                        }
                    }
                }
            } else {
                proof {
                    assert(rv.filter(kf).len() == 0);
                    assert forall|n2: Seq<char>|
                        #[trigger] c_has(av, n2) <==> exists|w: int|
                            0 <= w < u + 1 && (#[trigger] g0[w]).0 == n2 && g0[w].1.filter(
                                kf,
                            ).len() > 0 by {
                        if exists|w: int|
                            0 <= w < u + 1 && (#[trigger] g0[w]).0 == n2 && g0[w].1.filter(
                                kf,
                            ).len() > 0 {
                            let w = choose|w: int|
                                0 <= w < u + 1 && (#[trigger] g0[w]).0 == n2 && g0[w].1.filter(
                                    kf,
                                ).len() > 0;
                            assert(w != u);
                        }
                    }
                }
            }
            u = u + 1;
        }
        self.callers = acc;
        proof {
            let g1 = self.graph();
            assert forall|n2: Seq<char>|
                #[trigger] c_has(g1, n2) <==> (c_has(g0, n2) && c_get(g0, n2).filter(
                kf,
            ).len() > 0) by {
                if c_has(g1, n2) {
                    let w = choose|w: int|
                        0 <= w < n && (#[trigger] g0[w]).0 == n2 && g0[w].1.filter(kf).len()
                            > 0;
                    lemma_c_get_at(g0, w);
                }
                if c_has(g0, n2) && c_get(g0, n2).filter(kf).len() > 0 {
                    let w = c_idx(g0, n2);
                    assert(g0[w].0 == n2);
                    lemma_c_get_at(g0, w);
                    assert(0 <= w < n && g0[w].0 == n2 && g0[w].1.filter(kf).len() > 0);
                }
            }
            assert forall|n2: Seq<char>|
                c_has(g1, n2) implies #[trigger] c_get(g1, n2) == c_get(g0, n2).filter(
                kf,
            ) by {
                let t = c_idx(g1, n2);
                assert(g1[t].0 == n2);
                lemma_c_get_at(g1, t);
                let w = choose|w: int|
                    0 <= w < n && (#[trigger] g0[w]).0 == (g1[t]).0 && g1[t].1 == g0[
                    w].1.filter(kf);
                lemma_c_get_at(g0, w);
            }
        }
    }

    /// Remove every trace of `file` from the table: its records in the
    /// primary store, their entries in both secondary indices, and every
    /// call site recorded from it.
    pub fn remove_file(&mut self, file: &str)
        requires
            old(self).wf(),
        ensures
            final(self).wf(),
            forall|k: SymKeyV|
                #[trigger] prim_has(final(self).prim(), k) <==> (prim_has(
                    old(self).prim(),
                    k,
                ) && k.0 != file@),
            forall|k: SymKeyV|
                prim_has(final(self).prim(), k) ==> #[trigger] prim_get(final(self).prim(), k)
                    == prim_get(old(self).prim(), k),
            forall|t: int|
                0 <= t < final(self).files_idx().len()
                    ==> (#[trigger] final(self).files_idx()[t]).0 != file@,
            forall|o: Seq<char>, it: Seq<char>|
                #[trigger] idx_has(final(self).names_idx(), o, it) ==> it != file@,
            forall|n: Seq<char>|
                #[trigger] c_has(final(self).graph(), n) <==> (c_has(old(self).graph(), n)
                    && c_get(old(self).graph(), n).filter(keeps_file(file@)).len() > 0),
            forall|n: Seq<char>|
                c_has(final(self).graph(), n) ==> #[trigger] c_get(final(self).graph(), n)
                    == c_get(old(self).graph(), n).filter(keeps_file(file@)),
    {
        self.remove_callers_from_file(file);
        let ghost p0 = self.prim();
        let ghost bn0 = self.names_idx();
        let ghost bf0 = self.files_idx();
        let ghost g1 = self.graph();
        let key = file.to_owned();
        let found = Self::idx_find(&self.by_file, &key);
        match found {
            Some(i) => {
                let e = self.by_file.remove(i);
                let ghost sn = strviews(e.items@);
                let ghost bfr = ie_views(self.by_file@);
                proof {
                    assert(bfr =~= bf0.remove(i as int));
                    assert(forall|u: int| 0 <= u < i ==> bfr[u] == bf0[u]);
                    assert(forall|u: int| i <= u < bfr.len() ==> bfr[u] == bf0[u + 1]);
                    assert(sn == bf0[i as int].1);
                    assert(outer_unique(bfr)) by {
                        assert forall|a: int, b: int|
                            0 <= a < b < bfr.len() implies (#[trigger] bfr[a]).0
                            != (#[trigger] bfr[b]).0 by {
                            let a0: int = if a < i { a } else { a + 1 };
                            let b0: int = if b < i { b } else { b + 1 };
                            assert(bf0[a0].0 != bf0[b0].0);
                        }
                    }
                    assert(items_unique(bfr)) by {
                        assert forall|w: int, a: int, b: int|
                            0 <= w < bfr.len() && 0 <= a < b < bfr[w].1.len() implies
                            #[trigger] bfr[w].1[a] != #[trigger] bfr[w].1[b] by {
                            let w0: int = if w < i { w } else { w + 1 };
                            assert(bf0[w0].1[a] != bf0[w0].1[b]);
                        }
                    }
                    assert(sn.take(0) =~= Seq::<Seq<char>>::empty());
                }
                let mut j: usize = 0;
                while j < e.items.len()
                    invariant
                        j <= e.items@.len(),
                        key@ == file@,
                        sn == strviews(e.items@),
                        prim_unique(self.prim()),
                        outer_unique(self.names_idx()),
                        items_unique(self.names_idx()),
                        ie_views(self.by_file@) == bfr,
                        self.graph() == g1,
                        forall|k: SymKeyV|
                            #[trigger] prim_has(self.prim(), k) <==> (prim_has(p0, k) && !(
                            k.0 == file@ && sn.take(j as int).contains(k.1))),
                        forall|k: SymKeyV|
                            prim_has(self.prim(), k) ==> #[trigger] prim_get(self.prim(), k)
                                == prim_get(p0, k),
                        forall|o: Seq<char>, it: Seq<char>|
                            #[trigger] idx_has(self.names_idx(), o, it) <==> (idx_has(
                                bn0,
                                o,
                                it,
                            ) && !(it == file@ && sn.take(j as int).contains(o))),
                    decreases e.items@.len() - j,
                {
                    let ghost pj = self.prim();
                    let ghost bnj = self.names_idx();
                    let name = &e.items[j];
                    proof {
                        assert(name@ == sn[j as int]);
                        assert forall|x: Seq<char>|
                            #[trigger] sn.take(j + 1).contains(x) <==> (sn.take(
                                j as int,
                            ).contains(x) || x == sn[j as int]) by {
                            if sn.take(j + 1).contains(x) {
                                let a = choose|a: int|
                                    0 <= a < sn.take(j + 1).len() && #[trigger] sn.take(
                                        j + 1,
                                    )[a] == x;
                                if a < j {
                                    assert(sn.take(j as int)[a] == x);
                                }
                            }
                            if sn.take(j as int).contains(x) {
                                let a = choose|a: int|
                                    0 <= a < sn.take(j as int).len() && #[trigger] sn.take(
                                        j as int,
                                    )[a] == x;
                                assert(sn.take(j + 1)[a] == x);
                            }
                            if x == sn[j as int] {
                                assert(sn.take(j + 1)[j as int] == x);
                            }
                        }
                    }
                    Self::prim_remove(&mut self.symbols, &key, name);
                    Self::idx_remove_item(&mut self.by_name, name, &key);
                    proof {
                        assert forall|k: SymKeyV|
                            #[trigger] prim_has(self.prim(), k) <==> (prim_has(p0, k) && !(
                            k.0 == file@ && sn.take(j + 1).contains(k.1))) by {
                            assert(prim_has(self.prim(), k) <==> (prim_has(pj, k) && k != (
                            key@, name@)));
                        }
                        assert forall|o: Seq<char>, it: Seq<char>|
                            #[trigger] idx_has(self.names_idx(), o, it) <==> (idx_has(
                                bn0,
                                o,
                                it,
                            ) && !(it == file@ && sn.take(j + 1).contains(o))) by {
                            assert(idx_has(self.names_idx(), o, it) <==> (idx_has(
                                bnj,
                                o,
                                it,
                            ) && !(o == name@ && it == key@)));
                        }
                    }
                    j = j + 1;
                }
                proof {
                    let p1 = self.prim();
                    let bn1 = self.names_idx();
                    assert(sn.take(sn.len() as int) =~= sn);
                    assert forall|k: SymKeyV|
                        prim_has(p0, k) && k.0 == file@ implies sn.contains(k.1) by {
                        let u = prim_idx(p0, k);
                        assert(skey(p0[u]) == k);
                        assert(idx_has(bf0, p0[u].file, p0[u].name));
                        let w = choose|w: int|
                            0 <= w < bf0.len() && (#[trigger] bf0[w]).0 == file@
                                && bf0[w].1.contains(k.1);
                        assert(w == i) by {
                            if w != i {
                                assert(bf0[w].0 != bf0[i as int].0);
                            }
                        }
                    }
                    assert forall|k: SymKeyV|
                        #[trigger] prim_has(p1, k) <==> (prim_has(p0, k) && k.0 != file@) by {
                        if prim_has(p0, k) && k.0 == file@ {
                            assert(sn.contains(k.1));
                        }
                    }
                    assert forall|o: Seq<char>, it: Seq<char>|
                        #[trigger] idx_has(bn1, o, it) implies it != file@ by {
                        if it == file@ {
                            assert(idx_has(bn0, o, it));
                            let w = choose|w: int|
                                0 <= w < bn0.len() && (#[trigger] bn0[w]).0 == o
                                    && bn0[w].1.contains(it);
                            let a = choose|a: int|
                                0 <= a < bn0[w].1.len() && bn0[w].1[a] == it;
                            assert(prim_has(p0, (bn0[w].1[a], bn0[w].0)));
                            assert(prim_has(p0, (file@, o)));
                            assert(sn.contains(o));
                        }
                    }
                    assert forall|t: int|
                        0 <= t < bfr.len() implies (#[trigger] bfr[t]).0 != file@ by {
                        let t0: int = if t < i { t } else { t + 1 };
                        assert(bfr[t] == bf0[t0]);
                        if bfr[t].0 == file@ {
                            assert(bf0[t0].0 == bf0[i as int].0);
                            assert(t0 != i);
                        }
                    }
                    // restore wf
                    assert forall|i2: int, j2: int|
                        0 <= i2 < bn1.len() && 0 <= j2 < bn1[i2].1.len() implies prim_has(
                        p1,
                        ((#[trigger] bn1[i2].1[j2]), bn1[i2].0),
                    ) by {
                        let o = bn1[i2].0;
                        let it = bn1[i2].1[j2];
                        assert(idx_has(bn1, o, it)) by {
                            assert(bn1[i2].1.contains(it));
                        }
                        assert(idx_has(bn0, o, it) && !(it == file@ && sn.contains(o)));
                        let w = choose|w: int|
                            0 <= w < bn0.len() && (#[trigger] bn0[w]).0 == o
                                && bn0[w].1.contains(it);
                        let a = choose|a: int|
                            0 <= a < bn0[w].1.len() && bn0[w].1[a] == it;
                        assert(prim_has(p0, (bn0[w].1[a], bn0[w].0)));
                        assert(it != file@);
                        assert(prim_has(p1, (it, o)));
                    }
                    assert forall|i2: int, j2: int|
                        0 <= i2 < bfr.len() && 0 <= j2 < bfr[i2].1.len() implies prim_has(
                        p1,
                        (bfr[i2].0, (#[trigger] bfr[i2].1[j2])),
                    ) by {
                        let t0: int = if i2 < i { i2 } else { i2 + 1 };
                        assert(bfr[i2] == bf0[t0]);
                        assert(prim_has(p0, (bf0[t0].0, bf0[t0].1[j2])));
                        assert(bfr[i2].0 != file@);
                    }
                    assert forall|t: int|
                        0 <= t < p1.len() implies idx_has(
                        bn1,
                        (#[trigger] p1[t]).name,
                        p1[t].file,
                    ) by {
                        lemma_prim_get_at(p1, t);
                        let k = skey(p1[t]);
                        assert(prim_has(p1, k));
                        assert(prim_has(p0, k) && k.0 != file@);
                        let u = prim_idx(p0, k);
                        assert(skey(p0[u]) == k);
                        assert(idx_has(bn0, p0[u].name, p0[u].file));
                        assert(!(p0[u].file == file@ && sn.contains(p0[u].name)));
                        assert(idx_has(bn1, p1[t].name, p1[t].file));
                    }
                    assert forall|t: int|
                        0 <= t < p1.len() implies idx_has(
                        bfr,
                        (#[trigger] p1[t]).file,
                        p1[t].name,
                    ) by {
                        lemma_prim_get_at(p1, t);
                        let k = skey(p1[t]);
                        assert(prim_has(p1, k));
                        assert(prim_has(p0, k) && k.0 != file@);
                        let u = prim_idx(p0, k);
                        assert(skey(p0[u]) == k);
                        assert(idx_has(bf0, p0[u].file, p0[u].name));
                        let w = choose|w: int|
                            0 <= w < bf0.len() && (#[trigger] bf0[w]).0 == p0[u].file
                                && bf0[w].1.contains(p0[u].name);
                        assert(w != i) by {
                            if w == i {
                                assert(bf0[i as int].0 == file@);
                            }
                        }
                        let w1: int = if w < i { w } else { w - 1 };
                        assert(bfr[w1] == bf0[w]);
                        assert(bfr[w1].0 == p1[t].file && bfr[w1].1.contains(p1[t].name));
                    }
                }
            },
            None => {
                proof {
                    let p1 = self.prim();
                    assert forall|k: SymKeyV|
                        #[trigger] prim_has(p1, k) <==> (prim_has(p0, k) && k.0 != file@) by {
                        if prim_has(p0, k) && k.0 == file@ {
                            let u = prim_idx(p0, k);
                            assert(skey(p0[u]) == k);
                            assert(idx_has(bf0, p0[u].file, p0[u].name));
                            let w = choose|w: int|
                                0 <= w < bf0.len() && (#[trigger] bf0[w]).0 == file@
                                    && bf0[w].1.contains(k.1);
                            assert(bf0[w].0 != key@);
                        }
                    }
                    assert forall|o: Seq<char>, it: Seq<char>|
                        #[trigger] idx_has(self.names_idx(), o, it) implies it != file@ by {
                        if it == file@ {
                            let w = choose|w: int|
                                0 <= w < bn0.len() && (#[trigger] bn0[w]).0 == o
                                    && bn0[w].1.contains(it);
                            let a = choose|a: int|
                                0 <= a < bn0[w].1.len() && bn0[w].1[a] == it;
                            assert(prim_has(p0, (bn0[w].1[a], bn0[w].0)));
                            assert(prim_has(p0, (file@, o)));
                        }
                    }
                    assert forall|t: int|
                        0 <= t < self.files_idx().len() implies (#[trigger] self.files_idx()[
                        t]).0 != file@ by {
                        assert(self.files_idx()[t].0 != key@);
                    }
                }
            },
        }
    }

    /// Attach a definition to a symbol that has none yet.
    pub fn define_symbol(&mut self, file: &str, name: &str, definition: &str) -> (r: Result<
        (),
        (),
    >)
        requires
            old(self).wf(),
        ensures
            final(self).wf(),
            r is Ok <==> (prim_has(old(self).prim(), (file@, name@)) && prim_get(
                old(self).prim(),
                (file@, name@),
            ).definition is None),
            r is Err ==> *final(self) == *old(self),
            r is Ok ==> prim_get(final(self).prim(), (file@, name@)) == (SymbolV {
                definition: Some(definition@),
                ..prim_get(old(self).prim(), (file@, name@))
            }),
            forall|k: SymKeyV|
                #[trigger] prim_has(final(self).prim(), k) <==> prim_has(
                    old(self).prim(),
                    k,
                ),
            forall|k: SymKeyV|
                k != (file@, name@) && prim_has(old(self).prim(), k) ==> #[trigger] prim_get(
                    final(self).prim(),
                    k,
                ) == prim_get(old(self).prim(), k),
    {
        let file_s = file.to_owned();
        let name_s = name.to_owned();
        match self.get(&file_s, &name_s) {
            Some(sym) => {
                if sym.definition.is_some() {
                    return Err(());
                }
                let mut sym = sym;
                sym.definition = Some(definition.to_owned());
                self.insert(sym);
                Ok(())
            },
            None => Err(()),
        }
    }

    /// Overwrite a symbol's definition unconditionally.
    pub fn redefine_symbol(&mut self, file: &str, name: &str, definition: &str) -> (r: Result<
        (),
        (),
    >)
        requires
            old(self).wf(),
        ensures
            final(self).wf(),
            r is Ok <==> prim_has(old(self).prim(), (file@, name@)),
            r is Err ==> *final(self) == *old(self),
            r is Ok ==> prim_get(final(self).prim(), (file@, name@)) == (SymbolV {
                definition: Some(definition@),
                ..prim_get(old(self).prim(), (file@, name@))
            }),
            forall|k: SymKeyV|
                #[trigger] prim_has(final(self).prim(), k) <==> prim_has(
                    old(self).prim(),
                    k,
                ),
            forall|k: SymKeyV|
                k != (file@, name@) && prim_has(old(self).prim(), k) ==> #[trigger] prim_get(
                    final(self).prim(),
                    k,
                ) == prim_get(old(self).prim(), k),
    {
        let file_s = file.to_owned();
        let name_s = name.to_owned();
        match self.get(&file_s, &name_s) {
            Some(sym) => {
                let mut sym = sym;
                sym.definition = Some(definition.to_owned());
                self.insert(sym);
                Ok(())
            },
            None => Err(()),
        }
    }

    /// The first `limit` symbols passing the optional kind and file
    /// filters, in store order.
    pub fn list_symbols(
        &self,
        kind: Option<crate::symbol::SymbolKind>,
        file: Option<&String>,
        limit: usize,
    ) -> (r: Vec<Symbol>)
        ensures
            sviews(r@) == listing_spec(
                self.prim(),
                kind,
                match file {
                    Some(f) => Some(f@),
                    None => None,
                },
                limit as nat,
            ),
            r@.len() <= limit,
    {
        let ghost p = self.prim();
        let ghost fv: Option<Seq<char>> = match file {
            Some(f) => Some(f@),
            None => None,
        };
        let mut out: Vec<Symbol> = Vec::new();
        let mut i: usize = 0;
        proof {
            assert(p.skip(0) =~= p);
            assert(sviews(out@) =~= Seq::<SymbolV>::empty());
            assert(Seq::<SymbolV>::empty() + listing_spec(p, kind, fv, limit as nat)
                =~= listing_spec(p, kind, fv, limit as nat));
        }
        while i < self.symbols.len() && out.len() < limit
            invariant
                i <= self.symbols@.len(),
                p == self.prim(),
                out@.len() <= limit,
                fv == (match file {
                    Some(f) => Some(f@),
                    None => None,
                }),
                listing_spec(p, kind, fv, limit as nat) == sviews(out@) + listing_spec(
                    p.skip(i as int),
                    kind,
                    fv,
                    (limit - out@.len()) as nat,
                ),
            decreases self.symbols@.len() - i,
        {
            let ghost s = p.skip(i as int);
            let ghost lim = (limit - out@.len()) as nat;
            proof {
                assert(s.len() > 0);
                assert(s[0] == p[i as int]);
                assert(s.drop_first() =~= p.skip(i + 1));
            }
            let kind_ok = match kind {
                Some(k) => self.symbols[i].kind == k,
                None => true,
            };
            let file_ok = match file {
                Some(f) => crate::symbol::str_eq(self.symbols[i].file.as_str(), f.as_str()),
                None => true,
            };
            proof {
                assert((kind_ok && file_ok) == listing_matches(p[i as int], kind, fv));
            }
            if kind_ok && file_ok {
                let ghost o0 = out@;
                out.push(self.symbols[i].clone());
                proof {
                    assert(sviews(out@) =~= sviews(o0).push(s[0]));
                    assert(listing_spec(s, kind, fv, lim) == seq![s[0]] + listing_spec(
                        s.drop_first(),
                        kind,
                        fv,
                        (lim - 1) as nat,
                    ));
                    assert(sviews(o0) + listing_spec(s, kind, fv, lim) =~= sviews(out@)
                        + listing_spec(p.skip(i + 1), kind, fv, (limit - out@.len()) as nat));
                }
            } else {
                proof {
                    assert(listing_spec(s, kind, fv, lim) == listing_spec(
                        s.drop_first(),
                        kind,
                        fv,
                        lim,
                    ));
                }
            }
            i = i + 1;
        }
        proof {
            if out@.len() < limit {
                assert(p.skip(i as int).len() == 0);
            }
            assert(listing_spec(p.skip(i as int), kind, fv, (limit - out@.len()) as nat)
                =~= Seq::<SymbolV>::empty());
            assert(sviews(out@) + Seq::<SymbolV>::empty() =~= sviews(out@));
        }
        out
    }
}

} // verus!
