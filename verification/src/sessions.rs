//! Sessions: per-client identity, request history and scratch state, and
//! the registry that holds all live sessions.

use vstd::multiset::Multiset;
use vstd::prelude::*;
use vstd::utf8::{decode_utf8, encode_utf8};
use crate::history::{compact_groups, compact_history, hviews, recent_history, CompactResult, HistoryEntry};
use crate::repl::ReplState;
use crate::text;

verus! {

use vstd::string::StringExecFns;
use vstd::string::StringSliceAdditionalSpecFns;

broadcast use vstd::utf8::group_utf8_lib;

/// A response preview: the text itself when its encoding is at most 200
/// bytes, else its first 200 bytes clamped back to a character boundary.
pub open spec fn preview_chars(s: Seq<char>) -> Seq<char> {
    let b = encode_utf8(s);
    if b.len() <= 200 {
        s
    } else {
        decode_utf8(b.take(text::floor_spec(b, 200)))
    }
}

/// Truncate a response preview to at most 200 bytes without splitting a
/// character.
pub fn truncate_preview(s: &str) -> (r: String)
    ensures
        r@ == preview_chars(s@),
{
    let b = s.as_bytes();
    let ghost bs = s.spec_bytes();
    if b.len() <= 200 {
        return s.to_owned();
    }
    let t = text::floor_cut(b, 200);
    proof {
        vstd::utf8::is_char_boundary_iff_not_is_continuation_byte(bs, t as int);
    }
    let (head, _) = s.split_at(t);
    proof {
        assert(head.spec_bytes() =~= bs.take(t as int));
        assert(decode_utf8(encode_utf8(head@)) == head@);
    }
    head.to_owned()
}

/// One client session: identity, the project it is bound to, its request
/// history, and its scratch state.
pub struct Session {
    pub id: String,
    pub project_path: String,
    pub created_at: i64,
    pub last_active: i64,
    pub history: Vec<HistoryEntry>,
    pub repl: ReplState,
}

impl Session {
    pub fn new(id: String, project_path: String, now: i64) -> (r: Session)
        ensures
            r.id@ == id@,
            r.project_path@ == project_path@,
            r.created_at == now,
            r.last_active == now,
            r.history@.len() == 0,
            r.repl.wf(),
            r.repl.bufs().len() == 0,
            r.repl.vars().len() == 0,
            r.repl.subcall_results@.len() == 0,
    {
        Session {
            id,
            project_path,
            created_at: now,
            last_active: now,
            history: Vec::new(),
            repl: ReplState::new(),
        }
    }

    /// Append one history entry and refresh the activity stamp. The
    /// history only ever grows here: its length goes up by exactly one.
    pub fn record(&mut self, method: &str, path: &str, response_preview: &str, now: i64)
        ensures
            final(self).id == old(self).id,
            final(self).project_path == old(self).project_path,
            final(self).created_at == old(self).created_at,
            final(self).last_active == now,
            final(self).repl == old(self).repl,
            final(self).history@.len() == old(self).history@.len() + 1,
            hviews(final(self).history@) == hviews(old(self).history@).push(
                crate::history::HistoryEntryV {
                    timestamp: now as int,
                    method: method@,
                    path: path@,
                    response_preview: preview_chars(response_preview@),
                },
            ),
    {
        self.last_active = now;
        let entry = HistoryEntry {
            timestamp: now,
            method: method.to_owned(),
            path: path.to_owned(),
            response_preview: truncate_preview(response_preview),
        };
        let ghost h0 = self.history@;
        self.history.push(entry);
        proof {
            assert(hviews(self.history@) =~= hviews(h0).push(self.history@.last()@));
        }
    }
}

/// Whether the registry holds a session with this id.
pub open spec fn sess_has(ss: Seq<Session>, id: Seq<char>) -> bool {
    exists|i: int| 0 <= i < ss.len() && (#[trigger] ss[i]).id@ == id
}

pub open spec fn sess_idx(ss: Seq<Session>, id: Seq<char>) -> int {
    choose|i: int| 0 <= i < ss.len() && (#[trigger] ss[i]).id@ == id
}

/// Under unique ids, any position holding id `id` is the one `sess_idx`
/// picks.
pub proof fn lemma_sess_at(ss: Seq<Session>, i: int)
    requires
        sess_unique(ss),
        0 <= i < ss.len(),
    ensures
        sess_has(ss, ss[i].id@),
        sess_idx(ss, ss[i].id@) == i,
{
    assert(sess_has(ss, ss[i].id@));
    let j = sess_idx(ss, ss[i].id@);
    if i != j {
        assert(ss[i].id@ != ss[j].id@);
    }
}

pub open spec fn sess_unique(ss: Seq<Session>) -> bool {
    forall|i: int, j: int|
        0 <= i < j < ss.len() ==> (#[trigger] ss[i]).id@ != (#[trigger] ss[j]).id@
}

/// The registry of live sessions, keyed by session id.
pub struct SessionRegistry {
    pub sessions: Vec<Session>,
}

/// Listing record for one session.
pub struct SessionMeta {
    pub session_id: String,
    pub project: String,
    pub created_at: i64,
    pub last_active: i64,
    pub history_count: usize,
}

impl SessionRegistry {
    pub open spec fn wf(self) -> bool {
        sess_unique(self.sessions@)
    }

    pub fn new() -> (r: SessionRegistry)
        ensures
            r.wf(),
            r.sessions@.len() == 0,
    {
        SessionRegistry { sessions: Vec::new() }
    }

    /// Index of the session with this id.
    pub fn find(&self, id: &str) -> (r: Option<usize>)
        ensures
            match r {
                Some(i) => i < self.sessions@.len() && self.sessions@[i as int].id@ == id@,
                None => !sess_has(self.sessions@, id@),
            },
    {
        let mut i: usize = 0;
        while i < self.sessions.len()
            invariant
                i <= self.sessions@.len(),
                forall|t: int| 0 <= t < i ==> (#[trigger] self.sessions@[t]).id@ != id@,
            decreases self.sessions@.len() - i,
        {
            if crate::symbol::str_eq(self.sessions[i].id.as_str(), id) {
                return Some(i);
            }
            i = i + 1;
        }
        proof {
            if sess_has(self.sessions@, id@) {
                let t = sess_idx(self.sessions@, id@);
                assert(self.sessions@[t].id@ != id@);
            }
        }
        None
    }

    /// Store a session; an existing session with the same id is replaced
    /// in place, a new one is appended, and nothing else moves.
    pub fn add(&mut self, session: Session)
        requires
            old(self).wf(),
        ensures
            final(self).wf(),
            sess_has(final(self).sessions@, session.id@),
            forall|n: Seq<char>|
                n != session.id@ ==> (#[trigger] sess_has(final(self).sessions@, n)
                    <==> sess_has(old(self).sessions@, n)),
            sess_has(old(self).sessions@, session.id@) ==> final(self).sessions@ == old(
                self,
            ).sessions@.update(sess_idx(old(self).sessions@, session.id@), session),
            !sess_has(old(self).sessions@, session.id@) ==> final(self).sessions@ == old(
                self,
            ).sessions@.push(session),
    {
        let ghost s0 = self.sessions@;
        let ghost sv = session;
        let found = self.find(session.id.as_str());
        match found {
            Some(i) => {
                self.sessions.remove(i);
                self.sessions.insert(i, session);
                proof {
                    let s1 = self.sessions@;
                    assert(s1.len() == s0.len());
                    assert(forall|t: int| 0 <= t < s0.len() && t != i ==> s1[t] == s0[t]);
                    assert(s1[i as int] == sv);
                    lemma_sess_at(s0, i as int);
                    assert(sess_idx(s0, sv.id@) == i);
                    assert(s1 =~= s0.update(i as int, sv));
                    assert(s1[i as int].id@ == s0[i as int].id@);
                    assert(sess_unique(s1)) by {
                        assert forall|a: int, b: int|
                            0 <= a < b < s1.len() implies (#[trigger] s1[a]).id@
                            != (#[trigger] s1[b]).id@ by {
                            assert(s0[a].id@ != s0[b].id@);
                        }
                    }
                    assert(sess_has(s1, session.id@)) by {
                        assert(s1[i as int].id@ == session.id@);
                    }
                    assert forall|n: Seq<char>|
                        n != session.id@ implies (#[trigger] sess_has(s1, n) <==> sess_has(
                        s0,
                        n,
                    )) by {
                        if sess_has(s1, n) {
                            let t = sess_idx(s1, n);
                            assert(s0[t].id@ == n);
                        }
                        if sess_has(s0, n) {
                            let t = sess_idx(s0, n);
                            assert(s1[t].id@ == n);
                        }
                    }
                }
            },
            None => {
                self.sessions.push(session);
                proof {
                    let s1 = self.sessions@;
                    assert(s1 =~= s0.push(sv));
                    assert(s1 =~= s0.push(s1[s0.len() as int]));
                    assert(sess_unique(s1)) by {
                        assert forall|a: int, b: int|
                            0 <= a < b < s1.len() implies (#[trigger] s1[a]).id@
                            != (#[trigger] s1[b]).id@ by {
                            if b == s0.len() {
                                assert(sess_has(s0, s0[a].id@));
                            } else {
                                assert(s0[a].id@ != s0[b].id@);
                            }
                        }
                    }
                    assert(sess_has(s1, session.id@)) by {
                        assert(s1[s0.len() as int].id@ == session.id@);
                    }
                    assert forall|n: Seq<char>|
                        n != session.id@ implies (#[trigger] sess_has(s1, n) <==> sess_has(
                        s0,
                        n,
                    )) by {
                        if sess_has(s1, n) {
                            let t = sess_idx(s1, n);
                            assert(t < s0.len());
                            assert(s0[t].id@ == n);
                        }
                        if sess_has(s0, n) {
                            let t = sess_idx(s0, n);
                            assert(s1[t].id@ == n);
                        }
                    }
                }
            },
        }
    }

    /// Delete a session; reports whether it existed.
    pub fn remove(&mut self, id: &str) -> (r: bool)
        requires
            old(self).wf(),
        ensures
            final(self).wf(),
            r == sess_has(old(self).sessions@, id@),
            !sess_has(final(self).sessions@, id@),
            forall|n: Seq<char>|
                n != id@ ==> (#[trigger] sess_has(final(self).sessions@, n) <==> sess_has(
                    old(self).sessions@,
                    n,
                )),
            r ==> final(self).sessions@ == old(self).sessions@.remove(
                sess_idx(old(self).sessions@, id@),
            ),
            !r ==> final(self).sessions@ == old(self).sessions@,
    {
        let ghost s0 = self.sessions@;
        match self.find(id) {
            Some(i) => {
                self.sessions.remove(i);
                proof {
                    lemma_sess_at(s0, i as int);
                    assert(sess_idx(s0, id@) == i);
                    let s1 = self.sessions@;
                    assert(s1 =~= s0.remove(i as int));
                    assert(forall|t: int| 0 <= t < i ==> s1[t] == s0[t]);
                    assert(forall|t: int| i <= t < s1.len() ==> s1[t] == s0[t + 1]);
                    assert(sess_unique(s1)) by {
                        assert forall|a: int, b: int|
                            0 <= a < b < s1.len() implies (#[trigger] s1[a]).id@
                            != (#[trigger] s1[b]).id@ by {
                            let a0: int = if a < i { a } else { a + 1 };
                            let b2: int = if b < i { b } else { b + 1 };
                            assert(s0[a0].id@ != s0[b2].id@);
                        }
                    }
                    assert(!sess_has(s1, id@)) by {
                        if sess_has(s1, id@) {
                            let t = sess_idx(s1, id@);
                            let t0: int = if t < i { t } else { t + 1 };
                            assert(s0[t0].id@ == id@);
                            assert(t0 != i);
                            assert(s0[t0].id@ != s0[i as int].id@);
                        }
                    }
                    assert forall|n: Seq<char>|
                        n != id@ implies (#[trigger] sess_has(s1, n) <==> sess_has(
                        s0,
                        n,
                    )) by {
                        if sess_has(s1, n) {
                            let t = sess_idx(s1, n);
                            let t0: int = if t < i { t } else { t + 1 };
                            assert(s0[t0].id@ == n);
                        }
                        if sess_has(s0, n) {
                            let t = sess_idx(s0, n);
                            assert(t != i);
                            let t1: int = if t < i { t } else { t - 1 };
                            assert(s1[t1].id@ == n);
                        }
                    }
                }
                true
            },
            None => false,
        }
    }

    /// Refresh a session's activity stamp.
    pub fn touch(&mut self, id: &str, now: i64) -> (r: bool)
        requires
            old(self).wf(),
        ensures
            final(self).wf(),
            r == sess_has(old(self).sessions@, id@),
            final(self).sessions@.len() == old(self).sessions@.len(),
            r ==> exists|i: int|
                0 <= i < old(self).sessions@.len() && (#[trigger] old(self).sessions@[
                i]).id@ == id@ && final(self).sessions@[i].last_active == now && (forall|
                    t: int,
                |
                    0 <= t < old(self).sessions@.len() && t != i
                        ==> #[trigger] final(self).sessions@[t] == old(self).sessions@[t]),
            !r ==> final(self).sessions@ == old(self).sessions@,
    {
        let found = self.find(id);
        match found {
            Some(i) => {
                let ghost s0 = self.sessions@;
                let mut s = self.sessions.remove(i);
                s.last_active = now;
                self.sessions.insert(i, s);
                proof {
                    let s1 = self.sessions@;
                    assert(forall|t: int| 0 <= t < s0.len() && t != i ==> s1[t] == s0[t]);
                    assert(s1[i as int].id@ == s0[i as int].id@);
                    assert(s1[i as int].last_active == now);
                    assert(sess_unique(s1)) by {
                        assert forall|a: int, b: int|
                            0 <= a < b < s1.len() implies (#[trigger] s1[a]).id@
                            != (#[trigger] s1[b]).id@ by {
                            assert(s0[a].id@ != s0[b].id@);
                        }
                    }
                }
                true
            },
            None => false,
        }
    }

    /// Append a history entry to a session, stamping it with `now`.
    pub fn record_for(&mut self, id: &str, method: &str, path: &str, preview: &str, now: i64) -> (r:
        bool)
        requires
            old(self).wf(),
        ensures
            final(self).wf(),
            r == sess_has(old(self).sessions@, id@),
            final(self).sessions@.len() == old(self).sessions@.len(),
            r ==> exists|i: int|
                0 <= i < old(self).sessions@.len() && (#[trigger] old(self).sessions@[
                i]).id@ == id@ && final(self).sessions@[i].last_active == now && hviews(
                    final(self).sessions@[i].history@,
                ) == hviews(old(self).sessions@[i].history@).push(
                    crate::history::HistoryEntryV {
                        timestamp: now as int,
                        method: method@,
                        path: path@,
                        response_preview: preview_chars(preview@),
                    },
                ) && (forall|t: int|
                    0 <= t < old(self).sessions@.len() && t != i
                        ==> #[trigger] final(self).sessions@[t] == old(self).sessions@[t]),
            !r ==> final(self).sessions@ == old(self).sessions@,
    {
        let found = self.find(id);
        match found {
            Some(i) => {
                let ghost s0 = self.sessions@;
                let mut s = self.sessions.remove(i);
                s.record(method, path, preview, now);
                self.sessions.insert(i, s);
                proof {
                    let s1 = self.sessions@;
                    assert(forall|t: int| 0 <= t < s0.len() && t != i ==> s1[t] == s0[t]);
                    assert(s1[i as int].id@ == s0[i as int].id@);
                    assert(sess_unique(s1)) by {
                        assert forall|a: int, b: int|
                            0 <= a < b < s1.len() implies (#[trigger] s1[a]).id@
                            != (#[trigger] s1[b]).id@ by {
                            assert(s0[a].id@ != s0[b].id@);
                        }
                    }
                }
                true
            },
            None => false,
        }
    }

    /// Compact a session's history, keeping the `keep_recent` newest
    /// entries verbatim: consecutive same-(method, path) runs in the rest
    /// collapse into summary entries, and the returned counts report the
    /// old and new lengths.
    pub fn compact_history(&mut self, id: &str, keep_recent: usize) -> (r: Result<
        CompactResult,
        (),
    >)
        requires
            old(self).wf(),
        ensures
            final(self).wf(),
            r is Ok <==> sess_has(old(self).sessions@, id@),
            final(self).sessions@.len() == old(self).sessions@.len(),
            r is Err ==> final(self).sessions@ == old(self).sessions@,
            r matches Ok(c) ==> exists|i: int|
                0 <= i < old(self).sessions@.len() && (#[trigger] old(self).sessions@[
                i]).id@ == id@ && {
                    let h0 = old(self).sessions@[i].history@;
                    let h1 = final(self).sessions@[i].history@;
                    &&& c.original_count == h0.len()
                    &&& c.compacted_count == h1.len()
                    &&& c.removed == c.original_count - c.compacted_count
                    &&& c.compacted_count <= c.original_count
                    &&& (h0.len() <= keep_recent ==> h1 == h0)
                    &&& (h0.len() > keep_recent ==> hviews(h1) == compact_groups(
                        hviews(h0).take(h0.len() - keep_recent),
                    ) + hviews(h0).skip(h0.len() - keep_recent))
                    &&& final(self).sessions@[i].id == old(self).sessions@[i].id
                    &&& final(self).sessions@[i].project_path == old(self).sessions@[
                    i].project_path
                    &&& final(self).sessions@[i].created_at == old(self).sessions@[
                    i].created_at
                    &&& final(self).sessions@[i].last_active == old(self).sessions@[
                    i].last_active
                    &&& final(self).sessions@[i].repl == old(self).sessions@[i].repl
                    &&& (forall|t: int|
                        0 <= t < old(self).sessions@.len() && t != i
                            ==> #[trigger] final(self).sessions@[t] == old(
                            self,
                        ).sessions@[t])
                },
    {
        let found = self.find(id);
        match found {
            Some(i) => {
                let ghost s0 = self.sessions@;
                let mut s = self.sessions.remove(i);
                let res = compact_history(&mut s.history, keep_recent);
                self.sessions.insert(i, s);
                proof {
                    let s1 = self.sessions@;
                    assert(forall|t: int| 0 <= t < s0.len() && t != i ==> s1[t] == s0[t]);
                    assert(s1[i as int].id@ == s0[i as int].id@);
                    assert(sess_unique(s1)) by {
                        assert forall|a: int, b: int|
                            0 <= a < b < s1.len() implies (#[trigger] s1[a]).id@
                            != (#[trigger] s1[b]).id@ by {
                            assert(s0[a].id@ != s0[b].id@);
                        }
                    }
                    assert(sess_has(s1, id@)) by {
                        assert(s1[i as int].id@ == id@);
                    }
                }
                Ok(res)
            },
            None => Err(()),
        }
    }

    /// The most recent `limit` history entries of one session, oldest
    /// first.
    pub fn get_history(&self, id: &str, limit: usize) -> (r: Result<Vec<HistoryEntry>, ()>)
        requires
            self.wf(),
        ensures
            r is Ok <==> sess_has(self.sessions@, id@),
            r matches Ok(v) ==> {
                let h = self.sessions@[sess_idx(self.sessions@, id@)].history@;
                hviews(v@) == hviews(h).skip(
                    if h.len() <= limit {
                        0
                    } else {
                        h.len() - limit
                    },
                )
            },
    {
        match self.find(id) {
            Some(i) => {
                proof {
                    lemma_sess_at(self.sessions@, i as int);
                }
                Ok(recent_history(&self.sessions[i].history, limit))
            },
            None => Err(()),
        }
    }

    /// Listing records for all sessions, most recently active first:
    /// one record per session, each carrying that session's data.
    pub fn list_metas(&self) -> (r: Vec<SessionMeta>)
        requires
            self.wf(),
        ensures
            r@.len() == self.sessions@.len(),
            forall|a: int, b: int|
                0 <= a < b < r@.len() ==> (#[trigger] r@[a]).last_active
                    >= (#[trigger] r@[b]).last_active,
            forall|t: int|
                0 <= t < r@.len() ==> sess_has(
                    self.sessions@,
                    (#[trigger] r@[t]).session_id@,
                ),
            forall|t: int, i: int|
                0 <= t < r@.len() && 0 <= i < self.sessions@.len() && (#[trigger] r@[
                t]).session_id@ == (#[trigger] self.sessions@[i]).id@ ==> meta_matches(
                    r@[t],
                    self.sessions@[i],
                ),
            forall|a: int, b: int|
                0 <= a < b < r@.len() ==> (#[trigger] r@[a]).session_id@
                    != (#[trigger] r@[b]).session_id@,
    {
        let ghost ss = self.sessions@;
        let mut metas: Vec<SessionMeta> = Vec::new();
        let mut i: usize = 0;
        while i < self.sessions.len()
            invariant
                i <= self.sessions@.len(),
                ss == self.sessions@,
                metas@.len() == i,
                forall|t: int|
                    0 <= t < i ==> meta_matches(#[trigger] metas@[t], ss[t])
                        && metas@[t].session_id@ == ss[t].id@,
            decreases self.sessions@.len() - i,
        {
            let s = &self.sessions[i];
            let ghost m0 = metas@;
            metas.push(
                SessionMeta {
                    session_id: s.id.clone(),
                    project: s.project_path.clone(),
                    created_at: s.created_at,
                    last_active: s.last_active,
                    history_count: s.history.len(),
                },
            );
            proof {
                assert(forall|t: int| 0 <= t < m0.len() ==> metas@[t] == m0[t]);
            }
            i = i + 1;
        }
        let mut out: Vec<SessionMeta> = Vec::new();
        let mut work = metas;
        let ghost base = work@;
        proof {
            broadcast use vstd::seq_lib::group_seq_lib_default;

            assert forall|a: int, b: int|
                0 <= a < b < work@.len() implies (#[trigger] work@[a]).session_id@
                != (#[trigger] work@[b]).session_id@ by {
                assert(ss[a].id@ != ss[b].id@);
            }
            Seq::to_multiset_ensures(out@);
            assert(out@.to_multiset() =~= Multiset::<SessionMeta>::empty());
            assert(out@.to_multiset().add(work@.to_multiset()) =~= base.to_multiset());
        }
        while work.len() > 0
            invariant
                ss == self.sessions@,
                base.len() == ss.len(),
                out@.len() + work@.len() == ss.len(),
                out@.to_multiset().add(work@.to_multiset()) == base.to_multiset(),
                forall|t: int|
                    0 <= t < base.len() ==> meta_matches(#[trigger] base[t], ss[t]),
                forall|a: int, b: int|
                    0 <= a < b < out@.len() ==> (#[trigger] out@[a]).last_active
                        >= (#[trigger] out@[b]).last_active,
                forall|a: int, b: int|
                    0 <= a < out@.len() && 0 <= b < work@.len() ==> (#[trigger] out@[
                    a]).last_active >= (#[trigger] work@[b]).last_active,
                forall|a: int, b: int|
                    0 <= a < b < out@.len() ==> (#[trigger] out@[a]).session_id@
                        != (#[trigger] out@[b]).session_id@,
                forall|a: int, b: int|
                    0 <= a < b < work@.len() ==> (#[trigger] work@[a]).session_id@
                        != (#[trigger] work@[b]).session_id@,
                forall|a: int, b: int|
                    0 <= a < out@.len() && 0 <= b < work@.len() ==> (#[trigger] out@[
                    a]).session_id@ != (#[trigger] work@[b]).session_id@,
            decreases work@.len(),
        {
            let mut m: usize = 0;
            let mut t: usize = 1;
            while t < work.len()
                invariant
                    m < t <= work@.len(),
                    forall|u: int|
                        0 <= u < t ==> (#[trigger] work@[u]).last_active <= work@[
                        m as int].last_active,
                decreases work@.len() - t,
            {
                if work[t].last_active > work[m].last_active {
                    m = t;
                }
                t = t + 1;
            }
            let ghost w0 = work@;
            let ghost o0 = out@;
            let x = work.remove(m);
            out.push(x);
            proof {
                Seq::to_multiset_ensures(w0);
                Seq::to_multiset_ensures(o0);
                assert(w0.remove(m as int).to_multiset() =~= w0.to_multiset().remove(
                    w0[m as int],
                ));
                assert(o0.push(w0[m as int]).to_multiset() =~= o0.to_multiset().insert(
                    w0[m as int],
                ));
                assert(out@.to_multiset().add(work@.to_multiset()) =~= base.to_multiset());
                assert(forall|u: int| 0 <= u < m ==> work@[u] == w0[u]);
                assert(forall|u: int| m <= u < work@.len() ==> work@[u] == w0[u + 1]);
                assert(forall|u: int| 0 <= u < o0.len() ==> out@[u] == o0[u]);
                assert(out@[o0.len() as int] == w0[m as int]);
                assert forall|a: int, b: int|
                    0 <= a < out@.len() && 0 <= b < work@.len() implies (#[trigger] out@[
                    a]).last_active >= (#[trigger] work@[b]).last_active by {
                    let b0: int = if b < m { b } else { b + 1 };
                    assert(work@[b] == w0[b0]);
                    if a == out@.len() - 1 {
                        assert(w0[b0].last_active <= w0[m as int].last_active);
                    }
                }
                assert forall|a: int, b: int|
                    0 <= a < out@.len() && 0 <= b < work@.len() implies (#[trigger] out@[
                    a]).session_id@ != (#[trigger] work@[b]).session_id@ by {
                    let b0: int = if b < m { b } else { b + 1 };
                    assert(work@[b] == w0[b0]);
                    if a == out@.len() - 1 {
                        assert(b0 != m);
                        if b0 < m {
                            assert(w0[b0].session_id@ != w0[m as int].session_id@);
                        } else {
                            assert(w0[m as int].session_id@ != w0[b0].session_id@);
                        }
                    }
                }
                assert forall|a: int, b: int|
                    0 <= a < b < work@.len() implies (#[trigger] work@[a]).session_id@
                    != (#[trigger] work@[b]).session_id@ by {
                    let a0: int = if a < m { a } else { a + 1 };
                    let b0: int = if b < m { b } else { b + 1 };
                    assert(w0[a0].session_id@ != w0[b0].session_id@);
                }
            }
        }
        proof {
            Seq::to_multiset_ensures(out@);
            Seq::to_multiset_ensures(base);
            Seq::to_multiset_ensures(work@);
            assert(work@ =~= Seq::<SessionMeta>::empty());
            assert(work@.to_multiset().len() == 0);
            assert(work@.to_multiset() =~= Multiset::<SessionMeta>::empty());
            assert(out@.to_multiset() =~= base.to_multiset());
            assert forall|t: int|
                0 <= t < out@.len() implies sess_has(
                self.sessions@,
                (#[trigger] out@[t]).session_id@,
            ) by {
                assert(out@.contains(out@[t]));
                assert(out@.to_multiset().count(out@[t]) > 0);
                assert(base.to_multiset().count(out@[t]) > 0);
                assert(base.contains(out@[t]));
                let u = choose|u: int| 0 <= u < base.len() && base[u] == out@[t];
                assert(meta_matches(out@[t], ss[u]));
                assert(self.sessions@[u].id@ == out@[t].session_id@);
            }
            assert forall|t: int, i: int|
                0 <= t < out@.len() && 0 <= i < self.sessions@.len() && (#[trigger] out@[
                t]).session_id@ == (#[trigger] self.sessions@[i]).id@ implies meta_matches(
                out@[t],
                self.sessions@[i],
            ) by {
                assert(out@.contains(out@[t]));
                assert(out@.to_multiset().count(out@[t]) > 0);
                assert(base.to_multiset().count(out@[t]) > 0);
                assert(base.contains(out@[t]));
                let u = choose|u: int| 0 <= u < base.len() && base[u] == out@[t];
                assert(meta_matches(out@[t], ss[u]));
                assert(ss[u].id@ == out@[t].session_id@);
                if u != i {
                    assert(ss[u].id@ != ss[i].id@);
                }
                assert(u == i);
            }
        }
        out
    }

    /// The recent history of every session, most recently active block
    /// first: one block per session with that session's newest `limit`
    /// entries in order; a block with a newer last entry comes before one
    /// with an older last entry, and blocks with entries come before
    /// empty ones.
    pub fn get_all_history(&self, limit: usize) -> (r: Vec<SessionHistoryBlock>)
        requires
            self.wf(),
        ensures
            r@.len() == self.sessions@.len(),
            forall|a: int, b: int|
                0 <= a < b < r@.len() ==> block_key(#[trigger] r@[a]) >= block_key(
                    #[trigger] r@[b],
                ),
            forall|t: int|
                0 <= t < r@.len() ==> sess_has(
                    self.sessions@,
                    (#[trigger] r@[t]).session_id@,
                ),
            forall|t: int, i: int|
                0 <= t < r@.len() && 0 <= i < self.sessions@.len() && (#[trigger] r@[
                t]).session_id@ == (#[trigger] self.sessions@[i]).id@ ==> block_matches(
                    r@[t],
                    self.sessions@[i],
                    limit as int,
                ),
            forall|a: int, b: int|
                0 <= a < b < r@.len() ==> (#[trigger] r@[a]).session_id@
                    != (#[trigger] r@[b]).session_id@,
    {
        let ghost ss = self.sessions@;
        let mut blocks: Vec<SessionHistoryBlock> = Vec::new();
        let mut i: usize = 0;
        while i < self.sessions.len()
            invariant
                i <= self.sessions@.len(),
                ss == self.sessions@,
                blocks@.len() == i,
                forall|t: int|
                    0 <= t < i ==> block_matches(#[trigger] blocks@[t], ss[t], limit as int)
                        && blocks@[t].session_id@ == ss[t].id@,
            decreases self.sessions@.len() - i,
        {
            let s = &self.sessions[i];
            let entries = recent_history(&s.history, limit);
            let ghost b0 = blocks@;
            blocks.push(
                SessionHistoryBlock {
                    session_id: s.id.clone(),
                    project: s.project_path.clone(),
                    entries,
                },
            );
            proof {
                assert(forall|t: int| 0 <= t < b0.len() ==> blocks@[t] == b0[t]);
            }
            i = i + 1;
        }
        let mut out: Vec<SessionHistoryBlock> = Vec::new();
        let mut work = blocks;
        let ghost base = work@;
        proof {
            broadcast use vstd::seq_lib::group_seq_lib_default;

            assert forall|a: int, b: int|
                0 <= a < b < work@.len() implies (#[trigger] work@[a]).session_id@
                != (#[trigger] work@[b]).session_id@ by {
                assert(ss[a].id@ != ss[b].id@);
            }
            Seq::to_multiset_ensures(out@);
            assert(out@.to_multiset() =~= Multiset::<SessionHistoryBlock>::empty());
            assert(out@.to_multiset().add(work@.to_multiset()) =~= base.to_multiset());
        }
        while work.len() > 0
            invariant
                ss == self.sessions@,
                base.len() == ss.len(),
                out@.len() + work@.len() == ss.len(),
                out@.to_multiset().add(work@.to_multiset()) == base.to_multiset(),
                forall|t: int|
                    0 <= t < base.len() ==> block_matches(
                        #[trigger] base[t],
                        ss[t],
                        limit as int,
                    ),
                forall|a: int, b: int|
                    0 <= a < b < out@.len() ==> block_key(#[trigger] out@[a]) >= block_key(
                        #[trigger] out@[b],
                    ),
                forall|a: int, b: int|
                    0 <= a < out@.len() && 0 <= b < work@.len() ==> block_key(
                        #[trigger] out@[a],
                    ) >= block_key(#[trigger] work@[b]),
                forall|a: int, b: int|
                    0 <= a < b < out@.len() ==> (#[trigger] out@[a]).session_id@
                        != (#[trigger] out@[b]).session_id@,
                forall|a: int, b: int|
                    0 <= a < b < work@.len() ==> (#[trigger] work@[a]).session_id@
                        != (#[trigger] work@[b]).session_id@,
                forall|a: int, b: int|
                    0 <= a < out@.len() && 0 <= b < work@.len() ==> (#[trigger] out@[
                    a]).session_id@ != (#[trigger] work@[b]).session_id@,
            decreases work@.len(),
        {
            let mut m: usize = 0;
            let mut t: usize = 1;
            while t < work.len()
                invariant
                    m < t <= work@.len(),
                    forall|u: int|
                        0 <= u < t ==> block_key(#[trigger] work@[u]) <= block_key(
                            work@[m as int],
                        ),
                decreases work@.len() - t,
            {
                if block_key_exec(&work[t]) > block_key_exec(&work[m]) {
                    m = t;
                }
                t = t + 1;
            }
            let ghost w0 = work@;
            let ghost o0 = out@;
            let x = work.remove(m);
            out.push(x);
            proof {
                Seq::to_multiset_ensures(w0);
                Seq::to_multiset_ensures(o0);
                assert(w0.remove(m as int).to_multiset() =~= w0.to_multiset().remove(
                    w0[m as int],
                ));
                assert(o0.push(w0[m as int]).to_multiset() =~= o0.to_multiset().insert(
                    w0[m as int],
                ));
                assert(out@.to_multiset().add(work@.to_multiset()) =~= base.to_multiset());
                assert(forall|u: int| 0 <= u < m ==> work@[u] == w0[u]);
                assert(forall|u: int| m <= u < work@.len() ==> work@[u] == w0[u + 1]);
                assert(forall|u: int| 0 <= u < o0.len() ==> out@[u] == o0[u]);
                assert(out@[o0.len() as int] == w0[m as int]);
                assert forall|a: int, b: int|
                    0 <= a < out@.len() && 0 <= b < work@.len() implies block_key(
                    #[trigger] out@[a],
                ) >= block_key(#[trigger] work@[b]) by {
                    let b0: int = if b < m { b } else { b + 1 };
                    assert(work@[b] == w0[b0]);
                    if a == out@.len() - 1 {
                        assert(block_key(w0[b0]) <= block_key(w0[m as int]));
                    }
                }
                assert forall|a: int, b: int|
                    0 <= a < out@.len() && 0 <= b < work@.len() implies (#[trigger] out@[
                    a]).session_id@ != (#[trigger] work@[b]).session_id@ by {
                    let b0: int = if b < m { b } else { b + 1 };
                    assert(work@[b] == w0[b0]);
                    if a == out@.len() - 1 {
                        assert(b0 != m);
                        if b0 < m {
                            assert(w0[b0].session_id@ != w0[m as int].session_id@);
                        } else {
                            assert(w0[m as int].session_id@ != w0[b0].session_id@);
                        }
                    }
                }
                assert forall|a: int, b: int|
                    0 <= a < b < work@.len() implies (#[trigger] work@[a]).session_id@
                    != (#[trigger] work@[b]).session_id@ by {
                    let a0: int = if a < m { a } else { a + 1 };
                    let b0: int = if b < m { b } else { b + 1 };
                    assert(w0[a0].session_id@ != w0[b0].session_id@);
                }
            }
        }
        proof {
            Seq::to_multiset_ensures(out@);
            Seq::to_multiset_ensures(base);
            Seq::to_multiset_ensures(work@);
            assert(work@ =~= Seq::<SessionHistoryBlock>::empty());
            assert(work@.to_multiset().len() == 0);
            assert(work@.to_multiset() =~= Multiset::<SessionHistoryBlock>::empty());
            assert(out@.to_multiset() =~= base.to_multiset());
            assert forall|t: int|
                0 <= t < out@.len() implies sess_has(
                self.sessions@,
                (#[trigger] out@[t]).session_id@,
            ) by {
                assert(out@.contains(out@[t]));
                assert(out@.to_multiset().count(out@[t]) > 0);
                assert(base.to_multiset().count(out@[t]) > 0);
                assert(base.contains(out@[t]));
                let u = choose|u: int| 0 <= u < base.len() && base[u] == out@[t];
                assert(block_matches(out@[t], ss[u], limit as int));
                assert(self.sessions@[u].id@ == out@[t].session_id@);
            }
            assert forall|t: int, i: int|
                0 <= t < out@.len() && 0 <= i < self.sessions@.len() && (#[trigger] out@[
                t]).session_id@ == (#[trigger] self.sessions@[i]).id@ implies block_matches(
                out@[t],
                self.sessions@[i],
                limit as int,
            ) by {
                assert(out@.contains(out@[t]));
                assert(out@.to_multiset().count(out@[t]) > 0);
                assert(base.to_multiset().count(out@[t]) > 0);
                assert(base.contains(out@[t]));
                let u = choose|u: int| 0 <= u < base.len() && base[u] == out@[t];
                assert(block_matches(out@[t], ss[u], limit as int));
                assert(ss[u].id@ == out@[t].session_id@);
                if u != i {
                    assert(ss[u].id@ != ss[i].id@);
                }
                assert(u == i);
            }
        }
        out
    }
}

/// Every record of `ms` reports the session `src` points it at./// A listing record reports exactly one session's data.
pub open spec fn meta_matches(m: SessionMeta, s: Session) -> bool {
    &&& m.session_id@ == s.id@
    &&& m.project@ == s.project_path@
    &&& m.created_at == s.created_at
    &&& m.last_active == s.last_active
    &&& m.history_count == s.history@.len()
}

/// A history block reports exactly one session's recent history: its id
/// and project, and the newest `limit` entries in order.
pub open spec fn block_matches(b: SessionHistoryBlock, s: Session, limit: int) -> bool {
    &&& b.session_id@ == s.id@
    &&& b.project@ == s.project_path@
    &&& hviews(b.entries@) == hviews(s.history@).skip(
        if s.history@.len() <= limit {
            0
        } else {
            s.history@.len() - limit
        },
    )
}

/// One session's share of the admin history view.
pub struct SessionHistoryBlock {
    pub session_id: String,
    pub project: String,
    pub entries: Vec<HistoryEntry>,
}

/// The ordering key of a history block: blocks are sorted by the
/// timestamp of their newest entry, and a block with entries orders
/// before any block without.
pub open spec fn block_key(b: SessionHistoryBlock) -> int {
    if b.entries@.len() > 0 {
        2 * b.entries@.last().timestamp + 1
    } else {
        2 * i64::MIN
    }
}

fn block_key_exec(b: &SessionHistoryBlock) -> (r: i128)
    ensures
        r as int == block_key(*b),
{
    if b.entries.len() > 0 {
        2 * (b.entries[b.entries.len() - 1].timestamp as i128) + 1
    } else {
        2 * (i64::MIN as i128)
    }
}

} // verus!
