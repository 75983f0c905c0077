//! Session history entries and the history compactor: consecutive entries
//! with the same method and path are folded into one summary entry, while a
//! tail of recent entries is kept verbatim.

use vstd::prelude::*;
use crate::text::{dec_digits, dec_string};

verus! {

use vstd::string::StringExecFns;

/// One recorded request: when it ran, what it asked, and the start of the
/// response.
pub struct HistoryEntry {
    pub timestamp: i64,
    pub method: String,
    pub path: String,
    pub response_preview: String,
}

/// Mathematical image of a `HistoryEntry`.
pub struct HistoryEntryV {
    pub timestamp: int,
    pub method: Seq<char>,
    pub path: Seq<char>,
    pub response_preview: Seq<char>,
}

impl View for HistoryEntry {
    type V = HistoryEntryV;

    open spec fn view(&self) -> HistoryEntryV {
        HistoryEntryV {
            timestamp: self.timestamp as int,
            method: self.method@,
            path: self.path@,
            response_preview: self.response_preview@,
        }
    }
}

impl Clone for HistoryEntry {
    fn clone(&self) -> (r: Self)
        ensures
            r@ == self@,
    {
        HistoryEntry {
            timestamp: self.timestamp,
            method: self.method.clone(),
            path: self.path.clone(),
            response_preview: self.response_preview.clone(),
        }
    }
}

pub open spec fn hviews(h: Seq<HistoryEntry>) -> Seq<HistoryEntryV> {
    h.map_values(|e: HistoryEntry| e@)
}

/// Entries are grouped when method and path both agree.
pub open spec fn same_key(a: HistoryEntryV, b: HistoryEntryV) -> bool {
    a.method == b.method && a.path == b.path
}

fn eq_key(a: &HistoryEntry, b: &HistoryEntry) -> (r: bool)
    ensures
        r == same_key(a@, b@),
{
    a.method == b.method && a.path == b.path
}

/// Length of the leading run of entries sharing the first entry's key.
pub open spec fn run_len(s: Seq<HistoryEntryV>) -> nat
    decreases s.len(),
{
    if s.len() == 0 {
        0
    } else if s.len() == 1 {
        1
    } else if same_key(s[0], s[1]) {
        (1 + run_len(s.drop_first())) as nat
    } else {
        1
    }
}

pub proof fn lemma_run_len_bounds(s: Seq<HistoryEntryV>)
    requires
        s.len() > 0,
    ensures
        1 <= run_len(s) <= s.len(),
    decreases s.len(),
{
    if s.len() > 1 && same_key(s[0], s[1]) {
        lemma_run_len_bounds(s.drop_first());
    }
}

/// A run is pinned down by: its members share the first key, and it is not
/// extendable.
proof fn lemma_run_len_char(s: Seq<HistoryEntryV>, c: nat)
    requires
        1 <= c <= s.len(),
        forall|t: int| 0 <= t < c ==> same_key(s[0], #[trigger] s[t]),
        c < s.len() ==> !same_key(s[0], s[c as int]),
    ensures
        run_len(s) == c,
    decreases c,
{
    if c == 1 {
    } else {
        let d = s.drop_first();
        assert(same_key(s[0], s[1]));
        assert forall|t: int| 0 <= t < c - 1 implies same_key(d[0], #[trigger] d[t]) by {
            assert(d[t] == s[t + 1]);
            assert(same_key(s[0], s[t + 1]));
        }
        if c - 1 < d.len() {
            assert(d[c - 1] == s[c as int]);
        }
        lemma_run_len_char(d, (c - 1) as nat);
    }
}

/// Response preview of a summary entry covering `n` calls.
pub open spec fn compact_label(n: nat) -> Seq<char> {
    "["@ + dec_digits(n) + " calls compacted]"@
}

/// The summary the compactor leaves for a run: a single-entry run stays as
/// it was; a longer run keeps the first member's timestamp, method and path
/// and a preview naming the run length.
pub open spec fn group_summary(s: Seq<HistoryEntryV>) -> HistoryEntryV
    recommends
        s.len() > 0,
{
    if s.len() == 1 {
        s[0]
    } else {
        HistoryEntryV {
            timestamp: s[0].timestamp,
            method: s[0].method,
            path: s[0].path,
            response_preview: compact_label(s.len()),
        }
    }
}

/// The compacted image of a history prefix: each maximal run of entries
/// with one key becomes one entry.
pub open spec fn compact_groups(h: Seq<HistoryEntryV>) -> Seq<HistoryEntryV>
    decreases h.len(),
{
    if h.len() == 0 {
        Seq::empty()
    } else {
        let n = run_len(h);
        if 1 <= n <= h.len() {
            seq![group_summary(h.take(n as int))] + compact_groups(h.skip(n as int))
        } else {
            Seq::empty()
        }
    }
}

/// Counts returned by the compactor.
pub struct CompactResult {
    pub original_count: usize,
    pub compacted_count: usize,
    pub removed: usize,
}

/// Compact everything but the most recent `keep_recent` entries, grouping
/// consecutive same-(method, path) entries into summaries; the kept tail
/// follows unchanged. The returned counts satisfy
/// `removed == original_count - compacted_count`.
pub fn compact_history(history: &mut Vec<HistoryEntry>, keep_recent: usize) -> (r: CompactResult)
    ensures
        r.original_count == old(history)@.len(),
        r.compacted_count == final(history)@.len(),
        r.removed == r.original_count - r.compacted_count,
        r.compacted_count <= r.original_count,
        old(history)@.len() <= keep_recent ==> final(history)@ == old(history)@,
        old(history)@.len() > keep_recent ==> hviews(final(history)@) == compact_groups(
            hviews(old(history)@).take(old(history)@.len() - keep_recent),
        ) + hviews(old(history)@).skip(old(history)@.len() - keep_recent),
{
    let total = history.len();
    if total <= keep_recent {
        return CompactResult { original_count: total, compacted_count: total, removed: 0 };
    }
    let split = total - keep_recent;
    let ghost h0 = hviews(history@);
    let ghost p = h0.take(split as int);
    let mut compacted: Vec<HistoryEntry> = Vec::new();
    let mut i: usize = 0;
    proof {
        assert(hviews(compacted@) =~= Seq::<HistoryEntryV>::empty());
        assert(p.skip(0) =~= p);
    }
    while i < split
        invariant
            i <= split <= total == history@.len(),
            split == total - keep_recent,
            h0 == hviews(history@),
            p == h0.take(split as int),
            hviews(compacted@) + compact_groups(p.skip(i as int)) == compact_groups(p),
            compacted@.len() <= i,
        decreases split - i,
    {
        let ghost s = p.skip(i as int);
        let mut count: usize = 1;
        while i + count < split && eq_key(&history[i], &history[i + count])
            invariant
                i < split <= total == history@.len(),
                1 <= count <= split - i,
                h0 == hviews(history@),
                p == h0.take(split as int),
                s == p.skip(i as int),
                forall|t: int| 0 <= t < count ==> same_key(s[0], #[trigger] s[t]),
            decreases split - i - count,
        {
            proof {
                assert(s[count as int] == h0[i + count]);
                assert(s[0] == h0[i as int]);
            }
            count = count + 1;
        }
        proof {
            assert(s[0] == h0[i as int]);
            if i + count < split {
                assert(s[count as int] == h0[i + count]);
            }
            lemma_run_len_char(s, count as nat);
        }
        if count > 1 {
            let mut label = "[".to_owned();
            label.append(dec_string(count as u64).as_str());
            label.append(" calls compacted]");
            let entry = HistoryEntry {
                timestamp: history[i].timestamp,
                method: history[i].method.clone(),
                path: history[i].path.clone(),
                response_preview: label,
            };
            proof {
                assert(entry@ == group_summary(s.take(count as int)));
            }
            compacted.push(entry);
        } else {
            let entry = history[i].clone();
            proof {
                assert(s.take(1)[0] == s[0]);
                assert(entry@ == group_summary(s.take(count as int)));
            }
            compacted.push(entry);
        }
        proof {
            assert(compact_groups(s) == seq![group_summary(s.take(count as int))]
                + compact_groups(s.skip(count as int)));
            assert(s.skip(count as int) =~= p.skip(i + count));
            assert(hviews(compacted@) =~= hviews(compacted@.drop_last()).push(
                compacted@.last()@,
            ));
        }
        i = i + count;
    }
    proof {
        assert(p.skip(split as int) =~= Seq::<HistoryEntryV>::empty());
        assert(hviews(compacted@) + Seq::<HistoryEntryV>::empty() =~= hviews(compacted@));
    }
    let compacted_len = compacted.len();
    let mut k: usize = split;
    while k < total
        invariant
            split <= k <= total == history@.len(),
            h0 == hviews(history@),
            compacted@.len() == compacted_len + (k - split),
            hviews(compacted@) =~= compact_groups(p) + h0.subrange(split as int, k as int),
        decreases total - k,
    {
        let ghost co = compacted@;
        let entry = history[k].clone();
        compacted.push(entry);
        proof {
            assert(hviews(compacted@) =~= hviews(co).push(h0[k as int]));
            assert(h0.subrange(split as int, k + 1) =~= h0.subrange(split as int, k as int).push(
                h0[k as int],
            ));
            assert((compact_groups(p) + h0.subrange(split as int, k as int)).push(h0[k as int])
                =~= compact_groups(p) + h0.subrange(split as int, k + 1));
        }
        k = k + 1;
    }
    let new_len = compacted.len();
    *history = compacted;
    proof {
        assert(h0.subrange(split as int, total as int) =~= h0.skip(split as int));
        lemma_compact_groups_len(p);
    }
    CompactResult {
        original_count: total,
        compacted_count: new_len,
        removed: total - new_len,
    }
}

pub proof fn lemma_compact_groups_len(h: Seq<HistoryEntryV>)
    ensures
        compact_groups(h).len() <= h.len(),
    decreases h.len(),
{
    if h.len() > 0 {
        lemma_run_len_bounds(h);
        lemma_compact_groups_len(h.skip(run_len(h) as int));
    }
}

/// The most recent `limit` entries, oldest first.
pub fn recent_history(history: &Vec<HistoryEntry>, limit: usize) -> (r: Vec<HistoryEntry>)
    ensures
        hviews(r@) == hviews(history@).skip(
            if history@.len() <= limit {
                0
            } else {
                history@.len() - limit
            },
        ),
{
    let total = history.len();
    let start = if total <= limit {
        0
    } else {
        total - limit
    };
    let mut out: Vec<HistoryEntry> = Vec::new();
    let mut k: usize = start;
    proof {
        assert(hviews(out@) =~= Seq::<HistoryEntryV>::empty());
    }
    while k < total
        invariant
            start <= k <= total == history@.len(),
            hviews(out@) =~= hviews(history@).subrange(start as int, k as int),
        decreases total - k,
    {
        out.push(history[k].clone());
        proof {
            let hv = hviews(history@);
            assert(hv.subrange(start as int, k + 1) =~= hv.subrange(start as int, k as int).push(
                hv[k as int],
            ));
            assert(hviews(out@) =~= hviews(out@.drop_last()).push(out@.last()@));
        }
        k = k + 1;
    }
    proof {
        assert(hviews(history@).subrange(start as int, total as int) =~= hviews(history@).skip(
            start as int,
        ));
    }
    out
}

} // verus!
