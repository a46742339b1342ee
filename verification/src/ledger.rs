//! The ledger as the tracking engine sees it: an ordered sequence of
//! entries, queried for its most recent entry or a time window, and grown
//! only under the alternation rules — a period may begin only when none is
//! running and end only when one is.

use vstd::prelude::*;

use crate::entry::Entry;
use crate::entry::EntryKind;
use crate::entry::TrackError;
use crate::summary::bounded_instants;
use crate::summary::sorted_by_time;
use crate::summary::spec_summarize;
use crate::summary::summarize_entries;
use crate::summary::valid_instant;

verus! {

/// The store's "most recent" query: the entry with the maximum timestamp,
/// or the ambiguity error when two entries share that maximum.
pub open spec fn spec_most_recent(s: Seq<Entry>) -> Result<Option<Entry>, TrackError> {
    if s.len() == 0 {
        Ok(None)
    } else if s.len() >= 2 && s[s.len() - 1].timestamp == s[s.len() - 2].timestamp {
        Err(TrackError::AmbiguousLedgerState)
    } else {
        Ok(Some(s[s.len() - 1]))
    }
}

/// Whether starting a period is allowed, given the most recent entry:
/// refused exactly when a period is already running.
pub open spec fn spec_start_decision(last: Option<Entry>) -> Result<(), TrackError> {
    match last {
        Some(e) => if e.kind is Begin {
            Err(TrackError::AlreadyRunning { started_at: e.timestamp })
        } else {
            Ok(())
        },
        None => Ok(()),
    }
}

/// Whether ending a period is allowed, given the most recent entry:
/// refused exactly when no period is running.
pub open spec fn spec_end_decision(last: Option<Entry>) -> Result<(), TrackError> {
    match last {
        Some(e) => if e.kind is End {
            Err(TrackError::AlreadyIdle { ended_at: e.timestamp })
        } else {
            Ok(())
        },
        None => Err(TrackError::NoPeriodToEnd),
    }
}

/// The alternation invariant: Begin and End strictly alternate, starting
/// with Begin.
pub open spec fn alternates(s: Seq<Entry>) -> bool {
    forall|i: int|
        0 <= i < s.len() ==> #[trigger] s[i].kind == (if i % 2 == 0 {
            EntryKind::Begin
        } else {
            EntryKind::End
        })
}

/// Where the store files a new entry: behind every entry with a timestamp
/// up to its own, before every strictly later one.
pub open spec fn spec_insert_sorted(s: Seq<Entry>, e: Entry) -> Seq<Entry>
    decreases s.len(),
{
    if s.len() == 0 {
        seq![e]
    } else if s.last().timestamp <= e.timestamp {
        s.push(e)
    } else {
        spec_insert_sorted(s.drop_last(), e).push(s.last())
    }
}

/// What starting a period does to the ledger: the verdict, and the ledger
/// afterwards (unchanged unless the verdict is success).
pub open spec fn spec_start(s: Seq<Entry>, now: i64) -> (Result<(), TrackError>, Seq<Entry>) {
    match spec_most_recent(s) {
        Err(e) => (Err(e), s),
        Ok(last) => match spec_start_decision(last) {
            Err(e) => (Err(e), s),
            Ok(_) => (
                Ok(()),
                spec_insert_sorted(s, Entry { timestamp: now, kind: EntryKind::Begin }),
            ),
        },
    }
}

/// What ending a period does to the ledger: the verdict, and the ledger
/// afterwards (unchanged unless the verdict is success).
pub open spec fn spec_end(s: Seq<Entry>, now: i64) -> (Result<(), TrackError>, Seq<Entry>) {
    match spec_most_recent(s) {
        Err(e) => (Err(e), s),
        Ok(last) => match spec_end_decision(last) {
            Err(e) => (Err(e), s),
            Ok(_) => (
                Ok(()),
                spec_insert_sorted(s, Entry { timestamp: now, kind: EntryKind::End }),
            ),
        },
    }
}

/// Decides starting a period from the most recent entry: fails exactly
/// when that entry is a Begin, naming the instant the period started.
pub fn start_decision(last: Option<Entry>) -> (r: Result<(), TrackError>)
    ensures
        r == spec_start_decision(last),
        r is Err <==> (last matches Some(e) && e.kind is Begin),
{
    match last {
        Some(e) => match e.kind {
            EntryKind::Begin => Err(TrackError::AlreadyRunning { started_at: e.timestamp }),
            EntryKind::End => Ok(()),
        },
        None => Ok(()),
    }
}

/// Decides ending a period from the most recent entry: fails exactly when
/// the ledger is empty or that entry is an End.
pub fn end_decision(last: Option<Entry>) -> (r: Result<(), TrackError>)
    ensures
        r == spec_end_decision(last),
        r is Err <==> (last is None || (last matches Some(e) && e.kind is End)),
{
    match last {
        Some(e) => match e.kind {
            EntryKind::Begin => Ok(()),
            EntryKind::End => Err(TrackError::AlreadyIdle { ended_at: e.timestamp }),
        },
        None => Err(TrackError::NoPeriodToEnd),
    }
}

/// Law: against an unambiguous ledger, starting fails exactly when the
/// most recent entry is a Begin, and ending fails exactly when the ledger
/// is empty or the most recent entry is an End.
pub proof fn lemma_alternation_decisions(s: Seq<Entry>, now: i64)
    requires
        spec_most_recent(s) is Ok,
    ensures
        spec_start(s, now).0 is Err <==> (spec_most_recent(s)->Ok_0 matches Some(e)
            && e.kind is Begin),
        spec_end(s, now).0 is Err <==> s.len() == 0 || (spec_most_recent(s)->Ok_0 matches Some(e)
            && e.kind is End),
{
}

/// Filing an entry behind a prefix leaves a suffix of strictly later
/// entries untouched.
proof fn lemma_insert_sorted_suffix(a: Seq<Entry>, b: Seq<Entry>, e: Entry)
    requires
        forall|j: int| 0 <= j < b.len() ==> e.timestamp < #[trigger] b[j].timestamp,
    ensures
        spec_insert_sorted(a + b, e) == spec_insert_sorted(a, e) + b,
    decreases b.len(),
{
    if b.len() == 0 {
        assert(a + b =~= a);
        assert(spec_insert_sorted(a, e) + b =~= spec_insert_sorted(a, e));
    } else {
        let s = a + b;
        assert(s.last() == b.last());
        assert(e.timestamp < b[b.len() - 1].timestamp);
        assert(s.drop_last() =~= a + b.drop_last());
        assert forall|j: int| 0 <= j < b.drop_last().len() implies e.timestamp < #[trigger] b.drop_last()[j].timestamp by {
            assert(b.drop_last()[j] == b[j]);
        }
        lemma_insert_sorted_suffix(a, b.drop_last(), e);
        assert((spec_insert_sorted(a, e) + b.drop_last()).push(b.last()) =~= spec_insert_sorted(
            a,
            e,
        ) + b);
    }
}

/// The ledger: every stored entry, ascending by timestamp.
pub struct Ledger {
    entries: Vec<Entry>,
}

impl View for Ledger {
    type V = Seq<Entry>;

    closed spec fn view(&self) -> Seq<Entry> {
        self.entries@
    }
}

impl Ledger {
    /// Well-formed: ascending by timestamp, every instant in range.
    pub open spec fn wf(self) -> bool {
        sorted_by_time(self@) && bounded_instants(self@)
    }

    /// An empty ledger.
    pub fn new() -> (l: Ledger)
        ensures
            l@ == Seq::<Entry>::empty(),
            l.wf(),
    {
        Ledger { entries: Vec::new() }
    }

    /// The entry with the maximum timestamp, failing closed when two
    /// entries share that maximum.
    pub fn most_recent(&self) -> (r: Result<Option<Entry>, TrackError>)
        ensures
            r == spec_most_recent(self@),
    {
        let n = self.entries.len();
        if n == 0 {
            Ok(None)
        } else if n >= 2 {
            let a = self.entries[n - 1];
            let b = self.entries[n - 2];
            if a.timestamp == b.timestamp {
                Err(TrackError::AmbiguousLedgerState)
            } else {
                Ok(Some(a))
            }
        } else {
            Ok(Some(self.entries[0]))
        }
    }

    /// Files one entry at its timestamp's place, keeping the ledger
    /// well-formed.
    fn insert_entry(&mut self, e: Entry)
        requires
            old(self).wf(),
            valid_instant(e.timestamp),
        ensures
            final(self).wf(),
            final(self)@ == spec_insert_sorted(old(self)@, e),
            final(self)@.len() == old(self)@.len() + 1,
            final(self)@.contains(e),
    {
        let ghost s0 = self@;
        let mut p: usize = self.entries.len();
        while p > 0 && e.timestamp < self.entries[p - 1].timestamp
            invariant
                self.entries@ == s0,
                sorted_by_time(s0),
                p <= self.entries.len(),
                forall|j: int|
                    p <= j < s0.len() ==> e.timestamp < #[trigger] s0[j].timestamp,
            decreases p,
        {
            p = p - 1;
        }
        proof {
            let tk = s0.take(p as int);
            let sk = s0.skip(p as int);
            assert forall|j: int| 0 <= j < sk.len() implies e.timestamp < #[trigger] sk[j].timestamp by {
                assert(sk[j] == s0[p + j]);
            }
            lemma_insert_sorted_suffix(tk, sk, e);
            if p > 0 {
                assert(tk.last() == s0[p - 1]);
            }
            assert(spec_insert_sorted(tk, e) =~= tk.push(e));
            assert(tk + sk =~= s0);
            assert(spec_insert_sorted(s0, e) =~= tk.push(e) + sk);
        }
        self.entries.insert(p, e);
        proof {
            assert(self.entries@ == s0.insert(p as int, e));
            assert(s0.insert(p as int, e) =~= s0.take(p as int).push(e) + s0.skip(p as int));
            s0.insert_ensures(p as int, e);
            assert forall|j: int| 0 <= j < p implies s0[j].timestamp <= e.timestamp by {
                assert(s0[j].timestamp <= s0[p - 1].timestamp);
            }
            assert forall|x: int, y: int|
                0 <= x <= y < self@.len() implies self@[x].timestamp
                <= self@[y].timestamp by {
                if y < p {
                    assert(self@[x] == s0[x] && self@[y] == s0[y]);
                } else if x < p && y == p {
                    assert(self@[x] == s0[x] && self@[y] == e);
                } else if x < p && y > p {
                    assert(self@[x] == s0[x] && self@[y] == s0[y - 1]);
                    assert(s0[x].timestamp <= e.timestamp);
                    assert(e.timestamp < s0[y - 1].timestamp);
                } else if x == p && y == p {
                } else if x == p && y > p {
                    assert(self@[x] == e && self@[y] == s0[y - 1]);
                    assert(e.timestamp < s0[y - 1].timestamp);
                } else {
                    assert(self@[x] == s0[x - 1] && self@[y] == s0[y - 1]);
                }
            }
            assert forall|k: int| 0 <= k < self@.len() implies valid_instant(
                #[trigger] self@[k].timestamp,
            ) by {
                if k < p {
                    assert(self@[k] == s0[k]);
                } else if k == p {
                    assert(self@[k] == e);
                } else {
                    assert(self@[k] == s0[k - 1]);
                }
            }
            assert(self@.contains(e)) by {
                assert(self@[p as int] == e);
            }
        }
    }

    /// Starts a period at `now`: refused, with the ledger untouched, when
    /// a period is already running or the most recent entry is ambiguous;
    /// on success exactly one Begin entry at `now` is added.
    pub fn start_period(&mut self, now: i64) -> (r: Result<(), TrackError>)
        requires
            old(self).wf(),
            valid_instant(now),
        ensures
            final(self).wf(),
            r == spec_start(old(self)@, now).0,
            final(self)@ == spec_start(old(self)@, now).1,
            r is Err ==> final(self)@ == old(self)@,
            r is Ok ==> final(self)@.len() == old(self)@.len() + 1 && final(self)@.contains(
                Entry { timestamp: now, kind: EntryKind::Begin },
            ),
            spec_most_recent(old(self)@) matches Ok(last) ==> (r is Err <==> (
            last matches Some(e) && e.kind is Begin)),
            alternates(old(self)@) && r is Ok && (old(self)@.len() == 0
                || old(self)@.last().timestamp <= now) ==> alternates(final(self)@),
            r is Ok && (old(self)@.len() == 0 || old(self)@.last().timestamp < now)
                ==> spec_most_recent(final(self)@) == Ok::<Option<Entry>, TrackError>(
                Some(Entry { timestamp: now, kind: EntryKind::Begin }),
            ),
    {
        let recent = match self.most_recent() {
            Ok(last) => last,
            Err(err) => {
                return Err(err);
            },
        };
        match start_decision(recent) {
            Ok(_) => {
                let e = Entry { timestamp: now, kind: EntryKind::Begin };
                self.insert_entry(e);
                proof {
                    lemma_appended_tail(old(self)@, self@, e, now);
                }
                Ok(())
            },
            Err(err) => Err(err),
        }
    }

    /// Ends the running period at `now`: refused, with the ledger
    /// untouched, when no period is running, the ledger is empty, or the
    /// most recent entry is ambiguous; on success exactly one End entry at
    /// `now` is added.
    pub fn end_period(&mut self, now: i64) -> (r: Result<(), TrackError>)
        requires
            old(self).wf(),
            valid_instant(now),
        ensures
            final(self).wf(),
            r == spec_end(old(self)@, now).0,
            final(self)@ == spec_end(old(self)@, now).1,
            r is Err ==> final(self)@ == old(self)@,
            r is Ok ==> final(self)@.len() == old(self)@.len() + 1 && final(self)@.contains(
                Entry { timestamp: now, kind: EntryKind::End },
            ),
            spec_most_recent(old(self)@) matches Ok(last) ==> (r is Err <==> (last is None || (
            last matches Some(e) && e.kind is End))),
            alternates(old(self)@) && r is Ok && (old(self)@.len() == 0
                || old(self)@.last().timestamp <= now) ==> alternates(final(self)@),
            r is Ok && (old(self)@.len() == 0 || old(self)@.last().timestamp < now)
                ==> spec_most_recent(final(self)@) == Ok::<Option<Entry>, TrackError>(
                Some(Entry { timestamp: now, kind: EntryKind::End }),
            ),
    {
        let recent = match self.most_recent() {
            Ok(last) => last,
            Err(err) => {
                return Err(err);
            },
        };
        match end_decision(recent) {
            Ok(_) => {
                let e = Entry { timestamp: now, kind: EntryKind::End };
                self.insert_entry(e);
                proof {
                    lemma_appended_tail(old(self)@, self@, e, now);
                }
                Ok(())
            },
            Err(err) => Err(err),
        }
    }

    /// Every entry, ascending: a pure read of the ledger.
    pub fn list_all(&self) -> (r: &Vec<Entry>)
        ensures
            r@ == self@,
    {
        &self.entries
    }
}

/// Whether an entry's timestamp falls inside the half-open window.
pub open spec fn spec_in_window(e: Entry, window_start: i64, window_end: i64) -> bool {
    window_start <= e.timestamp < window_end
}

/// The store's range query: the entries inside the half-open window, in
/// their stored order.
pub open spec fn spec_range(s: Seq<Entry>, window_start: i64, window_end: i64) -> Seq<Entry>
    decreases s.len(),
{
    if s.len() == 0 {
        Seq::empty()
    } else if spec_in_window(s.last(), window_start, window_end) {
        spec_range(s.drop_last(), window_start, window_end).push(s.last())
    } else {
        spec_range(s.drop_last(), window_start, window_end)
    }
}

/// A range query on a well-formed ledger yields a well-formed window of
/// in-window entries, each no later than the ledger's last entry.
proof fn lemma_range_wf(s: Seq<Entry>, window_start: i64, window_end: i64)
    requires
        sorted_by_time(s),
        bounded_instants(s),
    ensures
        sorted_by_time(spec_range(s, window_start, window_end)),
        bounded_instants(spec_range(s, window_start, window_end)),
        forall|k: int|
            0 <= k < spec_range(s, window_start, window_end).len() ==> spec_in_window(
                #[trigger] spec_range(s, window_start, window_end)[k],
                window_start,
                window_end,
            ),
        s.len() > 0 ==> forall|k: int|
            0 <= k < spec_range(s, window_start, window_end).len() ==> #[trigger] spec_range(
                s,
                window_start,
                window_end,
            )[k].timestamp <= s.last().timestamp,
    decreases s.len(),
{
    if s.len() > 0 {
        let d = s.drop_last();
        assert forall|x: int, y: int|
            0 <= x <= y < d.len() implies #[trigger] d[x].timestamp
            <= #[trigger] d[y].timestamp by {
            assert(d[x] == s[x] && d[y] == s[y]);
        }
        assert forall|k: int| 0 <= k < d.len() implies valid_instant(
            #[trigger] d[k].timestamp,
        ) by {
            assert(d[k] == s[k]);
        }
        lemma_range_wf(d, window_start, window_end);
        let rd = spec_range(d, window_start, window_end);
        let r = spec_range(s, window_start, window_end);
        if d.len() > 0 {
            assert(d.last() == s[s.len() - 2]);
            assert(d.last().timestamp <= s.last().timestamp);
        }
        if spec_in_window(s.last(), window_start, window_end) {
            assert(r == rd.push(s.last()));
            assert forall|x: int, y: int|
                0 <= x <= y < r.len() implies #[trigger] r[x].timestamp
                <= #[trigger] r[y].timestamp by {
                if y < rd.len() {
                    assert(r[x] == rd[x] && r[y] == rd[y]);
                } else {
                    assert(r[y] == s.last());
                    if x < rd.len() {
                        assert(r[x] == rd[x]);
                    }
                }
            }
            assert(valid_instant(s.last().timestamp));
        }
    }
}

impl Ledger {
    /// The entries whose timestamps fall in `[window_start, window_end)`,
    /// ascending: a pure read of the ledger.
    pub fn range(&self, window_start: i64, window_end: i64) -> (r: Vec<Entry>)
        requires
            self.wf(),
        ensures
            r@ == spec_range(self@, window_start, window_end),
            sorted_by_time(r@),
            bounded_instants(r@),
            forall|k: int|
                0 <= k < r@.len() ==> spec_in_window(#[trigger] r@[k], window_start, window_end),
    {
        let mut out: Vec<Entry> = Vec::new();
        let n = self.entries.len();
        let mut i: usize = 0;
        while i < n
            invariant
                n == self.entries.len(),
                i <= n,
                out@ == spec_range(self.entries@.take(i as int), window_start, window_end),
            decreases n - i,
        {
            let e = self.entries[i];
            proof {
                assert(self.entries@.take(i + 1).drop_last() =~= self.entries@.take(i as int));
                assert(self.entries@.take(i + 1).last() == self.entries@[i as int]);
            }
            if window_start <= e.timestamp && e.timestamp < window_end {
                out.push(e);
            }
            i = i + 1;
        }
        proof {
            assert(self.entries@.take(n as int) =~= self.entries@);
            lemma_range_wf(self@, window_start, window_end);
        }
        out
    }

    /// Sums the elapsed time of the entries inside the half-open window,
    /// as of `now`: a pure read, with corruption inside the window
    /// reported instead of passed over.
    pub fn summarize_range(&self, now: i64, window_start: i64, window_end: i64) -> (r: Result<
        i64,
        TrackError,
    >)
        requires
            self.wf(),
            valid_instant(now),
        ensures
            spec_summarize(spec_range(self@, window_start, window_end), now as int) matches Ok(t)
                ==> r == Ok::<i64, TrackError>(t as i64),
            spec_summarize(spec_range(self@, window_start, window_end), now as int) matches Err(e)
                ==> r == Err::<i64, TrackError>(e),
    {
        let window = self.range(window_start, window_end);
        summarize_entries(&window, now)
    }
}

/// After filing an entry no earlier than everything stored, the ledger is
/// the old one with the entry appended; alternation carries over to the
/// appended entry when its kind continues the pattern, and the new entry
/// is the unambiguous most recent one when its instant is fresh.
proof fn lemma_appended_tail(s: Seq<Entry>, t: Seq<Entry>, e: Entry, now: i64)
    requires
        sorted_by_time(s),
        t == spec_insert_sorted(s, e),
        e.timestamp == now,
    ensures
        (s.len() == 0 || s.last().timestamp <= now) ==> t == s.push(e),
        alternates(s) && (s.len() == 0 || s.last().timestamp <= now) && (if s.len() % 2 == 0 {
            e.kind is Begin
        } else {
            e.kind is End
        }) ==> alternates(t),
        (s.len() == 0 || s.last().timestamp < now) ==> spec_most_recent(t) == Ok::<
            Option<Entry>,
            TrackError,
        >(Some(e)),
{
    if s.len() == 0 || s.last().timestamp <= now {
        assert(t =~= s.push(e));
        if alternates(s) && (if s.len() % 2 == 0 {
            e.kind is Begin
        } else {
            e.kind is End
        }) {
            assert forall|i: int|
                0 <= i < t.len() implies #[trigger] t[i].kind == (if i % 2 == 0 {
                EntryKind::Begin
            } else {
                EntryKind::End
            }) by {
                if i < s.len() {
                    assert(t[i] == s[i]);
                } else {
                    assert(t[i] == e);
                }
            }
        }
        if s.len() == 0 || s.last().timestamp < now {
            if s.len() >= 1 {
                assert(t[t.len() - 2] == s[s.len() - 1]);
                assert(t[t.len() - 2].timestamp < now);
            }
            assert(t[t.len() - 1] == e);
        }
    }
}

} // verus!
