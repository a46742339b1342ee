//! Folding a window of ledger entries into an elapsed-time total: closed
//! periods are summed, a period still open at the window's end is counted
//! up to `now`, and alternation violations inside the window are reported
//! as corruption instead of being passed over.

use vstd::prelude::*;

use crate::entry::CorruptionKind;
use crate::entry::Entry;
use crate::entry::EntryKind;
use crate::entry::TrackError;

verus! {

/// Seconds in one calendar day, the sanity bound on a one-day summary.
pub const SECONDS_PER_DAY: i64 = 86400;

/// Magnitude bound on instants, far beyond any date a calendar library can
/// represent; it keeps every duration sum inside a machine integer.
pub const MAX_INSTANT: i64 = 2305843009213693952;

/// An instant whose distance to any other valid instant fits in an `i64`.
pub open spec fn valid_instant(t: i64) -> bool {
    -MAX_INSTANT <= t <= MAX_INSTANT
}

/// Every timestamp of the window is a valid instant.
pub open spec fn bounded_instants(s: Seq<Entry>) -> bool {
    forall|i: int| 0 <= i < s.len() ==> valid_instant(#[trigger] s[i].timestamp)
}

/// Entries ascending by timestamp, as the store's queries return them.
pub open spec fn sorted_by_time(s: Seq<Entry>) -> bool {
    forall|i: int, j: int|
        0 <= i <= j < s.len() ==> #[trigger] s[i].timestamp <= #[trigger] s[j].timestamp
}

/// Folding a window left to right: the instant of the period still open
/// and the seconds accumulated from closed periods so far, or the
/// corruption that stops the fold.
pub open spec fn spec_fold(s: Seq<Entry>) -> Result<(Option<int>, int), CorruptionKind>
    decreases s.len(),
{
    if s.len() == 0 {
        Ok((None, 0))
    } else {
        match spec_fold(s.drop_last()) {
            Err(c) => Err(c),
            Ok(st) => {
                let e = s.last();
                match e.kind {
                    EntryKind::Begin => {
                        if st.0 is Some {
                            Err(CorruptionKind::OverlappingBegin { at: e.timestamp })
                        } else {
                            Ok((Some(e.timestamp as int), st.1))
                        }
                    },
                    EntryKind::End => {
                        match st.0 {
                            Some(b) => Ok((None, st.1 + (e.timestamp - b))),
                            None => Err(CorruptionKind::DanglingEnd { at: e.timestamp }),
                        }
                    },
                }
            },
        }
    }
}

/// The elapsed seconds a window yields as of `now`: closed periods summed,
/// plus the tail of a period still open at the window's end.
pub open spec fn spec_total(s: Seq<Entry>, now: int) -> Result<int, CorruptionKind> {
    match spec_fold(s) {
        Err(c) => Err(c),
        Ok(st) => Ok(
            match st.0 {
                Some(b) => st.1 + (now - b),
                None => st.1,
            },
        ),
    }
}

/// What summarizing a window returns: its total, unless the fold detects
/// corruption or the total reaches a full day in magnitude.
pub open spec fn spec_summarize(s: Seq<Entry>, now: int) -> Result<int, TrackError> {
    match spec_total(s, now) {
        Err(c) => Err(TrackError::CorruptedLedger { corruption: c }),
        Ok(t) => if -(SECONDS_PER_DAY as int) < t < (SECONDS_PER_DAY as int) {
            Ok(t)
        } else {
            Err(TrackError::CorruptedLedger { corruption: CorruptionKind::DurationOutOfBounds })
        },
    }
}

/// The open-period instant of the fold state, as the fold's ghost value.
pub open spec fn opt_instant(o: Option<i64>) -> Option<int> {
    match o {
        Some(b) => Some(b as int),
        None => None,
    }
}

/// Once the fold of a prefix stops on corruption, the fold of the whole
/// window stops on that same corruption.
proof fn lemma_fold_err_prefix(s: Seq<Entry>, i: int)
    requires
        0 <= i <= s.len(),
        spec_fold(s.take(i)) is Err,
    ensures
        spec_fold(s) == spec_fold(s.take(i)),
    decreases s.len() - i,
{
    if i == s.len() {
        assert(s.take(i) =~= s);
    } else {
        assert(s.take(i + 1).drop_last() =~= s.take(i));
        assert(spec_fold(s.take(i + 1)) == spec_fold(s.take(i)));
        lemma_fold_err_prefix(s, i + 1);
    }
}

/// Sums the elapsed time of a window of entries as of `now`, detecting
/// alternation violations and totals no one-day window could produce.
///
/// The result is a pure function of the entries and of `now`: summarizing
/// never mutates anything, and two calls on the same window agree.
pub fn summarize_entries(entries: &Vec<Entry>, now: i64) -> (r: Result<i64, TrackError>)
    requires
        sorted_by_time(entries@),
        bounded_instants(entries@),
        valid_instant(now),
    ensures
        spec_summarize(entries@, now as int) matches Ok(t) ==> r == Ok::<i64, TrackError>(
            t as i64,
        ),
        spec_summarize(entries@, now as int) matches Err(e) ==> r == Err::<i64, TrackError>(e),
        entries@.len() == 0 ==> r == Ok::<i64, TrackError>(0),
        r is Ok ==> -SECONDS_PER_DAY < r->Ok_0 < SECONDS_PER_DAY,
{
    let n = entries.len();
    let mut acc: i64 = 0;
    let mut open_begin: Option<i64> = None;
    let mut i: usize = 0;
    while i < n
        invariant
            n == entries.len(),
            0 <= i <= n,
            sorted_by_time(entries@),
            bounded_instants(entries@),
            spec_fold(entries@.take(i as int)) == Ok::<(Option<int>, int), CorruptionKind>(
                (opt_instant(open_begin), acc as int),
            ),
            0 <= acc,
            open_begin matches Some(b) ==> 1 <= i && entries@[0].timestamp <= b
                && b <= entries@[i - 1].timestamp && acc <= b - entries@[0].timestamp,
            (open_begin is None && 1 <= i) ==> acc <= entries@[i - 1].timestamp
                - entries@[0].timestamp,
            i == 0 ==> acc == 0 && open_begin is None,
        decreases n - i,
    {
        let e = entries[i];
        proof {
            assert(entries@.take(i + 1).drop_last() =~= entries@.take(i as int));
            assert(entries@.take(i + 1).last() == entries@[i as int]);
        }
        match e.kind {
            EntryKind::Begin => {
                match open_begin {
                    Some(_) => {
                        proof {
                            lemma_fold_err_prefix(entries@, i + 1);
                        }
                        return Err(TrackError::CorruptedLedger {
                            corruption: CorruptionKind::OverlappingBegin { at: e.timestamp },
                        });
                    },
                    None => {
                        open_begin = Some(e.timestamp);
                    },
                }
            },
            EntryKind::End => {
                match open_begin {
                    Some(b) => {
                        proof {
                            assert(valid_instant(entries@[0].timestamp));
                            assert(valid_instant(e.timestamp));
                            assert(b <= e.timestamp);
                        }
                        let d = e.timestamp - b;
                        acc = acc + d;
                        open_begin = None;
                    },
                    None => {
                        proof {
                            lemma_fold_err_prefix(entries@, i + 1);
                        }
                        return Err(TrackError::CorruptedLedger {
                            corruption: CorruptionKind::DanglingEnd { at: e.timestamp },
                        });
                    },
                }
            },
        }
        i = i + 1;
    }
    proof {
        assert(entries@.take(n as int) =~= entries@);
    }
    let total: i64 = match open_begin {
        Some(b) => {
            proof {
                assert(valid_instant(b));
                assert(valid_instant(entries@[0].timestamp));
            }
            let d = now - b;
            acc + d
        },
        None => acc,
    };
    if -SECONDS_PER_DAY < total && total < SECONDS_PER_DAY {
        Ok(total)
    } else {
        Err(TrackError::CorruptedLedger { corruption: CorruptionKind::DurationOutOfBounds })
    }
}

/// Splits a nonnegative sub-day duration in seconds into whole hours and
/// the remaining minutes, truncating the seconds.
pub fn hours_minutes(total: i64) -> (hm: (i64, i64))
    requires
        0 <= total < SECONDS_PER_DAY,
    ensures
        hm.0 == total as int / 3600,
        hm.1 == (total as int / 60) % 60,
        0 <= hm.0 < 24,
        0 <= hm.1 < 60,
{
    let h = total / 3600;
    let m = (total / 60) % 60;
    (h, m)
}

/// Law: an End inside a window that closes no open period is never passed
/// over: summarizing that window reports the dangling End as corruption,
/// whatever `now` is.
pub proof fn lemma_dangling_end_detected(s: Seq<Entry>, k: int, now: int)
    requires
        0 <= k < s.len(),
        s[k].kind is End,
        spec_fold(s.take(k)) matches Ok(st) && st.0 is None,
    ensures
        spec_summarize(s, now) == Err::<int, TrackError>(
            TrackError::CorruptedLedger { corruption: CorruptionKind::DanglingEnd {
                at: s[k].timestamp,
            } },
        ),
{
    assert(s.take(k + 1).drop_last() =~= s.take(k));
    assert(s.take(k + 1).last() == s[k]);
    assert(spec_fold(s.take(k + 1)) == Err::<(Option<int>, int), CorruptionKind>(
        CorruptionKind::DanglingEnd { at: s[k].timestamp },
    ));
    lemma_fold_err_prefix(s, k + 1);
}

} // verus!
