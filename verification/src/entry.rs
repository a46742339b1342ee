//! The stored fact (an instant tagged Begin or End), the codes under which
//! its kind is persisted, and the engine's error taxonomy.

use vstd::prelude::*;

verus! {

/// Whether a stored event opens or closes a work period.
#[derive(Clone, Copy, Debug, PartialEq, Eq, Structural)]
pub enum EntryKind {
    Begin,
    End,
}

/// One immutable stored fact: an instant, in whole seconds since the epoch,
/// tagged as the begin or the end of a work period.
#[derive(Clone, Copy, Debug, PartialEq, Eq, Structural)]
pub struct Entry {
    pub timestamp: i64,
    pub kind: EntryKind,
}

/// How a ledger window violates the alternation rules.
#[derive(Clone, Copy, Debug, PartialEq, Eq, Structural)]
pub enum CorruptionKind {
    /// An end event with no period open before it in the window.
    DanglingEnd { at: i64 },
    /// A begin event while another period was already open in the window.
    OverlappingBegin { at: i64 },
    /// The summed duration reaches a full day or more, which a one-day
    /// window can never yield from an intact ledger.
    DurationOutOfBounds,
}

/// Every failure the tracking engine can report.
#[derive(Clone, Copy, Debug, PartialEq, Eq, Structural)]
pub enum TrackError {
    /// A period is already running; it began at this instant.
    AlreadyRunning { started_at: i64 },
    /// No period is running; the last one ended at this instant.
    AlreadyIdle { ended_at: i64 },
    /// The ledger is empty, so there is nothing to end.
    NoPeriodToEnd,
    /// More than one entry shares the maximum timestamp, so there is no
    /// single most recent entry to decide by.
    AmbiguousLedgerState,
    /// The ledger contents violate the alternation rules.
    CorruptedLedger { corruption: CorruptionKind },
    /// A stored kind code outside the known set.
    UnknownEntryKind { code: i64 },
}

/// The code under which a kind is persisted: 0 for Begin, 1 for End.
pub open spec fn spec_kind_code(k: EntryKind) -> i64 {
    match k {
        EntryKind::Begin => 0,
        EntryKind::End => 1,
    }
}

/// What decoding a stored kind code yields: the kind for 0 and 1, the
/// typed error for anything else.
pub open spec fn spec_decode_kind(code: i64) -> Result<EntryKind, TrackError> {
    if code == 0 {
        Ok(EntryKind::Begin)
    } else if code == 1 {
        Ok(EntryKind::End)
    } else {
        Err(TrackError::UnknownEntryKind { code })
    }
}

/// The code under which a kind is persisted.
pub fn kind_code(k: EntryKind) -> (code: i64)
    ensures
        code == spec_kind_code(k),
{
    match k {
        EntryKind::Begin => 0,
        EntryKind::End => 1,
    }
}

/// Decodes a stored kind code, rejecting any code outside the known set.
pub fn decode_kind(code: i64) -> (r: Result<EntryKind, TrackError>)
    ensures
        r == spec_decode_kind(code),
{
    if code == 0 {
        Ok(EntryKind::Begin)
    } else if code == 1 {
        Ok(EntryKind::End)
    } else {
        Err(TrackError::UnknownEntryKind { code })
    }
}

/// Decodes one stored row, given as plain column values, into an entry.
pub fn decode_entry(timestamp: i64, code: i64) -> (r: Result<Entry, TrackError>)
    ensures
        (code == 0 || code == 1) ==> r == Ok::<Entry, TrackError>(
            Entry { timestamp, kind: spec_decode_kind(code)->Ok_0 },
        ),
        !(code == 0 || code == 1) ==> r == Err::<Entry, TrackError>(
            TrackError::UnknownEntryKind { code },
        ),
{
    match decode_kind(code) {
        Ok(kind) => Ok(Entry { timestamp, kind }),
        Err(e) => Err(e),
    }
}

/// Law: a kind encoded to its stored code and decoded again is unchanged.
pub proof fn lemma_kind_code_round_trip(k: EntryKind)
    ensures
        spec_decode_kind(spec_kind_code(k)) == Ok::<EntryKind, TrackError>(k),
{
}

} // verus!
