use tracc::entry::decode_entry;
use tracc::entry::decode_kind;
use tracc::entry::kind_code;
use tracc::entry::CorruptionKind;
use tracc::entry::Entry;
use tracc::entry::EntryKind;
use tracc::entry::TrackError;
use tracc::ledger::end_decision;
use tracc::ledger::start_decision;
use tracc::ledger::Ledger;
use tracc::summary::hours_minutes;
use tracc::summary::summarize_entries;

// Instants are seconds since the epoch; the first stored day is [0, 86400).

#[test]
fn aggregation_with_open_period() {
    // Begin at 09:00, End at 12:00, Begin at 13:00; asked at 13:30 the
    // closed period gives 3:00 and the open one 0:30.
    let mut l = Ledger::new();
    assert_eq!(l.start_period(32400), Ok(()));
    assert_eq!(l.end_period(43200), Ok(()));
    assert_eq!(l.start_period(46800), Ok(()));
    assert_eq!(l.summarize_range(48600, 0, 86400), Ok(12600));
    assert_eq!(hours_minutes(12600), (3, 30));
}

#[test]
fn aggregation_asked_an_hour_later() {
    let mut l = Ledger::new();
    assert_eq!(l.start_period(32400), Ok(()));
    assert_eq!(l.end_period(43200), Ok(()));
    assert_eq!(l.start_period(46800), Ok(()));
    assert_eq!(l.summarize_range(52200, 0, 86400), Ok(16200));
    assert_eq!(hours_minutes(16200), (4, 30));
}

#[test]
fn start_fails_only_while_running() {
    let mut l = Ledger::new();
    assert_eq!(l.start_period(100), Ok(()));
    assert_eq!(l.start_period(200), Err(TrackError::AlreadyRunning { started_at: 100 }));
    assert_eq!(l.end_period(300), Ok(()));
    assert_eq!(l.end_period(400), Err(TrackError::AlreadyIdle { ended_at: 300 }));
    assert_eq!(l.start_period(500), Ok(()));
}

#[test]
fn decisions_follow_most_recent_entry() {
    let begin = Entry { timestamp: 10, kind: EntryKind::Begin };
    let end = Entry { timestamp: 20, kind: EntryKind::End };
    assert_eq!(start_decision(None), Ok(()));
    assert_eq!(start_decision(Some(end)), Ok(()));
    assert_eq!(
        start_decision(Some(begin)),
        Err(TrackError::AlreadyRunning { started_at: 10 })
    );
    assert_eq!(end_decision(None), Err(TrackError::NoPeriodToEnd));
    assert_eq!(end_decision(Some(begin)), Ok(()));
    assert_eq!(end_decision(Some(end)), Err(TrackError::AlreadyIdle { ended_at: 20 }));
}

#[test]
fn end_on_empty_ledger_fails() {
    let mut l = Ledger::new();
    assert_eq!(l.end_period(100), Err(TrackError::NoPeriodToEnd));
    assert_eq!(l.list_all().len(), 0);
}

#[test]
fn empty_ledger_summarizes_to_zero() {
    let l = Ledger::new();
    assert_eq!(l.summarize_range(50000, 0, 86400), Ok(0));
    assert_eq!(hours_minutes(0), (0, 0));
}

#[test]
fn each_success_stores_exactly_one_entry() {
    let mut l = Ledger::new();
    assert_eq!(l.start_period(100), Ok(()));
    assert_eq!(*l.list_all(), vec![Entry { timestamp: 100, kind: EntryKind::Begin }]);
    assert_eq!(l.end_period(200), Ok(()));
    assert_eq!(
        *l.list_all(),
        vec![
            Entry { timestamp: 100, kind: EntryKind::Begin },
            Entry { timestamp: 200, kind: EntryKind::End },
        ]
    );
    // A refused call stores nothing.
    assert_eq!(l.end_period(300), Err(TrackError::AlreadyIdle { ended_at: 200 }));
    assert_eq!(l.list_all().len(), 2);
}

#[test]
fn reads_do_not_mutate() {
    let mut l = Ledger::new();
    assert_eq!(l.start_period(1000), Ok(()));
    assert_eq!(l.end_period(2000), Ok(()));
    let first = l.list_all().clone();
    let second = l.list_all().clone();
    assert_eq!(first, second);
    let s1 = l.summarize_range(3000, 0, 86400);
    let s2 = l.summarize_range(3000, 0, 86400);
    assert_eq!(s1, Ok(1000));
    assert_eq!(s1, s2);
    assert_eq!(*l.list_all(), first);
}

#[test]
fn dangling_end_is_reported() {
    let window = vec![Entry { timestamp: 36000, kind: EntryKind::End }];
    assert_eq!(
        summarize_entries(&window, 40000),
        Err(TrackError::CorruptedLedger {
            corruption: CorruptionKind::DanglingEnd { at: 36000 }
        })
    );
}

#[test]
fn dangling_end_in_window_of_later_day() {
    // A period spanning midnight: its End falls alone into the second
    // day's window, where it closes no period begun in that window.
    let mut l = Ledger::new();
    assert_eq!(l.start_period(43200), Ok(()));
    assert_eq!(l.end_period(122400), Ok(()));
    assert_eq!(
        l.summarize_range(130000, 86400, 172800),
        Err(TrackError::CorruptedLedger {
            corruption: CorruptionKind::DanglingEnd { at: 122400 }
        })
    );
}

#[test]
fn overlapping_begin_is_reported() {
    let window = vec![
        Entry { timestamp: 100, kind: EntryKind::Begin },
        Entry { timestamp: 200, kind: EntryKind::Begin },
    ];
    assert_eq!(
        summarize_entries(&window, 300),
        Err(TrackError::CorruptedLedger {
            corruption: CorruptionKind::OverlappingBegin { at: 200 }
        })
    );
}

#[test]
fn total_of_a_day_or_more_is_reported() {
    let window = vec![
        Entry { timestamp: 0, kind: EntryKind::Begin },
        Entry { timestamp: 90000, kind: EntryKind::End },
    ];
    assert_eq!(
        summarize_entries(&window, 95000),
        Err(TrackError::CorruptedLedger {
            corruption: CorruptionKind::DurationOutOfBounds
        })
    );
}

#[test]
fn kind_codes_round_trip() {
    assert_eq!(kind_code(EntryKind::Begin), 0);
    assert_eq!(kind_code(EntryKind::End), 1);
    assert_eq!(decode_kind(kind_code(EntryKind::Begin)), Ok(EntryKind::Begin));
    assert_eq!(decode_kind(kind_code(EntryKind::End)), Ok(EntryKind::End));
}

#[test]
fn stored_entry_round_trips() {
    assert_eq!(
        decode_entry(500, 0),
        Ok(Entry { timestamp: 500, kind: EntryKind::Begin })
    );
    assert_eq!(
        decode_entry(500, 1),
        Ok(Entry { timestamp: 500, kind: EntryKind::End })
    );
    let mut l = Ledger::new();
    assert_eq!(l.start_period(900), Ok(()));
    assert_eq!(
        l.most_recent(),
        Ok(Some(Entry { timestamp: 900, kind: EntryKind::Begin }))
    );
}

#[test]
fn unknown_kind_code_is_rejected() {
    assert_eq!(decode_kind(2), Err(TrackError::UnknownEntryKind { code: 2 }));
    assert_eq!(decode_entry(500, 7), Err(TrackError::UnknownEntryKind { code: 7 }));
    assert_eq!(decode_entry(500, -1), Err(TrackError::UnknownEntryKind { code: -1 }));
}

#[test]
fn tied_maximum_timestamp_is_ambiguous() {
    let mut l = Ledger::new();
    assert_eq!(l.start_period(100), Ok(()));
    assert_eq!(l.end_period(100), Ok(()));
    assert_eq!(l.start_period(200), Err(TrackError::AmbiguousLedgerState));
    assert_eq!(l.end_period(200), Err(TrackError::AmbiguousLedgerState));
    assert_eq!(l.most_recent(), Err(TrackError::AmbiguousLedgerState));
    assert_eq!(l.list_all().len(), 2);
}

#[test]
fn open_period_counts_up_to_now() {
    let mut l = Ledger::new();
    assert_eq!(l.start_period(32400), Ok(()));
    assert_eq!(l.summarize_range(36000, 0, 86400), Ok(3600));
    assert_eq!(hours_minutes(3600), (1, 0));
}

#[test]
fn range_keeps_only_the_window() {
    let mut l = Ledger::new();
    assert_eq!(l.start_period(1000), Ok(()));
    assert_eq!(l.end_period(2000), Ok(()));
    assert_eq!(l.start_period(90000), Ok(()));
    assert_eq!(l.end_period(95000), Ok(()));
    assert_eq!(
        l.range(0, 86400),
        vec![
            Entry { timestamp: 1000, kind: EntryKind::Begin },
            Entry { timestamp: 2000, kind: EntryKind::End },
        ]
    );
    assert_eq!(l.summarize_range(100000, 0, 86400), Ok(1000));
    assert_eq!(l.summarize_range(100000, 86400, 172800), Ok(5000));
}

#[test]
fn hours_and_minutes_truncate_seconds() {
    assert_eq!(hours_minutes(3661), (1, 1));
    assert_eq!(hours_minutes(59), (0, 0));
    assert_eq!(hours_minutes(86399), (23, 59));
    assert_eq!(hours_minutes(60), (0, 1));
}
