//! Core of a personal time tracker: an append-only ledger of Begin/End
//! events with timestamps, the alternation rules for appending new events,
//! and the fold that sums elapsed work time over a window.

pub mod entry;
pub mod ledger;
pub mod summary;

pub use entry::Entry;
pub use entry::EntryKind;
pub use entry::TrackError;
