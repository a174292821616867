//! Offset ledgers for a Kafka ingestion consumer.
//!
//! `offset_ledger` keeps, for one partition, the offsets that were delivered
//! and not yet committed, and which of them have completed; the frontier is the
//! next offset to read after the longest completed prefix. `observer` keeps one
//! ledger per topic partition, stamped with the assignment epoch that founded
//! it, and decides which charges and completions belong to it.

pub mod observer;
pub mod offset_ledger;

pub use observer::{Admission, EpochOffsets, LedgerMismatch, LedgerMode, LedgerObserver, MismatchDirection, OffsetSpan, TopicPartition};
pub use offset_ledger::{Charge, Offset, OffsetLedger, Slot};
