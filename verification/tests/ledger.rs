use std::collections::HashMap;
use std::sync::atomic::{AtomicU64, Ordering};
use std::sync::Arc;

use ingestion_consumer::{
    Charge, EpochOffsets, LedgerMismatch, LedgerMode, LedgerObserver, Offset, OffsetSpan,
};

fn span(last: i64) -> OffsetSpan {
    OffsetSpan { first: last, last }
}

fn new_observer() -> (Arc<AtomicU64>, LedgerObserver) {
    let epoch = Arc::new(AtomicU64::new(1));
    let observer = LedgerObserver::new(LedgerMode::Shadow);
    (epoch, observer)
}

fn batch(epoch: u64, offsets: Vec<Offset>) -> EpochOffsets {
    EpochOffsets { epoch, offsets }
}

fn now(epoch: &Arc<AtomicU64>) -> u64 {
    epoch.load(Ordering::Relaxed)
}

#[test]
fn matching_frontier_is_drained_after_comparison() {
    let (epoch, mut observer) = new_observer();
    observer.charge("events", 0, 1, now(&epoch), &[(Offset(10), Charge::zero())]);
    observer.charge("events", 0, 1, now(&epoch), &[(Offset(11), Charge::zero())]);

    let topic_partition = ("events".to_string(), 0);
    let completed = [(
        topic_partition.clone(),
        batch(1, vec![Offset(10), Offset(11)]),
    )];
    let offset_spans = [(topic_partition, span(11))];

    assert!(observer
        .complete_and_compare(&completed, &offset_spans)
        .is_empty());
    assert_eq!(observer.depth("events", 0), 0);
}

#[test]
fn revoked_partitions_drop_their_ledger() {
    let (epoch, mut observer) = new_observer();
    observer.charge("events", 0, 1, now(&epoch), &[(Offset(10), Charge::zero())]);
    observer.forget_partitions(&[("events", 0)]);

    assert_eq!(observer.depth("events", 0), 0);
}

#[test]
fn mismatch_does_not_drain_offsets_above_an_incomplete_prefix() {
    let (epoch, mut observer) = new_observer();
    observer.charge("events", 0, 1, now(&epoch), &[(Offset(10), Charge::zero())]);
    observer.charge("events", 0, 1, now(&epoch), &[(Offset(11), Charge::zero())]);

    let topic_partition = ("events".to_string(), 0);
    let completed = [(topic_partition.clone(), batch(1, vec![Offset(11)]))];
    let offset_spans = [(topic_partition.clone(), span(11))];

    assert_eq!(
        observer.complete_and_compare(&completed, &offset_spans),
        vec![LedgerMismatch {
            topic_partition: topic_partition.clone(),
            committed: 12,
            frontier: None,
        }]
    );
    assert_eq!(observer.depth("events", 0), 2);

    // The late completion arrives with the next batch: clean compare,
    // and the held offsets drain.
    let completed = [(topic_partition.clone(), batch(1, vec![Offset(10)]))];
    let offset_spans = [(topic_partition, span(11))];
    assert!(observer
        .complete_and_compare(&completed, &offset_spans)
        .is_empty());
    assert_eq!(observer.depth("events", 0), 0);
}

#[test]
fn a_batch_spanning_partitions_settles_each_independently() {
    let (epoch, mut observer) = new_observer();
    observer.charge(
        "events",
        0,
        1,
        now(&epoch),
        &[(Offset(10), Charge::zero()), (Offset(11), Charge::zero())],
    );
    observer.charge(
        "events",
        1,
        1,
        now(&epoch),
        &[(Offset(20), Charge::zero()), (Offset(21), Charge::zero())],
    );

    let settled = ("events".to_string(), 0);
    let held = ("events".to_string(), 1);
    let completed = [
        (settled.clone(), batch(1, vec![Offset(10), Offset(11)])),
        (held.clone(), batch(1, vec![Offset(21)])),
    ];
    let offset_spans = [(settled.clone(), span(11)), (held.clone(), span(21))];

    let mismatches = observer.complete_and_compare(&completed, &offset_spans);
    assert_eq!(mismatches.len(), 1);
    assert_eq!(mismatches[0].topic_partition, held);
    assert_eq!(
        observer.depth("events", 0),
        0,
        "the settled partition drains"
    );
    assert_eq!(
        observer.depth("events", 1),
        2,
        "the held partition keeps its offsets"
    );
}

#[test]
fn frontiers_map_carries_only_partitions_with_a_frontier() {
    let epoch = Arc::new(AtomicU64::new(1));
    let mut observer = LedgerObserver::new(LedgerMode::Commit);
    assert!(observer.owns_commits());
    assert!(!LedgerObserver::new(LedgerMode::Shadow).owns_commits());

    observer.charge("events", 0, 1, now(&epoch), &[(Offset(10), Charge::zero())]);
    observer.charge("events", 1, 1, now(&epoch), &[(Offset(10), Charge::zero())]);
    observer.charge("events", 1, 1, now(&epoch), &[(Offset(11), Charge::zero())]);

    let done = ("events".to_string(), 0);
    let held = ("events".to_string(), 1);
    let completed = [
        (done.clone(), batch(1, vec![Offset(10)])),
        (held.clone(), batch(1, vec![Offset(11)])),
    ];
    let offset_spans = [(done.clone(), span(10)), (held.clone(), span(11))];

    let (frontiers, mismatches) =
        observer.complete_and_compare_frontiers(&completed, &offset_spans);
    let frontiers: HashMap<_, _> = frontiers.into_iter().collect();
    assert_eq!(frontiers, HashMap::from([(done, Offset(11))]));
    assert_eq!(
        mismatches.len(),
        1,
        "the partition with no frontier compares as a mismatch"
    );
}

#[test]
fn only_take_frontiers_drains_the_ledgers() {
    let epoch = Arc::new(AtomicU64::new(1));
    let mut observer = LedgerObserver::new(LedgerMode::Commit);
    observer.charge("events", 0, 1, now(&epoch), &[(Offset(10), Charge::zero())]);

    let topic_partition = ("events".to_string(), 0);
    let completed = [(topic_partition.clone(), batch(1, vec![Offset(10)]))];
    let offset_spans = [(topic_partition, span(10))];
    observer.complete_and_compare_frontiers(&completed, &offset_spans);
    assert_eq!(observer.depth("events", 0), 1, "observing does not consume");

    observer.take_frontiers(&completed);
    assert_eq!(observer.depth("events", 0), 0);
}

#[test]
fn take_frontiers_skips_a_forgotten_partition() {
    let epoch = Arc::new(AtomicU64::new(1));
    let mut observer = LedgerObserver::new(LedgerMode::Commit);
    observer.charge("events", 0, 1, now(&epoch), &[(Offset(10), Charge::zero())]);
    observer.forget_partitions(&[("events", 0)]);

    let topic_partition = ("events".to_string(), 0);
    let completed = [(topic_partition.clone(), batch(1, vec![Offset(10)]))];
    observer.take_frontiers(&completed);
}

#[test]
fn completions_for_a_forgotten_partition_are_skipped() {
    let (epoch, mut observer) = new_observer();
    observer.charge("events", 0, 1, now(&epoch), &[(Offset(10), Charge::zero())]);
    observer.forget_partitions(&[("events", 0)]);

    let topic_partition = ("events".to_string(), 0);
    let completed = [(topic_partition.clone(), batch(1, vec![Offset(10)]))];
    let offset_spans = [(topic_partition, span(10))];

    assert!(observer
        .complete_and_compare(&completed, &offset_spans)
        .is_empty());
}

#[test]
fn partitions_are_keyed_by_topic_and_partition() {
    let (epoch, mut observer) = new_observer();
    observer.charge("events", 0, 1, now(&epoch), &[(Offset(10), Charge::zero())]);
    observer.charge("overflow", 0, 1, now(&epoch), &[(Offset(10), Charge::zero())]);

    let topic_partition = ("events".to_string(), 0);
    let completed = [(topic_partition.clone(), batch(1, vec![Offset(10)]))];
    let offset_spans = [(topic_partition, span(10))];
    assert!(observer
        .complete_and_compare(&completed, &offset_spans)
        .is_empty());

    assert_eq!(observer.depth("events", 0), 0);
    assert_eq!(observer.depth("overflow", 0), 1);
}

#[test]
fn stale_completions_from_a_previous_assignment_are_dropped() {
    let (epoch, mut observer) = new_observer();
    observer.charge("events", 0, 1, now(&epoch), &[(Offset(10), Charge::zero())]);

    // The partition is revoked and reassigned to this consumer while the
    // batch is still in flight; the replay recharges the same offset.
    observer.forget_partitions(&[("events", 0)]);
    epoch.store(2, Ordering::Relaxed);
    observer.charge("events", 0, 2, now(&epoch), &[(Offset(10), Charge::zero())]);

    let topic_partition = ("events".to_string(), 0);
    let completed = [(topic_partition.clone(), batch(1, vec![Offset(10)]))];
    let offset_spans = [(topic_partition.clone(), span(10))];
    assert!(observer
        .complete_and_compare(&completed, &offset_spans)
        .is_empty());
    assert_eq!(
        observer.depth("events", 0),
        1,
        "the replayed offset stays uncompleted"
    );

    // The replay's own completion settles the new assignment's ledger.
    let completed = [(topic_partition.clone(), batch(2, vec![Offset(10)]))];
    let offset_spans = [(topic_partition, span(10))];
    assert!(observer
        .complete_and_compare(&completed, &offset_spans)
        .is_empty());
    assert_eq!(observer.depth("events", 0), 0);
}

#[test]
fn an_epoch_spanning_batch_drops_only_the_reassigned_partition() {
    let (epoch, mut observer) = new_observer();
    observer.charge("events", 0, 1, now(&epoch), &[(Offset(10), Charge::zero())]);
    observer.charge("events", 1, 1, now(&epoch), &[(Offset(20), Charge::zero())]);

    // Only partition 0 is revoked and reassigned; the epoch bump is
    // global.
    observer.forget_partitions(&[("events", 0)]);
    epoch.store(2, Ordering::Relaxed);
    observer.charge("events", 0, 2, now(&epoch), &[(Offset(10), Charge::zero())]);

    let reassigned = ("events".to_string(), 0);
    let untouched = ("events".to_string(), 1);
    let completed = [
        (reassigned.clone(), batch(1, vec![Offset(10)])),
        (untouched.clone(), batch(1, vec![Offset(20)])),
    ];
    let offset_spans = [(reassigned.clone(), span(10)), (untouched.clone(), span(20))];

    assert!(observer
        .complete_and_compare(&completed, &offset_spans)
        .is_empty());
    assert_eq!(
        observer.depth("events", 0),
        1,
        "the reassigned partition ignores the stale completion"
    );
    assert_eq!(
        observer.depth("events", 1),
        0,
        "the untouched partition completes and drains"
    );
}

#[test]
fn slices_spanning_an_unrelated_epoch_bump_still_charge() {
    let (epoch, mut observer) = new_observer();
    observer.charge("events", 1, 1, now(&epoch), &[(Offset(20), Charge::zero())]);

    // Another partition's reassignment bumps the epoch; this partition's
    // ledger survives and its old-stamped slice must not be lost.
    epoch.store(2, Ordering::Relaxed);
    observer.charge("events", 1, 1, now(&epoch), &[(Offset(21), Charge::zero())]);
    assert_eq!(observer.depth("events", 1), 2);

    let topic_partition = ("events".to_string(), 1);
    let completed = [(
        topic_partition.clone(),
        batch(1, vec![Offset(20), Offset(21)]),
    )];
    let offset_spans = [(topic_partition, span(21))];
    assert!(observer
        .complete_and_compare(&completed, &offset_spans)
        .is_empty());
    assert_eq!(observer.depth("events", 1), 0, "no message is lost");
}

#[test]
fn a_partition_lost_for_an_epoch_returns_under_a_later_epoch() {
    let (epoch, mut observer) = new_observer();
    observer.charge("events", 0, 1, now(&epoch), &[(Offset(10), Charge::zero())]);

    // The partition leaves for another consumer, then returns two
    // assignments later; the in-flight batch settles in between.
    observer.forget_partitions(&[("events", 0)]);
    epoch.store(3, Ordering::Relaxed);

    let topic_partition = ("events".to_string(), 0);
    let completed = [(topic_partition.clone(), batch(1, vec![Offset(10)]))];
    let offset_spans = [(topic_partition.clone(), span(10))];
    assert!(observer
        .complete_and_compare(&completed, &offset_spans)
        .is_empty());
    assert_eq!(observer.depth("events", 0), 0, "no ledger, nothing lands");

    observer.charge("events", 0, 3, now(&epoch), &[(Offset(10), Charge::zero())]);
    let completed = [(topic_partition.clone(), batch(3, vec![Offset(10)]))];
    let offset_spans = [(topic_partition, span(10))];
    assert!(observer
        .complete_and_compare(&completed, &offset_spans)
        .is_empty());
    assert_eq!(observer.depth("events", 0), 0);
}

#[test]
fn batches_from_older_epochs_settle_against_a_surviving_ledger() {
    let (epoch, mut observer) = new_observer();
    observer.charge("events", 1, 1, now(&epoch), &[(Offset(20), Charge::zero())]);
    epoch.store(2, Ordering::Relaxed);
    observer.charge("events", 1, 2, now(&epoch), &[(Offset(21), Charge::zero())]);
    epoch.store(4, Ordering::Relaxed);

    // Both in-flight batches predate the current epoch; the partition was
    // never revoked, so both must land.
    let topic_partition = ("events".to_string(), 1);
    let completed = [(topic_partition.clone(), batch(1, vec![Offset(20)]))];
    let offset_spans = [(topic_partition.clone(), span(20))];
    assert!(observer
        .complete_and_compare(&completed, &offset_spans)
        .is_empty());

    let completed = [(topic_partition.clone(), batch(2, vec![Offset(21)]))];
    let offset_spans = [(topic_partition, span(21))];
    assert!(observer
        .complete_and_compare(&completed, &offset_spans)
        .is_empty());
    assert_eq!(observer.depth("events", 1), 0, "no message is lost");
}

#[test]
fn slices_from_every_older_epoch_cannot_refound_a_dropped_ledger() {
    let (epoch, mut observer) = new_observer();
    observer.charge("events", 0, 1, now(&epoch), &[(Offset(10), Charge::zero())]);
    observer.forget_partitions(&[("events", 0)]);
    epoch.store(3, Ordering::Relaxed);

    observer.charge("events", 0, 1, now(&epoch), &[(Offset(10), Charge::zero())]);
    observer.charge("events", 0, 2, now(&epoch), &[(Offset(10), Charge::zero())]);
    assert_eq!(observer.depth("events", 0), 0);

    observer.charge("events", 0, 3, now(&epoch), &[(Offset(10), Charge::zero())]);
    assert_eq!(observer.depth("events", 0), 1);
}

#[test]
fn charges_buffered_before_a_rebalance_are_dropped() {
    let (epoch, mut observer) = new_observer();
    epoch.store(2, Ordering::Relaxed);

    observer.charge("events", 0, 1, now(&epoch), &[(Offset(10), Charge::zero())]);

    assert_eq!(observer.depth("events", 0), 0);
}
