use ingestion_consumer::{
    Admission, Charge, EpochOffsets, LedgerMismatch, LedgerMode, LedgerObserver, MismatchDirection,
    Offset, OffsetLedger, OffsetSpan, Slot,
};

fn z(o: i64) -> (Offset, Charge) {
    (Offset(o), Charge::zero())
}

#[test]
fn zero_charge_is_zero() {
    assert_eq!(Charge::zero(), Charge(0));
}

#[test]
fn an_empty_ledger_has_no_frontier() {
    let ledger = OffsetLedger::new();
    assert_eq!(ledger.len(), 0);
    assert_eq!(ledger.frontier(), None);
}

#[test]
fn frontier_stops_at_the_first_pending_offset() {
    let mut ledger = OffsetLedger::new();
    ledger.charge(&[z(10), z(11), z(12)]);
    ledger.complete(&[Offset(10), Offset(12)]);
    assert_eq!(ledger.frontier(), Some(Offset(11)));
    assert_eq!(ledger.len(), 3);
}

#[test]
fn a_pending_first_offset_means_no_frontier() {
    let mut ledger = OffsetLedger::new();
    ledger.charge(&[z(10), z(11)]);
    ledger.complete(&[Offset(11)]);
    assert_eq!(ledger.frontier(), None);
}

#[test]
fn all_completed_frontier_is_one_past_the_last() {
    let mut ledger = OffsetLedger::new();
    ledger.charge(&[z(7), z(9)]);
    ledger.complete(&[Offset(9), Offset(7)]);
    assert_eq!(ledger.frontier(), Some(Offset(10)));
    assert_eq!(ledger.take_frontier(), Some(Offset(10)));
    assert_eq!(ledger.len(), 0);
}

#[test]
fn take_frontier_removes_only_the_completed_prefix() {
    let mut ledger = OffsetLedger::new();
    ledger.charge(&[z(10), z(11), z(12), z(13)]);
    ledger.complete(&[Offset(10), Offset(11), Offset(13)]);
    assert_eq!(ledger.take_frontier(), Some(Offset(12)));
    assert_eq!(ledger.len(), 2);
    // What is left starts with a pending offset: nothing more to take.
    assert_eq!(ledger.frontier(), None);
    assert_eq!(ledger.take_frontier(), None);
    assert_eq!(ledger.len(), 2);
    ledger.complete(&[Offset(12)]);
    assert_eq!(ledger.frontier(), Some(Offset(14)));
}

#[test]
fn completing_more_never_moves_the_frontier_back() {
    let mut ledger = OffsetLedger::new();
    ledger.charge(&[z(1), z(2), z(3)]);
    ledger.complete(&[Offset(1)]);
    assert_eq!(ledger.frontier(), Some(Offset(2)));
    ledger.complete(&[Offset(3)]);
    assert_eq!(ledger.frontier(), Some(Offset(2)));
    ledger.complete(&[Offset(1), Offset(2)]);
    assert_eq!(ledger.frontier(), Some(Offset(4)));
}

#[test]
fn charges_out_of_order_take_their_place_in_offset_order() {
    let mut ledger = OffsetLedger::new();
    ledger.charge(&[z(12), z(10)]);
    ledger.charge(&[z(11)]);
    assert_eq!(ledger.len(), 3);
    ledger.complete(&[Offset(10)]);
    assert_eq!(ledger.frontier(), Some(Offset(11)));
    ledger.complete(&[Offset(11)]);
    assert_eq!(ledger.frontier(), Some(Offset(12)));
}

#[test]
fn completing_an_offset_the_ledger_does_not_hold_changes_nothing() {
    let mut ledger = OffsetLedger::new();
    ledger.charge(&[z(10)]);
    ledger.complete(&[Offset(99)]);
    assert_eq!(ledger.frontier(), None);
    assert_eq!(ledger.len(), 1);
}

#[test]
fn slots_keep_their_charge() {
    let slot = Slot { offset: 3, charge: Charge(5), completed: false };
    assert_eq!(slot.charge, Charge(5));
}

#[test]
fn charge_reports_why_a_slice_is_refused() {
    let mut observer = LedgerObserver::new(LedgerMode::Shadow);
    // No ledger, and the slice is from an older assignment.
    assert_eq!(observer.charge("t", 0, 1, 2, &[z(1)]), Admission::NoLedger);
    // The current assignment founds the ledger.
    assert_eq!(observer.charge("t", 0, 2, 2, &[z(1)]), Admission::Admitted);
    // A slice older than the ledger's assignment is stale.
    assert_eq!(observer.charge("t", 0, 1, 3, &[z(2)]), Admission::StaleEpoch);
    // A slice at or after the ledger's assignment charges, whatever the current epoch.
    assert_eq!(observer.charge("t", 0, 2, 5, &[z(2)]), Admission::Admitted);
    assert_eq!(observer.depth("t", 0), 2);
}

#[test]
fn completion_status_mirrors_the_straggler_checks() {
    let mut observer = LedgerObserver::new(LedgerMode::Shadow);
    let tp = ("t".to_string(), 4);
    assert_eq!(observer.completion_status(&tp, 1), Admission::NoLedger);
    observer.charge("t", 4, 2, 2, &[z(1)]);
    assert_eq!(observer.completion_status(&tp, 1), Admission::StaleEpoch);
    assert_eq!(observer.completion_status(&tp, 2), Admission::Admitted);
    assert_eq!(observer.completion_status(&tp, 3), Admission::Admitted);
}

#[test]
fn mismatch_direction() {
    let mut observer = LedgerObserver::new(LedgerMode::Commit);
    observer.charge("t", 0, 1, 1, &[z(10), z(11)]);
    let tp = ("t".to_string(), 0);
    let completed = [(tp.clone(), EpochOffsets { epoch: 1, offsets: vec![Offset(10), Offset(11)] })];
    let spans = [(tp.clone(), OffsetSpan { first: 10, last: 10 })];
    let (frontiers, mismatches) = observer.complete_and_compare_frontiers(&completed, &spans);
    assert_eq!(frontiers, vec![(tp.clone(), Offset(12))]);
    assert_eq!(
        mismatches,
        vec![LedgerMismatch { topic_partition: tp.clone(), committed: 11, frontier: Some(Offset(12)) }]
    );
    assert_eq!(mismatches[0].direction(), MismatchDirection::Ahead);

    let behind = LedgerMismatch { topic_partition: tp.clone(), committed: 12, frontier: Some(Offset(11)) };
    assert_eq!(behind.direction(), MismatchDirection::Behind);
    let none = LedgerMismatch { topic_partition: tp, committed: 12, frontier: None };
    assert_eq!(none.direction(), MismatchDirection::Behind);
}

#[test]
fn forgetting_keeps_other_partitions_and_lets_the_replay_charge() {
    let mut observer = LedgerObserver::new(LedgerMode::Shadow);
    observer.charge("t", 0, 1, 1, &[z(10), z(11)]);
    observer.charge("t", 1, 1, 1, &[z(5)]);
    observer.forget_partitions(&[("t", 0), ("u", 9)]);
    assert_eq!(observer.depth("t", 0), 0);
    assert_eq!(observer.depth("t", 1), 1);
    // The same offsets replay into a fresh ledger.
    assert_eq!(observer.charge("t", 0, 2, 2, &[z(10), z(11)]), Admission::Admitted);
    assert_eq!(observer.depth("t", 0), 2);
}

#[test]
fn comparing_reports_frontiers_only_for_admitted_completions() {
    let mut observer = LedgerObserver::new(LedgerMode::Commit);
    observer.charge("t", 0, 2, 2, &[z(10)]);
    let tp = ("t".to_string(), 0);
    // A completion from an older assignment reports nothing and changes nothing.
    let stale = [(tp.clone(), EpochOffsets { epoch: 1, offsets: vec![Offset(10)] })];
    let spans = [(tp.clone(), OffsetSpan { first: 10, last: 10 })];
    let (frontiers, mismatches) = observer.complete_and_compare_frontiers(&stale, &spans);
    assert!(frontiers.is_empty());
    assert!(mismatches.is_empty());
    assert_eq!(observer.completion_status(&tp, 2), Admission::Admitted);
    observer.take_frontiers(&stale);
    assert_eq!(observer.depth("t", 0), 1);
}

#[test]
fn holds_names_the_offsets_a_ledger_keeps() {
    let mut ledger = OffsetLedger::new();
    ledger.charge(&[z(4), z(8)]);
    assert!(ledger.holds(Offset(4)));
    assert!(ledger.holds(Offset(8)));
    assert!(!ledger.holds(Offset(6)));

    let mut observer = LedgerObserver::new(LedgerMode::Shadow);
    observer.charge("t", 0, 1, 1, &[z(4)]);
    assert!(observer.holds("t", 0, Offset(4)));
    assert!(!observer.holds("t", 0, Offset(5)));
    assert!(!observer.holds("t", 1, Offset(4)));
    assert!(!observer.holds("u", 0, Offset(4)));
}

#[test]
fn charge_status_predicts_the_charge() {
    let mut observer = LedgerObserver::new(LedgerMode::Shadow);
    assert_eq!(observer.charge_status("t", 0, 1, 2), Admission::NoLedger);
    assert_eq!(observer.charge_status("t", 0, 2, 2), Admission::Admitted);
    observer.charge("t", 0, 2, 2, &[z(1)]);
    assert_eq!(observer.charge_status("t", 0, 1, 2), Admission::StaleEpoch);
    assert_eq!(observer.charge_status("t", 0, 3, 5), Admission::Admitted);
}

#[test]
fn ledger_epoch_is_the_founding_assignment() {
    let mut observer = LedgerObserver::new(LedgerMode::Shadow);
    let tp = ("t".to_string(), 0);
    assert_eq!(observer.ledger_epoch(&tp), None);
    observer.charge("t", 0, 3, 3, &[z(1)]);
    // A later slice charges without changing the ledger's epoch.
    observer.charge("t", 0, 5, 5, &[z(2)]);
    assert_eq!(observer.ledger_epoch(&tp), Some(3));
}

#[test]
fn completion_order_within_a_batch_does_not_matter() {
    let run = |first: usize| {
        let mut observer = LedgerObserver::new(LedgerMode::Shadow);
        observer.charge("t", 0, 1, 1, &[z(10), z(11)]);
        observer.charge("t", 1, 1, 1, &[z(20), z(21)]);
        let a = (("t".to_string(), 0), EpochOffsets { epoch: 1, offsets: vec![Offset(10)] });
        let b = (("t".to_string(), 1), EpochOffsets { epoch: 1, offsets: vec![Offset(21)] });
        let completed = if first == 0 { [a, b] } else { [b, a] };
        let spans = [
            (("t".to_string(), 0), OffsetSpan { first: 10, last: 10 }),
            (("t".to_string(), 1), OffsetSpan { first: 21, last: 21 }),
        ];
        let mismatches = observer.complete_and_compare(&completed, &spans);
        (mismatches.len(), observer.depth("t", 0), observer.depth("t", 1))
    };
    assert_eq!(run(0), (1, 1, 2));
    assert_eq!(run(1), (1, 1, 2));
}
