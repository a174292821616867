use vstd::prelude::*;

use crate::offset_ledger::{
    Charge, Offset, OffsetLedger, Slot, chargeable, holds_offset, drained, fresh_slots, frontier_of, marked,
    slots_wf, lemma_frontier_is_safe, lemma_marking_never_lowers_frontier,
    lemma_ordered_slots_determined, lemma_drain_splits, lemma_drained_has_no_frontier,
};

verus! {

/// Which side owns the Kafka commit: the commit spans (the ledgers only
/// shadow them), or the ledgers' frontiers.
#[derive(Clone, Copy, Debug, PartialEq, Eq)]
pub enum LedgerMode {
    Shadow,
    Commit,
}

/// A topic and a partition number.
pub type TopicPartition = (String, i32);

/// One batch's ledger offsets for one partition, stamped with the assignment
/// epoch that was current when they were buffered.
#[derive(Debug)]
pub struct EpochOffsets {
    pub epoch: u64,
    pub offsets: Vec<Offset>,
}

/// The offsets of one partition that one commit covers.
#[derive(Clone, Copy, Debug, PartialEq, Eq)]
pub struct OffsetSpan {
    pub first: i64,
    pub last: i64,
}

/// A mismatch between the current commit calculation and the ledger frontier.
#[derive(Debug, PartialEq, Eq)]
pub struct LedgerMismatch {
    pub topic_partition: TopicPartition,
    pub committed: i64,
    pub frontier: Option<Offset>,
}

/// Whether a charge or a completion reaches a ledger, and if not, why.
#[derive(Clone, Copy, Debug, PartialEq, Eq)]
pub enum Admission {
    /// It reaches the partition's ledger.
    Admitted,
    /// The ledger belongs to a newer assignment than the work.
    StaleEpoch,
    /// The partition has no ledger, and the work may not found one.
    NoLedger,
}

/// On which side of the committed offset a mismatching frontier lies.
#[derive(Clone, Copy, Debug, PartialEq, Eq)]
pub enum MismatchDirection {
    Ahead,
    Behind,
}

/// One assignment's ledger of one partition. Work stamped with an earlier
/// epoch belongs to a previous assignment of the partition, and its offsets
/// replay under this one.
struct PartitionLedger {
    topic: String,
    partition: i32,
    epoch: u64,
    ledger: OffsetLedger,
}

/// Maintains the offset ledgers and, in commit mode, supplies the frontier
/// the consumer commits.
pub struct LedgerObserver {
    mode: LedgerMode,
    partitions: Vec<PartitionLedger>,
}

/// A partition as the model names it.
pub type PartitionKey = (Seq<char>, i32);

/// A partition's ledger in the model: the epoch that founded it, and its
/// outstanding slots.
pub type PartitionState = (u64, Seq<Slot>);

/// All ledgers in the model.
pub type LedgerMap = Map<PartitionKey, PartitionState>;

/// A completion in the model: partition, batch epoch, completed offsets.
pub type CompletionView = (PartitionKey, u64, Seq<Offset>);

/// A commit span in the model.
pub type SpanView = (PartitionKey, OffsetSpan);

/// A mismatch in the model: partition, committed offset, frontier.
pub type MismatchView = (PartitionKey, i64, Option<Offset>);

pub open spec fn key_view(tp: TopicPartition) -> PartitionKey {
    (tp.0@, tp.1)
}

pub open spec fn completion_view(c: (TopicPartition, EpochOffsets)) -> CompletionView {
    (key_view(c.0), c.1.epoch, c.1.offsets@)
}

pub open spec fn completion_views(cs: Seq<(TopicPartition, EpochOffsets)>) -> Seq<CompletionView> {
    cs.map_values(|c: (TopicPartition, EpochOffsets)| completion_view(c))
}

pub open spec fn span_views(ss: Seq<(TopicPartition, OffsetSpan)>) -> Seq<SpanView> {
    ss.map_values(|s: (TopicPartition, OffsetSpan)| (key_view(s.0), s.1))
}

pub open spec fn frontier_views(fs: Seq<(TopicPartition, Offset)>) -> Seq<(PartitionKey, Offset)> {
    fs.map_values(|f: (TopicPartition, Offset)| (key_view(f.0), f.1))
}

pub open spec fn mismatch_view(m: LedgerMismatch) -> MismatchView {
    (key_view(m.topic_partition), m.committed, m.frontier)
}

pub open spec fn mismatch_views(ms: Seq<LedgerMismatch>) -> Seq<MismatchView> {
    ms.map_values(|m: LedgerMismatch| mismatch_view(m))
}

/// Whether a slice stamped `epoch` may charge partition `k`, while the
/// current assignment epoch is `current`. A ledger founded by a newer
/// assignment refuses it; with no ledger, only a slice from the current
/// assignment may found one.
pub open spec fn charge_admission(v: LedgerMap, k: PartitionKey, epoch: u64, current: u64) -> Admission {
    if v.contains_key(k) {
        if epoch < v[k].0 {
            Admission::StaleEpoch
        } else {
            Admission::Admitted
        }
    } else if epoch != current {
        Admission::NoLedger
    } else {
        Admission::Admitted
    }
}

/// Whether a completion stamped `epoch` reaches partition `k`'s ledger.
pub open spec fn completion_admission(v: LedgerMap, k: PartitionKey, epoch: u64) -> Admission {
    if !v.contains_key(k) {
        Admission::NoLedger
    } else if epoch < v[k].0 {
        Admission::StaleEpoch
    } else {
        Admission::Admitted
    }
}

/// The slots a charge of partition `k` starts from.
pub open spec fn base_slots(v: LedgerMap, k: PartitionKey) -> Seq<Slot> {
    if v.contains_key(k) {
        v[k].1
    } else {
        Seq::empty()
    }
}

/// `result` is `base` with `batch` charged: in offset order, and holding
/// exactly the slots of `base` and a pending slot for each charged offset.
pub open spec fn charged_from(base: Seq<Slot>, batch: Seq<(Offset, Charge)>, result: Seq<Slot>) -> bool {
    &&& slots_wf(result)
    &&& result.len() == base.len() + batch.len()
    &&& result.to_set() == base.to_set().union(fresh_slots(batch).to_set())
}

/// One completion applied to the ledgers.
pub open spec fn complete_one(v: LedgerMap, c: CompletionView) -> LedgerMap {
    if completion_admission(v, c.0, c.1) is Admitted {
        v.insert(c.0, (v[c.0].0, marked(v[c.0].1, c.2)))
    } else {
        v
    }
}

/// The completions applied to the ledgers one after another.
#[verifier::opaque]
pub open spec fn after_completions(v: LedgerMap, cs: Seq<CompletionView>) -> LedgerMap
    decreases cs.len(),
{
    if cs.len() == 0 {
        v
    } else {
        complete_one(after_completions(v, cs.drop_last()), cs.last())
    }
}

/// The frontier of partition `c.0` once `c` has been applied to `v`.
pub open spec fn frontier_after(v: LedgerMap, c: CompletionView) -> Option<Offset> {
    frontier_of(complete_one(v, c)[c.0].1)
}

/// The frontiers that the completions produce, in their order: one for each
/// admitted completion whose ledger then has a frontier.
#[verifier::opaque]
pub open spec fn frontiers_after(v: LedgerMap, cs: Seq<CompletionView>) -> Seq<(PartitionKey, Offset)>
    decreases cs.len(),
{
    if cs.len() == 0 {
        Seq::empty()
    } else {
        let prev = frontiers_after(v, cs.drop_last());
        let w = after_completions(v, cs.drop_last());
        let c = cs.last();
        if completion_admission(w, c.0, c.1) is Admitted && frontier_after(w, c) is Some {
            prev.push((c.0, frontier_after(w, c)->0))
        } else {
            prev
        }
    }
}

/// The first span of partition `k` at or after position `i`.
pub open spec fn span_from(ss: Seq<SpanView>, i: int, k: PartitionKey) -> Option<OffsetSpan>
    decreases ss.len() - i,
{
    if i < 0 || i >= ss.len() {
        None
    } else if ss[i].0 == k {
        Some(ss[i].1)
    } else {
        span_from(ss, i + 1, k)
    }
}

/// The commit span of partition `k`.
pub open spec fn span_for(ss: Seq<SpanView>, k: PartitionKey) -> Option<OffsetSpan> {
    span_from(ss, 0, k)
}

/// The offset the commit path submits for partition `k`: next-to-read after
/// the span.
pub open spec fn committed_for(ss: Seq<SpanView>, k: PartitionKey) -> i64 {
    (span_for(ss, k)->0.last + 1) as i64
}

/// Every admitted completion has a commit span whose successor an `i64`
/// holds.
pub open spec fn spans_ready(v: LedgerMap, cs: Seq<CompletionView>, ss: Seq<SpanView>) -> bool {
    forall|i: int|
        #![trigger cs[i]]
        0 <= i < cs.len() && completion_admission(after_completions(v, cs.take(i)), cs[i].0, cs[i].1)
            is Admitted ==> span_for(ss, cs[i].0) is Some && span_for(ss, cs[i].0)->0.last < i64::MAX
}

/// The mismatches that the completions produce, in their order: one for each
/// admitted completion whose frontier is not the committed offset.
#[verifier::opaque]
pub open spec fn mismatches_after(v: LedgerMap, cs: Seq<CompletionView>, ss: Seq<SpanView>) -> Seq<MismatchView>
    decreases cs.len(),
{
    if cs.len() == 0 {
        Seq::empty()
    } else {
        let prev = mismatches_after(v, cs.drop_last(), ss);
        let w = after_completions(v, cs.drop_last());
        let c = cs.last();
        let committed = committed_for(ss, c.0);
        if completion_admission(w, c.0, c.1) is Admitted && frontier_after(w, c) != Some(Offset(committed)) {
            prev.push((c.0, committed, frontier_after(w, c)))
        } else {
            prev
        }
    }
}

/// One completion's drain applied to the ledgers.
pub open spec fn take_one(v: LedgerMap, c: CompletionView) -> LedgerMap {
    if completion_admission(v, c.0, c.1) is Admitted {
        v.insert(c.0, (v[c.0].0, drained(v[c.0].1)))
    } else {
        v
    }
}

/// The drains applied one after another.
#[verifier::opaque]
pub open spec fn after_takes(v: LedgerMap, cs: Seq<CompletionView>) -> LedgerMap
    decreases cs.len(),
{
    if cs.len() == 0 {
        v
    } else {
        take_one(after_takes(v, cs.drop_last()), cs.last())
    }
}

/// The partitions a revocation names.
pub open spec fn revoked_keys(revoked: Seq<(&str, i32)>) -> Set<PartitionKey> {
    Set::new(|k: PartitionKey| exists|j: int| 0 <= j < revoked.len() && (revoked[j].0@, revoked[j].1) == k)
}

/// The outstanding offsets of partition `k`, none where it has no ledger.
pub open spec fn depth_of(v: LedgerMap, k: PartitionKey) -> nat {
    if v.contains_key(k) {
        v[k].1.len()
    } else {
        0
    }
}

/// Every ledger is in offset order.
pub open spec fn ledgers_wf(v: LedgerMap) -> bool {
    forall|k: PartitionKey| #[trigger] v.contains_key(k) ==> slots_wf(v[k].1)
}

/// Every outstanding offset of `s` below `f` has completed.
pub open spec fn safe_below(s: Seq<Slot>, f: Offset) -> bool {
    forall|i: int| 0 <= i < s.len() && s[i].offset < f.0 ==> #[trigger] s[i].completed
}

/// A charge's result is fixed: two ledgers charged from the same slots with
/// the same batch are the same.
pub proof fn lemma_charge_result_determined(
    base: Seq<Slot>,
    batch: Seq<(Offset, Charge)>,
    r1: Seq<Slot>,
    r2: Seq<Slot>,
)
    requires
        charged_from(base, batch, r1),
        charged_from(base, batch, r2),
    ensures
        r1 == r2,
{
    lemma_ordered_slots_determined(r1, r2);
}

/// Comparing does not consume: completions keep every partition, its epoch
/// and its number of outstanding offsets, and keep every ledger in offset
/// order.
pub proof fn lemma_completions_keep_shape(v: LedgerMap, cs: Seq<CompletionView>)
    ensures
        after_completions(v, cs).dom() == v.dom(),
        forall|k: PartitionKey| #[trigger] v.contains_key(k) ==> after_completions(v, cs)[k].0 == v[k].0
            && after_completions(v, cs)[k].1.len() == v[k].1.len(),
        ledgers_wf(v) ==> ledgers_wf(after_completions(v, cs)),
    decreases cs.len(),
{
    reveal(after_completions);
    if cs.len() > 0 {
        lemma_completions_keep_shape(v, cs.drop_last());
        let u = after_completions(v, cs.drop_last());
        let c = cs.last();
        if completion_admission(u, c.0, c.1) is Admitted {
            assert(complete_one(u, c).dom() =~= u.dom());
            if ledgers_wf(v) {
                lemma_marking_never_lowers_frontier(u[c.0].1, c.2);
            }
        }
    }
}

/// Draining keeps every partition and its epoch, and keeps every ledger in
/// offset order.
pub proof fn lemma_takes_keep_partitions(v: LedgerMap, cs: Seq<CompletionView>)
    ensures
        after_takes(v, cs).dom() == v.dom(),
        forall|k: PartitionKey| #[trigger] v.contains_key(k) ==> after_takes(v, cs)[k].0 == v[k].0,
        ledgers_wf(v) ==> ledgers_wf(after_takes(v, cs)),
    decreases cs.len(),
{
    reveal(after_takes);
    if cs.len() > 0 {
        lemma_takes_keep_partitions(v, cs.drop_last());
        let u = after_takes(v, cs.drop_last());
        let c = cs.last();
        if completion_admission(u, c.0, c.1) is Admitted {
            assert(take_one(u, c).dom() =~= u.dom());
            if ledgers_wf(v) {
                let s = u[c.0].1;
                lemma_drain_splits(s);
                let d = drained(s);
                assert forall|a: int, b: int| 0 <= a < b < d.len() implies d[a].offset < d[b].offset by {
                    assert(d[a] == s[a + (s.len() - d.len())]);
                    assert(d[b] == s[b + (s.len() - d.len())]);
                }
                assert forall|a: int| 0 <= a < d.len() implies d[a].offset < i64::MAX by {
                    assert(d[a] == s[a + (s.len() - d.len())]);
                }
            }
        }
    }
}

/// The drain after a comparison goes by the same straggler checks as the
/// comparison: completions change no partition's admission.
pub proof fn lemma_completions_keep_admission(v: LedgerMap, cs: Seq<CompletionView>, k: PartitionKey, epoch: u64)
    ensures
        completion_admission(after_completions(v, cs), k, epoch) == completion_admission(v, k, epoch),
{
    lemma_completions_keep_shape(v, cs);
    if v.contains_key(k) {
        assert(after_completions(v, cs).contains_key(k));
    } else {
        assert(!after_completions(v, cs).dom().contains(k));
    }
}

/// Ledgers are kept per topic and partition: completions and drains of other
/// partitions leave partition `k` as it was.
pub proof fn lemma_other_partitions_untouched(v: LedgerMap, cs: Seq<CompletionView>, k: PartitionKey)
    requires
        forall|i: int| 0 <= i < cs.len() ==> (#[trigger] cs[i]).0 != k,
    ensures
        after_completions(v, cs).contains_key(k) == v.contains_key(k),
        after_takes(v, cs).contains_key(k) == v.contains_key(k),
        v.contains_key(k) ==> after_completions(v, cs)[k] == v[k] && after_takes(v, cs)[k] == v[k],
    decreases cs.len(),
{
    reveal(after_completions);
    reveal(after_takes);
    if cs.len() > 0 {
        let d = cs.drop_last();
        assert forall|i: int| 0 <= i < d.len() implies (#[trigger] d[i]).0 != k by {
            assert(d[i] == cs[i]);
        }
        assert(cs.last() == cs[cs.len() - 1]);
        lemma_other_partitions_untouched(v, d, k);
    }
}

/// Stragglers change nothing: where no completion reaches a ledger, the
/// ledgers stay as they were, and there is no frontier and no mismatch to
/// report.
pub proof fn lemma_stragglers_change_nothing(v: LedgerMap, cs: Seq<CompletionView>, ss: Seq<SpanView>)
    requires
        forall|i: int| 0 <= i < cs.len() ==> !(completion_admission(v, (#[trigger] cs[i]).0, cs[i].1) is Admitted),
    ensures
        after_completions(v, cs) == v,
        after_takes(v, cs) == v,
        frontiers_after(v, cs).len() == 0,
        mismatches_after(v, cs, ss).len() == 0,
    decreases cs.len(),
{
    reveal(after_completions);
    reveal(after_takes);
    reveal(frontiers_after);
    reveal(mismatches_after);
    if cs.len() > 0 {
        let d = cs.drop_last();
        assert forall|i: int| 0 <= i < d.len() implies !(completion_admission(v, (#[trigger] d[i]).0, d[i].1) is Admitted) by {
            assert(d[i] == cs[i]);
        }
        assert(cs.last() == cs[cs.len() - 1]);
        lemma_stragglers_change_nothing(v, d, ss);
    }
}

/// Every frontier reported for a commit is safe: in the partition's ledger as
/// the completions leave it, every outstanding offset below the frontier has
/// completed, so committing it skips no message.
pub proof fn lemma_reported_frontiers_are_safe(v: LedgerMap, cs: Seq<CompletionView>)
    requires
        ledgers_wf(v),
    ensures
        forall|x: int| 0 <= x < frontiers_after(v, cs).len() ==> {
            let e = #[trigger] frontiers_after(v, cs)[x];
            after_completions(v, cs).contains_key(e.0) && safe_below(after_completions(v, cs)[e.0].1, e.1)
        },
    decreases cs.len(),
{
    reveal(after_completions);
    reveal(frontiers_after);
    if cs.len() > 0 {
        let d = cs.drop_last();
        lemma_reported_frontiers_are_safe(v, d);
        lemma_completions_keep_shape(v, d);
        let u = after_completions(v, d);
        let c = cs.last();
        let u2 = complete_one(u, c);
        let prev = frontiers_after(v, d);
        let fs = frontiers_after(v, cs);
        assert forall|x: int| 0 <= x < fs.len() implies {
            let e = #[trigger] fs[x];
            u2.contains_key(e.0) && safe_below(u2[e.0].1, e.1)
        } by {
            let e = fs[x];
            if x < prev.len() {
                assert(e == prev[x]);
                assert(u.contains_key(e.0) && safe_below(u[e.0].1, e.1));
                if completion_admission(u, c.0, c.1) is Admitted && e.0 == c.0 {
                    let s = u[e.0].1;
                    let t = marked(s, c.2);
                    assert(u2[e.0].1 == t);
                    assert forall|i: int| 0 <= i < t.len() && t[i].offset < e.1.0 implies #[trigger] t[i].completed by {
                        assert(s[i].completed);
                    }
                }
            } else {
                assert(completion_admission(u, c.0, c.1) is Admitted);
                lemma_marking_never_lowers_frontier(u[c.0].1, c.2);
                lemma_frontier_is_safe(u2[c.0].1);
            }
        }
    }
}

/// Forgetting a revoked partition makes room for its replay: a slice of the
/// current assignment then founds a fresh ledger, and any batch of distinct
/// offsets with successors can be charged to it, the offsets the old ledger
/// held included.
pub proof fn lemma_forgotten_partition_accepts_replay(
    v: LedgerMap,
    revoked: Seq<(&str, i32)>,
    j: int,
    current: u64,
    batch: Seq<(Offset, Charge)>,
)
    requires
        0 <= j < revoked.len(),
        forall|a: int| 0 <= a < batch.len() ==> batch[a].0.0 < i64::MAX,
        forall|a: int, b: int| 0 <= a < b < batch.len() ==> batch[a].0.0 != batch[b].0.0,
    ensures
        ({
            let w = v.remove_keys(revoked_keys(revoked));
            let k = (revoked[j].0@, revoked[j].1);
            &&& !w.contains_key(k)
            &&& charge_admission(w, k, current, current) is Admitted
            &&& base_slots(w, k) == Seq::<Slot>::empty()
            &&& chargeable(base_slots(w, k), batch)
        }),
{
    let k = (revoked[j].0@, revoked[j].1);
    assert(revoked_keys(revoked).contains(k));
}

/// No two completions name the same partition (a batch completes each
/// partition once).
pub open spec fn distinct_partitions(cs: Seq<CompletionView>) -> bool {
    forall|a: int, b: int| 0 <= a < b < cs.len() ==> cs[a].0 != cs[b].0
}

/// With one completion per partition, each lands on its own partition as if
/// it were alone: the order of the batch does not matter.
pub proof fn lemma_completion_lands_alone(v: LedgerMap, cs: Seq<CompletionView>, i: int)
    requires
        distinct_partitions(cs),
        0 <= i < cs.len(),
    ensures
        after_completions(v, cs).contains_key(cs[i].0) == v.contains_key(cs[i].0),
        v.contains_key(cs[i].0) ==> after_completions(v, cs)[cs[i].0] == complete_one(v, cs[i])[cs[i].0],
        after_takes(v, cs).contains_key(cs[i].0) == v.contains_key(cs[i].0),
        v.contains_key(cs[i].0) ==> after_takes(v, cs)[cs[i].0] == take_one(v, cs[i])[cs[i].0],
    decreases cs.len(),
{
    reveal(after_completions);
    reveal(after_takes);
    let k = cs[i].0;
    let d = cs.drop_last();
    let last = cs.len() - 1;
    assert(cs.last() == cs[last]);
    if i == last {
        assert forall|j: int| 0 <= j < d.len() implies (#[trigger] d[j]).0 != k by {
            assert(d[j] == cs[j]);
        }
        lemma_other_partitions_untouched(v, d, k);
    } else {
        assert(distinct_partitions(d)) by {
            assert forall|a: int, b: int| 0 <= a < b < d.len() implies d[a].0 != d[b].0 by {
                assert(d[a] == cs[a]);
                assert(d[b] == cs[b]);
            }
        }
        assert(d[i] == cs[i]);
        lemma_completion_lands_alone(v, d, i);
        assert(cs[last].0 != k);
    }
}

/// With one completion per partition, the batch's effect on each partition
/// is that partition's own completion: an admitted completion (the partition
/// has a ledger and the batch is stamped at or after its founding epoch)
/// marks the offsets it names and keeps the epoch, and its drain then drops
/// the completed prefix; a partition that no admitted completion names keeps
/// its ledger as it was. No partition is added or removed.
pub proof fn lemma_completions_pointwise(v: LedgerMap, cs: Seq<CompletionView>, k: PartitionKey)
    requires
        distinct_partitions(cs),
    ensures
        after_completions(v, cs).contains_key(k) == v.contains_key(k),
        after_takes(v, cs).contains_key(k) == v.contains_key(k),
        forall|i: int|
            0 <= i < cs.len() && (#[trigger] cs[i]).0 == k && v.contains_key(k) && cs[i].1 >= v[k].0
                ==> after_completions(v, cs)[k] == (v[k].0, marked(v[k].1, cs[i].2)) && after_takes(v, cs)[k]
                == (v[k].0, drained(v[k].1)),
        v.contains_key(k) && (forall|i: int| 0 <= i < cs.len() && (#[trigger] cs[i]).0 == k ==> cs[i].1 < v[k].0)
            ==> after_completions(v, cs)[k] == v[k] && after_takes(v, cs)[k] == v[k],
{
    if exists|i: int| 0 <= i < cs.len() && (#[trigger] cs[i]).0 == k {
        let i = choose|i: int| 0 <= i < cs.len() && (#[trigger] cs[i]).0 == k;
        lemma_completion_lands_alone(v, cs, i);
        assert forall|i2: int| 0 <= i2 < cs.len() && (#[trigger] cs[i2]).0 == k implies i2 == i by {
            if i2 != i {
                if i2 < i {
                    assert(cs[i2].0 != cs[i].0);
                } else {
                    assert(cs[i].0 != cs[i2].0);
                }
            }
        }
    } else {
        assert forall|j: int| 0 <= j < cs.len() implies (#[trigger] cs[j]).0 != k by {}
        lemma_other_partitions_untouched(v, cs, k);
    }
}

/// Every reported frontier and mismatch names a partition of the batch.
proof fn lemma_report_keys(v: LedgerMap, cs: Seq<CompletionView>, ss: Seq<SpanView>)
    ensures
        forall|x: int| 0 <= x < frontiers_after(v, cs).len() ==> exists|j: int|
            0 <= j < cs.len() && (#[trigger] cs[j]).0 == (#[trigger] frontiers_after(v, cs)[x]).0,
        forall|x: int| 0 <= x < mismatches_after(v, cs, ss).len() ==> exists|j: int|
            0 <= j < cs.len() && (#[trigger] cs[j]).0 == (#[trigger] mismatches_after(v, cs, ss)[x]).0,
    decreases cs.len(),
{
    reveal(frontiers_after);
    reveal(mismatches_after);
    if cs.len() > 0 {
        let d = cs.drop_last();
        lemma_report_keys(v, d, ss);
        let last = cs.len() - 1;
        assert(cs.last() == cs[last]);
        let fp = frontiers_after(v, d);
        let fa = frontiers_after(v, cs);
        assert forall|x: int| 0 <= x < fa.len() implies exists|j: int|
            0 <= j < cs.len() && (#[trigger] cs[j]).0 == (#[trigger] fa[x]).0 by {
            if x < fp.len() {
                assert(fa[x] == fp[x]);
                let j = choose|j: int| 0 <= j < d.len() && (#[trigger] d[j]).0 == fp[x].0;
                assert(cs[j] == d[j]);
            } else {
                assert(fa[x].0 == cs[last].0);
            }
        }
        let mp = mismatches_after(v, d, ss);
        let ma = mismatches_after(v, cs, ss);
        assert forall|x: int| 0 <= x < ma.len() implies exists|j: int|
            0 <= j < cs.len() && (#[trigger] cs[j]).0 == (#[trigger] ma[x]).0 by {
            if x < mp.len() {
                assert(ma[x] == mp[x]);
                let j = choose|j: int| 0 <= j < d.len() && (#[trigger] d[j]).0 == mp[x].0;
                assert(cs[j] == d[j]);
            } else {
                assert(ma[x].0 == cs[last].0);
            }
        }
    }
}

/// With one completion per partition, what is reported for a partition is
/// fixed by its own completion: a frontier is reported exactly when the
/// completion is admitted and the marked ledger has a frontier, and it is
/// that frontier; a mismatch is reported exactly when the completion is
/// admitted and that frontier is not one past the last offset of the
/// partition's commit span, and it carries that frontier.
pub proof fn lemma_reports_pointwise(v: LedgerMap, cs: Seq<CompletionView>, ss: Seq<SpanView>, i: int)
    requires
        distinct_partitions(cs),
        0 <= i < cs.len(),
    ensures
        ({
            let k = cs[i].0;
            let admitted = v.contains_key(k) && cs[i].1 >= v[k].0;
            let f = frontier_of(marked(v[k].1, cs[i].2));
            let committed = (span_for(ss, k)->0.last + 1) as i64;
            &&& (exists|x: int| 0 <= x < frontiers_after(v, cs).len() && (#[trigger] frontiers_after(v, cs)[x]).0 == k)
                <==> (admitted && f is Some)
            &&& forall|x: int|
                0 <= x < frontiers_after(v, cs).len() && (#[trigger] frontiers_after(v, cs)[x]).0 == k ==> Some(
                    frontiers_after(v, cs)[x].1,
                ) == f
            &&& (exists|x: int| 0 <= x < mismatches_after(v, cs, ss).len() && (#[trigger] mismatches_after(v, cs, ss)[x]).0 == k)
                <==> (admitted && f != Some(Offset(committed)))
            &&& forall|x: int|
                0 <= x < mismatches_after(v, cs, ss).len() && (#[trigger] mismatches_after(v, cs, ss)[x]).0 == k
                    ==> mismatches_after(v, cs, ss)[x].2 == f && mismatches_after(v, cs, ss)[x].1 == committed
        }),
    decreases cs.len(),
{
    reveal(frontiers_after);
    reveal(mismatches_after);
    let k = cs[i].0;
    let d = cs.drop_last();
    let last = cs.len() - 1;
    assert(cs.last() == cs[last]);
    let fp = frontiers_after(v, d);
    let fa = frontiers_after(v, cs);
    let mp = mismatches_after(v, d, ss);
    let ma = mismatches_after(v, cs, ss);
    assert(distinct_partitions(d)) by {
        assert forall|a: int, b: int| 0 <= a < b < d.len() implies d[a].0 != d[b].0 by {
            assert(d[a] == cs[a]);
            assert(d[b] == cs[b]);
        }
    }
    if i == last {
        lemma_report_keys(v, d, ss);
        assert forall|j: int| 0 <= j < d.len() implies (#[trigger] d[j]).0 != k by {
            assert(d[j] == cs[j]);
        }
        lemma_other_partitions_untouched(v, d, k);
        assert forall|x: int| 0 <= x < fp.len() implies (#[trigger] fp[x]).0 != k by {
            let j = choose|j: int| 0 <= j < d.len() && (#[trigger] d[j]).0 == fp[x].0;
        }
        assert forall|x: int| 0 <= x < mp.len() implies (#[trigger] mp[x]).0 != k by {
            let j = choose|j: int| 0 <= j < d.len() && (#[trigger] d[j]).0 == mp[x].0;
        }
        let w = after_completions(v, d);
        assert(w.contains_key(k) == v.contains_key(k));
        if v.contains_key(k) {
            assert(w[k] == v[k]);
        }
        assert forall|x: int| 0 <= x < fa.len() && (#[trigger] fa[x]).0 == k implies x == fp.len() by {
            if x < fp.len() {
                assert(fa[x] == fp[x]);
            }
        }
        assert forall|x: int| 0 <= x < ma.len() && (#[trigger] ma[x]).0 == k implies x == mp.len() by {
            if x < mp.len() {
                assert(ma[x] == mp[x]);
            }
        }
        if fa.len() > fp.len() {
            assert(fa[fp.len() as int].0 == k);
        }
        if ma.len() > mp.len() {
            assert(ma[mp.len() as int].0 == k);
        }
    } else {
        assert(d[i] == cs[i]);
        lemma_reports_pointwise(v, d, ss, i);
        assert(cs[last].0 != k);
        assert forall|x: int| 0 <= x < fa.len() && (#[trigger] fa[x]).0 == k implies x < fp.len() && fa[x] == fp[x] by {
            if x >= fp.len() {
                assert(fa[x].0 == cs[last].0);
            }
        }
        assert forall|x: int| 0 <= x < ma.len() && (#[trigger] ma[x]).0 == k implies x < mp.len() && ma[x] == mp[x] by {
            if x >= mp.len() {
                assert(ma[x].0 == cs[last].0);
            }
        }
        if exists|x: int| 0 <= x < fp.len() && (#[trigger] fp[x]).0 == k {
            let x = choose|x: int| 0 <= x < fp.len() && (#[trigger] fp[x]).0 == k;
            assert(fa[x] == fp[x]);
        }
        if exists|x: int| 0 <= x < mp.len() && (#[trigger] mp[x]).0 == k {
            let x = choose|x: int| 0 <= x < mp.len() && (#[trigger] mp[x]).0 == k;
            assert(ma[x] == mp[x]);
        }
    }
}

/// Shadow mode settles each admitted partition at once: compared and then
/// drained, its ledger is the old one with the batch completed and the
/// completed prefix dropped, under the same epoch, and no frontier is left to
/// take.
pub proof fn lemma_shadow_completion_settles(v: LedgerMap, cs: Seq<CompletionView>, i: int)
    requires
        distinct_partitions(cs),
        0 <= i < cs.len(),
        completion_admission(v, cs[i].0, cs[i].1) is Admitted,
    ensures
        ({
            let k = cs[i].0;
            let r = after_takes(after_completions(v, cs), cs);
            &&& r.contains_key(k)
            &&& r[k] == (v[k].0, drained(marked(v[k].1, cs[i].2)))
            &&& frontier_of(r[k].1) is None
        }),
{
    let k = cs[i].0;
    let u = after_completions(v, cs);
    lemma_completion_lands_alone(v, cs, i);
    lemma_completion_lands_alone(u, cs, i);
    lemma_completions_keep_admission(v, cs, k, cs[i].1);
    lemma_drained_has_no_frontier(marked(v[k].1, cs[i].2));
}

/// No completions yet: the ledgers as they were, nothing reported.
proof fn lemma_no_completions(v: LedgerMap, cs: Seq<CompletionView>, ss: Seq<SpanView>)
    ensures
        after_completions(v, cs.take(0)) == v,
        after_takes(v, cs.take(0)) == v,
        frontiers_after(v, cs.take(0)) == Seq::<(PartitionKey, Offset)>::empty(),
        mismatches_after(v, cs.take(0), ss) == Seq::<MismatchView>::empty(),
{
    reveal(after_completions);
    reveal(after_takes);
    reveal(frontiers_after);
    reveal(mismatches_after);
    assert(cs.take(0) =~= Seq::<CompletionView>::empty());
}

/// One more drain: the ledgers after the first `i + 1` drains follow from
/// those after the first `i`.
proof fn lemma_take_step(v: LedgerMap, cs: Seq<CompletionView>, i: int)
    requires
        0 <= i < cs.len(),
    ensures
        after_takes(v, cs.take(i + 1)) == take_one(after_takes(v, cs.take(i)), cs[i]),
{
    reveal(after_takes);
    assert(cs.take(i + 1).drop_last() =~= cs.take(i));
    assert(cs.take(i + 1).last() == cs[i]);
}

/// One more completion: how the ledgers, the frontiers and the mismatches
/// after the first `i + 1` completions follow from those after the first `i`.
proof fn lemma_completion_step(v: LedgerMap, cs: Seq<CompletionView>, ss: Seq<SpanView>, i: int)
    requires
        0 <= i < cs.len(),
    ensures
        ({
            let w = after_completions(v, cs.take(i));
            let c = cs[i];
            let admitted = completion_admission(w, c.0, c.1) is Admitted;
            let committed = committed_for(ss, c.0);
            &&& after_completions(v, cs.take(i + 1)) == complete_one(w, c)
            &&& frontiers_after(v, cs.take(i + 1)) == (if admitted && frontier_after(w, c) is Some {
                frontiers_after(v, cs.take(i)).push((c.0, frontier_after(w, c)->0))
            } else {
                frontiers_after(v, cs.take(i))
            })
            &&& mismatches_after(v, cs.take(i + 1), ss) == (if admitted && frontier_after(w, c) != Some(Offset(committed)) {
                mismatches_after(v, cs.take(i), ss).push((c.0, committed, frontier_after(w, c)))
            } else {
                mismatches_after(v, cs.take(i), ss)
            })
        }),
{
    reveal(after_completions);
    reveal(frontiers_after);
    reveal(mismatches_after);
    assert(cs.take(i + 1).drop_last() =~= cs.take(i));
    assert(cs.take(i + 1).last() == cs[i]);
}

/// Which slices a ledger admits: on a partition with a ledger, exactly
/// those stamped at or after the ledger's founding epoch, whatever the
/// ledger holds; on a partition without one, exactly those stamped with the
/// current epoch.
pub proof fn lemma_charge_admission_rules(v: LedgerMap, k: PartitionKey, epoch: u64, current: u64)
    ensures
        v.contains_key(k) && epoch >= v[k].0 ==> charge_admission(v, k, epoch, current) == Admission::Admitted,
        v.contains_key(k) && epoch < v[k].0 ==> charge_admission(v, k, epoch, current) == Admission::StaleEpoch,
        !v.contains_key(k) && epoch == current ==> charge_admission(v, k, epoch, current) == Admission::Admitted,
        !v.contains_key(k) && epoch != current ==> charge_admission(v, k, epoch, current) == Admission::NoLedger,
{
}

/// Which completions reach a ledger: exactly those of a partition with a
/// ledger, stamped at or after its founding epoch.
pub proof fn lemma_completion_admission_rules(v: LedgerMap, k: PartitionKey, epoch: u64)
    ensures
        v.contains_key(k) && epoch >= v[k].0 ==> completion_admission(v, k, epoch) == Admission::Admitted,
        v.contains_key(k) && epoch < v[k].0 ==> completion_admission(v, k, epoch) == Admission::StaleEpoch,
        !v.contains_key(k) ==> completion_admission(v, k, epoch) == Admission::NoLedger,
{
}

/// A revocation names exactly its (topic, partition) pairs: forgetting drops
/// those ledgers and leaves every other partition as it was.
pub proof fn lemma_forget_only_named(v: LedgerMap, revoked: Seq<(&str, i32)>, k: PartitionKey)
    ensures
        (exists|j: int| 0 <= j < revoked.len() && (revoked[j].0@, revoked[j].1) == k) ==> !v.remove_keys(
            revoked_keys(revoked),
        ).contains_key(k),
        (forall|j: int| 0 <= j < revoked.len() ==> (revoked[j].0@, revoked[j].1) != k) ==> (v.remove_keys(
            revoked_keys(revoked),
        ).contains_key(k) == v.contains_key(k) && (v.contains_key(k) ==> v.remove_keys(revoked_keys(revoked))[k]
            == v[k])),
{
    if exists|j: int| 0 <= j < revoked.len() && (revoked[j].0@, revoked[j].1) == k {
        assert(revoked_keys(revoked).contains(k));
    }
}

/// The span found for a partition is its first span in the list.
proof fn lemma_span_from_first(ss: Seq<SpanView>, i: int, k: PartitionKey)
    requires
        0 <= i,
    ensures
        span_from(ss, i, k) matches Some(sp) ==> exists|j: int|
            i <= j < ss.len() && #[trigger] ss[j] == (k, sp) && (forall|a: int| i <= a < j ==> ss[a].0 != k),
    decreases ss.len() - i,
{
    if i < ss.len() && ss[i].0 != k {
        lemma_span_from_first(ss, i + 1, k);
    }
    if i < ss.len() && ss[i].0 == k {
        assert(ss[i] == (k, ss[i].1));
    }
}

/// Every mismatch reported carries as its committed offset the last offset
/// of the partition's commit span plus one (its first span in the list), and
/// a frontier that differs from it: a partition whose frontier is its span's
/// last offset plus one reports no mismatch.
pub proof fn lemma_mismatches_commit_span_last(v: LedgerMap, cs: Seq<CompletionView>, ss: Seq<SpanView>)
    requires
        spans_ready(v, cs, ss),
    ensures
        forall|x: int| 0 <= x < mismatches_after(v, cs, ss).len() ==> {
            let m = #[trigger] mismatches_after(v, cs, ss)[x];
            &&& exists|j: int|
                0 <= j < ss.len() && ss[j].0 == m.0 && m.1 == #[trigger] ss[j].1.last + 1 && (forall|a: int|
                    0 <= a < j ==> ss[a].0 != m.0)
            &&& m.2 != Some(Offset(m.1))
        },
    decreases cs.len(),
{
    reveal(mismatches_after);
    if cs.len() > 0 {
        let d = cs.drop_last();
        assert(spans_ready(v, d, ss)) by {
            assert forall|i: int|
                #![trigger d[i]]
                0 <= i < d.len() && completion_admission(after_completions(v, d.take(i)), d[i].0, d[i].1)
                    is Admitted implies span_for(ss, d[i].0) is Some && span_for(ss, d[i].0)->0.last < i64::MAX by {
                assert(d.take(i) =~= cs.take(i));
                assert(d[i] == cs[i]);
            }
        }
        lemma_mismatches_commit_span_last(v, d, ss);
        let prev = mismatches_after(v, d, ss);
        let all = mismatches_after(v, cs, ss);
        let w = after_completions(v, d);
        let c = cs.last();
        let last = cs.len() - 1;
        assert(cs.take(last) =~= d);
        assert(c == cs[last]);
        assert forall|x: int| 0 <= x < all.len() implies {
            let m = #[trigger] all[x];
            &&& exists|j: int|
                0 <= j < ss.len() && ss[j].0 == m.0 && m.1 == #[trigger] ss[j].1.last + 1 && (forall|a: int|
                    0 <= a < j ==> ss[a].0 != m.0)
            &&& m.2 != Some(Offset(m.1))
        } by {
            if x < prev.len() {
                assert(all[x] == prev[x]);
            } else {
                let sp = span_for(ss, c.0)->0;
                assert(span_for(ss, c.0) is Some);
                lemma_span_from_first(ss, 0, c.0);
                let j = choose|j: int|
                    0 <= j < ss.len() && #[trigger] ss[j] == (c.0, sp) && (forall|a: int| 0 <= a < j ==> ss[a].0 != c.0);
                assert(all[x].1 == ss[j].1.last + 1);
            }
        }
    }
}

/// The statement of `lemma_mismatches_commit_span_last`, carried from the
/// model to the mismatches and spans themselves.
proof fn lemma_mismatch_views_direct(
    ms: Seq<LedgerMismatch>,
    spans: Seq<(TopicPartition, OffsetSpan)>,
    model: Seq<MismatchView>,
)
    requires
        mismatch_views(ms) == model,
        forall|x: int| 0 <= x < model.len() ==> {
            let m = #[trigger] model[x];
            &&& exists|j: int|
                0 <= j < span_views(spans).len() && span_views(spans)[j].0 == m.0 && m.1
                    == #[trigger] span_views(spans)[j].1.last + 1 && (forall|a: int|
                    0 <= a < j ==> span_views(spans)[a].0 != m.0)
            &&& m.2 != Some(Offset(m.1))
        },
    ensures
        forall|x: int| 0 <= x < ms.len() ==> {
            let m = #[trigger] ms[x];
            &&& exists|j: int|
                0 <= j < spans.len() && (spans[j].0.0@, spans[j].0.1) == (m.topic_partition.0@, m.topic_partition.1)
                    && m.committed == #[trigger] spans[j].1.last + 1 && (forall|a: int|
                    0 <= a < j ==> (spans[a].0.0@, spans[a].0.1) != (m.topic_partition.0@, m.topic_partition.1))
            &&& m.frontier != Some(Offset(m.committed))
        },
{
    let ss = span_views(spans);
    assert forall|x: int| 0 <= x < ms.len() implies {
        let m = #[trigger] ms[x];
        &&& exists|j: int|
            0 <= j < spans.len() && (spans[j].0.0@, spans[j].0.1) == (m.topic_partition.0@, m.topic_partition.1)
                && m.committed == #[trigger] spans[j].1.last + 1 && (forall|a: int|
                0 <= a < j ==> (spans[a].0.0@, spans[a].0.1) != (m.topic_partition.0@, m.topic_partition.1))
        &&& m.frontier != Some(Offset(m.committed))
    } by {
        let m = ms[x];
        let mv = model[x];
        assert(mv == mismatch_view(m));
        let j = choose|j: int|
            0 <= j < ss.len() && ss[j].0 == mv.0 && mv.1 == #[trigger] ss[j].1.last + 1 && (forall|a: int|
                0 <= a < j ==> ss[a].0 != mv.0);
        assert(ss[j] == (key_view(spans[j].0), spans[j].1));
        assert forall|a: int| 0 <= a < j implies (spans[a].0.0@, spans[a].0.1) != (m.topic_partition.0@, m.topic_partition.1) by {
            assert(ss[a] == (key_view(spans[a].0), spans[a].1));
        }
    }
}

spec fn key_of(p: PartitionLedger) -> PartitionKey {
    (p.topic@, p.partition)
}

spec fn state_of(p: PartitionLedger) -> PartitionState {
    (p.epoch, p.ledger@)
}

spec fn distinct_keys(s: Seq<PartitionLedger>) -> bool {
    forall|i: int, j: int| 0 <= i < j < s.len() ==> key_of(s[i]) != key_of(s[j])
}

spec fn has_key(s: Seq<PartitionLedger>, k: PartitionKey) -> bool {
    exists|i: int| 0 <= i < s.len() && key_of(s[i]) == k
}

spec fn view_of(s: Seq<PartitionLedger>) -> LedgerMap {
    Map::new(
        |k: PartitionKey| has_key(s, k),
        |k: PartitionKey| state_of(s[choose|i: int| 0 <= i < s.len() && key_of(s[i]) == k]),
    )
}

proof fn lemma_view_index(s: Seq<PartitionLedger>, i: int)
    requires
        distinct_keys(s),
        0 <= i < s.len(),
    ensures
        view_of(s).contains_key(key_of(s[i])),
        view_of(s)[key_of(s[i])] == state_of(s[i]),
{
    let k = key_of(s[i]);
    assert(has_key(s, k));
    let j = choose|j: int| 0 <= j < s.len() && key_of(s[j]) == k;
    assert(j == i);
}

proof fn lemma_view_update(s: Seq<PartitionLedger>, i: int, p: PartitionLedger)
    requires
        distinct_keys(s),
        0 <= i < s.len(),
        key_of(p) == key_of(s[i]),
    ensures
        distinct_keys(s.update(i, p)),
        view_of(s.update(i, p)) =~= view_of(s).insert(key_of(p), state_of(p)),
{
    let t = s.update(i, p);
    assert(distinct_keys(t)) by {
        assert forall|a: int, b: int| 0 <= a < b < t.len() implies key_of(t[a]) != key_of(t[b]) by {
            assert(key_of(t[a]) == key_of(s[a]));
            assert(key_of(t[b]) == key_of(s[b]));
        }
    }
    assert forall|k: PartitionKey| has_key(t, k) == (has_key(s, k) || k == key_of(p)) by {
        if has_key(s, k) {
            let w = choose|w: int| 0 <= w < s.len() && key_of(s[w]) == k;
            assert(key_of(t[w]) == k);
        }
        if has_key(t, k) {
            let w = choose|w: int| 0 <= w < t.len() && key_of(t[w]) == k;
            assert(key_of(s[w]) == k);
        }
        if k == key_of(p) {
            assert(key_of(t[i]) == k);
        }
    }
    assert forall|k: PartitionKey| #[trigger] view_of(t).contains_key(k) implies view_of(t)[k]
        == view_of(s).insert(key_of(p), state_of(p))[k] by {
        let w = choose|w: int| 0 <= w < t.len() && key_of(t[w]) == k;
        lemma_view_index(t, w);
        if w != i {
            lemma_view_index(s, w);
        }
    }
}

proof fn lemma_view_push(s: Seq<PartitionLedger>, p: PartitionLedger)
    requires
        distinct_keys(s),
        !view_of(s).contains_key(key_of(p)),
    ensures
        distinct_keys(s.push(p)),
        view_of(s.push(p)) =~= view_of(s).insert(key_of(p), state_of(p)),
{
    let t = s.push(p);
    assert(distinct_keys(t)) by {
        assert forall|a: int, b: int| 0 <= a < b < t.len() implies key_of(t[a]) != key_of(t[b]) by {
            if b == s.len() {
                assert(key_of(t[a]) == key_of(s[a]));
            }
        }
    }
    assert forall|k: PartitionKey| has_key(t, k) == (has_key(s, k) || k == key_of(p)) by {
        if has_key(s, k) {
            let w = choose|w: int| 0 <= w < s.len() && key_of(s[w]) == k;
            assert(key_of(t[w]) == k);
        }
        if has_key(t, k) {
            let w = choose|w: int| 0 <= w < t.len() && key_of(t[w]) == k;
            if w < s.len() {
                assert(key_of(s[w]) == k);
            }
        }
        if k == key_of(p) {
            assert(key_of(t[s.len() as int]) == k);
        }
    }
    assert forall|k: PartitionKey| #[trigger] view_of(t).contains_key(k) implies view_of(t)[k]
        == view_of(s).insert(key_of(p), state_of(p))[k] by {
        let w = choose|w: int| 0 <= w < t.len() && key_of(t[w]) == k;
        lemma_view_index(t, w);
        if w < s.len() {
            lemma_view_index(s, w);
        }
    }
}

proof fn lemma_view_remove(s: Seq<PartitionLedger>, i: int)
    requires
        distinct_keys(s),
        0 <= i < s.len(),
    ensures
        distinct_keys(s.remove(i)),
        view_of(s.remove(i)) =~= view_of(s).remove(key_of(s[i])),
{
    let t = s.remove(i);
    let ki = key_of(s[i]);
    assert(distinct_keys(t)) by {
        assert forall|a: int, b: int| 0 <= a < b < t.len() implies key_of(t[a]) != key_of(t[b]) by {
            let sa = if a < i { a } else { a + 1 };
            let sb = if b < i { b } else { b + 1 };
            assert(t[a] == s[sa]);
            assert(t[b] == s[sb]);
        }
    }
    assert forall|k: PartitionKey| has_key(t, k) == (has_key(s, k) && k != ki) by {
        if has_key(s, k) && k != ki {
            let w = choose|w: int| 0 <= w < s.len() && key_of(s[w]) == k;
            if w < i {
                assert(key_of(t[w]) == k);
            } else {
                assert(w != i);
                assert(key_of(t[w - 1]) == k);
            }
        }
        if has_key(t, k) {
            let w = choose|w: int| 0 <= w < t.len() && key_of(t[w]) == k;
            if w < i {
                assert(key_of(s[w]) == k);
            } else {
                assert(key_of(s[w + 1]) == k);
            }
        }
    }
    assert forall|k: PartitionKey| #[trigger] view_of(t).contains_key(k) implies view_of(t)[k]
        == view_of(s).remove(ki)[k] by {
        let w = choose|w: int| 0 <= w < t.len() && key_of(t[w]) == k;
        lemma_view_index(t, w);
        if w < i {
            lemma_view_index(s, w);
        } else {
            assert(t[w] == s[w + 1]);
            lemma_view_index(s, w + 1);
        }
    }
}

impl View for LedgerObserver {
    type V = LedgerMap;

    closed spec fn view(&self) -> LedgerMap {
        view_of(self.partitions@)
    }
}

impl LedgerObserver {
    /// The ledgers are keyed by partition, one ledger each, and each ledger is
    /// in offset order.
    pub closed spec fn wf(&self) -> bool {
        &&& distinct_keys(self.partitions@)
        &&& forall|i: int| 0 <= i < self.partitions@.len() ==> #[trigger] self.partitions@[i].ledger.wf()
    }

    pub closed spec fn ledger_mode(&self) -> LedgerMode {
        self.mode
    }

    /// An observer with no ledgers.
    pub fn new(mode: LedgerMode) -> (observer: LedgerObserver)
        ensures
            observer.wf(),
            observer.ledger_mode() == mode,
            observer@ == LedgerMap::empty(),
    {
        let observer = LedgerObserver { mode, partitions: Vec::new() };
        assert(observer@ =~= LedgerMap::empty());
        observer
    }

    /// Whether the ledgers' frontiers own the Kafka commit.
    pub fn owns_commits(&self) -> (r: bool)
        ensures
            r == (self.ledger_mode() == LedgerMode::Commit),
    {
        match self.mode {
            LedgerMode::Commit => true,
            LedgerMode::Shadow => false,
        }
    }

    /// Where the ledger of `topic`, `partition` stands.
    fn find(&self, topic: &String, partition: i32) -> (r: Option<usize>)
        requires
            self.wf(),
        ensures
            match r {
                Some(i) => i < self.partitions@.len() && key_of(self.partitions@[i as int]) == (topic@, partition),
                None => !self@.contains_key((topic@, partition)),
            },
    {
        let mut i: usize = 0;
        while i < self.partitions.len()
            invariant
                i <= self.partitions@.len(),
                forall|j: int| 0 <= j < i ==> key_of(#[trigger] self.partitions@[j]) != (topic@, partition),
            decreases self.partitions@.len() - i,
        {
            if self.partitions[i].partition == partition && self.partitions[i].topic == *topic {
                return Some(i);
            }
            i = i + 1;
        }
        None
    }

    /// Charge a slice of delivered offsets of `topic`, `partition`, buffered
    /// under assignment epoch `epoch`, while `current_epoch` is the current
    /// one. A ledger founded by a newer assignment refuses the slice (its
    /// offsets replay under that assignment); a slice that merely spans an
    /// unrelated epoch bump has `epoch` at or above the ledger's and charges.
    /// With no ledger, the partition was revoked after the slice was buffered,
    /// and only a slice of the current assignment may found a new ledger.
    pub fn charge(
        &mut self,
        topic: &str,
        partition: i32,
        epoch: u64,
        current_epoch: u64,
        offset_charges: &[(Offset, Charge)],
    ) -> (outcome: Admission)
        requires
            old(self).wf(),
            charge_admission(old(self)@, (topic@, partition), epoch, current_epoch) is Admitted
                ==> chargeable(base_slots(old(self)@, (topic@, partition)), offset_charges@),
        ensures
            final(self).wf(),
            final(self).ledger_mode() == old(self).ledger_mode(),
            outcome == charge_admission(old(self)@, (topic@, partition), epoch, current_epoch),
            old(self)@.contains_key((topic@, partition)) && epoch >= old(self)@[(topic@, partition)].0 ==> outcome == Admission::Admitted,
            old(self)@.contains_key((topic@, partition)) && epoch < old(self)@[(topic@, partition)].0 ==> outcome == Admission::StaleEpoch,
            !old(self)@.contains_key((topic@, partition)) && epoch == current_epoch ==> outcome == Admission::Admitted,
            !old(self)@.contains_key((topic@, partition)) && epoch != current_epoch ==> outcome == Admission::NoLedger,
            !(outcome is Admitted) ==> final(self)@ == old(self)@,
            outcome is Admitted ==> {
                let k = (topic@, partition);
                &&& final(self)@ == old(self)@.insert(k, final(self)@[k])
                &&& final(self)@[k].0 == (if old(self)@.contains_key(k) { old(self)@[k].0 } else { epoch })
                &&& charged_from(base_slots(old(self)@, k), offset_charges@, final(self)@[k].1)
                &&& final(self)@.contains_key(k)
                &&& final(self)@[k].1.len() == (if old(self)@.contains_key(k) { old(self)@[k].1.len() } else { 0 })
                    + offset_charges@.len()
                &&& forall|a: int, b: int|
                    0 <= a < b < final(self)@[k].1.len() ==> final(self)@[k].1[a].offset < final(self)@[k].1[b].offset
                &&& forall|x: Slot| #[trigger] final(self)@[k].1.contains(x) <==> ((old(self)@.contains_key(k)
                    && old(self)@[k].1.contains(x)) || exists|j: int|
                    0 <= j < offset_charges@.len() && x == Slot {
                        offset: offset_charges@[j].0.0,
                        charge: offset_charges@[j].1,
                        completed: false,
                    })
            },
            !(outcome is Admitted) ==> final(self)@ == old(self)@,
    {
        let key_topic = topic.to_string();
        assert(key_topic@ == topic@);
        let ghost k = (topic@, partition);
        match self.find(&key_topic, partition) {
            Some(i) => {
                proof {
                    lemma_view_index(self.partitions@, i as int);
                }
                if epoch < self.partitions[i].epoch {
                    return Admission::StaleEpoch;
                }
                let ghost before = self.partitions@;
                assert(before[i as int].ledger.wf());
                self.partitions[i].ledger.charge(offset_charges);
                proof {
                    assert(self.partitions@ == before.update(i as int, self.partitions@[i as int]));
                    lemma_view_update(before, i as int, self.partitions@[i as int]);
                    assert forall|j: int| 0 <= j < self.partitions@.len() implies #[trigger] self.partitions@[j].ledger.wf() by {
                        if j != i {
                            assert(self.partitions@[j] == before[j]);
                        }
                    }
                }
                Admission::Admitted
            },
            None => {
                if epoch != current_epoch {
                    return Admission::NoLedger;
                }
                let mut ledger = OffsetLedger::new();
                assert(ledger@ == base_slots(self@, k));
                ledger.charge(offset_charges);
                let entry = PartitionLedger { topic: key_topic, partition, epoch, ledger };
                let ghost before = self.partitions@;
                self.partitions.push(entry);
                proof {
                    lemma_view_push(before, entry);
                    assert(self.partitions@ == before.push(entry));
                    assert forall|j: int| 0 <= j < self.partitions@.len() implies #[trigger] self.partitions@[j].ledger.wf() by {
                        if j < before.len() {
                            assert(self.partitions@[j] == before[j]);
                        }
                    }
                }
                Admission::Admitted
            },
        }
    }

    /// Mark one completed batch per partition and compare the resulting
    /// frontiers with the current commit spans. The caller chooses whether
    /// `offset_spans` or the frontiers own the Kafka commit. A completion for a
    /// partition without a ledger (a rebalance dropped it between delivery and
    /// completion) or stamped before the ledger's assignment is a straggler
    /// and drops: its offsets replay. The frontier is next-to-read, and so is
    /// the committed offset, `span.last + 1`.
    #[verifier::rlimit(30)]
    pub fn complete_and_compare_frontiers(
        &mut self,
        completed: &[(TopicPartition, EpochOffsets)],
        offset_spans: &[(TopicPartition, OffsetSpan)],
    ) -> (r: (Vec<(TopicPartition, Offset)>, Vec<LedgerMismatch>))
        requires
            old(self).wf(),
            spans_ready(old(self)@, completion_views(completed@), span_views(offset_spans@)),
        ensures
            final(self).wf(),
            final(self).ledger_mode() == old(self).ledger_mode(),
            final(self)@ == after_completions(old(self)@, completion_views(completed@)),
            frontier_views(r.0@) == frontiers_after(old(self)@, completion_views(completed@)),
            r.0@.len() == frontiers_after(old(self)@, completion_views(completed@)).len(),
            forall|x: int| 0 <= x < r.0@.len() ==> ((#[trigger] r.0@[x]).0.0@, r.0@[x].0.1) == frontiers_after(
                old(self)@,
                completion_views(completed@),
            )[x].0 && r.0@[x].1 == frontiers_after(old(self)@, completion_views(completed@))[x].1,
            r.1@.len() == mismatches_after(old(self)@, completion_views(completed@), span_views(offset_spans@)).len(),
            forall|x: int| 0 <= x < r.1@.len() ==> (((#[trigger] r.1@[x]).topic_partition.0@, r.1@[x].topic_partition.1),
                r.1@[x].committed, r.1@[x].frontier) == mismatches_after(
                old(self)@,
                completion_views(completed@),
                span_views(offset_spans@),
            )[x],
            mismatch_views(r.1@) == mismatches_after(
                old(self)@,
                completion_views(completed@),
                span_views(offset_spans@),
            ),
            forall|x: int| 0 <= x < r.1@.len() ==> {
                let m = #[trigger] r.1@[x];
                &&& exists|j: int|
                    0 <= j < offset_spans@.len() && (offset_spans@[j].0.0@, offset_spans@[j].0.1) == (
                    m.topic_partition.0@,
                    m.topic_partition.1,
                ) && m.committed == #[trigger] offset_spans@[j].1.last + 1 && (forall|a: int|
                    0 <= a < j ==> (offset_spans@[a].0.0@, offset_spans@[a].0.1) != (
                    m.topic_partition.0@,
                    m.topic_partition.1,
                ))
                &&& m.frontier != Some(Offset(m.committed))
            },
    {
        let ghost cs = completion_views(completed@);
        let ghost ss = span_views(offset_spans@);
        let mut frontiers: Vec<(TopicPartition, Offset)> = Vec::new();
        let mut mismatches: Vec<LedgerMismatch> = Vec::new();
        let mut i: usize = 0;
        proof {
            lemma_no_completions(old(self)@, cs, ss);
        }
        assert(frontier_views(frontiers@) =~= Seq::<(PartitionKey, Offset)>::empty());
        assert(mismatch_views(mismatches@) =~= Seq::<MismatchView>::empty());
        while i < completed.len()
            invariant
                i <= cs.len(),
                cs == completion_views(completed@),
                ss == span_views(offset_spans@),
                spans_ready(old(self)@, cs, ss),
                self.wf(),
                self.ledger_mode() == old(self).ledger_mode(),
                self@ == after_completions(old(self)@, cs.take(i as int)),
                frontier_views(frontiers@) == frontiers_after(old(self)@, cs.take(i as int)),
                mismatch_views(mismatches@) == mismatches_after(old(self)@, cs.take(i as int), ss),
            decreases cs.len() - i,
        {
            let tp = &completed[i].0;
            let batch = &completed[i].1;
            let ghost c = cs[i as int];
            let ghost prev_f = frontiers@;
            let ghost prev_m = mismatches@;
            proof {
                lemma_completion_step(old(self)@, cs, ss, i as int);
                assert(c == completion_view(completed@[i as int]));
            }
            let step = self.complete_partition(tp, &batch.epoch, &batch.offsets);
            match step {
                None => {},
                Some(frontier) => {
                    assert(span_for(ss, cs[i as int].0) is Some);
                    let span = span_lookup(offset_spans, tp).unwrap();
                    let committed = span.last + 1;
                    assert(committed == committed_for(ss, c.0));
                    match frontier {
                        Some(f) => {
                            frontiers.push(((tp.0.clone(), tp.1), f));
                            assert(frontier_views(frontiers@) =~= frontier_views(prev_f).push((c.0, f)));
                        },
                        None => {},
                    }
                    let matched = match frontier {
                        Some(f) => f.0 == committed,
                        None => false,
                    };
                    if !matched {
                        mismatches.push(
                            LedgerMismatch { topic_partition: (tp.0.clone(), tp.1), committed, frontier },
                        );
                        assert(mismatch_views(mismatches@) =~= mismatch_views(prev_m).push(
                            (c.0, committed, frontier),
                        ));
                    }
                },
            }
            i = i + 1;
        }
        assert(cs.take(cs.len() as int) =~= cs);
        proof {
            assert forall|x: int| 0 <= x < frontiers@.len() implies ((#[trigger] frontiers@[x]).0.0@, frontiers@[x].0.1)
                == frontiers_after(old(self)@, cs)[x].0 && frontiers@[x].1 == frontiers_after(old(self)@, cs)[x].1 by {
                assert(frontier_views(frontiers@)[x] == (key_view(frontiers@[x].0), frontiers@[x].1));
            }
            assert forall|x: int| 0 <= x < mismatches@.len() implies (((#[trigger] mismatches@[x]).topic_partition.0@,
                mismatches@[x].topic_partition.1), mismatches@[x].committed, mismatches@[x].frontier)
                == mismatches_after(old(self)@, cs, ss)[x] by {
                assert(mismatch_views(mismatches@)[x] == mismatch_view(mismatches@[x]));
            }
            lemma_mismatches_commit_span_last(old(self)@, cs, ss);
            lemma_mismatch_views_direct(mismatches@, offset_spans@, mismatches_after(old(self)@, cs, ss));
        }
        (frontiers, mismatches)
    }

    /// Apply one completion to its partition's ledger, if it reaches it, and
    /// return the frontier the ledger then has.
    fn complete_partition(&mut self, tp: &TopicPartition, epoch: &u64, offsets: &Vec<Offset>) -> (r: Option<Option<Offset>>)
        requires
            old(self).wf(),
        ensures
            final(self).wf(),
            final(self).ledger_mode() == old(self).ledger_mode(),
            final(self)@ == complete_one(old(self)@, (key_view(*tp), *epoch, offsets@)),
            match r {
                None => !(completion_admission(old(self)@, key_view(*tp), *epoch) is Admitted),
                Some(f) => completion_admission(old(self)@, key_view(*tp), *epoch) is Admitted
                    && f == frontier_after(old(self)@, (key_view(*tp), *epoch, offsets@)),
            },
    {
        let ghost c = (key_view(*tp), *epoch, offsets@);
        match self.find(&tp.0, tp.1) {
            None => None,
            Some(j) => {
                proof {
                    lemma_view_index(self.partitions@, j as int);
                }
                if *epoch < self.partitions[j].epoch {
                    return None;
                }
                let ghost before = self.partitions@;
                assert(before[j as int].ledger.wf());
                self.partitions[j].ledger.complete(offsets.as_slice());
                proof {
                    assert(self.partitions@ == before.update(j as int, self.partitions@[j as int]));
                    lemma_view_update(before, j as int, self.partitions@[j as int]);
                    assert forall|a: int| 0 <= a < self.partitions@.len() implies #[trigger] self.partitions@[a].ledger.wf() by {
                        if a != j {
                            assert(self.partitions@[a] == before[a]);
                        }
                    }
                    assert(self@ == complete_one(old(self)@, c));
                    lemma_view_index(self.partitions@, j as int);
                }
                Some(self.partitions[j].ledger.frontier())
            },
        }
    }

    /// Consume the completed prefix after a successful commit request, with
    /// the same straggler checks as the comparison.
    pub fn take_frontiers(&mut self, completed: &[(TopicPartition, EpochOffsets)])
        requires
            old(self).wf(),
        ensures
            final(self).wf(),
            final(self).ledger_mode() == old(self).ledger_mode(),
            final(self)@ == after_takes(old(self)@, completion_views(completed@)),
    {
        let ghost cs = completion_views(completed@);
        let mut i: usize = 0;
        proof {
            lemma_no_completions(old(self)@, cs, Seq::empty());
        }
        while i < completed.len()
            invariant
                i <= cs.len(),
                cs == completion_views(completed@),
                self.wf(),
                self.ledger_mode() == old(self).ledger_mode(),
                self@ == after_takes(old(self)@, cs.take(i as int)),
            decreases cs.len() - i,
        {
            let tp = &completed[i].0;
            let batch = &completed[i].1;
            let ghost c = cs[i as int];
            let ghost w = self@;
            proof {
                lemma_take_step(old(self)@, cs, i as int);
                assert(c == completion_view(completed@[i as int]));
            }
            match self.find(&tp.0, tp.1) {
                None => {},
                Some(j) => {
                    proof {
                        lemma_view_index(self.partitions@, j as int);
                    }
                    if batch.epoch >= self.partitions[j].epoch {
                        let ghost before = self.partitions@;
                        assert(before[j as int].ledger.wf());
                        self.partitions[j].ledger.take_frontier();
                        proof {
                            assert(self.partitions@ == before.update(j as int, self.partitions@[j as int]));
                            lemma_view_update(before, j as int, self.partitions@[j as int]);
                            assert forall|a: int| 0 <= a < self.partitions@.len() implies #[trigger] self.partitions@[a].ledger.wf() by {
                                if a != j {
                                    assert(self.partitions@[a] == before[a]);
                                }
                            }
                            assert(self@ == take_one(w, c));
                        }
                    }
                },
            }
            i = i + 1;
        }
        assert(cs.take(cs.len() as int) =~= cs);
    }

    /// Shadow-mode completion: compare the current commit source, then drain
    /// at the same point as the actual commit request.
    pub fn complete_and_compare(
        &mut self,
        completed: &[(TopicPartition, EpochOffsets)],
        offset_spans: &[(TopicPartition, OffsetSpan)],
    ) -> (mismatches: Vec<LedgerMismatch>)
        requires
            old(self).wf(),
            spans_ready(old(self)@, completion_views(completed@), span_views(offset_spans@)),
        ensures
            forall|x: int| 0 <= x < mismatches@.len() ==> {
                let m = #[trigger] mismatches@[x];
                &&& exists|j: int|
                    0 <= j < offset_spans@.len() && (offset_spans@[j].0.0@, offset_spans@[j].0.1) == (
                    m.topic_partition.0@,
                    m.topic_partition.1,
                ) && m.committed == #[trigger] offset_spans@[j].1.last + 1 && (forall|a: int|
                    0 <= a < j ==> (offset_spans@[a].0.0@, offset_spans@[a].0.1) != (
                    m.topic_partition.0@,
                    m.topic_partition.1,
                ))
                &&& m.frontier != Some(Offset(m.committed))
            },
            final(self).wf(),
            final(self).ledger_mode() == old(self).ledger_mode(),
            final(self)@ == after_takes(
                after_completions(old(self)@, completion_views(completed@)),
                completion_views(completed@),
            ),
            mismatch_views(mismatches@) == mismatches_after(
                old(self)@,
                completion_views(completed@),
                span_views(offset_spans@),
            ),
    {
        let (_, mismatches) = self.complete_and_compare_frontiers(completed, offset_spans);
        self.take_frontiers(completed);
        mismatches
    }

    /// Drop the revoked partitions' ledgers before their replay is charged: a
    /// kept ledger would see replayed offsets as duplicate delivery.
    pub fn forget_partitions(&mut self, revoked: &[(&str, i32)])
        requires
            old(self).wf(),
        ensures
            final(self).wf(),
            final(self).ledger_mode() == old(self).ledger_mode(),
            final(self)@ == old(self)@.remove_keys(revoked_keys(revoked@)),
            forall|j: int| 0 <= j < revoked@.len() ==> !final(self)@.contains_key(
                (#[trigger] revoked@[j].0@, revoked@[j].1),
            ),
            forall|k: PartitionKey|
                (forall|j: int| 0 <= j < revoked@.len() ==> (#[trigger] revoked@[j].0@, revoked@[j].1) != k)
                    ==> (#[trigger] final(self)@.contains_key(k) == old(self)@.contains_key(k) && (old(
                    self,
                )@.contains_key(k) ==> final(self)@[k] == old(self)@[k])),
    {
        let ghost rs = revoked@;
        let mut i: usize = 0;
        assert(old(self)@.remove_keys(revoked_keys(rs.take(0))) =~= old(self)@);
        while i < revoked.len()
            invariant
                i <= rs.len(),
                rs == revoked@,
                self.wf(),
                self.ledger_mode() == old(self).ledger_mode(),
                self@ == old(self)@.remove_keys(revoked_keys(rs.take(i as int))),
            decreases rs.len() - i,
        {
            let (topic, partition) = revoked[i];
            let key_topic = topic.to_string();
            let ghost k = (topic@, partition);
            assert(key_topic@ == topic@);
            let ghost w = self@;
            match self.find(&key_topic, partition) {
                None => {},
                Some(j) => {
                    let ghost before = self.partitions@;
                    proof {
                        lemma_view_remove(before, j as int);
                    }
                    self.partitions.remove(j);
                    proof {
                        assert forall|a: int| 0 <= a < self.partitions@.len() implies #[trigger] self.partitions@[a].ledger.wf() by {
                            if a < j {
                                assert(self.partitions@[a] == before[a]);
                            } else {
                                assert(self.partitions@[a] == before[a + 1]);
                            }
                        }
                    }
                },
            }
            proof {
                assert(self@ =~= w.remove(k));
                assert(revoked_keys(rs.take(i + 1)) =~= revoked_keys(rs.take(i as int)).insert(k)) by {
                    assert(rs.take(i + 1)[i as int] == rs[i as int]);
                    assert forall|x: PartitionKey| revoked_keys(rs.take(i + 1)).contains(x) implies revoked_keys(rs.take(i as int)).insert(k).contains(x) by {
                        let t1 = rs.take(i + 1);
                        let jj = choose|jj: int| 0 <= jj < t1.len() && (t1[jj].0@, t1[jj].1) == x;
                        if jj < i {
                            assert(rs.take(i as int)[jj] == t1[jj]);
                        }
                    }
                    assert forall|x: PartitionKey| revoked_keys(rs.take(i as int)).contains(x) implies revoked_keys(rs.take(i + 1)).contains(x) by {
                        let t0 = rs.take(i as int);
                        let jj = choose|jj: int| 0 <= jj < t0.len() && (t0[jj].0@, t0[jj].1) == x;
                        assert(rs.take(i + 1)[jj] == t0[jj]);
                    }
                }
                assert(self@ =~= old(self)@.remove_keys(revoked_keys(rs.take(i + 1))));
            }
            i = i + 1;
        }
        assert(rs.take(rs.len() as int) =~= rs);
    }

    /// The number of outstanding offsets of `topic`, `partition`; none where
    /// it has no ledger.
    pub fn depth(&self, topic: &str, partition: i32) -> (n: usize)
        requires
            self.wf(),
        ensures
            n == depth_of(self@, (topic@, partition)),
            self@.contains_key((topic@, partition)) ==> n == self@[(topic@, partition)].1.len(),
            !self@.contains_key((topic@, partition)) ==> n == 0,
    {
        let key_topic = topic.to_string();
        assert(key_topic@ == topic@);
        match self.find(&key_topic, partition) {
            None => 0,
            Some(j) => {
                proof {
                    lemma_view_index(self.partitions@, j as int);
                }
                self.partitions[j].ledger.len()
            },
        }
    }

    /// Whether the ledger of `topic`, `partition` holds `offset`: charging it
    /// again would be a duplicate delivery.
    pub fn holds(&self, topic: &str, partition: i32, offset: Offset) -> (r: bool)
        requires
            self.wf(),
        ensures
            r == (self@.contains_key((topic@, partition)) && exists|i: int|
                0 <= i < self@[(topic@, partition)].1.len() && #[trigger] self@[(topic@, partition)].1[i].offset
                    == offset.0),
            r == (self@.contains_key((topic@, partition)) && holds_offset(self@[(topic@, partition)].1, offset.0)),
    {
        let key_topic = topic.to_string();
        assert(key_topic@ == topic@);
        match self.find(&key_topic, partition) {
            None => false,
            Some(j) => {
                proof {
                    lemma_view_index(self.partitions@, j as int);
                }
                let r = self.partitions[j].ledger.holds(offset);
                assert(self@[(topic@, partition)].1 == self.partitions@[j as int].ledger@);
                r
            },
        }
    }

    /// The assignment epoch that founded the ledger of `topic_partition`.
    pub fn ledger_epoch(&self, topic_partition: &TopicPartition) -> (r: Option<u64>)
        requires
            self.wf(),
        ensures
            r == (if self@.contains_key(key_view(*topic_partition)) {
                Some(self@[key_view(*topic_partition)].0)
            } else {
                None
            }),
    {
        match self.find(&topic_partition.0, topic_partition.1) {
            None => None,
            Some(j) => {
                proof {
                    lemma_view_index(self.partitions@, j as int);
                }
                Some(self.partitions[j].epoch)
            },
        }
    }

    /// Whether a slice of `topic`, `partition` stamped `epoch` would be
    /// charged while `current_epoch` is current, and if not, why.
    pub fn charge_status(&self, topic: &str, partition: i32, epoch: u64, current_epoch: u64) -> (r: Admission)
        requires
            self.wf(),
        ensures
            r == charge_admission(self@, (topic@, partition), epoch, current_epoch),
            self@.contains_key((topic@, partition)) && epoch >= self@[(topic@, partition)].0 ==> r == Admission::Admitted,
            self@.contains_key((topic@, partition)) && epoch < self@[(topic@, partition)].0 ==> r == Admission::StaleEpoch,
            !self@.contains_key((topic@, partition)) && epoch == current_epoch ==> r == Admission::Admitted,
            !self@.contains_key((topic@, partition)) && epoch != current_epoch ==> r == Admission::NoLedger,
    {
        let key_topic = topic.to_string();
        assert(key_topic@ == topic@);
        match self.find(&key_topic, partition) {
            None => {
                if epoch != current_epoch {
                    Admission::NoLedger
                } else {
                    Admission::Admitted
                }
            },
            Some(j) => {
                proof {
                    lemma_view_index(self.partitions@, j as int);
                }
                if epoch < self.partitions[j].epoch {
                    Admission::StaleEpoch
                } else {
                    Admission::Admitted
                }
            },
        }
    }

    /// Whether a completion of `topic_partition` stamped `epoch` would reach
    /// its ledger, and if not, why.
    pub fn completion_status(&self, topic_partition: &TopicPartition, epoch: u64) -> (r: Admission)
        requires
            self.wf(),
        ensures
            r == completion_admission(self@, key_view(*topic_partition), epoch),
            self@.contains_key((topic_partition.0@, topic_partition.1)) && epoch >= self@[(topic_partition.0@, topic_partition.1)].0 ==> r == Admission::Admitted,
            self@.contains_key((topic_partition.0@, topic_partition.1)) && epoch < self@[(topic_partition.0@, topic_partition.1)].0 ==> r == Admission::StaleEpoch,
            !self@.contains_key((topic_partition.0@, topic_partition.1)) ==> r == Admission::NoLedger,
    {
        match self.find(&topic_partition.0, topic_partition.1) {
            None => Admission::NoLedger,
            Some(j) => {
                proof {
                    lemma_view_index(self.partitions@, j as int);
                }
                if epoch < self.partitions[j].epoch {
                    Admission::StaleEpoch
                } else {
                    Admission::Admitted
                }
            },
        }
    }
}

impl LedgerMismatch {
    /// Ahead when the ledger has a frontier past the committed offset, behind
    /// otherwise.
    pub fn direction(&self) -> (d: MismatchDirection)
        ensures
            d == (if self.frontier matches Some(f) && f.0 > self.committed {
                MismatchDirection::Ahead
            } else {
                MismatchDirection::Behind
            }),
    {
        match self.frontier {
            Some(f) => {
                if f.0 > self.committed {
                    MismatchDirection::Ahead
                } else {
                    MismatchDirection::Behind
                }
            },
            None => MismatchDirection::Behind,
        }
    }
}

/// The commit span of partition `tp`: the first in `offset_spans`.
fn span_lookup(offset_spans: &[(TopicPartition, OffsetSpan)], tp: &TopicPartition) -> (r: Option<OffsetSpan>)
    ensures
        r == span_for(span_views(offset_spans@), key_view(*tp)),
{
    let ghost ss = span_views(offset_spans@);
    let mut i: usize = 0;
    while i < offset_spans.len()
        invariant
            i <= ss.len(),
            ss == span_views(offset_spans@),
            span_for(ss, key_view(*tp)) == span_from(ss, i as int, key_view(*tp)),
        decreases ss.len() - i,
    {
        let entry = &offset_spans[i];
        assert(ss[i as int] == (key_view(entry.0), entry.1));
        if entry.0.1 == tp.1 && entry.0.0 == tp.0 {
            return Some(entry.1);
        }
        i = i + 1;
    }
    None
}

} // verus!
