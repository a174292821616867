use vstd::prelude::*;

verus! {

/// A position in one partition's log.
#[derive(Clone, Copy, Debug, PartialEq, Eq, Hash, PartialOrd, Ord)]
pub struct Offset(pub i64);

/// What one delivered message counts against the ledger while it is
/// outstanding.
#[derive(Clone, Copy, Debug, PartialEq, Eq)]
pub struct Charge(pub u64);

impl Charge {
    /// A message that counts for nothing.
    pub fn zero() -> (c: Charge)
        ensures
            c.0 == 0,
    {
        Charge(0)
    }
}

/// One outstanding offset of a ledger.
#[derive(Clone, Copy, Debug, PartialEq, Eq)]
pub struct Slot {
    pub offset: i64,
    pub charge: Charge,
    pub completed: bool,
}

/// The offsets of one partition that were delivered and not yet committed,
/// in offset order.
pub struct OffsetLedger {
    slots: Vec<Slot>,
}

/// Offsets strictly increase along the ledger.
pub open spec fn ordered(s: Seq<Slot>) -> bool {
    forall|i: int, j: int| 0 <= i < j < s.len() ==> s[i].offset < s[j].offset
}

/// Every offset has a successor that an `i64` can hold.
pub open spec fn below_max(s: Seq<Slot>) -> bool {
    forall|i: int| 0 <= i < s.len() ==> s[i].offset < i64::MAX
}

pub open spec fn slots_wf(s: Seq<Slot>) -> bool {
    ordered(s) && below_max(s)
}

/// The ledger holds offset `o`.
pub open spec fn holds_offset(s: Seq<Slot>, o: i64) -> bool {
    exists|i: int| 0 <= i < s.len() && s[i].offset == o
}

/// The slot a charge opens: not yet completed.
pub open spec fn fresh_slot(oc: (Offset, Charge)) -> Slot {
    Slot { offset: oc.0.0, charge: oc.1, completed: false }
}

pub open spec fn fresh_slots(batch: Seq<(Offset, Charge)>) -> Seq<Slot> {
    batch.map_values(|oc: (Offset, Charge)| fresh_slot(oc))
}

/// A batch can be charged to a ledger holding `s`: its offsets are new to the
/// ledger and to each other (a second delivery of an offset is a duplicate),
/// and each has a successor.
pub open spec fn chargeable(s: Seq<Slot>, batch: Seq<(Offset, Charge)>) -> bool {
    &&& forall|j: int| 0 <= j < batch.len() ==> batch[j].0.0 < i64::MAX
    &&& forall|j: int| 0 <= j < batch.len() ==> !holds_offset(s, #[trigger] batch[j].0.0)
    &&& forall|j: int, k: int| 0 <= j < k < batch.len() ==> batch[j].0.0 != batch[k].0.0
}

/// The completion batch names offset `o`.
pub open spec fn requested(batch: Seq<Offset>, o: i64) -> bool {
    exists|j: int| 0 <= j < batch.len() && batch[j].0 == o
}

/// `s` with every slot that `batch` names marked completed.
pub open spec fn marked(s: Seq<Slot>, batch: Seq<Offset>) -> Seq<Slot> {
    Seq::new(
        s.len(),
        |i: int|
            Slot {
                offset: s[i].offset,
                charge: s[i].charge,
                completed: s[i].completed || requested(batch, s[i].offset),
            },
    )
}

/// The length of the longest completed prefix.
pub open spec fn done_len(s: Seq<Slot>) -> nat
    decreases s.len(),
{
    if s.len() == 0 || !s[0].completed {
        0
    } else {
        1 + done_len(s.drop_first())
    }
}

/// The next offset to read after the longest completed prefix, if that prefix
/// is not empty.
pub open spec fn frontier_of(s: Seq<Slot>) -> Option<Offset> {
    let n = done_len(s);
    if n == 0 {
        None
    } else {
        Some(Offset((s[n - 1].offset + 1) as i64))
    }
}

/// What `take_frontier` leaves: the slots after the completed prefix.
pub open spec fn drained(s: Seq<Slot>) -> Seq<Slot> {
    s.skip(done_len(s) as int)
}

/// The completed prefix is made of completed slots and ends at the first
/// pending one.
pub proof fn lemma_done_len_bounds(s: Seq<Slot>)
    ensures
        done_len(s) <= s.len(),
        forall|j: int| 0 <= j < done_len(s) ==> #[trigger] s[j].completed,
        done_len(s) < s.len() ==> !s[done_len(s) as int].completed,
    decreases s.len(),
{
    if s.len() > 0 && s[0].completed {
        lemma_done_len_bounds(s.drop_first());
        assert forall|j: int| 0 <= j < done_len(s) implies #[trigger] s[j].completed by {
            if j > 0 {
                assert(s.drop_first()[j - 1] == s[j]);
            }
        }
    }
}

/// A prefix of completed slots that ends at a pending slot, or at the end, is
/// the completed prefix.
pub proof fn lemma_done_len_is(s: Seq<Slot>, n: int)
    requires
        0 <= n <= s.len(),
        forall|j: int| 0 <= j < n ==> #[trigger] s[j].completed,
        n == s.len() || !s[n].completed,
    ensures
        done_len(s) == n,
    decreases n,
{
    if n > 0 {
        let t = s.drop_first();
        assert forall|j: int| 0 <= j < n - 1 implies #[trigger] t[j].completed by {
            assert(t[j] == s[j + 1]);
        }
        if n < s.len() {
            assert(t[n - 1] == s[n]);
        }
        lemma_done_len_is(t, n - 1);
    }
}

/// Inserting one element adds exactly that element to the set of elements.
proof fn lemma_insert_to_set(s: Seq<Slot>, i: int, x: Slot)
    requires
        0 <= i <= s.len(),
    ensures
        s.insert(i, x).to_set() =~= s.to_set().insert(x),
{
    let t = s.insert(i, x);
    assert forall|y: Slot| t.to_set().contains(y) implies s.to_set().insert(x).contains(y) by {
        let w = choose|w: int| 0 <= w < t.len() && t[w] == y;
        if w < i {
            assert(s[w] == y);
        } else if w > i {
            assert(s[w - 1] == y);
        }
    }
    assert forall|y: Slot| s.to_set().insert(x).contains(y) implies t.to_set().contains(y) by {
        if y == x {
            assert(t[i] == x);
        } else {
            let w = choose|w: int| 0 <= w < s.len() && s[w] == y;
            if w < i {
                assert(t[w] == y);
            } else {
                assert(t[w + 1] == y);
            }
        }
    }
}

/// The frontier is safe to commit: every outstanding offset below it has
/// completed. It is also the furthest such point: the first outstanding
/// offset at or above it is pending. With no frontier, the first outstanding
/// offset is pending, or nothing is outstanding.
pub proof fn lemma_frontier_is_safe(s: Seq<Slot>)
    requires
        slots_wf(s),
    ensures
        match frontier_of(s) {
            Some(f) => {
                &&& forall|i: int| 0 <= i < s.len() && s[i].offset < f.0 ==> #[trigger] s[i].completed
                &&& forall|i: int| 0 <= i < s.len() && s[i].offset >= f.0 ==> exists|j: int|
                    0 <= j <= i && s[j].offset >= f.0 && !#[trigger] s[j].completed
            },
            None => s.len() == 0 || !s[0].completed,
        },
{
    lemma_done_len_bounds(s);
    let n = done_len(s) as int;
    if n > 0 {
        let f = s[n - 1].offset + 1;
        assert forall|i: int| 0 <= i < s.len() && s[i].offset < f implies #[trigger] s[i].completed by {
            if i >= n {
                assert(s[n - 1].offset < s[i].offset);
            }
        }
        assert forall|i: int| 0 <= i < s.len() && s[i].offset >= f implies exists|j: int|
            0 <= j <= i && s[j].offset >= f && !#[trigger] s[j].completed by {
            if i < n - 1 {
                assert(s[i].offset < s[n - 1].offset);
            }
            assert(i >= n);
            assert(s[n].offset > s[n - 1].offset);
        }
    }
}

/// The frontier is one past the last offset of the longest completed
/// prefix, wherever that prefix ends (a gap in the offsets after it
/// included): there is no frontier exactly when nothing is outstanding or the
/// first outstanding offset is pending; otherwise the prefix is made of
/// completed slots, ends at a pending slot or at the end, and the frontier is
/// its last offset plus one.
pub proof fn lemma_frontier_characterized(s: Seq<Slot>)
    requires
        below_max(s),
    ensures
        frontier_of(s) is None <==> (s.len() == 0 || !s[0].completed),
        done_len(s) > 0 ==> frontier_of(s) == Some(Offset((s[done_len(s) - 1].offset + 1) as i64)),
        frontier_of(s) matches Some(f) ==> exists|m: int|
            0 <= m < s.len() && (forall|j: int| 0 <= j <= m ==> #[trigger] s[j].completed) && (m + 1 == s.len()
                || !s[m + 1].completed) && f.0 == #[trigger] s[m].offset + 1,
{
    lemma_done_len_bounds(s);
    let n = done_len(s) as int;
    if s.len() > 0 && s[0].completed {
        assert(n > 0);
    }
    if n > 0 {
        assert(s[n - 1].offset < i64::MAX);
        let f = frontier_of(s)->0;
        assert(f.0 == s[n - 1].offset + 1);
        let m = n - 1;
        assert(0 <= m < s.len() && (forall|j: int| 0 <= j <= m ==> #[trigger] s[j].completed) && (m + 1 == s.len()
            || !s[m + 1].completed) && f.0 == s[m].offset + 1);
    }
}

/// Draining consumes the whole completed prefix: what is left has no
/// frontier.
pub proof fn lemma_drained_has_no_frontier(s: Seq<Slot>)
    ensures
        frontier_of(drained(s)) is None,
{
    lemma_done_len_bounds(s);
    let d = drained(s);
    if d.len() > 0 {
        assert(d[0] == s[done_len(s) as int]);
    }
}

/// Draining removes exactly the completed prefix: the ledger is that prefix,
/// all of it completed, followed by what is left.
pub proof fn lemma_drain_splits(s: Seq<Slot>)
    ensures
        s =~= s.take(done_len(s) as int) + drained(s),
        forall|i: int| 0 <= i < done_len(s) ==> #[trigger] s[i].completed,
        drained(s).len() == s.len() - done_len(s),
{
    lemma_done_len_bounds(s);
}

/// Once every outstanding offset has completed, the frontier is the one after
/// the last.
pub proof fn lemma_all_completed_frontier(s: Seq<Slot>)
    requires
        s.len() > 0,
        forall|i: int| 0 <= i < s.len() ==> #[trigger] s[i].completed,
    ensures
        frontier_of(s) == Some(Offset((s.last().offset + 1) as i64)),
        drained(s).len() == 0,
{
    lemma_done_len_is(s, s.len() as int);
}

/// Completing offsets never shortens the completed prefix, and so never moves
/// the frontier back; marking keeps the offsets and charges of every slot.
pub proof fn lemma_marking_never_lowers_frontier(s: Seq<Slot>, batch: Seq<Offset>)
    requires
        slots_wf(s),
    ensures
        slots_wf(marked(s, batch)),
        marked(s, batch).len() == s.len(),
        done_len(marked(s, batch)) >= done_len(s),
        frontier_of(s) matches Some(f) ==> (frontier_of(marked(s, batch)) matches Some(g) && g.0 >= f.0),
{
    let t = marked(s, batch);
    lemma_done_len_bounds(s);
    lemma_done_len_bounds(t);
    if done_len(t) < done_len(s) {
        assert(t[done_len(t) as int].completed);
    }
    if done_len(s) > 0 {
        assert(t[done_len(s) - 1].offset == s[done_len(s) - 1].offset);
        if done_len(t) > done_len(s) {
            assert(t[done_len(s) - 1].offset < t[done_len(t) - 1].offset);
        }
    }
}

/// Two ledgers in offset order that hold the same slots are the same ledger:
/// a charge's result is fixed by the slots it adds.
pub proof fn lemma_ordered_slots_determined(a: Seq<Slot>, b: Seq<Slot>)
    requires
        ordered(a),
        ordered(b),
        a.to_set() == b.to_set(),
    ensures
        a == b,
    decreases a.len(),
{
    if a.len() == 0 {
        if b.len() > 0 {
            assert(a.to_set().contains(b[0]));
        }
        assert(a =~= b);
    } else {
        assert(b.to_set().contains(a[0]));
        assert(b.len() > 0);
        assert(a.to_set().contains(b[0]));
        let i = choose|i: int| 0 <= i < a.len() && a[i] == b[0];
        let j = choose|j: int| 0 <= j < b.len() && b[j] == a[0];
        if i > 0 {
            assert(a[0].offset < a[i].offset);
            if j > 0 {
                assert(b[0].offset < b[j].offset);
            }
        }
        assert(a[0] == b[0]);
        let a1 = a.drop_first();
        let b1 = b.drop_first();
        assert forall|x: Slot| a1.to_set().contains(x) implies b1.to_set().contains(x) by {
            let w = choose|w: int| 0 <= w < a1.len() && a1[w] == x;
            assert(a[w + 1] == x);
            assert(b.to_set().contains(x));
            let v = choose|v: int| 0 <= v < b.len() && b[v] == x;
            if v == 0 {
                assert(a[0].offset < a[w + 1].offset);
            }
            assert(b1[v - 1] == x);
        }
        assert forall|x: Slot| b1.to_set().contains(x) implies a1.to_set().contains(x) by {
            let w = choose|w: int| 0 <= w < b1.len() && b1[w] == x;
            assert(b[w + 1] == x);
            assert(a.to_set().contains(x));
            let v = choose|v: int| 0 <= v < a.len() && a[v] == x;
            if v == 0 {
                assert(b[0].offset < b[w + 1].offset);
            }
            assert(a1[v - 1] == x);
        }
        assert(a1.to_set() =~= b1.to_set());
        lemma_ordered_slots_determined(a1, b1);
        assert(a =~= b) by {
            assert forall|k: int| 0 <= k < a.len() implies a[k] == b[k] by {
                if k > 0 {
                    assert(a[k] == a1[k - 1]);
                    assert(b[k] == b1[k - 1]);
                }
            }
        }
    }
}

impl View for OffsetLedger {
    type V = Seq<Slot>;

    closed spec fn view(&self) -> Seq<Slot> {
        self.slots@
    }
}

impl OffsetLedger {
    pub open spec fn wf(&self) -> bool {
        slots_wf(self@)
    }

    /// An empty ledger.
    pub fn new() -> (ledger: OffsetLedger)
        ensures
            ledger.wf(),
            ledger@ == Seq::<Slot>::empty(),
    {
        OffsetLedger { slots: Vec::new() }
    }

    /// The number of outstanding offsets.
    pub fn len(&self) -> (n: usize)
        ensures
            n == self@.len(),
    {
        self.slots.len()
    }

    /// Place `slot` at its offset's position.
    fn insert_slot(&mut self, slot: Slot)
        requires
            old(self).wf(),
            slot.offset < i64::MAX,
            !holds_offset(old(self)@, slot.offset),
        ensures
            final(self).wf(),
            exists|i: int| 0 <= i <= old(self)@.len() && final(self)@ == old(self)@.insert(i, slot),
    {
        let mut i: usize = 0;
        while i < self.slots.len() && self.slots[i].offset < slot.offset
            invariant
                i <= self.slots@.len(),
                self.slots@ == old(self).slots@,
                forall|j: int| 0 <= j < i ==> self.slots@[j].offset < slot.offset,
            decreases self.slots@.len() - i,
        {
            i = i + 1;
        }
        let ghost s = self.slots@;
        assert forall|j: int| i <= j < s.len() implies s[j].offset > slot.offset by {
            if s[j].offset <= slot.offset {
                assert(s[i as int].offset <= s[j].offset);
                assert(s[i as int].offset != slot.offset);
            }
        }
        self.slots.insert(i, slot);
        assert(self.slots@ == s.insert(i as int, slot));
    }

    /// Charge a batch of delivered offsets: each opens a pending slot at its
    /// position in offset order.
    pub fn charge(&mut self, offset_charges: &[(Offset, Charge)])
        requires
            old(self).wf(),
            chargeable(old(self)@, offset_charges@),
        ensures
            final(self).wf(),
            final(self)@.len() == old(self)@.len() + offset_charges@.len(),
            final(self)@.to_set() == old(self)@.to_set().union(fresh_slots(offset_charges@).to_set()),
            forall|i: int, j: int| 0 <= i < j < final(self)@.len() ==> final(self)@[i].offset < final(self)@[j].offset,
            forall|x: Slot| #[trigger] final(self)@.contains(x) <==> (old(self)@.contains(x) || exists|j: int|
                0 <= j < offset_charges@.len() && x == Slot {
                    offset: offset_charges@[j].0.0,
                    charge: offset_charges@[j].1,
                    completed: false,
                }),
    {
        let ghost batch = offset_charges@;
        let mut k: usize = 0;
        while k < offset_charges.len()
            invariant
                k <= batch.len(),
                batch == offset_charges@,
                chargeable(old(self)@, batch),
                self.wf(),
                self@.len() == old(self)@.len() + k,
                self@.to_set() == old(self)@.to_set().union(fresh_slots(batch.take(k as int)).to_set()),
                forall|j: int| k <= j < batch.len() ==> !holds_offset(self@, #[trigger] batch[j].0.0),
            decreases batch.len() - k,
        {
            let (offset, charge) = offset_charges[k];
            let slot = Slot { offset: offset.0, charge, completed: false };
            let ghost before = self@;
            assert(!holds_offset(before, batch[k as int].0.0));
            self.insert_slot(slot);
            let ghost i = choose|i: int| 0 <= i <= before.len() && self@ == before.insert(i, slot);
            proof {
                lemma_insert_to_set(before, i, slot);
                assert(fresh_slots(batch.take(k + 1)) =~= fresh_slots(batch.take(k as int)).push(slot));
                fresh_slots(batch.take(k as int)).lemma_push_to_set_commute(slot);
                assert forall|j: int| k + 1 <= j < batch.len() implies !holds_offset(self@, #[trigger] batch[j].0.0) by {
                    let o = batch[j].0.0;
                    assert(o != slot.offset);
                    if holds_offset(self@, o) {
                        let w = choose|w: int| 0 <= w < self@.len() && self@[w].offset == o;
                        if w < i {
                            assert(before[w].offset == o);
                        } else {
                            assert(w != i);
                            assert(before[w - 1].offset == o);
                        }
                    }
                }
            }
            k = k + 1;
        }
        assert(batch.take(batch.len() as int) =~= batch);
        assert forall|x: Slot| #[trigger] self@.contains(x) <==> (old(self)@.contains(x) || exists|j: int|
            0 <= j < batch.len() && x == Slot { offset: batch[j].0.0, charge: batch[j].1, completed: false }) by {
            assert(self@.contains(x) == self@.to_set().contains(x));
            assert(old(self)@.contains(x) == old(self)@.to_set().contains(x));
            let f = fresh_slots(batch);
            if f.contains(x) {
                let j = choose|j: int| 0 <= j < f.len() && f[j] == x;
                assert(x == Slot { offset: batch[j].0.0, charge: batch[j].1, completed: false });
            }
            if exists|j: int| 0 <= j < batch.len() && x == fresh_slot(batch[j]) {
                let j = choose|j: int| 0 <= j < batch.len() && x == fresh_slot(batch[j]);
                assert(f[j] == x);
            }
        }
    }

    /// Where offset `o` stands, found by binary search.
    fn position(&self, o: i64) -> (r: Option<usize>)
        requires
            self.wf(),
        ensures
            match r {
                Some(i) => i < self@.len() && self@[i as int].offset == o,
                None => !holds_offset(self@, o),
            },
    {
        let mut lo: usize = 0;
        let mut hi: usize = self.slots.len();
        while lo < hi
            invariant
                lo <= hi <= self.slots@.len(),
                self.wf(),
                forall|j: int| 0 <= j < lo ==> self.slots@[j].offset < o,
                forall|j: int| hi <= j < self.slots@.len() ==> self.slots@[j].offset > o,
            decreases hi - lo,
        {
            let mid = lo + (hi - lo) / 2;
            let at = self.slots[mid].offset;
            if at == o {
                return Some(mid);
            } else if at < o {
                lo = mid + 1;
            } else {
                hi = mid;
            }
        }
        None
    }

    /// Whether the ledger holds `offset`.
    pub fn holds(&self, offset: Offset) -> (r: bool)
        requires
            self.wf(),
        ensures
            r == holds_offset(self@, offset.0),
            r == exists|i: int| 0 <= i < self@.len() && #[trigger] self@[i].offset == offset.0,
    {
        self.position(offset.0).is_some()
    }

    /// Mark every charged offset of the batch completed. Offsets the ledger
    /// does not hold are passed over.
    pub fn complete(&mut self, offsets: &[Offset])
        requires
            old(self).wf(),
        ensures
            final(self).wf(),
            final(self)@ == marked(old(self)@, offsets@),
            final(self)@.len() == old(self)@.len(),
            forall|i: int| 0 <= i < old(self)@.len() ==> {
                &&& #[trigger] final(self)@[i].offset == old(self)@[i].offset
                &&& final(self)@[i].charge == old(self)@[i].charge
                &&& final(self)@[i].completed == (old(self)@[i].completed || exists|j: int|
                    0 <= j < offsets@.len() && offsets@[j].0 == old(self)@[i].offset)
            },
    {
        let ghost batch = offsets@;
        let mut k: usize = 0;
        assert(marked(old(self)@, batch.take(0)) =~= old(self)@);
        while k < offsets.len()
            invariant
                k <= batch.len(),
                batch == offsets@,
                self@ == marked(old(self)@, batch.take(k as int)),
                old(self).wf(),
            decreases batch.len() - k,
        {
            let o = offsets[k].0;
            let ghost before = self@;
            assert(self.wf()) by {
                assert forall|j: int| 0 <= j < self@.len() implies self@[j].offset == old(self)@[j].offset by {}
            }
            match self.position(o) {
                Some(i) => {
                    let mut slot = self.slots[i];
                    slot.completed = true;
                    self.slots.set(i, slot);
                }
                None => {}
            }
            proof {
                let b0 = batch.take(k as int);
                let b1 = batch.take(k + 1);
                assert forall|j: int| 0 <= j < self@.len() implies self@[j] == marked(old(self)@, b1)[j] by {
                    let off = old(self)@[j].offset;
                    if requested(b0, off) {
                        let w = choose|w: int| 0 <= w < b0.len() && b0[w].0 == off;
                        assert(b1[w].0 == off);
                    }
                    if requested(b1, off) {
                        let w = choose|w: int| 0 <= w < b1.len() && b1[w].0 == off;
                        if w < k {
                            assert(b0[w].0 == off);
                        }
                    }
                    if before[j].offset == o {
                        assert(b1[k as int].0 == off);
                    }
                }
                assert(self@ =~= marked(old(self)@, b1));
            }
            k = k + 1;
        }
        assert(batch.take(batch.len() as int) =~= batch);
    }

    /// The length of the completed prefix, counted.
    fn done_count(&self) -> (n: usize)
        ensures
            n == done_len(self@),
    {
        let mut n: usize = 0;
        while n < self.slots.len() && self.slots[n].completed
            invariant
                n <= self.slots@.len(),
                forall|j: int| 0 <= j < n ==> #[trigger] self.slots@[j].completed,
            decreases self.slots@.len() - n,
        {
            n = n + 1;
        }
        proof {
            lemma_done_len_is(self@, n as int);
        }
        n
    }

    /// The next offset to read after the longest completed prefix, or `None`
    /// where the first outstanding offset is pending or nothing is
    /// outstanding.
    pub fn frontier(&self) -> (r: Option<Offset>)
        requires
            self.wf(),
        ensures
            r == frontier_of(self@),
            r is None <==> (self@.len() == 0 || !self@[0].completed),
            r matches Some(f) ==> exists|m: int|
                0 <= m < self@.len() && (forall|j: int| 0 <= j <= m ==> #[trigger] self@[j].completed) && (m + 1
                    == self@.len() || !self@[m + 1].completed) && f.0 == #[trigger] self@[m].offset + 1,
    {
        let n = self.done_count();
        proof {
            lemma_done_len_bounds(self@);
            lemma_frontier_characterized(self@);
        }
        if n == 0 {
            None
        } else {
            Some(Offset(self.slots[n - 1].offset + 1))
        }
    }

    /// Drop the completed prefix, and return the frontier it made.
    pub fn take_frontier(&mut self) -> (r: Option<Offset>)
        requires
            old(self).wf(),
        ensures
            final(self).wf(),
            r == frontier_of(old(self)@),
            final(self)@ == drained(old(self)@),
            exists|n: int|
                0 <= n <= old(self)@.len() && (forall|j: int| 0 <= j < n ==> #[trigger] old(self)@[j].completed)
                    && (n == old(self)@.len() || !old(self)@[n].completed) && final(self)@ == old(self)@.skip(n)
                    && r == (if n == 0 {
                    None
                } else {
                    Some(Offset((old(self)@[n - 1].offset + 1) as i64))
                }),
    {
        let r = self.frontier();
        let n = self.done_count();
        proof {
            lemma_done_len_bounds(self@);
        }
        let rest = self.slots.split_off(n);
        self.slots = rest;
        assert(self@ =~= drained(old(self)@));
        r
    }
}

} // verus!
