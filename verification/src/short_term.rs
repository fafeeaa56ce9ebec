//! Short-term memory: a fixed-size ring buffer of recent decisions.
//!
//! The buffer keeps the most recent `capacity` decisions; storing into a full
//! buffer overwrites the oldest one. Recall reports each entry with its age,
//! the number of ticks since it was made; how retention decays with age is a
//! forgetting curve's business and is left to the caller.
use vstd::prelude::*;

use crate::score::Score;

verus! {

/// Views of a sequence of strings as character sequences.
pub open spec fn strings_view(s: Seq<String>) -> Seq<Seq<char>> {
    s.map_values(|t: String| t@)
}

/// A decision made by an agent, stored in short-term memory.
#[derive(Clone, Debug)]
pub struct Decision {
    /// A label identifying the action or choice.
    pub action: String,
    /// A scalar outcome score (higher = better).
    pub outcome: Score,
    /// Timestamp or tick when the decision was made.
    pub tick: u64,
    /// Context tags for indexing.
    pub tags: Vec<String>,
}

/// The mathematical content of a decision.
pub struct DecisionView {
    pub action: Seq<char>,
    pub outcome: Score,
    pub tick: u64,
    pub tags: Seq<Seq<char>>,
}

impl View for Decision {
    type V = DecisionView;

    open spec fn view(&self) -> DecisionView {
        DecisionView {
            action: self.action@,
            outcome: self.outcome,
            tick: self.tick,
            tags: strings_view(self.tags@),
        }
    }
}

/// Copies a list of strings.
fn copy_strings(v: &Vec<String>) -> (r: Vec<String>)
    ensures
        r@ == v@,
{
    let mut r: Vec<String> = Vec::new();
    for i in 0..v.len()
        invariant
            r@ == v@.take(i as int),
    {
        r.push(v[i].clone());
        assert(r@ == v@.take(i + 1));
    }
    assert(v@.take(v.len() as int) == v@);
    r
}

/// Whether two lists of strings hold the same texts in the same order.
pub(crate) fn strings_equal(a: &Vec<String>, b: &Vec<String>) -> (r: bool)
    ensures
        r == (strings_view(a@) == strings_view(b@)),
{
    if a.len() != b.len() {
        proof {
            assert(strings_view(a@).len() != strings_view(b@).len());
        }
        return false;
    }
    for i in 0..a.len()
        invariant
            a@.len() == b@.len(),
            forall|j: int| 0 <= j < i ==> (#[trigger] a@[j])@ == b@[j]@,
    {
        if a[i] != b[i] {
            proof {
                assert(strings_view(a@)[i as int] != strings_view(b@)[i as int]);
            }
            return false;
        }
    }
    proof {
        assert(strings_view(a@) =~= strings_view(b@));
    }
    true
}

impl PartialEq for Decision {
    fn eq(&self, other: &Self) -> (r: bool) {
        self.action == other.action && self.outcome == other.outcome && self.tick == other.tick
            && strings_equal(&self.tags, &other.tags)
    }
}

impl vstd::std_specs::cmp::PartialEqSpecImpl for Decision {
    open spec fn obeys_eq_spec() -> bool {
        true
    }

    open spec fn eq_spec(&self, other: &Self) -> bool {
        &&& self.action@ == other.action@
        &&& self.outcome.spec_same(other.outcome)
        &&& self.tick == other.tick
        &&& strings_view(self.tags@) == strings_view(other.tags@)
    }
}

impl Decision {
    /// Create a new decision with no tags.
    pub fn new(action: &str, outcome: Score, tick: u64) -> (d: Decision)
        ensures
            d.action@ == action@,
            d.outcome == outcome,
            d.tick == tick,
            d.tags@.len() == 0,
    {
        Decision { action: action.to_owned(), outcome, tick, tags: Vec::new() }
    }

    /// Add a context tag.
    pub fn with_tag(self, tag: &str) -> (d: Decision)
        ensures
            d.action == self.action,
            d.outcome == self.outcome,
            d.tick == self.tick,
            d.tags@.len() == self.tags@.len() + 1,
            d.tags@.take(self.tags@.len() as int) == self.tags@,
            d.tags@.last()@ == tag@,
    {
        let mut d = self;
        d.tags.push(tag.to_owned());
        d
    }

    /// A copy of this decision.
    pub fn duplicate(&self) -> (d: Decision)
        ensures
            d@ == self@,
            d.action == self.action,
            d.tags@ == self.tags@,
    {
        Decision {
            action: self.action.clone(),
            outcome: self.outcome,
            tick: self.tick,
            tags: copy_strings(&self.tags),
        }
    }
}

/// A recalled decision together with its age in ticks.
#[derive(Clone, Debug)]
pub struct MemoryEntry {
    pub decision: Decision,
    /// Ticks elapsed between the decision and the memory's current tick.
    pub age: u64,
}

/// A recalled decision together with its retention under a forgetting curve.
#[derive(Clone, Debug)]
pub struct RetainedEntry {
    pub decision: Decision,
    /// Retention of the decision, between 0 and 1 for the usual curves.
    pub retention: Score,
}

/// The entry's retention is at least `threshold` (as `retention >= threshold` on binary64).
pub open spec fn retained_at(threshold: Score) -> spec_fn(RetainedEntry) -> bool {
    |e: RetainedEntry| threshold.spec_le(e.retention)
}

/// The entries whose retention is at least `threshold`, in the same order.
pub fn recall_above_threshold(entries: Vec<RetainedEntry>, threshold: Score) -> (r: Vec<
    RetainedEntry,
>)
    ensures
        r@ == entries@.filter(retained_at(threshold)),
        r@ == entries@.filter(|e: RetainedEntry| threshold.spec_le(e.retention)),
{
    let ghost orig = entries@;
    let n = entries.len();
    let mut entries = entries;
    let mut rev: Vec<RetainedEntry> = Vec::new();
    while entries.len() > 0
        invariant
            orig.len() == n,
            entries@ == orig.take(entries@.len() as int),
            rev@.len() + entries@.len() == n,
            forall|j: int| 0 <= j < rev@.len() ==> #[trigger] rev@[j] == orig[n - 1 - j],
        decreases entries@.len(),
    {
        let x = entries.pop().unwrap();
        rev.push(x);
    }
    let mut r: Vec<RetainedEntry> = Vec::new();
    for i in 0..n
        invariant
            orig.len() == n,
            rev@.len() == n - i,
            forall|j: int| 0 <= j < rev@.len() ==> #[trigger] rev@[j] == orig[n - 1 - j],
            r@ == orig.take(i as int).filter(retained_at(threshold)),
    {
        let x = rev.pop().unwrap();
        proof {
            assert(x == orig[i as int]);
            crate::seq_facts::lemma_filter_take_step(orig, i as int, retained_at(threshold));
        }
        if threshold.le(&x.retention) {
            r.push(x);
        }
    }
    proof {
        crate::seq_facts::lemma_take_all(orig);
        let direct = |e: RetainedEntry| threshold.spec_le(e.retention);
        assert(retained_at(threshold) =~= direct);
    }
    r
}

/// The mathematical content of a short-term memory.
pub struct StmView {
    /// Stored decisions, oldest first.
    pub items: Seq<Decision>,
    /// Number of slots.
    pub capacity: nat,
    /// Slot the next decision is written to.
    pub head: nat,
    /// Largest tick of any decision stored so far.
    pub current_tick: u64,
}

/// The entries kept after appending `d` to `items` in a ring of `capacity` slots.
pub open spec fn ring_append(items: Seq<Decision>, d: Decision, capacity: nat) -> Seq<Decision> {
    if items.len() < capacity {
        items.push(d)
    } else {
        items.drop_first().push(d)
    }
}

/// The entries in slot order: once the ring has wrapped, the oldest entry
/// sits in slot `head`, so slot 0 holds entry number `capacity - head`.
pub open spec fn slot_order(items: Seq<Decision>, capacity: nat, head: nat) -> Seq<Decision> {
    if items.len() < capacity {
        items
    } else {
        items.subrange(capacity - head, capacity as int) + items.subrange(0, capacity - head)
    }
}

/// The order in which `drain` hands out the stored decisions.
pub open spec fn drain_order(v: StmView) -> Seq<Decision> {
    slot_order(v.items, v.capacity, v.head)
}

/// Fixed-size ring buffer storing recent decisions.
#[derive(Clone, Debug)]
pub struct ShortTermMemory {
    buffer: Vec<Option<Decision>>,
    capacity: usize,
    head: usize,
    len: usize,
    current_tick: u64,
}

impl ShortTermMemory {
    /// Slot of the `k`-th oldest stored entry.
    pub closed spec fn slot(self, k: int) -> int {
        if self.len < self.capacity {
            k
        } else if self.head + k < self.capacity {
            self.head + k
        } else {
            self.head + k - self.capacity
        }
    }

    /// Internal consistency of the ring.
    pub closed spec fn wf(self) -> bool {
        &&& self.buffer@.len() == self.capacity
        &&& self.len <= self.capacity
        &&& (self.capacity == 0 ==> self.head == 0)
        &&& (self.capacity > 0 ==> self.head < self.capacity)
        &&& (self.len < self.capacity ==> self.head == self.len)
        &&& forall|j: int|
            0 <= j < self.capacity ==> (#[trigger] self.buffer@[j] is Some <==> (
            self.len == self.capacity || j < self.len))
        &&& forall|j: int|
            0 <= j < self.capacity && #[trigger] self.buffer@[j] is Some ==> self.buffer@[j]->0.tick
                <= self.current_tick
    }

    /// The stored decisions, the number of slots, the write position and the current tick.
    pub closed spec fn view(self) -> StmView {
        StmView {
            items: Seq::new(self.len as nat, |k: int| self.buffer@[self.slot(k)]->0),
            capacity: self.capacity as nat,
            head: self.head as nat,
            current_tick: self.current_tick,
        }
    }

    proof fn lemma_view_props(self)
        requires
            self.wf(),
        ensures
            self.view().items.len() <= self.view().capacity,
            self.view().capacity == 0 ==> self.view().head == 0,
            self.view().capacity > 0 ==> self.view().head < self.view().capacity,
            self.view().items.len() < self.view().capacity ==> self.view().head
                == self.view().items.len(),
            forall|k: int|
                0 <= k < self.view().items.len() ==> #[trigger] self.view().items[k].tick
                    <= self.view().current_tick,
    {
        assert forall|k: int| 0 <= k < self.view().items.len() implies #[trigger] self.view().items[k].tick
            <= self.view().current_tick by {
            let j = self.slot(k);
            assert(0 <= j < self.capacity);
            assert(self.buffer@[j] is Some);
        }
    }

    /// The abstract state satisfies the ring's invariants.
    pub open spec fn inv(self) -> bool {
        &&& self.wf()
        &&& self@.items.len() <= self@.capacity
        &&& (self@.capacity == 0 ==> self@.head == 0)
        &&& (self@.capacity > 0 ==> self@.head < self@.capacity)
        &&& (self@.items.len() < self@.capacity ==> self@.head == self@.items.len())
        &&& forall|k: int|
            0 <= k < self@.items.len() ==> #[trigger] self@.items[k].tick <= self@.current_tick
    }

    /// Create a new short-term memory with the given capacity.
    pub fn new(capacity: usize) -> (m: ShortTermMemory)
        ensures
            m.inv(),
            m@.items.len() == 0,
            m@.capacity == capacity,
            m@.head == 0,
            m@.current_tick == 0,
    {
        let mut buffer: Vec<Option<Decision>> = Vec::new();
        for i in 0..capacity
            invariant
                buffer@.len() == i,
                forall|j: int| 0 <= j < i ==> buffer@[j] is None,
        {
            buffer.push(None);
        }
        let m = ShortTermMemory { buffer, capacity, head: 0, len: 0, current_tick: 0 };
        proof {
            m.lemma_view_props();
        }
        m
    }

    /// Create a short-term memory with the given capacity (same as `new`).
    pub fn with_capacity(capacity: usize) -> (m: ShortTermMemory)
        ensures
            m.inv(),
            m@.items.len() == 0,
            m@.capacity == capacity,
            m@.head == 0,
            m@.current_tick == 0,
    {
        Self::new(capacity)
    }

    /// Store a decision. If the buffer is full, the oldest entry is overwritten.
    pub fn store(&mut self, decision: Decision)
        requires
            old(self).inv(),
            old(self)@.capacity > 0,
        ensures
            final(self).inv(),
            final(self)@.capacity == old(self)@.capacity,
            final(self)@.items == ring_append(old(self)@.items, decision, old(self)@.capacity),
            final(self)@.head == if old(self)@.head + 1 == old(self)@.capacity {
                0
            } else {
                old(self)@.head + 1
            },
            final(self)@.current_tick == if decision.tick > old(self)@.current_tick {
                decision.tick
            } else {
                old(self)@.current_tick
            },
    {
        let ghost old_self = *self;
        let ghost d = decision;
        if decision.tick > self.current_tick {
            self.current_tick = decision.tick;
        }
        let h = self.head;
        self.buffer.set(h, Some(decision));
        self.head = if h + 1 == self.capacity { 0 } else { h + 1 };
        if self.len < self.capacity {
            self.len = self.len + 1;
        }
        proof {
            let ov = old_self.view().items;
            let nv = self.view().items;
            let expect = ring_append(ov, d, old_self.capacity as nat);
            assert(nv.len() == expect.len());
            assert forall|k: int| 0 <= k < nv.len() implies nv[k] == expect[k] by {
                if old_self.len < old_self.capacity {
                    if k < old_self.len {
                        assert(old_self.slot(k) == k);
                    }
                } else {
                    if k + 1 < old_self.len {
                        assert(old_self.slot(k + 1) == self.slot(k));
                    }
                }
            }
            assert(nv == expect);
            assert forall|j: int| 0 <= j < self.capacity && #[trigger] self.buffer@[j] is Some implies
                self.buffer@[j]->0.tick <= self.current_tick by {
                if j != h {
                    assert(old_self.buffer@[j] is Some);
                }
            }
            assert forall|j: int| 0 <= j < self.capacity implies (#[trigger] self.buffer@[j] is Some
                <==> (self.len == self.capacity || j < self.len)) by {
                if j != h {
                    assert(old_self.buffer@[j] is Some <==> (old_self.len == old_self.capacity || j
                        < old_self.len));
                }
            }
            self.lemma_view_props();
        }
    }

    /// Return all entries with their ages, newest first.
    pub fn recall(&self) -> (entries: Vec<MemoryEntry>)
        requires
            self.inv(),
        ensures
            entries@.len() == self@.items.len(),
            forall|i: int|
                0 <= i < entries@.len() ==> {
                    let d = self@.items[self@.items.len() - 1 - i];
                    &&& (#[trigger] entries@[i]).decision@ == d@
                    &&& entries@[i].age == self@.current_tick - d.tick
                },
    {
        let mut entries: Vec<MemoryEntry> = Vec::new();
        let n = self.len;
        for i in 0..n
            invariant
                n == self.len,
                self.inv(),
                entries@.len() == i,
                forall|m: int|
                    0 <= m < i ==> {
                        let d = self@.items[self@.items.len() - 1 - m];
                        &&& (#[trigger] entries@[m]).decision@ == d@
                        &&& entries@[m].age == self@.current_tick - d.tick
                    },
        {
            let k = n - 1 - i;
            let idx = if self.len < self.capacity {
                k
            } else if self.head < self.capacity - k {
                self.head + k
            } else {
                k - (self.capacity - self.head)
            };
            proof {
                assert(idx == self.slot(k as int));
                assert(self.buffer@[idx as int] is Some);
                assert(self@.items[k as int] == self.buffer@[idx as int]->0);
                assert(self@.items[k as int].tick <= self@.current_tick);
            }
            match &self.buffer[idx] {
                Some(decision) => {
                    let age = self.current_tick - decision.tick;
                    entries.push(MemoryEntry { decision: decision.duplicate(), age });
                },
                None => {},
            }
        }
        entries
    }

    /// Number of stored entries.
    pub fn len(&self) -> (n: usize)
        requires
            self.inv(),
        ensures
            n == self@.items.len(),
    {
        self.len
    }

    /// Whether memory is empty.
    pub fn is_empty(&self) -> (b: bool)
        requires
            self.inv(),
        ensures
            b == (self@.items.len() == 0),
    {
        self.len == 0
    }

    /// Clear all entries; the current tick is kept.
    pub fn clear(&mut self)
        requires
            old(self).inv(),
        ensures
            final(self).inv(),
            final(self)@.items.len() == 0,
            final(self)@.capacity == old(self)@.capacity,
            final(self)@.head == 0,
            final(self)@.current_tick == old(self)@.current_tick,
    {
        let cap = self.capacity;
        for j in 0..cap
            invariant
                cap == self.capacity,
                self.buffer@.len() == cap,
                self.current_tick == old(self).current_tick,
                forall|m: int| 0 <= m < j ==> self.buffer@[m] is None,
        {
            self.buffer.set(j, None);
        }
        self.head = 0;
        self.len = 0;
        proof {
            self.lemma_view_props();
        }
    }

    /// Drain all entries, returning them in slot order, and reset the buffer.
    pub fn drain(&mut self) -> (decisions: Vec<Decision>)
        requires
            old(self).inv(),
        ensures
            final(self).inv(),
            decisions@ == drain_order(old(self)@),
            forall|k: int|
                0 <= k < decisions@.len() ==> (#[trigger] decisions@[k]).tick <= old(self)@.current_tick,
            final(self)@.items.len() == 0,
            final(self)@.capacity == old(self)@.capacity,
            final(self)@.head == 0,
            final(self)@.current_tick == old(self)@.current_tick,
    {
        let ghost old_self = *self;
        let ghost expected = slot_order(old_self@.items, old_self@.capacity, old_self@.head);
        let mut decisions: Vec<Decision> = Vec::new();
        let cap = self.capacity;
        for j in 0..cap
            invariant
                cap == self.capacity,
                self.buffer@.len() == cap,
                old_self.wf(),
                old_self.buffer@.len() == cap,
                old_self.capacity == cap,
                self.current_tick == old_self.current_tick,
                forall|x: int|
                    0 <= x < decisions@.len() ==> (#[trigger] decisions@[x]).tick <= old_self.current_tick,
                expected == slot_order(old_self@.items, old_self@.capacity, old_self@.head),
                forall|m: int| 0 <= m < j ==> self.buffer@[m] is None,
                forall|m: int| j <= m < cap ==> self.buffer@[m] == old_self.buffer@[m],
                decisions@ == expected.take(
                    if old_self.len == cap || j <= old_self.len { j as int } else { old_self.len as int },
                ),
        {
            let mut slot: Option<Decision> = None;
            std::mem::swap(&mut slot, &mut self.buffer[j]);
            proof {
                let items = old_self@.items;
                assert(items.len() == old_self.len);
                if old_self.len == cap {
                    let h = old_self.head as int;
                    if (j as int) < h {
                        let k = cap - h + j;
                        assert(old_self.slot(k) == j);
                    } else {
                        let k = j - h;
                        assert(old_self.slot(k) == j);
                    }
                    assert(old_self.buffer@[j as int] is Some);
                    assert(expected[j as int] == old_self.buffer@[j as int]->0);
                } else if j < old_self.len {
                    assert(old_self.slot(j as int) == j);
                    assert(expected[j as int] == old_self.buffer@[j as int]->0);
                } else {
                    assert(old_self.buffer@[j as int] is None);
                }
            }
            proof {
                if slot is Some {
                    assert(old_self.buffer@[j as int] is Some);
                }
            }
            match slot {
                Some(d) => {
                    decisions.push(d);
                },
                None => {},
            }
            proof {
                let c = if old_self.len == cap || j + 1 <= old_self.len { j + 1 } else { old_self.len as int };
                assert(decisions@ == expected.take(c));
            }
        }
        self.head = 0;
        self.len = 0;
        proof {
            self.lemma_view_props();
            assert(expected.len() == old_self.len);
            assert(decisions@ == expected);
        }
        decisions
    }

    /// Number of slots.
    pub fn capacity(&self) -> (c: usize)
        ensures
            c == self@.capacity,
    {
        self.capacity
    }

    /// Get the current tick.
    pub fn current_tick(&self) -> (t: u64)
        requires
            self.inv(),
        ensures
            t == self@.current_tick,
    {
        self.current_tick
    }
}

/// The entries kept after storing each of `ds`, in order, into a ring of
/// `capacity` slots that holds `items`.
pub open spec fn ring_all(items: Seq<Decision>, ds: Seq<Decision>, capacity: nat) -> Seq<Decision>
    decreases ds.len(),
{
    if ds.len() == 0 {
        items
    } else {
        ring_append(ring_all(items, ds.drop_last(), capacity), ds.last(), capacity)
    }
}

/// The ring keeps the most recent decisions: after storing `ds` into a ring
/// that holds `items`, it holds the last `capacity` decisions of
/// `items + ds`, or all of them when they fit.
pub proof fn lemma_ring_keeps_most_recent(items: Seq<Decision>, ds: Seq<Decision>, capacity: nat)
    requires
        capacity > 0,
        items.len() <= capacity,
    ensures
        ring_all(items, ds, capacity) == (items + ds).skip(
            if items.len() + ds.len() > capacity {
                items.len() + ds.len() - capacity
            } else {
                0
            },
        ),
    decreases ds.len(),
{
    if ds.len() > 0 {
        let prev = ds.drop_last();
        lemma_ring_keeps_most_recent(items, prev, capacity);
        let s = items + prev;
        assert(items + ds == s.push(ds.last()));
        let m0: int = if s.len() > capacity {
            s.len() - capacity
        } else {
            0
        };
        let r = ring_all(items, prev, capacity);
        assert(r == s.skip(m0));
        if r.len() < capacity {
            assert(r.push(ds.last()) == s.push(ds.last()).skip(m0));
        } else {
            assert(r.drop_first().push(ds.last()) == s.push(ds.last()).skip(m0 + 1));
        }
    }
}

/// Draining hands out every stored decision exactly once: the drained
/// sequence is a rearrangement of the stored one.
pub proof fn lemma_drain_returns_all(v: StmView)
    requires
        v.items.len() <= v.capacity,
        v.capacity > 0 ==> v.head < v.capacity,
        v.capacity == 0 ==> v.head == 0,
    ensures
        drain_order(v).len() == v.items.len(),
        drain_order(v).to_multiset() == v.items.to_multiset(),
{
    if v.items.len() >= v.capacity {
        let c = v.capacity as int;
        let h = v.head as int;
        let a = v.items.subrange(0, c - h);
        let b = v.items.subrange(c - h, c);
        assert(v.items =~= a + b);
        vstd::seq_lib::lemma_seq_union_to_multiset_commutative(a, b);
    }
}

/// Draining hands out, as a multiset of decisions, exactly what `recall`
/// lists: `entries` is any list that `recall`'s postcondition allows.
pub proof fn lemma_drain_matches_recall(v: StmView, entries: Seq<MemoryEntry>)
    requires
        v.items.len() <= v.capacity,
        v.capacity > 0 ==> v.head < v.capacity,
        v.capacity == 0 ==> v.head == 0,
        entries.len() == v.items.len(),
        forall|i: int|
            0 <= i < entries.len() ==> (#[trigger] entries[i]).decision@ == v.items[v.items.len() - 1
                - i]@,
    ensures
        drain_order(v).map_values(|d: Decision| d@).to_multiset() == entries.map_values(
            |e: MemoryEntry| e.decision@,
        ).to_multiset(),
{
    let f = |d: Decision| d@;
    let all = v.items.map_values(f);
    let listed = entries.map_values(|e: MemoryEntry| e.decision@);
    assert(listed =~= all.reverse());
    all.lemma_reverse_to_multiset();
    if v.items.len() >= v.capacity {
        let c = v.capacity as int;
        let h = v.head as int;
        let a = v.items.subrange(0, c - h);
        let b = v.items.subrange(c - h, c);
        assert(all =~= a.map_values(f) + b.map_values(f));
        assert(drain_order(v).map_values(f) =~= b.map_values(f) + a.map_values(f));
        vstd::seq_lib::lemma_seq_union_to_multiset_commutative(a.map_values(f), b.map_values(f));
    }
}

} // verus!
