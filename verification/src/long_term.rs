//! Long-term memory: a compressed summary of all past experience.
//!
//! Each label has a summary: how many outcomes were observed, their running
//! mean and sum of squared deviations, and the best and worst outcome. The
//! bookkeeping (counts, extremes, labels) is done here; the floating-point
//! update of the running mean and deviations is supplied by the caller as a
//! function, since this library does no floating-point arithmetic.
use vstd::prelude::*;

use crate::score::{fmax, fmin, Score, INFINITY_BITS, NEG_INFINITY_BITS};
use crate::seq_facts::lemma_filter_take_step;

verus! {

/// A summary of accumulated experience across many decisions.
#[derive(Clone, Debug)]
pub struct ExperienceSummary {
    /// Label for the experience category.
    pub label: String,
    /// Running count of observations.
    pub count: u64,
    /// Running mean outcome.
    pub mean_outcome: Score,
    /// Running sum of squared deviations from the mean (Welford's M2).
    pub variance: Score,
    /// Best outcome observed.
    pub best_outcome: Score,
    /// Worst outcome observed.
    pub worst_outcome: Score,
}

/// A summary with no observations yet: zero count, zero mean and deviation,
/// best at negative infinity and worst at positive infinity.
pub open spec fn is_fresh(s: ExperienceSummary) -> bool {
    &&& s.count == 0
    &&& s.mean_outcome.bits == 0
    &&& s.variance.bits == 0
    &&& s.best_outcome.bits == NEG_INFINITY_BITS
    &&& s.worst_outcome.bits == INFINITY_BITS
}

/// `after` is `before` having observed `outcome`: one more observation, the
/// extremes widened by it, and the running statistics those that `stats`
/// gives for the new count, the old mean and deviation, and the outcome.
pub open spec fn observed<F: Fn(u64, Score, Score, Score) -> (Score, Score)>(
    before: ExperienceSummary,
    after: ExperienceSummary,
    outcome: Score,
    stats: F,
) -> bool {
    &&& after.label@ == before.label@
    &&& after.count == before.count + 1
    &&& after.best_outcome == if before.best_outcome.spec_lt(outcome) {
        outcome
    } else {
        before.best_outcome
    }
    &&& after.worst_outcome == if outcome.spec_lt(before.worst_outcome) {
        outcome
    } else {
        before.worst_outcome
    }
    &&& stats.ensures(
        ((before.count + 1) as u64, before.mean_outcome, before.variance, outcome),
        (after.mean_outcome, after.variance),
    )
}

impl PartialEq for ExperienceSummary {
    fn eq(&self, other: &Self) -> (r: bool) {
        self.label == other.label && self.count == other.count && self.mean_outcome
            == other.mean_outcome && self.variance == other.variance && self.best_outcome
            == other.best_outcome && self.worst_outcome == other.worst_outcome
    }
}

impl vstd::std_specs::cmp::PartialEqSpecImpl for ExperienceSummary {
    open spec fn obeys_eq_spec() -> bool {
        true
    }

    open spec fn eq_spec(&self, other: &Self) -> bool {
        &&& self.label@ == other.label@
        &&& self.count == other.count
        &&& self.mean_outcome.spec_same(other.mean_outcome)
        &&& self.variance.spec_same(other.variance)
        &&& self.best_outcome.spec_same(other.best_outcome)
        &&& self.worst_outcome.spec_same(other.worst_outcome)
    }
}

impl ExperienceSummary {
    /// Create a new empty summary.
    pub fn new(label: &str) -> (s: ExperienceSummary)
        ensures
            s.label@ == label@,
            is_fresh(s),
    {
        ExperienceSummary {
            label: label.to_owned(),
            count: 0,
            mean_outcome: Score::zero(),
            variance: Score::zero(),
            best_outcome: Score::neg_infinity(),
            worst_outcome: Score::infinity(),
        }
    }

    /// Observe a new outcome. `stats` computes the new running mean and M2
    /// from the new count, the current mean and M2, and the outcome.
    pub fn observe<F: Fn(u64, Score, Score, Score) -> (Score, Score)>(
        &mut self,
        outcome: Score,
        stats: &F,
    )
        requires
            old(self).count < u64::MAX,
            forall|n: u64, m: Score, v: Score, x: Score| stats.requires((n, m, v, x)),
        ensures
            observed(*old(self), *final(self), outcome, *stats),
            final(self).label == old(self).label,
    {
        self.count = self.count + 1;
        let (m, v) = stats(self.count, self.mean_outcome, self.variance, outcome);
        self.mean_outcome = m;
        self.variance = v;
        if self.best_outcome.lt(&outcome) {
            self.best_outcome = outcome;
        }
        if outcome.lt(&self.worst_outcome) {
            self.worst_outcome = outcome;
        }
    }

    /// A copy of this summary.
    pub fn duplicate(&self) -> (s: ExperienceSummary)
        ensures
            s == *self,
    {
        ExperienceSummary {
            label: self.label.clone(),
            count: self.count,
            mean_outcome: self.mean_outcome,
            variance: self.variance,
            best_outcome: self.best_outcome,
            worst_outcome: self.worst_outcome,
        }
    }
}

/// Some summary carries the label.
pub open spec fn has_label(s: Seq<ExperienceSummary>, l: Seq<char>) -> bool {
    exists|j: int| 0 <= j < s.len() && (#[trigger] s[j]).label@ == l
}

/// The position of the summary carrying the label.
pub open spec fn label_at(s: Seq<ExperienceSummary>, l: Seq<char>) -> int {
    choose|j: int| 0 <= j < s.len() && (#[trigger] s[j]).label@ == l
}

/// Every summary has at least one observation.
pub open spec fn counts_positive(s: Seq<ExperienceSummary>) -> bool {
    forall|j: int| 0 <= j < s.len() ==> (#[trigger] s[j]).count > 0
}

/// No two summaries carry the same label.
pub open spec fn labels_unique(s: Seq<ExperienceSummary>) -> bool {
    forall|a: int, b: int|
        0 <= a < s.len() && 0 <= b < s.len() && a != b ==> (#[trigger] s[a]).label@
            != (#[trigger] s[b]).label@
}

/// Sum of the observation counts.
pub open spec fn total_count(s: Seq<ExperienceSummary>) -> int
    decreases s.len(),
{
    if s.len() == 0 {
        0
    } else {
        total_count(s.drop_last()) + s.last().count
    }
}

/// Position of the summary that `max_by` on means picks: scanning in order,
/// each summary replaces the current pick unless the pick's mean is strictly
/// greater (an unordered comparison counts as equal).
pub open spec fn best_index(s: Seq<ExperienceSummary>) -> int
    decreases s.len(),
{
    if s.len() <= 1 {
        0
    } else {
        let b = best_index(s.drop_last());
        if s.last().mean_outcome.spec_lt(s[b].mean_outcome) {
            b
        } else {
            s.len() - 1
        }
    }
}

/// `after` is `before` merged with `incoming` (same label): counts summed,
/// extremes combined, M2 kept, and, when the total count is positive, the
/// mean that `combine` gives for the two means and counts.
pub open spec fn merged<F: Fn(Score, u64, Score, u64) -> Score>(
    before: ExperienceSummary,
    incoming: ExperienceSummary,
    after: ExperienceSummary,
    combine: F,
) -> bool {
    &&& after.label == before.label
    &&& after.count == before.count + incoming.count
    &&& after.variance == before.variance
    &&& after.best_outcome == fmax(before.best_outcome, incoming.best_outcome)
    &&& after.worst_outcome == fmin(before.worst_outcome, incoming.worst_outcome)
    &&& if before.count + incoming.count > 0 {
        combine.ensures(
            (before.mean_outcome, before.count, incoming.mean_outcome, incoming.count),
            after.mean_outcome,
        )
    } else {
        after.mean_outcome == before.mean_outcome
    }
}

/// The summaries of `other` whose label `mine` lacks.
pub open spec fn new_labels(
    mine: Seq<ExperienceSummary>,
    other: Seq<ExperienceSummary>,
) -> Seq<ExperienceSummary> {
    other.filter(|s: ExperienceSummary| !has_label(mine, s.label@))
}

/// `after` is `before` having observed `outcome` under `label`: the label's
/// summary observes it in place, or a fresh summary for the label is added at
/// the end and observes it.
pub open spec fn observe_step<F: Fn(u64, Score, Score, Score) -> (Score, Score)>(
    before: Seq<ExperienceSummary>,
    label: Seq<char>,
    outcome: Score,
    after: Seq<ExperienceSummary>,
    stats: F,
) -> bool {
    if has_label(before, label) {
        let i = label_at(before, label);
        &&& after.len() == before.len()
        &&& forall|j: int| 0 <= j < before.len() && j != i ==> #[trigger] after[j] == before[j]
        &&& observed(before[i], after[i], outcome, stats)
    } else {
        &&& after.len() == before.len() + 1
        &&& after.take(before.len() as int) == before
        &&& exists|fresh: ExperienceSummary|
            is_fresh(fresh) && fresh.label@ == label && observed(fresh, after.last(), outcome, stats)
    }
}

/// Observations recorded under a label (zero when it has no summary).
pub open spec fn label_count(s: Seq<ExperienceSummary>, l: Seq<char>) -> int {
    if has_label(s, l) {
        s[label_at(s, l)].count as int
    } else {
        0
    }
}

/// An observation step adds one observation to its label and leaves the
/// other labels, and whether they are present, as they were.
pub proof fn lemma_observe_step_counts<F: Fn(u64, Score, Score, Score) -> (Score, Score)>(
    before: Seq<ExperienceSummary>,
    label: Seq<char>,
    outcome: Score,
    after: Seq<ExperienceSummary>,
    stats: F,
)
    requires
        labels_unique(before),
        labels_unique(after),
        observe_step(before, label, outcome, after, stats),
    ensures
        has_label(after, label),
        label_count(after, label) == label_count(before, label) + 1,
        forall|l: Seq<char>|
            l != label ==> (has_label(after, l) == has_label(before, l) && label_count(after, l)
                == label_count(before, l)),
{
    if has_label(before, label) {
        let i = label_at(before, label);
        assert(after[i].label@ == label);
        assert(has_label(after, label));
        let w = label_at(after, label);
        if w != i {
            assert(after[w].label@ != after[i].label@);
        }
        assert forall|l: Seq<char>| l != label implies (has_label(after, l) == has_label(before, l)
            && label_count(after, l) == label_count(before, l)) by {
            if has_label(before, l) {
                let b = label_at(before, l);
                assert(b != i);
                assert(after[b] == before[b]);
                assert(has_label(after, l));
                let a = label_at(after, l);
                if a != b {
                    assert(after[a].label@ != after[b].label@);
                }
            }
            if has_label(after, l) {
                let a = label_at(after, l);
                assert(a != i);
                assert(after[a] == before[a]);
            }
        }
    } else {
        let n = before.len() as int;
        assert(after[n] == after.last());
        assert(after[n].label@ == label);
        assert(has_label(after, label));
        let w = label_at(after, label);
        if w != n {
            assert(after[w].label@ != after[n].label@);
        }
        assert forall|l: Seq<char>| l != label implies (has_label(after, l) == has_label(before, l)
            && label_count(after, l) == label_count(before, l)) by {
            if has_label(before, l) {
                let b = label_at(before, l);
                assert(after[b] == after.take(n)[b]);
                assert(has_label(after, l));
                let a = label_at(after, l);
                if a != b {
                    assert(after[a].label@ != after[b].label@);
                }
            }
            if has_label(after, l) {
                let a = label_at(after, l);
                assert(a != n);
                assert(after[a] == after.take(n)[a]);
            }
        }
    }
}

/// Long-term memory: a collection of experience summaries keyed by label.
#[derive(Clone, Debug)]
pub struct LongTermMemory {
    summaries: Vec<ExperienceSummary>,
}

/// Finds the summary carrying a label.
fn find_label(s: &Vec<ExperienceSummary>, label: &String) -> (r: Option<usize>)
    requires
        labels_unique(s@),
    ensures
        match r {
            Some(i) => has_label(s@, label@) && i == label_at(s@, label@) && i < s@.len(),
            None => !has_label(s@, label@),
        },
{
    for j in 0..s.len()
        invariant
            labels_unique(s@),
            forall|x: int| 0 <= x < j ==> (#[trigger] s@[x]).label@ != label@,
    {
        if s[j].label == *label {
            proof {
                assert(s@[j as int].label@ == label@);
                assert(has_label(s@, label@));
                let w = label_at(s@, label@);
                assert(s@[w].label@ == label@);
                if w != j {
                    assert(s@[w].label@ != s@[j as int].label@);
                }
            }
            return Some(j);
        }
    }
    None
}

impl LongTermMemory {
    /// The summaries in order of first observation.
    pub closed spec fn view(self) -> Seq<ExperienceSummary> {
        self.summaries@
    }

    /// Each label has at most one summary, and every summary has been
    /// observed at least once.
    pub open spec fn inv(self) -> bool {
        counts_positive(self@) && labels_unique(self@)
    }

    /// Create empty long-term memory.
    pub fn new() -> (m: LongTermMemory)
        ensures
            m.inv(),
            m@.len() == 0,
    {
        LongTermMemory { summaries: Vec::new() }
    }

    /// Observe an outcome under a label, creating the summary at the end if
    /// the label is new.
    pub fn observe<F: Fn(u64, Score, Score, Score) -> (Score, Score)>(
        &mut self,
        label: &str,
        outcome: Score,
        stats: &F,
    )
        requires
            old(self).inv(),
            forall|n: u64, m: Score, v: Score, x: Score| stats.requires((n, m, v, x)),
            has_label(old(self)@, label@) ==> old(self)@[label_at(old(self)@, label@)].count
                < u64::MAX,
        ensures
            final(self).inv(),
            observe_step(old(self)@, label@, outcome, final(self)@, *stats),
            label_count(final(self)@, label@) == label_count(old(self)@, label@) + 1,
            final(self)@.len() == old(self)@.len() + if label_count(old(self)@, label@) == 0 {
                1int
            } else {
                0int
            },
            forall|l: Seq<char>|
                l != label@ ==> (has_label(final(self)@, l) == has_label(old(self)@, l)
                    && label_count(final(self)@, l) == label_count(old(self)@, l)),
            total_count(final(self)@) == total_count(old(self)@) + 1,
    {
        let ghost before0 = self@;
        let key = label.to_owned();
        match find_label(&self.summaries, &key) {
            Some(i) => {
                let ghost before = self.summaries@;
                let mut s = self.summaries.remove(i);
                s.observe(outcome, stats);
                self.summaries.insert(i, s);
                proof {
                    assert(self.summaries@ == before.update(i as int, s));
                    assert forall|j: int| 0 <= j < self@.len() implies (#[trigger] self@[j]).count > 0 by {
                        if j != i {
                            assert(self@[j] == before[j]);
                        }
                    }
                    assert forall|a: int, b: int|
                        0 <= a < self@.len() && 0 <= b < self@.len() && a != b implies (#[trigger] self@[a]).label@
                            != (#[trigger] self@[b]).label@ by {
                        assert(before[a].label@ == self@[a].label@);
                        assert(before[b].label@ == self@[b].label@);
                    }
                }
            },
            None => {
                let ghost before = self.summaries@;
                let mut s = ExperienceSummary::new(label);
                let ghost fresh = s;
                s.observe(outcome, stats);
                self.summaries.push(s);
                proof {
                    assert(self.summaries@.take(before.len() as int) == before);
                    assert(self.summaries@.last() == s);
                    assert forall|j: int| 0 <= j < self@.len() implies (#[trigger] self@[j]).count > 0 by {
                        if j < before.len() {
                            assert(self@[j] == before[j]);
                        }
                    }
                    assert forall|a: int, b: int|
                        0 <= a < self@.len() && 0 <= b < self@.len() && a != b implies (#[trigger] self@[a]).label@
                            != (#[trigger] self@[b]).label@ by {
                        if a < before.len() && b < before.len() {
                            assert(before[a] == self@[a] && before[b] == self@[b]);
                        } else if a < before.len() {
                            assert(before[a] == self@[a]);
                        } else if b < before.len() {
                            assert(before[b] == self@[b]);
                        }
                    }
                }
            },
        }
        proof {
            lemma_observe_step_counts(before0, label@, outcome, self@, *stats);
            lemma_observe_adds_one(before0, label@, outcome, self@, *stats);
            if has_label(before0, label@) {
                assert(before0[label_at(before0, label@)].count > 0);
            }
        }
    }

    /// Get a summary by label.
    pub fn get(&self, label: &str) -> (r: Option<&ExperienceSummary>)
        requires
            self.inv(),
        ensures
            match r {
                Some(s) => has_label(self@, label@) && *s == self@[label_at(self@, label@)],
                None => !has_label(self@, label@),
            },
    {
        let key = label.to_owned();
        match find_label(&self.summaries, &key) {
            Some(i) => Some(&self.summaries[i]),
            None => None,
        }
    }

    /// The label whose summary has the highest mean outcome (the last of
    /// equally high ones), or `None` when empty.
    pub fn best_label(&self) -> (r: Option<&str>)
        ensures
            match r {
                Some(l) => self@.len() > 0 && l@ == self@[best_index(self@)].label@,
                None => self@.len() == 0,
            },
    {
        if self.summaries.len() == 0 {
            return None;
        }
        let mut b: usize = 0;
        for i in 1..self.summaries.len()
            invariant
                self.summaries@.len() > 0,
                b == best_index(self.summaries@.take(i as int)),
                b < i,
        {
            proof {
                let t = self.summaries@.take(i + 1);
                assert(t.drop_last() == self.summaries@.take(i as int));
                assert(t[b as int] == self.summaries@[b as int]);
            }
            if !self.summaries[i].mean_outcome.lt(&self.summaries[b].mean_outcome) {
                b = i;
            }
        }
        proof {
            assert(self.summaries@.take(self.summaries@.len() as int) == self.summaries@);
        }
        Some(self.summaries[b].label.as_str())
    }

    /// Merge another long-term memory into this one. Summaries with a label
    /// already present are combined (counts summed, extremes widened, means
    /// combined by `combine` from the two means and counts); the others are
    /// copied to the end, in their order.
    pub fn merge<F: Fn(Score, u64, Score, u64) -> Score>(
        &mut self,
        other: &LongTermMemory,
        combine: &F,
    )
        requires
            old(self).inv(),
            other.inv(),
            forall|m1: Score, c1: u64, m2: Score, c2: u64| combine.requires((m1, c1, m2, c2)),
            forall|j: int, k: int|
                0 <= j < old(self)@.len() && 0 <= k < other@.len() && (#[trigger] old(self)@[j]).label@
                    == (#[trigger] other@[k]).label@ ==> old(self)@[j].count + other@[k].count
                    <= u64::MAX,
        ensures
            final(self).inv(),
            final(self)@.len() == old(self)@.len() + new_labels(old(self)@, other@).len(),
            final(self)@.skip(old(self)@.len() as int) == new_labels(old(self)@, other@),
            total_count(final(self)@) == total_count(old(self)@) + total_count(other@),
            merged_by_label(old(self)@, other@, final(self)@, *combine),
            forall|j: int|
                0 <= j < old(self)@.len() ==> if has_label(other@, (#[trigger] old(self)@[j]).label@) {
                    merged(
                        old(self)@[j],
                        other@[label_at(other@, old(self)@[j].label@)],
                        final(self)@[j],
                        *combine,
                    )
                } else {
                    final(self)@[j] == old(self)@[j]
                },
            forall|j: int|
                0 <= j < old(self)@.len() && has_label(other@, (#[trigger] old(self)@[j]).label@)
                    ==> ({
                    let mine = old(self)@[j];
                    let theirs = other@[label_at(other@, mine.label@)];
                    let now = final(self)@[j];
                    &&& now.label == mine.label
                    &&& now.count == mine.count + theirs.count
                    &&& (now.best_outcome == mine.best_outcome || now.best_outcome
                        == theirs.best_outcome)
                    &&& (now.worst_outcome == mine.worst_outcome || now.worst_outcome
                        == theirs.worst_outcome)
                    &&& !mine.best_outcome.is_nan() && !theirs.best_outcome.is_nan() ==> {
                        &&& mine.best_outcome.spec_le(now.best_outcome)
                        &&& theirs.best_outcome.spec_le(now.best_outcome)
                    }
                    &&& !mine.worst_outcome.is_nan() && !theirs.worst_outcome.is_nan() ==> {
                        &&& now.worst_outcome.spec_le(mine.worst_outcome)
                        &&& now.worst_outcome.spec_le(theirs.worst_outcome)
                    }
                }),
    {
        let ghost orig = self.summaries@;
        let ghost o = other.summaries@;
        let ghost pred = |s: ExperienceSummary| !has_label(orig, s.label@);
        for k in 0..other.summaries.len()
            invariant
                o == other.summaries@,
                orig == old(self)@,
                pred == (|s: ExperienceSummary| !has_label(orig, s.label@)),
                labels_unique(o),
                labels_unique(orig),
                labels_unique(self.summaries@),
                counts_positive(o),
                counts_positive(self.summaries@),
                forall|m1: Score, c1: u64, m2: Score, c2: u64| combine.requires((m1, c1, m2, c2)),
                forall|j: int, k2: int|
                    0 <= j < orig.len() && 0 <= k2 < o.len() && (#[trigger] orig[j]).label@
                        == (#[trigger] o[k2]).label@ ==> orig[j].count + o[k2].count <= u64::MAX,
                self.summaries@.len() == orig.len() + o.take(k as int).filter(pred).len(),
                self.summaries@.skip(orig.len() as int) == o.take(k as int).filter(pred),
                total_count(self.summaries@) == total_count(orig) + total_count(o.take(k as int)),
                forall|x: int|
                    orig.len() <= x < self.summaries@.len() ==> !has_label(
                        orig,
                        (#[trigger] self.summaries@[x]).label@,
                    ) && has_label(o.take(k as int), self.summaries@[x].label@),
                forall|j: int|
                    0 <= j < orig.len() ==> (#[trigger] self.summaries@[j]).label == orig[j].label
                        && if has_label(o.take(k as int), orig[j].label@) {
                        merged(orig[j], o[label_at(o, orig[j].label@)], self.summaries@[j], *combine)
                    } else {
                        self.summaries@[j] == orig[j]
                    },
        {
            let s = &other.summaries[k];
            let ghost before = self.summaries@;
            let ghost lbl = s.label@;
            proof {
                assert(o.take(k + 1).drop_last() == o.take(k as int));
                assert(o.take(k + 1).last() == o[k as int]);
                lemma_filter_take_step(o, k as int, pred);
                assert(o.take(k + 1).drop_last() == o.take(k as int));
                // No earlier summary of `other` carries this label.
                if has_label(o.take(k as int), lbl) {
                    let w = choose|w: int| 0 <= w < o.take(k as int).len() && (#[trigger] o.take(k as int)[w]).label@ == lbl;
                    assert(o[w].label@ == o[k as int].label@);
                }
                assert(!has_label(o.take(k as int), lbl));
                assert(has_label(o.take(k + 1), lbl)) by {
                    assert(o.take(k + 1)[k as int] == o[k as int]);
                }
                assert forall|l: Seq<char>| l != lbl implies has_label(o.take(k + 1), l) == has_label(o.take(k as int), l) by {
                    if has_label(o.take(k + 1), l) {
                        let w = choose|w: int| 0 <= w < o.take(k + 1).len() && (#[trigger] o.take(k + 1)[w]).label@ == l;
                        assert(w < k);
                        assert(o.take(k as int)[w] == o.take(k + 1)[w]);
                    }
                    if has_label(o.take(k as int), l) {
                        let w = choose|w: int| 0 <= w < o.take(k as int).len() && (#[trigger] o.take(k as int)[w]).label@ == l;
                        assert(o.take(k as int)[w] == o.take(k + 1)[w]);
                    }
                }
                assert(label_at(o, lbl) == k) by {
                    assert(o[k as int].label@ == lbl);
                    assert(has_label(o, lbl));
                    let w = label_at(o, lbl);
                    if w != k {
                        assert(o[w].label@ != o[k as int].label@);
                    }
                }
            }
            match find_label(&self.summaries, &s.label) {
                Some(i) => {
                    proof {
                        if i >= orig.len() {
                            assert(has_label(o.take(k as int), before[i as int].label@));
                            assert(false);
                        }
                        assert(orig[i as int].label@ == lbl);
                        assert(before[i as int] == orig[i as int]);
                    }
                    let mut own = self.summaries.remove(i);
                    let total = own.count + s.count;
                    if total > 0 {
                        own.mean_outcome = combine(own.mean_outcome, own.count, s.mean_outcome, s.count);
                    }
                    own.count = total;
                    own.best_outcome = own.best_outcome.max(s.best_outcome);
                    own.worst_outcome = own.worst_outcome.min(s.worst_outcome);
                    self.summaries.insert(i, own);
                    proof {
                        assert(self.summaries@ == before.update(i as int, own));
                        lemma_total_count_update(before, i as int, own);
                        assert forall|j: int| 0 <= j < self.summaries@.len() implies (#[trigger] self.summaries@[j]).count > 0 by {
                            if j != i {
                                assert(self.summaries@[j] == before[j]);
                            }
                        }
                        assert(merged(orig[i as int], o[k as int], own, *combine));
                        assert(self.summaries@.skip(orig.len() as int) == before.skip(orig.len() as int));
                        assert forall|j: int| 0 <= j < orig.len() && j != i implies orig[j].label@ != lbl by {
                            assert(orig[j].label@ != orig[i as int].label@);
                        }
                        assert forall|a: int, b: int|
                            0 <= a < self.summaries@.len() && 0 <= b < self.summaries@.len() && a != b implies (#[trigger] self.summaries@[a]).label@
                                != (#[trigger] self.summaries@[b]).label@ by {
                            assert(before[a].label@ == self.summaries@[a].label@);
                            assert(before[b].label@ == self.summaries@[b].label@);
                        }
                        assert forall|x: int| orig.len() <= x < self.summaries@.len() implies !has_label(
                            orig,
                            (#[trigger] self.summaries@[x]).label@,
                        ) && has_label(o.take(k + 1), self.summaries@[x].label@) by {
                            assert(self.summaries@[x] == before[x]);
                            assert(before[x].label@ != lbl);
                        }
                    }
                },
                None => {
                    proof {
                        assert forall|j: int| 0 <= j < orig.len() implies orig[j].label@ != lbl by {
                            assert(before[j].label@ == orig[j].label@);
                        }
                        assert(!has_label(orig, lbl));
                        assert(pred(o[k as int]));
                    }
                    self.summaries.push(s.duplicate());
                    proof {
                        assert(self.summaries@ == before.push(o[k as int]));
                        assert(self.summaries@.drop_last() == before);
                        assert forall|j: int| 0 <= j < self.summaries@.len() implies (#[trigger] self.summaries@[j]).count > 0 by {
                            if j < before.len() {
                                assert(self.summaries@[j] == before[j]);
                            }
                        }
                        assert(self.summaries@.skip(orig.len() as int) == before.skip(orig.len() as int).push(o[k as int]));
                        assert forall|a: int, b: int|
                            0 <= a < self.summaries@.len() && 0 <= b < self.summaries@.len() && a != b implies (#[trigger] self.summaries@[a]).label@
                                != (#[trigger] self.summaries@[b]).label@ by {
                            if a < before.len() && b < before.len() {
                                assert(before[a] == self.summaries@[a] && before[b] == self.summaries@[b]);
                            } else if a < before.len() {
                                assert(before[a] == self.summaries@[a]);
                            } else if b < before.len() {
                                assert(before[b] == self.summaries@[b]);
                            }
                        }
                        assert forall|x: int| orig.len() <= x < self.summaries@.len() implies !has_label(
                            orig,
                            (#[trigger] self.summaries@[x]).label@,
                        ) && has_label(o.take(k + 1), self.summaries@[x].label@) by {
                            if x < before.len() {
                                assert(self.summaries@[x] == before[x]);
                                assert(before[x].label@ != lbl);
                            }
                        }
                    }
                },
            }
        }
        proof {
            assert(o.take(o.len() as int) == o);
            lemma_merge_by_label(orig, o, self.summaries@, *combine);
        }
    }

    /// Number of distinct labels.
    pub fn len(&self) -> (n: usize)
        ensures
            n == self@.len(),
    {
        self.summaries.len()
    }

    /// Whether empty.
    pub fn is_empty(&self) -> (b: bool)
        ensures
            b == (self@.len() == 0),
    {
        self.summaries.is_empty()
    }

    /// All summaries, in order of first observation.
    pub fn summaries(&self) -> (r: &[ExperienceSummary])
        ensures
            r@ == self@,
    {
        self.summaries.as_slice()
    }

    /// Total observations across all summaries.
    pub fn total_observations(&self) -> (t: u64)
        requires
            total_count(self@) <= u64::MAX,
        ensures
            t == total_count(self@),
    {
        let mut t: u64 = 0;
        for i in 0..self.summaries.len()
            invariant
                t == total_count(self.summaries@.take(i as int)),
                total_count(self.summaries@) <= u64::MAX,
        {
            proof {
                let p = self.summaries@.take(i + 1);
                assert(p.drop_last() == self.summaries@.take(i as int));
                lemma_total_count_prefix(self.summaries@, i + 1);
            }
            t = t + self.summaries[i].count;
        }
        proof {
            assert(self.summaries@.take(self.summaries@.len() as int) == self.summaries@);
        }
        t
    }
}

impl Default for LongTermMemory {
    fn default() -> (m: LongTermMemory)
        ensures
            m.inv(),
            m@.len() == 0,
    {
        LongTermMemory::new()
    }
}

/// What `merge` leaves for one label `l`.
proof fn lemma_merge_label<F: Fn(Score, u64, Score, u64) -> Score>(
    mine: Seq<ExperienceSummary>,
    theirs: Seq<ExperienceSummary>,
    after: Seq<ExperienceSummary>,
    combine: F,
    l: Seq<char>,
)
    requires
        labels_unique(mine),
        labels_unique(theirs),
        labels_unique(after),
        after.len() == mine.len() + new_labels(mine, theirs).len(),
        after.skip(mine.len() as int) == new_labels(mine, theirs),
        forall|j: int|
            0 <= j < mine.len() ==> if has_label(theirs, (#[trigger] mine[j]).label@) {
                merged(mine[j], theirs[label_at(theirs, mine[j].label@)], after[j], combine)
            } else {
                after[j] == mine[j]
            },
    ensures
        has_label(after, l) == (has_label(mine, l) || has_label(theirs, l)),
        has_label(mine, l) && !has_label(theirs, l) ==> after[label_at(after, l)] == mine[label_at(
            mine,
            l,
        )],
        !has_label(mine, l) && has_label(theirs, l) ==> after[label_at(after, l)] == theirs[label_at(
            theirs,
            l,
        )],
        has_label(mine, l) && has_label(theirs, l) ==> merged(
            mine[label_at(mine, l)],
            theirs[label_at(theirs, l)],
            after[label_at(after, l)],
            combine,
        ),
{
    let n = mine.len() as int;
    let pred = |s: ExperienceSummary| !has_label(mine, s.label@);
    let nl = new_labels(mine, theirs);
    assert(nl == theirs.filter(pred));
    if has_label(mine, l) {
        let j = label_at(mine, l);
        assert(after[j].label@ == mine[j].label@);
        assert(has_label(after, l));
        let w = label_at(after, l);
        if w != j {
            assert(after[w].label@ != after[j].label@);
        }
    } else if has_label(theirs, l) {
        let k = label_at(theirs, l);
        assert(pred(theirs[k]));
        theirs.lemma_filter_contains(pred, k);
        let x = choose|x: int| 0 <= x < nl.len() && nl[x] == theirs[k];
        assert(after[n + x] == after.skip(n)[x]);
        assert(after[n + x].label@ == l);
        assert(has_label(after, l));
        let w = label_at(after, l);
        if w != n + x {
            assert(after[w].label@ != after[n + x].label@);
        }
    } else {
        if has_label(after, l) {
            let w = label_at(after, l);
            if w < n {
                assert(after[w].label@ == mine[w].label@);
                assert(has_label(mine, l));
            } else {
                assert(after[w] == after.skip(n)[w - n]);
                assert(nl.contains(after[w]));
                theirs.lemma_filter_contains_rev(pred, after[w]);
                let k = choose|k: int| 0 <= k < theirs.len() && theirs[k] == after[w];
                assert(theirs[k].label@ == l);
                assert(has_label(theirs, l));
            }
        }
    }
}

/// Merging, label by label: a label is present afterwards exactly when
/// either memory had it; a label only in this memory keeps its summary, a
/// label only in the other gets the other's summary, and a label in both
/// gets the two summaries merged.
pub proof fn lemma_merge_by_label<F: Fn(Score, u64, Score, u64) -> Score>(
    mine: Seq<ExperienceSummary>,
    theirs: Seq<ExperienceSummary>,
    after: Seq<ExperienceSummary>,
    combine: F,
)
    requires
        labels_unique(mine),
        labels_unique(theirs),
        labels_unique(after),
        after.len() == mine.len() + new_labels(mine, theirs).len(),
        after.skip(mine.len() as int) == new_labels(mine, theirs),
        forall|j: int|
            0 <= j < mine.len() ==> if has_label(theirs, (#[trigger] mine[j]).label@) {
                merged(mine[j], theirs[label_at(theirs, mine[j].label@)], after[j], combine)
            } else {
                after[j] == mine[j]
            },
    ensures
        merged_by_label(mine, theirs, after, combine),
{
    assert forall|l: Seq<char>| #[trigger] has_label(after, l) == (has_label(mine, l) || has_label(theirs, l)) by {
        lemma_merge_label(mine, theirs, after, combine, l);
    }
    assert forall|l: Seq<char>|
        #![trigger label_at(after, l)]
        {
            &&& has_label(mine, l) && !has_label(theirs, l) ==> after[label_at(after, l)]
                == mine[label_at(mine, l)]
            &&& !has_label(mine, l) && has_label(theirs, l) ==> after[label_at(after, l)]
                == theirs[label_at(theirs, l)]
            &&& has_label(mine, l) && has_label(theirs, l) ==> merged(
                mine[label_at(mine, l)],
                theirs[label_at(theirs, l)],
                after[label_at(after, l)],
                combine,
            )
        } by {
        lemma_merge_label(mine, theirs, after, combine, l);
    }
}

/// `after` is `mine` merged with `theirs`, stated per label.
pub open spec fn merged_by_label<F: Fn(Score, u64, Score, u64) -> Score>(
    mine: Seq<ExperienceSummary>,
    theirs: Seq<ExperienceSummary>,
    after: Seq<ExperienceSummary>,
    combine: F,
) -> bool {
    &&& forall|l: Seq<char>|
        #[trigger] has_label(after, l) == (has_label(mine, l) || has_label(theirs, l))
    &&& forall|l: Seq<char>|
        #![trigger label_at(after, l)]
        {
            &&& has_label(mine, l) && !has_label(theirs, l) ==> after[label_at(after, l)]
                == mine[label_at(mine, l)]
            &&& !has_label(mine, l) && has_label(theirs, l) ==> after[label_at(after, l)]
                == theirs[label_at(theirs, l)]
            &&& has_label(mine, l) && has_label(theirs, l) ==> merged(
                mine[label_at(mine, l)],
                theirs[label_at(theirs, l)],
                after[label_at(after, l)],
                combine,
            )
        }
}

/// `after` is `before` having observed each of `xs` in order; `trace`
/// lists the summaries in between.
pub open spec fn observes_outcomes<F: Fn(u64, Score, Score, Score) -> (Score, Score)>(
    before: ExperienceSummary,
    xs: Seq<Score>,
    after: ExperienceSummary,
    trace: Seq<ExperienceSummary>,
    stats: F,
) -> bool {
    &&& trace.len() == xs.len() + 1
    &&& trace[0] == before
    &&& trace[xs.len() as int] == after
    &&& forall|k: int|
        0 <= k < xs.len() ==> observed(#[trigger] trace[k], trace[k + 1], xs[k], stats)
}

/// The best outcome after observing `xs` from `b`: each outcome above the
/// current best replaces it.
pub open spec fn running_best(b: Score, xs: Seq<Score>) -> Score
    decreases xs.len(),
{
    if xs.len() == 0 {
        b
    } else {
        let m = running_best(b, xs.drop_last());
        if m.spec_lt(xs.last()) {
            xs.last()
        } else {
            m
        }
    }
}

/// The worst outcome after observing `xs` from `w`: each outcome below the
/// current worst replaces it.
pub open spec fn running_worst(w: Score, xs: Seq<Score>) -> Score
    decreases xs.len(),
{
    if xs.len() == 0 {
        w
    } else {
        let m = running_worst(w, xs.drop_last());
        if xs.last().spec_lt(m) {
            xs.last()
        } else {
            m
        }
    }
}

/// Observing a sequence of outcomes adds their number to the count, keeps
/// the label, and tracks the running best and worst.
pub proof fn lemma_observes_outcomes<F: Fn(u64, Score, Score, Score) -> (Score, Score)>(
    before: ExperienceSummary,
    xs: Seq<Score>,
    after: ExperienceSummary,
    trace: Seq<ExperienceSummary>,
    stats: F,
)
    requires
        observes_outcomes(before, xs, after, trace, stats),
    ensures
        after.label@ == before.label@,
        after.count == before.count + xs.len(),
        after.best_outcome == running_best(before.best_outcome, xs),
        after.worst_outcome == running_worst(before.worst_outcome, xs),
    decreases xs.len(),
{
    if xs.len() > 0 {
        let n = xs.len() as int;
        let prev = xs.drop_last();
        let t = trace.take(n);
        assert forall|k: int| 0 <= k < prev.len() implies observed(#[trigger] t[k], t[k + 1], prev[k], stats) by {
            assert(t[k] == trace[k] && t[k + 1] == trace[k + 1] && prev[k] == xs[k]);
        }
        lemma_observes_outcomes(before, prev, trace[n - 1], t, stats);
        assert(observed(trace[n - 1], trace[n], xs[n - 1], stats));
        assert(xs.last() == xs[n - 1]);
    }
}

/// Starting from a fresh summary and observing outcomes none of which is
/// NaN, the best outcome is the largest of them and the worst the smallest.
pub proof fn lemma_extremes_of_outcomes(xs: Seq<Score>)
    requires
        xs.len() > 0,
        forall|k: int| 0 <= k < xs.len() ==> !(#[trigger] xs[k]).is_nan(),
    ensures
        exists|i: int|
            0 <= i < xs.len() && #[trigger] xs[i].key() == running_best(
                Score { bits: NEG_INFINITY_BITS },
                xs,
            ).key(),
        forall|k: int|
            0 <= k < xs.len() ==> (#[trigger] xs[k]).key() <= running_best(
                Score { bits: NEG_INFINITY_BITS },
                xs,
            ).key(),
        exists|i: int|
            0 <= i < xs.len() && #[trigger] xs[i].key() == running_worst(
                Score { bits: INFINITY_BITS },
                xs,
            ).key(),
        forall|k: int|
            0 <= k < xs.len() ==> (#[trigger] xs[k]).key() >= running_worst(
                Score { bits: INFINITY_BITS },
                xs,
            ).key(),
    decreases xs.len(),
{
    let lo = Score { bits: NEG_INFINITY_BITS };
    let hi = Score { bits: INFINITY_BITS };
    let n = xs.len() as int;
    let x = xs[n - 1];
    assert(xs.last() == x);
    assert(!lo.is_nan() && lo.key() == -(INFINITY_BITS as int));
    assert(!hi.is_nan() && hi.key() == INFINITY_BITS as int);
    assert(-(INFINITY_BITS as int) <= x.key() <= INFINITY_BITS as int);
    if n == 1 {
        assert(xs.drop_last().len() == 0);
        assert(running_best(lo, xs.drop_last()) == lo);
        assert(running_worst(hi, xs.drop_last()) == hi);
        assert(xs[0].key() == running_best(lo, xs).key());
        assert(xs[0].key() == running_worst(hi, xs).key());
    } else {
        let p = xs.drop_last();
        assert forall|k: int| 0 <= k < p.len() implies !(#[trigger] p[k]).is_nan() by {
            assert(p[k] == xs[k]);
        }
        lemma_extremes_of_outcomes(p);
        let b = running_best(lo, p);
        let w = running_worst(hi, p);
        let ib = choose|i: int| 0 <= i < p.len() && #[trigger] p[i].key() == b.key();
        let iw = choose|i: int| 0 <= i < p.len() && #[trigger] p[i].key() == w.key();
        assert(p[ib] == xs[ib] && p[iw] == xs[iw]);
        assert(!b.is_nan()) by {
            assert(!p[ib].is_nan());
        }
        assert(!w.is_nan()) by {
            assert(!p[iw].is_nan());
        }
        assert forall|k: int| 0 <= k < n implies (#[trigger] xs[k]).key() <= running_best(lo, xs).key() by {
            if k < n - 1 {
                assert(p[k] == xs[k]);
            }
        }
        assert forall|k: int| 0 <= k < n implies (#[trigger] xs[k]).key() >= running_worst(hi, xs).key() by {
            if k < n - 1 {
                assert(p[k] == xs[k]);
            }
        }
        if b.spec_lt(x) {
            assert(xs[n - 1].key() == running_best(lo, xs).key());
        } else {
            assert(xs[ib].key() == running_best(lo, xs).key());
        }
        if x.spec_lt(w) {
            assert(xs[n - 1].key() == running_worst(hi, xs).key());
        } else {
            assert(xs[iw].key() == running_worst(hi, xs).key());
        }
    }
}

/// Counts are non-negative, so a prefix never totals more than the whole.
pub proof fn lemma_total_count_prefix(s: Seq<ExperienceSummary>, k: int)
    requires
        0 <= k <= s.len(),
    ensures
        total_count(s.take(k)) <= total_count(s),
    decreases s.len(),
{
    if k < s.len() {
        assert(s.drop_last().take(k) == s.take(k));
        lemma_total_count_prefix(s.drop_last(), k);
    } else {
        assert(s.take(k) == s);
    }
}

/// Replacing one summary changes the total by the difference of counts.
pub proof fn lemma_total_count_update(s: Seq<ExperienceSummary>, i: int, x: ExperienceSummary)
    requires
        0 <= i < s.len(),
    ensures
        total_count(s.update(i, x)) == total_count(s) - s[i].count + x.count,
    decreases s.len(),
{
    if i == s.len() - 1 {
        assert(s.update(i, x).drop_last() == s.drop_last());
    } else {
        assert(s.update(i, x).drop_last() == s.drop_last().update(i, x));
        lemma_total_count_update(s.drop_last(), i, x);
    }
}

/// Each observation adds exactly one to the total count of observations.
pub proof fn lemma_observe_adds_one<F: Fn(u64, Score, Score, Score) -> (Score, Score)>(
    before: Seq<ExperienceSummary>,
    label: Seq<char>,
    outcome: Score,
    after: Seq<ExperienceSummary>,
    stats: F,
)
    requires
        observe_step(before, label, outcome, after, stats),
    ensures
        total_count(after) == total_count(before) + 1,
{
    if has_label(before, label) {
        let i = label_at(before, label);
        assert(after == before.update(i, after[i]));
        lemma_total_count_update(before, i, after[i]);
    } else {
        assert(after.drop_last() == after.take(before.len() as int));
        let fresh = choose|fresh: ExperienceSummary|
            is_fresh(fresh) && fresh.label@ == label && observed(fresh, after.last(), outcome, stats);
        assert(after.last().count == 1);
    }
}

/// The best label's mean is the highest, and no later summary's mean
/// equals it: `best_label` picks the last of the highest means (when no
/// mean is NaN).
pub proof fn lemma_best_is_highest(s: Seq<ExperienceSummary>)
    requires
        s.len() > 0,
        forall|j: int| 0 <= j < s.len() ==> !(#[trigger] s[j]).mean_outcome.is_nan(),
    ensures
        0 <= best_index(s) < s.len(),
        forall|j: int|
            0 <= j < s.len() ==> (#[trigger] s[j]).mean_outcome.key() <= s[best_index(
                s,
            )].mean_outcome.key(),
        forall|j: int|
            best_index(s) < j < s.len() ==> (#[trigger] s[j]).mean_outcome.key() < s[best_index(
                s,
            )].mean_outcome.key(),
    decreases s.len(),
{
    if s.len() > 1 {
        let d = s.drop_last();
        assert forall|j: int| 0 <= j < d.len() implies !(#[trigger] d[j]).mean_outcome.is_nan() by {
            assert(d[j] == s[j]);
        }
        lemma_best_is_highest(d);
        let b = best_index(d);
        assert(d[b] == s[b]);
        assert forall|j: int| 0 <= j < d.len() implies (#[trigger] s[j]).mean_outcome.key()
            == d[j].mean_outcome.key() by {
            assert(d[j] == s[j]);
        }
        assert(!s.last().mean_outcome.is_nan());
        assert(s.last() == s[s.len() - 1]);
    }
}

} // verus!
