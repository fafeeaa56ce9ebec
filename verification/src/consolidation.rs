//! Memory consolidation: move short-term memories into long-term and
//! episodic memory.
//!
//! Every consolidated decision is observed in long-term memory under its
//! action label; an outcome at or above the breakthrough threshold is also
//! stored as a breakthrough episode, and one at or below the near-miss
//! threshold as a near-miss episode (both, when the thresholds cross). The caller
//! supplies the floating-point pieces: the running-statistics update and the
//! rendering of an outcome with two decimals.
use vstd::prelude::*;
use vstd::string::*;

use crate::episodic::{fifo_all, fifo_append, Episode, EpisodeKind, EpisodicMemory, EpisodicView};
use crate::long_term::{
    has_label,
    label_at,
    label_count,
    labels_unique,
    lemma_observe_adds_one,
    lemma_observe_step_counts,
    observe_step,
    total_count,
    ExperienceSummary,
    LongTermMemory,
};
use crate::score::Score;
use crate::seq_facts::{kept, lemma_filter_take_step, lemma_kept_step, lemma_take_all, negate};
use crate::short_term::{drain_order, strings_equal, strings_view, Decision, ShortTermMemory, StmView};

verus! {

/// Result of a consolidation pass.
#[derive(Clone, Debug)]
pub struct ConsolidationResult {
    /// Number of short-term memories consolidated.
    pub consolidated_count: usize,
    /// Number of new episodes detected.
    pub new_episodes: usize,
    /// Labels that were updated in long-term memory, each once, in order of
    /// first appearance.
    pub updated_labels: Vec<String>,
}

impl PartialEq for ConsolidationResult {
    fn eq(&self, other: &Self) -> (r: bool) {
        self.consolidated_count == other.consolidated_count && self.new_episodes
            == other.new_episodes && strings_equal(&self.updated_labels, &other.updated_labels)
    }
}

impl vstd::std_specs::cmp::PartialEqSpecImpl for ConsolidationResult {
    open spec fn obeys_eq_spec() -> bool {
        true
    }

    open spec fn eq_spec(&self, other: &Self) -> bool {
        &&& self.consolidated_count == other.consolidated_count
        &&& self.new_episodes == other.new_episodes
        &&& strings_view(self.updated_labels@) == strings_view(other.updated_labels@)
    }
}

/// Configuration for what counts as an episode-worthy event.
#[derive(Clone, Copy, Debug)]
pub struct ConsolidationConfig {
    /// Outcomes at or above this threshold are breakthroughs.
    pub breakthrough_threshold: Score,
    /// Outcomes at or below this threshold are near-misses.
    pub near_miss_threshold: Score,
}

/// Encoding of 0.8, the default breakthrough threshold.
pub const DEFAULT_BREAKTHROUGH_BITS: u64 = 0x3fe9_9999_9999_999a;

/// Encoding of -0.5, the default near-miss threshold.
pub const DEFAULT_NEAR_MISS_BITS: u64 = 0xbfe0_0000_0000_0000;

impl Default for ConsolidationConfig {
    fn default() -> (c: ConsolidationConfig)
        ensures
            c.breakthrough_threshold.bits == DEFAULT_BREAKTHROUGH_BITS,
            c.near_miss_threshold.bits == DEFAULT_NEAR_MISS_BITS,
    {
        ConsolidationConfig {
            breakthrough_threshold: Score::from_bits(DEFAULT_BREAKTHROUGH_BITS),
            near_miss_threshold: Score::from_bits(DEFAULT_NEAR_MISS_BITS),
        }
    }
}

/// The outcome is a breakthrough: at or above the breakthrough threshold.
pub open spec fn is_breakthrough(cfg: ConsolidationConfig) -> spec_fn(Decision) -> bool {
    |d: Decision| cfg.breakthrough_threshold.spec_le(d.outcome)
}

/// The outcome is a near miss: at or below the near-miss threshold.
pub open spec fn is_near_miss(cfg: ConsolidationConfig) -> spec_fn(Decision) -> bool {
    |d: Decision| d.outcome.spec_le(cfg.near_miss_threshold)
}

/// The episodes a decision makes, in order: a breakthrough when its outcome
/// is at or above the breakthrough threshold, then a near miss when it is at
/// or below the near-miss threshold (both, when the thresholds cross).
pub open spec fn kinds_for(cfg: ConsolidationConfig, d: Decision) -> Seq<EpisodeKind> {
    (if is_breakthrough(cfg)(d) {
        seq![EpisodeKind::Breakthrough]
    } else {
        Seq::empty()
    }) + (if is_near_miss(cfg)(d) {
        seq![EpisodeKind::NearMiss]
    } else {
        Seq::empty()
    })
}

/// The episodes consolidating `ds` makes, in order, each as the decision it
/// records and its kind.
pub open spec fn episode_plan(cfg: ConsolidationConfig, ds: Seq<Decision>) -> Seq<(Decision, EpisodeKind)>
    decreases ds.len(),
{
    if ds.len() == 0 {
        Seq::empty()
    } else {
        episode_plan(cfg, ds.drop_last()) + kinds_for(cfg, ds.last()).map_values(
            |k: EpisodeKind| (ds.last(), k),
        )
    }
}

/// The decision carries the action label `l`.
pub open spec fn acts_as(l: Seq<char>) -> spec_fn(Decision) -> bool {
    |d: Decision| d.action@ == l
}

/// How many decisions carry an action label.
pub open spec fn occurrences(ds: Seq<Decision>, l: Seq<char>) -> int {
    ds.filter(acts_as(l)).len() as int
}

/// The action labels of `ds`, each once, in order of first appearance.
pub open spec fn distinct_actions(ds: Seq<Decision>) -> Seq<Seq<char>>
    decreases ds.len(),
{
    if ds.len() == 0 {
        Seq::empty()
    } else {
        let r = distinct_actions(ds.drop_last());
        if r.contains(ds.last().action@) {
            r
        } else {
            r.push(ds.last().action@)
        }
    }
}

/// Text that opens the description of an episode of kind `k`.
pub open spec fn description_head(k: EpisodeKind) -> Seq<char> {
    match k {
        EpisodeKind::Breakthrough => "Breakthrough: "@,
        _ => "Near miss: "@,
    }
}

/// Episode `e` records decision `d` as an episode of kind `k`: its
/// description is the kind's heading, the action, and the outcome as
/// `render` shows it, as in `Breakthrough: attack (outcome=0.90)`.
pub open spec fn describes<G: Fn(Score) -> String>(
    e: Episode,
    d: Decision,
    k: EpisodeKind,
    render: G,
) -> bool {
    &&& e.kind == k
    &&& e.tick == d.tick
    &&& e.outcome == d.outcome
    &&& e.tags@.len() == 0
    &&& exists|r: String|
        render.ensures((d.outcome,), r) && e.description@ == description_head(k) + d.action@
            + " (outcome="@ + r@ + ")"@
}

/// `after` is `before` having observed each decision's outcome under its
/// action label, in order: `trace` lists the states in between.
pub open spec fn observes_through<F: Fn(u64, Score, Score, Score) -> (Score, Score)>(
    before: Seq<ExperienceSummary>,
    ds: Seq<Decision>,
    after: Seq<ExperienceSummary>,
    trace: Seq<Seq<ExperienceSummary>>,
    stats: F,
) -> bool {
    &&& trace.len() == ds.len() + 1
    &&& trace[0] == before
    &&& trace[ds.len() as int] == after
    &&& forall|k: int|
        0 <= k < ds.len() ==> observe_step(
            #[trigger] trace[k],
            ds[k].action@,
            ds[k].outcome,
            trace[k + 1],
            stats,
        )
}

/// `after` is `before` having observed each decision's outcome under its
/// action label, in order.
pub open spec fn observes_all<F: Fn(u64, Score, Score, Score) -> (Score, Score)>(
    before: Seq<ExperienceSummary>,
    ds: Seq<Decision>,
    after: Seq<ExperienceSummary>,
    stats: F,
) -> bool {
    exists|trace: Seq<Seq<ExperienceSummary>>| observes_through(before, ds, after, trace, stats)
}

/// What consolidating `ds` may assume: no label's count overflows, and
/// episodes can be stored if any arise.
pub open spec fn can_absorb(
    cfg: ConsolidationConfig,
    ds: Seq<Decision>,
    ltm: Seq<ExperienceSummary>,
    episodic: EpisodicView,
) -> bool {
    &&& forall|j: int|
        0 <= j < ltm.len() ==> (#[trigger] ltm[j]).count + occurrences(ds, ltm[j].label@)
            <= u64::MAX
    &&& (episodic.max_episodes > 0 || episode_plan(cfg, ds).len() == 0)
    &&& episode_plan(cfg, ds).len() <= usize::MAX
}

/// The effect of consolidating `ds`: long-term memory observes every
/// decision (so each label gains its occurrences, and exactly the labels
/// present before or acted on are present after); the episodes of
/// `episode_plan` are stored in order, oldest evicted first; and the result
/// counts the decisions and episodes and lists the distinct labels.
pub open spec fn absorbed<
    F: Fn(u64, Score, Score, Score) -> (Score, Score),
    G: Fn(Score) -> String,
>(
    cfg: ConsolidationConfig,
    ds: Seq<Decision>,
    ltm_before: Seq<ExperienceSummary>,
    ltm_after: Seq<ExperienceSummary>,
    ep_before: EpisodicView,
    ep_after: EpisodicView,
    r: ConsolidationResult,
    stats: F,
    render: G,
) -> bool {
    &&& observes_all(ltm_before, ds, ltm_after, stats)
    &&& forall|l: Seq<char>|
        #![trigger label_count(ltm_after, l)]
        label_count(ltm_after, l) == label_count(ltm_before, l) + occurrences(ds, l)
    &&& forall|l: Seq<char>|
        #![trigger has_label(ltm_after, l)]
        has_label(ltm_after, l) == (has_label(ltm_before, l) || occurrences(ds, l) > 0)
    &&& r.consolidated_count == ds.len()
    &&& r.new_episodes == episode_plan(cfg, ds).len()
    &&& strings_view(r.updated_labels@) == distinct_actions(ds)
    &&& ep_after.max_episodes == ep_before.max_episodes
    &&& exists|eps: Seq<Episode>|
        {
            &&& eps.len() == episode_plan(cfg, ds).len()
            &&& forall|k: int|
                0 <= k < eps.len() ==> describes(
                    #[trigger] eps[k],
                    episode_plan(cfg, ds)[k].0,
                    episode_plan(cfg, ds)[k].1,
                    render,
                )
            &&& ep_after.episodes == fifo_all(ep_before.episodes, eps, ep_before.max_episodes)
        }
}

/// A prefix never holds more occurrences of a label than the whole, and the
/// next decision adds one when it carries the label.
proof fn lemma_occurrences_prefix(ds: Seq<Decision>, i: int, l: Seq<char>)
    requires
        0 <= i < ds.len(),
    ensures
        occurrences(ds.take(i + 1), l) == occurrences(ds.take(i), l) + if ds[i].action@ == l {
            1int
        } else {
            0int
        },
        occurrences(ds.take(i + 1), l) <= occurrences(ds, l),
    decreases ds.len() - i,
{
    lemma_filter_take_step(ds, i, acts_as(l));
    if i + 1 < ds.len() {
        lemma_occurrences_prefix(ds, i + 1, l);
    } else {
        lemma_take_all(ds);
    }
}

/// Before the `i`-th decision is observed, its label has room for one more
/// observation.
proof fn lemma_absorb_room(
    cfg: ConsolidationConfig,
    ds: Seq<Decision>,
    ltm0: Seq<ExperienceSummary>,
    ep0: EpisodicView,
    before: Seq<ExperienceSummary>,
    i: int,
)
    requires
        0 <= i < ds.len(),
        ds.len() <= usize::MAX,
        can_absorb(cfg, ds, ltm0, ep0),
        forall|l: Seq<char>|
            #![trigger label_count(before, l)]
            label_count(before, l) == label_count(ltm0, l) + occurrences(ds.take(i), l),
    ensures
        label_count(before, ds[i].action@) < u64::MAX,
{
    let l = ds[i].action@;
    lemma_occurrences_prefix(ds, i, l);
    assert(label_count(before, l) == label_count(ltm0, l) + occurrences(ds.take(i), l));
    if has_label(ltm0, l) {
        let j = label_at(ltm0, l);
        assert(ltm0[j].count + occurrences(ds, ltm0[j].label@) <= u64::MAX);
    } else {
        ds.lemma_filter_len(acts_as(l));
    }
}

/// Observing the `i`-th decision adds one observation to its label and
/// keeps the counts of the others.
proof fn lemma_absorb_counts<F: Fn(u64, Score, Score, Score) -> (Score, Score)>(
    ltm0: Seq<ExperienceSummary>,
    ds: Seq<Decision>,
    i: int,
    before: Seq<ExperienceSummary>,
    after: Seq<ExperienceSummary>,
    stats: F,
)
    requires
        0 <= i < ds.len(),
        labels_unique(before),
        labels_unique(after),
        observe_step(before, ds[i].action@, ds[i].outcome, after, stats),
        forall|l: Seq<char>|
            #![trigger label_count(before, l)]
            label_count(before, l) == label_count(ltm0, l) + occurrences(ds.take(i), l),
        forall|l: Seq<char>|
            #![trigger has_label(before, l)]
            has_label(before, l) == (has_label(ltm0, l) || occurrences(ds.take(i), l) > 0),
    ensures
        forall|l: Seq<char>|
            #![trigger label_count(after, l)]
            label_count(after, l) == label_count(ltm0, l) + occurrences(ds.take(i + 1), l),
        forall|l: Seq<char>|
            #![trigger has_label(after, l)]
            has_label(after, l) == (has_label(ltm0, l) || occurrences(ds.take(i + 1), l) > 0),
{
    lemma_observe_step_counts(before, ds[i].action@, ds[i].outcome, after, stats);
    assert forall|l: Seq<char>| #[trigger] label_count(after, l) == label_count(ltm0, l)
        + occurrences(ds.take(i + 1), l) by {
        lemma_occurrences_prefix(ds, i, l);
        assert(label_count(before, l) == label_count(ltm0, l) + occurrences(ds.take(i), l));
    }
    assert forall|l: Seq<char>| #[trigger] has_label(after, l) == (has_label(ltm0, l)
        || occurrences(ds.take(i + 1), l) > 0) by {
        lemma_occurrences_prefix(ds, i, l);
        assert(has_label(before, l) == (has_label(ltm0, l) || occurrences(ds.take(i), l) > 0));
    }
}

/// Whether `labels` holds the text of `s`.
fn contains_string(labels: &Vec<String>, s: &String) -> (b: bool)
    ensures
        b == strings_view(labels@).contains(s@),
{
    for j in 0..labels.len()
        invariant
            forall|x: int| 0 <= x < j ==> (#[trigger] labels@[x])@ != s@,
    {
        if labels[j] == *s {
            assert(strings_view(labels@)[j as int] == s@);
            return true;
        }
    }
    proof {
        if strings_view(labels@).contains(s@) {
            let x = choose|x: int| 0 <= x < strings_view(labels@).len() && strings_view(labels@)[x] == s@;
            assert(labels@[x]@ == s@);
        }
    }
    false
}

/// Adds the action to the label list unless its text is already there.
fn note_label(labels: &mut Vec<String>, action: &String)
    ensures
        strings_view(final(labels)@) == if strings_view(old(labels)@).contains(action@) {
            strings_view(old(labels)@)
        } else {
            strings_view(old(labels)@).push(action@)
        },
{
    let seen = contains_string(labels, action);
    if !seen {
        labels.push(action.clone());
        proof {
            assert(strings_view(labels@) == strings_view(old(labels)@).push(action@));
        }
    }
}

/// The episode of kind `kind` recording decision `d`.
fn make_episode<G: Fn(Score) -> String>(kind: EpisodeKind, d: &Decision, render: &G) -> (e: Episode)
    requires
        forall|x: Score| render.requires((x,)),
        kind is Breakthrough || kind is NearMiss,
    ensures
        describes(e, *d, kind, *render),
{
    let rendered = render(d.outcome);
    let head = match kind {
        EpisodeKind::Breakthrough => "Breakthrough: ",
        _ => "Near miss: ",
    };
    let description = describe(head, &d.action, &rendered);
    proof {
        reveal_strlit("Breakthrough: ");
        reveal_strlit("Near miss: ");
        assert(head@ == description_head(kind));
    }
    Episode { description, kind, tick: d.tick, outcome: d.outcome, tags: Vec::new() }
}

/// Stores the episodes a decision makes and counts them.
fn record_episodes<G: Fn(Score) -> String>(
    cfg: &ConsolidationConfig,
    d: &Decision,
    episodic: &mut EpisodicMemory,
    count: &mut usize,
    render: &G,
) -> (added: Ghost<Seq<Episode>>)
    requires
        old(episodic).inv(),
        kinds_for(*cfg, *d).len() > 0 ==> old(episodic)@.max_episodes > 0,
        *old(count) + kinds_for(*cfg, *d).len() <= usize::MAX,
        forall|x: Score| render.requires((x,)),
    ensures
        final(episodic).inv(),
        final(episodic)@.max_episodes == old(episodic)@.max_episodes,
        added@.len() == kinds_for(*cfg, *d).len(),
        forall|k: int|
            0 <= k < added@.len() ==> describes(
                #[trigger] added@[k],
                *d,
                kinds_for(*cfg, *d)[k],
                *render,
            ),
        final(episodic)@.episodes == fifo_all(
            old(episodic)@.episodes,
            added@,
            old(episodic)@.max_episodes,
        ),
        *final(count) == *old(count) + added@.len(),
        cfg.breakthrough_threshold.spec_le(d.outcome) <==> added@.len() > 0 && added@[0].kind is Breakthrough,
        d.outcome.spec_le(cfg.near_miss_threshold) <==> added@.len() > 0 && added@.last().kind is NearMiss,
{
    let ghost kinds = kinds_for(*cfg, *d);
    let ghost start = episodic@.episodes;
    let ghost max = episodic@.max_episodes;
    let ghost mut added: Seq<Episode> = Seq::empty();
    let bt = cfg.breakthrough_threshold.le(&d.outcome);
    if bt {
        let e = make_episode(EpisodeKind::Breakthrough, d, render);
        episodic.store(e);
        *count = *count + 1;
        proof {
            added = added.push(e);
            assert(added.drop_last() == Seq::<Episode>::empty());
            assert(added.last() == e);
            assert(fifo_all(start, Seq::<Episode>::empty(), max) == start);
            assert(episodic@.episodes == fifo_all(start, added, max));
            assert(kinds[0] == EpisodeKind::Breakthrough);
        }
    }
    if d.outcome.le(&cfg.near_miss_threshold) {
        let e = make_episode(EpisodeKind::NearMiss, d, render);
        proof {
            assert(kinds[added.len() as int] == EpisodeKind::NearMiss);
        }
        episodic.store(e);
        *count = *count + 1;
        proof {
            let prev = added;
            assert(fifo_all(start, Seq::<Episode>::empty(), max) == start);
            added = added.push(e);
            assert(added.drop_last() == prev);
            assert(added.last() == e);
            assert(episodic@.episodes == fifo_all(start, added, max));
        }
    }
    Ghost(added)
}

/// Storing `a` then `b` is storing `a + b`.
proof fn lemma_fifo_all_concat(s: Seq<Episode>, a: Seq<Episode>, b: Seq<Episode>, max: nat)
    ensures
        fifo_all(s, a + b, max) == fifo_all(fifo_all(s, a, max), b, max),
    decreases b.len(),
{
    if b.len() == 0 {
        assert(a + b == a);
    } else {
        assert((a + b).drop_last() == a + b.drop_last());
        assert((a + b).last() == b.last());
        lemma_fifo_all_concat(s, a, b.drop_last(), max);
    }
}

/// Builds the description of an episode of kind `k` for a decision.
fn describe(head: &str, action: &String, rendered: &String) -> (s: String)
    ensures
        s@ == head@ + action@ + " (outcome="@ + rendered@ + ")"@,
{
    let mut s = String::from_str(head);
    s.append(action.as_str());
    s.append(" (outcome=");
    s.append(rendered.as_str());
    s.append(")");
    s
}

/// Splits decisions into those whose flag is set and the others, both in order.
fn split_by_mask(v: Vec<Decision>, mask: &Vec<bool>) -> (r: (Vec<Decision>, Vec<Decision>))
    requires
        mask@.len() == v@.len(),
    ensures
        r.0@ == kept(v@, mask@),
        r.1@ == kept(v@, negate(mask@)),
{
    let ghost orig = v@;
    let n = v.len();
    let mut v = v;
    let mut rev: Vec<Decision> = Vec::new();
    while v.len() > 0
        invariant
            orig.len() == n,
            v@ == orig.take(v@.len() as int),
            rev@.len() + v@.len() == n,
            forall|j: int| 0 <= j < rev@.len() ==> #[trigger] rev@[j] == orig[n - 1 - j],
        decreases v@.len(),
    {
        let x = v.pop().unwrap();
        rev.push(x);
    }
    let mut yes: Vec<Decision> = Vec::new();
    let mut no: Vec<Decision> = Vec::new();
    let ghost neg = negate(mask@);
    for i in 0..n
        invariant
            orig.len() == n,
            mask@.len() == n,
            neg == negate(mask@),
            rev@.len() == n - i,
            forall|j: int| 0 <= j < rev@.len() ==> #[trigger] rev@[j] == orig[n - 1 - j],
            yes@ == kept(orig.take(i as int), mask@.take(i as int)),
            no@ == kept(orig.take(i as int), neg.take(i as int)),
    {
        let x = rev.pop().unwrap();
        proof {
            lemma_kept_step(orig, mask@, i as int);
            lemma_kept_step(orig, neg, i as int);
            assert(x == orig[i as int]);
        }
        if mask[i] {
            yes.push(x);
        } else {
            no.push(x);
        }
    }
    proof {
        lemma_take_all(orig);
        lemma_take_all(mask@);
        lemma_take_all(neg);
    }
    (yes, no)
}

/// Handles consolidation of short-term memory into long-term and episodic memory.
#[derive(Debug)]
pub struct MemoryConsolidation {
    config: ConsolidationConfig,
}

impl MemoryConsolidation {
    /// The thresholds in use.
    pub closed spec fn view(self) -> ConsolidationConfig {
        self.config
    }

    /// Create with the default thresholds (0.8 and -0.5).
    pub fn new() -> (m: MemoryConsolidation)
        ensures
            m@.breakthrough_threshold.bits == DEFAULT_BREAKTHROUGH_BITS,
            m@.near_miss_threshold.bits == DEFAULT_NEAR_MISS_BITS,
    {
        MemoryConsolidation { config: ConsolidationConfig::default() }
    }

    /// Create with custom thresholds.
    pub fn with_config(config: ConsolidationConfig) -> (m: MemoryConsolidation)
        ensures
            m@ == config,
    {
        MemoryConsolidation { config }
    }

    /// The configured thresholds.
    pub fn config(&self) -> (c: ConsolidationConfig)
        ensures
            c == self@,
    {
        self.config
    }

    /// Consolidate short-term memory into long-term and episodic memory:
    /// drains short-term memory and processes its decisions in drain order.
    pub fn consolidate<
        F: Fn(u64, Score, Score, Score) -> (Score, Score),
        G: Fn(Score) -> String,
    >(
        &self,
        stm: &mut ShortTermMemory,
        ltm: &mut LongTermMemory,
        episodic: &mut EpisodicMemory,
        stats: &F,
        render: &G,
    ) -> (r: ConsolidationResult)
        requires
            old(stm).inv(),
            old(ltm).inv(),
            old(episodic).inv(),
            forall|n: u64, m: Score, v: Score, x: Score| stats.requires((n, m, v, x)),
            forall|x: Score| render.requires((x,)),
            can_absorb(self@, drain_order(old(stm)@), old(ltm)@, old(episodic)@),
        ensures
            final(stm).inv(),
            final(stm)@.items.len() == 0,
            final(stm)@.capacity == old(stm)@.capacity,
            final(stm)@.head == 0,
            final(stm)@.current_tick == old(stm)@.current_tick,
            final(ltm).inv(),
            final(episodic).inv(),
            absorbed(
                self@,
                drain_order(old(stm)@),
                old(ltm)@,
                final(ltm)@,
                old(episodic)@,
                final(episodic)@,
                r,
                *stats,
                *render,
            ),
            drain_order(old(stm)@).to_multiset() == old(stm)@.items.to_multiset(),
            total_count(final(ltm)@) == total_count(old(ltm)@) + old(stm)@.items.len(),
    {
        let ghost v = stm@;
        let decisions = stm.drain();
        let r = self.consolidate_decisions(decisions, ltm, episodic, stats, render);
        proof {
            lemma_absorb_adds_total(old(ltm)@, drain_order(v), ltm@, *stats);
            crate::short_term::lemma_drain_returns_all(v);
        }
        r
    }

    /// Consolidate only the decisions for which `predicate` holds; the others
    /// go back into short-term memory in drain order.
    pub fn consolidate_selective<
        P: Fn(&Decision) -> bool,
        F: Fn(u64, Score, Score, Score) -> (Score, Score),
        G: Fn(Score) -> String,
    >(
        &self,
        stm: &mut ShortTermMemory,
        ltm: &mut LongTermMemory,
        episodic: &mut EpisodicMemory,
        predicate: &P,
        stats: &F,
        render: &G,
    ) -> (r: ConsolidationResult)
        requires
            old(stm).inv(),
            old(ltm).inv(),
            old(episodic).inv(),
            forall|d: &Decision| predicate.requires((d,)),
            forall|n: u64, m: Score, v: Score, x: Score| stats.requires((n, m, v, x)),
            forall|x: Score| render.requires((x,)),
            forall|mask: Seq<bool>|
                mask.len() == drain_order(old(stm)@).len() && (forall|i: int|
                    0 <= i < mask.len() ==> predicate.ensures(
                        (&drain_order(old(stm)@)[i],),
                        #[trigger] mask[i],
                    )) ==> can_absorb(
                    self@,
                    #[trigger] kept(drain_order(old(stm)@), mask),
                    old(ltm)@,
                    old(episodic)@,
                ),
        ensures
            final(stm).inv(),
            final(stm)@.capacity == old(stm)@.capacity,
            final(stm)@.current_tick == old(stm)@.current_tick,
            final(ltm).inv(),
            final(episodic).inv(),
            exists|mask: Seq<bool>|
                #![trigger negate(mask)]
                {
                    let pending = drain_order(old(stm)@);
                    let rest = kept(pending, negate(mask));
                    &&& mask.len() == pending.len()
                    &&& forall|i: int|
                        0 <= i < mask.len() ==> predicate.ensures((&pending[i],), #[trigger] mask[i])
                    &&& final(stm)@.items == rest
                    &&& kept(pending, mask).to_multiset().add(rest.to_multiset())
                        == old(stm)@.items.to_multiset()
                    &&& total_count(final(ltm)@) == total_count(old(ltm)@) + kept(pending, mask).len()
                    &&& final(stm)@.head == if rest.len() == old(stm)@.capacity {
                        0
                    } else {
                        rest.len()
                    }
                    &&& absorbed(
                        self@,
                        kept(pending, mask),
                        old(ltm)@,
                        final(ltm)@,
                        old(episodic)@,
                        final(episodic)@,
                        r,
                        *stats,
                        *render,
                    )
                },
    {
        let ghost pending = drain_order(stm@);
        let ghost cap = stm@.capacity;
        let all = stm.drain();
        let mut mask: Vec<bool> = Vec::new();
        for i in 0..all.len()
            invariant
                all@ == pending,
                mask@.len() == i,
                forall|d: &Decision| predicate.requires((d,)),
                forall|j: int| 0 <= j < i ==> predicate.ensures((&pending[j],), #[trigger] mask@[j]),
        {
            let b = predicate(&all[i]);
            mask.push(b);
        }
        let (chosen, rest) = split_by_mask(all, &mask);
        proof {
            let ct = stm@.current_tick;
            crate::seq_facts::lemma_kept_all(pending, negate(mask@), |d: Decision| d.tick <= ct);
            crate::seq_facts::lemma_kept_len(pending, negate(mask@));
            assert(pending.len() <= cap) by {
                assert(pending.len() == old(stm)@.items.len());
            }
        }
        let ghost rest_seq = rest@;
        let mut rest = rest;
        let mut stored: usize = 0;
        let mut rev: Vec<Decision> = Vec::new();
        while rest.len() > 0
            invariant
                rest@ == rest_seq.take(rest@.len() as int),
                rev@.len() + rest@.len() == rest_seq.len(),
                forall|j: int| 0 <= j < rev@.len() ==> #[trigger] rev@[j] == rest_seq[rest_seq.len() - 1 - j],
            decreases rest@.len(),
        {
            let x = rest.pop().unwrap();
            rev.push(x);
        }
        let m = rev.len();
        for j in 0..m
            invariant
                m == rest_seq.len(),
                m <= cap,
                rev@.len() == m - j,
                forall|q: int| 0 <= q < rev@.len() ==> #[trigger] rev@[q] == rest_seq[m - 1 - q],
                stm.inv(),
                stm@.capacity == cap,
                stm@.current_tick == old(stm)@.current_tick,
                stm@.items == rest_seq.take(j as int),
                stm@.head == if j == cap { 0 } else { j as nat },
                forall|q: int| 0 <= q < m ==> (#[trigger] rest_seq[q]).tick <= stm@.current_tick,
        {
            let x = rev.pop().unwrap();
            proof {
                assert(x == rest_seq[j as int]);
                assert(rest_seq.take(j + 1) == rest_seq.take(j as int).push(x));
            }
            stm.store(x);
        }
        proof {
            lemma_take_all(rest_seq);
        }
        let r = self.consolidate_decisions(chosen, ltm, episodic, stats, render);
        proof {
            crate::seq_facts::lemma_kept_partition(pending, mask@);
            crate::short_term::lemma_drain_returns_all(old(stm)@);
            lemma_absorb_adds_total(old(ltm)@, kept(pending, mask@), ltm@, *stats);
        }
        r
    }

    /// Consolidate the given decisions, in order, into long-term and episodic memory.
    #[verifier::rlimit(40)]
    pub fn consolidate_decisions<
        F: Fn(u64, Score, Score, Score) -> (Score, Score),
        G: Fn(Score) -> String,
    >(
        &self,
        decisions: Vec<Decision>,
        ltm: &mut LongTermMemory,
        episodic: &mut EpisodicMemory,
        stats: &F,
        render: &G,
    ) -> (r: ConsolidationResult)
        requires
            old(ltm).inv(),
            old(episodic).inv(),
            forall|n: u64, m: Score, v: Score, x: Score| stats.requires((n, m, v, x)),
            forall|x: Score| render.requires((x,)),
            can_absorb(self@, decisions@, old(ltm)@, old(episodic)@),
        ensures
            final(ltm).inv(),
            final(episodic).inv(),
            absorbed(
                self@,
                decisions@,
                old(ltm)@,
                final(ltm)@,
                old(episodic)@,
                final(episodic)@,
                r,
                *stats,
                *render,
            ),
    {
        let ghost ds = decisions@;
        let ghost cfg = self.config;
        let ghost ltm0 = ltm@;
        let ghost ep0 = episodic@;
        let ghost mut eps: Seq<Episode> = Seq::empty();
        let ghost mut trace: Seq<Seq<ExperienceSummary>> = seq![ltm0];
        let mut new_episodes: usize = 0;
        let mut updated_labels: Vec<String> = Vec::new();
        let n = decisions.len();
        for i in 0..n
            invariant
                n == ds.len(),
                ds == decisions@,
                cfg == self@,
                forall|a: u64, m: Score, v: Score, x: Score| stats.requires((a, m, v, x)),
                forall|x: Score| render.requires((x,)),
                can_absorb(cfg, ds, ltm0, ep0),
                labels_unique(ltm0),
                ltm.inv(),
                episodic.inv(),
                trace.len() == i + 1,
                trace[0] == ltm0,
                trace[i as int] == ltm@,
                forall|k: int|
                    0 <= k < i ==> observe_step(
                        #[trigger] trace[k],
                        ds[k].action@,
                        ds[k].outcome,
                        trace[k + 1],
                        *stats,
                    ),
                forall|l: Seq<char>|
                    #![trigger label_count(ltm@, l)]
                    label_count(ltm@, l) == label_count(ltm0, l) + occurrences(ds.take(i as int), l),
                forall|l: Seq<char>|
                    #![trigger has_label(ltm@, l)]
                    has_label(ltm@, l) == (has_label(ltm0, l) || occurrences(ds.take(i as int), l) > 0),
                strings_view(updated_labels@) == distinct_actions(ds.take(i as int)),
                episodic@.max_episodes == ep0.max_episodes,
                eps.len() == episode_plan(cfg, ds.take(i as int)).len(),
                new_episodes == eps.len(),
                forall|k: int|
                    0 <= k < eps.len() ==> describes(
                        #[trigger] eps[k],
                        episode_plan(cfg, ds.take(i as int))[k].0,
                        episode_plan(cfg, ds.take(i as int))[k].1,
                        *render,
                    ),
                episodic@.episodes == fifo_all(ep0.episodes, eps, ep0.max_episodes),
        {
            let d = &decisions[i];
            let ghost l = d.action@;
            let ghost before = ltm@;
            proof {
                assert(ds.take(i + 1).drop_last() == ds.take(i as int));
                assert(ds.take(i + 1).last() == ds[i as int]);
                lemma_absorb_room(cfg, ds, ltm0, ep0, before, i as int);
            }
            ltm.observe(d.action.as_str(), d.outcome, stats);
            proof {
                let old_trace = trace;
                trace = trace.push(ltm@);
                assert forall|k: int| 0 <= k < i + 1 implies observe_step(
                    #[trigger] trace[k],
                    ds[k].action@,
                    ds[k].outcome,
                    trace[k + 1],
                    *stats,
                ) by {
                    if k < i {
                        assert(trace[k] == old_trace[k] && trace[k + 1] == old_trace[k + 1]);
                    }
                }
                lemma_absorb_counts(ltm0, ds, i as int, before, ltm@, *stats);
            }
            note_label(&mut updated_labels, &d.action);
            let ghost target = episode_plan(cfg, ds.take(i + 1));
            let ghost eps0 = eps;
            proof {
                lemma_plan_prefix(cfg, ds, i + 1);
                assert(ds.take(i + 1).drop_last() == ds.take(i as int));
                assert(ds.take(i + 1).last() == ds[i as int]);
            }
            let added = record_episodes(&self.config, d, episodic, &mut new_episodes, render);
            proof {
                lemma_fifo_all_concat(ep0.episodes, eps0, added@, ep0.max_episodes);
                eps = eps0 + added@;
                assert forall|k: int| 0 <= k < eps.len() implies describes(
                    #[trigger] eps[k],
                    target[k].0,
                    target[k].1,
                    *render,
                ) by {
                    if k < eps0.len() {
                        assert(eps[k] == eps0[k]);
                        assert(target[k] == episode_plan(cfg, ds.take(i as int))[k]);
                    } else {
                        assert(eps[k] == added@[k - eps0.len()]);
                    }
                }
            }
        }
        proof {
            lemma_take_all(ds);
            assert(observes_through(ltm0, ds, ltm@, trace, *stats));
        }
        ConsolidationResult { consolidated_count: n, new_episodes, updated_labels }
    }
}

impl Default for MemoryConsolidation {
    fn default() -> (m: MemoryConsolidation)
        ensures
            m@.breakthrough_threshold.bits == DEFAULT_BREAKTHROUGH_BITS,
            m@.near_miss_threshold.bits == DEFAULT_NEAR_MISS_BITS,
    {
        MemoryConsolidation::new()
    }
}

/// Consolidation adds exactly one observation to long-term memory per
/// consolidated decision.
pub proof fn lemma_absorb_adds_total<F: Fn(u64, Score, Score, Score) -> (Score, Score)>(
    before: Seq<ExperienceSummary>,
    ds: Seq<Decision>,
    after: Seq<ExperienceSummary>,
    stats: F,
)
    requires
        observes_all(before, ds, after, stats),
    ensures
        total_count(after) == total_count(before) + ds.len(),
{
    let trace = choose|trace: Seq<Seq<ExperienceSummary>>| observes_through(before, ds, after, trace, stats);
    lemma_trace_total(before, ds, trace, stats, ds.len() as int);
}

/// Along an observation trace, the total grows by one per step.
proof fn lemma_trace_total<F: Fn(u64, Score, Score, Score) -> (Score, Score)>(
    before: Seq<ExperienceSummary>,
    ds: Seq<Decision>,
    trace: Seq<Seq<ExperienceSummary>>,
    stats: F,
    k: int,
)
    requires
        0 <= k <= ds.len(),
        trace.len() == ds.len() + 1,
        trace[0] == before,
        forall|j: int|
            0 <= j < ds.len() ==> observe_step(
                #[trigger] trace[j],
                ds[j].action@,
                ds[j].outcome,
                trace[j + 1],
                stats,
            ),
    ensures
        total_count(trace[k]) == total_count(before) + k,
    decreases k,
{
    if k > 0 {
        lemma_trace_total(before, ds, trace, stats, k - 1);
        lemma_observe_adds_one(trace[k - 1], ds[k - 1].action@, ds[k - 1].outcome, trace[k], stats);
    }
}

/// The updated labels name each consolidated action exactly once.
pub proof fn lemma_updated_labels_distinct(ds: Seq<Decision>)
    ensures
        distinct_actions(ds).no_duplicates(),
        forall|l: Seq<char>|
            #[trigger] distinct_actions(ds).contains(l) <==> exists|i: int|
                0 <= i < ds.len() && (#[trigger] ds[i]).action@ == l,
    decreases ds.len(),
{
    if ds.len() > 0 {
        let d = ds.drop_last();
        lemma_updated_labels_distinct(d);
        let r = distinct_actions(d);
        let x = ds.last().action@;
        let full = distinct_actions(ds);
        assert(ds.last() == ds[ds.len() - 1]);
        assert(full == if r.contains(x) {
            r
        } else {
            r.push(x)
        });
        assert forall|l: Seq<char>| #[trigger] full.contains(l) implies exists|i: int|
            0 <= i < ds.len() && (#[trigger] ds[i]).action@ == l by {
            let w = choose|w: int| 0 <= w < full.len() && full[w] == l;
            if w < r.len() {
                assert(full[w] == r[w]);
                assert(r.contains(l));
                let i = choose|i: int| 0 <= i < d.len() && (#[trigger] d[i]).action@ == l;
                assert(ds[i] == d[i]);
            } else {
                assert(l == x);
            }
        }
        assert forall|l: Seq<char>| (exists|i: int| 0 <= i < ds.len() && (#[trigger] ds[i]).action@ == l)
            implies #[trigger] full.contains(l) by {
            let i = choose|i: int| 0 <= i < ds.len() && (#[trigger] ds[i]).action@ == l;
            if i < d.len() {
                assert(d[i] == ds[i]);
                assert(r.contains(l));
                let w = choose|w: int| 0 <= w < r.len() && r[w] == l;
                assert(full[w] == l);
            } else {
                assert(l == x);
                if !r.contains(x) {
                    assert(full[r.len() as int] == x);
                }
            }
        }
    }
}

/// Consolidation makes one episode per breakthrough outcome plus one per
/// near-miss outcome.
pub proof fn lemma_plan_count(cfg: ConsolidationConfig, ds: Seq<Decision>)
    ensures
        episode_plan(cfg, ds).len() == ds.filter(is_breakthrough(cfg)).len() + ds.filter(
            is_near_miss(cfg),
        ).len(),
    decreases ds.len(),
{
    reveal(Seq::filter);
    if ds.len() > 0 {
        lemma_plan_count(cfg, ds.drop_last());
    }
}

/// Consolidation makes at most two episodes per decision, and at most one
/// when the breakthrough threshold is above the near-miss threshold.
pub proof fn lemma_episodes_bounded(cfg: ConsolidationConfig, ds: Seq<Decision>)
    ensures
        episode_plan(cfg, ds).len() <= 2 * ds.len(),
        cfg.near_miss_threshold.spec_lt(cfg.breakthrough_threshold) ==> episode_plan(cfg, ds).len()
            <= ds.len(),
    decreases ds.len(),
{
    if ds.len() > 0 {
        lemma_episodes_bounded(cfg, ds.drop_last());
        let d = ds.last();
        if cfg.near_miss_threshold.spec_lt(cfg.breakthrough_threshold) {
            assert(!(is_breakthrough(cfg)(d) && is_near_miss(cfg)(d)));
        }
    }
}

/// Every planned episode is a breakthrough of a decision whose outcome is at
/// or above the breakthrough threshold, or a near miss of one whose outcome
/// is at or below the near-miss threshold; and each decision at or above the
/// breakthrough threshold gets a breakthrough episode, each one at or below
/// the near-miss threshold a near-miss episode.
pub proof fn lemma_plan_kinds(cfg: ConsolidationConfig, ds: Seq<Decision>)
    ensures
        forall|k: int|
            0 <= k < episode_plan(cfg, ds).len() ==> {
                ||| (#[trigger] episode_plan(cfg, ds)[k]).1 is Breakthrough
                    && cfg.breakthrough_threshold.spec_le(episode_plan(cfg, ds)[k].0.outcome)
                ||| episode_plan(cfg, ds)[k].1 is NearMiss && episode_plan(cfg, ds)[k].0.outcome.spec_le(
                    cfg.near_miss_threshold,
                )
            },
        forall|i: int|
            0 <= i < ds.len() && cfg.breakthrough_threshold.spec_le((#[trigger] ds[i]).outcome)
                ==> exists|k: int|
                0 <= k < episode_plan(cfg, ds).len() && episode_plan(cfg, ds)[k] == (
                    ds[i],
                    EpisodeKind::Breakthrough,
                ),
        forall|i: int|
            0 <= i < ds.len() && (#[trigger] ds[i]).outcome.spec_le(cfg.near_miss_threshold)
                ==> exists|k: int|
                0 <= k < episode_plan(cfg, ds).len() && episode_plan(cfg, ds)[k] == (
                    ds[i],
                    EpisodeKind::NearMiss,
                ),
    decreases ds.len(),
{
    let plan = episode_plan(cfg, ds);
    if ds.len() > 0 {
        let p = ds.drop_last();
        let d = ds.last();
        lemma_plan_kinds(cfg, p);
        let prev = episode_plan(cfg, p);
        let kinds = kinds_for(cfg, d);
        let tail = kinds.map_values(|k: EpisodeKind| (d, k));
        assert(plan == prev + tail);
        let bt = cfg.breakthrough_threshold.spec_le(d.outcome);
        let nm = d.outcome.spec_le(cfg.near_miss_threshold);
        assert(kinds.len() == (if bt { 1int } else { 0int }) + (if nm { 1int } else { 0int }));
        assert forall|k: int| 0 <= k < plan.len() implies {
            ||| (#[trigger] plan[k]).1 is Breakthrough && cfg.breakthrough_threshold.spec_le(plan[k].0.outcome)
            ||| plan[k].1 is NearMiss && plan[k].0.outcome.spec_le(cfg.near_miss_threshold)
        } by {
            if k < prev.len() {
                assert(plan[k] == prev[k]);
            } else {
                let t = k - prev.len();
                assert(plan[k] == tail[t]);
                assert(tail[t] == (d, kinds[t]));
                if bt && t == 0 {
                    assert(kinds[t] == EpisodeKind::Breakthrough);
                } else {
                    assert(nm);
                    assert(kinds[t] == EpisodeKind::NearMiss);
                }
            }
        }
        assert forall|i: int|
            0 <= i < ds.len() && cfg.breakthrough_threshold.spec_le((#[trigger] ds[i]).outcome)
                implies exists|k: int| 0 <= k < plan.len() && plan[k] == (ds[i], EpisodeKind::Breakthrough) by {
            if i < p.len() {
                assert(ds[i] == p[i]);
                let k = choose|k: int| 0 <= k < prev.len() && prev[k] == (p[i], EpisodeKind::Breakthrough);
                assert(plan[k] == prev[k]);
            } else {
                assert(ds[i] == d);
                assert(kinds[0] == EpisodeKind::Breakthrough);
                assert(plan[prev.len() as int] == tail[0]);
            }
        }
        assert forall|i: int|
            0 <= i < ds.len() && (#[trigger] ds[i]).outcome.spec_le(cfg.near_miss_threshold)
                implies exists|k: int| 0 <= k < plan.len() && plan[k] == (ds[i], EpisodeKind::NearMiss) by {
            if i < p.len() {
                assert(ds[i] == p[i]);
                let k = choose|k: int| 0 <= k < prev.len() && prev[k] == (p[i], EpisodeKind::NearMiss);
                assert(plan[k] == prev[k]);
            } else {
                assert(ds[i] == d);
                let t: int = if bt { 1 } else { 0 };
                assert(kinds[t] == EpisodeKind::NearMiss);
                assert(plan[prev.len() + t] == tail[t]);
            }
        }
    }
}

/// Consolidating a prefix of the decisions makes a prefix of the episodes.
proof fn lemma_plan_prefix(cfg: ConsolidationConfig, ds: Seq<Decision>, j: int)
    requires
        0 <= j <= ds.len(),
    ensures
        episode_plan(cfg, ds.take(j)).len() <= episode_plan(cfg, ds).len(),
    decreases ds.len(),
{
    if j == ds.len() {
        lemma_take_all(ds);
    } else {
        assert(ds.drop_last().take(j) == ds.take(j));
        lemma_plan_prefix(cfg, ds.drop_last(), j);
    }
}

/// Keeping some entries never adds to how many pass a predicate.
proof fn lemma_kept_filter_len<A>(s: Seq<A>, mask: Seq<bool>, p: spec_fn(A) -> bool)
    ensures
        kept(s, mask).filter(p).len() <= s.filter(p).len(),
    decreases s.len(),
{
    reveal(Seq::filter);
    if s.len() > 0 && mask.len() > 0 {
        lemma_kept_filter_len(s.drop_last(), mask.drop_last(), p);
        let r = kept(s.drop_last(), mask.drop_last());
        if mask.last() {
            assert(r.push(s.last()).drop_last() == r);
        }
    }
}

/// Consolidating a selection of the decisions is possible whenever
/// consolidating all of them is.
pub proof fn lemma_can_absorb_subset(
    cfg: ConsolidationConfig,
    ds: Seq<Decision>,
    mask: Seq<bool>,
    ltm: Seq<ExperienceSummary>,
    episodic: EpisodicView,
)
    requires
        can_absorb(cfg, ds, ltm, episodic),
    ensures
        can_absorb(cfg, kept(ds, mask), ltm, episodic),
{
    let k = kept(ds, mask);
    assert forall|j: int| 0 <= j < ltm.len() implies (#[trigger] ltm[j]).count + occurrences(
        k,
        ltm[j].label@,
    ) <= u64::MAX by {
        lemma_kept_filter_len(ds, mask, acts_as(ltm[j].label@));
    }
    lemma_kept_filter_len(ds, mask, is_breakthrough(cfg));
    lemma_kept_filter_len(ds, mask, is_near_miss(cfg));
    lemma_plan_count(cfg, ds);
    lemma_plan_count(cfg, k);
}

/// Selective consolidation with every decision chosen is plain
/// consolidation: nothing goes back into short-term memory, its write
/// position returns to slot 0, and long-term and episodic memory and the
/// result are those of consolidating the whole drain order.
pub proof fn lemma_select_all_consolidates<
    F: Fn(u64, Score, Score, Score) -> (Score, Score),
    G: Fn(Score) -> String,
>(
    cfg: ConsolidationConfig,
    before: StmView,
    after: StmView,
    mask: Seq<bool>,
    ltm_before: Seq<ExperienceSummary>,
    ltm_after: Seq<ExperienceSummary>,
    ep_before: EpisodicView,
    ep_after: EpisodicView,
    r: ConsolidationResult,
    stats: F,
    render: G,
)
    requires
        mask.len() == drain_order(before).len(),
        forall|i: int| 0 <= i < mask.len() ==> #[trigger] mask[i],
        after.items == kept(drain_order(before), negate(mask)),
        after.head == if kept(drain_order(before), negate(mask)).len() == before.capacity {
            0
        } else {
            kept(drain_order(before), negate(mask)).len()
        },
        absorbed(
            cfg,
            kept(drain_order(before), mask),
            ltm_before,
            ltm_after,
            ep_before,
            ep_after,
            r,
            stats,
            render,
        ),
    ensures
        kept(drain_order(before), mask) == drain_order(before),
        after.items.len() == 0,
        after.head == 0,
        absorbed(
            cfg,
            drain_order(before),
            ltm_before,
            ltm_after,
            ep_before,
            ep_after,
            r,
            stats,
            render,
        ),
{
    crate::seq_facts::lemma_select_all(drain_order(before), mask);
}

} // verus!
