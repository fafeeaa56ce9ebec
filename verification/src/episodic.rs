//! Episodic memory: store and recall specific important episodes.
use vstd::prelude::*;
use vstd::string::*;

use crate::ranking::{rank_desc, ranking_of, positions};
use crate::score::Score;
use crate::seq_facts::{lemma_filter_take_step, lemma_take_all};

verus! {

/// The kind of episode: why it was important enough to store.
#[derive(Clone, Debug)]
pub enum EpisodeKind {
    /// A near-miss (almost bad outcome).
    NearMiss,
    /// A breakthrough (exceptionally good outcome).
    Breakthrough,
    /// A surprise (unexpected outcome).
    Surprise,
    /// User-defined kind.
    Custom(String),
}

/// Two kinds are the same: the same variant, and for `Custom` the same text.
pub open spec fn same_kind(a: EpisodeKind, b: EpisodeKind) -> bool {
    match (a, b) {
        (EpisodeKind::NearMiss, EpisodeKind::NearMiss) => true,
        (EpisodeKind::Breakthrough, EpisodeKind::Breakthrough) => true,
        (EpisodeKind::Surprise, EpisodeKind::Surprise) => true,
        (EpisodeKind::Custom(x), EpisodeKind::Custom(y)) => x@ == y@,
        _ => false,
    }
}

/// Two kinds are equal exactly when they are the same variant and, for
/// `Custom`, carry the same text: no two different variants are equal.
pub proof fn lemma_same_kind(a: EpisodeKind, b: EpisodeKind)
    ensures
        same_kind(a, b) <==> (a is NearMiss && b is NearMiss) || (a is Breakthrough && b is Breakthrough)
            || (a is Surprise && b is Surprise) || (a is Custom && b is Custom && (a->0)@ == (b->0)@),
{
}

/// The text by which a kind is shown.
pub open spec fn kind_text(k: EpisodeKind) -> Seq<char> {
    match k {
        EpisodeKind::NearMiss => "near_miss"@,
        EpisodeKind::Breakthrough => "breakthrough"@,
        EpisodeKind::Surprise => "surprise"@,
        EpisodeKind::Custom(s) => "custom:"@ + s@,
    }
}

impl PartialEq for EpisodeKind {
    fn eq(&self, other: &Self) -> (r: bool) {
        match self {
            EpisodeKind::NearMiss => matches!(other, EpisodeKind::NearMiss),
            EpisodeKind::Breakthrough => matches!(other, EpisodeKind::Breakthrough),
            EpisodeKind::Surprise => matches!(other, EpisodeKind::Surprise),
            EpisodeKind::Custom(x) => match other {
                EpisodeKind::Custom(y) => *x == *y,
                _ => false,
            },
        }
    }
}

impl vstd::std_specs::cmp::PartialEqSpecImpl for EpisodeKind {
    open spec fn obeys_eq_spec() -> bool {
        true
    }

    open spec fn eq_spec(&self, other: &Self) -> bool {
        same_kind(*self, *other)
    }
}

impl Eq for EpisodeKind {
}

impl EpisodeKind {
    /// The kind as text: `near_miss`, `breakthrough`, `surprise` or `custom:<name>`.
    pub fn to_string(&self) -> (s: String)
        ensures
            s@ == kind_text(*self),
    {
        match self {
            EpisodeKind::NearMiss => String::from_str("near_miss"),
            EpisodeKind::Breakthrough => String::from_str("breakthrough"),
            EpisodeKind::Surprise => String::from_str("surprise"),
            EpisodeKind::Custom(name) => {
                let mut s = String::from_str("custom:");
                s.append(name.as_str());
                s
            },
        }
    }
}

/// A specific episodic memory.
#[derive(Clone, Debug)]
pub struct Episode {
    /// What happened (description).
    pub description: String,
    /// The kind of episode.
    pub kind: EpisodeKind,
    /// Tick when the episode occurred.
    pub tick: u64,
    /// Outcome score.
    pub outcome: Score,
    /// Context tags.
    pub tags: Vec<String>,
}

impl Episode {
    /// Create a new episode with no tags.
    pub fn new(description: &str, kind: EpisodeKind, tick: u64, outcome: Score) -> (e: Episode)
        ensures
            e.description@ == description@,
            e.kind == kind,
            e.tick == tick,
            e.outcome == outcome,
            e.tags@.len() == 0,
    {
        Episode { description: description.to_owned(), kind, tick, outcome, tags: Vec::new() }
    }

    /// Add a context tag.
    pub fn with_tag(self, tag: &str) -> (e: Episode)
        ensures
            e.description == self.description,
            e.kind == self.kind,
            e.tick == self.tick,
            e.outcome == self.outcome,
            e.tags@.len() == self.tags@.len() + 1,
            e.tags@.take(self.tags@.len() as int) == self.tags@,
            e.tags@.last()@ == tag@,
    {
        let mut e = self;
        e.tags.push(tag.to_owned());
        e
    }
}

/// Some tag of the list equals (as text) one of the queried tags.
pub open spec fn shares_tag(tags: Seq<String>, queries: Seq<Seq<char>>) -> bool {
    exists|a: int, b: int|
        0 <= a < tags.len() && 0 <= b < queries.len() && (#[trigger] tags[a])@ == #[trigger] queries[b]
}

/// The queried tags as text.
pub open spec fn query_view(tags: Seq<&str>) -> Seq<Seq<char>> {
    tags.map_values(|q: &str| q@)
}

/// The episodes a list of references points at.
pub open spec fn deref_all(v: Seq<&Episode>) -> Seq<Episode> {
    v.map_values(|r: &Episode| *r)
}

/// The outcomes of a sequence of episodes.
pub open spec fn outcomes(s: Seq<Episode>) -> Seq<Score> {
    s.map_values(|e: Episode| e.outcome)
}

/// The episodes kept after storing `e`: the oldest is evicted once `max` are held.
pub open spec fn fifo_append(s: Seq<Episode>, e: Episode, max: nat) -> Seq<Episode> {
    if s.len() >= max {
        s.drop_first().push(e)
    } else {
        s.push(e)
    }
}

/// Whether one of the strings equals one of the queries.
fn any_shared(tags: &Vec<String>, queries: &Vec<String>) -> (b: bool)
    ensures
        b == exists|a: int, c: int|
            0 <= a < tags@.len() && 0 <= c < queries@.len() && (#[trigger] tags@[a])@
                == (#[trigger] queries@[c])@,
{
    for a in 0..tags.len()
        invariant
            forall|x: int, c: int|
                0 <= x < a && 0 <= c < queries@.len() ==> (#[trigger] tags@[x])@
                    != (#[trigger] queries@[c])@,
    {
        for c in 0..queries.len()
            invariant
                a < tags@.len(),
                forall|x: int, c2: int|
                    0 <= x < a && 0 <= c2 < queries@.len() ==> (#[trigger] tags@[x])@
                        != (#[trigger] queries@[c2])@,
                forall|c2: int| 0 <= c2 < c ==> tags@[a as int]@ != (#[trigger] queries@[c2])@,
        {
            if tags[a] == queries[c] {
                return true;
            }
        }
    }
    false
}

/// Episodic memory stores and retrieves specific important episodes.
#[derive(Clone, Debug)]
pub struct EpisodicMemory {
    episodes: Vec<Episode>,
    max_episodes: usize,
}

/// The mathematical content of an episodic memory.
pub struct EpisodicView {
    /// Stored episodes, oldest first.
    pub episodes: Seq<Episode>,
    /// Capacity; storing beyond it evicts the oldest episode.
    pub max_episodes: nat,
}

impl EpisodicMemory {
    /// The stored episodes and the capacity.
    pub closed spec fn view(self) -> EpisodicView {
        EpisodicView { episodes: self.episodes@, max_episodes: self.max_episodes as nat }
    }

    /// Never more episodes than the capacity.
    pub open spec fn inv(self) -> bool {
        self@.episodes.len() <= self@.max_episodes
    }

    /// Create episodic memory with a maximum capacity.
    /// When capacity is reached, the oldest episode is evicted.
    pub fn new(max_episodes: usize) -> (m: EpisodicMemory)
        ensures
            m.inv(),
            m@.episodes.len() == 0,
            m@.max_episodes == max_episodes,
    {
        EpisodicMemory { episodes: Vec::new(), max_episodes }
    }

    /// Create with unlimited capacity.
    pub fn unlimited() -> (m: EpisodicMemory)
        ensures
            m.inv(),
            m@.episodes.len() == 0,
            m@.max_episodes == usize::MAX,
    {
        EpisodicMemory { episodes: Vec::new(), max_episodes: usize::MAX }
    }

    /// Store an episode, evicting the oldest one if the memory is full.
    pub fn store(&mut self, episode: Episode)
        requires
            old(self).inv(),
            old(self)@.max_episodes > 0,
        ensures
            final(self).inv(),
            final(self)@.max_episodes == old(self)@.max_episodes,
            final(self)@.episodes == fifo_append(
                old(self)@.episodes,
                episode,
                old(self)@.max_episodes,
            ),
    {
        if self.episodes.len() >= self.max_episodes {
            self.episodes.remove(0);
        }
        self.episodes.push(episode);
    }

    /// Recall all episodes, oldest first.
    pub fn recall_all(&self) -> (r: &[Episode])
        ensures
            r@ == self@.episodes,
    {
        self.episodes.as_slice()
    }

    /// Recall episodes of a specific kind, oldest first.
    pub fn recall_by_kind(&self, kind: &EpisodeKind) -> (r: Vec<&Episode>)
        ensures
            deref_all(r@) == self@.episodes.filter(|e: Episode| same_kind(e.kind, *kind)),
            deref_all(r@) == self@.episodes.filter(
                |e: Episode|
                    (e.kind is NearMiss && (*kind) is NearMiss) || (e.kind is Breakthrough
                        && (*kind) is Breakthrough) || (e.kind is Surprise && (*kind) is Surprise) || (
                    e.kind is Custom && (*kind) is Custom && (e.kind->0)@ == ((*kind)->0)@),
            ),
    {
        let ghost pred = |e: Episode| same_kind(e.kind, *kind);
        let mut r: Vec<&Episode> = Vec::new();
        for i in 0..self.episodes.len()
            invariant
                deref_all(r@) == self.episodes@.take(i as int).filter(pred),
                pred == (|e: Episode| same_kind(e.kind, *kind)),
        {
            let e = &self.episodes[i];
            proof {
                lemma_filter_take_step(self.episodes@, i as int, pred);
            }
            if e.kind == *kind {
                r.push(e);
                assert(deref_all(r@) == deref_all(r@.drop_last()).push(*e));
            }
        }
        proof {
            lemma_take_all(self.episodes@);
            let direct = |e: Episode|
                (e.kind is NearMiss && (*kind) is NearMiss) || (e.kind is Breakthrough
                    && (*kind) is Breakthrough) || (e.kind is Surprise && (*kind) is Surprise) || (
                e.kind is Custom && (*kind) is Custom && (e.kind->0)@ == ((*kind)->0)@);
            assert(pred =~= direct);
        }
        r
    }

    /// Recall episodes with at least one tag among the given tags, oldest first.
    pub fn recall_by_tags(&self, tags: &[&str]) -> (r: Vec<&Episode>)
        ensures
            deref_all(r@) == self@.episodes.filter(
                |e: Episode| shares_tag(e.tags@, query_view(tags@)),
            ),
            deref_all(r@) == self@.episodes.filter(
                |e: Episode|
                    exists|a: int, b: int|
                        0 <= a < e.tags@.len() && 0 <= b < tags@.len() && (#[trigger] e.tags@[a])@
                            == (#[trigger] tags@[b])@,
            ),
    {
        let ghost qv = query_view(tags@);
        let ghost pred = |e: Episode| shares_tag(e.tags@, qv);
        let mut queries: Vec<String> = Vec::new();
        for j in 0..tags.len()
            invariant
                queries@.len() == j,
                qv == query_view(tags@),
                forall|c: int| 0 <= c < j ==> (#[trigger] queries@[c])@ == qv[c],
        {
            queries.push(tags[j].to_owned());
        }
        let mut r: Vec<&Episode> = Vec::new();
        for i in 0..self.episodes.len()
            invariant
                deref_all(r@) == self.episodes@.take(i as int).filter(pred),
                pred == (|e: Episode| shares_tag(e.tags@, qv)),
                queries@.len() == qv.len(),
                forall|c: int| 0 <= c < queries@.len() ==> (#[trigger] queries@[c])@ == qv[c],
        {
            let e = &self.episodes[i];
            proof {
                lemma_filter_take_step(self.episodes@, i as int, pred);
            }
            let hit = any_shared(&e.tags, &queries);
            proof {
                if hit {
                    let (a, c) = choose|a: int, c: int|
                        0 <= a < e.tags@.len() && 0 <= c < queries@.len() && (#[trigger] e.tags@[a])@
                            == (#[trigger] queries@[c])@;
                    assert(e.tags@[a]@ == qv[c]);
                    assert(shares_tag(e.tags@, qv));
                } else {
                    if shares_tag(e.tags@, qv) {
                        let (a, c) = choose|a: int, c: int|
                            0 <= a < e.tags@.len() && 0 <= c < qv.len() && (#[trigger] e.tags@[a])@
                                == #[trigger] qv[c];
                        assert(e.tags@[a]@ == queries@[c]@);
                    }
                }
            }
            if hit {
                r.push(e);
                assert(deref_all(r@) == deref_all(r@.drop_last()).push(*e));
            }
        }
        proof {
            lemma_take_all(self.episodes@);
            let direct = |e: Episode|
                exists|a: int, b: int|
                    0 <= a < e.tags@.len() && 0 <= b < tags@.len() && (#[trigger] e.tags@[a])@
                        == (#[trigger] tags@[b])@;
            assert forall|e: Episode| #[trigger] pred(e) == direct(e) by {
                if pred(e) {
                    let (a, b) = choose|a: int, b: int|
                        0 <= a < e.tags@.len() && 0 <= b < qv.len() && (#[trigger] e.tags@[a])@
                            == #[trigger] qv[b];
                    assert(qv[b] == tags@[b]@);
                }
                if direct(e) {
                    let (a, b) = choose|a: int, b: int|
                        0 <= a < e.tags@.len() && 0 <= b < tags@.len() && (#[trigger] e.tags@[a])@
                            == (#[trigger] tags@[b])@;
                    assert(qv[b] == tags@[b]@);
                }
            }
            assert(pred =~= direct);
        }
        r
    }

    /// Recall the top-`n` episodes by outcome, highest first; equal outcomes
    /// keep their storage order (see `ranking_of` for NaN outcomes).
    pub fn recall_top(&self, n: usize) -> (r: Vec<&Episode>)
        ensures
            r@.len() == if n < self@.episodes.len() {
                n as int
            } else {
                self@.episodes.len() as int
            },
            exists|order: Seq<int>|
                {
                    &&& ranking_of(outcomes(self@.episodes), order)
                    &&& forall|k: int|
                        0 <= k < r@.len() ==> *(#[trigger] r@[k]) == self@.episodes[order[k]]
                },
    {
        let mut keys: Vec<Score> = Vec::new();
        for i in 0..self.episodes.len()
            invariant
                keys@ == outcomes(self.episodes@.take(i as int)),
        {
            keys.push(self.episodes[i].outcome);
            assert(outcomes(self.episodes@.take(i + 1)) == outcomes(self.episodes@.take(i as int)).push(
                self.episodes@[i as int].outcome,
            ));
        }
        proof {
            lemma_take_all(self.episodes@);
        }
        let order = rank_desc(&keys);
        let m = if n < order.len() { n } else { order.len() };
        let mut r: Vec<&Episode> = Vec::new();
        for k in 0..m
            invariant
                m <= order@.len(),
                order@.len() == self.episodes@.len(),
                ranking_of(keys@, positions(order@)),
                keys@ == outcomes(self.episodes@),
                r@.len() == k,
                forall|x: int| 0 <= x < k ==> *(#[trigger] r@[x]) == self.episodes@[order@[x] as int],
        {
            let idx = order[k];
            proof {
                assert(positions(order@)[k as int] == idx as int);
            }
            r.push(&self.episodes[idx]);
        }
        proof {
            let o = positions(order@);
            assert forall|x: int| 0 <= x < r@.len() implies *(#[trigger] r@[x]) == self@.episodes[o[x]] by {
                assert(o[x] == order@[x] as int);
            }
            assert(ranking_of(outcomes(self@.episodes), o));
        }
        r
    }

    /// Capacity: storing beyond it evicts the oldest episode.
    pub fn max_episodes(&self) -> (m: usize)
        ensures
            m == self@.max_episodes,
    {
        self.max_episodes
    }

    /// Number of stored episodes.
    pub fn len(&self) -> (n: usize)
        ensures
            n == self@.episodes.len(),
    {
        self.episodes.len()
    }

    /// Whether empty.
    pub fn is_empty(&self) -> (b: bool)
        ensures
            b == (self@.episodes.len() == 0),
    {
        self.episodes.is_empty()
    }

    /// Clear all episodes; the capacity is kept.
    pub fn clear(&mut self)
        requires
            old(self).inv(),
        ensures
            final(self).inv(),
            final(self)@.episodes.len() == 0,
            final(self)@.max_episodes == old(self)@.max_episodes,
    {
        self.episodes.clear();
    }
}

/// Episodic memory contents after storing `eps` in order.
pub open spec fn fifo_all(s: Seq<Episode>, eps: Seq<Episode>, max: nat) -> Seq<Episode>
    decreases eps.len(),
{
    if eps.len() == 0 {
        s
    } else {
        fifo_append(fifo_all(s, eps.drop_last(), max), eps.last(), max)
    }
}

/// Episodic memory keeps the most recent episodes: after storing `eps`
/// into a memory of capacity `max` holding `s`, it holds the last `max`
/// episodes of `s + eps`, or all of them when they fit.
pub proof fn lemma_fifo_keeps_most_recent(s: Seq<Episode>, eps: Seq<Episode>, max: nat)
    requires
        max > 0,
        s.len() <= max,
    ensures
        fifo_all(s, eps, max) == (s + eps).skip(
            if s.len() + eps.len() > max {
                s.len() + eps.len() - max
            } else {
                0
            },
        ),
    decreases eps.len(),
{
    if eps.len() > 0 {
        let prev = eps.drop_last();
        lemma_fifo_keeps_most_recent(s, prev, max);
        let t = s + prev;
        assert(s + eps == t.push(eps.last()));
        let m0: int = if t.len() > max {
            t.len() - max
        } else {
            0
        };
        let r = fifo_all(s, prev, max);
        assert(r == t.skip(m0));
        if r.len() < max {
            assert(r.push(eps.last()) == t.push(eps.last()).skip(m0));
        } else {
            assert(r.drop_first().push(eps.last()) == t.push(eps.last()).skip(m0 + 1));
        }
    }
}

/// While everything fits, episodic memory keeps every stored episode in
/// storage order, oldest first (as an unlimited memory always does).
pub proof fn lemma_fits_keeps_all(s: Seq<Episode>, eps: Seq<Episode>, max: nat)
    requires
        s.len() + eps.len() <= max,
    ensures
        fifo_all(s, eps, max) == s + eps,
{
    if eps.len() == 0 {
        assert(s + eps == s);
    } else {
        lemma_fifo_keeps_most_recent(s, eps, max);
        assert((s + eps).skip(0) == s + eps);
    }
}

} // verus!
