//! Memory index: memories indexed by context tags for retrieval.
use vstd::prelude::*;

use crate::ranking::{rank_desc, ranking_of, positions};
use crate::score::Score;
use crate::seq_facts::{kept, lemma_filter_take_step, lemma_kept_len, lemma_take_all};

verus! {

/// A context tag used to index memories.
#[derive(Clone, Debug, Hash)]
pub struct ContextTag {
    pub key: String,
    pub value: String,
}

/// Two tags have the same key and the same value.
pub open spec fn same_tag(a: ContextTag, b: ContextTag) -> bool {
    a.key@ == b.key@ && a.value@ == b.value@
}

impl PartialEq for ContextTag {
    fn eq(&self, other: &Self) -> (r: bool) {
        self.key == other.key && self.value == other.value
    }
}

impl vstd::std_specs::cmp::PartialEqSpecImpl for ContextTag {
    open spec fn obeys_eq_spec() -> bool {
        true
    }

    open spec fn eq_spec(&self, other: &Self) -> bool {
        same_tag(*self, *other)
    }
}

impl Eq for ContextTag {
}

impl ContextTag {
    /// Create a new context tag.
    pub fn new(key: &str, value: &str) -> (t: ContextTag)
        ensures
            t.key@ == key@,
            t.value@ == value@,
    {
        ContextTag { key: key.to_owned(), value: value.to_owned() }
    }
}

/// A generic indexed memory entry.
#[derive(Clone, Debug)]
pub struct IndexedMemory<T: Clone> {
    pub item: T,
    pub tags: Vec<ContextTag>,
    pub relevance: Score,
}

/// The tag list holds a tag equal to `q`.
pub open spec fn has_tag(tags: Seq<ContextTag>, q: ContextTag) -> bool {
    exists|j: int| 0 <= j < tags.len() && same_tag(#[trigger] tags[j], q)
}

/// The entry carries every queried tag.
pub open spec fn matches_all<T: Clone>(e: IndexedMemory<T>, queries: Seq<ContextTag>) -> bool {
    forall|q: int| 0 <= q < queries.len() ==> has_tag(e.tags@, #[trigger] queries[q])
}

/// The entry carries at least one queried tag.
pub open spec fn matches_any<T: Clone>(e: IndexedMemory<T>, queries: Seq<ContextTag>) -> bool {
    exists|q: int| 0 <= q < queries.len() && has_tag(e.tags@, #[trigger] queries[q])
}

/// The relevances of a sequence of entries.
pub open spec fn relevances<T: Clone>(s: Seq<IndexedMemory<T>>) -> Seq<Score> {
    s.map_values(|e: IndexedMemory<T>| e.relevance)
}

/// The entries a list of references points at.
pub open spec fn deref_entries<T: Clone>(v: Seq<&IndexedMemory<T>>) -> Seq<IndexedMemory<T>> {
    v.map_values(|r: &IndexedMemory<T>| *r)
}

/// `r` lists `s` as `rank_desc` orders their relevances: from the most
/// relevant down, equal relevance in insertion order.
pub open spec fn by_relevance<T: Clone>(s: Seq<IndexedMemory<T>>, r: Seq<IndexedMemory<T>>) -> bool {
    &&& r.len() == s.len()
    &&& exists|order: Seq<int>|
        {
            &&& ranking_of(relevances(s), order)
            &&& forall|k: int| 0 <= k < r.len() ==> #[trigger] r[k] == s[order[k]]
        }
}

/// Whether the tag list holds a tag equal to `q`.
fn contains_tag(tags: &Vec<ContextTag>, q: &ContextTag) -> (b: bool)
    ensures
        b == has_tag(tags@, *q),
{
    for j in 0..tags.len()
        invariant
            forall|x: int| 0 <= x < j ==> !same_tag(#[trigger] tags@[x], *q),
    {
        if tags[j] == *q {
            return true;
        }
    }
    false
}

/// Orders references to entries by relevance, highest first, ties stable.
fn sort_by_relevance<'a, T: Clone>(matched: Vec<&'a IndexedMemory<T>>) -> (r: Vec<
    &'a IndexedMemory<T>,
>)
    ensures
        by_relevance(deref_entries(matched@), deref_entries(r@)),
{
    let ghost s = deref_entries(matched@);
    let mut keys: Vec<Score> = Vec::new();
    for i in 0..matched.len()
        invariant
            s == deref_entries(matched@),
            keys@ == relevances(s.take(i as int)),
    {
        keys.push(matched[i].relevance);
        assert(relevances(s.take(i + 1)) == relevances(s.take(i as int)).push(s[i as int].relevance));
    }
    proof {
        lemma_take_all(s);
    }
    let order = rank_desc(&keys);
    let mut r: Vec<&IndexedMemory<T>> = Vec::new();
    for k in 0..order.len()
        invariant
            order@.len() == s.len(),
            s == deref_entries(matched@),
            ranking_of(keys@, positions(order@)),
            keys@ == relevances(s),
            r@.len() == k,
            forall|x: int| 0 <= x < k ==> *(#[trigger] r@[x]) == s[order@[x] as int],
    {
        let idx = order[k];
        proof {
            assert(positions(order@)[k as int] == idx as int);
            assert(idx < s.len());
        }
        r.push(matched[idx]);
    }
    proof {
        let o = positions(order@);
        let rv = deref_entries(r@);
        assert forall|x: int| 0 <= x < rv.len() implies #[trigger] rv[x] == s[o[x]] by {
            assert(o[x] == order@[x] as int);
        }
    }
    r
}

/// Every entry that `r` lists comes from `s`.
proof fn lemma_by_relevance_same_entries<T: Clone>(s: Seq<IndexedMemory<T>>, r: Seq<IndexedMemory<T>>)
    requires
        by_relevance(s, r),
    ensures
        forall|k: int| 0 <= k < r.len() ==> exists|x: int| 0 <= x < s.len() && #[trigger] r[k] == #[trigger] s[x],
{
    let order = choose|order: Seq<int>|
        {
            &&& ranking_of(relevances(s), order)
            &&& forall|k: int| 0 <= k < r.len() ==> #[trigger] r[k] == s[order[k]]
        };
    assert(relevances(s).len() == s.len());
    assert forall|k: int| 0 <= k < r.len() implies exists|x: int| 0 <= x < s.len() && #[trigger] r[k] == #[trigger] s[x] by {
        assert(r[k] == s[order[k]]);
    }
}

/// Every entry that `r` lists passes `pred` when `r` ranks `s.filter(pred)`.
proof fn lemma_filter_listed<T: Clone>(
    s: Seq<IndexedMemory<T>>,
    pred: spec_fn(IndexedMemory<T>) -> bool,
    r: Seq<&IndexedMemory<T>>,
)
    requires
        by_relevance(s.filter(pred), deref_entries(r)),
    ensures
        forall|k: int| #![trigger r[k]] 0 <= k < r.len() ==> pred(*r[k]),
{
    let f = s.filter(pred);
    let rv = deref_entries(r);
    lemma_by_relevance_same_entries(f, rv);
    assert forall|k: int| #![trigger r[k]] 0 <= k < r.len() implies pred(*r[k]) by {
        assert(rv[k] == *r[k]);
        let x = choose|x: int| 0 <= x < f.len() && rv[k] == #[trigger] f[x];
        s.lemma_filter_pred(pred, x);
    }
}

/// A tag list holds a tag equal to `q` exactly when one of its tags, at
/// any position, has the key and the value of `q`.
pub proof fn lemma_has_tag(tags: Seq<ContextTag>, q: ContextTag)
    ensures
        has_tag(tags, q) <==> exists|j: int|
            0 <= j < tags.len() && (#[trigger] tags[j]).key@ == q.key@ && tags[j].value@ == q.value@,
{
}

/// Memory index: maps context tags to items for retrieval.
#[derive(Clone, Debug)]
pub struct MemoryIndex<T: Clone> {
    entries: Vec<IndexedMemory<T>>,
}

impl<T: Clone> MemoryIndex<T> {
    /// The indexed entries in insertion order.
    pub closed spec fn view(self) -> Seq<IndexedMemory<T>> {
        self.entries@
    }

    /// Create an empty index.
    pub fn new() -> (m: MemoryIndex<T>)
        ensures
            m@.len() == 0,
    {
        MemoryIndex { entries: Vec::new() }
    }

    /// Insert an item with associated context tags.
    pub fn insert(&mut self, item: T, tags: Vec<ContextTag>, relevance: Score)
        ensures
            final(self)@ == old(self)@.push(IndexedMemory { item, tags, relevance }),
    {
        self.entries.push(IndexedMemory { item, tags, relevance });
    }

    /// Query items matching ALL given tags, sorted by relevance (descending).
    pub fn query_all(&self, tags: &[ContextTag]) -> (r: Vec<&IndexedMemory<T>>)
        ensures
            by_relevance(
                self@.filter(|e: IndexedMemory<T>| matches_all(e, tags@)),
                deref_entries(r@),
            ),
            by_relevance(
                self@.filter(
                    |e: IndexedMemory<T>|
                        forall|q: int| 0 <= q < tags@.len() ==> has_tag(e.tags@, #[trigger] tags@[q]),
                ),
                deref_entries(r@),
            ),
            forall|k: int, q: int|
                0 <= k < r@.len() && 0 <= q < tags@.len() ==> #[trigger] has_tag(
                    (*r@[k]).tags@,
                    tags@[q],
                ),
    {
        let ghost pred = |e: IndexedMemory<T>| matches_all(e, tags@);
        let mut matched: Vec<&IndexedMemory<T>> = Vec::new();
        for i in 0..self.entries.len()
            invariant
                deref_entries(matched@) == self.entries@.take(i as int).filter(pred),
                pred == (|e: IndexedMemory<T>| matches_all(e, tags@)),
        {
            let e = &self.entries[i];
            proof {
                lemma_filter_take_step(self.entries@, i as int, pred);
            }
            let mut all = true;
            for q in 0..tags.len()
                invariant
                    all == forall|x: int| 0 <= x < q ==> has_tag(e.tags@, #[trigger] tags@[x]),
            {
                if !contains_tag(&e.tags, &tags[q]) {
                    all = false;
                }
            }
            if all {
                matched.push(e);
                assert(deref_entries(matched@) == deref_entries(matched@.drop_last()).push(*e));
            }
        }
        proof {
            lemma_take_all(self.entries@);
        }
        let r = sort_by_relevance(matched);
        proof {
            let direct = |e: IndexedMemory<T>|
                forall|q: int| 0 <= q < tags@.len() ==> has_tag(e.tags@, #[trigger] tags@[q]);
            assert(pred =~= direct);
            lemma_filter_listed(self@, pred, r@);
            assert forall|k: int, q: int|
                0 <= k < r@.len() && 0 <= q < tags@.len() implies #[trigger] has_tag(
                    (*r@[k]).tags@,
                    tags@[q],
                ) by {
                assert(pred(*r@[k]));
            }
        }
        r
    }

    /// Query items matching ANY of the given tags, sorted by relevance (descending).
    pub fn query_any(&self, tags: &[ContextTag]) -> (r: Vec<&IndexedMemory<T>>)
        ensures
            by_relevance(
                self@.filter(|e: IndexedMemory<T>| matches_any(e, tags@)),
                deref_entries(r@),
            ),
            by_relevance(
                self@.filter(
                    |e: IndexedMemory<T>|
                        exists|q: int| 0 <= q < tags@.len() && has_tag(e.tags@, #[trigger] tags@[q]),
                ),
                deref_entries(r@),
            ),
    {
        let ghost pred = |e: IndexedMemory<T>| matches_any(e, tags@);
        let mut matched: Vec<&IndexedMemory<T>> = Vec::new();
        for i in 0..self.entries.len()
            invariant
                deref_entries(matched@) == self.entries@.take(i as int).filter(pred),
                pred == (|e: IndexedMemory<T>| matches_any(e, tags@)),
        {
            let e = &self.entries[i];
            proof {
                lemma_filter_take_step(self.entries@, i as int, pred);
            }
            let mut any = false;
            for q in 0..tags.len()
                invariant
                    any == exists|x: int| 0 <= x < q && has_tag(e.tags@, #[trigger] tags@[x]),
            {
                if contains_tag(&e.tags, &tags[q]) {
                    any = true;
                }
            }
            if any {
                matched.push(e);
                assert(deref_entries(matched@) == deref_entries(matched@.drop_last()).push(*e));
            }
        }
        proof {
            lemma_take_all(self.entries@);
        }
        let r = sort_by_relevance(matched);
        proof {
            let direct = |e: IndexedMemory<T>|
                exists|q: int| 0 <= q < tags@.len() && has_tag(e.tags@, #[trigger] tags@[q]);
            assert(pred =~= direct);
        }
        r
    }

    /// Return all entries.
    pub fn all(&self) -> (r: &[IndexedMemory<T>])
        ensures
            r@ == self@,
    {
        self.entries.as_slice()
    }

    /// Number of indexed entries.
    pub fn len(&self) -> (n: usize)
        ensures
            n == self@.len(),
    {
        self.entries.len()
    }

    /// Whether the index is empty.
    pub fn is_empty(&self) -> (b: bool)
        ensures
            b == (self@.len() == 0),
    {
        self.entries.is_empty()
    }

    /// Remove entries for which the predicate returns false; the others keep their order.
    pub fn retain(&mut self, f: impl Fn(&IndexedMemory<T>) -> bool)
        requires
            forall|e: &IndexedMemory<T>| f.requires((e,)),
        ensures
            exists|mask: Seq<bool>|
                {
                    &&& mask.len() == old(self)@.len()
                    &&& forall|i: int|
                        0 <= i < mask.len() ==> f.ensures((&old(self)@[i],), #[trigger] mask[i])
                    &&& final(self)@ == kept(old(self)@, mask)
                },
    {
        let ghost orig = self.entries@;
        let ghost mut mask: Seq<bool> = Seq::empty();
        let n = self.entries.len();
        let mut i: usize = 0;
        let mut p: usize = 0;
        while p < n
            invariant
                n == orig.len(),
                p <= n,
                mask.len() == p,
                forall|x: int| 0 <= x < p ==> f.ensures((&orig[x],), #[trigger] mask[x]),
                forall|e: &IndexedMemory<T>| f.requires((e,)),
                i == kept(orig.take(p as int), mask).len(),
                self.entries@ == kept(orig.take(p as int), mask) + orig.skip(p as int),
            decreases n - p,
        {
            proof {
                lemma_kept_len(orig.take(p as int), mask);
                assert(self.entries@[i as int] == orig[p as int]);
            }
            let keep = f(&self.entries[i]);
            proof {
                let t = orig.take(p + 1);
                let nm = mask.push(keep);
                assert(t.drop_last() == orig.take(p as int));
                assert(nm.drop_last() == mask);
                assert(kept(t, nm) == if keep {
                    kept(orig.take(p as int), mask).push(orig[p as int])
                } else {
                    kept(orig.take(p as int), mask)
                });
                mask = nm;
            }
            if keep {
                i = i + 1;
            } else {
                self.entries.remove(i);
            }
            p = p + 1;
            proof {
                assert(self.entries@ == kept(orig.take(p as int), mask) + orig.skip(p as int));
            }
        }
        proof {
            lemma_take_all(orig);
            assert(orig.skip(n as int).len() == 0);
            assert(self.entries@ == kept(orig, mask));
        }
    }
}

/// Matching all of a non-empty list of tags implies matching one of them;
/// with no tags, every entry matches all of them and none matches any.
pub proof fn lemma_all_and_any<T: Clone>(e: IndexedMemory<T>, queries: Seq<ContextTag>)
    ensures
        queries.len() > 0 && matches_all(e, queries) ==> matches_any(e, queries),
        queries.len() == 0 ==> matches_all(e, queries) && !matches_any(e, queries),
{
    if queries.len() > 0 && matches_all(e, queries) {
        assert(has_tag(e.tags@, queries[0]));
    }
}

impl<T: Clone> Default for MemoryIndex<T> {
    fn default() -> (m: MemoryIndex<T>)
        ensures
            m@.len() == 0,
    {
        MemoryIndex::new()
    }
}

} // verus!
