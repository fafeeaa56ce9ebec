//! Facts about sequences used by the filtering loops.
use vstd::prelude::*;

verus! {

/// Filtering a prefix one element longer adds that element exactly when it
/// passes the predicate.
pub proof fn lemma_filter_take_step<A>(s: Seq<A>, i: int, pred: spec_fn(A) -> bool)
    requires
        0 <= i < s.len(),
    ensures
        s.take(i + 1).filter(pred) == if pred(s[i]) {
            s.take(i).filter(pred).push(s[i])
        } else {
            s.take(i).filter(pred)
        },
{
    reveal(Seq::filter);
    assert(s.take(i + 1).drop_last() =~= s.take(i));
    assert(s.take(i + 1).last() == s[i]);
}

/// The whole sequence is its longest prefix.
pub proof fn lemma_take_all<A>(s: Seq<A>)
    ensures
        s.take(s.len() as int) == s,
{
    assert(s.take(s.len() as int) =~= s);
}

/// The entries of `s` whose flag in `mask` is set, in order.
pub open spec fn kept<A>(s: Seq<A>, mask: Seq<bool>) -> Seq<A>
    decreases s.len(),
{
    if s.len() == 0 || mask.len() == 0 {
        Seq::empty()
    } else {
        let r = kept(s.drop_last(), mask.drop_last());
        if mask.last() {
            r.push(s.last())
        } else {
            r
        }
    }
}

/// Keeping some entries never lengthens a sequence.
pub proof fn lemma_kept_len<A>(s: Seq<A>, mask: Seq<bool>)
    ensures
        kept(s, mask).len() <= s.len(),
    decreases s.len(),
{
    if s.len() > 0 && mask.len() > 0 {
        lemma_kept_len(s.drop_last(), mask.drop_last());
    }
}

/// The mask with every flag flipped.
pub open spec fn negate(mask: Seq<bool>) -> Seq<bool> {
    mask.map_values(|b: bool| !b)
}

/// Keeping by a mask one entry longer adds the entry exactly when its flag is set.
pub proof fn lemma_kept_step<A>(s: Seq<A>, mask: Seq<bool>, i: int)
    requires
        0 <= i < s.len(),
        i < mask.len(),
    ensures
        kept(s.take(i + 1), mask.take(i + 1)) == if mask[i] {
            kept(s.take(i), mask.take(i)).push(s[i])
        } else {
            kept(s.take(i), mask.take(i))
        },
{
    assert(s.take(i + 1).drop_last() == s.take(i));
    assert(mask.take(i + 1).drop_last() == mask.take(i));
}

/// Whatever holds of every entry holds of every kept entry.
pub proof fn lemma_kept_all<A>(s: Seq<A>, mask: Seq<bool>, p: spec_fn(A) -> bool)
    requires
        forall|j: int| 0 <= j < s.len() ==> p(#[trigger] s[j]),
    ensures
        forall|k: int| 0 <= k < kept(s, mask).len() ==> p(#[trigger] kept(s, mask)[k]),
    decreases s.len(),
{
    if s.len() > 0 && mask.len() > 0 {
        let d = s.drop_last();
        assert forall|j: int| 0 <= j < d.len() implies p(#[trigger] d[j]) by {
            assert(d[j] == s[j]);
        }
        lemma_kept_all(d, mask.drop_last(), p);
        let r = kept(d, mask.drop_last());
        assert(p(s.last()));
        assert forall|k: int| 0 <= k < kept(s, mask).len() implies p(#[trigger] kept(s, mask)[k]) by {
            if k < r.len() {
                assert(kept(s, mask)[k] == r[k]);
            }
        }
    }
}

/// Keeping by a mask and by its negation splits a sequence: the two parts
/// together hold every entry once.
pub proof fn lemma_kept_partition<A>(s: Seq<A>, mask: Seq<bool>)
    requires
        mask.len() == s.len(),
    ensures
        kept(s, mask).to_multiset().add(kept(s, negate(mask)).to_multiset()) == s.to_multiset(),
    decreases s.len(),
{
    broadcast use vstd::multiset::group_multiset_axioms;
    broadcast use vstd::seq_lib::group_to_multiset_ensures;

    if s.len() == 0 {
        assert(kept(s, mask) == Seq::<A>::empty());
        assert(kept(s, negate(mask)) == Seq::<A>::empty());
        assert(kept(s, mask).to_multiset().add(kept(s, negate(mask)).to_multiset()) =~= s.to_multiset());
    } else {
        let d = s.drop_last();
        let m = mask.drop_last();
        lemma_kept_partition(d, m);
        assert(negate(mask).drop_last() == negate(m));
        assert(negate(mask).last() == !mask.last());
        assert(d.push(s.last()) == s);
        vstd::seq_lib::to_multiset_build(d, s.last());
        let y = kept(d, m);
        let n = kept(d, negate(m));
        if mask.last() {
            vstd::seq_lib::to_multiset_build(y, s.last());
            assert(kept(s, mask) == y.push(s.last()));
            assert(kept(s, negate(mask)) == n);
        } else {
            vstd::seq_lib::to_multiset_build(n, s.last());
            assert(kept(s, mask) == y);
            assert(kept(s, negate(mask)) == n.push(s.last()));
        }
        assert(kept(s, mask).to_multiset().add(kept(s, negate(mask)).to_multiset()) =~= s.to_multiset());
    }
}

/// With every flag set, everything is kept and nothing is left.
pub proof fn lemma_select_all<A>(s: Seq<A>, mask: Seq<bool>)
    requires
        mask.len() == s.len(),
        forall|i: int| 0 <= i < mask.len() ==> #[trigger] mask[i],
    ensures
        kept(s, mask) == s,
        kept(s, negate(mask)).len() == 0,
    decreases s.len(),
{
    if s.len() > 0 {
        let m = mask.drop_last();
        assert forall|i: int| 0 <= i < m.len() implies #[trigger] m[i] by {
            assert(m[i] == mask[i]);
        }
        lemma_select_all(s.drop_last(), m);
        assert(negate(mask).drop_last() == negate(m));
        assert(mask.last() == mask[mask.len() - 1]);
        assert(s.drop_last().push(s.last()) == s);
    }
}

} // verus!
