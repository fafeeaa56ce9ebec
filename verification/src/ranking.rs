//! Stable descending ranking of items by score.
use vstd::prelude::*;

use crate::score::Score;

verus! {

/// `x` is ranked before `y`: a strictly higher score, or an equal score and
/// an earlier position (a stable order).
pub open spec fn ranks_before(keys: Seq<Score>, x: int, y: int) -> bool {
    keys[x].key() > keys[y].key() || (keys[x].key() == keys[y].key() && x < y)
}

/// No score is NaN.
pub open spec fn no_nan(keys: Seq<Score>) -> bool {
    forall|k: int| 0 <= k < keys.len() ==> !(#[trigger] keys[k]).is_nan()
}

/// `x` occurs in `order`.
pub open spec fn lists(order: Seq<int>, x: int) -> bool {
    exists|a: int| 0 <= a < order.len() && #[trigger] order[a] == x
}

/// `order` lists every position below `n` exactly once.
pub open spec fn is_permutation(order: Seq<int>, n: nat) -> bool {
    &&& order.len() == n
    &&& forall|a: int| 0 <= a < order.len() ==> 0 <= #[trigger] order[a] < n
    &&& forall|a: int, b: int| 0 <= a < b < order.len() ==> order[a] != order[b]
    &&& forall|x: int| 0 <= x < n ==> #[trigger] lists(order, x)
}

/// `order` lists the positions of `keys` from the highest score down,
/// equal scores keeping their input order.
pub open spec fn ranked_desc(keys: Seq<Score>, order: Seq<int>) -> bool {
    &&& is_permutation(order, keys.len())
    &&& forall|a: int, b: int|
        0 <= a < b < order.len() ==> ranks_before(keys, #[trigger] order[a], #[trigger] order[b])
}

/// Positions as mathematical integers.
pub open spec fn positions(v: Seq<usize>) -> Seq<int> {
    v.map_values(|u: usize| u as int)
}

/// No score is below another (all NaN, or all equal).
pub open spec fn unordered(keys: Seq<Score>) -> bool {
    forall|i: int, j: int|
        0 <= i < keys.len() && 0 <= j < keys.len() ==> !(#[trigger] keys[i]).spec_lt(
            #[trigger] keys[j],
        )
}

/// `order` is how `rank_desc` lists the positions of `keys`: each once;
/// by descending score with ties in input order when no score is NaN; and
/// in input order when no score is below another.
pub open spec fn ranking_of(keys: Seq<Score>, order: Seq<int>) -> bool {
    &&& is_permutation(order, keys.len())
    &&& no_nan(keys) ==> ranked_desc(keys, order)
    &&& unordered(keys) ==> forall|a: int| 0 <= a < order.len() ==> order[a] == a
}

/// Positions of `keys` ordered by descending score, ties in input order.
/// Every position is listed once whatever the scores; without NaN the order
/// is the stable descending one, and when no score is below another the
/// input order is kept.
pub fn rank_desc(keys: &Vec<Score>) -> (order: Vec<usize>)
    ensures
        ranking_of(keys@, positions(order@)),
{
    let n = keys.len();
    let mut order: Vec<usize> = Vec::new();
    for i in 0..n
        invariant
            n == keys@.len(),
            order@.len() == i,
            forall|a: int| 0 <= a < order@.len() ==> #[trigger] order@[a] < i,
            forall|a: int, b: int| 0 <= a < b < order@.len() ==> order@[a] != order@[b],
            forall|x: int| 0 <= x < i ==> #[trigger] lists(positions(order@), x),
            no_nan(keys@) ==> forall|a: int, b: int|
                0 <= a < b < order@.len() ==> ranks_before(
                    keys@,
                    #[trigger] order@[a] as int,
                    #[trigger] order@[b] as int,
                ),
            unordered(keys@) ==> forall|a: int| 0 <= a < order@.len() ==> order@[a] == a,
    {
        let mut p = order.len();
        while p > 0 && keys[order[p - 1]].lt(&keys[i])
            invariant
                n == keys@.len(),
                i < n,
                order@.len() == i,
                p <= order@.len(),
                forall|a: int| 0 <= a < order@.len() ==> #[trigger] order@[a] < i,
                forall|q: int|
                    p <= q < order@.len() ==> keys@[#[trigger] order@[q] as int].spec_lt(
                        keys@[i as int],
                    ),
                unordered(keys@) ==> p == order@.len(),
            decreases p,
        {
            proof {
                if unordered(keys@) {
                    assert(!keys@[order@[p - 1] as int].spec_lt(keys@[i as int]));
                }
            }
            p = p - 1;
        }
        proof {
            if no_nan(keys@) {
                assert(!keys@[i as int].is_nan());
                if p > 0 {
                    assert(!keys@[order@[p - 1] as int].is_nan());
                    assert(ranks_before(keys@, order@[p - 1] as int, i as int));
                }
            }
        }
        let ghost old_order = order@;
        order.insert(p, i);
        proof {
            assert(order@ == old_order.insert(p as int, i));
            if no_nan(keys@) {
                assert forall|a: int, b: int| 0 <= a < b < order@.len() implies ranks_before(
                    keys@,
                    #[trigger] order@[a] as int,
                    #[trigger] order@[b] as int,
                ) by {
                    if b < p {
                        assert(order@[a] == old_order[a] && order@[b] == old_order[b]);
                    } else if b == p {
                        assert(order@[a] == old_order[a]);
                        if a < p - 1 {
                            assert(ranks_before(keys@, old_order[a] as int, old_order[p - 1] as int));
                        }
                    } else if a == p {
                        assert(order@[b] == old_order[b - 1]);
                        assert(!keys@[order@[b] as int].is_nan());
                    } else if a < p {
                        assert(order@[a] == old_order[a] && order@[b] == old_order[b - 1]);
                    } else {
                        assert(order@[a] == old_order[a - 1] && order@[b] == old_order[b - 1]);
                    }
                }
            }
            if unordered(keys@) {
                assert forall|a: int| 0 <= a < order@.len() implies order@[a] == a by {
                    if a < p {
                        assert(order@[a] == old_order[a]);
                    }
                }
            }
            assert forall|a: int, b: int| 0 <= a < b < order@.len() implies order@[a]
                != order@[b] by {
                if a == p {
                    assert(order@[b] == old_order[b - 1]);
                } else if b == p {
                    assert(order@[a] == old_order[a]);
                } else if a < p && b < p {
                    assert(order@[a] == old_order[a] && order@[b] == old_order[b]);
                } else if a < p {
                    assert(order@[a] == old_order[a] && order@[b] == old_order[b - 1]);
                } else {
                    assert(order@[a] == old_order[a - 1] && order@[b] == old_order[b - 1]);
                }
            }
            assert forall|x: int| 0 <= x < i + 1 implies #[trigger] lists(positions(order@), x) by {
                if x == i {
                    assert(positions(order@)[p as int] == i);
                } else {
                    assert(lists(positions(old_order), x));
                    let a = choose|a: int| 0 <= a < positions(old_order).len() && #[trigger] positions(old_order)[a] == x;
                    if a < p {
                        assert(positions(order@)[a] == positions(old_order)[a]);
                    } else {
                        assert(positions(order@)[a + 1] == positions(old_order)[a]);
                    }
                }
            }
            assert forall|a: int| 0 <= a < order@.len() implies #[trigger] order@[a] < i + 1 by {
                if a < p {
                    assert(order@[a] == old_order[a]);
                } else if a > p {
                    assert(order@[a] == old_order[a - 1]);
                }
            }
        }
    }
    proof {
        let o = positions(order@);
        if no_nan(keys@) {
            assert forall|a: int, b: int| 0 <= a < b < o.len() implies ranks_before(
                keys@,
                #[trigger] o[a],
                #[trigger] o[b],
            ) by {
                assert(ranks_before(keys@, order@[a] as int, order@[b] as int));
            }
        }
        assert forall|a: int, b: int| 0 <= a < b < o.len() implies o[a] != o[b] by {
            assert(order@[a] != order@[b]);
        }
        assert forall|a: int| 0 <= a < o.len() implies 0 <= #[trigger] o[a] < keys@.len() by {
            assert(order@[a] < n);
        }
        if unordered(keys@) {
            assert forall|a: int| 0 <= a < o.len() implies o[a] == a by {
                assert(order@[a] == a);
            }
        }
    }
    order
}

/// Two rankings that agree on a prefix agree on the next position.
proof fn lemma_ranking_step(keys: Seq<Score>, o1: Seq<int>, o2: Seq<int>, k: int)
    requires
        ranked_desc(keys, o1),
        ranked_desc(keys, o2),
        0 <= k < o1.len(),
        forall|j: int| 0 <= j < k ==> o1[j] == o2[j],
    ensures
        o1[k] == o2[k],
{
    let a = o1[k];
    let b = o2[k];
    if a != b {
        let n = keys.len() as int;
        assert(0 <= b < n);
        assert(lists(o1, b));
        let p = choose|p: int| 0 <= p < o1.len() && #[trigger] o1[p] == b;
        if p < k {
            assert(o2[p] == b);
        }
        assert(p > k);
        assert(ranks_before(keys, o1[k], o1[p]));
        assert(0 <= a < n);
        assert(lists(o2, a));
        let q = choose|q: int| 0 <= q < o2.len() && #[trigger] o2[q] == a;
        if q < k {
            assert(o1[q] == a);
        }
        assert(q > k);
        assert(ranks_before(keys, o2[k], o2[q]));
    }
}

/// Two rankings agree on their first `k` positions.
proof fn lemma_ranking_prefix(keys: Seq<Score>, o1: Seq<int>, o2: Seq<int>, k: int)
    requires
        ranked_desc(keys, o1),
        ranked_desc(keys, o2),
        0 <= k <= o1.len(),
    ensures
        forall|j: int| 0 <= j < k ==> o1[j] == o2[j],
    decreases k,
{
    if k > 0 {
        lemma_ranking_prefix(keys, o1, o2, k - 1);
        lemma_ranking_step(keys, o1, o2, k - 1);
    }
}

/// The ranking is unique: two orders that both list the positions by
/// descending score, ties in input order, are the same order.
pub proof fn lemma_ranking_unique(keys: Seq<Score>, o1: Seq<int>, o2: Seq<int>)
    requires
        ranked_desc(keys, o1),
        ranked_desc(keys, o2),
    ensures
        o1 == o2,
{
    lemma_ranking_prefix(keys, o1, o2, o1.len() as int);
    assert(o1 =~= o2);
}

} // verus!
