//! Sorting by an integer rank.

use vstd::prelude::*;
use vstd::relations::{sorted_by, total_ordering};
use vstd::seq_lib::{lemma_sorted_unique, to_multiset_build, to_multiset_insert};

verus! {

/// A value with an integer rank by which it is ordered. Different values
/// have different ranks.
pub trait Ranked: Copy {
    spec fn rank(self) -> int;

    fn rank_of(&self) -> (r: i128)
        ensures
            r == self.rank(),
    ;

    proof fn lemma_rank_tells_apart(a: Self, b: Self)
        requires
            a.rank() == b.rank(),
        ensures
            a == b,
    ;
}

impl Ranked for i64 {
    open spec fn rank(self) -> int {
        self as int
    }

    fn rank_of(&self) -> (r: i128) {
        *self as i128
    }

    proof fn lemma_rank_tells_apart(a: Self, b: Self) {
    }
}

/// The order of values by rank.
pub open spec fn by_rank<T: Ranked>() -> spec_fn(T, T) -> bool {
    |a: T, b: T| a.rank() <= b.rank()
}

/// The order by rank is a total order.
pub proof fn lemma_by_rank_total<T: Ranked>()
    ensures
        total_ordering(by_rank::<T>()),
{
    let leq = by_rank::<T>();
    assert forall|a: T, b: T| #[trigger] leq(a, b) && #[trigger] leq(b, a) implies a == b by {
        T::lemma_rank_tells_apart(a, b);
    }
    assert(vstd::relations::reflexive(leq));
    assert(vstd::relations::antisymmetric(leq));
    assert(vstd::relations::transitive(leq));
    assert(vstd::relations::strongly_connected(leq));
}

/// The values in ascending order of rank.
pub fn sort_by_rank<T: Ranked>(v: &Vec<T>) -> (r: Vec<T>)
    ensures
        r@ == v@.sort_by(by_rank::<T>()),
        r@.len() == v@.len(),
        sorted_by(r@, by_rank::<T>()),
        r@.to_multiset() == v@.to_multiset(),
{
    let mut out: Vec<T> = Vec::new();
    let mut i: usize = 0;
    assert(v@.take(0) =~= Seq::<T>::empty());
    while i < v.len()
        invariant
            i <= v@.len(),
            out@.len() == i,
            sorted_by(out@, by_rank::<T>()),
            out@.to_multiset() == v@.take(i as int).to_multiset(),
        decreases v@.len() - i,
    {
        let x = v[i];
        let key = x.rank_of();
        let mut p: usize = 0;
        while p < out.len() && out[p].rank_of() <= key
            invariant
                p <= out@.len(),
                key == x.rank(),
                forall|k: int| 0 <= k < p ==> (#[trigger] out@[k]).rank() <= key,
            decreases out@.len() - p,
        {
            p += 1;
        }
        proof {
            let before = out@;
            let after = before.insert(p as int, x);
            to_multiset_insert(before, p as int, x);
            to_multiset_build(v@.take(i as int), x);
            assert(v@.take(i as int + 1) =~= v@.take(i as int).push(x));
            assert forall|a: int, b: int| 0 <= a < b < after.len() implies #[trigger] by_rank::<T>()(
                after[a],
                after[b],
            ) by {
                if a < p && b > p {
                    assert(by_rank::<T>()(before[a], before[b - 1]));
                } else if a < p && b < p {
                    assert(by_rank::<T>()(before[a], before[b]));
                } else if a > p {
                    assert(by_rank::<T>()(before[a - 1], before[b - 1]));
                } else if a == p {
                    assert(by_rank::<T>()(before[p as int], before[b - 1]));
                }
            }
        }
        out.insert(p, x);
        i += 1;
    }
    proof {
        assert(v@.take(v@.len() as int) =~= v@);
        lemma_by_rank_total::<T>();
        v@.lemma_sort_by_ensures(by_rank::<T>());
        lemma_sorted_unique(out@, v@.sort_by(by_rank::<T>()), by_rank::<T>());
    }
    out
}

} // verus!
