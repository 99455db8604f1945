//! Sums and products that say when they leave the range of `i64`.

use vstd::prelude::*;

verus! {

/// Whether an integer is within the range of `i64`.
pub open spec fn fits_i64(v: int) -> bool {
    i64::MIN <= v <= i64::MAX
}

/// The value of a checked result as an integer.
pub open spec fn known(v: Option<i64>) -> Option<int> {
    match v {
        Some(x) => Some(x as int),
        None => None,
    }
}

/// The sum of two checked results: `None` if either is `None` or the sum
/// leaves the range of `i64`.
pub open spec fn add_within(a: Option<int>, b: Option<int>) -> Option<int> {
    match (a, b) {
        (Some(x), Some(y)) => if fits_i64(x + y) {
            Some(x + y)
        } else {
            None
        },
        _ => None,
    }
}

/// The product of two checked results: `None` if either is `None` or the
/// product leaves the range of `i64`.
pub open spec fn mul_within(a: Option<int>, b: Option<int>) -> Option<int> {
    match (a, b) {
        (Some(x), Some(y)) => if fits_i64(x * y) {
            Some(x * y)
        } else {
            None
        },
        _ => None,
    }
}

/// The smaller of two checked results: `None` if either is `None`.
pub open spec fn min_within(a: Option<int>, b: Option<int>) -> Option<int> {
    match (a, b) {
        (Some(x), Some(y)) => if x <= y {
            Some(x)
        } else {
            Some(y)
        },
        _ => None,
    }
}

pub fn add_checked(a: Option<i64>, b: Option<i64>) -> (r: Option<i64>)
    ensures
        known(r) == add_within(known(a), known(b)),
{
    match (a, b) {
        (Some(x), Some(y)) => x.checked_add(y),
        _ => None,
    }
}

pub fn mul_checked(a: Option<i64>, b: Option<i64>) -> (r: Option<i64>)
    ensures
        known(r) == mul_within(known(a), known(b)),
{
    match (a, b) {
        (Some(x), Some(y)) => x.checked_mul(y),
        _ => None,
    }
}

pub fn min_checked(a: Option<i64>, b: Option<i64>) -> (r: Option<i64>)
    ensures
        known(r) == min_within(known(a), known(b)),
{
    match (a, b) {
        (Some(x), Some(y)) => if x <= y {
            Some(x)
        } else {
            Some(y)
        },
        _ => None,
    }
}

/// The sum of the values, added up from the left. `None` once a partial
/// sum leaves the range of `i64`.
pub open spec fn checked_sum(values: Seq<i64>) -> Option<int>
    decreases values.len(),
{
    if values.len() == 0 {
        Some(0)
    } else {
        match checked_sum(values.drop_last()) {
            Some(before) => if fits_i64(before + values.last()) {
                Some(before + values.last())
            } else {
                None
            },
            None => None,
        }
    }
}

/// The product of the values, multiplied from the left. `None` once a
/// partial product leaves the range of `i64`.
pub open spec fn checked_product(values: Seq<i64>) -> Option<int>
    decreases values.len(),
{
    if values.len() == 0 {
        Some(1)
    } else {
        match checked_product(values.drop_last()) {
            Some(before) => if fits_i64(before * values.last()) {
                Some(before * values.last())
            } else {
                None
            },
            None => None,
        }
    }
}

/// Once a sum is lost, it stays lost.
pub proof fn lemma_sum_stays_lost(values: Seq<i64>, n: int)
    requires
        0 <= n <= values.len(),
        checked_sum(values.take(n)) is None,
    ensures
        checked_sum(values) is None,
    decreases values.len() - n,
{
    if n < values.len() {
        assert(values.take(n + 1).drop_last() =~= values.take(n));
        lemma_sum_stays_lost(values, n + 1);
    } else {
        assert(values.take(n) =~= values);
    }
}

/// Once a product is lost, it stays lost.
pub proof fn lemma_product_stays_lost(values: Seq<i64>, n: int)
    requires
        0 <= n <= values.len(),
        checked_product(values.take(n)) is None,
    ensures
        checked_product(values) is None,
    decreases values.len() - n,
{
    if n < values.len() {
        assert(values.take(n + 1).drop_last() =~= values.take(n));
        lemma_product_stays_lost(values, n + 1);
    } else {
        assert(values.take(n) =~= values);
    }
}

/// Adds up the values.
pub fn sum_i64(values: &Vec<i64>) -> (r: Option<i64>)
    ensures
        match checked_sum(values@) {
            Some(total) => r is Some && r->0 == total,
            None => r is None,
        },
{
    let mut total: i64 = 0;
    let mut i: usize = 0;
    assert(values@.take(0) =~= Seq::<i64>::empty());
    while i < values.len()
        invariant
            i <= values@.len(),
            checked_sum(values@.take(i as int)) == Some(total as int),
        decreases values@.len() - i,
    {
        assert(values@.take(i as int + 1).drop_last() =~= values@.take(i as int));
        assert(values@.take(i as int + 1).last() == values@[i as int]);
        match total.checked_add(values[i]) {
            Some(sum) => {
                total = sum;
            },
            None => {
                proof {
                    lemma_sum_stays_lost(values@, i as int + 1);
                }
                return None;
            },
        }
        i += 1;
    }
    assert(values@.take(values@.len() as int) =~= values@);
    Some(total)
}

/// Multiplies the values.
pub fn product_i64(values: &Vec<i64>) -> (r: Option<i64>)
    ensures
        match checked_product(values@) {
            Some(total) => r is Some && r->0 == total,
            None => r is None,
        },
{
    let mut total: i64 = 1;
    let mut i: usize = 0;
    assert(values@.take(0) =~= Seq::<i64>::empty());
    while i < values.len()
        invariant
            i <= values@.len(),
            checked_product(values@.take(i as int)) == Some(total as int),
        decreases values@.len() - i,
    {
        assert(values@.take(i as int + 1).drop_last() =~= values@.take(i as int));
        assert(values@.take(i as int + 1).last() == values@[i as int]);
        match total.checked_mul(values[i]) {
            Some(product) => {
                total = product;
            },
            None => {
                proof {
                    lemma_product_stays_lost(values@, i as int + 1);
                }
                return None;
            },
        }
        i += 1;
    }
    assert(values@.take(values@.len() as int) =~= values@);
    Some(total)
}

} // verus!
