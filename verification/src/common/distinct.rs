//! Collections without repetition, kept in vectors.

use crate::common::grid_board::{Matchable, Xy};
use vstd::prelude::*;
use vstd::seq_lib::lemma_seq_contains_after_push;

verus! {

impl Matchable for Xy {
    fn same(&self, other: &Self) -> (r: bool) {
        self.x == other.x && self.y == other.y
    }
}

/// Whether the item occurs among the items.
pub fn contains<T: Matchable>(items: &Vec<T>, x: &T) -> (r: bool)
    ensures
        r == items@.contains(*x),
{
    let mut i: usize = 0;
    while i < items.len()
        invariant
            i <= items@.len(),
            forall|k: int| 0 <= k < i ==> items@[k] != *x,
        decreases items@.len() - i,
    {
        if items[i].same(x) {
            return true;
        }
        i += 1;
    }
    false
}

/// Adds the item to items without repetition, unless it is among them.
pub fn insert<T: Matchable>(items: &mut Vec<T>, x: T)
    requires
        old(items)@.no_duplicates(),
    ensures
        final(items)@.no_duplicates(),
        final(items)@.to_set() == old(items)@.to_set().insert(x),
        final(items)@ == (if old(items)@.contains(x) {
            old(items)@
        } else {
            old(items)@.push(x)
        }),
{
    let ghost before = items@;
    if !contains(items, &x) {
        items.push(x);
        proof {
            assert forall|a: T| #[trigger] items@.contains(a) == (a == x || before.contains(a)) by {
                lemma_seq_contains_after_push(before, x, a);
            }
        }
    }
    assert(items@.to_set() =~= before.to_set().insert(x));
}

/// The items without repetition, each at the place of its first
/// occurrence.
pub fn distinct<T: Matchable>(items: &Vec<T>) -> (r: Vec<T>)
    ensures
        r@.no_duplicates(),
        r@.to_set() == items@.to_set(),
        r@.len() == items@.to_set().len(),
{
    let mut out: Vec<T> = Vec::new();
    let mut i: usize = 0;
    assert(out@.to_set() =~= items@.take(0).to_set());
    while i < items.len()
        invariant
            i <= items@.len(),
            out@.no_duplicates(),
            out@.to_set() == items@.take(i as int).to_set(),
        decreases items@.len() - i,
    {
        let ghost seen = items@.take(i as int);
        insert(&mut out, items[i]);
        proof {
            assert(items@.take(i as int + 1) =~= seen.push(items@[i as int]));
            assert forall|a: T| #[trigger]
                seen.push(items@[i as int]).contains(a) == (a == items@[i as int] || seen.contains(
                    a,
                )) by {
                lemma_seq_contains_after_push(seen, items@[i as int], a);
            }
            assert(out@.to_set() =~= items@.take(i as int + 1).to_set());
        }
        i += 1;
    }
    proof {
        assert(items@.take(items@.len() as int) =~= items@);
        out@.unique_seq_to_set();
    }
    out
}

/// The number of different items.
pub fn count_distinct<T: Matchable>(items: &Vec<T>) -> (n: usize)
    ensures
        n == items@.to_set().len(),
{
    distinct(items).len()
}

} // verus!
