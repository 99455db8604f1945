//! Two lists of numbers stand side by side. The puzzle asks how far apart
//! they are when both are sorted, and how alike they are.

use crate::common::arith::{add_checked, add_within, known, mul_checked, mul_within};
use crate::common::distinct::distinct;
use crate::common::parsing::{pairs_of, parse_as_ii, records_of, split_records};
use crate::common::sorting::{by_rank, sort_by_rank};
use crate::common::text::{lines_of, split_lines};
use vstd::prelude::*;

verus! {

/// The first numbers of the pairs.
pub open spec fn lefts(records: Seq<(i64, i64)>) -> Seq<i64> {
    records.map_values(|pair: (i64, i64)| pair.0)
}

/// The second numbers of the pairs.
pub open spec fn rights(records: Seq<(i64, i64)>) -> Seq<i64> {
    records.map_values(|pair: (i64, i64)| pair.1)
}

/// Splits pairs into the list of their first and the list of their second
/// numbers.
pub fn unzip(records: &Vec<(i64, i64)>) -> (r: (Vec<i64>, Vec<i64>))
    ensures
        r.0@ == lefts(records@),
        r.1@ == rights(records@),
{
    let mut left: Vec<i64> = Vec::new();
    let mut right: Vec<i64> = Vec::new();
    let mut i: usize = 0;
    while i < records.len()
        invariant
            i <= records@.len(),
            left@ == lefts(records@).take(i as int),
            right@ == rights(records@).take(i as int),
        decreases records@.len() - i,
    {
        left.push(records[i].0);
        right.push(records[i].1);
        assert(left@ =~= lefts(records@).take(i as int + 1));
        assert(right@ =~= rights(records@).take(i as int + 1));
        i += 1;
    }
    assert(left@ =~= lefts(records@));
    assert(right@ =~= rights(records@));
    (left, right)
}

/// The distance between two numbers. `None` if the difference or its
/// magnitude leaves the range of `i64`.
pub open spec fn distance(x: int, y: int) -> Option<int> {
    let d = x - y;
    if i64::MIN < d <= i64::MAX {
        Some(if d < 0 {
            -d
        } else {
            d
        })
    } else {
        None
    }
}

/// The sum of the distances between the numbers at the same places of two
/// lists of one length, added up from the left.
pub open spec fn distance_sum(left: Seq<i64>, right: Seq<i64>, n: int) -> Option<int>
    decreases n,
{
    if n <= 0 {
        Some(0)
    } else {
        add_within(
            distance_sum(left, right, n - 1),
            distance(left[n - 1] as int, right[n - 1] as int),
        )
    }
}

/// The answer to the first part for the pairs: both lists are sorted, and
/// the distances between the numbers at the same places are added up.
pub open spec fn error_sum(records: Seq<(i64, i64)>) -> Option<int> {
    distance_sum(
        lefts(records).sort_by(by_rank::<i64>()),
        rights(records).sort_by(by_rank::<i64>()),
        records.len() as int,
    )
}

/// The distance between two numbers.
pub fn distance_between(x: i64, y: i64) -> (r: Option<i64>)
    ensures
        known(r) == distance(x as int, y as int),
{
    match x.checked_sub(y) {
        Some(d) => if d == i64::MIN {
            None
        } else if d < 0 {
            Some(-d)
        } else {
            Some(d)
        },
        None => None,
    }
}

pub fn sorted_error_sum(records: Vec<(i64, i64)>) -> (r: Option<i64>)
    ensures
        known(r) == error_sum(records@),
{
    let (left, right) = unzip(&records);
    let left = sort_by_rank(&left);
    let right = sort_by_rank(&right);
    let mut result: Option<i64> = Some(0);
    let mut i: usize = 0;
    while i < left.len()
        invariant
            left@.len() == right@.len(),
            i <= left@.len(),
            known(result) == distance_sum(left@, right@, i as int),
        decreases left@.len() - i,
    {
        result = add_checked(result, distance_between(left[i], right[i]));
        i += 1;
    }
    result
}

/// How often a number occurs among the first `n` numbers of a list.
pub open spec fn occurrences(list: Seq<i64>, k: i64, n: int) -> int
    decreases n,
{
    if n <= 0 {
        0
    } else {
        occurrences(list, k, n - 1) + if list[n - 1] == k {
            1int
        } else {
            0int
        }
    }
}

/// The sum over the first `n` keys of the key times the number of times
/// it occurs in each of the two lists, added up from the left.
pub open spec fn score_sum(keys: Seq<i64>, left: Seq<i64>, right: Seq<i64>, n: int) -> Option<int>
    decreases n,
{
    if n <= 0 {
        Some(0)
    } else {
        let k = keys[n - 1];
        let score = mul_within(
            mul_within(Some(k as int), Some(occurrences(left, k, left.len() as int))),
            Some(occurrences(right, k, right.len() as int)),
        );
        add_within(score_sum(keys, left, right, n - 1), score)
    }
}

/// Whether `keys` lists every number of `list` once.
pub open spec fn lists_once(keys: Seq<i64>, list: Seq<i64>) -> bool {
    keys.no_duplicates() && keys.to_set() == list.to_set()
}

/// Counts the occurrences of a number in a list of fewer numbers than
/// `i64` can count.
pub fn count_of(list: &Vec<i64>, k: i64) -> (n: i64)
    requires
        list@.len() <= i64::MAX,
    ensures
        n == occurrences(list@, k, list@.len() as int),
{
    let mut count: i64 = 0;
    let mut i: usize = 0;
    while i < list.len()
        invariant
            i <= list@.len() <= i64::MAX,
            0 <= count <= i,
            count == occurrences(list@, k, i as int),
        decreases list@.len() - i,
    {
        if list[i] == k {
            count += 1;
        }
        i += 1;
    }
    count
}

/// Whether `r` is the answer to the second part for the pairs: every
/// number of the first list counts once, times the number of times it
/// occurs in each list. The numbers are taken in some order without
/// repetition. `None` if there are more pairs than `i64` can count or a
/// number on the way leaves the range of `i64`.
pub open spec fn is_similarity(records: Seq<(i64, i64)>, r: Option<i64>) -> bool {
    if records.len() > i64::MAX {
        r is None
    } else {
        exists|keys: Seq<i64>| #[trigger]
            lists_once(keys, lefts(records)) && known(r) == score_sum(
                keys,
                lefts(records),
                rights(records),
                keys.len() as int,
            )
    }
}

pub fn similarity_score(records: Vec<(i64, i64)>) -> (r: Option<i64>)
    ensures
        is_similarity(records@, r),
{
    if records.len() as u64 > i64::MAX as u64 {
        return None;
    }
    let (left, right) = unzip(&records);
    let keys = distinct(&left);
    let mut result: Option<i64> = Some(0);
    let mut i: usize = 0;
    while i < keys.len()
        invariant
            left@.len() <= i64::MAX,
            right@.len() <= i64::MAX,
            i <= keys@.len(),
            known(result) == score_sum(keys@, left@, right@, i as int),
        decreases keys@.len() - i,
    {
        let k = keys[i];
        let score = mul_checked(
            mul_checked(Some(k), Some(count_of(&left, k))),
            Some(count_of(&right, k)),
        );
        result = add_checked(result, score);
        i += 1;
    }
    assert(lists_once(keys@, lefts(records@)));
    result
}

/// The pairs written in the puzzle text: two numbers on each line.
pub open spec fn input_of(text: Seq<char>) -> Option<Seq<(i64, i64)>> {
    pairs_of(records_of(lines_of(text)))
}

/// Whether `r` is the answer to the first part for the puzzle text.
pub open spec fn is_solution_a(text: Seq<char>, r: Option<i64>) -> bool {
    match input_of(text) {
        Some(records) => known(r) == error_sum(records),
        None => r is None,
    }
}

/// Whether `r` is the answer to the second part for the puzzle text.
pub open spec fn is_solution_b(text: Seq<char>, r: Option<i64>) -> bool {
    match input_of(text) {
        Some(records) => is_similarity(records, r),
        None => r is None,
    }
}

pub fn day1(input: &str) -> (r: Option<i64>)
    ensures
        is_solution_a(input@, r),
{
    let records = split_records(&split_lines(input));
    match parse_as_ii(records) {
        Some(parsed) => {
            assert(parsed.deep_view() =~= parsed@);
            sorted_error_sum(parsed)
        },
        None => None,
    }
}

pub fn day1b(input: &str) -> (r: Option<i64>)
    ensures
        is_solution_b(input@, r),
{
    let records = split_records(&split_lines(input));
    match parse_as_ii(records) {
        Some(parsed) => {
            assert(parsed.deep_view() =~= parsed@);
            similarity_score(parsed)
        },
        None => None,
    }
}

} // verus!
