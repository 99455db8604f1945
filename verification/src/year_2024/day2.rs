//! Each report is a row of levels. A report is safe if its levels only
//! rise or only fall, by one to three from each to the next. The puzzle
//! counts the safe reports, and those that removing one level makes safe.

use crate::common::parsing::{parse_as_i32s, records_of, rows_of, split_records};
use crate::common::text::{lines_of, split_lines};
use vstd::prelude::*;

verus! {

/// Whether every level is one to three above the level before it.
pub open spec fn rising(record: Seq<i64>) -> bool {
    forall|i: int| 0 <= i < record.len() - 1 ==> 1 <= #[trigger] record[i + 1] - record[i] <= 3
}

/// Whether every level is one to three below the level before it.
pub open spec fn falling(record: Seq<i64>) -> bool {
    forall|i: int| 0 <= i < record.len() - 1 ==> 1 <= record[i] - #[trigger] record[i + 1] <= 3
}

/// Whether a report is safe.
pub open spec fn safe(record: Seq<i64>) -> bool {
    rising(record) || falling(record)
}

/// Whether a report is safe as it is or without one of its levels.
pub open spec fn kinda_safe(record: Seq<i64>) -> bool {
    safe(record) || exists|i: int| 0 <= i < record.len() && safe(#[trigger] record.remove(i))
}

/// Tells whether a report with at least one level is safe.
pub fn record_is_safe(record: &Vec<i64>) -> (r: bool)
    requires
        record@.len() >= 1,
    ensures
        r == safe(record@),
{
    let mut up = true;
    let mut down = true;
    let mut i: usize = 0;
    while i < record.len() - 1
        invariant
            record@.len() >= 1,
            i <= record@.len() - 1,
            up == (forall|k: int| 0 <= k < i ==> 1 <= #[trigger] record@[k + 1] - record@[k] <= 3),
            down == (forall|k: int| 0 <= k < i ==> 1 <= record@[k] - #[trigger] record@[k + 1] <= 3),
        decreases record@.len() - i,
    {
        let diff: i128 = record[i + 1] as i128 - record[i] as i128;
        if !(1 <= diff && diff <= 3) {
            up = false;
        }
        if !(-3 <= diff && diff <= -1) {
            down = false;
        }
        i += 1;
    }
    up || down
}

/// Tells whether a report with at least one level is safe as it is or
/// without one of its levels.
pub fn record_is_kinda_safe(record: &Vec<i64>) -> (r: bool)
    requires
        record@.len() >= 1,
    ensures
        r == kinda_safe(record@),
{
    if record_is_safe(record) {
        return true;
    }
    if record.len() == 1 {
        assert(safe(record@));
        return true;
    }
    let mut i: usize = 0;
    while i < record.len()
        invariant
            record@.len() >= 2,
            i <= record@.len(),
            !safe(record@),
            forall|k: int| 0 <= k < i ==> !safe(#[trigger] record@.remove(k)),
        decreases record@.len() - i,
    {
        let mut short_record: Vec<i64> = Vec::new();
        let mut j: usize = 0;
        while j < record.len()
            invariant
                i < record@.len(),
                j <= record@.len(),
                short_record@ == (if j <= i {
                    record@.take(j as int)
                } else {
                    record@.remove(i as int).take(j as int - 1)
                }),
            decreases record@.len() - j,
        {
            if j != i {
                short_record.push(record[j]);
            }
            proof {
                if j < i {
                    assert(short_record@ =~= record@.take(j as int + 1));
                } else if j == i {
                    assert(short_record@ =~= record@.remove(i as int).take(j as int));
                } else {
                    assert(short_record@ =~= record@.remove(i as int).take(j as int));
                }
            }
            j += 1;
        }
        assert(short_record@ =~= record@.remove(i as int));
        if record_is_safe(&short_record) {
            return true;
        }
        i += 1;
    }
    false
}

/// The number of reports among the first `n` of which `judge` holds.
/// `None` if one of them is empty or the number leaves the range of `i32`.
pub open spec fn count_where(records: Seq<Seq<i64>>, judge: spec_fn(Seq<i64>) -> bool, n: int) -> Option<
    int,
>
    decreases n,
{
    if n <= 0 {
        Some(0)
    } else {
        match count_where(records, judge, n - 1) {
            Some(before) => if records[n - 1].len() == 0 {
                None
            } else if judge(records[n - 1]) {
                if before + 1 <= i32::MAX {
                    Some(before + 1)
                } else {
                    None
                }
            } else {
                Some(before)
            },
            None => None,
        }
    }
}

pub proof fn lemma_count_stays_lost(
    records: Seq<Seq<i64>>,
    judge: spec_fn(Seq<i64>) -> bool,
    n: int,
    m: int,
)
    requires
        0 <= n <= m,
        count_where(records, judge, n) is None,
    ensures
        count_where(records, judge, m) is None,
    decreases m - n,
{
    if n < m {
        lemma_count_stays_lost(records, judge, n, m - 1);
    }
}

/// The test "this report is safe".
pub open spec fn is_safe() -> spec_fn(Seq<i64>) -> bool {
    |record: Seq<i64>| safe(record)
}

/// The test "this report is safe as it is or without one of its levels".
pub open spec fn is_kinda_safe() -> spec_fn(Seq<i64>) -> bool {
    |record: Seq<i64>| kinda_safe(record)
}

/// The number of safe reports.
pub open spec fn safe_count(records: Seq<Seq<i64>>) -> Option<int> {
    count_where(records, is_safe(), records.len() as int)
}

/// The number of reports that are safe as they are or without one of
/// their levels.
pub open spec fn kinda_safe_count(records: Seq<Seq<i64>>) -> Option<int> {
    count_where(records, is_kinda_safe(), records.len() as int)
}

/// Whether a result gives a count.
pub open spec fn gives(r: Option<i32>, count: Option<int>) -> bool {
    match count {
        Some(n) => r is Some && r->0 == n,
        None => r is None,
    }
}

pub fn total_safe(records: Vec<Vec<i64>>) -> (r: Option<i32>)
    ensures
        gives(r, safe_count(records.deep_view())),
{
    let ghost all = records.deep_view();
    let mut result: i32 = 0;
    let mut i: usize = 0;
    while i < records.len()
        invariant
            all == records.deep_view(),
            i <= records@.len(),
            count_where(all, is_safe(), i as int) == Some(result as int),
        decreases records@.len() - i,
    {
        assert(all[i as int] =~= records@[i as int]@);
        assert(count_where(all, is_safe(), i as int + 1 - 1) == Some(result as int));
        let next = if records[i].len() == 0 {
            None
        } else if record_is_safe(&records[i]) {
            result.checked_add(1)
        } else {
            Some(result)
        };
        match next {
            Some(more) => {
                result = more;
            },
            None => {
                proof {
                    lemma_count_stays_lost(all, is_safe(), i as int + 1, records@.len() as int);
                }
                return None;
            },
        }
        i += 1;
    }
    Some(result)
}

pub fn total_kinda_safe(records: Vec<Vec<i64>>) -> (r: Option<i32>)
    ensures
        gives(r, kinda_safe_count(records.deep_view())),
{
    let ghost all = records.deep_view();
    let mut result: i32 = 0;
    let mut i: usize = 0;
    while i < records.len()
        invariant
            all == records.deep_view(),
            i <= records@.len(),
            count_where(all, is_kinda_safe(), i as int) == Some(result as int),
        decreases records@.len() - i,
    {
        assert(all[i as int] =~= records@[i as int]@);
        assert(count_where(all, is_kinda_safe(), i as int + 1 - 1) == Some(result as int));
        let next = if records[i].len() == 0 {
            None
        } else if record_is_kinda_safe(&records[i]) {
            result.checked_add(1)
        } else {
            Some(result)
        };
        match next {
            Some(more) => {
                result = more;
            },
            None => {
                proof {
                    lemma_count_stays_lost(all, is_kinda_safe(), i as int + 1, records@.len() as int);
                }
                return None;
            },
        }
        i += 1;
    }
    Some(result)
}

/// The reports written in the puzzle text: the numbers of each line.
pub open spec fn input_of(text: Seq<char>) -> Option<Seq<Seq<i64>>> {
    rows_of(records_of(lines_of(text)))
}

/// Whether `r` is the answer to the first part for the puzzle text.
pub open spec fn is_solution_a(text: Seq<char>, r: Option<i32>) -> bool {
    match input_of(text) {
        Some(records) => gives(r, safe_count(records)),
        None => r is None,
    }
}

/// Whether `r` is the answer to the second part for the puzzle text.
pub open spec fn is_solution_b(text: Seq<char>, r: Option<i32>) -> bool {
    match input_of(text) {
        Some(records) => gives(r, kinda_safe_count(records)),
        None => r is None,
    }
}

pub fn day2(input: &str) -> (r: Option<i32>)
    ensures
        is_solution_a(input@, r),
{
    match parse_as_i32s(split_records(&split_lines(input))) {
        Some(records) => total_safe(records),
        None => None,
    }
}

pub fn day2b(input: &str) -> (r: Option<i32>)
    ensures
        is_solution_b(input@, r),
{
    match parse_as_i32s(split_records(&split_lines(input))) {
        Some(records) => total_kinda_safe(records),
        None => None,
    }
}

} // verus!
