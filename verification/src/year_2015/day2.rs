//! Presents are boxes. Each needs wrapping paper for its faces and some
//! slack, and ribbon to go round it and make a bow; the puzzle asks for
//! the totals over all presents.

use crate::common::arith::{
    add_checked, add_within, known, min_checked, min_within, mul_checked, mul_within,
};
use crate::common::parsing::{
    i64_of, parse_i64, read_regex_records, records_of_matches, regex_captures,
};
use vstd::prelude::*;

verus! {

#[derive(Debug, Clone, Copy, PartialEq, Eq, Structural)]
pub struct Package {
    pub length: i64,
    pub width: i64,
    pub height: i64,
}

/// The pattern of one present in the puzzle text: three numbers with `x`
/// between them.
pub open spec fn package_pattern() -> Seq<char> {
    "(\\d+)x(\\d+)x(\\d+)"@
}

/// The present that one record stands for: the whole match and the three
/// numbers.
pub open spec fn package_of(record: Seq<Seq<char>>) -> Option<Package> {
    if record.len() < 4 {
        None
    } else {
        match (i64_of(record[1]), i64_of(record[2]), i64_of(record[3])) {
            (Some(length), Some(width), Some(height)) => Some(
                Package { length: length as i64, width: width as i64, height: height as i64 },
            ),
            _ => None,
        }
    }
}

/// The presents that the records stand for, if every record stands for
/// one.
pub open spec fn packages_of(records: Seq<Seq<Seq<char>>>) -> Option<Seq<Package>> {
    if forall|i: int| 0 <= i < records.len() ==> (#[trigger] package_of(records[i])) is Some {
        Some(Seq::new(records.len(), |i: int| package_of(records[i])->0))
    } else {
        None
    }
}

/// Reads the records that the pattern found as presents. `None` if one of
/// them is no present.
pub fn parse_packages(records: &Vec<Vec<String>>) -> (r: Option<Vec<Package>>)
    ensures
        match packages_of(records.deep_view()) {
            Some(packages) => r is Some && r->0@ == packages,
            None => r is None,
        },
{
    let ghost all = records.deep_view();
    let mut result: Vec<Package> = Vec::new();
    let mut i: usize = 0;
    while i < records.len()
        invariant
            all == records.deep_view(),
            i <= records@.len(),
            result@.len() == i,
            forall|k: int| 0 <= k < i ==> (#[trigger] package_of(all[k])) == Some(result@[k]),
        decreases records@.len() - i,
    {
        let record = &records[i];
        assert(all[i as int] == record.deep_view());
        if record.len() < 4 {
            assert(package_of(all[i as int]) is None);
            return None;
        }
        assert(all[i as int][1] == record@[1]@);
        assert(all[i as int][2] == record@[2]@);
        assert(all[i as int][3] == record@[3]@);
        match (
            parse_i64(record[1].as_str()),
            parse_i64(record[2].as_str()),
            parse_i64(record[3].as_str()),
        ) {
            (Some(length), Some(width), Some(height)) => {
                result.push(Package { length, width, height });
            },
            _ => {
                assert(package_of(all[i as int]) is None);
                return None;
            },
        }
        i += 1;
    }
    assert(result@ =~= packages_of(all)->0);
    Some(result)
}

/// The presents written in the puzzle text, as the pattern finds them.
pub open spec fn input_of(text: Seq<char>) -> Option<Seq<Package>> {
    match regex_captures(package_pattern(), text) {
        Some(found) => packages_of(records_of_matches(found)),
        None => None,
    }
}

/// Reads the presents of the puzzle text.
pub fn read_input(input: &str) -> (r: Option<Vec<Package>>)
    ensures
        match input_of(input@) {
            Some(packages) => r is Some && r->0@ == packages,
            None => r is None,
        },
{
    match read_regex_records(input, "(\\d+)x(\\d+)x(\\d+)") {
        Some(records) => parse_packages(&records),
        None => None,
    }
}

/// The paper for one present: the area of its six faces and once more the
/// area of the smallest. `None` if a number on the way leaves the range of
/// `i64`.
pub open spec fn wrapping_area(package: Package) -> Option<int> {
    let (l, w, h) = (
        Some(package.length as int),
        Some(package.width as int),
        Some(package.height as int),
    );
    let (lw, wh, hl) = (mul_within(l, w), mul_within(w, h), mul_within(h, l));
    let half = add_within(add_within(lw, wh), hl);
    let faces = add_within(add_within(add_within(half, lw), wh), hl);
    add_within(faces, min_within(min_within(lw, wh), hl))
}

/// The ribbon for one present: the smallest distance round it, and for the
/// bow as much as its volume. `None` if a number on the way leaves the
/// range of `i64`.
pub open spec fn ribbon_length(package: Package) -> Option<int> {
    let (l, w, h) = (
        Some(package.length as int),
        Some(package.width as int),
        Some(package.height as int),
    );
    let two = Some(2int);
    let around_lw = mul_within(two, add_within(l, w));
    let around_wh = mul_within(two, add_within(w, h));
    let around_hl = mul_within(two, add_within(h, l));
    let volume = mul_within(mul_within(l, w), h);
    add_within(min_within(min_within(around_lw, around_wh), around_hl), volume)
}

/// The paper and the ribbon for the presents, added up.
pub open spec fn totals(packages: Seq<Package>) -> (Option<int>, Option<int>)
    decreases packages.len(),
{
    if packages.len() == 0 {
        (Some(0), Some(0))
    } else {
        let before = totals(packages.drop_last());
        (
            add_within(before.0, wrapping_area(packages.last())),
            add_within(before.1, ribbon_length(packages.last())),
        )
    }
}

/// The answers for the presents: both totals. `None` if one of them is
/// `None`.
pub open spec fn answer_for(packages: Seq<Package>) -> Option<(int, int)> {
    match totals(packages) {
        (Some(area), Some(ribbon)) => Some((area, ribbon)),
        _ => None,
    }
}

/// Works out the paper for one present.
pub fn paper_for(package: &Package) -> (r: Option<i64>)
    ensures
        known(r) == wrapping_area(*package),
{
    let (l, w, h) = (Some(package.length), Some(package.width), Some(package.height));
    let (lw, wh, hl) = (mul_checked(l, w), mul_checked(w, h), mul_checked(h, l));
    let half = add_checked(add_checked(lw, wh), hl);
    let faces = add_checked(add_checked(add_checked(half, lw), wh), hl);
    add_checked(faces, min_checked(min_checked(lw, wh), hl))
}

/// Works out the ribbon for one present.
pub fn ribbon_for(package: &Package) -> (r: Option<i64>)
    ensures
        known(r) == ribbon_length(*package),
{
    let (l, w, h) = (Some(package.length), Some(package.width), Some(package.height));
    let two = Some(2i64);
    let around_lw = mul_checked(two, add_checked(l, w));
    let around_wh = mul_checked(two, add_checked(w, h));
    let around_hl = mul_checked(two, add_checked(h, l));
    let volume = mul_checked(mul_checked(l, w), h);
    add_checked(min_checked(min_checked(around_lw, around_wh), around_hl), volume)
}

/// Adds up the paper and the ribbon for the presents.
pub fn wrap_all(packages: &Vec<Package>) -> (r: Option<(i64, i64)>)
    ensures
        match answer_for(packages@) {
            Some((area, ribbon)) => r is Some && (r->0).0 == area && (r->0).1 == ribbon,
            None => r is None,
        },
{
    let mut total_area: Option<i64> = Some(0);
    let mut total_ribbon: Option<i64> = Some(0);
    let mut i: usize = 0;
    assert(packages@.take(0) =~= Seq::<Package>::empty());
    while i < packages.len()
        invariant
            i <= packages@.len(),
            (known(total_area), known(total_ribbon)) == totals(packages@.take(i as int)),
        decreases packages@.len() - i,
    {
        assert(packages@.take(i as int + 1).drop_last() =~= packages@.take(i as int));
        assert(packages@.take(i as int + 1).last() == packages@[i as int]);
        total_area = add_checked(total_area, paper_for(&packages[i]));
        total_ribbon = add_checked(total_ribbon, ribbon_for(&packages[i]));
        i += 1;
    }
    assert(packages@.take(packages@.len() as int) =~= packages@);
    match (total_area, total_ribbon) {
        (Some(area), Some(ribbon)) => Some((area, ribbon)),
        _ => None,
    }
}

/// The answers for the puzzle text.
pub open spec fn answer(text: Seq<char>) -> Option<(int, int)> {
    match input_of(text) {
        Some(packages) => answer_for(packages),
        None => None,
    }
}

/// Solves both parts. `None` if the text is no list of presents or a
/// number leaves the range of `i64`.
pub fn day1(input: &str) -> (r: Option<(i64, i64)>)
    ensures
        match answer(input@) {
            Some((area, ribbon)) => r is Some && (r->0).0 == area && (r->0).1 == ribbon,
            None => r is None,
        },
{
    match read_input(input) {
        Some(packages) => wrap_all(&packages),
        None => None,
    }
}

/// Whether `r` is the answer to the first part for the puzzle text.
pub open spec fn is_solution_a(text: Seq<char>, r: Option<i64>) -> bool {
    match answer(text) {
        Some((a, _)) => r is Some && r->0 == a,
        None => r is None,
    }
}

/// Whether `r` is the answer to the second part for the puzzle text.
pub open spec fn is_solution_b(text: Seq<char>, r: Option<i64>) -> bool {
    match answer(text) {
        Some((_, b)) => r is Some && r->0 == b,
        None => r is None,
    }
}

pub fn solution_a(input: &str) -> (r: Option<i64>)
    ensures
        is_solution_a(input@, r),
{
    match day1(input) {
        Some((a, _)) => Some(a),
        None => None,
    }
}

pub fn solution_b(input: &str) -> (r: Option<i64>)
    ensures
        is_solution_b(input@, r),
{
    match day1(input) {
        Some((_, b)) => Some(b),
        None => None,
    }
}

} // verus!
