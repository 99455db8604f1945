//! An inventory lists ranges of fresh ids and single ids. The puzzle asks
//! how many of the single ids lie in a range, and how many ids the ranges
//! cover together.

use crate::common::parsing::{
    parse_usize, read_regex_records, records_of_matches, regex_captures, usize_of,
};
use crate::common::sorting::{by_rank, sort_by_rank, Ranked};
use vstd::prelude::*;

verus! {

pub type Id = usize;

/// The ids from `start` to `end`, both included.
#[derive(Debug, Clone, Copy, PartialEq, Eq, Structural)]
pub struct IdRange {
    pub start: Id,
    pub end: Id,
}

#[derive(Debug, Clone, Copy, PartialEq, Eq, Structural)]
pub enum EndpointKind {
    Start,
    End,
}

/// One end of a range.
#[derive(Debug, Clone, Copy, PartialEq, Eq, Structural)]
pub struct RangePoint {
    pub id: Id,
    pub kind: EndpointKind,
}

impl Ranked for RangePoint {
    /// Ends are ordered by id, and at one id a start comes before an end.
    open spec fn rank(self) -> int {
        2 * (self.id as int) + (match self.kind {
            EndpointKind::Start => 0int,
            EndpointKind::End => 1int,
        })
    }

    fn rank_of(&self) -> (r: i128) {
        2 * (self.id as i128) + (match self.kind {
            EndpointKind::Start => 0,
            EndpointKind::End => 1,
        })
    }

    proof fn lemma_rank_tells_apart(a: Self, b: Self) {
    }
}

/// What an inventory holds: the ranges and the single ids.
pub struct Inventory {
    pub ranges: Vec<IdRange>,
    pub ids: Vec<Id>,
}

/// One entry of the inventory.
pub enum Entry {
    Range(IdRange),
    Single(Id),
}

/// The pattern of one entry in the puzzle text: a number, or two numbers
/// with a hyphen between them.
pub open spec fn entry_pattern() -> Seq<char> {
    "(\\d+)(?:-(\\d+))?"@
}

/// The entry that one record stands for. A record of two fields holds an
/// id; a record of three holds, after the whole match, the two ends of a
/// range.
pub open spec fn entry_of(record: Seq<Seq<char>>) -> Option<Entry> {
    if record.len() == 2 {
        match usize_of(record[0]) {
            Some(id) => Some(Entry::Single(id as usize)),
            None => None,
        }
    } else if record.len() == 3 {
        match (usize_of(record[1]), usize_of(record[2])) {
            (Some(start), Some(end)) => Some(
                Entry::Range(IdRange { start: start as usize, end: end as usize }),
            ),
            _ => None,
        }
    } else {
        None
    }
}

/// The ranges among the entries, in their order.
pub open spec fn ranges_among(entries: Seq<Entry>) -> Seq<IdRange>
    decreases entries.len(),
{
    if entries.len() == 0 {
        Seq::empty()
    } else {
        let before = ranges_among(entries.drop_last());
        match entries.last() {
            Entry::Range(range) => before.push(range),
            Entry::Single(_) => before,
        }
    }
}

/// The single ids among the entries, in their order.
pub open spec fn ids_among(entries: Seq<Entry>) -> Seq<Id>
    decreases entries.len(),
{
    if entries.len() == 0 {
        Seq::empty()
    } else {
        let before = ids_among(entries.drop_last());
        match entries.last() {
            Entry::Range(_) => before,
            Entry::Single(id) => before.push(id),
        }
    }
}

/// The entries that the records stand for, if every record stands for
/// one.
pub open spec fn entries_of(records: Seq<Seq<Seq<char>>>) -> Option<Seq<Entry>> {
    if forall|i: int| 0 <= i < records.len() ==> (#[trigger] entry_of(records[i])) is Some {
        Some(Seq::new(records.len(), |i: int| entry_of(records[i])->0))
    } else {
        None
    }
}

/// Reads one record as an entry.
fn parse_entry(record: &Vec<String>) -> (r: Option<Entry>)
    ensures
        r == entry_of(record.deep_view()),
{
    let ghost fields = record.deep_view();
    if record.len() == 2 {
        assert(fields[0] == record@[0]@);
        match parse_usize(record[0].as_str()) {
            Some(id) => Some(Entry::Single(id)),
            None => None,
        }
    } else if record.len() == 3 {
        assert(fields[1] == record@[1]@);
        assert(fields[2] == record@[2]@);
        match (parse_usize(record[1].as_str()), parse_usize(record[2].as_str())) {
            (Some(start), Some(end)) => Some(Entry::Range(IdRange { start, end })),
            _ => None,
        }
    } else {
        None
    }
}

/// Reads the records that the pattern found as an inventory. `None` if
/// one of them is no entry.
pub fn parse_inventory(records: &Vec<Vec<String>>) -> (r: Option<Inventory>)
    ensures
        match entries_of(records.deep_view()) {
            Some(entries) => r is Some && r->0.ranges@ == ranges_among(entries) && r->0.ids@
                == ids_among(entries),
            None => r is None,
        },
{
    let ghost all = records.deep_view();
    let mut ranges: Vec<IdRange> = Vec::new();
    let mut ids: Vec<Id> = Vec::new();
    let mut i: usize = 0;
    let ghost mut seen: Seq<Entry> = Seq::empty();
    while i < records.len()
        invariant
            all == records.deep_view(),
            i <= records@.len(),
            seen.len() == i,
            forall|k: int| 0 <= k < i ==> (#[trigger] entry_of(all[k])) == Some(seen[k]),
            ranges@ == ranges_among(seen),
            ids@ == ids_among(seen),
        decreases records@.len() - i,
    {
        assert(all[i as int] == records@[i as int].deep_view());
        match parse_entry(&records[i]) {
            Some(entry) => {
                proof {
                    assert(seen.push(entry).drop_last() =~= seen);
                    seen = seen.push(entry);
                }
                match entry {
                    Entry::Range(range) => {
                        ranges.push(range);
                    },
                    Entry::Single(id) => {
                        ids.push(id);
                    },
                }
            },
            None => {
                return None;
            },
        }
        i += 1;
    }
    assert(seen =~= entries_of(all)->0);
    Some(Inventory { ranges, ids })
}

/// Whether an id lies in one of the ranges.
pub open spec fn in_some_range(ranges: Seq<IdRange>, id: Id) -> bool {
    exists|i: int| 0 <= i < ranges.len() && (#[trigger] ranges[i]).start <= id <= ranges[i].end
}

/// The single ids that lie in one of the ranges.
pub open spec fn fresh_ids(ranges: Seq<IdRange>, ids: Seq<Id>) -> Seq<Id> {
    ids.filter(|id: Id| in_some_range(ranges, id))
}

/// Whether an id lies in one of the ranges.
fn is_fresh(ranges: &Vec<IdRange>, id: Id) -> (r: bool)
    ensures
        r == in_some_range(ranges@, id),
{
    let mut i: usize = 0;
    while i < ranges.len()
        invariant
            i <= ranges@.len(),
            forall|k: int| 0 <= k < i ==> !((#[trigger] ranges@[k]).start <= id <= ranges@[k].end),
        decreases ranges@.len() - i,
    {
        if ranges[i].start <= id && id <= ranges[i].end {
            return true;
        }
        i += 1;
    }
    false
}

/// The number of single ids that lie in one of the ranges.
pub fn count_fresh(ranges: &Vec<IdRange>, ids: &Vec<Id>) -> (n: usize)
    ensures
        n == fresh_ids(ranges@, ids@).len(),
{
    let ghost pred = |id: Id| in_some_range(ranges@, id);
    let mut in_ranges: usize = 0;
    let mut i: usize = 0;
    assert(ids@.take(0) =~= Seq::<Id>::empty());
    proof {
        reveal(Seq::filter);
    }
    while i < ids.len()
        invariant
            i <= ids@.len(),
            pred == (|id: Id| in_some_range(ranges@, id)),
            in_ranges == ids@.take(i as int).filter(pred).len(),
            in_ranges <= i,
        decreases ids@.len() - i,
    {
        proof {
            assert(ids@.take(i as int + 1) =~= ids@.take(i as int).push(ids@[i as int]));
            ids@.take(i as int).lemma_filter_push(ids@[i as int], pred);
        }
        if is_fresh(ranges, ids[i]) {
            in_ranges += 1;
        }
        i += 1;
    }
    assert(ids@.take(ids@.len() as int) =~= ids@);
    in_ranges
}

/// The two ends of every range, range by range, the start first.
pub open spec fn points_of(ranges: Seq<IdRange>) -> Seq<RangePoint>
    decreases ranges.len(),
{
    if ranges.len() == 0 {
        Seq::empty()
    } else {
        points_of(ranges.drop_last()).push(
            RangePoint { id: ranges.last().start, kind: EndpointKind::Start },
        ).push(RangePoint { id: ranges.last().end, kind: EndpointKind::End })
    }
}

/// Lists the two ends of every range.
pub fn range_points(ranges: &Vec<IdRange>) -> (r: Vec<RangePoint>)
    ensures
        r@ == points_of(ranges@),
{
    let mut range_points: Vec<RangePoint> = Vec::new();
    let mut i: usize = 0;
    assert(ranges@.take(0) =~= Seq::<IdRange>::empty());
    while i < ranges.len()
        invariant
            i <= ranges@.len(),
            range_points@ == points_of(ranges@.take(i as int)),
        decreases ranges@.len() - i,
    {
        assert(ranges@.take(i as int + 1).drop_last() =~= ranges@.take(i as int));
        range_points.push(RangePoint { id: ranges[i].start, kind: EndpointKind::Start });
        range_points.push(RangePoint { id: ranges[i].end, kind: EndpointKind::End });
        i += 1;
    }
    assert(ranges@.take(ranges@.len() as int) =~= ranges@);
    range_points
}

/// The state of a walk over the ends of ranges: how many more ranges have
/// started than ended, where the stretch began that is covered now, if one
/// is, and how many ids the finished stretches cover.
pub struct Sweep {
    pub open: int,
    pub stretch: Option<int>,
    pub covered: int,
}

/// The walk after one more end. A stretch begins where the first range
/// opens and ends where the last open range closes, both ends included.
/// `None` if the count of covered ids leaves the range of `usize`.
pub open spec fn sweep_step(state: Sweep, point: RangePoint) -> Option<Sweep> {
    let open = match point.kind {
        EndpointKind::Start => state.open + 1,
        EndpointKind::End => state.open - 1,
    };
    if open > 0 && state.stretch is None {
        Some(Sweep { open, stretch: Some(point.id as int), covered: state.covered })
    } else if open == 0 && state.stretch is Some {
        let more = point.id - state.stretch->0 + 1;
        if 0 <= point.id - state.stretch->0 && more <= usize::MAX && state.covered + more
            <= usize::MAX {
            Some(Sweep { open, stretch: None, covered: state.covered + more })
        } else {
            None
        }
    } else {
        Some(Sweep { open, stretch: state.stretch, covered: state.covered })
    }
}

/// The walk after the given ends, in their order.
pub open spec fn sweep(points: Seq<RangePoint>) -> Option<Sweep>
    decreases points.len(),
{
    if points.len() == 0 {
        Some(Sweep { open: 0, stretch: None, covered: 0 })
    } else {
        match sweep(points.drop_last()) {
            Some(state) => sweep_step(state, points.last()),
            None => None,
        }
    }
}

/// Once the walk is lost, it stays lost.
pub proof fn lemma_sweep_stays_lost(points: Seq<RangePoint>, n: int)
    requires
        0 <= n <= points.len(),
        sweep(points.take(n)) is None,
    ensures
        sweep(points) is None,
    decreases points.len() - n,
{
    if n < points.len() {
        assert(points.take(n + 1).drop_last() =~= points.take(n));
        lemma_sweep_stays_lost(points, n + 1);
    } else {
        assert(points.take(n) =~= points);
    }
}

/// The number of ids that the walk over the ends, in ascending order,
/// finds covered.
pub open spec fn covered_ids(ranges: Seq<IdRange>) -> Option<int> {
    match sweep(points_of(ranges).sort_by(by_rank::<RangePoint>())) {
        Some(state) => Some(state.covered),
        None => None,
    }
}

/// Walks over the ends in the order given and counts the covered ids.
pub fn sweep_points(range_points: &Vec<RangePoint>) -> (r: Option<usize>)
    ensures
        match sweep(range_points@) {
            Some(state) => r is Some && r->0 == state.covered,
            None => r is None,
        },
{
    let mut num_ranges_open: i128 = 0;
    let mut range_start: Option<Id> = None;
    let mut total_covered: usize = 0;
    let mut i: usize = 0;
    assert(range_points@.take(0) =~= Seq::<RangePoint>::empty());
    while i < range_points.len()
        invariant
            i <= range_points@.len(),
            -i <= num_ranges_open <= i,
            sweep(range_points@.take(i as int)) == Some(
                Sweep {
                    open: num_ranges_open as int,
                    stretch: match range_start {
                        Some(id) => Some(id as int),
                        None => None,
                    },
                    covered: total_covered as int,
                },
            ),
        decreases range_points@.len() - i,
    {
        assert(range_points@.take(i as int + 1).drop_last() =~= range_points@.take(i as int));
        let RangePoint { id, kind } = range_points[i];
        match kind {
            EndpointKind::Start => {
                num_ranges_open += 1;
            },
            EndpointKind::End => {
                num_ranges_open -= 1;
            },
        }
        if num_ranges_open > 0 && range_start.is_none() {
            range_start = Some(id);
        } else if num_ranges_open == 0 && range_start.is_some() {
            let begun = range_start.unwrap();
            let more = match id.checked_sub(begun) {
                Some(length) => length.checked_add(1),
                None => None,
            };
            let sum = match more {
                Some(m) => total_covered.checked_add(m),
                None => None,
            };
            match sum {
                Some(total) => {
                    total_covered = total;
                    range_start = None;
                },
                None => {
                    proof {
                        lemma_sweep_stays_lost(range_points@, i as int + 1);
                    }
                    return None;
                },
            }
        }
        i += 1;
    }
    assert(range_points@.take(range_points@.len() as int) =~= range_points@);
    Some(total_covered)
}

/// The answers for an inventory: the number of single ids that lie in a
/// range, and the number of ids that the ranges cover. `None` if a number
/// leaves the range of `i64`.
pub open spec fn answer_for(ranges: Seq<IdRange>, ids: Seq<Id>) -> Option<(int, int)> {
    match covered_ids(ranges) {
        Some(covered) => if fresh_ids(ranges, ids).len() <= i64::MAX && covered <= i64::MAX {
            Some((fresh_ids(ranges, ids).len() as int, covered))
        } else {
            None
        },
        None => None,
    }
}

/// Solves both parts for an inventory.
pub fn solve(inventory: &Inventory) -> (r: Option<(i64, i64)>)
    ensures
        match answer_for(inventory.ranges@, inventory.ids@) {
            Some((a, b)) => r is Some && (r->0).0 == a && (r->0).1 == b,
            None => r is None,
        },
{
    let in_ranges = count_fresh(&inventory.ranges, &inventory.ids);
    let range_points = sort_by_rank(&range_points(&inventory.ranges));
    match sweep_points(&range_points) {
        Some(total_covered) => {
            if in_ranges as u64 > i64::MAX as u64 || total_covered as u64 > i64::MAX as u64 {
                None
            } else {
                Some((in_ranges as i64, total_covered as i64))
            }
        },
        None => None,
    }
}

/// The answers for the puzzle text.
pub open spec fn answer(text: Seq<char>) -> Option<(int, int)> {
    match regex_captures(entry_pattern(), text) {
        Some(found) => match entries_of(records_of_matches(found)) {
            Some(entries) => answer_for(ranges_among(entries), ids_among(entries)),
            None => None,
        },
        None => None,
    }
}

/// Reads the inventory of the puzzle text.
pub fn read_input(input: &str) -> (r: Option<Inventory>)
    ensures
        match regex_captures(entry_pattern(), input@) {
            Some(found) => match entries_of(records_of_matches(found)) {
                Some(entries) => r is Some && r->0.ranges@ == ranges_among(entries) && r->0.ids@
                    == ids_among(entries),
                None => r is None,
            },
            None => r is None,
        },
{
    match read_regex_records(input, "(\\d+)(?:-(\\d+))?") {
        Some(records) => parse_inventory(&records),
        None => None,
    }
}

/// Solves both parts. `None` if the text is no inventory or a number
/// leaves its range.
pub fn solutions(input: &str) -> (r: Option<(i64, i64)>)
    ensures
        match answer(input@) {
            Some((a, b)) => r is Some && (r->0).0 == a && (r->0).1 == b,
            None => r is None,
        },
{
    match read_input(input) {
        Some(inventory) => solve(&inventory),
        None => None,
    }
}

/// Whether `r` is the answer to the first part for the puzzle text.
pub open spec fn is_solution_a(text: Seq<char>, r: Option<i64>) -> bool {
    match answer(text) {
        Some((a, _)) => r is Some && r->0 == a,
        None => r is None,
    }
}

pub fn solution_a(input: &str) -> (r: Option<i64>)
    ensures
        is_solution_a(input@, r),
{
    match solutions(input) {
        Some((a, _)) => Some(a),
        None => None,
    }
}

/// Whether `r` is the answer to the second part for the puzzle text.
pub open spec fn is_solution_b(text: Seq<char>, r: Option<i64>) -> bool {
    match answer(text) {
        Some((_, b)) => r is Some && r->0 == b,
        None => r is None,
    }
}

pub fn solution_b(input: &str) -> (r: Option<i64>)
    ensures
        is_solution_b(input@, r),
{
    match solutions(input) {
        Some((_, b)) => Some(b),
        None => None,
    }
}

} // verus!
