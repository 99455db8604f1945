//! A dial with one hundred positions is turned left and right; the puzzle
//! counts how often it comes to rest on zero and how often it passes zero.

use crate::common::parsing::{
    i32_of, parse_i32, read_regex_records, records_of_matches, regex_captures,
};
use crate::common::text::chars_of;
use vstd::prelude::*;

verus! {

#[derive(Debug, Clone, Copy, PartialEq, Eq, Structural)]
pub enum Lr {
    Left,
    Right,
}

/// One turn of the dial.
#[derive(Debug, Clone, Copy, PartialEq, Eq, Structural)]
pub struct Action {
    pub direction: Lr,
    pub distance: i32,
}

pub const INITIAL_POSITION: i32 = 50;

pub const DIAL_SIZE: i32 = 100;

/// The pattern of one turn in the puzzle text: `L` or `R` and a number.
pub open spec fn action_pattern() -> Seq<char> {
    "([LR])(\\d+)"@
}

/// The turn that one record stands for: the whole match, the letter and
/// the number.
pub open spec fn action_of(record: Seq<Seq<char>>) -> Option<Action> {
    if record.len() != 3 {
        None
    } else if record[1] != seq!['L'] && record[1] != seq!['R'] {
        None
    } else {
        match i32_of(record[2]) {
            Some(distance) => Some(
                Action {
                    direction: if record[1] == seq!['L'] {
                        Lr::Left
                    } else {
                        Lr::Right
                    },
                    distance: distance as i32,
                },
            ),
            None => None,
        }
    }
}

/// The turns that the records stand for, if every record stands for one.
pub open spec fn actions_of(records: Seq<Seq<Seq<char>>>) -> Option<Seq<Action>> {
    if forall|i: int| 0 <= i < records.len() ==> (#[trigger] action_of(records[i])) is Some {
        Some(Seq::new(records.len(), |i: int| action_of(records[i])->0))
    } else {
        None
    }
}

/// Reads one record as a turn.
fn parse_action(record: &Vec<String>) -> (r: Option<Action>)
    ensures
        r == action_of(record.deep_view()),
{
    if record.len() != 3 {
        return None;
    }
    assert(record.deep_view()[1] == record@[1]@);
    assert(record.deep_view()[2] == record@[2]@);
    let letter = chars_of(record[1].as_str());
    if letter.len() != 1 {
        assert(letter@ != seq!['L'] && letter@ != seq!['R']);
        return None;
    }
    let direction = if letter[0] == 'L' {
        assert(letter@ =~= seq!['L']);
        Lr::Left
    } else if letter[0] == 'R' {
        assert(letter@ =~= seq!['R']);
        assert(seq!['R'][0] != seq!['L'][0]);
        Lr::Right
    } else {
        assert(letter@[0] != seq!['L'][0] && letter@[0] != seq!['R'][0]);
        return None;
    };
    match parse_i32(record[2].as_str()) {
        Some(distance) => Some(Action { direction, distance }),
        None => None,
    }
}

/// Reads the records that the pattern found as turns. `None` if one of
/// them is no turn.
pub fn parse_actions(records: &Vec<Vec<String>>) -> (r: Option<Vec<Action>>)
    ensures
        match actions_of(records.deep_view()) {
            Some(actions) => r is Some && r->0@ == actions,
            None => r is None,
        },
{
    let ghost all = records.deep_view();
    let mut result: Vec<Action> = Vec::new();
    let mut i: usize = 0;
    while i < records.len()
        invariant
            all == records.deep_view(),
            i <= records@.len(),
            result@.len() == i,
            forall|k: int| 0 <= k < i ==> (#[trigger] action_of(all[k])) == Some(result@[k]),
        decreases records@.len() - i,
    {
        assert(all[i as int] == records@[i as int].deep_view());
        match parse_action(&records[i]) {
            Some(action) => {
                result.push(action);
            },
            None => {
                return None;
            },
        }
        i += 1;
    }
    assert(result@ =~= actions_of(all)->0);
    Some(result)
}

/// The turns written in the puzzle text, as the pattern finds them.
pub open spec fn input_of(text: Seq<char>) -> Option<Seq<Action>> {
    match regex_captures(action_pattern(), text) {
        Some(found) => actions_of(records_of_matches(found)),
        None => None,
    }
}

/// Reads the turns of the puzzle text.
pub fn read_input(input: &str) -> (r: Option<Vec<Action>>)
    ensures
        match input_of(input@) {
            Some(actions) => r is Some && r->0@ == actions,
            None => r is None,
        },
{
    match read_regex_records(input, "([LR])(\\d+)") {
        Some(records) => parse_actions(&records),
        None => None,
    }
}

/// What one turn by `offset` from `from_pos` adds to the two counts: 1 or
/// 0 for coming to rest on zero, and the number of times that zero is
/// reached on the way, a full round counting once and a last part that
/// leaves the range 1 to 99 once more.
pub open spec fn clicks(from_pos: int, offset: int) -> (int, int) {
    let size = DIAL_SIZE as int;
    let magnitude = if offset < 0 {
        -offset
    } else {
        offset
    };
    let rest = if offset < 0 {
        -(magnitude % size)
    } else {
        magnitude % size
    };
    let new_pos = from_pos + rest;
    let crossing: int = if from_pos > 0 && (new_pos <= 0 || new_pos >= size) {
        1
    } else {
        0
    };
    let end_at_zero: int = if (from_pos + offset) % size == 0 {
        1
    } else {
        0
    };
    (end_at_zero, magnitude / size + crossing)
}

/// Counts the arrivals at zero of one turn.
pub fn count_clicks(from_pos: i32, offset: i32) -> (r: (i32, i32))
    ensures
        (r.0 as int, r.1 as int) == clicks(from_pos as int, offset as int),
{
    let size: i64 = 100;
    let wide: i64 = offset as i64;
    let magnitude: i64 = if wide < 0 {
        -wide
    } else {
        wide
    };
    let full_rotations: i64 = magnitude / size;
    let rest: i64 = if wide < 0 {
        -(magnitude % size)
    } else {
        magnitude % size
    };
    let new_signed_pos: i64 = from_pos as i64 + rest;
    let mut zero_arrivals: i64 = full_rotations;
    if (from_pos > 0 && new_signed_pos <= 0) || (from_pos > 0 && new_signed_pos >= size) {
        zero_arrivals += 1;
    }
    let target: i64 = from_pos as i64 + wide;
    let distance_from_zero: i64 = if target < 0 {
        -target
    } else {
        target
    };
    let end_at_zero = distance_from_zero % size == 0;
    assert(end_at_zero == ((from_pos + offset) % 100 == 0)) by {
        let t = from_pos as int + offset as int;
        if t < 0 {
            assert((-t) % 100 == 0 <==> t % 100 == 0) by (nonlinear_arith);
        }
    }
    (
        if end_at_zero {
            1
        } else {
            0
        },
        zero_arrivals as i32,
    )
}

/// The signed distance of a turn: left is negative.
pub open spec fn offset_of(action: Action) -> int {
    match action.direction {
        Lr::Left => -(action.distance as int),
        Lr::Right => action.distance as int,
    }
}

/// The dial after one more turn: its position, the number of times it
/// came to rest on zero and the number of times it reached zero. `None` if
/// a count leaves the range of `i32`.
pub open spec fn after_turn(state: (int, int, int), action: Action) -> Option<(int, int, int)> {
    let (position, visits, passes) = state;
    let offset = offset_of(action);
    let (visit, pass) = clicks(position, offset);
    if visits + visit > i32::MAX || passes + pass > i32::MAX {
        None
    } else {
        Some(((position + offset) % (DIAL_SIZE as int), visits + visit, passes + pass))
    }
}

/// The dial after the given turns, starting at 50 with both counts at
/// zero. `None` once a count has left the range of `i32`.
pub open spec fn dial_after(actions: Seq<Action>) -> Option<(int, int, int)>
    decreases actions.len(),
{
    if actions.len() == 0 {
        Some((INITIAL_POSITION as int, 0, 0))
    } else {
        match dial_after(actions.drop_last()) {
            Some(state) => after_turn(state, actions.last()),
            None => None,
        }
    }
}

/// The two counts after all turns.
pub open spec fn counts_of(actions: Seq<Action>) -> Option<(int, int)> {
    match dial_after(actions) {
        Some((_, visits, passes)) => Some((visits, passes)),
        None => None,
    }
}

/// Makes one turn of the dial.
fn turn_once(position: i32, zero_visits: i32, zero_passes: i32, action: Action) -> (r: Option<
    (i32, i32, i32),
>)
    requires
        0 <= position < DIAL_SIZE,
        0 <= zero_visits,
        0 <= zero_passes,
    ensures
        match after_turn((position as int, zero_visits as int, zero_passes as int), action) {
            Some((p, v, z)) => r is Some && (r->0).0 == p && (r->0).1 == v && (r->0).2 == z && 0 <= p
                < DIAL_SIZE && 0 <= v && 0 <= z,
            None => r is None,
        },
{
    let offset: i64 = match action.direction {
        Lr::Left => -(action.distance as i64),
        Lr::Right => action.distance as i64,
    };
    let (visit, pass) = match action.direction {
        Lr::Left => if action.distance == i32::MIN {
            count_clicks_wide(position, offset)
        } else {
            count_clicks(position, -action.distance)
        },
        Lr::Right => count_clicks(position, action.distance),
    };
    let target: i64 = position as i64 + offset;
    let distance_below: i64 = if target < 0 {
        (-target) % 100
    } else {
        0
    };
    let landed: i64 = if target >= 0 {
        target % 100
    } else if distance_below == 0 {
        0
    } else {
        100 - distance_below
    };
    assert(landed == (position + offset) % 100) by {
        let t = position as int + offset as int;
        if t < 0 {
            assert((-t) % 100 == 0 ==> t % 100 == 0) by (nonlinear_arith);
            assert((-t) % 100 != 0 ==> t % 100 == 100 - (-t) % 100) by (nonlinear_arith);
        }
    }
    match (zero_visits.checked_add(visit), zero_passes.checked_add(pass)) {
        (Some(visits), Some(passes)) => Some((landed as i32, visits, passes)),
        _ => None,
    }
}

/// Turns the dial as the actions say, starting at 50, and counts the
/// arrivals at zero. `None` if a count leaves the range of `i32`.
pub fn turn_dial(actions: &Vec<Action>) -> (r: Option<(i32, i32)>)
    ensures
        match counts_of(actions@) {
            Some((visits, passes)) => r is Some && (r->0).0 == visits && (r->0).1 == passes,
            None => r is None,
        },
{
    let mut position: i32 = INITIAL_POSITION;
    let mut zero_visits: i32 = 0;
    let mut zero_passes: i32 = 0;
    let mut i: usize = 0;
    assert(actions@.take(0) =~= Seq::empty());
    while i < actions.len()
        invariant
            i <= actions@.len(),
            0 <= position < DIAL_SIZE,
            0 <= zero_visits,
            0 <= zero_passes,
            dial_after(actions@.take(i as int)) == Some(
                (position as int, zero_visits as int, zero_passes as int),
            ),
        decreases actions@.len() - i,
    {
        let ghost done = actions@.take(i as int);
        let ghost now = actions@.take(i as int + 1);
        assert(now.drop_last() =~= done);
        assert(now.last() == actions@[i as int]);
        match turn_once(position, zero_visits, zero_passes, actions[i]) {
            Some((p, v, z)) => {
                position = p;
                zero_visits = v;
                zero_passes = z;
            },
            None => {
                proof {
                    lemma_dial_stays_lost(actions@, i as int + 1);
                }
                return None;
            },
        }
        i += 1;
    }
    assert(actions@.take(actions@.len() as int) =~= actions@);
    Some((zero_visits, zero_passes))
}

/// Counts the arrivals at zero of a turn whose distance is beyond `i32`.
fn count_clicks_wide(from_pos: i32, offset: i64) -> (r: (i32, i32))
    requires
        0 <= from_pos < DIAL_SIZE,
        offset == -(i32::MIN as int),
    ensures
        (r.0 as int, r.1 as int) == clicks(from_pos as int, offset as int),
{
    let rest: i64 = offset % 100;
    let new_pos: i64 = from_pos as i64 + rest;
    let crossing: i32 = if from_pos > 0 && new_pos >= 100 {
        1
    } else {
        0
    };
    let end_at_zero: i32 = if (from_pos as i64 + offset) % 100 == 0 {
        1
    } else {
        0
    };
    (end_at_zero, (offset / 100) as i32 + crossing)
}

/// Once a count is lost, it stays lost.
pub proof fn lemma_dial_stays_lost(actions: Seq<Action>, n: int)
    requires
        0 <= n <= actions.len(),
        dial_after(actions.take(n)) is None,
    ensures
        dial_after(actions) is None,
    decreases actions.len() - n,
{
    if n < actions.len() {
        assert(actions.take(n + 1).drop_last() =~= actions.take(n));
        lemma_dial_stays_lost(actions, n + 1);
    } else {
        assert(actions.take(n) =~= actions);
    }
}

/// The answer to both parts for the puzzle text: the number of times the
/// dial comes to rest on zero, and the number of times it reaches zero.
pub open spec fn answer(text: Seq<char>) -> Option<(int, int)> {
    match input_of(text) {
        Some(actions) => counts_of(actions),
        None => None,
    }
}

/// Solves both parts. `None` if the text is not a list of turns or a count
/// leaves the range of `i32`.
pub fn day1(input: &str) -> (r: Option<(i32, i32)>)
    ensures
        match answer(input@) {
            Some((visits, passes)) => r is Some && (r->0).0 == visits && (r->0).1 == passes,
            None => r is None,
        },
{
    match read_input(input) {
        Some(actions) => turn_dial(&actions),
        None => None,
    }
}

/// Whether `r` is the answer to the first part for the puzzle text.
pub open spec fn is_solution_a(text: Seq<char>, r: Option<i64>) -> bool {
    match answer(text) {
        Some((a, _)) => r is Some && r->0 == a,
        None => r is None,
    }
}

pub fn solution_a(input: &str) -> (r: Option<i64>)
    ensures
        is_solution_a(input@, r),
{
    match day1(input) {
        Some((visits, _)) => Some(visits as i64),
        None => None,
    }
}

/// Whether `r` is the answer to the second part for the puzzle text.
pub open spec fn is_solution_b(text: Seq<char>, r: Option<i64>) -> bool {
    match answer(text) {
        Some((_, b)) => r is Some && r->0 == b,
        None => r is None,
    }
}

pub fn solution_b(input: &str) -> (r: Option<i64>)
    ensures
        is_solution_b(input@, r),
{
    match day1(input) {
        Some((_, passes)) => Some(passes as i64),
        None => None,
    }
}

} // verus!
