//! One or more carriers take turns to follow a list of moves, each from
//! where it stands. The puzzle asks how many places receive a visit.

use crate::common::distinct::count_distinct;
use crate::common::grid_board::{Direction, Xy};
use crate::common::text::chars_of;
use vstd::prelude::*;

verus! {

pub type Path = Vec<Direction>;

/// The moves that a text stands for, if each character is the glyph of a
/// direction.
pub open spec fn path_of(text: Seq<char>) -> Option<Seq<Direction>> {
    if forall|i: int| 0 <= i < text.len() ==> (#[trigger] Direction::of_glyph(text[i])) is Some {
        Some(Seq::new(text.len(), |i: int| Direction::of_glyph(text[i])->0))
    } else {
        None
    }
}

/// Reads the moves of the puzzle text.
pub fn read_input(input: &str) -> (r: Option<Path>)
    ensures
        match path_of(input@) {
            Some(path) => r is Some && r->0@ == path,
            None => r is None,
        },
{
    let chars = chars_of(input);
    let mut path: Path = Vec::new();
    let mut i: usize = 0;
    while i < chars.len()
        invariant
            chars@ == input@,
            i <= chars@.len(),
            path@.len() == i,
            forall|k: int| 0 <= k < i ==> (#[trigger] Direction::of_glyph(input@[k])) == Some(path@[k]),
        decreases chars@.len() - i,
    {
        match Direction::try_from_char(chars[i]) {
            Some(direction) => {
                path.push(direction);
            },
            None => {
                return None;
            },
        }
        i += 1;
    }
    assert(path@ =~= path_of(input@)->0);
    Some(path)
}

/// Where carrier `santa` of `n` stands after the first `k` moves. Move
/// `i` belongs to carrier `i % n`.
pub open spec fn santa_at(path: Seq<Direction>, n: int, santa: int, k: int) -> (int, int)
    decreases k,
{
    if k <= 0 {
        (0, 0)
    } else {
        let before = santa_at(path, n, santa, k - 1);
        if (k - 1) % n == santa {
            (before.0 + path[k - 1].step().0, before.1 + path[k - 1].step().1)
        } else {
            before
        }
    }
}

/// The places that receive a visit, in the order of the visits: the
/// starting place, and after each move the place that the moving carrier
/// has come to.
pub open spec fn visits(path: Seq<Direction>, n: int) -> Seq<Xy> {
    Seq::new(
        path.len() + 1,
        |k: int|
            if k == 0 {
                Xy { x: 0, y: 0 }
            } else {
                let at = santa_at(path, n, (k - 1) % n, k);
                Xy { x: at.0 as i64, y: at.1 as i64 }
            },
    )
}

/// The number of different places that receive a visit. `None` if there
/// are moves and no carrier, or as many moves as `i64` can count.
pub open spec fn houses(path: Seq<Direction>, n: int) -> Option<int> {
    if (n <= 0 && path.len() > 0) || path.len() >= i64::MAX {
        None
    } else {
        Some(visits(path, n).to_set().len() as int)
    }
}

/// No carrier is further from the start than moves were made.
pub proof fn lemma_santa_stays_near(path: Seq<Direction>, n: int, santa: int, k: int)
    requires
        0 <= k <= path.len(),
    ensures
        -k <= santa_at(path, n, santa, k).0 <= k,
        -k <= santa_at(path, n, santa, k).1 <= k,
    decreases k,
{
    if k > 0 {
        lemma_santa_stays_near(path, n, santa, k - 1);
    }
}

/// Follows the moves with `n` carriers and counts the places visited.
pub fn deliver(path: &Path, n: usize) -> (r: Option<i64>)
    ensures
        match houses(path@, n as int) {
            Some(count) => r is Some && r->0 == count,
            None => r is None,
        },
{
    if (n == 0 && path.len() > 0) || path.len() as u64 >= i64::MAX as u64 {
        return None;
    }
    let mut visited: Vec<Xy> = Vec::new();
    let mut positions: Vec<Xy> = Vec::new();
    let mut s: usize = 0;
    while s < n
        invariant
            s <= n,
            positions@.len() == s,
            forall|k: int| 0 <= k < s ==> positions@[k] == (Xy { x: 0, y: 0 }),
        decreases n - s,
    {
        positions.push(Xy::new(0, 0));
        s += 1;
    }
    visited.push(Xy::new(0, 0));
    let ghost all = visits(path@, n as int);
    assert(visited@ =~= all.take(1));
    let mut i: usize = 0;
    while i < path.len()
        invariant
            i <= path@.len() < i64::MAX,
            n > 0 || path@.len() == 0,
            all == visits(path@, n as int),
            positions@.len() == n,
            forall|k: int|
                0 <= k < n ==> ((#[trigger] positions@[k]).x as int, positions@[k].y as int)
                    == santa_at(path@, n as int, k, i as int),
            visited@ == all.take(i as int + 1),
        decreases path@.len() - i,
    {
        let who = i % n;
        let offset = path[i].to_offset();
        proof {
            lemma_santa_stays_near(path@, n as int, who as int, i as int);
            assert((positions@[who as int].x as int, positions@[who as int].y as int) == santa_at(
                path@,
                n as int,
                who as int,
                i as int,
            ));
        }
        let moved = positions[who].add(offset);
        positions[who] = moved;
        visited.push(moved);
        proof {
            assert forall|k: int| 0 <= k < n implies ((#[trigger] positions@[k]).x as int, positions@[k].y as int)
                == santa_at(path@, n as int, k, i as int + 1) by {
                if k != who {
                    assert(santa_at(path@, n as int, k, i as int + 1) == santa_at(
                        path@,
                        n as int,
                        k,
                        i as int,
                    ));
                }
            }
            assert(all[i as int + 1] == moved);
            assert(visited@ =~= all.take(i as int + 2));
        }
        i += 1;
    }
    assert(all.take(path@.len() as int + 1) =~= all);
    let count = count_distinct(&visited);
    proof {
        visited@.lemma_cardinality_of_set();
    }
    Some(count as i64)
}

/// The number of places visited when `n` carriers follow the moves of the
/// puzzle text.
pub open spec fn answer(text: Seq<char>, n: int) -> Option<int> {
    match path_of(text) {
        Some(path) => houses(path, n),
        None => None,
    }
}

/// Whether `r` is the answer for the puzzle text and `n` carriers.
pub open spec fn is_answer(text: Seq<char>, n: int, r: Option<i64>) -> bool {
    match answer(text, n) {
        Some(count) => r is Some && r->0 == count,
        None => r is None,
    }
}

/// Solves the puzzle for `n` carriers. `None` if the text holds a
/// character that is no direction, or there are moves and no carrier.
pub fn multi_day3(input: &str, n: usize) -> (r: Option<i64>)
    ensures
        is_answer(input@, n as int, r),
{
    match read_input(input) {
        Some(path) => deliver(&path, n),
        None => None,
    }
}

/// Whether `r` is the answer to the first part for the puzzle text.
pub open spec fn is_solution_a(text: Seq<char>, r: Option<i64>) -> bool {
    is_answer(text, 1, r)
}

/// Whether `r` is the answer to the second part for the puzzle text.
pub open spec fn is_solution_b(text: Seq<char>, r: Option<i64>) -> bool {
    is_answer(text, 2, r)
}

pub fn solution_a(input: &str) -> (r: Option<i64>)
    ensures
        is_solution_a(input@, r),
{
    multi_day3(input, 1)
}

pub fn solution_b(input: &str) -> (r: Option<i64>)
    ensures
        is_solution_b(input@, r),
{
    multi_day3(input, 2)
}

} // verus!
