//! A disk is written down as runs of blocks: files with their numbers and
//! free space in turn. The puzzle moves the blocks of the last files into
//! the first free space until no free space is left between files, and
//! asks for a checksum of the result.

use crate::common::parsing::{digit_char, is_digit, digit_value, parse_digit};
use crate::common::text::{chars_of, lines_of, split_lines, string_of};
use vstd::prelude::*;

verus! {

pub type Scalar = i32;

pub type Id = Scalar;

pub type Length = Scalar;

/// A run of blocks: those of the file with the number `id`, or free space.
#[derive(PartialEq, Eq, Hash, Clone, Copy, Debug, Structural)]
pub struct RleItem {
    pub id: Option<Id>,
    pub length: Length,
}

pub type RleList = Vec<RleItem>;

/// The runs that the first `n` characters stand for: a file and free space
/// in turn, each as long as its digit says, the files numbered from 0.
pub open spec fn runs_of(source: Seq<char>, n: int) -> Seq<RleItem>
    decreases n,
{
    if n <= 0 {
        Seq::empty()
    } else {
        runs_of(source, n - 1).push(
            RleItem {
                id: if (n - 1) % 2 == 0 {
                    Some(((n - 1) / 2) as i32)
                } else {
                    None
                },
                length: digit_value(source[n - 1]) as i32,
            },
        )
    }
}

/// Whether a text is the map of a disk: digits, and no more files than
/// `i32` can number.
pub open spec fn is_disk_map(source: Seq<char>) -> bool {
    source.len() <= i32::MAX && forall|i: int| 0 <= i < source.len() ==> is_digit(#[trigger] source[i])
}

/// Reads the map of a disk. `None` if a character is no digit or there
/// are more files than `i32` can number.
pub fn str_to_rle(source: &str) -> (r: Option<RleList>)
    ensures
        match r {
            Some(rle) => is_disk_map(source@) && rle@ == runs_of(source@, source@.len() as int),
            None => !is_disk_map(source@),
        },
{
    let chars = chars_of(source);
    if chars.len() > i32::MAX as usize {
        return None;
    }
    let mut result: RleList = Vec::new();
    let mut n: usize = 0;
    while n < chars.len()
        invariant
            chars@ == source@,
            chars@.len() <= i32::MAX,
            n <= chars@.len(),
            forall|i: int| 0 <= i < n ==> is_digit(#[trigger] source@[i]),
            result@ == runs_of(source@, n as int),
        decreases chars@.len() - n,
    {
        let length = match parse_digit(chars[n]) {
            Some(d) => d as i32,
            None => {
                return None;
            },
        };
        let id = if n % 2 == 0 {
            Some((n / 2) as i32)
        } else {
            None
        };
        result.push(RleItem { id, length });
        n += 1;
    }
    Some(result)
}

/// The character that shows a block: the last digit of the number of its
/// file, or `.` for free space.
pub open spec fn block_char(id: Option<i32>) -> char {
    match id {
        Some(i) => digit_char((if i < 0 {
            -(i as int)
        } else {
            i as int
        }) % 10),
        None => '.',
    }
}

/// The blocks of the first `n` runs, one character each.
pub open spec fn map_text(rle: Seq<RleItem>, n: int) -> Seq<char>
    decreases n,
{
    if n <= 0 {
        Seq::empty()
    } else {
        map_text(rle, n - 1) + Seq::new(
            (if rle[n - 1].length > 0 {
                rle[n - 1].length as int
            } else {
                0
            }) as nat,
            |k: int| block_char(rle[n - 1].id),
        )
    }
}

/// Shows the disk block by block. A file with a negative number shows the
/// last digit of the number without its sign.
pub fn rle_to_map_str(rle: &RleList) -> (r: String)
    ensures
        r@ == map_text(rle@, rle@.len() as int),
{
    let mut result: Vec<char> = Vec::new();
    let mut n: usize = 0;
    while n < rle.len()
        invariant
            n <= rle@.len(),
            result@ == map_text(rle@, n as int),
        decreases rle@.len() - n,
    {
        let RleItem { id, length } = rle[n];
        let c = match id {
            Some(i) => {
                let magnitude: i64 = if i < 0 {
                    -(i as i64)
                } else {
                    i as i64
                };
                crate::common::parsing::digit_to_char((magnitude % 10) as u8)
            },
            None => '.',
        };
        let ghost before = result@;
        let mut k: i32 = 0;
        while k < length
            invariant
                0 <= k,
                k <= length || (length < 0 && k == 0),
                n < rle@.len(),
                rle@[n as int] == (RleItem { id, length }),
                before == map_text(rle@, n as int),
                c == block_char(id),
                result@ == before + Seq::new(k as nat, |j: int| c),
            decreases length - k,
        {
            result.push(c);
            assert(result@ =~= before + Seq::new((k + 1) as nat, |j: int| c));
            k += 1;
        }
        assert(result@ =~= map_text(rle@, n as int + 1));
        n += 1;
    }
    string_of(&result)
}

/// Whether the run is free space with at least one block.
pub open spec fn is_gap(item: RleItem) -> bool {
    item.length > 0 && item.id is None
}

/// Whether the run is a file with at least one block.
pub open spec fn is_file(item: RleItem) -> bool {
    item.length > 0 && item.id is Some
}

/// Whether no file with a block stands after free space with a block.
pub open spec fn compact(rle: Seq<RleItem>) -> bool {
    forall|i: int, j: int|
        0 <= i < j < rle.len() ==> !(is_gap(#[trigger] rle[i]) && is_file(#[trigger] rle[j]))
}

pub fn is_compact(rle: &RleList) -> (r: bool)
    ensures
        r == compact(rle@),
{
    let mut found_empty = false;
    let ghost mut gap: int = 0;
    let mut n: usize = 0;
    while n < rle.len()
        invariant
            n <= rle@.len(),
            found_empty ==> 0 <= gap < n && is_gap(rle@[gap]),
            !found_empty ==> forall|i: int| 0 <= i < n ==> !is_gap(#[trigger] rle@[i]),
            forall|i: int, j: int|
                0 <= i < j < n ==> !(is_gap(#[trigger] rle@[i]) && is_file(#[trigger] rle@[j])),
        decreases rle@.len() - n,
    {
        let item = rle[n];
        if item.length > 0 {
            if item.id.is_none() {
                proof {
                    if !found_empty {
                        gap = n as int;
                    }
                }
                found_empty = true;
            } else if found_empty {
                assert(is_gap(rle@[gap]) && is_file(rle@[n as int]));
                return false;
            }
        }
        n += 1;
    }
    true
}

/// The place of the first run of free space among the first `n` runs, be
/// it of no block.
pub open spec fn first_empty(rle: Seq<RleItem>, n: int) -> Option<int>
    decreases n,
{
    if n <= 0 {
        None
    } else {
        match first_empty(rle, n - 1) {
            Some(at) => Some(at),
            None => if rle[n - 1].id is None {
                Some(n - 1)
            } else {
                None
            },
        }
    }
}

/// The place of the last file with a block among the first `n` runs.
pub open spec fn last_file(rle: Seq<RleItem>, n: int) -> Option<int>
    decreases n,
{
    if n <= 0 {
        None
    } else if is_file(rle[n - 1]) {
        Some(n - 1)
    } else {
        last_file(rle, n - 1)
    }
}

pub proof fn lemma_first_empty_found(rle: Seq<RleItem>, n: int, m: int)
    requires
        0 <= n <= m,
        first_empty(rle, n) is Some,
    ensures
        first_empty(rle, m) == first_empty(rle, n),
    decreases m - n,
{
    if n < m {
        lemma_first_empty_found(rle, n, m - 1);
    }
}

pub fn index_of_first_empty_item(rle: &RleList) -> (r: Option<usize>)
    ensures
        match first_empty(rle@, rle@.len() as int) {
            Some(at) => r is Some && r->0 == at && at < rle@.len() && rle@[at].id is None,
            None => r is None,
        },
{
    let mut n: usize = 0;
    while n < rle.len()
        invariant
            n <= rle@.len(),
            first_empty(rle@, n as int) is None,
        decreases rle@.len() - n,
    {
        if rle[n].id.is_none() {
            proof {
                lemma_first_empty_found(rle@, n as int + 1, rle@.len() as int);
            }
            return Some(n);
        }
        n += 1;
    }
    None
}

pub fn index_of_last_nonempty_item(rle: &RleList) -> (r: Option<usize>)
    ensures
        match last_file(rle@, rle@.len() as int) {
            Some(at) => r is Some && r->0 == at && at < rle@.len() && is_file(rle@[at]),
            None => r is None,
        },
{
    let mut n: usize = rle.len();
    while n > 0
        invariant
            n <= rle@.len(),
            last_file(rle@, n as int) == last_file(rle@, rle@.len() as int),
        decreases n,
    {
        if rle[n - 1].id.is_some() && rle[n - 1].length > 0 {
            return Some(n - 1);
        }
        n -= 1;
    }
    None
}

/// The disk after `length` blocks of the file `id` are written into the
/// first free space, run after run: a run of free space of fewer blocks
/// than are left to write becomes a run of the file, and the run that
/// holds the rest is split. `None` if free space runs out or a number
/// leaves the range of `i32`.
pub open spec fn written(rle: Seq<RleItem>, id: i32, remaining: int, fuel: nat) -> Option<
    Seq<RleItem>,
>
    decreases fuel,
{
    match first_empty(rle, rle.len() as int) {
        None => None,
        Some(at) => if rle[at].length < remaining {
            if fuel == 0 || !(i32::MIN <= remaining - rle[at].length <= i32::MAX) {
                None
            } else {
                written(
                    rle.update(at, RleItem { id: Some(id), length: rle[at].length }),
                    id,
                    remaining - rle[at].length,
                    (fuel - 1) as nat,
                )
            }
        } else if remaining == 0 {
            Some(rle)
        } else if !(i32::MIN <= rle[at].length - remaining <= i32::MAX) {
            None
        } else {
            Some(
                rle.update(at, RleItem { id: None, length: (rle[at].length - remaining) as i32 }).insert(
                    at,
                    RleItem { id: Some(id), length: remaining as i32 },
                ),
            )
        },
    }
}

/// Writes the blocks of a file into the first free space.
pub fn write_block(rle: &mut RleList, id: Id, length: Length) -> (done: bool)
    ensures
        match written(old(rle)@, id, length as int, old(rle)@.len()) {
            Some(after) => done && final(rle)@ == after,
            None => !done,
        },
{
    let mut remaining = length;
    let ghost start = rle@;
    let mut fuel: usize = rle.len();
    loop
        invariant
            rle@.len() == start.len(),
            start == old(rle)@,
            written(rle@, id, remaining as int, fuel as nat) == written(
                start,
                id,
                length as int,
                start.len(),
            ),
        decreases fuel,
    {
        let insert_index = match index_of_first_empty_item(rle) {
            Some(at) => at,
            None => {
                return false;
            },
        };
        let here = rle[insert_index];
        if here.length < remaining {
            if fuel == 0 {
                return false;
            }
            match remaining.checked_sub(here.length) {
                Some(rest) => {
                    rle[insert_index] = RleItem { id: Some(id), length: here.length };
                    remaining = rest;
                    fuel -= 1;
                },
                None => {
                    return false;
                },
            }
        } else {
            if remaining == 0 {
                return true;
            }
            match here.length.checked_sub(remaining) {
                Some(left) => {
                    rle[insert_index] = RleItem { id: None, length: left };
                    rle.insert(insert_index, RleItem { id: Some(id), length: remaining });
                    return true;
                },
                None => {
                    return false;
                },
            }
        }
    }
}

/// The disk after the blocks of the last file are moved into the first
/// free space. `None` if there is no file, or the blocks cannot be
/// written.
pub open spec fn moved(rle: Seq<RleItem>) -> Option<Seq<RleItem>> {
    match last_file(rle, rle.len() as int) {
        Some(at) => written(
            rle.update(at, RleItem { id: None, length: rle[at].length }),
            rle[at].id->0,
            rle[at].length as int,
            rle.len(),
        ),
        None => None,
    }
}

pub fn move_last_nonempty_block(rle: &mut RleList) -> (done: bool)
    ensures
        match moved(old(rle)@) {
            Some(after) => done && final(rle)@ == after,
            None => !done,
        },
{
    let index = match index_of_last_nonempty_item(rle) {
        Some(index) => index,
        None => {
            return false;
        },
    };
    let item_copy = rle[index];
    rle[index] = RleItem { id: None, length: item_copy.length };
    match item_copy.id {
        Some(id) => write_block(rle, id, item_copy.length),
        None => false,
    }
}

/// Whether a file with the number is on the disk.
pub open spec fn has_file(rle: Seq<RleItem>, id: i32) -> bool {
    exists|i: int| 0 <= i < rle.len() && (#[trigger] rle[i]).id == Some(id)
}

/// Looks for the file with the number, and leaves the disk as it is.
pub fn try_to_move(rle: &RleList, id_to_move: Id) -> (found: bool)
    ensures
        found == has_file(rle@, id_to_move),
{
    let mut n: usize = 0;
    while n < rle.len()
        invariant
            n <= rle@.len(),
            forall|i: int| 0 <= i < n ==> (#[trigger] rle@[i]).id != Some(id_to_move),
        decreases rle@.len() - n,
    {
        if let Some(id) = rle[n].id {
            if id == id_to_move {
                return true;
            }
        }
        n += 1;
    }
    false
}

/// The state of the checksum: the place of the next block, and the sum so
/// far.
pub struct Sum {
    pub pos: int,
    pub result: int,
}

/// The checksum after `k` more blocks of a run: each block adds the
/// number of its file times its place, free space counting as file 0.
/// `None` if a product or the place leaves the range of `i32`, or the sum
/// that of `i64`.
pub open spec fn after_blocks(state: Sum, id: int, k: int) -> Option<Sum>
    decreases k,
{
    if k <= 0 {
        Some(state)
    } else {
        match after_blocks(state, id, k - 1) {
            Some(s) => if i32::MIN <= id * s.pos <= i32::MAX && i64::MIN <= s.result + id * s.pos
                <= i64::MAX && s.pos + 1 <= i32::MAX {
                Some(Sum { pos: s.pos + 1, result: s.result + id * s.pos })
            } else {
                None
            },
            None => None,
        }
    }
}

/// The checksum after the first `n` runs.
pub open spec fn checksum(rle: Seq<RleItem>, n: int) -> Option<Sum>
    decreases n,
{
    if n <= 0 {
        Some(Sum { pos: 0, result: 0 })
    } else {
        match checksum(rle, n - 1) {
            Some(s) => after_blocks(
                s,
                match rle[n - 1].id {
                    Some(i) => i as int,
                    None => 0,
                },
                rle[n - 1].length as int,
            ),
            None => None,
        }
    }
}

pub proof fn lemma_blocks_stay_lost(state: Sum, id: int, n: int, m: int)
    requires
        0 <= n <= m,
        after_blocks(state, id, n) is None,
    ensures
        after_blocks(state, id, m) is None,
    decreases m - n,
{
    if n < m {
        lemma_blocks_stay_lost(state, id, n, m - 1);
    }
}

pub proof fn lemma_checksum_stays_lost(rle: Seq<RleItem>, n: int, m: int)
    requires
        0 <= n <= m,
        checksum(rle, n) is None,
    ensures
        checksum(rle, m) is None,
    decreases m - n,
{
    if n < m {
        lemma_checksum_stays_lost(rle, n, m - 1);
    }
}

/// Whether a result gives the sum of a checksum.
pub open spec fn gives(r: Option<i64>, sum: Option<Sum>) -> bool {
    match sum {
        Some(s) => r is Some && r->0 == s.result,
        None => r is None,
    }
}

pub fn score(rle: &RleList) -> (r: Option<i64>)
    ensures
        gives(r, checksum(rle@, rle@.len() as int)),
{
    let mut result: i64 = 0;
    let mut pos: Scalar = 0;
    let mut n: usize = 0;
    while n < rle.len()
        invariant
            n <= rle@.len(),
            checksum(rle@, n as int) == Some(Sum { pos: pos as int, result: result as int }),
        decreases rle@.len() - n,
    {
        let item = rle[n];
        let id: i32 = match item.id {
            Some(i) => i,
            None => 0,
        };
        let ghost start = Sum { pos: pos as int, result: result as int };
        assert(checksum(rle@, n as int + 1 - 1) == Some(start));
        let mut k: i32 = 0;
        while k < item.length
            invariant
                0 <= k,
                k <= item.length || (item.length < 0 && k == 0),
                n < rle@.len(),
                item == rle@[n as int],
                id == (match item.id {
                    Some(i) => i,
                    None => 0i32,
                }),
                checksum(rle@, n as int) == Some(start),
                after_blocks(start, id as int, k as int) == Some(
                    Sum { pos: pos as int, result: result as int },
                ),
            decreases item.length - k,
        {
            assert(after_blocks(start, id as int, k as int + 1 - 1) == Some(
                Sum { pos: pos as int, result: result as int },
            ));
            let next = match id.checked_mul(pos) {
                Some(product) => match (result.checked_add(product as i64), pos.checked_add(1)) {
                    (Some(sum), Some(place)) => Some((sum, place)),
                    _ => None,
                },
                None => None,
            };
            match next {
                Some((sum, place)) => {
                    result = sum;
                    pos = place;
                },
                None => {
                    proof {
                        lemma_blocks_stay_lost(start, id as int, k as int + 1, item.length as int);
                        assert(checksum(rle@, n as int + 1) is None);
                        lemma_checksum_stays_lost(rle@, n as int + 1, rle@.len() as int);
                    }
                    return None;
                },
            }
            k += 1;
        }
        n += 1;
    }
    Some(result)
}

/// The disk after the last file is moved again and again until the disk
/// is compact. `None` if that takes more than `fuel` moves, or a move
/// cannot be made.
pub open spec fn compacted(rle: Seq<RleItem>, fuel: nat) -> Option<Seq<RleItem>>
    decreases fuel,
{
    if compact(rle) {
        Some(rle)
    } else if fuel == 0 {
        None
    } else {
        match moved(rle) {
            Some(next) => compacted(next, (fuel - 1) as nat),
            None => None,
        }
    }
}

/// The number of moves after which compaction is given up.
pub const MOVE_LIMIT: usize = 100000000;

/// Moves the last file into the first free space until the disk is
/// compact.
pub fn compact_disk(rle: &mut RleList) -> (done: bool)
    ensures
        match compacted(old(rle)@, MOVE_LIMIT as nat) {
            Some(after) => done && final(rle)@ == after,
            None => !done,
        },
{
    let mut fuel: usize = MOVE_LIMIT;
    while !is_compact(rle)
        invariant
            compacted(rle@, fuel as nat) == compacted(old(rle)@, MOVE_LIMIT as nat),
        decreases fuel,
    {
        if fuel == 0 {
            return false;
        }
        if !move_last_nonempty_block(rle) {
            return false;
        }
        fuel -= 1;
    }
    true
}

/// The disk that the first line of the puzzle text describes.
pub open spec fn input_of(text: Seq<char>) -> Option<Seq<RleItem>> {
    let lines = lines_of(text);
    if lines.len() > 0 && is_disk_map(lines[0]) {
        Some(runs_of(lines[0], lines[0].len() as int))
    } else {
        None
    }
}

/// Reads the disk of the puzzle text.
pub fn read_input(input: &str) -> (r: Option<RleList>)
    ensures
        match input_of(input@) {
            Some(rle) => r is Some && r->0@ == rle,
            None => r is None,
        },
{
    let lines = split_lines(input);
    if lines.len() == 0 {
        return None;
    }
    assert(lines.deep_view()[0] == lines@[0]@);
    str_to_rle(lines[0].as_str())
}

/// Whether `r` is the answer to the first part for the puzzle text: the
/// checksum of the compacted disk.
pub open spec fn is_solution_a(text: Seq<char>, r: Option<i64>) -> bool {
    match input_of(text) {
        Some(rle) => match compacted(rle, MOVE_LIMIT as nat) {
            Some(after) => gives(r, checksum(after, after.len() as int)),
            None => r is None,
        },
        None => r is None,
    }
}

pub fn day9(input: &str) -> (r: Option<i64>)
    ensures
        is_solution_a(input@, r),
{
    match read_input(input) {
        Some(mut rle) => {
            if compact_disk(&mut rle) {
                score(&rle)
            } else {
                None
            }
        },
        None => None,
    }
}

/// Whether `r` is the answer to the second part for the puzzle text: the
/// checksum of the disk as it is.
pub open spec fn is_solution_b(text: Seq<char>, r: Option<i64>) -> bool {
    match input_of(text) {
        Some(rle) => gives(r, checksum(rle, rle.len() as int)),
        None => r is None,
    }
}

pub fn day9b(input: &str) -> (r: Option<i64>)
    ensures
        is_solution_b(input@, r),
{
    match read_input(input) {
        Some(rle) => score(&rle),
        None => None,
    }
}

} // verus!
