//! Pages must be printed in an order that a list of rules allows: a rule
//! `a|b` forbids page `a` after page `b`. The puzzle adds up the middle
//! pages of the updates that obey the rules, and of the others once they
//! are put in order.

use crate::common::parsing::{parse_u32, u32_of};
use crate::common::text::{chars_of, lines_of, split_lines, split_on, split_on_char};
use vstd::prelude::*;

verus! {

/// The numbers that the pieces of a line between `sep` stand for, if each
/// piece stands for a `u32`.
pub open spec fn numbers_between(line: Seq<char>, sep: char) -> Option<Seq<u32>> {
    let pieces = split_on(line, sep);
    if forall|i: int| 0 <= i < pieces.len() ==> (#[trigger] u32_of(pieces[i])) is Some {
        Some(Seq::new(pieces.len(), |i: int| u32_of(pieces[i])->0 as u32))
    } else {
        None
    }
}

/// Splits a line at `sep` and reads every piece as a number.
pub fn parse_numbers(line: &str, sep: char) -> (r: Option<Vec<u32>>)
    ensures
        match numbers_between(line@, sep) {
            Some(numbers) => r is Some && r->0@ == numbers,
            None => r is None,
        },
{
    let pieces = split_on_char(line, sep);
    let ghost texts = pieces.deep_view();
    let mut out: Vec<u32> = Vec::new();
    let mut i: usize = 0;
    while i < pieces.len()
        invariant
            texts == pieces.deep_view(),
            texts == split_on(line@, sep),
            i <= pieces@.len(),
            out@.len() == i,
            forall|k: int| 0 <= k < i ==> (#[trigger] u32_of(texts[k])) == Some(out@[k] as int),
        decreases pieces@.len() - i,
    {
        assert(texts[i as int] == pieces@[i as int]@);
        match parse_u32(pieces[i].as_str()) {
            Some(v) => {
                out.push(v);
            },
            None => {
                return None;
            },
        }
        i += 1;
    }
    assert(out@ =~= numbers_between(line@, sep)->0);
    Some(out)
}

/// Whether a line holds the character.
pub fn has_char(line: &str, c: char) -> (r: bool)
    ensures
        r == line@.contains(c),
{
    let chars = chars_of(line);
    let mut i: usize = 0;
    while i < chars.len()
        invariant
            chars@ == line@,
            i <= chars@.len(),
            forall|k: int| 0 <= k < i ==> line@[k] != c,
        decreases chars@.len() - i,
    {
        if chars[i] == c {
            return true;
        }
        i += 1;
    }
    false
}

/// The rules among the first `n` lines: each line with a `|` gives one.
/// `None` if such a line is not two numbers with a `|` between them.
pub open spec fn rules_of(lines: Seq<Seq<char>>, n: int) -> Option<Seq<(u32, u32)>>
    decreases n,
{
    if n <= 0 {
        Some(Seq::empty())
    } else {
        match rules_of(lines, n - 1) {
            Some(before) => if !lines[n - 1].contains('|') {
                Some(before)
            } else {
                match numbers_between(lines[n - 1], '|') {
                    Some(pair) => if pair.len() == 2 {
                        Some(before.push((pair[0], pair[1])))
                    } else {
                        None
                    },
                    None => None,
                }
            },
            None => None,
        }
    }
}

/// The updates among the first `n` lines: each line with a comma gives
/// one. `None` if such a line is not numbers with commas between them.
pub open spec fn updates_of(lines: Seq<Seq<char>>, n: int) -> Option<Seq<Seq<u32>>>
    decreases n,
{
    if n <= 0 {
        Some(Seq::empty())
    } else {
        match updates_of(lines, n - 1) {
            Some(before) => if !lines[n - 1].contains(',') {
                Some(before)
            } else {
                match numbers_between(lines[n - 1], ',') {
                    Some(update) => Some(before.push(update)),
                    None => None,
                }
            },
            None => None,
        }
    }
}

pub proof fn lemma_rules_stay_lost(lines: Seq<Seq<char>>, n: int, m: int)
    requires
        0 <= n <= m,
        rules_of(lines, n) is None,
    ensures
        rules_of(lines, m) is None,
    decreases m - n,
{
    if n < m {
        lemma_rules_stay_lost(lines, n, m - 1);
    }
}

pub proof fn lemma_updates_stay_lost(lines: Seq<Seq<char>>, n: int, m: int)
    requires
        0 <= n <= m,
        updates_of(lines, n) is None,
    ensures
        updates_of(lines, m) is None,
    decreases m - n,
{
    if n < m {
        lemma_updates_stay_lost(lines, n, m - 1);
    }
}

pub fn read_rules(lines: &Vec<String>) -> (r: Option<Vec<(u32, u32)>>)
    ensures
        match rules_of(lines.deep_view(), lines@.len() as int) {
            Some(rules) => r is Some && r->0@ == rules,
            None => r is None,
        },
{
    let ghost texts = lines.deep_view();
    let mut result: Vec<(u32, u32)> = Vec::new();
    let mut i: usize = 0;
    while i < lines.len()
        invariant
            texts == lines.deep_view(),
            i <= lines@.len(),
            rules_of(texts, i as int) == Some(result@),
        decreases lines@.len() - i,
    {
        assert(texts[i as int] == lines@[i as int]@);
        assert(rules_of(texts, i as int + 1 - 1) == Some(result@));
        if has_char(lines[i].as_str(), '|') {
            let pair = match parse_numbers(lines[i].as_str(), '|') {
                Some(pair) => if pair.len() == 2 {
                    Some((pair[0], pair[1]))
                } else {
                    None
                },
                None => None,
            };
            match pair {
                Some(rule) => {
                    result.push(rule);
                },
                None => {
                    proof {
                        lemma_rules_stay_lost(texts, i as int + 1, lines@.len() as int);
                    }
                    return None;
                },
            }
        }
        i += 1;
    }
    Some(result)
}

pub fn read_updates(lines: &Vec<String>) -> (r: Option<Vec<Vec<u32>>>)
    ensures
        match updates_of(lines.deep_view(), lines@.len() as int) {
            Some(updates) => r is Some && r->0.deep_view() == updates,
            None => r is None,
        },
{
    let ghost texts = lines.deep_view();
    let mut result: Vec<Vec<u32>> = Vec::new();
    let mut i: usize = 0;
    assert(result.deep_view() =~= Seq::<Seq<u32>>::empty());
    while i < lines.len()
        invariant
            texts == lines.deep_view(),
            i <= lines@.len(),
            updates_of(texts, i as int) == Some(result.deep_view()),
        decreases lines@.len() - i,
    {
        assert(texts[i as int] == lines@[i as int]@);
        assert(updates_of(texts, i as int + 1 - 1) == Some(result.deep_view()));
        if has_char(lines[i].as_str(), ',') {
            match parse_numbers(lines[i].as_str(), ',') {
                Some(update) => {
                    let ghost before = result.deep_view();
                    assert(update.deep_view() =~= update@);
                    result.push(update);
                    assert(result.deep_view() =~= before.push(update@));
                },
                None => {
                    proof {
                        lemma_updates_stay_lost(texts, i as int + 1, lines@.len() as int);
                    }
                    return None;
                },
            }
        }
        i += 1;
    }
    Some(result)
}

/// Whether the update breaks the rule: page `low` stands at or after a
/// place where page `high` stands.
pub open spec fn breaks(update: Seq<u32>, low: u32, high: u32) -> bool {
    exists|i: int, j: int|
        0 <= i <= j < update.len() && #[trigger] update[i] == high && #[trigger] update[j] == low
}

/// Whether the update obeys every rule.
pub open spec fn obeys(update: Seq<u32>, rules: Seq<(u32, u32)>) -> bool {
    forall|k: int| 0 <= k < rules.len() ==> !breaks(update, (#[trigger] rules[k]).0, rules[k].1)
}

/// Tells whether the update breaks one rule.
pub fn breaks_rule(update: &Vec<u32>, low: u32, high: u32) -> (r: bool)
    ensures
        r == breaks(update@, low, high),
{
    let mut seen_high = false;
    let mut i: usize = 0;
    let ghost mut first: int = 0;
    while i < update.len()
        invariant
            i <= update@.len(),
            seen_high ==> 0 <= first < i && update@[first] == high,
            !seen_high ==> forall|k: int| 0 <= k < i ==> update@[k] != high,
            forall|a: int, b: int|
                0 <= a <= b < i ==> !(#[trigger] update@[a] == high && #[trigger] update@[b] == low),
        decreases update@.len() - i,
    {
        if update[i] == high {
            proof {
                if !seen_high {
                    first = i as int;
                }
            }
            seen_high = true;
        }
        if update[i] == low && seen_high {
            assert(update@[first] == high && update@[i as int] == low);
            return true;
        }
        i += 1;
    }
    false
}

pub fn valid_update(update: &Vec<u32>, rules: &Vec<(u32, u32)>) -> (r: bool)
    ensures
        r == obeys(update@, rules@),
{
    let mut k: usize = 0;
    while k < rules.len()
        invariant
            k <= rules@.len(),
            forall|j: int| 0 <= j < k ==> !breaks(update@, (#[trigger] rules@[j]).0, rules@[j].1),
        decreases rules@.len() - k,
    {
        if breaks_rule(update, rules[k].0, rules[k].1) {
            return false;
        }
        k += 1;
    }
    true
}

/// The page in the middle of an update with at least one page.
pub fn middle_element(update: &Vec<u32>) -> (r: u32)
    requires
        update@.len() > 0,
    ensures
        r == update@[(update@.len() - 1) / 2],
{
    update[(update.len() - 1) / 2]
}


/// The state of one walk along an update for one rule: the pages as they
/// stand, whether page `high` has been seen, where it was last seen, and
/// whether two pages have been swapped.
pub struct Fix {
    pub pages: Seq<u32>,
    pub seen_high: bool,
    pub high_idx: int,
    pub did_swap: bool,
}

/// The walk after looking at place `i`: page `high` is noted, and page
/// `low` after a noted page `high` changes places with it.
pub open spec fn rule_step(st: Fix, low: u32, high: u32, i: int) -> Fix {
    let number = st.pages[i];
    if number == high {
        Fix { pages: st.pages, seen_high: true, high_idx: i, did_swap: st.did_swap }
    } else if number == low && st.seen_high {
        Fix {
            pages: st.pages.update(st.high_idx, low).update(i, high),
            seen_high: true,
            high_idx: st.high_idx,
            did_swap: true,
        }
    } else {
        st
    }
}

/// The walk for one rule after the first `n` places.
pub open spec fn rule_pass(pages: Seq<u32>, swapped: bool, low: u32, high: u32, n: int) -> Fix
    decreases n,
{
    if n <= 0 {
        Fix { pages, seen_high: false, high_idx: 0, did_swap: swapped }
    } else {
        rule_step(rule_pass(pages, swapped, low, high, n - 1), low, high, n - 1)
    }
}

/// The pages after one walk for each of the first `k` rules, and whether
/// one of the walks swapped pages.
pub open spec fn rules_pass(pages: Seq<u32>, rules: Seq<(u32, u32)>, k: int) -> (Seq<u32>, bool)
    decreases k,
{
    if k <= 0 {
        (pages, false)
    } else {
        let before = rules_pass(pages, rules, k - 1);
        let walk = rule_pass(before.0, before.1, rules[k - 1].0, rules[k - 1].1, pages.len() as int);
        (walk.pages, walk.did_swap)
    }
}

/// The pages after walking for all rules again and again until a round
/// swaps nothing. `None` if that takes more than `fuel` further rounds.
pub open spec fn fixed(pages: Seq<u32>, rules: Seq<(u32, u32)>, fuel: nat) -> Option<Seq<u32>>
    decreases fuel,
{
    let round = rules_pass(pages, rules, rules.len() as int);
    if !round.1 {
        Some(round.0)
    } else if fuel == 0 {
        None
    } else {
        fixed(round.0, rules, (fuel - 1) as nat)
    }
}

/// The number of further rounds that `fix_update` allows for an update of
/// `n` pages.
pub open spec fn rounds_allowed(n: nat) -> nat {
    n * n
}

/// A walk keeps the number of pages.
pub proof fn lemma_rule_pass_len(pages: Seq<u32>, swapped: bool, low: u32, high: u32, n: int)
    requires
        n <= pages.len(),
    ensures
        rule_pass(pages, swapped, low, high, n).pages.len() == pages.len(),
        rule_pass(pages, swapped, low, high, n).seen_high ==> 0 <= rule_pass(
            pages,
            swapped,
            low,
            high,
            n,
        ).high_idx < n,
    decreases n,
{
    if n > 0 {
        lemma_rule_pass_len(pages, swapped, low, high, n - 1);
    }
}

/// One round of walks over the pages.
fn fix_round(result: &mut Vec<u32>, rules: &Vec<(u32, u32)>) -> (did_swap: bool)
    ensures
        (final(result)@, did_swap) == rules_pass(old(result)@, rules@, rules@.len() as int),
        final(result)@.len() == old(result)@.len(),
{
    let n = result.len();
    let mut did_swap = false;
    let mut k: usize = 0;
    while k < rules.len()
        invariant
            k <= rules@.len(),
            n == old(result)@.len(),
            result@.len() == n,
            (result@, did_swap) == rules_pass(old(result)@, rules@, k as int),
        decreases rules@.len() - k,
    {
        let (low, high) = rules[k];
        let ghost start = result@;
        let ghost swapped = did_swap;
        let mut seen_high = false;
        let mut high_idx: usize = 0;
        let mut i: usize = 0;
        while i < n
            invariant
                i <= n,
                start.len() == n,
                result@.len() == n,
                seen_high ==> high_idx < i,
                rule_pass(start, swapped, low, high, i as int) == (Fix {
                    pages: result@,
                    seen_high,
                    high_idx: high_idx as int,
                    did_swap,
                }),
            decreases n - i,
        {
            let number = result[i];
            if number == high {
                seen_high = true;
                high_idx = i;
            } else if number == low && seen_high {
                did_swap = true;
                result[high_idx] = low;
                result[i] = high;
            }
            i += 1;
        }
        k += 1;
    }
    did_swap
}

/// Puts the pages of an update in an order that obeys the rules, by
/// swapping pages that break a rule until none does. `None` if that takes
/// more further rounds than the square of the number of pages.
pub fn fix_update(update: &Vec<u32>, rules: &Vec<(u32, u32)>) -> (r: Option<Vec<u32>>)
    ensures
        match fixed(update@, rules@, rounds_allowed(update@.len())) {
            Some(pages) => r is Some && r->0@ == pages,
            None => r is None,
        },
{
    let mut result: Vec<u32> = Vec::new();
    let mut i: usize = 0;
    while i < update.len()
        invariant
            i <= update@.len(),
            result@ == update@.take(i as int),
        decreases update@.len() - i,
    {
        result.push(update[i]);
        i += 1;
    }
    assert(update@.take(update@.len() as int) =~= update@);
    let n = update.len() as u128;
    assert(n * n <= u128::MAX) by (nonlinear_arith)
        requires
            0 <= n <= 0xffff_ffff_ffff_ffff,
    ;
    let mut fuel: u128 = n * n;
    loop
        invariant
            fixed(result@, rules@, fuel as nat) == fixed(
                update@,
                rules@,
                rounds_allowed(update@.len()),
            ),
        decreases fuel,
    {
        let did_swap = fix_round(&mut result, rules);
        if !did_swap {
            return Some(result);
        }
        if fuel == 0 {
            return None;
        }
        fuel -= 1;
    }
}

/// The middle page of the update as it counts for one part: in the first
/// part the middle page of an update that obeys the rules, in the second
/// that of an update that does not, once it is put in order; 0 for an
/// update that does not count. `None` if the update is empty or cannot be
/// put in order.
pub open spec fn counted_middle(update: Seq<u32>, rules: Seq<(u32, u32)>, fix: bool) -> Option<int> {
    if obeys(update, rules) == fix {
        Some(0)
    } else if update.len() == 0 {
        None
    } else if !fix {
        Some(update[(update.len() - 1) / 2] as int)
    } else {
        match fixed(update, rules, rounds_allowed(update.len())) {
            Some(pages) => Some(pages[(pages.len() - 1) / 2] as int),
            None => None,
        }
    }
}

/// The sum of the middle pages that count, over the first `n` updates.
/// `None` if the sum leaves the range of `u32`.
pub open spec fn middle_sum(updates: Seq<Seq<u32>>, rules: Seq<(u32, u32)>, fix: bool, n: int) -> Option<
    int,
>
    decreases n,
{
    if n <= 0 {
        Some(0)
    } else {
        match (middle_sum(updates, rules, fix, n - 1), counted_middle(updates[n - 1], rules, fix)) {
            (Some(before), Some(middle)) => if before + middle <= u32::MAX {
                Some(before + middle)
            } else {
                None
            },
            _ => None,
        }
    }
}

pub proof fn lemma_middle_sum_stays_lost(
    updates: Seq<Seq<u32>>,
    rules: Seq<(u32, u32)>,
    fix: bool,
    n: int,
    m: int,
)
    requires
        0 <= n <= m,
        middle_sum(updates, rules, fix, n) is None,
    ensures
        middle_sum(updates, rules, fix, m) is None,
    decreases m - n,
{
    if n < m {
        lemma_middle_sum_stays_lost(updates, rules, fix, n, m - 1);
    }
}

/// The pages of a fixed update are as many as before.
pub proof fn lemma_fixed_len(pages: Seq<u32>, rules: Seq<(u32, u32)>, fuel: nat)
    ensures
        fixed(pages, rules, fuel) matches Some(out) ==> out.len() == pages.len(),
    decreases fuel,
{
    lemma_rules_pass_len(pages, rules, rules.len() as int);
    let round = rules_pass(pages, rules, rules.len() as int);
    if round.1 && fuel > 0 {
        lemma_fixed_len(round.0, rules, (fuel - 1) as nat);
    }
}

pub proof fn lemma_rules_pass_len(pages: Seq<u32>, rules: Seq<(u32, u32)>, k: int)
    ensures
        rules_pass(pages, rules, k).0.len() == pages.len(),
    decreases k,
{
    if k > 0 {
        lemma_rules_pass_len(pages, rules, k - 1);
        let before = rules_pass(pages, rules, k - 1);
        lemma_rule_pass_len(before.0, before.1, rules[k - 1].0, rules[k - 1].1, pages.len() as int);
    }
}

/// The middle page of one update as it counts for one part.
pub fn middle_of(update: &Vec<u32>, rules: &Vec<(u32, u32)>, fix: bool) -> (r: Option<u32>)
    ensures
        match counted_middle(update@, rules@, fix) {
            Some(middle) => r is Some && r->0 == middle,
            None => r is None,
        },
{
    if valid_update(update, rules) == fix {
        return Some(0);
    }
    if update.len() == 0 {
        return None;
    }
    if !fix {
        return Some(middle_element(update));
    }
    match fix_update(update, rules) {
        Some(pages) => {
            proof {
                lemma_fixed_len(update@, rules@, rounds_allowed(update@.len()));
            }
            Some(middle_element(&pages))
        },
        None => None,
    }
}

/// The sum of the middle pages that count, as an `i32`.
pub open spec fn total_of(updates: Seq<Seq<u32>>, rules: Seq<(u32, u32)>, fix: bool) -> Option<int> {
    match middle_sum(updates, rules, fix, updates.len() as int) {
        Some(total) => if total <= i32::MAX {
            Some(total)
        } else {
            None
        },
        None => None,
    }
}

/// Whether a result gives a total.
pub open spec fn gives(r: Option<i32>, total: Option<int>) -> bool {
    match total {
        Some(n) => r is Some && r->0 == n,
        None => r is None,
    }
}

/// Adds up the middle pages that count for one part.
pub fn sum_middles(updates: &Vec<Vec<u32>>, rules: &Vec<(u32, u32)>, fix: bool) -> (r: Option<i32>)
    ensures
        gives(r, total_of(updates.deep_view(), rules@, fix)),
{
    let ghost all = updates.deep_view();
    let mut total: u32 = 0;
    let mut i: usize = 0;
    while i < updates.len()
        invariant
            all == updates.deep_view(),
            i <= updates@.len(),
            middle_sum(all, rules@, fix, i as int) == Some(total as int),
        decreases updates@.len() - i,
    {
        assert(all[i as int] =~= updates@[i as int]@);
        assert(middle_sum(all, rules@, fix, i as int + 1 - 1) == Some(total as int));
        let next = match middle_of(&updates[i], rules, fix) {
            Some(middle) => total.checked_add(middle),
            None => None,
        };
        match next {
            Some(sum) => {
                total = sum;
            },
            None => {
                proof {
                    lemma_middle_sum_stays_lost(all, rules@, fix, i as int + 1, updates@.len() as int);
                }
                return None;
            },
        }
        i += 1;
    }
    if total > i32::MAX as u32 {
        None
    } else {
        Some(total as i32)
    }
}

/// The answer to one part for the lines of the puzzle text.
pub open spec fn answer_for(lines: Seq<Seq<char>>, fix: bool) -> Option<int> {
    match (rules_of(lines, lines.len() as int), updates_of(lines, lines.len() as int)) {
        (Some(rules), Some(updates)) => total_of(updates, rules, fix),
        _ => None,
    }
}

/// Whether `r` is the answer to the first part for the puzzle text.
pub open spec fn is_solution_a(text: Seq<char>, r: Option<i32>) -> bool {
    gives(r, answer_for(lines_of(text), false))
}

/// Whether `r` is the answer to the second part for the puzzle text.
pub open spec fn is_solution_b(text: Seq<char>, r: Option<i32>) -> bool {
    gives(r, answer_for(lines_of(text), true))
}

pub fn day5(input: &str) -> (r: Option<i32>)
    ensures
        is_solution_a(input@, r),
{
    let lines = split_lines(input);
    match (read_rules(&lines), read_updates(&lines)) {
        (Some(rules), Some(updates)) => sum_middles(&updates, &rules, false),
        _ => None,
    }
}

pub fn day5b(input: &str) -> (r: Option<i32>)
    ensures
        is_solution_b(input@, r),
{
    let lines = split_lines(input);
    match (read_rules(&lines), read_updates(&lines)) {
        (Some(rules), Some(updates)) => sum_middles(&updates, &rules, true),
        _ => None,
    }
}

} // verus!
