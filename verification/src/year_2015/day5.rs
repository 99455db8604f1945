//! Lines of text are judged by two sets of rules, each given as regular
//! expressions; the puzzle asks how many lines each set accepts.

use crate::common::text::{lines_of, split_lines};
use vstd::prelude::*;

verus! {

/// What `fancy_regex` makes of a pattern and a text: `None` where
/// `Regex::new` refuses the pattern, `Some(None)` where `Regex::is_match`
/// gives up on the text, and otherwise whether the pattern matches
/// anywhere in the text.
pub uninterp spec fn fancy_match(pattern: Seq<char>, text: Seq<char>) -> Option<Option<bool>>;

/// Compiles the pattern with `fancy_regex::Regex::new` and asks
/// `Regex::is_match` of the text. The contract gives the result its name
/// and states no more of it.
#[verifier::external_body]
fn is_match(pattern: &str, text: &str) -> (r: Option<Option<bool>>)
    ensures
        r == fancy_match(pattern@, text@),
{
    match fancy_regex::Regex::new(pattern) {
        Ok(re) => Some(re.is_match(text).ok()),
        Err(_) => None,
    }
}

/// Three vowels.
pub open spec fn three_vowels() -> Seq<char> {
    ".*[aeiou].*[aeiou].*[aeiou].*"@
}

/// A letter twice in a row.
pub open spec fn double_letter() -> Seq<char> {
    "(.)\\1"@
}

/// One of four pairs of letters that are not allowed.
pub open spec fn bad_combo() -> Seq<char> {
    ".*(ab|cd|pq|xy).*"@
}

/// A pair of letters that comes twice.
pub open spec fn doubled_pair() -> Seq<char> {
    ".*(..).*\\1.*"@
}

/// A letter that comes again after one letter between.
pub open spec fn bracketed_letter() -> Seq<char> {
    ".*(.).\\1.*"@
}

/// Both conditions, the second asked only where the first holds. `None`
/// where a question that is asked has no answer.
pub open spec fn and_then(first: Option<bool>, second: Option<bool>) -> Option<bool> {
    match first {
        Some(true) => second,
        other => other,
    }
}

/// The opposite of an answer.
pub open spec fn negated(answer: Option<bool>) -> Option<bool> {
    match answer {
        Some(b) => Some(!b),
        None => None,
    }
}

/// The verdict of the first set of rules, given what the three patterns
/// make of a line: three vowels, a double letter and none of the pairs
/// that are not allowed. `None` if a pattern is refused, or a question
/// that is asked has no answer.
pub open spec fn verdict_a(
    vowels: Option<Option<bool>>,
    double: Option<Option<bool>>,
    bad: Option<Option<bool>>,
) -> Option<bool> {
    match (vowels, double, bad) {
        (Some(v), Some(d), Some(b)) => and_then(and_then(v, d), negated(b)),
        _ => None,
    }
}

/// The verdict of the second set of rules, given what the two patterns
/// make of a line: a pair that comes twice, and a letter that comes again
/// after one between.
pub open spec fn verdict_b(pair: Option<Option<bool>>, bracketed: Option<Option<bool>>) -> Option<
    bool,
> {
    match (pair, bracketed) {
        (Some(p), Some(b)) => and_then(p, b),
        _ => None,
    }
}

/// Judges a line by the first set of rules from what the patterns make of
/// it.
pub fn judge_a(
    vowels: Option<Option<bool>>,
    double: Option<Option<bool>>,
    bad: Option<Option<bool>>,
) -> (r: Option<bool>)
    ensures
        r == verdict_a(vowels, double, bad),
{
    match (vowels, double, bad) {
        (Some(v), Some(d), Some(b)) => match v {
            Some(true) => match d {
                Some(true) => match b {
                    Some(found) => Some(!found),
                    None => None,
                },
                other => other,
            },
            other => other,
        },
        _ => None,
    }
}

/// Judges a line by the second set of rules from what the patterns make
/// of it.
pub fn judge_b(pair: Option<Option<bool>>, bracketed: Option<Option<bool>>) -> (r: Option<bool>)
    ensures
        r == verdict_b(pair, bracketed),
{
    match (pair, bracketed) {
        (Some(p), Some(b)) => match p {
            Some(true) => b,
            other => other,
        },
        _ => None,
    }
}

/// Whether the first set of rules accepts a line.
pub open spec fn accepts_a(line: Seq<char>) -> Option<bool> {
    verdict_a(
        fancy_match(three_vowels(), line),
        fancy_match(double_letter(), line),
        fancy_match(bad_combo(), line),
    )
}

/// Whether the second set of rules accepts a line.
pub open spec fn accepts_b(line: Seq<char>) -> Option<bool> {
    verdict_b(fancy_match(doubled_pair(), line), fancy_match(bracketed_letter(), line))
}

pub fn accept_string_a(s: &str) -> (r: Option<bool>)
    ensures
        r == accepts_a(s@),
{
    judge_a(
        is_match(".*[aeiou].*[aeiou].*[aeiou].*", s),
        is_match("(.)\\1", s),
        is_match(".*(ab|cd|pq|xy).*", s),
    )
}

pub fn accept_string_b(s: &str) -> (r: Option<bool>)
    ensures
        r == accepts_b(s@),
{
    judge_b(is_match(".*(..).*\\1.*", s), is_match(".*(.).\\1.*", s))
}

/// The number of verdicts that accept. `None` if a verdict is missing or
/// the number leaves the range of `i64`.
pub open spec fn count_accepted(verdicts: Seq<Option<bool>>) -> Option<int>
    decreases verdicts.len(),
{
    if verdicts.len() == 0 {
        Some(0)
    } else {
        match (count_accepted(verdicts.drop_last()), verdicts.last()) {
            (Some(before), Some(accepted)) => if accepted {
                if before + 1 <= i64::MAX {
                    Some(before + 1)
                } else {
                    None
                }
            } else {
                Some(before)
            },
            _ => None,
        }
    }
}

pub proof fn lemma_count_stays_lost(verdicts: Seq<Option<bool>>, n: int)
    requires
        0 <= n <= verdicts.len(),
        count_accepted(verdicts.take(n)) is None,
    ensures
        count_accepted(verdicts) is None,
    decreases verdicts.len() - n,
{
    if n < verdicts.len() {
        assert(verdicts.take(n + 1).drop_last() =~= verdicts.take(n));
        lemma_count_stays_lost(verdicts, n + 1);
    } else {
        assert(verdicts.take(n) =~= verdicts);
    }
}

/// Counts the verdicts that accept.
pub fn tally(verdicts: &Vec<Option<bool>>) -> (r: Option<i64>)
    ensures
        match count_accepted(verdicts@) {
            Some(count) => r is Some && r->0 == count,
            None => r is None,
        },
{
    let mut count: i64 = 0;
    let mut i: usize = 0;
    assert(verdicts@.take(0) =~= Seq::<Option<bool>>::empty());
    while i < verdicts.len()
        invariant
            i <= verdicts@.len(),
            count_accepted(verdicts@.take(i as int)) == Some(count as int),
        decreases verdicts@.len() - i,
    {
        assert(verdicts@.take(i as int + 1).drop_last() =~= verdicts@.take(i as int));
        assert(verdicts@.take(i as int + 1).last() == verdicts@[i as int]);
        let next = match verdicts[i] {
            Some(true) => count.checked_add(1),
            Some(false) => Some(count),
            None => None,
        };
        match next {
            Some(more) => {
                count = more;
            },
            None => {
                proof {
                    lemma_count_stays_lost(verdicts@, i as int + 1);
                }
                return None;
            },
        }
        i += 1;
    }
    assert(verdicts@.take(verdicts@.len() as int) =~= verdicts@);
    Some(count)
}

/// The two numbers of accepted lines.
pub open spec fn answer_for(lines: Seq<Seq<char>>) -> Option<(int, int)> {
    match (
        count_accepted(lines.map_values(|line: Seq<char>| accepts_a(line))),
        count_accepted(lines.map_values(|line: Seq<char>| accepts_b(line))),
    ) {
        (Some(a), Some(b)) => Some((a, b)),
        _ => None,
    }
}

/// Judges every line by both sets of rules and counts the accepted ones.
pub fn judge_lines(lines: &Vec<String>) -> (r: Option<(i64, i64)>)
    ensures
        match answer_for(lines.deep_view()) {
            Some((a, b)) => r is Some && (r->0).0 == a && (r->0).1 == b,
            None => r is None,
        },
{
    let ghost texts = lines.deep_view();
    let mut verdicts_a: Vec<Option<bool>> = Vec::new();
    let mut verdicts_b: Vec<Option<bool>> = Vec::new();
    let mut i: usize = 0;
    while i < lines.len()
        invariant
            texts == lines.deep_view(),
            i <= lines@.len(),
            verdicts_a@.len() == i,
            verdicts_b@.len() == i,
            forall|k: int| 0 <= k < i ==> #[trigger] verdicts_a@[k] == accepts_a(texts[k]),
            forall|k: int| 0 <= k < i ==> #[trigger] verdicts_b@[k] == accepts_b(texts[k]),
        decreases lines@.len() - i,
    {
        assert(texts[i as int] == lines@[i as int]@);
        verdicts_a.push(accept_string_a(lines[i].as_str()));
        verdicts_b.push(accept_string_b(lines[i].as_str()));
        i += 1;
    }
    assert(verdicts_a@ =~= texts.map_values(|line: Seq<char>| accepts_a(line)));
    assert(verdicts_b@ =~= texts.map_values(|line: Seq<char>| accepts_b(line)));
    match (tally(&verdicts_a), tally(&verdicts_b)) {
        (Some(a), Some(b)) => Some((a, b)),
        _ => None,
    }
}

/// The answers for the puzzle text.
pub open spec fn answer(text: Seq<char>) -> Option<(int, int)> {
    answer_for(lines_of(text))
}

/// Solves both parts. `None` if a verdict is missing.
pub fn solution(input: &str) -> (r: Option<(i64, i64)>)
    ensures
        match answer(input@) {
            Some((a, b)) => r is Some && (r->0).0 == a && (r->0).1 == b,
            None => r is None,
        },
{
    judge_lines(&split_lines(input))
}

/// Whether `r` is the answer to the first part for the puzzle text.
pub open spec fn is_solution_a(text: Seq<char>, r: Option<i64>) -> bool {
    match answer(text) {
        Some((a, _)) => r is Some && r->0 == a,
        None => r is None,
    }
}

/// Whether `r` is the answer to the second part for the puzzle text.
pub open spec fn is_solution_b(text: Seq<char>, r: Option<i64>) -> bool {
    match answer(text) {
        Some((_, b)) => r is Some && r->0 == b,
        None => r is None,
    }
}

pub fn solution_a(input: &str) -> (r: Option<i64>)
    ensures
        is_solution_a(input@, r),
{
    match solution(input) {
        Some((a, _)) => Some(a),
        None => None,
    }
}

pub fn solution_b(input: &str) -> (r: Option<i64>)
    ensures
        is_solution_b(input@, r),
{
    match solution(input) {
        Some((_, b)) => Some(b),
        None => None,
    }
}

} // verus!
