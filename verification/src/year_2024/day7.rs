//! Each equation gives a target and a row of operands. The puzzle asks
//! which targets can be made by putting operators between the operands,
//! worked out from left to right, and adds up those targets.

use crate::common::arith::{add_checked, add_within, known, mul_checked, mul_within};
use crate::common::parsing::{i64_of, parse_i64, push_signed, signed_text};
use crate::common::text::{lines_of, split_lines, split_on, split_on_char, string_of};
use vstd::prelude::*;

verus! {

#[derive(Clone, Copy, Debug, PartialEq, Eq, Structural)]
pub enum Operator {
    Add,
    Mul,
    Concat,
}

/// What an operator makes of two numbers. Concatenation writes the two
/// numbers in decimal notation one after the other and reads the result as
/// a number. `None` if the result is no number in the range of `i64`.
pub open spec fn applied(op: Operator, l: int, r: int) -> Option<int> {
    match op {
        Operator::Add => add_within(Some(l), Some(r)),
        Operator::Mul => mul_within(Some(l), Some(r)),
        Operator::Concat => i64_of(signed_text(l) + signed_text(r)),
    }
}

/// The operators that may be used: addition and multiplication, and
/// concatenation where it is allowed.
pub open spec fn operators(allow_expensive: bool) -> Seq<Operator> {
    if allow_expensive {
        seq![Operator::Add, Operator::Mul, Operator::Concat]
    } else {
        seq![Operator::Add, Operator::Mul]
    }
}

/// Every row of `shorter` followed by each of the operators: first all
/// that start with the first row, in the order of the operators, then all
/// that start with the second, and so on up to row `n`.
pub open spec fn extended(shorter: Seq<Seq<Operator>>, ops: Seq<Operator>, n: int, k: int) -> Seq<
    Seq<Operator>,
>
    decreases n, k,
{
    if n <= 0 {
        Seq::empty()
    } else if k <= 0 {
        extended(shorter, ops, n - 1, ops.len() as int)
    } else {
        extended(shorter, ops, n, k - 1).push(shorter[n - 1].push(ops[k - 1]))
    }
}

/// All rows of `len` operators.
pub open spec fn op_seqs(len: nat, allow_expensive: bool) -> Seq<Seq<Operator>>
    decreases len,
{
    if len == 0 {
        seq![Seq::empty()]
    } else {
        let shorter = op_seqs((len - 1) as nat, allow_expensive);
        extended(
            shorter,
            operators(allow_expensive),
            shorter.len() as int,
            operators(allow_expensive).len() as int,
        )
    }
}

/// The views of rows of operators.
pub open spec fn seqs_view(seqs: Seq<Vec<Operator>>) -> Seq<Seq<Operator>> {
    seqs.map_values(|s: Vec<Operator>| s@)
}

impl Operator {
    pub fn apply(&self, l: i64, r: i64) -> (out: Option<i64>)
        ensures
            known(out) == applied(*self, l as int, r as int),
    {
        match self {
            Operator::Add => add_checked(Some(l), Some(r)),
            Operator::Mul => mul_checked(Some(l), Some(r)),
            Operator::Concat => {
                let mut text: Vec<char> = Vec::new();
                push_signed(&mut text, l);
                push_signed(&mut text, r);
                assert(text@ =~= signed_text(l as int) + signed_text(r as int));
                parse_i64(string_of(&text).as_str())
            },
        }
    }

    /// All rows of `len` operators: those of `len - 1` operators, each
    /// followed by every operator in turn.
    pub fn all_seqs(len: usize, allow_expensive: bool) -> (r: Vec<Vec<Operator>>)
        ensures
            seqs_view(r@) == op_seqs(len as nat, allow_expensive),
        decreases len,
    {
        if len == 0 {
            let mut seqs: Vec<Vec<Operator>> = Vec::new();
            seqs.push(Vec::new());
            assert(seqs_view(seqs@) =~= seq![Seq::<Operator>::empty()]);
            seqs
        } else {
            let mut seqs: Vec<Vec<Operator>> = Vec::new();
            let shorter = Self::all_seqs(len - 1, allow_expensive);
            let all_operators: Vec<Operator> = if allow_expensive {
                vec![Operator::Add, Operator::Mul, Operator::Concat]
            } else {
                vec![Operator::Add, Operator::Mul]
            };
            assert(all_operators@ =~= operators(allow_expensive));
            let ghost rows = seqs_view(shorter@);
            let ghost ops = all_operators@;
            let mut n: usize = 0;
            assert(seqs_view(seqs@) =~= extended(rows, ops, 0, ops.len() as int));
            while n < shorter.len()
                invariant
                    rows == seqs_view(shorter@),
                    ops == all_operators@,
                    n <= shorter@.len(),
                    seqs_view(seqs@) == extended(rows, ops, n as int, ops.len() as int),
                decreases shorter@.len() - n,
            {
                let mut k: usize = 0;
                while k < all_operators.len()
                    invariant
                        rows == seqs_view(shorter@),
                        ops == all_operators@,
                        n < shorter@.len(),
                        k <= all_operators@.len(),
                        seqs_view(seqs@) == extended(rows, ops, n as int + 1, k as int),
                    decreases all_operators@.len() - k,
                {
                    let mut new_seq: Vec<Operator> = Vec::new();
                    let mut i: usize = 0;
                    while i < shorter[n].len()
                        invariant
                            n < shorter@.len(),
                            i <= shorter@[n as int]@.len(),
                            new_seq@ == shorter@[n as int]@.take(i as int),
                        decreases shorter@[n as int]@.len() - i,
                    {
                        new_seq.push(shorter[n][i]);
                        i += 1;
                    }
                    assert(shorter@[n as int]@.take(shorter@[n as int]@.len() as int)
                        =~= shorter@[n as int]@);
                    new_seq.push(all_operators[k]);
                    let ghost before = seqs_view(seqs@);
                    seqs.push(new_seq);
                    assert(rows[n as int] == shorter@[n as int]@);
                    assert(seqs_view(seqs@) =~= before.push(rows[n as int].push(ops[k as int])));
                    k += 1;
                }
                n += 1;
            }
            seqs
        }
    }
}

/// What a line gives when it is cleared of the white space at its start,
/// as `str::trim_start` does.
pub uninterp spec fn trimmed_start(line: Seq<char>) -> Seq<char>;

/// Removes the white space at the start of a text with `str::trim_start`
/// of the standard library. The contract gives the result its name and
/// states no more of it.
#[verifier::external_body]
fn trim_start(line: &str) -> (r: String)
    ensures
        r@ == trimmed_start(line@),
{
    line.trim_start().to_string()
}

/// The numbers that the pieces of a text between single blanks stand for.
pub open spec fn operands_of(text: Seq<char>) -> Option<Seq<i64>> {
    let pieces = split_on(text, ' ');
    if forall|i: int| 0 <= i < pieces.len() ==> (#[trigger] i64_of(pieces[i])) is Some {
        Some(Seq::new(pieces.len(), |i: int| i64_of(pieces[i])->0 as i64))
    } else {
        None
    }
}

/// The equation that a line stands for: the target before the colon, and
/// after it the operands with single blanks between them. `None` if the
/// line has not one colon, or a part is no number.
pub open spec fn equation_of(line: Seq<char>) -> Option<(i64, Seq<i64>)> {
    let sides = split_on(line, ':');
    if sides.len() != 2 {
        None
    } else {
        match (i64_of(sides[0]), operands_of(trimmed_start(sides[1]))) {
            (Some(target), Some(operands)) => Some((target as i64, operands)),
            _ => None,
        }
    }
}

/// Reads the operands of an equation from the text after the colon, once
/// the white space at its start is removed.
pub fn parse_operands(text: &str) -> (r: Option<Vec<i64>>)
    ensures
        match operands_of(text@) {
            Some(operands) => r is Some && r->0@ == operands,
            None => r is None,
        },
{
    let pieces = split_on_char(text, ' ');
    let ghost texts = pieces.deep_view();
    let mut out: Vec<i64> = Vec::new();
    let mut i: usize = 0;
    while i < pieces.len()
        invariant
            texts == pieces.deep_view(),
            texts == split_on(text@, ' '),
            i <= pieces@.len(),
            out@.len() == i,
            forall|k: int| 0 <= k < i ==> (#[trigger] i64_of(texts[k])) == Some(out@[k] as int),
        decreases pieces@.len() - i,
    {
        assert(texts[i as int] == pieces@[i as int]@);
        match parse_i64(pieces[i].as_str()) {
            Some(v) => {
                out.push(v);
            },
            None => {
                return None;
            },
        }
        i += 1;
    }
    assert(out@ =~= operands_of(text@)->0);
    Some(out)
}

pub fn parse_line(line: String) -> (r: Option<(i64, Vec<i64>)>)
    ensures
        match equation_of(line@) {
            Some((target, operands)) => r is Some && (r->0).0 == target && (r->0).1@ == operands,
            None => r is None,
        },
{
    let sides = split_on_char(line.as_str(), ':');
    if sides.len() != 2 {
        return None;
    }
    assert(sides.deep_view()[0] == sides@[0]@);
    assert(sides.deep_view()[1] == sides@[1]@);
    let target = parse_i64(sides[0].as_str());
    let rest = trim_start(sides[1].as_str());
    let operands = parse_operands(rest.as_str());
    match (target, operands) {
        (Some(t), Some(o)) => Some((t, o)),
        _ => None,
    }
}

/// What the operands give when the first `n` operators of the row stand
/// between them, worked out from the left. `None` if a number on the way
/// leaves the range of `i64`.
pub open spec fn evaluated(operands: Seq<i64>, seq: Seq<Operator>, n: int) -> Option<int>
    decreases n,
{
    if n <= 0 {
        Some(operands[0] as int)
    } else {
        match evaluated(operands, seq, n - 1) {
            Some(before) => applied(seq[n - 1], before, operands[n] as int),
            None => None,
        }
    }
}

pub proof fn lemma_evaluated_stays_lost(operands: Seq<i64>, seq: Seq<Operator>, n: int, m: int)
    requires
        0 <= n <= m,
        evaluated(operands, seq, n) is None,
    ensures
        evaluated(operands, seq, m) is None,
    decreases m - n,
{
    if n < m {
        lemma_evaluated_stays_lost(operands, seq, n, m - 1);
    }
}

/// Works out the operands with the operators of the row between them.
pub fn evaluate(operands: &Vec<i64>, seq: &Vec<Operator>) -> (r: Option<i64>)
    requires
        operands@.len() == seq@.len() + 1,
    ensures
        known(r) == evaluated(operands@, seq@, seq@.len() as int),
{
    let mut accumulator: i64 = operands[0];
    let mut n: usize = 0;
    while n < seq.len()
        invariant
            operands@.len() == seq@.len() + 1,
            n <= seq@.len(),
            evaluated(operands@, seq@, n as int) == Some(accumulator as int),
        decreases seq@.len() - n,
    {
        assert(evaluated(operands@, seq@, n as int + 1 - 1) == Some(accumulator as int));
        match seq[n].apply(accumulator, operands[n + 1]) {
            Some(next) => {
                accumulator = next;
            },
            None => {
                proof {
                    lemma_evaluated_stays_lost(operands@, seq@, n as int + 1, seq@.len() as int);
                }
                return None;
            },
        }
        n += 1;
    }
    Some(accumulator)
}

/// Whether one of the first `n` rows of operators makes the target.
/// `None` if, before one does, a row gives a number that leaves the range
/// of `i64`.
pub open spec fn makes_target(target: i64, operands: Seq<i64>, seqs: Seq<Seq<Operator>>, n: int) -> Option<
    bool,
>
    decreases n,
{
    if n <= 0 {
        Some(false)
    } else {
        match makes_target(target, operands, seqs, n - 1) {
            Some(true) => Some(true),
            Some(false) => match evaluated(operands, seqs[n - 1], seqs[n - 1].len() as int) {
                Some(value) => Some(value == target),
                None => None,
            },
            None => None,
        }
    }
}

pub proof fn lemma_makes_target_settles(
    target: i64,
    operands: Seq<i64>,
    seqs: Seq<Seq<Operator>>,
    n: int,
    m: int,
)
    requires
        0 <= n <= m,
        makes_target(target, operands, seqs, n) != Some(false),
    ensures
        makes_target(target, operands, seqs, m) == makes_target(target, operands, seqs, n),
    decreases m - n,
{
    if n < m {
        lemma_makes_target_settles(target, operands, seqs, n, m - 1);
    }
}

/// Every row of `len` operators has `len` operators.
pub proof fn lemma_op_seqs_len(len: nat, allow_expensive: bool, i: int)
    requires
        0 <= i < op_seqs(len, allow_expensive).len(),
    ensures
        op_seqs(len, allow_expensive)[i].len() == len,
    decreases len,
{
    if len > 0 {
        let shorter = op_seqs((len - 1) as nat, allow_expensive);
        let ops = operators(allow_expensive);
        assert forall|k: int| 0 <= k < shorter.len() implies (#[trigger] shorter[k]).len() == len - 1 by {
            lemma_op_seqs_len((len - 1) as nat, allow_expensive, k);
        }
        lemma_extended_len(shorter, ops, shorter.len() as int, ops.len() as int, (len - 1) as nat, i);
    }
}

pub proof fn lemma_extended_len(
    shorter: Seq<Seq<Operator>>,
    ops: Seq<Operator>,
    n: int,
    k: int,
    len: nat,
    i: int,
)
    requires
        0 <= n <= shorter.len(),
        0 <= k <= ops.len(),
        forall|j: int| 0 <= j < shorter.len() ==> (#[trigger] shorter[j]).len() == len,
        0 <= i < extended(shorter, ops, n, k).len(),
    ensures
        extended(shorter, ops, n, k)[i].len() == len + 1,
    decreases n, k,
{
    if n > 0 {
        if k <= 0 {
            lemma_extended_len(shorter, ops, n - 1, ops.len() as int, len, i);
        } else {
            let before = extended(shorter, ops, n, k - 1);
            if i < before.len() {
                lemma_extended_len(shorter, ops, n, k - 1, len, i);
            }
        }
    }
}

/// Whether the operands of an equation can make its target. `None` if
/// there is no operand, or a number leaves the range of `i64` before a row
/// of operators makes the target.
pub open spec fn solvable(target: i64, operands: Seq<i64>, allow_concat: bool) -> Option<bool> {
    if operands.len() == 0 {
        None
    } else {
        let seqs = op_seqs((operands.len() - 1) as nat, allow_concat);
        makes_target(target, operands, seqs, seqs.len() as int)
    }
}

/// Tries every row of operators on an equation.
pub fn can_make(target: i64, operands: &Vec<i64>, allow_concat: bool) -> (r: Option<bool>)
    ensures
        r == solvable(target, operands@, allow_concat),
{
    if operands.len() == 0 {
        return None;
    }
    let seqs = Operator::all_seqs(operands.len() - 1, allow_concat);
    let ghost rows = seqs_view(seqs@);
    let mut n: usize = 0;
    while n < seqs.len()
        invariant
            operands@.len() > 0,
            rows == seqs_view(seqs@),
            rows == op_seqs((operands@.len() - 1) as nat, allow_concat),
            n <= seqs@.len(),
            makes_target(target, operands@, rows, n as int) == Some(false),
        decreases seqs@.len() - n,
    {
        proof {
            assert(rows[n as int] == seqs@[n as int]@);
            lemma_op_seqs_len((operands@.len() - 1) as nat, allow_concat, n as int);
            assert(makes_target(target, operands@, rows, n as int + 1 - 1) == Some(false));
        }
        match evaluate(operands, &seqs[n]) {
            Some(value) => {
                if value == target {
                    proof {
                        lemma_makes_target_settles(
                            target,
                            operands@,
                            rows,
                            n as int + 1,
                            seqs@.len() as int,
                        );
                    }
                    return Some(true);
                }
            },
            None => {
                proof {
                    lemma_makes_target_settles(target, operands@, rows, n as int + 1, seqs@.len() as int);
                }
                return None;
            },
        }
        n += 1;
    }
    Some(false)
}

/// What a line adds to the sum: its target if the operands can make it,
/// and otherwise nothing. `None` if the line is no equation or the
/// equation has no answer.
pub open spec fn counted(line: Seq<char>, allow_concat: bool) -> Option<int> {
    match equation_of(line) {
        Some((target, operands)) => match solvable(target, operands, allow_concat) {
            Some(true) => Some(target as int),
            Some(false) => Some(0),
            None => None,
        },
        None => None,
    }
}

/// The sum of the targets that can be made, over the first `n` lines.
/// `None` if a line is no equation, an equation has no answer, or the sum
/// leaves the range of `i64`.
pub open spec fn calibration(lines: Seq<Seq<char>>, allow_concat: bool, n: int) -> Option<int>
    decreases n,
{
    if n <= 0 {
        Some(0)
    } else {
        add_within(calibration(lines, allow_concat, n - 1), counted(lines[n - 1], allow_concat))
    }
}

/// Works out what a line adds to the sum.
pub fn count_line(line: &String, allow_concat: bool) -> (r: Option<i64>)
    ensures
        known(r) == counted(line@, allow_concat),
{
    match parse_line(line.clone()) {
        Some((target, operands)) => match can_make(target, &operands, allow_concat) {
            Some(true) => Some(target),
            Some(false) => Some(0),
            None => None,
        },
        None => None,
    }
}

/// Whether `r` is the answer for the puzzle text.
pub open spec fn is_answer(text: Seq<char>, allow_concat: bool, r: Option<i64>) -> bool {
    known(r) == calibration(lines_of(text), allow_concat, lines_of(text).len() as int)
}

pub fn day7_base(input: &str, allow_concat: bool) -> (r: Option<i64>)
    ensures
        is_answer(input@, allow_concat, r),
{
    let lines = split_lines(input);
    let ghost texts = lines.deep_view();
    let mut result: Option<i64> = Some(0);
    let mut n: usize = 0;
    while n < lines.len()
        invariant
            texts == lines.deep_view(),
            n <= lines@.len(),
            known(result) == calibration(texts, allow_concat, n as int),
        decreases lines@.len() - n,
    {
        assert(texts[n as int] == lines@[n as int]@);
        result = add_checked(result, count_line(&lines[n], allow_concat));
        n += 1;
    }
    result
}

/// Whether `r` is the answer to the first part for the puzzle text.
pub open spec fn is_solution_a(text: Seq<char>, r: Option<i64>) -> bool {
    is_answer(text, false, r)
}

/// Whether `r` is the answer to the second part for the puzzle text.
pub open spec fn is_solution_b(text: Seq<char>, r: Option<i64>) -> bool {
    is_answer(text, true, r)
}

pub fn day7(input: &str) -> (r: Option<i64>)
    ensures
        is_solution_a(input@, r),
{
    day7_base(input, false)
}

pub fn day7b(input: &str) -> (r: Option<i64>)
    ensures
        is_solution_b(input@, r),
{
    day7_base(input, true)
}

} // verus!
