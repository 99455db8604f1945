//! A worksheet holds rows of numbers and a row of operators. Each column
//! of numbers is added up or multiplied as its operator says, and the
//! puzzle asks for the sum of the results.

use crate::common::arith::{checked_product, checked_sum, product_i64, sum_i64};
use crate::common::arraylike::{
    lemma_deep_view_rows, lemma_is_transpose, lemma_transposed_seen_through, rows_of, seen_through,
    transpose, transpose_strings, transposed,
};
use crate::common::parsing::{
    all_i64, i64_of, parse_all_i64, parse_i64, records_of, split_records,
};
use crate::common::text::{chars_of, lines_of, split_lines};
use vstd::prelude::*;

verus! {

#[derive(Debug, Clone, Copy, PartialEq, Eq, Structural)]
pub enum Op {
    Add,
    Mul,
}

/// The operator that a field stands for: `+` or `*`.
pub open spec fn op_of(field: Seq<char>) -> Option<Op> {
    if field == seq!['+'] {
        Some(Op::Add)
    } else if field == seq!['*'] {
        Some(Op::Mul)
    } else {
        None
    }
}

/// The operators that the fields stand for, if each stands for one.
pub open spec fn ops_of(fields: Seq<Seq<char>>) -> Option<Seq<Op>> {
    if forall|i: int| 0 <= i < fields.len() ==> (#[trigger] op_of(fields[i])) is Some {
        Some(Seq::new(fields.len(), |i: int| op_of(fields[i])->0))
    } else {
        None
    }
}

/// Reads one field as an operator.
pub fn parse_op(field: &str) -> (r: Option<Op>)
    ensures
        r == op_of(field@),
{
    let chars = chars_of(field);
    if chars.len() != 1 {
        assert(field@ != seq!['+'] && field@ != seq!['*']);
        return None;
    }
    if chars[0] == '+' {
        assert(field@ =~= seq!['+']);
        Some(Op::Add)
    } else if chars[0] == '*' {
        assert(field@ =~= seq!['*']);
        assert(seq!['*'][0] != seq!['+'][0]);
        Some(Op::Mul)
    } else {
        assert(field@[0] != seq!['+'][0] && field@[0] != seq!['*'][0]);
        None
    }
}

/// Reads every field as an operator.
pub fn parse_ops(fields: &Vec<String>) -> (r: Option<Vec<Op>>)
    ensures
        match ops_of(fields.deep_view()) {
            Some(ops) => r is Some && r->0@ == ops,
            None => r is None,
        },
{
    let ghost texts = fields.deep_view();
    let mut out: Vec<Op> = Vec::new();
    let mut i: usize = 0;
    while i < fields.len()
        invariant
            texts == fields.deep_view(),
            i <= fields@.len(),
            out@.len() == i,
            forall|k: int| 0 <= k < i ==> (#[trigger] op_of(texts[k])) == Some(out@[k]),
        decreases fields@.len() - i,
    {
        assert(texts[i as int] == fields@[i as int]@);
        match parse_op(fields[i].as_str()) {
            Some(op) => {
                out.push(op);
            },
            None => {
                return None;
            },
        }
        i += 1;
    }
    assert(out@ =~= ops_of(texts)->0);
    Some(out)
}

/// A worksheet: rows of numbers, and the operators of the columns.
#[derive(Debug)]
pub struct PuzzleInput {
    pub numbers: Vec<Vec<i64>>,
    pub ops: Vec<Op>,
}

/// What the first `n` records hold. A record whose first field is a number
/// is a row of numbers; any other record gives the operators, the last
/// such record counting. `None` if a record is empty, a row of numbers
/// holds a field that is no number, or a row of operators a field that is
/// no operator.
pub open spec fn worksheet(records: Seq<Seq<Seq<char>>>, n: int) -> Option<
    (Seq<Seq<i64>>, Seq<Op>),
>
    decreases n,
{
    if n <= 0 {
        Some((Seq::empty(), Seq::empty()))
    } else {
        match worksheet(records, n - 1) {
            Some((numbers, ops)) => {
                let line = records[n - 1];
                if line.len() == 0 {
                    None
                } else if i64_of(line[0]) is Some {
                    match all_i64(line) {
                        Some(row) => Some((numbers.push(row), ops)),
                        None => None,
                    }
                } else {
                    match ops_of(line) {
                        Some(found) => Some((numbers, found)),
                        None => None,
                    }
                }
            },
            None => None,
        }
    }
}

pub proof fn lemma_worksheet_stays_lost(records: Seq<Seq<Seq<char>>>, n: int, m: int)
    requires
        0 <= n <= m,
        worksheet(records, n) is None,
    ensures
        worksheet(records, m) is None,
    decreases m - n,
{
    if n < m {
        lemma_worksheet_stays_lost(records, n, m - 1);
    }
}

/// Reads the records of a worksheet.
pub fn parse_input(records: &Vec<Vec<String>>) -> (r: Option<PuzzleInput>)
    ensures
        match worksheet(records.deep_view(), records@.len() as int) {
            Some((numbers, ops)) => r is Some && r->0.numbers.deep_view() == numbers && r->0.ops@
                == ops,
            None => r is None,
        },
{
    let ghost all = records.deep_view();
    let mut numbers: Vec<Vec<i64>> = Vec::new();
    let mut ops: Vec<Op> = Vec::new();
    let mut i: usize = 0;
    assert(numbers.deep_view() =~= Seq::<Seq<i64>>::empty());
    while i < records.len()
        invariant
            all == records.deep_view(),
            i <= records@.len(),
            worksheet(all, i as int) == Some((numbers.deep_view(), ops@)),
        decreases records@.len() - i,
    {
        let line = &records[i];
        let ghost fields = line.deep_view();
        let ghost before = numbers.deep_view();
        assert(all[i as int] == fields);
        assert(worksheet(all, i as int + 1 - 1) == Some((before, ops@)));
        if line.len() == 0 {
            proof {
                lemma_worksheet_stays_lost(all, i as int + 1, records@.len() as int);
            }
            return None;
        }
        assert(fields[0] == line@[0]@);
        if parse_i64(line[0].as_str()).is_some() {
            match parse_all_i64(line) {
                Some(row) => {
                    numbers.push(row);
                    assert(numbers.deep_view() =~= before.push(row.deep_view()));
                },
                None => {
                    proof {
                        lemma_worksheet_stays_lost(all, i as int + 1, records@.len() as int);
                    }
                    return None;
                },
            }
        } else {
            match parse_ops(line) {
                Some(found) => {
                    ops = found;
                },
                None => {
                    proof {
                        lemma_worksheet_stays_lost(all, i as int + 1, records@.len() as int);
                    }
                    return None;
                },
            }
        }
        i += 1;
    }
    Some(PuzzleInput { numbers, ops })
}

/// The records of the puzzle text: the fields of each line.
pub open spec fn text_records(text: Seq<char>) -> Seq<Seq<Seq<char>>> {
    records_of(lines_of(text))
}

/// Reads the worksheet of the puzzle text.
pub fn read_input(input: &str) -> (r: Option<PuzzleInput>)
    ensures
        match worksheet(text_records(input@), text_records(input@).len() as int) {
            Some((numbers, ops)) => r is Some && r->0.numbers.deep_view() == numbers && r->0.ops@
                == ops,
            None => r is None,
        },
{
    let records = split_records(&split_lines(input));
    parse_input(&records)
}

/// The result of column `i`: the sum or the product of its numbers, as its
/// operator says. `None` if there is no such column or the result leaves
/// the range of `i64`.
pub open spec fn col_total(numbers: Seq<Seq<i64>>, ops: Seq<Op>, i: int) -> Option<int> {
    if 0 <= i < numbers.len() && 0 <= i < ops.len() {
        match ops[i] {
            Op::Add => checked_sum(numbers[i]),
            Op::Mul => checked_product(numbers[i]),
        }
    } else {
        None
    }
}

/// The results of all columns, one for each operator. `None` if one of
/// them is `None`.
pub open spec fn totals_of(numbers: Seq<Seq<i64>>, ops: Seq<Op>) -> Option<Seq<i64>> {
    if forall|i: int| 0 <= i < ops.len() ==> (#[trigger] col_total(numbers, ops, i)) is Some {
        Some(Seq::new(ops.len(), |i: int| col_total(numbers, ops, i)->0 as i64))
    } else {
        None
    }
}

/// Works out each column as its operator says.
pub fn col_totals(numbers: &Vec<Vec<i64>>, ops: &Vec<Op>) -> (r: Option<Vec<i64>>)
    ensures
        match totals_of(numbers.deep_view(), ops@) {
            Some(totals) => r is Some && r->0@ == totals,
            None => r is None,
        },
{
    let ghost columns = numbers.deep_view();
    let mut totals: Vec<i64> = Vec::new();
    let mut col_idx: usize = 0;
    while col_idx < ops.len()
        invariant
            columns == numbers.deep_view(),
            col_idx <= ops@.len(),
            totals@.len() == col_idx,
            forall|k: int|
                0 <= k < col_idx ==> (#[trigger] col_total(columns, ops@, k)) == Some(totals@[k] as int),
        decreases ops@.len() - col_idx,
    {
        if col_idx >= numbers.len() {
            assert(col_total(columns, ops@, col_idx as int) is None);
            return None;
        }
        let col = &numbers[col_idx];
        assert(columns[col_idx as int] =~= col@);
        let total = match ops[col_idx] {
            Op::Add => sum_i64(col),
            Op::Mul => product_i64(col),
        };
        match total {
            Some(t) => {
                totals.push(t);
            },
            None => {
                assert(col_total(columns, ops@, col_idx as int) is None);
                return None;
            },
        }
        col_idx += 1;
    }
    assert(totals@ =~= totals_of(columns, ops@)->0);
    Some(totals)
}

/// The grand total of a worksheet whose columns are given.
pub open spec fn grand_total(columns: Seq<Seq<i64>>, ops: Seq<Op>) -> Option<int> {
    match totals_of(columns, ops) {
        Some(totals) => checked_sum(totals),
        None => None,
    }
}

/// The answer to the first part for a worksheet: its rows are turned into
/// columns and the results of the columns are added up. `None` if there is
/// no row, a row is longer than the first, or a number leaves the range of
/// `i64`.
pub open spec fn answer_a(numbers: Seq<Seq<i64>>, ops: Seq<Op>) -> Option<int> {
    if numbers.len() > 0 && forall|i: int|
        0 <= i < numbers.len() ==> (#[trigger] numbers[i]).len() <= numbers[0].len() {
        grand_total(transposed(numbers), ops)
    } else {
        None
    }
}

/// Solves the first part for a worksheet.
pub fn solve_a(puzzle: &PuzzleInput) -> (r: Option<i64>)
    ensures
        match answer_a(puzzle.numbers.deep_view(), puzzle.ops@) {
            Some(total) => r is Some && r->0 == total,
            None => r is None,
        },
{
    let ghost rows = puzzle.numbers.deep_view();
    if puzzle.numbers.len() == 0 {
        return None;
    }
    let width = puzzle.numbers[0].len();
    assert(rows[0] =~= puzzle.numbers@[0]@);
    let mut i: usize = 0;
    while i < puzzle.numbers.len()
        invariant
            rows == puzzle.numbers.deep_view(),
            i <= puzzle.numbers@.len(),
            width == rows[0].len(),
            puzzle.numbers@.len() > 0,
            forall|k: int| 0 <= k < i ==> (#[trigger] rows[k]).len() <= width,
        decreases puzzle.numbers@.len() - i,
    {
        assert(rows[i as int] =~= puzzle.numbers@[i as int]@);
        if puzzle.numbers[i].len() > width {
            return None;
        }
        i += 1;
    }
    let pivoted_numbers = transpose(puzzle.numbers.as_slice());
    proof {
        lemma_deep_view_rows(puzzle.numbers);
        lemma_deep_view_rows(pivoted_numbers);
        lemma_is_transpose(rows, rows_of(pivoted_numbers@));
    }
    match col_totals(&pivoted_numbers, &puzzle.ops) {
        Some(totals) => sum_i64(&totals),
        None => None,
    }
}

/// Whether `r` is the answer to the first part for the puzzle text.
pub open spec fn is_solution_a(text: Seq<char>, r: Option<i64>) -> bool {
    match worksheet(text_records(text), text_records(text).len() as int) {
        Some((numbers, ops)) => match answer_a(numbers, ops) {
            Some(total) => r is Some && r->0 == total,
            None => r is None,
        },
        None => r is None,
    }
}

pub fn solution_a(input: &str) -> (r: Option<i64>)
    ensures
        is_solution_a(input@, r),
{
    match read_input(input) {
        Some(puzzle) => solve_a(&puzzle),
        None => None,
    }
}


/// What the first `n` records hold, the rows of numbers as they are
/// written. A record whose first field is a number is such a row; any
/// other record gives the operators. `None` if a record is empty or a row
/// of operators holds a field that is no operator.
pub open spec fn written_worksheet(records: Seq<Seq<Seq<char>>>, n: int) -> Option<
    (Seq<Seq<Seq<char>>>, Seq<Op>),
>
    decreases n,
{
    if n <= 0 {
        Some((Seq::empty(), Seq::empty()))
    } else {
        match written_worksheet(records, n - 1) {
            Some((rows, ops)) => {
                let line = records[n - 1];
                if line.len() == 0 {
                    None
                } else if i64_of(line[0]) is Some {
                    Some((rows.push(line), ops))
                } else {
                    match ops_of(line) {
                        Some(found) => Some((rows, found)),
                        None => None,
                    }
                }
            },
            None => None,
        }
    }
}

pub proof fn lemma_written_worksheet_stays_lost(records: Seq<Seq<Seq<char>>>, n: int, m: int)
    requires
        0 <= n <= m,
        written_worksheet(records, n) is None,
    ensures
        written_worksheet(records, m) is None,
    decreases m - n,
{
    if n < m {
        lemma_written_worksheet_stays_lost(records, n, m - 1);
    }
}

/// The numbers that the columns of a written worksheet give when each is
/// read downward: the texts of one column are transposed, so that text `i`
/// holds character `i` of every number of the column that has one, and
/// each such text is read as a number. `None` if one of them is no number.
pub open spec fn numbers_read_down(rows: Seq<Seq<Seq<char>>>) -> Option<Seq<Seq<i64>>> {
    let columns = transposed(rows);
    if forall|i: int| 0 <= i < columns.len() ==> (#[trigger] all_i64(transposed(columns[i]))) is Some {
        Some(Seq::new(columns.len(), |i: int| all_i64(transposed(columns[i]))->0))
    } else {
        None
    }
}

/// The characters of a text.
pub open spec fn text_of<'a>() -> spec_fn(&'a str) -> Seq<char> {
    |s: &'a str| s@
}

/// Reads the numbers of a written worksheet downward, column by column.
pub fn read_down(numbers_strings: &Vec<Vec<String>>) -> (r: Option<Vec<Vec<i64>>>)
    ensures
        r.deep_view() == numbers_read_down(numbers_strings.deep_view()),
{
    let ghost rows = numbers_strings.deep_view();
    let mut borrowed: Vec<Vec<&str>> = Vec::new();
    let mut i: usize = 0;
    while i < numbers_strings.len()
        invariant
            rows == numbers_strings.deep_view(),
            i <= numbers_strings@.len(),
            borrowed@.len() == i,
            forall|k: int| 0 <= k < i ==> (#[trigger] borrowed@[k])@.map_values(text_of()) == rows[k],
        decreases numbers_strings@.len() - i,
    {
        let line = &numbers_strings[i];
        let mut fields: Vec<&str> = Vec::new();
        let mut j: usize = 0;
        while j < line.len()
            invariant
                j <= line@.len(),
                fields@.len() == j,
                forall|k: int| 0 <= k < j ==> (#[trigger] fields@[k])@ == line@[k]@,
            decreases line@.len() - j,
        {
            fields.push(line[j].as_str());
            j += 1;
        }
        assert(rows[i as int] == line.deep_view());
        assert(fields@.map_values(text_of()) =~= line.deep_view());
        borrowed.push(fields);
        i += 1;
    }
    let columns = transpose(borrowed.as_slice());
    proof {
        assert(seen_through(rows_of(borrowed@), text_of()) =~= rows);
        lemma_is_transpose(rows_of(borrowed@), rows_of(columns@));
        lemma_transposed_seen_through(rows_of(borrowed@), text_of());
    }
    let ghost wanted = transposed(rows);
    assert(wanted == seen_through(rows_of(columns@), text_of()));
    let mut numbers: Vec<Vec<i64>> = Vec::new();
    let mut c: usize = 0;
    while c < columns.len()
        invariant
            rows == numbers_strings.deep_view(),
            wanted == transposed(rows),
            wanted == seen_through(rows_of(columns@), text_of()),
            c <= columns@.len(),
            numbers@.len() == c,
            forall|k: int|
                0 <= k < c ==> (#[trigger] all_i64(transposed(wanted[k]))) == Some(
                    numbers@[k].deep_view(),
                ),
        decreases columns@.len() - c,
    {
        let column = &columns[c];
        let texts = transpose_strings(column.as_slice());
        proof {
            assert(wanted[c as int] == rows_of(columns@)[c as int].map_values(text_of()));
            assert(column.deep_view() =~= column@.map_values(text_of()));
            lemma_is_transpose(column.deep_view(), texts.deep_view());
        }
        match parse_all_i64(&texts) {
            Some(row) => {
                numbers.push(row);
            },
            None => {
                assert(texts.deep_view() == transposed(wanted[c as int]));
                assert(all_i64(transposed(wanted[c as int])) is None);
                assert(0 <= c < wanted.len());
                return None;
            },
        }
        c += 1;
    }
    assert(numbers.deep_view() =~= numbers_read_down(rows)->0);
    Some(numbers)
}

/// Reads the records of a worksheet whose numbers are written downward.
pub fn parse_input_transposed(records: &Vec<Vec<String>>) -> (r: Option<PuzzleInput>)
    ensures
        match written_worksheet(records.deep_view(), records@.len() as int) {
            Some((rows, ops)) => match numbers_read_down(rows) {
                Some(numbers) => r is Some && r->0.numbers.deep_view() == numbers && r->0.ops@ == ops,
                None => r is None,
            },
            None => r is None,
        },
{
    let ghost all = records.deep_view();
    let mut numbers_strings: Vec<Vec<String>> = Vec::new();
    let mut ops: Vec<Op> = Vec::new();
    let mut i: usize = 0;
    assert(numbers_strings.deep_view() =~= Seq::<Seq<Seq<char>>>::empty());
    while i < records.len()
        invariant
            all == records.deep_view(),
            i <= records@.len(),
            written_worksheet(all, i as int) == Some((numbers_strings.deep_view(), ops@)),
        decreases records@.len() - i,
    {
        let line = &records[i];
        let ghost fields = line.deep_view();
        let ghost before = numbers_strings.deep_view();
        assert(all[i as int] == fields);
        assert(written_worksheet(all, i as int + 1 - 1) == Some((before, ops@)));
        if line.len() == 0 {
            proof {
                lemma_written_worksheet_stays_lost(all, i as int + 1, records@.len() as int);
            }
            return None;
        }
        assert(fields[0] == line@[0]@);
        if parse_i64(line[0].as_str()).is_some() {
            let copy = line.clone();
            assert(copy.deep_view() =~= fields) by {
                assert(copy@.len() == line@.len());
                assert forall|k: int| 0 <= k < line@.len() implies copy@[k]@ == line@[k]@ by {
                    assert(vstd::pervasive::cloned::<String>(line@[k], copy@[k]));
                }
            }
            numbers_strings.push(copy);
            assert(numbers_strings.deep_view() =~= before.push(fields));
        } else {
            match parse_ops(line) {
                Some(found) => {
                    ops = found;
                },
                None => {
                    proof {
                        lemma_written_worksheet_stays_lost(all, i as int + 1, records@.len() as int);
                    }
                    return None;
                },
            }
        }
        i += 1;
    }
    match read_down(&numbers_strings) {
        Some(numbers) => Some(PuzzleInput { numbers, ops }),
        None => None,
    }
}

/// Reads the worksheet of the puzzle text, its numbers written downward.
pub fn read_input_transposed(input: &str) -> (r: Option<PuzzleInput>)
    ensures
        match written_worksheet(text_records(input@), text_records(input@).len() as int) {
            Some((rows, ops)) => match numbers_read_down(rows) {
                Some(numbers) => r is Some && r->0.numbers.deep_view() == numbers && r->0.ops@ == ops,
                None => r is None,
            },
            None => r is None,
        },
{
    let records = split_records(&split_lines(input));
    parse_input_transposed(&records)
}

/// The answer to the second part for the puzzle text.
pub open spec fn answer_b(text: Seq<char>) -> Option<int> {
    match written_worksheet(text_records(text), text_records(text).len() as int) {
        Some((rows, ops)) => match numbers_read_down(rows) {
            Some(numbers) => grand_total(numbers, ops),
            None => None,
        },
        None => None,
    }
}

/// Whether `r` is the answer to the second part for the puzzle text.
pub open spec fn is_solution_b(text: Seq<char>, r: Option<i64>) -> bool {
    match answer_b(text) {
        Some(total) => r is Some && r->0 == total,
        None => r is None,
    }
}

pub fn solution_b(input: &str) -> (r: Option<i64>)
    ensures
        is_solution_b(input@, r),
{
    match read_input_transposed(input) {
        Some(puzzle) => match col_totals(&puzzle.numbers, &puzzle.ops) {
            Some(totals) => sum_i64(&totals),
            None => None,
        },
        None => None,
    }
}

} // verus!
