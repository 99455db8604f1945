//! Reading numbers and records out of text.

use crate::common::text::{chars_of, split_whitespace, string_of, whitespace_fields};
use vstd::prelude::*;

verus! {

/// Whether a character is one of the ten decimal digits.
pub open spec fn is_digit(c: char) -> bool {
    '0' <= c <= '9'
}

/// The value of a decimal digit.
pub open spec fn digit_value(c: char) -> int {
    c as int - '0' as int
}

/// The digit that stands for a value below ten.
pub open spec fn digit_char(d: int) -> char {
    if d == 0 {
        '0'
    } else if d == 1 {
        '1'
    } else if d == 2 {
        '2'
    } else if d == 3 {
        '3'
    } else if d == 4 {
        '4'
    } else if d == 5 {
        '5'
    } else if d == 6 {
        '6'
    } else if d == 7 {
        '7'
    } else if d == 8 {
        '8'
    } else {
        '9'
    }
}

/// A natural number in decimal notation, without leading zeros.
pub open spec fn decimal_text(n: nat) -> Seq<char>
    decreases n,
{
    if n < 10 {
        seq![digit_char(n as int)]
    } else {
        decimal_text(n / 10).push(digit_char((n % 10) as int))
    }
}

/// An integer in decimal notation, with `-` before a negative one.
pub open spec fn signed_text(v: int) -> Seq<char> {
    if v < 0 {
        seq!['-'] + decimal_text((-v) as nat)
    } else {
        decimal_text(v as nat)
    }
}

/// The digit that stands for a value below ten.
pub fn digit_to_char(d: u8) -> (c: char)
    requires
        d <= 9,
    ensures
        c == digit_char(d as int),
        is_digit(c),
        digit_value(c) == d,
{
    match d {
        0 => '0',
        1 => '1',
        2 => '2',
        3 => '3',
        4 => '4',
        5 => '5',
        6 => '6',
        7 => '7',
        8 => '8',
        _ => '9',
    }
}

/// Writes a natural number in decimal notation at the end of `out`.
pub fn push_decimal(out: &mut Vec<char>, n: u64)
    ensures
        final(out)@ == old(out)@ + decimal_text(n as nat),
    decreases n,
{
    if n >= 10 {
        push_decimal(out, n / 10);
    }
    out.push(digit_to_char((n % 10) as u8));
    assert(out@ =~= old(out)@ + decimal_text(n as nat));
}

/// Writes an integer in decimal notation at the end of `out`.
pub fn push_signed(out: &mut Vec<char>, v: i64)
    ensures
        final(out)@ == old(out)@ + signed_text(v as int),
{
    if v < 0 {
        out.push('-');
        let magnitude: u64 = if v == i64::MIN {
            9223372036854775808u64
        } else {
            (-v) as u64
        };
        push_decimal(out, magnitude);
        assert(out@ =~= old(out)@ + signed_text(v as int));
    } else {
        push_decimal(out, v as u64);
    }
}

/// Whether a text is one or more decimal digits.
pub open spec fn all_digits(s: Seq<char>) -> bool {
    s.len() > 0 && forall|i: int| 0 <= i < s.len() ==> is_digit(#[trigger] s[i])
}

/// The number that a run of decimal digits stands for.
pub open spec fn digits_value(s: Seq<char>) -> int
    decreases s.len(),
{
    if s.len() == 0 {
        0
    } else {
        10 * digits_value(s.drop_last()) + digit_value(s.last())
    }
}

/// The integer that a text stands for in decimal notation: one or more
/// digits, which a single `+` or `-` may precede. `None` for any other
/// text.
pub open spec fn decimal(s: Seq<char>) -> Option<int> {
    if s.len() > 0 && s[0] == '-' {
        if all_digits(s.skip(1)) {
            Some(-digits_value(s.skip(1)))
        } else {
            None
        }
    } else if s.len() > 0 && s[0] == '+' {
        if all_digits(s.skip(1)) {
            Some(digits_value(s.skip(1)))
        } else {
            None
        }
    } else if all_digits(s) {
        Some(digits_value(s))
    } else {
        None
    }
}

/// The integer that a text stands for, if it lies between `lo` and `hi`.
pub open spec fn decimal_within(s: Seq<char>, lo: int, hi: int) -> Option<int> {
    match decimal(s) {
        Some(v) => if lo <= v <= hi {
            Some(v)
        } else {
            None
        },
        None => None,
    }
}

/// The natural number that a text stands for, if it is at most `hi`. A
/// text that starts with `-` stands for none.
pub open spec fn natural_within(s: Seq<char>, hi: int) -> Option<int> {
    if s.len() > 0 && s[0] == '-' {
        None
    } else {
        decimal_within(s, 0, hi)
    }
}

/// What a text stands for as an `i64`.
pub open spec fn i64_of(s: Seq<char>) -> Option<int> {
    decimal_within(s, i64::MIN as int, i64::MAX as int)
}

/// What a text stands for as an `i32`.
pub open spec fn i32_of(s: Seq<char>) -> Option<int> {
    decimal_within(s, i32::MIN as int, i32::MAX as int)
}

/// What a text stands for as a `u64`.
pub open spec fn u64_of(s: Seq<char>) -> Option<int> {
    natural_within(s, u64::MAX as int)
}

/// What a text stands for as a `usize`.
pub open spec fn usize_of(s: Seq<char>) -> Option<int> {
    natural_within(s, usize::MAX as int)
}

/// What a text stands for as a `u8`.
pub open spec fn u8_of(s: Seq<char>) -> Option<int> {
    natural_within(s, u8::MAX as int)
}

/// What a text stands for as a `u16`.
pub open spec fn u16_of(s: Seq<char>) -> Option<int> {
    natural_within(s, u16::MAX as int)
}

/// What a text stands for as a `u32`.
pub open spec fn u32_of(s: Seq<char>) -> Option<int> {
    natural_within(s, u32::MAX as int)
}

/// Parses a text with `str::parse::<i128>` of the standard library, which
/// accepts an optional sign followed by decimal digits and refuses a value
/// outside the range of `i128`.
#[verifier::external_body]
fn parse_i128(s: &str) -> (r: Option<i128>)
    ensures
        r is Some <==> decimal_within(s@, i128::MIN as int, i128::MAX as int) is Some,
        r matches Some(v) ==> decimal(s@) == Some(v as int),
{
    s.parse::<i128>().ok()
}

/// Reads an `i64` in decimal notation.
pub fn parse_i64(s: &str) -> (r: Option<i64>)
    ensures
        r is Some <==> i64_of(s@) is Some,
        r matches Some(v) ==> i64_of(s@) == Some(v as int),
{
    match parse_i128(s) {
        Some(v) => if i64::MIN as i128 <= v && v <= i64::MAX as i128 {
            Some(v as i64)
        } else {
            None
        },
        None => None,
    }
}

/// Reads an `i32` in decimal notation.
pub fn parse_i32(s: &str) -> (r: Option<i32>)
    ensures
        r is Some <==> i32_of(s@) is Some,
        r matches Some(v) ==> i32_of(s@) == Some(v as int),
{
    match parse_i128(s) {
        Some(v) => if i32::MIN as i128 <= v && v <= i32::MAX as i128 {
            Some(v as i32)
        } else {
            None
        },
        None => None,
    }
}

/// Reads a `u64` in decimal notation.
pub fn parse_u64(s: &str) -> (r: Option<u64>)
    ensures
        r is Some <==> u64_of(s@) is Some,
        r matches Some(v) ==> u64_of(s@) == Some(v as int),
{
    let chars = chars_of(s);
    if chars.len() > 0 && chars[0] == '-' {
        return None;
    }
    match parse_i128(s) {
        Some(v) => if 0 <= v && v <= u64::MAX as i128 {
            Some(v as u64)
        } else {
            None
        },
        None => None,
    }
}

/// Reads a `usize` in decimal notation.
pub fn parse_usize(s: &str) -> (r: Option<usize>)
    ensures
        r is Some <==> usize_of(s@) is Some,
        r matches Some(v) ==> usize_of(s@) == Some(v as int),
{
    match parse_u64(s) {
        Some(v) => if v <= usize::MAX as u64 {
            Some(v as usize)
        } else {
            None
        },
        None => None,
    }
}

/// Reads a `u8` in decimal notation.
pub fn parse_u8(s: &str) -> (r: Option<u8>)
    ensures
        r is Some <==> u8_of(s@) is Some,
        r matches Some(v) ==> u8_of(s@) == Some(v as int),
{
    match parse_u64(s) {
        Some(v) => if v <= u8::MAX as u64 {
            Some(v as u8)
        } else {
            None
        },
        None => None,
    }
}

/// Reads a `u16` in decimal notation.
pub fn parse_u16(s: &str) -> (r: Option<u16>)
    ensures
        r is Some <==> u16_of(s@) is Some,
        r matches Some(v) ==> u16_of(s@) == Some(v as int),
{
    match parse_u64(s) {
        Some(v) => if v <= u16::MAX as u64 {
            Some(v as u16)
        } else {
            None
        },
        None => None,
    }
}

/// Reads a `u32` in decimal notation.
pub fn parse_u32(s: &str) -> (r: Option<u32>)
    ensures
        r is Some <==> u32_of(s@) is Some,
        r matches Some(v) ==> u32_of(s@) == Some(v as int),
{
    match parse_u64(s) {
        Some(v) => if v <= u32::MAX as u64 {
            Some(v as u32)
        } else {
            None
        },
        None => None,
    }
}

/// The values of the characters of a line, if each is a decimal digit.
pub open spec fn digit_row(line: Seq<char>) -> Option<Seq<i64>> {
    if forall|i: int| 0 <= i < line.len() ==> is_digit(#[trigger] line[i]) {
        Some(Seq::new(line.len(), |i: int| digit_value(line[i]) as i64))
    } else {
        None
    }
}

/// Reads one character as a decimal digit.
pub fn parse_digit(c: char) -> (r: Option<u8>)
    ensures
        r is Some <==> is_digit(c),
        r matches Some(d) ==> d == digit_value(c) && d <= 9,
{
    if '0' <= c && c <= '9' {
        Some((c as u32 - '0' as u32) as u8)
    } else {
        None
    }
}

/// Reads every character of a line as a decimal digit; `None` if one of
/// them is none.
pub fn parse_digit_row(line: &str) -> (r: Option<Vec<i64>>)
    ensures
        r.deep_view() == digit_row(line@),
{
    let chars = chars_of(line);
    let mut out: Vec<i64> = Vec::new();
    let mut i: usize = 0;
    while i < chars.len()
        invariant
            chars@ == line@,
            i <= chars@.len(),
            out@.len() == i,
            forall|k: int| 0 <= k < i ==> is_digit(#[trigger] line@[k]) && out@[k] == digit_value(line@[k]),
        decreases chars@.len() - i,
    {
        match parse_digit(chars[i]) {
            Some(d) => {
                out.push(d as i64);
            },
            None => {
                return None;
            },
        }
        i += 1;
    }
    assert(out.deep_view() =~= digit_row(line@)->0);
    Some(out)
}

/// The rows of digits that the lines stand for, if every character is a
/// decimal digit.
pub open spec fn digit_rows(lines: Seq<Seq<char>>) -> Option<Seq<Seq<i64>>> {
    if forall|i: int| 0 <= i < lines.len() ==> (#[trigger] digit_row(lines[i])) is Some {
        Some(Seq::new(lines.len(), |i: int| digit_row(lines[i])->0))
    } else {
        None
    }
}

/// Reads every line as a row of decimal digits.
pub fn parse_digit_rows(lines: &Vec<String>) -> (r: Option<Vec<Vec<i64>>>)
    ensures
        r.deep_view() == digit_rows(lines.deep_view()),
{
    let ghost texts = lines.deep_view();
    let mut out: Vec<Vec<i64>> = Vec::new();
    let mut i: usize = 0;
    while i < lines.len()
        invariant
            texts == lines.deep_view(),
            i <= lines@.len(),
            out@.len() == i,
            forall|k: int| 0 <= k < i ==> (#[trigger] digit_row(texts[k])) == Some(out@[k].deep_view()),
        decreases lines@.len() - i,
    {
        assert(texts[i as int] == lines@[i as int]@);
        match parse_digit_row(lines[i].as_str()) {
            Some(row) => {
                out.push(row);
            },
            None => {
                return None;
            },
        }
        i += 1;
    }
    assert(out.deep_view() =~= digit_rows(texts)->0);
    Some(out)
}

/// The numbers that the fields stand for, if each of them stands for an
/// `i64`.
pub open spec fn all_i64(fields: Seq<Seq<char>>) -> Option<Seq<i64>> {
    if forall|i: int| 0 <= i < fields.len() ==> (#[trigger] i64_of(fields[i])) is Some {
        Some(Seq::new(fields.len(), |i: int| i64_of(fields[i])->0 as i64))
    } else {
        None
    }
}

/// Reads every field as an `i64`; `None` if one of them is no number.
pub fn parse_all_i64(fields: &Vec<String>) -> (r: Option<Vec<i64>>)
    ensures
        r.deep_view() == all_i64(fields.deep_view()),
{
    let ghost texts = fields.deep_view();
    let mut out: Vec<i64> = Vec::new();
    let mut i: usize = 0;
    while i < fields.len()
        invariant
            texts == fields.deep_view(),
            i <= fields@.len(),
            out@.len() == i,
            forall|k: int| 0 <= k < i ==> (#[trigger] i64_of(texts[k])) == Some(out@[k] as int),
        decreases fields@.len() - i,
    {
        assert(texts[i as int] == fields@[i as int]@);
        match parse_i64(fields[i].as_str()) {
            Some(v) => {
                out.push(v);
            },
            None => {
                assert(!(i64_of(texts[i as int]) is Some));
                return None;
            },
        }
        i += 1;
    }
    assert(out.deep_view() =~= all_i64(texts)->0);
    Some(out)
}

/// The pairs that the records stand for, if each record has two fields
/// and each field stands for an `i64`.
pub open spec fn pairs_of(records: Seq<Seq<Seq<char>>>) -> Option<Seq<(i64, i64)>> {
    if forall|i: int|
        0 <= i < records.len() ==> (#[trigger] records[i]).len() == 2 && i64_of(records[i][0]) is Some
            && i64_of(records[i][1]) is Some {
        Some(
            Seq::new(
                records.len(),
                |i: int| (i64_of(records[i][0])->0 as i64, i64_of(records[i][1])->0 as i64),
            ),
        )
    } else {
        None
    }
}

/// Reads records of two numbers each. `None` if a record has not exactly
/// two fields or a field is no number.
pub fn parse_as_ii(input: Vec<Vec<String>>) -> (r: Option<Vec<(i64, i64)>>)
    ensures
        r.deep_view() == pairs_of(input.deep_view()),
{
    let ghost records = input.deep_view();
    let mut result: Vec<(i64, i64)> = Vec::new();
    let mut i: usize = 0;
    while i < input.len()
        invariant
            records == input.deep_view(),
            i <= input@.len(),
            result@.len() == i,
            forall|k: int|
                0 <= k < i ==> (#[trigger] records[k]).len() == 2 && i64_of(records[k][0]) == Some(
                    result@[k].0 as int,
                ) && i64_of(records[k][1]) == Some(result@[k].1 as int),
        decreases input@.len() - i,
    {
        let record = &input[i];
        assert(records[i as int] == record.deep_view());
        if record.len() != 2 {
            return None;
        }
        assert(records[i as int][0] == record@[0]@);
        assert(records[i as int][1] == record@[1]@);
        match (parse_i64(record[0].as_str()), parse_i64(record[1].as_str())) {
            (Some(a), Some(b)) => {
                result.push((a, b));
            },
            _ => {
                return None;
            },
        }
        i += 1;
    }
    assert(result.deep_view() =~= pairs_of(records)->0);
    Some(result)
}

/// The rows of numbers that the records stand for, if every field stands
/// for an `i64`.
pub open spec fn rows_of(records: Seq<Seq<Seq<char>>>) -> Option<Seq<Seq<i64>>> {
    if forall|i: int| 0 <= i < records.len() ==> (#[trigger] all_i64(records[i])) is Some {
        Some(Seq::new(records.len(), |i: int| all_i64(records[i])->0))
    } else {
        None
    }
}

/// Reads records of numbers. `None` if a field is no number.
pub fn parse_as_i32s(input: Vec<Vec<String>>) -> (r: Option<Vec<Vec<i64>>>)
    ensures
        r.deep_view() == rows_of(input.deep_view()),
{
    let ghost records = input.deep_view();
    let mut result: Vec<Vec<i64>> = Vec::new();
    let mut i: usize = 0;
    while i < input.len()
        invariant
            records == input.deep_view(),
            i <= input@.len(),
            result@.len() == i,
            forall|k: int|
                0 <= k < i ==> (#[trigger] all_i64(records[k])) == Some(result@[k].deep_view()),
        decreases input@.len() - i,
    {
        assert(records[i as int] == input@[i as int].deep_view());
        match parse_all_i64(&input[i]) {
            Some(row) => {
                result.push(row);
            },
            None => {
                return None;
            },
        }
        i += 1;
    }
    assert(result.deep_view() =~= rows_of(records)->0);
    Some(result)
}

/// Every `stride`-th character of `s`, starting with the one at `start`.
pub open spec fn strided(s: Seq<char>, start: int, stride: int) -> Seq<char>
    decreases s.len() - start,
{
    if 0 <= start < s.len() && 0 < stride {
        if start + stride < s.len() {
            strided(s, start + stride, stride).insert(0, s[start])
        } else {
            seq![s[start]]
        }
    } else {
        Seq::empty()
    }
}

/// The character at `start` and every `stride`-th character after it.
pub fn stride_text(input: &str, start: usize, stride: usize) -> (r: String)
    requires
        start < input@.len(),
        stride >= 1,
    ensures
        r@ == strided(input@, start as int, stride as int),
{
    let chars = chars_of(input);
    let mut line: Vec<char> = Vec::new();
    let mut pos: usize = start;
    let n = chars.len();
    while pos < n
        invariant
            chars@ == input@,
            n == chars@.len(),
            stride >= 1,
            line@ + strided(input@, pos as int, stride as int) == strided(
                input@,
                start as int,
                stride as int,
            ),
        decreases n - pos,
    {
        let ghost rest = strided(input@, pos as int + stride as int, stride as int);
        assert(strided(input@, pos as int, stride as int) =~= rest.insert(0, chars@[pos as int]));
        assert(line@.push(chars@[pos as int]) + rest =~= line@ + rest.insert(0, chars@[pos as int]));
        line.push(chars[pos]);
        if stride >= n - pos {
            assert(line@ =~= strided(input@, start as int, stride as int));
            return string_of(&line);
        }
        pos += stride;
    }
    assert(line@ =~= strided(input@, start as int, stride as int));
    string_of(&line)
}

/// The records of a text: the white-space separated fields of each line.
pub open spec fn records_of(lines: Seq<Seq<char>>) -> Seq<Seq<Seq<char>>> {
    lines.map_values(|line: Seq<char>| whitespace_fields(line))
}

/// Splits each line into its white-space separated fields.
pub fn split_records(lines: &Vec<String>) -> (r: Vec<Vec<String>>)
    ensures
        r.deep_view() == records_of(lines.deep_view()),
{
    let mut result: Vec<Vec<String>> = Vec::new();
    let mut i: usize = 0;
    while i < lines.len()
        invariant
            i <= lines@.len(),
            result@.len() == i,
            forall|k: int|
                0 <= k < i ==> (#[trigger] result@[k]).deep_view() == whitespace_fields(lines@[k]@),
        decreases lines@.len() - i,
    {
        result.push(split_whitespace(lines[i].as_str()));
        i += 1;
    }
    assert(result.deep_view() =~= records_of(lines.deep_view()));
    result
}

/// What `Regex::captures_iter` finds in a text for a pattern: for each
/// match, one after the other, the text of every capture group, the whole
/// match first, with `None` for a group that took no part in the match.
/// `None` as a whole where `Regex::new` refuses the pattern.
pub uninterp spec fn regex_captures(pattern: Seq<char>, text: Seq<char>) -> Option<
    Seq<Seq<Option<Seq<char>>>>,
>;

/// Compiles the pattern with `Regex::new` and collects what
/// `Regex::captures_iter` yields on the text. The contract gives the
/// result its name and states no more of it.
#[verifier::external_body]
fn capture_groups(pattern: &str, text: &str) -> (r: Option<Vec<Vec<Option<String>>>>)
    ensures
        r.deep_view() == regex_captures(pattern@, text@),
{
    let re = regex::Regex::new(pattern).ok()?;
    Some(
        re.captures_iter(text).map(
            |found| found.iter().map(|group| group.map(|m| m.as_str().to_string())).collect(),
        ).collect(),
    )
}

/// The groups of one match that took part in it, in order.
pub open spec fn present_groups(groups: Seq<Option<Seq<char>>>) -> Seq<Seq<char>>
    decreases groups.len(),
{
    if groups.len() == 0 {
        Seq::empty()
    } else {
        let before = present_groups(groups.drop_last());
        match groups.last() {
            Some(text) => before.push(text),
            None => before,
        }
    }
}

/// The records that a list of matches gives: for each match the groups
/// that took part in it.
pub open spec fn records_of_matches(found: Seq<Seq<Option<Seq<char>>>>) -> Seq<Seq<Seq<char>>> {
    found.map_values(|groups: Seq<Option<Seq<char>>>| present_groups(groups))
}

/// Drops from each match the groups that took no part in it.
pub fn records_from_matches(found: &Vec<Vec<Option<String>>>) -> (r: Vec<Vec<String>>)
    ensures
        r.deep_view() == records_of_matches(found.deep_view()),
{
    let ghost all = found.deep_view();
    let mut result: Vec<Vec<String>> = Vec::new();
    let mut i: usize = 0;
    while i < found.len()
        invariant
            all == found.deep_view(),
            i <= found@.len(),
            result@.len() == i,
            forall|k: int| 0 <= k < i ==> (#[trigger] result@[k]).deep_view() == present_groups(all[k]),
        decreases found@.len() - i,
    {
        let groups = &found[i];
        let ghost texts = groups.deep_view();
        assert(all[i as int] == texts);
        let mut fields: Vec<String> = Vec::new();
        let mut j: usize = 0;
        assert(texts.take(0) =~= Seq::empty());
        while j < groups.len()
            invariant
                texts == groups.deep_view(),
                j <= groups@.len(),
                fields.deep_view() == present_groups(texts.take(j as int)),
            decreases groups@.len() - j,
        {
            assert(texts.take(j as int + 1).drop_last() =~= texts.take(j as int));
            assert(texts.take(j as int + 1).last() == groups@[j as int].deep_view());
            let ghost before = fields.deep_view();
            if let Some(text) = &groups[j] {
                fields.push(text.clone());
                assert(fields.deep_view() =~= before.push(text@));
            }
            j += 1;
        }
        assert(texts.take(groups@.len() as int) =~= texts);
        result.push(fields);
        i += 1;
    }
    assert(result.deep_view() =~= records_of_matches(all));
    result
}

/// The records that a pattern finds in a text: one record for each match,
/// holding the whole match and then the text of each capture group that
/// took part in it. `None` where the pattern is refused.
pub fn read_regex_records(input: &str, record_regex: &str) -> (r: Option<Vec<Vec<String>>>)
    ensures
        r.deep_view() == match regex_captures(record_regex@, input@) {
            Some(found) => Some(records_of_matches(found)),
            None => None,
        },
{
    match capture_groups(record_regex, input) {
        Some(found) => Some(records_from_matches(&found)),
        None => None,
    }
}

} // verus!
