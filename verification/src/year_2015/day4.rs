//! A number is sought that, written after a given key, gives a text whose
//! MD5 digest starts with a run of zeros in hexadecimal notation.

use crate::common::parsing::{decimal_text, push_decimal};
use crate::common::text::{chars_of, string_of};
use vstd::prelude::*;

verus! {

/// The MD5 digest of a text in UTF-8, as 32 hexadecimal digits in lower
/// case: what `md5::compute` returns, written with `{:x}`.
pub uninterp spec fn md5_hex(data: Seq<char>) -> Seq<char>;

/// Computes the digest of the text with `md5::compute` and writes it in
/// hexadecimal notation. The contract gives the result its name and states
/// no more of it.
#[verifier::external_body]
fn md5_hex_digest(data: &str) -> (r: String)
    ensures
        r@ == md5_hex(data@),
{
    format!("{:x}", md5::compute(data.as_bytes()))
}

/// Whether a text starts with `zeroes` zeros.
pub open spec fn starts_with_zeros(hex: Seq<char>, zeroes: int) -> bool {
    zeroes <= hex.len() && forall|k: int| 0 <= k < zeroes ==> hex[k] == '0'
}

/// Whether the digest of the key followed by `i` starts with `zeroes`
/// zeros.
pub open spec fn hits(prefix: Seq<char>, i: int, zeroes: int) -> bool {
    starts_with_zeros(md5_hex(prefix + decimal_text(i as nat)), zeroes)
}

/// Whether `r` is the least number from 0 on that hits, or `None` where no
/// number below the largest `i64` does.
pub open spec fn is_first_hit(prefix: Seq<char>, zeroes: int, r: Option<i64>) -> bool {
    match r {
        Some(i) => 0 <= i && hits(prefix, i as int, zeroes) && forall|j: int|
            0 <= j < i ==> !#[trigger] hits(prefix, j, zeroes),
        None => forall|j: int| 0 <= j < i64::MAX ==> !#[trigger] hits(prefix, j, zeroes),
    }
}

/// Tells whether a digest in hexadecimal notation starts with `zeroes`
/// zeros.
pub fn is_hit(hex: &str, zeroes: usize) -> (r: bool)
    ensures
        r == starts_with_zeros(hex@, zeroes as int),
{
    let chars = chars_of(hex);
    if zeroes > chars.len() {
        return false;
    }
    let mut k: usize = 0;
    while k < zeroes
        invariant
            chars@ == hex@,
            k <= zeroes <= chars@.len(),
            forall|j: int| 0 <= j < k ==> hex@[j] == '0',
        decreases zeroes - k,
    {
        if chars[k] != '0' {
            return false;
        }
        k += 1;
    }
    true
}

/// The key followed by the number `i` in decimal notation.
pub fn candidate(prefix: &Vec<char>, i: i64) -> (r: String)
    requires
        0 <= i,
    ensures
        r@ == prefix@ + decimal_text(i as nat),
{
    let mut text: Vec<char> = Vec::new();
    let mut k: usize = 0;
    while k < prefix.len()
        invariant
            k <= prefix@.len(),
            text@ == prefix@.take(k as int),
        decreases prefix@.len() - k,
    {
        text.push(prefix[k]);
        k += 1;
    }
    assert(prefix@.take(prefix@.len() as int) =~= prefix@);
    push_decimal(&mut text, i as u64);
    string_of(&text)
}

/// Searches from 0 upward for the first number that hits.
pub fn solution(prefix: &str, zeroes: usize) -> (r: Option<i64>)
    ensures
        is_first_hit(prefix@, zeroes as int, r),
{
    let key = chars_of(prefix);
    let mut i: i64 = 0;
    while i < i64::MAX
        invariant
            key@ == prefix@,
            0 <= i <= i64::MAX,
            forall|j: int| 0 <= j < i ==> !#[trigger] hits(prefix@, j, zeroes as int),
        decreases i64::MAX - i,
    {
        let test_string = candidate(&key, i);
        let digest_as_hex = md5_hex_digest(test_string.as_str());
        if is_hit(digest_as_hex.as_str(), zeroes) {
            return Some(i);
        }
        i += 1;
    }
    None
}

/// Whether `r` is the answer to the first part for the key: five zeros.
pub open spec fn is_solution_a(text: Seq<char>, r: Option<i64>) -> bool {
    is_first_hit(text, 5, r)
}

/// Whether `r` is the answer to the second part for the key: six zeros.
pub open spec fn is_solution_b(text: Seq<char>, r: Option<i64>) -> bool {
    is_first_hit(text, 6, r)
}

pub fn solution_a(input: &str) -> (r: Option<i64>)
    ensures
        is_solution_a(input@, r),
{
    solution(input, 5)
}

pub fn solution_b(input: &str) -> (r: Option<i64>)
    ensures
        is_solution_b(input@, r),
{
    solution(input, 6)
}

} // verus!
