//! A row of stones, each with a number. With every blink a stone with 0
//! becomes a stone with 1, a stone with an even number of digits splits
//! into its two halves, and any other stone has its number multiplied by
//! 2024. The puzzle asks how many stones there are after some blinks.

use crate::common::parsing::{parse_u64, records_of, split_records, u64_of};
use crate::common::text::{lines_of, split_lines};
use vstd::prelude::*;

verus! {

pub type Stone = u64;

/// Stones and how many there are of each, every number once.
pub type StoneMultiset = Vec<(Stone, u64)>;

/// The number of decimal digits of a number.
pub open spec fn num_digits(n: nat) -> nat
    decreases n,
{
    if n < 10 {
        1
    } else {
        1 + num_digits(n / 10)
    }
}

/// Ten to the power `k`.
pub open spec fn pow10(k: nat) -> nat
    decreases k,
{
    if k == 0 {
        1
    } else {
        10 * pow10((k - 1) as nat)
    }
}

/// The first stone that a stone becomes with a blink.
pub open spec fn first_child(stone: nat) -> nat {
    if stone == 0 {
        1
    } else if num_digits(stone) % 2 == 0 {
        stone / pow10(num_digits(stone) / 2)
    } else {
        stone * 2024
    }
}

/// The second stone that a stone becomes with a blink, if it splits.
pub open spec fn second_child(stone: nat) -> Option<nat> {
    if stone != 0 && num_digits(stone) % 2 == 0 {
        Some(stone % pow10(num_digits(stone) / 2))
    } else {
        None
    }
}

/// The number of stones that one stone becomes with the given number of
/// blinks.
pub open spec fn count_after(stone: nat, blinks: nat) -> nat
    decreases blinks,
{
    if blinks == 0 {
        1
    } else {
        count_after(first_child(stone), (blinks - 1) as nat) + (match second_child(stone) {
            Some(t) => count_after(t, (blinks - 1) as nat),
            None => 0,
        })
    }
}

/// The number of stones that the stones become with the given number of
/// blinks.
pub open spec fn total_after(stones: Seq<u64>, blinks: nat) -> nat
    decreases stones.len(),
{
    if stones.len() == 0 {
        0
    } else {
        total_after(stones.drop_last(), blinks) + count_after(stones.last() as nat, blinks)
    }
}

/// Whether a stone and all that it becomes within the given number of
/// blinks have numbers that fit `u64`.
pub open spec fn fits(stone: nat, blinks: nat) -> bool
    decreases blinks,
{
    stone <= u64::MAX && (blinks == 0 || (fits(first_child(stone), (blinks - 1) as nat) && (
    match second_child(stone) {
        Some(t) => fits(t, (blinks - 1) as nat),
        None => true,
    })))
}

/// Whether all the stones fit for the given number of blinks.
pub open spec fn all_fit(stones: Seq<u64>, blinks: nat) -> bool {
    forall|i: int| 0 <= i < stones.len() ==> fits(#[trigger] stones[i] as nat, blinks)
}

/// The number of stones that the stones of a list become with the given
/// number of blinks.
pub open spec fn weighted(list: Seq<(u64, u64)>, blinks: nat) -> nat
    decreases list.len(),
{
    if list.len() == 0 {
        0
    } else {
        weighted(list.drop_last(), blinks) + (list.last().1 as nat) * count_after(
            list.last().0 as nat,
            blinks,
        )
    }
}

/// Whether all the stones of a list fit for the given number of blinks.
pub open spec fn list_fits(list: Seq<(u64, u64)>, blinks: nat) -> bool {
    forall|i: int| 0 <= i < list.len() ==> fits((#[trigger] list[i]).0 as nat, blinks)
}

/// One stone becomes at least one stone.
pub proof fn lemma_count_positive(stone: nat, blinks: nat)
    ensures
        count_after(stone, blinks) >= 1,
    decreases blinks,
{
    if blinks > 0 {
        lemma_count_positive(first_child(stone), (blinks - 1) as nat);
    }
}

/// A stone that fits for some blinks fits for fewer.
pub proof fn lemma_fits_for_fewer(stone: nat, blinks: nat, fewer: nat)
    requires
        fits(stone, blinks),
        fewer <= blinks,
    ensures
        fits(stone, fewer),
    decreases fewer,
{
    if fewer > 0 {
        lemma_fits_for_fewer(first_child(stone), (blinks - 1) as nat, (fewer - 1) as nat);
        if let Some(t) = second_child(stone) {
            lemma_fits_for_fewer(t, (blinks - 1) as nat, (fewer - 1) as nat);
        }
    }
}

/// A number of `d` digits is at least ten to the power of any number
/// below `d`, unless it is 0, and below ten to the power `d`.
pub proof fn lemma_digits_bound(n: nat, k: nat)
    ensures
        k < num_digits(n) && n >= 1 ==> pow10(k) <= n,
        n < pow10(num_digits(n)),
        num_digits(n) >= 1,
    decreases n,
{
    assert(pow10(0) == 1);
    if n >= 10 {
        lemma_digits_bound(n / 10, (k - 1) as nat);
        assert(pow10(num_digits(n)) == 10 * pow10(num_digits(n / 10)));
        if k >= 1 {
            assert(pow10(k) == 10 * pow10((k - 1) as nat));
        }
    } else {
        assert(pow10(1) == 10 * pow10(0));
    }
}

/// Counts the decimal digits of a number.
pub fn count_digits(n: u64) -> (d: u32)
    ensures
        d == num_digits(n as nat),
        1 <= d <= 20,
{
    let mut d: u32 = 1;
    let mut rest: u64 = n;
    assert(pow10(0) == 1);
    assert((d - 1) as nat == 0);
    assert(rest as nat * pow10((d - 1) as nat) == n) by (nonlinear_arith)
        requires
            pow10((d - 1) as nat) == 1,
            rest == n,
    ;
    while rest >= 10
        invariant
            num_digits(n as nat) == (d - 1) + num_digits(rest as nat),
            1 <= d <= 20,
            rest as nat * pow10((d - 1) as nat) <= n,
        decreases rest,
    {
        proof {
            assert(pow10(d as nat) == 10 * pow10((d - 1) as nat));
            lemma_pow10_grows((d - 1) as nat);
            assert(pow10(d as nat) <= rest * pow10((d - 1) as nat)) by (nonlinear_arith)
                requires
                    pow10(d as nat) == 10 * pow10((d - 1) as nat),
                    rest >= 10,
                    pow10((d - 1) as nat) >= 1,
            ;
            if d >= 20 {
                lemma_pow10_19((d - 1) as nat);
            }
            assert((rest / 10) * pow10(d as nat) <= rest * pow10((d - 1) as nat)) by (nonlinear_arith)
                requires
                    pow10(d as nat) == 10 * pow10((d - 1) as nat),
                    0 <= rest,
                    pow10((d - 1) as nat) >= 1,
            ;
        }
        rest = rest / 10;
        d += 1;
    }
    d
}

/// Ten to the power `k` is at least one.
pub proof fn lemma_pow10_grows(k: nat)
    ensures
        pow10(k) >= 1,
    decreases k,
{
    if k > 0 {
        lemma_pow10_grows((k - 1) as nat);
    }
}

/// Ten to a power above 18 does not fit `u64` ten times over.
pub proof fn lemma_pow10_19(k: nat)
    ensures
        k >= 19 ==> 10 * pow10(k) > u64::MAX,
    decreases k,
{
    if k >= 19 {
        if k > 19 {
            lemma_pow10_19((k - 1) as nat);
        } else {
            assert(pow10(19) == 10000000000000000000) by {
                reveal_with_fuel(pow10, 20);
            }
        }
    }
}

/// Ten to the power `k`, where that is not more than `limit`.
pub fn power_of_ten(k: u32, limit: u64) -> (r: u64)
    requires
        pow10(k as nat) <= limit,
    ensures
        r == pow10(k as nat),
{
    let mut r: u64 = 1;
    let mut i: u32 = 0;
    while i < k
        invariant
            i <= k,
            r == pow10(i as nat),
            pow10(k as nat) <= limit,
        decreases k - i,
    {
        proof {
            lemma_pow10_monotone((i + 1) as nat, k as nat);
            assert(pow10((i + 1) as nat) == 10 * pow10(i as nat));
        }
        r = r * 10;
        i += 1;
    }
    r
}

/// Ten to a smaller power is smaller.
pub proof fn lemma_pow10_monotone(a: nat, b: nat)
    requires
        a <= b,
    ensures
        pow10(a) <= pow10(b),
    decreases b,
{
    if a < b {
        lemma_pow10_monotone(a, (b - 1) as nat);
        lemma_pow10_grows((b - 1) as nat);
    }
}

/// The stones that a stone becomes with one blink. `None` if the number of
/// the new stone does not fit `u64`.
pub fn update_stone(stone: Stone) -> (r: Option<Vec<Stone>>)
    ensures
        match r {
            Some(stones) => {
                &&& fits(stone as nat, 1)
                &&& stones@.len() == (if second_child(stone as nat) is Some {
                    2nat
                } else {
                    1nat
                })
                &&& stones@[0] == first_child(stone as nat)
                &&& second_child(stone as nat) matches Some(t) ==> stones@[1] == t
            },
            None => !fits(stone as nat, 1),
        },
{
    let mut out: Vec<Stone> = Vec::new();
    proof {
        reveal_with_fuel(fits, 2);
    }
    if stone == 0 {
        out.push(1);
        return Some(out);
    }
    let digits = count_digits(stone);
    if digits % 2 == 0 {
        proof {
            lemma_digits_bound(stone as nat, (digits / 2) as nat);
            lemma_pow10_grows((digits / 2) as nat);
        }
        let half = power_of_ten(digits / 2, stone);
        out.push(stone / half);
        out.push(stone % half);
        Some(out)
    } else {
        match stone.checked_mul(2024) {
            Some(more) => {
                out.push(more);
                Some(out)
            },
            None => None,
        }
    }
}

/// The number of all stones of a list.
pub open spec fn stones_in(list: Seq<(u64, u64)>) -> nat {
    weighted(list, 0)
}

/// Counts the stones of a list. `None` if the number does not fit `u64`.
pub fn count_stones(stones: &StoneMultiset) -> (r: Option<u64>)
    ensures
        match r {
            Some(n) => n == stones_in(stones@),
            None => stones_in(stones@) > u64::MAX,
        },
{
    let mut total: u64 = 0;
    let mut i: usize = 0;
    assert(stones@.take(0) =~= Seq::<(u64, u64)>::empty());
    while i < stones.len()
        invariant
            i <= stones@.len(),
            total == weighted(stones@.take(i as int), 0),
        decreases stones@.len() - i,
    {
        assert(stones@.take(i as int + 1).drop_last() =~= stones@.take(i as int));
        assert(stones@.take(i as int + 1).last() == stones@[i as int]);
        assert(count_after(stones@[i as int].0 as nat, 0) == 1);
        assert(weighted(stones@.take(i as int + 1), 0) == total + stones@[i as int].1) by {
            assert((stones@[i as int].1 as nat) * 1 == stones@[i as int].1);
        }
        match total.checked_add(stones[i].1) {
            Some(sum) => {
                total = sum;
            },
            None => {
                proof {
                    lemma_weighted_prefix(stones@, i as int + 1, 0);
                }
                return None;
            },
        }
        i += 1;
    }
    assert(stones@.take(stones@.len() as int) =~= stones@);
    Some(total)
}

/// The stones of the beginning of a list become no more stones than those
/// of the whole list.
pub proof fn lemma_weighted_prefix(list: Seq<(u64, u64)>, n: int, blinks: nat)
    requires
        0 <= n <= list.len(),
    ensures
        weighted(list.take(n), blinks) <= weighted(list, blinks),
    decreases list.len() - n,
{
    if n < list.len() {
        lemma_weighted_prefix(list, n + 1, blinks);
        assert(list.take(n + 1).drop_last() =~= list.take(n));
    } else {
        assert(list.take(n) =~= list);
    }
}

/// Counting more of one stone of a list counts as many more of what it
/// becomes.
pub proof fn lemma_weighted_update(list: Seq<(u64, u64)>, p: int, more: u64, blinks: nat)
    requires
        0 <= p < list.len(),
        list[p].1 + more <= u64::MAX,
    ensures
        weighted(list.update(p, (list[p].0, (list[p].1 + more) as u64)), blinks) == weighted(
            list,
            blinks,
        ) + more * count_after(list[p].0 as nat, blinks),
        weighted(list, blinks) >= list[p].1 * count_after(list[p].0 as nat, blinks),
    decreases list.len(),
{
    let after = list.update(p, (list[p].0, (list[p].1 + more) as u64));
    let c = count_after(list[p].0 as nat, blinks);
    if p == list.len() - 1 {
        assert(after.drop_last() =~= list.drop_last());
        assert((list[p].1 + more) * c == list[p].1 * c + more * c) by (nonlinear_arith);
    } else {
        lemma_weighted_update(list.drop_last(), p, more, blinks);
        assert(after.drop_last() =~= list.drop_last().update(
            p,
            (list[p].0, (list[p].1 + more) as u64),
        ));
    }
}

/// Adds `count` stones with the number `stone` to a list. Leaves the list
/// as it is and tells so if their number does not fit `u64`.
pub fn add_count(list: &mut StoneMultiset, stone: Stone, count: u64) -> (done: bool)
    ensures
        done ==> forall|blinks: nat|
            #[trigger] weighted(final(list)@, blinks) == weighted(old(list)@, blinks) + count
                * count_after(stone as nat, blinks),
        done ==> forall|blinks: nat|
            #[trigger] list_fits(final(list)@, blinks) == (list_fits(old(list)@, blinks) && fits(
                stone as nat,
                blinks,
            )),
        !done ==> final(list)@ == old(list)@ && forall|blinks: nat|
            #[trigger] weighted(old(list)@, blinks) + count * count_after(stone as nat, blinks)
                > u64::MAX,
{
    let ghost before = list@;
    let mut p: usize = 0;
    while p < list.len()
        invariant
            list@ == before,
            before == old(list)@,
            p <= list@.len(),
            forall|q: int| 0 <= q < p ==> (#[trigger] list@[q]).0 != stone,
        decreases list@.len() - p,
    {
        if list[p].0 == stone {
            match list[p].1.checked_add(count) {
                Some(sum) => {
                    list[p] = (stone, sum);
                    proof {
                        assert forall|blinks: nat|
                            #[trigger] weighted(list@, blinks) == weighted(before, blinks) + count
                                * count_after(stone as nat, blinks) by {
                            lemma_weighted_update(before, p as int, count, blinks);
                        }
                        assert forall|blinks: nat|
                            #[trigger] list_fits(list@, blinks) == (list_fits(before, blinks) && fits(
                                stone as nat,
                                blinks,
                            )) by {
                            if list_fits(before, blinks) {
                                assert(fits(before[p as int].0 as nat, blinks));
                                assert forall|i: int| 0 <= i < list@.len() implies fits(
                                    (#[trigger] list@[i]).0 as nat,
                                    blinks,
                                ) by {
                                    assert(list@[i].0 == before[i].0);
                                }
                            }
                            if list_fits(list@, blinks) {
                                assert(fits(list@[p as int].0 as nat, blinks));
                                assert forall|i: int| 0 <= i < before.len() implies fits(
                                    (#[trigger] before[i]).0 as nat,
                                    blinks,
                                ) by {
                                    assert(list@[i].0 == before[i].0);
                                }
                            }
                        }
                    }
                    return true;
                },
                None => {
                    proof {
                        assert forall|blinks: nat|
                            #[trigger] weighted(before, blinks) + count * count_after(
                                stone as nat,
                                blinks,
                            ) > u64::MAX by {
                            lemma_weighted_update(before, p as int, 0, blinks);
                            lemma_count_positive(stone as nat, blinks);
                            let c = count_after(stone as nat, blinks);
                            assert(before[p as int].1 * c + count * c >= before[p as int].1 + count)
                                by (nonlinear_arith)
                                requires
                                    c >= 1,
                                    before[p as int].1 >= 0,
                                    count >= 0,
                            ;
                        }
                    }
                    return false;
                },
            }
        }
        p += 1;
    }
    list.push((stone, count));
    proof {
        assert(list@.drop_last() =~= before);
        assert forall|blinks: nat|
            #[trigger] list_fits(list@, blinks) == (list_fits(before, blinks) && fits(
                stone as nat,
                blinks,
            )) by {
            if list_fits(before, blinks) && fits(stone as nat, blinks) {
                assert forall|i: int| 0 <= i < list@.len() implies fits(
                    (#[trigger] list@[i]).0 as nat,
                    blinks,
                ) by {
                    if i < before.len() {
                        assert(list@[i] == before[i]);
                    }
                }
            }
            if list_fits(list@, blinks) {
                assert(fits(list@[before.len() as int].0 as nat, blinks));
                assert forall|i: int| 0 <= i < before.len() implies fits(
                    (#[trigger] before[i]).0 as nat,
                    blinks,
                ) by {
                    assert(list@[i] == before[i]);
                }
            }
        }
    }
    true
}


/// The stones of a longer beginning of a list fit if those of the shorter
/// one and the stone between them do.
pub proof fn lemma_list_fits_step(list: Seq<(u64, u64)>, p: int, blinks: nat)
    requires
        0 <= p < list.len(),
    ensures
        list_fits(list.take(p + 1), blinks) == (list_fits(list.take(p), blinks) && fits(
            list[p].0 as nat,
            blinks,
        )),
{
    let longer = list.take(p + 1);
    let shorter = list.take(p);
    if list_fits(longer, blinks) {
        assert(fits(longer[p].0 as nat, blinks));
        assert forall|i: int| 0 <= i < shorter.len() implies fits((#[trigger] shorter[i]).0 as nat, blinks) by {
            assert(longer[i] == shorter[i]);
        }
    }
    if list_fits(shorter, blinks) && fits(list[p].0 as nat, blinks) {
        assert forall|i: int| 0 <= i < longer.len() implies fits((#[trigger] longer[i]).0 as nat, blinks) by {
            if i < p {
                assert(longer[i] == shorter[i]);
            }
        }
    }
}

/// What a longer beginning of a list becomes is what the shorter one
/// becomes and what the stones between them become.
pub proof fn lemma_weighted_step(list: Seq<(u64, u64)>, p: int, blinks: nat)
    requires
        0 <= p < list.len(),
    ensures
        weighted(list.take(p + 1), blinks) == weighted(list.take(p), blinks) + (list[p].1 as nat)
            * count_after(list[p].0 as nat, blinks),
{
    assert(list.take(p + 1).drop_last() =~= list.take(p));
    assert(list.take(p + 1).last() == list[p]);
}

/// All stones after one blink, every number once. `None` if a number
/// does not fit `u64`: that of a new stone, or the number of stones that
/// the list becomes with one blink more, however many follow.
pub fn blink(list: &StoneMultiset) -> (r: Option<StoneMultiset>)
    ensures
        match r {
            Some(fresh) => {
                &&& forall|blinks: nat|
                    #[trigger] weighted(fresh@, blinks) == weighted(list@, blinks + 1)
                &&& forall|blinks: nat|
                    #[trigger] list_fits(fresh@, blinks) == list_fits(list@, blinks + 1)
            },
            None => !list_fits(list@, 1) || forall|blinks: nat|
                #[trigger] weighted(list@, blinks + 1) > u64::MAX,
        },
{
    let mut fresh: StoneMultiset = Vec::new();
    let mut p: usize = 0;
    proof {
        assert(list@.take(0) =~= Seq::<(u64, u64)>::empty());
    }
    while p < list.len()
        invariant
            p <= list@.len(),
            forall|blinks: nat|
                #[trigger] weighted(fresh@, blinks) == weighted(list@.take(p as int), blinks + 1),
            forall|blinks: nat|
                #[trigger] list_fits(fresh@, blinks) == list_fits(list@.take(p as int), blinks + 1),
        decreases list@.len() - p,
    {
        let (stone, count) = list[p];
        let ghost start = fresh@;
        let ghost t0 = first_child(stone as nat);
        let children = match update_stone(stone) {
            Some(children) => children,
            None => {
                assert(!fits(list@[p as int].0 as nat, 1));
                return None;
            },
        };
        proof {
            assert forall|blinks: nat|
                #[trigger] weighted(list@.take(p as int + 1), blinks + 1) <= weighted(
                    list@,
                    blinks + 1,
                ) by {
                lemma_weighted_prefix(list@, p as int + 1, blinks + 1);
            }
            assert forall|blinks: nat|
                #[trigger] weighted(list@.take(p as int + 1), blinks + 1) == weighted(
                    list@.take(p as int),
                    blinks + 1,
                ) + (count as nat) * count_after(stone as nat, blinks + 1) by {
                lemma_weighted_step(list@, p as int, blinks + 1);
            }
            assert forall|blinks: nat|
                #[trigger] count_after(stone as nat, blinks + 1) == count_after(t0, blinks) + (
                match second_child(stone as nat) {
                    Some(t) => count_after(t, blinks),
                    None => 0,
                }) by {
                assert((blinks + 1 - 1) as nat == blinks);
            }
            assert forall|blinks: nat|
                #[trigger] fits(stone as nat, blinks + 1) == (fits(t0, blinks) && (match second_child(
                    stone as nat,
                ) {
                    Some(t) => fits(t, blinks),
                    None => true,
                })) by {
                assert((blinks + 1 - 1) as nat == blinks);
            }
            assert forall|blinks: nat|
                #[trigger] list_fits(list@.take(p as int + 1), blinks + 1) == (list_fits(
                    list@.take(p as int),
                    blinks + 1,
                ) && fits(stone as nat, blinks + 1)) by {
                lemma_list_fits_step(list@, p as int, blinks + 1);
            }
        }
        if !add_count(&mut fresh, children[0], count) {
            proof {
                assert forall|blinks: nat| #[trigger] weighted(list@, blinks + 1) > u64::MAX by {
                    let whole = weighted(list@.take(p as int + 1), blinks + 1);
                    let c0 = count_after(t0, blinks);
                    let c = count_after(stone as nat, blinks + 1);
                    assert(weighted(start, blinks) + count * c0 > u64::MAX);
                    assert((count as nat) * c0 <= (count as nat) * c) by (nonlinear_arith)
                        requires
                            c0 <= c,
                    ;
                }
            }
            return None;
        }
        let ghost mid = fresh@;
        if children.len() > 1 {
            let ghost t1 = second_child(stone as nat)->0;
            if !add_count(&mut fresh, children[1], count) {
                proof {
                    assert forall|blinks: nat| #[trigger] weighted(list@, blinks + 1) > u64::MAX by {
                        let whole = weighted(list@.take(p as int + 1), blinks + 1);
                        let c0 = count_after(t0, blinks);
                        let c1 = count_after(t1, blinks);
                        let c = count_after(stone as nat, blinks + 1);
                        assert(weighted(mid, blinks) == weighted(start, blinks) + count * c0);
                        assert(weighted(mid, blinks) + count * c1 > u64::MAX);
                        assert((count as nat) * c0 + (count as nat) * c1 == (count as nat) * c)
                            by (nonlinear_arith)
                            requires
                                c0 + c1 == c,
                        ;
                    }
                }
                return None;
            }
            proof {
                assert forall|blinks: nat|
                    #[trigger] weighted(fresh@, blinks) == weighted(
                        list@.take(p as int + 1),
                        blinks + 1,
                    ) by {
                    let c0 = count_after(t0, blinks);
                    let c1 = count_after(t1, blinks);
                    let c = count_after(stone as nat, blinks + 1);
                    assert(weighted(mid, blinks) == weighted(start, blinks) + count * c0);
                    assert(weighted(fresh@, blinks) == weighted(mid, blinks) + count * c1);
                    assert((count as nat) * c0 + (count as nat) * c1 == (count as nat) * c)
                        by (nonlinear_arith)
                        requires
                            c0 + c1 == c,
                    ;
                }
                assert forall|blinks: nat|
                    #[trigger] list_fits(fresh@, blinks) == list_fits(
                        list@.take(p as int + 1),
                        blinks + 1,
                    ) by {
                    assert(list_fits(mid, blinks) == (list_fits(start, blinks) && fits(t0, blinks)));
                    assert(list_fits(fresh@, blinks) == (list_fits(mid, blinks) && fits(t1, blinks)));
                    assert(list_fits(start, blinks) == list_fits(list@.take(p as int), blinks + 1));
                }
            }
        } else {
            proof {
                assert forall|blinks: nat|
                    #[trigger] weighted(fresh@, blinks) == weighted(
                        list@.take(p as int + 1),
                        blinks + 1,
                    ) by {
                    assert(weighted(fresh@, blinks) == weighted(start, blinks) + count * count_after(
                        t0,
                        blinks,
                    ));
                }
                assert forall|blinks: nat|
                    #[trigger] list_fits(fresh@, blinks) == list_fits(
                        list@.take(p as int + 1),
                        blinks + 1,
                    ) by {
                    assert(list_fits(fresh@, blinks) == (list_fits(start, blinks) && fits(t0, blinks)));
                    assert(list_fits(start, blinks) == list_fits(list@.take(p as int), blinks + 1));
                }
            }
        }
        p += 1;
    }
    proof {
        assert(list@.take(list@.len() as int) =~= list@);
    }
    Some(fresh)
}

/// The number of stones after the given number of blinks. `None` if the
/// number of a stone does not fit `u64` on the way, or the number of
/// stones does not fit `i64`.
pub open spec fn blink_count(stones: Seq<u64>, blinks: nat) -> Option<int> {
    if all_fit(stones, blinks) && total_after(stones, blinks) <= i64::MAX {
        Some(total_after(stones, blinks) as int)
    } else {
        None
    }
}

/// Whether a result gives a count.
pub open spec fn gives(r: Option<i64>, count: Option<int>) -> bool {
    match count {
        Some(n) => r is Some && r->0 == n,
        None => r is None,
    }
}

/// The beginning of a row of stones becomes no more stones than the row.
pub proof fn lemma_total_prefix(stones: Seq<u64>, n: int, blinks: nat)
    requires
        0 <= n <= stones.len(),
    ensures
        total_after(stones.take(n), blinks) <= total_after(stones, blinks),
    decreases stones.len() - n,
{
    if n < stones.len() {
        lemma_total_prefix(stones, n + 1, blinks);
        assert(stones.take(n + 1).drop_last() =~= stones.take(n));
    } else {
        assert(stones.take(n) =~= stones);
    }
}

/// Gathers a row of stones into a list with every number once.
pub fn gather(stones: &Vec<Stone>) -> (r: Option<StoneMultiset>)
    ensures
        match r {
            Some(list) => {
                &&& forall|blinks: nat|
                    #[trigger] weighted(list@, blinks) == total_after(stones@, blinks)
                &&& forall|blinks: nat| #[trigger] list_fits(list@, blinks) == all_fit(stones@, blinks)
            },
            None => forall|blinks: nat| #[trigger] total_after(stones@, blinks) > u64::MAX,
        },
{
    let mut list: StoneMultiset = Vec::new();
    let mut i: usize = 0;
    proof {
        assert(stones@.take(0) =~= Seq::<u64>::empty());
    }
    while i < stones.len()
        invariant
            i <= stones@.len(),
            forall|blinks: nat|
                #[trigger] weighted(list@, blinks) == total_after(stones@.take(i as int), blinks),
            forall|blinks: nat|
                #[trigger] list_fits(list@, blinks) == all_fit(stones@.take(i as int), blinks),
        decreases stones@.len() - i,
    {
        let ghost start = list@;
        let ghost shorter = stones@.take(i as int);
        let ghost longer = stones@.take(i as int + 1);
        proof {
            assert(longer.drop_last() =~= shorter);
            assert(longer.last() == stones@[i as int]);
            assert forall|blinks: nat|
                #[trigger] all_fit(longer, blinks) == (all_fit(shorter, blinks) && fits(
                    stones@[i as int] as nat,
                    blinks,
                )) by {
                if all_fit(longer, blinks) {
                    assert(fits(longer[i as int] as nat, blinks));
                    assert forall|k: int| 0 <= k < shorter.len() implies fits(
                        #[trigger] shorter[k] as nat,
                        blinks,
                    ) by {
                        assert(longer[k] == shorter[k]);
                    }
                }
                if all_fit(shorter, blinks) && fits(stones@[i as int] as nat, blinks) {
                    assert forall|k: int| 0 <= k < longer.len() implies fits(
                        #[trigger] longer[k] as nat,
                        blinks,
                    ) by {
                        if k < i {
                            assert(longer[k] == shorter[k]);
                        }
                    }
                }
            }
        }
        if !add_count(&mut list, stones[i], 1) {
            proof {
                assert forall|blinks: nat| #[trigger] total_after(stones@, blinks) > u64::MAX by {
                    lemma_total_prefix(stones@, i as int + 1, blinks);
                    assert(weighted(start, blinks) + 1 * count_after(stones@[i as int] as nat, blinks)
                        > u64::MAX);
                }
            }
            return None;
        }
        proof {
            assert forall|blinks: nat|
                #[trigger] weighted(list@, blinks) == total_after(longer, blinks) by {
                assert(weighted(list@, blinks) == weighted(start, blinks) + 1 * count_after(
                    stones@[i as int] as nat,
                    blinks,
                ));
            }
            assert forall|blinks: nat| #[trigger] list_fits(list@, blinks) == all_fit(longer, blinks) by {
                assert(list_fits(list@, blinks) == (list_fits(start, blinks) && fits(
                    stones@[i as int] as nat,
                    blinks,
                )));
                assert(list_fits(start, blinks) == all_fit(shorter, blinks));
            }
        }
        i += 1;
    }
    proof {
        assert(stones@.take(stones@.len() as int) =~= stones@);
    }
    Some(list)
}

/// Stones that fit for some blinks fit for fewer.
pub proof fn lemma_all_fit_for_fewer(stones: Seq<u64>, blinks: nat, fewer: nat)
    requires
        all_fit(stones, blinks),
        fewer <= blinks,
    ensures
        all_fit(stones, fewer),
{
    assert forall|i: int| 0 <= i < stones.len() implies fits(#[trigger] stones[i] as nat, fewer) by {
        lemma_fits_for_fewer(stones[i] as nat, blinks, fewer);
    }
}

/// Counts the stones that a row of stones becomes with the given number
/// of blinks.
pub fn do_blinks(stones: &Vec<Stone>, num_iterations: usize) -> (r: Option<i64>)
    ensures
        gives(r, blink_count(stones@, num_iterations as nat)),
{
    let mut working_stones = match gather(stones) {
        Some(list) => list,
        None => {
            assert(total_after(stones@, num_iterations as nat) > u64::MAX);
            return None;
        },
    };
    let mut i: usize = 0;
    while i < num_iterations
        invariant
            i <= num_iterations,
            forall|blinks: nat|
                #[trigger] weighted(working_stones@, blinks) == total_after(stones@, (i + blinks) as nat),
            forall|blinks: nat|
                #[trigger] list_fits(working_stones@, blinks) == all_fit(stones@, (i + blinks) as nat),
        decreases num_iterations - i,
    {
        let ghost before = working_stones@;
        match blink(&working_stones) {
            Some(new_working) => {
                proof {
                    assert forall|blinks: nat|
                        #[trigger] weighted(new_working@, blinks) == total_after(
                            stones@,
                            ((i + 1) + blinks) as nat,
                        ) by {
                        assert(weighted(new_working@, blinks) == weighted(before, blinks + 1));
                        assert((i + (blinks + 1)) as nat == ((i + 1) + blinks) as nat);
                    }
                    assert forall|blinks: nat|
                        #[trigger] list_fits(new_working@, blinks) == all_fit(stones@, ((i + 1) + blinks) as nat) by {
                        assert(list_fits(new_working@, blinks) == list_fits(before, blinks + 1));
                        assert((i + (blinks + 1)) as nat == ((i + 1) + blinks) as nat);
                    }
                }
                working_stones = new_working;
            },
            None => {
                proof {
                    let left = (num_iterations - i - 1) as nat;
                    if !list_fits(before, 1) {
                        assert(list_fits(before, 1) == all_fit(stones@, (i + 1) as nat));
                        if all_fit(stones@, num_iterations as nat) {
                            lemma_all_fit_for_fewer(stones@, num_iterations as nat, (i + 1) as nat);
                        }
                    } else {
                        assert(weighted(before, left + 1) > u64::MAX);
                        assert(weighted(before, left + 1) == total_after(stones@, (i + (left + 1)) as nat));
                        assert(i + (left + 1) == num_iterations);
                    }
                }
                return None;
            },
        }
        i += 1;
    }
    proof {
        assert(weighted(working_stones@, 0) == total_after(stones@, (i + 0) as nat));
        assert(list_fits(working_stones@, 0) == all_fit(stones@, (i + 0) as nat));
        assert(list_fits(working_stones@, 0)) by {
            reveal_with_fuel(fits, 1);
        }
    }
    match count_stones(&working_stones) {
        Some(n) => if n > i64::MAX as u64 {
            None
        } else {
            Some(n as i64)
        },
        None => None,
    }
}

/// The stones written in the first line of the puzzle text.
pub open spec fn input_of(text: Seq<char>) -> Option<Seq<u64>> {
    let records = records_of(lines_of(text));
    if records.len() == 0 {
        None
    } else if forall|i: int| 0 <= i < records[0].len() ==> (#[trigger] u64_of(records[0][i])) is Some {
        Some(Seq::new(records[0].len(), |i: int| u64_of(records[0][i])->0 as u64))
    } else {
        None
    }
}

/// Reads the stones of the puzzle text.
pub fn read_input(input: &str) -> (r: Option<Vec<Stone>>)
    ensures
        match input_of(input@) {
            Some(stones) => r is Some && r->0@ == stones,
            None => r is None,
        },
{
    let records = split_records(&split_lines(input));
    if records.len() == 0 {
        return None;
    }
    let first = &records[0];
    let ghost fields = records.deep_view()[0];
    assert(fields == first.deep_view());
    let mut stones: Vec<Stone> = Vec::new();
    let mut i: usize = 0;
    while i < first.len()
        invariant
            fields == first.deep_view(),
            fields == records_of(lines_of(input@))[0],
            records_of(lines_of(input@)).len() > 0,
            i <= first@.len(),
            stones@.len() == i,
            forall|k: int| 0 <= k < i ==> (#[trigger] u64_of(fields[k])) == Some(stones@[k] as int),
        decreases first@.len() - i,
    {
        assert(fields[i as int] == first@[i as int]@);
        match parse_u64(first[i].as_str()) {
            Some(stone) => {
                stones.push(stone);
            },
            None => {
                return None;
            },
        }
        i += 1;
    }
    assert(stones@ =~= input_of(input@)->0);
    Some(stones)
}

/// Whether `r` is the answer for the puzzle text and the given number of
/// blinks.
pub open spec fn is_answer(text: Seq<char>, blinks: nat, r: Option<i64>) -> bool {
    match input_of(text) {
        Some(stones) => gives(r, blink_count(stones, blinks)),
        None => r is None,
    }
}

/// Whether `r` is the answer to the first part for the puzzle text.
pub open spec fn is_solution_a(text: Seq<char>, r: Option<i64>) -> bool {
    is_answer(text, 25, r)
}

/// Whether `r` is the answer to the second part for the puzzle text.
pub open spec fn is_solution_b(text: Seq<char>, r: Option<i64>) -> bool {
    is_answer(text, 75, r)
}

pub fn day11(input: &str) -> (r: Option<i64>)
    ensures
        is_solution_a(input@, r),
{
    match read_input(input) {
        Some(stones) => do_blinks(&stones, 25),
        None => None,
    }
}

pub fn day11b(input: &str) -> (r: Option<i64>)
    ensures
        is_solution_b(input@, r),
{
    match read_input(input) {
        Some(stones) => do_blinks(&stones, 75),
        None => None,
    }
}

} // verus!
