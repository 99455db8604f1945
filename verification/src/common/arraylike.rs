//! Utilities for things that look like arrays, such as rows of rows.

use crate::common::text::{chars_of, rows_view, strings_of};
use vstd::prelude::*;

verus! {

/// The items at place `i` of the rows that have one, in the order of the
/// rows.
pub open spec fn column<T>(data: Seq<Seq<T>>, i: int) -> Seq<T>
    decreases data.len(),
{
    if data.len() == 0 {
        Seq::empty()
    } else {
        let before = column(data.drop_last(), i);
        if 0 <= i < data.last().len() {
            before.push(data.last()[i])
        } else {
            before
        }
    }
}

/// The length of the longest row.
pub open spec fn widest<T>(data: Seq<Seq<T>>) -> nat
    decreases data.len(),
{
    if data.len() == 0 {
        0
    } else {
        let before = widest(data.drop_last());
        if data.last().len() > before {
            data.last().len()
        } else {
            before
        }
    }
}

/// The rows as sequences.
pub open spec fn rows_of<T>(data: Seq<Vec<T>>) -> Seq<Seq<T>> {
    data.map_values(|row: Vec<T>| row@)
}

/// The columns of `data`: as many rows as the longest row of `data` is
/// long, row `i` being column `i` of `data`.
pub open spec fn transposed<T>(data: Seq<Seq<T>>) -> Seq<Seq<T>> {
    Seq::new(widest(data), |i: int| column(data, i))
}

/// What is transposed is the transposition.
pub proof fn lemma_is_transpose<T>(data: Seq<Seq<T>>, out: Seq<Seq<T>>)
    requires
        is_transpose(data, out),
    ensures
        out == transposed(data),
{
    assert(out =~= transposed(data));
}

/// Rows of items, each item seen through `f`.
pub open spec fn seen_through<A, B>(data: Seq<Seq<A>>, f: spec_fn(A) -> B) -> Seq<Seq<B>> {
    data.map_values(|row: Seq<A>| row.map_values(f))
}

/// Transposing and then looking at every item through `f` gives what
/// looking first and then transposing gives.
pub proof fn lemma_transposed_seen_through<A, B>(data: Seq<Seq<A>>, f: spec_fn(A) -> B)
    ensures
        transposed(seen_through(data, f)) == seen_through(transposed(data), f),
{
    lemma_widest_seen_through(data, f);
    assert forall|i: int| 0 <= i < widest(data) implies #[trigger] transposed(seen_through(data, f))[i]
        == seen_through(transposed(data), f)[i] by {
        lemma_column_seen_through(data, f, i);
    }
    assert(transposed(seen_through(data, f)) =~= seen_through(transposed(data), f));
}

pub proof fn lemma_widest_seen_through<A, B>(data: Seq<Seq<A>>, f: spec_fn(A) -> B)
    ensures
        widest(seen_through(data, f)) == widest(data),
    decreases data.len(),
{
    if data.len() > 0 {
        lemma_widest_seen_through(data.drop_last(), f);
        assert(seen_through(data, f).drop_last() =~= seen_through(data.drop_last(), f));
    }
}

pub proof fn lemma_column_seen_through<A, B>(data: Seq<Seq<A>>, f: spec_fn(A) -> B, i: int)
    ensures
        column(seen_through(data, f), i) == column(data, i).map_values(f),
    decreases data.len(),
{
    if data.len() > 0 {
        lemma_column_seen_through(data.drop_last(), f, i);
        assert(seen_through(data, f).drop_last() =~= seen_through(data.drop_last(), f));
        assert(column(seen_through(data, f), i) =~= column(data, i).map_values(f));
    } else {
        assert(column(seen_through(data, f), i) =~= column(data, i).map_values(f));
    }
}

/// The deep view of rows of numbers is the rows as sequences.
pub proof fn lemma_deep_view_rows(data: Vec<Vec<i64>>)
    ensures
        data.deep_view() == rows_of(data@),
{
    assert forall|k: int| 0 <= k < data@.len() implies #[trigger] data.deep_view()[k] == rows_of(
        data@,
    )[k] by {
        assert(data@[k].deep_view() =~= data@[k]@);
    }
    assert(data.deep_view() =~= rows_of(data@));
}

/// Whether `out` holds the columns of `data`: as many rows as the longest
/// row of `data` is long, row `i` being column `i` of `data`.
pub open spec fn is_transpose<T>(data: Seq<Seq<T>>, out: Seq<Seq<T>>) -> bool {
    &&& out.len() == widest(data)
    &&& forall|i: int| 0 <= i < out.len() ==> #[trigger] out[i] == column(data, i)
}

/// Transposes rows of items: row `i` of the result holds item `i` of every
/// row that is long enough to have one.
pub fn transpose<T: Copy>(data: &[Vec<T>]) -> (result: Vec<Vec<T>>)
    ensures
        is_transpose(rows_of(data@), rows_of(result@)),
{
    let ghost rows = rows_of(data@);
    let mut result: Vec<Vec<T>> = Vec::new();
    let mut r: usize = 0;
    assert(rows.take(0) =~= Seq::empty());
    while r < data.len()
        invariant
            rows == rows_of(data@),
            r <= data@.len(),
            result@.len() == widest(rows.take(r as int)),
            forall|i: int|
                0 <= i < result@.len() ==> (#[trigger] result@[i])@ == column(rows.take(r as int), i),
        decreases data@.len() - r,
    {
        let row = &data[r];
        let ghost done = rows.take(r as int);
        let ghost now = rows.take(r as int + 1);
        assert(now.drop_last() =~= done);
        assert(now.last() == row@);
        let mut i: usize = 0;
        while i < row.len()
            invariant
                i <= row@.len(),
                now.len() > 0,
                now.drop_last() == done,
                now.last() == row@,
                result@.len() == (if widest(done) > i {
                    widest(done)
                } else {
                    i as nat
                }),
                forall|k: int| 0 <= k < i ==> (#[trigger] result@[k])@ == column(now, k),
                forall|k: int|
                    i <= k < result@.len() ==> (#[trigger] result@[k])@ == column(done, k),
            decreases row@.len() - i,
        {
            if result.len() <= i {
                proof {
                    lemma_column_beyond(done, i as int);
                }
                result.push(Vec::new());
            }
            let ghost before = result@;
            assert(before[i as int]@ == column(done, i as int));
            result[i].push(row[i]);
            assert(result@.len() == before.len());
            assert(forall|k: int| 0 <= k < result@.len() && k != i ==> result@[k] == before[k]);
            assert(result@[i as int]@ == before[i as int]@.push(row@[i as int]));
            assert(column(now, i as int) == column(done, i as int).push(row@[i as int]));
            i += 1;
        }
        r += 1;
    }
    assert(rows.take(data@.len() as int) =~= rows);
    assert forall|i: int| 0 <= i < result@.len() implies #[trigger] rows_of(result@)[i] == column(
        rows,
        i,
    ) by {
        assert(rows_of(result@)[i] == result@[i]@);
    }
    result
}

/// No row has an item at a place at or beyond the length of the longest.
pub proof fn lemma_column_beyond<T>(data: Seq<Seq<T>>, i: int)
    requires
        i >= widest(data),
    ensures
        column(data, i) == Seq::<T>::empty(),
    decreases data.len(),
{
    if data.len() > 0 {
        lemma_column_beyond(data.drop_last(), i);
    }
}

/// Transposes lines of text: line `i` of the result holds character `i`
/// of every line that is long enough to have one.
pub fn transpose_strings(data: &[&str]) -> (result: Vec<String>)
    ensures
        is_transpose(data.deep_view(), result.deep_view()),
{
    let mut rows: Vec<Vec<char>> = Vec::new();
    let mut r: usize = 0;
    while r < data.len()
        invariant
            r <= data@.len(),
            rows@.len() == r,
            forall|k: int| 0 <= k < r ==> (#[trigger] rows@[k])@ == data@[k]@,
        decreases data@.len() - r,
    {
        rows.push(chars_of(data[r]));
        r += 1;
    }
    assert(rows_of(rows@) =~= data.deep_view());
    let columns = transpose(rows.as_slice());
    let result = strings_of(&columns);
    assert(rows_view(columns@) =~= rows_of(columns@));
    result
}

} // verus!
