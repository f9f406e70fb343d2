//! The aggregate operations: mean and median over a category selection.

use vstd::prelude::*;

use crate::fbits::{is_nan_bits, val_eq, POS_ZERO, TWO_BITS};
use crate::num::{add_bits, add_of, div_bits, div_of, f32_of_usize, usize_f32_of};
use crate::select::{
    candidate_views, exclude_views, find_index, first_index_of, get_valid_categories,
    lemma_first_index_of, selected, views_of,
};
use crate::sorting::{sort_rows, sort_rows_spec};
use crate::table::{rows_view, Table};
use crate::QueryError;

verus! {

/// The resolved selection of an aggregate call.
pub open spec fn selection_of(
    table: Table,
    categories: Option<Vec<String>>,
    exclude: Option<Vec<String>>,
) -> Seq<Seq<char>> {
    selected(
        candidate_views(categories, table.headers@),
        views_of(table.headers@),
        exclude_views(exclude),
    )
}

/// The binary32 sum of one column over the first `n` rows, folded in row
/// order starting from `+0.0`, as summing a float iterator does.
pub open spec fn col_sum(rows: Seq<Seq<u32>>, idx: int, n: int) -> u32
    decreases n,
{
    if n <= 0 {
        POS_ZERO
    } else {
        add_of(col_sum(rows, idx, n - 1), rows[n - 1][idx])
    }
}

/// The mean of one column: its sum over every row, divided by the row
/// count. Over zero rows this is `0.0 / 0.0`, deliberately a NaN rather
/// than an error.
pub open spec fn col_mean(rows: Seq<Seq<u32>>, idx: int) -> u32 {
    div_of(col_sum(rows, idx, rows.len() as int), usize_f32_of(rows.len() as usize))
}

/// The median of one column: the rows ordered ascending by that column
/// alone — each column independently, never a shared mutated buffer —
/// then the middle cell of an odd count, or the two middle cells' average
/// for an even count.
pub open spec fn col_median(rows: Seq<Seq<u32>>, idx: int) -> u32
    recommends
        rows.len() > 0,
{
    let sorted = sort_rows_spec(rows, idx, false);
    let n = rows.len() as int;
    if n % 2 == 1 {
        sorted[n / 2][idx]
    } else {
        div_of(add_of(sorted[n / 2 - 1][idx], sorted[n / 2][idx]), TWO_BITS)
    }
}

fn column_sum(rows: &Vec<Vec<u32>>, idx: usize) -> (r: u32)
    requires
        forall|i: int| 0 <= i < rows@.len() ==> idx < (#[trigger] rows@[i])@.len(),
    ensures
        r == col_sum(rows_view(rows@), idx as int, rows@.len() as int),
        rows@.len() == 1 && !is_nan_bits(rows@[0]@[idx as int]) ==> val_eq(
            r,
            rows@[0]@[idx as int],
        ),
{
    let mut acc: u32 = POS_ZERO;
    let mut i: usize = 0;
    while i < rows.len()
        invariant
            i <= rows@.len(),
            forall|k: int| 0 <= k < rows@.len() ==> idx < (#[trigger] rows@[k])@.len(),
            acc == col_sum(rows_view(rows@), idx as int, i as int),
            rows@.len() == 1 && i == 1 && !is_nan_bits(rows@[0]@[idx as int]) ==> val_eq(
                acc,
                rows@[0]@[idx as int],
            ),
        decreases rows@.len() - i,
    {
        let cell = rows[i][idx];
        proof {
            assert(rows_view(rows@)[i as int] == rows@[i as int]@);
        }
        acc = add_bits(acc, cell);
        i += 1;
    }
    acc
}

/// One row of freshly copied cells.
fn copy_row(row: &Vec<u32>) -> (r: Vec<u32>)
    ensures
        r@ == row@,
{
    let mut out: Vec<u32> = Vec::new();
    let mut i: usize = 0;
    while i < row.len()
        invariant
            i <= row@.len(),
            out@ =~= row@.take(i as int),
        decreases row@.len() - i,
    {
        out.push(row[i]);
        assert(out@ =~= row@.take(i + 1));
        i += 1;
    }
    assert(out@ =~= row@);
    out
}

/// A fresh copy of the rows, for a per-column independent ordering.
fn copy_rows(rows: &Vec<Vec<u32>>) -> (r: Vec<Vec<u32>>)
    ensures
        r@.len() == rows@.len(),
        forall|i: int| 0 <= i < r@.len() ==> (#[trigger] r@[i])@ == rows@[i]@,
        rows_view(r@) == rows_view(rows@),
{
    let mut out: Vec<Vec<u32>> = Vec::new();
    let mut i: usize = 0;
    while i < rows.len()
        invariant
            i <= rows@.len(),
            out@.len() == i,
            forall|k: int| 0 <= k < i ==> (#[trigger] out@[k])@ == rows@[k]@,
        decreases rows@.len() - i,
    {
        out.push(copy_row(&rows[i]));
        i += 1;
    }
    proof {
        assert forall|i: int| 0 <= i < out@.len() implies rows_view(out@)[i] == rows_view(rows@)[i]
        by {
            assert(rows_view(out@)[i] == out@[i]@);
            assert(rows_view(rows@)[i] == rows@[i]@);
        }
        assert(rows_view(out@) =~= rows_view(rows@));
    }
    out
}

/// Resolves the selection and looks the category at position `j` up among
/// the headers, yielding its first matching column index.
fn resolve_cat(headers: &Vec<String>, cats: &Vec<String>, j: usize) -> (idx: usize)
    requires
        j < cats@.len(),
        views_of(cats@).contains(cats@[j as int]@) ==> views_of(headers@).contains(
            cats@[j as int]@,
        ),
        views_of(headers@).contains(cats@[j as int]@),
    ensures
        idx < headers@.len(),
        idx as int == first_index_of(views_of(headers@), cats@[j as int]@),
{
    let found = find_index(headers.as_slice(), &cats[j]);
    match found {
        Some(i) => {
            proof {
                lemma_first_index_of(views_of(headers@), cats@[j as int]@, i as int);
            }
            i
        },
        None => {
            proof {
                let hv = views_of(headers@);
                let k = choose|k: int| 0 <= k < hv.len() && hv[k] == cats@[j as int]@;
                assert(headers@[k]@ == cats@[j as int]@);
                assert(false);
            }
            0
        },
    }
}

/// The mean of each selected column, as a one-row table headed by the
/// selected names in resolution order. Fails exactly when the selection
/// resolves to nothing. Over a single row each mean equals that row's
/// cell; over zero rows each mean is NaN (`0.0 / 0.0`), not an error.
pub fn mean_table(
    table: &Table,
    categories: Option<Vec<String>>,
    exclude: Option<Vec<String>>,
) -> (r: Result<Table, QueryError>)
    requires
        table.wf(),
    ensures
        ({
            let cats = selection_of(*table, categories, exclude);
            let hsv = views_of(table.headers@);
            let data = rows_view(table.rows@);
            match r {
                Ok(t) => {
                    &&& cats.len() > 0
                    &&& t.wf()
                    &&& views_of(t.headers@) == cats
                    &&& t.rows@.len() == 1
                    &&& t.rows@[0]@.len() == cats.len()
                    &&& forall|k: int|
                        0 <= k < cats.len() ==> t.rows@[0]@[k] == col_mean(
                            data,
                            first_index_of(hsv, cats[k]),
                        )
                    &&& table.rows@.len() == 1 ==> forall|k: int|
                        0 <= k < cats.len() ==> !is_nan_bits(
                            data[0][first_index_of(hsv, cats[k])],
                        ) ==> val_eq(t.rows@[0]@[k], data[0][first_index_of(hsv, cats[k])])
                    &&& table.rows@.len() == 0 ==> forall|k: int|
                        0 <= k < cats.len() ==> is_nan_bits(t.rows@[0]@[k])
                },
                Err(e) => {
                    &&& e == QueryError::NoValidCategories
                    &&& cats.len() == 0
                },
            }
        }),
{
    broadcast use vstd::seq_lib::group_filter_ensures;

    let ghost hsv = views_of(table.headers@);
    let ghost data = rows_view(table.rows@);
    let cats = get_valid_categories(categories, exclude, table.headers.as_slice());
    if cats.len() == 0 {
        return Err(QueryError::NoValidCategories);
    }
    let ghost catsv = views_of(cats@);
    let n = table.rows.len();
    let denom = f32_of_usize(n);
    let mut means: Vec<u32> = Vec::new();
    let mut j: usize = 0;
    while j < cats.len()
        invariant
            table.wf(),
            j <= cats@.len(),
            catsv == views_of(cats@),
            catsv == selection_of(*table, categories, exclude),
            hsv == views_of(table.headers@),
            data == rows_view(table.rows@),
            n == table.rows@.len(),
            denom == usize_f32_of(n),
            n == 0 ==> denom == POS_ZERO,
            n == 1 ==> denom == crate::fbits::ONE_BITS,
            means@.len() == j,
            forall|k: int|
                0 <= k < j ==> means@[k] == col_mean(data, first_index_of(hsv, catsv[k])),
            table.rows@.len() == 1 ==> forall|k: int|
                0 <= k < j ==> !is_nan_bits(data[0][first_index_of(hsv, catsv[k])]) ==> val_eq(
                    means@[k],
                    data[0][first_index_of(hsv, catsv[k])],
                ),
            table.rows@.len() == 0 ==> forall|k: int| 0 <= k < j ==> is_nan_bits(means@[k]),
        decreases cats@.len() - j,
    {
        proof {
            assert(catsv[j as int] == cats@[j as int]@);
            assert(hsv.contains(catsv[j as int]));
        }
        let idx = resolve_cat(&table.headers, &cats, j);
        let ghost fi = first_index_of(hsv, catsv[j as int]);
        let s = column_sum(&table.rows, idx);
        let ghost prev_means = means@;
        let m = div_bits(s, denom);
        proof {
            if table.rows@.len() == 1 && !is_nan_bits(data[0][fi]) {
                assert(data[0] == table.rows@[0]@);
                assert(val_eq(s, data[0][fi]));
                assert(!is_nan_bits(s));
                assert(m == s);
            }
        }
        means.push(m);
        proof {
            assert(means@ == prev_means.push(m));
            assert(means@[j as int] == m);
        }
        j += 1;
    }
    let mut out_rows: Vec<Vec<u32>> = Vec::new();
    out_rows.push(means);
    let t = Table { headers: cats, rows: out_rows };
    proof {
        assert(t.wf());
    }
    Ok(t)
}

/// Sorting a single row leaves it in place, so its median is its own cell.
pub proof fn lemma_median_single_row(rows: Seq<Seq<u32>>, idx: int)
    requires
        rows.len() == 1,
    ensures
        col_median(rows, idx) == rows[0][idx],
{
    reveal_with_fuel(crate::sorting::sort_rows_spec, 2);
    assert(rows.drop_last().len() == 0);
    assert(sort_rows_spec(rows, idx, false) =~= seq![rows[0]]) by {
        reveal_with_fuel(crate::sorting::sort_rows_spec, 2);
        assert(rows.last() == rows[0]);
    }
}

/// The median of each selected column, each over its own independent
/// ascending ordering of the rows, as a one-row table headed by the
/// selected names. Fails with `NoValidCategories` exactly when the
/// selection resolves to nothing, else with `EmptyDataset` exactly when
/// there are no rows — a middle element of nothing is undefined.
pub fn median_table(
    table: &Table,
    categories: Option<Vec<String>>,
    exclude: Option<Vec<String>>,
) -> (r: Result<Table, QueryError>)
    requires
        table.wf(),
    ensures
        ({
            let cats = selection_of(*table, categories, exclude);
            let hsv = views_of(table.headers@);
            let data = rows_view(table.rows@);
            match r {
                Ok(t) => {
                    &&& cats.len() > 0
                    &&& table.rows@.len() > 0
                    &&& t.wf()
                    &&& views_of(t.headers@) == cats
                    &&& t.rows@.len() == 1
                    &&& t.rows@[0]@.len() == cats.len()
                    &&& forall|k: int|
                        0 <= k < cats.len() ==> t.rows@[0]@[k] == col_median(
                            data,
                            first_index_of(hsv, cats[k]),
                        )
                    &&& table.rows@.len() == 1 ==> forall|k: int|
                        0 <= k < cats.len() ==> t.rows@[0]@[k] == data[0][first_index_of(
                            hsv,
                            cats[k],
                        )]
                },
                Err(e) => {
                    &&& (e == QueryError::NoValidCategories || e == QueryError::EmptyDataset)
                    &&& (e == QueryError::NoValidCategories <==> cats.len() == 0)
                    &&& (e == QueryError::EmptyDataset <==> cats.len() > 0
                        && table.rows@.len() == 0)
                },
            }
        }),
{
    broadcast use vstd::seq_lib::group_filter_ensures;

    let ghost hsv = views_of(table.headers@);
    let ghost data = rows_view(table.rows@);
    let cats = get_valid_categories(categories, exclude, table.headers.as_slice());
    if cats.len() == 0 {
        return Err(QueryError::NoValidCategories);
    }
    if table.rows.len() == 0 {
        return Err(QueryError::EmptyDataset);
    }
    let ghost catsv = views_of(cats@);
    let n = table.rows.len();
    let mut medians: Vec<u32> = Vec::new();
    let mut j: usize = 0;
    while j < cats.len()
        invariant
            table.wf(),
            j <= cats@.len(),
            catsv == views_of(cats@),
            catsv == selection_of(*table, categories, exclude),
            hsv == views_of(table.headers@),
            data == rows_view(table.rows@),
            n == table.rows@.len(),
            n > 0,
            medians@.len() == j,
            forall|k: int|
                0 <= k < j ==> medians@[k] == col_median(data, first_index_of(hsv, catsv[k])),
        decreases cats@.len() - j,
    {
        proof {
            assert(catsv[j as int] == cats@[j as int]@);
            assert(hsv.contains(catsv[j as int]));
        }
        let idx = resolve_cat(&table.headers, &cats, j);
        let ghost fi = first_index_of(hsv, catsv[j as int]);
        let column_copy = copy_rows(&table.rows);
        let sorted = sort_rows(column_copy, idx, false);
        let ghost sortedv = sort_rows_spec(data, idx as int, false);
        proof {
            assert(rows_view(sorted@) == sortedv);
            crate::sorting::lemma_sort_rows_props(data, idx as int, false);
            assert forall|k: int| 0 <= k < sorted@.len() implies idx
                < (#[trigger] sorted@[k])@.len() by {
                assert(data.contains(rows_view(sorted@)[k]));
                let m = choose|m: int| 0 <= m < data.len() && data[m] == rows_view(sorted@)[k];
                assert(data[m] == table.rows@[m]@);
                assert(rows_view(sorted@)[k] == sorted@[k]@);
            }
        }
        let mid = n / 2;
        let m: u32 = if n % 2 == 1 {
            proof {
                assert(rows_view(sorted@)[mid as int] == sorted@[mid as int]@);
            }
            sorted[mid][idx]
        } else {
            proof {
                assert(rows_view(sorted@)[mid as int] == sorted@[mid as int]@);
                assert(rows_view(sorted@)[mid - 1] == sorted@[mid - 1]@);
            }
            let lo = sorted[mid - 1][idx];
            let hi = sorted[mid][idx];
            div_bits(add_bits(lo, hi), TWO_BITS)
        };
        proof {
            if n == 1 {
                lemma_median_single_row(data, fi);
            }
        }
        medians.push(m);
        j += 1;
    }
    let mut out_rows: Vec<Vec<u32>> = Vec::new();
    out_rows.push(medians);
    let t = Table { headers: cats, rows: out_rows };
    proof {
        assert(t.wf());
        if table.rows@.len() == 1 {
            assert forall|k: int| 0 <= k < catsv.len() implies t.rows@[0]@[k] == data[0][
                first_index_of(hsv, catsv[k])] by {
                lemma_median_single_row(data, first_index_of(hsv, catsv[k]));
            }
        }
    }
    Ok(t)
}

} // verus!
