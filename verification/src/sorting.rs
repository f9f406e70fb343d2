//! Sorting rows by one column under the binary32 total order.
//!
//! The executable sort is pinned exactly to `sort_rows_spec`, a stable
//! insertion sort at the specification level: each row is inserted after
//! every already-placed row that compares less-or-equal to it in the
//! chosen direction, so rows with equal keys keep their input order.

use vstd::prelude::*;
use vstd::seq_lib::*;

use crate::fbits::{tkey, total_le};
use crate::table::rows_view;

verus! {

/// The comparison of one sort direction: the total order for ascending,
/// its flip for descending.
pub open spec fn dir_le(a: u32, b: u32, desc: bool) -> bool {
    if desc {
        total_le(b, a)
    } else {
        total_le(a, b)
    }
}

/// Stable insertion of `row` into `sorted`: `row` lands after every
/// element that compares less-or-equal to it, and before the rest.
pub open spec fn insert_row(sorted: Seq<Seq<u32>>, row: Seq<u32>, idx: int, desc: bool) -> Seq<
    Seq<u32>,
>
    decreases sorted.len(),
{
    if sorted.len() == 0 {
        seq![row]
    } else if dir_le(sorted.last()[idx], row[idx], desc) {
        sorted.push(row)
    } else {
        insert_row(sorted.drop_last(), row, idx, desc).push(sorted.last())
    }
}

/// The stable sort of `rows` by the cell at `idx`: rows inserted one by
/// one in input order.
pub open spec fn sort_rows_spec(rows: Seq<Seq<u32>>, idx: int, desc: bool) -> Seq<Seq<u32>>
    decreases rows.len(),
{
    if rows.len() == 0 {
        rows
    } else {
        insert_row(sort_rows_spec(rows.drop_last(), idx, desc), rows.last(), idx, desc)
    }
}

/// Whether `rows` is ordered by the cell at `idx` in the given direction.
pub open spec fn sorted_by(rows: Seq<Seq<u32>>, idx: int, desc: bool) -> bool {
    forall|i: int, j: int|
        0 <= i < j < rows.len() ==> dir_le(rows[i][idx], rows[j][idx], desc)
}

/// Whether no two rows share a key in the cell at `idx`.
pub open spec fn distinct_keys(rows: Seq<Seq<u32>>, idx: int) -> bool {
    forall|i: int, j: int|
        0 <= i < j < rows.len() ==> tkey(rows[i][idx]) != tkey(rows[j][idx])
}

/// The comparison of one sort direction, executably.
pub fn cmp_dir_le(a: u32, b: u32, desc: bool) -> (r: bool)
    ensures
        r == dir_le(a, b, desc),
{
    if desc {
        crate::fbits::cmp_total_le(b, a)
    } else {
        crate::fbits::cmp_total_le(a, b)
    }
}

proof fn lemma_insert_row_at(s: Seq<Seq<u32>>, row: Seq<u32>, idx: int, desc: bool, j: int)
    requires
        0 <= j <= s.len(),
        forall|k: int| j <= k < s.len() ==> !dir_le(#[trigger] s[k][idx], row[idx], desc),
        j > 0 ==> dir_le(s[j - 1][idx], row[idx], desc),
    ensures
        insert_row(s, row, idx, desc) == s.take(j).push(row) + s.skip(j),
    decreases s.len() - j,
{
    if j == s.len() {
        if s.len() == 0 {
            assert(insert_row(s, row, idx, desc) =~= s.take(j).push(row) + s.skip(j));
        } else {
            assert(dir_le(s.last()[idx], row[idx], desc));
            assert(insert_row(s, row, idx, desc) == s.push(row));
            assert(s.push(row) =~= s.take(j).push(row) + s.skip(j));
        }
    } else {
        assert(!dir_le(s[s.len() - 1][idx], row[idx], desc));
        lemma_insert_row_at(s.drop_last(), row, idx, desc, j);
        assert(s.drop_last().take(j) =~= s.take(j));
        assert(insert_row(s, row, idx, desc) == insert_row(s.drop_last(), row, idx, desc).push(
            s.last(),
        ));
        assert((s.drop_last().take(j).push(row) + s.drop_last().skip(j)).push(s.last()) =~= s.take(
            j,
        ).push(row) + s.skip(j));
    }
}

/// Inserting a row grows the length by one, adds exactly that row to the
/// multiset, and keeps the sequence sorted when it was.
pub proof fn lemma_insert_row_props(sorted: Seq<Seq<u32>>, row: Seq<u32>, idx: int, desc: bool)
    ensures
        insert_row(sorted, row, idx, desc).len() == sorted.len() + 1,
        insert_row(sorted, row, idx, desc).to_multiset() == sorted.to_multiset().insert(row),
        forall|k: int|
            0 <= k < insert_row(sorted, row, idx, desc).len() ==> (#[trigger] insert_row(
                sorted,
                row,
                idx,
                desc,
            )[k] == row || sorted.contains(insert_row(sorted, row, idx, desc)[k])),
        sorted_by(sorted, idx, desc) ==> sorted_by(insert_row(sorted, row, idx, desc), idx, desc),
    decreases sorted.len(),
{
    broadcast use vstd::seq_lib::group_to_multiset_ensures;

    let r = insert_row(sorted, row, idx, desc);
    if sorted.len() == 0 {
        assert(r =~= Seq::empty().push(row));
        assert(Seq::<Seq<u32>>::empty().push(row).to_multiset() =~= Seq::<Seq<
            u32,
        >>::empty().to_multiset().insert(row));
    } else if dir_le(sorted.last()[idx], row[idx], desc) {
        assert(r == sorted.push(row));
        if sorted_by(sorted, idx, desc) {
            assert forall|i: int, j: int| 0 <= i < j < r.len() implies dir_le(
                r[i][idx],
                r[j][idx],
                desc,
            ) by {
                if j < r.len() - 1 {
                    assert(dir_le(sorted[i][idx], sorted[j][idx], desc));
                } else {
                    if i < sorted.len() - 1 {
                        assert(dir_le(sorted[i][idx], sorted.last()[idx], desc));
                    }
                }
            }
        }
    } else {
        let rest = insert_row(sorted.drop_last(), row, idx, desc);
        lemma_insert_row_props(sorted.drop_last(), row, idx, desc);
        assert(r == rest.push(sorted.last()));
        assert(sorted.drop_last().push(sorted.last()) =~= sorted);
        assert(sorted.drop_last().to_multiset().insert(sorted.last()) == sorted.to_multiset());
        assert(r.to_multiset() == rest.to_multiset().insert(sorted.last()));
        assert(rest.to_multiset().insert(sorted.last()) =~= sorted.to_multiset().insert(row));
        assert forall|k: int| 0 <= k < r.len() implies (r[k] == row || sorted.contains(r[k])) by {
            if k < rest.len() {
                if rest[k] == row {
                } else {
                    assert(sorted.drop_last().contains(rest[k]));
                    let m = choose|m: int|
                        0 <= m < sorted.drop_last().len() && sorted.drop_last()[m] == rest[k];
                    assert(sorted[m] == rest[k]);
                }
            } else {
                assert(r[k] == sorted.last());
                assert(sorted.contains(sorted.last()));
            }
        }
        if sorted_by(sorted, idx, desc) {
            assert(sorted_by(sorted.drop_last(), idx, desc));
            assert(sorted_by(rest, idx, desc));
            assert forall|i: int, j: int| 0 <= i < j < r.len() implies dir_le(
                r[i][idx],
                r[j][idx],
                desc,
            ) by {
                if j == r.len() - 1 {
                    // everything placed before the old last element stays
                    // at or below it in the direction order
                    if rest[i] == row {
                        assert(!dir_le(sorted.last()[idx], row[idx], desc));
                        assert(dir_le(row[idx], sorted.last()[idx], desc));
                    } else {
                        assert(sorted.drop_last().contains(rest[i]));
                        let m = choose|m: int|
                            0 <= m < sorted.drop_last().len() && sorted.drop_last()[m] == rest[i];
                        assert(dir_le(sorted[m][idx], sorted.last()[idx], desc));
                    }
                } else {
                    assert(dir_le(rest[i][idx], rest[j][idx], desc));
                }
            }
        }
    }
}

/// The sort of a sequence of rows is a permutation of it, of the same
/// length, and is ordered in the requested direction.
pub proof fn lemma_sort_rows_props(rows: Seq<Seq<u32>>, idx: int, desc: bool)
    ensures
        sort_rows_spec(rows, idx, desc).len() == rows.len(),
        sort_rows_spec(rows, idx, desc).to_multiset() == rows.to_multiset(),
        forall|k: int|
            0 <= k < sort_rows_spec(rows, idx, desc).len() ==> rows.contains(
                #[trigger] sort_rows_spec(rows, idx, desc)[k],
            ),
        sorted_by(sort_rows_spec(rows, idx, desc), idx, desc),
    decreases rows.len(),
{
    broadcast use vstd::seq_lib::group_to_multiset_ensures;

    let r = sort_rows_spec(rows, idx, desc);
    if rows.len() == 0 {
    } else {
        let prev = sort_rows_spec(rows.drop_last(), idx, desc);
        lemma_sort_rows_props(rows.drop_last(), idx, desc);
        lemma_insert_row_props(prev, rows.last(), idx, desc);
        assert(rows.drop_last().push(rows.last()) =~= rows);
        assert(rows.drop_last().to_multiset().insert(rows.last()) == rows.to_multiset());
        assert forall|k: int| 0 <= k < r.len() implies rows.contains(#[trigger] r[k]) by {
            if r[k] == rows.last() {
                assert(rows[rows.len() - 1] == rows.last());
            } else {
                assert(prev.contains(r[k]));
                let m = choose|m: int| 0 <= m < prev.len() && prev[m] == r[k];
                assert(rows.drop_last().contains(prev[m]));
                let n = choose|n: int|
                    0 <= n < rows.drop_last().len() && rows.drop_last()[n] == prev[m];
                assert(rows[n] == r[k]);
            }
        }
    }
}

/// Sorts the rows by the cell at `idx`, ascending under the binary32
/// total order, or descending when `desc` is set; rows with equal keys
/// keep their input order. The result is exactly the specification sort.
pub fn sort_rows(rows: Vec<Vec<u32>>, idx: usize, desc: bool) -> (r: Vec<Vec<u32>>)
    requires
        forall|i: int| 0 <= i < rows@.len() ==> idx < (#[trigger] rows@[i])@.len(),
    ensures
        rows_view(r@) == sort_rows_spec(rows_view(rows@), idx as int, desc),
        r@.len() == rows@.len(),
        forall|k: int|
            0 <= k < r@.len() ==> rows_view(rows@).contains((#[trigger] r@[k])@),
{
    let ghost orig = rows_view(rows@);
    let mut rest = rows;
    let mut out: Vec<Vec<u32>> = Vec::new();
    while rest.len() > 0
        invariant
            rest@.len() <= orig.len(),
            out@.len() + rest@.len() == orig.len(),
            rows_view(rest@) =~= orig.skip(orig.len() - rest@.len()),
            rows_view(out@) == sort_rows_spec(
                orig.take(orig.len() - rest@.len()),
                idx as int,
                desc,
            ),
            forall|i: int| 0 <= i < rest@.len() ==> idx < (#[trigger] rest@[i])@.len(),
            forall|i: int| 0 <= i < out@.len() ==> idx < (#[trigger] out@[i])@.len(),
        decreases rest@.len(),
    {
        let ghost done = orig.len() - rest@.len();
        let ghost rest0 = rest@;
        let row = rest.remove(0);
        proof {
            assert(rows_view(rest0)[0] == rest0[0]@);
            assert(row@ == orig.skip(done)[0]);
            assert(row@ == orig[done]);
            assert forall|i: int| 0 <= i < rest@.len() implies rows_view(rest@)[i] == orig.skip(
                done + 1,
            )[i] by {
                assert(rest@[i] == rest0[i + 1]);
                assert(rows_view(rest0)[i + 1] == rest0[i + 1]@);
                assert(rows_view(rest0)[i + 1] == orig.skip(done)[i + 1]);
            }
            assert(rows_view(rest@) =~= orig.skip(done + 1));
        }
        let mut j = out.len();
        while j > 0 && !cmp_dir_le(out[j - 1][idx], row[idx], desc)
            invariant
                j <= out@.len(),
                forall|i: int| 0 <= i < out@.len() ==> idx < (#[trigger] out@[i])@.len(),
                idx < row@.len(),
                forall|k: int|
                    j <= k < out@.len() ==> !dir_le(
                        (#[trigger] out@[k])@[idx as int],
                        row@[idx as int],
                        desc,
                    ),
            decreases j,
        {
            j -= 1;
        }
        let ghost before = rows_view(out@);
        proof {
            lemma_insert_row_at(before, row@, idx as int, desc, j as int);
        }
        out.insert(j, row);
        proof {
            assert(rows_view(out@) =~= before.take(j as int).push(row@) + before.skip(j as int));
            assert(orig.take(done + 1).drop_last() =~= orig.take(done));
            assert(orig.take(done + 1).last() == orig[done]);
            assert(rows_view(out@) == sort_rows_spec(orig.take(done + 1), idx as int, desc));
        }
    }
    proof {
        assert(orig.take(orig.len() as int) =~= orig);
        lemma_sort_rows_props(orig, idx as int, desc);
        assert(forall|k: int|
            0 <= k < out@.len() ==> rows_view(out@)[k] == (#[trigger] out@[k])@);
    }
    out
}

/// The predicate of rows whose key in the cell at `idx` is `k`.
pub open spec fn key_is(idx: int, k: int) -> spec_fn(Seq<u32>) -> bool {
    |r: Seq<u32>| tkey(r[idx]) == k
}

proof fn lemma_insert_row_filter(s: Seq<Seq<u32>>, row: Seq<u32>, idx: int, desc: bool, k: int)
    ensures
        insert_row(s, row, idx, desc).filter(key_is(idx, k)) == (if tkey(row[idx]) == k {
            s.filter(key_is(idx, k)).push(row)
        } else {
            s.filter(key_is(idx, k))
        }),
    decreases s.len(),
{
    reveal_with_fuel(Seq::<_>::filter, 2);
    let pred = key_is(idx, k);
    if s.len() == 0 {
        assert(insert_row(s, row, idx, desc) == seq![row]);
        assert(seq![row].drop_last() =~= Seq::<Seq<u32>>::empty());
        assert(seq![row].last() == row);
    } else if dir_le(s.last()[idx], row[idx], desc) {
        assert(insert_row(s, row, idx, desc) == s.push(row));
        assert(s.push(row).drop_last() =~= s);
        assert(s.push(row).last() == row);
    } else {
        let rest = insert_row(s.drop_last(), row, idx, desc);
        lemma_insert_row_filter(s.drop_last(), row, idx, desc, k);
        assert(insert_row(s, row, idx, desc) == rest.push(s.last()));
        assert(rest.push(s.last()).drop_last() =~= rest);
        if tkey(row[idx]) == k {
            // the displaced element cannot share the key: equal keys
            // compare less-or-equal in either direction
            assert(tkey(s.last()[idx]) != k);
        }
        assert(s.drop_last().push(s.last()) =~= s);
        assert(s.filter(pred) == (if pred(s.last()) {
            s.drop_last().filter(pred).push(s.last())
        } else {
            s.drop_last().filter(pred)
        }));
    }
}

/// A fixed-direction sort is stable: for every key, the rows holding that
/// key come out in exactly the order they went in.
pub proof fn lemma_sort_preserves_ties(rows: Seq<Seq<u32>>, idx: int, desc: bool, k: int)
    ensures
        sort_rows_spec(rows, idx, desc).filter(key_is(idx, k)) == rows.filter(key_is(idx, k)),
    decreases rows.len(),
{
    reveal_with_fuel(Seq::<_>::filter, 2);
    let pred = key_is(idx, k);
    if rows.len() == 0 {
    } else {
        lemma_sort_preserves_ties(rows.drop_last(), idx, desc, k);
        lemma_insert_row_filter(
            sort_rows_spec(rows.drop_last(), idx, desc),
            rows.last(),
            idx,
            desc,
            k,
        );
        assert(rows.filter(pred) == (if pred(rows.last()) {
            rows.drop_last().filter(pred).push(rows.last())
        } else {
            rows.drop_last().filter(pred)
        }));
    }
}

proof fn lemma_insert_row_all_above(s: Seq<Seq<u32>>, row: Seq<u32>, idx: int, desc: bool)
    requires
        forall|k: int| 0 <= k < s.len() ==> !dir_le(#[trigger] s[k][idx], row[idx], desc),
    ensures
        insert_row(s, row, idx, desc) == seq![row] + s,
    decreases s.len(),
{
    if s.len() == 0 {
        assert(insert_row(s, row, idx, desc) =~= seq![row] + s);
    } else {
        lemma_insert_row_all_above(s.drop_last(), row, idx, desc);
        assert((seq![row] + s.drop_last()).push(s.last()) =~= seq![row] + s);
    }
}

/// Sorting an already ascending-sorted sequence of rows with pairwise
/// distinct keys in the descending direction reverses it exactly: a sort
/// followed by a reversed sort yields the reversed row sequence.
pub proof fn lemma_resort_reverses(s: Seq<Seq<u32>>, idx: int)
    requires
        sorted_by(s, idx, false),
        distinct_keys(s, idx),
    ensures
        sort_rows_spec(s, idx, true) == s.reverse(),
    decreases s.len(),
{
    if s.len() == 0 {
        assert(s.reverse() =~= s);
    } else {
        assert(sorted_by(s.drop_last(), idx, false));
        assert(distinct_keys(s.drop_last(), idx));
        lemma_resort_reverses(s.drop_last(), idx);
        let prev = s.drop_last().reverse();
        assert forall|k: int| 0 <= k < prev.len() implies !dir_le(
            #[trigger] prev[k][idx],
            s.last()[idx],
            true,
        ) by {
            let m = prev.len() - 1 - k;
            assert(prev[k] == s.drop_last()[m]);
            assert(dir_le(s[m][idx], s.last()[idx], false));
            assert(tkey(s[m][idx]) != tkey(s.last()[idx]));
        }
        lemma_insert_row_all_above(prev, s.last(), idx, true);
        assert(seq![s.last()] + s.drop_last().reverse() =~= s.reverse());
    }
}

} // verus!
