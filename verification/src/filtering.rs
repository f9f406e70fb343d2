//! Filtering rows by one comparison against a column.

use vstd::prelude::*;
use vstd::seq_lib::*;

use crate::fbits::{
    cmp_le, cmp_lt, is_nan_bits, mag_of, magnitude, val_eq, val_ge, val_gt, val_le, val_lt,
    EPSILON_BITS,
};
use crate::num::{sub_bits, sub_of};
use crate::table::rows_view;

verus! {

/// The comparison operator of a filter.
#[derive(Debug, Clone, Copy, PartialEq, Eq, Structural)]
pub enum Operator {
    /// Greater than.
    Gt,
    /// Greater than or equal.
    Gte,
    /// Less than.
    Lt,
    /// Less than or equal.
    Lte,
    /// Equal to, within the binary32 machine epsilon.
    Eq,
    /// Not equal to, beyond the binary32 machine epsilon.
    Neq,
}

/// Whether `cell OP argument` holds. The four relational operators compare
/// the IEEE values directly, with no tolerance; equality and inequality
/// deliberately do not — they compare the absolute difference against the
/// binary32 machine epsilon, since exact equality of floating values is
/// unreliable. A difference exactly at the epsilon, or an incomparable
/// (NaN) difference, passes neither `Eq` nor `Neq`.
pub open spec fn op_passes(op: Operator, cell: u32, arg: u32) -> bool {
    match op {
        Operator::Gt => val_gt(cell, arg),
        Operator::Gte => val_ge(cell, arg),
        Operator::Lt => val_lt(cell, arg),
        Operator::Lte => val_le(cell, arg),
        Operator::Eq => val_lt(mag_of(sub_of(cell, arg)), EPSILON_BITS),
        Operator::Neq => val_gt(mag_of(sub_of(cell, arg)), EPSILON_BITS),
    }
}

impl Operator {
    /// Evaluates `cell OP argument`.
    pub fn evaluate(&self, cell: u32, arg: u32) -> (r: bool)
        ensures
            r == op_passes(*self, cell, arg),
    {
        match self {
            Operator::Gt => cmp_lt(arg, cell),
            Operator::Gte => cmp_le(arg, cell),
            Operator::Lt => cmp_lt(cell, arg),
            Operator::Lte => cmp_le(cell, arg),
            Operator::Eq => {
                let d = sub_bits(cell, arg);
                cmp_lt(magnitude(d), EPSILON_BITS)
            },
            Operator::Neq => {
                let d = sub_bits(cell, arg);
                cmp_lt(EPSILON_BITS, magnitude(d))
            },
        }
    }
}

/// The predicate of rows whose cell at `idx` passes `OP argument`.
pub open spec fn row_passes(op: Operator, idx: int, arg: u32) -> spec_fn(Seq<u32>) -> bool {
    |r: Seq<u32>| op_passes(op, r[idx], arg)
}

/// Keeps, in input order, exactly the rows whose cell at `idx` passes the
/// comparison.
pub fn filter_rows(rows: Vec<Vec<u32>>, idx: usize, op: Operator, arg: u32) -> (r: Vec<Vec<u32>>)
    requires
        forall|i: int| 0 <= i < rows@.len() ==> idx < (#[trigger] rows@[i])@.len(),
    ensures
        rows_view(r@) == rows_view(rows@).filter(row_passes(op, idx as int, arg)),
{
    let ghost orig = rows_view(rows@);
    let ghost pred = row_passes(op, idx as int, arg);
    let mut rest = rows;
    let mut out: Vec<Vec<u32>> = Vec::new();
    while rest.len() > 0
        invariant
            rest@.len() <= orig.len(),
            rows_view(rest@) =~= orig.skip(orig.len() - rest@.len()),
            pred == row_passes(op, idx as int, arg),
            rows_view(out@) == orig.take(orig.len() - rest@.len()).filter(pred),
            forall|i: int| 0 <= i < rest@.len() ==> idx < (#[trigger] rest@[i])@.len(),
        decreases rest@.len(),
    {
        reveal_with_fuel(Seq::<_>::filter, 2);
        let ghost done = orig.len() - rest@.len();
        let ghost rest0 = rest@;
        let row = rest.remove(0);
        proof {
            assert(rows_view(rest0)[0] == rest0[0]@);
            assert(row@ == orig.skip(done)[0]);
            assert(row@ == orig[done]);
            assert forall|i: int| 0 <= i < rest@.len() implies rows_view(rest@)[i] == orig.skip(
                done + 1,
            )[i] by {
                assert(rest@[i] == rest0[i + 1]);
                assert(rows_view(rest0)[i + 1] == rest0[i + 1]@);
                assert(rows_view(rest0)[i + 1] == orig.skip(done)[i + 1]);
            }
            assert(rows_view(rest@) =~= orig.skip(done + 1));
        }
        let keep = op.evaluate(row[idx], arg);
        let ghost before = rows_view(out@);
        if keep {
            out.push(row);
        }
        proof {
            assert(orig.take(done + 1).drop_last() =~= orig.take(done));
            assert(orig.take(done + 1).last() == orig[done]);
            assert(pred(orig[done]) == keep);
            if keep {
                assert(rows_view(out@) =~= before.push(row@));
            }
            assert(rows_view(out@) =~= orig.take(done + 1).filter(pred));
        }
    }
    proof {
        assert(orig.take(orig.len() as int) =~= orig);
    }
    out
}

/// Every surviving row already stood among the input rows.
pub proof fn lemma_filter_member(s: Seq<Seq<u32>>, pred: spec_fn(Seq<u32>) -> bool, i: int)
    requires
        0 <= i < s.filter(pred).len(),
    ensures
        s.contains(s.filter(pred)[i]),
    decreases s.len(),
{
    reveal_with_fuel(Seq::<_>::filter, 2);
    broadcast use vstd::seq_lib::group_filter_ensures;

    if s.len() == 0 {
    } else {
        let sub = s.drop_last().filter(pred);
        if pred(s.last()) {
            assert(s.filter(pred) == sub.push(s.last()));
            if i == s.filter(pred).len() - 1 {
                assert(s.filter(pred)[i] == s[s.len() - 1]);
            } else {
                lemma_filter_member(s.drop_last(), pred, i);
                let m = choose|m: int|
                    0 <= m < s.drop_last().len() && s.drop_last()[m] == sub[i];
                assert(s[m] == sub[i]);
            }
        } else {
            assert(s.filter(pred) == sub);
            lemma_filter_member(s.drop_last(), pred, i);
            let m = choose|m: int| 0 <= m < s.drop_last().len() && s.drop_last()[m] == sub[i];
            assert(s[m] == sub[i]);
        }
    }
}

/// `Eq` and `Neq` never both hold of one cell: the partition of a filter
/// pair is disjoint.
pub proof fn lemma_eq_neq_disjoint(cell: u32, arg: u32)
    ensures
        !(op_passes(Operator::Eq, cell, arg) && op_passes(Operator::Neq, cell, arg)),
{
}

/// Filtering with `Eq` and with `Neq` on one column and argument
/// partitions the rows: the two survivor sequences are disjoint by the
/// lemma above, and their multisets add up to the original rows, provided
/// no row's difference from the argument is incomparable (NaN) or lands
/// exactly on the epsilon — such a row would pass neither filter.
pub proof fn lemma_eq_neq_partition(rows: Seq<Seq<u32>>, idx: int, arg: u32)
    requires
        forall|i: int|
            0 <= i < rows.len() ==> !is_nan_bits(sub_of(#[trigger] rows[i][idx], arg))
                && !val_eq(mag_of(sub_of(rows[i][idx], arg)), EPSILON_BITS),
    ensures
        rows.filter(row_passes(Operator::Eq, idx, arg)).to_multiset().add(
            rows.filter(row_passes(Operator::Neq, idx, arg)).to_multiset(),
        ) == rows.to_multiset(),
    decreases rows.len(),
{
    broadcast use vstd::seq_lib::group_to_multiset_ensures;

    reveal_with_fuel(Seq::<_>::filter, 2);
    let peq = row_passes(Operator::Eq, idx, arg);
    let pneq = row_passes(Operator::Neq, idx, arg);
    if rows.len() == 0 {
        assert(rows.filter(peq).to_multiset().add(rows.filter(pneq).to_multiset())
            =~= rows.to_multiset());
    } else {
        let prior = rows.drop_last();
        lemma_eq_neq_partition(prior, idx, arg);
        let last = rows.last();
        assert(rows[rows.len() - 1] == last);
        let d = sub_of(last[idx], arg);
        assert(!is_nan_bits(d) && !val_eq(mag_of(d), EPSILON_BITS));
        assert(!is_nan_bits(mag_of(d)));
        assert(peq(last) || pneq(last));
        assert(prior.push(last) =~= rows);
        assert(prior.to_multiset().insert(last) == rows.to_multiset());
        if peq(last) {
            assert(rows.filter(peq) == prior.filter(peq).push(last));
            assert(rows.filter(pneq) == prior.filter(pneq));
            assert(rows.filter(peq).to_multiset() == prior.filter(peq).to_multiset().insert(last));
            assert(rows.filter(peq).to_multiset().add(rows.filter(pneq).to_multiset())
                =~= prior.to_multiset().insert(last));
        } else {
            assert(rows.filter(pneq) == prior.filter(pneq).push(last));
            assert(rows.filter(peq) == prior.filter(peq));
            assert(rows.filter(pneq).to_multiset() == prior.filter(pneq).to_multiset().insert(
                last,
            ));
            assert(rows.filter(peq).to_multiset().add(rows.filter(pneq).to_multiset())
                =~= prior.to_multiset().insert(last));
        }
    }
}

} // verus!
