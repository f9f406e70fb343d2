//! The result post-processor: `reverse`, then `count` head-truncation.

use vstd::prelude::*;

use crate::table::rows_view;

verus! {

/// The shape of a post-processed result: the whole-row order reversed
/// when `reverse` is set, then the first `count` rows kept when a count
/// is given — reverse first, truncate second.
pub open spec fn shaped(rows: Seq<Seq<u32>>, count: Option<usize>, reverse: bool) -> Seq<
    Seq<u32>,
> {
    let rev = if reverse {
        rows.reverse()
    } else {
        rows
    };
    if count is Some && (count->Some_0 as int) < rev.len() {
        rev.take(count->Some_0 as int)
    } else {
        rev
    }
}

/// Reverses the whole-row order when asked, then truncates to the first
/// `count` rows when a count is given: `reverse=true, count=n` yields the
/// last `n` rows of the input, last first.
pub fn apply_count_and_reverse(data: &mut Vec<Vec<u32>>, count: Option<usize>, reverse: bool)
    ensures
        rows_view(final(data)@) == shaped(rows_view(old(data)@), count, reverse),
{
    let ghost orig = rows_view(old(data)@);
    if reverse {
        let mut flipped: Vec<Vec<u32>> = Vec::new();
        let ghost n = data@.len() as int;
        while data.len() > 0
            invariant
                data@.len() + flipped@.len() == n,
                rows_view(old(data)@).len() == n,
                forall|i: int|
                    0 <= i < data@.len() ==> rows_view(data@)[i] == orig[i],
                forall|i: int|
                    0 <= i < flipped@.len() ==> rows_view(flipped@)[i] == orig[n - 1 - i],
            decreases data@.len(),
        {
            let ghost d0 = data@;
            let ghost f0 = flipped@;
            let row = data.pop().unwrap();
            flipped.push(row);
            proof {
                assert(row@ == rows_view(d0)[d0.len() - 1]);
                assert forall|i: int| 0 <= i < data@.len() implies rows_view(data@)[i] == orig[i] by {
                    assert(data@[i] == d0[i]);
                    assert(rows_view(d0)[i] == d0[i]@);
                }
                assert forall|i: int|
                    0 <= i < flipped@.len() implies rows_view(flipped@)[i] == orig[n - 1 - i] by {
                    if i < f0.len() {
                        assert(flipped@[i] == f0[i]);
                        assert(rows_view(f0)[i] == f0[i]@);
                    } else {
                        assert(flipped@[i] == row);
                    }
                }
            }
        }
        *data = flipped;
        proof {
            assert(rows_view(data@) =~= orig.reverse());
        }
    }
    let ghost rev = if reverse {
        orig.reverse()
    } else {
        orig
    };
    if let Some(c) = count {
        let ghost before = rows_view(data@);
        data.truncate(c);
        proof {
            if (c as int) < rev.len() {
                assert forall|i: int|
                    0 <= i < data@.len() implies rows_view(data@)[i] == rev.take(c as int)[i] by {
                    assert(rows_view(data@)[i] == data@[i]@);
                    assert(data@[i]@ == before[i]);
                    assert(before[i] == rev[i]);
                }
                assert(rows_view(data@) =~= rev.take(c as int));
            } else {
                assert(rows_view(data@) =~= rev);
            }
        }
    }
}

} // verus!
