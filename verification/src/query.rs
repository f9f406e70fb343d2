//! The two row-level query operations over a whole table: sort and
//! filter, each resolving its category case-insensitively and applying
//! the result post-processing the caller asked for.

use vstd::prelude::*;

use crate::filtering::{filter_rows, row_passes, Operator};
use crate::num::lower_of;
use crate::postproc::{apply_count_and_reverse, shaped};
use crate::select::{first_index_of, resolve_category, views_of};
use crate::sorting::{sort_rows, sort_rows_spec};
use crate::table::{rows_view, Table};
use crate::QueryError;

verus! {

/// Sorts the rows by the named category, ascending under the binary32
/// total order or descending when `reverse` is set (a flipped comparator,
/// not a post-hoc reversal), then truncates to the first `count` rows.
/// Fails with `InvalidCategory` exactly when the name resolves to no
/// column; an empty table sorts to an empty table.
pub fn sort_table(table: Table, category: &String, count: Option<usize>, reverse: bool) -> (r:
    Result<Table, QueryError>)
    requires
        table.wf(),
    ensures
        ({
            let hsv = views_of(table.headers@);
            let data = rows_view(table.rows@);
            match r {
                Ok(t) => {
                    let sorted = sort_rows_spec(
                        data,
                        first_index_of(hsv, lower_of(category@)),
                        reverse,
                    );
                    &&& hsv.contains(lower_of(category@))
                    &&& t.headers == table.headers
                    &&& t.wf()
                    &&& rows_view(t.rows@) == (if count is Some && (count->Some_0 as int)
                        < sorted.len() {
                        sorted.take(count->Some_0 as int)
                    } else {
                        sorted
                    })
                    &&& (table.rows@.len() == 0 ==> t.rows@.len() == 0)
                },
                Err(e) => {
                    &&& e == QueryError::InvalidCategory
                    &&& !hsv.contains(lower_of(category@))
                },
            }
        }),
{
    let ghost hsv = views_of(table.headers@);
    let ghost data = rows_view(table.rows@);
    let Table { headers, rows } = table;
    let idx = match resolve_category(&headers, category) {
        Some(i) => i,
        None => {
            return Err(QueryError::InvalidCategory);
        },
    };
    proof {
        assert forall|k: int| 0 <= k < rows@.len() implies idx < (#[trigger] rows@[k])@.len() by {}
    }
    let mut sorted = sort_rows(rows, idx, reverse);
    let ghost sortedv = rows_view(sorted@);
    if let Some(c) = count {
        sorted.truncate(c);
        proof {
            if (c as int) < sortedv.len() {
                assert forall|k: int|
                    0 <= k < sorted@.len() implies rows_view(sorted@)[k] == sortedv.take(
                    c as int,
                )[k] by {
                    assert(rows_view(sorted@)[k] == sorted@[k]@);
                    assert(sortedv[k] == sorted@[k]@);
                }
                assert(rows_view(sorted@) =~= sortedv.take(c as int));
            } else {
                assert(rows_view(sorted@) =~= sortedv);
            }
        }
    }
    let t = Table { headers, rows: sorted };
    proof {
        assert forall|k: int| 0 <= k < t.rows@.len() implies (#[trigger] t.rows@[k])@.len()
            == t.headers@.len() by {
            assert(rows_view(t.rows@)[k] == t.rows@[k]@);
            let rv = rows_view(t.rows@)[k];
            assert(data.contains(rv)) by {
                if count is Some && (count->Some_0 as int) < sortedv.len() {
                    assert(rv == sortedv.take(count->Some_0 as int)[k]);
                    assert(rv == sortedv[k]);
                } else {
                    assert(rv == sortedv[k]);
                }
            }
            let m = choose|m: int| 0 <= m < data.len() && data[m] == rv;
            assert(data[m] == table.rows@[m]@);
        }
    }
    Ok(t)
}

/// Keeps the rows whose cell in the named category passes the comparison,
/// in input order, then reverses and truncates as asked. Fails with
/// `InvalidCategory` exactly when the name resolves to no column; an
/// empty table filters to an empty table.
pub fn filter_table(
    table: Table,
    category: &String,
    operator: &Operator,
    argument: u32,
    count: Option<usize>,
    reverse: bool,
) -> (r: Result<Table, QueryError>)
    requires
        table.wf(),
    ensures
        ({
            let hsv = views_of(table.headers@);
            let data = rows_view(table.rows@);
            match r {
                Ok(t) => {
                    let kept = data.filter(
                        row_passes(*operator, first_index_of(hsv, lower_of(category@)), argument),
                    );
                    &&& hsv.contains(lower_of(category@))
                    &&& t.headers == table.headers
                    &&& t.wf()
                    &&& rows_view(t.rows@) == shaped(kept, count, reverse)
                    &&& (table.rows@.len() == 0 ==> t.rows@.len() == 0)
                },
                Err(e) => {
                    &&& e == QueryError::InvalidCategory
                    &&& !hsv.contains(lower_of(category@))
                },
            }
        }),
{
    broadcast use vstd::seq_lib::group_filter_ensures;

    let ghost hsv = views_of(table.headers@);
    let ghost data = rows_view(table.rows@);
    let Table { headers, rows } = table;
    let idx = match resolve_category(&headers, category) {
        Some(i) => i,
        None => {
            return Err(QueryError::InvalidCategory);
        },
    };
    proof {
        assert forall|k: int| 0 <= k < rows@.len() implies idx < (#[trigger] rows@[k])@.len() by {}
    }
    let mut kept = filter_rows(rows, idx, *operator, argument);
    let ghost keptv = rows_view(kept@);
    proof {
        if data.len() == 0 {
            assert(data.filter(row_passes(*operator, idx as int, argument)) =~= data);
        }
    }
    apply_count_and_reverse(&mut kept, count, reverse);
    let t = Table { headers, rows: kept };
    proof {
        let sh = shaped(keptv, count, reverse);
        let base = if reverse {
            keptv.reverse()
        } else {
            keptv
        };
        assert(rows_view(t.rows@) == sh);
        if count is Some && (count->Some_0 as int) < base.len() {
            assert(sh == base.take(count->Some_0 as int));
        } else {
            assert(sh == base);
        }
        assert(sh.len() <= base.len());
        assert forall|k: int| 0 <= k < t.rows@.len() implies (#[trigger] t.rows@[k])@.len()
            == t.headers@.len() by {
            assert(rows_view(t.rows@)[k] == t.rows@[k]@);
            let rv = t.rows@[k]@;
            assert(rv == sh[k]);
            assert(rv == base[k]);
            if reverse {
                assert(base[k] == keptv[keptv.len() - 1 - k]);
            }
            assert(keptv.contains(rv));
            let m = choose|m: int| 0 <= m < keptv.len() && keptv[m] == rv;
            let pred = row_passes(*operator, idx as int, argument);
            assert(keptv == data.filter(pred));
            crate::filtering::lemma_filter_member(data, pred, m);
            assert(data.contains(keptv[m]));
            let q = choose|q: int| 0 <= q < data.len() && data[q] == rv;
            assert(data[q] == table.rows@[q]@);
        }
    }
    Ok(t)
}

} // verus!
