//! The in-memory dataset: named numeric columns over ordered rows.

use vstd::prelude::*;

use crate::QueryError;

verus! {

/// The cell sequences of a sequence of rows.
pub open spec fn rows_view(rs: Seq<Vec<u32>>) -> Seq<Seq<u32>> {
    rs.map_values(|v: Vec<u32>| v@)
}

/// A headered numeric dataset. Each cell is the bit pattern of a binary32
/// value (see `fbits`). Header names need not be unique: a name resolves
/// to its first match.
#[derive(Debug)]
pub struct Table {
    pub headers: Vec<String>,
    pub rows: Vec<Vec<u32>>,
}

impl Table {
    /// Every row holds exactly one cell per header.
    pub open spec fn wf(&self) -> bool {
        forall|i: int|
            0 <= i < self.rows@.len() ==> (#[trigger] self.rows@[i])@.len()
                == self.headers@.len()
    }

    /// Builds a table, rejecting a shape mismatch: the result is `Ok`
    /// exactly when every row has as many cells as there are headers.
    pub fn new(headers: Vec<String>, rows: Vec<Vec<u32>>) -> (r: Result<
        Table,
        QueryError,
    >)
        ensures
            match r {
                Ok(t) => {
                    &&& t.headers == headers
                    &&& t.rows == rows
                    &&& t.wf()
                },
                Err(e) => {
                    &&& e == QueryError::ShapeMismatch
                    &&& exists|i: int|
                        0 <= i < rows@.len() && (#[trigger] rows@[i])@.len()
                            != headers@.len()
                },
            },
    {
        let mut i: usize = 0;
        while i < rows.len()
            invariant
                i <= rows@.len(),
                forall|k: int|
                    0 <= k < i ==> (#[trigger] rows@[k])@.len() == headers@.len(),
            decreases rows@.len() - i,
        {
            if rows[i].len() != headers.len() {
                return Err(QueryError::ShapeMismatch);
            }
            i += 1;
        }
        Ok(Table { headers, rows })
    }

}

} // verus!
