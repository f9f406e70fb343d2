//! The output sinks' data shaping: the aligned text grid, the delimited
//! dump, and the header-to-cell pairing behind the JSON export. Writing
//! the shaped text anywhere is the caller's business.

use vstd::prelude::*;

use crate::decfmt::{fixed_str, fmt_fixed, push_repeat, rep_char};
use crate::num::{chars_to_string, display_of, fmt_default, parse_of};
use crate::fbits::is_nan_bits;
use crate::select::views_of;
use crate::table::{rows_view, Table};
use crate::text::{clean_text, pad_left, push_padded_left, push_str};

verus! {

pub open spec fn max_i(a: int, b: int) -> int {
    if a >= b {
        a
    } else {
        b
    }
}

/// The width of column `j` over the first `n` rows: the widest of the
/// header and every cell rendered with two decimals.
pub open spec fn col_width(hs: Seq<Seq<char>>, rows: Seq<Seq<u32>>, j: int, n: int) -> int
    decreases n,
{
    if n <= 0 {
        hs[j].len() as int
    } else {
        max_i(col_width(hs, rows, j, n - 1), fixed_str(rows[n - 1][j], 2).len() as int)
    }
}

/// The separator over the first `n` columns: `=` repeated to each
/// column's width plus two, the columns joined by `*`.
pub open spec fn sep_line(hs: Seq<Seq<char>>, rows: Seq<Seq<u32>>, n: int) -> Seq<char>
    decreases n,
{
    if n <= 0 {
        Seq::empty()
    } else if n == 1 {
        rep_char('=', col_width(hs, rows, 0, rows.len() as int) + 2)
    } else {
        sep_line(hs, rows, n - 1) + seq!['*'] + rep_char(
            '=',
            col_width(hs, rows, n - 1, rows.len() as int) + 2,
        )
    }
}

/// One cell right-aligned to its column width, a space on either side.
pub open spec fn padded_cell(s: Seq<char>, w: int) -> Seq<char> {
    seq![' '] + pad_left(s, w, ' ') + seq![' ']
}

/// The header row over the first `n` columns, cells joined by `*`.
pub open spec fn header_line(hs: Seq<Seq<char>>, rows: Seq<Seq<u32>>, n: int) -> Seq<char>
    decreases n,
{
    if n <= 0 {
        Seq::empty()
    } else if n == 1 {
        padded_cell(hs[0], col_width(hs, rows, 0, rows.len() as int))
    } else {
        header_line(hs, rows, n - 1) + seq!['*'] + padded_cell(
            hs[n - 1],
            col_width(hs, rows, n - 1, rows.len() as int),
        )
    }
}

/// One data row over the first `n` columns: each cell rendered with two
/// decimals, right-aligned, joined by `*`.
pub open spec fn row_line(hs: Seq<Seq<char>>, rows: Seq<Seq<u32>>, row: Seq<u32>, n: int) -> Seq<
    char,
>
    decreases n,
{
    if n <= 0 {
        Seq::empty()
    } else if n == 1 {
        padded_cell(fixed_str(row[0], 2), col_width(hs, rows, 0, rows.len() as int))
    } else {
        row_line(hs, rows, row, n - 1) + seq!['*'] + padded_cell(
            fixed_str(row[n - 1], 2),
            col_width(hs, rows, n - 1, rows.len() as int),
        )
    }
}

/// The whole text grid: separator, header row, separator, then either the
/// `EMPTY!` marker or every data row, and a closing separator.
pub open spec fn tabulate_spec(t: Table) -> Seq<Seq<char>> {
    let hs = views_of(t.headers@);
    let rows = rows_view(t.rows@);
    let m = hs.len() as int;
    let sep = sep_line(hs, rows, m);
    let hl = header_line(hs, rows, m);
    if rows.len() == 0 {
        seq![sep, hl, sep, ("EMPTY!")@, sep]
    } else {
        seq![sep, hl, sep] + Seq::new(rows.len(), |i: int| row_line(hs, rows, rows[i], m)) + seq![
            sep,
        ]
    }
}

/// Computes every column's width.
fn widths_of(t: &Table) -> (r: Vec<usize>)
    requires
        t.wf(),
    ensures
        r@.len() == t.headers@.len(),
        forall|j: int|
            0 <= j < r@.len() ==> r@[j] as int == col_width(
                views_of(t.headers@),
                rows_view(t.rows@),
                j,
                t.rows@.len() as int,
            ),
{
    let ghost hs = views_of(t.headers@);
    let ghost rows = rows_view(t.rows@);
    let m = t.headers.len();
    let n = t.rows.len();
    let mut out: Vec<usize> = Vec::new();
    let mut j: usize = 0;
    while j < m
        invariant
            j <= m,
            t.wf(),
            hs == views_of(t.headers@),
            rows == rows_view(t.rows@),
            m == t.headers@.len(),
            n == t.rows@.len(),
            out@.len() == j,
            forall|k: int|
                0 <= k < j ==> out@[k] as int == col_width(hs, rows, k, n as int),
        decreases m - j,
    {
        proof {
            assert(hs[j as int] == t.headers@[j as int]@);
        }
        let mut w: usize = t.headers[j].as_str().unicode_len();
        let mut i: usize = 0;
        while i < n
            invariant
                i <= n,
                j < m,
                t.wf(),
                hs == views_of(t.headers@),
                rows == rows_view(t.rows@),
                m == t.headers@.len(),
                n == t.rows@.len(),
                w as int == col_width(hs, rows, j as int, i as int),
            decreases n - i,
        {
            proof {
                assert(rows[i as int] == t.rows@[i as int]@);
            }
            let s = fmt_fixed(t.rows[i][j], 2);
            let l = s.as_str().unicode_len();
            if l > w {
                w = l;
            }
            i += 1;
        }
        out.push(w);
        j += 1;
    }
    out
}

/// Appends separator columns `0..n` to `line`.
fn push_sep(line: &mut Vec<char>, widths: &Vec<usize>, t: &Table)
    requires
        t.wf(),
        old(line)@.len() == 0,
        widths@.len() == t.headers@.len(),
        forall|j: int|
            0 <= j < widths@.len() ==> widths@[j] as int == col_width(
                views_of(t.headers@),
                rows_view(t.rows@),
                j,
                t.rows@.len() as int,
            ),
    ensures
        final(line)@ == sep_line(
            views_of(t.headers@),
            rows_view(t.rows@),
            t.headers@.len() as int,
        ),
{
    let ghost hs = views_of(t.headers@);
    let ghost rows = rows_view(t.rows@);
    let m = widths.len();
    let mut j: usize = 0;
    while j < m
        invariant
            j <= m,
            t.wf(),
            hs == views_of(t.headers@),
            rows == rows_view(t.rows@),
            m == widths@.len(),
            m == t.headers@.len(),
            forall|k: int|
                0 <= k < m ==> widths@[k] as int == col_width(hs, rows, k, t.rows@.len() as int),
            line@ == sep_line(hs, rows, j as int),
        decreases m - j,
    {
        if j > 0 {
            line.push('*');
        }
        push_repeat(line, '=', widths[j]);
        push_repeat(line, '=', 2);
        proof {
            let w = col_width(hs, rows, j as int, t.rows@.len() as int);
            if j == 0 {
                assert(line@ =~= rep_char('=', w + 2));
            } else {
                assert(line@ =~= sep_line(hs, rows, j as int) + seq!['*'] + rep_char('=', w + 2));
            }
        }
        j += 1;
    }
}

/// Renders the table as an aligned text grid: a `=`/`*` separator, the
/// header row, the data rows each cell right-aligned with two decimals —
/// or the `EMPTY!` marker when there are no rows — and a closing
/// separator. The exact lines are `tabulate_spec`.
pub fn tabulate_lines(t: &Table) -> (r: Vec<String>)
    requires
        t.wf(),
    ensures
        views_of(r@) == tabulate_spec(*t),
{
    let ghost hs = views_of(t.headers@);
    let ghost rows = rows_view(t.rows@);
    let m = t.headers.len();
    let n = t.rows.len();
    let widths = widths_of(t);
    let mut lines: Vec<String> = Vec::new();

    let mut sep: Vec<char> = Vec::new();
    push_sep(&mut sep, &widths, t);
    let sep_s = chars_to_string(&sep);

    // header row
    let mut hl: Vec<char> = Vec::new();
    let mut j: usize = 0;
    while j < m
        invariant
            j <= m,
            t.wf(),
            hs == views_of(t.headers@),
            rows == rows_view(t.rows@),
            m == t.headers@.len(),
            n == t.rows@.len(),
            widths@.len() == m,
            forall|k: int|
                0 <= k < m ==> widths@[k] as int == col_width(hs, rows, k, n as int),
            hl@ == header_line(hs, rows, j as int),
        decreases m - j,
    {
        if j > 0 {
            hl.push('*');
        }
        hl.push(' ');
        proof {
            assert(hs[j as int] == t.headers@[j as int]@);
        }
        push_padded_left(&mut hl, t.headers[j].as_str(), widths[j], ' ');
        hl.push(' ');
        proof {
            let w = col_width(hs, rows, j as int, n as int);
            if j == 0 {
                assert(hl@ =~= padded_cell(hs[0], w));
            } else {
                assert(hl@ =~= header_line(hs, rows, j as int) + seq!['*'] + padded_cell(
                    hs[j as int],
                    w,
                ));
            }
        }
        j += 1;
    }
    let hl_s = chars_to_string(&hl);

    lines.push(sep_s.clone());
    lines.push(hl_s);
    lines.push(sep_s.clone());

    if n == 0 {
        let mut e: Vec<char> = Vec::new();
        push_str(&mut e, "EMPTY!");
        lines.push(chars_to_string(&e));
        lines.push(sep_s);
        proof {
            assert(("EMPTY!")@ =~= Seq::empty() + ("EMPTY!")@);
            assert forall|q: int| 0 <= q < lines@.len() implies views_of(lines@)[q] == (
            #[trigger] lines@[q])@ by {}
            assert(lines@.len() == 5);
            assert(lines@[0]@ == sep_line(hs, rows, m as int));
            assert(lines@[1]@ == header_line(hs, rows, m as int));
            assert(lines@[2]@ == sep_line(hs, rows, m as int));
            assert(lines@[3]@ == ("EMPTY!")@);
            assert(lines@[4]@ == sep_line(hs, rows, m as int));
            let sl = tabulate_spec(*t);
            assert(sl == seq![
                sep_line(hs, rows, m as int),
                header_line(hs, rows, m as int),
                sep_line(hs, rows, m as int),
                ("EMPTY!")@,
                sep_line(hs, rows, m as int),
            ]);
            assert(sl.len() == 5);
            assert(views_of(lines@).len() == 5);
            assert(sl[0] == sep_line(hs, rows, m as int));
            assert(sl[1] == header_line(hs, rows, m as int));
            assert(sl[2] == sep_line(hs, rows, m as int));
            assert(sl[3] == ("EMPTY!")@);
            assert(sl[4] == sep_line(hs, rows, m as int));
            assert forall|q: int| 0 <= q < 5 implies views_of(lines@)[q] == sl[q] by {
                assert(views_of(lines@)[q] == lines@[q]@);
            }
            assert(views_of(lines@) =~= sl);
        }
        return lines;
    }

    let mut i: usize = 0;
    while i < n
        invariant
            i <= n,
            t.wf(),
            hs == views_of(t.headers@),
            rows == rows_view(t.rows@),
            m == t.headers@.len(),
            n == t.rows@.len(),
            n > 0,
            widths@.len() == m,
            forall|k: int|
                0 <= k < m ==> widths@[k] as int == col_width(hs, rows, k, n as int),
            lines@.len() == 3 + i,
            views_of(lines@.take(3)) =~= seq![
                sep_line(hs, rows, m as int),
                header_line(hs, rows, m as int),
                sep_line(hs, rows, m as int),
            ],
            forall|k: int|
                0 <= k < i ==> (#[trigger] lines@[3 + k])@ == row_line(hs, rows, rows[k], m as int),
        decreases n - i,
    {
        proof {
            assert(rows[i as int] == t.rows@[i as int]@);
        }
        let mut rl: Vec<char> = Vec::new();
        let mut j2: usize = 0;
        while j2 < m
            invariant
                j2 <= m,
                i < n,
                t.wf(),
                hs == views_of(t.headers@),
                rows == rows_view(t.rows@),
                m == t.headers@.len(),
                n == t.rows@.len(),
                widths@.len() == m,
                forall|k: int|
                    0 <= k < m ==> widths@[k] as int == col_width(hs, rows, k, n as int),
                rl@ == row_line(hs, rows, rows[i as int], j2 as int),
            decreases m - j2,
        {
            if j2 > 0 {
                rl.push('*');
            }
            rl.push(' ');
            let cell_s = fmt_fixed(t.rows[i][j2], 2);
            proof {
                assert(rows[i as int] == t.rows@[i as int]@);
            }
            push_padded_left(&mut rl, cell_s.as_str(), widths[j2], ' ');
            rl.push(' ');
            proof {
                let w = col_width(hs, rows, j2 as int, n as int);
                if j2 == 0 {
                    assert(rl@ =~= padded_cell(fixed_str(rows[i as int][0], 2), w));
                } else {
                    assert(rl@ =~= row_line(hs, rows, rows[i as int], j2 as int) + seq!['*']
                        + padded_cell(fixed_str(rows[i as int][j2 as int], 2), w));
                }
            }
            j2 += 1;
        }
        lines.push(chars_to_string(&rl));
        i += 1;
    }
    lines.push(sep_s);
    proof {
        let sl = tabulate_spec(*t);
        let body = Seq::new(rows.len(), |q: int| row_line(hs, rows, rows[q], m as int));
        assert(sl == seq![
            sep_line(hs, rows, m as int),
            header_line(hs, rows, m as int),
            sep_line(hs, rows, m as int),
        ] + body + seq![sep_line(hs, rows, m as int)]);
        assert(sl.len() == 4 + n);
        assert(lines@.len() == 4 + n);
        assert forall|q: int| 0 <= q < lines@.len() implies views_of(lines@)[q] == sl[q] by {
            assert(views_of(lines@)[q] == lines@[q]@);
            if q < 3 {
                assert(views_of(lines@.take(3))[q] == lines@.take(3)[q]@);
            } else if q < 3 + n {
                assert(lines@[3 + (q - 3)]@ == row_line(hs, rows, rows[q - 3], m as int));
                assert(sl[q] == body[q - 3]);
            } else {
                assert(lines@[q]@ == sep_line(hs, rows, m as int));
            }
        }
        assert(views_of(lines@) =~= sl);
    }
    lines
}

/// The first `n` cell texts joined by `sep`.
pub open spec fn join_cells(cells: Seq<Seq<char>>, sep: char, n: int) -> Seq<char>
    decreases n,
{
    if n <= 0 {
        Seq::empty()
    } else if n == 1 {
        cells[0]
    } else {
        join_cells(cells, sep, n - 1) + seq![sep] + cells[n - 1]
    }
}

/// The cell texts of one dumped row: each cell in the default decimal
/// form of its value.
pub open spec fn row_cells(row: Seq<u32>) -> Seq<Seq<char>> {
    Seq::new(row.len(), |j: int| display_of(row[j]))
}

/// Builds the delimited dump of the table: the comma-joined headers, then
/// one comma-joined line per row in the default numeric form — a
/// deliberately different format from the two-decimal text grid. Every
/// dumped cell is non-empty, holds neither comma nor whitespace, and,
/// when the cell is not a NaN, parses back to exactly its bit pattern.
pub fn dump_lines(t: &Table) -> (r: Vec<String>)
    requires
        t.wf(),
    ensures
        r@.len() == 1 + t.rows@.len(),
        r@[0]@ == join_cells(views_of(t.headers@), ',', t.headers@.len() as int),
        forall|i: int|
            0 <= i < t.rows@.len() ==> (#[trigger] r@[1 + i])@ == join_cells(
                row_cells(rows_view(t.rows@)[i]),
                ',',
                t.headers@.len() as int,
            ),
        forall|i: int, j: int|
            0 <= i < t.rows@.len() && 0 <= j < t.headers@.len() ==> clean_text(
                display_of(#[trigger] rows_view(t.rows@)[i][j]),
            ),
        forall|i: int, j: int|
            0 <= i < t.rows@.len() && 0 <= j < t.headers@.len() && !is_nan_bits(
                #[trigger] rows_view(t.rows@)[i][j],
            ) ==> parse_of(display_of(rows_view(t.rows@)[i][j])) == Some(rows_view(t.rows@)[i][j]),
{
    let ghost hs = views_of(t.headers@);
    let ghost rows = rows_view(t.rows@);
    let m = t.headers.len();
    let n = t.rows.len();
    let mut lines: Vec<String> = Vec::new();

    let mut head: Vec<char> = Vec::new();
    let mut j: usize = 0;
    while j < m
        invariant
            j <= m,
            hs == views_of(t.headers@),
            m == t.headers@.len(),
            head@ == join_cells(hs, ',', j as int),
        decreases m - j,
    {
        if j > 0 {
            head.push(',');
        }
        proof {
            assert(hs[j as int] == t.headers@[j as int]@);
        }
        push_str(&mut head, t.headers[j].as_str());
        proof {
            if j == 0 {
                assert(head@ =~= hs[0]);
            } else {
                assert(head@ =~= join_cells(hs, ',', j as int) + seq![','] + hs[j as int]);
            }
        }
        j += 1;
    }
    lines.push(chars_to_string(&head));

    let mut i: usize = 0;
    while i < n
        invariant
            i <= n,
            t.wf(),
            hs == views_of(t.headers@),
            rows == rows_view(t.rows@),
            m == t.headers@.len(),
            n == t.rows@.len(),
            lines@.len() == 1 + i,
            lines@[0]@ == join_cells(hs, ',', m as int),
            forall|k: int|
                0 <= k < i ==> (#[trigger] lines@[1 + k])@ == join_cells(
                    row_cells(rows[k]),
                    ',',
                    m as int,
                ),
            forall|k: int, j2: int|
                0 <= k < i && 0 <= j2 < m ==> clean_text(display_of(#[trigger] rows[k][j2])),
            forall|k: int, j2: int|
                0 <= k < i && 0 <= j2 < m && !is_nan_bits(#[trigger] rows[k][j2]) ==> parse_of(
                    display_of(rows[k][j2]),
                ) == Some(rows[k][j2]),
        decreases n - i,
    {
        proof {
            assert(rows[i as int] == t.rows@[i as int]@);
        }
        let mut rl: Vec<char> = Vec::new();
        let mut j2: usize = 0;
        while j2 < m
            invariant
                j2 <= m,
                i < n,
                t.wf(),
                hs == views_of(t.headers@),
                rows == rows_view(t.rows@),
                m == t.headers@.len(),
                n == t.rows@.len(),
                rl@ == join_cells(row_cells(rows[i as int]), ',', j2 as int),
                forall|q: int|
                    0 <= q < j2 ==> clean_text(display_of(#[trigger] rows[i as int][q])),
                forall|q: int|
                    0 <= q < j2 && !is_nan_bits(#[trigger] rows[i as int][q]) ==> parse_of(
                        display_of(rows[i as int][q]),
                    ) == Some(rows[i as int][q]),
            decreases m - j2,
        {
            if j2 > 0 {
                rl.push(',');
            }
            proof {
                assert(rows[i as int] == t.rows@[i as int]@);
            }
            let cell_s = fmt_default(t.rows[i][j2]);
            push_str(&mut rl, cell_s.as_str());
            proof {
                let rc = row_cells(rows[i as int]);
                assert(rc[j2 as int] == display_of(rows[i as int][j2 as int]));
                if j2 == 0 {
                    assert(rl@ =~= rc[0]);
                } else {
                    assert(rl@ =~= join_cells(rc, ',', j2 as int) + seq![','] + rc[j2 as int]);
                }
            }
            j2 += 1;
        }
        lines.push(chars_to_string(&rl));
        i += 1;
    }
    lines
}

/// Pairs every row's cells with the header names, one ordered pairing per
/// row: the shape of the JSON export, one object per row mapping each
/// header to its numeric cell.
pub fn json_pairs(t: &Table) -> (r: Vec<Vec<(String, u32)>>)
    requires
        t.wf(),
    ensures
        r@.len() == t.rows@.len(),
        forall|i: int| 0 <= i < r@.len() ==> (#[trigger] r@[i])@.len() == t.headers@.len(),
        forall|i: int, j: int|
            0 <= i < r@.len() && 0 <= j < t.headers@.len() ==> (#[trigger] r@[i]@[j]).0@
                == t.headers@[j]@ && r@[i]@[j].1 == t.rows@[i]@[j],
{
    let m = t.headers.len();
    let n = t.rows.len();
    let mut out: Vec<Vec<(String, u32)>> = Vec::new();
    let mut i: usize = 0;
    while i < n
        invariant
            i <= n,
            t.wf(),
            m == t.headers@.len(),
            n == t.rows@.len(),
            out@.len() == i,
            forall|k: int| 0 <= k < i ==> (#[trigger] out@[k])@.len() == m,
            forall|k: int, j: int|
                0 <= k < i && 0 <= j < m ==> (#[trigger] out@[k]@[j]).0@ == t.headers@[j]@
                    && out@[k]@[j].1 == t.rows@[k]@[j],
        decreases n - i,
    {
        let mut row: Vec<(String, u32)> = Vec::new();
        let mut j: usize = 0;
        while j < m
            invariant
                j <= m,
                i < n,
                t.wf(),
                m == t.headers@.len(),
                n == t.rows@.len(),
                row@.len() == j,
                forall|q: int|
                    0 <= q < j ==> (#[trigger] row@[q]).0@ == t.headers@[q]@ && row@[q].1
                        == t.rows@[i as int]@[q],
            decreases m - j,
        {
            row.push((t.headers[j].clone(), t.rows[i][j]));
            j += 1;
        }
        out.push(row);
        i += 1;
    }
    out
}

} // verus!
