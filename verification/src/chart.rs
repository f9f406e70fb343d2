//! The chart projector: two numeric columns rasterized onto a fixed
//! character grid with labeled axes.
//!
//! The pairs are ordered ascending by their x cell (stable, for a
//! deterministic rendering), the axis bounds are folded over the ordered
//! pairs ignoring NaN, and each pair maps to a grid cell by linear
//! interpolation; a degenerate axis, with its minimum equal to its
//! maximum, sends every point to that axis's centre instead of dividing
//! by zero.

use vstd::prelude::*;

use crate::decfmt::{fixed_str, fmt_fixed, push_repeat, rep_char};
use crate::fbits::{is_nan, is_nan_bits, cmp_eq, cmp_lt, val_eq, val_lt, NEG_INF, POS_INF};
use crate::num::{
    add_bits, add_of, div_bits, div_of, f32_of_usize, f32_to_usize, lower_of, mul_bits, mul_of,
    sub_bits, sub_of, trunc_of, usize_f32_of,
};
use crate::select::{first_index_of, resolve_category, views_of};
use crate::sorting::{sort_rows, sort_rows_spec};
use crate::table::{rows_view, Table};
use crate::text::{pad_left, push_padded_left, push_str};
use crate::QueryError;

verus! {

/// The raster dimensions and the count of x-axis labels. Passed in, not
/// hardwired, so small grids can be exercised as readily as the default.
pub struct ChartConfig {
    pub height: usize,
    pub width: usize,
    pub labels: usize,
}

impl ChartConfig {
    /// At least two rows, columns and labels, and small enough that
    /// every position computation fits comfortably in machine words.
    pub open spec fn wf(&self) -> bool {
        &&& 2 <= self.height <= 0x1000
        &&& 2 <= self.width <= 0x1000
        &&& 2 <= self.labels <= 0x1000
    }
}

impl Default for ChartConfig {
    /// The recommended raster: 15 rows by 40 columns, with 5 labels.
    fn default() -> (c: ChartConfig)
        ensures
            c.wf(),
            c.height == 15 && c.width == 40 && c.labels == 5,
    {
        ChartConfig { height: 15, width: 40, labels: 5 }
    }
}

/// The NaN-ignoring minimum of two patterns: a NaN yields the other
/// operand, a tie the first.
pub open spec fn min2(a: u32, b: u32) -> u32 {
    if is_nan_bits(b) {
        a
    } else if is_nan_bits(a) {
        b
    } else if val_lt(b, a) {
        b
    } else {
        a
    }
}

/// The NaN-ignoring maximum of two patterns.
pub open spec fn max2(a: u32, b: u32) -> u32 {
    if is_nan_bits(b) {
        a
    } else if is_nan_bits(a) {
        b
    } else if val_lt(a, b) {
        b
    } else {
        a
    }
}

/// The minimum of column `c` over the first `n` pairs, folded from
/// positive infinity.
pub open spec fn fold_min(ps: Seq<Seq<u32>>, c: int, n: int) -> u32
    decreases n,
{
    if n <= 0 {
        POS_INF
    } else {
        min2(fold_min(ps, c, n - 1), ps[n - 1][c])
    }
}

/// The maximum of column `c` over the first `n` pairs, folded from
/// negative infinity.
pub open spec fn fold_max(ps: Seq<Seq<u32>>, c: int, n: int) -> u32
    decreases n,
{
    if n <= 0 {
        NEG_INF
    } else {
        max2(fold_max(ps, c, n - 1), ps[n - 1][c])
    }
}

/// The (x, y) cell pairs of the rows, one two-cell row per input row.
pub open spec fn pairs_of(data: Seq<Seq<u32>>, xi: int, yi: int) -> Seq<Seq<u32>> {
    Seq::new(data.len(), |k: int| seq![data[k][xi], data[k][yi]])
}

/// The grid column of an x value: linear interpolation between the axis
/// bounds over `n - 1` steps, truncated; the centre column when the axis
/// is degenerate.
pub open spec fn x_pos_spec(v: u32, lo: u32, hi: u32, n: usize) -> int {
    if val_eq(lo, hi) {
        n as int / 2
    } else {
        trunc_of(
            mul_of(div_of(sub_of(v, lo), sub_of(hi, lo)), usize_f32_of((n - 1) as usize)),
        ) as int
    }
}

/// The grid row of a y value: as `x_pos_spec` but inverted, row zero
/// holding the highest value.
pub open spec fn y_pos_spec(v: u32, lo: u32, hi: u32, n: usize) -> int {
    if val_eq(lo, hi) {
        n as int / 2
    } else {
        trunc_of(
            mul_of(div_of(sub_of(hi, v), sub_of(hi, lo)), usize_f32_of((n - 1) as usize)),
        ) as int
    }
}

/// Whether some pair lands on grid cell `(i, j)`.
pub open spec fn cell_marked(
    ps: Seq<Seq<u32>>,
    mnx: u32,
    mxx: u32,
    mny: u32,
    mxy: u32,
    w: usize,
    h: usize,
    i: int,
    j: int,
) -> bool {
    exists|k: int|
        0 <= k < ps.len() && x_pos_spec(#[trigger] ps[k][0], mnx, mxx, w) == j && y_pos_spec(
            ps[k][1],
            mny,
            mxy,
            h,
        ) == i
}

/// The occupancy characters of grid row `i`: a `*` on each marked cell.
pub open spec fn grid_row(
    ps: Seq<Seq<u32>>,
    mnx: u32,
    mxx: u32,
    mny: u32,
    mxy: u32,
    w: usize,
    h: usize,
    i: int,
) -> Seq<char> {
    Seq::new(
        w as nat,
        |j: int|
            if cell_marked(ps, mnx, mxx, mny, mxy, w, h, i, j) {
                '*'
            } else {
                ' '
            },
    )
}

/// The y value labelled on grid row `i`, interpolated from the maximum at
/// row zero down to the minimum on the last row.
pub open spec fn y_label_val(i: int, mny: u32, mxy: u32, h: usize) -> u32 {
    if val_eq(mxy, mny) {
        mxy
    } else {
        sub_of(
            mxy,
            mul_of(
                div_of(usize_f32_of(i as usize), usize_f32_of((h - 1) as usize)),
                sub_of(mxy, mny),
            ),
        )
    }
}

/// The x value of label `i`, interpolated across the axis bounds.
pub open spec fn x_label_val(i: int, mnx: u32, mxx: u32, l: usize) -> u32 {
    if val_eq(mnx, mxx) {
        mnx
    } else {
        add_of(
            mnx,
            mul_of(
                sub_of(mxx, mnx),
                div_of(usize_f32_of(i as usize), usize_f32_of((l - 1) as usize)),
            ),
        )
    }
}

/// The x-axis label line after the first `n` labels: each label
/// right-aligned in six characters, placed at a column proportional to
/// its position, spaced by what the line already holds so labels never
/// overlap.
pub open spec fn x_labels_upto(mnx: u32, mxx: u32, w: usize, l: usize, n: int) -> Seq<char>
    decreases n,
{
    if n <= 0 {
        rep_char(' ', 7)
    } else {
        let prev = x_labels_upto(mnx, mxx, w, l, n - 1);
        let lbl = pad_left(fixed_str(x_label_val(n - 1, mnx, mxx, l), 1), 6, ' ');
        if n == 1 {
            prev + lbl
        } else {
            let pos = (w - 1) as int * (n - 1) / (l - 1) as int;
            let cur = prev.len() - 7;
            let gap = if pos > cur {
                pos - cur
            } else {
                0
            };
            prev + rep_char(' ', gap) + lbl
        }
    }
}

/// The title line naming the two charted columns.
pub open spec fn title_line(hx: Seq<char>, hy: Seq<char>) -> Seq<char> {
    ("y-axis (")@ + hy + (") x-axis (")@ + hx + (")")@
}

/// What the chart projector promises: both category names resolve
/// case-insensitively and the table has rows, or the exact error saying
/// which failed; on success, a title line, `height` grid rows each headed
/// by its interpolated y label, an axis rule, and the label line.
pub open spec fn chart_post(
    t: Table,
    xn: Seq<char>,
    yn: Seq<char>,
    cfg: ChartConfig,
    r: Result<Vec<String>, QueryError>,
) -> bool {
    let hsv = views_of(t.headers@);
    let resolvable = hsv.contains(lower_of(xn)) && hsv.contains(lower_of(yn));
    match r {
        Ok(lines) => {
            let xi = first_index_of(hsv, lower_of(xn));
            let yi = first_index_of(hsv, lower_of(yn));
            let ps = sort_rows_spec(pairs_of(rows_view(t.rows@), xi, yi), 0, false);
            let n = ps.len() as int;
            let mnx = fold_min(ps, 0, n);
            let mxx = fold_max(ps, 0, n);
            let mny = fold_min(ps, 1, n);
            let mxy = fold_max(ps, 1, n);
            &&& resolvable
            &&& t.rows@.len() > 0
            &&& lines@.len() == cfg.height + 3
            &&& lines@[0]@ == title_line(hsv[xi], hsv[yi])
            &&& forall|i: int|
                0 <= i < cfg.height ==> (#[trigger] lines@[1 + i])@ == pad_left(
                    fixed_str(y_label_val(i, mny, mxy, cfg.height), 1),
                    6,
                    ' ',
                ) + seq![' ', '|'] + grid_row(ps, mnx, mxx, mny, mxy, cfg.width, cfg.height, i)
            &&& lines@[cfg.height + 1]@ == rep_char(' ', 8) + rep_char(
                '-',
                cfg.width as int + 1,
            )
            &&& lines@[cfg.height + 2]@ == x_labels_upto(
                mnx,
                mxx,
                cfg.width,
                cfg.labels,
                cfg.labels as int,
            )
        },
        Err(e) => {
            &&& (e == QueryError::InvalidCategory || e == QueryError::EmptyDataset)
            &&& (e == QueryError::InvalidCategory <==> !resolvable)
            &&& (e == QueryError::EmptyDataset <==> resolvable && t.rows@.len() == 0)
        },
    }
}

/// A marked cell under a degenerate x axis sits in the centre column:
/// every point maps there, with no division by zero involved.
pub proof fn lemma_degenerate_axis_centers(
    ps: Seq<Seq<u32>>,
    mnx: u32,
    mxx: u32,
    mny: u32,
    mxy: u32,
    w: usize,
    h: usize,
    i: int,
    j: int,
)
    requires
        val_eq(mnx, mxx),
        cell_marked(ps, mnx, mxx, mny, mxy, w, h, i, j),
    ensures
        j == w as int / 2,
{
}

/// Over pairs whose column `c` values are all equal (as values) to some
/// non-NaN `v`, the folded minimum and maximum both equal `v`, so that
/// axis is degenerate.
pub proof fn lemma_fold_bounds_equal(ps: Seq<Seq<u32>>, c: int, n: int, v: u32)
    requires
        1 <= n <= ps.len(),
        !is_nan_bits(v),
        forall|k: int| 0 <= k < n ==> val_eq(#[trigger] ps[k][c], v),
    ensures
        val_eq(fold_min(ps, c, n), v),
        val_eq(fold_max(ps, c, n), v),
        val_eq(fold_min(ps, c, n), fold_max(ps, c, n)),
    decreases n,
{
    if n == 1 {
        assert(fold_min(ps, c, 1) == min2(fold_min(ps, c, 0), ps[0][c]));
        assert(fold_max(ps, c, 1) == max2(fold_max(ps, c, 0), ps[0][c]));
        assert(val_eq(ps[0][c], v));
    } else {
        lemma_fold_bounds_equal(ps, c, n - 1, v);
        assert(fold_min(ps, c, n) == min2(fold_min(ps, c, n - 1), ps[n - 1][c]));
        assert(fold_max(ps, c, n) == max2(fold_max(ps, c, n - 1), ps[n - 1][c]));
        assert(val_eq(ps[n - 1][c], v));
    }
}

fn min_cell(a: u32, b: u32) -> (r: u32)
    ensures
        r == min2(a, b),
{
    if is_nan(b) {
        a
    } else if is_nan(a) {
        b
    } else if cmp_lt(b, a) {
        b
    } else {
        a
    }
}

fn max_cell(a: u32, b: u32) -> (r: u32)
    ensures
        r == max2(a, b),
{
    if is_nan(b) {
        a
    } else if is_nan(a) {
        b
    } else if cmp_lt(a, b) {
        b
    } else {
        a
    }
}

fn col_min(ps: &Vec<Vec<u32>>, c: usize) -> (r: u32)
    requires
        forall|k: int| 0 <= k < ps@.len() ==> c < (#[trigger] ps@[k])@.len(),
    ensures
        r == fold_min(rows_view(ps@), c as int, ps@.len() as int),
{
    let mut acc: u32 = POS_INF;
    let mut k: usize = 0;
    while k < ps.len()
        invariant
            k <= ps@.len(),
            forall|m: int| 0 <= m < ps@.len() ==> c < (#[trigger] ps@[m])@.len(),
            acc == fold_min(rows_view(ps@), c as int, k as int),
        decreases ps@.len() - k,
    {
        proof {
            assert(rows_view(ps@)[k as int] == ps@[k as int]@);
        }
        acc = min_cell(acc, ps[k][c]);
        k += 1;
    }
    acc
}

fn col_max(ps: &Vec<Vec<u32>>, c: usize) -> (r: u32)
    requires
        forall|k: int| 0 <= k < ps@.len() ==> c < (#[trigger] ps@[k])@.len(),
    ensures
        r == fold_max(rows_view(ps@), c as int, ps@.len() as int),
{
    let mut acc: u32 = NEG_INF;
    let mut k: usize = 0;
    while k < ps.len()
        invariant
            k <= ps@.len(),
            forall|m: int| 0 <= m < ps@.len() ==> c < (#[trigger] ps@[m])@.len(),
            acc == fold_max(rows_view(ps@), c as int, k as int),
        decreases ps@.len() - k,
    {
        proof {
            assert(rows_view(ps@)[k as int] == ps@[k as int]@);
        }
        acc = max_cell(acc, ps[k][c]);
        k += 1;
    }
    acc
}

fn x_position(v: u32, lo: u32, hi: u32, n: usize) -> (r: usize)
    requires
        n >= 1,
    ensures
        r as int == x_pos_spec(v, lo, hi, n),
{
    if cmp_eq(lo, hi) {
        n / 2
    } else {
        f32_to_usize(mul_bits(div_bits(sub_bits(v, lo), sub_bits(hi, lo)), f32_of_usize(n - 1)))
    }
}

fn y_position(v: u32, lo: u32, hi: u32, n: usize) -> (r: usize)
    requires
        n >= 1,
    ensures
        r as int == y_pos_spec(v, lo, hi, n),
{
    if cmp_eq(lo, hi) {
        n / 2
    } else {
        f32_to_usize(mul_bits(div_bits(sub_bits(hi, v), sub_bits(hi, lo)), f32_of_usize(n - 1)))
    }
}

fn blank_row(w: usize) -> (r: Vec<bool>)
    ensures
        r@.len() == w,
        forall|j: int| 0 <= j < w ==> !(#[trigger] r@[j]),
{
    let mut row: Vec<bool> = Vec::new();
    let mut j: usize = 0;
    while j < w
        invariant
            j <= w,
            row@.len() == j,
            forall|m: int| 0 <= m < j ==> !(#[trigger] row@[m]),
        decreases w - j,
    {
        row.push(false);
        j += 1;
    }
    row
}

fn build_grid(ps: &Vec<Vec<u32>>, mnx: u32, mxx: u32, mny: u32, mxy: u32, w: usize, h: usize) -> (g:
    Vec<Vec<bool>>)
    requires
        w >= 2,
        h >= 2,
        forall|k: int| 0 <= k < ps@.len() ==> (#[trigger] ps@[k])@.len() >= 2,
    ensures
        g@.len() == h,
        forall|i: int| 0 <= i < h ==> (#[trigger] g@[i])@.len() == w,
        forall|i: int, j: int|
            0 <= i < h && 0 <= j < w ==> (#[trigger] g@[i]@[j]) == cell_marked(
                rows_view(ps@),
                mnx,
                mxx,
                mny,
                mxy,
                w,
                h,
                i,
                j,
            ),
{
    let ghost psv = rows_view(ps@);
    let mut g: Vec<Vec<bool>> = Vec::new();
    while g.len() < h
        invariant
            g@.len() <= h,
            forall|i: int| 0 <= i < g@.len() ==> (#[trigger] g@[i])@.len() == w,
            forall|i: int, j: int|
                0 <= i < g@.len() && 0 <= j < w ==> !(#[trigger] g@[i]@[j]),
        decreases h - g@.len(),
    {
        g.push(blank_row(w));
    }
    let mut k: usize = 0;
    while k < ps.len()
        invariant
            k <= ps@.len(),
            w >= 2,
            h >= 2,
            psv == rows_view(ps@),
            forall|m: int| 0 <= m < ps@.len() ==> (#[trigger] ps@[m])@.len() >= 2,
            g@.len() == h,
            forall|i: int| 0 <= i < h ==> (#[trigger] g@[i])@.len() == w,
            forall|i: int, j: int|
                0 <= i < h && 0 <= j < w ==> (#[trigger] g@[i]@[j]) == cell_marked(
                    psv.take(k as int),
                    mnx,
                    mxx,
                    mny,
                    mxy,
                    w,
                    h,
                    i,
                    j,
                ),
        decreases ps@.len() - k,
    {
        proof {
            assert(psv[k as int] == ps@[k as int]@);
        }
        let xp = x_position(ps[k][0], mnx, mxx, w);
        let yp = y_position(ps[k][1], mny, mxy, h);
        let ghost gpre = g@;
        if xp < w && yp < h {
            let mut row = g.remove(yp);
            row.set(xp, true);
            g.insert(yp, row);
            proof {
                assert forall|i: int| 0 <= i < h implies (#[trigger] g@[i])@.len() == w by {
                    if i < yp {
                        assert(g@[i] == gpre[i]);
                    } else if i == yp {
                    } else {
                        assert(g@[i] == gpre[i]);
                    }
                }
            }
        }
        proof {
            let pk = psv.take(k + 1);
            assert(pk[k as int] == psv[k as int]);
            assert forall|i: int, j: int|
                0 <= i < h && 0 <= j < w implies (#[trigger] g@[i]@[j]) == cell_marked(
                pk,
                mnx,
                mxx,
                mny,
                mxy,
                w,
                h,
                i,
                j,
            ) by {
                assert forall|m: int| 0 <= m < k implies pk[m] == psv.take(k as int)[m] by {}
                if xp < w && yp < h {
                    if i == yp as int && j == xp as int {
                        assert(cell_marked(pk, mnx, mxx, mny, mxy, w, h, i, j));
                        assert(g@[i]@[j]);
                    } else {
                        if i == yp as int {
                            assert(g@[i]@[j] == gpre[i]@[j]);
                        } else {
                            assert(g@[i] == gpre[i]);
                        }
                        if g@[i]@[j] {
                            let m = choose|m: int|
                                0 <= m < k && x_pos_spec(
                                    #[trigger] psv.take(k as int)[m][0],
                                    mnx,
                                    mxx,
                                    w,
                                ) == j && y_pos_spec(psv.take(k as int)[m][1], mny, mxy, h) == i;
                            assert(pk[m] == psv.take(k as int)[m]);
                            assert(cell_marked(pk, mnx, mxx, mny, mxy, w, h, i, j));
                        }
                        if cell_marked(pk, mnx, mxx, mny, mxy, w, h, i, j) {
                            let m = choose|m: int|
                                0 <= m < pk.len() && x_pos_spec(#[trigger] pk[m][0], mnx, mxx, w)
                                    == j && y_pos_spec(pk[m][1], mny, mxy, h) == i;
                            assert(m < k);
                            assert(cell_marked(psv.take(k as int), mnx, mxx, mny, mxy, w, h, i, j));
                        }
                    }
                } else {
                    if g@[i]@[j] {
                        let m = choose|m: int|
                            0 <= m < k && x_pos_spec(
                                #[trigger] psv.take(k as int)[m][0],
                                mnx,
                                mxx,
                                w,
                            ) == j && y_pos_spec(psv.take(k as int)[m][1], mny, mxy, h) == i;
                        assert(pk[m] == psv.take(k as int)[m]);
                        assert(cell_marked(pk, mnx, mxx, mny, mxy, w, h, i, j));
                    }
                    if cell_marked(pk, mnx, mxx, mny, mxy, w, h, i, j) {
                        let m = choose|m: int|
                            0 <= m < pk.len() && x_pos_spec(#[trigger] pk[m][0], mnx, mxx, w) == j
                                && y_pos_spec(pk[m][1], mny, mxy, h) == i;
                        if m == k {
                            assert(i == yp as int && j == xp as int);
                            assert(false);
                        }
                        assert(cell_marked(psv.take(k as int), mnx, mxx, mny, mxy, w, h, i, j));
                    }
                }
            }
        }
        k += 1;
    }
    proof {
        assert(psv.take(psv.len() as int) =~= psv);
    }
    g
}

/// Builds the (x, y) pair rows of the table for the two resolved columns.
fn make_pairs(rows: &Vec<Vec<u32>>, xi: usize, yi: usize) -> (r: Vec<Vec<u32>>)
    requires
        forall|k: int| 0 <= k < rows@.len() ==> xi < (#[trigger] rows@[k])@.len(),
        forall|k: int| 0 <= k < rows@.len() ==> yi < (#[trigger] rows@[k])@.len(),
    ensures
        rows_view(r@) == pairs_of(rows_view(rows@), xi as int, yi as int),
        r@.len() == rows@.len(),
        forall|k: int| 0 <= k < r@.len() ==> (#[trigger] r@[k])@.len() == 2,
{
    let ghost data = rows_view(rows@);
    let mut out: Vec<Vec<u32>> = Vec::new();
    let mut k: usize = 0;
    while k < rows.len()
        invariant
            k <= rows@.len(),
            data == rows_view(rows@),
            forall|m: int| 0 <= m < rows@.len() ==> xi < (#[trigger] rows@[m])@.len(),
            forall|m: int| 0 <= m < rows@.len() ==> yi < (#[trigger] rows@[m])@.len(),
            out@.len() == k,
            forall|m: int| 0 <= m < k ==> (#[trigger] out@[m])@ == seq![
                data[m][xi as int],
                data[m][yi as int],
            ],
        decreases rows@.len() - k,
    {
        proof {
            assert(data[k as int] == rows@[k as int]@);
        }
        let mut pair: Vec<u32> = Vec::new();
        pair.push(rows[k][xi]);
        pair.push(rows[k][yi]);
        proof {
            assert(pair@ =~= seq![data[k as int][xi as int], data[k as int][yi as int]]);
        }
        out.push(pair);
        k += 1;
    }
    proof {
        assert forall|m: int| 0 <= m < out@.len() implies rows_view(out@)[m] == pairs_of(
            data,
            xi as int,
            yi as int,
        )[m] by {
            assert(rows_view(out@)[m] == out@[m]@);
        }
        assert(rows_view(out@) =~= pairs_of(data, xi as int, yi as int));
    }
    out
}

/// Projects two columns of the table onto the configured raster and
/// materializes the finished text lines: title, labelled grid rows, axis
/// rule and x labels. See `chart_post` for the exact shape.
pub fn chart_lines(table: &Table, x: &String, y: &String, cfg: &ChartConfig) -> (r: Result<
    Vec<String>,
    QueryError,
>)
    requires
        table.wf(),
        cfg.wf(),
    ensures
        chart_post(*table, x@, y@, *cfg, r),
{
    let ghost hsv = views_of(table.headers@);
    let xio = resolve_category(&table.headers, x);
    let yio = resolve_category(&table.headers, y);
    let (xi, yi) = match (xio, yio) {
        (Some(a), Some(b)) => (a, b),
        _ => {
            return Err(QueryError::InvalidCategory);
        },
    };
    if table.rows.len() == 0 {
        return Err(QueryError::EmptyDataset);
    }
    let ghost data = rows_view(table.rows@);
    let pairs = make_pairs(&table.rows, xi, yi);
    let sorted = sort_rows(pairs, 0, false);
    let ghost ps = sort_rows_spec(pairs_of(data, xi as int, yi as int), 0, false);
    proof {
        assert(rows_view(sorted@) == ps);
        assert forall|k: int| 0 <= k < sorted@.len() implies (#[trigger] sorted@[k])@.len()
            == 2 by {
            assert(pairs_of(data, xi as int, yi as int).contains(rows_view(sorted@)[k]));
            let m = choose|m: int|
                0 <= m < pairs_of(data, xi as int, yi as int).len() && pairs_of(
                    data,
                    xi as int,
                    yi as int,
                )[m] == rows_view(sorted@)[k];
            assert(rows_view(sorted@)[k] == sorted@[k]@);
        }
    }
    let mnx = col_min(&sorted, 0);
    let mxx = col_max(&sorted, 0);
    let mny = col_min(&sorted, 1);
    let mxy = col_max(&sorted, 1);
    let grid = build_grid(&sorted, mnx, mxx, mny, mxy, cfg.width, cfg.height);
    let mut lines: Vec<String> = Vec::new();

    // title
    let mut title: Vec<char> = Vec::new();
    push_str(&mut title, "y-axis (");
    push_str(&mut title, table.headers[yi].as_str());
    push_str(&mut title, ") x-axis (");
    push_str(&mut title, table.headers[xi].as_str());
    push_str(&mut title, ")");
    proof {
        assert(hsv[yi as int] == table.headers@[yi as int]@);
        assert(hsv[xi as int] == table.headers@[xi as int]@);
        assert(title@ =~= title_line(hsv[xi as int], hsv[yi as int]));
    }
    lines.push(crate::num::chars_to_string(&title));

    // grid rows, each headed by its y label
    let mut i: usize = 0;
    while i < cfg.height
        invariant
            i <= cfg.height,
            cfg.wf(),
            grid@.len() == cfg.height,
            forall|m: int| 0 <= m < cfg.height ==> (#[trigger] grid@[m])@.len() == cfg.width,
            forall|m: int, j: int|
                0 <= m < cfg.height && 0 <= j < cfg.width ==> (#[trigger] grid@[m]@[j])
                    == cell_marked(ps, mnx, mxx, mny, mxy, cfg.width, cfg.height, m, j),
            lines@.len() == 1 + i,
            lines@[0]@ == title_line(hsv[xi as int], hsv[yi as int]),
            forall|m: int|
                0 <= m < i ==> (#[trigger] lines@[1 + m])@ == pad_left(
                    fixed_str(y_label_val(m, mny, mxy, cfg.height), 1),
                    6,
                    ' ',
                ) + seq![' ', '|'] + grid_row(ps, mnx, mxx, mny, mxy, cfg.width, cfg.height, m),
        decreases cfg.height - i,
    {
        let yv: u32 = if cmp_eq(mxy, mny) {
            mxy
        } else {
            sub_bits(
                mxy,
                mul_bits(
                    div_bits(f32_of_usize(i), f32_of_usize(cfg.height - 1)),
                    sub_bits(mxy, mny),
                ),
            )
        };
        proof {
            assert(yv == y_label_val(i as int, mny, mxy, cfg.height));
        }
        let label = fmt_fixed(yv, 1);
        let mut line: Vec<char> = Vec::new();
        push_padded_left(&mut line, label.as_str(), 6, ' ');
        line.push(' ');
        line.push('|');
        let ghost before = line@;
        let mut j: usize = 0;
        while j < cfg.width
            invariant
                j <= cfg.width,
                cfg.wf(),
                i < cfg.height,
                grid@.len() == cfg.height,
                forall|m: int| 0 <= m < cfg.height ==> (#[trigger] grid@[m])@.len() == cfg.width,
                forall|m: int, jj: int|
                    0 <= m < cfg.height && 0 <= jj < cfg.width ==> (#[trigger] grid@[m]@[jj])
                        == cell_marked(ps, mnx, mxx, mny, mxy, cfg.width, cfg.height, m, jj),
                line@ == before + grid_row(
                    ps,
                    mnx,
                    mxx,
                    mny,
                    mxy,
                    cfg.width,
                    cfg.height,
                    i as int,
                ).take(j as int),
            decreases cfg.width - j,
        {
            let c: char = if grid[i][j] {
                '*'
            } else {
                ' '
            };
            line.push(c);
            proof {
                let gr = grid_row(ps, mnx, mxx, mny, mxy, cfg.width, cfg.height, i as int);
                assert(gr[j as int] == c);
                assert(line@ =~= before + gr.take(j + 1));
            }
            j += 1;
        }
        proof {
            let gr = grid_row(ps, mnx, mxx, mny, mxy, cfg.width, cfg.height, i as int);
            assert(gr.take(cfg.width as int) =~= gr);
            assert(line@ =~= pad_left(fixed_str(y_label_val(i as int, mny, mxy, cfg.height), 1), 6, ' ')
                + seq![' ', '|'] + gr);
        }
        lines.push(crate::num::chars_to_string(&line));
        i += 1;
    }

    // axis rule
    let mut rule: Vec<char> = Vec::new();
    push_repeat(&mut rule, ' ', 8);
    push_repeat(&mut rule, '-', cfg.width + 1);
    proof {
        assert(rule@ =~= rep_char(' ', 8) + rep_char('-', cfg.width as int + 1));
    }
    lines.push(crate::num::chars_to_string(&rule));

    // x labels
    let mut lab: Vec<char> = Vec::new();
    push_repeat(&mut lab, ' ', 7);
    proof {
        assert(lab@ =~= x_labels_upto(mnx, mxx, cfg.width, cfg.labels, 0));
    }
    let mut li: usize = 0;
    while li < cfg.labels
        invariant
            li <= cfg.labels,
            cfg.wf(),
            lab@ == x_labels_upto(mnx, mxx, cfg.width, cfg.labels, li as int),
            lab@.len() >= 7,
        decreases cfg.labels - li,
    {
        let xv: u32 = if cmp_eq(mnx, mxx) {
            mnx
        } else {
            add_bits(
                mnx,
                mul_bits(
                    sub_bits(mxx, mnx),
                    div_bits(f32_of_usize(li), f32_of_usize(cfg.labels - 1)),
                ),
            )
        };
        proof {
            assert(xv == x_label_val(li as int, mnx, mxx, cfg.labels));
        }
        let label = fmt_fixed(xv, 1);
        if li == 0 {
            push_padded_left(&mut lab, label.as_str(), 6, ' ');
        } else {
            proof {
                assert(((cfg.width - 1) as int) * (li as int) <= 0x1000 * 0x1000)
                    by (nonlinear_arith)
                    requires
                        cfg.width <= 0x1000,
                        0 <= li <= 0x1000,
                ;
            }
            let pos = (cfg.width - 1) * li / (cfg.labels - 1);
            let cur = lab.len() - 7;
            if pos > cur {
                push_repeat(&mut lab, ' ', pos - cur);
            }
            push_padded_left(&mut lab, label.as_str(), 6, ' ');
        }
        proof {
            assert(lab@ =~= x_labels_upto(mnx, mxx, cfg.width, cfg.labels, li + 1));
        }
        li += 1;
    }
    lines.push(crate::num::chars_to_string(&lab));
    Ok(lines)
}

} // verus!
