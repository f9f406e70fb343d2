//! Ingestion: delimited text to a table.
//!
//! The first line names the columns (trimmed, lowercased); every further
//! non-empty line is a row of comma-separated numeric cells. A cell is
//! parsed as a binary32 number, then as a 32-bit integer, and a cell that
//! is neither becomes the sentinel `-1.0` under the lenient discipline or
//! a fatal error under the strict one.

use vstd::prelude::*;

use crate::fbits::SENTINEL_BITS;
use crate::num::{chars_to_string, f32_of_i32, i32_f32_of, lower_of, lowercase, parse_f32, parse_of};
use crate::select::views_of;
use crate::table::{rows_view, Table};
use crate::text::{is_space, is_space_char, push_str};
use crate::QueryError;

verus! {

/// The text split at every occurrence of `sep`: always at least one
/// piece, and empty pieces kept, as `str::split` yields them.
pub open spec fn split_char(s: Seq<char>, sep: char) -> Seq<Seq<char>>
    decreases s.len(),
{
    if s.len() == 0 {
        seq![Seq::<char>::empty()]
    } else if s[0] == sep {
        seq![Seq::<char>::empty()] + split_char(s.drop_first(), sep)
    } else {
        let rest = split_char(s.drop_first(), sep);
        seq![seq![s[0]] + rest[0]] + rest.drop_first()
    }
}

/// Splitting yields at least one piece.
pub proof fn lemma_split_char_len(s: Seq<char>, sep: char)
    ensures
        split_char(s, sep).len() >= 1,
    decreases s.len(),
{
    if s.len() == 0 {
    } else {
        lemma_split_char_len(s.drop_first(), sep);
    }
}

/// Appending one character extends the last piece, or opens a new empty
/// piece when the character is the separator.
pub proof fn lemma_split_char_snoc(s: Seq<char>, c: char, sep: char)
    ensures
        split_char(s, sep).len() >= 1,
        split_char(s.push(c), sep) == (if c == sep {
            split_char(s, sep).push(Seq::<char>::empty())
        } else {
            split_char(s, sep).update(
                split_char(s, sep).len() - 1,
                split_char(s, sep).last().push(c),
            )
        }),
    decreases s.len(),
{
    reveal_with_fuel(split_char, 3);
    lemma_split_char_len(s, sep);
    let sp = split_char(s, sep);
    let e = s.push(c);
    if s.len() == 0 {
        if c == sep {
            assert(e[0] == sep);
            assert(e.drop_first() =~= Seq::<char>::empty());
            assert(split_char(e, sep) =~= sp.push(Seq::<char>::empty()));
        } else {
            assert(e[0] == c);
            assert(e.drop_first() =~= Seq::<char>::empty());
            assert(split_char(e, sep) =~= sp.update(0, sp.last().push(c)));
        }
    } else {
        lemma_split_char_snoc(s.drop_first(), c, sep);
        lemma_split_char_len(s.drop_first(), sep);
        let spd = split_char(s.drop_first(), sep);
        assert(e.drop_first() =~= s.drop_first().push(c));
        assert(e[0] == s[0]);
        if s[0] == sep {
            if c == sep {
                assert(split_char(e, sep) =~= sp.push(Seq::<char>::empty()));
            } else {
                assert(split_char(e, sep) =~= sp.update(sp.len() - 1, sp.last().push(c)));
            }
        } else {
            if c == sep {
                assert(split_char(e, sep) =~= sp.push(Seq::<char>::empty()));
            } else {
                let spd2 = spd.update(spd.len() - 1, spd.last().push(c));
                if spd.len() == 1 {
                    assert(split_char(e, sep) =~= sp.update(sp.len() - 1, sp.last().push(c)));
                } else {
                    assert(spd2[0] == spd[0]);
                    assert(split_char(e, sep) =~= sp.update(sp.len() - 1, sp.last().push(c)));
                }
            }
        }
    }
}

/// The pieces' character sequences.
pub open spec fn pieces_view(s: Seq<Vec<char>>) -> Seq<Seq<char>> {
    s.map_values(|v: Vec<char>| v@)
}

/// Splits the characters at every `sep`, empty pieces kept.
pub fn split_char_exec(v: &Vec<char>, sep: char) -> (r: Vec<Vec<char>>)
    ensures
        pieces_view(r@) == split_char(v@, sep),
        r@.len() >= 1,
{
    let mut done: Vec<Vec<char>> = Vec::new();
    let mut cur: Vec<char> = Vec::new();
    let mut i: usize = 0;
    proof {
        assert(split_char(v@.take(0), sep) =~= seq![Seq::<char>::empty()]);
        assert(pieces_view(done@).push(cur@) =~= split_char(v@.take(0), sep));
    }
    while i < v.len()
        invariant
            i <= v@.len(),
            pieces_view(done@).push(cur@) == split_char(v@.take(i as int), sep),
        decreases v@.len() - i,
    {
        let c = v[i];
        proof {
            lemma_split_char_snoc(v@.take(i as int), c, sep);
            assert(v@.take(i + 1) =~= v@.take(i as int).push(v@[i as int]));
        }
        let ghost pre_done = done@;
        let ghost pre_cur = cur@;
        if c == sep {
            done.push(cur);
            cur = Vec::new();
            proof {
                assert forall|q: int|
                    0 <= q < done@.len() implies pieces_view(done@)[q] == pieces_view(
                    pre_done,
                ).push(pre_cur)[q] by {
                    assert(pieces_view(done@)[q] == done@[q]@);
                    if q < pre_done.len() {
                        assert(pieces_view(pre_done)[q] == pre_done[q]@);
                    }
                }
                assert(pieces_view(done@) =~= pieces_view(pre_done).push(pre_cur));
                assert(pieces_view(done@).push(cur@) =~= split_char(v@.take(i + 1), sep));
            }
        } else {
            cur.push(c);
            proof {
                let old_sp = split_char(v@.take(i as int), sep);
                assert(old_sp.last() == pre_cur);
                assert(pieces_view(done@).push(cur@) =~= old_sp.update(
                    old_sp.len() - 1,
                    pre_cur.push(c),
                ));
            }
        }
        i += 1;
    }
    proof {
        assert(v@.take(v@.len() as int) =~= v@);
    }
    done.push(cur);
    proof {
        assert forall|q: int|
            0 <= q < done@.len() implies pieces_view(done@)[q] == split_char(v@, sep)[q] by {
            assert(pieces_view(done@)[q] == done@[q]@);
        }
        assert(pieces_view(done@) =~= split_char(v@, sep));
    }
    done
}

/// One piece with a single trailing carriage return removed.
pub open spec fn strip_cr(s: Seq<char>) -> Seq<char> {
    if s.len() > 0 && s.last() == '\r' {
        s.drop_last()
    } else {
        s
    }
}

/// The lines of the text, as `str::lines` yields them: split at `\n`, a
/// carriage return before each `\n` removed, and a final empty piece —
/// from a trailing line break — dropped.
pub open spec fn split_lines(s: Seq<char>) -> Seq<Seq<char>> {
    let raw = split_char(s, '\n');
    let body = Seq::new((raw.len() - 1) as nat, |i: int| strip_cr(raw[i]));
    if raw.last().len() == 0 {
        body
    } else {
        body.push(raw.last())
    }
}

/// Splits the characters into lines.
pub fn split_lines_exec(v: &Vec<char>) -> (r: Vec<Vec<char>>)
    ensures
        pieces_view(r@) == split_lines(v@),
{
    let raw = split_char_exec(v, '\n');
    let ghost rawv = pieces_view(raw@);
    let n = raw.len();
    let mut out: Vec<Vec<char>> = Vec::new();
    let mut i: usize = 0;
    while i + 1 < n
        invariant
            n == raw@.len(),
            rawv == pieces_view(raw@),
            i < n || n == 0,
            i + 1 <= n,
            out@.len() == i,
            forall|q: int| 0 <= q < i ==> (#[trigger] out@[q])@ == strip_cr(rawv[q]),
        decreases n - i,
    {
        proof {
            assert(rawv[i as int] == raw@[i as int]@);
        }
        let piece = &raw[i];
        let mut line: Vec<char> = Vec::new();
        let keep: usize = if piece.len() > 0 && piece[piece.len() - 1] == '\r' {
            piece.len() - 1
        } else {
            piece.len()
        };
        let mut k: usize = 0;
        while k < keep
            invariant
                k <= keep,
                keep <= piece@.len(),
                line@ =~= piece@.take(k as int),
            decreases keep - k,
        {
            line.push(piece[k]);
            assert(line@ =~= piece@.take(k + 1));
            k += 1;
        }
        proof {
            assert(line@ =~= strip_cr(piece@));
        }
        out.push(line);
        i += 1;
    }
    proof {
        assert(rawv[n - 1] == raw@[n - 1]@);
    }
    let last = &raw[n - 1];
    if last.len() > 0 {
        let mut line: Vec<char> = Vec::new();
        let mut k: usize = 0;
        while k < last.len()
            invariant
                k <= last@.len(),
                line@ =~= last@.take(k as int),
            decreases last@.len() - k,
        {
            line.push(last[k]);
            assert(line@ =~= last@.take(k + 1));
            k += 1;
        }
        proof {
            assert(line@ =~= last@);
        }
        out.push(line);
    }
    proof {
        let sl = split_lines(v@);
        let body = Seq::new((rawv.len() - 1) as nat, |q: int| strip_cr(rawv[q]));
        assert(rawv.last() == raw@[n - 1]@);
        assert forall|q: int| 0 <= q < out@.len() implies pieces_view(out@)[q] == sl[q] by {
            assert(pieces_view(out@)[q] == out@[q]@);
            if q < n - 1 {
                assert(sl[q] == body[q]);
            }
        }
        assert(pieces_view(out@) =~= sl);
    }
    out
}

/// The text with leading whitespace removed.
pub open spec fn trim_front(s: Seq<char>) -> Seq<char>
    decreases s.len(),
{
    if s.len() > 0 && is_space(s[0]) {
        trim_front(s.drop_first())
    } else {
        s
    }
}

/// The text with trailing whitespace removed.
pub open spec fn trim_back(s: Seq<char>) -> Seq<char>
    decreases s.len(),
{
    if s.len() > 0 && is_space(s.last()) {
        trim_back(s.drop_last())
    } else {
        s
    }
}

/// The text with whitespace removed from both ends, as `str::trim`.
pub open spec fn trim_spec(s: Seq<char>) -> Seq<char> {
    trim_back(trim_front(s))
}

proof fn lemma_trim_front_at(s: Seq<char>, i: int)
    requires
        0 <= i <= s.len(),
        forall|j: int| 0 <= j < i ==> is_space(#[trigger] s[j]),
        i < s.len() ==> !is_space(s[i]),
    ensures
        trim_front(s) == s.skip(i),
    decreases i,
{
    if i == 0 {
        assert(s.skip(0) =~= s);
    } else {
        assert(is_space(s[0]));
        lemma_trim_front_at(s.drop_first(), i - 1);
        assert(s.drop_first().skip(i - 1) =~= s.skip(i));
    }
}

proof fn lemma_trim_back_at(s: Seq<char>, j: int)
    requires
        0 <= j <= s.len(),
        forall|k: int| j <= k < s.len() ==> is_space(#[trigger] s[k]),
        j > 0 ==> !is_space(s[j - 1]),
    ensures
        trim_back(s) == s.take(j),
    decreases s.len() - j,
{
    if j == s.len() {
        if s.len() == 0 {
            assert(s.take(0) =~= s);
        } else {
            assert(!is_space(s.last()));
            assert(s.take(j) =~= s);
        }
    } else {
        assert(is_space(s.last()));
        lemma_trim_back_at(s.drop_last(), j);
        assert(s.drop_last().take(j) =~= s.take(j));
    }
}

/// Removes whitespace from both ends.
pub fn trim_exec(v: &Vec<char>) -> (r: Vec<char>)
    ensures
        r@ == trim_spec(v@),
{
    let n = v.len();
    let mut i: usize = 0;
    while i < n && is_space_char(v[i])
        invariant
            i <= n,
            n == v@.len(),
            forall|j: int| 0 <= j < i ==> is_space(#[trigger] v@[j]),
        decreases n - i,
    {
        i += 1;
    }
    proof {
        lemma_trim_front_at(v@, i as int);
    }
    let mut j: usize = n;
    while j > i && is_space_char(v[j - 1])
        invariant
            i <= j <= n,
            n == v@.len(),
            forall|k: int| j <= k < n ==> is_space(#[trigger] v@[k]),
        decreases j,
    {
        j -= 1;
    }
    proof {
        let f = v@.skip(i as int);
        assert forall|k: int| j - i <= k < f.len() implies is_space(#[trigger] f[k]) by {
            assert(f[k] == v@[k + i]);
        }
        if j > i {
            assert(f[j - i - 1] == v@[j - 1]);
        }
        lemma_trim_back_at(f, j - i);
    }
    let mut out: Vec<char> = Vec::new();
    let mut k: usize = i;
    while k < j
        invariant
            i <= k <= j <= n,
            n == v@.len(),
            out@ =~= v@.subrange(i as int, k as int),
        decreases j - k,
    {
        out.push(v[k]);
        assert(out@ =~= v@.subrange(i as int, k + 1));
        k += 1;
    }
    proof {
        assert(v@.skip(i as int).take(j - i) =~= v@.subrange(i as int, j as int));
    }
    out
}

/// Whether `c` is a decimal digit.
pub open spec fn is_digit(c: char) -> bool {
    48 <= c as u32 <= 57
}

/// The value of one digit.
pub open spec fn digit_val(c: char) -> int {
    (c as u32) as int - 48
}

/// Whether the text is one or more decimal digits.
pub open spec fn digits_ok(s: Seq<char>) -> bool {
    s.len() > 0 && forall|i: int| 0 <= i < s.len() ==> is_digit(#[trigger] s[i])
}

/// The unbounded value of a digit string.
pub open spec fn digits_val(s: Seq<char>) -> int
    decreases s.len(),
{
    if s.len() == 0 {
        0
    } else {
        digits_val(s.drop_last()) * 10 + digit_val(s.last())
    }
}

/// The digits after an optional leading sign.
pub open spec fn sign_split(s: Seq<char>) -> Seq<char> {
    if s.len() > 0 && (s[0] == '-' || s[0] == '+') {
        s.drop_first()
    } else {
        s
    }
}

/// What `str::parse::<i32>` accepts: an optional sign, then digits, with
/// the signed value in the 32-bit range.
pub open spec fn parse_i32_spec(s: Seq<char>) -> Option<i32> {
    let neg = s.len() > 0 && s[0] == '-';
    let ds = sign_split(s);
    if !digits_ok(ds) {
        None
    } else {
        let v = if neg {
            -digits_val(ds)
        } else {
            digits_val(ds)
        };
        if -0x8000_0000 <= v <= 0x7FFF_FFFF {
            Some(v as i32)
        } else {
            None
        }
    }
}

proof fn lemma_digits_val_nonneg(s: Seq<char>)
    requires
        forall|i: int| 0 <= i < s.len() ==> is_digit(#[trigger] s[i]),
    ensures
        digits_val(s) >= 0,
    decreases s.len(),
{
    if s.len() > 0 {
        lemma_digits_val_nonneg(s.drop_last());
    }
}

/// Parses an optionally signed run of decimal digits as a 32-bit integer.
pub fn parse_i32_exec(v: &Vec<char>) -> (r: Option<i32>)
    ensures
        r == parse_i32_spec(v@),
{
    let n = v.len();
    let mut p: usize = 0;
    let mut neg = false;
    if n > 0 && (v[0] == '-' || v[0] == '+') {
        neg = v[0] == '-';
        p = 1;
    }
    let ghost ds = sign_split(v@);
    proof {
        assert(ds =~= v@.skip(p as int));
    }
    if p == n {
        // no digits at all
        return None;
    }
    let mut acc: u64 = 0;
    let mut over = false;
    let mut i: usize = p;
    while i < n
        invariant
            p <= i <= n,
            n == v@.len(),
            p <= n,
            ds == v@.skip(p as int),
            ds == sign_split(v@),
            neg == (v@.len() > 0 && v@[0] == '-'),
            forall|j: int| p <= j < i ==> is_digit(#[trigger] v@[j]),
            !over ==> acc < 0x1_0000_0000 && acc == digits_val(v@.subrange(p as int, i as int)),
            over ==> digits_val(v@.subrange(p as int, i as int)) >= 0x1_0000_0000,
        decreases n - i,
    {
        let c = v[i];
        let cu = c as u32;
        if cu < 48 || cu > 57 {
            proof {
                assert(ds[i - p] == v@[i as int]);
                assert(!is_digit(ds[i - p]));
                assert(!digits_ok(ds));
            }
            return None;
        }
        let d = (cu - 48) as u64;
        let ghost pre = v@.subrange(p as int, i as int);
        proof {
            assert(v@.subrange(p as int, i + 1).drop_last() =~= pre);
            assert(v@.subrange(p as int, i + 1).last() == v@[i as int]);
            lemma_digits_val_nonneg(pre);
        }
        if !over {
            let next = acc * 10 + d;
            if next >= 0x1_0000_0000 {
                over = true;
            } else {
                acc = next;
            }
            proof {
                assert(digits_val(v@.subrange(p as int, i + 1)) == digits_val(pre) * 10 + (d
                    as int));
            }
        } else {
            proof {
                assert(digits_val(pre) >= 0x1_0000_0000);
                assert(digits_val(v@.subrange(p as int, i + 1)) == digits_val(pre) * 10 + (d
                    as int));
                assert(digits_val(pre) * 10 >= digits_val(pre));
            }
        }
        i += 1;
    }
    proof {
        assert(v@.subrange(p as int, n as int) =~= ds);
        assert(digits_ok(ds));
    }
    if over {
        return None;
    }
    if neg {
        if acc > 0x8000_0000 {
            None
        } else {
            Some((-(acc as i64)) as i32)
        }
    } else {
        if acc > 0x7FFF_FFFF {
            None
        } else {
            Some(acc as i32)
        }
    }
}

/// The value of one lenient cell: the binary32 parse of the trimmed text,
/// else its 32-bit integer parse coerced to binary32, else the sentinel
/// `-1.0`.
pub open spec fn lenient_cell(s: Seq<char>) -> u32 {
    match parse_of(trim_spec(s)) {
        Some(b) => b,
        None => match parse_i32_spec(trim_spec(s)) {
            Some(i) => i32_f32_of(i),
            None => SENTINEL_BITS,
        },
    }
}

/// Whether a cell parses at all: what the strict discipline insists on.
pub open spec fn cell_parses(s: Seq<char>) -> bool {
    parse_of(trim_spec(s)) is Some || parse_i32_spec(trim_spec(s)) is Some
}

/// Parses one trimmed cell.
fn parse_cell(piece: &Vec<char>) -> (r: (u32, bool))
    ensures
        r.0 == lenient_cell(piece@),
        r.1 == cell_parses(piece@),
{
    let t = trim_exec(piece);
    let s = chars_to_string(&t);
    match parse_f32(s.as_str()) {
        Some(b) => (b, true),
        None => match parse_i32_exec(&t) {
            Some(i) => (f32_of_i32(i), true),
            None => (SENTINEL_BITS, false),
        },
    }
}

/// The header names of the first line: each comma-separated piece
/// trimmed and lowercased.
pub open spec fn header_names(line: Seq<char>) -> Seq<Seq<char>> {
    split_char(line, ',').map_values(|p: Seq<char>| lower_of(trim_spec(p)))
}

/// The non-empty data lines after the header line.
pub open spec fn data_lines(s: Seq<char>) -> Seq<Seq<char>> {
    split_lines(s).skip(1).filter(|l: Seq<char>| l.len() > 0)
}

/// The cells of one data line under the lenient discipline.
pub open spec fn lenient_row(line: Seq<char>) -> Seq<u32> {
    split_char(line, ',').map_values(|p: Seq<char>| lenient_cell(p))
}

/// Whether every cell of a line parses.
pub open spec fn line_parses(line: Seq<char>) -> bool {
    forall|j: int|
        0 <= j < split_char(line, ',').len() ==> cell_parses(#[trigger] split_char(line, ',')[j])
}

/// The ingestion discipline for unparseable cells.
#[derive(Debug, Clone, Copy, PartialEq, Eq, Structural)]
pub enum ParseMode {
    /// An unparseable cell silently becomes the sentinel `-1.0`.
    Lenient,
    /// An unparseable cell fails the whole ingestion.
    Strict,
}

/// What ingestion promises. `MissingHeaders` exactly when the text has no
/// lines. Otherwise the headers are the first line's trimmed, lowercased
/// names; success yields exactly the lenient cell values of every
/// non-empty data line, and happens exactly when every such line has one
/// cell per header and — strictly — every cell parses.
pub open spec fn parse_post(s: Seq<char>, mode: ParseMode, r: Result<Table, QueryError>) -> bool {
    let ls = split_lines(s);
    match r {
        Ok(t) => {
            let dl = data_lines(s);
            &&& ls.len() > 0
            &&& views_of(t.headers@) == header_names(ls[0])
            &&& t.wf()
            &&& t.rows@.len() == dl.len()
            &&& forall|i: int|
                0 <= i < dl.len() ==> rows_view(t.rows@)[i] == lenient_row(#[trigger] dl[i])
            &&& forall|i: int|
                0 <= i < dl.len() ==> split_char(#[trigger] dl[i], ',').len() == header_names(
                    ls[0],
                ).len()
            &&& (mode == ParseMode::Strict ==> forall|i: int|
                0 <= i < dl.len() ==> line_parses(#[trigger] dl[i]))
        },
        Err(e) => {
            &&& (e == QueryError::MissingHeaders <==> ls.len() == 0)
            &&& (e == QueryError::ShapeMismatch ==> exists|i: int|
                0 <= i < data_lines(s).len() && split_char(#[trigger] data_lines(s)[i], ',').len()
                    != header_names(ls[0]).len())
            &&& (e == QueryError::UnparsableCell ==> mode == ParseMode::Strict && exists|i: int|
                0 <= i < data_lines(s).len() && !line_parses(#[trigger] data_lines(s)[i]))
            &&& (e == QueryError::MissingHeaders || e == QueryError::ShapeMismatch || e
                == QueryError::UnparsableCell)
            &&& (ls.len() > 0 ==> !(forall|i: int|
                0 <= i < data_lines(s).len() ==> split_char(#[trigger] data_lines(s)[i], ',').len()
                    == header_names(ls[0]).len() && (mode == ParseMode::Lenient || line_parses(
                    data_lines(s)[i],
                ))))
        },
    }
}

/// Ingests delimited text: the first line names the columns, every
/// further non-empty line is one row of numeric cells.
pub fn parse_table(content: &str, mode: ParseMode) -> (r: Result<Table, QueryError>)
    ensures
        parse_post(content@, mode, r),
{
    broadcast use vstd::seq_lib::group_filter_ensures;

    let mut chars: Vec<char> = Vec::new();
    push_str(&mut chars, content);
    let lines = split_lines_exec(&chars);
    let ghost lsv = split_lines(content@);
    if lines.len() == 0 {
        return Err(QueryError::MissingHeaders);
    }
    proof {
        assert(lsv[0] == lines@[0]@);
    }

    // headers: split the first line, trim and lowercase each name
    let head_pieces = split_char_exec(&lines[0], ',');
    let mut headers: Vec<String> = Vec::new();
    let mut j: usize = 0;
    while j < head_pieces.len()
        invariant
            j <= head_pieces@.len(),
            pieces_view(head_pieces@) == split_char(lsv[0], ','),
            lsv == split_lines(content@),
            lsv.len() > 0,
            headers@.len() == j,
            forall|q: int|
                0 <= q < j ==> (#[trigger] headers@[q])@ == header_names(lsv[0])[q],
        decreases head_pieces@.len() - j,
    {
        proof {
            assert(pieces_view(head_pieces@)[j as int] == head_pieces@[j as int]@);
        }
        let t = trim_exec(&head_pieces[j]);
        let s = chars_to_string(&t);
        let name = lowercase(s.as_str());
        headers.push(name);
        j += 1;
    }
    proof {
        assert forall|q: int|
            0 <= q < headers@.len() implies views_of(headers@)[q] == header_names(lsv[0])[q] by {
            assert(views_of(headers@)[q] == headers@[q]@);
        }
        assert(views_of(headers@) =~= header_names(lsv[0]));
    }

    // data rows: every later non-empty line
    let ghost dl = data_lines(content@);
    let ghost tail = lsv.skip(1);
    let ghost keep = |l: Seq<char>| l.len() > 0;
    let mut rows: Vec<Vec<u32>> = Vec::new();
    let mut bad_shape = false;
    let mut bad_cell = false;
    let mut i: usize = 1;
    proof {
        assert(tail.take(0).filter(keep) =~= Seq::<Seq<char>>::empty());
    }
    while i < lines.len()
        invariant
            1 <= i <= lines@.len(),
            pieces_view(lines@) == lsv,
            lsv == split_lines(content@),
            lsv.len() > 0,
            tail == lsv.skip(1),
            keep == (|l: Seq<char>| l.len() > 0),
            dl == tail.filter(keep),
            headers@.len() == header_names(lsv[0]).len(),
            views_of(headers@) == header_names(lsv[0]),
            ({
                let sofar = tail.take(i - 1).filter(keep);
                &&& rows@.len() == sofar.len()
                &&& forall|q: int|
                    0 <= q < sofar.len() ==> rows_view(rows@)[q] == lenient_row(
                        #[trigger] sofar[q],
                    )
                &&& (!bad_shape ==> forall|q: int|
                    0 <= q < sofar.len() ==> split_char(#[trigger] sofar[q], ',').len()
                        == headers@.len())
                &&& (bad_shape ==> exists|q: int|
                    0 <= q < sofar.len() && split_char(#[trigger] sofar[q], ',').len()
                        != headers@.len())
                &&& (!bad_cell ==> forall|q: int|
                    0 <= q < sofar.len() ==> line_parses(#[trigger] sofar[q]))
                &&& (bad_cell ==> exists|q: int|
                    0 <= q < sofar.len() && !line_parses(#[trigger] sofar[q]))
            }),
        decreases lines@.len() - i,
    {
        proof {
            assert(pieces_view(lines@)[i as int] == lines@[i as int]@);
            assert(tail[i - 1] == lsv[i as int]);
            crate::select::lemma_filter_take_step(tail, i - 1, keep);
        }
        let line = &lines[i];
        if line.len() > 0 {
            let ghost sofar = tail.take(i - 1).filter(keep);
            let ghost linev = lines@[i as int]@;
            let pieces = split_char_exec(line, ',');
            if pieces.len() != headers.len() {
                bad_shape = true;
            }
            let ghost bad0 = bad_cell;
            let mut row: Vec<u32> = Vec::new();
            let mut k: usize = 0;
            while k < pieces.len()
                invariant
                    k <= pieces@.len(),
                    pieces_view(pieces@) == split_char(linev, ','),
                    row@.len() == k,
                    forall|q: int|
                        0 <= q < k ==> row@[q] == lenient_cell(
                            #[trigger] split_char(linev, ',')[q],
                        ),
                    bad_cell == (bad0 || exists|q: int|
                        0 <= q < k && !cell_parses(#[trigger] split_char(linev, ',')[q])),
                decreases pieces@.len() - k,
            {
                proof {
                    assert(pieces_view(pieces@)[k as int] == pieces@[k as int]@);
                }
                let (cell, ok) = parse_cell(&pieces[k]);
                proof {
                    if !ok {
                        assert(!cell_parses(split_char(linev, ',')[k as int]));
                    }
                }
                if !ok {
                    bad_cell = true;
                }
                row.push(cell);
                k += 1;
            }
            proof {
                assert(row@ =~= lenient_row(linev)) by {
                    assert forall|q: int|
                        0 <= q < row@.len() implies row@[q] == lenient_row(linev)[q] by {}
                    assert(row@.len() == lenient_row(linev).len());
                }
            }
            rows.push(row);
            proof {
                let now = tail.take(i - 1 + 1).filter(keep);
                assert(now == sofar.push(tail[i - 1]));
                assert(tail[i - 1] == linev);
                assert(now.last() == linev);
                assert forall|q: int|
                    0 <= q < now.len() implies rows_view(rows@)[q] == lenient_row(
                    #[trigger] now[q],
                ) by {
                    assert(rows_view(rows@)[q] == rows@[q]@);
                    if q < sofar.len() {
                        assert(now[q] == sofar[q]);
                    } else {
                        assert(now[q] == tail[i - 1]);
                    }
                }
                // shape bookkeeping
                if split_char(linev, ',').len() != headers@.len() {
                    assert(now[now.len() - 1] == linev);
                } else {
                    if bad_shape {
                        let w = choose|w: int|
                            0 <= w < sofar.len() && split_char(#[trigger] sofar[w], ',').len()
                                != headers@.len();
                        assert(now[w] == sofar[w]);
                    }
                }
                assert(!bad_shape ==> forall|q: int|
                    0 <= q < now.len() ==> split_char(#[trigger] now[q], ',').len()
                        == headers@.len());
                // cell bookkeeping
                if bad_cell {
                    if bad0 {
                        let w = choose|w: int|
                            0 <= w < sofar.len() && !line_parses(#[trigger] sofar[w]);
                        assert(now[w] == sofar[w]);
                        assert(!line_parses(now[w]));
                    } else {
                        assert(!line_parses(linev));
                        assert(now[now.len() - 1] == linev);
                    }
                } else {
                    assert(line_parses(linev));
                    assert forall|q: int| 0 <= q < now.len() implies line_parses(
                        #[trigger] now[q],
                    ) by {
                        if q < sofar.len() {
                            assert(now[q] == sofar[q]);
                        } else {
                            assert(now[q] == linev);
                        }
                    }
                }
            }
        } else {
            proof {
                assert(tail.take(i - 1 + 1).filter(keep) == tail.take(i - 1).filter(keep));
            }
        }
        i += 1;
    }
    proof {
        assert(tail.take(lines@.len() - 1) =~= tail);
        assert(dl == tail.filter(keep));
    }

    if bad_cell && matches!(mode, ParseMode::Strict) {
        return Err(QueryError::UnparsableCell);
    }
    if bad_shape {
        return Err(QueryError::ShapeMismatch);
    }
    let t = Table { headers, rows };
    proof {
        assert forall|q: int| 0 <= q < t.rows@.len() implies (#[trigger] t.rows@[q])@.len()
            == t.headers@.len() by {
            assert(rows_view(t.rows@)[q] == t.rows@[q]@);
            assert(rows_view(t.rows@)[q] == lenient_row(dl[q]));
        }
    }
    Ok(t)
}

proof fn lemma_split_no_sep(s: Seq<char>, sep: char)
    requires
        forall|i: int| 0 <= i < s.len() ==> (#[trigger] s[i]) != sep,
    ensures
        split_char(s, sep) == seq![s],
    decreases s.len(),
{
    reveal_with_fuel(split_char, 2);
    if s.len() == 0 {
        assert(split_char(s, sep) =~~= seq![s]);
    } else {
        assert(s[0] != sep);
        lemma_split_no_sep(s.drop_first(), sep);
        assert(split_char(s, sep) =~~= seq![seq![s[0]] + s.drop_first()]);
        assert(seq![s[0]] + s.drop_first() =~= s);
        assert(split_char(s, sep) =~~= seq![s]);
    }
}

proof fn lemma_split_app(a: Seq<char>, b: Seq<char>, sep: char)
    ensures
        split_char(a + seq![sep] + b, sep) == split_char(a, sep) + split_char(b, sep),
    decreases a.len(),
{
    reveal_with_fuel(split_char, 2);
    let e = a + seq![sep] + b;
    if a.len() == 0 {
        assert(e[0] == sep);
        assert(e.drop_first() =~= b);
        assert(split_char(e, sep) =~~= seq![Seq::<char>::empty()] + split_char(b, sep));
        assert(split_char(a, sep) =~~= seq![Seq::<char>::empty()]);
    } else {
        lemma_split_app(a.drop_first(), b, sep);
        lemma_split_char_len(a.drop_first(), sep);
        lemma_split_char_len(b, sep);
        assert(e[0] == a[0]);
        assert(e.drop_first() =~= a.drop_first() + seq![sep] + b);
        let ih = split_char(a.drop_first(), sep) + split_char(b, sep);
        assert(split_char(e.drop_first(), sep) == ih);
        if a[0] == sep {
            assert(split_char(e, sep) =~~= seq![Seq::<char>::empty()] + ih);
            assert(split_char(a, sep) =~~= seq![Seq::<char>::empty()] + split_char(
                a.drop_first(),
                sep,
            ));
            assert((seq![Seq::<char>::empty()] + split_char(a.drop_first(), sep)) + split_char(
                b,
                sep,
            ) =~~= seq![Seq::<char>::empty()] + ih);
            assert(split_char(e, sep) =~~= split_char(a, sep) + split_char(b, sep));
        } else {
            assert(ih[0] == split_char(a.drop_first(), sep)[0]);
            assert(ih.drop_first() =~~= split_char(a.drop_first(), sep).drop_first() + split_char(
                b,
                sep,
            ));
            assert(split_char(e, sep) =~~= seq![seq![a[0]] + ih[0]] + ih.drop_first());
            assert(split_char(a, sep) =~~= seq![seq![a[0]] + split_char(a.drop_first(), sep)[0]]
                + split_char(a.drop_first(), sep).drop_first());
            assert(split_char(e, sep) =~~= split_char(a, sep) + split_char(b, sep));
        }
    }
}

/// Joining texts that hold no separator and splitting at that separator
/// gives the texts back.
pub proof fn lemma_split_join(cells: Seq<Seq<char>>, sep: char, n: int)
    requires
        1 <= n <= cells.len(),
        forall|i: int, j: int|
            0 <= i < n && 0 <= j < cells[i].len() ==> (#[trigger] cells[i][j]) != sep,
    ensures
        split_char(crate::render::join_cells(cells, sep, n), sep) == cells.take(n),
    decreases n,
{
    if n == 1 {
        lemma_split_no_sep(cells[0], sep);
        assert(seq![cells[0]] =~~= cells.take(1));
    } else {
        lemma_split_join(cells, sep, n - 1);
        lemma_split_no_sep(cells[n - 1], sep);
        lemma_split_app(crate::render::join_cells(cells, sep, n - 1), cells[n - 1], sep);
        assert(cells.take(n - 1) + seq![cells[n - 1]] =~~= cells.take(n));
    }
}

proof fn lemma_trim_clean(s: Seq<char>)
    requires
        forall|i: int| 0 <= i < s.len() ==> !is_space(#[trigger] s[i]),
    ensures
        trim_spec(s) == s,
{
    if s.len() > 0 {
        assert(!is_space(s[0]));
        assert(!is_space(s.last()));
    }
}

/// Whether a name fits on one line of a dump and splits back out whole:
/// no line break, no carriage return, no comma.
pub open spec fn dumpable_name(s: Seq<char>) -> bool {
    forall|i: int|
        0 <= i < s.len() ==> (#[trigger] s[i]) != '\n' && s[i] != '\r' && s[i] != ','
}

/// The one text that dumping a table writes: its dump lines joined by
/// line breaks.
pub open spec fn dump_text(t: Table) -> Seq<char> {
    let hs = views_of(t.headers@);
    let rows = rows_view(t.rows@);
    let m = hs.len() as int;
    let all = seq![crate::render::join_cells(hs, ',', m)] + Seq::new(
        rows.len(),
        |i: int| crate::render::join_cells(crate::render::row_cells(rows[i]), ',', m),
    );
    crate::render::join_cells(all, '\n', all.len() as int)
}

/// Dumping a table and reparsing the dump leniently reproduces exactly
/// the numeric rows: the dump splits back into one line per row, every
/// line back into one cell per column, and every cell parses back to its
/// own bit pattern. The hypotheses on the dumped cell texts are just what
/// `dump_lines` establishes; header names must fit on a dump line, and a
/// table of no rows must not dump as empty text.
pub proof fn lemma_dump_round_trip(t: Table)
    requires
        t.wf(),
        t.headers@.len() > 0,
        forall|j: int|
            0 <= j < t.headers@.len() ==> dumpable_name((#[trigger] t.headers@[j])@),
        t.rows@.len() > 0 || crate::render::join_cells(
            views_of(t.headers@),
            ',',
            t.headers@.len() as int,
        ).len() > 0,
        forall|i: int, j: int|
            0 <= i < t.rows@.len() && 0 <= j < t.headers@.len() ==> crate::text::clean_text(
                crate::num::display_of(#[trigger] rows_view(t.rows@)[i][j]),
            ),
        forall|i: int, j: int|
            0 <= i < t.rows@.len() && 0 <= j < t.headers@.len() ==> parse_of(
                crate::num::display_of(#[trigger] rows_view(t.rows@)[i][j]),
            ) == Some(rows_view(t.rows@)[i][j]),
    ensures
        ({
            let hs = views_of(t.headers@);
            let rows = rows_view(t.rows@);
            let m = hs.len() as int;
            let text = dump_text(t);
            &&& split_lines(text).len() == 1 + rows.len()
            &&& split_lines(text)[0] == crate::render::join_cells(hs, ',', m)
            &&& data_lines(text) == Seq::new(
                rows.len(),
                |i: int| crate::render::join_cells(crate::render::row_cells(rows[i]), ',', m),
            )
            &&& header_names(split_lines(text)[0]).len() == m
            &&& forall|i: int|
                0 <= i < rows.len() ==> split_char(#[trigger] data_lines(text)[i], ',').len() == m
            &&& forall|i: int|
                0 <= i < rows.len() ==> lenient_row(#[trigger] data_lines(text)[i]) == rows[i]
        }),
{
    broadcast use vstd::seq_lib::group_filter_ensures;

    let hs = views_of(t.headers@);
    let rows = rows_view(t.rows@);
    let m = hs.len() as int;
    let hdr = crate::render::join_cells(hs, ',', m);
    let rl = Seq::new(
        rows.len(),
        |i: int| crate::render::join_cells(crate::render::row_cells(rows[i]), ',', m),
    );
    let all = seq![hdr] + rl;
    let text = dump_text(t);

    // every joined line is free of line breaks, and every dumped line of
    // cells is non-empty and free of carriage returns
    assert forall|i: int, j: int|
        0 <= i < all.len() && 0 <= j < all[i].len() implies (#[trigger] all[i][j]) != '\n'
        && all[i][j] != '\r' by {
        if i == 0 {
            lemma_join_chars(hs, m, j);
        } else {
            lemma_join_chars(crate::render::row_cells(rows[i - 1]), m, j);
        }
    }
    assert forall|i: int| 1 <= i < all.len() implies (#[trigger] all[i]).len() > 0 by {
        lemma_join_nonempty(crate::render::row_cells(rows[i - 1]), m);
    }

    // the text splits back into exactly the dumped lines
    lemma_split_join(all, '\n', all.len() as int);
    assert(all.take(all.len() as int) =~~= all);
    let raw = split_char(text, '\n');
    assert(raw == all);
    assert(raw.last() == all[all.len() - 1]);
    if rows.len() == 0 {
        assert(all.len() == 1);
        assert(raw.last() == hdr);
    }
    assert(raw.last().len() > 0);
    let body = Seq::new((raw.len() - 1) as nat, |i: int| strip_cr(raw[i]));
    assert forall|i: int| 0 <= i < raw.len() - 1 implies body[i] == all[i] by {
        if all[i].len() > 0 {
            assert(all[i][all[i].len() - 1] != '\r');
        }
    }
    assert(split_lines(text) =~~= body.push(raw.last()));
    assert(split_lines(text) =~~= all);

    // the data lines are the dumped rows: all non-empty
    let tail = split_lines(text).skip(1);
    assert(tail =~~= rl);
    let keep = |l: Seq<char>| l.len() > 0;
    assert forall|i: int| 0 <= i < rl.len() implies keep(#[trigger] rl[i]) by {
        lemma_join_nonempty(crate::render::row_cells(rows[i]), m);
    }
    lemma_filter_all(rl, keep);
    assert(data_lines(text) == rl);

    // the header line splits back into one name per column
    lemma_split_join(hs, ',', m);
    assert(hs.take(m) =~~= hs);
    assert(header_names(split_lines(text)[0]).len() == m);

    // every data line splits back into its cells, and every cell parses
    // back to its own bit pattern
    assert forall|i: int| 0 <= i < rows.len() implies split_char(
        #[trigger] data_lines(text)[i],
        ',',
    ).len() == m && lenient_row(data_lines(text)[i]) == rows[i] by {
        let rc = crate::render::row_cells(rows[i]);
        assert forall|a: int, b: int|
            0 <= a < m && 0 <= b < rc[a].len() implies (#[trigger] rc[a][b]) != ',' by {
            assert(rc[a] == crate::num::display_of(rows[i][a]));
        }
        lemma_split_join(rc, ',', m);
        assert(rc.take(m) =~~= rc);
        assert(data_lines(text)[i] == rl[i]);
        assert(split_char(rl[i], ',') == rc);
        assert forall|j: int| 0 <= j < m implies lenient_row(rl[i])[j] == rows[i][j] by {
            assert(rc[j] == crate::num::display_of(rows[i][j]));
            lemma_trim_clean(rc[j]);
            assert(parse_of(trim_spec(rc[j])) == Some(rows[i][j]));
        }
        assert(lenient_row(rl[i]) =~= rows[i]);
    }
}

proof fn lemma_join_chars(cells: Seq<Seq<char>>, n: int, j: int)
    requires
        1 <= n <= cells.len(),
        forall|a: int, b: int|
            0 <= a < n && 0 <= b < cells[a].len() ==> (#[trigger] cells[a][b]) != '\n'
                && cells[a][b] != '\r',
        0 <= j < crate::render::join_cells(cells, ',', n).len(),
    ensures
        crate::render::join_cells(cells, ',', n)[j] != '\n',
        crate::render::join_cells(cells, ',', n)[j] != '\r',
    decreases n,
{
    let w = crate::render::join_cells(cells, ',', n);
    if n == 1 {
        assert(w == cells[0]);
    } else {
        let prev = crate::render::join_cells(cells, ',', n - 1);
        assert(w == prev + seq![','] + cells[n - 1]);
        if j < prev.len() {
            lemma_join_chars(cells, n - 1, j);
        } else if j == prev.len() {
        } else {
            assert(w[j] == cells[n - 1][j - prev.len() - 1]);
        }
    }
}

proof fn lemma_join_nonempty(cells: Seq<Seq<char>>, n: int)
    requires
        1 <= n <= cells.len(),
        forall|a: int| 0 <= a < n ==> (#[trigger] cells[a]).len() > 0,
    ensures
        crate::render::join_cells(cells, ',', n).len() > 0,
    decreases n,
{
    if n > 1 {
        lemma_join_nonempty(cells, n - 1);
    }
}

proof fn lemma_filter_all(s: Seq<Seq<char>>, pred: spec_fn(Seq<char>) -> bool)
    requires
        forall|i: int| 0 <= i < s.len() ==> pred(#[trigger] s[i]),
    ensures
        s.filter(pred) == s,
    decreases s.len(),
{
    reveal_with_fuel(Seq::<_>::filter, 2);
    if s.len() > 0 {
        lemma_filter_all(s.drop_last(), pred);
        assert(s.drop_last().push(s.last()) =~~= s);
    }
}

} // verus!
