use tabq::chart::{chart_lines, ChartConfig};
use tabq::decfmt::fmt_fixed;
use tabq::ingest::{parse_table, ParseMode};
use tabq::num::f32_of_i32;
use tabq::render::{dump_lines, json_pairs, tabulate_lines};
use tabq::table::Table;
use tabq::QueryError;

fn tbl(headers: &[&str], rows: &[&[f32]]) -> Table {
    let hs: Vec<String> = headers.iter().map(|h| h.to_string()).collect();
    let rs: Vec<Vec<u32>> = rows
        .iter()
        .map(|r| r.iter().map(|x| x.to_bits()).collect())
        .collect();
    Table::new(hs, rs).unwrap()
}

#[test]
fn fixed_formatting_exact_values() {
    assert_eq!(fmt_fixed(2.5f32.to_bits(), 2), "2.50");
    assert_eq!(fmt_fixed(0.0f32.to_bits(), 2), "0.00");
    assert_eq!(fmt_fixed((-0.0f32).to_bits(), 2), "-0.00");
    assert_eq!(fmt_fixed((-3.0f32).to_bits(), 1), "-3.0");
    assert_eq!(fmt_fixed(0.125f32.to_bits(), 2), "0.12"); // ties to even
    assert_eq!(fmt_fixed(0.375f32.to_bits(), 2), "0.38"); // ties to even
    assert_eq!(fmt_fixed(123.456f32.to_bits(), 1), "123.5");
    assert_eq!(fmt_fixed(10000000000.0f32.to_bits(), 2), "10000000000.00");
    assert_eq!(fmt_fixed(f32::NAN.to_bits(), 2), "NaN");
    assert_eq!(fmt_fixed(f32::INFINITY.to_bits(), 2), "inf");
    assert_eq!(fmt_fixed(f32::NEG_INFINITY.to_bits(), 2), "-inf");
}

#[test]
fn tabulate_renders_aligned_grid() {
    let t = tbl(&["ab", "c"], &[&[1.0, 22.5]]);
    let lines = tabulate_lines(&t);
    // widths: "1.00" (4) and "22.50" (5)
    assert_eq!(lines[0], "======*=======");
    assert_eq!(lines[1], "   ab *     c ");
    assert_eq!(lines[2], "======*=======");
    assert_eq!(lines[3], " 1.00 * 22.50 ");
    assert_eq!(lines[4], "======*=======");
}

#[test]
fn tabulate_marks_empty_tables() {
    let t = tbl(&["a"], &[]);
    let lines = tabulate_lines(&t);
    assert_eq!(lines.len(), 5);
    assert_eq!(lines[3], "EMPTY!");
}

#[test]
fn dump_joins_headers_and_rows() {
    let headers = vec!["a".to_string(), "b".to_string()];
    let data = vec![vec![1.0f32.to_bits(), 2.0f32.to_bits()], vec![
        3.0f32.to_bits(),
        4.0f32.to_bits(),
    ]];
    let t = Table::new(headers, data).unwrap();
    let lines = dump_lines(&t);
    assert_eq!(lines.len(), 3);
    assert_eq!(lines[0], "a,b");
    assert!(lines[1].contains(","));
    // the dump must parse back to the same values
    let text = lines.join("\n");
    let back = parse_table(&text, ParseMode::Lenient).unwrap();
    assert_eq!(back.rows, t.rows);
}

#[test]
fn dump_reparse_reproduces_rows_bit_for_bit() {
    let t = tbl(&["x", "y"], &[&[1.5, -2.25], &[3.25e7, 4.5], &[-0.0, 0.1]]);
    let lines = dump_lines(&t);
    let text = lines.join("\n");
    let back = parse_table(&text, ParseMode::Lenient).unwrap();
    assert_eq!(back.rows, t.rows);
}

#[test]
fn json_pairs_align_headers_with_cells() {
    let t = tbl(&["a", "b"], &[&[1.0, 2.0], &[3.0, 4.0]]);
    let rows = json_pairs(&t);
    assert_eq!(rows.len(), 2);
    assert_eq!(rows[0][0].0, "a");
    assert_eq!(f32::from_bits(rows[0][1].1), 2.0);
    assert_eq!(f32::from_bits(rows[1][0].1), 3.0);
}

#[test]
fn parse_table_lenient_and_strict() {
    let t = parse_table(" A , b \n 1 , 2.5 \n\n3,junk\n", ParseMode::Lenient).unwrap();
    assert_eq!(t.headers, vec!["a".to_string(), "b".to_string()]);
    assert_eq!(t.rows.len(), 2);
    assert_eq!(f32::from_bits(t.rows[0][0]), 1.0);
    assert_eq!(f32::from_bits(t.rows[0][1]), 2.5);
    // the unparseable cell degrades to the sentinel
    assert_eq!(f32::from_bits(t.rows[1][1]), -1.0);

    let e = parse_table("a,b\n1,junk\n", ParseMode::Strict).unwrap_err();
    assert_eq!(e, QueryError::UnparsableCell);

    let e = parse_table("", ParseMode::Lenient).unwrap_err();
    assert_eq!(e, QueryError::MissingHeaders);

    let e = parse_table("a,b\n1,2,3\n", ParseMode::Lenient).unwrap_err();
    assert_eq!(e, QueryError::ShapeMismatch);
}

#[test]
fn parse_table_handles_crlf_line_endings() {
    let t = parse_table("a,b\r\n1,2\r\n", ParseMode::Lenient).unwrap();
    assert_eq!(t.headers, vec!["a".to_string(), "b".to_string()]);
    assert_eq!(f32::from_bits(t.rows[0][0]), 1.0);
    assert_eq!(f32::from_bits(t.rows[0][1]), 2.0);
}

#[test]
fn parse_table_integer_fallback() {
    // a plain integer cell parses; the strict mode accepts it too
    let t = parse_table("n\n-7\n", ParseMode::Strict).unwrap();
    assert_eq!(f32::from_bits(t.rows[0][0]), -7.0);
    // the integer coercion itself is exact on small values
    assert_eq!(f32::from_bits(f32_of_i32(-7)), -7.0);
    assert_eq!(f32::from_bits(f32_of_i32(-1)), -1.0);
}

#[test]
fn chart_degenerate_x_axis_centres_points() {
    let cfg = ChartConfig { height: 5, width: 9, labels: 2 };
    let t = tbl(&["x", "y"], &[&[7.0, 1.0], &[7.0, 2.0], &[7.0, 3.0]]);
    let lines = chart_lines(&t, &"x".to_string(), &"y".to_string(), &cfg).unwrap();
    assert_eq!(lines.len(), 5 + 3);
    // grid rows are lines 1..=5; the occupancy area starts after "label |"
    let mut stars = 0;
    for i in 1..=5 {
        let line: Vec<char> = lines[i].chars().collect();
        let grid = &line[8..];
        for (j, c) in grid.iter().enumerate() {
            if *c == '*' {
                assert_eq!(j, 4, "a point off the centre column in {:?}", lines[i]);
                stars += 1;
            }
        }
    }
    assert!(stars >= 1);
}

#[test]
fn chart_places_extreme_points_at_the_edges() {
    let cfg = ChartConfig { height: 3, width: 11, labels: 2 };
    let t = tbl(&["x", "y"], &[&[0.0, 0.0], &[1.0, 1.0]]);
    let lines = chart_lines(&t, &"x".to_string(), &"y".to_string(), &cfg).unwrap();
    // y of 1.0 is the top row, x of 1.0 the last column
    let top: Vec<char> = lines[1].chars().collect();
    let bottom: Vec<char> = lines[3].chars().collect();
    assert_eq!(top[8 + 10], '*');
    assert_eq!(bottom[8 + 0], '*');
}

#[test]
fn chart_errors_are_exact() {
    let cfg = ChartConfig { height: 3, width: 5, labels: 2 };
    let t = tbl(&["x", "y"], &[&[1.0, 2.0]]);
    let e = chart_lines(&t, &"zzz".to_string(), &"y".to_string(), &cfg).unwrap_err();
    assert_eq!(e, QueryError::InvalidCategory);

    let t = tbl(&["x", "y"], &[]);
    let e = chart_lines(&t, &"x".to_string(), &"y".to_string(), &cfg).unwrap_err();
    assert_eq!(e, QueryError::EmptyDataset);
}

#[test]
fn chart_has_title_rule_and_labels() {
    let cfg = ChartConfig { height: 3, width: 5, labels: 2 };
    let t = tbl(&["time", "load"], &[&[0.0, 1.0], &[2.0, 3.0]]);
    let lines = chart_lines(&t, &"time".to_string(), &"load".to_string(), &cfg).unwrap();
    assert_eq!(lines[0], "y-axis (load) x-axis (time)");
    assert_eq!(lines[4], "        ------");
    assert!(lines[5].contains("0.0"));
    assert!(lines[5].contains("2.0"));
}
