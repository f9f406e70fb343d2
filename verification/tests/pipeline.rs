use tabq::filtering::Operator;
use tabq::postproc::apply_count_and_reverse;
use tabq::query::{filter_table, sort_table};
use tabq::select::{find_index, get_valid_categories};
use tabq::stats::{mean_table, median_table};
use tabq::table::Table;
use tabq::QueryError;

fn tbl(headers: &[&str], rows: &[&[f32]]) -> Table {
    let hs: Vec<String> = headers.iter().map(|h| h.to_string()).collect();
    let rs: Vec<Vec<u32>> = rows
        .iter()
        .map(|r| r.iter().map(|x| x.to_bits()).collect())
        .collect();
    Table::new(hs, rs).unwrap()
}

fn row_vals(t: &Table, i: usize) -> Vec<f32> {
    t.rows[i].iter().map(|b| f32::from_bits(*b)).collect()
}

fn col_vals(t: &Table, j: usize) -> Vec<f32> {
    (0..t.rows.len()).map(|i| f32::from_bits(t.rows[i][j])).collect()
}

fn large_dataset() -> (Vec<&'static str>, Vec<Vec<f32>>) {
    let headers = vec!["score", "age"];
    let data = (1..=100)
        .map(|i| vec![i as f32 * 0.5, 20.0 + (i % 50) as f32])
        .collect();
    (headers, data)
}

#[test]
fn test_large_dataset_performance() {
    let (headers, data) = large_dataset();
    let rows: Vec<&[f32]> = data.iter().map(|r| r.as_slice()).collect();

    let start = std::time::Instant::now();
    let result = sort_table(tbl(&headers, &rows), &"score".to_string(), None, false);
    let duration = start.elapsed();

    assert!(result.is_ok());
    assert!(duration.as_millis() < 1000);

    let result = mean_table(&tbl(&headers, &rows), None, None);
    assert!(result.is_ok());
}

#[test]
fn test_edge_case_single_row() {
    let headers = ["value"];
    let data: &[&[f32]] = &[&[42.0]];

    assert!(sort_table(tbl(&headers, data), &"value".to_string(), None, false).is_ok());
    assert!(filter_table(
        tbl(&headers, data),
        &"value".to_string(),
        &Operator::Eq,
        42.0f32.to_bits(),
        None,
        false
    )
    .is_ok());
    assert!(mean_table(&tbl(&headers, data), None, None).is_ok());
    assert!(median_table(&tbl(&headers, data), None, None).is_ok());
}

#[test]
fn test_edge_case_negative_values() {
    let headers = ["temp"];
    let data: &[&[f32]] = &[&[-10.5], &[0.0], &[-5.2], &[15.3]];

    assert!(sort_table(tbl(&headers, data), &"temp".to_string(), None, false).is_ok());
    assert!(filter_table(
        tbl(&headers, data),
        &"temp".to_string(),
        &Operator::Lt,
        0.0f32.to_bits(),
        None,
        false
    )
    .is_ok());
    assert!(mean_table(&tbl(&headers, data), None, None).is_ok());
    assert!(median_table(&tbl(&headers, data), None, None).is_ok());
}

#[test]
fn test_all_operators() {
    let headers = ["value"];
    let data: &[&[f32]] = &[&[10.0], &[20.0], &[30.0]];

    let operators = vec![
        Operator::Gt,
        Operator::Gte,
        Operator::Lt,
        Operator::Lte,
        Operator::Eq,
        Operator::Neq,
    ];

    for op in operators {
        let result = filter_table(
            tbl(&headers, data),
            &"value".to_string(),
            &op,
            20.0f32.to_bits(),
            None,
            false,
        );
        assert!(result.is_ok(), "Failed for operator: {op:?}");
    }
}

#[test]
fn sort_orders_rows_and_truncates() {
    let t = tbl(&["k", "v"], &[&[3.0, 30.0], &[1.0, 10.0], &[2.0, 20.0]]);
    let s = sort_table(t, &"k".to_string(), None, false).unwrap();
    assert_eq!(col_vals(&s, 0), vec![1.0, 2.0, 3.0]);
    assert_eq!(col_vals(&s, 1), vec![10.0, 20.0, 30.0]);

    let t = tbl(&["k", "v"], &[&[3.0, 30.0], &[1.0, 10.0], &[2.0, 20.0]]);
    let s = sort_table(t, &"k".to_string(), Some(2), true).unwrap();
    assert_eq!(col_vals(&s, 0), vec![3.0, 2.0]);
}

#[test]
fn sort_is_case_insensitive_and_rejects_unknown() {
    let t = tbl(&["value"], &[&[2.0], &[1.0]]);
    let s = sort_table(t, &"VALUE".to_string(), None, false).unwrap();
    assert_eq!(col_vals(&s, 0), vec![1.0, 2.0]);

    let t = tbl(&["value"], &[&[2.0]]);
    let e = sort_table(t, &"missing".to_string(), None, false).unwrap_err();
    assert_eq!(e, QueryError::InvalidCategory);
}

#[test]
fn sort_ties_keep_input_order() {
    // two rows share the key; a fixed-direction sort must keep their order
    let t = tbl(&["k", "tag"], &[&[1.0, 100.0], &[1.0, 200.0]]);
    let s = sort_table(t, &"k".to_string(), None, false).unwrap();
    assert_eq!(col_vals(&s, 1), vec![100.0, 200.0]);
}

#[test]
fn sort_then_reverse_sort_reverses_distinct_keys() {
    let t = tbl(&["k"], &[&[2.0], &[5.0], &[1.0], &[4.0]]);
    let asc = sort_table(t, &"k".to_string(), None, false).unwrap();
    let desc = sort_table(asc, &"k".to_string(), None, true).unwrap();
    assert_eq!(col_vals(&desc, 0), vec![5.0, 4.0, 2.0, 1.0]);
}

#[test]
fn filter_partitions_on_eq_and_neq() {
    let data: &[&[f32]] = &[&[1.0], &[2.0], &[1.0], &[3.0]];
    let v = 1.0f32.to_bits();
    let eq = filter_table(tbl(&["x"], data), &"x".to_string(), &Operator::Eq, v, None, false)
        .unwrap();
    let neq = filter_table(tbl(&["x"], data), &"x".to_string(), &Operator::Neq, v, None, false)
        .unwrap();
    assert_eq!(col_vals(&eq, 0), vec![1.0, 1.0]);
    assert_eq!(col_vals(&neq, 0), vec![2.0, 3.0]);
    assert_eq!(eq.rows.len() + neq.rows.len(), 4);
}

#[test]
fn filter_eq_tolerates_rounding_noise() {
    // a value within half the binary32 epsilon of 1.0 still counts equal
    let noisy = 1.0f32 + f32::EPSILON / 4.0;
    let data: &[&[f32]] = &[&[noisy], &[1.5]];
    let eq = filter_table(
        tbl(&["x"], data),
        &"x".to_string(),
        &Operator::Eq,
        1.0f32.to_bits(),
        None,
        false,
    )
    .unwrap();
    assert_eq!(eq.rows.len(), 1);
}

#[test]
fn filter_relational_operators_compare_exactly() {
    let data: &[&[f32]] = &[&[10.0], &[20.0], &[30.0]];
    let v = 20.0f32.to_bits();
    let gt = filter_table(tbl(&["x"], data), &"x".to_string(), &Operator::Gt, v, None, false)
        .unwrap();
    let gte = filter_table(tbl(&["x"], data), &"x".to_string(), &Operator::Gte, v, None, false)
        .unwrap();
    let lt = filter_table(tbl(&["x"], data), &"x".to_string(), &Operator::Lt, v, None, false)
        .unwrap();
    let lte = filter_table(tbl(&["x"], data), &"x".to_string(), &Operator::Lte, v, None, false)
        .unwrap();
    assert_eq!(col_vals(&gt, 0), vec![30.0]);
    assert_eq!(col_vals(&gte, 0), vec![20.0, 30.0]);
    assert_eq!(col_vals(&lt, 0), vec![10.0]);
    assert_eq!(col_vals(&lte, 0), vec![10.0, 20.0]);
}

#[test]
fn count_and_reverse_compose_as_reverse_then_truncate() {
    let mut rows: Vec<Vec<u32>> = [1.0f32, 2.0, 3.0, 4.0, 5.0]
        .iter()
        .map(|x| vec![x.to_bits()])
        .collect();
    apply_count_and_reverse(&mut rows, Some(2), true);
    let got: Vec<f32> = rows.iter().map(|r| f32::from_bits(r[0])).collect();
    assert_eq!(got, vec![5.0, 4.0]);
}

#[test]
fn mean_of_single_row_returns_the_row() {
    let t = tbl(&["a", "b"], &[&[3.5, 7.25]]);
    let m = mean_table(&t, None, None).unwrap();
    assert_eq!(row_vals(&m, 0), vec![3.5, 7.25]);
}

#[test]
fn mean_averages_each_selected_column() {
    let t = tbl(&["a", "b"], &[&[1.0, 10.0], &[2.0, 20.0], &[3.0, 30.0]]);
    let m = mean_table(&t, None, None).unwrap();
    assert_eq!(row_vals(&m, 0), vec![2.0, 20.0]);

    let t = tbl(&["a", "b"], &[&[1.0, 10.0], &[2.0, 20.0], &[3.0, 30.0]]);
    let m = mean_table(&t, None, Some(vec!["a".to_string()])).unwrap();
    assert_eq!(m.headers, vec!["b".to_string()]);
    assert_eq!(row_vals(&m, 0), vec![20.0]);
}

#[test]
fn mean_with_nothing_selected_fails() {
    let t = tbl(&["a"], &[&[1.0]]);
    let e = mean_table(&t, None, Some(vec!["a".to_string()])).unwrap_err();
    assert_eq!(e, QueryError::NoValidCategories);

    let t = tbl(&["a"], &[&[1.0]]);
    let e = mean_table(&t, Some(vec!["zzz".to_string()]), None).unwrap_err();
    assert_eq!(e, QueryError::NoValidCategories);
}

#[test]
fn median_of_odd_and_even_counts() {
    let t = tbl(&["x"], &[&[10.0], &[20.0], &[30.0]]);
    let m = median_table(&t, None, None).unwrap();
    assert_eq!(row_vals(&m, 0), vec![20.0]);

    let t = tbl(&["x"], &[&[10.0], &[20.0], &[30.0], &[40.0]]);
    let m = median_table(&t, None, None).unwrap();
    assert_eq!(row_vals(&m, 0), vec![25.0]);

    let t = tbl(&["x"], &[&[42.0]]);
    let m = median_table(&t, None, None).unwrap();
    assert_eq!(row_vals(&m, 0), vec![42.0]);
}

#[test]
fn median_orders_each_column_independently() {
    // the two columns order their rows differently; a shared buffer would
    // corrupt one of the two medians
    let t = tbl(&["a", "b"], &[&[1.0, 30.0], &[2.0, 10.0], &[3.0, 20.0]]);
    let m = median_table(&t, None, None).unwrap();
    assert_eq!(row_vals(&m, 0), vec![2.0, 20.0]);
}

#[test]
fn empty_table_behaviour() {
    let empty = || tbl(&["x"], &[]);

    let s = sort_table(empty(), &"x".to_string(), None, false).unwrap();
    assert_eq!(s.rows.len(), 0);

    let f = filter_table(
        empty(),
        &"x".to_string(),
        &Operator::Gt,
        0.0f32.to_bits(),
        None,
        false,
    )
    .unwrap();
    assert_eq!(f.rows.len(), 0);

    // the mean of zero rows is a NaN row, deliberately not an error
    let m = mean_table(&empty(), None, None).unwrap();
    assert!(f32::from_bits(m.rows[0][0]).is_nan());

    let e = median_table(&empty(), None, None).unwrap_err();
    assert_eq!(e, QueryError::EmptyDataset);
}

#[test]
fn table_rejects_shape_mismatch() {
    let hs = vec!["a".to_string(), "b".to_string()];
    let rows = vec![vec![1.0f32.to_bits()]];
    let e = Table::new(hs, rows).unwrap_err();
    assert_eq!(e, QueryError::ShapeMismatch);
}

#[test]
fn sort_total_order_handles_nan_and_signed_zero() {
    // NaN sorts above positive infinity; -0.0 sorts just below +0.0
    let t = tbl(&["x"], &[&[f32::NAN, ], &[1.0], &[f32::INFINITY]]);
    let s = sort_table(t, &"x".to_string(), None, false).unwrap();
    assert_eq!(f32::from_bits(s.rows[0][0]), 1.0);
    assert!(f32::from_bits(s.rows[1][0]).is_infinite());
    assert!(f32::from_bits(s.rows[2][0]).is_nan());

    let t = tbl(&["x"], &[&[0.0], &[-0.0]]);
    let s = sort_table(t, &"x".to_string(), None, false).unwrap();
    assert_eq!(s.rows[0][0], (-0.0f32).to_bits());
    assert_eq!(s.rows[1][0], 0.0f32.to_bits());
}

#[test]
fn find_index_takes_the_first_match() {
    let hs = vec!["a".to_string(), "b".to_string(), "a".to_string()];
    assert_eq!(find_index(&hs, &"a".to_string()), Some(0));
    assert_eq!(find_index(&hs, &"b".to_string()), Some(1));
    assert_eq!(find_index(&hs, &"c".to_string()), None);
}

#[test]
fn get_valid_categories_filters_and_keeps_order() {
    let hs = vec!["a".to_string(), "b".to_string(), "c".to_string()];
    let all = get_valid_categories(None, None, &hs);
    assert_eq!(all, hs);

    let picked = get_valid_categories(
        Some(vec!["c".to_string(), "zzz".to_string(), "a".to_string()]),
        None,
        &hs,
    );
    assert_eq!(picked, vec!["c".to_string(), "a".to_string()]);

    let excluded = get_valid_categories(None, Some(vec!["b".to_string()]), &hs);
    assert_eq!(excluded, vec!["a".to_string(), "c".to_string()]);

    let none = get_valid_categories(Some(vec!["zzz".to_string()]), None, &hs);
    assert!(none.is_empty());
}
