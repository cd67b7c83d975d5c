use wine_pipeline::store::{Column, TabularStore, UNIT};
use wine_pipeline::transformation::{
    clean_data, median_value, normalize_data, transform_data, validate_data, TransformError,
};

fn fixed(x: f64) -> i64 {
    (x * UNIT as f64).round() as i64
}

fn col(name: &[u8], cells: Vec<Option<i64>>) -> Column {
    Column { name: name.to_vec(), nonneg: true, cells }
}

fn create_test_dataframe() -> TabularStore {
    let names: [&[u8]; 12] = [
        b"fixed acidity",
        b"volatile acidity",
        b"citric acid",
        b"residual sugar",
        b"chlorides",
        b"free sulfur dioxide",
        b"total sulfur dioxide",
        b"density",
        b"pH",
        b"sulphates",
        b"alcohol",
        b"quality",
    ];
    let base = [
        [7.4, 7.8, 7.5],
        [0.7, 0.88, 0.76],
        [0.0, 0.0, 0.1],
        [1.9, 2.6, 2.0],
        [0.076, 0.098, 0.08],
        [11.0, 25.0, 15.0],
        [34.0, 67.0, 40.0],
        [0.9978, 0.9968, 0.997],
        [3.51, 3.2, 3.3],
        [0.56, 0.68, 0.6],
        [9.4, 9.8, 9.5],
        [5.0, 5.0, 6.0],
    ];
    let cols: Vec<Column> = names
        .iter()
        .zip(base.iter())
        .map(|(n, vals)| col(n, vals.iter().map(|v| Some(fixed(*v))).collect()))
        .collect();
    TabularStore::from_columns(3, cols).expect("store should be well formed")
}

#[test]
fn test_transform_data() {
    let df = create_test_dataframe();
    let result = transform_data(&df);
    assert!(result.is_ok());

    let transformed_df = result.unwrap();
    assert_eq!(transformed_df.height(), 3); // Should remain 3 rows
    assert_eq!(transformed_df.width(), 12); // 12 columns after transformation
}

#[test]
fn test_clean_data() {
    let cols = vec![
        col(b"fixed acidity", vec![Some(fixed(7.4)), None, Some(fixed(7.5))]),
        col(b"volatile acidity", vec![Some(fixed(0.7)), None, Some(fixed(0.76))]),
    ];
    let df = TabularStore::from_columns(3, cols).unwrap();
    let cleaned_df = clean_data(&df);
    assert!(cleaned_df.is_ok());

    let cleaned = cleaned_df.unwrap();
    let fa = cleaned.find_column(b"fixed acidity").unwrap();
    let mut null_count = 0;
    for i in 0..cleaned.height() {
        if cleaned.get(i, fa).is_none() {
            null_count += 1;
        }
    }
    assert!(null_count == 0);
    // the filled value is the median of 7.4 and 7.5
    assert_eq!(cleaned.get(1, fa), Some(fixed(7.45)));
}

#[test]
fn test_clean_is_identity_on_null_free() {
    let df = create_test_dataframe();
    let cleaned = clean_data(&df).unwrap();
    assert_eq!(cleaned.shape(), df.shape());
    for j in 0..df.width() {
        for i in 0..df.height() {
            assert_eq!(cleaned.get(i, j), df.get(i, j));
        }
    }
}

#[test]
fn test_clean_all_null_column_fails() {
    let cols = vec![col(b"a", vec![None, None])];
    let df = TabularStore::from_columns(2, cols).unwrap();
    assert_eq!(
        clean_data(&df).unwrap_err(),
        TransformError::MedianUndefined { col: 0 }
    );
}

#[test]
fn test_median_value() {
    let cols = vec![col(
        b"a",
        vec![Some(1 * UNIT), Some(2 * UNIT), Some(3 * UNIT), Some(4 * UNIT)],
    )];
    let df = TabularStore::from_columns(4, cols).unwrap();
    // even count: the average of the two middle values
    assert_eq!(median_value(&df, b"a"), Ok(fixed(2.5)));
    assert_eq!(
        median_value(&df, b"missing"),
        Err(TransformError::ColumnMissing)
    );
}

#[test]
fn test_median_odd_count() {
    let cols = vec![col(b"a", vec![Some(3 * UNIT), Some(1 * UNIT), Some(2 * UNIT)])];
    let df = TabularStore::from_columns(3, cols).unwrap();
    assert_eq!(median_value(&df, b"a"), Ok(2 * UNIT));
}

#[test]
fn test_normalize_bounds() {
    let cols = vec![col(b"a", vec![Some(0), Some(5 * UNIT), Some(10 * UNIT)])];
    let df = TabularStore::from_columns(3, cols).unwrap();
    let n = normalize_data(&df).unwrap();
    // min maps to 0, max to 1, the middle to exactly one half
    assert_eq!(n.get(0, 0), Some(0));
    assert_eq!(n.get(1, 0), Some(UNIT / 2));
    assert_eq!(n.get(2, 0), Some(UNIT));
}

#[test]
fn test_normalize_degenerate_column() {
    // a constant column maps to the documented constant 0
    let cols = vec![col(b"a", vec![Some(3 * UNIT), Some(3 * UNIT)])];
    let df = TabularStore::from_columns(2, cols).unwrap();
    let n = normalize_data(&df).unwrap();
    assert_eq!(n.get(0, 0), Some(0));
    assert_eq!(n.get(1, 0), Some(0));
}

#[test]
fn test_validate_drops_negative_rows() {
    let cols = vec![
        col(b"a", vec![Some(1), Some(-1), Some(2)]),
        col(b"b", vec![Some(5), Some(6), Some(7)]),
    ];
    let df = TabularStore::from_columns(3, cols).unwrap();
    let v = validate_data(&df).unwrap();
    assert_eq!(v.height(), 2);
    assert_eq!(v.get(0, 0), Some(1));
    assert_eq!(v.get(1, 0), Some(2));
    assert_eq!(v.get(1, 1), Some(7));
}

#[test]
fn test_validate_keeps_unconstrained_negatives() {
    let cols = vec![Column {
        name: b"delta".to_vec(),
        nonneg: false,
        cells: vec![Some(-5), Some(3)],
    }];
    let df = TabularStore::from_columns(2, cols).unwrap();
    let v = validate_data(&df).unwrap();
    assert_eq!(v.height(), 2);
    assert_eq!(v.get(0, 0), Some(-5));
}

#[test]
fn test_transform_composed_on_nulls_and_negatives() {
    // some nulls and some negative values: the composed pipeline yields a
    // store with no nulls, everything scaled into [0, 1], no negatives
    let cols = vec![
        col(b"a", vec![Some(-2 * UNIT), None, Some(2 * UNIT), Some(0)]),
        col(b"b", vec![Some(1 * UNIT), Some(3 * UNIT), None, Some(2 * UNIT)]),
    ];
    let df = TabularStore::from_columns(4, cols).unwrap();
    let t = transform_data(&df).unwrap();
    assert_eq!(t.width(), 2);
    assert!(t.height() <= 4);
    for j in 0..t.width() {
        for i in 0..t.height() {
            let v = t.get(i, j).expect("no null may remain");
            assert!(0 <= v && v <= UNIT);
        }
    }
}

#[test]
fn test_transform_propagates_clean_failure() {
    let cols = vec![col(b"a", vec![None])];
    let df = TabularStore::from_columns(1, cols).unwrap();
    assert_eq!(
        transform_data(&df).unwrap_err(),
        TransformError::MedianUndefined { col: 0 }
    );
}
