use wine_pipeline::ingestion::{ingest_csv, retry_ingest, retry_step, IngestionError, RetryDecision};
use wine_pipeline::store::UNIT;

const CSV_CONTENT: &str = "fixed acidity,volatile acidity,citric acid,residual sugar,chlorides,free sulfur dioxide,total sulfur dioxide,density,pH,sulphates,alcohol,quality\n7.4,0.7,0,1.9,0.076,11,34,0.9978,3.51,0.56,9.4,5\n7.8,0.88,0,2.6,0.098,25,67,0.9968,3.2,0.68,9.8,5";

fn fixed(x: f64) -> i64 {
    (x * UNIT as f64).round() as i64
}

#[test]
fn test_ingest_csv() {
    let df = ingest_csv(CSV_CONTENT.as_bytes()).expect("CSV ingestion failed");

    assert_eq!(df.shape(), (2, 12)); // 2 rows, 12 columns
    let fa = df.find_column(b"fixed acidity").unwrap();
    assert_eq!(df.get(0, fa), Some(fixed(7.4)));
    let q = df.find_column(b"quality").unwrap();
    assert_eq!(df.get(1, q), Some(5 * UNIT));
}

#[test]
fn test_retry_ingest() {
    let reads = vec![Some(CSV_CONTENT.as_bytes().to_vec())];
    let df = retry_ingest(&reads, 3).expect("CSV ingestion failed after 3 attempts");

    assert_eq!(df.shape(), (2, 12)); // 2 rows, 12 columns
    let fa = df.find_column(b"fixed acidity").unwrap();
    assert_eq!(df.get(0, fa), Some(fixed(7.4)));
    let q = df.find_column(b"quality").unwrap();
    assert_eq!(df.get(1, q), Some(5 * UNIT));
}

#[test]
fn test_retry_ingest_fail() {
    // every read of "non_existent_file.csv" fails to produce text
    let reads: Vec<Option<Vec<u8>>> = vec![None, None, None];

    let result = retry_ingest(&reads, 3);
    assert!(result.is_err());
    match result.unwrap_err() {
        IngestionError::RetriesExhausted { attempts, last } => {
            assert_eq!(attempts, 3);
            assert_eq!(*last.unwrap(), IngestionError::SourceUnavailable);
        },
        other => panic!("unexpected error: {:?}", other),
    }
}

#[test]
fn test_retry_eventual_success() {
    let reads = vec![None, None, Some(CSV_CONTENT.as_bytes().to_vec())];
    let df = retry_ingest(&reads, 5).expect("third attempt should succeed");
    assert_eq!(df.shape(), (2, 12));
}

#[test]
fn test_retry_zero_attempts() {
    let reads = vec![Some(CSV_CONTENT.as_bytes().to_vec())];
    match retry_ingest(&reads, 0).unwrap_err() {
        IngestionError::RetriesExhausted { attempts, last } => {
            assert_eq!(attempts, 0);
            assert!(last.is_none());
        },
        other => panic!("unexpected error: {:?}", other),
    }
}

#[test]
fn test_retry_step_policy() {
    assert_eq!(retry_step(1, 3), RetryDecision::RetryAfterDelay);
    assert_eq!(retry_step(2, 3), RetryDecision::RetryAfterDelay);
    assert_eq!(retry_step(3, 3), RetryDecision::GiveUp);
    assert_eq!(retry_step(0, 0), RetryDecision::GiveUp);
}

#[test]
fn test_ingest_cell_values() {
    let df = ingest_csv(b"a,b\n-1.5,\n2,0.25").expect("small CSV should parse");
    assert_eq!(df.shape(), (2, 2));
    let a = df.find_column(b"a").unwrap();
    let b = df.find_column(b"b").unwrap();
    assert_eq!(df.get(0, a), Some(-1_500_000));
    assert_eq!(df.get(0, b), None); // empty cell is null
    assert_eq!(df.get(1, a), Some(2_000_000));
    assert_eq!(df.get(1, b), Some(250_000));
}

#[test]
fn test_ingest_header_only() {
    // a header with zero data rows is well-formed
    let df = ingest_csv(b"a,b,c").expect("header-only CSV should parse");
    assert_eq!(df.shape(), (0, 3));
}

#[test]
fn test_ingest_trailing_newline_and_cr() {
    let df = ingest_csv(b"a,b\r\n1,2\r\n").expect("CRLF CSV should parse");
    assert_eq!(df.shape(), (1, 2));
    let a = df.find_column(b"a").unwrap();
    assert_eq!(df.get(0, a), Some(1_000_000));
}

#[test]
fn test_ingest_empty_input() {
    assert_eq!(ingest_csv(b"").unwrap_err(), IngestionError::EmptyInput);
}

#[test]
fn test_ingest_duplicate_column() {
    assert_eq!(
        ingest_csv(b"a,a\n1,2").unwrap_err(),
        IngestionError::DuplicateColumn { col: 1 }
    );
}

#[test]
fn test_ingest_arity_mismatch() {
    assert_eq!(
        ingest_csv(b"a,b\n1").unwrap_err(),
        IngestionError::ArityMismatch { row: 1 }
    );
}

#[test]
fn test_ingest_bad_cell() {
    assert_eq!(
        ingest_csv(b"a,b\n1,x").unwrap_err(),
        IngestionError::BadCell { row: 1, col: 1 }
    );
}

#[test]
fn test_ingest_value_too_large() {
    // 2000000 units exceed the store's value bound, so the cell is refused
    assert_eq!(
        ingest_csv(b"a\n2000000").unwrap_err(),
        IngestionError::BadCell { row: 1, col: 0 }
    );
    // the largest representable magnitude still parses
    let df = ingest_csv(b"a\n1000000").expect("the bound itself fits");
    assert_eq!(df.get(0, 0), Some(1_000_000 * UNIT));
}

#[test]
fn test_ingest_too_many_fraction_digits() {
    assert_eq!(
        ingest_csv(b"a\n1.1234567").unwrap_err(),
        IngestionError::BadCell { row: 1, col: 0 }
    );
    let df = ingest_csv(b"a\n1.123456").expect("six fraction digits fit");
    assert_eq!(df.get(0, 0), Some(1_123_456));
}
