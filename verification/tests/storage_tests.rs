use wine_pipeline::ingestion::ingest_csv;
use wine_pipeline::pipeline::{next_stage, PhaseId, PipelineError, Stage};
use wine_pipeline::storage::{
    aggregate_insert_results, decode_persisted_rows, extract_rows, ReadError, WriteError,
};
use wine_pipeline::store::{Column, TabularStore, UNIT};
use wine_pipeline::transformation::{transform_data, TransformError};

const CSV_CONTENT: &str = "fixed acidity,volatile acidity,citric acid,residual sugar,chlorides,free sulfur dioxide,total sulfur dioxide,density,pH,sulphates,alcohol,quality\n7.4,0.7,0,1.9,0.076,11,34,0.9978,3.51,0.56,9.4,5\n7.8,0.88,0,2.6,0.098,25,67,0.9968,3.2,0.68,9.8,5";

fn fixed(x: f64) -> i64 {
    (x * UNIT as f64).round() as i64
}

#[test]
fn test_extract_rows_from_ingested_store() {
    let df = ingest_csv(CSV_CONTENT.as_bytes()).unwrap();
    let recs = extract_rows(&df).unwrap();
    assert_eq!(recs.len(), 2);
    assert_eq!(recs[0].fixed_acidity, fixed(7.4));
    assert_eq!(recs[0].chlorides, fixed(0.076));
    assert_eq!(recs[1].volatile_acidity, fixed(0.88));
    assert_eq!(recs[1].quality, 5 * UNIT);
}

#[test]
fn test_pipeline_two_rows() {
    // the two-row scenario end to end: ingest, transform, decompose,
    // then the simulated write and read-back of exactly two rows
    let df = ingest_csv(CSV_CONTENT.as_bytes()).unwrap();
    assert_eq!(df.shape(), (2, 12));
    let t = transform_data(&df).unwrap();
    assert_eq!(t.shape(), (2, 12));
    for j in 0..t.width() {
        for i in 0..t.height() {
            assert!(t.get(i, j).is_some());
        }
    }
    let recs = extract_rows(&t).unwrap();
    assert_eq!(recs.len(), 2);
    // both inserts complete and succeed
    let outcomes: Vec<Result<(), String>> = vec![Ok(()), Ok(())];
    assert!(aggregate_insert_results(&outcomes).is_ok());
    // the read-back returns those two rows (order unconstrained)
    let raw: Vec<Vec<Option<i64>>> = (0..2)
        .map(|i| {
            let rec = &recs[i];
            vec![
                Some((i + 1) as i64),
                Some(rec.fixed_acidity),
                Some(rec.volatile_acidity),
                Some(rec.citric_acid),
                Some(rec.residual_sugar),
                Some(rec.chlorides),
                Some(rec.free_sulfur_dioxide),
                Some(rec.total_sulfur_dioxide),
                Some(rec.density),
                Some(rec.ph),
                Some(rec.sulphates),
                Some(rec.alcohol),
                Some(rec.quality),
            ]
        })
        .collect();
    let rows = decode_persisted_rows(&raw).unwrap();
    assert_eq!(rows.len(), 2);
    assert_eq!(rows[0].record, recs[0]);
    assert_eq!(rows[1].record, recs[1]);
}

#[test]
fn test_partial_write_failure() {
    // row 0 fails insertion, row 1 succeeds: the aggregate fails with the
    // first per-row error, yet the succeeded row stays persisted
    let outcomes: Vec<Result<(), String>> = vec![
        Err("constraint violation".to_string()),
        Ok(()),
    ];
    match aggregate_insert_results(&outcomes).unwrap_err() {
        WriteError::Insert { row, message } => {
            assert_eq!(row, 0);
            assert_eq!(message, "constraint violation");
        },
        other => panic!("unexpected error: {:?}", other),
    }
    // a later read-back shows exactly the one committed row
    let raw = vec![vec![
        Some(1), Some(2), Some(3), Some(4), Some(5), Some(6), Some(7),
        Some(8), Some(9), Some(10), Some(11), Some(12), Some(13),
    ]];
    let rows = decode_persisted_rows(&raw).unwrap();
    assert_eq!(rows.len(), 1);
    assert_eq!(rows[0].id, 1);
    assert_eq!(rows[0].record.quality, 13);
}

#[test]
fn test_extract_rows_missing_column() {
    let cols = vec![Column { name: b"fixed acidity".to_vec(), nonneg: true, cells: vec![Some(1)] }];
    let df = TabularStore::from_columns(1, cols).unwrap();
    assert_eq!(
        extract_rows(&df).unwrap_err(),
        WriteError::MissingColumn { col: 1 }
    );
}

#[test]
fn test_extract_rows_null_field() {
    // the full schema, with one null left in a later column
    let mut csv = String::from("fixed acidity,volatile acidity,citric acid,residual sugar,chlorides,free sulfur dioxide,total sulfur dioxide,density,pH,sulphates,alcohol,quality\n");
    csv.push_str("7.4,0.7,0,1.9,0.076,11,34,,3.51,0.56,9.4,5");
    let df = ingest_csv(csv.as_bytes()).unwrap();
    assert_eq!(
        extract_rows(&df).unwrap_err(),
        WriteError::FieldExtraction { row: 0, col: 7 }
    );
}

#[test]
fn test_decode_errors() {
    let short = vec![vec![Some(1), Some(2)]];
    assert_eq!(
        decode_persisted_rows(&short).unwrap_err(),
        ReadError::RowArity { row: 0 }
    );
    let mut row: Vec<Option<i64>> = (0..13).map(|v| Some(v)).collect();
    row[4] = None;
    assert_eq!(
        decode_persisted_rows(&vec![row]).unwrap_err(),
        ReadError::FieldCoercion { row: 0, col: 4 }
    );
}

#[test]
fn test_stage_flow() {
    let s = Stage::Idle;
    let s = next_stage(s, Ok(()));
    assert_eq!(s, Stage::Ingesting);
    let s = next_stage(s, Ok(()));
    assert_eq!(s, Stage::Transforming);
    let s = next_stage(s, Ok(()));
    assert_eq!(s, Stage::Writing);
    let s = next_stage(s, Ok(()));
    assert_eq!(s, Stage::Verifying);
    let s = next_stage(s, Ok(()));
    assert_eq!(s, Stage::Done);
}

#[test]
fn test_stage_failure_is_terminal() {
    let s = next_stage(
        Stage::Transforming,
        Err(PipelineError::Transform(TransformError::MedianUndefined { col: 0 })),
    );
    match s {
        Stage::Failed { during, error } => {
            assert_eq!(during, PhaseId::Transform);
            assert_eq!(
                error,
                PipelineError::Transform(TransformError::MedianUndefined { col: 0 })
            );
        },
        other => panic!("unexpected stage: {:?}", other),
    }
}
