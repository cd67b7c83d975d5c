//! The bulk writer's verified core and the verification reader's decoder.
//!
//! Writing is split at the database boundary: `extract_rows` decomposes a
//! store into the twelve-field row records to insert, re-checking every
//! field at the boundary; `aggregate_insert_results` folds the per-row
//! insert outcomes with fail-fast-after-completion semantics (every
//! outcome is already complete; the first failure decides).  The caller
//! performs the actual concurrent inserts and the read-back query;
//! `decode_persisted_rows` re-checks what a read-back returned.

use vstd::prelude::*;
use vstd::slice::slice_to_vec;
use vstd::string::StringSliceAdditionalSpecFns;
use crate::store::{store_ok, StoreModel, TabularStore};

verus! {

/// The canonical schema: the twelve expected column names, in order.
pub open spec fn spec_col_name(j: int) -> Seq<u8> {
    if j == 0 {
        "fixed acidity".spec_bytes()
    } else if j == 1 {
        "volatile acidity".spec_bytes()
    } else if j == 2 {
        "citric acid".spec_bytes()
    } else if j == 3 {
        "residual sugar".spec_bytes()
    } else if j == 4 {
        "chlorides".spec_bytes()
    } else if j == 5 {
        "free sulfur dioxide".spec_bytes()
    } else if j == 6 {
        "total sulfur dioxide".spec_bytes()
    } else if j == 7 {
        "density".spec_bytes()
    } else if j == 8 {
        "pH".spec_bytes()
    } else if j == 9 {
        "sulphates".spec_bytes()
    } else if j == 10 {
        "alcohol".spec_bytes()
    } else {
        "quality".spec_bytes()
    }
}

/// The `j`-th schema column name, as bytes.
pub fn col_name(j: usize) -> (r: Vec<u8>)
    requires
        j < 12,
    ensures
        r@ == spec_col_name(j as int),
{
    let s: &str = if j == 0 {
        "fixed acidity"
    } else if j == 1 {
        "volatile acidity"
    } else if j == 2 {
        "citric acid"
    } else if j == 3 {
        "residual sugar"
    } else if j == 4 {
        "chlorides"
    } else if j == 5 {
        "free sulfur dioxide"
    } else if j == 6 {
        "total sulfur dioxide"
    } else if j == 7 {
        "density"
    } else if j == 8 {
        "pH"
    } else if j == 9 {
        "sulphates"
    } else if j == 10 {
        "alcohol"
    } else {
        "quality"
    };
    slice_to_vec(s.as_bytes())
}

/// The twelve-field domain record extracted from one store row, in
/// fixed-point values.
#[derive(Clone, Copy, Debug, PartialEq, Eq, Structural)]
pub struct RowRecord {
    pub fixed_acidity: i64,
    pub volatile_acidity: i64,
    pub citric_acid: i64,
    pub residual_sugar: i64,
    pub chlorides: i64,
    pub free_sulfur_dioxide: i64,
    pub total_sulfur_dioxide: i64,
    pub density: i64,
    pub ph: i64,
    pub sulphates: i64,
    pub alcohol: i64,
    pub quality: i64,
}

/// The `j`-th field of a record, in schema order.
pub open spec fn record_field(rec: RowRecord, j: int) -> i64 {
    if j == 0 {
        rec.fixed_acidity
    } else if j == 1 {
        rec.volatile_acidity
    } else if j == 2 {
        rec.citric_acid
    } else if j == 3 {
        rec.residual_sugar
    } else if j == 4 {
        rec.chlorides
    } else if j == 5 {
        rec.free_sulfur_dioxide
    } else if j == 6 {
        rec.total_sulfur_dioxide
    } else if j == 7 {
        rec.density
    } else if j == 8 {
        rec.ph
    } else if j == 9 {
        rec.sulphates
    } else if j == 10 {
        rec.alcohol
    } else {
        rec.quality
    }
}

/// A bulk-write failure: a boundary re-check failure while decomposing the
/// store, or the first failed per-row insert.
#[derive(Debug, PartialEq, Eq)]
pub enum WriteError {
    /// Schema column `col` is absent from the store.
    MissingColumn { col: usize },
    /// The cell at row `row` of schema column `col` is null.
    FieldExtraction { row: usize, col: usize },
    /// The insert of row `row` failed with the driver's message; `row` is
    /// the first failed row in order.
    Insert { row: usize, message: String },
}

/// The store has a column named like schema column `j`.
pub open spec fn has_col(m: StoreModel, j: int) -> bool {
    exists|k: int| 0 <= k < m.cols.len() && (#[trigger] m.cols[k]).name == spec_col_name(j)
}

/// The index of that column.
pub open spec fn col_idx(m: StoreModel, j: int) -> int {
    choose|k: int| 0 <= k < m.cols.len() && (#[trigger] m.cols[k]).name == spec_col_name(j)
}

/// In a well-formed store the schema column's index is unique.
pub proof fn lemma_col_idx_unique(m: StoreModel, j: int, k: int)
    requires
        store_ok(m),
        0 <= k < m.cols.len(),
        m.cols[k].name == spec_col_name(j),
    ensures
        has_col(m, j),
        col_idx(m, j) == k,
{
    assert(has_col(m, j));
    let k2 = col_idx(m, j);
    if k2 != k {
        if k2 < k {
            assert(m.cols[k2].name != m.cols[k].name);
        } else {
            assert(m.cols[k].name != m.cols[k2].name);
        }
    }
}

/// The cell of schema column `j` at row `i`.
pub open spec fn schema_cell(m: StoreModel, i: int, j: int) -> Option<i64> {
    m.cols[col_idx(m, j)].cells[i]
}

/// All schema cells of row `i` before column `j`, and of all earlier
/// rows, are present.
pub open spec fn cells_present_upto(m: StoreModel, i: int, j: int) -> bool {
    &&& forall|i2: int, j2: int|
        0 <= i2 < i && 0 <= j2 < 12 ==> (#[trigger] schema_cell(m, i2, j2)) is Some
    &&& forall|j2: int| 0 <= j2 < j ==> (#[trigger] schema_cell(m, i, j2)) is Some
}

/// Decomposes the store into one row record per row, extracting the
/// twelve schema fields by column name.  Re-checks the boundary contract:
/// fails on the first absent schema column, or on the first null schema
/// cell in row-major order; succeeds exactly when all twelve columns are
/// present and every schema cell of every row is non-null.
pub fn extract_rows(store: &TabularStore) -> (r: Result<Vec<RowRecord>, WriteError>)
    requires
        store.wf(),
    ensures
        match r {
            Ok(recs) => {
                &&& forall|j: int| 0 <= j < 12 ==> has_col(store@, j)
                &&& cells_present_upto(store@, store@.rows as int, 0)
                &&& recs@.len() == store@.rows
                &&& forall|i: int, j: int|
                    0 <= i < store@.rows && 0 <= j < 12 ==> record_field(recs@[i], j)
                        == (#[trigger] schema_cell(store@, i, j))->0
            },
            Err(WriteError::MissingColumn { col }) => {
                &&& col < 12
                &&& !has_col(store@, col as int)
                &&& forall|j: int| 0 <= j < col ==> has_col(store@, j)
            },
            Err(WriteError::FieldExtraction { row, col }) => {
                &&& forall|j: int| 0 <= j < 12 ==> has_col(store@, j)
                &&& row < store@.rows
                &&& col < 12
                &&& schema_cell(store@, row as int, col as int) is None
                &&& cells_present_upto(store@, row as int, col as int)
            },
            Err(WriteError::Insert { .. }) => false,
        },
{
    let ghost m = store@;
    let mut idxs: Vec<usize> = Vec::new();
    let mut j: usize = 0;
    while j < 12
        invariant
            store.wf(),
            m == store@,
            0 <= j <= 12,
            idxs@.len() == j,
            forall|j2: int| 0 <= j2 < j ==> has_col(m, j2),
            forall|j2: int| 0 <= j2 < j ==> (#[trigger] idxs@[j2]) as int == col_idx(m, j2)
                && idxs@[j2] < m.cols.len(),
        decreases 12 - j,
    {
        let name = col_name(j);
        match store.find_column(name.as_slice()) {
            Some(k) => {
                proof {
                    lemma_col_idx_unique(m, j as int, k as int);
                }
                idxs.push(k);
            },
            None => {
                proof {
                    assert(!has_col(m, j as int)) by {
                        if has_col(m, j as int) {
                            let k = choose|k: int|
                                0 <= k < m.cols.len() && (#[trigger] m.cols[k]).name
                                    == spec_col_name(j as int);
                            assert(m.cols[k].name != name@);
                        }
                    }
                }
                return Err(WriteError::MissingColumn { col: j });
            },
        }
        j = j + 1;
    }
    let mut recs: Vec<RowRecord> = Vec::new();
    let mut i: usize = 0;
    let nrows = store.height();
    while i < nrows
        invariant
            store.wf(),
            m == store@,
            nrows == m.rows,
            idxs@.len() == 12,
            forall|j2: int| 0 <= j2 < 12 ==> has_col(m, j2),
            forall|j2: int| 0 <= j2 < 12 ==> (#[trigger] idxs@[j2]) as int == col_idx(m, j2)
                && idxs@[j2] < m.cols.len(),
            0 <= i <= nrows,
            recs@.len() == i,
            cells_present_upto(m, i as int, 0),
            forall|i2: int, j2: int|
                0 <= i2 < i && 0 <= j2 < 12 ==> record_field(recs@[i2], j2)
                    == (#[trigger] schema_cell(m, i2, j2))->0,
        decreases nrows - i,
    {
        let mut vals: Vec<i64> = Vec::new();
        let mut j2: usize = 0;
        while j2 < 12
            invariant
                store.wf(),
                m == store@,
                nrows == m.rows,
                i < nrows,
                idxs@.len() == 12,
                forall|q: int| 0 <= q < 12 ==> has_col(m, q),
                forall|q: int| 0 <= q < 12 ==> (#[trigger] idxs@[q]) as int == col_idx(m, q)
                    && idxs@[q] < m.cols.len(),
                cells_present_upto(m, i as int, 0),
                0 <= j2 <= 12,
                vals@.len() == j2,
                forall|q: int| 0 <= q < j2 ==> (#[trigger] schema_cell(m, i as int, q)) is Some,
                forall|q: int| 0 <= q < j2 ==> vals@[q] == schema_cell(m, i as int, q)->0,
            decreases 12 - j2,
        {
            match store.get(i, idxs[j2]) {
                Some(v) => vals.push(v),
                None => {
                    proof {
                        assert(schema_cell(m, i as int, j2 as int) is None);
                        assert(cells_present_upto(m, i as int, j2 as int));
                    }
                    return Err(WriteError::FieldExtraction { row: i, col: j2 });
                },
            }
            j2 = j2 + 1;
        }
        let rec = RowRecord {
            fixed_acidity: vals[0],
            volatile_acidity: vals[1],
            citric_acid: vals[2],
            residual_sugar: vals[3],
            chlorides: vals[4],
            free_sulfur_dioxide: vals[5],
            total_sulfur_dioxide: vals[6],
            density: vals[7],
            ph: vals[8],
            sulphates: vals[9],
            alcohol: vals[10],
            quality: vals[11],
        };
        proof {
            assert(forall|q: int| 0 <= q < 12 ==> record_field(rec, q) == vals@[q]);
        }
        recs.push(rec);
        i = i + 1;
    }
    Ok(recs)
}

/// Folds the completed per-row insert outcomes: fail fast after
/// completion.  Every outcome was awaited by the caller; the aggregate
/// succeeds exactly when every row succeeded, and otherwise carries the
/// first failed row's index and message.  Rows after a failure are not
/// rolled back: the partial commit is deliberate.
pub fn aggregate_insert_results(results: &Vec<Result<(), String>>) -> (r: Result<(), WriteError>)
    ensures
        r is Ok <==> (forall|i: int| 0 <= i < results@.len() ==> (#[trigger] results@[i]) is Ok),
        r matches Err(e) ==> (e matches WriteError::Insert { row, message } && row
            < results@.len() && results@[row as int] is Err && message@ == results@[
            row as int
        ]->Err_0@ && (forall|i: int| 0 <= i < row ==> (#[trigger] results@[i]) is Ok)),
{
    let mut i: usize = 0;
    while i < results.len()
        invariant
            0 <= i <= results@.len(),
            forall|k: int| 0 <= k < i ==> (#[trigger] results@[k]) is Ok,
        decreases results@.len() - i,
    {
        match &results[i] {
            Ok(_) => {},
            Err(m) => {
                return Err(WriteError::Insert { row: i, message: m.clone() });
            },
        }
        i = i + 1;
    }
    Ok(())
}

/// A database-resident row read back for verification: the surrogate key
/// and the twelve persisted fields.
#[derive(Clone, Copy, Debug, PartialEq, Eq, Structural)]
pub struct PersistedRow {
    pub id: i64,
    pub record: RowRecord,
}

/// A verification-read failure: a fetched row of the wrong shape, or a
/// field that was null or failed coercion.
#[derive(Clone, Copy, Debug, PartialEq, Eq, Structural)]
pub enum ReadError {
    /// Fetched row `row` does not have exactly thirteen fields.
    RowArity { row: usize },
    /// Field `col` of fetched row `row` is missing.
    FieldCoercion { row: usize, col: usize },
}

/// A fetched raw row decodes: thirteen fields, all present.
pub open spec fn raw_row_ok(row: Seq<Option<i64>>) -> bool {
    &&& row.len() == 13
    &&& forall|c: int| 0 <= c < row.len() ==> (#[trigger] row[c]) is Some
}

/// Decodes raw fetched rows (thirteen coerced fields each: the id, then
/// the twelve schema fields) into persisted rows.  Succeeds exactly when
/// every raw row has thirteen present fields; fails on the first row of
/// wrong arity or, scanning fields left to right, the first missing
/// field.
pub fn decode_persisted_rows(raw: &Vec<Vec<Option<i64>>>) -> (r: Result<
    Vec<PersistedRow>,
    ReadError,
>)
    ensures
        r is Ok <==> (forall|i: int| 0 <= i < raw@.len() ==> raw_row_ok((#[trigger] raw@[i])@)),
        r matches Ok(rows) ==> rows@.len() == raw@.len() && forall|i: int, j: int|
            0 <= i < raw@.len() && 0 <= j < 12 ==> rows@[i].id == raw@[i]@[0]->0
                && record_field(rows@[i].record, j) == (#[trigger] raw@[i]@[j + 1])->0,
        r matches Err(ReadError::RowArity { row }) ==> row < raw@.len() && raw@[row as int]@.len()
            != 13 && (forall|i: int| 0 <= i < row ==> raw_row_ok((#[trigger] raw@[i])@)),
        r matches Err(ReadError::FieldCoercion { row, col }) ==> row < raw@.len()
            && raw@[row as int]@.len() == 13 && col < 13 && raw@[row as int]@[col as int] is None
            && (forall|i: int| 0 <= i < row ==> raw_row_ok((#[trigger] raw@[i])@)) && (forall|
            c: int,
        |
            0 <= c < col ==> (#[trigger] raw@[row as int]@[c]) is Some),
{
    let mut rows: Vec<PersistedRow> = Vec::new();
    let mut i: usize = 0;
    while i < raw.len()
        invariant
            0 <= i <= raw@.len(),
            rows@.len() == i,
            forall|k: int| 0 <= k < i ==> raw_row_ok((#[trigger] raw@[k])@),
            forall|k: int, j: int|
                0 <= k < i && 0 <= j < 12 ==> rows@[k].id == raw@[k]@[0]->0
                    && record_field(rows@[k].record, j) == (#[trigger] raw@[k]@[j + 1])->0,
        decreases raw@.len() - i,
    {
        let rr = &raw[i];
        if rr.len() != 13 {
            return Err(ReadError::RowArity { row: i });
        }
        let mut vals: Vec<i64> = Vec::new();
        let mut c: usize = 0;
        while c < 13
            invariant
                i < raw@.len(),
                rr@ == raw@[i as int]@,
                rr@.len() == 13,
                forall|k: int| 0 <= k < i ==> raw_row_ok((#[trigger] raw@[k])@),
                0 <= c <= 13,
                vals@.len() == c,
                forall|q: int| 0 <= q < c ==> (#[trigger] rr@[q]) is Some,
                forall|q: int| 0 <= q < c ==> vals@[q] == rr@[q]->0,
            decreases 13 - c,
        {
            match rr[c] {
                Some(v) => vals.push(v),
                None => {
                    return Err(ReadError::FieldCoercion { row: i, col: c });
                },
            }
            c = c + 1;
        }
        let row = PersistedRow {
            id: vals[0],
            record: RowRecord {
                fixed_acidity: vals[1],
                volatile_acidity: vals[2],
                citric_acid: vals[3],
                residual_sugar: vals[4],
                chlorides: vals[5],
                free_sulfur_dioxide: vals[6],
                total_sulfur_dioxide: vals[7],
                density: vals[8],
                ph: vals[9],
                sulphates: vals[10],
                alcohol: vals[11],
                quality: vals[12],
            },
        };
        rows.push(row);
        i = i + 1;
    }
    Ok(rows)
}

} // verus!
