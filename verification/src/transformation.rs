//! The transform pipeline: `clean_data` (null-fill with the column median),
//! `normalize_data` (min-max scaling into `[0, UNIT]`), `validate_data`
//! (drop rows violating a non-negativity constraint), and their strict
//! composition `transform_data`.
//!
//! Each stage has a mathematical model (`clean_result`, `normalize_model`,
//! `validate_model`) over [`StoreModel`]; the executable stage is proved to
//! return exactly the model, and the pipeline laws are proved over the
//! models.

use vstd::prelude::*;
use crate::stats::{
    lemma_min_max, lemma_scale_bounds, median_of, min_max_of, scale_value, seq_max, seq_min,
    spec_median, spec_scale,
};
use crate::store::{cell_ok, col_ok, store_ok, ColModel, Column, StoreModel, TabularStore, UNIT,
    VAL_LIMIT};

verus! {

/// A structural or statistical failure inside a transform stage.
#[derive(Clone, Copy, Debug, PartialEq, Eq, Structural)]
pub enum TransformError {
    /// A stage was asked for a column the store does not have.
    ColumnMissing,
    /// The median of column `col` is undefined: it has no non-null value.
    MedianUndefined { col: usize },
}

/// The sequence of non-null values of a column, in row order.
pub open spec fn present_vals(cells: Seq<Option<i64>>) -> Seq<i64>
    decreases cells.len(),
{
    if cells.len() == 0 {
        Seq::empty()
    } else {
        let rest = present_vals(cells.drop_last());
        match cells.last() {
            Some(v) => rest.push(v),
            None => rest,
        }
    }
}

/// Non-null values are exactly the `Some` cells: each is a cell value, and
/// each `Some` cell contributes its value.
pub proof fn lemma_present_vals(cells: Seq<Option<i64>>)
    ensures
        present_vals(cells).len() <= cells.len(),
        forall|k: int| 0 <= k < present_vals(cells).len()
            ==> exists|i: int| 0 <= i < cells.len() && cells[i] == Some(
                #[trigger] present_vals(cells)[k],
            ),
        forall|i: int| 0 <= i < cells.len() ==> ((#[trigger] cells[i]) matches Some(v)
            ==> present_vals(cells).contains(v)),
    decreases cells.len(),
{
    if cells.len() > 0 {
        let prefix = cells.drop_last();
        lemma_present_vals(prefix);
        let pv = present_vals(cells);
        let pvp = present_vals(prefix);
        assert forall|k: int| 0 <= k < pv.len() implies exists|i: int|
            0 <= i < cells.len() && cells[i] == Some(#[trigger] pv[k]) by {
            if k < pvp.len() {
                let i = choose|i: int| 0 <= i < prefix.len() && prefix[i] == Some(pvp[k]);
                assert(cells[i] == Some(pv[k]));
            } else {
                assert(cells.last() == Some(pv[k]));
                assert(cells[cells.len() - 1] == Some(pv[k]));
            }
        }
        assert forall|i: int|
            0 <= i < cells.len() && (#[trigger] cells[i]) is Some implies pv.contains(
            cells[i]->0,
        ) by {
            if i < cells.len() - 1 {
                assert(prefix[i] == cells[i]);
                let v = cells[i]->0;
                assert(pvp.contains(v));
                let k = choose|k: int| 0 <= k < pvp.len() && pvp[k] == v;
                match cells.last() {
                    Some(_) => {
                        assert(pv[k] == v);
                    },
                    None => {
                        assert(pv[k] == v);
                    },
                }
            } else {
                match cells.last() {
                    Some(v) => {
                        assert(pv[pv.len() - 1] == v);
                    },
                    None => {},
                }
            }
        }
    }
}

/// Collects the non-null values of a column.
fn collect_present(cells: &Vec<Option<i64>>) -> (r: Vec<i64>)
    ensures
        r@ == present_vals(cells@),
{
    let mut out: Vec<i64> = Vec::new();
    let mut i: usize = 0;
    proof {
        assert(cells@.take(0) =~= Seq::<Option<i64>>::empty());
    }
    while i < cells.len()
        invariant
            0 <= i <= cells@.len(),
            out@ == present_vals(cells@.take(i as int)),
        decreases cells@.len() - i,
    {
        proof {
            assert(cells@.take(i + 1).drop_last() =~= cells@.take(i as int));
            assert(cells@.take(i + 1).last() == cells@[i as int]);
        }
        match cells[i] {
            Some(v) => out.push(v),
            None => {},
        }
        i = i + 1;
    }
    proof {
        assert(cells@.take(cells@.len() as int) =~= cells@);
    }
    out
}

/// A column is all-null when it has no non-null value (also true of a
/// zero-row column).
pub open spec fn col_all_null(c: ColModel) -> bool {
    present_vals(c.cells).len() == 0
}

/// Index of the first all-null column, if any.
pub open spec fn first_all_null(cols: Seq<ColModel>) -> Option<int>
    decreases cols.len(),
{
    if cols.len() == 0 {
        None
    } else if col_all_null(cols[0]) {
        Some(0)
    } else {
        match first_all_null(cols.drop_first()) {
            Some(j) => Some(j + 1),
            None => None,
        }
    }
}

/// `first_all_null` is exactly the least all-null column index.
pub proof fn lemma_first_all_null(cols: Seq<ColModel>)
    ensures
        match first_all_null(cols) {
            Some(j) => 0 <= j < cols.len() && col_all_null(cols[j]) && forall|k: int|
                0 <= k < j ==> !col_all_null(#[trigger] cols[k]),
            None => forall|k: int| 0 <= k < cols.len() ==> !col_all_null(#[trigger] cols[k]),
        },
    decreases cols.len(),
{
    if cols.len() > 0 && !col_all_null(cols[0]) {
        let rest = cols.drop_first();
        lemma_first_all_null(rest);
        assert(forall|k: int| 0 <= k < rest.len() ==> #[trigger] rest[k] == cols[k + 1]);
        match first_all_null(rest) {
            Some(j) => {
                assert(first_all_null(cols) == Some(j + 1));
                assert(col_all_null(cols[j + 1]));
                assert forall|k: int| 0 <= k < j + 1 implies !col_all_null(
                    #[trigger] cols[k],
                ) by {
                    if k > 0 {
                        assert(rest[k - 1] == cols[k]);
                        assert(!col_all_null(rest[k - 1]));
                    }
                }
            },
            None => {
                assert(first_all_null(cols) is None);
                assert forall|k: int| 0 <= k < cols.len() implies !col_all_null(
                    #[trigger] cols[k],
                ) by {
                    if k > 0 {
                        assert(rest[k - 1] == cols[k]);
                        assert(!col_all_null(rest[k - 1]));
                    }
                }
            },
        }
    }
}

/// The median of a column's non-null values, as an unbounded integer.
pub open spec fn col_median(c: ColModel) -> int {
    spec_median(present_vals(c.cells))
}

/// A cell after cleaning: kept if present, otherwise the column median.
pub open spec fn fill_cell(c: Option<i64>, med: i64) -> Option<i64> {
    match c {
        Some(v) => Some(v),
        None => Some(med),
    }
}

/// A column after cleaning.
pub open spec fn clean_col_model(c: ColModel) -> ColModel {
    ColModel {
        name: c.name,
        nonneg: c.nonneg,
        cells: Seq::new(c.cells.len(), |i: int| fill_cell(c.cells[i], col_median(c) as i64)),
    }
}

/// A store after cleaning, assuming every column has a median.
pub open spec fn clean_model(m: StoreModel) -> StoreModel {
    StoreModel { rows: m.rows, cols: m.cols.map_values(|c: ColModel| clean_col_model(c)) }
}

/// What `clean_data` returns: the cleaned store, or the first column whose
/// median is undefined.
pub open spec fn clean_result(m: StoreModel) -> Result<StoreModel, TransformError> {
    match first_all_null(m.cols) {
        Some(j) => Err(TransformError::MedianUndefined { col: j as usize }),
        None => Ok(clean_model(m)),
    }
}

/// Cleans a store: every null cell of each column is replaced by that
/// column's median over its non-null values.  Fails on the first column
/// whose median is undefined (no non-null value), and leaves no null in the
/// output otherwise.
pub fn clean_data(store: &TabularStore) -> (r: Result<TabularStore, TransformError>)
    requires
        store.wf(),
    ensures
        match r {
            Ok(t) => clean_result(store@) == Ok::<StoreModel, TransformError>(t@) && t.wf()
                && t@.rows == store@.rows,
            Err(e) => clean_result(store@) == Err::<StoreModel, TransformError>(e),
        },
{
    let ghost m = store@;
    let mut cols: Vec<Column> = Vec::new();
    let mut j: usize = 0;
    while j < store.cols.len()
        invariant
            store.wf(),
            m == store@,
            0 <= j <= m.cols.len(),
            m.cols.len() == store.cols@.len(),
            cols@.len() == j,
            forall|k: int| 0 <= k < j ==> !col_all_null(#[trigger] m.cols[k]),
            forall|k: int| 0 <= k < j ==> (#[trigger] cols@[k])@ == clean_col_model(m.cols[k]),
        decreases m.cols.len() - j,
    {
        let c = &store.cols[j];
        proof {
            assert(m.cols[j as int] == c@);
            assert(col_ok(c@, m.rows));
            lemma_present_vals(c.cells@);
        }
        let vals = collect_present(&c.cells);
        if vals.len() == 0 {
            proof {
                lemma_first_all_null(m.cols);
            }
            return Err(TransformError::MedianUndefined { col: j });
        }
        proof {
            assert forall|k: int| 0 <= k < vals@.len() implies -VAL_LIMIT <= #[trigger] vals@[k]
                <= VAL_LIMIT by {
                let i = choose|i: int| 0 <= i < c.cells@.len() && c.cells@[i] == Some(vals@[k]);
                assert(cell_ok(c@.cells[i]));
            }
        }
        let med = median_of(&vals);
        let mut cells: Vec<Option<i64>> = Vec::new();
        let mut i: usize = 0;
        while i < c.cells.len()
            invariant
                0 <= i <= c.cells@.len(),
                cells@.len() == i,
                med as int == col_median(c@),
                forall|k: int| 0 <= k < i
                    ==> cells@[k] == fill_cell(c@.cells[k], med),
            decreases c.cells@.len() - i,
        {
            match c.cells[i] {
                Some(v) => cells.push(Some(v)),
                None => cells.push(Some(med)),
            }
            i = i + 1;
        }
        let newcol = Column { name: c.name.clone(), nonneg: c.nonneg, cells };
        proof {
            assert(newcol@.cells =~= clean_col_model(c@).cells);
            assert(newcol@ == clean_col_model(m.cols[j as int]));
        }
        cols.push(newcol);
        j = j + 1;
    }
    proof {
        lemma_first_all_null(m.cols);
        assert(first_all_null(m.cols) is None) by {
            if first_all_null(m.cols) is Some {
                let b = first_all_null(m.cols)->0;
                assert(!col_all_null(m.cols[b]));
            }
        }
    }
    let t = TabularStore { rows: store.rows, cols };
    proof {
        assert(t@.cols =~= clean_model(m).cols);
        assert(t@ == clean_model(m));
        assert forall|k: int| 0 <= k < t@.cols.len() implies col_ok(
            #[trigger] t@.cols[k],
            t@.rows,
        ) by {
            let c = m.cols[k];
            assert(col_ok(c, m.rows));
            assert(t@.cols[k] == clean_col_model(c));
            lemma_present_vals(c.cells);
            assert forall|q: int| 0 <= q < present_vals(c.cells).len() implies -VAL_LIMIT
                <= #[trigger] present_vals(c.cells)[q] <= VAL_LIMIT by {
                let i = choose|i: int|
                    0 <= i < c.cells.len() && c.cells[i] == Some(present_vals(c.cells)[q]);
                assert(cell_ok(c.cells[i]));
            }
            crate::stats::lemma_median_bounded(present_vals(c.cells));
            assert forall|i: int| 0 <= i < t@.cols[k].cells.len() implies cell_ok(
                #[trigger] t@.cols[k].cells[i],
            ) by {
                assert(t@.cols[k].cells[i] == fill_cell(c.cells[i], col_median(c) as i64));
                assert(cell_ok(c.cells[i]));
            }
        }
        assert(store_ok(t@));
    }
    Ok(t)
}

/// A cell after min-max scaling of its column from `[lo, hi]`.
pub open spec fn scale_cell(c: Option<i64>, lo: i64, hi: i64) -> Option<i64> {
    match c {
        Some(v) => Some(spec_scale(v as int, lo as int, hi as int) as i64),
        None => None,
    }
}

/// A column after normalization: each non-null value is scaled linearly
/// from the column's own `[min, max]` into `[0, UNIT]`; a column with no
/// non-null value is unchanged.
pub open spec fn normalize_col_model(c: ColModel) -> ColModel {
    let vals = present_vals(c.cells);
    if vals.len() == 0 {
        c
    } else {
        ColModel {
            name: c.name,
            nonneg: c.nonneg,
            cells: Seq::new(
                c.cells.len(),
                |i: int| scale_cell(c.cells[i], seq_min(vals), seq_max(vals)),
            ),
        }
    }
}

/// A store after normalization.
pub open spec fn normalize_model(m: StoreModel) -> StoreModel {
    StoreModel { rows: m.rows, cols: m.cols.map_values(|c: ColModel| normalize_col_model(c)) }
}

/// Normalizes a store: min-max scaling of every column into the fixed-point
/// range `[0, UNIT]` (the real range [0, 1]).  A degenerate column, whose
/// minimum equals its maximum, maps to the constant 0; this is the fixed
/// policy for avoiding a division by zero.  Null cells stay null.  On a
/// well-formed store this stage is total.
pub fn normalize_data(store: &TabularStore) -> (r: Result<TabularStore, TransformError>)
    requires
        store.wf(),
    ensures
        r matches Ok(t) && t@ == normalize_model(store@) && t.wf() && t@.rows == store@.rows,
{
    let ghost m = store@;
    let mut cols: Vec<Column> = Vec::new();
    let mut j: usize = 0;
    while j < store.cols.len()
        invariant
            store.wf(),
            m == store@,
            0 <= j <= m.cols.len(),
            m.cols.len() == store.cols@.len(),
            cols@.len() == j,
            forall|k: int| 0 <= k < j
                ==> (#[trigger] cols@[k])@ == normalize_col_model(m.cols[k]),
        decreases m.cols.len() - j,
    {
        let c = &store.cols[j];
        proof {
            assert(m.cols[j as int] == c@);
            assert(col_ok(c@, m.rows));
            lemma_present_vals(c.cells@);
        }
        let vals = collect_present(&c.cells);
        let newcol: Column;
        if vals.len() == 0 {
            newcol = Column { name: c.name.clone(), nonneg: c.nonneg, cells: c.cells.clone() };
            proof {
                assert(newcol@.cells =~= c@.cells);
                assert(newcol@ == normalize_col_model(m.cols[j as int]));
            }
        } else {
            let (lo, hi) = min_max_of(&vals);
            proof {
                lemma_min_max(vals@);
                let kl = choose|i: int| 0 <= i < vals@.len() && vals@[i] == seq_min(vals@);
                let il = choose|i: int|
                    0 <= i < c.cells@.len() && c.cells@[i] == Some(vals@[kl]);
                assert(cell_ok(c@.cells[il]));
                let kh = choose|i: int| 0 <= i < vals@.len() && vals@[i] == seq_max(vals@);
                let ih = choose|i: int|
                    0 <= i < c.cells@.len() && c.cells@[i] == Some(vals@[kh]);
                assert(cell_ok(c@.cells[ih]));
                assert(-VAL_LIMIT <= lo && hi <= VAL_LIMIT);
            }
            let mut cells: Vec<Option<i64>> = Vec::new();
            let mut i: usize = 0;
            while i < c.cells.len()
                invariant
                    0 <= i <= c.cells@.len(),
                    cells@.len() == i,
                    col_ok(c@, m.rows),
                    vals@ == present_vals(c@.cells),
                    vals@.len() > 0,
                    lo == seq_min(vals@),
                    hi == seq_max(vals@),
                    -VAL_LIMIT <= lo <= hi <= VAL_LIMIT,
                    forall|q: int| 0 <= q < vals@.len()
                        ==> lo <= #[trigger] vals@[q] <= hi,
                    forall|q: int| 0 <= q < c.cells@.len()
                        ==> ((#[trigger] c.cells@[q]) matches Some(v)
                            ==> present_vals(c@.cells).contains(v)),
                    forall|k: int| 0 <= k < i ==> cells@[k] == scale_cell(c@.cells[k], lo, hi),
                decreases c.cells@.len() - i,
            {
                match c.cells[i] {
                    Some(v) => {
                        proof {
                            assert(present_vals(c@.cells).contains(v));
                            let q = choose|q: int|
                                0 <= q < vals@.len() && vals@[q] == v;
                            assert(lo <= v <= hi);
                        }
                        let s = scale_value(v, lo, hi);
                        cells.push(Some(s));
                    },
                    None => cells.push(None),
                }
                i = i + 1;
            }
            newcol = Column { name: c.name.clone(), nonneg: c.nonneg, cells };
            proof {
                assert(newcol@.cells =~= normalize_col_model(c@).cells);
                assert(newcol@ == normalize_col_model(m.cols[j as int]));
            }
        }
        cols.push(newcol);
        j = j + 1;
    }
    let t = TabularStore { rows: store.rows, cols };
    proof {
        assert(t@.cols =~= normalize_model(m).cols);
        assert(t@ == normalize_model(m));
        assert forall|k: int| 0 <= k < t@.cols.len() implies col_ok(
            #[trigger] t@.cols[k],
            t@.rows,
        ) by {
            let c = m.cols[k];
            assert(col_ok(c, m.rows));
            assert(t@.cols[k] == normalize_col_model(c));
            let vals = present_vals(c.cells);
            if vals.len() > 0 {
                lemma_min_max(vals);
                assert forall|i: int| 0 <= i < t@.cols[k].cells.len() implies cell_ok(
                    #[trigger] t@.cols[k].cells[i],
                ) by {
                    assert(t@.cols[k].cells[i] == scale_cell(c.cells[i], seq_min(vals), seq_max(
                        vals,
                    )));
                    match c.cells[i] {
                        Some(v) => {
                            lemma_present_vals(c.cells);
                            assert(vals.contains(v));
                            let q = choose|q: int| 0 <= q < vals.len() && vals[q] == v;
                            lemma_scale_bounds(
                                v as int,
                                seq_min(vals) as int,
                                seq_max(vals) as int,
                            );
                        },
                        None => {},
                    }
                }
            }
        }
        assert(store_ok(t@));
    }
    Ok(t)
}

/// A cell violating the non-negativity constraint: a present negative value.
pub open spec fn cell_violates(c: Option<i64>) -> bool {
    c matches Some(v) && v < 0
}

/// Row `i` is valid when no constrained column holds a negative value in it.
pub open spec fn row_ok(m: StoreModel, i: int) -> bool {
    forall|j: int| 0 <= j < m.cols.len()
        ==> !((#[trigger] m.cols[j]).nonneg && cell_violates(m.cols[j].cells[i]))
}

/// Which rows the validate stage keeps.
pub open spec fn keep_mask(m: StoreModel) -> Seq<bool> {
    Seq::new(m.rows, |i: int| row_ok(m, i))
}

/// Number of kept rows.
pub open spec fn count_true(keep: Seq<bool>) -> nat
    decreases keep.len(),
{
    if keep.len() == 0 {
        0
    } else {
        count_true(keep.drop_last()) + if keep.last() {
            1nat
        } else {
            0nat
        }
    }
}

/// A column's cells restricted to the kept rows, in order.
pub open spec fn filter_rows_col(cells: Seq<Option<i64>>, keep: Seq<bool>) -> Seq<Option<i64>>
    decreases keep.len(),
{
    if keep.len() == 0 {
        Seq::empty()
    } else {
        let prev = filter_rows_col(cells.drop_last(), keep.drop_last());
        if keep.last() {
            prev.push(cells.last())
        } else {
            prev
        }
    }
}

/// `x` is the cell of some kept row.
pub open spec fn kept_cell(cells: Seq<Option<i64>>, keep: Seq<bool>, x: Option<i64>) -> bool {
    exists|i: int| 0 <= i < keep.len() && keep[i] && cells[i] == x
}

/// Filtering keeps exactly the marked cells: the result has one entry per
/// kept row, and each entry is the cell of some kept row.
pub proof fn lemma_filter_rows_col(cells: Seq<Option<i64>>, keep: Seq<bool>)
    requires
        cells.len() == keep.len(),
    ensures
        filter_rows_col(cells, keep).len() == count_true(keep),
        count_true(keep) <= keep.len(),
        forall|k: int| 0 <= k < filter_rows_col(cells, keep).len()
            ==> kept_cell(cells, keep, #[trigger] filter_rows_col(cells, keep)[k]),
    decreases keep.len(),
{
    if keep.len() > 0 {
        let cp = cells.drop_last();
        let kp = keep.drop_last();
        lemma_filter_rows_col(cp, kp);
        let f = filter_rows_col(cells, keep);
        let fp = filter_rows_col(cp, kp);
        assert forall|k: int| 0 <= k < f.len() implies kept_cell(cells, keep, #[trigger] f[k]) by {
            if k < fp.len() {
                assert(kept_cell(cp, kp, fp[k]));
                let i = choose|i: int| 0 <= i < kp.len() && kp[i] && cp[i] == fp[k];
                assert(f[k] == fp[k]);
                assert(0 <= i < keep.len() && keep[i] && cells[i] == f[k]);
            } else {
                assert(keep.last() && f[k] == cells.last());
                let w = keep.len() - 1;
                assert(0 <= w < keep.len() && keep[w] && cells[w] == f[k]);
            }
        }
    }
}

/// No more rows are kept than exist.
pub proof fn lemma_count_true_le(keep: Seq<bool>)
    ensures
        count_true(keep) <= keep.len(),
    decreases keep.len(),
{
    if keep.len() > 0 {
        lemma_count_true_le(keep.drop_last());
    }
}

/// A column after validation.
pub open spec fn validate_col_model(c: ColModel, keep: Seq<bool>) -> ColModel {
    ColModel { name: c.name, nonneg: c.nonneg, cells: filter_rows_col(c.cells, keep) }
}

/// A store after validation: the rows that violate a non-negativity
/// constraint are removed from every column.
pub open spec fn validate_model(m: StoreModel) -> StoreModel {
    StoreModel {
        rows: count_true(keep_mask(m)),
        cols: m.cols.map_values(|c: ColModel| validate_col_model(c, keep_mask(m))),
    }
}

/// Validates a store: removes (does not fail on) every row holding a
/// negative value in a column constrained to be non-negative.  On a
/// well-formed store this stage is total; it never adds rows.
pub fn validate_data(store: &TabularStore) -> (r: Result<TabularStore, TransformError>)
    requires
        store.wf(),
    ensures
        r matches Ok(t) && t@ == validate_model(store@) && t.wf()
            && t@.rows <= store@.rows,
{
    let ghost m = store@;
    let mut mask: Vec<bool> = Vec::new();
    let mut kept: usize = 0;
    let mut i: usize = 0;
    while i < store.rows
        invariant
            store.wf(),
            m == store@,
            0 <= i <= m.rows,
            store.rows == m.rows,
            m.cols.len() == store.cols@.len(),
            mask@.len() == i,
            forall|k: int| 0 <= k < i ==> mask@[k] == row_ok(m, k),
            kept as nat == count_true(mask@),
            kept <= i,
        decreases m.rows - i,
    {
        let mut ok = true;
        let mut j: usize = 0;
        while j < store.cols.len()
            invariant
                store.wf(),
                m == store@,
                i < m.rows,
                0 <= j <= m.cols.len(),
                m.cols.len() == store.cols@.len(),
                ok ==> forall|q: int| 0 <= q < j
                    ==> !((#[trigger] m.cols[q]).nonneg && cell_violates(m.cols[q].cells[i as int])),
                !ok ==> !row_ok(m, i as int),
            decreases m.cols.len() - j,
        {
            proof {
                assert(col_ok(m.cols[j as int], m.rows));
            }
            if store.cols[j].nonneg {
                match store.cols[j].cells[i] {
                    Some(v) => {
                        if v < 0 {
                            proof {
                                assert(m.cols[j as int].nonneg && cell_violates(
                                    m.cols[j as int].cells[i as int],
                                ));
                            }
                            ok = false;
                        }
                    },
                    None => {},
                }
            }
            j = j + 1;
        }
        proof {
            assert(ok == row_ok(m, i as int));
            assert(mask@.push(ok).drop_last() =~= mask@);
        }
        mask.push(ok);
        if ok {
            kept = kept + 1;
        }
        i = i + 1;
    }
    proof {
        assert(mask@ =~= keep_mask(m));
    }
    let mut cols: Vec<Column> = Vec::new();
    let mut j: usize = 0;
    while j < store.cols.len()
        invariant
            store.wf(),
            m == store@,
            0 <= j <= m.cols.len(),
            m.cols.len() == store.cols@.len(),
            mask@ == keep_mask(m),
            mask@.len() == m.rows,
            kept as nat == count_true(mask@),
            cols@.len() == j,
            forall|k: int| 0 <= k < j
                ==> (#[trigger] cols@[k])@ == validate_col_model(m.cols[k], keep_mask(m)),
        decreases m.cols.len() - j,
    {
        let c = &store.cols[j];
        proof {
            assert(m.cols[j as int] == c@);
            assert(col_ok(c@, m.rows));
        }
        let mut cells: Vec<Option<i64>> = Vec::new();
        let mut i2: usize = 0;
        while i2 < c.cells.len()
            invariant
                0 <= i2 <= c.cells@.len(),
                col_ok(c@, m.rows),
                c.cells@.len() == m.rows,
                mask@.len() == m.rows,
                cells@ == filter_rows_col(c@.cells.take(i2 as int), mask@.take(i2 as int)),
            decreases c.cells@.len() - i2,
        {
            proof {
                assert(c@.cells.take(i2 + 1).drop_last() =~= c@.cells.take(i2 as int));
                assert(mask@.take(i2 + 1).drop_last() =~= mask@.take(i2 as int));
                assert(c@.cells.take(i2 + 1).last() == c@.cells[i2 as int]);
                assert(mask@.take(i2 + 1).last() == mask@[i2 as int]);
            }
            if mask[i2] {
                cells.push(c.cells[i2]);
            }
            i2 = i2 + 1;
        }
        proof {
            assert(c@.cells.take(m.rows as int) =~= c@.cells);
            assert(mask@.take(m.rows as int) =~= mask@);
        }
        let newcol = Column { name: c.name.clone(), nonneg: c.nonneg, cells };
        proof {
            assert(newcol@.cells =~= validate_col_model(c@, keep_mask(m)).cells);
            assert(newcol@ == validate_col_model(m.cols[j as int], keep_mask(m)));
        }
        cols.push(newcol);
        j = j + 1;
    }
    let t = TabularStore { rows: kept, cols };
    proof {
        assert(t@.cols =~= validate_model(m).cols);
        assert(t@ == validate_model(m));
        assert forall|k: int| 0 <= k < t@.cols.len() implies col_ok(
            #[trigger] t@.cols[k],
            t@.rows,
        ) by {
            let c = m.cols[k];
            assert(col_ok(c, m.rows));
            assert(t@.cols[k] == validate_col_model(c, keep_mask(m)));
            lemma_filter_rows_col(c.cells, keep_mask(m));
            assert forall|q: int| 0 <= q < t@.cols[k].cells.len() implies cell_ok(
                #[trigger] t@.cols[k].cells[q],
            ) by {
                assert(kept_cell(c.cells, keep_mask(m), filter_rows_col(c.cells, keep_mask(m))[q]));
                let i3 = choose|i3: int|
                    0 <= i3 < keep_mask(m).len() && keep_mask(m)[i3] && c.cells[i3]
                        == filter_rows_col(c.cells, keep_mask(m))[q];
                assert(cell_ok(c.cells[i3]));
            }
        }
        assert(store_ok(t@));
        lemma_count_true_le(keep_mask(m));
    }
    Ok(t)
}

/// Transforms a store by applying, strictly in order, `clean_data`,
/// `normalize_data` and `validate_data`, propagating the first failure.
pub fn transform_data(store: &TabularStore) -> (r: Result<TabularStore, TransformError>)
    requires
        store.wf(),
    ensures
        match r {
            Ok(t) => clean_result(store@) matches Ok(c) && t@ == validate_model(
                normalize_model(c),
            ) && t.wf(),
            Err(e) => clean_result(store@) == Err::<StoreModel, TransformError>(e),
        },
{
    let cleaned = match clean_data(store) {
        Ok(t) => t,
        Err(e) => {
            return Err(e);
        },
    };
    let normalized = match normalize_data(&cleaned) {
        Ok(t) => t,
        Err(e) => {
            return Err(e);
        },
    };
    let validated = match validate_data(&normalized) {
        Ok(t) => t,
        Err(e) => {
            return Err(e);
        },
    };
    Ok(validated)
}

/// The median of the column named `column`, over its non-null values.
/// Fails with `ColumnMissing` when no column has that name and with
/// `MedianUndefined` when the column has no non-null value.
pub fn median_value(store: &TabularStore, column: &[u8]) -> (r: Result<i64, TransformError>)
    requires
        store.wf(),
    ensures
        match r {
            Ok(v) => exists|j: int|
                0 <= j < store@.cols.len() && (#[trigger] store@.cols[j]).name == column@
                    && !col_all_null(store@.cols[j]) && v as int == col_median(store@.cols[j]),
            Err(e) => match e {
                TransformError::ColumnMissing => forall|j: int|
                    0 <= j < store@.cols.len() ==> (#[trigger] store@.cols[j]).name != column@,
                TransformError::MedianUndefined { col } => col < store@.cols.len()
                    && store@.cols[col as int].name == column@ && col_all_null(
                    store@.cols[col as int],
                ),
            },
        },
{
    let j = match store.find_column(column) {
        Some(j) => j,
        None => {
            return Err(TransformError::ColumnMissing);
        },
    };
    let c = &store.cols[j];
    proof {
        assert(store@.cols[j as int] == c@);
        assert(col_ok(c@, store@.rows));
        lemma_present_vals(c.cells@);
    }
    let vals = collect_present(&c.cells);
    if vals.len() == 0 {
        return Err(TransformError::MedianUndefined { col: j });
    }
    proof {
        assert forall|k: int| 0 <= k < vals@.len() implies -VAL_LIMIT <= #[trigger] vals@[k]
            <= VAL_LIMIT by {
            let i = choose|i: int| 0 <= i < c.cells@.len() && c.cells@[i] == Some(vals@[k]);
            assert(cell_ok(c@.cells[i]));
        }
    }
    Ok(median_of(&vals))
}

/// A column with no null cell.
pub open spec fn col_null_free(c: ColModel) -> bool {
    forall|i: int| 0 <= i < c.cells.len() ==> (#[trigger] c.cells[i]) is Some
}

/// A store with no null cell.
pub open spec fn null_free(m: StoreModel) -> bool {
    forall|j: int| 0 <= j < m.cols.len() ==> col_null_free(#[trigger] m.cols[j])
}

/// Every column has exactly the shared row count of cells.
pub open spec fn shape_ok(m: StoreModel) -> bool {
    forall|j: int| 0 <= j < m.cols.len() ==> (#[trigger] m.cols[j]).cells.len() == m.rows
}

/// Law: cleaning an already-null-free store returns it unchanged.  The one
/// excluded input is a store with zero rows (and at least one column),
/// where the median of a column is undefined and `clean_data` fails
/// instead.
pub proof fn lemma_clean_null_free_identity(m: StoreModel)
    requires
        shape_ok(m),
        m.rows > 0,
        null_free(m),
    ensures
        clean_result(m) == Ok::<StoreModel, TransformError>(m),
{
    assert forall|j: int| 0 <= j < m.cols.len() implies !col_all_null(#[trigger] m.cols[j]) by {
        let c = m.cols[j];
        lemma_present_vals(c.cells);
        assert(c.cells[0] is Some);
        assert(present_vals(c.cells).contains(c.cells[0]->0));
    }
    lemma_first_all_null(m.cols);
    assert(first_all_null(m.cols) is None) by {
        if first_all_null(m.cols) is Some {
            let b = first_all_null(m.cols)->0;
            assert(!col_all_null(m.cols[b]));
        }
    }
    assert forall|j: int| 0 <= j < m.cols.len() implies #[trigger] clean_model(m).cols[j]
        == m.cols[j] by {
        let c = m.cols[j];
        assert(clean_model(m).cols[j] == clean_col_model(c));
        assert forall|i: int| 0 <= i < c.cells.len() implies #[trigger] clean_col_model(
            c,
        ).cells[i] == c.cells[i] by {
            assert(c.cells[i] is Some);
        }
        assert(clean_col_model(c).cells =~= c.cells);
    }
    assert(clean_model(m).cols =~= m.cols);
}

/// Law: cleaning is idempotent.  When `clean_data` succeeds, cleaning its
/// output again succeeds and returns that output unchanged.
pub proof fn lemma_clean_idempotent(m: StoreModel)
    requires
        shape_ok(m),
    ensures
        clean_result(m) matches Ok(c) ==> clean_result(c) == Ok::<
            StoreModel,
            TransformError,
        >(c),
{
    lemma_first_all_null(m.cols);
    if first_all_null(m.cols) is None {
        let c = clean_model(m);
        assert(clean_result(m) == Ok::<StoreModel, TransformError>(c));
        assert(shape_ok(c)) by {
            assert forall|j: int| 0 <= j < c.cols.len() implies (#[trigger] c.cols[j]).cells.len()
                == c.rows by {
                assert(c.cols[j] == clean_col_model(m.cols[j]));
            }
        }
        if m.cols.len() == 0 {
            assert(c.cols =~= m.cols);
            lemma_first_all_null(c.cols);
            assert(clean_model(c).cols =~= c.cols);
        } else {
            assert(!col_all_null(m.cols[0]));
            lemma_present_vals(m.cols[0].cells);
            assert(present_vals(m.cols[0].cells).len() > 0);
            assert(m.cols[0].cells.len() > 0);
            assert(m.rows > 0);
            assert(null_free(c)) by {
                assert forall|j: int| 0 <= j < c.cols.len() implies col_null_free(
                    #[trigger] c.cols[j],
                ) by {
                    assert(c.cols[j] == clean_col_model(m.cols[j]));
                }
            }
            lemma_clean_null_free_identity(c);
        }
    }
}

/// Law: normalization maps every present value of a column into
/// `[0, UNIT]`; the cell holding the column minimum maps to exactly 0, and
/// in a non-degenerate column (minimum < maximum) the cell holding the
/// maximum maps to exactly `UNIT`.
pub proof fn lemma_normalize_col(c: ColModel)
    ensures
        forall|i: int| 0 <= i < c.cells.len() && (#[trigger] c.cells[i]) is Some
            ==> normalize_col_model(c).cells[i] is Some && 0 <= normalize_col_model(
                c,
            ).cells[i]->0 <= UNIT,
        forall|i: int| 0 <= i < c.cells.len() && #[trigger] c.cells[i] == Some(
            seq_min(present_vals(c.cells)),
        ) ==> normalize_col_model(c).cells[i] == Some(0i64),
        seq_min(present_vals(c.cells)) < seq_max(present_vals(c.cells)) ==> forall|i: int|
            0 <= i < c.cells.len() && #[trigger] c.cells[i] == Some(
                seq_max(present_vals(c.cells)),
            ) ==> normalize_col_model(c).cells[i] == Some(UNIT),
{
    let vals = present_vals(c.cells);
    lemma_present_vals(c.cells);
    if vals.len() > 0 {
        lemma_min_max(vals);
        let lo = seq_min(vals);
        let hi = seq_max(vals);
        assert forall|i: int|
            0 <= i < c.cells.len() && (#[trigger] c.cells[i]) is Some implies normalize_col_model(
            c,
        ).cells[i] is Some && 0 <= normalize_col_model(c).cells[i]->0 <= UNIT by {
            let v = c.cells[i]->0;
            assert(vals.contains(v));
            let q = choose|q: int| 0 <= q < vals.len() && vals[q] == v;
            lemma_scale_bounds(v as int, lo as int, hi as int);
            assert(normalize_col_model(c).cells[i] == scale_cell(c.cells[i], lo, hi));
        }
        assert forall|i: int|
            0 <= i < c.cells.len() && #[trigger] c.cells[i] == Some(lo) implies
            normalize_col_model(c).cells[i] == Some(0i64) by {
            lemma_scale_bounds(lo as int, lo as int, hi as int);
            assert(normalize_col_model(c).cells[i] == scale_cell(c.cells[i], lo, hi));
        }
        if lo < hi {
            assert forall|i: int|
                0 <= i < c.cells.len() && #[trigger] c.cells[i] == Some(hi) implies
                normalize_col_model(c).cells[i] == Some(UNIT) by {
                lemma_scale_bounds(hi as int, lo as int, hi as int);
                assert(normalize_col_model(c).cells[i] == scale_cell(c.cells[i], lo, hi));
            }
        }
    }
}

/// Law: validation never increases the row count, and in its output no
/// column constrained to be non-negative holds a negative value.
pub proof fn lemma_validate(m: StoreModel)
    requires
        shape_ok(m),
    ensures
        validate_model(m).rows <= m.rows,
        forall|j: int, i: int|
            0 <= j < m.cols.len() && 0 <= i < validate_model(m).cols[j].cells.len()
                && m.cols[j].nonneg ==> !cell_violates(
                #[trigger] validate_model(m).cols[j].cells[i],
            ),
{
    let keep = keep_mask(m);
    lemma_count_true_le(keep);
    assert forall|j: int, i: int|
        0 <= j < m.cols.len() && 0 <= i < validate_model(m).cols[j].cells.len()
            && m.cols[j].nonneg implies !cell_violates(
        #[trigger] validate_model(m).cols[j].cells[i],
    ) by {
        let c = m.cols[j];
        assert(validate_model(m).cols[j] == validate_col_model(c, keep));
        lemma_filter_rows_col(c.cells, keep);
        assert(kept_cell(c.cells, keep, filter_rows_col(c.cells, keep)[i]));
        let w = choose|w: int|
            0 <= w < keep.len() && keep[w] && c.cells[w] == filter_rows_col(c.cells, keep)[i];
        assert(row_ok(m, w));
        assert(!(m.cols[j].nonneg && cell_violates(m.cols[j].cells[w])));
    }
}

/// Law: the composed pipeline (clean, then normalize, then validate), when
/// cleaning succeeds, yields a store with no null cell, every value in
/// `[0, UNIT]`, and so no negative value, with at most the input row
/// count.
pub proof fn lemma_transform_composed(m: StoreModel)
    requires
        shape_ok(m),
        first_all_null(m.cols) is None,
    ensures
        clean_result(m) == Ok::<StoreModel, TransformError>(clean_model(m)),
        null_free(validate_model(normalize_model(clean_model(m)))),
        forall|j: int, i: int|
            0 <= j < validate_model(normalize_model(clean_model(m))).cols.len() && 0 <= i
                < validate_model(normalize_model(clean_model(m))).cols[j].cells.len()
                ==> ((#[trigger] validate_model(normalize_model(clean_model(m))).cols[j].cells[i])
                matches Some(w) && 0 <= w <= UNIT),
        validate_model(normalize_model(clean_model(m))).rows <= m.rows,
{
    lemma_first_all_null(m.cols);
    let c = clean_model(m);
    let n = normalize_model(c);
    let t = validate_model(n);
    assert(c.rows == m.rows && n.rows == c.rows);
    assert forall|j: int| 0 <= j < n.cols.len() implies (#[trigger] n.cols[j]).cells.len()
        == n.rows && forall|i: int|
        0 <= i < n.cols[j].cells.len() ==> (#[trigger] n.cols[j].cells[i]) is Some && 0
            <= n.cols[j].cells[i]->0 <= UNIT by {
        let cc = c.cols[j];
        assert(cc == clean_col_model(m.cols[j]));
        assert(n.cols[j] == normalize_col_model(cc));
        assert(col_null_free(cc));
        lemma_normalize_col(cc);
        if cc.cells.len() > 0 {
            lemma_present_vals(cc.cells);
            assert(cc.cells[0] is Some);
            assert(present_vals(cc.cells).contains(cc.cells[0]->0));
            assert(present_vals(cc.cells).len() > 0);
        } else {
            assert(normalize_col_model(cc).cells.len() == 0);
        }
    }
    let keep = keep_mask(n);
    lemma_count_true_le(keep);
    assert forall|j: int, i: int|
        0 <= j < t.cols.len() && 0 <= i < t.cols[j].cells.len() implies (
    #[trigger] t.cols[j].cells[i]) matches Some(w) && 0 <= w <= UNIT by {
        let nc = n.cols[j];
        assert(t.cols[j] == validate_col_model(nc, keep));
        lemma_filter_rows_col(nc.cells, keep);
        assert(kept_cell(nc.cells, keep, filter_rows_col(nc.cells, keep)[i]));
        let w = choose|w: int|
            0 <= w < keep.len() && keep[w] && nc.cells[w] == filter_rows_col(nc.cells, keep)[i];
        assert(nc.cells[w] is Some && 0 <= nc.cells[w]->0 <= UNIT);
    }
    assert forall|j: int| 0 <= j < t.cols.len() implies col_null_free(#[trigger] t.cols[j]) by {
        assert forall|i: int| 0 <= i < t.cols[j].cells.len() implies (
        #[trigger] t.cols[j].cells[i]) is Some by {
            assert(t.cols[j].cells[i] matches Some(w) && 0 <= w <= UNIT);
        }
    }
}

} // verus!
