//! The tabular store: a column-oriented, immutable-per-version in-memory
//! table with named columns that all share one row count.
//!
//! Every cell is either null (`None`) or an exact fixed-point number: an
//! `i64` counting millionths of a unit ([`UNIT`]).  Cell magnitudes are
//! bounded by [`VAL_LIMIT`] so that the scaling arithmetic of the transform
//! stages never overflows.

use vstd::prelude::*;

verus! {

/// Fixed-point scale: the `i64` representation of the real value 1.0.
pub const UNIT: i64 = 1_000_000;

/// Largest cell magnitude a well-formed store admits.  It keeps
/// `(v - min) * UNIT` inside `i64` during normalization.
pub const VAL_LIMIT: i64 = 1_000_000_000_000;

/// One named column of fixed-point cells.  `nonneg` records whether the
/// column is semantically constrained to non-negative values, which is what
/// the validate stage enforces.
#[derive(Debug)]
pub struct Column {
    pub name: Vec<u8>,
    pub nonneg: bool,
    pub cells: Vec<Option<i64>>,
}

/// Mathematical model of a column.
#[verifier::ext_equal]
pub ghost struct ColModel {
    pub name: Seq<u8>,
    pub nonneg: bool,
    pub cells: Seq<Option<i64>>,
}

/// Mathematical model of a store: a row count and a sequence of columns.
#[verifier::ext_equal]
pub ghost struct StoreModel {
    pub rows: nat,
    pub cols: Seq<ColModel>,
}

impl View for Column {
    type V = ColModel;

    open spec fn view(&self) -> ColModel {
        ColModel { name: self.name@, nonneg: self.nonneg, cells: self.cells@ }
    }
}

/// A cell is in range when it is null or bounded by [`VAL_LIMIT`].
pub open spec fn cell_ok(c: Option<i64>) -> bool {
    c matches Some(v) ==> -VAL_LIMIT <= v <= VAL_LIMIT
}

/// A column is well formed for a given row count when its length matches and
/// every cell is in range.
pub open spec fn col_ok(c: ColModel, rows: nat) -> bool {
    &&& c.cells.len() == rows
    &&& forall|i: int| 0 <= i < c.cells.len() ==> cell_ok(#[trigger] c.cells[i])
}

/// A store is well formed when every column is well formed for the shared
/// row count and column names are unique.
pub open spec fn store_ok(m: StoreModel) -> bool {
    &&& forall|j: int| 0 <= j < m.cols.len() ==> col_ok(#[trigger] m.cols[j], m.rows)
    &&& forall|j1: int, j2: int|
        0 <= j1 < j2 < m.cols.len() ==> m.cols[j1].name != m.cols[j2].name
}

/// The column-oriented table every pipeline stage consumes and produces.
#[derive(Debug)]
pub struct TabularStore {
    pub rows: usize,
    pub cols: Vec<Column>,
}

/// The models of a sequence of columns.
pub open spec fn cols_model(cols: Seq<Column>) -> Seq<ColModel> {
    cols.map_values(|c: Column| c@)
}

impl View for TabularStore {
    type V = StoreModel;

    open spec fn view(&self) -> StoreModel {
        StoreModel { rows: self.rows as nat, cols: cols_model(self.cols@) }
    }
}

/// Exact byte-sequence equality of two slices.
pub fn bytes_eq(a: &[u8], b: &[u8]) -> (r: bool)
    ensures
        r == (a@ == b@),
{
    if a.len() != b.len() {
        assert(a@.len() != b@.len());
        return false;
    }
    let mut i: usize = 0;
    while i < a.len()
        invariant
            0 <= i <= a@.len(),
            a@.len() == b@.len(),
            forall|k: int| 0 <= k < i ==> a@[k] == b@[k],
        decreases a@.len() - i,
    {
        if a[i] != b[i] {
            return false;
        }
        i = i + 1;
    }
    assert(a@ =~= b@);
    true
}

impl TabularStore {
    /// The store's well-formedness invariant, established by every
    /// constructor and preserved by every stage.
    pub open spec fn wf(&self) -> bool {
        store_ok(self@)
    }

    /// Cell of row `i`, column `j`, in the model.
    pub open spec fn spec_cell(&self, i: int, j: int) -> Option<i64> {
        self@.cols[j].cells[i]
    }

    /// Row count.
    pub fn height(&self) -> (r: usize)
        ensures
            r == self@.rows,
    {
        self.rows
    }

    /// Column count.
    pub fn width(&self) -> (r: usize)
        ensures
            r == self@.cols.len(),
    {
        self.cols.len()
    }

    /// Shape as `(rows, columns)`.
    pub fn shape(&self) -> (r: (usize, usize))
        ensures
            r.0 == self@.rows,
            r.1 == self@.cols.len(),
    {
        (self.rows, self.cols.len())
    }

    /// The cell at row `i` of column `j`.
    pub fn get(&self, i: usize, j: usize) -> (r: Option<i64>)
        requires
            self.wf(),
            i < self@.rows,
            j < self@.cols.len(),
        ensures
            r == self.spec_cell(i as int, j as int),
    {
        self.cols[j].cells[i]
    }

    /// The name of column `j`.
    pub fn name_of(&self, j: usize) -> (r: &Vec<u8>)
        requires
            j < self@.cols.len(),
        ensures
            r@ == self@.cols[j as int].name,
    {
        &self.cols[j].name
    }

    /// Whether column `j` carries the non-negativity constraint.
    pub fn is_nonneg(&self, j: usize) -> (r: bool)
        requires
            j < self@.cols.len(),
        ensures
            r == self@.cols[j as int].nonneg,
    {
        self.cols[j].nonneg
    }

    /// Index of the column named `name`, if present.
    pub fn find_column(&self, name: &[u8]) -> (r: Option<usize>)
        ensures
            match r {
                Some(j) => j < self@.cols.len() && self@.cols[j as int].name == name@,
                None => forall|j: int| 0 <= j < self@.cols.len()
                    ==> (#[trigger] self@.cols[j].name) != name@,
            },
    {
        let mut j: usize = 0;
        while j < self.cols.len()
            invariant
                0 <= j <= self.cols@.len(),
                self@.cols.len() == self.cols@.len(),
                forall|k: int| 0 <= k < j ==> (#[trigger] self@.cols[k].name) != name@,
            decreases self.cols@.len() - j,
        {
            if bytes_eq(self.cols[j].name.as_slice(), name) {
                return Some(j);
            }
            j = j + 1;
        }
        None
    }

    /// Builds a store from columns, checking the invariant: all columns of
    /// length `rows`, all cells in range, names unique.  Returns `None`
    /// exactly when one of those checks fails.
    pub fn from_columns(rows: usize, cols: Vec<Column>) -> (r: Option<TabularStore>)
        ensures
            r matches Some(t) ==> t.wf() && t@.rows == rows && t@.cols == cols_model(cols@),
            r is Some <==> store_ok(StoreModel { rows: rows as nat, cols: cols_model(cols@) }),
    {
        let ghost gm = StoreModel { rows: rows as nat, cols: cols_model(cols@) };
        proof {
            assert(forall|k: int| 0 <= k < cols@.len() ==> #[trigger] gm.cols[k] == cols@[k]@);
        }
        let mut j: usize = 0;
        while j < cols.len()
            invariant
                0 <= j <= cols@.len(),
                gm == (StoreModel { rows: rows as nat, cols: cols_model(cols@) }),
                gm.cols.len() == cols@.len(),
                forall|k: int| 0 <= k < cols@.len() ==> #[trigger] gm.cols[k] == cols@[k]@,
                forall|k: int| 0 <= k < j ==> col_ok((#[trigger] cols@[k])@, rows as nat),
            decreases cols@.len() - j,
        {
            if cols[j].cells.len() != rows {
                proof {
                    assert(gm.cols[j as int] == cols@[j as int]@);
                    assert(gm.cols[j as int].cells.len() != gm.rows);
                    assert(!col_ok(gm.cols[j as int], gm.rows));
                    assert(!store_ok(gm));
                }
                return None;
            }
            let mut i: usize = 0;
            while i < cols[j].cells.len()
                invariant
                    0 <= i <= cols@[j as int].cells@.len(),
                    j < cols@.len(),
                    gm == (StoreModel { rows: rows as nat, cols: cols_model(cols@) }),
                    gm.cols.len() == cols@.len(),
                    forall|k: int| 0 <= k < cols@.len() ==> #[trigger] gm.cols[k] == cols@[k]@,
                    cols@[j as int].cells@.len() == rows,
                    forall|k: int| 0 <= k < i
                        ==> cell_ok(#[trigger] cols@[j as int].cells@[k]),
                decreases cols@[j as int].cells@.len() - i,
            {
                match cols[j].cells[i] {
                    Some(v) => {
                        if v < -VAL_LIMIT || v > VAL_LIMIT {
                            proof {
                                assert(gm.cols[j as int] == cols@[j as int]@);
                                assert(gm.cols[j as int].cells[i as int] == Some(v));
                                assert(!cell_ok(gm.cols[j as int].cells[i as int]));
                                assert(!col_ok(gm.cols[j as int], gm.rows));
                                assert(!store_ok(gm));
                            }
                            return None;
                        }
                    },
                    None => {},
                }
                i = i + 1;
            }
            assert(col_ok(cols@[j as int]@, rows as nat));
            j = j + 1;
        }
        let mut j1: usize = 0;
        while j1 < cols.len()
            invariant
                0 <= j1 <= cols@.len(),
                gm == (StoreModel { rows: rows as nat, cols: cols_model(cols@) }),
                gm.cols.len() == cols@.len(),
                forall|k: int| 0 <= k < cols@.len() ==> #[trigger] gm.cols[k] == cols@[k]@,
                forall|a: int, b: int| 0 <= a < b < j1
                    ==> (#[trigger] cols@[a])@.name != (#[trigger] cols@[b])@.name,
                forall|k: int| 0 <= k < cols@.len() ==> col_ok((#[trigger] cols@[k])@, rows as nat),
            decreases cols@.len() - j1,
        {
            let mut j2: usize = 0;
            while j2 < j1
                invariant
                    0 <= j2 <= j1 < cols@.len(),
                    gm == (StoreModel { rows: rows as nat, cols: cols_model(cols@) }),
                    gm.cols.len() == cols@.len(),
                    forall|k: int| 0 <= k < cols@.len() ==> #[trigger] gm.cols[k] == cols@[k]@,
                    forall|a: int| 0 <= a < j2
                        ==> (#[trigger] cols@[a])@.name != cols@[j1 as int]@.name,
                decreases j1 - j2,
            {
                if bytes_eq(cols[j2].name.as_slice(), cols[j1].name.as_slice()) {
                    proof {
                        assert(gm.cols[j2 as int] == cols@[j2 as int]@);
                        assert(gm.cols[j1 as int] == cols@[j1 as int]@);
                        assert(gm.cols[j2 as int].name == gm.cols[j1 as int].name);
                        assert(!store_ok(gm));
                    }
                    return None;
                }
                j2 = j2 + 1;
            }
            j1 = j1 + 1;
        }
        let t = TabularStore { rows, cols };
        proof {
            assert(store_ok(gm));
            assert(t@.cols == cols_model(t.cols@));
            assert(forall|k: int| 0 <= k < t@.cols.len()
                ==> (#[trigger] t@.cols[k]) == t.cols@[k]@);
        }
        Some(t)
    }
}

} // verus!
