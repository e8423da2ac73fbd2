//! Row groups: fixed sets of row-aligned columns, the unit at which
//! predicates are evaluated, with per-group time statistics for pruning.

use vstd::prelude::*;

use crate::column::{
    spec_cmp, strs, val_of, value_cmp, Column, ColumnData, ColumnType, Operator, Val, Value,
};
use crate::error::Error;

verus! {

/// The distinguished column every table must carry: the row's timestamp
/// in integer nanoseconds.
pub const TIME_COLUMN_NAME: &'static str = "time";

/// A single filter condition: `column op value`. A predicate list is a
/// conjunction.
#[derive(Debug)]
pub struct Predicate {
    pub column: String,
    pub op: Operator,
    pub value: Value,
}

/// Whether a column named `name` exists in `cols`.
pub open spec fn has_col(cols: Seq<Column>, name: Seq<char>) -> bool {
    exists|j: int| 0 <= j < cols.len() && cols[j].name@ == name
}

/// The index of the column named `name` (meaningful only when it exists
/// and names are distinct).
pub open spec fn col_idx(cols: Seq<Column>, name: Seq<char>) -> int {
    choose|j: int| 0 <= j < cols.len() && cols[j].name@ == name
}

/// The value of column `name` at row `i`; an arbitrary placeholder when
/// the column is absent.
pub open spec fn val_at(cols: Seq<Column>, name: Seq<char>, i: int) -> Val {
    if has_col(cols, name) {
        cols[col_idx(cols, name)].data.spec_at(i)
    } else {
        Val::Bool(false)
    }
}

/// Whether predicate `p` holds of row `i`: some column carries `p`'s
/// name and its value at `i` compares true. With distinct column names
/// this speaks of the one column so named; a row never satisfies a
/// predicate naming an absent column.
pub open spec fn pred_holds(cols: Seq<Column>, p: Predicate, i: int) -> bool {
    exists|j: int|
        0 <= j < cols.len() && cols[j].name@ == p.column@ && spec_cmp(
            cols[j].data.spec_at(i),
            p.op,
            val_of(p.value),
        )
}

/// Whether row `i` satisfies every predicate of the conjunction.
pub open spec fn row_survives(cols: Seq<Column>, preds: Seq<Predicate>, i: int) -> bool {
    forall|p: int| 0 <= p < preds.len() ==> pred_holds(cols, #[trigger] preds[p], i)
}

/// A batch of rows sharing a schema. `time_min` and `time_max` are the
/// statistics pruning relies on: every row's timestamp lies within them,
/// and both are attained.
#[derive(Debug)]
pub struct RowGroup {
    pub columns: Vec<Column>,
    pub nrows: usize,
    pub time_min: i64,
    pub time_max: i64,
    pub stat_min: Vec<i64>,
    pub stat_max: Vec<i64>,
}

impl RowGroup {
    /// The index of the time column.
    pub open spec fn time_idx(&self) -> int {
        choose|j: int|
            0 <= j < self.columns@.len() && self.columns@[j].name@ == "time"@
                && self.columns@[j].data is I64
    }

    /// The timestamp of row `i`.
    pub open spec fn time_at(&self, i: int) -> i64 {
        match self.columns@[self.time_idx()].data {
            ColumnData::I64(v) => v@[i],
            _ => 0,
        }
    }

    /// Well-formedness: at least one column and one row, all columns
    /// row-aligned, names distinct, a time column of integer type, and
    /// exact time statistics.
    pub open spec fn wf(&self) -> bool {
        &&& self.columns@.len() > 0
        &&& self.nrows > 0
        &&& forall|j: int|
            0 <= j < self.columns@.len() ==> (#[trigger] self.columns@[j].data.spec_len())
                == self.nrows
        &&& forall|j1: int, j2: int|
            0 <= j1 < j2 < self.columns@.len() ==> self.columns@[j1].name@
                != self.columns@[j2].name@
        &&& exists|j: int|
            0 <= j < self.columns@.len() && (#[trigger] self.columns@[j].name@) == "time"@
                && self.columns@[j].data is I64
        &&& forall|i: int| 0 <= i < self.nrows ==> self.time_min <= #[trigger] self.time_at(i)
        &&& forall|i: int| 0 <= i < self.nrows ==> #[trigger] self.time_at(i) <= self.time_max
        &&& exists|i: int| 0 <= i < self.nrows && #[trigger] self.time_at(i) == self.time_min
        &&& exists|i: int| 0 <= i < self.nrows && #[trigger] self.time_at(i) == self.time_max
        &&& self.stat_min@.len() == self.columns@.len()
        &&& self.stat_max@.len() == self.columns@.len()
        &&& forall|j: int, i: int|
            0 <= j < self.columns@.len() && self.columns@[j].data is I64 && 0 <= i < self.nrows
                ==> self.stat_min@[j] <= #[trigger] crate::column::i64_at(
                self.columns@[j].data,
                i,
            ) <= self.stat_max@[j]
    }

    /// Whether row `i` survives the query: it satisfies the caller's
    /// predicates and its timestamp lies in the half-open window
    /// `[from, to)`.
    pub open spec fn survives(&self, preds: Seq<Predicate>, from: i64, to: i64, i: int) -> bool {
        &&& row_survives(self.columns@, preds, i)
        &&& from <= self.time_at(i)
        &&& self.time_at(i) < to
    }
}

impl RowGroup {
    /// Whether this row group's time range intersects `[from, to)`.
    pub open spec fn spec_overlaps(&self, from: i64, to: i64) -> bool {
        self.time_min < to && self.time_max >= from
    }

    /// The row-group-level pruning test: consult the group's time
    /// statistics only.
    pub fn overlaps(&self, from: i64, to: i64) -> (r: bool)
        ensures
            r == self.spec_overlaps(from, to),
    {
        self.time_min < to && self.time_max >= from
    }

    /// Reads the timestamp of row `i`.
    pub fn time_of(&self, i: usize) -> (t: i64)
        requires
            self.wf(),
            i < self.nrows,
        ensures
            t == self.time_at(i as int),
    {
        let tname: String = "time".to_owned();
        match find_col(&self.columns, &tname) {
            Option::Some(j) => {
                proof {
                    lemma_unique_col(self.columns@, self.time_idx(), j as int);
                    assert(self.columns@[j as int].data.spec_len() == self.nrows);
                }
                match &self.columns[j].data {
                    ColumnData::I64(v) => v[i],
                    _ => {
                        proof {
                            assert(false);
                        }
                        0
                    },
                }
            },
            Option::None => {
                proof {
                    let jt = self.time_idx();
                    assert(self.columns@[jt].name@ == "time"@);
                    assert(false);
                }
                0
            },
        }
    }

    /// Reads the value of the column named `name` at row `i`.
    pub fn value_of(&self, name: &String, i: usize) -> (r: Value)
        requires
            self.wf(),
            has_col(self.columns@, name@),
            i < self.nrows,
        ensures
            val_of(r) == val_at(self.columns@, name@, i as int),
    {
        match find_col(&self.columns, name) {
            Option::Some(j) => {
                proof {
                    lemma_unique_col(self.columns@, col_idx(self.columns@, name@), j as int);
                }
                self.columns[j].data.value_at(i)
            },
            Option::None => {
                proof {
                    assert(false);
                }
                Value::Bool(false)
            },
        }
    }
}

/// Pruning soundness at row-group granularity: when the group's time
/// range misses `[from, to)`, no row of it survives any query over that
/// range, so the group may be skipped without a scan.
pub proof fn lemma_rg_pruned(rg: RowGroup, preds: Seq<Predicate>, from: i64, to: i64)
    requires
        rg.wf(),
        !rg.spec_overlaps(from, to),
    ensures
        forall|i: int| 0 <= i < rg.nrows ==> !rg.survives(preds, from, to, i),
{
    assert forall|i: int| 0 <= i < rg.nrows implies !rg.survives(preds, from, to, i) by {
        assert(rg.time_min <= rg.time_at(i));
        assert(rg.time_at(i) <= rg.time_max);
    }
}

/// Consults each predicate against the per-column statistics: a true
/// result means the whole row group may be skipped, because some
/// predicate is satisfied by none of its rows. A predicate naming an
/// absent column also matches no row.
pub(crate) fn stats_prune(rg: &RowGroup, preds: &Vec<Predicate>) -> (r: bool)
    requires
        rg.wf(),
    ensures
        r ==> forall|i: int| 0 <= i < rg.nrows ==> !row_survives(rg.columns@, preds@, i),
{
    let np = preds.len();
    let mut p: usize = 0;
    while p < np
        invariant
            rg.wf(),
            np == preds@.len(),
            p <= np,
        decreases np - p,
    {
        let pr = &preds[p];
        match find_col(&rg.columns, &pr.column) {
            Option::None => {
                proof {
                    assert forall|i: int| 0 <= i < rg.nrows implies !row_survives(
                        rg.columns@,
                        preds@,
                        i,
                    ) by {
                        assert(!pred_holds(rg.columns@, preds@[p as int], i));
                    }
                }
                return true;
            },
            Option::Some(j) => {
                let col_is_int = matches!(&rg.columns[j].data, ColumnData::I64(_));
                if col_is_int {
                    match &pr.value {
                        Value::I64(lit) => {
                            if !crate::column::can_match(
                                rg.stat_min[j],
                                rg.stat_max[j],
                                pr.op,
                                *lit,
                            ) {
                                proof {
                                    let cols = rg.columns@;
                                    let ji = j as int;
                                    assert forall|i: int| 0 <= i < rg.nrows implies !row_survives(
                                        cols,
                                        preds@,
                                        i,
                                    ) by {
                                        assert forall|j2: int|
                                            0 <= j2 < cols.len() && cols[j2].name@
                                                == pr.column@ implies j2 == ji by {
                                            lemma_unique_col(cols, j2, ji);
                                        }
                                        assert(rg.stat_min@[ji] <= crate::column::i64_at(
                                            cols[ji].data,
                                            i,
                                        ) <= rg.stat_max@[ji]);
                                        crate::column::lemma_can_match_sound(
                                            rg.stat_min@[ji],
                                            rg.stat_max@[ji],
                                            pr.op,
                                            *lit,
                                            crate::column::i64_at(cols[ji].data, i),
                                        );
                                        assert(cols[ji].data.spec_at(i) == Val::I64(
                                            crate::column::i64_at(cols[ji].data, i),
                                        ));
                                        assert(!pred_holds(cols, preds@[p as int], i));
                                    }
                                }
                                return true;
                            }
                        },
                        _ => {},
                    }
                }
            },
        }
        p += 1;
    }
    false
}

/// The combined row-group pruning test: the group's time range against
/// the query's, then each predicate against the per-column statistics.
/// A pruned group provably contributes no surviving row.
pub(crate) fn rg_prunable(
    rg: &RowGroup,
    all_preds: &Vec<Predicate>,
    from: i64,
    to: i64,
    Ghost(preds): Ghost<Seq<Predicate>>,
) -> (r: bool)
    requires
        rg.wf(),
        time_preds_appended(all_preds@, preds, from, to),
    ensures
        r ==> forall|i: int| 0 <= i < rg.nrows ==> !rg.survives(preds, from, to, i),
{
    if !rg.overlaps(from, to) {
        proof {
            lemma_rg_pruned(*rg, preds, from, to);
        }
        return true;
    }
    if stats_prune(rg, all_preds) {
        proof {
            assert forall|i: int| 0 <= i < rg.nrows implies !rg.survives(preds, from, to, i) by {
                lemma_time_preds(*rg, all_preds@, preds, from, to, i);
            }
        }
        return true;
    }
    false
}

/// In a schema with distinct names, two columns with one name are one
/// column.
pub proof fn lemma_unique_col(cols: Seq<Column>, j1: int, j2: int)
    requires
        forall|a: int, b: int| 0 <= a < b < cols.len() ==> cols[a].name@ != cols[b].name@,
        0 <= j1 < cols.len(),
        0 <= j2 < cols.len(),
        cols[j1].name@ == cols[j2].name@,
    ensures
        j1 == j2,
{
    if j1 < j2 {
        assert(cols[j1].name@ != cols[j2].name@);
    } else if j2 < j1 {
        assert(cols[j2].name@ != cols[j1].name@);
    }
}

/// Whether `p` is the canonical lower-bound time predicate `time >= from`.
pub open spec fn is_time_gte(p: Predicate, from: i64) -> bool {
    &&& p.column@ == "time"@
    &&& p.op == Operator::GTE
    &&& val_of(p.value) == Val::I64(from)
}

/// Whether `p` is the canonical upper-bound time predicate `time < to`.
pub open spec fn is_time_lt(p: Predicate, to: i64) -> bool {
    &&& p.column@ == "time"@
    &&& p.op == Operator::LT
    &&& val_of(p.value) == Val::I64(to)
}

/// Whether `all` is `user` with the two canonical time-range predicates
/// appended.
pub open spec fn time_preds_appended(
    all: Seq<Predicate>,
    user: Seq<Predicate>,
    from: i64,
    to: i64,
) -> bool {
    &&& all.len() == user.len() + 2
    &&& forall|p: int| 0 <= p < user.len() ==> all[p] == user[p]
    &&& is_time_gte(all[user.len() as int], from)
    &&& is_time_lt(all[user.len() as int + 1], to)
}

/// The half-open interval law: filtering by the two canonical time
/// predicates is the native range check. A row with `time == from` is
/// included; a row with `time == to` is excluded.
pub proof fn lemma_time_preds(
    rg: RowGroup,
    all: Seq<Predicate>,
    user: Seq<Predicate>,
    from: i64,
    to: i64,
    i: int,
)
    requires
        rg.wf(),
        time_preds_appended(all, user, from, to),
        0 <= i < rg.nrows,
    ensures
        row_survives(rg.columns@, all, i) <==> rg.survives(user, from, to, i),
{
    let cols = rg.columns@;
    let jt = rg.time_idx();
    assert(0 <= jt < cols.len() && cols[jt].name@ == "time"@ && cols[jt].data is I64);
    // Any column carrying the time name is the time column.
    assert forall|j: int| 0 <= j < cols.len() && cols[j].name@ == "time"@ implies j == jt by {
        if j != jt {
            if j < jt {
                assert(cols[j].name@ != cols[jt].name@);
            } else {
                assert(cols[jt].name@ != cols[j].name@);
            }
        }
    }
    assert(cols[jt].data.spec_at(i) == Val::I64(rg.time_at(i)));
    if row_survives(cols, all, i) {
        assert(pred_holds(cols, all[user.len() as int], i));
        assert(pred_holds(cols, all[user.len() as int + 1], i));
        assert(rg.time_at(i) >= from);
        assert(rg.time_at(i) < to);
        assert forall|p: int| 0 <= p < user.len() implies pred_holds(cols, #[trigger] user[p], i) by {
            assert(all[p] == user[p]);
            assert(pred_holds(cols, all[p], i));
        }
    }
    if rg.survives(user, from, to, i) {
        assert forall|p: int| 0 <= p < all.len() implies pred_holds(cols, #[trigger] all[p], i) by {
            if p < user.len() {
                assert(all[p] == user[p]);
                assert(pred_holds(cols, user[p], i));
            } else if p == user.len() {
                assert(spec_cmp(cols[jt].data.spec_at(i), Operator::GTE, Val::I64(from)));
            } else {
                assert(spec_cmp(cols[jt].data.spec_at(i), Operator::LT, Val::I64(to)));
            }
        }
    }
}

/// Finds the column named `name`, if any.
pub fn find_col(cols: &Vec<Column>, name: &String) -> (r: Option<usize>)
    ensures
        match r {
            Option::Some(j) => j < cols@.len() && cols@[j as int].name@ == name@,
            Option::None => !has_col(cols@, name@),
        },
{
    let n = cols.len();
    let mut j: usize = 0;
    while j < n
        invariant
            n == cols@.len(),
            j <= n,
            forall|p: int| 0 <= p < j ==> (#[trigger] cols@[p].name@) != name@,
        decreases n - j,
    {
        if cols[j].name == *name {
            return Option::Some(j);
        }
        j += 1;
    }
    Option::None
}

/// The accounting weight of one cell of the given type: eight bytes for
/// an integer, one for a boolean, sixteen for a string reference (the
/// heap payload is not counted).
pub open spec fn col_weight(t: ColumnType) -> int {
    match t {
        ColumnType::I64 => 8,
        ColumnType::Str => 16,
        ColumnType::Bool => 1,
    }
}

/// The accounting size of one column.
pub open spec fn col_bytes(c: Column) -> int {
    col_weight(c.data.spec_type()) * c.data.spec_len()
}

/// The accounting size of a set of columns.
pub open spec fn cols_bytes(cols: Seq<Column>) -> int
    decreases cols.len(),
{
    if cols.len() == 0 {
        0
    } else {
        cols_bytes(cols.drop_last()) + col_bytes(cols.last())
    }
}

pub proof fn lemma_cols_bytes_nonneg(cols: Seq<Column>)
    ensures
        cols_bytes(cols) >= 0,
    decreases cols.len(),
{
    if cols.len() > 0 {
        lemma_cols_bytes_nonneg(cols.drop_last());
    }
}

/// The total is at least any one column's size.
pub proof fn lemma_cols_bytes_elem(cols: Seq<Column>, j: int)
    requires
        0 <= j < cols.len(),
    ensures
        cols_bytes(cols) >= col_bytes(cols[j]),
    decreases cols.len(),
{
    lemma_cols_bytes_nonneg(cols.drop_last());
    if j < cols.len() - 1 {
        assert(cols.drop_last()[j] == cols[j]);
        lemma_cols_bytes_elem(cols.drop_last(), j);
    }
}

impl RowGroup {
    /// The accounting size of this row group.
    pub open spec fn bytes(&self) -> int {
        cols_bytes(self.columns@)
    }

    /// A well-formed row group's size covers eight bytes per row: it has
    /// a time column.
    pub proof fn lemma_bytes_rows(&self)
        requires
            self.wf(),
        ensures
            self.bytes() >= 8 * self.nrows,
            self.bytes() >= 0,
    {
        let jt = self.time_idx();
        assert(col_bytes(self.columns@[jt]) == 8 * self.nrows);
        lemma_cols_bytes_elem(self.columns@, jt);
    }
}

/// Whether a caller-supplied batch of columns is acceptable: non-empty,
/// at least one row, row-aligned, distinct names, and an integer time
/// column.
pub open spec fn batch_ok(cols: Seq<Column>) -> bool {
    &&& cols.len() > 0
    &&& cols[0].data.spec_len() > 0
    &&& forall|j: int|
        0 <= j < cols.len() ==> (#[trigger] cols[j].data.spec_len()) == cols[0].data.spec_len()
    &&& forall|j1: int, j2: int| 0 <= j1 < j2 < cols.len() ==> cols[j1].name@ != cols[j2].name@
    &&& exists|j: int|
        0 <= j < cols.len() && (#[trigger] cols[j].name@) == "time"@ && cols[j].data is I64
}

/// Decides `batch_ok` without consuming the batch.
pub fn check_batch(columns: &Vec<Column>) -> (r: bool)
    ensures
        r == batch_ok(columns@),
{
    let ncols = columns.len();
    if ncols == 0 {
        return false;
    }
    let n = columns[0].data.len();
    if n == 0 {
        return false;
    }
    let mut j: usize = 0;
    while j < ncols
        invariant
            ncols == columns@.len(),
            j <= ncols,
            n == columns@[0].data.spec_len(),
            forall|p: int| 0 <= p < j ==> (#[trigger] columns@[p].data.spec_len()) == n,
        decreases ncols - j,
    {
        if columns[j].data.len() != n {
            return false;
        }
        j += 1;
    }
    let mut a: usize = 0;
    while a < ncols
        invariant
            ncols == columns@.len(),
            a <= ncols,
            n == columns@[0].data.spec_len(),
            n > 0,
            forall|p: int| 0 <= p < ncols ==> (#[trigger] columns@[p].data.spec_len()) == n,
            forall|j1: int, j2: int|
                0 <= j1 < j2 < ncols && j1 < a ==> columns@[j1].name@ != columns@[j2].name@,
        decreases ncols - a,
    {
        let mut b: usize = a + 1;
        while b < ncols
            invariant
                ncols == columns@.len(),
                a < b,
                b <= ncols,
                a < ncols,
                n == columns@[0].data.spec_len(),
                n > 0,
                forall|p: int| 0 <= p < ncols ==> (#[trigger] columns@[p].data.spec_len()) == n,
                forall|j1: int, j2: int|
                    0 <= j1 < j2 < ncols && j1 < a ==> columns@[j1].name@ != columns@[j2].name@,
                forall|j2: int|
                    a < j2 < b ==> columns@[a as int].name@ != (#[trigger] columns@[j2].name@),
            decreases ncols - b,
        {
            if columns[a].name == columns[b].name {
                return false;
            }
            b += 1;
        }
        a += 1;
    }
    let tname: String = "time".to_owned();
    match find_col(columns, &tname) {
        Option::None => false,
        Option::Some(j) => match &columns[j].data {
            ColumnData::I64(_) => true,
            _ => {
                proof {
                    assert forall|j2: int|
                        0 <= j2 < columns@.len() && (#[trigger] columns@[j2].name@) == "time"@
                            && columns@[j2].data is I64 implies false by {
                        lemma_unique_col(columns@, j2, j as int);
                    }
                }
                false
            },
        },
    }
}

impl RowGroup {
    /// Seals a batch of columns into a row group, computing its time
    /// statistics. Rejects exactly the batches `batch_ok` refuses.
    pub fn new(columns: Vec<Column>) -> (r: Result<RowGroup, Error>)
        ensures
            match r {
                Result::Ok(rg) => {
                    &&& batch_ok(columns@)
                    &&& rg.wf()
                    &&& rg.columns@ == columns@
                    &&& rg.nrows == columns@[0].data.spec_len()
                },
                Result::Err(e) => e == Error::ConstructionError && !batch_ok(columns@),
            },
    {
        let ncols = columns.len();
        if ncols == 0 {
            return Result::Err(Error::ConstructionError);
        }
        let n = columns[0].data.len();
        if n == 0 {
            return Result::Err(Error::ConstructionError);
        }
        // Row alignment.
        let mut j: usize = 0;
        while j < ncols
            invariant
                ncols == columns@.len(),
                j <= ncols,
                n == columns@[0].data.spec_len(),
                forall|p: int| 0 <= p < j ==> (#[trigger] columns@[p].data.spec_len()) == n,
            decreases ncols - j,
        {
            if columns[j].data.len() != n {
                return Result::Err(Error::ConstructionError);
            }
            j += 1;
        }
        // Distinct names.
        let mut a: usize = 0;
        while a < ncols
            invariant
                ncols == columns@.len(),
                a <= ncols,
                n == columns@[0].data.spec_len(),
                n > 0,
                forall|p: int| 0 <= p < ncols ==> (#[trigger] columns@[p].data.spec_len()) == n,
                forall|j1: int, j2: int|
                    0 <= j1 < j2 < ncols && j1 < a ==> columns@[j1].name@ != columns@[j2].name@,
            decreases ncols - a,
        {
            let mut b: usize = a + 1;
            while b < ncols
                invariant
                    ncols == columns@.len(),
                    a < b,
                    b <= ncols,
                    a < ncols,
                    n == columns@[0].data.spec_len(),
                    n > 0,
                    forall|p: int| 0 <= p < ncols ==> (#[trigger] columns@[p].data.spec_len()) == n,
                    forall|j1: int, j2: int|
                        0 <= j1 < j2 < ncols && j1 < a ==> columns@[j1].name@ != columns@[j2].name@,
                    forall|j2: int| a < j2 < b ==> columns@[a as int].name@ != (#[trigger] columns@[j2].name@),
                decreases ncols - b,
            {
                if columns[a].name == columns[b].name {
                    return Result::Err(Error::ConstructionError);
                }
                b += 1;
            }
            a += 1;
        }
        // The time column.
        let tname: String = "time".to_owned();
        let jt = match find_col(&columns, &tname) {
            Option::None => {
                return Result::Err(Error::ConstructionError);
            },
            Option::Some(j) => j,
        };
        let tv = match &columns[jt].data {
            ColumnData::I64(v) => v,
            _ => {
                proof {
                    assert forall|j2: int|
                        0 <= j2 < columns@.len() && (#[trigger] columns@[j2].name@) == "time"@
                            && columns@[j2].data is I64 implies false by {
                        if j2 < jt as int {
                            assert(columns@[j2].name@ != columns@[jt as int].name@);
                        } else if j2 > jt as int {
                            assert(columns@[jt as int].name@ != columns@[j2].name@);
                        }
                    }
                }
                return Result::Err(Error::ConstructionError);
            },
        };
        // Time statistics.
        proof {
            assert(columns@[jt as int].data.spec_len() == n);
            assert(tv@.len() == columns@[jt as int].data.spec_len());
        }
        let mut tmin = tv[0];
        let mut tmax = tv[0];
        let mut i: usize = 1;
        while i < n
            invariant
                n == tv@.len(),
                i <= n,
                forall|p: int| 0 <= p < i ==> tmin <= #[trigger] tv@[p],
                forall|p: int| 0 <= p < i ==> #[trigger] tv@[p] <= tmax,
                exists|p: int| 0 <= p < i && #[trigger] tv@[p] == tmin,
                exists|p: int| 0 <= p < i && #[trigger] tv@[p] == tmax,
            decreases n - i,
        {
            let t = tv[i];
            if t < tmin {
                tmin = t;
            }
            if t > tmax {
                tmax = t;
            }
            i += 1;
        }
        // Per-column statistics for predicate pruning.
        let mut smin: Vec<i64> = Vec::new();
        let mut smax: Vec<i64> = Vec::new();
        let mut sj: usize = 0;
        while sj < ncols
            invariant
                ncols == columns@.len(),
                n > 0,
                forall|p: int| 0 <= p < ncols ==> (#[trigger] columns@[p].data.spec_len()) == n,
                sj <= ncols,
                smin@.len() == sj,
                smax@.len() == sj,
                forall|j: int, i: int|
                    0 <= j < sj && columns@[j].data is I64 && 0 <= i < n ==> smin@[j]
                        <= #[trigger] crate::column::i64_at(columns@[j].data, i) <= smax@[j],
            decreases ncols - sj,
        {
            match &columns[sj].data {
                ColumnData::I64(v) => {
                    proof {
                        assert(columns@[sj as int].data.spec_len() == n);
                    }
                    let mut cmin = v[0];
                    let mut cmax = v[0];
                    let mut ci: usize = 1;
                    while ci < n
                        invariant
                            n == v@.len(),
                            ci <= n,
                            forall|p: int| 0 <= p < ci ==> cmin <= #[trigger] v@[p] <= cmax,
                        decreases n - ci,
                    {
                        let x = v[ci];
                        if x < cmin {
                            cmin = x;
                        }
                        if x > cmax {
                            cmax = x;
                        }
                        ci += 1;
                    }
                    smin.push(cmin);
                    smax.push(cmax);
                },
                _ => {
                    smin.push(0);
                    smax.push(0);
                },
            }
            sj += 1;
        }
        let rg = RowGroup {
            columns,
            nrows: n,
            time_min: tmin,
            time_max: tmax,
            stat_min: smin,
            stat_max: smax,
        };
        proof {
            let cols = rg.columns@;
            let ti = rg.time_idx();
            assert(cols[jt as int].name@ == "time"@ && cols[jt as int].data is I64);
            assert(0 <= ti < cols.len() && cols[ti].name@ == "time"@ && cols[ti].data is I64);
            if ti != jt as int {
                if ti < jt as int {
                    assert(cols[ti].name@ != cols[jt as int].name@);
                } else {
                    assert(cols[jt as int].name@ != cols[ti].name@);
                }
            }
            assert(forall|p: int| 0 <= p < n ==> rg.time_at(p) == tv@[p]);
            let wmin = choose|p: int| 0 <= p < n && #[trigger] tv@[p] == tmin;
            assert(rg.time_at(wmin) == rg.time_min);
            let wmax = choose|p: int| 0 <= p < n && #[trigger] tv@[p] == tmax;
            assert(rg.time_at(wmax) == rg.time_max);
        }
        Result::Ok(rg)
    }
}

/// Evaluates the full conjunction against row `i`.
pub fn check_row(rg: &RowGroup, preds: &Vec<Predicate>, i: usize) -> (r: bool)
    requires
        rg.wf(),
        i < rg.nrows,
    ensures
        r == row_survives(rg.columns@, preds@, i as int),
{
    let n = preds.len();
    let mut p: usize = 0;
    while p < n
        invariant
            rg.wf(),
            i < rg.nrows,
            n == preds@.len(),
            p <= n,
            forall|q: int| 0 <= q < p ==> pred_holds(rg.columns@, #[trigger] preds@[q], i as int),
        decreases n - p,
    {
        let pr = &preds[p];
        match find_col(&rg.columns, &pr.column) {
            Option::None => {
                proof {
                    assert(!pred_holds(rg.columns@, preds@[p as int], i as int));
                }
                return false;
            },
            Option::Some(j) => {
                let v = rg.columns[j].data.value_at(i);
                let ok = value_cmp(&v, pr.op, &pr.value);
                if !ok {
                    proof {
                        let cols = rg.columns@;
                        assert forall|j2: int|
                            0 <= j2 < cols.len() && cols[j2].name@ == pr.column@ implies j2
                            == j as int by {
                            if j2 < j as int {
                                assert(cols[j2].name@ != cols[j as int].name@);
                            } else if j2 > j as int {
                                assert(cols[j as int].name@ != cols[j2].name@);
                            }
                        }
                        assert(!pred_holds(cols, preds@[p as int], i as int));
                    }
                    return false;
                }
            },
        }
        p += 1;
    }
    true
}

} // verus!
