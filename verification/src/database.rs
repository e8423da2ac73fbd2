//! A tenant-scoped collection of chunks, keyed by chunk key, with
//! incremental size accounting; every query routes to the chunks whose
//! time range overlaps the query's and merges their results.

use vstd::prelude::*;

use crate::agg::{count_cap, AggregateType, GRow};
use crate::chunk::{
    chunk_agg_rows, chunk_sel_rows, has_table, lemma_chunk_bytes_elem, lemma_pruned_chunk,
    table_idx, Chunk,
};
use crate::column::{strs, Val, Value};
use crate::error::Error;
use crate::row_group::{has_col, Predicate, RowGroup};
use crate::scan::{
    acol_valid, agg_names, gcol_valid, groups_inv, merge_groups, pred_valid, rows_view, AggQuery,
    GroupedRow,
};
use crate::table::Table;

verus! {

/// A database: chunks keyed by chunk key, and their total size.
pub struct Database {
    pub chunks: Vec<Chunk>,
    pub size: u64,
}

/// The sum of the chunks' sizes.
pub open spec fn sum_sizes(chunks: Seq<Chunk>) -> int
    decreases chunks.len(),
{
    if chunks.len() == 0 {
        0
    } else {
        sum_sizes(chunks.drop_last()) + chunks.last().size
    }
}

pub proof fn lemma_sum_sizes_nonneg(chunks: Seq<Chunk>)
    ensures
        sum_sizes(chunks) >= 0,
    decreases chunks.len(),
{
    if chunks.len() > 0 {
        lemma_sum_sizes_nonneg(chunks.drop_last());
    }
}

/// A prefix of the chunks accounts for no more than all of them.
pub proof fn lemma_sum_sizes_prefix(chunks: Seq<Chunk>, i: int)
    requires
        0 <= i <= chunks.len(),
    ensures
        sum_sizes(chunks.take(i)) <= sum_sizes(chunks),
    decreases chunks.len() - i,
{
    if i == chunks.len() {
        assert(chunks.take(i) =~= chunks);
    } else {
        lemma_sum_sizes_prefix(chunks, i + 1);
        assert(chunks.take(i + 1).drop_last() =~= chunks.take(i));
        assert(chunks.take(i + 1).last() == chunks[i]);
    }
}

/// The rows the first `ci` chunks contribute to a grouped query.
pub open spec fn db_agg_upto(chunks: Seq<Chunk>, tname: Seq<char>, q: AggQuery, ci: int) -> Seq<
    GRow,
>
    decreases ci,
{
    if ci <= 0 {
        Seq::empty()
    } else {
        db_agg_upto(chunks, tname, q, ci - 1) + chunk_agg_rows(chunks[ci - 1], tname, q)
    }
}

/// All rows the database's chunks contribute to a grouped query, in
/// chunk order.
pub open spec fn db_agg_rows(chunks: Seq<Chunk>, tname: Seq<char>, q: AggQuery) -> Seq<GRow> {
    db_agg_upto(chunks, tname, q, chunks.len() as int)
}

/// The projected rows the first `ci` chunks contribute to a selection.
pub open spec fn db_sel_upto(
    chunks: Seq<Chunk>,
    tname: Seq<char>,
    preds: Seq<Predicate>,
    from: i64,
    to: i64,
    cols: Seq<Seq<char>>,
    ci: int,
) -> Seq<Seq<Val>>
    decreases ci,
{
    if ci <= 0 {
        Seq::empty()
    } else {
        db_sel_upto(chunks, tname, preds, from, to, cols, ci - 1) + chunk_sel_rows(
            chunks[ci - 1],
            tname,
            preds,
            from,
            to,
            cols,
        )
    }
}

/// All projected surviving rows, in (chunk, row group, row) encounter
/// order.
pub open spec fn db_sel_rows(
    chunks: Seq<Chunk>,
    tname: Seq<char>,
    preds: Seq<Predicate>,
    from: i64,
    to: i64,
    cols: Seq<Seq<char>>,
) -> Seq<Seq<Val>> {
    db_sel_upto(chunks, tname, preds, from, to, cols, chunks.len() as int)
}

/// Whether a whole grouped query is well-typed against every chunk's
/// table of the queried name.
pub open spec fn agg_query_ok(
    chunks: Seq<Chunk>,
    tname: Seq<char>,
    preds: Seq<Predicate>,
    gcols: Seq<Seq<char>>,
    aggs: Seq<(String, AggregateType)>,
) -> bool {
    forall|ci: int, r: int|
        0 <= ci < chunks.len() && has_table((#[trigger] chunks[ci]).tables@, tname) && 0 <= r
            < chunks[ci].tables@[table_idx(chunks[ci].tables@, tname)].row_groups@.len()
            ==> rg_query_ok(
            (#[trigger] chunks[ci].tables@[table_idx(chunks[ci].tables@, tname)].row_groups@[r]),
            preds,
            gcols,
            aggs,
        )
}

/// Whether one row group accepts the predicates, group columns and
/// aggregated columns of a grouped query.
pub open spec fn rg_query_ok(
    rg: RowGroup,
    preds: Seq<Predicate>,
    gcols: Seq<Seq<char>>,
    aggs: Seq<(String, AggregateType)>,
) -> bool {
    &&& forall|p: int| 0 <= p < preds.len() ==> pred_valid(rg.columns@, #[trigger] preds[p])
    &&& forall|g: int| 0 <= g < gcols.len() ==> gcol_valid(rg.columns@, #[trigger] gcols[g])
    &&& forall|j: int|
        0 <= j < aggs.len() ==> acol_valid(rg.columns@, (#[trigger] aggs[j]).0@, aggs[j].1)
}

/// Whether one row group accepts the predicates and projection of a
/// selection.
pub open spec fn rg_sel_ok(
    rg: RowGroup,
    preds: Seq<Predicate>,
    cols: Seq<Seq<char>>,
) -> bool {
    &&& forall|p: int| 0 <= p < preds.len() ==> pred_valid(rg.columns@, #[trigger] preds[p])
    &&& forall|c: int| 0 <= c < cols.len() ==> has_col(rg.columns@, #[trigger] cols[c])
}

/// Whether a selection is well-typed against every chunk's table of the
/// queried name.
pub open spec fn sel_query_ok(
    chunks: Seq<Chunk>,
    tname: Seq<char>,
    preds: Seq<Predicate>,
    cols: Seq<Seq<char>>,
) -> bool {
    forall|ci: int, r: int|
        0 <= ci < chunks.len() && has_table((#[trigger] chunks[ci]).tables@, tname) && 0 <= r
            < chunks[ci].tables@[table_idx(chunks[ci].tables@, tname)].row_groups@.len()
            ==> rg_sel_ok(
            (#[trigger] chunks[ci].tables@[table_idx(chunks[ci].tables@, tname)].row_groups@[r]),
            preds,
            cols,
        )
}

/// The resolved shape of a grouped query.
pub open spec fn mk_aggq(
    preds: Seq<Predicate>,
    from: i64,
    to: i64,
    gcols: Seq<Seq<char>>,
    acols: Seq<Seq<char>>,
    window: int,
) -> AggQuery {
    AggQuery { preds, from, to, gcols, acols, window }
}

impl Database {
    /// Well-formedness: chunk keys distinct, chunks well-formed, and the
    /// size equal to the sum of the chunks' sizes.
    pub open spec fn wf(&self) -> bool {
        &&& forall|c: int| 0 <= c < self.chunks@.len() ==> (#[trigger] self.chunks@[c]).wf()
        &&& forall|c1: int, c2: int|
            0 <= c1 < c2 < self.chunks@.len() ==> self.chunks@[c1].key@ != self.chunks@[c2].key@
        &&& self.size as int == sum_sizes(self.chunks@)
    }

    /// An empty database.
    pub fn new() -> (r: Database)
        ensures
            r.wf(),
            r.chunks@.len() == 0,
            r.size == 0,
    {
        Database { chunks: Vec::new(), size: 0 }
    }

    /// The total size, in accounting bytes, of the resident chunks.
    pub fn size(&self) -> (r: u64)
        ensures
            r == self.size,
            self.wf() ==> r as int == sum_sizes(self.chunks@),
    {
        self.size
    }

    /// Adds a chunk. A key already present is rejected, as is a total
    /// size that would overflow the accounting.
    pub fn add_chunk(&mut self, chunk: Chunk) -> (r: Result<(), Error>)
        requires
            old(self).wf(),
            chunk.wf(),
        ensures
            final(self).wf(),
            match r {
                Result::Ok(()) => {
                    &&& final(self).chunks@ == old(self).chunks@.push(chunk)
                    &&& final(self).size as int == old(self).size as int + chunk.size
                    &&& forall|c: int|
                        0 <= c < old(self).chunks@.len() ==> (#[trigger] old(
                            self,
                        ).chunks@[c].key@) != chunk.key@
                },
                Result::Err(e) => {
                    &&& *final(self) == *old(self)
                    &&& (e == Error::DuplicateKey || e == Error::SizeOverflow)
                    &&& e == Error::DuplicateKey ==> exists|c: int|
                        0 <= c < old(self).chunks@.len() && (#[trigger] old(
                            self,
                        ).chunks@[c].key@) == chunk.key@
                    &&& e == Error::SizeOverflow ==> old(self).size as int + chunk.size
                        > u64::MAX
                },
            },
    {
        let n = self.chunks.len();
        let mut c: usize = 0;
        while c < n
            invariant
                n == self.chunks@.len(),
                c <= n,
                forall|p: int| 0 <= p < c ==> (#[trigger] self.chunks@[p].key@) != chunk.key@,
                *self == *old(self),
                old(self).wf(),
                chunk.wf(),
            decreases n - c,
        {
            if self.chunks[c].key == chunk.key {
                return Result::Err(Error::DuplicateKey);
            }
            c += 1;
        }
        let size2 = match self.size.checked_add(chunk.size) {
            Option::Some(s) => s,
            Option::None => {
                return Result::Err(Error::SizeOverflow);
            },
        };
        let ghost chunks0 = self.chunks@;
        self.size = size2;
        self.chunks.push(chunk);
        proof {
            assert(self.chunks@.drop_last() =~= chunks0);
            assert(self.chunks@.last() == chunk);
            let cl = self.chunks@;
            assert forall|c1: int, c2: int| 0 <= c1 < c2 < cl.len() implies cl[c1].key@
                != cl[c2].key@ by {
                if c2 == cl.len() - 1 {
                    assert(cl[c1] == chunks0[c1]);
                } else {
                    assert(cl[c1] == chunks0[c1]);
                    assert(cl[c2] == chunks0[c2]);
                }
            }
            assert forall|c1: int| 0 <= c1 < cl.len() implies (#[trigger] cl[c1]).wf() by {
                if c1 < cl.len() - 1 {
                    assert(cl[c1] == chunks0[c1]);
                }
            }
        }
        Result::Ok(())
    }

    /// Removes the chunk under `key`, debiting its size; absent keys are
    /// an error.
    pub fn remove_chunk(&mut self, key: &String) -> (r: Result<(), Error>)
        requires
            old(self).wf(),
        ensures
            final(self).wf(),
            match r {
                Result::Ok(()) => {
                    &&& exists|c: int|
                        0 <= c < old(self).chunks@.len() && (#[trigger] old(
                            self,
                        ).chunks@[c].key@) == key@ && final(self).chunks@ == old(
                            self,
                        ).chunks@.remove(c) && final(self).size as int == old(self).size as int
                            - old(self).chunks@[c].size
                },
                Result::Err(e) => {
                    &&& *final(self) == *old(self)
                    &&& e == Error::ChunkNotFound
                    &&& forall|c: int|
                        0 <= c < old(self).chunks@.len() ==> (#[trigger] old(
                            self,
                        ).chunks@[c].key@) != key@
                },
            },
    {
        let n = self.chunks.len();
        let mut c: usize = 0;
        while c < n
            invariant
                n == self.chunks@.len(),
                c <= n,
                forall|p: int| 0 <= p < c ==> (#[trigger] self.chunks@[p].key@) != key@,
                *self == *old(self),
                old(self).wf(),
            decreases n - c,
        {
            if self.chunks[c].key == *key {
                proof {
                    lemma_sum_sizes_remove(old(self).chunks@, c as int);
                    lemma_sum_sizes_nonneg(old(self).chunks@.remove(c as int));
                    old(self).chunks@.remove_ensures(c as int);
                }
                let removed = self.chunks.remove(c);
                proof {
                    assert(old(self).size as int == sum_sizes(old(self).chunks@));
                    assert(self.size == old(self).size);
                    assert(removed == old(self).chunks@[c as int]);
                    assert(removed.size <= old(self).size);
                }
                let new_size = self.size - removed.size;
                self.size = new_size;
                proof {
                    let oldc = old(self).chunks@;
                    assert forall|c1: int, c2: int|
                        0 <= c1 < c2 < self.chunks@.len() implies self.chunks@[c1].key@
                        != self.chunks@[c2].key@ by {
                        let o1 = if c1 < c as int {
                            c1
                        } else {
                            c1 + 1
                        };
                        let o2 = if c2 < c as int {
                            c2
                        } else {
                            c2 + 1
                        };
                        assert(self.chunks@[c1] == oldc[o1]);
                        assert(self.chunks@[c2] == oldc[o2]);
                    }
                    assert forall|p: int| 0 <= p < self.chunks@.len() implies (
                    #[trigger] self.chunks@[p]).wf() by {
                        let o = if p < c as int {
                            p
                        } else {
                            p + 1
                        };
                        assert(self.chunks@[p] == oldc[o]);
                    }
                    assert(0 <= c < oldc.len() && oldc[c as int].key@ == key@ && self.chunks@
                        == oldc.remove(c as int) && self.size as int == old(self).size as int
                        - oldc[c as int].size);
                }
                return Result::Ok(());
            }
            c += 1;
        }
        Result::Err(Error::ChunkNotFound)
    }
}

/// Whether the column's type is the literal's.
fn data_type_matches(data: &crate::column::ColumnData, v: &Value) -> (r: bool)
    ensures
        r == (data.spec_type() == crate::column::type_of_val(crate::column::val_of(*v))),
{
    match data {
        crate::column::ColumnData::I64(_) => matches!(v, Value::I64(_)),
        crate::column::ColumnData::Str(_) => matches!(v, Value::Str(_)),
        crate::column::ColumnData::Bool(_) => matches!(v, Value::Bool(_)),
    }
}

/// Whether `op` is a range comparison.
fn is_range_op(op: crate::column::Operator) -> (r: bool)
    ensures
        r == (op is GT || op is GTE || op is LT || op is LTE),
{
    match op {
        crate::column::Operator::GT => true,
        crate::column::Operator::GTE => true,
        crate::column::Operator::LT => true,
        crate::column::Operator::LTE => true,
        _ => false,
    }
}

/// Decides `pred_valid` for one predicate against one row group.
fn check_pred(rg: &RowGroup, p: &Predicate) -> (r: bool)
    requires
        rg.wf(),
    ensures
        r == pred_valid(rg.columns@, *p),
{
    match crate::row_group::find_col(&rg.columns, &p.column) {
        Option::None => {
            proof {
                assert(!pred_valid(rg.columns@, *p));
            }
            false
        },
        Option::Some(j) => {
            let tm = data_type_matches(&rg.columns[j].data, &p.value);
            let range_ok = if is_range_op(p.op) {
                matches!(&rg.columns[j].data, crate::column::ColumnData::I64(_))
            } else {
                true
            };
            proof {
                let cols = rg.columns@;
                assert forall|j2: int|
                    0 <= j2 < cols.len() && cols[j2].name@ == p.column@ implies j2 == j as int by {
                    crate::row_group::lemma_unique_col(cols, j2, j as int);
                }
            }
            tm && range_ok
        },
    }
}

/// Decides `gcol_valid` for one group column name.
fn check_gcol(rg: &RowGroup, name: &String) -> (r: bool)
    requires
        rg.wf(),
    ensures
        r == gcol_valid(rg.columns@, name@),
{
    match crate::row_group::find_col(&rg.columns, name) {
        Option::None => false,
        Option::Some(j) => {
            proof {
                let cols = rg.columns@;
                assert forall|j2: int|
                    0 <= j2 < cols.len() && cols[j2].name@ == name@ implies j2 == j as int by {
                    crate::row_group::lemma_unique_col(cols, j2, j as int);
                }
            }
            matches!(&rg.columns[j].data, crate::column::ColumnData::Str(_))
        },
    }
}

/// Decides `acol_valid` for one aggregated column.
fn check_acol(rg: &RowGroup, name: &String, a: AggregateType) -> (r: bool)
    requires
        rg.wf(),
    ensures
        r == acol_valid(rg.columns@, name@, a),
{
    match crate::row_group::find_col(&rg.columns, name) {
        Option::None => false,
        Option::Some(j) => {
            proof {
                let cols = rg.columns@;
                assert forall|j2: int|
                    0 <= j2 < cols.len() && cols[j2].name@ == name@ implies j2 == j as int by {
                    crate::row_group::lemma_unique_col(cols, j2, j as int);
                }
            }
            let needs_int = match a {
                AggregateType::Sum => true,
                AggregateType::Min => true,
                AggregateType::Max => true,
                _ => false,
            };
            if needs_int {
                matches!(&rg.columns[j].data, crate::column::ColumnData::I64(_))
            } else {
                true
            }
        },
    }
}

/// Decides `rg_query_ok` against one row group.
fn check_rg_query(
    rg: &RowGroup,
    preds: &Vec<Predicate>,
    gcols: &Vec<String>,
    aggs: &Vec<(String, AggregateType)>,
) -> (r: bool)
    requires
        rg.wf(),
    ensures
        r == rg_query_ok(*rg, preds@, strs(gcols@), aggs@),
{
    let np = preds.len();
    let mut p: usize = 0;
    while p < np
        invariant
            rg.wf(),
            np == preds@.len(),
            p <= np,
            forall|k: int| 0 <= k < p ==> pred_valid(rg.columns@, #[trigger] preds@[k]),
        decreases np - p,
    {
        if !check_pred(rg, &preds[p]) {
            return false;
        }
        p += 1;
    }
    let ng = gcols.len();
    let mut g: usize = 0;
    while g < ng
        invariant
            rg.wf(),
            ng == gcols@.len(),
            g <= ng,
            forall|k: int| 0 <= k < g ==> gcol_valid(rg.columns@, #[trigger] gcols@[k]@),
        decreases ng - g,
    {
        if !check_gcol(rg, &gcols[g]) {
            assert(!gcol_valid(rg.columns@, strs(gcols@)[g as int]));
            return false;
        }
        g += 1;
    }
    let na = aggs.len();
    let mut j: usize = 0;
    while j < na
        invariant
            rg.wf(),
            na == aggs@.len(),
            j <= na,
            forall|k: int| 0 <= k < j ==> acol_valid(rg.columns@, (#[trigger] aggs@[k]).0@, aggs@[k].1),
        decreases na - j,
    {
        if !check_acol(rg, &aggs[j].0, aggs[j].1) {
            return false;
        }
        j += 1;
    }
    proof {
        assert forall|k: int| 0 <= k < strs(gcols@).len() implies gcol_valid(
            rg.columns@,
            #[trigger] strs(gcols@)[k],
        ) by {
            assert(strs(gcols@)[k] == gcols@[k]@);
        }
    }
    true
}

/// Decides `rg_sel_ok` against one row group.
fn check_rg_sel(rg: &RowGroup, preds: &Vec<Predicate>, cols: &Vec<String>) -> (r: bool)
    requires
        rg.wf(),
    ensures
        r == rg_sel_ok(*rg, preds@, strs(cols@)),
{
    let np = preds.len();
    let mut p: usize = 0;
    while p < np
        invariant
            rg.wf(),
            np == preds@.len(),
            p <= np,
            forall|k: int| 0 <= k < p ==> pred_valid(rg.columns@, #[trigger] preds@[k]),
        decreases np - p,
    {
        if !check_pred(rg, &preds[p]) {
            return false;
        }
        p += 1;
    }
    let ncn = cols.len();
    let mut cI: usize = 0;
    while cI < ncn
        invariant
            rg.wf(),
            ncn == cols@.len(),
            cI <= ncn,
            forall|k: int| 0 <= k < cI ==> has_col(rg.columns@, #[trigger] cols@[k]@),
        decreases ncn - cI,
    {
        match crate::row_group::find_col(&rg.columns, &cols[cI]) {
            Option::None => {
                proof {
                    assert(!has_col(rg.columns@, strs(cols@)[cI as int]));
                }
                return false;
            },
            Option::Some(_) => {},
        }
        cI += 1;
    }
    proof {
        assert forall|k: int| 0 <= k < strs(cols@).len() implies has_col(
            rg.columns@,
            #[trigger] strs(cols@)[k],
        ) by {
            assert(strs(cols@)[k] == cols@[k]@);
        }
    }
    true
}

/// Finds the table named `name` in a chunk.
pub fn find_table(tables: &Vec<Table>, name: &String) -> (r: Option<usize>)
    ensures
        match r {
            Option::Some(t) => t < tables@.len() && tables@[t as int].name@ == name@,
            Option::None => !has_table(tables@, name@),
        },
{
    let n = tables.len();
    let mut t: usize = 0;
    while t < n
        invariant
            n == tables@.len(),
            t <= n,
            forall|p: int| 0 <= p < t ==> (#[trigger] tables@[p].name@) != name@,
        decreases n - t,
    {
        if tables[t].name == *name {
            return Option::Some(t);
        }
        t += 1;
    }
    Option::None
}

/// Builds the uniform predicate list: the caller's predicates followed
/// by the two canonical time-range predicates.
pub(crate) fn build_all_preds(predicates: &Vec<Predicate>, from: i64, to: i64) -> (r: Vec<Predicate>)
    ensures
        crate::row_group::time_preds_appended(r@, predicates@, from, to),
{
    let n = predicates.len();
    let mut all: Vec<Predicate> = Vec::new();
    let mut i: usize = 0;
    while i < n
        invariant
            n == predicates@.len(),
            i <= n,
            all@.len() == i,
            forall|p: int| 0 <= p < i ==> all@[p] == predicates@[p],
        decreases n - i,
    {
        let p = &predicates[i];
        all.push(Predicate { column: p.column.clone(), op: p.op, value: p.value.duplicate() });
        proof {
            assert(all@[i as int] == predicates@[i as int]);
        }
        i += 1;
    }
    let mut tp = crate::time_range_predicate(from, to);
    proof {
        assert(tp@.len() == 2);
    }
    let tp1 = tp.remove(0);
    let tp2 = tp.remove(0);
    all.push(tp1);
    all.push(tp2);
    proof {
        assert(all@.len() == predicates@.len() + 2);
        assert(forall|p: int| 0 <= p < predicates@.len() ==> all@[p] == predicates@[p]);
        assert(crate::row_group::is_time_gte(all@[predicates@.len() as int], from));
        assert(crate::row_group::is_time_lt(all@[predicates@.len() as int + 1], to));
    }
    all
}

impl Database {
    /// Decides whether a grouped query is well-typed against every
    /// chunk's table of the queried name.
    fn validate_agg(
        &self,
        tname: &String,
        preds: &Vec<Predicate>,
        gcols: &Vec<String>,
        aggs: &Vec<(String, AggregateType)>,
    ) -> (r: bool)
        requires
            self.wf(),
        ensures
            r == agg_query_ok(self.chunks@, tname@, preds@, strs(gcols@), aggs@),
    {
        let nc = self.chunks.len();
        let mut ci: usize = 0;
        while ci < nc
            invariant
                self.wf(),
                nc == self.chunks@.len(),
                ci <= nc,
                forall|c: int, r: int|
                    0 <= c < ci && has_table((#[trigger] self.chunks@[c]).tables@, tname@) && 0
                        <= r < self.chunks@[c].tables@[table_idx(
                        self.chunks@[c].tables@,
                        tname@,
                    )].row_groups@.len() ==> rg_query_ok(
                        (#[trigger] self.chunks@[c].tables@[table_idx(
                            self.chunks@[c].tables@,
                            tname@,
                        )].row_groups@[r]),
                        preds@,
                        strs(gcols@),
                        aggs@,
                    ),
            decreases nc - ci,
        {
            let c = &self.chunks[ci];
            match find_table(&c.tables, tname) {
                Option::None => {},
                Option::Some(ti) => {
                    proof {
                        assert(has_table(c.tables@, tname@));
                        let tix = table_idx(c.tables@, tname@);
                        assert(c.wf());
                        crate::table::lemma_unique_table(c.tables@, tix, ti as int);
                    }
                    let tbl = &c.tables[ti];
                    let nr = tbl.row_groups.len();
                    let mut r: usize = 0;
                    while r < nr
                        invariant
                            self.wf(),
                            ci < nc,
                            nc == self.chunks@.len(),
                            nr == tbl.row_groups@.len(),
                            (ti as int) < self.chunks@[ci as int].tables@.len(),
                            *tbl == self.chunks@[ci as int].tables@[ti as int],
                            tbl.name@ == tname@,
                            tbl.wf(),
                            r <= nr,
                            forall|k: int|
                                0 <= k < r ==> rg_query_ok(
                                    #[trigger] tbl.row_groups@[k],
                                    preds@,
                                    strs(gcols@),
                                    aggs@,
                                ),
                        decreases nr - r,
                    {
                        if !check_rg_query(&tbl.row_groups[r], preds, gcols, aggs) {
                            proof {
                                assert(has_table(self.chunks@[ci as int].tables@, tname@));
                                let tix = table_idx(self.chunks@[ci as int].tables@, tname@);
                                assert(self.chunks@[ci as int].wf());
                                crate::table::lemma_unique_table(
                                    self.chunks@[ci as int].tables@,
                                    tix,
                                    ti as int,
                                );
                                assert(!rg_query_ok(
                                    self.chunks@[ci as int].tables@[tix].row_groups@[r as int],
                                    preds@,
                                    strs(gcols@),
                                    aggs@,
                                ));
                            }
                            return false;
                        }
                        r += 1;
                    }
                },
            }
            ci += 1;
        }
        true
    }

    /// The shared engine of `aggregate` and `aggregate_window`: local
    /// per-chunk aggregation followed by an explicit merge of the
    /// partial group states.
    fn grouped_core(
        &self,
        tname: &String,
        time_range: (i64, i64),
        predicates: &Vec<Predicate>,
        group_columns: &Vec<String>,
        aggregates: &Vec<(String, AggregateType)>,
        window: i64,
    ) -> (r: Result<Vec<GroupedRow>, Error>)
        requires
            self.wf(),
            window >= 0,
        ensures
            match r {
                Result::Ok(rows) => {
                    &&& agg_query_ok(
                        self.chunks@,
                        tname@,
                        predicates@,
                        strs(group_columns@),
                        aggregates@,
                    )
                    &&& groups_inv(
                        rows@,
                        db_agg_rows(
                            self.chunks@,
                            tname@,
                            mk_aggq(
                                predicates@,
                                time_range.0,
                                time_range.1,
                                strs(group_columns@),
                                agg_names(aggregates@),
                                window as int,
                            ),
                        ),
                        aggregates@,
                    )
                    &&& crate::order::rows_sorted(rows@)
                },
                Result::Err(e) => {
                    &&& e == Error::SchemaMismatch
                    &&& !agg_query_ok(
                        self.chunks@,
                        tname@,
                        predicates@,
                        strs(group_columns@),
                        aggregates@,
                    )
                },
            },
    {
        if !self.validate_agg(tname, predicates, group_columns, aggregates) {
            return Result::Err(Error::SchemaMismatch);
        }
        let from = time_range.0;
        let to = time_range.1;
        let all_preds = build_all_preds(predicates, from, to);
        let ghost q = mk_aggq(
            predicates@,
            from,
            to,
            strs(group_columns@),
            agg_names(aggregates@),
            window as int,
        );
        let mut groups: Vec<GroupedRow> = Vec::new();
        let nc = self.chunks.len();
        let mut ci: usize = 0;
        proof {
            assert(groups_inv(groups@, db_agg_upto(self.chunks@, tname@, q, 0), aggregates@));
            assert(self.chunks@.take(0) =~= Seq::<Chunk>::empty());
        }
        while ci < nc
            invariant
                self.wf(),
                nc == self.chunks@.len(),
                crate::row_group::time_preds_appended(all_preds@, q.preds, q.from, q.to),
                from == time_range.0,
                to == time_range.1,
                q == mk_aggq(
                    predicates@,
                    time_range.0,
                    time_range.1,
                    strs(group_columns@),
                    agg_names(aggregates@),
                    window as int,
                ),
                window >= 0,
                agg_query_ok(self.chunks@, tname@, predicates@, strs(group_columns@), aggregates@),
                ci <= nc,
                groups_inv(groups@, db_agg_upto(self.chunks@, tname@, q, ci as int), aggregates@),
                8 * db_agg_upto(self.chunks@, tname@, q, ci as int).len() <= sum_sizes(
                    self.chunks@.take(ci as int),
                ),
            decreases nc - ci,
        {
            let ghost rows_g = db_agg_upto(self.chunks@, tname@, q, ci as int);
            let c = &self.chunks[ci];
            proof {
                assert(self.chunks@.take(ci + 1).drop_last() =~= self.chunks@.take(ci as int));
                assert(self.chunks@.take(ci + 1).last() == self.chunks@[ci as int]);
            }
            if !c.overlaps(from, to) {
                proof {
                    assert(self.chunks@[ci as int].wf());
                    lemma_pruned_chunk(*c, tname@, q, Seq::empty(), Seq::empty());
                    assert(rows_g + chunk_agg_rows(*c, tname@, q) =~= rows_g);
                }
            } else {
                match find_table(&c.tables, tname) {
                    Option::None => {
                        proof {
                            assert(chunk_agg_rows(*c, tname@, q) =~= Seq::<GRow>::empty());
                            assert(rows_g + chunk_agg_rows(*c, tname@, q) =~= rows_g);
                        }
                    },
                    Option::Some(ti) => {
                        let tbl = &c.tables[ti];
                        proof {
                            assert(has_table(c.tables@, tname@));
                            crate::table::lemma_unique_table(
                                c.tables@,
                                table_idx(c.tables@, tname@),
                                ti as int,
                            );
                            assert(chunk_agg_rows(*c, tname@, q) == crate::table::table_rows(
                                tbl.row_groups@,
                                q,
                            ));
                            // The chunk's rows fit under the accumulator cap.
                            crate::table::lemma_tbl_bytes_rows(tbl.row_groups@);
                            lemma_chunk_bytes_elem(c.tables@, ti as int);
                            crate::table::lemma_table_rows_len(
                                tbl.row_groups@,
                                q,
                                tbl.row_groups@.len() as int,
                            );
                            assert(tbl.row_groups@.take(tbl.row_groups@.len() as int)
                                =~= tbl.row_groups@);
                            // Validation holds of this table's row groups.
                            assert forall|k: int, g: int|
                                0 <= k < tbl.row_groups@.len() && 0 <= g < q.gcols.len()
                                    implies gcol_valid(
                                (#[trigger] tbl.row_groups@[k]).columns@,
                                #[trigger] q.gcols[g],
                            ) by {
                                assert(rg_query_ok(
                                    self.chunks@[ci as int].tables@[table_idx(
                                        self.chunks@[ci as int].tables@,
                                        tname@,
                                    )].row_groups@[k],
                                    predicates@,
                                    strs(group_columns@),
                                    aggregates@,
                                ));
                            }
                            assert forall|k: int, j: int|
                                0 <= k < tbl.row_groups@.len() && 0 <= j < aggregates@.len()
                                    implies acol_valid(
                                (#[trigger] tbl.row_groups@[k]).columns@,
                                (#[trigger] aggregates@[j]).0@,
                                aggregates@[j].1,
                            ) by {
                                assert(rg_query_ok(
                                    self.chunks@[ci as int].tables@[table_idx(
                                        self.chunks@[ci as int].tables@,
                                        tname@,
                                    )].row_groups@[k],
                                    predicates@,
                                    strs(group_columns@),
                                    aggregates@,
                                ));
                            }
                            // Sizes bound the row counts.
                            lemma_sum_sizes_prefix(self.chunks@, ci + 1);
                        }
                        let mut local: Vec<GroupedRow> = Vec::new();
                        proof {
                            assert(groups_inv(local@, Seq::<GRow>::empty(), aggregates@));
                        }
                        tbl.aggregate_into(
                            &all_preds,
                            group_columns,
                            aggregates,
                            window,
                            from,
                            to,
                            &mut local,
                            Ghost(q),
                            Ghost(Seq::empty()),
                        );
                        let ghost rows_c = crate::table::table_rows(tbl.row_groups@, q);
                        proof {
                            assert(Seq::<GRow>::empty() + rows_c =~= rows_c);
                            assert(8 * rows_c.len() <= c.size);
                            assert(rows_g.len() + rows_c.len() <= count_cap());
                        }
                        merge_groups(
                            &mut groups,
                            &local,
                            aggregates,
                            Ghost(rows_g),
                            Ghost(rows_c),
                        );
                    },
                }
            }
            proof {
                assert(db_agg_upto(self.chunks@, tname@, q, ci + 1) =~= rows_g + chunk_agg_rows(
                    self.chunks@[ci as int],
                    tname@,
                    q,
                ));
                lemma_sum_sizes_nonneg(self.chunks@.take(ci as int));
            }
            ci += 1;
        }
        proof {
            assert(self.chunks@.take(nc as int) =~= self.chunks@);
        }
        let sorted = crate::order::sort_groups(
            groups,
            aggregates,
            Ghost(db_agg_rows(self.chunks@, tname@, q)),
        );
        Result::Ok(sorted)
    }

    /// Decides whether a selection is well-typed against every chunk's
    /// table of the queried name.
    pub(crate) fn validate_sel(&self, tname: &String, preds: &Vec<Predicate>, cols: &Vec<String>) -> (r: bool)
        requires
            self.wf(),
        ensures
            r == sel_query_ok(self.chunks@, tname@, preds@, strs(cols@)),
    {
        let nc = self.chunks.len();
        let mut ci: usize = 0;
        while ci < nc
            invariant
                self.wf(),
                nc == self.chunks@.len(),
                ci <= nc,
                forall|c: int, r: int|
                    0 <= c < ci && has_table((#[trigger] self.chunks@[c]).tables@, tname@) && 0
                        <= r < self.chunks@[c].tables@[table_idx(
                        self.chunks@[c].tables@,
                        tname@,
                    )].row_groups@.len() ==> rg_sel_ok(
                        (#[trigger] self.chunks@[c].tables@[table_idx(
                            self.chunks@[c].tables@,
                            tname@,
                        )].row_groups@[r]),
                        preds@,
                        strs(cols@),
                    ),
            decreases nc - ci,
        {
            let c = &self.chunks[ci];
            match find_table(&c.tables, tname) {
                Option::None => {},
                Option::Some(ti) => {
                    proof {
                        assert(has_table(c.tables@, tname@));
                        let tix = table_idx(c.tables@, tname@);
                        assert(c.wf());
                        crate::table::lemma_unique_table(c.tables@, tix, ti as int);
                    }
                    let tbl = &c.tables[ti];
                    let nr = tbl.row_groups.len();
                    let mut r: usize = 0;
                    while r < nr
                        invariant
                            self.wf(),
                            ci < nc,
                            nc == self.chunks@.len(),
                            nr == tbl.row_groups@.len(),
                            (ti as int) < self.chunks@[ci as int].tables@.len(),
                            *tbl == self.chunks@[ci as int].tables@[ti as int],
                            tbl.name@ == tname@,
                            tbl.wf(),
                            r <= nr,
                            forall|k: int|
                                0 <= k < r ==> rg_sel_ok(
                                    #[trigger] tbl.row_groups@[k],
                                    preds@,
                                    strs(cols@),
                                ),
                        decreases nr - r,
                    {
                        if !check_rg_sel(&tbl.row_groups[r], preds, cols) {
                            proof {
                                assert(has_table(self.chunks@[ci as int].tables@, tname@));
                                let tix = table_idx(self.chunks@[ci as int].tables@, tname@);
                                assert(self.chunks@[ci as int].wf());
                                crate::table::lemma_unique_table(
                                    self.chunks@[ci as int].tables@,
                                    tix,
                                    ti as int,
                                );
                                assert(!rg_sel_ok(
                                    self.chunks@[ci as int].tables@[tix].row_groups@[r as int],
                                    preds@,
                                    strs(cols@),
                                ));
                            }
                            return false;
                        }
                        r += 1;
                    }
                },
            }
            ci += 1;
        }
        true
    }

    /// Evaluates the predicates against table `table_name`, projects the
    /// selected columns, and concatenates matching rows from all
    /// contributing chunks in (chunk, row group, row) encounter order.
    pub fn select(
        &self,
        table_name: &str,
        time_range: (i64, i64),
        predicates: &Vec<Predicate>,
        select_columns: &Vec<String>,
    ) -> (r: Result<Vec<Vec<Value>>, Error>)
        requires
            self.wf(),
        ensures
            match r {
                Result::Ok(rows) => {
                    &&& sel_query_ok(self.chunks@, table_name@, predicates@, strs(select_columns@))
                    &&& rows_view(rows@) == db_sel_rows(
                        self.chunks@,
                        table_name@,
                        predicates@,
                        time_range.0,
                        time_range.1,
                        strs(select_columns@),
                    )
                },
                Result::Err(e) => {
                    &&& e == Error::SchemaMismatch
                    &&& !sel_query_ok(
                        self.chunks@,
                        table_name@,
                        predicates@,
                        strs(select_columns@),
                    )
                },
            },
    {
        let tn: String = table_name.to_owned();
        if !self.validate_sel(&tn, predicates, select_columns) {
            return Result::Err(Error::SchemaMismatch);
        }
        let from = time_range.0;
        let to = time_range.1;
        let all_preds = build_all_preds(predicates, from, to);
        let mut out: Vec<Vec<Value>> = Vec::new();
        let nc = self.chunks.len();
        let mut ci: usize = 0;
        let ghost cols = strs(select_columns@);
        proof {
            assert(rows_view(out@) =~= db_sel_upto(
                self.chunks@,
                tn@,
                predicates@,
                from,
                to,
                cols,
                0,
            ));
        }
        while ci < nc
            invariant
                self.wf(),
                nc == self.chunks@.len(),
                crate::row_group::time_preds_appended(all_preds@, predicates@, from, to),
                from == time_range.0,
                to == time_range.1,
                tn@ == table_name@,
                cols == strs(select_columns@),
                sel_query_ok(self.chunks@, tn@, predicates@, cols),
                ci <= nc,
                rows_view(out@) == db_sel_upto(
                    self.chunks@,
                    tn@,
                    predicates@,
                    from,
                    to,
                    cols,
                    ci as int,
                ),
            decreases nc - ci,
        {
            let ghost rows_g = db_sel_upto(self.chunks@, tn@, predicates@, from, to, cols, ci as int);
            let c = &self.chunks[ci];
            if !c.overlaps(from, to) {
                proof {
                    assert(self.chunks@[ci as int].wf());
                    lemma_pruned_chunk(
                        *c,
                        tn@,
                        mk_aggq(predicates@, from, to, Seq::empty(), Seq::empty(), 0),
                        cols,
                        Seq::empty(),
                    );
                    assert(rows_g + chunk_sel_rows(*c, tn@, predicates@, from, to, cols)
                        =~= rows_g);
                }
            } else {
                match find_table(&c.tables, &tn) {
                    Option::None => {
                        proof {
                            assert(rows_g + chunk_sel_rows(*c, tn@, predicates@, from, to, cols)
                                =~= rows_g);
                        }
                    },
                    Option::Some(ti) => {
                        let tbl = &c.tables[ti];
                        proof {
                            assert(has_table(c.tables@, tn@));
                            let tix = table_idx(c.tables@, tn@);
                            assert(c.wf());
                            crate::table::lemma_unique_table(c.tables@, tix, ti as int);
                            assert forall|k: int, cc: int|
                                0 <= k < tbl.row_groups@.len() && 0 <= cc
                                    < select_columns@.len() implies has_col(
                                (#[trigger] tbl.row_groups@[k]).columns@,
                                (#[trigger] select_columns@[cc])@,
                            ) by {
                                assert(rg_sel_ok(
                                    self.chunks@[ci as int].tables@[table_idx(
                                        self.chunks@[ci as int].tables@,
                                        tn@,
                                    )].row_groups@[k],
                                    predicates@,
                                    cols,
                                ));
                                assert(cols[cc] == select_columns@[cc]@);
                            }
                        }
                        tbl.select_into(
                            &all_preds,
                            select_columns,
                            &mut out,
                            from,
                            to,
                            Ghost(predicates@),
                        );
                        proof {
                            assert(chunk_sel_rows(*c, tn@, predicates@, from, to, cols)
                                == crate::table::table_sel_rows(
                                tbl.row_groups@,
                                predicates@,
                                from,
                                to,
                                cols,
                            ));
                        }
                    },
                }
            }
            proof {
                assert(db_sel_upto(self.chunks@, tn@, predicates@, from, to, cols, ci + 1)
                    =~= rows_g + chunk_sel_rows(
                    self.chunks@[ci as int],
                    tn@,
                    predicates@,
                    from,
                    to,
                    cols,
                ));
            }
            ci += 1;
        }
        proof {
            assert(self.chunks@.take(nc as int) =~= self.chunks@);
        }
        Result::Ok(out)
    }

    /// Computes the requested aggregates for each group key over the
    /// surviving rows of table `table_name`, merging duplicate group
    /// keys across chunks.
    pub fn aggregate(
        &self,
        table_name: &str,
        time_range: (i64, i64),
        predicates: &Vec<Predicate>,
        group_columns: &Vec<String>,
        aggregates: &Vec<(String, AggregateType)>,
    ) -> (r: Result<Vec<GroupedRow>, Error>)
        requires
            self.wf(),
        ensures
            match r {
                Result::Ok(rows) => {
                    &&& agg_query_ok(
                        self.chunks@,
                        table_name@,
                        predicates@,
                        strs(group_columns@),
                        aggregates@,
                    )
                    &&& groups_inv(
                        rows@,
                        db_agg_rows(
                            self.chunks@,
                            table_name@,
                            mk_aggq(
                                predicates@,
                                time_range.0,
                                time_range.1,
                                strs(group_columns@),
                                agg_names(aggregates@),
                                0,
                            ),
                        ),
                        aggregates@,
                    )
                    &&& crate::order::rows_sorted(rows@)
                },
                Result::Err(e) => {
                    &&& e == Error::SchemaMismatch
                    &&& !agg_query_ok(
                        self.chunks@,
                        table_name@,
                        predicates@,
                        strs(group_columns@),
                        aggregates@,
                    )
                },
            },
    {
        let tn: String = table_name.to_owned();
        self.grouped_core(&tn, time_range, predicates, group_columns, aggregates, 0)
    }

    /// As `aggregate`, with each group key extended by the start of the
    /// fixed window bucket holding the row's timestamp. A non-positive
    /// window is an error.
    pub fn aggregate_window(
        &self,
        table_name: &str,
        time_range: (i64, i64),
        predicates: &Vec<Predicate>,
        group_columns: &Vec<String>,
        aggregates: &Vec<(String, AggregateType)>,
        window: i64,
    ) -> (r: Result<Vec<GroupedRow>, Error>)
        requires
            self.wf(),
        ensures
            match r {
                Result::Ok(rows) => {
                    &&& window > 0
                    &&& agg_query_ok(
                        self.chunks@,
                        table_name@,
                        predicates@,
                        strs(group_columns@),
                        aggregates@,
                    )
                    &&& groups_inv(
                        rows@,
                        db_agg_rows(
                            self.chunks@,
                            table_name@,
                            mk_aggq(
                                predicates@,
                                time_range.0,
                                time_range.1,
                                strs(group_columns@),
                                agg_names(aggregates@),
                                window as int,
                            ),
                        ),
                        aggregates@,
                    )
                    &&& crate::order::rows_sorted(rows@)
                },
                Result::Err(e) => {
                    &&& (e == Error::InvalidArgument || e == Error::SchemaMismatch)
                    &&& e == Error::InvalidArgument <==> window <= 0
                    &&& e == Error::SchemaMismatch ==> window > 0 && !agg_query_ok(
                        self.chunks@,
                        table_name@,
                        predicates@,
                        strs(group_columns@),
                        aggregates@,
                    )
                },
            },
    {
        if window <= 0 {
            return Result::Err(Error::InvalidArgument);
        }
        let tn: String = table_name.to_owned();
        self.grouped_core(&tn, time_range, predicates, group_columns, aggregates, window)
    }
}

/// Removing one chunk debits exactly its size.
pub proof fn lemma_sum_sizes_remove(chunks: Seq<Chunk>, c: int)
    requires
        0 <= c < chunks.len(),
    ensures
        sum_sizes(chunks.remove(c)) == sum_sizes(chunks) - chunks[c].size,
    decreases chunks.len(),
{
    if c == chunks.len() - 1 {
        assert(chunks.remove(c) =~= chunks.drop_last());
    } else {
        lemma_sum_sizes_remove(chunks.drop_last(), c);
        assert(chunks.remove(c).drop_last() =~= chunks.drop_last().remove(c));
        assert(chunks.remove(c).last() == chunks.last());
    }
}

} // verus!
