//! Chunks: immutable, keyed units of ingested data, one table per
//! measurement, with aggregate size and time-range statistics used for
//! top-level pruning.

use vstd::prelude::*;

use crate::agg::{AggregateType, GRow};
use crate::column::{Column, Val};
use crate::error::Error;
use crate::row_group::{
    batch_ok, col_bytes, cols_bytes, lemma_cols_bytes_elem, lemma_cols_bytes_nonneg, Predicate,
    RowGroup,
};
use crate::scan::{rg_rows_upto, sel_rows_upto, AggQuery};
use crate::table::{
    table_has_survivor, table_has_tag_value, table_rows, table_rows_upto, table_sel_rows,
    table_sel_upto, tbl_bytes, Table,
};

verus! {

/// An immutable, uniquely keyed unit of ingested data.
#[derive(Debug)]
pub struct Chunk {
    pub key: String,
    pub tables: Vec<Table>,
    pub size: u64,
    pub time_min: i64,
    pub time_max: i64,
}

/// Accounting size over a set of tables.
pub open spec fn chunk_bytes(tables: Seq<Table>) -> int
    decreases tables.len(),
{
    if tables.len() == 0 {
        0
    } else {
        chunk_bytes(tables.drop_last()) + tbl_bytes(tables.last().row_groups@)
    }
}

pub proof fn lemma_chunk_bytes_nonneg(tables: Seq<Table>)
    requires
        forall|t: int| 0 <= t < tables.len() ==> (#[trigger] tables[t]).wf(),
    ensures
        chunk_bytes(tables) >= 0,
    decreases tables.len(),
{
    if tables.len() > 0 {
        assert(forall|t: int|
            0 <= t < tables.drop_last().len() ==> tables.drop_last()[t] == tables[t]);
        lemma_chunk_bytes_nonneg(tables.drop_last());
        crate::table::lemma_tbl_bytes_rows(tables.last().row_groups@);
    }
}

/// The total is at least any one table's size.
pub proof fn lemma_chunk_bytes_elem(tables: Seq<Table>, t: int)
    requires
        forall|p: int| 0 <= p < tables.len() ==> (#[trigger] tables[p]).wf(),
        0 <= t < tables.len(),
    ensures
        chunk_bytes(tables) >= tbl_bytes(tables[t].row_groups@),
    decreases tables.len(),
{
    assert(forall|p: int|
        0 <= p < tables.drop_last().len() ==> tables.drop_last()[p] == tables[p]);
    lemma_chunk_bytes_nonneg(tables.drop_last());
    if t < tables.len() - 1 {
        lemma_chunk_bytes_elem(tables.drop_last(), t);
        crate::table::lemma_tbl_bytes_rows(tables.last().row_groups@);
    }
}

/// Whether the chunk holds a table named `name`.
pub open spec fn has_table(tables: Seq<Table>, name: Seq<char>) -> bool {
    exists|t: int| 0 <= t < tables.len() && (#[trigger] tables[t].name@) == name
}

/// The index of the table named `name`.
pub open spec fn table_idx(tables: Seq<Table>, name: Seq<char>) -> int {
    choose|t: int| 0 <= t < tables.len() && (#[trigger] tables[t].name@) == name
}

impl Chunk {
    /// Well-formedness: at least one table, distinct names, all tables
    /// well-formed, exact size accounting, and exact union time
    /// statistics.
    pub open spec fn wf(&self) -> bool {
        &&& self.tables@.len() > 0
        &&& forall|t: int| 0 <= t < self.tables@.len() ==> (#[trigger] self.tables@[t]).wf()
        &&& forall|t1: int, t2: int|
            0 <= t1 < t2 < self.tables@.len() ==> self.tables@[t1].name@ != self.tables@[t2].name@
        &&& self.size as int == chunk_bytes(self.tables@)
        &&& forall|t: int|
            0 <= t < self.tables@.len() ==> self.time_min <= (#[trigger] self.tables@[t]).time_min
                && self.tables@[t].time_max <= self.time_max
        &&& exists|t: int|
            0 <= t < self.tables@.len() && (#[trigger] self.tables@[t]).time_min == self.time_min
        &&& exists|t: int|
            0 <= t < self.tables@.len() && (#[trigger] self.tables@[t]).time_max == self.time_max
    }

    /// Whether this chunk's time range intersects `[from, to)`.
    pub open spec fn spec_overlaps(&self, from: i64, to: i64) -> bool {
        self.time_min < to && self.time_max >= from
    }

    /// The pruning test: consult the chunk's aggregate time range only.
    pub fn overlaps(&self, from: i64, to: i64) -> (r: bool)
        ensures
            r == self.spec_overlaps(from, to),
    {
        self.time_min < to && self.time_max >= from
    }
}

/// The surviving rows this chunk contributes to a grouped query on table
/// `tname`: those of its table so named, or none.
pub open spec fn chunk_agg_rows(c: Chunk, tname: Seq<char>, q: AggQuery) -> Seq<GRow> {
    if has_table(c.tables@, tname) {
        table_rows(c.tables@[table_idx(c.tables@, tname)].row_groups@, q)
    } else {
        Seq::empty()
    }
}

/// The projected surviving rows this chunk contributes to a selection.
pub open spec fn chunk_sel_rows(
    c: Chunk,
    tname: Seq<char>,
    preds: Seq<Predicate>,
    from: i64,
    to: i64,
    cols: Seq<Seq<char>>,
) -> Seq<Seq<Val>> {
    if has_table(c.tables@, tname) {
        table_sel_rows(c.tables@[table_idx(c.tables@, tname)].row_groups@, preds, from, to, cols)
    } else {
        Seq::empty()
    }
}

/// Whether some row of this chunk's table `tname` survives the query.
pub open spec fn chunk_has_survivor(
    c: Chunk,
    tname: Seq<char>,
    preds: Seq<Predicate>,
    from: i64,
    to: i64,
) -> bool {
    has_table(c.tables@, tname) && table_has_survivor(
        c.tables@[table_idx(c.tables@, tname)].row_groups@,
        preds,
        from,
        to,
    )
}

/// Whether `v` is a value of tag column `key` in a surviving row of this
/// chunk's table `tname`.
pub open spec fn chunk_has_tag_value(
    c: Chunk,
    tname: Seq<char>,
    preds: Seq<Predicate>,
    from: i64,
    to: i64,
    key: Seq<char>,
    v: Seq<char>,
) -> bool {
    has_table(c.tables@, tname) && table_has_tag_value(
        c.tables@[table_idx(c.tables@, tname)].row_groups@,
        preds,
        from,
        to,
        key,
        v,
    )
}

/// A row group none of whose rows survive contributes no rows.
pub proof fn lemma_rg_dead(rg: RowGroup, q: AggQuery, i: int)
    requires
        forall|p: int| 0 <= p < rg.nrows ==> !rg.survives(q.preds, q.from, q.to, p),
        i <= rg.nrows,
    ensures
        rg_rows_upto(rg, q, i) == Seq::<GRow>::empty(),
    decreases i,
{
    if i > 0 {
        lemma_rg_dead(rg, q, i - 1);
    }
}

pub proof fn lemma_rg_dead_sel(
    rg: RowGroup,
    preds: Seq<Predicate>,
    from: i64,
    to: i64,
    cols: Seq<Seq<char>>,
    i: int,
)
    requires
        forall|p: int| 0 <= p < rg.nrows ==> !rg.survives(preds, from, to, p),
        i <= rg.nrows,
    ensures
        sel_rows_upto(rg, preds, from, to, cols, i) == Seq::<Seq<Val>>::empty(),
    decreases i,
{
    if i > 0 {
        lemma_rg_dead_sel(rg, preds, from, to, cols, i - 1);
    }
}

/// Pruning correctness: a chunk whose time range does not intersect
/// `[from, to)` contributes nothing to any query, so skipping it without
/// inspecting its tables yields the same results as scanning it.
pub proof fn lemma_pruned_chunk(
    c: Chunk,
    tname: Seq<char>,
    q: AggQuery,
    cols: Seq<Seq<char>>,
    key: Seq<char>,
)
    requires
        c.wf(),
        !c.spec_overlaps(q.from, q.to),
    ensures
        chunk_agg_rows(c, tname, q) == Seq::<GRow>::empty(),
        chunk_sel_rows(c, tname, q.preds, q.from, q.to, cols) == Seq::<Seq<Val>>::empty(),
        !chunk_has_survivor(c, tname, q.preds, q.from, q.to),
        forall|v: Seq<char>| !chunk_has_tag_value(c, tname, q.preds, q.from, q.to, key, v),
{
    if has_table(c.tables@, tname) {
        let t = table_idx(c.tables@, tname);
        let tbl = c.tables@[t];
        assert(tbl.wf());
        let rgs = tbl.row_groups@;
        assert forall|r: int, i: int|
            0 <= r < rgs.len() && 0 <= i < rgs[r].nrows implies !(#[trigger] rgs[r].survives(
            q.preds,
            q.from,
            q.to,
            i,
        )) by {
            let rg = rgs[r];
            assert(rg.wf());
            assert(rg.time_min <= rg.time_at(i) <= rg.time_max);
            assert(c.time_min <= tbl.time_min <= rg.time_min);
            assert(rg.time_max <= tbl.time_max <= c.time_max);
            if q.from <= rg.time_at(i) && rg.time_at(i) < q.to {
                assert(c.time_min < q.to);
                assert(c.time_max >= q.from);
            }
        }
        assert forall|r: int| 0 <= r <= rgs.len() implies table_rows_upto(rgs, q, r)
            =~= Seq::<GRow>::empty() && table_sel_upto(rgs, q.preds, q.from, q.to, cols, r)
            =~= Seq::<Seq<Val>>::empty() by {
            lemma_table_dead(rgs, q, cols, r);
        }
        assert(table_rows(rgs, q) =~= Seq::<GRow>::empty());
        assert(table_sel_rows(rgs, q.preds, q.from, q.to, cols) =~= Seq::<Seq<Val>>::empty());
    }
}

/// A table none of whose rows survive contributes nothing.
pub proof fn lemma_table_dead(rgs: Seq<RowGroup>, q: AggQuery, cols: Seq<Seq<char>>, r: int)
    requires
        forall|p: int, i: int|
            0 <= p < rgs.len() && 0 <= i < rgs[p].nrows ==> !(#[trigger] rgs[p].survives(
                q.preds,
                q.from,
                q.to,
                i,
            )),
        r <= rgs.len(),
    ensures
        table_rows_upto(rgs, q, r) == Seq::<GRow>::empty(),
        table_sel_upto(rgs, q.preds, q.from, q.to, cols, r) == Seq::<Seq<Val>>::empty(),
    decreases r,
{
    if r > 0 {
        lemma_table_dead(rgs, q, cols, r - 1);
        lemma_rg_dead(rgs[r - 1], q, rgs[r - 1].nrows as int);
        lemma_rg_dead_sel(rgs[r - 1], q.preds, q.from, q.to, cols, rgs[r - 1].nrows as int);
        assert(table_rows_upto(rgs, q, r) =~= Seq::<GRow>::empty());
        assert(table_sel_upto(rgs, q.preds, q.from, q.to, cols, r) =~= Seq::<Seq<Val>>::empty());
    }
}

/// Whether a caller-supplied chunk mapping is acceptable: non-empty,
/// distinct table names, and every batch acceptable.
pub open spec fn batches_ok(batches: Seq<(String, Vec<Column>)>) -> bool {
    &&& batches.len() > 0
    &&& forall|i1: int, i2: int|
        0 <= i1 < i2 < batches.len() ==> batches[i1].0@ != batches[i2].0@
    &&& forall|i: int| 0 <= i < batches.len() ==> batch_ok((#[trigger] batches[i]).1@)
}

/// The accounting size a chunk mapping will occupy.
pub open spec fn batches_bytes(batches: Seq<(String, Vec<Column>)>) -> int
    decreases batches.len(),
{
    if batches.len() == 0 {
        0
    } else {
        batches_bytes(batches.drop_last()) + cols_bytes(batches.last().1@)
    }
}

/// Computes a batch's accounting size, detecting overflow exactly.
fn batch_bytes(cols: &Vec<Column>) -> (r: Option<u64>)
    ensures
        match r {
            Option::Some(s) => s as int == cols_bytes(cols@),
            Option::None => cols_bytes(cols@) > u64::MAX,
        },
{
    let n = cols.len();
    let mut acc: u64 = 0;
    let mut j: usize = 0;
    proof {
        assert(cols@.take(0) =~= Seq::<Column>::empty());
    }
    while j < n
        invariant
            n == cols@.len(),
            j <= n,
            acc as int == cols_bytes(cols@.take(j as int)),
        decreases n - j,
    {
        let w: u64 = match &cols[j].data {
            crate::column::ColumnData::I64(_) => 8,
            crate::column::ColumnData::Str(_) => 16,
            crate::column::ColumnData::Bool(_) => 1,
        };
        let len = cols[j].data.len();
        let term = match w.checked_mul(len as u64) {
            Option::Some(t) => t,
            Option::None => {
                proof {
                    lemma_cols_bytes_elem(cols@, j as int);
                }
                return Option::None;
            },
        };
        proof {
            assert(term as int == col_bytes(cols@[j as int]));
        }
        let acc2 = match acc.checked_add(term) {
            Option::Some(a) => a,
            Option::None => {
                proof {
                    assert(cols@.take(j + 1).drop_last() =~= cols@.take(j as int));
                    assert(cols@.take(j + 1).last() == cols@[j as int]);
                    lemma_cols_bytes_prefix(cols@, j + 1);
                }
                return Option::None;
            },
        };
        acc = acc2;
        proof {
            assert(cols@.take(j + 1).drop_last() =~= cols@.take(j as int));
            assert(cols@.take(j + 1).last() == cols@[j as int]);
        }
        j += 1;
    }
    proof {
        assert(cols@.take(n as int) =~= cols@);
    }
    Option::Some(acc)
}

/// A prefix never accounts for more than the whole.
pub proof fn lemma_cols_bytes_prefix(cols: Seq<Column>, j: int)
    requires
        0 <= j <= cols.len(),
    ensures
        cols_bytes(cols.take(j)) <= cols_bytes(cols),
    decreases cols.len() - j,
{
    if j == cols.len() {
        assert(cols.take(j) =~= cols);
    } else {
        lemma_cols_bytes_prefix(cols, j + 1);
        assert(cols.take(j + 1).drop_last() =~= cols.take(j));
        assert(cols.take(j + 1).last() == cols[j]);
        assert(col_bytes(cols[j]) >= 0);
    }
}

impl Chunk {
    /// Builds a chunk atomically from a mapping of table name to
    /// columnar batch. The whole chunk is rejected if any batch is
    /// unusable or the size accounting would overflow.
    #[verifier::rlimit(100)]
    pub fn new(key: String, batches: Vec<(String, Vec<Column>)>) -> (r: Result<Chunk, Error>)
        ensures
            match r {
                Result::Ok(c) => {
                    &&& batches_ok(batches@)
                    &&& batches_bytes(batches@) <= u64::MAX
                    &&& c.wf()
                    &&& c.key@ == key@
                    &&& c.tables@.len() == batches@.len()
                    &&& forall|i: int|
                        0 <= i < batches@.len() ==> (#[trigger] c.tables@[i]).name@
                            == batches@[i].0@ && c.tables@[i].row_groups@.len() == 1
                            && c.tables@[i].row_groups@[0].columns@ == batches@[i].1@
                },
                Result::Err(e) => {
                    &&& (e == Error::ConstructionError || e == Error::SizeOverflow)
                    &&& e == Error::ConstructionError ==> !batches_ok(batches@)
                    &&& e == Error::SizeOverflow ==> batches_bytes(batches@) > u64::MAX
                },
            },
    {
        let ghost b0 = batches@;
        let nb = batches.len();
        if nb == 0 {
            return Result::Err(Error::ConstructionError);
        }
        // Distinct table names.
        let mut a: usize = 0;
        while a < nb
            invariant
                nb == batches@.len(),
                b0 == batches@,
                a <= nb,
                forall|i1: int, i2: int|
                    0 <= i1 < i2 < nb && i1 < a ==> b0[i1].0@ != b0[i2].0@,
            decreases nb - a,
        {
            let mut b: usize = a + 1;
            while b < nb
                invariant
                    nb == batches@.len(),
                    b0 == batches@,
                    a < b,
                    b <= nb,
                    a < nb,
                    forall|i1: int, i2: int|
                        0 <= i1 < i2 < nb && i1 < a ==> b0[i1].0@ != b0[i2].0@,
                    forall|i2: int| a < i2 < b ==> b0[a as int].0@ != (#[trigger] b0[i2].0@),
                decreases nb - b,
            {
                if batches[a].0 == batches[b].0 {
                    proof {
                        assert(!batches_ok(batches@)) by {
                            if batches_ok(batches@) {
                                assert(b0[a as int].0@ != b0[b as int].0@);
                            }
                        }
                    }
                    return Result::Err(Error::ConstructionError);
                }
                b += 1;
            }
            a += 1;
        }
        // Every batch must be usable.
        let mut v: usize = 0;
        while v < nb
            invariant
                nb == batches@.len(),
                b0 == batches@,
                v <= nb,
                forall|p: int| 0 <= p < v ==> batch_ok((#[trigger] b0[p]).1@),
            decreases nb - v,
        {
            if !crate::row_group::check_batch(&batches[v].1) {
                proof {
                    assert(!batches_ok(batches@)) by {
                        if batches_ok(batches@) {
                            assert(batch_ok(b0[v as int].1@));
                        }
                    }
                }
                return Result::Err(Error::ConstructionError);
            }
            v += 1;
        }
        // Size accounting, rejected exactly on overflow.
        let mut size: u64 = 0;
        let mut si: usize = 0;
        proof {
            assert(b0.take(0) =~= Seq::<(String, Vec<Column>)>::empty());
        }
        while si < nb
            invariant
                nb == batches@.len(),
                b0 == batches@,
                si <= nb,
                size as int == batches_bytes(b0.take(si as int)),
            decreases nb - si,
        {
            let bsize = match batch_bytes(&batches[si].1) {
                Option::Some(s) => s,
                Option::None => {
                    proof {
                        lemma_batches_bytes_term(b0, si as int);
                    }
                    return Result::Err(Error::SizeOverflow);
                },
            };
            let size2 = match size.checked_add(bsize) {
                Option::Some(s) => s,
                Option::None => {
                    proof {
                        assert(b0.take(si + 1).drop_last() =~= b0.take(si as int));
                        assert(b0.take(si + 1).last() == b0[si as int]);
                        lemma_batches_bytes_prefix(b0, si + 1);
                    }
                    return Result::Err(Error::SizeOverflow);
                },
            };
            size = size2;
            proof {
                assert(b0.take(si + 1).drop_last() =~= b0.take(si as int));
                assert(b0.take(si + 1).last() == b0[si as int]);
            }
            si += 1;
        }
        proof {
            assert(b0.take(nb as int) =~= b0);
        }
        // Build the tables; nothing can fail from here on.
        let mut work = batches;
        let mut tables: Vec<Table> = Vec::new();
        let mut i: usize = 0;
        proof {
            assert(work@ =~= b0.skip(0));
        }
        while i < nb
            invariant
                nb == b0.len(),
                forall|i1: int, i2: int| 0 <= i1 < i2 < nb ==> b0[i1].0@ != b0[i2].0@,
                forall|p: int| 0 <= p < nb ==> batch_ok((#[trigger] b0[p]).1@),
                i <= nb,
                work@ == b0.skip(i as int),
                tables@.len() == i,
                forall|p: int|
                    0 <= p < i ==> (#[trigger] tables@[p]).name@ == b0[p].0@
                        && tables@[p].row_groups@.len() == 1
                        && tables@[p].row_groups@[0].columns@ == b0[p].1@ && tables@[p].wf(),
                chunk_bytes(tables@) == batches_bytes(b0.take(i as int)),
            decreases nb - i,
        {
            let entry = work.remove(0);
            proof {
                assert(b0.skip(i as int)[0] == b0[i as int]);
                assert(work@ =~= b0.skip(i + 1));
                assert(entry == b0[i as int]);
                assert(entry.1@ == b0[i as int].1@);
            }
            let t = match Table::new(entry.0, entry.1) {
                Result::Ok(t) => t,
                Result::Err(_) => {
                    proof {
                        assert(batch_ok(b0[i as int].1@));
                        assert(false);
                    }
                    return Result::Err(Error::ConstructionError);
                },
            };
            let ghost tbl0 = tables@;
            tables.push(t);
            proof {
                assert(b0.take(i + 1).drop_last() =~= b0.take(i as int));
                assert(b0.take(i + 1).last() == b0[i as int]);
                assert(tables@.drop_last() =~= tbl0);
                assert(tables@.last() == t);
                assert(tbl_bytes(t.row_groups@) == cols_bytes(b0[i as int].1@)) by {
                    let rgs = t.row_groups@;
                    assert(rgs.len() == 1);
                    assert(rgs.drop_last() =~= Seq::<RowGroup>::empty());
                    assert(tbl_bytes(rgs.drop_last()) == 0);
                    assert(rgs.last() == rgs[0]);
                    assert(rgs[0].columns@ == b0[i as int].1@);
                    assert(tbl_bytes(rgs) == tbl_bytes(rgs.drop_last()) + cols_bytes(
                        rgs.last().columns@,
                    ));
                }
            }
            i += 1;
        }
        // Union time range.
        let mut tmin = tables[0].time_min;
        let mut tmax = tables[0].time_max;
        let mut ti: usize = 1;
        while ti < nb
            invariant
                nb == tables@.len(),
                nb == b0.len(),
                ti <= nb,
                nb > 0,
                0 < ti,
                forall|i1: int, i2: int|
                    0 <= i1 < i2 < nb ==> b0[i1].0@ != b0[i2].0@,
                forall|p: int|
                    0 <= p < nb ==> (#[trigger] tables@[p]).name@ == b0[p].0@
                        && tables@[p].row_groups@.len() == 1
                        && tables@[p].row_groups@[0].columns@ == b0[p].1@ && tables@[p].wf(),
                forall|p: int| 0 <= p < nb ==> batch_ok((#[trigger] b0[p]).1@),
                size as int == batches_bytes(b0),
                size as int == chunk_bytes(tables@),
                forall|p: int|
                    0 <= p < ti ==> tmin <= (#[trigger] tables@[p]).time_min
                        && tables@[p].time_max <= tmax,
                exists|p: int| 0 <= p < ti && (#[trigger] tables@[p]).time_min == tmin,
                exists|p: int| 0 <= p < ti && (#[trigger] tables@[p]).time_max == tmax,
            decreases nb - ti,
        {
            let t = &tables[ti];
            if t.time_min < tmin {
                tmin = t.time_min;
            }
            if t.time_max > tmax {
                tmax = t.time_max;
            }
            ti += 1;
        }
        let c = Chunk { key, tables, size, time_min: tmin, time_max: tmax };
        proof {
            assert forall|t1: int, t2: int|
                0 <= t1 < t2 < c.tables@.len() implies c.tables@[t1].name@
                != c.tables@[t2].name@ by {
                assert(b0[t1].0@ != b0[t2].0@);
            }
            assert(forall|t: int| 0 <= t < c.tables@.len() ==> (#[trigger] c.tables@[t]).wf());
            assert(c.size as int == chunk_bytes(c.tables@));
            assert(c.wf());
            assert(batches_ok(b0));
            assert(batches_bytes(b0) <= u64::MAX);
        }
        Result::Ok(c)
    }
}

/// Prefix sizes never exceed the whole mapping's size.
pub proof fn lemma_batches_bytes_prefix(batches: Seq<(String, Vec<Column>)>, j: int)
    requires
        0 <= j <= batches.len(),
    ensures
        batches_bytes(batches.take(j)) <= batches_bytes(batches),
    decreases batches.len() - j,
{
    if j == batches.len() {
        assert(batches.take(j) =~= batches);
    } else {
        lemma_batches_bytes_prefix(batches, j + 1);
        assert(batches.take(j + 1).drop_last() =~= batches.take(j));
        assert(batches.take(j + 1).last() == batches[j]);
        lemma_cols_bytes_nonneg(batches[j].1@);
    }
}

/// One batch's size never exceeds the whole mapping's size.
pub proof fn lemma_batches_bytes_term(batches: Seq<(String, Vec<Column>)>, j: int)
    requires
        0 <= j < batches.len(),
    ensures
        batches_bytes(batches) >= cols_bytes(batches[j].1@),
    decreases batches.len(),
{
    lemma_batches_bytes_nonneg(batches.drop_last());
    if j < batches.len() - 1 {
        assert(batches.drop_last()[j] == batches[j]);
        lemma_batches_bytes_term(batches.drop_last(), j);
        lemma_cols_bytes_nonneg(batches.last().1@);
    }
}

pub proof fn lemma_batches_bytes_nonneg(batches: Seq<(String, Vec<Column>)>)
    ensures
        batches_bytes(batches) >= 0,
    decreases batches.len(),
{
    if batches.len() > 0 {
        lemma_batches_bytes_nonneg(batches.drop_last());
        lemma_cols_bytes_nonneg(batches.last().1@);
    }
}




} // verus!
