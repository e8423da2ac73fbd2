//! Tables: one measurement's data within a chunk, an ordered collection
//! of row groups sharing a schema.

use vstd::prelude::*;

use crate::agg::{count_cap, AggregateType, GRow};
use crate::column::{strs, Column, ColumnType, Val};
use crate::error::Error;
use crate::row_group::{batch_ok, cols_bytes, has_col, time_preds_appended, Predicate, RowGroup};
use crate::scan::{
    acol_valid, agg_names, any_survivor, gcol_valid, groups_inv, rg_accumulate, rg_has_tag_value,
    rg_rows, rg_sel_rows, rg_select, rg_tag_values, rows_view, str_in, strs_distinct, AggQuery,
    GroupedRow,
};

verus! {

/// The schema of a row group: its column names and types, in order.
pub open spec fn schema_of(rg: RowGroup) -> Seq<(Seq<char>, ColumnType)> {
    rg.columns@.map_values(|c: Column| (c.name@, c.data.spec_type()))
}

/// One measurement's data: row groups sharing a schema, with the union
/// of their time ranges.
#[derive(Debug)]
pub struct Table {
    pub name: String,
    pub row_groups: Vec<RowGroup>,
    pub time_min: i64,
    pub time_max: i64,
}

/// Total rows over a set of row groups.
pub open spec fn tbl_nrows(rgs: Seq<RowGroup>) -> int
    decreases rgs.len(),
{
    if rgs.len() == 0 {
        0
    } else {
        tbl_nrows(rgs.drop_last()) + rgs.last().nrows
    }
}

/// Accounting size over a set of row groups.
pub open spec fn tbl_bytes(rgs: Seq<RowGroup>) -> int
    decreases rgs.len(),
{
    if rgs.len() == 0 {
        0
    } else {
        tbl_bytes(rgs.drop_last()) + cols_bytes(rgs.last().columns@)
    }
}

/// A well-formed set of row groups keeps eight bytes per row of
/// accounting size.
pub proof fn lemma_tbl_bytes_rows(rgs: Seq<RowGroup>)
    requires
        forall|r: int| 0 <= r < rgs.len() ==> (#[trigger] rgs[r]).wf(),
    ensures
        tbl_bytes(rgs) >= 8 * tbl_nrows(rgs),
        tbl_nrows(rgs) >= 0,
    decreases rgs.len(),
{
    if rgs.len() > 0 {
        assert(rgs.last() == rgs[rgs.len() - 1]);
        assert(forall|r: int| 0 <= r < rgs.drop_last().len() ==> rgs.drop_last()[r] == rgs[r]);
        lemma_tbl_bytes_rows(rgs.drop_last());
        rgs.last().lemma_bytes_rows();
    }
}

/// The surviving rows of the first `r` row groups, flattened in order.
pub open spec fn table_rows_upto(rgs: Seq<RowGroup>, q: AggQuery, r: int) -> Seq<GRow>
    decreases r,
{
    if r <= 0 {
        Seq::empty()
    } else {
        table_rows_upto(rgs, q, r - 1) + rg_rows(rgs[r - 1], q)
    }
}

/// All surviving rows of a table.
pub open spec fn table_rows(rgs: Seq<RowGroup>, q: AggQuery) -> Seq<GRow> {
    table_rows_upto(rgs, q, rgs.len() as int)
}

pub proof fn lemma_table_rows_len(rgs: Seq<RowGroup>, q: AggQuery, r: int)
    requires
        0 <= r <= rgs.len(),
    ensures
        table_rows_upto(rgs, q, r).len() <= tbl_nrows(rgs.take(r)),
    decreases r,
{
    if r > 0 {
        lemma_table_rows_len(rgs, q, r - 1);
        crate::scan::lemma_rg_rows_len(rgs[r - 1], q, rgs[r - 1].nrows as int);
        assert(rgs.take(r).drop_last() =~= rgs.take(r - 1));
        assert(rgs.take(r).last() == rgs[r - 1]);
    }
}

/// Total rows only grow with more row groups.
pub proof fn lemma_tbl_nrows_take(rgs: Seq<RowGroup>, r: int)
    requires
        0 <= r <= rgs.len(),
        forall|p: int| 0 <= p < rgs.len() ==> (#[trigger] rgs[p]).wf(),
    ensures
        tbl_nrows(rgs.take(r)) <= tbl_nrows(rgs),
    decreases rgs.len() - r,
{
    if r == rgs.len() {
        assert(rgs.take(r) =~= rgs);
    } else {
        lemma_tbl_nrows_take(rgs, r + 1);
        assert(rgs.take(r + 1).drop_last() =~= rgs.take(r));
        assert(rgs.take(r + 1).last() == rgs[r]);
    }
}

/// The projected surviving rows of the first `r` row groups.
pub open spec fn table_sel_upto(
    rgs: Seq<RowGroup>,
    preds: Seq<Predicate>,
    from: i64,
    to: i64,
    cols: Seq<Seq<char>>,
    r: int,
) -> Seq<Seq<Val>>
    decreases r,
{
    if r <= 0 {
        Seq::empty()
    } else {
        table_sel_upto(rgs, preds, from, to, cols, r - 1) + rg_sel_rows(
            rgs[r - 1],
            preds,
            from,
            to,
            cols,
        )
    }
}

pub open spec fn table_sel_rows(
    rgs: Seq<RowGroup>,
    preds: Seq<Predicate>,
    from: i64,
    to: i64,
    cols: Seq<Seq<char>>,
) -> Seq<Seq<Val>> {
    table_sel_upto(rgs, preds, from, to, cols, rgs.len() as int)
}

/// Whether any row of the table survives the query.
pub open spec fn table_has_survivor(
    rgs: Seq<RowGroup>,
    preds: Seq<Predicate>,
    from: i64,
    to: i64,
) -> bool {
    exists|r: int, i: int|
        0 <= r < rgs.len() && 0 <= i < rgs[r].nrows && (#[trigger] rgs[r].survives(
            preds,
            from,
            to,
            i,
        ))
}

/// Whether `v` is a value of tag column `key` in some surviving row of
/// the table.
pub open spec fn table_has_tag_value(
    rgs: Seq<RowGroup>,
    preds: Seq<Predicate>,
    from: i64,
    to: i64,
    key: Seq<char>,
    v: Seq<char>,
) -> bool {
    exists|r: int|
        0 <= r < rgs.len() && rg_has_tag_value(#[trigger] rgs[r], preds, from, to, key, v)
}

/// In a chunk with distinct table names, two tables with one name are
/// one table.
pub proof fn lemma_unique_table(tables: Seq<Table>, t1: int, t2: int)
    requires
        forall|a: int, b: int| 0 <= a < b < tables.len() ==> tables[a].name@ != tables[b].name@,
        0 <= t1 < tables.len(),
        0 <= t2 < tables.len(),
        tables[t1].name@ == tables[t2].name@,
    ensures
        t1 == t2,
{
    if t1 < t2 {
        assert(tables[t1].name@ != tables[t2].name@);
    } else if t2 < t1 {
        assert(tables[t2].name@ != tables[t1].name@);
    }
}

impl Table {
    /// Well-formedness: at least one row group, all well-formed and
    /// sharing one schema, and exact union time statistics.
    pub open spec fn wf(&self) -> bool {
        &&& self.row_groups@.len() > 0
        &&& forall|r: int| 0 <= r < self.row_groups@.len() ==> (#[trigger] self.row_groups@[r]).wf()
        &&& forall|r1: int, r2: int|
            0 <= r1 < self.row_groups@.len() && 0 <= r2 < self.row_groups@.len() ==> schema_of(
                self.row_groups@[r1],
            ) == schema_of(self.row_groups@[r2])
        &&& forall|r: int|
            0 <= r < self.row_groups@.len() ==> self.time_min <= (#[trigger] self.row_groups@[r]).time_min
                && self.row_groups@[r].time_max <= self.time_max
        &&& exists|r: int|
            0 <= r < self.row_groups@.len() && (#[trigger] self.row_groups@[r]).time_min
                == self.time_min
        &&& exists|r: int|
            0 <= r < self.row_groups@.len() && (#[trigger] self.row_groups@[r]).time_max
                == self.time_max
    }

    /// The accounting size of this table.
    pub open spec fn bytes(&self) -> int {
        tbl_bytes(self.row_groups@)
    }

    /// Seals one batch of columns into a table with a single row group.
    pub fn new(name: String, columns: Vec<Column>) -> (r: Result<Table, Error>)
        ensures
            match r {
                Result::Ok(t) => {
                    &&& batch_ok(columns@)
                    &&& t.wf()
                    &&& t.name@ == name@
                    &&& t.row_groups@.len() == 1
                    &&& t.row_groups@[0].columns@ == columns@
                },
                Result::Err(e) => e == Error::ConstructionError && !batch_ok(columns@),
            },
    {
        let rg = match RowGroup::new(columns) {
            Result::Ok(rg) => rg,
            Result::Err(e) => {
                return Result::Err(e);
            },
        };
        let tmin = rg.time_min;
        let tmax = rg.time_max;
        let mut rgs: Vec<RowGroup> = Vec::new();
        rgs.push(rg);
        let t = Table { name, row_groups: rgs, time_min: tmin, time_max: tmax };
        proof {
            assert(t.row_groups@.len() == 1);
            assert(t.row_groups@[0].wf());
            assert(t.row_groups@[0].time_min == t.time_min);
            assert(t.row_groups@[0].time_max == t.time_max);
        }
        Result::Ok(t)
    }

    /// Aggregates every surviving row of this table into `groups`.
    pub fn aggregate_into(
        &self,
        all_preds: &Vec<Predicate>,
        gcols: &Vec<String>,
        aggs: &Vec<(String, AggregateType)>,
        window: i64,
        from: i64,
        to: i64,
        groups: &mut Vec<GroupedRow>,
        Ghost(q): Ghost<AggQuery>,
        Ghost(prior): Ghost<Seq<GRow>>,
    )
        requires
            self.wf(),
            q.from == from,
            q.to == to,
            time_preds_appended(all_preds@, q.preds, q.from, q.to),
            q.gcols == strs(gcols@),
            q.acols == agg_names(aggs@),
            q.window == window as int,
            window >= 0,
            forall|r: int, g: int|
                0 <= r < self.row_groups@.len() && 0 <= g < q.gcols.len() ==> gcol_valid(
                    (#[trigger] self.row_groups@[r]).columns@,
                    #[trigger] q.gcols[g],
                ),
            forall|r: int, j: int|
                0 <= r < self.row_groups@.len() && 0 <= j < aggs@.len() ==> acol_valid(
                    (#[trigger] self.row_groups@[r]).columns@,
                    (#[trigger] aggs@[j]).0@,
                    aggs@[j].1,
                ),
            groups_inv(old(groups)@, prior, aggs@),
            prior.len() + tbl_nrows(self.row_groups@) <= count_cap(),
        ensures
            groups_inv(final(groups)@, prior + table_rows(self.row_groups@, q), aggs@),
    {
        let n = self.row_groups.len();
        let mut r: usize = 0;
        proof {
            assert(prior + table_rows_upto(self.row_groups@, q, 0) =~= prior);
        }
        while r < n
            invariant
                self.wf(),
                n == self.row_groups@.len(),
                time_preds_appended(all_preds@, q.preds, q.from, q.to),
                q.gcols == strs(gcols@),
                q.acols == agg_names(aggs@),
                q.window == window as int,
                q.from == from,
                q.to == to,
                window >= 0,
                forall|p: int, g: int|
                    0 <= p < self.row_groups@.len() && 0 <= g < q.gcols.len() ==> gcol_valid(
                        (#[trigger] self.row_groups@[p]).columns@,
                        #[trigger] q.gcols[g],
                    ),
                forall|p: int, j: int|
                    0 <= p < self.row_groups@.len() && 0 <= j < aggs@.len() ==> acol_valid(
                        (#[trigger] self.row_groups@[p]).columns@,
                        (#[trigger] aggs@[j]).0@,
                        aggs@[j].1,
                    ),
                prior.len() + tbl_nrows(self.row_groups@) <= count_cap(),
                r <= n,
                groups_inv(groups@, prior + table_rows_upto(self.row_groups@, q, r as int), aggs@),
            decreases n - r,
        {
            let ghost rows_before = prior + table_rows_upto(self.row_groups@, q, r as int);
            proof {
                lemma_table_rows_len(self.row_groups@, q, r as int);
                lemma_tbl_nrows_take(self.row_groups@, r as int);
                lemma_tbl_bytes_rows(self.row_groups@);
                assert(self.row_groups@[r as int].wf());
                let rgs = self.row_groups@;
                // The pending row group's rows fit under the cap as well.
                assert(tbl_nrows(rgs.take(r + 1)) <= tbl_nrows(rgs)) by {
                    lemma_tbl_nrows_take(rgs, r + 1);
                }
                assert(tbl_nrows(rgs.take(r + 1)) == tbl_nrows(rgs.take(r as int))
                    + rgs[r as int].nrows) by {
                    assert(rgs.take(r + 1).drop_last() =~= rgs.take(r as int));
                    assert(rgs.take(r + 1).last() == rgs[r as int]);
                }
                assert(tbl_nrows(rgs.take(r as int)) >= table_rows_upto(rgs, q, r as int).len());
                assert(tbl_nrows(rgs.take(r as int)) >= 0) by {
                    assert(forall|p: int|
                        0 <= p < rgs.take(r as int).len() ==> (#[trigger] rgs.take(r as int)[p]).wf());
                    lemma_tbl_bytes_rows(rgs.take(r as int));
                }
                assert(rows_before.len() + rgs[r as int].nrows <= count_cap());
            }
            let rg = &self.row_groups[r];
            if !crate::row_group::rg_prunable(rg, all_preds, from, to, Ghost(q.preds)) {
                rg_accumulate(
                    rg,
                    all_preds,
                    gcols,
                    aggs,
                    window,
                    groups,
                    Ghost(q),
                    Ghost(rows_before),
                );
            } else {
                proof {
                    crate::chunk::lemma_rg_dead(*rg, q, rg.nrows as int);
                    assert(rows_before + rg_rows(*rg, q) =~= rows_before);
                }
            }
            proof {
                assert(prior + table_rows_upto(self.row_groups@, q, r + 1) =~= rows_before
                    + rg_rows(self.row_groups@[r as int], q));
            }
            r += 1;
        }
    }

    /// Appends the projections of this table's surviving rows to `out`.
    pub fn select_into(
        &self,
        all_preds: &Vec<Predicate>,
        cols: &Vec<String>,
        out: &mut Vec<Vec<crate::column::Value>>,
        from: i64,
        to: i64,
        Ghost(preds): Ghost<Seq<Predicate>>,
    )
        requires
            self.wf(),
            time_preds_appended(all_preds@, preds, from, to),
            forall|p: int, c: int|
                0 <= p < self.row_groups@.len() && 0 <= c < cols@.len() ==> has_col(
                    (#[trigger] self.row_groups@[p]).columns@,
                    (#[trigger] cols@[c])@,
                ),
        ensures
            rows_view(final(out)@) == rows_view(old(out)@) + table_sel_rows(
                self.row_groups@,
                preds,
                from,
                to,
                strs(cols@),
            ),
    {
        let n = self.row_groups.len();
        let mut r: usize = 0;
        proof {
            assert(rows_view(out@) =~= rows_view(out@) + table_sel_upto(
                self.row_groups@,
                preds,
                from,
                to,
                strs(cols@),
                0,
            ));
        }
        while r < n
            invariant
                self.wf(),
                n == self.row_groups@.len(),
                time_preds_appended(all_preds@, preds, from, to),
                forall|p: int, c: int|
                    0 <= p < self.row_groups@.len() && 0 <= c < cols@.len() ==> has_col(
                        (#[trigger] self.row_groups@[p]).columns@,
                        (#[trigger] cols@[c])@,
                    ),
                r <= n,
                rows_view(out@) == rows_view(old(out)@) + table_sel_upto(
                    self.row_groups@,
                    preds,
                    from,
                    to,
                    strs(cols@),
                    r as int,
                ),
            decreases n - r,
        {
            let rg = &self.row_groups[r];
            if !crate::row_group::rg_prunable(rg, all_preds, from, to, Ghost(preds)) {
                rg_select(rg, all_preds, cols, out, Ghost(preds), Ghost(from), Ghost(to));
            } else {
                proof {
                    crate::chunk::lemma_rg_dead_sel(
                        *rg,
                        preds,
                        from,
                        to,
                        strs(cols@),
                        rg.nrows as int,
                    );
                }
            }
            proof {
                assert(rows_view(out@) =~= rows_view(old(out)@) + table_sel_upto(
                    self.row_groups@,
                    preds,
                    from,
                    to,
                    strs(cols@),
                    r + 1,
                ));
            }
            r += 1;
        }
    }

    /// Whether any row of this table survives the query.
    pub fn has_survivor(
        &self,
        all_preds: &Vec<Predicate>,
        from: i64,
        to: i64,
        Ghost(preds): Ghost<Seq<Predicate>>,
    ) -> (r: bool)
        requires
            self.wf(),
            time_preds_appended(all_preds@, preds, from, to),
        ensures
            r == table_has_survivor(self.row_groups@, preds, from, to),
    {
        let n = self.row_groups.len();
        let mut r: usize = 0;
        while r < n
            invariant
                self.wf(),
                n == self.row_groups@.len(),
                time_preds_appended(all_preds@, preds, from, to),
                r <= n,
                forall|p: int, i: int|
                    0 <= p < r && 0 <= i < self.row_groups@[p].nrows ==> !(
                    #[trigger] self.row_groups@[p].survives(preds, from, to, i)),
            decreases n - r,
        {
            let rg = &self.row_groups[r];
            if !crate::row_group::rg_prunable(rg, all_preds, from, to, Ghost(preds)) {
                if any_survivor(rg, all_preds, Ghost(preds), Ghost(from), Ghost(to)) {
                    return true;
                }
            }
            r += 1;
        }
        false
    }

    /// Collects the distinct values of tag column `key` over this
    /// table's surviving rows. Row groups lacking the column contribute
    /// nothing.
    pub fn tag_values_into(
        &self,
        all_preds: &Vec<Predicate>,
        key: &String,
        out: &mut Vec<String>,
        from: i64,
        to: i64,
        Ghost(preds): Ghost<Seq<Predicate>>,
    )
        requires
            self.wf(),
            time_preds_appended(all_preds@, preds, from, to),
            strs_distinct(old(out)@),
        ensures
            strs_distinct(final(out)@),
            forall|v: Seq<char>|
                #[trigger] str_in(final(out)@, v) <==> str_in(old(out)@, v) || table_has_tag_value(
                    self.row_groups@,
                    preds,
                    from,
                    to,
                    key@,
                    v,
                ),
    {
        let n = self.row_groups.len();
        let mut r: usize = 0;
        while r < n
            invariant
                self.wf(),
                n == self.row_groups@.len(),
                time_preds_appended(all_preds@, preds, from, to),
                r <= n,
                strs_distinct(out@),
                forall|v: Seq<char>|
                    #[trigger] str_in(out@, v) <==> str_in(old(out)@, v) || exists|p: int|
                        0 <= p < r && rg_has_tag_value(
                            #[trigger] self.row_groups@[p],
                            preds,
                            from,
                            to,
                            key@,
                            v,
                        ),
            decreases n - r,
        {
            let ghost out_pre = out@;
            let rg = &self.row_groups[r];
            if crate::row_group::rg_prunable(rg, all_preds, from, to, Ghost(preds)) {
                proof {
                    assert forall|v: Seq<char>|
                        !rg_has_tag_value(*rg, preds, from, to, key@, v) by {
                        if rg_has_tag_value(*rg, preds, from, to, key@, v) {
                            let p = choose|p: int|
                                0 <= p < rg.nrows && rg.survives(preds, from, to, p)
                                    && crate::row_group::val_at(rg.columns@, key@, p)
                                    == crate::column::Val::Str(v);
                            assert(!rg.survives(preds, from, to, p));
                        }
                    }
                }
            } else {
            match crate::row_group::find_col(&rg.columns, key) {
                Option::Some(_) => {
                    rg_tag_values(rg, all_preds, key, out, Ghost(preds), Ghost(from), Ghost(to));
                },
                Option::None => {
                    proof {
                        // Without the column, no row of this group holds a
                        // string value of it.
                        assert forall|v: Seq<char>|
                            !rg_has_tag_value(*rg, preds, from, to, key@, v) by {
                            assert(crate::row_group::val_at(rg.columns@, key@, 0) == Val::Bool(
                                false,
                            ));
                            assert(forall|i: int|
                                crate::row_group::val_at(rg.columns@, key@, i) == Val::Bool(false));
                        }
                    }
                },
            }
            }
            proof {
                assert forall|v: Seq<char>| #[trigger] str_in(out@, v) implies str_in(old(out)@, v)
                    || exists|p: int|
                    0 <= p < r + 1 && rg_has_tag_value(
                        #[trigger] self.row_groups@[p],
                        preds,
                        from,
                        to,
                        key@,
                        v,
                    ) by {
                    if !str_in(old(out)@, v) {
                        if str_in(out_pre, v) {
                            let p = choose|p: int|
                                0 <= p < r && rg_has_tag_value(
                                    #[trigger] self.row_groups@[p],
                                    preds,
                                    from,
                                    to,
                                    key@,
                                    v,
                                );
                            assert(rg_has_tag_value(self.row_groups@[p], preds, from, to, key@, v));
                        } else {
                            assert(rg_has_tag_value(
                                self.row_groups@[r as int],
                                preds,
                                from,
                                to,
                                key@,
                                v,
                            ));
                        }
                    }
                }
                assert forall|v: Seq<char>|
                    str_in(old(out)@, v) || (exists|p: int|
                        0 <= p < r + 1 && rg_has_tag_value(
                            #[trigger] self.row_groups@[p],
                            preds,
                            from,
                            to,
                            key@,
                            v,
                        )) implies str_in(out@, v) by {
                    if str_in(old(out)@, v) {
                        assert(str_in(out_pre, v));
                    } else {
                        let p = choose|p: int|
                            0 <= p < r + 1 && rg_has_tag_value(
                                #[trigger] self.row_groups@[p],
                                preds,
                                from,
                                to,
                                key@,
                                v,
                            );
                        if p < r {
                            assert(str_in(out_pre, v));
                        }
                    }
                }
            }
            r += 1;
        }
    }
}

} // verus!
