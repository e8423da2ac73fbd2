//! Schema-discovery queries: table names, tag keys and tag values over
//! the rows surviving a predicate set and time range.

use vstd::prelude::*;

use crate::chunk::{chunk_has_survivor, chunk_has_tag_value, has_table, lemma_pruned_chunk, table_idx, Chunk};
use crate::column::{strs, Val};
use crate::database::{mk_aggq, sel_query_ok, Database};
use crate::error::Error;
use crate::row_group::{has_col, Predicate, RowGroup};
use crate::scan::{str_in, strs_distinct};
use crate::table::{table_has_survivor, table_has_tag_value, Table};

verus! {

/// Whether tag (string) column `k` exists in a row group that has at
/// least one surviving row.
pub open spec fn rg_has_tag_key(
    rg: RowGroup,
    preds: Seq<Predicate>,
    from: i64,
    to: i64,
    k: Seq<char>,
) -> bool {
    &&& exists|i: int| 0 <= i < rg.nrows && rg.survives(preds, from, to, i)
    &&& exists|j: int|
        0 <= j < rg.columns@.len() && (#[trigger] rg.columns@[j].name@) == k
            && rg.columns@[j].data is Str
}

/// The same, somewhere among a table's row groups.
pub open spec fn table_has_tag_key(
    rgs: Seq<RowGroup>,
    preds: Seq<Predicate>,
    from: i64,
    to: i64,
    k: Seq<char>,
) -> bool {
    exists|r: int| 0 <= r < rgs.len() && rg_has_tag_key(#[trigger] rgs[r], preds, from, to, k)
}

/// The same, in a chunk's table of the queried name.
pub open spec fn chunk_has_tag_key(
    c: Chunk,
    tname: Seq<char>,
    preds: Seq<Predicate>,
    from: i64,
    to: i64,
    k: Seq<char>,
) -> bool {
    has_table(c.tables@, tname) && table_has_tag_key(
        c.tables@[table_idx(c.tables@, tname)].row_groups@,
        preds,
        from,
        to,
        k,
    )
}

/// Whether some chunk's table `tname` has a surviving row.
pub open spec fn db_has_survivor(
    chunks: Seq<Chunk>,
    tname: Seq<char>,
    preds: Seq<Predicate>,
    from: i64,
    to: i64,
) -> bool {
    exists|ci: int|
        0 <= ci < chunks.len() && chunk_has_survivor(#[trigger] chunks[ci], tname, preds, from, to)
}

/// Whether tag key `k` appears in a surviving row group of some chunk's
/// table `tname`.
pub open spec fn db_has_tag_key(
    chunks: Seq<Chunk>,
    tname: Seq<char>,
    preds: Seq<Predicate>,
    from: i64,
    to: i64,
    k: Seq<char>,
) -> bool {
    exists|ci: int|
        0 <= ci < chunks.len() && chunk_has_tag_key(
            #[trigger] chunks[ci],
            tname,
            preds,
            from,
            to,
            k,
        )
}

/// Whether `v` is a value of tag column `k` in a surviving row of some
/// chunk's table `tname`.
pub open spec fn db_has_tag_value(
    chunks: Seq<Chunk>,
    tname: Seq<char>,
    preds: Seq<Predicate>,
    from: i64,
    to: i64,
    k: Seq<char>,
    v: Seq<char>,
) -> bool {
    exists|ci: int|
        0 <= ci < chunks.len() && chunk_has_tag_value(
            #[trigger] chunks[ci],
            tname,
            preds,
            from,
            to,
            k,
            v,
        )
}

/// Adds `s` to a distinct list unless it is already there.
pub fn insert_distinct(out: &mut Vec<String>, s: String)
    requires
        strs_distinct(old(out)@),
    ensures
        strs_distinct(final(out)@),
        forall|w: Seq<char>|
            #[trigger] str_in(final(out)@, w) <==> str_in(old(out)@, w) || w == s@,
{
    let already = crate::scan::contains_str(out, &s);
    if !already {
        let ghost out0 = out@;
        out.push(s);
        proof {
            assert forall|w: Seq<char>| #[trigger] str_in(out@, w) implies str_in(out0, w) || w
                == out@[out@.len() - 1]@ by {
                let p = choose|p: int| 0 <= p < out@.len() && out@[p]@ == w;
                if p < out0.len() {
                    assert(out0[p]@ == w);
                }
            }
            assert forall|w: Seq<char>| str_in(out0, w) implies str_in(out@, w) by {
                let p = choose|p: int| 0 <= p < out0.len() && out0[p]@ == w;
                assert(out@[p]@ == w);
            }
            assert(str_in(out@, out@[out@.len() - 1]@));
            assert forall|a: int, b: int| 0 <= a < b < out@.len() implies out@[a]@
                != out@[b]@ by {
                if b < out0.len() {
                    assert(out0[a]@ != out0[b]@);
                } else {
                    assert(out0[a]@ == out@[a]@);
                    if out@[a]@ == out@[b]@ {
                        assert(str_in(out0, out@[b]@));
                        assert(false);
                    }
                }
            }
        }
    }
}

/// Collects the tag keys of one row group with a surviving row.
fn rg_tag_keys_into(
    rg: &RowGroup,
    all_preds: &Vec<Predicate>,
    out: &mut Vec<String>,
    from: i64,
    to: i64,
    Ghost(preds): Ghost<Seq<Predicate>>,
)
    requires
        rg.wf(),
        crate::row_group::time_preds_appended(all_preds@, preds, from, to),
        strs_distinct(old(out)@),
    ensures
        strs_distinct(final(out)@),
        forall|k: Seq<char>|
            #[trigger] str_in(final(out)@, k) <==> str_in(old(out)@, k) || rg_has_tag_key(
                *rg,
                preds,
                from,
                to,
                k,
            ),
{
    if crate::row_group::rg_prunable(rg, all_preds, from, to, Ghost(preds)) {
        // The statistics already rule every row out.
        return ;
    }
    let lives = crate::scan::any_survivor(rg, all_preds, Ghost(preds), Ghost(from), Ghost(to));
    if !lives {
        return ;
    }
    let n = rg.columns.len();
    let mut j: usize = 0;
    while j < n
        invariant
            rg.wf(),
            n == rg.columns@.len(),
            exists|i: int| 0 <= i < rg.nrows && rg.survives(preds, from, to, i),
            j <= n,
            strs_distinct(out@),
            forall|k: Seq<char>|
                #[trigger] str_in(out@, k) <==> str_in(old(out)@, k) || exists|p: int|
                    0 <= p < j && (#[trigger] rg.columns@[p].name@) == k
                        && rg.columns@[p].data is Str,
        decreases n - j,
    {
        let ghost out_pre = out@;
        let is_str = matches!(&rg.columns[j].data, crate::column::ColumnData::Str(_));
        if is_str {
            insert_distinct(out, rg.columns[j].name.clone());
        }
        proof {
            assert forall|k: Seq<char>| #[trigger] str_in(out@, k) implies str_in(old(out)@, k)
                || exists|p: int|
                0 <= p < j + 1 && (#[trigger] rg.columns@[p].name@) == k
                    && rg.columns@[p].data is Str by {
                if !str_in(old(out)@, k) {
                    if str_in(out_pre, k) {
                        let p = choose|p: int|
                            0 <= p < j && (#[trigger] rg.columns@[p].name@) == k
                                && rg.columns@[p].data is Str;
                        assert(0 <= p < j + 1 && rg.columns@[p].name@ == k
                            && rg.columns@[p].data is Str);
                    } else {
                        assert(is_str && k == rg.columns@[j as int].name@);
                        assert(rg.columns@[j as int].data is Str);
                    }
                }
            }
            assert forall|k: Seq<char>|
                str_in(old(out)@, k) || (exists|p: int|
                    0 <= p < j + 1 && (#[trigger] rg.columns@[p].name@) == k
                        && rg.columns@[p].data is Str) implies str_in(out@, k) by {
                if str_in(old(out)@, k) {
                    assert(str_in(out_pre, k));
                } else {
                    let p = choose|p: int|
                        0 <= p < j + 1 && (#[trigger] rg.columns@[p].name@) == k
                            && rg.columns@[p].data is Str;
                    if p < j {
                        assert(str_in(out_pre, k));
                    } else {
                        assert(is_str);
                        assert(k == rg.columns@[j as int].name@);
                    }
                }
            }
        }
        j += 1;
    }
}

/// Schema queries are consistent: a tag key is reported for a table
/// exactly when asking for that key's values would return at least one
/// value, and keys never reported have no values.
pub proof fn lemma_rg_tag_keys_values(
    rg: RowGroup,
    preds: Seq<Predicate>,
    from: i64,
    to: i64,
    k: Seq<char>,
)
    requires
        rg.wf(),
    ensures
        rg_has_tag_key(rg, preds, from, to, k) <==> exists|v: Seq<char>|
            crate::scan::rg_has_tag_value(rg, preds, from, to, k, v),
{
    let cols = rg.columns@;
    if rg_has_tag_key(rg, preds, from, to, k) {
        let i = choose|i: int| 0 <= i < rg.nrows && rg.survives(preds, from, to, i);
        let j = choose|j: int|
            0 <= j < cols.len() && (#[trigger] cols[j].name@) == k && cols[j].data is Str;
        assert(has_col(cols, k));
        crate::row_group::lemma_unique_col(cols, j, crate::row_group::col_idx(cols, k));
        let v = match cols[j].data.spec_at(i) {
            Val::Str(v) => v,
            _ => Seq::empty(),
        };
        assert(crate::row_group::val_at(cols, k, i) == Val::Str(v));
        assert(crate::scan::rg_has_tag_value(rg, preds, from, to, k, v)) by {
            assert(0 <= i < rg.nrows && rg.survives(preds, from, to, i)
                && crate::row_group::val_at(cols, k, i) == Val::Str(v));
        }
    }
    if exists|v: Seq<char>| crate::scan::rg_has_tag_value(rg, preds, from, to, k, v) {
        let v = choose|v: Seq<char>| crate::scan::rg_has_tag_value(rg, preds, from, to, k, v);
        let i = choose|i: int|
            0 <= i < rg.nrows && rg.survives(preds, from, to, i) && crate::row_group::val_at(
                cols,
                k,
                i,
            ) == Val::Str(v);
        assert(has_col(cols, k));
        let j = crate::row_group::col_idx(cols, k);
        assert(cols[j].data is Str);
        assert(rg_has_tag_key(rg, preds, from, to, k)) by {
            assert(0 <= i < rg.nrows && rg.survives(preds, from, to, i));
            assert(0 <= j < cols.len() && cols[j].name@ == k && cols[j].data is Str);
        }
    }
}

/// The same consistency across a whole database: `tag_keys` lists `k`
/// exactly when `tag_values` would return some value for `k`.
pub proof fn lemma_db_tag_keys_values(
    chunks: Seq<Chunk>,
    tname: Seq<char>,
    preds: Seq<Predicate>,
    from: i64,
    to: i64,
    k: Seq<char>,
)
    requires
        forall|c: int| 0 <= c < chunks.len() ==> (#[trigger] chunks[c]).wf(),
    ensures
        db_has_tag_key(chunks, tname, preds, from, to, k) <==> exists|v: Seq<char>|
            db_has_tag_value(chunks, tname, preds, from, to, k, v),
{
    if db_has_tag_key(chunks, tname, preds, from, to, k) {
        let ci = choose|ci: int|
            0 <= ci < chunks.len() && chunk_has_tag_key(
                #[trigger] chunks[ci],
                tname,
                preds,
                from,
                to,
                k,
            );
        let c = chunks[ci];
        let rgs = c.tables@[table_idx(c.tables@, tname)].row_groups@;
        let r = choose|r: int|
            0 <= r < rgs.len() && rg_has_tag_key(#[trigger] rgs[r], preds, from, to, k);
        assert(c.wf());
        assert(c.tables@[table_idx(c.tables@, tname)].wf()) by {
            assert(has_table(c.tables@, tname));
        }
        assert(rgs[r].wf());
        lemma_rg_tag_keys_values(rgs[r], preds, from, to, k);
        let v = choose|v: Seq<char>|
            crate::scan::rg_has_tag_value(rgs[r], preds, from, to, k, v);
        assert(table_has_tag_value(rgs, preds, from, to, k, v)) by {
            assert(crate::scan::rg_has_tag_value(rgs[r], preds, from, to, k, v));
        }
        assert(db_has_tag_value(chunks, tname, preds, from, to, k, v)) by {
            assert(chunk_has_tag_value(chunks[ci], tname, preds, from, to, k, v));
        }
    }
    if exists|v: Seq<char>| db_has_tag_value(chunks, tname, preds, from, to, k, v) {
        let v = choose|v: Seq<char>| db_has_tag_value(chunks, tname, preds, from, to, k, v);
        let ci = choose|ci: int|
            0 <= ci < chunks.len() && chunk_has_tag_value(
                #[trigger] chunks[ci],
                tname,
                preds,
                from,
                to,
                k,
                v,
            );
        let c = chunks[ci];
        let rgs = c.tables@[table_idx(c.tables@, tname)].row_groups@;
        let r = choose|r: int|
            0 <= r < rgs.len() && crate::scan::rg_has_tag_value(
                #[trigger] rgs[r],
                preds,
                from,
                to,
                k,
                v,
            );
        assert(c.wf());
        assert(c.tables@[table_idx(c.tables@, tname)].wf()) by {
            assert(has_table(c.tables@, tname));
        }
        assert(rgs[r].wf());
        lemma_rg_tag_keys_values(rgs[r], preds, from, to, k);
        assert(exists|v2: Seq<char>|
            crate::scan::rg_has_tag_value(rgs[r], preds, from, to, k, v2)) by {
            assert(crate::scan::rg_has_tag_value(rgs[r], preds, from, to, k, v));
        }
        assert(table_has_tag_key(rgs, preds, from, to, k)) by {
            assert(rg_has_tag_key(rgs[r], preds, from, to, k));
        }
        assert(db_has_tag_key(chunks, tname, preds, from, to, k)) by {
            assert(chunk_has_tag_key(chunks[ci], tname, preds, from, to, k));
        }
    }
}

/// A pruned chunk contributes nothing to any schema query.
pub proof fn lemma_pruned_chunk_schema(
    c: Chunk,
    tname: Seq<char>,
    preds: Seq<Predicate>,
    from: i64,
    to: i64,
)
    requires
        c.wf(),
        !c.spec_overlaps(from, to),
    ensures
        !chunk_has_survivor(c, tname, preds, from, to),
        forall|k: Seq<char>| !chunk_has_tag_key(c, tname, preds, from, to, k),
        forall|k: Seq<char>, v: Seq<char>| !chunk_has_tag_value(c, tname, preds, from, to, k, v),
{
    let q = mk_aggq(preds, from, to, Seq::empty(), Seq::empty(), 0);
    lemma_pruned_chunk(c, tname, q, Seq::empty(), Seq::empty());
    assert forall|k: Seq<char>| !chunk_has_tag_key(c, tname, preds, from, to, k) by {
        if chunk_has_tag_key(c, tname, preds, from, to, k) {
            let rgs = c.tables@[table_idx(c.tables@, tname)].row_groups@;
            let r = choose|r: int|
                0 <= r < rgs.len() && rg_has_tag_key(#[trigger] rgs[r], preds, from, to, k);
            let i = choose|i: int| 0 <= i < rgs[r].nrows && rgs[r].survives(preds, from, to, i);
            assert(table_has_survivor(rgs, preds, from, to)) by {
                assert(rgs[r].survives(preds, from, to, i));
            }
        }
    }
    assert forall|k: Seq<char>, v: Seq<char>|
        !chunk_has_tag_value(c, tname, preds, from, to, k, v) by {
        if chunk_has_tag_value(c, tname, preds, from, to, k, v) {
            let rgs = c.tables@[table_idx(c.tables@, tname)].row_groups@;
            let r = choose|r: int|
                0 <= r < rgs.len() && crate::scan::rg_has_tag_value(
                    #[trigger] rgs[r],
                    preds,
                    from,
                    to,
                    k,
                    v,
                );
            let i = choose|i: int|
                0 <= i < rgs[r].nrows && rgs[r].survives(preds, from, to, i)
                    && crate::row_group::val_at(rgs[r].columns@, k, i) == Val::Str(v);
            assert(table_has_survivor(rgs, preds, from, to)) by {
                assert(rgs[r].survives(preds, from, to, i));
            }
        }
    }
}

/// Collects the tag keys of one table.
fn table_tag_keys_into(
    tbl: &Table,
    all_preds: &Vec<Predicate>,
    out: &mut Vec<String>,
    from: i64,
    to: i64,
    Ghost(preds): Ghost<Seq<Predicate>>,
)
    requires
        tbl.wf(),
        crate::row_group::time_preds_appended(all_preds@, preds, from, to),
        strs_distinct(old(out)@),
    ensures
        strs_distinct(final(out)@),
        forall|k: Seq<char>|
            #[trigger] str_in(final(out)@, k) <==> str_in(old(out)@, k) || table_has_tag_key(
                tbl.row_groups@,
                preds,
                from,
                to,
                k,
            ),
{
    let n = tbl.row_groups.len();
    let mut r: usize = 0;
    while r < n
        invariant
            tbl.wf(),
            n == tbl.row_groups@.len(),
            crate::row_group::time_preds_appended(all_preds@, preds, from, to),
            r <= n,
            strs_distinct(out@),
            forall|k: Seq<char>|
                #[trigger] str_in(out@, k) <==> str_in(old(out)@, k) || exists|p: int|
                    0 <= p < r && rg_has_tag_key(
                        #[trigger] tbl.row_groups@[p],
                        preds,
                        from,
                        to,
                        k,
                    ),
        decreases n - r,
    {
        let ghost out_pre = out@;
        rg_tag_keys_into(&tbl.row_groups[r], all_preds, out, from, to, Ghost(preds));
        proof {
            assert forall|k: Seq<char>| #[trigger] str_in(out@, k) implies str_in(old(out)@, k)
                || exists|p: int|
                0 <= p < r + 1 && rg_has_tag_key(
                    #[trigger] tbl.row_groups@[p],
                    preds,
                    from,
                    to,
                    k,
                ) by {
                if !str_in(old(out)@, k) {
                    if str_in(out_pre, k) {
                        let p = choose|p: int|
                            0 <= p < r && rg_has_tag_key(
                                #[trigger] tbl.row_groups@[p],
                                preds,
                                from,
                                to,
                                k,
                            );
                        assert(rg_has_tag_key(tbl.row_groups@[p], preds, from, to, k));
                    } else {
                        assert(rg_has_tag_key(tbl.row_groups@[r as int], preds, from, to, k));
                    }
                }
            }
            assert forall|k: Seq<char>|
                str_in(old(out)@, k) || (exists|p: int|
                    0 <= p < r + 1 && rg_has_tag_key(
                        #[trigger] tbl.row_groups@[p],
                        preds,
                        from,
                        to,
                        k,
                    )) implies str_in(out@, k) by {
                if str_in(old(out)@, k) {
                    assert(str_in(out_pre, k));
                } else {
                    let p = choose|p: int|
                        0 <= p < r + 1 && rg_has_tag_key(
                            #[trigger] tbl.row_groups@[p],
                            preds,
                            from,
                            to,
                            k,
                        );
                    if p < r {
                        assert(str_in(out_pre, k));
                    }
                }
            }
        }
        r += 1;
    }
}

impl Database {
    /// The distinct names of tables holding at least one row that
    /// satisfies the predicates inside the time range. Predicates naming
    /// columns a table lacks simply match no row of it.
    pub fn table_names(
        &self,
        time_range: (i64, i64),
        predicates: &Vec<Predicate>,
    ) -> (r: Vec<String>)
        requires
            self.wf(),
        ensures
            strs_distinct(r@),
            forall|n: Seq<char>|
                #[trigger] str_in(r@, n) <==> db_has_survivor(
                    self.chunks@,
                    n,
                    predicates@,
                    time_range.0,
                    time_range.1,
                ),
    {
        let from = time_range.0;
        let to = time_range.1;
        let all_preds = crate::database::build_all_preds(predicates, from, to);
        let mut out: Vec<String> = Vec::new();
        let nc = self.chunks.len();
        let mut ci: usize = 0;
        while ci < nc
            invariant
                self.wf(),
                nc == self.chunks@.len(),
                crate::row_group::time_preds_appended(all_preds@, predicates@, from, to),
                from == time_range.0,
                to == time_range.1,
                ci <= nc,
                strs_distinct(out@),
                forall|n: Seq<char>|
                    #[trigger] str_in(out@, n) <==> exists|c: int|
                        0 <= c < ci && chunk_has_survivor(
                            #[trigger] self.chunks@[c],
                            n,
                            predicates@,
                            from,
                            to,
                        ),
            decreases nc - ci,
        {
            let ghost out_chunk_pre = out@;
            let c = &self.chunks[ci];
            if c.overlaps(from, to) {
                let nt = c.tables.len();
                let mut t: usize = 0;
                while t < nt
                    invariant
                        self.wf(),
                        ci < nc,
                        nc == self.chunks@.len(),
                        nt == self.chunks@[ci as int].tables@.len(),
                        c == &self.chunks[ci as int],
                        c.wf(),
                        crate::row_group::time_preds_appended(all_preds@, predicates@, from, to),
                        t <= nt,
                        strs_distinct(out@),
                        forall|n: Seq<char>|
                            #[trigger] str_in(out@, n) <==> str_in(out_chunk_pre, n) || exists|
                                p: int,
                            |
                                0 <= p < t && (#[trigger] c.tables@[p].name@) == n
                                    && table_has_survivor(
                                    c.tables@[p].row_groups@,
                                    predicates@,
                                    from,
                                    to,
                                ),
                        forall|n: Seq<char>|
                            str_in(out_chunk_pre, n) ==> str_in(out@, n),
                    decreases nt - t,
                {
                    let ghost out_pre = out@;
                    let tbl = &c.tables[t];
                    let lives = tbl.has_survivor(&all_preds, from, to, Ghost(predicates@));
                    if lives {
                        insert_distinct(&mut out, tbl.name.clone());
                    }
                    proof {
                        assert forall|n: Seq<char>| #[trigger] str_in(out@, n) implies str_in(
                            out_chunk_pre,
                            n,
                        ) || exists|p: int|
                            0 <= p < t + 1 && (#[trigger] c.tables@[p].name@) == n
                                && table_has_survivor(
                                c.tables@[p].row_groups@,
                                predicates@,
                                from,
                                to,
                            ) by {
                            if !str_in(out_chunk_pre, n) {
                                if str_in(out_pre, n) {
                                    let p = choose|p: int|
                                        0 <= p < t && (#[trigger] c.tables@[p].name@) == n
                                            && table_has_survivor(
                                            c.tables@[p].row_groups@,
                                            predicates@,
                                            from,
                                            to,
                                        );
                                    assert(c.tables@[p].name@ == n && table_has_survivor(
                                        c.tables@[p].row_groups@,
                                        predicates@,
                                        from,
                                        to,
                                    ));
                                } else {
                                    assert(lives && n == c.tables@[t as int].name@);
                                    assert(table_has_survivor(
                                        c.tables@[t as int].row_groups@,
                                        predicates@,
                                        from,
                                        to,
                                    ));
                                }
                            }
                        }
                        assert forall|n: Seq<char>|
                            str_in(out_chunk_pre, n) || (exists|p: int|
                                0 <= p < t + 1 && (#[trigger] c.tables@[p].name@) == n
                                    && table_has_survivor(
                                    c.tables@[p].row_groups@,
                                    predicates@,
                                    from,
                                    to,
                                )) implies str_in(out@, n) by {
                            if str_in(out_chunk_pre, n) {
                                assert(str_in(out_pre, n));
                            } else {
                                let p = choose|p: int|
                                    0 <= p < t + 1 && (#[trigger] c.tables@[p].name@) == n
                                        && table_has_survivor(
                                        c.tables@[p].row_groups@,
                                        predicates@,
                                        from,
                                        to,
                                    );
                                if p < t {
                                    assert(str_in(out_pre, n));
                                } else {
                                    assert(lives);
                                }
                            }
                        }
                    }
                    t += 1;
                }
                proof {
                    // A name found in this chunk is a name with a
                    // surviving table, and conversely.
                    assert forall|n: Seq<char>| #[trigger] str_in(out@, n) implies (exists|c2: int|
                        0 <= c2 < ci + 1 && chunk_has_survivor(
                            #[trigger] self.chunks@[c2],
                            n,
                            predicates@,
                            from,
                            to,
                        )) by {
                        if str_in(out_chunk_pre, n) {
                            let c2 = choose|c2: int|
                                0 <= c2 < ci && chunk_has_survivor(
                                    #[trigger] self.chunks@[c2],
                                    n,
                                    predicates@,
                                    from,
                                    to,
                                );
                            assert(chunk_has_survivor(self.chunks@[c2], n, predicates@, from, to));
                        } else {
                            let p = choose|p: int|
                                0 <= p < nt && (#[trigger] c.tables@[p].name@) == n
                                    && table_has_survivor(
                                    c.tables@[p].row_groups@,
                                    predicates@,
                                    from,
                                    to,
                                );
                            assert(has_table(c.tables@, n));
                            crate::table::lemma_unique_table(
                                c.tables@,
                                table_idx(c.tables@, n),
                                p,
                            );
                            assert(chunk_has_survivor(
                                self.chunks@[ci as int],
                                n,
                                predicates@,
                                from,
                                to,
                            ));
                        }
                    }
                    assert forall|n: Seq<char>|
                        (exists|c2: int|
                            0 <= c2 < ci + 1 && chunk_has_survivor(
                                #[trigger] self.chunks@[c2],
                                n,
                                predicates@,
                                from,
                                to,
                            )) implies str_in(out@, n) by {
                        let c2 = choose|c2: int|
                            0 <= c2 < ci + 1 && chunk_has_survivor(
                                #[trigger] self.chunks@[c2],
                                n,
                                predicates@,
                                from,
                                to,
                            );
                        if c2 < ci {
                            assert(str_in(out_chunk_pre, n));
                        } else {
                            let tix = table_idx(c.tables@, n);
                            assert(has_table(c.tables@, n));
                            assert(0 <= tix < c.tables@.len() && c.tables@[tix].name@ == n);
                            assert(table_has_survivor(
                                c.tables@[tix].row_groups@,
                                predicates@,
                                from,
                                to,
                            ));
                        }
                    }
                }
            } else {
                proof {
                    assert(self.chunks@[ci as int].wf());
                    assert forall|n: Seq<char>| #[trigger] str_in(out@, n) <==> (exists|c2: int|
                        0 <= c2 < ci + 1 && chunk_has_survivor(
                            #[trigger] self.chunks@[c2],
                            n,
                            predicates@,
                            from,
                            to,
                        )) by {
                        lemma_pruned_chunk_schema(
                            self.chunks@[ci as int],
                            n,
                            predicates@,
                            from,
                            to,
                        );
                        if str_in(out@, n) {
                            let c2 = choose|c2: int|
                                0 <= c2 < ci && chunk_has_survivor(
                                    #[trigger] self.chunks@[c2],
                                    n,
                                    predicates@,
                                    from,
                                    to,
                                );
                            assert(chunk_has_survivor(self.chunks@[c2], n, predicates@, from, to));
                        } else {
                            if exists|c2: int|
                                0 <= c2 < ci + 1 && chunk_has_survivor(
                                    #[trigger] self.chunks@[c2],
                                    n,
                                    predicates@,
                                    from,
                                    to,
                                ) {
                                let c2 = choose|c2: int|
                                    0 <= c2 < ci + 1 && chunk_has_survivor(
                                        #[trigger] self.chunks@[c2],
                                        n,
                                        predicates@,
                                        from,
                                        to,
                                    );
                                assert(c2 < ci);
                                assert(chunk_has_survivor(
                                    self.chunks@[c2],
                                    n,
                                    predicates@,
                                    from,
                                    to,
                                ));
                            }
                        }
                    }
                }
            }
            ci += 1;
        }
        out
    }
}

impl Database {
    /// Collects the distinct tag keys of table `tname` over candidate
    /// chunks.
    fn tag_keys_core(
        &self,
        tn: &String,
        all_preds: &Vec<Predicate>,
        from: i64,
        to: i64,
        Ghost(preds): Ghost<Seq<Predicate>>,
    ) -> (r: Vec<String>)
        requires
            self.wf(),
            crate::row_group::time_preds_appended(all_preds@, preds, from, to),
        ensures
            strs_distinct(r@),
            forall|k: Seq<char>|
                #[trigger] str_in(r@, k) <==> db_has_tag_key(self.chunks@, tn@, preds, from, to, k),
    {
        let mut out: Vec<String> = Vec::new();
        let nc = self.chunks.len();
        let mut ci: usize = 0;
        while ci < nc
            invariant
                self.wf(),
                nc == self.chunks@.len(),
                crate::row_group::time_preds_appended(all_preds@, preds, from, to),
                ci <= nc,
                strs_distinct(out@),
                forall|k: Seq<char>|
                    #[trigger] str_in(out@, k) <==> exists|c: int|
                        0 <= c < ci && chunk_has_tag_key(
                            #[trigger] self.chunks@[c],
                            tn@,
                            preds,
                            from,
                            to,
                            k,
                        ),
            decreases nc - ci,
        {
            let ghost out_pre = out@;
            let c = &self.chunks[ci];
            if c.overlaps(from, to) {
                match crate::database::find_table(&c.tables, tn) {
                    Option::Some(ti) => {
                        proof {
                            assert(has_table(c.tables@, tn@));
                            assert(c.wf());
                            crate::table::lemma_unique_table(
                                c.tables@,
                                table_idx(c.tables@, tn@),
                                ti as int,
                            );
                        }
                        table_tag_keys_into(
                            &c.tables[ti],
                            all_preds,
                            &mut out,
                            from,
                            to,
                            Ghost(preds),
                        );
                    },
                    Option::None => {
                        proof {
                            assert(forall|k: Seq<char>|
                                !chunk_has_tag_key(
                                    self.chunks@[ci as int],
                                    tn@,
                                    preds,
                                    from,
                                    to,
                                    k,
                                ));
                        }
                    },
                }
            } else {
                proof {
                    assert(self.chunks@[ci as int].wf());
                    assert forall|k: Seq<char>|
                        !chunk_has_tag_key(self.chunks@[ci as int], tn@, preds, from, to, k) by {
                        lemma_pruned_chunk_schema(self.chunks@[ci as int], tn@, preds, from, to);
                    }
                }
            }
            proof {
                assert forall|k: Seq<char>| #[trigger] str_in(out@, k) implies (exists|c2: int|
                    0 <= c2 < ci + 1 && chunk_has_tag_key(
                        #[trigger] self.chunks@[c2],
                        tn@,
                        preds,
                        from,
                        to,
                        k,
                    )) by {
                    if str_in(out_pre, k) {
                        let c2 = choose|c2: int|
                            0 <= c2 < ci && chunk_has_tag_key(
                                #[trigger] self.chunks@[c2],
                                tn@,
                                preds,
                                from,
                                to,
                                k,
                            );
                        assert(chunk_has_tag_key(self.chunks@[c2], tn@, preds, from, to, k));
                    } else {
                        assert(chunk_has_tag_key(
                            self.chunks@[ci as int],
                            tn@,
                            preds,
                            from,
                            to,
                            k,
                        ));
                    }
                }
                assert forall|k: Seq<char>|
                    (exists|c2: int|
                        0 <= c2 < ci + 1 && chunk_has_tag_key(
                            #[trigger] self.chunks@[c2],
                            tn@,
                            preds,
                            from,
                            to,
                            k,
                        )) implies str_in(out@, k) by {
                    let c2 = choose|c2: int|
                        0 <= c2 < ci + 1 && chunk_has_tag_key(
                            #[trigger] self.chunks@[c2],
                            tn@,
                            preds,
                            from,
                            to,
                            k,
                        );
                    if c2 < ci {
                        assert(str_in(out_pre, k));
                    }
                }
            }
            ci += 1;
        }
        out
    }

    /// The distinct tag (string) column names of table `table_name` that
    /// appear in at least one row group with a surviving row. A
    /// predicate that does not fit the table's schema is an error.
    pub fn tag_keys(
        &self,
        table_name: &str,
        time_range: (i64, i64),
        predicates: &Vec<Predicate>,
    ) -> (r: Result<Vec<String>, Error>)
        requires
            self.wf(),
        ensures
            match r {
                Result::Ok(keys) => {
                    &&& sel_query_ok(self.chunks@, table_name@, predicates@, Seq::empty())
                    &&& strs_distinct(keys@)
                    &&& forall|k: Seq<char>|
                        #[trigger] str_in(keys@, k) <==> db_has_tag_key(
                            self.chunks@,
                            table_name@,
                            predicates@,
                            time_range.0,
                            time_range.1,
                            k,
                        )
                },
                Result::Err(e) => {
                    &&& e == Error::SchemaMismatch
                    &&& !sel_query_ok(self.chunks@, table_name@, predicates@, Seq::empty())
                },
            },
    {
        let tn: String = table_name.to_owned();
        let nocols: Vec<String> = Vec::new();
        if !self.validate_sel(&tn, predicates, &nocols) {
            proof {
                assert(strs(nocols@) =~= Seq::<Seq<char>>::empty());
            }
            return Result::Err(Error::SchemaMismatch);
        }
        proof {
            assert(strs(nocols@) =~= Seq::<Seq<char>>::empty());
        }
        let from = time_range.0;
        let to = time_range.1;
        let all_preds = crate::database::build_all_preds(predicates, from, to);
        Result::Ok(self.tag_keys_core(&tn, &all_preds, from, to, Ghost(predicates@)))
    }

    /// Collects the distinct values of tag column `key` over candidate
    /// chunks' table `tname`.
    fn tag_values_core(
        &self,
        tn: &String,
        key: &String,
        all_preds: &Vec<Predicate>,
        from: i64,
        to: i64,
        Ghost(preds): Ghost<Seq<Predicate>>,
    ) -> (r: Vec<String>)
        requires
            self.wf(),
            crate::row_group::time_preds_appended(all_preds@, preds, from, to),
        ensures
            strs_distinct(r@),
            forall|v: Seq<char>|
                #[trigger] str_in(r@, v) <==> db_has_tag_value(
                    self.chunks@,
                    tn@,
                    preds,
                    from,
                    to,
                    key@,
                    v,
                ),
    {
        let mut out: Vec<String> = Vec::new();
        let nc = self.chunks.len();
        let mut ci: usize = 0;
        while ci < nc
            invariant
                self.wf(),
                nc == self.chunks@.len(),
                crate::row_group::time_preds_appended(all_preds@, preds, from, to),
                ci <= nc,
                strs_distinct(out@),
                forall|v: Seq<char>|
                    #[trigger] str_in(out@, v) <==> exists|c: int|
                        0 <= c < ci && chunk_has_tag_value(
                            #[trigger] self.chunks@[c],
                            tn@,
                            preds,
                            from,
                            to,
                            key@,
                            v,
                        ),
            decreases nc - ci,
        {
            let ghost out_pre = out@;
            let c = &self.chunks[ci];
            if c.overlaps(from, to) {
                match crate::database::find_table(&c.tables, tn) {
                    Option::Some(ti) => {
                        proof {
                            assert(has_table(c.tables@, tn@));
                            assert(c.wf());
                            crate::table::lemma_unique_table(
                                c.tables@,
                                table_idx(c.tables@, tn@),
                                ti as int,
                            );
                        }
                        c.tables[ti].tag_values_into(
                            all_preds,
                            key,
                            &mut out,
                            from,
                            to,
                            Ghost(preds),
                        );
                    },
                    Option::None => {
                        proof {
                            assert(forall|v: Seq<char>|
                                !chunk_has_tag_value(
                                    self.chunks@[ci as int],
                                    tn@,
                                    preds,
                                    from,
                                    to,
                                    key@,
                                    v,
                                ));
                        }
                    },
                }
            } else {
                proof {
                    assert(self.chunks@[ci as int].wf());
                    assert forall|v: Seq<char>|
                        !chunk_has_tag_value(
                            self.chunks@[ci as int],
                            tn@,
                            preds,
                            from,
                            to,
                            key@,
                            v,
                        ) by {
                        lemma_pruned_chunk_schema(self.chunks@[ci as int], tn@, preds, from, to);
                    }
                }
            }
            proof {
                assert forall|v: Seq<char>| #[trigger] str_in(out@, v) implies (exists|c2: int|
                    0 <= c2 < ci + 1 && chunk_has_tag_value(
                        #[trigger] self.chunks@[c2],
                        tn@,
                        preds,
                        from,
                        to,
                        key@,
                        v,
                    )) by {
                    if str_in(out_pre, v) {
                        let c2 = choose|c2: int|
                            0 <= c2 < ci && chunk_has_tag_value(
                                #[trigger] self.chunks@[c2],
                                tn@,
                                preds,
                                from,
                                to,
                                key@,
                                v,
                            );
                        assert(chunk_has_tag_value(
                            self.chunks@[c2],
                            tn@,
                            preds,
                            from,
                            to,
                            key@,
                            v,
                        ));
                    } else {
                        assert(chunk_has_tag_value(
                            self.chunks@[ci as int],
                            tn@,
                            preds,
                            from,
                            to,
                            key@,
                            v,
                        ));
                    }
                }
                assert forall|v: Seq<char>|
                    (exists|c2: int|
                        0 <= c2 < ci + 1 && chunk_has_tag_value(
                            #[trigger] self.chunks@[c2],
                            tn@,
                            preds,
                            from,
                            to,
                            key@,
                            v,
                        )) implies str_in(out@, v) by {
                    let c2 = choose|c2: int|
                        0 <= c2 < ci + 1 && chunk_has_tag_value(
                            #[trigger] self.chunks@[c2],
                            tn@,
                            preds,
                            from,
                            to,
                            key@,
                            v,
                        );
                    if c2 < ci {
                        assert(str_in(out_pre, v));
                    }
                }
            }
            ci += 1;
        }
        out
    }

    /// What a successful `tag_values` answer satisfies: exact value sets
    /// per listed key; the keys are the requested ones, or, on an empty
    /// request, exactly the tag keys present.
    pub open spec fn tag_values_post(
        &self,
        tname: Seq<char>,
        preds: Seq<Predicate>,
        from: i64,
        to: i64,
        req: Seq<String>,
        pairs: Seq<(String, Vec<String>)>,
    ) -> bool {
        &&& forall|i: int, v: Seq<char>|
            0 <= i < pairs.len() ==> (#[trigger] str_in(pairs[i].1@, v) <==> db_has_tag_value(
                self.chunks@,
                tname,
                preds,
                from,
                to,
                pairs[i].0@,
                v,
            ))
        &&& forall|i: int| 0 <= i < pairs.len() ==> strs_distinct(#[trigger] pairs[i].1@)
        &&& req.len() > 0 ==> pairs.len() == req.len() && forall|i: int|
            0 <= i < pairs.len() ==> (#[trigger] pairs[i].0@) == req[i]@
        &&& req.len() == 0 ==> forall|k: Seq<char>|
            (exists|i: int| 0 <= i < pairs.len() && (#[trigger] pairs[i].0@) == k)
                <==> db_has_tag_key(self.chunks@, tname, preds, from, to, k)
    }

    /// The distinct values of each requested tag key appearing in rows
    /// of table `table_name` that survive the predicates and time range.
    /// An empty request asks for every tag key present. A predicate that
    /// does not fit the table's schema is an error.
    #[verifier::rlimit(100)]
    pub fn tag_values(
        &self,
        table_name: &str,
        time_range: (i64, i64),
        predicates: &Vec<Predicate>,
        tag_keys: &Vec<String>,
    ) -> (r: Result<Vec<(String, Vec<String>)>, Error>)
        requires
            self.wf(),
        ensures
            match r {
                Result::Ok(pairs) => {
                    &&& sel_query_ok(self.chunks@, table_name@, predicates@, Seq::empty())
                    &&& self.tag_values_post(
                        table_name@,
                        predicates@,
                        time_range.0,
                        time_range.1,
                        tag_keys@,
                        pairs@,
                    )
                },
                Result::Err(e) => {
                    &&& e == Error::SchemaMismatch
                    &&& !sel_query_ok(self.chunks@, table_name@, predicates@, Seq::empty())
                },
            },
    {
        let tn: String = table_name.to_owned();
        let nocols: Vec<String> = Vec::new();
        if !self.validate_sel(&tn, predicates, &nocols) {
            proof {
                assert(strs(nocols@) =~= Seq::<Seq<char>>::empty());
            }
            return Result::Err(Error::SchemaMismatch);
        }
        proof {
            assert(strs(nocols@) =~= Seq::<Seq<char>>::empty());
        }
        let from = time_range.0;
        let to = time_range.1;
        let all_preds = crate::database::build_all_preds(predicates, from, to);
        let keys: Vec<String> = if tag_keys.len() > 0 {
            crate::scan::clone_strings(tag_keys)
        } else {
            self.tag_keys_core(&tn, &all_preds, from, to, Ghost(predicates@))
        };
        let nk = keys.len();
        let mut pairs: Vec<(String, Vec<String>)> = Vec::new();
        let mut i: usize = 0;
        while i < nk
            invariant
                self.wf(),
                nk == keys@.len(),
                crate::row_group::time_preds_appended(all_preds@, predicates@, from, to),
                from == time_range.0,
                to == time_range.1,
                tn@ == table_name@,
                i <= nk,
                pairs@.len() == i,
                forall|p: int| 0 <= p < i ==> (#[trigger] pairs@[p].0@) == keys@[p]@,
                forall|p: int, v: Seq<char>|
                    0 <= p < i ==> (#[trigger] str_in(pairs@[p].1@, v) <==> db_has_tag_value(
                        self.chunks@,
                        tn@,
                        predicates@,
                        from,
                        to,
                        pairs@[p].0@,
                        v,
                    )),
                forall|p: int| 0 <= p < i ==> strs_distinct(#[trigger] pairs@[p].1@),
                tag_keys@.len() == 0 ==> forall|k: Seq<char>|
                    #[trigger] str_in(keys@, k) <==> db_has_tag_key(
                        self.chunks@,
                        tn@,
                        predicates@,
                        from,
                        to,
                        k,
                    ),
            decreases nk - i,
        {
            let key = keys[i].clone();
            let vals = self.tag_values_core(
                &tn,
                &key,
                &all_preds,
                from,
                to,
                Ghost(predicates@),
            );
            let ghost pairs0 = pairs@;
            pairs.push((key, vals));
            proof {
                assert(pairs@.len() == i + 1);
                assert(forall|p: int| 0 <= p < i ==> pairs@[p] == pairs0[p]);
                assert(pairs@[i as int].0@ == keys@[i as int]@);
                assert forall|p: int| 0 <= p < i + 1 implies (#[trigger] pairs@[p].0@)
                    == keys@[p]@ by {
                    if p < i {
                        assert(pairs@[p] == pairs0[p]);
                    }
                }
            }
            i += 1;
        }
        proof {
            assert(tn@ == table_name@ && from == time_range.0 && to == time_range.1);
            if tag_keys@.len() == 0 {
                assert forall|k: Seq<char>|
                    (exists|p: int| 0 <= p < pairs@.len() && (#[trigger] pairs@[p].0@) == k)
                        implies db_has_tag_key(
                    self.chunks@,
                    tn@,
                    predicates@,
                    from,
                    to,
                    k,
                ) by {
                    let p = choose|p: int|
                        0 <= p < pairs@.len() && (#[trigger] pairs@[p].0@) == k;
                    assert(str_in(keys@, k)) by {
                        assert(keys@[p]@ == k);
                    }
                }
                assert forall|k: Seq<char>|
                    db_has_tag_key(self.chunks@, tn@, predicates@, from, to, k) implies (exists|
                        p: int,
                    |
                        0 <= p < pairs@.len() && (#[trigger] pairs@[p].0@) == k) by {
                    assert(str_in(keys@, k));
                    let p = choose|p: int| 0 <= p < keys@.len() && (#[trigger] keys@[p]@) == k;
                    assert(pairs@[p].0@ == k);
                }
            }
            assert(self.tag_values_post(
                table_name@,
                predicates@,
                time_range.0,
                time_range.1,
                tag_keys@,
                pairs@,
            ));
        }
        Result::Ok(pairs)
    }
}


} // verus!
