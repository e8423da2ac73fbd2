//! The grouped-aggregation scan over one row group, and the ghost model
//! of a grouped query: the flattened sequence of surviving rows that
//! every aggregate is defined over.

use vstd::prelude::*;

use crate::agg::{
    acc_init, acc_merge, acc_step, agg_result_ok, count_cap, gid, grp_count, grp_first, grp_last,
    grp_max, grp_min, grp_sum, key_present, lemma_agg_push, lemma_grp_absent,
    lemma_grp_count_le_len, lemma_grp_sum_bound, spec_agg, AggResult, AggV, AggregateType, GRow,
};
use crate::column::{strs, type_of_val, val_of, Val, Value};
use crate::row_group::{
    check_row, col_idx, has_col, lemma_time_preds, lemma_unique_col, time_preds_appended,
    Predicate, RowGroup,
};

verus! {

/// The resolved shape of a grouped query, as contracts speak of it.
pub struct AggQuery {
    /// The caller's predicates (the time range is separate).
    pub preds: Seq<Predicate>,
    /// Half-open time range `[from, to)`.
    pub from: i64,
    pub to: i64,
    /// Names of the group (tag) columns.
    pub gcols: Seq<Seq<char>>,
    /// Names of the aggregated columns, one per requested aggregate.
    pub acols: Seq<Seq<char>>,
    /// Window width; zero when the query is not windowed.
    pub window: int,
}

/// The string inside a string value; irrelevant (empty) otherwise.
pub open spec fn str_of(v: Val) -> Seq<char> {
    match v {
        Val::Str(s) => s,
        _ => Seq::empty(),
    }
}

/// The names of the aggregated columns.
pub open spec fn agg_names(s: Seq<(String, AggregateType)>) -> Seq<Seq<char>> {
    s.map_values(|p: (String, AggregateType)| p.0@)
}

/// The window bucket containing time `t`: the largest multiple of
/// `window` not above `t`.
pub open spec fn spec_window_start(t: i64, window: int) -> int {
    t - (t as int % window)
}

/// Row `i` of `rg`, abstracted for aggregation: group key, window
/// bucket, timestamp, and the aggregated columns' values.
pub open spec fn grow(rg: RowGroup, q: AggQuery, i: int) -> GRow {
    GRow {
        key: q.gcols.map_values(|c: Seq<char>| str_of(crate::row_group::val_at(rg.columns@, c, i))),
        wstart: if q.window > 0 {
            spec_window_start(rg.time_at(i), q.window)
        } else {
            0
        },
        time: rg.time_at(i),
        vals: q.acols.map_values(|c: Seq<char>| crate::row_group::val_at(rg.columns@, c, i)),
    }
}

/// The surviving rows of `rg` among the first `i`, in row order.
pub open spec fn rg_rows_upto(rg: RowGroup, q: AggQuery, i: int) -> Seq<GRow>
    decreases i,
{
    if i <= 0 {
        Seq::empty()
    } else {
        let rest = rg_rows_upto(rg, q, i - 1);
        if rg.survives(q.preds, q.from, q.to, i - 1) {
            rest.push(grow(rg, q, i - 1))
        } else {
            rest
        }
    }
}

/// All surviving rows of `rg`.
pub open spec fn rg_rows(rg: RowGroup, q: AggQuery) -> Seq<GRow> {
    rg_rows_upto(rg, q, rg.nrows as int)
}

pub proof fn lemma_rg_rows_len(rg: RowGroup, q: AggQuery, i: int)
    ensures
        rg_rows_upto(rg, q, i).len() <= if i >= 0 {
            i
        } else {
            0
        },
    decreases i,
{
    if i > 0 {
        lemma_rg_rows_len(rg, q, i - 1);
    }
}

/// Whether a predicate is well-typed against a schema: it names an
/// existing column, the literal's type matches the column's, and a range
/// comparison is only asked of an integer column.
pub open spec fn pred_valid(cols: Seq<crate::column::Column>, p: Predicate) -> bool {
    exists|j: int|
        0 <= j < cols.len() && (#[trigger] cols[j].name@) == p.column@ && cols[j].data.spec_type()
            == type_of_val(val_of(p.value)) && ((p.op is GT || p.op is GTE || p.op is LT
            || p.op is LTE) ==> cols[j].data is I64)
}

/// Whether `name` may serve as a group column: it exists and is a tag
/// (string) column.
pub open spec fn gcol_valid(cols: Seq<crate::column::Column>, name: Seq<char>) -> bool {
    exists|j: int|
        0 <= j < cols.len() && (#[trigger] cols[j].name@) == name && cols[j].data is Str
}

/// Whether `name` may serve as the column of aggregate `a`: it exists,
/// and Sum, Min and Max are only asked of integer columns.
pub open spec fn acol_valid(
    cols: Seq<crate::column::Column>,
    name: Seq<char>,
    a: AggregateType,
) -> bool {
    exists|j: int|
        0 <= j < cols.len() && (#[trigger] cols[j].name@) == name && ((a is Sum || a is Min
            || a is Max) ==> cols[j].data is I64)
}

/// One partially aggregated group.
#[derive(Debug)]
pub struct GroupedRow {
    pub key: Vec<String>,
    pub wstart: i128,
    pub accs: Vec<AggResult>,
}

/// The identity of the group an accumulator stands for.
pub open spec fn gid_of(e: GroupedRow) -> (Seq<Seq<char>>, int) {
    (strs(e.key@), e.wstart as int)
}

/// The grouping invariant: `groups` holds exactly the group identities
/// occurring in `rows`, each once, and each accumulator represents the
/// mathematical aggregate of its group over `rows`.
pub open spec fn groups_inv(
    groups: Seq<GroupedRow>,
    rows: Seq<GRow>,
    aggs: Seq<(String, AggregateType)>,
) -> bool {
    &&& forall|a: int, b: int| 0 <= a < b < groups.len() ==> gid_of(groups[a]) != gid_of(groups[b])
    &&& forall|e: int| 0 <= e < groups.len() ==> key_present(rows, gid_of(#[trigger] groups[e]))
    &&& forall|r: int|
        0 <= r < rows.len() ==> exists|e: int|
            0 <= e < groups.len() && gid_of(groups[e]) == gid(#[trigger] rows[r])
    &&& forall|e: int| 0 <= e < groups.len() ==> (#[trigger] groups[e].accs@.len()) == aggs.len()
    &&& forall|e: int, j: int|
        0 <= e < groups.len() && 0 <= j < aggs.len() ==> agg_result_ok(
            #[trigger] groups[e].accs@[j],
            spec_agg(aggs[j].1, rows, gid_of(groups[e]), j),
        )
}

/// Compares two key tuples.
pub fn keys_eq(a: &Vec<String>, b: &Vec<String>) -> (r: bool)
    ensures
        r == (strs(a@) == strs(b@)),
{
    if a.len() != b.len() {
        assert(strs(a@).len() != strs(b@).len());
        return false;
    }
    let n = a.len();
    let mut i: usize = 0;
    while i < n
        invariant
            n == a@.len(),
            n == b@.len(),
            i <= n,
            forall|p: int| 0 <= p < i ==> (#[trigger] a@[p]@) == b@[p]@,
        decreases n - i,
    {
        if !(a[i] == b[i]) {
            assert(strs(a@)[i as int] != strs(b@)[i as int]);
            return false;
        }
        i += 1;
    }
    assert(strs(a@) =~= strs(b@));
    true
}

/// Finds the accumulator of the group identified by `key` and `ws`.
pub fn find_group(groups: &Vec<GroupedRow>, key: &Vec<String>, ws: i128) -> (r: Option<usize>)
    ensures
        match r {
            Option::Some(g) => g < groups@.len() && gid_of(groups@[g as int]) == (
                strs(key@),
                ws as int,
            ),
            Option::None => forall|e: int|
                0 <= e < groups@.len() ==> gid_of(#[trigger] groups@[e]) != (strs(key@), ws as int),
        },
{
    let n = groups.len();
    let mut g: usize = 0;
    while g < n
        invariant
            n == groups@.len(),
            g <= n,
            forall|e: int| 0 <= e < g ==> gid_of(#[trigger] groups@[e]) != (strs(key@), ws as int),
        decreases n - g,
    {
        if groups[g].wstart == ws {
            if keys_eq(&groups[g].key, key) {
                return Option::Some(g);
            }
        }
        g += 1;
    }
    Option::None
}

/// Projects the group columns of row `i` into a key tuple.
pub fn project_key(rg: &RowGroup, gcols: &Vec<String>, i: usize, Ghost(q): Ghost<AggQuery>) -> (r:
    Vec<String>)
    requires
        rg.wf(),
        i < rg.nrows,
        q.gcols == strs(gcols@),
        forall|g: int| 0 <= g < q.gcols.len() ==> gcol_valid(rg.columns@, #[trigger] q.gcols[g]),
    ensures
        strs(r@) == grow(*rg, q, i as int).key,
{
    let n = gcols.len();
    let mut r: Vec<String> = Vec::new();
    let mut g: usize = 0;
    while g < n
        invariant
            rg.wf(),
            i < rg.nrows,
            n == gcols@.len(),
            q.gcols == strs(gcols@),
            forall|p: int| 0 <= p < q.gcols.len() ==> gcol_valid(rg.columns@, #[trigger] q.gcols[p]),
            g <= n,
            r@.len() == g,
            forall|p: int|
                0 <= p < g ==> (#[trigger] r@[p]@) == str_of(
                    crate::row_group::val_at(rg.columns@, q.gcols[p], i as int),
                ),
        decreases n - g,
    {
        proof {
            assert(q.gcols[g as int] == gcols@[g as int]@);
            assert(gcol_valid(rg.columns@, gcols@[g as int]@));
            assert(has_col(rg.columns@, gcols@[g as int]@));
        }
        let v = rg.value_of(&gcols[g], i);
        let s: String = match v {
            Value::Str(s) => s,
            _ => {
                proof {
                    let name = gcols@[g as int]@;
                    let cols = rg.columns@;
                    let jv = choose|j: int|
                        0 <= j < cols.len() && (#[trigger] cols[j].name@) == name
                            && cols[j].data is Str;
                    lemma_unique_col(cols, jv, col_idx(cols, name));
                    assert(false);
                }
                String::new()
            },
        };
        r.push(s);
        g += 1;
    }
    proof {
        assert(strs(r@) =~= grow(*rg, q, i as int).key);
    }
    r
}

/// Reads the value aggregated by the `j`-th aggregate for row `i`.
pub fn read_agg_value(rg: &RowGroup, name: &String, i: usize, Ghost(q): Ghost<AggQuery>, Ghost(
    j,
): Ghost<int>) -> (r: Value)
    requires
        rg.wf(),
        i < rg.nrows,
        0 <= j < q.acols.len(),
        q.acols[j] == name@,
        exists|c: int|
            0 <= c < rg.columns@.len() && (#[trigger] rg.columns@[c].name@) == name@,
    ensures
        val_of(r) == grow(*rg, q, i as int).vals[j],
{
    let r = rg.value_of(name, i);
    proof {
        assert(grow(*rg, q, i as int).vals[j] == crate::row_group::val_at(
            rg.columns@,
            name@,
            i as int,
        ));
    }
    r
}

/// The start of the window bucket holding `t`.
pub fn window_start(t: i64, window: i64) -> (r: i128)
    requires
        window > 0,
    ensures
        r as int == spec_window_start(t, window as int),
{
    let m = t.checked_rem_euclid(window);
    let mv = match m {
        Option::Some(v) => v,
        Option::None => {
            proof {
                assert(false);
            }
            0
        },
    };
    t as i128 - mv as i128
}

/// The projection of row `i` onto the named columns.
pub open spec fn row_proj(rg: RowGroup, cols: Seq<Seq<char>>, i: int) -> Seq<Val> {
    cols.map_values(|c: Seq<char>| crate::row_group::val_at(rg.columns@, c, i))
}

/// The projected surviving rows of `rg` among the first `i`, in row
/// order.
pub open spec fn sel_rows_upto(
    rg: RowGroup,
    preds: Seq<Predicate>,
    from: i64,
    to: i64,
    cols: Seq<Seq<char>>,
    i: int,
) -> Seq<Seq<Val>>
    decreases i,
{
    if i <= 0 {
        Seq::empty()
    } else {
        let rest = sel_rows_upto(rg, preds, from, to, cols, i - 1);
        if rg.survives(preds, from, to, i - 1) {
            rest.push(row_proj(rg, cols, i - 1))
        } else {
            rest
        }
    }
}

/// All projected surviving rows of `rg`.
pub open spec fn rg_sel_rows(
    rg: RowGroup,
    preds: Seq<Predicate>,
    from: i64,
    to: i64,
    cols: Seq<Seq<char>>,
) -> Seq<Seq<Val>> {
    sel_rows_upto(rg, preds, from, to, cols, rg.nrows as int)
}

/// The mathematical view of a concrete result row set.
pub open spec fn rows_view(s: Seq<Vec<Value>>) -> Seq<Seq<Val>> {
    s.map_values(|r: Vec<Value>| r@.map_values(|v: Value| val_of(v)))
}

/// Appends the projections of `rg`'s surviving rows to `out`.
pub fn rg_select(
    rg: &RowGroup,
    all_preds: &Vec<Predicate>,
    cols: &Vec<String>,
    out: &mut Vec<Vec<Value>>,
    Ghost(preds): Ghost<Seq<Predicate>>,
    Ghost(from): Ghost<i64>,
    Ghost(to): Ghost<i64>,
)
    requires
        rg.wf(),
        time_preds_appended(all_preds@, preds, from, to),
        forall|c: int| 0 <= c < cols@.len() ==> has_col(rg.columns@, #[trigger] cols@[c]@),
    ensures
        rows_view(final(out)@) == rows_view(old(out)@) + rg_sel_rows(
            *rg,
            preds,
            from,
            to,
            strs(cols@),
        ),
{
    let n = rg.nrows;
    let nc = cols.len();
    let mut i: usize = 0;
    proof {
        assert(rows_view(out@) =~= rows_view(out@) + sel_rows_upto(
            *rg,
            preds,
            from,
            to,
            strs(cols@),
            0,
        ));
    }
    while i < n
        invariant
            rg.wf(),
            n == rg.nrows,
            nc == cols@.len(),
            time_preds_appended(all_preds@, preds, from, to),
            forall|c: int| 0 <= c < cols@.len() ==> has_col(rg.columns@, #[trigger] cols@[c]@),
            i <= n,
            rows_view(out@) == rows_view(old(out)@) + sel_rows_upto(
                *rg,
                preds,
                from,
                to,
                strs(cols@),
                i as int,
            ),
        decreases n - i,
    {
        let survived = check_row(rg, all_preds, i);
        proof {
            lemma_time_preds(*rg, all_preds@, preds, from, to, i as int);
        }
        if survived {
            let mut row: Vec<Value> = Vec::new();
            let mut c: usize = 0;
            while c < nc
                invariant
                    rg.wf(),
                    i < n,
                    n == rg.nrows,
                    nc == cols@.len(),
                    forall|p: int| 0 <= p < cols@.len() ==> has_col(rg.columns@, #[trigger] cols@[p]@),
                    c <= nc,
                    row@.len() == c,
                    forall|p: int|
                        0 <= p < c ==> val_of(#[trigger] row@[p]) == crate::row_group::val_at(
                            rg.columns@,
                            cols@[p]@,
                            i as int,
                        ),
                decreases nc - c,
            {
                let v = rg.value_of(&cols[c], i);
                row.push(v);
                c += 1;
            }
            proof {
                assert(row@.map_values(|v: Value| val_of(v)) =~= row_proj(
                    *rg,
                    strs(cols@),
                    i as int,
                ));
            }
            let ghost out0 = out@;
            out.push(row);
            proof {
                assert(rows_view(out@) =~= rows_view(out0).push(
                    row_proj(*rg, strs(cols@), i as int),
                ));
                assert(rows_view(out@) =~= rows_view(old(out)@) + sel_rows_upto(
                    *rg,
                    preds,
                    from,
                    to,
                    strs(cols@),
                    i + 1,
                ));
            }
        }
        i += 1;
    }
}

/// Whether any row of `rg` survives the query.
pub fn any_survivor(
    rg: &RowGroup,
    all_preds: &Vec<Predicate>,
    Ghost(preds): Ghost<Seq<Predicate>>,
    Ghost(from): Ghost<i64>,
    Ghost(to): Ghost<i64>,
) -> (r: bool)
    requires
        rg.wf(),
        time_preds_appended(all_preds@, preds, from, to),
    ensures
        r == exists|i: int| 0 <= i < rg.nrows && rg.survives(preds, from, to, i),
{
    let n = rg.nrows;
    let mut i: usize = 0;
    while i < n
        invariant
            rg.wf(),
            n == rg.nrows,
            time_preds_appended(all_preds@, preds, from, to),
            i <= n,
            forall|p: int| 0 <= p < i ==> !rg.survives(preds, from, to, p),
        decreases n - i,
    {
        let survived = check_row(rg, all_preds, i);
        proof {
            lemma_time_preds(*rg, all_preds@, preds, from, to, i as int);
        }
        if survived {
            return true;
        }
        i += 1;
    }
    false
}

/// Whether some string occurs in a list of strings.
pub open spec fn str_in(seq: Seq<String>, s: Seq<char>) -> bool {
    exists|p: int| 0 <= p < seq.len() && (#[trigger] seq[p]@) == s
}

/// Whether the list holds no string twice.
pub open spec fn strs_distinct(seq: Seq<String>) -> bool {
    forall|a: int, b: int| 0 <= a < b < seq.len() ==> seq[a]@ != seq[b]@
}

/// Whether `v` is a string value of column `key` in a surviving row
/// among the first `i` of `rg`.
pub open spec fn tag_val_upto(
    rg: RowGroup,
    preds: Seq<Predicate>,
    from: i64,
    to: i64,
    key: Seq<char>,
    i: int,
    v: Seq<char>,
) -> bool {
    exists|p: int|
        0 <= p < i && rg.survives(preds, from, to, p) && crate::row_group::val_at(
            rg.columns@,
            key,
            p,
        ) == Val::Str(v)
}

/// Whether `v` names a string value of column `key` in some surviving
/// row of `rg`.
pub open spec fn rg_has_tag_value(
    rg: RowGroup,
    preds: Seq<Predicate>,
    from: i64,
    to: i64,
    key: Seq<char>,
    v: Seq<char>,
) -> bool {
    tag_val_upto(rg, preds, from, to, key, rg.nrows as int, v)
}

/// Tests membership by string value.
pub fn contains_str(v: &Vec<String>, s: &String) -> (r: bool)
    ensures
        r == str_in(v@, s@),
{
    let n = v.len();
    let mut i: usize = 0;
    while i < n
        invariant
            n == v@.len(),
            i <= n,
            forall|p: int| 0 <= p < i ==> (#[trigger] v@[p]@) != s@,
        decreases n - i,
    {
        if v[i] == *s {
            return true;
        }
        i += 1;
    }
    false
}

/// Folds row `i` into the distinct-value set: if it survives and
/// column `key` holds a string there, that value is included.
fn rg_tag_values_row(
    rg: &RowGroup,
    all_preds: &Vec<Predicate>,
    key: &String,
    i: usize,
    out: &mut Vec<String>,
    Ghost(preds): Ghost<Seq<Predicate>>,
    Ghost(from): Ghost<i64>,
    Ghost(to): Ghost<i64>,
)
    requires
        rg.wf(),
        time_preds_appended(all_preds@, preds, from, to),
        has_col(rg.columns@, key@),
        i < rg.nrows,
        strs_distinct(old(out)@),
    ensures
        strs_distinct(final(out)@),
        forall|w: Seq<char>|
            #[trigger] str_in(final(out)@, w) <==> str_in(old(out)@, w) || (rg.survives(
                preds,
                from,
                to,
                i as int,
            ) && crate::row_group::val_at(rg.columns@, key@, i as int) == Val::Str(w)),
{
    let survived = check_row(rg, all_preds, i);
    proof {
        lemma_time_preds(*rg, all_preds@, preds, from, to, i as int);
    }
    if survived {
        let v = rg.value_of(key, i);
        match v {
            Value::Str(s) => {
                proof {
                    assert(crate::row_group::val_at(rg.columns@, key@, i as int) == Val::Str(s@));
                }
                let already = contains_str(out, &s);
                if !already {
                    let ghost out0 = out@;
                    out.push(s);
                    proof {
                        assert forall|w: Seq<char>| #[trigger] str_in(out@, w) implies str_in(
                            out0,
                            w,
                        ) || w == s@ by {
                            let p = choose|p: int| 0 <= p < out@.len() && out@[p]@ == w;
                            if p < out0.len() {
                                assert(out0[p]@ == w);
                            }
                        }
                        assert forall|w: Seq<char>| str_in(out0, w) implies str_in(out@, w) by {
                            let p = choose|p: int| 0 <= p < out0.len() && out0[p]@ == w;
                            assert(out@[p]@ == w);
                        }
                        assert(str_in(out@, s@)) by {
                            assert(out@[out@.len() - 1]@ == s@);
                        }
                        assert forall|a: int, b: int|
                            0 <= a < b < out@.len() implies out@[a]@ != out@[b]@ by {
                            if b < out0.len() {
                                assert(out0[a]@ != out0[b]@);
                            } else {
                                assert(out0[a]@ == out@[a]@);
                                if out@[a]@ == s@ {
                                    assert(str_in(out0, s@));
                                    assert(false);
                                }
                            }
                        }
                    }
                }
            },
            _ => {
                proof {
                    assert(!(crate::row_group::val_at(rg.columns@, key@, i as int) is Str));
                }
            },
        }
    }
}

/// Collects into `out` the distinct values of column `key` over `rg`'s
/// surviving rows.
pub fn rg_tag_values(
    rg: &RowGroup,
    all_preds: &Vec<Predicate>,
    key: &String,
    out: &mut Vec<String>,
    Ghost(preds): Ghost<Seq<Predicate>>,
    Ghost(from): Ghost<i64>,
    Ghost(to): Ghost<i64>,
)
    requires
        rg.wf(),
        time_preds_appended(all_preds@, preds, from, to),
        has_col(rg.columns@, key@),
        strs_distinct(old(out)@),
    ensures
        strs_distinct(final(out)@),
        forall|v: Seq<char>|
            #[trigger] str_in(final(out)@, v) <==> str_in(old(out)@, v) || rg_has_tag_value(
                *rg,
                preds,
                from,
                to,
                key@,
                v,
            ),
{
    let n = rg.nrows;
    let mut i: usize = 0;
    while i < n
        invariant
            rg.wf(),
            n == rg.nrows,
            time_preds_appended(all_preds@, preds, from, to),
            has_col(rg.columns@, key@),
            i <= n,
            strs_distinct(out@),
            forall|v: Seq<char>|
                #[trigger] str_in(out@, v) <==> str_in(old(out)@, v) || tag_val_upto(
                    *rg,
                    preds,
                    from,
                    to,
                    key@,
                    i as int,
                    v,
                ),
        decreases n - i,
    {
        let ghost out_pre = out@;
        rg_tag_values_row(rg, all_preds, key, i, out, Ghost(preds), Ghost(from), Ghost(to));
        proof {
            assert forall|w: Seq<char>| #[trigger] str_in(out@, w) implies str_in(old(out)@, w)
                || tag_val_upto(*rg, preds, from, to, key@, i + 1, w) by {
                if str_in(out_pre, w) {
                    if tag_val_upto(*rg, preds, from, to, key@, i as int, w) {
                        let p = choose|p: int|
                            0 <= p < i && rg.survives(preds, from, to, p)
                                && crate::row_group::val_at(rg.columns@, key@, p) == Val::Str(w);
                        assert(0 <= p < i + 1 && rg.survives(preds, from, to, p)
                            && crate::row_group::val_at(rg.columns@, key@, p) == Val::Str(w));
                        assert(tag_val_upto(*rg, preds, from, to, key@, i + 1, w));
                    }
                } else {
                    assert(rg.survives(preds, from, to, i as int) && crate::row_group::val_at(
                        rg.columns@,
                        key@,
                        i as int,
                    ) == Val::Str(w));
                    assert(tag_val_upto(*rg, preds, from, to, key@, i + 1, w));
                }
            }
            assert forall|w: Seq<char>|
                str_in(old(out)@, w) || #[trigger] tag_val_upto(
                    *rg,
                    preds,
                    from,
                    to,
                    key@,
                    i + 1,
                    w,
                ) implies str_in(out@, w) by {
                if str_in(old(out)@, w) {
                    assert(str_in(out_pre, w));
                } else {
                    let p = choose|p: int|
                        0 <= p < i + 1 && rg.survives(preds, from, to, p)
                            && crate::row_group::val_at(rg.columns@, key@, p) == Val::Str(w);
                    if p < i {
                        assert(0 <= p < i && rg.survives(preds, from, to, p)
                            && crate::row_group::val_at(rg.columns@, key@, p) == Val::Str(w));
                        assert(tag_val_upto(*rg, preds, from, to, key@, i as int, w));
                        assert(str_in(out_pre, w));
                    }
                }
            }
        }
        i += 1;
    }
}

/// An exact copy of a key tuple.
pub fn clone_strings(v: &Vec<String>) -> (r: Vec<String>)
    ensures
        r@ == v@,
{
    let n = v.len();
    let mut r: Vec<String> = Vec::new();
    let mut i: usize = 0;
    while i < n
        invariant
            n == v@.len(),
            i <= n,
            r@.len() == i,
            forall|p: int| 0 <= p < i ==> r@[p] == v@[p],
        decreases n - i,
    {
        r.push(v[i].clone());
        i += 1;
    }
    proof {
        assert(r@ =~= v@);
    }
    r
}

/// Whether `k` is the identity of one of the first `m` local groups.
pub open spec fn in_prefix(local: Seq<GroupedRow>, m: int, k: (Seq<Seq<char>>, int)) -> bool {
    exists|i: int| 0 <= i < m && gid_of(#[trigger] local[i]) == k
}

/// Merges one chunk's local aggregation into the running global one.
/// Afterwards the global accumulators represent the concatenation of the
/// rows both sides were computed from: duplicated group keys are combined
/// by the aggregate's merge operation, never reported twice.
pub fn merge_groups(
    global: &mut Vec<GroupedRow>,
    local: &Vec<GroupedRow>,
    aggs: &Vec<(String, AggregateType)>,
    Ghost(rows_g): Ghost<Seq<GRow>>,
    Ghost(rows_c): Ghost<Seq<GRow>>,
)
    requires
        groups_inv(old(global)@, rows_g, aggs@),
        groups_inv(local@, rows_c, aggs@),
        rows_g.len() + rows_c.len() <= count_cap(),
    ensures
        groups_inv(final(global)@, rows_g + rows_c, aggs@),
{
    let ghost rows_all = rows_g + rows_c;
    let nl = local.len();
    let na = aggs.len();
    let mut m: usize = 0;
    while m < nl
        invariant
            nl == local@.len(),
            na == aggs@.len(),
            groups_inv(local@, rows_c, aggs@),
            rows_g.len() + rows_c.len() <= count_cap(),
            rows_all == rows_g + rows_c,
            m <= nl,
            forall|a: int, b: int|
                0 <= a < b < global@.len() ==> gid_of(global@[a]) != gid_of(global@[b]),
            forall|e: int|
                0 <= e < global@.len() ==> (#[trigger] global@[e].accs@.len()) == aggs@.len(),
            forall|e: int|
                0 <= e < global@.len() ==> key_present(rows_g, gid_of(#[trigger] global@[e]))
                    || in_prefix(local@, m as int, gid_of(global@[e])),
            forall|r: int|
                0 <= r < rows_g.len() ==> exists|e: int|
                    0 <= e < global@.len() && gid_of(global@[e]) == gid(#[trigger] rows_g[r]),
            forall|i: int|
                0 <= i < m ==> exists|e: int|
                    0 <= e < global@.len() && gid_of(global@[e]) == gid_of(#[trigger] local@[i]),
            forall|e: int, j: int|
                0 <= e < global@.len() && 0 <= j < aggs@.len() && in_prefix(
                    local@,
                    m as int,
                    gid_of(global@[e]),
                ) ==> agg_result_ok(
                    #[trigger] global@[e].accs@[j],
                    spec_agg(aggs@[j].1, rows_all, gid_of(global@[e]), j),
                ),
            forall|e: int, j: int|
                0 <= e < global@.len() && 0 <= j < aggs@.len() && !in_prefix(
                    local@,
                    m as int,
                    gid_of(global@[e]),
                ) ==> agg_result_ok(
                    #[trigger] global@[e].accs@[j],
                    spec_agg(aggs@[j].1, rows_g, gid_of(global@[e]), j),
                ),
        decreases nl - m,
    {
        let ghost k = gid_of(local@[m as int]);
        proof {
            assert(key_present(rows_c, k));
        }
        match find_group(global, &local[m].key, local[m].wstart) {
            Option::Some(g) => {
                proof {
                    // This key was not merged before: local identities are
                    // distinct.
                    if in_prefix(local@, m as int, k) {
                        let i0 = choose|i: int|
                            0 <= i < m && gid_of(#[trigger] local@[i]) == k;
                        assert(gid_of(local@[i0]) != gid_of(local@[m as int]));
                        assert(false);
                    }
                }
                let mut new_accs: Vec<AggResult> = Vec::new();
                let mut j: usize = 0;
                while j < na
                    invariant
                        na == aggs@.len(),
                        nl == local@.len(),
                        m < nl,
                        groups_inv(local@, rows_c, aggs@),
                        rows_g.len() + rows_c.len() <= count_cap(),
                        rows_all == rows_g + rows_c,
                        (g as int) < global@.len(),
                        gid_of(global@[g as int]) == k,
                        k == gid_of(local@[m as int]),
                        forall|e: int|
                            0 <= e < global@.len() ==> (#[trigger] global@[e].accs@.len())
                                == aggs@.len(),
                        !in_prefix(local@, m as int, k),
                        forall|e: int, j2: int|
                            0 <= e < global@.len() && 0 <= j2 < aggs@.len() && !in_prefix(
                                local@,
                                m as int,
                                gid_of(global@[e]),
                            ) ==> agg_result_ok(
                                #[trigger] global@[e].accs@[j2],
                                spec_agg(aggs@[j2].1, rows_g, gid_of(global@[e]), j2),
                            ),
                        j <= na,
                        new_accs@.len() == j,
                        forall|p: int|
                            0 <= p < j ==> agg_result_ok(
                                #[trigger] new_accs@[p],
                                spec_agg(aggs@[p].1, rows_all, k, p),
                            ),
                    decreases na - j,
                {
                    let ghost w1 = spec_agg(aggs@[j as int].1, rows_g, k, j as int);
                    let ghost w2 = spec_agg(aggs@[j as int].1, rows_c, k, j as int);
                    proof {
                        assert(agg_result_ok(global@[g as int].accs@[j as int], w1));
                        assert(agg_result_ok(local@[m as int].accs@[j as int], w2));
                        lemma_grp_count_le_len(rows_g, k);
                        lemma_grp_sum_bound(rows_g, k, j as int);
                        lemma_grp_count_le_len(rows_c, k);
                        lemma_grp_sum_bound(rows_c, k, j as int);
                        crate::agg::lemma_spec_agg_concat(
                            aggs@[j as int].1,
                            rows_g,
                            rows_c,
                            k,
                            j as int,
                        );
                    }
                    let na2 = acc_merge(&global[g].accs[j], &local[m].accs[j]);
                    proof {
                        assert(agg_result_ok(na2, spec_agg(aggs@[j as int].1, rows_all, k, j as int)));
                    }
                    new_accs.push(na2);
                    j += 1;
                }
                let ghost gl0 = global@;
                let ge = &mut global[g];
                ge.accs = new_accs;
                proof {
                    let gl = global@;
                    assert(gl.len() == gl0.len());
                    assert(forall|e: int| 0 <= e < gl.len() && e != g as int ==> gl[e] == gl0[e]);
                    assert(forall|e: int|
                        0 <= e < gl.len() ==> gid_of(#[trigger] gl[e]) == gid_of(gl0[e]));
                    assert(in_prefix(local@, m + 1, k)) by {
                        assert(gid_of(local@[m as int]) == k);
                    }
                    assert forall|e: int|
                        0 <= e < gl.len() implies key_present(rows_g, gid_of(#[trigger] gl[e]))
                        || in_prefix(local@, m + 1, gid_of(gl[e])) by {
                        if key_present(rows_g, gid_of(gl0[e])) {
                        } else {
                            if in_prefix(local@, m as int, gid_of(gl0[e])) {
                                let i0 = choose|i: int|
                                    0 <= i < m && gid_of(#[trigger] local@[i]) == gid_of(gl0[e]);
                                assert(gid_of(local@[i0]) == gid_of(gl[e]));
                            } else {
                                assert(gid_of(gl[e]) == k);
                            }
                        }
                    }
                    assert forall|r: int| 0 <= r < rows_g.len() implies exists|e: int|
                        0 <= e < gl.len() && gid_of(gl[e]) == gid(#[trigger] rows_g[r]) by {
                        let we = choose|e: int|
                            0 <= e < gl0.len() && gid_of(#[trigger] gl0[e]) == gid(rows_g[r]);
                        assert(gid_of(gl[we]) == gid(rows_g[r]));
                    }
                    assert forall|i: int| 0 <= i < m + 1 implies exists|e: int|
                        0 <= e < gl.len() && gid_of(gl[e]) == gid_of(#[trigger] local@[i]) by {
                        if i < m {
                            let we = choose|e: int|
                                0 <= e < gl0.len() && gid_of(#[trigger] gl0[e]) == gid_of(local@[i]);
                            assert(gid_of(gl[we]) == gid_of(local@[i]));
                        } else {
                            assert(gid_of(gl[g as int]) == gid_of(local@[i]));
                        }
                    }
                    assert forall|e: int, j2: int|
                        0 <= e < gl.len() && 0 <= j2 < aggs@.len() && in_prefix(
                            local@,
                            m + 1,
                            gid_of(gl[e]),
                        ) implies agg_result_ok(
                        #[trigger] gl[e].accs@[j2],
                        spec_agg(aggs@[j2].1, rows_all, gid_of(gl[e]), j2),
                    ) by {
                        if e == g as int {
                        } else {
                            assert(gl[e] == gl0[e]);
                            let i0 = choose|i: int|
                                0 <= i < m + 1 && gid_of(#[trigger] local@[i]) == gid_of(gl[e]);
                            if i0 == m {
                                // Same identity as the merged entry:
                                // contradicts distinctness of global ids.
                                assert(gid_of(gl[e]) == k);
                                assert(gid_of(gl0[e]) == gid_of(gl0[g as int]));
                                assert(false);
                            } else {
                                assert(in_prefix(local@, m as int, gid_of(gl0[e])));
                            }
                        }
                    }
                    assert forall|e: int, j2: int|
                        0 <= e < gl.len() && 0 <= j2 < aggs@.len() && !in_prefix(
                            local@,
                            m + 1,
                            gid_of(gl[e]),
                        ) implies agg_result_ok(
                        #[trigger] gl[e].accs@[j2],
                        spec_agg(aggs@[j2].1, rows_g, gid_of(gl[e]), j2),
                    ) by {
                        assert(gid_of(gl[e]) != k);
                        assert(gl[e] == gl0[e]);
                        if in_prefix(local@, m as int, gid_of(gl0[e])) {
                            let i0 = choose|i: int|
                                0 <= i < m && gid_of(#[trigger] local@[i]) == gid_of(gl0[e]);
                            assert(in_prefix(local@, m + 1, gid_of(gl[e])));
                            assert(false);
                        }
                    }
                }
            },
            Option::None => {
                proof {
                    // The key occurs in no global row.
                    if key_present(rows_g, k) {
                        let wi = choose|wi: int|
                            0 <= wi < rows_g.len() && gid(#[trigger] rows_g[wi]) == k;
                        let we = choose|e: int|
                            0 <= e < global@.len() && gid_of(#[trigger] global@[e]) == gid(
                                rows_g[wi],
                            );
                        assert(false);
                    }
                }
                let mut new_accs: Vec<AggResult> = Vec::new();
                let mut j: usize = 0;
                while j < na
                    invariant
                        na == aggs@.len(),
                        nl == local@.len(),
                        m < nl,
                        groups_inv(local@, rows_c, aggs@),
                        rows_all == rows_g + rows_c,
                        !key_present(rows_g, k),
                        k == gid_of(local@[m as int]),
                        j <= na,
                        new_accs@.len() == j,
                        forall|p: int|
                            0 <= p < j ==> agg_result_ok(
                                #[trigger] new_accs@[p],
                                spec_agg(aggs@[p].1, rows_all, k, p),
                            ),
                    decreases na - j,
                {
                    proof {
                        assert(agg_result_ok(
                            local@[m as int].accs@[j as int],
                            spec_agg(aggs@[j as int].1, rows_c, k, j as int),
                        ));
                        crate::agg::lemma_spec_agg_absent_left(
                            aggs@[j as int].1,
                            rows_g,
                            rows_c,
                            k,
                            j as int,
                        );
                    }
                    let na2 = local[m].accs[j].duplicate();
                    new_accs.push(na2);
                    j += 1;
                }
                let key2 = clone_strings(&local[m].key);
                let entry = GroupedRow { key: key2, wstart: local[m].wstart, accs: new_accs };
                proof {
                    assert(gid_of(entry) == k);
                }
                let ghost gl0 = global@;
                global.push(entry);
                proof {
                    let gl = global@;
                    let glen = gl.len();
                    assert(gl == gl0.push(entry));
                    assert(forall|e: int| 0 <= e < glen - 1 ==> gl[e] == gl0[e]);
                    assert forall|a: int, b: int| 0 <= a < b < glen implies gid_of(gl[a])
                        != gid_of(gl[b]) by {
                        if b == glen - 1 {
                            assert(gid_of(gl[a]) != k);
                        }
                    }
                    assert(in_prefix(local@, m + 1, k)) by {
                        assert(gid_of(local@[m as int]) == k);
                    }
                    assert forall|e: int|
                        0 <= e < glen implies key_present(rows_g, gid_of(#[trigger] gl[e]))
                        || in_prefix(local@, m + 1, gid_of(gl[e])) by {
                        if e < glen - 1 {
                            if !key_present(rows_g, gid_of(gl0[e])) {
                                if in_prefix(local@, m as int, gid_of(gl0[e])) {
                                    let i0 = choose|i: int|
                                        0 <= i < m && gid_of(#[trigger] local@[i]) == gid_of(
                                            gl0[e],
                                        );
                                    assert(gid_of(local@[i0]) == gid_of(gl[e]));
                                }
                            }
                        }
                    }
                    assert forall|r: int| 0 <= r < rows_g.len() implies exists|e: int|
                        0 <= e < glen && gid_of(gl[e]) == gid(#[trigger] rows_g[r]) by {
                        let we = choose|e: int|
                            0 <= e < gl0.len() && gid_of(#[trigger] gl0[e]) == gid(rows_g[r]);
                        assert(gid_of(gl[we]) == gid(rows_g[r]));
                    }
                    assert forall|i: int| 0 <= i < m + 1 implies exists|e: int|
                        0 <= e < glen && gid_of(gl[e]) == gid_of(#[trigger] local@[i]) by {
                        if i < m {
                            let we = choose|e: int|
                                0 <= e < gl0.len() && gid_of(#[trigger] gl0[e]) == gid_of(local@[i]);
                            assert(gid_of(gl[we]) == gid_of(local@[i]));
                        } else {
                            assert(gid_of(gl[glen - 1]) == gid_of(local@[i]));
                        }
                    }
                    assert forall|e: int, j2: int|
                        0 <= e < glen && 0 <= j2 < aggs@.len() && in_prefix(
                            local@,
                            m + 1,
                            gid_of(gl[e]),
                        ) implies agg_result_ok(
                        #[trigger] gl[e].accs@[j2],
                        spec_agg(aggs@[j2].1, rows_all, gid_of(gl[e]), j2),
                    ) by {
                        if e < glen - 1 {
                            let i0 = choose|i: int|
                                0 <= i < m + 1 && gid_of(#[trigger] local@[i]) == gid_of(gl[e]);
                            if i0 == m {
                                assert(gid_of(gl[e]) == k);
                                assert(key_present(rows_g, gid_of(gl0[e]))
                                    || in_prefix(local@, m as int, gid_of(gl0[e])));
                                if key_present(rows_g, gid_of(gl0[e])) {
                                    assert(false);
                                } else {
                                    let i1 = choose|i: int|
                                        0 <= i < m && gid_of(#[trigger] local@[i]) == gid_of(
                                            gl0[e],
                                        );
                                    assert(gid_of(local@[i1]) != gid_of(local@[m as int]));
                                    assert(false);
                                }
                            } else {
                                assert(in_prefix(local@, m as int, gid_of(gl0[e])));
                            }
                        }
                    }
                    assert forall|e: int, j2: int|
                        0 <= e < glen && 0 <= j2 < aggs@.len() && !in_prefix(
                            local@,
                            m + 1,
                            gid_of(gl[e]),
                        ) implies agg_result_ok(
                        #[trigger] gl[e].accs@[j2],
                        spec_agg(aggs@[j2].1, rows_g, gid_of(gl[e]), j2),
                    ) by {
                        assert(e < glen - 1);
                        assert(gl[e] == gl0[e]);
                        if in_prefix(local@, m as int, gid_of(gl0[e])) {
                            let i0 = choose|i: int|
                                0 <= i < m && gid_of(#[trigger] local@[i]) == gid_of(gl0[e]);
                            assert(in_prefix(local@, m + 1, gid_of(gl[e])));
                            assert(false);
                        }
                    }
                }
            },
        }
        m += 1;
    }
    proof {
        let gl = global@;
        assert forall|e: int| 0 <= e < gl.len() implies key_present(
            rows_all,
            gid_of(#[trigger] gl[e]),
        ) by {
            if key_present(rows_g, gid_of(gl[e])) {
                let wi = choose|wi: int|
                    0 <= wi < rows_g.len() && gid(#[trigger] rows_g[wi]) == gid_of(gl[e]);
                assert(rows_all[wi] == rows_g[wi]);
            } else {
                let i0 = choose|i: int|
                    0 <= i < nl && gid_of(#[trigger] local@[i]) == gid_of(gl[e]);
                assert(key_present(rows_c, gid_of(local@[i0])));
                let wi = choose|wi: int|
                    0 <= wi < rows_c.len() && gid(#[trigger] rows_c[wi]) == gid_of(local@[i0]);
                assert(rows_all[rows_g.len() + wi] == rows_c[wi]);
            }
        }
        assert forall|r: int| 0 <= r < rows_all.len() implies exists|e: int|
            0 <= e < gl.len() && gid_of(gl[e]) == gid(#[trigger] rows_all[r]) by {
            if r < rows_g.len() {
                assert(rows_all[r] == rows_g[r]);
                let we = choose|e: int|
                    0 <= e < gl.len() && gid_of(#[trigger] gl[e]) == gid(rows_g[r]);
                assert(gid_of(gl[we]) == gid(rows_all[r]));
            } else {
                let rc = r - rows_g.len();
                assert(rows_all[r] == rows_c[rc]);
                let le = choose|e: int|
                    0 <= e < local@.len() && gid_of(local@[e]) == gid(#[trigger] rows_c[rc]);
                let we = choose|e: int|
                    0 <= e < gl.len() && gid_of(#[trigger] gl[e]) == gid_of(local@[le]);
                assert(gid_of(gl[we]) == gid(rows_all[r]));
            }
        }
        assert forall|e: int, j: int|
            0 <= e < gl.len() && 0 <= j < aggs@.len() implies agg_result_ok(
            #[trigger] gl[e].accs@[j],
            spec_agg(aggs@[j].1, rows_all, gid_of(gl[e]), j),
        ) by {
            if !in_prefix(local@, nl as int, gid_of(gl[e])) {
                // The key occurs in no local row, so the chunk's rows do
                // not disturb it.
                if key_present(rows_c, gid_of(gl[e])) {
                    let wi = choose|wi: int|
                        0 <= wi < rows_c.len() && gid(#[trigger] rows_c[wi]) == gid_of(gl[e]);
                    let le = choose|e2: int|
                        0 <= e2 < local@.len() && gid_of(local@[e2]) == gid(rows_c[wi]);
                    assert(in_prefix(local@, nl as int, gid_of(gl[e]))) by {
                        assert(gid_of(local@[le]) == gid_of(gl[e]));
                    }
                    assert(false);
                }
                crate::agg::lemma_spec_agg_absent_right(
                    aggs@[j].1,
                    rows_g,
                    rows_c,
                    gid_of(gl[e]),
                    j,
                );
            }
        }
        assert(groups_inv(global@, rows_all, aggs@));
    }
}

/// Folds every surviving row of `rg` into the running group
/// accumulators. `prior` is the sequence of rows already folded in;
/// afterwards the accumulators represent `prior` extended by this row
/// group's surviving rows.
pub fn rg_accumulate(
    rg: &RowGroup,
    all_preds: &Vec<Predicate>,
    gcols: &Vec<String>,
    aggs: &Vec<(String, AggregateType)>,
    window: i64,
    groups: &mut Vec<GroupedRow>,
    Ghost(q): Ghost<AggQuery>,
    Ghost(prior): Ghost<Seq<GRow>>,
)
    requires
        rg.wf(),
        time_preds_appended(all_preds@, q.preds, q.from, q.to),
        q.gcols == strs(gcols@),
        q.acols == agg_names(aggs@),
        q.window == window as int,
        window >= 0,
        forall|g: int| 0 <= g < q.gcols.len() ==> gcol_valid(rg.columns@, #[trigger] q.gcols[g]),
        forall|j: int|
            0 <= j < aggs@.len() ==> acol_valid(rg.columns@, #[trigger] aggs@[j].0@, aggs@[j].1),
        groups_inv(old(groups)@, prior, aggs@),
        prior.len() + rg.nrows <= count_cap(),
    ensures
        groups_inv(final(groups)@, prior + rg_rows(*rg, q), aggs@),
{
    let n = rg.nrows;
    let na = aggs.len();
    let mut i: usize = 0;
    proof {
        assert(prior + rg_rows_upto(*rg, q, 0) =~= prior);
    }
    while i < n
        invariant
            rg.wf(),
            n == rg.nrows,
            na == aggs@.len(),
            time_preds_appended(all_preds@, q.preds, q.from, q.to),
            q.gcols == strs(gcols@),
            q.acols == agg_names(aggs@),
            q.window == window as int,
            window >= 0,
            forall|g: int| 0 <= g < q.gcols.len() ==> gcol_valid(rg.columns@, #[trigger] q.gcols[g]),
            forall|j: int|
                0 <= j < aggs@.len() ==> acol_valid(rg.columns@, #[trigger] aggs@[j].0@, aggs@[j].1),
            i <= n,
            prior.len() + rg.nrows <= count_cap(),
            groups_inv(groups@, prior + rg_rows_upto(*rg, q, i as int), aggs@),
        decreases n - i,
    {
        let ghost rows = prior + rg_rows_upto(*rg, q, i as int);
        let survived = check_row(rg, all_preds, i);
        proof {
            lemma_time_preds(*rg, all_preds@, q.preds, q.from, q.to, i as int);
        }
        if survived {
            let ghost rnew = grow(*rg, q, i as int);
            let ghost rows2 = rows.push(rnew);
            proof {
                assert(rg_rows_upto(*rg, q, i + 1) == rg_rows_upto(*rg, q, i as int).push(rnew));
                assert(prior + rg_rows_upto(*rg, q, i + 1) =~= rows2);
                lemma_rg_rows_len(*rg, q, i as int);
                assert(rows.len() < count_cap());
            }
            let t = rg.time_of(i);
            let key = project_key(rg, gcols, i, Ghost(q));
            let ws: i128 = if window > 0 {
                window_start(t, window)
            } else {
                0
            };
            let ghost k = gid(rnew);
            proof {
                assert((strs(key@), ws as int) == k);
            }
            match find_group(groups, &key, ws) {
                Option::Some(g) => {
                    let mut new_accs: Vec<AggResult> = Vec::new();
                    let mut j: usize = 0;
                    while j < na
                        invariant
                            rg.wf(),
                            i < n,
                            n == rg.nrows,
                            na == aggs@.len(),
                            q.acols == agg_names(aggs@),
                            forall|p: int|
                                0 <= p < aggs@.len() ==> acol_valid(
                                    rg.columns@,
                                    #[trigger] aggs@[p].0@,
                                    aggs@[p].1,
                                ),
                            groups_inv(groups@, rows, aggs@),
                            (g as int) < groups@.len(),
                            gid_of(groups@[g as int]) == k,
                            k == gid(rnew),
                            rnew == grow(*rg, q, i as int),
                            t == rg.time_at(i as int),
                            rows.len() < count_cap(),
                            j <= na,
                            new_accs@.len() == j,
                            forall|p: int|
                                0 <= p < j ==> agg_result_ok(
                                    #[trigger] new_accs@[p],
                                    spec_agg(aggs@[p].1, rows.push(rnew), k, p),
                                ),
                        decreases na - j,
                    {
                        proof {
                            assert(acol_valid(rg.columns@, aggs@[j as int].0@, aggs@[j as int].1));
                            assert(has_col(rg.columns@, aggs@[j as int].0@));
                            assert(q.acols[j as int] == aggs@[j as int].0@);
                        }
                        let v = read_agg_value(rg, &aggs[j].0, i, Ghost(q), Ghost(j as int));
                        let ghost acc_old = groups@[g as int].accs@[j as int];
                        let ghost w_old = spec_agg(aggs@[j as int].1, rows, k, j as int);
                        proof {
                            assert(agg_result_ok(acc_old, w_old));
                            // The accumulator is in the overflow-safe envelope.
                            lemma_grp_count_le_len(rows, k);
                            lemma_grp_sum_bound(rows, k, j as int);
                            // Sum, Min and Max read an integer column.
                            if aggs@[j as int].1 is Sum || aggs@[j as int].1 is Min
                                || aggs@[j as int].1 is Max {
                                let name = aggs@[j as int].0@;
                                let cols = rg.columns@;
                                let jv = choose|c: int|
                                    0 <= c < cols.len() && (#[trigger] cols[c].name@) == name && (
                                    cols[c].data is I64);
                                lemma_unique_col(cols, jv, col_idx(cols, name));
                            }
                            lemma_agg_push(rows, rnew, k, j as int);
                        }
                        let na2 = acc_step(&groups[g].accs[j], aggs[j].1, &v, t);
                        proof {
                            assert(val_of(v) == rnew.vals[j as int]);
                            assert(t == rnew.time);
                            let a = aggs@[j as int].1;
                            if a is Count {
                                assert(w_old == AggV::Count(grp_count(rows, k)));
                            } else if a is Sum {
                                assert(w_old == AggV::Sum(grp_sum(rows, k, j as int)));
                            } else if a is Min {
                                assert(w_old == AggV::Min(grp_min(rows, k, j as int)));
                            } else if a is Max {
                                assert(w_old == AggV::Max(grp_max(rows, k, j as int)));
                            } else if a is First {
                                assert(w_old == AggV::First(grp_first(rows, k, j as int)));
                            } else {
                                assert(w_old == AggV::Last(grp_last(rows, k, j as int)));
                            }
                            assert(agg_result_ok(
                                na2,
                                spec_agg(aggs@[j as int].1, rows.push(rnew), k, j as int),
                            ));
                        }
                        new_accs.push(na2);
                        j += 1;
                    }
                    let ghost gl0 = groups@;
                    let ge = &mut groups[g];
                    ge.accs = new_accs;
                    proof {
                        let gl = groups@;
                        assert(gl.len() == gl0.len());
                        assert(forall|e: int| 0 <= e < gl.len() && e != g as int ==> gl[e] == gl0[e]);
                        assert(gl[g as int].key == gl0[g as int].key);
                        assert(gl[g as int].wstart == gl0[g as int].wstart);
                        assert(forall|e: int|
                            0 <= e < gl.len() ==> gid_of(#[trigger] gl[e]) == gid_of(gl0[e]));
                        assert forall|e: int, p: int|
                            0 <= e < gl.len() && 0 <= p < aggs@.len() implies agg_result_ok(
                            #[trigger] gl[e].accs@[p],
                            spec_agg(aggs@[p].1, rows2, gid_of(gl[e]), p),
                        ) by {
                            if e != g as int {
                                assert(agg_result_ok(
                                    gl0[e].accs@[p],
                                    spec_agg(aggs@[p].1, rows, gid_of(gl0[e]), p),
                                ));
                                lemma_agg_push(rows, rnew, gid_of(gl[e]), p);
                            }
                        }
                        assert forall|e: int| 0 <= e < gl.len() implies key_present(
                            rows2,
                            gid_of(#[trigger] gl[e]),
                        ) by {
                            assert(key_present(rows, gid_of(gl0[e])));
                            let wi = choose|wi: int|
                                0 <= wi < rows.len() && gid(#[trigger] rows[wi]) == gid_of(gl0[e]);
                            assert(rows2[wi] == rows[wi]);
                        }
                        assert forall|r: int| 0 <= r < rows2.len() implies exists|e: int|
                            0 <= e < gl.len() && gid_of(gl[e]) == gid(#[trigger] rows2[r]) by {
                            if r < rows.len() {
                                assert(rows2[r] == rows[r]);
                                let we = choose|e: int|
                                    0 <= e < gl0.len() && gid_of(#[trigger] gl0[e]) == gid(rows[r]);
                                assert(gid_of(gl[we]) == gid(rows2[r]));
                            } else {
                                assert(gid_of(gl[g as int]) == gid(rows2[r]));
                            }
                        }
                        assert(groups_inv(groups@, rows2, aggs@));
                    }
                },
                Option::None => {
                    proof {
                        // The key is new: no prior row carries it.
                        if key_present(rows, k) {
                            let wi = choose|wi: int| 0 <= wi < rows.len() && gid(rows[wi]) == k;
                            let we = choose|e: int|
                                0 <= e < groups@.len() && gid_of(groups@[e]) == gid(rows[wi]);
                            assert(gid_of(groups@[we]) == k);
                            assert(false);
                        }
                        lemma_grp_absent(rows, k, 0);
                    }
                    let mut new_accs: Vec<AggResult> = Vec::new();
                    let mut j: usize = 0;
                    while j < na
                        invariant
                            rg.wf(),
                            i < n,
                            n == rg.nrows,
                            na == aggs@.len(),
                            q.acols == agg_names(aggs@),
                            forall|p: int|
                                0 <= p < aggs@.len() ==> acol_valid(
                                    rg.columns@,
                                    #[trigger] aggs@[p].0@,
                                    aggs@[p].1,
                                ),
                            !key_present(rows, k),
                            k == gid(rnew),
                            rnew == grow(*rg, q, i as int),
                            t == rg.time_at(i as int),
                            j <= na,
                            new_accs@.len() == j,
                            forall|p: int|
                                0 <= p < j ==> agg_result_ok(
                                    #[trigger] new_accs@[p],
                                    spec_agg(aggs@[p].1, rows.push(rnew), k, p),
                                ),
                        decreases na - j,
                    {
                        proof {
                            assert(acol_valid(rg.columns@, aggs@[j as int].0@, aggs@[j as int].1));
                            assert(has_col(rg.columns@, aggs@[j as int].0@));
                            assert(q.acols[j as int] == aggs@[j as int].0@);
                            if aggs@[j as int].1 is Sum || aggs@[j as int].1 is Min
                                || aggs@[j as int].1 is Max {
                                let name = aggs@[j as int].0@;
                                let cols = rg.columns@;
                                let jv = choose|c: int|
                                    0 <= c < cols.len() && (#[trigger] cols[c].name@) == name && (
                                    cols[c].data is I64);
                                lemma_unique_col(cols, jv, col_idx(cols, name));
                            }
                            lemma_grp_absent(rows, k, j as int);
                            lemma_agg_push(rows, rnew, k, j as int);
                        }
                        let v = read_agg_value(rg, &aggs[j].0, i, Ghost(q), Ghost(j as int));
                        let na2 = acc_init(aggs[j].1, &v, t);
                        proof {
                            assert(val_of(v) == rnew.vals[j as int]);
                            assert(t == rnew.time);
                            assert(agg_result_ok(
                                na2,
                                spec_agg(aggs@[j as int].1, rows.push(rnew), k, j as int),
                            ));
                        }
                        new_accs.push(na2);
                        j += 1;
                    }
                    let entry = GroupedRow { key, wstart: ws, accs: new_accs };
                    proof {
                        assert(gid_of(entry) == k);
                    }
                    let ghost gl0 = groups@;
                    groups.push(entry);
                    proof {
                        let gl = groups@;
                        let glen = gl.len();
                        assert(gl == gl0.push(entry));
                        assert(forall|e: int| 0 <= e < glen - 1 ==> gl[e] == gl0[e]);
                        assert forall|a: int, b: int| 0 <= a < b < glen implies gid_of(gl[a])
                            != gid_of(gl[b]) by {
                            if b == glen - 1 {
                                // Every older entry's key occurs in `rows`,
                                // while `k` does not.
                                if gid_of(gl[a]) == k {
                                    assert(key_present(rows, gid_of(gl[a])));
                                }
                            }
                        }
                        assert forall|e: int, p: int|
                            0 <= e < glen && 0 <= p < aggs@.len() implies agg_result_ok(
                            #[trigger] gl[e].accs@[p],
                            spec_agg(aggs@[p].1, rows2, gid_of(gl[e]), p),
                        ) by {
                            if e < glen - 1 {
                                assert(key_present(rows, gid_of(gl[e])));
                                if gid_of(gl[e]) == k {
                                    assert(false);
                                }
                                lemma_agg_push(rows, rnew, gid_of(gl[e]), p);
                            }
                        }
                        assert forall|e: int| 0 <= e < glen implies key_present(
                            rows2,
                            gid_of(#[trigger] gl[e]),
                        ) by {
                            if e < glen - 1 {
                                let wi = choose|wi: int|
                                    0 <= wi < rows.len() && gid(rows[wi]) == gid_of(gl[e]);
                                assert(rows2[wi] == rows[wi]);
                            } else {
                                assert(gid(rows2[rows2.len() - 1]) == gid_of(gl[e]));
                            }
                        }
                        assert forall|r: int| 0 <= r < rows2.len() implies exists|e: int|
                            0 <= e < glen && gid_of(gl[e]) == gid(#[trigger] rows2[r]) by {
                            if r < rows.len() {
                                assert(rows2[r] == rows[r]);
                                let we = choose|e: int|
                                    0 <= e < gl0.len() && gid_of(#[trigger] gl0[e]) == gid(rows[r]);
                                assert(gid_of(gl[we]) == gid(rows2[r]));
                            } else {
                                assert(gid_of(gl[glen - 1]) == gid(rows2[r]));
                            }
                        }
                        assert(groups_inv(groups@, rows2, aggs@));
                    }
                },
            }
        } else {
            proof {
                assert(rg_rows_upto(*rg, q, i + 1) == rg_rows_upto(*rg, q, i as int));
            }
        }
        i += 1;
    }
}

} // verus!
