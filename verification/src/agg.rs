//! Aggregate functions and their merge semantics.
//!
//! A grouped query conceptually flattens the surviving rows into one
//! sequence of [`GRow`] records; every aggregate is defined as a fold over
//! that sequence, restricted to one group. Chunks are aggregated locally
//! and the partial states are then merged; the lemmas here show that the
//! merge of two partial states equals the aggregate of the concatenated
//! row sequences, so per-chunk computation cannot double count.

use vstd::prelude::*;

use crate::column::{val_of, Val, Value};

verus! {

/// The supported aggregate functions. First and Last select the value
/// carried by the chronologically first (or last) surviving row of the
/// group.
#[derive(Clone, Copy, PartialEq, Eq, Structural, Debug)]
pub enum AggregateType {
    Count,
    Sum,
    Min,
    Max,
    First,
    Last,
}

/// One surviving row, abstracted: its group key (the values of the group
/// columns), its window bucket start, its timestamp, and the values of the
/// aggregated columns.
pub struct GRow {
    pub key: Seq<Seq<char>>,
    pub wstart: int,
    pub time: i64,
    pub vals: Seq<Val>,
}

/// The identity of the group a row belongs to.
pub open spec fn gid(r: GRow) -> (Seq<Seq<char>>, int) {
    (r.key, r.wstart)
}

/// The integer carried by an integer value; irrelevant (zero) otherwise.
pub open spec fn int_of(v: Val) -> int {
    match v {
        Val::I64(x) => x as int,
        _ => 0,
    }
}

/// Whether some row of `rows` belongs to group `k`.
pub open spec fn key_present(rows: Seq<GRow>, k: (Seq<Seq<char>>, int)) -> bool {
    exists|i: int| 0 <= i < rows.len() && gid(rows[i]) == k
}

/// Number of rows of group `k`.
pub open spec fn grp_count(rows: Seq<GRow>, k: (Seq<Seq<char>>, int)) -> int
    decreases rows.len(),
{
    if rows.len() == 0 {
        0
    } else {
        grp_count(rows.drop_last(), k) + if gid(rows.last()) == k {
            1int
        } else {
            0int
        }
    }
}

/// Sum over group `k` of the `j`-th aggregated column.
pub open spec fn grp_sum(rows: Seq<GRow>, k: (Seq<Seq<char>>, int), j: int) -> int
    decreases rows.len(),
{
    if rows.len() == 0 {
        0
    } else {
        grp_sum(rows.drop_last(), k, j) + if gid(rows.last()) == k {
            int_of(rows.last().vals[j])
        } else {
            0int
        }
    }
}

/// Folds one more value into a running minimum.
pub open spec fn opt_min(a: Option<int>, x: int) -> Option<int> {
    match a {
        Option::None => Option::Some(x),
        Option::Some(m) => if x < m {
            Option::Some(x)
        } else {
            Option::Some(m)
        },
    }
}

pub open spec fn opt_max(a: Option<int>, x: int) -> Option<int> {
    match a {
        Option::None => Option::Some(x),
        Option::Some(m) => if x > m {
            Option::Some(x)
        } else {
            Option::Some(m)
        },
    }
}

/// Minimum over group `k` of the `j`-th aggregated column; `None` when the
/// group has no row.
pub open spec fn grp_min(rows: Seq<GRow>, k: (Seq<Seq<char>>, int), j: int) -> Option<int>
    decreases rows.len(),
{
    if rows.len() == 0 {
        Option::None
    } else {
        let rest = grp_min(rows.drop_last(), k, j);
        if gid(rows.last()) == k {
            opt_min(rest, int_of(rows.last().vals[j]))
        } else {
            rest
        }
    }
}

pub open spec fn grp_max(rows: Seq<GRow>, k: (Seq<Seq<char>>, int), j: int) -> Option<int>
    decreases rows.len(),
{
    if rows.len() == 0 {
        Option::None
    } else {
        let rest = grp_max(rows.drop_last(), k, j);
        if gid(rows.last()) == k {
            opt_max(rest, int_of(rows.last().vals[j]))
        } else {
            rest
        }
    }
}

/// Folds one more candidate into a running First: the earlier timestamp
/// wins; on equal timestamps the incumbent is kept.
pub open spec fn first_pick(a: Option<(Val, i64)>, v: Val, t: i64) -> Option<(Val, i64)> {
    match a {
        Option::None => Option::Some((v, t)),
        Option::Some(c) => if t < c.1 {
            Option::Some((v, t))
        } else {
            Option::Some(c)
        },
    }
}

pub open spec fn last_pick(a: Option<(Val, i64)>, v: Val, t: i64) -> Option<(Val, i64)> {
    match a {
        Option::None => Option::Some((v, t)),
        Option::Some(c) => if t > c.1 {
            Option::Some((v, t))
        } else {
            Option::Some(c)
        },
    }
}

/// First candidate (value and timestamp) of group `k` for the `j`-th
/// aggregated column.
pub open spec fn grp_first(rows: Seq<GRow>, k: (Seq<Seq<char>>, int), j: int) -> Option<(Val, i64)>
    decreases rows.len(),
{
    if rows.len() == 0 {
        Option::None
    } else {
        let rest = grp_first(rows.drop_last(), k, j);
        if gid(rows.last()) == k {
            first_pick(rest, rows.last().vals[j], rows.last().time)
        } else {
            rest
        }
    }
}

pub open spec fn grp_last(rows: Seq<GRow>, k: (Seq<Seq<char>>, int), j: int) -> Option<(Val, i64)>
    decreases rows.len(),
{
    if rows.len() == 0 {
        Option::None
    } else {
        let rest = grp_last(rows.drop_last(), k, j);
        if gid(rows.last()) == k {
            last_pick(rest, rows.last().vals[j], rows.last().time)
        } else {
            rest
        }
    }
}

/// The mathematical state of one aggregate for one group.
pub enum AggV {
    Count(int),
    Sum(int),
    Min(Option<int>),
    Max(Option<int>),
    First(Option<(Val, i64)>),
    Last(Option<(Val, i64)>),
}

/// The aggregate of kind `a` over the rows of group `k`, reading the
/// `j`-th aggregated column.
pub open spec fn spec_agg(a: AggregateType, rows: Seq<GRow>, k: (Seq<Seq<char>>, int), j: int) -> AggV {
    match a {
        AggregateType::Count => AggV::Count(grp_count(rows, k)),
        AggregateType::Sum => AggV::Sum(grp_sum(rows, k, j)),
        AggregateType::Min => AggV::Min(grp_min(rows, k, j)),
        AggregateType::Max => AggV::Max(grp_max(rows, k, j)),
        AggregateType::First => AggV::First(grp_first(rows, k, j)),
        AggregateType::Last => AggV::Last(grp_last(rows, k, j)),
    }
}

/// Merge of two optional minima.
pub open spec fn opt_min2(a: Option<int>, b: Option<int>) -> Option<int> {
    match b {
        Option::None => a,
        Option::Some(y) => opt_min(a, y),
    }
}

pub open spec fn opt_max2(a: Option<int>, b: Option<int>) -> Option<int> {
    match b {
        Option::None => a,
        Option::Some(y) => opt_max(a, y),
    }
}

/// Merge of two First candidates: the smaller timestamp wins, the left
/// (earlier-scanned) candidate on a tie.
pub open spec fn first2(a: Option<(Val, i64)>, b: Option<(Val, i64)>) -> Option<(Val, i64)> {
    match b {
        Option::None => a,
        Option::Some(c) => first_pick(a, c.0, c.1),
    }
}

pub open spec fn last2(a: Option<(Val, i64)>, b: Option<(Val, i64)>) -> Option<(Val, i64)> {
    match b {
        Option::None => a,
        Option::Some(c) => last_pick(a, c.0, c.1),
    }
}

/// Merge of two partial aggregate states of the same kind.
pub open spec fn merge_aggv(x: AggV, y: AggV) -> AggV {
    match x {
        AggV::Count(c1) => match y {
            AggV::Count(c2) => AggV::Count(c1 + c2),
            _ => x,
        },
        AggV::Sum(s1) => match y {
            AggV::Sum(s2) => AggV::Sum(s1 + s2),
            _ => x,
        },
        AggV::Min(m1) => match y {
            AggV::Min(m2) => AggV::Min(opt_min2(m1, m2)),
            _ => x,
        },
        AggV::Max(m1) => match y {
            AggV::Max(m2) => AggV::Max(opt_max2(m1, m2)),
            _ => x,
        },
        AggV::First(f1) => match y {
            AggV::First(f2) => AggV::First(first2(f1, f2)),
            _ => x,
        },
        AggV::Last(f1) => match y {
            AggV::Last(f2) => AggV::Last(last2(f1, f2)),
            _ => x,
        },
    }
}

/// The computed state of one aggregate for one group with at least one
/// surviving row.
#[derive(Debug)]
pub enum AggResult {
    Count(u64),
    Sum(i128),
    Min(i64),
    Max(i64),
    First(Value, i64),
    Last(Value, i64),
}

/// Whether the concrete result `r` represents the mathematical aggregate
/// state `v`.
pub open spec fn agg_result_ok(r: AggResult, v: AggV) -> bool {
    match r {
        AggResult::Count(c) => v == AggV::Count(c as int),
        AggResult::Sum(s) => v == AggV::Sum(s as int),
        AggResult::Min(m) => v == AggV::Min(Option::Some(m as int)),
        AggResult::Max(m) => v == AggV::Max(Option::Some(m as int)),
        AggResult::First(w, t) => v == AggV::First(Option::Some((val_of(w), t))),
        AggResult::Last(w, t) => v == AggV::Last(Option::Some((val_of(w), t))),
    }
}

/// The state of aggregate `a` after its group's one and only row, carrying
/// value `v` at time `t`.
pub fn acc_init(a: AggregateType, v: &Value, t: i64) -> (r: AggResult)
    requires
        (a is Sum || a is Min || a is Max) ==> val_of(*v) is I64,
    ensures
        agg_result_ok(
            r,
            match a {
                AggregateType::Count => AggV::Count(1),
                AggregateType::Sum => AggV::Sum(int_of(val_of(*v))),
                AggregateType::Min => AggV::Min(Option::Some(int_of(val_of(*v)))),
                AggregateType::Max => AggV::Max(Option::Some(int_of(val_of(*v)))),
                AggregateType::First => AggV::First(Option::Some((val_of(*v), t))),
                AggregateType::Last => AggV::Last(Option::Some((val_of(*v), t))),
            },
        ),
{
    match a {
        AggregateType::Count => AggResult::Count(1),
        AggregateType::Sum => AggResult::Sum(as_i64(v) as i128),
        AggregateType::Min => AggResult::Min(as_i64(v)),
        AggregateType::Max => AggResult::Max(as_i64(v)),
        AggregateType::First => AggResult::First(v.duplicate(), t),
        AggregateType::Last => AggResult::Last(v.duplicate(), t),
    }
}

/// The integer inside an integer value.
fn as_i64(v: &Value) -> (r: i64)
    requires
        val_of(*v) is I64,
    ensures
        r as int == int_of(val_of(*v)),
{
    match v {
        Value::I64(x) => *x,
        _ => 0,
    }
}

/// Bound under which a running count stays clear of overflow.
pub open spec fn count_cap() -> int {
    0x2000_0000_0000_0000
}

/// Bound on a running sum: a count within `count_cap` times the magnitude
/// of the largest 64-bit integer.
pub open spec fn sum_cap() -> int {
    0x2000_0000_0000_0000int * 0x8000_0000_0000_0000
}

/// Whether `r` is within the overflow-safe envelope.
pub open spec fn acc_in_cap(r: AggResult) -> bool {
    match r {
        AggResult::Count(c) => c as int <= count_cap(),
        AggResult::Sum(s) => -sum_cap() <= s as int <= sum_cap(),
        _ => true,
    }
}

/// Folds one more row (value `v` at time `t`) into a partial state.
pub fn acc_step(acc: &AggResult, a: AggregateType, v: &Value, t: i64) -> (r: AggResult)
    requires
        (a is Sum || a is Min || a is Max) ==> val_of(*v) is I64,
        acc_in_cap(*acc),
        match *acc {
            AggResult::Count(_) => a is Count,
            AggResult::Sum(_) => a is Sum,
            AggResult::Min(_) => a is Min,
            AggResult::Max(_) => a is Max,
            AggResult::First(_, _) => a is First,
            AggResult::Last(_, _) => a is Last,
        },
    ensures
        forall|w: AggV|
            agg_result_ok(*acc, w) ==> agg_result_ok(
                r,
                match w {
                    AggV::Count(c) => AggV::Count(c + 1),
                    AggV::Sum(s) => AggV::Sum(s + int_of(val_of(*v))),
                    AggV::Min(m) => AggV::Min(opt_min(m, int_of(val_of(*v)))),
                    AggV::Max(m) => AggV::Max(opt_max(m, int_of(val_of(*v)))),
                    AggV::First(f) => AggV::First(first_pick(f, val_of(*v), t)),
                    AggV::Last(f) => AggV::Last(last_pick(f, val_of(*v), t)),
                },
            ),
{
    match acc {
        AggResult::Count(c) => AggResult::Count(*c + 1),
        AggResult::Sum(s) => AggResult::Sum(*s + as_i64(v) as i128),
        AggResult::Min(m) => {
            let x = as_i64(v);
            AggResult::Min(if x < *m { x } else { *m })
        },
        AggResult::Max(m) => {
            let x = as_i64(v);
            AggResult::Max(if x > *m { x } else { *m })
        },
        AggResult::First(w, t0) => {
            if t < *t0 {
                AggResult::First(v.duplicate(), t)
            } else {
                AggResult::First(w.duplicate(), *t0)
            }
        },
        AggResult::Last(w, t0) => {
            if t > *t0 {
                AggResult::Last(v.duplicate(), t)
            } else {
                AggResult::Last(w.duplicate(), *t0)
            }
        },
    }
}

/// Merges two partial states of the same aggregate computed over disjoint
/// row sets.
pub fn acc_merge(x: &AggResult, y: &AggResult) -> (r: AggResult)
    requires
        acc_in_cap(*x),
        acc_in_cap(*y),
        match *x {
            AggResult::Count(_) => y is Count,
            AggResult::Sum(_) => y is Sum,
            AggResult::Min(_) => y is Min,
            AggResult::Max(_) => y is Max,
            AggResult::First(_, _) => y is First,
            AggResult::Last(_, _) => y is Last,
        },
    ensures
        forall|w1: AggV, w2: AggV|
            agg_result_ok(*x, w1) && agg_result_ok(*y, w2) ==> agg_result_ok(
                r,
                merge_aggv(w1, w2),
            ),
{
    match x {
        AggResult::Count(c1) => match y {
            AggResult::Count(c2) => AggResult::Count(*c1 + *c2),
            _ => AggResult::Count(*c1),
        },
        AggResult::Sum(s1) => match y {
            AggResult::Sum(s2) => AggResult::Sum(*s1 + *s2),
            _ => AggResult::Sum(*s1),
        },
        AggResult::Min(m1) => match y {
            AggResult::Min(m2) => AggResult::Min(if *m2 < *m1 { *m2 } else { *m1 }),
            _ => AggResult::Min(*m1),
        },
        AggResult::Max(m1) => match y {
            AggResult::Max(m2) => AggResult::Max(if *m2 > *m1 { *m2 } else { *m1 }),
            _ => AggResult::Max(*m1),
        },
        AggResult::First(w1, t1) => match y {
            AggResult::First(w2, t2) => {
                if *t2 < *t1 {
                    AggResult::First(w2.duplicate(), *t2)
                } else {
                    AggResult::First(w1.duplicate(), *t1)
                }
            },
            _ => AggResult::First(w1.duplicate(), *t1),
        },
        AggResult::Last(w1, t1) => match y {
            AggResult::Last(w2, t2) => {
                if *t2 > *t1 {
                    AggResult::Last(w2.duplicate(), *t2)
                } else {
                    AggResult::Last(w1.duplicate(), *t1)
                }
            },
            _ => AggResult::Last(w1.duplicate(), *t1),
        },
    }
}

impl AggResult {
    /// A copy of this state, equal to the original.
    pub fn duplicate(&self) -> (r: AggResult)
        ensures
            r == *self,
    {
        match self {
            AggResult::Count(c) => AggResult::Count(*c),
            AggResult::Sum(s) => AggResult::Sum(*s),
            AggResult::Min(m) => AggResult::Min(*m),
            AggResult::Max(m) => AggResult::Max(*m),
            AggResult::First(w, t) => AggResult::First(w.duplicate(), *t),
            AggResult::Last(w, t) => AggResult::Last(w.duplicate(), *t),
        }
    }
}

/// A group's count never exceeds the number of rows.
pub proof fn lemma_grp_count_le_len(rows: Seq<GRow>, k: (Seq<Seq<char>>, int))
    ensures
        0 <= grp_count(rows, k) <= rows.len(),
    decreases rows.len(),
{
    if rows.len() > 0 {
        lemma_grp_count_le_len(rows.drop_last(), k);
    }
}

/// A group's sum is bounded by its count times the magnitude of the
/// largest 64-bit integer.
pub proof fn lemma_grp_sum_bound(rows: Seq<GRow>, k: (Seq<Seq<char>>, int), j: int)
    ensures
        -grp_count(rows, k) * 0x8000_0000_0000_0000 <= grp_sum(rows, k, j) <= grp_count(rows, k)
            * 0x8000_0000_0000_0000,
    decreases rows.len(),
{
    if rows.len() > 0 {
        lemma_grp_sum_bound(rows.drop_last(), k, j);
    }
}

/// A group that no row belongs to has the neutral aggregate state.
pub proof fn lemma_grp_absent(rows: Seq<GRow>, k: (Seq<Seq<char>>, int), j: int)
    requires
        !key_present(rows, k),
    ensures
        grp_count(rows, k) == 0,
        grp_sum(rows, k, j) == 0,
        grp_min(rows, k, j) is None,
        grp_max(rows, k, j) is None,
        grp_first(rows, k, j) is None,
        grp_last(rows, k, j) is None,
    decreases rows.len(),
{
    if rows.len() > 0 {
        assert(gid(rows.last()) != k) by {
            assert(rows[rows.len() - 1] == rows.last());
        }
        assert(!key_present(rows.drop_last(), k)) by {
            if key_present(rows.drop_last(), k) {
                let i = choose|i: int|
                    0 <= i < rows.drop_last().len() && gid(rows.drop_last()[i]) == k;
                assert(rows[i] == rows.drop_last()[i]);
            }
        }
        lemma_grp_absent(rows.drop_last(), k, j);
    }
}

/// Appending one row updates each aggregate by one fold step.
pub proof fn lemma_agg_push(rows: Seq<GRow>, r: GRow, k: (Seq<Seq<char>>, int), j: int)
    ensures
        gid(r) == k ==> {
            &&& grp_count(rows.push(r), k) == grp_count(rows, k) + 1
            &&& grp_sum(rows.push(r), k, j) == grp_sum(rows, k, j) + int_of(r.vals[j])
            &&& grp_min(rows.push(r), k, j) == opt_min(grp_min(rows, k, j), int_of(r.vals[j]))
            &&& grp_max(rows.push(r), k, j) == opt_max(grp_max(rows, k, j), int_of(r.vals[j]))
            &&& grp_first(rows.push(r), k, j) == first_pick(grp_first(rows, k, j), r.vals[j], r.time)
            &&& grp_last(rows.push(r), k, j) == last_pick(grp_last(rows, k, j), r.vals[j], r.time)
        },
        gid(r) != k ==> {
            &&& grp_count(rows.push(r), k) == grp_count(rows, k)
            &&& grp_sum(rows.push(r), k, j) == grp_sum(rows, k, j)
            &&& grp_min(rows.push(r), k, j) == grp_min(rows, k, j)
            &&& grp_max(rows.push(r), k, j) == grp_max(rows, k, j)
            &&& grp_first(rows.push(r), k, j) == grp_first(rows, k, j)
            &&& grp_last(rows.push(r), k, j) == grp_last(rows, k, j)
        },
{
    assert(rows.push(r).drop_last() =~= rows);
    assert(rows.push(r).last() == r);
}

/// Aggregating a concatenation equals merging the two parts' aggregates:
/// counts and sums add, minima and maxima combine, and First and Last are
/// decided by timestamp, never by which part was scanned first.
pub proof fn lemma_agg_concat(a: Seq<GRow>, b: Seq<GRow>, k: (Seq<Seq<char>>, int), j: int)
    ensures
        grp_count(a + b, k) == grp_count(a, k) + grp_count(b, k),
        grp_sum(a + b, k, j) == grp_sum(a, k, j) + grp_sum(b, k, j),
        grp_min(a + b, k, j) == opt_min2(grp_min(a, k, j), grp_min(b, k, j)),
        grp_max(a + b, k, j) == opt_max2(grp_max(a, k, j), grp_max(b, k, j)),
        grp_first(a + b, k, j) == first2(grp_first(a, k, j), grp_first(b, k, j)),
        grp_last(a + b, k, j) == last2(grp_last(a, k, j), grp_last(b, k, j)),
    decreases b.len(),
{
    if b.len() == 0 {
        assert(a + b =~= a);
    } else {
        let b0 = b.drop_last();
        assert((a + b).drop_last() =~= a + b0);
        assert((a + b).last() == b.last());
        lemma_agg_concat(a, b0, k, j);
    }
}

/// First and Last are decided by the candidates' timestamps, never by
/// the order the parts are merged in: with distinct timestamps, merging
/// two candidates in either order selects the chronologically first (or
/// last) one.
pub proof fn lemma_first_last_order(c1: (Val, i64), c2: (Val, i64))
    requires
        c1.1 != c2.1,
    ensures
        first2(Option::Some(c1), Option::Some(c2)) == first2(Option::Some(c2), Option::Some(c1)),
        first2(Option::Some(c1), Option::Some(c2)) == Option::Some(
            if c1.1 < c2.1 {
                c1
            } else {
                c2
            },
        ),
        last2(Option::Some(c1), Option::Some(c2)) == last2(Option::Some(c2), Option::Some(c1)),
        last2(Option::Some(c1), Option::Some(c2)) == Option::Some(
            if c1.1 > c2.1 {
                c1
            } else {
                c2
            },
        ),
{
    assert((c1.0, c1.1) == c1);
    assert((c2.0, c2.1) == c2);
}

/// Merging partial Count, Sum, Min and Max states is commutative, so the
/// order chunks are combined in cannot change those aggregates.
pub proof fn lemma_merge_comm(x: AggV, y: AggV)
    requires
        match x {
            AggV::Count(_) => y is Count,
            AggV::Sum(_) => y is Sum,
            AggV::Min(_) => y is Min,
            AggV::Max(_) => y is Max,
            _ => false,
        },
    ensures
        merge_aggv(x, y) == merge_aggv(y, x),
{
}

/// Merging partial states is associative, so a set of rows split over
/// any number of chunks aggregates to the same result as one pass.
pub proof fn lemma_merge_assoc(x: AggV, y: AggV, z: AggV)
    requires
        match x {
            AggV::Count(_) => y is Count && z is Count,
            AggV::Sum(_) => y is Sum && z is Sum,
            AggV::Min(_) => y is Min && z is Min,
            AggV::Max(_) => y is Max && z is Max,
            AggV::First(_) => y is First && z is First,
            AggV::Last(_) => y is Last && z is Last,
        },
    ensures
        merge_aggv(merge_aggv(x, y), z) == merge_aggv(x, merge_aggv(y, z)),
{
}

/// Aggregate-level form of the concatenation law.
pub proof fn lemma_spec_agg_concat(
    a: AggregateType,
    ra: Seq<GRow>,
    rb: Seq<GRow>,
    k: (Seq<Seq<char>>, int),
    j: int,
)
    ensures
        spec_agg(a, ra + rb, k, j) == merge_aggv(spec_agg(a, ra, k, j), spec_agg(a, rb, k, j)),
{
    lemma_agg_concat(ra, rb, k, j);
}

/// Rows of other groups on the left do not disturb an aggregate.
pub proof fn lemma_spec_agg_absent_left(
    a: AggregateType,
    ra: Seq<GRow>,
    rb: Seq<GRow>,
    k: (Seq<Seq<char>>, int),
    j: int,
)
    requires
        !key_present(ra, k),
    ensures
        spec_agg(a, ra + rb, k, j) == spec_agg(a, rb, k, j),
{
    lemma_grp_absent(ra, k, j);
    lemma_agg_concat(ra, rb, k, j);
}

/// Rows of other groups on the right do not disturb an aggregate.
pub proof fn lemma_spec_agg_absent_right(
    a: AggregateType,
    ra: Seq<GRow>,
    rb: Seq<GRow>,
    k: (Seq<Seq<char>>, int),
    j: int,
)
    requires
        !key_present(rb, k),
    ensures
        spec_agg(a, ra + rb, k, j) == spec_agg(a, ra, k, j),
{
    lemma_grp_absent(rb, k, j);
    lemma_agg_concat(ra, rb, k, j);
}

} // verus!
