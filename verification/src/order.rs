//! The deterministic order of grouped output: lexicographic by group-key
//! tuple, then by window start. The order is a function of the group
//! identity alone, so repeated queries list groups identically however
//! the chunks arrived or were merged.

use vstd::prelude::*;

use crate::agg::{AggregateType, GRow};
use crate::column::strs;
use crate::scan::{gid_of, groups_inv, keys_eq, GroupedRow};

verus! {

/// Strict lexicographic order on character sequences: a proper prefix
/// comes first; otherwise the first differing character (by code point)
/// decides.
pub open spec fn chars_lt(a: Seq<char>, b: Seq<char>) -> bool
    decreases a.len(),
{
    if b.len() == 0 {
        false
    } else if a.len() == 0 {
        true
    } else if (a[0] as u32) < (b[0] as u32) {
        true
    } else if a[0] == b[0] {
        chars_lt(a.skip(1), b.skip(1))
    } else {
        false
    }
}

/// Strict lexicographic order on key tuples, ordering the component
/// strings by `chars_lt`.
pub open spec fn keys_lt(a: Seq<Seq<char>>, b: Seq<Seq<char>>) -> bool
    decreases a.len(),
{
    if b.len() == 0 {
        false
    } else if a.len() == 0 {
        true
    } else if chars_lt(a[0], b[0]) {
        true
    } else if a[0] == b[0] {
        keys_lt(a.skip(1), b.skip(1))
    } else {
        false
    }
}

/// The output order of grouped rows: by key tuple, then window start.
pub open spec fn row_before(x: GroupedRow, y: GroupedRow) -> bool {
    ||| keys_lt(strs(x.key@), strs(y.key@))
    ||| (strs(x.key@) == strs(y.key@) && x.wstart < y.wstart)
}

/// Whether grouped rows stand in strictly ascending output order.
pub open spec fn rows_sorted(s: Seq<GroupedRow>) -> bool {
    forall|a: int, b: int| 0 <= a < b < s.len() ==> row_before(s[a], s[b])
}

pub proof fn lemma_chars_lt_irrefl(a: Seq<char>)
    ensures
        !chars_lt(a, a),
    decreases a.len(),
{
    if a.len() > 0 {
        lemma_chars_lt_irrefl(a.skip(1));
    }
}

/// Two distinct strings are ordered one way or the other.
pub proof fn lemma_chars_lt_total(a: Seq<char>, b: Seq<char>)
    requires
        a != b,
    ensures
        chars_lt(a, b) || chars_lt(b, a),
    decreases a.len(),
{
    if a.len() == 0 {
        assert(b.len() > 0) by {
            if b.len() == 0 {
                assert(a =~= b);
            }
        }
    } else if b.len() == 0 {
    } else {
        if a[0] == b[0] {
            assert(a.skip(1) != b.skip(1)) by {
                if a.skip(1) == b.skip(1) {
                    assert(a.skip(1).len() == b.skip(1).len());
                    assert(a.len() == b.len());
                    assert(a =~= b) by {
                        assert forall|i: int| 0 <= i < a.len() implies a[i] == b[i] by {
                            if i >= 1 {
                                assert(a[i] == a.skip(1)[i - 1]);
                                assert(b[i] == b.skip(1)[i - 1]);
                            }
                        }
                    }
                }
            }
            lemma_chars_lt_total(a.skip(1), b.skip(1));
        } else {
            assert((a[0] as u32) != (b[0] as u32)) by {
                if (a[0] as u32) == (b[0] as u32) {
                    vstd::utf8::char_u32_cast(a[0], a[0] as u32);
                    vstd::utf8::char_u32_cast(b[0], b[0] as u32);
                }
            }
        }
    }
}

pub proof fn lemma_chars_lt_trans(a: Seq<char>, b: Seq<char>, c: Seq<char>)
    requires
        chars_lt(a, b),
        chars_lt(b, c),
    ensures
        chars_lt(a, c),
    decreases a.len(),
{
    if a.len() > 0 && b.len() > 0 && a[0] == b[0] && b[0] == c[0] {
        lemma_chars_lt_trans(a.skip(1), b.skip(1), c.skip(1));
    }
}

pub proof fn lemma_keys_lt_total(a: Seq<Seq<char>>, b: Seq<Seq<char>>)
    requires
        a != b,
    ensures
        keys_lt(a, b) || keys_lt(b, a),
    decreases a.len(),
{
    if a.len() == 0 {
        assert(b.len() > 0) by {
            if b.len() == 0 {
                assert(a =~= b);
            }
        }
    } else if b.len() == 0 {
    } else {
        if a[0] == b[0] {
            assert(a.skip(1) != b.skip(1)) by {
                if a.skip(1) == b.skip(1) {
                    assert(a.skip(1).len() == b.skip(1).len());
                    assert(a.len() == b.len());
                    assert(a =~= b) by {
                        assert forall|i: int| 0 <= i < a.len() implies a[i] == b[i] by {
                            if i >= 1 {
                                assert(a[i] == a.skip(1)[i - 1]);
                                assert(b[i] == b.skip(1)[i - 1]);
                            }
                        }
                    }
                }
            }
            lemma_keys_lt_total(a.skip(1), b.skip(1));
        } else {
            lemma_chars_lt_total(a[0], b[0]);
        }
    }
}

pub proof fn lemma_keys_lt_trans(a: Seq<Seq<char>>, b: Seq<Seq<char>>, c: Seq<Seq<char>>)
    requires
        keys_lt(a, b),
        keys_lt(b, c),
    ensures
        keys_lt(a, c),
    decreases a.len(),
{
    if a.len() > 0 && b.len() > 0 && c.len() > 0 {
        lemma_chars_lt_irrefl(a[0]);
        lemma_chars_lt_irrefl(b[0]);
        if a[0] == b[0] && b[0] == c[0] {
            lemma_keys_lt_trans(a.skip(1), b.skip(1), c.skip(1));
        } else if chars_lt(a[0], b[0]) && chars_lt(b[0], c[0]) {
            lemma_chars_lt_trans(a[0], b[0], c[0]);
        }
    }
}

/// Rows with distinct group identities are ordered one way or the
/// other.
pub proof fn lemma_row_before_total(x: GroupedRow, y: GroupedRow)
    requires
        gid_of(x) != gid_of(y),
    ensures
        row_before(x, y) || row_before(y, x),
{
    if strs(x.key@) != strs(y.key@) {
        lemma_keys_lt_total(strs(x.key@), strs(y.key@));
    }
}

pub proof fn lemma_row_before_trans(x: GroupedRow, y: GroupedRow, z: GroupedRow)
    requires
        row_before(x, y),
        row_before(y, z),
    ensures
        row_before(x, z),
{
    if keys_lt(strs(x.key@), strs(y.key@)) && keys_lt(strs(y.key@), strs(z.key@)) {
        lemma_keys_lt_trans(strs(x.key@), strs(y.key@), strs(z.key@));
    }
}

/// Decides `chars_lt` on two strings.
pub fn str_before(a: &String, b: &String) -> (r: bool)
    ensures
        r == chars_lt(a@, b@),
{
    let na = a.as_str().unicode_len();
    let nb = b.as_str().unicode_len();
    let mut i: usize = 0;
    proof {
        assert(a@.skip(0) =~= a@);
        assert(b@.skip(0) =~= b@);
    }
    while i < na && i < nb
        invariant
            na == a@.len(),
            nb == b@.len(),
            i <= na,
            i <= nb,
            chars_lt(a@, b@) == chars_lt(a@.skip(i as int), b@.skip(i as int)),
        decreases na - i,
    {
        let ca = a.as_str().get_char(i);
        let cb = b.as_str().get_char(i);
        proof {
            assert(a@.skip(i as int)[0] == a@[i as int]);
            assert(b@.skip(i as int)[0] == b@[i as int]);
        }
        if (ca as u32) < (cb as u32) {
            return true;
        }
        if !(ca == cb) {
            return false;
        }
        proof {
            assert(a@.skip(i as int).skip(1) =~= a@.skip(i + 1));
            assert(b@.skip(i as int).skip(1) =~= b@.skip(i + 1));
        }
        i += 1;
    }
    proof {
        if i == nb {
            assert(b@.skip(i as int).len() == 0);
        } else {
            assert(a@.skip(i as int).len() == 0);
            assert(b@.skip(i as int).len() > 0);
        }
    }
    i == na && i < nb
}

/// Decides `keys_lt` on two key tuples.
pub fn keys_before(a: &Vec<String>, b: &Vec<String>) -> (r: bool)
    ensures
        r == keys_lt(strs(a@), strs(b@)),
{
    let na = a.len();
    let nb = b.len();
    let mut i: usize = 0;
    proof {
        assert(strs(a@).skip(0) =~= strs(a@));
        assert(strs(b@).skip(0) =~= strs(b@));
    }
    while i < na && i < nb
        invariant
            na == a@.len(),
            nb == b@.len(),
            i <= na,
            i <= nb,
            keys_lt(strs(a@), strs(b@)) == keys_lt(
                strs(a@).skip(i as int),
                strs(b@).skip(i as int),
            ),
        decreases na - i,
    {
        proof {
            assert(strs(a@).skip(i as int)[0] == a@[i as int]@);
            assert(strs(b@).skip(i as int)[0] == b@[i as int]@);
        }
        if str_before(&a[i], &b[i]) {
            return true;
        }
        if !(a[i] == b[i]) {
            return false;
        }
        proof {
            assert(strs(a@).skip(i as int).skip(1) =~= strs(a@).skip(i + 1));
            assert(strs(b@).skip(i as int).skip(1) =~= strs(b@).skip(i + 1));
        }
        i += 1;
    }
    proof {
        if i == nb {
            assert(strs(b@).skip(i as int).len() == 0);
        } else {
            assert(strs(a@).skip(i as int).len() == 0);
            assert(strs(b@).skip(i as int).len() > 0);
        }
    }
    i == na && i < nb
}

/// Reorders grouped output into the deterministic output order by
/// repeatedly extracting the least remaining group. The grouping
/// invariant speaks of the entries as a set, so it carries across the
/// permutation.
pub fn sort_groups(
    groups: Vec<GroupedRow>,
    aggs: &Vec<(String, AggregateType)>,
    Ghost(rows): Ghost<Seq<GRow>>,
) -> (r: Vec<GroupedRow>)
    requires
        groups_inv(groups@, rows, aggs@),
    ensures
        groups_inv(r@, rows, aggs@),
        rows_sorted(r@),
{
    let mut rest = groups;
    let mut out: Vec<GroupedRow> = Vec::new();
    proof {
        assert(out@ + rest@ =~= rest@);
    }
    while rest.len() > 0
        invariant
            groups_inv(out@ + rest@, rows, aggs@),
            rows_sorted(out@),
            forall|e: int, g: int|
                0 <= e < out@.len() && 0 <= g < rest@.len() ==> row_before(
                    #[trigger] out@[e],
                    #[trigger] rest@[g],
                ),
        decreases rest@.len(),
    {
        let n = rest.len();
        let mut m: usize = 0;
        let mut g: usize = 1;
        while g < n
            invariant
                n == rest@.len(),
                0 < n,
                m < g,
                m < n,
                g <= n,
                groups_inv(out@ + rest@, rows, aggs@),
                rows_sorted(out@),
                forall|e: int, g2: int|
                    0 <= e < out@.len() && 0 <= g2 < rest@.len() ==> row_before(
                        #[trigger] out@[e],
                        #[trigger] rest@[g2],
                    ),
                forall|p: int|
                    0 <= p < g && p != m ==> row_before(rest@[m as int], #[trigger] rest@[p]),
            decreases n - g,
        {
            if group_before(&rest[g], &rest[m]) {
                proof {
                    assert forall|p: int|
                        0 <= p < g + 1 && p != g as int implies row_before(
                        rest@[g as int],
                        #[trigger] rest@[p],
                    ) by {
                        if p != m as int {
                            lemma_row_before_trans(rest@[g as int], rest@[m as int], rest@[p]);
                        }
                    }
                }
                m = g;
            } else {
                proof {
                    let ol = out@.len() as int;
                    assert((out@ + rest@)[ol + m as int] == rest@[m as int]);
                    assert((out@ + rest@)[ol + g as int] == rest@[g as int]);
                    assert(gid_of(rest@[m as int]) != gid_of(rest@[g as int]));
                    lemma_row_before_total(rest@[m as int], rest@[g as int]);
                }
            }
            g += 1;
        }
        let ghost o0 = out@;
        let ghost r0 = rest@;
        let picked = rest.swap_remove(m);
        out.push(picked);
        proof {
            let ol = o0.len() as int;
            let nn = r0.len() as int;
            let mi = m as int;
            let big0 = o0 + r0;
            let big = out@ + rest@;
            assert(out@ == o0.push(r0[mi]));
            assert(rest@ == r0.update(mi, r0.last()).drop_last());
            assert(big.len() == big0.len());
            // Every new position holds the element of one old position.
            let oldpos = |i: int|
                if i < ol {
                    i
                } else if i == ol {
                    ol + mi
                } else if i - ol - 1 == mi {
                    ol + nn - 1
                } else {
                    i - 1
                };
            assert forall|i: int| 0 <= i < big.len() implies big[i] == big0[oldpos(i)] && 0
                <= oldpos(i) < big0.len() by {
                if i < ol {
                    assert(big[i] == out@[i]);
                    assert(big0[i] == o0[i]);
                } else if i == ol {
                    assert(big[i] == out@[ol]);
                    assert(big0[ol + mi] == r0[mi]);
                } else {
                    let j = i - ol - 1;
                    assert(big[i] == rest@[j]);
                    if j == mi {
                        assert(rest@[j] == r0[nn - 1]);
                        assert(big0[ol + nn - 1] == r0[nn - 1]);
                    } else {
                        assert(rest@[j] == r0[j]);
                        assert(big0[ol + j] == r0[j]);
                    }
                }
            }
            // Distinct group identities: the position mapping never
            // sends two new positions to one old one.
            assert forall|a: int, b: int| 0 <= a < b < big.len() implies gid_of(big[a])
                != gid_of(big[b]) by {
                let oa = oldpos(a);
                let ob = oldpos(b);
                assert(big[a] == big0[oa]);
                assert(big[b] == big0[ob]);
                if a == ol && b > ol {
                    let j2 = b - ol - 1;
                    if j2 == mi {
                        assert(ob == ol + nn - 1);
                        assert(j2 < nn - 1);
                    }
                }
                if a > ol && b > ol {
                    let ja = a - ol - 1;
                    let jb = b - ol - 1;
                    assert(ja < jb < nn - 1);
                    if ja == mi {
                        assert(oa == ol + nn - 1 && ob <= ol + nn - 2);
                    } else if jb == mi {
                        assert(ob == ol + nn - 1 && oa <= ol + nn - 2);
                    }
                }
                assert(oa != ob);
                if oa < ob {
                    assert(gid_of(big0[oa]) != gid_of(big0[ob]));
                } else {
                    assert(gid_of(big0[ob]) != gid_of(big0[oa]));
                }
            }
            // Keys present, accumulator lengths and values: elementwise.
            assert forall|e: int| 0 <= e < big.len() implies crate::agg::key_present(
                rows,
                gid_of(#[trigger] big[e]),
            ) && (big[e].accs@.len() == aggs@.len()) by {
                assert(big[e] == big0[oldpos(e)]);
            }
            assert forall|e: int, j: int|
                0 <= e < big.len() && 0 <= j < aggs@.len() implies crate::agg::agg_result_ok(
                #[trigger] big[e].accs@[j],
                crate::agg::spec_agg(aggs@[j].1, rows, gid_of(big[e]), j),
            ) by {
                assert(big[e] == big0[oldpos(e)]);
                assert(crate::agg::agg_result_ok(
                    big0[oldpos(e)].accs@[j],
                    crate::agg::spec_agg(aggs@[j].1, rows, gid_of(big0[oldpos(e)]), j),
                ));
            }
            // Every row's key still has an entry.
            assert forall|ri: int| 0 <= ri < rows.len() implies exists|e: int|
                0 <= e < big.len() && gid_of(big[e]) == crate::agg::gid(#[trigger] rows[ri]) by {
                let e0 = choose|e: int|
                    0 <= e < big0.len() && gid_of(big0[e]) == crate::agg::gid(rows[ri]);
                let enew = if e0 < ol {
                    e0
                } else if e0 == ol + mi {
                    ol
                } else if e0 == ol + nn - 1 {
                    ol + 1 + mi
                } else {
                    e0 + 1
                };
                assert(oldpos(enew) == e0);
                assert(big[enew] == big0[e0]);
            }
            assert(groups_inv(big, rows, aggs@));
            // The extracted minimum extends the sorted prefix and stays
            // before everything left.
            assert forall|a: int, b: int| 0 <= a < b < out@.len() implies row_before(
                out@[a],
                out@[b],
            ) by {
                if b == out@.len() - 1 {
                    assert(out@[a] == o0[a]);
                    assert(row_before(o0[a], r0[mi]));
                }
            }
            assert forall|e: int, g2: int|
                0 <= e < out@.len() && 0 <= g2 < rest@.len() implies row_before(
                #[trigger] out@[e],
                #[trigger] rest@[g2],
            ) by {
                let src = if g2 == mi {
                    nn - 1
                } else {
                    g2
                };
                assert(rest@[g2] == r0[src]);
                assert(src != mi);
                if e < out@.len() - 1 {
                    assert(out@[e] == o0[e]);
                    assert(row_before(o0[e], r0[src]));
                } else {
                    assert(out@[e] == r0[mi]);
                    assert(row_before(r0[mi], r0[src]));
                }
            }
        }
    }
    out
}

/// Decides the output order on two grouped rows.
pub fn group_before(x: &GroupedRow, y: &GroupedRow) -> (r: bool)
    ensures
        r == row_before(*x, *y),
{
    if keys_before(&x.key, &y.key) {
        true
    } else if keys_eq(&x.key, &y.key) {
        x.wstart < y.wstart
    } else {
        false
    }
}

} // verus!
