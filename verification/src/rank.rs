//! Ranking rows of the memory cache by activation.
//!
//! A memory's ACT-R base-level activation, with decay `d = 0.5`, is
//! `ln(n) - d * ln(age_s + 1)`, where `n = access_count + 1` counts its uses (its encoding
//! and every access since) and the age is taken at one moment, `now`, for all rows:
//! recent memories score higher, and so do frequently accessed ones. As
//! `2 * activation = ln(n * n * 1000 / (age_ms + 1000))`, ranking by activation, highest
//! first, is ranking by `n * n / (age_ms + 1000)`, which integers compare exactly by
//! cross-multiplying. A row dated more than a second after `now` (whose activation is
//! not a number) is weighed as if one millisecond old. The products reach about 2^129,
//! past `u128`, so each is computed as `2 * x + y` and the two are compared from their
//! parts. Rows that tie are kept in their stored order.
use vstd::prelude::*;
use crate::memory::{EntryModel, MemoryEntry, models};

verus! {

/// The age weight `age_ms + 1000` of a row dated `ts`, seen at `now` (at least 1).
pub open spec fn age_weight(now: i64, ts: i64) -> int {
    let w = now - ts + 1000;
    if w < 1 {
        1
    } else {
        w
    }
}

/// The squared use count `n * n` of a row.
pub open spec fn uses_squared(e: EntryModel) -> int {
    (e.access_count + 1) * (e.access_count + 1)
}

/// `n_i * n_i * weight_j`: row `i`'s side of the cross-multiplied comparison with row `j`.
pub open spec fn cross(rows: Seq<EntryModel>, now: i64, i: int, j: int) -> int {
    uses_squared(rows[i]) * age_weight(now, rows[j].timestamp)
}

/// Row `i` ranks before row `j`: its activation is higher, or equal and it is stored
/// earlier.
pub open spec fn ranks_before(rows: Seq<EntryModel>, now: i64, i: int, j: int) -> bool {
    cross(rows, now, i, j) > cross(rows, now, j, i) || (cross(rows, now, i, j) == cross(
        rows,
        now,
        j,
        i,
    ) && i < j)
}

/// Recent and frequently accessed memories rank first: of two rows of the same age, the
/// one accessed more often ranks before the other; of two rows accessed equally often,
/// the newer ranks before the older (when the newer is not dated a second or more after
/// `now`).
pub proof fn lemma_recent_and_frequent_first(rows: Seq<EntryModel>, now: i64, i: int, j: int)
    ensures
        rows[i].timestamp == rows[j].timestamp && rows[i].access_count > rows[j].access_count
            ==> ranks_before(rows, now, i, j),
        rows[i].access_count == rows[j].access_count && rows[j].timestamp < rows[i].timestamp
            && rows[i].timestamp < now + 1000 ==> ranks_before(rows, now, i, j),
{
    let ni = rows[i].access_count + 1;
    let nj = rows[j].access_count + 1;
    let wi = age_weight(now, rows[i].timestamp);
    let wj = age_weight(now, rows[j].timestamp);
    if rows[i].timestamp == rows[j].timestamp && rows[i].access_count > rows[j].access_count {
        lemma_scaled_order(ni * ni, nj * nj, wi);
        lemma_squares_order(ni, nj);
    }
    if rows[i].access_count == rows[j].access_count && rows[j].timestamp < rows[i].timestamp
        && rows[i].timestamp < now + 1000 {
        lemma_positive_square(ni);
        lemma_scaled_order(wj, wi, ni * ni);
    }
}

proof fn lemma_squares_order(a: int, b: int)
    by (nonlinear_arith)
    requires
        a > b >= 1,
    ensures
        a * a > b * b,
{
}

proof fn lemma_scaled_order(a: int, b: int, c: int)
    by (nonlinear_arith)
    requires
        c >= 1,
    ensures
        a > b ==> a * c > b * c,
        a > b ==> c * a > c * b,
{
}

/// Every index of `sel` points into `rows`, and no index repeats.
pub open spec fn valid_selection(rows: Seq<EntryModel>, sel: Seq<usize>) -> bool {
    &&& forall|k: int| 0 <= k < sel.len() ==> (#[trigger] sel[k]) < rows.len()
    &&& forall|i: int, j: int| 0 <= i < sel.len() && 0 <= j < sel.len() && i != j ==> sel[i] != sel[j]
}

/// `r` lists the indices of `sel` in rank order.
pub open spec fn is_ranking(rows: Seq<EntryModel>, now: i64, sel: Seq<usize>, r: Seq<usize>) -> bool {
    &&& r.len() == sel.len()
    &&& forall|k: int| 0 <= k < r.len() ==> sel.contains(#[trigger] r[k])
    &&& forall|k: int| 0 <= k < sel.len() ==> r.contains(#[trigger] sel[k])
    &&& forall|i: int, j: int|
        0 <= i < j < r.len() ==> ranks_before(rows, now, #[trigger] r[i] as int, #[trigger] r[j] as int)
}

/// The indices of `sel` in rank order (unique, see [`lemma_ranking_unique`]).
pub open spec fn ranking(rows: Seq<EntryModel>, now: i64, sel: Seq<usize>) -> Seq<usize> {
    choose|r: Seq<usize>| is_ranking(rows, now, sel, r)
}

proof fn lemma_ranks_before_order(rows: Seq<EntryModel>, now: i64, a: int, b: int, c: int)
    ensures
        !ranks_before(rows, now, a, a),
        ranks_before(rows, now, a, b) ==> !ranks_before(rows, now, b, a),
        ranks_before(rows, now, a, b) && ranks_before(rows, now, b, c) ==> ranks_before(rows, now, a, c),
        a != b ==> ranks_before(rows, now, a, b) || ranks_before(rows, now, b, a),
{
    let (pa, pb, pc) = (uses_squared(rows[a]), uses_squared(rows[b]), uses_squared(rows[c]));
    let wa = age_weight(now, rows[a].timestamp);
    let wb = age_weight(now, rows[b].timestamp);
    let wc = age_weight(now, rows[c].timestamp);
    lemma_positive_square(rows[a].access_count + 1);
    lemma_positive_square(rows[b].access_count + 1);
    lemma_positive_square(rows[c].access_count + 1);
    if ranks_before(rows, now, a, b) && ranks_before(rows, now, b, c) {
        lemma_cross_transitive(pa, pb, pc, wa, wb, wc);
    }
}

proof fn lemma_positive_square(n: int)
    by (nonlinear_arith)
    requires
        n >= 1,
    ensures
        n * n >= 1,
{
}

/// Comparing `p / w` by cross-multiplication is transitive when every `p` and `w` is
/// positive, and strictly so when one step is strict.
proof fn lemma_cross_transitive(pa: int, pb: int, pc: int, wa: int, wb: int, wc: int)
    by (nonlinear_arith)
    requires
        pa > 0,
        pb > 0,
        pc > 0,
        wa > 0,
        wb > 0,
        wc > 0,
        pa * wb >= pb * wa,
        pb * wc >= pc * wb,
    ensures
        pa * wc >= pc * wa,
        (pa * wb > pb * wa || pb * wc > pc * wb) ==> pa * wc > pc * wa,
{
    assert(pa * wb * wc >= pb * wa * wc);
    assert(pb * wc * wa >= pc * wb * wa);
    assert((pa * wc) * wb >= (pc * wa) * wb);
}

/// Two rank orders of the same indices are the same sequence.
pub proof fn lemma_ranking_unique(
    rows: Seq<EntryModel>,
    now: i64,
    sel: Seq<usize>,
    r1: Seq<usize>,
    r2: Seq<usize>,
)
    requires
        is_ranking(rows, now, sel, r1),
        is_ranking(rows, now, sel, r2),
    ensures
        r1 == r2,
{
    assert forall|k: int| 0 <= k < r1.len() implies r2.contains(#[trigger] r1[k]) by {
        let j = choose|j: int| 0 <= j < sel.len() && sel[j] == r1[k];
        assert(r2.contains(sel[j]));
    }
    assert forall|k: int| 0 <= k < r2.len() implies r1.contains(#[trigger] r2[k]) by {
        let j = choose|j: int| 0 <= j < sel.len() && sel[j] == r2[k];
        assert(r1.contains(sel[j]));
    }
    lemma_sorted_same_members(rows, now, r1, r2);
}

proof fn lemma_sorted_same_members(rows: Seq<EntryModel>, now: i64, r1: Seq<usize>, r2: Seq<usize>)
    requires
        forall|i: int, j: int|
            0 <= i < j < r1.len() ==> ranks_before(rows, now, #[trigger] r1[i] as int, #[trigger] r1[j] as int),
        forall|i: int, j: int|
            0 <= i < j < r2.len() ==> ranks_before(rows, now, #[trigger] r2[i] as int, #[trigger] r2[j] as int),
        forall|k: int| 0 <= k < r1.len() ==> r2.contains(#[trigger] r1[k]),
        forall|k: int| 0 <= k < r2.len() ==> r1.contains(#[trigger] r2[k]),
    ensures
        r1 == r2,
    decreases r1.len() + r2.len(),
{
    if r1.len() > 0 && r2.len() > 0 {
        let a = r1[0];
        let b = r2[0];
        if a != b {
            let j = choose|j: int| 0 <= j < r2.len() && r2[j] == a;
            let i = choose|i: int| 0 <= i < r1.len() && r1[i] == b;
            assert(ranks_before(rows, now, r2[0] as int, r2[j] as int));
            assert(ranks_before(rows, now, r1[0] as int, r1[i] as int));
            lemma_ranks_before_order(rows, now, a as int, b as int, a as int);
        }
        let t1 = r1.drop_first();
        let t2 = r2.drop_first();
        assert forall|k: int| 0 <= k < t1.len() implies t2.contains(#[trigger] t1[k]) by {
            assert(r1[k + 1] == t1[k]);
            assert(ranks_before(rows, now, r1[0] as int, r1[k + 1] as int));
            let j = choose|j: int| 0 <= j < r2.len() && r2[j] == t1[k];
            if j == 0 {
                lemma_ranks_before_order(rows, now, a as int, a as int, a as int);
            }
            assert(t2[j - 1] == t1[k]);
        }
        assert forall|k: int| 0 <= k < t2.len() implies t1.contains(#[trigger] t2[k]) by {
            assert(r2[k + 1] == t2[k]);
            assert(ranks_before(rows, now, r2[0] as int, r2[k + 1] as int));
            let j = choose|j: int| 0 <= j < r1.len() && r1[j] == t2[k];
            if j == 0 {
                lemma_ranks_before_order(rows, now, b as int, b as int, b as int);
            }
            assert(t1[j - 1] == t2[k]);
        }
        assert forall|i: int, j: int| 0 <= i < j < t1.len() implies ranks_before(
            rows,
            now,
            #[trigger] t1[i] as int,
            #[trigger] t1[j] as int,
        ) by {
            assert(t1[i] == r1[i + 1] && t1[j] == r1[j + 1]);
        }
        assert forall|i: int, j: int| 0 <= i < j < t2.len() implies ranks_before(
            rows,
            now,
            #[trigger] t2[i] as int,
            #[trigger] t2[j] as int,
        ) by {
            assert(t2[i] == r2[i + 1] && t2[j] == r2[j + 1]);
        }
        lemma_sorted_same_members(rows, now, t1, t2);
        assert(r1 =~= seq![a] + t1);
        assert(r2 =~= seq![a] + t2);
    } else if r1.len() > 0 {
        assert(r2.contains(r1[0]));
    } else if r2.len() > 0 {
        assert(r1.contains(r2[0]));
    }
}

/// The age weight as `2 * h + b`, with `b` a bit.
fn age_weight_halves(now: i64, ts: i64) -> (r: (u128, u128))
    ensures
        2 * r.0 + r.1 == age_weight(now, ts),
        r.1 <= 1,
        r.0 < 0x8000_0000_0000_0200,
{
    let v: i128 = now as i128 - ts as i128 + 1000;
    let w: u128 = if v < 1 {
        1
    } else {
        v as u128
    };
    (w / 2, w % 2)
}

/// Row `i`'s side of the comparison with row `j`, as `2 * x + y` with `y <= 2^64`.
fn cross_halves(rows: &Vec<MemoryEntry>, now: i64, i: usize, j: usize) -> (r: (u128, u128))
    requires
        i < rows@.len(),
        j < rows@.len(),
    ensures
        2 * r.0 + r.1 == cross(models(rows@), now, i as int, j as int),
        r.1 <= 0x1_0000_0000_0000_0000,
{
    let n: u128 = rows[i].access_count as u128 + 1;
    let (h, b) = age_weight_halves(now, rows[j].timestamp);
    proof {
        assert(n * n <= 0x1_0000_0000 * 0x1_0000_0000) by (nonlinear_arith)
            requires
                1 <= n <= 0x1_0000_0000,
        ;
    }
    let p = n * n;
    proof {
        assert(p * h < 0x1_0000_0000_0000_0000 * 0x8000_0000_0000_0200) by (nonlinear_arith)
            requires
                p <= 0x1_0000_0000_0000_0000,
                h < 0x8000_0000_0000_0200,
        ;
        assert(0x1_0000_0000_0000_0000 * 0x8000_0000_0000_0200 <= u128::MAX);
    }
    let x = p * h;
    let y = if b == 1 {
        p
    } else {
        0
    };
    proof {
        assert(p * (2 * h + b) == 2 * (p * h) + p * b) by (nonlinear_arith);
        assert(p * b == y) by (nonlinear_arith)
            requires
                b <= 1,
                y == if b == 1 {
                    p
                } else {
                    0
                },
        ;
        assert(models(rows@)[i as int] == rows@[i as int]@);
        assert(models(rows@)[j as int] == rows@[j as int]@);
    }
    (x, y)
}

fn ranks_before_exec(rows: &Vec<MemoryEntry>, now: i64, i: usize, j: usize) -> (r: bool)
    requires
        i < rows@.len(),
        j < rows@.len(),
    ensures
        r == ranks_before(models(rows@), now, i as int, j as int),
{
    let (xa, ya) = cross_halves(rows, now, i, j);
    let (xb, yb) = cross_halves(rows, now, j, i);
    // 2 * xa + ya against 2 * xb + yb, where ya and yb are at most 2^64.
    let (greater, equal) = if xa >= xb {
        let d = xa - xb;
        if d > 0x1_0000_0000_0000_0000 {
            (true, false)
        } else {
            let left = 2 * d + ya;
            (left > yb, left == yb)
        }
    } else {
        let d = xb - xa;
        if d > 0x1_0000_0000_0000_0000 {
            (false, false)
        } else {
            let right = 2 * d + yb;
            (ya > right, ya == right)
        }
    };
    greater || (equal && i < j)
}

/// Orders selected rows by activation at time `now`: highest first, ties in stored order.
pub fn rank_by_activation(rows: &Vec<MemoryEntry>, sel: &Vec<usize>, now: i64) -> (r: Vec<usize>)
    requires
        valid_selection(models(rows@), sel@),
    ensures
        is_ranking(models(rows@), now, sel@, r@),
        r@ == ranking(models(rows@), now, sel@),
{
    let ghost m = models(rows@);
    let mut out: Vec<usize> = Vec::new();
    let n = sel.len();
    for i in 0..n
        invariant
            n == sel@.len(),
            m == models(rows@),
            valid_selection(m, sel@),
            out@.len() == i,
            forall|k: int| 0 <= k < out@.len() ==> sel@.take(i as int).contains(#[trigger] out@[k]),
            forall|k: int| 0 <= k < i ==> out@.contains(#[trigger] sel@[k]),
            forall|a: int, b: int|
                0 <= a < b < out@.len() ==> ranks_before(m, now, #[trigger] out@[a] as int, #[trigger] out@[b] as int),
    {
        let x = sel[i];
        let ghost before = out@;
        let olen = out.len();
        let mut p: usize = 0;
        while p < olen && ranks_before_exec(rows, now, out[p], x)
            invariant
                olen == out@.len(),
                out@ == before,
                p <= olen,
                m == models(rows@),
                i < sel@.len(),
                x == sel@[i as int],
                x < rows@.len(),
                forall|k: int| 0 <= k < out@.len() ==> (#[trigger] out@[k]) < rows@.len(),
                forall|k: int| 0 <= k < p ==> ranks_before(m, now, #[trigger] out@[k] as int, x as int),
            decreases olen - p,
        {
            p = p + 1;
        }
        proof {
            assert forall|k: int| 0 <= k < before.len() implies before[k] != x by {
                assert(sel@.take(i as int).contains(before[k]));
                let j = choose|j: int| 0 <= j < i && sel@.take(i as int)[j] == before[k];
                assert(sel@[j] == before[k]);
            }
            if p < olen {
                lemma_ranks_before_order(m, now, x as int, before[p as int] as int, x as int);
            }
        }
        out.insert(p, x);
        proof {
            let after = out@;
            assert(after =~= before.insert(p as int, x));
            assert forall|a: int, b: int| 0 <= a < b < after.len() implies ranks_before(
                m,
                now,
                #[trigger] after[a] as int,
                #[trigger] after[b] as int,
            ) by {
                if b < p {
                } else if b == p {
                } else if a < p {
                    assert(ranks_before(m, now, before[a] as int, x as int));
                    assert(ranks_before(m, now, x as int, before[p as int] as int));
                    if b - 1 > p {
                        assert(ranks_before(m, now, before[p as int] as int, before[b - 1] as int));
                        lemma_ranks_before_order(m, now, x as int, before[p as int] as int, before[b - 1] as int);
                    }
                    lemma_ranks_before_order(m, now, before[a] as int, x as int, before[b - 1] as int);
                } else if a == p {
                    assert(ranks_before(m, now, x as int, before[p as int] as int));
                    if b - 1 > p {
                        assert(ranks_before(m, now, before[p as int] as int, before[b - 1] as int));
                        lemma_ranks_before_order(m, now, x as int, before[p as int] as int, before[b - 1] as int);
                    }
                } else {
                    assert(ranks_before(m, now, before[a - 1] as int, before[b - 1] as int));
                }
            }
            assert forall|k: int| 0 <= k < after.len() implies sel@.take(i + 1).contains(
                #[trigger] after[k],
            ) by {
                if k == p {
                    assert(sel@.take(i + 1)[i as int] == x);
                } else {
                    let kk = if k < p { k } else { k - 1 };
                    assert(after[k] == before[kk]);
                    assert(sel@.take(i as int).contains(before[kk]));
                    let j = choose|j: int| 0 <= j < i && sel@.take(i as int)[j] == before[kk];
                    assert(sel@.take(i + 1)[j] == before[kk]);
                }
            }
            assert forall|k: int| 0 <= k < i + 1 implies after.contains(#[trigger] sel@[k]) by {
                if k == i {
                    assert(after[p as int] == x);
                } else {
                    assert(before.contains(sel@[k]));
                    let j = choose|j: int| 0 <= j < before.len() && before[j] == sel@[k];
                    if j < p {
                        assert(after[j] == sel@[k]);
                    } else {
                        assert(after[j + 1] == sel@[k]);
                    }
                }
            }
        }
    }
    proof {
        assert(sel@.take(n as int) =~= sel@);
        assert(is_ranking(m, now, sel@, out@));
        lemma_ranking_unique(m, now, sel@, out@, ranking(m, now, sel@));
    }
    out
}

} // verus!
