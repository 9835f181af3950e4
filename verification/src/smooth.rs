use vstd::prelude::*;

use crate::table::{
    lemma_entry_le_sum, lemma_mul_le, sum_entries, sum_of, Entry, Row, Table,
};

verus! {

/// The smoothed weight numerator of one entry.
///
/// A weight is the rational `num / den` and the row mean is
/// `sum / (k * den)`, so a weight is below the mean exactly when
/// `num * k < sum`.  Smoothing with creativity `cn / cd` moves a weight
/// towards the mean by `mean * cn / cd` and then clamps the result from below
/// at 1.  Over the new shared denominator `den * k * cd`, the new numerator
/// is the value computed here, and the clamp floor 1 is `den * k * cd`.
pub open spec fn smooth_num(num: int, k: int, sum: int, den: int, cn: int, cd: int) -> int {
    let scaled = num * k * cd;
    let delta = sum * cn;
    let floor = den * k * cd;
    let raw = if num * k < sum {
        scaled + delta
    } else if num * k > sum {
        scaled - delta
    } else {
        scaled
    };
    if raw < floor {
        floor
    } else {
        raw
    }
}

/// Row `r2` is row `r1` smoothed with creativity `cn / cd`: same "from" song,
/// same successors in the same order, denominator rescaled by `k * cd`, and
/// every numerator given by `smooth_num`.
pub open spec fn smooth_rel_row(r1: Row, r2: Row, cn: int, cd: int) -> bool {
    let k = r1.entries@.len() as int;
    let sum = sum_of(r1.entries@);
    &&& r2.from@ == r1.from@
    &&& r2.den == r1.den * k * cd
    &&& r2.entries@.len() == r1.entries@.len()
    &&& forall|j: int|
        0 <= j < r1.entries@.len() ==> {
            &&& (#[trigger] r2.entries@[j]).to@ == r1.entries@[j].to@
            &&& r2.entries@[j].num == smooth_num(
                r1.entries@[j].num as int,
                k,
                sum,
                r1.den as int,
                cn,
                cd,
            )
        }
}

/// Table `t2` is table `t1` smoothed row by row with creativity `cn / cd`.
pub open spec fn smooth_rel(t1: Table, t2: Table, cn: int, cd: int) -> bool {
    &&& t2.rows@.len() == t1.rows@.len()
    &&& forall|i: int|
        0 <= i < t1.rows@.len() ==> #[trigger] smooth_rel_row(t1.rows@[i], t2.rows@[i], cn, cd)
}

/// The smoothed numerators of this row fit in `u64`.  Every smoothed
/// numerator, and the new denominator, is at most
/// `sum * k * cd + sum * cn`.
pub open spec fn smooth_row_fits(r: Row, cn: int, cd: int) -> bool {
    let k = r.entries@.len() as int;
    let sum = sum_of(r.entries@);
    sum * k * cd + sum * cn <= u64::MAX as int
}

/// Smooths one well-formed row.  Returns `None` exactly when the rescaled
/// numerators would not fit in `u64`.
pub fn smooth_row(row: &Row, cn: u32, cd: u32) -> (res: Option<Row>)
    requires
        row.wf(),
        cd >= 1,
    ensures
        match res {
            Some(r2) => {
                &&& r2.wf()
                &&& smooth_rel_row(*row, r2, cn as int, cd as int)
                &&& smooth_row_fits(*row, cn as int, cd as int)
            },
            None => !smooth_row_fits(*row, cn as int, cd as int),
        },
{
    let k = row.entries.len();
    let sum128 = sum_entries(&row.entries);
    let ghost sum = sum_of(row.entries@);
    let ghost kk = k as int;
    let ghost ccd = cd as int;
    let ghost ccn = cn as int;
    let ghost m = u64::MAX as int;
    proof {
        lemma_entry_le_sum(row.entries@, 0);
        assert(sum >= row.den >= 1);
    }
    if sum128 > u64::MAX as u128 {
        proof {
            assert(sum * kk * ccd >= sum) by (nonlinear_arith)
                requires
                    sum >= 0,
                    kk >= 1,
                    ccd >= 1,
            ;
            assert(sum * ccn >= 0) by (nonlinear_arith)
                requires
                    sum >= 0,
                    ccn >= 0,
            ;
        }
        return None;
    }
    proof {
        lemma_mul_le(sum, kk, m, u64::MAX as int + 1);
    }
    let m1 = sum128 * (k as u128);
    if m1 > u64::MAX as u128 {
        proof {
            assert(sum * kk * ccd >= sum * kk) by (nonlinear_arith)
                requires
                    sum * kk >= 0,
                    ccd >= 1,
            ;
            assert(sum * ccn >= 0) by (nonlinear_arith)
                requires
                    sum >= 0,
                    ccn >= 0,
            ;
        }
        return None;
    }
    proof {
        lemma_mul_le(sum * kk, ccd, u64::MAX as int, 0xffff_ffff);
    }
    let m2 = m1 * (cd as u128);
    if m2 > u64::MAX as u128 {
        proof {
            assert(sum * ccn >= 0) by (nonlinear_arith)
                requires
                    sum >= 0,
                    ccn >= 0,
            ;
        }
        return None;
    }
    proof {
        lemma_mul_le(sum, ccn, m, 0xffff_ffff);
    }
    let m3 = sum128 * (cn as u128);
    let tot = m2 + m3;
    if tot > u64::MAX as u128 {
        return None;
    }
    // The row fits; rescale the denominator.
    proof {
        lemma_mul_le(row.den as int, kk, sum, kk);
        lemma_mul_le(row.den as int * kk, ccd, sum * kk, ccd);
    }
    let den128 = (row.den as u128) * (k as u128) * (cd as u128);
    let den2 = den128 as u64;
    proof {
        assert(den128 >= 1) by (nonlinear_arith)
            requires
                den128 == (row.den as int) * kk * ccd,
                row.den >= 1,
                kk >= 1,
                ccd >= 1,
        ;
    }
    let mut es2: Vec<Entry> = Vec::new();
    let mut j: usize = 0;
    while j < k
        invariant
            row.wf(),
            cd >= 1,
            k == row.entries@.len(),
            sum == sum_of(row.entries@),
            1 <= sum <= u64::MAX as int,
            kk == k as int && ccd == cd as int && ccn == cn as int,
            sum * kk <= u64::MAX as int,
            sum * kk * ccd + sum * ccn <= u64::MAX as int,
            m3 == sum * ccn,
            sum128 == sum,
            den128 == (row.den as int) * kk * ccd,
            den128 <= u64::MAX as int,
            den2 == den128,
            1 <= den2,
            j <= k,
            es2@.len() == j,
            forall|x: int|
                0 <= x < j ==> {
                    &&& (#[trigger] es2@[x]).to@ == row.entries@[x].to@
                    &&& es2@[x].num == smooth_num(
                        row.entries@[x].num as int,
                        kk,
                        sum,
                        row.den as int,
                        ccn,
                        ccd,
                    )
                    &&& es2@[x].num >= den2
                },
        decreases k - j,
    {
        let ent = &row.entries[j];
        let ghost num = ent.num as int;
        proof {
            lemma_entry_le_sum(row.entries@, j as int);
            lemma_mul_le(num, kk, sum, kk);
            lemma_mul_le(num * kk, ccd, sum * kk, ccd);
            assert(sum * kk * ccd >= 0) by (nonlinear_arith)
                requires
                    sum >= 0,
                    kk >= 0,
                    ccd >= 0,
            ;
        }
        let nk = (ent.num as u128) * (k as u128);
        let scaled = nk * (cd as u128);
        let raw = if nk < sum128 {
            scaled + m3
        } else if nk > sum128 {
            if scaled >= m3 {
                scaled - m3
            } else {
                0
            }
        } else {
            scaled
        };
        let v128 = if raw < den128 {
            den128
        } else {
            raw
        };
        let v = v128 as u64;
        proof {
            assert(v == smooth_num(num, kk, sum, row.den as int, ccn, ccd));
        }
        es2.push(Entry { to: ent.to.clone(), num: v });
        j = j + 1;
    }
    let r2 = Row { from: row.from.clone(), entries: es2, den: den2 };
    proof {
        assert forall|j1: int, j2: int|
            0 <= j1 < j2 < r2.entries@.len() implies r2.entries@[j1].to@ != r2.entries@[j2].to@ by {
            assert(r2.entries@[j1].to@ == row.entries@[j1].to@);
            assert(r2.entries@[j2].to@ == row.entries@[j2].to@);
        }
    }
    Some(r2)
}

/// Smooths every row of a well-formed table with creativity `cn / cd`:
/// weights below their row mean move up by `mean * cn / cd`, weights above it
/// move down by the same amount, and every weight is then clamped from below
/// at 1.  Returns `None` exactly when some row's rescaled weights would not
/// fit in `u64`.
pub fn smoothed(t: &Table, cn: u32, cd: u32) -> (res: Option<Table>)
    requires
        t.wf(),
        cd >= 1,
    ensures
        match res {
            Some(t2) => {
                &&& t2.wf()
                &&& smooth_rel(*t, t2, cn as int, cd as int)
            },
            None => exists|i: int|
                0 <= i < t.rows@.len() && !smooth_row_fits(
                    #[trigger] t.rows@[i],
                    cn as int,
                    cd as int,
                ),
        },
{
    let mut rows2: Vec<Row> = Vec::new();
    let mut i: usize = 0;
    while i < t.rows.len()
        invariant
            t.wf(),
            cd >= 1,
            i <= t.rows@.len(),
            rows2@.len() == i,
            forall|x: int|
                0 <= x < i ==> #[trigger] smooth_rel_row(
                    t.rows@[x],
                    rows2@[x],
                    cn as int,
                    cd as int,
                ),
            forall|x: int| 0 <= x < i ==> (#[trigger] rows2@[x]).wf(),
        decreases t.rows@.len() - i,
    {
        match smooth_row(&t.rows[i], cn, cd) {
            Some(r2) => {
                rows2.push(r2);
            },
            None => {
                return None;
            },
        }
        i = i + 1;
    }
    let t2 = Table { rows: rows2 };
    proof {
        assert forall|i1: int, i2: int|
            0 <= i1 < i2 < t2.rows@.len() implies t2.rows@[i1].from@ != t2.rows@[i2].from@ by {
            assert(smooth_rel_row(t.rows@[i1], t2.rows@[i1], cn as int, cd as int));
            assert(smooth_rel_row(t.rows@[i2], t2.rows@[i2], cn as int, cd as int));
        }
    }
    Some(t2)
}

/// Weight floor: after smoothing, every weight of every row is at least 1:
/// each numerator is at least the row's denominator, which is positive.
pub proof fn lemma_smooth_weight_floor(t1: Table, t2: Table, cn: int, cd: int)
    requires
        t1.wf(),
        cn >= 0,
        cd >= 1,
        smooth_rel(t1, t2, cn, cd),
    ensures
        forall|i: int, j: int|
            0 <= i < t2.rows@.len() && 0 <= j < t2.rows@[i].entries@.len()
                ==> (#[trigger] t2.rows@[i].entries@[j]).num >= t2.rows@[i].den >= 1,
{
    assert forall|i: int, j: int|
        0 <= i < t2.rows@.len() && 0 <= j < t2.rows@[i].entries@.len() implies (
    #[trigger] t2.rows@[i].entries@[j]).num >= t2.rows@[i].den >= 1 by {
        assert(smooth_rel_row(t1.rows@[i], t2.rows@[i], cn, cd));
        assert(t1.rows@[i].wf());
        let k = t1.rows@[i].entries@.len() as int;
        let den = t1.rows@[i].den as int;
        assert(den * k * cd >= 1) by (nonlinear_arith)
            requires
                den >= 1,
                k >= 1,
                cd >= 1,
        ;
    }
}

/// Mean-preservation at creativity zero: smoothing with `cn == 0` keeps the
/// value of every weight: `num2 / den2 == num1 / den1`, stated here as equal
/// cross-products.
pub proof fn lemma_smooth_zero_identity(t1: Table, t2: Table, cd: int)
    requires
        t1.wf(),
        cd >= 1,
        smooth_rel(t1, t2, 0, cd),
    ensures
        forall|i: int, j: int|
            0 <= i < t2.rows@.len() && 0 <= j < t2.rows@[i].entries@.len()
                ==> (#[trigger] t2.rows@[i].entries@[j]).num * t1.rows@[i].den
                == t1.rows@[i].entries@[j].num * t2.rows@[i].den,
{
    assert forall|i: int, j: int|
        0 <= i < t2.rows@.len() && 0 <= j < t2.rows@[i].entries@.len() implies (
    #[trigger] t2.rows@[i].entries@[j]).num * t1.rows@[i].den == t1.rows@[i].entries@[j].num
        * t2.rows@[i].den by {
        assert(smooth_rel_row(t1.rows@[i], t2.rows@[i], 0, cd));
        assert(t1.rows@[i].wf());
        let k = t1.rows@[i].entries@.len() as int;
        let sum = sum_of(t1.rows@[i].entries@);
        let den = t1.rows@[i].den as int;
        let num = t1.rows@[i].entries@[j].num as int;
        assert(num >= den);
        assert(smooth_num(num, k, sum, den, 0, cd) == num * k * cd) by (nonlinear_arith)
            requires
                num >= den >= 1,
                k >= 1,
                cd >= 1,
        ;
        assert((num * k * cd) * den == num * (den * k * cd)) by (nonlinear_arith);
    }
}

/// A sum over entries whose numerators all equal `v` is the length times `v`.
proof fn lemma_sum_constant(es: Seq<Entry>, v: int)
    requires
        forall|j: int| 0 <= j < es.len() ==> (#[trigger] es[j]).num == v,
    ensures
        sum_of(es) == es.len() * v,
    decreases es.len(),
{
    if es.len() == 0 {
    } else {
        lemma_sum_constant(es.drop_last(), v);
        assert((es.len() - 1) * v + v == es.len() * v) by (nonlinear_arith);
    }
}

/// Uniformization on already-uniform rows: a row whose weights all equal the
/// row mean keeps exactly that mean under smoothing, whatever the creativity.
/// (A row with unequal weights does not in general end at its mean: each
/// weight moves by `mean * cn / cd`, which can overshoot.)  Stated as equal
/// cross-products: `num2 / den2 == sum1 / (k * den1)` for every entry.
pub proof fn lemma_smooth_uniform_row(t1: Table, t2: Table, cn: int, cd: int, i: int)
    requires
        t1.wf(),
        cn >= 0,
        cd >= 1,
        smooth_rel(t1, t2, cn, cd),
        0 <= i < t1.rows@.len(),
        forall|j1: int, j2: int|
            0 <= j1 < t1.rows@[i].entries@.len() && 0 <= j2 < t1.rows@[i].entries@.len()
                ==> (#[trigger] t1.rows@[i].entries@[j1]).num == (
            #[trigger] t1.rows@[i].entries@[j2]).num,
    ensures
        forall|j: int|
            0 <= j < t2.rows@[i].entries@.len()
                ==> (#[trigger] t2.rows@[i].entries@[j]).num * ((t1.rows@[i].entries@.len() as int)
                * t1.rows@[i].den) == sum_of(t1.rows@[i].entries@) * t2.rows@[i].den,
{
    let r1 = t1.rows@[i];
    let k = r1.entries@.len() as int;
    let sum = sum_of(r1.entries@);
    let den = r1.den as int;
    assert(smooth_rel_row(t1.rows@[i], t2.rows@[i], cn, cd));
    assert(r1.wf());
    let v = r1.entries@[0].num as int;
    lemma_sum_constant(r1.entries@, v);
    assert forall|j: int|
        0 <= j < t2.rows@[i].entries@.len() implies (#[trigger] t2.rows@[i].entries@[j]).num * (k
        * den) == sum * t2.rows@[i].den by {
        let num = r1.entries@[j].num as int;
        assert(num == v);
        assert(num * k == sum) by (nonlinear_arith)
            requires
                num == v,
                sum == k * v,
        ;
        assert(smooth_num(num, k, sum, den, cn, cd) == num * k * cd) by (nonlinear_arith)
            requires
                num >= den >= 1,
                k >= 1,
                cd >= 1,
                num * k == sum,
        ;
        assert((num * k * cd) * (k * den) == (k * num) * (den * k * cd)) by (nonlinear_arith);
        assert(sum == k * num) by (nonlinear_arith)
            requires
                sum == k * v,
                num == v,
        ;
    }
}

} // verus!
