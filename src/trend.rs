//! Ordinary least squares over a daily series, with each point's position
//! in the series as its x and its average as its y, computed exactly.

use vstd::prelude::*;
use vstd::arithmetic::mul::{
    lemma_mul_is_distributive_add_other_way, lemma_mul_is_distributive_sub_other_way,
    lemma_mul_is_commutative, lemma_mul_is_associative, lemma_mul_is_distributive_sub,
};
use crate::daily::DailyPoint;
use crate::date::TrendError;
use crate::forecast::{TrendLine, coefficient_bound, COEFFICIENT_BOUND};

verus! {

/// Sum of the positions `0..n`.
pub open spec fn sum_x(n: int) -> int
    decreases n,
{
    if n <= 0 { 0 } else { sum_x(n - 1) + (n - 1) }
}

/// Sum of the squared positions `0..n`.
pub open spec fn sum_xx(n: int) -> int
    decreases n,
{
    if n <= 0 { 0 } else { sum_xx(n - 1) + (n - 1) * (n - 1) }
}

/// Product of the points' sample counts: the common denominator of the sums below.
pub open spec fn count_product(ps: Seq<DailyPoint>) -> int
    decreases ps.len(),
{
    if ps.len() == 0 { 1 } else { count_product(ps.drop_last()) * ps.last().count }
}

/// Numerator of the sum of the points' averages `total / count`, over `count_product`.
pub open spec fn average_sum(ps: Seq<DailyPoint>) -> int
    decreases ps.len(),
{
    if ps.len() == 0 {
        0
    } else {
        average_sum(ps.drop_last()) * ps.last().count + ps.last().total * count_product(ps.drop_last())
    }
}

/// Numerator of the sum of position times average, over `count_product`.
pub open spec fn weighted_sum(ps: Seq<DailyPoint>) -> int
    decreases ps.len(),
{
    if ps.len() == 0 {
        0
    } else {
        weighted_sum(ps.drop_last()) * ps.last().count + (ps.len() - 1) * ps.last().total * count_product(
            ps.drop_last(),
        )
    }
}

/// `n·Σx² − (Σx)²`, the fit's denominator before scaling.
pub open spec fn spread(n: int) -> int {
    n * sum_xx(n) - sum_x(n) * sum_x(n)
}

/// `n·Σxy − Σx·Σy`, scaled by `count_product`.
pub open spec fn covariance(ps: Seq<DailyPoint>) -> int {
    ps.len() * weighted_sum(ps) - sum_x(ps.len() as int) * average_sum(ps)
}

/// The least-squares slope as a fraction `(numerator, denominator)`.
pub open spec fn fit_slope(ps: Seq<DailyPoint>) -> (int, int) {
    (covariance(ps), count_product(ps) * spread(ps.len() as int))
}

/// The least-squares intercept `(Σy − slope·Σx) / n` as a fraction.
pub open spec fn fit_intercept(ps: Seq<DailyPoint>) -> (int, int) {
    let n = ps.len() as int;
    (
        average_sum(ps) * spread(n) - covariance(ps) * sum_x(n),
        n * count_product(ps) * spread(n),
    )
}

/// The largest magnitude of a total for which a fit is promised.
pub open spec fn total_bound() -> int {
    0x100_0000_0000
}

/// A series on which a fit always succeeds: at most 1024 points, all with
/// one count of at most 65536 samples, and totals of magnitude at most 2^40.
pub open spec fn moderate(ps: Seq<DailyPoint>) -> bool {
    &&& 1 <= ps.len() <= 1024
    &&& 1 <= ps[0].count <= 65536
    &&& forall|i: int| 0 <= i < ps.len() ==> {
        &&& (#[trigger] ps[i]).count == ps[0].count
        &&& -total_bound() <= ps[i].total <= total_bound()
    }
}

pub(crate) proof fn lemma_mul_bound(x: int, y: int, bx: int, by: int)
    requires
        -bx <= x <= bx,
        -by <= y <= by,
    ensures
        -(bx * by) <= x * y <= bx * by,
{
    assert(-(bx * by) <= x * y <= bx * by) by (nonlinear_arith)
        requires
            -bx <= x <= bx,
            -by <= y <= by,
    ;
}

proof fn lemma_sum_bounds(n: int)
    requires
        0 <= n <= 1024,
    ensures
        0 <= sum_x(n) <= 1024 * 1024,
        0 <= sum_xx(n) <= 1024 * 1024 * 1024,
{
    lemma_sum_closed_forms(n);
    assert(0 <= n * (n - 1) <= 2 * 1024 * 1024) by (nonlinear_arith)
        requires
            0 <= n <= 1024,
    ;
    assert(0 <= (n - 1) * n * (2 * n - 1) <= 6 * 1024 * 1024 * 1024) by (nonlinear_arith)
        requires
            0 <= n <= 1024,
    ;
}

/// Every point has at least one sample, so its average is defined.
pub open spec fn all_counted(ps: Seq<DailyPoint>) -> bool {
    forall|i: int| 0 <= i < ps.len() ==> (#[trigger] ps[i]).count >= 1
}

proof fn lemma_sum_closed_forms(n: int)
    requires
        n >= 0,
    ensures
        2 * sum_x(n) == n * (n - 1),
        6 * sum_xx(n) == (n - 1) * n * (2 * n - 1),
    decreases n,
{
    if n > 0 {
        lemma_sum_closed_forms(n - 1);
        assert(2 * sum_x(n) == n * (n - 1)) by (nonlinear_arith)
            requires
                2 * sum_x(n - 1) == (n - 1) * (n - 2),
                sum_x(n) == sum_x(n - 1) + (n - 1),
        ;
        assert(6 * sum_xx(n) == (n - 1) * n * (2 * n - 1)) by (nonlinear_arith)
            requires
                6 * sum_xx(n - 1) == (n - 2) * (n - 1) * (2 * n - 3),
                sum_xx(n) == sum_xx(n - 1) + (n - 1) * (n - 1),
        ;
    } else {
        assert(sum_x(0) == 0 && sum_xx(0) == 0);
    }
}

proof fn lemma_spread_positive(n: int)
    requires
        n >= 2,
    ensures
        spread(n) > 0,
{
    lemma_sum_closed_forms(n);
    let sx = sum_x(n);
    let sxx = sum_xx(n);
    assert(12 * spread(n) == n * n * (n - 1) * (n + 1)) by (nonlinear_arith)
        requires
            2 * sx == n * (n - 1),
            6 * sxx == (n - 1) * n * (2 * n - 1),
            spread(n) == n * sxx - sx * sx,
    ;
    assert(n * n * (n - 1) * (n + 1) > 0) by (nonlinear_arith)
        requires
            n >= 2,
    ;
}

proof fn lemma_count_product_positive(ps: Seq<DailyPoint>)
    requires
        all_counted(ps),
    ensures
        count_product(ps) >= 1,
    decreases ps.len(),
{
    if ps.len() > 0 {
        assert(all_counted(ps.drop_last()));
        lemma_count_product_positive(ps.drop_last());
        assert(ps.last() == ps[ps.len() - 1]);
        let q = count_product(ps.drop_last());
        let c = ps.last().count as int;
        assert(q * c >= 1) by (nonlinear_arith)
            requires
                q >= 1,
                c >= 1,
        ;
    }
}

proof fn lemma_swap_inner(a: int, b: int, c: int, d: int)
    ensures
        (a * b) * (c * d) == (a * c) * (b * d),
{
    assert((a * b) * (c * d) == (a * c) * (b * d)) by (nonlinear_arith);
}

pub(crate) proof fn lemma_rescale(a: int, q: int, s: int, l: int, l2: int, m1: int, m2: int, c: int, u: int)
    requires
        a * q == s * l,
        l2 == l * m1,
        l2 == c * m2,
    ensures
        (a * m1 + u * m2) * (q * c) == (s * c + u * q) * l2,
{
    lemma_mul_is_distributive_add_other_way(q * c, a * m1, u * m2);
    lemma_swap_inner(a, m1, q, c);
    lemma_mul_is_commutative(m1, c);
    lemma_swap_inner(s, l, c, m1);
    lemma_swap_inner(u, m2, q, c);
    lemma_mul_is_commutative(m2, c);
    lemma_mul_is_distributive_add_other_way(l2, s * c, u * q);
}

/// Fits the least-squares line through the averages of `data`, with each
/// point's position as x. Fails with `InsufficientData` on fewer than two
/// points, and with `Overflow` where an intermediate value leaves `i128` or
/// a coefficient's numerator exceeds the bound that a forecast takes.
pub fn linear_regression(data: &Vec<DailyPoint>) -> (r: Result<TrendLine, TrendError>)
    requires
        all_counted(data@),
    ensures
        (r is Err && r->Err_0 == TrendError::InsufficientData) <==> data@.len() <= 1,
        moderate(data@) && data@.len() >= 2 ==> r is Ok,
        r is Err ==> r->Err_0 == TrendError::InsufficientData || r->Err_0 == TrendError::Overflow,
        match r {
            Ok(line) => {
                &&& line.wf()
                &&& fit_slope(data@).1 > 0
                &&& line.slope_num * fit_slope(data@).1 == line.den * fit_slope(data@).0
                &&& line.intercept_num * fit_intercept(data@).1 == line.den * fit_intercept(data@).0
            },
            Err(_) => true,
        },
{
    let n = data.len();
    if n <= 1 {
        return Err(TrendError::InsufficientData);
    }
    let mut l: i128 = 1;
    let mut a: i128 = 0;
    let mut w: i128 = 0;
    let mut sx: i128 = 0;
    let mut sxx: i128 = 0;
    let mut i: usize = 0;
    while i < n
        invariant
            n == data.len(),
            n >= 2,
            i <= n,
            all_counted(data@),
            l >= 1,
            a * count_product(data@.subrange(0, i as int)) == average_sum(data@.subrange(0, i as int)) * l,
            w * count_product(data@.subrange(0, i as int)) == weighted_sum(data@.subrange(0, i as int)) * l,
            sx == sum_x(i as int),
            sxx == sum_xx(i as int),
            moderate(data@) ==> {
                &&& i == 0 ==> l == 1
                &&& i > 0 ==> l == data@[0].count
                &&& -(i * total_bound()) <= a <= i * total_bound()
                &&& -(i * 1024 * total_bound()) <= w <= i * 1024 * total_bound()
            },
        decreases n - i,
    {
        let ghost prev = data@.subrange(0, i as int);
        let ghost next = data@.subrange(0, i + 1);
        assert(next.drop_last() =~= prev);
        assert(next.last() == data@[i as int]);
        assert(data@[i as int].count >= 1);
        let c = data[i].count as i128;
        let t = data[i].total;
        let x = i as i128;
        proof {
            if moderate(data@) {
                assert(data@[i as int].count == data@[0].count);
                lemma_mul_bound(x as int, t as int, 1024, total_bound());
                lemma_mul_bound(x as int, x as int, 1024, 1024);
                lemma_sum_bounds(i as int);
                if i > 0 {
                    vstd::arithmetic::div_mod::lemma_mod_self_0(c as int);
                }
            }
        }
        let mut l2: i128 = l;
        let mut m1: i128 = 1;
        let mut m2: i128 = l;
        if l % c == 0 {
            m2 = l / c;
            proof {
                vstd::arithmetic::div_mod::lemma_fundamental_div_mod(l as int, c as int);
                if moderate(data@) {
                    if l == 1 && c > 1 {
                        vstd::arithmetic::div_mod::lemma_small_mod(1, c as nat);
                    }
                    let q = l / c;
                    assert(q == 1) by (nonlinear_arith)
                        requires
                            l == c * q,
                            c >= 1,
                            l == c || l == 1,
                            l == 1 ==> c == 1,
                    ;
                }
            }
        } else {
            l2 = times(l, c)?;
            m1 = c;
            assert(l2 >= 1) by (nonlinear_arith)
                requires
                    l2 == l * c,
                    l >= 1,
                    c >= 1,
            ;
        }
        assert(l2 == l * m1 && l2 == c * m2 && l2 >= 1);
        proof {
            if moderate(data@) {
                assert(m2 == 1);
                if i == 0 {
                    assert(a == 0 && w == 0);
                    assert(a * m1 == 0 && w * m1 == 0);
                } else {
                    assert(m1 == 1);
                }
            }
        }
        let xt = times(x, t)?;
        let a2 = plus(times(a, m1)?, times(t, m2)?)?;
        let w2 = plus(times(w, m1)?, times(xt, m2)?)?;
        let sx2 = plus(sx, x)?;
        let sxx2 = plus(sxx, times(x, x)?)?;
        proof {
            let q = count_product(prev);
            lemma_rescale(a as int, q, average_sum(prev), l as int, l2 as int, m1 as int, m2 as int, c as int, t as int);
            lemma_rescale(w as int, q, weighted_sum(prev), l as int, l2 as int, m1 as int, m2 as int, c as int, xt as int);
        }
        l = l2;
        a = a2;
        w = w2;
        sx = sx2;
        sxx = sxx2;
        i = i + 1;
    }
    assert(data@.subrange(0, n as int) =~= data@);
    let nn = n as i128;
    proof {
        if moderate(data@) {
            let tb = total_bound();
            lemma_sum_bounds(n as int);
            lemma_mul_bound(nn as int, sxx as int, 1024, (1024 * 1024 * 1024) as int);
            lemma_mul_bound(sx as int, sx as int, (1024 * 1024) as int, (1024 * 1024) as int);
            lemma_mul_bound(n as int, tb, 1024, tb);
            lemma_mul_bound(n as int * 1024, tb, (1024 * 1024) as int, tb);
            assert(-(1024 * tb) <= a <= 1024 * tb);
            assert(-(1024 * 1024 * tb) <= w <= 1024 * 1024 * tb);
            lemma_mul_bound(nn as int, w as int, 1024, 1024 * 1024 * tb);
            lemma_mul_bound(sx as int, a as int, (1024 * 1024) as int, 1024 * tb);
            lemma_mul_bound(nn as int, l as int, 1024, 65536);
        }
    }
    let d = minus(times(nn, sxx)?, times(sx, sx)?)?;
    let cov = minus(times(nn, w)?, times(sx, a)?)?;
    proof {
        if moderate(data@) {
            let tb = total_bound();
            lemma_mul_bound(nn as int * l as int, d as int, (1024 * 65536) as int, (2 * 1024 * 1024 * 1024 * 1024) as int);
            lemma_mul_bound(nn as int, cov as int, 1024, 2 * 1024 * 1024 * 1024 * tb);
            lemma_mul_bound(a as int, d as int, 1024 * tb, (2 * 1024 * 1024 * 1024 * 1024) as int);
            lemma_mul_bound(cov as int, sx as int, 2 * 1024 * 1024 * 1024 * tb, (1024 * 1024) as int);
        }
    }
    let den = times(times(nn, l)?, d)?;
    let slope_num = times(nn, cov)?;
    let intercept_num = minus(times(a, d)?, times(cov, sx)?)?;
    if slope_num > COEFFICIENT_BOUND || slope_num < -COEFFICIENT_BOUND || intercept_num > COEFFICIENT_BOUND
        || intercept_num < -COEFFICIENT_BOUND {
        return Err(TrendError::Overflow);
    }
    proof {
        let ps = data@;
        let q = count_product(ps);
        let sy = average_sum(ps);
        let sw = weighted_sum(ps);
        lemma_spread_positive(n as int);
        lemma_count_product_positive(ps);
        assert(d == spread(n as int));
        let cq = covariance(ps);
        lemma_mul_is_distributive_sub_other_way(q, nn * w, sx * a);
        lemma_mul_is_associative(nn as int, w as int, q);
        lemma_mul_is_associative(sx as int, a as int, q);
        lemma_mul_is_associative(nn as int, sw, l as int);
        lemma_mul_is_associative(sx as int, sy, l as int);
        lemma_mul_is_distributive_sub_other_way(l as int, nn * sw, sx * sy);
        assert(cov * q == cq * l);
        assert(q * d > 0) by (nonlinear_arith)
            requires
                q >= 1,
                d > 0,
        ;
        assert(den > 0) by (nonlinear_arith)
            requires
                den == nn * l * d,
                nn >= 2,
                l >= 1,
                d > 0,
        ;
        assert((nn * cov) * (q * d) == (nn * d) * (cov * q)) by (nonlinear_arith);
        assert((nn * l * d) * cq == (nn * d) * (cq * l)) by (nonlinear_arith);
        assert(slope_num * (q * d) == den * cq);
        let big = nn * q * d;
        lemma_mul_is_distributive_sub_other_way(big, a * d, cov * sx);
        assert((a * d) * (nn * q * d) == (a * q) * (nn * d * d)) by (nonlinear_arith);
        assert((cov * sx) * (nn * q * d) == (cov * q) * (nn * sx * d)) by (nonlinear_arith);
        let dl = nn * l * d;
        lemma_mul_is_distributive_sub(dl, sy * d, cq * sx);
        assert((nn * l * d) * (sy * d) == (sy * l) * (nn * d * d)) by (nonlinear_arith);
        assert((nn * l * d) * (cq * sx) == (cq * l) * (nn * sx * d)) by (nonlinear_arith);
        assert(intercept_num * (nn * q * d) == den * (sy * d - cq * sx));
    }
    Ok(TrendLine { slope_num, intercept_num, den })
}

pub(crate) fn times(a: i128, b: i128) -> (r: Result<i128, TrendError>)
    ensures
        r is Ok <==> i128::MIN <= a * b <= i128::MAX,
        r is Ok ==> r->Ok_0 == a * b,
        r is Err ==> r->Err_0 == TrendError::Overflow,
{
    match a.checked_mul(b) {
        Some(v) => Ok(v),
        None => Err(TrendError::Overflow),
    }
}

pub(crate) fn plus(a: i128, b: i128) -> (r: Result<i128, TrendError>)
    ensures
        r is Ok <==> i128::MIN <= a + b <= i128::MAX,
        r is Ok ==> r->Ok_0 == a + b,
        r is Err ==> r->Err_0 == TrendError::Overflow,
{
    match a.checked_add(b) {
        Some(v) => Ok(v),
        None => Err(TrendError::Overflow),
    }
}

fn minus(a: i128, b: i128) -> (r: Result<i128, TrendError>)
    ensures
        r is Ok <==> i128::MIN <= a - b <= i128::MAX,
        r is Ok ==> r->Ok_0 == a - b,
        r is Err ==> r->Err_0 == TrendError::Overflow,
{
    match a.checked_sub(b) {
        Some(v) => Ok(v),
        None => Err(TrendError::Overflow),
    }
}

} // verus!
