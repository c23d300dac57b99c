use num_rational::Ratio;
use vstd::prelude::*;

verus! {

/// A fraction of two 64-bit integers, as plain values.
#[derive(Clone, Copy)]
pub struct Frac {
    pub num: i64,
    pub den: i64,
}

/// The absolute value of an integer.
pub open spec fn mag(x: int) -> int {
    if x < 0 {
        -x
    } else {
        x
    }
}

/// No integer above 1 divides both `num` and `den`.
pub open spec fn lowest_terms(num: int, den: int) -> bool {
    forall|k: int| k > 1 ==> !(#[trigger] (num % k) == 0 && den % k == 0)
}

/// The least integer that is not below `n / d`, for a positive `d`.
pub open spec fn ceil_div(n: int, d: int) -> int {
    -((-n) / d)
}

impl Frac {
    /// The fraction has a positive denominator and stands for `n / d`.
    pub open spec fn is(self, n: int, d: int) -> bool {
        self.den > 0 && d > 0 && self.num * d == n * self.den
    }

    /// Both parts are at most `b` in absolute value, and the denominator is positive.
    pub open spec fn within(self, b: int, c: int) -> bool {
        0 < self.den <= c && mag(self.num as int) <= b
    }

    /// The integer `v` as a fraction.
    pub fn from_integer(v: i64) -> (r: Frac)
        ensures
            r.num == v,
            r.den == 1,
    {
        Frac { num: v, den: 1 }
    }
}

/// `Ratio::new`: the fraction `n / d` in lowest terms with a positive
/// denominator. Reducing makes neither part larger in absolute value.
#[verifier::external_body]
pub(crate) fn ratio_new(n: i64, d: i64) -> (r: Frac)
    requires
        d != 0,
        n > i64::MIN,
        d > i64::MIN,
    ensures
        r.den > 0,
        r.num * d == n * r.den,
        lowest_terms(r.num as int, r.den as int),
        mag(r.num as int) <= mag(n as int),
        r.den <= mag(d as int),
{
    let q = Ratio::new(n, d);
    Frac { num: *q.numer(), den: *q.denom() }
}

/// `Ratio + Ratio`: the sum in lowest terms. The crate multiplies each
/// numerator by at most the other denominator, hence the bounds asked for.
#[verifier::external_body]
pub(crate) fn ratio_add(a: Frac, b: Frac) -> (r: Frac)
    requires
        a.den > 0,
        b.den > 0,
        a.den * b.den <= i64::MAX,
        mag(a.num as int) * b.den + mag(b.num as int) * a.den <= i64::MAX,
    ensures
        r.den > 0,
        r.num * (a.den * b.den) == (a.num * b.den + b.num * a.den) * r.den,
        lowest_terms(r.num as int, r.den as int),
        mag(r.num as int) <= mag(a.num * b.den + b.num * a.den),
        r.den <= a.den * b.den,
{
    let q = Ratio::new_raw(a.num, a.den) + Ratio::new_raw(b.num, b.den);
    Frac { num: *q.numer(), den: *q.denom() }
}

/// `Ratio - Ratio`: the difference in lowest terms, computed as the sum is.
#[verifier::external_body]
pub(crate) fn ratio_sub(a: Frac, b: Frac) -> (r: Frac)
    requires
        a.den > 0,
        b.den > 0,
        a.den * b.den <= i64::MAX,
        mag(a.num as int) * b.den + mag(b.num as int) * a.den <= i64::MAX,
    ensures
        r.den > 0,
        r.num * (a.den * b.den) == (a.num * b.den - b.num * a.den) * r.den,
        lowest_terms(r.num as int, r.den as int),
        mag(r.num as int) <= mag(a.num * b.den - b.num * a.den),
        r.den <= a.den * b.den,
{
    let q = Ratio::new_raw(a.num, a.den) - Ratio::new_raw(b.num, b.den);
    Frac { num: *q.numer(), den: *q.denom() }
}

/// `Ratio * Ratio`: the product in lowest terms. The crate divides out common
/// factors before it multiplies numerators and denominators.
#[verifier::external_body]
pub(crate) fn ratio_mul(a: Frac, b: Frac) -> (r: Frac)
    requires
        a.den > 0,
        b.den > 0,
        a.den * b.den <= i64::MAX,
        mag(a.num as int) * mag(b.num as int) <= i64::MAX,
    ensures
        r.den > 0,
        r.num * (a.den * b.den) == (a.num * b.num) * r.den,
        lowest_terms(r.num as int, r.den as int),
        mag(r.num as int) <= mag(a.num as int) * mag(b.num as int),
        r.den <= a.den * b.den,
{
    let q = Ratio::new_raw(a.num, a.den) * Ratio::new_raw(b.num, b.den);
    Frac { num: *q.numer(), den: *q.denom() }
}

/// `Ord::max` on two ratios: the first where it is strictly greater, else the second.
#[verifier::external_body]
pub(crate) fn ratio_max(a: Frac, b: Frac) -> (r: Frac)
    requires
        a.den > 0,
        b.den > 0,
    ensures
        r == (if a.num * b.den > b.num * a.den {
            a
        } else {
            b
        }),
{
    let q = Ratio::new_raw(a.num, a.den).max(Ratio::new_raw(b.num, b.den));
    Frac { num: *q.numer(), den: *q.denom() }
}

/// `Ord::min` on two ratios: the second where it is strictly less, else the first.
#[verifier::external_body]
pub(crate) fn ratio_min(a: Frac, b: Frac) -> (r: Frac)
    requires
        a.den > 0,
        b.den > 0,
    ensures
        r == (if b.num * a.den < a.num * b.den {
            b
        } else {
            a
        }),
{
    let q = Ratio::new_raw(a.num, a.den).min(Ratio::new_raw(b.num, b.den));
    Frac { num: *q.numer(), den: *q.denom() }
}

/// `Ratio::floor`: the greatest integer that is not above the ratio, as a ratio
/// with denominator 1.
#[verifier::external_body]
pub(crate) fn ratio_floor(a: Frac) -> (r: Frac)
    requires
        a.den > 0,
        mag(a.num as int) + a.den <= i64::MAX,
    ensures
        r.den == 1,
        r.num == a.num as int / a.den as int,
{
    let q = Ratio::new_raw(a.num, a.den).floor();
    Frac { num: *q.numer(), den: *q.denom() }
}

/// `Ratio::ceil`: the least integer that is not below the ratio, as a ratio
/// with denominator 1.
#[verifier::external_body]
pub(crate) fn ratio_ceil(a: Frac) -> (r: Frac)
    requires
        a.den > 0,
        mag(a.num as int) + a.den <= i64::MAX,
    ensures
        r.den == 1,
        r.num == ceil_div(a.num as int, a.den as int),
{
    let q = Ratio::new_raw(a.num, a.den).ceil();
    Frac { num: *q.numer(), den: *q.denom() }
}

/// Two fractions that stand for the same number have the same floor.
pub proof fn lemma_floor_same(n: int, d: int, m: int, e: int)
    requires
        d > 0,
        e > 0,
        n * e == m * d,
    ensures
        n / d == m / e,
{
    let q = m / e;
    let r = m % e;
    vstd::arithmetic::div_mod::lemma_fundamental_div_mod(m, e);
    assert(m == e * q + r);
    assert(n * e == (e * q + r) * d);
    assert(e * (n - q * d) == r * d) by (nonlinear_arith)
        requires
            n * e == (e * q + r) * d,
    ;
    assert(0 <= r * d < e * d) by (nonlinear_arith)
        requires
            0 <= r < e,
            d > 0,
    ;
    assert(0 <= n - q * d < d) by (nonlinear_arith)
        requires
            e * (n - q * d) == r * d,
            0 <= r * d < e * d,
            e > 0,
    ;
    vstd::arithmetic::div_mod::lemma_fundamental_div_mod_converse(n, d, q, n - q * d);
}

/// Two fractions that stand for the same number have the same ceiling.
pub proof fn lemma_ceil_same(n: int, d: int, m: int, e: int)
    requires
        d > 0,
        e > 0,
        n * e == m * d,
    ensures
        ceil_div(n, d) == ceil_div(m, e),
{
    assert((-n) * e == (-m) * d) by (nonlinear_arith)
        requires
            n * e == m * d,
    ;
    lemma_floor_same(-n, d, -m, e);
}

/// Five factors, regrouped: `((a * b) * c) * (d * e) == c * ((a * d) * (b * e))`.
pub proof fn lemma_regroup(a: int, b: int, c: int, d: int, e: int)
    ensures
        ((a * b) * c) * (d * e) == c * ((a * d) * (b * e)),
        ((a * b) * c) * (e * d) == c * ((a * d) * (b * e)),
        c * ((a * d) * (b * e)) == ((a * e) * c) * (d * b),
        c * ((a * d) * (b * e)) == ((a * e) * c) * (b * d),
{
    assert(((a * b) * c) * (d * e) == c * ((a * d) * (b * e))) by (nonlinear_arith);
    assert(((a * b) * c) * (e * d) == c * ((a * d) * (b * e))) by (nonlinear_arith);
    assert(c * ((a * d) * (b * e)) == ((a * e) * c) * (d * b)) by (nonlinear_arith);
    assert(c * ((a * d) * (b * e)) == ((a * e) * c) * (b * d)) by (nonlinear_arith);
}

/// A sum times two factors: `((u + v) * c) * k == (u * c) * k + (v * c) * k`.
pub proof fn lemma_spread(u: int, v: int, c: int, k: int)
    ensures
        ((u + v) * c) * k == (u * c) * k + (v * c) * k,
        ((u - v) * c) * k == (u * c) * k - (v * c) * k,
{
    assert(((u + v) * c) * k == (u * c) * k + (v * c) * k) by (nonlinear_arith);
    assert(((u - v) * c) * k == (u * c) * k - (v * c) * k) by (nonlinear_arith);
}

/// The sum of `n1 / d1` and `n2 / d2` stands for `(n1 * d2 + n2 * d1) / (d1 * d2)`.
pub proof fn lemma_is_sum(a: Frac, n1: int, d1: int, b: Frac, n2: int, d2: int, r: Frac)
    requires
        a.is(n1, d1),
        b.is(n2, d2),
        r.den > 0,
        r.num * (a.den * b.den) == (a.num * b.den + b.num * a.den) * r.den,
    ensures
        r.is(n1 * d2 + n2 * d1, d1 * d2),
{
    let an = a.num as int;
    let ad = a.den as int;
    let bn = b.num as int;
    let bd = b.den as int;
    let rn = r.num as int;
    let rd = r.den as int;
    let k = ad * bd;
    let e = d1 * d2;
    lemma_pos_product(ad, bd);
    lemma_pos_product(d1, d2);
    assert((rn * e) * k == (rn * k) * e) by (nonlinear_arith);
    lemma_spread(an * bd, bn * ad, rd, e);
    lemma_regroup(an, bd, rd, d1, d2);
    lemma_regroup(bn, ad, rd, d2, d1);
    lemma_spread(n1 * d2, n2 * d1, rd, k);
    lemma_regroup(n1, bd, rd, ad, d2);
    lemma_regroup(n2, ad, rd, bd, d1);
    lemma_cancel(k, rn * e, (n1 * d2 + n2 * d1) * rd);
}

/// The difference of `n1 / d1` and `n2 / d2` stands for `(n1 * d2 - n2 * d1) / (d1 * d2)`.
pub proof fn lemma_is_difference(a: Frac, n1: int, d1: int, b: Frac, n2: int, d2: int, r: Frac)
    requires
        a.is(n1, d1),
        b.is(n2, d2),
        r.den > 0,
        r.num * (a.den * b.den) == (a.num * b.den - b.num * a.den) * r.den,
    ensures
        r.is(n1 * d2 - n2 * d1, d1 * d2),
{
    let an = a.num as int;
    let ad = a.den as int;
    let bn = b.num as int;
    let bd = b.den as int;
    let rn = r.num as int;
    let rd = r.den as int;
    let k = ad * bd;
    let e = d1 * d2;
    lemma_pos_product(ad, bd);
    lemma_pos_product(d1, d2);
    assert((rn * e) * k == (rn * k) * e) by (nonlinear_arith);
    lemma_spread(an * bd, bn * ad, rd, e);
    lemma_regroup(an, bd, rd, d1, d2);
    lemma_regroup(bn, ad, rd, d2, d1);
    lemma_spread(n1 * d2, n2 * d1, rd, k);
    lemma_regroup(n1, bd, rd, ad, d2);
    lemma_regroup(n2, ad, rd, bd, d1);
    lemma_cancel(k, rn * e, (n1 * d2 - n2 * d1) * rd);
}

/// The product of `n1 / d1` and `n2 / d2` stands for `(n1 * n2) / (d1 * d2)`.
pub proof fn lemma_is_product(a: Frac, n1: int, d1: int, b: Frac, n2: int, d2: int, r: Frac)
    requires
        a.is(n1, d1),
        b.is(n2, d2),
        r.den > 0,
        r.num * (a.den * b.den) == (a.num * b.num) * r.den,
    ensures
        r.is(n1 * n2, d1 * d2),
{
    let an = a.num as int;
    let ad = a.den as int;
    let bn = b.num as int;
    let bd = b.den as int;
    let rn = r.num as int;
    let rd = r.den as int;
    let k = ad * bd;
    let e = d1 * d2;
    lemma_pos_product(ad, bd);
    lemma_pos_product(d1, d2);
    let x = rn * k;
    let y = (an * bn) * rd;
    let p = an * d1;
    let q = bn * d2;
    let p2 = n1 * ad;
    let q2 = n2 * bd;
    assert((rn * e) * k == x * e) by (nonlinear_arith)
        requires
            x == rn * k,
    ;
    assert(y * e == rd * (p * q)) by (nonlinear_arith)
        requires
            y == (an * bn) * rd,
            p == an * d1,
            q == bn * d2,
            e == d1 * d2,
    ;
    assert(rd * (p2 * q2) == ((n1 * n2) * rd) * k) by (nonlinear_arith)
        requires
            p2 == n1 * ad,
            q2 == n2 * bd,
            k == ad * bd,
    ;
    lemma_cancel(k, rn * e, (n1 * n2) * rd);
}

/// Fractions compare as the numbers they stand for.
pub proof fn lemma_is_order(a: Frac, n1: int, d1: int, b: Frac, n2: int, d2: int)
    requires
        a.is(n1, d1),
        b.is(n2, d2),
    ensures
        (a.num * b.den > b.num * a.den) == (n1 * d2 > n2 * d1),
{
    let an = a.num as int;
    let ad = a.den as int;
    let bn = b.num as int;
    let bd = b.den as int;
    let k = ad * bd;
    let e = d1 * d2;
    lemma_pos_product(ad, bd);
    lemma_pos_product(d1, d2);
    let u = an * bd - bn * ad;
    let v = n1 * d2 - n2 * d1;
    lemma_spread(an * bd, bn * ad, 1, e);
    lemma_regroup(an, bd, 1, d1, d2);
    lemma_regroup(bn, ad, 1, d2, d1);
    lemma_spread(n1 * d2, n2 * d1, 1, k);
    lemma_regroup(n1, bd, 1, ad, d2);
    lemma_regroup(n2, ad, 1, bd, d1);
    assert(u * 1 == u && v * 1 == v);
    assert(u * e == v * k);
    assert((u > 0) == (v > 0)) by (nonlinear_arith)
        requires
            u * e == v * k,
            e > 0,
            k > 0,
    ;
}

/// The product of two positive integers is positive.
pub proof fn lemma_pos_product(a: int, b: int)
    requires
        a > 0,
        b > 0,
    ensures
        a * b > 0,
{
    assert(a * b > 0) by (nonlinear_arith)
        requires
            a > 0,
            b > 0,
    ;
}

/// A positive factor on both sides of an equation can be dropped.
pub proof fn lemma_cancel(k: int, x: int, y: int)
    requires
        k > 0,
        x * k == y * k,
    ensures
        x == y,
{
    assert(x == y) by (nonlinear_arith)
        requires
            k > 0,
            x * k == y * k,
    ;
}

} // verus!
