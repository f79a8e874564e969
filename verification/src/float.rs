//! Binary64 arithmetic on integers.
//!
//! A finite binary64 number is an integer multiple of `2^-1074`. Here such a
//! number is that integer, and an operation is the exact result rounded to the
//! nearest representable number, ties to even. The sign of a zero is not kept:
//! no operation of this module depends on it.

use vstd::arithmetic::div_mod::*;
use vstd::arithmetic::mul::*;
use vstd::arithmetic::power2::*;
use vstd::prelude::*;

verus! {

/// The value of a binary64 number; finite ones in units of `2^-1074`.
pub enum Real {
    Nan,
    PosInf,
    NegInf,
    Fin(int),
}

/// `a / d` rounded to the nearest integer, ties to even.
pub open spec fn nearest(a: nat, d: nat) -> nat {
    if 2 * (a % d) < d || (2 * (a % d) == d && (a / d) % 2 == 0) {
        a / d
    } else {
        a / d + 1
    }
}

/// The exponent of the last place of `num / den`: the least `k` with
/// `num / den < 2^(53 + k)`.
pub open spec fn place(num: nat, den: nat) -> nat
    decreases num - den,
{
    if den == 0 || num < den * pow2(53) {
        0
    } else {
        proof {
            lemma2_to64();
            lemma2_to64_rest();
            assert(den * pow2(53) >= den * 2) by (nonlinear_arith)
                requires
                    pow2(53) >= 2,
            ;
        }
        1 + place(num, den * 2)
    }
}

/// `num / den` rounded to 53 significant bits, but not below the unit.
pub open spec fn rounded(num: nat, den: nat) -> nat {
    let k = place(num, den);
    nearest(num, den * pow2(k)) * pow2(k)
}

/// The number with magnitude `num / den`, rounded; an infinity past the
/// greatest finite number.
pub open spec fn quotient(negative: bool, num: nat, den: nat) -> Real {
    let v = rounded(num, den);
    if v >= pow2(2098) {
        if negative {
            Real::NegInf
        } else {
            Real::PosInf
        }
    } else if negative {
        Real::Fin(-v)
    } else {
        Real::Fin(v as int)
    }
}

pub open spec fn magnitude(a: int) -> nat {
    if a < 0 {
        (-a) as nat
    } else {
        a as nat
    }
}

/// An exact sum of units, rounded.
pub open spec fn exact(a: int) -> Real {
    quotient(a < 0, magnitude(a), 1)
}

impl Real {
    pub open spec fn plus(self, other: Real) -> Real {
        match (self, other) {
            (Real::Nan, _) => Real::Nan,
            (_, Real::Nan) => Real::Nan,
            (Real::PosInf, Real::NegInf) => Real::Nan,
            (Real::NegInf, Real::PosInf) => Real::Nan,
            (Real::PosInf, _) => Real::PosInf,
            (_, Real::PosInf) => Real::PosInf,
            (Real::NegInf, _) => Real::NegInf,
            (_, Real::NegInf) => Real::NegInf,
            (Real::Fin(a), Real::Fin(b)) => exact(a + b),
        }
    }

    pub open spec fn negated(self) -> Real {
        match self {
            Real::Nan => Real::Nan,
            Real::PosInf => Real::NegInf,
            Real::NegInf => Real::PosInf,
            Real::Fin(a) => Real::Fin(-a),
        }
    }

    pub open spec fn minus(self, other: Real) -> Real {
        self.plus(other.negated())
    }

    /// The integer `c` as a binary64 number.
    pub open spec fn of_int(c: int) -> Real {
        quotient(c < 0, magnitude(c) * pow2(1074), 1)
    }

    /// Division by a positive integer below `2^53`.
    pub open spec fn over(self, k: nat) -> Real {
        match self {
            Real::Fin(a) => quotient(a < 0, magnitude(a), k),
            _ => self,
        }
    }

    /// `1 / self`, for a positive finite number.
    pub open spec fn reciprocal(self) -> Real {
        match self {
            Real::Fin(a) => quotient(false, pow2(2148), magnitude(a)),
            _ => Real::Nan,
        }
    }

    /// Strictly greater; false if either is not a number.
    pub open spec fn gt(self, other: Real) -> bool {
        match (self, other) {
            (Real::Nan, _) => false,
            (_, Real::Nan) => false,
            (Real::PosInf, Real::PosInf) => false,
            (Real::PosInf, _) => true,
            (_, Real::PosInf) => false,
            (Real::NegInf, _) => false,
            (_, Real::NegInf) => true,
            (Real::Fin(a), Real::Fin(b)) => a > b,
        }
    }

    /// The greater of the two; the other one if one is not a number.
    pub open spec fn greatest(self, other: Real) -> Real {
        if self is Nan {
            other
        } else if other.gt(self) {
            other
        } else {
            self
        }
    }

    pub open spec fn zero() -> Real {
        Real::Fin(0)
    }

    pub open spec fn one() -> Real {
        Real::Fin(pow2(1074) as int)
    }

    /// The least finite number.
    pub open spec fn lowest() -> Real {
        Real::Fin(-((pow2(53) - 1) * pow2(2045)))
    }
}

proof fn lemma_place(num: nat, den: nat, k: nat)
    requires
        den > 0,
        num < den * pow2(53 + k),
        k > 0 ==> num >= den * pow2((52 + k) as nat),
    ensures
        place(num, den) == k,
    decreases k,
{
    if k > 0 {
        let j = (k - 1) as nat;
        lemma_pow2_unfold(53 + k);
        lemma_pow2_unfold(52 + k);
        assert(den * pow2(53 + k) == (den * 2) * pow2(53 + j)) by (nonlinear_arith)
            requires
                pow2(53 + k) == 2 * pow2(53 + j),
        ;
        assert(den * pow2((52 + k) as nat) == (den * 2) * pow2((52 + j) as nat)) by (nonlinear_arith)
            requires
                pow2(52 + k) == 2 * pow2(52 + j),
        ;
        lemma_place(num, den * 2, j);
        if k > 1 {
            lemma_pow2_strictly_increases(53, (52 + k) as nat);
        }
        assert(den * pow2((52 + k) as nat) >= den * pow2(53)) by (nonlinear_arith)
            requires
                pow2((52 + k) as nat) >= pow2(53),
        ;
    }
}

/// Scaling numerator and denominator alike changes nothing.
proof fn lemma_nearest_scaled(a: nat, d: nat, s: nat)
    requires
        d > 0,
        s > 0,
    ensures
        nearest(a * s, d * s) == nearest(a, d),
{
    let q = a / d;
    let r = a % d;
    lemma_fundamental_div_mod(a as int, d as int);
    assert(a * s == q * (d * s) + r * s) by (nonlinear_arith)
        requires
            a == d * q + r,
    ;
    assert(0 <= r * s < d * s) by (nonlinear_arith)
        requires
            0 <= r < d,
            s > 0,
    ;
    lemma_fundamental_div_mod_converse((a * s) as int, (d * s) as int, q as int, (r * s) as int);
    assert(2 * (r * s) < d * s <==> 2 * r < d) by (nonlinear_arith)
        requires
            s > 0,
    ;
    assert(2 * (r * s) == d * s <==> 2 * r == d) by (nonlinear_arith)
        requires
            s > 0,
    ;
}

proof fn lemma_nearest_parts(a: nat, d: nat, q: nat, r: nat)
    requires
        a == q * d + r,
        r < d,
    ensures
        nearest(a, d) == if 2 * r < d || (2 * r == d && q % 2 == 0) {
            q
        } else {
            q + 1
        },
{
    lemma_fundamental_div_mod_converse(a as int, d as int, q as int, r as int);
}

/// The bounds that make the last place of a quotient.
proof fn lemma_place_bounds(num: nat, den: nat)
    requires
        den > 0,
    ensures
        num < den * pow2(53 + place(num, den)),
        place(num, den) > 0 ==> num >= den * pow2((52 + place(num, den)) as nat),
    decreases num - den,
{
    lemma2_to64();
    lemma2_to64_rest();
    if num >= den * pow2(53) {
        assert(den * pow2(53) >= den * 2) by (nonlinear_arith)
            requires
                pow2(53) >= 2,
        ;
        lemma_place_bounds(num, den * 2);
        let j = place(num, den * 2);
        let k = place(num, den);
        lemma_pow2_unfold(53 + k);
        assert((den * 2) * pow2(53 + j) == den * pow2(53 + k)) by (nonlinear_arith)
            requires
                pow2(53 + k) == 2 * pow2(53 + j),
        ;
        if j > 0 {
            lemma_pow2_unfold((52 + k) as nat);
            assert((den * 2) * pow2((52 + j) as nat) == den * pow2((52 + k) as nat))
                by (nonlinear_arith)
                requires
                    pow2((52 + k) as nat) == 2 * pow2((52 + j) as nat),
            ;
        }
    }
}

proof fn lemma_nearest_error(a: nat, d: nat)
    requires
        d > 0,
    ensures
        -(d as int) <= 2 * (nearest(a, d) * d - a) <= d,
{
    lemma_fundamental_div_mod(a as int, d as int);
    let q = a / d;
    assert((q + 1) * d == q * d + d) by (nonlinear_arith);
    assert(d * q == q * d) by (nonlinear_arith);
}

/// Rounding keeps a number within one part in 2^53.
proof fn lemma_rounded_error(num: nat)
    ensures
        -(num as int) <= pow2(53) * (rounded(num, 1) - num) <= num,
{
    let k = place(num, 1);
    let p = pow2(k);
    lemma_pow2_pos(k);
    lemma_place_bounds(num, 1);
    assert(1 * p == p);
    lemma_nearest_error(num, p);
    let e = rounded(num, 1) - num;
    if k > 0 {
        lemma_pow2_adds(52, k);
        lemma2_to64_rest();
        assert(-(num as int) <= pow2(53) * e <= num) by (nonlinear_arith)
            requires
                -(p as int) <= 2 * e <= p,
                num >= pow2(52) * p,
                pow2(53) == 2 * pow2(52),
                pow2(52) > 0,
        ;
    } else {
        lemma2_to64();
        assert(e == 0);
    }
}

/// Rounding keeps the order.
proof fn lemma_rounded_monotone(x: nat, y: nat)
    requires
        x <= y,
    ensures
        rounded(x, 1) <= rounded(y, 1),
{
    let i = place(x, 1);
    let j = place(y, 1);
    lemma_place_bounds(x, 1);
    lemma_place_bounds(y, 1);
    lemma_pow2_pos(i);
    lemma_pow2_pos(j);
    let p = pow2(i);
    let q = pow2(j);
    assert(1 * p == p && 1 * q == q);
    if i == j {
        lemma_nearest_monotone(x, y, p);
        let a = nearest(x, p);
        let b = nearest(y, p);
        assert(a * p <= b * p) by (nonlinear_arith)
            requires
                a <= b,
        ;
    } else if i < j {
        lemma_pow2_adds(53, i);
        lemma_pow2_adds(52, j);
        if 53 + i < 52 + j {
            lemma_pow2_strictly_increases((53 + i) as nat, (52 + j) as nat);
        }
        lemma_nearest_at_most(x, p, pow2(53));
        lemma_nearest_at_least(y, q, pow2(52));
        let a = nearest(x, p);
        let b = nearest(y, q);
        assert(a * p <= pow2(53) * p) by (nonlinear_arith)
            requires
                a <= pow2(53),
        ;
        assert(b * q >= pow2(52) * q) by (nonlinear_arith)
            requires
                b >= pow2(52),
        ;
    } else {
        lemma_pow2_adds(53, j);
        lemma_pow2_adds(52, i);
        if 53 + j < 52 + i {
            lemma_pow2_strictly_increases((53 + j) as nat, (52 + i) as nat);
        }
    }
}

proof fn lemma_nearest_monotone(x: nat, y: nat, d: nat)
    requires
        d > 0,
        x <= y,
    ensures
        nearest(x, d) <= nearest(y, d),
{
    lemma_fundamental_div_mod(x as int, d as int);
    lemma_fundamental_div_mod(y as int, d as int);
    let a = x / d;
    let b = y / d;
    assert(a <= b) by (nonlinear_arith)
        requires
            x == d * a + x % d,
            y == d * b + y % d,
            x <= y,
            x % d >= 0,
            y % d < d,
            d > 0,
    ;
    if a == b {
        assert(d * a == d * b);
        assert(x % d <= y % d);
    }
}

proof fn lemma_nearest_at_most(x: nat, d: nat, top: nat)
    requires
        d > 0,
        x <= top * d,
    ensures
        nearest(x, d) <= top,
{
    lemma_nearest_monotone(x, top * d, d);
    lemma_nearest_parts(top * d, d, top, 0);
}

proof fn lemma_nearest_at_least(x: nat, d: nat, low: nat)
    requires
        d > 0,
        x >= low * d,
    ensures
        nearest(x, d) >= low,
{
    lemma_nearest_monotone(low * d, x, d);
    lemma_nearest_parts(low * d, d, low, 0);
}

/// A rounded number is rounded to itself.
proof fn lemma_rounded_again(x: nat)
    ensures
        rounded(rounded(x, 1), 1) == rounded(x, 1),
{
    let k = place(x, 1);
    let p = pow2(k);
    lemma_pow2_pos(k);
    lemma_place_bounds(x, 1);
    lemma_pow2_adds(53, k);
    assert(1 * p == p);
    let q = nearest(x, p);
    let y = rounded(x, 1);
    assert(y == q * p);
    lemma_nearest_at_most(x, p, pow2(53));
    let j = place(y, 1);
    lemma_place_bounds(y, 1);
    lemma_pow2_pos(j);
    if k > 0 {
        lemma_pow2_adds(52, k);
        lemma_nearest_at_least(x, p, pow2(52));
    }
    if q < pow2(53) {
        assert(y < pow2(53 + k)) by (nonlinear_arith)
            requires
                y == q * p,
                q < pow2(53),
                pow2(53 + k) == pow2(53) * p,
                p > 0,
        ;
        if k > 0 {
            assert(y >= pow2((52 + k) as nat)) by (nonlinear_arith)
                requires
                    y == q * p,
                    q >= pow2(52),
                    pow2((52 + k) as nat) == pow2(52) * p,
            ;
        }
        lemma_place(y, 1, k);
        lemma_nearest_parts(y, p, q, 0);
    } else {
        lemma_pow2_unfold((54 + k) as nat);
        lemma_pow2_pos((53 + k) as nat);
        lemma_pow2_adds(52, k + 1);
        lemma_pow2_unfold(k + 1);
        lemma2_to64_rest();
        assert(y == pow2(53 + k));
        lemma_place(y, 1, k + 1);
        assert(y == pow2(52) * pow2(k + 1));
        lemma_pow2_pos(k + 1);
        lemma_nearest_parts(y, pow2(k + 1), pow2(52), 0);
    }
}

/// An operation whose exact result is below 2^2097 units is finite, and within one
/// part in 2^53 of it.
pub proof fn lemma_exact_error(a: int)
    requires
        magnitude(a) < pow2(2097),
    ensures
        exact(a) matches Real::Fin(b) && -magnitude(a) <= pow2(53) * (b - a) <= magnitude(a),
{
    lemma_rounded_error(magnitude(a));
    lemma_pow2_unfold(2098);
    lemma2_to64_rest();
    let m = magnitude(a);
    let r = rounded(m, 1);
    assert(r <= 2 * m) by (nonlinear_arith)
        requires
            pow2(53) * (r - m) <= m,
            pow2(53) >= 1,
            m >= 0,
    ;
    if a < 0 {
        assert(pow2(53) * (-r - a) == -(pow2(53) * (r - m))) by (nonlinear_arith)
            requires
                m == -a,
        ;
    }
}

/// Numbers that an operation gives.
pub open spec fn representable(a: int) -> bool {
    exact(a) == Real::Fin(a)
}

/// What an operation gives can be represented.
pub proof fn lemma_exact_representable(a: int)
    ensures
        exact(a) matches Real::Fin(b) ==> representable(b),
        representable(0),
{
    lemma_rounded_again(magnitude(a));
    lemma_rounded_error(0);
    lemma_pow2_pos(2098);
    lemma2_to64_rest();
    assert(pow2(53) * (rounded(0, 1) - 0) == 0 ==> rounded(0, 1) == 0) by (nonlinear_arith)
        requires
            pow2(53) >= 1,
    ;
    if exact(a) is Fin {
        let b = exact(a)->Fin_0;
        if a < 0 && b == 0 {
            lemma_rounded_again(magnitude(a));
        }
    }
}

/// Operations keep the order of their exact results.
pub proof fn lemma_exact_monotone(a: int, b: int)
    requires
        a <= b,
        exact(a) is Fin,
        exact(b) is Fin,
    ensures
        exact(a)->Fin_0 <= exact(b)->Fin_0,
{
    if a >= 0 {
        lemma_rounded_monotone(a as nat, b as nat);
    } else if b < 0 {
        lemma_rounded_monotone(magnitude(b), magnitude(a));
    }
}

/// Converting an integer rounds it as an operation would.
pub proof fn lemma_of_int_exact(c: int)
    ensures
        Real::of_int(c) == exact(c * pow2(1074)),
{
    let u = pow2(1074);
    lemma_pow2_pos(1074);
    if c < 0 {
        assert(c * u < 0 && -(c * u) == (-c) * u) by (nonlinear_arith)
            requires
                c < 0,
                u > 0,
        ;
    } else {
        assert(c * u >= 0) by (nonlinear_arith)
            requires
                c >= 0,
                u > 0,
        ;
    }
}

/// A rounded quotient is within one part in 2^53, or one unit, of the exact one.
proof fn lemma_quotient_error(num: nat, den: nat)
    requires
        den > 0,
    ensures
        -(num + pow2(53) * den) <= pow2(53) * (rounded(num, den) * den - num) <= num + pow2(53)
            * den,
{
    let k = place(num, den);
    let p = pow2(k);
    lemma_pow2_pos(k);
    lemma2_to64_rest();
    lemma_place_bounds(num, den);
    assert(den * p > 0) by (nonlinear_arith)
        requires
            den > 0,
            p > 0,
    ;
    lemma_nearest_error(num, den * p);
    let q = nearest(num, den * p);
    let e = rounded(num, den) * den - num;
    assert(q * (den * p) == (q * p) * den) by (nonlinear_arith);
    let h = pow2(52) as int;
    let w = (den * p) as int;
    assert(-(h * w) <= pow2(53) * e <= h * w) by (nonlinear_arith)
        requires
            -w <= 2 * e <= w,
            pow2(53) == 2 * h,
            h > 0,
    ;
    if k > 0 {
        lemma_pow2_adds(52, k);
        assert(h * w == den * pow2((52 + k) as nat)) by (nonlinear_arith)
            requires
                pow2((52 + k) as nat) == h * p,
                w == den * p,
        ;
        assert(pow2(53) * den >= 0) by (nonlinear_arith);
    } else {
        lemma2_to64();
        assert(w == den) by (nonlinear_arith)
            requires
                w == den * p,
                p == 1,
        ;
        assert(h * w <= pow2(53) * den) by (nonlinear_arith)
            requires
                w == den,
                pow2(53) == 2 * h,
                den > 0,
                h > 0,
        ;
    }
}

/// Dividing a number is exact up to one part in 2^53, or one unit.
pub proof fn lemma_over_error(a: int, k: nat)
    requires
        0 <= a < pow2(2096),
        k > 0,
    ensures
        Real::Fin(a).over(k) matches Real::Fin(b) && 0 <= b && -(a + pow2(53) * k) <= pow2(53) * (b
            * k - a) <= a + pow2(53) * k,
{
    assert(a < pow2(2096) * k) by (nonlinear_arith)
        requires
            a < pow2(2096),
            k >= 1,
    ;
    lemma_small_quotient(a as nat, k);
}

proof fn lemma_small_quotient(num: nat, den: nat)
    requires
        den > 0,
        num < pow2(2096) * den,
    ensures
        rounded(num, den) < pow2(2098),
        -(num + pow2(53) * den) <= pow2(53) * (rounded(num, den) * den - num) <= num + pow2(53)
            * den,
{
    lemma_quotient_error(num, den);
    lemma2_to64_rest();
    lemma_pow2_unfold(2097);
    lemma_pow2_unfold(2098);
    lemma_pow2_strictly_increases(1, 2096);
    lemma2_to64();
    let r = rounded(num, den);
    if r >= pow2(2098) {
        let k = pow2(53) as int;
        let t = pow2(2096) as int;
        assert(false) by (nonlinear_arith)
            requires
                k * (r * den - num) <= num + k * den,
                num < t * den,
                r >= 4 * t,
                k >= 2,
                t >= 2,
                den > 0,
        ;
    }
}

/// The reciprocal of a number of at least one is exact up to one part in 2^53, or one
/// unit.
pub proof fn lemma_reciprocal_error(a: int)
    requires
        a >= pow2(1074),
    ensures
        Real::Fin(a).reciprocal() matches Real::Fin(b) && 0 <= b && -(pow2(2148) + pow2(53) * a)
            <= pow2(53) * (b * a - pow2(2148)) <= pow2(2148) + pow2(53) * a,
{
    lemma_pow2_pos(1074);
    lemma_pow2_adds(1074, 1074);
    lemma_pow2_strictly_increases(1074, 2096);
    assert(pow2(2148) < pow2(2096) * a) by (nonlinear_arith)
        requires
            pow2(2148) == pow2(1074) * pow2(1074),
            pow2(1074) < pow2(2096),
            a >= pow2(1074),
            pow2(1074) > 0,
    ;
    lemma_small_quotient(pow2(2148), a as nat);
}

/// Powers of two are represented exactly.
pub proof fn lemma_power_representable(k: nat)
    requires
        k < 2098,
    ensures
        exact(pow2(k) as int) == Real::Fin(pow2(k) as int),
{
    let x = pow2(k);
    lemma_pow2_pos(k);
    lemma_pow2_strictly_increases(k, 2098);
    if k < 53 {
        lemma_pow2_strictly_increases(k, 53);
        lemma_place(x, 1, 0);
        lemma2_to64();
        lemma_nearest_parts(x, 1, x, 0);
    } else {
        let j = (k - 52) as nat;
        lemma_pow2_strictly_increases(k, 53 + j);
        lemma_place(x, 1, j);
        lemma_pow2_adds(52, j);
        lemma_pow2_pos(j);
        lemma_nearest_parts(x, pow2(j), pow2(52), 0);
        assert(1 * pow2(j) == pow2(j));
    }
}

/// Rounding to binary64: the result has at most 53 bits before its last place, all of
/// them in use unless it is subnormal; it is off by at most half a last place, and of
/// two numbers as near it is the even one.
pub proof fn lemma_rounding_is_to_nearest_even(num: nat, den: nat) -> (r: (nat, nat))
    requires
        den > 0,
    ensures
        ({
            let (q, k) = r;
            let off = q * (den * pow2(k)) - num;
            &&& rounded(num, den) == q * pow2(k)
            &&& q <= pow2(53)
            &&& k > 0 ==> q >= pow2(52)
            &&& -(den * pow2(k)) <= 2 * off <= den * pow2(k)
            &&& 2 * off == den * pow2(k) || 2 * off == -(den * pow2(k)) ==> q % 2 == 0
        }),
{
    let k = place(num, den);
    let p = pow2(k);
    let d = den * p;
    let q = nearest(num, d);
    lemma_pow2_pos(k);
    lemma_place_bounds(num, den);
    assert(d > 0) by (nonlinear_arith)
        requires
            d == den * p,
            den > 0,
            p > 0,
    ;
    lemma_nearest_error(num, d);
    lemma_pow2_adds(53, k);
    assert(den * pow2(53 + k) == pow2(53) * d) by (nonlinear_arith)
        requires
            pow2(53 + k) == pow2(53) * p,
            d == den * p,
    ;
    lemma_nearest_at_most(num, d, pow2(53));
    if k > 0 {
        lemma_pow2_adds(52, k);
        assert(den * pow2((52 + k) as nat) == pow2(52) * d) by (nonlinear_arith)
            requires
                pow2((52 + k) as nat) == pow2(52) * p,
                d == den * p,
        ;
        lemma_nearest_at_least(num, d, pow2(52));
    }
    lemma_fundamental_div_mod(num as int, d as int);
    let f = num / d;
    assert((f + 1) * d == f * d + d) by (nonlinear_arith);
    assert(d * f == f * d) by (nonlinear_arith);
    (q, k)
}

/// Rounding `(m + r / den) * 2^e` when `m` has at most 53 bits and `r` is zero
/// leaves it as it is.
proof fn lemma_round_short(num: nat, den: nat, m: nat, e: nat, s: nat)
    requires
        den > 0,
        num == m * den * pow2(e),
        s <= e,
        m * pow2(s) < pow2(53),
        s < e ==> m * pow2(s) >= pow2(52),
    ensures
        rounded(num, den) == m * pow2(e),
        m * pow2(e) == (m * pow2(s)) * pow2((e - s) as nat),
{
    let k = (e - s) as nat;
    lemma_pow2_adds(s, k);
    lemma_pow2_adds(53, k);
    lemma_pow2_adds(52, k);
    lemma_pow2_pos(k);
    lemma_pow2_pos(s);
    let p = pow2(k);
    let t = m * pow2(s);
    assert(num == t * (den * p)) by (nonlinear_arith)
        requires
            num == m * den * pow2(e),
            pow2(e) == pow2(s) * p,
            t == m * pow2(s),
    ;
    assert(num < den * pow2(53 + k)) by (nonlinear_arith)
        requires
            num == t * (den * p),
            t < pow2(53),
            pow2(53 + k) == pow2(53) * p,
            den > 0,
            p > 0,
    ;
    if k > 0 {
        assert(num >= den * pow2((52 + k) as nat)) by (nonlinear_arith)
            requires
                num == t * (den * p),
                t >= pow2(52),
                pow2((52 + k) as nat) == pow2(52) * p,
                den > 0,
                p > 0,
        ;
    }
    lemma_place(num, den, k);
    assert(den * p > 0) by (nonlinear_arith)
        requires
            den > 0,
            p > 0,
    ;
    lemma_nearest_parts(num, den * p, t, 0);
    assert(m * pow2(e) == t * p) by (nonlinear_arith)
        requires
            pow2(e) == pow2(s) * p,
            t == m * pow2(s),
    ;
}

/// Rounding `(m + r / den) * 2^e` when `m` has `53 + k` bits, `m = q 2^k + low`.
proof fn lemma_round_long(
    num: nat,
    den: nat,
    m: nat,
    r: nat,
    e: nat,
    k: nat,
    q: nat,
    low: nat,
)
    requires
        den > 0,
        r < den,
        num == (m * den + r) * pow2(e),
        k > 0,
        pow2((52 + k) as nat) <= m < pow2(53 + k),
        m == q * pow2(k) + low,
        low < pow2(k),
    ensures
        rounded(num, den) == pow2(e + k) * (if low < pow2((k - 1) as nat) || (low == pow2(
            (k - 1) as nat,
        ) && r == 0 && q % 2 == 0) {
            q
        } else {
            q + 1
        }),
{
    let j = e + k;
    lemma_pow2_adds(e, k);
    lemma_pow2_adds(53 + k, e);
    lemma_pow2_adds((52 + k) as nat, e);
    lemma_pow2_pos(e);
    lemma_pow2_pos(k);
    let pe = pow2(e);
    let pk = pow2(k);
    assert(num < den * pow2(53 + j)) by (nonlinear_arith)
        requires
            num == (m * den + r) * pe,
            m + 1 <= pow2(53 + k),
            r < den,
            pow2(53 + j) == pow2(53 + k) * pe,
            pe > 0,
            den > 0,
    ;
    assert(num >= den * pow2((52 + j) as nat)) by (nonlinear_arith)
        requires
            num == (m * den + r) * pe,
            m >= pow2((52 + k) as nat),
            pow2((52 + j) as nat) == pow2((52 + k) as nat) * pe,
            pe > 0,
            den > 0,
            r >= 0,
    ;
    lemma_place(num, den, j);
    let a = m * den + r;
    let d = den * pk;
    assert(d > 0) by (nonlinear_arith)
        requires
            d == den * pk,
            den > 0,
            pk > 0,
    ;
    assert(den * pow2(j) == d * pe) by (nonlinear_arith)
        requires
            pow2(j) == pe * pk,
            d == den * pk,
    ;
    lemma_nearest_scaled(a, d, pe);
    let rest = low * den + r;
    assert(a == q * d + rest) by (nonlinear_arith)
        requires
            a == m * den + r,
            m == q * pk + low,
            d == den * pk,
            rest == low * den + r,
    ;
    assert(rest < d) by (nonlinear_arith)
        requires
            rest == low * den + r,
            r < den,
            low + 1 <= pk,
            d == den * pk,
            den > 0,
    ;
    lemma_nearest_parts(a, d, q, rest);
    lemma_pow2_unfold(k);
    let h = pow2((k - 1) as nat);
    assert(pk == 2 * h);
    if low < h {
        assert(2 * rest < d) by (nonlinear_arith)
            requires
                rest == low * den + r,
                r < den,
                low + 1 <= h,
                d == den * pk,
                pk == 2 * h,
                den > 0,
        ;
    } else if low == h {
        assert(2 * rest == d + 2 * r) by (nonlinear_arith)
            requires
                rest == low * den + r,
                low == h,
                d == den * pk,
                pk == 2 * h,
        ;
    } else {
        assert(2 * rest > d) by (nonlinear_arith)
            requires
                rest == low * den + r,
                r >= 0,
                low >= h + 1,
                d == den * pk,
                pk == 2 * h,
                den > 0,
        ;
    }
    let up = if low < h || (low == h && r == 0 && q % 2 == 0) {
        q
    } else {
        q + 1
    };
    assert(nearest(num, den * pow2(j)) == up);
    assert(up * pow2(j) == pow2(j) * up) by (nonlinear_arith);
}

/// `2^k` as a machine integer.
fn two_to(k: u32) -> (r: u128)
    requires
        k < 128,
    ensures
        r == pow2(k as nat),
{
    proof {
        lemma2_to64();
        lemma2_to64_rest();
    }
    if k < 64 {
        let s: u64 = k as u64;
        proof {
            if k < 63 {
                lemma_pow2_strictly_increases(k as nat, 63);
            }
            vstd::bits::lemma_u64_shl_is_mul(1, s);
        }
        (1u64 << s) as u128
    } else {
        let s: u64 = (k - 64) as u64;
        proof {
            if k < 127 {
                lemma_pow2_strictly_increases((k - 64) as nat, 63);
            }
            vstd::bits::lemma_u64_shl_is_mul(1, s);
            lemma_pow2_adds(64, (k - 64) as nat);
        }
        (1u64 << s) as u128 * 0x1_0000_0000_0000_0000u128
    }
}

/// The number of bits of `m`.
fn bit_len(m: u128) -> (b: u32)
    ensures
        b <= 128,
        m < pow2(b as nat),
        b > 0 ==> m >= pow2((b - 1) as nat),
{
    proof {
        lemma2_to64();
        lemma2_to64_rest();
        lemma_pow2_adds(64, 64);
        assert(pow2(128) == 0x1_0000_0000_0000_0000int * 0x1_0000_0000_0000_0000int);
    }
    if m == 0 {
        return 0;
    }
    let mut lo: u32 = 0;
    let mut hi: u32 = 128;
    while lo + 1 < hi
        invariant
            lo < hi <= 128,
            pow2(lo as nat) <= m < pow2(hi as nat),
        decreases hi - lo,
    {
        let mid: u32 = (lo + hi) / 2;
        if m >= two_to(mid) {
            lo = mid;
        } else {
            hi = mid;
        }
    }
    hi
}

/// A binary64 number. A finite one is `mant * 2^exp` units, with the leading
/// bit of `mant` set unless `exp` is zero.
#[derive(Clone, Copy, PartialEq, Eq, Structural, Debug)]
pub enum Double {
    Nan,
    Inf { negative: bool },
    Fin { negative: bool, mant: u64, exp: u32 },
}

impl Double {
    /// The representation is the canonical one.
    pub open spec fn valid(self) -> bool {
        match self {
            Double::Fin { mant, exp, .. } => {
                &&& mant < 0x20_0000_0000_0000
                &&& exp <= 2045
                &&& exp > 0 ==> mant >= 0x10_0000_0000_0000
            },
            _ => true,
        }
    }

    pub open spec fn value(self) -> Real {
        match self {
            Double::Nan => Real::Nan,
            Double::Inf { negative } => if negative {
                Real::NegInf
            } else {
                Real::PosInf
            },
            Double::Fin { negative, mant, exp } => if negative {
                Real::Fin(-(mant * pow2(exp as nat)))
            } else {
                Real::Fin(mant * pow2(exp as nat))
            },
        }
    }
}

/// The number with the given interchange encoding: a sign bit, eleven bits of
/// exponent, and fifty-two bits of fraction.
pub open spec fn encoded(bits: u64) -> Double {
    let negative = bits >= 0x8000_0000_0000_0000;
    let exponent = bits / 0x10_0000_0000_0000 % 2048;
    let fraction = bits % 0x10_0000_0000_0000;
    if exponent == 2047 {
        if fraction == 0 {
            Double::Inf { negative }
        } else {
            Double::Nan
        }
    } else if exponent == 0 {
        Double::Fin { negative, mant: fraction, exp: 0 }
    } else {
        Double::Fin {
            negative,
            mant: (0x10_0000_0000_0000 + fraction) as u64,
            exp: (exponent - 1) as u32,
        }
    }
}

impl Double {
    /// The number with the given interchange encoding.
    pub fn from_bits(bits: u64) -> (r: Double)
        ensures
            r == encoded(bits),
            r.valid(),
    {
        let negative = bits >= 0x8000_0000_0000_0000;
        let exponent: u64 = bits / 0x10_0000_0000_0000 % 2048;
        let fraction: u64 = bits % 0x10_0000_0000_0000;
        if exponent == 2047 {
            if fraction == 0 {
                Double::Inf { negative }
            } else {
                Double::Nan
            }
        } else if exponent == 0 {
            Double::Fin { negative, mant: fraction, exp: 0 }
        } else {
            Double::Fin {
                negative,
                mant: 0x10_0000_0000_0000 + fraction,
                exp: (exponent - 1) as u32,
            }
        }
    }
}

proof fn lemma_bits()
    ensures
        pow2(0) == 1,
        pow2(52) == 0x10_0000_0000_0000,
        pow2(53) == 0x20_0000_0000_0000,
{
    lemma2_to64();
    lemma2_to64_rest();
}

/// The finite number `v = mant * 2^exp`, or an infinity if it is too large.
fn pack(negative: bool, mant: u64, exp: u32, Ghost(num): Ghost<nat>, Ghost(den): Ghost<nat>) -> (r:
    Double)
    requires
        mant <= 0x20_0000_0000_0000,
        exp < 0xffff_ffff,
        exp > 0 ==> mant >= 0x10_0000_0000_0000,
        rounded(num, den) == mant * pow2(exp as nat),
    ensures
        r.valid(),
        r.value() == quotient(negative, num, den),
{
    proof {
        lemma_bits();
    }
    let full = mant == 0x20_0000_0000_0000;
    let m: u64 = if full {
        0x10_0000_0000_0000
    } else {
        mant
    };
    let e: u32 = if full {
        exp + 1
    } else {
        exp
    };
    let ghost v = rounded(num, den);
    proof {
        if full {
            lemma_pow2_unfold(e as nat);
            assert(m * pow2(e as nat) == mant * pow2(exp as nat)) by (nonlinear_arith)
                requires
                    pow2(e as nat) == 2 * pow2(exp as nat),
                    mant == 2 * m,
            ;
        }
        lemma_pow2_pos(e as nat);
        if e > 2045 {
            lemma_pow2_adds(52, e as nat);
            if e > 2046 {
                lemma_pow2_strictly_increases(2098, (52 + e) as nat);
            }
            assert(m * pow2(e as nat) >= pow2(52) * pow2(e as nat)) by (nonlinear_arith)
                requires
                    m >= pow2(52),
            ;
            assert(v >= pow2(2098));
        } else {
            lemma_pow2_adds(53, e as nat);
            assert(m * pow2(e as nat) < pow2(53) * pow2(e as nat)) by (nonlinear_arith)
                requires
                    m < pow2(53),
                    pow2(e as nat) > 0,
            ;
            if e < 2045 {
                lemma_pow2_strictly_increases((53 + e) as nat, 2098);
            }
            assert(v < pow2(2098));
        }
    }
    if e > 2045 {
        Double::Inf { negative }
    } else {
        Double::Fin { negative, mant: m, exp: e }
    }
}

/// Rounds `(m + r / den) * 2^e`; `sticky` tells whether `r` is positive.
fn round(
    negative: bool,
    m: u128,
    e: u32,
    sticky: bool,
    Ghost(r): Ghost<nat>,
    Ghost(num): Ghost<nat>,
    Ghost(den): Ghost<nat>,
) -> (d: Double)
    requires
        den > 0,
        r < den,
        num == (m * den + r) * pow2(e as nat),
        sticky == (r > 0),
        sticky ==> m >= 0x20_0000_0000_0000,
        e < 0x1_0000,
    ensures
        d.valid(),
        d.value() == quotient(negative, num, den),
{
    proof {
        lemma_bits();
    }
    let b: u32 = bit_len(m);
    if b <= 53 {
        proof {
            if b < 53 {
                lemma_pow2_strictly_increases(b as nat, 53);
            }
            assert(!sticky);
        }
        let s: u32 = if 53 - b < e {
            53 - b
        } else {
            e
        };
        let p: u128 = two_to(s);
        proof {
            lemma_pow2_adds(b as nat, s as nat);
            if b + s < 53 {
                lemma_pow2_strictly_increases((b + s) as nat, 53);
            }
            lemma_pow2_pos(s as nat);
            assert(m * p < pow2(53)) by (nonlinear_arith)
                requires
                    m < pow2(b as nat),
                    p == pow2(s as nat),
                    p > 0,
                    pow2(b as nat) * pow2(s as nat) <= pow2(53),
            ;
            assert(m * p >= 0) by (nonlinear_arith);
            if m == 0 {
                assert(m * p == 0) by (nonlinear_arith)
                    requires
                        m == 0,
                ;
            }
            if s < e && b > 0 {
                lemma_pow2_adds((b - 1) as nat, s as nat);
                assert(m * p >= pow2(52)) by (nonlinear_arith)
                    requires
                        m >= pow2((b - 1) as nat),
                        p == pow2(s as nat),
                        pow2((b - 1) as nat) * pow2(s as nat) == pow2(52),
                ;
            }
            assert(num == m * den * pow2(e as nat)) by (nonlinear_arith)
                requires
                    num == (m * den + r) * pow2(e as nat),
                    r == 0,
            ;
        }
        if m == 0 {
            proof {
                assert(num == 0) by (nonlinear_arith)
                    requires
                        num == m * den * pow2(e as nat),
                        m == 0,
                ;
                assert(num == 0 * den * pow2(0)) by (nonlinear_arith)
                    requires
                        num == 0,
                ;
                lemma_pow2_pos(0);
                lemma_round_short(num, den, 0, 0, 0);
                assert(0 * pow2(0) == 0) by (nonlinear_arith);
            }
            pack(negative, 0, 0, Ghost(num), Ghost(den))
        } else {
            let mant: u64 = (m * p) as u64;
            proof {
                lemma_round_short(num, den, m as nat, e as nat, s as nat);
            }
            pack(negative, mant, e - s, Ghost(num), Ghost(den))
        }
    } else {
        let k: u32 = b - 53;
        let p: u128 = two_to(k);
        let half: u128 = two_to(k - 1);
        proof {
            lemma_pow2_pos(k as nat);
            lemma_fundamental_div_mod(m as int, p as int);
        }
        let q: u128 = m / p;
        let low: u128 = m % p;
        proof {
            assert(m == q * p + low) by (nonlinear_arith)
                requires
                    m == p * q + low,
            ;
            lemma_pow2_adds(53, k as nat);
            lemma_pow2_adds(52, k as nat);
            assert(q < pow2(53)) by (nonlinear_arith)
                requires
                    m == p * q + low,
                    low >= 0,
                    m < pow2(53) * p,
                    p > 0,
            ;
            assert(q >= pow2(52)) by (nonlinear_arith)
                requires
                    m == p * q + low,
                    low < p,
                    m >= pow2(52) * p,
                    p > 0,
            ;
            lemma_round_long(
                num,
                den,
                m as nat,
                r,
                e as nat,
                k as nat,
                q as nat,
                low as nat,
            );
        }
        let up = !(low < half || (low == half && !sticky && q % 2 == 0));
        let mant: u64 = if up {
            (q + 1) as u64
        } else {
            q as u64
        };
        proof {
            assert(mant * pow2((e + k) as nat) == pow2((e + k) as nat) * mant) by (nonlinear_arith);
        }
        pack(negative, mant, e + k, Ghost(num), Ghost(den))
    }
}

/// Two operands so far apart that the sum rounds to the greater one.
proof fn lemma_absorbed(big: nat, eb: nat, small: nat, es: nat, subtract: bool)
    requires
        0x10_0000_0000_0000 <= big < 0x20_0000_0000_0000,
        small < 0x20_0000_0000_0000,
        es + 66 < eb,
        eb <= 2045,
    ensures
        ({
            let a = big * pow2(eb);
            let b = small * pow2(es);
            &&& b <= a
            &&& subtract ==> rounded((a - b) as nat, 1) == a
            &&& !subtract ==> rounded((a + b) as nat, 1) == a
        }),
{
    lemma_bits();
    let a = big * pow2(eb);
    let b = small * pow2(es);
    let k = (eb - 2) as nat;
    // One unit of `big` is `4 u`; `b` is less than `u`.
    let u = pow2(k);
    lemma_pow2_unfold(eb);
    lemma_pow2_unfold((eb - 1) as nat);
    lemma_pow2_pos(k);
    assert(pow2(eb) == 4 * u);
    assert(b < u) by {
        lemma_pow2_adds(53, es);
        lemma_pow2_pos(es);
        assert(b < pow2(53) * pow2(es)) by (nonlinear_arith)
            requires
                b == small * pow2(es),
                small < pow2(53),
                pow2(es) > 0,
        ;
        lemma_pow2_strictly_increases(53 + es, k);
    }
    assert(b >= 0) by (nonlinear_arith)
        requires
            b == small * pow2(es),
    ;
    assert(a == 4 * (big * u)) by (nonlinear_arith)
        requires
            a == big * pow2(eb),
            pow2(eb) == 4 * u,
    ;
    assert(big * u >= pow2(52) * u) by (nonlinear_arith)
        requires
            big >= pow2(52),
    ;
    assert(pow2(52) * u >= u) by (nonlinear_arith)
        requires
            pow2(52) >= 1,
    ;
    lemma_pow2_adds(53, eb);
    lemma_pow2_adds(52, eb);
    lemma_pow2_adds(53, (eb - 1) as nat);
    lemma_pow2_adds(52, (eb - 1) as nat);
    if !subtract {
        let x = (a + b) as nat;
        assert(x < pow2(53 + eb)) by (nonlinear_arith)
            requires
                x == big * pow2(eb) + b,
                big + 1 <= pow2(53),
                b < pow2(eb),
                pow2(53 + eb) == pow2(53) * pow2(eb),
        ;
        assert(x >= pow2((52 + eb) as nat)) by (nonlinear_arith)
            requires
                x >= big * pow2(eb),
                big >= pow2(52),
                pow2((52 + eb) as nat) == pow2(52) * pow2(eb),
        ;
        lemma_place(x, 1, eb);
        lemma_nearest_parts(x, pow2(eb), big, b as nat);
    } else if b == 0 {
        let x = (a - b) as nat;
        assert(x < pow2(53 + eb)) by (nonlinear_arith)
            requires
                x == big * pow2(eb),
                big + 1 <= pow2(53),
                pow2(53 + eb) == pow2(53) * pow2(eb),
                pow2(eb) > 0,
        ;
        assert(x >= pow2((52 + eb) as nat)) by (nonlinear_arith)
            requires
                x >= big * pow2(eb),
                big >= pow2(52),
                pow2((52 + eb) as nat) == pow2(52) * pow2(eb),
        ;
        lemma_place(x, 1, eb);
        lemma_nearest_parts(x, pow2(eb), big, 0);
    } else if big > pow2(52) {
        let x = (a - b) as nat;
        let q = (big - 1) as nat;
        let r = (pow2(eb) - b) as nat;
        assert(x == q * pow2(eb) + r) by (nonlinear_arith)
            requires
                x == big * pow2(eb) - b,
                q == big - 1,
                r == pow2(eb) - b,
        ;
        assert(x < pow2(53 + eb)) by (nonlinear_arith)
            requires
                x <= big * pow2(eb),
                big + 1 <= pow2(53),
                pow2(53 + eb) == pow2(53) * pow2(eb),
                pow2(eb) > 0,
        ;
        assert(x >= pow2((52 + eb) as nat)) by (nonlinear_arith)
            requires
                x == q * pow2(eb) + r,
                r >= 0,
                q >= pow2(52),
                pow2((52 + eb) as nat) == pow2(52) * pow2(eb),
        ;
        lemma_place(x, 1, eb);
        lemma_nearest_parts(x, pow2(eb), q, r);
        assert(2 * r > pow2(eb));
    } else {
        let x = (a - b) as nat;
        let e1 = (eb - 1) as nat;
        let d = pow2(e1);
        let q = (pow2(53) - 1) as nat;
        let r = (d - b) as nat;
        assert(pow2(eb) == 2 * d);
        assert(x == q * d + r) by (nonlinear_arith)
            requires
                x == big * pow2(eb) - b,
                2 * big == q + 1,
                pow2(eb) == 2 * d,
                r == d - b,
        ;
        assert(x < pow2(53 + e1)) by (nonlinear_arith)
            requires
                x == q * d + r,
                r < d,
                q + 1 == pow2(53),
                pow2(53 + e1) == pow2(53) * d,
        ;
        assert(x >= pow2((52 + e1) as nat)) by (nonlinear_arith)
            requires
                x == q * d + r,
                r >= 0,
                q >= pow2(52),
                pow2((52 + e1) as nat) == pow2(52) * d,
        ;
        lemma_place(x, 1, e1);
        lemma_nearest_parts(x, d, q, r);
        assert(2 * r > d);
        assert((q + 1) * d == a) by (nonlinear_arith)
            requires
                a == big * pow2(eb),
                2 * big == q + 1,
                pow2(eb) == 2 * d,
        ;
    }
}

proof fn lemma_value_bound(mant: u64, exp: u32)
    requires
        mant < 0x20_0000_0000_0000,
        exp <= 2045,
    ensures
        0 <= mant * pow2(exp as nat) < pow2(2098),
{
    lemma_bits();
    lemma_pow2_adds(53, exp as nat);
    lemma_pow2_pos(exp as nat);
    assert(0 <= mant * pow2(exp as nat) < pow2(53) * pow2(exp as nat)) by (nonlinear_arith)
        requires
            mant < pow2(53),
            pow2(exp as nat) > 0,
    ;
    if exp < 2045 {
        lemma_pow2_strictly_increases((53 + exp) as nat, 2098);
    }
}

impl Double {
    pub fn zero() -> (r: Double)
        ensures
            r.valid(),
            r.value() == Real::zero(),
    {
        proof {
            assert(0 * pow2(0) == 0) by (nonlinear_arith);
        }
        Double::Fin { negative: false, mant: 0, exp: 0 }
    }

    pub fn one() -> (r: Double)
        ensures
            r.valid(),
            r.value() == Real::one(),
    {
        proof {
            lemma_bits();
            lemma_pow2_adds(52, 1022);
        }
        Double::Fin { negative: false, mant: 0x10_0000_0000_0000, exp: 1022 }
    }

    /// The least finite number.
    pub fn lowest() -> (r: Double)
        ensures
            r.valid(),
            r.value() == Real::lowest(),
    {
        proof {
            lemma_bits();
        }
        Double::Fin { negative: true, mant: 0x1f_ffff_ffff_ffff, exp: 2045 }
    }

    pub fn neg(self) -> (r: Double)
        requires
            self.valid(),
        ensures
            r.valid(),
            r.value() == self.value().negated(),
    {
        match self {
            Double::Nan => Double::Nan,
            Double::Inf { negative } => Double::Inf { negative: !negative },
            Double::Fin { negative, mant, exp } => Double::Fin {
                negative: !negative,
                mant,
                exp,
            },
        }
    }

    fn of_magnitude(negative: bool, m: u64) -> (r: Double)
        ensures
            r.valid(),
            r.value() == quotient(negative, m as nat * pow2(1074), 1),
    {
        proof {
            assert((m * 1 + 0) * pow2(1074) == m as nat * pow2(1074)) by (nonlinear_arith);
        }
        round(
            negative,
            m as u128,
            1074,
            false,
            Ghost(0),
            Ghost(m as nat * pow2(1074)),
            Ghost(1),
        )
    }

    /// The integer `c` as a binary64 number.
    pub fn from_i64(c: i64) -> (r: Double)
        ensures
            r.valid(),
            r.value() == Real::of_int(c as int),
    {
        if c < 0 {
            let m: u64 = (-(c as i128)) as u64;
            Self::of_magnitude(true, m)
        } else {
            Self::of_magnitude(false, c as u64)
        }
    }

    /// The count `c` as a binary64 number.
    pub fn from_usize(c: usize) -> (r: Double)
        ensures
            r.valid(),
            r.value() == Real::of_int(c as int),
    {
        Self::of_magnitude(false, c as u64)
    }

    /// Adds `(-1)^n1 m1 2^e1` and `(-1)^n2 m2 2^e2`, where `e1 >= e2`.
    fn add_aligned(n1: bool, m1: u64, e1: u32, n2: bool, m2: u64, e2: u32) -> (r: Double)
        requires
            e1 >= e2,
            (Double::Fin { negative: n1, mant: m1, exp: e1 }).valid(),
            (Double::Fin { negative: n2, mant: m2, exp: e2 }).valid(),
        ensures
            r.valid(),
            r.value() == (Double::Fin { negative: n1, mant: m1, exp: e1 }).value().plus(
                (Double::Fin { negative: n2, mant: m2, exp: e2 }).value(),
            ),
    {
        let d: u32 = e1 - e2;
        let ghost a = m1 * pow2(e1 as nat);
        let ghost b = m2 * pow2(e2 as nat);
        proof {
            lemma_bits();
            lemma_value_bound(m1, e1);
            lemma_value_bound(m2, e2);
        }
        if d > 66 {
            proof {
                lemma_absorbed(m1 as nat, e1 as nat, m2 as nat, e2 as nat, n1 != n2);
                lemma_pow2_pos(e1 as nat);
                assert(a > 0) by (nonlinear_arith)
                    requires
                        a == m1 * pow2(e1 as nat),
                        m1 > 0,
                        pow2(e1 as nat) > 0,
                ;
                lemma_not_below(m1 as nat, e1 as nat, m2 as nat, e2 as nat);
            }
            return Double::Fin { negative: n1, mant: m1, exp: e1 };
        }
        let p: u128 = two_to(d);
        proof {
            lemma_pow2_adds(d as nat, e2 as nat);
            if d < 66 {
                lemma_pow2_strictly_increases(d as nat, 66);
            }
            lemma2_to64();
            lemma_pow2_adds(64, 2);
            assert(p <= 0x4_0000_0000_0000_0000);
            assert(m1 * p <= 0x20_0000_0000_0000 * 0x4_0000_0000_0000_0000) by (nonlinear_arith)
                requires
                    m1 <= 0x20_0000_0000_0000,
                    0 <= p <= 0x4_0000_0000_0000_0000,
            ;
            assert(m1 * p >= 0) by (nonlinear_arith);
            assert(a == (m1 * p) * pow2(e2 as nat)) by (nonlinear_arith)
                requires
                    a == m1 * pow2(e1 as nat),
                    pow2(e1 as nat) == p * pow2(e2 as nat),
            ;
        }
        let wide: u128 = m1 as u128 * p;
        let ghost unit = pow2(e2 as nat);
        if n1 == n2 {
            let sum: u128 = wide + m2 as u128;
            proof {
                assert(a + b == (sum * 1 + 0) * unit) by (nonlinear_arith)
                    requires
                        a == wide * unit,
                        b == m2 * unit,
                        sum == wide + m2,
                ;
                assert(magnitude(if n1 {
                    -(a + b)
                } else {
                    a + b
                }) == a + b);
                if a + b == 0 {
                    lemma_zero_rounds();
                }
            }
            round(n1, sum, e2, false, Ghost(0), Ghost((a + b) as nat), Ghost(1))
        } else if wide >= m2 as u128 {
            let diff: u128 = wide - m2 as u128;
            proof {
                assert(a - b == (diff * 1 + 0) * unit) by (nonlinear_arith)
                    requires
                        a == wide * unit,
                        b == m2 * unit,
                        diff == wide - m2,
                ;
                assert(a - b >= 0) by (nonlinear_arith)
                    requires
                        a - b == (diff * 1 + 0) * unit,
                        diff >= 0,
                        unit >= 0,
                ;
                if a - b == 0 {
                    lemma_zero_rounds();
                }
            }
            round(n1, diff, e2, false, Ghost(0), Ghost((a - b) as nat), Ghost(1))
        } else {
            let diff: u128 = m2 as u128 - wide;
            proof {
                assert(b - a == (diff * 1 + 0) * unit) by (nonlinear_arith)
                    requires
                        a == wide * unit,
                        b == m2 * unit,
                        diff == m2 - wide,
                ;
                assert(b - a >= 0) by (nonlinear_arith)
                    requires
                        b - a == (diff * 1 + 0) * unit,
                        diff >= 0,
                        unit >= 0,
                ;
                if b - a == 0 {
                    lemma_zero_rounds();
                }
            }
            round(n2, diff, e2, false, Ghost(0), Ghost((b - a) as nat), Ghost(1))
        }
    }

    pub fn add(self, other: Double) -> (r: Double)
        requires
            self.valid(),
            other.valid(),
        ensures
            r.valid(),
            r.value() == self.value().plus(other.value()),
    {
        match (self, other) {
            (Double::Nan, _) => Double::Nan,
            (_, Double::Nan) => Double::Nan,
            (Double::Inf { negative: n1 }, Double::Inf { negative: n2 }) => if n1 == n2 {
                self
            } else {
                Double::Nan
            },
            (Double::Inf { .. }, _) => self,
            (_, Double::Inf { .. }) => other,
            (
                Double::Fin { negative: n1, mant: m1, exp: e1 },
                Double::Fin { negative: n2, mant: m2, exp: e2 },
            ) => if e1 >= e2 {
                Self::add_aligned(n1, m1, e1, n2, m2, e2)
            } else {
                Self::add_aligned(n2, m2, e2, n1, m1, e1)
            },
        }
    }

    pub fn sub(self, other: Double) -> (r: Double)
        requires
            self.valid(),
            other.valid(),
        ensures
            r.valid(),
            r.value() == self.value().minus(other.value()),
    {
        self.add(other.neg())
    }
}

/// An exact zero stays zero, whatever its sign.
proof fn lemma_zero_rounds()
    ensures
        rounded(0, 1) == 0,
        quotient(true, 0, 1) == quotient(false, 0, 1),
{
    lemma_bits();
    assert(0 == 0 * 1 * pow2(0)) by (nonlinear_arith);
    assert(0 * pow2(0) == 0) by (nonlinear_arith);
    lemma_round_short(0, 1, 0, 0, 0);
    lemma_pow2_pos(2098);
}

proof fn lemma_not_below(m1: nat, e1: nat, m2: nat, e2: nat)
    requires
        m1 >= 0x10_0000_0000_0000,
        m2 < 0x20_0000_0000_0000,
        e1 > e2,
    ensures
        m1 * pow2(e1) > m2 * pow2(e2),
{
    lemma_bits();
    let d = (e1 - e2) as nat;
    lemma_pow2_adds(d, e2);
    lemma_pow2_pos(e2);
    lemma_pow2_unfold(d);
    lemma_pow2_pos((d - 1) as nat);
    assert(m1 * pow2(e1) > m2 * pow2(e2)) by (nonlinear_arith)
        requires
            pow2(e1) == pow2(d) * pow2(e2),
            pow2(d) >= 2,
            pow2(e2) > 0,
            m1 >= 0x10_0000_0000_0000,
            m2 < 0x20_0000_0000_0000,
    ;
}

impl Double {
    /// Division by a small positive integer.
    pub fn div_small(self, k: u64) -> (r: Double)
        requires
            self.valid(),
            0 < k <= 16,
        ensures
            r.valid(),
            r.value() == self.value().over(k as nat),
    {
        let (negative, mant, exp) = match self {
            Double::Fin { negative, mant, exp } => (negative, mant, exp),
            _ => {
                return self;
            },
        };
        let shift: u32 = if exp >= 10 {
            10
        } else {
            exp
        };
        let p: u128 = two_to(shift);
        let rest: u32 = exp - shift;
        let ghost num = (mant * pow2(exp as nat)) as nat;
        proof {
            lemma_bits();
            lemma2_to64();
            if shift < 10 {
                lemma_pow2_strictly_increases(shift as nat, 10);
            }
            lemma_value_bound(mant, exp);
            lemma_pow2_adds(shift as nat, rest as nat);
            assert(mant * p <= 0x20_0000_0000_0000 * 1024) by (nonlinear_arith)
                requires
                    mant <= 0x20_0000_0000_0000,
                    0 <= p <= 1024,
            ;
            assert(mant * p >= 0) by (nonlinear_arith);
        }
        let m: u128 = mant as u128 * p;
        let q: u128 = m / k as u128;
        let r: u128 = m % k as u128;
        proof {
            lemma_fundamental_div_mod(m as int, k as int);
            assert(num == (q * k + r) * pow2(rest as nat)) by (nonlinear_arith)
                requires
                    num == mant * pow2(exp as nat),
                    pow2(exp as nat) == p * pow2(rest as nat),
                    m == mant * p,
                    m == k * q + r,
            ;
            if num == 0 {
                lemma_zero_over(k as nat);
            }
            assert(magnitude(if negative {
                -(mant * pow2(exp as nat))
            } else {
                mant * pow2(exp as nat)
            }) == num);
        }
        if r == 0 || q >= 0x20_0000_0000_0000 {
            return round(
                negative,
                q,
                rest,
                r > 0,
                Ghost(r as nat),
                Ghost(num),
                Ghost(k as nat),
            );
        }
        proof {
            if exp >= 10 {
                assert(q >= 0x20_0000_0000_0000) by (nonlinear_arith)
                    requires
                        m == k * q + r,
                        r < k,
                        k <= 16,
                        m == mant * p,
                        p == 1024,
                        mant >= 0x10_0000_0000_0000,
                ;
            }
            assert(rest == 0);
            assert(num == q * k + r) by (nonlinear_arith)
                requires
                    num == (q * k + r) * pow2(rest as nat),
                    pow2(rest as nat) == 1,
            ;
            assert(num < k * pow2(53)) by (nonlinear_arith)
                requires
                    num == q * k + r,
                    q + 1 <= pow2(53),
                    r < k,
            ;
            lemma_place(num, k as nat, 0);
            assert(k * pow2(0) == k) by (nonlinear_arith)
                requires
                    pow2(0) == 1,
            ;
            lemma_nearest_parts(num, k as nat, q as nat, r as nat);
        }
        let down = 2 * r < k as u128 || (2 * r == k as u128 && q % 2 == 0);
        let rounded_mant: u64 = if down {
            q as u64
        } else {
            (q + 1) as u64
        };
        proof {
            assert(rounded_mant * pow2(0) == rounded_mant) by (nonlinear_arith)
                requires
                    pow2(0) == 1,
            ;
        }
        pack(negative, rounded_mant, 0, Ghost(num), Ghost(k as nat))
    }

    /// `1 / self`, for a positive number of moderate size.
    pub fn reciprocal(self) -> (r: Double)
        requires
            self.valid(),
            self matches Double::Fin { negative, mant, exp } && !negative && mant > 0 && exp <= 2021,
        ensures
            r.valid(),
            r.value() == self.value().reciprocal(),
    {
        let (mant, exp) = match self {
            Double::Fin { mant, exp, .. } => (mant, exp),
            _ => (1, 0),
        };
        let p: u128 = two_to(127);
        let q: u128 = p / mant as u128;
        let r: u128 = p % mant as u128;
        let e: u32 = 2021 - exp;
        let ghost den = (mant * pow2(exp as nat)) as nat;
        let ghost rem = (r * pow2(exp as nat)) as nat;
        proof {
            lemma_bits();
            lemma_value_bound(mant, exp);
            lemma_pow2_pos(exp as nat);
            lemma_fundamental_div_mod(p as int, mant as int);
            lemma_pow2_adds(127, 2021);
            lemma_pow2_adds(exp as nat, e as nat);
            lemma_pow2_adds(74, 53);
            lemma2_to64();
            lemma_pow2_adds(64, 10);
            assert(q >= 0x20_0000_0000_0000) by (nonlinear_arith)
                requires
                    p == mant * q + r,
                    r < mant,
                    mant < 0x20_0000_0000_0000,
                    p == pow2(74) * pow2(53),
                    pow2(53) == 0x20_0000_0000_0000,
                    pow2(74) >= 0x40_0000_0000_0000,
            ;
            assert(rem < den) by (nonlinear_arith)
                requires
                    rem == r * pow2(exp as nat),
                    den == mant * pow2(exp as nat),
                    r < mant,
                    pow2(exp as nat) > 0,
            ;
            assert(rem > 0 <==> r > 0) by (nonlinear_arith)
                requires
                    rem == r * pow2(exp as nat),
                    pow2(exp as nat) > 0,
                    r >= 0,
            ;
            assert(r * pow2(exp as nat) >= 0) by (nonlinear_arith);
            assert(pow2(2148) == (q * den + rem) * pow2(e as nat)) by (nonlinear_arith)
                requires
                    pow2(2148) == p * pow2(2021),
                    p == mant * q + r,
                    pow2(2021) == pow2(exp as nat) * pow2(e as nat),
                    den == mant * pow2(exp as nat),
                    rem == r * pow2(exp as nat),
            ;
        }
        round(false, q, e, r > 0, Ghost(rem), Ghost(pow2(2148)), Ghost(den))
    }

    /// The magnitude `m1 2^e1` is greater than `m2 2^e2`.
    fn exceeds(m1: u64, e1: u32, m2: u64, e2: u32) -> (r: bool)
        requires
            (Double::Fin { negative: false, mant: m1, exp: e1 }).valid(),
            (Double::Fin { negative: false, mant: m2, exp: e2 }).valid(),
        ensures
            r == (m1 * pow2(e1 as nat) > m2 * pow2(e2 as nat)),
    {
        proof {
            if e1 > e2 {
                lemma_not_below(m1 as nat, e1 as nat, m2 as nat, e2 as nat);
            } else if e2 > e1 {
                lemma_not_below(m2 as nat, e2 as nat, m1 as nat, e1 as nat);
            } else {
                lemma_pow2_pos(e1 as nat);
                assert(m1 * pow2(e1 as nat) > m2 * pow2(e1 as nat) <==> m1 > m2)
                    by (nonlinear_arith)
                    requires
                        pow2(e1 as nat) > 0,
                ;
            }
        }
        e1 > e2 || (e1 == e2 && m1 > m2)
    }

    /// Strictly greater; false if either is not a number.
    pub fn gt(self, other: Double) -> (r: bool)
        requires
            self.valid(),
            other.valid(),
        ensures
            r == self.value().gt(other.value()),
    {
        match (self, other) {
            (Double::Nan, _) => false,
            (_, Double::Nan) => false,
            (Double::Inf { negative: n1 }, Double::Inf { negative: n2 }) => !n1 && n2,
            (Double::Inf { negative }, _) => !negative,
            (_, Double::Inf { negative }) => negative,
            (
                Double::Fin { negative: n1, mant: m1, exp: e1 },
                Double::Fin { negative: n2, mant: m2, exp: e2 },
            ) => {
                proof {
                    lemma_value_bound(m1, e1);
                    lemma_value_bound(m2, e2);
                    lemma_pow2_pos(e1 as nat);
                    lemma_pow2_pos(e2 as nat);
                    assert(m1 * pow2(e1 as nat) == 0 <==> m1 == 0) by (nonlinear_arith)
                        requires
                            pow2(e1 as nat) > 0,
                    ;
                    assert(m2 * pow2(e2 as nat) == 0 <==> m2 == 0) by (nonlinear_arith)
                        requires
                            pow2(e2 as nat) > 0,
                    ;
                }
                if !n1 && !n2 {
                    Self::exceeds(m1, e1, m2, e2)
                } else if n1 && n2 {
                    Self::exceeds(m2, e2, m1, e1)
                } else {
                    !n1 && (m1 > 0 || m2 > 0)
                }
            },
        }
    }

    /// The greater of the two; the other one if one is not a number.
    pub fn greatest(self, other: Double) -> (r: Double)
        requires
            self.valid(),
            other.valid(),
        ensures
            r.valid(),
            r.value() == self.value().greatest(other.value()),
    {
        match self {
            Double::Nan => other,
            _ => if other.gt(self) {
                other
            } else {
                self
            },
        }
    }

    /// Numeric equality.
    pub fn same(self, other: Double) -> (r: bool)
        requires
            self.valid(),
            other.valid(),
        ensures
            r == (self.value() == other.value() && !(self.value() is Nan)),
    {
        match (self, other) {
            (Double::Nan, _) => false,
            (_, Double::Nan) => false,
            (Double::Inf { negative: n1 }, Double::Inf { negative: n2 }) => n1 == n2,
            (Double::Fin { .. }, Double::Fin { .. }) => !self.gt(other) && !other.gt(self),
            _ => false,
        }
    }
}

proof fn lemma_zero_over(k: nat)
    requires
        k > 0,
    ensures
        quotient(true, 0, k) == quotient(false, 0, k),
{
    lemma_bits();
    assert(0 == 0 * k * pow2(0)) by (nonlinear_arith);
    assert(0 * pow2(0) == 0) by (nonlinear_arith);
    lemma_round_short(0, k, 0, 0, 0);
    lemma_pow2_pos(2098);
}

proof fn lemma_place_brackets(num: nat, den: nat)
    requires
        den > 0,
    ensures
        num < den * pow2(53 + place(num, den)),
        place(num, den) > 0 ==> num >= den * pow2((52 + place(num, den)) as nat),
    decreases num - den,
{
    lemma_bits();
    if num >= den * pow2(53) {
        assert(den * pow2(53) >= den * 2) by (nonlinear_arith)
            requires
                pow2(53) >= 2,
        ;
        lemma_place_brackets(num, den * 2);
        let j = place(num, den * 2);
        let k = place(num, den);
        lemma_pow2_unfold(53 + k);
        lemma_pow2_unfold((52 + k) as nat);
        assert(den * pow2(53 + k) == (den * 2) * pow2(53 + j)) by (nonlinear_arith)
            requires
                pow2(53 + k) == 2 * pow2(53 + j),
        ;
        assert(den * pow2((52 + k) as nat) == (den * 2) * pow2((52 + j) as nat)) by (nonlinear_arith)
            requires
                pow2((52 + k) as nat) == 2 * pow2((52 + j) as nat),
        ;
        if j == 0 {
            assert((den * 2) * pow2(52) == den * pow2(53)) by (nonlinear_arith)
                requires
                    pow2(53) == 2 * pow2(52),
            ;
        }
    }
}

/// Rounding does not cross a power of two, nor reach zero from above.
proof fn lemma_rounded_bounds(num: nat, k: nat)
    requires
        num < pow2(53 + k),
    ensures
        rounded(num, 1) <= pow2(53 + k),
        num > 0 ==> rounded(num, 1) > 0,
{
    lemma_bits();
    lemma_place_brackets(num, 1);
    let p = place(num, 1);
    let d = pow2(p);
    lemma_pow2_pos(p);
    if p > k {
        if p > k + 1 {
            lemma_pow2_strictly_increases(53 + k, (52 + p) as nat);
        }
        assert(false);
    }
    lemma_pow2_adds(53, p);
    lemma_fundamental_div_mod(num as int, d as int);
    let q = num / d;
    assert(q < pow2(53)) by (nonlinear_arith)
        requires
            num == d * q + num % d,
            num % d >= 0,
            num < pow2(53) * d,
            d > 0,
    ;
    let v = nearest(num, d);
    assert(v <= pow2(53));
    assert(v * d <= pow2(53) * d) by (nonlinear_arith)
        requires
            v <= pow2(53),
            d > 0,
    ;
    if p < k {
        lemma_pow2_strictly_increases(53 + p, 53 + k);
    }
    if num > 0 {
        if p == 0 {
            assert(d == 1);
            assert(num == 1 * num + 0);
            lemma_nearest_parts(num, 1, num, 0);
        } else {
            lemma_pow2_adds(52, p);
            assert(q >= pow2(52)) by (nonlinear_arith)
                requires
                    num == d * q + num % d,
                    num % d < d,
                    num >= pow2(52) * d,
                    d > 0,
            ;
        }
        assert(v * d > 0) by (nonlinear_arith)
            requires
                v > 0,
                d > 0,
        ;
    }
}

/// A count plus one is a positive number of moderate size.
proof fn lemma_count_plus_one(d: Double, n: nat)
    requires
        n <= 0xffff_ffff_ffff_ffff,
        d.valid(),
        d.value() == Real::of_int(n as int).plus(Real::one()),
    ensures
        d matches Double::Fin { negative, mant, exp } && !negative && mant > 0 && exp <= 2021,
{
    lemma_bits();
    lemma2_to64();
    let unit = pow2(1074);
    lemma_pow2_pos(1074);
    lemma_pow2_adds(64, 1074);
    assert(n * unit < pow2(64) * unit) by (nonlinear_arith)
        requires
            n < pow2(64),
            unit > 0,
    ;
    lemma_rounded_bounds(n * unit, 1085);
    lemma_pow2_strictly_increases(1138, 2098);
    let a = rounded(n * unit, 1);
    assert(Real::of_int(n as int) == Real::Fin(a as int));
    let sum = a + unit;
    lemma_pow2_strictly_increases(1074, 1138);
    lemma_pow2_unfold(1139);
    assert(sum < pow2(1139));
    lemma_rounded_bounds(sum, 1086);
    lemma_pow2_strictly_increases(1139, 2098);
    let v = rounded(sum, 1);
    assert(d.value() == Real::Fin(v as int));
    match d {
        Double::Fin { negative, mant, exp } => {
            lemma_value_bound(mant, exp);
            assert(mant > 0) by (nonlinear_arith)
                requires
                    mant * pow2(exp as nat) > 0,
            ;
            if exp > 2021 {
                lemma_pow2_adds(52, exp as nat);
                assert(mant * pow2(exp as nat) >= pow2(52) * pow2(exp as nat)) by (nonlinear_arith)
                    requires
                        mant >= pow2(52),
                ;
                lemma_pow2_strictly_increases(1139, (52 + exp) as nat);
            }
        },
        _ => {},
    }
}

impl Double {
    /// `1 / (n + 1)`.
    pub fn one_over_next(n: usize) -> (r: Double)
        ensures
            r.valid(),
            r.value() == Real::of_int(n as int).plus(Real::one()).reciprocal(),
    {
        let d = Double::from_usize(n).add(Double::one());
        proof {
            lemma_count_plus_one(d, n as nat);
        }
        d.reciprocal()
    }
}

} // verus!
