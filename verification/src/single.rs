//! The side of a grid of cells: the whole part of a square root that is taken in
//! single precision.
//!
//! Counts below two to the 24th are single-precision numbers themselves, and so
//! are the roots of all square grids that occur; beyond, a root just below a
//! whole number is rounded up to it.

use vstd::prelude::*;

verus! {

/// The root of `n`, rounded down.
pub open spec fn is_root(w: int, n: int) -> bool {
    0 <= w && w * w <= n < (w + 1) * (w + 1)
}

/// The least power of two, from `u` on, whose multiples include the
/// single-precision numbers next to `n`.
pub open spec fn unit_from(n: nat, u: nat) -> nat
    decreases n - u,
    when u > 0
{
    if n < 0x100_0000 * u {
        u
    } else {
        unit_from(n, 2 * u)
    }
}

/// The single-precision number nearest to `n`, the even one of two.
pub open spec fn single(n: nat) -> nat {
    let u = unit_from(n, 1);
    let q = n / u;
    let r = n % u;
    if 2 * r > u || (2 * r == u && q % 2 == 1) {
        (q + 1) * u
    } else {
        q * u
    }
}

/// The greatest power of two, from `h` on, that is at most `k`.
pub open spec fn top_from(k: nat, h: nat) -> nat
    decreases k - h,
    when h > 0
{
    if 2 * h <= k {
        top_from(k, 2 * h)
    } else {
        h
    }
}

/// The whole part of the single-precision number nearest to the root of `m`, where
/// `k` is that root rounded down. Up to two to the 24th the root is rounded up to
/// `k + 1` or stays below; beyond, it is rounded to a multiple of the spacing.
pub open spec fn rounded_root(m: nat, k: nat) -> nat {
    if k == 0 {
        0
    } else {
        let h = top_from(k, 1);
        if h < 0x100_0000 {
            let s = 0x100_0000nat / h;
            if m * (s * s) > ((k + 1) * s - 1) * ((k + 1) * s - 1) {
                k + 1
            } else {
                k
            }
        } else {
            let t = h / 0x80_0000;
            let q = k / t;
            let mid = q * t + t / 2;
            if m > mid * mid || (m == mid * mid && q % 2 == 1) {
                (q + 1) * t
            } else {
                q * t
            }
        }
    }
}

/// `w` is the side of the grid that holds `n` cells.
pub open spec fn is_side(w: int, n: nat) -> bool {
    exists|k: nat| #[trigger] is_root(k as int, single(n) as int) && w == rounded_root(single(n), k)
}

proof fn lemma_root_unique(v: int, w: int, n: int)
    requires
        is_root(v, n),
        is_root(w, n),
    ensures
        v == w,
{
    assert(v == w) by (nonlinear_arith)
        requires
            0 <= v,
            0 <= w,
            v * v <= n < (v + 1) * (v + 1),
            w * w <= n < (w + 1) * (w + 1),
    ;
}

/// The unit is at least `u`, its 2^24-fold exceeds `n`, and unless it is `u` half of
/// that does not.
proof fn lemma_unit(n: nat, u: nat)
    requires
        u > 0,
    ensures
        u <= unit_from(n, u),
        n < 0x100_0000 * unit_from(n, u),
        unit_from(n, u) == u || 0x80_0000 * unit_from(n, u) <= n,
    decreases n - u,
{
    if n >= 0x100_0000 * u {
        lemma_unit(n, 2 * u);
    }
}

proof fn lemma_top(k: nat, h: nat)
    requires
        0 < h <= k,
    ensures
        h <= top_from(k, h) <= k < 2 * top_from(k, h),
    decreases k - h,
{
    if 2 * h <= k {
        lemma_top(k, 2 * h);
    }
}

/// A count is off its single-precision number by at most half a unit.
proof fn lemma_single(n: nat)
    ensures
        ({
            let u = unit_from(n, 1);
            -(u as int) <= 2 * (single(n) - n) <= u
        }),
        n < 0x100_0000 ==> single(n) == n,
{
    lemma_unit(n, 1);
    let u = unit_from(n, 1);
    let q = n / u;
    let r = n % u;
    vstd::arithmetic::div_mod::lemma_fundamental_div_mod(n as int, u as int);
    assert((q + 1) * u == q * u + u) by (nonlinear_arith);
    assert(u * q == q * u) by (nonlinear_arith);
}

/// Powers of two are single-precision numbers.
proof fn lemma_single_powers()
    ensures
        single(0x100_0000) == 0x100_0000,
        single(0x400_0000) == 0x400_0000,
        single(0x1000_0000) == 0x1000_0000,
        single(0x4000_0000) == 0x4000_0000,
{
    reveal_with_fuel(unit_from, 9);
    assert(unit_from(0x100_0000, 1) == 2);
    assert(unit_from(0x400_0000, 1) == 8);
    assert(unit_from(0x1000_0000, 1) == 32);
    assert(unit_from(0x4000_0000, 1) == 128);
}

/// The side of a square grid is its own, whatever the precision.
pub proof fn lemma_square_grid(v: int, w: nat)
    requires
        w <= 65535,
        is_side(v, w * w),
    ensures
        v == w,
{
    let n = w * w;
    let m = single(n);
    let k = choose|k: nat| #[trigger] is_root(k as int, m as int) && v == rounded_root(m, k);
    lemma_single(n);
    lemma_unit(n, 1);
    let u = unit_from(n, 1);
    if w == 0 {
        assert(n == 0) by (nonlinear_arith)
            requires
                n == w * w,
                w == 0,
        ;
        lemma_root_unique(k as int, 0, 0);
    } else if m >= n {
        lemma_not_below(w, m, u);
        lemma_root_unique(k as int, w as int, m as int);
        lemma_stays(w, m);
    } else {
        lemma_below(w, m, u);
        lemma_root_unique(k as int, w - 1, m as int);
        lemma_rises(w, m, u);
    }
}

proof fn lemma_not_below(w: nat, m: nat, u: nat)
    requires
        0 < w <= 65535,
        w * w <= m,
        2 * (m - w * w) <= u,
        w * w < 0x100_0000 ==> m == w * w,
        u == 1 || 0x80_0000 * u <= w * w,
    ensures
        is_root(w as int, m as int),
        m <= w * w + w,
{
    assert(m < w * w + w + 1) by (nonlinear_arith)
        requires
            0 < w <= 65535,
            w * w <= m,
            2 * (m - w * w) <= u,
            u == 1 || 0x80_0000 * u <= w * w,
    ;
    assert((w + 1) * (w + 1) == w * w + 2 * w + 1) by (nonlinear_arith);
}

/// A root at or just above a whole number stays there.
proof fn lemma_stays(w: nat, m: nat)
    requires
        0 < w <= 65535,
        w * w <= m <= w * w + w,
    ensures
        rounded_root(m, w) == w,
{
    lemma_top(w, 1);
    let h = top_from(w, 1);
    let s = 0x100_0000nat / h;
    assert(s >= 256) by (nonlinear_arith)
        requires
            s == 0x100_0000nat / h,
            0 < h <= 65535,
    ;
    let a = (w + 1) * s - 1;
    assert(m * (s * s) <= a * a) by (nonlinear_arith)
        requires
            m <= w * w + w,
            a == (w + 1) * s - 1,
            s >= 256,
            w > 0,
    ;
}

proof fn lemma_below(w: nat, m: nat, u: nat)
    requires
        0 < w <= 65535,
        m < w * w,
        2 * (w * w - m) <= u,
        w * w < 0x100_0000 ==> m == w * w,
        u == 1 || 0x80_0000 * u <= w * w,
    ensures
        w > 4095,
        is_root(w - 1, m as int),
{
    assert(w > 4095) by (nonlinear_arith)
        requires
            w * w >= 0x100_0000,
            w >= 0,
    ;
    assert(w * w - m <= 256) by (nonlinear_arith)
        requires
            2 * (w * w - m) <= u,
            u == 1 || 0x80_0000 * u <= w * w,
            w <= 65535,
            w >= 0,
    ;
    assert((w - 1) * (w - 1) == w * w - 2 * w + 1) by (nonlinear_arith);
}

/// A root just below a whole number is rounded up to it.
proof fn lemma_rises(w: nat, m: nat, u: nat)
    requires
        4095 < w <= 65535,
        m == single(w * w),
        m < w * w,
        2 * (w * w - m) <= u,
        u == 1 || 0x80_0000 * u <= w * w,
    ensures
        rounded_root(m, (w - 1) as nat) == w,
{
    let k = (w - 1) as nat;
    lemma_top(k, 1);
    let h = top_from(k, 1);
    let s = 0x100_0000nat / h;
    assert(w < 2 * h) by {
        if w == 2 * h {
            lemma_power(k, h);
            lemma_single_powers();
            assert(w == 4096 || w == 8192 || w == 16384 || w == 32768);
            assert(w * w == 0x100_0000 || w * w == 0x400_0000 || w * w == 0x1000_0000 || w * w
                == 0x4000_0000) by (nonlinear_arith)
                requires
                    w == 4096 || w == 8192 || w == 16384 || w == 32768,
            ;
            assert(m == w * w);
        }
    }
    assert(s >= 256) by (nonlinear_arith)
        requires
            s == 0x100_0000nat / h,
            0 < h <= 65535,
    ;
    assert(h * s <= 0x100_0000) by (nonlinear_arith)
        requires
            s == 0x100_0000nat / h,
            h > 0,
    ;
    let d = w * w - m;
    assert(0x80_0000 * (2 * d) <= w * w) by {
        assert(u > 1);
    }
    assert(h * (d * s) <= w * w) by (nonlinear_arith)
        requires
            0x80_0000 * (2 * d) <= w * w,
            h * s <= 0x100_0000,
            d >= 0,
    ;
    assert(d * s <= 2 * w - 1) by (nonlinear_arith)
        requires
            h * (d * s) <= w * w,
            h <= w < 2 * h,
    ;
    let a = w * s - 1;
    assert(m * (s * s) > a * a) by (nonlinear_arith)
        requires
            m == w * w - d,
            d * s <= 2 * w - 1,
            a == w * s - 1,
            s >= 256,
    ;
}

/// Between 4096 and 65535 the powers of two are few.
proof fn lemma_power(k: nat, h: nat)
    requires
        4095 <= k < 65535,
        h == top_from(k, 1),
    ensures
        h == 2048 || h == 4096 || h == 8192 || h == 16384 || h == 32768,
{
    reveal_with_fuel(top_from, 18);
}

/// The root of `m`, rounded down.
fn floor_root(m: u128) -> (k: u128)
    requires
        m <= 0x2_0000_0000_0000_0000,
    ensures
        is_root(k as int, m as int),
        k <= 0x2_0000_0000,
{
    let mut k: u128 = 0;
    while (k + 1) * (k + 1) <= m
        invariant
            k * k <= m,
            k <= 0x2_0000_0000,
            (k + 1) * (k + 1) <= 0x2_0000_0001 * 0x2_0000_0001,
            m <= 0x2_0000_0000_0000_0000,
        decreases 0x2_0000_0000 - k,
    {
        proof {
            assert(k < 0x2_0000_0000) by (nonlinear_arith)
                requires
                    (k + 1) * (k + 1) <= 0x2_0000_0000_0000_0000,
                    k >= 0,
            ;
            assert((k + 2) * (k + 2) <= 0x2_0000_0001 * 0x2_0000_0001) by (nonlinear_arith)
                requires
                    0 <= k < 0x2_0000_0000,
            ;
        }
        k += 1;
    }
    k
}

/// The single-precision number nearest to `n`.
fn to_single(n: usize) -> (m: u128)
    ensures
        m == single(n as nat),
        m <= 2 * n,
        n > 0 ==> m > 0,
{
    let count: u128 = n as u128;
    let mut u: u128 = 1;
    while count >= 0x100_0000 * u
        invariant
            0 < u,
            u == 1 || 0x80_0000 * u <= count,
            count == n,
            n <= 0xffff_ffff_ffff_ffff,
            unit_from(n as nat, u as nat) == unit_from(n as nat, 1),
        decreases count - u,
    {
        u = 2 * u;
    }
    let q: u128 = count / u;
    let r: u128 = count % u;
    proof {
        lemma_single(n as nat);
        vstd::arithmetic::div_mod::lemma_fundamental_div_mod(count as int, u as int);
        assert((q + 1) * u == q * u + u) by (nonlinear_arith);
        assert(u * q == q * u) by (nonlinear_arith);
        assert(0 <= q * u) by (nonlinear_arith)
            requires
                0 <= q,
                0 <= u,
        ;
    }
    if 2 * r > u || (2 * r == u && q % 2 == 1) {
        (q + 1) * u
    } else {
        q * u
    }
}

/// The greatest power of two that is at most `k`.
fn top_power(k: u128) -> (h: u128)
    requires
        0 < k <= 0x2_0000_0000,
    ensures
        h == top_from(k as nat, 1),
        0 < h <= k < 2 * h,
{
    let mut h: u128 = 1;
    while 2 * h <= k
        invariant
            0 < h <= k <= 0x2_0000_0000,
            top_from(k as nat, h as nat) == top_from(k as nat, 1),
        decreases k - h,
    {
        h = 2 * h;
    }
    h
}

/// Rounds the root of `m` to single precision.
fn round_root(m: u128, k: u128) -> (w: u128)
    requires
        is_root(k as int, m as int),
        k <= 0x2_0000_0000,
    ensures
        w == rounded_root(m as nat, k as nat),
        w <= 2 * k + 2,
        k > 0 ==> w > 0,
{
    if k == 0 {
        return 0;
    }
    let h: u128 = top_power(k);
    if h < 0x100_0000 {
        let s: u128 = 0x100_0000 / h;
        proof {
            assert(0 < s && h * s <= 0x100_0000) by (nonlinear_arith)
                requires
                    s == 0x100_0000u128 / h,
                    0 < h < 0x100_0000,
            ;
            let up = (k + 1) * s;
            assert(0 < up <= 0x400_0000) by (nonlinear_arith)
                requires
                    up == (k + 1) * s,
                    h * s <= 0x100_0000,
                    0 <= k < 2 * h,
                    0 < s,
            ;
            assert(s * s <= 0x100_0000 * 0x100_0000 && 0 <= s * s) by (nonlinear_arith)
                requires
                    0 < s,
                    h * s <= 0x100_0000,
                    0 < h,
            ;
            assert(m * (s * s) <= up * up) by (nonlinear_arith)
                requires
                    0 <= m < (k + 1) * (k + 1),
                    up == (k + 1) * s,
                    s > 0,
            ;
            assert(up * up <= 0x400_0000 * 0x400_0000) by (nonlinear_arith)
                requires
                    0 < up <= 0x400_0000,
            ;
            assert(0 <= (up - 1) * (up - 1) <= up * up) by (nonlinear_arith)
                requires
                    0 < up,
            ;
            assert(m * (s * s) >= 0) by (nonlinear_arith)
                requires
                    m >= 0,
                    s * s >= 0,
            ;
        }
        let below: u128 = (k + 1) * s - 1;
        if m * (s * s) > below * below {
            k + 1
        } else {
            k
        }
    } else {
        let t: u128 = h / 0x80_0000;
        let q: u128 = k / t;
        proof {
            vstd::arithmetic::div_mod::lemma_fundamental_div_mod(k as int, t as int);
            assert(t * q == q * t) by (nonlinear_arith);
            assert((q + 1) * t == q * t + t) by (nonlinear_arith);
            assert(q > 0) by (nonlinear_arith)
                requires
                    k < (q + 1) * t,
                    t <= k,
                    q >= 0,
            ;
            assert(q * t > 0) by (nonlinear_arith)
                requires
                    q > 0,
                    t > 0,
            ;
            let mid = q * t + t / 2;
            assert(0 <= mid * mid <= 0x4_0000_0000 * 0x4_0000_0000) by (nonlinear_arith)
                requires
                    0 <= mid <= 0x4_0000_0000,
            ;
        }
        let mid: u128 = q * t + t / 2;
        if m > mid * mid || (m == mid * mid && q % 2 == 1) {
            (q + 1) * t
        } else {
            q * t
        }
    }
}

/// The side of the grid that holds `n` cells.
pub fn grid_side(n: usize) -> (w: usize)
    ensures
        is_side(w as int, n as nat),
        n > 0 ==> w > 0,
{
    let m: u128 = to_single(n);
    let k: u128 = floor_root(m);
    let w: u128 = round_root(m, k);
    proof {
        assert(is_root(k as nat as int, single(n as nat) as int));
        if n <= 0xffff_ffff {
            assert(k <= 0x1_0000_0000) by (nonlinear_arith)
                requires
                    k * k <= m,
                    m <= 2 * n,
                    n <= 0xffff_ffff,
            ;
            assert(k <= 0x2_0000) by (nonlinear_arith)
                requires
                    k * k <= m,
                    m <= 2 * n,
                    n <= 0xffff_ffff,
                    k >= 0,
            ;
        } else {
            assert(2 * k + 2 <= n) by (nonlinear_arith)
                requires
                    k * k <= m,
                    m <= 2 * n,
                    n > 0xffff_ffff,
                    k >= 0,
            ;
        }
        if n > 0 {
            assert(k > 0) by (nonlinear_arith)
                requires
                    m < (k + 1) * (k + 1),
                    m > 0,
                    k >= 0,
            ;
        }
    }
    w as usize
}

proof fn lemma_single_small(n: nat)
    requires
        n < 0x100_0000,
    ensures
        single(n) == n,
{
    assert(unit_from(n, 1) == 1);
    assert(n / 1 == n && n % 1 == 0);
}

/// Up to two to the 24th the side of the grid is the root of the number of cells,
/// rounded down.
pub proof fn lemma_small_grid(w: int, n: nat)
    requires
        n < 0x100_0000,
        is_side(w, n),
    ensures
        0 <= w,
        w * w <= n < (w + 1) * (w + 1),
{
    lemma_single_small(n);
    let k = choose|k: nat|
        #[trigger] is_root(k as int, single(n) as int) && w == rounded_root(single(n), k);
    assert(k < 4096) by (nonlinear_arith)
        requires
            k * k <= n,
            n < 0x100_0000,
    ;
    if k > 0 {
        lemma_top_is_power(k, 1);
        let h = top_from(k, 1);
        let s = 0x100_0000nat / h;
        lemma_fine_enough(h, k);
        assert(n * (s * s) <= ((k + 1) * s - 1) * ((k + 1) * s - 1)) by (nonlinear_arith)
            requires
                n + 1 <= (k + 1) * (k + 1),
                s >= 2 * (k + 1),
                k > 0,
        ;
    }
}

/// Below 4096 the spacing of the numbers next to a root is fine enough to tell it from
/// the next whole number.
proof fn lemma_fine_enough(h: nat, k: nat)
    requires
        0 < h <= k < 2 * h,
        k < 4096,
        is_small_power(h),
    ensures
        0x100_0000nat / h >= 2 * (k + 1),
{
    let q = 0x100_0000nat / h;
    vstd::arithmetic::div_mod::lemma_fundamental_div_mod(0x100_0000, h as int);
    assert(q >= 4 * h) by (nonlinear_arith)
        requires
            0x100_0000 == h * q + 0x100_0000int % (h as int),
            0x100_0000int % (h as int) < h,
            0 < h <= 2048,
    ;
}

/// A power of two up to 2048.
spec fn is_small_power(h: nat) -> bool {
    h == 1 || h == 2 || h == 4 || h == 8 || h == 16 || h == 32 || h == 64 || h == 128 || h == 256
        || h == 512 || h == 1024 || h == 2048
}

proof fn lemma_top_is_power(k: nat, h: nat)
    requires
        is_small_power(h),
        h <= k < 4096,
    ensures
        is_small_power(top_from(k, h)),
        h <= top_from(k, h) <= k < 2 * top_from(k, h),
    decreases k - h,
{
    if 2 * h <= k {
        lemma_top_is_power(k, 2 * h);
    }
}

} // verus!
