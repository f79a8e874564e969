//! The resolution pyramid: its levels, and moving pictures, weights,
//! assignments and prices between them.

use crate::cost;
use crate::cost::Rgb;
use crate::float::Double;
use crate::perm;
use crate::slices;
use vstd::prelude::*;

verus! {

/// Side of the coarsest level.
pub const COARSEST_SIDELEN: u32 = 16;

/// The levels from `s` up to `target`, doubling; `target` itself comes last.
pub open spec fn levels_from(s: nat, target: nat) -> Seq<u32>
    decreases larger(target - s, 0),
{
    if 0 < s < target {
        seq![s as u32] + levels_from(2 * s, target)
    } else {
        seq![target as u32]
    }
}

/// All levels up to `target`.
pub open spec fn pyramid(target: u32) -> Seq<u32> {
    levels_from(COARSEST_SIDELEN as nat, target as nat)
}

/// Every level is positive and at most the target, which comes last; the
/// levels behind the first are above `s`.
pub proof fn lemma_levels(s: nat, target: nat)
    requires
        0 < s,
        0 < target <= u32::MAX,
    ensures
        0 < levels_from(s, target).len() <= larger(target - s, 0) + 1,
        levels_from(s, target).last() == target,
        forall|k: int|
            0 <= k < levels_from(s, target).len() ==> 0 < (#[trigger] levels_from(s, target)[k])
                <= target,
        s < target ==> levels_from(s, target)[0] == s,
        forall|k: int|
            0 < k < levels_from(s, target).len() ==> (#[trigger] levels_from(s, target)[k]) > s,
    decreases larger(target - s, 0),
{
    if s < target {
        lemma_levels(2 * s, target);
        let rest = levels_from(2 * s, target);
        let all = levels_from(s, target);
        assert(all =~= seq![s as u32] + rest);
        assert forall|k: int| 0 < k < all.len() implies s < (#[trigger] all[k]) <= target by {
            assert(all[k] == rest[k - 1]);
            if k == 1 {
                if 2 * s < target {
                    assert(rest[0] == 2 * s);
                } else {
                    assert(rest =~= seq![target as u32]);
                }
            }
        }
    }
}

/// Builds the sides of the levels from the coarsest up to `target_sidelen`,
/// which is always the finest.
pub fn build_pyramid(target_sidelen: u32) -> (r: Vec<u32>)
    requires
        target_sidelen <= 0x8000_0000,
    ensures
        r@ == pyramid(target_sidelen),
{
    let mut levels: Vec<u32> = Vec::new();
    let mut s: u32 = COARSEST_SIDELEN;
    proof {
        assert(levels@ + levels_from(s as nat, target_sidelen as nat) =~= pyramid(target_sidelen));
    }
    while s < target_sidelen
        invariant
            0 < s,
            target_sidelen <= 0x8000_0000,
            levels@ + levels_from(s as nat, target_sidelen as nat) == pyramid(target_sidelen),
        decreases larger(target_sidelen - s, 0),
    {
        let ghost rest = levels_from(2 * (s as nat), target_sidelen as nat);
        let ghost before = levels@;
        levels.push(s);
        proof {
            assert(levels_from(s as nat, target_sidelen as nat) == seq![s] + rest);
            assert(levels@ + rest =~= before + (seq![s] + rest));
        }
        s = s * 2;
    }
    let ghost before = levels@;
    levels.push(target_sidelen);
    proof {
        assert(levels@ =~= before + seq![target_sidelen]);
    }
    levels
}

/// `a / b`, rounded up.
pub open spec fn ceiling(a: int, b: int) -> int {
    (a + b - 1) / b
}

pub open spec fn smaller(a: int, b: int) -> int {
    if a < b {
        a
    } else {
        b
    }
}

pub open spec fn larger(a: int, b: int) -> int {
    if a > b {
        a
    } else {
        b
    }
}

/// The first of the `from` positions that output position `o` of `to` covers.
pub open spec fn cell_lo(o: int, from: int, to: int) -> int {
    o * from / to
}

/// One past the last of them.
pub open spec fn cell_hi(o: int, from: int, to: int) -> int {
    smaller(larger(ceiling((o + 1) * from, to), cell_lo(o, from, to) + 1), from)
}

/// The entries of a row-major grid along row `y`, from column `x0` on.
pub open spec fn cell_row(f: spec_fn(int) -> int, from: int, x0: int, y: int) -> spec_fn(
    int,
) -> int {
    |i: int| f(y * from + x0 + i)
}

/// The sums of the rows from `y0` on, between the columns `x0` and `x1`.
pub open spec fn cell_rows(
    f: spec_fn(int) -> int,
    from: int,
    x0: int,
    x1: int,
    y0: int,
) -> spec_fn(int) -> int {
    |j: int| perm::sum_to(cell_row(f, from, x0, y0 + j), (x1 - x0) as nat)
}

/// The sum of `f` over the cell that output position `k` covers.
pub open spec fn cell_sum(f: spec_fn(int) -> int, from: int, to: int, k: int) -> int {
    let x0 = cell_lo(k % to, from, to);
    let x1 = cell_hi(k % to, from, to);
    let y0 = cell_lo(k / to, from, to);
    let y1 = cell_hi(k / to, from, to);
    perm::sum_to(cell_rows(f, from, x0, x1, y0), (y1 - y0) as nat)
}

/// The number of entries of that cell.
pub open spec fn cell_count(from: int, to: int, k: int) -> int {
    (cell_hi(k % to, from, to) - cell_lo(k % to, from, to)) * (cell_hi(k / to, from, to) - cell_lo(
        k / to,
        from,
        to,
    ))
}

pub open spec fn red(p: Seq<Rgb>) -> spec_fn(int) -> int {
    |i: int| p[i].0 as int
}

pub open spec fn green(p: Seq<Rgb>) -> spec_fn(int) -> int {
    |i: int| p[i].1 as int
}

pub open spec fn blue(p: Seq<Rgb>) -> spec_fn(int) -> int {
    |i: int| p[i].2 as int
}

pub open spec fn entry(w: Seq<i64>) -> spec_fn(int) -> int {
    |i: int| w[i] as int
}

/// `a / b` for a positive `b`, rounded towards zero.
pub open spec fn truncated(a: int, b: int) -> int {
    if a >= 0 {
        a / b
    } else {
        -((-a) / b)
    }
}

/// Every output pixel is the average of the cell that it covers.
pub open spec fn pooled_pixels(p: Seq<Rgb>, from: int, to: int) -> Seq<Rgb> {
    if from == to {
        p
    } else {
        Seq::new(
            (to * to) as nat,
            |k: int|
                (
                    (cell_sum(red(p), from, to, k) / cell_count(from, to, k)) as u8,
                    (cell_sum(green(p), from, to, k) / cell_count(from, to, k)) as u8,
                    (cell_sum(blue(p), from, to, k) / cell_count(from, to, k)) as u8,
                ),
        )
    }
}

/// Every output weight is the average of its cell, rounded towards zero.
pub open spec fn pooled_weights(w: Seq<i64>, from: int, to: int) -> Seq<i64> {
    if from == to {
        w
    } else {
        Seq::new(
            (to * to) as nat,
            |k: int|
                truncated(cell_sum(entry(w), from, to, k), cell_count(from, to, k)) as i64,
        )
    }
}

/// A side for which positions fit 16 bits and areas fit 32 bits.
pub open spec fn side_ok(s: int) -> bool {
    0 < s <= 65535
}

proof fn lemma_cell(o: int, from: int, to: int)
    requires
        side_ok(from),
        side_ok(to),
        0 <= o < to,
    ensures
        0 <= cell_lo(o, from, to) < cell_hi(o, from, to) <= from,
        0 <= o * from,
        (o + 1) * from <= 65535 * 65535,
{
    assert(0 <= o * from && o * from < from * to && (o + 1) * from <= 65535 * 65535)
        by (nonlinear_arith)
        requires
            0 < from <= 65535,
            0 <= o < to,
            to <= 65535,
    ;
    assert(0 <= o * from / to < from) by (nonlinear_arith)
        requires
            0 <= o * from,
            o * from < from * to,
            to > 0,
    ;
}

/// Position `k` of a grid of side `to`, as coordinates.
proof fn lemma_split(k: int, to: int)
    requires
        to > 0,
        0 <= k < to * to,
    ensures
        0 <= k % to < to,
        0 <= k / to < to,
        k == (k / to) * to + k % to,
{
    assert(0 <= k / to < to && 0 <= k % to < to && k == (k / to) * to + k % to)
        by (nonlinear_arith)
        requires
            0 < to,
            0 <= k < to * to,
    ;
}

proof fn lemma_index(x: int, y: int, side: int)
    requires
        0 <= x < side,
        0 <= y < side,
    ensures
        0 <= y * side + x < side * side,
{
    assert(0 <= y * side + x < side * side) by (nonlinear_arith)
        requires
            0 <= x < side,
            0 <= y < side,
    ;
}

/// A bound on the entries bounds the average of a cell.
proof fn lemma_cell_bound(f: spec_fn(int) -> int, from: int, to: int, k: int, low: int, high: int)
    requires
        side_ok(from),
        side_ok(to),
        0 <= k < to * to,
        forall|i: int| 0 <= i < from * from ==> low <= #[trigger] f(i) <= high,
    ensures
        cell_count(from, to, k) > 0,
        low * cell_count(from, to, k) <= cell_sum(f, from, to, k) <= high * cell_count(
            from,
            to,
            k,
        ),
{
    lemma_split(k, to);
    lemma_cell(k % to, from, to);
    lemma_cell(k / to, from, to);
    let x0 = cell_lo(k % to, from, to);
    let x1 = cell_hi(k % to, from, to);
    let y0 = cell_lo(k / to, from, to);
    let y1 = cell_hi(k / to, from, to);
    let w = (x1 - x0) as nat;
    let h = (y1 - y0) as nat;
    let rows = cell_rows(f, from, x0, x1, y0);
    assert forall|j: int| 0 <= j < h implies low * w <= #[trigger] rows(j) <= high * w by {
        let row = cell_row(f, from, x0, y0 + j);
        assert forall|i: int| 0 <= i < w implies low <= #[trigger] row(i) <= high by {
            lemma_index(x0 + i, y0 + j, from);
        }
        lemma_sum_between(row, w, low, high);
    }
    lemma_sum_between(rows, h, low * w, high * w);
    assert(h * (low * w) == low * (w * h) && h * (high * w) == high * (w * h) && w * h > 0)
        by (nonlinear_arith)
        requires
            w > 0,
            h > 0,
    ;
}

proof fn lemma_sum_between(f: spec_fn(int) -> int, n: nat, low: int, high: int)
    requires
        forall|i: int| 0 <= i < n ==> low <= #[trigger] f(i) <= high,
    ensures
        n * low <= perm::sum_to(f, n) <= n * high,
    decreases n,
{
    if n > 0 {
        lemma_sum_between(f, (n - 1) as nat, low, high);
        assert(n * low == (n - 1) * low + low && n * high == (n - 1) * high + high)
            by (nonlinear_arith);
    } else {
        assert(n * low == 0 && n * high == 0) by (nonlinear_arith)
            requires
                n == 0,
        ;
    }
}

/// The bounds of the cell that output position `o` covers.
fn cell(o: u32, from: u32, to: u32) -> (r: (u32, u32))
    requires
        side_ok(from as int),
        side_ok(to as int),
        o < to,
    ensures
        r.0 == cell_lo(o as int, from as int, to as int),
        r.1 == cell_hi(o as int, from as int, to as int),
        r.0 < r.1 <= from,
{
    proof {
        lemma_cell(o as int, from as int, to as int);
        assert((o + 1) * from == o * from + from) by (nonlinear_arith);
    }
    let lo: u32 = o * from / to;
    let up: u32 = ((o as u64 + 1) * from as u64 + to as u64 - 1) as u32 / to;
    let reach: u32 = if up > lo + 1 {
        up
    } else {
        lo + 1
    };
    let hi: u32 = if reach < from {
        reach
    } else {
        from
    };
    (lo, hi)
}

/// Average-pools a pixel array from `from_sidelen` down to `to_sidelen`. Works
/// for arbitrary square sizes: each output pixel is the average of the
/// rectangle of input pixels that it covers.
pub fn downsample_pixels(pixels: &[Rgb], from_sidelen: u32, to_sidelen: u32) -> (r: Vec<Rgb>)
    requires
        from_sidelen != to_sidelen ==> side_ok(from_sidelen as int) && side_ok(to_sidelen as int)
            && pixels@.len() >= from_sidelen * from_sidelen,
    ensures
        r@ == pooled_pixels(pixels@, from_sidelen as int, to_sidelen as int),
{
    if from_sidelen == to_sidelen {
        return slices::copied(pixels);
    }
    let ghost p = pixels@;
    let ghost from = from_sidelen as int;
    let ghost to = to_sidelen as int;
    proof {
        assert(to * to <= 65535 * 65535 && from * from <= 65535 * 65535) by (nonlinear_arith)
            requires
                0 < to <= 65535,
                0 < from <= 65535,
        ;
    }
    let total: u32 = to_sidelen * to_sidelen;
    let mut out: Vec<Rgb> = Vec::with_capacity(total as usize);
    let mut k: u32 = 0;
    while k < total
        invariant
            p == pixels@,
            from == from_sidelen,
            to == to_sidelen,
            from != to,
            side_ok(from),
            side_ok(to),
            from * from <= 65535 * 65535,
            pixels@.len() >= from * from,
            total == to * to,
            k <= total,
            out@ == pooled_pixels(p, from, to).take(k as int),
        decreases total - k,
    {
        proof {
            lemma_split(k as int, to);
        }
        let (x0, x1) = cell(k % to_sidelen, from_sidelen, to_sidelen);
        let (y0, y1) = cell(k / to_sidelen, from_sidelen, to_sidelen);
        let ghost rows_r = cell_rows(red(p), from, x0 as int, x1 as int, y0 as int);
        let ghost rows_g = cell_rows(green(p), from, x0 as int, x1 as int, y0 as int);
        let ghost rows_b = cell_rows(blue(p), from, x0 as int, x1 as int, y0 as int);
        let mut r_sum: u64 = 0;
        let mut g_sum: u64 = 0;
        let mut b_sum: u64 = 0;
        let mut y: u32 = y0;
        while y < y1
            invariant
                p == pixels@,
                from == from_sidelen,
                side_ok(from),
                from * from <= 65535 * 65535,
                pixels@.len() >= from * from,
                y0 <= y <= y1 <= from,
                x0 < x1 <= from,
                rows_r == cell_rows(red(p), from, x0 as int, x1 as int, y0 as int),
                rows_g == cell_rows(green(p), from, x0 as int, x1 as int, y0 as int),
                rows_b == cell_rows(blue(p), from, x0 as int, x1 as int, y0 as int),
                r_sum == perm::sum_to(rows_r, (y - y0) as nat),
                g_sum == perm::sum_to(rows_g, (y - y0) as nat),
                b_sum == perm::sum_to(rows_b, (y - y0) as nat),
                r_sum <= 16711425 * (y - y0),
                g_sum <= 16711425 * (y - y0),
                b_sum <= 16711425 * (y - y0),
            decreases y1 - y,
        {
            let ghost row_r = cell_row(red(p), from, x0 as int, y as int);
            let ghost row_g = cell_row(green(p), from, x0 as int, y as int);
            let ghost row_b = cell_row(blue(p), from, x0 as int, y as int);
            let ghost r0 = r_sum as int;
            let ghost g0 = g_sum as int;
            let ghost b0 = b_sum as int;
            let mut x: u32 = x0;
            while x < x1
                invariant
                    p == pixels@,
                    from == from_sidelen,
                    side_ok(from),
                    from * from <= 65535 * 65535,
                    pixels@.len() >= from * from,
                    y0 <= y < y1 <= from,
                    x0 <= x <= x1 <= from,
                    row_r == cell_row(red(p), from, x0 as int, y as int),
                    row_g == cell_row(green(p), from, x0 as int, y as int),
                    row_b == cell_row(blue(p), from, x0 as int, y as int),
                    r_sum == r0 + perm::sum_to(row_r, (x - x0) as nat),
                    g_sum == g0 + perm::sum_to(row_g, (x - x0) as nat),
                    b_sum == b0 + perm::sum_to(row_b, (x - x0) as nat),
                    r_sum <= r0 + 255 * (x - x0),
                    g_sum <= g0 + 255 * (x - x0),
                    b_sum <= b0 + 255 * (x - x0),
                    r0 <= 16711425 * (y - y0),
                    g0 <= 16711425 * (y - y0),
                    b0 <= 16711425 * (y - y0),
                decreases x1 - x,
            {
                proof {
                    lemma_index(x as int, y as int, from);
                    assert(0 <= y * from) by (nonlinear_arith)
                        requires
                            0 <= y,
                            0 < from,
                    ;
                }
                let px = pixels[(y * from_sidelen + x) as usize];
                proof {
                    let i = x - x0;
                    assert(row_r(i) == px.0);
                    assert(row_g(i) == px.1);
                    assert(row_b(i) == px.2);
                }
                r_sum += px.0 as u64;
                g_sum += px.1 as u64;
                b_sum += px.2 as u64;
                x += 1;
            }
            proof {
                let j = y - y0;
                assert(rows_r(j) == perm::sum_to(row_r, (x1 - x0) as nat));
                assert(rows_g(j) == perm::sum_to(row_g, (x1 - x0) as nat));
                assert(rows_b(j) == perm::sum_to(row_b, (x1 - x0) as nat));
            }
            y += 1;
        }
        let ghost kk = k as int;
        proof {
            assert forall|i: int| 0 <= i < from * from implies 0 <= #[trigger] red(p)(i) <= 255 by {}
            assert forall|i: int| 0 <= i < from * from implies 0 <= #[trigger] green(p)(i)
                <= 255 by {}
            assert forall|i: int| 0 <= i < from * from implies 0 <= #[trigger] blue(p)(i) <= 255 by {
            }
            lemma_cell_bound(red(p), from, to, kk, 0, 255);
            lemma_cell_bound(green(p), from, to, kk, 0, 255);
            lemma_cell_bound(blue(p), from, to, kk, 0, 255);
            assert((x1 - x0) * (y1 - y0) <= 65535 * 65535) by (nonlinear_arith)
                requires
                    0 < x1 - x0 <= 65535,
                    0 < y1 - y0 <= 65535,
            ;
        }
        let count: u64 = (x1 - x0) as u64 * (y1 - y0) as u64;
        proof {
            assert(count == cell_count(from, to, kk));
            lemma_average(r_sum as int, count as int, 0, 255);
            lemma_average(g_sum as int, count as int, 0, 255);
            lemma_average(b_sum as int, count as int, 0, 255);
        }
        let ghost before = out@;
        out.push(((r_sum / count) as u8, (g_sum / count) as u8, (b_sum / count) as u8));
        k += 1;
        proof {
            let goal = pooled_pixels(p, from, to);
            assert(goal.take(k as int) =~= goal.take(kk).push(goal[kk]));
        }
    }
    proof {
        assert(out@ =~= pooled_pixels(p, from, to));
    }
    out
}

proof fn lemma_average(sum: int, count: int, low: int, high: int)
    requires
        count > 0,
        low * count <= sum <= high * count,
    ensures
        low <= sum / count <= high,
{
    assert(low <= sum / count <= high) by (nonlinear_arith)
        requires
            count > 0,
            low * count <= sum <= high * count,
    ;
}

/// Averages within bounds, rounded towards zero, stay within them.
proof fn lemma_truncated(sum: int, count: int, bound: int)
    requires
        count > 0,
        bound >= 0,
        -bound * count <= sum <= bound * count,
    ensures
        -bound <= truncated(sum, count) <= bound,
{
    if sum >= 0 {
        lemma_average(sum, count, 0, bound);
    } else {
        assert(0 * count <= -sum <= bound * count) by (nonlinear_arith)
            requires
                -bound * count <= sum,
                sum < 0,
        ;
        lemma_average(-sum, count, 0, bound);
    }
}

/// Average-pools weights in the same way; averages are rounded towards zero.
pub fn downsample_weights(weights: &[i64], from_sidelen: u32, to_sidelen: u32) -> (r: Vec<i64>)
    requires
        from_sidelen != to_sidelen ==> side_ok(from_sidelen as int) && side_ok(to_sidelen as int)
            && weights@.len() >= from_sidelen * from_sidelen,
    ensures
        r@ == pooled_weights(weights@, from_sidelen as int, to_sidelen as int),
{
    if from_sidelen == to_sidelen {
        return slices::copied(weights);
    }
    let ghost w = weights@;
    let ghost from = from_sidelen as int;
    let ghost to = to_sidelen as int;
    let ghost big = 0x8000_0000_0000_0000int;
    proof {
        assert(to * to <= 65535 * 65535 && from * from <= 65535 * 65535) by (nonlinear_arith)
            requires
                0 < to <= 65535,
                0 < from <= 65535,
        ;
    }
    let total: u32 = to_sidelen * to_sidelen;
    let mut out: Vec<i64> = Vec::with_capacity(total as usize);
    let mut k: u32 = 0;
    while k < total
        invariant
            w == weights@,
            from == from_sidelen,
            to == to_sidelen,
            from != to,
            side_ok(from),
            side_ok(to),
            big == 0x8000_0000_0000_0000int,
            from * from <= 65535 * 65535,
            weights@.len() >= from * from,
            total == to * to,
            k <= total,
            out@ == pooled_weights(w, from, to).take(k as int),
        decreases total - k,
    {
        proof {
            lemma_split(k as int, to);
        }
        let (x0, x1) = cell(k % to_sidelen, from_sidelen, to_sidelen);
        let (y0, y1) = cell(k / to_sidelen, from_sidelen, to_sidelen);
        let ghost rows = cell_rows(entry(w), from, x0 as int, x1 as int, y0 as int);
        let mut sum: i128 = 0;
        let mut y: u32 = y0;
        while y < y1
            invariant
                w == weights@,
                from == from_sidelen,
                side_ok(from),
                big == 0x8000_0000_0000_0000int,
                from * from <= 65535 * 65535,
                weights@.len() >= from * from,
                y0 <= y <= y1 <= from,
                x0 < x1 <= from,
                rows == cell_rows(entry(w), from, x0 as int, x1 as int, y0 as int),
                sum == perm::sum_to(rows, (y - y0) as nat),
                -(big * 65535 * (y - y0)) <= sum <= big * 65535 * (y - y0),
            decreases y1 - y,
        {
            let ghost row = cell_row(entry(w), from, x0 as int, y as int);
            let ghost sum0 = sum as int;
            let mut x: u32 = x0;
            while x < x1
                invariant
                    w == weights@,
                    from == from_sidelen,
                    side_ok(from),
                    big == 0x8000_0000_0000_0000int,
                    from * from <= 65535 * 65535,
                    weights@.len() >= from * from,
                    y0 <= y < y1 <= from,
                    x0 <= x <= x1 <= from,
                    row == cell_row(entry(w), from, x0 as int, y as int),
                    sum == sum0 + perm::sum_to(row, (x - x0) as nat),
                    sum0 - big * (x - x0) <= sum <= sum0 + big * (x - x0),
                    -(big * 65535 * (y - y0)) <= sum0 <= big * 65535 * (y - y0),
                decreases x1 - x,
            {
                proof {
                    lemma_index(x as int, y as int, from);
                    assert(0 <= y * from) by (nonlinear_arith)
                        requires
                            0 <= y,
                            0 < from,
                    ;
                }
                let v: i64 = weights[(y * from_sidelen + x) as usize];
                proof {
                    assert(row(x - x0) == v);
                }
                sum += v as i128;
                x += 1;
            }
            proof {
                assert(rows(y - y0) == perm::sum_to(row, (x1 - x0) as nat));
            }
            y += 1;
        }
        let ghost kk = k as int;
        proof {
            assert forall|i: int| 0 <= i < from * from implies -big <= #[trigger] entry(w)(i)
                <= big - 1 by {}
            lemma_cell_bound(entry(w), from, to, kk, -big, big - 1);
            assert((x1 - x0) * (y1 - y0) <= 65535 * 65535) by (nonlinear_arith)
                requires
                    0 < x1 - x0 <= 65535,
                    0 < y1 - y0 <= 65535,
            ;
        }
        let count: u128 = (x1 - x0) as u128 * (y1 - y0) as u128;
        let average: i64;
        if sum >= 0 {
            proof {
                assert(0 * count <= sum <= (big - 1) * count) by (nonlinear_arith)
                    requires
                        sum >= 0,
                        sum <= (big - 1) * count,
                ;
                lemma_average(sum as int, count as int, 0, big - 1);
            }
            average = (sum as u128 / count) as i64;
        } else {
            proof {
                assert(0 * count <= -sum <= big * count) by (nonlinear_arith)
                    requires
                        sum < 0,
                        -big * count <= sum,
                ;
                lemma_average(-sum, count as int, 0, big);
            }
            let size: u128 = (-sum) as u128 / count;
            average = (-(size as i128)) as i64;
        }
        out.push(average);
        k += 1;
        proof {
            let goal = pooled_weights(w, from, to);
            assert(goal[kk] == average);
            assert(goal.take(k as int) =~= goal.take(kk).push(goal[kk]));
        }
    }
    proof {
        assert(out@ =~= pooled_weights(w, from, to));
    }
    out
}

/// Along one axis: the source position at the finer level for the position
/// `fine`, whose coarse position is matched with the coarse source `src`. It
/// has the same offset within the source block as `fine` has within its own.
pub open spec fn axis_child(fine: int, src: int, from: int, to: int) -> int {
    let coarse = fine * from / to;
    let block = coarse * to / from;
    let lo = src * to / from;
    let hi = larger(ceiling((src + 1) * to, from), lo + 1);
    smaller(smaller(lo + larger(fine - block, 0), hi - 1), to - 1)
}

/// The coarse target that covers position `k` of the finer level.
pub open spec fn coarse_of(k: int, from: int, to: int) -> int {
    ((k / to) * from / to) * from + (k % to) * from / to
}

/// The source predicted for every target of the finer level.
pub open spec fn upsampled(coarse: Seq<usize>, from: int, to: int) -> Seq<usize> {
    Seq::new(
        (to * to) as nat,
        |k: int|
            {
                let src = coarse[coarse_of(k, from, to)] as int;
                (axis_child(k / to, src / from, from, to) * to + axis_child(
                    k % to,
                    src % from,
                    from,
                    to,
                )) as usize
            },
    )
}

proof fn lemma_product(a: int, b: int)
    requires
        0 <= a <= 65535,
        0 <= b <= 65535,
    ensures
        0 <= a * b <= 65535 * 65535,
{
    assert(0 <= a * b <= 65535 * 65535) by (nonlinear_arith)
        requires
            0 <= a <= 65535,
            0 <= b <= 65535,
    ;
}

proof fn lemma_scaled(a: int, from: int, to: int)
    requires
        side_ok(from),
        side_ok(to),
        0 <= a < to,
    ensures
        0 <= a * from <= 65535 * 65535,
        0 <= a * from / to < from,
{
    lemma_cell(a, from, to);
    lemma_product(a, from);
    assert(0 <= a * from / to < from) by (nonlinear_arith)
        requires
            0 <= a < to,
            0 < from,
            to > 0,
    ;
}

proof fn lemma_axis_child(fine: int, src: int, from: int, to: int)
    requires
        side_ok(from),
        side_ok(to),
        0 <= fine < to,
        0 <= src < from,
    ensures
        0 <= axis_child(fine, src, from, to) < to,
{
    lemma_scaled(fine, from, to);
    lemma_scaled(src, to, from);
}

fn child(fine: u32, src: u32, from: u32, to: u32) -> (r: u32)
    requires
        side_ok(from as int),
        side_ok(to as int),
        fine < to,
        src < from,
    ensures
        r == axis_child(fine as int, src as int, from as int, to as int),
        r < to,
{
    proof {
        lemma_axis_child(fine as int, src as int, from as int, to as int);
        lemma_scaled(fine as int, from as int, to as int);
        lemma_scaled(fine as int * from as int / to as int, to as int, from as int);
        lemma_scaled(src as int, to as int, from as int);
        lemma_product(src + 1, to as int);
    }
    let coarse: u32 = fine * from / to;
    let block: u32 = coarse * to / from;
    let lo: u32 = src * to / from;
    let up: u32 = ((src as u64 + 1) * to as u64 + from as u64 - 1) as u32 / from;
    let hi: u32 = if up > lo + 1 {
        up
    } else {
        lo + 1
    };
    let offset: u32 = if fine > block {
        fine - block
    } else {
        0
    };
    let a: u32 = if lo + offset < hi - 1 {
        lo + offset
    } else {
        hi - 1
    };
    if a < to - 1 {
        a
    } else {
        to - 1
    }
}

pub proof fn lemma_coarse_of(k: int, from: int, to: int)
    requires
        side_ok(from),
        side_ok(to),
        0 <= k < to * to,
    ensures
        0 <= coarse_of(k, from, to) < from * from,
{
    lemma_split(k, to);
    lemma_scaled(k / to, from, to);
    lemma_scaled(k % to, from, to);
    lemma_index((k % to) * from / to, (k / to) * from / to, from);
}

/// Upsamples an assignment from `from_sidelen` to `to_sidelen`: the predicted
/// source of every fine target is the matching child of its coarse source.
pub fn upsample_assignment(
    coarse_assignments: &[usize],
    from_sidelen: u32,
    to_sidelen: u32,
) -> (r: Vec<usize>)
    requires
        side_ok(from_sidelen as int),
        side_ok(to_sidelen as int),
        coarse_assignments@.len() >= from_sidelen * from_sidelen,
        forall|i: int|
            0 <= i < from_sidelen * from_sidelen ==> (#[trigger] coarse_assignments@[i])
                < from_sidelen * from_sidelen,
    ensures
        r@ == upsampled(coarse_assignments@, from_sidelen as int, to_sidelen as int),
        forall|k: int| 0 <= k < r@.len() ==> (#[trigger] r@[k]) < to_sidelen * to_sidelen,
{
    let ghost from = from_sidelen as int;
    let ghost to = to_sidelen as int;
    let ghost goal = upsampled(coarse_assignments@, from, to);
    proof {
        lemma_product(to, to);
        lemma_product(from, from);
    }
    let total: u32 = to_sidelen * to_sidelen;
    let mut out: Vec<usize> = Vec::with_capacity(total as usize);
    let mut k: u32 = 0;
    while k < total
        invariant
            from == from_sidelen,
            to == to_sidelen,
            side_ok(from),
            side_ok(to),
            total == to * to,
            0 <= from * from <= 65535 * 65535,
            k <= total,
            goal == upsampled(coarse_assignments@, from, to),
            coarse_assignments@.len() >= from * from,
            forall|i: int|
                0 <= i < from * from ==> (#[trigger] coarse_assignments@[i]) < from * from,
            out@ == goal.take(k as int),
            forall|i: int| 0 <= i < out@.len() ==> (#[trigger] out@[i]) < to * to,
        decreases total - k,
    {
        let x: u32 = k % to_sidelen;
        let y: u32 = k / to_sidelen;
        proof {
            lemma_split(k as int, to);
            lemma_coarse_of(k as int, from, to);
            lemma_scaled(x as int, from, to);
            lemma_scaled(y as int, from, to);
            lemma_product(y * from / to, from);
        }
        let cx: u32 = x * from_sidelen / to_sidelen;
        let cy: u32 = y * from_sidelen / to_sidelen;
        let src: usize = coarse_assignments[(cy * from_sidelen + cx) as usize];
        proof {
            lemma_split(src as int, from);
        }
        let sx: u32 = (src % from_sidelen as usize) as u32;
        let sy: u32 = (src / from_sidelen as usize) as u32;
        let fx: u32 = child(x, sx, from_sidelen, to_sidelen);
        let fy: u32 = child(y, sy, from_sidelen, to_sidelen);
        proof {
            lemma_index(fx as int, fy as int, to);
            lemma_product(fy as int, to);
        }
        out.push((fy * to_sidelen + fx) as usize);
        proof {
            let kk = k as int;
            assert(goal.take(kk + 1) =~= goal.take(kk).push(goal[kk]));
        }
        k += 1;
    }
    proof {
        assert(out@ =~= goal);
    }
    out
}

/// Prices of the coarse targets, repeated for the targets that they cover.
pub open spec fn upsampled_prices(prices: Seq<Double>, from: int, to: int) -> Seq<Double> {
    if from == to {
        prices
    } else {
        Seq::new((to * to) as nat, |k: int| prices[coarse_of(k, from, to)])
    }
}

/// Upsamples target prices by repeating them.
pub fn upsample_prices(prices: &[Double], from_sidelen: u32, to_sidelen: u32) -> (r: Vec<Double>)
    requires
        from_sidelen != to_sidelen ==> side_ok(from_sidelen as int) && side_ok(to_sidelen as int)
            && prices@.len() >= from_sidelen * from_sidelen,
    ensures
        r@ == upsampled_prices(prices@, from_sidelen as int, to_sidelen as int),
{
    if from_sidelen == to_sidelen {
        return slices::copied(prices);
    }
    let ghost from = from_sidelen as int;
    let ghost to = to_sidelen as int;
    let ghost goal = upsampled_prices(prices@, from, to);
    proof {
        lemma_product(to, to);
        lemma_product(from, from);
    }
    let total: u32 = to_sidelen * to_sidelen;
    let mut out: Vec<Double> = Vec::with_capacity(total as usize);
    let mut k: u32 = 0;
    while k < total
        invariant
            from == from_sidelen,
            to == to_sidelen,
            from != to,
            side_ok(from),
            side_ok(to),
            total == to * to,
            0 <= from * from <= 65535 * 65535,
            k <= total,
            goal == upsampled_prices(prices@, from, to),
            prices@.len() >= from * from,
            out@ == goal.take(k as int),
        decreases total - k,
    {
        let x: u32 = k % to_sidelen;
        let y: u32 = k / to_sidelen;
        proof {
            lemma_split(k as int, to);
            lemma_coarse_of(k as int, from, to);
            lemma_scaled(x as int, from, to);
            lemma_scaled(y as int, from, to);
            lemma_product(y * from / to, from);
        }
        let cx: u32 = x * from_sidelen / to_sidelen;
        let cy: u32 = y * from_sidelen / to_sidelen;
        out.push(prices[(cy * from_sidelen + cx) as usize]);
        proof {
            let kk = k as int;
            assert(goal.take(kk + 1) =~= goal.take(kk).push(goal[kk]));
        }
        k += 1;
    }
    proof {
        assert(out@ =~= goal);
    }
    out
}

/// Pooling keeps costs within the limit of the full grid.
pub proof fn lemma_pooled_costs_fit(
    w: Seq<i64>,
    from: int,
    to: int,
    proximity_importance: int,
    limit: int,
)
    requires
        side_ok(from),
        side_ok(to),
        to <= from,
        w.len() == from * from,
        cost::grid_costs_fit(w, from, proximity_importance, limit),
    ensures
        pooled_weights(w, from, to).len() == to * to,
        cost::grid_costs_fit(pooled_weights(w, from, to), to, proximity_importance, limit),
{
    let far = cost::square(2 * cost::square(from - 1) * proximity_importance);
    let near = cost::square(2 * cost::square(to - 1) * proximity_importance);
    cost::lemma_square_bound(to - 1, from - 1);
    let a = 2 * cost::square(to - 1);
    let b = 2 * cost::square(from - 1);
    let p = proximity_importance;
    assert(cost::absolute(a * p) <= cost::absolute(b * p)) by (nonlinear_arith)
        requires
            0 <= a <= b,
    ;
    cost::lemma_square_bound(a * p, cost::absolute(b * p));
    assert(cost::square(cost::absolute(b * p)) == cost::square(b * p)) by (nonlinear_arith);
    assert(near <= far);
    assert(w.len() > 0) by (nonlinear_arith)
        requires
            w.len() == from * from,
            from > 0,
    ;
    assert(195075 * cost::absolute(w[0] as int) + far <= limit);
    let bound = (limit - far) / 195075;
    if from != to {
        let pooled = pooled_weights(w, from, to);
        assert(to * to >= 0) by (nonlinear_arith);
        assert forall|k: int| 0 <= k < pooled.len() implies 195075 * cost::absolute(
            (#[trigger] pooled[k]) as int,
        ) + near <= limit by {
            assert forall|i: int| 0 <= i < from * from implies -bound <= #[trigger] entry(w)(i)
                <= bound by {
                assert(195075 * cost::absolute(w[i] as int) + far <= limit);
            }
            lemma_cell_bound(entry(w), from, to, k, -bound, bound);
            lemma_truncated(cell_sum(entry(w), from, to, k), cell_count(from, to, k), bound);
            assert forall|i: int| 0 <= i < from * from implies -0x8000_0000_0000_0000
                <= #[trigger] entry(w)(i) <= 0x7fff_ffff_ffff_ffff by {}
            lemma_cell_bound(
                entry(w),
                from,
                to,
                k,
                -0x8000_0000_0000_0000,
                0x7fff_ffff_ffff_ffff,
            );
            lemma_average_fits(cell_sum(entry(w), from, to, k), cell_count(from, to, k));
        }
    }
}

proof fn lemma_average_fits(sum: int, count: int)
    requires
        count > 0,
        -0x8000_0000_0000_0000 * count <= sum <= 0x7fff_ffff_ffff_ffff * count,
    ensures
        i64::MIN <= truncated(sum, count) <= i64::MAX,
{
    if sum >= 0 {
        assert(0 * count <= sum) by (nonlinear_arith)
            requires
                sum >= 0,
        ;
        lemma_average(sum, count, 0, 0x7fff_ffff_ffff_ffff);
    } else {
        assert(0 * count <= -sum <= 0x8000_0000_0000_0000 * count) by (nonlinear_arith)
            requires
                sum < 0,
                -0x8000_0000_0000_0000 * count <= sum,
        ;
        lemma_average(-sum, count, 0, 0x8000_0000_0000_0000);
    }
}

/// The levels: the coarsest, or the target if it is no larger; from each the double,
/// as long as that is below the target; and the target.
pub proof fn lemma_pyramid_doubles(target: u32)
    requires
        0 < target,
    ensures
        ({
            let levels = pyramid(target);
            &&& levels.len() > 0
            &&& levels[0] == if target < 16 {
                target
            } else {
                16
            }
            &&& levels.last() == target
            &&& forall|k: int|
                0 <= k < levels.len() - 1 ==> {
                    &&& (#[trigger] levels[k]) < target
                    &&& levels[k + 1] == if 2 * levels[k] < target {
                        2 * levels[k]
                    } else {
                        target as int
                    }
                }
        }),
{
    lemma_levels_double(16, target as nat);
}

proof fn lemma_levels_double(s: nat, target: nat)
    requires
        0 < s,
        0 < target <= u32::MAX,
    ensures
        ({
            let levels = levels_from(s, target);
            &&& levels.len() > 0
            &&& levels[0] == if s < target {
                s
            } else {
                target
            }
            &&& levels.last() == target
            &&& forall|k: int|
                0 <= k < levels.len() - 1 ==> {
                    &&& (#[trigger] levels[k]) < target
                    &&& levels[k + 1] == if 2 * levels[k] < target {
                        2 * levels[k]
                    } else {
                        target as int
                    }
                }
        }),
    decreases larger(target - s, 0),
{
    if s < target {
        lemma_levels_double(2 * s, target);
        let rest = levels_from(2 * s, target);
        let all = levels_from(s, target);
        assert(all =~= seq![s as u32] + rest);
        assert forall|k: int| 0 <= k < all.len() - 1 implies {
            &&& (#[trigger] all[k]) < target
            &&& all[k + 1] == if 2 * all[k] < target {
                2 * all[k]
            } else {
                target as int
            }
        } by {
            assert(all[k + 1] == rest[k]);
            if k > 0 {
                assert(all[k] == rest[k - 1]);
            }
        }
    }
}

/// Position `x` of `from` along one axis and position `o` of `to`, drawn at the same
/// length, have some of that length in common.
pub open spec fn overlaps(x: int, o: int, from: int, to: int) -> bool {
    x * to < (o + 1) * from && o * from < (x + 1) * to
}

/// Entry `i` of the grid of side `from` and entry `k` of the grid of side `to`, drawn at
/// the same size, have some area in common.
pub open spec fn covers(i: int, k: int, from: int, to: int) -> bool {
    overlaps(i % from, k % to, from, to) && overlaps(i / from, k / to, from, to)
}

proof fn lemma_cell_overlaps(x: int, o: int, from: int, to: int)
    requires
        side_ok(from),
        side_ok(to),
        0 <= o < to,
        0 <= x < from,
    ensures
        overlaps(x, o, from, to) <==> cell_lo(o, from, to) <= x < cell_hi(o, from, to),
{
    let a = o * from;
    let b = (o + 1) * from;
    let lo = a / to;
    vstd::arithmetic::div_mod::lemma_fundamental_div_mod(a, to);
    vstd::arithmetic::div_mod::lemma_fundamental_div_mod(b + to - 1, to);
    let hi = ceiling(b, to);
    assert(b == a + from) by (nonlinear_arith)
        requires
            a == o * from,
            b == (o + 1) * from,
    ;
    assert(lo <= x <==> a < (x + 1) * to) by (nonlinear_arith)
        requires
            a == to * lo + a % to,
            0 <= a % to < to,
            to > 0,
    ;
    assert(x < hi <==> x * to < b) by (nonlinear_arith)
        requires
            b + to - 1 == to * hi + (b + to - 1) % to,
            0 <= (b + to - 1) % to < to,
            to > 0,
    ;
    assert(lo < hi) by (nonlinear_arith)
        requires
            a == to * lo + a % to,
            a % to >= 0,
            b > a,
            b + to - 1 == to * hi + (b + to - 1) % to,
            (b + to - 1) % to < to,
            to > 0,
    ;
}

/// A sum over the part of a row between two columns.
proof fn lemma_segment(h: spec_fn(int) -> int, lo: int, hi: int, w: nat)
    requires
        0 <= lo <= hi,
        lo <= w,
    ensures
        perm::sum_to(
            |x: int|
                if lo <= x < hi {
                    h(x)
                } else {
                    0
                },
            w,
        ) == perm::sum_to(|i: int| h(lo + i), ((if hi < w { hi } else { w as int }) - lo) as nat),
    decreases w,
{
    let g = |x: int|
        if lo <= x < hi {
            h(x)
        } else {
            0
        };
    if w > 0 {
        if lo <= w - 1 {
            lemma_segment(h, lo, hi, (w - 1) as nat);
        } else {
            assert forall|x: int| 0 <= x < w implies #[trigger] g(x) == (|x: int| 0int)(x) by {}
            perm::lemma_sum_ext(g, |x: int| 0int, w);
            lemma_zero_sum(w);
        }
    }
}

proof fn lemma_zero_sum(n: nat)
    ensures
        perm::sum_to(|x: int| 0int, n) == 0,
    decreases n,
{
    if n > 0 {
        lemma_zero_sum((n - 1) as nat);
    }
}

/// A sum over a grid is the sum of the sums of its rows.
proof fn lemma_grid_sum(g: spec_fn(int) -> int, w: nat, rows: nat)
    ensures
        perm::sum_to(g, rows * w) == perm::sum_to(
            |y: int| perm::sum_to(|x: int| g(y * w + x), w),
            rows,
        ),
    decreases rows,
{
    if rows > 0 {
        let b = (rows - 1) as nat;
        lemma_grid_sum(g, w, b);
        assert(rows * w == b * w + w) by (nonlinear_arith)
            requires
                rows == b + 1,
        ;
        lemma_sum_tail(g, b * w, w);
    } else {
        assert(rows * w == 0) by (nonlinear_arith)
            requires
                rows == 0,
        ;
    }
}

proof fn lemma_sum_tail(g: spec_fn(int) -> int, m: nat, w: nat)
    ensures
        perm::sum_to(g, m + w) == perm::sum_to(g, m) + perm::sum_to(|x: int| g(m + x), w),
    decreases w,
{
    if w > 0 {
        lemma_sum_tail(g, m, (w - 1) as nat);
    }
}

/// `f` on what output position `k` covers, zero elsewhere.
pub open spec fn covered_only(f: spec_fn(int) -> int, from: int, to: int, k: int) -> spec_fn(
    int,
) -> int {
    |i: int|
        if covers(i, k, from, to) {
            f(i)
        } else {
            0
        }
}

/// The sum over a cell is the sum over the entries that the output position covers.
proof fn lemma_cell_sum(f: spec_fn(int) -> int, from: int, to: int, k: int)
    requires
        side_ok(from),
        side_ok(to),
        0 <= k < to * to,
    ensures
        cell_sum(f, from, to, k) == perm::sum_to(
            covered_only(f, from, to, k),
            (from * from) as nat,
        ),
{
    let ox = k % to;
    let oy = k / to;
    cost::lemma_grid_pos(k, to);
    lemma_cell(ox, from, to);
    lemma_cell(oy, from, to);
    let x0 = cell_lo(ox, from, to);
    let x1 = cell_hi(ox, from, to);
    let y0 = cell_lo(oy, from, to);
    let y1 = cell_hi(oy, from, to);
    let g = covered_only(f, from, to, k);
    let w = from as nat;
    lemma_grid_sum(g, w, w);
    let row = |y: int| perm::sum_to(cell_row(f, from, x0, y), (x1 - x0) as nat);
    let by_rows = |y: int| perm::sum_to(|x: int| g(y * w + x), w);
    let picked = |y: int|
        if y0 <= y < y1 {
            row(y)
        } else {
            0
        };
    assert forall|y: int| 0 <= y < w implies #[trigger] by_rows(y) == picked(y) by {
        let line = |x: int| g(y * w + x);
        let h = |x: int| f(y * w + x);
        let seg = |x: int|
            if x0 <= x < x1 {
                h(x)
            } else {
                0
            };
        lemma_cell_overlaps(y, oy, from, to);
        assert forall|x: int| 0 <= x < w implies #[trigger] line(x) == (if y0 <= y < y1 {
            seg(x)
        } else {
            0
        }) by {
            lemma_cell_overlaps(x, ox, from, to);
            vstd::arithmetic::div_mod::lemma_fundamental_div_mod_converse(y * w + x, from, y, x);
        }
        if y0 <= y < y1 {
            perm::lemma_sum_ext(line, seg, w);
            lemma_segment(h, x0, x1, w);
            perm::lemma_sum_ext(
                |i: int| h(x0 + i),
                cell_row(f, from, x0, y),
                (x1 - x0) as nat,
            );
        } else {
            perm::lemma_sum_ext(line, |x: int| 0int, w);
            lemma_zero_sum(w);
        }
    }
    perm::lemma_sum_ext(by_rows, picked, w);
    lemma_segment(row, y0, y1, w);
    perm::lemma_sum_ext(
        |j: int| row(y0 + j),
        cell_rows(f, from, x0, x1, y0),
        (y1 - y0) as nat,
    );
}

/// The number of entries that an output position covers.
proof fn lemma_cell_count(from: int, to: int, k: int)
    requires
        side_ok(from),
        side_ok(to),
        0 <= k < to * to,
    ensures
        cell_count(from, to, k) == perm::sum_to(
            covered_only(|i: int| 1int, from, to, k),
            (from * from) as nat,
        ),
        cell_count(from, to, k) > 0,
{
    let f = |i: int| 1int;
    lemma_cell_sum(f, from, to, k);
    cost::lemma_grid_pos(k, to);
    lemma_cell(k % to, from, to);
    lemma_cell(k / to, from, to);
    let x0 = cell_lo(k % to, from, to);
    let x1 = cell_hi(k % to, from, to);
    let y0 = cell_lo(k / to, from, to);
    let y1 = cell_hi(k / to, from, to);
    let rows = cell_rows(f, from, x0, x1, y0);
    assert forall|j: int| 0 <= j < y1 - y0 implies #[trigger] rows(j) == (|j: int| x1 - x0)(j) by {
        perm::lemma_sum_ext(cell_row(f, from, x0, y0 + j), |i: int| 1int, (x1 - x0) as nat);
        lemma_constant_sum(1, (x1 - x0) as nat);
    }
    perm::lemma_sum_ext(rows, |j: int| x1 - x0, (y1 - y0) as nat);
    lemma_constant_sum(x1 - x0, (y1 - y0) as nat);
    assert((x1 - x0) * (y1 - y0) > 0 && (y1 - y0) * (x1 - x0) == (x1 - x0) * (y1 - y0))
        by (nonlinear_arith)
        requires
            x1 > x0,
            y1 > y0,
    ;
}

proof fn lemma_constant_sum(v: int, n: nat)
    ensures
        perm::sum_to(|i: int| v, n) == n * v,
    decreases n,
{
    if n > 0 {
        lemma_constant_sum(v, (n - 1) as nat);
        assert(n * v == (n - 1) * v + v) by (nonlinear_arith);
    } else {
        assert(n * v == 0) by (nonlinear_arith)
            requires
                n == 0,
        ;
    }
}

/// `v` is the average of `f` over the entries that output position `k` covers, rounded
/// down.
pub open spec fn averages(f: spec_fn(int) -> int, from: int, to: int, k: int, v: int) -> bool {
    let area = (from * from) as nat;
    let sum = perm::sum_to(covered_only(f, from, to, k), area);
    let count = perm::sum_to(covered_only(|i: int| 1int, from, to, k), area);
    count > 0 && v * count <= sum < (v + 1) * count
}

proof fn lemma_cell_average(f: spec_fn(int) -> int, from: int, to: int, k: int)
    requires
        side_ok(from),
        side_ok(to),
        0 <= k < to * to,
    ensures
        averages(f, from, to, k, cell_sum(f, from, to, k) / cell_count(from, to, k)),
{
    lemma_cell_sum(f, from, to, k);
    lemma_cell_count(from, to, k);
    let s = cell_sum(f, from, to, k);
    let n = cell_count(from, to, k);
    vstd::arithmetic::div_mod::lemma_fundamental_div_mod(s, n);
    let q = s / n;
    assert(q * n <= s < (q + 1) * n) by (nonlinear_arith)
        requires
            s == n * q + s % n,
            0 <= s % n < n,
    ;
}

/// Where nothing is to be pooled, every entry covers just itself.
proof fn lemma_own_average(f: spec_fn(int) -> int, side: int, k: int)
    requires
        side_ok(side),
        0 <= k < side * side,
    ensures
        averages(f, side, side, k, f(k)),
{
    lemma_cell_average(f, side, side, k);
    lemma_own_cell(f, side, k);
}

proof fn lemma_own_cell(f: spec_fn(int) -> int, side: int, k: int)
    requires
        side_ok(side),
        0 <= k < side * side,
    ensures
        cell_sum(f, side, side, k) == f(k),
        cell_count(side, side, k) == 1,
{
    cost::lemma_grid_pos(k, side);
    let ox = k % side;
    let oy = k / side;
    vstd::arithmetic::div_mod::lemma_fundamental_div_mod(k, side);
    assert(side * oy == oy * side) by (nonlinear_arith);
    assert forall|o: int| 0 <= o < side implies #[trigger] cell_lo(o, side, side) == o && cell_hi(
        o,
        side,
        side,
    ) == o + 1 by {
        vstd::arithmetic::div_mod::lemma_fundamental_div_mod_converse(o * side, side, o, 0);
        vstd::arithmetic::div_mod::lemma_fundamental_div_mod_converse(
            (o + 1) * side + side - 1,
            side,
            o + 1,
            side - 1,
        );
    }
    assert(cell_lo(ox, side, side) == ox && cell_lo(oy, side, side) == oy);
    let row = cell_row(f, side, ox, oy);
    let rows = cell_rows(f, side, ox, ox + 1, oy);
    assert(row(0) == f(k));
    reveal_with_fuel(perm::sum_to, 3);
    assert(perm::sum_to(row, 1) == f(k));
    assert(rows(0) == perm::sum_to(cell_row(f, side, ox, oy + 0), 1));
    assert(perm::sum_to(rows, 1) == f(k));
    assert(cell_sum(f, side, side, k) == f(k));
    let one = cell_hi(ox, side, side) - cell_lo(ox, side, side);
    assert(one == 1 && cell_hi(oy, side, side) - cell_lo(oy, side, side) == one);
    assert(one * one == 1) by (nonlinear_arith)
        requires
            one == 1,
    ;
    assert(cell_count(side, side, k) == 1);
}

/// Every pixel of a pooled picture is, channel by channel, the average of the pixels
/// that it covers.
pub proof fn lemma_pooled_pixels_average(p: Seq<Rgb>, from: int, to: int, k: int)
    requires
        side_ok(from),
        side_ok(to),
        p.len() == from * from,
        0 <= k < to * to,
    ensures
        pooled_pixels(p, from, to).len() == to * to,
        averages(|i: int| p[i].0 as int, from, to, k, pooled_pixels(p, from, to)[k].0 as int),
        averages(|i: int| p[i].1 as int, from, to, k, pooled_pixels(p, from, to)[k].1 as int),
        averages(|i: int| p[i].2 as int, from, to, k, pooled_pixels(p, from, to)[k].2 as int),
{
    let r = |i: int| p[i].0 as int;
    let g = |i: int| p[i].1 as int;
    let b = |i: int| p[i].2 as int;
    if from == to {
        lemma_own_average(r, from, k);
        lemma_own_average(g, from, k);
        lemma_own_average(b, from, k);
    } else {
        lemma_channel_average(r, red(p), from, to, k);
        lemma_channel_average(g, green(p), from, to, k);
        lemma_channel_average(b, blue(p), from, to, k);
    }
}

proof fn lemma_channel_average(
    f: spec_fn(int) -> int,
    g: spec_fn(int) -> int,
    from: int,
    to: int,
    k: int,
)
    requires
        side_ok(from),
        side_ok(to),
        0 <= k < to * to,
        forall|i: int| #[trigger] f(i) == g(i),
        forall|i: int| 0 <= #[trigger] f(i) <= 255,
    ensures
        averages(
            f,
            from,
            to,
            k,
            (cell_sum(g, from, to, k) / cell_count(from, to, k)) as u8 as int,
        ),
{
    assert(f =~= g);
    lemma_cell_average(f, from, to, k);
    let area = (from * from) as nat;
    let v = cell_sum(f, from, to, k) / cell_count(from, to, k);
    let sum = perm::sum_to(covered_only(f, from, to, k), area);
    let count = perm::sum_to(covered_only(|i: int| 1int, from, to, k), area);
    lemma_bounded_sum(f, from, to, k, area);
    assert(0 <= v <= 255) by (nonlinear_arith)
        requires
            v * count <= sum < (v + 1) * count,
            0 <= sum <= 255 * count,
            count > 0,
    ;
}

proof fn lemma_bounded_sum(f: spec_fn(int) -> int, from: int, to: int, k: int, n: nat)
    requires
        forall|i: int| 0 <= #[trigger] f(i) <= 255,
    ensures
        0 <= perm::sum_to(covered_only(f, from, to, k), n) <= 255 * perm::sum_to(
            covered_only(|i: int| 1int, from, to, k),
            n,
        ),
    decreases n,
{
    if n > 0 {
        lemma_bounded_sum(f, from, to, k, (n - 1) as nat);
        assert(0 <= f(n - 1) <= 255);
    }
}

/// `v` is the average of `f` over the entries that output position `k` covers, rounded
/// towards zero.
pub open spec fn averages_to_zero(
    f: spec_fn(int) -> int,
    from: int,
    to: int,
    k: int,
    v: int,
) -> bool {
    let area = (from * from) as nat;
    let sum = perm::sum_to(covered_only(f, from, to, k), area);
    let count = perm::sum_to(covered_only(|i: int| 1int, from, to, k), area);
    &&& count > 0
    &&& sum >= 0 ==> v * count <= sum < (v + 1) * count
    &&& sum < 0 ==> (v - 1) * count < sum <= v * count
}

/// Every weight of a pooled grid is the average of the weights that it covers, rounded
/// towards zero.
pub proof fn lemma_pooled_weights_average(w: Seq<i64>, from: int, to: int, k: int)
    requires
        side_ok(from),
        side_ok(to),
        w.len() == from * from,
        0 <= k < to * to,
    ensures
        pooled_weights(w, from, to).len() == to * to,
        averages_to_zero(|i: int| w[i] as int, from, to, k, pooled_weights(w, from, to)[k] as int),
{
    let f = |i: int| w[i] as int;
    let area = (from * from) as nat;
    let sum = perm::sum_to(covered_only(f, from, to, k), area);
    let count = perm::sum_to(covered_only(|i: int| 1int, from, to, k), area);
    if from == to {
        lemma_own_count(f, from, k);
    } else {
        assert(f =~= entry(w));
        lemma_weight_sum(w, from, to, k, area);
        lemma_cell_sum(f, from, to, k);
        lemma_cell_count(from, to, k);
        let v = truncated(sum, count);
        if sum >= 0 {
            vstd::arithmetic::div_mod::lemma_fundamental_div_mod(sum, count);
            assert(v * count <= sum < (v + 1) * count) by (nonlinear_arith)
                requires
                    sum == count * v + sum % count,
                    0 <= sum % count < count,
            ;
            assert(0 <= v <= i64::MAX) by (nonlinear_arith)
                requires
                    v * count <= sum < (v + 1) * count,
                    0 <= sum <= i64::MAX * count,
                    count > 0,
            ;
        } else {
            let m = -sum;
            let q = m / count;
            vstd::arithmetic::div_mod::lemma_fundamental_div_mod(m, count);
            assert(q * count <= m < (q + 1) * count) by (nonlinear_arith)
                requires
                    m == count * q + m % count,
                    0 <= m % count < count,
            ;
            assert((v - 1) * count < sum <= v * count) by (nonlinear_arith)
                requires
                    q * count <= m < (q + 1) * count,
                    m == -sum,
                    v == -q,
            ;
            assert(i64::MIN <= v <= 0) by (nonlinear_arith)
                requires
                    (v - 1) * count < sum <= v * count,
                    i64::MIN * count <= sum < 0,
                    count > 0,
            ;
        }
    }
}

/// Where nothing is to be pooled, the sum is the entry itself and the count is one.
proof fn lemma_own_count(f: spec_fn(int) -> int, side: int, k: int)
    requires
        side_ok(side),
        0 <= k < side * side,
    ensures
        ({
            let area = (side * side) as nat;
            &&& perm::sum_to(covered_only(f, side, side, k), area) == f(k)
            &&& perm::sum_to(covered_only(|i: int| 1int, side, side, k), area) == 1
        }),
{
    lemma_cell_sum(f, side, side, k);
    lemma_cell_count(side, side, k);
    lemma_own_cell(f, side, k);
}

proof fn lemma_weight_sum(w: Seq<i64>, from: int, to: int, k: int, n: nat)
    requires
        n <= w.len(),
    ensures
        ({
            let sum = perm::sum_to(covered_only(|i: int| w[i] as int, from, to, k), n);
            let count = perm::sum_to(covered_only(|i: int| 1int, from, to, k), n);
            i64::MIN * count <= sum <= i64::MAX * count
        }),
    decreases n,
{
    let c = perm::sum_to(covered_only(|i: int| 1int, from, to, k), (n - 1) as nat);
    if n > 0 {
        lemma_weight_sum(w, from, to, k, (n - 1) as nat);
        assert(i64::MAX * (c + 1) == i64::MAX * c + i64::MAX) by (nonlinear_arith);
        assert(i64::MIN * (c + 1) == i64::MIN * c + i64::MIN) by (nonlinear_arith);
    }
}

/// Along one axis, the predicted position overlaps the coarse source.
proof fn lemma_child_overlaps(fine: int, src: int, from: int, to: int)
    requires
        0 < from <= to <= 65535,
        0 <= fine < to,
        0 <= src < from,
    ensures
        overlaps(axis_child(fine, src, from, to), src, to, from),
        overlaps(fine, fine * from / to, to, from),
        0 <= axis_child(fine, src, from, to) < to,
{
    let c = axis_child(fine, src, from, to);
    let lo = src * to / from;
    let hi = larger(ceiling((src + 1) * to, from), lo + 1);
    lemma_cell(src, to, from);
    assert(cell_lo(src, to, from) == lo);
    assert(0 <= lo < to);
    assert(lo <= c < cell_hi(src, to, from));
    lemma_cell_overlaps(c, src, to, from);
    let q = fine * from / to;
    let a = fine * from;
    vstd::arithmetic::div_mod::lemma_fundamental_div_mod(a, to);
    assert(fine * from < (q + 1) * to && q * to < (fine + 1) * from) by (nonlinear_arith)
        requires
            a == fine * from,
            a == to * q + a % to,
            0 <= a % to < to,
            from > 0,
    ;
}

/// The source predicted for a target of the finer level overlaps the source of a coarse
/// target that overlaps it.
pub proof fn lemma_prediction_overlaps(coarse: Seq<usize>, from: int, to: int, k: int)
    requires
        0 < from <= to <= 65535,
        coarse.len() >= from * from,
        forall|i: int| 0 <= i < from * from ==> (#[trigger] coarse[i]) < from * from,
        0 <= k < to * to,
    ensures
        exists|t: int|
            {
                &&& 0 <= t < from * from
                &&& covers(k, t, to, from)
                &&& covers(upsampled(coarse, from, to)[k] as int, #[trigger] coarse[t] as int, to, from)
            },
        upsampled(coarse, from, to)[k] < to * to,
{
    let t = coarse_of(k, from, to);
    cost::lemma_grid_pos(k, to);
    lemma_coarse_of(k, from, to);
    let cx = (k % to) * from / to;
    let cy = (k / to) * from / to;
    lemma_axis_coarse(k % to, from, to);
    lemma_axis_coarse(k / to, from, to);
    vstd::arithmetic::div_mod::lemma_fundamental_div_mod_converse(cy * from + cx, from, cy, cx);
    let src = coarse[t] as int;
    assert(coarse[t] < from * from);
    cost::lemma_grid_pos(src, from);
    lemma_child_overlaps(k % to, src % from, from, to);
    lemma_child_overlaps(k / to, src / from, from, to);
    let x = axis_child(k % to, src % from, from, to);
    let y = axis_child(k / to, src / from, from, to);
    assert(0 <= y * to + x < to * to && to * to <= 65535 * 65535) by (nonlinear_arith)
        requires
            0 <= x < to,
            0 <= y < to,
            to <= 65535,
    ;
    vstd::arithmetic::div_mod::lemma_fundamental_div_mod_converse(y * to + x, to, y, x);
    assert(covers(k, t, to, from));
    assert(covers(upsampled(coarse, from, to)[k] as int, coarse[t] as int, to, from));
}

proof fn lemma_axis_coarse(fine: int, from: int, to: int)
    requires
        0 < from <= to,
        0 <= fine < to,
    ensures
        0 <= fine * from / to < from,
{
    assert(0 <= fine * from / to < from) by (nonlinear_arith)
        requires
            0 < from <= to,
            0 <= fine < to,
    ;
}

/// From a level to its double, every block of four targets takes the block of four
/// sources of its coarse source, each target the source at its own place in the block.
pub proof fn lemma_doubling_keeps_blocks(coarse: Seq<usize>, from: int, x: int, y: int)
    requires
        0 < from,
        2 * from <= 65535,
        coarse.len() >= from * from,
        forall|i: int| 0 <= i < from * from ==> (#[trigger] coarse[i]) < from * from,
        0 <= x < 2 * from,
        0 <= y < 2 * from,
    ensures
        ({
            let to = 2 * from;
            let src = coarse[(y / 2) * from + x / 2] as int;
            upsampled(coarse, from, to)[y * to + x] == (2 * (src / from) + y % 2) * to + 2 * (src
                % from) + x % 2
        }),
{
    let to = 2 * from;
    let k = y * to + x;
    vstd::arithmetic::div_mod::lemma_fundamental_div_mod_converse(k, to, y, x);
    assert(0 <= k < to * to) by (nonlinear_arith)
        requires
            k == y * to + x,
            0 <= x < to,
            0 <= y < to,
    ;
    lemma_half(x, from);
    lemma_half(y, from);
    let t = (y / 2) * from + x / 2;
    assert(0 <= t < from * from) by (nonlinear_arith)
        requires
            t == (y / 2) * from + x / 2,
            0 <= x / 2 < from,
            0 <= y / 2 < from,
    ;
    let src = coarse[t] as int;
    assert(coarse[t] < from * from);
    cost::lemma_grid_pos(src, from);
    lemma_double_child(x, src % from, from);
    lemma_double_child(y, src / from, from);
    let cx = 2 * (src % from) + x % 2;
    let cy = 2 * (src / from) + y % 2;
    assert(0 <= cy * to + cx < to * to && to * to <= 65535 * 65535) by (nonlinear_arith)
        requires
            0 <= cx < to,
            0 <= cy < to,
            to <= 65535,
    ;
}

proof fn lemma_half(x: int, from: int)
    requires
        0 < from,
        0 <= x < 2 * from,
    ensures
        x * from / (2 * from) == x / 2,
        0 <= x / 2 < from,
{
    let q = x / 2;
    let r = x % 2;
    assert(x * from == q * (2 * from) + r * from) by (nonlinear_arith)
        requires
            x == 2 * q + r,
    ;
    assert(0 <= r * from < 2 * from) by (nonlinear_arith)
        requires
            0 <= r < 2,
            from > 0,
    ;
    vstd::arithmetic::div_mod::lemma_fundamental_div_mod_converse(
        x * from,
        2 * from,
        q,
        r * from,
    );
}

proof fn lemma_double_child(x: int, src: int, from: int)
    requires
        0 < from,
        0 <= x < 2 * from,
        0 <= src < from,
    ensures
        axis_child(x, src, from, 2 * from) == 2 * src + x % 2,
{
    let to = 2 * from;
    lemma_half(x, from);
    let q = x / 2;
    assert(q * to == (2 * q) * from && src * to == (2 * src) * from && (src + 1) * to == (2 * src
        + 2) * from) by (nonlinear_arith)
        requires
            to == 2 * from,
    ;
    vstd::arithmetic::div_mod::lemma_fundamental_div_mod_converse(q * to, from, 2 * q, 0);
    vstd::arithmetic::div_mod::lemma_fundamental_div_mod_converse(src * to, from, 2 * src, 0);
    vstd::arithmetic::div_mod::lemma_fundamental_div_mod_converse(
        (src + 1) * to + from - 1,
        from,
        2 * src + 2,
        from - 1,
    );
}

/// Predicted sources lie on the finer grid.
pub proof fn lemma_prediction_in_range(coarse: Seq<usize>, from: int, to: int, k: int)
    requires
        side_ok(from),
        side_ok(to),
        coarse.len() >= from * from,
        forall|i: int| 0 <= i < from * from ==> (#[trigger] coarse[i]) < from * from,
        0 <= k < to * to,
    ensures
        upsampled(coarse, from, to)[k] < to * to,
{
    lemma_coarse_of(k, from, to);
    let t = coarse_of(k, from, to);
    let src = coarse[t] as int;
    assert(coarse[t] < from * from);
    cost::lemma_grid_pos(k, to);
    cost::lemma_grid_pos(src, from);
    let x = axis_child(k % to, src % from, from, to);
    let y = axis_child(k / to, src / from, from, to);
    lemma_cell(src % from, to, from);
    lemma_cell(src / from, to, from);
    assert(0 <= x < to && 0 <= y < to);
    assert(0 <= y * to + x < to * to && to * to <= 65535 * 65535) by (nonlinear_arith)
        requires
            0 <= x < to,
            0 <= y < to,
            to <= 65535,
    ;
}

/// The price of a fine target is that of a coarse target that overlaps it.
pub proof fn lemma_prices_are_repeated(prices: Seq<Double>, from: int, to: int, k: int)
    requires
        0 < from <= to <= 65535,
        prices.len() == from * from,
        0 <= k < to * to,
    ensures
        upsampled_prices(prices, from, to).len() == to * to,
        exists|t: int|
            {
                &&& 0 <= t < from * from
                &&& covers(k, t, to, from)
                &&& upsampled_prices(prices, from, to)[k] == #[trigger] prices[t]
            },
{
    assert(to * to >= 0) by (nonlinear_arith);
    cost::lemma_grid_pos(k, to);
    lemma_child_overlaps(k % to, 0, from, to);
    lemma_child_overlaps(k / to, 0, from, to);
    if from == to {
        assert(covers(k, k, to, from)) by {
            lemma_self_overlap(k % to, to);
            lemma_self_overlap(k / to, to);
        }
        assert(upsampled_prices(prices, from, to)[k] == prices[k]);
    } else {
        let t = coarse_of(k, from, to);
        lemma_coarse_of(k, from, to);
        let cx = (k % to) * from / to;
        let cy = (k / to) * from / to;
        lemma_axis_coarse(k % to, from, to);
        lemma_axis_coarse(k / to, from, to);
        vstd::arithmetic::div_mod::lemma_fundamental_div_mod_converse(cy * from + cx, from, cy, cx);
        assert(covers(k, t, to, from));
        assert(upsampled_prices(prices, from, to)[k] == prices[t]);
    }
}

proof fn lemma_self_overlap(x: int, side: int)
    requires
        0 < side,
    ensures
        overlaps(x, x, side, side),
{
    assert(x * side < (x + 1) * side) by (nonlinear_arith)
        requires
            side > 0,
    ;
}

/// A pyramid has few levels.
pub proof fn lemma_pyramid_len(target: u32)
    ensures
        pyramid(target).len() <= usize::MAX,
{
    if target > 0 {
        lemma_levels(16, target as nat);
    }
}

} // verus!
