//! PatchMatch-style correspondence search, repaired to a permutation.
//!
//! Every target tests the sources that its neighbours suggest and random
//! sources at shrinking radii, and keeps the cheapest. Many targets may choose
//! the same source, so a sparse auction around the choices makes the result a
//! permutation.

use crate::auction;
use crate::candidates;
use crate::cost;
use crate::cost::{CostLookup, Problem, Rgb};
use crate::float;
use crate::market;
use crate::perm;
use crate::rng;
use vstd::prelude::*;

verus! {

/// Number of propagation and random search passes.
pub const PATCHMATCH_ITERS: usize = 4;

/// Number of random attempts per target, radius and pass.
pub const RANDOM_ATTEMPTS: usize = 8;

/// Random samples for the initial choice of a target.
pub const INITIAL_SAMPLES: usize = 16;

/// Epsilon phases of the repairing auction.
pub const REPAIR_PHASES: usize = 3;

/// Radius of the neighbourhood that the repair may choose from.
pub const REPAIR_RADIUS: i64 = 3;

/// Seed of the search.
pub const SEARCH_SEED: u64 = 42424;

pub open spec fn clamped(x: int, low: int, high: int) -> int {
    if x < low {
        low
    } else if x > high {
        high
    } else {
        x
    }
}

/// `x`, moved into the range from `low` to `high`.
pub fn clamp(x: i64, low: i64, high: i64) -> (r: i64)
    requires
        low <= high,
    ensures
        r == clamped(x as int, low as int, high as int),
{
    if x < low {
        low
    } else if x > high {
        high
    } else {
        x
    }
}

/// The sampled source with the nearest colour, and its distance, among the
/// first `k` samples drawn from `state`; the first of equals wins.
pub open spec fn nearest_sample(c: Problem, dst: int, state: u64, k: nat) -> (usize, int)
    decreases k,
{
    if k == 0 {
        (0, i64::MAX as int)
    } else {
        let before = nearest_sample(c, dst, state, (k - 1) as nat);
        let src = (rng::draw64(rng::state_after(state, (k - 1) as nat)) as nat % c.n()) as usize;
        let d = cost::color_distance(c.target[dst], c.source[src as int]);
        if d < before.1 {
            (src, d)
        } else {
            before
        }
    }
}

/// The choices of all targets, and the state of the generator.
#[verifier::ext_equal]
pub struct Search {
    pub a: Seq<usize>,
    pub state: u64,
}

pub open spec fn initial_search(c: Problem) -> Search {
    let s0 = rng::seeded_state(SEARCH_SEED);
    Search {
        a: Seq::new(
            c.n(),
            |d: int|
                nearest_sample(
                    c,
                    d,
                    rng::state_after(s0, (INITIAL_SAMPLES * d) as nat),
                    INITIAL_SAMPLES as nat,
                ).0,
        ),
        state: rng::state_after(s0, INITIAL_SAMPLES as nat * c.n()),
    }
}

/// Keeps the cheaper of `best` and `candidate` for `dst`; `best` among equals.
pub open spec fn cheaper(c: Problem, dst: int, best: usize, candidate: usize) -> usize {
    if c.at(dst, candidate as int) < c.at(dst, best as int) {
        candidate
    } else {
        best
    }
}

/// The position of a grid of side `s` nearest to `(x, y)`.
pub open spec fn nearest_on_grid(x: int, y: int, s: int) -> usize {
    (clamped(y, 0, s - 1) * s + clamped(x, 0, s - 1)) as usize
}

/// The better of `best` and what the neighbour at the given offset suggests:
/// the source displaced from `dst` as its own is from it.
pub open spec fn propagated(
    c: Problem,
    s: int,
    a: Seq<usize>,
    dst: int,
    best: usize,
    dx: int,
    dy: int,
) -> usize {
    let x = dst % s + dx;
    let y = dst / s + dy;
    if 0 <= x < s && 0 <= y < s {
        let src = a[y * s + x] as int;
        cheaper(
            c,
            dst,
            best,
            nearest_on_grid(dst % s + (src % s - x), dst / s + (src / s - y), s),
        )
    } else {
        best
    }
}

/// The offset drawn from `state` for a radius.
pub open spec fn drawn_offset(state: u64, radius: int) -> int {
    -radius + rng::draw32(state) as int % (2 * radius + 1)
}

/// The best after `k` random attempts around `centre`.
pub open spec fn attempted(
    c: Problem,
    s: int,
    dst: int,
    best: usize,
    centre: int,
    radius: int,
    state: u64,
    k: nat,
) -> usize
    decreases k,
{
    if k == 0 {
        best
    } else {
        let before = attempted(c, s, dst, best, centre, radius, state, (k - 1) as nat);
        let rx = drawn_offset(rng::state_after(state, (2 * (k - 1)) as nat), radius);
        let ry = drawn_offset(rng::state_after(state, (2 * (k - 1) + 1) as nat), radius);
        cheaper(c, dst, before, nearest_on_grid(centre % s + rx, centre / s + ry, s))
    }
}

/// Random search at the given radius and at its halves.
pub open spec fn shrinking(
    c: Problem,
    s: int,
    dst: int,
    best: usize,
    radius: nat,
    state: u64,
) -> (usize, u64)
    decreases radius,
{
    if radius == 0 {
        (best, state)
    } else {
        let next = attempted(
            c,
            s,
            dst,
            best,
            best as int,
            radius as int,
            state,
            RANDOM_ATTEMPTS as nat,
        );
        shrinking(
            c,
            s,
            dst,
            next,
            radius / 2,
            rng::state_after(state, 2 * (RANDOM_ATTEMPTS as nat)),
        )
    }
}

/// The first radius: half the side, at least one.
pub open spec fn first_radius(s: int) -> nat {
    if s / 2 < 1 {
        1
    } else {
        (s / 2) as nat
    }
}

/// Target `dst` improves its choice. In a forward pass it asks the neighbours
/// above and to the left, in a backward pass those below and to the right.
pub open spec fn improved(c: Problem, s: int, w: Search, dst: int, forward: bool) -> Search {
    let step = if forward {
        -1int
    } else {
        1
    };
    let vertical = propagated(c, s, w.a, dst, w.a[dst], 0, step);
    let horizontal = propagated(c, s, w.a, dst, vertical, step, 0);
    let (best, state) = shrinking(c, s, dst, horizontal, first_radius(s), w.state);
    Search { a: w.a.update(dst, best), state }
}

/// The first `k` targets in the order of the pass improve their choice.
pub open spec fn passed(c: Problem, s: int, w: Search, forward: bool, k: nat) -> Search
    decreases k,
{
    if k == 0 {
        w
    } else {
        let dst = if forward {
            k - 1
        } else {
            c.n() - k
        };
        improved(c, s, passed(c, s, w, forward, (k - 1) as nat), dst, forward)
    }
}

/// The search after `iters` passes, which alternate in direction.
pub open spec fn searched(c: Problem, s: int, iters: nat) -> Search
    decreases iters,
{
    if iters == 0 {
        initial_search(c)
    } else {
        passed(
            c,
            s,
            searched(c, s, (iters - 1) as nat),
            (iters - 1) % 2 == 0,
            c.n(),
        )
    }
}

/// A grid problem of side `s` with computable costs.
pub open spec fn searchable(c: Problem, s: int) -> bool {
    &&& c.within(i64::MAX as int)
    &&& c.n() == s * s
    &&& 0 <= s <= 65535
}

/// Every choice is a source of the problem.
pub open spec fn in_range(c: Problem, a: Seq<usize>) -> bool {
    &&& a.len() == c.n()
    &&& forall|i: int| 0 <= i < a.len() ==> (#[trigger] a[i]) < c.n()
}

/// The sum of what the choices cost, counting every target on its own.
pub open spec fn raw_cost(c: Problem, a: Seq<usize>) -> int {
    perm::sum_to(|d: int| c.at(d, a[d] as int), a.len())
}

proof fn lemma_nearest_sample(c: Problem, dst: int, state: u64, k: nat)
    requires
        c.n() > 0,
    ensures
        nearest_sample(c, dst, state, k).0 < c.n(),
    decreases k,
{
    if k > 0 {
        lemma_nearest_sample(c, dst, state, (k - 1) as nat);
    }
}

proof fn lemma_on_grid(x: int, y: int, s: int)
    requires
        0 < s <= 65535,
    ensures
        nearest_on_grid(x, y, s) < s * s,
        nearest_on_grid(x, y, s) == clamped(y, 0, s - 1) * s + clamped(x, 0, s - 1),
        0 <= clamped(y, 0, s - 1) * s <= 65535 * 65535,
{
    let a = clamped(x, 0, s - 1);
    let b = clamped(y, 0, s - 1);
    assert(0 <= b * s + a < s * s && 0 <= b * s <= 65535 * 65535 && s * s <= 65535 * 65535)
        by (nonlinear_arith)
        requires
            0 <= a < s,
            0 <= b < s,
            s <= 65535,
    ;
}

proof fn lemma_propagated(
    c: Problem,
    s: int,
    a: Seq<usize>,
    dst: int,
    best: usize,
    dx: int,
    dy: int,
)
    requires
        searchable(c, s),
        0 < s,
        best < c.n(),
    ensures
        propagated(c, s, a, dst, best, dx, dy) < c.n(),
        c.at(dst, propagated(c, s, a, dst, best, dx, dy) as int) <= c.at(dst, best as int),
{
    let x = dst % s + dx;
    let y = dst / s + dy;
    let src = a[y * s + x] as int;
    lemma_on_grid(dst % s + (src % s - x), dst / s + (src / s - y), s);
}

proof fn lemma_attempted(
    c: Problem,
    s: int,
    dst: int,
    best: usize,
    centre: int,
    radius: int,
    state: u64,
    k: nat,
)
    requires
        searchable(c, s),
        0 < s,
        best < c.n(),
    ensures
        attempted(c, s, dst, best, centre, radius, state, k) < c.n(),
        c.at(dst, attempted(c, s, dst, best, centre, radius, state, k) as int) <= c.at(
            dst,
            best as int,
        ),
    decreases k,
{
    if k > 0 {
        lemma_attempted(c, s, dst, best, centre, radius, state, (k - 1) as nat);
        let rx = drawn_offset(rng::state_after(state, (2 * (k - 1)) as nat), radius);
        let ry = drawn_offset(rng::state_after(state, (2 * (k - 1) + 1) as nat), radius);
        lemma_on_grid(centre % s + rx, centre / s + ry, s);
    }
}

proof fn lemma_shrinking(c: Problem, s: int, dst: int, best: usize, radius: nat, state: u64)
    requires
        searchable(c, s),
        0 < s,
        best < c.n(),
    ensures
        shrinking(c, s, dst, best, radius, state).0 < c.n(),
        c.at(dst, shrinking(c, s, dst, best, radius, state).0 as int) <= c.at(dst, best as int),
    decreases radius,
{
    if radius > 0 {
        let k = RANDOM_ATTEMPTS as nat;
        lemma_attempted(c, s, dst, best, best as int, radius as int, state, k);
        lemma_shrinking(
            c,
            s,
            dst,
            attempted(c, s, dst, best, best as int, radius as int, state, k),
            radius / 2,
            rng::state_after(state, 2 * k),
        );
    }
}

proof fn lemma_improved(c: Problem, s: int, w: Search, dst: int, forward: bool)
    requires
        searchable(c, s),
        in_range(c, w.a),
        0 <= dst < c.n(),
    ensures
        in_range(c, improved(c, s, w, dst, forward).a),
        raw_cost(c, improved(c, s, w, dst, forward).a) <= raw_cost(c, w.a),
{
    assert(s > 0) by (nonlinear_arith)
        requires
            0 <= dst < s * s,
            0 <= s,
    ;
    let step = if forward {
        -1int
    } else {
        1
    };
    let vertical = propagated(c, s, w.a, dst, w.a[dst], 0, step);
    lemma_propagated(c, s, w.a, dst, w.a[dst], 0, step);
    lemma_propagated(c, s, w.a, dst, vertical, step, 0);
    let horizontal = propagated(c, s, w.a, dst, vertical, step, 0);
    lemma_shrinking(c, s, dst, horizontal, first_radius(s), w.state);
    let b = improved(c, s, w, dst, forward).a;
    let f = |d: int| c.at(d, w.a[d] as int);
    let g = |d: int| c.at(d, b[d] as int);
    perm::lemma_sum_update(f, g, c.n(), dst);
}

proof fn lemma_passed(c: Problem, s: int, w: Search, forward: bool, k: nat)
    requires
        searchable(c, s),
        in_range(c, w.a),
        k <= c.n(),
    ensures
        in_range(c, passed(c, s, w, forward, k).a),
        raw_cost(c, passed(c, s, w, forward, k).a) <= raw_cost(c, w.a),
    decreases k,
{
    if k > 0 {
        lemma_passed(c, s, w, forward, (k - 1) as nat);
        let dst = if forward {
            k - 1
        } else {
            c.n() - k
        };
        lemma_improved(c, s, passed(c, s, w, forward, (k - 1) as nat), dst, forward);
    }
}

proof fn lemma_searched(c: Problem, s: int, iters: nat)
    requires
        searchable(c, s),
    ensures
        in_range(c, searched(c, s, iters).a),
    decreases iters,
{
    if iters == 0 {
        let a = initial_search(c).a;
        assert forall|d: int| 0 <= d < a.len() implies (#[trigger] a[d]) < c.n() by {
            lemma_nearest_sample(
                c,
                d,
                rng::state_after(rng::seeded_state(SEARCH_SEED), (INITIAL_SAMPLES * d) as nat),
                INITIAL_SAMPLES as nat,
            );
        }
    } else {
        lemma_searched(c, s, (iters - 1) as nat);
        lemma_passed(
            c,
            s,
            searched(c, s, (iters - 1) as nat),
            (iters - 1) % 2 == 0,
            c.n(),
        );
    }
}

/// More passes never make the choices more expensive.
pub proof fn lemma_more_passes_no_worse(c: Problem, s: int, fewer: nat, more: nat)
    requires
        searchable(c, s),
        fewer <= more,
    ensures
        raw_cost(c, searched(c, s, more).a) <= raw_cost(c, searched(c, s, fewer).a),
    decreases more,
{
    if fewer < more {
        lemma_more_passes_no_worse(c, s, fewer, (more - 1) as nat);
        lemma_searched(c, s, (more - 1) as nat);
        lemma_passed(c, s, searched(c, s, (more - 1) as nat), (more - 1) % 2 == 0, c.n());
    }
}

/// The cheaper source for `dst`; `best` among equals.
fn keep_cheaper(cost: &CostLookup, dst: usize, best: usize, candidate: usize) -> (r: usize)
    requires
        cost@.within(i64::MAX as int),
        dst < cost@.n(),
        best < cost@.n(),
        candidate < cost@.n(),
    ensures
        r == cheaper(cost@, dst as int, best, candidate),
{
    proof {
        assert(-i64::MAX <= cost@.at(dst as int, best as int) <= i64::MAX);
        assert(-i64::MAX <= cost@.at(dst as int, candidate as int) <= i64::MAX);
    }
    if cost.cost(dst, candidate) < cost.cost(dst, best) {
        candidate
    } else {
        best
    }
}

fn propagate(
    cost: &CostLookup,
    sidelen: u32,
    assignments: &Vec<usize>,
    dst: usize,
    best: usize,
    dx: i64,
    dy: i64,
) -> (r: usize)
    requires
        searchable(cost@, sidelen as int),
        in_range(cost@, assignments@),
        dst < cost@.n(),
        best < cost@.n(),
        -1 <= dx <= 1,
        -1 <= dy <= 1,
    ensures
        r == propagated(
            cost@,
            sidelen as int,
            assignments@,
            dst as int,
            best,
            dx as int,
            dy as int,
        ),
        r < cost@.n(),
{
    let ghost s = sidelen as int;
    proof {
        assert(s > 0) by (nonlinear_arith)
            requires
                0 <= dst < s * s,
                0 <= s,
        ;
        cost::lemma_grid_pos(dst as int, s);
        lemma_propagated(cost@, s, assignments@, dst as int, best, dx as int, dy as int);
    }
    let px: i64 = (dst % sidelen as usize) as i64;
    let py: i64 = (dst / sidelen as usize) as i64;
    let x: i64 = px + dx;
    let y: i64 = py + dy;
    let side: i64 = sidelen as i64;
    if x < 0 || y < 0 || x >= side || y >= side {
        return best;
    }
    proof {
        assert(0 <= y * s <= 65535 * 65535 && y * s + x < s * s) by (nonlinear_arith)
            requires
                0 <= x < s,
                0 <= y < s,
                s <= 65535,
        ;
    }
    let src: usize = assignments[(y * side + x) as usize];
    proof {
        cost::lemma_grid_pos(src as int, s);
        lemma_on_grid(
            dst as int % s + (src as int % s - x),
            dst as int / s + (src as int / s - y),
            s,
        );
    }
    let cx: i64 = clamp(px + ((src % sidelen as usize) as i64 - x), 0, side - 1);
    let cy: i64 = clamp(py + ((src / sidelen as usize) as i64 - y), 0, side - 1);
    keep_cheaper(cost, dst, best, (cy * side + cx) as usize)
}

/// Runs the search and returns the choices of all targets; several targets
/// may choose the same source.
pub fn patchmatch_search(cost: &CostLookup, sidelen: u32, iters: usize) -> (r: Vec<usize>)
    requires
        cost@.n() > 0 ==> searchable(cost@, sidelen as int),
    ensures
        cost@.n() == 0 ==> r@.len() == 0,
        cost@.n() > 0 ==> r@ == searched(cost@, sidelen as int, iters as nat).a && in_range(
            cost@,
            r@,
        ),
{
    let n: usize = cost.n_dst();
    if n == 0 {
        return Vec::new();
    }
    let ghost c = cost@;
    let ghost s = sidelen as int;
    let ghost s0 = rng::seeded_state(SEARCH_SEED);
    let mut generator = rng::with_seed(SEARCH_SEED);
    let mut assignments: Vec<usize> = Vec::with_capacity(n);
    let mut dst: usize = 0;
    while dst < n
        invariant
            c == cost@,
            n == c.n(),
            c.source.len() == c.n(),
            dst <= n,
            s0 == rng::seeded_state(SEARCH_SEED),
            rng::state_of(generator) == rng::state_after(s0, (INITIAL_SAMPLES * dst) as nat),
            assignments@.len() == dst,
            forall|d: int|
                0 <= d < dst ==> (#[trigger] assignments@[d]) == initial_search(c).a[d],
        decreases n - dst,
    {
        let color: Rgb = cost.target[dst];
        let ghost base = rng::state_after(s0, (INITIAL_SAMPLES * dst) as nat);
        let mut best: usize = 0;
        let mut best_dist: i64 = i64::MAX;
        let mut j: usize = 0;
        while j < INITIAL_SAMPLES
            invariant
                c == cost@,
                n == c.n(),
                n > 0,
                c.source.len() == c.n(),
                color == c.target[dst as int],
                j <= INITIAL_SAMPLES,
                rng::state_of(generator) == rng::state_after(base, j as nat),
                (best, best_dist as int) == nearest_sample(c, dst as int, base, j as nat),
            decreases INITIAL_SAMPLES - j,
        {
            let src: usize = rng::below_u64(&mut generator, n as u64) as usize;
            let dist: i64 = cost::color_dist(color, cost.source[src]);
            if dist < best_dist {
                best_dist = dist;
                best = src;
            }
            j += 1;
        }
        proof {
            rng::lemma_state_after(s0, (INITIAL_SAMPLES * dst) as nat, INITIAL_SAMPLES as nat);
        }
        assignments.push(best);
        dst += 1;
    }
    let first: i32 = if sidelen / 2 < 1 {
        1
    } else {
        (sidelen / 2) as i32
    };
    let ghost mut w = initial_search(c);
    proof {
        assert(assignments@ =~= w.a);
        lemma_searched(c, s, 0);
    }
    let mut iter: usize = 0;
    while iter < iters
        invariant
            c == cost@,
            s == sidelen,
            n == c.n(),
            searchable(c, s),
            first == first_radius(s),
            iter <= iters,
            w == searched(c, s, iter as nat),
            in_range(c, w.a),
            assignments@ == w.a,
            rng::state_of(generator) == w.state,
        decreases iters - iter,
    {
        let forward = iter % 2 == 0;
        let step: i64 = if forward {
            -1
        } else {
            1
        };
        let mut k: usize = 0;
        while k < n
            invariant
                c == cost@,
                s == sidelen,
                n == c.n(),
                searchable(c, s),
                first == first_radius(s),
                in_range(c, w.a),
                step == (if forward {
                    -1int
                } else {
                    1
                }),
                k <= n,
                assignments@ == passed(c, s, w, forward, k as nat).a,
                rng::state_of(generator) == passed(c, s, w, forward, k as nat).state,
            decreases n - k,
        {
            let dst: usize = if forward {
                k
            } else {
                n - 1 - k
            };
            let ghost v = passed(c, s, w, forward, k as nat);
            proof {
                lemma_passed(c, s, w, forward, k as nat);
                assert(s > 0) by (nonlinear_arith)
                    requires
                        0 <= dst < s * s,
                        0 <= s,
                ;
            }
            let mut best: usize = assignments[dst];
            best = propagate(cost, sidelen, &assignments, dst, best, 0, step);
            best = propagate(cost, sidelen, &assignments, dst, best, step, 0);
            let ghost goal = shrinking(c, s, dst as int, best, first_radius(s), v.state);
            let mut radius: i32 = first;
            while radius > 0
                invariant
                    c == cost@,
                    s == sidelen,
                    n == c.n(),
                    0 < s,
                    searchable(c, s),
                    dst < n,
                    best < n,
                    0 <= radius <= 65535,
                    goal == shrinking(
                        c,
                        s,
                        dst as int,
                        best,
                        radius as nat,
                        rng::state_of(generator),
                    ),
                decreases radius,
            {
                let ghost centre = best;
                let ghost base = rng::state_of(generator);
                proof {
                    cost::lemma_grid_pos(best as int, s);
                }
                let bx: i64 = (best % sidelen as usize) as i64;
                let by: i64 = (best / sidelen as usize) as i64;
                let mut j: usize = 0;
                while j < RANDOM_ATTEMPTS
                    invariant
                        c == cost@,
                        s == sidelen,
                        n == c.n(),
                        0 < s,
                        searchable(c, s),
                        dst < n,
                        best < n,
                        centre < n,
                        bx == centre as int % s,
                        by == centre as int / s,
                        0 <= bx < s,
                        0 <= by < s,
                        0 < radius <= 65535,
                        j <= RANDOM_ATTEMPTS,
                        rng::state_of(generator) == rng::state_after(base, (2 * j) as nat),
                        best == attempted(
                            c,
                            s,
                            dst as int,
                            centre,
                            centre as int,
                            radius as int,
                            base,
                            j as nat,
                        ),
                    decreases RANDOM_ATTEMPTS - j,
                {
                    let rx: i32 = rng::between_i32(&mut generator, -radius, radius + 1);
                    let ry: i32 = rng::between_i32(&mut generator, -radius, radius + 1);
                    proof {
                        lemma_on_grid(bx + rx, by + ry, s);
                        let once = rng::state_after(base, (2 * j + 1) as nat);
                        assert(rng::state_after(base, (2 * j + 2) as nat) == rng::next_state(once));
                    }
                    let cx: i64 = clamp(bx + rx as i64, 0, sidelen as i64 - 1);
                    let cy: i64 = clamp(by + ry as i64, 0, sidelen as i64 - 1);
                    best = keep_cheaper(
                        cost,
                        dst,
                        best,
                        (cy * sidelen as i64 + cx) as usize,
                    );
                    j += 1;
                }
                radius = radius / 2;
            }
            proof {
                lemma_shrinking(c, s, dst as int, best, 0, v.state);
            }
            assignments.set(dst, best);
            proof {
                assert(assignments@ =~= improved(c, s, v, dst as int, forward).a);
            }
            k += 1;
        }
        proof {
            lemma_passed(c, s, w, forward, n as nat);
            w = passed(c, s, w, forward, n as nat);
        }
        iter += 1;
    }
    assignments
}

/// `set` with the first `k` positions of the square around `raw`, each moved
/// onto the grid.
pub open spec fn with_clamped_square(set: Seq<usize>, raw: int, s: int, k: nat) -> Seq<usize>
    decreases k,
{
    if k == 0 {
        set
    } else {
        candidates::with_source(
            with_clamped_square(set, raw, s, (k - 1) as nat),
            nearest_on_grid(
                raw % s + (k - 1) % 7 - REPAIR_RADIUS,
                raw / s + (k - 1) / 7 - REPAIR_RADIUS,
                s,
            ),
        )
    }
}

/// The sources that the repair may give to a target that chose `raw`.
pub open spec fn repair_list(raw: usize, s: int) -> Seq<usize> {
    with_clamped_square(candidates::with_source(Seq::empty(), raw), raw as int, s, 49)
}

pub open spec fn repair_lists(raw: Seq<usize>, n: nat, s: int) -> Seq<Seq<usize>> {
    Seq::new(n, |d: int| repair_list(raw[d], s))
}

/// Repairs choices with collisions to a permutation: every target may take its
/// choice or a source near it, and a sparse auction resolves the collisions.
pub fn repair_permutation(cost: &CostLookup, raw: &[usize], sidelen: u32) -> (r: Vec<usize>)
    requires
        cost@.n() > 0 ==> {
            &&& cost@.within(i64::MAX as int)
            &&& 0 < sidelen <= 65535
            &&& raw@.len() >= cost@.n()
            &&& forall|d: int| 0 <= d < cost@.n() ==> (#[trigger] raw@[d]) < sidelen * sidelen
        },
    ensures
        cost@.n() == 0 ==> r@.len() == 0,
        cost@.n() > 0 ==> {
            &&& perm::is_perm(r@, cost@.n())
            &&& r@ == auction::auction_assignment(
                cost@,
                repair_lists(raw@, cost@.n(), sidelen as int),
                None,
                REPAIR_PHASES as nat,
            )
        },
{
    let n: usize = cost.n_dst();
    if n == 0 {
        return Vec::new();
    }
    let ghost s = sidelen as int;
    let mut lists: Vec<Vec<usize>> = Vec::with_capacity(n);
    let mut dst: usize = 0;
    while dst < n
        invariant
            n == cost@.n(),
            s == sidelen,
            0 < s <= 65535,
            raw@.len() >= n,
            forall|d: int| 0 <= d < n ==> (#[trigger] raw@[d]) < s * s,
            dst <= n,
            lists@.len() == dst,
            forall|d: int| 0 <= d < dst ==> (#[trigger] lists@[d])@ == repair_list(raw@[d], s),
        decreases n - dst,
    {
        let src: usize = raw[dst];
        let mut set: Vec<usize> = Vec::with_capacity(16);
        candidates::add_source(&mut set, src);
        let ghost own = set@;
        proof {
            cost::lemma_grid_pos(src as int, s);
        }
        let sx: i64 = (src % sidelen as usize) as i64;
        let sy: i64 = (src / sidelen as usize) as i64;
        let mut k: i64 = 0;
        while k < 49
            invariant
                0 <= k <= 49,
                s == sidelen,
                0 < s <= 65535,
                sx == src as int % s,
                sy == src as int / s,
                0 <= sx < s,
                0 <= sy < s,
                set@ == with_clamped_square(own, src as int, s, k as nat),
            decreases 49 - k,
        {
            proof {
                lemma_on_grid(
                    sx + k as int % 7 - REPAIR_RADIUS,
                    sy + k as int / 7 - REPAIR_RADIUS,
                    s,
                );
            }
            let nx: i64 = clamp(sx + k % 7 - REPAIR_RADIUS, 0, sidelen as i64 - 1);
            let ny: i64 = clamp(sy + k / 7 - REPAIR_RADIUS, 0, sidelen as i64 - 1);
            candidates::add_source(&mut set, (ny * sidelen as i64 + nx) as usize);
            k += 1;
        }
        lists.push(set);
        dst += 1;
    }
    proof {
        assert(auction::lists(lists@) =~= repair_lists(raw@, n as nat, s));
    }
    auction::sparse_auction(cost, &lists, None, REPAIR_PHASES)
}

/// The assignment that PatchMatch with repair arrives at.
pub open spec fn patchmatch_assignment(c: Problem, s: int) -> Seq<usize> {
    if c.n() == 0 {
        Seq::empty()
    } else if c.n() == 1 {
        seq![0usize]
    } else {
        auction::auction_assignment(
            c,
            repair_lists(searched(c, s, PATCHMATCH_ITERS as nat).a, c.n(), s),
            None,
            REPAIR_PHASES as nat,
        )
    }
}

/// PatchMatch with repair gives a permutation.
pub proof fn lemma_patchmatch_is_permutation(c: Problem, s: int)
    requires
        c.n() <= usize::MAX,
    ensures
        perm::is_perm(patchmatch_assignment(c, s), c.n()),
{
    if c.n() > 1 {
        auction::lemma_auction_is_permutation(
            c,
            repair_lists(searched(c, s, PATCHMATCH_ITERS as nat).a, c.n(), s),
            None,
            REPAIR_PHASES as nat,
        );
    }
}

/// Runs the search and the repair and returns the assignment.
pub fn solve(cost: &CostLookup, sidelen: u32) -> (r: Vec<usize>)
    requires
        cost@.n() > 1 ==> searchable(cost@, sidelen as int),
    ensures
        perm::is_perm(r@, cost@.n()),
        r@ == patchmatch_assignment(cost@, sidelen as int),
{
    let n: usize = cost.n_dst();
    if n == 0 {
        let r: Vec<usize> = Vec::new();
        assert(r@ =~= Seq::empty());
        return r;
    }
    if n == 1 {
        let r: Vec<usize> = vec![0];
        assert(r@ =~= seq![0usize]);
        return r;
    }
    let raw = patchmatch_search(cost, sidelen, PATCHMATCH_ITERS);
    proof {
        let s = sidelen as int;
        assert(s > 0) by (nonlinear_arith)
            requires
                1 < s * s,
                0 <= s,
        ;
    }
    repair_permutation(cost, &raw, sidelen)
}

/// `src` lies within three rows and three columns of `centre`.
pub open spec fn within_reach(centre: int, src: int, s: int) -> bool {
    &&& -3 <= src % s - centre % s <= 3
    &&& -3 <= src / s - centre / s <= 3
}

proof fn lemma_grid_parts(x: int, y: int, s: int)
    requires
        0 <= x < s,
        0 <= y,
    ensures
        (y * s + x) % s == x,
        (y * s + x) / s == y,
{
    vstd::arithmetic::div_mod::lemma_fundamental_div_mod_converse(y * s + x, s, y, x);
}

proof fn lemma_clamped_square(set: Seq<usize>, raw: int, s: int, k: nat)
    requires
        candidates::ascending(set),
        0 < s <= 65535,
        0 <= raw < s * s,
        k <= 49,
    ensures
        ({
            let r = with_clamped_square(set, raw, s, k);
            &&& candidates::ascending(r)
            &&& forall|u: usize| set.contains(u) ==> #[trigger] r.contains(u)
            &&& forall|u: usize| #[trigger]
                r.contains(u) ==> set.contains(u) || (u < s * s && within_reach(raw, u as int, s))
            &&& forall|u: usize|
                {
                    &&& u < s * s
                    &&& within_reach(raw, u as int, s)
                    &&& (u as int / s - raw / s + 3) * 7 + (u as int % s - raw % s + 3) < k
                } ==> #[trigger] r.contains(u)
        }),
    decreases k,
{
    if k > 0 {
        lemma_clamped_square(set, raw, s, (k - 1) as nat);
        let b = with_clamped_square(set, raw, s, (k - 1) as nat);
        let x = raw % s + (k - 1) % 7 - REPAIR_RADIUS;
        let y = raw / s + (k - 1) / 7 - REPAIR_RADIUS;
        let v = nearest_on_grid(x, y, s);
        candidates::lemma_with_source(b, v);
        lemma_on_grid(x, y, s);
        cost::lemma_grid_pos(raw, s);
        lemma_grid_parts(clamped(x, 0, s - 1), clamped(y, 0, s - 1), s);
        let r = with_clamped_square(set, raw, s, k);
        assert(within_reach(raw, v as int, s));
        assert forall|u: usize|
            {
                &&& u < s * s
                &&& within_reach(raw, u as int, s)
                &&& (u as int / s - raw / s + 3) * 7 + (u as int % s - raw % s + 3) < k
            } implies #[trigger] r.contains(u) by {
            let dx = u as int % s - raw % s + 3;
            let dy = u as int / s - raw / s + 3;
            if dy * 7 + dx == k - 1 {
                lemma_grid_parts(dx, dy, 7);
                cost::lemma_grid_pos(u as int, s);
                vstd::arithmetic::div_mod::lemma_fundamental_div_mod(u as int, s);
                assert(x == u as int % s && y == u as int / s);
                assert(s * (u as int / s) == (u as int / s) * s) by (nonlinear_arith);
                assert(v == u);
            } else {
                assert(b.contains(u));
            }
        }
    }
}

/// The repair may give a target that chose `raw` exactly the sources within three rows
/// and three columns of it; `raw` is one of them.
pub proof fn lemma_repair_reaches(raw: usize, s: int)
    requires
        0 < s <= 65535,
        raw < s * s,
    ensures
        forall|u: usize| #[trigger]
            repair_list(raw, s).contains(u) <==> u < s * s && within_reach(
                raw as int,
                u as int,
                s,
            ),
        repair_list(raw, s).contains(raw),
{
    let own = candidates::with_source(Seq::empty(), raw);
    candidates::lemma_with_source(Seq::empty(), raw);
    lemma_clamped_square(own, raw as int, s, 49);
    let r = repair_list(raw, s);
    assert(own.contains(raw));
    assert forall|u: usize| #[trigger] r.contains(u) <==> u < s * s && within_reach(
        raw as int,
        u as int,
        s,
    ) by {
        if u < s * s && within_reach(raw as int, u as int, s) {
            let dx = u as int % s - raw as int % s + 3;
            let dy = u as int / s - raw as int / s + 3;
            assert(dy * 7 + dx < 49);
        }
    }
}

/// The repair around choices `raw` resolves the collisions by an auction in which the
/// candidates of a target are the sources within three rows and three columns of its
/// choice, whichever way they are listed.
pub proof fn lemma_repair_is_local(c: Problem, raw: Seq<usize>, s: int, lists: Seq<Seq<usize>>)
    requires
        0 < s <= 65535,
        raw.len() >= c.n(),
        lists.len() == c.n(),
        forall|d: int| 0 <= d < c.n() ==> (#[trigger] raw[d]) < s * s,
        forall|d: int, u: usize|
            0 <= d < c.n() ==> (#[trigger] lists[d].contains(u) <==> u < s * s && within_reach(
                raw[d] as int,
                u as int,
                s,
            )),
    ensures
        auction::auction_assignment(
            c,
            repair_lists(raw, c.n(), s),
            None,
            REPAIR_PHASES as nat,
        ) == auction::auction_assignment(c, lists, None, 3),
        forall|d: int| 0 <= d < c.n() ==> lists[d].contains(#[trigger] raw[d]),
{
    let made = repair_lists(raw, c.n(), s);
    assert forall|d: int, u: usize| 0 <= d < made.len() implies (#[trigger] made[d].contains(u)
        <==> lists[d].contains(u)) by {
        lemma_repair_reaches(raw[d], s);
    }
    auction::lemma_same_candidates(c, made, lists, None, 3);
}

/// The assignment of PatchMatch is the repair of what four passes of the search chose:
/// an auction in which every target may take its own choice and the sources within
/// three rows and three columns of it. A target that is held when the bidding ends
/// takes one of these; only the others are filled with what is left.
pub proof fn lemma_repair_follows_the_search(c: Problem, s: int, lists: Seq<Seq<usize>>)
    requires
        searchable(c, s),
        c.n() > 1,
        lists.len() == c.n(),
        forall|d: int, u: usize|
            0 <= d < c.n() ==> (#[trigger] lists[d].contains(u) <==> u < c.n() && within_reach(
                searched(c, s, 4).a[d] as int,
                u as int,
                s,
            )),
    ensures
        patchmatch_assignment(c, s) == auction::auction_assignment(c, lists, None, 3),
        forall|d: int| 0 <= d < c.n() ==> (#[trigger] lists[d]).contains(searched(c, s, 4).a[d]),
        forall|d: int|
            0 <= d < c.n() && market::market(c, lists, None, 3).holder[d] != auction::NOBODY ==> {
                &&& (#[trigger] patchmatch_assignment(c, s)[d]) == market::market(
                    c,
                    lists,
                    None,
                    3,
                ).holder[d]
                &&& within_reach(
                    searched(c, s, 4).a[d] as int,
                    patchmatch_assignment(c, s)[d] as int,
                    s,
                )
            },
{
    assert(s > 0) by (nonlinear_arith)
        requires
            1 < s * s,
            0 <= s,
    ;
    lemma_searched(c, s, 4);
    assert(c.n() <= 65535 * 65535) by (nonlinear_arith)
        requires
            c.n() == s * s,
            0 <= s <= 65535,
    ;
    let raw = searched(c, s, 4).a;
    lemma_repair_is_local(c, raw, s, lists);
    float::lemma_exact_representable(0);
    assert forall|d: int|
        0 <= d < c.n() && market::market(c, lists, None, 3).holder[d] != auction::NOBODY implies {
        &&& (#[trigger] patchmatch_assignment(c, s)[d]) == market::market(
            c,
            lists,
            None,
            3,
        ).holder[d]
        &&& within_reach(raw[d] as int, patchmatch_assignment(c, s)[d] as int, s)
    } by {
        market::lemma_held_targets_take_candidates(c, lists, None, 3, d);
    }
    assert forall|d: int| 0 <= d < c.n() implies (#[trigger] lists[d]).contains(raw[d]) by {
        assert(raw[d] < s * s);
    }
}

/// The source below `n` that the draw `j` after `state` gives.
pub open spec fn drawn(state: u64, j: nat, n: nat) -> int {
    rng::draw64(rng::state_after(state, j)) as int % n as int
}

/// The first choice of a target is the nearest in colour of the sixteen sources that
/// are drawn for it.
pub proof fn lemma_first_choice_is_nearest(c: Problem, s: int, d: int)
    requires
        0 <= d < c.n(),
        c.n() <= usize::MAX,
    ensures
        ({
            let state = rng::state_after(rng::seeded_state(42424), (16 * d) as nat);
            let first = searched(c, s, 0).a[d];
            &&& forall|j: nat|
                j < 16 ==> cost::color_distance(c.target[d], c.source[first as int])
                    <= cost::color_distance(c.target[d], c.source[#[trigger] drawn(state, j, c.n())])
            &&& exists|j: nat| j < 16 && first == #[trigger] drawn(state, j, c.n())
        }),
{
    let state = rng::state_after(rng::seeded_state(42424), (16 * d) as nat);
    lemma_nearest_of_samples(c, d, state, 16);
}

proof fn lemma_nearest_of_samples(c: Problem, dst: int, state: u64, k: nat)
    requires
        0 <= dst < c.n() <= usize::MAX,
        0 < k,
    ensures
        ({
            let r = nearest_sample(c, dst, state, k);
            &&& r.1 == cost::color_distance(c.target[dst], c.source[r.0 as int])
            &&& forall|j: nat|
                j < k ==> r.1 <= cost::color_distance(
                    c.target[dst],
                    c.source[#[trigger] drawn(state, j, c.n())],
                )
            &&& exists|j: nat| j < k && r.0 == #[trigger] drawn(state, j, c.n())
        }),
    decreases k,
{
    let r = nearest_sample(c, dst, state, k);
    let b = nearest_sample(c, dst, state, (k - 1) as nat);
    let last = drawn(state, (k - 1) as nat, c.n());
    cost::lemma_distance_bounds((0, 0), (0, 0), c.target[dst], c.source[last]);
    assert(0 <= last < c.n());
    if k > 1 {
        lemma_nearest_of_samples(c, dst, state, (k - 1) as nat);
        let j0 = choose|j: nat| j < k - 1 && b.0 == #[trigger] drawn(state, j, c.n());
        assert(r.0 == drawn(state, j0, c.n()) || r.0 == last);
    } else {
        assert(b == (0usize, i64::MAX as int));
        assert(r.0 == last);
    }
}

/// What the neighbour `e` suggests to `d`: the source that lies from `d` as the
/// neighbour's own lies from the neighbour, moved onto the grid.
pub open spec fn suggested(a: Seq<usize>, d: int, e: int, s: int) -> usize {
    let src = a[e] as int;
    nearest_on_grid(d % s + src % s - e % s, d / s + src / s - e / s, s)
}

/// One step of a pass changes only the choice of its target, which gets no dearer and
/// is no dearer than what the neighbours before it suggest.
proof fn lemma_improved_choice(c: Problem, s: int, w: Search, dst: int, forward: bool)
    requires
        searchable(c, s),
        in_range(c, w.a),
        0 <= dst < c.n(),
    ensures
        ({
            let b = improved(c, s, w, dst, forward).a;
            let cost = c.at(dst, b[dst] as int);
            &&& cost <= c.at(dst, w.a[dst] as int)
            &&& forall|d: int| 0 <= d < c.n() && d != dst ==> #[trigger] b[d] == w.a[d]
            &&& forward && dst % s > 0 ==> cost <= c.at(
                dst,
                suggested(w.a, dst, dst - 1, s) as int,
            )
            &&& forward && dst / s > 0 ==> cost <= c.at(
                dst,
                suggested(w.a, dst, dst - s, s) as int,
            )
            &&& !forward && dst % s < s - 1 ==> cost <= c.at(
                dst,
                suggested(w.a, dst, dst + 1, s) as int,
            )
            &&& !forward && dst / s < s - 1 ==> cost <= c.at(
                dst,
                suggested(w.a, dst, dst + s, s) as int,
            )
        }),
{
    assert(s > 0) by (nonlinear_arith)
        requires
            0 <= dst < s * s,
            0 <= s,
    ;
    let step = if forward {
        -1int
    } else {
        1
    };
    let vertical = propagated(c, s, w.a, dst, w.a[dst], 0, step);
    lemma_propagated(c, s, w.a, dst, w.a[dst], 0, step);
    lemma_propagated(c, s, w.a, dst, vertical, step, 0);
    let horizontal = propagated(c, s, w.a, dst, vertical, step, 0);
    lemma_shrinking(c, s, dst, horizontal, first_radius(s), w.state);
    cost::lemma_grid_pos(dst, s);
    let x = dst % s;
    let y = dst / s;
    vstd::arithmetic::div_mod::lemma_fundamental_div_mod(dst, s);
    assert(s * y == y * s) by (nonlinear_arith);
    assert((y + step) * s + x == dst + step * s) by (nonlinear_arith)
        requires
            dst == y * s + x,
    ;
    assert(y * s + (x + step) == dst + step);
    if 0 <= x + step < s {
        lemma_grid_parts(x + step, y, s);
    }
    if 0 <= y + step < s {
        lemma_grid_parts(x, y + step, s);
    }
    assert(step * s == (if forward { -s } else { s })) by (nonlinear_arith)
        requires
            step == (if forward { -1int } else { 1 }),
    ;
}

/// Where target `d` comes in the order of a pass.
pub open spec fn turn(n: nat, d: int, forward: bool) -> int {
    if forward {
        d
    } else {
        n - 1 - d
    }
}

/// Target `d` would not gain by what the neighbours before it in the pass suggest.
#[verifier::opaque]
pub open spec fn heeds_neighbours(
    c: Problem,
    s: int,
    a: Seq<usize>,
    d: int,
    forward: bool,
) -> bool {
    let cost = c.at(d, a[d] as int);
    if forward {
        &&& d % s > 0 ==> cost <= c.at(d, suggested(a, d, d - 1, s) as int)
        &&& d / s > 0 ==> cost <= c.at(d, suggested(a, d, d - s, s) as int)
    } else {
        &&& d % s < s - 1 ==> cost <= c.at(d, suggested(a, d, d + 1, s) as int)
        &&& d / s < s - 1 ==> cost <= c.at(d, suggested(a, d, d + s, s) as int)
    }
}

/// Nothing changes for `d` where its own choice and its neighbours' are the same.
proof fn lemma_heeds_same(
    c: Problem,
    s: int,
    a: Seq<usize>,
    b: Seq<usize>,
    d: int,
    dst: int,
    forward: bool,
)
    requires
        c.n() == s * s,
        0 < s <= 65535,
        0 <= d < s * s,
        a.len() == s * s,
        b.len() == s * s,
        forall|i: int| 0 <= i < s * s && i != dst ==> #[trigger] a[i] == b[i],
        a[d] == b[d],
        turn(c.n(), d, forward) <= turn(c.n(), dst, forward),
        heeds_neighbours(c, s, b, d, forward),
    ensures
        heeds_neighbours(c, s, a, d, forward),
{
    reveal(heeds_neighbours);
    cost::lemma_grid_pos(d, s);
    vstd::arithmetic::div_mod::lemma_fundamental_div_mod(d, s);
    let x = d % s;
    let y = d / s;
    if x > 0 {
        assert(d - 1 >= 0) by (nonlinear_arith)
            requires
                d == s * y + x,
                x > 0,
                y >= 0,
                s > 0,
        ;
        assert(forward ==> a[d - 1] == b[d - 1]);
    }
    if y > 0 {
        assert(d - s >= 0) by (nonlinear_arith)
            requires
                d == s * y + x,
                x >= 0,
                y > 0,
                s > 0,
        ;
        assert(forward ==> a[d - s] == b[d - s]);
    }
    if x < s - 1 {
        assert(d + 1 < s * s) by (nonlinear_arith)
            requires
                d == s * y + x,
                x < s - 1,
                y <= s - 1,
                s > 0,
        ;
        assert(!forward ==> a[d + 1] == b[d + 1]);
    }
    if y < s - 1 {
        assert(d + s < s * s) by (nonlinear_arith)
            requires
                d == s * y + x,
                x <= s - 1,
                y < s - 1,
                s > 0,
        ;
        assert(!forward ==> a[d + s] == b[d + s]);
    }
}

proof fn lemma_passed_choices(c: Problem, s: int, w: Search, forward: bool, k: nat)
    requires
        searchable(c, s),
        in_range(c, w.a),
        k <= c.n(),
    ensures
        ({
            let a = passed(c, s, w, forward, k).a;
            &&& forall|d: int|
                0 <= d < c.n() ==> c.at(d, (#[trigger] a[d]) as int) <= c.at(d, w.a[d] as int)
            &&& forall|d: int|
                0 <= d < c.n() && turn(c.n(), d, forward) < k ==> #[trigger] heeds_neighbours(
                    c,
                    s,
                    a,
                    d,
                    forward,
                )
        }),
    decreases k,
{
    if k > 0 {
        let dst = if forward {
            k - 1
        } else {
            c.n() - k
        };
        assert(s > 0) by (nonlinear_arith)
            requires
                0 <= dst < s * s,
                0 <= s,
        ;
        lemma_passed_choices(c, s, w, forward, (k - 1) as nat);
        let before = passed(c, s, w, forward, (k - 1) as nat);
        lemma_passed(c, s, w, forward, (k - 1) as nat);
        lemma_passed(c, s, w, forward, k);
        lemma_improved_choice(c, s, before, dst, forward);
        let a = passed(c, s, w, forward, k).a;
        let mixed = before.a.update(dst, a[dst]);
        assert(a =~= mixed);
        assert forall|d: int|
            0 <= d < c.n() && turn(c.n(), d, forward) < k implies #[trigger] heeds_neighbours(
            c,
            s,
            a,
            d,
            forward,
        ) by {
            if d != dst {
                assert(heeds_neighbours(c, s, before.a, d, forward));
                lemma_heeds_same(c, s, a, before.a, d, dst, forward);
            } else {
                lemma_own_turn(c, s, a, before.a, dst, forward);
            }
        }
        assert forall|d: int| 0 <= d < c.n() implies c.at(d, (#[trigger] a[d]) as int) <= c.at(
            d,
            w.a[d] as int,
        ) by {
            assert(c.at(d, before.a[d] as int) <= c.at(d, w.a[d] as int));
        }
    }
}

/// The neighbours of the target whose turn it is are as they were.
proof fn lemma_own_turn(
    c: Problem,
    s: int,
    a: Seq<usize>,
    b: Seq<usize>,
    d: int,
    forward: bool,
)
    requires
        c.n() == s * s,
        0 < s <= 65535,
        0 <= d < s * s,
        a.len() == s * s,
        b.len() == s * s,
        forall|i: int| 0 <= i < s * s && i != d ==> #[trigger] a[i] == b[i],
        ({
            let cost = c.at(d, a[d] as int);
            &&& forward && d % s > 0 ==> cost <= c.at(d, suggested(b, d, d - 1, s) as int)
            &&& forward && d / s > 0 ==> cost <= c.at(d, suggested(b, d, d - s, s) as int)
            &&& !forward && d % s < s - 1 ==> cost <= c.at(d, suggested(b, d, d + 1, s) as int)
            &&& !forward && d / s < s - 1 ==> cost <= c.at(d, suggested(b, d, d + s, s) as int)
        }),
    ensures
        heeds_neighbours(c, s, a, d, forward),
{
    reveal(heeds_neighbours);
    let own = b.update(d, a[d]);
    assert(a =~= own);
    cost::lemma_grid_pos(d, s);
    vstd::arithmetic::div_mod::lemma_fundamental_div_mod(d, s);
    let x = d % s;
    let y = d / s;
    if x > 0 {
        assert(d - 1 >= 0) by (nonlinear_arith)
            requires
                d == s * y + x,
                x > 0,
                y >= 0,
                s > 0,
        ;
        assert(a[d - 1] == b[d - 1]);
    }
    if y > 0 {
        assert(d - s >= 0) by (nonlinear_arith)
            requires
                d == s * y + x,
                x >= 0,
                y > 0,
                s > 0,
        ;
        assert(a[d - s] == b[d - s]);
    }
    if x < s - 1 {
        assert(d + 1 < s * s) by (nonlinear_arith)
            requires
                d == s * y + x,
                x < s - 1,
                y <= s - 1,
                s > 0,
        ;
        assert(a[d + 1] == b[d + 1]);
    }
    if y < s - 1 {
        assert(d + s < s * s) by (nonlinear_arith)
            requires
                d == s * y + x,
                x <= s - 1,
                y < s - 1,
                s > 0,
        ;
        assert(a[d + s] == b[d + s]);
    }
}

/// After a forward pass no target would gain by what its left or upper neighbour
/// suggests, after a backward pass by what its right or lower neighbour does. The
/// passes alternate, the first is forward.
pub proof fn lemma_pass_propagates(c: Problem, s: int, passes: nat, d: int)
    requires
        searchable(c, s),
        0 < passes,
        0 <= d < c.n(),
    ensures
        heeds_neighbours(c, s, searched(c, s, passes).a, d, passes % 2 == 1),
{
    let w = searched(c, s, (passes - 1) as nat);
    lemma_searched(c, s, (passes - 1) as nat);
    let forward = (passes - 1) % 2 == 0;
    let after = passed(c, s, w, forward, c.n());
    assert(heeds_neighbours(c, s, after.a, d, forward)) by {
        lemma_passed_choices(c, s, w, forward, c.n());
        assert(turn(c.n(), d, forward) < c.n());
    }
    assert(searched(c, s, passes) == after);
    assert(forward == (passes % 2 == 1));
}

/// The random search of a target leaves it no dearer than any of the eight sources
/// drawn at the first radius, half the side but at least one, around the choice that it
/// starts from.
pub proof fn lemma_random_search_tries(
    c: Problem,
    s: int,
    dst: int,
    best: usize,
    state: u64,
    k: nat,
)
    requires
        searchable(c, s),
        0 < s,
        best < c.n(),
        k < 8,
    ensures
        ({
            let radius = if s < 4 {
                1
            } else {
                s / 2
            };
            let rx = rng::draw32(rng::state_after(state, 2 * k)) as int % (2 * radius + 1) - radius;
            let ry = rng::draw32(rng::state_after(state, 2 * k + 1)) as int % (2 * radius + 1)
                - radius;
            c.at(dst, shrinking(c, s, dst, best, first_radius(s), state).0 as int) <= c.at(
                dst,
                nearest_on_grid(best as int % s + rx, best as int / s + ry, s) as int,
            )
        }),
{
    let radius = first_radius(s);
    let next = attempted(c, s, dst, best, best as int, radius as int, state, 8);
    lemma_attempted(c, s, dst, best, best as int, radius as int, state, 8);
    lemma_shrinking(c, s, dst, next, radius / 2, rng::state_after(state, 16));
    lemma_attempted_tries(c, s, dst, best, best as int, radius as int, state, 8, k);
    assert(shrinking(c, s, dst, best, radius, state) == shrinking(
        c,
        s,
        dst,
        next,
        radius / 2,
        rng::state_after(state, 16),
    ));
}

proof fn lemma_attempted_tries(
    c: Problem,
    s: int,
    dst: int,
    best: usize,
    centre: int,
    radius: int,
    state: u64,
    all: nat,
    k: nat,
)
    requires
        k < all,
    ensures
        ({
            let rx = drawn_offset(rng::state_after(state, 2 * k), radius);
            let ry = drawn_offset(rng::state_after(state, 2 * k + 1), radius);
            c.at(dst, attempted(c, s, dst, best, centre, radius, state, all) as int) <= c.at(
                dst,
                nearest_on_grid(centre % s + rx, centre / s + ry, s) as int,
            )
        }),
    decreases all,
{
    if k < all - 1 {
        lemma_attempted_tries(c, s, dst, best, centre, radius, state, (all - 1) as nat, k);
    } else {
        assert(2 * (all - 1) == 2 * k);
    }
}

/// No pass makes the choice of any target dearer.
pub proof fn lemma_choice_never_dearer(c: Problem, s: int, fewer: nat, more: nat, d: int)
    requires
        searchable(c, s),
        fewer <= more,
        0 <= d < c.n(),
    ensures
        c.at(d, searched(c, s, more).a[d] as int) <= c.at(d, searched(c, s, fewer).a[d] as int),
    decreases more,
{
    if fewer < more {
        lemma_choice_never_dearer(c, s, fewer, (more - 1) as nat, d);
        let w = searched(c, s, (more - 1) as nat);
        lemma_searched(c, s, (more - 1) as nat);
        lemma_passed_choices(c, s, w, (more - 1) % 2 == 0, c.n());
        let a = searched(c, s, more).a;
        assert(c.at(d, a[d] as int) <= c.at(d, w.a[d] as int));
    }
}

/// The random search goes on from radius to radius: after the tries at one radius it
/// continues at half of it, with the draws that follow, from a source that is no dearer;
/// at radius zero it ends.
pub proof fn lemma_random_search_halves(
    c: Problem,
    s: int,
    dst: int,
    best: usize,
    radius: nat,
    state: u64,
) -> (next: usize)
    requires
        searchable(c, s),
        0 < s,
        best < c.n(),
    ensures
        next < c.n(),
        c.at(dst, next as int) <= c.at(dst, best as int),
        radius == 0 ==> shrinking(c, s, dst, best, radius, state).0 == best,
        radius > 0 ==> shrinking(c, s, dst, best, radius, state) == shrinking(
            c,
            s,
            dst,
            next,
            radius / 2,
            rng::state_after(state, 16),
        ),
        radius > 0 ==> forall|k: nat|
            k < 8 ==> c.at(dst, next as int) <= c.at(
                dst,
                nearest_on_grid(
                    best as int % s + #[trigger] drawn_offset(
                        rng::state_after(state, 2 * k),
                        radius as int,
                    ),
                    best as int / s + drawn_offset(
                        rng::state_after(state, 2 * k + 1),
                        radius as int,
                    ),
                    s,
                ) as int,
            ),
{
    if radius == 0 {
        best
    } else {
        let next = attempted(c, s, dst, best, best as int, radius as int, state, 8);
        lemma_attempted(c, s, dst, best, best as int, radius as int, state, 8);
        assert forall|k: nat| k < 8 implies c.at(dst, next as int) <= c.at(
            dst,
            nearest_on_grid(
                best as int % s + #[trigger] drawn_offset(
                    rng::state_after(state, 2 * k),
                    radius as int,
                ),
                best as int / s + drawn_offset(rng::state_after(state, 2 * k + 1), radius as int),
                s,
            ) as int,
        ) by {
            lemma_attempted_tries(c, s, dst, best, best as int, radius as int, state, 8, k);
        }
        next
    }
}

} // verus!
