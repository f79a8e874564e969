//! Candidate sources of the sparse auction at a pyramid level.
//!
//! Around the source predicted for a target: its immediate neighbours, a wider
//! and sparser square, the nearest colours among a few random samples, and a
//! few random sources to escape a bad prediction.

use crate::cost;
use crate::cost::{CostLookup, Problem, Rgb};
use crate::perm;
use crate::rng;
use vstd::prelude::*;

verus! {

/// Spatial candidate radius around the predicted position.
pub const SPATIAL_RADIUS: i64 = 4;

/// Number of nearest-colour candidates.
pub const NEAREST_COLOR_CANDIDATES: usize = 8;

/// Random samples among which the nearest colours are looked for.
pub const COLOR_SAMPLES: usize = 32;

/// Number of random escape candidates.
pub const RANDOM_CANDIDATES: usize = 4;

/// Seed of the candidate sampling.
pub const CANDIDATE_SEED: u64 = 98765;

/// Inserts `v` into the ascending `set` at its place from `i` on, unless it is
/// there already.
pub open spec fn insert_from(set: Seq<usize>, v: usize, i: nat) -> Seq<usize>
    decreases set.len() - i,
{
    if i >= set.len() {
        set.push(v)
    } else if set[i as int] == v {
        set
    } else if set[i as int] > v {
        set.insert(i as int, v)
    } else {
        insert_from(set, v, i + 1)
    }
}

/// The ascending `set` with `v` added.
pub open spec fn with_source(set: Seq<usize>, v: usize) -> Seq<usize> {
    insert_from(set, v, 0)
}

/// Strictly ascending.
pub open spec fn ascending(set: Seq<usize>) -> bool {
    forall|i: int, j: int| 0 <= i < j < set.len() ==> set[i] < set[j]
}

proof fn lemma_insert_from(set: Seq<usize>, v: usize, i: nat)
    requires
        ascending(set),
        i <= set.len(),
        forall|k: int| 0 <= k < i ==> (#[trigger] set[k]) < v,
    ensures
        ascending(insert_from(set, v, i)),
        forall|u: usize| #[trigger]
            insert_from(set, v, i).contains(u) <==> set.contains(u) || u == v,
    decreases set.len() - i,
{
    let r = insert_from(set, v, i);
    if i >= set.len() {
        assert(r[set.len() as int] == v);
        assert forall|u: usize| #[trigger] r.contains(u) <==> set.contains(u) || u == v by {
            if set.contains(u) {
                let k = choose|k: int| 0 <= k < set.len() && set[k] == u;
                assert(r[k] == u);
            }
        }
    } else if set[i as int] == v {
    } else if set[i as int] > v {
        assert(r[i as int] == v);
        assert forall|u: usize| #[trigger] r.contains(u) <==> set.contains(u) || u == v by {
            if set.contains(u) {
                let k = choose|k: int| 0 <= k < set.len() && set[k] == u;
                assert(r[if k < i {
                    k
                } else {
                    k + 1
                }] == u);
            }
            if r.contains(u) && u != v {
                let k = choose|k: int| 0 <= k < r.len() && r[k] == u;
                assert(set[if k < i {
                    k
                } else {
                    k - 1
                }] == u);
            }
        }
    } else {
        lemma_insert_from(set, v, i + 1);
    }
}

/// Adding a source keeps the set ascending and adds just that source.
pub proof fn lemma_with_source(set: Seq<usize>, v: usize)
    requires
        ascending(set),
    ensures
        ascending(with_source(set, v)),
        forall|u: usize| #[trigger]
            with_source(set, v).contains(u) <==> set.contains(u) || u == v,
{
    lemma_insert_from(set, v, 0);
}

/// Adds `v` to the ascending `set`.
pub fn add_source(set: &mut Vec<usize>, v: usize)
    ensures
        final(set)@ == with_source(old(set)@, v),
{
    let n: usize = set.len();
    let mut i: usize = 0;
    while i < n
        invariant
            i <= n,
            n == set@.len(),
            set@ == old(set)@,
            insert_from(set@, v, i as nat) == with_source(old(set)@, v),
        decreases n - i,
    {
        if set[i] == v {
            return;
        }
        if set[i] > v {
            set.insert(i, v);
            return;
        }
        i += 1;
    }
    set.push(v);
}

/// The position that lies `dx` columns and `dy` rows from `pred`, if it is on
/// the grid.
pub open spec fn offset_source(pred: int, s: int, dx: int, dy: int) -> Option<usize> {
    let x = pred % s + dx;
    let y = pred / s + dy;
    if 0 <= x < s && 0 <= y < s {
        Some((y * s + x) as usize)
    } else {
        None
    }
}

/// `set` with the first `k` positions of the square of the given radius around
/// `pred`, in steps of `step`, row by row.
pub open spec fn with_square(
    set: Seq<usize>,
    pred: int,
    s: int,
    radius: int,
    step: int,
    k: nat,
) -> Seq<usize>
    decreases k,
{
    if k == 0 {
        set
    } else {
        let before = with_square(set, pred, s, radius, step, (k - 1) as nat);
        let m = 2 * radius / step + 1;
        match offset_source(
            pred,
            s,
            ((k - 1) % m) * step - radius,
            ((k - 1) / m) * step - radius,
        ) {
            Some(v) => with_source(before, v),
            None => before,
        }
    }
}

/// The number of positions of such a square.
pub open spec fn square_size(radius: int, step: int) -> nat {
    ((2 * radius / step + 1) * (2 * radius / step + 1)) as nat
}

/// Inserts a ranked source behind all that are at most as far, from `i` on.
pub open spec fn rank_from(list: Seq<(i64, usize)>, x: (i64, usize), i: nat) -> Seq<(i64, usize)>
    decreases list.len() - i,
{
    if i >= list.len() {
        list.push(x)
    } else if list[i as int].0 > x.0 {
        list.insert(i as int, x)
    } else {
        rank_from(list, x, i + 1)
    }
}

/// The `j`-th source sampled for target `dst`.
pub open spec fn sample(dst: nat, j: nat, n: nat) -> usize {
    (rng::draw64(rng::state_after(rng::seeded_state(CANDIDATE_SEED), (36 * dst + j) as nat)) as nat
        % n) as usize
}

/// The first `k` colour samples of `dst`, nearest colour first; earlier samples
/// come first among equals.
pub open spec fn ranked(c: Problem, dst: nat, k: nat) -> Seq<(i64, usize)>
    decreases k,
{
    if k == 0 {
        Seq::empty()
    } else {
        let src = sample(dst, (k - 1) as nat, c.n());
        rank_from(
            ranked(c, dst, (k - 1) as nat),
            (cost::color_distance(c.target[dst as int], c.source[src as int]) as i64, src),
            0,
        )
    }
}

/// `set` with the sources of the first `k` entries of `list`.
pub open spec fn with_first(set: Seq<usize>, list: Seq<(i64, usize)>, k: nat) -> Seq<usize>
    decreases k,
{
    if k == 0 {
        set
    } else {
        with_source(with_first(set, list, (k - 1) as nat), list[k - 1].1)
    }
}

/// `set` with the first `k` escape candidates of `dst`.
pub open spec fn with_escapes(set: Seq<usize>, dst: nat, n: nat, k: nat) -> Seq<usize>
    decreases k,
{
    if k == 0 {
        set
    } else {
        with_source(
            with_escapes(set, dst, n, (k - 1) as nat),
            sample(dst, (COLOR_SAMPLES + k - 1) as nat, n),
        )
    }
}

/// The candidates of target `dst`, whose predicted source is `pred`.
pub open spec fn candidate_list(c: Problem, dst: nat, pred: usize, s: int) -> Seq<usize> {
    let own = with_source(Seq::empty(), pred);
    let ring = with_square(own, pred as int, s, 1, 1, square_size(1, 1));
    let square = with_square(
        ring,
        pred as int,
        s,
        SPATIAL_RADIUS as int,
        SPATIAL_RADIUS as int / 2,
        square_size(SPATIAL_RADIUS as int, SPATIAL_RADIUS as int / 2),
    );
    let near = with_first(
        square,
        ranked(c, dst, COLOR_SAMPLES as nat),
        NEAREST_COLOR_CANDIDATES as nat,
    );
    with_escapes(near, dst, c.n(), RANDOM_CANDIDATES as nat)
}

/// The candidates of every target.
pub open spec fn candidate_lists(c: Problem, predicted: Seq<usize>, s: int) -> Seq<Seq<usize>> {
    Seq::new(c.n(), |d: int| candidate_list(c, d as nat, predicted[d], s))
}

/// A predicted source is always among the candidates.
pub proof fn lemma_keeps_prediction(c: Problem, dst: nat, pred: usize, s: int)
    ensures
        ascending(candidate_list(c, dst, pred, s)),
        candidate_list(c, dst, pred, s).contains(pred),
{
    let own = with_source(Seq::empty(), pred);
    assert(ascending(Seq::<usize>::empty()));
    lemma_with_source(Seq::empty(), pred);
    let ring = with_square(own, pred as int, s, 1, 1, square_size(1, 1));
    lemma_square_keeps(own, pred as int, s, 1, 1, square_size(1, 1), pred);
    let r = SPATIAL_RADIUS as int;
    let square = with_square(ring, pred as int, s, r, r / 2, square_size(r, r / 2));
    lemma_square_keeps(ring, pred as int, s, r, r / 2, square_size(r, r / 2), pred);
    let list = ranked(c, dst, COLOR_SAMPLES as nat);
    lemma_first_keeps(square, list, NEAREST_COLOR_CANDIDATES as nat, pred);
    lemma_escapes_keep(
        with_first(square, list, NEAREST_COLOR_CANDIDATES as nat),
        dst,
        c.n(),
        RANDOM_CANDIDATES as nat,
        pred,
    );
}

proof fn lemma_square_keeps(
    set: Seq<usize>,
    pred: int,
    s: int,
    radius: int,
    step: int,
    k: nat,
    v: usize,
)
    requires
        ascending(set),
        set.contains(v),
    ensures
        ascending(with_square(set, pred, s, radius, step, k)),
        with_square(set, pred, s, radius, step, k).contains(v),
    decreases k,
{
    if k > 0 {
        lemma_square_keeps(set, pred, s, radius, step, (k - 1) as nat, v);
        let m = 2 * radius / step + 1;
        match offset_source(
            pred,
            s,
            ((k - 1) % m) * step - radius,
            ((k - 1) / m) * step - radius,
        ) {
            Some(u) => lemma_with_source(
                with_square(set, pred, s, radius, step, (k - 1) as nat),
                u,
            ),
            None => {},
        }
    }
}

proof fn lemma_first_keeps(set: Seq<usize>, list: Seq<(i64, usize)>, k: nat, v: usize)
    requires
        ascending(set),
        set.contains(v),
    ensures
        ascending(with_first(set, list, k)),
        with_first(set, list, k).contains(v),
    decreases k,
{
    if k > 0 {
        lemma_first_keeps(set, list, (k - 1) as nat, v);
        lemma_with_source(with_first(set, list, (k - 1) as nat), list[k - 1].1);
    }
}

proof fn lemma_escapes_keep(set: Seq<usize>, dst: nat, n: nat, k: nat, v: usize)
    requires
        ascending(set),
        set.contains(v),
    ensures
        ascending(with_escapes(set, dst, n, k)),
        with_escapes(set, dst, n, k).contains(v),
    decreases k,
{
    if k > 0 {
        lemma_escapes_keep(set, dst, n, (k - 1) as nat, v);
        lemma_with_source(
            with_escapes(set, dst, n, (k - 1) as nat),
            sample(dst, (COLOR_SAMPLES + k - 1) as nat, n),
        );
    }
}

/// Adds the positions of a square around `pred` to `set`.
fn add_square(set: &mut Vec<usize>, pred: usize, s: u32, radius: i64, step: i64)
    requires
        0 < s <= 65535,
        pred < s * s,
        0 < step <= radius <= 4,
    ensures
        final(set)@ == with_square(
            old(set)@,
            pred as int,
            s as int,
            radius as int,
            step as int,
            square_size(radius as int, step as int),
        ),
{
    proof {
        cost::lemma_grid_pos(pred as int, s as int);
        assert(2 * radius / (step as int) <= 8) by (nonlinear_arith)
            requires
                0 < step,
                0 < radius <= 4,
        ;
        assert(2 * radius / (step as int) >= 0) by (nonlinear_arith)
            requires
                0 < step,
                0 < radius,
        ;
    }
    let m: i64 = 2 * radius / step + 1;
    let x0: i64 = (pred % s as usize) as i64;
    let y0: i64 = (pred / s as usize) as i64;
    proof {
        assert(0 < m * m <= 81) by (nonlinear_arith)
            requires
                0 < m <= 9,
        ;
    }
    let total: i64 = m * m;
    let mut k: i64 = 0;
    while k < total
        invariant
            0 <= k <= total <= 81,
            0 < s <= 65535,
            pred < s * s,
            0 < step <= radius <= 4,
            m == 2 * radius as int / step as int + 1,
            0 < m <= 9,
            total == m * m,
            x0 == pred as int % s as int,
            y0 == pred as int / s as int,
            0 <= x0 < s,
            0 <= y0 < s,
            set@ == with_square(
                old(set)@,
                pred as int,
                s as int,
                radius as int,
                step as int,
                k as nat,
            ),
        decreases total - k,
    {
        proof {
            assert(0 <= (k % m) * step <= 36 && 0 <= (k / m) * step <= 36) by (nonlinear_arith)
                requires
                    0 <= k < m * m,
                    0 < m <= 9,
                    0 < step <= 4,
            ;
        }
        let x: i64 = x0 + ((k % m) * step - radius);
        let y: i64 = y0 + ((k / m) * step - radius);
        if x >= 0 && x < s as i64 && y >= 0 && y < s as i64 {
            proof {
                assert(0 <= y * s + x <= 65535 * 65536) by (nonlinear_arith)
                    requires
                        0 <= x < s,
                        0 <= y < s,
                        s <= 65535,
                ;
                assert(0 <= y * s <= 65535 * 65535) by (nonlinear_arith)
                    requires
                        0 <= y < s,
                        s <= 65535,
                ;
                assert(y * s + x < s * s) by (nonlinear_arith)
                    requires
                        0 <= x < s,
                        0 <= y < s,
                ;
                assert(s * s <= 65535 * 65535) by (nonlinear_arith)
                    requires
                        0 < s <= 65535,
                ;
            }
            add_source(set, (y * s as i64 + x) as usize);
        }
        k += 1;
    }
}

/// Inserts a ranked source behind all that are at most as far.
fn add_ranked(list: &mut Vec<(i64, usize)>, x: (i64, usize))
    ensures
        final(list)@ == rank_from(old(list)@, x, 0),
{
    let n: usize = list.len();
    let mut i: usize = 0;
    while i < n
        invariant
            i <= n,
            n == list@.len(),
            list@ == old(list)@,
            rank_from(list@, x, i as nat) == rank_from(old(list)@, x, 0),
        decreases n - i,
    {
        if list[i].0 > x.0 {
            list.insert(i, x);
            return;
        }
        i += 1;
    }
    list.push(x);
}

proof fn lemma_rank_len(list: Seq<(i64, usize)>, x: (i64, usize), i: nat)
    ensures
        rank_from(list, x, i).len() == list.len() + 1,
    decreases list.len() - i,
{
    if i < list.len() && list[i as int].0 <= x.0 {
        lemma_rank_len(list, x, i + 1);
    }
}

proof fn lemma_ranked_len(c: Problem, dst: nat, k: nat)
    ensures
        ranked(c, dst, k).len() == k,
    decreases k,
{
    if k > 0 {
        lemma_ranked_len(c, dst, (k - 1) as nat);
        let src = sample(dst, (k - 1) as nat, c.n());
        lemma_rank_len(
            ranked(c, dst, (k - 1) as nat),
            (cost::color_distance(c.target[dst as int], c.source[src as int]) as i64, src),
            0,
        );
    }
}

/// Builds the candidate sources of every target around its predicted source.
pub fn build_candidates(cost: &CostLookup, predicted: &[usize], sidelen: u32) -> (r: Vec<Vec<usize>>)
    requires
        0 < sidelen <= 65535,
        cost@.source.len() == cost@.n(),
        predicted@.len() >= cost@.n(),
        forall|d: int| 0 <= d < cost@.n() ==> (#[trigger] predicted@[d]) < sidelen * sidelen,
    ensures
        r@.len() == cost@.n(),
        forall|d: int|
            0 <= d < r@.len() ==> (#[trigger] r@[d])@ == candidate_list(
                cost@,
                d as nat,
                predicted@[d],
                sidelen as int,
            ),
        forall|d: int| 0 <= d < r@.len() ==> (#[trigger] r@[d])@.len() > 0,
{
    let n: usize = cost.n_dst();
    let ghost c = cost@;
    let mut candidates: Vec<Vec<usize>> = Vec::with_capacity(n);
    let mut generator = rng::with_seed(CANDIDATE_SEED);
    let ghost s0 = rng::seeded_state(CANDIDATE_SEED);
    let mut dst: usize = 0;
    while dst < n
        invariant
            c == cost@,
            n == c.n(),
            dst <= n,
            0 < sidelen <= 65535,
            c.source.len() == c.n(),
            predicted@.len() >= c.n(),
            forall|d: int| 0 <= d < c.n() ==> (#[trigger] predicted@[d]) < sidelen * sidelen,
            s0 == rng::seeded_state(CANDIDATE_SEED),
            rng::state_of(generator) == rng::state_after(s0, (36 * dst) as nat),
            candidates@.len() == dst,
            forall|d: int|
                0 <= d < dst ==> (#[trigger] candidates@[d])@ == candidate_list(
                    c,
                    d as nat,
                    predicted@[d],
                    sidelen as int,
                ),
            forall|d: int| 0 <= d < dst ==> (#[trigger] candidates@[d])@.len() > 0,
        decreases n - dst,
    {
        let pred: usize = predicted[dst];
        let mut set: Vec<usize> = Vec::with_capacity(32);
        add_source(&mut set, pred);
        add_square(&mut set, pred, sidelen, 1, 1);
        add_square(&mut set, pred, sidelen, SPATIAL_RADIUS, SPATIAL_RADIUS / 2);
        let ghost square = set@;
        let color: Rgb = cost.target[dst];
        let mut list: Vec<(i64, usize)> = Vec::new();
        let mut j: usize = 0;
        while j < COLOR_SAMPLES
            invariant
                c == cost@,
                n == c.n(),
                dst < n,
                c.source.len() == c.n(),
                color == c.target[dst as int],
                j <= COLOR_SAMPLES,
                s0 == rng::seeded_state(CANDIDATE_SEED),
                rng::state_of(generator) == rng::state_after(s0, (36 * dst + j) as nat),
                list@ == ranked(c, dst as nat, j as nat),
            decreases COLOR_SAMPLES - j,
        {
            let src: usize = rng::below_u64(&mut generator, n as u64) as usize;
            assert(src == sample(dst as nat, j as nat, n as nat));
            let dist: i64 = cost::color_dist(color, cost.source[src]);
            add_ranked(&mut list, (dist, src));
            j += 1;
        }
        proof {
            lemma_ranked_len(c, dst as nat, COLOR_SAMPLES as nat);
        }
        j = 0;
        while j < NEAREST_COLOR_CANDIDATES
            invariant
                j <= NEAREST_COLOR_CANDIDATES,
                list@.len() == COLOR_SAMPLES,
                set@ == with_first(square, list@, j as nat),
            decreases NEAREST_COLOR_CANDIDATES - j,
        {
            add_source(&mut set, list[j].1);
            j += 1;
        }
        let ghost near = set@;
        j = 0;
        while j < RANDOM_CANDIDATES
            invariant
                c == cost@,
                n == c.n(),
                dst < n,
                j <= RANDOM_CANDIDATES,
                s0 == rng::seeded_state(CANDIDATE_SEED),
                rng::state_of(generator) == rng::state_after(
                    s0,
                    (36 * dst + COLOR_SAMPLES + j) as nat,
                ),
                set@ == with_escapes(near, dst as nat, c.n(), j as nat),
            decreases RANDOM_CANDIDATES - j,
        {
            let src: usize = rng::below_u64(&mut generator, n as u64) as usize;
            assert(src == sample(dst as nat, (COLOR_SAMPLES + j) as nat, n as nat));
            add_source(&mut set, src);
            j += 1;
        }
        proof {
            lemma_keeps_prediction(c, dst as nat, pred, sidelen as int);
            assert(set@ == candidate_list(c, dst as nat, pred, sidelen as int));
        }
        candidates.push(set);
        dst += 1;
    }
    candidates
}

proof fn lemma_square_members(
    set: Seq<usize>,
    pred: int,
    s: int,
    radius: int,
    step: int,
    k: nat,
)
    requires
        ascending(set),
    ensures
        ascending(with_square(set, pred, s, radius, step, k)),
        forall|u: usize| #[trigger]
            with_square(set, pred, s, radius, step, k).contains(u) <==> set.contains(u) || exists|
                j: int,
            |
                0 <= j < k && #[trigger] square_spot(pred, s, radius, step, j) == Some(u),
    decreases k,
{
    let r = with_square(set, pred, s, radius, step, k);
    if k > 0 {
        let b = with_square(set, pred, s, radius, step, (k - 1) as nat);
        lemma_square_members(set, pred, s, radius, step, (k - 1) as nat);
        match square_spot(pred, s, radius, step, k - 1) {
            Some(v) => lemma_with_source(b, v),
            None => {},
        }
        assert forall|u: usize| #[trigger] r.contains(u) <==> set.contains(u) || exists|j: int|
            0 <= j < k && #[trigger] square_spot(pred, s, radius, step, j) == Some(u) by {
            if r.contains(u) && !b.contains(u) {
                assert(square_spot(pred, s, radius, step, k - 1) == Some(u));
            }
            assert(b.contains(u) ==> r.contains(u));
            if exists|j: int|
                0 <= j < k && #[trigger] square_spot(pred, s, radius, step, j) == Some(u) {
                let j = choose|j: int|
                    0 <= j < k && #[trigger] square_spot(pred, s, radius, step, j) == Some(u);
                if j < k - 1 {
                    assert(b.contains(u));
                }
            }
        }
    }
}

/// The `j`-th position of a square, if it is on the grid.
spec fn square_spot(pred: int, s: int, radius: int, step: int, j: int) -> Option<usize> {
    let m = 2 * radius / step + 1;
    offset_source(pred, s, (j % m) * step - radius, (j / m) * step - radius)
}

/// `u` lies from `pred` by the same multiple of `step` columns, and of rows, as a
/// position of the square of the given radius.
pub open spec fn in_square(pred: int, u: int, s: int, radius: int, step: int) -> bool {
    &&& -radius <= u % s - pred % s <= radius
    &&& -radius <= u / s - pred / s <= radius
    &&& (u % s - pred % s) % step == 0
    &&& (u / s - pred / s) % step == 0
}

proof fn lemma_offset(pred: int, s: int, dx: int, dy: int, u: usize)
    requires
        0 < s <= 65535,
        0 <= pred < s * s,
    ensures
        offset_source(pred, s, dx, dy) == Some(u) <==> u < s * s && u as int % s - pred % s == dx
            && u as int / s - pred / s == dy,
{
    let x = pred % s + dx;
    let y = pred / s + dy;
    if 0 <= x < s && 0 <= y < s {
        assert(0 <= y * s + x < s * s && s * s <= 65535 * 65535) by (nonlinear_arith)
            requires
                0 <= x < s,
                0 <= y < s,
                s <= 65535,
        ;
        vstd::arithmetic::div_mod::lemma_fundamental_div_mod_converse(y * s + x, s, y, x);
    }
    if u < s * s {
        cost::lemma_grid_pos(u as int, s);
        vstd::arithmetic::div_mod::lemma_fundamental_div_mod(u as int, s);
        assert(s * (u as int / s) == (u as int / s) * s) by (nonlinear_arith);
    }
}

proof fn lemma_ring_spots(pred: int, s: int, u: usize)
    requires
        0 < s <= 65535,
        0 <= pred < s * s,
    ensures
        square_size(1, 1) == 9,
        (exists|j: int| 0 <= j < 9 && #[trigger] square_spot(pred, s, 1, 1, j) == Some(u)) <==> u
            < s * s && in_square(pred, u as int, s, 1, 1),
{
    assert(square_size(1, 1) == (3 * 3) as nat);
    assert forall|j: int| 0 <= j < 9 && #[trigger] square_spot(pred, s, 1, 1, j) == Some(
        u,
    ) implies u < s * s && in_square(pred, u as int, s, 1, 1) by {
        lemma_offset(pred, s, (j % 3) * 1 - 1, (j / 3) * 1 - 1, u);
    }
    if u < s * s && in_square(pred, u as int, s, 1, 1) {
        let dx = u as int % s - pred % s;
        let dy = u as int / s - pred / s;
        let j = (dy + 1) * 3 + (dx + 1);
        assert(j % 3 == dx + 1 && j / 3 == dy + 1 && 0 <= j < 9);
        lemma_offset(pred, s, dx, dy, u);
        assert(square_spot(pred, s, 1, 1, j) == Some(u));
    }
}

proof fn lemma_wide_spots(pred: int, s: int, u: usize)
    requires
        0 < s <= 65535,
        0 <= pred < s * s,
    ensures
        square_size(4, 2) == 25,
        (exists|j: int| 0 <= j < 25 && #[trigger] square_spot(pred, s, 4, 2, j) == Some(u)) <==> u
            < s * s && in_square(pred, u as int, s, 4, 2),
{
    assert(square_size(4, 2) == (5 * 5) as nat);
    assert forall|j: int| 0 <= j < 25 && #[trigger] square_spot(pred, s, 4, 2, j) == Some(
        u,
    ) implies u < s * s && in_square(pred, u as int, s, 4, 2) by {
        lemma_offset(pred, s, (j % 5) * 2 - 4, (j / 5) * 2 - 4, u);
    }
    if u < s * s && in_square(pred, u as int, s, 4, 2) {
        let dx = u as int % s - pred % s;
        let dy = u as int / s - pred / s;
        let px = (dx + 4) / 2;
        let py = (dy + 4) / 2;
        let j = py * 5 + px;
        assert(j % 5 == px && j / 5 == py && 0 <= j < 25);
        lemma_offset(pred, s, dx, dy, u);
        assert(square_spot(pred, s, 4, 2, j) == Some(u));
    }
}

/// The source that the `j`-th of the thirty-six draws for target `dst` gives.
pub open spec fn draw(dst: nat, j: nat, n: nat) -> int {
    rng::draw64(rng::state_after(rng::seeded_state(98765), (36 * dst + j) as nat)) as int
        % n as int
}

/// How far the colour of draw `j` is from that of the target.
#[verifier::opaque]
pub open spec fn draw_distance(c: Problem, dst: nat, j: int) -> int {
    cost::color_distance(c.target[dst as int], c.source[draw(dst, j as nat, c.n())])
}

/// Draw `i` is nearer in colour to the target than draw `j`, or as near and earlier.
pub open spec fn ahead(c: Problem, dst: nat, i: int, j: int) -> bool {
    let x = draw_distance(c, dst, i);
    let y = draw_distance(c, dst, j);
    x < y || (x == y && i < j)
}

/// How many of the first `k` draws are ahead of draw `j`.
pub open spec fn color_rank(c: Problem, dst: nat, j: int, k: nat) -> int {
    perm::sum_to(
        |i: int|
            if ahead(c, dst, i, j) {
                1
            } else {
                0
            },
        k,
    )
}

/// The entry of draw `j`.
#[verifier::opaque]
spec fn entry(c: Problem, dst: nat, j: int) -> (i64, usize) {
    let src = sample(dst, j as nat, c.n());
    (cost::color_distance(c.target[dst as int], c.source[src as int]) as i64, src)
}

/// `order` lists the draws below `k` in the order of `list`, each ahead of the next.
spec fn ordered(c: Problem, dst: nat, k: nat, list: Seq<(i64, usize)>, order: Seq<usize>) -> bool {
    &&& list.len() == k
    &&& perm::is_perm(order, k)
    &&& forall|p: int| 0 <= p < k ==> (#[trigger] list[p]) == entry(c, dst, order[p] as int)
    &&& forall|p: int, q: int|
        0 <= p < q < k ==> ahead(c, dst, #[trigger] order[p] as int, #[trigger] order[q] as int)
}

proof fn lemma_rank_place(list: Seq<(i64, usize)>, x: (i64, usize), i: nat) -> (at: int)
    requires
        i <= list.len(),
    ensures
        i <= at <= list.len(),
        rank_from(list, x, i) == list.insert(at, x),
        forall|q: int| i <= q < at ==> (#[trigger] list[q]).0 <= x.0,
        at < list.len() ==> list[at].0 > x.0,
    decreases list.len() - i,
{
    if i >= list.len() {
        assert(list.push(x) =~= list.insert(i as int, x));
        i as int
    } else if list[i as int].0 > x.0 {
        i as int
    } else {
        lemma_rank_place(list, x, i + 1)
    }
}

proof fn lemma_entry(c: Problem, dst: nat, j: int)
    requires
        0 <= j,
        0 < c.n() <= usize::MAX,
    ensures
        entry(c, dst, j).0 == draw_distance(c, dst, j),
        entry(c, dst, j).1 == draw(dst, j as nat, c.n()),
        0 <= draw(dst, j as nat, c.n()) < c.n(),
{
    reveal(entry);
    reveal(draw_distance);
    let src = draw(dst, j as nat, c.n());
    cost::lemma_distance_bounds((0, 0), (0, 0), c.target[dst as int], c.source[src]);
}

proof fn lemma_ranked_order(c: Problem, dst: nat, k: nat) -> (order: Seq<usize>)
    requires
        0 < c.n() <= usize::MAX,
        k <= 36,
    ensures
        ordered(c, dst, k, ranked(c, dst, k), order),
    decreases k,
{
    if k == 0 {
        Seq::empty()
    } else {
        let m = (k - 1) as nat;
        let before = lemma_ranked_order(c, dst, m);
        let list = ranked(c, dst, m);
        let x = entry(c, dst, m as int);
        let at = lemma_rank_place(list, x, 0);
        let next = ranked(c, dst, k);
        let order = before.insert(at, m as usize);
        assert(next == list.insert(at, x)) by {
            reveal(entry);
        }
        lemma_entry(c, dst, m as int);
        assert forall|p: int| 0 <= p < k implies (#[trigger] order[p]) < k by {
            if p < at {
                assert(order[p] == before[p]);
            } else if p > at {
                assert(order[p] == before[p - 1]);
            }
        }
        assert forall|p: int| 0 <= p < k implies (#[trigger] next[p]) == entry(
            c,
            dst,
            order[p] as int,
        ) by {
            if p < at {
                assert(next[p] == list[p] && order[p] == before[p]);
            } else if p > at {
                assert(next[p] == list[p - 1] && order[p] == before[p - 1]);
            }
        }
        assert forall|p: int, q: int| 0 <= p < q < k implies ahead(
            c,
            dst,
            #[trigger] order[p] as int,
            #[trigger] order[q] as int,
        ) by {
            lemma_entry(c, dst, order[p] as int);
            lemma_entry(c, dst, order[q] as int);
            if q == at {
                assert(order[p] == before[p]);
                assert(list[p].0 <= x.0);
                assert(list[p] == entry(c, dst, before[p] as int));
                assert(before[p] < m);
            } else if p == at {
                assert(order[q] == before[q - 1]);
                assert(list[at].0 > x.0);
                assert(list[at] == entry(c, dst, before[at] as int));
                lemma_entry(c, dst, before[at] as int);
                if q - 1 > at {
                    assert(ahead(c, dst, before[at] as int, before[q - 1] as int));
                }
            } else {
                let a = if p < at {
                    p
                } else {
                    p - 1
                };
                let b = if q < at {
                    q
                } else {
                    q - 1
                };
                assert(order[p] == before[a] && order[q] == before[b]);
            }
        }
        assert forall|p: int, q: int| 0 <= p < q < k implies order[p] != order[q] by {
            assert(ahead(c, dst, order[p] as int, order[q] as int));
        }
        order
    }
}

/// The place of a draw in the ranking is the number of draws ahead of it.
proof fn lemma_rank_counts(c: Problem, dst: nat, k: nat, order: Seq<usize>, p: int)
    requires
        ordered(c, dst, k, ranked(c, dst, k), order),
        0 <= p < k,
    ensures
        color_rank(c, dst, order[p] as int, k) == p,
{
    let f = |i: int|
        if ahead(c, dst, i, order[p] as int) {
            1int
        } else {
            0
        };
    perm::lemma_sum_permuted(f, order, k);
    let g = |q: int|
        if q < p {
            1int
        } else {
            0
        };
    assert forall|q: int| 0 <= q < k implies #[trigger] f(order[q] as int) == g(q) by {
        if q < p {
            assert(ahead(c, dst, order[q] as int, order[p] as int));
        } else if p < q {
            assert(ahead(c, dst, order[p] as int, order[q] as int));
        }
    }
    perm::lemma_sum_ext(|q: int| f(order[q] as int), g, k);
    lemma_count_below(p, k);
    perm::lemma_sum_ext(
        f,
        |i: int|
            if ahead(c, dst, i, order[p] as int) {
                1
            } else {
                0
            },
        k,
    );
}

proof fn lemma_count_below(p: int, k: nat)
    requires
        0 <= p,
    ensures
        perm::sum_to(
            |q: int|
                if q < p {
                    1int
                } else {
                    0
                },
            k,
        ) == if p < k {
            p
        } else {
            k as int
        },
    decreases k,
{
    if k > 0 {
        lemma_count_below(p, (k - 1) as nat);
    }
}

proof fn lemma_first_members(set: Seq<usize>, list: Seq<(i64, usize)>, k: nat)
    requires
        ascending(set),
    ensures
        ascending(with_first(set, list, k)),
        forall|u: usize| #[trigger]
            with_first(set, list, k).contains(u) <==> set.contains(u) || exists|j: int|
                0 <= j < k && (#[trigger] list[j]).1 == u,
    decreases k,
{
    if k > 0 {
        lemma_first_members(set, list, (k - 1) as nat);
        lemma_with_source(with_first(set, list, (k - 1) as nat), list[k - 1].1);
    }
}

proof fn lemma_escape_members(set: Seq<usize>, dst: nat, n: nat, k: nat)
    requires
        ascending(set),
    ensures
        ascending(with_escapes(set, dst, n, k)),
        forall|u: usize| #[trigger]
            with_escapes(set, dst, n, k).contains(u) <==> set.contains(u) || exists|j: nat|
                j < k && #[trigger] sample(dst, (32 + j) as nat, n) == u,
    decreases k,
{
    if k > 0 {
        lemma_escape_members(set, dst, n, (k - 1) as nat);
        let b = with_escapes(set, dst, n, (k - 1) as nat);
        let v = sample(dst, (COLOR_SAMPLES + k - 1) as nat, n);
        lemma_with_source(b, v);
        let r = with_escapes(set, dst, n, k);
        assert forall|u: usize| #[trigger] r.contains(u) <==> set.contains(u) || exists|j: nat|
            j < k && #[trigger] sample(dst, (32 + j) as nat, n) == u by {
            if r.contains(u) && !b.contains(u) {
                assert(sample(dst, (32 + (k - 1) as nat) as nat, n) == u);
            }
            assert(b.contains(u) ==> r.contains(u));
            if exists|j: nat| j < k && #[trigger] sample(dst, (32 + j) as nat, n) == u {
                let j = choose|j: nat| j < k && #[trigger] sample(dst, (32 + j) as nat, n) == u;
                if j < k - 1 {
                    assert(b.contains(u));
                }
            }
        }
    }
}

/// `u` is one of the sources that target `dst`, with the predicted source `pred`, may
/// take on a grid of side `s`: the predicted source or one that touches it; one of every
/// second source, by row and column, up to four away from it; of thirty-two draws one of
/// the eight nearest in colour to the target; or one of four more draws.
pub open spec fn candidate_of(c: Problem, dst: nat, pred: usize, s: int, u: usize) -> bool {
    ||| u < s * s && in_square(pred as int, u as int, s, 1, 1)
    ||| u < s * s && in_square(pred as int, u as int, s, 4, 2)
    ||| exists|j: int|
        0 <= j < 32 && #[trigger] draw(dst, j as nat, c.n()) == u && color_rank(c, dst, j, 32) < 8
    ||| exists|j: int| 32 <= j < 36 && #[trigger] draw(dst, j as nat, c.n()) == u
}

/// The candidates of a target are exactly those of [`candidate_of`].
pub proof fn lemma_candidate_members(c: Problem, dst: nat, pred: usize, s: int, u: usize)
    requires
        0 < s <= 65535,
        c.n() == s * s,
        pred < s * s,
    ensures
        candidate_list(c, dst, pred, s).contains(u) <==> candidate_of(c, dst, pred, s, u),
{
    let n = c.n();
    assert(0 < n <= 65535 * 65535) by (nonlinear_arith)
        requires
            n == s * s,
            0 < s <= 65535,
    ;
    let own = with_source(Seq::empty(), pred);
    lemma_with_source(Seq::empty(), pred);
    let ring = with_square(own, pred as int, s, 1, 1, square_size(1, 1));
    lemma_square_members(own, pred as int, s, 1, 1, square_size(1, 1));
    lemma_ring_spots(pred as int, s, u);
    let square = with_square(ring, pred as int, s, 4, 2, square_size(4, 2));
    lemma_square_members(ring, pred as int, s, 4, 2, square_size(4, 2));
    lemma_wide_spots(pred as int, s, u);
    let list = ranked(c, dst, 32);
    lemma_first_members(square, list, 8);
    let near = with_first(square, list, 8);
    lemma_escape_members(near, dst, n, 4);
    assert(SPATIAL_RADIUS as int / 2 == 2);
    assert(candidate_list(c, dst, pred, s) == with_escapes(near, dst, n, 4));
    let order = lemma_ranked_order(c, dst, 32);
    if exists|j: int| 0 <= j < 8 && (#[trigger] list[j]).1 == u {
        let p = choose|j: int| 0 <= j < 8 && (#[trigger] list[j]).1 == u;
        lemma_rank_counts(c, dst, 32, order, p);
        let j = order[p] as int;
        assert(list[p] == entry(c, dst, j));
        lemma_entry(c, dst, j);
        assert(draw(dst, j as nat, n) == u);
    }
    if exists|j: int|
        0 <= j < 32 && #[trigger] draw(dst, j as nat, n) == u && color_rank(c, dst, j, 32) < 8 {
        let j = choose|j: int|
            0 <= j < 32 && #[trigger] draw(dst, j as nat, n) == u && color_rank(c, dst, j, 32) < 8;
        perm::lemma_perm_reaches(order, 32, j);
        let p = choose|p: int| 0 <= p < 32 && #[trigger] order[p] == j;
        lemma_rank_counts(c, dst, 32, order, p);
        lemma_entry(c, dst, j);
        assert(list[p] == entry(c, dst, j));
        assert(list[p].1 == u);
    }
    if exists|j: nat| j < 4 && #[trigger] sample(dst, (32 + j) as nat, n) == u {
        let j = choose|j: nat| j < 4 && #[trigger] sample(dst, (32 + j) as nat, n) == u;
        assert(draw(dst, (32 + j) as int as nat, n) == u);
    }
    if exists|j: int| 32 <= j < 36 && #[trigger] draw(dst, j as nat, n) == u {
        let j = choose|j: int| 32 <= j < 36 && #[trigger] draw(dst, j as nat, n) == u;
        assert(sample(dst, (32 + (j - 32) as nat) as nat, n) == u);
    }
}

} // verus!
