//! Random pair-swap annealing.
//!
//! Pairs of targets at a random, slowly shrinking distance exchange their
//! sources whenever that lowers the sum of their costs.

use crate::cost;
use crate::job;
use crate::job::{Job, JobModel};
use crate::jonker_volgenant;
use crate::patchmatch;
use crate::perm;
use crate::process;
use crate::process::Trace;
use crate::progress::{Checkpoint, Message, ProgressMsg, ProgressSink};
use crate::rng;
use vstd::prelude::*;
use vstd::string::*;

verus! {

/// Attempted exchanges per pixel and generation.
pub const SWAPS_PER_GENERATION_PER_PIXEL: u64 = 128;

/// Attempted exchanges between two checkpoints.
pub const ATTEMPTS_PER_CHECKPOINT: u64 = 4096;

/// Generations after which the annealing gives up.
pub const MAX_GENERATIONS: u32 = 5000;

/// Seed of the annealing.
pub const ANNEALING_SEED: u64 = 12345;

/// The greatest side whose offsets fit 16 bits.
pub const MAX_GENETIC_SIDELEN: u32 = 16384;

/// The sources of all targets, what each is believed to cost, the state of the
/// generator, and the exchanges made in this generation.
#[verifier::ext_equal]
pub struct Swarm {
    pub a: Seq<usize>,
    pub h: Seq<int>,
    pub state: u64,
    pub swaps: nat,
}

/// What source `src` costs on target `dst` if that stood at position `at`.
pub open spec fn placed_cost(j: JobModel, src: int, at: int, dst: int) -> int {
    cost::heuristic_value(
        cost::grid_pos(at, j.sidelen as int),
        cost::grid_pos(src, j.sidelen as int),
        j.target[dst],
        j.source[src],
        j.weights[dst] as int,
        j.proximity_importance as int,
    )
}

/// The position that a target is taken to stand at when its own cost is
/// computed: its index in 16 bits.
pub open spec fn short_position(dst: int) -> int {
    dst % 0x1_0000
}

/// A coordinate moved by an offset drawn from `state`, kept on the grid.
pub open spec fn moved(coordinate: int, state: u64, dist: int, side: int) -> int {
    patchmatch::clamped(
        coordinate - dist + (rng::draw32(state) % 0x1_0000) as int % (2 * dist + 1),
        0,
        side - 1,
    )
}

/// The identity arrangement, before the first generation.
pub open spec fn initial_swarm(j: JobModel) -> Swarm {
    let n = j.source.len();
    Swarm {
        a: Seq::new(n, |i: int| i as usize),
        h: Seq::new(n, |i: int| placed_cost(j, i, i, i)),
        state: rng::seeded_state(ANNEALING_SEED),
        swaps: 0,
    }
}

/// The target that is drawn first.
pub open spec fn first_target(w: Swarm) -> int {
    (rng::draw32(w.state) as nat % w.a.len()) as int
}

/// The target that is drawn second, at most `dist` away in both directions.
pub open spec fn second_target(w: Swarm, dist: int, side: int) -> int {
    let p = short_position(first_target(w));
    let s1 = rng::next_state(w.state);
    let s2 = rng::next_state(s1);
    moved(p / side, s2, dist, side) * side + moved(p % side, s1, dist, side)
}

/// One attempted exchange.
pub open spec fn attempt(j: JobModel, w: Swarm, dist: int) -> Swarm {
    let side = j.sidelen as int;
    let x = first_target(w);
    let y = second_target(w, dist, side);
    let state = rng::state_after(w.state, 3);
    let x_on_y = placed_cost(j, w.a[x] as int, y, y);
    let y_on_x = placed_cost(j, w.a[y] as int, short_position(x), x);
    if (w.h[x] - y_on_x) + (w.h[y] - x_on_y) > 0 {
        Swarm {
            a: perm::swapped(w.a, x, y),
            h: w.h.update(x, y_on_x).update(y, x_on_y),
            state,
            swaps: w.swaps + 1,
        }
    } else {
        Swarm { a: w.a, h: w.h, state, swaps: w.swaps }
    }
}

/// `k` attempted exchanges.
pub open spec fn attempts(j: JobModel, w: Swarm, dist: int, k: nat) -> Swarm
    decreases k,
{
    if k == 0 {
        w
    } else {
        attempt(j, attempts(j, w, dist, (k - 1) as nat), dist)
    }
}

/// The distance of the next generation: one percent less, at least two.
pub open spec fn shrunk(dist: int) -> int {
    if dist * 16609444 / 16777216 < 2 {
        2
    } else {
        dist * 16609444 / 16777216
    }
}

/// The distance of the next generation.
pub fn shrink_distance(dist: u32) -> (r: u32)
    ensures
        r == shrunk(dist as int),
{
    let d: u64 = dist as u64 * 16609444 / 16777216;
    if d < 2 {
        2
    } else {
        d as u32
    }
}

/// The number of attempted exchanges of a generation.
pub open spec fn attempts_of(j: JobModel) -> nat {
    SWAPS_PER_GENERATION_PER_PIXEL as nat * j.source.len()
}

/// `k` checkpoints that let the run go on.
pub open spec fn asked_times(t: Trace, k: nat) -> Trace
    decreases k,
{
    if k == 0 {
        t
    } else {
        asked_times(t, (k - 1) as nat).asked(true)
    }
}

/// The number of checkpoints before the attempt `k` of a generation.
pub open spec fn checkpoints_before(k: int) -> nat {
    ((k + ATTEMPTS_PER_CHECKPOINT - 1) / ATTEMPTS_PER_CHECKPOINT as int) as nat
}

/// The state before a generation.
#[verifier::ext_equal]
pub struct Era {
    pub w: Swarm,
    pub dist: int,
    pub t: Trace,
}

/// The swarm after the generation that starts in `e`.
pub open spec fn evolved(j: JobModel, e: Era) -> Swarm {
    attempts(
        j,
        Swarm { a: e.w.a, h: e.w.h, state: e.w.state, swaps: 0 },
        e.dist,
        attempts_of(j),
    )
}

/// The trace after the checkpoints of a generation.
pub open spec fn survived(j: JobModel, e: Era) -> Trace {
    asked_times(e.t, checkpoints_before(attempts_of(j) as int)).asked(true)
}

/// Few exchanges over short distances end the annealing.
pub open spec fn converged(j: JobModel, e: Era) -> bool {
    e.dist < 4 && evolved(j, e).swaps < 10
}

/// How much of the side the distance has shrunk by.
pub open spec fn closed_distance(side: int, dist: int) -> nat {
    if dist < side {
        (side - dist) as nat
    } else {
        0
    }
}

/// The state before the generation that follows `e`.
pub open spec fn following(j: JobModel, e: Era) -> Era {
    let w = evolved(j, e);
    Era {
        w,
        dist: shrunk(e.dist),
        t: survived(j, e).sent(job::preview(j.source, w.a, j.sidelen)).sent(
            Message::Progress(closed_distance(j.sidelen as int, e.dist), j.sidelen as nat),
        ),
    }
}

/// The state before generation `g`.
pub open spec fn era(j: JobModel, t: Trace, g: nat) -> Era
    decreases g,
{
    if g == 0 {
        Era { w: initial_swarm(j), dist: j.sidelen as int, t }
    } else {
        following(j, era(j, t, (g - 1) as nat))
    }
}

/// No generation before `g` converged.
pub open spec fn unsettled(j: JobModel, t: Trace, g: nat) -> bool {
    forall|k: nat| k < g ==> !converged(j, #[trigger] era(j, t, k))
}

/// What running the annealing on a job does: it delivers the arrangement of
/// the generation that converged, gives up after too many generations, or
/// stops at the first refusal.
pub open spec fn genetic_run(t0: Trace, t1: Trace, j: JobModel, go: bool) -> bool {
    if go {
        ||| exists|g: nat|
            {
                let e = #[trigger] era(j, t0, g);
                &&& g < MAX_GENERATIONS
                &&& unsettled(j, t0, g)
                &&& converged(j, e)
                &&& t1 == survived(j, e).sent(
                    Message::Done(
                        job::finished(j.name, j.source, evolved(j, e).a, j.sidelen),
                    ),
                )
            }
        ||| {
            &&& unsettled(j, t0, MAX_GENERATIONS as nat)
            &&& t1 == era(j, t0, MAX_GENERATIONS as nat).t.sent(
                Message::Error("Genetic: exceeded maximum generations without converging"@),
            )
        }
    } else {
        exists|g: nat, q: nat|
            {
                &&& g < MAX_GENERATIONS
                &&& unsettled(j, t0, g)
                &&& q <= checkpoints_before(attempts_of(j) as int)
                &&& t1 == (#[trigger] asked_times(era(j, t0, g).t, q)).asked(false).sent(
                    Message::Cancelled,
                )
            }
    }
}

/// Costs of the swarm are small, and its sources exist.
pub open spec fn tame(j: JobModel, w: Swarm) -> bool {
    let lim = jonker_volgenant::exact_cost_limit();
    &&& w.a.len() == j.source.len()
    &&& w.h.len() == j.source.len()
    &&& forall|i: int| 0 <= i < w.a.len() ==> (#[trigger] w.a[i]) < j.source.len()
    &&& forall|i: int| 0 <= i < w.h.len() ==> -lim <= (#[trigger] w.h[i]) <= lim
}

/// A job whose side suits the annealing.
pub open spec fn annealable(j: JobModel) -> bool {
    &&& j.fit()
    &&& j.sidelen <= MAX_GENETIC_SIDELEN
}

proof fn lemma_placed_cost(j: JobModel, src: int, at: int, dst: int)
    requires
        j.fit(),
        0 <= src < j.source.len(),
        0 <= at < j.source.len(),
        0 <= dst < j.source.len(),
    ensures
        cost::heuristic_fits(
            cost::grid_pos(at, j.sidelen as int),
            cost::grid_pos(src, j.sidelen as int),
            j.target[dst],
            j.source[src],
            j.weights[dst] as int,
            j.proximity_importance as int,
        ),
        -jonker_volgenant::exact_cost_limit() <= placed_cost(j, src, at, dst)
            <= jonker_volgenant::exact_cost_limit(),
{
    let target = j.target.update(at, j.target[dst]);
    let weights = j.weights.update(at, j.weights[dst]);
    let lim = jonker_volgenant::exact_cost_limit();
    assert(cost::grid_costs_fit(
        weights,
        j.sidelen as int,
        j.proximity_importance as int,
        lim,
    )) by {
        assert forall|i: int| 0 <= i < weights.len() implies 195075 * cost::absolute(
            (#[trigger] weights[i]) as int,
        ) + cost::square(
            2 * cost::square(j.sidelen - 1) * j.proximity_importance,
        ) <= lim by {
            assert(weights[i] == j.weights[if i == at {
                dst
            } else {
                i
            }]);
        }
    }
    cost::lemma_grid_within(
        j.source,
        target,
        weights,
        j.sidelen as int,
        j.proximity_importance,
        lim,
    );
    let p = cost::grid_problem(
        j.source,
        target,
        weights,
        j.sidelen as int,
        j.proximity_importance,
    );
    assert(-lim <= p.at(at, src) <= lim);
    assert(p.at(at, src) == placed_cost(j, src, at, dst));
}

proof fn lemma_targets(j: JobModel, w: Swarm, dist: int)
    requires
        annealable(j),
        j.source.len() > 0,
        w.a.len() == j.source.len(),
        0 <= dist,
    ensures
        0 <= first_target(w) < j.source.len(),
        0 <= short_position(first_target(w)) < j.source.len(),
        0 <= second_target(w, dist, j.sidelen as int) < j.source.len(),
{
    let side = j.sidelen as int;
    assert(side * side > 0) by (nonlinear_arith)
        requires
            side > 0,
    ;
    let p = short_position(first_target(w));
    let s1 = rng::next_state(w.state);
    let s2 = rng::next_state(s1);
    let x = moved(p % side, s1, dist, side);
    let y = moved(p / side, s2, dist, side);
    assert(0 <= y * side + x < side * side) by (nonlinear_arith)
        requires
            0 <= x < side,
            0 <= y < side,
    ;
}

proof fn lemma_attempt(j: JobModel, w: Swarm, dist: int)
    requires
        annealable(j),
        j.source.len() > 0,
        tame(j, w),
        0 <= dist,
    ensures
        tame(j, attempt(j, w, dist)),
        perm::is_perm(w.a, j.source.len()) ==> perm::is_perm(
            attempt(j, w, dist).a,
            j.source.len(),
        ),
{
    lemma_targets(j, w, dist);
    let x = first_target(w);
    let y = second_target(w, dist, j.sidelen as int);
    lemma_placed_cost(j, w.a[x] as int, y, y);
    lemma_placed_cost(j, w.a[y] as int, short_position(x), x);
    if perm::is_perm(w.a, j.source.len()) {
        perm::lemma_swap_keeps_perm(w.a, j.source.len(), x, y);
    }
}

proof fn lemma_attempts(j: JobModel, w: Swarm, dist: int, k: nat)
    requires
        annealable(j),
        tame(j, w),
        0 <= dist,
        k > 0 ==> j.source.len() > 0,
    ensures
        tame(j, attempts(j, w, dist, k)),
        perm::is_perm(w.a, j.source.len()) ==> perm::is_perm(
            attempts(j, w, dist, k).a,
            j.source.len(),
        ),
    decreases k,
{
    if k > 0 {
        lemma_attempts(j, w, dist, (k - 1) as nat);
        lemma_attempt(j, attempts(j, w, dist, (k - 1) as nat), dist);
    }
}

proof fn lemma_initial(j: JobModel)
    requires
        annealable(j),
    ensures
        tame(j, initial_swarm(j)),
        perm::is_perm(initial_swarm(j).a, j.source.len()),
{
    let w = initial_swarm(j);
    let side = j.sidelen as int;
    assert(side * side <= 16384 * 16384) by (nonlinear_arith)
        requires
            0 <= side <= 16384,
    ;
    let lim = jonker_volgenant::exact_cost_limit();
    assert forall|i: int| 0 <= i < w.h.len() implies -lim <= (#[trigger] w.h[i]) <= lim by {
        lemma_placed_cost(j, i, i, i);
    }
}

/// Every generation keeps a permutation.
pub proof fn lemma_era_is_permutation(j: JobModel, t: Trace, g: nat)
    requires
        annealable(j),
    ensures
        perm::is_perm(era(j, t, g).w.a, j.source.len()),
        perm::is_perm(evolved(j, era(j, t, g)).a, j.source.len()),
        tame(j, era(j, t, g).w),
        0 <= era(j, t, g).dist <= j.sidelen || 0 <= era(j, t, g).dist <= 2,
    decreases g,
{
    let e = era(j, t, g);
    if g == 0 {
        lemma_initial(j);
    } else {
        lemma_era_is_permutation(j, t, (g - 1) as nat);
        let before = era(j, t, (g - 1) as nat);
        lemma_attempts(
            j,
            Swarm { a: before.w.a, h: before.w.h, state: before.w.state, swaps: 0 },
            before.dist,
            attempts_of(j),
        );
    }
    lemma_attempts(
        j,
        Swarm { a: e.w.a, h: e.w.h, state: e.w.state, swaps: 0 },
        e.dist,
        attempts_of(j),
    );
}

/// What every target is believed to cost is what it costs.
pub open spec fn accurate(j: JobModel, w: Swarm) -> bool {
    forall|i: int|
        0 <= i < w.a.len() ==> #[trigger] w.h[i] == j.problem().at(i, w.a[i] as int)
}

/// On pictures of at most 256 by 256 pixels an attempted exchange keeps the
/// believed costs accurate and never raises the total.
pub proof fn lemma_attempt_no_worse(j: JobModel, w: Swarm, dist: int)
    requires
        annealable(j),
        j.source.len() > 0,
        j.sidelen <= 256,
        tame(j, w),
        accurate(j, w),
        0 <= dist,
    ensures
        accurate(j, attempt(j, w, dist)),
        cost::total(j.problem(), attempt(j, w, dist).a) <= cost::total(j.problem(), w.a),
{
    lemma_targets(j, w, dist);
    let side = j.sidelen as int;
    let x = first_target(w);
    let y = second_target(w, dist, side);
    assert(side * side <= 0x1_0000) by (nonlinear_arith)
        requires
            0 < side <= 256,
    ;
    assert(short_position(x) == x);
    let c = j.problem();
    let v = attempt(j, w, dist);
    let x_on_y = placed_cost(j, w.a[x] as int, y, y);
    let y_on_x = placed_cost(j, w.a[y] as int, x, x);
    assert(x_on_y == c.at(y, w.a[x] as int));
    assert(y_on_x == c.at(x, w.a[y] as int));
    assert(w.h[x] == c.at(x, w.a[x] as int));
    assert(w.h[y] == c.at(y, w.a[y] as int));
    if (w.h[x] - y_on_x) + (w.h[y] - x_on_y) > 0 {
        assert(x != y);
        let f = |i: int| c.at(i, w.a[i] as int);
        let g = |i: int| c.at(i, v.a[i] as int);
        perm::lemma_sum_update2(f, g, w.a.len(), x, y);
        assert forall|i: int| 0 <= i < v.a.len() implies #[trigger] v.h[i] == c.at(
            i,
            v.a[i] as int,
        ) by {
            if i != x && i != y {
                assert(w.h[i] == c.at(i, w.a[i] as int));
            }
        }
    } else {
        assert forall|i: int| 0 <= i < v.a.len() implies #[trigger] v.h[i] == c.at(
            i,
            v.a[i] as int,
        ) by {
            assert(w.h[i] == c.at(i, w.a[i] as int));
        }
    }
}

/// The arrangement that the annealing works on.
pub struct Arrangement {
    pub a: Vec<usize>,
    pub h: Vec<i64>,
    pub generator: frand::Rand,
    pub swaps: u64,
}

impl Arrangement {
    pub open spec fn swarm(&self) -> Swarm {
        Swarm {
            a: self.a@,
            h: jonker_volgenant::ints(self.h@),
            state: rng::state_of(self.generator),
            swaps: self.swaps as nat,
        }
    }

    /// The identity arrangement of a job.
    pub fn new(job: &Job) -> (r: Self)
        requires
            annealable(job@),
        ensures
            r.swarm() == initial_swarm(job@),
    {
        let ghost j = job@;
        let n: usize = job.source.len();
        let mut a: Vec<usize> = Vec::with_capacity(n);
        let mut h: Vec<i64> = Vec::with_capacity(n);
        let mut i: usize = 0;
        while i < n
            invariant
                j == job@,
                annealable(j),
                n == j.source.len(),
                i <= n,
                a@.len() == i,
                h@.len() == i,
                forall|k: int| 0 <= k < i ==> (#[trigger] a@[k]) == k,
                forall|k: int| 0 <= k < i ==> (#[trigger] h@[k]) == placed_cost(j, k, k, k),
            decreases n - i,
        {
            h.push(place(job, i, i, i));
            a.push(i);
            i += 1;
        }
        let r = Arrangement { a, h, generator: rng::with_seed(ANNEALING_SEED), swaps: 0 };
        proof {
            assert(r.swarm() =~= initial_swarm(j));
        }
        r
    }

    /// One attempted exchange.
    pub fn attempt_swap(&mut self, job: &Job, dist: u32)
        requires
            annealable(job@),
            job@.source.len() > 0,
            tame(job@, old(self).swarm()),
            dist <= MAX_GENETIC_SIDELEN,
            old(self).swaps < u64::MAX,
        ensures
            final(self).swarm() == attempt(job@, old(self).swarm(), dist as int),
            final(self).swaps <= old(self).swaps + 1,
    {
        let ghost j = job@;
        let ghost w = self.swarm();
        let ghost side = j.sidelen as int;
        let n: usize = job.source.len();
        proof {
            lemma_targets(j, w, dist as int);
            assert(0 < side * side <= 16384 * 16384) by (nonlinear_arith)
                requires
                    0 < side <= 16384,
            ;
        }
        let x: usize = rng::below_u32(&mut self.generator, n as u32) as usize;
        assert(x == first_target(w));
        let short: u32 = x as u32 % 0x1_0000;
        let ax: i64 = (short % job.sidelen) as i64;
        let ay: i64 = (short / job.sidelen) as i64;
        let d: i16 = dist as i16;
        let rx: i16 = rng::between_i16(&mut self.generator, -d, d + 1);
        let ry: i16 = rng::between_i16(&mut self.generator, -d, d + 1);
        let bx: i64 = patchmatch::clamp(ax + rx as i64, 0, job.sidelen as i64 - 1);
        let by: i64 = patchmatch::clamp(ay + ry as i64, 0, job.sidelen as i64 - 1);
        proof {
            let p = short_position(x as int);
            let s1 = rng::next_state(w.state);
            let s2 = rng::next_state(s1);
            assert(bx == moved(p % side, s1, dist as int, side));
            assert(by == moved(p / side, s2, dist as int, side));
            assert(0 <= by * side <= 16384 * 16384) by (nonlinear_arith)
                requires
                    0 <= by < side,
                    side <= 16384,
            ;
            assert(rng::state_after(w.state, 1) == rng::next_state(w.state)) by {
                assert(rng::state_after(w.state, 0) == w.state);
            }
            assert(rng::state_after(w.state, 2) == rng::next_state(rng::state_after(w.state, 1)));
            assert(rng::state_after(w.state, 3) == rng::next_state(rng::state_after(w.state, 2)));
        }
        let y: usize = (by * job.sidelen as i64 + bx) as usize;
        assert(y == second_target(w, dist as int, side));
        proof {
            assert(w.a[x as int] == self.a@[x as int]);
            assert(w.a[y as int] == self.a@[y as int]);
            lemma_placed_cost(j, w.a[x as int] as int, y as int, y as int);
            lemma_placed_cost(j, w.a[y as int] as int, short as int, x as int);
            assert(w.h[x as int] == self.h@[x as int]);
            assert(w.h[y as int] == self.h@[y as int]);
        }
        let x_on_y: i64 = place(job, self.a[x], y, y);
        let y_on_x: i64 = place(job, self.a[y], short as usize, x);
        let gain_x: i64 = self.h[x] - y_on_x;
        let gain_y: i64 = self.h[y] - x_on_y;
        if gain_x + gain_y > 0 {
            let sx: usize = self.a[x];
            let sy: usize = self.a[y];
            self.a.set(x, sy);
            self.a.set(y, sx);
            self.h.set(x, y_on_x);
            self.h.set(y, x_on_y);
            self.swaps = self.swaps + 1;
        }
        proof {
            assert(self.swarm() =~= attempt(j, w, dist as int));
        }
    }
}

/// What a source costs on a target that stands at the given position.
fn place(job: &Job, src: usize, at: usize, dst: usize) -> (r: i64)
    requires
        annealable(job@),
        src < job@.source.len(),
        at < job@.source.len(),
        dst < job@.source.len(),
    ensures
        r == placed_cost(job@, src as int, at as int, dst as int),
{
    proof {
        lemma_placed_cost(job@, src as int, at as int, dst as int);
    }
    let side: usize = job.sidelen as usize;
    cost::heuristic(
        ((at % side) as u16, (at / side) as u16),
        ((src % side) as u16, (src / side) as u16),
        job.target[dst],
        job.source[src],
        job.weights[dst],
        job.proximity_importance,
    )
}

/// One generation with its checkpoints; false if one of them refused.
fn run_generation<S: ProgressSink, C: Checkpoint>(
    job: &Job,
    arrangement: &mut Arrangement,
    dist: u32,
    tx: &mut S,
    control: &mut C,
    Ghost(e): Ghost<Era>,
) -> (go: bool)
    requires
        annealable(job@),
        tame(job@, old(arrangement).swarm()),
        dist <= MAX_GENETIC_SIDELEN,
        e.dist == dist,
        e.t == process::trace(*old(tx), *old(control)),
        e.w.a == old(arrangement).swarm().a,
        e.w.h == old(arrangement).swarm().h,
        e.w.state == old(arrangement).swarm().state,
    ensures
        old(control).never_refuses() ==> go && final(control).never_refuses(),
        go ==> {
            &&& final(arrangement).swarm() == evolved(job@, e)
            &&& process::trace(*final(tx), *final(control)) == survived(job@, e)
        },
        !go ==> exists|q: nat|
            q <= checkpoints_before(attempts_of(job@) as int) && process::trace(
                *final(tx),
                *final(control),
            ) == (#[trigger] asked_times(e.t, q)).asked(false).sent(Message::Cancelled),
{
    let ghost j = job@;
    let n: usize = job.source.len();
    proof {
        let side = j.sidelen as int;
        assert(0 <= side * side <= 16384 * 16384) by (nonlinear_arith)
            requires
                0 <= side <= 16384,
        ;
    }
    let total: u64 = SWAPS_PER_GENERATION_PER_PIXEL * n as u64;
    arrangement.swaps = 0;
    let ghost w0 = Swarm { a: e.w.a, h: e.w.h, state: e.w.state, swaps: 0 };
    let mut k: u64 = 0;
    while k < total
        invariant
            j == job@,
            annealable(j),
            n == j.source.len(),
            total == attempts_of(j),
            k <= total <= 128 * 16384 * 16384,
            dist <= MAX_GENETIC_SIDELEN,
            e.dist == dist,
            tame(j, w0),
            w0 == (Swarm { a: e.w.a, h: e.w.h, state: e.w.state, swaps: 0 }),
            arrangement.swarm() == attempts(j, w0, dist as int, k as nat),
            arrangement.swaps <= k,
            process::trace(*tx, *control) == asked_times(e.t, checkpoints_before(k as int)),
            old(control).never_refuses() ==> control.never_refuses(),
        decreases total - k,
    {
        if k % ATTEMPTS_PER_CHECKPOINT == 0 {
            proof {
                assert(checkpoints_before(k + 1) == checkpoints_before(k as int) + 1);
                assert(checkpoints_before(k as int) <= checkpoints_before(total as int));
            }
            if !control.checkpoint() {
                tx.send(ProgressMsg::Cancelled);
                proof {
                    let q = checkpoints_before(k as int);
                    assert(process::trace(*tx, *control) == asked_times(e.t, q).asked(false).sent(
                        Message::Cancelled,
                    ));
                }
                return false;
            }
        } else {
            assert(checkpoints_before(k + 1) == checkpoints_before(k as int));
        }
        proof {
            lemma_attempts(j, w0, dist as int, k as nat);
        }
        arrangement.attempt_swap(job, dist);
        k += 1;
    }
    if !control.checkpoint() {
        tx.send(ProgressMsg::Cancelled);
        proof {
            let q = checkpoints_before(total as int);
            assert(process::trace(*tx, *control) == asked_times(e.t, q).asked(false).sent(
                Message::Cancelled,
            ));
        }
        return false;
    }
    true
}

/// The annealing on a job: generations of attempted exchanges until few are
/// made over short distances. False if the run was cancelled.
pub fn run_genetic<S: ProgressSink, C: Checkpoint>(job: Job, tx: &mut S, control: &mut C) -> (go:
    bool)
    requires
        annealable(job@),
    ensures
        genetic_run(
            process::trace(*old(tx), *old(control)),
            process::trace(*final(tx), *final(control)),
            job@,
            go,
        ),
        old(control).never_refuses() ==> go && final(control).never_refuses(),
{
    let ghost j = job@;
    let ghost t0 = process::trace(*tx, *control);
    proof {
        job::lemma_job_solvable(j);
    }
    let mut arrangement = Arrangement::new(&job);
    let mut dist: u32 = job.sidelen;
    let mut generation: u32 = 0;
    while generation < MAX_GENERATIONS
        invariant
            j == job@,
            annealable(j),
            t0 == process::trace(*old(tx), *old(control)),
            generation <= MAX_GENERATIONS,
            unsettled(j, t0, generation as nat),
            ({
                let e = era(j, t0, generation as nat);
                &&& dist == e.dist
                &&& arrangement.swarm() == e.w
                &&& process::trace(*tx, *control) == e.t
            }),
            old(control).never_refuses() ==> control.never_refuses(),
        decreases MAX_GENERATIONS - generation,
    {
        let ghost g = generation as nat;
        let ghost e = era(j, t0, g);
        proof {
            lemma_era_is_permutation(j, t0, g);
        }
        if !run_generation(&job, &mut arrangement, dist, tx, control, Ghost(e)) {
            return false;
        }
        if dist < 4 && arrangement.swaps < 10 {
            proof {
                assert(converged(j, era(j, t0, g)));
            }
            job::finalize_preset(tx, job.name, &job.source, arrangement.a, job.sidelen);
            return true;
        }
        proof {
            assert(!converged(j, e));
            assert(arrangement.a@ == evolved(j, e).a);
            assert forall|k: nat| k < g + 1 implies !converged(j, #[trigger] era(j, t0, k)) by {
                if k == g {
                }
            }
        }
        let data = job::make_new_img(&job.source, &arrangement.a, job.sidelen);
        tx.send(ProgressMsg::UpdatePreview { width: job.sidelen, height: job.sidelen, data });
        let num: u64 = if dist < job.sidelen {
            (job.sidelen - dist) as u64
        } else {
            0
        };
        tx.send(ProgressMsg::Progress { num, den: job.sidelen as u64 });
        dist = shrink_distance(dist);
        generation += 1;
    }
    tx.send(
        ProgressMsg::Error(
            "Genetic: exceeded maximum generations without converging".to_string(),
        ),
    );
    true
}

/// One attempt draws two targets, the second within the distance of the first along both
/// axes, and leaves the cheaper of the two arrangements: as it was, or with the sources
/// of the two exchanged. An exchange is counted exactly if it lowers the total. On
/// pictures of at most 256 by 256 pixels.
pub proof fn lemma_attempt_takes_the_cheaper(j: JobModel, w: Swarm, dist: int) -> (pair: (int, int))
    requires
        annealable(j),
        j.source.len() > 0,
        0 < j.sidelen <= 256,
        tame(j, w),
        accurate(j, w),
        0 <= dist,
    ensures
        ({
            let side = j.sidelen as int;
            let n = j.source.len() as int;
            let c = j.problem();
            let v = attempt(j, w, dist);
            let (x, y) = pair;
            let other = perm::swapped(w.a, x, y);
            &&& x == rng::draw32(w.state) as int % n
            &&& 0 <= y < n
            &&& -dist <= y % side - x % side <= dist
            &&& -dist <= y / side - x / side <= dist
            &&& v.a == w.a || v.a == other
            &&& cost::total(c, v.a) <= cost::total(c, w.a)
            &&& cost::total(c, v.a) <= cost::total(c, other)
            &&& v.swaps == w.swaps + if cost::total(c, other) < cost::total(c, w.a) {
                1int
            } else {
                0
            }
            &&& v.state == rng::state_after(w.state, 3)
        }),
{
    lemma_targets(j, w, dist);
    lemma_attempt_no_worse(j, w, dist);
    let side = j.sidelen as int;
    let x = first_target(w);
    let y = second_target(w, dist, side);
    assert(side * side <= 0x1_0000) by (nonlinear_arith)
        requires
            0 < side <= 256,
    ;
    assert(short_position(x) == x);
    let c = j.problem();
    let other = perm::swapped(w.a, x, y);
    assert(placed_cost(j, w.a[x] as int, y, y) == c.at(y, w.a[x] as int));
    assert(placed_cost(j, w.a[y] as int, x, x) == c.at(x, w.a[y] as int));
    assert(w.h[x] == c.at(x, w.a[x] as int));
    assert(w.h[y] == c.at(y, w.a[y] as int));
    if x != y {
        let f = |i: int| c.at(i, w.a[i] as int);
        let g = |i: int| c.at(i, other[i] as int);
        perm::lemma_sum_update2(f, g, w.a.len(), x, y);
    } else {
        assert(other =~= w.a);
    }
    let s1 = rng::next_state(w.state);
    let s2 = rng::next_state(s1);
    let mx = moved(x % side, s1, dist, side);
    let my = moved(x / side, s2, dist, side);
    cost::lemma_grid_pos(x, side);
    vstd::arithmetic::div_mod::lemma_fundamental_div_mod_converse(my * side + mx, side, my, mx);
    assert(-dist <= mx - x % side <= dist);
    assert(-dist <= my - x / side <= dist);
    (x, y)
}

/// Every exchange that is counted has lowered the total.
proof fn lemma_attempts_lower(j: JobModel, w: Swarm, dist: int, k: nat)
    requires
        annealable(j),
        j.source.len() > 0,
        j.sidelen <= 256,
        tame(j, w),
        accurate(j, w),
        0 <= dist,
    ensures
        accurate(j, attempts(j, w, dist, k)),
        ({
            let v = attempts(j, w, dist, k);
            cost::total(j.problem(), v.a) + v.swaps - w.swaps <= cost::total(j.problem(), w.a)
        }),
    decreases k,
{
    if k > 0 {
        let b = attempts(j, w, dist, (k - 1) as nat);
        lemma_attempts_lower(j, w, dist, (k - 1) as nat);
        lemma_attempts(j, w, dist, (k - 1) as nat);
        lemma_attempt_no_worse(j, b, dist);
        let pair = lemma_attempt_takes_the_cheaper(j, b, dist);
    }
}

/// Every exchange of every generation lowers the total, which starts from that of the
/// untouched picture.
pub proof fn lemma_generations_lower(j: JobModel, t: Trace, g: nat)
    requires
        annealable(j),
        j.source.len() > 0,
        j.sidelen <= 256,
    ensures
        ({
            let c = j.problem();
            let e = era(j, t, g);
            let still = Seq::new(c.n(), |i: int| i as usize);
            &&& accurate(j, e.w)
            &&& cost::total(c, e.w.a) <= cost::total(c, still)
            &&& cost::total(c, evolved(j, e).a) + evolved(j, e).swaps <= cost::total(c, e.w.a)
        }),
    decreases g,
{
    let c = j.problem();
    let e = era(j, t, g);
    let still = Seq::new(c.n(), |i: int| i as usize);
    let side = j.sidelen as int;
    assert(side * side <= 0x1_0000) by (nonlinear_arith)
        requires
            0 <= side <= 256,
    ;
    if g == 0 {
        assert(e.w.a =~= still);
        assert forall|i: int| 0 <= i < e.w.a.len() implies #[trigger] e.w.h[i] == c.at(
            i,
            e.w.a[i] as int,
        ) by {}
    } else {
        lemma_generations_lower(j, t, (g - 1) as nat);
        let b = era(j, t, (g - 1) as nat);
        lemma_era_is_permutation(j, t, (g - 1) as nat);
        lemma_attempts_lower(
            j,
            Swarm { a: b.w.a, h: b.w.h, state: b.w.state, swaps: 0 },
            b.dist,
            attempts_of(j),
        );
    }
    lemma_era_is_permutation(j, t, g);
    lemma_attempts_lower(
        j,
        Swarm { a: e.w.a, h: e.w.h, state: e.w.state, swaps: 0 },
        e.dist,
        attempts_of(j),
    );
}

/// The distance shrinks by one percent, rounded down and off by less than one part in
/// ten million, but not below two.
pub proof fn lemma_distance_shrinks(dist: int)
    requires
        0 <= dist,
    ensures
        shrunk(dist) >= 2,
        shrunk(dist) > 2 ==> 100 * shrunk(dist) * 10000000 <= 99 * dist * 10000001,
        shrunk(dist) > 2 ==> 100 * (shrunk(dist) + 1) > 99 * dist,
        shrunk(dist) == 2 ==> 99 * dist < 300,
        dist > 2 ==> shrunk(dist) < dist,
{
}

proof fn lemma_attempts_draw(j: JobModel, w: Swarm, dist: int, k: nat)
    ensures
        attempts(j, w, dist, k).state == rng::state_after(w.state, 3 * k),
    decreases k,
{
    if k > 0 {
        lemma_attempts_draw(j, w, dist, (k - 1) as nat);
        rng::lemma_state_after(w.state, (3 * (k - 1)) as nat, 3);
        assert((3 * (k - 1)) as nat + 3 == 3 * k);
    }
}

/// A generation attempts 128 exchanges for every pixel, with three draws each, and asks
/// before every batch of 4096.
pub proof fn lemma_generation_attempts(j: JobModel, e: Era)
    ensures
        evolved(j, e).state == rng::state_after(e.w.state, 384 * j.source.len()),
        4096 * checkpoints_before(attempts_of(j) as int) >= 128 * j.source.len(),
        j.source.len() > 0 ==> 4096 * (checkpoints_before(attempts_of(j) as int) - 1) < 128
            * j.source.len(),
{
    let w = Swarm { a: e.w.a, h: e.w.h, state: e.w.state, swaps: 0 };
    lemma_attempts_draw(j, w, e.dist, attempts_of(j));
    assert(3 * attempts_of(j) == 384 * j.source.len());
}

/// After every generation the run shows its arrangement and tells by how much of the
/// side the distance of that generation had shrunk, which never falls.
pub proof fn lemma_generation_reports(j: JobModel, t: Trace, g: nat)
    requires
        annealable(j),
        j.sidelen >= 2,
    ensures
        ({
            let e = era(j, t, g);
            let next = era(j, t, g + 1);
            let n = next.t.log.len() as int;
            &&& 2 <= next.dist <= e.dist <= j.sidelen
            &&& n >= 2
            &&& next.t.log[n - 1] == Message::Progress((j.sidelen - e.dist) as nat, j.sidelen as nat)
            &&& next.t.log[n - 2] == job::preview(j.source, next.w.a, j.sidelen)
        }),
    decreases g,
{
    if g > 0 {
        lemma_generation_reports(j, t, (g - 1) as nat);
    }
    let e = era(j, t, g);
    lemma_distance_shrinks(e.dist);
}

/// The annealing starts from the untouched picture, at the distance of a whole side.
pub proof fn lemma_annealing_starts_untouched(j: JobModel, t: Trace, i: int)
    requires
        0 <= i < j.source.len() <= usize::MAX,
    ensures
        era(j, t, 0).w.a.len() == j.source.len(),
        era(j, t, 0).w.a[i] == i,
        era(j, t, 0).dist == j.sidelen,
        era(j, t, 0).w.state == rng::seeded_state(12345),
        era(j, t, 0).t == t,
{
}

} // verus!
