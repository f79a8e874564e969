//! Local refinement: neighbouring targets exchange their sources where that
//! is cheaper.

use crate::cost;
use crate::cost::{CostLookup, Problem};
use crate::perm;
use crate::progress;
use crate::progress::{Beat, Checkpoint, MessageLog, ProgressSink, SolverControl};
use vstd::prelude::*;

verus! {

/// Targets between two checkpoints of a sweep.
pub const TARGETS_PER_CHECKPOINT: usize = 1024;

/// Costs up to this magnitude can be added in pairs.
pub open spec fn pair_cost_limit() -> int {
    i64::MAX as int / 2
}

/// The `k`-th neighbour that target `da` is compared with: the positions of
/// the square around it, row by row and without its first corner, as far as
/// they are on the grid and behind `da`.
pub open spec fn neighbour(s: int, da: int, k: int) -> Option<int> {
    let x = da % s + k % 3 - 1;
    let y = da / s + k / 3 - 1;
    if k != 0 && 0 <= x < s && 0 <= y < s && y * s + x > da {
        Some(y * s + x)
    } else {
        None
    }
}

/// Whether exchanging the sources of `da` and `db` is strictly cheaper.
pub open spec fn cheaper_swapped(c: Problem, a: Seq<usize>, da: int, db: int) -> bool {
    c.at(da, a[db] as int) + c.at(db, a[da] as int) < c.at(da, a[da] as int) + c.at(
        db,
        a[db] as int,
    )
}

/// An assignment, and whether it has been improved.
#[verifier::ext_equal]
pub struct Sweep {
    pub a: Seq<usize>,
    pub improved: bool,
}

/// Compares `da` with its first `k` neighbours.
pub open spec fn visit(c: Problem, s: int, w: Sweep, da: int, k: nat) -> Sweep
    decreases k,
{
    if k == 0 {
        w
    } else {
        let v = visit(c, s, w, da, (k - 1) as nat);
        match neighbour(s, da, k - 1) {
            Some(db) if cheaper_swapped(c, v.a, da, db) => Sweep {
                a: perm::swapped(v.a, da, db),
                improved: true,
            },
            _ => v,
        }
    }
}

/// Visits the first `m` targets.
pub open spec fn sweep(c: Problem, s: int, w: Sweep, m: nat) -> Sweep
    decreases m,
{
    if m == 0 {
        w
    } else {
        visit(c, s, sweep(c, s, w, (m - 1) as nat), m - 1, 9)
    }
}

/// At most `sweeps` sweeps over all targets, until one improves nothing.
pub open spec fn refined(c: Problem, s: int, a: Seq<usize>, sweeps: nat) -> Seq<usize>
    decreases sweeps,
{
    if sweeps == 0 {
        a
    } else {
        let w = sweep(c, s, Sweep { a, improved: false }, a.len());
        if w.improved {
            refined(c, s, w.a, (sweeps - 1) as nat)
        } else {
            w.a
        }
    }
}

/// The number of sweeps that are made of at most `sweeps`.
pub open spec fn sweeps_made(c: Problem, s: int, a: Seq<usize>, sweeps: nat) -> nat
    decreases sweeps,
{
    if sweeps == 0 {
        0
    } else {
        let w = sweep(c, s, Sweep { a, improved: false }, a.len());
        if w.improved {
            1 + sweeps_made(c, s, w.a, (sweeps - 1) as nat)
        } else {
            1
        }
    }
}

/// The assignment after `k` sweeps.
pub open spec fn after_sweeps(c: Problem, s: int, a: Seq<usize>, k: nat) -> Seq<usize>
    decreases k,
{
    if k == 0 {
        a
    } else {
        let before = after_sweeps(c, s, a, (k - 1) as nat);
        sweep(c, s, Sweep { a: before, improved: false }, before.len()).a
    }
}

/// The checkpoints of a sweep over `n` targets before target `k`: one at its start,
/// and one for every batch of targets.
pub open spec fn checks_before(k: int) -> int {
    1 + (k + TARGETS_PER_CHECKPOINT - 1) / TARGETS_PER_CHECKPOINT as int
}

/// The assignment after `passed` checkpoints, where the next one refused: whole
/// sweeps, and of the sweep under way the batches of targets before the refusal.
pub open spec fn stopped_after(c: Problem, s: int, a: Seq<usize>, passed: int) -> Seq<usize> {
    let each = checks_before(a.len() as int);
    let before = after_sweeps(c, s, a, (passed / each) as nat);
    let checks = passed % each;
    if checks == 0 {
        before
    } else {
        sweep(
            c,
            s,
            Sweep { a: before, improved: false },
            ((checks - 1) * TARGETS_PER_CHECKPOINT) as nat,
        ).a
    }
}

/// A grid problem of side `s` with an assignment of existing sources.
pub open spec fn refinable(c: Problem, s: int, a: Seq<usize>) -> bool {
    &&& c.within(pair_cost_limit())
    &&& c.n() == s * s
    &&& 0 <= s <= 65535
    &&& a.len() == c.n()
    &&& forall|i: int| 0 <= i < a.len() ==> (#[trigger] a[i]) < c.n()
}

/// What a step from `a` to `b` keeps: the assignment stays refinable, holds the
/// same sources, stays a permutation if it was one, and does not become more
/// expensive.
pub open spec fn no_worse(c: Problem, s: int, a: Seq<usize>, b: Seq<usize>) -> bool {
    &&& refinable(c, s, b)
    &&& b.to_multiset() == a.to_multiset()
    &&& perm::is_perm(a, c.n()) ==> perm::is_perm(b, c.n())
    &&& cost::total(c, b) <= cost::total(c, a)
}

proof fn lemma_neighbour(s: int, da: int, k: int)
    requires
        0 < s,
        0 <= da < s * s,
        0 <= k < 9,
    ensures
        neighbour(s, da, k) matches Some(db) ==> da < db < s * s,
{
    let x = da % s + k % 3 - 1;
    let y = da / s + k / 3 - 1;
    if 0 <= x < s && 0 <= y < s {
        assert(y * s + x < s * s) by (nonlinear_arith)
            requires
                0 <= x < s,
                0 <= y < s,
        ;
    }
}

proof fn lemma_swap(c: Problem, s: int, a: Seq<usize>, da: int, db: int)
    requires
        refinable(c, s, a),
        0 <= da < db < c.n(),
        cheaper_swapped(c, a, da, db),
    ensures
        no_worse(c, s, a, perm::swapped(a, da, db)),
        cost::total(c, perm::swapped(a, da, db)) < cost::total(c, a),
{
    let b = perm::swapped(a, da, db);
    perm::lemma_swap_keeps_items(a, da, db);
    if perm::is_perm(a, c.n()) {
        perm::lemma_swap_keeps_perm(a, c.n(), da, db);
    }
    let f = |i: int| c.at(i, a[i] as int);
    let g = |i: int| c.at(i, b[i] as int);
    perm::lemma_sum_update2(f, g, c.n(), da, db);
}

proof fn lemma_visit(c: Problem, s: int, w: Sweep, da: int, k: nat)
    requires
        refinable(c, s, w.a),
        0 <= da < c.n(),
        k <= 9,
    ensures
        no_worse(c, s, w.a, visit(c, s, w, da, k).a),
        visit(c, s, w, da, k).improved || visit(c, s, w, da, k) == w,
    decreases k,
{
    if k > 0 {
        assert(s > 0) by (nonlinear_arith)
            requires
                0 <= da < s * s,
                0 <= s,
        ;
        lemma_visit(c, s, w, da, (k - 1) as nat);
        lemma_neighbour(s, da, k - 1);
        let v = visit(c, s, w, da, (k - 1) as nat);
        match neighbour(s, da, k - 1) {
            Some(db) if cheaper_swapped(c, v.a, da, db) => lemma_swap(c, s, v.a, da, db),
            _ => {},
        }
    }
}

proof fn lemma_sweep(c: Problem, s: int, w: Sweep, m: nat)
    requires
        refinable(c, s, w.a),
        m <= c.n(),
    ensures
        no_worse(c, s, w.a, sweep(c, s, w, m).a),
        sweep(c, s, w, m).improved || sweep(c, s, w, m) == w,
    decreases m,
{
    if m > 0 {
        lemma_sweep(c, s, w, (m - 1) as nat);
        lemma_visit(c, s, sweep(c, s, w, (m - 1) as nat), m - 1, 9);
    }
}

/// Refinement keeps permutations and never makes an assignment more expensive.
pub proof fn lemma_refined_no_worse(c: Problem, s: int, a: Seq<usize>, sweeps: nat)
    requires
        refinable(c, s, a),
    ensures
        no_worse(c, s, a, refined(c, s, a, sweeps)),
    decreases sweeps,
{
    if sweeps > 0 {
        let w0 = Sweep { a, improved: false };
        lemma_sweep(c, s, w0, a.len());
        let w = sweep(c, s, w0, a.len());
        if w.improved {
            lemma_refined_no_worse(c, s, w.a, (sweeps - 1) as nat);
        }
    }
}

/// Compares `da` with its neighbours; true if a swap was made.
fn visit_target(cost: &CostLookup, assignments: &mut Vec<usize>, sidelen: u32, da: usize) -> (r:
    bool)
    requires
        refinable(cost@, sidelen as int, old(assignments)@),
        da < cost@.n(),
    ensures
        ({
            let w = visit(
                cost@,
                sidelen as int,
                (Sweep { a: old(assignments)@, improved: false }),
                da as int,
                9,
            );
            final(assignments)@ == w.a && r == w.improved
        }),
{
    let ghost c = cost@;
    let ghost s = sidelen as int;
    let ghost w0 = Sweep { a: assignments@, improved: false };
    let mut improved = false;
    proof {
        assert(s > 0) by (nonlinear_arith)
            requires
                0 <= da < s * s,
                0 <= s,
        ;
        cost::lemma_grid_pos(da as int, s);
    }
    let ax: i64 = (da % sidelen as usize) as i64;
    let ay: i64 = (da / sidelen as usize) as i64;
    let mut k: i64 = 0;
    while k < 9
        invariant
            0 <= k <= 9,
            c == cost@,
            s == sidelen,
            0 < s <= 65535,
            c.n() == s * s,
            da < c.n(),
            ax == da as int % s,
            ay == da as int / s,
            0 <= ax < s,
            0 <= ay < s,
            refinable(c, s, w0.a),
            assignments@ == visit(c, s, w0, da as int, k as nat).a,
            improved == visit(c, s, w0, da as int, k as nat).improved,
        decreases 9 - k,
    {
        proof {
            lemma_visit(c, s, w0, da as int, k as nat);
            lemma_neighbour(s, da as int, k as int);
        }
        let nx: i64 = ax + k % 3 - 1;
        let ny: i64 = ay + k / 3 - 1;
        if k != 0 && nx >= 0 && ny >= 0 && nx < sidelen as i64 && ny < sidelen as i64 {
            proof {
                assert(0 <= ny * s <= 65535 * 65535) by (nonlinear_arith)
                    requires
                        0 <= ny < s,
                        s <= 65535,
                ;
                assert(ny * s + nx < s * s) by (nonlinear_arith)
                    requires
                        0 <= nx < s,
                        0 <= ny < s,
                ;
            }
            let db: usize = (ny * sidelen as i64 + nx) as usize;
            if db > da {
                let sa: usize = assignments[da];
                let sb: usize = assignments[db];
                proof {
                    let lim = pair_cost_limit();
                    assert(-lim <= c.at(da as int, sa as int) <= lim);
                    assert(-lim <= c.at(db as int, sb as int) <= lim);
                    assert(-lim <= c.at(da as int, sb as int) <= lim);
                    assert(-lim <= c.at(db as int, sa as int) <= lim);
                }
                let current: i64 = cost.cost(da, sa) + cost.cost(db, sb);
                let exchanged: i64 = cost.cost(da, sb) + cost.cost(db, sa);
                if exchanged < current {
                    let ghost before = assignments@;
                    assignments.set(da, sb);
                    assignments.set(db, sa);
                    improved = true;
                    assert(assignments@ =~= perm::swapped(before, da as int, db as int));
                }
            }
        }
        k += 1;
    }
    improved
}

/// Within a sweep, the checkpoints passed tell the sweep and the place in it.
proof fn lemma_passed(made: nat, each: int, checks: int)
    requires
        0 <= checks < each,
    ensures
        (made * each + checks) / each == made,
        (made * each + checks) % each == checks,
{
    vstd::arithmetic::div_mod::lemma_fundamental_div_mod_converse(
        made * each + checks,
        each,
        made as int,
        checks,
    );
}

/// Local refinement with checkpoints; false if one of them stopped it.
pub fn local_swap_refinement_with_checkpoint<S: ProgressSink, C: Checkpoint>(
    cost: &CostLookup,
    assignments: &mut Vec<usize>,
    sidelen: u32,
    sweeps: usize,
    tx: &mut S,
    control: &mut C,
    beat: Beat,
) -> (go: bool)
    requires
        beat.sound(),
        refinable(cost@, sidelen as int, old(assignments)@),
    ensures
        progress::ran(
            beat,
            beat.level as nat,
            go,
            old(control).answers(),
            final(control).answers(),
            old(tx).log(),
            final(tx).log(),
        ),
        old(control).never_refuses() ==> go && final(control).never_refuses(),
        go ==> final(assignments)@ == refined(
            cost@,
            sidelen as int,
            old(assignments)@,
            sweeps as nat,
        ),
        no_worse(cost@, sidelen as int, old(assignments)@, final(assignments)@),
        !go ==> final(assignments)@ == stopped_after(
            cost@,
            sidelen as int,
            old(assignments)@,
            final(control).answers().len() - old(control).answers().len() - 1,
        ),
        !go ==> old(control).answers().len() < final(control).answers().len() <= old(
            control,
        ).answers().len() + sweeps_made(
            cost@,
            sidelen as int,
            old(assignments)@,
            sweeps as nat,
        ) * checks_before(cost@.n() as int),
        !go && final(control).answers().len() == old(control).answers().len() + 1
            ==> final(assignments)@ == old(assignments)@,
        go ==> final(control).answers().len() == old(control).answers().len() + sweeps_made(
            cost@,
            sidelen as int,
            old(assignments)@,
            sweeps as nat,
        ) * checks_before(cost@.n() as int),
{
    let ghost c = cost@;
    let ghost s = sidelen as int;
    let n: usize = assignments.len();
    let ghost goal = refined(c, s, assignments@, sweeps as nat);
    let ghost all = sweeps_made(c, s, assignments@, sweeps as nat);
    let ghost each = checks_before(n as int);
    let ghost mut made: nat = 0;
    let mut left: usize = sweeps;
    proof {
        progress::lemma_ran_nothing(beat, beat.level as nat, control.answers(), tx.log());
        assert(0 * each == 0);
    }
    while left > 0
        invariant
            beat.sound(),
            c == cost@,
            s == sidelen,
            n == c.n(),
            refinable(c, s, old(assignments)@),
            no_worse(c, s, old(assignments)@, assignments@),
            assignments@ == after_sweeps(c, s, old(assignments)@, made),
            goal == refined(c, s, assignments@, left as nat),
            goal == refined(c, s, old(assignments)@, sweeps as nat),
            each == checks_before(n as int),
            all == sweeps_made(c, s, old(assignments)@, sweeps as nat),
            all == made + sweeps_made(c, s, assignments@, left as nat),
            control.answers().len() == old(control).answers().len() + made * each,
            progress::ran(
                beat,
                beat.level as nat,
                true,
                old(control).answers(),
                control.answers(),
                old(tx).log(),
                tx.log(),
            ),
            old(control).never_refuses() ==> control.never_refuses(),
        decreases left,
    {
        let ghost a1 = control.answers();
        let ghost l1 = tx.log();
        let go = beat.pass(tx, control);
        proof {
            assert(all >= made + 1);
            assert(all * each >= made * each + each) by (nonlinear_arith)
                requires
                    all >= made + 1,
                    each >= 0,
            ;
            progress::lemma_ran_then(
                beat,
                beat.level as nat,
                beat,
                beat.level as nat,
                go,
                old(control).answers(),
                a1,
                control.answers(),
                old(tx).log(),
                l1,
                tx.log(),
            );
        }
        if !go {
            proof {
                lemma_passed(made, each, 0);
            }
            return false;
        }
        let ghost w0 = Sweep { a: assignments@, improved: false };
        let mut improved = false;
        let mut da: usize = 0;
        while da < n
            invariant
                beat.sound(),
                c == cost@,
                s == sidelen,
                n == c.n(),
                da <= n,
                refinable(c, s, old(assignments)@),
                refinable(c, s, w0.a),
                no_worse(c, s, old(assignments)@, w0.a),
                w0 == (Sweep {
                    a: after_sweeps(c, s, old(assignments)@, made),
                    improved: false,
                }),
                each == checks_before(n as int),
                all == sweeps_made(c, s, old(assignments)@, sweeps as nat),
                all * each >= made * each + each,
                old(assignments)@.len() == n,
                assignments@ == sweep(c, s, w0, da as nat).a,
                improved == sweep(c, s, w0, da as nat).improved,
                control.answers().len() == old(control).answers().len() + made * each
                    + checks_before(da as int),
                progress::ran(
                    beat,
                    beat.level as nat,
                    true,
                    old(control).answers(),
                    control.answers(),
                    old(tx).log(),
                    tx.log(),
                ),
                old(control).never_refuses() ==> control.never_refuses(),
            decreases n - da,
        {
            proof {
                lemma_sweep(c, s, w0, da as nat);
            }
            if da % TARGETS_PER_CHECKPOINT == 0 {
                let ghost a1 = control.answers();
                let ghost l1 = tx.log();
                let go = beat.pass(tx, control);
                proof {
                    progress::lemma_ran_then(
                        beat,
                        beat.level as nat,
                        beat,
                        beat.level as nat,
                        go,
                        old(control).answers(),
                        a1,
                        control.answers(),
                        old(tx).log(),
                        l1,
                        tx.log(),
                    );
                }
                if !go {
                    proof {
                        lemma_passed(made, each, checks_before(da as int));
                    }
                    return false;
                }
            }
            let ghost w1 = sweep(c, s, w0, da as nat);
            let hit = visit_target(cost, assignments, sidelen, da);
            proof {
                lemma_visit_flag(c, s, w1.a, w1.improved, da as int, 9);
            }
            improved = improved || hit;
            da += 1;
        }
        proof {
            lemma_sweep(c, s, w0, n as nat);
        }
        left -= 1;
        proof {
            assert((made + 1) * each == made * each + each) by (nonlinear_arith);
            made = made + 1;
        }
        if !improved {
            return true;
        }
    }
    true
}

/// The exchanges do not depend on whether there were some before.
proof fn lemma_visit_flag(c: Problem, s: int, a: Seq<usize>, improved: bool, da: int, k: nat)
    ensures
        ({
            let plain = visit(c, s, (Sweep { a, improved: false }), da, k);
            let w = visit(c, s, (Sweep { a, improved }), da, k);
            w.a == plain.a && w.improved == (improved || plain.improved)
        }),
    decreases k,
{
    if k > 0 {
        lemma_visit_flag(c, s, a, improved, da, (k - 1) as nat);
    }
}

/// Local refinement: for nearby targets, exchanges their sources where that
/// reduces the total cost. A few sweeps.
pub fn local_swap_refinement(
    cost: &CostLookup,
    assignments: &mut Vec<usize>,
    sidelen: u32,
    sweeps: usize,
)
    requires
        refinable(cost@, sidelen as int, old(assignments)@),
    ensures
        final(assignments)@ == refined(
            cost@,
            sidelen as int,
            old(assignments)@,
            sweeps as nat,
        ),
        no_worse(cost@, sidelen as int, old(assignments)@, final(assignments)@),
{
    let mut tx = MessageLog::new();
    let mut control = SolverControl::default();
    let _ = local_swap_refinement_with_checkpoint(
        cost,
        assignments,
        sidelen,
        sweeps,
        &mut tx,
        &mut control,
        Beat::silent(),
    );
}

/// `p` and `q` are different positions that touch, side by side or at a corner.
pub open spec fn touching(p: int, q: int, s: int) -> bool {
    &&& p != q
    &&& -1 <= p % s - q % s <= 1
    &&& -1 <= p / s - q / s <= 1
}

/// No two touching targets would gain by exchanging their sources.
pub open spec fn stable(c: Problem, s: int, a: Seq<usize>) -> bool {
    forall|p: int, q: int|
        #![trigger a[p], a[q]]
        0 <= p < a.len() && 0 <= q < a.len() && touching(p, q, s) ==> c.at(p, a[p] as int) + c.at(
            q,
            a[q] as int,
        ) <= c.at(p, a[q] as int) + c.at(q, a[p] as int)
}

proof fn lemma_visit_finds_nothing(c: Problem, s: int, w: Sweep, da: int, k: nat)
    requires
        refinable(c, s, w.a),
        0 <= da < c.n(),
        k <= 9,
        !visit(c, s, w, da, k).improved,
    ensures
        forall|j: int, db: int|
            0 <= j < k && #[trigger] neighbour(s, da, j) == Some(db) ==> !#[trigger] cheaper_swapped(
                c,
                w.a,
                da,
                db,
            ),
    decreases k,
{
    if k > 0 {
        lemma_visit_finds_nothing(c, s, w, da, (k - 1) as nat);
        lemma_visit(c, s, w, da, (k - 1) as nat);
    }
}

proof fn lemma_sweep_finds_nothing(c: Problem, s: int, w: Sweep, m: nat)
    requires
        refinable(c, s, w.a),
        m <= c.n(),
        !sweep(c, s, w, m).improved,
    ensures
        forall|da: int, j: int, db: int|
            0 <= da < m && 0 <= j < 9 && #[trigger] neighbour(s, da, j) == Some(db)
                ==> !#[trigger] cheaper_swapped(c, w.a, da, db),
    decreases m,
{
    if m > 0 {
        let b = sweep(c, s, w, (m - 1) as nat);
        lemma_sweep(c, s, w, (m - 1) as nat);
        if b.improved {
            lemma_visit_improved(c, s, b, m - 1, 9);
        }
        lemma_sweep_finds_nothing(c, s, w, (m - 1) as nat);
        lemma_visit_finds_nothing(c, s, b, m - 1, 9);
    }
}

proof fn lemma_visit_improved(c: Problem, s: int, w: Sweep, da: int, k: nat)
    requires
        w.improved,
    ensures
        visit(c, s, w, da, k).improved,
    decreases k,
{
    if k > 0 {
        lemma_visit_improved(c, s, w, da, (k - 1) as nat);
    }
}

/// A visit or sweep that improved something lowered the total.
proof fn lemma_visit_gains(c: Problem, s: int, w: Sweep, da: int, k: nat)
    requires
        refinable(c, s, w.a),
        0 <= da < c.n(),
        k <= 9,
        !w.improved,
        visit(c, s, w, da, k).improved,
    ensures
        cost::total(c, visit(c, s, w, da, k).a) < cost::total(c, w.a),
    decreases k,
{
    if k > 0 {
        assert(s > 0) by (nonlinear_arith)
            requires
                0 <= da < s * s,
                0 <= s,
        ;
        let v = visit(c, s, w, da, (k - 1) as nat);
        lemma_visit(c, s, w, da, (k - 1) as nat);
        lemma_neighbour(s, da, k - 1);
        if v.improved {
            lemma_visit_gains(c, s, w, da, (k - 1) as nat);
        }
        match neighbour(s, da, k - 1) {
            Some(db) if cheaper_swapped(c, v.a, da, db) => lemma_swap(c, s, v.a, da, db),
            _ => {},
        }
    }
}

proof fn lemma_sweep_gains(c: Problem, s: int, w: Sweep, m: nat)
    requires
        refinable(c, s, w.a),
        m <= c.n(),
        !w.improved,
        sweep(c, s, w, m).improved,
    ensures
        cost::total(c, sweep(c, s, w, m).a) < cost::total(c, w.a),
    decreases m,
{
    if m > 0 {
        let b = sweep(c, s, w, (m - 1) as nat);
        lemma_sweep(c, s, w, (m - 1) as nat);
        lemma_visit(c, s, b, m - 1, 9);
        if b.improved {
            lemma_sweep_gains(c, s, w, (m - 1) as nat);
        } else {
            lemma_visit_gains(c, s, b, m - 1, 9);
        }
    }
}

/// Two touching positions are compared when the first of them is visited.
proof fn lemma_touching_is_neighbour(s: int, p: int, q: int) -> (k: int)
    requires
        0 < s <= 65535,
        0 <= p < q < s * s,
        touching(p, q, s),
    ensures
        0 <= k < 9,
        neighbour(s, p, k) == Some(q),
{
    let dx = q % s - p % s + 1;
    let dy = q / s - p / s + 1;
    let k = dy * 3 + dx;
    cost::lemma_grid_pos(p, s);
    cost::lemma_grid_pos(q, s);
    vstd::arithmetic::div_mod::lemma_fundamental_div_mod(p, s);
    vstd::arithmetic::div_mod::lemma_fundamental_div_mod(q, s);
    assert(s * (q / s) == (q / s) * s) by (nonlinear_arith);
    assert(k % 3 == dx && k / 3 == dy);
    assert(k != 0) by {
        if k == 0 {
            let y = q / s;
            let z = p / s;
            assert(s * y < s * z) by (nonlinear_arith)
                requires
                    y == z - 1,
                    s > 0,
            ;
        }
    }
    k
}

/// Refinement arrives at an assignment in which no two touching targets would gain by
/// exchanging their sources, unless every sweep that it may make has lowered the cost.
pub proof fn lemma_refined_is_stable(c: Problem, s: int, a: Seq<usize>, sweeps: nat)
    requires
        refinable(c, s, a),
    ensures
        stable(c, s, refined(c, s, a, sweeps)) || cost::total(c, refined(c, s, a, sweeps)) + sweeps
            <= cost::total(c, a),
    decreases sweeps,
{
    if sweeps > 0 {
        let w0 = Sweep { a, improved: false };
        let w = sweep(c, s, w0, a.len());
        lemma_sweep(c, s, w0, a.len());
        if w.improved {
            lemma_sweep_gains(c, s, w0, a.len());
            lemma_refined_is_stable(c, s, w.a, (sweeps - 1) as nat);
        } else {
            lemma_sweep_finds_nothing(c, s, w0, a.len());
            assert forall|p: int, q: int|
                #![trigger a[p], a[q]]
                0 <= p < a.len() && 0 <= q < a.len() && touching(p, q, s) implies c.at(
                p,
                a[p] as int,
            ) + c.at(q, a[q] as int) <= c.at(p, a[q] as int) + c.at(q, a[p] as int) by {
                assert(s > 0) by (nonlinear_arith)
                    requires
                        0 <= p < s * s,
                        0 <= s,
                ;
                if p < q {
                    let k = lemma_touching_is_neighbour(s, p, q);
                    assert(!cheaper_swapped(c, a, p, q));
                } else {
                    let k = lemma_touching_is_neighbour(s, q, p);
                    assert(!cheaper_swapped(c, a, q, p));
                }
            }
        }
    }
}

/// What is stable stays as it is.
pub proof fn lemma_stable_stays(c: Problem, s: int, a: Seq<usize>, sweeps: nat)
    requires
        refinable(c, s, a),
        stable(c, s, a),
    ensures
        refined(c, s, a, sweeps) == a,
{
    if sweeps > 0 {
        lemma_stable_sweep(c, s, a, a.len());
    }
}

proof fn lemma_stable_sweep(c: Problem, s: int, a: Seq<usize>, m: nat)
    requires
        refinable(c, s, a),
        stable(c, s, a),
        m <= c.n(),
    ensures
        sweep(c, s, (Sweep { a, improved: false }), m) == (Sweep { a, improved: false }),
    decreases m,
{
    if m > 0 {
        lemma_stable_sweep(c, s, a, (m - 1) as nat);
        lemma_stable_visit(c, s, a, m - 1, 9);
    }
}

proof fn lemma_stable_visit(c: Problem, s: int, a: Seq<usize>, da: int, k: nat)
    requires
        refinable(c, s, a),
        stable(c, s, a),
        0 <= da < c.n(),
        k <= 9,
    ensures
        visit(c, s, (Sweep { a, improved: false }), da, k) == (Sweep { a, improved: false }),
    decreases k,
{
    if k > 0 {
        lemma_stable_visit(c, s, a, da, (k - 1) as nat);
        assert(s > 0) by (nonlinear_arith)
            requires
                0 <= da < s * s,
                0 <= s,
        ;
        lemma_neighbour(s, da, k - 1);
        match neighbour(s, da, k - 1) {
            Some(db) => {
                let x = da % s + (k - 1) % 3 - 1;
                let y = da / s + (k - 1) / 3 - 1;
                vstd::arithmetic::div_mod::lemma_fundamental_div_mod_converse(db, s, y, x);
                assert(touching(da, db, s));
                assert(a[da] == a[da] && a[db] == a[db]);
            },
            None => {},
        }
    }
}

/// A sweep asks once at its start, and before every batch of 1024 targets.
pub proof fn lemma_checks_of_a_sweep(targets: int)
    requires
        0 <= targets,
    ensures
        1024 * (checks_before(targets) - 1) >= targets,
        targets > 0 ==> 1024 * (checks_before(targets) - 2) < targets,
        checks_before(0) == 1,
{
}

} // verus!
