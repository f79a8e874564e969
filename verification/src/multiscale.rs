//! Multiscale sparse auction: the assignment is solved exactly at the coarsest
//! level of a resolution pyramid, refined by a sparse auction around the
//! prediction at every finer level, and cleaned up by local swaps.

use crate::auction;
use crate::candidates;
use crate::cost;
use crate::cost::{CostLookup, Problem, Rgb};
use crate::float::{Double, Real};
use crate::jonker_volgenant;
use crate::local_swap;
use crate::perm;
use crate::progress;
use crate::progress::{Beat, Checkpoint, MessageLog, ProgressSink, SolverControl};
use crate::pyramid;
use vstd::prelude::*;

verus! {

/// Number of epsilon phases per pyramid level.
pub const PHASES_PER_LEVEL: usize = 4;

/// Number of local swap sweeps at the finest level.
pub const FINAL_SWEEPS: usize = 3;

/// Two pictures with the weights of the target, in rows of `side` pixels.
#[verifier::ext_equal]
pub struct Pictures {
    pub source: Seq<Rgb>,
    pub target: Seq<Rgb>,
    pub weights: Seq<i64>,
    pub side: int,
    pub proximity_importance: i64,
}

impl Pictures {
    /// Square pictures whose costs fit the exact solver.
    pub open spec fn fit(self) -> bool {
        &&& pyramid::side_ok(self.side)
        &&& self.source.len() == self.side * self.side
        &&& self.target.len() == self.side * self.side
        &&& self.weights.len() == self.side * self.side
        &&& cost::grid_costs_fit(
            self.weights,
            self.side,
            self.proximity_importance as int,
            jonker_volgenant::exact_cost_limit(),
        )
    }

    /// The problem at the level of the given side.
    pub open spec fn at_level(self, level: int) -> Problem {
        cost::grid_problem(
            pyramid::pooled_pixels(self.source, self.side, level),
            pyramid::pooled_pixels(self.target, self.side, level),
            pyramid::pooled_weights(self.weights, self.side, level),
            level,
            self.proximity_importance,
        )
    }

    /// The assignment at level `i` of the pyramid.
    pub open spec fn level_assignment(self, levels: Seq<u32>, i: nat) -> Seq<usize>
        decreases i,
    {
        let c = self.at_level(levels[i as int] as int);
        if i == 0 {
            jonker_volgenant::exact_assignment(c)
        } else {
            let before = self.level_assignment(levels, (i - 1) as nat);
            let predicted = pyramid::upsampled(
                before,
                levels[i - 1] as int,
                levels[i as int] as int,
            );
            auction::auction_assignment(
                c,
                candidates::candidate_lists(c, predicted, levels[i as int] as int),
                None,
                PHASES_PER_LEVEL as nat,
            )
        }
    }

    /// The assignment that the multiscale solver arrives at for the problem `c`.
    pub open spec fn assignment(self, c: Problem) -> Seq<usize> {
        if c.n() == 0 {
            Seq::empty()
        } else if c.n() == 1 {
            seq![0usize]
        } else {
            let levels = pyramid::pyramid(self.side as u32);
            local_swap::refined(
                c,
                self.side,
                self.level_assignment(levels, (levels.len() - 1) as nat),
                FINAL_SWEEPS as nat,
            )
        }
    }

    /// The checkpoints of level `i`: one at its start, and those of its solver.
    pub open spec fn level_checks(self, levels: Seq<u32>, i: nat) -> int {
        let c = self.at_level(levels[i as int] as int);
        if i == 0 {
            1 + c.n() as int
        } else {
            let before = self.level_assignment(levels, (i - 1) as nat);
            let predicted = pyramid::upsampled(
                before,
                levels[i - 1] as int,
                levels[i as int] as int,
            );
            1 + auction::auction_checks(
                c,
                candidates::candidate_lists(c, predicted, levels[i as int] as int),
                None,
                PHASES_PER_LEVEL as nat,
            )
        }
    }

    /// The checkpoints of the first `k` levels.
    pub open spec fn checks_below(self, levels: Seq<u32>, k: nat) -> int
        decreases k,
    {
        if k == 0 {
            0
        } else {
            self.checks_below(levels, (k - 1) as nat) + self.level_checks(levels, (k - 1) as nat)
        }
    }

    /// The checkpoints of a solve of the problem `c` that is not refused.
    pub open spec fn checks(self, c: Problem) -> int {
        if c.n() <= 1 {
            0
        } else {
            let levels = pyramid::pyramid(self.side as u32);
            self.checks_below(levels, levels.len()) + local_swap::sweeps_made(
                c,
                self.side,
                self.level_assignment(levels, (levels.len() - 1) as nat),
                FINAL_SWEEPS as nat,
            ) * local_swap::checks_before(c.n() as int)
        }
    }

    /// What solving the problem `c` of these pictures asks of them; a problem
    /// of at most one pixel asks nothing.
    pub open spec fn solvable(self, c: Problem) -> bool {
        c.n() > 1 ==> {
            &&& self.fit()
            &&& c.n() == self.side * self.side
            &&& c.within(local_swap::pair_cost_limit())
        }
    }
}

proof fn lemma_checks_grow(p: Pictures, levels: Seq<u32>, k: nat, m: nat)
    requires
        k <= m,
    ensures
        0 <= p.checks_below(levels, k) <= p.checks_below(levels, m),
    decreases m,
{
    if m > 0 {
        let i = (m - 1) as nat;
        if i > 0 {
            let c = p.at_level(levels[i as int] as int);
            let before = p.level_assignment(levels, (i - 1) as nat);
            let predicted = pyramid::upsampled(
                before,
                levels[i - 1] as int,
                levels[i as int] as int,
            );
            auction::lemma_auction_checks(
                c,
                candidates::candidate_lists(c, predicted, levels[i as int] as int),
                None,
                PHASES_PER_LEVEL as nat,
            );
        }
        if k < m {
            lemma_checks_grow(p, levels, k, i);
        } else {
            lemma_checks_grow(p, levels, i, i);
        }
    }
}

proof fn lemma_level_within(p: Pictures, level: int)
    requires
        p.fit(),
        pyramid::side_ok(level),
        level <= p.side,
    ensures
        p.at_level(level).within(jonker_volgenant::exact_cost_limit()),
        p.at_level(level).n() == level * level,
{
    pyramid::lemma_pooled_costs_fit(
        p.weights,
        p.side,
        level,
        p.proximity_importance as int,
        jonker_volgenant::exact_cost_limit(),
    );
    assert(level * level >= 0) by (nonlinear_arith);
    cost::lemma_grid_within(
        pyramid::pooled_pixels(p.source, p.side, level),
        pyramid::pooled_pixels(p.target, p.side, level),
        pyramid::pooled_weights(p.weights, p.side, level),
        level,
        p.proximity_importance,
        jonker_volgenant::exact_cost_limit(),
    );
}

proof fn lemma_level_is_permutation(p: Pictures, levels: Seq<u32>, i: nat)
    requires
        p.fit(),
        i < levels.len(),
        forall|k: int| 0 <= k < levels.len() ==> 0 < (#[trigger] levels[k]) <= p.side,
    ensures
        perm::is_perm(
            p.level_assignment(levels, i),
            (levels[i as int] * levels[i as int]) as nat,
        ),
{
    let level = levels[i as int] as int;
    let c = p.at_level(level);
    lemma_level_within(p, level);
    assert(level * level <= 65535 * 65535) by (nonlinear_arith)
        requires
            0 < level <= 65535,
    ;
    if i == 0 {
        jonker_volgenant::lemma_exact_is_optimal(c);
    } else {
        let predicted = pyramid::upsampled(
            p.level_assignment(levels, (i - 1) as nat),
            levels[i - 1] as int,
            level,
        );
        auction::lemma_auction_is_permutation(
            c,
            candidates::candidate_lists(c, predicted, level),
            None,
            PHASES_PER_LEVEL as nat,
        );
    }
}

/// The multiscale assignment is a permutation.
pub proof fn lemma_multiscale_is_permutation(p: Pictures, c: Problem)
    requires
        p.solvable(c),
    ensures
        perm::is_perm(p.assignment(c), c.n()),
{
    if c.n() > 1 {
        let levels = pyramid::pyramid(p.side as u32);
        pyramid::lemma_levels(pyramid::COARSEST_SIDELEN as nat, p.side as nat);
        let last = (levels.len() - 1) as nat;
        lemma_level_is_permutation(p, levels, last);
        let a = p.level_assignment(levels, last);
        assert(local_swap::refinable(c, p.side, a));
        local_swap::lemma_refined_no_worse(c, p.side, a, FINAL_SWEEPS as nat);
    }
}

/// Pictures no larger than the coarsest level are solved exactly.
pub proof fn lemma_small_pictures_are_optimal(p: Pictures)
    requires
        p.fit(),
        p.side <= pyramid::COARSEST_SIDELEN,
    ensures
        jonker_volgenant::optimal(p.at_level(p.side), p.assignment(p.at_level(p.side))),
{
    let c = p.at_level(p.side);
    lemma_level_within(p, p.side);
    assert(0 < p.side * p.side <= 65535 * 65535) by (nonlinear_arith)
        requires
            0 < p.side <= 65535,
    ;
    jonker_volgenant::lemma_exact_is_optimal(c);
    let a = p.assignment(c);
    if c.n() > 1 {
        let levels = pyramid::pyramid(p.side as u32);
        assert(levels =~= seq![p.side as u32]);
        let exact = p.level_assignment(levels, 0);
        assert(exact == jonker_volgenant::exact_assignment(c));
        cost::lemma_within_more(
            c,
            jonker_volgenant::exact_cost_limit(),
            local_swap::pair_cost_limit(),
        );
        local_swap::lemma_refined_no_worse(c, p.side, exact, FINAL_SWEEPS as nat);
    } else {
        assert(perm::is_perm(a, 1));
        assert forall|q: Seq<usize>| #[trigger] perm::is_perm(q, 1) implies q == a by {
            assert(q[0] < 1);
            assert(q =~= a);
        }
    }
}

/// Builds the lookup of a pyramid level by downsampling.
pub fn level_cost(
    source: &[Rgb],
    target: &[Rgb],
    weights: &[i64],
    full_sidelen: u32,
    level_sidelen: u32,
    proximity_importance: i64,
) -> (r: CostLookup)
    requires
        pyramid::side_ok(full_sidelen as int),
        pyramid::side_ok(level_sidelen as int),
        source@.len() >= full_sidelen * full_sidelen,
        target@.len() >= full_sidelen * full_sidelen,
        weights@.len() >= full_sidelen * full_sidelen,
    ensures
        r@ == (Pictures {
            source: source@,
            target: target@,
            weights: weights@,
            side: full_sidelen as int,
            proximity_importance,
        }).at_level(level_sidelen as int),
        r.sidelen == level_sidelen,
{
    CostLookup::new(
        pyramid::downsample_pixels(source, full_sidelen, level_sidelen),
        pyramid::downsample_pixels(target, full_sidelen, level_sidelen),
        pyramid::downsample_weights(weights, full_sidelen, level_sidelen),
        level_sidelen,
        proximity_importance,
    )
}

fn zeros(n: usize) -> (r: Vec<Double>)
    ensures
        r@.len() == n,
        forall|i: int|
            0 <= i < n ==> (#[trigger] r@[i]).valid() && r@[i].value() == Real::zero(),
{
    vec![Double::zero(); n]
}

/// Zero prices are the prices that an auction starts with anyway.
proof fn lemma_zero_prices(
    c: Problem,
    cands: Seq<Seq<usize>>,
    prices: Seq<Double>,
    phases: nat,
)
    requires
        prices.len() == c.n(),
        forall|i: int| 0 <= i < prices.len() ==> (#[trigger] prices[i]).value() == Real::zero(),
    ensures
        auction::auction_assignment(c, cands, Some(auction::values(prices)), phases)
            == auction::auction_assignment(c, cands, None, phases),
        auction::auction_checks(c, cands, Some(auction::values(prices)), phases)
            == auction::auction_checks(c, cands, None, phases),
{
    assert(auction::first_prices(Some(auction::values(prices)), c.n())
        =~= auction::first_prices(None, c.n()));
}

/// The solver behind [`solve`], with checkpoints; `None` if one of them
/// stopped it. A reporting beat tells the level that is being worked on.
pub fn solve_inner<S: ProgressSink, C: Checkpoint>(
    cost: &CostLookup,
    source_pixels: &[Rgb],
    target_pixels: &[Rgb],
    weights: &[i64],
    sidelen: u32,
    proximity_importance: i64,
    tx: &mut S,
    control: &mut C,
    report: bool,
) -> (r: Option<Vec<usize>>)
    requires
        (Pictures {
            source: source_pixels@,
            target: target_pixels@,
            weights: weights@,
            side: sidelen as int,
            proximity_importance,
        }).solvable(cost@),
    ensures
        ({
            let total = pyramid::pyramid(sidelen).len();
            cost@.n() > 1 ==> progress::ran(
                (Beat { report, level: 0, total: total as usize }),
                total,
                r is Some,
                old(control).answers(),
                final(control).answers(),
                old(tx).log(),
                final(tx).log(),
            )
        }),
        ({
            let total = pyramid::pyramid(sidelen).len();
            cost@.n() > 1 && report && r is Some ==> progress::covered(
                old(tx).log(),
                final(tx).log(),
                total + 1,
                total,
            )
        }),
        ({
            let total = pyramid::pyramid(sidelen).len();
            cost@.n() > 1 ==> progress::started_at(
                (Beat { report, level: 0, total: total as usize }),
                old(control).answers(),
                final(control).answers(),
                old(tx).log(),
                final(tx).log(),
            )
        }),
        ({
            let total = pyramid::pyramid(sidelen).len();
            cost@.n() > 1 && report && r is Some ==> final(tx).log().last()
                == progress::level_progress(total, total)
        }),
        ({
            let asked = final(control).answers().len() - old(control).answers().len();
            let all = (Pictures {
                source: source_pixels@,
                target: target_pixels@,
                weights: weights@,
                side: sidelen as int,
                proximity_importance,
            }).checks(cost@);
            &&& r is Some ==> asked == all
            &&& r is None ==> 0 < asked <= all
        }),
        cost@.n() <= 1 ==> r is Some && final(control).answers() == old(control).answers()
            && final(tx).log() == old(tx).log(),
        old(control).never_refuses() ==> r is Some && final(control).never_refuses(),
        r matches Some(a) ==> {
            &&& perm::is_perm(a@, cost@.n())
            &&& a@ == (Pictures {
                source: source_pixels@,
                target: target_pixels@,
                weights: weights@,
                side: sidelen as int,
                proximity_importance,
            }).assignment(cost@)
        },
{
    let n: usize = cost.n_dst();
    if n == 0 {
        let r: Vec<usize> = Vec::new();
        assert(r@ =~= Seq::empty());
        return Some(r);
    }
    if n == 1 {
        let r: Vec<usize> = vec![0];
        assert(r@ =~= seq![0usize]);
        return Some(r);
    }
    let ghost p = Pictures {
        source: source_pixels@,
        target: target_pixels@,
        weights: weights@,
        side: sidelen as int,
        proximity_importance,
    };
    let levels = pyramid::build_pyramid(sidelen);
    let total: usize = levels.len();
    proof {
        pyramid::lemma_levels(pyramid::COARSEST_SIDELEN as nat, sidelen as nat);
    }
    let ghost first = Beat { report, level: 0, total };
    let mut before: Vec<usize> = Vec::new();
    let mut prices: Vec<Double> = Vec::new();
    let mut i: usize = 0;
    proof {
        let last = p.level_assignment(levels@, (total - 1) as nat);
        let made = local_swap::sweeps_made(cost@, p.side, last, FINAL_SWEEPS as nat);
        let each = local_swap::checks_before(n as int);
        assert(made * each >= 0) by (nonlinear_arith)
            requires
                made >= 0,
                each >= 0,
        ;
        progress::lemma_climb_start(first, control.answers(), tx.log());
    }
    while i < total
        invariant
            p == (Pictures {
                source: source_pixels@,
                target: target_pixels@,
                weights: weights@,
                side: sidelen as int,
                proximity_importance,
            }),
            p.fit(),
            n == cost@.n(),
            n > 1,
            levels@ == pyramid::pyramid(sidelen),
            total == levels@.len(),
            total <= 0x1_0000,
            first == (Beat { report, level: 0, total }),
            i <= total,
            forall|k: int|
                0 <= k < total ==> 0 < (#[trigger] levels@[k]) <= sidelen,
            i > 0 ==> {
                let side = levels@[i - 1] as int;
                &&& before@ == p.level_assignment(levels@, (i - 1) as nat)
                &&& perm::is_perm(before@, (side * side) as nat)
                &&& prices@.len() == side * side
                &&& forall|k: int|
                    0 <= k < prices@.len() ==> (#[trigger] prices@[k]).valid()
                        && prices@[k].value() == Real::zero()
            },
            control.answers().len() == old(control).answers().len() + p.checks_below(
                levels@,
                i as nat,
            ),
            p.checks(cost@) >= p.checks_below(levels@, total as nat),
            progress::climbed(
                first,
                i as nat,
                old(control).answers(),
                control.answers(),
                old(tx).log(),
                tx.log(),
            ),
            old(control).never_refuses() ==> control.never_refuses(),
        decreases total - i,
    {
        let beat = Beat { report, level: i, total };
        let ghost a1 = control.answers();
        let ghost l1 = tx.log();
        let go = beat.pass(tx, control);
        proof {
            progress::lemma_climb_enter(
                first,
                beat,
                go,
                old(control).answers(),
                a1,
                control.answers(),
                old(tx).log(),
                l1,
                tx.log(),
            );
        }
        proof {
            lemma_checks_grow(p, levels@, (i + 1) as nat, total as nat);
            lemma_checks_grow(p, levels@, i as nat, i as nat);
        }
        if !go {
            proof {
                if i > 0 {
                    let predicted = pyramid::upsampled(
                        p.level_assignment(levels@, (i - 1) as nat),
                        levels@[i - 1] as int,
                        levels@[i as int] as int,
                    );
                    let c = p.at_level(levels@[i as int] as int);
                    auction::lemma_auction_checks(
                        c,
                        candidates::candidate_lists(c, predicted, levels@[i as int] as int),
                        None,
                        PHASES_PER_LEVEL as nat,
                    );
                }
            }
            return None;
        }
        let level: u32 = levels[i];
        assert(0 < levels@[i as int] <= sidelen);
        let lookup = level_cost(
            source_pixels,
            target_pixels,
            weights,
            sidelen,
            level,
            proximity_importance,
        );
        let ghost c = p.at_level(level as int);
        proof {
            lemma_level_within(p, level as int);
        }
        let ghost a2 = control.answers();
        let ghost l2 = tx.log();
        let solved = if i == 0 {
            jonker_volgenant::solve_with_checkpoint(&lookup, tx, control, beat)
        } else {
            let from: u32 = levels[i - 1];
            assert(0 < levels@[i - 1] <= sidelen);
            let predicted = pyramid::upsample_assignment(&before, from, level);
            let lists = candidates::build_candidates(&lookup, &predicted, level);
            let warm = pyramid::upsample_prices(&prices, from, level);
            proof {
                cost::lemma_within_more(
                    c,
                    jonker_volgenant::exact_cost_limit(),
                    i64::MAX as int,
                );
                assert(auction::lists(lists@) =~= candidates::candidate_lists(
                    c,
                    predicted@,
                    level as int,
                ));
                assert forall|k: int| 0 <= k < warm@.len() implies (#[trigger] warm@[k]).valid()
                    && warm@[k].value() == Real::zero() by {
                    if from != level {
                        pyramid::lemma_coarse_of(k, from as int, level as int);
                        let j = pyramid::coarse_of(k, from as int, level as int);
                        assert(warm@[k] == prices@[j]);
                    } else {
                        assert(warm@[k] == prices@[k]);
                    }
                }
                lemma_zero_prices(
                    c,
                    candidates::candidate_lists(c, predicted@, level as int),
                    warm@,
                    PHASES_PER_LEVEL as nat,
                );
            }
            auction::sparse_auction_with_checkpoint(
                &lookup,
                &lists,
                Some(&warm),
                PHASES_PER_LEVEL,
                tx,
                control,
                beat,
            )
        };
        proof {
            progress::lemma_climb_level(
                first,
                beat,
                solved is Some,
                old(control).answers(),
                a2,
                control.answers(),
                old(tx).log(),
                l2,
                tx.log(),
            );
        }
        match solved {
            None => {
                return None;
            },
            Some(a) => {
                before = a;
            },
        }
        prices = zeros(lookup.n_dst());
        i += 1;
    }
    let ghost unrefined = before@;
    let beat = Beat { report, level: total, total };
    let ghost a1 = control.answers();
    let ghost l1 = tx.log();
    let go = local_swap::local_swap_refinement_with_checkpoint(
        cost,
        &mut before,
        sidelen,
        FINAL_SWEEPS,
        tx,
        control,
        beat,
    );
    proof {
        lemma_checks_grow(p, levels@, total as nat, total as nat);
        let made = local_swap::sweeps_made(
            cost@,
            sidelen as int,
            unrefined,
            FINAL_SWEEPS as nat,
        );
        let each = local_swap::checks_before(n as int);
        assert(made >= 1);
        assert(each >= 1);
        assert(made * each >= 1) by (nonlinear_arith)
            requires
                made >= 1,
                each >= 1,
        ;
        progress::lemma_climb_end(
            first,
            beat,
            go,
            old(control).answers(),
            a1,
            control.answers(),
            old(tx).log(),
            l1,
            tx.log(),
        );
    }
    if !go {
        return None;
    }
    Some(before)
}

/// The multiscale solver with checkpoints; `None` if one of them stopped it.
pub fn solve_with_checkpoint<C: Checkpoint>(
    cost: &CostLookup,
    source_pixels: &[Rgb],
    target_pixels: &[Rgb],
    weights: &[i64],
    sidelen: u32,
    proximity_importance: i64,
    control: &mut C,
) -> (r: Option<Vec<usize>>)
    requires
        (Pictures {
            source: source_pixels@,
            target: target_pixels@,
            weights: weights@,
            side: sidelen as int,
            proximity_importance,
        }).solvable(cost@),
    ensures
        r is Some ==> progress::all_passed(old(control).answers(), final(control).answers()),
        r is None ==> progress::stopped(old(control).answers(), final(control).answers()),
        ({
            let asked = final(control).answers().len() - old(control).answers().len();
            let all = (Pictures {
                source: source_pixels@,
                target: target_pixels@,
                weights: weights@,
                side: sidelen as int,
                proximity_importance,
            }).checks(cost@);
            &&& r is Some ==> asked == all
            &&& r is None ==> 0 < asked <= all
        }),
        old(control).never_refuses() ==> r is Some && final(control).never_refuses(),
        r matches Some(a) ==> {
            &&& perm::is_perm(a@, cost@.n())
            &&& a@ == (Pictures {
                source: source_pixels@,
                target: target_pixels@,
                weights: weights@,
                side: sidelen as int,
                proximity_importance,
            }).assignment(cost@)
        },
{
    let mut tx = MessageLog::new();
    solve_inner(
        cost,
        source_pixels,
        target_pixels,
        weights,
        sidelen,
        proximity_importance,
        &mut tx,
        control,
        false,
    )
}

/// Runs the multiscale sparse auction and returns the assignment.
pub fn solve(
    cost: &CostLookup,
    source_pixels: &[Rgb],
    target_pixels: &[Rgb],
    weights: &[i64],
    sidelen: u32,
    proximity_importance: i64,
) -> (r: Vec<usize>)
    requires
        (Pictures {
            source: source_pixels@,
            target: target_pixels@,
            weights: weights@,
            side: sidelen as int,
            proximity_importance,
        }).solvable(cost@),
    ensures
        perm::is_perm(r@, cost@.n()),
        r@ == (Pictures {
            source: source_pixels@,
            target: target_pixels@,
            weights: weights@,
            side: sidelen as int,
            proximity_importance,
        }).assignment(cost@),
{
    let mut control = SolverControl::default();
    solve_with_checkpoint(
        cost,
        source_pixels,
        target_pixels,
        weights,
        sidelen,
        proximity_importance,
        &mut control,
    ).unwrap()
}

/// The sides of a pyramid: the coarsest, or the target if it is no larger; from each the
/// double, as long as that is below the target; and the target.
pub open spec fn climbs(levels: Seq<u32>, target: int) -> bool {
    &&& levels.len() > 0
    &&& levels[0] == if target < 16 {
        target
    } else {
        16
    }
    &&& levels.last() == target
    &&& forall|k: int|
        0 <= k < levels.len() - 1 ==> {
            &&& (#[trigger] levels[k]) < target
            &&& levels[k + 1] == if 2 * levels[k] < target {
                2 * levels[k]
            } else {
                target
            }
        }
}

proof fn lemma_climbs_unique(one: Seq<u32>, other: Seq<u32>, target: int, k: nat)
    requires
        climbs(one, target),
        climbs(other, target),
        k < one.len(),
    ensures
        k < other.len(),
        one[k as int] == other[k as int],
        k == one.len() - 1 ==> other.len() == one.len(),
    decreases k,
{
    if k > 0 {
        lemma_climbs_unique(one, other, target, (k - 1) as nat);
        assert(one[k - 1] < target);
        if k >= other.len() {
            assert(other[k - 1] == other.last());
        }
    }
    if k < one.len() - 1 {
    } else if k < other.len() - 1 {
        assert(other[k as int] < target);
        assert(one[k as int] == one.last());
    }
}

/// The sides that climb to a target are those of its pyramid.
pub proof fn lemma_climbs_is_the_pyramid(levels: Seq<u32>, target: u32)
    requires
        0 < target,
        climbs(levels, target as int),
    ensures
        levels == pyramid::pyramid(target),
{
    let own = pyramid::pyramid(target);
    pyramid::lemma_pyramid_doubles(target);
    assert(climbs(own, target as int));
    assert forall|k: int| 0 <= k < levels.len() implies k < own.len() && levels[k] == own[k] by {
        lemma_climbs_unique(levels, own, target as int, k as nat);
    }
    lemma_climbs_unique(levels, own, target as int, (levels.len() - 1) as nat);
    assert(levels =~= own);
}

/// The multiscale solver climbs the pyramid and ends with local swaps: its assignment is
/// no dearer than that of the last level, and no two touching targets would gain by
/// exchanging their sources unless three sweeps have each lowered the cost.
pub proof fn lemma_multiscale_climbs(p: Pictures, c: Problem, levels: Seq<u32>)
    requires
        p.solvable(c),
        c.n() > 1,
        climbs(levels, p.side),
    ensures
        ({
            let last = p.level_assignment(levels, (levels.len() - 1) as nat);
            let a = p.assignment(c);
            &&& cost::total(c, a) <= cost::total(c, last)
            &&& local_swap::stable(c, p.side, a) || cost::total(c, a) + 3 <= cost::total(c, last)
            &&& local_swap::stable(c, p.side, last) ==> a == last
        }),
{
    lemma_climbs_is_the_pyramid(levels, p.side as u32);
    pyramid::lemma_levels(pyramid::COARSEST_SIDELEN as nat, p.side as nat);
    let last = (levels.len() - 1) as nat;
    lemma_level_is_permutation(p, levels, last);
    let a = p.level_assignment(levels, last);
    assert(local_swap::refinable(c, p.side, a));
    local_swap::lemma_refined_no_worse(c, p.side, a, 3);
    local_swap::lemma_refined_is_stable(c, p.side, a, 3);
    if local_swap::stable(c, p.side, a) {
        local_swap::lemma_stable_stays(c, p.side, a, 3);
    }
}

/// The coarsest level is solved exactly.
pub proof fn lemma_coarsest_level_is_optimal(p: Pictures, levels: Seq<u32>)
    requires
        p.fit(),
        levels.len() > 0,
        0 < levels[0] <= p.side,
    ensures
        jonker_volgenant::optimal(p.at_level(levels[0] as int), p.level_assignment(levels, 0)),
{
    let level = levels[0] as int;
    lemma_level_within(p, level);
    assert(level * level <= 65535 * 65535) by (nonlinear_arith)
        requires
            0 < level <= 65535,
    ;
    jonker_volgenant::lemma_exact_is_optimal(p.at_level(level));
}

/// Every finer level is solved by an auction of four epsilon phases around the
/// prediction from the level before, whichever way the candidates are listed.
pub proof fn lemma_level_refines_the_prediction(
    p: Pictures,
    levels: Seq<u32>,
    i: nat,
    lists: Seq<Seq<usize>>,
)
    requires
        p.fit(),
        0 < i < levels.len(),
        forall|k: int| 0 <= k < levels.len() ==> 0 < (#[trigger] levels[k]) <= p.side,
        lists.len() == levels[i as int] * levels[i as int],
        forall|d: int, u: usize|
            0 <= d < lists.len() ==> (#[trigger] lists[d].contains(u) <==> candidates::candidate_of(
                p.at_level(levels[i as int] as int),
                d as nat,
                pyramid::upsampled(
                    p.level_assignment(levels, (i - 1) as nat),
                    levels[i - 1] as int,
                    levels[i as int] as int,
                )[d],
                levels[i as int] as int,
                u,
            )),
    ensures
        p.level_assignment(levels, i) == auction::auction_assignment(
            p.at_level(levels[i as int] as int),
            lists,
            None,
            4,
        ),
{
    let level = levels[i as int] as int;
    let from = levels[i - 1] as int;
    let c = p.at_level(level);
    lemma_level_within(p, level);
    let before = p.level_assignment(levels, (i - 1) as nat);
    lemma_level_is_permutation(p, levels, (i - 1) as nat);
    let predicted = pyramid::upsampled(before, from, level);
    let made = candidates::candidate_lists(c, predicted, level);
    assert forall|d: int, u: usize| 0 <= d < made.len() implies (#[trigger] made[d].contains(u)
        <==> lists[d].contains(u)) by {
        pyramid::lemma_prediction_in_range(before, from, level, d);
        candidates::lemma_candidate_members(c, d as nat, predicted[d], level, u);
    }
    auction::lemma_same_candidates(c, made, lists, None, 4);
}

/// The problem of a level is made of the pictures averaged to that level: source,
/// target and weights each of their own.
pub proof fn lemma_level_pools_its_own_pictures(p: Pictures, level: int, k: int)
    requires
        p.fit(),
        pyramid::side_ok(level),
        0 <= k < level * level,
    ensures
        ({
            let c = p.at_level(level);
            let s = p.side;
            &&& c.n() == level * level
            &&& pyramid::averages(|i: int| p.source[i].0 as int, s, level, k, c.source[k].0 as int)
            &&& pyramid::averages(|i: int| p.source[i].1 as int, s, level, k, c.source[k].1 as int)
            &&& pyramid::averages(|i: int| p.source[i].2 as int, s, level, k, c.source[k].2 as int)
            &&& pyramid::averages(|i: int| p.target[i].0 as int, s, level, k, c.target[k].0 as int)
            &&& pyramid::averages(|i: int| p.target[i].1 as int, s, level, k, c.target[k].1 as int)
            &&& pyramid::averages(|i: int| p.target[i].2 as int, s, level, k, c.target[k].2 as int)
            &&& pyramid::averages_to_zero(
                |i: int| p.weights[i] as int,
                s,
                level,
                k,
                c.weights[k] as int,
            )
            &&& c.dst_positions[k] == ((k % level) as u16, (k / level) as u16)
            &&& c.src_positions[k] == ((k % level) as u16, (k / level) as u16)
            &&& c.proximity_importance == p.proximity_importance
        }),
{
    pyramid::lemma_pooled_pixels_average(p.source, p.side, level, k);
    pyramid::lemma_pooled_pixels_average(p.target, p.side, level, k);
    pyramid::lemma_pooled_weights_average(p.weights, p.side, level, k);
}

} // verus!
