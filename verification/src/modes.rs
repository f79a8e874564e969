//! Composed solver modes with different trade-offs of quality and run time.

use crate::auction;
use crate::cost;
use crate::cost::{CostLookup, Problem, Rgb};
use crate::local_swap;
use crate::multiscale;
use crate::multiscale::Pictures;
use crate::patchmatch;
use crate::perm;
use vstd::prelude::*;

verus! {

/// Local swap sweeps of the fast mode.
pub const FAST_SWEEPS: usize = 1;

/// Epsilon phases of the dense auction in the maximum mode.
pub const MAXIMUM_PHASES: usize = 8;

/// Local swap sweeps of the maximum mode.
pub const MAXIMUM_SWEEPS: usize = 5;

/// A grid problem whose costs can be added in pairs.
pub open spec fn swappable(c: Problem, s: int) -> bool {
    &&& c.within(local_swap::pair_cost_limit())
    &&& c.n() == s * s
    &&& 0 <= s <= 65535
}

/// The assignment of the fast mode.
pub open spec fn fast_assignment(c: Problem, s: int) -> Seq<usize> {
    if c.n() <= 1 {
        patchmatch::patchmatch_assignment(c, s)
    } else {
        local_swap::refined(c, s, patchmatch::patchmatch_assignment(c, s), FAST_SWEEPS as nat)
    }
}

/// Fast mode: PatchMatch with repair, then one pass of local swaps.
pub fn solve_fast(cost: &CostLookup, sidelen: u32) -> (r: Vec<usize>)
    requires
        cost@.n() > 1 ==> swappable(cost@, sidelen as int),
    ensures
        perm::is_perm(r@, cost@.n()),
        r@ == fast_assignment(cost@, sidelen as int),
        cost@.n() > 1 ==> cost::total(cost@, r@) <= cost::total(
            cost@,
            patchmatch::patchmatch_assignment(cost@, sidelen as int),
        ),
{
    let n: usize = cost.n_dst();
    proof {
        if n > 1 {
            cost::lemma_within_more(cost@, local_swap::pair_cost_limit(), i64::MAX as int);
        }
    }
    let mut assignments = patchmatch::solve(cost, sidelen);
    if n > 1 {
        local_swap::local_swap_refinement(cost, &mut assignments, sidelen, FAST_SWEEPS);
    }
    assignments
}

/// Balanced mode: the full multiscale pipeline.
pub fn solve_balanced(
    cost: &CostLookup,
    source_pixels: &[Rgb],
    target_pixels: &[Rgb],
    weights: &[i64],
    sidelen: u32,
    proximity_importance: i64,
) -> (r: Vec<usize>)
    requires
        (Pictures {
            source: source_pixels@,
            target: target_pixels@,
            weights: weights@,
            side: sidelen as int,
            proximity_importance,
        }).solvable(cost@),
    ensures
        perm::is_perm(r@, cost@.n()),
        r@ == (Pictures {
            source: source_pixels@,
            target: target_pixels@,
            weights: weights@,
            side: sidelen as int,
            proximity_importance,
        }).assignment(cost@),
{
    multiscale::solve(
        cost,
        source_pixels,
        target_pixels,
        weights,
        sidelen,
        proximity_importance,
    )
}

/// What the maximum mode starts its final sweeps from: the dense auction's
/// assignment where there is one and it is cheaper, else the balanced one.
pub open spec fn better_start(c: Problem, balanced: Seq<usize>) -> Seq<usize> {
    let dense = auction::auction_assignment(
        c,
        auction::dense_lists(c.n()),
        None,
        MAXIMUM_PHASES as nat,
    );
    if c.n() <= auction::MAX_DENSE_AUCTION_N && cost::saturated_total(c, dense, dense.len())
        < cost::saturated_total(c, balanced, balanced.len()) {
        dense
    } else {
        balanced
    }
}

/// The assignment of the maximum mode.
pub open spec fn maximum_assignment(c: Problem, p: Pictures) -> Seq<usize> {
    if c.n() <= 1 {
        p.assignment(c)
    } else {
        local_swap::refined(c, p.side, better_start(c, p.assignment(c)), MAXIMUM_SWEEPS as nat)
    }
}

/// A permutation of a problem with computable costs can be totalled and refined.
proof fn lemma_permutation_usable(c: Problem, s: int, a: Seq<usize>)
    requires
        swappable(c, s),
        perm::is_perm(a, c.n()),
    ensures
        cost::assigns(c, a),
        local_swap::refinable(c, s, a),
{
    assert forall|i: int| 0 <= i < a.len() implies (#[trigger] a[i]) < c.source.len() && c.at_fits(
        i,
        a[i] as int,
    ) by {
        let lim = local_swap::pair_cost_limit();
        assert(-lim <= c.at(i, a[i] as int) <= lim);
    }
}

/// Maximum mode: the balanced result, or the dense auction's where it is
/// small enough to run and cheaper, refined by local swaps.
pub fn solve_maximum(
    cost: &CostLookup,
    source_pixels: &[Rgb],
    target_pixels: &[Rgb],
    weights: &[i64],
    sidelen: u32,
    proximity_importance: i64,
) -> (r: Vec<usize>)
    requires
        (Pictures {
            source: source_pixels@,
            target: target_pixels@,
            weights: weights@,
            side: sidelen as int,
            proximity_importance,
        }).solvable(cost@),
    ensures
        perm::is_perm(r@, cost@.n()),
        r@ == maximum_assignment(
            cost@,
            (Pictures {
                source: source_pixels@,
                target: target_pixels@,
                weights: weights@,
                side: sidelen as int,
                proximity_importance,
            }),
        ),
{
    let n: usize = cost.n_dst();
    let ghost p = Pictures {
        source: source_pixels@,
        target: target_pixels@,
        weights: weights@,
        side: sidelen as int,
        proximity_importance,
    };
    let mut assignments = solve_balanced(
        cost,
        source_pixels,
        target_pixels,
        weights,
        sidelen,
        proximity_importance,
    );
    if n <= 1 {
        return assignments;
    }
    proof {
        cost::lemma_within_more(cost@, local_swap::pair_cost_limit(), i64::MAX as int);
        lemma_permutation_usable(cost@, sidelen as int, assignments@);
    }
    match auction::solve_dense(cost, MAXIMUM_PHASES) {
        Some(dense) => {
            proof {
                lemma_permutation_usable(cost@, sidelen as int, dense@);
            }
            let current: i64 = cost::total_cost(cost, &assignments);
            let other: i64 = cost::total_cost(cost, &dense);
            if other < current {
                assignments = dense;
            }
        },
        None => {},
    }
    assert(assignments@ == better_start(cost@, p.assignment(cost@)));
    local_swap::local_swap_refinement(cost, &mut assignments, sidelen, MAXIMUM_SWEEPS);
    assignments
}

/// The maximum mode is never more expensive than the balanced mode.
pub proof fn lemma_maximum_no_worse_than_balanced(c: Problem, p: Pictures, bound: int)
    requires
        c.n() > 1,
        p.solvable(c),
        c.within(bound),
        c.n() * bound <= i64::MAX,
    ensures
        cost::total(c, maximum_assignment(c, p)) <= cost::total(c, p.assignment(c)),
{
    let balanced = p.assignment(c);
    multiscale::lemma_multiscale_is_permutation(p, c);
    let side = p.side;
    assert(c.n() <= 65535 * 65535) by (nonlinear_arith)
        requires
            c.n() == side * side,
            0 < side <= 65535,
    ;
    let dense = auction::auction_assignment(
        c,
        auction::dense_lists(c.n()),
        None,
        MAXIMUM_PHASES as nat,
    );
    auction::lemma_auction_is_permutation(
        c,
        auction::dense_lists(c.n()),
        None,
        MAXIMUM_PHASES as nat,
    );
    cost::lemma_total_exact(c, balanced, bound);
    cost::lemma_total_exact(c, dense, bound);
    let start = better_start(c, balanced);
    lemma_permutation_usable(c, p.side, start);
    local_swap::lemma_refined_no_worse(c, p.side, start, MAXIMUM_SWEEPS as nat);
}

/// The fast mode gives a permutation.
pub proof fn lemma_fast_is_permutation(c: Problem, s: int)
    requires
        c.n() > 1 ==> swappable(c, s),
    ensures
        perm::is_perm(fast_assignment(c, s), c.n()),
{
    if c.n() > 1 {
        assert(c.n() <= 65535 * 65535) by (nonlinear_arith)
            requires
                c.n() == s * s,
                0 <= s <= 65535,
        ;
        let a = patchmatch::patchmatch_assignment(c, s);
        patchmatch::lemma_patchmatch_is_permutation(c, s);
        lemma_permutation_usable(c, s, a);
        local_swap::lemma_refined_no_worse(c, s, a, FAST_SWEEPS as nat);
    } else {
        patchmatch::lemma_patchmatch_is_permutation(c, s);
    }
}

/// The maximum mode gives a permutation.
pub proof fn lemma_maximum_is_permutation(c: Problem, p: Pictures)
    requires
        p.solvable(c),
    ensures
        perm::is_perm(maximum_assignment(c, p), c.n()),
{
    multiscale::lemma_multiscale_is_permutation(p, c);
    if c.n() > 1 {
        let side = p.side;
        assert(c.n() <= 65535 * 65535) by (nonlinear_arith)
            requires
                c.n() == side * side,
                0 < side <= 65535,
        ;
        auction::lemma_auction_is_permutation(
            c,
            auction::dense_lists(c.n()),
            None,
            MAXIMUM_PHASES as nat,
        );
        let start = better_start(c, p.assignment(c));
        lemma_permutation_usable(c, side, start);
        local_swap::lemma_refined_no_worse(c, side, start, MAXIMUM_SWEEPS as nat);
    }
}

/// The fast mode is no dearer than PatchMatch, and no two touching targets would gain by
/// exchanging their sources unless its one sweep has lowered the cost.
pub proof fn lemma_fast_refines_patchmatch(c: Problem, s: int)
    requires
        c.n() > 1,
        swappable(c, s),
    ensures
        ({
            let before = patchmatch::patchmatch_assignment(c, s);
            let a = fast_assignment(c, s);
            &&& cost::total(c, a) <= cost::total(c, before)
            &&& local_swap::stable(c, s, a) || cost::total(c, a) < cost::total(c, before)
            &&& local_swap::stable(c, s, before) ==> a == before
        }),
{
    assert(c.n() <= 65535 * 65535) by (nonlinear_arith)
        requires
            c.n() == s * s,
            0 <= s <= 65535,
    ;
    let before = patchmatch::patchmatch_assignment(c, s);
    patchmatch::lemma_patchmatch_is_permutation(c, s);
    lemma_permutation_usable(c, s, before);
    local_swap::lemma_refined_no_worse(c, s, before, 1);
    local_swap::lemma_refined_is_stable(c, s, before, 1);
    if local_swap::stable(c, s, before) {
        local_swap::lemma_stable_stays(c, s, before, 1);
    }
}

/// The maximum mode is no dearer than the balanced mode and, up to 4096 pixels, than
/// the dense auction of eight phases, whichever way its candidates are listed. No two
/// touching targets would gain by exchanging their sources unless five sweeps have each
/// lowered the cost.
pub proof fn lemma_maximum_refines_the_better(
    c: Problem,
    p: Pictures,
    bound: int,
    lists: Seq<Seq<usize>>,
)
    requires
        c.n() > 1,
        p.solvable(c),
        c.within(bound),
        c.n() * bound <= i64::MAX,
        lists.len() == c.n(),
        forall|d: int, s: usize|
            0 <= d < c.n() ==> (#[trigger] lists[d].contains(s) <==> s < c.n()),
    ensures
        ({
            let balanced = p.assignment(c);
            let dense = auction::auction_assignment(c, lists, None, 8);
            let a = maximum_assignment(c, p);
            let settled = local_swap::stable(c, p.side, a);
            &&& cost::total(c, a) <= cost::total(c, balanced)
            &&& settled || cost::total(c, a) + 5 <= cost::total(c, balanced)
            &&& c.n() <= 4096 ==> cost::total(c, a) <= cost::total(c, dense)
            &&& c.n() <= 4096 ==> settled || cost::total(c, a) + 5 <= cost::total(c, dense)
            &&& c.n() > 4096 && local_swap::stable(c, p.side, balanced) ==> a == balanced
        }),
{
    let balanced = p.assignment(c);
    multiscale::lemma_multiscale_is_permutation(p, c);
    let side = p.side;
    assert(c.n() <= 65535 * 65535) by (nonlinear_arith)
        requires
            c.n() == side * side,
            0 < side <= 65535,
    ;
    let all = auction::dense_lists(c.n());
    assert forall|d: int, s: usize| 0 <= d < lists.len() implies (#[trigger] lists[d].contains(s)
        <==> all[d].contains(s)) by {
        if s < c.n() {
            assert(all[d][s as int] == s);
        }
    }
    auction::lemma_same_candidates(c, lists, all, None, 8);
    let dense = auction::auction_assignment(c, all, None, 8);
    auction::lemma_auction_is_permutation(c, all, None, 8);
    cost::lemma_total_exact(c, balanced, bound);
    cost::lemma_total_exact(c, dense, bound);
    let start = better_start(c, balanced);
    lemma_permutation_usable(c, p.side, start);
    local_swap::lemma_refined_no_worse(c, p.side, start, 5);
    local_swap::lemma_refined_is_stable(c, p.side, start, 5);
    if local_swap::stable(c, p.side, start) {
        local_swap::lemma_stable_stays(c, p.side, start, 5);
    }
}

} // verus!
