//! Forward auction with epsilon scaling.
//!
//! Sources bid for targets, and targets acquire prices as bidders compete. A
//! bidder takes the target with the best value and raises its price until it
//! is no better than the second best, plus epsilon; the previous holder bids
//! again. Epsilon shrinks from phase to phase. Whatever the bidding leaves
//! open is filled with unused sources, so the result is a permutation.

use crate::cost;
use crate::cost::{CostLookup, Problem};
use crate::float::{Double, Real};
use crate::perm;
use crate::progress;
use crate::progress::{Beat, Checkpoint, MessageLog, ProgressSink, SolverControl};
use crate::slices;
use std::collections::VecDeque;
use vstd::prelude::*;

verus! {

/// The dense auction builds a full bidding graph and refuses more targets.
pub const MAX_DENSE_AUCTION_N: usize = 4096;

/// Epsilon shrinks by this factor from phase to phase.
pub const EPSILON_SCALING_FACTOR: u64 = 5;

/// Number of epsilon phases of the dense auction.
pub const DEFAULT_EPSILON_PHASES: usize = 5;

/// Marks a target without a holder.
pub const NOBODY: usize = usize::MAX;

/// Bids between two checkpoints.
pub const BIDS_PER_CHECKPOINT: usize = 4096;

pub open spec fn lists(v: Seq<Vec<usize>>) -> Seq<Seq<usize>> {
    Seq::new(v.len(), |i: int| v[i]@)
}

pub open spec fn values(v: Seq<Double>) -> Seq<Real> {
    Seq::new(v.len(), |i: int| v[i].value())
}

pub open spec fn all_valid(v: Seq<Double>) -> bool {
    forall|i: int| 0 <= i < v.len() ==> (#[trigger] v[i]).valid()
}

/// The targets below `k`, in order, that list `src` as a candidate.
pub open spec fn targets_of(cands: Seq<Seq<usize>>, src: usize, k: nat) -> Seq<usize>
    decreases k,
{
    if k == 0 {
        Seq::empty()
    } else {
        let before = targets_of(cands, src, (k - 1) as nat);
        if cands[k - 1].contains(src) {
            before.push((k - 1) as usize)
        } else {
            before
        }
    }
}

/// For every source the targets that it may bid for.
pub open spec fn bidding_graph(cands: Seq<Seq<usize>>, n: nat) -> Seq<Seq<usize>> {
    Seq::new(n, |s: int| targets_of(cands, s as usize, cands.len()))
}

/// The state of an auction: the price and the holder of every target, and the
/// sources that wait to bid.
#[verifier::ext_equal]
pub struct Auction {
    pub prices: Seq<Real>,
    pub holder: Seq<usize>,
    pub queue: Seq<usize>,
}

/// What target `dst` is worth to `src` at the given prices.
pub open spec fn worth(c: Problem, prices: Seq<Real>, src: int, dst: int) -> Real {
    Real::of_int(c.at(dst, src)).negated().minus(prices[dst])
}

/// The best target for a bidder, its value, and the second best value.
pub struct Offer {
    pub dst: usize,
    pub best: Real,
    pub second: Real,
}

/// The offer among the first `k` targets of `list`; the first of equals wins.
pub open spec fn offer(
    c: Problem,
    prices: Seq<Real>,
    src: int,
    list: Seq<usize>,
    k: nat,
) -> Offer
    decreases k,
{
    if k <= 1 {
        Offer { dst: list[0], best: worth(c, prices, src, list[0] as int), second: Real::lowest() }
    } else {
        let o = offer(c, prices, src, list, (k - 1) as nat);
        let v = worth(c, prices, src, list[k - 1] as int);
        if v.gt(o.best) {
            Offer { dst: list[k - 1], best: v, second: o.best }
        } else if v.gt(o.second) {
            Offer { dst: o.dst, best: o.best, second: v }
        } else {
            o
        }
    }
}

/// How much a bid raises the price.
pub open spec fn increment(o: Offer, eps: Real) -> Real {
    let second = if o.second == Real::lowest() {
        o.best.minus(eps)
    } else {
        o.second
    };
    o.best.minus(second).plus(eps).greatest(Real::zero())
}

/// The first source in the queue bids.
pub open spec fn bid(c: Problem, graph: Seq<Seq<usize>>, eps: Real, s: Auction) -> Auction {
    let src = s.queue[0];
    let rest = s.queue.skip(1);
    let list = graph[src as int];
    if list.len() == 0 {
        Auction { prices: s.prices, holder: s.holder, queue: rest }
    } else {
        let o = offer(c, s.prices, src as int, list, list.len());
        let d = o.dst as int;
        Auction {
            prices: s.prices.update(d, s.prices[d].plus(increment(o, eps))),
            holder: s.holder.update(d, src),
            queue: if s.holder[d] == NOBODY {
                rest
            } else {
                rest.push(s.holder[d])
            },
        }
    }
}

/// Bids until nobody waits, or `fuel` bids have been made.
pub open spec fn run(
    c: Problem,
    graph: Seq<Seq<usize>>,
    eps: Real,
    s: Auction,
    fuel: nat,
) -> Auction
    decreases fuel,
{
    if fuel == 0 || s.queue.len() == 0 {
        s
    } else {
        run(c, graph, eps, bid(c, graph, eps, s), (fuel - 1) as nat)
    }
}

/// The number of bids that [`run`] makes.
pub open spec fn bids_made(
    c: Problem,
    graph: Seq<Seq<usize>>,
    eps: Real,
    s: Auction,
    fuel: nat,
) -> nat
    decreases fuel,
{
    if fuel == 0 || s.queue.len() == 0 {
        0
    } else {
        1 + bids_made(c, graph, eps, bid(c, graph, eps, s), (fuel - 1) as nat)
    }
}

/// The checkpoints before bid `k` of a phase: one at the start of every batch.
pub open spec fn checks_before(k: int) -> int {
    (k + BIDS_PER_CHECKPOINT - 1) / BIDS_PER_CHECKPOINT as int
}

pub open spec fn at_most_usize(x: int) -> int {
    if x > usize::MAX {
        usize::MAX as int
    } else {
        x
    }
}

pub open spec fn at_least(x: int, low: int) -> int {
    if x < low {
        low
    } else {
        x
    }
}

/// The number of edges of the graph's first `k` sources.
pub open spec fn edges(graph: Seq<Seq<usize>>, k: nat) -> nat
    decreases k,
{
    if k == 0 {
        0
    } else {
        edges(graph, (k - 1) as nat) + graph[k - 1].len()
    }
}

/// The number of bids that a phase may take: generous, and without overflow.
pub open spec fn bid_limit(graph: Seq<Seq<usize>>) -> nat {
    let n = graph.len() as int;
    let e = at_least(at_most_usize(edges(graph, graph.len()) as int), n);
    at_least(at_most_usize(at_most_usize(16 * e) + at_most_usize(4 * n)), n) as nat
}

/// The greatest magnitude of a cost on the first `k` edges of `src`, but at
/// least `low`.
pub open spec fn row_peak(c: Problem, src: int, list: Seq<usize>, k: nat, low: int) -> int
    decreases k,
{
    if k == 0 {
        low
    } else {
        at_least(
            row_peak(c, src, list, (k - 1) as nat, low),
            cost::absolute(c.at(list[k - 1] as int, src)),
        )
    }
}

/// The greatest magnitude of a cost on the edges of the first `k` sources.
pub open spec fn peak(c: Problem, graph: Seq<Seq<usize>>, k: nat) -> int
    decreases k,
{
    if k == 0 {
        0
    } else {
        row_peak(
            c,
            k - 1,
            graph[k - 1],
            graph[k - 1].len(),
            peak(c, graph, (k - 1) as nat),
        )
    }
}

/// The epsilon of the first phase: a quarter of the greatest cost, at least one.
pub open spec fn first_epsilon(c: Problem, graph: Seq<Seq<usize>>) -> Real {
    Real::of_int(at_least(peak(c, graph, graph.len()), 1)).over(4).greatest(Real::one())
}

/// Epsilon does not fall below `1 / (n + 1)`.
pub open spec fn floored(epsilon: Real, n: nat) -> Real {
    epsilon.greatest(Real::of_int(n as int).plus(Real::one()).reciprocal())
}

/// A phase starts with its prices, without holders, and everybody waiting.
pub open spec fn opening(prices: Seq<Real>, n: nat) -> Auction {
    Auction {
        prices,
        holder: Seq::new(n, |i: int| NOBODY),
        queue: Seq::new(n, |i: int| i as usize),
    }
}

pub open spec fn phase(
    c: Problem,
    graph: Seq<Seq<usize>>,
    prices: Seq<Real>,
    epsilon: Real,
) -> Auction {
    run(
        c,
        graph,
        floored(epsilon, graph.len()),
        opening(prices, graph.len()),
        bid_limit(graph),
    )
}

/// The checkpoints of a phase.
pub open spec fn phase_checks(
    c: Problem,
    graph: Seq<Seq<usize>>,
    prices: Seq<Real>,
    epsilon: Real,
) -> int {
    checks_before(
        bids_made(
            c,
            graph,
            floored(epsilon, graph.len()),
            opening(prices, graph.len()),
            bid_limit(graph),
        ) as int,
    )
}

/// The checkpoints of `phases` phases, at least one.
pub open spec fn phases_checks(
    c: Problem,
    graph: Seq<Seq<usize>>,
    prices: Seq<Real>,
    epsilon: Real,
    phases: nat,
) -> int
    decreases phases,
{
    let first = phase_checks(c, graph, prices, epsilon);
    if phases <= 1 {
        first
    } else {
        first + phases_checks(
            c,
            graph,
            phase(c, graph, prices, epsilon).prices,
            epsilon.over(EPSILON_SCALING_FACTOR as nat),
            (phases - 1) as nat,
        )
    }
}

/// The holders after `phases` phases, at least one.
pub open spec fn holders(
    c: Problem,
    graph: Seq<Seq<usize>>,
    prices: Seq<Real>,
    epsilon: Real,
    phases: nat,
) -> Seq<usize>
    decreases phases,
{
    let s = phase(c, graph, prices, epsilon);
    if phases <= 1 {
        s.holder
    } else {
        holders(
            c,
            graph,
            s.prices,
            epsilon.over(EPSILON_SCALING_FACTOR as nat),
            (phases - 1) as nat,
        )
    }
}

/// `v` is the least source that holds nothing.
pub open spec fn least_unused(holder: Seq<usize>, v: int) -> bool {
    &&& 0 <= v < holder.len()
    &&& !holder.contains(v as usize)
    &&& forall|u: int| 0 <= u < v ==> holder.contains(#[trigger] (u as usize))
}

/// From position `i` on, every open target gets the least unused source.
pub open spec fn repaired(holder: Seq<usize>, i: nat) -> Seq<usize>
    decreases holder.len() - i,
{
    if i >= holder.len() {
        holder
    } else if holder[i as int] != NOBODY {
        repaired(holder, i + 1)
    } else {
        let v = choose|v: int| least_unused(holder, v);
        repaired(holder.update(i as int, v as usize), i + 1)
    }
}

/// The prices that an auction starts with.
pub open spec fn first_prices(given: Option<Seq<Real>>, n: nat) -> Seq<Real> {
    match given {
        Some(p) if p.len() == n => p,
        _ => Seq::new(n, |i: int| Real::zero()),
    }
}

/// The assignment that the sparse auction arrives at.
pub open spec fn auction_assignment(
    c: Problem,
    cands: Seq<Seq<usize>>,
    given: Option<Seq<Real>>,
    phases: nat,
) -> Seq<usize> {
    let n = c.n();
    if n == 0 {
        Seq::empty()
    } else if n == 1 {
        seq![0usize]
    } else {
        let graph = bidding_graph(cands, n);
        repaired(
            holders(c, graph, first_prices(given, n), first_epsilon(c, graph), phases),
            0,
        )
    }
}

/// The checkpoints of the sparse auction.
pub open spec fn auction_checks(
    c: Problem,
    cands: Seq<Seq<usize>>,
    given: Option<Seq<Real>>,
    phases: nat,
) -> int {
    let n = c.n();
    if n <= 1 {
        0
    } else {
        let graph = bidding_graph(cands, n);
        phases_checks(c, graph, first_prices(given, n), first_epsilon(c, graph), phases)
    }
}

proof fn lemma_checks_step(k: int, all: int)
    requires
        0 <= k < all,
    ensures
        checks_before(k + 1) == checks_before(k) + if k % BIDS_PER_CHECKPOINT as int == 0 {
            1int
        } else {
            0
        },
        0 <= checks_before(k + 1) <= checks_before(all),
{
}

proof fn lemma_phases_checks(
    c: Problem,
    graph: Seq<Seq<usize>>,
    prices: Seq<Real>,
    epsilon: Real,
    phases: nat,
)
    ensures
        phases_checks(c, graph, prices, epsilon, phases) >= 0,
    decreases phases,
{
    if phases > 1 {
        lemma_phases_checks(
            c,
            graph,
            phase(c, graph, prices, epsilon).prices,
            epsilon.over(EPSILON_SCALING_FACTOR as nat),
            (phases - 1) as nat,
        );
    }
}

/// Only which sources are candidates of a target matters, not how they are listed.
pub proof fn lemma_same_candidates(
    c: Problem,
    one: Seq<Seq<usize>>,
    other: Seq<Seq<usize>>,
    given: Option<Seq<Real>>,
    phases: nat,
)
    requires
        one.len() == other.len(),
        forall|d: int, s: usize|
            0 <= d < one.len() ==> (#[trigger] one[d].contains(s) <==> other[d].contains(s)),
    ensures
        auction_assignment(c, one, given, phases) == auction_assignment(c, other, given, phases),
{
    assert forall|s: int| 0 <= s < c.n() implies #[trigger] bidding_graph(one, c.n())[s]
        == bidding_graph(other, c.n())[s] by {
        lemma_same_targets(one, other, s as usize, one.len());
    }
    assert(bidding_graph(one, c.n()) =~= bidding_graph(other, c.n()));
}

proof fn lemma_same_targets(one: Seq<Seq<usize>>, other: Seq<Seq<usize>>, src: usize, k: nat)
    requires
        one.len() == other.len(),
        k <= one.len(),
        forall|d: int, s: usize|
            0 <= d < one.len() ==> (#[trigger] one[d].contains(s) <==> other[d].contains(s)),
    ensures
        targets_of(one, src, k) == targets_of(other, src, k),
    decreases k,
{
    if k > 0 {
        lemma_same_targets(one, other, src, (k - 1) as nat);
        assert(one[k - 1].contains(src) <==> other[k - 1].contains(src));
    }
}

/// Checkpoints are counted from zero.
pub proof fn lemma_auction_checks(
    c: Problem,
    cands: Seq<Seq<usize>>,
    given: Option<Seq<Real>>,
    phases: nat,
)
    ensures
        auction_checks(c, cands, given, phases) >= 0,
{
    if c.n() > 1 {
        let graph = bidding_graph(cands, c.n());
        lemma_phases_checks(
            c,
            graph,
            first_prices(given, c.n()),
            first_epsilon(c, graph),
            phases,
        );
    }
}

/// Every source of the graph bids only for targets below `n`.
pub open spec fn graph_fits(graph: Seq<Seq<usize>>, n: nat) -> bool {
    &&& graph.len() == n
    &&& forall|s: int, j: int|
        0 <= s < n && 0 <= j < graph[s].len() ==> (#[trigger] graph[s][j]) < n
}

/// Nobody holds two targets, waits twice, or waits while holding.
pub open spec fn orderly(s: Auction, n: nat) -> bool {
    &&& n <= usize::MAX
    &&& s.prices.len() == n
    &&& s.holder.len() == n
    &&& forall|i: int| 0 <= i < n ==> (#[trigger] s.holder[i]) < n || s.holder[i] == NOBODY
    &&& forall|i: int| 0 <= i < s.queue.len() ==> (#[trigger] s.queue[i]) < n
    &&& forall|i: int, j: int|
        0 <= i < j < n && s.holder[i] != NOBODY ==> s.holder[i] != s.holder[j]
    &&& forall|i: int, j: int| 0 <= i < j < s.queue.len() ==> s.queue[i] != s.queue[j]
    &&& forall|i: int, j: int|
        0 <= i < n && 0 <= j < s.queue.len() ==> #[trigger] s.holder[i] != #[trigger] s.queue[j]
}

pub proof fn lemma_offer_in_list(c: Problem, prices: Seq<Real>, src: int, list: Seq<usize>, k: nat)
    requires
        0 < list.len(),
        k <= list.len(),
    ensures
        exists|j: int| 0 <= j < list.len() && list[j] == offer(c, prices, src, list, k).dst,
    decreases k,
{
    if k <= 1 {
        assert(list[0] == offer(c, prices, src, list, k).dst);
    } else {
        lemma_offer_in_list(c, prices, src, list, (k - 1) as nat);
        let j = choose|j: int|
            0 <= j < list.len() && list[j] == offer(c, prices, src, list, (k - 1) as nat).dst;
        assert(list[j] == offer(c, prices, src, list, k).dst || list[k - 1] == offer(
            c,
            prices,
            src,
            list,
            k,
        ).dst);
    }
}

pub proof fn lemma_bid(c: Problem, graph: Seq<Seq<usize>>, eps: Real, s: Auction, n: nat)
    requires
        graph_fits(graph, n),
        orderly(s, n),
        s.queue.len() > 0,
    ensures
        orderly(bid(c, graph, eps, s), n),
{
    let src = s.queue[0];
    let list = graph[src as int];
    let t = bid(c, graph, eps, s);
    let rest = s.queue.skip(1);
    assert forall|i: int, j: int| 0 <= i < j < rest.len() implies rest[i] != rest[j] by {}
    assert forall|j: int| 0 <= j < rest.len() implies #[trigger] rest[j] != src && rest[j]
        == s.queue[j + 1] by {}
    if list.len() > 0 {
        lemma_offer_in_list(c, s.prices, src as int, list, list.len());
        let d = offer(c, s.prices, src as int, list, list.len()).dst as int;
        let j = choose|j: int| 0 <= j < list.len() && list[j] == d;
        assert(graph[src as int][j] < n);
        let old_holder = s.holder[d];
        assert forall|i: int, j: int| 0 <= i < n && 0 <= j < t.queue.len() implies #[trigger] t.holder[i]
            != #[trigger] t.queue[j] by {
            if j < rest.len() {
                assert(t.queue[j] == rest[j]);
            } else {
                assert(t.queue[j] == old_holder);
                if i != d {
                    assert(s.holder[i] != old_holder);
                } else {
                    assert(s.holder[d] != s.queue[0]);
                }
            }
        }
        assert forall|i: int, j: int|
            0 <= i < j < n && t.holder[i] != NOBODY implies t.holder[i] != t.holder[j] by {
            if i == d {
                assert(s.holder[j] != s.queue[0]);
            } else if j == d {
                assert(s.holder[i] != s.queue[0]);
            }
        }
        assert forall|i: int, j: int| 0 <= i < j < t.queue.len() implies t.queue[i] != t.queue[j] by {
            if j == rest.len() {
                assert(t.queue[j] == old_holder);
                assert(t.queue[i] == s.queue[i + 1]);
                assert(s.holder[d] != s.queue[i + 1]);
            }
        }
        assert forall|i: int| 0 <= i < t.queue.len() implies (#[trigger] t.queue[i]) < n by {
            if i < rest.len() {
                assert(t.queue[i] == s.queue[i + 1]);
            }
        }
    } else {
        assert forall|i: int, j: int| 0 <= i < n && 0 <= j < t.queue.len() implies #[trigger] t.holder[i]
            != #[trigger] t.queue[j] by {
            assert(t.queue[j] == s.queue[j + 1]);
        }
    }
}

pub proof fn lemma_run(
    c: Problem,
    graph: Seq<Seq<usize>>,
    eps: Real,
    s: Auction,
    n: nat,
    fuel: nat,
)
    requires
        graph_fits(graph, n),
        orderly(s, n),
    ensures
        orderly(run(c, graph, eps, s, fuel), n),
    decreases fuel,
{
    if fuel > 0 && s.queue.len() > 0 {
        lemma_bid(c, graph, eps, s, n);
        lemma_run(c, graph, eps, bid(c, graph, eps, s), n, (fuel - 1) as nat);
    }
}

pub proof fn lemma_holders(
    c: Problem,
    graph: Seq<Seq<usize>>,
    prices: Seq<Real>,
    epsilon: Real,
    phases: nat,
    n: nat,
)
    requires
        graph_fits(graph, n),
        prices.len() == n,
        n <= usize::MAX,
    ensures
        partial_perm(holders(c, graph, prices, epsilon, phases), n),
    decreases phases,
{
    assert(orderly(opening(prices, n), n));
    lemma_run(
        c,
        graph,
        floored(epsilon, n),
        opening(prices, n),
        n,
        bid_limit(graph),
    );
    let s = phase(c, graph, prices, epsilon);
    if phases > 1 {
        lemma_holders(
            c,
            graph,
            s.prices,
            epsilon.over(EPSILON_SCALING_FACTOR as nat),
            (phases - 1) as nat,
            n,
        );
    }
}

/// Different targets have different holders, all of them sources below `n`.
pub open spec fn partial_perm(holder: Seq<usize>, n: nat) -> bool {
    &&& n <= usize::MAX
    &&& holder.len() == n
    &&& forall|i: int| 0 <= i < n ==> (#[trigger] holder[i]) < n || holder[i] == NOBODY
    &&& forall|i: int, j: int| 0 <= i < j < n && holder[i] != NOBODY ==> holder[i] != holder[j]
}

/// An open target leaves a source unused.
pub proof fn lemma_some_unused(holder: Seq<usize>, n: nat, open: int) -> (v: int)
    requires
        partial_perm(holder, n),
        0 <= open < n,
        holder[open] == NOBODY,
    ensures
        least_unused(holder, v),
        forall|u: int| #[trigger] least_unused(holder, u) ==> u == v,
{
    if forall|u: int| 0 <= u < n ==> holder.contains(#[trigger] (u as usize)) {
        let place = Seq::new(
            n,
            |u: int| (choose|i: int| 0 <= i < n && holder[i] == u as usize) as usize,
        );
        assert forall|u: int| 0 <= u < n implies (#[trigger] place[u]) < n && holder[place[u] as int]
            == u by {
            assert(holder.contains(u as usize));
            let i = choose|i: int| 0 <= i < n && holder[i] == u as usize;
            assert(holder[i] == u);
        }
        assert forall|a: int, b: int| 0 <= a < b < n implies place[a] != place[b] by {
            assert(holder[place[a] as int] == a);
            assert(holder[place[b] as int] == b);
        }
        perm::lemma_perm_reaches(place, n, open);
        let u = choose|u: int| 0 <= u < n && #[trigger] place[u] == open;
        assert(holder[place[u] as int] == u);
        0
    } else {
        let u = choose|u: int| 0 <= u < n && !holder.contains(#[trigger] (u as usize));
        lemma_least_unused(holder, n, u)
    }
}

proof fn lemma_least_unused(holder: Seq<usize>, n: nat, u: int) -> (v: int)
    requires
        holder.len() == n <= usize::MAX,
        0 <= u < n,
        !holder.contains(u as usize),
    ensures
        least_unused(holder, v),
        forall|w: int| #[trigger] least_unused(holder, w) ==> w == v,
    decreases u,
{
    if exists|w: int| 0 <= w < u && !holder.contains(#[trigger] (w as usize)) {
        let w = choose|w: int| 0 <= w < u && !holder.contains(#[trigger] (w as usize));
        lemma_least_unused(holder, n, w)
    } else {
        assert forall|w: int| #[trigger] least_unused(holder, w) implies w == u by {
            if w < u {
                assert(holder.contains(w as usize));
            } else if u < w {
                assert(holder.contains(u as usize));
            }
        }
        u
    }
}

pub proof fn lemma_fill(holder: Seq<usize>, n: nat, i: int, v: int)
    requires
        partial_perm(holder, n),
        0 <= i < n,
        holder[i] == NOBODY,
        least_unused(holder, v),
    ensures
        partial_perm(holder.update(i, v as usize), n),
{
    let h = holder.update(i, v as usize);
    assert forall|a: int, b: int| 0 <= a < b < n && h[a] != NOBODY implies h[a] != h[b] by {
        if b == i {
            assert(holder[a] != v as usize);
        } else if a == i {
            assert(holder[b] != v as usize);
        }
    }
}

pub proof fn lemma_repaired(holder: Seq<usize>, n: nat, i: nat)
    requires
        partial_perm(holder, n),
        i <= n,
        forall|k: int| 0 <= k < i ==> (#[trigger] holder[k]) != NOBODY,
    ensures
        perm::is_perm(repaired(holder, i), n),
    decreases n - i,
{
    if i < n {
        if holder[i as int] != NOBODY {
            lemma_repaired(holder, n, i + 1);
        } else {
            let w = lemma_some_unused(holder, n, i as int);
            let v = choose|v: int| least_unused(holder, v);
            lemma_fill(holder, n, i as int, v);
            lemma_repaired(holder.update(i as int, v as usize), n, i + 1);
        }
    }
}

pub proof fn lemma_targets_below(cands: Seq<Seq<usize>>, src: usize, k: nat)
    requires
        k <= usize::MAX,
    ensures
        forall|j: int|
            0 <= j < targets_of(cands, src, k).len() ==> (#[trigger] targets_of(
                cands,
                src,
                k,
            )[j]) < k,
    decreases k,
{
    if k > 0 {
        lemma_targets_below(cands, src, (k - 1) as nat);
        let before = targets_of(cands, src, (k - 1) as nat);
        let t = targets_of(cands, src, k);
        assert forall|j: int| 0 <= j < t.len() implies (#[trigger] t[j]) < k by {
            if j < before.len() {
                assert(t[j] == before[j]);
            }
        }
    }
}

pub proof fn lemma_graph_fits(cands: Seq<Seq<usize>>, n: nat)
    requires
        cands.len() <= n <= usize::MAX,
    ensures
        graph_fits(bidding_graph(cands, n), n),
{
    let g = bidding_graph(cands, n);
    assert forall|s: int, j: int| 0 <= s < n && 0 <= j < g[s].len() implies (#[trigger] g[s][j])
        < n by {
        lemma_targets_below(cands, s as usize, cands.len());
    }
}

/// Whatever the candidates, prices and phases, the auction's assignment is a
/// permutation.
pub proof fn lemma_auction_is_permutation(
    c: Problem,
    cands: Seq<Seq<usize>>,
    given: Option<Seq<Real>>,
    phases: nat,
)
    requires
        c.n() <= usize::MAX,
        c.n() > 1 ==> cands.len() <= c.n(),
    ensures
        perm::is_perm(auction_assignment(c, cands, given, phases), c.n()),
{
    let n = c.n();
    if n > 1 {
        let graph = bidding_graph(cands, n);
        lemma_graph_fits(cands, n);
        let prices = first_prices(given, n);
        lemma_holders(c, graph, prices, first_epsilon(c, graph), phases, n);
        lemma_repaired(holders(c, graph, prices, first_epsilon(c, graph), phases), n, 0);
    }
}

/// For every source the targets that list it, in order and without repetition.
fn transpose(candidates: &[Vec<usize>], n: usize) -> (r: Vec<Vec<usize>>)
    requires
        candidates@.len() <= n,
    ensures
        lists(r@) == bidding_graph(lists(candidates@), n as nat),
{
    let ghost cands = lists(candidates@);
    let mut r: Vec<Vec<usize>> = Vec::with_capacity(n);
    let mut i: usize = 0;
    while i < n
        invariant
            i <= n,
            r@.len() == i,
            forall|s: int| 0 <= s < i ==> (#[trigger] r@[s])@ == Seq::<usize>::empty(),
        decreases n - i,
    {
        r.push(Vec::new());
        i += 1;
    }
    let mut dst: usize = 0;
    while dst < candidates.len()
        invariant
            dst <= candidates@.len() <= n,
            cands == lists(candidates@),
            r@.len() == n,
            forall|s: int|
                0 <= s < n ==> (#[trigger] r@[s])@ == targets_of(cands, s as usize, dst as nat),
        decreases candidates@.len() - dst,
    {
        let srcs = &candidates[dst];
        let ghost row = cands[dst as int];
        let mut j: usize = 0;
        while j < srcs.len()
            invariant
                j <= srcs@.len(),
                dst < candidates@.len() <= n,
                cands == lists(candidates@),
                row == cands[dst as int],
                srcs@ == row,
                r@.len() == n,
                forall|s: int|
                    0 <= s < n ==> (#[trigger] r@[s])@ == if row.take(j as int).contains(
                        s as usize,
                    ) {
                        targets_of(cands, s as usize, dst as nat).push(dst)
                    } else {
                        targets_of(cands, s as usize, dst as nat)
                    },
            decreases srcs@.len() - j,
        {
            let src: usize = srcs[j];
            let ghost before = r@;
            let ghost seen = row.take(j as int);
            let ghost seen2 = row.take(j + 1);
            proof {
                assert(seen2 =~= seen.push(src));
                assert forall|s: usize| s != src implies #[trigger] seen2.contains(s)
                    == seen.contains(s) by {
                    if seen.contains(s) {
                        let k = choose|k: int| 0 <= k < seen.len() && seen[k] == s;
                        assert(seen2[k] == s);
                    }
                    if seen2.contains(s) {
                        let k = choose|k: int| 0 <= k < seen2.len() && seen2[k] == s;
                        assert(seen[k] == s);
                    }
                }
                assert(seen2[j as int] == src);
                assert(seen2.contains(src));
            }
            if src < n {
                let len: usize = r[src].len();
                proof {
                    lemma_targets_below(cands, src, dst as nat);
                    assert(r@[src as int]@.len() == len);
                }
                if len == 0 || r[src][len - 1] != dst {
                    proof {
                        let t = targets_of(cands, src, dst as nat);
                        if seen.contains(src) {
                            assert(t.push(dst)[t.len() as int] == dst);
                        }
                        assert(!seen.contains(src));
                    }
                    r[src].push(dst);
                } else {
                    proof {
                        let t = targets_of(cands, src, dst as nat);
                        if !seen.contains(src) {
                            assert(t[t.len() - 1] < dst);
                        }
                    }
                }
            }
            proof {
                assert forall|s: int| 0 <= s < n implies (#[trigger] r@[s])@ == if seen2.contains(
                    s as usize,
                ) {
                    targets_of(cands, s as usize, dst as nat).push(dst)
                } else {
                    targets_of(cands, s as usize, dst as nat)
                } by {
                    if s != src {
                        assert(r@[s] == before[s]);
                        assert((s as usize) as int == s);
                    }
                }
            }
            j += 1;
        }
        proof {
            assert(row.take(row.len() as int) =~= row);
        }
        dst += 1;
    }
    proof {
        assert(lists(r@) =~= bidding_graph(cands, n as nat));
    }
    r
}

/// The greatest magnitude of a cost on the edges of the graph, at least one.
fn estimate_max_cost(cost: &CostLookup, graph: &Vec<Vec<usize>>) -> (r: i64)
    requires
        cost@.within(i64::MAX as int),
        graph_fits(lists(graph@), cost@.n()),
    ensures
        r == at_least(peak(cost@, lists(graph@), lists(graph@).len()), 1),
{
    let ghost g = lists(graph@);
    let mut max: i64 = 0;
    let mut src: usize = 0;
    while src < graph.len()
        invariant
            src <= graph@.len(),
            g == lists(graph@),
            cost@.within(i64::MAX as int),
            graph_fits(g, cost@.n()),
            0 <= max,
            max == peak(cost@, g, src as nat),
        decreases graph@.len() - src,
    {
        let list = &graph[src];
        let ghost low = max as int;
        let mut j: usize = 0;
        while j < list.len()
            invariant
                src < graph@.len(),
                g == lists(graph@),
                list@ == g[src as int],
                j <= list@.len(),
                cost@.within(i64::MAX as int),
                graph_fits(g, cost@.n()),
                0 <= max,
                max == row_peak(cost@, src as int, list@, j as nat, low),
            decreases list@.len() - j,
        {
            assert(g[src as int][j as int] < cost@.n());
            let dst: usize = list[j];
            proof {
                assert(-i64::MAX <= cost@.at(dst as int, src as int) <= i64::MAX);
            }
            let c: i64 = cost.cost(dst, src);
            let size: i64 = if c < 0 {
                -c
            } else {
                c
            };
            if size > max {
                max = size;
            }
            j += 1;
        }
        src += 1;
    }
    if max < 1 {
        1
    } else {
        max
    }
}

fn saturating_times(a: usize, k: u64) -> (r: usize)
    requires
        k <= 16,
    ensures
        r == at_most_usize(k * a),
{
    proof {
        assert(a * k <= 0xffff_ffff_ffff_ffff * 16 && a * k == k * a && a * k >= 0)
            by (nonlinear_arith)
            requires
                0 <= a <= 0xffff_ffff_ffff_ffff,
                0 <= k <= 16,
        ;
    }
    let p: u128 = a as u128 * k as u128;
    if p > usize::MAX as u128 {
        usize::MAX
    } else {
        p as usize
    }
}

/// The number of bids that a phase may take.
fn count_limit(graph: &Vec<Vec<usize>>) -> (r: usize)
    ensures
        r == bid_limit(lists(graph@)),
{
    let ghost g = lists(graph@);
    let n: usize = graph.len();
    let mut sum: usize = 0;
    let mut i: usize = 0;
    while i < n
        invariant
            i <= n,
            n == graph@.len(),
            g == lists(graph@),
            sum == at_most_usize(edges(g, i as nat) as int),
        decreases n - i,
    {
        sum = sum.saturating_add(graph[i].len());
        i += 1;
    }
    let edge_count: usize = if sum < n {
        n
    } else {
        sum
    };
    let limit: usize = saturating_times(edge_count, 16).saturating_add(saturating_times(n, 4));
    if limit < n {
        n
    } else {
        limit
    }
}

/// What `dst` is worth to `src`.
fn appraise(cost: &CostLookup, prices: &Vec<Double>, src: usize, dst: usize) -> (v: Double)
    requires
        cost@.within(i64::MAX as int),
        prices@.len() == cost@.n(),
        all_valid(prices@),
        src < cost@.n(),
        dst < cost@.n(),
    ensures
        v.valid(),
        v.value() == worth(cost@, values(prices@), src as int, dst as int),
{
    proof {
        assert(-i64::MAX <= cost@.at(dst as int, src as int) <= i64::MAX);
        assert(values(prices@)[dst as int] == prices@[dst as int].value());
    }
    Double::from_i64(cost.cost(dst, src)).neg().sub(prices[dst])
}

/// One phase of the forward auction at a fixed epsilon. False if a checkpoint
/// stopped it.
fn auction_phase<S: ProgressSink, C: Checkpoint>(
    cost: &CostLookup,
    graph: &Vec<Vec<usize>>,
    prices: &mut Vec<Double>,
    holder: &mut Vec<usize>,
    epsilon: Double,
    tx: &mut S,
    control: &mut C,
    beat: Beat,
) -> (go: bool)
    requires
        beat.sound(),
        cost@.within(i64::MAX as int),
        graph_fits(lists(graph@), cost@.n()),
        old(prices)@.len() == cost@.n(),
        all_valid(old(prices)@),
        old(holder)@ == opening(values(old(prices)@), cost@.n()).holder,
        epsilon.valid(),
    ensures
        all_valid(final(prices)@),
        progress::ran(
            beat,
            beat.level as nat,
            go,
            old(control).answers(),
            final(control).answers(),
            old(tx).log(),
            final(tx).log(),
        ),
        old(control).never_refuses() ==> go && final(control).never_refuses(),
        ({
            let asked = final(control).answers().len() - old(control).answers().len();
            let all = checks_before(
                bids_made(
                    cost@,
                    lists(graph@),
                    epsilon.value(),
                    opening(values(old(prices)@), cost@.n()),
                    bid_limit(lists(graph@)),
                ) as int,
            );
            &&& go ==> asked == all
            &&& !go ==> 0 < asked <= all
        }),
        go ==> ({
            let s = run(
                cost@,
                lists(graph@),
                epsilon.value(),
                opening(values(old(prices)@), cost@.n()),
                bid_limit(lists(graph@)),
            );
            &&& values(final(prices)@) == s.prices
            &&& final(holder)@ == s.holder
        }),
{
    let n: usize = cost.n_dst();
    let ghost g = lists(graph@);
    let ghost eps = epsilon.value();
    let ghost goal = run(cost@, g, eps, opening(values(prices@), cost@.n()), bid_limit(g));
    let ghost all = bids_made(cost@, g, eps, opening(values(prices@), cost@.n()), bid_limit(g));
    let mut queue: VecDeque<usize> = VecDeque::new();
    let mut i: usize = 0;
    while i < n
        invariant
            i <= n,
            queue@.len() == i,
            forall|k: int| 0 <= k < i ==> (#[trigger] queue@[k]) == k,
        decreases n - i,
    {
        queue.push_back(i);
        i += 1;
    }
    let limit: usize = count_limit(graph);
    let mut bids: usize = 0;
    let ghost mut s = opening(values(prices@), cost@.n());
    proof {
        assert(queue@ =~= s.queue);
        assert(orderly(s, cost@.n()));
        progress::lemma_ran_nothing(beat, beat.level as nat, control.answers(), tx.log());
    }
    while queue.len() > 0 && bids < limit
        invariant
            beat.sound(),
            n == cost@.n(),
            g == lists(graph@),
            eps == epsilon.value(),
            epsilon.valid(),
            limit == bid_limit(g),
            bids <= limit,
            cost@.within(i64::MAX as int),
            graph_fits(g, cost@.n()),
            orderly(s, cost@.n()),
            all_valid(prices@),
            values(prices@) == s.prices,
            holder@ == s.holder,
            queue@ == s.queue,
            goal == run(cost@, g, eps, s, (limit - bids) as nat),
            all == bids_made(
                cost@,
                g,
                eps,
                opening(values(old(prices)@), cost@.n()),
                bid_limit(g),
            ),
            all == bids + bids_made(cost@, g, eps, s, (limit - bids) as nat),
            control.answers().len() == old(control).answers().len() + checks_before(bids as int),
            progress::ran(
                beat,
                beat.level as nat,
                true,
                old(control).answers(),
                control.answers(),
                old(tx).log(),
                tx.log(),
            ),
            old(control).never_refuses() ==> control.never_refuses(),
        decreases limit - bids,
    {
        proof {
            assert(all >= bids + 1);
            lemma_checks_step(bids as int, all as int);
        }
        if bids % BIDS_PER_CHECKPOINT == 0 {
            let ghost a1 = control.answers();
            let ghost l1 = tx.log();
            let go = beat.pass(tx, control);
            proof {
                progress::lemma_ran_then(
                    beat,
                    beat.level as nat,
                    beat,
                    beat.level as nat,
                    go,
                    old(control).answers(),
                    a1,
                    control.answers(),
                    old(tx).log(),
                    l1,
                    tx.log(),
                );
            }
            if !go {
                return false;
            }
        }
        let ghost next = bid(cost@, g, eps, s);
        proof {
            lemma_bid(cost@, g, eps, s, cost@.n());
            assert(s.queue[0] < n);
        }
        bids += 1;
        let src: usize = queue.pop_front().unwrap();
        assert(src == s.queue[0]);
        assert(queue@ =~= s.queue.skip(1));
        let list = &graph[src];
        let ghost gl = g[src as int];
        assert(list@ == gl);
        let len: usize = list.len();
        if len > 0 {
            assert(g[src as int][0] < n);
            assert(prices@.len() == values(prices@).len());
            let mut best_dst: usize = list[0];
            let mut best: Double = appraise(cost, prices, src, best_dst);
            let mut second: Double = Double::lowest();
            let mut j: usize = 1;
            while j < len
                invariant
                    n == cost@.n(),
                    src < n,
                    1 <= j <= len,
                    len == list@.len(),
                    list@ == gl,
                    g == lists(graph@),
                    gl == g[src as int],
                    cost@.within(i64::MAX as int),
                    graph_fits(g, cost@.n()),
                    all_valid(prices@),
                    prices@.len() == n,
                    values(prices@) == s.prices,
                    best.valid(),
                    second.valid(),
                    ({
                        let o = offer(cost@, s.prices, src as int, gl, j as nat);
                        o.dst == best_dst && o.best == best.value() && o.second == second.value()
                    }),
                decreases len - j,
            {
                assert(g[src as int][j as int] < n);
                let dst: usize = list[j];
                let val = appraise(cost, prices, src, dst);
                if val.gt(best) {
                    second = best;
                    best = val;
                    best_dst = dst;
                } else if val.gt(second) {
                    second = val;
                }
                j += 1;
            }
            let ghost o = offer(cost@, s.prices, src as int, gl, gl.len());
            proof {
                lemma_offer_in_list(cost@, s.prices, src as int, gl, gl.len());
                let k = choose|k: int| 0 <= k < gl.len() && gl[k] == o.dst;
                assert(g[src as int][k] < n);
            }
            if second.same(Double::lowest()) {
                second = best.sub(epsilon);
            }
            let raise = best.sub(second).add(epsilon).greatest(Double::zero());
            assert(raise.value() == increment(o, eps));
            let price = prices[best_dst].add(raise);
            assert(s.prices[best_dst as int] == prices@[best_dst as int].value());
            prices.set(best_dst, price);
            let evicted: usize = holder[best_dst];
            if evicted != NOBODY {
                queue.push_back(evicted);
            }
            holder.set(best_dst, src);
            proof {
                assert(values(prices@) =~= next.prices);
                assert(holder@ =~= next.holder);
                assert(queue@ =~= next.queue);
            }
        }
        proof {
            s = next;
        }
    }
    true
}

/// Fills the open targets with the unused sources, in order.
fn repair_to_permutation(holder: &mut Vec<usize>)
    requires
        partial_perm(old(holder)@, old(holder)@.len()),
    ensures
        final(holder)@ == repaired(old(holder)@, 0),
{
    let n: usize = holder.len();
    let mut used: Vec<bool> = vec![false; n];
    let mut i: usize = 0;
    while i < n
        invariant
            i <= n,
            n == holder@.len(),
            holder@ == old(holder)@,
            partial_perm(holder@, n as nat),
            used@.len() == n,
            forall|v: int|
                0 <= v < n ==> (#[trigger] used@[v] <==> exists|k: int|
                    0 <= k < i && holder@[k] == v),
        decreases n - i,
    {
        let s: usize = holder[i];
        let ghost before = used@;
        if s != NOBODY {
            used.set(s, true);
        }
        proof {
            assert forall|v: int| 0 <= v < n implies (#[trigger] used@[v] <==> exists|k: int|
                0 <= k < i + 1 && holder@[k] == v) by {
                if v == s {
                    assert(holder@[i as int] == v);
                } else {
                    assert(used@[v] == before[v]);
                }
            }
        }
        i += 1;
    }
    let ghost goal = repaired(holder@, 0);
    let mut next: usize = 0;
    i = 0;
    while i < n
        invariant
            i <= n,
            n == holder@.len(),
            next <= n,
            used@.len() == n,
            partial_perm(holder@, n as nat),
            goal == repaired(holder@, i as nat),
            forall|v: int| 0 <= v < n ==> (#[trigger] used@[v] <==> holder@.contains(v as usize)),
            forall|v: int| 0 <= v < next ==> #[trigger] used@[v],
        decreases n - i,
    {
        if holder[i] == NOBODY {
            let ghost least = lemma_some_unused(holder@, n as nat, i as int);
            assert(!used@[least]);
            while used[next]
                invariant
                    n == holder@.len(),
                    next <= least < n,
                    used@.len() == n,
                    !used@[least],
                    forall|v: int| 0 <= v < next ==> #[trigger] used@[v],
                decreases n - next,
            {
                next += 1;
            }
            proof {
                assert(least_unused(holder@, next as int)) by {
                    assert(!used@[next as int]);
                    assert forall|u: int| 0 <= u < next implies holder@.contains(
                        #[trigger] (u as usize),
                    ) by {
                        assert(used@[u]);
                    }
                }
                lemma_fill(holder@, n as nat, i as int, next as int);
            }
            let ghost before = holder@;
            let ghost used_before = used@;
            holder.set(i, next);
            used.set(next, true);
            proof {
                assert forall|v: int| 0 <= v < n implies (#[trigger] used@[v]
                    <==> holder@.contains(v as usize)) by {
                    if v == next {
                        assert(holder@[i as int] == next);
                    } else {
                        assert(used@[v] == used_before[v]);
                        if before.contains(v as usize) {
                            let k = choose|k: int| 0 <= k < n && before[k] == v as usize;
                            assert(holder@[k] == v as usize);
                        }
                        if holder@.contains(v as usize) {
                            let k = choose|k: int| 0 <= k < n && holder@[k] == v as usize;
                            assert(before[k] == v as usize);
                        }
                    }
                }
            }
        }
        i += 1;
    }
}

fn empty_holders(n: usize) -> (r: Vec<usize>)
    ensures
        r@ == Seq::new(n as nat, |i: int| NOBODY),
{
    let r: Vec<usize> = vec![NOBODY; n];
    assert(r@ =~= Seq::new(n as nat, |i: int| NOBODY));
    r
}

/// The warm-start prices if there is one for every target, else zeros.
fn starting_prices(given: Option<&[Double]>, n: usize) -> (r: Vec<Double>)
    requires
        given is Some ==> all_valid(given.unwrap()@),
    ensures
        all_valid(r@),
        r@.len() == n,
        values(r@) == first_prices(
            match given {
                Some(p) => Some(values(p@)),
                None => None,
            },
            n as nat,
        ),
{
    match given {
        Some(p) => {
            if p.len() == n {
                return slices::copied(p);
            }
        },
        None => {},
    }
    let r: Vec<Double> = vec![Double::zero(); n];
    assert(values(r@) =~= Seq::new(n as nat, |i: int| Real::zero()));
    r
}

/// The sparse auction with checkpoints; `None` if one of them stopped it.
pub fn sparse_auction_with_checkpoint<S: ProgressSink, C: Checkpoint>(
    cost: &CostLookup,
    candidates: &[Vec<usize>],
    initial_prices: Option<&[Double]>,
    epsilon_phases: usize,
    tx: &mut S,
    control: &mut C,
    beat: Beat,
) -> (r: Option<Vec<usize>>)
    requires
        beat.sound(),
        cost@.n() > 1 ==> cost@.within(i64::MAX as int),
        cost@.n() > 1 ==> candidates@.len() <= cost@.n(),
        initial_prices is Some ==> all_valid(initial_prices.unwrap()@),
    ensures
        progress::ran(
            beat,
            beat.level as nat,
            r is Some,
            old(control).answers(),
            final(control).answers(),
            old(tx).log(),
            final(tx).log(),
        ),
        old(control).never_refuses() ==> r is Some && final(control).never_refuses(),
        ({
            let asked = final(control).answers().len() - old(control).answers().len();
            let all = auction_checks(
                cost@,
                lists(candidates@),
                match initial_prices {
                    Some(p) => Some(values(p@)),
                    None => None,
                },
                epsilon_phases as nat,
            );
            &&& r is Some ==> asked == all
            &&& r is None ==> 0 < asked <= all
        }),
        r matches Some(a) ==> {
            &&& perm::is_perm(a@, cost@.n())
            &&& a@ == auction_assignment(
                cost@,
                lists(candidates@),
                match initial_prices {
                    Some(p) => Some(values(p@)),
                    None => None,
                },
                epsilon_phases as nat,
            )
        },
{
    let n: usize = cost.n_dst();
    let ghost cands = lists(candidates@);
    let ghost given = match initial_prices {
        Some(p) => Some(values(p@)),
        None => None,
    };
    proof {
        lemma_auction_is_permutation(cost@, cands, given, epsilon_phases as nat);
        progress::lemma_ran_nothing(beat, beat.level as nat, control.answers(), tx.log());
    }
    if n == 0 {
        let r: Vec<usize> = Vec::new();
        assert(r@ =~= Seq::empty());
        return Some(r);
    }
    if n == 1 {
        let r: Vec<usize> = vec![0];
        assert(r@ =~= seq![0usize]);
        return Some(r);
    }
    let graph = transpose(candidates, n);
    let ghost g = lists(graph@);
    proof {
        lemma_graph_fits(cands, n as nat);
    }
    let mut prices = starting_prices(initial_prices, n);
    let mut holder = empty_holders(n);
    let max_cost: i64 = estimate_max_cost(cost, &graph);
    let mut epsilon = Double::from_i64(max_cost).div_small(4).greatest(Double::one());
    let phases: usize = if epsilon_phases < 1 {
        1
    } else {
        epsilon_phases
    };
    let ghost goal = holders(cost@, g, values(prices@), epsilon.value(), epsilon_phases as nat);
    let ghost all = phases_checks(
        cost@,
        g,
        values(prices@),
        epsilon.value(),
        epsilon_phases as nat,
    );
    let mut left: usize = phases;
    while left > 0
        invariant
            beat.sound(),
            n == cost@.n(),
            g == lists(graph@),
            cost@.within(i64::MAX as int),
            graph_fits(g, cost@.n()),
            all_valid(prices@),
            prices@.len() == n,
            epsilon.valid(),
            left > 0 ==> goal == holders(
                cost@,
                g,
                values(prices@),
                epsilon.value(),
                left as nat,
            ),
            left == 0 ==> goal == holder@,
            left > 0 ==> control.answers().len() - old(control).answers().len() + phases_checks(
                cost@,
                g,
                values(prices@),
                epsilon.value(),
                left as nat,
            ) == all,
            left == 0 ==> control.answers().len() - old(control).answers().len() == all,
            all == auction_checks(cost@, cands, given, epsilon_phases as nat),
            cands == lists(candidates@),
            given == match initial_prices {
                Some(p) => Some(values(p@)),
                None => None,
            },
            progress::ran(
                beat,
                beat.level as nat,
                true,
                old(control).answers(),
                control.answers(),
                old(tx).log(),
                tx.log(),
            ),
            old(control).never_refuses() ==> control.never_refuses(),
        decreases left,
    {
        let eps = epsilon.greatest(Double::one_over_next(n));
        holder = empty_holders(n);
        let ghost a1 = control.answers();
        let ghost l1 = tx.log();
        let ghost prices0 = values(prices@);
        let go = auction_phase(
            cost,
            &graph,
            &mut prices,
            &mut holder,
            eps,
            tx,
            control,
            beat,
        );
        proof {
            progress::lemma_ran_then(
                beat,
                beat.level as nat,
                beat,
                beat.level as nat,
                go,
                old(control).answers(),
                a1,
                control.answers(),
                old(tx).log(),
                l1,
                tx.log(),
            );
            assert(orderly(opening(prices0, n as nat), n as nat));
            lemma_run(
                cost@,
                g,
                floored(epsilon.value(), n as nat),
                opening(prices0, n as nat),
                n as nat,
                bid_limit(g),
            );
        }
        proof {
            if left > 1 {
                lemma_phases_checks(
                    cost@,
                    g,
                    phase(cost@, g, prices0, epsilon.value()).prices,
                    epsilon.value().over(EPSILON_SCALING_FACTOR as nat),
                    (left - 1) as nat,
                );
            }
        }
        if !go {
            return None;
        }
        assert(values(prices@).len() == prices@.len());
        epsilon = epsilon.div_small(EPSILON_SCALING_FACTOR);
        left -= 1;
    }
    proof {
        lemma_holders(
            cost@,
            g,
            first_prices(given, n as nat),
            first_epsilon(cost@, g),
            epsilon_phases as nat,
            n as nat,
        );
    }
    repair_to_permutation(&mut holder);
    Some(holder)
}

/// Sparse forward auction with epsilon scaling.
///
/// `candidates[dst]` lists the sources that target `dst` may take. The result
/// `assignments[dst] = src` is always a permutation: targets that the bidding
/// leaves open get the sources that it left over. `initial_prices` warm-starts
/// the target prices; more epsilon phases give a better result.
pub fn sparse_auction(
    cost: &CostLookup,
    candidates: &[Vec<usize>],
    initial_prices: Option<&[Double]>,
    epsilon_phases: usize,
) -> (r: Vec<usize>)
    requires
        cost@.n() > 1 ==> cost@.within(i64::MAX as int),
        cost@.n() > 1 ==> candidates@.len() <= cost@.n(),
        initial_prices is Some ==> all_valid(initial_prices.unwrap()@),
    ensures
        perm::is_perm(r@, cost@.n()),
        r@ == auction_assignment(
            cost@,
            lists(candidates@),
            match initial_prices {
                Some(p) => Some(values(p@)),
                None => None,
            },
            epsilon_phases as nat,
        ),
{
    let mut tx = MessageLog::new();
    let mut control = SolverControl::default();
    sparse_auction_with_checkpoint(
        cost,
        candidates,
        initial_prices,
        epsilon_phases,
        &mut tx,
        &mut control,
        Beat::silent(),
    ).unwrap()
}

/// The candidate lists in which every target may take every source.
pub open spec fn dense_lists(n: nat) -> Seq<Seq<usize>> {
    Seq::new(n, |d: int| Seq::new(n, |s: int| s as usize))
}

/// Dense forward auction: every source may bid for every target. `None` if
/// there are more than [`MAX_DENSE_AUCTION_N`] targets.
pub fn solve_dense(cost: &CostLookup, epsilon_phases: usize) -> (r: Option<Vec<usize>>)
    requires
        cost@.within(i64::MAX as int),
    ensures
        r is None <==> cost@.n() > MAX_DENSE_AUCTION_N,
        r is None <==> cost@.n() > 4096,
        r matches Some(a) ==> {
            &&& perm::is_perm(a@, cost@.n())
            &&& a@ == auction_assignment(
                cost@,
                dense_lists(cost@.n()),
                None,
                epsilon_phases as nat,
            )
        },
{
    let n: usize = cost.n_dst();
    if n > MAX_DENSE_AUCTION_N {
        return None;
    }
    let mut row: Vec<usize> = Vec::with_capacity(n);
    let mut i: usize = 0;
    while i < n
        invariant
            i <= n,
            row@.len() == i,
            forall|k: int| 0 <= k < i ==> (#[trigger] row@[k]) == k,
        decreases n - i,
    {
        row.push(i);
        i += 1;
    }
    let mut candidates: Vec<Vec<usize>> = Vec::with_capacity(n);
    i = 0;
    while i < n
        invariant
            i <= n,
            row@.len() == n,
            forall|k: int| 0 <= k < n ==> (#[trigger] row@[k]) == k,
            candidates@.len() == i,
            forall|k: int| 0 <= k < i ==> (#[trigger] candidates@[k])@ == row@,
        decreases n - i,
    {
        let copy = row.clone();
        assert(copy@ =~= row@);
        candidates.push(copy);
        i += 1;
    }
    proof {
        let dense = dense_lists(n as nat);
        assert forall|d: int| 0 <= d < n implies #[trigger] lists(candidates@)[d] == dense[d] by {
            assert(candidates@[d]@ =~= dense[d]);
        }
        assert(lists(candidates@) =~= dense);
    }
    Some(sparse_auction(cost, &candidates, None, epsilon_phases))
}

} // verus!
