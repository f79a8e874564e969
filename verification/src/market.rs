//! What the bidding of an auction arrives at.
//!
//! Prices are binary64 numbers, so the textbook statements hold up to rounding.
//! Quantities are counted in the unit of [`Real`]: a cost `c` is `c * 2^1074`
//! units. With every cost and price at most `m` units, the rounding of one bid
//! amounts to at most `m / 2^47` units.

use crate::auction;
use crate::auction::{Auction, Offer, NOBODY};
use crate::cost;
use crate::cost::Problem;
use crate::float;
use crate::float::Real;
use crate::perm;
use vstd::arithmetic::power2::*;
use vstd::prelude::*;

verus! {

/// The cost of source `s` on target `d`, in units.
pub open spec fn units(c: Problem, d: int, s: int) -> int {
    c.at(d, s) * pow2(1074)
}

/// A price that the bidding can have made, at most `m` in magnitude.
pub open spec fn price_within(p: Real, m: int) -> bool {
    p matches Real::Fin(v) && float::representable(v) && -m <= v <= m
}

/// Every cost and price, and epsilon, is at most `m` units.
pub open spec fn moderate(
    c: Problem,
    graph: Seq<Seq<usize>>,
    prices: Seq<Real>,
    eps: int,
    m: int,
) -> bool {
    &&& 0 <= eps <= m <= pow2(2090)
    &&& forall|s: int, j: int|
        0 <= s < graph.len() && 0 <= j < graph[s].len() ==> -m <= units(
            c,
            (#[trigger] graph[s][j]) as int,
            s,
        ) <= m
    &&& forall|d: int| 0 <= d < prices.len() ==> price_within(#[trigger] prices[d], m)
}

/// No target on `list` is better for `src` than target `d` by more than epsilon
/// and the rounding.
pub open spec fn content(
    c: Problem,
    prices: Seq<Real>,
    src: int,
    list: Seq<usize>,
    d: int,
    eps: int,
    m: int,
) -> bool {
    forall|j: int|
        0 <= j < list.len() ==> pow2(47) * (units(c, d, src) + prices[d]->Fin_0) <= pow2(47) * (
        units(c, (#[trigger] list[j]) as int, src) + prices[list[j] as int]->Fin_0 + eps) + m
}

/// Every holder is content with what it holds, which is on its list.
pub open spec fn all_content(
    c: Problem,
    graph: Seq<Seq<usize>>,
    s: Auction,
    eps: int,
    m: int,
) -> bool {
    forall|d: int|
        0 <= d < s.holder.len() && (#[trigger] s.holder[d]) != NOBODY ==> {
            let src = s.holder[d] as int;
            &&& graph[src].contains(d as usize)
            &&& content(c, s.prices, src, graph[src], d, eps, m)
        }
}

/// A source without a place in the auction has nothing to bid for.
pub open spec fn nobody_lost(graph: Seq<Seq<usize>>, s: Auction) -> bool {
    forall|src: usize|
        src < graph.len() && graph[src as int].len() > 0 ==> #[trigger] s.queue.contains(src)
            || s.holder.contains(src)
}

/// The rounding of a worth.
proof fn lemma_worth(c: Problem, prices: Seq<Real>, src: int, d: int, m: int)
    requires
        -m <= units(c, d, src) <= m,
        0 <= m <= pow2(2090),
        price_within(prices[d], m),
    ensures
        auction::worth(c, prices, src, d) matches Real::Fin(w) && {
            let e = pow2(53) * (w + units(c, d, src) + prices[d]->Fin_0);
            &&& -4 * m <= e <= 4 * m
            &&& -4 * m <= w <= 4 * m
        },
{
    lemma_pow2_margin();
    let k = pow2(53);
    let x = units(c, d, src);
    let p = prices[d]->Fin_0;
    float::lemma_of_int_exact(c.at(d, src));
    float::lemma_exact_error(x);
    let r = float::exact(x)->Fin_0;
    lemma_scaled(k as int, r - x, m);
    float::lemma_exact_error(-r - p);
    assert(Real::of_int(c.at(d, src)).negated() == Real::Fin(-r));
    let w = float::exact(-r - p)->Fin_0;
    lemma_scaled(k as int, w + r + p, 3 * m);
    assert(k * (w + x + p) == k * (w + r + p) - k * (r - x)) by (nonlinear_arith);
    assert(k * (w - (-r - p)) == k * (w + r + p));
}

/// A small multiple of `2^-53` is itself small.
proof fn lemma_scaled(k: int, x: int, m: int)
    requires
        k >= 1024,
        -m <= k * x <= m,
    ensures
        -m <= 1024 * x <= m,
{
    assert(-m <= 1024 * x <= m) by (nonlinear_arith)
        requires
            k >= 1024,
            -m <= k * x <= m,
    ;
}

proof fn lemma_pow2_margin()
    ensures
        pow2(2097) == 128 * pow2(2090),
        pow2(53) == 64 * pow2(47),
        pow2(53) >= 1024,
        pow2(47) >= 1024,
        pow2(2090) > 0,
        pow2(2045) * (pow2(53) - 1) >= 128 * pow2(2090),
        pow2(1074) > 0,
{
    vstd::arithmetic::power2::lemma2_to64();
    vstd::arithmetic::power2::lemma2_to64_rest();
    lemma_pow2_pos(2090);
    lemma_pow2_pos(2045);
    lemma_pow2_pos(1074);
    lemma_pow2_adds(7, 2090);
    lemma_pow2_adds(6, 47);
    lemma_pow2_adds(52, 2045);
    assert(pow2(2045) * (pow2(53) - 1) >= pow2(2045) * pow2(52)) by (nonlinear_arith)
        requires
            pow2(53) - 1 >= pow2(52),
            pow2(2045) > 0,
    ;
    assert(pow2(2045) * pow2(52) == pow2(2097)) by (nonlinear_arith)
        requires
            pow2(2097) == pow2(52) * pow2(2045),
    ;
}

/// The best target of an offer, and the worth of the others.
proof fn lemma_offer(
    c: Problem,
    prices: Seq<Real>,
    src: int,
    list: Seq<usize>,
    m: int,
    k: nat,
)
    requires
        1 <= k <= list.len(),
        0 <= m <= pow2(2090),
        forall|j: int|
            0 <= j < list.len() ==> -m <= units(c, (#[trigger] list[j]) as int, src) <= m
                && price_within(prices[list[j] as int], m),
    ensures
        ({
            let o = auction::offer(c, prices, src, list, k);
            &&& o.best == auction::worth(c, prices, src, o.dst as int)
            &&& o.best is Fin
            &&& o.second is Fin
            &&& o.second->Fin_0 <= o.best->Fin_0
            &&& o.second == Real::lowest() || o.second->Fin_0 >= -4 * m
            &&& forall|j: int|
                0 <= j < k && (#[trigger] list[j]) != o.dst ==> (auction::worth(
                    c,
                    prices,
                    src,
                    list[j] as int,
                ) matches Real::Fin(w) && w <= o.second->Fin_0)
            &&& exists|j: int| 0 <= j < k && #[trigger] list[j] == o.dst
        }),
    decreases k,
{
    lemma_worth(c, prices, src, list[k - 1] as int, m);
    lemma_pow2_margin();
    let o = auction::offer(c, prices, src, list, k);
    if k == 1 {
        assert(list[0] == o.dst);
        assert(auction::worth(c, prices, src, list[0] as int) is Fin);
        assert(pow2(2045) * (pow2(53) - 1) == (pow2(53) - 1) * pow2(2045)) by (nonlinear_arith);
    } else {
        lemma_offer(c, prices, src, list, m, (k - 1) as nat);
        let b = auction::offer(c, prices, src, list, (k - 1) as nat);
        let j0 = choose|j: int| 0 <= j < k - 1 && #[trigger] list[j] == b.dst;
        lemma_worth(c, prices, src, list[j0] as int, m);
        assert forall|j: int| 0 <= j < k && (#[trigger] list[j]) != o.dst implies (auction::worth(
            c,
            prices,
            src,
            list[j] as int,
        ) matches Real::Fin(w) && w <= o.second->Fin_0) by {
            lemma_worth(c, prices, src, list[j] as int, m);
        }
        assert(list[j0] == o.dst || list[k - 1] == o.dst);
    }
}

/// A bidder is content with the target that it bids for, at its new price.
proof fn lemma_bidder_content(
    c: Problem,
    graph: Seq<Seq<usize>>,
    s: Auction,
    eps: int,
    m: int,
    n: nat,
)
    requires
        auction::graph_fits(graph, n),
        auction::orderly(s, n),
        s.queue.len() > 0,
        graph[s.queue[0] as int].len() > 0,
        moderate(c, graph, s.prices, eps, m),
    ensures
        ({
            let src = s.queue[0] as int;
            let list = graph[src];
            let d = auction::offer(c, s.prices, src, list, list.len()).dst;
            let t = auction::bid(c, graph, Real::Fin(eps), s);
            &&& d < n
            &&& list.contains(d)
            &&& t.prices[d as int] matches Real::Fin(v) && float::representable(v)
            &&& t.prices[d as int]->Fin_0 >= s.prices[d as int]->Fin_0
            &&& forall|j: int|
                0 <= j < list.len() && list[j] != d ==> pow2(53) * (units(c, d as int, src)
                    + t.prices[d as int]->Fin_0) <= pow2(53) * (units(
                    c,
                    (#[trigger] list[j]) as int,
                    src,
                ) + s.prices[list[j] as int]->Fin_0 + eps) + 64 * m
        }),
{
    let src = s.queue[0] as int;
    let list = graph[src];
    let k = pow2(53) as int;
    assert forall|j: int| 0 <= j < list.len() implies -m <= units(
        c,
        (#[trigger] list[j]) as int,
        src,
    ) <= m && price_within(s.prices[list[j] as int], m) && list[j] < n by {
        assert(graph[src][j] < n);
    }
    lemma_offer(c, s.prices, src, list, m, list.len());
    lemma_pow2_margin();
    let o = auction::offer(c, s.prices, src, list, list.len());
    let d = o.dst as int;
    let j0 = choose|j: int| 0 <= j < list.len() && #[trigger] list[j] == o.dst;
    let p = s.prices[d]->Fin_0;
    lemma_worth(c, s.prices, src, d, m);
    let w1 = o.best->Fin_0;
    let inc = auction::increment(o, Real::Fin(eps));
    if forall|j: int| 0 <= j < list.len() ==> (#[trigger] list[j]) == o.dst {
        lemma_lone_increment(w1, o.second->Fin_0, eps, m, p);
    } else {
        let j1 = choose|j: int| 0 <= j < list.len() && (#[trigger] list[j]) != o.dst;
        lemma_worth(c, s.prices, src, list[j1] as int, m);
        let w2 = o.second->Fin_0;
        assert(-4 * m <= w2 <= 4 * m);
        assert(pow2(2045) * (pow2(53) - 1) == (pow2(53) - 1) * pow2(2045)) by (nonlinear_arith);
        assert(o.second != Real::lowest());
        lemma_increment(w1, w2, eps, m, p);
        let v = s.prices[d].plus(inc)->Fin_0;
        let x = units(c, d, src);
        assert forall|j: int| 0 <= j < list.len() && list[j] != o.dst implies k * (x + v) <= k * (
        units(c, (#[trigger] list[j]) as int, src) + s.prices[list[j] as int]->Fin_0 + eps) + 64
            * m by {
            lemma_worth(c, s.prices, src, list[j] as int, m);
            let w = auction::worth(c, s.prices, src, list[j] as int)->Fin_0;
            let y = units(c, list[j] as int, src);
            let q = s.prices[list[j] as int]->Fin_0;
            assert(k * (x + v) == k * (v - (p + w1 - w2 + eps)) + k * (w1 + x + p) - k * w2 + k
                * eps) by (nonlinear_arith);
            assert(k * (y + q + eps) == k * (w + y + q) - k * w + k * eps) by (nonlinear_arith);
            assert(k * w <= k * w2) by (nonlinear_arith)
                requires
                    w <= w2,
                    k > 0,
            ;
        }
    }
}

/// The new price of a target with a rival.
proof fn lemma_increment(w1: int, w2: int, eps: int, m: int, p: int)
    requires
        0 <= eps <= m <= pow2(2090),
        -4 * m <= w2 <= w1 <= 4 * m,
        -m <= p <= m,
        float::representable(p),
        Real::Fin(w2) != Real::lowest(),
    ensures
        ({
            let o = Offer { dst: 0, best: Real::Fin(w1), second: Real::Fin(w2) };
            let v = Real::Fin(p).plus(auction::increment(o, Real::Fin(eps)));
            &&& v matches Real::Fin(x) && float::representable(x) && x >= p
            &&& -30 * m <= pow2(53) * (v->Fin_0 - (p + w1 - w2 + eps)) <= 30 * m
        }),
{
    lemma_pow2_margin();
    let k = pow2(53) as int;
    float::lemma_exact_error(w1 - w2);
    float::lemma_exact_error(0);
    float::lemma_exact_representable(0);
    let a = float::exact(w1 - w2)->Fin_0;
    float::lemma_exact_monotone(0, w1 - w2);
    lemma_scaled(k, a - (w1 - w2), 8 * m);
    float::lemma_exact_error(a + eps);
    let b = float::exact(a + eps)->Fin_0;
    float::lemma_exact_monotone(0, a + eps);
    lemma_scaled(k, b - (a + eps), 10 * m);
    float::lemma_exact_error(p + b);
    let v = float::exact(p + b)->Fin_0;
    float::lemma_exact_monotone(p, p + b);
    float::lemma_exact_representable(p + b);
    assert(k * (v - (p + w1 - w2 + eps)) == k * (v - (p + b)) + k * (b - (a + eps)) + k * (a - (w1
        - w2))) by (nonlinear_arith);
    let o = Offer { dst: 0, best: Real::Fin(w1), second: Real::Fin(w2) };
    assert(Real::Fin(w1).minus(Real::Fin(w2)) == float::exact(w1 - w2));
    assert(auction::increment(o, Real::Fin(eps)) == Real::Fin(b));
}

/// The new price of a target without a rival, or with one at the lowest worth.
proof fn lemma_lone_increment(w1: int, w2: int, eps: int, m: int, p: int)
    requires
        0 <= eps <= m <= pow2(2090),
        -4 * m <= w1 <= 4 * m,
        w2 <= w1,
        Real::Fin(w2) == Real::lowest() || -4 * m <= w2,
        -m <= p <= m,
        float::representable(p),
    ensures
        ({
            let o = Offer { dst: 0, best: Real::Fin(w1), second: Real::Fin(w2) };
            let v = Real::Fin(p).plus(auction::increment(o, Real::Fin(eps)));
            v matches Real::Fin(x) && float::representable(x) && x >= p && pow2(53) * (x - p - eps)
                >= -64 * m
        }),
{
    lemma_pow2_margin();
    let k = pow2(53) as int;
    if Real::Fin(w2) != Real::lowest() {
        lemma_increment(w1, w2, eps, m, p);
        let x = Real::Fin(p).plus(
            auction::increment(
                Offer { dst: 0, best: Real::Fin(w1), second: Real::Fin(w2) },
                Real::Fin(eps),
            ),
        )->Fin_0;
        assert(k * (x - (p + w1 - w2 + eps)) == k * (x - p - eps) - k * (w1 - w2))
            by (nonlinear_arith);
        assert(k * (w1 - w2) >= 0) by (nonlinear_arith)
            requires
                w1 >= w2,
                k > 0,
        ;
    } else {
        float::lemma_exact_error(w1 - eps);
        let z = float::exact(w1 - eps)->Fin_0;
        lemma_scaled(k, z - (w1 - eps), 5 * m);
        float::lemma_exact_error(w1 - z);
        let a = float::exact(w1 - z)->Fin_0;
        lemma_scaled(k, a - (w1 - z), 10 * m);
        float::lemma_exact_error(a + eps);
        let b = float::exact(a + eps)->Fin_0;
        lemma_scaled(k, b - (a + eps), 12 * m);
        let g = if b < 0 { 0 } else { b };
        float::lemma_exact_error(p + g);
        float::lemma_exact_monotone(p, p + g);
        float::lemma_exact_representable(p + g);
        let o = Offer { dst: 0, best: Real::Fin(w1), second: Real::Fin(w2) };
        assert(Real::Fin(w1).minus(Real::Fin(eps)) == float::exact(w1 - eps));
        assert(Real::Fin(w1).minus(Real::Fin(z)) == float::exact(w1 - z));
        assert(auction::increment(o, Real::Fin(eps)) == Real::Fin(g));
        let x = float::exact(p + g)->Fin_0;
        assert(k * (x - p - eps) == k * (x - (p + g)) + k * (g - b) + k * (b - (a + eps)) + k * (a
            - (w1 - z)) - k * (z - (w1 - eps)) + k * eps) by (nonlinear_arith);
        assert(k * (g - b) >= 0 && k * eps >= 0) by (nonlinear_arith)
            requires
                g >= b,
                eps >= 0,
                k > 0,
        ;
    }
}

/// A price that, if it is finite, an operation can have given.
pub open spec fn tame(p: Real) -> bool {
    p matches Real::Fin(v) ==> float::representable(v)
}

/// A finite later price is no lower than the price was before.
pub open spec fn risen(before: Real, after: Real) -> bool {
    after matches Real::Fin(v) ==> before matches Real::Fin(u) && u <= v
}

proof fn lemma_bid_rises(c: Problem, graph: Seq<Seq<usize>>, eps: Real, s: Auction, n: nat, d: int)
    requires
        auction::graph_fits(graph, n),
        auction::orderly(s, n),
        s.queue.len() > 0,
        0 <= d < n,
        tame(s.prices[d]),
    ensures
        tame(auction::bid(c, graph, eps, s).prices[d]),
        risen(s.prices[d], auction::bid(c, graph, eps, s).prices[d]),
{
    let src = s.queue[0] as int;
    let list = graph[src];
    if list.len() > 0 {
        let o = auction::offer(c, s.prices, src, list, list.len());
        auction::lemma_offer_in_list(c, s.prices, src, list, list.len());
        let j = choose|j: int| 0 <= j < list.len() && list[j] == o.dst;
        assert(graph[src][j] < n);
        if o.dst == d {
            let i = auction::increment(o, eps);
            assert(i is PosInf || (i is Fin && i->Fin_0 >= 0));
            if s.prices[d] is Fin && i is Fin {
                let p = s.prices[d]->Fin_0;
                float::lemma_exact_representable(p + i->Fin_0);
                if float::exact(p + i->Fin_0) is Fin {
                    float::lemma_exact_monotone(p, p + i->Fin_0);
                }
            }
        }
    }
}

proof fn lemma_run_rises(
    c: Problem,
    graph: Seq<Seq<usize>>,
    eps: Real,
    s: Auction,
    n: nat,
    fuel: nat,
    d: int,
)
    requires
        auction::graph_fits(graph, n),
        auction::orderly(s, n),
        0 <= d < n,
        tame(s.prices[d]),
    ensures
        tame(auction::run(c, graph, eps, s, fuel).prices[d]),
        risen(s.prices[d], auction::run(c, graph, eps, s, fuel).prices[d]),
    decreases fuel,
{
    if fuel > 0 && s.queue.len() > 0 {
        lemma_bid_rises(c, graph, eps, s, n, d);
        auction::lemma_bid(c, graph, eps, s, n);
        lemma_run_rises(c, graph, eps, auction::bid(c, graph, eps, s), n, (fuel - 1) as nat, d);
    }
}

/// The first in the queue finds a place, and whom it drives out waits.
proof fn lemma_bid_loses_nobody(
    c: Problem,
    graph: Seq<Seq<usize>>,
    eps: Real,
    s: Auction,
    n: nat,
)
    requires
        auction::graph_fits(graph, n),
        auction::orderly(s, n),
        s.queue.len() > 0,
        nobody_lost(graph, s),
    ensures
        nobody_lost(graph, auction::bid(c, graph, eps, s)),
{
    let src = s.queue[0];
    let list = graph[src as int];
    let rest = s.queue.skip(1);
    let t = auction::bid(c, graph, eps, s);
    if list.len() > 0 {
        auction::lemma_offer_in_list(c, s.prices, src as int, list, list.len());
        let d = auction::offer(c, s.prices, src as int, list, list.len()).dst as int;
        let j = choose|j: int| 0 <= j < list.len() && list[j] == d;
        assert(graph[src as int][j] < n);
        assert(t.holder[d] == src);
    }
    assert forall|x: usize| x < graph.len() && graph[x as int].len() > 0 implies #[trigger] t.queue.contains(
        x,
    ) || t.holder.contains(x) by {
        if x != src {
            if s.queue.contains(x) {
                let i = choose|i: int| 0 <= i < s.queue.len() && s.queue[i] == x;
                assert(rest[i - 1] == x);
                assert(t.queue[i - 1] == x);
            } else {
                assert(s.holder.contains(x));
                let i = choose|i: int| 0 <= i < s.holder.len() && s.holder[i] == x;
                if list.len() > 0 && i == auction::offer(
                    c,
                    s.prices,
                    src as int,
                    list,
                    list.len(),
                ).dst {
                    assert(s.holder[i] < n);
                    assert(t.queue[rest.len() as int] == x);
                } else {
                    assert(t.holder[i] == x);
                }
            }
        }
    }
}

proof fn lemma_bid_content(
    c: Problem,
    graph: Seq<Seq<usize>>,
    s: Auction,
    eps: int,
    m: int,
    n: nat,
)
    requires
        auction::graph_fits(graph, n),
        auction::orderly(s, n),
        s.queue.len() > 0,
        moderate(c, graph, s.prices, eps, m),
        moderate(c, graph, auction::bid(c, graph, Real::Fin(eps), s).prices, eps, m),
        all_content(c, graph, s, eps, m),
    ensures
        all_content(c, graph, auction::bid(c, graph, Real::Fin(eps), s), eps, m),
{
    let src = s.queue[0] as int;
    let list = graph[src];
    let t = auction::bid(c, graph, Real::Fin(eps), s);
    lemma_pow2_margin();
    if list.len() > 0 {
        lemma_bidder_content(c, graph, s, eps, m, n);
        let o = auction::offer(c, s.prices, src, list, list.len());
        let d0 = o.dst as int;
        let k = pow2(47) as int;
        assert forall|d: int| 0 <= d < n && (#[trigger] t.holder[d]) != NOBODY implies {
            let x = t.holder[d] as int;
            &&& graph[x].contains(d as usize)
            &&& content(c, t.prices, x, graph[x], d, eps, m)
        } by {
            let x = t.holder[d] as int;
            if d == d0 {
                assert(x == src);
                assert forall|j: int| 0 <= j < list.len() implies k * (units(c, d, src)
                    + t.prices[d]->Fin_0) <= k * (units(c, (#[trigger] list[j]) as int, src)
                    + t.prices[list[j] as int]->Fin_0 + eps) + m by {
                    if list[j] != d {
                        assert(graph[src][j] < n);
                        let a = units(c, d, src) + t.prices[d]->Fin_0;
                        let b = units(c, list[j] as int, src) + t.prices[list[j] as int]->Fin_0
                            + eps;
                        assert(pow2(53) * a <= pow2(53) * b + 64 * m);
                        assert(k * a <= k * b + m) by (nonlinear_arith)
                            requires
                                pow2(53) * a <= pow2(53) * b + 64 * m,
                                pow2(53) == 64 * k,
                        ;
                    } else {
                        let a = units(c, d, src) + t.prices[d]->Fin_0;
                        assert(k * a <= k * (a + eps)) by (nonlinear_arith)
                            requires
                                eps >= 0,
                                k >= 0,
                        ;
                    }
                }
            } else {
                assert(s.holder[d] != NOBODY);
                let l = graph[x];
                assert(content(c, s.prices, x, l, d, eps, m));
                assert forall|j: int| 0 <= j < l.len() implies k * (units(c, d, x)
                    + t.prices[d]->Fin_0) <= k * (units(c, (#[trigger] l[j]) as int, x)
                    + t.prices[l[j] as int]->Fin_0 + eps) + m by {
                    assert(graph[x][j] < n);
                    assert(t.prices[l[j] as int]->Fin_0 >= s.prices[l[j] as int]->Fin_0);
                    let a = units(c, l[j] as int, x) + s.prices[l[j] as int]->Fin_0 + eps;
                    let b = units(c, l[j] as int, x) + t.prices[l[j] as int]->Fin_0 + eps;
                    assert(k * a <= k * b) by (nonlinear_arith)
                        requires
                            a <= b,
                            k >= 0,
                    ;
                }
            }
        }
    }
}

proof fn lemma_run_content(
    c: Problem,
    graph: Seq<Seq<usize>>,
    s: Auction,
    eps: int,
    m: int,
    n: nat,
    fuel: nat,
)
    requires
        auction::graph_fits(graph, n),
        auction::orderly(s, n),
        moderate(c, graph, s.prices, eps, m),
        moderate(c, graph, auction::run(c, graph, Real::Fin(eps), s, fuel).prices, eps, m),
        all_content(c, graph, s, eps, m),
    ensures
        all_content(c, graph, auction::run(c, graph, Real::Fin(eps), s, fuel), eps, m),
    decreases fuel,
{
    if fuel > 0 && s.queue.len() > 0 {
        let e = Real::Fin(eps);
        let t = auction::bid(c, graph, e, s);
        let f = (fuel - 1) as nat;
        auction::lemma_bid(c, graph, e, s, n);
        auction::lemma_run(c, graph, e, t, n, f);
        assert forall|d: int| 0 <= d < n implies price_within(#[trigger] t.prices[d], m) by {
            assert(price_within(s.prices[d], m));
            assert(price_within(auction::run(c, graph, e, t, f).prices[d], m));
            lemma_bid_rises(c, graph, e, s, n, d);
            lemma_run_rises(c, graph, e, t, n, f, d);
        }
        lemma_bid_content(c, graph, s, eps, m, n);
        lemma_run_content(c, graph, t, eps, m, n, f);
    }
}

proof fn lemma_run_loses_nobody(
    c: Problem,
    graph: Seq<Seq<usize>>,
    eps: Real,
    s: Auction,
    n: nat,
    fuel: nat,
)
    requires
        auction::graph_fits(graph, n),
        auction::orderly(s, n),
        nobody_lost(graph, s),
    ensures
        nobody_lost(graph, auction::run(c, graph, eps, s, fuel)),
    decreases fuel,
{
    if fuel > 0 && s.queue.len() > 0 {
        auction::lemma_bid(c, graph, eps, s, n);
        lemma_bid_loses_nobody(c, graph, eps, s, n);
        lemma_run_loses_nobody(
            c,
            graph,
            eps,
            auction::bid(c, graph, eps, s),
            n,
            (fuel - 1) as nat,
        );
    }
}

/// One more bid, if anybody waits.
proof fn lemma_run_next(c: Problem, graph: Seq<Seq<usize>>, eps: Real, s: Auction, k: nat)
    ensures
        ({
            let t = auction::run(c, graph, eps, s, k);
            auction::run(c, graph, eps, s, k + 1) == if t.queue.len() == 0 {
                t
            } else {
                auction::bid(c, graph, eps, t)
            }
        }),
    decreases k,
{
    reveal_with_fuel(auction::run, 3);
    if k > 0 && s.queue.len() > 0 {
        lemma_run_next(c, graph, eps, auction::bid(c, graph, eps, s), (k - 1) as nat);
    }
}

/// The bids that are made lead to the end, and none is saved while somebody waits.
proof fn lemma_bids_made(c: Problem, graph: Seq<Seq<usize>>, eps: Real, s: Auction, fuel: nat)
    ensures
        ({
            let b = auction::bids_made(c, graph, eps, s, fuel);
            let t = auction::run(c, graph, eps, s, fuel);
            &&& b <= fuel
            &&& t == auction::run(c, graph, eps, s, b)
            &&& b < fuel ==> t.queue.len() == 0
        }),
    decreases fuel,
{
    if fuel > 0 && s.queue.len() > 0 {
        lemma_bids_made(c, graph, eps, auction::bid(c, graph, eps, s), (fuel - 1) as nat);
    }
}

/// In the first round everybody bids in turn.
proof fn lemma_first_round(
    c: Problem,
    graph: Seq<Seq<usize>>,
    prices: Seq<Real>,
    eps: Real,
    k: nat,
)
    requires
        k <= graph.len() <= usize::MAX,
    ensures
        ({
            let n = graph.len();
            let t = auction::run(c, graph, eps, auction::opening(prices, n), k);
            &&& t.queue.len() >= n - k
            &&& forall|i: int| 0 <= i < n - k ==> #[trigger] t.queue[i] == k + i
        }),
    decreases k,
{
    let n = graph.len();
    let s = auction::opening(prices, n);
    if k > 0 {
        lemma_first_round(c, graph, prices, eps, (k - 1) as nat);
        lemma_run_next(c, graph, eps, s, (k - 1) as nat);
        let b = auction::run(c, graph, eps, s, (k - 1) as nat);
        let t = auction::run(c, graph, eps, s, k);
        let rest = b.queue.skip(1);
        assert forall|i: int| 0 <= i < n - k implies #[trigger] t.queue[i] == k + i by {
            assert(t.queue[i] == rest[i]);
            assert(b.queue[i + 1] == k - 1 + i + 1);
        }
    }
}

proof fn lemma_edges_sum(graph: Seq<Seq<usize>>, k: nat)
    requires
        k <= graph.len(),
    ensures
        auction::edges(graph, k) == perm::sum_to(|s: int| graph[s].len() as int, k),
    decreases k,
{
    if k > 0 {
        lemma_edges_sum(graph, (k - 1) as nat);
    }
}

/// Whatever the size of the graph, every source takes its turn in every phase. A
/// phase ends early only if nobody waits: otherwise it has made sixteen bids for
/// every edge and four for every source, as far as such a number can be counted.
pub proof fn lemma_everybody_bids(
    c: Problem,
    graph: Seq<Seq<usize>>,
    prices: Seq<Real>,
    epsilon: Real,
)
    requires
        graph.len() <= usize::MAX,
    ensures
        ({
            let n = graph.len();
            let eps = auction::floored(epsilon, n);
            let s = auction::opening(prices, n);
            let end = auction::phase(c, graph, prices, epsilon);
            let made = auction::bids_made(c, graph, eps, s, auction::bid_limit(graph));
            let listed = perm::sum_to(|i: int| graph[i].len() as int, n);
            &&& end == auction::run(c, graph, eps, s, made)
            &&& made >= n
            &&& forall|i: nat|
                i < n ==> {
                    let t = #[trigger] auction::run(c, graph, eps, s, i);
                    t.queue.len() > 0 && t.queue[0] == i
                }
            &&& end.queue.len() > 0 ==> made >= usize::MAX || made >= 16 * listed + 4 * n
        }),
{
    let n = graph.len();
    let eps = auction::floored(epsilon, n);
    let s = auction::opening(prices, n);
    let limit = auction::bid_limit(graph);
    lemma_edges_sum(graph, n);
    lemma_bids_made(c, graph, eps, s, limit);
    let made = auction::bids_made(c, graph, eps, s, limit);
    assert forall|i: nat| i < n implies {
        let t = #[trigger] auction::run(c, graph, eps, s, i);
        t.queue.len() > 0 && t.queue[0] == i
    } by {
        lemma_first_round(c, graph, prices, eps, i);
        let t = auction::run(c, graph, eps, s, i);
        assert(t.queue[0] == i + 0);
    }
    if made < n {
        assert(auction::run(c, graph, eps, s, made).queue.len() > 0);
    }
}

/// The state in which the last of `phases` phases ends.
pub open spec fn closing(
    c: Problem,
    graph: Seq<Seq<usize>>,
    prices: Seq<Real>,
    epsilon: Real,
    phases: nat,
) -> Auction
    decreases phases,
{
    let s = auction::phase(c, graph, prices, epsilon);
    if phases <= 1 {
        s
    } else {
        closing(c, graph, s.prices, epsilon.over(5), (phases - 1) as nat)
    }
}

/// The epsilon of the last of `phases` phases.
pub open spec fn last_epsilon(epsilon: Real, phases: nat, n: nat) -> Real
    decreases phases,
{
    if phases <= 1 {
        auction::floored(epsilon, n)
    } else {
        last_epsilon(epsilon.over(5), (phases - 1) as nat, n)
    }
}

/// The state in which the auction of `auction::auction_assignment` ends.
pub open spec fn market(
    c: Problem,
    cands: Seq<Seq<usize>>,
    given: Option<Seq<Real>>,
    phases: nat,
) -> Auction {
    let graph = auction::bidding_graph(cands, c.n());
    closing(
        c,
        graph,
        auction::first_prices(given, c.n()),
        auction::first_epsilon(c, graph),
        phases,
    )
}

/// The epsilon that the auction of `auction::auction_assignment` ends with.
pub open spec fn market_epsilon(c: Problem, cands: Seq<Seq<usize>>, phases: nat) -> Real {
    last_epsilon(auction::first_epsilon(c, auction::bidding_graph(cands, c.n())), phases, c.n())
}

proof fn lemma_closing_holders(
    c: Problem,
    graph: Seq<Seq<usize>>,
    prices: Seq<Real>,
    epsilon: Real,
    phases: nat,
)
    ensures
        closing(c, graph, prices, epsilon, phases).holder == auction::holders(
            c,
            graph,
            prices,
            epsilon,
            phases,
        ),
    decreases phases,
{
    if phases > 1 {
        lemma_closing_holders(
            c,
            graph,
            auction::phase(c, graph, prices, epsilon).prices,
            epsilon.over(5),
            (phases - 1) as nat,
        );
    }
}

/// A source may bid for exactly the targets that list it.
pub proof fn lemma_targets_listed(cands: Seq<Seq<usize>>, src: usize, k: nat)
    requires
        k <= usize::MAX,
    ensures
        forall|d: usize|
            #[trigger] auction::targets_of(cands, src, k).contains(d) <==> d < k
                && cands[d as int].contains(src),
    decreases k,
{
    if k > 0 {
        lemma_targets_listed(cands, src, (k - 1) as nat);
        let b = auction::targets_of(cands, src, (k - 1) as nat);
        let t = auction::targets_of(cands, src, k);
        assert forall|d: usize| #[trigger] t.contains(d) <==> d < k && cands[d as int].contains(
            src,
        ) by {
            if b.contains(d) {
                let i = choose|i: int| 0 <= i < b.len() && b[i] == d;
                assert(t[i] == d);
            }
            if d == k - 1 && cands[d as int].contains(src) {
                assert(t[b.len() as int] == d);
            }
            if t.contains(d) {
                let i = choose|i: int| 0 <= i < t.len() && t[i] == d;
                if i < b.len() {
                    assert(b[i] == d);
                }
            }
        }
    }
}

/// What is held is on the holder's list.
pub open spec fn held_from_lists(graph: Seq<Seq<usize>>, s: Auction) -> bool {
    forall|d: int|
        0 <= d < s.holder.len() && (#[trigger] s.holder[d]) != NOBODY
            ==> graph[s.holder[d] as int].contains(d as usize)
}

proof fn lemma_run_held(
    c: Problem,
    graph: Seq<Seq<usize>>,
    eps: Real,
    s: Auction,
    n: nat,
    fuel: nat,
)
    requires
        auction::graph_fits(graph, n),
        auction::orderly(s, n),
        held_from_lists(graph, s),
    ensures
        held_from_lists(graph, auction::run(c, graph, eps, s, fuel)),
    decreases fuel,
{
    if fuel > 0 && s.queue.len() > 0 {
        auction::lemma_bid(c, graph, eps, s, n);
        let src = s.queue[0] as int;
        let list = graph[src];
        if list.len() > 0 {
            auction::lemma_offer_in_list(c, s.prices, src, list, list.len());
            let o = auction::offer(c, s.prices, src, list, list.len());
            let j = choose|j: int| 0 <= j < list.len() && list[j] == o.dst;
            assert(graph[src][j] < n);
            assert(list.contains(o.dst));
        }
        lemma_run_held(c, graph, eps, auction::bid(c, graph, eps, s), n, (fuel - 1) as nat);
    }
}

/// The state at the end of the last phase, whose prices have risen since the start.
proof fn lemma_closing(
    c: Problem,
    graph: Seq<Seq<usize>>,
    prices: Seq<Real>,
    epsilon: Real,
    phases: nat,
    n: nat,
) -> (from: Seq<Real>)
    requires
        auction::graph_fits(graph, n),
        prices.len() == n <= usize::MAX,
        forall|d: int| 0 <= d < n ==> tame(#[trigger] prices[d]),
    ensures
        from.len() == n,
        ({
            let s = closing(c, graph, prices, epsilon, phases);
            let last = last_epsilon(epsilon, phases, n);
            &&& s == auction::run(
                c,
                graph,
                last,
                auction::opening(from, n),
                auction::bid_limit(graph),
            )
            &&& auction::orderly(s, n)
            &&& held_from_lists(graph, s)
            &&& nobody_lost(graph, s)
            &&& forall|d: int|
                0 <= d < n ==> tame(#[trigger] from[d]) && risen(prices[d], from[d]) && risen(
                    from[d],
                    s.prices[d],
                )
        }),
    decreases phases,
{
    let s0 = auction::opening(prices, n);
    let eps = auction::floored(epsilon, n);
    let limit = auction::bid_limit(graph);
    assert(auction::orderly(s0, n));
    auction::lemma_run(c, graph, eps, s0, n, limit);
    let s = auction::phase(c, graph, prices, epsilon);
    assert forall|d: int| 0 <= d < n implies tame(#[trigger] s.prices[d]) && risen(
        prices[d],
        s.prices[d],
    ) by {
        assert(tame(prices[d]));
        lemma_run_rises(c, graph, eps, s0, n, limit, d);
    }
    if phases <= 1 {
        lemma_run_held(c, graph, eps, s0, n, limit);
        assert(nobody_lost(graph, s0)) by {
            assert forall|src: usize|
                src < graph.len() && graph[src as int].len() > 0 implies #[trigger] s0.queue.contains(
                src,
            ) || s0.holder.contains(src) by {
                assert(s0.queue[src as int] == src);
            }
        }
        lemma_run_loses_nobody(c, graph, eps, s0, n, limit);
        prices
    } else {
        let from = lemma_closing(
            c,
            graph,
            s.prices,
            epsilon.over(5),
            (phases - 1) as nat,
            n,
        );
        assert forall|d: int| 0 <= d < n implies risen(prices[d], #[trigger] from[d]) by {
            assert(risen(prices[d], s.prices[d]));
        }
        from
    }
}

/// Targets that are held keep their holders.
proof fn lemma_repaired_keeps(holder: Seq<usize>, n: nat, i: nat, d: int)
    requires
        auction::partial_perm(holder, n),
        i <= n,
        0 <= d < n,
        holder[d] != NOBODY,
    ensures
        auction::repaired(holder, i)[d] == holder[d],
        auction::repaired(holder, i).len() == n,
    decreases n - i,
{
    if i < n {
        if holder[i as int] != NOBODY {
            lemma_repaired_keeps(holder, n, i + 1, d);
        } else {
            let w = auction::lemma_some_unused(holder, n, i as int);
            let v = choose|v: int| auction::least_unused(holder, v);
            auction::lemma_fill(holder, n, i as int, v);
            lemma_repaired_keeps(holder.update(i as int, v as usize), n, i + 1, d);
        }
    }
}

/// A target that somebody holds when the bidding ends takes that source, one of its
/// candidates. Only the targets that nobody holds are filled with what is left.
pub proof fn lemma_held_targets_take_candidates(
    c: Problem,
    cands: Seq<Seq<usize>>,
    given: Option<Seq<Real>>,
    phases: nat,
    d: int,
)
    requires
        1 < c.n() <= usize::MAX,
        cands.len() == c.n(),
        forall|i: int|
            0 <= i < c.n() ==> tame(#[trigger] auction::first_prices(given, c.n())[i]),
        0 <= d < c.n(),
        market(c, cands, given, phases).holder[d] != NOBODY,
    ensures
        ({
            let a = auction::auction_assignment(c, cands, given, phases);
            &&& a[d] == market(c, cands, given, phases).holder[d]
            &&& cands[d].contains(a[d])
        }),
{
    let n = c.n();
    let graph = auction::bidding_graph(cands, n);
    let prices = auction::first_prices(given, n);
    let epsilon = auction::first_epsilon(c, graph);
    auction::lemma_graph_fits(cands, n);
    let from = lemma_closing(c, graph, prices, epsilon, phases, n);
    lemma_closing_holders(c, graph, prices, epsilon, phases);
    let s = market(c, cands, given, phases);
    lemma_repaired_keeps(s.holder, n, 0, d);
    let src = s.holder[d];
    lemma_targets_listed(cands, src, n);
    assert(graph[src as int].contains(d as usize));
}

/// Where `v` stands in `a`.
pub open spec fn position(a: Seq<usize>, v: int) -> int {
    choose|i: int| 0 <= i < a.len() && #[trigger] a[i] == v
}

proof fn lemma_position(a: Seq<usize>, n: nat, i: int)
    requires
        perm::is_perm(a, n),
        0 <= i < n,
    ensures
        position(a, a[i] as int) == i,
{
    let v = a[i] as int;
    let k = position(a, v);
    assert(0 <= i < a.len() && a[i] == v);
    assert(0 <= k < a.len() && a[k] == v);
    if k < i {
        assert(a[k] != a[i]);
    } else if i < k {
        assert(a[i] != a[k]);
    }
}

/// If nobody waits and everybody has a list, the holders are a permutation.
proof fn lemma_settled_is_perm(graph: Seq<Seq<usize>>, s: Auction, n: nat)
    requires
        graph.len() == n,
        auction::orderly(s, n),
        nobody_lost(graph, s),
        s.queue.len() == 0,
        forall|i: int| 0 <= i < n ==> (#[trigger] graph[i]).len() > 0,
    ensures
        perm::is_perm(s.holder, n),
{
    assert forall|d: int| 0 <= d < n implies (#[trigger] s.holder[d]) < n by {
        if s.holder[d] == NOBODY {
            let v = auction::lemma_some_unused(s.holder, n, d);
            assert(graph[v].len() > 0);
            assert(!s.queue.contains(v as usize));
            assert(s.holder.contains(v as usize));
        }
    }
}

/// Holders who are all content pay, together, at most `n` epsilons more than those of
/// any other permutation that respects the lists.
proof fn lemma_content_total(
    c: Problem,
    graph: Seq<Seq<usize>>,
    s: Auction,
    eps: int,
    m: int,
    n: nat,
    q: Seq<usize>,
)
    requires
        c.n() == n == graph.len(),
        n <= usize::MAX,
        perm::is_perm(s.holder, n),
        s.prices.len() == n,
        all_content(c, graph, s, eps, m),
        perm::is_perm(q, n),
        forall|d: int| 0 <= d < n ==> graph[#[trigger] q[d] as int].contains(d as usize),
    ensures
        pow2(47) * (cost::total(c, s.holder) * pow2(1074)) <= pow2(47) * (cost::total(c, q) * pow2(
            1074,
        ) + n * eps) + n * m,
{
    let a = s.holder;
    let k = pow2(47) as int;
    let u = pow2(1074) as int;
    let p = |d: int| s.prices[d]->Fin_0;
    let f = |x: int| k * (units(c, position(a, x), x) + p(position(a, x)));
    let g = |x: int| k * (units(c, position(q, x), x) + p(position(q, x)) + eps) + m;
    assert forall|x: int| 0 <= x < n implies #[trigger] f(x) <= g(x) by {
        perm::lemma_perm_reaches(a, n, x);
        perm::lemma_perm_reaches(q, n, x);
        let d = position(a, x);
        let e = position(q, x);
        assert(0 <= d < n && a[d] == x);
        assert(0 <= e < n && q[e] == x);
        assert(graph[x].contains(e as usize));
        let j = choose|j: int| 0 <= j < graph[x].len() && graph[x][j] == e as usize;
        assert(s.holder[d] != NOBODY);
        assert(content(c, s.prices, x, graph[x], d, eps, m));
        assert(graph[x][j] == e);
    }
    perm::lemma_sum_le(f, g, n);
    perm::lemma_sum_permuted(f, a, n);
    perm::lemma_sum_permuted(g, q, n);
    let fa = |d: int| k * (units(c, d, a[d] as int) + p(d));
    let gq = |d: int| k * (units(c, d, q[d] as int) + p(d) + eps) + m;
    assert forall|d: int| 0 <= d < n implies #[trigger] fa(d) == f(a[d] as int) by {
        lemma_position(a, n, d);
    }
    assert forall|d: int| 0 <= d < n implies #[trigger] gq(d) == g(q[d] as int) by {
        lemma_position(q, n, d);
    }
    perm::lemma_sum_ext(fa, |d: int| f(a[d] as int), n);
    perm::lemma_sum_ext(gq, |d: int| g(q[d] as int), n);
    lemma_priced_total(c, a, p, k, u, 0, 0, n);
    lemma_priced_total(c, q, p, k, u, eps, m, n);
    perm::lemma_sum_ext(fa, |d: int| k * (c.at(d, a[d] as int) * u + p(d) + 0) + 0, n);
    perm::lemma_sum_ext(gq, |d: int| k * (c.at(d, q[d] as int) * u + p(d) + eps) + m, n);
    let sp = perm::sum_to(p, n);
    assert(n * 0 == 0);
    assert(k * (cost::total(c, a) * u + sp + 0) == k * (cost::total(c, a) * u) + k * sp)
        by (nonlinear_arith);
    assert(k * (cost::total(c, q) * u + sp + n * eps) == k * (cost::total(c, q) * u + n * eps) + k
        * sp) by (nonlinear_arith);
}

proof fn lemma_priced_total(
    c: Problem,
    a: Seq<usize>,
    p: spec_fn(int) -> int,
    k: int,
    u: int,
    eps: int,
    m: int,
    n: nat,
)
    requires
        n <= a.len(),
    ensures
        perm::sum_to(|d: int| k * (c.at(d, a[d] as int) * u + p(d) + eps) + m, n) == k * (
        perm::sum_to(|d: int| c.at(d, a[d] as int), n) * u + perm::sum_to(p, n) + n * eps) + n * m,
    decreases n,
{
    if n > 0 {
        let b = (n - 1) as nat;
        lemma_priced_total(c, a, p, k, u, eps, m, b);
        let t = perm::sum_to(|d: int| c.at(d, a[d] as int), b);
        let x = c.at(n - 1, a[n - 1] as int);
        let sp = perm::sum_to(p, b);
        let y = p(n - 1);
        assert(k * (t * u + sp + b * eps) + b * m + (k * (x * u + y + eps) + m) == k * ((t + x) * u
            + (sp + y) + n * eps) + n * m) by (nonlinear_arith)
            requires
                n == b + 1,
        ;
    } else {
        assert(0 * u == 0 && 0 * eps == 0 && 0 * m == 0);
        assert(k * 0 == 0);
    }
}

/// Epsilon-complementary slackness, and what follows: if the bidding ends with nobody
/// waiting, every target takes one of its candidates, no source would be better off
/// with another target that lists it by more than epsilon and the rounding of a bid,
/// and the total cost exceeds that of any permutation that respects the lists by at
/// most `n` times as much.
///
/// All in units: `eps` is the epsilon of the last phase, and `m` bounds it, the
/// costs of all candidates and the prices.
pub proof fn lemma_settled_is_nearly_cheapest(
    c: Problem,
    cands: Seq<Seq<usize>>,
    given: Option<Seq<Real>>,
    phases: nat,
    eps: int,
    m: int,
    q: Seq<usize>,
)
    requires
        1 < c.n() <= usize::MAX,
        cands.len() == c.n(),
        market_epsilon(c, cands, phases) == Real::Fin(eps),
        0 <= eps <= m <= pow2(2090),
        forall|d: int, s: usize|
            0 <= d < c.n() && s < c.n() && #[trigger] cands[d].contains(s) ==> -m <= units(
                c,
                d,
                s as int,
            ) <= m,
        forall|d: int|
            0 <= d < c.n() ==> price_within(#[trigger] auction::first_prices(given, c.n())[d], m),
        forall|d: int|
            0 <= d < c.n() ==> price_within(#[trigger] market(c, cands, given, phases).prices[d], m),
        market(c, cands, given, phases).queue.len() == 0,
        perm::is_perm(q, c.n()),
        forall|d: int| 0 <= d < c.n() ==> cands[d].contains(#[trigger] q[d]),
    ensures
        ({
            let a = auction::auction_assignment(c, cands, given, phases);
            let prices = market(c, cands, given, phases).prices;
            &&& perm::is_perm(a, c.n())
            &&& forall|d: int| 0 <= d < c.n() ==> cands[d].contains(#[trigger] a[d])
            &&& forall|d: int, e: int|
                #![trigger a[d], prices[e]]
                0 <= d < c.n() && 0 <= e < c.n() && cands[e].contains(a[d]) ==> pow2(47) * (units(
                    c,
                    d,
                    a[d] as int,
                ) + prices[d]->Fin_0) <= pow2(47) * (units(c, e, a[d] as int) + prices[e]->Fin_0
                    + eps) + m
            &&& pow2(47) * (cost::total(c, a) * pow2(1074)) <= pow2(47) * (cost::total(c, q)
                * pow2(1074) + c.n() * eps) + c.n() * m
        }),
{
    let n = c.n();
    let graph = auction::bidding_graph(cands, n);
    let prices = auction::first_prices(given, n);
    let epsilon = auction::first_epsilon(c, graph);
    auction::lemma_graph_fits(cands, n);
    assert forall|d: int| 0 <= d < n implies tame(#[trigger] prices[d]) by {
        assert(price_within(prices[d], m));
    }
    let from = lemma_closing(c, graph, prices, epsilon, phases, n);
    lemma_closing_holders(c, graph, prices, epsilon, phases);
    let s = market(c, cands, given, phases);
    let s0 = auction::opening(from, n);
    let limit = auction::bid_limit(graph);
    assert forall|x: int, j: int| 0 <= x < n && 0 <= j < graph[x].len() implies -m <= units(
        c,
        (#[trigger] graph[x][j]) as int,
        x,
    ) <= m by {
        lemma_targets_listed(cands, x as usize, n);
        assert(graph[x].contains(graph[x][j]));
        assert(cands[graph[x][j] as int].contains(x as usize));
    }
    assert forall|d: int| 0 <= d < n implies price_within(#[trigger] s0.prices[d], m) by {
        assert(tame(from[d]));
        assert(price_within(prices[d], m));
        assert(price_within(s.prices[d], m));
    }
    lemma_run_content(c, graph, s0, eps, m, n, limit);
    assert forall|x: int| 0 <= x < n implies (#[trigger] graph[x]).len() > 0 by {
        perm::lemma_perm_reaches(q, n, x);
        let d = choose|d: int| 0 <= d < n && #[trigger] q[d] == x;
        lemma_targets_listed(cands, x as usize, n);
        assert(cands[d].contains(q[d]));
        assert(graph[x].contains(d as usize));
    }
    lemma_settled_is_perm(graph, s, n);
    assert forall|d: int| 0 <= d < n implies graph[#[trigger] q[d] as int].contains(d as usize) by {
        lemma_targets_listed(cands, q[d], n);
        assert(cands[d].contains(q[d]));
    }
    lemma_content_total(c, graph, s, eps, m, n, q);
    let a = auction::auction_assignment(c, cands, given, phases);
    assert forall|d: int| 0 <= d < n implies #[trigger] a[d] == s.holder[d] && cands[d].contains(
        a[d],
    ) by {
        assert(s.holder[d] < n);
        lemma_held_targets_take_candidates(c, cands, given, phases, d);
    }
    auction::lemma_auction_is_permutation(c, cands, given, phases);
    assert(a =~= s.holder);
    assert forall|d: int, e: int|
        #![trigger a[d], s.prices[e]]
        0 <= d < n && 0 <= e < n && cands[e].contains(a[d]) implies pow2(47) * (units(
        c,
        d,
        a[d] as int,
    ) + s.prices[d]->Fin_0) <= pow2(47) * (units(c, e, a[d] as int) + s.prices[e]->Fin_0 + eps)
        + m by {
        let x = a[d] as int;
        lemma_targets_listed(cands, a[d], n);
        assert(graph[x].contains(e as usize));
        let j = choose|j: int| 0 <= j < graph[x].len() && graph[x][j] == e as usize;
        assert(s.holder[d] != NOBODY);
        assert(content(c, s.prices, x, graph[x], d, eps, m));
        assert(graph[x][j] == e);
    }
}

/// No cost between a source of the graph and a target on its list exceeds the peak,
/// which is one of them.
pub proof fn lemma_peak(c: Problem, graph: Seq<Seq<usize>>, k: nat)
    requires
        k <= graph.len(),
    ensures
        forall|s: int, j: int|
            0 <= s < k && 0 <= j < graph[s].len() ==> cost::absolute(
                c.at((#[trigger] graph[s][j]) as int, s),
            ) <= auction::peak(c, graph, k),
        auction::peak(c, graph, k) == 0 || exists|s: int, j: int|
            0 <= s < k && 0 <= j < graph[s].len() && cost::absolute(
                c.at((#[trigger] graph[s][j]) as int, s),
            ) == auction::peak(c, graph, k),
        auction::peak(c, graph, k) >= 0,
    decreases k,
{
    if k > 0 {
        let b = auction::peak(c, graph, (k - 1) as nat);
        lemma_peak(c, graph, (k - 1) as nat);
        lemma_row_peak(c, k - 1, graph[k - 1], graph[k - 1].len(), b);
        let p = auction::peak(c, graph, k);
        if p == b && b != 0 {
            let (s, j) = choose|s: int, j: int|
                0 <= s < k - 1 && 0 <= j < graph[s].len() && cost::absolute(
                    c.at((#[trigger] graph[s][j]) as int, s),
                ) == b;
            assert(cost::absolute(c.at(graph[s][j] as int, s)) == p);
        } else if p != b {
            let list = graph[k - 1];
            let j = choose|j: int|
                0 <= j < list.len() && cost::absolute(c.at((#[trigger] list[j]) as int, k - 1))
                    == p;
            assert(cost::absolute(c.at(graph[k - 1][j] as int, k - 1)) == p);
        }
    }
}

proof fn lemma_row_peak(c: Problem, src: int, list: Seq<usize>, k: nat, low: int)
    requires
        k <= list.len(),
    ensures
        ({
            let p = auction::row_peak(c, src, list, k, low);
            &&& p >= low
            &&& forall|j: int|
                0 <= j < k ==> cost::absolute(c.at((#[trigger] list[j]) as int, src)) <= p
            &&& p == low || exists|j: int|
                0 <= j < k && cost::absolute(c.at((#[trigger] list[j]) as int, src)) == p
        }),
    decreases k,
{
    if k > 0 {
        lemma_row_peak(c, src, list, (k - 1) as nat, low);
        let b = auction::row_peak(c, src, list, (k - 1) as nat, low);
        let p = auction::row_peak(c, src, list, k, low);
        if p == b && b != low {
            let j = choose|j: int|
                0 <= j < k - 1 && cost::absolute(c.at((#[trigger] list[j]) as int, src)) == b;
            assert(cost::absolute(c.at(list[j] as int, src)) == p);
        } else if p != b {
            assert(cost::absolute(c.at(list[k - 1] as int, src)) == p);
        }
    }
}

/// Up to `parts` parts in `2^53`, `v` is `want`.
pub open spec fn close(v: int, want: int, parts: int) -> bool {
    -(parts * want) <= pow2(53) * (v - want) <= parts * want
}

/// The greatest of `top` and four, in units.
pub open spec fn scale(top: int) -> int {
    (if top < 4 {
        4
    } else {
        top
    }) * pow2(1074)
}

proof fn lemma_unit_margin()
    ensures
        pow2(1074) >= 1024 * (pow2(53) * pow2(768)),
        pow2(2090) >= 1024 * (pow2(64) * pow2(1074)),
        pow2(768) >= 1,
        pow2(64) == 0x1_0000_0000_0000_0000,
        pow2(53) >= 1024,
        pow2(2096) == 64 * pow2(2090),
        pow2(2090) >= 1024,
        pow2(1074) >= 1,
        pow2(2148) == pow2(1074) * pow2(1074),
{
    lemma2_to64();
    lemma2_to64_rest();
    lemma_pow2_pos(768);
    lemma_pow2_pos(1074);
    lemma_pow2_pos(64);
    lemma_pow2_adds(53, 768);
    lemma_pow2_adds(10, 821);
    lemma_pow2_strictly_increases(831, 1074);
    lemma_pow2_adds(64, 1074);
    lemma_pow2_adds(10, 1138);
    lemma_pow2_strictly_increases(1148, 2090);
    lemma_pow2_adds(6, 2090);
    lemma_pow2_strictly_increases(10, 2090);
    lemma_pow2_adds(1074, 1074);
}

/// The first epsilon is a quarter of the peak, but at least one.
proof fn lemma_first_epsilon(top: int)
    requires
        0 <= top <= 0x1_0000_0000_0000_0000,
    ensures
        Real::of_int(auction::at_least(top, 1)).over(4).greatest(Real::one()) matches Real::Fin(e)
            && close(4 * e, scale(top), 4) && 0 <= e <= pow2(2090),
{
    lemma_unit_margin();
    let u = pow2(1074) as int;
    let k = pow2(53) as int;
    let base = auction::at_least(top, 1);
    let x = base * u;
    assert(u <= x <= pow2(64) * u) by (nonlinear_arith)
        requires
            x == base * u,
            1 <= base <= pow2(64),
            u >= 0,
    ;
    lemma_pow2_margin();
    float::lemma_of_int_exact(base);
    float::lemma_exact_error(x);
    let r = float::exact(x)->Fin_0;
    lemma_scaled(k, r - x, x);
    float::lemma_over_error(r, 4);
    let b = Real::Fin(r).over(4)->Fin_0;
    let t = scale(top);
    assert(t >= x && t >= 4 * u) by (nonlinear_arith)
        requires
            t == (if top < 4 { 4int } else { top }) * u,
            x == (if top < 1 { 1int } else { top }) * u,
            u >= 0,
    ;
    assert(k * (4 * b - x) == k * (b * 4 - r) + k * (r - x)) by (nonlinear_arith);
    assert(k * 4 <= u) by (nonlinear_arith)
        requires
            u >= 1024 * (k * pow2(768)),
            pow2(768) >= 1,
            k > 0,
    ;
    assert(-(3 * t) <= k * (4 * b - x) <= 3 * t);
    assert(t == x || (t == 4 * u && x < 4 * u)) by (nonlinear_arith)
        requires
            t == (if top < 4 { 4int } else { top }) * u,
            x == (if top < 1 { 1int } else { top }) * u,
            u > 0,
    ;
    let e = if u > b { u } else { b };
    assert(Real::Fin(b).greatest(Real::one()) == Real::Fin(e));
    assert(-(4 * t) <= k * (4 * e - t) <= 4 * t) by (nonlinear_arith)
        requires
            -(3 * t) <= k * (4 * b - x) <= 3 * t,
            t == x || (t == 4 * u && x < 4 * u),
            t >= 4 * u,
            e == (if u > b { u } else { b }),
            k > 0,
            u > 0,
    ;
    assert(4 * b - x <= 3 * t) by (nonlinear_arith)
        requires
            k * (4 * b - x) <= 3 * t,
            k >= 1,
            t >= 0,
    ;
    assert(t <= pow2(64) * u) by (nonlinear_arith)
        requires
            t == (if top < 4 { 4int } else { top }) * u,
            top <= pow2(64),
            pow2(64) >= 4,
            u > 0,
    ;
}

/// The power of five by which epsilon has shrunk after `k` steps.
pub open spec fn shrunk(k: nat) -> int
    decreases k,
{
    if k == 0 {
        1
    } else {
        5 * shrunk((k - 1) as nat)
    }
}

proof fn lemma_shrunk(k: nat)
    requires
        k <= 64,
    ensures
        1 <= shrunk(k) <= pow2(3 * k) <= pow2(192) <= pow2(768),
    decreases k,
{
    lemma2_to64();
    if k > 0 {
        lemma_shrunk((k - 1) as nat);
        lemma_pow2_adds(3, (3 * k - 3) as nat);
    }
    if 3 * k < 192 {
        lemma_pow2_strictly_increases((3 * k) as nat, 192);
    }
    lemma_pow2_strictly_increases(192, 768);
}

/// Dividing epsilon by five.
proof fn lemma_epsilon_step(e: int, t: int, d: int, parts: int)
    requires
        t >= 4 * pow2(1074),
        1 <= d <= 4 * pow2(192),
        0 <= parts <= 1024,
        0 <= e <= pow2(2090),
        close(d * e, t, parts),
    ensures
        Real::Fin(e).over(5) matches Real::Fin(b) && close(5 * d * b, t, parts + 3) && 0 <= b
            <= pow2(2090),
{
    lemma_unit_margin();
    lemma_pow2_strictly_increases(192, 768);
    let k = pow2(53) as int;
    let u = pow2(1074) as int;
    float::lemma_over_error(e, 5);
    let b = Real::Fin(e).over(5)->Fin_0;
    let x = k * (b * 5 - e);
    assert(d * e <= 2 * t) by (nonlinear_arith)
        requires
            k * (d * e - t) <= parts * t,
            parts <= 1024,
            k >= 1024,
            t >= 0,
    ;
    assert(d * (k * 5) <= t) by (nonlinear_arith)
        requires
            d <= 4 * pow2(192),
            pow2(192) <= pow2(768),
            u >= 1024 * (k * pow2(768)),
            t >= 4 * u,
            k > 0,
            d >= 1,
    ;
    assert(-(d * e + d * (k * 5)) <= d * x <= d * e + d * (k * 5)) by (nonlinear_arith)
        requires
            -(e + k * 5) <= x <= e + k * 5,
            d >= 1,
    ;
    assert(k * (5 * d * b - t) == d * x + k * (d * e - t)) by (nonlinear_arith)
        requires
            x == k * (b * 5 - e),
    ;
    assert((parts + 3) * t == parts * t + 3 * t) by (nonlinear_arith);
    assert(b <= pow2(2090)) by (nonlinear_arith)
        requires
            k * (b * 5 - e) <= e + k * 5,
            k >= 1024,
            0 <= e <= pow2(2090),
            pow2(2090) >= 1024,
    ;
}

/// The floor of epsilon is one part in `n + 1`.
proof fn lemma_floor(n: nat)
    requires
        n <= usize::MAX,
    ensures
        Real::of_int(n as int).plus(Real::one()).reciprocal() matches Real::Fin(f) && close(
            (n + 1) * f,
            pow2(1074) as int,
            16,
        ) && 0 <= f <= pow2(2090),
{
    lemma_unit_margin();
    lemma_pow2_margin();
    let k = pow2(53) as int;
    let u = pow2(1074) as int;
    let x = n * u;
    assert(0 <= x <= pow2(64) * u) by (nonlinear_arith)
        requires
            x == n * u,
            n <= pow2(64),
            u > 0,
    ;
    float::lemma_of_int_exact(n as int);
    float::lemma_exact_error(x);
    let r = float::exact(x)->Fin_0;
    lemma_scaled(k, r - x, x);
    float::lemma_exact_error(r + u);
    let a = float::exact(r + u)->Fin_0;
    let y = (n + 1) * u;
    assert(y == x + u) by (nonlinear_arith)
        requires
            x == n * u,
            y == (n + 1) * u,
    ;
    assert(k * (a - y) == k * (a - (r + u)) + k * (r - x)) by (nonlinear_arith)
        requires
            y == x + u,
    ;
    assert(-(4 * y) <= k * (a - y) <= 4 * y);
    // With n = 0 the sum is exact; otherwise it is far above one.
    if n == 0 {
        assert(x == 0) by (nonlinear_arith)
            requires
                x == n * u,
                n == 0,
        ;
        assert(r == 0) by (nonlinear_arith)
            requires
                -x <= k * (r - x) <= x,
                x == 0,
                k > 0,
        ;
        lemma_unit_representable();
        assert(a == u);
    } else {
        assert(y >= 2 * u) by (nonlinear_arith)
            requires
                y == (n + 1) * u,
                n >= 1,
                u > 0,
        ;
        lemma_scaled(k, a - y, 4 * y);
    }
    float::lemma_reciprocal_error(a);
    let f = Real::Fin(a).reciprocal()->Fin_0;
    lemma_floor_close(n, k, u, a, y, f);
}

proof fn lemma_unit_representable()
    ensures
        float::exact(pow2(1074) as int) == Real::Fin(pow2(1074) as int),
{
    float::lemma_power_representable(1074);
}

proof fn lemma_floor_close(n: nat, k: int, u: int, a: int, y: int, f: int)
    requires
        k == pow2(53),
        u == pow2(1074),
        n <= usize::MAX,
        y == (n + 1) * u,
        a >= u,
        f >= 0,
        -(4 * y) <= k * (a - y) <= 4 * y,
        -(u * u + k * a) <= k * (f * a - u * u) <= u * u + k * a,
    ensures
        close((n + 1) * f, u, 16),
        f <= pow2(2090),
{
    lemma_unit_margin();
    let z = (n + 1) * f;
    let uu = u * u;
    // f * y is z * u
    assert(f * y == z * u) by (nonlinear_arith)
        requires
            y == (n + 1) * u,
            z == (n + 1) * f,
    ;
    assert(k >= 1024 && u >= 1);
    lemma_scaled(k, a - y, 4 * y);
    // k * a is small beside u * u
    assert(y <= pow2(64) * u) by (nonlinear_arith)
        requires
            y == (n + 1) * u,
            n + 1 <= pow2(64),
            u > 0,
    ;
    assert(k * a <= uu) by {
        lemma_pow2_strictly_increases(64, 768);
        assert(a <= 2 * (pow2(64) * u));
        assert(k * a <= uu) by (nonlinear_arith)
            requires
                a <= 2 * (pow2(64) * u),
                u >= 1024 * (k * pow2(768)),
                pow2(64) <= pow2(768),
                uu == u * u,
                u > 0,
                k > 0,
        ;
    }
    // f * a within 2 uu / k of uu
    assert(-(2 * uu) <= k * (f * a - uu) <= 2 * uu);
    assert(f * a <= 2 * uu) by (nonlinear_arith)
        requires
            k * (f * a - uu) <= 2 * uu,
            k >= 1024,
            uu >= 0,
    ;
    assert(0 <= f * y <= 4 * uu) by (nonlinear_arith)
        requires
            f * a <= 2 * uu,
            a * 1024 >= 1020 * y,
            f >= 0,
            y >= 0,
            uu >= 0,
    ;
    let g = k * (a - y);
    assert(-(4 * (f * y)) <= f * g <= 4 * (f * y)) by (nonlinear_arith)
        requires
            -(4 * y) <= g <= 4 * y,
            f >= 0,
    ;
    // rough bound first, then the fine one
    assert(k * (f * y - uu) == k * (f * a - uu) - f * g) by (nonlinear_arith)
        requires
            g == k * (a - y),
    ;
    assert(f * y <= uu + uu / 16 + 1 || f * y <= 2 * uu) by (nonlinear_arith)
        requires
            k * (f * y - uu) <= 18 * uu,
            k >= 1024,
            uu >= 0,
    ;
    assert(-(10 * uu) <= k * (f * y - uu) <= 10 * uu);
    assert(-(16 * u) <= k * (z - u) <= 16 * u) by (nonlinear_arith)
        requires
            -(10 * uu) <= k * (f * y - uu) <= 10 * uu,
            f * y == z * u,
            uu == u * u,
            u > 0,
    ;
    assert(z <= 2 * u) by (nonlinear_arith)
        requires
            k * (z - u) <= 16 * u,
            k >= 1024,
            u > 0,
    ;
    assert(f <= z) by (nonlinear_arith)
        requires
            z == (n + 1) * f,
            f >= 0,
            n >= 0,
    ;
}

/// The epsilon of the last phase: a quarter of the greatest cost `top`, but at least
/// one, divided by five from phase to phase; but no less than one part in `n + 1`.
pub proof fn lemma_last_epsilon(epsilon: Real, done: nat, phases: nat, n: nat, top: int) -> (r: (
    int,
    int,
))
    requires
        n <= usize::MAX,
        0 <= top <= 0x1_0000_0000_0000_0000,
        1 <= phases,
        done + phases <= 64,
        epsilon matches Real::Fin(e) && 0 <= e <= pow2(2090) && close(
            4 * shrunk(done) * e,
            scale(top),
            4 + 3 * done as int,
        ),
    ensures
        0 <= r.0 <= pow2(2090),
        0 <= r.1 <= pow2(2090),
        close(4 * shrunk((done + phases - 1) as nat) * r.0, scale(top), 256),
        close((n + 1) * r.1, pow2(1074) as int, 16),
        last_epsilon(epsilon, phases, n) == Real::Fin(
            if r.0 < r.1 {
                r.1
            } else {
                r.0
            },
        ),
    decreases phases,
{
    let e = epsilon->Fin_0;
    let t = scale(top);
    let u = pow2(1074) as int;
    lemma_pow2_margin();
    assert(t >= 4 * u) by (nonlinear_arith)
        requires
            t == (if top < 4 { 4int } else { top }) * u,
            u > 0,
    ;
    lemma_shrunk(done);
    if phases == 1 {
        lemma_floor(n);
        let f = Real::of_int(n as int).plus(Real::one()).reciprocal()->Fin_0;
        assert((4 + 3 * done) * t <= 256 * t) by (nonlinear_arith)
            requires
                done <= 64,
                t >= 0,
        ;
        (e, f)
    } else {
        lemma_epsilon_step(e, t, 4 * shrunk(done), 4 + 3 * done as int);
        let b = epsilon.over(5);
        assert(shrunk(done + 1) == 5 * shrunk(done));
        assert(5 * (4 * shrunk(done)) == 4 * shrunk(done + 1));
        lemma_last_epsilon(b, done + 1, (phases - 1) as nat, n, top)
    }
}

/// The epsilon that an auction ends with: a quarter of `top`, the greatest cost of a
/// candidate, but at least one, divided by five from phase to phase; but no less than
/// one part in `n + 1`. Both hold up to rounding: the result is the greater of `r.0`
/// and `r.1`.
pub proof fn lemma_market_epsilon(
    c: Problem,
    cands: Seq<Seq<usize>>,
    phases: nat,
    top: int,
) -> (r: (int, int))
    requires
        1 < c.n() <= usize::MAX,
        cands.len() == c.n(),
        1 <= phases <= 64,
        0 <= top <= 0x1_0000_0000_0000_0000,
        forall|d: int, s: usize|
            0 <= d < c.n() && s < c.n() && #[trigger] cands[d].contains(s) ==> cost::absolute(
                c.at(d, s as int),
            ) <= top,
        top == 0 || exists|d: int, s: usize|
            0 <= d < c.n() && s < c.n() && #[trigger] cands[d].contains(s) && cost::absolute(
                c.at(d, s as int),
            ) == top,
    ensures
        0 <= r.0 <= pow2(2090),
        0 <= r.1 <= pow2(2090),
        close(4 * shrunk((phases - 1) as nat) * r.0, scale(top), 256),
        close((c.n() + 1) * r.1, pow2(1074) as int, 16),
        market_epsilon(c, cands, phases) == Real::Fin(
            if r.0 < r.1 {
                r.1
            } else {
                r.0
            },
        ),
{
    let n = c.n();
    let graph = auction::bidding_graph(cands, n);
    lemma_peak(c, graph, n);
    let p = auction::peak(c, graph, n);
    if p != 0 {
        let (s, j) = choose|s: int, j: int|
            0 <= s < n && 0 <= j < graph[s].len() && cost::absolute(
                c.at((#[trigger] graph[s][j]) as int, s),
            ) == p;
        lemma_targets_listed(cands, s as usize, n);
        assert(graph[s].contains(graph[s][j]));
        assert(cands[graph[s][j] as int].contains(s as usize));
        assert(p <= top);
    }
    if top != 0 {
        let (d, s) = choose|d: int, s: usize|
            0 <= d < n && s < n && #[trigger] cands[d].contains(s) && cost::absolute(
                c.at(d, s as int),
            ) == top;
        lemma_targets_listed(cands, s, n);
        assert(graph[s as int].contains(d as usize));
        let j = choose|j: int| 0 <= j < graph[s as int].len() && graph[s as int][j] == d as usize;
        assert(cost::absolute(c.at(graph[s as int][j] as int, s as int)) <= p);
    }
    assert(p == top);
    lemma_first_epsilon(top);
    assert(shrunk(0) == 1);
    lemma_last_epsilon(auction::first_epsilon(c, graph), 0, phases, n, top)
}

/// Every source may bid for every target.
pub open spec fn dense(graph: Seq<Seq<usize>>, n: nat) -> bool {
    forall|s: int, d: usize| 0 <= s < n && d < n ==> #[trigger] graph[s].contains(d)
}

/// While somebody waits, there is a target that nobody holds.
proof fn lemma_some_open(s: Auction, n: nat) -> (d: int)
    requires
        auction::orderly(s, n),
        s.queue.len() > 0,
    ensures
        0 <= d < n,
        s.holder[d] == NOBODY,
{
    if forall|d: int| 0 <= d < n ==> (#[trigger] s.holder[d]) != NOBODY {
        assert(perm::is_perm(s.holder, n));
        assert(s.queue[0] < n);
        perm::lemma_perm_reaches(s.holder, n, s.queue[0] as int);
        let d = choose|d: int| 0 <= d < n && #[trigger] s.holder[d] == s.queue[0] as int;
        assert(s.holder[d] != s.queue[0]);
        d
    } else {
        choose|d: int| 0 <= d < n && (#[trigger] s.holder[d]) == NOBODY
    }
}

/// How far the prices of a phase with dense lists have risen above `base`: not at
/// all where nobody holds the target, by at most `step` while one is open, and by at
/// most two steps at the end.
pub open spec fn risen_little(s: Auction, n: nat, base: int, step: int) -> bool {
    &&& forall|d: int|
        0 <= d < n ==> {
            &&& (#[trigger] s.prices[d]) matches Real::Fin(v) && float::representable(v) && 0 <= v
                <= base + 2 * step
            &&& s.holder[d] == NOBODY ==> s.prices[d]->Fin_0 <= base
        }
    &&& (exists|t: int| 0 <= t < n && #[trigger] s.holder[t] == NOBODY) ==> forall|d: int|
        0 <= d < n ==> (#[trigger] s.prices[d])->Fin_0 <= base + step
}

proof fn lemma_dense_bid(
    c: Problem,
    graph: Seq<Seq<usize>>,
    s: Auction,
    eps: int,
    m: int,
    n: nat,
    base: int,
    bound: int,
)
    requires
        auction::graph_fits(graph, n),
        auction::orderly(s, n),
        dense(graph, n),
        n > 1,
        s.queue.len() > 0,
        0 <= eps,
        0 <= base,
        forall|d: int, x: int|
            0 <= d < n && 0 <= x < n ==> -bound <= #[trigger] units(c, d, x) <= bound,
        base + 2 * (3 * bound + eps) <= m <= pow2(2090),
        m <= pow2(47) * bound,
        risen_little(s, n, base, 3 * bound + eps),
    ensures
        risen_little(auction::bid(c, graph, Real::Fin(eps), s), n, base, 3 * bound + eps),
{
    let step = 3 * bound + eps;
    let src = s.queue[0] as int;
    let list = graph[src];
    let t = auction::bid(c, graph, Real::Fin(eps), s);
    assert(units(c, 0, 0) <= bound && -bound <= units(c, 0, 0));
    assert(moderate(c, graph, s.prices, eps, m)) by {
        assert forall|x: int, j: int| 0 <= x < graph.len() && 0 <= j < graph[x].len() implies -m
            <= units(c, (#[trigger] graph[x][j]) as int, x) <= m by {
            assert(graph[x][j] < n);
        }
        assert forall|d: int| 0 <= d < s.prices.len() implies price_within(
            #[trigger] s.prices[d],
            m,
        ) by {}
    }
    assert(list.contains(0usize));
    lemma_bidder_content(c, graph, s, eps, m, n);
    lemma_pow2_margin();
    let d0 = auction::offer(c, s.prices, src, list, list.len()).dst;
    let v = t.prices[d0 as int]->Fin_0;
    // Any other target bounds the new price.
    assert forall|e: int| 0 <= e < n && e != d0 implies v <= (#[trigger] s.prices[e])->Fin_0
        + step by {
        assert(list.contains(e as usize));
        let j = choose|j: int| 0 <= j < list.len() && list[j] == e as usize;
        let a = units(c, d0 as int, src) + v;
        let b = units(c, list[j] as int, src) + s.prices[list[j] as int]->Fin_0 + eps;
        assert(pow2(53) * a <= pow2(53) * b + 64 * m);
        assert(a <= b + bound) by (nonlinear_arith)
            requires
                pow2(53) * a <= pow2(53) * b + 64 * m,
                pow2(53) == 64 * pow2(47),
                pow2(47) > 0,
                m <= pow2(47) * bound,
        ;
        assert(-bound <= units(c, d0 as int, src));
        assert(units(c, e, src) <= bound);
    }
    let open = lemma_some_open(s, n);
    assert(s.prices[open]->Fin_0 <= base);
    let other = if d0 == 0 {
        1int
    } else {
        0int
    };
    assert(s.prices[other]->Fin_0 <= base + step);
    if exists|i: int| 0 <= i < n && #[trigger] t.holder[i] == NOBODY {
        let i = choose|i: int| 0 <= i < n && #[trigger] t.holder[i] == NOBODY;
        assert(i != d0);
        assert(s.holder[i] == NOBODY);
        assert(s.prices[i]->Fin_0 <= base);
        assert(v <= base + step);
        assert forall|d: int| 0 <= d < n implies (#[trigger] t.prices[d])->Fin_0 <= base + step by {
            assert(s.prices[d]->Fin_0 <= base + step);
        }
    }
    assert forall|d: int| 0 <= d < n implies {
        &&& (#[trigger] t.prices[d]) matches Real::Fin(v) && float::representable(v) && 0 <= v
            <= base + 2 * step
        &&& t.holder[d] == NOBODY ==> t.prices[d]->Fin_0 <= base
    } by {
        assert(s.prices[d]->Fin_0 >= 0);
    }
}

proof fn lemma_dense_run(
    c: Problem,
    graph: Seq<Seq<usize>>,
    s: Auction,
    eps: int,
    m: int,
    n: nat,
    base: int,
    bound: int,
    fuel: nat,
)
    requires
        auction::graph_fits(graph, n),
        auction::orderly(s, n),
        dense(graph, n),
        n > 1,
        0 <= eps,
        0 <= base,
        forall|d: int, x: int|
            0 <= d < n && 0 <= x < n ==> -bound <= #[trigger] units(c, d, x) <= bound,
        base + 2 * (3 * bound + eps) <= m <= pow2(2090),
        m <= pow2(47) * bound,
        risen_little(s, n, base, 3 * bound + eps),
    ensures
        risen_little(
            auction::run(c, graph, Real::Fin(eps), s, fuel),
            n,
            base,
            3 * bound + eps,
        ),
    decreases fuel,
{
    if fuel > 0 && s.queue.len() > 0 {
        let e = Real::Fin(eps);
        lemma_dense_bid(c, graph, s, eps, m, n, base, bound);
        auction::lemma_bid(c, graph, e, s, n);
        lemma_dense_run(
            c,
            graph,
            auction::bid(c, graph, e, s),
            eps,
            m,
            n,
            base,
            bound,
            (fuel - 1) as nat,
        );
    }
}

/// Epsilon never exceeds twice the greatest cost, in units.
proof fn lemma_epsilon_bound(e: int, top: int, d: int, bound: int)
    requires
        0 <= top <= bound,
        1 <= bound,
        1 <= d,
        0 <= e,
        close(4 * d * e, scale(top), 256),
    ensures
        e <= 2 * (bound * pow2(1074)),
{
    lemma_pow2_margin();
    let k = pow2(53) as int;
    let u = pow2(1074) as int;
    let t = scale(top);
    assert(t <= 4 * (bound * u)) by (nonlinear_arith)
        requires
            t == (if top < 4 { 4int } else { top }) * u,
            top <= bound,
            1 <= bound,
            u > 0,
    ;
    assert(t >= 0) by (nonlinear_arith)
        requires
            t == (if top < 4 { 4int } else { top }) * u,
            u > 0,
    ;
    assert(4 * d * e <= 2 * t) by (nonlinear_arith)
        requires
            k * (4 * d * e - t) <= 256 * t,
            k >= 1024,
            t >= 0,
    ;
    assert(4 * e <= 4 * d * e) by (nonlinear_arith)
        requires
            d >= 1,
            e >= 0,
    ;
}

/// With dense lists and starting prices up to ten times the greatest cost for every
/// phase that is over, the prices stay within ten times as much for every phase.
proof fn lemma_dense_closing(
    c: Problem,
    graph: Seq<Seq<usize>>,
    prices: Seq<Real>,
    epsilon: Real,
    done: nat,
    phases: nat,
    n: nat,
    top: int,
    bound: int,
)
    requires
        auction::graph_fits(graph, n),
        dense(graph, n),
        1 < n <= usize::MAX,
        prices.len() == n,
        0 <= top <= bound <= 0x1_0000_0000_0000_0000,
        1 <= bound,
        forall|d: int, x: int|
            0 <= d < n && 0 <= x < n ==> -(bound * pow2(1074)) <= #[trigger] units(c, d, x) <= bound
                * pow2(1074),
        forall|d: int|
            0 <= d < n ==> {
                &&& (#[trigger] prices[d]) matches Real::Fin(v) && float::representable(v) && 0 <= v
                    <= 10 * done * (bound * pow2(1074))
            },
        1 <= phases,
        done + phases <= 64,
        epsilon matches Real::Fin(e) && 0 <= e <= pow2(2090) && close(
            4 * shrunk(done) * e,
            scale(top),
            4 + 3 * done as int,
        ),
    ensures
        ({
            let s = closing(c, graph, prices, epsilon, phases);
            forall|d: int|
                0 <= d < n ==> {
                    &&& (#[trigger] s.prices[d]) matches Real::Fin(v) && float::representable(v)
                        && 0 <= v <= 10 * (done + phases) * (bound * pow2(1074))
                }
        }),
    decreases phases,
{
    let w = bound * pow2(1074);
    lemma_pow2_margin();
    lemma_unit_margin();
    lemma_shrunk(done);
    let r = lemma_last_epsilon(epsilon, done, 1, n, top);
    let fe = if r.0 < r.1 { r.1 } else { r.0 };
    assert(auction::floored(epsilon, n) == Real::Fin(fe));
    lemma_epsilon_bound(r.0, top, shrunk(done), bound);
    let u = pow2(1074) as int;
    assert(u <= w <= pow2(64) * u) by (nonlinear_arith)
        requires
            w == bound * u,
            1 <= bound <= pow2(64),
            u > 0,
    ;
    let f = r.1;
    assert((n + 1) * f <= 2 * u) by (nonlinear_arith)
        requires
            pow2(53) * ((n + 1) * f - u) <= 16 * u,
            pow2(53) >= 1024,
            u > 0,
    ;
    assert(f <= (n + 1) * f) by (nonlinear_arith)
        requires
            f >= 0,
            n >= 0,
    ;
    assert(fe <= 2 * w);
    let base = 10 * done * w;
    assert(10 * done * w + 10 * w == 10 * (done + 1) * w) by (nonlinear_arith);
    assert(10 * (done + 1) * w <= 640 * w) by (nonlinear_arith)
        requires
            done + 1 <= 64,
            w >= 0,
    ;
    assert(0 <= base) by (nonlinear_arith)
        requires
            base == 10 * done * w,
            w >= 0,
    ;
    assert(640 * w <= pow2(47) * w) by (nonlinear_arith)
        requires
            pow2(47) >= 1024,
            w >= 0,
    ;
    let m = 640 * w;
    let s0 = auction::opening(prices, n);
    let limit = auction::bid_limit(graph);
    assert(auction::orderly(s0, n));
    assert(risen_little(s0, n, base, 3 * w + fe)) by {
        assert forall|d: int| 0 <= d < n implies {
            &&& (#[trigger] s0.prices[d]) matches Real::Fin(v) && float::representable(v) && 0 <= v
                <= base + 2 * (3 * w + fe)
            &&& s0.prices[d]->Fin_0 <= base
        } by {
            assert(prices[d]->Fin_0 >= 0);
        }
    }
    lemma_dense_run(c, graph, s0, fe, m, n, base, w, limit);
    auction::lemma_run(c, graph, Real::Fin(fe), s0, n, limit);
    let s = auction::phase(c, graph, prices, epsilon);
    assert forall|d: int| 0 <= d < n implies {
        &&& (#[trigger] s.prices[d]) matches Real::Fin(v) && float::representable(v) && 0 <= v
            <= 10 * (done + 1) * w
    } by {}
    if phases > 1 {
        let t = scale(top);
        assert(t >= 4 * u) by (nonlinear_arith)
            requires
                t == (if top < 4 { 4int } else { top }) * u,
                u > 0,
        ;
        lemma_epsilon_step(epsilon->Fin_0, t, 4 * shrunk(done), 4 + 3 * done as int);
        assert(shrunk(done + 1) == 5 * shrunk(done));
        assert(5 * (4 * shrunk(done)) == 4 * shrunk(done + 1));
        lemma_dense_closing(
            c,
            graph,
            s.prices,
            epsilon.over(5),
            done + 1,
            (phases - 1) as nat,
            n,
            top,
            bound,
        );
    }
}

/// The dense auction: if every target may take every source and the bidding ends with
/// nobody waiting, the total cost exceeds that of no permutation by more than `n`
/// times the last epsilon and the rounding of a bid, `10 phases / 2^47` of the
/// greatest cost.
pub proof fn lemma_dense_is_nearly_cheapest(
    c: Problem,
    cands: Seq<Seq<usize>>,
    phases: nat,
    bound: int,
    q: Seq<usize>,
)
    requires
        1 < c.n() <= usize::MAX,
        cands.len() == c.n(),
        forall|d: int, s: usize| 0 <= d < c.n() && s < c.n() ==> #[trigger] cands[d].contains(s),
        1 <= phases <= 64,
        1 <= bound <= 0x1_0000_0000_0000_0000,
        forall|d: int, s: int|
            0 <= d < c.n() && 0 <= s < c.n() ==> -bound <= #[trigger] c.at(d, s) <= bound,
        market(c, cands, None, phases).queue.len() == 0,
        perm::is_perm(q, c.n()),
    ensures
        ({
            let a = auction::auction_assignment(c, cands, None, phases);
            &&& perm::is_perm(a, c.n())
            &&& market_epsilon(c, cands, phases) matches Real::Fin(eps) && pow2(47) * (cost::total(
                c,
                a,
            ) * pow2(1074)) <= pow2(47) * (cost::total(c, q) * pow2(1074) + c.n() * eps) + c.n() * (
            10 * phases * (bound * pow2(1074)))
        }),
{
    let n = c.n();
    let graph = auction::bidding_graph(cands, n);
    auction::lemma_graph_fits(cands, n);
    lemma_peak(c, graph, n);
    lemma_pow2_margin();
    lemma_unit_margin();
    let top = auction::peak(c, graph, n);
    let u = pow2(1074) as int;
    let w = bound * u;
    assert(u <= w <= pow2(64) * u) by (nonlinear_arith)
        requires
            w == bound * u,
            1 <= bound <= pow2(64),
            u > 0,
    ;
    assert(top <= bound) by {
        if top != 0 {
            let (s, j) = choose|s: int, j: int|
                0 <= s < n && 0 <= j < graph[s].len() && cost::absolute(
                    c.at((#[trigger] graph[s][j]) as int, s),
                ) == top;
            assert(graph[s][j] < n);
            assert(-bound <= c.at(graph[s][j] as int, s) <= bound);
        }
    }
    assert(dense(graph, n)) by {
        assert forall|s: int, d: usize| 0 <= s < n && d < n implies #[trigger] graph[s].contains(
            d,
        ) by {
            lemma_targets_listed(cands, s as usize, n);
            assert(cands[d as int].contains(s as usize));
        }
    }
    assert forall|d: int, x: int| 0 <= d < n && 0 <= x < n implies -w <= #[trigger] units(c, d, x)
        <= w by {
        let v = c.at(d, x);
        assert(-bound <= v <= bound);
        assert(-w <= v * u <= w) by (nonlinear_arith)
            requires
                -bound <= v <= bound,
                w == bound * u,
                u > 0,
        ;
    }
    lemma_first_epsilon(top);
    assert(shrunk(0) == 1);
    let epsilon = auction::first_epsilon(c, graph);
    let prices = auction::first_prices(None, n);
    float::lemma_exact_representable(0);
    assert(10 * 0 * w == 0) by (nonlinear_arith);
    lemma_dense_closing(c, graph, prices, epsilon, 0, phases, n, top, bound);
    let m = 10 * phases * w;
    assert(10 * w <= m <= 640 * w) by (nonlinear_arith)
        requires
            m == 10 * phases * w,
            1 <= phases <= 64,
            w >= 0,
    ;
    let r = lemma_last_epsilon(epsilon, 0, phases, n, top);
    lemma_shrunk((phases - 1) as nat);
    lemma_epsilon_bound(r.0, top, shrunk((phases - 1) as nat), bound);
    let f = r.1;
    assert((n + 1) * f <= 2 * u) by (nonlinear_arith)
        requires
            pow2(53) * ((n + 1) * f - u) <= 16 * u,
            pow2(53) >= 1024,
            u > 0,
    ;
    assert(f <= (n + 1) * f) by (nonlinear_arith)
        requires
            f >= 0,
            n >= 0,
    ;
    let eps = if r.0 < r.1 { r.1 } else { r.0 };
    assert forall|d: int| 0 <= d < n implies price_within(#[trigger] prices[d], m) by {}
    let s = market(c, cands, None, phases);
    assert forall|d: int| 0 <= d < n implies price_within(#[trigger] s.prices[d], m) by {
        assert(s.prices[d]->Fin_0 >= 0);
        assert(10 * (0 + phases) * w == m);
    }
    lemma_settled_is_nearly_cheapest(c, cands, None, phases, eps, m, q);
}

/// A bid moves one target to the bidder and leaves every other target and price as
/// they are; a former holder waits last. It raises the price by at least epsilon, up
/// to the rounding.
pub proof fn lemma_bid_raises_the_price(
    c: Problem,
    graph: Seq<Seq<usize>>,
    s: Auction,
    eps: int,
    m: int,
    n: nat,
)
    requires
        auction::graph_fits(graph, n),
        auction::orderly(s, n),
        s.queue.len() > 0,
        graph[s.queue[0] as int].len() > 0,
        moderate(c, graph, s.prices, eps, m),
    ensures
        ({
            let t = auction::bid(c, graph, Real::Fin(eps), s);
            exists|d: int|
                {
                    &&& 0 <= d < n
                    &&& #[trigger] t.holder[d] == s.queue[0]
                    &&& t.prices[d] is Fin
                    &&& pow2(47) * (t.prices[d]->Fin_0 - s.prices[d]->Fin_0 - eps) >= -m
                    &&& s.holder[d] == NOBODY ==> t.queue == s.queue.skip(1)
                    &&& s.holder[d] != NOBODY ==> t.queue == s.queue.skip(1).push(s.holder[d])
                    &&& forall|e: int|
                        0 <= e < n && e != d ==> t.holder[e] == s.holder[e] && #[trigger] t.prices[e]
                            == s.prices[e]
                }
        }),
{
    let src = s.queue[0] as int;
    let list = graph[src];
    assert forall|j: int| 0 <= j < list.len() implies -m <= units(
        c,
        (#[trigger] list[j]) as int,
        src,
    ) <= m && price_within(s.prices[list[j] as int], m) && list[j] < n by {
        assert(graph[src][j] < n);
    }
    lemma_offer(c, s.prices, src, list, m, list.len());
    lemma_pow2_margin();
    let o = auction::offer(c, s.prices, src, list, list.len());
    let d = o.dst as int;
    let j0 = choose|j: int| 0 <= j < list.len() && #[trigger] list[j] == o.dst;
    lemma_worth(c, s.prices, src, d, m);
    let p = s.prices[d]->Fin_0;
    let w1 = o.best->Fin_0;
    let w2 = o.second->Fin_0;
    let t = auction::bid(c, graph, Real::Fin(eps), s);
    let v = t.prices[d]->Fin_0;
    let k = pow2(53) as int;
    if o.second == Real::lowest() {
        lemma_lone_increment(w1, w2, eps, m, p);
    } else {
        lemma_increment(w1, w2, eps, m, p);
        assert(k * (v - (p + w1 - w2 + eps)) == k * (v - p - eps) - k * (w1 - w2))
            by (nonlinear_arith);
        assert(k * (w1 - w2) >= 0) by (nonlinear_arith)
            requires
                w1 >= w2,
                k > 0,
        ;
    }
    assert(k * (v - p - eps) >= -64 * m);
    let z = v - p - eps;
    assert(pow2(47) * z >= -m) by (nonlinear_arith)
        requires
            k * z >= -64 * m,
            k == 64 * pow2(47),
    ;
    assert(t.holder[d] == s.queue[0]);
}

/// A bidder bids for the target that is worth most to it, the first of equals, and
/// against the second best: no other place on its list is worth more than that, and one
/// is worth as much, if there is one.
pub proof fn lemma_bidder_chooses_the_best(
    c: Problem,
    prices: Seq<Real>,
    src: int,
    list: Seq<usize>,
    k: nat,
) -> (at: int)
    requires
        1 <= k <= list.len(),
        forall|j: int|
            0 <= j < list.len() ==> (auction::worth(c, prices, src, (#[trigger] list[j]) as int) is Fin
                && auction::worth(c, prices, src, list[j] as int).gt(Real::lowest())),
    ensures
        ({
            let o = auction::offer(c, prices, src, list, k);
            let value = |j: int| auction::worth(c, prices, src, list[j] as int);
            &&& 0 <= at < k
            &&& o.dst == list[at]
            &&& o.best == value(at)
            &&& forall|j: int| 0 <= j < at ==> o.best.gt(#[trigger] value(j))
            &&& forall|j: int| 0 <= j < k ==> !(#[trigger] value(j)).gt(o.best)
            &&& forall|j: int| 0 <= j < k && j != at ==> !(#[trigger] value(j)).gt(o.second)
            &&& k == 1 ==> o.second == Real::lowest()
            &&& k > 1 ==> exists|j: int| 0 <= j < k && j != at && o.second == #[trigger] value(j)
        }),
    decreases k,
{
    let value = |j: int| auction::worth(c, prices, src, list[j] as int);
    let o = auction::offer(c, prices, src, list, k);
    assert forall|j: int| 0 <= j < list.len() implies (#[trigger] value(j)) is Fin && value(j).gt(
        Real::lowest(),
    ) by {
        assert(list[j] == list[j]);
    }
    if k == 1 {
        assert(o.best == value(0));
        0
    } else {
        let before = lemma_bidder_chooses_the_best(c, prices, src, list, (k - 1) as nat);
        let b = auction::offer(c, prices, src, list, (k - 1) as nat);
        let v = value(k - 1);
        assert(b.best == value(before));
        if k == 2 {
            assert(before == 0);
            assert(v.gt(b.best) ==> o.second == value(0));
            assert(!v.gt(b.best) ==> o.second == value(1));
        } else {
            let j0 = choose|j: int|
                0 <= j < k - 1 && j != before && b.second == #[trigger] value(j);
            assert(o.second == value(before) || o.second == value(k - 1) || o.second == value(j0));
        }
        if v.gt(b.best) {
            k - 1
        } else {
            before
        }
    }
}

proof fn lemma_leftover_order(holder: Seq<usize>, n: nat, i: nat, d: int, e: int)
    requires
        auction::partial_perm(holder, n),
        i <= n,
        i <= d < e < n,
        holder[d] == NOBODY,
        holder[e] == NOBODY,
        forall|k: int| 0 <= k < i ==> (#[trigger] holder[k]) != NOBODY,
    ensures
        auction::repaired(holder, i)[d] < auction::repaired(holder, i)[e],
    decreases n - i,
{
    if holder[i as int] != NOBODY {
        lemma_leftover_order(holder, n, i + 1, d, e);
    } else {
        let w = auction::lemma_some_unused(holder, n, i as int);
        let v = choose|v: int| auction::least_unused(holder, v);
        auction::lemma_fill(holder, n, i as int, v);
        let next = holder.update(i as int, v as usize);
        if i < d {
            lemma_leftover_order(next, n, i + 1, d, e);
        } else {
            lemma_repaired_keeps(next, n, i + 1, d);
            assert forall|u: int| 0 <= u <= v implies next.contains(#[trigger] (u as usize)) by {
                if u < v {
                    assert(holder.contains(u as usize));
                    let k = choose|k: int| 0 <= k < holder.len() && holder[k] == u as usize;
                    assert(next[k] == u as usize);
                } else {
                    assert(next[i as int] == u as usize);
                }
            }
            lemma_leftover_above(next, n, i + 1, e, v);
        }
    }
}

/// With all sources below `v` and `v` itself in use, an open target gets a greater one.
proof fn lemma_leftover_above(holder: Seq<usize>, n: nat, i: nat, e: int, v: int)
    requires
        auction::partial_perm(holder, n),
        i <= e < n,
        holder[e] == NOBODY,
        0 <= v < n,
        forall|k: int| 0 <= k < i ==> (#[trigger] holder[k]) != NOBODY,
        forall|u: int| 0 <= u <= v ==> holder.contains(#[trigger] (u as usize)),
    ensures
        auction::repaired(holder, i)[e] > v,
    decreases n - i,
{
    if holder[i as int] != NOBODY {
        lemma_leftover_above(holder, n, i + 1, e, v);
    } else {
        let w0 = auction::lemma_some_unused(holder, n, i as int);
        let w = choose|w: int| auction::least_unused(holder, w);
        auction::lemma_fill(holder, n, i as int, w);
        let next = holder.update(i as int, w as usize);
        assert(w > v) by {
            if w <= v {
                assert(holder.contains(w as usize));
            }
        }
        if i < e {
            assert forall|u: int| 0 <= u <= v implies next.contains(#[trigger] (u as usize)) by {
                assert(holder.contains(u as usize));
                let k = choose|k: int| 0 <= k < holder.len() && holder[k] == u as usize;
                assert(holder[k] != NOBODY);
                assert(next[k] == u as usize);
            }
            lemma_leftover_above(next, n, i + 1, e, v);
        } else {
            lemma_repaired_keeps(next, n, i + 1, e);
        }
    }
}

/// The targets that nobody holds when the bidding ends take the sources that are left in
/// ascending order.
pub proof fn lemma_left_over_in_order(
    c: Problem,
    cands: Seq<Seq<usize>>,
    given: Option<Seq<Real>>,
    phases: nat,
    d: int,
    e: int,
)
    requires
        1 < c.n() <= usize::MAX,
        cands.len() == c.n(),
        forall|i: int|
            0 <= i < c.n() ==> tame(#[trigger] auction::first_prices(given, c.n())[i]),
        0 <= d < e < c.n(),
        market(c, cands, given, phases).holder[d] == NOBODY,
        market(c, cands, given, phases).holder[e] == NOBODY,
    ensures
        auction::auction_assignment(c, cands, given, phases)[d] < auction::auction_assignment(
            c,
            cands,
            given,
            phases,
        )[e],
{
    let n = c.n();
    let graph = auction::bidding_graph(cands, n);
    let prices = auction::first_prices(given, n);
    let epsilon = auction::first_epsilon(c, graph);
    auction::lemma_graph_fits(cands, n);
    let from = lemma_closing(c, graph, prices, epsilon, phases, n);
    lemma_closing_holders(c, graph, prices, epsilon, phases);
    lemma_leftover_order(market(c, cands, given, phases).holder, n, 0, d, e);
}

/// A phase asks before every batch of 4096 bids, the last of which may be shorter.
pub proof fn lemma_checks_of_a_phase(
    c: Problem,
    graph: Seq<Seq<usize>>,
    prices: Seq<Real>,
    epsilon: Real,
)
    ensures
        ({
            let made = auction::bids_made(
                c,
                graph,
                auction::floored(epsilon, graph.len()),
                auction::opening(prices, graph.len()),
                auction::bid_limit(graph),
            );
            let checks = auction::phase_checks(c, graph, prices, epsilon);
            4096 * (checks - 1) < made <= 4096 * checks || (made == 0 && checks == 0)
        }),
{
}

/// Given prices, as many as there are targets, are where the bidding starts: no price
/// ends below them. Otherwise every price starts at zero.
pub proof fn lemma_prices_only_rise(
    c: Problem,
    cands: Seq<Seq<usize>>,
    given: Option<Seq<Real>>,
    phases: nat,
    start: Seq<Real>,
    d: int,
)
    requires
        1 < c.n() <= usize::MAX,
        cands.len() == c.n(),
        start.len() == c.n(),
        match given {
            Some(p) if p.len() == c.n() => p == start,
            _ => forall|i: int| 0 <= i < c.n() ==> #[trigger] start[i] == Real::Fin(0),
        },
        forall|i: int| 0 <= i < c.n() ==> tame(#[trigger] start[i]),
        0 <= d < c.n(),
    ensures
        market(c, cands, given, phases).prices.len() == c.n(),
        risen(start[d], market(c, cands, given, phases).prices[d]),
        market(c, cands, given, phases) == closing(
            c,
            auction::bidding_graph(cands, c.n()),
            start,
            auction::first_epsilon(c, auction::bidding_graph(cands, c.n())),
            phases,
        ),
{
    let n = c.n();
    let graph = auction::bidding_graph(cands, n);
    auction::lemma_graph_fits(cands, n);
    assert(auction::first_prices(given, n) =~= start);
    let from = lemma_closing(c, graph, start, auction::first_epsilon(c, graph), phases, n);
    assert(tame(from[d]));
}

/// Whether or not somebody still waits when the bidding ends, no holder would be better
/// off with another target that lists it by more than epsilon and the rounding of a bid.
pub proof fn lemma_holders_are_content(
    c: Problem,
    cands: Seq<Seq<usize>>,
    given: Option<Seq<Real>>,
    phases: nat,
    eps: int,
    m: int,
    d: int,
    e: int,
)
    requires
        1 < c.n() <= usize::MAX,
        cands.len() == c.n(),
        market_epsilon(c, cands, phases) == Real::Fin(eps),
        0 <= eps <= m <= pow2(2090),
        forall|d: int, s: usize|
            0 <= d < c.n() && s < c.n() && #[trigger] cands[d].contains(s) ==> -m <= units(
                c,
                d,
                s as int,
            ) <= m,
        forall|d: int|
            0 <= d < c.n() ==> price_within(#[trigger] auction::first_prices(given, c.n())[d], m),
        forall|d: int|
            0 <= d < c.n() ==> price_within(#[trigger] market(c, cands, given, phases).prices[d], m),
        0 <= d < c.n(),
        0 <= e < c.n(),
        market(c, cands, given, phases).holder[d] != NOBODY,
        cands[e].contains(market(c, cands, given, phases).holder[d]),
    ensures
        ({
            let s = market(c, cands, given, phases);
            let src = s.holder[d] as int;
            pow2(47) * (units(c, d, src) + s.prices[d]->Fin_0) <= pow2(47) * (units(c, e, src)
                + s.prices[e]->Fin_0 + eps) + m
        }),
{
    let n = c.n();
    let graph = auction::bidding_graph(cands, n);
    let prices = auction::first_prices(given, n);
    let epsilon = auction::first_epsilon(c, graph);
    auction::lemma_graph_fits(cands, n);
    assert forall|i: int| 0 <= i < n implies tame(#[trigger] prices[i]) by {
        assert(price_within(prices[i], m));
    }
    let from = lemma_closing(c, graph, prices, epsilon, phases, n);
    let s = market(c, cands, given, phases);
    let s0 = auction::opening(from, n);
    assert forall|x: int, j: int| 0 <= x < n && 0 <= j < graph[x].len() implies -m <= units(
        c,
        (#[trigger] graph[x][j]) as int,
        x,
    ) <= m by {
        lemma_targets_listed(cands, x as usize, n);
        assert(graph[x].contains(graph[x][j]));
        assert(cands[graph[x][j] as int].contains(x as usize));
    }
    assert forall|i: int| 0 <= i < n implies price_within(#[trigger] s0.prices[i], m) by {
        assert(tame(from[i]));
        assert(price_within(prices[i], m));
        assert(price_within(s.prices[i], m));
    }
    lemma_run_content(c, graph, s0, eps, m, n, auction::bid_limit(graph));
    let x = s.holder[d] as int;
    assert(s.holder[d] < n);
    lemma_targets_listed(cands, s.holder[d], n);
    assert(graph[x].contains(e as usize));
    let j = choose|j: int| 0 <= j < graph[x].len() && graph[x][j] == e as usize;
    assert(content(c, s.prices, x, graph[x], d, eps, m));
    assert(graph[x][j] == e);
}

} // verus!
