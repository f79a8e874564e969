//! Rounding a soft transport plan to a hard permutation.
//!
//! The plan itself, entropy-regularised optimal transport, is a table of
//! weights `plan[dst][src]` that the caller computes. Every target keeps the
//! sources with the greatest weights as candidates of a sparse auction.

use crate::auction;
use crate::cost::{CostLookup, Problem};
use crate::float::{Double, Real};
use crate::perm;
use vstd::prelude::*;

verus! {

/// Number of candidates per target taken from the plan.
pub const TOP_K_CANDIDATES: usize = 8;

/// The plan is a dense table; more targets are refused.
pub const MAX_DENSE_SINKHORN_N: usize = 1024;

/// Epsilon phases of the rounding auction.
pub const ROUNDING_PHASES: usize = 3;

pub open spec fn plan_values(plan: Seq<Vec<Double>>) -> Seq<Seq<Real>> {
    Seq::new(plan.len(), |d: int| auction::values(plan[d]@))
}

/// Every entry of the plan is in canonical form.
pub open spec fn plan_valid(plan: Seq<Vec<Double>>) -> bool {
    forall|d: int| 0 <= d < plan.len() ==> auction::all_valid((#[trigger] plan[d])@)
}

/// Every target has a weight, which is a number, for as many sources as there are
/// targets.
pub open spec fn plan_complete(plan: Seq<Seq<Real>>) -> bool {
    forall|d: int, s: int|
        #![trigger plan[d][s]]
        0 <= d < plan.len() && 0 <= s < plan.len() ==> s < plan[d].len() && !(plan[d][s] is Nan)
}

/// The plan is one of a problem with `n` targets; sizes that need no plan or are
/// refused take any.
pub open spec fn plan_fits(plan: Seq<Seq<Real>>, n: nat) -> bool {
    1 < n <= MAX_DENSE_SINKHORN_N ==> plan.len() == n && plan_complete(plan)
}

/// Inserts a weighted source behind all that weigh at least as much, from `i` on.
pub open spec fn weigh_from(list: Seq<(Real, usize)>, x: (Real, usize), i: nat) -> Seq<
    (Real, usize),
>
    decreases list.len() - i,
{
    if i >= list.len() {
        list.push(x)
    } else if x.0.gt(list[i as int].0) {
        list.insert(i as int, x)
    } else {
        weigh_from(list, x, i + 1)
    }
}

/// The first `k` sources of `dst`, the heaviest first; lower sources come
/// first among equals.
pub open spec fn weighed(plan: Seq<Seq<Real>>, dst: int, k: nat) -> Seq<(Real, usize)>
    decreases k,
{
    if k == 0 {
        Seq::empty()
    } else {
        weigh_from(
            weighed(plan, dst, (k - 1) as nat),
            (plan[dst][k - 1], (k - 1) as usize),
            0,
        )
    }
}

/// The candidates of `dst` among `n` sources.
pub open spec fn top_sources(plan: Seq<Seq<Real>>, dst: int, n: nat) -> Seq<usize> {
    let list = weighed(plan, dst, n);
    Seq::new(
        if n < TOP_K_CANDIDATES {
            n
        } else {
            TOP_K_CANDIDATES as nat
        },
        |i: int| list[i].1,
    )
}

pub open spec fn top_lists(plan: Seq<Seq<Real>>) -> Seq<Seq<usize>> {
    Seq::new(plan.len(), |d: int| top_sources(plan, d, plan.len()))
}

/// The assignment that a plan is rounded to; an empty plan gives an empty one.
pub open spec fn rounded_plan(plan: Seq<Seq<Real>>, c: Problem) -> Seq<usize> {
    if plan.len() == 0 {
        Seq::empty()
    } else {
        auction::auction_assignment(c, top_lists(plan), None, ROUNDING_PHASES as nat)
    }
}

/// The assignment that a plan gives; problems of at most one pixel need none.
pub open spec fn plan_assignment(plan: Seq<Seq<Real>>, c: Problem) -> Seq<usize> {
    if c.n() == 0 {
        Seq::empty()
    } else if c.n() == 1 {
        seq![0usize]
    } else {
        rounded_plan(plan, c)
    }
}

/// A plan for some of the targets, and at least one, is rounded to a permutation.
pub proof fn lemma_plan_gives_permutation(plan: Seq<Seq<Real>>, c: Problem)
    requires
        c.n() <= usize::MAX,
        c.n() > 1 ==> 0 < plan.len() <= c.n(),
    ensures
        perm::is_perm(plan_assignment(plan, c), c.n()),
{
    if c.n() > 1 {
        auction::lemma_auction_is_permutation(
            c,
            top_lists(plan),
            None,
            ROUNDING_PHASES as nat,
        );
    }
}

/// Source `s` comes before source `t` for target `d`: it weighs more, or as much and
/// has the lower index.
pub open spec fn preferred(plan: Seq<Seq<Real>>, d: int, s: int, t: int) -> bool {
    plan[d][s].gt(plan[d][t]) || (plan[d][s] == plan[d][t] && s < t)
}

/// `list` holds eight sources of target `d`, or all if there are fewer, and every
/// other source weighs less, or as much and has a higher index.
pub open spec fn heaviest(plan: Seq<Seq<Real>>, d: int, list: Seq<usize>) -> bool {
    &&& list.len() == if plan.len() < 8 {
        plan.len() as int
    } else {
        8
    }
    &&& list.no_duplicates()
    &&& forall|i: int| 0 <= i < list.len() ==> (#[trigger] list[i]) < plan.len()
    &&& forall|s: usize, t: usize|
        #[trigger] list.contains(s) && t < plan.len() && !#[trigger] list.contains(t)
            ==> preferred(plan, d, s as int, t as int)
}

/// The first `k` sources of target `d` in order of preference, with their weights.
spec fn ranked(plan: Seq<Seq<Real>>, d: int, k: nat, list: Seq<(Real, usize)>) -> bool {
    &&& list.len() == k
    &&& forall|i: int|
        0 <= i < k ==> (#[trigger] list[i]).1 < k && list[i].0 == plan[d][list[i].1 as int]
    &&& forall|i: int, j: int|
        0 <= i < j < k ==> preferred(
            plan,
            d,
            (#[trigger] list[i]).1 as int,
            (#[trigger] list[j]).1 as int,
        )
    &&& forall|s: usize| s < k ==> #[trigger] place_of(list, s)
}

spec fn place_of(list: Seq<(Real, usize)>, s: usize) -> bool {
    exists|i: int| 0 <= i < list.len() && (#[trigger] list[i]).1 == s
}

/// Where an entry is inserted.
proof fn lemma_weigh_place(list: Seq<(Real, usize)>, x: (Real, usize), i: nat) -> (at: int)
    requires
        i <= list.len(),
    ensures
        i <= at <= list.len(),
        weigh_from(list, x, i) == list.insert(at, x),
        forall|q: int| i <= q < at ==> !x.0.gt((#[trigger] list[q]).0),
        at < list.len() ==> x.0.gt(list[at].0),
    decreases list.len() - i,
{
    if i >= list.len() {
        assert(list.push(x) =~= list.insert(i as int, x));
        i as int
    } else if x.0.gt(list[i as int].0) {
        i as int
    } else {
        lemma_weigh_place(list, x, i + 1)
    }
}

proof fn lemma_ranked(plan: Seq<Seq<Real>>, d: int, k: nat)
    requires
        plan_complete(plan),
        0 <= d < plan.len() <= usize::MAX,
        k <= plan.len(),
    ensures
        ranked(plan, d, k, weighed(plan, d, k)),
    decreases k,
{
    if k > 0 {
        let m = (k - 1) as nat;
        lemma_ranked(plan, d, m);
        let list = weighed(plan, d, m);
        let x = (plan[d][k - 1], m as usize);
        let at = lemma_weigh_place(list, x, 0);
        let next = weighed(plan, d, k);
        assert(next == list.insert(at, x));
        assert(!(plan[d][k - 1] is Nan));
        assert forall|q: int| 0 <= q < m implies !((#[trigger] list[q]).0 is Nan) by {
            assert(!(plan[d][list[q].1 as int] is Nan));
        }
        assert forall|i: int, j: int| 0 <= i < j < k implies preferred(
            plan,
            d,
            (#[trigger] next[i]).1 as int,
            (#[trigger] next[j]).1 as int,
        ) by {
            if j == at {
                assert(next[i] == list[i]);
                assert(!x.0.gt(list[i].0));
            } else if i == at {
                assert(next[j] == list[j - 1]);
                assert(x.0.gt(list[at].0));
                if j - 1 > at {
                    assert(preferred(plan, d, list[at].1 as int, list[j - 1].1 as int));
                }
            } else {
                let a = if i < at {
                    i
                } else {
                    i - 1
                };
                let b = if j < at {
                    j
                } else {
                    j - 1
                };
                assert(next[i] == list[a] && next[j] == list[b]);
            }
        }
        assert forall|i: int| 0 <= i < k implies (#[trigger] next[i]).1 < k && next[i].0
            == plan[d][next[i].1 as int] by {
            if i < at {
                assert(next[i] == list[i]);
            } else if i > at {
                assert(next[i] == list[i - 1]);
            }
        }
        assert forall|s: usize| s < k implies #[trigger] place_of(next, s) by {
            if s == m {
                assert(next[at].1 == s);
            } else {
                assert(place_of(list, s));
                let q = choose|q: int| 0 <= q < list.len() && (#[trigger] list[q]).1 == s;
                if q < at {
                    assert(next[q].1 == s);
                } else {
                    assert(next[q + 1].1 == s);
                }
            }
        }
    }
}

/// The candidates of every target are its heaviest sources.
pub proof fn lemma_candidates_are_heaviest(plan: Seq<Seq<Real>>, d: int)
    requires
        plan_complete(plan),
        0 <= d < plan.len() <= usize::MAX,
    ensures
        top_lists(plan).len() == plan.len(),
        heaviest(plan, d, top_lists(plan)[d]),
{
    let n = plan.len();
    let list = weighed(plan, d, n);
    let top = top_lists(plan)[d];
    lemma_ranked(plan, d, n);
    assert forall|i: int| 0 <= i < top.len() implies (#[trigger] top[i]) < n by {
        assert(list[i].1 < n);
    }
    assert forall|i: int, j: int| 0 <= i < j < top.len() implies top[i] != top[j] by {
        assert(preferred(plan, d, list[i].1 as int, list[j].1 as int));
    }
    assert forall|s: usize, t: usize|
        #[trigger] top.contains(s) && t < n && !#[trigger] top.contains(t) implies preferred(
        plan,
        d,
        s as int,
        t as int,
    ) by {
        let i = choose|i: int| 0 <= i < top.len() && top[i] == s;
        assert(place_of(list, t));
        let j = choose|j: int| 0 <= j < list.len() && (#[trigger] list[j]).1 == t;
        if j < top.len() {
            assert(top[j] == t);
        }
        assert(list[i].1 == s);
        assert(i < j);
    }
}

/// A plan is rounded by an auction in which every target may take its heaviest
/// sources, however these are listed: three epsilon phases, from zero prices.
pub proof fn lemma_rounding_uses_heaviest(
    plan: Seq<Seq<Real>>,
    c: Problem,
    lists: Seq<Seq<usize>>,
)
    requires
        plan_complete(plan),
        0 < plan.len() <= usize::MAX,
        lists.len() == plan.len(),
        forall|d: int| 0 <= d < plan.len() ==> heaviest(plan, d, #[trigger] lists[d]),
    ensures
        rounded_plan(plan, c) == auction::auction_assignment(c, lists, None, 3),
{
    let tops = top_lists(plan);
    assert forall|d: int, s: usize| 0 <= d < lists.len() implies (#[trigger] lists[d].contains(s)
        <==> tops[d].contains(s)) by {
        lemma_candidates_are_heaviest(plan, d);
        if lists[d].contains(s) {
            lemma_heaviest_unique(plan, d, lists[d], tops[d], s);
        }
        if tops[d].contains(s) {
            lemma_heaviest_unique(plan, d, tops[d], lists[d], s);
        }
    }
    auction::lemma_same_candidates(c, lists, tops, None, 3);
}

proof fn lemma_heaviest_unique(
    plan: Seq<Seq<Real>>,
    d: int,
    one: Seq<usize>,
    other: Seq<usize>,
    s: usize,
)
    requires
        heaviest(plan, d, one),
        heaviest(plan, d, other),
        one.contains(s),
    ensures
        other.contains(s),
{
    if !other.contains(s) {
        let i = choose|i: int| 0 <= i < one.len() && one[i] == s;
        assert(s < plan.len());
        assert forall|t: usize| #[trigger] other.contains(t) implies one.contains(t) by {
            let j = choose|j: int| 0 <= j < other.len() && other[j] == t;
            assert(t < plan.len());
            if !one.contains(t) {
                assert(preferred(plan, d, s as int, t as int));
                assert(preferred(plan, d, t as int, s as int));
            }
        }
        one.unique_seq_to_set();
        other.unique_seq_to_set();
        assert(other.to_set().subset_of(one.to_set()));
        vstd::set_lib::lemma_subset_equality(other.to_set(), one.to_set());
        assert(one.to_set().contains(s));
        assert(other.to_set().contains(s));
    }
}

proof fn lemma_weigh_len(list: Seq<(Real, usize)>, x: (Real, usize), i: nat)
    ensures
        weigh_from(list, x, i).len() == list.len() + 1,
    decreases list.len() - i,
{
    if i < list.len() && !x.0.gt(list[i as int].0) {
        lemma_weigh_len(list, x, i + 1);
    }
}

proof fn lemma_weighed_len(plan: Seq<Seq<Real>>, dst: int, k: nat)
    ensures
        weighed(plan, dst, k).len() == k,
    decreases k,
{
    if k > 0 {
        lemma_weighed_len(plan, dst, (k - 1) as nat);
        lemma_weigh_len(
            weighed(plan, dst, (k - 1) as nat),
            (plan[dst][k - 1], (k - 1) as usize),
            0,
        );
    }
}

pub open spec fn weighted_values(list: Seq<(Double, usize)>) -> Seq<(Real, usize)> {
    Seq::new(list.len(), |i: int| (list[i].0.value(), list[i].1))
}

pub open spec fn weighted_valid(list: Seq<(Double, usize)>) -> bool {
    forall|i: int| 0 <= i < list.len() ==> (#[trigger] list[i]).0.valid()
}

/// Inserts a weighted source behind all that weigh at least as much.
fn add_weighed(list: &mut Vec<(Double, usize)>, x: (Double, usize))
    requires
        weighted_valid(old(list)@),
        x.0.valid(),
    ensures
        weighted_valid(final(list)@),
        weighted_values(final(list)@) == weigh_from(
            weighted_values(old(list)@),
            (x.0.value(), x.1),
            0,
        ),
{
    let n: usize = list.len();
    let ghost values = weighted_values(list@);
    let ghost v = (x.0.value(), x.1);
    let mut i: usize = 0;
    while i < n
        invariant
            i <= n,
            n == list@.len(),
            list@ == old(list)@,
            weighted_valid(list@),
            x.0.valid(),
            values == weighted_values(list@),
            v == (x.0.value(), x.1),
            weigh_from(values, v, i as nat) == weigh_from(values, v, 0),
        decreases n - i,
    {
        let y = list[i].0;
        assert(list@[i as int].0.valid());
        assert(values[i as int].0 == y.value());
        if x.0.gt(y) {
            list.insert(i, x);
            assert(weighted_values(list@) =~= values.insert(i as int, v));
            return;
        }
        i += 1;
    }
    list.push(x);
    assert(weighted_values(list@) =~= values.push(v));
}

/// Rounds a soft transport plan to a permutation: every target may take the
/// sources with the greatest weights, and a sparse auction resolves collisions
/// and fills gaps. An empty plan gives an empty assignment.
pub fn round_to_permutation(plan: &[Vec<Double>], cost: &CostLookup) -> (r: Vec<usize>)
    requires
        cost@.n() > 1 ==> cost@.within(i64::MAX as int),
        cost@.n() > 1 ==> plan@.len() <= cost@.n(),
        plan_valid(plan@),
        plan_complete(plan_values(plan@)),
    ensures
        plan@.len() > 0 ==> perm::is_perm(r@, cost@.n()),
        r@ == rounded_plan(plan_values(plan@), cost@),
{
    let n: usize = plan.len();
    let ghost p = plan_values(plan@);
    if n == 0 {
        let r: Vec<usize> = Vec::new();
        assert(r@ =~= Seq::empty());
        return r;
    }
    let keep: usize = if n < TOP_K_CANDIDATES {
        n
    } else {
        TOP_K_CANDIDATES
    };
    let mut lists: Vec<Vec<usize>> = Vec::with_capacity(n);
    let mut dst: usize = 0;
    while dst < n
        invariant
            n == plan@.len(),
            p == plan_values(plan@),
            plan_valid(plan@),
            plan_complete(p),
            keep == if n < TOP_K_CANDIDATES {
                n
            } else {
                TOP_K_CANDIDATES
            },
            dst <= n,
            lists@.len() == dst,
            forall|d: int|
                0 <= d < dst ==> (#[trigger] lists@[d])@ == top_sources(p, d, n as nat),
        decreases n - dst,
    {
        let row = &plan[dst];
        assert(p[dst as int] == auction::values(row@));
        let mut list: Vec<(Double, usize)> = Vec::with_capacity(n);
        assert(weighted_values(list@) =~= weighed(p, dst as int, 0));
        let mut src: usize = 0;
        while src < n
            invariant
                n == plan@.len(),
                p == plan_values(plan@),
                plan_complete(p),
                dst < n,
                p[dst as int] == auction::values(row@),
                auction::all_valid(row@),
                src <= n,
                weighted_valid(list@),
                weighted_values(list@) == weighed(p, dst as int, src as nat),
            decreases n - src,
        {
            assert(src < p[dst as int].len() && !(p[dst as int][src as int] is Nan));
            assert(row@[src as int].valid());
            add_weighed(&mut list, (row[src], src));
            src += 1;
        }
        proof {
            lemma_weighed_len(p, dst as int, n as nat);
            assert(weighted_values(list@).len() == list@.len());
        }
        let mut top: Vec<usize> = Vec::with_capacity(keep);
        let mut i: usize = 0;
        while i < keep
            invariant
                i <= keep <= n,
                list@.len() == n,
                weighted_values(list@) == weighed(p, dst as int, n as nat),
                keep == if n < TOP_K_CANDIDATES {
                    n
                } else {
                    TOP_K_CANDIDATES
                },
                top@.len() == i,
                forall|k: int|
                    0 <= k < i ==> (#[trigger] top@[k]) == top_sources(p, dst as int, n as nat)[k],
            decreases keep - i,
        {
            assert(weighted_values(list@)[i as int].1 == list@[i as int].1);
            top.push(list[i].1);
            i += 1;
        }
        assert(top@ =~= top_sources(p, dst as int, n as nat));
        lists.push(top);
        dst += 1;
    }
    proof {
        assert(auction::lists(lists@) =~= top_lists(p));
    }
    auction::sparse_auction(cost, &lists, None, ROUNDING_PHASES)
}

/// Rounds the transport plan of `cost` to an assignment. `None` if there are
/// more than [`MAX_DENSE_SINKHORN_N`] targets; problems of at most one pixel
/// need no plan.
pub fn solve(cost: &CostLookup, plan: &[Vec<Double>]) -> (r: Option<Vec<usize>>)
    requires
        1 < cost@.n() <= MAX_DENSE_SINKHORN_N ==> cost@.within(i64::MAX as int),
        plan_valid(plan@),
        plan_fits(plan_values(plan@), cost@.n()),
    ensures
        r is None <==> cost@.n() > MAX_DENSE_SINKHORN_N,
        r is None <==> cost@.n() > 1024,
        r matches Some(a) ==> {
            &&& perm::is_perm(a@, cost@.n())
            &&& a@ == plan_assignment(plan_values(plan@), cost@)
        },
{
    let n: usize = cost.n_dst();
    if n == 0 {
        let r: Vec<usize> = Vec::new();
        assert(r@ =~= Seq::empty());
        return Some(r);
    }
    if n == 1 {
        let r: Vec<usize> = vec![0];
        assert(r@ =~= seq![0usize]);
        return Some(r);
    }
    if n > MAX_DENSE_SINKHORN_N {
        return None;
    }
    Some(round_to_permutation(plan, cost))
}

} // verus!
