//! The matching cost of a source pixel on a target position, and what follows
//! from it: whole-assignment totals, permutation checks and the exhaustive
//! search oracle.

use crate::perm;
use crate::text;
use vstd::prelude::*;
use vstd::string::*;

verus! {

/// An RGB colour.
pub type Rgb = (u8, u8, u8);

pub open spec fn square(x: int) -> int {
    x * x
}

/// Squared Euclidean distance of two grid positions.
pub open spec fn spatial_distance(a: (u16, u16), b: (u16, u16)) -> int {
    square(a.0 - b.0) + square(a.1 - b.1)
}

/// Squared Euclidean distance of two colours.
pub open spec fn color_distance(a: Rgb, b: Rgb) -> int {
    square(a.0 - b.0) + square(a.1 - b.1) + square(a.2 - b.2)
}

/// Weighted colour distance plus the square of the weighted spatial distance.
pub open spec fn heuristic_value(
    apos: (u16, u16),
    bpos: (u16, u16),
    a: Rgb,
    b: Rgb,
    color_weight: int,
    spatial_weight: int,
) -> int {
    color_distance(a, b) * color_weight + square(spatial_distance(apos, bpos) * spatial_weight)
}

pub open spec fn fits_i64(x: int) -> bool {
    i64::MIN <= x <= i64::MAX
}

/// Every intermediate value of the heuristic is an `i64`.
pub open spec fn heuristic_fits(
    apos: (u16, u16),
    bpos: (u16, u16),
    a: Rgb,
    b: Rgb,
    color_weight: int,
    spatial_weight: int,
) -> bool {
    &&& fits_i64(color_distance(a, b) * color_weight)
    &&& fits_i64(spatial_distance(apos, bpos) * spatial_weight)
    &&& fits_i64(square(spatial_distance(apos, bpos) * spatial_weight))
    &&& fits_i64(heuristic_value(apos, bpos, a, b, color_weight, spatial_weight))
}

pub proof fn lemma_square_bound(x: int, b: int)
    requires
        -b <= x <= b,
    ensures
        0 <= square(x) <= square(b),
{
    assert(0 <= x * x <= b * b) by (nonlinear_arith)
        requires
            -b <= x <= b,
    ;
}

pub proof fn lemma_distance_bounds(apos: (u16, u16), bpos: (u16, u16), a: Rgb, b: Rgb)
    ensures
        0 <= spatial_distance(apos, bpos) <= 8589672450,
        0 <= color_distance(a, b) <= 195075,
        0 <= square(apos.0 - bpos.0) <= 4294836225,
        0 <= square(apos.1 - bpos.1) <= 4294836225,
        0 <= square(a.0 - b.0) <= 65025,
        0 <= square(a.1 - b.1) <= 65025,
        0 <= square(a.2 - b.2) <= 65025,
{
    lemma_square_bound(apos.0 - bpos.0, 65535);
    lemma_square_bound(apos.1 - bpos.1, 65535);
    lemma_square_bound(a.0 - b.0, 255);
    lemma_square_bound(a.1 - b.1, 255);
    lemma_square_bound(a.2 - b.2, 255);
}

/// The heuristic does not depend on which pixel is named first.
pub proof fn lemma_heuristic_symmetric(
    apos: (u16, u16),
    bpos: (u16, u16),
    a: Rgb,
    b: Rgb,
    color_weight: int,
    spatial_weight: int,
)
    ensures
        heuristic_value(apos, bpos, a, b, color_weight, spatial_weight) == heuristic_value(
            bpos,
            apos,
            b,
            a,
            color_weight,
            spatial_weight,
        ),
        heuristic_fits(apos, bpos, a, b, color_weight, spatial_weight) == heuristic_fits(
            bpos,
            apos,
            b,
            a,
            color_weight,
            spatial_weight,
        ),
{
    lemma_square_negated(apos.0 - bpos.0);
    lemma_square_negated(apos.1 - bpos.1);
    lemma_square_negated(a.0 - b.0);
    lemma_square_negated(a.1 - b.1);
    lemma_square_negated(a.2 - b.2);
}

proof fn lemma_square_negated(x: int)
    ensures
        square(x) == square(-x),
{
    assert(x * x == (-x) * (-x)) by (nonlinear_arith);
}

/// Cost heuristic: weighted sum of colour distance and squared weighted
/// spatial distance.
pub fn heuristic(
    apos: (u16, u16),
    bpos: (u16, u16),
    a: Rgb,
    b: Rgb,
    color_weight: i64,
    spatial_weight: i64,
) -> (h: i64)
    requires
        heuristic_fits(apos, bpos, a, b, color_weight as int, spatial_weight as int),
    ensures
        h == heuristic_value(apos, bpos, a, b, color_weight as int, spatial_weight as int),
{
    proof {
        lemma_distance_bounds(apos, bpos, a, b);
    }
    let dx: i64 = apos.0 as i64 - bpos.0 as i64;
    let dy: i64 = apos.1 as i64 - bpos.1 as i64;
    let spatial: i64 = dx * dx + dy * dy;
    let dr: i64 = a.0 as i64 - b.0 as i64;
    let dg: i64 = a.1 as i64 - b.1 as i64;
    let db: i64 = a.2 as i64 - b.2 as i64;
    let color: i64 = dr * dr + dg * dg + db * db;
    let weighted_spatial: i64 = spatial * spatial_weight;
    color * color_weight + weighted_spatial * weighted_spatial
}

/// Squared colour distance, as used to rank nearest-colour candidates.
pub fn color_dist(a: Rgb, b: Rgb) -> (d: i64)
    ensures
        d == color_distance(a, b),
        0 <= d <= 195075,
{
    proof {
        lemma_distance_bounds((0, 0), (0, 0), a, b);
    }
    let dr: i64 = a.0 as i64 - b.0 as i64;
    let dg: i64 = a.1 as i64 - b.1 as i64;
    let db: i64 = a.2 as i64 - b.2 as i64;
    dr * dr + dg * dg + db * db
}

/// Grid coordinates of the index `i` in rows of `sidelen` pixels.
pub open spec fn grid_pos(i: int, sidelen: int) -> (u16, u16) {
    ((i % sidelen) as u16, (i / sidelen) as u16)
}

/// The assignment problem that a [`CostLookup`] poses.
#[verifier::ext_equal]
pub struct Problem {
    pub source: Seq<Rgb>,
    pub target: Seq<Rgb>,
    pub weights: Seq<i64>,
    pub proximity_importance: i64,
    pub dst_positions: Seq<(u16, u16)>,
    pub src_positions: Seq<(u16, u16)>,
}

/// Read-only view over the cost matrix, evaluated on demand.
///
/// `dst_idx` is the row (target) and `src_idx` the column (source). The cost
/// is the positive heuristic, so lower is better.
#[derive(Clone)]
pub struct CostLookup {
    pub source: Vec<Rgb>,
    pub target: Vec<Rgb>,
    pub weights: Vec<i64>,
    pub sidelen: usize,
    pub proximity_importance: i64,
    pub dst_positions: Vec<(u16, u16)>,
    pub src_positions: Vec<(u16, u16)>,
}

impl Problem {
    /// The arrays that belong to the same side have the same length.
    pub open spec fn shaped(self) -> bool {
        &&& self.dst_positions.len() == self.target.len()
        &&& self.weights.len() == self.target.len()
        &&& self.src_positions.len() == self.source.len()
    }

    /// The cost of source `s` on target `d`.
    pub open spec fn at(self, d: int, s: int) -> int {
        heuristic_value(
            self.dst_positions[d],
            self.src_positions[s],
            self.target[d],
            self.source[s],
            self.weights[d] as int,
            self.proximity_importance as int,
        )
    }

    /// The cost of source `s` on target `d` can be computed in `i64`.
    pub open spec fn at_fits(self, d: int, s: int) -> bool {
        heuristic_fits(
            self.dst_positions[d],
            self.src_positions[s],
            self.target[d],
            self.source[s],
            self.weights[d] as int,
            self.proximity_importance as int,
        )
    }

    pub open spec fn n(self) -> nat {
        self.target.len()
    }

    /// A square problem whose costs can all be computed and are at most
    /// `bound` in magnitude.
    pub open spec fn within(self, bound: int) -> bool {
        &&& self.shaped()
        &&& self.source.len() == self.target.len()
        &&& forall|d: int, s: int|
            0 <= d < self.n() && 0 <= s < self.n() ==> self.at_fits(d, s) && -bound
                <= #[trigger] self.at(d, s) <= bound
    }
}

/// The problem of two pictures in rows of `sidelen` pixels.
pub open spec fn grid_problem(
    source: Seq<Rgb>,
    target: Seq<Rgb>,
    weights: Seq<i64>,
    sidelen: int,
    proximity_importance: i64,
) -> Problem {
    Problem {
        source,
        target,
        weights,
        proximity_importance,
        dst_positions: Seq::new(target.len(), |i: int| grid_pos(i, sidelen)),
        src_positions: Seq::new(source.len(), |i: int| grid_pos(i, sidelen)),
    }
}

pub open spec fn absolute(x: int) -> int {
    if x < 0 {
        -x
    } else {
        x
    }
}

/// On a grid with this side, weights and proximity no cost exceeds `limit`:
/// the greatest colour distance is 195075, the greatest spatial one
/// `2 (side - 1)^2`.
pub open spec fn grid_costs_fit(
    weights: Seq<i64>,
    side: int,
    proximity_importance: int,
    limit: int,
) -> bool {
    forall|i: int|
        0 <= i < weights.len() ==> 195075 * absolute((#[trigger] weights[i]) as int) + square(
            2 * square(side - 1) * proximity_importance,
        ) <= limit
}

/// A square grid whose costs fit is a problem within the limit.
pub proof fn lemma_grid_within(
    source: Seq<Rgb>,
    target: Seq<Rgb>,
    weights: Seq<i64>,
    side: int,
    proximity_importance: i64,
    limit: int,
)
    requires
        0 < side <= 65535,
        source.len() == side * side,
        target.len() == side * side,
        weights.len() == side * side,
        limit <= i64::MAX,
        grid_costs_fit(weights, side, proximity_importance as int, limit),
    ensures
        grid_problem(source, target, weights, side, proximity_importance).within(limit),
{
    let p = grid_problem(source, target, weights, side, proximity_importance);
    assert forall|d: int, s: int|
        #![trigger p.at(d, s)]
        #![trigger p.at_fits(d, s)]
        0 <= d < p.n() && 0 <= s < p.n() implies p.at_fits(d, s) && -limit <= p.at(d, s)
        <= limit by {
        lemma_grid_pos(d, side);
        lemma_grid_pos(s, side);
        let a = p.dst_positions[d];
        let b = p.src_positions[s];
        lemma_distance_bounds(a, b, p.target[d], p.source[s]);
        lemma_square_bound(a.0 - b.0, side - 1);
        lemma_square_bound(a.1 - b.1, side - 1);
        let dist = spatial_distance(a, b);
        let far = 2 * square(side - 1);
        let prox = proximity_importance as int;
        let w = weights[d] as int;
        let color = color_distance(p.target[d], p.source[s]);
        assert(absolute(dist * prox) <= absolute(far * prox)) by (nonlinear_arith)
            requires
                0 <= dist <= far,
        ;
        lemma_square_bound(dist * prox, absolute(far * prox));
        assert(square(absolute(far * prox)) == square(far * prox)) by (nonlinear_arith);
        assert(absolute(color * w) <= 195075 * absolute(w)) by (nonlinear_arith)
            requires
                0 <= color <= 195075,
        ;
        assert(absolute(dist * prox) <= square(dist * prox)) by (nonlinear_arith);
        assert(195075 * absolute(weights[d] as int) + square(far * prox) <= limit);
        lemma_square_bound(far * prox, absolute(far * prox));
    }
}

/// Costs within a limit are within a greater one.
pub proof fn lemma_within_more(p: Problem, limit: int, more: int)
    requires
        p.within(limit),
        limit <= more,
    ensures
        p.within(more),
{
    assert forall|d: int, s: int|
        #![trigger p.at(d, s)]
        #![trigger p.at_fits(d, s)]
        0 <= d < p.n() && 0 <= s < p.n() implies p.at_fits(d, s) && -more <= p.at(d, s) <= more by {
        assert(-limit <= p.at(d, s) <= limit);
    }
}

pub proof fn lemma_grid_pos(i: int, side: int)
    requires
        0 < side <= 65535,
        0 <= i < side * side,
    ensures
        grid_pos(i, side).0 == i % side < side,
        grid_pos(i, side).1 == i / side < side,
        0 <= i % side,
        0 <= i / side,
{
    assert(0 <= i / side < side && 0 <= i % side < side) by (nonlinear_arith)
        requires
            0 < side,
            0 <= i < side * side,
    ;
}

impl View for CostLookup {
    type V = Problem;

    open spec fn view(&self) -> Problem {
        Problem {
            source: self.source@,
            target: self.target@,
            weights: self.weights@,
            proximity_importance: self.proximity_importance,
            dst_positions: self.dst_positions@,
            src_positions: self.src_positions@,
        }
    }
}

impl CostLookup {
    /// Builds a lookup from resolved pixel arrays; positions follow from the
    /// row length `sidelen`.
    pub fn new(
        source: Vec<Rgb>,
        target: Vec<Rgb>,
        weights: Vec<i64>,
        sidelen: u32,
        proximity_importance: i64,
    ) -> (r: Self)
        requires
            sidelen > 0 || (source@.len() == 0 && target@.len() == 0),
        ensures
            r@ == grid_problem(source@, target@, weights@, sidelen as int, proximity_importance),
            r.source == source,
            r.target == target,
            r.weights == weights,
            r.sidelen == sidelen,
            r.proximity_importance == proximity_importance,
            r.dst_positions@ == Seq::new(
                target@.len(),
                |i: int| grid_pos(i, sidelen as int),
            ),
            r.src_positions@ == Seq::new(
                source@.len(),
                |i: int| grid_pos(i, sidelen as int),
            ),
    {
        let sidelen_usize: usize = sidelen as usize;
        let dst_positions = positions(target.len(), sidelen_usize);
        let src_positions = positions(source.len(), sidelen_usize);
        let r = CostLookup {
            source,
            target,
            weights,
            sidelen: sidelen_usize,
            proximity_importance,
            dst_positions,
            src_positions,
        };
        proof {
            assert(r@ =~= grid_problem(
                source@,
                target@,
                weights@,
                sidelen as int,
                proximity_importance,
            ));
        }
        r
    }

    /// Number of target pixels (rows).
    pub fn n_dst(&self) -> (r: usize)
        ensures
            r == self.target@.len(),
    {
        self.target.len()
    }

    /// Number of source pixels (columns).
    pub fn n_src(&self) -> (r: usize)
        ensures
            r == self.source@.len(),
    {
        self.source.len()
    }

    /// Cost of assigning source pixel `src_idx` to target pixel `dst_idx`.
    pub fn cost(&self, dst_idx: usize, src_idx: usize) -> (c: i64)
        requires
            dst_idx < self.target@.len(),
            dst_idx < self.dst_positions@.len(),
            dst_idx < self.weights@.len(),
            src_idx < self.source@.len(),
            src_idx < self.src_positions@.len(),
            self@.at_fits(dst_idx as int, src_idx as int),
        ensures
            c == self@.at(dst_idx as int, src_idx as int),
    {
        heuristic(
            self.dst_positions[dst_idx],
            self.src_positions[src_idx],
            self.target[dst_idx],
            self.source[src_idx],
            self.weights[dst_idx],
            self.proximity_importance,
        )
    }

    /// Position of a target pixel in grid coordinates.
    pub fn dst_pos(&self, dst_idx: usize) -> (p: (u16, u16))
        requires
            self.sidelen > 0,
        ensures
            p == grid_pos(dst_idx as int, self.sidelen as int),
    {
        ((dst_idx % self.sidelen) as u16, (dst_idx / self.sidelen) as u16)
    }

    /// Position of a source pixel in grid coordinates.
    pub fn src_pos(&self, src_idx: usize) -> (p: (u16, u16))
        requires
            self.sidelen > 0,
        ensures
            p == grid_pos(src_idx as int, self.sidelen as int),
    {
        ((src_idx % self.sidelen) as u16, (src_idx / self.sidelen) as u16)
    }
}

fn positions(n: usize, sidelen: usize) -> (r: Vec<(u16, u16)>)
    requires
        sidelen > 0 || n == 0,
    ensures
        r@ == Seq::new(n as nat, |i: int| grid_pos(i, sidelen as int)),
{
    let mut out: Vec<(u16, u16)> = Vec::with_capacity(n);
    let mut i: usize = 0;
    while i < n
        invariant
            i <= n,
            sidelen > 0 || n == 0,
            out@ == Seq::new(i as nat, |k: int| grid_pos(k, sidelen as int)),
        decreases n - i,
    {
        out.push(((i % sidelen) as u16, (i / sidelen) as u16));
        i += 1;
        proof {
            assert(out@ =~= Seq::new(i as nat, |k: int| grid_pos(k, sidelen as int)));
        }
    }
    out
}

/// The exact total cost of the assignment `a`.
pub open spec fn total(c: Problem, a: Seq<usize>) -> int {
    perm::sum_to(|i: int| c.at(i, a[i] as int), a.len())
}

pub open spec fn clamp_i64(x: int) -> int {
    if x > i64::MAX {
        i64::MAX as int
    } else if x < i64::MIN {
        i64::MIN as int
    } else {
        x
    }
}

/// The total of the first `k` assignments, clamped to `i64` after every term.
pub open spec fn saturated_total(c: Problem, a: Seq<usize>, k: nat) -> int
    decreases k,
{
    if k == 0 {
        0
    } else {
        clamp_i64(
            saturated_total(c, a, (k - 1) as nat) + c.at(k - 1, a[k - 1] as int),
        )
    }
}

/// Saturating `i64` addition.
fn saturating_add(a: i64, b: i64) -> (r: i64)
    ensures
        r == clamp_i64(a + b),
{
    match a.checked_add(b) {
        Some(s) => s,
        None => if b > 0 {
            i64::MAX
        } else {
            i64::MIN
        },
    }
}

/// `a` assigns existing sources to (a prefix of) the targets of `c`, with
/// computable costs.
pub open spec fn assigns(c: Problem, a: Seq<usize>) -> bool {
    &&& c.shaped()
    &&& a.len() <= c.target.len()
    &&& forall|i: int|
        0 <= i < a.len() ==> (#[trigger] a[i]) < c.source.len() && c.at_fits(i, a[i] as int)
}

/// Total cost of a full assignment, saturating at the ends of `i64`.
pub fn total_cost(cost: &CostLookup, assignments: &[usize]) -> (r: i64)
    requires
        assigns(cost@, assignments@),
    ensures
        r == saturated_total(cost@, assignments@, assignments@.len()),
{
    let mut sum: i64 = 0;
    let mut i: usize = 0;
    while i < assignments.len()
        invariant
            i <= assignments@.len(),
            assigns(cost@, assignments@),
            sum == saturated_total(cost@, assignments@, i as nat),
        decreases assignments@.len() - i,
    {
        sum = saturating_add(sum, cost.cost(i, assignments[i]));
        i += 1;
    }
    sum
}

/// As long as no partial total leaves `i64`, saturation never happens and the
/// computed total is the exact one.
pub proof fn lemma_total_exact(c: Problem, a: Seq<usize>, bound: int)
    requires
        c.within(bound),
        perm::is_perm(a, c.n()),
        c.n() * bound <= i64::MAX,
    ensures
        saturated_total(c, a, a.len()) == total(c, a),
        -(c.n() * bound) <= total(c, a) <= c.n() * bound,
{
    lemma_partial_total_exact(c, a, bound, a.len());
}

proof fn lemma_partial_total_exact(c: Problem, a: Seq<usize>, bound: int, k: nat)
    requires
        c.within(bound),
        perm::is_perm(a, c.n()),
        c.n() * bound <= i64::MAX,
        k <= a.len(),
    ensures
        saturated_total(c, a, k) == perm::sum_to(|i: int| c.at(i, a[i] as int), k),
        -(k * bound) <= perm::sum_to(|i: int| c.at(i, a[i] as int), k) <= k * bound,
    decreases k,
{
    let f = |i: int| c.at(i, a[i] as int);
    perm::lemma_sum_bound(f, k, bound);
    if k > 0 {
        lemma_partial_total_exact(c, a, bound, (k - 1) as nat);
        assert(c.at(k - 1, a[k - 1] as int) <= bound);
        assert(bound >= 0);
        assert(k * bound <= c.n() * bound) by (nonlinear_arith)
            requires
                k <= c.n(),
                bound >= 0,
        ;
    }
}

/// What is wrong with `a[i..]` as the tail of a permutation of `0..n`, given
/// that the entries before `i` are distinct and in range.
pub open spec fn perm_fault(a: Seq<usize>, n: nat, i: int) -> Option<Seq<char>>
    decreases a.len() - i,
{
    if i < 0 || i >= a.len() {
        None
    } else if a[i] >= n {
        Some(
            "assignment value "@ + text::decimal(a[i] as nat) + " out of range 0.."@ + text::decimal(n),
        )
    } else if exists|j: int| 0 <= j < i && a[j] == a[i] {
        Some("duplicate assignment source "@ + text::decimal(a[i] as nat))
    } else {
        perm_fault(a, n, i + 1)
    }
}

/// The message that rejects `a` as a permutation of `0..n`, if any: a wrong
/// length, else the first entry that is out of range or repeated.
pub open spec fn perm_error(a: Seq<usize>, n: nat) -> Option<Seq<char>> {
    if a.len() != n {
        Some("assignment length "@ + text::decimal(a.len()) + " != expected "@ + text::decimal(n))
    } else {
        perm_fault(a, n, 0)
    }
}

proof fn lemma_perm_fault(a: Seq<usize>, n: nat, i: int)
    requires
        a.len() == n,
        0 <= i <= n,
        forall|k: int| 0 <= k < i ==> (#[trigger] a[k]) < n,
        forall|k: int, l: int| 0 <= k < l < i ==> a[k] != a[l],
    ensures
        perm_fault(a, n, i) is None <==> perm::is_perm(a, n),
    decreases n - i,
{
    if i < n {
        if a[i] < n && !(exists|j: int| 0 <= j < i && a[j] == a[i]) {
            lemma_perm_fault(a, n, i + 1);
        }
    }
}

/// An assignment is accepted exactly when it is a permutation.
pub proof fn lemma_perm_error(a: Seq<usize>, n: nat)
    ensures
        perm_error(a, n) is None <==> perm::is_perm(a, n),
{
    if a.len() == n {
        lemma_perm_fault(a, n, 0);
    }
}

/// Returns `Ok(())` if `assignments` is a valid permutation of `0..n`, else a
/// message that names the first problem.
pub fn validate_permutation(assignments: &[usize], n: usize) -> (r: Result<(), String>)
    ensures
        r is Ok <==> perm::is_perm(assignments@, n as nat),
        match r {
            Ok(_) => perm_error(assignments@, n as nat) is None,
            Err(e) => perm_error(assignments@, n as nat) == Some(e@),
        },
{
    proof {
        lemma_perm_error(assignments@, n as nat);
    }
    if assignments.len() != n {
        let mut msg = "assignment length ".to_string();
        text::append_decimal(&mut msg, assignments.len() as u64);
        msg.append(" != expected ");
        text::append_decimal(&mut msg, n as u64);
        return Err(msg);
    }
    let mut seen: Vec<bool> = vec![false; n];
    let mut i: usize = 0;
    while i < n
        invariant
            i <= n,
            assignments@.len() == n,
            seen@.len() == n,
            perm_error(assignments@, n as nat) == perm_fault(assignments@, n as nat, i as int),
            perm_error(assignments@, n as nat) is None <==> perm::is_perm(assignments@, n as nat),
            forall|k: int| 0 <= k < i ==> (#[trigger] assignments@[k]) < n,
            forall|v: int|
                0 <= v < n ==> (#[trigger] seen@[v] <==> exists|j: int|
                    0 <= j < i && assignments@[j] == v),
        decreases n - i,
    {
        let a: usize = assignments[i];
        if a >= n {
            let mut msg = "assignment value ".to_string();
            text::append_decimal(&mut msg, a as u64);
            msg.append(" out of range 0..");
            text::append_decimal(&mut msg, n as u64);
            return Err(msg);
        }
        if seen[a] {
            let mut msg = "duplicate assignment source ".to_string();
            text::append_decimal(&mut msg, a as u64);
            return Err(msg);
        }
        let ghost before = seen@;
        seen.set(a, true);
        proof {
            assert forall|v: int| 0 <= v < n implies (#[trigger] seen@[v] <==> exists|j: int|
                0 <= j < i + 1 && assignments@[j] == v) by {
                if v == a {
                    assert(assignments@[i as int] == v);
                } else {
                    assert(seen@[v] == before[v]);
                }
            }
        }
        i += 1;
    }
    Ok(())
}

/// Asserts at run time that `assignments` is a permutation of `0..n`: the call
/// returns exactly when [`validate_permutation`] accepts the assignment.
pub fn assert_valid_permutation(assignments: &[usize], n: usize)
    requires
        perm::is_perm(assignments@, n as nat),
{
    vstd::pervasive::runtime_assert(validate_permutation(assignments, n).is_ok());
}

/// `a` gives every target of `c` a source of its own.
pub open spec fn full_assignment(c: Problem, a: Seq<usize>) -> bool {
    &&& a.len() == c.n()
    &&& forall|i: int| 0 <= i < a.len() ==> (#[trigger] a[i]) < c.source.len()
    &&& forall|i: int, j: int| 0 <= i < j < a.len() ==> a[i] != a[j]
}

/// `a` and `b` agree before position `k`, where `a` is smaller.
pub open spec fn smaller_at(a: Seq<usize>, b: Seq<usize>, k: int) -> bool {
    &&& 0 <= k < a.len()
    &&& k < b.len()
    &&& a[k] < b[k]
    &&& forall|i: int| 0 <= i < k ==> #[trigger] a[i] == b[i]
}

/// `a` comes before `b` in lexicographic order, by a position that both have.
pub open spec fn lex_before(a: Seq<usize>, b: Seq<usize>) -> bool {
    exists|k: int| smaller_at(a, b, k)
}

/// The full assignments that an ordered search has visited when it is about to
/// look at those that start with `prefix`.
pub open spec fn visited(c: Problem, prefix: Seq<usize>, a: Seq<usize>) -> bool {
    full_assignment(c, a) && lex_before(a, prefix)
}

pub open spec fn starts_with(a: Seq<usize>, prefix: Seq<usize>) -> bool {
    &&& prefix.len() <= a.len()
    &&& forall|i: int| 0 <= i < prefix.len() ==> #[trigger] a[i] == prefix[i]
}

/// `best` is the lexicographically first of the cheapest assignments in `set`;
/// it is empty if none of them costs less than `i64::MAX`.
pub open spec fn first_cheapest(
    c: Problem,
    set: spec_fn(Seq<usize>) -> bool,
    best: Seq<usize>,
    best_cost: int,
) -> bool {
    if best_cost == i64::MAX {
        &&& best.len() == 0
        &&& forall|a: Seq<usize>| #[trigger]
            set(a) ==> saturated_total(c, a, a.len()) >= i64::MAX
    } else {
        &&& set(best)
        &&& best_cost == saturated_total(c, best, best.len())
        &&& best_cost < i64::MAX
        &&& forall|a: Seq<usize>| #[trigger]
            set(a) ==> {
                &&& best_cost <= saturated_total(c, a, a.len())
                &&& saturated_total(c, a, a.len()) == best_cost ==> !lex_before(a, best)
            }
    }
}

proof fn lemma_lex_asymmetric(a: Seq<usize>, b: Seq<usize>)
    requires
        lex_before(a, b),
    ensures
        !lex_before(b, a),
{
    let k = choose|k: int| smaller_at(a, b, k);
    if lex_before(b, a) {
        let l = choose|l: int| smaller_at(b, a, l);
        if k < l {
            assert(b[k] == a[k]);
        } else if l < k {
            assert(a[l] == b[l]);
        }
    }
}

/// Looking at `prefix.push(src)` means having seen what `prefix` had seen, and
/// the continuations of `prefix` by a smaller source.
proof fn lemma_visited_step(c: Problem, prefix: Seq<usize>, src: usize, a: Seq<usize>)
    requires
        prefix.len() < c.n(),
    ensures
        visited(c, prefix.push(src), a) <==> visited(c, prefix, a) || (full_assignment(c, a)
            && starts_with(a, prefix) && a[prefix.len() as int] < src),
{
    let p = prefix.push(src);
    if lex_before(a, p) {
        let k = choose|k: int| smaller_at(a, p, k);
        if k < prefix.len() {
            assert(smaller_at(a, prefix, k));
        }
    }
    if lex_before(a, prefix) {
        let k = choose|k: int| smaller_at(a, prefix, k);
        assert(smaller_at(a, p, k));
    }
    if full_assignment(c, a) && starts_with(a, prefix) && a[prefix.len() as int] < src {
        assert(smaller_at(a, p, prefix.len() as int));
    }
}

/// Extends `current` in every way, keeping the first cheapest assignment seen.
fn search_assignments(
    cost: &CostLookup,
    used: &mut Vec<bool>,
    current: &mut Vec<usize>,
    best_cost: &mut i64,
    best: &mut Vec<usize>,
)
    requires
        cost@.shaped(),
        forall|d: int, s: int|
            0 <= d < cost@.n() && 0 <= s < cost@.source.len() ==> #[trigger] cost@.at_fits(d, s),
        old(used)@.len() == cost@.n(),
        cost@.source.len() <= cost@.n(),
        old(current)@.len() <= cost@.n(),
        forall|i: int|
            0 <= i < old(current)@.len() ==> (#[trigger] old(current)@[i]) < cost@.source.len(),
        forall|i: int, j: int|
            0 <= i < j < old(current)@.len() ==> old(current)@[i] != old(current)@[j],
        forall|s: usize|
            s < cost@.n() ==> (#[trigger] old(used)@[s as int] <==> old(current)@.contains(s)),
        first_cheapest(
            cost@,
            |a: Seq<usize>| visited(cost@, old(current)@, a),
            old(best)@,
            *old(best_cost) as int,
        ),
    ensures
        final(used)@ == old(used)@,
        final(current)@ == old(current)@,
        first_cheapest(
            cost@,
            |a: Seq<usize>|
                visited(cost@, old(current)@, a) || (full_assignment(cost@, a) && starts_with(
                    a,
                    old(current)@,
                )),
            final(best)@,
            *final(best_cost) as int,
        ),
    decreases cost@.n() - old(current)@.len(),
{
    let ghost prefix = current@;
    let ghost used0 = used@;
    let ghost goal = |a: Seq<usize>|
        visited(cost@, prefix, a) || (full_assignment(cost@, a) && starts_with(a, prefix));
    if current.len() == cost.n_dst() {
        let ghost seen = |a: Seq<usize>| visited(cost@, prefix, a);
        let ghost best0 = best@;
        let total = total_cost(cost, current.as_slice());
        proof {
            assert forall|a: Seq<usize>| #[trigger] goal(a) implies seen(a) || a == prefix by {
                if !seen(a) {
                    assert(a =~= prefix);
                }
            }
            assert(full_assignment(cost@, prefix));
            assert(starts_with(prefix, prefix));
            assert(goal(prefix));
            assert forall|a: Seq<usize>| #[trigger] seen(a) implies goal(a) by {}
        }
        if total < *best_cost {
            *best_cost = total;
            *best = current.clone();
            proof {
                assert(best@ =~= prefix);
                assert forall|a: Seq<usize>| #[trigger] goal(a) implies {
                    &&& total <= saturated_total(cost@, a, a.len())
                    &&& saturated_total(cost@, a, a.len()) == total ==> !lex_before(a, prefix)
                } by {
                    if !seen(a) {
                        assert(a == prefix);
                        if lex_before(prefix, prefix) {
                            lemma_lex_asymmetric(prefix, prefix);
                        }
                    }
                }
            }
        } else {
            proof {
                assert forall|a: Seq<usize>| #[trigger] goal(a) implies {
                    &&& *best_cost <= saturated_total(cost@, a, a.len())
                    &&& saturated_total(cost@, a, a.len()) == *best_cost && *best_cost < i64::MAX
                        ==> !lex_before(a, best0)
                } by {
                    if !seen(a) && *best_cost < i64::MAX {
                        assert(seen(best0));
                        lemma_lex_asymmetric(best0, prefix);
                    }
                }
            }
        }
        return;
    }
    let mut src: usize = 0;
    proof {
        assert forall|a: Seq<usize>|
            visited(cost@, prefix, a) <==> visited(cost@, prefix.push(0usize), a) by {
            lemma_visited_step(cost@, prefix, 0, a);
        }
        assert((|a: Seq<usize>| visited(cost@, prefix, a)) =~= (|a: Seq<usize>|
            visited(cost@, prefix.push(0usize), a)));
    }
    while src < cost.n_src()
        invariant
            cost@.shaped(),
            forall|d: int, s: int|
                0 <= d < cost@.n() && 0 <= s < cost@.source.len() ==> #[trigger] cost@.at_fits(d, s),
            used@ == used0,
            used@.len() == cost@.n(),
            cost@.source.len() <= cost@.n(),
            src <= cost@.source.len(),
            current@ == prefix,
            prefix.len() < cost@.n(),
            prefix == old(current)@,
            forall|i: int| 0 <= i < prefix.len() ==> (#[trigger] prefix[i]) < cost@.source.len(),
            forall|i: int, j: int| 0 <= i < j < prefix.len() ==> prefix[i] != prefix[j],
            forall|s: usize|
                s < cost@.n() ==> (#[trigger] used0[s as int] <==> prefix.contains(s)),
            first_cheapest(
                cost@,
                |a: Seq<usize>| visited(cost@, prefix.push(src), a),
                best@,
                *best_cost as int,
            ),
        decreases cost@.source.len() - src,
    {
        let ghost here = |a: Seq<usize>| visited(cost@, prefix.push(src), a);
        let ghost next = |a: Seq<usize>| visited(cost@, prefix.push((src + 1) as usize), a);
        if used[src] {
            proof {
                assert forall|a: Seq<usize>| #[trigger] here(a) == next(a) by {
                    lemma_visited_step(cost@, prefix, src, a);
                    lemma_visited_step(cost@, prefix, (src + 1) as usize, a);
                    let j = choose|j: int| 0 <= j < prefix.len() && prefix[j] == src;
                    if full_assignment(cost@, a) && starts_with(a, prefix) {
                        assert(a[j] == prefix[j]);
                        assert(a[prefix.len() as int] != a[j]);
                    }
                }
                assert(here =~= next);
            }
        } else {
            used.set(src, true);
            current.push(src);
            proof {
                let p = prefix.push(src);
                assert(current@ == p);
                assert forall|s: usize| s < cost@.n() implies (#[trigger] used@[s as int]
                    <==> p.contains(s)) by {
                    if s == src {
                        assert(p[prefix.len() as int] == src);
                    } else {
                        assert(used@[s as int] == used0[s as int]);
                        if prefix.contains(s) {
                            let j = choose|j: int| 0 <= j < prefix.len() && prefix[j] == s;
                            assert(p[j] == s);
                        }
                        if p.contains(s) {
                            let j = choose|j: int| 0 <= j < p.len() && p[j] == s;
                            assert(prefix[j] == s);
                        }
                    }
                }
                assert forall|i: int, j: int| 0 <= i < j < p.len() implies p[i] != p[j] by {
                    if j == prefix.len() && p[i] == src {
                        assert(prefix.contains(src));
                    }
                }
                assert(here =~= |a: Seq<usize>| visited(cost@, current@, a));
            }
            search_assignments(cost, used, current, best_cost, best);
            let _ = current.pop();
            used.set(src, false);
            proof {
                let p = prefix.push(src);
                let after = |a: Seq<usize>|
                    visited(cost@, p, a) || (full_assignment(cost@, a) && starts_with(a, p));
                assert(used@ =~= used0);
                assert(current@ =~= prefix);
                assert forall|a: Seq<usize>| #[trigger] after(a) == next(a) by {
                    lemma_visited_step(cost@, prefix, src, a);
                    lemma_visited_step(cost@, prefix, (src + 1) as usize, a);
                    if full_assignment(cost@, a) {
                        if starts_with(a, p) {
                            assert forall|i: int| 0 <= i < prefix.len() implies #[trigger] a[i]
                                == prefix[i] by {
                                assert(a[i] == p[i]);
                            }
                            assert(a[prefix.len() as int] == p[prefix.len() as int]);
                        }
                        if starts_with(a, prefix) && a[prefix.len() as int] == src {
                            assert(starts_with(a, p));
                        }
                    }
                }
                assert(after =~= next);
            }
        }
        src += 1;
    }
    proof {
        assert forall|a: Seq<usize>| #[trigger] goal(a) == visited(cost@, prefix.push(src), a) by {
            lemma_visited_step(cost@, prefix, src, a);
        }
        assert(goal =~= |a: Seq<usize>| visited(cost@, prefix.push(src), a));
    }
}

/// The total of the first `k` assignments, without a bound.
pub open spec fn partial_total(c: Problem, a: Seq<usize>, k: nat) -> int {
    perm::sum_to(|i: int| c.at(i, a[i] as int), k)
}

/// Saturating totals tell the cheapest full assignment: either no total of a full
/// assignment leaves `i64` on the way, or no cost is negative and not every total
/// saturates.
pub open spec fn totals_tell(c: Problem) -> bool {
    ||| forall|a: Seq<usize>, k: nat|
        full_assignment(c, a) && k <= c.n() ==> i64::MIN <= #[trigger] partial_total(c, a, k)
            < i64::MAX
    ||| {
        &&& forall|d: int, s: int|
            0 <= d < c.n() && 0 <= s < c.source.len() ==> #[trigger] c.at(d, s) >= 0
        &&& exists|a: Seq<usize>| #[trigger] full_assignment(c, a) && total(c, a) < i64::MAX
    }
}

/// Where totals tell, a full assignment has its exact total unless that reaches
/// `i64::MAX`, where it saturates.
pub proof fn lemma_totals_tell(c: Problem, a: Seq<usize>, k: nat)
    requires
        totals_tell(c),
        full_assignment(c, a),
        k <= c.n(),
    ensures
        partial_total(c, a, k) < i64::MAX ==> saturated_total(c, a, k) == partial_total(c, a, k),
        partial_total(c, a, k) >= i64::MAX ==> saturated_total(c, a, k) == i64::MAX,
    decreases k,
{
    if k > 0 {
        lemma_totals_tell(c, a, (k - 1) as nat);
        let before = partial_total(c, a, (k - 1) as nat);
        let next = c.at(k - 1, a[k - 1] as int);
        assert(partial_total(c, a, k) == before + next);
        if next < 0 {
            assert(i64::MIN <= before < i64::MAX);
        } else {
            lemma_partial_at_least(c, a, (k - 1) as nat);
        }
    }
}

proof fn lemma_partial_at_least(c: Problem, a: Seq<usize>, k: nat)
    requires
        totals_tell(c),
        full_assignment(c, a),
        k <= c.n(),
    ensures
        partial_total(c, a, k) >= i64::MIN,
    decreases k,
{
    if k > 0 && exists|d: int, s: int|
        0 <= d < c.n() && 0 <= s < c.source.len() && #[trigger] c.at(d, s) < 0 {
        assert(i64::MIN <= partial_total(c, a, k));
    } else if k > 0 {
        lemma_partial_nonnegative(c, a, k);
    }
}

proof fn lemma_partial_nonnegative(c: Problem, a: Seq<usize>, k: nat)
    requires
        full_assignment(c, a),
        k <= c.n(),
        forall|d: int, s: int|
            0 <= d < c.n() && 0 <= s < c.source.len() ==> #[trigger] c.at(d, s) >= 0,
    ensures
        partial_total(c, a, k) >= 0,
    decreases k,
{
    if k > 0 {
        lemma_partial_nonnegative(c, a, (k - 1) as nat);
        assert(c.at(k - 1, a[k - 1] as int) >= 0);
    }
}

/// `r` is the lexicographically first of the full assignments with the least
/// total, and empty if every total saturates.
pub open spec fn first_optimum(c: Problem, r: Seq<usize>) -> bool {
    &&& forall|a: Seq<usize>|
        #![trigger full_assignment(c, a)]
        full_assignment(c, a) && saturated_total(c, a, a.len()) < i64::MAX ==> {
            &&& full_assignment(c, r)
            &&& saturated_total(c, r, r.len()) <= saturated_total(c, a, a.len())
            &&& saturated_total(c, r, r.len()) == saturated_total(c, a, a.len()) ==> !lex_before(
                a,
                r,
            )
        }
    &&& (forall|a: Seq<usize>|
        #![trigger full_assignment(c, a)]
        full_assignment(c, a) ==> saturated_total(c, a, a.len()) >= i64::MAX) ==> r.len() == 0
}

/// Exhaustive search for the cheapest assignment, for tiny problems: the
/// lexicographically first of the assignments with the least total, and
/// nothing if every total saturates.
pub fn brute_force_assignment(cost: &CostLookup) -> (r: Vec<usize>)
    requires
        cost@.n() <= 9,
        cost@.shaped(),
        cost@.source.len() <= cost@.n(),
        forall|d: int, s: int|
            0 <= d < cost@.n() && 0 <= s < cost@.source.len() ==> #[trigger] cost@.at_fits(d, s),
    ensures
        first_optimum(cost@, r@),
{
    let n: usize = cost.n_dst();
    let mut used: Vec<bool> = vec![false; n];
    let mut current: Vec<usize> = Vec::with_capacity(n);
    let mut best: Vec<usize> = Vec::new();
    let mut best_cost: i64 = i64::MAX;
    search_assignments(cost, &mut used, &mut current, &mut best_cost, &mut best);
    proof {
        let empty = Seq::<usize>::empty();
        assert(current@ == empty);
        let found = |a: Seq<usize>|
            visited(cost@, empty, a) || (full_assignment(cost@, a) && starts_with(a, empty));
        assert forall|a: Seq<usize>| #[trigger] full_assignment(cost@, a) implies found(a) by {}
        assert(first_cheapest(cost@, found, best@, best_cost as int));
    }
    best
}

} // verus!
