//! Exact dense assignment by shortest augmenting paths.
//!
//! Row labels `lx` and column labels `ly` are kept feasible for the weight
//! `-cost`, matched pairs are kept tight, and one row after the other is added
//! to the matching by growing an alternating tree from it. Feasible labels
//! and tight pairs certify that the final matching has the least total cost.

use crate::cost;
use crate::cost::{CostLookup, Problem};
use crate::perm;
use crate::progress;
use crate::progress::{Beat, Checkpoint, MessageLog, ProgressSink, SolverControl};
use vstd::prelude::*;

verus! {

/// Costs up to this magnitude keep every label and slack within `i64`.
pub open spec fn exact_cost_limit() -> int {
    i64::MAX as int / 4
}

/// A partial matching with its labels: `xy` maps rows (targets) to columns
/// (sources), `yx` maps columns to rows.
#[verifier::ext_equal]
pub struct Matching {
    pub xy: Seq<Option<usize>>,
    pub yx: Seq<Option<usize>>,
    pub lx: Seq<int>,
    pub ly: Seq<int>,
}

/// An alternating tree: the rows in it, the columns in it with the row they
/// hang from, and for every other column its least margin and a row that has it.
#[verifier::ext_equal]
pub struct Tree {
    pub lx: Seq<int>,
    pub ly: Seq<int>,
    pub in_tree: Seq<bool>,
    pub parent: Seq<Option<usize>>,
    pub slack: Seq<int>,
    pub slack_row: Seq<usize>,
}

pub open spec fn weight(c: Problem, x: int, y: int) -> int {
    -c.at(x, y)
}

/// The margin of the labels of row `x` and column `y` over their weight.
pub open spec fn margin(c: Problem, lx: Seq<int>, ly: Seq<int>, x: int, y: int) -> int {
    lx[x] + ly[y] - weight(c, x, y)
}

/// The greatest weight of row `x` in the columns `0..=k`.
pub open spec fn row_max(c: Problem, x: int, k: nat) -> int
    decreases k,
{
    if k == 0 {
        weight(c, x, 0)
    } else {
        let before = row_max(c, x, (k - 1) as nat);
        if weight(c, x, k as int) >= before {
            weight(c, x, k as int)
        } else {
            before
        }
    }
}

/// The empty matching; a row's label is its greatest weight.
pub open spec fn start(c: Problem) -> Matching {
    Matching {
        xy: Seq::new(c.n(), |x: int| None),
        yx: Seq::new(c.n(), |y: int| None),
        lx: Seq::new(c.n(), |x: int| row_max(c, x, (c.n() - 1) as nat)),
        ly: Seq::new(c.n(), |y: int| 0int),
    }
}

/// The tree that holds only the row `root`.
pub open spec fn seed(c: Problem, m: Matching, root: int) -> Tree {
    Tree {
        lx: m.lx,
        ly: m.ly,
        in_tree: Seq::new(c.n(), |x: int| x == root),
        parent: Seq::new(c.n(), |y: int| None),
        slack: Seq::new(c.n(), |y: int| margin(c, m.lx, m.ly, root, y)),
        slack_row: Seq::new(c.n(), |y: int| root as usize),
    }
}

/// `col` is the first of the columns outside the tree with the least slack.
pub open spec fn tightest(t: Tree, col: int) -> bool {
    &&& 0 <= col < t.parent.len()
    &&& t.parent[col] is None
    &&& forall|y: int|
        0 <= y < t.parent.len() && (#[trigger] t.parent[y]) is None ==> t.slack[col] <= t.slack[y]
            && (y < col ==> t.slack[col] < t.slack[y])
}

pub open spec fn next_column(t: Tree) -> int {
    choose|col: int| tightest(t, col)
}

/// Shifts the labels of the tree by the slack of `col`, which makes `col`
/// tight, and hangs `col` below the row that its slack comes from.
pub open spec fn attach(t: Tree, col: int) -> Tree {
    let delta = if t.slack[col] > 0 {
        t.slack[col]
    } else {
        0
    };
    Tree {
        lx: Seq::new(
            t.lx.len(),
            |x: int|
                if t.in_tree[x] {
                    t.lx[x] - delta
                } else {
                    t.lx[x]
                },
        ),
        ly: Seq::new(
            t.ly.len(),
            |y: int|
                if t.parent[y] is Some {
                    t.ly[y] + delta
                } else {
                    t.ly[y]
                },
        ),
        in_tree: t.in_tree,
        parent: t.parent.update(col, Some(t.slack_row[col])),
        slack: Seq::new(
            t.slack.len(),
            |y: int|
                if t.parent[y] is Some {
                    t.slack[y]
                } else {
                    t.slack[y] - delta
                },
        ),
        slack_row: t.slack_row,
    }
}

/// Adds `row` to the tree and lowers the slacks that it improves.
pub open spec fn absorb(c: Problem, t: Tree, row: int) -> Tree {
    Tree {
        lx: t.lx,
        ly: t.ly,
        in_tree: t.in_tree.update(row, true),
        parent: t.parent,
        slack: Seq::new(
            t.slack.len(),
            |y: int|
                if t.parent[y] is None && t.slack[y] > margin(c, t.lx, t.ly, row, y) {
                    margin(c, t.lx, t.ly, row, y)
                } else {
                    t.slack[y]
                },
        ),
        slack_row: Seq::new(
            t.slack_row.len(),
            |y: int|
                if t.parent[y] is None && t.slack[y] > margin(c, t.lx, t.ly, row, y) {
                    row as usize
                } else {
                    t.slack_row[y]
                },
        ),
    }
}

/// Grows `t` until it reaches an unmatched column; the tree and that column.
pub open spec fn grow(
    c: Problem,
    yx: Seq<Option<usize>>,
    t: Tree,
    fuel: nat,
) -> (Tree, usize)
    decreases fuel,
{
    let col = next_column(t);
    let attached = attach(t, col);
    match yx[col] {
        Some(row) if fuel > 0 => grow(c, yx, absorb(c, attached, row as int), (fuel - 1) as nat),
        _ => (attached, col as usize),
    }
}

/// Matches along the tree path from `y` back to the root.
pub open spec fn flip(
    parent: Seq<Option<usize>>,
    xy: Seq<Option<usize>>,
    yx: Seq<Option<usize>>,
    y: usize,
    fuel: nat,
) -> (Seq<Option<usize>>, Seq<Option<usize>>)
    decreases fuel,
{
    let x = parent[y as int].unwrap();
    let xy2 = xy.update(x as int, Some(y));
    let yx2 = yx.update(y as int, Some(x));
    match xy[x as int] {
        Some(p) if fuel > 0 => flip(parent, xy2, yx2, p, (fuel - 1) as nat),
        _ => (xy2, yx2),
    }
}

/// The matching after `root` has been added to it.
pub open spec fn add_row(c: Problem, m: Matching, root: int) -> Matching {
    let (t, col) = grow(c, m.yx, seed(c, m, root), c.n());
    let (xy, yx) = flip(t.parent, m.xy, m.yx, col, c.n());
    Matching { xy, yx, lx: t.lx, ly: t.ly }
}

/// The matching of the first `rows` rows.
pub open spec fn matched_rows(c: Problem, rows: nat) -> Matching
    decreases rows,
{
    if rows == 0 {
        start(c)
    } else {
        add_row(c, matched_rows(c, (rows - 1) as nat), rows - 1)
    }
}

/// The source of every target in the final matching.
pub open spec fn exact_assignment(c: Problem) -> Seq<usize> {
    let m = matched_rows(c, c.n());
    Seq::new(c.n(), |x: int| m.xy[x].unwrap())
}

/// `a` is a permutation of least total cost.
pub open spec fn optimal(c: Problem, a: Seq<usize>) -> bool {
    &&& perm::is_perm(a, c.n())
    &&& forall|p: Seq<usize>| #[trigger]
        perm::is_perm(p, c.n()) ==> cost::total(c, a) <= cost::total(c, p)
}

/// `xy` and `yx` describe the same pairs.
pub open spec fn paired(xy: Seq<Option<usize>>, yx: Seq<Option<usize>>, n: nat) -> bool {
    &&& n <= usize::MAX
    &&& xy.len() == n
    &&& yx.len() == n
    &&& forall|x: int|
        0 <= x < n && (#[trigger] xy[x]) is Some ==> xy[x].unwrap() < n
            && yx[xy[x].unwrap() as int] == Some(x as usize)
    &&& forall|y: int|
        0 <= y < n && (#[trigger] yx[y]) is Some ==> yx[y].unwrap() < n
            && xy[yx[y].unwrap() as int] == Some(y as usize)
}

/// No margin is negative; no column label is negative, and that of an
/// unmatched column is zero.
pub open spec fn feasible(
    c: Problem,
    yx: Seq<Option<usize>>,
    lx: Seq<int>,
    ly: Seq<int>,
) -> bool {
    &&& lx.len() == c.n()
    &&& ly.len() == c.n()
    &&& forall|x: int, y: int|
        0 <= x < c.n() && 0 <= y < c.n() ==> #[trigger] margin(c, lx, ly, x, y) >= 0
    &&& forall|y: int| 0 <= y < c.n() ==> (#[trigger] ly[y]) >= 0 && (yx[y] is None ==> ly[y] == 0)
    &&& forall|x: int| 0 <= x < c.n() ==> (#[trigger] lx[x]) <= exact_cost_limit()
}

/// The first `rows` rows are matched, along tight pairs, under feasible labels.
pub open spec fn sound(c: Problem, m: Matching, rows: int) -> bool {
    &&& paired(m.xy, m.yx, c.n())
    &&& feasible(c, m.yx, m.lx, m.ly)
    &&& forall|x: int| 0 <= x < c.n() ==> ((#[trigger] m.xy[x]) is Some <==> x < rows)
    &&& forall|x: int|
        0 <= x < rows ==> margin(
            c,
            m.lx,
            m.ly,
            x,
            (#[trigger] m.xy[x]).unwrap() as int,
        ) == 0
}

/// `t` is an alternating tree from `root` over the matching `m`. `time` gives
/// the step at which a column joined, below `now`; the column `fresh` has just
/// joined and its row has not.
pub open spec fn alternating(
    c: Problem,
    m: Matching,
    root: int,
    t: Tree,
    time: Seq<int>,
    now: int,
    fresh: int,
) -> bool {
    &&& feasible(c, m.yx, t.lx, t.ly)
    &&& t.in_tree.len() == c.n()
    &&& t.parent.len() == c.n()
    &&& t.slack.len() == c.n()
    &&& t.slack_row.len() == c.n()
    &&& time.len() == c.n()
    &&& t.in_tree[root]
    &&& forall|x: int|
        0 <= x < c.n() && x != root && #[trigger] t.in_tree[x] ==> m.xy[x] is Some
            && t.parent[m.xy[x].unwrap() as int] is Some && m.xy[x].unwrap() != fresh
    &&& forall|y: int|
        0 <= y < c.n() && y != fresh && (#[trigger] t.parent[y]) is Some ==> m.yx[y] is Some
            && t.in_tree[m.yx[y].unwrap() as int]
    &&& forall|y: int|
        0 <= y < c.n() && (#[trigger] t.parent[y]) is Some ==> {
            let x = t.parent[y].unwrap() as int;
            &&& x < c.n()
            &&& t.in_tree[x]
            &&& margin(c, t.lx, t.ly, x, y) == 0
            &&& 0 <= time[y] < now
            &&& x != root ==> time[m.xy[x].unwrap() as int] < time[y]
        }
    &&& forall|x: int|
        0 <= x < c.n() && (#[trigger] m.xy[x]) is Some ==> margin(
            c,
            t.lx,
            t.ly,
            x,
            m.xy[x].unwrap() as int,
        ) == 0
    &&& forall|y: int|
        0 <= y < c.n() && (#[trigger] t.parent[y]) is None ==> {
            let x = t.slack_row[y] as int;
            &&& x < c.n()
            &&& t.in_tree[x]
            &&& t.slack[y] == margin(c, t.lx, t.ly, x, y)
        }
    &&& forall|x: int, y: int|
        0 <= y < c.n() && t.parent[y] is None && 0 <= x < c.n() && t.in_tree[x] ==> t.slack[y]
            <= #[trigger] margin(c, t.lx, t.ly, x, y)
}

/// How many columns are outside the tree.
pub open spec fn outside(parent: Seq<Option<usize>>) -> int {
    perm::sum_to(
        |y: int|
            if parent[y] is None {
                1int
            } else {
                0
            },
        parent.len(),
    )
}

proof fn lemma_outside_step(parent: Seq<Option<usize>>, col: int, row: usize)
    requires
        0 <= col < parent.len(),
        parent[col] is None,
    ensures
        outside(parent.update(col, Some(row))) == outside(parent) - 1,
        outside(parent) >= 1,
{
    let f = |y: int|
        if parent[y] is None {
            1int
        } else {
            0
        };
    let after = parent.update(col, Some(row));
    let g = |y: int|
        if after[y] is None {
            1int
        } else {
            0
        };
    perm::lemma_sum_update(f, g, parent.len(), col);
    let zero = |y: int| 0int;
    perm::lemma_sum_le(zero, g, parent.len());
    perm::lemma_sum_bound(zero, parent.len(), 0);
}

proof fn lemma_outside_at_most(parent: Seq<Option<usize>>)
    ensures
        outside(parent) <= parent.len(),
{
    let f = |y: int|
        if parent[y] is None {
            1int
        } else {
            0
        };
    perm::lemma_sum_bound(f, parent.len(), 1);
}

/// A matching that leaves out a row leaves out a column.
proof fn lemma_free_column(xy: Seq<Option<usize>>, yx: Seq<Option<usize>>, n: nat, row: int) -> (y:
    int)
    requires
        paired(xy, yx, n),
        0 <= row < n,
        xy[row] is None,
    ensures
        0 <= y < n,
        yx[y] is None,
{
    if forall|y: int| 0 <= y < n ==> (#[trigger] yx[y]) is Some {
        let rows = Seq::new(n, |y: int| yx[y].unwrap());
        assert forall|i: int, j: int| 0 <= i < j < n implies rows[i] != rows[j] by {
            assert(yx[i] is Some && yx[j] is Some);
        }
        assert forall|i: int| 0 <= i < n implies (#[trigger] rows[i]) < n by {
            assert(yx[i] is Some);
        }
        perm::lemma_perm_reaches(rows, n, row);
        let y = choose|y: int| 0 <= y < n && rows[y] == row;
        assert(yx[y] is Some);
        0
    } else {
        choose|y: int| 0 <= y < n && (#[trigger] yx[y]) is None
    }
}

/// What the search for a root keeps: the matching it started from, and the
/// tree grown so far.
pub open spec fn growing(
    c: Problem,
    m: Matching,
    root: int,
    t: Tree,
    time: Seq<int>,
    now: int,
) -> bool {
    &&& c.within(exact_cost_limit())
    &&& sound(c, m, root)
    &&& 0 <= root < c.n()
    &&& alternating(c, m, root, t, time, now, -1)
    &&& now >= 0
}

proof fn lemma_row_max(c: Problem, x: int, k: nat)
    requires
        c.within(exact_cost_limit()),
        0 <= x < c.n(),
        k < c.n(),
    ensures
        forall|y: int| 0 <= y <= k ==> row_max(c, x, k) >= #[trigger] weight(c, x, y),
        -exact_cost_limit() <= row_max(c, x, k) <= exact_cost_limit(),
    decreases k,
{
    assert(-exact_cost_limit() <= c.at(x, k as int) <= exact_cost_limit());
    if k > 0 {
        lemma_row_max(c, x, (k - 1) as nat);
    }
}

proof fn lemma_start(c: Problem)
    requires
        c.within(exact_cost_limit()),
        c.n() <= usize::MAX,
    ensures
        sound(c, start(c), 0),
{
    let m = start(c);
    assert forall|x: int, y: int| 0 <= x < c.n() && 0 <= y < c.n() implies #[trigger] margin(
        c,
        m.lx,
        m.ly,
        x,
        y,
    ) >= 0 by {
        lemma_row_max(c, x, (c.n() - 1) as nat);
        assert(row_max(c, x, (c.n() - 1) as nat) >= weight(c, x, y));
    }
    assert forall|x: int| 0 <= x < c.n() implies (#[trigger] m.lx[x]) <= exact_cost_limit() by {
        lemma_row_max(c, x, (c.n() - 1) as nat);
    }
}

proof fn lemma_seed(c: Problem, m: Matching, root: int, time: Seq<int>)
    requires
        c.within(exact_cost_limit()),
        sound(c, m, root),
        0 <= root < c.n(),
        time.len() == c.n(),
    ensures
        growing(c, m, root, seed(c, m, root), time, 0),
        outside(seed(c, m, root).parent) <= c.n(),
{
    lemma_outside_at_most(seed(c, m, root).parent);
}

/// There is a column to attach next.
proof fn lemma_next_column(t: Tree, y: int)
    requires
        0 <= y < t.parent.len(),
        t.parent[y] is None,
        t.slack.len() == t.parent.len(),
    ensures
        tightest(t, next_column(t)),
        forall|col: int| #[trigger] tightest(t, col) ==> col == next_column(t),
{
    let k = lemma_least(t, t.parent.len(), y);
    assert(tightest(t, k));
}

/// The first least slack among the columns below `k` outside the tree.
proof fn lemma_least(t: Tree, k: nat, y: int) -> (col: int)
    requires
        0 <= y < k <= t.parent.len(),
        t.parent[y] is None,
    ensures
        0 <= col < k,
        t.parent[col] is None,
        forall|z: int|
            0 <= z < k && (#[trigger] t.parent[z]) is None ==> t.slack[col] <= t.slack[z] && (z
                < col ==> t.slack[col] < t.slack[z]),
    decreases k,
{
    if exists|z: int| 0 <= z < k - 1 && (#[trigger] t.parent[z]) is None {
        let z = choose|z: int| 0 <= z < k - 1 && (#[trigger] t.parent[z]) is None;
        let col = lemma_least(t, (k - 1) as nat, z);
        if t.parent[k - 1] is None && t.slack[k - 1] < t.slack[col] {
            k - 1
        } else {
            col
        }
    } else {
        assert(y == k - 1);
        y
    }
}

/// While a row is unmatched, some column can be attached.
proof fn lemma_can_attach(
    c: Problem,
    m: Matching,
    root: int,
    t: Tree,
    time: Seq<int>,
    now: int,
)
    requires
        growing(c, m, root, t, time, now),
    ensures
        tightest(t, next_column(t)),
        forall|col: int| #[trigger] tightest(t, col) ==> col == next_column(t),
        outside(t.parent) >= 1,
        t.slack[next_column(t)] >= 0,
{
    let free = lemma_free_column(m.xy, m.yx, c.n(), root);
    assert(t.parent[free] is None);
    lemma_next_column(t, free);
    let col = next_column(t);
    lemma_outside_step(t.parent, col, 0);
    assert(t.parent[col] is None);
    assert(margin(c, t.lx, t.ly, t.slack_row[col] as int, col) >= 0);
}

/// Bounds on every quantity that the search computes.
proof fn lemma_label_bounds(
    c: Problem,
    m: Matching,
    root: int,
    lx: Seq<int>,
    ly: Seq<int>,
    x: int,
    y: int,
)
    requires
        c.within(exact_cost_limit()),
        paired(m.xy, m.yx, c.n()),
        0 <= root < c.n(),
        m.xy[root] is None,
        feasible(c, m.yx, lx, ly),
        forall|r: int|
            0 <= r < c.n() && (#[trigger] m.xy[r]) is Some ==> margin(
                c,
                lx,
                ly,
                r,
                m.xy[r].unwrap() as int,
            ) == 0,
        0 <= x < c.n(),
        0 <= y < c.n(),
    ensures
        -exact_cost_limit() <= lx[x] <= exact_cost_limit(),
        0 <= ly[y] <= 2 * exact_cost_limit(),
        0 <= margin(c, lx, ly, x, y) <= 4 * exact_cost_limit(),
{
    let free = lemma_free_column(m.xy, m.yx, c.n(), root);
    assert(ly[free] == 0);
    assert forall|r: int| 0 <= r < c.n() implies lx[r] >= -exact_cost_limit() by {
        assert(margin(c, lx, ly, r, free) >= 0);
        assert(-exact_cost_limit() <= c.at(r, free) <= exact_cost_limit());
    }
    assert(lx[x] >= -exact_cost_limit());
    assert(ly[y] <= 2 * exact_cost_limit()) by {
        if m.yx[y] is Some {
            let r = m.yx[y].unwrap() as int;
            assert(m.xy[r] is Some);
            assert(margin(c, lx, ly, r, y) == 0);
            assert(-exact_cost_limit() <= c.at(r, y) <= exact_cost_limit());
            assert(lx[r] >= -exact_cost_limit());
        } else {
            assert(ly[y] == 0);
        }
    }
    assert(ly[y] >= 0);
    assert(margin(c, lx, ly, x, y) >= 0);
    assert(-exact_cost_limit() <= c.at(x, y) <= exact_cost_limit());
}

#[verifier::rlimit(40)]
proof fn lemma_attach(
    c: Problem,
    m: Matching,
    root: int,
    t: Tree,
    time: Seq<int>,
    now: int,
)
    requires
        growing(c, m, root, t, time, now),
    ensures
        alternating(
            c,
            m,
            root,
            attach(t, next_column(t)),
            time.update(next_column(t), now),
            now + 1,
            next_column(t),
        ),
        outside(attach(t, next_column(t)).parent) == outside(t.parent) - 1,
{
    lemma_can_attach(c, m, root, t, time, now);
    let col = next_column(t);
    let delta = t.slack[col];
    let u = attach(t, col);
    let time2 = time.update(col, now);
    lemma_outside_step(t.parent, col, t.slack_row[col]);
    assert(t.parent[col] is None);
    assert forall|x: int, y: int| 0 <= x < c.n() && 0 <= y < c.n() implies #[trigger] margin(
        c,
        u.lx,
        u.ly,
        x,
        y,
    ) >= 0 && (t.parent[y] is None && t.in_tree[x] ==> margin(c, u.lx, u.ly, x, y) == margin(
        c,
        t.lx,
        t.ly,
        x,
        y,
    ) - delta) && (t.parent[y] is Some && t.in_tree[x] ==> margin(c, u.lx, u.ly, x, y) == margin(
        c,
        t.lx,
        t.ly,
        x,
        y,
    )) && (t.parent[y] is None && !t.in_tree[x] ==> margin(c, u.lx, u.ly, x, y) == margin(
        c,
        t.lx,
        t.ly,
        x,
        y,
    )) by {
        assert(margin(c, t.lx, t.ly, x, y) >= 0);
        if t.parent[y] is None {
            assert(t.slack[col] <= t.slack[y]);
        }
    }
    assert forall|x: int| 0 <= x < c.n() && (#[trigger] m.xy[x]) is Some implies margin(
        c,
        u.lx,
        u.ly,
        x,
        m.xy[x].unwrap() as int,
    ) == 0 by {
        let y = m.xy[x].unwrap() as int;
        assert(margin(c, t.lx, t.ly, x, y) == 0);
        if t.in_tree[x] {
            assert(x != root);
            assert(t.parent[y] is Some);
        } else {
            if t.parent[y] is Some {
                assert(m.yx[y] is Some);
                assert(t.in_tree[m.yx[y].unwrap() as int]);
            }
        }
    }
    assert forall|y: int| 0 <= y < c.n() && (#[trigger] u.parent[y]) is Some implies {
        let x = u.parent[y].unwrap() as int;
        &&& x < c.n()
        &&& u.in_tree[x]
        &&& margin(c, u.lx, u.ly, x, y) == 0
        &&& 0 <= time2[y] < now + 1
        &&& x != root ==> time2[m.xy[x].unwrap() as int] < time2[y]
    } by {
        let x = u.parent[y].unwrap() as int;
        if y == col {
            assert(x == t.slack_row[col]);
            assert(margin(c, t.lx, t.ly, x, y) == delta);
            if x != root {
                let z = m.xy[x].unwrap() as int;
                assert(t.parent[z] is Some);
                assert(time[z] < now);
            }
        } else {
            assert(t.parent[y] is Some);
            if x != root {
                let z = m.xy[x].unwrap() as int;
                assert(t.parent[z] is Some);
                assert(z != col);
            }
        }
    }
    assert forall|x: int| 0 <= x < c.n() && x != root && #[trigger] u.in_tree[x] implies m.xy[x]
        is Some && u.parent[m.xy[x].unwrap() as int] is Some && m.xy[x].unwrap() != col by {
        assert(t.in_tree[x]);
    }
    assert forall|y: int| 0 <= y < c.n() && y != col && (#[trigger] u.parent[y]) is Some implies
        m.yx[y] is Some && u.in_tree[m.yx[y].unwrap() as int] by {
        assert(t.parent[y] is Some);
    }
    assert forall|y: int| 0 <= y < c.n() implies (#[trigger] u.ly[y]) >= 0 && (m.yx[y] is None
        ==> u.ly[y] == 0) by {
        assert(t.ly[y] >= 0);
        if t.parent[y] is Some {
            assert(m.yx[y] is Some);
        }
    }
    assert forall|x: int| 0 <= x < c.n() implies (#[trigger] u.lx[x]) <= exact_cost_limit() by {
        assert(t.lx[x] <= exact_cost_limit());
    }
    assert forall|y: int| 0 <= y < c.n() && (#[trigger] u.parent[y]) is None implies {
        let x = u.slack_row[y] as int;
        &&& x < c.n()
        &&& u.in_tree[x]
        &&& u.slack[y] == margin(c, u.lx, u.ly, x, y)
    } by {
        assert(t.parent[y] is None);
    }
    assert forall|x: int, y: int|
        0 <= y < c.n() && u.parent[y] is None && 0 <= x < c.n() && u.in_tree[x] implies u.slack[y]
        <= #[trigger] margin(c, u.lx, u.ly, x, y) by {
        assert(t.parent[y] is None);
        assert(t.slack[y] <= margin(c, t.lx, t.ly, x, y));
    }
}

proof fn lemma_absorb(
    c: Problem,
    m: Matching,
    root: int,
    t: Tree,
    time: Seq<int>,
    now: int,
    col: int,
)
    requires
        c.within(exact_cost_limit()),
        sound(c, m, root),
        0 <= root < c.n(),
        now >= 0,
        0 <= col < c.n(),
        alternating(c, m, root, t, time, now, col),
        t.parent[col] is Some,
        m.yx[col] is Some,
    ensures
        growing(c, m, root, absorb(c, t, m.yx[col].unwrap() as int), time, now),
{
    let row = m.yx[col].unwrap() as int;
    let u = absorb(c, t, row);
    assert(m.xy[row] == Some(col as usize));
    assert forall|x: int, y: int|
        0 <= y < c.n() && u.parent[y] is None && 0 <= x < c.n() && u.in_tree[x] implies u.slack[y]
        <= #[trigger] margin(c, u.lx, u.ly, x, y) by {
        assert(t.parent[y] is None);
        if x != row {
            assert(t.in_tree[x]);
            assert(t.slack[y] <= margin(c, t.lx, t.ly, x, y));
        }
    }
    assert forall|y: int| 0 <= y < c.n() && (#[trigger] u.parent[y]) is None implies {
        let x = u.slack_row[y] as int;
        &&& x < c.n()
        &&& u.in_tree[x]
        &&& u.slack[y] == margin(c, u.lx, u.ly, x, y)
    } by {
        assert(t.parent[y] is None);
    }
    assert forall|x: int| 0 <= x < c.n() && x != root && #[trigger] u.in_tree[x] implies m.xy[x]
        is Some && u.parent[m.xy[x].unwrap() as int] is Some && m.xy[x].unwrap() != -1 by {
        if x != row {
            assert(t.in_tree[x]);
        }
    }
    assert forall|y: int| 0 <= y < c.n() && y != -1 && (#[trigger] u.parent[y]) is Some implies
        m.yx[y] is Some && u.in_tree[m.yx[y].unwrap() as int] by {
        if y != col {
            assert(t.parent[y] is Some);
        }
    }
    assert forall|y: int| 0 <= y < c.n() && (#[trigger] u.parent[y]) is Some implies {
        let x = u.parent[y].unwrap() as int;
        &&& x < c.n()
        &&& u.in_tree[x]
        &&& margin(c, u.lx, u.ly, x, y) == 0
        &&& 0 <= time[y] < now
        &&& x != root ==> time[m.xy[x].unwrap() as int] < time[y]
    } by {
        assert(t.parent[y] is Some);
    }
}

/// Flipping the path from `cur` has so far kept the pairs apart from `cur`
/// consistent and every pair on a matched or tree edge; rows nearer to the
/// root than `cur` are untouched.
pub open spec fn flipping(
    m: Matching,
    root: int,
    t: Tree,
    time: Seq<int>,
    xy: Seq<Option<usize>>,
    yx: Seq<Option<usize>>,
    cur: int,
    n: nat,
) -> bool {
    &&& n <= usize::MAX
    &&& xy.len() == n
    &&& yx.len() == n
    &&& 0 <= cur < n
    &&& t.parent[cur] is Some
    &&& forall|x: int|
        0 <= x < n && (#[trigger] xy[x]) is Some ==> xy[x].unwrap() < n && xy[x].unwrap() != cur
            && yx[xy[x].unwrap() as int] == Some(x as usize)
    &&& forall|y: int|
        0 <= y < n && y != cur && (#[trigger] yx[y]) is Some ==> yx[y].unwrap() < n
            && xy[yx[y].unwrap() as int] == Some(y as usize)
    &&& forall|x: int| 0 <= x < n ==> ((#[trigger] xy[x]) is Some <==> x < root)
    &&& forall|y: int| 0 <= y < n && m.yx[y] is Some ==> (#[trigger] yx[y]) is Some
    &&& forall|x: int|
        0 <= x < n && (#[trigger] xy[x]) is Some ==> xy[x] == m.xy[x]
            || t.parent[xy[x].unwrap() as int] == Some(x as usize)
    &&& forall|x: int|
        0 <= x < n && x < root && time[m.xy[x].unwrap() as int] < time[cur]
            && t.parent[m.xy[x].unwrap() as int] is Some ==> #[trigger] xy[x] == m.xy[x]
}

/// One step along the path: it goes on nearer to the root, or it is complete.
proof fn lemma_flip_step(
    c: Problem,
    m: Matching,
    root: int,
    t: Tree,
    time: Seq<int>,
    now: int,
    last: int,
    xy: Seq<Option<usize>>,
    yx: Seq<Option<usize>>,
    cur: int,
)
    requires
        sound(c, m, root),
        0 <= root < c.n(),
        alternating(c, m, root, t, time, now, last),
        flipping(m, root, t, time, xy, yx, cur, c.n()),
    ensures
        t.parent[cur].unwrap() < c.n(),
        ({
            let x = t.parent[cur].unwrap() as int;
            let xy2 = xy.update(x, Some(cur as usize));
            let yx2 = yx.update(cur, Some(x as usize));
            match xy[x] {
                Some(p) => flipping(m, root, t, time, xy2, yx2, p as int, c.n()) && 0
                    <= time[p as int] < time[cur],
                None => sound(c, Matching { xy: xy2, yx: yx2, lx: t.lx, ly: t.ly }, root + 1),
            }
        }),
{
    let n = c.n();
    let x = t.parent[cur].unwrap() as int;
    let xy2 = xy.update(x, Some(cur as usize));
    let yx2 = yx.update(cur, Some(x as usize));
    if x != root {
        assert(t.in_tree[x]);
        assert(m.xy[x] is Some);
        let p = m.xy[x].unwrap() as int;
        assert(t.parent[p] is Some);
        assert(time[p] < time[cur]);
        assert(xy[x] == m.xy[x]);
        assert(p != cur);
        assert forall|z: int| 0 <= z < n && (#[trigger] xy2[z]) is Some implies xy2[z].unwrap() < n
            && xy2[z].unwrap() != p && yx2[xy2[z].unwrap() as int] == Some(z as usize) by {
            if z != x {
                assert(xy[z] is Some);
                if xy[z].unwrap() == p {
                    assert(yx[p] == Some(z as usize));
                    assert(yx[p] == Some(x as usize));
                }
            }
        }
        assert forall|y: int| 0 <= y < n && y != p && (#[trigger] yx2[y]) is Some implies
            yx2[y].unwrap() < n && xy2[yx2[y].unwrap() as int] == Some(y as usize) by {
            if y != cur {
                assert(yx[y] is Some);
            }
        }
        assert forall|z: int|
            0 <= z < n && z < root && time[m.xy[z].unwrap() as int] < time[p]
                && t.parent[m.xy[z].unwrap() as int] is Some implies #[trigger] xy2[z]
            == m.xy[z] by {
            assert(z != x);
            assert(xy[z] == m.xy[z]);
        }
        assert(flipping(m, root, t, time, xy2, yx2, p, n));
    } else {
        let done = Matching { xy: xy2, yx: yx2, lx: t.lx, ly: t.ly };
        assert(xy[x] is None);
        assert forall|z: int| 0 <= z < n && (#[trigger] xy2[z]) is Some implies xy2[z].unwrap() < n
            && yx2[xy2[z].unwrap() as int] == Some(z as usize) by {
            if z != x {
                assert(xy[z] is Some);
            }
        }
        assert forall|y: int| 0 <= y < n && (#[trigger] yx2[y]) is Some implies yx2[y].unwrap() < n
            && xy2[yx2[y].unwrap() as int] == Some(y as usize) by {
            if y != cur {
                assert(yx[y] is Some);
            }
        }
        assert forall|z: int| 0 <= z < root + 1 implies margin(
            c,
            t.lx,
            t.ly,
            z,
            (#[trigger] xy2[z]).unwrap() as int,
        ) == 0 by {
            let y = xy2[z].unwrap() as int;
            if z != x {
                assert(xy[z] is Some);
                if xy[z] == m.xy[z] {
                    assert(m.xy[z] is Some);
                } else {
                    assert(t.parent[y] == Some(z as usize));
                }
            }
        }
        assert forall|y: int| 0 <= y < n implies (#[trigger] t.ly[y]) >= 0 && (yx2[y] is None
            ==> t.ly[y] == 0) by {
            if yx2[y] is None {
                assert(yx[y] is None);
                assert(m.yx[y] is None);
            }
        }
        assert(sound(c, done, root + 1));
    }
}

proof fn lemma_flip_start(
    c: Problem,
    m: Matching,
    root: int,
    t: Tree,
    time: Seq<int>,
    now: int,
    col: int,
)
    requires
        sound(c, m, root),
        0 <= root < c.n(),
        0 <= col < c.n(),
        alternating(c, m, root, t, time, now, col),
        t.parent[col] is Some,
        m.yx[col] is None,
    ensures
        flipping(m, root, t, time, m.xy, m.yx, col, c.n()),
{
    assert forall|x: int| 0 <= x < c.n() && (#[trigger] m.xy[x]) is Some implies m.xy[x].unwrap()
        != col by {
        assert(m.yx[m.xy[x].unwrap() as int] == Some(x as usize));
    }
}

/// What growing the tree ends in: an unmatched column with a path to the root.
pub open spec fn reached(
    c: Problem,
    m: Matching,
    root: int,
    t: Tree,
    time: Seq<int>,
    now: int,
    col: int,
) -> bool {
    &&& sound(c, m, root)
    &&& 0 <= root < c.n()
    &&& 0 <= col < c.n()
    &&& alternating(c, m, root, t, time, now, col)
    &&& now <= c.n()
    &&& t.parent[col] is Some
    &&& m.yx[col] is None
}

proof fn lemma_grow(
    c: Problem,
    m: Matching,
    root: int,
    t: Tree,
    time: Seq<int>,
    now: int,
    fuel: nat,
) -> (r: (Seq<int>, int))
    requires
        growing(c, m, root, t, time, now),
        outside(t.parent) <= fuel,
        now + outside(t.parent) <= c.n(),
    ensures
        ({
            let (u, col) = grow(c, m.yx, t, fuel);
            reached(c, m, root, u, r.0, r.1, col as int)
        }),
    decreases fuel,
{
    lemma_can_attach(c, m, root, t, time, now);
    lemma_attach(c, m, root, t, time, now);
    let col = next_column(t);
    let u = attach(t, col);
    let time2 = time.update(col, now);
    match m.yx[col] {
        Some(row) => {
            lemma_absorb(c, m, root, u, time2, now + 1, col);
            lemma_grow(c, m, root, absorb(c, u, row as int), time2, now + 1, (fuel - 1) as nat)
        },
        None => {
            assert((col as usize) as int == col);
            (time2, now + 1)
        },
    }
}

proof fn lemma_flip(
    c: Problem,
    m: Matching,
    root: int,
    t: Tree,
    time: Seq<int>,
    now: int,
    last: int,
    xy: Seq<Option<usize>>,
    yx: Seq<Option<usize>>,
    cur: usize,
    fuel: nat,
)
    requires
        sound(c, m, root),
        0 <= root < c.n(),
        alternating(c, m, root, t, time, now, last),
        flipping(m, root, t, time, xy, yx, cur as int, c.n()),
        time[cur as int] < fuel,
    ensures
        ({
            let (xy2, yx2) = flip(t.parent, xy, yx, cur, fuel);
            sound(c, Matching { xy: xy2, yx: yx2, lx: t.lx, ly: t.ly }, root + 1)
        }),
    decreases fuel,
{
    lemma_flip_step(c, m, root, t, time, now, last, xy, yx, cur as int);
    assert(time[cur as int] >= 0);
    let x = t.parent[cur as int].unwrap();
    let xy2 = xy.update(x as int, Some(cur));
    let yx2 = yx.update(cur as int, Some(x));
    match xy[x as int] {
        Some(p) => lemma_flip(c, m, root, t, time, now, last, xy2, yx2, p, (fuel - 1) as nat),
        None => {},
    }
}

proof fn lemma_add_row(c: Problem, m: Matching, root: int)
    requires
        c.within(exact_cost_limit()),
        sound(c, m, root),
        0 <= root < c.n(),
    ensures
        sound(c, add_row(c, m, root), root + 1),
{
    let time = Seq::new(c.n(), |y: int| 0int);
    lemma_seed(c, m, root, time);
    let s = seed(c, m, root);
    let (time2, now) = lemma_grow(c, m, root, s, time, 0, c.n());
    let (t, col) = grow(c, m.yx, s, c.n());
    lemma_flip_start(c, m, root, t, time2, now, col as int);
    assert(t.parent[col as int] is Some);
    lemma_flip(c, m, root, t, time2, now, col as int, m.xy, m.yx, col, c.n());
}

/// The rows matched so far are soundly matched.
pub proof fn lemma_matched_rows(c: Problem, rows: nat)
    requires
        c.within(exact_cost_limit()),
        c.n() <= usize::MAX,
        rows <= c.n(),
    ensures
        sound(c, matched_rows(c, rows), rows as int),
    decreases rows,
{
    if rows == 0 {
        lemma_start(c);
    } else {
        lemma_matched_rows(c, (rows - 1) as nat);
        lemma_add_row(c, matched_rows(c, (rows - 1) as nat), rows - 1);
    }
}

/// Feasible labels with tight pairs certify a complete matching as optimal.
proof fn lemma_certificate(c: Problem, m: Matching, a: Seq<usize>)
    requires
        sound(c, m, c.n() as int),
        a == Seq::new(c.n(), |x: int| m.xy[x].unwrap()),
    ensures
        optimal(c, a),
{
    let n = c.n();
    assert forall|i: int| 0 <= i < n implies (#[trigger] a[i]) < n by {
        assert(m.xy[i] is Some);
    }
    assert forall|i: int, j: int| 0 <= i < j < n implies a[i] != a[j] by {
        assert(m.xy[i] is Some && m.xy[j] is Some);
    }
    let fx = |x: int| m.lx[x];
    let fy = |y: int| m.ly[y];
    let bound = perm::sum_to(fx, n) + perm::sum_to(fy, n);
    assert forall|p: Seq<usize>| #[trigger] perm::is_perm(p, n) implies cost::total(c, p)
        >= -bound && (p == a ==> cost::total(c, p) == -bound) by {
        let permuted = |x: int| fy(p[x] as int);
        let labels = |x: int| fx(x) + permuted(x);
        let costs = |x: int| c.at(x, p[x] as int);
        let negated = |x: int| -labels(x);
        perm::lemma_sum_permuted(fy, p, n);
        perm::lemma_sum_plus(fx, permuted, n);
        perm::lemma_sum_plus(labels, negated, n);
        let zero = |x: int| labels(x) + negated(x);
        perm::lemma_sum_bound(zero, n, 0);
        assert(n * 0 == 0) by (nonlinear_arith);
        assert(perm::sum_to(negated, n) == -bound);
        assert forall|x: int| 0 <= x < n implies #[trigger] negated(x) <= costs(x) by {
            assert(p[x] < n);
            assert(margin(c, m.lx, m.ly, x, p[x] as int) >= 0);
        }
        perm::lemma_sum_le(negated, costs, n);
        if p == a {
            assert forall|x: int| 0 <= x < n implies #[trigger] negated(x) == costs(x) by {
                assert(m.xy[x] is Some);
                assert(margin(c, m.lx, m.ly, x, m.xy[x].unwrap() as int) == 0);
            }
            perm::lemma_sum_ext(negated, costs, n);
        }
    }
    assert(perm::is_perm(a, n));
    assert(cost::total(c, a) == -bound);
}

/// The exact solver's assignment is a permutation, and none is cheaper.
pub proof fn lemma_exact_is_optimal(c: Problem)
    requires
        c.within(exact_cost_limit()),
        c.n() <= usize::MAX,
    ensures
        optimal(c, exact_assignment(c)),
{
    lemma_matched_rows(c, c.n());
    lemma_certificate(c, matched_rows(c, c.n()), exact_assignment(c));
}

/// The exact solver is as cheap as exhaustive search, wherever saturating totals
/// tell the cheapest assignment.
pub proof fn lemma_exact_matches_exhaustive(c: Problem, oracle: Seq<usize>)
    requires
        c.within(exact_cost_limit()),
        c.n() <= usize::MAX,
        cost::totals_tell(c),
        cost::first_optimum(c, oracle),
    ensures
        perm::is_perm(exact_assignment(c), c.n()),
        perm::is_perm(oracle, c.n()),
        cost::total(c, oracle) == cost::total(c, exact_assignment(c)),
        cost::saturated_total(c, oracle, oracle.len()) == cost::saturated_total(
            c,
            exact_assignment(c),
            c.n(),
        ),
{
    lemma_exact_is_optimal(c);
    let a = exact_assignment(c);
    let n = c.n();
    assert(cost::full_assignment(c, a));
    cost::lemma_totals_tell(c, a, n);
    assert(cost::partial_total(c, a, n) == cost::total(c, a));
    assert(cost::total(c, a) < i64::MAX) by {
        if exists|w: Seq<usize>| #[trigger]
            cost::full_assignment(c, w) && cost::total(c, w) < i64::MAX {
            let w = choose|w: Seq<usize>| #[trigger]
                cost::full_assignment(c, w) && cost::total(c, w) < i64::MAX;
            assert(perm::is_perm(w, n));
        } else {
            assert(cost::partial_total(c, a, n) < i64::MAX);
        }
    }
    assert(cost::full_assignment(c, oracle));
    assert(perm::is_perm(oracle, n));
    cost::lemma_totals_tell(c, oracle, n);
    assert(cost::partial_total(c, oracle, n) == cost::total(c, oracle));
}

/// The integers of `s`.
pub open spec fn ints(s: Seq<i64>) -> Seq<int> {
    Seq::new(s.len(), |i: int| s[i] as int)
}

/// The matching that the exact solver extends by one row at a time.
pub struct Matcher {
    pub xy: Vec<Option<usize>>,
    pub yx: Vec<Option<usize>>,
    pub lx: Vec<i64>,
    pub ly: Vec<i64>,
}

/// The first column outside the tree with the least slack.
fn find_column(parent: &Vec<Option<usize>>, slack: &Vec<i64>, Ghost(t): Ghost<Tree>) -> (col: usize)
    requires
        parent@ == t.parent,
        ints(slack@) == t.slack,
        t.slack.len() == t.parent.len(),
        exists|y: int| 0 <= y < t.parent.len() && (#[trigger] t.parent[y]) is None,
    ensures
        tightest(t, col as int),
{
    let n: usize = parent.len();
    let mut best: usize = n;
    let mut y: usize = 0;
    while y < n
        invariant
            n == parent@.len(),
            parent@ == t.parent,
            ints(slack@) == t.slack,
            t.slack.len() == t.parent.len(),
            y <= n,
            best == n || best < y,
            best == n ==> forall|z: int| 0 <= z < y ==> (#[trigger] t.parent[z]) is Some,
            best < n ==> t.parent[best as int] is None && forall|z: int|
                0 <= z < y && (#[trigger] t.parent[z]) is None ==> t.slack[best as int]
                    <= t.slack[z] && (z < best ==> t.slack[best as int] < t.slack[z]),
        decreases n - y,
    {
        proof {
            assert(t.slack[y as int] == slack@[y as int]);
            if best < n {
                assert(t.slack[best as int] == slack@[best as int]);
            }
        }
        if parent[y].is_none() && (best == n || slack[y] < slack[best]) {
            best = y;
        }
        y += 1;
    }
    best
}

impl Matcher {
    pub open spec fn matching(&self) -> Matching {
        Matching { xy: self.xy@, yx: self.yx@, lx: ints(self.lx@), ly: ints(self.ly@) }
    }

    /// The empty matching of `cost`.
    pub fn new(cost: &CostLookup) -> (r: Self)
        requires
            cost@.within(exact_cost_limit()),
        ensures
            r.matching() == matched_rows(cost@, 0),
    {
        let n: usize = cost.n_dst();
        let mut lx: Vec<i64> = Vec::with_capacity(n);
        let mut x: usize = 0;
        while x < n
            invariant
                n == cost@.n(),
                x <= n,
                cost@.within(exact_cost_limit()),
                lx@.len() == x,
                forall|k: int|
                    0 <= k < x ==> (#[trigger] lx@[k]) == row_max(cost@, k, (n - 1) as nat),
            decreases n - x,
        {
            let mut max: i64 = 0;
            let mut y: usize = 0;
            while y < n
                invariant
                    n == cost@.n(),
                    x < n,
                    y <= n,
                    cost@.within(exact_cost_limit()),
                    y > 0 ==> max == row_max(cost@, x as int, (y - 1) as nat),
                decreases n - y,
            {
                proof {
                    assert(-exact_cost_limit() <= cost@.at(x as int, y as int)
                        <= exact_cost_limit());
                }
                let w: i64 = -cost.cost(x, y);
                if y == 0 || w >= max {
                    max = w;
                }
                y += 1;
            }
            lx.push(max);
            x += 1;
        }
        let r = Matcher { xy: vec![None; n], yx: vec![None; n], lx, ly: vec![0; n] };
        proof {
            assert(r.matching() =~= start(cost@));
        }
        r
    }

    /// Adds the row `root` to a matching of the rows before it.
    pub fn add_root(&mut self, cost: &CostLookup, root: usize)
        requires
            cost@.within(exact_cost_limit()),
            root < cost@.n(),
            old(self).matching() == matched_rows(cost@, root as nat),
        ensures
            final(self).matching() == matched_rows(cost@, (root + 1) as nat),
    {
        let n: usize = cost.n_dst();
        let ghost m = self.matching();
        proof {
            lemma_matched_rows(cost@, root as nat);
        }
        let mut in_tree: Vec<bool> = vec![false; n];
        in_tree.set(root, true);
        let mut parent: Vec<Option<usize>> = vec![None; n];
        let mut slack: Vec<i64> = Vec::with_capacity(n);
        let mut slack_row: Vec<usize> = vec![root; n];
        let mut y: usize = 0;
        while y < n
            invariant
                n == cost@.n(),
                root < n,
                y <= n,
                cost@.within(exact_cost_limit()),
                m == self.matching(),
                sound(cost@, m, root as int),
                slack@.len() == y,
                forall|k: int|
                    0 <= k < y ==> (#[trigger] slack@[k]) == margin(
                        cost@,
                        m.lx,
                        m.ly,
                        root as int,
                        k,
                    ),
            decreases n - y,
        {
            proof {
                lemma_label_bounds(cost@, m, root as int, m.lx, m.ly, root as int, y as int);
                assert(m.lx[root as int] == self.lx@[root as int]);
                assert(m.ly[y as int] == self.ly@[y as int]);
                assert(-exact_cost_limit() <= cost@.at(root as int, y as int)
                    <= exact_cost_limit());
            }
            slack.push(self.lx[root] + self.ly[y] + cost.cost(root, y));
            y += 1;
        }
        let ghost mut t = seed(cost@, m, root as int);
        let ghost mut time: Seq<int> = Seq::new(cost@.n(), |i: int| 0int);
        let ghost mut now: int = 0;
        let ghost mut fuel: nat = cost@.n();
        let ghost goal = grow(cost@, m.yx, t, fuel);
        proof {
            lemma_seed(cost@, m, root as int, time);
            assert(in_tree@ =~= t.in_tree);
            assert(parent@ =~= t.parent);
            assert(ints(slack@) =~= t.slack);
            assert(slack_row@ =~= t.slack_row);
        }
        let mut col: usize = 0;
        let mut found = false;
        while !found
            invariant
                n == cost@.n(),
                root < n,
                cost@.within(exact_cost_limit()),
                self.xy@ == m.xy,
                self.yx@ == m.yx,
                ints(self.lx@) == t.lx,
                ints(self.ly@) == t.ly,
                in_tree@ == t.in_tree,
                parent@ == t.parent,
                sound(cost@, m, root as int),
                goal == grow(cost@, m.yx, seed(cost@, m, root as int), cost@.n()),
                !found ==> {
                    &&& ints(slack@) == t.slack
                    &&& slack_row@ == t.slack_row
                    &&& growing(cost@, m, root as int, t, time, now)
                    &&& outside(t.parent) <= fuel
                    &&& now + outside(t.parent) <= n
                    &&& goal == grow(cost@, m.yx, t, fuel)
                },
                found ==> {
                    &&& goal == (t, col)
                    &&& reached(cost@, m, root as int, t, time, now, col as int)
                },
            decreases
                    if found {
                        0
                    } else {
                        fuel + 1
                    },
        {
            proof {
                lemma_can_attach(cost@, m, root as int, t, time, now);
                let c0 = next_column(t);
                assert(t.parent[c0] is None);
            }
            col = find_column(&parent, &slack, Ghost(t));
            assert(col == next_column(t));
            let delta: i64 = slack[col];
            let row: usize = slack_row[col];
            let ghost u = attach(t, col as int);
            proof {
                assert(t.slack[col as int] == delta);
            }
            self.shift_labels(
                cost,
                &in_tree,
                &parent,
                &mut slack,
                delta,
                col,
                root,
                Ghost(m),
                Ghost(t),
                Ghost(time),
                Ghost(now),
            );
            proof {
                lemma_attach(cost@, m, root as int, t, time, now);
                time = time.update(col as int, now);
                now = now + 1;
            }
            parent.set(col, Some(row));
            match self.yx[col] {
                None => {
                    found = true;
                    proof {
                        assert((col as int) as usize == col);
                        t = u;
                    }
                },
                Some(next) => {
                    in_tree.set(next, true);
                    self.lower_slacks(
                        cost,
                        &parent,
                        &mut slack,
                        &mut slack_row,
                        next,
                        root,
                        Ghost(m),
                        Ghost(u),
                    );
                    proof {
                        lemma_absorb(cost@, m, root as int, u, time, now, col as int);
                        t = absorb(cost@, u, next as int);
                        fuel = (fuel - 1) as nat;
                    }
                },
            }
        }
        proof {
            lemma_flip_start(cost@, m, root as int, t, time, now, col as int);
            assert(t.parent[col as int] is Some);
        }
        self.flip_path(cost, &parent, col, root, Ghost(m), Ghost(t), Ghost(time), Ghost(now));
    }
}

impl Matcher {
    /// Moves the labels of the tree, and the slacks outside it, by `delta`.
    fn shift_labels(
        &mut self,
        cost: &CostLookup,
        in_tree: &Vec<bool>,
        parent: &Vec<Option<usize>>,
        slack: &mut Vec<i64>,
        delta: i64,
        col: usize,
        root: usize,
        Ghost(m): Ghost<Matching>,
        Ghost(t): Ghost<Tree>,
        Ghost(time): Ghost<Seq<int>>,
        Ghost(now): Ghost<int>,
    )
        requires
            growing(cost@, m, root as int, t, time, now),
            tightest(t, col as int),
            delta == t.slack[col as int],
            in_tree@ == t.in_tree,
            parent@ == t.parent,
            ints(old(slack)@) == t.slack,
            ints(old(self).lx@) == t.lx,
            ints(old(self).ly@) == t.ly,
        ensures
            final(self).xy == old(self).xy,
            final(self).yx == old(self).yx,
            ints(final(self).lx@) == attach(t, col as int).lx,
            ints(final(self).ly@) == attach(t, col as int).ly,
            ints(final(slack)@) == attach(t, col as int).slack,
    {
        let n: usize = cost.n_dst();
        let ghost u = attach(t, col as int);
        let ghost lx0 = self.lx@;
        let ghost ly0 = self.ly@;
        let ghost slack0 = slack@;
        proof {
            lemma_can_attach(cost@, m, root as int, t, time, now);
            lemma_attach(cost@, m, root as int, t, time, now);
            assert forall|x: int| 0 <= x < n implies t.lx[x] == #[trigger] lx0[x] by {
                assert(t.lx[x] == ints(lx0)[x]);
            }
            assert forall|y: int| 0 <= y < n implies t.ly[y] == #[trigger] ly0[y] by {
                assert(t.ly[y] == ints(ly0)[y]);
            }
            assert forall|y: int| 0 <= y < n implies t.slack[y] == #[trigger] slack0[y] by {
                assert(t.slack[y] == ints(slack0)[y]);
            }
            assert(t.lx.len() == lx0.len());
            assert(t.ly.len() == ly0.len());
            assert(t.slack.len() == slack0.len());
        }
        if delta > 0 {
            let mut x: usize = 0;
            while x < n
                invariant
                    n == cost@.n(),
                    x <= n,
                    growing(cost@, m, root as int, t, time, now),
                    alternating(
                        cost@,
                        m,
                        root as int,
                        u,
                        time.update(col as int, now),
                        now + 1,
                        col as int,
                    ),
                    u == attach(t, col as int),
                    delta == t.slack[col as int],
                    delta > 0,
                    in_tree@ == t.in_tree,
                    self.xy == old(self).xy,
                    self.yx == old(self).yx,
                    self.ly == old(self).ly,
                    self.lx@.len() == n,
                    forall|k: int|
                        0 <= k < n ==> #[trigger] self.lx@[k] == (if k < x {
                            u.lx[k]
                        } else {
                            t.lx[k]
                        }),
                decreases n - x,
            {
                if in_tree[x] {
                    proof {
                        lemma_label_bounds(cost@, m, root as int, u.lx, u.ly, x as int, 0);
                        assert(u.lx[x as int] == t.lx[x as int] - delta);
                    }
                    let label: i64 = self.lx[x] - delta;
                    self.lx.set(x, label);
                }
                x += 1;
            }
            let ghost lx1 = self.lx;
            let mut y: usize = 0;
            while y < n
                invariant
                    n == cost@.n(),
                    y <= n,
                    growing(cost@, m, root as int, t, time, now),
                    alternating(
                        cost@,
                        m,
                        root as int,
                        u,
                        time.update(col as int, now),
                        now + 1,
                        col as int,
                    ),
                    u == attach(t, col as int),
                    tightest(t, col as int),
                    delta == t.slack[col as int],
                    delta > 0,
                    parent@ == t.parent,
                    self.xy == old(self).xy,
                    self.yx == old(self).yx,
                    self.lx == lx1,
                    self.ly@.len() == n,
                    slack@.len() == n,
                    forall|k: int|
                        0 <= k < n ==> #[trigger] self.ly@[k] == (if k < y {
                            u.ly[k]
                        } else {
                            t.ly[k]
                        }),
                    forall|k: int|
                        0 <= k < n ==> #[trigger] slack@[k] == (if k < y {
                            u.slack[k]
                        } else {
                            t.slack[k]
                        }),
                decreases n - y,
            {
                if parent[y].is_some() {
                    proof {
                        lemma_label_bounds(cost@, m, root as int, u.lx, u.ly, 0, y as int);
                        assert(u.ly[y as int] == t.ly[y as int] + delta);
                    }
                    let label: i64 = self.ly[y] + delta;
                    self.ly.set(y, label);
                } else {
                    assert(t.parent[y as int] is None);
                    let rest: i64 = slack[y] - delta;
                    slack.set(y, rest);
                }
                y += 1;
            }
        }
        proof {
            assert(ints(self.lx@) =~= u.lx);
            assert(ints(self.ly@) =~= u.ly);
            assert(ints(slack@) =~= u.slack);
        }
    }

    /// Lowers the slack of the columns that `row` is closer to.
    fn lower_slacks(
        &self,
        cost: &CostLookup,
        parent: &Vec<Option<usize>>,
        slack: &mut Vec<i64>,
        slack_row: &mut Vec<usize>,
        row: usize,
        root: usize,
        Ghost(m): Ghost<Matching>,
        Ghost(u): Ghost<Tree>,
    )
        requires
            cost@.within(exact_cost_limit()),
            sound(cost@, m, root as int),
            root < cost@.n(),
            row < cost@.n(),
            feasible(cost@, m.yx, u.lx, u.ly),
            forall|r: int|
                0 <= r < cost@.n() && (#[trigger] m.xy[r]) is Some ==> margin(
                    cost@,
                    u.lx,
                    u.ly,
                    r,
                    m.xy[r].unwrap() as int,
                ) == 0,
            parent@ == u.parent,
            u.parent.len() == cost@.n(),
            u.slack.len() == cost@.n(),
            u.slack_row.len() == cost@.n(),
            ints(old(slack)@) == u.slack,
            old(slack_row)@ == u.slack_row,
            ints(self.lx@) == u.lx,
            ints(self.ly@) == u.ly,
        ensures
            ints(final(slack)@) == absorb(cost@, u, row as int).slack,
            final(slack_row)@ == absorb(cost@, u, row as int).slack_row,
    {
        let n: usize = cost.n_dst();
        let ghost v = absorb(cost@, u, row as int);
        let ghost slack0 = slack@;
        proof {
            assert forall|y: int| 0 <= y < n implies u.slack[y] == #[trigger] slack0[y] by {
                assert(u.slack[y] == ints(slack0)[y]);
            }
            assert(u.slack.len() == slack0.len());
        }
        let mut y: usize = 0;
        while y < n
            invariant
                n == cost@.n(),
                y <= n,
                row < n,
                root < n,
                cost@.within(exact_cost_limit()),
                sound(cost@, m, root as int),
                feasible(cost@, m.yx, u.lx, u.ly),
                forall|r: int|
                    0 <= r < cost@.n() && (#[trigger] m.xy[r]) is Some ==> margin(
                        cost@,
                        u.lx,
                        u.ly,
                        r,
                        m.xy[r].unwrap() as int,
                    ) == 0,
                parent@ == u.parent,
                u.parent.len() == n,
                u.slack.len() == n,
                u.slack_row.len() == n,
                v == absorb(cost@, u, row as int),
                ints(self.lx@) == u.lx,
                ints(self.ly@) == u.ly,
                slack@.len() == n,
                slack_row@.len() == n,
                forall|k: int|
                    0 <= k < n ==> #[trigger] slack@[k] == (if k < y {
                        v.slack[k]
                    } else {
                        u.slack[k]
                    }),
                forall|k: int|
                    0 <= k < n ==> #[trigger] slack_row@[k] == (if k < y {
                        v.slack_row[k]
                    } else {
                        u.slack_row[k]
                    }),
            decreases n - y,
        {
            if parent[y].is_none() {
                proof {
                    lemma_label_bounds(cost@, m, root as int, u.lx, u.ly, row as int, y as int);
                    assert(u.lx[row as int] == self.lx@[row as int]);
                    assert(u.ly[y as int] == self.ly@[y as int]);
                    assert(-exact_cost_limit() <= cost@.at(row as int, y as int)
                        <= exact_cost_limit());
                }
                let other: i64 = self.lx[row] + self.ly[y] + cost.cost(row, y);
                if slack[y] > other {
                    slack.set(y, other);
                    slack_row.set(y, row);
                }
            }
            y += 1;
        }
        proof {
            assert(ints(slack@) =~= v.slack);
            assert(slack_row@ =~= v.slack_row);
        }
    }

    /// Matches along the tree path from `col` to `root`.
    fn flip_path(
        &mut self,
        cost: &CostLookup,
        parent: &Vec<Option<usize>>,
        col: usize,
        root: usize,
        Ghost(m): Ghost<Matching>,
        Ghost(t): Ghost<Tree>,
        Ghost(time): Ghost<Seq<int>>,
        Ghost(now): Ghost<int>,
    )
        requires
            reached(cost@, m, root as int, t, time, now, col as int),
            flipping(m, root as int, t, time, m.xy, m.yx, col as int, cost@.n()),
            parent@ == t.parent,
            old(self).xy@ == m.xy,
            old(self).yx@ == m.yx,
        ensures
            final(self).lx == old(self).lx,
            final(self).ly == old(self).ly,
            (final(self).xy@, final(self).yx@) == flip(t.parent, m.xy, m.yx, col, cost@.n()),
    {
        let ghost goal = flip(t.parent, m.xy, m.yx, col, cost@.n());
        let ghost mut fuel: nat = cost@.n();
        let mut cur: usize = col;
        let mut done = false;
        while !done
            invariant
                reached(cost@, m, root as int, t, time, now, col as int),
                parent@ == t.parent,
                self.lx == old(self).lx,
                self.ly == old(self).ly,
                !done ==> {
                    &&& flipping(
                        m,
                        root as int,
                        t,
                        time,
                        self.xy@,
                        self.yx@,
                        cur as int,
                        cost@.n(),
                    )
                    &&& time[cur as int] < fuel
                    &&& goal == flip(t.parent, self.xy@, self.yx@, cur, fuel)
                },
                done ==> goal == (self.xy@, self.yx@),
            decreases
                    if done {
                        0
                    } else {
                        fuel + 1
                    },
        {
            proof {
                lemma_flip_step(
                    cost@,
                    m,
                    root as int,
                    t,
                    time,
                    now,
                    col as int,
                    self.xy@,
                    self.yx@,
                    cur as int,
                );
                assert(t.parent[cur as int] is Some);
                assert(time[cur as int] >= 0);
            }
            let x: usize = parent[cur].unwrap();
            let before = self.xy[x];
            self.yx.set(cur, Some(x));
            self.xy.set(x, Some(cur));
            match before {
                Some(p) => {
                    cur = p;
                    proof {
                        fuel = (fuel - 1) as nat;
                    }
                },
                None => {
                    done = true;
                },
            }
        }
    }

    /// The source of every target, once all rows are matched.
    pub fn assignments(&self, cost: &CostLookup) -> (r: Vec<usize>)
        requires
            cost@.within(exact_cost_limit()),
            self.matching() == matched_rows(cost@, cost@.n()),
        ensures
            r@ == exact_assignment(cost@),
    {
        let n: usize = cost.n_dst();
        proof {
            lemma_matched_rows(cost@, n as nat);
        }
        let mut out: Vec<usize> = Vec::with_capacity(n);
        let mut x: usize = 0;
        while x < n
            invariant
                n == cost@.n(),
                x <= n,
                self.matching() == matched_rows(cost@, cost@.n()),
                sound(cost@, self.matching(), n as int),
                out@.len() == x,
                forall|k: int| 0 <= k < x ==> #[trigger] out@[k] == self.xy@[k].unwrap(),
            decreases n - x,
        {
            assert(self.matching().xy[x as int] is Some);
            out.push(self.xy[x].unwrap());
            x += 1;
        }
        proof {
            assert(out@ =~= exact_assignment(cost@));
        }
        out
    }
}

/// The exact solver with a checkpoint after every row; `None` if one of them
/// stopped it.
pub fn solve_with_checkpoint<S: ProgressSink, C: Checkpoint>(
    cost: &CostLookup,
    tx: &mut S,
    control: &mut C,
    beat: Beat,
) -> (r: Option<Vec<usize>>)
    requires
        beat.sound(),
        cost@.within(exact_cost_limit()),
    ensures
        progress::ran(
            beat,
            beat.level as nat,
            r is Some,
            old(control).answers(),
            final(control).answers(),
            old(tx).log(),
            final(tx).log(),
        ),
        old(control).never_refuses() ==> r is Some && final(control).never_refuses(),
        r is Some ==> final(control).answers().len() == old(control).answers().len() + cost@.n(),
        r is None ==> old(control).answers().len() < final(control).answers().len() <= old(
            control,
        ).answers().len() + cost@.n(),
        r matches Some(a) ==> a@ == exact_assignment(cost@) && optimal(cost@, a@),
{
    let n: usize = cost.n_dst();
    let mut matcher = Matcher::new(cost);
    let mut root: usize = 0;
    proof {
        progress::lemma_ran_nothing(beat, beat.level as nat, control.answers(), tx.log());
    }
    while root < n
        invariant
            n == cost@.n(),
            root <= n,
            beat.sound(),
            cost@.within(exact_cost_limit()),
            matcher.matching() == matched_rows(cost@, root as nat),
            control.answers().len() == old(control).answers().len() + root,
            progress::ran(
                beat,
                beat.level as nat,
                true,
                old(control).answers(),
                control.answers(),
                old(tx).log(),
                tx.log(),
            ),
            old(control).never_refuses() ==> control.never_refuses(),
        decreases n - root,
    {
        matcher.add_root(cost, root);
        let ghost a1 = control.answers();
        let ghost l1 = tx.log();
        let go = beat.pass(tx, control);
        proof {
            progress::lemma_ran_then(
                beat,
                beat.level as nat,
                beat,
                beat.level as nat,
                go,
                old(control).answers(),
                a1,
                control.answers(),
                old(tx).log(),
                l1,
                tx.log(),
            );
        }
        if !go {
            return None;
        }
        root += 1;
    }
    proof {
        lemma_exact_is_optimal(cost@);
    }
    Some(matcher.assignments(cost))
}

/// Solves the dense linear assignment problem: the returned permutation
/// `assignments[dst] = src` has the least total cost.
pub fn solve(cost: &CostLookup) -> (r: Vec<usize>)
    requires
        cost@.within(exact_cost_limit()),
    ensures
        r@ == exact_assignment(cost@),
        optimal(cost@, r@),
{
    let mut tx = MessageLog::new();
    let mut control = SolverControl::default();
    solve_with_checkpoint(cost, &mut tx, &mut control, Beat::silent()).unwrap()
}

} // verus!
