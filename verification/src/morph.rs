//! The state of the morph: where every pixel comes from and where it goes, on
//! the grid of the picture.

use crate::cost;
use crate::cost::Rgb;
use crate::drawing;
use crate::images::Picture;
use crate::job;
use crate::perm;
use crate::preset::{Preset, UnprocessedPreset};
use crate::single;
use vstd::prelude::*;

verus! {

/// A pixel on its way: the grid places it comes from and goes to, its age in
/// frames, and its stroke.
#[derive(Clone, Copy, PartialEq, Eq, Structural, Debug)]
pub struct CellBody {
    pub srcx: usize,
    pub srcy: usize,
    pub dstx: usize,
    pub dsty: usize,
    pub age: u32,
    pub stroke_id: u32,
}

impl CellBody {
    pub fn new(srcx: usize, srcy: usize, dstx: usize, dsty: usize) -> (r: Self)
        ensures
            r == (CellBody { srcx, srcy, dstx, dsty, age: 0, stroke_id: 0 }),
    {
        CellBody { srcx, srcy, dstx, dsty, age: 0, stroke_id: 0 }
    }

    pub fn set_age(&mut self, age: u32)
        ensures
            *final(self) == (CellBody { age, ..*old(self) }),
    {
        self.age = age;
    }

    pub fn set_stroke_id(&mut self, stroke_id: u32)
        ensures
            *final(self) == (CellBody { stroke_id, ..*old(self) }),
    {
        self.stroke_id = stroke_id;
    }

    /// Another frame has passed.
    pub fn update(&mut self)
        requires
            old(self).age < u32::MAX,
        ensures
            *final(self) == (CellBody { age: (old(self).age + 1) as u32, ..*old(self) }),
    {
        self.age = self.age + 1;
    }
}

/// A cell with its source and destination exchanged, and its age reset.
pub open spec fn turned(c: CellBody) -> CellBody {
    CellBody {
        srcx: c.dstx,
        srcy: c.dsty,
        dstx: c.srcx,
        dsty: c.srcy,
        age: 0,
        stroke_id: c.stroke_id,
    }
}

/// A cell on its way from grid index `src` to grid index `dst`.
pub open spec fn sent(c: CellBody, src: int, dst: int, w: int) -> CellBody {
    CellBody {
        srcx: (src % w) as usize,
        srcy: (src / w) as usize,
        dstx: (dst % w) as usize,
        dsty: (dst / w) as usize,
        age: c.age,
        stroke_id: c.stroke_id,
    }
}

/// The cells after the first `k` assignments.
pub open spec fn assigned(
    cells: Seq<CellBody>,
    assignments: Seq<usize>,
    w: int,
    k: int,
) -> Seq<CellBody>
    decreases k,
{
    if k <= 0 {
        cells
    } else {
        let before = assigned(cells, assignments, w, k - 1);
        let src = assignments[k - 1] as int;
        before.update(src, sent(before[src], src, k - 1, w))
    }
}

proof fn lemma_assigned_len(cells: Seq<CellBody>, assignments: Seq<usize>, w: int, k: int)
    requires
        0 <= k <= assignments.len(),
        forall|i: int| 0 <= i < k ==> (#[trigger] assignments[i]) < cells.len(),
    ensures
        assigned(cells, assignments, w, k).len() == cells.len(),
    decreases k,
{
    if k > 0 {
        lemma_assigned_len(cells, assignments, w, k - 1);
        assert(assignments[k - 1] < cells.len());
    }
}

/// With a permutation every cell is sent from its own place to the place that
/// the permutation gives it, and keeps its age and its stroke.
pub proof fn lemma_assigned_by_permutation(
    cells: Seq<CellBody>,
    assignments: Seq<usize>,
    w: int,
    dst: int,
)
    requires
        perm::is_perm(assignments, cells.len()),
        0 <= dst < cells.len(),
    ensures
        assigned(cells, assignments, w, cells.len() as int)[assignments[dst] as int] == sent(
            cells[assignments[dst] as int],
            assignments[dst] as int,
            dst,
            w,
        ),
{
    lemma_assigned_prefix(cells, assignments, w, dst, cells.len() as int);
}

proof fn lemma_assigned_prefix(
    cells: Seq<CellBody>,
    assignments: Seq<usize>,
    w: int,
    dst: int,
    k: int,
)
    requires
        perm::is_perm(assignments, cells.len()),
        0 <= dst < cells.len(),
        0 <= k <= cells.len(),
    ensures
        ({
            let src = assignments[dst] as int;
            assigned(cells, assignments, w, k)[src] == if dst < k {
                sent(cells[src], src, dst, w)
            } else {
                cells[src]
            }
        }),
    decreases k,
{
    if k > 0 {
        lemma_assigned_prefix(cells, assignments, w, dst, k - 1);
        lemma_assigned_len(cells, assignments, w, k - 1);
        assert(assignments[k - 1] < cells.len());
        assert(assignments[dst] < cells.len());
        if dst != k - 1 {
            assert(assignments[dst] != assignments[k - 1]);
        }
    }
}

/// The morph of one picture.
pub struct Sim {
    pub cells: Vec<CellBody>,
    pub name: String,
    pub reversed: bool,
}

impl Sim {
    pub fn new(name: String) -> (r: Self)
        ensures
            r.cells@ == Seq::<CellBody>::empty(),
            r.name == name,
            !r.reversed,
    {
        Sim { cells: Vec::new(), name, reversed: false }
    }

    pub fn name(&self) -> (r: &str)
        ensures
            r@ == self.name@,
    {
        self.name.as_str()
    }

    /// Turns the morph round.
    pub fn switch(&mut self)
        ensures
            final(self).cells@ == old(self).cells@.map_values(|c: CellBody| turned(c)),
            final(self).name == old(self).name,
            final(self).reversed == !old(self).reversed,
    {
        let n: usize = self.cells.len();
        let ghost before = self.cells@;
        let mut i: usize = 0;
        while i < n
            invariant
                i <= n,
                n == before.len(),
                self.cells@.len() == n,
                self.name == old(self).name,
                self.reversed == old(self).reversed,
                forall|k: int|
                    0 <= k < n ==> #[trigger] self.cells@[k] == if k < i {
                        turned(before[k])
                    } else {
                        before[k]
                    },
            decreases n - i,
        {
            let c = self.cells[i];
            let mut t = CellBody::new(c.dstx, c.dsty, c.srcx, c.srcy);
            t.set_stroke_id(c.stroke_id);
            self.cells.set(i, t);
            i += 1;
        }
        self.reversed = !self.reversed;
        proof {
            assert(self.cells@ =~= before.map_values(|c: CellBody| turned(c)));
        }
    }

    /// Sends the cell of every source index to its destination index.
    pub fn set_assignments(&mut self, assignments: &Vec<usize>)
        requires
            forall|i: int|
                0 <= i < assignments@.len() ==> (#[trigger] assignments@[i]) < old(
                    self,
                ).cells@.len(),
        ensures
            final(self).name == old(self).name,
            final(self).reversed == old(self).reversed,
            exists|w: int|
                single::is_side(w, old(self).cells@.len()) && final(self).cells@
                    == #[trigger] assigned(
                    old(self).cells@,
                    assignments@,
                    w,
                    assignments@.len() as int,
                ),
    {
        let w: usize = single::grid_side(self.cells.len());
        let n: usize = assignments.len();
        let ghost before = self.cells@;
        let mut i: usize = 0;
        while i < n
            invariant
                i <= n,
                n == assignments@.len(),
                self.name == old(self).name,
                self.reversed == old(self).reversed,
                single::is_side(w as int, before.len()),
                before.len() > 0 ==> w > 0,
                self.cells@.len() == before.len(),
                self.cells@ == assigned(before, assignments@, w as int, i as int),
                forall|k: int|
                    0 <= k < n ==> (#[trigger] assignments@[k]) < before.len(),
            decreases n - i,
        {
            let src: usize = assignments[i];
            assert(assignments@[i as int] < before.len());
            let c = self.cells[src];
            self.cells.set(
                src,
                CellBody {
                    srcx: src % w,
                    srcy: src / w,
                    dstx: i % w,
                    dsty: i / w,
                    age: c.age,
                    stroke_id: c.stroke_id,
                },
            );
            i += 1;
        }
    }

    /// Prepares the morph to play forwards or in reverse: the places where the
    /// cells start.
    pub fn prepare_play(&mut self, reverse: bool) -> (r: Vec<(usize, usize)>)
        ensures
            final(self).reversed == reverse,
            final(self).name == old(self).name,
            final(self).cells@ == if old(self).reversed == reverse {
                old(self).cells@.map_values(|c: CellBody| CellBody { age: 0, ..c })
            } else {
                old(self).cells@.map_values(|c: CellBody| turned(c))
            },
            r@ == final(self).cells@.map_values(|c: CellBody| (c.srcx, c.srcy)),
    {
        let n: usize = self.cells.len();
        if self.reversed == reverse {
            let ghost before = self.cells@;
            let mut i: usize = 0;
            while i < n
                invariant
                    i <= n,
                    n == before.len(),
                    self.cells@.len() == n,
                    self.name == old(self).name,
                    self.reversed == old(self).reversed,
                    forall|k: int|
                        0 <= k < n ==> #[trigger] self.cells@[k] == if k < i {
                            (CellBody { age: 0, ..before[k] })
                        } else {
                            before[k]
                        },
                decreases n - i,
            {
                let mut c = self.cells[i];
                c.set_age(0);
                self.cells.set(i, c);
                i += 1;
            }
            proof {
                assert(self.cells@ =~= before.map_values(|c: CellBody| CellBody { age: 0, ..c }));
            }
        } else {
            self.switch();
        }
        let mut starts: Vec<(usize, usize)> = Vec::with_capacity(n);
        let mut i: usize = 0;
        while i < n
            invariant
                i <= n,
                n == self.cells@.len(),
                starts@.len() == i,
                forall|k: int|
                    0 <= k < i ==> #[trigger] starts@[k] == (
                        self.cells@[k].srcx,
                        self.cells@[k].srcy,
                    ),
            decreases n - i,
        {
            let c = self.cells[i];
            starts.push((c.srcx, c.srcy));
            i += 1;
        }
        proof {
            assert(starts@ =~= self.cells@.map_values(|c: CellBody| (c.srcx, c.srcy)));
        }
        starts
    }
}

/// Turning the morph round twice gives the same cells, with their age reset.
pub proof fn lemma_switch_twice(cells: Seq<CellBody>)
    ensures
        cells.map_values(|c: CellBody| turned(c)).map_values(|c: CellBody| turned(c))
            == cells.map_values(|c: CellBody| CellBody { age: 0, ..c }),
{
    assert(cells.map_values(|c: CellBody| turned(c)).map_values(|c: CellBody| turned(c))
        =~= cells.map_values(|c: CellBody| CellBody { age: 0, ..c }));
}

/// The seeds that lie in bin `b`, among the first `k`.
pub open spec fn members(bins: Seq<usize>, b: int, k: int) -> Seq<usize>
    decreases k,
{
    if k <= 0 {
        Seq::empty()
    } else if bins[k - 1] == b {
        members(bins, b, k - 1).push((k - 1) as usize)
    } else {
        members(bins, b, k - 1)
    }
}

/// The seeds of every bin, in their order.
pub fn bin_seeds(bins: &[usize], count: usize) -> (r: Vec<Vec<usize>>)
    requires
        forall|i: int| 0 <= i < bins@.len() ==> (#[trigger] bins@[i]) < count,
    ensures
        r@.len() == count,
        forall|b: int|
            0 <= b < count ==> (#[trigger] r@[b])@ == members(bins@, b, bins@.len() as int),
{
    let mut grid: Vec<Vec<usize>> = Vec::with_capacity(count);
    let mut b: usize = 0;
    while b < count
        invariant
            b <= count,
            grid@.len() == b,
            forall|c: int| 0 <= c < b ==> (#[trigger] grid@[c])@ == Seq::<usize>::empty(),
        decreases count - b,
    {
        grid.push(Vec::new());
        b += 1;
    }
    let n: usize = bins.len();
    let mut i: usize = 0;
    while i < n
        invariant
            i <= n,
            n == bins@.len(),
            grid@.len() == count,
            forall|k: int| 0 <= k < n ==> (#[trigger] bins@[k]) < count,
            forall|c: int|
                0 <= c < count ==> (#[trigger] grid@[c])@ == members(bins@, c, i as int),
        decreases n - i,
    {
        let at: usize = bins[i];
        let ghost before = grid@;
        grid[at].push(i);
        proof {
            assert(grid@ =~= before.update(at as int, grid@[at as int]));
            assert(grid@[at as int]@ == before[at as int]@.push(i));
            assert forall|c: int| 0 <= c < count implies (#[trigger] grid@[c])@ == members(
                bins@,
                c,
                i + 1,
            ) by {
                assert(before[c]@ == members(bins@, c, i as int));
            }
        }
        i += 1;
    }
    grid
}

/// The bin that is looked at in step `k` of a walk round `(col, row)`, if it is
/// looked at: the last column and the last row are not.
pub open spec fn looked_at(col: int, row: int, side: int, k: int) -> Option<int> {
    let x = col + k % 3;
    let y = row + k / 3;
    if x == 0 || y == 0 || x >= side || y >= side {
        None
    } else {
        Some((y - 1) * side + x - 1)
    }
}

pub open spec fn without(s: Seq<usize>, i: usize) -> Seq<usize>
    decreases s.len(),
{
    if s.len() == 0 {
        s
    } else if s.last() == i {
        without(s.drop_last(), i)
    } else {
        without(s.drop_last(), i).push(s.last())
    }
}

/// The neighbours of seed `i` that the first `k` steps of a walk find.
pub open spec fn found(
    grid: Seq<Vec<usize>>,
    side: int,
    col: int,
    row: int,
    i: usize,
    k: int,
) -> Seq<usize>
    decreases k,
{
    if k <= 0 {
        Seq::empty()
    } else {
        found(grid, side, col, row, i, k - 1) + match looked_at(col, row, side, k - 1) {
            Some(b) => without(grid[b]@, i),
            None => Seq::empty(),
        }
    }
}

/// The seeds in the bins around `(col, row)`, without seed `i`.
pub fn neighbours(grid: &Vec<Vec<usize>>, side: usize, col: usize, row: usize, i: usize) -> (r: Vec<
    usize,
>)
    requires
        side * side <= grid@.len(),
        col <= usize::MAX - 2,
        row <= usize::MAX - 2,
    ensures
        r@ == found(grid@, side as int, col as int, row as int, i, 9),
{
    let mut out: Vec<usize> = Vec::new();
    let len: usize = grid.len();
    let mut k: usize = 0;
    while k < 9
        invariant
            k <= 9,
            side * side <= len,
            len == grid@.len(),
            col <= usize::MAX - 2,
            row <= usize::MAX - 2,
            out@ == found(grid@, side as int, col as int, row as int, i, k as int),
        decreases 9 - k,
    {
        let x: usize = col + k % 3;
        let y: usize = row + k / 3;
        if !(x == 0 || y == 0 || x >= side || y >= side) {
            proof {
                assert((y - 1) * side + side <= side * side) by (nonlinear_arith)
                    requires
                        1 <= y < side,
                ;
                assert(0 <= (y - 1) * side) by (nonlinear_arith)
                    requires
                        1 <= y,
                        0 <= side,
                ;
            }
            let b: usize = (y - 1) * side + (x - 1);
            let ghost before = out@;
            let bin = &grid[b];
            let m: usize = bin.len();
            let mut j: usize = 0;
            assert(bin@.take(0) =~= Seq::empty());
            assert(before + without(bin@.take(0), i) =~= before);
            while j < m
                invariant
                    j <= m,
                    m == bin@.len(),
                    out@ == before + without(bin@.take(j as int), i),
                decreases m - j,
            {
                let other: usize = bin[j];
                proof {
                    assert(bin@.take(j + 1).drop_last() =~= bin@.take(j as int));
                }
                if other != i {
                    out.push(other);
                }
                j += 1;
                proof {
                    assert(out@ =~= before + without(bin@.take(j as int), i));
                }
            }
            assert(bin@.take(m as int) =~= bin@);
            assert(looked_at(col as int, row as int, side as int, k as int) == Some(b as int));
        } else {
            assert(looked_at(col as int, row as int, side as int, k as int) is None);
            assert(out@ + Seq::<usize>::empty() =~= out@);
        }
        k += 1;
    }
    out
}

/// The seeds of a picture: the grid place of every pixel, row by row.
pub open spec fn seed_places(w: int) -> Seq<(usize, usize)> {
    Seq::new((w * w) as nat, |i: int| ((i % w) as usize, (i / w) as usize))
}

/// The places and colours of the pixels of a square picture, and their number.
pub fn init_colors(source: &Picture) -> (r: (Vec<(usize, usize)>, Vec<Rgb>, usize))
    requires
        source@.complete(),
        source.width == source.height,
    ensures
        r.0@ == seed_places(source.width as int),
        r.1@ == source@.pixels(),
        r.2 == source.width * source.height,
{
    let colors = source.pixels();
    let w: usize = source.width as usize;
    let n: usize = colors.len();
    let ghost goal = seed_places(w as int);
    proof {
        assert(source@.pixels().len() == source.width * source.height);
    }
    let mut seeds: Vec<(usize, usize)> = Vec::with_capacity(n);
    let mut i: usize = 0;
    while i < n
        invariant
            i <= n,
            n == w * w,
            goal == seed_places(w as int),
            seeds@.len() == i,
            forall|k: int| 0 <= k < i ==> #[trigger] seeds@[k] == goal[k],
        decreases n - i,
    {
        seeds.push((i % w, i / w));
        i += 1;
    }
    assert(seeds@ =~= goal);
    (seeds, colors, n)
}

/// A cell that has not been sent anywhere.
pub open spec fn resting() -> CellBody {
    CellBody { srcx: 0, srcy: 0, dstx: 0, dsty: 0, age: 0, stroke_id: 0 }
}

/// The cells of a picture of side `w` with a rearrangement.
pub open spec fn arranged(w: int, assignments: Seq<usize>) -> Seq<CellBody> {
    assigned(
        Seq::new((w * w) as nat, |i: int| resting()),
        assignments,
        w,
        assignments.len() as int,
    )
}

fn arrange(name: String, n: usize, assignments: &Vec<usize>, Ghost(w): Ghost<int>) -> (r: Sim)
    requires
        n == w * w,
        0 <= w <= 65535,
        forall|i: int| 0 <= i < assignments@.len() ==> (#[trigger] assignments@[i]) < n,
    ensures
        r.name == name,
        !r.reversed,
        r.cells@ == arranged(w, assignments@),
{
    let mut sim = Sim::new(name);
    sim.cells = vec![CellBody::new(0, 0, 0, 0); n];
    let ghost rest = Seq::new((w * w) as nat, |i: int| resting());
    assert(sim.cells@ =~= rest);
    sim.set_assignments(assignments);
    proof {
        let v = choose|v: int|
            single::is_side(v, n as nat) && sim.cells@ == #[trigger] assigned(
                rest,
                assignments@,
                v,
                assignments@.len() as int,
            );
        single::lemma_square_grid(v, w as nat);
    }
    sim
}

/// The morph of a preset: the number of seeds, their places and colours, and the
/// state.
pub fn init_image(source: Preset) -> (r: (u32, Vec<(usize, usize)>, Vec<Rgb>, Sim))
    requires
        job::preset_picture(&source.inner).complete(),
        source.inner.width == source.inner.height,
        source.inner.width * source.inner.height <= u32::MAX,
        forall|i: int|
            0 <= i < source.assignments@.len() ==> (#[trigger] source.assignments@[i])
                < source.inner.width * source.inner.height,
    ensures
        r.0 == source.inner.width * source.inner.height,
        r.1@ == seed_places(source.inner.width as int),
        r.2@ == job::preset_picture(&source.inner).pixels(),
        r.3.name == source.inner.name,
        !r.3.reversed,
        r.3.cells@ == arranged(source.inner.width as int, source.assignments@),
{
    let ghost w = source.inner.width as int;
    let picture = Picture {
        width: source.inner.width,
        height: source.inner.height,
        data: source.inner.source_img,
    };
    let (seeds, colors, n) = init_colors(&picture);
    proof {
        assert(w <= 65535) by (nonlinear_arith)
            requires
                w * w <= 0xffff_ffff,
        ;
    }
    let sim = arrange(source.inner.name, n, &source.assignments, Ghost(w));
    (n as u32, seeds, colors, sim)
}

/// The morph of a drawing canvas, with every pixel in its own place.
pub fn init_canvas(source: UnprocessedPreset) -> (r: (
    u32,
    Vec<(usize, usize)>,
    Vec<Rgb>,
    Sim,
))
    requires
        job::preset_picture(&source).complete(),
        source.width == source.height,
        source.width >= drawing::DRAWING_CANVAS_SIZE,
        source.width * source.height <= u32::MAX,
    ensures
        r.0 == source.width * source.height,
        r.1@ == seed_places(source.width as int),
        r.2@ == job::preset_picture(&source).pixels(),
        r.3.name == source.name,
        !r.3.reversed,
        r.3.cells@ == arranged(
            source.width as int,
            Seq::new(drawing::CANVAS_PIXELS as nat, |i: int| i as usize),
        ),
{
    let ghost w = source.width as int;
    let picture = Picture { width: source.width, height: source.height, data: source.source_img };
    let (seeds, colors, n) = init_colors(&picture);
    let mut assignments: Vec<usize> = Vec::with_capacity(drawing::CANVAS_PIXELS);
    let mut i: usize = 0;
    while i < drawing::CANVAS_PIXELS
        invariant
            i <= drawing::CANVAS_PIXELS,
            assignments@.len() == i,
            forall|k: int| 0 <= k < i ==> #[trigger] assignments@[k] == k,
        decreases drawing::CANVAS_PIXELS - i,
    {
        assignments.push(i);
        i += 1;
    }
    proof {
        assert(assignments@ =~= Seq::new(drawing::CANVAS_PIXELS as nat, |i: int| i as usize));
        assert(w * w >= 128 * 128) by (nonlinear_arith)
            requires
                w >= 128,
        ;
        assert(w <= 65535) by (nonlinear_arith)
            requires
                w * w <= 0xffff_ffff,
        ;
    }
    let sim = arrange(source.name, n, &assignments, Ghost(w));
    (n as u32, seeds, colors, sim)
}

/// A bin holds exactly the seeds that lie in it, each once and in their order.
pub proof fn lemma_members(bins: Seq<usize>, b: int, k: int)
    requires
        0 <= k <= bins.len() <= usize::MAX,
    ensures
        forall|i: usize| #[trigger] members(bins, b, k).contains(i) <==> i < k && bins[i as int] == b,
        forall|p: int, q: int|
            0 <= p < q < members(bins, b, k).len() ==> members(bins, b, k)[p] < members(bins, b, k)[q],
    decreases k,
{
    if k > 0 {
        lemma_members(bins, b, k - 1);
        let m = members(bins, b, k - 1);
        let r = members(bins, b, k);
        assert forall|i: usize| #[trigger] r.contains(i) <==> i < k && bins[i as int] == b by {
            if m.contains(i) {
                let p = choose|p: int| 0 <= p < m.len() && m[p] == i;
                assert(r[p] == i);
            }
            if i == k - 1 && bins[k - 1] == b {
                assert(r[m.len() as int] == i);
            }
            if r.contains(i) {
                let p = choose|p: int| 0 <= p < r.len() && r[p] == i;
                if p < m.len() {
                    assert(m[p] == i);
                }
            }
        }
        assert forall|p: int, q: int| 0 <= p < q < r.len() implies r[p] < r[q] by {
            if q == m.len() {
                assert(m.contains(m[p]));
            }
        }
    }
}

proof fn lemma_without(s: Seq<usize>, i: usize)
    ensures
        forall|o: usize| #[trigger] without(s, i).contains(o) <==> s.contains(o) && o != i,
    decreases s.len(),
{
    if s.len() > 0 {
        let b = s.drop_last();
        lemma_without(b, i);
        let r = without(s, i);
        assert forall|o: usize| #[trigger] r.contains(o) <==> s.contains(o) && o != i by {
            if s.contains(o) {
                let p = choose|p: int| 0 <= p < s.len() && s[p] == o;
                if p < s.len() - 1 {
                    assert(b[p] == o);
                }
            }
            if b.contains(o) {
                let p = choose|p: int| 0 <= p < b.len() && b[p] == o;
                assert(s[p] == o);
                if without(b, i).contains(o) {
                    let q = choose|q: int| 0 <= q < without(b, i).len() && without(b, i)[q] == o;
                    assert(r[q] == o);
                }
            }
            if s.last() == o && o != i {
                assert(r.last() == o);
                assert(r[r.len() - 1] == o);
            }
            if r.contains(o) && !without(b, i).contains(o) {
                let p = choose|p: int| 0 <= p < r.len() && r[p] == o;
                if p < without(b, i).len() {
                    assert(without(b, i)[p] == o);
                }
                assert(s[s.len() - 1] == s.last());
            }
        }
    }
}

/// Bin `(x, y)` is next to `(col, row)` or the same, and not in the last column or row.
pub open spec fn near_bin(col: int, row: int, side: int, x: int, y: int) -> bool {
    &&& 0 <= x < side - 1
    &&& 0 <= y < side - 1
    &&& -1 <= x - col <= 1
    &&& -1 <= y - row <= 1
}

/// The neighbours of a seed are the other seeds in its own bin and in the bins around
/// it, but for the last column and row.
pub proof fn lemma_neighbours_are_near(
    grid: Seq<Vec<usize>>,
    side: int,
    col: int,
    row: int,
    i: usize,
    o: usize,
)
    requires
        0 <= col,
        0 <= row,
    ensures
        found(grid, side, col, row, i, 9).contains(o) <==> o != i && exists|x: int, y: int|
            near_bin(col, row, side, x, y) && (#[trigger] grid[y * side + x])@.contains(o),
{
    lemma_found(grid, side, col, row, i, o, 9);
    if found(grid, side, col, row, i, 9).contains(o) {
        let k = choose|k: int|
            0 <= k < 9 && (#[trigger] looked_at(col, row, side, k) matches Some(b)
                && grid[b]@.contains(o));
        let x = col + k % 3 - 1;
        let y = row + k / 3 - 1;
        assert(near_bin(col, row, side, x, y));
        assert(grid[y * side + x]@.contains(o));
    }
    if o != i && exists|x: int, y: int|
        near_bin(col, row, side, x, y) && (#[trigger] grid[y * side + x])@.contains(o) {
        let (x, y) = choose|x: int, y: int|
            near_bin(col, row, side, x, y) && (#[trigger] grid[y * side + x])@.contains(o);
        let k = (y - row + 1) * 3 + (x - col + 1);
        assert(k % 3 == x - col + 1 && k / 3 == y - row + 1);
        assert(looked_at(col, row, side, k) == Some(y * side + x));
    }
}

proof fn lemma_found(
    grid: Seq<Vec<usize>>,
    side: int,
    col: int,
    row: int,
    i: usize,
    o: usize,
    k: int,
)
    requires
        0 <= k,
    ensures
        found(grid, side, col, row, i, k).contains(o) <==> o != i && exists|j: int|
            0 <= j < k && (#[trigger] looked_at(col, row, side, j) matches Some(b)
                && grid[b]@.contains(o)),
    decreases k,
{
    if k > 0 {
        lemma_found(grid, side, col, row, i, o, k - 1);
        let b = found(grid, side, col, row, i, k - 1);
        let step = looked_at(col, row, side, k - 1);
        let add = match step {
            Some(c) => without(grid[c]@, i),
            None => Seq::empty(),
        };
        let r = b + add;
        assert(found(grid, side, col, row, i, k) == r);
        if step is Some {
            lemma_without(grid[step.unwrap()]@, i);
        }
        assert(r.contains(o) <==> b.contains(o) || add.contains(o)) by {
            if b.contains(o) {
                let p = choose|p: int| 0 <= p < b.len() && b[p] == o;
                assert(r[p] == o);
            }
            if add.contains(o) {
                let p = choose|p: int| 0 <= p < add.len() && add[p] == o;
                assert(r[b.len() + p] == o);
            }
            if r.contains(o) {
                let p = choose|p: int| 0 <= p < r.len() && r[p] == o;
                if p < b.len() {
                    assert(b[p] == o);
                } else {
                    assert(add[p - b.len()] == o);
                }
            }
        }
        if o != i && exists|j: int|
            0 <= j < k && (#[trigger] looked_at(col, row, side, j) matches Some(b)
                && grid[b]@.contains(o)) {
            let j = choose|j: int|
                0 <= j < k && (#[trigger] looked_at(col, row, side, j) matches Some(b)
                    && grid[b]@.contains(o));
            if j < k - 1 {
                assert(b.contains(o));
            }
        }
    }
}

/// In the morph of a preset the cell of every pixel starts at the place of the pixel and
/// ends at the place of the target that the pixel is assigned to.
pub proof fn lemma_morph_moves_to_the_targets(w: int, assignments: Seq<usize>, dst: int)
    requires
        0 < w <= 65535,
        perm::is_perm(assignments, (w * w) as nat),
        0 <= dst < w * w,
    ensures
        ({
            let cells = arranged(w, assignments);
            let cell = cells[assignments[dst] as int];
            &&& cells.len() == w * w
            &&& cell.srcx < w && cell.srcy < w && cell.srcy * w + cell.srcx == assignments[dst]
            &&& cell.dstx < w && cell.dsty < w && cell.dsty * w + cell.dstx == dst
            &&& cell.age == 0
        }),
{
    let rest = Seq::new((w * w) as nat, |i: int| resting());
    assert(w * w >= 0) by (nonlinear_arith);
    lemma_assigned_by_permutation(rest, assignments, w, dst);
    lemma_assigned_len(rest, assignments, w, (w * w) as int);
    let src = assignments[dst] as int;
    assert(assignments[dst] < w * w);
    cost::lemma_grid_pos(src, w);
    cost::lemma_grid_pos(dst, w);
    vstd::arithmetic::div_mod::lemma_fundamental_div_mod(src, w);
    vstd::arithmetic::div_mod::lemma_fundamental_div_mod(dst, w);
    assert(w * (src / w) == (src / w) * w && w * (dst / w) == (dst / w) * w) by (nonlinear_arith);
}

/// Played in reverse, every cell starts where it ended and ends where it started.
pub proof fn lemma_reverse_starts_at_the_end(cells: Seq<CellBody>, i: int)
    requires
        0 <= i < cells.len(),
    ensures
        ({
            let back = cells.map_values(|c: CellBody| turned(c))[i];
            let there = cells[i];
            &&& (back.srcx, back.srcy) == (there.dstx, there.dsty)
            &&& (back.dstx, back.dsty) == (there.srcx, there.srcy)
            &&& back.stroke_id == there.stroke_id
            &&& back.age == 0
        }),
{
}

} // verus!
