//! Live optimisation of a drawing: pixels exchange places for a better match
//! with the target, with a reward for staying next to their own stroke.

use crate::cost;
use crate::cost::Rgb;
use crate::genetic;
use crate::images::{Picture, PictureData};
use crate::job;
use crate::patchmatch;
use crate::perm;
use crate::pipeline;
use crate::preset::UnprocessedPreset;
use crate::progress::{Message, ProgressMsg, ProgressSink};
use crate::rng;
use crate::settings::{Assets, GenerationSettings};
use crate::slices;
use crate::text;
use vstd::prelude::*;
use vstd::string::*;

verus! {

/// Side of the drawing canvas.
pub const DRAWING_CANVAS_SIZE: usize = 128;

/// Number of pixels of the canvas.
pub const CANVAS_PIXELS: usize = 16384;

/// Added to the cost of a pixel that lies next to its own stroke.
pub const STROKE_REWARD: i64 = -10000000000;

/// Greatest distance of an exchange along each axis.
pub const MAX_SEARCH: i16 = 32;

/// Seed of the optimiser.
pub const DRAWING_SEED: u64 = 12345;

/// What is known of a canvas pixel.
#[derive(Clone, Copy, PartialEq, Eq, Structural, Debug)]
pub struct PixelData {
    pub stroke_id: u32,
}

impl PixelData {
    /// An empty canvas.
    pub fn init_canvas() -> (r: Vec<PixelData>)
        ensures
            r@ == Seq::new(CANVAS_PIXELS as nat, |i: int| PixelData { stroke_id: 0 }),
    {
        let r: Vec<PixelData> = vec![PixelData { stroke_id: 0 }; CANVAS_PIXELS];
        assert(r@ =~= Seq::new(CANVAS_PIXELS as nat, |i: int| PixelData { stroke_id: 0 }));
        r
    }
}

/// A pixel of the drawing: where it comes from, and what it costs where it is.
#[derive(Clone, Copy, PartialEq, Eq, Structural, Debug)]
pub struct DrawingPixel {
    pub src_x: u16,
    pub src_y: u16,
    pub h: i64,
}

/// The canvas position that a pixel comes from.
pub open spec fn origin(p: DrawingPixel) -> int {
    p.src_y * DRAWING_CANVAS_SIZE + p.src_x
}

/// What a pixel costs at a target position.
pub open spec fn drawing_cost(
    p: DrawingPixel,
    target_pos: (u16, u16),
    target_col: Rgb,
    weight: int,
    colors: Seq<Rgb>,
    proximity_importance: int,
) -> int {
    cost::heuristic_value(
        (p.src_x, p.src_y),
        target_pos,
        colors[origin(p)],
        target_col,
        weight,
        proximity_importance,
    )
}

impl DrawingPixel {
    pub fn new(src_x: u16, src_y: u16, h: i64) -> (r: Self)
        ensures
            r == (DrawingPixel { src_x, src_y, h }),
    {
        DrawingPixel { src_x, src_y, h }
    }

    pub fn update_heuristic(&mut self, new_h: i64)
        ensures
            *final(self) == (DrawingPixel {
                src_x: old(self).src_x,
                src_y: old(self).src_y,
                h: new_h,
            }),
    {
        self.h = new_h;
    }

    /// What the pixel costs at a target position, with the colour that the
    /// canvas has at its origin.
    pub fn calc_drawing_heuristic(
        &self,
        target_pos: (u16, u16),
        target_col: Rgb,
        weight: i64,
        colors: &[Rgb],
        proximity_importance: i64,
    ) -> (r: i64)
        requires
            origin(*self) < colors@.len(),
            cost::heuristic_fits(
                (self.src_x, self.src_y),
                target_pos,
                colors@[origin(*self)],
                target_col,
                weight as int,
                proximity_importance as int,
            ),
        ensures
            r == drawing_cost(
                *self,
                target_pos,
                target_col,
                weight as int,
                colors@,
                proximity_importance as int,
            ),
    {
        cost::heuristic(
            (self.src_x, self.src_y),
            target_pos,
            colors[self.src_y as usize * DRAWING_CANVAS_SIZE + self.src_x as usize],
            target_col,
            weight,
            proximity_importance,
        )
    }
}

/// The stroke that a pixel belongs to.
pub open spec fn stroke_of(strokes: Seq<PixelData>, p: DrawingPixel) -> u32 {
    strokes[origin(p)].stroke_id
}

/// The position next to `pos` in direction `d` (above, left, right, below), if
/// it is on the canvas.
pub open spec fn beside(pos: int, d: int) -> Option<int> {
    let size = DRAWING_CANVAS_SIZE as int;
    let x = pos % size + if d == 1 {
        -1int
    } else if d == 2 {
        1
    } else {
        0
    };
    let y = pos / size + if d == 0 {
        -1int
    } else if d == 3 {
        1
    } else {
        0
    };
    if 0 <= x < size && 0 <= y < size {
        Some(y * size + x)
    } else {
        None
    }
}

/// A pixel beside `newpos` belongs to the stroke of the pixel at `oldpos`.
pub open spec fn touches_stroke(
    newpos: int,
    oldpos: int,
    strokes: Seq<PixelData>,
    pixels: Seq<DrawingPixel>,
) -> bool {
    exists|d: int|
        0 <= d < 4 && (#[trigger] beside(newpos, d) matches Some(p) && stroke_of(
            strokes,
            pixels[p],
        ) == stroke_of(strokes, pixels[oldpos]))
}

/// The reward for moving the pixel at `oldpos` to `newpos`.
pub open spec fn reward(
    newpos: int,
    oldpos: int,
    strokes: Seq<PixelData>,
    pixels: Seq<DrawingPixel>,
) -> int {
    if touches_stroke(newpos, oldpos, strokes, pixels) {
        STROKE_REWARD as int
    } else {
        0
    }
}

/// Every pixel comes from the canvas.
pub open spec fn on_canvas(pixels: Seq<DrawingPixel>) -> bool {
    forall|i: int|
        0 <= i < pixels.len() ==> (#[trigger] pixels[i]).src_x < DRAWING_CANVAS_SIZE
            && pixels[i].src_y < DRAWING_CANVAS_SIZE
}

/// The reward if a pixel beside `newpos` belongs to the stroke of the pixel at
/// `oldpos`, else zero.
pub fn stroke_reward(
    newpos: usize,
    oldpos: usize,
    pixel_data: &[PixelData],
    pixels: &[DrawingPixel],
) -> (r: i64)
    requires
        newpos < CANVAS_PIXELS,
        oldpos < pixels@.len(),
        pixels@.len() >= CANVAS_PIXELS,
        pixel_data@.len() >= CANVAS_PIXELS,
        on_canvas(pixels@),
    ensures
        r == reward(newpos as int, oldpos as int, pixel_data@, pixels@),
{
    let x: i64 = (newpos % DRAWING_CANVAS_SIZE) as i64;
    let y: i64 = (newpos / DRAWING_CANVAS_SIZE) as i64;
    let own = pixels[oldpos];
    assert(pixels@[oldpos as int].src_x < DRAWING_CANVAS_SIZE);
    let stroke: u32 = pixel_data[own.src_x as usize + own.src_y as usize
        * DRAWING_CANVAS_SIZE].stroke_id;
    let mut d: usize = 0;
    while d < 4
        invariant
            d <= 4,
            newpos < CANVAS_PIXELS,
            oldpos < pixels@.len(),
            pixels@.len() >= CANVAS_PIXELS,
            pixel_data@.len() >= CANVAS_PIXELS,
            on_canvas(pixels@),
            x == newpos as int % 128,
            y == newpos as int / 128,
            stroke == stroke_of(pixel_data@, pixels@[oldpos as int]),
            forall|e: int|
                0 <= e < d ==> !(#[trigger] beside(newpos as int, e) matches Some(p) && stroke_of(
                    pixel_data@,
                    pixels@[p],
                ) == stroke),
        decreases 4 - d,
    {
        let nx: i64 = x + if d == 1 {
            -1
        } else if d == 2 {
            1
        } else {
            0
        };
        let ny: i64 = y + if d == 0 {
            -1
        } else if d == 3 {
            1
        } else {
            0
        };
        if nx >= 0 && nx < DRAWING_CANVAS_SIZE as i64 && ny >= 0 && ny
            < DRAWING_CANVAS_SIZE as i64 {
            let p: usize = (ny * DRAWING_CANVAS_SIZE as i64 + nx) as usize;
            assert(beside(newpos as int, d as int) == Some(p as int));
            let other = pixels[p];
            assert(pixels@[p as int].src_x < DRAWING_CANVAS_SIZE);
            if pixel_data[other.src_x as usize + other.src_y as usize
                * DRAWING_CANVAS_SIZE].stroke_id == stroke {
                return STROKE_REWARD;
            }
        }
        d += 1;
    }
    0
}

/// Exchanges attempted in one frame: a quarter of the seeds, within limits.
pub fn frame_swap_budget(seed_count: usize) -> (r: usize)
    ensures
        r == patchmatch::clamped(seed_count as int / 4, 1024, 8192),
{
    let quarter: usize = seed_count / 4;
    if quarter < 1024 {
        1024
    } else if quarter > 8192 {
        8192
    } else {
        quarter
    }
}

/// Exchanges attempted in one round of a drawing in the background.
pub fn round_swap_budget(colors: usize) -> (r: usize)
    requires
        colors * genetic::SWAPS_PER_GENERATION_PER_PIXEL <= usize::MAX,
    ensures
        r == colors * genetic::SWAPS_PER_GENERATION_PER_PIXEL,
        r == 128 * colors,
{
    colors * genetic::SWAPS_PER_GENERATION_PER_PIXEL as usize
}

/// The stroke that a brush mark belongs to: the current one while the brush stays
/// down, else the next.
pub fn stroke_for(continued: bool, stroke_count: u32) -> (r: u32)
    requires
        !continued ==> stroke_count < u32::MAX,
    ensures
        r == if continued {
            stroke_count as int
        } else {
            stroke_count + 1
        },
{
    if continued {
        stroke_count
    } else {
        stroke_count + 1
    }
}

/// The target that a drawing is matched with.
#[verifier::ext_equal]
pub struct Canvas {
    pub target: Seq<Rgb>,
    pub weights: Seq<i64>,
    pub proximity_importance: i64,
}

/// The drawing: its pixels, the state of the generator, and the exchanges made.
#[verifier::ext_equal]
pub struct Drawing {
    pub pixels: Seq<DrawingPixel>,
    pub state: u64,
    pub swaps: nat,
}

/// The greatest magnitude of a colour and distance cost on the canvas.
pub open spec fn drawing_cost_limit() -> int {
    i64::MAX as int / 8
}

impl Canvas {
    /// A target of the size of the canvas, with costs that can be added up.
    pub open spec fn fit(self) -> bool {
        &&& self.target.len() == CANVAS_PIXELS
        &&& self.weights.len() == CANVAS_PIXELS
        &&& cost::grid_costs_fit(
            self.weights,
            DRAWING_CANVAS_SIZE as int,
            self.proximity_importance as int,
            drawing_cost_limit(),
        )
    }

    /// What pixel `p` costs at position `at`, without a reward.
    pub open spec fn cost_at(self, p: DrawingPixel, at: int, colors: Seq<Rgb>) -> int {
        drawing_cost(
            p,
            cost::grid_pos(at, DRAWING_CANVAS_SIZE as int),
            self.target[at],
            self.weights[at] as int,
            colors,
            self.proximity_importance as int,
        )
    }
}

pub open spec fn with_cost(p: DrawingPixel, h: int) -> DrawingPixel {
    DrawingPixel { src_x: p.src_x, src_y: p.src_y, h: h as i64 }
}

/// The pixel at position `i` before any exchange.
pub open spec fn first_pixel(c: Canvas, colors: Seq<Rgb>, i: int) -> DrawingPixel {
    let (x, y) = cost::grid_pos(i, DRAWING_CANVAS_SIZE as int);
    let p = DrawingPixel { src_x: x, src_y: y, h: 0 };
    with_cost(p, c.cost_at(p, i, colors) + STROKE_REWARD)
}

pub open spec fn first_drawing(c: Canvas, colors: Seq<Rgb>) -> Drawing {
    Drawing {
        pixels: Seq::new(CANVAS_PIXELS as nat, |i: int| first_pixel(c, colors, i)),
        state: rng::seeded_state(DRAWING_SEED),
        swaps: 0,
    }
}

/// A coordinate moved by an offset drawn from `state`, kept on the canvas.
pub open spec fn moved(coordinate: int, state: u64) -> int {
    patchmatch::clamped(
        coordinate - MAX_SEARCH + (rng::draw32(state) % 0x1_0000) as int % 65,
        0,
        DRAWING_CANVAS_SIZE - 1,
    )
}

pub open spec fn first_place(d: Drawing) -> int {
    (rng::draw64(d.state) % (CANVAS_PIXELS as u64)) as int
}

pub open spec fn second_place(d: Drawing) -> int {
    let a = first_place(d);
    let s1 = rng::next_state(d.state);
    let s2 = rng::next_state(s1);
    moved(a / 128, s2) * 128 + moved(a % 128, s1)
}

/// One attempted exchange.
pub open spec fn attempt(
    c: Canvas,
    colors: Seq<Rgb>,
    strokes: Seq<PixelData>,
    d: Drawing,
) -> Drawing {
    let x = first_place(d);
    let y = second_place(d);
    let px = d.pixels[x];
    let py = d.pixels[y];
    let x_on_y = c.cost_at(px, y, colors) + reward(y, x, strokes, d.pixels);
    let y_on_x = c.cost_at(py, x, colors) + reward(x, y, strokes, d.pixels);
    let state = rng::state_after(d.state, 3);
    if (px.h - y_on_x) + (py.h - x_on_y) > 0 {
        let swapped = perm::swapped(d.pixels, x, y);
        let one = swapped.update(x, with_cost(swapped[x], y_on_x));
        Drawing {
            pixels: one.update(y, with_cost(one[y], x_on_y)),
            state,
            swaps: d.swaps + 1,
        }
    } else {
        Drawing { pixels: d.pixels, state, swaps: d.swaps }
    }
}

/// `k` attempted exchanges.
pub open spec fn attempts(
    c: Canvas,
    colors: Seq<Rgb>,
    strokes: Seq<PixelData>,
    d: Drawing,
    k: nat,
) -> Drawing
    decreases k,
{
    if k == 0 {
        d
    } else {
        attempt(c, colors, strokes, attempts(c, colors, strokes, d, (k - 1) as nat))
    }
}

/// Where the pixel of every position comes from.
pub open spec fn origins(pixels: Seq<DrawingPixel>) -> Seq<usize> {
    Seq::new(pixels.len(), |i: int| origin(pixels[i]) as usize)
}

/// The drawing covers the canvas with its own pixels, whose costs can be added.
pub open spec fn sound(pixels: Seq<DrawingPixel>) -> bool {
    let lim = drawing_cost_limit() - STROKE_REWARD;
    &&& pixels.len() == CANVAS_PIXELS
    &&& on_canvas(pixels)
    &&& forall|i: int| 0 <= i < pixels.len() ==> -lim <= (#[trigger] pixels[i]).h <= lim
    &&& perm::is_perm(origins(pixels), CANVAS_PIXELS as nat)
}

proof fn lemma_cost_at(c: Canvas, p: DrawingPixel, at: int, colors: Seq<Rgb>)
    requires
        c.fit(),
        p.src_x < DRAWING_CANVAS_SIZE,
        p.src_y < DRAWING_CANVAS_SIZE,
        0 <= at < CANVAS_PIXELS,
        colors.len() >= CANVAS_PIXELS,
    ensures
        0 <= origin(p) < CANVAS_PIXELS,
        cost::heuristic_fits(
            (p.src_x, p.src_y),
            cost::grid_pos(at, DRAWING_CANVAS_SIZE as int),
            colors[origin(p)],
            c.target[at],
            c.weights[at] as int,
            c.proximity_importance as int,
        ),
        -drawing_cost_limit() <= c.cost_at(p, at, colors) <= drawing_cost_limit(),
{
    let lim = drawing_cost_limit();
    let source = colors.take(CANVAS_PIXELS as int);
    cost::lemma_grid_within(
        source,
        c.target,
        c.weights,
        DRAWING_CANVAS_SIZE as int,
        c.proximity_importance,
        lim,
    );
    let q = cost::grid_problem(
        source,
        c.target,
        c.weights,
        DRAWING_CANVAS_SIZE as int,
        c.proximity_importance,
    );
    let o = origin(p);
    assert(-lim <= q.at(at, o) <= lim);
    assert(q.at_fits(at, o));
    assert(cost::grid_pos(o, 128) == (p.src_x, p.src_y));
    cost::lemma_heuristic_symmetric(
        cost::grid_pos(at, 128),
        (p.src_x, p.src_y),
        c.target[at],
        colors[o],
        c.weights[at] as int,
        c.proximity_importance as int,
    );
}

proof fn lemma_places(d: Drawing)
    ensures
        0 <= first_place(d) < CANVAS_PIXELS,
        0 <= second_place(d) < CANVAS_PIXELS,
{
}

proof fn lemma_attempt(c: Canvas, colors: Seq<Rgb>, strokes: Seq<PixelData>, d: Drawing)
    requires
        c.fit(),
        colors.len() >= CANVAS_PIXELS,
        sound(d.pixels),
    ensures
        sound(attempt(c, colors, strokes, d).pixels),
{
    lemma_places(d);
    let x = first_place(d);
    let y = second_place(d);
    let px = d.pixels[x];
    let py = d.pixels[y];
    lemma_cost_at(c, px, y, colors);
    lemma_cost_at(c, py, x, colors);
    let e = attempt(c, colors, strokes, d).pixels;
    perm::lemma_swap_keeps_perm(origins(d.pixels), CANVAS_PIXELS as nat, x, y);
    let x_on_y = c.cost_at(px, y, colors) + reward(y, x, strokes, d.pixels);
    let y_on_x = c.cost_at(py, x, colors) + reward(x, y, strokes, d.pixels);
    if (px.h - y_on_x) + (py.h - x_on_y) > 0 {
        assert(origins(e) =~= perm::swapped(origins(d.pixels), x, y));
    } else {
        assert(origins(e) =~= origins(d.pixels));
    }
}

/// Exchanges keep the drawing a rearrangement of its own pixels.
pub proof fn lemma_attempts_keep_permutation(
    c: Canvas,
    colors: Seq<Rgb>,
    strokes: Seq<PixelData>,
    d: Drawing,
    k: nat,
)
    requires
        c.fit(),
        colors.len() >= CANVAS_PIXELS,
        sound(d.pixels),
    ensures
        sound(attempts(c, colors, strokes, d, k).pixels),
    decreases k,
{
    if k > 0 {
        lemma_attempts_keep_permutation(c, colors, strokes, d, (k - 1) as nat);
        lemma_attempt(c, colors, strokes, attempts(c, colors, strokes, d, (k - 1) as nat));
    }
}

/// The sum of what the pixels cost where they are.
pub open spec fn recorded_cost(pixels: Seq<DrawingPixel>) -> int {
    perm::sum_to(|i: int| pixels[i].h as int, pixels.len())
}

/// An exchange is made only if it lowers the recorded cost.
pub proof fn lemma_attempt_lowers_cost(
    c: Canvas,
    colors: Seq<Rgb>,
    strokes: Seq<PixelData>,
    d: Drawing,
)
    requires
        c.fit(),
        colors.len() >= CANVAS_PIXELS,
        sound(d.pixels),
    ensures
        attempt(c, colors, strokes, d).swaps > d.swaps ==> recorded_cost(
            attempt(c, colors, strokes, d).pixels,
        ) < recorded_cost(d.pixels),
        attempt(c, colors, strokes, d).swaps == d.swaps ==> attempt(c, colors, strokes, d).pixels
            == d.pixels,
{
    lemma_places(d);
    let x = first_place(d);
    let y = second_place(d);
    let px = d.pixels[x];
    let py = d.pixels[y];
    lemma_cost_at(c, px, y, colors);
    lemma_cost_at(c, py, x, colors);
    let x_on_y = c.cost_at(px, y, colors) + reward(y, x, strokes, d.pixels);
    let y_on_x = c.cost_at(py, x, colors) + reward(x, y, strokes, d.pixels);
    if (px.h - y_on_x) + (py.h - x_on_y) > 0 {
        let e = attempt(c, colors, strokes, d).pixels;
        let f = |i: int| d.pixels[i].h as int;
        let g = |i: int| e[i].h as int;
        let n = d.pixels.len();
        assert(e.len() == n);
        if x == y {
            perm::lemma_sum_update(f, g, n, x);
        } else {
            perm::lemma_sum_update2(f, g, n, x, y);
        }
    }
}

/// The settings suit a drawing: the working size is that of the canvas.
pub open spec fn drawing_settings_fit(settings: &GenerationSettings) -> bool {
    &&& job::settings_fit(settings)
    &&& settings.sidelen == DRAWING_CANVAS_SIZE
    &&& 195075 * 255 + cost::square(
        2 * cost::square(127) * settings.proximity_importance,
    ) <= drawing_cost_limit()
}

/// Whether a drawing with these settings can be optimised from this source.
pub fn accepts(source: &UnprocessedPreset, settings: &GenerationSettings) -> (r: bool)
    ensures
        r == (drawing_settings_fit(settings) && job::source_fits(source, settings)),
{
    if settings.sidelen as usize != DRAWING_CANVAS_SIZE || !pipeline::accepts(source, settings) {
        return false;
    }
    let span: i128 = 32258 * settings.proximity_importance as i128;
    assert(cost::square(127) == 16129) by (nonlinear_arith);
    assert(span == 2 * cost::square(127) * settings.proximity_importance);
    if span > 0x8000_0000 || span < -0x8000_0000 {
        assert(span * span > 0x4000_0000_0000_0000) by (nonlinear_arith)
            requires
                span > 0x8000_0000 || span < -0x8000_0000,
        ;
        return false;
    }
    assert(0 <= span * span <= 0x4000_0000_0000_0000) by (nonlinear_arith)
        requires
            -0x8000_0000 <= span <= 0x8000_0000,
    ;
    195075 * 255 + span * span <= i64::MAX as i128 / 8
}

/// The message about a drawing with too few bytes.
pub open spec fn canvas_message(u: &UnprocessedPreset) -> Seq<char> {
    "invalid canvas source buffer: "@ + text::decimal(u.width as nat) + "x"@ + text::decimal(
        u.height as nat,
    ) + " RGB image got "@ + text::decimal(u.source_img@.len()) + " bytes"@
}

/// Why a drawing cannot be optimised, if it cannot.
pub open spec fn canvas_error(
    u: &UnprocessedPreset,
    settings: &GenerationSettings,
    assets: &Assets,
) -> Option<Seq<char>> {
    if !job::preset_picture(u).complete() {
        Some(canvas_message(u))
    } else {
        settings.target_error(assets)
    }
}

/// Optimises the arrangement of a drawing step by step.
pub struct DrawingOptimizer {
    pub target_pixels: Vec<Rgb>,
    pub weights: Vec<i64>,
    pub proximity_importance: i64,
    pub pixels: Vec<DrawingPixel>,
    pub generator: frand::Rand,
}

impl DrawingOptimizer {
    pub open spec fn canvas(&self) -> Canvas {
        Canvas {
            target: self.target_pixels@,
            weights: self.weights@,
            proximity_importance: self.proximity_importance,
        }
    }

    pub open spec fn drawing(&self) -> Drawing {
        Drawing { pixels: self.pixels@, state: rng::state_of(self.generator), swaps: 0 }
    }

    pub open spec fn wf(&self) -> bool {
        &&& self.canvas().fit()
        &&& sound(self.pixels@)
    }

    /// An optimiser for a target and the colours of the canvas, with every pixel in
    /// its own place.
    pub fn start(
        target_pixels: Vec<Rgb>,
        weights: Vec<i64>,
        proximity_importance: i64,
        colors: &[Rgb],
    ) -> (r: Self)
        requires
            (Canvas {
                target: target_pixels@,
                weights: weights@,
                proximity_importance,
            }).fit(),
            colors@.len() >= CANVAS_PIXELS,
        ensures
            r.wf(),
            r.canvas() == (Canvas {
                target: target_pixels@,
                weights: weights@,
                proximity_importance,
            }),
            r.drawing() == first_drawing(r.canvas(), colors@),
    {
        let ghost c = Canvas { target: target_pixels@, weights: weights@, proximity_importance };
        let mut pixels: Vec<DrawingPixel> = Vec::with_capacity(CANVAS_PIXELS);
        let ghost lim = drawing_cost_limit() - STROKE_REWARD;
        let mut i: usize = 0;
        while i < CANVAS_PIXELS
            invariant
                i <= CANVAS_PIXELS,
                c == (Canvas { target: target_pixels@, weights: weights@, proximity_importance }),
                c.fit(),
                lim == drawing_cost_limit() - STROKE_REWARD,
                colors@.len() >= CANVAS_PIXELS,
                pixels@.len() == i,
                forall|k: int|
                    0 <= k < i ==> #[trigger] pixels@[k] == first_pixel(c, colors@, k),
                forall|k: int|
                    0 <= k < i ==> (#[trigger] pixels@[k]).src_x == k % 128 && pixels@[k].src_y
                        == k / 128 && -lim <= pixels@[k].h <= lim,
            decreases CANVAS_PIXELS - i,
        {
            let x: u16 = (i % DRAWING_CANVAS_SIZE) as u16;
            let y: u16 = (i / DRAWING_CANVAS_SIZE) as u16;
            let mut p = DrawingPixel::new(x, y, 0);
            proof {
                lemma_cost_at(c, p, i as int, colors@);
            }
            let h: i64 = p.calc_drawing_heuristic(
                (x, y),
                target_pixels[i],
                weights[i],
                colors,
                proximity_importance,
            ) + STROKE_REWARD;
            p.update_heuristic(h);
            pixels.push(p);
            i += 1;
        }
        proof {
            let o = origins(pixels@);
            assert forall|k: int| 0 <= k < CANVAS_PIXELS implies #[trigger] o[k] == k by {
                assert(pixels@[k].src_x == k % 128);
            }
        }
        let r = DrawingOptimizer {
            target_pixels,
            weights,
            proximity_importance,
            pixels,
            generator: rng::with_seed(DRAWING_SEED),
        };
        proof {
            assert(r.drawing() =~= first_drawing(c, colors@));
        }
        r
    }

    /// An optimiser for a drawing and settings.
    pub fn new(
        source: &UnprocessedPreset,
        settings: &GenerationSettings,
        assets: &Assets,
        colors: &[Rgb],
    ) -> (r: Result<Self, String>)
        requires
            drawing_settings_fit(settings),
            job::source_fits(source, settings),
            colors@.len() >= CANVAS_PIXELS,
        ensures
            match r {
                Ok(o) => {
                    &&& canvas_error(source, settings, assets) is None
                    &&& o.wf()
                    &&& o.proximity_importance == settings.proximity_importance
                    &&& exists|t: PictureData| #[trigger]
                        settings.resolves_to(assets, t, o.weights@) && o.target_pixels@
                            == t.pixels()
                    &&& o.drawing() == first_drawing(o.canvas(), colors@)
                },
                Err(e) => canvas_error(source, settings, assets) == Some(e@),
            },
    {
        let data = slices::copied(&source.source_img);
        let picture = match Picture::from_vec(source.width, source.height, data) {
            Some(p) => p,
            None => {
                let mut msg = "invalid canvas source buffer: ".to_string();
                text::append_decimal(&mut msg, source.width as u64);
                msg.append("x");
                text::append_decimal(&mut msg, source.height as u64);
                msg.append(" RGB image got ");
                text::append_decimal(&mut msg, source.source_img.len() as u64);
                msg.append(" bytes");
                return Err(msg);
            },
        };
        let (target_pixels, weights) = match job::get_images(picture, settings, assets) {
            Ok((_, t, w)) => (t, w),
            Err(e) => {
                return Err(e);
            },
        };
        let ghost shown = choose|tp: PictureData| #[trigger]
            settings.resolves_to(assets, tp, weights@) && target_pixels@ == tp.pixels();
        proof {
            job::lemma_weights_small(settings, assets, shown, weights@);
        }
        let r = Self::start(target_pixels, weights, settings.proximity_importance, colors);
        proof {
            assert(settings.resolves_to(assets, shown, r.weights@));
            assert(exists|t: PictureData| #[trigger]
                settings.resolves_to(assets, t, r.weights@) && r.target_pixels@ == t.pixels());
            assert(r.drawing() == first_drawing(r.canvas(), colors@));
        }
        Ok(r)
    }

    /// Attempts `swap_budget` exchanges. The new arrangement, if any was made.
    pub fn step(&mut self, colors: &[Rgb], pixel_data: &[PixelData], swap_budget: usize) -> (r:
        Option<Vec<usize>>)
        requires
            old(self).wf(),
            colors@.len() >= CANVAS_PIXELS,
            pixel_data@.len() >= CANVAS_PIXELS,
        ensures
            final(self).wf(),
            final(self).canvas() == old(self).canvas(),
            ({
                let d = attempts(
                    old(self).canvas(),
                    colors@,
                    pixel_data@,
                    old(self).drawing(),
                    swap_budget as nat,
                );
                &&& final(self).pixels@ == d.pixels
                &&& rng::state_of(final(self).generator) == d.state
                &&& r is Some <==> d.swaps > 0
                &&& r matches Some(a) ==> a@ == origins(d.pixels) && perm::is_perm(
                    a@,
                    CANVAS_PIXELS as nat,
                )
            }),
    {
        let ghost c = self.canvas();
        let ghost d0 = self.drawing();
        let mut any = false;
        let mut k: usize = 0;
        while k < swap_budget
            invariant
                k <= swap_budget,
                c == self.canvas(),
                c == old(self).canvas(),
                c.fit(),
                sound(d0.pixels),
                d0 == old(self).drawing(),
                colors@.len() >= CANVAS_PIXELS,
                pixel_data@.len() >= CANVAS_PIXELS,
                ({
                    let d = attempts(c, colors@, pixel_data@, d0, k as nat);
                    &&& self.pixels@ == d.pixels
                    &&& rng::state_of(self.generator) == d.state
                    &&& any == (d.swaps > 0)
                }),
            decreases swap_budget - k,
        {
            proof {
                lemma_attempts_keep_permutation(c, colors@, pixel_data@, d0, k as nat);
            }
            let ghost d = attempts(c, colors@, pixel_data@, d0, k as nat);
            let hit = self.attempt_swap(colors, pixel_data, Ghost(d));
            any = any || hit;
            k += 1;
        }
        proof {
            lemma_attempts_keep_permutation(c, colors@, pixel_data@, d0, swap_budget as nat);
        }
        if any {
            Some(self.assignments())
        } else {
            None
        }
    }

    /// One attempted exchange; true if it was made.
    fn attempt_swap(
        &mut self,
        colors: &[Rgb],
        pixel_data: &[PixelData],
        Ghost(d): Ghost<Drawing>,
    ) -> (r: bool)
        requires
            old(self).canvas().fit(),
            sound(old(self).pixels@),
            colors@.len() >= CANVAS_PIXELS,
            pixel_data@.len() >= CANVAS_PIXELS,
            d.pixels == old(self).pixels@,
            d.state == rng::state_of(old(self).generator),
        ensures
            final(self).canvas() == old(self).canvas(),
            ({
                let e = attempt(old(self).canvas(), colors@, pixel_data@, d);
                &&& final(self).pixels@ == e.pixels
                &&& rng::state_of(final(self).generator) == e.state
                &&& r == (e.swaps > d.swaps)
            }),
    {
        let ghost c = self.canvas();
        proof {
            lemma_places(d);
            assert(rng::state_after(d.state, 1) == rng::next_state(d.state)) by {
                assert(rng::state_after(d.state, 0) == d.state);
            }
            assert(rng::state_after(d.state, 2) == rng::next_state(rng::state_after(d.state, 1)));
            assert(rng::state_after(d.state, 3) == rng::next_state(rng::state_after(d.state, 2)));
        }
        let x: usize = rng::below_u64(&mut self.generator, CANVAS_PIXELS as u64) as usize;
        assert(x == first_place(d));
        let ax: u16 = (x % DRAWING_CANVAS_SIZE) as u16;
        let ay: u16 = (x / DRAWING_CANVAS_SIZE) as u16;
        let rx: i16 = rng::between_i16(&mut self.generator, -MAX_SEARCH, MAX_SEARCH + 1);
        let ry: i16 = rng::between_i16(&mut self.generator, -MAX_SEARCH, MAX_SEARCH + 1);
        let bx: i64 = patchmatch::clamp(ax as i64 + rx as i64, 0, 127);
        let by: i64 = patchmatch::clamp(ay as i64 + ry as i64, 0, 127);
        let y: usize = (by * 128 + bx) as usize;
        assert(y == second_place(d));
        let px = self.pixels[x];
        let py = self.pixels[y];
        proof {
            lemma_cost_at(c, px, y as int, colors@);
            lemma_cost_at(c, py, x as int, colors@);
            assert(cost::grid_pos(y as int, 128) == (bx as u16, by as u16));
            assert(cost::grid_pos(x as int, 128) == (ax, ay));
            assert(d.pixels[x as int] == px && d.pixels[y as int] == py);
        }
        let x_on_y: i64 = px.calc_drawing_heuristic(
            (bx as u16, by as u16),
            self.target_pixels[y],
            self.weights[y],
            colors,
            self.proximity_importance,
        ) + stroke_reward(y, x, pixel_data, &self.pixels);
        let y_on_x: i64 = py.calc_drawing_heuristic(
            (ax, ay),
            self.target_pixels[x],
            self.weights[x],
            colors,
            self.proximity_importance,
        ) + stroke_reward(x, y, pixel_data, &self.pixels);
        let gain_x: i64 = px.h - y_on_x;
        let gain_y: i64 = py.h - x_on_y;
        if gain_x + gain_y > 0 {
            self.pixels.set(x, py);
            self.pixels.set(y, px);
            let mut one = self.pixels[x];
            one.update_heuristic(y_on_x);
            self.pixels.set(x, one);
            let mut two = self.pixels[y];
            two.update_heuristic(x_on_y);
            self.pixels.set(y, two);
            true
        } else {
            false
        }
    }

    /// Where the pixel of every position comes from.
    pub fn assignments(&self) -> (r: Vec<usize>)
        requires
            on_canvas(self.pixels@),
        ensures
            r@ == origins(self.pixels@),
    {
        let n: usize = self.pixels.len();
        let mut out: Vec<usize> = Vec::with_capacity(n);
        let mut i: usize = 0;
        while i < n
            invariant
                i <= n,
                n == self.pixels@.len(),
                on_canvas(self.pixels@),
                out@ == origins(self.pixels@).take(i as int),
            decreases n - i,
        {
            let p = self.pixels[i];
            assert(self.pixels@[i as int].src_x < DRAWING_CANVAS_SIZE);
            out.push(p.src_y as usize * DRAWING_CANVAS_SIZE + p.src_x as usize);
            proof {
                let goal = origins(self.pixels@);
                assert(goal.take(i + 1) =~= goal.take(i as int).push(goal[i as int]));
            }
            i += 1;
        }
        assert(out@ =~= origins(self.pixels@));
        out
    }

    /// One round of live optimisation: attempts exchanges, reports the new
    /// arrangement if any was made, and stops with a cancellation once another
    /// drawing is current.
    pub fn round<S: ProgressSink>(
        &mut self,
        colors: &[Rgb],
        pixel_data: &[PixelData],
        swap_budget: usize,
        my_id: u32,
        current_id: u32,
        tx: &mut S,
    ) -> (go: bool)
        requires
            old(self).wf(),
            colors@.len() >= CANVAS_PIXELS,
            pixel_data@.len() >= CANVAS_PIXELS,
        ensures
            final(self).wf(),
            final(self).canvas() == old(self).canvas(),
            go == (my_id == current_id),
            ({
                let d = attempts(
                    old(self).canvas(),
                    colors@,
                    pixel_data@,
                    old(self).drawing(),
                    swap_budget as nat,
                );
                let told = if d.swaps > 0 {
                    old(tx).log().push(Message::Assignments(origins(d.pixels)))
                } else {
                    old(tx).log()
                };
                &&& final(self).pixels@ == d.pixels
                &&& rng::state_of(final(self).generator) == d.state
                &&& final(tx).log() == if go {
                    told
                } else {
                    told.push(Message::Cancelled)
                }
            }),
    {
        match self.step(colors, pixel_data, swap_budget) {
            Some(assignments) => {
                tx.send(ProgressMsg::UpdateAssignments(assignments));
            },
            None => {},
        }
        if my_id != current_id {
            tx.send(ProgressMsg::Cancelled);
            return false;
        }
        true
    }
}

/// `p` and `q` lie side by side on the canvas, in a row or in a column.
pub open spec fn side_by_side(p: int, q: int) -> bool {
    cost::absolute(p % 128 - q % 128) + cost::absolute(p / 128 - q / 128) == 1
}

/// The reward is ten thousand million, for a place beside a pixel of the same stroke.
pub proof fn lemma_reward_is_for_the_own_stroke(
    newpos: int,
    oldpos: int,
    strokes: Seq<PixelData>,
    pixels: Seq<DrawingPixel>,
)
    requires
        0 <= newpos < 16384,
    ensures
        reward(newpos, oldpos, strokes, pixels) == if exists|q: int|
            0 <= q < 16384 && side_by_side(newpos, q) && stroke_of(strokes, #[trigger] pixels[q])
                == stroke_of(strokes, pixels[oldpos]) {
            -10000000000int
        } else {
            0
        },
{
    assert forall|d: int| 0 <= d < 4 implies (#[trigger] beside(newpos, d) matches Some(q) ==> 0
        <= q < 16384 && side_by_side(newpos, q)) by {}
    if touches_stroke(newpos, oldpos, strokes, pixels) {
        let d = choose|d: int|
            0 <= d < 4 && (#[trigger] beside(newpos, d) matches Some(p) && stroke_of(
                strokes,
                pixels[p],
            ) == stroke_of(strokes, pixels[oldpos]));
        let q = beside(newpos, d).unwrap();
        assert(stroke_of(strokes, pixels[q]) == stroke_of(strokes, pixels[oldpos]));
    }
    if exists|q: int|
        0 <= q < 16384 && side_by_side(newpos, q) && stroke_of(strokes, #[trigger] pixels[q])
            == stroke_of(strokes, pixels[oldpos]) {
        let q = choose|q: int|
            0 <= q < 16384 && side_by_side(newpos, q) && stroke_of(strokes, #[trigger] pixels[q])
                == stroke_of(strokes, pixels[oldpos]);
        let d = if q / 128 < newpos / 128 {
            0int
        } else if q % 128 < newpos % 128 {
            1
        } else if q % 128 > newpos % 128 {
            2
        } else {
            3
        };
        assert(beside(newpos, d) == Some(q));
    }
}

/// What a pixel costs at a place, without a reward, is what its origin costs there in
/// the assignment problem of the canvas.
pub proof fn lemma_cost_is_that_of_the_problem(
    c: Canvas,
    p: DrawingPixel,
    at: int,
    colors: Seq<Rgb>,
)
    requires
        p.src_x < 128,
        p.src_y < 128,
        0 <= at < 16384,
        c.target.len() == 16384,
        c.weights.len() == 16384,
        colors.len() == 16384,
    ensures
        c.cost_at(p, at, colors) == cost::grid_problem(
            colors,
            c.target,
            c.weights,
            128,
            c.proximity_importance,
        ).at(at, p.src_y * 128 + p.src_x),
{
    let o = origin(p);
    assert(cost::grid_pos(o, 128) == (p.src_x, p.src_y));
    cost::lemma_heuristic_symmetric(
        cost::grid_pos(at, 128),
        (p.src_x, p.src_y),
        c.target[at],
        colors[o],
        c.weights[at] as int,
        c.proximity_importance as int,
    );
}

/// One attempt draws two places, the second at most thirty-two away along both axes. The
/// pixels change places exactly if what they would cost there, with their rewards, is
/// less in sum than what they are recorded to cost; all others stay.
pub proof fn lemma_attempt_takes_the_cheaper(
    c: Canvas,
    colors: Seq<Rgb>,
    strokes: Seq<PixelData>,
    d: Drawing,
) -> (places: (int, int))
    requires
        c.fit(),
        colors.len() >= 16384,
        sound(d.pixels),
    ensures
        ({
            let (x, y) = places;
            let e = attempt(c, colors, strokes, d);
            let px = d.pixels[x];
            let py = d.pixels[y];
            let on_x = c.cost_at(py, x, colors) + reward(x, y, strokes, d.pixels);
            let on_y = c.cost_at(px, y, colors) + reward(y, x, strokes, d.pixels);
            &&& x == rng::draw64(d.state) as int % 16384
            &&& 0 <= y < 16384
            &&& -32 <= y % 128 - x % 128 <= 32
            &&& -32 <= y / 128 - x / 128 <= 32
            &&& e.state == rng::state_after(d.state, 3)
            &&& e.pixels.len() == d.pixels.len()
            &&& forall|i: int|
                0 <= i < d.pixels.len() && i != x && i != y ==> #[trigger] e.pixels[i]
                    == d.pixels[i]
            &&& if on_x + on_y < px.h + py.h {
                &&& e.swaps == d.swaps + 1
                &&& e.pixels[x] == (DrawingPixel { src_x: py.src_x, src_y: py.src_y, h: on_x as i64 })
                &&& e.pixels[y] == (DrawingPixel { src_x: px.src_x, src_y: px.src_y, h: on_y as i64 })
                &&& e.pixels[x].h == on_x && e.pixels[y].h == on_y
            } else {
                &&& e.swaps == d.swaps
                &&& e.pixels == d.pixels
            }
        }),
{
    lemma_places(d);
    let x = first_place(d);
    let y = second_place(d);
    let px = d.pixels[x];
    let py = d.pixels[y];
    lemma_cost_at(c, px, y, colors);
    lemma_cost_at(c, py, x, colors);
    (x, y)
}

/// A drawing starts with every pixel in its own place, at its cost there and with the
/// reward.
pub proof fn lemma_drawing_starts_in_place(c: Canvas, colors: Seq<Rgb>, i: int)
    requires
        c.fit(),
        colors.len() == 16384,
        0 <= i < 16384,
    ensures
        first_drawing(c, colors).pixels.len() == 16384,
        first_drawing(c, colors).pixels[i].src_x == i % 128,
        first_drawing(c, colors).pixels[i].src_y == i / 128,
        origins(first_drawing(c, colors).pixels)[i] == i,
        first_drawing(c, colors).pixels[i].h == cost::grid_problem(
            colors,
            c.target,
            c.weights,
            128,
            c.proximity_importance,
        ).at(i, i) - 10000000000,
        first_drawing(c, colors).swaps == 0,
        first_drawing(c, colors).state == rng::seeded_state(12345),
{
    let (x, y) = cost::grid_pos(i, 128);
    let p = DrawingPixel { src_x: x, src_y: y, h: 0 };
    lemma_cost_at(c, p, i, colors);
    lemma_cost_is_that_of_the_problem(c, p, i, colors);
    cost::lemma_grid_pos(i, 128);
}

} // verus!
