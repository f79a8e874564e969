//! From a preset and settings to an assignment problem, and from an assignment
//! to previews and finished presets.

use crate::cost;
use crate::cost::{CostLookup, Problem, Rgb};
use crate::images;
use crate::images::{Crop, Picture, PictureData};
use crate::jonker_volgenant;
use crate::local_swap;
use crate::multiscale::Pictures;
use crate::preset::{PictureModel, Preset, PresetModel, UnprocessedPreset};
use crate::progress::{Message, ProgressMsg, ProgressSink};
use crate::settings::{Assets, GenerationSettings};
use crate::slices;
use crate::text;
use vstd::prelude::*;
use vstd::string::*;

verus! {

/// The channel `k` of a colour.
pub open spec fn channel(c: Rgb, k: int) -> u8 {
    if k == 0 {
        c.0
    } else if k == 1 {
        c.1
    } else {
        c.2
    }
}

/// The bytes of a row of pixels.
pub open spec fn rgb_bytes(pixels: Seq<Rgb>) -> Seq<u8> {
    Seq::new(3 * pixels.len(), |i: int| channel(pixels[i / 3], i % 3))
}

/// The picture in which every target shows its assigned source; targets
/// without one are black.
pub open spec fn arranged(source: Seq<Rgb>, a: Seq<usize>, side: int) -> Seq<u8> {
    Seq::new(
        (side * side * 3) as nat,
        |i: int|
            if i / 3 < a.len() {
                channel(source[a[i / 3] as int], i % 3)
            } else {
                0
            },
    )
}

/// Builds a preview by rearranging source pixels according to the assignments.
pub fn make_new_img(source_pixels: &[Rgb], assignments: &[usize], sidelen: u32) -> (r: Vec<u8>)
    requires
        sidelen * sidelen * 3 <= u32::MAX,
        assignments@.len() <= sidelen * sidelen,
        forall|i: int|
            0 <= i < assignments@.len() ==> (#[trigger] assignments@[i]) < source_pixels@.len(),
    ensures
        r@ == arranged(source_pixels@, assignments@, sidelen as int),
{
    proof {
        assert(0 <= sidelen * sidelen) by (nonlinear_arith);
    }
    let total: usize = (sidelen * sidelen * 3) as usize;
    let mut img: Vec<u8> = vec![0; total];
    let ghost goal = arranged(source_pixels@, assignments@, sidelen as int);
    let mut t: usize = 0;
    while t < assignments.len()
        invariant
            total == sidelen * sidelen * 3,
            t <= assignments@.len() <= sidelen * sidelen,
            forall|i: int|
                0 <= i < assignments@.len() ==> (#[trigger] assignments@[i])
                    < source_pixels@.len(),
            goal == arranged(source_pixels@, assignments@, sidelen as int),
            img@.len() == total,
            forall|i: int|
                0 <= i < total ==> #[trigger] img@[i] == (if i < 3 * t {
                    goal[i]
                } else {
                    0
                }),
        decreases assignments@.len() - t,
    {
        let px = source_pixels[assignments[t]];
        let base: usize = t * 3;
        img.set(base, px.0);
        img.set(base + 1, px.1);
        img.set(base + 2, px.2);
        proof {
            assert((3 * t) / 3 == t && (3 * t + 1) / 3 == t && (3 * t + 2) / 3 == t);
        }
        t += 1;
    }
    proof {
        assert(img@ =~= goal);
    }
    img
}

/// The bytes of a row of pixels.
pub fn flatten(pixels: &[Rgb]) -> (r: Vec<u8>)
    ensures
        r@ == rgb_bytes(pixels@),
{
    let mut out: Vec<u8> = Vec::new();
    let ghost goal = rgb_bytes(pixels@);
    let mut t: usize = 0;
    while t < pixels.len()
        invariant
            t <= pixels@.len(),
            goal == rgb_bytes(pixels@),
            out@ == goal.take(3 * t as int),
        decreases pixels@.len() - t,
    {
        let px = pixels[t];
        out.push(px.0);
        out.push(px.1);
        out.push(px.2);
        proof {
            let k = t as int;
            assert((3 * k) / 3 == k && (3 * k + 1) / 3 == k && (3 * k + 2) / 3 == k);
            assert(goal.take(3 * k + 3) =~= goal.take(3 * k).push(goal[3 * k]).push(
                goal[3 * k + 1],
            ).push(goal[3 * k + 2]));
        }
        t += 1;
    }
    proof {
        assert(out@ =~= goal);
    }
    out
}

/// A preview message of an assignment.
pub open spec fn preview(source: Seq<Rgb>, a: Seq<usize>, sidelen: u32) -> Message {
    Message::Preview(sidelen, sidelen, arranged(source, a, sidelen as int))
}

/// The preset that a finished run delivers.
pub open spec fn finished(
    name: Seq<char>,
    source: Seq<Rgb>,
    a: Seq<usize>,
    sidelen: u32,
) -> PresetModel {
    PresetModel {
        inner: PictureModel {
            name,
            width: sidelen,
            height: sidelen,
            source_img: rgb_bytes(source),
        },
        assignments: a,
    }
}

/// Sends a preview frame and the completed part of the work.
pub fn emit_preview<S: ProgressSink>(
    tx: &mut S,
    source_pixels: &[Rgb],
    assignments: &[usize],
    sidelen: u32,
    num: u64,
    den: u64,
)
    requires
        sidelen * sidelen * 3 <= u32::MAX,
        assignments@.len() <= sidelen * sidelen,
        forall|i: int|
            0 <= i < assignments@.len() ==> (#[trigger] assignments@[i]) < source_pixels@.len(),
    ensures
        final(tx).log() == old(tx).log().push(
            preview(source_pixels@, assignments@, sidelen),
        ).push(Message::Progress(num as nat, den as nat)),
{
    let data = make_new_img(source_pixels, assignments, sidelen);
    tx.send(ProgressMsg::UpdatePreview { width: sidelen, height: sidelen, data });
    tx.send(ProgressMsg::Progress { num, den });
}

/// Sends the finished preset.
pub fn finalize_preset<S: ProgressSink>(
    tx: &mut S,
    unprocessed_name: String,
    source_pixels: &[Rgb],
    assignments: Vec<usize>,
    sidelen: u32,
)
    ensures
        final(tx).log() == old(tx).log().push(
            Message::Done(
                finished(unprocessed_name@, source_pixels@, assignments@, sidelen),
            ),
        ),
{
    let done = Preset {
        inner: UnprocessedPreset {
            name: unprocessed_name,
            width: sidelen,
            height: sidelen,
            source_img: flatten(source_pixels),
        },
        assignments,
    };
    tx.send(ProgressMsg::Done(done));
}

/// A resolved run: the name of the preset, the pixels of both pictures at the
/// working size, and the weights of the target.
pub struct Job {
    pub name: String,
    pub source: Vec<Rgb>,
    pub target: Vec<Rgb>,
    pub weights: Vec<i64>,
    pub sidelen: u32,
    pub proximity_importance: i64,
}

/// The contents of a [`Job`].
#[verifier::ext_equal]
pub struct JobModel {
    pub name: Seq<char>,
    pub source: Seq<Rgb>,
    pub target: Seq<Rgb>,
    pub weights: Seq<i64>,
    pub sidelen: u32,
    pub proximity_importance: i64,
}

impl View for Job {
    type V = JobModel;

    open spec fn view(&self) -> JobModel {
        JobModel {
            name: self.name@,
            source: self.source@,
            target: self.target@,
            weights: self.weights@,
            sidelen: self.sidelen,
            proximity_importance: self.proximity_importance,
        }
    }
}

impl JobModel {
    pub open spec fn pictures(self) -> Pictures {
        Pictures {
            source: self.source,
            target: self.target,
            weights: self.weights,
            side: self.sidelen as int,
            proximity_importance: self.proximity_importance,
        }
    }

    /// The assignment problem of the job.
    pub open spec fn problem(self) -> Problem {
        cost::grid_problem(
            self.source,
            self.target,
            self.weights,
            self.sidelen as int,
            self.proximity_importance,
        )
    }

    /// Square pictures, perhaps without pixels, whose bytes can be counted in 32
    /// bits and whose costs every solver can handle.
    pub open spec fn fit(self) -> bool {
        &&& if self.sidelen == 0 {
            self.source.len() == 0 && self.target.len() == 0 && self.weights.len() == 0
        } else {
            self.pictures().fit()
        }
        &&& self.sidelen * self.sidelen * 3 <= u32::MAX
    }
}

/// A job that fits poses a problem that every solver can handle.
pub proof fn lemma_job_solvable(j: JobModel)
    requires
        j.fit(),
    ensures
        j.problem().within(jonker_volgenant::exact_cost_limit()),
        j.problem().within(local_swap::pair_cost_limit()),
        j.problem().within(i64::MAX as int),
        j.pictures().solvable(j.problem()),
        j.problem().n() == j.sidelen * j.sidelen,
{
    let c = j.problem();
    if j.sidelen > 0 {
        cost::lemma_grid_within(
            j.source,
            j.target,
            j.weights,
            j.sidelen as int,
            j.proximity_importance,
            jonker_volgenant::exact_cost_limit(),
        );
    } else {
        assert(j.sidelen * j.sidelen == 0) by (nonlinear_arith)
            requires
                j.sidelen == 0,
        ;
    }
    cost::lemma_within_more(
        c,
        jonker_volgenant::exact_cost_limit(),
        local_swap::pair_cost_limit(),
    );
    cost::lemma_within_more(c, jonker_volgenant::exact_cost_limit(), i64::MAX as int);
}

impl Job {
    /// The cost lookup of the job.
    pub fn lookup(&self) -> (r: CostLookup)
        requires
            self@.fit(),
        ensures
            r@ == self@.problem(),
            r.weights@ == self.weights@,
            r.sidelen == self.sidelen,
    {
        CostLookup::new(
            slices::copied(&self.source),
            slices::copied(&self.target),
            slices::copied(&self.weights),
            self.sidelen,
            self.proximity_importance,
        )
    }
}

/// The settings ask for a side and a proximity that every solver can handle,
/// whatever the pictures: weights are at most 255.
pub open spec fn settings_fit(settings: &GenerationSettings) -> bool {
    &&& settings.sidelen <= 65535
    &&& settings.sidelen * settings.sidelen * 3 <= u32::MAX
    &&& settings.sidelen > 0 ==> 195075 * 255 + cost::square(
        2 * cost::square(settings.sidelen - 1) * settings.proximity_importance,
    ) <= jonker_volgenant::exact_cost_limit()
    &&& settings.target_complete()
}

/// The picture of a preset.
pub open spec fn preset_picture(u: &UnprocessedPreset) -> PictureData {
    PictureData { width: u.width, height: u.height, data: u.source_img@ }
}

/// The bytes of the preset can be counted, and the source crop lies within it.
pub open spec fn source_fits(u: &UnprocessedPreset, settings: &GenerationSettings) -> bool {
    &&& images::bytes_needed(u.width, u.height) <= usize::MAX
    &&& images::crop_fits(settings.source_crop, u.width, u.height)
}

/// The message about a preset with too few bytes.
pub open spec fn buffer_message(u: &UnprocessedPreset) -> Seq<char> {
    "invalid source image buffer: "@ + text::decimal(u.width as nat) + "x"@ + text::decimal(
        u.height as nat,
    ) + " requires "@ + text::decimal(images::bytes_needed(u.width, u.height)) + " RGB bytes, got "@
        + text::decimal(u.source_img@.len())
}

/// Why a preset and settings cannot be resolved, if they cannot.
pub open spec fn input_error(
    u: &UnprocessedPreset,
    settings: &GenerationSettings,
    assets: &Assets,
) -> Option<Seq<char>> {
    if !preset_picture(u).complete() {
        Some(buffer_message(u))
    } else {
        settings.target_error(assets)
    }
}

/// `source` are the pixels of the preset at the working size, `target` and
/// `weights` those that the settings resolve to.
pub open spec fn resolved(
    u: &UnprocessedPreset,
    settings: &GenerationSettings,
    assets: &Assets,
    source: Seq<Rgb>,
    target: Seq<Rgb>,
    weights: Seq<i64>,
) -> bool {
    exists|s: PictureData, t: PictureData|
        {
            &&& images::shows(settings.source_crop, preset_picture(u), settings.sidelen, s)
            &&& settings.resolves_to(assets, t, weights)
            &&& source == #[trigger] s.pixels()
            &&& target == #[trigger] t.pixels()
        }
}

/// Resolved pixels and weights make a job that fits.
proof fn lemma_resolved_fits(
    u: &UnprocessedPreset,
    settings: &GenerationSettings,
    assets: &Assets,
    j: JobModel,
)
    requires
        settings_fit(settings),
        resolved(u, settings, assets, j.source, j.target, j.weights),
        j.sidelen == settings.sidelen,
        j.proximity_importance == settings.proximity_importance,
    ensures
        j.fit(),
{
    let n = (settings.sidelen * settings.sidelen) as nat;
    assert(settings.sidelen * settings.sidelen >= 0) by (nonlinear_arith);
    assert(j.source.len() == n && j.target.len() == n);
    let t = choose|s: PictureData, t: PictureData|
        {
            &&& images::shows(settings.source_crop, preset_picture(u), settings.sidelen, s)
            &&& settings.resolves_to(assets, t, j.weights)
            &&& j.source == #[trigger] s.pixels()
            &&& j.target == #[trigger] t.pixels()
        };
    lemma_weights_small(settings, assets, t.1, j.weights);
}

/// The weights of a resolved target are bytes.
pub proof fn lemma_weights_small(
    settings: &GenerationSettings,
    assets: &Assets,
    target: PictureData,
    weights: Seq<i64>,
)
    requires
        settings.resolves_to(assets, target, weights),
    ensures
        weights.len() == settings.sidelen * settings.sidelen,
        forall|i: int| 0 <= i < weights.len() ==> 0 <= (#[trigger] weights[i]) <= 255,
{
    assert(settings.sidelen * settings.sidelen >= 0) by (nonlinear_arith);
    if settings.custom_target is None {
        let shown = choose|shown: PictureData|
            {
                &&& images::shows(
                    settings.weights_crop,
                    images::decoded_picture(assets.weights@).unwrap(),
                    settings.sidelen,
                    shown,
                )
                &&& weights == #[trigger] shown.reds()
            };
        assert(weights == shown.reds());
    }
}

/// `source/target pixel counts differ` where they do.
pub open spec fn counts_message(a: nat, b: nat) -> Seq<char> {
    "source/target pixel counts differ: "@ + text::decimal(a) + " vs "@ + text::decimal(b)
}

/// Checks that both pictures have the same number of pixels.
pub fn check_counts(source: usize, target: usize) -> (r: Result<(), String>)
    ensures
        r is Ok <==> source == target,
        r matches Err(e) ==> e@ == counts_message(source as nat, target as nat),
{
    if source != target {
        let mut msg = "source/target pixel counts differ: ".to_string();
        text::append_decimal(&mut msg, source as u64);
        msg.append(" vs ");
        text::append_decimal(&mut msg, target as u64);
        return Err(msg);
    }
    Ok(())
}

/// Resolves source pixels, target pixels and weights from a source picture and
/// settings.
pub fn get_images(source: Picture, settings: &GenerationSettings, assets: &Assets) -> (r: Result<
    (Vec<Rgb>, Vec<Rgb>, Vec<i64>),
    String,
>)
    requires
        settings_fit(settings),
        source@.complete(),
        images::crop_fits(settings.source_crop, source.width, source.height),
    ensures
        match r {
            Ok((s, t, w)) => {
                &&& settings.target_error(assets) is None
                &&& exists|sp: PictureData, tp: PictureData|
                    {
                        &&& images::shows(settings.source_crop, source@, settings.sidelen, sp)
                        &&& settings.resolves_to(assets, tp, w@)
                        &&& s@ == #[trigger] sp.pixels()
                        &&& t@ == #[trigger] tp.pixels()
                    }
            },
            Err(e) => settings.target_error(assets) == Some(e@),
        },
{
    let shown = settings.source_crop.apply(&source, settings.sidelen);
    let source_pixels = shown.pixels();
    let (target, weights) = match settings.get_target(assets) {
        Ok(t) => t,
        Err(e) => {
            return Err(e);
        },
    };
    let target_pixels = target.pixels();
    match check_counts(source_pixels.len(), target_pixels.len()) {
        Ok(_) => {},
        Err(e) => {
            return Err(e);
        },
    }
    proof {
        assert(source_pixels@ == shown@.pixels());
        assert(target_pixels@ == target@.pixels());
    }
    Ok((source_pixels, target_pixels, weights))
}

/// Resolves source pixels, target pixels and weights of a preset and settings.
pub fn resolve_pixels(
    unprocessed: &UnprocessedPreset,
    settings: &GenerationSettings,
    assets: &Assets,
) -> (r: Result<(Vec<Rgb>, Vec<Rgb>, Vec<i64>), String>)
    requires
        settings_fit(settings),
        source_fits(unprocessed, settings),
    ensures
        match r {
            Ok((s, t, w)) => input_error(unprocessed, settings, assets) is None && resolved(
                unprocessed,
                settings,
                assets,
                s@,
                t@,
                w@,
            ),
            Err(e) => input_error(unprocessed, settings, assets) == Some(e@),
        },
{
    let data = slices::copied(&unprocessed.source_img);
    match Picture::from_vec(unprocessed.width, unprocessed.height, data) {
        Some(p) => {
            assert(p@ == preset_picture(unprocessed));
            get_images(p, settings, assets)
        },
        None => {
            let w: u64 = unprocessed.width as u64;
            let h: u64 = unprocessed.height as u64;
            proof {
                assert(0 <= w * h) by (nonlinear_arith);
            }
            let mut msg = "invalid source image buffer: ".to_string();
            text::append_decimal(&mut msg, w);
            msg.append("x");
            text::append_decimal(&mut msg, h);
            msg.append(" requires ");
            text::append_decimal(&mut msg, w * h * 3);
            msg.append(" RGB bytes, got ");
            text::append_decimal(&mut msg, unprocessed.source_img.len() as u64);
            Err(msg)
        },
    }
}

/// `j` is a job that a preset and settings resolve to.
pub open spec fn job_of(
    u: &UnprocessedPreset,
    settings: &GenerationSettings,
    assets: &Assets,
    j: JobModel,
) -> bool {
    &&& resolved(u, settings, assets, j.source, j.target, j.weights)
    &&& j.name == u.name@
    &&& j.sidelen == settings.sidelen
    &&& j.proximity_importance == settings.proximity_importance
}

/// Resolves a preset and settings to a job.
pub fn resolve_job(
    unprocessed: &UnprocessedPreset,
    settings: &GenerationSettings,
    assets: &Assets,
) -> (r: Result<Job, String>)
    requires
        settings_fit(settings),
        source_fits(unprocessed, settings),
    ensures
        match r {
            Ok(job) => {
                &&& input_error(unprocessed, settings, assets) is None
                &&& job_of(unprocessed, settings, assets, job@)
                &&& job@.fit()
            },
            Err(e) => input_error(unprocessed, settings, assets) == Some(e@),
        },
{
    match resolve_pixels(unprocessed, settings, assets) {
        Ok((source, target, weights)) => {
            let job = Job {
                name: unprocessed.name.clone(),
                source,
                target,
                weights,
                sidelen: settings.sidelen,
                proximity_importance: settings.proximity_importance,
            };
            proof {
                lemma_resolved_fits(unprocessed, settings, assets, job@);
            }
            Ok(job)
        },
        Err(e) => Err(e),
    }
}

/// Builds the cost lookup of a preset and settings, with the source and target
/// pixels that it is made of.
pub fn build_problem(
    unprocessed: &UnprocessedPreset,
    settings: &GenerationSettings,
    assets: &Assets,
) -> (r: Result<(CostLookup, Vec<Rgb>, Vec<Rgb>), String>)
    requires
        settings_fit(settings),
        source_fits(unprocessed, settings),
    ensures
        match r {
            Ok((lookup, source, target)) => {
                &&& input_error(unprocessed, settings, assets) is None
                &&& exists|j: JobModel|
                    {
                        &&& job_of(unprocessed, settings, assets, j)
                        &&& j.fit()
                        &&& lookup@ == #[trigger] j.problem()
                        &&& source@ == j.source
                        &&& target@ == j.target
                    }
                &&& lookup.sidelen == settings.sidelen
            },
            Err(e) => input_error(unprocessed, settings, assets) == Some(e@),
        },
{
    match resolve_job(unprocessed, settings, assets) {
        Ok(job) => {
            let lookup = job.lookup();
            assert(lookup@ == job@.problem());
            Ok((lookup, job.source, job.target))
        },
        Err(e) => Err(e),
    }
}

/// Where the source crop is a window of the working size, pixel `(i, k)` of the job's
/// source is pixel `(x + i, y + k)` of the preset.
pub proof fn lemma_job_source_is_the_window(
    u: &UnprocessedPreset,
    settings: &GenerationSettings,
    assets: &Assets,
    j: JobModel,
    x: u32,
    y: u32,
    i: int,
    k: int,
)
    requires
        job_of(u, settings, assets, j),
        settings.source_crop == (Crop::Window { x, y, side: settings.sidelen }),
        0 <= i < settings.sidelen,
        0 <= k < settings.sidelen,
    ensures
        j.source.len() == settings.sidelen * settings.sidelen,
        ({
            let at = 3 * ((y + k) * u.width + (x + i));
            j.source[k * settings.sidelen + i] == (
                u.source_img@[at],
                u.source_img@[at + 1],
                u.source_img@[at + 2],
            )
        }),
{
    let (s, t) = choose|s: PictureData, t: PictureData|
        {
            &&& images::shows(settings.source_crop, preset_picture(u), settings.sidelen, s)
            &&& settings.resolves_to(assets, t, j.weights)
            &&& j.source == #[trigger] s.pixels()
            &&& j.target == #[trigger] t.pixels()
        };
    lemma_window_pixel(preset_picture(u), x, y, settings.sidelen, s, i, k);
}

proof fn lemma_window_pixel(
    p: PictureData,
    x: u32,
    y: u32,
    side: u32,
    out: PictureData,
    i: int,
    k: int,
)
    requires
        images::shows(Crop::Window { x, y, side }, p, side, out),
        0 <= i < side,
        0 <= k < side,
    ensures
        0 <= k * side + i < side * side,
        out.pixels().len() == side * side,
        out.reds().len() == side * side,
        ({
            let at = 3 * ((y + k) * p.width + (x + i));
            &&& out.pixels()[k * side + i] == (p.data[at], p.data[at + 1], p.data[at + 2])
            &&& out.reds()[k * side + i] == p.data[at] as i64
        }),
{
    let n = side as int;
    assert(0 <= k * n + i < n * n) by (nonlinear_arith)
        requires
            0 <= i < n,
            0 <= k < n,
    ;
    images::lemma_window_pixels(p, x, y, side, out, i, k, 0);
    images::lemma_window_pixels(p, x, y, side, out, i, k, 1);
    images::lemma_window_pixels(p, x, y, side, out, i, k, 2);
}

/// Where the target crop is a window of the working size, pixel `(i, k)` of the job's
/// target is pixel `(x + i, y + k)` of the custom target, or of the default one if there
/// is none. With a custom target every weight is 255.
pub proof fn lemma_job_target_is_the_window(
    u: &UnprocessedPreset,
    settings: &GenerationSettings,
    assets: &Assets,
    j: JobModel,
    p: PictureData,
    x: u32,
    y: u32,
    i: int,
    k: int,
)
    requires
        job_of(u, settings, assets, j),
        match settings.custom_target {
            Some(own) => own@ == p,
            None => images::decoded_picture(assets.target@) == Some(p),
        },
        settings.target_crop == (Crop::Window { x, y, side: settings.sidelen }),
        0 <= i < settings.sidelen,
        0 <= k < settings.sidelen,
    ensures
        j.target.len() == settings.sidelen * settings.sidelen,
        ({
            let at = 3 * ((y + k) * p.width + (x + i));
            j.target[k * settings.sidelen + i] == (p.data[at], p.data[at + 1], p.data[at + 2])
        }),
        settings.custom_target is Some ==> j.weights[k * settings.sidelen + i] == 255,
{
    let (s, t) = choose|s: PictureData, t: PictureData|
        {
            &&& images::shows(settings.source_crop, preset_picture(u), settings.sidelen, s)
            &&& settings.resolves_to(assets, t, j.weights)
            &&& j.source == #[trigger] s.pixels()
            &&& j.target == #[trigger] t.pixels()
        };
    lemma_window_pixel(p, x, y, settings.sidelen, t, i, k);
}

/// Where there is no custom target and the weights crop is a window of the working size,
/// the weight of `(i, k)` is the red byte of pixel `(x + i, y + k)` of the weights
/// picture.
pub proof fn lemma_job_weights_are_the_window(
    u: &UnprocessedPreset,
    settings: &GenerationSettings,
    assets: &Assets,
    j: JobModel,
    p: PictureData,
    x: u32,
    y: u32,
    i: int,
    k: int,
)
    requires
        job_of(u, settings, assets, j),
        settings.custom_target is None,
        images::decoded_picture(assets.weights@) == Some(p),
        settings.weights_crop == (Crop::Window { x, y, side: settings.sidelen }),
        0 <= i < settings.sidelen,
        0 <= k < settings.sidelen,
    ensures
        j.weights.len() == settings.sidelen * settings.sidelen,
        j.weights[k * settings.sidelen + i] == p.data[3 * ((y + k) * p.width + (x + i))],
{
    let (s, t) = choose|s: PictureData, t: PictureData|
        {
            &&& images::shows(settings.source_crop, preset_picture(u), settings.sidelen, s)
            &&& settings.resolves_to(assets, t, j.weights)
            &&& j.source == #[trigger] s.pixels()
            &&& j.target == #[trigger] t.pixels()
        };
    let shown = choose|shown: PictureData|
        {
            &&& images::shows(settings.weights_crop, p, settings.sidelen, shown)
            &&& j.weights == #[trigger] shown.reds()
        };
    lemma_window_pixel(p, x, y, settings.sidelen, shown, i, k);
}

/// What source `s` costs on target `d` of a job: the squared distance of their colours
/// times the weight of the target, and the square of the squared distance of their places
/// times the proximity.
pub proof fn lemma_job_cost(j: JobModel, d: int, s: int)
    requires
        j.fit(),
        0 <= d < j.target.len(),
        0 <= s < j.source.len(),
    ensures
        ({
            let side = j.sidelen as int;
            let red = j.target[d].0 - j.source[s].0;
            let green = j.target[d].1 - j.source[s].1;
            let blue = j.target[d].2 - j.source[s].2;
            let dx = d % side - s % side;
            let dy = d / side - s / side;
            let far = (dx * dx + dy * dy) * j.proximity_importance;
            j.problem().at(d, s) == (red * red + green * green + blue * blue) * j.weights[d] + far
                * far
        }),
{
    let side = j.sidelen as int;
    cost::lemma_grid_pos(d, side);
    cost::lemma_grid_pos(s, side);
}

/// The finest level of a job's pyramid is the problem of the job itself.
pub proof fn lemma_finest_level_is_the_job(j: JobModel)
    requires
        j.fit(),
        j.sidelen > 0,
    ensures
        j.pictures().side == j.sidelen,
        j.pictures().at_level(j.sidelen as int) == j.problem(),
        j.pictures().source == j.source,
        j.pictures().target == j.target,
        j.pictures().weights == j.weights,
        j.pictures().proximity_importance == j.proximity_importance,
{
}

/// Pixels are written as their red, green and blue bytes, one pixel after the other.
pub proof fn lemma_bytes_are_red_green_blue(pixels: Seq<Rgb>, i: int)
    requires
        0 <= i < pixels.len(),
    ensures
        rgb_bytes(pixels).len() == 3 * pixels.len(),
        rgb_bytes(pixels)[3 * i] == pixels[i].0,
        rgb_bytes(pixels)[3 * i + 1] == pixels[i].1,
        rgb_bytes(pixels)[3 * i + 2] == pixels[i].2,
{
    assert((3 * i) / 3 == i && (3 * i + 1) / 3 == i && (3 * i + 2) / 3 == i);
}

/// A picture of an assignment shows at every target the colour of its source, and black
/// where there is none.
pub proof fn lemma_arranged_shows_sources(source: Seq<Rgb>, a: Seq<usize>, side: int, d: int)
    requires
        0 <= d < side * side,
    ensures
        arranged(source, a, side).len() == 3 * (side * side),
        ({
            let shown = arranged(source, a, side);
            (shown[3 * d], shown[3 * d + 1], shown[3 * d + 2]) == if d < a.len() {
                source[a[d] as int]
            } else {
                (0, 0, 0)
            }
        }),
{
    assert(side * side * 3 == 3 * (side * side)) by (nonlinear_arith);
    assert((3 * d) / 3 == d && (3 * d + 1) / 3 == d && (3 * d + 2) / 3 == d);
}

proof fn lemma_whole_picture(p: PictureData, out: PictureData, k: int)
    requires
        images::shows(Crop::Identity, p, p.width, out),
        p.width == p.height,
        0 <= k < p.width * p.width,
    ensures
        out.pixels().len() == p.width * p.width,
        out.pixels()[k] == (p.data[3 * k], p.data[3 * k + 1], p.data[3 * k + 2]),
        out.reds()[k] == p.data[3 * k] as i64,
{
    let w = images::lemma_identity_is_centred(p, p.width, out);
    assert(w.0 == 0 && w.1 == 0 && w.2 == p.width);
    let n = p.width as int;
    assert(n > 0) by (nonlinear_arith)
        requires
            0 <= k < n * n,
            0 <= n,
    ;
    let i = k % n;
    let row = k / n;
    vstd::arithmetic::div_mod::lemma_fundamental_div_mod(k, n);
    assert(0 <= row < n && n * row == row * n) by (nonlinear_arith)
        requires
            0 <= k < n * n,
            k == n * row + i,
            0 <= i < n,
    ;
    lemma_window_pixel(p, 0, 0, p.width, out, i, row);
    assert((0u32 + row) * p.width + (0u32 + i) == k);
    assert(row * p.width + i == k);
}

/// Without crops, a preset and a custom target of the working size are taken as they are.
pub proof fn lemma_job_takes_whole_pictures(
    u: &UnprocessedPreset,
    settings: &GenerationSettings,
    assets: &Assets,
    j: JobModel,
    k: int,
)
    requires
        job_of(u, settings, assets, j),
        0 <= k < settings.sidelen * settings.sidelen,
    ensures
        settings.source_crop == Crop::Identity && u.width == settings.sidelen && u.height
            == settings.sidelen ==> j.source[k] == (
            u.source_img@[3 * k],
            u.source_img@[3 * k + 1],
            u.source_img@[3 * k + 2],
        ),
        settings.target_crop == Crop::Identity && (settings.custom_target matches Some(p) && p.width
            == settings.sidelen && p.height == settings.sidelen) ==> {
            let own = settings.custom_target.unwrap();
            j.target[k] == (own.data@[3 * k], own.data@[3 * k + 1], own.data@[3 * k + 2])
        },
{
    let (s, t) = choose|s: PictureData, t: PictureData|
        {
            &&& images::shows(settings.source_crop, preset_picture(u), settings.sidelen, s)
            &&& settings.resolves_to(assets, t, j.weights)
            &&& j.source == #[trigger] s.pixels()
            &&& j.target == #[trigger] t.pixels()
        };
    if settings.source_crop == Crop::Identity && u.width == settings.sidelen && u.height
        == settings.sidelen {
        lemma_whole_picture(preset_picture(u), s, k);
    }
    if settings.target_crop == Crop::Identity && settings.custom_target is Some {
        let own = settings.custom_target.unwrap();
        if own.width == settings.sidelen && own.height == settings.sidelen {
            lemma_whole_picture(own@, t, k);
        }
    }
}

} // verus!
