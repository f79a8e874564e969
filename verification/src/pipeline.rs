//! Entry points: from a preset and settings to a finished run.

use crate::auction;
use crate::catalog;
use crate::catalog::Algorithm;
use crate::cost;
use crate::float::{Double, Real};
use crate::genetic;
use crate::job;
use crate::job::JobModel;
use crate::jonker_volgenant;
use crate::local_swap;
use crate::market;
use crate::modes;
use crate::multiscale;
use crate::patchmatch;
use crate::perm;
use crate::preset;
use crate::preset::UnprocessedPreset;
use crate::process;
use crate::process::Trace;
use crate::progress;
use crate::progress::{Beat, Checkpoint, Message, ProgressSink};
use crate::pyramid;
use crate::settings::{Assets, GenerationSettings};
use crate::sinkhorn;
use vstd::arithmetic::power2::*;
use vstd::prelude::*;

verus! {

/// What the run of an algorithm on the job `j` does to its observer, from `t0`
/// to `t1`; `go` is false if it was cancelled.
pub open spec fn algorithm_run(
    algorithm: Algorithm,
    plan: Seq<Seq<Real>>,
    t0: Trace,
    t1: Trace,
    j: JobModel,
    go: bool,
) -> bool {
    match algorithm {
        Algorithm::Optimal => process::hungarian_run(t0, t1, j, go),
        Algorithm::Genetic => genetic::genetic_run(t0, t1, j, go),
        Algorithm::JonkerVolgenant => t1 == process::exact_run(t0, j, go),
        Algorithm::Auction => t1 == process::auction_run(t0, j, go),
        Algorithm::Multiscale => process::multiscale_run(t0, t1, j, go),
        Algorithm::Sinkhorn => t1 == process::sinkhorn_run(t0, j, plan, go),
        Algorithm::PatchMatch => t1 == process::patchmatch_run(t0, j, go),
        Algorithm::Fast => t1 == process::fast_run(t0, j, go),
        Algorithm::Balanced => process::multiscale_run(t0, t1, j, go),
        Algorithm::Maximum => t1 == process::maximum_run(t0, j, go),
    }
}

/// What an entry point does. An input error is returned and leaves the observer
/// alone. Otherwise the algorithm ran on a job that the input resolves to; a
/// control that never refuses does not cancel it.
pub open spec fn outcome(
    u: &UnprocessedPreset,
    settings: &GenerationSettings,
    assets: &Assets,
    algorithm: Algorithm,
    plan: Seq<Seq<Real>>,
    never_refuses: bool,
    t0: Trace,
    t1: Trace,
    r: Result<(), String>,
) -> bool {
    match r {
        Err(e) => job::input_error(u, settings, assets) == Some(e@) && t1 == t0,
        Ok(_) => {
            &&& job::input_error(u, settings, assets) is None
            &&& exists|j: JobModel, go: bool|
                {
                    &&& job::job_of(u, settings, assets, j)
                    &&& j.fit()
                    &&& never_refuses ==> go
                    &&& #[trigger] algorithm_run(algorithm, plan, t0, t1, j, go)
                }
        },
    }
}

/// The input is one that every step of a run can handle.
pub open spec fn input_fits(u: &UnprocessedPreset, settings: &GenerationSettings) -> bool {
    &&& job::settings_fit(settings)
    &&& job::source_fits(u, settings)
}

/// Whether the input is one that every step of a run can handle.
pub fn accepts(unprocessed: &UnprocessedPreset, settings: &GenerationSettings) -> (r: bool)
    ensures
        r == input_fits(unprocessed, settings),
{
    let side: i128 = settings.sidelen as i128;
    if side > 65535 {
        return false;
    }
    assert(0 <= side * side <= 65535 * 65535) by (nonlinear_arith)
        requires
            0 <= side <= 65535,
    ;
    assert(0 <= (side - 1) * (side - 1) <= 65535 * 65535) by (nonlinear_arith)
        requires
            0 <= side <= 65535,
    ;
    if side * side * 3 > u32::MAX as i128 {
        return false;
    }
    if side > 0 {
        let near: i128 = 2 * ((side - 1) * (side - 1));
        let proximity: i128 = settings.proximity_importance as i128;
        assert(-0x1_0000_0000_0000_0000_0000_0000 <= near * proximity
            <= 0x1_0000_0000_0000_0000_0000_0000) by (nonlinear_arith)
            requires
                0 <= near <= 0x2_0000_0000,
                -0x8000_0000_0000_0000 <= proximity <= 0x7fff_ffff_ffff_ffff,
        ;
        let span: i128 = near * proximity;
        assert(span == 2 * cost::square(settings.sidelen - 1) * settings.proximity_importance);
        if span > 0x8000_0000 || span < -0x8000_0000 {
            assert(span * span > 0x4000_0000_0000_0000) by (nonlinear_arith)
                requires
                    span > 0x8000_0000 || span < -0x8000_0000,
            ;
            return false;
        }
        assert(0 <= span * span <= 0x4000_0000_0000_0000) by (nonlinear_arith)
            requires
                -0x8000_0000 <= span <= 0x8000_0000,
        ;
        if 195075 * 255 + span * span > i64::MAX as i128 / 4 {
            return false;
        }
    }
    if let Some(target) = &settings.custom_target {
        if !target.is_complete() {
            return false;
        }
    }
    let width: u32 = unprocessed.width;
    let height: u32 = unprocessed.height;
    assert(0 <= width * height <= 0xffff_ffff * 0xffff_ffff) by (nonlinear_arith)
        requires
            0 <= width <= 0xffff_ffff,
            0 <= height <= 0xffff_ffff,
    ;
    if width as u128 * height as u128 * 3 > usize::MAX as u128 {
        return false;
    }
    settings.source_crop.fits(width, height)
}

/// Exact Hungarian assignment, with progress and previews while it runs.
pub fn process_optimal<S: ProgressSink, C: Checkpoint>(
    unprocessed: &UnprocessedPreset,
    settings: &GenerationSettings,
    assets: &Assets,
    tx: &mut S,
    control: &mut C,
) -> (r: Result<(), String>)
    requires
        input_fits(unprocessed, settings),
    ensures
        outcome(
            unprocessed,
            settings,
            assets,
            Algorithm::Optimal,
            Seq::empty(),
            old(control).never_refuses(),
            process::trace(*old(tx), *old(control)),
            process::trace(*final(tx), *final(control)),
            r,
        ),
{
    let ghost t0 = process::trace(*tx, *control);
    match job::resolve_job(unprocessed, settings, assets) {
        Ok(job) => {
            let ghost j = job@;
            let go = process::run_optimal(job, tx, control);
            proof {
                assert(algorithm_run(
                    Algorithm::Optimal,
                    Seq::empty(),
                    t0,
                    process::trace(*tx, *control),
                    j,
                    go,
                ));
            }
            Ok(())
        },
        Err(e) => Err(e),
    }
}

/// Exact assignment by shortest augmenting paths.
pub fn process_jonker_volgenant<S: ProgressSink, C: Checkpoint>(
    unprocessed: &UnprocessedPreset,
    settings: &GenerationSettings,
    assets: &Assets,
    tx: &mut S,
    control: &mut C,
) -> (r: Result<(), String>)
    requires
        input_fits(unprocessed, settings),
    ensures
        outcome(
            unprocessed,
            settings,
            assets,
            Algorithm::JonkerVolgenant,
            Seq::empty(),
            old(control).never_refuses(),
            process::trace(*old(tx), *old(control)),
            process::trace(*final(tx), *final(control)),
            r,
        ),
{
    let ghost t0 = process::trace(*tx, *control);
    match job::resolve_job(unprocessed, settings, assets) {
        Ok(job) => {
            let ghost j = job@;
            let go = process::run_jonker_volgenant(job, tx, control);
            proof {
                assert(algorithm_run(
                    Algorithm::JonkerVolgenant,
                    Seq::empty(),
                    t0,
                    process::trace(*tx, *control),
                    j,
                    go,
                ));
            }
            Ok(())
        },
        Err(e) => Err(e),
    }
}

/// Dense forward auction with epsilon scaling, for small pictures.
pub fn process_auction<S: ProgressSink, C: Checkpoint>(
    unprocessed: &UnprocessedPreset,
    settings: &GenerationSettings,
    assets: &Assets,
    tx: &mut S,
    control: &mut C,
) -> (r: Result<(), String>)
    requires
        input_fits(unprocessed, settings),
    ensures
        outcome(
            unprocessed,
            settings,
            assets,
            Algorithm::Auction,
            Seq::empty(),
            old(control).never_refuses(),
            process::trace(*old(tx), *old(control)),
            process::trace(*final(tx), *final(control)),
            r,
        ),
{
    let ghost t0 = process::trace(*tx, *control);
    match job::resolve_job(unprocessed, settings, assets) {
        Ok(job) => {
            let ghost j = job@;
            let go = process::run_auction(job, tx, control);
            proof {
                assert(algorithm_run(
                    Algorithm::Auction,
                    Seq::empty(),
                    t0,
                    process::trace(*tx, *control),
                    j,
                    go,
                ));
            }
            Ok(())
        },
        Err(e) => Err(e),
    }
}

/// Coarse-to-fine sparse auction, the default algorithm.
pub fn process_multiscale<S: ProgressSink, C: Checkpoint>(
    unprocessed: &UnprocessedPreset,
    settings: &GenerationSettings,
    assets: &Assets,
    tx: &mut S,
    control: &mut C,
) -> (r: Result<(), String>)
    requires
        input_fits(unprocessed, settings),
    ensures
        outcome(
            unprocessed,
            settings,
            assets,
            Algorithm::Multiscale,
            Seq::empty(),
            old(control).never_refuses(),
            process::trace(*old(tx), *old(control)),
            process::trace(*final(tx), *final(control)),
            r,
        ),
{
    let ghost t0 = process::trace(*tx, *control);
    match job::resolve_job(unprocessed, settings, assets) {
        Ok(job) => {
            let ghost j = job@;
            let go = process::run_multiscale(job, tx, control);
            proof {
                assert(algorithm_run(
                    Algorithm::Multiscale,
                    Seq::empty(),
                    t0,
                    process::trace(*tx, *control),
                    j,
                    go,
                ));
            }
            Ok(())
        },
        Err(e) => Err(e),
    }
}

/// Correspondence search with repair.
pub fn process_patchmatch<S: ProgressSink, C: Checkpoint>(
    unprocessed: &UnprocessedPreset,
    settings: &GenerationSettings,
    assets: &Assets,
    tx: &mut S,
    control: &mut C,
) -> (r: Result<(), String>)
    requires
        input_fits(unprocessed, settings),
    ensures
        outcome(
            unprocessed,
            settings,
            assets,
            Algorithm::PatchMatch,
            Seq::empty(),
            old(control).never_refuses(),
            process::trace(*old(tx), *old(control)),
            process::trace(*final(tx), *final(control)),
            r,
        ),
{
    let ghost t0 = process::trace(*tx, *control);
    match job::resolve_job(unprocessed, settings, assets) {
        Ok(job) => {
            let ghost j = job@;
            let go = process::run_patchmatch(job, tx, control);
            proof {
                assert(algorithm_run(
                    Algorithm::PatchMatch,
                    Seq::empty(),
                    t0,
                    process::trace(*tx, *control),
                    j,
                    go,
                ));
            }
            Ok(())
        },
        Err(e) => Err(e),
    }
}

/// Fast mode.
pub fn process_fast<S: ProgressSink, C: Checkpoint>(
    unprocessed: &UnprocessedPreset,
    settings: &GenerationSettings,
    assets: &Assets,
    tx: &mut S,
    control: &mut C,
) -> (r: Result<(), String>)
    requires
        input_fits(unprocessed, settings),
    ensures
        outcome(
            unprocessed,
            settings,
            assets,
            Algorithm::Fast,
            Seq::empty(),
            old(control).never_refuses(),
            process::trace(*old(tx), *old(control)),
            process::trace(*final(tx), *final(control)),
            r,
        ),
{
    let ghost t0 = process::trace(*tx, *control);
    match job::resolve_job(unprocessed, settings, assets) {
        Ok(job) => {
            let ghost j = job@;
            let go = process::run_fast(job, tx, control);
            proof {
                assert(algorithm_run(
                    Algorithm::Fast,
                    Seq::empty(),
                    t0,
                    process::trace(*tx, *control),
                    j,
                    go,
                ));
            }
            Ok(())
        },
        Err(e) => Err(e),
    }
}

/// Balanced mode: the multiscale pipeline.
pub fn process_balanced<S: ProgressSink, C: Checkpoint>(
    unprocessed: &UnprocessedPreset,
    settings: &GenerationSettings,
    assets: &Assets,
    tx: &mut S,
    control: &mut C,
) -> (r: Result<(), String>)
    requires
        input_fits(unprocessed, settings),
    ensures
        outcome(
            unprocessed,
            settings,
            assets,
            Algorithm::Balanced,
            Seq::empty(),
            old(control).never_refuses(),
            process::trace(*old(tx), *old(control)),
            process::trace(*final(tx), *final(control)),
            r,
        ),
{
    let ghost t0 = process::trace(*tx, *control);
    match job::resolve_job(unprocessed, settings, assets) {
        Ok(job) => {
            let ghost j = job@;
            let go = process::run_multiscale(job, tx, control);
            proof {
                assert(algorithm_run(
                    Algorithm::Balanced,
                    Seq::empty(),
                    t0,
                    process::trace(*tx, *control),
                    j,
                    go,
                ));
            }
            Ok(())
        },
        Err(e) => Err(e),
    }
}

/// Maximum mode: the balanced result, refined.
pub fn process_maximum<S: ProgressSink, C: Checkpoint>(
    unprocessed: &UnprocessedPreset,
    settings: &GenerationSettings,
    assets: &Assets,
    tx: &mut S,
    control: &mut C,
) -> (r: Result<(), String>)
    requires
        input_fits(unprocessed, settings),
    ensures
        outcome(
            unprocessed,
            settings,
            assets,
            Algorithm::Maximum,
            Seq::empty(),
            old(control).never_refuses(),
            process::trace(*old(tx), *old(control)),
            process::trace(*final(tx), *final(control)),
            r,
        ),
{
    let ghost t0 = process::trace(*tx, *control);
    match job::resolve_job(unprocessed, settings, assets) {
        Ok(job) => {
            let ghost j = job@;
            let go = process::run_maximum(job, tx, control);
            proof {
                assert(algorithm_run(
                    Algorithm::Maximum,
                    Seq::empty(),
                    t0,
                    process::trace(*tx, *control),
                    j,
                    go,
                ));
            }
            Ok(())
        },
        Err(e) => Err(e),
    }
}

/// Random pair-swap annealing.
pub fn process_genetic<S: ProgressSink, C: Checkpoint>(
    unprocessed: &UnprocessedPreset,
    settings: &GenerationSettings,
    assets: &Assets,
    tx: &mut S,
    control: &mut C,
) -> (r: Result<(), String>)
    requires
        input_fits(unprocessed, settings),
        settings.sidelen <= genetic::MAX_GENETIC_SIDELEN,
    ensures
        outcome(
            unprocessed,
            settings,
            assets,
            Algorithm::Genetic,
            Seq::empty(),
            old(control).never_refuses(),
            process::trace(*old(tx), *old(control)),
            process::trace(*final(tx), *final(control)),
            r,
        ),
{
    let ghost t0 = process::trace(*tx, *control);
    match job::resolve_job(unprocessed, settings, assets) {
        Ok(job) => {
            let ghost j = job@;
            let go = genetic::run_genetic(job, tx, control);
            proof {
                assert(algorithm_run(
                    Algorithm::Genetic,
                    Seq::empty(),
                    t0,
                    process::trace(*tx, *control),
                    j,
                    go,
                ));
            }
            Ok(())
        },
        Err(e) => Err(e),
    }
}

/// Rounds the optimal transport plan of the problem, which the caller has computed.
pub fn process_sinkhorn<S: ProgressSink, C: Checkpoint>(
    unprocessed: &UnprocessedPreset,
    settings: &GenerationSettings,
    assets: &Assets,
    plan: &[Vec<Double>],
    tx: &mut S,
    control: &mut C,
) -> (r: Result<(), String>)
    requires
        input_fits(unprocessed, settings),
        sinkhorn::plan_valid(plan@),
        sinkhorn::plan_fits(
            sinkhorn::plan_values(plan@),
            (settings.sidelen * settings.sidelen) as nat,
        ),
    ensures
        outcome(
            unprocessed,
            settings,
            assets,
            Algorithm::Sinkhorn,
            sinkhorn::plan_values(plan@),
            old(control).never_refuses(),
            process::trace(*old(tx), *old(control)),
            process::trace(*final(tx), *final(control)),
            r,
        ),
{
    let ghost t0 = process::trace(*tx, *control);
    match job::resolve_job(unprocessed, settings, assets) {
        Ok(job) => {
            let ghost j = job@;
            let go = process::run_sinkhorn(job, plan, tx, control);
            proof {
                assert(algorithm_run(
                    Algorithm::Sinkhorn,
                    sinkhorn::plan_values(plan@),
                    t0,
                    process::trace(*tx, *control),
                    j,
                    go,
                ));
            }
            Ok(())
        },
        Err(e) => Err(e),
    }
}

/// Runs the algorithm that the settings select. `plan` is the transport plan
/// of the problem; only Sinkhorn reads it.
pub fn process<S: ProgressSink, C: Checkpoint>(
    unprocessed: &UnprocessedPreset,
    settings: &GenerationSettings,
    assets: &Assets,
    plan: &[Vec<Double>],
    tx: &mut S,
    control: &mut C,
) -> (r: Result<(), String>)
    requires
        input_fits(unprocessed, settings),
        settings.algorithm == Algorithm::Genetic ==> settings.sidelen
            <= genetic::MAX_GENETIC_SIDELEN,
        settings.algorithm == Algorithm::Sinkhorn ==> sinkhorn::plan_valid(plan@)
            && sinkhorn::plan_fits(
            sinkhorn::plan_values(plan@),
            (settings.sidelen * settings.sidelen) as nat,
        ),
    ensures
        outcome(
            unprocessed,
            settings,
            assets,
            settings.algorithm,
            if settings.algorithm == Algorithm::Sinkhorn {
                sinkhorn::plan_values(plan@)
            } else {
                Seq::empty()
            },
            old(control).never_refuses(),
            process::trace(*old(tx), *old(control)),
            process::trace(*final(tx), *final(control)),
            r,
        ),
{
    match settings.algorithm {
        Algorithm::Optimal => process_optimal(unprocessed, settings, assets, tx, control),
        Algorithm::Genetic => process_genetic(unprocessed, settings, assets, tx, control),
        Algorithm::JonkerVolgenant => process_jonker_volgenant(
            unprocessed,
            settings,
            assets,
            tx,
            control,
        ),
        Algorithm::Auction => process_auction(unprocessed, settings, assets, tx, control),
        Algorithm::Multiscale => process_multiscale(unprocessed, settings, assets, tx, control),
        Algorithm::Sinkhorn => process_sinkhorn(
            unprocessed,
            settings,
            assets,
            plan,
            tx,
            control,
        ),
        Algorithm::PatchMatch => process_patchmatch(unprocessed, settings, assets, tx, control),
        Algorithm::Fast => process_fast(unprocessed, settings, assets, tx, control),
        Algorithm::Balanced => process_balanced(unprocessed, settings, assets, tx, control),
        Algorithm::Maximum => process_maximum(unprocessed, settings, assets, tx, control),
    }
}

/// The side of the job is one that the algorithm supports.
pub open spec fn supported(algorithm: Algorithm, j: JobModel) -> bool {
    catalog::side_limit_of(algorithm) matches Some(limit) ==> j.sidelen <= limit
}

proof fn lemma_finished_usable(j: JobModel, a: Seq<usize>)
    requires
        j.fit(),
        perm::is_perm(a, j.problem().n()),
    ensures
        preset::usable(job::finished(j.name, j.source, a, j.sidelen)),
{
    job::lemma_job_solvable(j);
    assert(j.sidelen * j.sidelen * 3 == 3 * j.source.len());
}

/// The last message is a finished preset of the job that can be used.
pub open spec fn finished_well(t: Trace, j: JobModel) -> bool {
    &&& t.log.len() > 0
    &&& t.log.last() matches Message::Done(p) && {
        &&& preset::usable(p)
        &&& p.inner.name == j.name
        &&& p.inner.width == j.sidelen
        &&& p.inner.source_img == job::rgb_bytes(j.source)
    }
}

/// A run of a supported size that is not cancelled ends with a usable preset of
/// its own picture, whatever the algorithm; only the annealing may give up
/// instead.
#[verifier::rlimit(40)]
pub proof fn lemma_run_finishes(
    algorithm: Algorithm,
    plan: Seq<Seq<Real>>,
    t0: Trace,
    t1: Trace,
    j: JobModel,
)
    requires
        j.fit(),
        supported(algorithm, j),
        algorithm == Algorithm::Genetic ==> j.sidelen <= genetic::MAX_GENETIC_SIDELEN,
        algorithm == Algorithm::Sinkhorn ==> sinkhorn::plan_fits(plan, j.problem().n()),
        algorithm_run(algorithm, plan, t0, t1, j, true),
    ensures
        finished_well(t1, j) || (algorithm == Algorithm::Genetic && t1.log.len() > 0
            && t1.log.last() == Message::Error(
            "Genetic: exceeded maximum generations without converging"@,
        )),
{
    let c = j.problem();
    job::lemma_job_solvable(j);
    let side = j.sidelen as int;
    assert(c.n() <= 65535 * 65535) by (nonlinear_arith)
        requires
            c.n() == side * side,
            0 <= side <= 65535,
    ;
    assert(side <= 64 ==> c.n() <= 4096) by (nonlinear_arith)
        requires
            c.n() == side * side,
            0 <= side,
    ;
    assert(side <= 32 ==> c.n() <= 1024) by (nonlinear_arith)
        requires
            c.n() == side * side,
            0 <= side,
    ;
    match algorithm {
        Algorithm::Optimal | Algorithm::JonkerVolgenant => {
            jonker_volgenant::lemma_exact_is_optimal(c);
            lemma_finished_usable(j, jonker_volgenant::exact_assignment(c));
        },
        Algorithm::Genetic => {
            if exists|g: nat|
                {
                    let e = #[trigger] genetic::era(j, t0, g);
                    &&& g < genetic::MAX_GENERATIONS
                    &&& genetic::unsettled(j, t0, g)
                    &&& genetic::converged(j, e)
                    &&& t1 == genetic::survived(j, e).sent(
                        Message::Done(
                            job::finished(j.name, j.source, genetic::evolved(j, e).a, j.sidelen),
                        ),
                    )
                } {
                let g = choose|g: nat|
                    {
                        let e = #[trigger] genetic::era(j, t0, g);
                        &&& g < genetic::MAX_GENERATIONS
                        &&& genetic::unsettled(j, t0, g)
                        &&& genetic::converged(j, e)
                        &&& t1 == genetic::survived(j, e).sent(
                            Message::Done(
                                job::finished(
                                    j.name,
                                    j.source,
                                    genetic::evolved(j, e).a,
                                    j.sidelen,
                                ),
                            ),
                        )
                    };
                genetic::lemma_era_is_permutation(j, t0, g);
                lemma_finished_usable(j, genetic::evolved(j, genetic::era(j, t0, g)).a);
            }
        },
        Algorithm::Auction => {
            let lists = auction::dense_lists(c.n());
            let phases = auction::DEFAULT_EPSILON_PHASES as nat;
            auction::lemma_auction_is_permutation(c, lists, None, phases);
            lemma_finished_usable(j, auction::auction_assignment(c, lists, None, phases));
        },
        Algorithm::Multiscale | Algorithm::Balanced => {
            multiscale::lemma_multiscale_is_permutation(j.pictures(), c);
            lemma_finished_usable(j, j.pictures().assignment(c));
        },
        Algorithm::Sinkhorn => {
            sinkhorn::lemma_plan_gives_permutation(plan, c);
            lemma_finished_usable(j, sinkhorn::plan_assignment(plan, c));
        },
        Algorithm::PatchMatch => {
            patchmatch::lemma_patchmatch_is_permutation(c, side);
            lemma_finished_usable(j, patchmatch::patchmatch_assignment(c, side));
        },
        Algorithm::Fast => {
            modes::lemma_fast_is_permutation(c, side);
            lemma_finished_usable(j, modes::fast_assignment(c, side));
        },
        Algorithm::Maximum => {
            modes::lemma_maximum_is_permutation(c, j.pictures());
            lemma_finished_usable(j, modes::maximum_assignment(c, j.pictures()));
        },
    }
}

/// A run of an unsupported size ends with an error message and does no work.
pub proof fn lemma_unsupported_size_is_an_error(
    algorithm: Algorithm,
    plan: Seq<Seq<Real>>,
    t0: Trace,
    t1: Trace,
    j: JobModel,
    go: bool,
)
    requires
        j.fit(),
        !supported(algorithm, j),
        algorithm_run(algorithm, plan, t0, t1, j, go),
    ensures
        t1.answers == t0.answers,
        t1.log.len() > 0,
        t1.log.last() is Error,
{
    job::lemma_job_solvable(j);
    let side = j.sidelen as int;
    let n = j.problem().n();
    assert(side > 64 ==> n > 4096) by (nonlinear_arith)
        requires
            n == side * side,
            0 <= side,
    ;
    assert(side > 32 ==> n > 1024) by (nonlinear_arith)
        requires
            n == side * side,
            0 <= side,
    ;
}

/// A run that a checkpoint refuses ends with the cancellation and never delivers
/// a preset.
pub proof fn lemma_refused_run_is_cancelled(
    algorithm: Algorithm,
    plan: Seq<Seq<Real>>,
    t0: Trace,
    t1: Trace,
    j: JobModel,
)
    requires
        j.fit(),
        supported(algorithm, j),
        algorithm_run(algorithm, plan, t0, t1, j, false),
    ensures
        t1.log.len() > 0,
        t1.log.last() == Message::Cancelled,
        t1.answers.len() > 0,
        !t1.answers.last(),
{
    job::lemma_job_solvable(j);
    let side = j.sidelen as int;
    let n = j.problem().n();
    assert(side <= 64 ==> n <= 4096) by (nonlinear_arith)
        requires
            n == side * side,
            0 <= side,
    ;
    assert(side <= 32 ==> n <= 1024) by (nonlinear_arith)
        requires
            n == side * side,
            0 <= side,
    ;
}

/// The balanced mode does what the multiscale algorithm does.
pub proof fn lemma_balanced_is_multiscale(
    plan: Seq<Seq<Real>>,
    t0: Trace,
    t1: Trace,
    j: JobModel,
    go: bool,
)
    ensures
        algorithm_run(Algorithm::Balanced, plan, t0, t1, j, go) == algorithm_run(
            Algorithm::Multiscale,
            plan,
            t0,
            t1,
            j,
            go,
        ),
{
}

/// Both exact algorithms deliver the same preset, and no rearrangement of the
/// pixels costs less than theirs.
pub proof fn lemma_exact_runs_deliver_an_optimum(
    plan: Seq<Seq<Real>>,
    j: JobModel,
    t0: Trace,
    t1: Trace,
    u0: Trace,
    u1: Trace,
)
    requires
        j.fit(),
        supported(Algorithm::Optimal, j),
        supported(Algorithm::JonkerVolgenant, j),
        algorithm_run(Algorithm::Optimal, plan, t0, t1, j, true),
        algorithm_run(Algorithm::JonkerVolgenant, plan, u0, u1, j, true),
    ensures
        t1.log.last() == u1.log.last(),
        t1.log.last() matches Message::Done(p) && jonker_volgenant::optimal(
            j.problem(),
            p.assignments,
        ),
{
    let c = j.problem();
    job::lemma_job_solvable(j);
    let side = j.sidelen as int;
    assert(c.n() <= 4096) by (nonlinear_arith)
        requires
            c.n() == side * side,
            0 <= side <= 64,
    ;
    jonker_volgenant::lemma_exact_is_optimal(c);
}

/// A finished auction delivers a preset whose total cost exceeds that of no
/// rearrangement of the pixels by more than `n` times the last epsilon and the
/// rounding of the prices, whenever the bidding ended with nobody waiting. In units
/// of `2^-1074`; `bound` is any bound of the costs, and `lists` any way to write down
/// that every target may take every source.
pub proof fn lemma_auction_delivers_nearly_an_optimum(
    plan: Seq<Seq<Real>>,
    j: JobModel,
    t0: Trace,
    t1: Trace,
    lists: Seq<Seq<usize>>,
    bound: int,
    q: Seq<usize>,
)
    requires
        j.fit(),
        j.sidelen <= 64,
        algorithm_run(Algorithm::Auction, plan, t0, t1, j, true),
        j.problem().within(bound),
        1 <= bound <= i64::MAX,
        lists.len() == j.problem().n(),
        forall|d: int, s: usize|
            0 <= d < lists.len() && s < lists.len() ==> #[trigger] lists[d].contains(s),
        j.problem().n() > 1 ==> market::market(j.problem(), lists, None, 5).queue.len() == 0,
        perm::is_perm(q, j.problem().n()),
    ensures
        t1.log.last() is Done,
        ({
            let c = j.problem();
            let a = t1.log.last()->Done_0.assignments;
            let u = pow2(1074);
            &&& perm::is_perm(a, c.n())
            &&& c.n() <= 1 ==> a == q
            &&& c.n() > 1 ==> {
                market::market_epsilon(c, lists, 5) matches Real::Fin(eps) && pow2(47) * (
                cost::total(c, a) * u) <= pow2(47) * (cost::total(c, q) * u + c.n() * eps) + c.n()
                    * (50 * (bound * u))
            }
        }),
{
    let c = j.problem();
    job::lemma_job_solvable(j);
    let side = j.sidelen as int;
    assert(c.n() <= 4096) by (nonlinear_arith)
        requires
            c.n() == side * side,
            0 <= side <= 64,
    ;
    let all = auction::dense_lists(c.n());
    assert forall|d: int, s: usize| 0 <= d < lists.len() implies (#[trigger] lists[d].contains(s)
        <==> all[d].contains(s)) || s >= c.n() by {
        if s < c.n() {
            assert(all[d][s as int] == s);
        }
    }
    auction::lemma_auction_is_permutation(c, all, None, 5);
    if c.n() > 1 {
        lemma_same_market(c, lists, all);
        market::lemma_dense_is_nearly_cheapest(c, lists, 5, bound, q);
        assert(10 * 5 * (bound * pow2(1074)) == 50 * (bound * pow2(1074)));
    } else {
        let a = t1.log.last()->Done_0.assignments;
        assert(a =~= q);
    }
}

/// Candidates that are no sources do not count.
proof fn lemma_same_market(c: cost::Problem, one: Seq<Seq<usize>>, other: Seq<Seq<usize>>)
    requires
        c.n() <= usize::MAX,
        one.len() == c.n() == other.len(),
        forall|d: int, s: usize|
            0 <= d < c.n() ==> (#[trigger] one[d].contains(s) <==> other[d].contains(s)) || s
                >= c.n(),
    ensures
        auction::auction_assignment(c, one, None, 5) == auction::auction_assignment(
            c,
            other,
            None,
            5,
        ),
{
    assert forall|s: int| 0 <= s < c.n() implies #[trigger] auction::bidding_graph(one, c.n())[s]
        == auction::bidding_graph(other, c.n())[s] by {
        lemma_same_rows(one, other, c.n(), s as usize, c.n());
    }
    assert(auction::bidding_graph(one, c.n()) =~= auction::bidding_graph(other, c.n()));
}

proof fn lemma_same_rows(
    one: Seq<Seq<usize>>,
    other: Seq<Seq<usize>>,
    n: nat,
    src: usize,
    k: nat,
)
    requires
        one.len() == n == other.len(),
        k <= n,
        src < n,
        forall|d: int, s: usize|
            0 <= d < n ==> (#[trigger] one[d].contains(s) <==> other[d].contains(s)) || s >= n,
    ensures
        auction::targets_of(one, src, k) == auction::targets_of(other, src, k),
    decreases k,
{
    if k > 0 {
        lemma_same_rows(one, other, n, src, (k - 1) as nat);
        assert((one[k - 1].contains(src) <==> other[k - 1].contains(src)) || src >= n);
    }
}

/// The preset that a finished run delivers.
pub open spec fn result_of(t: Trace) -> Seq<usize> {
    t.log.last()->Done_0.assignments
}

/// A finished PatchMatch delivers the repair of what four passes of its search chose:
/// the outcome of an auction in which every target may take its choice and the sources
/// within three rows and three columns of it.
pub proof fn lemma_patchmatch_delivers_the_repaired_search(
    plan: Seq<Seq<Real>>,
    j: JobModel,
    t0: Trace,
    t1: Trace,
    lists: Seq<Seq<usize>>,
)
    requires
        j.fit(),
        j.sidelen > 1,
        algorithm_run(Algorithm::PatchMatch, plan, t0, t1, j, true),
        lists.len() == j.problem().n(),
        forall|d: int, u: usize|
            0 <= d < lists.len() ==> (#[trigger] lists[d].contains(u) <==> u < lists.len()
                && patchmatch::within_reach(
                patchmatch::searched(j.problem(), j.sidelen as int, 4).a[d] as int,
                u as int,
                j.sidelen as int,
            )),
    ensures
        t1.log.last() is Done,
        result_of(t1) == auction::auction_assignment(j.problem(), lists, None, 3),
{
    let c = j.problem();
    job::lemma_job_solvable(j);
    let side = j.sidelen as int;
    assert(c.n() > 1) by (nonlinear_arith)
        requires
            c.n() == side * side,
            side > 1,
    ;
    patchmatch::lemma_repair_follows_the_search(c, side, lists);
}

/// A finished Sinkhorn run delivers the rounding of its plan: the outcome of an auction
/// in which every target may take its eight heaviest sources.
pub proof fn lemma_sinkhorn_delivers_the_rounded_plan(
    plan: Seq<Seq<Real>>,
    j: JobModel,
    t0: Trace,
    t1: Trace,
    lists: Seq<Seq<usize>>,
)
    requires
        j.fit(),
        1 < j.sidelen <= 32,
        algorithm_run(Algorithm::Sinkhorn, plan, t0, t1, j, true),
        sinkhorn::plan_complete(plan),
        plan.len() == j.problem().n(),
        lists.len() == plan.len(),
        forall|d: int| 0 <= d < plan.len() ==> sinkhorn::heaviest(plan, d, #[trigger] lists[d]),
    ensures
        t1.log.last() is Done,
        result_of(t1) == auction::auction_assignment(j.problem(), lists, None, 3),
{
    let c = j.problem();
    job::lemma_job_solvable(j);
    let side = j.sidelen as int;
    assert(1 < c.n() <= 1024) by (nonlinear_arith)
        requires
            c.n() == side * side,
            1 < side <= 32,
    ;
    sinkhorn::lemma_rounding_uses_heaviest(plan, c, lists);
}

/// A finished multiscale run, or one of the balanced mode, delivers an assignment no
/// dearer than that of the last level of its pyramid, in which no two touching targets
/// would gain by exchanging their sources unless three sweeps have each lowered the
/// cost.
pub proof fn lemma_multiscale_delivers_the_last_level_refined(
    algorithm: Algorithm,
    plan: Seq<Seq<Real>>,
    j: JobModel,
    t0: Trace,
    t1: Trace,
    levels: Seq<u32>,
)
    requires
        j.fit(),
        j.sidelen > 1,
        algorithm == Algorithm::Multiscale || algorithm == Algorithm::Balanced,
        algorithm_run(algorithm, plan, t0, t1, j, true),
        multiscale::climbs(levels, j.sidelen as int),
    ensures
        t1.log.last() is Done,
        ({
            let c = j.problem();
            let a = result_of(t1);
            let last = j.pictures().level_assignment(levels, (levels.len() - 1) as nat);
            let settled = local_swap::stable(c, j.sidelen as int, a);
            &&& cost::total(c, a) <= cost::total(c, last)
            &&& settled || cost::total(c, a) + 3 <= cost::total(c, last)
        }),
{
    let c = j.problem();
    job::lemma_job_solvable(j);
    let side = j.sidelen as int;
    assert(c.n() > 1) by (nonlinear_arith)
        requires
            c.n() == side * side,
            side > 1,
    ;
    multiscale::lemma_multiscale_climbs(j.pictures(), c, levels);
}

/// The fast mode delivers a preset no dearer than that of PatchMatch on the same job, in
/// which no two touching targets would gain by exchanging their sources unless it is
/// cheaper.
pub proof fn lemma_fast_delivers_patchmatch_refined(
    plan: Seq<Seq<Real>>,
    j: JobModel,
    t0: Trace,
    t1: Trace,
    u0: Trace,
    u1: Trace,
)
    requires
        j.fit(),
        algorithm_run(Algorithm::Fast, plan, t0, t1, j, true),
        algorithm_run(Algorithm::PatchMatch, plan, u0, u1, j, true),
    ensures
        t1.log.last() is Done,
        u1.log.last() is Done,
        ({
            let c = j.problem();
            let settled = local_swap::stable(c, j.sidelen as int, result_of(t1));
            &&& cost::total(c, result_of(t1)) <= cost::total(c, result_of(u1))
            &&& j.sidelen > 1 ==> settled || cost::total(c, result_of(t1)) < cost::total(
                c,
                result_of(u1),
            )
        }),
{
    let c = j.problem();
    job::lemma_job_solvable(j);
    let side = j.sidelen as int;
    assert((c.n() > 1) == (side > 1)) by (nonlinear_arith)
        requires
            c.n() == side * side,
            side >= 0,
    ;
    if c.n() > 1 {
        modes::lemma_fast_refines_patchmatch(c, side);
    }
}

/// The maximum mode delivers a preset no dearer than that of the balanced mode on the
/// same job, and up to 4096 pixels no dearer than the dense auction of eight phases. No
/// two touching targets would gain by exchanging their sources unless five sweeps have
/// each lowered the cost.
#[verifier::rlimit(40)]
pub proof fn lemma_maximum_delivers_the_better_refined(
    plan: Seq<Seq<Real>>,
    j: JobModel,
    t0: Trace,
    t1: Trace,
    u0: Trace,
    u1: Trace,
    lists: Seq<Seq<usize>>,
    bound: int,
)
    requires
        j.fit(),
        j.sidelen > 1,
        algorithm_run(Algorithm::Maximum, plan, t0, t1, j, true),
        algorithm_run(Algorithm::Balanced, plan, u0, u1, j, true),
        j.problem().within(bound),
        j.problem().n() * bound <= i64::MAX,
        lists.len() == j.problem().n(),
        forall|d: int, s: usize|
            0 <= d < lists.len() ==> (#[trigger] lists[d].contains(s) <==> s < lists.len()),
    ensures
        t1.log.last() is Done,
        u1.log.last() is Done,
        ({
            let c = j.problem();
            let a = result_of(t1);
            let dense = auction::auction_assignment(c, lists, None, 8);
            let settled = local_swap::stable(c, j.sidelen as int, a);
            &&& cost::total(c, a) <= cost::total(c, result_of(u1))
            &&& settled || cost::total(c, a) + 5 <= cost::total(c, result_of(u1))
            &&& j.sidelen <= 64 ==> cost::total(c, a) <= cost::total(c, dense)
            &&& j.sidelen <= 64 ==> settled || cost::total(c, a) + 5 <= cost::total(c, dense)
        }),
{
    let c = j.problem();
    job::lemma_job_solvable(j);
    let side = j.sidelen as int;
    assert(c.n() > 1 && (side <= 64 ==> c.n() <= 4096)) by (nonlinear_arith)
        requires
            c.n() == side * side,
            side > 1,
    ;
    modes::lemma_maximum_refines_the_better(c, j.pictures(), bound, lists);
}

/// The last preview of a run shows what the run delivers: every target the pixel of the
/// delivered picture that it is assigned.
#[verifier::rlimit(40)]
pub proof fn lemma_preview_shows_the_preset(
    algorithm: Algorithm,
    plan: Seq<Seq<Real>>,
    j: JobModel,
    t0: Trace,
    t1: Trace,
    d: int,
    k: int,
)
    requires
        j.fit(),
        supported(algorithm, j),
        algorithm != Algorithm::Optimal,
        algorithm != Algorithm::Genetic,
        algorithm == Algorithm::Sinkhorn ==> sinkhorn::plan_fits(plan, j.problem().n()),
        algorithm_run(algorithm, plan, t0, t1, j, true),
        0 <= d < j.sidelen * j.sidelen,
        0 <= k < 3,
    ensures
        t1.log.len() >= 3,
        t1.log.last() is Done,
        t1.log[t1.log.len() - 2] == Message::Progress(95, 100),
        t1.log[t1.log.len() - 3] matches Message::Preview(w, h, bytes) && w == j.sidelen && h
            == j.sidelen && bytes.len() == 3 * (j.sidelen * j.sidelen) && bytes[3 * d + k]
            == t1.log.last()->Done_0.inner.source_img[3 * result_of(t1)[d] + k],
{
    lemma_run_finishes(algorithm, plan, t0, t1, j);
    job::lemma_job_solvable(j);
    let n = j.problem().n();
    let side = j.sidelen as int;
    assert(side <= 64 ==> n <= 4096) by (nonlinear_arith)
        requires
            n == side * side,
            0 <= side,
    ;
    assert(side <= 32 ==> n <= 1024) by (nonlinear_arith)
        requires
            n == side * side,
            0 <= side,
    ;
    let t = lemma_run_delivers(algorithm, plan, t0, t1, j);
    lemma_delivered_shows(t, t1, j, d, k);
}

/// What a finished run ends with.
spec fn ends_delivered(t: Trace, t1: Trace, j: JobModel) -> bool {
    t1 == process::delivered(t, j, result_of(t1), true)
}

#[verifier::rlimit(40)]
proof fn lemma_run_delivers(
    algorithm: Algorithm,
    plan: Seq<Seq<Real>>,
    t0: Trace,
    t1: Trace,
    j: JobModel,
) -> (t: Trace)
    requires
        supported(algorithm, j),
        algorithm != Algorithm::Optimal,
        algorithm != Algorithm::Genetic,
        algorithm_run(algorithm, plan, t0, t1, j, true),
        j.sidelen <= 64 ==> j.problem().n() <= 4096,
        j.sidelen <= 32 ==> j.problem().n() <= 1024,
    ensures
        ends_delivered(t, t1, j),
{
    if (algorithm == Algorithm::Multiscale || algorithm == Algorithm::Balanced) {
        let a = j.pictures().assignment(j.problem());
        if j.problem().n() <= 1 {
            assert(t1 == process::delivered(t0, j, a, true));
            t0
        } else {
            let mid = choose|mid: Trace| t1 == #[trigger] process::delivered(mid, j, a, true);
            mid
        }
    } else {
        t0.sent(process::started())
    }
}

proof fn lemma_delivered_shows(t: Trace, t1: Trace, j: JobModel, d: int, k: int)
    requires
        ends_delivered(t, t1, j),
        j.fit(),
        j.problem().n() == j.sidelen * j.sidelen,
        perm::is_perm(result_of(t1), j.problem().n()),
        0 <= d < j.sidelen * j.sidelen,
        0 <= k < 3,
    ensures
        t1.log.len() >= 3,
        t1.log.last() is Done,
        t1.log[t1.log.len() - 2] == Message::Progress(95, 100),
        t1.log[t1.log.len() - 3] matches Message::Preview(w, h, bytes) && w == j.sidelen && h
            == j.sidelen && bytes.len() == 3 * (j.sidelen * j.sidelen) && bytes[3 * d + k]
            == t1.log.last()->Done_0.inner.source_img[3 * result_of(t1)[d] + k],
{
    let a = result_of(t1);
    let side = j.sidelen as int;
    assert(a[d] < j.problem().n());
    let s = a[d] as int;
    assert((3 * d + k) / 3 == d && (3 * d + k) % 3 == k);
    assert((3 * s + k) / 3 == s && (3 * s + k) % 3 == k);
    assert(side * side * 3 == 3 * (side * side)) by (nonlinear_arith);
    let shown = job::arranged(j.source, a, side);
    assert(shown.len() == 3 * (side * side));
    assert(shown[3 * d + k] == job::rgb_bytes(j.source)[3 * s + k]);
}

/// A finished annealing of at most 256 by 256 pixels delivers an arrangement no dearer
/// than the untouched picture. It was reached by a generation that exchanged fewer than
/// ten pairs, none of them four or more apart.
pub proof fn lemma_genetic_delivers_an_improvement(
    plan: Seq<Seq<Real>>,
    j: JobModel,
    t0: Trace,
    t1: Trace,
) -> (g: nat)
    requires
        j.fit(),
        0 < j.sidelen <= 256,
        algorithm_run(Algorithm::Genetic, plan, t0, t1, j, true),
        t1.log.last() is Done,
    ensures
        ({
            let c = j.problem();
            let e = genetic::era(j, t0, g);
            let still = Seq::new(c.n(), |i: int| i as usize);
            &&& cost::total(c, result_of(t1)) <= cost::total(c, still)
            &&& g < 5000
            &&& forall|k: nat|
                k < g ==> (#[trigger] genetic::era(j, t0, k)).dist >= 4 || genetic::evolved(
                    j,
                    genetic::era(j, t0, k),
                ).swaps >= 10
            &&& e.dist < 4
            &&& cost::total(c, result_of(t1)) <= cost::total(c, e.w.a)
            &&& result_of(t1) == genetic::evolved(j, e).a
            &&& genetic::evolved(j, e).swaps < 10
        }),
{
    let g = choose|g: nat|
        {
            let e = #[trigger] genetic::era(j, t0, g);
            &&& g < genetic::MAX_GENERATIONS
            &&& genetic::unsettled(j, t0, g)
            &&& genetic::converged(j, e)
            &&& t1 == genetic::survived(j, e).sent(
                Message::Done(
                    job::finished(j.name, j.source, genetic::evolved(j, e).a, j.sidelen),
                ),
            )
        };
    let side = j.sidelen as int;
    assert(side * side > 0) by (nonlinear_arith)
        requires
            side > 0,
    ;
    job::lemma_job_solvable(j);
    genetic::lemma_generations_lower(j, t0, g);
    assert forall|k: nat| k < g implies (#[trigger] genetic::era(j, t0, k)).dist >= 4
        || genetic::evolved(j, genetic::era(j, t0, k)).swaps >= 10 by {
        assert(!genetic::converged(j, genetic::era(j, t0, k)));
    }
    g
}

/// The annealing gives up only after five thousand generations none of which exchanged
/// fewer than ten pairs over distances below four.
pub proof fn lemma_genetic_gives_up_late(
    plan: Seq<Seq<Real>>,
    j: JobModel,
    t0: Trace,
    t1: Trace,
    k: nat,
)
    requires
        algorithm_run(Algorithm::Genetic, plan, t0, t1, j, true),
        t1.log.last() is Error,
        k < 5000,
    ensures
        genetic::era(j, t0, k).dist >= 4 || genetic::evolved(j, genetic::era(j, t0, k)).swaps >= 10,
{
    assert(!genetic::converged(j, genetic::era(j, t0, k)));
}

/// A message of a run that goes on: a share of the work, or a preview.
pub open spec fn goes_on(m: Message) -> bool {
    match m {
        Message::Progress(num, den) => num <= den,
        Message::Preview(_, _, _) => true,
        _ => false,
    }
}

/// From `t` to `u` every checkpoint let the run go on, and so does every message.
pub open spec fn carried(t: Trace, u: Trace) -> bool {
    &&& progress::all_passed(t.answers, u.answers)
    &&& t.log.len() <= u.log.len()
    &&& forall|i: int| 0 <= i < t.log.len() ==> #[trigger] u.log[i] == t.log[i]
    &&& forall|i: int| t.log.len() <= i < u.log.len() ==> goes_on(#[trigger] u.log[i])
}

/// From `t` to `u` a run has taken place: its messages say that it goes on, up to the
/// last, which says how it ended. It is the cancellation exactly if the last checkpoint
/// refused, the first to do so.
pub open spec fn ended_once(t: Trace, u: Trace, go: bool) -> bool {
    &&& t.log.len() < u.log.len()
    &&& forall|i: int| 0 <= i < t.log.len() ==> #[trigger] u.log[i] == t.log[i]
    &&& forall|i: int| t.log.len() <= i < u.log.len() - 1 ==> goes_on(#[trigger] u.log[i])
    &&& go ==> (u.log.last() is Done || u.log.last() is Error) && progress::all_passed(
        t.answers,
        u.answers,
    )
    &&& !go ==> u.log.last() == Message::Cancelled && progress::stopped(t.answers, u.answers)
}

proof fn lemma_carried_sent(t: Trace, u: Trace, m: Message)
    requires
        carried(t, u),
    ensures
        goes_on(m) ==> carried(t, u.sent(m)),
        (m is Done || m is Error) ==> ended_once(t, u.sent(m), true),
{
}

proof fn lemma_carried_asked(t: Trace, u: Trace)
    requires
        carried(t, u),
    ensures
        carried(t, u.asked(true)),
        ended_once(t, u.asked(false).sent(Message::Cancelled), false),
{
    progress::lemma_passed_step(t.answers, u.answers, true);
    progress::lemma_passed_step(t.answers, u.answers, false);
}

proof fn lemma_delivered_ends(t: Trace, u: Trace, j: JobModel, a: Seq<usize>, go: bool)
    requires
        carried(t, u),
    ensures
        ended_once(t, process::delivered(u, j, a, go), go),
{
    let v = u.sent(job::preview(j.source, a, j.sidelen));
    lemma_carried_sent(t, u, job::preview(j.source, a, j.sidelen));
    let w = v.sent(Message::Progress(95, 100));
    lemma_carried_sent(t, v, Message::Progress(95, 100));
    lemma_carried_asked(t, w);
    if go {
        lemma_carried_sent(
            t,
            w.asked(true),
            Message::Done(job::finished(j.name, j.source, a, j.sidelen)),
        );
    }
}

proof fn lemma_hungarian_carried(t: Trace, j: JobModel, k: nat)
    requires
        k <= j.problem().n(),
    ensures
        carried(t, process::hungarian_steps(t, j, k)),
    decreases k,
{
    if k > 0 {
        let b = process::hungarian_steps(t, j, (k - 1) as nat);
        lemma_hungarian_carried(t, j, (k - 1) as nat);
        lemma_carried_asked(t, b);
        let m = Message::Progress((k - 1) as nat, j.problem().n());
        lemma_carried_sent(t, b.asked(true), m);
        let p = job::preview(
            j.source,
            process::partial_assignment(jonker_volgenant::matched_rows(j.problem(), k)),
            j.sidelen,
        );
        lemma_carried_sent(t, b.asked(true).sent(m), p);
    }
}

proof fn lemma_asked_times_carried(t: Trace, u: Trace, k: nat)
    requires
        carried(t, u),
    ensures
        carried(t, genetic::asked_times(u, k)),
    decreases k,
{
    if k > 0 {
        lemma_asked_times_carried(t, u, (k - 1) as nat);
        lemma_carried_asked(t, genetic::asked_times(u, (k - 1) as nat));
    }
}

proof fn lemma_era_carried(t: Trace, j: JobModel, g: nat)
    ensures
        carried(t, genetic::era(j, t, g).t),
        carried(t, genetic::survived(j, genetic::era(j, t, g))),
        genetic::era(j, t, g).dist >= 0,
    decreases g,
{
    let e = genetic::era(j, t, g);
    if g > 0 {
        lemma_era_carried(t, j, (g - 1) as nat);
        let b = genetic::era(j, t, (g - 1) as nat);
        let v = genetic::survived(j, b);
        let p = job::preview(j.source, genetic::evolved(j, b).a, j.sidelen);
        let m = Message::Progress(
            genetic::closed_distance(j.sidelen as int, b.dist),
            j.sidelen as nat,
        );
        lemma_carried_sent(t, v, p);
        lemma_carried_sent(t, v.sent(p), m);
    }
    let k = genetic::checkpoints_before(genetic::attempts_of(j) as int);
    lemma_asked_times_carried(t, e.t, k);
    lemma_carried_asked(t, genetic::asked_times(e.t, k));
}

proof fn lemma_reports_go_on(
    before: Seq<Message>,
    after: Seq<Message>,
    total: nat,
    i: int,
)
    requires
        progress::reported(before, after, 0, total, total),
        before.len() <= i < after.len(),
    ensures
        goes_on(after[i]),
{
    reveal(progress::reported);
    let l = choose|l: nat| 0 <= l <= total && #[trigger] after[i] == progress::level_progress(l, total);
    assert(after[i] == progress::level_progress(l, total));
}

proof fn lemma_multiscale_ends(t0: Trace, t1: Trace, j: JobModel, go: bool)
    requires
        process::multiscale_run(t0, t1, j, go),
    ensures
        ended_once(t0, t1, go),
{
    let total = pyramid::pyramid(j.sidelen).len();
    let beat = Beat { report: true, level: 0, total: total as usize };
    let a = j.pictures().assignment(j.problem());
    if j.problem().n() <= 1 {
        lemma_delivered_ends(t0, t0, j, a, go);
    } else {
        pyramid::lemma_pyramid_len(j.sidelen);
        if !go && progress::ran(beat, total, false, t0.answers, t1.answers, t0.log, t1.log) {
            reveal(progress::reported);
            let l = t1.log.drop_last();
            assert forall|i: int| t0.log.len() <= i < t1.log.len() - 1 implies goes_on(
                #[trigger] t1.log[i],
            ) by {
                lemma_reports_go_on(t0.log, l, total, i);
                assert(l[i] == t1.log[i]);
            }
            assert forall|i: int| 0 <= i < t0.log.len() implies #[trigger] t1.log[i] == t0.log[i] by {
                assert(l[i] == t1.log[i]);
            }
        } else {
            let mid = choose|mid: Trace|
                {
                    &&& progress::ran(
                        beat,
                        total,
                        true,
                        t0.answers,
                        mid.answers,
                        t0.log,
                        mid.log,
                    )
                    &&& progress::covered(t0.log, mid.log, total + 1, total)
                    &&& mid.answers.len() == t0.answers.len() + j.pictures().checks(j.problem())
                    &&& t1 == #[trigger] process::delivered(mid, j, a, go)
                };
            assert(carried(t0, mid)) by {
                reveal(progress::reported);
                assert forall|i: int| t0.log.len() <= i < mid.log.len() implies goes_on(
                    #[trigger] mid.log[i],
                ) by {
                    lemma_reports_go_on(t0.log, mid.log, total, i);
                }
            }
            lemma_delivered_ends(t0, mid, j, a, go);
        }
    }
}

/// Every run, whatever the algorithm, only adds to what was sent and asked before. It
/// says that it goes on, with shares of the work that are at most the whole and with
/// previews, and then once how it ended: with a preset or an error, or with the
/// cancellation if a checkpoint refused, after which nothing is asked or sent.
#[verifier::rlimit(40)]
pub proof fn lemma_run_ends_once(
    algorithm: Algorithm,
    plan: Seq<Seq<Real>>,
    t0: Trace,
    t1: Trace,
    j: JobModel,
    go: bool,
)
    requires
        j.fit(),
        supported(algorithm, j),
        algorithm_run(algorithm, plan, t0, t1, j, go),
    ensures
        ended_once(t0, t1, go),
{
    let c = j.problem();
    job::lemma_job_solvable(j);
    let side = j.sidelen as int;
    assert(side <= 64 ==> c.n() <= 4096) by (nonlinear_arith)
        requires
            c.n() == side * side,
            0 <= side,
    ;
    assert(side <= 32 ==> c.n() <= 1024) by (nonlinear_arith)
        requires
            c.n() == side * side,
            0 <= side,
    ;
    assert(carried(t0, t0));
    lemma_carried_sent(t0, t0, process::started());
    let s = t0.sent(process::started());
    match algorithm {
        Algorithm::Optimal => {
            if go {
                lemma_hungarian_carried(t0, j, c.n());
                lemma_carried_sent(
                    t0,
                    process::hungarian_steps(t0, j, c.n()),
                    Message::Done(
                        job::finished(
                            j.name,
                            j.source,
                            jonker_volgenant::exact_assignment(c),
                            j.sidelen,
                        ),
                    ),
                );
            } else {
                let k = choose|k: nat|
                    k < c.n() && t1 == (#[trigger] process::hungarian_steps(t0, j, k)).asked(
                        false,
                    ).sent(Message::Cancelled);
                lemma_hungarian_carried(t0, j, k);
                lemma_carried_asked(t0, process::hungarian_steps(t0, j, k));
            }
        },
        Algorithm::Genetic => lemma_genetic_ends(t0, t1, j, go),
        Algorithm::JonkerVolgenant => {
            lemma_delivered_ends(t0, s, j, jonker_volgenant::exact_assignment(c), go);
        },
        Algorithm::Auction => {
            lemma_delivered_ends(
                t0,
                s,
                j,
                auction::auction_assignment(c, auction::dense_lists(c.n()), None, 5),
                go,
            );
        },
        Algorithm::Multiscale | Algorithm::Balanced => lemma_multiscale_ends(t0, t1, j, go),
        Algorithm::Sinkhorn => {
            lemma_delivered_ends(t0, s, j, sinkhorn::plan_assignment(plan, c), go);
        },
        Algorithm::PatchMatch => {
            lemma_delivered_ends(t0, s, j, patchmatch::patchmatch_assignment(c, side), go);
        },
        Algorithm::Fast => {
            lemma_delivered_ends(t0, s, j, modes::fast_assignment(c, side), go);
        },
        Algorithm::Maximum => {
            lemma_delivered_ends(t0, s, j, modes::maximum_assignment(c, j.pictures()), go);
        },
    }
}

proof fn lemma_genetic_ends(t0: Trace, t1: Trace, j: JobModel, go: bool)
    requires
        genetic::genetic_run(t0, t1, j, go),
    ensures
        ended_once(t0, t1, go),
{
    if go {
        if exists|g: nat|
            {
                let e = #[trigger] genetic::era(j, t0, g);
                &&& g < genetic::MAX_GENERATIONS
                &&& genetic::unsettled(j, t0, g)
                &&& genetic::converged(j, e)
                &&& t1 == genetic::survived(j, e).sent(
                    Message::Done(
                        job::finished(j.name, j.source, genetic::evolved(j, e).a, j.sidelen),
                    ),
                )
            } {
            let g = choose|g: nat|
                {
                    let e = #[trigger] genetic::era(j, t0, g);
                    &&& g < genetic::MAX_GENERATIONS
                    &&& genetic::unsettled(j, t0, g)
                    &&& genetic::converged(j, e)
                    &&& t1 == genetic::survived(j, e).sent(
                        Message::Done(
                            job::finished(j.name, j.source, genetic::evolved(j, e).a, j.sidelen),
                        ),
                    )
                };
            lemma_era_carried(t0, j, g);
            let e = genetic::era(j, t0, g);
            lemma_carried_sent(
                t0,
                genetic::survived(j, e),
                Message::Done(
                    job::finished(j.name, j.source, genetic::evolved(j, e).a, j.sidelen),
                ),
            );
        } else {
            let g = genetic::MAX_GENERATIONS as nat;
            lemma_era_carried(t0, j, g);
            lemma_carried_sent(
                t0,
                genetic::era(j, t0, g).t,
                Message::Error("Genetic: exceeded maximum generations without converging"@),
            );
        }
    } else {
        let (g, q) = choose|g: nat, q: nat|
            {
                &&& g < genetic::MAX_GENERATIONS
                &&& genetic::unsettled(j, t0, g)
                &&& q <= genetic::checkpoints_before(genetic::attempts_of(j) as int)
                &&& t1 == (#[trigger] genetic::asked_times(
                    genetic::era(j, t0, g).t,
                    q,
                )).asked(false).sent(Message::Cancelled)
            };
        lemma_era_carried(t0, j, g);
        let u = genetic::era(j, t0, g).t;
        lemma_asked_times_carried(t0, u, q);
        lemma_carried_asked(t0, genetic::asked_times(u, q));
    }
}

/// A finished multiscale run tells its progress at every level of its pyramid: four
/// fifths of the work are shared equally among the levels.
pub proof fn lemma_multiscale_reports_every_level(
    plan: Seq<Seq<Real>>,
    t0: Trace,
    t1: Trace,
    j: JobModel,
    levels: Seq<u32>,
    level: nat,
) -> (i: int)
    requires
        j.fit(),
        j.sidelen > 1,
        algorithm_run(Algorithm::Multiscale, plan, t0, t1, j, true),
        multiscale::climbs(levels, j.sidelen as int),
        level <= levels.len(),
    ensures
        t0.log.len() <= i < t1.log.len(),
        t1.log[i] == Message::Progress(4 * level, 5 * levels.len()),
{
    job::lemma_job_solvable(j);
    let c = j.problem();
    let side = j.sidelen as int;
    assert(c.n() > 1) by (nonlinear_arith)
        requires
            c.n() == side * side,
            side > 1,
    ;
    multiscale::lemma_climbs_is_the_pyramid(levels, j.sidelen);
    let total = pyramid::pyramid(j.sidelen).len();
    let beat = Beat { report: true, level: 0, total: total as usize };
    let a = j.pictures().assignment(c);
    let mid = choose|mid: Trace|
        {
            &&& progress::ran(beat, total, true, t0.answers, mid.answers, t0.log, mid.log)
            &&& progress::covered(t0.log, mid.log, total + 1, total)
            &&& mid.answers.len() == t0.answers.len() + j.pictures().checks(j.problem())
            &&& t1 == #[trigger] process::delivered(mid, j, a, true)
        };
    reveal(progress::covered);
    let m = progress::level_progress(level, total);
    let i = choose|i: int|
        t0.log.len() <= i < mid.log.len() && #[trigger] mid.log[i] == progress::level_progress(
            level,
            total,
        );
    assert(t1.log[i] == mid.log[i]);
    i
}

proof fn lemma_hungarian_reports(t: Trace, j: JobModel, k: nat, row: nat) -> (i: int)
    requires
        row < k,
        row % 100 == 0,
    ensures
        ({
            let u = process::hungarian_steps(t, j, k);
            &&& t.log.len() <= i < u.log.len() - 1
            &&& u.log[i] == Message::Progress(row, j.problem().n())
            &&& u.log[i + 1] == job::preview(
                j.source,
                process::partial_assignment(
                    jonker_volgenant::matched_rows(j.problem(), (row + 1) as nat),
                ),
                j.sidelen,
            )
        }),
    decreases k,
{
    let b = process::hungarian_steps(t, j, (k - 1) as nat);
    lemma_hungarian_grows(t, j, (k - 1) as nat);
    if row == k - 1 {
        b.log.len() as int
    } else {
        lemma_hungarian_reports(t, j, (k - 1) as nat, row)
    }
}

proof fn lemma_hungarian_grows(t: Trace, j: JobModel, k: nat)
    ensures
        t.log.len() <= process::hungarian_steps(t, j, k).log.len(),
        process::hungarian_steps(t, j, k).answers.len() == t.answers.len() + k,
    decreases k,
{
    if k > 0 {
        lemma_hungarian_grows(t, j, (k - 1) as nat);
    }
}

/// The Hungarian solver asks once for every row, and tells its progress at every
/// hundredth row, with a preview in which the rows up to that one show their sources.
pub proof fn lemma_optimal_reports_every_hundredth_row(
    plan: Seq<Seq<Real>>,
    j: JobModel,
    t0: Trace,
    t1: Trace,
    row: nat,
) -> (i: int)
    requires
        j.fit(),
        j.sidelen <= 64,
        algorithm_run(Algorithm::Optimal, plan, t0, t1, j, true),
        row < j.problem().n(),
        row % 100 == 0,
    ensures
        t1.answers.len() == t0.answers.len() + j.problem().n(),
        t0.log.len() <= i < t1.log.len() - 2,
        t1.log[i] == Message::Progress(row, j.problem().n()),
        t1.log[i + 1] is Preview,
        ({
            let m = jonker_volgenant::matched_rows(j.problem(), (row + 1) as nat);
            forall|d: int|
                0 <= d <= row ==> (#[trigger] m.xy[d] matches Some(s) && process::partial_assignment(
                    m,
                )[d] == s && s < j.problem().n())
        }),
        t1.log[i + 1] == job::preview(
            j.source,
            process::partial_assignment(
                jonker_volgenant::matched_rows(j.problem(), (row + 1) as nat),
            ),
            j.sidelen,
        ),
{
    let c = j.problem();
    job::lemma_job_solvable(j);
    let side = j.sidelen as int;
    assert(c.n() <= 4096) by (nonlinear_arith)
        requires
            c.n() == side * side,
            0 <= side <= 64,
    ;
    let i = lemma_hungarian_reports(t0, j, c.n(), row);
    lemma_hungarian_grows(t0, j, c.n());
    jonker_volgenant::lemma_matched_rows(c, (row + 1) as nat);
    i
}

} // verus!
