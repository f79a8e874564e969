//! Running a solver on a job, with progress reports and cancellation.

use crate::auction;
use crate::float::{Double, Real};
use crate::job;
use crate::job::{Job, JobModel};
use crate::jonker_volgenant;
use crate::modes;
use crate::multiscale;
use crate::patchmatch;
use crate::perm;
use crate::progress;
use crate::progress::{Beat, Checkpoint, Message, ProgressMsg, ProgressSink};
use crate::pyramid;
use crate::sinkhorn;
use vstd::prelude::*;
use vstd::string::*;

verus! {

/// Dense exact solvers become impractical beyond 64 by 64 pixels.
pub const MAX_EXACT_N: usize = 4096;

/// The state of an observer: the messages sent so far and the answers of the
/// checkpoints so far.
#[verifier::ext_equal]
pub struct Trace {
    pub log: Seq<Message>,
    pub answers: Seq<bool>,
}

impl Trace {
    pub open spec fn sent(self, m: Message) -> Trace {
        Trace { log: self.log.push(m), answers: self.answers }
    }

    pub open spec fn asked(self, go: bool) -> Trace {
        Trace { log: self.log, answers: self.answers.push(go) }
    }
}

pub open spec fn trace<S: ProgressSink, C: Checkpoint>(tx: S, control: C) -> Trace {
    Trace { log: tx.log(), answers: control.answers() }
}

/// Nothing has been done yet.
pub open spec fn started() -> Message {
    Message::Progress(0, 1)
}

/// Delivers a solved job: a preview, a last checkpoint, and the finished preset
/// unless that checkpoint refused.
pub open spec fn delivered(t: Trace, j: JobModel, a: Seq<usize>, go: bool) -> Trace {
    let shown = t.sent(job::preview(j.source, a, j.sidelen)).sent(
        Message::Progress(95, 100),
    ).asked(go);
    if go {
        shown.sent(Message::Done(job::finished(j.name, j.source, a, j.sidelen)))
    } else {
        shown.sent(Message::Cancelled)
    }
}

/// Sends a preview, asks a last time, and sends the finished preset.
fn deliver<S: ProgressSink, C: Checkpoint>(
    job: Job,
    assignments: Vec<usize>,
    tx: &mut S,
    control: &mut C,
) -> (go: bool)
    requires
        job@.fit(),
        perm::is_perm(assignments@, job@.problem().n()),
    ensures
        trace(*final(tx), *final(control)) == delivered(
            trace(*old(tx), *old(control)),
            job@,
            assignments@,
            go,
        ),
        old(control).never_refuses() ==> go && final(control).never_refuses(),
{
    proof {
        job::lemma_job_solvable(job@);
    }
    job::emit_preview(tx, &job.source, &assignments, job.sidelen, 95, 100);
    if progress::checkpoint(control, tx) {
        return false;
    }
    job::finalize_preset(tx, job.name, &job.source, assignments, job.sidelen);
    true
}

/// What running the exact solver on a job does.
pub open spec fn exact_run(t: Trace, j: JobModel, go: bool) -> Trace {
    if j.problem().n() > MAX_EXACT_N {
        t.sent(
            Message::Error(
                "Jonker-Volgenant exact solve is limited to 4096 pixels; use Multiscale or Balanced for this resolution"@,
            ),
        )
    } else {
        delivered(t.sent(started()), j, jonker_volgenant::exact_assignment(j.problem()), go)
    }
}

/// Exact assignment of a job; an error for more than [`MAX_EXACT_N`] pixels.
/// False if the run was cancelled.
pub fn run_jonker_volgenant<S: ProgressSink, C: Checkpoint>(
    job: Job,
    tx: &mut S,
    control: &mut C,
) -> (go: bool)
    requires
        job@.fit(),
    ensures
        trace(*final(tx), *final(control)) == exact_run(
            trace(*old(tx), *old(control)),
            job@,
            go,
        ),
        old(control).never_refuses() ==> go && final(control).never_refuses(),
{
    proof {
        job::lemma_job_solvable(job@);
    }
    let lookup = job.lookup();
    if lookup.n_dst() > MAX_EXACT_N {
        tx.send(
            ProgressMsg::Error(
                "Jonker-Volgenant exact solve is limited to 4096 pixels; use Multiscale or Balanced for this resolution".to_string(),
            ),
        );
        return true;
    }
    tx.send(ProgressMsg::Progress { num: 0, den: 1 });
    let assignments = jonker_volgenant::solve(&lookup);
    deliver(job, assignments, tx, control)
}

/// What running the dense auction on a job does.
pub open spec fn auction_run(t: Trace, j: JobModel, go: bool) -> Trace {
    let c = j.problem();
    if c.n() > auction::MAX_DENSE_AUCTION_N {
        t.sent(started()).sent(
            Message::Error(
                "dense auction is limited to 4096 pixels; use multiscale sparse auction for this resolution"@,
            ),
        )
    } else {
        delivered(
            t.sent(started()),
            j,
            auction::auction_assignment(
                c,
                auction::dense_lists(c.n()),
                None,
                auction::DEFAULT_EPSILON_PHASES as nat,
            ),
            go,
        )
    }
}

/// Dense auction of a job; an error if it is too large. False if the run was
/// cancelled.
pub fn run_auction<S: ProgressSink, C: Checkpoint>(job: Job, tx: &mut S, control: &mut C) -> (go:
    bool)
    requires
        job@.fit(),
    ensures
        trace(*final(tx), *final(control)) == auction_run(
            trace(*old(tx), *old(control)),
            job@,
            go,
        ),
        old(control).never_refuses() ==> go && final(control).never_refuses(),
{
    proof {
        job::lemma_job_solvable(job@);
    }
    let lookup = job.lookup();
    tx.send(ProgressMsg::Progress { num: 0, den: 1 });
    match auction::solve_dense(&lookup, auction::DEFAULT_EPSILON_PHASES) {
        Some(assignments) => deliver(job, assignments, tx, control),
        None => {
            tx.send(
                ProgressMsg::Error(
                    "dense auction is limited to 4096 pixels; use multiscale sparse auction for this resolution".to_string(),
                ),
            );
            true
        },
    }
}

/// What running Sinkhorn on a job, with the given transport plan, does.
pub open spec fn sinkhorn_run(t: Trace, j: JobModel, plan: Seq<Seq<Real>>, go: bool) -> Trace {
    let c = j.problem();
    if c.n() > sinkhorn::MAX_DENSE_SINKHORN_N {
        t.sent(started()).sent(
            Message::Error(
                "dense Sinkhorn is limited to 1024 pixels; use multiscale sparse auction for this resolution"@,
            ),
        )
    } else {
        delivered(t.sent(started()), j, sinkhorn::plan_assignment(plan, c), go)
    }
}

/// Rounds the transport plan of a job; an error if the job is too large. False
/// if the run was cancelled.
pub fn run_sinkhorn<S: ProgressSink, C: Checkpoint>(
    job: Job,
    plan: &[Vec<Double>],
    tx: &mut S,
    control: &mut C,
) -> (go: bool)
    requires
        job@.fit(),
        sinkhorn::plan_valid(plan@),
        sinkhorn::plan_fits(sinkhorn::plan_values(plan@), job@.problem().n()),
    ensures
        trace(*final(tx), *final(control)) == sinkhorn_run(
            trace(*old(tx), *old(control)),
            job@,
            sinkhorn::plan_values(plan@),
            go,
        ),
        old(control).never_refuses() ==> go && final(control).never_refuses(),
{
    proof {
        job::lemma_job_solvable(job@);
    }
    let lookup = job.lookup();
    tx.send(ProgressMsg::Progress { num: 0, den: 1 });
    match sinkhorn::solve(&lookup, plan) {
        Some(assignments) => deliver(job, assignments, tx, control),
        None => {
            tx.send(
                ProgressMsg::Error(
                    "dense Sinkhorn is limited to 1024 pixels; use multiscale sparse auction for this resolution".to_string(),
                ),
            );
            true
        },
    }
}

/// What running PatchMatch on a job does.
pub open spec fn patchmatch_run(t: Trace, j: JobModel, go: bool) -> Trace {
    delivered(
        t.sent(started()),
        j,
        patchmatch::patchmatch_assignment(j.problem(), j.sidelen as int),
        go,
    )
}

/// PatchMatch with repair on a job. False if the run was cancelled.
pub fn run_patchmatch<S: ProgressSink, C: Checkpoint>(
    job: Job,
    tx: &mut S,
    control: &mut C,
) -> (go: bool)
    requires
        job@.fit(),
    ensures
        trace(*final(tx), *final(control)) == patchmatch_run(
            trace(*old(tx), *old(control)),
            job@,
            go,
        ),
        old(control).never_refuses() ==> go && final(control).never_refuses(),
{
    proof {
        job::lemma_job_solvable(job@);
    }
    let lookup = job.lookup();
    tx.send(ProgressMsg::Progress { num: 0, den: 1 });
    let assignments = patchmatch::solve(&lookup, job.sidelen);
    deliver(job, assignments, tx, control)
}

/// What running the fast mode on a job does.
pub open spec fn fast_run(t: Trace, j: JobModel, go: bool) -> Trace {
    delivered(
        t.sent(started()),
        j,
        modes::fast_assignment(j.problem(), j.sidelen as int),
        go,
    )
}

/// The fast mode on a job. False if the run was cancelled.
pub fn run_fast<S: ProgressSink, C: Checkpoint>(job: Job, tx: &mut S, control: &mut C) -> (go: bool)
    requires
        job@.fit(),
    ensures
        trace(*final(tx), *final(control)) == fast_run(
            trace(*old(tx), *old(control)),
            job@,
            go,
        ),
        old(control).never_refuses() ==> go && final(control).never_refuses(),
{
    proof {
        job::lemma_job_solvable(job@);
    }
    let lookup = job.lookup();
    tx.send(ProgressMsg::Progress { num: 0, den: 1 });
    let assignments = modes::solve_fast(&lookup, job.sidelen);
    deliver(job, assignments, tx, control)
}

/// What running the maximum mode on a job does.
pub open spec fn maximum_run(t: Trace, j: JobModel, go: bool) -> Trace {
    delivered(t.sent(started()), j, modes::maximum_assignment(j.problem(), j.pictures()), go)
}

/// The maximum mode on a job. False if the run was cancelled.
pub fn run_maximum<S: ProgressSink, C: Checkpoint>(job: Job, tx: &mut S, control: &mut C) -> (go:
    bool)
    requires
        job@.fit(),
    ensures
        trace(*final(tx), *final(control)) == maximum_run(
            trace(*old(tx), *old(control)),
            job@,
            go,
        ),
        old(control).never_refuses() ==> go && final(control).never_refuses(),
{
    proof {
        job::lemma_job_solvable(job@);
    }
    let lookup = job.lookup();
    tx.send(ProgressMsg::Progress { num: 0, den: 1 });
    let assignments = modes::solve_maximum(
        &lookup,
        &job.source,
        &job.target,
        &job.weights,
        job.sidelen,
        job.proximity_importance,
    );
    deliver(job, assignments, tx, control)
}

/// What running the multiscale solver on a job does: it reports the level that
/// it works on, and delivers the solved job or stops at a refusal.
pub open spec fn multiscale_run(t0: Trace, t1: Trace, j: JobModel, go: bool) -> bool {
    let total = pyramid::pyramid(j.sidelen).len();
    let beat = Beat { report: true, level: 0, total: total as usize };
    let a = j.pictures().assignment(j.problem());
    if j.problem().n() <= 1 {
        t1 == delivered(t0, j, a, go)
    } else {
        ||| {
            &&& !go
            &&& progress::ran(beat, total, false, t0.answers, t1.answers, t0.log, t1.log)
            &&& progress::started_at(beat, t0.answers, t1.answers, t0.log, t1.log)
            &&& t1.answers.len() <= t0.answers.len() + j.pictures().checks(j.problem())
        }
        ||| exists|mid: Trace|
            {
                &&& progress::ran(
                    beat,
                    total,
                    true,
                    t0.answers,
                    mid.answers,
                    t0.log,
                    mid.log,
                )
                &&& progress::covered(t0.log, mid.log, total + 1, total)
                &&& mid.answers.len() == t0.answers.len() + j.pictures().checks(j.problem())
                &&& t1 == #[trigger] delivered(mid, j, a, go)
            }
    }
}

/// The multiscale solver on a job. False if the run was cancelled.
pub fn run_multiscale<S: ProgressSink, C: Checkpoint>(
    job: Job,
    tx: &mut S,
    control: &mut C,
) -> (go: bool)
    requires
        job@.fit(),
    ensures
        multiscale_run(
            trace(*old(tx), *old(control)),
            trace(*final(tx), *final(control)),
            job@,
            go,
        ),
        old(control).never_refuses() ==> go && final(control).never_refuses(),
{
    proof {
        job::lemma_job_solvable(job@);
    }
    let lookup = job.lookup();
    let solved = multiscale::solve_inner(
        &lookup,
        &job.source,
        &job.target,
        &job.weights,
        job.sidelen,
        job.proximity_importance,
        tx,
        control,
        true,
    );
    let ghost mid = trace(*tx, *control);
    match solved {
        Some(assignments) => {
            let go = deliver(job, assignments, tx, control);
            proof {
                assert(trace(*tx, *control) == delivered(mid, job@, assignments@, go));
            }
            go
        },
        None => false,
    }
}

/// The sources matched so far; targets without one show source zero.
pub open spec fn partial_assignment(m: jonker_volgenant::Matching) -> Seq<usize> {
    Seq::new(
        m.xy.len(),
        |x: int|
            match m.xy[x] {
                Some(y) => y,
                None => 0,
            },
    )
}

/// After the rows `0..k` have been added and every checkpoint passed: progress
/// and a preview for every hundredth row.
pub open spec fn hungarian_steps(t: Trace, j: JobModel, k: nat) -> Trace
    decreases k,
{
    if k == 0 {
        t
    } else {
        let before = hungarian_steps(t, j, (k - 1) as nat).asked(true);
        if (k - 1) % 100 == 0 {
            before.sent(Message::Progress((k - 1) as nat, j.problem().n())).sent(
                job::preview(
                    j.source,
                    partial_assignment(jonker_volgenant::matched_rows(j.problem(), k)),
                    j.sidelen,
                ),
            )
        } else {
            before
        }
    }
}

/// What running the Hungarian solver on a job does.
pub open spec fn hungarian_run(t0: Trace, t1: Trace, j: JobModel, go: bool) -> bool {
    let c = j.problem();
    if c.n() > MAX_EXACT_N {
        t1 == t0.sent(
            Message::Error(
                "Hungarian exact solve is limited to 4096 pixels; use Multiscale or Balanced for this resolution"@,
            ),
        )
    } else if go {
        t1 == hungarian_steps(t0, j, c.n()).sent(
            Message::Done(
                job::finished(
                    j.name,
                    j.source,
                    jonker_volgenant::exact_assignment(c),
                    j.sidelen,
                ),
            ),
        )
    } else {
        exists|k: nat|
            k < c.n() && t1 == (#[trigger] hungarian_steps(t0, j, k)).asked(false).sent(
                Message::Cancelled,
            )
    }
}

/// Fills in source zero for the targets that have none.
fn filled(xy: &Vec<Option<usize>>, Ghost(m): Ghost<jonker_volgenant::Matching>) -> (r: Vec<usize>)
    requires
        xy@ == m.xy,
    ensures
        r@ == partial_assignment(m),
{
    let mut out: Vec<usize> = Vec::with_capacity(xy.len());
    let mut i: usize = 0;
    while i < xy.len()
        invariant
            i <= xy@.len(),
            xy@ == m.xy,
            out@ == partial_assignment(m).take(i as int),
        decreases xy@.len() - i,
    {
        out.push(
            match xy[i] {
                Some(y) => y,
                None => 0,
            },
        );
        proof {
            let goal = partial_assignment(m);
            assert(goal.take(i + 1) =~= goal.take(i as int).push(goal[i as int]));
        }
        i += 1;
    }
    assert(out@ =~= partial_assignment(m));
    out
}

/// The Hungarian solver on a job: exact, with progress and previews while it
/// runs, and an error for more than [`MAX_EXACT_N`] pixels. False if the run
/// was cancelled.
pub fn run_optimal<S: ProgressSink, C: Checkpoint>(job: Job, tx: &mut S, control: &mut C) -> (go:
    bool)
    requires
        job@.fit(),
    ensures
        hungarian_run(
            trace(*old(tx), *old(control)),
            trace(*final(tx), *final(control)),
            job@,
            go,
        ),
        old(control).never_refuses() ==> go && final(control).never_refuses(),
{
    let ghost j = job@;
    let ghost c = j.problem();
    let ghost t0 = trace(*tx, *control);
    proof {
        job::lemma_job_solvable(j);
    }
    let lookup = job.lookup();
    let n: usize = lookup.n_dst();
    if n > MAX_EXACT_N {
        tx.send(
            ProgressMsg::Error(
                "Hungarian exact solve is limited to 4096 pixels; use Multiscale or Balanced for this resolution".to_string(),
            ),
        );
        return true;
    }
    let mut matcher = jonker_volgenant::Matcher::new(&lookup);
    let mut root: usize = 0;
    while root < n
        invariant
            j == job@,
            j.fit(),
            c == j.problem(),
            lookup@ == c,
            n == c.n(),
            n <= MAX_EXACT_N,
            c.within(jonker_volgenant::exact_cost_limit()),
            c.n() == j.sidelen * j.sidelen,
            root <= n,
            t0 == trace(*old(tx), *old(control)),
            matcher.matching() == jonker_volgenant::matched_rows(c, root as nat),
            trace(*tx, *control) == hungarian_steps(t0, j, root as nat),
            old(control).never_refuses() ==> control.never_refuses(),
        decreases n - root,
    {
        matcher.add_root(&lookup, root);
        if !control.checkpoint() {
            tx.send(ProgressMsg::Cancelled);
            proof {
                assert(trace(*tx, *control) == hungarian_steps(t0, j, root as nat).asked(
                    false,
                ).sent(Message::Cancelled));
            }
            return false;
        }
        if root % 100 == 0 {
            tx.send(ProgressMsg::Progress { num: root as u64, den: n as u64 });
            let ghost m = matcher.matching();
            let shown = filled(&matcher.xy, Ghost(m));
            proof {
                jonker_volgenant::lemma_matched_rows(c, (root + 1) as nat);
                assert forall|i: int| 0 <= i < shown@.len() implies (#[trigger] shown@[i])
                    < j.source.len() by {
                    assert(m.xy[i] is Some ==> m.xy[i].unwrap() < c.n());
                }
            }
            let data = job::make_new_img(&job.source, &shown, job.sidelen);
            tx.send(
                ProgressMsg::UpdatePreview { width: job.sidelen, height: job.sidelen, data },
            );
        }
        root += 1;
    }
    let assignments = matcher.assignments(&lookup);
    job::finalize_preset(tx, job.name, &job.source, assignments, job.sidelen);
    true
}

} // verus!
