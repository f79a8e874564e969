//! Progress reports and cooperative checkpoints of the solvers.

use crate::preset::{Preset, PresetModel};
use vstd::prelude::*;

verus! {

/// The contents of a [`ProgressMsg`].
pub enum Message {
    /// The completed part `num / den` of the work.
    Progress(nat, nat),
    Preview(u32, u32, Seq<u8>),
    Assignments(Seq<usize>),
    Done(PresetModel),
    Error(Seq<char>),
    Cancelled,
}

/// Progress messages sent from a computation to its observer.
pub enum ProgressMsg {
    /// The completed part of the work, as a fraction.
    Progress { num: u64, den: u64 },
    UpdatePreview { width: u32, height: u32, data: Vec<u8> },
    UpdateAssignments(Vec<usize>),
    Done(Preset),
    Error(String),
    Cancelled,
}

impl View for ProgressMsg {
    type V = Message;

    open spec fn view(&self) -> Message {
        match self {
            ProgressMsg::Progress { num, den } => Message::Progress(*num as nat, *den as nat),
            ProgressMsg::UpdatePreview { width, height, data } => Message::Preview(
                *width,
                *height,
                data@,
            ),
            ProgressMsg::UpdateAssignments(a) => Message::Assignments(a@),
            ProgressMsg::Done(p) => Message::Done(p@),
            ProgressMsg::Error(e) => Message::Error(e@),
            ProgressMsg::Cancelled => Message::Cancelled,
        }
    }
}

/// Receives the progress messages of a computation.
pub trait ProgressSink {
    /// Everything that has been sent so far.
    spec fn log(&self) -> Seq<Message>;

    fn send(&mut self, msg: ProgressMsg)
        ensures
            final(self).log() == old(self).log().push(msg@),
    ;
}

/// A sink that keeps every message.
pub struct MessageLog {
    pub messages: Vec<ProgressMsg>,
}

impl MessageLog {
    pub fn new() -> (r: Self)
        ensures
            r.log() == Seq::<Message>::empty(),
    {
        let r = MessageLog { messages: Vec::new() };
        proof {
            assert(r.log() =~= Seq::empty());
        }
        r
    }
}

impl ProgressSink for MessageLog {
    open spec fn log(&self) -> Seq<Message> {
        Seq::new(self.messages@.len(), |i: int| self.messages@[i]@)
    }

    fn send(&mut self, msg: ProgressMsg) {
        let ghost before = self.log();
        self.messages.push(msg);
        proof {
            assert(self.log() =~= before.push(msg@));
        }
    }
}

/// A sink that hands every message to a function.
pub struct FnSink<F: Fn(ProgressMsg)> {
    hook: F,
    sent: Ghost<Seq<Message>>,
}

impl<F: Fn(ProgressMsg)> FnSink<F> {
    #[verifier::type_invariant]
    spec fn callable(&self) -> bool {
        forall|msg: ProgressMsg| call_requires(self.hook, (msg,))
    }

    /// The function that gets the messages.
    pub closed spec fn hook(&self) -> F {
        self.hook
    }

    pub fn new(hook: F) -> (r: Self)
        requires
            forall|msg: ProgressMsg| call_requires(hook, (msg,)),
        ensures
            r.hook() == hook,
            r.log() == Seq::<Message>::empty(),
    {
        FnSink { hook, sent: Ghost(Seq::empty()) }
    }
}

impl<F: Fn(ProgressMsg)> ProgressSink for FnSink<F> {
    closed spec fn log(&self) -> Seq<Message> {
        self.sent@
    }

    /// Calls the function with the message.
    fn send(&mut self, msg: ProgressMsg)
        ensures
            final(self).hook() == old(self).hook(),
            call_ensures(old(self).hook(), (msg,), ()),
    {
        proof {
            use_type_invariant(&*self);
        }
        let ghost sent = self.sent@.push(msg@);
        (self.hook)(msg);
        self.sent = Ghost(sent);
    }
}

/// Decides at every checkpoint whether a computation may go on.
pub trait Checkpoint {
    /// The answers given so far.
    spec fn answers(&self) -> Seq<bool>;

    /// No answer will be a refusal.
    spec fn never_refuses(&self) -> bool;

    /// Whether to go on.
    fn checkpoint(&mut self) -> (go: bool)
        ensures
            final(self).answers() == old(self).answers().push(go),
            old(self).never_refuses() ==> go && final(self).never_refuses(),
    ;
}

/// A control that asks a function.
pub struct FnControl<F: Fn() -> bool> {
    hook: F,
    given: Ghost<Seq<bool>>,
}

impl<F: Fn() -> bool> FnControl<F> {
    #[verifier::type_invariant]
    spec fn callable(&self) -> bool {
        call_requires(self.hook, ())
    }

    /// The function that is asked.
    pub closed spec fn hook(&self) -> F {
        self.hook
    }

    pub fn new(hook: F) -> (r: Self)
        requires
            call_requires(hook, ()),
        ensures
            r.hook() == hook,
            r.answers() == Seq::<bool>::empty(),
    {
        FnControl { hook, given: Ghost(Seq::empty()) }
    }
}

impl<F: Fn() -> bool> Checkpoint for FnControl<F> {
    closed spec fn answers(&self) -> Seq<bool> {
        self.given@
    }

    /// Whatever the function answers, it is no refusal.
    open spec fn never_refuses(&self) -> bool {
        forall|go: bool| #[trigger] call_ensures(self.hook(), (), go) ==> go
    }

    /// Calls the function.
    fn checkpoint(&mut self) -> (go: bool)
        ensures
            final(self).hook() == old(self).hook(),
            call_ensures(old(self).hook(), (), go),
    {
        proof {
            use_type_invariant(&*self);
        }
        let go = (self.hook)();
        let ghost given = self.given@.push(go);
        self.given = Ghost(given);
        assert(call_ensures(old(self).hook(), (), go));
        assert(self.hook() == old(self).hook());
        go
    }
}

/// A control handle that lets a computation run, or stops it at its next
/// checkpoint once it is cancelled.
pub struct SolverControl {
    cancelled: bool,
    given: Ghost<Seq<bool>>,
}

impl SolverControl {
    pub closed spec fn is_cancelled(&self) -> bool {
        self.cancelled
    }

    /// Stops the computation at its next checkpoint.
    pub fn cancel(&mut self)
        ensures
            final(self).is_cancelled(),
            final(self).answers() == old(self).answers(),
    {
        self.cancelled = true;
    }
}

impl Default for SolverControl {
    fn default() -> (r: Self)
        ensures
            !r.is_cancelled(),
            r.never_refuses(),
            r.answers() == Seq::<bool>::empty(),
    {
        SolverControl { cancelled: false, given: Ghost(Seq::empty()) }
    }
}

impl Checkpoint for SolverControl {
    closed spec fn answers(&self) -> Seq<bool> {
        self.given@
    }

    closed spec fn never_refuses(&self) -> bool {
        !self.cancelled
    }

    fn checkpoint(&mut self) -> (go: bool)
        ensures
            go == !old(self).is_cancelled(),
            final(self).is_cancelled() == old(self).is_cancelled(),
    {
        let go = !self.cancelled;
        proof {
            self.given@ = self.given@.push(go);
        }
        go
    }
}

/// From `before` to `after`, every checkpoint let the computation go on.
pub open spec fn all_passed(before: Seq<bool>, after: Seq<bool>) -> bool {
    &&& before.len() <= after.len()
    &&& forall|i: int| 0 <= i < before.len() ==> #[trigger] after[i] == before[i]
    &&& forall|i: int| before.len() <= i < after.len() ==> #[trigger] after[i]
}

/// From `before` to `after`, the last checkpoint was the first to refuse.
pub open spec fn stopped(before: Seq<bool>, after: Seq<bool>) -> bool {
    &&& before.len() < after.len()
    &&& !after.last()
    &&& all_passed(before, after.drop_last())
}

pub proof fn lemma_passed_step(a: Seq<bool>, b: Seq<bool>, go: bool)
    requires
        all_passed(a, b),
    ensures
        go ==> all_passed(a, b.push(go)),
        !go ==> stopped(a, b.push(go)),
{
    assert(b.push(go).drop_last() =~= b);
}

pub proof fn lemma_passed_then(a: Seq<bool>, b: Seq<bool>, c: Seq<bool>)
    requires
        all_passed(a, b),
    ensures
        all_passed(b, c) ==> all_passed(a, c),
        stopped(b, c) ==> stopped(a, c),
{
    if stopped(b, c) {
        let d = c.drop_last();
        assert forall|i: int| 0 <= i < a.len() implies #[trigger] d[i] == a[i] by {
            assert(d[i] == b[i]);
        }
        assert forall|i: int| a.len() <= i < d.len() implies #[trigger] d[i] by {
            if i < b.len() {
                assert(d[i] == b[i]);
            }
        }
    }
    if all_passed(b, c) {
        assert forall|i: int| 0 <= i < a.len() implies #[trigger] c[i] == a[i] by {
            assert(c[i] == b[i]);
        }
        assert forall|i: int| a.len() <= i < c.len() implies #[trigger] c[i] by {
            if i < b.len() {
                assert(c[i] == b[i]);
            }
        }
    }
}

/// What a solver does at a checkpoint besides asking: nothing, or reporting
/// that it is at `level` of `total` levels.
#[derive(Clone, Copy)]
pub struct Beat {
    pub report: bool,
    pub level: usize,
    pub total: usize,
}

/// The share of the work that a solver has done at `level` of `total`.
pub open spec fn level_progress(level: nat, total: nat) -> Message {
    Message::Progress(4 * level, 5 * total)
}

/// The level that a report speaks of.
pub open spec fn level_in(m: Message) -> int {
    match m {
        Message::Progress(num, _) => num as int / 4,
        _ => 0,
    }
}

/// From `before` to `after`, only reports of the levels `lo..=hi` of `total`
/// were sent, none after one of a later level.
#[verifier::opaque]
pub open spec fn reported(
    before: Seq<Message>,
    after: Seq<Message>,
    lo: nat,
    hi: nat,
    total: nat,
) -> bool {
    &&& before.len() <= after.len()
    &&& forall|i: int| 0 <= i < before.len() ==> #[trigger] after[i] == before[i]
    &&& forall|i: int|
        before.len() <= i < after.len() ==> exists|l: nat|
            lo <= l <= hi && #[trigger] after[i] == level_progress(l, total)
    &&& forall|i: int, j: int|
        before.len() <= i <= j < after.len() ==> level_in(#[trigger] after[i]) <= level_in(
            #[trigger] after[j],
        )
}

/// From `before` to `after`, every level below `levels` of `total` was reported.
#[verifier::opaque]
pub open spec fn covered(
    before: Seq<Message>,
    after: Seq<Message>,
    levels: nat,
    total: nat,
) -> bool {
    forall|l: nat|
        l < levels ==> exists|i: int|
            before.len() <= i < after.len() && #[trigger] after[i] == #[trigger] level_progress(
                l,
                total,
            )
}

/// The checkpoints of a stretch of work, from the answers `a0` and the log
/// `l0` to `a1` and `l1`: all passed if `go`, else the last one refused. A
/// reporting solver sends one level report at every checkpoint, and the
/// cancellation.
pub open spec fn ran(
    beat: Beat,
    hi: nat,
    go: bool,
    a0: Seq<bool>,
    a1: Seq<bool>,
    l0: Seq<Message>,
    l1: Seq<Message>,
) -> bool {
    &&& go ==> all_passed(a0, a1)
    &&& !go ==> stopped(a0, a1)
    &&& !beat.report ==> l1 == l0
    &&& beat.report && go ==> {
        &&& l1.len() - l0.len() == a1.len() - a0.len()
        &&& reported(l0, l1, beat.level as nat, hi, beat.total as nat)
    }
    &&& beat.report && !go ==> {
        &&& l1.len() - 1 - l0.len() == a1.len() - a0.len()
        &&& l1.last() == Message::Cancelled
        &&& reported(l0, l1.drop_last(), beat.level as nat, hi, beat.total as nat)
    }
}

/// From `before` to `after`, something was sent, and first the report of level 0
/// of `total`.
pub open spec fn began(before: Seq<Message>, after: Seq<Message>, total: nat) -> bool {
    &&& before.len() < after.len()
    &&& after[before.len() as int] == level_progress(0, total)
}

/// A report of the next level extends the covered levels; later messages keep them.
pub proof fn lemma_covered_next(
    l0: Seq<Message>,
    l1: Seq<Message>,
    l2: Seq<Message>,
    l3: Seq<Message>,
    levels: nat,
    total: nat,
)
    requires
        covered(l0, l1, levels, total),
        l0.len() <= l1.len(),
        l2 == l1.push(level_progress(levels, total)),
        l2.len() <= l3.len(),
        forall|i: int| 0 <= i < l2.len() ==> #[trigger] l3[i] == l2[i],
    ensures
        covered(l0, l3, levels + 1, total),
{
    reveal(covered);
    assert forall|l: nat| l < levels + 1 implies exists|i: int|
        l0.len() <= i < l3.len() && #[trigger] l3[i] == #[trigger] level_progress(l, total) by {
        if l < levels {
            let i = choose|i: int|
                l0.len() <= i < l1.len() && #[trigger] l1[i] == level_progress(l, total);
            assert(l3[i] == l2[i]);
            assert(l3[i] == level_progress(l, total));
        } else {
            let i = l1.len() as int;
            assert(l3[i] == l2[i]);
            assert(l3[i] == level_progress(l, total));
        }
    }
}

proof fn lemma_covered_kept(
    l0: Seq<Message>,
    l1: Seq<Message>,
    l2: Seq<Message>,
    levels: nat,
    total: nat,
)
    requires
        covered(l0, l1, levels, total),
        l1.len() <= l2.len(),
        forall|i: int| 0 <= i < l1.len() ==> #[trigger] l2[i] == l1[i],
    ensures
        covered(l0, l2, levels, total),
{
    reveal(covered);
    assert forall|l: nat| l < levels implies exists|i: int|
        l0.len() <= i < l2.len() && #[trigger] l2[i] == #[trigger] level_progress(l, total) by {
        let i = choose|i: int|
            l0.len() <= i < l1.len() && #[trigger] l1[i] == level_progress(l, total);
        assert(l2[i] == level_progress(l, total));
    }
}

pub proof fn lemma_ran_nothing(beat: Beat, hi: nat, a: Seq<bool>, l: Seq<Message>)
    ensures
        ran(beat, hi, true, a, a, l, l),
{
    reveal(reported);
}

proof fn lemma_reported_then(
    l0: Seq<Message>,
    l1: Seq<Message>,
    l2: Seq<Message>,
    lo: nat,
    mid: nat,
    mid2: nat,
    hi: nat,
    total: nat,
)
    requires
        reported(l0, l1, lo, mid, total),
        reported(l1, l2, mid2, hi, total),
        lo <= mid2,
        mid <= hi,
        mid <= mid2 || l1 == l2,
    ensures
        reported(l0, l2, lo, hi, total),
{
    reveal(reported);
    assert forall|i: int| 0 <= i < l0.len() implies #[trigger] l2[i] == l0[i] by {
        assert(l2[i] == l1[i]);
    }
    assert forall|i: int| l0.len() <= i < l2.len() implies exists|l: nat|
        lo <= l <= hi && #[trigger] l2[i] == level_progress(l, total) by {
        if i < l1.len() {
            assert(l2[i] == l1[i]);
            let l = choose|l: nat| lo <= l <= mid && l1[i] == level_progress(l, total);
            assert(l2[i] == level_progress(l, total));
        } else {
            let l = choose|l: nat| mid2 <= l <= hi && l2[i] == level_progress(l, total);
            assert(l2[i] == level_progress(l, total));
        }
    }
    assert forall|i: int, j: int| l0.len() <= i <= j < l2.len() implies level_in(
        #[trigger] l2[i],
    ) <= level_in(#[trigger] l2[j]) by {
        if j < l1.len() {
            assert(l2[i] == l1[i] && l2[j] == l1[j]);
        } else if i < l1.len() {
            assert(l2[i] == l1[i]);
            let l = choose|l: nat| lo <= l <= mid && l1[i] == level_progress(l, total);
            let m = choose|m: nat| mid2 <= m <= hi && l2[j] == level_progress(m, total);
            assert(level_in(l1[i]) == l && level_in(l2[j]) == m);
        }
    }
}

/// Stretches of work at the same or later levels follow one another.
pub proof fn lemma_ran_then(
    beat: Beat,
    mid: nat,
    next: Beat,
    hi: nat,
    go: bool,
    a0: Seq<bool>,
    a1: Seq<bool>,
    a2: Seq<bool>,
    l0: Seq<Message>,
    l1: Seq<Message>,
    l2: Seq<Message>,
)
    requires
        ran(beat, mid, true, a0, a1, l0, l1),
        ran(next, hi, go, a1, a2, l1, l2),
        beat.report == next.report,
        beat.total == next.total,
        beat.level <= mid <= next.level <= hi,
    ensures
        ran(beat, hi, go, a0, a2, l0, l2),
{
    lemma_passed_then(a0, a1, a2);
    if beat.report {
        let end = if go {
            l2
        } else {
            l2.drop_last()
        };
        lemma_reported_then(
            l0,
            l1,
            end,
            beat.level as nat,
            mid,
            next.level as nat,
            hi,
            beat.total as nat,
        );
    }
}

/// Reports of some levels are reports of more levels.
pub proof fn lemma_ran_wider(
    beat: Beat,
    mid: nat,
    hi: nat,
    go: bool,
    a0: Seq<bool>,
    a1: Seq<bool>,
    l0: Seq<Message>,
    l1: Seq<Message>,
)
    requires
        ran(beat, mid, go, a0, a1, l0, l1),
        mid <= hi,
    ensures
        ran(beat, hi, go, a0, a1, l0, l1),
{
    if beat.report {
        reveal(reported);
        let end = if go {
            l1
        } else {
            l1.drop_last()
        };
        lemma_reported_then(
            l0,
            end,
            end,
            beat.level as nat,
            mid,
            beat.level as nat,
            hi,
            beat.total as nat,
        );
    }
}

/// What a reporting solver owes from `a0` and `l0` on: it asks, and reports level 0
/// before anything else.
pub open spec fn started_at(
    first: Beat,
    a0: Seq<bool>,
    a1: Seq<bool>,
    l0: Seq<Message>,
    l1: Seq<Message>,
) -> bool {
    &&& a0.len() < a1.len()
    &&& first.report ==> began(l0, l1, first.total as nat)
}

/// Later work keeps how a solver started.
proof fn lemma_started_then(
    first: Beat,
    beat: Beat,
    hi: nat,
    go: bool,
    a0: Seq<bool>,
    a1: Seq<bool>,
    a2: Seq<bool>,
    l0: Seq<Message>,
    l1: Seq<Message>,
    l2: Seq<Message>,
)
    requires
        started_at(first, a0, a1, l0, l1),
        beat.report == first.report,
        ran(beat, hi, go, a1, a2, l1, l2),
    ensures
        started_at(first, a0, a2, l0, l2),
{
    if first.report {
        reveal(reported);
        let k = l0.len() as int;
        if go {
            assert(l2[k] == l1[k]);
        } else {
            assert(l2.drop_last()[k] == l1[k]);
        }
    }
}

/// The levels below `levels` are done, and nothing has been sent of later ones.
#[verifier::opaque]
pub open spec fn climbed(
    first: Beat,
    levels: nat,
    a0: Seq<bool>,
    a1: Seq<bool>,
    l0: Seq<Message>,
    l1: Seq<Message>,
) -> bool {
    let hi = if levels == 0 {
        0
    } else {
        (levels - 1) as nat
    };
    &&& first.level == 0
    &&& ran(first, hi, true, a0, a1, l0, l1)
    &&& first.report ==> covered(l0, l1, levels, first.total as nat)
    &&& levels == 0 ==> a1 == a0 && l1 == l0
    &&& levels > 0 ==> started_at(first, a0, a1, l0, l1)
}

/// The work on `level` is under way, and has been reported.
#[verifier::opaque]
pub open spec fn climbing(
    first: Beat,
    level: nat,
    a0: Seq<bool>,
    a1: Seq<bool>,
    l0: Seq<Message>,
    l1: Seq<Message>,
) -> bool {
    &&& first.level == 0
    &&& ran(first, level, true, a0, a1, l0, l1)
    &&& first.report ==> covered(l0, l1, level + 1, first.total as nat)
    &&& started_at(first, a0, a1, l0, l1)
}

/// Before the first checkpoint no level is done.
pub proof fn lemma_climb_start(first: Beat, a: Seq<bool>, l: Seq<Message>)
    requires
        first.level == 0,
    ensures
        climbed(first, 0, a, a, l, l),
{
    reveal(climbed);
    reveal(covered);
    lemma_ran_nothing(first, 0, a, l);
}

/// The checkpoint at the start of a level.
pub proof fn lemma_climb_enter(
    first: Beat,
    beat: Beat,
    go: bool,
    a0: Seq<bool>,
    a1: Seq<bool>,
    a2: Seq<bool>,
    l0: Seq<Message>,
    l1: Seq<Message>,
    l2: Seq<Message>,
)
    requires
        climbed(first, beat.level as nat, a0, a1, l0, l1),
        beat.report == first.report,
        beat.total == first.total,
        beat.level <= first.total,
        a2 == a1.push(go),
        ran(beat, beat.level as nat, go, a1, a2, l1, l2),
        beat.report ==> l1.len() < l2.len() && l2[l1.len() as int] == level_progress(
            beat.level as nat,
            beat.total as nat,
        ),
    ensures
        go ==> climbing(first, beat.level as nat, a0, a2, l0, l2),
        !go ==> ran(first, first.total as nat, false, a0, a2, l0, l2) && started_at(
            first,
            a0,
            a2,
            l0,
            l2,
        ),
{
    reveal(climbed);
    reveal(climbing);
    reveal(reported);
    let i = beat.level as nat;
    let hi = if i == 0 {
        0
    } else {
        (i - 1) as nat
    };
    lemma_ran_then(first, hi, beat, i, go, a0, a1, a2, l0, l1, l2);
    if i > 0 {
        lemma_started_then(first, beat, i, go, a0, a1, a2, l0, l1, l2);
    }
    if go {
        if first.report {
            let mid = l1.push(level_progress(i, first.total as nat));
            assert forall|k: int| 0 <= k < mid.len() implies #[trigger] l2[k] == mid[k] by {
                if k < l1.len() {
                    assert(l2[k] == l1[k]);
                }
            }
            lemma_covered_next(l0, l1, mid, l2, i, first.total as nat);
        }
    } else {
        lemma_ran_wider(first, i, first.total as nat, false, a0, a2, l0, l2);
    }
}

/// The work on a level.
pub proof fn lemma_climb_level(
    first: Beat,
    beat: Beat,
    go: bool,
    a0: Seq<bool>,
    a1: Seq<bool>,
    a2: Seq<bool>,
    l0: Seq<Message>,
    l1: Seq<Message>,
    l2: Seq<Message>,
)
    requires
        climbing(first, beat.level as nat, a0, a1, l0, l1),
        beat.report == first.report,
        beat.total == first.total,
        beat.level <= first.total,
        ran(beat, beat.level as nat, go, a1, a2, l1, l2),
    ensures
        go ==> climbed(first, (beat.level + 1) as nat, a0, a2, l0, l2),
        !go ==> ran(first, first.total as nat, false, a0, a2, l0, l2) && started_at(
            first,
            a0,
            a2,
            l0,
            l2,
        ),
{
    reveal(climbed);
    reveal(climbing);
    reveal(reported);
    let i = beat.level as nat;
    lemma_ran_then(first, i, beat, i, go, a0, a1, a2, l0, l1, l2);
    lemma_started_then(first, beat, i, go, a0, a1, a2, l0, l1, l2);
    if go {
        if first.report {
            lemma_covered_kept(l0, l1, l2, i + 1, first.total as nat);
        }
    } else {
        lemma_ran_wider(first, i, first.total as nat, false, a0, a2, l0, l2);
    }
}

/// The last work, above all levels, with at least one checkpoint if it is done.
pub proof fn lemma_climb_end(
    first: Beat,
    beat: Beat,
    go: bool,
    a0: Seq<bool>,
    a1: Seq<bool>,
    a2: Seq<bool>,
    l0: Seq<Message>,
    l1: Seq<Message>,
    l2: Seq<Message>,
)
    requires
        climbed(first, first.total as nat, a0, a1, l0, l1),
        first.total > 0,
        beat == (Beat { report: first.report, level: first.total, total: first.total }),
        ran(beat, beat.level as nat, go, a1, a2, l1, l2),
        go ==> a1.len() < a2.len(),
    ensures
        ran(first, first.total as nat, go, a0, a2, l0, l2),
        started_at(first, a0, a2, l0, l2),
        go && first.report ==> covered(l0, l2, (first.total + 1) as nat, first.total as nat),
        go && first.report ==> l2.last() == level_progress(first.total as nat, first.total as nat),
{
    reveal(climbed);
    reveal(reported);
    let total = first.total as nat;
    lemma_ran_then(first, (total - 1) as nat, beat, total, go, a0, a1, a2, l0, l1, l2);
    lemma_started_then(first, beat, total, go, a0, a1, a2, l0, l1, l2);
    if go && first.report {
        let report = level_progress(total, total);
        let k = l1.len() as int;
        assert(l2[k] == report);
        assert(l2[l2.len() - 1] == report);
        let mid = l1.push(report);
        assert forall|i: int| 0 <= i < mid.len() implies #[trigger] l2[i] == mid[i] by {
            if i < k {
                assert(l2[i] == l1[i]);
            }
        }
        lemma_covered_next(l0, l1, mid, l2, total, total);
    }
}

impl Beat {
    pub open spec fn sound(self) -> bool {
        self.level <= self.total <= 0xffff_ffff
    }

    /// A beat that reports nothing.
    pub fn silent() -> (r: Self)
        ensures
            !r.report,
            r.sound(),
    {
        Beat { report: false, level: 0, total: 0 }
    }

    /// One checkpoint: reports the level, asks whether to go on, and reports a
    /// cancellation.
    pub fn pass<S: ProgressSink, C: Checkpoint>(self, tx: &mut S, control: &mut C) -> (go: bool)
        requires
            self.sound(),
        ensures
            final(control).answers() == old(control).answers().push(go),
            final(tx).log() == if !self.report {
                old(tx).log()
            } else if go {
                old(tx).log().push(level_progress(self.level as nat, self.total as nat))
            } else {
                old(tx).log().push(level_progress(self.level as nat, self.total as nat)).push(
                    Message::Cancelled,
                )
            },
            ran(
                self,
                self.level as nat,
                go,
                old(control).answers(),
                final(control).answers(),
                old(tx).log(),
                final(tx).log(),
            ),
            old(control).never_refuses() ==> go && final(control).never_refuses(),
    {
        if self.report {
            tx.send(
                ProgressMsg::Progress { num: self.level as u64 * 4, den: self.total as u64 * 5 },
            );
        }
        let ghost mid = tx.log();
        let go = control.checkpoint();
        if self.report && !go {
            tx.send(ProgressMsg::Cancelled);
        }
        proof {
            reveal(reported);
            lemma_passed_step(old(control).answers(), old(control).answers(), go);
            if self.report {
                assert(mid[mid.len() - 1] == level_progress(
                    self.level as nat,
                    self.total as nat,
                ));
                if !go {
                    assert(tx.log().drop_last() =~= mid);
                }
            }
        }
        go
    }
}

/// A checkpoint between stages: true, with the cancellation reported, if the
/// computation must stop.
pub fn checkpoint<S: ProgressSink, C: Checkpoint>(control: &mut C, tx: &mut S) -> (cancelled: bool)
    ensures
        final(control).answers() == old(control).answers().push(!cancelled),
        old(control).never_refuses() ==> !cancelled && final(control).never_refuses(),
        final(tx).log() == if cancelled {
            old(tx).log().push(Message::Cancelled)
        } else {
            old(tx).log()
        },
{
    if !control.checkpoint() {
        tx.send(ProgressMsg::Cancelled);
        true
    } else {
        false
    }
}

} // verus!
