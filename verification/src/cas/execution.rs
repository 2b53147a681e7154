//! What a runner makes of a plan: a run of its steps, and on failure the undoing of what they left
//! behind.

use vstd::prelude::*;
use crate::cas::model::{effect, has_to_succeed, left_behind, reaches, run, undone, Disk};
use crate::plan::call::{reported, CallView, OutcomeView};
use crate::plan::runner::{
    advanced, counted, settled, started, NextView, OnError, RunnerView, StepView, Tallies, Waiting,
};
use crate::types::{IoError, IoErrorKind, StorageError};

verus! {

/// How what a runner hands out is answered.
#[verifier::ext_equal]
pub enum Event {
    /// A call ended so.
    Settled(Result<(), IoError>),
    /// A question was answered, and these steps follow.
    Extended(Seq<StepView>),
    /// A question was answered, and the task fails.
    Refused(StorageError),
}

/// A call that had to succeed failed because there was nothing there, and that does not matter.
pub open spec fn passes_as_missing(step: StepView, result: Result<(), IoError>) -> bool {
    &&& has_to_succeed(step)
    &&& step matches StepView::Do { rule, .. } && rule.missing_ok
    &&& result matches Err(e) && e.kind == IoErrorKind::NotFound
}

/// The runner and the bucket after the events, each of which answers what the runner hands out at
/// that point; none, where one of them does not. A call that fails changes nothing. One that had to
/// succeed fails as missing only where it would have changed nothing.
pub open spec fn played(r: RunnerView, d: Disk, events: Seq<Event>) -> Option<(RunnerView, Disk)>
    decreases events.len(),
{
    if events.len() == 0 {
        Some((r, d))
    } else {
        match played(r, d, events.drop_last()) {
            None => None,
            Some((s, x)) => {
                let (t, next) = advanced(s);
                match (next, events.last()) {
                    (NextView::Do(call), Event::Settled(result)) => {
                        let missing = t.waiting matches Waiting::Result(rule)
                            && passes_as_missing(StepView::Do { call, rule }, result);
                        if missing && effect(x, call) != x {
                            None
                        } else {
                            Some(
                                (
                                    settled(t, result),
                                    if result is Ok {
                                        effect(x, call)
                                    } else {
                                        x
                                    },
                                ),
                            )
                        }
                    },
                    (NextView::Ask(_), Event::Extended(plan)) => Some(
                        (RunnerView { steps: t.steps + plan, ..t }, x),
                    ),
                    (NextView::Ask(_), Event::Refused(e)) => Some(
                        (RunnerView { failure: Some(e), ..t }, x),
                    ),
                    _ => None,
                }
            },
        }
    }
}

/// All steps of a task: those it begins with, and those that followed its questions.
pub open spec fn script(plan: Seq<StepView>, events: Seq<Event>) -> Seq<StepView>
    decreases events.len(),
{
    if events.len() == 0 {
        plan
    } else {
        match events.last() {
            Event::Extended(more) => script(plan, events.drop_last()) + more,
            _ => script(plan, events.drop_last()),
        }
    }
}

/// What is counted where these of the steps made their call and it succeeded.
pub open spec fn tally(t: Tallies, steps: Seq<StepView>, hits: Seq<bool>) -> Tallies
    decreases steps.len(),
{
    if steps.len() == 0 {
        t
    } else {
        let before = tally(t, steps.drop_last(), hits);
        match steps.last() {
            StepView::Do { rule, .. } if hits[steps.len() - 1] => counted(before, rule.count),
            _ => before,
        }
    }
}

/// The bucket after as many of the calls that were left behind as `undid` has entries, the newest
/// first, where `undid` says which of them succeeded.
pub open spec fn unwound(d: Disk, calls: Seq<CallView>, undid: Seq<bool>) -> Disk
    decreases undid.len(),
{
    if undid.len() == 0 {
        d
    } else {
        let before = unwound(d, calls, undid.drop_last());
        if undid.last() {
            effect(before, calls[calls.len() - undid.len()])
        } else {
            before
        }
    }
}

/// A step that succeeded made its call, or its call was one that may find nothing.
pub open spec fn is_hit(step: StepView, done: bool, hit: bool) -> bool {
    &&& hit ==> done
    &&& done && !hit ==> (step matches StepView::Do { rule, .. } ==> rule.missing_ok)
}

/// The bucket is that of a run of the first steps: `done` says which of them succeeded, and `hits`
/// which of them are counted.
pub open spec fn ran(
    begin: RunnerView,
    d: Disk,
    steps: Seq<StepView>,
    done: Seq<bool>,
    hits: Seq<bool>,
    tallies: Tallies,
    x: Disk,
) -> bool {
    let k = done.len() as int;
    &&& hits.len() == k <= steps.len()
    &&& reaches(steps, done, k)
    &&& forall|i: int| 0 <= i < k ==> is_hit(#[trigger] steps[i], done[i], hits[i])
    &&& forall|i: int| 0 <= i < k ==> !(#[trigger] steps[i] is Finish) && !(steps[i] is Fail)
    &&& x == run(d, steps.take(k), done)
    &&& tallies == tally(begin.tallies, steps.take(k), hits)
}

/// The calls that were left behind when the first `k` steps were taken.
pub open spec fn left(begin: RunnerView, steps: Seq<StepView>, k: int) -> Seq<CallView> {
    left_behind(begin.undo, steps.take(k))
}

/// A runner that has taken the first steps and goes on with the others.
pub open spec fn on_course(
    begin: RunnerView,
    d: Disk,
    steps: Seq<StepView>,
    done: Seq<bool>,
    hits: Seq<bool>,
    s: RunnerView,
    x: Disk,
) -> bool {
    let k = done.len() as int;
    &&& ran(begin, d, steps, done, hits, s.tallies, x)
    &&& s.failure is None
    &&& s.steps == steps.skip(k)
    &&& s.undo == left(begin, steps, k)
}

/// Why a task failed behind its first `k` steps: the step that follows says so, or its call had to
/// succeed and did not, or the question before it was answered so.
pub open spec fn cause(steps: Seq<StepView>, k: int, e: StorageError) -> bool {
    ||| k < steps.len() && steps[k] == (StepView::Fail { error: e })
    ||| k < steps.len() && (steps[k] matches StepView::Do { rule, .. }
        && rule.on_error matches OnError::Fail(report) && exists|io: IoError|
        e == #[trigger] reported(report, io))
    ||| 0 < k <= steps.len() && steps[k - 1] is Ask
}

/// A runner that failed behind the first steps, and has made so many of the calls that were left
/// behind.
pub open spec fn unwinding(
    begin: RunnerView,
    d: Disk,
    steps: Seq<StepView>,
    done: Seq<bool>,
    hits: Seq<bool>,
    undid: Seq<bool>,
    s: RunnerView,
    x: Disk,
) -> bool {
    let k = done.len() as int;
    let calls = left(begin, steps, k);
    &&& ran(begin, d, steps, done, hits, s.tallies, run(d, steps.take(k), done))
    &&& s.failure matches Some(e) && cause(steps, k, e)
    &&& undid.len() <= calls.len()
    &&& s.undo == calls.take(calls.len() - undid.len())
    &&& x == unwound(run(d, steps.take(k), done), calls, undid)
}

/// The state of a task after some events.
pub open spec fn is_under_way(
    begin: RunnerView,
    d: Disk,
    steps: Seq<StepView>,
    s: RunnerView,
    x: Disk,
) -> bool {
    match s.failure {
        None => exists|done: Seq<bool>, hits: Seq<bool>| #[trigger]
            on_course(begin, d, steps, done, hits, s, x),
        Some(_) => exists|done: Seq<bool>, hits: Seq<bool>, undid: Seq<bool>| #[trigger]
            unwinding(begin, d, steps, done, hits, undid, s, x),
    }
}

/// One more step was taken.
proof fn lemma_one_more(
    begin: RunnerView,
    d: Disk,
    steps: Seq<StepView>,
    done: Seq<bool>,
    hits: Seq<bool>,
    tallies: Tallies,
    x: Disk,
    did: bool,
    hit: bool,
)
    requires
        ran(begin, d, steps, done, hits, tallies, x),
        done.len() < steps.len(),
        !(steps[done.len() as int] is Finish),
        !(steps[done.len() as int] is Fail),
        is_hit(steps[done.len() as int], did, hit),
        has_to_succeed(steps[done.len() as int]) ==> did,
    ensures
        ({
            let step = steps[done.len() as int];
            ran(
                begin,
                d,
                steps,
                done.push(did),
                hits.push(hit),
                match step {
                    StepView::Do { rule, .. } if hit => counted(tallies, rule.count),
                    _ => tallies,
                },
                if did {
                    crate::cas::model::step_effect(x, step)
                } else {
                    x
                },
            )
        }),
{
    let k = done.len() as int;
    let front = steps.take(k + 1);
    assert(front.drop_last() =~= steps.take(k));
    assert(front.last() == steps[k]);
    lemma_run_longer(d, steps.take(k), done, did);
    lemma_tally_longer(begin.tallies, steps.take(k), hits, hit);
    let more = done.push(did);
    assert forall|i: int| 0 <= i < k + 1 && has_to_succeed(#[trigger] steps[i]) implies more[i] by {
        if i < k {
            assert(done[i]);
        }
    }
}

/// Only the entries of the steps matter.
proof fn lemma_run_longer(d: Disk, steps: Seq<StepView>, done: Seq<bool>, more: bool)
    requires
        steps.len() <= done.len(),
    ensures
        run(d, steps, done.push(more)) == run(d, steps, done),
    decreases steps.len(),
{
    if steps.len() > 0 {
        lemma_run_longer(d, steps.drop_last(), done, more);
    }
}

proof fn lemma_tally_longer(t: Tallies, steps: Seq<StepView>, hits: Seq<bool>, more: bool)
    requires
        steps.len() <= hits.len(),
    ensures
        tally(t, steps, hits.push(more)) == tally(t, steps, hits),
    decreases steps.len(),
{
    if steps.len() > 0 {
        lemma_tally_longer(t, steps.drop_last(), hits, more);
    }
}

/// What a step leaves behind.
proof fn lemma_left_longer(begin: RunnerView, steps: Seq<StepView>, k: int)
    requires
        0 <= k < steps.len(),
    ensures
        left(begin, steps, k + 1) == ({
            let u = left(begin, steps, k);
            match steps[k] {
                StepView::Defer { call } => u.push(call),
                StepView::Disarm => if u.len() > 0 {
                    u.drop_last()
                } else {
                    u
                },
                StepView::Seal => Seq::empty(),
                _ => u,
            }
        }),
{
    let front = steps.take(k + 1);
    assert(front.drop_last() =~= steps.take(k));
    assert(front.last() == steps[k]);
}

/// The runner stands before a step that is handed out or ends the task.
pub open spec fn is_due(s: RunnerView) -> bool {
    s.steps.len() == 0 || match s.steps[0] {
        StepView::Do { rule, .. } => !(rule.if_clean && s.tainted),
        StepView::Ask { .. } => true,
        StepView::Finish { .. } => true,
        StepView::Fail { .. } => true,
        _ => false,
    }
}

/// A runner takes the steps that it hands nothing out for by itself.
proof fn lemma_due(
    begin: RunnerView,
    d: Disk,
    steps: Seq<StepView>,
    done: Seq<bool>,
    hits: Seq<bool>,
    s: RunnerView,
    x: Disk,
) -> (w: (RunnerView, Seq<bool>, Seq<bool>))
    requires
        on_course(begin, d, steps, done, hits, s, x),
    ensures
        on_course(begin, d, steps, w.1, w.2, w.0, x),
        advanced(w.0) == advanced(s),
        is_due(w.0),
    decreases s.steps.len(),
{
    let k = done.len() as int;
    if is_due(s) {
        (s, done, hits)
    } else {
        let step = s.steps[0];
        assert(step == steps[k]);
        let rest = RunnerView { steps: s.steps.skip(1), ..s };
        let t = match step {
            StepView::Defer { call } => RunnerView { undo: s.undo.push(call), ..rest },
            StepView::Disarm => RunnerView {
                undo: if s.undo.len() > 0 {
                    s.undo.drop_last()
                } else {
                    s.undo
                },
                ..rest
            },
            StepView::Seal => RunnerView { undo: Seq::empty(), ..rest },
            StepView::Reset => RunnerView { tainted: false, ..rest },
            _ => rest,
        };
        assert(advanced(s) == advanced(t));
        let did = !(step is Do);
        lemma_one_more(begin, d, steps, done, hits, s.tallies, x, did, did);
        lemma_left_longer(begin, steps, k);
        assert(t.steps =~= steps.skip(k + 1));
        lemma_due(begin, d, steps, done.push(did), hits.push(did), t, x)
    }
}

/// Steps that are added at the end change nothing of what was done.
proof fn lemma_extended(
    begin: RunnerView,
    d: Disk,
    steps: Seq<StepView>,
    more: Seq<StepView>,
    done: Seq<bool>,
    hits: Seq<bool>,
    tallies: Tallies,
    x: Disk,
)
    requires
        ran(begin, d, steps, done, hits, tallies, x),
    ensures
        ran(begin, d, steps + more, done, hits, tallies, x),
        left(begin, steps + more, done.len() as int) == left(begin, steps, done.len() as int),
{
    let k = done.len() as int;
    let all = steps + more;
    assert(all.take(k) =~= steps.take(k));
    assert forall|i: int| 0 <= i < k implies #[trigger] all[i] == steps[i] by {}
    assert forall|i: int| 0 <= i < k && has_to_succeed(#[trigger] all[i]) implies done[i] by {
        assert(has_to_succeed(steps[i]));
    }
    assert forall|i: int| 0 <= i < k implies is_hit(#[trigger] all[i], done[i], hits[i]) by {
        assert(is_hit(steps[i], done[i], hits[i]));
    }
    assert forall|i: int| 0 <= i < k implies !(#[trigger] all[i] is Finish) && !(all[i] is Fail) by {
        assert(!(steps[i] is Finish) && !(steps[i] is Fail));
    }
}

/// One more of the calls that were left behind is made.
proof fn lemma_unwinds(
    begin: RunnerView,
    d: Disk,
    steps: Seq<StepView>,
    done: Seq<bool>,
    hits: Seq<bool>,
    undid: Seq<bool>,
    s: RunnerView,
    x: Disk,
    result: Result<(), IoError>,
)
    requires
        unwinding(begin, d, steps, done, hits, undid, s, x),
        advanced(s).1 is Do,
    ensures
        ({
            let (t, next) = advanced(s);
            &&& next matches NextView::Do(call)
            &&& t.waiting == Waiting::Result(crate::plan::runner::may())
            &&& unwinding(
                begin,
                d,
                steps,
                done,
                hits,
                undid.push(result is Ok),
                settled(t, result),
                if result is Ok {
                    effect(x, call)
                } else {
                    x
                },
            )
        }),
{
    let k = done.len() as int;
    let calls = left(begin, steps, k);
    let more = undid.push(result is Ok);
    assert(more.drop_last() =~= undid);
    assert(s.undo.len() > 0);
    assert(s.undo.last() == calls[calls.len() - more.len()]);
    assert(s.undo.drop_last() =~= calls.take(calls.len() - more.len()));
}

/// One event keeps a task on its way.
proof fn lemma_event(
    begin: RunnerView,
    d: Disk,
    steps: Seq<StepView>,
    s: RunnerView,
    x: Disk,
    event: Event,
)
    requires
        is_under_way(begin, d, steps, s, x),
        played(s, x, seq![event]) is Some,
    ensures
        ({
            let (t, y) = played(s, x, seq![event])->0;
            is_under_way(begin, d, script(steps, seq![event]), t, y)
        }),
{
    let events = seq![event];
    assert(events.drop_last() =~= Seq::empty());
    assert(played(s, x, events.drop_last()) == Some((s, x)));
    assert(script(steps, events.drop_last()) == steps);
    let (t, y) = played(s, x, events)->0;
    match s.failure {
        Some(_) => {
            let (done, hits, undid) = choose|done: Seq<bool>, hits: Seq<bool>, undid: Seq<bool>|
                #[trigger] unwinding(begin, d, steps, done, hits, undid, s, x);
            let result = event->Settled_0;
            lemma_unwinds(begin, d, steps, done, hits, undid, s, x, result);
            assert(unwinding(begin, d, steps, done, hits, undid.push(result is Ok), t, y));
        },
        None => {
            let (done, hits) = choose|done: Seq<bool>, hits: Seq<bool>| #[trigger]
                on_course(begin, d, steps, done, hits, s, x);
            let (due, done, hits) = lemma_due(begin, d, steps, done, hits, s, x);
            lemma_due_event(begin, d, steps, done, hits, due, x, event);
            assert(played(due, x, events.drop_last()) == Some((due, x)));
            assert(played(due, x, events) == played(s, x, events));
        },
    }
}

/// What an event makes of a runner that stands before a step.
proof fn lemma_due_event(
    begin: RunnerView,
    d: Disk,
    steps: Seq<StepView>,
    done: Seq<bool>,
    hits: Seq<bool>,
    s: RunnerView,
    x: Disk,
    event: Event,
)
    requires
        on_course(begin, d, steps, done, hits, s, x),
        is_due(s),
        played(s, x, seq![event]) is Some,
    ensures
        ({
            let (t, y) = played(s, x, seq![event])->0;
            is_under_way(begin, d, script(steps, seq![event]), t, y)
        }),
{
    let events = seq![event];
    assert(events.drop_last() =~= Seq::empty());
    assert(played(s, x, events.drop_last()) == Some((s, x)));
    assert(script(steps, events.drop_last()) == steps);
    let (t, y) = played(s, x, events)->0;
    let k = done.len() as int;
    assert(s.steps.len() > 0);
    let step = steps[k];
    assert(s.steps[0] == step);
    let rest = s.steps.skip(1);
    assert(rest =~= steps.skip(k + 1));
    lemma_left_longer(begin, steps, k);
    match step {
        StepView::Do { call, rule } => {
            let result = event->Settled_0;
            let missing = rule.missing_ok && (result matches Err(e) && e.kind
                == IoErrorKind::NotFound);
            if result is Err && !missing && rule.on_error is Fail {
                let calls = left(begin, steps, k);
                let none = Seq::<bool>::empty();
                assert(calls.take(calls.len() as int) =~= calls);
                let e = result->Err_0;
                assert(t.failure == Some(reported(rule.on_error->Fail_0, e)));
                assert(cause(steps, k, t.failure->0));
                assert(unwinding(begin, d, steps, done, hits, none, t, y));
            } else {
                let hit = result is Ok;
                let did = hit || (missing && has_to_succeed(step));
                lemma_one_more(begin, d, steps, done, hits, s.tallies, x, did, hit);
                assert(on_course(begin, d, steps, done.push(did), hits.push(hit), t, y));
            }
        },
        StepView::Ask { .. } => {
            lemma_one_more(begin, d, steps, done, hits, s.tallies, x, true, true);
            let did = done.push(true);
            let hit = hits.push(true);
            match event {
                Event::Extended(more) => {
                    lemma_extended(begin, d, steps, more, did, hit, s.tallies, x);
                    assert(t.steps =~= (steps + more).skip(k + 1));
                    assert(on_course(begin, d, steps + more, did, hit, t, y));
                },
                _ => {
                    let calls = left(begin, steps, k + 1);
                    let none = Seq::<bool>::empty();
                    assert(calls.take(calls.len() as int) =~= calls);
                    assert(cause(steps, k + 1, t.failure->0));
                    assert(unwinding(begin, d, steps, did, hit, none, t, y));
                },
            }
        },
        StepView::Fail { error } => {
            let u = RunnerView { steps: rest, failure: Some(error), ..s };
            let calls = left(begin, steps, k);
            let none = Seq::<bool>::empty();
            assert(advanced(s) == advanced(u));
            assert(calls.take(calls.len() as int) =~= calls);
            assert(cause(steps, k, error));
            assert(unwinding(begin, d, steps, done, hits, none, u, x));
            let result = event->Settled_0;
            lemma_unwinds(begin, d, steps, done, hits, none, u, x, result);
            assert(unwinding(begin, d, steps, done, hits, none.push(result is Ok), t, y));
        },
        _ => {},
    }
}

/// At every point of a task the bucket is that of a run of its first steps, or, once it failed, of
/// such a run and of some of the calls that those steps left behind, the newest first.
pub proof fn task_makes_a_run(begin: RunnerView, d: Disk, events: Seq<Event>)
    requires
        begin.failure is None,
        played(begin, d, events) is Some,
    ensures
        ({
            let (s, x) = played(begin, d, events)->0;
            is_under_way(begin, d, script(begin.steps, events), s, x)
        }),
    decreases events.len(),
{
    let steps = begin.steps;
    if events.len() == 0 {
        let none = Seq::<bool>::empty();
        assert(steps.skip(0) =~= steps);
        assert(steps.take(0) =~= Seq::empty());
        assert(on_course(begin, d, steps, none, none, begin, d));
    } else {
        let front = events.drop_last();
        task_makes_a_run(begin, d, front);
        let (s, x) = played(begin, d, front)->0;
        let last = seq![events.last()];
        assert(last.drop_last() =~= Seq::empty());
        assert(played(s, x, last.drop_last()) == Some((s, x)));
        assert(played(s, x, last) == played(begin, d, events));
        assert(script(script(steps, front), last.drop_last()) == script(steps, front));
        assert(script(script(steps, front), last) == script(steps, events));
        lemma_event(begin, d, script(steps, front), s, x, events.last());
    }
}

/// Undoing that succeeds throughout is the undoing of all that was left behind.
proof fn lemma_unwound(d: Disk, calls: Seq<CallView>, undid: Seq<bool>)
    requires
        undid.len() <= calls.len(),
        forall|i: int| 0 <= i < undid.len() ==> undid[i],
    ensures
        undone(unwound(d, calls, undid), calls.take(calls.len() - undid.len())) == undone(d, calls),
    decreases undid.len(),
{
    if undid.len() == 0 {
        assert(calls.take(calls.len() as int) =~= calls);
    } else {
        let front = undid.drop_last();
        assert forall|i: int| 0 <= i < front.len() implies front[i] by {
            assert(undid[i]);
        }
        lemma_unwound(d, calls, front);
        let before = calls.take(calls.len() - front.len());
        assert(before.last() == calls[calls.len() - undid.len()]);
        assert(before.drop_last() =~= calls.take(calls.len() - undid.len()));
        assert(undid[undid.len() - 1]);
    }
}

/// A task that succeeds has run the steps before the one that says so.
pub open spec fn finishes(
    begin: RunnerView,
    d: Disk,
    steps: Seq<StepView>,
    done: Seq<bool>,
    hits: Seq<bool>,
    outcome: OutcomeView,
    tallies: Tallies,
    x: Disk,
) -> bool {
    let k = done.len() as int;
    &&& ran(begin, d, steps, done, hits, tallies, x)
    &&& if k < steps.len() {
        steps[k] == (StepView::Finish { outcome })
    } else {
        outcome is Nothing
    }
}

/// A task that fails has run its first steps and made all the calls that they left behind, the
/// newest first. Where these succeed, what they undo is undone.
pub open spec fn fails(
    begin: RunnerView,
    d: Disk,
    steps: Seq<StepView>,
    done: Seq<bool>,
    hits: Seq<bool>,
    undid: Seq<bool>,
    e: StorageError,
    tallies: Tallies,
    x: Disk,
) -> bool {
    let k = done.len() as int;
    let y = run(d, steps.take(k), done);
    let calls = left(begin, steps, k);
    &&& ran(begin, d, steps, done, hits, tallies, y)
    &&& cause(steps, k, e)
    &&& undid.len() == calls.len()
    &&& x == unwound(y, calls, undid)
    &&& (forall|i: int| 0 <= i < undid.len() ==> undid[i]) ==> x == undone(y, calls)
}

/// How a task ends is how its steps end. The calls that it makes, with their results, are a run of
/// its steps up to the one that ends it, and where it fails the calls that those steps left behind
/// follow.
pub proof fn task_ends_as_its_steps_say(
    plan: Seq<StepView>,
    d: Disk,
    events: Seq<Event>,
    result: Result<OutcomeView, StorageError>,
    tallies: Tallies,
)
    requires
        played(started(plan), d, events) matches Some(p) && advanced(p.0).1 == NextView::Done(
            result,
            tallies,
        ),
    ensures
        ({
            let x = (played(started(plan), d, events)->0).1;
            let begin = started(plan);
            let steps = script(plan, events);
            match result {
                Ok(outcome) => exists|done: Seq<bool>, hits: Seq<bool>| #[trigger]
                    finishes(begin, d, steps, done, hits, outcome, tallies, x),
                Err(e) => exists|done: Seq<bool>, hits: Seq<bool>, undid: Seq<bool>| #[trigger]
                    fails(begin, d, steps, done, hits, undid, e, tallies, x),
            }
        }),
{
    let begin = started(plan);
    let steps = script(plan, events);
    task_makes_a_run(begin, d, events);
    let (s, x) = played(begin, d, events)->0;
    match s.failure {
        Some(e) => {
            let (done, hits, undid) = choose|done: Seq<bool>, hits: Seq<bool>, undid: Seq<bool>|
                #[trigger] unwinding(begin, d, steps, done, hits, undid, s, x);
            lemma_fails(begin, d, steps, done, hits, undid, s, x);
            assert(fails(begin, d, steps, done, hits, undid, e, tallies, x));
        },
        None => {
            let (done, hits) = choose|done: Seq<bool>, hits: Seq<bool>| #[trigger]
                on_course(begin, d, steps, done, hits, s, x);
            let (due, done, hits) = lemma_due(begin, d, steps, done, hits, s, x);
            let k = done.len() as int;
            if due.steps.len() > 0 {
                assert(due.steps[0] == steps[k]);
                if let StepView::Fail { error } = due.steps[0] {
                    let u = RunnerView { steps: due.steps.skip(1), failure: Some(error), ..due };
                    let none = Seq::<bool>::empty();
                    let calls = left(begin, steps, k);
                    assert(advanced(due) == advanced(u));
                    assert(calls.take(calls.len() as int) =~= calls);
                    assert(cause(steps, k, error));
                    assert(unwinding(begin, d, steps, done, hits, none, u, x));
                    lemma_fails(begin, d, steps, done, hits, none, u, x);
                    assert(fails(begin, d, steps, done, hits, none, error, tallies, x));
                } else {
                    assert(finishes(begin, d, steps, done, hits, result->Ok_0, tallies, x));
                }
            } else {
                assert(finishes(begin, d, steps, done, hits, result->Ok_0, tallies, x));
            }
        },
    }
}

proof fn lemma_fails(
    begin: RunnerView,
    d: Disk,
    steps: Seq<StepView>,
    done: Seq<bool>,
    hits: Seq<bool>,
    undid: Seq<bool>,
    s: RunnerView,
    x: Disk,
)
    requires
        unwinding(begin, d, steps, done, hits, undid, s, x),
        advanced(s).1 is Done,
    ensures
        fails(begin, d, steps, done, hits, undid, s.failure->0, s.tallies, x),
{
    let calls = left(begin, steps, done.len() as int);
    let y = run(d, steps.take(done.len() as int), done);
    assert(s.undo.len() == 0);
    if forall|i: int| 0 <= i < undid.len() ==> undid[i] {
        lemma_unwound(y, calls, undid);
        assert(calls.take(0) =~= Seq::empty());
    }
}

} // verus!
