//! What a runner makes of a plan of the plain layout where no call fails.

use vstd::prelude::*;
use crate::cas::execution::{script, Event};
use crate::filesystem::model::{after_steps, plain_effect, PlainDisk};
use crate::plan::call::OutcomeView;
use crate::plan::runner::{advanced, settled, started, NextView, RunnerView, StepView, Tallies};
use crate::types::StorageError;

verus! {

/// The runner and the files after the events, each of which answers what the runner hands out at
/// that point; none, where one of them does not. A call may fail only where that does not matter and
/// it would have changed nothing.
pub open spec fn plain_played(
    r: RunnerView,
    disk: PlainDisk,
    root: Seq<char>,
    bucket: Seq<char>,
    events: Seq<Event>,
) -> Option<(RunnerView, PlainDisk)>
    decreases events.len(),
{
    if events.len() == 0 {
        Some((r, disk))
    } else {
        match plain_played(r, disk, root, bucket, events.drop_last()) {
            None => None,
            Some((s, x)) => {
                let (t, next) = advanced(s);
                match (next, events.last()) {
                    (NextView::Do(call), Event::Settled(result)) => {
                        let y = plain_effect(x, root, bucket, call);
                        if result is Ok {
                            Some((settled(t, result), y))
                        } else if y == x && settled(t, result) == t {
                            Some((t, x))
                        } else {
                            None
                        }
                    },
                    (NextView::Ask(_), Event::Extended(plan)) => Some(
                        (RunnerView { steps: t.steps + plan, ..t }, x),
                    ),
                    _ => None,
                }
            },
        }
    }
}

/// A runner that has taken the first `k` steps and goes on with the others.
pub open spec fn plain_course(
    disk: PlainDisk,
    root: Seq<char>,
    bucket: Seq<char>,
    steps: Seq<StepView>,
    k: int,
    s: RunnerView,
    x: PlainDisk,
) -> bool {
    &&& 0 <= k <= steps.len()
    &&& s.failure is None
    &&& !s.tainted
    &&& s.steps == steps.skip(k)
    &&& x == after_steps(disk, root, bucket, steps.take(k))
}

/// The state of a task after some events: on its course, or failed.
pub open spec fn plain_under_way(
    disk: PlainDisk,
    root: Seq<char>,
    bucket: Seq<char>,
    steps: Seq<StepView>,
    s: RunnerView,
    x: PlainDisk,
) -> bool {
    s.failure is None ==> exists|k: int| #[trigger]
        plain_course(disk, root, bucket, steps, k, s, x)
}

proof fn lemma_step_taken(
    disk: PlainDisk,
    root: Seq<char>,
    bucket: Seq<char>,
    steps: Seq<StepView>,
    k: int,
)
    requires
        0 <= k < steps.len(),
    ensures
        after_steps(disk, root, bucket, steps.take(k + 1)) == ({
            let x = after_steps(disk, root, bucket, steps.take(k));
            match steps[k] {
                StepView::Do { call, .. } => plain_effect(x, root, bucket, call),
                _ => x,
            }
        }),
{
    let front = steps.take(k + 1);
    assert(front.drop_last() =~= steps.take(k));
    assert(front.last() == steps[k]);
}

/// A runner takes the steps that it hands nothing out for by itself.
proof fn lemma_next_step(
    disk: PlainDisk,
    root: Seq<char>,
    bucket: Seq<char>,
    steps: Seq<StepView>,
    k: int,
    s: RunnerView,
    x: PlainDisk,
) -> (w: (RunnerView, int))
    requires
        plain_course(disk, root, bucket, steps, k, s, x),
    ensures
        plain_course(disk, root, bucket, steps, w.1, w.0, x),
        advanced(w.0) == advanced(s),
        w.0.steps.len() > 0 ==> (w.0.steps[0] is Do || w.0.steps[0] is Ask || w.0.steps[0] is Finish
            || w.0.steps[0] is Fail),
    decreases s.steps.len(),
{
    if s.steps.len() == 0 || s.steps[0] is Do || s.steps[0] is Ask || s.steps[0] is Finish
        || s.steps[0] is Fail {
        (s, k)
    } else {
        let step = s.steps[0];
        assert(step == steps[k]);
        let rest = RunnerView { steps: s.steps.skip(1), ..s };
        let t = match step {
            StepView::Defer { call } => RunnerView { undo: s.undo.push(call), ..rest },
            StepView::Disarm => RunnerView {
                undo: if s.undo.len() > 0 {
                    s.undo.drop_last()
                } else {
                    s.undo
                },
                ..rest
            },
            StepView::Seal => RunnerView { undo: Seq::empty(), ..rest },
            StepView::Reset => RunnerView { tainted: false, ..rest },
            _ => rest,
        };
        assert(advanced(s) == advanced(t));
        lemma_step_taken(disk, root, bucket, steps, k);
        assert(t.steps =~= steps.skip(k + 1));
        lemma_next_step(disk, root, bucket, steps, k + 1, t, x)
    }
}

/// One event keeps a task on its course, or it fails.
proof fn lemma_plain_event(
    disk: PlainDisk,
    root: Seq<char>,
    bucket: Seq<char>,
    steps: Seq<StepView>,
    s: RunnerView,
    x: PlainDisk,
    event: Event,
)
    requires
        plain_under_way(disk, root, bucket, steps, s, x),
        plain_played(s, x, root, bucket, seq![event]) is Some,
    ensures
        ({
            let (t, y) = plain_played(s, x, root, bucket, seq![event])->0;
            plain_under_way(disk, root, bucket, script(steps, seq![event]), t, y)
        }),
{
    let events = seq![event];
    assert(events.drop_last() =~= Seq::empty());
    assert(plain_played(s, x, root, bucket, events.drop_last()) == Some((s, x)));
    assert(script(steps, events.drop_last()) == steps);
    let (t, y) = plain_played(s, x, root, bucket, events)->0;
    if s.failure is None {
        let k = choose|k: int| #[trigger] plain_course(disk, root, bucket, steps, k, s, x);
        let (due, k) = lemma_next_step(disk, root, bucket, steps, k, s, x);
        assert(due.steps.len() > 0);
        let step = steps[k];
        assert(due.steps[0] == step);
        let rest = due.steps.skip(1);
        assert(rest =~= steps.skip(k + 1));
        lemma_step_taken(disk, root, bucket, steps, k);
        match step {
            StepView::Do { .. } => {
                if t.failure is None {
                    assert(plain_course(disk, root, bucket, steps, k + 1, t, y));
                }
            },
            StepView::Ask { .. } => {
                let more = event->Extended_0;
                let all = steps + more;
                assert(all.take(k + 1) =~= steps.take(k + 1));
                assert(t.steps =~= all.skip(k + 1));
                assert(plain_course(disk, root, bucket, all, k + 1, t, y));
            },
            StepView::Fail { error } => {
                let u = RunnerView { steps: rest, failure: Some(error), ..due };
                assert(advanced(due) == advanced(u));
            },
            _ => {},
        }
    }
}

proof fn lemma_plain_task(
    begin: RunnerView,
    disk: PlainDisk,
    root: Seq<char>,
    bucket: Seq<char>,
    events: Seq<Event>,
)
    requires
        begin.failure is None,
        !begin.tainted,
        plain_played(begin, disk, root, bucket, events) is Some,
    ensures
        ({
            let (s, x) = plain_played(begin, disk, root, bucket, events)->0;
            plain_under_way(disk, root, bucket, script(begin.steps, events), s, x)
        }),
    decreases events.len(),
{
    let steps = begin.steps;
    if events.len() == 0 {
        assert(steps.skip(0) =~= steps);
        assert(steps.take(0) =~= Seq::empty());
        assert(plain_course(disk, root, bucket, steps, 0, begin, disk));
    } else {
        let front = events.drop_last();
        lemma_plain_task(begin, disk, root, bucket, front);
        let (s, x) = plain_played(begin, disk, root, bucket, front)->0;
        let last = seq![events.last()];
        assert(last.drop_last() =~= Seq::empty());
        assert(plain_played(s, x, root, bucket, last.drop_last()) == Some((s, x)));
        assert(plain_played(s, x, root, bucket, last) == plain_played(
            begin,
            disk,
            root,
            bucket,
            events,
        ));
        assert(script(script(steps, front), last.drop_last()) == script(steps, front));
        assert(script(script(steps, front), last) == script(steps, events));
        lemma_plain_event(disk, root, bucket, script(steps, front), s, x, events.last());
    }
}

/// A task that succeeds without a failure that matters leaves the files that its steps make, up to
/// the one that says how it ends.
pub proof fn plain_task_makes_its_steps(
    plan: Seq<StepView>,
    disk: PlainDisk,
    root: Seq<char>,
    bucket: Seq<char>,
    events: Seq<Event>,
    outcome: OutcomeView,
    tallies: Tallies,
)
    requires
        plain_played(started(plan), disk, root, bucket, events) matches Some(p) && advanced(p.0).1
            == NextView::Done(Ok::<OutcomeView, StorageError>(outcome), tallies),
    ensures
        ({
            let x = (plain_played(started(plan), disk, root, bucket, events)->0).1;
            let steps = script(plan, events);
            exists|k: int|
                0 <= k <= steps.len() && x == #[trigger] after_steps(
                    disk,
                    root,
                    bucket,
                    steps.take(k),
                ) && if k < steps.len() {
                    steps[k] == (StepView::Finish { outcome })
                } else {
                    outcome is Nothing
                }
        }),
{
    let steps = script(plan, events);
    lemma_plain_task(started(plan), disk, root, bucket, events);
    let (s, x) = plain_played(started(plan), disk, root, bucket, events)->0;
    assert(s.failure is None);
    let k = choose|k: int| #[trigger] plain_course(disk, root, bucket, steps, k, s, x);
    let (due, k) = lemma_next_step(disk, root, bucket, steps, k, s, x);
    if due.steps.len() > 0 {
        assert(due.steps[0] == steps[k]);
        if let StepView::Fail { error } = steps[k] {
            let u = RunnerView { steps: due.steps.skip(1), failure: Some(error), ..due };
            assert(advanced(due) == advanced(u));
        }
    }
    assert(x == after_steps(disk, root, bucket, steps.take(k)));
}

} // verus!
