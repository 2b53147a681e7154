//! Plans and their execution.
//!
//! A plan is a list of steps. The runner hands out one call or question at a time and is told how
//! it went. A step may leave a call behind that undoes it; when a later step fails, the calls that
//! were left behind are made, the newest first, before the failure is reported.

use std::collections::VecDeque;
use vstd::prelude::*;
use crate::plan::call::{
    report_error, reported, Call, CallView, Outcome, OutcomeView, Question, QuestionView, Report,
};
use crate::types::{IoError, IoErrorKind, StorageError};

verus! {

/// The things that a task counts.
#[derive(Clone, Copy, PartialEq, Eq, Structural, Debug)]
pub enum Counter {
    Staged,
    Journals,
    Blobs,
    Uploads,
}

/// How many of each were removed.
#[derive(Clone, Copy, PartialEq, Eq, Structural, Debug)]
pub struct Tallies {
    pub staged: usize,
    pub journals: usize,
    pub blobs: usize,
    pub uploads: usize,
}

/// What the failure of a call leads to.
#[derive(Clone, Copy, PartialEq, Eq, Structural, Debug)]
pub enum OnError {
    /// The task fails.
    Fail(Report),
    /// The task goes on.
    Ignore,
    /// The task goes on, and remembers that something was left undone.
    Taint,
}

/// How the result of a call is taken.
#[derive(Clone, Copy, PartialEq, Eq, Structural, Debug)]
pub struct Rule {
    /// What is counted when the call succeeds.
    pub count: Option<Counter>,
    /// Whether it does not matter that the thing is not there.
    pub missing_ok: bool,
    pub on_error: OnError,
    /// Whether the call is left out once something was left undone.
    pub if_clean: bool,
}

/// The call has to succeed.
pub open spec fn must(report: Report) -> Rule {
    Rule { count: None, missing_ok: false, on_error: OnError::Fail(report), if_clean: false }
}

/// The call may fail.
pub open spec fn may() -> Rule {
    Rule { count: None, missing_ok: false, on_error: OnError::Ignore, if_clean: false }
}

pub fn rule_must(report: Report) -> (r: Rule)
    ensures
        r == must(report),
{
    Rule { count: None, missing_ok: false, on_error: OnError::Fail(report), if_clean: false }
}

pub fn rule_may() -> (r: Rule)
    ensures
        r == may(),
{
    Rule { count: None, missing_ok: false, on_error: OnError::Ignore, if_clean: false }
}

/// One step of a plan.
#[derive(Debug)]
pub enum Step {
    /// Make a call.
    Do { call: Call, rule: Rule },
    /// Ask a question. What follows depends on the answer.
    Ask { question: Question },
    /// Leave a call behind for the case that the task fails.
    Defer { call: Call },
    /// Forget the call that was left behind last.
    Disarm,
    /// Forget all calls that were left behind: the commit took place.
    Seal,
    /// Forget that something was left undone.
    Reset,
    /// The task succeeds.
    Finish { outcome: Outcome },
    /// The task fails.
    Fail { error: StorageError },
}

#[verifier::ext_equal]
pub enum StepView {
    Do { call: CallView, rule: Rule },
    Ask { question: QuestionView },
    Defer { call: CallView },
    Disarm,
    Seal,
    Reset,
    Finish { outcome: OutcomeView },
    Fail { error: StorageError },
}

impl View for Step {
    type V = StepView;

    open spec fn view(&self) -> StepView {
        match self {
            Step::Do { call, rule } => StepView::Do { call: call@, rule: *rule },
            Step::Ask { question } => StepView::Ask { question: question@ },
            Step::Defer { call } => StepView::Defer { call: call@ },
            Step::Disarm => StepView::Disarm,
            Step::Seal => StepView::Seal,
            Step::Reset => StepView::Reset,
            Step::Finish { outcome } => StepView::Finish { outcome: outcome@ },
            Step::Fail { error } => StepView::Fail { error: *error },
        }
    }
}

/// The views of a list of steps.
pub open spec fn step_views(v: Seq<Step>) -> Seq<StepView> {
    Seq::new(v.len(), |i: int| v[i]@)
}

/// The views of a list of calls.
pub open spec fn call_views(v: Seq<Call>) -> Seq<CallView> {
    Seq::new(v.len(), |i: int| v[i]@)
}

/// A list of steps.
#[derive(Debug)]
pub struct Plan {
    steps: VecDeque<Step>,
}

impl View for Plan {
    type V = Seq<StepView>;

    closed spec fn view(&self) -> Seq<StepView> {
        step_views(self.steps@)
    }
}

impl Plan {
    /// The plan without steps.
    pub fn new() -> (r: Plan)
        ensures
            r@ == Seq::<StepView>::empty(),
    {
        let r = Plan { steps: VecDeque::new() };
        assert(r@ =~= Seq::<StepView>::empty());
        r
    }

    /// Adds a step.
    pub fn push(&mut self, step: Step)
        ensures
            final(self)@ == old(self)@.push(step@),
    {
        self.steps.push_back(step);
        assert(self@ =~= old(self)@.push(step@));
    }

    /// Adds a call that has to succeed.
    pub fn must(&mut self, call: Call, report: Report)
        ensures
            final(self)@ == old(self)@.push(StepView::Do { call: call@, rule: must(report) }),
    {
        self.push(Step::Do { call, rule: rule_must(report) });
    }

    /// Adds a call that may fail.
    pub fn may(&mut self, call: Call)
        ensures
            final(self)@ == old(self)@.push(StepView::Do { call: call@, rule: may() }),
    {
        self.push(Step::Do { call, rule: rule_may() });
    }

    /// Adds a question.
    pub fn ask(&mut self, question: Question)
        ensures
            final(self)@ == old(self)@.push(StepView::Ask { question: question@ }),
    {
        self.push(Step::Ask { question });
    }

    /// Adds a call that is left behind.
    pub fn defer(&mut self, call: Call)
        ensures
            final(self)@ == old(self)@.push(StepView::Defer { call: call@ }),
    {
        self.push(Step::Defer { call });
    }

    /// Adds the end of a task that succeeds.
    pub fn finish(&mut self, outcome: Outcome)
        ensures
            final(self)@ == old(self)@.push(StepView::Finish { outcome: outcome@ }),
    {
        self.push(Step::Finish { outcome });
    }

    /// Adds all steps of another plan.
    pub fn append(&mut self, mut other: Plan)
        ensures
            final(self)@ == old(self)@ + other@,
    {
        let ghost more = other.steps@;
        self.steps.append(&mut other.steps);
        assert(self@ =~= old(self)@ + step_views(more));
    }
}

/// What the runner waits for.
#[derive(Clone, Copy, PartialEq, Eq, Structural, Debug)]
pub enum Waiting {
    Nothing,
    /// The result of a call, which is taken by this rule.
    Result(Rule),
    /// The answer to a question.
    Answer,
    /// The task is over.
    Over,
}

/// What comes next.
#[derive(Debug)]
pub enum Next {
    Do(Call),
    Ask(Question),
    /// The task is over: how it ended, and what was counted.
    Done(Result<Outcome, StorageError>, Tallies),
}

#[verifier::ext_equal]
pub enum NextView {
    Do(CallView),
    Ask(QuestionView),
    Done(Result<OutcomeView, StorageError>, Tallies),
}

impl View for Next {
    type V = NextView;

    open spec fn view(&self) -> NextView {
        match self {
            Next::Do(call) => NextView::Do(call@),
            Next::Ask(question) => NextView::Ask(question@),
            Next::Done(result, tallies) => NextView::Done(
                match result {
                    Ok(outcome) => Ok(outcome@),
                    Err(e) => Err(*e),
                },
                *tallies,
            ),
        }
    }
}

/// The execution of a plan.
#[derive(Debug)]
pub struct Runner {
    steps: VecDeque<Step>,
    undo: Vec<Call>,
    tainted: bool,
    failure: Option<StorageError>,
    waiting: Waiting,
    tallies: Tallies,
}

#[verifier::ext_equal]
pub struct RunnerView {
    /// The steps that are still to be taken.
    pub steps: Seq<StepView>,
    /// The calls that were left behind, the newest last.
    pub undo: Seq<CallView>,
    pub tainted: bool,
    /// The error with which the task ends once all is undone.
    pub failure: Option<StorageError>,
    pub waiting: Waiting,
    pub tallies: Tallies,
}

impl View for Runner {
    type V = RunnerView;

    closed spec fn view(&self) -> RunnerView {
        RunnerView {
            steps: step_views(self.steps@),
            undo: call_views(self.undo@),
            tainted: self.tainted,
            failure: self.failure,
            waiting: self.waiting,
            tallies: self.tallies,
        }
    }
}

pub open spec fn no_tallies() -> Tallies {
    Tallies { staged: 0, journals: 0, blobs: 0, uploads: 0 }
}

pub open spec fn one_more(n: usize) -> usize {
    if n < usize::MAX {
        (n + 1) as usize
    } else {
        n
    }
}

/// The tallies after one more was counted.
pub open spec fn counted(t: Tallies, count: Option<Counter>) -> Tallies {
    match count {
        None => t,
        Some(Counter::Staged) => Tallies { staged: one_more(t.staged), ..t },
        Some(Counter::Journals) => Tallies { journals: one_more(t.journals), ..t },
        Some(Counter::Blobs) => Tallies { blobs: one_more(t.blobs), ..t },
        Some(Counter::Uploads) => Tallies { uploads: one_more(t.uploads), ..t },
    }
}

/// A runner at the beginning of a plan.
pub open spec fn started(plan: Seq<StepView>) -> RunnerView {
    RunnerView {
        steps: plan,
        undo: Seq::empty(),
        tainted: false,
        failure: None,
        waiting: Waiting::Nothing,
        tallies: no_tallies(),
    }
}

/// What a runner hands out next, and the state it is then in.
pub open spec fn advanced(r: RunnerView) -> (RunnerView, NextView)
    decreases r.steps.len(),
{
    match r.failure {
        Some(e) => if r.undo.len() > 0 {
            (
                RunnerView { undo: r.undo.drop_last(), waiting: Waiting::Result(may()), ..r },
                NextView::Do(r.undo.last()),
            )
        } else {
            (RunnerView { waiting: Waiting::Over, ..r }, NextView::Done(Err(e), r.tallies))
        },
        None => if r.steps.len() == 0 {
            (
                RunnerView { waiting: Waiting::Over, ..r },
                NextView::Done(Ok(OutcomeView::Nothing), r.tallies),
            )
        } else {
            let rest = RunnerView { steps: r.steps.skip(1), ..r };
            match r.steps[0] {
                StepView::Do { call, rule } => if rule.if_clean && r.tainted {
                    advanced(rest)
                } else {
                    (RunnerView { waiting: Waiting::Result(rule), ..rest }, NextView::Do(call))
                },
                StepView::Ask { question } => (
                    RunnerView { waiting: Waiting::Answer, ..rest },
                    NextView::Ask(question),
                ),
                StepView::Defer { call } => advanced(
                    RunnerView { undo: r.undo.push(call), ..rest },
                ),
                StepView::Disarm => advanced(
                    RunnerView {
                        undo: if r.undo.len() > 0 { r.undo.drop_last() } else { r.undo },
                        ..rest
                    },
                ),
                StepView::Seal => advanced(RunnerView { undo: Seq::empty(), ..rest }),
                StepView::Reset => advanced(RunnerView { tainted: false, ..rest }),
                StepView::Finish { outcome } => (
                    RunnerView { waiting: Waiting::Over, ..rest },
                    NextView::Done(Ok(outcome), r.tallies),
                ),
                StepView::Fail { error } => advanced(
                    RunnerView { failure: Some(error), ..rest },
                ),
            }
        },
    }
}

/// The state after the call that was handed out has ended.
pub open spec fn settled(r: RunnerView, result: Result<(), IoError>) -> RunnerView {
    match r.waiting {
        Waiting::Result(rule) => match result {
            Ok(_) => RunnerView { tallies: counted(r.tallies, rule.count), ..r },
            Err(e) => if rule.missing_ok && e.kind == IoErrorKind::NotFound {
                r
            } else {
                match rule.on_error {
                    OnError::Fail(report) => RunnerView { failure: Some(reported(report, e)), ..r },
                    OnError::Ignore => r,
                    OnError::Taint => RunnerView { tainted: true, ..r },
                }
            },
        },
        _ => r,
    }
}

fn add_one(n: usize) -> (r: usize)
    ensures
        r == one_more(n),
{
    if n < usize::MAX {
        n + 1
    } else {
        n
    }
}

/// The tallies after one more was counted.
fn count_one(t: Tallies, count: Option<Counter>) -> (r: Tallies)
    ensures
        r == counted(t, count),
{
    match count {
        None => t,
        Some(Counter::Staged) => Tallies { staged: add_one(t.staged), ..t },
        Some(Counter::Journals) => Tallies { journals: add_one(t.journals), ..t },
        Some(Counter::Blobs) => Tallies { blobs: add_one(t.blobs), ..t },
        Some(Counter::Uploads) => Tallies { uploads: add_one(t.uploads), ..t },
    }
}

impl Runner {
    /// Begins a plan.
    pub fn new(plan: Plan) -> (r: Runner)
        ensures
            r@ == started(plan@),
    {
        let r = Runner {
            steps: plan.steps,
            undo: Vec::new(),
            tainted: false,
            failure: None,
            waiting: Waiting::Nothing,
            tallies: Tallies { staged: 0, journals: 0, blobs: 0, uploads: 0 },
        };
        assert(r@.undo =~= Seq::empty());
        r
    }

    /// What the runner waits for.
    pub fn waiting(&self) -> (r: Waiting)
        ensures
            r == self@.waiting,
    {
        self.waiting
    }

    /// What was counted so far.
    pub fn tallies(&self) -> (r: Tallies)
        ensures
            r == self@.tallies,
    {
        self.tallies
    }

    /// Goes on with these steps after those that are left.
    pub fn extend(&mut self, mut plan: Plan)
        ensures
            final(self)@ == (RunnerView { steps: old(self)@.steps + plan@, ..old(self)@ }),
    {
        let ghost more = plan.steps@;
        self.steps.append(&mut plan.steps);
        assert(self@.steps =~= old(self)@.steps + step_views(more));
    }

    /// Ends the task with an error, after all is undone.
    pub fn fail(&mut self, error: StorageError)
        ensures
            final(self)@ == (RunnerView { failure: Some(error), ..old(self)@ }),
    {
        self.failure = Some(error);
    }

    /// Takes in how the call that was handed out has ended.
    pub fn settle(&mut self, result: Result<(), IoError>)
        ensures
            final(self)@ == settled(old(self)@, result),
    {
        if let Waiting::Result(rule) = self.waiting {
            match result {
                Ok(_) => {
                    self.tallies = count_one(self.tallies, rule.count);
                },
                Err(e) => {
                    if !(rule.missing_ok && e.kind == IoErrorKind::NotFound) {
                        match rule.on_error {
                            OnError::Fail(report) => {
                                self.failure = Some(report_error(report, e));
                            },
                            OnError::Ignore => {},
                            OnError::Taint => {
                                self.tainted = true;
                            },
                        }
                    }
                },
            }
        }
    }

    /// Hands out the next call or question, or the end of the task.
    pub fn advance(&mut self) -> (r: Next)
        ensures
            (final(self)@, r@) == advanced(old(self)@),
    {
        loop
            invariant
                advanced(self@) == advanced(old(self)@),
            decreases self@.steps.len(), if self@.failure is Some { 0int } else { 1int },
        {
            if let Some(e) = self.failure {
                match self.undo.pop() {
                    Some(call) => {
                        self.waiting = Waiting::Result(rule_may());
                        proof {
                            assert(self@ =~= advanced(old(self)@).0);
                        }
                        return Next::Do(call);
                    },
                    None => {
                        self.waiting = Waiting::Over;
                        return Next::Done(Err(e), self.tallies);
                    },
                }
            }
            let ghost before = self@;
            match self.steps.pop_front() {
                None => {
                    self.waiting = Waiting::Over;
                    return Next::Done(Ok(Outcome::Nothing), self.tallies);
                },
                Some(step) => {
                    proof {
                        assert(self@.steps =~= before.steps.skip(1));
                        assert(step@ == before.steps[0]);
                    }
                    match step {
                        Step::Do { call, rule } => {
                            if !(rule.if_clean && self.tainted) {
                                self.waiting = Waiting::Result(rule);
                                return Next::Do(call);
                            }
                        },
                        Step::Ask { question } => {
                            self.waiting = Waiting::Answer;
                            return Next::Ask(question);
                        },
                        Step::Defer { call } => {
                            self.undo.push(call);
                            assert(self@.undo =~= before.undo.push(call@));
                        },
                        Step::Disarm => {
                            let _ = self.undo.pop();
                            assert(self@.undo =~= if before.undo.len() > 0 {
                                before.undo.drop_last()
                            } else {
                                before.undo
                            });
                        },
                        Step::Seal => {
                            self.undo.clear();
                            assert(self@.undo =~= Seq::empty());
                        },
                        Step::Reset => {
                            self.tainted = false;
                        },
                        Step::Finish { outcome } => {
                            self.waiting = Waiting::Over;
                            return Next::Done(Ok(outcome), self.tallies);
                        },
                        Step::Fail { error } => {
                            self.failure = Some(error);
                        },
                    }
                },
            }
        }
    }
}

/// A task that fails makes the calls that were left behind, the newest first and each of them once,
/// however they go, and then reports the error that it failed with.
pub proof fn failure_is_reported_after_undoing(r: RunnerView, e: StorageError)
    requires
        r.failure == Some(e),
    ensures
        r.undo.len() == 0 ==> advanced(r).1 == NextView::Done(Err(e), r.tallies),
        r.undo.len() > 0 ==> advanced(r).1 == NextView::Do(r.undo.last()),
        r.undo.len() > 0 ==> forall|result: Result<(), IoError>|
            {
                let next = #[trigger] settled(advanced(r).0, result);
                &&& next.failure == Some(e)
                &&& next.undo == r.undo.drop_last()
            },
{
}

/// A call that may fail never ends a task.
pub proof fn tolerated_failure_goes_on(r: RunnerView, e: IoError)
    requires
        r.waiting matches Waiting::Result(rule) && !(rule.on_error is Fail),
    ensures
        settled(r, Err(e)).failure == r.failure,
        settled(r, Err(e)).steps == r.steps,
        settled(r, Err(e)).undo == r.undo,
{
}

} // verus!
