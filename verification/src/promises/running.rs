//! How plans are carried out, and how failures are reported.

use vstd::prelude::*;
use crate::cas::store::body_or_io;
use crate::directio::{DioFile, DioOpening, IoTurn, OpenTurn};
use crate::plan::call::{report_error, CallView, OutcomeView, Report};
use crate::plan::runner::{
    advanced, rule_may, rule_must, settled, started, Counter, NextView, OnError, Rule, RunnerView,
    StepView, Tallies, Waiting,
};
use crate::types::{IoError, IoErrorKind, StorageError};

verus! {

/// A failed call is reported as what it is, unless the step says otherwise. A bucket is missing
/// where nothing is there or no directory is.
pub proof fn failures_are_reported_as_they_are(report: Report, e: IoError, r: StorageError)
    requires
        call_ensures(report_error, (report, e), r),
    ensures
        report is Io ==> r == StorageError::Io(e),
        report is NotDurable ==> r == StorageError::CommitNotDurable(e),
        report matches Report::Given(given) ==> r == given,
        report is NoBucket && (e.kind == IoErrorKind::NotFound || e.kind
            == IoErrorKind::NotADirectory) ==> r == StorageError::BucketNotFound,
        report is NoBucket && e.kind != IoErrorKind::NotFound && e.kind
            != IoErrorKind::NotADirectory ==> r == StorageError::Io(e),
{
}

/// A body that breaks off is the client's fault; any other failure is reported as it is.
pub proof fn broken_framing_is_an_incomplete_body(e: IoError, r: StorageError)
    requires
        call_ensures(body_or_io, (e,), r),
    ensures
        e.kind == IoErrorKind::InvalidData ==> r == StorageError::IncompleteBody,
        e.kind != IoErrorKind::InvalidData ==> r == StorageError::Io(e),
{
}

/// The rules of the two common kinds of calls: one that has to succeed, and one that may fail.
pub proof fn common_rules_say_what_they_say(report: Report, a: Rule, b: Rule)
    requires
        call_ensures(rule_must, (report,), a),
        call_ensures(rule_may, (), b),
    ensures
        a.on_error == OnError::Fail(report) && !a.missing_ok && !a.if_clean && a.count is None,
        b.on_error == OnError::Ignore && !b.missing_ok && !b.if_clean && b.count is None,
{
}

/// A call that succeeds is counted once, in the tally of its rule and in no other, and changes
/// nothing else.
pub proof fn successful_call_is_counted_once(r: RunnerView, rule: Rule)
    requires
        r.waiting == Waiting::Result(rule),
    ensures
        ({
            let x = settled(r, Ok(()));
            &&& x.steps == r.steps
            &&& x.undo == r.undo
            &&& x.failure == r.failure
            &&& x.tainted == r.tainted
            &&& rule.count is None ==> x.tallies == r.tallies
            &&& rule.count == Some(Counter::Staged) && r.tallies.staged < usize::MAX ==> x.tallies == (
            Tallies { staged: (r.tallies.staged + 1) as usize, ..r.tallies })
            &&& rule.count == Some(Counter::Journals) && r.tallies.journals < usize::MAX
                ==> x.tallies == (Tallies {
                journals: (r.tallies.journals + 1) as usize,
                ..r.tallies
            })
            &&& rule.count == Some(Counter::Blobs) && r.tallies.blobs < usize::MAX ==> x.tallies == (
            Tallies { blobs: (r.tallies.blobs + 1) as usize, ..r.tallies })
            &&& rule.count == Some(Counter::Uploads) && r.tallies.uploads < usize::MAX ==> x.tallies
                == (Tallies { uploads: (r.tallies.uploads + 1) as usize, ..r.tallies })
            &&& r.tallies.staged <= x.tallies.staged
            &&& r.tallies.journals <= x.tallies.journals
            &&& r.tallies.blobs <= x.tallies.blobs
            &&& r.tallies.uploads <= x.tallies.uploads
        }),
{
}

/// A call that fails is not counted. Where it has to succeed the task fails with what its rule
/// reports, where it leaves something undone that is remembered, and where the thing was not there
/// and need not be, nothing happens.
pub proof fn failed_call_is_taken_by_its_rule(
    r: RunnerView,
    rule: Rule,
    e: IoError,
    report: Report,
    told: StorageError,
)
    requires
        r.waiting == Waiting::Result(rule),
        call_ensures(report_error, (report, e), told),
    ensures
        ({
            let x = settled(r, Err(e));
            let excused = rule.missing_ok && e.kind == IoErrorKind::NotFound;
            &&& x.steps == r.steps
            &&& x.undo == r.undo
            &&& x.tallies == r.tallies
            &&& rule.on_error == OnError::Fail(report) && !excused ==> x.failure == Some(told)
            &&& rule.on_error == OnError::Taint && !excused ==> x.tainted && x.failure == r.failure
            &&& excused || rule.on_error == OnError::Ignore ==> x == r
        }),
{
}

/// A task begins with nothing done, and hands out its steps in turn: a call is made, a question is
/// asked, and an outcome ends it. A call that is only made while nothing was left undone is left
/// out otherwise.
pub proof fn steps_are_handed_out_in_turn(r: RunnerView)
    requires
        r.failure is None,
        r.steps.len() > 0,
    ensures
        ({
            let (x, next) = advanced(r);
            &&& r.steps[0] matches StepView::Do { call, rule } ==> (!(rule.if_clean && r.tainted)
                ==> next == NextView::Do(call) && x.waiting == Waiting::Result(rule) && x.steps
                == r.steps.skip(1) && x.undo == r.undo && x.tallies == r.tallies)
            &&& r.steps[0] matches StepView::Do { call, rule } ==> (rule.if_clean && r.tainted
                ==> advanced(r) == advanced(RunnerView { steps: r.steps.skip(1), ..r }))
            &&& r.steps[0] matches StepView::Ask { question } ==> next == NextView::Ask(question)
                && x.steps == r.steps.skip(1) && x.undo == r.undo
            &&& r.steps[0] matches StepView::Finish { outcome } ==> next == NextView::Done(
                Ok(outcome),
                r.tallies,
            )
            &&& r.steps[0] matches StepView::Defer { call } ==> advanced(r) == advanced(
                RunnerView { steps: r.steps.skip(1), undo: r.undo.push(call), ..r },
            )
            &&& r.steps[0] is Seal ==> advanced(r) == advanced(
                RunnerView { steps: r.steps.skip(1), undo: Seq::<CallView>::empty(), ..r },
            )
            &&& r.steps[0] is Disarm && r.undo.len() > 0 ==> advanced(r) == advanced(
                RunnerView { steps: r.steps.skip(1), undo: r.undo.drop_last(), ..r },
            )
            &&& r.steps[0] is Reset ==> advanced(r) == advanced(
                RunnerView { steps: r.steps.skip(1), tainted: false, ..r },
            )
            &&& r.steps[0] matches StepView::Fail { error } ==> advanced(r) == advanced(
                RunnerView { steps: r.steps.skip(1), failure: Some(error), ..r },
            )
        }),
{
}

/// A task without steps is over, and did nothing.
pub proof fn empty_plan_does_nothing(plan: Seq<StepView>)
    requires
        plan.len() == 0,
    ensures
        advanced(started(plan)).1 == NextView::Done(
            Ok(OutcomeView::Nothing),
            Tallies { staged: 0, journals: 0, blobs: 0, uploads: 0 },
        ),
{
}

/// A file is opened for direct I/O first, and for buffered I/O where that is refused as an argument
/// or is not known. Any other failure stands.
pub proof fn refused_direct_open_is_repeated_buffered(
    read: DioOpening,
    write: DioOpening,
    o: DioOpening,
    result: Result<(), IoError>,
    r: OpenTurn,
)
    requires
        call_ensures(DioFile::open_read, (), read),
        call_ensures(DioFile::create_write, (), write),
        call_ensures(DioOpening::opened, (o, result), r),
    ensures
        read.flags_of().direct && !read.flags_of().write && !read.flags_of().create
            && !read.flags_of().truncate,
        write.flags_of().direct && write.flags_of().write && write.flags_of().create
            && write.flags_of().truncate,
        result is Ok ==> (r matches OpenTurn::Ready(f) && f.flags_of() == o.flags_of()),
        result matches Err(e) ==> (if o.flags_of().direct && (e.code == 22 || e.code == 95) {
            r matches OpenTurn::Again(next) && !next.flags_of().direct && next.flags_of().write
                == o.flags_of().write && next.flags_of().create == o.flags_of().create
                && next.flags_of().truncate == o.flags_of().truncate
        } else {
            r == OpenTurn::Failed(e)
        }),
{
}

/// A transfer that direct I/O refuses is tried once more in the file as it is, without direct I/O.
/// Any other result stands.
pub proof fn refused_transfer_is_repeated_buffered(
    file: &DioFile,
    result: Result<usize, IoError>,
    read: IoTurn,
    write: IoTurn,
    direct: bool,
)
    requires
        call_ensures(DioFile::pread_at, (file, result), read),
        call_ensures(DioFile::pwrite_at, (file, result), write),
        call_ensures(DioFile::is_direct, (file,), direct),
    ensures
        result is Err && result->Err_0.code == 22 && direct ==> (read matches IoTurn::Reopen(flags)
            && !flags.direct && !flags.create && !flags.truncate && flags.write
            == file.flags_of().write) && write == read,
        result is Ok || result->Err_0.code != 22 || !direct ==> read == IoTurn::Done(result)
            && write == IoTurn::Done(result),
{
}

} // verus!
