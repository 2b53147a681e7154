//! Tasks of the plain layout: a request from its first step to its answer.

use vstd::prelude::*;
use crate::cas::buckets::answer_listing;
use crate::cas::store::Env;
use crate::cas::task::{misplaced, misplaced_error, Reply};
use crate::filesystem::objects::{
    plain_head_answer, PlainBrowsing, PlainFilling, PlainOpen, PlainPut, PlainRead,
};
use crate::filesystem::store::{bucket_created, bucket_listed};
use crate::filesystem::uploads::{
    plain_parts_answer, PlainAssembling, PlainCompleting, PlainPartUpload, PlainUploadsListing,
};
use crate::plan::call::Answer;
use crate::plan::runner::{
    advanced, settled, started, Next, NextView, Plan, Runner, RunnerView, Waiting,
};
use crate::types::StorageError;

verus! {

/// Where the answer to the question that was asked last goes on.
#[derive(Debug)]
pub enum PlainStage {
    /// No question was asked.
    Closed,
    /// The body of an object is being written.
    Body(PlainPut),
    /// A sidecar is read for the headers.
    Heading,
    /// A sidecar is read for the body.
    Reading(PlainRead),
    /// A data file is being opened.
    Opening(PlainOpen),
    /// The directory of a bucket is being created.
    CreatingBucket,
    /// A bucket that is removed is being listed.
    RemovingBucket,
    /// The data root is listed for the buckets.
    BucketsList,
    /// A bucket is walked for a listing.
    Walking(PlainBrowsing),
    /// The data files of a listing are being described.
    Describing(PlainFilling),
    /// The body of a part is being written.
    PartBody(PlainPartUpload),
    /// The record of an upload that is completed is being read.
    Completing(PlainCompleting),
    /// The parts of an upload that is completed are being looked at.
    Assembling(PlainAssembling),
    /// The records of the uploads are being read.
    UploadsList(PlainUploadsListing),
    /// The parts of an upload are being listed.
    PartsList,
}

/// What a task goes on with: the next stage, and more steps or the error that ends it.
pub type PlainTurn = (PlainStage, Result<Plan, StorageError>);

/// The turn after a function that ends the task or gives its last steps.
pub open spec fn last_turn(o: Result<Plan, StorageError>) -> PlainTurn {
    (PlainStage::Closed, o)
}

/// The turn that an answer leads to. An answer that does not fit the question ends the task.
pub open spec fn plain_follows(
    stage: PlainStage,
    env: &Env,
    answer: Answer,
    turn: PlainTurn,
) -> bool {
    match (stage, answer) {
        (PlainStage::Body(s), Answer::Body(x)) => {
            exists|o: Result<Plan, StorageError>| #[trigger]
                call_ensures(PlainPut::streamed, (s, x), o) && turn == last_turn(o)
        },
        (PlainStage::Heading, Answer::Metadata(x)) => {
            exists|o: Result<Plan, StorageError>| #[trigger]
                call_ensures(plain_head_answer, (x,), o) && turn == last_turn(o)
        },
        (PlainStage::Reading(s), Answer::Metadata(x)) => {
            exists|o: Result<(Option<PlainOpen>, Plan), StorageError>| #[trigger]
                call_ensures(PlainRead::found, (s, x), o) && turn == (match o {
                    Ok(p) => (
                        match p.0 {
                            Some(n) => PlainStage::Opening(n),
                            None => PlainStage::Closed,
                        },
                        Ok(p.1),
                    ),
                    Err(e) => (PlainStage::Closed, Err(e)),
                })
        },
        (PlainStage::Opening(s), Answer::Opened(x)) => {
            exists|o: Result<Plan, StorageError>| #[trigger]
                call_ensures(PlainOpen::opened, (s, env, x), o) && turn == last_turn(o)
        },
        (PlainStage::CreatingBucket, Answer::Unit(x)) => {
            exists|o: Result<Plan, StorageError>| #[trigger]
                call_ensures(bucket_created, (x,), o) && turn == last_turn(o)
        },
        (PlainStage::RemovingBucket, Answer::Entries(x)) => {
            exists|o: Result<Plan, StorageError>| #[trigger]
                call_ensures(bucket_listed, (x,), o) && turn == last_turn(o)
        },
        (PlainStage::BucketsList, Answer::Entries(x)) => {
            exists|o: Result<Plan, StorageError>| #[trigger]
                call_ensures(answer_listing, (x,), o) && turn == last_turn(o)
        },
        (PlainStage::Walking(s), Answer::Files(x)) => {
            exists|o: Result<(Option<PlainFilling>, Plan), StorageError>| #[trigger]
                call_ensures(PlainBrowsing::walked, (s, x), o) && turn == describing_turn(o)
        },
        (PlainStage::Describing(s), Answer::Described(x)) => {
            exists|o: Result<(Option<PlainFilling>, Plan), StorageError>| #[trigger]
                call_ensures(PlainFilling::described, (s, x), o) && turn == describing_turn(o)
        },
        (PlainStage::PartBody(s), Answer::Body(x)) => {
            exists|o: Result<Plan, StorageError>| #[trigger]
                call_ensures(PlainPartUpload::streamed, (s, x), o) && turn == last_turn(o)
        },
        (PlainStage::Completing(s), Answer::PlainUpload(x)) => {
            exists|o: Result<(PlainAssembling, Plan), StorageError>| #[trigger]
                call_ensures(PlainCompleting::found, (s, x), o) && turn == assembling_turn(o)
        },
        (PlainStage::Assembling(s), Answer::PlainPart(x)) => {
            exists|o: Result<(PlainAssembling, Plan), StorageError>| #[trigger]
                call_ensures(PlainAssembling::probed, (s, env, x), o) && turn == assembling_turn(
                    o,
                )
        },
        (PlainStage::UploadsList(s), Answer::PlainUploads(x)) => {
            exists|o: Result<Plan, StorageError>| #[trigger]
                call_ensures(PlainUploadsListing::found, (s, x), o) && turn == last_turn(o)
        },
        (PlainStage::PartsList, Answer::PlainParts(x)) => {
            exists|o: Result<Plan, StorageError>| #[trigger]
                call_ensures(plain_parts_answer, (x,), o) && turn == last_turn(o)
        },
        _ => turn == (PlainStage::Closed, Err::<Plan, StorageError>(misplaced())),
    }
}

/// A listing goes on until its data files are described.
pub open spec fn describing_turn(
    o: Result<(Option<PlainFilling>, Plan), StorageError>,
) -> PlainTurn {
    match o {
        Ok(p) => (
            match p.0 {
                Some(n) => PlainStage::Describing(n),
                None => PlainStage::Closed,
            },
            Ok(p.1),
        ),
        Err(e) => (PlainStage::Closed, Err(e)),
    }
}

/// A completion goes on with its parts.
pub open spec fn assembling_turn(o: Result<(PlainAssembling, Plan), StorageError>) -> PlainTurn {
    match o {
        Ok(p) => (PlainStage::Assembling(p.0), Ok(p.1)),
        Err(e) => (PlainStage::Closed, Err(e)),
    }
}

/// The bucket that a task works on once it reached a stage: a completion works on the bucket that
/// the upload records.
pub open spec fn stage_bucket(stage: PlainStage, bucket: Seq<char>) -> Seq<char> {
    match stage {
        PlainStage::Assembling(s) => s.upload.bucket@,
        _ => bucket,
    }
}

impl PlainStage {
    /// Takes in the answer to the question that was asked last.
    fn answer(self, env: &Env, answer: Answer) -> (r: PlainTurn)
        ensures
            plain_follows(self, env, answer, r),
    {
        match (self, answer) {
            (PlainStage::Body(s), Answer::Body(x)) => {
                let o = s.streamed(x);
                assert(call_ensures(PlainPut::streamed, (s, x), o));
                (PlainStage::Closed, o)
            },
            (PlainStage::Heading, Answer::Metadata(x)) => {
                let o = plain_head_answer(x);
                assert(call_ensures(plain_head_answer, (x,), o));
                (PlainStage::Closed, o)
            },
            (PlainStage::Reading(s), Answer::Metadata(x)) => {
                let o = s.found(x);
                assert(call_ensures(PlainRead::found, (s, x), o));
                match o {
                    Ok((Some(n), plan)) => (PlainStage::Opening(n), Ok(plan)),
                    Ok((None, plan)) => (PlainStage::Closed, Ok(plan)),
                    Err(e) => (PlainStage::Closed, Err(e)),
                }
            },
            (PlainStage::Opening(s), Answer::Opened(x)) => {
                let o = s.opened(env, x);
                assert(call_ensures(PlainOpen::opened, (s, env, x), o));
                (PlainStage::Closed, o)
            },
            (PlainStage::CreatingBucket, Answer::Unit(x)) => {
                let o = bucket_created(x);
                assert(call_ensures(bucket_created, (x,), o));
                (PlainStage::Closed, o)
            },
            (PlainStage::RemovingBucket, Answer::Entries(x)) => {
                let o = bucket_listed(x);
                assert(call_ensures(bucket_listed, (x,), o));
                (PlainStage::Closed, o)
            },
            (PlainStage::BucketsList, Answer::Entries(x)) => {
                let o = answer_listing(x);
                assert(call_ensures(answer_listing, (x,), o));
                (PlainStage::Closed, o)
            },
            (PlainStage::Walking(s), Answer::Files(x)) => {
                let o = s.walked(x);
                assert(call_ensures(PlainBrowsing::walked, (s, x), o));
                match o {
                    Ok((Some(n), plan)) => (PlainStage::Describing(n), Ok(plan)),
                    Ok((None, plan)) => (PlainStage::Closed, Ok(plan)),
                    Err(e) => (PlainStage::Closed, Err(e)),
                }
            },
            (PlainStage::Describing(s), Answer::Described(x)) => {
                let o = s.described(x);
                assert(call_ensures(PlainFilling::described, (s, x), o));
                match o {
                    Ok((Some(n), plan)) => (PlainStage::Describing(n), Ok(plan)),
                    Ok((None, plan)) => (PlainStage::Closed, Ok(plan)),
                    Err(e) => (PlainStage::Closed, Err(e)),
                }
            },
            (PlainStage::PartBody(s), Answer::Body(x)) => {
                let o = s.streamed(x);
                assert(call_ensures(PlainPartUpload::streamed, (s, x), o));
                (PlainStage::Closed, o)
            },
            (PlainStage::Completing(s), Answer::PlainUpload(x)) => {
                let o = s.found(x);
                assert(call_ensures(PlainCompleting::found, (s, x), o));
                match o {
                    Ok((n, plan)) => (PlainStage::Assembling(n), Ok(plan)),
                    Err(e) => (PlainStage::Closed, Err(e)),
                }
            },
            (PlainStage::Assembling(s), Answer::PlainPart(x)) => {
                let o = s.probed(env, x);
                assert(call_ensures(PlainAssembling::probed, (s, env, x), o));
                match o {
                    Ok((n, plan)) => (PlainStage::Assembling(n), Ok(plan)),
                    Err(e) => (PlainStage::Closed, Err(e)),
                }
            },
            (PlainStage::UploadsList(s), Answer::PlainUploads(x)) => {
                let o = s.found(x);
                assert(call_ensures(PlainUploadsListing::found, (s, x), o));
                (PlainStage::Closed, o)
            },
            (PlainStage::PartsList, Answer::PlainParts(x)) => {
                let o = plain_parts_answer(x);
                assert(call_ensures(plain_parts_answer, (x,), o));
                (PlainStage::Closed, o)
            },
            _ => (PlainStage::Closed, Err(misplaced_error())),
        }
    }
}

/// A request from its first step to its answer.
#[derive(Debug)]
pub struct PlainTask {
    env: Env,
    stage: PlainStage,
    runner: Runner,
}

/// A runner that goes on with a turn.
pub open spec fn with_plain_turn(r: RunnerView, turn: PlainTurn) -> RunnerView {
    match turn.1 {
        Ok(plan) => RunnerView { steps: r.steps + plan@, ..r },
        Err(e) => RunnerView { failure: Some(e), ..r },
    }
}

impl PlainTask {
    pub closed spec fn env_of(&self) -> Env {
        self.env
    }

    pub closed spec fn stage_of(&self) -> PlainStage {
        self.stage
    }

    pub closed spec fn runner_of(&self) -> RunnerView {
        self.runner@
    }

    /// A task that begins with `plan`; the answer to the question that the plan ends with goes on
    /// at `stage`.
    pub fn new(env: Env, stage: PlainStage, plan: Plan) -> (r: PlainTask)
        ensures
            r.env_of() == env,
            r.stage_of() == stage,
            r.runner_of() == started(plan@),
    {
        PlainTask { env, stage, runner: Runner::new(plan) }
    }

    /// The bucket and the data root of the task.
    pub fn env(&self) -> (r: &Env)
        ensures
            *r == self.env_of(),
    {
        &self.env
    }

    /// Takes in how the last call or question went, and hands out the next one or the end of the
    /// task.
    pub fn resume(&mut self, reply: Reply) -> (r: Next)
        ensures
            final(self).env_of().root == old(self).env_of().root,
            final(self).env_of().fsync == old(self).env_of().fsync,
            match (old(self).runner_of().waiting, reply) {
                (Waiting::Nothing, Reply::Start) => {
                    &&& final(self).env_of() == old(self).env_of()
                    &&& final(self).stage_of() == old(self).stage_of()
                    &&& (final(self).runner_of(), r@) == advanced(old(self).runner_of())
                },
                (Waiting::Result(_), Reply::Settled(result)) => {
                    &&& final(self).env_of() == old(self).env_of()
                    &&& final(self).stage_of() == old(self).stage_of()
                    &&& (final(self).runner_of(), r@) == advanced(
                        settled(old(self).runner_of(), result),
                    )
                },
                (Waiting::Answer, Reply::Answered(answer)) => {
                    exists|turn: PlainTurn| #[trigger]
                        plain_follows(old(self).stage_of(), &old(self).env_of(), answer, turn)
                            && final(self).stage_of() == turn.0 && final(self).env_of().bucket@
                            == stage_bucket(turn.0, old(self).env_of().bucket@) && (
                        final(self).runner_of(),
                        r@,
                    ) == advanced(with_plain_turn(old(self).runner_of(), turn))
                },
                (Waiting::Over, _) => {
                    &&& final(self).env_of() == old(self).env_of()
                    &&& final(self).runner_of() == old(self).runner_of()
                    &&& r@ == NextView::Done(Err(misplaced()), old(self).runner_of().tallies)
                },
                _ => {
                    &&& final(self).env_of() == old(self).env_of()
                    &&& (final(self).runner_of(), r@) == advanced(
                        RunnerView { failure: Some(misplaced()), ..old(self).runner_of() },
                    )
                },
            },
    {
        match (self.runner.waiting(), reply) {
            (Waiting::Nothing, Reply::Start) => {},
            (Waiting::Result(_), Reply::Settled(result)) => {
                self.runner.settle(result);
            },
            (Waiting::Answer, Reply::Answered(answer)) => {
                let mut stage = PlainStage::Closed;
                std::mem::swap(&mut stage, &mut self.stage);
                let turn = stage.answer(&self.env, answer);
                assert(plain_follows(old(self).stage_of(), &old(self).env_of(), answer, turn));
                if let PlainStage::Assembling(s) = &turn.0 {
                    self.env.bucket = s.upload.bucket.clone();
                }
                self.stage = turn.0;
                match turn.1 {
                    Ok(plan) => {
                        self.runner.extend(plan);
                    },
                    Err(e) => {
                        self.runner.fail(e);
                    },
                }
            },
            (Waiting::Over, _) => {
                return Next::Done(Err(misplaced_error()), self.runner.tallies());
            },
            _ => {
                self.runner.fail(misplaced_error());
            },
        }
        self.runner.advance()
    }
}

} // verus!
