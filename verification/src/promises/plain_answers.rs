//! Tasks of the plain layout: who takes an answer, and what it leads to.

use vstd::prelude::*;
use crate::cas::buckets::answer_listing;
use crate::cas::store::Env;
use crate::filesystem::objects::{
    plain_head_answer, PlainBrowsing, PlainFilling, PlainOpen, PlainPut, PlainRead,
};
use crate::filesystem::store::{bucket_created, bucket_listed};
use crate::filesystem::task::{plain_follows, stage_bucket, with_plain_turn, PlainStage, PlainTurn};
use crate::filesystem::uploads::{
    plain_parts_answer, PlainAssembling, PlainCompleting, PlainPartUpload, PlainUploadsListing,
};
use crate::plan::call::Answer;
use crate::plan::runner::{Plan, RunnerView};
use crate::promises::answers::hands_on;
use crate::types::{IoErrorKind, StorageError};

verus! {

/// The requests hand the answer to the part of the request that asked for it, and go on with its
/// plan or end with its error.
pub proof fn plain_requests_take_their_answers(
    stage: PlainStage,
    env: &Env,
    answer: Answer,
    turn: PlainTurn,
)
    requires
        plain_follows(stage, env, answer, turn),
    ensures
        stage is Body && answer is Body ==> exists|o: Result<Plan, StorageError>| #[trigger]
            call_ensures(PlainPut::streamed, (stage->Body_0, answer->Body_0), o) && turn.1 == o,
        stage is Heading && answer is Metadata ==> exists|o: Result<Plan, StorageError>| #[trigger]
            call_ensures(plain_head_answer, (answer->Metadata_0,), o) && turn.1 == o,
        stage is Reading && answer is Metadata ==> exists|o: Result<(Option<PlainOpen>, Plan), StorageError>| #[trigger]
            call_ensures(PlainRead::found, (stage->Reading_0, answer->Metadata_0), o) && hands_on(o, turn.1),
        stage is Opening && answer is Opened ==> exists|o: Result<Plan, StorageError>| #[trigger]
            call_ensures(PlainOpen::opened, (stage->Opening_0, env, answer->Opened_0), o) && turn.1 == o,
        stage is CreatingBucket && answer is Unit ==> exists|o: Result<Plan, StorageError>| #[trigger]
            call_ensures(bucket_created, (answer->Unit_0,), o) && turn.1 == o,
        stage is RemovingBucket && answer is Entries ==> exists|o: Result<Plan, StorageError>| #[trigger]
            call_ensures(bucket_listed, (answer->Entries_0,), o) && turn.1 == o,
        stage is BucketsList && answer is Entries ==> exists|o: Result<Plan, StorageError>| #[trigger]
            call_ensures(answer_listing, (answer->Entries_0,), o) && turn.1 == o,
        stage is Walking && answer is Files ==> exists|o: Result<(Option<PlainFilling>, Plan), StorageError>| #[trigger]
            call_ensures(PlainBrowsing::walked, (stage->Walking_0, answer->Files_0), o) && hands_on(o, turn.1),
        stage is Describing && answer is Described ==> exists|o: Result<(Option<PlainFilling>, Plan), StorageError>| #[trigger]
            call_ensures(PlainFilling::described, (stage->Describing_0, answer->Described_0), o) && hands_on(o, turn.1),
        stage is PartBody && answer is Body ==> exists|o: Result<Plan, StorageError>| #[trigger]
            call_ensures(PlainPartUpload::streamed, (stage->PartBody_0, answer->Body_0), o) && turn.1 == o,
        stage is Completing && answer is PlainUpload ==> exists|o: Result<(PlainAssembling, Plan), StorageError>| #[trigger]
            call_ensures(PlainCompleting::found, (stage->Completing_0, answer->PlainUpload_0), o) && hands_on(o, turn.1),
        stage is Assembling && answer is PlainPart ==> exists|o: Result<(PlainAssembling, Plan), StorageError>| #[trigger]
            call_ensures(PlainAssembling::probed, (stage->Assembling_0, env, answer->PlainPart_0), o) && hands_on(o, turn.1),
        stage is UploadsList && answer is PlainUploads ==> exists|o: Result<Plan, StorageError>| #[trigger]
            call_ensures(PlainUploadsListing::found, (stage->UploadsList_0, answer->PlainUploads_0), o) && turn.1 == o,
        stage is PartsList && answer is PlainParts ==> exists|o: Result<Plan, StorageError>| #[trigger]
            call_ensures(plain_parts_answer, (answer->PlainParts_0,), o) && turn.1 == o,
{
}

/// An answer leads from one stage of a request to the next. Only a read, a listing and a completion
/// have more than one, a request that fails is over, and an answer that does not fit fails it.
pub proof fn plain_answers_lead_from_stage_to_stage(
    stage: PlainStage,
    env: &Env,
    answer: Answer,
    turn: PlainTurn,
)
    requires
        plain_follows(stage, env, answer, turn),
    ensures
        turn.1 is Err ==> turn.0 is Closed,
        turn.0 is Closed || turn.0 is Opening || turn.0 is Describing || turn.0 is Assembling,
        turn.0 is Opening ==> stage is Reading,
        turn.0 is Describing ==> stage is Walking || stage is Describing,
        turn.0 is Assembling ==> stage is Completing || stage is Assembling,
        turn.1 is Ok && (stage is Completing || stage is Assembling) ==> turn.0 is Assembling,
        stage is Closed ==> (turn.1 matches Err(StorageError::Io(e)) && e.kind
            == IoErrorKind::InvalidData),
{
}

/// A completion goes on in the bucket that its record names; every other request stays in its own.
pub proof fn completion_goes_on_in_the_bucket_of_its_record(stage: PlainStage, bucket: Seq<char>)
    ensures
        stage matches PlainStage::Assembling(s) ==> stage_bucket(stage, bucket) == s.upload.bucket@,
        !(stage is Assembling) ==> stage_bucket(stage, bucket) == bucket,
{
}

/// The plan of an answer comes behind what is left of the plan before it; its error fails the task.
pub proof fn plan_of_an_answer_comes_next(r: RunnerView, turn: PlainTurn)
    ensures
        turn.1 matches Ok(plan) ==> with_plain_turn(r, turn) == (RunnerView {
            steps: r.steps + plan@,
            ..r
        }),
        turn.1 matches Err(e) ==> with_plain_turn(r, turn) == (RunnerView { failure: Some(e), ..r }),
{
}

} // verus!
