//! Tasks: who takes an answer.

use vstd::prelude::*;
use crate::cas::browse::{Browsing, Filling};
use crate::cas::buckets::{answer_listing, bucket_created, bucket_scanned, bucket_walked};
use crate::cas::complete::{Assembling, Completing};
use crate::cas::gc::{Gathering, Reaping, ReapingOne};
use crate::cas::objects::{head_answer, Deleting, Opening, Publishing, PutBody, Reading};
use crate::cas::recovery::{Applying, Deciding, Sweeping};
use crate::cas::store::Env;
use crate::cas::task::{with_turn, Stage, Turn};
use crate::cas::uploads::{
    Aborting, PartInstalled, PartStored, PartTimes, PartUpload, PartsListing, UploadsListing,
};
use crate::plan::call::Answer;
use crate::plan::runner::{Plan, RunnerView};
use crate::types::StorageError;

verus! {

/// The plan of a request that goes on, or its error.
pub open spec fn hands_on<T>(
    o: Result<(T, Plan), StorageError>,
    r: Result<Plan, StorageError>,
) -> bool {
    match o {
        Ok(p) => r == Ok::<Plan, StorageError>(p.1),
        Err(e) => r == Err::<Plan, StorageError>(e),
    }
}

/// The requests for one object hand the answer to the part of the request that asked for it, and go
/// on with its plan or end with its error.
pub proof fn object_requests_take_their_answers(stage: Stage, env: &Env, answer: Answer, turn: Turn)
    requires
        call_ensures(Stage::answer, (stage, env, answer), turn),
    ensures
        stage is PutBody && answer is Blob ==> exists|o: Result<(Publishing, Plan), StorageError>| #[trigger]
            call_ensures(PutBody::streamed, (stage->PutBody_0, env, answer->Blob_0), o) && hands_on(o, turn.1),
        stage is Publishing && answer is Manifest ==> exists|o: Result<Plan, StorageError>| #[trigger]
            call_ensures(Publishing::commit, (stage->Publishing_0, env, answer->Manifest_0), o) && turn.1 == o,
        stage is Deleting && answer is Manifest ==> exists|o: Result<Plan, StorageError>| #[trigger]
            call_ensures(Deleting::commit, (stage->Deleting_0, env, answer->Manifest_0), o) && turn.1 == o,
        stage is Heading && answer is Manifest ==> exists|o: Result<Plan, StorageError>| #[trigger]
            call_ensures(head_answer, (answer->Manifest_0,), o) && turn.1 == o,
        stage is Reading && answer is Manifest ==> exists|o: Result<(Option<Opening>, Plan), StorageError>| #[trigger]
            call_ensures(Reading::found, (stage->Reading_0, env, answer->Manifest_0), o) && hands_on(o, turn.1),
        stage is Opening && answer is Opened ==> exists|o: Result<Plan, StorageError>| #[trigger]
            call_ensures(Opening::opened, (stage->Opening_0, env, answer->Opened_0), o) && turn.1 == o,
        stage is Walking && answer is Files ==> exists|o: Result<(Option<Filling>, Plan), StorageError>| #[trigger]
            call_ensures(Browsing::walked, (stage->Walking_0, answer->Files_0), o) && hands_on(o, turn.1),
        stage is Filling && answer is Manifest ==> exists|o: (Option<Filling>, Plan)| #[trigger]
            call_ensures(Filling::read, (stage->Filling_0, answer->Manifest_0), o) && turn.1 == Ok::<Plan, StorageError>(o.1),
{
}

/// So do the requests for an upload.
pub proof fn upload_requests_take_their_answers(stage: Stage, env: &Env, answer: Answer, turn: Turn)
    requires
        call_ensures(Stage::answer, (stage, env, answer), turn),
    ensures
        stage is PartProbe && answer is Upload ==> exists|o: Result<Plan, StorageError>| #[trigger]
            call_ensures(PartUpload::admitted, (&stage->PartProbe_0, env, answer->Upload_0), o) && turn.1 == o,
        stage is PartBody && answer is Blob ==> exists|o: Result<(PartStored, Plan), StorageError>| #[trigger]
            call_ensures(PartUpload::streamed, (stage->PartBody_0, env, answer->Blob_0), o) && hands_on(o, turn.1),
        stage is PartReprobe && answer is Upload ==> exists|o: Result<Plan, StorageError>| #[trigger]
            call_ensures(PartStored::rechecked, (&stage->PartReprobe_0, env, answer->Upload_0), o) && turn.1 == o,
        stage is PartPrevious && answer is PartRef ==> exists|o: (Option<PartInstalled>, Plan)| #[trigger]
            call_ensures(PartStored::install, (stage->PartPrevious_0, env, answer->PartRef_0), o) && turn.1 == Ok::<Plan, StorageError>(o.1),
        stage is PartSync && answer is Unit ==> exists|o: Plan| #[trigger]
            call_ensures(PartInstalled::synced, (stage->PartSync_0, env, answer->Unit_0), o) && turn.1 == Ok::<Plan, StorageError>(o),
        stage is CompleteProbe && answer is Upload ==> exists|o: Result<Plan, StorageError>| #[trigger]
            call_ensures(Completing::admitted, (&stage->CompleteProbe_0, env, answer->Upload_0), o) && turn.1 == o,
        stage is CompleteReprobe && answer is Upload ==> exists|o: Result<(Assembling, Plan), StorageError>| #[trigger]
            call_ensures(Completing::rechecked, (stage->CompleteReprobe_0, env, answer->Upload_0), o) && hands_on(o, turn.1),
        stage is CompleteRefs && answer is PartRefs ==> exists|o: Result<(Option<Publishing>, Plan), StorageError>| #[trigger]
            call_ensures(Assembling::assemble, (stage->CompleteRefs_0, env, answer->PartRefs_0), o) && hands_on(o, turn.1),
        stage is AbortProbe && answer is Upload ==> exists|o: Result<Plan, StorageError>| #[trigger]
            call_ensures(Aborting::admitted, (&stage->AbortProbe_0, env, answer->Upload_0), o) && turn.1 == o,
        stage is AbortRefs && answer is PartRefs ==> exists|o: Plan| #[trigger]
            call_ensures(Aborting::remove, (stage->AbortRefs_0, answer->PartRefs_0), o) && turn.1 == Ok::<Plan, StorageError>(o),
        stage is PartsProbe && answer is Upload ==> exists|o: Result<Plan, StorageError>| #[trigger]
            call_ensures(PartsListing::admitted, (&stage->PartsProbe_0, env, answer->Upload_0), o) && turn.1 == o,
        stage is PartsRefs && answer is PartRefs ==> exists|o: Result<(PartTimes, Plan), StorageError>| #[trigger]
            call_ensures(PartsListing::read, (stage->PartsRefs_0, answer->PartRefs_0), o) && hands_on(o, turn.1),
        stage is PartsTimes && answer is Times ==> exists|o: Plan| #[trigger]
            call_ensures(PartTimes::times, (stage->PartsTimes_0, answer->Times_0), o) && turn.1 == Ok::<Plan, StorageError>(o),
        stage is UploadsScan && answer is UploadDirs ==> exists|o: Result<Plan, StorageError>| #[trigger]
            call_ensures(UploadsListing::scanned, (stage->UploadsScan_0, answer->UploadDirs_0), o) && turn.1 == o,
{
}

/// So do the requests for a bucket, and the sweeps.
pub proof fn bucket_requests_take_their_answers(stage: Stage, env: &Env, answer: Answer, turn: Turn)
    requires
        call_ensures(Stage::answer, (stage, env, answer), turn),
    ensures
        stage is CreatingBucket && answer is Unit ==> exists|o: Result<Plan, StorageError>| #[trigger]
            call_ensures(bucket_created, (env, answer->Unit_0), o) && turn.1 == o,
        stage is EmptyWalk && answer is Files ==> exists|o: Result<Plan, StorageError>| #[trigger]
            call_ensures(bucket_walked, (answer->Files_0,), o) && turn.1 == o,
        stage is EmptyScan && answer is UploadDirs ==> exists|o: Result<Plan, StorageError>| #[trigger]
            call_ensures(bucket_scanned, (env, answer->UploadDirs_0), o) && turn.1 == o,
        stage is BucketsList && answer is Entries ==> exists|o: Result<Plan, StorageError>| #[trigger]
            call_ensures(answer_listing, (answer->Entries_0,), o) && turn.1 == o,
        stage is SweepArriving && answer is Entries ==> exists|o: Result<Plan, StorageError>| #[trigger]
            call_ensures(Sweeping::arriving, (stage->SweepArriving_0, answer->Entries_0), o) && turn.1 == o,
        stage is SweepDeleted && answer is Entries ==> exists|o: Result<(Option<Applying>, Plan), StorageError>| #[trigger]
            call_ensures(Sweeping::deleted, (stage->SweepDeleted_0, answer->Entries_0), o) && hands_on(o, turn.1),
        stage is Applying && answer is Journal ==> exists|o: (Result<Deciding, Option<Applying>>, Plan)| #[trigger]
            call_ensures(Applying::read, (stage->Applying_0, answer->Journal_0), o) && turn.1 == Ok::<Plan, StorageError>(o.1),
        stage is Deciding && answer is Manifest ==> exists|o: Result<(Option<Applying>, Plan), StorageError>| #[trigger]
            call_ensures(Deciding::apply, (stage->Deciding_0, answer->Manifest_0), o) && hands_on(o, turn.1),
        stage is GcWalk && answer is Files ==> exists|o: Result<(Gathering, Plan), StorageError>| #[trigger]
            call_ensures(Gathering::walked, (answer->Files_0,), o) && hands_on(o, turn.1),
        stage is ReapScan && answer is UploadDirs ==> exists|o: Result<(ReapingOne, Plan), StorageError>| #[trigger]
            call_ensures(Reaping::scanned, (stage->ReapScan_0, answer->UploadDirs_0), o) && hands_on(o, turn.1),
        stage is ReapRefs && answer is PartRefs ==> exists|o: (ReapingOne, Plan)| #[trigger]
            call_ensures(ReapingOne::remove, (stage->ReapRefs_0, answer->PartRefs_0), o) && turn.1 == Ok::<Plan, StorageError>(o.1),
{
}

/// The plan of an answer comes behind what is left of the plan before it; its error fails the task.
pub proof fn plan_of_an_answer_is_appended(r: RunnerView, turn: Turn)
    ensures
        turn.1 matches Ok(plan) ==> with_turn(r, turn) == (RunnerView {
            steps: r.steps + plan@,
            ..r
        }),
        turn.1 matches Err(e) ==> with_turn(r, turn) == (RunnerView { failure: Some(e), ..r }),
{
}

} // verus!
