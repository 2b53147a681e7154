//! Tasks: a request from its first step to its answer.
//!
//! A task hands out one call or question at a time. Each question has one place where its answer
//! goes on; which one that is, the stage of the task says.

use vstd::prelude::*;
use crate::cas::browse::{Browsing, Filling};
use crate::cas::buckets::{answer_listing, bucket_created, bucket_scanned, bucket_walked};
use crate::cas::complete::{Assembling, Completing};
use crate::cas::gc::{Gathering, GatheringParts, Reaping, ReapingOne};
use crate::cas::objects::{head_answer, Deleting, Opening, Publishing, PutBody, Reading};
use crate::cas::recovery::{Applying, Deciding, Sweeping};
use crate::cas::store::Env;
use crate::cas::uploads::{
    Aborting, PartInstalled, PartStored, PartTimes, PartUpload, PartsListing, UploadsListing,
};
use crate::plan::call::Answer;
use crate::plan::runner::{
    advanced, settled, started, Next, NextView, Plan, Runner, RunnerView, Waiting,
};
use crate::types::{IoError, IoErrorKind, StorageError};

verus! {

/// Where the answer to the question that was asked last goes on.
#[derive(Debug)]
pub enum Stage {
    /// No question was asked.
    Closed,
    /// The body of an object is being written.
    PutBody(PutBody),
    /// The live version of a key that is written is being read.
    Publishing(Publishing),
    /// The live version of a key that is deleted is being read.
    Deleting(Deleting),
    /// The live version is read for its headers.
    Heading,
    /// The live version is read for its body.
    Reading(Reading),
    /// The single blob of an object is being opened.
    Opening(Opening),
    /// A journal is being read.
    Applying(Applying),
    /// The live version that a journal waits for is being read.
    Deciding(Deciding),
    /// The upload area of a bucket is listed for a sweep.
    SweepArriving(Sweeping),
    /// The journals of a bucket are listed for a sweep.
    SweepDeleted(Sweeping),
    /// The upload of a part is looked at.
    PartProbe(PartUpload),
    /// The body of a part is being written.
    PartBody(PartUpload),
    /// The upload of a part is looked at again.
    PartReprobe(PartStored),
    /// The record that a part replaces is being read.
    PartPrevious(PartStored),
    /// The record of a part is being made durable.
    PartSync(PartInstalled),
    /// The upload that is completed is looked at.
    CompleteProbe(Completing),
    /// The upload that is completed is looked at again.
    CompleteReprobe(Completing),
    /// The part records of an upload that is completed are being read.
    CompleteRefs(Assembling),
    /// The upload that is given up is looked at.
    AbortProbe(Aborting),
    /// The part records of an upload that is given up are being read.
    AbortRefs(Aborting),
    /// The upload whose parts are listed is looked at.
    PartsProbe(PartsListing),
    /// The part records that are listed are being read.
    PartsRefs(PartsListing),
    /// The times of the part records are being read.
    PartsTimes(PartTimes),
    /// The upload area is scanned for a list of uploads.
    UploadsScan(UploadsListing),
    /// The directory of a bucket is being created.
    CreatingBucket,
    /// A bucket that is removed is searched for objects.
    EmptyWalk,
    /// A bucket that is removed is searched for uploads.
    EmptyScan,
    /// The data root is listed for the buckets.
    BucketsList,
    /// The tree of manifests is walked for a listing.
    Walking(Browsing),
    /// The manifests of a page are being read.
    Filling(Filling),
    /// The tree of manifests is walked for the blobs that are named.
    GcWalk,
    /// The live manifests are read for the blobs that they name.
    GcManifests(Gathering),
    /// The part records are read for the blobs that they name.
    GcParts(GatheringParts),
    /// The upload area is scanned for old uploads.
    ReapScan(Reaping),
    /// The part records of an old upload are being read.
    ReapRefs(ReapingOne),
}

/// What a task goes on with: the next stage, and more steps or the error that ends it.
pub type Turn = (Stage, Result<Plan, StorageError>);

/// The error for an answer that does not fit the question.
pub open spec fn misplaced() -> StorageError {
    StorageError::Io(IoError { kind: IoErrorKind::InvalidData, code: 0 })
}

pub fn misplaced_error() -> (r: StorageError)
    ensures
        r == misplaced(),
{
    StorageError::Io(IoError { kind: IoErrorKind::InvalidData, code: 0 })
}

/// The turn after a function that ends the task or gives more steps.
pub open spec fn plan_turn(o: Result<Plan, StorageError>, stage: Stage) -> Turn {
    match o {
        Ok(plan) => (stage, Ok(plan)),
        Err(e) => (Stage::Closed, Err(e)),
    }
}

/// The turn that an answer leads to. An answer that does not fit the question ends the task.
pub open spec fn follows(stage: Stage, env: &Env, answer: Answer, turn: Turn) -> bool {
    match (stage, answer) {
        (Stage::PutBody(s), Answer::Blob(x)) => {
            exists|o: Result<(Publishing, Plan), StorageError>| #[trigger]
                call_ensures(PutBody::streamed, (s, env, x), o) && turn == (match o {
                    Ok(p) => (Stage::Publishing(p.0), Ok(p.1)),
                    Err(e) => (Stage::Closed, Err(e)),
                })
        },
        (Stage::Publishing(s), Answer::Manifest(x)) => {
            exists|o: Result<Plan, StorageError>| #[trigger]
                call_ensures(Publishing::commit, (s, env, x), o) && turn == plan_turn(o, Stage::Closed)
        },
        (Stage::Deleting(s), Answer::Manifest(x)) => {
            exists|o: Result<Plan, StorageError>| #[trigger]
                call_ensures(Deleting::commit, (s, env, x), o) && turn == plan_turn(o, Stage::Closed)
        },
        (Stage::Heading, Answer::Manifest(x)) => {
            exists|o: Result<Plan, StorageError>| #[trigger]
                call_ensures(head_answer, (x,), o) && turn == plan_turn(o, Stage::Closed)
        },
        (Stage::Reading(s), Answer::Manifest(x)) => {
            exists|o: Result<(Option<Opening>, Plan), StorageError>| #[trigger]
                call_ensures(Reading::found, (s, env, x), o) && turn == (match o {
                    Ok(p) => (match p.0 {
                        Some(n) => Stage::Opening(n),
                        None => Stage::Closed,
                    }, Ok(p.1)),
                    Err(e) => (Stage::Closed, Err(e)),
                })
        },
        (Stage::Opening(s), Answer::Opened(x)) => {
            exists|o: Result<Plan, StorageError>| #[trigger]
                call_ensures(Opening::opened, (s, env, x), o) && turn == plan_turn(o, Stage::Closed)
        },
        (Stage::Applying(s), Answer::Journal(x)) => {
            exists|o: (Result<Deciding, Option<Applying>>, Plan)| #[trigger]
                call_ensures(Applying::read, (s, x), o) && turn == (match o.0 {
                    Ok(d) => Stage::Deciding(d),
                    Err(Some(a)) => Stage::Applying(a),
                    Err(None) => Stage::Closed,
                }, Ok::<Plan, StorageError>(o.1))
        },
        (Stage::Deciding(s), Answer::Manifest(x)) => {
            exists|o: Result<(Option<Applying>, Plan), StorageError>| #[trigger]
                call_ensures(Deciding::apply, (s, x), o) && turn == (match o {
                    Ok(p) => (match p.0 {
                        Some(n) => Stage::Applying(n),
                        None => Stage::Closed,
                    }, Ok(p.1)),
                    Err(e) => (Stage::Closed, Err(e)),
                })
        },
        (Stage::SweepArriving(s), Answer::Entries(x)) => {
            exists|o: Result<Plan, StorageError>| #[trigger]
                call_ensures(Sweeping::arriving, (s, x), o) && turn == plan_turn(o, Stage::SweepDeleted(Sweeping { journals: s.journals }))
        },
        (Stage::SweepDeleted(s), Answer::Entries(x)) => {
            exists|o: Result<(Option<Applying>, Plan), StorageError>| #[trigger]
                call_ensures(Sweeping::deleted, (s, x), o) && turn == (match o {
                    Ok(p) => (match p.0 {
                        Some(n) => Stage::Applying(n),
                        None => Stage::Closed,
                    }, Ok(p.1)),
                    Err(e) => (Stage::Closed, Err(e)),
                })
        },
        (Stage::PartProbe(s), Answer::Upload(x)) => {
            exists|o: Result<Plan, StorageError>| #[trigger]
                call_ensures(PartUpload::admitted, (&s, env, x), o) && turn == plan_turn(o, Stage::PartBody(s))
        },
        (Stage::PartBody(s), Answer::Blob(x)) => {
            exists|o: Result<(PartStored, Plan), StorageError>| #[trigger]
                call_ensures(PartUpload::streamed, (s, env, x), o) && turn == (match o {
                    Ok(p) => (Stage::PartReprobe(p.0), Ok(p.1)),
                    Err(e) => (Stage::Closed, Err(e)),
                })
        },
        (Stage::PartReprobe(s), Answer::Upload(x)) => {
            exists|o: Result<Plan, StorageError>| #[trigger]
                call_ensures(PartStored::rechecked, (&s, env, x), o) && turn == plan_turn(o, Stage::PartPrevious(s))
        },
        (Stage::PartPrevious(s), Answer::PartRef(x)) => {
            exists|o: (Option<PartInstalled>, Plan)| #[trigger]
                call_ensures(PartStored::install, (s, env, x), o) && turn == (match o.0 {
                    Some(n) => Stage::PartSync(n),
                    None => Stage::Closed,
                }, Ok::<Plan, StorageError>(o.1))
        },
        (Stage::PartSync(s), Answer::Unit(x)) => {
            exists|o: Plan| #[trigger]
                call_ensures(PartInstalled::synced, (s, env, x), o) && turn == (Stage::Closed, Ok::<Plan, StorageError>(o))
        },
        (Stage::CompleteProbe(s), Answer::Upload(x)) => {
            exists|o: Result<Plan, StorageError>| #[trigger]
                call_ensures(Completing::admitted, (&s, env, x), o) && turn == plan_turn(o, Stage::CompleteReprobe(s))
        },
        (Stage::CompleteReprobe(s), Answer::Upload(x)) => {
            exists|o: Result<(Assembling, Plan), StorageError>| #[trigger]
                call_ensures(Completing::rechecked, (s, env, x), o) && turn == (match o {
                    Ok(p) => (Stage::CompleteRefs(p.0), Ok(p.1)),
                    Err(e) => (Stage::Closed, Err(e)),
                })
        },
        (Stage::CompleteRefs(s), Answer::PartRefs(x)) => {
            exists|o: Result<(Option<Publishing>, Plan), StorageError>| #[trigger]
                call_ensures(Assembling::assemble, (s, env, x), o) && turn == (match o {
                    Ok(p) => (match p.0 {
                        Some(n) => Stage::Publishing(n),
                        None => Stage::Closed,
                    }, Ok(p.1)),
                    Err(e) => (Stage::Closed, Err(e)),
                })
        },
        (Stage::AbortProbe(s), Answer::Upload(x)) => {
            exists|o: Result<Plan, StorageError>| #[trigger]
                call_ensures(Aborting::admitted, (&s, env, x), o) && turn == plan_turn(o, Stage::AbortRefs(s))
        },
        (Stage::AbortRefs(s), Answer::PartRefs(x)) => {
            exists|o: Plan| #[trigger]
                call_ensures(Aborting::remove, (s, x), o) && turn == (Stage::Closed, Ok::<Plan, StorageError>(o))
        },
        (Stage::PartsProbe(s), Answer::Upload(x)) => {
            exists|o: Result<Plan, StorageError>| #[trigger]
                call_ensures(PartsListing::admitted, (&s, env, x), o) && turn == plan_turn(o, Stage::PartsRefs(s))
        },
        (Stage::PartsRefs(s), Answer::PartRefs(x)) => {
            exists|o: Result<(PartTimes, Plan), StorageError>| #[trigger]
                call_ensures(PartsListing::read, (s, x), o) && turn == (match o {
                    Ok(p) => (Stage::PartsTimes(p.0), Ok(p.1)),
                    Err(e) => (Stage::Closed, Err(e)),
                })
        },
        (Stage::PartsTimes(s), Answer::Times(x)) => {
            exists|o: Plan| #[trigger]
                call_ensures(PartTimes::times, (s, x), o) && turn == (Stage::Closed, Ok::<Plan, StorageError>(o))
        },
        (Stage::UploadsScan(s), Answer::UploadDirs(x)) => {
            exists|o: Result<Plan, StorageError>| #[trigger]
                call_ensures(UploadsListing::scanned, (s, x), o) && turn == plan_turn(o, Stage::Closed)
        },
        (Stage::CreatingBucket, Answer::Unit(x)) => {
            exists|o: Result<Plan, StorageError>| #[trigger]
                call_ensures(bucket_created, (env, x), o) && turn == plan_turn(o, Stage::Closed)
        },
        (Stage::EmptyWalk, Answer::Files(x)) => {
            exists|o: Result<Plan, StorageError>| #[trigger]
                call_ensures(bucket_walked, (x,), o) && turn == plan_turn(o, Stage::EmptyScan)
        },
        (Stage::EmptyScan, Answer::UploadDirs(x)) => {
            exists|o: Result<Plan, StorageError>| #[trigger]
                call_ensures(bucket_scanned, (env, x), o) && turn == plan_turn(o, Stage::Closed)
        },
        (Stage::BucketsList, Answer::Entries(x)) => {
            exists|o: Result<Plan, StorageError>| #[trigger]
                call_ensures(answer_listing, (x,), o) && turn == plan_turn(o, Stage::Closed)
        },
        (Stage::Walking(s), Answer::Files(x)) => {
            exists|o: Result<(Option<Filling>, Plan), StorageError>| #[trigger]
                call_ensures(Browsing::walked, (s, x), o) && turn == (match o {
                    Ok(p) => (match p.0 {
                        Some(n) => Stage::Filling(n),
                        None => Stage::Closed,
                    }, Ok(p.1)),
                    Err(e) => (Stage::Closed, Err(e)),
                })
        },
        (Stage::Filling(s), Answer::Manifest(x)) => {
            exists|o: (Option<Filling>, Plan)| #[trigger]
                call_ensures(Filling::read, (s, x), o) && turn == (match o.0 {
                    Some(n) => Stage::Filling(n),
                    None => Stage::Closed,
                }, Ok::<Plan, StorageError>(o.1))
        },
        (Stage::GcWalk, Answer::Files(x)) => {
            exists|o: Result<(Gathering, Plan), StorageError>| #[trigger]
                call_ensures(Gathering::walked, (x,), o) && turn == (match o {
                    Ok(p) => (Stage::GcManifests(p.0), Ok(p.1)),
                    Err(e) => (Stage::Closed, Err(e)),
                })
        },
        (Stage::GcManifests(s), Answer::Manifest(x)) => if s.next < s.files@.len() {
            exists|o: Result<(Gathering, Plan), StorageError>| #[trigger]
                call_ensures(Gathering::read, (s, x), o) && turn == (match o {
                    Ok(p) => (Stage::GcManifests(p.0), Ok(p.1)),
                    Err(e) => (Stage::Closed, Err(e)),
                })
        } else {
            turn == (Stage::Closed, Err::<Plan, StorageError>(misplaced()))
        },
        (Stage::GcManifests(s), Answer::Entries(x)) => if s.next >= s.files@.len() {
            exists|o: (GatheringParts, Plan)| #[trigger]
                call_ensures(GatheringParts::listed, (s, x), o) && turn == (Stage::GcParts(o.0), Ok::<Plan, StorageError>(o.1))
        } else {
            turn == (Stage::Closed, Err::<Plan, StorageError>(misplaced()))
        },
        (Stage::GcParts(s), Answer::PartRefs(x)) => if s.next < s.uploads@.len() {
            exists|o: (GatheringParts, Plan)| #[trigger]
                call_ensures(GatheringParts::read, (s, x), o) && turn == (Stage::GcParts(o.0), Ok::<Plan, StorageError>(o.1))
        } else {
            turn == (Stage::Closed, Err::<Plan, StorageError>(misplaced()))
        },
        (Stage::GcParts(s), Answer::Files(x)) => if s.next >= s.uploads@.len() {
            exists|o: Result<Plan, StorageError>| #[trigger]
                call_ensures(GatheringParts::sweep, (s, x), o) && turn == plan_turn(o, Stage::Closed)
        } else {
            turn == (Stage::Closed, Err::<Plan, StorageError>(misplaced()))
        },
        (Stage::ReapScan(s), Answer::UploadDirs(x)) => {
            exists|o: Result<(ReapingOne, Plan), StorageError>| #[trigger]
                call_ensures(Reaping::scanned, (s, x), o) && turn == (match o {
                    Ok(p) => (Stage::ReapRefs(p.0), Ok(p.1)),
                    Err(e) => (Stage::Closed, Err(e)),
                })
        },
        (Stage::ReapRefs(s), Answer::PartRefs(x)) => {
            exists|o: (ReapingOne, Plan)| #[trigger]
                call_ensures(ReapingOne::remove, (s, x), o) && turn == (Stage::ReapRefs(o.0), Ok::<Plan, StorageError>(o.1))
        },
        _ => turn == (Stage::Closed, Err::<Plan, StorageError>(misplaced())),
    }
}

impl Stage {
    /// Goes on with the answer to the question that was asked.
    pub fn answer(self, env: &Env, answer: Answer) -> (turn: Turn)
        ensures
            follows(self, env, answer, turn),
    {
        match (self, answer) {
            (Stage::PutBody(s), Answer::Blob(x)) => {
                let o = s.streamed(env, x);
                assert(call_ensures(PutBody::streamed, (s, env, x), o));
                match o {
                    Ok((n, plan)) => (Stage::Publishing(n), Ok(plan)),
                    Err(e) => (Stage::Closed, Err(e)),
                }
            },
            (Stage::Publishing(s), Answer::Manifest(x)) => {
                let o = s.commit(env, x);
                assert(call_ensures(Publishing::commit, (s, env, x), o));
                match o {
                    Ok(plan) => (Stage::Closed, Ok(plan)),
                    Err(e) => (Stage::Closed, Err(e)),
                }
            },
            (Stage::Deleting(s), Answer::Manifest(x)) => {
                let o = s.commit(env, x);
                assert(call_ensures(Deleting::commit, (s, env, x), o));
                match o {
                    Ok(plan) => (Stage::Closed, Ok(plan)),
                    Err(e) => (Stage::Closed, Err(e)),
                }
            },
            (Stage::Heading, Answer::Manifest(x)) => {
                let o = head_answer(x);
                assert(call_ensures(head_answer, (x,), o));
                match o {
                    Ok(plan) => (Stage::Closed, Ok(plan)),
                    Err(e) => (Stage::Closed, Err(e)),
                }
            },
            (Stage::Reading(s), Answer::Manifest(x)) => {
                let o = s.found(env, x);
                assert(call_ensures(Reading::found, (s, env, x), o));
                match o {
                    Ok((Some(n), plan)) => (Stage::Opening(n), Ok(plan)),
                    Ok((None, plan)) => (Stage::Closed, Ok(plan)),
                    Err(e) => (Stage::Closed, Err(e)),
                }
            },
            (Stage::Opening(s), Answer::Opened(x)) => {
                let o = s.opened(env, x);
                assert(call_ensures(Opening::opened, (s, env, x), o));
                match o {
                    Ok(plan) => (Stage::Closed, Ok(plan)),
                    Err(e) => (Stage::Closed, Err(e)),
                }
            },
            (Stage::Applying(s), Answer::Journal(x)) => {
                let o = s.read(x);
                assert(call_ensures(Applying::read, (s, x), o));
                match o {
                    (Ok(d), plan) => (Stage::Deciding(d), Ok(plan)),
                    (Err(Some(a)), plan) => (Stage::Applying(a), Ok(plan)),
                    (Err(None), plan) => (Stage::Closed, Ok(plan)),
                }
            },
            (Stage::Deciding(s), Answer::Manifest(x)) => {
                let o = s.apply(x);
                assert(call_ensures(Deciding::apply, (s, x), o));
                match o {
                    Ok((Some(n), plan)) => (Stage::Applying(n), Ok(plan)),
                    Ok((None, plan)) => (Stage::Closed, Ok(plan)),
                    Err(e) => (Stage::Closed, Err(e)),
                }
            },
            (Stage::SweepArriving(s), Answer::Entries(x)) => {
                let journals = s.journals;
                let o = s.arriving(x);
                assert(call_ensures(Sweeping::arriving, (s, x), o));
                match o {
                    Ok(plan) => (Stage::SweepDeleted(Sweeping { journals }), Ok(plan)),
                    Err(e) => (Stage::Closed, Err(e)),
                }
            },
            (Stage::SweepDeleted(s), Answer::Entries(x)) => {
                let o = s.deleted(x);
                assert(call_ensures(Sweeping::deleted, (s, x), o));
                match o {
                    Ok((Some(n), plan)) => (Stage::Applying(n), Ok(plan)),
                    Ok((None, plan)) => (Stage::Closed, Ok(plan)),
                    Err(e) => (Stage::Closed, Err(e)),
                }
            },
            (Stage::PartProbe(s), Answer::Upload(x)) => {
                let o = s.admitted(env, x);
                assert(call_ensures(PartUpload::admitted, (&s, env, x), o));
                match o {
                    Ok(plan) => (Stage::PartBody(s), Ok(plan)),
                    Err(e) => (Stage::Closed, Err(e)),
                }
            },
            (Stage::PartBody(s), Answer::Blob(x)) => {
                let o = s.streamed(env, x);
                assert(call_ensures(PartUpload::streamed, (s, env, x), o));
                match o {
                    Ok((n, plan)) => (Stage::PartReprobe(n), Ok(plan)),
                    Err(e) => (Stage::Closed, Err(e)),
                }
            },
            (Stage::PartReprobe(s), Answer::Upload(x)) => {
                let o = s.rechecked(env, x);
                assert(call_ensures(PartStored::rechecked, (&s, env, x), o));
                match o {
                    Ok(plan) => (Stage::PartPrevious(s), Ok(plan)),
                    Err(e) => (Stage::Closed, Err(e)),
                }
            },
            (Stage::PartPrevious(s), Answer::PartRef(x)) => {
                let o = s.install(env, x);
                assert(call_ensures(PartStored::install, (s, env, x), o));
                match o {
                    (Some(n), plan) => (Stage::PartSync(n), Ok(plan)),
                    (None, plan) => (Stage::Closed, Ok(plan)),
                }
            },
            (Stage::PartSync(s), Answer::Unit(x)) => {
                let o = s.synced(env, x);
                assert(call_ensures(PartInstalled::synced, (s, env, x), o));
                (Stage::Closed, Ok(o))
            },
            (Stage::CompleteProbe(s), Answer::Upload(x)) => {
                let o = s.admitted(env, x);
                assert(call_ensures(Completing::admitted, (&s, env, x), o));
                match o {
                    Ok(plan) => (Stage::CompleteReprobe(s), Ok(plan)),
                    Err(e) => (Stage::Closed, Err(e)),
                }
            },
            (Stage::CompleteReprobe(s), Answer::Upload(x)) => {
                let o = s.rechecked(env, x);
                assert(call_ensures(Completing::rechecked, (s, env, x), o));
                match o {
                    Ok((n, plan)) => (Stage::CompleteRefs(n), Ok(plan)),
                    Err(e) => (Stage::Closed, Err(e)),
                }
            },
            (Stage::CompleteRefs(s), Answer::PartRefs(x)) => {
                let o = s.assemble(env, x);
                assert(call_ensures(Assembling::assemble, (s, env, x), o));
                match o {
                    Ok((Some(n), plan)) => (Stage::Publishing(n), Ok(plan)),
                    Ok((None, plan)) => (Stage::Closed, Ok(plan)),
                    Err(e) => (Stage::Closed, Err(e)),
                }
            },
            (Stage::AbortProbe(s), Answer::Upload(x)) => {
                let o = s.admitted(env, x);
                assert(call_ensures(Aborting::admitted, (&s, env, x), o));
                match o {
                    Ok(plan) => (Stage::AbortRefs(s), Ok(plan)),
                    Err(e) => (Stage::Closed, Err(e)),
                }
            },
            (Stage::AbortRefs(s), Answer::PartRefs(x)) => {
                let o = s.remove(x);
                assert(call_ensures(Aborting::remove, (s, x), o));
                (Stage::Closed, Ok(o))
            },
            (Stage::PartsProbe(s), Answer::Upload(x)) => {
                let o = s.admitted(env, x);
                assert(call_ensures(PartsListing::admitted, (&s, env, x), o));
                match o {
                    Ok(plan) => (Stage::PartsRefs(s), Ok(plan)),
                    Err(e) => (Stage::Closed, Err(e)),
                }
            },
            (Stage::PartsRefs(s), Answer::PartRefs(x)) => {
                let o = s.read(x);
                assert(call_ensures(PartsListing::read, (s, x), o));
                match o {
                    Ok((n, plan)) => (Stage::PartsTimes(n), Ok(plan)),
                    Err(e) => (Stage::Closed, Err(e)),
                }
            },
            (Stage::PartsTimes(s), Answer::Times(x)) => {
                let o = s.times(x);
                assert(call_ensures(PartTimes::times, (s, x), o));
                (Stage::Closed, Ok(o))
            },
            (Stage::UploadsScan(s), Answer::UploadDirs(x)) => {
                let o = s.scanned(x);
                assert(call_ensures(UploadsListing::scanned, (s, x), o));
                match o {
                    Ok(plan) => (Stage::Closed, Ok(plan)),
                    Err(e) => (Stage::Closed, Err(e)),
                }
            },
            (Stage::CreatingBucket, Answer::Unit(x)) => {
                let o = bucket_created(env, x);
                assert(call_ensures(bucket_created, (env, x), o));
                match o {
                    Ok(plan) => (Stage::Closed, Ok(plan)),
                    Err(e) => (Stage::Closed, Err(e)),
                }
            },
            (Stage::EmptyWalk, Answer::Files(x)) => {
                let o = bucket_walked(x);
                assert(call_ensures(bucket_walked, (x,), o));
                match o {
                    Ok(plan) => (Stage::EmptyScan, Ok(plan)),
                    Err(e) => (Stage::Closed, Err(e)),
                }
            },
            (Stage::EmptyScan, Answer::UploadDirs(x)) => {
                let o = bucket_scanned(env, x);
                assert(call_ensures(bucket_scanned, (env, x), o));
                match o {
                    Ok(plan) => (Stage::Closed, Ok(plan)),
                    Err(e) => (Stage::Closed, Err(e)),
                }
            },
            (Stage::BucketsList, Answer::Entries(x)) => {
                let o = answer_listing(x);
                assert(call_ensures(answer_listing, (x,), o));
                match o {
                    Ok(plan) => (Stage::Closed, Ok(plan)),
                    Err(e) => (Stage::Closed, Err(e)),
                }
            },
            (Stage::Walking(s), Answer::Files(x)) => {
                let o = s.walked(x);
                assert(call_ensures(Browsing::walked, (s, x), o));
                match o {
                    Ok((Some(n), plan)) => (Stage::Filling(n), Ok(plan)),
                    Ok((None, plan)) => (Stage::Closed, Ok(plan)),
                    Err(e) => (Stage::Closed, Err(e)),
                }
            },
            (Stage::Filling(s), Answer::Manifest(x)) => {
                let o = s.read(x);
                assert(call_ensures(Filling::read, (s, x), o));
                match o {
                    (Some(n), plan) => (Stage::Filling(n), Ok(plan)),
                    (None, plan) => (Stage::Closed, Ok(plan)),
                }
            },
            (Stage::GcWalk, Answer::Files(x)) => {
                let o = Gathering::walked(x);
                assert(call_ensures(Gathering::walked, (x,), o));
                match o {
                    Ok((n, plan)) => (Stage::GcManifests(n), Ok(plan)),
                    Err(e) => (Stage::Closed, Err(e)),
                }
            },
            (Stage::GcManifests(s), Answer::Manifest(x)) => {
                if !(s.next < s.files.len()) {
                    return (Stage::Closed, Err(misplaced_error()));
                }
                let o = s.read(x);
                assert(call_ensures(Gathering::read, (s, x), o));
                match o {
                    Ok((n, plan)) => (Stage::GcManifests(n), Ok(plan)),
                    Err(e) => (Stage::Closed, Err(e)),
                }
            },
            (Stage::GcManifests(s), Answer::Entries(x)) => {
                if !(s.next >= s.files.len()) {
                    return (Stage::Closed, Err(misplaced_error()));
                }
                let o = GatheringParts::listed(s, x);
                assert(call_ensures(GatheringParts::listed, (s, x), o));
                (Stage::GcParts(o.0), Ok(o.1))
            },
            (Stage::GcParts(s), Answer::PartRefs(x)) => {
                if !(s.next < s.uploads.len()) {
                    return (Stage::Closed, Err(misplaced_error()));
                }
                let o = s.read(x);
                assert(call_ensures(GatheringParts::read, (s, x), o));
                (Stage::GcParts(o.0), Ok(o.1))
            },
            (Stage::GcParts(s), Answer::Files(x)) => {
                if !(s.next >= s.uploads.len()) {
                    return (Stage::Closed, Err(misplaced_error()));
                }
                let o = s.sweep(x);
                assert(call_ensures(GatheringParts::sweep, (s, x), o));
                match o {
                    Ok(plan) => (Stage::Closed, Ok(plan)),
                    Err(e) => (Stage::Closed, Err(e)),
                }
            },
            (Stage::ReapScan(s), Answer::UploadDirs(x)) => {
                let o = s.scanned(x);
                assert(call_ensures(Reaping::scanned, (s, x), o));
                match o {
                    Ok((n, plan)) => (Stage::ReapRefs(n), Ok(plan)),
                    Err(e) => (Stage::Closed, Err(e)),
                }
            },
            (Stage::ReapRefs(s), Answer::PartRefs(x)) => {
                let o = s.remove(x);
                assert(call_ensures(ReapingOne::remove, (s, x), o));
                (Stage::ReapRefs(o.0), Ok(o.1))
            },
            _ => (Stage::Closed, Err(misplaced_error())),
        }
    }
}

/// What a task is told.
#[derive(Debug)]
pub enum Reply {
    /// Begin.
    Start,
    /// How the call that was handed out has ended.
    Settled(Result<(), IoError>),
    /// The answer to the question that was handed out.
    Answered(Answer),
}

/// A request from its first step to its answer.
#[derive(Debug)]
pub struct Task {
    env: Env,
    stage: Stage,
    runner: Runner,
}

impl Task {
    pub closed spec fn env_of(&self) -> Env {
        self.env
    }

    pub closed spec fn stage_of(&self) -> Stage {
        self.stage
    }

    pub closed spec fn runner_of(&self) -> RunnerView {
        self.runner@
    }

    /// A task that begins with `plan`; the answer to the question that the plan ends with goes on
    /// at `stage`.
    pub fn new(env: Env, stage: Stage, plan: Plan) -> (r: Task)
        ensures
            r.env_of() == env,
            r.stage_of() == stage,
            r.runner_of() == started(plan@),
    {
        Task { env, stage, runner: Runner::new(plan) }
    }

    /// The bucket, the data root and the durability of the task.
    pub fn env(&self) -> (r: &Env)
        ensures
            *r == self.env_of(),
    {
        &self.env
    }

    /// Takes in how the last call or question went, and hands out the next one or the end of the
    /// task.
    pub fn resume(&mut self, reply: Reply) -> (r: Next)
        ensures
            final(self).env_of() == old(self).env_of(),
            match (old(self).runner_of().waiting, reply) {
                (Waiting::Nothing, Reply::Start) => {
                    &&& final(self).stage_of() == old(self).stage_of()
                    &&& (final(self).runner_of(), r@) == advanced(old(self).runner_of())
                },
                (Waiting::Result(_), Reply::Settled(result)) => {
                    &&& final(self).stage_of() == old(self).stage_of()
                    &&& (final(self).runner_of(), r@) == advanced(
                        settled(old(self).runner_of(), result),
                    )
                },
                (Waiting::Answer, Reply::Answered(answer)) => {
                    exists|turn: Turn| #[trigger]
                        follows(old(self).stage_of(), &old(self).env_of(), answer, turn)
                            && final(self).stage_of() == turn.0 && (
                        final(self).runner_of(),
                        r@,
                    ) == advanced(with_turn(old(self).runner_of(), turn))
                },
                (Waiting::Over, _) => {
                    &&& final(self).runner_of() == old(self).runner_of()
                    &&& r@ == NextView::Done(Err(misplaced()), old(self).runner_of().tallies)
                },
                _ => {
                    (final(self).runner_of(), r@) == advanced(
                        RunnerView { failure: Some(misplaced()), ..old(self).runner_of() },
                    )
                },
            },
    {
        match (self.runner.waiting(), reply) {
            (Waiting::Nothing, Reply::Start) => {},
            (Waiting::Result(_), Reply::Settled(result)) => {
                self.runner.settle(result);
            },
            (Waiting::Answer, Reply::Answered(answer)) => {
                let mut stage = Stage::Closed;
                std::mem::swap(&mut stage, &mut self.stage);
                let turn = stage.answer(&self.env, answer);
                assert(follows(old(self).stage_of(), &old(self).env_of(), answer, turn));
                self.stage = turn.0;
                match turn.1 {
                    Ok(plan) => {
                        self.runner.extend(plan);
                    },
                    Err(e) => {
                        self.runner.fail(e);
                    },
                }
            },
            (Waiting::Over, _) => {
                return Next::Done(Err(misplaced_error()), self.runner.tallies());
            },
            _ => {
                self.runner.fail(misplaced_error());
            },
        }
        self.runner.advance()
    }
}

/// A runner that goes on with a turn.
pub open spec fn with_turn(r: RunnerView, turn: Turn) -> RunnerView {
    match turn.1 {
        Ok(plan) => RunnerView { steps: r.steps + plan@, ..r },
        Err(e) => RunnerView { failure: Some(e), ..r },
    }
}

} // verus!
