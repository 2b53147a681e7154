//! Tasks: what an answer leads to.

use vstd::prelude::*;
use crate::cas::buckets::answer_listing;
use crate::cas::complete::{Assembling, Completing};
use crate::cas::gc::{upload_candidates, Gathering, GatheringParts};
use crate::cas::recovery::{Applying, Sweeping};
use crate::cas::store::{validate_bucket_component, CasStore, Env};
use crate::cas::task::{Stage, Turn};
use crate::filesystem::store::Filesystem;
use crate::plan::call::{
    Answer, CallView, Entry, EntryKind, OutcomeView, QuestionView, Report, UploadProbe,
};
use crate::plan::place::Place;
use crate::plan::runner::{must, Plan, StepView};
use crate::promises::buckets::{is_bucket, is_bucket_of, lemma_bucket_list};
use crate::promises::sweeps::has_text_in;
use crate::promises::uploads::{belongs, is_no_upload, less};
use crate::text::texts;
use crate::types::{BucketInfoView, IoError, IoErrorKind, StorageError};

verus! {

/// An answer leads from one stage of a request to the next, with what the request carries. Where
/// the request cannot go on it is over, and an answer that does not fit the stage ends it.
pub proof fn answers_lead_from_stage_to_stage(stage: Stage, env: &Env, answer: Answer, turn: Turn)
    requires
        call_ensures(Stage::answer, (stage, env, answer), turn),
    ensures
        turn.1 is Err ==> turn.0 is Closed,
        stage is PutBody && answer is Blob ==> (turn.1 is Ok <==> answer->Blob_0 is Ok) && (
        turn.1 is Ok ==> turn.0 is Publishing),
        stage is Publishing && answer is Manifest ==> turn.0 is Closed,
        stage is Deleting && answer is Manifest ==> turn.0 is Closed,
        stage is Heading && answer is Manifest ==> turn.0 is Closed,
        stage is Reading && answer is Manifest ==> turn.0 is Opening || turn.0 is Closed,
        stage is Opening && answer is Opened ==> turn.0 is Closed,
        stage is PartProbe && answer is Upload && turn.1 is Ok ==> turn.0 == Stage::PartBody(
            stage->PartProbe_0,
        ),
        stage is PartBody && answer is Blob && turn.1 is Ok ==> (turn.0 matches Stage::PartReprobe(s)
            && s.part == stage->PartBody_0),
        stage is PartReprobe && answer is Upload && turn.1 is Ok ==> turn.0 == Stage::PartPrevious(
            stage->PartReprobe_0,
        ),
        stage is PartPrevious && answer is PartRef ==> turn.1 is Ok && (if env.fsync {
            turn.0 is PartSync
        } else {
            turn.0 is Closed
        }),
        stage is PartSync && answer is Unit ==> turn.1 is Ok && turn.0 is Closed,
        stage is CompleteProbe && answer is Upload && turn.1 is Ok ==> turn.0
            == Stage::CompleteReprobe(stage->CompleteProbe_0),
        stage is CompleteReprobe && answer is Upload && turn.1 is Ok ==> (
        turn.0 matches Stage::CompleteRefs(a) && a.claims == stage->CompleteReprobe_0.claims && a.ids
            == stage->CompleteReprobe_0.ids && a.now == stage->CompleteReprobe_0.now),
        stage is CompleteRefs && answer is PartRefs ==> turn.0 is Publishing || turn.0 is Closed,
        stage is AbortProbe && answer is Upload && turn.1 is Ok ==> turn.0 == Stage::AbortRefs(
            stage->AbortProbe_0,
        ),
        stage is AbortRefs && answer is PartRefs ==> turn.1 is Ok && turn.0 is Closed,
        stage is PartsProbe && answer is Upload && turn.1 is Ok ==> turn.0 == Stage::PartsRefs(
            stage->PartsProbe_0,
        ),
        stage is PartsRefs && answer is PartRefs && turn.1 is Ok ==> turn.0 is PartsTimes,
        stage is PartsTimes && answer is Times ==> turn.1 is Ok && turn.0 is Closed,
        stage is UploadsScan && answer is UploadDirs ==> turn.0 is Closed,
        stage is CreatingBucket && answer is Unit ==> turn.0 is Closed,
        stage is EmptyWalk && answer is Files && turn.1 is Ok ==> turn.0 is EmptyScan,
        stage is EmptyScan && answer is UploadDirs ==> turn.0 is Closed,
        stage is BucketsList && answer is Entries ==> turn.0 is Closed,
        stage is Walking && answer is Files ==> turn.0 is Filling || turn.0 is Closed,
        stage is Filling && answer is Manifest ==> turn.1 is Ok && (turn.0 is Filling || turn.0
            is Closed),
        stage is SweepArriving && answer is Entries && turn.1 is Ok ==> turn.0 is SweepDeleted,
        stage is Closed ==> (turn.1 matches Err(StorageError::Io(e)) && e.kind
            == IoErrorKind::InvalidData),
{
}

/// A completion whose upload was looked at again reads the part records of that upload, and carries
/// the record of the upload that was found.
pub proof fn completion_reads_its_parts(
    c: Completing,
    env: &Env,
    probe: UploadProbe,
    r: Result<(Assembling, Plan), StorageError>,
)
    requires
        call_ensures(Completing::rechecked, (c, env, probe), r),
    ensures
        r is Ok <==> belongs(probe, env.bucket@, c.key@, false),
        r is Err && is_no_upload(probe, false) ==> r->Err_0 == StorageError::NoSuchUpload,
        r matches Ok((a, plan)) ==> a.upload@ == probe.upload->Ok_0@ && a.upload_id == c.upload_id
            && a.claims == c.claims && a.ids == c.ids && a.now == c.now && plan@ == seq![
            StepView::Ask { question: QuestionView::ReadPartRefs { id: c.upload_id@ } },
        ],
{
}

/// The list of buckets is answered as it was made.
pub proof fn buckets_are_answered_by_name(
    entries: Vec<Result<Entry, IoError>>,
    r: Result<Plan, StorageError>,
)
    requires
        call_ensures(answer_listing, (Ok::<Vec<Result<Entry, IoError>>, IoError>(entries),), r),
        forall|i: int| 0 <= i < entries@.len() ==> #[trigger] entries@[i] is Ok,
    ensures
        r matches Ok(plan) && plan@.len() == 1 && (plan@[0] matches StepView::Finish {
            outcome: OutcomeView::Buckets { buckets },
        } && buckets.len() <= entries@.len() && (forall|k: int|
            0 <= k < buckets.len() ==> is_bucket_of(entries@, #[trigger] buckets[k])) && (forall|
            i: int,
        |
            0 <= i < entries@.len() && is_bucket(#[trigger] entries@[i]) ==> buckets.contains(
                BucketInfoView {
                    name: entries@[i]->Ok_0.name@,
                    creation_unix: entries@[i]->Ok_0.mtime,
                },
            )) && forall|i: int, j: int|
            0 <= i < j < buckets.len() ==> !less(
                (#[trigger] buckets[j]).name,
                (#[trigger] buckets[i]).name,
            )),
{
    broadcast use vstd::seq_lib::group_to_multiset_ensures;

    lemma_bucket_list(entries@);
    let all = crate::cas::buckets::bucket_list(entries@);
    let plan = r->Ok_0;
    let b = choose|b: Seq<BucketInfoView>|
        #[trigger] crate::cas::buckets::is_ordered_buckets(b, all) && plan@ == seq![
            StepView::Finish { outcome: OutcomeView::Buckets { buckets: b } },
        ];
    assert(plan@[0] == (StepView::Finish { outcome: OutcomeView::Buckets { buckets: b } }));
    assert(b.to_multiset().len() == b.len());
    assert(all.to_multiset().len() == all.len());
    assert forall|x: BucketInfoView| b.contains(x) <==> all.contains(x) by {
        assert(b.to_multiset().count(x) == all.to_multiset().count(x));
        assert(b.contains(x) <==> b.to_multiset().count(x) > 0);
        assert(all.contains(x) <==> all.to_multiset().count(x) > 0);
    }
    assert forall|k: int| 0 <= k < b.len() implies is_bucket_of(entries@, #[trigger] b[k]) by {
        assert(b.contains(b[k]));
        assert(all.contains(b[k]));
    }
    crate::sorting::lemma_in_text_order(crate::cas::buckets::info_names(all));
    assert forall|i: int, j: int| 0 <= i < j < b.len() implies !less(
        (#[trigger] b[j]).name,
        (#[trigger] b[i]).name,
    ) by {
        let ns = crate::cas::buckets::info_names(b);
        assert(ns[i] == b[i].name && ns[j] == b[j].name);
        assert(!crate::text::text_before(ns[j], ns[i]));
        crate::promises::listing::lemma_less_at(
            vstd::utf8::encode_utf8(b[j].name),
            vstd::utf8::encode_utf8(b[i].name),
        );
    }
}

/// How the sweeps of a bucket begin. The sweep for blobs looks for the bucket and walks its
/// manifests; a recovery lists the upload area, and only a recovery goes on to the journals.
pub proof fn sweeps_begin_with_a_look(
    store: &CasStore,
    bucket: &str,
    journal: &str,
    name: Result<(), StorageError>,
    blobs: Plan,
    cleanup: (Sweeping, Plan),
    recovery: (Sweeping, Plan),
    one: (Option<Applying>, Plan),
)
    requires
        call_ensures(validate_bucket_component, (bucket,), name),
        call_ensures(CasStore::gc_orphan_blobs, (store, bucket), blobs),
        call_ensures(CasStore::cleanup_arriving, (store,), cleanup),
        call_ensures(CasStore::recover_bucket, (store,), recovery),
        call_ensures(CasStore::apply_journal, (store, journal), one),
    ensures
        name is Err ==> blobs@ == seq![StepView::Fail { error: StorageError::PathTraversal }],
        name is Ok ==> blobs@ == seq![
            StepView::Do {
                call: CallView::CheckDir { at: Place::Bucket },
                rule: must(Report::NoBucket),
            },
            StepView::Ask {
                question: QuestionView::Walk { at: Place::Current, instead: Place::Current },
            },
        ],
        !cleanup.0.journals,
        recovery.0.journals,
        cleanup.1@ == seq![StepView::Ask { question: QuestionView::List { at: Place::Arriving } }],
        recovery.1@ == cleanup.1@,
        one.0 matches Some(a) && a.name@ == journal@ && a.next == 1 && a.names@.len() == 1,
        one.1@ == seq![
            StepView::Ask {
                question: QuestionView::ReadJournal { at: Place::Journal { name: journal@ } },
            },
        ],
{
    if let Some(a) = one.0 {
        assert(texts(a.names@).len() == a.names@.len());
    }
}

/// An entry of the upload area that may be an upload: a directory, or something whose kind could
/// not be read.
pub open spec fn may_be_upload(entry: Result<Entry, IoError>) -> bool {
    entry matches Ok(e) && (e.kind is None || e.kind == Some(EntryKind::Directory))
}

proof fn lemma_candidates(entries: Seq<Result<Entry, IoError>>, i: int)
    requires
        0 <= i < entries.len(),
        may_be_upload(entries[i]),
    ensures
        upload_candidates(entries).contains(entries[i]->Ok_0.name@),
    decreases entries.len(),
{
    let front = entries.drop_last();
    let all = upload_candidates(entries);
    let name = entries[i]->Ok_0.name@;
    if i < front.len() {
        lemma_candidates(front, i);
        let k = upload_candidates(front).index_of(name);
        assert(all[k] == name);
    } else {
        assert(all[all.len() - 1] == name);
    }
}

/// A sweep for blobs looks at everything in the upload area that may be an upload, keeps what it
/// remembers, and does not go on where the area cannot be listed.
pub proof fn every_upload_is_gathered(
    g: Gathering,
    entries: Vec<Result<Entry, IoError>>,
    r: (GatheringParts, Plan),
    i: int,
)
    requires
        call_ensures(
            GatheringParts::listed,
            (g, Ok::<Vec<Result<Entry, IoError>>, IoError>(entries)),
            r,
        ),
    ensures
        r.0.referenced == g.referenced,
        r.0.next == 0,
        0 <= i < entries@.len() && may_be_upload(entries@[i]) ==> has_text_in(
            r.0.uploads@,
            entries@[i]->Ok_0.name@,
        ),
        0 <= i < entries@.len() && entries@[i] is Err ==> r.1@.len() == 1 && r.1@[0] is Fail,
{
    if 0 <= i < entries@.len() && may_be_upload(entries@[i]) {
        lemma_candidates(entries@, i);
        let name = entries@[i]->Ok_0.name@;
        let k = texts(r.0.uploads@).index_of(name);
        assert(r.0.uploads@[k]@ == name);
    }
    if 0 <= i < entries@.len() && entries@[i] is Err {
        crate::promises::buckets::lemma_first_error(entries@, i);
    }
}

/// An upload area that is not there has no uploads; one that cannot be listed ends the sweep.
pub proof fn unlisted_uploads_end_the_sweep(g: Gathering, e: IoError, r: (GatheringParts, Plan))
    requires
        call_ensures(
            GatheringParts::listed,
            (g, Err::<Vec<Result<Entry, IoError>>, IoError>(e)),
            r,
        ),
    ensures
        e.kind == IoErrorKind::NotFound ==> r.0.uploads@.len() == 0 && r.1@ == seq![
            StepView::Ask {
                question: QuestionView::Walk { at: Place::Blobs, instead: Place::Blobs },
            },
        ],
        e.kind != IoErrorKind::NotFound ==> r.1@ == seq![
            StepView::Fail { error: StorageError::Io(e) },
        ],
{
    assert(texts(r.0.uploads@).len() == r.0.uploads@.len());
}

/// A store works below the root it was given, with the durability it was given, and in the bucket
/// of the request. Where nothing is said it makes its commits durable.
pub proof fn store_keeps_its_settings(
    root: &str,
    fsync: bool,
    bucket: &str,
    store: CasStore,
    durable: CasStore,
    plain: Filesystem,
    env: Env,
    durable_env: Env,
    plain_env: Env,
    shown: &str,
)
    requires
        call_ensures(CasStore::with_fsync, (root, fsync), store),
        call_ensures(CasStore::new, (root,), durable),
        call_ensures(Filesystem::new, (root,), plain),
        call_ensures(CasStore::env, (&store, bucket), env),
        call_ensures(CasStore::env, (&durable, bucket), durable_env),
        call_ensures(Filesystem::env, (&plain, bucket), plain_env),
        call_ensures(CasStore::root, (&store,), shown),
    ensures
        env.root@ == root@ && env.bucket@ == bucket@ && env.fsync == fsync,
        durable_env.root@ == root@ && durable_env.bucket@ == bucket@ && durable_env.fsync,
        plain_env.root@ == root@ && plain_env.bucket@ == bucket@ && !plain_env.fsync,
        shown@ == root@,
{
}

} // verus!
