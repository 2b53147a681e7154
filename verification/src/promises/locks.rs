//! What keeps requests apart, and what is checked before a request goes on.

use vstd::prelude::*;
use crate::blob::BlobInfo;
use crate::cas::complete::Completing;
use crate::cas::objects::{depth_of, part_checks, parts_ok, Deleting, Opening, PutBody, Reading};
use crate::cas::recovery::BucketSweep;
use crate::cas::store::{
    bucket_lock_shard, key_lock_shard, validate_object_path, CasStore, CommitIds, Env,
};
use crate::cas::uploads::{Aborting, PartStored, PartUpload};
use crate::manifest::{Manifest, ManifestPartView};
use crate::outside::is_canonical_uuid;
use crate::plan::call::{CallView, Entry, OutcomeView, QuestionView, Report, UploadProbe};
use crate::plan::place::{Place, PlaceView};
use crate::plan::runner::{must, OnError, Plan, Rule, StepView};

use crate::text::texts;
use crate::types::{IoError, IoErrorKind, StorageError};

verus! {

/// The step that takes the lock of a bucket.
pub open spec fn takes_bucket(shard: usize, exclusive: bool) -> StepView {
    StepView::Do { call: CallView::LockBucket { shard, exclusive }, rule: must(Report::Io) }
}

/// The step that takes the lock of a key.
pub open spec fn takes_key(shard: usize, exclusive: bool) -> StepView {
    StepView::Do { call: CallView::LockKey { shard, exclusive }, rule: must(Report::Io) }
}

/// The step that refuses a key whose directories lead out of the data root.
pub open spec fn stays_inside(key: Seq<char>) -> StepView {
    StepView::Do {
        call: CallView::CheckContained { at: Place::Manifest { key } },
        rule: must(Report::Given(StorageError::PathTraversal)),
    }
}

/// The step that refuses a missing bucket.
pub open spec fn finds_bucket() -> StepView {
    StepView::Do {
        call: CallView::CheckDir { at: Place::Bucket },
        rule: must(Report::NoBucket),
    }
}

/// The steps begin as those of every request that writes an object: the key is checked, the bucket
/// is kept from being removed but not from other writers, and only then it is looked for.
pub open spec fn writes_in_bucket(steps: Seq<StepView>, key: Seq<char>, shard: usize) -> bool {
    &&& steps.len() > 3
    &&& steps[0] == stays_inside(key)
    &&& steps[1] == takes_bucket(shard, false)
    &&& steps[2] == finds_bucket()
}

/// Writers of a bucket share its lock: puts, deletions and new uploads do not wait for each other,
/// only for the removal of the bucket.
pub proof fn writers_share_the_bucket(
    store: &CasStore,
    bucket: &str,
    key: &str,
    content_type: &str,
    user_metadata: Vec<(String, String)>,
    id: String,
    ids: CommitIds,
    now: i64,
    names: Result<(), StorageError>,
    shard: usize,
    put: (PutBody, Plan),
    delete: (Deleting, Plan),
    upload: Plan,
)
    requires
        call_ensures(validate_object_path, (bucket, key), names),
        names is Ok,
        call_ensures(bucket_lock_shard, (bucket,), shard),
        call_ensures(
            CasStore::put_object,
            (store, bucket, key, content_type, user_metadata, id, ids, now),
            put,
        ),
        call_ensures(CasStore::delete_object, (store, bucket, key, ids), delete),
        call_ensures(
            CasStore::create_multipart_upload,
            (store, bucket, key, content_type, user_metadata, id, now),
            upload,
        ),
    ensures
        writes_in_bucket(put.1@, key@, shard),
        writes_in_bucket(delete.1@, key@, shard),
        writes_in_bucket(upload@, key@, shard),
{
}

/// A part shares the bucket while its body arrives, and then has the key alone while its record is
/// looked at. An abort has the key alone before it reads the records.
pub proof fn uploads_keep_the_key(
    env: &Env,
    probe: UploadProbe,
    bucket: &str,
    part: PartUpload,
    part_key: &str,
    abort: &Aborting,
    abort_key: &str,
    shard: usize,
    part_shard: usize,
    abort_shard: usize,
    part_next: Result<Plan, StorageError>,
    abort_next: Result<Plan, StorageError>,
    info: BlobInfo,
    stored: Result<(PartStored, Plan), StorageError>,
)
    requires
        bucket@ == env.bucket@,
        part_key@ == part.key@,
        abort_key@ == abort.key@,
        call_ensures(bucket_lock_shard, (bucket,), shard),
        call_ensures(key_lock_shard, (bucket, part_key), part_shard),
        call_ensures(key_lock_shard, (bucket, abort_key), abort_shard),
        call_ensures(PartUpload::admitted, (&part, env, probe), part_next),
        call_ensures(PartUpload::streamed, (part, env, Ok::<BlobInfo, IoError>(info)), stored),
        call_ensures(Aborting::admitted, (abort, env, probe), abort_next),
    ensures
        part_next matches Ok(plan) ==> plan@.len() == 4 && plan@[0] == takes_bucket(shard, false)
            && plan@[1] == finds_bucket(),
        stored matches Ok(p) && p.1@ == seq![
            takes_key(part_shard, true),
            StepView::Ask { question: QuestionView::ProbeUpload { id: part.upload_id@ } },
        ],
        abort_next matches Ok(plan) ==> plan@ == seq![
            takes_key(abort_shard, true),
            StepView::Ask { question: QuestionView::ReadPartRefs { id: abort.upload_id@ } },
        ],
{
}

/// A completion checks the key first, whatever it claims. One that goes on shares the bucket, has
/// the key alone, and looks at the upload again.
pub proof fn completion_keeps_the_key(
    c: &Completing,
    env: &Env,
    probe: UploadProbe,
    bucket: &str,
    key: &str,
    shard: usize,
    key_shard: usize,
    r: Result<Plan, StorageError>,
)
    requires
        bucket@ == env.bucket@,
        key@ == c.key@,
        call_ensures(bucket_lock_shard, (bucket,), shard),
        call_ensures(key_lock_shard, (bucket, key), key_shard),
        call_ensures(Completing::admitted, (c, env, probe), r),
        r is Ok,
    ensures
        r->Ok_0@[0] == stays_inside(c.key@),
        (forall|i: int| 0 <= i < r->Ok_0@.len() ==> !(#[trigger] r->Ok_0@[i] is Fail))
            ==> r->Ok_0@ == seq![
            stays_inside(c.key@),
            takes_bucket(shard, false),
            finds_bucket(),
            takes_key(key_shard, true),
            StepView::Ask { question: QuestionView::ProbeUpload { id: c.upload_id@ } },
        ],
{
    if r->Ok_0@.len() == 2 {
        assert(r->Ok_0@[1] is Fail);
    }
}

/// The step that finds an object missing where its file is reached through a link.
pub open spec fn is_reached_directly(at: PlaceView) -> StepView {
    StepView::Do {
        call: CallView::CheckBeneath { at },
        rule: must(Report::Given(StorageError::ObjectNotFound)),
    }
}

proof fn lemma_checks(parts: Seq<ManifestPartView>, i: int)
    requires
        parts_ok(parts),
        0 <= i < parts.len(),
    ensures
        part_checks(parts).contains(is_reached_directly(Place::Blob { id: parts[i].blob_id })),
    decreases parts.len(),
{
    let step = is_reached_directly(Place::Blob { id: parts[i].blob_id });
    let all = part_checks(parts);
    if i == 0 {
        assert(all[0] == step);
    } else {
        let rest = parts.skip(1);
        assert forall|k: int| 0 <= k < rest.len() implies is_canonical_uuid(
            (#[trigger] rest[k]).blob_id,
        ) by {
            assert(rest[k] == parts[k + 1]);
        }
        assert(rest[i - 1] == parts[i]);
        lemma_checks(rest, i - 1);
        let k = part_checks(rest).index_of(step);
        assert(all[k + 1] == step);
    }
}

/// An object whose manifest or blob is reached through a link is not there.
pub proof fn linked_objects_are_not_found(
    store: &CasStore,
    bucket: &str,
    key: &str,
    header: Option<&str>,
    names: Result<(), StorageError>,
    get: (Reading, Plan),
    head: Plan,
    env: &Env,
    m: Manifest,
    i: int,
    read: Result<(Option<Opening>, Plan), StorageError>,
)
    requires
        call_ensures(validate_object_path, (bucket, key), names),
        names is Ok,
        call_ensures(CasStore::get_object, (store, bucket, key, header), get),
        call_ensures(CasStore::head_object, (store, bucket, key), head),
        call_ensures(Reading::found, (get.0, env, Ok::<Manifest, IoError>(m)), read),
        forall|k: int|
            0 <= k < m.parts@.len() ==> is_canonical_uuid((#[trigger] m.parts@[k]).blob_id@),
        0 <= i < m.parts@.len(),
    ensures
        get.1@[0] == is_reached_directly(Place::Manifest { key: key@ }),
        head@[0] == is_reached_directly(Place::Manifest { key: key@ }),
        read matches Ok(p) ==> p.1@.contains(
            is_reached_directly(Place::Blob { id: m.parts@[i].blob_id@ }),
        ),
{
    assert forall|k: int| 0 <= k < m@.parts.len() implies is_canonical_uuid(
        (#[trigger] m@.parts[k]).blob_id,
    ) by {
        assert(m@.parts[k] == m.parts@[k]@);
    }
    if read is Ok {
        lemma_checks(m@.parts, i);
        assert(m@.parts[i] == m.parts@[i]@);
        let step = is_reached_directly(Place::Blob { id: m.parts@[i].blob_id@ });
        let k = part_checks(m@.parts).index_of(step);
        assert(read->Ok_0.1@[k] == step);
    }
}

/// The deletion of a key that has no object succeeds. Where it has to be durable, so is an earlier
/// one: the directory that held the manifest is synced, if it is there.
pub proof fn absent_object_is_deleted(
    x: Deleting,
    env: &Env,
    e: IoError,
    key: &str,
    depth: usize,
    r: Result<Plan, StorageError>,
)
    requires
        call_ensures(Deleting::commit, (x, env, Err::<Manifest, IoError>(e)), r),
        key@ == x.key@,
        call_ensures(depth_of, (key,), depth),
    ensures
        e.kind != IoErrorKind::NotFound ==> r == Err::<Plan, StorageError>(StorageError::Io(e)),
        e.kind == IoErrorKind::NotFound ==> {
            let end = StepView::Finish { outcome: OutcomeView::Nothing };
            r matches Ok(plan) && plan@ == (if env.fsync {
                seq![
                    StepView::Do {
                        call: CallView::SyncDir { at: Place::KeyDir { key: x.key@, depth } },
                        rule: Rule {
                            count: None,
                            missing_ok: true,
                            on_error: OnError::Fail(Report::Io),
                            if_clean: false,
                        },
                    },
                    end,
                ]
            } else {
                seq![end]
            })
        },
{
}

/// A data root that is not there has no buckets to sweep; one that cannot be read fails the sweep.
pub proof fn missing_root_has_no_buckets(
    store: &CasStore,
    e: IoError,
    recovery: BucketSweep,
    reaping: BucketSweep,
)
    requires
        call_ensures(
            CasStore::recover,
            (store, Err::<Vec<Result<Entry, IoError>>, IoError>(e)),
            recovery,
        ),
        call_ensures(
            CasStore::gc_abandoned_uploads,
            (store, Err::<Vec<Result<Entry, IoError>>, IoError>(e)),
            reaping,
        ),
    ensures
        recovery.buckets@.len() == 0 && reaping.buckets@.len() == 0,
        recovery.failure == reaping.failure,
        e.kind == IoErrorKind::NotFound ==> recovery.failure is None,
        e.kind != IoErrorKind::NotFound ==> recovery.failure == Some(StorageError::Io(e)),
{
    assert(texts(recovery.buckets@).len() == recovery.buckets@.len());
    assert(texts(reaping.buckets@).len() == reaping.buckets@.len());
}

} // verus!
