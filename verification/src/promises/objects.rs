//! Objects: what is stored of one that is put, and what is answered of one that is stored.

use vstd::prelude::*;
use crate::blob::{blob_path, BlobInfo};
use crate::cas::objects::{
    commit_steps, delete_steps, dir_sync_steps, head_answer, part_checks, parts_ok, put_steps,
    stage_steps, Deleting, Opening, Publishing, PutBody, Reading,
};
use crate::cas::records::{JournalMode, JournalView};
use crate::cas::store::{
    default_type, journal_steps, key_depth, key_lock_shard, reclaim_rule, reclaim_steps,
    validate_object_path, CasStore, CommitIds, Env,
};
use crate::manifest::{Manifest, ManifestPartView, ManifestView};
use crate::metadata::{ObjectMetadata, ObjectMetadataView};
use crate::outside::is_canonical_uuid;
use crate::path::join_path;
use crate::plan::call::{CallView, OutcomeView, QuestionView, Report};
use crate::plan::place::Place;
use crate::plan::runner::{must, OnError, Plan, Rule, StepView};
use crate::promises::claims::stages;
use crate::reader::{parse_range, ByteRange};
use crate::types::{copy_pairs, pairs, BodySourceView, IoError, IoErrorKind, StorageError};

verus! {

/// A content type that is given is stored as it is. One that is not given is that of plain bytes.
pub proof fn content_type_is_kept(content_type: &str, r: String)
    requires
        call_ensures(default_type, (content_type,), r),
    ensures
        content_type@.len() > 0 ==> r@ == content_type@,
        content_type@.len() == 0 ==> r@ == "application/octet-stream"@,
{
}

/// A copy of the metadata has the same names and values in the same order.
pub proof fn metadata_is_copied(given: &Vec<(String, String)>, r: Vec<(String, String)>)
    requires
        call_ensures(copy_pairs, (given,), r),
    ensures
        r@.len() == given@.len(),
        forall|i: int|
            0 <= i < r@.len() ==> (#[trigger] r@[i]).0@ == given@[i].0@ && r@[i].1@
                == given@[i].1@,
{
    assert(pairs(r@).len() == pairs(given@).len());
    assert forall|i: int| 0 <= i < r@.len() implies (#[trigger] r@[i]).0@ == given@[i].0@
        && r@[i].1@ == given@[i].1@ by {
        assert(pairs(r@)[i] == pairs(given@)[i]);
    }
}

/// The version that a put makes of a body with this length and this digest.
pub open spec fn is_put_version(
    key: Seq<char>,
    content_type: Seq<char>,
    user_metadata: Seq<(Seq<char>, Seq<char>)>,
    blob_id: Seq<char>,
    nonce: Seq<char>,
    now: i64,
    info: BlobInfo,
    m: ManifestView,
) -> bool {
    &&& m.key == key
    &&& content_type.len() > 0 ==> m.content_type == content_type
    &&& content_type.len() == 0 ==> m.content_type == "application/octet-stream"@
    &&& m.content_length == info.size
    &&& m.etag == seq!['"'] + info.md5_hex@ + seq!['"']
    &&& m.last_modified == now
    &&& m.created == now
    &&& m.user_metadata == user_metadata
    &&& m.content_disposition.len() == 0
    &&& m.content_encoding.len() == 0
    &&& m.cache_control.len() == 0
    &&& m.commit_nonce == nonce
    &&& m.parts.len() == 1
    &&& m.parts[0].part_number == 1
    &&& m.parts[0].blob_id == blob_id
    &&& m.parts[0].size == info.size
    &&& m.parts[0].md5_hex == info.md5_hex@
}

/// Putting an object stages a version with its key, its type, its metadata, the length and the
/// digest of its body and the time of the request, and answers with the quoted digest.
pub proof fn put_stages_its_version(
    store: &CasStore,
    bucket: &str,
    key: &str,
    content_type: &str,
    user_metadata: Vec<(String, String)>,
    blob_id: String,
    ids: CommitIds,
    now: i64,
    opened: (PutBody, Plan),
    env: &Env,
    info: BlobInfo,
    r: Result<(Publishing, Plan), StorageError>,
)
    requires
        call_ensures(
            CasStore::put_object,
            (store, bucket, key, content_type, user_metadata, blob_id, ids, now),
            opened,
        ),
        call_ensures(PutBody::streamed, (opened.0, env, Ok::<BlobInfo, IoError>(info)), r),
    ensures
        r matches Ok((publishing, plan)) && publishing.key@ == key@ && publishing.ids == ids
            && publishing.etag@ == seq!['"'] + info.md5_hex@ + seq!['"'] && publishing.after@ == seq![
            StepView::Finish {
                outcome: OutcomeView::Etag { etag: seq!['"'] + info.md5_hex@ + seq!['"'] },
            },
        ] && exists|m: ManifestView|
            #![trigger stages(plan@, ids.staged@, m, env.fsync)]
            is_put_version(
                key@,
                content_type@,
                pairs(user_metadata@),
                blob_id@,
                ids.nonce@,
                now,
                info,
                m,
            ) && stages(plan@, ids.staged@, m, env.fsync),
{
    let put = opened.0;
    let m = crate::cas::objects::put_manifest(put, info.size, info.md5_hex@);
    let plan = r->Ok_0.1;
    let back = stage_steps(m, ids.staged_name(), env.fsync);
    let steps = put_steps(env.bucket@, blob_id@, m, ids.staged_name(), env.fsync);
    assert(plan@ == steps);
    assert(steps[steps.len() - 3] == back[0]);
    assert(stages(plan@, ids.staged@, m, env.fsync));
}

/// A body that could not be written: a broken framing is the client's fault, any other failure is
/// reported as it is.
pub proof fn put_reports_a_broken_body(
    put: PutBody,
    env: &Env,
    e: IoError,
    r: Result<(Publishing, Plan), StorageError>,
)
    requires
        call_ensures(PutBody::streamed, (put, env, Err::<BlobInfo, IoError>(e)), r),
    ensures
        e.kind == IoErrorKind::InvalidData ==> r == Err::<(Publishing, Plan), StorageError>(
            StorageError::IncompleteBody,
        ),
        e.kind != IoErrorKind::InvalidData ==> r == Err::<(Publishing, Plan), StorageError>(
            StorageError::Io(e),
        ),
{
}

/// The headers of a version.
pub open spec fn describes(h: ObjectMetadataView, m: ManifestView) -> bool {
    &&& h.content_type == m.content_type
    &&& m.content_length <= i64::MAX ==> h.content_length == m.content_length
    &&& h.etag == m.etag
    &&& h.last_modified == m.last_modified
    &&& h.user_metadata == m.user_metadata
    &&& h.content_disposition == m.content_disposition
    &&& h.content_encoding == m.content_encoding
    &&& h.cache_control == m.cache_control
    &&& h.multipart is Some <==> m.parts.len() > 1
    &&& h.multipart matches Some(parts) ==> parts.len() == m.parts.len() && forall|i: int|
        0 <= i < parts.len() ==> (m.parts[i].part_number <= i32::MAX ==> (
        #[trigger] parts[i]).part_number == m.parts[i].part_number) && parts[i].path
            == m.parts[i].blob_id && parts[i].size == m.parts[i].size && parts[i].md5_hex
            == m.parts[i].md5_hex
}

/// The headers that are made of a version say what it says.
pub proof fn headers_describe_the_version(m: &Manifest, r: ObjectMetadata)
    requires
        call_ensures(Manifest::to_object_metadata, (m,), r),
    ensures
        describes(r@, m@),
{
}

/// The blobs of a version are those of its parts, in their order.
pub proof fn blobs_are_those_of_the_parts(m: &Manifest, r: Vec<String>)
    requires
        call_ensures(Manifest::blob_ids, (m,), r),
    ensures
        r@.len() == m.parts@.len(),
        forall|i: int| 0 <= i < r@.len() ==> (#[trigger] r@[i])@ == m.parts@[i].blob_id@,
{
    assert(crate::text::texts(r@).len() == m@.blobs().len());
    assert forall|i: int| 0 <= i < r@.len() implies (#[trigger] r@[i])@ == m.parts@[i].blob_id@ by {
        assert(crate::text::texts(r@)[i] == m@.blobs()[i]);
    }
}

/// A request for headers is answered with those of the live version, and with nothing else where
/// there is none: a missing bucket is reported before a missing object, and a manifest that cannot
/// be read is no missing object.
pub proof fn head_describes_the_live_version(
    live: Result<Manifest, IoError>,
    r: Result<Plan, StorageError>,
)
    requires
        call_ensures(head_answer, (live,), r),
    ensures
        live matches Ok(m) ==> (r matches Ok(plan) && plan@.len() == 1 && (
        plan@[0] matches StepView::Finish { outcome: OutcomeView::Headers { metadata } }
            && describes(metadata, m@))),
        live matches Err(e) ==> (if e.kind == IoErrorKind::NotFound {
            r matches Ok(plan) && plan@ == seq![
                StepView::Do {
                    call: CallView::CheckDir { at: Place::Bucket },
                    rule: must(Report::NoBucket),
                },
                StepView::Fail { error: StorageError::ObjectNotFound },
            ]
        } else {
            r == Err::<Plan, StorageError>(StorageError::Io(e))
        }),
{
}

/// What a read is answered with.
pub open spec fn answers_object(step: StepView, m: ManifestView, range: Option<ByteRange>) -> bool {
    step matches StepView::Finish { outcome: OutcomeView::Object { object } } && describes(
        object.metadata,
        m,
    ) && object.resolved_range == range && object.total_size == m.content_length
}

/// The body of the answer.
pub open spec fn answered_body(step: StepView) -> BodySourceView {
    step->outcome->object.body
}

/// A read of an object asks for the whole of it where it has no range header. Where it has one, the
/// range is what the header says of the length of the object, and a range outside it is refused
/// with that length. An object with one blob has that blob opened.
pub proof fn read_takes_the_range_of_its_header(
    reading: Reading,
    env: &Env,
    m: Manifest,
    header: &str,
    wanted: Result<Option<ByteRange>, ()>,
    r: Result<(Option<Opening>, Plan), StorageError>,
)
    requires
        call_ensures(Reading::found, (reading, env, Ok::<Manifest, IoError>(m)), r),
        call_ensures(parse_range, (header, m.content_length), wanted),
        reading.range_header matches Some(h) ==> h@ == header@,
        forall|i: int| 0 <= i < m.parts@.len() ==> is_canonical_uuid((#[trigger] m.parts@[i]).blob_id@),
    ensures
        reading.range_header is Some && wanted is Err ==> r == Err::<
            (Option<Opening>, Plan),
            StorageError,
        >(StorageError::RangeNotSatisfiable { size: m.content_length }),
        reading.range_header is None || wanted is Ok ==> (r matches Ok((next, plan)) && ({
            let range = if reading.range_header is None {
                None
            } else {
                wanted->Ok_0
            };
            &&& next is Some <==> m.parts@.len() == 1
            &&& next matches Some(o) ==> o.manifest == m && o.range == range && o.blob_id@
                == m.parts@[0].blob_id@ && plan@.last() == (StepView::Ask {
                question: QuestionView::OpenFile { at: Place::Blob { id: m.parts@[0].blob_id@ } },
            })
            &&& next is None ==> answers_object(plan@.last(), m@, range)
        })),
{
    assert forall|i: int| 0 <= i < m@.parts.len() implies is_canonical_uuid(
        (#[trigger] m@.parts[i]).blob_id,
    ) by {
        assert(m@.parts[i] == m.parts@[i]@);
    }
    assert(parts_ok(m@.parts));
}

/// The parts of an object that has several are read in the order of the version, each from the file
/// of its blob.
pub proof fn parts_are_read_from_their_blobs(
    reading: Reading,
    env: &Env,
    m: Manifest,
    r: Result<(Option<Opening>, Plan), StorageError>,
    i: int,
    root: &str,
    bucket: &str,
    joined: String,
    base: &str,
    id: &str,
    path: String,
)
    requires
        call_ensures(Reading::found, (reading, env, Ok::<Manifest, IoError>(m)), r),
        r matches Ok((None, plan)) && plan@.last() is Finish,
        0 <= i < m.parts@.len(),
        id@ == m.parts@[i].blob_id@,
        root@ == env.root@,
        bucket@ == env.bucket@,
        call_ensures(join_path, (root, bucket), joined),
        base@ == joined@,
        call_ensures(blob_path, (base, id), path),
    ensures
        answered_body(r->Ok_0.1@.last()) matches BodySourceView::Parts { parts } && parts.len()
            == m.parts@.len() && parts[i].path == path@ && parts[i].size == m.parts@[i].size
            && parts[i].part_number == m.parts@[i].part_number as i32 && parts[i].md5_hex
            == m.parts@[i].md5_hex@,
{
    assert(m@.parts[i] == m.parts@[i]@);
    let plan = r->Ok_0.1;
    lemma_checks_never_finish(m@.parts);
    if !parts_ok(m@.parts) {
        assert(plan@ == part_checks(m@.parts));
        assert(plan@[plan@.len() - 1] is Finish);
    }
}

proof fn lemma_checks_never_finish(parts: Seq<ManifestPartView>)
    ensures
        forall|i: int|
            0 <= i < part_checks(parts).len() ==> !(#[trigger] part_checks(parts)[i] is Finish),
    decreases parts.len(),
{
    if parts.len() > 0 && is_canonical_uuid(parts[0].blob_id) {
        lemma_checks_never_finish(parts.skip(1));
        let rest = part_checks(parts.skip(1));
        let all = part_checks(parts);
        assert forall|i: int| 0 <= i < all.len() implies !(#[trigger] all[i] is Finish) by {
            if i > 0 {
                assert(all[i] == rest[i - 1]);
            }
        }
    }
}

/// A version that names no proper blob is not read: the read fails, and nothing is answered.
pub proof fn improper_blobs_are_not_read(
    reading: Reading,
    env: &Env,
    m: Manifest,
    r: Result<(Option<Opening>, Plan), StorageError>,
    k: int,
)
    requires
        call_ensures(Reading::found, (reading, env, Ok::<Manifest, IoError>(m)), r),
        r is Ok,
        0 <= k < m.parts@.len(),
        !is_canonical_uuid(m.parts@[k].blob_id@),
    ensures
        r->Ok_0.0 is None,
        forall|i: int| 0 <= i < r->Ok_0.1@.len() ==> !(#[trigger] r->Ok_0.1@[i] is Finish),
{
    assert(m@.parts[k] == m.parts@[k]@);
    assert(!parts_ok(m@.parts));
    lemma_checks_never_finish(m@.parts);
}

/// An object that is not there: a missing bucket is reported first, and only then the missing
/// object. A manifest that cannot be read is reported as that.
pub proof fn missing_object_is_reported(
    reading: Reading,
    env: &Env,
    e: IoError,
    r: Result<(Option<Opening>, Plan), StorageError>,
)
    requires
        call_ensures(Reading::found, (reading, env, Err::<Manifest, IoError>(e)), r),
    ensures
        e.kind == IoErrorKind::NotFound ==> (r matches Ok((None, plan)) && plan@ == seq![
            StepView::Do { call: CallView::UnlockKey, rule: must(Report::Io) },
            StepView::Do {
                call: CallView::CheckDir { at: Place::Bucket },
                rule: must(Report::NoBucket),
            },
            StepView::Fail { error: StorageError::ObjectNotFound },
        ]),
        e.kind != IoErrorKind::NotFound ==> r == Err::<(Option<Opening>, Plan), StorageError>(
            StorageError::Io(e),
        ),
{
    if e.kind == IoErrorKind::NotFound {
        assert(r->Ok_0.1@ =~= seq![
            StepView::Do { call: CallView::UnlockKey, rule: must(Report::Io) },
            StepView::Do {
                call: CallView::CheckDir { at: Place::Bucket },
                rule: must(Report::NoBucket),
            },
            StepView::Fail { error: StorageError::ObjectNotFound },
        ]);
    }
}

/// The single blob of an object: once it is open, the object is answered with its headers, its
/// range and its whole length. A blob that is gone is a missing object.
pub proof fn opened_blob_is_answered(
    o: Opening,
    env: &Env,
    size: Result<u64, IoError>,
    r: Result<Plan, StorageError>,
    root: &str,
    bucket: &str,
    joined: String,
    base: &str,
    id: &str,
    path: String,
)
    requires
        call_ensures(Opening::opened, (o, env, size), r),
        root@ == env.root@,
        bucket@ == env.bucket@,
        call_ensures(join_path, (root, bucket), joined),
        base@ == joined@,
        id@ == o.blob_id@,
        call_ensures(blob_path, (base, id), path),
    ensures
        size matches Ok(n) ==> (r matches Ok(plan) && plan@.len() == 1 && answers_object(
            plan@[0],
            o.manifest@,
            o.range,
        ) && (answered_body(plan@[0]) matches BodySourceView::Single { path: at, size: s } && at == path@ && s
            == n)),
        size matches Err(e) ==> r == Err::<Plan, StorageError>(
            if e.kind == IoErrorKind::NotFound {
                StorageError::ObjectNotFound
            } else {
                StorageError::Io(e)
            },
        ),
{
}

/// The requests for one object begin with the check of its names: a name that is refused ends the
/// request before anything is looked at. A read goes for the manifest of the key and waits for its
/// writers; a put has its body written to the blob it was given; a deletion keeps all others out.
pub proof fn requests_check_the_names(
    store: &CasStore,
    bucket: &str,
    key: &str,
    names: Result<(), StorageError>,
    shard: usize,
    ids: CommitIds,
    header: Option<&str>,
    get: (Reading, Plan),
    head: Plan,
    delete: (Deleting, Plan),
)
    requires
        call_ensures(validate_object_path, (bucket, key), names),
        call_ensures(key_lock_shard, (bucket, key), shard),
        call_ensures(CasStore::get_object, (store, bucket, key, header), get),
        call_ensures(CasStore::head_object, (store, bucket, key), head),
        call_ensures(CasStore::delete_object, (store, bucket, key, ids), delete),
    ensures
        names is Err ==> {
            let refused = seq![StepView::Fail { error: StorageError::PathTraversal }];
            get.1@ == refused && head@ == refused && delete.1@ == refused
        },
        names is Ok ==> {
            let read = StepView::Ask {
                question: QuestionView::ReadManifest { at: Place::Manifest { key: key@ } },
            };
            &&& get.1@.last() == read
            &&& get.1@.contains(
                StepView::Do {
                    call: CallView::LockKey { shard, exclusive: false },
                    rule: must(Report::Io),
                },
            )
            &&& head@.last() == read
            &&& delete.1@.last() == read
            &&& delete.1@.contains(
                StepView::Do {
                    call: CallView::LockKey { shard, exclusive: true },
                    rule: must(Report::Io),
                },
            )
        },
        header matches Some(h) ==> (get.0.range_header matches Some(s) && s@ == h@),
        header is None ==> get.0.range_header is None,
        delete.0.key@ == key@,
        delete.0.ids == ids,
{
    if names is Ok {
        assert(get.1@[1] == (StepView::Do {
            call: CallView::LockKey { shard, exclusive: false },
            rule: must(Report::Io),
        }));
        let n = delete.1@.len() as int;
        assert(delete.1@[n - 2] == (StepView::Do {
            call: CallView::LockKey { shard, exclusive: true },
            rule: must(Report::Io),
        }));
    }
}

/// A put whose names are refused writes nothing. Otherwise the body goes to the blob it was given,
/// which is removed again if the put fails.
pub proof fn put_writes_to_its_blob(
    store: &CasStore,
    bucket: &str,
    key: &str,
    content_type: &str,
    user_metadata: Vec<(String, String)>,
    blob_id: String,
    ids: CommitIds,
    now: i64,
    opened: (PutBody, Plan),
    names: Result<(), StorageError>,
)
    requires
        call_ensures(
            CasStore::put_object,
            (store, bucket, key, content_type, user_metadata, blob_id, ids, now),
            opened,
        ),
        call_ensures(validate_object_path, (bucket, key), names),
    ensures
        names is Err ==> opened.1@ == seq![StepView::Fail { error: StorageError::PathTraversal }],
        names is Ok ==> {
            &&& opened.1@.last() == (StepView::Ask {
                question: QuestionView::StreamBlob { id: blob_id@ },
            })
            &&& opened.1@.contains(
                StepView::Defer { call: CallView::RemoveFile { at: Place::Blob { id: blob_id@ } } },
            )
            &&& opened.1@.contains(
                StepView::Do {
                    call: CallView::CheckContained { at: Place::Manifest { key: key@ } },
                    rule: must(Report::Given(StorageError::PathTraversal)),
                },
            )
            &&& opened.1@.contains(
                StepView::Do {
                    call: CallView::CheckDir { at: Place::Bucket },
                    rule: must(Report::NoBucket),
                },
            )
        },
{
    if names is Ok {
        let n = opened.1@.len() as int;
        assert(opened.1@[n - 2] == (StepView::Defer {
            call: CallView::RemoveFile { at: Place::Blob { id: blob_id@ } },
        }));
        assert(opened.1@[0] == (StepView::Do {
            call: CallView::CheckContained { at: Place::Manifest { key: key@ } },
            rule: must(Report::Given(StorageError::PathTraversal)),
        }));
        assert(opened.1@[2] == (StepView::Do {
            call: CallView::CheckDir { at: Place::Bucket },
            rule: must(Report::NoBucket),
        }));
    }
}

/// The step that removes a blob that is not needed any more.
pub open spec fn removal_of(id: Seq<char>) -> StepView {
    StepView::Do {
        call: CallView::RemoveFile { at: Place::Blob { id } },
        rule: Rule { count: None, missing_ok: true, on_error: OnError::Taint, if_clean: false },
    }
}

/// Removing a list of blobs removes each that has a proper id, and nothing else.
pub proof fn lemma_reclaimed(blobs: Seq<Seq<char>>, rule: Rule)
    ensures
        forall|i: int|
            0 <= i < blobs.len() && is_canonical_uuid(#[trigger] blobs[i]) ==> reclaim_steps(
                blobs,
                rule,
            ).contains(
                StepView::Do { call: CallView::RemoveFile { at: Place::Blob { id: blobs[i] } }, rule },
            ),
        forall|k: int|
            0 <= k < reclaim_steps(blobs, rule).len() ==> exists|i: int|
                0 <= i < blobs.len() && #[trigger] reclaim_steps(blobs, rule)[k] == (StepView::Do {
                    call: CallView::RemoveFile { at: Place::Blob { id: #[trigger] blobs[i] } },
                    rule,
                }),
    decreases blobs.len(),
{
    if blobs.len() > 0 {
        let front = blobs.drop_last();
        lemma_reclaimed(front, rule);
        let early = reclaim_steps(front, rule);
        let all = reclaim_steps(blobs, rule);
        assert forall|i: int| 0 <= i < blobs.len() && is_canonical_uuid(#[trigger] blobs[i]) implies all.contains(
            StepView::Do { call: CallView::RemoveFile { at: Place::Blob { id: blobs[i] } }, rule },
        ) by {
            let step = StepView::Do {
                call: CallView::RemoveFile { at: Place::Blob { id: blobs[i] } },
                rule,
            };
            if i < front.len() {
                assert(front[i] == blobs[i]);
                let k = early.index_of(step);
                assert(all[k] == step);
            } else {
                assert(all[all.len() - 1] == step);
            }
        }
        assert forall|k: int| 0 <= k < all.len() implies exists|i: int|
            0 <= i < blobs.len() && #[trigger] all[k] == (StepView::Do {
                call: CallView::RemoveFile { at: Place::Blob { id: #[trigger] blobs[i] } },
                rule,
            }) by {
            if k < early.len() {
                let i = choose|i: int|
                    0 <= i < front.len() && early[k] == (StepView::Do {
                        call: CallView::RemoveFile { at: Place::Blob { id: #[trigger] front[i] } },
                        rule,
                    });
                assert(blobs[i] == front[i]);
            } else {
                assert(blobs[blobs.len() - 1] == blobs.last());
            }
        }
    }
}

/// The commit of a new version puts the staged manifest in the place of the live one, and then does
/// what the request was for. Where there was a version before, its blobs are written down in a
/// journal together with the key, the nonce and the entity tag of the new version, and each of them
/// is removed. A live manifest that cannot be read is left alone.
pub proof fn commit_replaces_the_live_version(
    p: Publishing,
    env: &Env,
    live: Result<Manifest, IoError>,
    r: Result<Plan, StorageError>,
)
    requires
        call_ensures(Publishing::commit, (p, env, live), r),
    ensures
        live matches Err(e) && e.kind != IoErrorKind::NotFound ==> r == Err::<Plan, StorageError>(
            StorageError::Io(live->Err_0),
        ),
        live is Ok || live->Err_0.kind == IoErrorKind::NotFound ==> (r matches Ok(plan) && plan@.contains(
            StepView::Do {
                call: CallView::Rename {
                    src: Place::Staged { name: p.ids.staged@ + ".manifest"@ },
                    dst: Place::Manifest { key: p.key@ },
                },
                rule: must(Report::Io),
            },
        ) && p.after@.is_suffix_of(plan@)),
        live matches Ok(m) ==> (r matches Ok(plan) && journals(
            plan@,
            p.ids,
            JournalMode::Publish,
            p.key@,
            p.ids.nonce@,
            p.etag@,
            m,
            env.fsync,
        ) && forall|i: int|
            0 <= i < m.parts@.len() && is_canonical_uuid((#[trigger] m.parts@[i]).blob_id@)
                ==> plan@.contains(removal_of(m.parts@[i].blob_id@))),
{
    if live is Ok || live->Err_0.kind == IoErrorKind::NotFound {
        let plan = r->Ok_0;
        let journal = p.journal(crate::cas::objects::found(live));
        let commit = commit_steps(
            p.key@,
            p.ids.staged_name(),
            p.ids.journal_name(),
            p.ids.journal_tmp_name(),
            journal,
            env.fsync,
        );
        let front = match journal {
            Some(j) => journal_steps(p.ids.journal_name(), p.ids.journal_tmp_name(), j, env.fsync),
            None => Seq::empty(),
        };
        let n = front.len() as int;
        assert(commit[n + 1] == (StepView::Do {
            call: CallView::Rename {
                src: Place::Staged { name: p.ids.staged@ + ".manifest"@ },
                dst: Place::Manifest { key: p.key@ },
            },
            rule: must(Report::Io),
        }));
        assert(plan@[n + 1] == commit[n + 1]);
        assert(plan@.skip(commit.len() as int) =~= p.after@);
        assert(p.after@.is_suffix_of(plan@));
        if let Ok(m) = live {
            let j = journal->0;
            assert(j.blobs == m@.blobs());
            assert forall|k: int| 0 <= k < n implies plan@[k] == front[k] by {}
            lemma_journaled(plan@, p.ids, j, env.fsync, m);
            lemma_reclaimed(j.blobs, reclaim_rule());
            let sync = if env.fsync {
                dir_sync_steps(p.key@, key_depth(p.key@))
            } else {
                Seq::empty()
            };
            let gone = reclaim_steps(j.blobs, reclaim_rule());
            let at = n + 3 + sync.len();
            assert forall|k: int| 0 <= k < gone.len() implies plan@[at + k] == gone[k] by {
                assert(commit[at + k] == gone[k]);
            }
            assert forall|i: int|
                0 <= i < m.parts@.len() && is_canonical_uuid((#[trigger] m.parts@[i]).blob_id@) implies plan@.contains(
            removal_of(m.parts@[i].blob_id@)) by {
                assert(m@.parts[i] == m.parts@[i]@);
                assert(j.blobs[i] == m.parts@[i].blob_id@);
                let k = gone.index_of(removal_of(m.parts@[i].blob_id@));
                assert(plan@[at + k] == removal_of(m.parts@[i].blob_id@));
            }
        }
    }
}

/// A journal for the version is written aside and moved into place.
pub open spec fn journals(
    steps: Seq<StepView>,
    ids: CommitIds,
    mode: JournalMode,
    key: Seq<char>,
    nonce: Seq<char>,
    etag: Seq<char>,
    m: Manifest,
    fsync: bool,
) -> bool {
    exists|j: JournalView, tmp: Seq<char>|
        #![trigger written_journal(tmp, j, fsync)]
        j.mode == mode && j.supersedes_key == key && j.commit_nonce == nonce && j.expected_new_etag
            == etag && j.blobs.len() == m.parts@.len() && (forall|i: int|
            0 <= i < j.blobs.len() ==> #[trigger] j.blobs[i] == m.parts@[i].blob_id@)
            && steps.contains(written_journal(tmp, j, fsync)) && steps.contains(
            StepView::Do {
                call: CallView::Rename {
                    src: Place::Journal { name: tmp },
                    dst: Place::Journal { name: ids.journal@ + ".journal"@ },
                },
                rule: must(Report::Io),
            },
        )
}

pub open spec fn written_journal(tmp: Seq<char>, journal: JournalView, fsync: bool) -> StepView {
    StepView::Do {
        call: CallView::WriteJournal { at: Place::Journal { name: tmp }, journal, sync: fsync },
        rule: must(Report::Io),
    }
}

proof fn lemma_journaled(steps: Seq<StepView>, ids: CommitIds, j: JournalView, fsync: bool, m: Manifest)
    requires
        j.blobs == m@.blobs(),
        steps.len() >= 4,
        forall|k: int|
            0 <= k < 4 ==> #[trigger] steps[k] == journal_steps(
                ids.journal_name(),
                ids.journal_tmp_name(),
                j,
                fsync,
            )[k],
    ensures
        journals(
            steps,
            ids,
            j.mode,
            j.supersedes_key,
            j.commit_nonce,
            j.expected_new_etag,
            m,
            fsync,
        ),
{
    let tmp = ids.journal_tmp_name();
    assert(steps[1] == written_journal(tmp, j, fsync));
    assert(steps[2] == (StepView::Do {
        call: CallView::Rename {
            src: Place::Journal { name: tmp },
            dst: Place::Journal { name: ids.journal@ + ".journal"@ },
        },
        rule: must(Report::Io),
    }));
    assert forall|i: int| 0 <= i < j.blobs.len() implies #[trigger] j.blobs[i]
        == m.parts@[i].blob_id@ by {
        assert(m@.parts[i] == m.parts@[i]@);
    }
    assert(j.blobs.len() == m.parts@.len());
}

/// A deletion removes the manifest of the key, writes down the blobs of the version in a journal,
/// and removes each of them. Where there is no manifest, nothing is removed, and the deletion
/// succeeds all the same. A manifest that cannot be read is left alone.
pub proof fn delete_removes_the_live_version(
    d: Deleting,
    env: &Env,
    live: Result<Manifest, IoError>,
    r: Result<Plan, StorageError>,
)
    requires
        call_ensures(Deleting::commit, (d, env, live), r),
    ensures
        live is Err && live->Err_0.kind != IoErrorKind::NotFound ==> r == Err::<Plan, StorageError>(
            StorageError::Io(live->Err_0),
        ),
        live is Err && live->Err_0.kind == IoErrorKind::NotFound ==> (r matches Ok(plan)
            && plan@.last() == (StepView::Finish { outcome: OutcomeView::Nothing }) && forall|i: int|
            0 <= i < plan@.len() - 1 ==> (#[trigger] plan@[i] matches StepView::Do { call, .. }
                && call is SyncDir)),
        live matches Ok(m) ==> (r matches Ok(plan) && plan@.last() == (StepView::Finish {
            outcome: OutcomeView::Nothing,
        }) && plan@.contains(
            StepView::Do {
                call: CallView::RemoveFile { at: Place::Manifest { key: d.key@ } },
                rule: Rule {
                    count: None,
                    missing_ok: true,
                    on_error: OnError::Fail(Report::Io),
                    if_clean: false,
                },
            },
        ) && journals(
            plan@,
            d.ids,
            JournalMode::Delete,
            d.key@,
            Seq::empty(),
            Seq::empty(),
            m,
            env.fsync,
        ) && forall|i: int|
            0 <= i < m.parts@.len() && is_canonical_uuid((#[trigger] m.parts@[i]).blob_id@)
                ==> plan@.contains(removal_of(m.parts@[i].blob_id@))),
{
    if let Ok(m) = live {
        let plan = r->Ok_0;
        let j = crate::cas::objects::delete_journal(d.key@, m@.blobs());
        let front = journal_steps(d.ids.journal_name(), d.ids.journal_tmp_name(), j, env.fsync);
        let n = front.len() as int;
        let all = delete_steps(
            d.key@,
            d.ids.journal_name(),
            d.ids.journal_tmp_name(),
            m@.blobs(),
            env.fsync,
        );
        assert(plan@ == all);
        assert(all[n] == (StepView::Do {
            call: CallView::RemoveFile { at: Place::Manifest { key: d.key@ } },
            rule: Rule {
                count: None,
                missing_ok: true,
                on_error: OnError::Fail(Report::Io),
                if_clean: false,
            },
        }));
        assert forall|k: int| 0 <= k < n implies all[k] == front[k] by {}
        lemma_journaled(plan@, d.ids, j, env.fsync, m);
        lemma_reclaimed(j.blobs, reclaim_rule());
        let gone = reclaim_steps(j.blobs, reclaim_rule());
        let at = n + 1 + if env.fsync {
            1int
        } else {
            0int
        };
        assert forall|k: int| 0 <= k < gone.len() implies plan@[at + k] == gone[k] by {}
        assert forall|i: int|
            0 <= i < m.parts@.len() && is_canonical_uuid((#[trigger] m.parts@[i]).blob_id@) implies plan@.contains(
        removal_of(m.parts@[i].blob_id@)) by {
            assert(m@.parts[i] == m.parts@[i]@);
            assert(j.blobs[i] == m.parts@[i].blob_id@);
            let k = gone.index_of(removal_of(m.parts@[i].blob_id@));
            assert(plan@[at + k] == removal_of(m.parts@[i].blob_id@));
        }
    }
}

} // verus!
