//! What a request undoes when it fails, and how files are replaced in one step.

use vstd::prelude::*;
use crate::blob::BlobInfo;
use crate::cas::buckets::{bucket_created, created_steps, existing_steps};
use crate::cas::complete::{
    assemble_steps, claim_views, claimed_part, move_steps, Assembling, ClaimView,
};
use crate::cas::objects::{found, put_manifest, put_steps, stage_steps, Publishing, PutBody};
use crate::cas::parts::{make_ref_name, make_ref_tmp_name, stored_table};
use crate::cas::records::PartRefFileView;
use crate::cas::store::{
    infra_steps, journal_steps, validate_object_path, write_preamble, CasStore, Env,
};
use crate::cas::uploads::{create_steps, PartInstalled, PartStored};
use crate::filesystem::objects::PlainPut;
use crate::filesystem::store::Filesystem;
use crate::filesystem::uploads::PlainPartUpload;
use crate::manifest::Manifest;
use crate::metadata::{commit_temp_steps, write_temp_step, ObjectMetadataView};
use crate::plan::call::{CallView, QuestionView, RefEntry, Report, StoredRef};
use crate::plan::place::{Place, PlaceView};
use crate::plan::runner::{must, Plan, StepView};
use crate::promises::durability::makes_durable;
use crate::types::{pairs, IoError, IoErrorKind, MultipartUploadView, StorageError};

verus! {

/// A file that was made is removed again if the request fails later.
pub open spec fn undoes(at: PlaceView) -> StepView {
    StepView::Defer { call: CallView::RemoveFile { at } }
}

/// The step that renames a file.
pub open spec fn renames(src: PlaceView, dst: PlaceView) -> StepView {
    StepView::Do { call: CallView::Rename { src, dst }, rule: must(Report::Io) }
}

/// A version that was staged is removed again if the commit fails, and the live version is read
/// only behind that.
pub proof fn staged_version_is_undone(
    put: PutBody,
    env: &Env,
    info: BlobInfo,
    r: Result<(Publishing, Plan), StorageError>,
)
    requires
        call_ensures(PutBody::streamed, (put, env, Ok::<BlobInfo, IoError>(info)), r),
    ensures
        r is Ok,
        ({
            let steps = r->Ok_0.1@;
            let n = steps.len() as int;
            &&& n >= 4
            &&& steps[n - 3] matches StepView::Do { call, .. } && call is WriteManifest && call->WriteManifest_sync
                == env.fsync
            &&& steps[n - 2] == undoes(Place::Staged { name: put.ids.staged@ + ".manifest"@ })
            &&& steps[n - 1] == (StepView::Ask {
                question: QuestionView::ReadManifest { at: Place::Manifest { key: put.key@ } },
            })
        }),
{
    let m = put_manifest(put, info.size, info.md5_hex@);
    let steps = put_steps(env.bucket@, put.blob_id@, m, put.ids.staged_name(), env.fsync);
    let back = stage_steps(m, put.ids.staged_name(), env.fsync);
    let n = steps.len() as int;
    assert(r->Ok_0.1@ == steps);
    assert(steps[n - 3] == back[0] && steps[n - 2] == back[1] && steps[n - 1] == back[2]);
}

/// A journal is written aside, renamed into place, and made durable where that is asked for. What
/// was written aside is removed again if that fails.
pub proof fn journal_is_written_aside(
    p: Publishing,
    env: &Env,
    m: Manifest,
    r: Result<Plan, StorageError>,
)
    requires
        call_ensures(Publishing::commit, (p, env, Ok::<Manifest, IoError>(m)), r),
    ensures
        r is Ok,
        ({
            let steps = r->Ok_0@;
            let tmp = Place::Journal {
                name: p.ids.journal@ + ".journal.tmp."@ + p.ids.journal_tmp@,
            };
            &&& steps.len() > 5
            &&& steps[0] == undoes(tmp)
            &&& steps[1] matches StepView::Do { call: CallView::WriteJournal { at, sync, .. }, rule }
                && at == tmp && sync == env.fsync && rule == must(Report::Io)
            &&& steps[2] == renames(tmp, Place::Journal { name: p.ids.journal@ + ".journal"@ })
            &&& steps[3] is Disarm
            &&& env.fsync ==> steps[4] == makes_durable(Place::Deleted, Report::Io)
        }),
{
    let j = p.journal(found(Ok::<Manifest, IoError>(m)))->0;
    let front = journal_steps(p.ids.journal_name(), p.ids.journal_tmp_name(), j, env.fsync);
    let steps = r->Ok_0@;
    assert(steps[0] == front[0] && steps[1] == front[1] && steps[2] == front[2] && steps[3]
        == front[3]);
    if env.fsync {
        assert(steps[4] == front[4]);
    }
}

/// A part record is written aside and renamed into place. What was written aside is removed again
/// if that fails. Where the record has to be durable its directory is synced.
pub proof fn part_record_is_written_aside(
    stored: PartStored,
    env: &Env,
    previous: Option<StoredRef>,
    nonce: &str,
    tmp: String,
    name: String,
    r: (Option<PartInstalled>, Plan),
)
    requires
        call_ensures(PartStored::install, (stored, env, previous), r),
        nonce@ == stored.part.tmp@,
        call_ensures(make_ref_tmp_name, (stored.part.part_number, nonce), tmp),
        call_ensures(make_ref_name, (stored.part.part_number,), name),
    ensures
        ({
            let id = stored.part.upload_id@;
            let aside = Place::PartFile { id, name: tmp@ };
            let steps = r.1@;
            &&& steps.len() > 4
            &&& steps[0] == undoes(aside)
            &&& steps[1] matches StepView::Do { call: CallView::WritePartRef { at, sync, .. }, rule }
                && at == aside && sync == env.fsync && rule == must(Report::Io)
            &&& steps[2] == renames(aside, Place::PartFile { id, name: name@ })
            &&& steps[3] is Disarm
            &&& env.fsync ==> steps.len() == 5 && steps[4] == (StepView::Ask {
                question: QuestionView::TrySyncDir {
                    at: Place::UploadFile { id, name: "parts"@ },
                },
            })
            &&& !env.fsync ==> steps[4] is Seal
        }),
{
}

/// Every part that a completion moves is moved back if the request fails later, and the directories
/// of its new place are made durable right behind it, where that is asked for.
pub open spec fn moves_are_kept(steps: Seq<StepView>, fsync: bool) -> bool {
    forall|i: int|
        0 <= i < steps.len() ==> (#[trigger] steps[i] matches StepView::Do {
            call: CallView::Move { src, dst },
            ..
        } ==> move_is_kept(steps, i, src, dst, fsync))
}

pub open spec fn move_is_kept(
    steps: Seq<StepView>,
    i: int,
    src: PlaceView,
    dst: PlaceView,
    fsync: bool,
) -> bool {
    &&& i + 1 < steps.len()
    &&& steps[i + 1] == (StepView::Defer { call: CallView::Move { src: dst, dst: src } })
    &&& fsync ==> dst is Blob && i + 4 < steps.len() && steps[i + 2] == makes_durable(
        Place::BlobInner { id: dst->Blob_id },
        Report::Io,
    ) && steps[i + 3] == makes_durable(Place::BlobOuter { id: dst->Blob_id }, Report::Io)
        && steps[i + 4] == makes_durable(Place::Blobs, Report::Io)
}

proof fn lemma_kept_concat(a: Seq<StepView>, b: Seq<StepView>, fsync: bool)
    requires
        moves_are_kept(a, fsync),
        moves_are_kept(b, fsync),
    ensures
        moves_are_kept(a + b, fsync),
{
    let all = a + b;
    assert forall|i: int| 0 <= i < all.len() implies (#[trigger] all[i] matches StepView::Do {
        call: CallView::Move { src, dst },
        ..
    } ==> move_is_kept(all, i, src, dst, fsync)) by {
        if i < a.len() {
            assert(all[i] == a[i]);
        } else {
            assert(all[i] == b[i - a.len()]);
        }
    }
}

proof fn lemma_moves(
    claims: Seq<ClaimView>,
    table: Seq<PartRefFileView>,
    total: int,
    fsync: bool,
)
    ensures
        moves_are_kept(assemble_steps(claims, table, total, fsync), fsync),
    decreases claims.len(),
{
    if claims.len() > 0 {
        if let Some(p) = claimed_part(claims[0], table) {
            let a = move_steps(p, claims[0].blob_id, fsync);
            lemma_moves(claims.skip(1), table, total + p.size, fsync);
            let b = assemble_steps(claims.skip(1), table, total + p.size, fsync);
            let invalid = seq![StepView::Fail { error: StorageError::InvalidPart }];
            assert(moves_are_kept(a, fsync));
            assert(moves_are_kept(invalid, fsync));
            lemma_kept_concat(a, b, fsync);
            lemma_kept_concat(a, invalid, fsync);
        }
    }
}

/// A completion moves its parts back if it fails, and makes their new places durable.
pub proof fn moved_parts_are_moved_back(
    a: Assembling,
    env: &Env,
    refs: Result<Vec<RefEntry>, IoError>,
    r: Result<(Option<Publishing>, Plan), StorageError>,
)
    requires
        call_ensures(Assembling::assemble, (a, env, refs), r),
    ensures
        r matches Ok(p) ==> moves_are_kept(p.1@, env.fsync),
{
    if let Ok(table) = stored_table(refs) {
        let claims = claim_views(a.claims@);
        lemma_moves(claims, table, 0, env.fsync);
        let back = stage_steps(a.manifest(table), a.ids.staged_name(), env.fsync);
        let front = assemble_steps(claims, table, 0, env.fsync);
        lemma_kept_concat(front, back, env.fsync);
        assert(front + Seq::empty() =~= front);
    }
}

/// A bucket that is created is made durable where that is asked for: its entry in the data root,
/// and the entries of its directories.
pub proof fn created_bucket_is_durable(
    env: &Env,
    existing: IoError,
    new: Result<Plan, StorageError>,
    old: Result<Plan, StorageError>,
)
    requires
        call_ensures(bucket_created, (env, Ok::<(), IoError>(())), new),
        call_ensures(bucket_created, (env, Err::<(), IoError>(existing)), old),
        existing.kind == IoErrorKind::AlreadyExists,
        env.fsync,
    ensures
        new matches Ok(plan) && plan@.contains(makes_durable(Place::DataRoot, Report::Io))
            && plan@.contains(makes_durable(Place::Bucket, Report::Io)),
        old matches Ok(plan) && plan@.contains(makes_durable(Place::DataRoot, Report::Io))
            && plan@.contains(makes_durable(Place::Bucket, Report::Io)),
{
    let a = new->Ok_0@;
    let b = old->Ok_0@;
    assert(a == created_steps(true));
    assert(b == existing_steps(true));
    assert(a[0] == makes_durable(Place::DataRoot, Report::Io));
    assert(a[5] == makes_durable(Place::Bucket, Report::Io));
    assert(b[4] == makes_durable(Place::Bucket, Report::Io));
    assert(b[5] == makes_durable(Place::DataRoot, Report::Io));
}

/// An upload that is begun is made durable where that is asked for: its directory before its
/// record, the record, and the entry of the record.
pub proof fn begun_upload_is_durable(
    store: &CasStore,
    bucket: &str,
    key: &str,
    content_type: &str,
    user_metadata: Vec<(String, String)>,
    id: String,
    now: i64,
    names: Result<(), StorageError>,
    env: Env,
    r: Plan,
)
    requires
        call_ensures(
            CasStore::create_multipart_upload,
            (store, bucket, key, content_type, user_metadata, id, now),
            r,
        ),
        call_ensures(validate_object_path, (bucket, key), names),
        names is Ok,
        call_ensures(CasStore::env, (store, bucket), env),
    ensures
        env.fsync ==> ({
            let n = r@.len() as int;
            let own = makes_durable(Place::Upload { id: id@ }, Report::Io);
            &&& n > 6
            &&& r@[n - 6] matches StepView::Do { call, .. } && call is CreateDirAll
            &&& r@[n - 5] == makes_durable(Place::Arriving, Report::Io)
            &&& r@[n - 4] == own
            &&& r@[n - 3] matches StepView::Do { call: CallView::WriteUpload { sync, .. }, .. } && sync
            &&& r@[n - 2] == own
            &&& r@.contains(makes_durable(Place::Bucket, Report::Io))
        }),
        !env.fsync ==> forall|i: int|
            0 <= i < r@.len() ==> !(#[trigger] r@[i] matches StepView::Do { call, .. } && call
                is SyncDir),
{
    let u = MultipartUploadView {
        upload_id: id@,
        bucket: bucket@,
        key: key@,
        initiated_unix: now,
        content_type: content_type@,
        user_metadata: pairs(user_metadata@),
    };
    assert(r@ == create_steps(bucket@, u, env.fsync));
    if env.fsync {
        assert(infra_steps(true)[4] == makes_durable(Place::Bucket, Report::Io));
        assert(write_preamble(bucket@, key@, true)[7] == infra_steps(true)[4]);
        assert(r@[7] == makes_durable(Place::Bucket, Report::Io));
    }
}

/// A body of the plain layout is written aside, and removed again if the request fails.
pub proof fn plain_body_is_undone(
    fs: &Filesystem,
    id: &str,
    n: i32,
    tmp: String,
    part: (PlainPartUpload, Plan),
)
    requires
        call_ensures(Filesystem::upload_part, (fs, id, n, tmp), part),
        part.1@.last() is Ask,
    ensures
        ({
            let k = part.1@.len() as int;
            k >= 2 && (part.1@[k - 1] matches StepView::Ask {
                question: QuestionView::StreamFile { at },
            } && part.1@[k - 2] == undoes(at))
        }),
{
}

/// So is the body of an object.
pub proof fn plain_put_is_undone(
    fs: &Filesystem,
    bucket: &str,
    key: &str,
    content_type: &str,
    user_metadata: Vec<(String, String)>,
    tmp: String,
    now: i64,
    put: (PlainPut, Plan),
)
    requires
        call_ensures(
            Filesystem::put_object,
            (fs, bucket, key, content_type, user_metadata, tmp, now),
            put,
        ),
        put.1@.last() is Ask,
    ensures
        ({
            let k = put.1@.len() as int;
            k >= 2 && (put.1@[k - 1] matches StepView::Ask {
                question: QuestionView::StreamFile { at },
            } && put.1@[k - 2] == undoes(at))
        }),
{
}

/// A sidecar is written aside and renamed into place, and what was written aside is removed again
/// if the renaming fails. A durable one has its bytes and its directory synced.
pub proof fn sidecar_is_written_aside(
    tmp: PlaceView,
    at: PlaceView,
    parent: PlaceView,
    metadata: ObjectMetadataView,
    durable: bool,
)
    ensures
        write_temp_step(tmp, metadata, durable) == (StepView::Do {
            call: CallView::WriteMetadata { at: tmp, metadata, sync: durable },
            rule: must(Report::Io),
        }),
        commit_temp_steps(tmp, at, parent, durable) == (if durable {
            seq![
                undoes(tmp),
                renames(tmp, at),
                StepView::Disarm,
                makes_durable(parent, Report::Io),
            ]
        } else {
            seq![undoes(tmp), renames(tmp, at), StepView::Disarm]
        }),
{
}

} // verus!
