//! Uploads in parts: beginning one, storing its parts, giving it up, and listing.

use vstd::prelude::*;
use crate::blob::BlobInfo;
use crate::cas::objects::{must_unless_missing, push_unless_missing};
use crate::cas::parts::{
    assert_upload_matches, blobs_of_parts, make_ref_name, make_ref_tmp_name, matched_upload,
    read_part_refs, ref_name, ref_tmp_name, stored_table, table_blobs, PARTS_DIR, UPLOAD_FILE,
};
use crate::cas::records::{part_records, PartRefFile, PartRefFileView};
use crate::cas::store::{
    body_failure, body_or_io, bucket_lock_shard, bucket_shard, head_bucket_step, key_lock_shard,
    key_shard, may_do, must_do, push_head_bucket, push_reclaim, push_write_preamble, quote, quoted,
    reclaim_steps, refusal, refuse, validate_bucket_component, validate_object_path,
    write_preamble, CasStore, Env,
};
use crate::manifest::is_object_key;
use crate::outside::{is_uuid_text, uuid_parses};
use crate::plan::call::{
    part_infos, upload_views, Call, CallView, Outcome, OutcomeView, Question, QuestionView, RefEntry,
    Report, StoredRef, UploadDir, UploadProbe,
};
use crate::plan::place::Place;
use crate::plan::runner::{may, rule_may, Plan, Step, StepView};
use crate::text::{
    before, lemma_text_order, lemma_text_transitive, owned, same, text_before, texts,
};
use crate::types::{
    is_bucket_name, pairs, IoError, IoErrorKind, MultipartUpload, MultipartUploadView, PartInfo,
    PartInfoView, StorageError, MAX_UPLOADS_CAP,
};

verus! {

/// The highest part number.
pub const MAX_PART_NUMBER: i32 = 10000;

/// How an upload begins: its directory and its record are created, and both are made durable.
pub open spec fn create_steps(
    bucket: Seq<char>,
    upload: MultipartUploadView,
    fsync: bool,
) -> Seq<StepView> {
    let id = upload.upload_id;
    write_preamble(bucket, upload.key, fsync) + seq![
        must_do(
            CallView::CreateDirAll { at: Place::UploadFile { id, name: PARTS_DIR@ } },
            Report::Io,
        ),
    ] + (if fsync {
        seq![
            must_do(CallView::SyncDir { at: Place::Arriving }, Report::Io),
            must_do(CallView::SyncDir { at: Place::Upload { id } }, Report::Io),
        ]
    } else {
        Seq::empty()
    }) + seq![
        must_do(
            CallView::WriteUpload {
                at: Place::UploadFile { id, name: UPLOAD_FILE@ },
                upload,
                sync: fsync,
            },
            Report::Io,
        ),
    ] + (if fsync {
        seq![must_do(CallView::SyncDir { at: Place::Upload { id } }, Report::Io)]
    } else {
        Seq::empty()
    }) + seq![StepView::Finish { outcome: OutcomeView::UploadId { id } }]
}

/// How a request for an upload begins: a missing bucket is reported before a missing upload.
pub open spec fn upload_opening(bucket: Seq<char>, id: Seq<char>) -> Seq<StepView> {
    if !is_bucket_name(bucket) {
        refusal(StorageError::PathTraversal)
    } else {
        seq![
            head_bucket_step(),
            if is_uuid_text(id) {
                StepView::Ask { question: QuestionView::ProbeUpload { id } }
            } else {
                StepView::Fail { error: StorageError::NoSuchUpload }
            },
        ]
    }
}

/// Begins a request for an upload.
pub fn open_upload(bucket: &str, upload_id: &str) -> (r: Plan)
    ensures
        r@ == upload_opening(bucket@, upload_id@),
{
    match validate_bucket_component(bucket) {
        Ok(_) => {
            let mut plan = Plan::new();
            push_head_bucket(&mut plan);
            if uuid_parses(upload_id) {
                plan.ask(Question::ProbeUpload { id: owned(upload_id) });
            } else {
                plan.push(Step::Fail { error: StorageError::NoSuchUpload });
            }
            assert(plan@ =~= upload_opening(bucket@, upload_id@));
            plan
        },
        Err(e) => refuse(e),
    }
}

/// A part while it is stored.
#[derive(Debug)]
pub struct PartUpload {
    pub key: String,
    pub upload_id: String,
    pub part_number: i32,
    pub blob_id: String,
    /// Sets the record that is being written apart.
    pub tmp: String,
    /// Sets the record that is being restored apart.
    pub restore_tmp: String,
}

/// A part whose body was written.
#[derive(Debug)]
pub struct PartStored {
    pub part: PartUpload,
    pub size: u64,
    pub md5_hex: String,
}

/// A part whose record was put in place and is being made durable.
#[derive(Debug)]
pub struct PartInstalled {
    pub part: PartUpload,
    pub md5_hex: String,
    /// The record that it replaced.
    pub previous: Option<StoredRef>,
}

/// Before a part is written: the bucket is locked against removal and looked for again, and the
/// body goes to a blob of its own, which is removed again if the upload of the part fails.
pub open spec fn part_body_steps(bucket: Seq<char>, blob_id: Seq<char>) -> Seq<StepView> {
    seq![
        must_do(CallView::LockBucket { shard: bucket_shard(bucket), exclusive: false }, Report::Io),
        head_bucket_step(),
        StepView::Defer { call: CallView::RemoveFile { at: Place::Blob { id: blob_id } } },
        StepView::Ask { question: QuestionView::StreamBlob { id: blob_id } },
    ]
}

/// The key is locked, and the upload is looked at again.
pub open spec fn relock_steps(bucket: Seq<char>, key: Seq<char>, id: Seq<char>) -> Seq<StepView> {
    seq![
        must_do(CallView::LockKey { shard: key_shard(bucket, key), exclusive: true }, Report::Io),
        StepView::Ask { question: QuestionView::ProbeUpload { id } },
    ]
}

pub fn push_relock(plan: &mut Plan, bucket: &str, key: &str, upload_id: &str)
    ensures
        final(plan)@ == old(plan)@ + relock_steps(bucket@, key@, upload_id@),
{
    plan.must(Call::LockKey { shard: key_lock_shard(bucket, key), exclusive: true }, Report::Io);
    plan.ask(Question::ProbeUpload { id: owned(upload_id) });
    assert(plan@ =~= old(plan)@ + relock_steps(bucket@, key@, upload_id@));
}

/// The record of a part is written next to where it belongs and moved there in one step.
pub open spec fn install_steps(
    id: Seq<char>,
    tmp: Seq<char>,
    name: Seq<char>,
    record: PartRefFileView,
    fsync: bool,
) -> Seq<StepView> {
    seq![
        StepView::Defer { call: CallView::RemoveFile { at: Place::PartFile { id, name: tmp } } },
        must_do(
            CallView::WritePartRef {
                at: Place::PartFile { id, name: tmp },
                part: record,
                sync: fsync,
            },
            Report::Io,
        ),
        must_do(
            CallView::Rename {
                src: Place::PartFile { id, name: tmp },
                dst: Place::PartFile { id, name },
            },
            Report::Io,
        ),
        StepView::Disarm,
    ]
}

/// The blob that a record named before, if the new one names another.
pub open spec fn superseded(previous: Option<StoredRef>, blob_id: Seq<char>) -> Seq<Seq<char>> {
    match previous {
        Some(p) => if p.blob_id@ != blob_id {
            seq![p.blob_id@]
        } else {
            Seq::empty()
        },
        None => Seq::empty(),
    }
}

/// The part is stored: the blob that its record named before is removed.
pub open spec fn kept_steps(
    previous: Option<StoredRef>,
    blob_id: Seq<char>,
    md5_hex: Seq<char>,
) -> Seq<StepView> {
    seq![StepView::Seal] + reclaim_steps(superseded(previous, blob_id), may()) + seq![
        StepView::Finish { outcome: OutcomeView::Etag { etag: quoted(md5_hex) } },
    ]
}

/// The record could not be made durable: the part goes back to what it was. A record that was
/// replaced is restored in one step, and only once it is restored the new blob is removed.
pub open spec fn reverted_steps(
    part: PartUpload,
    previous: Option<StoredRef>,
    e: IoError,
    fsync: bool,
) -> Seq<StepView> {
    let id = part.upload_id@;
    let at = Place::PartFile { id, name: ref_name(part.part_number as int) };
    let tmp = Place::PartFile {
        id,
        name: ref_tmp_name(part.part_number as int, part.restore_tmp@),
    };
    match previous {
        None => seq![
            StepView::Seal,
            may_do(CallView::RemoveFile { at }),
            may_do(CallView::RemoveFile { at: Place::Blob { id: part.blob_id@ } }),
            StepView::Fail { error: StorageError::Io(e) },
        ],
        Some(p) => seq![
            StepView::Seal,
            StepView::Defer { call: CallView::RemoveFile { at: tmp } },
            must_do(
                CallView::WriteBytes { at: tmp, data: p.bytes@, sync: fsync },
                Report::Given(StorageError::Io(e)),
            ),
            must_do(
                CallView::Rename { src: tmp, dst: at },
                Report::Given(StorageError::Io(e)),
            ),
            StepView::Disarm,
            may_do(CallView::RemoveFile { at: Place::Blob { id: part.blob_id@ } }),
            StepView::Fail { error: StorageError::Io(e) },
        ],
    }
}

impl CasStore {
    /// Begins an upload in parts.
    pub fn create_multipart_upload(
        &self,
        bucket: &str,
        key: &str,
        content_type: &str,
        user_metadata: Vec<(String, String)>,
        upload_id: String,
        now: i64,
    ) -> (r: Plan)
        ensures
            r@ == (if is_bucket_name(bucket@) && is_object_key(key@) {
                create_steps(
                    bucket@,
                    MultipartUploadView {
                        upload_id: upload_id@,
                        bucket: bucket@,
                        key: key@,
                        initiated_unix: now,
                        content_type: content_type@,
                        user_metadata: pairs(user_metadata@),
                    },
                    self.durable(),
                )
            } else {
                refusal(StorageError::PathTraversal)
            }),
    {
        if let Err(e) = validate_object_path(bucket, key) {
            return refuse(e);
        }
        let fsync = self.env(bucket).fsync;
        let mut plan = Plan::new();
        push_write_preamble(&mut plan, bucket, key, fsync);
        plan.must(
            Call::CreateDirAll {
                at: Place::UploadFile { id: upload_id.clone(), name: owned(PARTS_DIR) },
            },
            Report::Io,
        );
        if fsync {
            plan.must(Call::SyncDir { at: Place::Arriving }, Report::Io);
            plan.must(Call::SyncDir { at: Place::Upload { id: upload_id.clone() } }, Report::Io);
        }
        let upload = MultipartUpload {
            upload_id: upload_id.clone(),
            bucket: owned(bucket),
            key: owned(key),
            initiated_unix: now,
            content_type: owned(content_type),
            user_metadata,
        };
        let ghost view = upload@;
        plan.must(
            Call::WriteUpload {
                at: Place::UploadFile { id: upload_id.clone(), name: owned(UPLOAD_FILE) },
                upload,
                sync: fsync,
            },
            Report::Io,
        );
        if fsync {
            plan.must(Call::SyncDir { at: Place::Upload { id: upload_id.clone() } }, Report::Io);
        }
        plan.finish(Outcome::UploadId { id: upload_id });
        assert(plan@ =~= create_steps(bucket@, view, fsync));
        plan
    }

    /// Begins to store a part. Part numbers go from 1 to `MAX_PART_NUMBER`.
    pub fn upload_part(
        &self,
        bucket: &str,
        key: &str,
        upload_id: &str,
        part_number: i32,
        blob_id: String,
        tmp: String,
        restore_tmp: String,
    ) -> (r: (PartUpload, Plan))
        ensures
            r.0.key@ == key@,
            r.0.upload_id@ == upload_id@,
            r.0.part_number == part_number,
            r.0.blob_id == blob_id,
            r.0.tmp == tmp,
            r.0.restore_tmp == restore_tmp,
            r.1@ == (if 1 <= part_number <= MAX_PART_NUMBER {
                upload_opening(bucket@, upload_id@)
            } else {
                refusal(StorageError::InvalidPart)
            }),
    {
        let plan = if part_number < 1 || part_number > MAX_PART_NUMBER {
            refuse(StorageError::InvalidPart)
        } else {
            open_upload(bucket, upload_id)
        };
        let part = PartUpload {
            key: owned(key),
            upload_id: owned(upload_id),
            part_number,
            blob_id,
            tmp,
            restore_tmp,
        };
        (part, plan)
    }
}

impl PartUpload {
    /// Goes on once the upload was looked at.
    pub fn admitted(&self, env: &Env, probe: UploadProbe) -> (r: Result<Plan, StorageError>)
        ensures
            match matched_upload(probe, env.bucket@, self.key@, true) {
                Ok(_) => r matches Ok(plan) && plan@ == part_body_steps(
                    env.bucket@,
                    self.blob_id@,
                ),
                Err(e) => r == Err::<Plan, StorageError>(e),
            },
    {
        if let Err(e) = assert_upload_matches(
            probe,
            env.bucket.as_str(),
            self.key.as_str(),
            true,
        ) {
            return Err(e);
        }
        let mut plan = Plan::new();
        plan.must(
            Call::LockBucket { shard: bucket_lock_shard(env.bucket.as_str()), exclusive: false },
            Report::Io,
        );
        push_head_bucket(&mut plan);
        plan.defer(Call::RemoveFile { at: Place::Blob { id: self.blob_id.clone() } });
        plan.ask(Question::StreamBlob { id: self.blob_id.clone() });
        assert(plan@ =~= part_body_steps(env.bucket@, self.blob_id@));
        Ok(plan)
    }

    /// Goes on once the body is written, or could not be: the key is locked and the upload is
    /// looked at again.
    pub fn streamed(self, env: &Env, result: Result<BlobInfo, IoError>) -> (r: Result<
        (PartStored, Plan),
        StorageError,
    >)
        ensures
            match result {
                Err(e) => r == Err::<(PartStored, Plan), StorageError>(body_failure(e)),
                Ok(info) => {
                    &&& r matches Ok(p)
                    &&& p.0.part == self
                    &&& p.0.size == info.size
                    &&& p.0.md5_hex == info.md5_hex
                    &&& p.1@ == relock_steps(env.bucket@, self.key@, self.upload_id@)
                },
            },
    {
        match result {
            Ok(info) => {
                let mut plan = Plan::new();
                push_relock(
                    &mut plan,
                    env.bucket.as_str(),
                    self.key.as_str(),
                    self.upload_id.as_str(),
                );
                assert(plan@ =~= relock_steps(env.bucket@, self.key@, self.upload_id@));
                Ok((PartStored { part: self, size: info.size, md5_hex: info.md5_hex }, plan))
            },
            Err(e) => Err(body_or_io(e)),
        }
    }
}

impl PartStored {
    /// The record of the part.
    pub open spec fn record(&self) -> PartRefFileView {
        PartRefFileView {
            part_number: self.part.part_number as u32,
            blob_id: self.part.blob_id@,
            size: self.size,
            md5_hex: self.md5_hex@,
        }
    }

    /// Goes on once the upload was looked at again: the record that is there is read.
    pub fn rechecked(&self, env: &Env, probe: UploadProbe) -> (r: Result<Plan, StorageError>)
        ensures
            match matched_upload(probe, env.bucket@, self.part.key@, false) {
                Ok(_) => r matches Ok(plan) && plan@ == seq![
                    StepView::Ask {
                        question: QuestionView::ReadPartRef {
                            at: Place::PartFile {
                                id: self.part.upload_id@,
                                name: ref_name(self.part.part_number as int),
                            },
                        },
                    },
                ],
                Err(e) => r == Err::<Plan, StorageError>(e),
            },
    {
        if let Err(e) = assert_upload_matches(
            probe,
            env.bucket.as_str(),
            self.part.key.as_str(),
            false,
        ) {
            return Err(e);
        }
        let mut plan = Plan::new();
        plan.ask(
            Question::ReadPartRef {
                at: Place::PartFile {
                    id: self.part.upload_id.clone(),
                    name: make_ref_name(self.part.part_number),
                },
            },
        );
        assert(plan@.len() == 1);
        assert(plan@ =~= seq![plan@[0]]);
        Ok(plan)
    }

    /// Puts the record in place, now that the one before it was read.
    pub fn install(self, env: &Env, previous: Option<StoredRef>) -> (r: (
        Option<PartInstalled>,
        Plan,
    ))
        ensures
            r.0 is Some <==> env.fsync,
            r.0 matches Some(p) ==> p.part == self.part && p.md5_hex == self.md5_hex && p.previous
                == previous,
            r.1@ == install_steps(
                self.part.upload_id@,
                ref_tmp_name(self.part.part_number as int, self.part.tmp@),
                ref_name(self.part.part_number as int),
                self.record(),
                env.fsync,
            ) + (if env.fsync {
                seq![
                    StepView::Ask {
                        question: QuestionView::TrySyncDir {
                            at: Place::UploadFile { id: self.part.upload_id@, name: PARTS_DIR@ },
                        },
                    },
                ]
            } else {
                kept_steps(previous, self.part.blob_id@, self.md5_hex@)
            }),
    {
        let tmp = make_ref_tmp_name(self.part.part_number, self.part.tmp.as_str());
        let record = PartRefFile {
            part_number: self.part.part_number as u32,
            blob_id: self.part.blob_id.clone(),
            size: self.size,
            md5_hex: self.md5_hex.clone(),
        };
        let mut plan = Plan::new();
        plan.defer(
            Call::RemoveFile {
                at: Place::PartFile { id: self.part.upload_id.clone(), name: tmp.clone() },
            },
        );
        plan.must(
            Call::WritePartRef {
                at: Place::PartFile { id: self.part.upload_id.clone(), name: tmp.clone() },
                part: record,
                sync: env.fsync,
            },
            Report::Io,
        );
        plan.must(
            Call::Rename {
                src: Place::PartFile { id: self.part.upload_id.clone(), name: tmp },
                dst: Place::PartFile {
                    id: self.part.upload_id.clone(),
                    name: make_ref_name(self.part.part_number),
                },
            },
            Report::Io,
        );
        plan.push(Step::Disarm);
        assert(plan@ =~= install_steps(
            self.part.upload_id@,
            ref_tmp_name(self.part.part_number as int, self.part.tmp@),
            ref_name(self.part.part_number as int),
            self.record(),
            env.fsync,
        ));
        if env.fsync {
            plan.ask(
                Question::TrySyncDir {
                    at: Place::UploadFile {
                        id: self.part.upload_id.clone(),
                        name: owned(PARTS_DIR),
                    },
                },
            );
            (Some(PartInstalled { part: self.part, md5_hex: self.md5_hex, previous }), plan)
        } else {
            push_kept(&mut plan, &previous, self.part.blob_id.as_str(), self.md5_hex.as_str());
            (None, plan)
        }
    }
}

fn push_kept(plan: &mut Plan, previous: &Option<StoredRef>, blob_id: &str, md5_hex: &str)
    ensures
        final(plan)@ == old(plan)@ + kept_steps(*previous, blob_id@, md5_hex@),
{
    plan.push(Step::Seal);
    let mut stale: Vec<String> = Vec::new();
    if let Some(p) = previous {
        if !same(p.blob_id.as_str(), blob_id) {
            stale.push(p.blob_id.clone());
        }
    }
    assert(texts(stale@) =~= superseded(*previous, blob_id@));
    push_reclaim(plan, &stale, rule_may());
    plan.finish(Outcome::Etag { etag: quote(md5_hex) });
    assert(plan@ =~= old(plan)@ + kept_steps(*previous, blob_id@, md5_hex@));
}

impl PartInstalled {
    /// Ends the upload of the part once its record is durable, or could not be made so.
    pub fn synced(self, env: &Env, result: Result<(), IoError>) -> (r: Plan)
        ensures
            r@ == (match result {
                Ok(_) => kept_steps(self.previous, self.part.blob_id@, self.md5_hex@),
                Err(e) => reverted_steps(self.part, self.previous, e, env.fsync),
            }),
    {
        let mut plan = Plan::new();
        let e = match result {
            Ok(_) => {
                push_kept(
                    &mut plan,
                    &self.previous,
                    self.part.blob_id.as_str(),
                    self.md5_hex.as_str(),
                );
                assert(plan@ =~= kept_steps(self.previous, self.part.blob_id@, self.md5_hex@));
                return plan;
            },
            Err(e) => e,
        };
        let id = self.part.upload_id.clone();
        let at = make_ref_name(self.part.part_number);
        plan.push(Step::Seal);
        match &self.previous {
            None => {
                plan.may(Call::RemoveFile { at: Place::PartFile { id, name: at } });
            },
            Some(p) => {
                let tmp = make_ref_tmp_name(
                    self.part.part_number,
                    self.part.restore_tmp.as_str(),
                );
                plan.defer(
                    Call::RemoveFile { at: Place::PartFile { id: id.clone(), name: tmp.clone() } },
                );
                plan.must(
                    Call::WriteBytes {
                        at: Place::PartFile { id: id.clone(), name: tmp.clone() },
                        data: copy_bytes(&p.bytes),
                        sync: env.fsync,
                    },
                    Report::Given(StorageError::Io(e)),
                );
                plan.must(
                    Call::Rename {
                        src: Place::PartFile { id: id.clone(), name: tmp },
                        dst: Place::PartFile { id, name: at },
                    },
                    Report::Given(StorageError::Io(e)),
                );
                plan.push(Step::Disarm);
            },
        }
        plan.may(Call::RemoveFile { at: Place::Blob { id: self.part.blob_id.clone() } });
        plan.push(Step::Fail { error: StorageError::Io(e) });
        assert(plan@ =~= reverted_steps(self.part, self.previous, e, env.fsync));
        plan
    }
}

/// A copy of the bytes.
fn copy_bytes(data: &Vec<u8>) -> (r: Vec<u8>)
    ensures
        r@ == data@,
{
    let mut out: Vec<u8> = Vec::new();
    out.extend_from_slice(data.as_slice());
    assert(out@ =~= data@);
    out
}

/// An upload that is given up.
#[derive(Debug)]
pub struct Aborting {
    pub key: String,
    pub upload_id: String,
}

/// Before an upload is given up: the key is locked, and the part records are read.
pub open spec fn abort_lock_steps(bucket: Seq<char>, key: Seq<char>, id: Seq<char>) -> Seq<
    StepView,
> {
    seq![
        must_do(CallView::LockKey { shard: key_shard(bucket, key), exclusive: true }, Report::Io),
        StepView::Ask { question: QuestionView::ReadPartRefs { id } },
    ]
}

/// The blobs of the parts are removed, then the directory of the upload. One that is gone already
/// is as good as removed.
pub open spec fn abort_steps(id: Seq<char>, refs: Result<Vec<RefEntry>, IoError>) -> Seq<StepView> {
    reclaim_steps(
        match stored_table(refs) {
            Ok(table) => table_blobs(table),
            Err(_) => Seq::empty(),
        },
        may(),
    ) + seq![
        must_unless_missing(CallView::RemoveDirAll { at: Place::Upload { id } }),
        StepView::Finish { outcome: OutcomeView::Nothing },
    ]
}

impl CasStore {
    /// Begins to give up an upload.
    pub fn abort_multipart_upload(&self, bucket: &str, key: &str, upload_id: &str) -> (r: (
        Aborting,
        Plan,
    ))
        ensures
            r.0.key@ == key@,
            r.0.upload_id@ == upload_id@,
            r.1@ == upload_opening(bucket@, upload_id@),
    {
        (Aborting { key: owned(key), upload_id: owned(upload_id) }, open_upload(bucket, upload_id))
    }
}

impl Aborting {
    /// Goes on once the upload was looked at: the key is locked, and only then the parts are read.
    pub fn admitted(&self, env: &Env, probe: UploadProbe) -> (r: Result<Plan, StorageError>)
        ensures
            match matched_upload(probe, env.bucket@, self.key@, true) {
                Ok(_) => r matches Ok(plan) && plan@ == abort_lock_steps(
                    env.bucket@,
                    self.key@,
                    self.upload_id@,
                ),
                Err(e) => r == Err::<Plan, StorageError>(e),
            },
    {
        if let Err(e) = assert_upload_matches(
            probe,
            env.bucket.as_str(),
            self.key.as_str(),
            true,
        ) {
            return Err(e);
        }
        let mut plan = Plan::new();
        plan.must(
            Call::LockKey {
                shard: key_lock_shard(env.bucket.as_str(), self.key.as_str()),
                exclusive: true,
            },
            Report::Io,
        );
        plan.ask(Question::ReadPartRefs { id: self.upload_id.clone() });
        assert(plan@ =~= abort_lock_steps(env.bucket@, self.key@, self.upload_id@));
        Ok(plan)
    }

    /// Removes the upload, now that its parts were read.
    pub fn remove(self, refs: Result<Vec<RefEntry>, IoError>) -> (r: Plan)
        ensures
            r@ == abort_steps(self.upload_id@, refs),
    {
        let mut plan = Plan::new();
        let blobs: Vec<String> = match read_part_refs(refs) {
            Ok(table) => blobs_of_parts(&table),
            Err(_) => Vec::new(),
        };
        proof {
            if stored_table(refs) is Err {
                assert(texts(blobs@) =~= Seq::empty());
            }
        }
        push_reclaim(&mut plan, &blobs, rule_may());
        push_unless_missing(
            &mut plan,
            Call::RemoveDirAll { at: Place::Upload { id: self.upload_id } },
        );
        plan.finish(Outcome::Nothing);
        assert(plan@ =~= abort_steps(self.upload_id@, refs));
        plan
    }
}

/// A request for the parts of an upload.
#[derive(Debug)]
pub struct PartsListing {
    pub key: String,
    pub upload_id: String,
}

/// A list of parts that waits for the times of their records.
#[derive(Debug)]
pub struct PartTimes {
    pub parts: Vec<PartRefFile>,
}

/// The numbers of the parts.
pub open spec fn part_numbers(parts: Seq<PartRefFileView>) -> Seq<u32> {
    Seq::new(parts.len(), |i: int| parts[i].part_number)
}

/// The parts in the order of their numbers, read as signed ones.
pub open spec fn by_signed_number(table: Seq<PartRefFileView>) -> Seq<PartRefFileView> {
    let n = low_parts(table);
    table.skip(n) + table.take(n)
}

/// How many parts of a table have a number that is not negative when it is read as a signed one.
pub open spec fn low_parts(table: Seq<PartRefFileView>) -> int
    decreases table.len(),
{
    if table.len() == 0 {
        0
    } else if table.last().part_number <= i32::MAX {
        table.len() as int
    } else {
        low_parts(table.drop_last())
    }
}

/// What is listed of the parts. A time that is missing is 0.
pub open spec fn listed_parts(parts: Seq<PartRefFileView>, times: Seq<i64>) -> Seq<PartInfoView> {
    Seq::new(
        parts.len(),
        |i: int|
            PartInfoView {
                part_number: parts[i].part_number as i32,
                size: parts[i].size as i64,
                etag: quoted(parts[i].md5_hex),
                last_modified_unix: if i < times.len() {
                    times[i]
                } else {
                    0
                },
            },
    )
}

impl CasStore {
    /// Begins to list the parts of an upload.
    pub fn list_parts(&self, bucket: &str, key: &str, upload_id: &str) -> (r: (PartsListing, Plan))
        ensures
            r.0.key@ == key@,
            r.0.upload_id@ == upload_id@,
            r.1@ == upload_opening(bucket@, upload_id@),
    {
        (
            PartsListing { key: owned(key), upload_id: owned(upload_id) },
            open_upload(bucket, upload_id),
        )
    }
}

impl PartsListing {
    /// Goes on once the upload was looked at.
    pub fn admitted(&self, env: &Env, probe: UploadProbe) -> (r: Result<Plan, StorageError>)
        ensures
            match matched_upload(probe, env.bucket@, self.key@, true) {
                Ok(_) => r matches Ok(plan) && plan@ == seq![
                    StepView::Ask {
                        question: QuestionView::ReadPartRefs { id: self.upload_id@ },
                    },
                ],
                Err(e) => r == Err::<Plan, StorageError>(e),
            },
    {
        if let Err(e) = assert_upload_matches(
            probe,
            env.bucket.as_str(),
            self.key.as_str(),
            true,
        ) {
            return Err(e);
        }
        let mut plan = Plan::new();
        plan.ask(Question::ReadPartRefs { id: self.upload_id.clone() });
        assert(plan@.len() == 1);
        assert(plan@ =~= seq![plan@[0]]);
        Ok(plan)
    }

    /// Goes on once the parts were read.
    pub fn read(self, refs: Result<Vec<RefEntry>, IoError>) -> (r: Result<
        (PartTimes, Plan),
        StorageError,
    >)
        ensures
            match stored_table(refs) {
                Ok(table) => {
                    &&& r matches Ok(p)
                    &&& part_records(p.0.parts@) == by_signed_number(table)
                    &&& p.1@ == seq![
                        StepView::Ask {
                            question: QuestionView::RefTimes {
                                id: self.upload_id@,
                                numbers: part_numbers(by_signed_number(table)),
                            },
                        },
                    ]
                },
                Err(e) => r == Err::<(PartTimes, Plan), StorageError>(e),
            },
    {
        let mut table = match read_part_refs(refs) {
            Ok(table) => table,
            Err(e) => return Err(e),
        };
        let ghost all = part_records(table@);
        let mut low: usize = table.len();
        assert(all.take(low as int) =~= all);
        while low > 0 && table[low - 1].part_number > 0x7fff_ffff
            invariant
                low <= table@.len(),
                all == part_records(table@),
                low_parts(all) == low_parts(all.take(low as int)),
            decreases low,
        {
            proof {
                let t = all.take(low as int);
                assert(t.drop_last() =~= all.take(low - 1));
                assert(t.last() == table@[low - 1]@);
            }
            low = low - 1;
        }
        proof {
            let t = all.take(low as int);
            if low > 0 {
                assert(t.last() == table@[low - 1]@);
            }
            assert(low_parts(all) == low);
        }
        let mut parts = table.split_off(low);
        parts.append(&mut table);
        proof {
            assert(part_records(parts@) =~= by_signed_number(all));
        }
        let mut numbers: Vec<u32> = Vec::new();
        let mut i: usize = 0;
        while i < parts.len()
            invariant
                i <= parts@.len(),
                numbers@.len() == i,
                forall|j: int| 0 <= j < i ==> #[trigger] numbers@[j] == parts@[j].part_number,
            decreases parts@.len() - i,
        {
            numbers.push(parts[i].part_number);
            i = i + 1;
        }
        assert(numbers@ =~= part_numbers(part_records(parts@)));
        let mut plan = Plan::new();
        plan.ask(Question::RefTimes { id: self.upload_id, numbers });
        assert(plan@.len() == 1);
        assert(plan@ =~= seq![plan@[0]]);
        Ok((PartTimes { parts }, plan))
    }
}

impl PartTimes {
    /// Answers the request once the times are known.
    pub fn times(self, times: Vec<i64>) -> (r: Plan)
        ensures
            r@ == seq![
                StepView::Finish {
                    outcome: OutcomeView::Parts {
                        parts: listed_parts(part_records(self.parts@), times@),
                    },
                },
            ],
    {
        let mut out: Vec<PartInfo> = Vec::new();
        let mut i: usize = 0;
        let ghost want = listed_parts(part_records(self.parts@), times@);
        while i < self.parts.len()
            invariant
                i <= self.parts@.len(),
                out@.len() == i,
                want == listed_parts(part_records(self.parts@), times@),
                forall|j: int| 0 <= j < i ==> (#[trigger] out@[j])@ == want[j],
            decreases self.parts@.len() - i,
        {
            let p = &self.parts[i];
            out.push(
                PartInfo {
                    part_number: p.part_number as i32,
                    size: p.size as i64,
                    etag: quote(p.md5_hex.as_str()),
                    last_modified_unix: if i < times.len() {
                        times[i]
                    } else {
                        0
                    },
                },
            );
            i = i + 1;
        }
        assert(part_infos(out@) =~= want);
        let mut plan = Plan::new();
        plan.finish(Outcome::Parts { parts: out });
        assert(plan@.len() == 1);
        assert(plan@ =~= seq![plan@[0]]);
        plan
    }
}

/// A request for the uploads of a bucket.
#[derive(Debug)]
pub struct UploadsListing {
    /// How many uploads are listed at most.
    pub cap: usize,
}

/// At most this many directories are looked at for one list of uploads.
pub const UPLOAD_SCAN_CAP: usize = 4000;

/// The uploads in progress among the entries of the upload area, and whether the scan stopped
/// because `left` directories were looked at.
pub open spec fn scanned_uploads(entries: Seq<Result<UploadDir, IoError>>, left: int) -> Result<
    (Seq<MultipartUploadView>, bool),
    IoError,
>
    decreases entries.len(),
{
    if entries.len() == 0 {
        Ok((Seq::empty(), false))
    } else {
        match entries[0] {
            Err(e) => Err(e),
            Ok(d) => if !d.is_dir {
                scanned_uploads(entries.skip(1), left)
            } else if left <= 0 {
                Ok((Seq::empty(), true))
            } else {
                match scanned_uploads(entries.skip(1), left - 1) {
                    Err(e) => Err(e),
                    Ok((rest, capped)) => Ok(
                        (
                            match d.upload {
                                Some(u) => if d.completed {
                                    rest
                                } else {
                                    seq![u@] + rest
                                },
                                None => rest,
                            },
                            capped,
                        ),
                    ),
                }
            },
        }
    }
}

/// Uploads are listed by key, those of one key by id.
pub open spec fn upload_before(a: MultipartUploadView, b: MultipartUploadView) -> bool {
    text_before(a.key, b.key) || (a.key == b.key && text_before(a.upload_id, b.upload_id))
}

/// An ordered list of uploads with one more, behind those that do not come after it.
pub open spec fn with_upload(
    list: Seq<MultipartUploadView>,
    u: MultipartUploadView,
) -> Seq<MultipartUploadView>
    decreases list.len(),
{
    if list.len() > 0 && upload_before(u, list.last()) {
        with_upload(list.drop_last(), u).push(list.last())
    } else {
        list.push(u)
    }
}

/// The uploads in order.
pub open spec fn ordered_uploads(list: Seq<MultipartUploadView>) -> Seq<MultipartUploadView>
    decreases list.len(),
{
    if list.len() == 0 {
        Seq::empty()
    } else {
        with_upload(ordered_uploads(list.drop_last()), list.last())
    }
}

/// The list of uploads is in order.
pub open spec fn in_order(list: Seq<MultipartUploadView>) -> bool {
    forall|i: int, j: int|
        0 <= i < j < list.len() ==> !upload_before(#[trigger] list[j], #[trigger] list[i])
}

proof fn lemma_upload_order(a: MultipartUploadView, b: MultipartUploadView)
    ensures
        upload_before(a, b) ==> !upload_before(b, a),
{
    lemma_text_order(a.key, b.key);
    lemma_text_order(a.upload_id, b.upload_id);
}

proof fn lemma_with_upload(list: Seq<MultipartUploadView>, u: MultipartUploadView)
    requires
        in_order(list),
    ensures
        in_order(with_upload(list, u)),
        with_upload(list, u).to_multiset() =~= list.to_multiset().insert(u),
        forall|i: int|
            0 <= i < with_upload(list, u).len() ==> #[trigger] with_upload(list, u)[i] == u
                || list.contains(with_upload(list, u)[i]),
    decreases list.len(),
{
    let all = with_upload(list, u);
    broadcast use vstd::seq_lib::group_to_multiset_ensures;

    if list.len() > 0 && upload_before(u, list.last()) {
        let front = list.drop_last();
        lemma_with_upload(front, u);
        let early = with_upload(front, u);
        assert(list =~= front.push(list.last()));
        assert forall|i: int| 0 <= i < early.len() implies !upload_before(
            list.last(),
            #[trigger] early[i],
        ) by {
            lemma_upload_order(u, list.last());
            if early[i] != u {
                let k = choose|k: int| 0 <= k < front.len() && front[k] == early[i];
                assert(list[k] == early[i]);
            }
        }
        assert forall|i: int| 0 <= i < all.len() implies #[trigger] all[i] == u || list.contains(
            all[i],
        ) by {
            if i < early.len() {
                if early[i] != u {
                    let k = choose|k: int| 0 <= k < front.len() && front[k] == early[i];
                    assert(list[k] == all[i]);
                }
            } else {
                assert(list[list.len() - 1] == all[i]);
            }
        }
    } else {
        assert forall|i: int| 0 <= i < list.len() implies !upload_before(u, #[trigger] list[i]) by {
            if i < list.len() - 1 && upload_before(u, list[i]) {
                lemma_not_after(u, list[i], list.last());
            }
        }
        assert forall|i: int| 0 <= i < all.len() implies #[trigger] all[i] == u || list.contains(
            all[i],
        ) by {
            if i < list.len() {
                assert(list[i] == all[i]);
            }
        }
    }
}

/// What comes before an entry comes before all that do not come before that entry.
proof fn lemma_not_after(
    u: MultipartUploadView,
    a: MultipartUploadView,
    b: MultipartUploadView,
)
    requires
        upload_before(u, a),
        !upload_before(b, a),
    ensures
        upload_before(u, b),
{
    lemma_text_order(b.key, a.key);
    lemma_text_order(b.upload_id, a.upload_id);
    lemma_text_transitive(u.key, a.key, b.key);
    lemma_text_transitive(u.upload_id, a.upload_id, b.upload_id);
}

/// The uploads of a list come out by key and id, and none is lost or added.
pub proof fn uploads_come_out_in_order(list: Seq<MultipartUploadView>)
    ensures
        in_order(ordered_uploads(list)),
        ordered_uploads(list).to_multiset() =~= list.to_multiset(),
    decreases list.len(),
{
    broadcast use vstd::seq_lib::group_to_multiset_ensures;

    if list.len() > 0 {
        let front = list.drop_last();
        uploads_come_out_in_order(front);
        lemma_with_upload(ordered_uploads(front), list.last());
        assert(list =~= front.push(list.last()));
    } else {
        assert(ordered_uploads(list) =~= list);
    }
}

/// The first `cap` uploads in order, and whether there are more.
pub open spec fn uploads_page(
    found: Seq<MultipartUploadView>,
    capped: bool,
    cap: int,
) -> OutcomeView {
    let all = ordered_uploads(found);
    OutcomeView::Uploads {
        uploads: if all.len() > cap {
            all.take(cap)
        } else {
            all
        },
        truncated: capped || all.len() > cap,
    }
}

pub open spec fn lesser(a: usize, b: usize) -> usize {
    if a <= b {
        a
    } else {
        b
    }
}

impl CasStore {
    /// Begins to list the uploads of a bucket.
    pub fn list_multipart_uploads(&self, bucket: &str, max_uploads: usize) -> (r: (
        UploadsListing,
        Plan,
    ))
        ensures
            r.0.cap == lesser(max_uploads, MAX_UPLOADS_CAP),
            r.1@ == (if is_bucket_name(bucket@) {
                seq![
                    head_bucket_step(),
                    StepView::Ask {
                        question: QuestionView::ScanUploads { limit: UPLOAD_SCAN_CAP },
                    },
                ]
            } else {
                refusal(StorageError::PathTraversal)
            }),
    {
        let cap: usize = if max_uploads <= MAX_UPLOADS_CAP {
            max_uploads
        } else {
            MAX_UPLOADS_CAP
        };
        let plan = match validate_bucket_component(bucket) {
            Ok(_) => {
                let mut plan = Plan::new();
                push_head_bucket(&mut plan);
                plan.ask(Question::ScanUploads { limit: UPLOAD_SCAN_CAP });
                assert(plan@ =~= seq![
                    head_bucket_step(),
                    StepView::Ask {
                        question: QuestionView::ScanUploads { limit: UPLOAD_SCAN_CAP },
                    },
                ]);
                plan
            },
            Err(e) => refuse(e),
        };
        (UploadsListing { cap }, plan)
    }
}

/// Whether `a` is listed before `b`.
fn lists_before(a: &MultipartUpload, b: &MultipartUpload) -> (r: bool)
    ensures
        r == upload_before(a@, b@),
{
    before(a.key.as_str(), b.key.as_str()) || (same(a.key.as_str(), b.key.as_str()) && before(
        a.upload_id.as_str(),
        b.upload_id.as_str(),
    ))
}

/// Puts an upload into an ordered list.
fn insert_upload(list: &mut Vec<MultipartUpload>, u: MultipartUpload)
    ensures
        upload_views(final(list)@) == with_upload(upload_views(old(list)@), u@),
{
    let ghost all = upload_views(list@);
    let ghost added = u@;
    let mut at: usize = list.len();
    assert(all.take(at as int) =~= all);
    assert(with_upload(all, added) =~= with_upload(all.take(at as int), added) + all.skip(
        at as int,
    ));
    while at > 0 && lists_before(&u, &list[at - 1])
        invariant
            at <= list@.len(),
            all == upload_views(list@),
            added == u@,
            with_upload(all, added) == with_upload(all.take(at as int), added) + all.skip(
                at as int,
            ),
        decreases at,
    {
        proof {
            let t = all.take(at as int);
            assert(t.last() == list@[at - 1]@);
            assert(t.drop_last() =~= all.take(at - 1));
            assert(with_upload(t.drop_last(), added).push(t.last()) + all.skip(at as int)
                =~= with_upload(t.drop_last(), added) + all.skip(at - 1));
        }
        at = at - 1;
    }
    proof {
        let t = all.take(at as int);
        if at > 0 {
            assert(t.last() == list@[at - 1]@);
        }
        assert(with_upload(t, added) =~= t.push(added));
    }
    list.insert(at, u);
    assert(upload_views(list@) =~= all.take(at as int).push(added) + all.skip(at as int));
}

impl UploadsListing {
    /// Answers the request once the upload area was scanned.
    pub fn scanned(
        self,
        scan: Result<Vec<Result<UploadDir, IoError>>, IoError>,
    ) -> (r: Result<Plan, StorageError>)
        ensures
            match scan {
                Ok(entries) => match scanned_uploads(entries@, UPLOAD_SCAN_CAP as int) {
                    Ok(found) => r matches Ok(plan) && plan@ == seq![
                        StepView::Finish {
                            outcome: uploads_page(found.0, found.1, self.cap as int),
                        },
                    ],
                    Err(e) => r == Err::<Plan, StorageError>(StorageError::Io(e)),
                },
                Err(e) => if e.kind == IoErrorKind::NotFound {
                    r matches Ok(plan) && plan@ == seq![
                        StepView::Finish {
                            outcome: uploads_page(Seq::empty(), false, self.cap as int),
                        },
                    ]
                } else {
                    r == Err::<Plan, StorageError>(StorageError::Io(e))
                },
            },
    {
        let (mut list, capped): (Vec<MultipartUpload>, bool) = match scan {
            Ok(entries) => match ordered_scan(&entries, UPLOAD_SCAN_CAP) {
                Ok(found) => found,
                Err(e) => return Err(StorageError::Io(e)),
            },
            Err(e) => {
                if e.kind != IoErrorKind::NotFound {
                    return Err(StorageError::Io(e));
                }
                (Vec::new(), false)
            },
        };
        let ghost all = upload_views(list@);
        proof {
            if scan is Err {
                assert(all =~= Seq::empty());
            }
        }
        let truncated = capped || list.len() > self.cap;
        if list.len() > self.cap {
            list.truncate(self.cap);
            assert(upload_views(list@) =~= all.take(self.cap as int));
        }
        let mut plan = Plan::new();
        plan.finish(Outcome::Uploads { uploads: list, truncated });
        assert(plan@.len() == 1);
        assert(plan@ =~= seq![plan@[0]]);
        Ok(plan)
    }
}

/// The uploads in progress among the entries of the upload area, in order.
fn ordered_scan(entries: &Vec<Result<UploadDir, IoError>>, limit: usize) -> (r: Result<
    (Vec<MultipartUpload>, bool),
    IoError,
>)
    ensures
        match scanned_uploads(entries@, limit as int) {
            Ok(found) => r matches Ok(p) && upload_views(p.0@) == ordered_uploads(found.0) && p.1
                == found.1,
            Err(e) => r == Err::<(Vec<MultipartUpload>, bool), IoError>(e),
        },
{
    let mut list: Vec<MultipartUpload> = Vec::new();
    let mut left: usize = limit;
    let mut i: usize = 0;
    let ghost mut seen = Seq::<MultipartUploadView>::empty();
    let ghost whole = scanned_uploads(entries@, limit as int);
    proof {
        assert(entries@.skip(0) =~= entries@);
        assert(upload_views(list@) =~= Seq::empty());
        if let Ok(found) = whole {
            assert(seen + found.0 =~= found.0);
        }
    }
    while i < entries.len()
        invariant
            i <= entries@.len(),
            upload_views(list@) == ordered_uploads(seen),
            whole == scanned_uploads(entries@, limit as int),
            match scanned_uploads(entries@.skip(i as int), left as int) {
                Ok(rest) => whole == Ok::<(Seq<MultipartUploadView>, bool), IoError>(
                    (seen + rest.0, rest.1),
                ),
                Err(e) => whole == Err::<(Seq<MultipartUploadView>, bool), IoError>(e),
            },
        decreases entries@.len() - i,
    {
        let ghost rest = entries@.skip(i as int);
        proof {
            assert(rest[0] == entries@[i as int]);
            assert(rest.skip(1) =~= entries@.skip(i + 1));
        }
        match &entries[i] {
            Err(e) => return Err(*e),
            Ok(d) => {
                if d.is_dir {
                    if left == 0 {
                        proof {
                            assert(seen + Seq::<MultipartUploadView>::empty() =~= seen);
                        }
                        return Ok((list, true));
                    }
                    left = left - 1;
                    if let Some(u) = &d.upload {
                        if !d.completed {
                            insert_upload(&mut list, u.clone());
                            proof {
                                let more = seen.push(u@);
                                assert(more.drop_last() =~= seen);
                                if let Ok(r) = scanned_uploads(rest.skip(1), left as int) {
                                    assert(seen + (seq![u@] + r.0) =~= more + r.0);
                                }
                                seen = more;
                            }
                        }
                    }
                }
            },
        }
        i = i + 1;
    }
    proof {
        assert(seen + Seq::<MultipartUploadView>::empty() =~= seen);
    }
    Ok((list, false))
}

} // verus!
