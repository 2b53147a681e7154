//! Uploads in parts in the plain layout.
//!
//! The parts of an object are not joined: they are moved next to where its data file would be, and
//! its sidecar names them.

use vstd::prelude::*;
use crate::blob::md5_digest;
use crate::cas::complete::{composite_etag, composite_tag, unquote, unquoted};
use crate::cas::store::{
    default_type, may_do, must_do, quote, quoted, refusal, refuse, stored_type, Env,
};
use crate::filesystem::objects::{push_sidecar, sidecar_steps, tmp_suffix};
use crate::filesystem::store::{
    beside, find_bucket_step, is_plain_key, object_parent, parent_of, push_find_bucket,
    validate_object_path, Filesystem,
};
use crate::metadata::{part_refs, ObjectMetadata, ObjectMetadataView, PartRef, PartRefView};
use crate::numbers::{parse_i32, parsed_i32, part_name, part_stem};
use crate::outside::{hex_encode, hex_text, md5_of};
use crate::plan::call::{
    part_infos, upload_views, BodyDigest, Call, CallView, Outcome, OutcomeView, PlainPart,
    PlainPartEntry, Question, QuestionView, Report,
};
use crate::plan::place::{locate, place_path, Place, PlaceView};
use crate::plan::runner::{OnError, Plan, Rule, Step, StepView};
use crate::text::{
    before, chars_of, concat, contains, has_text, lemma_text_order, lemma_text_transitive, owned,
    same, text_before,
};
use crate::types::{
    is_bucket_name, CompletePart, IoError, IoErrorKind, MultipartUpload, MultipartUploadView,
    PartInfo, PartInfoView, StorageError,
};

verus! {

/// The file that records an upload.
pub const RECORD_FILE: &'static str = "meta.json";

/// How an upload is opened: its directory is created and its record is written.
pub open spec fn create_steps(upload: MultipartUploadView) -> Seq<StepView> {
    let id = upload.upload_id;
    seq![
        find_bucket_step(),
        must_do(
            CallView::CreateDirAll { at: Place::PlainUploadFile { id, name: "parts"@ } },
            Report::Io,
        ),
        must_do(
            CallView::WriteUpload {
                at: Place::PlainUploadFile { id, name: RECORD_FILE@ },
                upload,
                sync: false,
            },
            Report::Io,
        ),
        StepView::Finish { outcome: OutcomeView::UploadId { id } },
    ]
}

/// The record of the upload has to be there.
pub open spec fn find_upload_step(id: Seq<char>) -> StepView {
    must_do(
        CallView::CheckExists { at: Place::PlainUploadFile { id, name: RECORD_FILE@ } },
        Report::Given(StorageError::NoSuchUpload),
    )
}

fn push_find_upload(plan: &mut Plan, id: &str)
    ensures
        final(plan)@ == old(plan)@.push(find_upload_step(id@)),
{
    plan.must(
        Call::CheckExists {
            at: Place::PlainUploadFile { id: owned(id), name: owned(RECORD_FILE) },
        },
        Report::Given(StorageError::NoSuchUpload),
    );
}

/// A part while its body is written.
#[derive(Debug)]
pub struct PlainPartUpload {
    pub upload_id: String,
    pub part_number: i32,
    /// Sets the file that is being written apart.
    pub tmp: String,
}

/// Where the body of a part is written to at first.
pub open spec fn part_tmp(id: Seq<char>, n: int, tmp: Seq<char>) -> PlaceView {
    Place::PlainPart { id, name: part_name(n) + tmp_suffix(tmp) }
}

/// How a part begins to be written.
pub open spec fn part_opening(id: Seq<char>, n: int, tmp: Seq<char>) -> Seq<StepView> {
    seq![
        find_upload_step(id),
        StepView::Defer { call: CallView::RemoveFile { at: part_tmp(id, n, tmp) } },
        StepView::Ask { question: QuestionView::StreamFile { at: part_tmp(id, n, tmp) } },
    ]
}

/// Once the body of a part is written, it is put in place.
pub open spec fn part_steps(
    id: Seq<char>,
    n: int,
    tmp: Seq<char>,
    etag: Seq<char>,
) -> Seq<StepView> {
    seq![
        must_do(
            CallView::Rename {
                src: part_tmp(id, n, tmp),
                dst: Place::PlainPart { id, name: part_name(n) },
            },
            Report::Io,
        ),
        StepView::Disarm,
        StepView::Finish { outcome: OutcomeView::Etag { etag } },
    ]
}

fn part_tmp_place(id: &str, n: i32, tmp: &str) -> (r: Place<String>)
    ensures
        r@ == part_tmp(id@, n as int, tmp@),
{
    let suffix = concat(".tmp.", tmp);
    let stem = part_stem(n);
    Place::PlainPart { id: owned(id), name: concat(stem.as_str(), suffix.as_str()) }
}

impl Filesystem {
    /// Opens an upload of an object in parts.
    pub fn create_multipart_upload(
        &self,
        bucket: &str,
        key: &str,
        content_type: &str,
        user_metadata: Vec<(String, String)>,
        upload_id: String,
        now: i64,
    ) -> (r: Plan)
        ensures
            r@ == (if is_bucket_name(bucket@) && is_plain_key(key@) {
                create_steps(
                    MultipartUploadView {
                        upload_id: upload_id@,
                        bucket: bucket@,
                        key: key@,
                        initiated_unix: now,
                        content_type: content_type@,
                        user_metadata: crate::types::pairs(user_metadata@),
                    },
                )
            } else {
                refusal(StorageError::PathTraversal)
            }),
    {
        if let Err(e) = validate_object_path(bucket, key) {
            return refuse(e);
        }
        let upload = MultipartUpload {
            upload_id: upload_id.clone(),
            bucket: owned(bucket),
            key: owned(key),
            initiated_unix: now,
            content_type: owned(content_type),
            user_metadata,
        };
        let ghost want = create_steps(upload@);
        let mut plan = Plan::new();
        push_find_bucket(&mut plan);
        plan.must(
            Call::CreateDirAll {
                at: Place::PlainUploadFile { id: upload_id.clone(), name: owned("parts") },
            },
            Report::Io,
        );
        plan.must(
            Call::WriteUpload {
                at: Place::PlainUploadFile { id: upload_id.clone(), name: owned(RECORD_FILE) },
                upload,
                sync: false,
            },
            Report::Io,
        );
        plan.finish(Outcome::UploadId { id: upload_id });
        assert(plan@ =~= want);
        plan
    }

    /// Begins to write a part.
    pub fn upload_part(&self, upload_id: &str, part_number: i32, tmp: String) -> (r: (
        PlainPartUpload,
        Plan,
    ))
        ensures
            r.0.upload_id@ == upload_id@,
            r.0.part_number == part_number,
            r.0.tmp == tmp,
            r.1@ == part_opening(upload_id@, part_number as int, tmp@),
    {
        let mut plan = Plan::new();
        push_find_upload(&mut plan, upload_id);
        plan.defer(Call::RemoveFile { at: part_tmp_place(upload_id, part_number, tmp.as_str()) });
        plan.ask(Question::StreamFile { at: part_tmp_place(upload_id, part_number, tmp.as_str()) });
        assert(plan@ =~= part_opening(upload_id@, part_number as int, tmp@));
        (PlainPartUpload { upload_id: owned(upload_id), part_number, tmp }, plan)
    }

    /// Gives up an upload: its directory is removed.
    pub fn abort_multipart_upload(&self, upload_id: &str) -> (r: Plan)
        ensures
            r@ == seq![
                find_upload_step(upload_id@),
                must_do(
                    CallView::RemoveDirAll { at: Place::PlainUpload { id: upload_id@ } },
                    Report::Io,
                ),
                StepView::Finish { outcome: OutcomeView::Nothing },
            ],
    {
        let mut plan = Plan::new();
        push_find_upload(&mut plan, upload_id);
        plan.must(
            Call::RemoveDirAll { at: Place::PlainUpload { id: owned(upload_id) } },
            Report::Io,
        );
        plan.finish(Outcome::Nothing);
        assert(plan@ =~= seq![plan@[0], plan@[1], plan@[2]]);
        plan
    }
}

impl PlainPartUpload {
    /// Goes on once the body is written, or could not be.
    pub fn streamed(self, result: Result<BodyDigest, IoError>) -> (r: Result<Plan, StorageError>)
        ensures
            match result {
                Err(e) => r == Err::<Plan, StorageError>(StorageError::Io(e)),
                Ok(body) => r matches Ok(plan) && plan@ == part_steps(
                    self.upload_id@,
                    self.part_number as int,
                    self.tmp@,
                    quoted(hex_text(body.digest@)),
                ),
            },
    {
        let body = match result {
            Ok(body) => body,
            Err(e) => return Err(StorageError::Io(e)),
        };
        let hex = hex_encode(body.digest.as_slice());
        let etag = quote(hex.as_str());
        let ghost want = part_steps(
            self.upload_id@,
            self.part_number as int,
            self.tmp@,
            etag@,
        );
        let mut plan = Plan::new();
        plan.must(
            Call::Rename {
                src: part_tmp_place(self.upload_id.as_str(), self.part_number, self.tmp.as_str()),
                dst: Place::PlainPart { id: self.upload_id, name: part_stem(self.part_number) },
            },
            Report::Io,
        );
        plan.push(Step::Disarm);
        plan.finish(Outcome::Etag { etag });
        assert(plan@ =~= want);
        Ok(plan)
    }
}

/// An upload whose record is read to complete it.
#[derive(Debug)]
pub struct PlainCompleting {
    pub upload_id: String,
    pub parts: Vec<CompletePart>,
    /// Unix seconds.
    pub now: i64,
}

/// An upload that is completed, while its parts are looked at one after the other.
#[derive(Debug)]
pub struct PlainAssembling {
    pub upload: MultipartUpload,
    pub upload_id: String,
    pub parts: Vec<CompletePart>,
    /// The parts that were looked at, as the sidecar is going to name them.
    pub found: Vec<PartRef>,
    /// Their digests, one after the other.
    pub digests: Vec<u8>,
    /// The sum of their sizes.
    pub total: u64,
    pub now: i64,
}

/// The numbers of the claimed parts ascend.
pub open spec fn numbers_ascend(parts: Seq<CompletePart>) -> bool {
    forall|i: int|
        0 < i < parts.len() ==> (#[trigger] parts[i]).part_number > parts[i - 1].part_number
}

fn check_numbers(parts: &Vec<CompletePart>) -> (r: bool)
    ensures
        r == numbers_ascend(parts@),
{
    let mut k: usize = 1;
    while k < parts.len()
        invariant
            1 <= k,
            forall|j: int|
                0 < j < k && j < parts@.len() ==> (#[trigger] parts@[j]).part_number > parts@[j
                    - 1].part_number,
        decreases parts@.len() - k,
    {
        if parts[k].part_number <= parts[k - 1].part_number {
            assert(!(parts@[k as int].part_number > parts@[k - 1].part_number));
            return false;
        }
        k = k + 1;
    }
    true
}

/// Whether a part is the one that the client claims. A claim without an entity tag fits any part.
pub open spec fn tag_fits(etag: Seq<char>, md5_hex: Seq<char>) -> bool {
    etag.len() == 0 || unquoted(etag) == md5_hex
}

/// The parts are moved next to the data file.
pub open spec fn store_steps(
    id: Seq<char>,
    key: Seq<char>,
    parts: Seq<PartRefView>,
) -> Seq<StepView>
    decreases parts.len(),
{
    if parts.len() == 0 {
        Seq::empty()
    } else {
        let name = part_name(parts.last().part_number as int);
        store_steps(id, key, parts.drop_last()).push(
            must_do(
                CallView::Rename {
                    src: Place::PlainPart { id, name },
                    dst: Place::StoredPart { key, name },
                },
                Report::Io,
            ),
        )
    }
}

/// Once all parts were found to be there: the parts of an older version make way for them, an empty
/// data file marks that the object exists, its sidecar is written, and what is left of the upload
/// is removed.
pub open spec fn complete_steps(
    id: Seq<char>,
    key: Seq<char>,
    parts: Seq<PartRefView>,
    metadata: ObjectMetadataView,
) -> Seq<StepView> {
    let store = Place::ObjectSide { key, suffix: ".parts"@ };
    seq![
        must_do(CallView::CreateDirAll { at: object_parent(key) }, Report::Io),
        StepView::Do {
            call: CallView::RemoveDirAll { at: store },
            rule: Rule {
                count: None,
                missing_ok: true,
                on_error: OnError::Fail(Report::Io),
                if_clean: false,
            },
        },
        must_do(CallView::CreateDirAll { at: store }, Report::Io),
    ] + store_steps(id, key, parts) + seq![
        may_do(
            CallView::WriteBytes { at: Place::Object { key }, data: Seq::empty(), sync: false },
        ),
    ] + sidecar_steps(key, metadata) + seq![
        may_do(CallView::RemoveDirAll { at: Place::PlainUpload { id } }),
        StepView::Finish { outcome: OutcomeView::Etag { etag: metadata.etag } },
    ]
}

/// The sidecar of an object that was uploaded in parts.
pub open spec fn complete_metadata(
    upload: MultipartUploadView,
    parts: Seq<PartRefView>,
    total: u64,
    etag: Seq<char>,
    now: i64,
) -> ObjectMetadataView {
    ObjectMetadataView {
        content_type: stored_type(upload.content_type),
        content_length: total as i64,
        etag,
        last_modified: now,
        user_metadata: upload.user_metadata,
        content_disposition: Seq::empty(),
        content_encoding: Seq::empty(),
        cache_control: Seq::empty(),
        multipart: Some(parts),
    }
}

/// A part as the sidecar names it.
pub open spec fn stored_part(
    env: &Env,
    key: Seq<char>,
    n: i32,
    size: u64,
    digest: Seq<u8>,
) -> PartRefView {
    PartRefView {
        part_number: n,
        path: place_path(
            env.root@,
            env.bucket@,
            Place::StoredPart { key, name: part_name(n as int) },
        ),
        size,
        md5_hex: hex_text(digest),
    }
}

/// The next part is looked at, or the object is put together.
pub open spec fn assembly_steps(
    upload: MultipartUploadView,
    id: Seq<char>,
    parts: Seq<CompletePart>,
    found: Seq<PartRefView>,
    digests: Seq<u8>,
    total: u64,
    now: i64,
) -> Seq<StepView> {
    if found.len() < parts.len() {
        seq![
            StepView::Ask {
                question: QuestionView::ProbePlainPart {
                    at: Place::PlainPart {
                        id,
                        name: part_name(parts[found.len() as int].part_number as int),
                    },
                },
            },
        ]
    } else {
        complete_steps(
            id,
            upload.key,
            found,
            complete_metadata(
                upload,
                found,
                total,
                composite_tag(md5_of(digests), parts.len()),
                now,
            ),
        )
    }
}

impl Filesystem {
    /// Begins to complete an upload. The task works on the bucket that the upload records.
    pub fn complete_multipart_upload(
        &self,
        upload_id: &str,
        parts: Vec<CompletePart>,
        now: i64,
    ) -> (r: (PlainCompleting, Plan))
        ensures
            r.0.upload_id@ == upload_id@,
            r.0.parts == parts,
            r.0.now == now,
            r.1@ == seq![
                StepView::Ask { question: QuestionView::ReadPlainUpload { id: upload_id@ } },
            ],
    {
        let mut plan = Plan::new();
        plan.ask(Question::ReadPlainUpload { id: owned(upload_id) });
        assert(plan@ =~= seq![plan@[0]]);
        (PlainCompleting { upload_id: owned(upload_id), parts, now }, plan)
    }
}

impl PlainCompleting {
    /// Goes on once the record of the upload was read.
    pub fn found(self, record: Result<MultipartUpload, IoError>) -> (r: Result<
        (PlainAssembling, Plan),
        StorageError,
    >)
        ensures
            match record {
                Err(e) => r == Err::<(PlainAssembling, Plan), StorageError>(
                    if e.kind == IoErrorKind::NotFound {
                        StorageError::NoSuchUpload
                    } else {
                        StorageError::Io(e)
                    },
                ),
                Ok(upload) => if !(is_bucket_name(upload.bucket@) && is_plain_key(upload.key@)) {
                    r == Err::<(PlainAssembling, Plan), StorageError>(StorageError::PathTraversal)
                } else if !numbers_ascend(self.parts@) {
                    r == Err::<(PlainAssembling, Plan), StorageError>(
                        StorageError::InvalidPartOrder,
                    )
                } else {
                    &&& r matches Ok(p)
                    &&& p.0.upload == upload
                    &&& p.0.upload_id == self.upload_id
                    &&& p.0.parts == self.parts
                    &&& p.0.is_fresh()
                    &&& p.0.now == self.now
                    &&& p.1@ == seq![find_bucket_step()] + assembly_steps(
                        upload@,
                        self.upload_id@,
                        self.parts@,
                        Seq::empty(),
                        Seq::empty(),
                        0,
                        self.now,
                    )
                },
            },
    {
        let upload = match record {
            Ok(upload) => upload,
            Err(e) => {
                if e.kind == IoErrorKind::NotFound {
                    return Err(StorageError::NoSuchUpload);
                }
                return Err(StorageError::Io(e));
            },
        };
        if let Err(e) = validate_object_path(upload.bucket.as_str(), upload.key.as_str()) {
            return Err(e);
        }
        if !check_numbers(&self.parts) {
            return Err(StorageError::InvalidPartOrder);
        }
        let a = PlainAssembling {
            upload,
            upload_id: self.upload_id,
            parts: self.parts,
            found: Vec::new(),
            digests: Vec::new(),
            total: 0,
            now: self.now,
        };
        let mut plan = Plan::new();
        push_find_bucket(&mut plan);
        let ghost front = plan@;
        assert(front =~= seq![find_bucket_step()]);
        a.push_next(&mut plan);
        proof {
            assert(part_refs(a.found@) =~= Seq::empty());
            assert(a.digests@ =~= Seq::empty());
        }
        Ok((a, plan))
    }
}

impl PlainAssembling {
    /// No part was looked at yet.
    pub open spec fn is_fresh(&self) -> bool {
        &&& self.found@.len() == 0
        &&& self.digests@.len() == 0
        &&& self.total == 0
    }

    /// Whether this becomes `next` once its next part was looked at, which has this size and this
    /// digest.
    pub open spec fn grows_to(&self, env: &Env, size: u64, digest: Seq<u8>, next: Self) -> bool {
        &&& next.upload == self.upload
        &&& next.upload_id == self.upload_id
        &&& next.parts == self.parts
        &&& part_refs(next.found@) == part_refs(self.found@).push(
            stored_part(
                env,
                self.upload.key@,
                self.parts@[self.found@.len() as int].part_number,
                size,
                digest,
            ),
        )
        &&& next.digests@ == self.digests@ + digest
        &&& next.total == self.total + size
        &&& next.now == self.now
    }

    /// What follows.
    pub open spec fn next_steps(&self) -> Seq<StepView> {
        assembly_steps(
            self.upload@,
            self.upload_id@,
            self.parts@,
            part_refs(self.found@),
            self.digests@,
            self.total,
            self.now,
        )
    }

    fn push_next(&self, plan: &mut Plan)
        ensures
            final(plan)@ == old(plan)@ + self.next_steps(),
    {
        assert(part_refs(self.found@).len() == self.found@.len());
        if self.found.len() < self.parts.len() {
            plan.ask(
                Question::ProbePlainPart {
                    at: Place::PlainPart {
                        id: self.upload_id.clone(),
                        name: part_stem(self.parts[self.found.len()].part_number),
                    },
                },
            );
            assert(plan@ =~= old(plan)@ + self.next_steps());
            return;
        }
        let digest = md5_digest(self.digests.as_slice());
        let etag = composite_etag(digest.as_slice(), self.parts.len());
        let metadata = ObjectMetadata {
            content_type: default_type(self.upload.content_type.as_str()),
            content_length: self.total as i64,
            etag: etag.clone(),
            last_modified: self.now,
            user_metadata: crate::types::copy_pairs(&self.upload.user_metadata),
            content_disposition: String::new(),
            content_encoding: String::new(),
            cache_control: String::new(),
            multipart: Some(crate::metadata::copy_parts(&self.found)),
        };
        let ghost parts = part_refs(self.found@);
        let ghost want = complete_metadata(self.upload@, parts, self.total, etag@, self.now);
        assert(metadata@ =~= want);
        let key = self.upload.key.as_str();
        plan.must(Call::CreateDirAll { at: parent_of(key) }, Report::Io);
        plan.push(
            Step::Do {
                call: Call::RemoveDirAll { at: beside(key, ".parts") },
                rule: Rule {
                    count: None,
                    missing_ok: true,
                    on_error: OnError::Fail(Report::Io),
                    if_clean: false,
                },
            },
        );
        plan.must(Call::CreateDirAll { at: beside(key, ".parts") }, Report::Io);
        self.push_store(plan);
        plan.may(
            Call::WriteBytes {
                at: Place::Object { key: self.upload.key.clone() },
                data: Vec::new(),
                sync: false,
            },
        );
        push_sidecar(plan, key, metadata);
        plan.may(Call::RemoveDirAll { at: Place::PlainUpload { id: self.upload_id.clone() } });
        plan.finish(Outcome::Etag { etag });
        assert(plan@ =~= old(plan)@ + complete_steps(self.upload_id@, key@, parts, want));
    }

    fn push_store(&self, plan: &mut Plan)
        ensures
            final(plan)@ == old(plan)@ + store_steps(
                self.upload_id@,
                self.upload.key@,
                part_refs(self.found@),
            ),
    {
        let ghost parts = part_refs(self.found@);
        let ghost front = plan@;
        let mut i: usize = 0;
        proof {
            assert(parts.take(0) =~= Seq::empty());
            assert(front + store_steps(self.upload_id@, self.upload.key@, parts.take(0)) =~= front);
        }
        while i < self.found.len()
            invariant
                i <= self.found@.len(),
                parts == part_refs(self.found@),
                plan@ == front + store_steps(
                    self.upload_id@,
                    self.upload.key@,
                    parts.take(i as int),
                ),
            decreases self.found@.len() - i,
        {
            proof {
                let t = parts.take(i + 1);
                assert(t.drop_last() =~= parts.take(i as int));
                assert(t.last() == self.found@[i as int]@);
            }
            plan.must(
                Call::Rename {
                    src: Place::PlainPart {
                        id: self.upload_id.clone(),
                        name: part_stem(self.found[i].part_number),
                    },
                    dst: Place::StoredPart {
                        key: self.upload.key.clone(),
                        name: part_stem(self.found[i].part_number),
                    },
                },
                Report::Io,
            );
            i = i + 1;
            assert(plan@ =~= front + store_steps(
                self.upload_id@,
                self.upload.key@,
                parts.take(i as int),
            ));
        }
        assert(parts.take(i as int) =~= parts);
    }

    /// Goes on once a part was looked at.
    pub fn probed(self, env: &Env, part: PlainPart) -> (r: Result<
        (PlainAssembling, Plan),
        StorageError,
    >)
        ensures
            ({
                let k = self.found@.len() as int;
                if k >= self.parts@.len() {
                    r == Err::<(PlainAssembling, Plan), StorageError>(StorageError::InvalidPart)
                } else {
                    match (part.size, part.digest) {
                        (None, _) => r == Err::<(PlainAssembling, Plan), StorageError>(
                            StorageError::InvalidPart,
                        ),
                        (_, Err(e)) => r == Err::<(PlainAssembling, Plan), StorageError>(
                            StorageError::Io(e),
                        ),
                        (Some(size), Ok(digest)) => if tag_fits(
                            self.parts@[k].etag@,
                            hex_text(digest@),
                        ) && self.total + size <= u64::MAX {
                            &&& r matches Ok(p)
                            &&& self.grows_to(env, size, digest@, p.0)
                            &&& p.1@ == p.0.next_steps()
                        } else {
                            r == Err::<(PlainAssembling, Plan), StorageError>(
                                StorageError::InvalidPart,
                            )
                        },
                    }
                }
            }),
    {
        if self.found.len() >= self.parts.len() {
            return Err(StorageError::InvalidPart);
        }
        let size: u64 = match part.size {
            Some(size) => size,
            None => return Err(StorageError::InvalidPart),
        };
        let mut digest = match part.digest {
            Ok(digest) => digest,
            Err(e) => return Err(StorageError::Io(e)),
        };
        let ghost bytes = digest@;
        let ghost found = part_refs(self.found@);
        let mut a = self;
        let hex = hex_encode(digest.as_slice());
        let claim = &a.parts[a.found.len()];
        let number: i32 = claim.part_number;
        if !claim.etag.as_str().is_empty() && !same(unquote(claim.etag.as_str()), hex.as_str()) {
            return Err(StorageError::InvalidPart);
        }
        let total: u64 = match a.total.checked_add(size) {
            Some(total) => total,
            None => return Err(StorageError::InvalidPart),
        };
        let path = locate(
            env.root.as_str(),
            env.bucket.as_str(),
            &Place::StoredPart { key: a.upload.key.clone(), name: part_stem(number) },
        );
        let next = PartRef { part_number: number, path, size, md5_hex: hex };
        let ghost view = next@;
        a.found.push(next);
        a.digests.append(&mut digest);
        a.total = total;
        proof {
            assert(part_refs(a.found@) =~= found.push(view));
            assert(a.digests@ =~= self.digests@ + bytes);
        }
        let mut plan = Plan::new();
        a.push_next(&mut plan);
        assert(plan@ =~= a.next_steps());
        Ok((a, plan))
    }
}

/// An upload is listed if it is for the bucket; all of them are listed for no bucket.
pub open spec fn is_listed(u: MultipartUploadView, bucket: Seq<char>) -> bool {
    bucket.len() == 0 || u.bucket == bucket
}

/// The uploads that are listed, in the order in which they were found, or the first error.
pub open spec fn listed_uploads(
    entries: Seq<Result<Option<MultipartUpload>, IoError>>,
    bucket: Seq<char>,
) -> Result<Seq<MultipartUploadView>, IoError>
    decreases entries.len(),
{
    if entries.len() == 0 {
        Ok(Seq::empty())
    } else {
        match listed_uploads(entries.drop_last(), bucket) {
            Err(e) => Err(e),
            Ok(front) => match entries.last() {
                Err(e) => Err(e),
                Ok(Some(u)) => if is_listed(u@, bucket) {
                    Ok(front.push(u@))
                } else {
                    Ok(front)
                },
                Ok(None) => Ok(front),
            },
        }
    }
}

/// A list in the order of the keys, with one more upload behind those of its key.
pub open spec fn with_key(list: Seq<MultipartUploadView>, u: MultipartUploadView) -> Seq<
    MultipartUploadView,
>
    decreases list.len(),
{
    if list.len() > 0 && text_before(u.key, list.last().key) {
        with_key(list.drop_last(), u).push(list.last())
    } else {
        list.push(u)
    }
}

/// The uploads in the order of their keys; those of one key stay in the order in which they were
/// found.
pub open spec fn by_key(list: Seq<MultipartUploadView>) -> Seq<MultipartUploadView>
    decreases list.len(),
{
    if list.len() == 0 {
        Seq::empty()
    } else {
        with_key(by_key(list.drop_last()), list.last())
    }
}

/// The uploads are in the order of their keys.
pub open spec fn keys_in_order(list: Seq<MultipartUploadView>) -> bool {
    forall|i: int, j: int|
        0 <= i < j < list.len() ==> !text_before(
            (#[trigger] list[j]).key,
            (#[trigger] list[i]).key,
        )
}

proof fn lemma_with_key(list: Seq<MultipartUploadView>, u: MultipartUploadView)
    requires
        keys_in_order(list),
    ensures
        keys_in_order(with_key(list, u)),
        with_key(list, u).to_multiset() =~= list.to_multiset().insert(u),
        forall|i: int|
            0 <= i < with_key(list, u).len() ==> #[trigger] with_key(list, u)[i] == u
                || list.contains(with_key(list, u)[i]),
    decreases list.len(),
{
    let all = with_key(list, u);
    broadcast use vstd::seq_lib::group_to_multiset_ensures;

    if list.len() > 0 && text_before(u.key, list.last().key) {
        let front = list.drop_last();
        lemma_with_key(front, u);
        let early = with_key(front, u);
        assert(list =~= front.push(list.last()));
        assert forall|i: int| 0 <= i < early.len() implies !text_before(
            list.last().key,
            (#[trigger] early[i]).key,
        ) by {
            lemma_text_order(u.key, list.last().key);
            if early[i] != u {
                let k = choose|k: int| 0 <= k < front.len() && front[k] == early[i];
                assert(list[k] == early[i]);
                assert(list[list.len() - 1] == list.last());
            }
        }
        assert forall|i: int| 0 <= i < all.len() implies #[trigger] all[i] == u || list.contains(
            all[i],
        ) by {
            if i < early.len() {
                if early[i] != u {
                    let k = choose|k: int| 0 <= k < front.len() && front[k] == early[i];
                    assert(list[k] == all[i]);
                }
            } else {
                assert(list[list.len() - 1] == all[i]);
            }
        }
    } else {
        assert forall|i: int| 0 <= i < list.len() implies !text_before(
            u.key,
            (#[trigger] list[i]).key,
        ) by {
            let last = list.last().key;
            assert(list[list.len() - 1] == list.last());
            lemma_text_order(u.key, last);
            lemma_text_order(list[i].key, last);
            lemma_text_order(u.key, list[i].key);
            lemma_text_transitive(u.key, list[i].key, last);
        }
        assert forall|i: int| 0 <= i < all.len() implies #[trigger] all[i] == u || list.contains(
            all[i],
        ) by {
            if i < list.len() {
                assert(list[i] == all[i]);
            }
        }
    }
}

/// The list of uploads holds each upload that was found once, in the order of the keys.
pub proof fn uploads_come_out_by_key(list: Seq<MultipartUploadView>)
    ensures
        keys_in_order(by_key(list)),
        by_key(list).to_multiset() =~= list.to_multiset(),
    decreases list.len(),
{
    broadcast use vstd::seq_lib::group_to_multiset_ensures;

    if list.len() > 0 {
        let front = list.drop_last();
        uploads_come_out_by_key(front);
        lemma_with_key(by_key(front), list.last());
        assert(list =~= front.push(list.last()));
    } else {
        assert(by_key(list) =~= list);
    }
}

/// Puts an upload into an ordered list.
fn insert_by_key(list: &mut Vec<MultipartUpload>, u: MultipartUpload)
    ensures
        upload_views(final(list)@) == with_key(upload_views(old(list)@), u@),
{
    let ghost all = upload_views(list@);
    let ghost added = u@;
    let mut at: usize = list.len();
    assert(all.take(at as int) =~= all);
    assert(with_key(all, added) =~= with_key(all.take(at as int), added) + all.skip(at as int));
    while at > 0 && before(u.key.as_str(), list[at - 1].key.as_str())
        invariant
            at <= list@.len(),
            all == upload_views(list@),
            added == u@,
            with_key(all, added) == with_key(all.take(at as int), added) + all.skip(at as int),
        decreases at,
    {
        proof {
            let t = all.take(at as int);
            assert(t.last() == list@[at - 1]@);
            assert(t.drop_last() =~= all.take(at - 1));
            assert(with_key(t.drop_last(), added).push(t.last()) + all.skip(at as int) =~= with_key(
                t.drop_last(),
                added,
            ) + all.skip(at - 1));
        }
        at = at - 1;
    }
    proof {
        let t = all.take(at as int);
        if at > 0 {
            assert(t.last() == list@[at - 1]@);
        }
        assert(with_key(t, added) =~= t.push(added));
    }
    list.insert(at, u);
    assert(upload_views(list@) =~= all.take(at as int).push(added) + all.skip(at as int));
}

/// A request for the uploads of a bucket.
#[derive(Debug)]
pub struct PlainUploadsListing {
    /// The bucket; empty for the uploads of all buckets.
    pub bucket: String,
}

impl Filesystem {
    /// Begins to list the uploads of a bucket, or of all buckets if `bucket` is empty.
    pub fn list_multipart_uploads(&self, bucket: &str) -> (r: (PlainUploadsListing, Plan))
        ensures
            r.0.bucket@ == bucket@,
            r.1@ == seq![StepView::Ask { question: QuestionView::ListPlainUploads }],
    {
        let mut plan = Plan::new();
        plan.ask(Question::ListPlainUploads);
        assert(plan@ =~= seq![plan@[0]]);
        (PlainUploadsListing { bucket: owned(bucket) }, plan)
    }

    /// Begins to list the parts of an upload.
    pub fn list_parts(&self, upload_id: &str) -> (r: Plan)
        ensures
            r@ == seq![
                find_upload_step(upload_id@),
                StepView::Ask { question: QuestionView::ListPlainParts { id: upload_id@ } },
            ],
    {
        let mut plan = Plan::new();
        push_find_upload(&mut plan, upload_id);
        plan.ask(Question::ListPlainParts { id: owned(upload_id) });
        assert(plan@ =~= seq![plan@[0], plan@[1]]);
        plan
    }
}

impl PlainUploadsListing {
    /// Answers the request once the records were read.
    pub fn found(
        self,
        scan: Result<Vec<Result<Option<MultipartUpload>, IoError>>, IoError>,
    ) -> (r: Result<Plan, StorageError>)
        ensures
            match scan {
                Err(e) => if e.kind == IoErrorKind::NotFound {
                    r matches Ok(plan) && plan@ == seq![
                        StepView::Finish {
                            outcome: OutcomeView::Uploads {
                                uploads: Seq::empty(),
                                truncated: false,
                            },
                        },
                    ]
                } else {
                    r == Err::<Plan, StorageError>(StorageError::Io(e))
                },
                Ok(entries) => match listed_uploads(entries@, self.bucket@) {
                    Err(e) => r == Err::<Plan, StorageError>(StorageError::Io(e)),
                    Ok(found) => r matches Ok(plan) && plan@ == seq![
                        StepView::Finish {
                            outcome: OutcomeView::Uploads {
                                uploads: by_key(found),
                                truncated: false,
                            },
                        },
                    ],
                },
            },
    {
        let uploads = match scan {
            Ok(entries) => match ordered_entries(&entries, self.bucket.as_str()) {
                Ok(list) => list,
                Err(e) => return Err(StorageError::Io(e)),
            },
            Err(e) => {
                if e.kind != IoErrorKind::NotFound {
                    return Err(StorageError::Io(e));
                }
                Vec::new()
            },
        };
        proof {
            if scan is Err {
                assert(upload_views(uploads@) =~= Seq::empty());
            }
        }
        let mut plan = Plan::new();
        plan.finish(Outcome::Uploads { uploads, truncated: false });
        assert(plan@.len() == 1);
        assert(plan@ =~= seq![plan@[0]]);
        Ok(plan)
    }
}

/// After the first error, no entry changes the result.
proof fn lemma_listing_fails(
    entries: Seq<Result<Option<MultipartUpload>, IoError>>,
    bucket: Seq<char>,
    n: int,
)
    requires
        0 <= n <= entries.len(),
        listed_uploads(entries.take(n), bucket) is Err,
    ensures
        listed_uploads(entries, bucket) == listed_uploads(entries.take(n), bucket),
    decreases entries.len(),
{
    if n < entries.len() {
        assert(entries.drop_last().take(n) =~= entries.take(n));
        lemma_listing_fails(entries.drop_last(), bucket, n);
    } else {
        assert(entries.take(n) =~= entries);
    }
}

/// The uploads that are listed, in the order of their keys.
fn ordered_entries(
    entries: &Vec<Result<Option<MultipartUpload>, IoError>>,
    bucket: &str,
) -> (r: Result<Vec<MultipartUpload>, IoError>)
    ensures
        match listed_uploads(entries@, bucket@) {
            Ok(found) => r matches Ok(list) && upload_views(list@) == by_key(found),
            Err(e) => r == Err::<Vec<MultipartUpload>, IoError>(e),
        },
{
    let mut list: Vec<MultipartUpload> = Vec::new();
    let mut i: usize = 0;
    let ghost mut seen = Seq::<MultipartUploadView>::empty();
    proof {
        assert(entries@.take(0) =~= Seq::empty());
        assert(upload_views(list@) =~= Seq::empty());
    }
    while i < entries.len()
        invariant
            i <= entries@.len(),
            listed_uploads(entries@.take(i as int), bucket@) == Ok::<
                Seq<MultipartUploadView>,
                IoError,
            >(seen),
            upload_views(list@) == by_key(seen),
        decreases entries@.len() - i,
    {
        proof {
            let t = entries@.take(i + 1);
            assert(t.drop_last() =~= entries@.take(i as int));
            assert(t.last() == entries@[i as int]);
        }
        match &entries[i] {
            Err(e) => {
                proof {
                    lemma_listing_fails(entries@, bucket@, i + 1);
                }
                return Err(*e);
            },
            Ok(None) => {},
            Ok(Some(u)) => {
                if bucket.is_empty() || same(u.bucket.as_str(), bucket) {
                    insert_by_key(&mut list, u.clone());
                    proof {
                        let more = seen.push(u@);
                        assert(more.drop_last() =~= seen);
                        seen = more;
                    }
                }
            },
        }
        i = i + 1;
    }
    assert(entries@.take(i as int) =~= entries@);
    Ok(list)
}

/// Text without the zeros in front of it.
pub open spec fn without_zeros(s: Seq<char>) -> Seq<char>
    decreases s.len(),
{
    if s.len() > 0 && s[0] == '0' {
        without_zeros(s.skip(1))
    } else {
        s
    }
}

fn skip_zeros(s: &str) -> (r: &str)
    ensures
        r@ == without_zeros(s@),
{
    let chars = chars_of(s);
    let mut start: usize = 0;
    assert(s@.skip(0) =~= s@);
    while start < chars.len() && chars[start] == '0'
        invariant
            start <= chars@.len(),
            chars@ == s@,
            without_zeros(s@) == without_zeros(s@.skip(start as int)),
        decreases chars@.len() - start,
    {
        assert(s@.skip(start as int).skip(1) =~= s@.skip(start + 1));
        start = start + 1;
    }
    assert(s@.subrange(start as int, s@.len() as int) =~= s@.skip(start as int));
    s.substring_char(start, chars.len())
}

/// The part number that a file name stands for.
pub open spec fn named_part(name: Seq<char>) -> Option<int> {
    match parsed_i32(without_zeros(name)) {
        Some(n) => Some(n),
        None => parsed_i32(name),
    }
}

fn parse_part_name(name: &str) -> (r: Option<i32>)
    ensures
        match r {
            Some(n) => named_part(name@) == Some(n as int),
            None => named_part(name@) is None,
        },
{
    match parse_i32(skip_zeros(name)) {
        Some(n) => Some(n),
        None => parse_i32(name),
    }
}

/// What is listed of a file, where it is a part: its number, and its digest or the error.
pub open spec fn listed_part(entry: PlainPartEntry) -> Option<Result<PartInfoView, IoError>> {
    if entry.is_dir || has_text(entry.name@, ".tmp."@) {
        None
    } else {
        match named_part(entry.name@) {
            None => None,
            Some(n) => match entry.digest {
                Err(e) => Some(Err(e)),
                Ok(digest) => Some(
                    Ok(
                        PartInfoView {
                            part_number: n as i32,
                            size: entry.size as i64,
                            etag: quoted(hex_text(digest@)),
                            last_modified_unix: entry.mtime,
                        },
                    ),
                ),
            },
        }
    }
}

fn list_entry(entry: &PlainPartEntry) -> (r: Option<Result<PartInfo, IoError>>)
    ensures
        match listed_part(*entry) {
            None => r is None,
            Some(Err(e)) => r == Some(Err::<PartInfo, IoError>(e)),
            Some(Ok(p)) => (r matches Some(Ok(q)) && q@ == p),
        },
{
    if entry.is_dir || contains(entry.name.as_str(), ".tmp.") {
        return None;
    }
    let number: i32 = match parse_part_name(entry.name.as_str()) {
        Some(n) => n,
        None => return None,
    };
    match &entry.digest {
        Err(e) => Some(Err(*e)),
        Ok(digest) => {
            let hex = hex_encode(digest.as_slice());
            Some(
                Ok(
                    PartInfo {
                        part_number: number,
                        size: entry.size as i64,
                        etag: quote(hex.as_str()),
                        last_modified_unix: entry.mtime,
                    },
                ),
            )
        },
    }
}

/// The parts among the files, in the order in which they were found, or the first error.
pub open spec fn plain_parts(entries: Seq<Result<PlainPartEntry, IoError>>) -> Result<
    Seq<PartInfoView>,
    IoError,
>
    decreases entries.len(),
{
    if entries.len() == 0 {
        Ok(Seq::empty())
    } else {
        match plain_parts(entries.drop_last()) {
            Err(e) => Err(e),
            Ok(front) => match entries.last() {
                Err(e) => Err(e),
                Ok(entry) => match listed_part(entry) {
                    None => Ok(front),
                    Some(Err(e)) => Err(e),
                    Some(Ok(p)) => Ok(front.push(p)),
                },
            },
        }
    }
}

/// A list in the order of the part numbers, with one more part behind those of its number.
pub open spec fn with_number(list: Seq<PartInfoView>, p: PartInfoView) -> Seq<PartInfoView>
    decreases list.len(),
{
    if list.len() > 0 && p.part_number < list.last().part_number {
        with_number(list.drop_last(), p).push(list.last())
    } else {
        list.push(p)
    }
}

/// The parts in the order of their numbers.
pub open spec fn by_number(list: Seq<PartInfoView>) -> Seq<PartInfoView>
    decreases list.len(),
{
    if list.len() == 0 {
        Seq::empty()
    } else {
        with_number(by_number(list.drop_last()), list.last())
    }
}

/// The parts are in the order of their numbers.
pub open spec fn numbers_in_order(list: Seq<PartInfoView>) -> bool {
    forall|i: int, j: int|
        0 <= i < j < list.len() ==> (#[trigger] list[i]).part_number <= (
        #[trigger] list[j]).part_number
}

proof fn lemma_with_number(list: Seq<PartInfoView>, p: PartInfoView)
    requires
        numbers_in_order(list),
    ensures
        numbers_in_order(with_number(list, p)),
        with_number(list, p).to_multiset() =~= list.to_multiset().insert(p),
        forall|i: int|
            0 <= i < with_number(list, p).len() ==> #[trigger] with_number(list, p)[i] == p
                || list.contains(with_number(list, p)[i]),
    decreases list.len(),
{
    let all = with_number(list, p);
    broadcast use vstd::seq_lib::group_to_multiset_ensures;

    if list.len() > 0 && p.part_number < list.last().part_number {
        let front = list.drop_last();
        lemma_with_number(front, p);
        let early = with_number(front, p);
        assert(list =~= front.push(list.last()));
        assert forall|i: int| 0 <= i < early.len() implies (#[trigger] early[i]).part_number
            <= list.last().part_number by {
            if early[i] != p {
                let k = choose|k: int| 0 <= k < front.len() && front[k] == early[i];
                assert(list[k] == early[i]);
                assert(list[list.len() - 1] == list.last());
            }
        }
        assert forall|i: int| 0 <= i < all.len() implies #[trigger] all[i] == p || list.contains(
            all[i],
        ) by {
            if i < early.len() {
                if early[i] != p {
                    let k = choose|k: int| 0 <= k < front.len() && front[k] == early[i];
                    assert(list[k] == all[i]);
                }
            } else {
                assert(list[list.len() - 1] == all[i]);
            }
        }
    } else {
        assert forall|i: int| 0 <= i < list.len() implies (#[trigger] list[i]).part_number
            <= p.part_number by {
            assert(list[list.len() - 1] == list.last());
        }
        assert forall|i: int| 0 <= i < all.len() implies #[trigger] all[i] == p || list.contains(
            all[i],
        ) by {
            if i < list.len() {
                assert(list[i] == all[i]);
            }
        }
    }
}

/// The list of parts holds each part that was found once, in the order of the numbers.
pub proof fn parts_come_out_in_order(list: Seq<PartInfoView>)
    ensures
        numbers_in_order(by_number(list)),
        by_number(list).to_multiset() =~= list.to_multiset(),
    decreases list.len(),
{
    broadcast use vstd::seq_lib::group_to_multiset_ensures;

    if list.len() > 0 {
        let front = list.drop_last();
        parts_come_out_in_order(front);
        lemma_with_number(by_number(front), list.last());
        assert(list =~= front.push(list.last()));
    } else {
        assert(by_number(list) =~= list);
    }
}

/// Puts a part into an ordered list.
fn insert_by_number(list: &mut Vec<PartInfo>, p: PartInfo)
    ensures
        part_infos(final(list)@) == with_number(part_infos(old(list)@), p@),
{
    let ghost all = part_infos(list@);
    let ghost added = p@;
    let mut at: usize = list.len();
    assert(all.take(at as int) =~= all);
    assert(with_number(all, added) =~= with_number(all.take(at as int), added) + all.skip(
        at as int,
    ));
    while at > 0 && p.part_number < list[at - 1].part_number
        invariant
            at <= list@.len(),
            all == part_infos(list@),
            added == p@,
            with_number(all, added) == with_number(all.take(at as int), added) + all.skip(
                at as int,
            ),
        decreases at,
    {
        proof {
            let t = all.take(at as int);
            assert(t.last() == list@[at - 1]@);
            assert(t.drop_last() =~= all.take(at - 1));
            assert(with_number(t.drop_last(), added).push(t.last()) + all.skip(at as int)
                =~= with_number(t.drop_last(), added) + all.skip(at - 1));
        }
        at = at - 1;
    }
    proof {
        let t = all.take(at as int);
        if at > 0 {
            assert(t.last() == list@[at - 1]@);
        }
        assert(with_number(t, added) =~= t.push(added));
    }
    list.insert(at, p);
    assert(part_infos(list@) =~= all.take(at as int).push(added) + all.skip(at as int));
}

/// After the first error, no file changes the result.
proof fn lemma_parts_fail(entries: Seq<Result<PlainPartEntry, IoError>>, n: int)
    requires
        0 <= n <= entries.len(),
        plain_parts(entries.take(n)) is Err,
    ensures
        plain_parts(entries) == plain_parts(entries.take(n)),
    decreases entries.len(),
{
    if n < entries.len() {
        assert(entries.drop_last().take(n) =~= entries.take(n));
        lemma_parts_fail(entries.drop_last(), n);
    } else {
        assert(entries.take(n) =~= entries);
    }
}

/// Answers a request for the parts of an upload once its files were looked at.
pub fn plain_parts_answer(
    scan: Result<Vec<Result<PlainPartEntry, IoError>>, IoError>,
) -> (r: Result<Plan, StorageError>)
    ensures
        match scan {
            Err(e) => r == Err::<Plan, StorageError>(StorageError::Io(e)),
            Ok(entries) => match plain_parts(entries@) {
                Err(e) => r == Err::<Plan, StorageError>(StorageError::Io(e)),
                Ok(found) => r matches Ok(plan) && plan@ == seq![
                    StepView::Finish { outcome: OutcomeView::Parts { parts: by_number(found) } },
                ],
            },
        },
{
    let entries = match scan {
        Ok(entries) => entries,
        Err(e) => return Err(StorageError::Io(e)),
    };
    let mut parts: Vec<PartInfo> = Vec::new();
    let mut i: usize = 0;
    let ghost mut seen = Seq::<PartInfoView>::empty();
    proof {
        assert(entries@.take(0) =~= Seq::empty());
        assert(part_infos(parts@) =~= Seq::empty());
    }
    while i < entries.len()
        invariant
            i <= entries@.len(),
            scan matches Ok(given) && given == entries,
            plain_parts(entries@.take(i as int)) == Ok::<Seq<PartInfoView>, IoError>(seen),
            part_infos(parts@) == by_number(seen),
        decreases entries@.len() - i,
    {
        proof {
            let t = entries@.take(i + 1);
            assert(t.drop_last() =~= entries@.take(i as int));
            assert(t.last() == entries@[i as int]);
        }
        match &entries[i] {
            Err(e) => {
                proof {
                    lemma_parts_fail(entries@, i + 1);
                }
                return Err(StorageError::Io(*e));
            },
            Ok(entry) => {
                match list_entry(entry) {
                    None => {},
                    Some(Err(e)) => {
                        proof {
                            lemma_parts_fail(entries@, i + 1);
                        }
                        return Err(StorageError::Io(e));
                    },
                    Some(Ok(p)) => {
                        proof {
                            let more = seen.push(p@);
                            assert(more.drop_last() =~= seen);
                            seen = more;
                        }
                        insert_by_number(&mut parts, p);
                    },
                }
            },
        }
        i = i + 1;
    }
    assert(entries@.take(i as int) =~= entries@);
    let mut plan = Plan::new();
    plan.finish(Outcome::Parts { parts });
    assert(plan@.len() == 1);
    assert(plan@ =~= seq![plan@[0]]);
    Ok(plan)
}

} // verus!
