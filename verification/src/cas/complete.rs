//! Completing an upload in parts.
//!
//! The blobs of the parts are not copied. Each is moved to an id of its own that no part record
//! names, so that what is left of the upload can never take a blob from the object.

use vstd::prelude::*;
use crate::blob::{is_valid_blob_id, md5_digest, new_blob_id};
use crate::cas::objects::{push_stage, stage_steps, Publishing};
use crate::cas::parts::{
    assert_upload_matches, find_part, matched_upload, part_at, read_part_refs, stored_table,
    COMPLETED_FILE,
};
use crate::cas::records::{part_records, PartRefFile, PartRefFileView};
use crate::cas::store::{
    blob_sync_steps, bucket_lock_shard, bucket_shard, default_type, head_bucket_step, may_do,
    must_do, push_blob_sync, push_head_bucket, quote, quoted, stored_type, validate_object_path,
    CasStore, CommitIds, Env,
};
use crate::cas::uploads::{
    open_upload, push_relock, relock_steps, upload_opening, MAX_PART_NUMBER,
};
use crate::manifest::{
    is_object_key, manifest_parts, Manifest, ManifestPartRef, ManifestPartView, ManifestView,
};
use crate::numbers::{decimal, decimal_text};
use crate::outside::{
    hex_bytes, hex_decode, hex_encode, hex_text, is_canonical_uuid, is_hex_text, md5_of,
};
use crate::plan::call::{
    Call, CallView, Outcome, OutcomeView, Question, QuestionView, RefEntry, Report, UploadProbe,
};
use crate::plan::place::Place;
use crate::plan::runner::{Plan, Step, StepView};
use crate::text::{chars_of, concat, owned, same};
use crate::types::{
    copy_pairs, is_bucket_name, CompletePart, IoError, MultipartUpload, MultipartUploadView,
    StorageError,
};

verus! {

/// A part that the client claims, and the id that its blob gets.
#[derive(Debug)]
pub struct Claim {
    pub part_number: i32,
    pub etag: String,
    pub blob_id: String,
}

#[verifier::ext_equal]
pub struct ClaimView {
    pub part_number: i32,
    pub etag: Seq<char>,
    pub blob_id: Seq<char>,
}

impl View for Claim {
    type V = ClaimView;

    open spec fn view(&self) -> ClaimView {
        ClaimView { part_number: self.part_number, etag: self.etag@, blob_id: self.blob_id@ }
    }
}

/// The views of a list of claims.
pub open spec fn claim_views(v: Seq<Claim>) -> Seq<ClaimView> {
    Seq::new(v.len(), |i: int| v[i]@)
}

/// The parts that the client claims, each with a new id for its blob.
pub fn draw_claims(parts: &Vec<CompletePart>) -> (r: Vec<Claim>)
    ensures
        r@.len() == parts@.len(),
        forall|i: int|
            0 <= i < r@.len() ==> (#[trigger] r@[i]).part_number == parts@[i].part_number
                && r@[i].etag@ == parts@[i].etag@ && is_canonical_uuid(r@[i].blob_id@),
{
    let mut out: Vec<Claim> = Vec::new();
    let mut i: usize = 0;
    while i < parts.len()
        invariant
            i <= parts@.len(),
            out@.len() == i,
            forall|j: int|
                0 <= j < i ==> (#[trigger] out@[j]).part_number == parts@[j].part_number
                    && out@[j].etag@ == parts@[j].etag@ && is_canonical_uuid(out@[j].blob_id@),
        decreases parts@.len() - i,
    {
        let blob_id = new_blob_id();
        out.push(
            Claim { part_number: parts[i].part_number, etag: parts[i].etag.clone(), blob_id },
        );
        i = i + 1;
    }
    out
}

/// Text without the quotes in front of it.
pub open spec fn unquoted_front(s: Seq<char>) -> Seq<char>
    decreases s.len(),
{
    if s.len() > 0 && s[0] == '"' {
        unquoted_front(s.skip(1))
    } else {
        s
    }
}

/// Text without the quotes behind it.
pub open spec fn unquoted_back(s: Seq<char>) -> Seq<char>
    decreases s.len(),
{
    if s.len() > 0 && s.last() == '"' {
        unquoted_back(s.drop_last())
    } else {
        s
    }
}

/// Text without the quotes around it.
pub open spec fn unquoted(s: Seq<char>) -> Seq<char> {
    unquoted_back(unquoted_front(s))
}

/// `s` without the quotes around it.
pub fn unquote(s: &str) -> (r: &str)
    ensures
        r@ == unquoted(s@),
{
    let chars = chars_of(s);
    let mut start: usize = 0;
    assert(s@.skip(0) =~= s@);
    while start < chars.len() && chars[start] == '"'
        invariant
            start <= chars@.len(),
            chars@ == s@,
            unquoted_front(s@) == unquoted_front(s@.skip(start as int)),
        decreases chars@.len() - start,
    {
        assert(s@.skip(start as int).skip(1) =~= s@.skip(start + 1));
        start = start + 1;
    }
    let ghost front = s@.skip(start as int);
    let mut end: usize = chars.len();
    assert(s@.subrange(start as int, end as int) =~= front);
    while end > start && chars[end - 1] == '"'
        invariant
            start <= end <= chars@.len(),
            chars@ == s@,
            unquoted_back(front) == unquoted_back(s@.subrange(start as int, end as int)),
        decreases end,
    {
        let ghost cur = s@.subrange(start as int, end as int);
        assert(cur.drop_last() =~= s@.subrange(start as int, end - 1));
        assert(cur.last() == s@[end - 1]);
        end = end - 1;
    }
    let ghost cur = s@.subrange(start as int, end as int);
    assert(end > start ==> cur.last() == s@[end - 1]);
    s.substring_char(start, end)
}

/// What is wrong with a list of claims by itself: it has to name at least one part, the numbers
/// have to be in range, and they have to ascend.
pub open spec fn claims_error(claims: Seq<ClaimView>) -> Option<StorageError> {
    if claims.len() == 0 {
        Some(StorageError::InvalidPart)
    } else if exists|i: int|
        0 <= i < claims.len() && !(1 <= (#[trigger] claims[i]).part_number <= MAX_PART_NUMBER) {
        Some(StorageError::InvalidPart)
    } else if exists|i: int|
        0 < i < claims.len() && (#[trigger] claims[i]).part_number <= claims[i - 1].part_number {
        Some(StorageError::InvalidPartOrder)
    } else {
        None
    }
}

/// What is wrong with a list of claims by itself.
pub fn check_claims(claims: &Vec<Claim>) -> (r: Option<StorageError>)
    ensures
        r == claims_error(claim_views(claims@)),
{
    let ghost views = claim_views(claims@);
    if claims.len() == 0 {
        return Some(StorageError::InvalidPart);
    }
    let mut i: usize = 0;
    while i < claims.len()
        invariant
            i <= claims@.len(),
            views == claim_views(claims@),
            claims@.len() > 0,
            forall|j: int|
                0 <= j < i ==> 1 <= (#[trigger] views[j]).part_number <= MAX_PART_NUMBER,
        decreases claims@.len() - i,
    {
        assert(views[i as int].part_number == claims@[i as int].part_number);
        if claims[i].part_number < 1 || claims[i].part_number > MAX_PART_NUMBER {
            return Some(StorageError::InvalidPart);
        }
        i = i + 1;
    }
    let mut k: usize = 1;
    while k < claims.len()
        invariant
            1 <= k <= claims@.len(),
            views == claim_views(claims@),
            forall|j: int|
                0 <= j < views.len() ==> 1 <= (#[trigger] views[j]).part_number <= MAX_PART_NUMBER,
            forall|j: int|
                0 < j < k ==> (#[trigger] views[j]).part_number > views[j - 1].part_number,
        decreases claims@.len() - k,
    {
        assert(views[k as int].part_number == claims@[k as int].part_number);
        assert(views[k - 1].part_number == claims@[k - 1].part_number);
        if claims[k].part_number <= claims[k - 1].part_number {
            return Some(StorageError::InvalidPartOrder);
        }
        k = k + 1;
    }
    None
}

/// An upload that is being completed.
#[derive(Debug)]
pub struct Completing {
    pub key: String,
    pub upload_id: String,
    pub claims: Vec<Claim>,
    pub ids: CommitIds,
    /// Unix seconds.
    pub now: i64,
}

/// A completion that waits for the part records.
#[derive(Debug)]
pub struct Assembling {
    pub upload: MultipartUpload,
    pub upload_id: String,
    pub claims: Vec<Claim>,
    pub ids: CommitIds,
    pub now: i64,
}

/// Once the upload is known: the place of the manifest has to resolve inside the data root, the
/// claims have to be proper, the bucket and the key are locked, and the upload is looked at again.
pub open spec fn gate_steps(
    bucket: Seq<char>,
    key: Seq<char>,
    id: Seq<char>,
    claims: Seq<ClaimView>,
) -> Seq<StepView> {
    seq![
        must_do(
            CallView::CheckContained { at: Place::Manifest { key } },
            Report::Given(StorageError::PathTraversal),
        ),
    ] + match claims_error(claims) {
        Some(error) => seq![StepView::Fail { error }],
        None => seq![
            must_do(
                CallView::LockBucket { shard: bucket_shard(bucket), exclusive: false },
                Report::Io,
            ),
            head_bucket_step(),
        ] + relock_steps(bucket, key, id),
    }
}

/// The stored part that a claim is for: one with its number and its entity tag.
pub open spec fn claimed_part(
    claim: ClaimView,
    table: Seq<PartRefFileView>,
) -> Option<PartRefFileView> {
    match part_at(table, claim.part_number as int) {
        Some(p) => if unquoted(claim.etag).len() > 0 && unquoted(claim.etag) == p.md5_hex
            && is_canonical_uuid(p.blob_id) {
            Some(p)
        } else {
            None
        },
        None => None,
    }
}

/// The blob of a part has to be there in its full size. It is moved to its new id, and moved back
/// if the completion fails.
pub open spec fn move_steps(
    p: PartRefFileView,
    blob_id: Seq<char>,
    fsync: bool,
) -> Seq<StepView> {
    seq![
        must_do(
            CallView::CheckFile { at: Place::Blob { id: p.blob_id }, size: p.size },
            Report::Given(StorageError::InvalidPart),
        ),
        must_do(
            CallView::Move {
                src: Place::Blob { id: p.blob_id },
                dst: Place::Blob { id: blob_id },
            },
            Report::Io,
        ),
        StepView::Defer {
            call: CallView::Move {
                src: Place::Blob { id: blob_id },
                dst: Place::Blob { id: p.blob_id },
            },
        },
    ] + if fsync {
        blob_sync_steps(blob_id)
    } else {
        Seq::empty()
    }
}

/// The blobs of the claimed parts are moved one after the other. The first claim without a proper
/// part ends the completion.
pub open spec fn assemble_steps(
    claims: Seq<ClaimView>,
    table: Seq<PartRefFileView>,
    total: int,
    fsync: bool,
) -> Seq<StepView>
    decreases claims.len(),
{
    let invalid = seq![StepView::Fail { error: StorageError::InvalidPart }];
    if claims.len() == 0 {
        Seq::empty()
    } else {
        match claimed_part(claims[0], table) {
            None => invalid,
            Some(p) => move_steps(p, claims[0].blob_id, fsync) + if is_hex_text(p.md5_hex) && total
                + p.size <= u64::MAX {
                assemble_steps(claims.skip(1), table, total + p.size, fsync)
            } else {
                invalid
            },
        }
    }
}

/// The parts of the new version.
pub open spec fn assembled(
    claims: Seq<ClaimView>,
    table: Seq<PartRefFileView>,
) -> Seq<ManifestPartView> {
    Seq::new(
        claims.len(),
        |i: int|
            ManifestPartView {
                part_number: claims[i].part_number as u32,
                blob_id: claims[i].blob_id,
                size: claimed_part(claims[i], table)->0.size,
                md5_hex: claimed_part(claims[i], table)->0.md5_hex,
            },
    )
}

/// The sum of the sizes of the parts.
pub open spec fn total_size(parts: Seq<ManifestPartView>) -> int
    decreases parts.len(),
{
    if parts.len() == 0 {
        0
    } else {
        total_size(parts.drop_last()) + parts.last().size
    }
}

/// The digests of the parts, one after the other.
pub open spec fn joined_digests(parts: Seq<ManifestPartView>) -> Seq<u8>
    decreases parts.len(),
{
    if parts.len() == 0 {
        Seq::empty()
    } else {
        joined_digests(parts.drop_last()) + hex_bytes(parts.last().md5_hex)
    }
}

/// Every claim has its part, and the object is not too large to be described.
pub open spec fn claims_hold(claims: Seq<ClaimView>, table: Seq<PartRefFileView>) -> bool {
    &&& forall|i: int|
        0 <= i < claims.len() ==> (claimed_part(#[trigger] claims[i], table) matches Some(p)
            && is_hex_text(p.md5_hex))
    &&& total_size(assembled(claims, table)) <= u64::MAX
}

pub proof fn lemma_total_size(parts: Seq<ManifestPartView>, n: int)
    requires
        0 <= n <= parts.len(),
    ensures
        0 <= total_size(parts.take(n)) <= total_size(parts),
    decreases parts.len(),
{
    if n < parts.len() {
        lemma_total_size(parts.drop_last(), n);
        assert(parts.drop_last().take(n) =~= parts.take(n));
    } else {
        assert(parts.take(n) =~= parts);
        if n > 0 {
            lemma_total_size(parts.drop_last(), n - 1);
            assert(parts.drop_last().take(n - 1) =~= parts.drop_last());
        }
    }
}

/// The entity tag of an object that was uploaded in parts: the digest of the joined digests, and
/// the number of parts.
pub open spec fn composite_tag(digest: Seq<u8>, parts: nat) -> Seq<char> {
    quoted(hex_text(digest) + "-"@ + decimal(parts))
}

/// The entity tag of an object that was uploaded in parts, from the digest of the joined digests.
pub fn composite_etag(digest: &[u8], parts: usize) -> (r: String)
    ensures
        r@ == composite_tag(digest@, parts as nat),
{
    let hex = hex_encode(digest);
    let front = concat(hex.as_str(), "-");
    let count = decimal_text(parts as u64);
    let whole = concat(front.as_str(), count.as_str());
    quote(whole.as_str())
}

/// The new version that a completion commits.
pub open spec fn completed_manifest(
    upload: MultipartUploadView,
    parts: Seq<ManifestPartView>,
    etag: Seq<char>,
    nonce: Seq<char>,
    now: i64,
) -> ManifestView {
    ManifestView {
        key: upload.key,
        content_type: stored_type(upload.content_type),
        content_length: total_size(parts) as u64,
        etag,
        last_modified: now,
        created: now,
        user_metadata: upload.user_metadata,
        content_disposition: Seq::empty(),
        content_encoding: Seq::empty(),
        cache_control: Seq::empty(),
        parts,
        commit_nonce: nonce,
    }
}

/// Once the object is live: the upload is marked as completed, so that it is not found any more
/// even where its directory stays, and the directory is removed.
pub open spec fn after_complete(id: Seq<char>, etag: Seq<char>, fsync: bool) -> Seq<StepView> {
    seq![
        may_do(
            CallView::WriteBytes {
                at: Place::UploadFile { id, name: COMPLETED_FILE@ },
                data: seq![0x31u8],
                sync: fsync,
            },
        ),
    ] + (if fsync {
        seq![may_do(CallView::SyncDir { at: Place::Upload { id } })]
    } else {
        Seq::empty()
    }) + seq![
        may_do(CallView::RemoveDirAll { at: Place::Upload { id } }),
        StepView::Finish { outcome: OutcomeView::Etag { etag } },
    ]
}

impl CasStore {
    /// Begins to complete an upload.
    pub fn complete_multipart_upload(
        &self,
        bucket: &str,
        key: &str,
        upload_id: &str,
        claims: Vec<Claim>,
        ids: CommitIds,
        now: i64,
    ) -> (r: (Completing, Plan))
        ensures
            r.0.key@ == key@,
            r.0.upload_id@ == upload_id@,
            r.0.claims == claims,
            r.0.ids == ids,
            r.0.now == now,
            r.1@ == upload_opening(bucket@, upload_id@),
    {
        let plan = open_upload(bucket, upload_id);
        (Completing { key: owned(key), upload_id: owned(upload_id), claims, ids, now }, plan)
    }
}

impl Completing {
    /// Goes on once the upload was looked at.
    pub fn admitted(&self, env: &Env, probe: UploadProbe) -> (r: Result<Plan, StorageError>)
        ensures
            match matched_upload(probe, env.bucket@, self.key@, true) {
                Ok(_) => if is_bucket_name(env.bucket@) && is_object_key(self.key@) {
                    r matches Ok(plan) && plan@ == gate_steps(
                        env.bucket@,
                        self.key@,
                        self.upload_id@,
                        claim_views(self.claims@),
                    )
                } else {
                    r == Err::<Plan, StorageError>(StorageError::PathTraversal)
                },
                Err(e) => r == Err::<Plan, StorageError>(e),
            },
    {
        if let Err(e) = assert_upload_matches(
            probe,
            env.bucket.as_str(),
            self.key.as_str(),
            true,
        ) {
            return Err(e);
        }
        if let Err(e) = validate_object_path(env.bucket.as_str(), self.key.as_str()) {
            return Err(e);
        }
        let mut plan = Plan::new();
        plan.must(
            Call::CheckContained { at: Place::Manifest { key: self.key.clone() } },
            Report::Given(StorageError::PathTraversal),
        );
        match check_claims(&self.claims) {
            Some(error) => {
                plan.push(Step::Fail { error });
            },
            None => {
                plan.must(
                    Call::LockBucket {
                        shard: bucket_lock_shard(env.bucket.as_str()),
                        exclusive: false,
                    },
                    Report::Io,
                );
                push_head_bucket(&mut plan);
                push_relock(
                    &mut plan,
                    env.bucket.as_str(),
                    self.key.as_str(),
                    self.upload_id.as_str(),
                );
            },
        }
        assert(plan@ =~= gate_steps(
            env.bucket@,
            self.key@,
            self.upload_id@,
            claim_views(self.claims@),
        ));
        Ok(plan)
    }

    /// Goes on once the upload was looked at again: the part records are read.
    pub fn rechecked(self, env: &Env, probe: UploadProbe) -> (r: Result<
        (Assembling, Plan),
        StorageError,
    >)
        ensures
            match matched_upload(probe, env.bucket@, self.key@, false) {
                Ok(upload) => {
                    &&& r matches Ok(p)
                    &&& p.0.upload@ == upload
                    &&& p.0.upload_id == self.upload_id
                    &&& p.0.claims == self.claims
                    &&& p.0.ids == self.ids
                    &&& p.0.now == self.now
                    &&& p.1@ == seq![
                        StepView::Ask {
                            question: QuestionView::ReadPartRefs { id: self.upload_id@ },
                        },
                    ]
                },
                Err(e) => r == Err::<(Assembling, Plan), StorageError>(e),
            },
    {
        let upload = match assert_upload_matches(
            probe,
            env.bucket.as_str(),
            self.key.as_str(),
            false,
        ) {
            Ok(upload) => upload,
            Err(e) => return Err(e),
        };
        let mut plan = Plan::new();
        plan.ask(Question::ReadPartRefs { id: self.upload_id.clone() });
        assert(plan@.len() == 1);
        assert(plan@ =~= seq![plan@[0]]);
        Ok(
            (
                Assembling {
                    upload,
                    upload_id: self.upload_id,
                    claims: self.claims,
                    ids: self.ids,
                    now: self.now,
                },
                plan,
            ),
        )
    }
}

/// The stored part that a claim is for.
fn find_claimed(claim: &Claim, table: &Vec<PartRefFile>) -> (r: Option<usize>)
    ensures
        match r {
            Some(i) => i < table@.len() && claimed_part(claim@, part_records(table@)) == Some(
                table@[i as int]@,
            ),
            None => claimed_part(claim@, part_records(table@)) is None,
        },
{
    match find_part(table, claim.part_number) {
        Some(i) => {
            let given = unquote(claim.etag.as_str());
            if !given.is_empty() && same(given, table[i].md5_hex.as_str()) && is_valid_blob_id(
                table[i].blob_id.as_str(),
            ) {
                Some(i)
            } else {
                None
            }
        },
        None => None,
    }
}

fn push_moves(plan: &mut Plan, p: &PartRefFile, blob_id: &str, fsync: bool)
    ensures
        final(plan)@ == old(plan)@ + move_steps(p@, blob_id@, fsync),
{
    plan.must(
        Call::CheckFile { at: Place::Blob { id: p.blob_id.clone() }, size: p.size },
        Report::Given(StorageError::InvalidPart),
    );
    plan.must(
        Call::Move {
            src: Place::Blob { id: p.blob_id.clone() },
            dst: Place::Blob { id: owned(blob_id) },
        },
        Report::Io,
    );
    plan.defer(
        Call::Move {
            src: Place::Blob { id: owned(blob_id) },
            dst: Place::Blob { id: p.blob_id.clone() },
        },
    );
    if fsync {
        push_blob_sync(plan, blob_id);
    }
    assert(plan@ =~= old(plan)@ + move_steps(p@, blob_id@, fsync));
}

/// What the claims come to: the parts of the new version, their digests and their total size.
struct Assembled {
    parts: Vec<ManifestPartRef>,
    digests: Vec<u8>,
    total: u64,
}

/// Moves the blobs of the claimed parts, as far as the claims hold.
fn push_assembly(
    plan: &mut Plan,
    claims: &Vec<Claim>,
    table: &Vec<PartRefFile>,
    fsync: bool,
) -> (r: Option<Assembled>)
    ensures
        final(plan)@ == old(plan)@ + assemble_steps(
            claim_views(claims@),
            part_records(table@),
            0,
            fsync,
        ),
        r is Some <==> claims_hold(claim_views(claims@), part_records(table@)),
        r matches Some(a) ==> {
            let parts = assembled(claim_views(claims@), part_records(table@));
            manifest_parts(a.parts@) == parts && a.digests@ == joined_digests(parts) && a.total
                == total_size(parts)
        },
{
    let ghost views = claim_views(claims@);
    let ghost records = part_records(table@);
    let ghost want = assembled(views, records);
    let mut out = Assembled { parts: Vec::new(), digests: Vec::new(), total: 0 };
    let mut i: usize = 0;
    proof {
        assert(views.skip(0) =~= views);
        assert(want.take(0) =~= Seq::empty());
        assert(manifest_parts(out.parts@) =~= Seq::empty());
    }
    while i < claims.len()
        invariant
            i <= claims@.len(),
            views == claim_views(claims@),
            records == part_records(table@),
            want == assembled(views, records),
            old(plan)@ + assemble_steps(views, records, 0, fsync) == plan@ + assemble_steps(
                views.skip(i as int),
                records,
                out.total as int,
                fsync,
            ),
            manifest_parts(out.parts@) == want.take(i as int),
            out.digests@ == joined_digests(want.take(i as int)),
            out.total == total_size(want.take(i as int)),
            forall|j: int|
                0 <= j < i ==> (claimed_part(#[trigger] views[j], records) matches Some(p)
                    && is_hex_text(p.md5_hex)),
        decreases claims@.len() - i,
    {
        let ghost before = plan@;
        let ghost rest = views.skip(i as int);
        let claim = &claims[i];
        proof {
            assert(rest[0] == views[i as int]);
            assert(views[i as int] == claim@);
            assert(rest.skip(1) =~= views.skip(i + 1));
        }
        let at: usize = match find_claimed(claim, table) {
            Some(at) => at,
            None => {
                plan.push(Step::Fail { error: StorageError::InvalidPart });
                assert(plan@ =~= before + assemble_steps(
                    rest,
                    records,
                    out.total as int,
                    fsync,
                ));
                assert(claimed_part(views[i as int], records) is None);
                return None;
            },
        };
        let p = &table[at];
        push_moves(plan, p, claim.blob_id.as_str(), fsync);
        let ghost moved = plan@;
        let raw = hex_decode(p.md5_hex.as_str());
        let sum = out.total.checked_add(p.size);
        proof {
            let t = want.take(i + 1);
            assert(t.drop_last() =~= want.take(i as int));
            assert(t.last() == want[i as int]);
            assert(want[i as int].size == p.size);
            assert(want[i as int].md5_hex == p.md5_hex@);
            assert(total_size(t) == out.total + p.size);
            lemma_total_size(want, i + 1);
        }
        match (raw, sum) {
            (Some(raw), Some(sum)) => {
                let ghost before_digests = out.digests@;
                out.digests.extend_from_slice(raw.as_slice());
                out.total = sum;
                let ghost before_parts = out.parts@;
                out.parts.push(
                    ManifestPartRef {
                        part_number: claim.part_number as u32,
                        blob_id: claim.blob_id.clone(),
                        size: p.size,
                        md5_hex: p.md5_hex.clone(),
                    },
                );
                proof {
                    assert(out.digests@ =~= before_digests + hex_bytes(p.md5_hex@));
                    assert(manifest_parts(out.parts@) =~= want.take(i + 1)) by {
                        assert(manifest_parts(before_parts) == want.take(i as int));
                        assert(manifest_parts(out.parts@).len() == i + 1);
                        assert forall|j: int| 0 <= j < i + 1 implies manifest_parts(
                            out.parts@,
                        )[j] == want.take(i + 1)[j] by {
                            if j < i {
                                assert(manifest_parts(before_parts)[j] == want.take(i as int)[j]);
                            }
                        }
                    }
                    assert(moved + assemble_steps(
                        views.skip(i + 1),
                        records,
                        out.total as int,
                        fsync,
                    ) =~= before + assemble_steps(
                        rest,
                        records,
                        out.total - p.size,
                        fsync,
                    ));
                }
            },
            _ => {
                plan.push(Step::Fail { error: StorageError::InvalidPart });
                assert(plan@ =~= before + assemble_steps(
                    rest,
                    records,
                    out.total as int,
                    fsync,
                ));
                assert(claimed_part(views[i as int], records) == Some(p@));
                return None;
            },
        }
        i = i + 1;
    }
    proof {
        assert(want.take(i as int) =~= want);
        assert(plan@ + assemble_steps(views.skip(i as int), records, out.total as int, fsync)
            =~= plan@);
    }
    Some(out)
}

impl Assembling {
    /// The version that is committed.
    pub open spec fn manifest(&self, table: Seq<PartRefFileView>) -> ManifestView {
        let parts = assembled(claim_views(self.claims@), table);
        completed_manifest(
            self.upload@,
            parts,
            composite_tag(md5_of(joined_digests(parts)), self.claims@.len()),
            self.ids.nonce@,
            self.now,
        )
    }

    /// Assembles the object, now that the part records were read: the blobs are moved, and the new
    /// version is staged.
    pub fn assemble(self, env: &Env, refs: Result<Vec<RefEntry>, IoError>) -> (r: Result<
        (Option<Publishing>, Plan),
        StorageError,
    >)
        ensures
            match stored_table(refs) {
                Err(e) => r == Err::<(Option<Publishing>, Plan), StorageError>(e),
                Ok(table) => {
                    let claims = claim_views(self.claims@);
                    let m = self.manifest(table);
                    &&& r matches Ok(p)
                    &&& p.0 is Some <==> claims_hold(claims, table)
                    &&& p.1@ == assemble_steps(claims, table, 0, env.fsync) + (if claims_hold(
                        claims,
                        table,
                    ) {
                        stage_steps(m, self.ids.staged_name(), env.fsync)
                    } else {
                        Seq::empty()
                    })
                    &&& p.0 matches Some(publishing) ==> {
                        &&& publishing.key@ == m.key
                        &&& publishing.etag@ == m.etag
                        &&& publishing.ids == self.ids
                        &&& publishing.after@ == after_complete(
                            self.upload_id@,
                            m.etag,
                            env.fsync,
                        )
                    }
                },
            },
    {
        let table = match read_part_refs(refs) {
            Ok(table) => table,
            Err(e) => return Err(e),
        };
        let ghost records = part_records(table@);
        let ghost claims = claim_views(self.claims@);
        let mut plan = Plan::new();
        let whole = match push_assembly(&mut plan, &self.claims, &table, env.fsync) {
            Some(whole) => whole,
            None => {
                assert(plan@ =~= assemble_steps(claims, records, 0, env.fsync) + Seq::<
                    StepView,
                >::empty());
                return Ok((None, plan));
            },
        };
        assert(plan@ =~= assemble_steps(claims, records, 0, env.fsync));
        let digest = md5_digest(whole.digests.as_slice());
        let etag = composite_etag(digest.as_slice(), self.claims.len());
        let manifest = Manifest {
            key: self.upload.key.clone(),
            content_type: default_type(self.upload.content_type.as_str()),
            content_length: whole.total,
            etag: etag.clone(),
            last_modified: self.now,
            created: self.now,
            user_metadata: copy_pairs(&self.upload.user_metadata),
            content_disposition: String::new(),
            content_encoding: String::new(),
            cache_control: String::new(),
            parts: whole.parts,
            commit_nonce: self.ids.nonce.clone(),
        };
        assert(manifest@ =~= self.manifest(records));
        let staged = self.ids.make_staged_name();
        push_stage(&mut plan, manifest, staged.as_str(), env.fsync);
        let mut after = Plan::new();
        let mut one: Vec<u8> = Vec::new();
        one.push(0x31);
        assert(one@ =~= seq![0x31u8]);
        after.may(
            Call::WriteBytes {
                at: Place::UploadFile {
                    id: self.upload_id.clone(),
                    name: owned(COMPLETED_FILE),
                },
                data: one,
                sync: env.fsync,
            },
        );
        if env.fsync {
            after.may(Call::SyncDir { at: Place::Upload { id: self.upload_id.clone() } });
        }
        after.may(Call::RemoveDirAll { at: Place::Upload { id: self.upload_id.clone() } });
        after.finish(Outcome::Etag { etag: etag.clone() });
        assert(after@ =~= after_complete(self.upload_id@, etag@, env.fsync));
        Ok((Some(Publishing { key: self.upload.key, etag, ids: self.ids, after }), plan))
    }
}

} // verus!
