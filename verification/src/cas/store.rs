//! The store, its locks and the steps that several requests share.

use vstd::prelude::*;
use vstd::std_specs::num::*;
use vstd::utf8::encode_utf8;
use crate::cas::records::{Journal, JournalView};
use crate::manifest::{is_object_key, is_valid_key, Manifest};
use crate::outside::{is_canonical_uuid, uuid_v4};
use crate::path::{is_within, within};
use crate::blob::is_valid_blob_id;
use crate::plan::call::{Call, CallView, Report};
use crate::plan::place::Place;
use crate::plan::runner::{may, must, OnError, Plan, Rule, Step, StepView};
use crate::text::{concat, has_char, owned, same, split, texts};
use crate::types::{
    bucket_name_is_a_path_component, is_bucket_name, is_valid_bucket_name, IoError, IoErrorKind,
    StorageError,
};

verus! {

/// The number of key locks.
pub const KEY_LOCK_SHARDS: usize = 256;

/// The number of bucket locks.
pub const BUCKET_LOCK_SHARDS: usize = 64;

/// A store below the data root `root`.
#[derive(Debug)]
pub struct CasStore {
    root: String,
    fsync: bool,
}

/// What the tasks of one bucket have in common.
#[derive(Debug)]
pub struct Env {
    pub root: String,
    pub bucket: String,
    /// Whether manifests, journals and directory entries are made durable.
    pub fsync: bool,
}

/// One step of the FNV-1a hash.
pub open spec fn fnv_step(h: u64, byte: u8) -> u64 {
    vstd::wrapping::u64_specs::wrapping_mul(h ^ (byte as u64), 0x0000_0100_0000_01b3)
}

/// The FNV-1a hash of `bytes`, from the state `h` on.
pub open spec fn fnv(h: u64, bytes: Seq<u8>) -> u64
    decreases bytes.len(),
{
    if bytes.len() == 0 {
        h
    } else {
        fnv_step(fnv(h, bytes.drop_last()), bytes.last())
    }
}

pub open spec fn fnv_start() -> u64 {
    0xcbf2_9ce4_8422_2325
}

/// The lock of a key: the hash of the bucket, a slash and the key.
pub open spec fn key_shard(bucket: Seq<char>, key: Seq<char>) -> usize {
    (fnv(
        fnv(fnv(fnv_start(), encode_utf8(bucket)), seq!['/' as u8]),
        encode_utf8(key),
    ) % (KEY_LOCK_SHARDS as u64)) as usize
}

/// The lock of a bucket: the hash of its name.
pub open spec fn bucket_shard(bucket: Seq<char>) -> usize {
    (fnv(fnv_start(), encode_utf8(bucket)) % (BUCKET_LOCK_SHARDS as u64)) as usize
}

fn hash_bytes(h: u64, bytes: &[u8]) -> (r: u64)
    ensures
        r == fnv(h, bytes@),
{
    let mut out: u64 = h;
    let mut i: usize = 0;
    assert(bytes@.take(0) =~= Seq::empty());
    while i < bytes.len()
        invariant
            i <= bytes@.len(),
            out == fnv(h, bytes@.take(i as int)),
        decreases bytes@.len() - i,
    {
        proof {
            assert(bytes@.take(i + 1).drop_last() =~= bytes@.take(i as int));
        }
        out = (out ^ (bytes[i] as u64)).wrapping_mul(0x0000_0100_0000_01b3);
        i = i + 1;
    }
    assert(bytes@.take(i as int) =~= bytes@);
    out
}

/// The number of the lock of a key.
pub fn key_lock_shard(bucket: &str, key: &str) -> (r: usize)
    ensures
        r == key_shard(bucket@, key@),
        r < KEY_LOCK_SHARDS,
{
    let h: u64 = hash_bytes(0xcbf2_9ce4_8422_2325, bucket.as_bytes());
    let slash: u64 = (h ^ 0x2f).wrapping_mul(0x0000_0100_0000_01b3);
    proof {
        let sep = seq!['/' as u8];
        assert(sep.drop_last() =~= Seq::<u8>::empty());
        assert(fnv(h, sep.drop_last()) == h);
        assert(fnv(h, sep) == fnv_step(h, '/' as u8));
        assert('/' as u8 as u64 == 0x2f);
    }
    let all: u64 = hash_bytes(slash, key.as_bytes());
    (all % (KEY_LOCK_SHARDS as u64)) as usize
}

/// The number of the lock of a bucket.
pub fn bucket_lock_shard(bucket: &str) -> (r: usize)
    ensures
        r == bucket_shard(bucket@),
        r < BUCKET_LOCK_SHARDS,
{
    let h: u64 = hash_bytes(0xcbf2_9ce4_8422_2325, bucket.as_bytes());
    (h % (BUCKET_LOCK_SHARDS as u64)) as usize
}

impl CasStore {
    pub closed spec fn root_view(&self) -> Seq<char> {
        self.root@
    }

    pub closed spec fn durable(&self) -> bool {
        self.fsync
    }

    /// A store that makes its commits durable.
    pub fn new(root: &str) -> (r: CasStore)
        ensures
            r.root_view() == root@,
            r.durable(),
    {
        CasStore::with_fsync(root, true)
    }

    /// A store with the given durability.
    pub fn with_fsync(root: &str, fsync: bool) -> (r: CasStore)
        ensures
            r.root_view() == root@,
            r.durable() == fsync,
    {
        CasStore { root: owned(root), fsync }
    }

    /// The data root.
    pub fn root(&self) -> (r: &str)
        ensures
            r@ == self.root_view(),
    {
        self.root.as_str()
    }

    /// What the tasks of `bucket` have in common.
    pub fn env(&self, bucket: &str) -> (r: Env)
        ensures
            r.root@ == self.root_view(),
            r.bucket@ == bucket@,
            r.fsync == self.durable(),
    {
        Env { root: self.root.clone(), bucket: owned(bucket), fsync: self.fsync }
    }
}

/// Whether a bucket may be joined to the data root. A bucket name holds no separator and no NUL
/// and is no dot entry, so the naming rules decide alone.
pub fn validate_bucket_component(bucket: &str) -> (r: Result<(), StorageError>)
    ensures
        is_bucket_name(bucket@) ==> r == Ok::<(), StorageError>(()),
        !is_bucket_name(bucket@) ==> r == Err::<(), StorageError>(StorageError::PathTraversal),
{
    if bucket.is_empty() || same(bucket, ".") || same(bucket, "..") || has_char(bucket, '/')
        || has_char(bucket, '\\') || has_char(bucket, '\0') {
        proof {
            reveal_strlit(".");
            reveal_strlit("..");
            assert("."@ =~= seq!['.']);
            assert(".."@ =~= seq!['.', '.']);
            if is_bucket_name(bucket@) {
                bucket_name_is_a_path_component(bucket@);
            }
        }
        return Err(StorageError::PathTraversal);
    }
    if is_valid_bucket_name(bucket) {
        Ok(())
    } else {
        Err(StorageError::PathTraversal)
    }
}

/// Whether an object of this bucket and key can exist, by their text alone.
pub fn validate_object_path(bucket: &str, key: &str) -> (r: Result<(), StorageError>)
    ensures
        is_bucket_name(bucket@) && is_object_key(key@) ==> r == Ok::<(), StorageError>(()),
        !(is_bucket_name(bucket@) && is_object_key(key@)) ==> r == Err::<(), StorageError>(
            StorageError::PathTraversal,
        ),
{
    match validate_bucket_component(bucket) {
        Ok(_) => if is_valid_key(key) {
            Ok(())
        } else {
            Err(StorageError::PathTraversal)
        },
        Err(e) => Err(e),
    }
}

/// The text in an option.
pub open spec fn optional_text(s: Option<String>) -> Option<Seq<char>> {
    match s {
        Some(s) => Some(s@),
        None => None,
    }
}

/// The first directory above a path that resolves lies in the data root. `above` says where the
/// directories lead, the innermost first, with `None` for one that does not resolve.
pub open spec fn resolves_inside(root: Option<Seq<char>>, above: Seq<Option<String>>) -> bool
    decreases above.len(),
{
    match root {
        None => true,
        Some(base) => if above.len() == 0 {
            true
        } else {
            match above[0] {
                Some(path) => is_within(base, path@),
                None => resolves_inside(root, above.skip(1)),
            }
        },
    }
}

/// Whether a path leads out of the data root. Where the root itself does not resolve there is
/// nothing to compare with.
pub fn assert_real_parent_within_root(root: &Option<String>, above: &Vec<Option<String>>) -> (r:
    Result<(), StorageError>)
    ensures
        r == (if resolves_inside(optional_text(*root), above@) {
            Ok::<(), StorageError>(())
        } else {
            Err(StorageError::PathTraversal)
        }),
{
    let base = match root {
        Some(base) => base,
        None => return Ok(()),
    };
    let ghost text = Some(base@);
    let mut i: usize = 0;
    assert(above@.skip(0) =~= above@);
    while i < above.len()
        invariant
            i <= above@.len(),
            text == Some(base@),
            resolves_inside(text, above@) == resolves_inside(text, above@.skip(i as int)),
            optional_text(*root) == text,
        decreases above@.len() - i,
    {
        let ghost rest = above@.skip(i as int);
        proof {
            assert(rest[0] == above@[i as int]);
            assert(rest.skip(1) =~= above@.skip(i + 1));
        }
        if let Some(path) = &above[i] {
            return if within(base.as_str(), path.as_str()) {
                Ok(())
            } else {
                Err(StorageError::PathTraversal)
            };
        }
        i = i + 1;
    }
    Ok(())
}

/// The plan that refuses a request.
pub open spec fn refusal(error: StorageError) -> Seq<StepView> {
    seq![StepView::Fail { error }]
}

/// The plan that refuses a request.
pub fn refuse(error: StorageError) -> (r: Plan)
    ensures
        r@ == refusal(error),
{
    let mut plan = Plan::new();
    plan.push(Step::Fail { error });
    assert(plan@ =~= refusal(error));
    plan
}

/// How the request body failed: a framing error is the client's.
pub open spec fn body_failure(e: IoError) -> StorageError {
    if e.kind == IoErrorKind::InvalidData {
        StorageError::IncompleteBody
    } else {
        StorageError::Io(e)
    }
}

/// How the request body failed.
pub fn body_or_io(e: IoError) -> (r: StorageError)
    ensures
        r == body_failure(e),
{
    if e.kind == IoErrorKind::InvalidData {
        StorageError::IncompleteBody
    } else {
        StorageError::Io(e)
    }
}

/// A step that has to succeed.
pub open spec fn must_do(call: CallView, report: Report) -> StepView {
    StepView::Do { call, rule: must(report) }
}

/// A step that may fail.
pub open spec fn may_do(call: CallView) -> StepView {
    StepView::Do { call, rule: may() }
}

/// The bucket has to be a directory.
pub open spec fn head_bucket_step() -> StepView {
    must_do(CallView::CheckDir { at: Place::Bucket }, Report::NoBucket)
}

/// The directories of a bucket are created, and their entries made durable.
pub open spec fn infra_steps(fsync: bool) -> Seq<StepView> {
    seq![
        must_do(CallView::CreateDirAll { at: Place::Current }, Report::Io),
        must_do(CallView::CreateDirAll { at: Place::Arriving }, Report::Io),
        must_do(CallView::CreateDirAll { at: Place::Blobs }, Report::Io),
        must_do(CallView::CreateDirAll { at: Place::Deleted }, Report::Io),
    ] + if fsync {
        seq![must_do(CallView::SyncDir { at: Place::Bucket }, Report::Io)]
    } else {
        Seq::empty()
    }
}

/// Before an object of a bucket is written: the place of its manifest has to resolve inside the
/// data root, the bucket is locked against removal, and its directories are there.
pub open spec fn write_preamble(bucket: Seq<char>, key: Seq<char>, fsync: bool) -> Seq<StepView> {
    seq![
        must_do(
            CallView::CheckContained { at: Place::Manifest { key } },
            Report::Given(StorageError::PathTraversal),
        ),
        must_do(CallView::LockBucket { shard: bucket_shard(bucket), exclusive: false }, Report::Io),
        head_bucket_step(),
    ] + infra_steps(fsync)
}

pub fn push_infra(plan: &mut Plan, fsync: bool)
    ensures
        final(plan)@ == old(plan)@ + infra_steps(fsync),
{
    plan.must(Call::CreateDirAll { at: Place::Current }, Report::Io);
    plan.must(Call::CreateDirAll { at: Place::Arriving }, Report::Io);
    plan.must(Call::CreateDirAll { at: Place::Blobs }, Report::Io);
    plan.must(Call::CreateDirAll { at: Place::Deleted }, Report::Io);
    if fsync {
        plan.must(Call::SyncDir { at: Place::Bucket }, Report::Io);
    }
    assert(plan@ =~= old(plan)@ + infra_steps(fsync));
}

pub fn push_head_bucket(plan: &mut Plan)
    ensures
        final(plan)@ == old(plan)@.push(head_bucket_step()),
{
    plan.must(Call::CheckDir { at: Place::Bucket }, Report::NoBucket);
}

pub fn push_write_preamble(plan: &mut Plan, bucket: &str, key: &str, fsync: bool)
    ensures
        final(plan)@ == old(plan)@ + write_preamble(bucket@, key@, fsync),
{
    plan.must(
        Call::CheckContained { at: Place::Manifest { key: owned(key) } },
        Report::Given(StorageError::PathTraversal),
    );
    plan.must(
        Call::LockBucket { shard: bucket_lock_shard(bucket), exclusive: false },
        Report::Io,
    );
    push_head_bucket(plan);
    push_infra(plan, fsync);
    assert(plan@ =~= old(plan)@ + write_preamble(bucket@, key@, fsync));
}

/// The number of directories between the tree of manifests and the manifest of a key.
pub open spec fn key_depth(key: Seq<char>) -> int {
    split(key, '/').len() - 1
}

/// The directories whose entries lead to a blob are made durable, the innermost first. Each of them
/// may have been made for this blob, and is then itself only an entry of the one above it.
pub open spec fn blob_sync_steps(id: Seq<char>) -> Seq<StepView> {
    seq![
        must_do(CallView::SyncDir { at: Place::BlobInner { id } }, Report::Io),
        must_do(CallView::SyncDir { at: Place::BlobOuter { id } }, Report::Io),
        must_do(CallView::SyncDir { at: Place::Blobs }, Report::Io),
    ]
}

pub fn push_blob_sync(plan: &mut Plan, id: &str)
    ensures
        final(plan)@ == old(plan)@ + blob_sync_steps(id@),
{
    plan.must(Call::SyncDir { at: Place::BlobInner { id: owned(id) } }, Report::Io);
    plan.must(Call::SyncDir { at: Place::BlobOuter { id: owned(id) } }, Report::Io);
    plan.must(Call::SyncDir { at: Place::Blobs }, Report::Io);
    assert(plan@ =~= old(plan)@ + blob_sync_steps(id@));
}

/// A journal is written next to where it belongs, moved there in one step, and made durable.
pub open spec fn journal_steps(
    name: Seq<char>,
    tmp: Seq<char>,
    journal: JournalView,
    fsync: bool,
) -> Seq<StepView> {
    seq![
        StepView::Defer { call: CallView::RemoveFile { at: Place::Journal { name: tmp } } },
        must_do(
            CallView::WriteJournal { at: Place::Journal { name: tmp }, journal, sync: fsync },
            Report::Io,
        ),
        must_do(
            CallView::Rename { src: Place::Journal { name: tmp }, dst: Place::Journal { name } },
            Report::Io,
        ),
        StepView::Disarm,
    ] + if fsync {
        seq![must_do(CallView::SyncDir { at: Place::Deleted }, Report::Io)]
    } else {
        Seq::empty()
    }
}

pub fn push_journal(plan: &mut Plan, name: &str, tmp: &str, journal: Journal, fsync: bool)
    ensures
        final(plan)@ == old(plan)@ + journal_steps(name@, tmp@, journal@, fsync),
{
    plan.defer(Call::RemoveFile { at: Place::Journal { name: owned(tmp) } });
    plan.must(
        Call::WriteJournal { at: Place::Journal { name: owned(tmp) }, journal, sync: fsync },
        Report::Io,
    );
    plan.must(
        Call::Rename {
            src: Place::Journal { name: owned(tmp) },
            dst: Place::Journal { name: owned(name) },
        },
        Report::Io,
    );
    plan.push(Step::Disarm);
    if fsync {
        plan.must(Call::SyncDir { at: Place::Deleted }, Report::Io);
    }
    assert(plan@ =~= old(plan)@ + journal_steps(name@, tmp@, journal@, fsync));
}

/// How the removal of a blob is taken: one that is gone already is as good as removed, and a
/// failure leaves something to be done.
pub open spec fn reclaim_rule() -> Rule {
    Rule { count: None, missing_ok: true, on_error: OnError::Taint, if_clean: false }
}

/// The blobs are removed. An id that names no blob is passed over.
pub open spec fn reclaim_steps(blobs: Seq<Seq<char>>, rule: Rule) -> Seq<StepView>
    decreases blobs.len(),
{
    if blobs.len() == 0 {
        Seq::empty()
    } else {
        let front = reclaim_steps(blobs.drop_last(), rule);
        if is_canonical_uuid(blobs.last()) {
            front.push(
                StepView::Do {
                    call: CallView::RemoveFile { at: Place::Blob { id: blobs.last() } },
                    rule,
                },
            )
        } else {
            front
        }
    }
}

pub fn push_reclaim(plan: &mut Plan, blobs: &Vec<String>, rule: Rule)
    ensures
        final(plan)@ == old(plan)@ + reclaim_steps(texts(blobs@), rule),
{
    let ghost all = texts(blobs@);
    let mut i: usize = 0;
    assert(all.take(0) =~= Seq::empty());
    assert(plan@ =~= old(plan)@ + reclaim_steps(all.take(0), rule));
    while i < blobs.len()
        invariant
            i <= blobs@.len(),
            all == texts(blobs@),
            plan@ == old(plan)@ + reclaim_steps(all.take(i as int), rule),
        decreases blobs@.len() - i,
    {
        proof {
            assert(all.take(i + 1).drop_last() =~= all.take(i as int));
            assert(all.take(i + 1).last() == blobs@[i as int]@);
        }
        if is_valid_blob_id(blobs[i].as_str()) {
            plan.push(
                Step::Do {
                    call: Call::RemoveFile { at: Place::Blob { id: blobs[i].clone() } },
                    rule,
                },
            );
            assert(plan@ =~= old(plan)@ + reclaim_steps(all.take(i + 1), rule));
        }
        i = i + 1;
    }
    assert(all.take(i as int) =~= all);
}

/// The journal is removed, unless a blob it lists is still there.
pub open spec fn journal_removal(name: Seq<char>) -> StepView {
    StepView::Do {
        call: CallView::RemoveFile { at: Place::Journal { name } },
        rule: Rule { count: None, missing_ok: false, on_error: OnError::Ignore, if_clean: true },
    }
}

pub fn push_journal_removal(plan: &mut Plan, name: &str)
    ensures
        final(plan)@ == old(plan)@.push(journal_removal(name@)),
{
    plan.push(
        Step::Do {
            call: Call::RemoveFile { at: Place::Journal { name: owned(name) } },
            rule: Rule { count: None, missing_ok: false, on_error: OnError::Ignore, if_clean: true },
        },
    );
}

/// The ids and names that one commit draws anew.
#[derive(Debug)]
pub struct CommitIds {
    pub nonce: String,
    /// The id of the staged manifest.
    pub staged: String,
    /// The id of the journal.
    pub journal: String,
    /// Sets the journal that is being written apart.
    pub journal_tmp: String,
}

impl CommitIds {
    /// Draws ids for one commit.
    pub fn draw() -> (r: CommitIds)
        ensures
            is_canonical_uuid(r.nonce@),
            is_canonical_uuid(r.staged@),
            is_canonical_uuid(r.journal@),
            is_canonical_uuid(r.journal_tmp@),
    {
        CommitIds {
            nonce: Manifest::new_nonce(),
            staged: uuid_v4(),
            journal: uuid_v4(),
            journal_tmp: uuid_v4(),
        }
    }

    /// The file name of the staged manifest.
    pub open spec fn staged_name(&self) -> Seq<char> {
        self.staged@ + ".manifest"@
    }

    /// The file name of the journal.
    pub open spec fn journal_name(&self) -> Seq<char> {
        self.journal@ + ".journal"@
    }

    /// The file name of the journal while it is written.
    pub open spec fn journal_tmp_name(&self) -> Seq<char> {
        self.journal@ + ".journal.tmp."@ + self.journal_tmp@
    }

    pub fn make_staged_name(&self) -> (r: String)
        ensures
            r@ == self.staged_name(),
    {
        concat(self.staged.as_str(), ".manifest")
    }

    pub fn make_journal_name(&self) -> (r: String)
        ensures
            r@ == self.journal_name(),
    {
        concat(self.journal.as_str(), ".journal")
    }

    pub fn make_journal_tmp_name(&self) -> (r: String)
        ensures
            r@ == self.journal_tmp_name(),
    {
        let front = concat(self.journal.as_str(), ".journal.tmp.");
        concat(front.as_str(), self.journal_tmp.as_str())
    }
}

/// The entity tag of an MD5: in quotes.
pub open spec fn quoted(s: Seq<char>) -> Seq<char> {
    seq!['"'] + s + seq!['"']
}

pub fn quote(s: &str) -> (r: String)
    ensures
        r@ == quoted(s@),
{
    proof {
        reveal_strlit("\"");
        assert("\""@ =~= seq!['"']);
    }
    let front = concat("\"", s);
    concat(front.as_str(), "\"")
}

/// The content type that is stored: one that was not given is that of plain bytes.
pub open spec fn stored_type(content_type: Seq<char>) -> Seq<char> {
    if content_type.len() == 0 {
        "application/octet-stream"@
    } else {
        content_type
    }
}

pub fn default_type(content_type: &str) -> (r: String)
    ensures
        r@ == stored_type(content_type@),
{
    if content_type.is_empty() {
        owned("application/octet-stream")
    } else {
        owned(content_type)
    }
}

} // verus!
