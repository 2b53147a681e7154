//! Writing, reading and deleting objects.

use vstd::prelude::*;
use crate::blob::{blob_location, blob_path, is_valid_blob_id, BlobInfo};
use crate::cas::records::{Journal, JournalMode, JournalView};
use crate::cas::store::{
    body_failure, body_or_io, blob_sync_steps, default_type, head_bucket_step, journal_removal,
    journal_steps, key_depth, key_lock_shard, key_shard, must_do, push_blob_sync, push_head_bucket,
    push_journal, push_journal_removal, push_reclaim, push_write_preamble, quote, quoted,
    reclaim_rule, reclaim_steps, refusal, refuse, stored_type, validate_object_path, write_preamble,
    CasStore, CommitIds, Env,
};
use crate::manifest::{is_object_key, Manifest, ManifestPartRef, ManifestPartView, ManifestView};
use crate::metadata::{part_refs, PartRef, PartRefView};
use crate::outside::is_canonical_uuid;
use crate::path::join_path;
use crate::plan::call::{Call, CallView, Outcome, OutcomeView, Question, QuestionView, Report};
use crate::plan::place::{bucket_root, Place, PlaceView};
use crate::plan::runner::{must, OnError, Plan, Rule, Step, StepView};
use crate::reader::{parse_range, requested_range, resolved_range, ByteRange};
use crate::text::{owned, pieces, texts};
use crate::types::{
    copy_pairs, is_bucket_name, pairs, BodySource, BodySourceView, GetObjectResult, GetObjectView,
    IoError, IoErrorKind, StorageError,
};

verus! {

/// An upload of a whole object while its body is written to a blob.
#[derive(Debug)]
pub struct PutBody {
    pub key: String,
    pub content_type: String,
    pub user_metadata: Vec<(String, String)>,
    pub blob_id: String,
    pub ids: CommitIds,
    /// Unix seconds.
    pub now: i64,
}

/// A version that is staged and waits for the old one to be read.
#[derive(Debug)]
pub struct Publishing {
    pub key: String,
    pub etag: String,
    pub ids: CommitIds,
    /// What follows the commit.
    pub after: Plan,
}

/// A deletion that waits for the live version to be read.
#[derive(Debug)]
pub struct Deleting {
    pub key: String,
    pub ids: CommitIds,
}

/// A read that waits for the live version.
#[derive(Debug)]
pub struct Reading {
    pub range_header: Option<String>,
}

/// A read that waits for the single blob of the object to be opened.
#[derive(Debug)]
pub struct Opening {
    pub manifest: Manifest,
    pub blob_id: String,
    pub range: Option<ByteRange>,
}

/// The manifest of an object that is stored in one blob.
pub open spec fn put_manifest(put: PutBody, size: u64, md5_hex: Seq<char>) -> ManifestView {
    ManifestView {
        key: put.key@,
        content_type: stored_type(put.content_type@),
        content_length: size,
        etag: quoted(md5_hex),
        last_modified: put.now,
        created: put.now,
        user_metadata: pairs(put.user_metadata@),
        content_disposition: Seq::empty(),
        content_encoding: Seq::empty(),
        cache_control: Seq::empty(),
        parts: seq![
            ManifestPartView { part_number: 1, blob_id: put.blob_id@, size, md5_hex },
        ],
        commit_nonce: put.ids.nonce@,
    }
}

/// How an upload of a whole object begins: the body is written to a blob, which is removed again
/// if the upload fails.
pub open spec fn put_opening(
    bucket: Seq<char>,
    key: Seq<char>,
    blob_id: Seq<char>,
    fsync: bool,
) -> Seq<StepView> {
    write_preamble(bucket, key, fsync) + seq![
        StepView::Defer { call: CallView::RemoveFile { at: Place::Blob { id: blob_id } } },
        StepView::Ask { question: QuestionView::StreamBlob { id: blob_id } },
    ]
}

/// A new version is staged, and the live one is read.
pub open spec fn stage_steps(
    manifest: ManifestView,
    staged: Seq<char>,
    fsync: bool,
) -> Seq<StepView> {
    seq![
        must_do(
            CallView::WriteManifest { at: Place::Staged { name: staged }, manifest, sync: fsync },
            Report::Io,
        ),
        StepView::Defer { call: CallView::RemoveFile { at: Place::Staged { name: staged } } },
        StepView::Ask {
            question: QuestionView::ReadManifest { at: Place::Manifest { key: manifest.key } },
        },
    ]
}

/// The key is locked against other writers.
pub open spec fn lock_key_step(bucket: Seq<char>, key: Seq<char>) -> StepView {
    must_do(CallView::LockKey { shard: key_shard(bucket, key), exclusive: true }, Report::Io)
}

/// How a deletion begins: the key is locked, and the live version is read.
pub open spec fn delete_opening(bucket: Seq<char>, key: Seq<char>, fsync: bool) -> Seq<StepView> {
    write_preamble(bucket, key, fsync) + seq![
        lock_key_step(bucket, key),
        StepView::Ask { question: QuestionView::ReadManifest { at: Place::Manifest { key } } },
    ]
}

/// Once the body is written: the way to the blob is made durable before a manifest names it, the
/// key is locked, and the new version is staged.
pub open spec fn put_steps(
    bucket: Seq<char>,
    blob_id: Seq<char>,
    manifest: ManifestView,
    staged: Seq<char>,
    fsync: bool,
) -> Seq<StepView> {
    (if fsync {
        blob_sync_steps(blob_id)
    } else {
        Seq::empty()
    }).push(lock_key_step(bucket, manifest.key)) + stage_steps(manifest, staged, fsync)
}

/// The journal of a commit that replaces the version with these blobs.
pub open spec fn publish_journal(
    key: Seq<char>,
    nonce: Seq<char>,
    etag: Seq<char>,
    old_blobs: Seq<Seq<char>>,
) -> JournalView {
    JournalView {
        mode: JournalMode::Publish,
        supersedes_key: key,
        commit_nonce: nonce,
        expected_new_etag: etag,
        blobs: old_blobs,
    }
}

/// The directories above a manifest are made durable, from the one at `depth` up to the tree of
/// manifests itself.
pub open spec fn dir_sync_steps(key: Seq<char>, depth: int) -> Seq<StepView>
    decreases depth + 1,
{
    if depth < 0 {
        Seq::empty()
    } else {
        seq![
            must_do(
                CallView::SyncDir { at: Place::KeyDir { key, depth: depth as usize } },
                Report::NotDurable,
            ),
        ] + dir_sync_steps(key, depth - 1)
    }
}

/// The commit: the journal of the old version is written, the staged manifest takes the place of
/// the live one, that is made durable, and only then the old blobs are removed and the journal
/// with them.
pub open spec fn commit_steps(
    key: Seq<char>,
    staged: Seq<char>,
    journal_name: Seq<char>,
    journal_tmp: Seq<char>,
    journal: Option<JournalView>,
    fsync: bool,
) -> Seq<StepView> {
    (match journal {
        Some(j) => journal_steps(journal_name, journal_tmp, j, fsync),
        None => Seq::empty(),
    }) + seq![
        must_do(
            CallView::CreateDirAll {
                at: Place::KeyDir { key, depth: key_depth(key) as usize },
            },
            Report::Io,
        ),
        must_do(
            CallView::Rename {
                src: Place::Staged { name: staged },
                dst: Place::Manifest { key },
            },
            Report::Io,
        ),
        StepView::Seal,
    ] + (if fsync {
        dir_sync_steps(key, key_depth(key))
    } else {
        Seq::empty()
    }) + (match journal {
        Some(j) => reclaim_steps(j.blobs, reclaim_rule()).push(journal_removal(journal_name)),
        None => Seq::empty(),
    })
}

pub fn push_stage(plan: &mut Plan, manifest: Manifest, staged: &str, fsync: bool)
    ensures
        final(plan)@ == old(plan)@ + stage_steps(manifest@, staged@, fsync),
{
    let key = manifest.key.clone();
    plan.must(
        Call::WriteManifest { at: Place::Staged { name: owned(staged) }, manifest, sync: fsync },
        Report::Io,
    );
    plan.defer(Call::RemoveFile { at: Place::Staged { name: owned(staged) } });
    plan.ask(Question::ReadManifest { at: Place::Manifest { key } });
    assert(plan@ =~= old(plan)@ + stage_steps(manifest@, staged@, fsync));
}

/// The number of directories between the tree of manifests and the manifest of a key.
pub fn depth_of(key: &str) -> (r: usize)
    ensures
        r == key_depth(key@),
        r < usize::MAX,
{
    proof {
        crate::text::lemma_split_pieces(key@, '/');
    }
    let segs = pieces(key, '/');
    assert(texts(segs@).len() == segs.len());
    segs.len() - 1
}

fn push_dir_sync(plan: &mut Plan, key: &str)
    ensures
        final(plan)@ == old(plan)@ + dir_sync_steps(key@, key_depth(key@)),
{
    let top: usize = depth_of(key);
    let mut left: usize = top + 1;
    let ghost all = dir_sync_steps(key@, top as int);
    while left > 0
        invariant
            left <= top + 1,
            top < usize::MAX,
            old(plan)@ + all == plan@ + dir_sync_steps(key@, left - 1),
        decreases left,
    {
        let ghost before = plan@;
        let depth: usize = left - 1;
        plan.must(
            Call::SyncDir { at: Place::KeyDir { key: owned(key), depth } },
            Report::NotDurable,
        );
        proof {
            let rest = dir_sync_steps(key@, depth - 1);
            assert(plan@ + rest =~= before + dir_sync_steps(key@, depth as int));
        }
        left = left - 1;
    }
    assert(plan@ + dir_sync_steps(key@, -1) =~= plan@);
}

impl CasStore {
    /// Begins to store a whole object: the keys and the bucket are checked, and the body is to be
    /// written to the blob `blob_id`.
    pub fn put_object(
        &self,
        bucket: &str,
        key: &str,
        content_type: &str,
        user_metadata: Vec<(String, String)>,
        blob_id: String,
        ids: CommitIds,
        now: i64,
    ) -> (r: (PutBody, Plan))
        ensures
            r.0.key@ == key@,
            r.0.content_type@ == content_type@,
            r.0.user_metadata == user_metadata,
            r.0.blob_id == blob_id,
            r.0.ids == ids,
            r.0.now == now,
            r.1@ == (if is_bucket_name(bucket@) && is_object_key(key@) {
                put_opening(bucket@, key@, blob_id@, self.durable())
            } else {
                refusal(StorageError::PathTraversal)
            }),
    {
        let plan = match validate_object_path(bucket, key) {
            Ok(_) => {
                let mut plan = Plan::new();
                let fsync = self.env(bucket).fsync;
                push_write_preamble(&mut plan, bucket, key, fsync);
                plan.defer(Call::RemoveFile { at: Place::Blob { id: blob_id.clone() } });
                plan.ask(Question::StreamBlob { id: blob_id.clone() });
                assert(plan@ =~= put_opening(bucket@, key@, blob_id@, self.durable()));
                plan
            },
            Err(e) => refuse(e),
        };
        let body = PutBody {
            key: owned(key),
            content_type: owned(content_type),
            user_metadata,
            blob_id,
            ids,
            now,
        };
        (body, plan)
    }

    /// Begins to delete an object.
    pub fn delete_object(&self, bucket: &str, key: &str, ids: CommitIds) -> (r: (Deleting, Plan))
        ensures
            r.0.key@ == key@,
            r.0.ids == ids,
            r.1@ == (if is_bucket_name(bucket@) && is_object_key(key@) {
                delete_opening(bucket@, key@, self.durable())
            } else {
                refusal(StorageError::PathTraversal)
            }),
    {
        let plan = match validate_object_path(bucket, key) {
            Ok(_) => {
                let mut plan = Plan::new();
                let fsync = self.env(bucket).fsync;
                push_write_preamble(&mut plan, bucket, key, fsync);
                plan.must(
                    Call::LockKey { shard: key_lock_shard(bucket, key), exclusive: true },
                    Report::Io,
                );
                plan.ask(Question::ReadManifest { at: Place::Manifest { key: owned(key) } });
                assert(plan@ =~= delete_opening(bucket@, key@, self.durable()));
                plan
            },
            Err(e) => refuse(e),
        };
        (Deleting { key: owned(key), ids }, plan)
    }
}

impl PutBody {
    /// Goes on once the body is written, or could not be.
    pub fn streamed(self, env: &Env, result: Result<BlobInfo, IoError>) -> (r: Result<
        (Publishing, Plan),
        StorageError,
    >)
        ensures
            match result {
                Err(e) => r == Err::<(Publishing, Plan), StorageError>(body_failure(e)),
                Ok(info) => {
                    &&& r matches Ok(p)
                    &&& p.0.key@ == self.key@
                    &&& p.0.etag@ == quoted(info.md5_hex@)
                    &&& p.0.ids == self.ids
                    &&& p.0.after@ == seq![
                        StepView::Finish {
                            outcome: OutcomeView::Etag { etag: quoted(info.md5_hex@) },
                        },
                    ]
                    &&& p.1@ == put_steps(
                        env.bucket@,
                        self.blob_id@,
                        put_manifest(self, info.size, info.md5_hex@),
                        self.ids.staged_name(),
                        env.fsync,
                    )
                },
            },
    {
        let info = match result {
            Ok(info) => info,
            Err(e) => return Err(body_or_io(e)),
        };
        let etag = quote(info.md5_hex.as_str());
        let mut parts: Vec<ManifestPartRef> = Vec::new();
        parts.push(
            ManifestPartRef {
                part_number: 1,
                blob_id: self.blob_id.clone(),
                size: info.size,
                md5_hex: info.md5_hex.clone(),
            },
        );
        let manifest = Manifest {
            key: self.key.clone(),
            content_type: default_type(self.content_type.as_str()),
            content_length: info.size,
            etag: etag.clone(),
            last_modified: self.now,
            created: self.now,
            user_metadata: copy_pairs(&self.user_metadata),
            content_disposition: String::new(),
            content_encoding: String::new(),
            cache_control: String::new(),
            parts,
            commit_nonce: self.ids.nonce.clone(),
        };
        proof {
            let want = put_manifest(self, info.size, info.md5_hex@);
            assert(manifest@.parts =~= want.parts);
            assert(manifest@ =~= want);
        }
        let mut plan = Plan::new();
        if env.fsync {
            push_blob_sync(&mut plan, self.blob_id.as_str());
        }
        plan.must(
            Call::LockKey {
                shard: key_lock_shard(env.bucket.as_str(), self.key.as_str()),
                exclusive: true,
            },
            Report::Io,
        );
        let staged = self.ids.make_staged_name();
        push_stage(&mut plan, manifest, staged.as_str(), env.fsync);
        proof {
            assert(plan@ =~= put_steps(
                env.bucket@,
                self.blob_id@,
                put_manifest(self, info.size, info.md5_hex@),
                self.ids.staged_name(),
                env.fsync,
            ));
        }
        let mut after = Plan::new();
        after.finish(Outcome::Etag { etag: etag.clone() });
        assert(after@ =~= seq![
            StepView::Finish { outcome: OutcomeView::Etag { etag: quoted(info.md5_hex@) } },
        ]);
        Ok((Publishing { key: self.key, etag, ids: self.ids, after }, plan))
    }
}

/// The version that was read, `None` if there is none.
pub open spec fn found(result: Result<Manifest, IoError>) -> Option<ManifestView> {
    match result {
        Ok(m) => Some(m@),
        Err(_) => None,
    }
}

impl Publishing {
    /// The journal of this commit, if it replaces a version.
    pub open spec fn journal(&self, old_version: Option<ManifestView>) -> Option<JournalView> {
        match old_version {
            Some(m) => Some(
                publish_journal(self.key@, self.ids.nonce@, self.etag@, m.blobs()),
            ),
            None => None,
        }
    }

    /// Commits, now that the live version was read or turned out not to be there.
    pub fn commit(self, env: &Env, live: Result<Manifest, IoError>) -> (r: Result<
        Plan,
        StorageError,
    >)
        ensures
            match live {
                Err(e) if e.kind != IoErrorKind::NotFound => r == Err::<Plan, StorageError>(
                    StorageError::Io(e),
                ),
                _ => r matches Ok(plan) && plan@ == commit_steps(
                    self.key@,
                    self.ids.staged_name(),
                    self.ids.journal_name(),
                    self.ids.journal_tmp_name(),
                    self.journal(found(live)),
                    env.fsync,
                ) + self.after@,
            },
    {
        let old_version = match live {
            Ok(m) => Some(m),
            Err(e) => if e.kind == IoErrorKind::NotFound {
                None
            } else {
                return Err(StorageError::Io(e));
            },
        };
        let ghost journal = self.journal(found(live));
        let staged = self.ids.make_staged_name();
        let name = self.ids.make_journal_name();
        let mut plan = Plan::new();
        let old_blobs: Option<Vec<String>> = match &old_version {
            Some(m) => {
                let blobs = m.blob_ids();
                let tmp = self.ids.make_journal_tmp_name();
                let listed = m.blob_ids();
                let record = Journal {
                    mode: JournalMode::Publish,
                    supersedes_key: self.key.clone(),
                    commit_nonce: self.ids.nonce.clone(),
                    expected_new_etag: self.etag.clone(),
                    blobs: listed,
                };
                assert(record@ =~= journal->0);
                push_journal(&mut plan, name.as_str(), tmp.as_str(), record, env.fsync);
                Some(blobs)
            },
            None => None,
        };
        let depth: usize = depth_of(self.key.as_str());
        plan.must(
            Call::CreateDirAll { at: Place::KeyDir { key: self.key.clone(), depth } },
            Report::Io,
        );
        plan.must(
            Call::Rename {
                src: Place::Staged { name: staged },
                dst: Place::Manifest { key: self.key.clone() },
            },
            Report::Io,
        );
        plan.push(Step::Seal);
        if env.fsync {
            push_dir_sync(&mut plan, self.key.as_str());
        }
        if let Some(blobs) = &old_blobs {
            push_reclaim(
                &mut plan,
                blobs,
                Rule {
                    count: None,
                    missing_ok: true,
                    on_error: OnError::Taint,
                    if_clean: false,
                },
            );
            push_journal_removal(&mut plan, name.as_str());
        }
        proof {
            assert(plan@ =~= commit_steps(
                self.key@,
                self.ids.staged_name(),
                self.ids.journal_name(),
                self.ids.journal_tmp_name(),
                journal,
                env.fsync,
            ));
        }
        plan.append(self.after);
        Ok(plan)
    }
}

/// The journal of a deletion.
pub open spec fn delete_journal(key: Seq<char>, blobs: Seq<Seq<char>>) -> JournalView {
    JournalView {
        mode: JournalMode::Delete,
        supersedes_key: key,
        commit_nonce: Seq::empty(),
        expected_new_etag: Seq::empty(),
        blobs,
    }
}

/// The directories above a manifest are removed as long as they are empty, the innermost first.
pub open spec fn prune_steps(key: Seq<char>, depth: int) -> Seq<StepView>
    decreases depth,
{
    if depth <= 0 {
        Seq::empty()
    } else {
        seq![
            StepView::Do {
                call: CallView::RemoveDir { at: Place::KeyDir { key, depth: depth as usize } },
                rule: Rule {
                    count: None,
                    missing_ok: false,
                    on_error: OnError::Taint,
                    if_clean: true,
                },
            },
        ] + prune_steps(key, depth - 1)
    }
}

/// A call that has to succeed unless the thing is not there.
pub open spec fn must_unless_missing(call: CallView) -> StepView {
    StepView::Do {
        call,
        rule: Rule {
            count: None,
            missing_ok: true,
            on_error: OnError::Fail(Report::Io),
            if_clean: false,
        },
    }
}

pub fn push_unless_missing(plan: &mut Plan, call: Call)
    ensures
        final(plan)@ == old(plan)@.push(must_unless_missing(call@)),
{
    plan.push(
        Step::Do {
            call,
            rule: Rule {
                count: None,
                missing_ok: true,
                on_error: OnError::Fail(Report::Io),
                if_clean: false,
            },
        },
    );
}

/// The deletion of a key that has no manifest: an earlier deletion is made durable.
pub open spec fn absent_steps(key: Seq<char>, fsync: bool) -> Seq<StepView> {
    (if fsync {
        seq![
            must_unless_missing(
                CallView::SyncDir {
                    at: Place::KeyDir { key, depth: key_depth(key) as usize },
                },
            ),
        ]
    } else {
        Seq::empty()
    }).push(StepView::Finish { outcome: OutcomeView::Nothing })
}

/// The deletion: the journal is written, the manifest is removed, that is made durable, and only
/// then the blobs are removed, and the journal with them. Empty directories are cleared away.
pub open spec fn delete_steps(
    key: Seq<char>,
    journal_name: Seq<char>,
    journal_tmp: Seq<char>,
    blobs: Seq<Seq<char>>,
    fsync: bool,
) -> Seq<StepView> {
    journal_steps(journal_name, journal_tmp, delete_journal(key, blobs), fsync) + seq![
        must_unless_missing(CallView::RemoveFile { at: Place::Manifest { key } }),
    ] + (if fsync {
        seq![
            must_do(
                CallView::SyncDir {
                    at: Place::KeyDir { key, depth: key_depth(key) as usize },
                },
                Report::Io,
            ),
        ]
    } else {
        Seq::empty()
    }) + reclaim_steps(blobs, reclaim_rule()) + seq![
        journal_removal(journal_name),
        StepView::Reset,
    ] + prune_steps(key, key_depth(key)) + seq![
        StepView::Finish { outcome: OutcomeView::Nothing },
    ]
}

fn push_prune(plan: &mut Plan, key: &str)
    ensures
        final(plan)@ == old(plan)@ + prune_steps(key@, key_depth(key@)),
{
    let top: usize = depth_of(key);
    let mut depth: usize = top;
    let ghost all = prune_steps(key@, top as int);
    while depth > 0
        invariant
            depth <= top,
            old(plan)@ + all == plan@ + prune_steps(key@, depth as int),
        decreases depth,
    {
        let ghost before = plan@;
        plan.push(
            Step::Do {
                call: Call::RemoveDir { at: Place::KeyDir { key: owned(key), depth } },
                rule: Rule {
                    count: None,
                    missing_ok: false,
                    on_error: OnError::Taint,
                    if_clean: true,
                },
            },
        );
        proof {
            let rest = prune_steps(key@, depth - 1);
            assert(plan@ + rest =~= before + prune_steps(key@, depth as int));
        }
        depth = depth - 1;
    }
    assert(plan@ + prune_steps(key@, 0) =~= plan@);
}

impl Deleting {
    /// Goes on once the live version was read, or turned out not to be there.
    pub fn commit(self, env: &Env, live: Result<Manifest, IoError>) -> (r: Result<
        Plan,
        StorageError,
    >)
        ensures
            match live {
                Ok(m) => r matches Ok(plan) && plan@ == delete_steps(
                    self.key@,
                    self.ids.journal_name(),
                    self.ids.journal_tmp_name(),
                    m@.blobs(),
                    env.fsync,
                ),
                Err(e) => if e.kind == IoErrorKind::NotFound {
                    r matches Ok(plan) && plan@ == absent_steps(self.key@, env.fsync)
                } else {
                    r == Err::<Plan, StorageError>(StorageError::Io(e))
                },
            },
    {
        let depth: usize = depth_of(self.key.as_str());
        let mut plan = Plan::new();
        let m = match live {
            Ok(m) => m,
            Err(e) => {
                if e.kind != IoErrorKind::NotFound {
                    return Err(StorageError::Io(e));
                }
                if env.fsync {
                    push_unless_missing(
                        &mut plan,
                        Call::SyncDir { at: Place::KeyDir { key: self.key.clone(), depth } },
                    );
                }
                plan.finish(Outcome::Nothing);
                assert(plan@ =~= absent_steps(self.key@, env.fsync));
                return Ok(plan);
            },
        };
        let name = self.ids.make_journal_name();
        let tmp = self.ids.make_journal_tmp_name();
        let blobs = m.blob_ids();
        let record = Journal {
            mode: JournalMode::Delete,
            supersedes_key: self.key.clone(),
            commit_nonce: String::new(),
            expected_new_etag: String::new(),
            blobs: m.blob_ids(),
        };
        assert(record@ =~= delete_journal(self.key@, m@.blobs()));
        push_journal(&mut plan, name.as_str(), tmp.as_str(), record, env.fsync);
        push_unless_missing(
            &mut plan,
            Call::RemoveFile { at: Place::Manifest { key: self.key.clone() } },
        );
        if env.fsync {
            plan.must(
                Call::SyncDir { at: Place::KeyDir { key: self.key.clone(), depth } },
                Report::Io,
            );
        }
        push_reclaim(
            &mut plan,
            &blobs,
            Rule { count: None, missing_ok: true, on_error: OnError::Taint, if_clean: false },
        );
        push_journal_removal(&mut plan, name.as_str());
        plan.push(Step::Reset);
        push_prune(&mut plan, self.key.as_str());
        plan.finish(Outcome::Nothing);
        assert(plan@ =~= delete_steps(
            self.key@,
            self.ids.journal_name(),
            self.ids.journal_tmp_name(),
            m@.blobs(),
            env.fsync,
        ));
        Ok(plan)
    }
}

/// How a read of a manifest begins: no component of its path may be a link.
pub open spec fn beneath_step(at: PlaceView) -> StepView {
    must_do(CallView::CheckBeneath { at }, Report::Given(StorageError::ObjectNotFound))
}

/// How a read of an object begins: the key is locked against writers, and the live version is read.
pub open spec fn get_opening(bucket: Seq<char>, key: Seq<char>) -> Seq<StepView> {
    seq![
        beneath_step(Place::Manifest { key }),
        must_do(CallView::LockKey { shard: key_shard(bucket, key), exclusive: false }, Report::Io),
        StepView::Ask { question: QuestionView::ReadManifest { at: Place::Manifest { key } } },
    ]
}

/// How a read of the headers of an object begins.
pub open spec fn head_opening(key: Seq<char>) -> Seq<StepView> {
    seq![
        beneath_step(Place::Manifest { key }),
        StepView::Ask { question: QuestionView::ReadManifest { at: Place::Manifest { key } } },
    ]
}

/// A manifest that is not there: a missing bucket is reported first.
pub open spec fn not_found_steps() -> Seq<StepView> {
    seq![head_bucket_step(), StepView::Fail { error: StorageError::ObjectNotFound }]
}

impl CasStore {
    /// Begins to read an object.
    pub fn get_object(&self, bucket: &str, key: &str, range_header: Option<&str>) -> (r: (
        Reading,
        Plan,
    ))
        ensures
            match range_header {
                Some(h) => r.0.range_header matches Some(s) && s@ == h@,
                None => r.0.range_header is None,
            },
            r.1@ == (if is_bucket_name(bucket@) && is_object_key(key@) {
                get_opening(bucket@, key@)
            } else {
                refusal(StorageError::PathTraversal)
            }),
    {
        let reading = Reading {
            range_header: match range_header {
                Some(h) => Some(owned(h)),
                None => None,
            },
        };
        match validate_object_path(bucket, key) {
            Ok(_) => {
                let mut plan = Plan::new();
                plan.must(
                    Call::CheckBeneath { at: Place::Manifest { key: owned(key) } },
                    Report::Given(StorageError::ObjectNotFound),
                );
                plan.must(
                    Call::LockKey { shard: key_lock_shard(bucket, key), exclusive: false },
                    Report::Io,
                );
                plan.ask(Question::ReadManifest { at: Place::Manifest { key: owned(key) } });
                assert(plan@ =~= get_opening(bucket@, key@));
                (reading, plan)
            },
            Err(e) => (reading, refuse(e)),
        }
    }

    /// Begins to read the headers of an object.
    pub fn head_object(&self, bucket: &str, key: &str) -> (r: Plan)
        ensures
            r@ == (if is_bucket_name(bucket@) && is_object_key(key@) {
                head_opening(key@)
            } else {
                refusal(StorageError::PathTraversal)
            }),
    {
        match validate_object_path(bucket, key) {
            Ok(_) => {
                let mut plan = Plan::new();
                plan.must(
                    Call::CheckBeneath { at: Place::Manifest { key: owned(key) } },
                    Report::Given(StorageError::ObjectNotFound),
                );
                plan.ask(Question::ReadManifest { at: Place::Manifest { key: owned(key) } });
                assert(plan@ =~= head_opening(key@));
                plan
            },
            Err(e) => refuse(e),
        }
    }
}

/// Answers a request for headers once the live version was read.
pub fn head_answer(live: Result<Manifest, IoError>) -> (r: Result<Plan, StorageError>)
    ensures
        match live {
            Ok(m) => r matches Ok(plan) && plan@ == seq![
                StepView::Finish { outcome: OutcomeView::Headers { metadata: m@.headers() } },
            ],
            Err(e) => if e.kind == IoErrorKind::NotFound {
                r matches Ok(plan) && plan@ == not_found_steps()
            } else {
                r == Err::<Plan, StorageError>(StorageError::Io(e))
            },
        },
{
    let mut plan = Plan::new();
    match live {
        Ok(m) => {
            plan.finish(Outcome::Headers { metadata: m.to_object_metadata() });
            assert(plan@ =~= seq![
                StepView::Finish { outcome: OutcomeView::Headers { metadata: m@.headers() } },
            ]);
            Ok(plan)
        },
        Err(e) => {
            if e.kind != IoErrorKind::NotFound {
                return Err(StorageError::Io(e));
            }
            push_head_bucket(&mut plan);
            plan.push(Step::Fail { error: StorageError::ObjectNotFound });
            assert(plan@ =~= not_found_steps());
            Ok(plan)
        },
    }
}

/// The range of an object of `size` bytes that a header selects. `Err` means that it selects none.
pub open spec fn header_range(header: Option<Seq<char>>, size: u64) -> Result<
    Option<ByteRange>,
    StorageError,
> {
    match header {
        None => Ok(None),
        Some(h) => match requested_range(h) {
            None => Ok(None),
            Some(request) => match resolved_range(request, size) {
                Some(range) => Ok(Some(range)),
                None => Err(StorageError::RangeNotSatisfiable { size }),
            },
        },
    }
}

/// The error for a manifest that names no proper blob.
pub open spec fn malformed_manifest() -> StorageError {
    StorageError::Io(IoError { kind: IoErrorKind::InvalidData, code: 0 })
}

/// All parts name proper blobs.
pub open spec fn parts_ok(parts: Seq<ManifestPartView>) -> bool {
    forall|i: int| 0 <= i < parts.len() ==> is_canonical_uuid((#[trigger] parts[i]).blob_id)
}

/// The blobs of the parts are checked one by one; the first improper id ends the read.
pub open spec fn part_checks(parts: Seq<ManifestPartView>) -> Seq<StepView>
    decreases parts.len(),
{
    if parts.len() == 0 {
        Seq::empty()
    } else if !is_canonical_uuid(parts[0].blob_id) {
        seq![StepView::Fail { error: malformed_manifest() }]
    } else {
        seq![beneath_step(Place::Blob { id: parts[0].blob_id })] + part_checks(parts.skip(1))
    }
}

/// The parts of a version with the paths of their blobs.
pub open spec fn blob_parts(root: Seq<char>, parts: Seq<ManifestPartView>) -> Seq<PartRefView> {
    Seq::new(
        parts.len(),
        |i: int|
            PartRefView {
                part_number: parts[i].part_number as i32,
                path: blob_location(root, parts[i].blob_id),
                size: parts[i].size,
                md5_hex: parts[i].md5_hex,
            },
    )
}

/// What a read is answered with.
pub open spec fn object_answer(
    m: ManifestView,
    body: BodySourceView,
    range: Option<ByteRange>,
) -> StepView {
    StepView::Finish {
        outcome: OutcomeView::Object {
            object: GetObjectView {
                metadata: m.headers(),
                body,
                resolved_range: range,
                total_size: m.content_length,
            },
        },
    }
}

/// How a read goes on once the live version is known. The blob of an object with one part is
/// opened while the key is still locked; the blobs of several parts are opened as they are read.
pub open spec fn read_steps(
    bucket_path: Seq<char>,
    m: ManifestView,
    range: Option<ByteRange>,
) -> Seq<StepView> {
    if !parts_ok(m.parts) {
        part_checks(m.parts)
    } else {
        part_checks(m.parts).push(
            if m.parts.len() == 1 {
                StepView::Ask {
                    question: QuestionView::OpenFile { at: Place::Blob { id: m.parts[0].blob_id } },
                }
            } else {
                object_answer(
                    m,
                    BodySourceView::Parts { parts: blob_parts(bucket_path, m.parts) },
                    range,
                )
            },
        )
    }
}

/// Checks the parts one by one. Returns whether all ids are proper.
fn push_part_checks(plan: &mut Plan, m: &Manifest) -> (r: bool)
    ensures
        final(plan)@ == old(plan)@ + part_checks(m@.parts),
        r == parts_ok(m@.parts),
{
    let ghost parts = m@.parts;
    let mut i: usize = 0;
    assert(parts.skip(0) =~= parts);
    while i < m.parts.len()
        invariant
            i <= m.parts@.len(),
            parts == m@.parts,
            parts.len() == m.parts@.len(),
            old(plan)@ + part_checks(parts) == plan@ + part_checks(parts.skip(i as int)),
            forall|j: int| 0 <= j < i ==> is_canonical_uuid((#[trigger] parts[j]).blob_id),
        decreases m.parts@.len() - i,
    {
        let ghost before = plan@;
        let ghost rest = parts.skip(i as int);
        proof {
            assert(rest[0] == parts[i as int]);
            assert(parts[i as int].blob_id == m.parts@[i as int].blob_id@);
            assert(rest.skip(1) =~= parts.skip(i + 1));
        }
        if !is_valid_blob_id(m.parts[i].blob_id.as_str()) {
            plan.push(
                Step::Fail {
                    error: StorageError::Io(IoError { kind: IoErrorKind::InvalidData, code: 0 }),
                },
            );
            assert(plan@ =~= before + part_checks(rest));
            return false;
        }
        plan.must(
            Call::CheckBeneath { at: Place::Blob { id: m.parts[i].blob_id.clone() } },
            Report::Given(StorageError::ObjectNotFound),
        );
        assert(plan@ + part_checks(parts.skip(i + 1)) =~= before + part_checks(rest));
        i = i + 1;
    }
    assert(plan@ + part_checks(parts.skip(i as int)) =~= plan@);
    true
}

impl Reading {
    pub open spec fn header(&self) -> Option<Seq<char>> {
        match self.range_header {
            Some(h) => Some(h@),
            None => None,
        }
    }

    /// Goes on once the live version was read: either the read is answered, or the single blob is
    /// to be opened.
    pub fn found(self, env: &Env, live: Result<Manifest, IoError>) -> (r: Result<
        (Option<Opening>, Plan),
        StorageError,
    >)
        ensures
            match live {
                Ok(m) => match header_range(self.header(), m.content_length) {
                    Err(e) => r == Err::<(Option<Opening>, Plan), StorageError>(e),
                    Ok(range) => {
                        &&& r matches Ok(p)
                        &&& p.1@ == read_steps(bucket_root(env.root@, env.bucket@), m@, range)
                        &&& p.0 is Some <==> (parts_ok(m@.parts) && m@.parts.len() == 1)
                        &&& p.0 matches Some(o) ==> o.manifest == m && o.range == range
                            && o.blob_id@ == m@.parts[0].blob_id
                    },
                },
                Err(e) => if e.kind == IoErrorKind::NotFound {
                    r matches Ok(p) && p.0 is None && p.1@ == seq![
                        must_do(CallView::UnlockKey, Report::Io),
                    ] + not_found_steps()
                } else {
                    r == Err::<(Option<Opening>, Plan), StorageError>(StorageError::Io(e))
                },
            },
    {
        let mut plan = Plan::new();
        let m = match live {
            Ok(m) => m,
            Err(e) => {
                if e.kind != IoErrorKind::NotFound {
                    return Err(StorageError::Io(e));
                }
                plan.must(Call::UnlockKey, Report::Io);
                push_head_bucket(&mut plan);
                plan.push(Step::Fail { error: StorageError::ObjectNotFound });
                assert(plan@ =~= seq![must_do(CallView::UnlockKey, Report::Io)]
                    + not_found_steps());
                return Ok((None, plan));
            },
        };
        let total: u64 = m.content_length;
        let range: Option<ByteRange> = match &self.range_header {
            Some(h) => match parse_range(h.as_str(), total) {
                Ok(range) => range,
                Err(_) => return Err(StorageError::RangeNotSatisfiable { size: total }),
            },
            None => None,
        };
        let proper = push_part_checks(&mut plan, &m);
        assert(plan@ =~= part_checks(m@.parts));
        if !proper {
            return Ok((None, plan));
        }
        if m.parts.len() == 1 {
            let blob_id = m.parts[0].blob_id.clone();
            plan.ask(Question::OpenFile { at: Place::Blob { id: blob_id.clone() } });
            return Ok((Some(Opening { manifest: m, blob_id, range }), plan));
        }
        let base = join_path(env.root.as_str(), env.bucket.as_str());
        let mut parts: Vec<PartRef> = Vec::new();
        let mut i: usize = 0;
        let ghost want = blob_parts(base@, m@.parts);
        while i < m.parts.len()
            invariant
                i <= m.parts@.len(),
                parts@.len() == i,
                want == blob_parts(base@, m@.parts),
                forall|j: int| 0 <= j < i ==> (#[trigger] parts@[j])@ == want[j],
            decreases m.parts@.len() - i,
        {
            let p = &m.parts[i];
            parts.push(
                PartRef {
                    part_number: p.part_number as i32,
                    path: blob_path(base.as_str(), p.blob_id.as_str()),
                    size: p.size,
                    md5_hex: p.md5_hex.clone(),
                },
            );
            i = i + 1;
        }
        assert(part_refs(parts@) =~= want);
        plan.finish(
            Outcome::Object {
                object: GetObjectResult {
                    metadata: m.to_object_metadata(),
                    body: BodySource::Parts { parts },
                    resolved_range: range,
                    total_size: total,
                },
            },
        );
        Ok((None, plan))
    }
}

impl Opening {
    /// Answers the read once the blob was opened.
    pub fn opened(self, env: &Env, size: Result<u64, IoError>) -> (r: Result<Plan, StorageError>)
        ensures
            match size {
                Ok(n) => r matches Ok(plan) && plan@ == seq![
                    object_answer(
                        self.manifest@,
                        BodySourceView::Single {
                            path: blob_location(
                                bucket_root(env.root@, env.bucket@),
                                self.blob_id@,
                            ),
                            size: n,
                        },
                        self.range,
                    ),
                ],
                Err(e) => r == Err::<Plan, StorageError>(
                    if e.kind == IoErrorKind::NotFound {
                        StorageError::ObjectNotFound
                    } else {
                        StorageError::Io(e)
                    },
                ),
            },
    {
        let n: u64 = match size {
            Ok(n) => n,
            Err(e) => return Err(
                if e.kind == IoErrorKind::NotFound {
                    StorageError::ObjectNotFound
                } else {
                    StorageError::Io(e)
                },
            ),
        };
        let base = join_path(env.root.as_str(), env.bucket.as_str());
        let path = blob_path(base.as_str(), self.blob_id.as_str());
        let mut plan = Plan::new();
        plan.finish(
            Outcome::Object {
                object: GetObjectResult {
                    metadata: self.manifest.to_object_metadata(),
                    body: BodySource::Single { path, size: n },
                    resolved_range: self.range,
                    total_size: self.manifest.content_length,
                },
            },
        );
        assert(plan@.len() == 1);
        assert(plan@ =~= seq![plan@[0]]);
        Ok(plan)
    }
}

} // verus!
