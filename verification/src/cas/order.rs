//! The order in which locks are taken.
//!
//! A task that takes both locks takes that of the bucket first. The steps that may follow a key
//! lock take no bucket lock, so no two tasks can wait for each other.

use vstd::prelude::*;
use crate::cas::browse::list_opening;
use crate::cas::buckets::{
    create_bucket_opening, created_steps, delete_bucket_opening, existing_steps, lock_bucket_step,
    removal_steps,
};
use crate::cas::complete::{
    after_complete, assemble_steps, claimed_part, gate_steps, move_steps, ClaimView,
};
use crate::cas::objects::{
    absent_steps, beneath_step, commit_steps, delete_opening, delete_steps, dir_sync_steps,
    get_opening, head_opening, not_found_steps, part_checks, prune_steps, put_opening, put_steps,
    read_steps, stage_steps,
};
use crate::cas::records::{JournalView, PartRefFileView};
use crate::cas::store::{key_depth, reclaim_rule, reclaim_steps};
use crate::cas::uploads::{
    abort_lock_steps, abort_steps, create_steps, install_steps, kept_steps, part_body_steps,
    relock_steps, reverted_steps, upload_opening, PartUpload,
};
use crate::manifest::{ManifestPartView, ManifestView};
use crate::outside::is_canonical_uuid;
use crate::plan::call::{RefEntry, StoredRef};
use crate::plan::place::Place;
use crate::plan::runner::{may, Rule, StepView};
use crate::reader::ByteRange;
use crate::types::{IoError, MultipartUploadView};

verus! {

/// The step takes a bucket lock.
pub open spec fn takes_bucket(step: StepView) -> bool {
    step matches StepView::Do { call, .. } && call is LockBucket
}

/// The step takes a key lock.
pub open spec fn takes_key(step: StepView) -> bool {
    step matches StepView::Do { call, .. } && call is LockKey
}

/// No step takes a bucket lock.
pub open spec fn no_bucket(steps: Seq<StepView>) -> bool {
    forall|i: int| 0 <= i < steps.len() ==> !takes_bucket(#[trigger] steps[i])
}

/// No step takes a bucket lock once a key lock was taken.
pub open spec fn bucket_first(steps: Seq<StepView>) -> bool {
    forall|i: int, j: int|
        0 <= i < j < steps.len() && takes_key(#[trigger] steps[i]) ==> !takes_bucket(
            #[trigger] steps[j],
        )
}

proof fn lemma_reclaim(blobs: Seq<Seq<char>>, rule: Rule)
    ensures
        no_bucket(reclaim_steps(blobs, rule)),
    decreases blobs.len(),
{
    if blobs.len() > 0 {
        lemma_reclaim(blobs.drop_last(), rule);
    }
}

proof fn lemma_dir_sync(key: Seq<char>, depth: int)
    ensures
        no_bucket(dir_sync_steps(key, depth)),
    decreases depth + 1,
{
    if depth >= 0 {
        lemma_dir_sync(key, depth - 1);
        let rest = dir_sync_steps(key, depth - 1);
        let all = dir_sync_steps(key, depth);
        assert forall|i: int| 0 <= i < all.len() implies !takes_bucket(#[trigger] all[i]) by {
            if i > 0 {
                assert(all[i] == rest[i - 1]);
            }
        }
    }
}

proof fn lemma_prune(key: Seq<char>, depth: int)
    ensures
        no_bucket(prune_steps(key, depth)),
    decreases depth,
{
    if depth > 0 {
        lemma_prune(key, depth - 1);
        let rest = prune_steps(key, depth - 1);
        let all = prune_steps(key, depth);
        assert forall|i: int| 0 <= i < all.len() implies !takes_bucket(#[trigger] all[i]) by {
            if i > 0 {
                assert(all[i] == rest[i - 1]);
            }
        }
    }
}

proof fn lemma_concat(a: Seq<StepView>, b: Seq<StepView>)
    requires
        no_bucket(a),
        no_bucket(b),
    ensures
        no_bucket(a + b),
{
    assert forall|i: int| 0 <= i < (a + b).len() implies !takes_bucket(#[trigger] (a + b)[i]) by {
        if i < a.len() {
            assert((a + b)[i] == a[i]);
        } else {
            assert((a + b)[i] == b[i - a.len()]);
        }
    }
}

/// Writing an object takes the bucket lock before the body is written and the key lock after it;
/// the commit takes no lock.
pub proof fn put_takes_the_bucket_first(
    bucket: Seq<char>,
    key: Seq<char>,
    blob_id: Seq<char>,
    m: ManifestView,
    staged: Seq<char>,
    name: Seq<char>,
    tmp: Seq<char>,
    journal: Option<JournalView>,
    fsync: bool,
)
    ensures
        bucket_first(put_opening(bucket, key, blob_id, fsync)),
        no_bucket(put_steps(bucket, blob_id, m, staged, fsync)),
        no_bucket(commit_steps(key, staged, name, tmp, journal, fsync)),
{
    let commit = commit_steps(key, staged, name, tmp, journal, fsync);
    lemma_dir_sync(key, key_depth(key));
    let tail = match journal {
        Some(j) => reclaim_steps(j.blobs, reclaim_rule()).push(
            crate::cas::store::journal_removal(name),
        ),
        None => Seq::empty(),
    };
    assert(no_bucket(tail)) by {
        if let Some(j) = journal {
            lemma_reclaim(j.blobs, reclaim_rule());
        }
    }
    let sync = if fsync {
        dir_sync_steps(key, key_depth(key))
    } else {
        Seq::empty()
    };
    let n = commit.len() - tail.len() - sync.len();
    let front = commit.take(n);
    assert(commit =~= front + sync + tail);
    assert(no_bucket(front));
    lemma_concat(front, sync);
    lemma_concat(front + sync, tail);
}

/// Deleting an object takes the bucket lock, then the key lock; what follows takes none.
pub proof fn delete_takes_the_bucket_first(
    bucket: Seq<char>,
    key: Seq<char>,
    name: Seq<char>,
    tmp: Seq<char>,
    blobs: Seq<Seq<char>>,
    fsync: bool,
)
    ensures
        bucket_first(delete_opening(bucket, key, fsync)),
        no_bucket(delete_steps(key, name, tmp, blobs, fsync)),
        no_bucket(absent_steps(key, fsync)),
{
    let all = delete_steps(key, name, tmp, blobs, fsync);
    let reclaim = reclaim_steps(blobs, reclaim_rule());
    let prune = prune_steps(key, key_depth(key));
    lemma_reclaim(blobs, reclaim_rule());
    lemma_prune(key, key_depth(key));
    let n = all.len() - 1 - prune.len() - 2 - reclaim.len();
    let front = all.take(n);
    let mid = all.subrange(n + reclaim.len(), n + reclaim.len() + 2);
    let last = all.skip(all.len() - 1);
    assert(all =~= front + reclaim + mid + prune + last);
    assert(no_bucket(front));
    assert(no_bucket(mid));
    assert(no_bucket(last));
    lemma_concat(front, reclaim);
    lemma_concat(front + reclaim, mid);
    lemma_concat(front + reclaim + mid, prune);
    lemma_concat(front + reclaim + mid + prune, last);
}

/// Storing a part takes the bucket lock before the body is written and the key lock after it; what
/// follows takes none.
pub proof fn part_takes_the_bucket_first(
    bucket: Seq<char>,
    part: PartUpload,
    tmp: Seq<char>,
    name: Seq<char>,
    record: PartRefFileView,
    previous: Option<StoredRef>,
    md5_hex: Seq<char>,
    e: IoError,
    fsync: bool,
)
    ensures
        bucket_first(part_body_steps(bucket, part.blob_id@)),
        no_bucket(relock_steps(bucket, part.key@, part.upload_id@)),
        no_bucket(install_steps(part.upload_id@, tmp, name, record, fsync)),
        no_bucket(kept_steps(previous, part.blob_id@, md5_hex)),
        no_bucket(reverted_steps(part, previous, e, fsync)),
{
    lemma_reclaim(crate::cas::uploads::superseded(previous, part.blob_id@), may());
}

proof fn lemma_assemble(
    claims: Seq<ClaimView>,
    table: Seq<PartRefFileView>,
    total: int,
    fsync: bool,
)
    ensures
        no_bucket(assemble_steps(claims, table, total, fsync)),
    decreases claims.len(),
{
    if claims.len() > 0 {
        if let Some(p) = claimed_part(claims[0], table) {
            lemma_assemble(claims.skip(1), table, total + p.size, fsync);
            let all = assemble_steps(claims, table, total, fsync);
            let m = move_steps(p, claims[0].blob_id, fsync);
            let rest = all.skip(m.len() as int);
            assert(all =~= m + rest);
            assert(no_bucket(m));
            if crate::outside::is_hex_text(p.md5_hex) && total + p.size <= u64::MAX {
                assert(rest =~= assemble_steps(claims.skip(1), table, total + p.size, fsync));
            }
            assert(no_bucket(rest));
            lemma_concat(m, rest);
        }
    }
}

/// Completing an upload takes the bucket lock, then the key lock; what follows takes none.
pub proof fn complete_takes_the_bucket_first(
    bucket: Seq<char>,
    key: Seq<char>,
    id: Seq<char>,
    claims: Seq<ClaimView>,
    table: Seq<PartRefFileView>,
    m: ManifestView,
    staged: Seq<char>,
    etag: Seq<char>,
    fsync: bool,
)
    ensures
        bucket_first(gate_steps(bucket, key, id, claims)),
        no_bucket(assemble_steps(claims, table, 0, fsync) + stage_steps(m, staged, fsync)),
        no_bucket(after_complete(id, etag, fsync)),
{
    lemma_assemble(claims, table, 0, fsync);
    lemma_concat(assemble_steps(claims, table, 0, fsync), stage_steps(m, staged, fsync));
}

/// Giving up an upload takes the key lock and no bucket lock.
pub proof fn abort_takes_no_bucket(
    bucket: Seq<char>,
    key: Seq<char>,
    id: Seq<char>,
    refs: Result<Vec<RefEntry>, IoError>,
)
    ensures
        no_bucket(upload_opening(bucket, id)),
        no_bucket(abort_lock_steps(bucket, key, id)),
        no_bucket(abort_steps(id, refs)),
{
    let all = abort_steps(id, refs);
    let front = all.take(all.len() - 2);
    let blobs = match crate::cas::parts::stored_table(refs) {
        Ok(table) => crate::cas::parts::table_blobs(table),
        Err(_) => Seq::empty(),
    };
    lemma_reclaim(blobs, may());
    assert(front =~= reclaim_steps(blobs, may()));
    assert(all =~= front + all.skip(all.len() - 2));
    lemma_concat(front, all.skip(all.len() - 2));
}

proof fn lemma_part_checks(parts: Seq<ManifestPartView>)
    ensures
        no_bucket(part_checks(parts)),
    decreases parts.len(),
{
    if parts.len() > 0 && is_canonical_uuid(parts[0].blob_id) {
        lemma_part_checks(parts.skip(1));
        lemma_concat(
            seq![beneath_step(Place::Blob { id: parts[0].blob_id })],
            part_checks(parts.skip(1)),
        );
    }
}

/// Reads take no bucket lock: they go on while a bucket is written to or removed.
pub proof fn reads_take_no_bucket(
    bucket: Seq<char>,
    key: Seq<char>,
    path: Seq<char>,
    m: ManifestView,
    range: Option<ByteRange>,
    prefix: Seq<char>,
)
    ensures
        no_bucket(get_opening(bucket, key)),
        no_bucket(read_steps(path, m, range)),
        no_bucket(head_opening(key)),
        no_bucket(not_found_steps()),
        no_bucket(list_opening(prefix)),
{
    lemma_part_checks(m.parts);
}

/// No step takes a key lock.
pub open spec fn no_key(steps: Seq<StepView>) -> bool {
    forall|i: int| 0 <= i < steps.len() ==> !takes_key(#[trigger] steps[i])
}

/// Creating and removing a bucket takes its lock for one alone and no key lock, and so does
/// beginning an upload, which shares the bucket lock with other writers.
pub proof fn bucket_changes_take_no_key(
    bucket: Seq<char>,
    upload: MultipartUploadView,
    fsync: bool,
)
    ensures
        create_bucket_opening(bucket)[0] == lock_bucket_step(bucket),
        delete_bucket_opening(bucket)[0] == lock_bucket_step(bucket),
        no_key(create_bucket_opening(bucket)),
        no_key(created_steps(fsync)),
        no_key(existing_steps(fsync)),
        no_key(delete_bucket_opening(bucket)),
        no_key(removal_steps(fsync)),
        no_key(create_steps(bucket, upload, fsync)),
{
}

} // verus!
