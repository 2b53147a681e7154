//! Requests from beginning to end, and what a later request sees of an earlier one.

use vstd::prelude::*;
use crate::blob::{blob_location, blob_paths_are_distinct};
use crate::cas::model::{
    commit_is_atomic, committable, complete, deletion_is_atomic, exclusive,
    finished_commit_leaves_nothing_behind, finished_deletion_leaves_nothing_behind, harmless,
    has_to_succeed, journal_of, keeps_blobs, lemma_run_concat, lemma_run_keeps, live_of,
    object_bytes, old_blobs, reaches, run, sound, step_effect, unowned, Disk,
};
use crate::cas::objects::{
    absent_steps, blob_parts, commit_steps, delete_steps, get_opening, head_opening, header_range,
    lock_key_step, malformed_manifest, not_found_steps, object_answer, part_checks, parts_ok,
    put_manifest, put_steps, read_steps, stage_steps, PutBody,
};
use crate::cas::store::{blob_sync_steps, must_do, quoted, stored_type, CommitIds};
use crate::manifest::{ManifestPartView, ManifestView};
use crate::outside::{hex_text, is_canonical_uuid, md5_of};
use crate::plan::call::{CallView, OutcomeView, Report};
use crate::plan::place::bucket_root;
use crate::plan::runner::StepView;
use crate::reader::{body_from, selected, sizes_match, ByteRange};
use crate::types::{
    bucket_name_is_a_path_component, is_bucket_name, pairs, BodySourceView, GetObjectView,
    StorageError,
};

verus! {

/// How a request ends whose last steps these are: with an answer or with an error.
pub open spec fn ending(steps: Seq<StepView>) -> Option<Result<OutcomeView, StorageError>> {
    match steps.last() {
        StepView::Finish { outcome } => Some(Ok(outcome)),
        StepView::Fail { error } => Some(Err(error)),
        _ => None,
    }
}

/// What a request for the headers of an object is answered where no call fails.
pub open spec fn head_reply(d: Disk, key: Seq<char>) -> Option<Result<OutcomeView, StorageError>> {
    ending(
        match live_of(d, key) {
            Some(m) => seq![
                StepView::Finish { outcome: OutcomeView::Headers { metadata: m.headers() } },
            ],
            None => not_found_steps(),
        },
    )
}

/// What a request for an object is answered where no call fails. `path` is that of the bucket.
pub open spec fn get_reply(
    path: Seq<char>,
    d: Disk,
    key: Seq<char>,
    header: Option<Seq<char>>,
) -> Option<Result<OutcomeView, StorageError>> {
    match live_of(d, key) {
        None => ending(seq![must_do(CallView::UnlockKey, Report::Io)] + not_found_steps()),
        Some(m) => match header_range(header, m.content_length) {
            Err(e) => Some(Err(e)),
            Ok(range) => if parts_ok(m.parts) && m.parts.len() == 1 {
                let id = m.parts[0].blob_id;
                if d.blobs.contains_key(id) {
                    ending(
                        seq![
                            object_answer(
                                m,
                                BodySourceView::Single {
                                    path: blob_location(path, id),
                                    size: d.blobs[id].len() as u64,
                                },
                                range,
                            ),
                        ],
                    )
                } else {
                    Some(Err(StorageError::ObjectNotFound))
                }
            } else {
                ending(read_steps(path, m, range))
            },
        },
    }
}

/// The file at a path of the bucket is that of this blob.
pub open spec fn is_blob_at(path: Seq<char>, at: Seq<char>, id: Seq<char>) -> bool {
    is_canonical_uuid(id) && blob_location(path, id) == at
}

/// The bytes of the blob whose file is at a path.
pub open spec fn file_at(path: Seq<char>, d: Disk, at: Seq<char>) -> Seq<u8> {
    d.blobs[choose|id: Seq<char>| is_blob_at(path, at, id)]
}

/// The bytes of the files that a body is made of, one after the other.
pub open spec fn source_files(path: Seq<char>, d: Disk, body: BodySourceView) -> Seq<Seq<u8>> {
    match body {
        BodySourceView::Single { path: at, .. } => seq![file_at(path, d, at)],
        BodySourceView::Parts { parts } => Seq::new(
            parts.len(),
            |i: int| file_at(path, d, parts[i].path),
        ),
    }
}

/// The sizes that are recorded of the files are their sizes.
pub open spec fn source_sized(path: Seq<char>, d: Disk, body: BodySourceView) -> bool {
    match body {
        BodySourceView::Single { path: at, size } => file_at(path, d, at).len() == size,
        BodySourceView::Parts { parts } => sizes_match(parts, source_files(path, d, body)),
    }
}

/// The bytes that are sent with an answer to a request for an object: those that the readers of
/// one file or of several parts give.
pub open spec fn sent(path: Seq<char>, d: Disk, object: GetObjectView) -> Seq<u8> {
    selected(body_from(source_files(path, d, object.body), 0), object.resolved_range)
}

/// An object has these headers, and every request for it is answered with them and with the bytes
/// of `body`, or with the range of them that was asked for.
pub open spec fn reads_as(
    path: Seq<char>,
    d: Disk,
    key: Seq<char>,
    m: ManifestView,
    body: Seq<u8>,
) -> bool {
    &&& head_reply(d, key) == Some(
        Ok::<OutcomeView, StorageError>(OutcomeView::Headers { metadata: m.headers() }),
    )
    &&& forall|header: Option<Seq<char>>|
        match header_range(header, m.content_length) {
            Err(e) => #[trigger] get_reply(path, d, key, header) == Some(
                Err::<OutcomeView, StorageError>(e),
            ),
            Ok(range) => {
                &&& get_reply(path, d, key, header) matches Some(Ok(OutcomeView::Object { object }))
                &&& object.metadata == m.headers()
                &&& object.resolved_range == range
                &&& object.total_size == m.content_length
                &&& source_sized(path, d, object.body)
                &&& sent(path, d, object) == selected(body, range)
            },
        }
}

/// There is no such object.
pub open spec fn is_absent(path: Seq<char>, d: Disk, key: Seq<char>) -> bool {
    &&& head_reply(d, key) == Some(Err::<OutcomeView, StorageError>(StorageError::ObjectNotFound))
    &&& forall|header: Option<Seq<char>>| #[trigger]
        get_reply(path, d, key, header) == Some(
            Err::<OutcomeView, StorageError>(StorageError::ObjectNotFound),
        )
}

/// Requests for an object are answered in both buckets alike, with the same bytes.
pub open spec fn same_object(path: Seq<char>, d: Disk, x: Disk, key: Seq<char>) -> bool {
    &&& head_reply(x, key) == head_reply(d, key)
    &&& forall|header: Option<Seq<char>>| #[trigger]
        get_reply(path, x, key, header) == get_reply(path, d, key, header)
    &&& live_of(x, key) == live_of(d, key)
    &&& live_of(d, key) matches Some(m) ==> object_bytes(x, m) == object_bytes(d, m)
}

/// Each blob of a version is there in the size that is recorded of it.
pub open spec fn sized(d: Disk, m: ManifestView) -> bool {
    forall|i: int|
        0 <= i < m.parts.len() ==> d.blobs.contains_key((#[trigger] m.parts[i]).blob_id)
            && d.blobs[m.parts[i].blob_id].len() == m.parts[i].size
}

pub proof fn lemma_bucket_path(root: Seq<char>, bucket: Seq<char>)
    requires
        is_bucket_name(bucket),
    ensures
        bucket_root(root, bucket).len() > 0,
        bucket_root(root, bucket).last() != '/',
{
    bucket_name_is_a_path_component(bucket);
    let path = bucket_root(root, bucket);
    assert(path.last() == bucket.last());
    assert(bucket[bucket.len() - 1] != '/');
}

/// The file of a blob is found by its path.
proof fn lemma_file_at(path: Seq<char>, d: Disk, id: Seq<char>)
    requires
        path.len() > 0,
        path.last() != '/',
        is_canonical_uuid(id),
    ensures
        file_at(path, d, blob_location(path, id)) == d.blobs[id],
{
    let at = blob_location(path, id);
    assert(is_blob_at(path, at, id));
    let found = choose|b: Seq<char>| is_blob_at(path, at, b);
    assert(is_blob_at(path, at, found));
    blob_paths_are_distinct(path, found, id);
}

proof fn lemma_part_checks(parts: Seq<ManifestPartView>)
    requires
        parts_ok(parts),
    ensures
        part_checks(parts).len() == parts.len(),
    decreases parts.len(),
{
    if parts.len() > 0 {
        let rest = parts.skip(1);
        assert forall|i: int| 0 <= i < rest.len() implies is_canonical_uuid(
            (#[trigger] rest[i]).blob_id,
        ) by {
            assert(rest[i] == parts[i + 1]);
        }
        assert(is_canonical_uuid(parts[0].blob_id));
        lemma_part_checks(rest);
    }
}

/// A live version whose blobs are there in their sizes can be read.
pub proof fn lemma_reads_as(path: Seq<char>, d: Disk, key: Seq<char>, m: ManifestView)
    requires
        path.len() > 0,
        path.last() != '/',
        live_of(d, key) == Some(m),
        parts_ok(m.parts),
        sized(d, m),
    ensures
        reads_as(path, d, key, m, object_bytes(d, m)),
{
    let body = object_bytes(d, m);
    assert forall|header: Option<Seq<char>>|
        match header_range(header, m.content_length) {
            Err(e) => #[trigger] get_reply(path, d, key, header) == Some(
                Err::<OutcomeView, StorageError>(e),
            ),
            Ok(range) => {
                &&& get_reply(path, d, key, header) matches Some(Ok(OutcomeView::Object { object }))
                &&& object.metadata == m.headers()
                &&& object.resolved_range == range
                &&& object.total_size == m.content_length
                &&& source_sized(path, d, object.body)
                &&& sent(path, d, object) == selected(body, range)
            },
        } by {
        if let Ok(range) = header_range(header, m.content_length) {
            let contents = Seq::new(m.parts.len(), |i: int| d.blobs[m.parts[i].blob_id]);
            if m.parts.len() == 1 {
                let id = m.parts[0].blob_id;
                assert(is_canonical_uuid(id));
                lemma_file_at(path, d, id);
                let source = BodySourceView::Single {
                    path: blob_location(path, id),
                    size: d.blobs[id].len() as u64,
                };
                assert(d.blobs.contains_key(id) && d.blobs[id].len() == m.parts[0].size);
                assert(source_files(path, d, source) =~= contents);
            } else {
                lemma_part_checks(m.parts);
                let steps = read_steps(path, m, range);
                let parts = blob_parts(path, m.parts);
                let source = BodySourceView::Parts { parts };
                assert(steps.last() == object_answer(m, source, range));
                assert forall|i: int| 0 <= i < parts.len() implies file_at(
                    path,
                    d,
                    (#[trigger] parts[i]).path,
                ) == contents[i] && contents[i].len() == parts[i].size by {
                    assert(is_canonical_uuid(m.parts[i].blob_id));
                    lemma_file_at(path, d, m.parts[i].blob_id);
                    assert(d.blobs[m.parts[i].blob_id].len() == m.parts[i].size);
                }
                assert(source_files(path, d, source) =~= contents);
            }
        }
    }
}

/// A version with an improper blob id cannot be read.
proof fn lemma_improper_parts(parts: Seq<ManifestPartView>)
    requires
        !parts_ok(parts),
    ensures
        part_checks(parts).len() > 0,
        part_checks(parts).last() == (StepView::Fail { error: malformed_manifest() }),
    decreases parts.len(),
{
    let rest = parts.skip(1);
    if is_canonical_uuid(parts[0].blob_id) {
        let i = choose|i: int|
            0 <= i < parts.len() && !is_canonical_uuid((#[trigger] parts[i]).blob_id);
        assert(rest[i - 1] == parts[i]);
        lemma_improper_parts(rest);
    }
}

/// A request for an object and a request for its headers agree: where the object is answered, the
/// headers are the same, and so is the length that they give, as far as an `i64` holds it. Where
/// there is no such object, both say so.
pub proof fn head_and_get_agree(path: Seq<char>, d: Disk, key: Seq<char>, header: Option<Seq<char>>)
    ensures
        get_reply(path, d, key, header) matches Some(Ok(outcome)) ==> {
            &&& outcome matches OutcomeView::Object { object }
            &&& head_reply(d, key) == Some(
                Ok::<OutcomeView, StorageError>(
                    OutcomeView::Headers { metadata: object.metadata },
                ),
            )
            &&& object.total_size <= i64::MAX ==> object.metadata.content_length
                == object.total_size
        },
        live_of(d, key) is None ==> is_absent(path, d, key),
{
    if let Some(m) = live_of(d, key) {
        if let Ok(range) = header_range(header, m.content_length) {
            if !parts_ok(m.parts) {
                lemma_improper_parts(m.parts);
            } else if m.parts.len() != 1 {
                let steps = read_steps(path, m, range);
                let source = BodySourceView::Parts { parts: blob_parts(path, m.parts) };
                assert(steps.last() == object_answer(m, source, range));
            }
        }
    } else {
        let gone = seq![must_do(CallView::UnlockKey, Report::Io)] + not_found_steps();
        assert(gone.last() == not_found_steps().last());
    }
}

/// The steps of a read change nothing, however they go.
pub proof fn reading_changes_nothing(
    path: Seq<char>,
    d: Disk,
    bucket: Seq<char>,
    key: Seq<char>,
    m: ManifestView,
    range: Option<ByteRange>,
    done: Seq<bool>,
)
    ensures
        run(d, get_opening(bucket, key), done) == d,
        run(d, head_opening(key), done) == d,
        run(d, read_steps(path, m, range), done) == d,
        run(d, seq![must_do(CallView::UnlockKey, Report::Io)] + not_found_steps(), done) == d,
        run(d, not_found_steps(), done) == d,
{
    let same = |x: Disk| x == d;
    lemma_checks_change_nothing(m.parts);
    let steps = read_steps(path, m, range);
    let checks = part_checks(m.parts);
    assert forall|x: Disk, i: int| 0 <= i < steps.len() && #[trigger] same(x) implies same(
        step_effect(x, #[trigger] steps[i]),
    ) by {
        if i < checks.len() {
            assert(steps[i] == checks[i]);
            assert(step_effect(x, checks[i]) == x);
        }
    }
    lemma_run_keeps(d, steps, done, same);
    lemma_run_keeps(d, get_opening(bucket, key), done, same);
    lemma_run_keeps(d, head_opening(key), done, same);
    lemma_run_keeps(d, not_found_steps(), done, same);
    let gone = seq![must_do(CallView::UnlockKey, Report::Io)] + not_found_steps();
    lemma_run_keeps(d, gone, done, same);
}

proof fn lemma_checks_change_nothing(parts: Seq<ManifestPartView>)
    ensures
        forall|x: Disk, i: int|
            0 <= i < part_checks(parts).len() ==> #[trigger] step_effect(x, part_checks(parts)[i])
                == x,
    decreases parts.len(),
{
    if parts.len() > 0 && is_canonical_uuid(parts[0].blob_id) {
        lemma_checks_change_nothing(parts.skip(1));
        let all = part_checks(parts);
        let rest = part_checks(parts.skip(1));
        assert forall|x: Disk, i: int| 0 <= i < all.len() implies #[trigger] step_effect(x, all[i])
            == x by {
            if i > 0 {
                assert(all[i] == rest[i - 1]);
                assert(step_effect(x, rest[i - 1]) == x);
            }
        }
    }
}

/// An object whose blobs are the same is answered as before.
pub proof fn lemma_alike(path: Seq<char>, d: Disk, x: Disk, key: Seq<char>)
    requires
        complete(d),
        live_of(x, key) == live_of(d, key),
        forall|b: Seq<char>|
            d.live.contains_key(key) && #[trigger] d.live[key].blobs().contains(b)
                ==> x.blobs.contains_key(b) && x.blobs[b] == d.blobs[b],
    ensures
        same_object(path, d, x, key),
{
    if let Some(m) = live_of(d, key) {
        assert forall|i: int| 0 <= i < m.parts.len() implies x.blobs.contains_key(
            (#[trigger] m.parts[i]).blob_id,
        ) && d.blobs.contains_key(m.parts[i].blob_id) && x.blobs[m.parts[i].blob_id]
            == d.blobs[m.parts[i].blob_id] by {
            let b = m.parts[i].blob_id;
            assert(m.blobs()[i] == b);
            assert(d.live[key].blobs().contains(b));
        }
        assert(Seq::new(m.parts.len(), |i: int| x.blobs[m.parts[i].blob_id]) =~= Seq::new(
            m.parts.len(),
            |i: int| d.blobs[m.parts[i].blob_id],
        ));
        assert forall|header: Option<Seq<char>>| #[trigger]
            get_reply(path, x, key, header) == get_reply(path, d, key, header) by {
            if m.parts.len() == 1 {
                assert(x.blobs[m.parts[0].blob_id] == d.blobs[m.parts[0].blob_id]);
            }
        }
    }
}

/// An object whose blobs are kept is answered as before.
pub proof fn lemma_same_object(
    path: Seq<char>,
    d: Disk,
    x: Disk,
    key: Seq<char>,
    gone: Seq<Seq<char>>,
)
    requires
        complete(d),
        keeps_blobs(d, x, gone),
        live_of(x, key) == live_of(d, key),
        forall|b: Seq<char>|
            d.live.contains_key(key) && #[trigger] d.live[key].blobs().contains(b)
                ==> !gone.contains(b),
    ensures
        same_object(path, d, x, key),
{
    assert forall|b: Seq<char>|
        d.live.contains_key(key) && #[trigger] d.live[key].blobs().contains(b) implies x.blobs.contains_key(
    b) && x.blobs[b] == d.blobs[b] by {
        assert(d.blobs.contains_key(b));
        lemma_kept(d, x, gone, b);
    }
    lemma_alike(path, d, x, key);
}

/// What had to succeed in two lists, had to in each of them.
pub proof fn lemma_reaches_split(a: Seq<StepView>, b: Seq<StepView>, done: Seq<bool>)
    requires
        reaches(a + b, done, (a + b).len() as int),
        (a + b).len() <= done.len(),
    ensures
        reaches(a, done, a.len() as int),
        reaches(b, done.skip(a.len() as int), b.len() as int),
{
    assert forall|i: int| 0 <= i < a.len() && has_to_succeed(#[trigger] a[i]) implies done[i] by {
        assert((a + b)[i] == a[i]);
    }
    assert forall|i: int| 0 <= i < b.len() && has_to_succeed(#[trigger] b[i]) implies done.skip(
        a.len() as int,
    )[i] by {
        assert((a + b)[a.len() + i] == b[i]);
    }
}

/// A step that changes no live or staged version, no journal and no blob.
pub open spec fn only_refs(step: StepView) -> bool {
    forall|d: Disk|
        {
            let x = #[trigger] step_effect(d, step);
            x.live == d.live && x.staged == d.staged && x.journals == d.journals && x.blobs
                == d.blobs
        }
}

/// A version that is staged and committed replaces the one before it. Whatever follows leaves it
/// in place.
pub proof fn lemma_published(
    d: Disk,
    m: ManifestView,
    staged: Seq<char>,
    name: Seq<char>,
    tmp: Seq<char>,
    fsync: bool,
    after: Seq<StepView>,
    done: Seq<bool>,
)
    requires
        sound(d),
        committable(d, m.key, m),
        forall|i: int| 0 <= i < after.len() ==> only_refs(#[trigger] after[i]),
        ({
            let steps = stage_steps(m, staged, fsync) + commit_steps(
                m.key,
                staged,
                name,
                tmp,
                journal_of(d, m.key, m),
                fsync,
            ) + after;
            reaches(steps, done, steps.len() as int) && done.len() == steps.len()
        }),
    ensures
        ({
            let steps = stage_steps(m, staged, fsync) + commit_steps(
                m.key,
                staged,
                name,
                tmp,
                journal_of(d, m.key, m),
                fsync,
            ) + after;
            let x = run(d, steps, done);
            &&& sound(x)
            &&& x.live == d.live.insert(m.key, m)
            &&& keeps_blobs(d, x, old_blobs(d, m.key))
            &&& (forall|i: int| 0 <= i < done.len() ==> done[i]) ==> {
                &&& d.live.contains_key(m.key) ==> !x.journals.contains_key(name)
                &&& forall|b: Seq<char>|
                    old_blobs(d, m.key).contains(b) && is_canonical_uuid(b)
                        ==> !(#[trigger] x.blobs.contains_key(b))
            }
        }),
{
    let stage = stage_steps(m, staged, fsync);
    let journal = journal_of(d, m.key, m);
    let commit = commit_steps(m.key, staged, name, tmp, journal, fsync);
    let steps = stage + commit + after;
    let n = stage.len() as int;
    let c = commit.len() as int;
    lemma_reaches_split(stage + commit, after, done);
    lemma_reaches_split(stage, commit, done);
    lemma_run_concat(d, stage + commit, after, done);
    lemma_run_concat(d, stage, commit, done);
    // Staging.
    let s = run(d, stage, done);
    assert(s == (Disk { staged: d.staged.insert(staged, m), ..d })) by {
        assert(stage.len() == 3);
        assert(has_to_succeed(stage[0]));
        assert(done[0]);
        let one = stage.drop_last().drop_last();
        assert(stage.drop_last().last() == stage[1]);
        assert(stage.last() == stage[2]);
        assert(one.last() == stage[0]);
        assert(one.drop_last() =~= Seq::empty());
        assert(run(d, one.drop_last(), done) == d);
        assert(run(d, one, done) == step_effect(d, stage[0]));
        assert(run(d, stage.drop_last(), done) == run(d, one, done));
    }
    assert(sound(s));
    assert(committable(s, m.key, m)) by {
        assert forall|b: Seq<char>| #[trigger] m.blobs().contains(b) implies s.blobs.contains_key(b)
            && unowned(s, b) by {
            assert(unowned(d, b));
        }
    }
    // The commit.
    let rest = done.skip(n);
    let mine = rest.take(c);
    assert(journal_of(s, m.key, m) == journal);
    assert(reaches(commit, mine, c));
    commit_is_atomic(s, m.key, m, staged, name, tmp, fsync, mine, c);
    assert(commit.take(c) =~= commit);
    lemma_run_done(s, commit, mine, rest);
    let y = run(s, commit, mine);
    if forall|i: int| 0 <= i < done.len() ==> done[i] {
        if d.live.contains_key(m.key) {
            assert forall|i: int| 0 <= i < mine.len() implies mine[i] by {
                assert(mine[i] == done[n + i]);
            }
            finished_commit_leaves_nothing_behind(s, m.key, m, staged, name, tmp, fsync, mine);
        }
    }
    // What follows.
    let late = done.skip(n + c);
    let keep = |z: Disk|
        z.live == y.live && z.staged == y.staged && z.journals == y.journals && z.blobs == y.blobs;
    assert forall|z: Disk, i: int| 0 <= i < after.len() && #[trigger] keep(z) implies keep(
        step_effect(z, #[trigger] after[i]),
    ) by {
        assert(only_refs(after[i]));
    }
    lemma_run_keeps(y, after, late, keep);
    let x = run(y, after, late);
    assert(x == run(d, steps, done));
    assert(keep(x));
    lemma_sound_alike(y, x);
    assert forall|b: Seq<char>| d.blobs.contains_key(b) && !old_blobs(d, m.key).contains(b) implies
        #[trigger] x.blobs.contains_key(b) && x.blobs[b] == d.blobs[b] by {
        assert(s.blobs.contains_key(b));
        assert(y.blobs.contains_key(b));
    }
}

/// Only what is said of the steps that are run matters.
pub proof fn lemma_run_done(d: Disk, steps: Seq<StepView>, a: Seq<bool>, b: Seq<bool>)
    requires
        steps.len() <= a.len(),
        steps.len() <= b.len(),
        forall|i: int| 0 <= i < steps.len() ==> a[i] == b[i],
    ensures
        run(d, steps, a) == run(d, steps, b),
    decreases steps.len(),
{
    if steps.len() > 0 {
        lemma_run_done(d, steps.drop_last(), a, b);
    }
}

/// Whether a bucket is sound rests on its versions, journals and blobs alone.
pub proof fn lemma_sound_alike(d: Disk, x: Disk)
    requires
        sound(d),
        x.live == d.live,
        x.journals == d.journals,
        x.blobs == d.blobs,
    ensures
        sound(x),
{
    assert(complete(x));
    assert(exclusive(x));
    assert forall|n: Seq<char>| x.journals.contains_key(n) implies harmless(
        x,
        #[trigger] x.journals[n],
    ) by {
        assert(harmless(d, d.journals[n]));
    }
}

/// The bucket once the body of an object or of a part is in its blob.
pub open spec fn with_blob(d: Disk, id: Seq<char>, body: Seq<u8>) -> Disk {
    Disk { blobs: d.blobs.insert(id, body), ..d }
}

/// An id that no blob has and that nothing names.
pub open spec fn is_free(d: Disk, id: Seq<char>) -> bool {
    is_canonical_uuid(id) && !d.blobs.contains_key(id) && unowned(d, id)
}

/// The version that an upload of a whole object makes.
pub open spec fn put_version(put: PutBody, body: Seq<u8>) -> ManifestView {
    put_manifest(put, body.len() as u64, hex_text(md5_of(body)))
}

/// The steps of an upload of a whole object from the moment its body is in its blob.
pub open spec fn put_run(
    d: Disk,
    bucket: Seq<char>,
    put: PutBody,
    body: Seq<u8>,
    fsync: bool,
) -> Seq<StepView> {
    let m = put_version(put, body);
    put_steps(bucket, put.blob_id@, m, put.ids.staged_name(), fsync) + commit_steps(
        put.key@,
        put.ids.staged_name(),
        put.ids.journal_name(),
        put.ids.journal_tmp_name(),
        journal_of(d, put.key@, m),
        fsync,
    ) + seq![StepView::Finish { outcome: OutcomeView::Etag { etag: m.etag } }]
}

/// What an upload of a whole object does to the bucket.
proof fn lemma_put(
    bucket: Seq<char>,
    d: Disk,
    put: PutBody,
    body: Seq<u8>,
    fsync: bool,
    done: Seq<bool>,
)
    requires
        sound(d),
        body.len() <= u64::MAX,
        is_free(d, put.blob_id@),
        live_of(d, put.key@) matches Some(old_version) ==> old_version.commit_nonce
            != put.ids.nonce@,
        ({
            let steps = put_run(d, bucket, put, body, fsync);
            reaches(steps, done, steps.len() as int) && done.len() == steps.len()
        }),
    ensures
        ({
            let d1 = with_blob(d, put.blob_id@, body);
            let x = run(d1, put_run(d, bucket, put, body, fsync), done);
            &&& sound(x)
            &&& x.live == d.live.insert(put.key@, put_version(put, body))
            &&& keeps_blobs(d1, x, old_blobs(d, put.key@))
            &&& (forall|i: int| 0 <= i < done.len() ==> done[i]) ==> forall|b: Seq<char>|
                old_blobs(d, put.key@).contains(b) && is_canonical_uuid(b)
                    ==> !(#[trigger] x.blobs.contains_key(b))
        }),
{
    let id = put.blob_id@;
    let key = put.key@;
    let d1 = with_blob(d, id, body);
    let m = put_version(put, body);
    let staged = put.ids.staged_name();
    let name = put.ids.journal_name();
    let tmp = put.ids.journal_tmp_name();
    let journal = journal_of(d, key, m);
    let front = (if fsync {
        blob_sync_steps(id)
    } else {
        Seq::empty()
    }).push(lock_key_step(bucket, key));
    let after = seq![StepView::Finish { outcome: OutcomeView::Etag { etag: m.etag } }];
    let tail = stage_steps(m, staged, fsync) + commit_steps(key, staged, name, tmp, journal, fsync)
        + after;
    let steps = put_run(d, bucket, put, body, fsync);
    assert(steps =~= front + tail);
    lemma_reaches_split(front, tail, done);
    lemma_run_concat(d1, front, tail, done);
    let keep = |z: Disk| z == d1;
    assert forall|z: Disk, i: int| 0 <= i < front.len() && #[trigger] keep(z) implies keep(
        step_effect(z, #[trigger] front[i]),
    ) by {}
    lemma_run_keeps(d1, front, done, keep);
    lemma_fresh_blob(d, id, body);
    assert(m.blobs() =~= seq![id]);
    assert(committable(d1, key, m)) by {
        assert forall|b: Seq<char>| #[trigger] m.blobs().contains(b) implies d1.blobs.contains_key(
            b,
        ) && unowned(d1, b) by {
            assert(b == id);
        }
    }
    let rest = done.skip(front.len() as int);
    assert(journal_of(d1, key, m) == journal);
    assert(only_refs(after[0]));
    lemma_published(d1, m, staged, name, tmp, fsync, after, rest);
    if forall|i: int| 0 <= i < done.len() ==> done[i] {
        assert forall|i: int| 0 <= i < rest.len() implies rest[i] by {
            assert(rest[i] == done[front.len() + i]);
        }
    }
}

/// An object that is put is read back: its entity tag is the digest of its bytes, and its length,
/// its type and its metadata are those it was put with. No other object changes. Where every step
/// succeeds, no blob of the version before it is left.
pub proof fn put_object_is_read_back(
    root: Seq<char>,
    bucket: Seq<char>,
    d: Disk,
    put: PutBody,
    body: Seq<u8>,
    fsync: bool,
    done: Seq<bool>,
)
    requires
        is_bucket_name(bucket),
        sound(d),
        body.len() <= u64::MAX,
        is_free(d, put.blob_id@),
        live_of(d, put.key@) matches Some(old_version) ==> old_version.commit_nonce
            != put.ids.nonce@,
        ({
            let steps = put_run(d, bucket, put, body, fsync);
            reaches(steps, done, steps.len() as int) && done.len() == steps.len()
        }),
    ensures
        ({
            let path = bucket_root(root, bucket);
            let steps = put_run(d, bucket, put, body, fsync);
            let x = run(with_blob(d, put.blob_id@, body), steps, done);
            let m = put_version(put, body);
            &&& ending(steps) == Some(
                Ok::<OutcomeView, StorageError>(
                    OutcomeView::Etag { etag: quoted(hex_text(md5_of(body))) },
                ),
            )
            &&& sound(x)
            &&& reads_as(path, x, put.key@, m, body)
            &&& m.etag == quoted(hex_text(md5_of(body)))
            &&& m.content_length == body.len()
            &&& m.content_type == stored_type(put.content_type@)
            &&& put.content_type@.len() > 0 ==> m.content_type == put.content_type@
            &&& put.content_type@.len() == 0 ==> m.content_type == "application/octet-stream"@
            &&& m.user_metadata == pairs(put.user_metadata@)
            &&& forall|other: Seq<char>|
                other != put.key@ ==> #[trigger] same_object(path, d, x, other)
            &&& (forall|i: int| 0 <= i < done.len() ==> done[i]) ==> forall|b: Seq<char>|
                old_blobs(d, put.key@).contains(b) && is_canonical_uuid(b)
                    ==> !(#[trigger] x.blobs.contains_key(b))
        }),
{
    let path = bucket_root(root, bucket);
    let id = put.blob_id@;
    let key = put.key@;
    let d1 = with_blob(d, id, body);
    let m = put_version(put, body);
    let x = run(d1, put_run(d, bucket, put, body, fsync), done);
    let gone = old_blobs(d, key);
    lemma_bucket_path(root, bucket);
    lemma_put(bucket, d, put, body, fsync, done);
    assert(!gone.contains(id)) by {
        if gone.contains(id) {
            assert(d.live[key].blobs().contains(id));
        }
    }
    lemma_kept(d1, x, gone, id);
    assert(sized(x, m));
    lemma_reads_as(path, x, key, m);
    assert(object_bytes(x, m) == body) by {
        let contents = Seq::new(m.parts.len(), |i: int| x.blobs[m.parts[i].blob_id]);
        assert(contents.len() == 1);
        assert(body_from(contents, 1) =~= Seq::empty());
        assert(body_from(contents, 0) =~= body);
    }
    assert forall|other: Seq<char>| other != key implies #[trigger] same_object(
        path,
        d,
        x,
        other,
    ) by {
        assert forall|b: Seq<char>| d.blobs.contains_key(b) && !gone.contains(b) implies
            #[trigger] x.blobs.contains_key(b) && x.blobs[b] == d.blobs[b] by {
            lemma_kept(d1, x, gone, b);
        }
        lemma_not_mine(d, key, other);
        lemma_same_object(path, d, x, other, gone);
    }
}

/// A blob that is kept is there as it was.
pub proof fn lemma_kept(d: Disk, x: Disk, gone: Seq<Seq<char>>, b: Seq<char>)
    requires
        keeps_blobs(d, x, gone),
        d.blobs.contains_key(b),
        !gone.contains(b),
    ensures
        x.blobs.contains_key(b),
        x.blobs[b] == d.blobs[b],
{
    assert(x.blobs.contains_key(b));
}

/// The blobs of one object are not those of another.
pub proof fn lemma_not_mine(d: Disk, key: Seq<char>, other: Seq<char>)
    requires
        exclusive(d),
        other != key,
    ensures
        forall|b: Seq<char>|
            d.live.contains_key(other) && #[trigger] d.live[other].blobs().contains(b)
                ==> !old_blobs(d, key).contains(b),
{
    assert forall|b: Seq<char>|
        d.live.contains_key(other) && #[trigger] d.live[other].blobs().contains(b) implies !old_blobs(
        d,
        key,
    ).contains(b) by {
        if old_blobs(d, key).contains(b) {
            assert(d.live[key].blobs().contains(b));
        }
    }
}

/// A new blob that nothing names changes nothing else.
pub proof fn lemma_fresh_blob(d: Disk, id: Seq<char>, body: Seq<u8>)
    requires
        sound(d),
        is_free(d, id),
    ensures
        sound(with_blob(d, id, body)),
        unowned(with_blob(d, id, body), id),
{
    let x = with_blob(d, id, body);
    assert(complete(x));
    assert(exclusive(x));
    assert forall|n: Seq<char>| x.journals.contains_key(n) implies harmless(
        x,
        #[trigger] x.journals[n],
    ) by {
        assert(harmless(d, d.journals[n]));
    }
}

/// The steps of a deletion from the moment the live version was read.
pub open spec fn delete_run(d: Disk, key: Seq<char>, ids: CommitIds, fsync: bool) -> Seq<StepView> {
    match live_of(d, key) {
        Some(m) => delete_steps(
            key,
            ids.journal_name(),
            ids.journal_tmp_name(),
            m.blobs(),
            fsync,
        ),
        None => absent_steps(key, fsync),
    }
}

/// An object that is deleted is gone, and no other object changes. Where every step succeeds,
/// neither a blob of it nor the journal of the deletion is left. To delete it again changes
/// nothing.
pub proof fn deleted_object_is_gone(
    root: Seq<char>,
    bucket: Seq<char>,
    d: Disk,
    key: Seq<char>,
    ids: CommitIds,
    fsync: bool,
    done: Seq<bool>,
    again: CommitIds,
    again_done: Seq<bool>,
)
    requires
        sound(d),
        ({
            let steps = delete_run(d, key, ids, fsync);
            reaches(steps, done, steps.len() as int) && done.len() == steps.len()
        }),
    ensures
        ({
            let path = bucket_root(root, bucket);
            let steps = delete_run(d, key, ids, fsync);
            let x = run(d, steps, done);
            let more = delete_run(x, key, again, fsync);
            let nothing = Some(Ok::<OutcomeView, StorageError>(OutcomeView::Nothing));
            &&& ending(steps) == nothing
            &&& sound(x)
            &&& is_absent(path, x, key)
            &&& forall|other: Seq<char>| other != key ==> #[trigger] same_object(path, d, x, other)
            &&& d.live.contains_key(key) && (forall|i: int| 0 <= i < done.len() ==> done[i]) ==> {
                &&& !x.journals.contains_key(ids.journal_name())
                &&& forall|b: Seq<char>|
                    old_blobs(d, key).contains(b) && is_canonical_uuid(b)
                        ==> !(#[trigger] x.blobs.contains_key(b))
            }
            &&& ending(more) == nothing
            &&& run(x, more, again_done) == x
        }),
{
    let path = bucket_root(root, bucket);
    let steps = delete_run(d, key, ids, fsync);
    let x = run(d, steps, done);
    let gone = old_blobs(d, key);
    let name = ids.journal_name();
    let tmp = ids.journal_tmp_name();
    if d.live.contains_key(key) {
        assert(steps.take(steps.len() as int) =~= steps);
        deletion_is_atomic(d, key, name, tmp, fsync, done, steps.len() as int);
        if forall|i: int| 0 <= i < done.len() ==> done[i] {
            finished_deletion_leaves_nothing_behind(d, key, name, tmp, gone, fsync, done);
        }
    } else {
        lemma_absent(d, key, fsync, done);
    }
    assert(live_of(x, key) is None);
    lemma_absent(x, key, fsync, again_done);
    assert forall|other: Seq<char>| other != key implies #[trigger] same_object(
        path,
        d,
        x,
        other,
    ) by {
        lemma_not_mine(d, key, other);
        lemma_same_object(path, d, x, other, gone);
    }
}

/// The deletion of what is not there changes nothing.
proof fn lemma_absent(d: Disk, key: Seq<char>, fsync: bool, done: Seq<bool>)
    ensures
        run(d, absent_steps(key, fsync), done) == d,
{
    let steps = absent_steps(key, fsync);
    let keep = |z: Disk| z == d;
    assert forall|z: Disk, i: int| 0 <= i < steps.len() && #[trigger] keep(z) implies keep(
        step_effect(z, #[trigger] steps[i]),
    ) by {}
    lemma_run_keeps(d, steps, done, keep);
}

} // verus!
