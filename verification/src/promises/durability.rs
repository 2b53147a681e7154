//! The order of the steps of a commit, and what is made durable.

use vstd::prelude::*;
use crate::blob::BlobInfo;
use crate::cas::complete::Assembling;
use crate::cas::objects::{
    commit_steps, delete_journal, delete_steps, depth_of, dir_sync_steps, found, prune_steps,
    put_manifest, put_steps, Deleting, Publishing, PutBody,
};

use crate::cas::store::{
    blob_sync_steps, journal_removal, journal_steps, key_depth, reclaim_rule, reclaim_steps, Env,
};
use crate::manifest::Manifest;
use crate::outside::is_canonical_uuid;
use crate::plan::call::{CallView, OutcomeView, RefEntry, Report};
use crate::plan::place::{Place, PlaceView};
use crate::plan::runner::{may, must, OnError, Plan, Rule, StepView};
use crate::promises::objects::{lemma_reclaimed, removal_of};
use crate::types::{IoError, IoErrorKind, StorageError};

verus! {

/// One step stands before another.
pub open spec fn is_before(steps: Seq<StepView>, a: StepView, b: StepView) -> bool {
    exists|i: int, j: int|
        0 <= i < j < steps.len() && #[trigger] steps[i] == a && #[trigger] steps[j] == b
}

/// The entries of a directory are made durable.
pub open spec fn makes_durable(at: PlaceView, report: Report) -> StepView {
    StepView::Do { call: CallView::SyncDir { at }, rule: must(report) }
}

/// No step makes a directory durable.
pub open spec fn syncs_nothing(steps: Seq<StepView>) -> bool {
    forall|i: int|
        0 <= i < steps.len() ==> !(#[trigger] steps[i] matches StepView::Do { call, .. } && call
            is SyncDir)
}

/// The directories that lead to a blob are made durable before the manifest that names it is
/// written, innermost first. Where nothing has to be durable, nothing is synced.
pub proof fn blob_is_durable_before_its_manifest(
    put: PutBody,
    env: &Env,
    info: BlobInfo,
    r: Result<(Publishing, Plan), StorageError>,
)
    requires
        call_ensures(PutBody::streamed, (put, env, Ok::<BlobInfo, IoError>(info)), r),
    ensures
        r is Ok,
        env.fsync ==> ({
            let steps = r->Ok_0.1@;
            &&& steps[0] == makes_durable(Place::BlobInner { id: put.blob_id@ }, Report::Io)
            &&& steps[1] == makes_durable(Place::BlobOuter { id: put.blob_id@ }, Report::Io)
            &&& steps[2] == makes_durable(Place::Blobs, Report::Io)
            &&& forall|i: int|
                0 <= i < 3 ==> !(#[trigger] steps[i] matches StepView::Do { call, .. } && call
                    is WriteManifest)
        }),
        !env.fsync ==> syncs_nothing(r->Ok_0.1@),
{
    let m = put_manifest(put, info.size, info.md5_hex@);
    let steps = put_steps(env.bucket@, put.blob_id@, m, put.ids.staged_name(), env.fsync);
    assert(r->Ok_0.1@ == steps);
    if env.fsync {
        let own = blob_sync_steps(put.blob_id@);
        assert(steps[0] == own[0] && steps[1] == own[1] && steps[2] == own[2]);
    }
}

proof fn lemma_dir_sync(key: Seq<char>, depth: int, d: int)
    requires
        0 <= d <= depth,
    ensures
        dir_sync_steps(key, depth).contains(
            makes_durable(Place::KeyDir { key, depth: d as usize }, Report::NotDurable),
        ),
    decreases depth,
{
    let all = dir_sync_steps(key, depth);
    let step = makes_durable(Place::KeyDir { key, depth: d as usize }, Report::NotDurable);
    if d == depth {
        assert(all[0] == step);
    } else {
        lemma_dir_sync(key, depth - 1, d);
        let rest = dir_sync_steps(key, depth - 1);
        let k = rest.index_of(step);
        assert(all[k + 1] == step);
    }
}

/// The step that puts a staged manifest in the place of the live one.
pub open spec fn goes_live(staged: Seq<char>, key: Seq<char>) -> StepView {
    StepView::Do {
        call: CallView::Rename {
            src: Place::Staged { name: staged + ".manifest"@ },
            dst: Place::Manifest { key },
        },
        rule: must(Report::Io),
    }
}

/// The step that puts a journal in place.
pub open spec fn goes_to_journals(tmp: Seq<char>, journal: Seq<char>) -> StepView {
    StepView::Do {
        call: CallView::Rename {
            src: Place::Journal { name: tmp },
            dst: Place::Journal { name: journal + ".journal"@ },
        },
        rule: must(Report::Io),
    }
}

/// The step that removes a journal, unless something that it lists was left.
pub open spec fn drops_journal(journal: Seq<char>) -> StepView {
    StepView::Do {
        call: CallView::RemoveFile { at: Place::Journal { name: journal + ".journal"@ } },
        rule: Rule { count: None, missing_ok: false, on_error: OnError::Ignore, if_clean: true },
    }
}

/// A commit that replaces a version: its journal and the directories of the key are in place before
/// the new manifest is, the blobs of the old version are removed only behind that, and the journal
/// after them. Every directory from the manifest up to the tree of manifests is made durable behind
/// the new manifest, where that is asked for.
pub proof fn commit_goes_in_order(
    p: Publishing,
    env: &Env,
    m: Manifest,
    i: int,
    key: &str,
    depth: usize,
    d: int,
    r: Result<Plan, StorageError>,
)
    requires
        call_ensures(Publishing::commit, (p, env, Ok::<Manifest, IoError>(m)), r),
        key@ == p.key@,
        call_ensures(depth_of, (key,), depth),
        0 <= d <= depth,
    ensures
        r is Ok,
        ({
            let steps = r->Ok_0@;
            let live = goes_live(p.ids.staged@, p.key@);
            &&& exists|tmp: Seq<char>|
                is_before(steps, #[trigger] goes_to_journals(tmp, p.ids.journal@), live)
            &&& is_before(steps, live, drops_journal(p.ids.journal@))
            &&& is_before(
                steps,
                StepView::Do {
                    call: CallView::CreateDirAll { at: Place::KeyDir { key: p.key@, depth } },
                    rule: must(Report::Io),
                },
                live,
            )
            &&& 0 <= i < m.parts@.len() && is_canonical_uuid(m.parts@[i].blob_id@) ==> is_before(
                steps,
                live,
                removal_of(m.parts@[i].blob_id@),
            ) && is_before(
                steps,
                removal_of(m.parts@[i].blob_id@),
                drops_journal(p.ids.journal@),
            )
            &&& env.fsync ==> is_before(
                steps,
                live,
                makes_durable(Place::KeyDir { key: p.key@, depth: d as usize }, Report::NotDurable),
            )
        }),
{
    let j = p.journal(Some(m@))->0;
    let name = p.ids.journal_name();
    let tmp = p.ids.journal_tmp_name();
    let front = journal_steps(name, tmp, j, env.fsync);
    let n = front.len() as int;
    let sync = if env.fsync {
        dir_sync_steps(p.key@, key_depth(p.key@))
    } else {
        Seq::empty()
    };
    let gone = reclaim_steps(j.blobs, reclaim_rule());
    let commit = commit_steps(p.key@, p.ids.staged_name(), name, tmp, Some(j), env.fsync);
    let steps = r->Ok_0@;
    assert(found(Ok::<Manifest, IoError>(m)) == Some(m@));
    assert(steps == commit + p.after@);
    let live = goes_live(p.ids.staged@, p.key@);
    assert(commit[2] == goes_to_journals(tmp, p.ids.journal@));
    assert(commit[n + 1] == live);
    assert(steps[2] == commit[2] && steps[n + 1] == commit[n + 1]);
    assert(steps[n] == commit[n]);
    assert(is_before(steps, goes_to_journals(tmp, p.ids.journal@), live));
    let at = n + 3 + sync.len();
    let end = at + gone.len();
    assert(commit[end] == journal_removal(name));
    assert(steps[end] == drops_journal(p.ids.journal@));
    lemma_reclaimed(j.blobs, reclaim_rule());
    if 0 <= i < m.parts@.len() && is_canonical_uuid(m.parts@[i].blob_id@) {
        assert(m@.parts[i] == m.parts@[i]@);
        assert(j.blobs[i] == m.parts@[i].blob_id@);
        let k = gone.index_of(removal_of(m.parts@[i].blob_id@));
        assert(commit[at + k] == gone[k]);
        assert(steps[at + k] == removal_of(m.parts@[i].blob_id@));
    }
    if env.fsync {
        lemma_dir_sync(p.key@, key_depth(p.key@), d);
        let step = makes_durable(
            Place::KeyDir { key: p.key@, depth: d as usize },
            Report::NotDurable,
        );
        let k = sync.index_of(step);
        assert(commit[n + 3 + k] == sync[k]);
        assert(steps[n + 3 + k] == step);
    }
}

/// A first version has no journal and removes nothing. Without durability nothing is synced.
pub proof fn first_commit_removes_nothing(
    p: Publishing,
    env: &Env,
    e: IoError,
    r: Result<Plan, StorageError>,
)
    requires
        call_ensures(Publishing::commit, (p, env, Err::<Manifest, IoError>(e)), r),
        e.kind == IoErrorKind::NotFound,
        p.after@.len() == 1,
        p.after@[0] is Finish,
    ensures
        r is Ok,
        forall|i: int|
            0 <= i < r->Ok_0@.len() ==> !(#[trigger] r->Ok_0@[i] matches StepView::Do { call, .. } && (
            call is RemoveFile || call is WriteJournal)),
        !env.fsync ==> syncs_nothing(r->Ok_0@),
{
    let commit = commit_steps(
        p.key@,
        p.ids.staged_name(),
        p.ids.journal_name(),
        p.ids.journal_tmp_name(),
        None,
        env.fsync,
    );
    let steps = r->Ok_0@;
    assert(p.journal(found(Err::<Manifest, IoError>(e))) is None);
    assert(steps == commit + p.after@);
    if env.fsync {
        lemma_only_syncs(p.key@, key_depth(p.key@));
    }
    let sync = if env.fsync {
        dir_sync_steps(p.key@, key_depth(p.key@))
    } else {
        Seq::empty()
    };
    assert(commit.len() == 3 + sync.len());
    assert forall|i: int| 0 <= i < steps.len() implies !(#[trigger] steps[i] matches StepView::Do { call, .. }
        && (call is RemoveFile || call is WriteJournal)) by {
        if 3 <= i < commit.len() {
            assert(steps[i] == sync[i - 3]);
        }
    }
}

proof fn lemma_only_syncs(key: Seq<char>, depth: int)
    ensures
        forall|i: int|
            0 <= i < dir_sync_steps(key, depth).len() ==> (#[trigger] dir_sync_steps(
                key,
                depth,
            )[i] matches StepView::Do { call, .. } && call is SyncDir),
    decreases depth + 1,
{
    if depth >= 0 {
        lemma_only_syncs(key, depth - 1);
        let all = dir_sync_steps(key, depth);
        let rest = dir_sync_steps(key, depth - 1);
        assert forall|i: int| 0 <= i < all.len() implies (#[trigger] all[i] matches StepView::Do { call, .. }
            && call is SyncDir) by {
            if i > 0 {
                assert(all[i] == rest[i - 1]);
            }
        }
    }
}

/// The step that removes a manifest.
pub open spec fn drops_manifest(key: Seq<char>) -> StepView {
    StepView::Do {
        call: CallView::RemoveFile { at: Place::Manifest { key } },
        rule: Rule {
            count: None,
            missing_ok: true,
            on_error: OnError::Fail(Report::Io),
            if_clean: false,
        },
    }
}

proof fn lemma_pruned(key: Seq<char>, depth: int, d: int)
    requires
        1 <= d <= depth,
    ensures
        prune_steps(key, depth).contains(prunes(key, d as usize)),
    decreases depth,
{
    let all = prune_steps(key, depth);
    if d == depth {
        assert(all[0] == prunes(key, d as usize));
    } else {
        lemma_pruned(key, depth - 1, d);
        let k = prune_steps(key, depth - 1).index_of(prunes(key, d as usize));
        assert(all[k + 1] == prunes(key, d as usize));
    }
}

/// The step that removes a directory above a manifest where it is empty.
pub open spec fn prunes(key: Seq<char>, depth: usize) -> StepView {
    StepView::Do {
        call: CallView::RemoveDir { at: Place::KeyDir { key, depth } },
        rule: Rule { count: None, missing_ok: false, on_error: OnError::Taint, if_clean: true },
    }
}

/// A deletion: its journal is in place before the manifest is removed, the blobs are removed only
/// behind that, and the journal after them. Every directory between the manifest and the tree of
/// manifests is removed where it is empty, and the removal of the manifest is made durable where
/// that is asked for.
pub proof fn deletion_goes_in_order(
    x: Deleting,
    env: &Env,
    m: Manifest,
    i: int,
    key: &str,
    depth: usize,
    d: int,
    r: Result<Plan, StorageError>,
)
    requires
        call_ensures(Deleting::commit, (x, env, Ok::<Manifest, IoError>(m)), r),
        key@ == x.key@,
        call_ensures(depth_of, (key,), depth),
    ensures
        r is Ok,
        ({
            let steps = r->Ok_0@;
            let gone = drops_manifest(x.key@);
            &&& exists|tmp: Seq<char>|
                is_before(steps, #[trigger] goes_to_journals(tmp, x.ids.journal@), gone)
            &&& is_before(steps, gone, drops_journal(x.ids.journal@))
            &&& 0 <= i < m.parts@.len() && is_canonical_uuid(m.parts@[i].blob_id@) ==> is_before(
                steps,
                gone,
                removal_of(m.parts@[i].blob_id@),
            ) && is_before(
                steps,
                removal_of(m.parts@[i].blob_id@),
                drops_journal(x.ids.journal@),
            )
            &&& env.fsync ==> is_before(
                steps,
                gone,
                makes_durable(Place::KeyDir { key: x.key@, depth }, Report::Io),
            )
            &&& 1 <= d <= depth ==> is_before(steps, gone, prunes(x.key@, d as usize))
        }),
{
    let j = delete_journal(x.key@, m@.blobs());
    let name = x.ids.journal_name();
    let tmp = x.ids.journal_tmp_name();
    let front = journal_steps(name, tmp, j, env.fsync);
    let n = front.len() as int;
    let steps = r->Ok_0@;
    assert(steps == delete_steps(x.key@, name, tmp, m@.blobs(), env.fsync));
    let gone = drops_manifest(x.key@);
    assert(steps[2] == goes_to_journals(tmp, x.ids.journal@));
    assert(steps[n] == gone);
    assert(is_before(steps, goes_to_journals(tmp, x.ids.journal@), gone));
    let removals = reclaim_steps(j.blobs, reclaim_rule());
    let at = n + 1 + if env.fsync {
        1int
    } else {
        0int
    };
    let end = at + removals.len();
    assert(steps[end] == drops_journal(x.ids.journal@));
    lemma_reclaimed(j.blobs, reclaim_rule());
    if 0 <= i < m.parts@.len() && is_canonical_uuid(m.parts@[i].blob_id@) {
        assert(m@.parts[i] == m.parts@[i]@);
        assert(j.blobs[i] == m.parts@[i].blob_id@);
        let k = removals.index_of(removal_of(m.parts@[i].blob_id@));
        assert(steps[at + k] == removal_of(m.parts@[i].blob_id@));
    }
    if env.fsync {
        assert(steps[n + 1] == makes_durable(
            Place::KeyDir { key: x.key@, depth },
            Report::Io,
        ));
    }
    if 1 <= d <= depth {
        lemma_pruned(x.key@, key_depth(x.key@), d);
        let prune = prune_steps(x.key@, key_depth(x.key@));
        let k = prune.index_of(prunes(x.key@, d as usize));
        assert(steps[end + 2 + k] == prune[k]);
    }
}

/// An upload whose object is live is marked as completed, and its directory is removed. Neither can
/// fail the request.
pub proof fn completed_upload_is_marked(
    a: Assembling,
    env: &Env,
    refs: Result<Vec<RefEntry>, IoError>,
    r: Result<(Option<Publishing>, Plan), StorageError>,
)
    requires
        call_ensures(Assembling::assemble, (a, env, refs), r),
        r matches Ok((Some(_), _)),
    ensures
        r matches Ok((Some(p), _)) && p.after@[0] == (StepView::Do {
            call: CallView::WriteBytes {
                at: Place::UploadFile { id: a.upload_id@, name: "completed"@ },
                data: seq!['1' as u8],
                sync: env.fsync,
            },
            rule: may(),
        }) && is_before(
            p.after@,
            p.after@[0],
            StepView::Do {
                call: CallView::RemoveDirAll { at: Place::Upload { id: a.upload_id@ } },
                rule: may(),
            },
        ) && p.after@.last() == (StepView::Finish {
            outcome: OutcomeView::Etag { etag: p.etag@ },
        }) && forall|i: int|
            0 <= i < p.after@.len() - 1 ==> (#[trigger] p.after@[i] matches StepView::Do { rule, .. }
                && rule == may()),
{
    let p = r->Ok_0.0->0;
    let n = p.after@.len() as int;
    assert(p.after@[n - 2] == (StepView::Do {
        call: CallView::RemoveDirAll { at: Place::Upload { id: a.upload_id@ } },
        rule: may(),
    }));
    assert('1' as u8 == 0x31u8);
    assert(seq!['1' as u8] =~= seq![0x31u8]);
}

} // verus!
