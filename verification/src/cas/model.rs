//! What the steps of the store do to a bucket, and what holds at every point of them.
//!
//! A bucket on disk is modelled by its live manifests, staged manifests, journals, blobs and part
//! references. Running a plan applies its calls one after the other; a call may also fail and do
//! nothing. A crash leaves behind what the steps before it did.

use vstd::prelude::*;
use crate::cas::gc::{file_name, is_orphan, orphan_steps};
use crate::cas::objects::{
    commit_steps, delete_journal, delete_steps, dir_sync_steps, publish_journal, prune_steps,
    put_manifest, PutBody,
};
use crate::cas::records::{JournalMode, JournalView, PartRefFileView};
use crate::cas::recovery::{apply_steps, counted_reclaim, journaled_steps, landed};
use crate::cas::store::{journal_removal, journal_steps, key_depth, reclaim_rule, reclaim_steps};
use crate::manifest::ManifestView;
use crate::outside::is_canonical_uuid;
use crate::plan::call::{CallView, Report};
use crate::plan::place::Place;
use crate::plan::runner::{Rule, StepView};
use crate::reader::body_from;

verus! {

/// What a part record holds: a record that was written as such, or bytes.
#[verifier::ext_equal]
pub enum RefContent {
    Record(PartRefFileView),
    Bytes(Seq<u8>),
}

/// A bucket on disk.
#[verifier::ext_equal]
pub struct Disk {
    /// The live version of each key.
    pub live: Map<Seq<char>, ManifestView>,
    /// Staged manifests by file name.
    pub staged: Map<Seq<char>, ManifestView>,
    /// Journals by file name, those included that are still being written.
    pub journals: Map<Seq<char>, JournalView>,
    /// The bytes of each blob.
    pub blobs: Map<Seq<char>, Seq<u8>>,
    /// The part references of uploads, by upload and file name.
    pub refs: Map<(Seq<char>, Seq<char>), RefContent>,
}

/// The bucket after a call that succeeded.
pub open spec fn effect(d: Disk, call: CallView) -> Disk {
    match call {
        CallView::WriteManifest { at: Place::Staged { name }, manifest, .. } => Disk {
            staged: d.staged.insert(name, manifest),
            ..d
        },
        CallView::WriteJournal { at: Place::Journal { name }, journal, .. } => Disk {
            journals: d.journals.insert(name, journal),
            ..d
        },
        CallView::WritePartRef { at: Place::PartFile { id, name }, part, .. } => Disk {
            refs: d.refs.insert((id, name), RefContent::Record(part)),
            ..d
        },
        CallView::WriteBytes { at: Place::PartFile { id, name }, data, .. } => Disk {
            refs: d.refs.insert((id, name), RefContent::Bytes(data)),
            ..d
        },
        CallView::Rename { src: Place::Journal { name: a }, dst: Place::Journal { name: b } } => {
            if d.journals.contains_key(a) {
                Disk { journals: d.journals.remove(a).insert(b, d.journals[a]), ..d }
            } else {
                d
            }
        },
        CallView::Rename { src: Place::Staged { name }, dst: Place::Manifest { key } } => {
            if d.staged.contains_key(name) {
                Disk {
                    live: d.live.insert(key, d.staged[name]),
                    staged: d.staged.remove(name),
                    ..d
                }
            } else {
                d
            }
        },
        CallView::Rename {
            src: Place::PartFile { id, name: a },
            dst: Place::PartFile { id: id2, name: b },
        } => {
            if d.refs.contains_key((id, a)) {
                Disk { refs: d.refs.remove((id, a)).insert((id2, b), d.refs[(id, a)]), ..d }
            } else {
                d
            }
        },
        CallView::Move { src: Place::Blob { id: a }, dst: Place::Blob { id: b } } => {
            if d.blobs.contains_key(a) {
                Disk { blobs: d.blobs.remove(a).insert(b, d.blobs[a]), ..d }
            } else {
                d
            }
        },
        CallView::RemoveFile { at: Place::Manifest { key } } => Disk {
            live: d.live.remove(key),
            ..d
        },
        CallView::RemoveFile { at: Place::Staged { name } } => Disk {
            staged: d.staged.remove(name),
            ..d
        },
        CallView::RemoveFile { at: Place::Journal { name } } => Disk {
            journals: d.journals.remove(name),
            ..d
        },
        CallView::RemoveFile { at: Place::Blob { id } } => Disk { blobs: d.blobs.remove(id), ..d },
        CallView::RemoveExisting { at: Place::Blob { id } } => Disk {
            blobs: d.blobs.remove(id),
            ..d
        },
        CallView::RemoveFile { at: Place::BlobFile { rel } } => Disk {
            blobs: d.blobs.remove(file_name(rel)),
            ..d
        },
        CallView::RemoveFile { at: Place::PartFile { id, name } } => Disk {
            refs: d.refs.remove((id, name)),
            ..d
        },
        CallView::RemoveDirAll { at: Place::Upload { id } } => Disk {
            refs: d.refs.remove_keys(
                Set::new(|k: (Seq<char>, Seq<char>)| k.0 == id),
            ),
            ..d
        },
        _ => d,
    }
}

/// The bucket after a step whose call, if it has one, succeeded.
pub open spec fn step_effect(d: Disk, step: StepView) -> Disk {
    match step {
        StepView::Do { call, .. } => effect(d, call),
        _ => d,
    }
}

/// The bucket after the steps, where `done` says which of them succeeded.
pub open spec fn run(d: Disk, steps: Seq<StepView>, done: Seq<bool>) -> Disk
    decreases steps.len(),
{
    if steps.len() == 0 {
        d
    } else {
        let before = run(d, steps.drop_last(), done);
        if done[steps.len() - 1] {
            step_effect(before, steps.last())
        } else {
            before
        }
    }
}

/// The calls that the steps leave behind for the case that the task fails, the newest last.
pub open spec fn left_behind(before: Seq<CallView>, steps: Seq<StepView>) -> Seq<CallView>
    decreases steps.len(),
{
    if steps.len() == 0 {
        before
    } else {
        let u = left_behind(before, steps.drop_last());
        match steps.last() {
            StepView::Defer { call } => u.push(call),
            StepView::Disarm => if u.len() > 0 {
                u.drop_last()
            } else {
                u
            },
            StepView::Seal => Seq::empty(),
            _ => u,
        }
    }
}

/// The bucket after the calls that were left behind were made, the newest first.
pub open spec fn undone(d: Disk, calls: Seq<CallView>) -> Disk
    decreases calls.len(),
{
    if calls.len() == 0 {
        d
    } else {
        undone(effect(d, calls.last()), calls.drop_last())
    }
}

/// A step that is always taken and whose failure ends the task.
pub open spec fn has_to_succeed(step: StepView) -> bool {
    step matches StepView::Do { rule, .. } && rule.on_error is Fail && !rule.if_clean
}

/// The steps before `k` went as they do when the task goes on: all that had to succeed did.
pub open spec fn reaches(steps: Seq<StepView>, done: Seq<bool>, k: int) -> bool {
    0 <= k <= steps.len() && forall|i: int|
        0 <= i < k && has_to_succeed(#[trigger] steps[i]) ==> done[i]
}

/// Every blob of a live version is there.
pub open spec fn complete(d: Disk) -> bool {
    forall|key: Seq<char>, b: Seq<char>|
        d.live.contains_key(key) && #[trigger] d.live[key].blobs().contains(b)
            ==> d.blobs.contains_key(b)
}

/// No two live versions share a blob.
pub open spec fn exclusive(d: Disk) -> bool {
    forall|k1: Seq<char>, k2: Seq<char>, b: Seq<char>|
        d.live.contains_key(k1) && d.live.contains_key(k2) && k1 != k2
            && #[trigger] d.live[k1].blobs().contains(b) ==> !(#[trigger] d.live[k2].blobs().contains(b))
}

/// The journal lists no blob of a live version, unless that is the one it waits to see replaced.
pub open spec fn harmless(d: Disk, j: JournalView) -> bool {
    forall|key: Seq<char>, b: Seq<char>|
        d.live.contains_key(key) && #[trigger] d.live[key].blobs().contains(b)
            && j.blobs.contains(b) ==> key == j.supersedes_key && (j.mode == JournalMode::Publish
            ==> d.live[key].commit_nonce != j.commit_nonce)
}

/// What holds of a bucket at all times: live objects are whole, own their blobs alone, and no
/// journal can take a blob from them.
pub open spec fn sound(d: Disk) -> bool {
    &&& complete(d)
    &&& exclusive(d)
    &&& forall|n: Seq<char>| d.journals.contains_key(n) ==> harmless(d, #[trigger] d.journals[n])
}

/// The blob belongs to no live version and stands in no journal.
pub open spec fn unowned(d: Disk, b: Seq<char>) -> bool {
    &&& forall|key: Seq<char>| d.live.contains_key(key) ==> !#[trigger] d.live[key].blobs().contains(b)
    &&& forall|n: Seq<char>| d.journals.contains_key(n) ==> !(#[trigger] d.journals[n]).blobs.contains(b)
}

/// A version that may be committed for a key: its blobs are there and belong to nobody yet, and its
/// nonce is not that of the live version.
pub open spec fn committable(d: Disk, key: Seq<char>, m: ManifestView) -> bool {
    &&& forall|b: Seq<char>| #[trigger] m.blobs().contains(b) ==> d.blobs.contains_key(b) && unowned(d, b)
    &&& d.live.contains_key(key) ==> d.live[key].commit_nonce != m.commit_nonce
}

/// The live version of a key.
pub open spec fn live_of(d: Disk, key: Seq<char>) -> Option<ManifestView> {
    if d.live.contains_key(key) {
        Some(d.live[key])
    } else {
        None
    }
}

/// A property that every step keeps holds after any run of the steps.
pub proof fn lemma_run_keeps(d: Disk, steps: Seq<StepView>, done: Seq<bool>, keep: spec_fn(Disk) -> bool)
    requires
        keep(d),
        forall|x: Disk, i: int|
            0 <= i < steps.len() && #[trigger] keep(x) ==> keep(
                step_effect(x, #[trigger] steps[i]),
            ),
    ensures
        keep(run(d, steps, done)),
    decreases steps.len(),
{
    if steps.len() > 0 {
        let front = steps.drop_last();
        assert forall|x: Disk, i: int| 0 <= i < front.len() && #[trigger] keep(x) implies keep(
            step_effect(x, #[trigger] front[i]),
        ) by {
            assert(front[i] == steps[i]);
        }
        lemma_run_keeps(d, front, done, keep);
        let before = run(d, front, done);
        assert(keep(step_effect(before, steps[steps.len() - 1])));
    }
}

/// A run of two lists is a run of the first and then of the second.
pub proof fn lemma_run_concat(d: Disk, a: Seq<StepView>, b: Seq<StepView>, done: Seq<bool>)
    requires
        a.len() + b.len() <= done.len(),
    ensures
        run(d, a + b, done) == run(run(d, a, done), b, done.skip(a.len() as int)),
    decreases b.len(),
{
    if b.len() == 0 {
        assert(a + b =~= a);
    } else {
        assert((a + b).drop_last() =~= a + b.drop_last());
        lemma_run_concat(d, a, b.drop_last(), done);
        assert(done.skip(a.len() as int)[b.len() - 1] == done[a.len() + b.len() - 1]);
    }
}

/// Only the steps that are run matter.
pub proof fn lemma_run_prefix(d: Disk, a: Seq<StepView>, b: Seq<StepView>, done: Seq<bool>, k: int)
    requires
        0 <= k <= a.len() + b.len() <= done.len(),
    ensures
        k <= a.len() ==> run(d, (a + b).take(k), done) == run(d, a.take(k), done),
        k > a.len() ==> run(d, (a + b).take(k), done) == run(
            run(d, a, done),
            b.take(k - a.len()),
            done.skip(a.len() as int),
        ),
{
    if k <= a.len() {
        assert((a + b).take(k) =~= a.take(k));
    } else {
        assert((a + b).take(k) =~= a + b.take(k - a.len()));
        lemma_run_concat(d, a, b.take(k - a.len()), done);
    }
}

/// What reclaiming does: it removes blobs of the list and nothing else.
pub proof fn lemma_reclaim_steps(blobs: Seq<Seq<char>>, rule: Rule)
    ensures
        forall|i: int|
            0 <= i < reclaim_steps(blobs, rule).len() ==> {
                &&& #[trigger] reclaim_steps(blobs, rule)[i] matches StepView::Do { call, rule: r }
                &&& r == rule
                &&& call matches CallView::RemoveFile { at: Place::Blob { id } }
                &&& blobs.contains(id)
            },
    decreases blobs.len(),
{
    if blobs.len() > 0 {
        let front = blobs.drop_last();
        lemma_reclaim_steps(front, rule);
        let all = reclaim_steps(blobs, rule);
        assert forall|i: int| 0 <= i < all.len() implies {
            &&& #[trigger] all[i] matches StepView::Do { call, rule: r }
            &&& r == rule
            &&& call matches CallView::RemoveFile { at: Place::Blob { id } }
            &&& blobs.contains(id)
        } by {
            if i < reclaim_steps(front, rule).len() {
                let step = reclaim_steps(front, rule)[i];
                assert(all[i] == step);
                if let StepView::Do { call, .. } = step {
                    if let CallView::RemoveFile { at: Place::Blob { id } } = call {
                        let j = choose|j: int| 0 <= j < front.len() && front[j] == id;
                        assert(blobs[j] == id);
                    }
                }
            } else {
                assert(blobs[blobs.len() - 1] == blobs.last());
            }
        }
    }
}

/// Reclaiming that succeeds throughout leaves no listed blob behind.
pub proof fn lemma_reclaimed(d: Disk, blobs: Seq<Seq<char>>, rule: Rule, done: Seq<bool>)
    requires
        reclaim_steps(blobs, rule).len() <= done.len(),
        forall|i: int| 0 <= i < reclaim_steps(blobs, rule).len() ==> done[i],
    ensures
        forall|b: Seq<char>|
            blobs.contains(b) && is_canonical_uuid(b) ==> !(#[trigger] run(
                d,
                reclaim_steps(blobs, rule),
                done,
            ).blobs.contains_key(b)),
        run(d, reclaim_steps(blobs, rule), done).journals == d.journals,
        run(d, reclaim_steps(blobs, rule), done).live == d.live,
        run(d, reclaim_steps(blobs, rule), done).staged == d.staged,
    decreases blobs.len(),
{
    if blobs.len() > 0 {
        let front = blobs.drop_last();
        let steps = reclaim_steps(blobs, rule);
        let early = reclaim_steps(front, rule);
        lemma_reclaimed(d, front, rule, done);
        if is_canonical_uuid(blobs.last()) {
            assert(steps.drop_last() =~= early);
        }
        let after = run(d, steps, done);
        assert forall|b: Seq<char>| blobs.contains(b) && is_canonical_uuid(b) implies !(
        #[trigger] after.blobs.contains_key(b)) by {
            let j = choose|j: int| 0 <= j < blobs.len() && blobs[j] == b;
            if j < front.len() {
                assert(front[j] == b);
                assert(front.contains(b));
            }
        }
    } else {
        assert forall|b: Seq<char>| blobs.contains(b) implies false by {
            let j = choose|j: int| 0 <= j < blobs.len() && blobs[j] == b;
        }
    }
}

/// The syncing of directories changes nothing that the model holds.
proof fn lemma_sync_steps(key: Seq<char>, depth: int)
    ensures
        forall|i: int, d: Disk|
            0 <= i < dir_sync_steps(key, depth).len() ==> #[trigger] step_effect(
                d,
                dir_sync_steps(key, depth)[i],
            ) == d,
    decreases depth + 1,
{
    if depth >= 0 {
        lemma_sync_steps(key, depth - 1);
        let rest = dir_sync_steps(key, depth - 1);
        let all = dir_sync_steps(key, depth);
        assert forall|i: int, d: Disk| 0 <= i < all.len() implies #[trigger] step_effect(d, all[i])
            == d by {
            if i > 0 {
                assert(all[i] == rest[i - 1]);
                assert(step_effect(d, rest[i - 1]) == d);
            }
        }
    }
}

proof fn lemma_prune_steps(key: Seq<char>, depth: int)
    ensures
        forall|i: int, d: Disk|
            0 <= i < prune_steps(key, depth).len() ==> #[trigger] step_effect(
                d,
                prune_steps(key, depth)[i],
            ) == d,
    decreases depth,
{
    if depth > 0 {
        lemma_prune_steps(key, depth - 1);
        let rest = prune_steps(key, depth - 1);
        let all = prune_steps(key, depth);
        assert forall|i: int, d: Disk| 0 <= i < all.len() implies #[trigger] step_effect(d, all[i])
            == d by {
            if i > 0 {
                assert(all[i] == rest[i - 1]);
                assert(step_effect(d, rest[i - 1]) == d);
            }
        }
    }
}

/// The bucket with another version live for a key.
pub open spec fn with_live(d: Disk, key: Seq<char>, m: ManifestView) -> Disk {
    Disk { live: d.live.insert(key, m), ..d }
}

/// The bucket without a live version of a key.
pub open spec fn without_live(d: Disk, key: Seq<char>) -> Disk {
    Disk { live: d.live.remove(key), ..d }
}

/// The part of a commit before the manifest is replaced.
pub open spec fn commit_head(
    key: Seq<char>,
    name: Seq<char>,
    tmp: Seq<char>,
    journal: Option<JournalView>,
    fsync: bool,
) -> Seq<StepView> {
    (match journal {
        Some(j) => journal_steps(name, tmp, j, fsync),
        None => Seq::empty(),
    }).push(
        crate::cas::store::must_do(
            CallView::CreateDirAll {
                at: Place::KeyDir { key, depth: key_depth(key) as usize },
            },
            Report::Io,
        ),
    )
}

/// The step that replaces the manifest.
pub open spec fn commit_swap(key: Seq<char>, staged: Seq<char>) -> StepView {
    crate::cas::store::must_do(
        CallView::Rename { src: Place::Staged { name: staged }, dst: Place::Manifest { key } },
        Report::Io,
    )
}

/// The part of a commit that makes the new manifest durable.
pub open spec fn commit_sync(key: Seq<char>, fsync: bool) -> Seq<StepView> {
    seq![StepView::Seal] + if fsync {
        dir_sync_steps(key, key_depth(key))
    } else {
        Seq::empty()
    }
}

/// The part of a commit that clears the old version away.
pub open spec fn commit_tail(name: Seq<char>, journal: Option<JournalView>) -> Seq<StepView> {
    match journal {
        Some(j) => reclaim_steps(j.blobs, reclaim_rule()).push(journal_removal(name)),
        None => Seq::empty(),
    }
}

proof fn lemma_commit_parts(
    key: Seq<char>,
    staged: Seq<char>,
    name: Seq<char>,
    tmp: Seq<char>,
    journal: Option<JournalView>,
    fsync: bool,
)
    ensures
        commit_steps(key, staged, name, tmp, journal, fsync) == commit_head(
            key,
            name,
            tmp,
            journal,
            fsync,
        ) + (seq![commit_swap(key, staged)] + (commit_sync(key, fsync) + commit_tail(name, journal))),
{
    assert(commit_steps(key, staged, name, tmp, journal, fsync) =~= commit_head(
        key,
        name,
        tmp,
        journal,
        fsync,
    ) + (seq![commit_swap(key, staged)] + (commit_sync(key, fsync) + commit_tail(name, journal))));
}

/// Every journal is harmless whether the old or the new version is live.
pub open spec fn journals_harmless(x: Disk, a: Disk, b: Disk) -> bool {
    forall|n: Seq<char>|
        x.journals.contains_key(n) ==> harmless(a, #[trigger] x.journals[n]) && harmless(
            b,
            x.journals[n],
        )
}

/// Before the swap: nothing but journals was added.
pub open spec fn before_swap(x: Disk, d: Disk, other: Disk) -> bool {
    x.live == d.live && x.blobs == d.blobs && x.staged == d.staged && x.refs == d.refs
        && journals_harmless(x, d, other)
}

/// After the swap: the live versions are those of `goal`, and no blob is lost but those in `gone`.
pub open spec fn after_swap(x: Disk, d: Disk, goal: Disk, gone: Seq<Seq<char>>) -> bool {
    &&& x.live == goal.live
    &&& x.refs == d.refs
    &&& forall|b: Seq<char>|
        d.blobs.contains_key(b) && !gone.contains(b) ==> #[trigger] x.blobs.contains_key(b)
            && x.blobs[b] == d.blobs[b]
    &&& journals_harmless(x, d, goal)
}

/// Writing a journal keeps what holds before the swap.
proof fn lemma_journal_steps(
    d: Disk,
    other: Disk,
    x: Disk,
    name: Seq<char>,
    tmp: Seq<char>,
    j: JournalView,
    fsync: bool,
    done: Seq<bool>,
    k: int,
)
    requires
        before_swap(x, d, other),
        harmless(d, j),
        harmless(other, j),
        0 <= k <= journal_steps(name, tmp, j, fsync).len(),
    ensures
        before_swap(run(x, journal_steps(name, tmp, j, fsync).take(k), done), d, other),
{
    let steps = journal_steps(name, tmp, j, fsync).take(k);
    let keep = |y: Disk| before_swap(y, d, other);
    assert forall|y: Disk, i: int| 0 <= i < steps.len() && #[trigger] keep(y) implies keep(
        step_effect(y, #[trigger] steps[i]),
    ) by {
        let z = step_effect(y, steps[i]);
        assert(steps[i] == journal_steps(name, tmp, j, fsync)[i]);
        assert forall|n: Seq<char>| z.journals.contains_key(n) implies harmless(
            d,
            #[trigger] z.journals[n],
        ) && harmless(other, z.journals[n]) by {
            if y.journals.contains_key(n) && y.journals[n] == z.journals[n] {
            } else if i == 1 {
                assert(z.journals[n] == j);
            } else if i == 2 {
                assert(y.journals.contains_key(tmp));
                assert(z.journals[n] == y.journals[tmp]);
            }
        }
    }
    lemma_run_keeps(x, steps, done, keep);
}

/// Reclaiming and removing a journal keeps what holds after the swap.
pub proof fn lemma_tail_steps(
    d: Disk,
    goal: Disk,
    x: Disk,
    steps: Seq<StepView>,
    gone: Seq<Seq<char>>,
    done: Seq<bool>,
)
    requires
        after_swap(x, d, goal, gone),
        forall|i: int|
            0 <= i < steps.len() ==> clears_away(#[trigger] steps[i], gone),
    ensures
        after_swap(run(x, steps, done), d, goal, gone),
{
    let keep = |y: Disk| after_swap(y, d, goal, gone);
    assert forall|y: Disk, i: int| 0 <= i < steps.len() && #[trigger] keep(y) implies keep(
        step_effect(y, #[trigger] steps[i]),
    ) by {
        assert(clears_away(steps[i], gone));
        let z = step_effect(y, steps[i]);
        assert forall|b: Seq<char>| d.blobs.contains_key(b) && !gone.contains(b) implies
            #[trigger] z.blobs.contains_key(b) && z.blobs[b] == d.blobs[b] by {
            assert(y.blobs.contains_key(b));
        }
        assert forall|n: Seq<char>| z.journals.contains_key(n) implies harmless(
            d,
            #[trigger] z.journals[n],
        ) && harmless(goal, z.journals[n]) by {
            assert(y.journals.contains_key(n) && y.journals[n] == z.journals[n]);
        }
    }
    lemma_run_keeps(x, steps, done, keep);
}

/// A step that removes a blob of the list, a journal or a staged manifest, or changes nothing.
pub open spec fn clears_away(step: StepView, gone: Seq<Seq<char>>) -> bool {
    ||| forall|d: Disk| #[trigger] step_effect(d, step) == d
    ||| step matches StepView::Do { call: CallView::RemoveFile { at: Place::Blob { id } }, .. }
        && gone.contains(id)
    ||| step matches StepView::Do { call: CallView::RemoveExisting { at: Place::Blob { id } }, .. }
        && gone.contains(id)
    ||| step matches StepView::Do { call: CallView::RemoveFile { at: Place::Journal { .. } }, .. }
    ||| step matches StepView::Do { call: CallView::RemoveFile { at: Place::Staged { .. } }, .. }
}

/// Where the old version could be live or the new one could, every journal is harmless.
proof fn lemma_committable(d: Disk, key: Seq<char>, m: ManifestView)
    requires
        sound(d),
        committable(d, key, m),
    ensures
        sound(with_live(d, key, m)),
        journals_harmless(d, d, with_live(d, key, m)),
        d.live.contains_key(key) ==> {
            let j = publish_journal(key, m.commit_nonce, m.etag, d.live[key].blobs());
            harmless(d, j) && harmless(with_live(d, key, m), j)
        },
{
    let goal = with_live(d, key, m);
    assert(complete(goal));
    assert(exclusive(goal)) by {
        assert forall|k1: Seq<char>, k2: Seq<char>, b: Seq<char>|
            goal.live.contains_key(k1) && goal.live.contains_key(k2) && k1 != k2
                && #[trigger] goal.live[k1].blobs().contains(b) implies !(
        #[trigger] goal.live[k2].blobs().contains(b)) by {
            if k1 == key {
                assert(m.blobs().contains(b));
                assert(unowned(d, b));
            } else if k2 == key {
                if m.blobs().contains(b) {
                    assert(unowned(d, b));
                }
            }
        }
    }
    assert forall|n: Seq<char>| d.journals.contains_key(n) implies harmless(
        goal,
        #[trigger] d.journals[n],
    ) by {
        assert forall|k: Seq<char>, b: Seq<char>|
            goal.live.contains_key(k) && #[trigger] goal.live[k].blobs().contains(b)
                && d.journals[n].blobs.contains(b) implies k == d.journals[n].supersedes_key && (
        d.journals[n].mode == JournalMode::Publish ==> goal.live[k].commit_nonce
            != d.journals[n].commit_nonce) by {
            if k == key {
                assert(unowned(d, b));
            } else {
                assert(d.live[k].blobs().contains(b));
            }
        }
    }
    if d.live.contains_key(key) {
        let j = publish_journal(key, m.commit_nonce, m.etag, d.live[key].blobs());
        assert(harmless(goal, j)) by {
            assert forall|k: Seq<char>, b: Seq<char>|
                goal.live.contains_key(k) && #[trigger] goal.live[k].blobs().contains(b)
                    && j.blobs.contains(b) implies false by {
                assert(d.live[key].blobs().contains(b));
                if k == key {
                    assert(unowned(d, b));
                }
            }
        }
    }
}

/// After the swap, whatever part of the old version is cleared away, the bucket is sound.
pub proof fn lemma_after_swap_sound(d: Disk, goal: Disk, x: Disk, gone: Seq<Seq<char>>)
    requires
        sound(goal),
        goal.blobs == d.blobs,
        after_swap(x, d, goal, gone),
        forall|k: Seq<char>, b: Seq<char>|
            goal.live.contains_key(k) && #[trigger] goal.live[k].blobs().contains(b)
                ==> !gone.contains(b),
    ensures
        sound(x),
{
    assert(complete(x)) by {
        assert forall|k: Seq<char>, b: Seq<char>|
            x.live.contains_key(k) && #[trigger] x.live[k].blobs().contains(b) implies x.blobs.contains_key(
        b) by {
            assert(goal.live[k].blobs().contains(b));
            assert(goal.blobs.contains_key(b));
        }
    }
    assert(exclusive(x)) by {
        assert forall|k1: Seq<char>, k2: Seq<char>, b: Seq<char>|
            x.live.contains_key(k1) && x.live.contains_key(k2) && k1 != k2
                && #[trigger] x.live[k1].blobs().contains(b) implies !(
        #[trigger] x.live[k2].blobs().contains(b)) by {
            assert(goal.live[k1].blobs().contains(b));
        }
    }
    assert forall|n: Seq<char>| x.journals.contains_key(n) implies harmless(
        x,
        #[trigger] x.journals[n],
    ) by {
        let j = x.journals[n];
        assert(harmless(goal, j));
        assert forall|k: Seq<char>, b: Seq<char>|
            x.live.contains_key(k) && #[trigger] x.live[k].blobs().contains(b) && j.blobs.contains(b)
            implies k == j.supersedes_key && (j.mode == JournalMode::Publish
            ==> x.live[k].commit_nonce != j.commit_nonce) by {
            assert(goal.live[k].blobs().contains(b));
        }
    }
}

proof fn lemma_before_swap_sound(d: Disk, other: Disk, x: Disk)
    requires
        sound(d),
        before_swap(x, d, other),
    ensures
        sound(x),
{
    assert(after_swap(x, d, d, Seq::empty())) by {
        assert forall|b: Seq<char>| d.blobs.contains_key(b) implies #[trigger] x.blobs.contains_key(b)
            && x.blobs[b] == d.blobs[b] by {}
    }
    assert forall|k: Seq<char>, b: Seq<char>|
        d.live.contains_key(k) && #[trigger] d.live[k].blobs().contains(b) implies !Seq::<
        Seq<char>,
    >::empty().contains(b) by {}
    lemma_after_swap_sound(d, d, x, Seq::empty());
}

/// The blobs of the live version of a key.
pub open spec fn old_blobs(d: Disk, key: Seq<char>) -> Seq<Seq<char>> {
    match live_of(d, key) {
        Some(m) => m.blobs(),
        None => Seq::empty(),
    }
}

/// Every blob of `d` is still there as it was, but for those in `gone`.
pub open spec fn keeps_blobs(d: Disk, x: Disk, gone: Seq<Seq<char>>) -> bool {
    forall|b: Seq<char>|
        d.blobs.contains_key(b) && !gone.contains(b) ==> #[trigger] x.blobs.contains_key(b)
            && x.blobs[b] == d.blobs[b]
}

/// A crash at any point of a commit leaves a sound bucket in which the key has the old version or
/// the new one, and every other key what it had.
pub proof fn commit_is_atomic(
    d: Disk,
    key: Seq<char>,
    m: ManifestView,
    staged: Seq<char>,
    name: Seq<char>,
    tmp: Seq<char>,
    fsync: bool,
    done: Seq<bool>,
    k: int,
)
    requires
        sound(d),
        committable(d, key, m),
        d.staged.contains_key(staged) && d.staged[staged] == m,
        ({
            let steps = commit_steps(key, staged, name, tmp, journal_of(d, key, m), fsync);
            reaches(steps, done, k) && done.len() == steps.len()
        }),
    ensures
        ({
            let steps = commit_steps(key, staged, name, tmp, journal_of(d, key, m), fsync);
            let x = run(d, steps.take(k), done);
            &&& sound(x)
            &&& x.live == d.live || x.live == d.live.insert(key, m)
            &&& k == steps.len() ==> x.live == d.live.insert(key, m)
            &&& x.live == d.live && !(x.live == d.live.insert(key, m)) ==> x.blobs == d.blobs
            &&& keeps_blobs(d, x, old_blobs(d, key))
        }),
{
    let journal = journal_of(d, key, m);
    let steps = commit_steps(key, staged, name, tmp, journal, fsync);
    let goal = with_live(d, key, m);
    let head = commit_head(key, name, tmp, journal, fsync);
    let swap = seq![commit_swap(key, staged)];
    let sync = commit_sync(key, fsync);
    let tail = commit_tail(name, journal);
    let rest = swap + (sync + tail);
    lemma_commit_parts(key, staged, name, tmp, journal, fsync);
    lemma_committable(d, key, m);
    lemma_run_prefix(d, head, rest, done, k);
    let x = run(d, steps.take(k), done);
    if k <= head.len() {
        lemma_head(d, key, m, name, tmp, fsync, done, k);
        lemma_before_swap_sound(d, goal, x);
        assert(x.blobs == d.blobs && x.live == d.live);
        assert(keeps_blobs(d, x, old_blobs(d, key)));
        assert(k < steps.len());
    } else {
        lemma_head(d, key, m, name, tmp, fsync, done, head.len() as int);
        assert(head.take(head.len() as int) =~= head);
        let y = run(d, head, done);
        let more = done.skip(head.len() as int);
        let n = k - head.len();
        lemma_run_prefix(y, swap, sync + tail, more, n);
        assert(steps[head.len() as int] == commit_swap(key, staged));
        assert(done[head.len() as int]);
        let z = step_effect(y, commit_swap(key, staged));
        assert(swap.drop_last() =~= Seq::empty());
        assert(run(y, swap.drop_last(), more) == y);
        assert(more[0] == done[head.len() as int]);
        assert(run(y, swap, more) == z);
        assert(swap.take(1) =~= swap);
        let gone = match journal {
            Some(j) => j.blobs,
            None => Seq::empty(),
        };
        assert(after_swap(z, d, goal, gone)) by {
            assert forall|b: Seq<char>| d.blobs.contains_key(b) && !gone.contains(b) implies
                #[trigger] z.blobs.contains_key(b) && z.blobs[b] == d.blobs[b] by {}
        }
        lemma_sync_and_tail(key, name, journal, fsync);
        let last = (sync + tail).take(n - 1);
        assert forall|i: int| 0 <= i < last.len() implies clears_away(#[trigger] last[i], gone) by {
            assert(last[i] == (sync + tail)[i]);
        }
        lemma_tail_steps(d, goal, z, last, gone, more.skip(1));
        if n == 1 {
            assert(rest.take(1) =~= swap);
            assert(last =~= Seq::empty());
        }
        assert(x == run(z, last, more.skip(1)));
        assert forall|k2: Seq<char>, b: Seq<char>|
            goal.live.contains_key(k2) && #[trigger] goal.live[k2].blobs().contains(b) implies !gone.contains(
        b) by {
            if gone.contains(b) {
                assert(d.live[key].blobs().contains(b));
                if k2 == key {
                    assert(unowned(d, b));
                }
            }
        }
        lemma_after_swap_sound(d, goal, x, gone);
        assert(gone == old_blobs(d, key));
        assert(x.live == d.live.insert(key, m));
        assert(after_swap(x, d, goal, gone));
        lemma_after_swap_keeps(d, goal, x, gone);
    }
}

/// After the swap, no blob is lost but those in `gone`.
proof fn lemma_after_swap_keeps(d: Disk, goal: Disk, x: Disk, gone: Seq<Seq<char>>)
    requires
        after_swap(x, d, goal, gone),
    ensures
        keeps_blobs(d, x, gone),
{
}

/// The bytes of an object: those of its parts, one after the other.
pub open spec fn object_bytes(d: Disk, m: ManifestView) -> Seq<u8> {
    body_from(Seq::new(m.parts.len(), |i: int| d.blobs[m.parts[i].blob_id]), 0)
}

/// An object whose blobs are kept keeps its bytes.
proof fn lemma_same_bytes(d: Disk, x: Disk, m: ManifestView, gone: Seq<Seq<char>>)
    requires
        keeps_blobs(d, x, gone),
        forall|b: Seq<char>| #[trigger] m.blobs().contains(b) ==> d.blobs.contains_key(b)
            && !gone.contains(b),
    ensures
        object_bytes(x, m) == object_bytes(d, m),
{
    let a = Seq::new(m.parts.len(), |i: int| d.blobs[m.parts[i].blob_id]);
    let b = Seq::new(m.parts.len(), |i: int| x.blobs[m.parts[i].blob_id]);
    assert forall|i: int| 0 <= i < a.len() implies a[i] == b[i] by {
        assert(m.blobs()[i] == m.parts[i].blob_id);
        assert(m.blobs().contains(m.parts[i].blob_id));
        assert(x.blobs.contains_key(m.parts[i].blob_id));
    }
    assert(a =~= b);
}

/// A crash at any point of a commit leaves the bytes of every other object as they were, and those
/// of the object itself are the old ones or the new ones.
pub proof fn commit_changes_one_object(
    d: Disk,
    key: Seq<char>,
    m: ManifestView,
    staged: Seq<char>,
    name: Seq<char>,
    tmp: Seq<char>,
    fsync: bool,
    done: Seq<bool>,
    k: int,
    other: Seq<char>,
)
    requires
        sound(d),
        committable(d, key, m),
        d.staged.contains_key(staged) && d.staged[staged] == m,
        d.live.contains_key(other),
        ({
            let steps = commit_steps(key, staged, name, tmp, journal_of(d, key, m), fsync);
            reaches(steps, done, k) && done.len() == steps.len()
        }),
    ensures
        ({
            let steps = commit_steps(key, staged, name, tmp, journal_of(d, key, m), fsync);
            let x = run(d, steps.take(k), done);
            &&& x.live.contains_key(other)
            &&& other != key ==> x.live[other] == d.live[other] && object_bytes(
                x,
                x.live[other],
            ) == object_bytes(d, d.live[other])
            &&& other == key ==> (x.live[other] == d.live[other] && object_bytes(
                x,
                x.live[other],
            ) == object_bytes(d, d.live[other])) || (x.live[other] == m && object_bytes(
                x,
                x.live[other],
            ) == object_bytes(d, m))
        }),
{
    commit_is_atomic(d, key, m, staged, name, tmp, fsync, done, k);
    let steps = commit_steps(key, staged, name, tmp, journal_of(d, key, m), fsync);
    let x = run(d, steps.take(k), done);
    let gone = old_blobs(d, key);
    if other != key {
        let o = d.live[other];
        assert forall|b: Seq<char>| #[trigger] o.blobs().contains(b) implies d.blobs.contains_key(b)
            && !gone.contains(b) by {
            assert(d.live[other].blobs().contains(b));
            if gone.contains(b) {
                assert(d.live[key].blobs().contains(b));
            }
        }
        lemma_same_bytes(d, x, o, gone);
    } else if x.live == d.live.insert(key, m) {
        lemma_new_blobs_stay(d, key, m);
        lemma_same_bytes(d, x, m, gone);
    }
}

/// The blobs of a version that is committed are not those of the version it replaces.
proof fn lemma_new_blobs_stay(d: Disk, key: Seq<char>, m: ManifestView)
    requires
        committable(d, key, m),
    ensures
        forall|b: Seq<char>| #[trigger] m.blobs().contains(b) ==> d.blobs.contains_key(b)
            && !old_blobs(d, key).contains(b),
{
    assert forall|b: Seq<char>| #[trigger] m.blobs().contains(b) implies d.blobs.contains_key(b)
        && !old_blobs(d, key).contains(b) by {
        assert(unowned(d, b));
        if old_blobs(d, key).contains(b) {
            assert(d.live[key].blobs().contains(b));
        }
    }
}

/// What was committed is what is read back: the key has the new version, and its bytes are those
/// of the blobs that the version was made of.
pub proof fn committed_object_is_read_back(
    d: Disk,
    key: Seq<char>,
    m: ManifestView,
    staged: Seq<char>,
    name: Seq<char>,
    tmp: Seq<char>,
    fsync: bool,
    done: Seq<bool>,
)
    requires
        sound(d),
        committable(d, key, m),
        d.staged.contains_key(staged) && d.staged[staged] == m,
        ({
            let steps = commit_steps(key, staged, name, tmp, journal_of(d, key, m), fsync);
            reaches(steps, done, steps.len() as int) && done.len() == steps.len()
        }),
    ensures
        ({
            let steps = commit_steps(key, staged, name, tmp, journal_of(d, key, m), fsync);
            let x = run(d, steps, done);
            live_of(x, key) == Some(m) && object_bytes(x, m) == object_bytes(d, m)
        }),
{
    let steps = commit_steps(key, staged, name, tmp, journal_of(d, key, m), fsync);
    commit_is_atomic(d, key, m, staged, name, tmp, fsync, done, steps.len() as int);
    assert(steps.take(steps.len() as int) =~= steps);
    lemma_new_blobs_stay(d, key, m);
    lemma_same_bytes(d, run(d, steps, done), m, old_blobs(d, key));
}

/// A body that was put and committed is what is read back.
pub proof fn put_body_is_read_back(
    d: Disk,
    put: PutBody,
    body: Seq<u8>,
    md5_hex: Seq<char>,
    staged: Seq<char>,
    name: Seq<char>,
    tmp: Seq<char>,
    fsync: bool,
    done: Seq<bool>,
)
    requires
        sound(d),
        body.len() <= u64::MAX,
        d.blobs.contains_key(put.blob_id@) && d.blobs[put.blob_id@] == body,
        committable(d, put.key@, put_manifest(put, body.len() as u64, md5_hex)),
        d.staged.contains_key(staged) && d.staged[staged] == put_manifest(
            put,
            body.len() as u64,
            md5_hex,
        ),
        ({
            let m = put_manifest(put, body.len() as u64, md5_hex);
            let steps = commit_steps(
                put.key@,
                staged,
                name,
                tmp,
                journal_of(d, put.key@, m),
                fsync,
            );
            reaches(steps, done, steps.len() as int) && done.len() == steps.len()
        }),
    ensures
        ({
            let m = put_manifest(put, body.len() as u64, md5_hex);
            let steps = commit_steps(
                put.key@,
                staged,
                name,
                tmp,
                journal_of(d, put.key@, m),
                fsync,
            );
            let x = run(d, steps, done);
            &&& live_of(x, put.key@) == Some(m)
            &&& m.content_length == body.len()
            &&& object_bytes(x, m) == body
        }),
{
    let m = put_manifest(put, body.len() as u64, md5_hex);
    committed_object_is_read_back(d, put.key@, m, staged, name, tmp, fsync, done);
    let contents = Seq::new(m.parts.len(), |i: int| d.blobs[m.parts[i].blob_id]);
    assert(contents.len() == 1);
    assert(body_from(contents, 1) =~= Seq::empty());
    assert(body_from(contents, 0) =~= contents[0] + body_from(contents, 1));
    assert(object_bytes(d, m) =~= body);
}

/// The journal of a commit: there is one if the key has a version.
pub open spec fn journal_of(d: Disk, key: Seq<char>, m: ManifestView) -> Option<JournalView> {
    match live_of(d, key) {
        Some(o) => Some(publish_journal(key, m.commit_nonce, m.etag, o.blobs())),
        None => None,
    }
}

/// What holds before the swap.
pub proof fn lemma_head(
    d: Disk,
    key: Seq<char>,
    m: ManifestView,
    name: Seq<char>,
    tmp: Seq<char>,
    fsync: bool,
    done: Seq<bool>,
    k: int,
)
    requires
        sound(d),
        committable(d, key, m),
        0 <= k <= commit_head(key, name, tmp, journal_of(d, key, m), fsync).len() <= done.len(),
    ensures
        before_swap(
            run(d, commit_head(key, name, tmp, journal_of(d, key, m), fsync).take(k), done),
            d,
            with_live(d, key, m),
        ),
{
    let journal = journal_of(d, key, m);
    let head = commit_head(key, name, tmp, journal, fsync);
    let goal = with_live(d, key, m);
    lemma_committable(d, key, m);
    let front = head.drop_last();
    if let Some(j) = journal {
        assert(front =~= journal_steps(name, tmp, j, fsync));
        if k <= front.len() {
            assert(head.take(k) =~= front.take(k));
            lemma_journal_steps(d, goal, d, name, tmp, j, fsync, done, k);
        } else {
            lemma_journal_steps(d, goal, d, name, tmp, j, fsync, done, front.len() as int);
            assert(front.take(front.len() as int) =~= front);
            assert(head.take(k) =~= head);
            assert(run(d, head, done) == run(d, front, done));
        }
    } else {
        assert(front =~= Seq::empty());
        assert(run(d, front, done) == d);
        if k == 0 {
            assert(head.take(k) =~= Seq::empty());
        } else {
            assert(head.take(k) =~= head);
            assert(run(d, head, done) == d);
        }
        assert(before_swap(d, d, goal));
    }
}

/// The steps behind the swap clear away the old version and do nothing else.
proof fn lemma_sync_and_tail(
    key: Seq<char>,
    name: Seq<char>,
    journal: Option<JournalView>,
    fsync: bool,
)
    ensures
        forall|i: int|
            0 <= i < commit_sync(key, fsync).len() ==> forall|d: Disk| #[trigger]
                step_effect(d, #[trigger] commit_sync(key, fsync)[i]) == d,
        forall|i: int|
            0 <= i < (commit_sync(key, fsync) + commit_tail(name, journal)).len() ==> clears_away(
                #[trigger] (commit_sync(key, fsync) + commit_tail(name, journal))[i],
                match journal {
                    Some(j) => j.blobs,
                    None => Seq::empty(),
                },
            ),
{
    lemma_sync_steps(key, key_depth(key));
    let sync = commit_sync(key, fsync);
    let tail = commit_tail(name, journal);
    assert forall|i: int| 0 <= i < sync.len() implies forall|d: Disk| #[trigger]
        step_effect(d, #[trigger] sync[i]) == d by {
        if i > 0 {
            assert(sync[i] == dir_sync_steps(key, key_depth(key))[i - 1]);
            assert forall|d: Disk| #[trigger] step_effect(d, sync[i]) == d by {
                assert(step_effect(d, dir_sync_steps(key, key_depth(key))[i - 1]) == d);
            }
        }
    }
    let gone = match journal {
        Some(j) => j.blobs,
        None => Seq::empty(),
    };
    assert forall|i: int| 0 <= i < (sync + tail).len() implies clears_away(
        #[trigger] (sync + tail)[i],
        gone,
    ) by {
        if i < sync.len() {
            assert((sync + tail)[i] == sync[i]);
        } else {
            let s = tail[i - sync.len()];
            assert((sync + tail)[i] == s);
            if let Some(j) = journal {
                lemma_reclaim_steps(j.blobs, reclaim_rule());
                let r = reclaim_steps(j.blobs, reclaim_rule());
                if i - sync.len() < r.len() {
                    assert(s == r[i - sync.len()]);
                }
            }
        }
    }
}

/// With durable commits, a crash that loses the swap is harmless as long as the swap is not known
/// to be durable: the old version is still whole.
pub proof fn unsynced_commit_may_be_lost(
    d: Disk,
    key: Seq<char>,
    m: ManifestView,
    staged: Seq<char>,
    name: Seq<char>,
    tmp: Seq<char>,
    done: Seq<bool>,
    k: int,
)
    requires
        sound(d),
        committable(d, key, m),
        done.len() == commit_steps(key, staged, name, tmp, journal_of(d, key, m), true).len(),
        0 <= k <= commit_head(key, name, tmp, journal_of(d, key, m), true).len() + 1 + commit_sync(
            key,
            true,
        ).len(),
    ensures
        ({
            let steps = commit_steps(key, staged, name, tmp, journal_of(d, key, m), true);
            let x = run(d, steps.take(k), done);
            sound(Disk { live: d.live, ..x })
        }),
{
    let journal = journal_of(d, key, m);
    let steps = commit_steps(key, staged, name, tmp, journal, true);
    let goal = with_live(d, key, m);
    let head = commit_head(key, name, tmp, journal, true);
    let swap = seq![commit_swap(key, staged)];
    let sync = commit_sync(key, true);
    let tail = commit_tail(name, journal);
    lemma_commit_parts(key, staged, name, tmp, journal, true);
    lemma_committable(d, key, m);
    lemma_sync_and_tail(key, name, journal, true);
    lemma_head(d, key, m, name, tmp, true, done, if k <= head.len() { k } else {
        head.len() as int
    });
    assert(head.take(head.len() as int) =~= head);
    lemma_run_prefix(d, head, swap + (sync + tail), done, k);
    let x = run(d, steps.take(k), done);
    if k > head.len() {
        let y = run(d, head, done);
        let more = done.skip(head.len() as int);
        let n = k - head.len();
        let mid = (swap + (sync + tail)).take(n);
        let keep = |z: Disk| z.blobs == d.blobs && journals_harmless(z, d, goal);
        assert forall|z: Disk, i: int| 0 <= i < mid.len() && #[trigger] keep(z) implies keep(
            step_effect(z, #[trigger] mid[i]),
        ) by {
            if i > 0 {
                assert(mid[i] == sync[i - 1]);
                assert(step_effect(z, sync[i - 1]) == z);
            } else {
                assert(mid[0] == commit_swap(key, staged));
            }
        }
        lemma_run_keeps(y, mid, more, keep);
    }
    let old_disk = Disk { live: d.live, staged: d.staged, refs: d.refs, ..x };
    assert(before_swap(old_disk, d, goal));
    lemma_before_swap_sound(d, goal, old_disk);
    let other = Disk { live: d.live, ..x };
    assert(complete(other));
    assert(exclusive(other));
    assert forall|n: Seq<char>| other.journals.contains_key(n) implies harmless(
        other,
        #[trigger] other.journals[n],
    ) by {
        assert(harmless(old_disk, old_disk.journals[n]));
    }
}

/// A commit that goes through leaves neither the journal nor a blob of the old version behind.
pub proof fn finished_commit_leaves_nothing_behind(
    d: Disk,
    key: Seq<char>,
    m: ManifestView,
    staged: Seq<char>,
    name: Seq<char>,
    tmp: Seq<char>,
    fsync: bool,
    done: Seq<bool>,
)
    requires
        d.live.contains_key(key),
        done.len() == commit_steps(key, staged, name, tmp, journal_of(d, key, m), fsync).len(),
        forall|i: int| 0 <= i < done.len() ==> done[i],
    ensures
        ({
            let steps = commit_steps(key, staged, name, tmp, journal_of(d, key, m), fsync);
            let x = run(d, steps, done);
            &&& !x.journals.contains_key(name)
            &&& forall|b: Seq<char>|
                d.live[key].blobs().contains(b) && is_canonical_uuid(b)
                    ==> !(#[trigger] x.blobs.contains_key(b))
        }),
{
    let journal = journal_of(d, key, m);
    let steps = commit_steps(key, staged, name, tmp, journal, fsync);
    lemma_commit_parts(key, staged, name, tmp, journal, fsync);
    let blobs = d.live[key].blobs();
    let reclaim = reclaim_steps(blobs, reclaim_rule());
    let front = commit_head(key, name, tmp, journal, fsync) + (seq![commit_swap(key, staged)]
        + commit_sync(key, fsync));
    assert(steps.drop_last() =~= front + reclaim);
    assert(steps.last() == journal_removal(name));
    lemma_run_concat(d, front, reclaim, done);
    lemma_reclaimed(run(d, front, done), blobs, reclaim_rule(), done.skip(front.len() as int));
}

/// A commit that fails before the swap, and is undone as far as that succeeds, leaves a sound
/// bucket in which every key has the version it had.
pub proof fn failed_commit_keeps_the_old_version(
    d: Disk,
    key: Seq<char>,
    m: ManifestView,
    name: Seq<char>,
    tmp: Seq<char>,
    fsync: bool,
    done: Seq<bool>,
    k: int,
    undo: Seq<StepView>,
    undone: Seq<bool>,
)
    requires
        sound(d),
        committable(d, key, m),
        0 <= k <= commit_head(key, name, tmp, journal_of(d, key, m), fsync).len() <= done.len(),
        forall|i: int| 0 <= i < undo.len() ==> clears_away(#[trigger] undo[i], m.blobs()),
    ensures
        ({
            let x = run(d, commit_head(key, name, tmp, journal_of(d, key, m), fsync).take(k), done);
            let y = run(x, undo, undone);
            sound(y) && y.live == d.live
        }),
{
    let goal = with_live(d, key, m);
    lemma_committable(d, key, m);
    lemma_head(d, key, m, name, tmp, fsync, done, k);
    let x = run(d, commit_head(key, name, tmp, journal_of(d, key, m), fsync).take(k), done);
    let gone = m.blobs();
    assert(after_swap(x, d, d, gone)) by {
        assert forall|b: Seq<char>| d.blobs.contains_key(b) && !gone.contains(b) implies
            #[trigger] x.blobs.contains_key(b) && x.blobs[b] == d.blobs[b] by {}
    }
    lemma_tail_steps(d, d, x, undo, gone, undone);
    let y = run(x, undo, undone);
    assert forall|k2: Seq<char>, b: Seq<char>|
        d.live.contains_key(k2) && #[trigger] d.live[k2].blobs().contains(b) implies !gone.contains(
    b) by {
        if gone.contains(b) {
            assert(unowned(d, b));
        }
    }
    lemma_after_swap_sound(d, d, y, gone);
}

/// The part of a deletion behind the removal of the manifest.
pub open spec fn delete_tail(
    key: Seq<char>,
    name: Seq<char>,
    blobs: Seq<Seq<char>>,
) -> Seq<StepView> {
    reclaim_steps(blobs, reclaim_rule()) + seq![journal_removal(name), StepView::Reset]
        + prune_steps(key, key_depth(key)) + seq![
        StepView::Finish { outcome: crate::plan::call::OutcomeView::Nothing },
    ]
}

/// The syncing behind the removal of the manifest.
pub open spec fn delete_sync(key: Seq<char>, fsync: bool) -> Seq<StepView> {
    if fsync {
        seq![
            crate::cas::store::must_do(
                CallView::SyncDir {
                    at: Place::KeyDir { key, depth: key_depth(key) as usize },
                },
                Report::Io,
            ),
        ]
    } else {
        Seq::empty()
    }
}

/// The step that removes the manifest.
pub open spec fn delete_swap(key: Seq<char>) -> StepView {
    crate::cas::objects::must_unless_missing(CallView::RemoveFile { at: Place::Manifest { key } })
}

proof fn lemma_delete_parts(
    key: Seq<char>,
    name: Seq<char>,
    tmp: Seq<char>,
    blobs: Seq<Seq<char>>,
    fsync: bool,
)
    ensures
        delete_steps(key, name, tmp, blobs, fsync) == journal_steps(
            name,
            tmp,
            delete_journal(key, blobs),
            fsync,
        ) + (seq![delete_swap(key)] + (delete_sync(key, fsync) + delete_tail(key, name, blobs))),
        forall|i: int|
            0 <= i < (delete_sync(key, fsync) + delete_tail(key, name, blobs)).len()
                ==> clears_away(
                #[trigger] (delete_sync(key, fsync) + delete_tail(key, name, blobs))[i],
                blobs,
            ),
{
    let journal = journal_steps(name, tmp, delete_journal(key, blobs), fsync);
    let sync = delete_sync(key, fsync);
    let tail = delete_tail(key, name, blobs);
    assert(delete_steps(key, name, tmp, blobs, fsync) =~= journal + (seq![delete_swap(key)] + (sync
        + tail)));
    lemma_reclaim_steps(blobs, reclaim_rule());
    lemma_prune_steps(key, key_depth(key));
    let r = reclaim_steps(blobs, reclaim_rule());
    let p = prune_steps(key, key_depth(key));
    assert forall|i: int| 0 <= i < (sync + tail).len() implies clears_away(
        #[trigger] (sync + tail)[i],
        blobs,
    ) by {
        let s = (sync + tail)[i];
        let j = i - sync.len();
        if j < 0 {
            assert(s == sync[i]);
        } else if j < r.len() {
            assert(s == r[j]);
        } else if j < r.len() + 2 {
        } else if j < r.len() + 2 + p.len() {
            let q = j - r.len() - 2;
            assert(s == p[q]);
            assert forall|d: Disk| #[trigger] step_effect(d, s) == d by {
                assert(step_effect(d, p[q]) == d);
            }
        } else {
        }
    }
}

/// A bucket without the key is sound, and the journal of the deletion is harmless.
proof fn lemma_deletable(d: Disk, key: Seq<char>)
    requires
        sound(d),
        d.live.contains_key(key),
    ensures
        sound(without_live(d, key)),
        journals_harmless(d, d, without_live(d, key)),
        harmless(d, delete_journal(key, d.live[key].blobs())),
        harmless(without_live(d, key), delete_journal(key, d.live[key].blobs())),
{
    let goal = without_live(d, key);
    let j = delete_journal(key, d.live[key].blobs());
    assert(exclusive(goal)) by {
        assert forall|k1: Seq<char>, k2: Seq<char>, b: Seq<char>|
            goal.live.contains_key(k1) && goal.live.contains_key(k2) && k1 != k2
                && #[trigger] goal.live[k1].blobs().contains(b) implies !(
        #[trigger] goal.live[k2].blobs().contains(b)) by {
            assert(d.live[k1].blobs().contains(b));
        }
    }
    assert forall|n: Seq<char>| d.journals.contains_key(n) implies harmless(
        goal,
        #[trigger] d.journals[n],
    ) by {
        assert forall|k: Seq<char>, b: Seq<char>|
            goal.live.contains_key(k) && #[trigger] goal.live[k].blobs().contains(b)
                && d.journals[n].blobs.contains(b) implies k == d.journals[n].supersedes_key && (
        d.journals[n].mode == JournalMode::Publish ==> goal.live[k].commit_nonce
            != d.journals[n].commit_nonce) by {
            assert(d.live[k].blobs().contains(b));
        }
    }
    assert(harmless(d, j)) by {
        assert forall|k: Seq<char>, b: Seq<char>|
            d.live.contains_key(k) && #[trigger] d.live[k].blobs().contains(b) && j.blobs.contains(b)
            implies k == key by {
            assert(d.live[key].blobs().contains(b));
        }
    }
    assert(harmless(goal, j)) by {
        assert forall|k: Seq<char>, b: Seq<char>|
            goal.live.contains_key(k) && #[trigger] goal.live[k].blobs().contains(b)
                && j.blobs.contains(b) implies false by {
            assert(d.live[key].blobs().contains(b));
            assert(d.live[k].blobs().contains(b));
        }
    }
}

/// A crash at any point of a deletion leaves a sound bucket in which the object is as it was or
/// gone, and every other key has what it had.
pub proof fn deletion_is_atomic(
    d: Disk,
    key: Seq<char>,
    name: Seq<char>,
    tmp: Seq<char>,
    fsync: bool,
    done: Seq<bool>,
    k: int,
)
    requires
        sound(d),
        d.live.contains_key(key),
        ({
            let steps = delete_steps(key, name, tmp, d.live[key].blobs(), fsync);
            reaches(steps, done, k) && done.len() == steps.len()
        }),
    ensures
        ({
            let steps = delete_steps(key, name, tmp, d.live[key].blobs(), fsync);
            let x = run(d, steps.take(k), done);
            &&& sound(x)
            &&& x.live == d.live && x.blobs == d.blobs || x.live == d.live.remove(key)
            &&& k == steps.len() ==> x.live == d.live.remove(key)
            &&& keeps_blobs(d, x, old_blobs(d, key))
        }),
{
    let blobs = d.live[key].blobs();
    let steps = delete_steps(key, name, tmp, blobs, fsync);
    let goal = without_live(d, key);
    let j = delete_journal(key, blobs);
    let head = journal_steps(name, tmp, j, fsync);
    let swap = seq![delete_swap(key)];
    let rest = delete_sync(key, fsync) + delete_tail(key, name, blobs);
    lemma_delete_parts(key, name, tmp, blobs, fsync);
    lemma_deletable(d, key);
    lemma_run_prefix(d, head, swap + rest, done, k);
    let x = run(d, steps.take(k), done);
    if k <= head.len() {
        lemma_journal_steps(d, goal, d, name, tmp, j, fsync, done, k);
        lemma_before_swap_sound(d, goal, x);
    } else {
        lemma_journal_steps(d, goal, d, name, tmp, j, fsync, done, head.len() as int);
        assert(head.take(head.len() as int) =~= head);
        let y = run(d, head, done);
        let more = done.skip(head.len() as int);
        let n = k - head.len();
        lemma_run_prefix(y, swap, rest, more, n);
        assert(steps[head.len() as int] == delete_swap(key));
        assert(done[head.len() as int]);
        let z = step_effect(y, delete_swap(key));
        assert(swap.drop_last() =~= Seq::empty());
        assert(run(y, swap.drop_last(), more) == y);
        assert(more[0] == done[head.len() as int]);
        assert(run(y, swap, more) == z);
        assert(swap.take(1) =~= swap);
        assert(after_swap(z, d, goal, blobs)) by {
            assert forall|b: Seq<char>| d.blobs.contains_key(b) && !blobs.contains(b) implies
                #[trigger] z.blobs.contains_key(b) && z.blobs[b] == d.blobs[b] by {}
        }
        let last = rest.take(n - 1);
        assert forall|i: int| 0 <= i < last.len() implies clears_away(#[trigger] last[i], blobs) by {
            assert(last[i] == rest[i]);
        }
        lemma_tail_steps(d, goal, z, last, blobs, more.skip(1));
        if n == 1 {
            assert((swap + rest).take(1) =~= swap);
            assert(last =~= Seq::empty());
        }
        assert(x == run(z, last, more.skip(1)));
        assert forall|k2: Seq<char>, b: Seq<char>|
            goal.live.contains_key(k2) && #[trigger] goal.live[k2].blobs().contains(b) implies !blobs.contains(
        b) by {
            assert(d.live[k2].blobs().contains(b));
        }
        lemma_after_swap_sound(d, goal, x, blobs);
    }
}

/// A deletion that goes through leaves neither the journal nor a blob of the version behind.
pub proof fn finished_deletion_leaves_nothing_behind(
    d: Disk,
    key: Seq<char>,
    name: Seq<char>,
    tmp: Seq<char>,
    blobs: Seq<Seq<char>>,
    fsync: bool,
    done: Seq<bool>,
)
    requires
        done.len() == delete_steps(key, name, tmp, blobs, fsync).len(),
        forall|i: int| 0 <= i < done.len() ==> done[i],
    ensures
        ({
            let x = run(d, delete_steps(key, name, tmp, blobs, fsync), done);
            &&& !x.journals.contains_key(name)
            &&& forall|b: Seq<char>|
                blobs.contains(b) && is_canonical_uuid(b) ==> !(#[trigger] x.blobs.contains_key(b))
        }),
{
    let steps = delete_steps(key, name, tmp, blobs, fsync);
    lemma_delete_parts(key, name, tmp, blobs, fsync);
    let front = journal_steps(name, tmp, delete_journal(key, blobs), fsync) + (seq![
        delete_swap(key),
    ] + delete_sync(key, fsync));
    let reclaim = reclaim_steps(blobs, reclaim_rule());
    let prune = prune_steps(key, key_depth(key));
    let rest = seq![StepView::Reset] + prune + seq![
        StepView::Finish { outcome: crate::plan::call::OutcomeView::Nothing },
    ];
    let early = front + reclaim;
    let removal = seq![journal_removal(name)];
    assert(steps =~= early + removal + rest);
    lemma_run_concat(d, early + removal, rest, done);
    lemma_run_concat(d, early, removal, done);
    lemma_run_concat(d, front, reclaim, done);
    let y = run(d, early, done);
    lemma_reclaimed(run(d, front, done), blobs, reclaim_rule(), done.skip(front.len() as int));
    let z = step_effect(y, journal_removal(name));
    assert(run(y, removal, done.skip(early.len() as int)) == z) by {
        assert(removal.drop_last() =~= Seq::empty());
        assert(run(y, removal.drop_last(), done.skip(early.len() as int)) == y);
        assert(done.skip(early.len() as int)[0] == done[early.len() as int]);
    }
    lemma_prune_steps(key, key_depth(key));
    let keep = |v: Disk| v == z;
    assert forall|v: Disk, i: int| 0 <= i < rest.len() && #[trigger] keep(v) implies keep(
        step_effect(v, #[trigger] rest[i]),
    ) by {
        if 0 < i <= prune.len() {
            assert(rest[i] == prune[i - 1]);
            assert(step_effect(v, prune[i - 1]) == v);
        }
    }
    lemma_run_keeps(z, rest, done.skip((early + removal).len() as int), keep);
}

/// With durable commits, a crash that loses the removal of the manifest is harmless as long as the
/// removal is not known to be durable: the object is still whole.
pub proof fn unsynced_deletion_may_be_lost(
    d: Disk,
    key: Seq<char>,
    name: Seq<char>,
    tmp: Seq<char>,
    done: Seq<bool>,
    k: int,
)
    requires
        sound(d),
        d.live.contains_key(key),
        done.len() == delete_steps(key, name, tmp, d.live[key].blobs(), true).len(),
        0 <= k <= journal_steps(
            name,
            tmp,
            delete_journal(key, d.live[key].blobs()),
            true,
        ).len() + 2,
    ensures
        ({
            let steps = delete_steps(key, name, tmp, d.live[key].blobs(), true);
            let x = run(d, steps.take(k), done);
            sound(Disk { live: d.live, ..x })
        }),
{
    let blobs = d.live[key].blobs();
    let steps = delete_steps(key, name, tmp, blobs, true);
    let goal = without_live(d, key);
    let j = delete_journal(key, blobs);
    let head = journal_steps(name, tmp, j, true);
    let swap = seq![delete_swap(key)];
    let rest = delete_sync(key, true) + delete_tail(key, name, blobs);
    lemma_delete_parts(key, name, tmp, blobs, true);
    lemma_deletable(d, key);
    lemma_journal_steps(d, goal, d, name, tmp, j, true, done, if k <= head.len() { k } else {
        head.len() as int
    });
    assert(head.take(head.len() as int) =~= head);
    lemma_run_prefix(d, head, swap + rest, done, k);
    let x = run(d, steps.take(k), done);
    if k > head.len() {
        let y = run(d, head, done);
        let more = done.skip(head.len() as int);
        let mid = (swap + rest).take(k - head.len());
        let keep = |z: Disk| z.blobs == d.blobs && journals_harmless(z, d, goal);
        assert forall|z: Disk, i: int| 0 <= i < mid.len() && #[trigger] keep(z) implies keep(
            step_effect(z, #[trigger] mid[i]),
        ) by {
            if i == 0 {
                assert(mid[0] == delete_swap(key));
            } else {
                assert(mid[1] == delete_sync(key, true)[0]);
            }
        }
        lemma_run_keeps(y, mid, more, keep);
    }
    let old_disk = Disk { live: d.live, staged: d.staged, refs: d.refs, ..x };
    assert(before_swap(old_disk, d, goal));
    lemma_before_swap_sound(d, goal, old_disk);
    let other = Disk { live: d.live, ..x };
    assert(complete(other));
    assert(exclusive(other));
    assert forall|n: Seq<char>| other.journals.contains_key(n) implies harmless(
        other,
        #[trigger] other.journals[n],
    ) by {
        assert(harmless(old_disk, old_disk.journals[n]));
    }
}

/// Applying a journal, up to any point, changes no live version and takes no blob from one.
pub proof fn recovery_keeps_live_objects(d: Disk, name: Seq<char>, done: Seq<bool>, k: int)
    requires
        sound(d),
        d.journals.contains_key(name),
        ({
            let j = d.journals[name];
            0 <= k <= apply_steps(name, j, live_of(d, j.supersedes_key)).len() <= done.len()
        }),
    ensures
        ({
            let j = d.journals[name];
            let x = run(d, apply_steps(name, j, live_of(d, j.supersedes_key)).take(k), done);
            sound(x) && x.live == d.live
        }),
{
    let j = d.journals[name];
    let live = live_of(d, j.supersedes_key);
    let all = apply_steps(name, j, live);
    let steps = all.take(k);
    let gone = if landed(j, live) {
        j.blobs
    } else {
        Seq::empty()
    };
    lemma_journaled_steps(j.blobs);
    assert forall|i: int| 0 <= i < steps.len() implies clears_away(#[trigger] steps[i], gone) by {
        assert(steps[i] == all[i]);
        if i < all.len() - 1 {
            assert(all[i] == journaled_steps(j.blobs)[i]);
        }
    }
    assert(after_swap(d, d, d, gone));
    lemma_tail_steps(d, d, d, steps, gone, done);
    assert forall|k2: Seq<char>, b: Seq<char>|
        d.live.contains_key(k2) && #[trigger] d.live[k2].blobs().contains(b) implies !gone.contains(
    b) by {
        if gone.contains(b) {
            assert(harmless(d, j));
        }
    }
    lemma_after_swap_sound(d, d, run(d, steps, done), gone);
}

/// Applying the journal of a commit that took place removes every blob it lists; the journal of
/// one that did not is dropped without touching a blob.
pub proof fn recovery_settles_a_journal(d: Disk, name: Seq<char>, done: Seq<bool>)
    requires
        d.journals.contains_key(name),
        ({
            let j = d.journals[name];
            done.len() == apply_steps(name, j, live_of(d, j.supersedes_key)).len()
        }),
        forall|i: int| 0 <= i < done.len() ==> done[i],
    ensures
        ({
            let j = d.journals[name];
            let live = live_of(d, j.supersedes_key);
            let x = run(d, apply_steps(name, j, live), done);
            &&& !x.journals.contains_key(name)
            &&& landed(j, live) ==> forall|b: Seq<char>|
                j.blobs.contains(b) && is_canonical_uuid(b) ==> !(#[trigger] x.blobs.contains_key(
                    b,
                ))
            &&& !landed(j, live) ==> x.blobs == d.blobs
        }),
{
    let j = d.journals[name];
    let live = live_of(d, j.supersedes_key);
    let steps = apply_steps(name, j, live);
    let reclaim = journaled_steps(j.blobs);
    if landed(j, live) {
        assert(steps.drop_last() =~= reclaim);
        lemma_journaled(d, j.blobs, done);
        let x = run(d, steps, done);
        let y = run(d, reclaim, done);
        assert(x == step_effect(y, steps.last()));
        assert forall|b: Seq<char>| j.blobs.contains(b) && is_canonical_uuid(b) implies !(
        #[trigger] x.blobs.contains_key(b)) by {
            assert(!y.blobs.contains_key(b));
        }
    } else {
        assert(steps.drop_last() =~= Seq::empty());
        assert(run(d, steps.drop_last(), done) == d);
    }
}

/// Applying a journal again, after it was applied, changes nothing: there is none left, and a
/// blob that is gone stays gone.
pub proof fn recovery_is_idempotent(d: Disk, name: Seq<char>, done: Seq<bool>, again: Seq<bool>)
    requires
        d.journals.contains_key(name),
        ({
            let j = d.journals[name];
            let n = apply_steps(name, j, live_of(d, j.supersedes_key)).len();
            done.len() == n && again.len() == n
        }),
        forall|i: int| 0 <= i < done.len() ==> done[i],
    ensures
        ({
            let j = d.journals[name];
            let steps = apply_steps(name, j, live_of(d, j.supersedes_key));
            let x = run(d, steps, done);
            let y = run(x, steps, again);
            y == x
        }),
{
    recovery_settles_a_journal(d, name, done);
    let j = d.journals[name];
    let live = live_of(d, j.supersedes_key);
    let steps = apply_steps(name, j, live);
    let x = run(d, steps, done);
    lemma_journaled_steps(j.blobs);
    let keep = |z: Disk| z == x;
    assert forall|z: Disk, i: int| 0 <= i < steps.len() && #[trigger] keep(z) implies keep(
        step_effect(z, #[trigger] steps[i]),
    ) by {
        if i < steps.len() - 1 {
            assert(steps[i] == journaled_steps(j.blobs)[i]);
            if let StepView::Do { call, .. } = steps[i] {
                if let CallView::RemoveExisting { at: Place::Blob { id } } = call {
                    assert(!x.blobs.contains_key(id));
                    assert(x.blobs.remove(id) =~= x.blobs);
                }
            }
        } else {
            assert(x.journals.remove(name) =~= x.journals);
        }
    }
    lemma_run_keeps(x, steps, again, keep);
}

/// What applying a journal removes: blobs of its list and nothing else.
pub proof fn lemma_journaled_steps(blobs: Seq<Seq<char>>)
    ensures
        forall|i: int|
            0 <= i < journaled_steps(blobs).len() ==> {
                &&& #[trigger] journaled_steps(blobs)[i] matches StepView::Do { call, rule }
                &&& rule == counted_reclaim()
                &&& call matches CallView::RemoveExisting { at: Place::Blob { id } }
                &&& blobs.contains(id)
                &&& is_canonical_uuid(id)
            },
    decreases blobs.len(),
{
    if blobs.len() > 0 {
        let early = blobs.drop_last();
        lemma_journaled_steps(early);
        let all = journaled_steps(blobs);
        let front = journaled_steps(early);
        assert forall|i: int| 0 <= i < all.len() implies {
            &&& #[trigger] all[i] matches StepView::Do { call, rule }
            &&& rule == counted_reclaim()
            &&& call matches CallView::RemoveExisting { at: Place::Blob { id } }
            &&& blobs.contains(id)
            &&& is_canonical_uuid(id)
        } by {
            if i < front.len() {
                assert(all[i] == front[i]);
                if let StepView::Do { call, .. } = front[i] {
                    if let CallView::RemoveExisting { at: Place::Blob { id } } = call {
                        let j = choose|j: int| 0 <= j < early.len() && early[j] == id;
                        assert(blobs[j] == id);
                    }
                }
            } else {
                assert(blobs[blobs.len() - 1] == blobs.last());
            }
        }
    }
}

/// Where every removal succeeds, no blob of the journal is left.
proof fn lemma_journaled(d: Disk, blobs: Seq<Seq<char>>, done: Seq<bool>)
    requires
        journaled_steps(blobs).len() <= done.len(),
        forall|i: int| 0 <= i < journaled_steps(blobs).len() ==> done[i],
    ensures
        forall|b: Seq<char>|
            blobs.contains(b) && is_canonical_uuid(b) ==> !(#[trigger] run(
                d,
                journaled_steps(blobs),
                done,
            ).blobs.contains_key(b)),
    decreases blobs.len(),
{
    if blobs.len() > 0 {
        let front = blobs.drop_last();
        let steps = journaled_steps(blobs);
        lemma_journaled(d, front, done);
        if is_canonical_uuid(blobs.last()) {
            assert(steps.drop_last() =~= journaled_steps(front));
        }
        let before = run(d, journaled_steps(front), done);
        let after = run(d, steps, done);
        assert forall|b: Seq<char>| blobs.contains(b) && is_canonical_uuid(b) implies !(
        #[trigger] after.blobs.contains_key(b)) by {
            let j = choose|j: int| 0 <= j < blobs.len() && blobs[j] == b;
            if j < front.len() {
                assert(front[j] == b);
                assert(!before.blobs.contains_key(b));
            }
        }
    }
}

/// The sweep for blobs that nothing names removes only such blobs.
pub proof fn lemma_orphan_steps(rels: Seq<Seq<char>>, referenced: Seq<Seq<char>>)
    ensures
        forall|i: int|
            0 <= i < orphan_steps(rels, referenced).len() ==> {
                &&& #[trigger] orphan_steps(rels, referenced)[i] matches StepView::Do { call, .. }
                &&& call matches CallView::RemoveFile { at: Place::BlobFile { rel } }
                &&& is_orphan(rel, referenced)
            },
    decreases rels.len(),
{
    if rels.len() > 0 {
        let front = orphan_steps(rels.drop_last(), referenced);
        let all = orphan_steps(rels, referenced);
        lemma_orphan_steps(rels.drop_last(), referenced);
        assert forall|i: int| 0 <= i < all.len() implies {
            &&& #[trigger] all[i] matches StepView::Do { call, .. }
            &&& call matches CallView::RemoveFile { at: Place::BlobFile { rel } }
            &&& is_orphan(rel, referenced)
        } by {
            if i < front.len() {
                assert(all[i] == front[i]);
            }
        }
    }
}

/// The sweep, up to any point, removes no blob of the list that it goes by.
pub proof fn lemma_sweep_keeps(
    d: Disk,
    rels: Seq<Seq<char>>,
    referenced: Seq<Seq<char>>,
    done: Seq<bool>,
    k: int,
)
    requires
        sound(d),
        forall|key: Seq<char>, b: Seq<char>|
            d.live.contains_key(key) && #[trigger] d.live[key].blobs().contains(b)
                ==> referenced.contains(b),
        0 <= k <= orphan_steps(rels, referenced).len(),
    ensures
        ({
            let x = run(d, orphan_steps(rels, referenced).take(k), done);
            &&& sound(x)
            &&& x.live == d.live
            &&& x.refs == d.refs
            &&& forall|b: Seq<char>|
                d.blobs.contains_key(b) && referenced.contains(b) ==> #[trigger]
                    x.blobs.contains_key(b) && x.blobs[b] == d.blobs[b]
        }),
{
    let all = orphan_steps(rels, referenced);
    let steps = all.take(k);
    lemma_orphan_steps(rels, referenced);
    let keep = |y: Disk|
        {
            &&& y.live == d.live
            &&& y.journals == d.journals
            &&& y.refs == d.refs
            &&& forall|b: Seq<char>|
                d.blobs.contains_key(b) && referenced.contains(b) ==> #[trigger]
                    y.blobs.contains_key(b) && y.blobs[b] == d.blobs[b]
        };
    assert forall|y: Disk, i: int| 0 <= i < steps.len() && #[trigger] keep(y) implies keep(
        step_effect(y, #[trigger] steps[i]),
    ) by {
        assert(steps[i] == all[i]);
        let z = step_effect(y, steps[i]);
        assert forall|b: Seq<char>| d.blobs.contains_key(b) && referenced.contains(b) implies
            #[trigger] z.blobs.contains_key(b) && z.blobs[b] == d.blobs[b] by {
            assert(y.blobs.contains_key(b));
        }
    }
    lemma_run_keeps(d, steps, done, keep);
    let x = run(d, steps, done);
    assert(keep(x));
    assert(complete(x)) by {
        assert forall|key: Seq<char>, b: Seq<char>|
            x.live.contains_key(key) && #[trigger] x.live[key].blobs().contains(b) implies x.blobs.contains_key(
        b) by {
            assert(d.live[key].blobs().contains(b));
        }
    }
    assert(exclusive(x)) by {
        assert forall|k1: Seq<char>, k2: Seq<char>, b: Seq<char>|
            x.live.contains_key(k1) && x.live.contains_key(k2) && k1 != k2
                && #[trigger] x.live[k1].blobs().contains(b) implies !(
        #[trigger] x.live[k2].blobs().contains(b)) by {
            assert(d.live[k1].blobs().contains(b));
        }
    }
    assert forall|n: Seq<char>| x.journals.contains_key(n) implies harmless(
        x,
        #[trigger] x.journals[n],
    ) by {
        assert(harmless(d, d.journals[n]));
        assert forall|key: Seq<char>, b: Seq<char>|
            x.live.contains_key(key) && #[trigger] x.live[key].blobs().contains(b)
                && x.journals[n].blobs.contains(b) implies key == x.journals[n].supersedes_key && (
        x.journals[n].mode == JournalMode::Publish ==> x.live[key].commit_nonce
            != x.journals[n].commit_nonce) by {
            assert(d.live[key].blobs().contains(b));
        }
    }
}

} // verus!
