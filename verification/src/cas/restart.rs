//! The sweep of a bucket that a restart begins with, from beginning to end.

use vstd::prelude::*;
use crate::cas::execution::tally;
use crate::cas::flows::{ending, lemma_alike, lemma_run_done, same_object};
use crate::cas::model::{
    complete, lemma_journaled_steps, lemma_run_concat, lemma_run_keeps, live_of,
    recovery_keeps_live_objects, recovery_settles_a_journal, run, sound, step_effect, Disk,
};
use crate::cas::recovery::{
    apply_steps, first_error, journaled_steps, next_journal, readable, sweep_rest, sweep_steps,
    unstage_steps, with_suffix, BucketSweep,
};
use crate::plan::call::{Entry, OutcomeView, QuestionView};
use crate::plan::place::{bucket_root, Place};
use crate::plan::runner::{no_tallies, StepView, Tallies};
use crate::text::texts;
use crate::types::{IoError, StorageError};

verus! {

/// The bucket after steps that all succeed.
pub open spec fn after_all(d: Disk, steps: Seq<StepView>) -> Disk {
    run(d, steps, Seq::new(steps.len(), |i: int| true))
}

/// A journal that can be read is applied, once the live version of its key is known; any other file
/// is passed over.
pub open spec fn settling_steps(d: Disk, name: Seq<char>) -> Seq<StepView> {
    if d.journals.contains_key(name) {
        let j = d.journals[name];
        seq![
            StepView::Ask {
                question: QuestionView::ReadManifest {
                    at: Place::Manifest { key: j.supersedes_key },
                },
            },
        ] + apply_steps(name, j, live_of(d, j.supersedes_key)).push(StepView::Reset)
    } else {
        Seq::empty()
    }
}

/// The journals from number `at` on are read and applied one after the other.
pub open spec fn journal_run(d: Disk, names: Seq<Seq<char>>, at: int) -> Seq<StepView>
    decreases names.len() - at,
{
    next_journal(names, at) + if 0 <= at < names.len() {
        let steps = settling_steps(d, names[at]);
        steps + journal_run(after_all(d, steps), names, at + 1)
    } else {
        Seq::empty()
    }
}

/// The steps of a sweep of a bucket, where the upload area and the journals are listed so.
pub open spec fn recover_run(
    d: Disk,
    arriving: Seq<Result<Entry, IoError>>,
    deleted: Seq<Result<Entry, IoError>>,
) -> Seq<StepView> {
    let unstage = sweep_steps(arriving, true);
    unstage + journal_run(
        after_all(d, unstage),
        with_suffix(readable(deleted), ".journal"@),
        0,
    )
}

/// No step of these makes a call.
pub open spec fn makes_no_call(steps: Seq<StepView>) -> bool {
    forall|i: int| 0 <= i < steps.len() ==> !(#[trigger] steps[i] is Do)
}

/// Steps that make no call change and count nothing.
proof fn lemma_no_call(d: Disk, steps: Seq<StepView>, done: Seq<bool>)
    requires
        makes_no_call(steps),
    ensures
        run(d, steps, done) == d,
        tally(no_tallies(), steps, done) == no_tallies(),
    decreases steps.len(),
{
    if steps.len() > 0 {
        let front = steps.drop_last();
        assert forall|i: int| 0 <= i < front.len() implies !(#[trigger] front[i] is Do) by {
            assert(front[i] == steps[i]);
        }
        lemma_no_call(d, front, done);
        assert(!(steps[steps.len() - 1] is Do));
    }
}

/// The listing shows the staged manifests among what is in the upload area.
pub open spec fn lists_staged(d: Disk, entries: Seq<Result<Entry, IoError>>) -> bool {
    &&& forall|n: Seq<char>| #[trigger]
        d.staged.contains_key(n) ==> readable(entries).contains(n)
    &&& forall|i: int|
        0 <= i < readable(entries).len() && ".manifest"@.is_suffix_of(
            #[trigger] readable(entries)[i],
        ) ==> d.staged.contains_key(readable(entries)[i])
}

/// The listing shows the journals.
pub open spec fn lists_journals(d: Disk, entries: Seq<Result<Entry, IoError>>) -> bool {
    forall|n: Seq<char>| #[trigger] d.journals.contains_key(n) ==> readable(entries).contains(n)
}

proof fn lemma_after_both(d: Disk, a: Seq<StepView>, b: Seq<StepView>)
    ensures
        after_all(d, a + b) == after_all(after_all(d, a), b),
{
    let all = Seq::new((a + b).len(), |i: int| true);
    lemma_run_concat(d, a, b, all);
    lemma_run_done(d, a, all, Seq::new(a.len(), |i: int| true));
    lemma_run_done(
        after_all(d, a),
        b,
        all.skip(a.len() as int),
        Seq::new(b.len(), |i: int| true),
    );
}

/// A name with the suffix is among those that are picked.
pub proof fn lemma_suffix(names: Seq<Seq<char>>, suffix: Seq<char>, n: Seq<char>)
    ensures
        with_suffix(names, suffix).contains(n) <==> names.contains(n) && suffix.is_suffix_of(n),
    decreases names.len(),
{
    let keep = |name: Seq<char>| suffix.is_suffix_of(name);
    reveal(Seq::filter);
    let picked = with_suffix(names, suffix);
    if names.len() > 0 {
        let front = names.drop_last();
        let early = with_suffix(front, suffix);
        lemma_suffix(front, suffix, n);
        assert(picked == if keep(names.last()) {
            early.push(names.last())
        } else {
            early
        });
        assert(names =~= front.push(names.last()));
        lemma_in_push(front, names.last(), n);
        lemma_in_push(early, names.last(), n);
    }
}

proof fn lemma_in_push(list: Seq<Seq<char>>, last: Seq<char>, n: Seq<char>)
    ensures
        list.push(last).contains(n) <==> list.contains(n) || n == last,
{
    let all = list.push(last);
    if list.contains(n) {
        let i = choose|i: int| 0 <= i < list.len() && list[i] == n;
        assert(all[i] == n);
    }
    if n == last {
        assert(all[list.len() as int] == n);
    }
}

/// Removing staged manifests removes those and nothing else.
proof fn lemma_unstaged(d: Disk, names: Seq<Seq<char>>)
    ensures
        ({
            let x = after_all(d, unstage_steps(names));
            &&& x.live == d.live
            &&& x.journals == d.journals
            &&& x.blobs == d.blobs
            &&& x.refs == d.refs
            &&& forall|n: Seq<char>| #[trigger]
                x.staged.contains_key(n) <==> d.staged.contains_key(n) && !names.contains(n)
        }),
    decreases names.len(),
{
    let steps = unstage_steps(names);
    let all = Seq::new(steps.len(), |i: int| true);
    if names.len() > 0 {
        let front = names.drop_last();
        let early = unstage_steps(front);
        lemma_unstaged(d, front);
        assert(steps.drop_last() =~= early);
        lemma_run_done(d, early, all, Seq::new(early.len(), |i: int| true));
        assert(names =~= front.push(names.last()));
        let x = after_all(d, steps);
        let y = after_all(d, early);
        assert(x == step_effect(y, steps.last()));
        assert forall|n: Seq<char>| #[trigger]
            x.staged.contains_key(n) <==> d.staged.contains_key(n) && !names.contains(n) by {
            lemma_in_push(front, names.last(), n);
            assert(y.staged.contains_key(n) <==> d.staged.contains_key(n) && !front.contains(n));
        }
    }
}

/// Every blob of `x` is one of `d`, with the same bytes.
pub open spec fn no_new_blobs(d: Disk, x: Disk) -> bool {
    forall|b: Seq<char>| #[trigger]
        x.blobs.contains_key(b) ==> d.blobs.contains_key(b) && x.blobs[b] == d.blobs[b]
}

/// Settling one journal removes it, takes nothing from a live object and leaves the other journals
/// alone.
proof fn lemma_settled(d: Disk, name: Seq<char>)
    requires
        sound(d),
    ensures
        ({
            let x = after_all(d, settling_steps(d, name));
            &&& sound(x)
            &&& x.live == d.live
            &&& x.staged == d.staged
            &&& x.refs == d.refs
            &&& no_new_blobs(d, x)
            &&& forall|n: Seq<char>| #[trigger]
                x.journals.contains_key(n) <==> d.journals.contains_key(n) && n != name
        }),
{
    let steps = settling_steps(d, name);
    let x = after_all(d, steps);
    if d.journals.contains_key(name) {
        let j = d.journals[name];
        let live = live_of(d, j.supersedes_key);
        let apply = apply_steps(name, j, live);
        let mine = Seq::new(apply.len(), |i: int| true);
        let ask = seq![steps[0]];
        let rest = apply.push(StepView::Reset);
        assert(steps =~= ask + rest);
        lemma_after_both(d, ask, rest);
        lemma_no_call(d, ask, Seq::new(ask.len(), |i: int| true));
        assert(rest.drop_last() =~= apply);
        lemma_run_done(d, apply, Seq::new(rest.len(), |i: int| true), mine);
        assert(x == run(d, apply, mine));
        assert(apply.take(apply.len() as int) =~= apply);
        recovery_keeps_live_objects(d, name, mine, apply.len() as int);
        recovery_settles_a_journal(d, name, mine);
        let reclaim = journaled_steps(j.blobs);
        lemma_journaled_steps(j.blobs);
        let keep = |z: Disk|
            z.staged == d.staged && z.refs == d.refs && no_new_blobs(d, z) && forall|n: Seq<char>|
                n != name ==> (#[trigger] z.journals.contains_key(n) <==> d.journals.contains_key(
                    n,
                ));
        assert forall|z: Disk, i: int| 0 <= i < apply.len() && #[trigger] keep(z) implies keep(
            step_effect(z, #[trigger] apply[i]),
        ) by {
            let v = step_effect(z, apply[i]);
            if i < apply.len() - 1 {
                assert(apply[i] == reclaim[i]);
            }
            assert forall|b: Seq<char>| #[trigger] v.blobs.contains_key(b) implies d.blobs.contains_key(
            b) && v.blobs[b] == d.blobs[b] by {
                assert(z.blobs.contains_key(b));
            }
            assert forall|n: Seq<char>| n != name implies (#[trigger] v.journals.contains_key(n)
                <==> d.journals.contains_key(n)) by {
                assert(z.journals.contains_key(n) <==> d.journals.contains_key(n));
            }
        }
        lemma_run_keeps(d, apply, mine, keep);
        assert(keep(x));
    } else {
        assert(x == d);
    }
}

/// Settling the journals one after the other.
proof fn lemma_all_settled(d: Disk, names: Seq<Seq<char>>, at: int)
    requires
        sound(d),
        0 <= at <= names.len(),
    ensures
        ({
            let x = after_all(d, journal_run(d, names, at));
            &&& sound(x)
            &&& x.live == d.live
            &&& x.staged == d.staged
            &&& x.refs == d.refs
            &&& no_new_blobs(d, x)
            &&& forall|n: Seq<char>| #[trigger]
                x.journals.contains_key(n) <==> d.journals.contains_key(n) && !names.skip(
                    at,
                ).contains(n)
        }),
    decreases names.len() - at,
{
    let x = after_all(d, journal_run(d, names, at));
    let ask = next_journal(names, at);
    let left = names.skip(at);
    lemma_no_call(d, ask, Seq::new(ask.len(), |i: int| true));
    if at < names.len() {
        let steps = settling_steps(d, names[at]);
        let y = after_all(d, steps);
        let more = journal_run(y, names, at + 1);
        lemma_after_both(d, ask, steps + more);
        lemma_after_both(d, steps, more);
        lemma_settled(d, names[at]);
        lemma_all_settled(y, names, at + 1);
        let rest = names.skip(at + 1);
        assert(left =~= seq![names[at]] + rest);
        assert forall|n: Seq<char>| #[trigger]
            x.journals.contains_key(n) <==> d.journals.contains_key(n) && !left.contains(n) by {
            assert(y.journals.contains_key(n) <==> d.journals.contains_key(n) && n != names[at]);
            if rest.contains(n) {
                let i = choose|i: int| 0 <= i < rest.len() && rest[i] == n;
                assert(left[i + 1] == n);
            }
            assert(left[0] == names[at]);
            if left.contains(n) {
                let i = choose|i: int| 0 <= i < left.len() && left[i] == n;
                if i > 0 {
                    assert(rest[i - 1] == n);
                }
            }
        }
        assert forall|b: Seq<char>| #[trigger] x.blobs.contains_key(b) implies d.blobs.contains_key(
            b,
        ) && x.blobs[b] == d.blobs[b] by {
            assert(y.blobs.contains_key(b));
        }
    } else {
        assert(journal_run(d, names, at) =~= ask);
        assert(x == d);
    }
}

/// Where there is no journal, there is nothing to apply.
proof fn lemma_nothing_to_settle(d: Disk, names: Seq<Seq<char>>, at: int)
    requires
        0 <= at <= names.len(),
        forall|i: int| at <= i < names.len() ==> !d.journals.contains_key(#[trigger] names[i]),
    ensures
        makes_no_call(journal_run(d, names, at)),
        ending(journal_run(d, names, at)) == Some(
            Ok::<OutcomeView, StorageError>(OutcomeView::Nothing),
        ),
    decreases names.len() - at,
{
    let all = journal_run(d, names, at);
    let ask = next_journal(names, at);
    if at < names.len() {
        assert(after_all(d, Seq::empty()) == d);
        lemma_nothing_to_settle(d, names, at + 1);
        let more = journal_run(d, names, at + 1);
        assert(all =~= ask + more);
        assert forall|i: int| 0 <= i < all.len() implies !(#[trigger] all[i] is Do) by {
            if i >= ask.len() {
                assert(all[i] == more[i - ask.len()]);
            }
        }
        assert(more.len() > 0);
        assert(all.last() == more.last());
    } else {
        assert(all =~= ask);
    }
}

/// Whether a sweep of a bucket, and a second one, see what there is to see.
pub open spec fn sees_its_bucket(
    d: Disk,
    arriving: Seq<Result<Entry, IoError>>,
    deleted: Seq<Result<Entry, IoError>>,
) -> bool {
    &&& first_error(arriving) is None
    &&& first_error(deleted) is None
    &&& lists_staged(d, arriving)
    &&& lists_journals(d, deleted)
}

/// A bucket is settled: nothing is staged, no journal is left, every object is answered as before,
/// and so is every request for the parts of an upload.
pub open spec fn is_settled(path: Seq<char>, d: Disk, x: Disk) -> bool {
    &&& sound(x)
    &&& forall|n: Seq<char>|
        ".manifest"@.is_suffix_of(n) ==> !(#[trigger] x.staged.contains_key(n))
    &&& forall|n: Seq<char>|
        ".journal"@.is_suffix_of(n) ==> !(#[trigger] x.journals.contains_key(n))
    &&& forall|key: Seq<char>| #[trigger] same_object(path, d, x, key)
    &&& x.refs == d.refs
}

/// A sweep that succeeds throughout leaves no staged manifest and no journal. Every object is
/// answered as before, and the records of uploaded parts stay as they are. A second sweep makes no
/// call, so it changes and counts nothing.
pub proof fn recovery_leaves_nothing_to_do(
    path: Seq<char>,
    d: Disk,
    arriving: Seq<Result<Entry, IoError>>,
    deleted: Seq<Result<Entry, IoError>>,
    again_arriving: Seq<Result<Entry, IoError>>,
    again_deleted: Seq<Result<Entry, IoError>>,
    again_done: Seq<bool>,
)
    requires
        sound(d),
        sees_its_bucket(d, arriving, deleted),
        sees_its_bucket(
            after_all(d, recover_run(d, arriving, deleted)),
            again_arriving,
            again_deleted,
        ),
    ensures
        ({
            let x = after_all(d, recover_run(d, arriving, deleted));
            let again = recover_run(x, again_arriving, again_deleted);
            &&& is_settled(path, d, x)
            &&& makes_no_call(again)
            &&& ending(again) == Some(Ok::<OutcomeView, StorageError>(OutcomeView::Nothing))
            &&& run(x, again, again_done) == x
            &&& tally(no_tallies(), again, again_done) == no_tallies()
        }),
{
    let staged = with_suffix(readable(arriving), ".manifest"@);
    let journals = with_suffix(readable(deleted), ".journal"@);
    let first = sweep_steps(arriving, true);
    let unstage = unstage_steps(staged);
    let y = after_all(d, first);
    assert(first.drop_last() =~= unstage);
    lemma_run_done(
        d,
        unstage,
        Seq::new(first.len(), |i: int| true),
        Seq::new(unstage.len(), |i: int| true),
    );
    assert(y == after_all(d, unstage));
    let settle = journal_run(y, journals, 0);
    let x = after_all(d, recover_run(d, arriving, deleted));
    lemma_after_both(d, first, settle);
    lemma_unstaged(d, staged);
    crate::cas::flows::lemma_sound_alike(d, y);
    lemma_all_settled(y, journals, 0);
    assert(journals.skip(0) =~= journals);
    assert forall|n: Seq<char>| ".manifest"@.is_suffix_of(n) implies !(
    #[trigger] x.staged.contains_key(n)) by {
        lemma_suffix(readable(arriving), ".manifest"@, n);
        assert(x.staged.contains_key(n) ==> y.staged.contains_key(n));
    }
    assert forall|n: Seq<char>| ".journal"@.is_suffix_of(n) implies !(
    #[trigger] x.journals.contains_key(n)) by {
        lemma_suffix(readable(deleted), ".journal"@, n);
    }
    assert forall|key: Seq<char>| #[trigger] same_object(path, d, x, key) by {
        assert forall|b: Seq<char>|
            d.live.contains_key(key) && #[trigger] d.live[key].blobs().contains(b) implies x.blobs.contains_key(
        b) && x.blobs[b] == d.blobs[b] by {
            assert(complete(x));
            assert(x.live[key].blobs().contains(b));
        }
        lemma_alike(path, d, x, key);
    }
    let more = with_suffix(readable(again_arriving), ".manifest"@);
    assert(more =~= Seq::empty()) by {
        if more.len() > 0 {
            let n = more[0];
            assert(more.contains(n));
            lemma_suffix(readable(again_arriving), ".manifest"@, n);
            let i = choose|i: int|
                0 <= i < readable(again_arriving).len() && readable(again_arriving)[i] == n;
            assert(x.staged.contains_key(readable(again_arriving)[i]));
        }
    }
    let asked = sweep_steps(again_arriving, true);
    assert(asked =~= seq![sweep_rest(true)]);
    lemma_no_call(x, asked, Seq::new(asked.len(), |i: int| true));
    let rest = with_suffix(readable(again_deleted), ".journal"@);
    assert forall|i: int| 0 <= i < rest.len() implies !x.journals.contains_key(
        #[trigger] rest[i],
    ) by {
        assert(rest.contains(rest[i]));
        lemma_suffix(readable(again_deleted), ".journal"@, rest[i]);
    }
    lemma_nothing_to_settle(x, rest, 0);
    let again = recover_run(x, again_arriving, again_deleted);
    let tail = journal_run(x, rest, 0);
    assert(again =~= asked + tail);
    assert forall|i: int| 0 <= i < again.len() implies !(#[trigger] again[i] is Do) by {
        if i >= asked.len() {
            assert(again[i] == tail[i - asked.len()]);
        }
    }
    assert(tail.len() > 0);
    assert(again.last() == tail.last());
    lemma_no_call(x, again, again_done);
}

/// The stages of a sweep of all buckets, where so much is counted in each of them.
pub open spec fn is_sweep(sweeps: Seq<BucketSweep>, counts: Seq<Tallies>) -> bool {
    &&& sweeps.len() == counts.len() + 1
    &&& sweeps[0].buckets@.len() == counts.len()
    &&& sweeps[0].begins()
    &&& sweeps[0].failure is None
    &&& forall|i: int|
        0 <= i < counts.len() ==> (#[trigger] sweeps[i]).grows_to(
            Ok::<Tallies, StorageError>(counts[i]),
            sweeps[i + 1],
        )
}

proof fn lemma_counts_nothing(sweeps: Seq<BucketSweep>, counts: Seq<Tallies>, k: int)
    requires
        is_sweep(sweeps, counts),
        forall|i: int| 0 <= i < counts.len() ==> #[trigger] counts[i] == no_tallies(),
        0 <= k < sweeps.len(),
    ensures
        sweeps[k].buckets == sweeps[0].buckets,
        sweeps[k].next == k,
        sweeps[k].failure is None,
        sweeps[k].totals == no_tallies(),
    decreases k,
{
    if k > 0 {
        let i = k - 1;
        lemma_counts_nothing(sweeps, counts, i);
        assert(sweeps[i].grows_to(Ok::<Tallies, StorageError>(counts[i]), sweeps[i + 1]));
    }
}

/// The sweep of a whole store settles every bucket that it visits. A second one visits the same
/// buckets, changes nothing in any of them, succeeds, and counts nothing.
pub proof fn recovery_settles_every_bucket(
    root: Seq<char>,
    disks: spec_fn(Seq<char>) -> Disk,
    arriving: spec_fn(Seq<char>) -> Seq<Result<Entry, IoError>>,
    deleted: spec_fn(Seq<char>) -> Seq<Result<Entry, IoError>>,
    again_arriving: spec_fn(Seq<char>) -> Seq<Result<Entry, IoError>>,
    again_deleted: spec_fn(Seq<char>) -> Seq<Result<Entry, IoError>>,
    sweeps: Seq<BucketSweep>,
    counts: Seq<Tallies>,
)
    requires
        is_sweep(sweeps, counts),
        forall|i: int|
            0 <= i < counts.len() ==> #[trigger] counts[i] == ({
                let b = sweeps[0].buckets@[i]@;
                let x = after_all(disks(b), recover_run(disks(b), arriving(b), deleted(b)));
                let again = recover_run(x, again_arriving(b), again_deleted(b));
                tally(no_tallies(), again, Seq::new(again.len(), |j: int| true))
            }),
        forall|b: Seq<char>| #[trigger]
            texts(sweeps[0].buckets@).contains(b) ==> {
                let x = after_all(disks(b), recover_run(disks(b), arriving(b), deleted(b)));
                &&& sound(disks(b))
                &&& sees_its_bucket(disks(b), arriving(b), deleted(b))
                &&& sees_its_bucket(x, again_arriving(b), again_deleted(b))
            },
    ensures
        forall|b: Seq<char>| #[trigger]
            texts(sweeps[0].buckets@).contains(b) ==> {
                let x = after_all(disks(b), recover_run(disks(b), arriving(b), deleted(b)));
                let again = recover_run(x, again_arriving(b), again_deleted(b));
                &&& is_settled(bucket_root(root, b), disks(b), x)
                &&& after_all(x, again) == x
            },
        sweeps.last().step() is Done,
        sweeps.last().next == sweeps[0].buckets@.len(),
        sweeps.last().totals == no_tallies(),
{
    assert forall|b: Seq<char>| #[trigger] texts(sweeps[0].buckets@).contains(b) implies {
        let x = after_all(disks(b), recover_run(disks(b), arriving(b), deleted(b)));
        let again = recover_run(x, again_arriving(b), again_deleted(b));
        &&& is_settled(bucket_root(root, b), disks(b), x)
        &&& after_all(x, again) == x
        &&& tally(no_tallies(), again, Seq::new(again.len(), |j: int| true)) == no_tallies()
    } by {
        let x = after_all(disks(b), recover_run(disks(b), arriving(b), deleted(b)));
        let again = recover_run(x, again_arriving(b), again_deleted(b));
        recovery_leaves_nothing_to_do(
            bucket_root(root, b),
            disks(b),
            arriving(b),
            deleted(b),
            again_arriving(b),
            again_deleted(b),
            Seq::new(again.len(), |j: int| true),
        );
    }
    let names = texts(sweeps[0].buckets@);
    assert forall|i: int| 0 <= i < counts.len() implies #[trigger] counts[i] == no_tallies() by {
        assert(names[i] == sweeps[0].buckets@[i]@);
        assert(names.contains(names[i]));
    }
    lemma_counts_nothing(sweeps, counts, sweeps.len() - 1);
}

} // verus!
