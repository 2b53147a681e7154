//! What holds of uploads in parts at every point of them.

use vstd::prelude::*;
use crate::cas::complete::{
    assemble_steps, assembled, claimed_part, claims_hold, move_steps, ClaimView,
};
use crate::cas::model::{
    after_swap, clears_away, complete, effect, left_behind, lemma_after_swap_sound,
    lemma_reclaim_steps, lemma_run_concat, lemma_run_keeps, lemma_run_prefix, lemma_tail_steps,
    object_bytes, reaches, run, sound, step_effect, undone, with_live, Disk, RefContent,
};
use crate::cas::model::commit_head;
use crate::cas::objects::stage_steps;
use crate::cas::parts::{part_at, ref_name, ref_tmp_name, table_blobs};
use crate::cas::records::{JournalView, PartRefFileView};
use crate::cas::store::reclaim_steps;
use crate::manifest::ManifestView;

use crate::cas::uploads::{install_steps, reverted_steps, PartUpload};
use crate::plan::call::{CallView, StoredRef};
use crate::plan::place::Place;
use crate::plan::runner::{may, StepView};
use crate::reader::body_from;
use crate::types::{IoError, StorageError};

verus! {

/// A step that leaves no call behind and forgets none.
spec fn plain(step: StepView) -> bool {
    step is Do || step is Ask || step is Fail || step is Finish || step is Reset
}

/// Calls that were left behind earlier stay, as long as no step forgets one.
proof fn lemma_left_behind_concat(before: Seq<CallView>, a: Seq<StepView>, b: Seq<StepView>)
    ensures
        left_behind(before, a + b) == left_behind(left_behind(before, a), b),
    decreases b.len(),
{
    if b.len() == 0 {
        assert(a + b =~= a);
    } else {
        assert((a + b).drop_last() =~= a + b.drop_last());
        lemma_left_behind_concat(before, a, b.drop_last());
    }
}

/// Steps that only add calls add the same ones whatever was left behind before.
proof fn lemma_left_behind_adds(before: Seq<CallView>, steps: Seq<StepView>)
    requires
        forall|i: int| 0 <= i < steps.len() ==> plain(#[trigger] steps[i]) || steps[i] is Defer,
    ensures
        left_behind(before, steps) == before + left_behind(Seq::empty(), steps),
    decreases steps.len(),
{
    if steps.len() == 0 {
        assert(before + Seq::<CallView>::empty() =~= before);
    } else {
        let front = steps.drop_last();
        assert forall|i: int| 0 <= i < front.len() implies plain(#[trigger] front[i])
            || front[i] is Defer by {
            assert(front[i] == steps[i]);
        }
        lemma_left_behind_adds(before, front);
        assert(plain(steps[steps.len() - 1]) || steps[steps.len() - 1] is Defer);
        if let StepView::Defer { call } = steps.last() {
            assert(before + left_behind(Seq::empty(), front).push(call) =~= (before + left_behind(
                Seq::empty(),
                front,
            )).push(call));
        }
    }
}

/// What was left behind first is made last.
proof fn lemma_undone_first(d: Disk, first: CallView, rest: Seq<CallView>)
    ensures
        undone(d, seq![first] + rest) == effect(undone(d, rest), first),
    decreases rest.len(),
{
    let all = seq![first] + rest;
    if rest.len() == 0 {
        assert(all.drop_last() =~= Seq::empty());
        assert(undone(effect(d, first), all.drop_last()) == effect(d, first));
    } else {
        assert(all.drop_last() =~= seq![first] + rest.drop_last());
        lemma_undone_first(effect(d, rest.last()), first, rest.drop_last());
    }
}

/// The ids that the blobs get are new: no two are the same, no blob has one yet, and no part
/// record names one.
pub open spec fn fresh_ids(
    d: Disk,
    claims: Seq<ClaimView>,
    table: Seq<PartRefFileView>,
) -> bool {
    &&& forall|i: int, j: int|
        0 <= i < j < claims.len() ==> (#[trigger] claims[i]).blob_id != (
        #[trigger] claims[j]).blob_id
    &&& forall|i: int| 0 <= i < claims.len() ==> !d.blobs.contains_key((#[trigger] claims[i]).blob_id)
    &&& forall|i: int|
        0 <= i < claims.len() ==> !table_blobs(table).contains((#[trigger] claims[i]).blob_id)
}

/// The part of a claim stands in the table.
pub proof fn lemma_part_at(table: Seq<PartRefFileView>, n: int)
    ensures
        part_at(table, n) matches Some(p) ==> table.contains(p) && table_blobs(table).contains(
            p.blob_id,
        ),
    decreases table.len(),
{
    if table.len() > 0 {
        let blobs = table_blobs(table);
        if table.last().part_number == n {
            assert(table[table.len() - 1] == table.last());
            assert(blobs[table.len() - 1] == table.last().blob_id);
        } else {
            let front = table.drop_last();
            lemma_part_at(front, n);
            if let Some(p) = part_at(front, n) {
                let i = choose|i: int| 0 <= i < front.len() && front[i] == p;
                assert(table[i] == p);
                assert(blobs[i] == p.blob_id);
            }
        }
    }
}

/// The steps of an assembly leave calls behind but forget none.
proof fn lemma_assemble_kinds(
    claims: Seq<ClaimView>,
    table: Seq<PartRefFileView>,
    total: int,
    fsync: bool,
)
    ensures
        forall|i: int|
            0 <= i < assemble_steps(claims, table, total, fsync).len() ==> plain(
                #[trigger] assemble_steps(claims, table, total, fsync)[i],
            ) || assemble_steps(claims, table, total, fsync)[i] is Defer,
    decreases claims.len(),
{
    if claims.len() > 0 {
        if let Some(p) = claimed_part(claims[0], table) {
            lemma_assemble_kinds(claims.skip(1), table, total + p.size, fsync);
            let all = assemble_steps(claims, table, total, fsync);
            let m = move_steps(p, claims[0].blob_id, fsync);
            let rest = all.skip(m.len() as int);
            assert forall|i: int| 0 <= i < all.len() implies plain(#[trigger] all[i])
                || all[i] is Defer by {
                if i >= m.len() {
                    assert(all[i] == rest[i - m.len()]);
                    if is_hex_and_fits(p, total) {
                        assert(rest =~= assemble_steps(
                            claims.skip(1),
                            table,
                            total + p.size,
                            fsync,
                        ));
                    } else {
                        assert(rest =~= seq![StepView::Fail { error: StorageError::InvalidPart }]);
                    }
                } else {
                    assert(all[i] == m[i]);
                }
            }
        }
    }
}

pub open spec fn is_hex_and_fits(p: PartRefFileView, total: int) -> bool {
    crate::outside::is_hex_text(p.md5_hex) && total + p.size <= u64::MAX
}

/// A completion that fails while the blobs are moved, and is undone, leaves the bucket as it was:
/// the upload can be completed again.
pub proof fn failed_assembly_is_undone(
    d: Disk,
    claims: Seq<ClaimView>,
    table: Seq<PartRefFileView>,
    total: int,
    fsync: bool,
    done: Seq<bool>,
    k: int,
)
    requires
        fresh_ids(d, claims, table),
        ({
            let steps = assemble_steps(claims, table, total, fsync);
            &&& reaches(steps, done, k)
            &&& done.len() >= steps.len()
            &&& k < steps.len() ==> !(steps[k] is Defer)
        }),
    ensures
        ({
            let steps = assemble_steps(claims, table, total, fsync).take(k);
            undone(run(d, steps, done), left_behind(Seq::empty(), steps)) == d
        }),
    decreases claims.len(), 1int,
{
    let all = assemble_steps(claims, table, total, fsync);
    let steps = all.take(k);
    lemma_assemble_kinds(claims, table, total, fsync);
    if claims.len() == 0 {
        assert(steps =~= Seq::empty());
    } else {
        match claimed_part(claims[0], table) {
            None => {
                assert(all.len() == 1);
                if k == 1 {
                    assert(steps =~= all);
                    assert(all.drop_last() =~= Seq::empty());
                    assert(left_behind(Seq::empty(), all.drop_last()) =~= Seq::empty());
                    assert(run(d, all.drop_last(), done) == d);
                    assert(left_behind(Seq::empty(), all) =~= Seq::empty());
                } else {
                    assert(steps =~= Seq::empty());
                }
            },
            Some(p) => {
                lemma_move_undone(d, claims, table, total, fsync, done, k, p);
            },
        }
    }
}

/// The first move of an assembly, and what follows it.
proof fn lemma_move_undone(
    d: Disk,
    claims: Seq<ClaimView>,
    table: Seq<PartRefFileView>,
    total: int,
    fsync: bool,
    done: Seq<bool>,
    k: int,
    p: PartRefFileView,
)
    requires
        claims.len() > 0,
        claimed_part(claims[0], table) == Some(p),
        fresh_ids(d, claims, table),
        ({
            let steps = assemble_steps(claims, table, total, fsync);
            &&& reaches(steps, done, k)
            &&& done.len() >= steps.len()
            &&& k < steps.len() ==> !(steps[k] is Defer)
        }),
    ensures
        ({
            let steps = assemble_steps(claims, table, total, fsync).take(k);
            undone(run(d, steps, done), left_behind(Seq::empty(), steps)) == d
        }),
    decreases claims.len(), 0int,
{
    let all = assemble_steps(claims, table, total, fsync);
    let f = claims[0].blob_id;
    let m = move_steps(p, f, fsync);
    let rest = if is_hex_and_fits(p, total) {
        assemble_steps(claims.skip(1), table, total + p.size, fsync)
    } else {
        seq![StepView::Fail { error: StorageError::InvalidPart }]
    };
    assert(all == m + rest);
    let there = CallView::Move { src: Place::Blob { id: p.blob_id }, dst: Place::Blob { id: f } };
    let back = CallView::Move { src: Place::Blob { id: f }, dst: Place::Blob { id: p.blob_id } };
    lemma_part_at(table, claims[0].part_number as int);
    assert(p.blob_id != f);
    let x = effect(d, there);
    assert(effect(x, back) == d) by {
        assert(!d.blobs.contains_key(f));
        if d.blobs.contains_key(p.blob_id) {
            assert(x.blobs.remove(f).insert(p.blob_id, x.blobs[f]) =~= d.blobs);
        }
    }
    let steps = all.take(k);
    let n = if k <= m.len() {
        k
    } else {
        m.len() as int
    };
    lemma_first_moves(d, p, f, fsync, done, n);
    if k <= m.len() {
        assert(steps =~= m.take(k));
        if k >= 3 {
            assert(undone(x, seq![back]) == effect(x, back)) by {
                assert(seq![back].drop_last() =~= Seq::empty());
                assert(undone(effect(x, back), Seq::empty()) == effect(x, back));
            }
        } else {
            assert(k != 2) by {
                assert(all[2] == m[2]);
            }
        }
    } else {
        assert(m.take(m.len() as int) =~= m);
        assert(done[1]) by {
            assert(all[1] == m[1]);
        }
        let late = rest.take(k - m.len());
        let more = done.skip(m.len() as int);
        lemma_run_prefix(d, m, rest, done, k);
        assert(steps =~= m + late);
        lemma_left_behind_concat(Seq::empty(), m, late);
        lemma_assemble_kinds(claims, table, total, fsync);
        assert forall|i: int| 0 <= i < late.len() implies plain(#[trigger] late[i])
            || late[i] is Defer by {
            assert(late[i] == all[m.len() + i]);
        }
        lemma_left_behind_adds(seq![back], late);
        let u = left_behind(Seq::empty(), late);
        lemma_undone_first(run(x, late, more), back, u);
        if is_hex_and_fits(p, total) {
            let others = claims.skip(1);
            assert(fresh_ids(x, others, table)) by {
                assert forall|i: int| 0 <= i < others.len() implies !x.blobs.contains_key(
                    (#[trigger] others[i]).blob_id,
                ) by {
                    assert(others[i] == claims[i + 1]);
                    assert(claims[0].blob_id != claims[i + 1].blob_id);
                }
                assert forall|i: int, j: int| 0 <= i < j < others.len() implies (
                #[trigger] others[i]).blob_id != (#[trigger] others[j]).blob_id by {
                    assert(others[i] == claims[i + 1]);
                    assert(others[j] == claims[j + 1]);
                }
                assert forall|i: int| 0 <= i < others.len() implies !table_blobs(table).contains(
                    (#[trigger] others[i]).blob_id,
                ) by {
                    assert(others[i] == claims[i + 1]);
                }
            }
            assert(reaches(rest, more, k - m.len())) by {
                assert forall|i: int|
                    0 <= i < k - m.len() && crate::cas::model::has_to_succeed(
                        #[trigger] rest[i],
                    ) implies more[i] by {
                    assert(all[m.len() + i] == rest[i]);
                }
            }
            assert(k < all.len() ==> all[k] == rest[k - m.len()]);
            failed_assembly_is_undone(
                x,
                others,
                table,
                total + p.size,
                fsync,
                more,
                k - m.len(),
            );
        } else {
            assert(late =~= rest);
            assert(late.drop_last() =~= Seq::empty());
            assert(left_behind(Seq::empty(), late.drop_last()) =~= Seq::empty());
            assert(run(x, late.drop_last(), more) == x);
            assert(u =~= Seq::empty());
            assert(run(x, late, more) == x);
            assert(undone(x, u) == x);
        }
    }
}

/// The steps of one move.
proof fn lemma_first_moves(
    d: Disk,
    p: PartRefFileView,
    f: Seq<char>,
    fsync: bool,
    done: Seq<bool>,
    n: int,
)
    requires
        0 <= n <= move_steps(p, f, fsync).len() <= done.len(),
    ensures
        ({
            let m = move_steps(p, f, fsync).take(n);
            let there = CallView::Move {
                src: Place::Blob { id: p.blob_id },
                dst: Place::Blob { id: f },
            };
            let back = CallView::Move {
                src: Place::Blob { id: f },
                dst: Place::Blob { id: p.blob_id },
            };
            &&& run(d, m, done) == (if n >= 2 && done[1] {
                effect(d, there)
            } else {
                d
            })
            &&& left_behind(Seq::empty(), m) == (if n >= 3 {
                seq![back]
            } else {
                Seq::empty()
            })
        }),
    decreases n,
{
    let all = move_steps(p, f, fsync);
    let m = all.take(n);
    if n > 0 {
        lemma_first_moves(d, p, f, fsync, done, n - 1);
        assert(m.drop_last() =~= all.take(n - 1));
        assert(m.last() == all[n - 1]);
        if n == 3 {
            assert(left_behind(Seq::empty(), m) =~= seq![
                CallView::Move { src: Place::Blob { id: f }, dst: Place::Blob { id: p.blob_id } },
            ]);
        }
    } else {
        assert(m =~= Seq::empty());
    }
}

/// The calls of two lists are made one list after the other.
proof fn lemma_undone_concat(d: Disk, a: Seq<CallView>, b: Seq<CallView>)
    ensures
        undone(d, a + b) == undone(undone(d, b), a),
    decreases b.len(),
{
    if b.len() == 0 {
        assert(a + b =~= a);
    } else {
        assert((a + b).drop_last() =~= a + b.drop_last());
        lemma_undone_concat(effect(d, b.last()), a, b.drop_last());
    }
}

/// The removal of a staged manifest or of a journal.
pub open spec fn is_removal(call: CallView) -> bool {
    call matches CallView::RemoveFile { at } && (at is Staged || at is Journal)
}

/// Such removals change neither blobs nor part records nor live versions.
proof fn lemma_removals(d: Disk, calls: Seq<CallView>)
    requires
        forall|i: int| 0 <= i < calls.len() ==> is_removal(#[trigger] calls[i]),
    ensures
        undone(d, calls).blobs == d.blobs,
        undone(d, calls).refs == d.refs,
        undone(d, calls).live == d.live,
    decreases calls.len(),
{
    if calls.len() > 0 {
        assert(is_removal(calls[calls.len() - 1]));
        lemma_removals(effect(d, calls.last()), calls.drop_last());
    }
}

/// The move of a blob.
pub open spec fn is_move(call: CallView) -> bool {
    call matches CallView::Move { src, dst } && src is Blob && dst is Blob
}

/// Moves of blobs do to the blobs what they do, whatever else the bucket holds.
proof fn lemma_moves_undone(a: Disk, b: Disk, calls: Seq<CallView>)
    requires
        a.blobs == b.blobs,
        forall|i: int| 0 <= i < calls.len() ==> is_move(#[trigger] calls[i]),
    ensures
        undone(a, calls).blobs == undone(b, calls).blobs,
        undone(a, calls).refs == a.refs,
        undone(a, calls).live == a.live,
    decreases calls.len(),
{
    if calls.len() > 0 {
        assert(is_move(calls[calls.len() - 1]));
        lemma_moves_undone(
            effect(a, calls.last()),
            effect(b, calls.last()),
            calls.drop_last(),
        );
    }
}

/// An assembly leaves nothing behind but moves.
proof fn lemma_assembly_leaves_moves(
    claims: Seq<ClaimView>,
    table: Seq<PartRefFileView>,
    total: int,
    fsync: bool,
)
    ensures
        forall|i: int|
            0 <= i < left_behind(
                Seq::empty(),
                assemble_steps(claims, table, total, fsync),
            ).len() ==> is_move(
                #[trigger] left_behind(
                    Seq::empty(),
                    assemble_steps(claims, table, total, fsync),
                )[i],
            ),
    decreases claims.len(),
{
    let all = assemble_steps(claims, table, total, fsync);
    lemma_assemble_kinds(claims, table, total, fsync);
    if claims.len() > 0 {
        match claimed_part(claims[0], table) {
            None => {
                assert(all.drop_last() =~= Seq::empty());
                assert(left_behind(Seq::empty(), all.drop_last()) =~= Seq::empty());
                assert(left_behind(Seq::empty(), all) =~= Seq::empty());
            },
            Some(p) => {
                let f = claims[0].blob_id;
                let m = move_steps(p, f, fsync);
                let rest = all.skip(m.len() as int);
                assert(all =~= m + rest);
                let any = Disk {
                    live: Map::empty(),
                    staged: Map::empty(),
                    journals: Map::empty(),
                    blobs: Map::empty(),
                    refs: Map::empty(),
                };
                lemma_first_moves(
                    any,
                    p,
                    f,
                    fsync,
                    Seq::new(m.len(), |i: int| true),
                    m.len() as int,
                );
                assert(m.take(m.len() as int) =~= m);
                lemma_left_behind_concat(Seq::empty(), m, rest);
                assert forall|i: int| 0 <= i < rest.len() implies plain(#[trigger] rest[i])
                    || rest[i] is Defer by {
                    assert(rest[i] == all[m.len() + i]);
                }
                lemma_left_behind_adds(left_behind(Seq::empty(), m), rest);
                if is_hex_and_fits(p, total) {
                    lemma_assembly_leaves_moves(claims.skip(1), table, total + p.size, fsync);
                    assert(rest =~= assemble_steps(
                        claims.skip(1),
                        table,
                        total + p.size,
                        fsync,
                    ));
                } else {
                    assert(rest =~= seq![StepView::Fail { error: StorageError::InvalidPart }]);
                    assert(rest.drop_last() =~= Seq::empty());
                    assert(left_behind(Seq::empty(), rest.drop_last()) =~= Seq::empty());
                    assert(left_behind(Seq::empty(), rest) =~= Seq::empty());
                }
            },
        }
    } else {
        assert(left_behind(Seq::empty(), all) =~= Seq::empty());
    }
}

/// What stands between the assembly and the swap: the version is staged, the journal is written.
pub open spec fn preparing_steps(
    m: ManifestView,
    staged: Seq<char>,
    name: Seq<char>,
    tmp: Seq<char>,
    journal: Option<JournalView>,
    fsync: bool,
) -> Seq<StepView> {
    stage_steps(m, staged, fsync) + commit_head(m.key, name, tmp, journal, fsync)
}

/// How many calls the first `k` steps of the preparation leave behind.
spec fn prepared(journal: Option<JournalView>, k: int) -> int {
    if k < 2 {
        0
    } else if journal is Some && 4 <= k < 7 {
        2
    } else {
        1
    }
}

/// The preparation changes neither blobs nor part records nor live versions, and leaves only
/// removals behind.
proof fn lemma_preparing(
    d: Disk,
    before: Seq<CallView>,
    m: ManifestView,
    staged: Seq<char>,
    name: Seq<char>,
    tmp: Seq<char>,
    journal: Option<JournalView>,
    fsync: bool,
    done: Seq<bool>,
    k: int,
)
    requires
        0 <= k <= preparing_steps(m, staged, name, tmp, journal, fsync).len(),
    ensures
        ({
            let steps = preparing_steps(m, staged, name, tmp, journal, fsync).take(k);
            let x = run(d, steps, done);
            let u = left_behind(before, steps);
            &&& x.blobs == d.blobs
            &&& x.refs == d.refs
            &&& x.live == d.live
            &&& u.len() == before.len() + prepared(journal, k)
            &&& u.take(before.len() as int) == before
            &&& forall|i: int| before.len() <= i < u.len() ==> is_removal(#[trigger] u[i])
        }),
    decreases k,
{
    let all = preparing_steps(m, staged, name, tmp, journal, fsync);
    let steps = all.take(k);
    if k > 0 {
        lemma_preparing(d, before, m, staged, name, tmp, journal, fsync, done, k - 1);
        assert(steps.drop_last() =~= all.take(k - 1));
        assert(steps.last() == all[k - 1]);
        let early = left_behind(before, all.take(k - 1));
        let u = left_behind(before, steps);
        assert(u.take(before.len() as int) =~= before) by {
            assert forall|i: int| 0 <= i < before.len() implies u[i] == before[i] by {
                assert(early.take(before.len() as int)[i] == before[i]);
            }
        }
        assert forall|i: int| before.len() <= i < u.len() implies is_removal(#[trigger] u[i]) by {
            if i < early.len() {
                assert(is_removal(early[i]));
            }
        }
    } else {
        assert(steps =~= Seq::empty());
        assert(before.take(before.len() as int) =~= before);
    }
}

/// A completion that fails at any point before the swap, and is undone, leaves every blob, every
/// part record and every live version as it was: the upload can be completed again.
pub proof fn failed_completion_keeps_the_upload(
    d: Disk,
    claims: Seq<ClaimView>,
    table: Seq<PartRefFileView>,
    m: ManifestView,
    staged: Seq<char>,
    name: Seq<char>,
    tmp: Seq<char>,
    journal: Option<JournalView>,
    fsync: bool,
    done: Seq<bool>,
    k: int,
)
    requires
        fresh_ids(d, claims, table),
        ({
            let steps = assemble_steps(claims, table, 0, fsync) + preparing_steps(
                m,
                staged,
                name,
                tmp,
                journal,
                fsync,
            );
            &&& reaches(steps, done, k)
            &&& done.len() >= steps.len()
            &&& k < steps.len() ==> !(steps[k] is Defer)
        }),
    ensures
        ({
            let steps = (assemble_steps(claims, table, 0, fsync) + preparing_steps(
                m,
                staged,
                name,
                tmp,
                journal,
                fsync,
            )).take(k);
            let x = undone(run(d, steps, done), left_behind(Seq::empty(), steps));
            x.blobs == d.blobs && x.refs == d.refs && x.live == d.live
        }),
{
    let a = assemble_steps(claims, table, 0, fsync);
    let b = preparing_steps(m, staged, name, tmp, journal, fsync);
    let steps = (a + b).take(k);
    let n = if k <= a.len() {
        k
    } else {
        a.len() as int
    };
    assert(reaches(a, done, n)) by {
        assert forall|i: int| 0 <= i < n && crate::cas::model::has_to_succeed(#[trigger] a[i]) implies
            done[i] by {
            assert((a + b)[i] == a[i]);
        }
    }
    assert(n < a.len() ==> a[n] == (a + b)[n]);
    failed_assembly_is_undone(d, claims, table, 0, fsync, done, n);
    if k <= a.len() {
        assert(steps =~= a.take(k));
    } else {
        assert(a.take(a.len() as int) =~= a);
        let late = b.take(k - a.len());
        let more = done.skip(a.len() as int);
        assert(steps =~= a + late);
        lemma_run_prefix(d, a, b, done, k);
        let x = run(d, a, done);
        let u = left_behind(Seq::empty(), a);
        lemma_left_behind_concat(Seq::empty(), a, late);
        lemma_preparing(x, u, m, staged, name, tmp, journal, fsync, more, k - a.len());
        let z = run(x, late, more);
        let w = left_behind(u, late);
        let q = w.skip(u.len() as int);
        assert(w =~= u + q) by {
            assert(w.take(u.len() as int) == u);
        }
        lemma_undone_concat(z, u, q);
        assert forall|i: int| 0 <= i < q.len() implies is_removal(#[trigger] q[i]) by {
            assert(is_removal(w[u.len() + i]));
        }
        lemma_removals(z, q);
        lemma_assembly_leaves_moves(claims, table, 0, fsync);
        lemma_moves_undone(undone(z, q), x, u);
        lemma_moves_undone(x, x, u);
    }
}

/// No part record of the table names a blob of a live version.
pub open spec fn parts_apart(d: Disk, table: Seq<PartRefFileView>) -> bool {
    forall|key: Seq<char>, b: Seq<char>|
        d.live.contains_key(key) && #[trigger] d.live[key].blobs().contains(b) ==> !table_blobs(
            table,
        ).contains(b)
}

/// A completion gives the object blobs that no part record of the upload names. What is left of
/// the upload, even where it is never removed, names no blob of a live version.
pub proof fn completed_object_is_apart_from_its_upload(
    d: Disk,
    key: Seq<char>,
    claims: Seq<ClaimView>,
    table: Seq<PartRefFileView>,
    m: ManifestView,
)
    requires
        parts_apart(d, table),
        fresh_ids(d, claims, table),
        m.parts == assembled(claims, table),
    ensures
        parts_apart(with_live(d, key, m), table),
{
    let goal = with_live(d, key, m);
    assert forall|k: Seq<char>, b: Seq<char>|
        goal.live.contains_key(k) && #[trigger] goal.live[k].blobs().contains(b) implies !table_blobs(
        table,
    ).contains(b) by {
        if k == key {
            let i = choose|i: int| 0 <= i < m.blobs().len() && m.blobs()[i] == b;
            assert(claims[i].blob_id == b);
        } else {
            assert(d.live[k].blobs().contains(b));
        }
    }
}

/// Giving up an upload whose part records name no blob of a live version, up to any point, takes
/// nothing from a live version.
pub proof fn abort_keeps_live_objects(
    d: Disk,
    table: Seq<PartRefFileView>,
    done: Seq<bool>,
    k: int,
)
    requires
        sound(d),
        parts_apart(d, table),
        0 <= k <= reclaim_steps(table_blobs(table), may()).len(),
    ensures
        ({
            let x = run(d, reclaim_steps(table_blobs(table), may()).take(k), done);
            sound(x) && x.live == d.live
        }),
{
    let all = reclaim_steps(table_blobs(table), may());
    let steps = all.take(k);
    let gone = table_blobs(table);
    lemma_reclaim_steps(gone, may());
    assert forall|i: int| 0 <= i < steps.len() implies clears_away(#[trigger] steps[i], gone) by {
        assert(steps[i] == all[i]);
    }
    assert(after_swap(d, d, d, gone));
    lemma_tail_steps(d, d, d, steps, gone, done);
    lemma_after_swap_sound(d, d, run(d, steps, done), gone);
}

/// While a part is stored, its record is at every point the old one or the new one. As long as it
/// is the old one no blob is gone, and when it is the new one the blob that it names is there.
pub proof fn part_is_replaced_in_one_step(
    d: Disk,
    id: Seq<char>,
    name: Seq<char>,
    tmp: Seq<char>,
    record: PartRefFileView,
    stale: Seq<Seq<char>>,
    fsync: bool,
    done: Seq<bool>,
    k: int,
)
    requires
        name != tmp,
        d.blobs.contains_key(record.blob_id),
        !stale.contains(record.blob_id),
        ({
            let steps = install_steps(id, tmp, name, record, fsync) + reclaim_steps(stale, may());
            reaches(steps, done, k) && done.len() >= steps.len()
        }),
    ensures
        ({
            let steps = install_steps(id, tmp, name, record, fsync) + reclaim_steps(stale, may());
            let x = run(d, steps.take(k), done);
            let at = (id, name);
            ||| x.blobs == d.blobs && x.refs.contains_key(at) == d.refs.contains_key(at)
                && x.refs[at] == d.refs[at]
            ||| x.refs.contains_key(at) && x.refs[at] == RefContent::Record(record)
                && x.blobs.contains_key(record.blob_id) && x.blobs[record.blob_id]
                == d.blobs[record.blob_id]
        }),
{
    let install = install_steps(id, tmp, name, record, fsync);
    let reclaim = reclaim_steps(stale, may());
    let steps = install + reclaim;
    let n = if k <= 4 {
        k
    } else {
        4
    };
    lemma_run_prefix(d, install, reclaim, done, k);
    let y1 = run(d, install.take(1), done);
    let y2 = run(d, install.take(2), done);
    let y3 = run(d, install.take(3), done);
    let y4 = run(d, install.take(4), done);
    assert(install.take(0) =~= Seq::empty());
    assert(run(d, install.take(0), done) == d);
    assert(install.take(1).drop_last() =~= install.take(0));
    assert(install.take(2).drop_last() =~= install.take(1));
    assert(install.take(3).drop_last() =~= install.take(2));
    assert(install.take(4).drop_last() =~= install.take(3));
    assert(install.take(4) =~= install);
    assert(y1 == d);
    if k > 1 {
        assert(done[1]) by {
            assert(steps[1] == install[1]);
        }
    }
    if k > 2 {
        assert(done[2]) by {
            assert(steps[2] == install[2]);
        }
        assert(y2.refs == d.refs.insert((id, tmp), RefContent::Record(record)));
        assert(y3.refs[(id, name)] == RefContent::Record(record));
        assert(y4 == y3);
    }
    if k > 4 {
        let late = reclaim.take(k - 4);
        let more = done.skip(4);
        let keep = |z: Disk|
            z.refs == y4.refs && z.blobs.contains_key(record.blob_id) && z.blobs[record.blob_id]
                == d.blobs[record.blob_id];
        lemma_reclaim_steps(stale, may());
        assert forall|z: Disk, i: int| 0 <= i < late.len() && #[trigger] keep(z) implies keep(
            step_effect(z, #[trigger] late[i]),
        ) by {
            assert(late[i] == reclaim[i]);
        }
        lemma_run_keeps(y4, late, more, keep);
    }
}

/// When the record of a replaced part cannot be made durable, it is at every point of the way back
/// the new one or the old bytes. The blob of the new one is there as long as it is the new one, and
/// no other blob is touched.
pub proof fn part_is_restored_in_one_step(
    d: Disk,
    part: PartUpload,
    previous: StoredRef,
    e: IoError,
    fsync: bool,
    done: Seq<bool>,
    k: int,
)
    requires
        ({
            let at = (part.upload_id@, ref_name(part.part_number as int));
            d.refs.contains_key(at)
        }),
        d.blobs.contains_key(part.blob_id@),
        ({
            let steps = reverted_steps(part, Some(previous), e, fsync);
            reaches(steps, done, k) && done.len() >= steps.len()
        }),
    ensures
        ({
            let steps = reverted_steps(part, Some(previous), e, fsync);
            let x = run(d, steps.take(k), done);
            let at = (part.upload_id@, ref_name(part.part_number as int));
            &&& x.refs.contains_key(at)
            &&& x.refs[at] == d.refs[at] && x.blobs == d.blobs || x.refs[at] == RefContent::Bytes(
                previous.bytes@,
            )
            &&& x.blobs == d.blobs || x.blobs == d.blobs.remove(part.blob_id@)
        }),
{
    let all = reverted_steps(part, Some(previous), e, fsync);
    let id = part.upload_id@;
    let at = ref_name(part.part_number as int);
    let tmp = ref_tmp_name(part.part_number as int, part.restore_tmp@);
    assert(at != tmp) by {
        reveal_strlit(".ref");
        reveal_strlit(".ref.tmp.");
        assert(at.len() < tmp.len());
    }
    let y2 = run(d, all.take(2), done);
    let y3 = run(d, all.take(3), done);
    let y4 = run(d, all.take(4), done);
    let y5 = run(d, all.take(5), done);
    let y6 = run(d, all.take(6), done);
    let y7 = run(d, all.take(7), done);
    assert(all.take(0) =~= Seq::empty());
    assert(run(d, all.take(0), done) == d);
    assert(all.take(1).drop_last() =~= all.take(0));
    assert(run(d, all.take(1), done) == d);
    assert(all.take(2).drop_last() =~= all.take(1));
    assert(all.take(3).drop_last() =~= all.take(2));
    assert(all.take(4).drop_last() =~= all.take(3));
    assert(all.take(5).drop_last() =~= all.take(4));
    assert(all.take(6).drop_last() =~= all.take(5));
    assert(all.take(7).drop_last() =~= all.take(6));
    assert(y2 == d);
    if k > 2 {
        assert(crate::cas::model::has_to_succeed(all[2]));
        assert(done[2]);
        assert(y3.refs == d.refs.insert((id, tmp), RefContent::Bytes(previous.bytes@)));
    }
    if k > 3 {
        assert(crate::cas::model::has_to_succeed(all[3]));
        assert(done[3]);
        assert(y4.refs[(id, at)] == RefContent::Bytes(previous.bytes@));
        assert(y5 == y4);
    }
}

/// The steps of an assembly whose claims hold: those of the first move, then those of the others.
proof fn lemma_assembly_first(
    claims: Seq<ClaimView>,
    table: Seq<PartRefFileView>,
    total: int,
    fsync: bool,
)
    requires
        claims.len() > 0,
        assembly_holds(claims, table, total),
    ensures
        ({
            let p = claimed_part(claims[0], table)->0;
            &&& claimed_part(claims[0], table) == Some(p)
            &&& assembly_holds(claims.skip(1), table, total + p.size)
            &&& assemble_steps(claims, table, total, fsync) == move_steps(
                p,
                claims[0].blob_id,
                fsync,
            ) + assemble_steps(claims.skip(1), table, total + p.size, fsync)
        }),
{
}

/// The claims hold, from a running total on.
pub open spec fn assembly_holds(claims: Seq<ClaimView>, table: Seq<PartRefFileView>, total: int) -> bool
    decreases claims.len(),
{
    claims.len() > 0 ==> (claimed_part(claims[0], table) matches Some(p) && is_hex_and_fits(p, total)
        && assembly_holds(claims.skip(1), table, total + p.size))
}

/// Claims that hold all together hold one after the other.
pub proof fn lemma_claims_hold(claims: Seq<ClaimView>, table: Seq<PartRefFileView>, i: int)
    requires
        claims_hold(claims, table),
        0 <= i <= claims.len(),
    ensures
        assembly_holds(
            claims.skip(i),
            table,
            crate::cas::complete::total_size(assembled(claims, table).take(i)),
        ),
    decreases claims.len() - i,
{
    let want = assembled(claims, table);
    if i < claims.len() {
        lemma_claims_hold(claims, table, i + 1);
        assert(claims.skip(i)[0] == claims[i]);
        assert(claims.skip(i).skip(1) =~= claims.skip(i + 1));
        assert(want.take(i + 1).drop_last() =~= want.take(i));
        assert(want.take(i + 1).last() == want[i]);
        crate::cas::complete::lemma_total_size(want, i + 1);
    }
}

/// Each blob of a claimed part is there, and no two claims are for the same blob.
pub open spec fn parts_there(
    d: Disk,
    claims: Seq<ClaimView>,
    table: Seq<PartRefFileView>,
) -> bool {
    &&& forall|i: int|
        0 <= i < claims.len() ==> d.blobs.contains_key(
            claimed_part(#[trigger] claims[i], table)->0.blob_id,
        )
    &&& forall|i: int, j: int|
        0 <= i < j < claims.len() ==> claimed_part(#[trigger] claims[i], table)->0.blob_id
            != claimed_part(#[trigger] claims[j], table)->0.blob_id
}

/// An assembly that goes through moves the bytes of each claimed part to the new id of its claim,
/// and touches no other blob.
pub proof fn lemma_assembly_moves(
    d: Disk,
    claims: Seq<ClaimView>,
    table: Seq<PartRefFileView>,
    total: int,
    fsync: bool,
    done: Seq<bool>,
)
    requires
        assembly_holds(claims, table, total),
        fresh_ids(d, claims, table),
        parts_there(d, claims, table),
        ({
            let steps = assemble_steps(claims, table, total, fsync);
            reaches(steps, done, steps.len() as int) && done.len() >= steps.len()
        }),
    ensures
        ({
            let x = run(d, assemble_steps(claims, table, total, fsync), done);
            &&& forall|i: int|
                0 <= i < claims.len() ==> x.blobs.contains_key((#[trigger] claims[i]).blob_id)
                    && x.blobs[claims[i].blob_id] == d.blobs[claimed_part(
                    claims[i],
                    table,
                )->0.blob_id]
            &&& forall|b: Seq<char>|
                d.blobs.contains_key(b) && !table_blobs(table).contains(b)
                    ==> #[trigger] x.blobs.contains_key(b) && x.blobs[b] == d.blobs[b]
            &&& x.live == d.live
            &&& x.staged == d.staged
            &&& x.journals == d.journals
            &&& x.refs == d.refs
        }),
    decreases claims.len(),
{
    let all = assemble_steps(claims, table, total, fsync);
    if claims.len() > 0 {
        lemma_assembly_first(claims, table, total, fsync);
        let p = claimed_part(claims[0], table)->0;
        let f = claims[0].blob_id;
        let m = move_steps(p, f, fsync);
        let others = claims.skip(1);
        let rest = assemble_steps(others, table, total + p.size, fsync);
        lemma_part_at(table, claims[0].part_number as int);
        let there = CallView::Move {
            src: Place::Blob { id: p.blob_id },
            dst: Place::Blob { id: f },
        };
        lemma_first_moves(d, p, f, fsync, done, m.len() as int);
        assert(m.take(m.len() as int) =~= m);
        assert(done[1]) by {
            assert(all[1] == m[1]);
        }
        let x = effect(d, there);
        let more = done.skip(m.len() as int);
        lemma_run_concat(d, m, rest, done);
        assert forall|i: int| 0 <= i < others.len() implies #[trigger] others[i] == claims[i + 1] by {}
        assert(fresh_ids(x, others, table)) by {
            assert forall|i: int| 0 <= i < others.len() implies !x.blobs.contains_key(
                (#[trigger] others[i]).blob_id,
            ) by {
                assert(claims[0].blob_id != claims[i + 1].blob_id);
            }
            assert forall|i: int, j: int| 0 <= i < j < others.len() implies (
            #[trigger] others[i]).blob_id != (#[trigger] others[j]).blob_id by {
                assert(claims[i + 1].blob_id != claims[j + 1].blob_id);
            }
            assert forall|i: int| 0 <= i < others.len() implies !table_blobs(table).contains(
                (#[trigger] others[i]).blob_id,
            ) by {
                assert(others[i] == claims[i + 1]);
            }
        }
        assert(parts_there(x, others, table)) by {
            assert forall|i: int| 0 <= i < others.len() implies x.blobs.contains_key(
                claimed_part(#[trigger] others[i], table)->0.blob_id,
            ) by {
                assert(claimed_part(claims[0], table)->0.blob_id != claimed_part(
                    claims[i + 1],
                    table,
                )->0.blob_id);
            }
            assert forall|i: int, j: int| 0 <= i < j < others.len() implies claimed_part(
                #[trigger] others[i],
                table,
            )->0.blob_id != claimed_part(#[trigger] others[j], table)->0.blob_id by {
                assert(claimed_part(claims[i + 1], table)->0.blob_id != claimed_part(
                    claims[j + 1],
                    table,
                )->0.blob_id);
            }
        }
        assert(reaches(rest, more, rest.len() as int)) by {
            assert forall|i: int|
                0 <= i < rest.len() && crate::cas::model::has_to_succeed(
                    #[trigger] rest[i],
                ) implies more[i] by {
                assert(all[m.len() + i] == rest[i]);
            }
        }
        lemma_assembly_moves(x, others, table, total + p.size, fsync, more);
        let y = run(d, all, done);
        assert(y == run(x, rest, more));
        assert(x.blobs.contains_key(f));
        assert(!table_blobs(table).contains(f));
        assert forall|i: int| 0 <= i < claims.len() implies y.blobs.contains_key(
            (#[trigger] claims[i]).blob_id,
        ) && y.blobs[claims[i].blob_id] == d.blobs[claimed_part(claims[i], table)->0.blob_id] by {
            if i == 0 {
                assert(y.blobs.contains_key(f));
            } else {
                assert(others[i - 1] == claims[i]);
                assert(claimed_part(claims[0], table)->0.blob_id != claimed_part(
                    claims[i],
                    table,
                )->0.blob_id);
                lemma_part_at(table, claims[i].part_number as int);
                lemma_claimed(claims, table, total, i);
                assert(claimed_part(claims[i], table)->0.blob_id != f);
            }
        }
        assert forall|b: Seq<char>|
            d.blobs.contains_key(b) && !table_blobs(table).contains(b) implies
            #[trigger] y.blobs.contains_key(b) && y.blobs[b] == d.blobs[b] by {
            assert(b != p.blob_id);
            assert(b != f);
            assert(x.blobs.contains_key(b));
        }
    }
}

/// Each claim that holds has a part.
proof fn lemma_claimed(
    claims: Seq<ClaimView>,
    table: Seq<PartRefFileView>,
    total: int,
    i: int,
)
    requires
        assembly_holds(claims, table, total),
        0 <= i < claims.len(),
    ensures
        claimed_part(claims[i], table) is Some,
        part_at(table, claims[i].part_number as int) == claimed_part(claims[i], table),
    decreases claims.len(),
{
    if i > 0 {
        let p = claimed_part(claims[0], table)->0;
        lemma_claimed(claims.skip(1), table, total + p.size, i - 1);
        assert(claims.skip(1)[i - 1] == claims[i]);
    }
}

/// The bytes of a completed object are those of the claimed parts, one after the other.
pub proof fn completed_object_is_its_parts(
    d: Disk,
    claims: Seq<ClaimView>,
    table: Seq<PartRefFileView>,
    m: ManifestView,
    fsync: bool,
    done: Seq<bool>,
)
    requires
        claims_hold(claims, table),
        fresh_ids(d, claims, table),
        parts_there(d, claims, table),
        m.parts == assembled(claims, table),
        ({
            let steps = assemble_steps(claims, table, 0, fsync);
            reaches(steps, done, steps.len() as int) && done.len() >= steps.len()
        }),
    ensures
        ({
            let x = run(d, assemble_steps(claims, table, 0, fsync), done);
            &&& object_bytes(x, m) == body_from(
                Seq::new(
                    claims.len(),
                    |i: int| d.blobs[claimed_part(claims[i], table)->0.blob_id],
                ),
                0,
            )
            &&& forall|b: Seq<char>| #[trigger] m.blobs().contains(b) ==> x.blobs.contains_key(b)
            &&& x.live == d.live
            &&& x.refs == d.refs
        }),
{
    lemma_claims_hold(claims, table, 0);
    assert(claims.skip(0) =~= claims);
    assert(assembled(claims, table).take(0) =~= Seq::empty());
    lemma_assembly_moves(d, claims, table, 0, fsync, done);
    let x = run(d, assemble_steps(claims, table, 0, fsync), done);
    let a = Seq::new(m.parts.len(), |i: int| x.blobs[m.parts[i].blob_id]);
    let b = Seq::new(
        claims.len(),
        |i: int| d.blobs[claimed_part(claims[i], table)->0.blob_id],
    );
    assert forall|i: int| 0 <= i < a.len() implies a[i] == b[i] by {
        assert(m.parts[i].blob_id == claims[i].blob_id);
    }
    assert(a =~= b);
    assert forall|id: Seq<char>| #[trigger] m.blobs().contains(id) implies x.blobs.contains_key(
        id,
    ) by {
        let i = choose|i: int| 0 <= i < m.blobs().len() && m.blobs()[i] == id;
        assert(m.parts[i].blob_id == claims[i].blob_id);
    }
}

} // verus!
