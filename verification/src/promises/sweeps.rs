//! Sweeps: what they remove, and what they keep.

use vstd::prelude::*;
use crate::cas::gc::{
    abandoned, file_name, is_orphan, manifest_files, orphan_steps, reap_steps, scan_error,
    Gathering, GatheringParts, Reaping, ReapingOne,
};
use crate::cas::objects::found;
use crate::cas::parts::{read_part_refs, table_blobs};
use crate::cas::records::{part_records, JournalMode, PartRefFile, ReclaimStats, RecoveryStats};
use crate::cas::recovery::{
    apply_steps, bucket_names, first_error, journal_cleanup, journaled_steps, names_with_suffix,
    next_journal, readable, unstage_steps, with_suffix, Applying, BucketSweep, Deciding, SweepStep,
    Sweeping,
};
use crate::cas::restart::lemma_suffix;
use crate::cas::store::{reclaim_steps, CasStore};
use crate::manifest::{decoded_key, Manifest};
use crate::outside::is_canonical_uuid;
use crate::plan::call::{
    CallView, Entry, OutcomeView, QuestionView, RefEntry, Report, UploadDir,
};
use crate::plan::place::Place;
use crate::plan::runner::{may, Counter, OnError, Plan, Rule, StepView, Tallies};
use crate::promises::buckets::{is_bucket, lemma_is_bucket};
use crate::promises::names::{
    is_proper_key, is_segment, lemma_piece_is_segment, lemma_read_back,
};
use crate::promises::objects::lemma_reclaimed;
use crate::text::{lemma_split_pieces, split, texts};
use crate::types::{IoError, IoErrorKind, StorageError};

verus! {

/// An upload that was given up: a directory with a record that can be read, which is older than the
/// limit. One whose age is not known is kept.
pub open spec fn is_abandoned(entry: Result<UploadDir, IoError>, max_age: u128) -> bool {
    entry matches Ok(d) && d.is_dir && d.readable && (d.age matches Some(a) && a > max_age)
}

pub open spec fn is_named(entries: Seq<Result<UploadDir, IoError>>, max_age: u128, id: Seq<char>) -> bool {
    exists|i: int|
        0 <= i < entries.len() && is_abandoned(#[trigger] entries[i], max_age)
            && entries[i]->Ok_0.name@ == id
}

proof fn lemma_abandoned(entries: Seq<Result<UploadDir, IoError>>, max_age: u128)
    requires
        forall|i: int| 0 <= i < entries.len() ==> #[trigger] entries[i] is Ok,
    ensures
        scan_error(entries) is None,
        forall|id: Seq<char>|
            #[trigger] abandoned(entries, max_age).contains(id) <==> is_named(entries, max_age, id),
    decreases entries.len(),
{
    let all = abandoned(entries, max_age);
    if entries.len() > 0 {
        let rest = entries.skip(1);
        assert forall|i: int| 0 <= i < rest.len() implies #[trigger] rest[i] is Ok by {
            assert(entries[i + 1] is Ok);
        }
        assert(entries[0] is Ok);
        lemma_abandoned(rest, max_age);
        let later = abandoned(rest, max_age);
        let n = if is_abandoned(entries[0], max_age) {
            1int
        } else {
            0int
        };
        assert(all.len() == n + later.len());
        assert forall|k: int| 0 <= k < later.len() implies all[n + k] == later[k] by {}
        assert forall|id: Seq<char>| #[trigger] all.contains(id) <==> is_named(entries, max_age, id) by {
            if all.contains(id) {
                let k = all.index_of(id);
                if k < n {
                    assert(entries[0]->Ok_0.name@ == id);
                } else {
                    assert(later[k - n] == id);
                    assert(later.contains(id));
                    let i = choose|i: int|
                        0 <= i < rest.len() && is_abandoned(#[trigger] rest[i], max_age)
                            && rest[i]->Ok_0.name@ == id;
                    assert(entries[i + 1] == rest[i]);
                }
            }
            if is_named(entries, max_age, id) {
                let i = choose|i: int|
                    0 <= i < entries.len() && is_abandoned(#[trigger] entries[i], max_age)
                        && entries[i]->Ok_0.name@ == id;
                if i == 0 {
                    assert(all[0] == id);
                } else {
                    assert(rest[i - 1] == entries[i]);
                    assert(later.contains(id));
                    let k = later.index_of(id);
                    assert(all[n + k] == id);
                }
            }
        }
    }
}

pub open spec fn has_text_in(list: Seq<String>, t: Seq<char>) -> bool {
    exists|k: int| 0 <= k < list.len() && (#[trigger] list[k])@ == t
}

proof fn lemma_has(list: Seq<String>, t: Seq<char>)
    ensures
        has_text_in(list, t) <==> texts(list).contains(t),
{
    if has_text_in(list, t) {
        let k = choose|k: int| 0 <= k < list.len() && (#[trigger] list[k])@ == t;
        assert(texts(list)[k] == t);
    }
    if texts(list).contains(t) {
        let k = texts(list).index_of(t);
        assert(list[k]@ == t);
    }
}

/// Exactly the uploads that were given up for longer than the limit are removed.
pub proof fn only_old_uploads_are_removed(
    reaping: Reaping,
    entries: Vec<Result<UploadDir, IoError>>,
    r: Result<(ReapingOne, Plan), StorageError>,
    id: Seq<char>,
)
    requires
        call_ensures(
            Reaping::scanned,
            (reaping, Ok::<Vec<Result<UploadDir, IoError>>, IoError>(entries)),
            r,
        ),
        forall|i: int| 0 <= i < entries@.len() ==> #[trigger] entries@[i] is Ok,
    ensures
        r matches Ok(p) && p.0.next == 0 && p.0.failure is None && (has_text_in(p.0.uploads@, id)
            <==> is_named(entries@, reaping.max_age, id)),
{
    lemma_abandoned(entries@, reaping.max_age);
    lemma_has(r->Ok_0.0.uploads@, id);
}

/// The sweep keeps the limit that it was begun with, and looks at all uploads.
pub proof fn sweep_of_uploads_keeps_its_limit(
    store: &CasStore,
    max_age: u128,
    r: (Reaping, Plan),
)
    requires
        call_ensures(CasStore::gc_abandoned_uploads_bucket, (store, max_age), r),
    ensures
        r.0.max_age == max_age,
        r.1@ == seq![StepView::Ask { question: QuestionView::ScanUploads { limit: usize::MAX } }],
{
}

/// The uploads are removed one after the other: the blobs of the parts, then the directory.
pub proof fn old_upload_is_removed_with_its_blobs(
    one: ReapingOne,
    refs: Result<Vec<RefEntry>, IoError>,
    table: Vec<PartRefFile>,
    r: (ReapingOne, Plan),
)
    requires
        call_ensures(ReapingOne::remove, (one, refs), r),
        call_ensures(read_part_refs, (refs,), Ok::<Vec<PartRefFile>, StorageError>(table)),
        one.next < one.uploads@.len(),
    ensures
        r.0.next == one.next + 1,
        r.0.uploads == one.uploads,
        r.0.failure == one.failure,
        r.1@.contains(
            StepView::Do {
                call: CallView::RemoveDirAll {
                    at: Place::Upload { id: one.uploads@[one.next as int]@ },
                },
                rule: Rule {
                    count: Some(Counter::Uploads),
                    missing_ok: false,
                    on_error: OnError::Ignore,
                    if_clean: false,
                },
            },
        ),
        forall|i: int|
            0 <= i < table@.len() && is_canonical_uuid((#[trigger] table@[i]).blob_id@)
                ==> r.1@.contains(
                StepView::Do {
                    call: CallView::RemoveFile { at: Place::Blob { id: table@[i].blob_id@ } },
                    rule: may(),
                },
            ),
        r.0.next < r.0.uploads@.len() ==> r.1@.last() == (StepView::Ask {
            question: QuestionView::ReadPartRefs { id: r.0.uploads@[r.0.next as int]@ },
        }),
        r.0.next >= r.0.uploads@.len() && r.0.failure is None ==> r.1@.last() == (
        StepView::Finish { outcome: OutcomeView::Nothing }),
        r.0.next >= r.0.uploads@.len() && r.0.failure is Some ==> r.1@.last() == (
        StepView::Fail { error: StorageError::Io(r.0.failure->0) }),
{
    let records = part_records(table@);
    let blobs = table_blobs(records);
    let gone = reclaim_steps(blobs, may());
    lemma_reclaimed(blobs, may());
    let front = reap_steps(one.uploads@[one.next as int]@, refs);
    assert(r.1@[gone.len() as int] == front[gone.len() as int]);
    assert forall|i: int| 0 <= i < table@.len() && is_canonical_uuid((#[trigger] table@[i]).blob_id@) implies r.1@.contains(
    StepView::Do {
        call: CallView::RemoveFile { at: Place::Blob { id: table@[i].blob_id@ } },
        rule: may(),
    }) by {
        assert(records[i] == table@[i]@);
        assert(blobs[i] == table@[i].blob_id@);
        let step = StepView::Do {
            call: CallView::RemoveFile { at: Place::Blob { id: table@[i].blob_id@ } },
            rule: may(),
        };
        let k = gone.index_of(step);
        assert(r.1@[k] == step);
    }
}

/// The removal of a blob that nothing names.
pub open spec fn removes_orphan(rel: Seq<char>) -> StepView {
    StepView::Do {
        call: CallView::RemoveFile { at: Place::BlobFile { rel } },
        rule: Rule {
            count: Some(Counter::Blobs),
            missing_ok: false,
            on_error: OnError::Ignore,
            if_clean: false,
        },
    }
}

/// A file whose name, behind the last slash of its path, is the id of a blob that nothing names.
pub open spec fn is_unnamed(rel: Seq<char>, referenced: Seq<String>) -> bool {
    exists|a: int|
        #[trigger] is_segment(rel, '/', a, rel.len() as int) && is_canonical_uuid(
            rel.subrange(a, rel.len() as int),
        ) && !has_text_in(referenced, rel.subrange(a, rel.len() as int))
}

proof fn lemma_unnamed(rel: Seq<char>, referenced: Seq<String>)
    ensures
        is_orphan(rel, texts(referenced)) <==> is_unnamed(rel, referenced),
{
    let all = split(rel, '/');
    lemma_split_pieces(rel, '/');
    let (a, b) = lemma_piece_is_segment(rel, '/', all.len() - 1);
    let n = rel.len() as int;
    assert(b == n);
    assert(rel.subrange(a, n) == file_name(rel));
    lemma_has(referenced, file_name(rel));
    if is_unnamed(rel, referenced) {
        let c = choose|c: int|
            #[trigger] is_segment(rel, '/', c, n) && is_canonical_uuid(rel.subrange(c, n))
                && !has_text_in(referenced, rel.subrange(c, n));
        assert(c == a) by {
            if c < a {
                assert(rel[a - 1] != '/');
            }
            if a < c {
                assert(rel[c - 1] != '/');
            }
        }
    }
}

proof fn lemma_orphans(rels: Seq<Seq<char>>, referenced: Seq<String>)
    ensures
        forall|i: int|
            0 <= i < rels.len() && is_unnamed(#[trigger] rels[i], referenced) ==> orphan_steps(
                rels,
                texts(referenced),
            ).contains(removes_orphan(rels[i])),
        forall|k: int|
            0 <= k < orphan_steps(rels, texts(referenced)).len() ==> removes_one(
                #[trigger] orphan_steps(rels, texts(referenced))[k],
                rels,
                referenced,
            ),
    decreases rels.len(),
{
    if rels.len() > 0 {
        let front = rels.drop_last();
        lemma_orphans(front, referenced);
        lemma_unnamed(rels.last(), referenced);
        let early = orphan_steps(front, texts(referenced));
        let all = orphan_steps(rels, texts(referenced));
        assert forall|i: int| 0 <= i < rels.len() && is_unnamed(#[trigger] rels[i], referenced) implies all.contains(
        removes_orphan(rels[i])) by {
            if i < front.len() {
                assert(front[i] == rels[i]);
                let k = early.index_of(removes_orphan(rels[i]));
                assert(all[k] == removes_orphan(rels[i]));
            } else {
                assert(all[all.len() - 1] == removes_orphan(rels[i]));
            }
        }
        assert forall|k: int| 0 <= k < all.len() implies removes_one(
            #[trigger] all[k],
            rels,
            referenced,
        ) by {
            if k < early.len() {
                assert(removes_one(early[k], front, referenced));
                let i = choose|i: int|
                    0 <= i < front.len() && is_unnamed(#[trigger] front[i], referenced) && early[k]
                        == removes_orphan(front[i]);
                assert(rels[i] == front[i]);
            } else {
                assert(is_unnamed(rels[rels.len() - 1], referenced));
            }
        }
    }
}

pub open spec fn removes_one(
    step: StepView,
    rels: Seq<Seq<char>>,
    referenced: Seq<String>,
) -> bool {
    exists|i: int|
        0 <= i < rels.len() && is_unnamed(#[trigger] rels[i], referenced) && step
            == removes_orphan(rels[i])
}

/// The sweep removes exactly the files that are blobs which nothing names.
pub proof fn only_unnamed_blobs_are_removed(
    g: GatheringParts,
    rels: Vec<String>,
    r: Result<Plan, StorageError>,
)
    requires
        call_ensures(GatheringParts::sweep, (g, Ok::<Vec<String>, IoError>(rels)), r),
    ensures
        r matches Ok(plan) && plan@.last() == (StepView::Finish { outcome: OutcomeView::Nothing }),
        forall|i: int|
            0 <= i < rels@.len() && is_unnamed((#[trigger] rels@[i])@, g.referenced@)
                ==> r->Ok_0@.contains(removes_orphan(rels@[i]@)),
        forall|k: int|
            0 <= k < r->Ok_0@.len() - 1 ==> removes_one(
                #[trigger] r->Ok_0@[k],
                texts(rels@),
                g.referenced@,
            ),
{
    let all = texts(rels@);
    lemma_orphans(all, g.referenced@);
    let steps = orphan_steps(all, texts(g.referenced@));
    let plan = r->Ok_0;
    assert forall|i: int| 0 <= i < rels@.len() && is_unnamed((#[trigger] rels@[i])@, g.referenced@) implies plan@.contains(
    removes_orphan(rels@[i]@)) by {
        assert(all[i] == rels@[i]@);
        let k = steps.index_of(removes_orphan(all[i]));
        assert(plan@[k] == steps[k]);
    }
    assert forall|k: int| 0 <= k < plan@.len() - 1 implies removes_one(
        #[trigger] plan@[k],
        texts(rels@),
        g.referenced@,
    ) by {
        assert(plan@[k] == steps[k]);
    }
}

/// What a manifest names is remembered, and nothing is forgotten. A manifest that cannot be read
/// ends the sweep.
pub proof fn named_blobs_are_remembered(
    g: Gathering,
    live: Result<Manifest, IoError>,
    r: Result<(Gathering, Plan), StorageError>,
)
    requires
        call_ensures(Gathering::read, (g, live), r),
    ensures
        live matches Err(e) ==> r == Err::<(Gathering, Plan), StorageError>(StorageError::Io(e)),
        live matches Ok(m) ==> (r matches Ok(p) && p.0.files == g.files && (g.next < usize::MAX
            ==> p.0.next == g.next + 1) && (forall|t: Seq<char>|
            has_text_in(g.referenced@, t) ==> #[trigger] has_text_in(p.0.referenced@, t)) && (forall|
            i: int,
        |
            0 <= i < m.parts@.len() ==> has_text_in(
                p.0.referenced@,
                (#[trigger] m.parts@[i]).blob_id@,
            ))),
        r matches Ok(p) ==> p.1@ == seq![
            StepView::Ask {
                question: if p.0.next < p.0.files@.len() {
                    QuestionView::ReadManifest {
                        at: Place::CurrentFile { rel: p.0.files@[p.0.next as int]@ },
                    }
                } else {
                    QuestionView::List { at: Place::Arriving }
                },
            },
        ],
{
    if let Ok(m) = live {
        let next = r->Ok_0.0;
        let before = texts(g.referenced@);
        let after = texts(next.referenced@);
        assert(after == before + m@.blobs());
        assert forall|t: Seq<char>| has_text_in(g.referenced@, t) implies #[trigger] has_text_in(
            next.referenced@,
            t,
        ) by {
            lemma_has(g.referenced@, t);
            lemma_has(next.referenced@, t);
            let k = before.index_of(t);
            assert(after[k] == t);
        }
        assert forall|i: int| 0 <= i < m.parts@.len() implies has_text_in(
            next.referenced@,
            (#[trigger] m.parts@[i]).blob_id@,
        ) by {
            lemma_has(next.referenced@, m.parts@[i].blob_id@);
            assert(m@.parts[i] == m.parts@[i]@);
            assert(after[before.len() + i] == m@.blobs()[i]);
        }
    }
}

/// Every manifest of the tree is going to be read.
pub proof fn every_manifest_is_gathered(
    rels: Vec<String>,
    r: Result<(Gathering, Plan), StorageError>,
    i: int,
    key: Seq<char>,
)
    requires
        call_ensures(Gathering::walked, (Ok::<Vec<String>, IoError>(rels),), r),
    ensures
        r matches Ok(p) && p.0.next == 0 && p.0.referenced@.len() == 0,
        0 <= i < rels@.len() && is_proper_key(key) && rels@[i]@ == key + ".s3gw-live.meta"@
            ==> has_text_in(r->Ok_0.0.files@, rels@[i]@),
{
    if 0 <= i < rels@.len() && is_proper_key(key) && rels@[i]@ == key + ".s3gw-live.meta"@ {
        lemma_read_back(key);
        let all = texts(rels@);
        assert(all[i] == rels@[i]@);
        lemma_manifest_files(all, i);
        lemma_has(r->Ok_0.0.files@, rels@[i]@);
    }
}

proof fn lemma_manifest_files(rels: Seq<Seq<char>>, i: int)
    requires
        0 <= i < rels.len(),
        decoded_key(rels[i]) is Some,
    ensures
        manifest_files(rels).contains(rels[i]),
    decreases rels.len(),
{
    let front = rels.drop_last();
    let all = manifest_files(rels);
    if i < front.len() {
        lemma_manifest_files(front, i);
        let k = manifest_files(front).index_of(rels[i]);
        assert(all[k] == rels[i]);
    } else {
        assert(all[all.len() - 1] == rels[i]);
    }
}

/// What the part records of an upload name is remembered. Records that cannot be read end the
/// sweep.
pub proof fn recorded_blobs_are_remembered(
    g: GatheringParts,
    refs: Result<Vec<RefEntry>, IoError>,
    read: Result<Vec<PartRefFile>, StorageError>,
    r: (GatheringParts, Plan),
)
    requires
        call_ensures(GatheringParts::read, (g, refs), r),
        call_ensures(read_part_refs, (refs,), read),
    ensures
        r.0.uploads == g.uploads,
        read matches Err(e) ==> r.1@ == seq![StepView::Fail { error: e }],
        read matches Ok(table) ==> (forall|t: Seq<char>|
            has_text_in(g.referenced@, t) ==> #[trigger] has_text_in(r.0.referenced@, t)) && (forall|
            i: int,
        |
            0 <= i < table@.len() ==> has_text_in(
                r.0.referenced@,
                (#[trigger] table@[i]).blob_id@,
            )) && r.1@ == seq![
            StepView::Ask {
                question: if r.0.next < r.0.uploads@.len() {
                    QuestionView::ReadPartRefs { id: r.0.uploads@[r.0.next as int]@ }
                } else {
                    QuestionView::Walk { at: Place::Blobs, instead: Place::Blobs }
                },
            },
        ],
{
    if let Ok(table) = read {
        let before = texts(g.referenced@);
        let after = texts(r.0.referenced@);
        let records = part_records(table@);
        assert(after == before + table_blobs(records));
        assert forall|t: Seq<char>| has_text_in(g.referenced@, t) implies #[trigger] has_text_in(
            r.0.referenced@,
            t,
        ) by {
            lemma_has(g.referenced@, t);
            lemma_has(r.0.referenced@, t);
            let k = before.index_of(t);
            assert(after[k] == t);
        }
        assert forall|i: int| 0 <= i < table@.len() implies has_text_in(
            r.0.referenced@,
            (#[trigger] table@[i]).blob_id@,
        ) by {
            lemma_has(r.0.referenced@, table@[i].blob_id@);
            assert(records[i] == table@[i]@);
            assert(after[before.len() + i] == table_blobs(records)[i]);
        }
    }
}

/// The removal of a blob that a journal lists.
pub open spec fn removes_journaled(id: Seq<char>) -> StepView {
    StepView::Do {
        call: CallView::RemoveExisting { at: Place::Blob { id } },
        rule: Rule {
            count: Some(Counter::Blobs),
            missing_ok: true,
            on_error: OnError::Taint,
            if_clean: false,
        },
    }
}

proof fn lemma_journaled(blobs: Seq<Seq<char>>)
    ensures
        forall|i: int|
            0 <= i < blobs.len() && is_canonical_uuid(#[trigger] blobs[i]) ==> journaled_steps(
                blobs,
            ).contains(removes_journaled(blobs[i])),
    decreases blobs.len(),
{
    if blobs.len() > 0 {
        let front = blobs.drop_last();
        lemma_journaled(front);
        let early = journaled_steps(front);
        let all = journaled_steps(blobs);
        assert forall|i: int| 0 <= i < blobs.len() && is_canonical_uuid(#[trigger] blobs[i]) implies all.contains(
        removes_journaled(blobs[i])) by {
            if i < front.len() {
                assert(front[i] == blobs[i]);
                let k = early.index_of(removes_journaled(blobs[i]));
                assert(all[k] == removes_journaled(blobs[i]));
            } else {
                assert(all[all.len() - 1] == removes_journaled(blobs[i]));
            }
        }
    }
}

/// The commit that the journal was written for took place: the live version is the one it waited
/// for, or the object is gone.
pub open spec fn took_place(d: Deciding, live: Result<Manifest, IoError>) -> bool {
    match d.journal.mode {
        JournalMode::Publish => live matches Ok(m) && m.commit_nonce@ == d.journal.commit_nonce@,
        JournalMode::Delete => live is Err,
    }
}

/// A journal removes its blobs exactly where its commit took place: where the live version has its
/// nonce, or where the deleted object is gone. In either case it is removed itself. Where the live
/// version cannot be read, nothing is decided.
pub proof fn journal_is_applied_where_its_commit_took_place(
    d: Deciding,
    live: Result<Manifest, IoError>,
    r: Result<(Option<Applying>, Plan), StorageError>,
)
    requires
        call_ensures(Deciding::apply, (d, live), r),
    ensures
        live is Err && live->Err_0.kind != IoErrorKind::NotFound ==> r == Err::<
            (Option<Applying>, Plan),
            StorageError,
        >(StorageError::Io(live->Err_0)),
        live is Ok || live->Err_0.kind == IoErrorKind::NotFound ==> (r matches Ok(p) && p.1@.contains(
            StepView::Do {
                call: CallView::RemoveFile { at: Place::Journal { name: d.name@ } },
                rule: Rule {
                    count: Some(Counter::Journals),
                    missing_ok: true,
                    on_error: OnError::Fail(Report::Io),
                    if_clean: true,
                },
            },
        ) && (took_place(d, live) ==> forall|i: int|
            0 <= i < d.journal.blobs@.len() && is_canonical_uuid(
                (#[trigger] d.journal.blobs@[i])@,
            ) ==> p.1@.contains(removes_journaled(d.journal.blobs@[i]@))) && (!took_place(d, live)
            ==> forall|k: int|
            0 <= k < p.1@.len() ==> !(#[trigger] p.1@[k] matches StepView::Do { call, .. } && call
                is RemoveExisting))),
{
    if live is Ok || live->Err_0.kind == IoErrorKind::NotFound {
        let blobs = d.journal@.blobs;
        let steps = apply_steps(d.name@, d.journal@, found(live));
        let plan = r->Ok_0.1@;
        let n = steps.len() as int;
        assert(steps[n - 1] == journal_cleanup(d.name@));
        assert(plan[n - 1] == steps[n - 1]);
        if took_place(d, live) {
            lemma_journaled(blobs);
            let gone = journaled_steps(blobs);
            assert forall|i: int|
                0 <= i < d.journal.blobs@.len() && is_canonical_uuid(
                    (#[trigger] d.journal.blobs@[i])@,
                ) implies plan.contains(removes_journaled(d.journal.blobs@[i]@)) by {
                assert(blobs[i] == d.journal.blobs@[i]@);
                let k = gone.index_of(removes_journaled(blobs[i]));
                assert(plan[k] == gone[k]);
            }
        } else {
            assert(n == 1);
            let rest = next_journal(texts(d.names@), d.next as int);
            assert(plan.len() == 2 + rest.len());
            assert forall|k: int| 0 <= k < plan.len() implies !(#[trigger] plan[k] matches StepView::Do { call, .. }
                && call is RemoveExisting) by {
                if k >= 2 {
                    assert(plan[k] == rest[k - 2]);
                }
            }
        }
    }
}

/// A journal is decided by the live version of the key it names.
pub proof fn journal_asks_for_its_key(
    a: Applying,
    j: crate::cas::records::Journal,
    r: (Result<Deciding, Option<Applying>>, Plan),
)
    requires
        call_ensures(Applying::read, (a, Ok::<crate::cas::records::Journal, IoError>(j)), r),
    ensures
        r.0 matches Ok(d) && d.name == a.name && d.journal == j,
        r.1@ == seq![
            StepView::Ask {
                question: QuestionView::ReadManifest {
                    at: Place::Manifest { key: j.supersedes_key@ },
                },
            },
        ],
{
}

proof fn lemma_readable(entries: Seq<Result<Entry, IoError>>)
    requires
        forall|i: int| 0 <= i < entries.len() ==> #[trigger] entries[i] is Ok,
    ensures
        first_error(entries) is None,
        readable(entries).len() == entries.len(),
        forall|i: int|
            0 <= i < entries.len() ==> readable(entries)[i] == (#[trigger] entries[i])->Ok_0.name@,
    decreases entries.len(),
{
    if entries.len() > 0 {
        let rest = entries.skip(1);
        assert forall|i: int| 0 <= i < rest.len() implies #[trigger] rest[i] is Ok by {
            assert(entries[i + 1] is Ok);
        }
        assert(entries[0] is Ok);
        lemma_readable(rest);
        assert forall|i: int| 0 <= i < entries.len() implies readable(entries)[i] == (
        #[trigger] entries[i])->Ok_0.name@ by {
            if i > 0 {
                assert(rest[i - 1] == entries[i]);
            }
        }
    }
}

pub open spec fn is_entry(entries: Seq<Result<Entry, IoError>>, name: Seq<char>) -> bool {
    exists|i: int| 0 <= i < entries.len() && (#[trigger] entries[i])->Ok_0.name@ == name
}

proof fn lemma_is_entry(entries: Seq<Result<Entry, IoError>>, name: Seq<char>)
    requires
        forall|i: int| 0 <= i < entries.len() ==> #[trigger] entries[i] is Ok,
    ensures
        readable(entries).contains(name) <==> is_entry(entries, name),
{
    lemma_readable(entries);
    if readable(entries).contains(name) {
        let i = readable(entries).index_of(name);
        assert(entries[i]->Ok_0.name@ == name);
    }
    if is_entry(entries, name) {
        let i = choose|i: int| 0 <= i < entries.len() && (#[trigger] entries[i])->Ok_0.name@ == name;
        assert(readable(entries)[i] == name);
    }
}

/// The names with a suffix are those of the entries that end with it.
pub proof fn names_are_picked_by_their_suffix(
    entries: Vec<Result<Entry, IoError>>,
    suffix: &str,
    r: (Vec<String>, Option<IoError>),
    name: Seq<char>,
)
    requires
        call_ensures(names_with_suffix, (entries, suffix), r),
        forall|i: int| 0 <= i < entries@.len() ==> #[trigger] entries@[i] is Ok,
    ensures
        r.1 is None,
        has_text_in(r.0@, name) <==> is_entry(entries@, name) && suffix@.is_suffix_of(name),
{
    lemma_readable(entries@);
    lemma_is_entry(entries@, name);
    lemma_suffix(readable(entries@), suffix@, name);
    lemma_has(r.0@, name);
}

/// The removal of a staged manifest.
pub open spec fn removes_staged(name: Seq<char>) -> StepView {
    StepView::Do {
        call: CallView::RemoveFile { at: Place::Staged { name } },
        rule: Rule {
            count: Some(Counter::Staged),
            missing_ok: false,
            on_error: OnError::Ignore,
            if_clean: false,
        },
    }
}

/// A sweep removes the staged manifests, and nothing else of the upload area. The journals follow
/// where they were asked for.
pub proof fn only_staged_manifests_are_removed(
    s: Sweeping,
    entries: Vec<Result<Entry, IoError>>,
    r: Result<Plan, StorageError>,
    name: Seq<char>,
)
    requires
        call_ensures(
            Sweeping::arriving,
            (s, Ok::<Vec<Result<Entry, IoError>>, IoError>(entries)),
            r,
        ),
        forall|i: int| 0 <= i < entries@.len() ==> #[trigger] entries@[i] is Ok,
    ensures
        r is Ok,
        r->Ok_0@.last() == (if s.journals {
            StepView::Ask { question: QuestionView::List { at: Place::Deleted } }
        } else {
            StepView::Finish { outcome: OutcomeView::Nothing }
        }),
        is_entry(entries@, name) && ".manifest"@.is_suffix_of(name) <==> r->Ok_0@.contains(
            removes_staged(name),
        ),
        forall|k: int|
            0 <= k < r->Ok_0@.len() - 1 ==> (#[trigger] r->Ok_0@[k] matches StepView::Do {
                call: CallView::RemoveFile { at: Place::Staged { name: n } },
                ..
            } && r->Ok_0@[k] == removes_staged(n)),
{
    lemma_readable(entries@);
    lemma_is_entry(entries@, name);
    let names = with_suffix(readable(entries@), ".manifest"@);
    lemma_suffix(readable(entries@), ".manifest"@, name);
    let steps = unstage_steps(names);
    let plan = r->Ok_0@;
    assert(plan.len() == steps.len() + 1);
    assert forall|k: int| 0 <= k < steps.len() implies plan[k] == removes_staged(names[k]) by {
        assert(plan[k] == steps[k]);
    }
    if names.contains(name) {
        let k = names.index_of(name);
        assert(plan[k] == removes_staged(name));
    }
    if plan.contains(removes_staged(name)) {
        let k = plan.index_of(removes_staged(name));
        assert(k < steps.len());
        assert(names[k] == name);
    }
}

/// The journals are applied that are named like journals.
pub proof fn journals_are_picked_by_their_name(
    s: Sweeping,
    entries: Vec<Result<Entry, IoError>>,
    r: Result<(Option<Applying>, Plan), StorageError>,
    name: Seq<char>,
)
    requires
        call_ensures(
            Sweeping::deleted,
            (s, Ok::<Vec<Result<Entry, IoError>>, IoError>(entries)),
            r,
        ),
        forall|i: int| 0 <= i < entries@.len() ==> #[trigger] entries@[i] is Ok,
    ensures
        r is Ok,
        r->Ok_0.0 matches Some(a) ==> (has_text_in(a.names@, name) <==> is_entry(entries@, name)
            && ".journal"@.is_suffix_of(name)) && a.next == 1 && a.name@ == a.names@[0]@
            && r->Ok_0.1@ == seq![
            StepView::Ask { question: QuestionView::ReadJournal { at: Place::Journal { name: a.name@ } } },
        ],
        r->Ok_0.0 is None ==> !(is_entry(entries@, name) && ".journal"@.is_suffix_of(name))
            && r->Ok_0.1@ == seq![StepView::Finish { outcome: OutcomeView::Nothing }],
{
    lemma_readable(entries@);
    lemma_is_entry(entries@, name);
    let names = with_suffix(readable(entries@), ".journal"@);
    lemma_suffix(readable(entries@), ".journal"@, name);
    if let Some(a) = r->Ok_0.0 {
        lemma_has(a.names@, name);
        assert(texts(a.names@)[0] == a.names@[0]@);
    } else {
        assert(!names.contains(name));
    }
}

/// The next journal follows where there is one; otherwise the sweep is done.
pub proof fn journals_follow_one_another(
    a: Applying,
    e: IoError,
    r: (Result<Deciding, Option<Applying>>, Plan),
)
    requires
        call_ensures(Applying::read, (a, Err::<crate::cas::records::Journal, IoError>(e)), r),
    ensures
        a.next < a.names@.len() ==> (r.0 matches Err(Some(b)) && b.name@ == a.names@[a.next as int]@
            && b.next == a.next + 1 && b.names@.len() == a.names@.len()) && r.1@ == seq![
            StepView::Ask {
                question: QuestionView::ReadJournal {
                    at: Place::Journal { name: a.names@[a.next as int]@ },
                },
            },
        ],
        a.next >= a.names@.len() ==> (r.0 matches Err(None)) && r.1@ == seq![
            StepView::Finish { outcome: OutcomeView::Nothing },
        ],
{
    if a.next < a.names@.len() {
        assert(texts(a.names@)[a.next as int] == a.names@[a.next as int]@);
        if let Err(Some(b)) = r.0 {
            assert(texts(b.names@).len() == texts(a.names@).len());
        }
    }
}

proof fn lemma_bucket_names(entries: Seq<Result<Entry, IoError>>)
    requires
        forall|i: int| 0 <= i < entries.len() ==> #[trigger] entries[i] is Ok,
    ensures
        forall|name: Seq<char>|
            #[trigger] bucket_names(entries).contains(name) <==> is_bucket_named(entries, name),
    decreases entries.len(),
{
    let all = bucket_names(entries);
    if entries.len() > 0 {
        let rest = entries.skip(1);
        assert forall|i: int| 0 <= i < rest.len() implies #[trigger] rest[i] is Ok by {
            assert(entries[i + 1] is Ok);
        }
        assert(entries[0] is Ok);
        lemma_is_bucket(entries[0]->Ok_0);
        lemma_bucket_names(rest);
        let later = bucket_names(rest);
        let n = if is_bucket(entries[0]) {
            1int
        } else {
            0int
        };
        assert(all.len() == n + later.len());
        assert forall|k: int| 0 <= k < later.len() implies all[n + k] == later[k] by {}
        assert forall|name: Seq<char>| #[trigger] all.contains(name) <==> is_bucket_named(
            entries,
            name,
        ) by {
            if all.contains(name) {
                let k = all.index_of(name);
                if k < n {
                    assert(entries[0]->Ok_0.name@ == name);
                } else {
                    assert(later[k - n] == name);
                    assert(later.contains(name));
                    let i = choose|i: int|
                        0 <= i < rest.len() && is_bucket(#[trigger] rest[i])
                            && rest[i]->Ok_0.name@ == name;
                    assert(entries[i + 1] == rest[i]);
                }
            }
            if is_bucket_named(entries, name) {
                let i = choose|i: int|
                    0 <= i < entries.len() && is_bucket(#[trigger] entries[i])
                        && entries[i]->Ok_0.name@ == name;
                if i == 0 {
                    assert(all[0] == name);
                } else {
                    assert(rest[i - 1] == entries[i]);
                    assert(later.contains(name));
                    let k = later.index_of(name);
                    assert(all[n + k] == name);
                }
            }
        }
    }
}

pub open spec fn is_bucket_named(entries: Seq<Result<Entry, IoError>>, name: Seq<char>) -> bool {
    exists|i: int|
        0 <= i < entries.len() && is_bucket(#[trigger] entries[i]) && entries[i]->Ok_0.name@ == name
}

/// A sweep of the data root visits exactly its buckets.
pub proof fn every_bucket_is_swept(
    store: &CasStore,
    entries: Vec<Result<Entry, IoError>>,
    recovery: BucketSweep,
    reaping: BucketSweep,
    name: Seq<char>,
)
    requires
        forall|i: int| 0 <= i < entries@.len() ==> #[trigger] entries@[i] is Ok,
        call_ensures(
            CasStore::recover,
            (store, Ok::<Vec<Result<Entry, IoError>>, IoError>(entries)),
            recovery,
        ),
        call_ensures(
            CasStore::gc_abandoned_uploads,
            (store, Ok::<Vec<Result<Entry, IoError>>, IoError>(entries)),
            reaping,
        ),
    ensures
        recovery.next == 0 && recovery.failure is None,
        reaping.next == 0 && reaping.failure is None,
        has_text_in(recovery.buckets@, name) <==> is_bucket_named(entries@, name),
        has_text_in(reaping.buckets@, name) <==> is_bucket_named(entries@, name),
{
    lemma_readable(entries@);
    lemma_bucket_names(entries@);
    lemma_has(recovery.buckets@, name);
    lemma_has(reaping.buckets@, name);
}

/// The buckets are swept in turn, what was removed is added up, and the first failure ends the
/// sweep.
pub proof fn sweep_goes_from_bucket_to_bucket(
    sweep: &BucketSweep,
    result: Result<Tallies, StorageError>,
    now: SweepStep,
    next: BucketSweep,
    stats: RecoveryStats,
)
    requires
        sweep.next < sweep.buckets@.len(),
        call_ensures(BucketSweep::next_step, (sweep,), now),
        call_ensures(BucketSweep::swept, (*sweep, result), next),
        call_ensures(RecoveryStats::of, (sweep,), stats),
    ensures
        now matches SweepStep::Bucket { name } && name@ == sweep.buckets@[sweep.next as int]@,
        result matches Err(e) ==> next.failure == Some(e) && next.next == sweep.buckets@.len()
            && next.totals == sweep.totals,
        result matches Ok(t) ==> {
            &&& next.failure == sweep.failure
            &&& next.next == sweep.next + 1
            &&& sweep.totals.staged + t.staged <= usize::MAX ==> next.totals.staged
                == sweep.totals.staged + t.staged
            &&& sweep.totals.journals + t.journals <= usize::MAX ==> next.totals.journals
                == sweep.totals.journals + t.journals
            &&& sweep.totals.blobs + t.blobs <= usize::MAX ==> next.totals.blobs
                == sweep.totals.blobs + t.blobs
            &&& sweep.totals.uploads + t.uploads <= usize::MAX ==> next.totals.uploads
                == sweep.totals.uploads + t.uploads
            &&& sweep.totals.staged + t.staged > usize::MAX ==> next.totals.staged == usize::MAX
            &&& sweep.totals.journals + t.journals > usize::MAX ==> next.totals.journals
                == usize::MAX
            &&& sweep.totals.blobs + t.blobs > usize::MAX ==> next.totals.blobs == usize::MAX
            &&& sweep.totals.uploads + t.uploads > usize::MAX ==> next.totals.uploads == usize::MAX
        },
        next.buckets == sweep.buckets,
        stats.buckets == sweep.next,
        stats.arriving_manifests_removed == sweep.totals.staged,
        stats.journals_processed == sweep.totals.journals,
        stats.journal_blobs_reclaimed == sweep.totals.blobs,
{
}

/// A sweep that visited all buckets is done, or failed with the first failure.
pub proof fn sweep_ends_behind_the_last_bucket(sweep: &BucketSweep, now: SweepStep)
    requires
        call_ensures(BucketSweep::next_step, (sweep,), now),
        sweep.next >= sweep.buckets@.len(),
    ensures
        sweep.failure is None ==> now is Done,
        sweep.failure matches Some(e) ==> (now matches SweepStep::Failed { error } && error == e),
{
}

/// What applying a journal did is what was counted.
pub proof fn applied_journal_is_counted(t: Tallies, r: ReclaimStats)
    requires
        call_ensures(ReclaimStats::from_tallies, (t,), r),
    ensures
        r.blobs_deleted == t.blobs,
        r.journals_removed == t.journals,
{
}

} // verus!
